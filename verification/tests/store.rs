use prep::store::{
    lock_node_problem, output_entry_problem, require_absolute, symlink_target_problem, transaction_name,
    valid_transaction_id, ActivationPlan, NodeKind, PrefixLayout, ProjectPaths, PublishOutcome,
    ResultMetadata, Store, StoreError, StoreResultId, TargetComponent, UserPaths,
};

fn result_id(byte: &str) -> StoreResultId {
    StoreResultId::parse(&format!("sha256:{}", byte.repeat(64))).expect("valid result id")
}

#[test]
fn user_paths_follow_explicit_xdg_roots() {
    let paths = UserPaths::resolve("/home/test", Some("/data"), Some("/cache"))
        .expect("paths should resolve");
    assert_eq!(paths.store_root, "/data/prep/store");
    assert_eq!(paths.cache_root, "/cache/prep");
    assert!(UserPaths::resolve("relative", None, None).is_err());
}

#[test]
fn user_paths_default_under_home() {
    let paths = UserPaths::resolve("/home/test", None, None).expect("paths");
    assert_eq!(paths.data_root, "/home/test/.local/share/prep");
    assert_eq!(paths.store_root, "/home/test/.local/share/prep/store");
    assert_eq!(paths.cache_root, "/home/test/.cache/prep");
    match UserPaths::resolve("/home/test", Some("data"), None) {
        Err(StoreError::InvalidPath(message)) => {
            assert_eq!(message, "XDG_DATA_HOME must be an absolute path")
        }
        other => panic!("unexpected {other:?}"),
    }
}

#[test]
fn project_state_lives_in_dot_prep() {
    let paths = ProjectPaths::resolve("/work/app").expect("project");
    assert_eq!(paths.state_root, "/work/app/.prep");
    assert!(ProjectPaths::resolve("work/app").is_err());
}

#[test]
fn store_and_result_identity_cannot_encode_relative_paths() {
    for value in [
        "sha256:",
        "sha256:../0123456789abcdef",
        "sha256:/0123456789abcdef",
        "sha256:0123456789abcdef/0123456789abcdef",
        "sha256:0123456789abcdef\\0123456789abcdef",
    ] {
        assert!(StoreResultId::parse(value).is_err(), "accepted {value}");
    }
}

#[test]
fn result_ids_are_lower_case_and_round_trip() {
    let id = StoreResultId::parse(&format!("sha256:{}", "AB".repeat(32))).expect("id");
    assert_eq!(id.hex(), "ab".repeat(32));
    assert_eq!(id.as_string(), format!("sha256:{}", "ab".repeat(32)));
    assert_eq!(StoreResultId::parse(&id.as_string()).expect("again"), id);
    match StoreResultId::parse(&"ab".repeat(32)) {
        Err(StoreError::InvalidResultId(message)) => {
            assert_eq!(message, "result identity must use sha256:<64 hex> form")
        }
        other => panic!("unexpected {other:?}"),
    }
}

#[test]
fn store_layout_is_fixed_under_its_root() {
    let store = Store::at_root("/var/prep/store");
    assert_eq!(store.root(), "/var/prep/store");
    assert_eq!(store.staging_root(), "/var/prep/store/.staging");
    assert_eq!(store.lock_root(), "/var/prep/store/.locks");
    assert_eq!(store.results_root(), "/var/prep/store/results/sha256");
    assert_eq!(store.store_lock_path(), "/var/prep/store/.store.lock");
    let id = result_id("a");
    assert_eq!(
        store.result_path(&id),
        format!("/var/prep/store/results/sha256/{}", "a".repeat(64))
    );
    let published = store.published(&id);
    assert_eq!(published.prefix(), format!("{}/prefix", published.path()));
    assert_eq!(published.id(), &id);
    let outcome = PublishOutcome::Existing(published.clone());
    assert_eq!(outcome.result(), &published);
    assert_eq!(store.lease_path("txn-1"), "/var/prep/store/.locks/txn-1.lock");
    assert_eq!(store.staging_path("txn-1"), "/var/prep/store/.staging/txn-1");
}

#[test]
fn transaction_names_are_recoverable() {
    let name = transaction_name(4242, 0x1f2e3d, 7);
    assert_eq!(name, "txn-4242-1f2e3d-7");
    assert!(valid_transaction_id(&name));
    let longest = transaction_name(u32::MAX, u128::MAX, u64::MAX);
    assert!(valid_transaction_id(&longest));
    assert!(!valid_transaction_id("tx-1"));
    assert!(!valid_transaction_id("txn-../x"));
    assert!(!valid_transaction_id(&format!("txn-{}", "a".repeat(125))));
}

#[test]
fn result_metadata_round_trip() {
    let id = result_id("c");
    let metadata = ResultMetadata::for_result(&id);
    assert_eq!(metadata.schema, "prep.result/1");
    assert_eq!(metadata.retention, "pinned");
    assert!(metadata.describes(&id));
    assert!(!metadata.describes(&result_id("d")));
    let mut incomplete = metadata.clone();
    incomplete.state = "staging".to_owned();
    assert!(!incomplete.describes(&id));
}

#[test]
fn escaping_symlink_targets_are_rejected() {
    let (current, normal, parent, root) = (
        TargetComponent::Current,
        TargetComponent::Normal,
        TargetComponent::Parent,
        TargetComponent::Root,
    );
    assert_eq!(
        symlink_target_problem(false, 0, &vec![parent, parent, normal]),
        Some("relative symlink target escapes the result prefix")
    );
    assert_eq!(symlink_target_problem(false, 1, &vec![parent, normal]), None);
    assert_eq!(symlink_target_problem(false, 0, &vec![normal, parent, current, normal]), None);
    assert_eq!(
        symlink_target_problem(true, 3, &vec![normal]),
        Some("absolute symlink target escapes the result prefix")
    );
    assert_eq!(
        symlink_target_problem(false, 2, &vec![root]),
        Some("symlink target contains an absolute path prefix")
    );
}

#[test]
fn activation_reports_collisions_without_overwriting_results() {
    let store = Store::at_root("/s");
    let published = vec![store.published(&result_id("d")), store.published(&result_id("e"))];
    let layout = PrefixLayout { has_bin: true, has_lib_pkgconfig: false, has_share_pkgconfig: false };
    let leaves = vec![(
        "bin/tool".to_owned(),
        vec![result_id("d"), result_id("e")],
    )];
    let plan = ActivationPlan::assemble(&published, &vec![layout, layout], &leaves);
    assert_eq!(plan.path_entries.len(), 2);
    assert_eq!(plan.collisions.len(), 1);
    assert_eq!(plan.collisions[0].relative_path, "bin/tool");
    assert_eq!(plan.path_entries[0], format!("{}/bin", published[0].prefix()));
    assert_eq!(plan.cmake_prefixes.len(), 2);
}

#[test]
fn activation_lists_pkg_config_directories_and_skips_single_owners() {
    let store = Store::at_root("/s");
    let published = vec![store.published(&result_id("1"))];
    let layout = PrefixLayout { has_bin: false, has_lib_pkgconfig: true, has_share_pkgconfig: true };
    let leaves = vec![("lib/libz.a".to_owned(), vec![result_id("1")])];
    let plan = ActivationPlan::assemble(&published, &vec![layout], &leaves);
    assert!(plan.path_entries.is_empty());
    assert_eq!(
        plan.pkg_config_paths,
        vec![
            format!("{}/lib/pkgconfig", published[0].prefix()),
            format!("{}/share/pkgconfig", published[0].prefix()),
        ]
    );
    assert!(plan.collisions.is_empty());
}

#[test]
fn duplicate_results_are_refused() {
    let store = Store::at_root("/s");
    let published = vec![
        store.published(&result_id("d")),
        store.published(&result_id("e")),
        store.published(&result_id("d")),
    ];
    assert!(ActivationPlan::repeated_result(&published, 1).is_none());
    match ActivationPlan::repeated_result(&published, 2) {
        Some(StoreError::Activation(message)) => assert_eq!(
            message,
            format!("duplicate result sha256:{} in activation plan", "d".repeat(64))
        ),
        other => panic!("unexpected {other:?}"),
    }
}

#[test]
fn activation_plan_refuses_repeats_and_invalid_outputs_in_order() {
    let store = Store::at_root("/s");
    let published = vec![store.published(&result_id("a")), store.published(&result_id("a"))];
    let layout = PrefixLayout { has_bin: false, has_lib_pkgconfig: false, has_share_pkgconfig: false };
    let plan = ActivationPlan::from_results(
        &published,
        vec![Ok(()), Ok(())],
        &vec![layout, layout],
        Ok(Vec::new()),
    );
    assert!(matches!(plan, Err(StoreError::Activation(_))));

    let distinct = vec![store.published(&result_id("a")), store.published(&result_id("b"))];
    let invalid = ActivationPlan::from_results(
        &distinct,
        vec![
            Ok(()),
            Err(StoreError::InvalidOutput {
                path: "/s/x".to_owned(),
                message: "special files are not permitted in result prefixes".to_owned(),
            }),
        ],
        &vec![layout, layout],
        Ok(Vec::new()),
    );
    match invalid {
        Err(StoreError::InvalidOutput { path, .. }) => assert_eq!(path, "/s/x"),
        other => panic!("unexpected {other:?}"),
    }

    let listing_failed = ActivationPlan::from_results(
        &distinct,
        vec![Ok(()), Ok(())],
        &vec![layout, layout],
        Err(StoreError::Activation("activation path escaped prefix".to_owned())),
    );
    assert!(matches!(listing_failed, Err(StoreError::Activation(_))));

    let plan = ActivationPlan::from_results(
        &distinct,
        vec![Ok(()), Ok(())],
        &vec![layout, layout],
        Ok(vec![("bin/tool".to_owned(), vec![result_id("a"), result_id("b")])]),
    )
    .expect("plan");
    assert_eq!(plan.collisions.len(), 1);
    assert_eq!(plan.cmake_prefixes.len(), 2);
}

#[test]
fn store_errors_describe_themselves() {
    assert_eq!(
        StoreError::CorruptResult { path: "/r".to_owned(), message: "bad".to_owned() }.describe(),
        "corrupt result /r: bad"
    );
    assert_eq!(
        StoreError::InvalidOutput { path: "/o".to_owned(), message: "odd".to_owned() }.describe(),
        "invalid output /o: odd"
    );
    assert_eq!(
        StoreError::CrossFilesystem.describe(),
        "result staging and destination are on different filesystems"
    );
    let io = StoreError::Io {
        operation: "read result metadata",
        path: "/r/result.toml".to_owned(),
        source: std::io::Error::new(std::io::ErrorKind::NotFound, "gone"),
    };
    assert_eq!(io.describe(), "read result metadata /r/result.toml: gone");
}

#[test]
fn output_entries_and_lock_files_are_classified() {
    assert_eq!(output_entry_problem(NodeKind::File, 1), None);
    assert_eq!(
        output_entry_problem(NodeKind::File, 2),
        Some("hard-linked regular files are not permitted in v1 results")
    );
    assert_eq!(
        output_entry_problem(NodeKind::Other, 0),
        Some("special files are not permitted in result prefixes")
    );
    assert_eq!(output_entry_problem(NodeKind::Directory, 3), None);
    assert_eq!(lock_node_problem(NodeKind::File, 1), None);
    assert_eq!(lock_node_problem(NodeKind::File, 2), Some("lock file must not have hard links"));
    assert_eq!(lock_node_problem(NodeKind::Symlink, 1), Some("lock path must be a regular file"));
}

#[test]
fn store_roots_must_be_absolute() {
    assert!(require_absolute("store root", "/var/prep").is_ok());
    match require_absolute("store root", "relative-store") {
        Err(StoreError::InvalidPath(message)) => {
            assert_eq!(message, "store root must be an absolute path")
        }
        other => panic!("unexpected {other:?}"),
    }
}
