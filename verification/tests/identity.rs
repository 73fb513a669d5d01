use prep::identity::{
    digest_hex, BuildInput, DependencyResult, IdentityError, PluginBuildIdentity, ResultId, ToolIdentity,
};
use prep::manifest::{
    GitCommit, LocalSourcePath, LockedSource, PackageName, PackageVersion, PluginName,
    ProviderIdentity, Sha256Digest, SourceUrl,
};
use prep::text_map::TextMap;

fn text_map(pairs: &[(&str, &str)]) -> TextMap {
    TextMap::from_pairs(
        pairs
            .iter()
            .map(|(key, value)| (key.to_string(), value.to_string()))
            .collect(),
    )
}

fn base() -> BuildInput {
    BuildInput {
        source: LockedSource::Git {
            url: SourceUrl::parse("https://example.invalid/lib.git").expect("url"),
            commit: GitCommit::parse("0123456789abcdef0123456789abcdef01234567").expect("commit"),
            requested_ref: None,
            provider: ProviderIdentity {
                name: PluginName::parse("builtin.git").expect("provider name"),
                version: PackageVersion::parse("0.1.0").expect("provider version"),
            },
        },
        dependencies: vec![DependencyResult {
            package: PackageName::parse("dep").expect("package"),
            result: ResultId::parse(&format!("sha256:{}", "11".repeat(32))).expect("result id"),
        }],
        target: "x86_64-unknown-linux-gnu".to_owned(),
        toolchain: ToolIdentity {
            role: "compiler".to_owned(),
            executable: "/usr/bin/clang++".to_owned(),
            version: "clang 20.1".to_owned(),
        },
        build_tools: vec![ToolIdentity {
            role: "cmake".to_owned(),
            executable: "/usr/bin/cmake".to_owned(),
            version: "cmake 4.1".to_owned(),
        }],
        plugin: PluginBuildIdentity {
            name: PluginName::parse("cmake").expect("plugin name"),
            version: PackageVersion::parse("0.1.0").expect("plugin version"),
            content_digest: Sha256Digest::parse(&"22".repeat(32)).expect("plugin digest"),
            protocol: "prep.plugin/1".to_owned(),
        },
        configuration: text_map(&[("build_type", "release")]),
        environment: text_map(&[("CXXFLAGS", "-O2")]),
    }
}

#[test]
fn identity_is_stable_for_equivalent_input_order() {
    let first = base();
    let mut second = base();
    second.dependencies.insert(
        0,
        DependencyResult {
            package: PackageName::parse("alpha").expect("package"),
            result: ResultId::parse(&format!("sha256:{}", "33".repeat(32))).expect("result id"),
        },
    );
    let mut first_with_alpha = first.clone();
    first_with_alpha.dependencies.push(second.dependencies[0].clone());
    assert_eq!(
        first_with_alpha.result_identity().expect("identity"),
        second.result_identity().expect("identity")
    );
}

#[test]
fn material_build_inputs_change_identity() {
    let baseline = base().result_identity().expect("baseline identity");

    let mut compiler = base();
    compiler.toolchain.version = "clang 21.0".to_owned();
    assert_ne!(baseline, compiler.result_identity().expect("compiler identity"));

    let mut target = base();
    target.target = "aarch64-apple-darwin".to_owned();
    assert_ne!(baseline, target.result_identity().expect("target identity"));

    let mut dependency = base();
    dependency.dependencies[0].result =
        ResultId::parse(&format!("sha256:{}", "44".repeat(32))).expect("result id");
    assert_ne!(baseline, dependency.result_identity().expect("dependency identity"));

    let mut build_tool = base();
    build_tool.build_tools[0].version = "cmake 4.2".to_owned();
    assert_ne!(baseline, build_tool.result_identity().expect("build tool identity"));

    let mut configuration = base();
    configuration
        .configuration
        .insert("build_type".to_owned(), "debug".to_owned());
    assert_ne!(
        baseline,
        configuration.result_identity().expect("configuration identity")
    );
}

#[test]
fn local_source_refuses_reusable_result_identity() {
    let mut input = base();
    input.source = LockedSource::Path {
        path: LocalSourcePath::parse("../local").expect("path"),
    };
    assert_eq!(input.result_identity(), Err(IdentityError::NonCacheableSource));
}

#[test]
fn duplicate_tool_role_fails_closed() {
    let mut input = base();
    input.build_tools.push(ToolIdentity {
        role: "cmake".to_owned(),
        executable: "/opt/cmake/bin/cmake".to_owned(),
        version: "cmake 4.2".to_owned(),
    });
    assert!(matches!(
        input.result_identity(),
        Err(IdentityError::DuplicateToolRole(_))
    ));
}

#[test]
fn identity_is_sha256_of_the_labelled_fields() {
    let id = base().result_identity().expect("identity");
    let text = id.as_str();
    assert!(text.starts_with("sha256:"));
    assert_eq!(text.len(), 7 + 64);
    assert!(text[7..].bytes().all(|b| b.is_ascii_digit() || (b'a'..=b'f').contains(&b)));
    assert_eq!(id, base().result_identity().expect("same input, same identity"));
}

#[test]
fn tool_order_does_not_change_identity() {
    let mut first = base();
    first.build_tools.push(ToolIdentity {
        role: "ninja".to_owned(),
        executable: "/usr/bin/ninja".to_owned(),
        version: "1.12".to_owned(),
    });
    let mut second = base();
    second.build_tools.insert(
        0,
        ToolIdentity {
            role: "ninja".to_owned(),
            executable: "/usr/bin/ninja".to_owned(),
            version: "1.12".to_owned(),
        },
    );
    assert_eq!(
        first.result_identity().expect("first"),
        second.result_identity().expect("second")
    );
}

#[test]
fn environment_changes_identity() {
    let baseline = base().result_identity().expect("baseline");
    let mut changed = base();
    changed
        .environment
        .insert("CXXFLAGS".to_owned(), "-O3".to_owned());
    assert_ne!(baseline, changed.result_identity().expect("changed"));
}

#[test]
fn duplicate_dependency_is_named() {
    let mut input = base();
    input.dependencies.push(input.dependencies[0].clone());
    assert_eq!(
        input.result_identity(),
        Err(IdentityError::DuplicateDependency("dep".to_owned()))
    );
}

#[test]
fn invalid_scalars_are_reported_in_order() {
    let mut empty_target = base();
    empty_target.target = String::new();
    assert_eq!(
        empty_target.result_identity(),
        Err(IdentityError::Invalid("target must not be empty".to_owned()))
    );

    let mut nul_tool = base();
    nul_tool.toolchain.executable = "cl\0ang".to_owned();
    assert_eq!(
        nul_tool.result_identity(),
        Err(IdentityError::Invalid("tool executable contains NUL".to_owned()))
    );

    let mut huge_protocol = base();
    huge_protocol.plugin.protocol = "p".repeat(16 * 1024 + 1);
    assert_eq!(
        huge_protocol.result_identity(),
        Err(IdentityError::Invalid("plugin protocol is unreasonably large".to_owned()))
    );

    let mut empty_value = base();
    empty_value
        .configuration
        .insert("opt".to_owned(), String::new());
    assert_eq!(
        empty_value.result_identity(),
        Err(IdentityError::Invalid("build input value must not be empty".to_owned()))
    );
}

#[test]
fn result_id_parse_normalizes_case() {
    let upper = format!("sha256:{}", "AB".repeat(32));
    let id = ResultId::parse(&upper).expect("upper-case digest");
    assert_eq!(id.as_str(), format!("sha256:{}", "ab".repeat(32)));
    assert!(ResultId::parse("sha256:xyz").is_err());
    assert!(ResultId::parse(&"ab".repeat(32)).is_err());
}

#[test]
fn identity_errors_describe_themselves() {
    assert_eq!(
        IdentityError::NonCacheableSource.describe(),
        "local development source is not eligible for a reusable result identity"
    );
    assert_eq!(
        IdentityError::DuplicateDependency("dep".to_owned()).describe(),
        "duplicate dependency result for dep"
    );
    assert_eq!(
        IdentityError::DuplicateToolRole("cmake".to_owned()).describe(),
        "duplicate output-affecting tool role cmake"
    );
    assert_eq!(IdentityError::Invalid("x".to_owned()).describe(), "x");
}

#[test]
fn identity_is_64_lower_hex_digits_and_parses_back() {
    let id = base().result_identity().expect("identity");
    let text = id.as_str();
    assert_eq!(text.len(), 71);
    assert!(text.starts_with("sha256:"));
    assert!(text[7..].bytes().all(|b| b.is_ascii_digit() || (b'a'..=b'f').contains(&b)));
    assert_eq!(ResultId::parse(text).expect("parses").as_str(), text);
}

#[test]
fn digest_hex_renders_two_lower_case_digits_per_byte() {
    assert_eq!(digest_hex(&[0x00, 0x0f, 0xa0, 0xff]), "000fa0ff");
    assert_eq!(digest_hex(&[]), "");
}
