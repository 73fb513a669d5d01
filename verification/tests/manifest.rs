use prep::manifest::{
    BuildDeclaration, DependencyDeclaration, GitCommit, LocalSourcePath, LockedPackage,
    LockedRoot, LockedSource, Lockfile, Manifest, PackageMetadata, PackageName, PackageVersion,
    PluginName, ProviderIdentity, Sha256Digest, SourceDeclaration, SourceReference, SourceUrl,
    LOCK_SCHEMA_V1, MANIFEST_SCHEMA_V1,
};
use prep::text_map::TextMap;

fn name(value: &str) -> PackageName {
    PackageName::parse(value).expect("name")
}

fn version(value: &str) -> PackageVersion {
    PackageVersion::parse(value).expect("version")
}

/// The manifest of the `hello` package that depends on `fmt` from Git.
fn manifest() -> Manifest {
    Manifest {
        schema: MANIFEST_SCHEMA_V1.to_owned(),
        package: PackageMetadata {
            name: name("hello"),
            version: version("1.0.0"),
        },
        build: BuildDeclaration {
            systems: vec![
                PluginName::parse("cmake").expect("plugin"),
                PluginName::parse("ninja").expect("plugin"),
            ],
            options: TextMap::new(),
        },
        dependencies: vec![DependencyDeclaration {
            name: name("fmt"),
            version: version("11.2.0"),
            source: SourceDeclaration::Git {
                url: SourceUrl::parse("https://github.com/fmtlib/fmt").expect("url"),
                reference: Some(SourceReference::parse("11.2.0").expect("ref")),
            },
        }],
    }
}

/// The lockfile that resolves `manifest()`, with `requested_ref` as given.
fn lock(requested_ref: &str) -> Lockfile {
    Lockfile {
        schema: LOCK_SCHEMA_V1.to_owned(),
        root: LockedRoot {
            name: name("hello"),
            version: version("1.0.0"),
            dependencies: vec![name("fmt")],
        },
        packages: vec![LockedPackage {
            name: name("fmt"),
            version: version("11.2.0"),
            dependencies: Vec::new(),
            source: LockedSource::Git {
                url: SourceUrl::parse("https://github.com/fmtlib/fmt").expect("url"),
                commit: GitCommit::parse("0123456789abcdef0123456789abcdef01234567")
                    .expect("commit"),
                requested_ref: Some(SourceReference::parse(requested_ref).expect("ref")),
                provider: ProviderIdentity {
                    name: PluginName::parse("builtin.git").expect("provider"),
                    version: version("0.1.0"),
                },
            },
        }],
    }
}

#[test]
fn identifiers_reject_path_like_and_control_values() {
    for invalid in ["", ".", "..", "a/b", "a\\b", " bad", "bad\nname"] {
        assert!(PackageName::parse(invalid).is_err(), "accepted {invalid:?}");
    }
    for valid in ["fmt", "OpenSSL", "lib.foo", "foo_bar", "foo-bar"] {
        assert!(PackageName::parse(valid).is_ok(), "rejected {valid:?}");
    }
}

#[test]
fn unknown_schema_and_unknown_fields_fail_closed() {
    let mut unknown = manifest();
    unknown.schema = "prep/99".to_owned();
    assert!(unknown.validate().is_err());
    assert!(manifest().validate().is_ok());
}

#[test]
fn archive_requires_https() {
    let mut input = manifest();
    input.dependencies[0].source = SourceDeclaration::Archive {
        url: SourceUrl::parse("http://example.invalid/fmt.tar.gz").expect("url"),
        sha256: Some(
            Sha256Digest::parse("0123456789abcdef0123456789abcdef0123456789abcdef0123456789abcdef")
                .expect("digest"),
        ),
    };
    assert!(input.validate().is_err());
}

#[test]
fn local_source_is_never_globally_cacheable() {
    let source = LockedSource::Path {
        path: LocalSourcePath::parse("../fmt").expect("local path should parse"),
    };
    assert!(!source.is_immutable());
    assert!(!source.is_globally_cacheable());
}

#[test]
fn lock_source_mismatch_is_rejected() {
    let manifest = manifest();
    let lock = lock("main");
    assert!(lock.validate().is_ok(), "lock remains structurally valid");
    assert!(lock.validate_against(&manifest).is_err());
}

#[test]
fn matching_lock_validates_against_manifest() {
    assert!(lock("11.2.0").validate_against(&manifest()).is_ok());
}

#[test]
fn schema_error_names_both_schemas() {
    let mut unknown = manifest();
    unknown.schema = "prep/99".to_owned();
    let error = unknown.validate().expect_err("unknown schema");
    assert_eq!(
        error.message(),
        "unsupported manifest schema \"prep/99\"; expected prep/1"
    );
}

#[test]
fn archive_error_message() {
    let mut input = manifest();
    input.dependencies[0].source = SourceDeclaration::Archive {
        url: SourceUrl::parse("http://example.invalid/fmt.tar.gz").expect("url"),
        sha256: None,
    };
    assert_eq!(
        input.validate().expect_err("http archive").message(),
        "archive sources require an https:// URL in Prep 2 v1"
    );
}

#[test]
fn duplicate_dependency_is_rejected() {
    let mut input = manifest();
    let copy = input.dependencies[0].clone();
    input.dependencies.push(copy);
    assert_eq!(
        input.validate().expect_err("duplicate").message(),
        "duplicate dependency fmt"
    );
}

#[test]
fn lock_errors_are_specific() {
    let mut other_root = lock("11.2.0");
    other_root.root.name = name("other");
    assert_eq!(
        other_root.validate_against(&manifest()).expect_err("root").message(),
        "lock root package identity does not match manifest"
    );

    let mut extra_root_dependency = lock("11.2.0");
    extra_root_dependency.root.dependencies.push(name("zlib"));
    assert_eq!(
        extra_root_dependency
            .validate_against(&manifest())
            .expect_err("dependency set")
            .message(),
        "lock root dependency set does not match manifest dependencies"
    );

    let mut other_version = lock("11.2.0");
    other_version.packages[0].version = version("11.1.0");
    assert_eq!(
        other_version.validate_against(&manifest()).expect_err("version").message(),
        "locked version for fmt does not match manifest"
    );

    assert_eq!(
        lock("main").validate_against(&manifest()).expect_err("source").message(),
        "locked source for fmt does not match manifest: source kind or declared identity differs"
    );

    let mut duplicate = lock("11.2.0");
    let copy = duplicate.packages[0].clone();
    duplicate.packages.push(copy);
    assert_eq!(
        duplicate.validate().expect_err("duplicate").message(),
        "duplicate locked package fmt"
    );
}

#[test]
fn validators_report_their_rules() {
    assert_eq!(
        PackageName::parse("").expect_err("empty").message(),
        "identifier must not be empty"
    );
    assert_eq!(
        PackageName::parse("-x").expect_err("leading dash").message(),
        "identifier must begin with an ASCII letter or digit"
    );
    assert_eq!(
        PackageName::parse(&"a".repeat(129)).expect_err("long").message(),
        "identifier exceeds 128 bytes"
    );
    assert!(PackageVersion::parse("1.0+build").is_ok());
    assert!(PackageName::parse("1.0+build").is_err());
    assert!(SourceUrl::parse("git@github.com:fmtlib/fmt.git").is_ok());
    assert!(SourceUrl::parse("github.com/fmtlib/fmt").is_err());
    assert!(SourceUrl::parse("https://exa mple.invalid").is_err());
    assert!(SourceReference::parse("ma\u{7}in").is_err());
    assert!(LocalSourcePath::parse("a\0b").is_err());
}

#[test]
fn digests_and_commits_are_normalized() {
    let digest = Sha256Digest::parse(&format!("SHA256:{}", "AB".repeat(32))).expect("tagged");
    assert_eq!(digest.as_str(), "ab".repeat(32));
    assert_eq!(digest.tagged(), format!("sha256:{}", "ab".repeat(32)));
    assert!(Sha256Digest::parse("abc").is_err());
    let commit = GitCommit::parse(&"AB".repeat(20)).expect("sha-1 commit");
    assert_eq!(commit.as_str(), "ab".repeat(20));
    assert!(GitCommit::parse(&"a".repeat(64)).is_ok());
    assert!(GitCommit::parse(&"a".repeat(41)).is_err());
}

#[test]
fn canonical_identity_of_each_source() {
    let git = lock("11.2.0").packages[0].source.clone();
    assert_eq!(
        git.canonical_identity(),
        "git:https://github.com/fmtlib/fmt@0123456789abcdef0123456789abcdef01234567"
    );
    let archive = LockedSource::Archive {
        url: SourceUrl::parse("https://example.invalid/a.tar.gz").expect("url"),
        sha256: Sha256Digest::parse(&"0f".repeat(32)).expect("digest"),
        provider: ProviderIdentity {
            name: PluginName::parse("builtin.archive").expect("provider"),
            version: version("0.1.0"),
        },
    };
    assert_eq!(
        archive.canonical_identity(),
        format!("archive:https://example.invalid/a.tar.gz#sha256:{}", "0f".repeat(32))
    );
    assert!(archive.is_globally_cacheable());
    let local = LockedSource::Path {
        path: LocalSourcePath::parse("../fmt").expect("path"),
    };
    assert_eq!(local.canonical_identity(), "local:../fmt");
}

#[test]
fn normal_form_orders_dependencies_and_systems() {
    let mut input = manifest();
    input.build.systems = vec![
        PluginName::parse("ninja").expect("plugin"),
        PluginName::parse("cmake").expect("plugin"),
        PluginName::parse("make").expect("plugin"),
    ];
    input.dependencies.push(DependencyDeclaration {
        name: name("abseil"),
        version: version("1"),
        source: SourceDeclaration::Path {
            path: LocalSourcePath::parse("../abseil").expect("path"),
        },
    });
    let normal = input.clone().normalized().expect("valid manifest");
    let systems: Vec<&str> = normal.build.systems.iter().map(|s| s.as_str()).collect();
    assert_eq!(systems, ["cmake", "make", "ninja"]);
    let names: Vec<&str> = normal.dependencies.iter().map(|d| d.name.as_str()).collect();
    assert_eq!(names, ["abseil", "fmt"]);

    let mut reordered = input.clone();
    reordered.dependencies.reverse();
    reordered.build.systems.reverse();
    assert_eq!(reordered.normalized().expect("valid manifest"), normal);
}

#[test]
fn normal_form_of_invalid_manifest_is_refused() {
    let mut input = manifest();
    input.schema = "prep/2".to_owned();
    assert!(input.normalized().is_err());
}

#[test]
fn lock_normal_form_orders_packages_and_edges() {
    let mut input = lock("11.2.0");
    let mut zlib = input.packages[0].clone();
    zlib.name = name("zlib");
    zlib.dependencies = vec![name("fmt"), name("abseil")];
    let mut abseil = input.packages[0].clone();
    abseil.name = name("abseil");
    input.packages.insert(0, zlib);
    input.packages.push(abseil);
    input.root.dependencies = vec![name("zlib"), name("fmt")];
    let normal = input.normalized().expect("valid lock");
    let packages: Vec<&str> = normal.packages.iter().map(|p| p.name.as_str()).collect();
    assert_eq!(packages, ["abseil", "fmt", "zlib"]);
    let edges: Vec<&str> = normal.packages[2].dependencies.iter().map(|d| d.as_str()).collect();
    assert_eq!(edges, ["abseil", "fmt"]);
    let roots: Vec<&str> = normal.root.dependencies.iter().map(|d| d.as_str()).collect();
    assert_eq!(roots, ["fmt", "zlib"]);
}

#[test]
fn lock_normal_form_ignores_listing_order() {
    let mut first = lock("11.2.0");
    let mut zlib = first.packages[0].clone();
    zlib.name = name("zlib");
    zlib.dependencies = vec![name("fmt"), name("abseil")];
    let mut abseil = first.packages[0].clone();
    abseil.name = name("abseil");
    first.packages.push(zlib.clone());
    first.packages.push(abseil.clone());
    first.root.dependencies = vec![name("zlib"), name("fmt")];

    let mut second = lock("11.2.0");
    zlib.dependencies.reverse();
    second.packages.insert(0, abseil);
    second.packages.insert(1, zlib);
    second.root.dependencies = vec![name("fmt"), name("zlib")];

    assert_eq!(
        first.normalized().expect("first"),
        second.normalized().expect("second")
    );
}
