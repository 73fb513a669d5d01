use prep::graph::{DependencyGraph, GraphError};
use prep::manifest::{
    LocalSourcePath, LockedPackage, LockedRoot, LockedSource, Lockfile, PackageName,
    PackageVersion, LOCK_SCHEMA_V1,
};

fn name(value: &str) -> PackageName {
    PackageName::parse(value).expect("fixture name")
}

fn lock_with(edges: &[(&str, &[&str])], roots: &[&str]) -> Lockfile {
    Lockfile {
        schema: LOCK_SCHEMA_V1.to_owned(),
        root: LockedRoot {
            name: name("root"),
            version: PackageVersion::parse("1").expect("version"),
            dependencies: roots.iter().map(|root| name(root)).collect(),
        },
        packages: edges
            .iter()
            .map(|(package, dependencies)| LockedPackage {
                name: name(package),
                version: PackageVersion::parse("1").expect("version"),
                dependencies: dependencies.iter().map(|dependency| name(dependency)).collect(),
                source: LockedSource::Path {
                    path: LocalSourcePath::parse("fixture").expect("path"),
                },
            })
            .collect(),
    }
}

fn order_names(graph: &DependencyGraph) -> Vec<String> {
    graph
        .build_order()
        .expect("order should build")
        .into_iter()
        .map(|name| name.as_str().to_owned())
        .collect()
}

#[test]
fn transitive_build_order_is_dependency_first_and_deterministic() {
    let lock = lock_with(
        &[("appdep", &["zlib", "fmt"]), ("fmt", &[]), ("zlib", &[])],
        &["appdep"],
    );
    let graph = DependencyGraph::from_lockfile(&lock).expect("graph should build");
    let names = order_names(&graph);
    assert_eq!(names, ["fmt", "zlib", "appdep"]);
}

#[test]
fn missing_transitive_dependency_fails() {
    let lock = lock_with(&[("a", &["missing"])], &["a"]);
    assert!(matches!(
        DependencyGraph::from_lockfile(&lock),
        Err(GraphError::MissingPackage { .. })
    ));
}

#[test]
fn cycle_is_reported() {
    let lock = lock_with(&[("a", &["b"]), ("b", &["a"])], &["a"]);
    assert!(matches!(
        DependencyGraph::from_lockfile(&lock),
        Err(GraphError::Cycle(_))
    ));
}

#[test]
fn build_order_ignores_the_order_packages_are_listed_in() {
    let first = lock_with(
        &[("c", &["a", "b"]), ("b", &["a"]), ("a", &[])],
        &["c"],
    );
    let second = lock_with(
        &[("a", &[]), ("c", &["b", "a"]), ("b", &["a"])],
        &["c"],
    );
    let one = DependencyGraph::from_lockfile(&first).expect("first graph");
    let two = DependencyGraph::from_lockfile(&second).expect("second graph");
    assert_eq!(order_names(&one), ["a", "b", "c"]);
    assert_eq!(order_names(&two), ["a", "b", "c"]);
}

#[test]
fn every_package_follows_its_dependencies() {
    let lock = lock_with(
        &[
            ("app", &["net", "log"]),
            ("net", &["tls", "log"]),
            ("tls", &["crypto"]),
            ("crypto", &[]),
            ("log", &[]),
        ],
        &["app", "tls"],
    );
    let graph = DependencyGraph::from_lockfile(&lock).expect("graph");
    let names = order_names(&graph);
    assert_eq!(names, ["log", "crypto", "tls", "net", "app"]);
    let position = |n: &str| names.iter().position(|x| x == n).expect("present");
    assert!(position("crypto") < position("tls"));
    assert!(position("tls") < position("net"));
    assert!(position("log") < position("net"));
    assert!(position("net") < position("app"));
}

#[test]
fn missing_root_dependency_names_the_root() {
    let lock = lock_with(&[("a", &[])], &["a", "absent"]);
    match DependencyGraph::from_lockfile(&lock) {
        Err(GraphError::MissingPackage { package, dependency }) => {
            assert_eq!(package, "<root>");
            assert_eq!(dependency, "absent");
        }
        other => panic!("unexpected {other:?}"),
    }
}

#[test]
fn missing_edge_names_package_and_dependency() {
    let lock = lock_with(&[("a", &["b"]), ("b", &["zz"])], &["a"]);
    match DependencyGraph::from_lockfile(&lock) {
        Err(GraphError::MissingPackage { package, dependency }) => {
            assert_eq!(package, "b");
            assert_eq!(dependency, "zz");
        }
        other => panic!("unexpected {other:?}"),
    }
}

#[test]
fn cycle_lists_the_path_back_to_its_start() {
    let lock = lock_with(&[("a", &["b"]), ("b", &["c"]), ("c", &["b"])], &["a"]);
    match DependencyGraph::from_lockfile(&lock) {
        Err(GraphError::Cycle(path)) => assert_eq!(path, ["b", "c", "b"]),
        other => panic!("unexpected {other:?}"),
    }
}

#[test]
fn invalid_lockfile_is_an_invalid_lock_error() {
    let mut lock = lock_with(&[("a", &[])], &["a"]);
    lock.schema = "prep.lock/2".to_owned();
    assert!(matches!(
        DependencyGraph::from_lockfile(&lock),
        Err(GraphError::InvalidLock(_))
    ));
}

#[test]
fn graph_errors_describe_themselves() {
    assert_eq!(
        GraphError::Cycle(vec!["a".to_owned(), "b".to_owned(), "a".to_owned()]).describe(),
        "dependency cycle: a -> b -> a"
    );
    assert_eq!(
        GraphError::MissingPackage { package: "a".to_owned(), dependency: "z".to_owned() }
            .describe(),
        "package a depends on missing locked package z"
    );
    assert_eq!(
        GraphError::InvalidLock("bad".to_owned()).describe(),
        "invalid lockfile graph: bad"
    );
}
