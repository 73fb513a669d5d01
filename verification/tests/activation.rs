use prep::activation::group_leaves;
use prep::store::{ActivationPlan, PrefixLayout, Store, StoreError, StoreResultId};

fn published(byte: &str) -> prep::store::PublishedResult {
    let id = StoreResultId::parse(&format!("sha256:{}", byte.repeat(64))).expect("valid result id");
    Store::at_root("/store").published(&id)
}

fn texts(values: &[&str]) -> Vec<String> {
    values.iter().map(|value| value.to_string()).collect()
}

#[test]
fn leaves_are_grouped_in_path_order_with_owners_in_result_order() {
    let results = vec![published("b"), published("a")];
    let files = vec![texts(&["lib/libz.a", "bin/tool"]), texts(&["bin-extra", "bin/tool", "bin/a"])];
    let leaves = group_leaves(&results, &files);
    let paths: Vec<&str> = leaves.iter().map(|(path, _)| path.as_str()).collect();
    assert_eq!(paths, vec!["bin/a", "bin/tool", "bin-extra", "lib/libz.a"]);
    let owners: Vec<Vec<String>> = leaves
        .iter()
        .map(|(_, ids)| ids.iter().map(|id| id.as_string()).collect())
        .collect();
    let b = format!("sha256:{}", "b".repeat(64));
    let a = format!("sha256:{}", "a".repeat(64));
    assert_eq!(owners[1], vec![b.clone(), a.clone()]);
    assert_eq!(owners[0], vec![a.clone()]);
    assert_eq!(owners[3], vec![b]);
}

#[test]
fn no_files_give_no_leaves() {
    let results = vec![published("c")];
    assert!(group_leaves(&results, &vec![Vec::new()]).is_empty());
}

#[test]
fn plan_reports_collisions_in_path_order_with_owners_in_result_order() {
    let results = vec![published("b"), published("a")];
    let layout = PrefixLayout { has_bin: true, has_lib_pkgconfig: false, has_share_pkgconfig: false };
    let files = vec![texts(&["share/x", "bin/tool"]), texts(&["bin/tool", "share/x", "lib/only"])];
    let plan = ActivationPlan::from_provided(&results, vec![Ok(()), Ok(())], &vec![layout, layout], Ok(files))
        .expect("plan");
    assert_eq!(plan.cmake_prefixes, vec![results[0].prefix().to_owned(), results[1].prefix().to_owned()]);
    assert_eq!(plan.path_entries.len(), 2);
    let paths: Vec<&str> = plan.collisions.iter().map(|c| c.relative_path.as_str()).collect();
    assert_eq!(paths, vec!["bin/tool", "share/x"]);
    assert_eq!(plan.collisions[0].result_ids, vec![results[0].id().clone(), results[1].id().clone()]);
    let duplicate = vec![published("b"), published("b")];
    match ActivationPlan::from_provided(&duplicate, vec![Ok(()), Ok(())], &vec![layout, layout], Ok(vec![vec![], vec![]])) {
        Err(StoreError::Activation(message)) => assert!(message.starts_with("duplicate result sha256:")),
        other => panic!("unexpected {other:?}"),
    }
}
