use std::collections::HashMap;

use focus_internals::bazel::{dep_key_to_target, DependencyKey, DependencyValue};
use focus_internals::materialize::{Materialization, MaterializeAction, PathsToMaterialize};
use focus_internals::target::Label;

fn label(s: &str) -> Label {
    Label::parse(s).unwrap()
}

fn package(s: &str) -> DependencyKey {
    DependencyKey::BazelPackage(label(s))
}

/// Runs a materialization against an index given as target text to answer.
fn run(
    keys: Vec<DependencyKey>,
    prelude: Vec<Label>,
    index: &HashMap<String, DependencyValue>,
) -> (PathsToMaterialize, Vec<String>) {
    let mut m = Materialization::new(keys, prelude);
    let mut looked_up = Vec::new();
    loop {
        match m.next_action() {
            MaterializeAction::LookUp(k) => {
                let name = dep_key_to_target(&k);
                looked_up.push(name.clone());
                let value = index.get(&name).map(|v| match v {
                    DependencyValue::PackageInfo { deps } => DependencyValue::PackageInfo {
                        deps: deps.iter().map(|d| d.duplicate()).collect(),
                    },
                    DependencyValue::Path { path } => DependencyValue::Path { path: path.clone() },
                    DependencyValue::DummyForTesting(d) => DependencyValue::DummyForTesting(d.duplicate()),
                });
                m.absorb(k, vec![0xaa], value);
            }
            MaterializeAction::Finished => break,
        }
    }
    looked_up.sort();
    (m.finish(), looked_up)
}

#[test]
fn packages_bring_their_dependencies() {
    let mut index = HashMap::new();
    index.insert(
        "bazel://a:x".to_string(),
        DependencyValue::PackageInfo { deps: vec![package("//b:y"), package("//a:x"), DependencyKey::Path("docs".into())] },
    );
    index.insert("bazel://b:y".to_string(), DependencyValue::PackageInfo { deps: vec![package("//a:x")] });
    let (result, looked_up) = run(vec![package("//a:x"), package("//a:x")], vec![label("//tools:prelude.bzl")], &index);
    // Each package is looked up once, even when it is asked for again.
    assert_eq!(looked_up, vec!["bazel://a:x".to_string(), "bazel://b:y".to_string()]);
    match result {
        PathsToMaterialize::Complete { seen_keys, mut paths } => {
            paths.sort();
            assert_eq!(paths, vec!["a".to_string(), "b".to_string(), "docs".to_string(), "tools".to_string()]);
            assert_eq!(seen_keys.len(), 4);
        }
        other => panic!("unexpected {:?}", other),
    }
}

#[test]
fn unanswered_packages_are_missing() {
    let index = HashMap::new();
    let (result, looked_up) = run(vec![package("//a:x"), package("@ext//e:f")], vec![], &index);
    assert_eq!(looked_up, vec!["bazel://a:x".to_string()]);
    match result {
        PathsToMaterialize::MissingKeys { missing_keys, seen_keys } => {
            assert_eq!(missing_keys.len(), 1);
            assert_eq!(dep_key_to_target(&missing_keys[0].0), "bazel://a:x");
            assert_eq!(missing_keys[0].1, vec![0xaa]);
            assert_eq!(seen_keys.len(), 2);
        }
        other => panic!("unexpected {:?}", other),
    }
}

#[test]
fn paths_from_the_index_are_checked_out() {
    let mut index = HashMap::new();
    index.insert("bazel://a:x".to_string(), DependencyValue::Path { path: "generated/a".into() });
    let (result, _) = run(vec![package("//a:x")], vec![], &index);
    match result {
        PathsToMaterialize::Complete { mut paths, .. } => {
            paths.sort();
            assert_eq!(paths, vec!["a".to_string(), "generated/a".to_string()]);
        }
        other => panic!("unexpected {:?}", other),
    }
}
