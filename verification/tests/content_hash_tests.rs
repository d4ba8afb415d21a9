use focus_internals::bazel::{dep_key_to_target, DependencyKey};
use focus_internals::content_hash::{
    cache_key, hash_plan, hash_text, tree_path_hash_text, ContentHashError, HashInput,
};
use focus_internals::target::Label;

fn label(s: &str) -> Label {
    Label::parse(s).unwrap()
}

fn describe(inputs: &[HashInput]) -> Vec<String> {
    inputs
        .iter()
        .map(|i| match i {
            HashInput::Key(DependencyKey::Path(p)) => format!("path-key {}", p),
            HashInput::Key(DependencyKey::BazelBuildFile(l)) => format!("build-file {}", l.to_string()),
            HashInput::Key(k) => format!("key {}", dep_key_to_target(k)),
            HashInput::TreePath(p) => format!("tree {}", p),
        })
        .collect()
}

#[test]
fn packages_are_cached_by_package() {
    let k = cache_key(&DependencyKey::BazelPackage(label("//a/b:c")));
    match k {
        DependencyKey::BazelPackage(l) => assert_eq!(l.to_string(), "//a/b/..."),
        other => panic!("unexpected {:?}", other),
    }
    match cache_key(&DependencyKey::BazelBuildFile(label("//a/b:BUILD"))) {
        DependencyKey::BazelBuildFile(l) => assert_eq!(l.to_string(), "//a/b:BUILD"),
        other => panic!("unexpected {:?}", other),
    }
}

#[test]
fn package_hash_inputs() {
    let loaded = vec![label("//tools:defs.bzl"), label("//tools/build_rules:prelude_bazel")];
    let plan = hash_plan(&DependencyKey::BazelPackage(label("//a/b:c")), &loaded).unwrap();
    assert_eq!(plan.kind, "BazelPackage");
    assert_eq!(plan.label.unwrap().to_string(), "//a/b:c");
    assert_eq!(
        describe(&plan.inputs),
        vec![
            "path-key a/b",
            "build-file //tools:defs.bzl",
            "build-file //tools/build_rules:prelude_bazel",
            "build-file //:WORKSPACE",
        ]
    );
    let external = hash_plan(&DependencyKey::BazelPackage(label("@x//a:c")), &loaded).unwrap();
    assert_eq!(describe(&external.inputs), vec!["path-key a", "build-file //:WORKSPACE"]);
}

#[test]
fn build_file_hash_inputs() {
    let loaded = vec![label("//a:BUILD"), label("//b:defs.bzl")];
    let plan = hash_plan(&DependencyKey::BazelBuildFile(label("//a:BUILD")), &loaded).unwrap();
    assert_eq!(plan.kind, "BazelBuildFile");
    assert_eq!(
        describe(&plan.inputs),
        vec!["path-key a/BUILD", "build-file //b:defs.bzl", "path-key WORKSPACE"]
    );
    let external = hash_plan(&DependencyKey::BazelBuildFile(label("@x//a:BUILD")), &loaded).unwrap();
    assert_eq!(describe(&external.inputs), vec!["path-key WORKSPACE"]);
    match hash_plan(&DependencyKey::BazelBuildFile(label("//a/...")), &loaded) {
        Err(ContentHashError::EllipsisBuildFile(l)) => assert_eq!(l.to_string(), "//a/..."),
        other => panic!("unexpected {:?}", other),
    }
}

#[test]
fn path_and_dummy_hash_inputs() {
    let plan = hash_plan(&DependencyKey::Path("x/y".into()), &vec![]).unwrap();
    assert_eq!(plan.kind, "Path");
    assert!(plan.label.is_none());
    assert_eq!(describe(&plan.inputs), vec!["tree x/y"]);
    let inner = DependencyKey::Path("z".into());
    let plan = hash_plan(&DependencyKey::DummyForTesting(Box::new(inner)), &vec![]).unwrap();
    assert_eq!(plan.kind, "DummyForTesting");
    assert_eq!(describe(&plan.inputs), vec!["path-key z"]);
}

#[test]
fn hashed_texts() {
    let l = label("//a:b");
    let text = hash_text("BazelPackage", Some(&l), &vec![vec![0x01, 0xab], vec![0xff]]);
    assert_eq!(text, "DependencyKeyV7::BazelPackage(//a:b, 01ab, ff, )");
    assert_eq!(hash_text("Path", None, &vec![]), "DependencyKeyV7::Path()");
    assert_eq!(tree_path_hash_text(&[0x00, 0x10]), "PathBufV7(0010)");
}

#[test]
fn test_extract_load_statements() {
    let content = r#"
load("//foo/bar:baz.bzl")
load   (
    '//foo/qux:qux.bzl'

,    qux = 'grault')
"#;
    let labels = focus_internals::content_hash::load_statement_labels(content).unwrap();
    let mut texts: Vec<String> = labels.iter().map(|l| l.to_string()).collect();
    texts.sort();
    assert_eq!(texts, vec!["//foo/bar:baz.bzl".to_string(), "//foo/qux:qux.bzl".to_string()]);
}

#[test]
fn load_statements_skip_bad_labels_and_repeat_once() {
    let content = "load(\"//a:b.bzl\", \"x\")\nload('//a:b.bzl')\nload(\"//c/\")\nnoload(\"//d:e.bzl\")";
    let labels = focus_internals::content_hash::load_statement_labels(content).unwrap();
    let texts: Vec<String> = labels.iter().map(|l| l.to_string()).collect();
    // `noload(` also matches the pattern, which is not anchored at a word start.
    assert_eq!(texts, vec!["//a:b.bzl".to_string(), "//d:e.bzl".to_string()]);
}

fn hex(bytes: &[u8]) -> String {
    bytes.iter().map(|b| format!("{:02x}", b)).collect()
}

#[test]
fn hashes_are_git_blob_ids() {
    let h = focus_internals::content_hash::key_hash("Path", None, &vec![]).unwrap();
    assert_eq!(hex(&h), "3d4dbc1b7b7de7bd7359665b7fd5dc2d332114ec");
    let t = focus_internals::content_hash::tree_path_hash(&[0x00, 0x10]).unwrap();
    assert_eq!(hex(&t), "5ce2a38d638a85cff512b33eac549e6d61f0f54e");
}

#[test]
fn targets_of_a_package_share_a_cache_key() {
    let a = cache_key(&DependencyKey::BazelPackage(label("//p/q:x")));
    let b = cache_key(&DependencyKey::BazelPackage(label("//p/q:y")));
    assert_eq!(dep_key_to_target(&a), dep_key_to_target(&b));
    assert_eq!(dep_key_to_target(&cache_key(&a)), dep_key_to_target(&a));
}

#[test]
fn loaded_labels_are_hashed_once_each_in_label_order() {
    let loaded = vec![
        label("@ext//a:z.bzl"),
        label("//tools/build_rules:prelude_bazel"),
        label("//tools:defs.bzl"),
        label("//tools:defs.bzl"),
        label("//tools:a.bzl"),
    ];
    let plan = hash_plan(&DependencyKey::BazelPackage(label("//a/b:c")), &loaded).unwrap();
    assert_eq!(
        describe(&plan.inputs),
        vec![
            "path-key a/b",
            "build-file //tools:a.bzl",
            "build-file //tools:defs.bzl",
            "build-file //tools/build_rules:prelude_bazel",
            "build-file @ext//a:z.bzl",
            "build-file //:WORKSPACE",
        ]
    );
}

#[test]
fn content_hashes_parse_from_hex() {
    let h = focus_internals::content_hash::parse_content_hash("3d4dbc1b7b7de7bd7359665b7fd5dc2d332114ec").unwrap();
    assert_eq!(hex(&h), "3d4dbc1b7b7de7bd7359665b7fd5dc2d332114ec");
    let short = focus_internals::content_hash::parse_content_hash("ABc").unwrap();
    assert_eq!(hex(&short), "abc0000000000000000000000000000000000000");
    for bad in ["", "xyz", "3d4dbc1b7b7de7bd7359665b7fd5dc2d332114ec0"] {
        assert!(matches!(
            focus_internals::content_hash::parse_content_hash(bad),
            Err(ContentHashError::InvalidHash(_))
        ));
    }
}
