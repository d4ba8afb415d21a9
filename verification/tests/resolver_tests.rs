use focus_internals::bazel::{
    add_recursive_package_query_deps, dep_key_to_target, label_into_path, top_level_targets,
    text_contains, BazelLabel, BazelResolver, DependencyKey, DependencyValue, List, Query,
    QueryElement, Rule, RuleElement,
};
use focus_internals::resolver::{CacheOptions, DirectoryResolver, ResolutionResult};
use focus_internals::target::{Label, Target};

fn strings(items: &[&str]) -> Vec<String> {
    items.iter().map(|s| s.to_string()).collect()
}

#[test]
fn resolution_results_merge_as_sets_of_paths() {
    let mut a = ResolutionResult::from_paths(&strings(&["b", "a/c", "a"]));
    assert_eq!(a.paths(), &strings(&["a", "a/c", "b"]));
    let b = ResolutionResult::from_paths(&strings(&["a/", "d"]));
    a.merge(&b);
    assert_eq!(a.paths(), &strings(&["a", "a/c", "b", "d"]));
    assert!(ResolutionResult::new().paths().is_empty());
}

#[test]
fn paths_are_ordered_by_components() {
    let r = ResolutionResult::from_paths(&strings(&["a-b", "a/b"]));
    assert_eq!(r.paths(), &strings(&["a/b", "a-b"]));
}

#[test]
fn cache_options_and_resolvers() {
    let o = CacheOptions::new(true, false);
    assert!(o.accept_cached_response && !o.store_response_in_cache);
    let d = CacheOptions::default();
    assert!(d.accept_cached_response && d.store_response_in_cache);
    assert_eq!(DirectoryResolver::new("/cache").cache_root, "/cache/directory");
    assert_eq!(BazelResolver::new("/cache").cache_root, "/cache/bazel");
}

#[test]
fn directory_resolution_keeps_directories() {
    let targets = vec![
        Target::try_from("directory:x/y").unwrap(),
        Target::try_from("bazel://a:b").unwrap(),
        Target::try_from("directory:x/y/").unwrap(),
    ];
    let r = DirectoryResolver::new("/c").resolve(&targets);
    assert_eq!(r.paths(), &strings(&["x/y"]));
}

#[test]
fn bazel_sets_quote_each_label() {
    assert_eq!(BazelResolver::quote_target_name("//a:{b}"), "\"//a:{b}\"");
    let labels = vec![Label::parse("//a:b").unwrap(), Label::parse("//c/...").unwrap()];
    assert_eq!(BazelResolver::make_bazel_set(&labels), "set(\"//a:b\" \"//c/...\")");
    assert_eq!(BazelResolver::make_bazel_set(&vec![]), "set()");
}

#[test]
fn substring_search() {
    assert!(text_contains("//foo/BUILD.bazel:12:3", "/BUILD.bazel:"));
    assert!(!text_contains("//foo/BUILD:12:3", "/BUILD.bazel:"));
    assert!(text_contains("abc", ""));
}

fn rule(name: &str, location: Option<&str>, elements: Vec<RuleElement>) -> QueryElement {
    QueryElement::Rule(Rule { name: name.into(), location: location.map(|s| s.into()), elements })
}

#[test]
fn top_level_targets_keep_compatible_rules_and_files() {
    let tags = RuleElement::List(List {
        name: "tags".into(),
        values: vec![RuleElement::String { name: None, value: Some("bazel-compatible".into()) }],
    });
    let query = Query {
        rules: vec![
            rule("//a:in_bazel_file", Some("/repo/a/BUILD.bazel:3:1"), vec![]),
            rule("//b:tagged", Some("/repo/b/BUILD:3:1"), vec![tags]),
            rule("//c:neither", Some("/repo/c/BUILD:3:1"), vec![RuleElement::Label(BazelLabel { name: None, value: None })]),
            QueryElement::SourceFile { name: "//d:file.txt".into() },
            QueryElement::GeneratedFile { name: "//d:gen.txt".into() },
            QueryElement::PackageGroup,
            QueryElement::SourceFile { name: "//d:file.txt".into() },
        ],
    };
    let labels = top_level_targets(&query).unwrap();
    let texts: Vec<String> = labels.iter().map(|l| l.to_string()).collect();
    assert_eq!(texts, strings(&["//a:in_bazel_file", "//b:tagged", "//d:file.txt", "//d:gen.txt"]));
}

#[test]
fn labels_become_paths() {
    assert_eq!(label_into_path(Label::parse("//foo/bar:baz").unwrap()), Some("foo/bar/baz".into()));
    assert_eq!(label_into_path(Label::parse("//foo/bar/...").unwrap()), Some("foo/bar".into()));
    assert_eq!(label_into_path(Label::parse("@ext//foo:bar").unwrap()), None);
}

#[test]
fn keys_become_targets() {
    let k = DependencyKey::from_target(Target::try_from("bazel://a:b").unwrap());
    assert_eq!(dep_key_to_target(&k), "bazel://a:b");
    let k = DependencyKey::from_target(Target::try_from("directory:x/y").unwrap());
    assert_eq!(dep_key_to_target(&k), "directory:x/y");
}

#[test]
fn recursive_queries_gather_packages_below_them() {
    let keys = vec![
        DependencyKey::BazelPackage(Label::parse("//foo/bar:baz").unwrap()),
        DependencyKey::BazelPackage(Label::parse("//qux:quux").unwrap()),
        DependencyKey::BazelBuildFile(Label::parse("//foo:BUILD").unwrap()),
    ];
    let recursive = vec![Label::parse("//foo/...").unwrap(), Label::parse("//none/...").unwrap()];
    let deps = add_recursive_package_query_deps(&recursive, &keys);
    assert_eq!(deps.len(), 1);
    match &deps[0] {
        (DependencyKey::BazelPackage(l), DependencyValue::PackageInfo { deps }) => {
            assert_eq!(l.to_string(), "//foo/...");
            assert_eq!(deps.len(), 2);
            assert_eq!(dep_key_to_target(&deps[0]), "bazel://foo/bar:baz");
            assert_eq!(dep_key_to_target(&deps[1]), "bazel://foo:BUILD");
        }
        other => panic!("unexpected {:?}", other),
    }
}

#[test]
fn materialization_steps() {
    let step = focus_internals::bazel::materialize_key(&DependencyKey::BazelPackage(Label::parse("//a/b:c").unwrap()));
    assert_eq!(step.path, Some("a/b".to_string()));
    assert!(step.look_up);
    let step = focus_internals::bazel::materialize_key(&DependencyKey::BazelBuildFile(Label::parse("//a/b:BUILD").unwrap()));
    assert_eq!(step.path, Some("a/b".to_string()));
    assert!(!step.look_up);
    let step = focus_internals::bazel::materialize_key(&DependencyKey::BazelPackage(Label::parse("@x//a:c").unwrap()));
    assert_eq!(step.path, None);
    assert!(!step.look_up);
    let step = focus_internals::bazel::materialize_key(&DependencyKey::Path("p/q".into()));
    assert_eq!(step.path, Some("p/q".to_string()));

    let v = focus_internals::bazel::absorb_value(None);
    assert!(v.missing && v.next.is_empty() && v.path.is_none());
    let v = focus_internals::bazel::absorb_value(Some(DependencyValue::Path { path: "z".into() }));
    assert_eq!(v.path, Some("z".to_string()));
    let v = focus_internals::bazel::absorb_value(Some(DependencyValue::PackageInfo {
        deps: vec![DependencyKey::Path("k".into())],
    }));
    assert_eq!(v.next.len(), 1);
    assert!(!v.missing);
}

#[test]
fn ancestors_walk_up_to_the_top() {
    let a = focus_internals::path::ancestors("a/b/c");
    assert_eq!(a, strings(&["a/b/c", "a/b", "a", ""]));
    assert_eq!(focus_internals::path::ancestors("/x/y"), strings(&["/x/y", "/x", "/"]));
    assert_eq!(focus_internals::path::ancestors(""), strings(&[""]));
    let expected: Vec<String> = std::path::Path::new("p/q/").ancestors().map(|p| p.to_str().unwrap().to_string()).collect();
    assert_eq!(focus_internals::path::ancestors("p/q/"), expected);
}

#[test]
fn recursive_queries_compare_whole_components() {
    let keys = vec![DependencyKey::BazelPackage(Label::parse("//package10:x").unwrap())];
    let recursive = vec![Label::parse("//package1/...").unwrap()];
    assert!(add_recursive_package_query_deps(&recursive, &keys).is_empty());
    let any_keys = vec![DependencyKey::Path("a/b".to_string())];
    assert!(add_recursive_package_query_deps(&vec![], &any_keys).is_empty());
}

#[test]
fn a_repeated_recursive_query_gets_one_entry() {
    let keys = vec![DependencyKey::BazelPackage(Label::parse("//foo/bar:baz").unwrap())];
    let recursive = vec![Label::parse("//foo/...").unwrap(), Label::parse("//foo/...").unwrap()];
    assert_eq!(add_recursive_package_query_deps(&recursive, &keys).len(), 1);
}
