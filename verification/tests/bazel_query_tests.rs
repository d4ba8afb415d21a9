use focus_internals::bazel::{
    dep_key_to_target, immediate_dependencies, packages_of_query_output,
    recursive_package_queries, top_level_targets_spec, DependencyKey, DependencyValue, Query,
    QueryElement, Rule, RuleElement,
};
use focus_internals::target::{Label, LabelParseError};
use focus_internals::text::text_lines_of;

fn rule(name: &str, elements: Vec<RuleElement>) -> QueryElement {
    QueryElement::Rule(Rule { name: name.into(), location: None, elements })
}

fn input(name: &str) -> RuleElement {
    RuleElement::RuleInput { name: name.into() }
}

fn sorted_targets(keys: &[DependencyKey]) -> Vec<String> {
    let mut v: Vec<String> = keys.iter().map(dep_key_to_target).collect();
    v.sort();
    v
}

fn table(entries: &[(DependencyKey, DependencyValue)]) -> Vec<(String, Vec<String>)> {
    let mut v: Vec<(String, Vec<String>)> = entries
        .iter()
        .map(|(k, val)| match val {
            DependencyValue::PackageInfo { deps } => (dep_key_to_target(k), sorted_targets(deps)),
            other => panic!("unexpected value {:?}", other),
        })
        .collect();
    v.sort();
    v
}

#[test]
fn lines_follow_str_lines() {
    assert_eq!(text_lines_of(""), Vec::<String>::new());
    assert_eq!(text_lines_of("a\nb"), vec!["a".to_string(), "b".to_string()]);
    assert_eq!(text_lines_of("a\r\nb\n"), vec!["a".to_string(), "b".to_string()]);
    assert_eq!(text_lines_of("\n\nc\r"), vec!["".to_string(), "".to_string(), "c\r".to_string()]);
    let text = "x\r\n\ny\rz\n";
    let expected: Vec<String> = text.lines().map(|l| l.to_string()).collect();
    assert_eq!(text_lines_of(text), expected);
}

#[test]
fn package_output_keeps_repository_packages() {
    let output = "a/b\n@ext//c\nbazel-out/k8/bin\nexternal/foo\n\nd\na/b\nexternal\n./external/x\n";
    let (paths, labels) = packages_of_query_output(output).unwrap();
    assert_eq!(
        paths,
        vec!["a/b".to_string(), "d".to_string(), "a/b".to_string(), "./external/x".to_string()]
    );
    let mut texts: Vec<String> = labels.iter().map(|l| l.to_string()).collect();
    texts.sort();
    assert_eq!(texts, vec!["//./external/x:x".to_string(), "//a/b:b".to_string(), "//d:d".to_string()]);
}

#[test]
fn package_output_stops_at_a_bad_label() {
    assert_eq!(packages_of_query_output("//a\n//b/\n//c\n").err(), Some(LabelParseError::EmptyLabel));
}

#[test]
fn immediate_dependencies_gather_rule_inputs() {
    let query = Query {
        rules: vec![
            rule("//a:x", vec![input("//b:y"), RuleElement::Dict { name: "d".into() }, input("//c:z")]),
            QueryElement::SourceFile { name: "//b:y".into() },
            QueryElement::PackageGroup,
            rule("//a:x", vec![input("//d:w"), input("//b:y")]),
            QueryElement::GeneratedFile { name: "//c:z".into() },
            rule("//c:z", vec![]),
        ],
    };
    let deps = immediate_dependencies(&query).unwrap();
    assert_eq!(
        table(&deps),
        vec![
            ("bazel://a:x".to_string(), vec!["bazel://b:y".to_string(), "bazel://c:z".to_string(), "bazel://d:w".to_string()]),
            ("bazel://b:y".to_string(), vec![]),
            ("bazel://c:z".to_string(), vec![]),
        ]
    );
}

#[test]
fn immediate_dependencies_fail_on_bad_labels() {
    let query = Query { rules: vec![rule("//a:x", vec![input("//b/")])] };
    assert_eq!(immediate_dependencies(&query).err(), Some(LabelParseError::EmptyLabel));
    let query = Query { rules: vec![QueryElement::SourceFile { name: "".into() }] };
    assert!(immediate_dependencies(&query).is_err());
}

#[test]
fn top_level_spec_names_everything_in_a_package() {
    let l = top_level_targets_spec(Label::parse("//a/b:c").unwrap());
    assert_eq!(l.to_string(), "//a/b:*");
}

#[test]
fn recursive_queries_are_the_ellipsis_labels() {
    let labels = vec![
        Label::parse("//a/...").unwrap(),
        Label::parse("//b:c").unwrap(),
        Label::parse("//d/...").unwrap(),
    ];
    let r: Vec<String> = recursive_package_queries(&labels).iter().map(|l| l.to_string()).collect();
    assert_eq!(r, vec!["//a/...".to_string(), "//d/...".to_string()]);
}
