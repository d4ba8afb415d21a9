use focus_internals::outlining::{
    create_hierarchical_patterns, default_outlining_patterns, default_working_tree_patterns,
    directory_patterns, Pattern, PatternSet,
};

fn dir(precedence: usize, path: &str, recursive: bool) -> Pattern {
    Pattern::Directory { precedence, path: path.to_owned(), recursive }
}

#[test]
fn verbatim_pattern() {
    let actual = Pattern::Verbatim { precedence: 0, fragment: String::from("/foo/bar/baz!") }.lines();
    assert_eq!(actual, vec![String::from("/foo/bar/baz!")]);
}

#[test]
fn recursive_directory_pattern() {
    let actual = dir(0, "bar/baz/qux", true).lines();
    assert_eq!(actual, vec![String::from("/bar/baz/qux/")]);
}

#[test]
fn root_recursive_directory_pattern() {
    let actual = dir(0, "/", true).lines();
    assert_eq!(actual, vec![String::from("/*"), String::from("!/*/")]);
}

#[test]
fn pattern_partial_ord() {
    let directory_pattern_1 = dir(0, "/", true);
    let directory_pattern_2 = dir(0, "/b/", true);
    let verbatim_pattern_1 = Pattern::Verbatim { precedence: 1, fragment: String::from("bbb") };
    let verbatim_pattern_2 = Pattern::Verbatim { precedence: 2, fragment: String::from("aaa") };

    let mut pattern_set = PatternSet::new();
    pattern_set.insert(directory_pattern_1.clone());
    pattern_set.insert(directory_pattern_2.clone());
    pattern_set.insert(verbatim_pattern_1.clone());
    pattern_set.insert(verbatim_pattern_2.clone());

    let mut iter = pattern_set.patterns().iter();
    assert_eq!(iter.next().unwrap(), &directory_pattern_1);
    assert_eq!(iter.next().unwrap(), &directory_pattern_2);
    assert_eq!(iter.next().unwrap(), &verbatim_pattern_1);
    assert_eq!(iter.next().unwrap(), &verbatim_pattern_2);
    assert_eq!(iter.next(), None);
}

#[test]
fn test_insert_leading() {
    let mut pattern_set = PatternSet::new();
    let recursive_paths = vec![String::from("1/2/3")];
    pattern_set.insert_leading(dir(0, "a/b/c/d/e", true), &recursive_paths);
    pattern_set.insert_leading(dir(1, "1/2/3", true), &recursive_paths);
    pattern_set.insert_leading(dir(2, "1/2/3/4/5/6", true), &recursive_paths);
    let expected = vec![
        (0, "a", true),
        (0, "a/b", true),
        (0, "a/b/c", true),
        (0, "a/b/c/d", true),
        (0, "a/b/c/d/e", true),
        (1, "1", false),
        (1, "1/2", false),
        (1, "1/2/3", true),
        (2, "1/2/3/4", false),
        (2, "1/2/3/4/5", false),
        (2, "1/2/3/4/5/6", false),
    ];
    let mut iter = pattern_set.patterns().iter();
    for (precedence, path, recursive) in expected {
        assert_eq!(iter.next().unwrap(), &dir(precedence, path, recursive));
    }
    assert!(iter.next().is_none());
}

#[test]
fn test_elimination_of_duplicate_productions() {
    let mut patterns = PatternSet::new();
    patterns.insert(dir(0, "", true));
    patterns.insert(Pattern::Verbatim { precedence: usize::MAX, fragment: String::from("/*") });
    patterns.insert(Pattern::Verbatim { precedence: usize::MAX, fragment: String::from("!/*/") });
    let lines = patterns.productions();
    let mut seen = std::collections::HashSet::new();
    for line in &lines {
        assert!(seen.insert(line.clone()), "line {} repeated", line);
    }
    assert!(lines.contains(&String::from("/*")));
    assert!(lines.contains(&String::from("!/*/")));
}

#[test]
fn test_create_hierarchical_patterns() {
    let mut patterns = PatternSet::new();
    patterns.insert(dir(0, "", true));
    patterns.insert(Pattern::Verbatim { precedence: 0, fragment: String::from(":-O lol ;(") });
    patterns.insert(dir(usize::MAX, "a/b/c/d/e/f/g", true));
    patterns.insert(dir(usize::MAX, "a/b/c/d/e", false));
    patterns.insert(dir(usize::MAX, "a/b/c", true));
    patterns.insert(dir(usize::MAX, "foo/bar/baz", true));

    let hierarchical_patterns = create_hierarchical_patterns(&patterns);
    let paths: Vec<(String, bool)> = hierarchical_patterns
        .patterns()
        .iter()
        .filter_map(|p| match p {
            Pattern::Directory { path, recursive, .. } => Some((path.clone(), *recursive)),
            Pattern::Verbatim { .. } => None,
        })
        .collect();
    for wanted in ["a", "a/b", "a/b/c", "foo", "foo/bar", "foo/bar/baz"] {
        assert!(paths.iter().any(|(p, _)| p == wanted), "missing {}", wanted);
    }
}

#[test]
fn default_patterns_are_in_the_set() {
    let defaults = default_outlining_patterns();
    assert!(defaults.len() > 0);
    let mut set = PatternSet::new();
    set.extend(&defaults);
    assert_eq!(set.len(), defaults.len());
    for p in defaults.patterns() {
        assert!(set.contains(p));
    }
}

#[test]
fn profile_digest_is_sha256_of_the_profile() {
    let mut patterns = PatternSet::new();
    patterns.insert(dir(0, "a", true));
    let digest = patterns.profile_digest();
    assert_eq!(digest.len(), 32);
    assert_eq!(digest, focus_internals::digest::text_digest(patterns.profile().as_str()));
    let empty = focus_internals::digest::text_digest("abc");
    let hex: String = empty.iter().map(|b| format!("{:02x}", b)).collect();
    assert_eq!(hex, "ba7816bf8f01cfea414140de5dae2223b00361a396177a9cb410ff61f20015ad");
}

#[test]
fn pattern_set_ops() {
    let defaults = default_outlining_patterns();
    let mut pattern_set = PatternSet::new();
    pattern_set.extend(&defaults);
    let precedence = pattern_set.len();
    pattern_set.insert(dir(precedence, "project_a", true));
    let count = pattern_set.len();
    pattern_set.retain_not_in(&defaults);
    assert_eq!(pattern_set.len(), count - defaults.len());
}

fn shape(p: &Pattern) -> (usize, String, bool) {
    match p {
        Pattern::Directory { precedence, path, recursive } => (*precedence, path.clone(), *recursive),
        Pattern::Verbatim { precedence, fragment } => (*precedence, format!("verbatim {}", fragment), false),
    }
}

#[test]
fn working_trees_check_out_the_top_and_focus_directories() {
    let d = default_working_tree_patterns();
    let shapes: Vec<(usize, String, bool)> = d.patterns().iter().map(shape).collect();
    assert_eq!(shapes, vec![(0, String::new(), true), (usize::MAX, "focus".to_string(), true)]);
}

#[test]
fn materialized_paths_become_recursive_directories() {
    let paths = vec!["b/c".to_string(), "a".to_string(), "b/c/".to_string()];
    let d = directory_patterns(&paths);
    let shapes: Vec<(usize, String, bool)> = d.patterns().iter().map(shape).collect();
    assert_eq!(shapes, vec![(usize::MAX, "a".to_string(), true), (usize::MAX, "b/c".to_string(), true)]);
}
