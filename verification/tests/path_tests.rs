use std::path::Path;

use focus_internals::path::{strip_prefix, treat_path, RepoPathError};

fn std_strip(base: &str, s: &str) -> Option<String> {
    Path::new(s).strip_prefix(base).ok().map(|p| p.to_str().unwrap().to_owned())
}

#[test]
fn strip_prefix_agrees_with_std_paths() {
    let paths = [
        "", "/", "//", "/repo", "/repo/", "/repo//", "/repo/.", "/repo/a", "/repo/a/", "/repo//a//b/",
        "/repo/./a/./b/.", "/repo/../a", "repo/a", "./repo/a", "./a", ".", "./", "a/b/c", "a//b", "/r/e/p/o",
        "/repository/a", "/repo/a/b/c/", "/./repo/a",
    ];
    let bases = ["", "/", "/repo", "/repo/", "/repo/.", "repo", "./repo", ".", "/repo/a", "a", "a/b", "//repo//"];
    for base in bases {
        for s in paths {
            assert_eq!(strip_prefix(base, s), std_strip(base, s), "base {:?} path {:?}", base, s);
        }
    }
}

#[test]
fn treat_path_is_relative_to_the_repository() {
    assert_eq!(treat_path("/repo", "/repo/a/b"), Ok(Some("a/b".to_owned())));
    assert_eq!(treat_path("/repo", "/repo/a/b/"), Ok(Some("a/b".to_owned())));
    assert_eq!(treat_path("/repo", "/repo"), Ok(Some(String::new())));
    assert_eq!(treat_path("", "/"), Ok(None));
    assert_eq!(treat_path("/repo", "/elsewhere/a"), Err(RepoPathError::OutsideRepository));
}
