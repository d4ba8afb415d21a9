use focus_internals::clone::{clone_arguments, sparse_remote_urls, RemoteError};

fn strings(items: &[&str]) -> Vec<String> {
    items.iter().map(|s| s.to_string()).collect()
}

#[test]
fn shallow_clone_arguments() {
    assert_eq!(
        clone_arguments("main", "2022-01-01", false, "file:///dense", "/tmp/sparse"),
        strings(&[
            "clone",
            "--no-checkout",
            "--no-tags",
            "-b",
            "main",
            "--shallow-since=2022-01-01",
            "--single-branch",
            "file:///dense",
            "/tmp/sparse",
        ])
    );
    let copied = clone_arguments("main", "2022-01-01", true, "file:///dense", "/tmp/sparse");
    assert!(!copied.contains(&"--single-branch".to_string()));
    assert_eq!(copied.len(), 8);
}

#[test]
fn remotes_are_taken_over() {
    assert_eq!(
        sparse_remote_urls(Some("https://github.com/twitter/focus"), None).unwrap(),
        ("https://github.com/twitter/focus".to_string(), "https://github.com/twitter/focus".to_string())
    );
    assert_eq!(
        sparse_remote_urls(Some("https://GIT.twitter.biz/source"), Some("https://git.twitter.biz/source")).unwrap(),
        ("https://git.twitter.biz/ro/source".to_string(), "https://git.twitter.biz/source".to_string())
    );
    assert_eq!(
        sparse_remote_urls(Some("https://git.twitter.biz/ro/source"), None).unwrap().0,
        "https://git.twitter.biz/ro/source"
    );
    assert_eq!(
        sparse_remote_urls(Some("https://example.com"), None).unwrap().0,
        "https://example.com/"
    );
    assert!(matches!(sparse_remote_urls(None, None), Err(RemoteError::NoUrl)));
    assert!(matches!(sparse_remote_urls(Some("not a url"), None), Err(RemoteError::InvalidFetchUrl(_))));
    assert!(matches!(
        sparse_remote_urls(Some("https://example.com/x"), Some("::")),
        Err(RemoteError::InvalidPushUrl(_))
    ));
    assert!(matches!(sparse_remote_urls(Some("file:///dense/repo"), None), Err(RemoteError::NoHost)));
}
