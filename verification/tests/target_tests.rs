use focus_internals::target::{Label, LabelParseError, Target, TargetError, TargetName};

#[test]
fn target_parsing() {
    assert_eq!(
        Target::try_from("bazel://a:b").unwrap(),
        Target::Bazel(Label {
            external_repository: None,
            path_components: vec!["a".to_string()],
            target_name: TargetName::Name("b".to_string()),
        })
    );
    assert_eq!(
        Target::try_from("bazel://foo"),
        Ok(Target::Bazel(Label {
            external_repository: None,
            path_components: vec!["foo".to_string()],
            target_name: TargetName::Name("foo".to_string())
        }))
    );
    assert_eq!(
        Target::try_from("bazel://foo/bar/..."),
        Ok(Target::Bazel(Label {
            external_repository: None,
            path_components: vec!["foo".to_string(), "bar".to_string()],
            target_name: TargetName::Ellipsis,
        }))
    );
    assert_eq!(
        Target::try_from("bazel:@foo//bar:qux"),
        Ok(Target::Bazel(Label {
            external_repository: Some("@foo".to_string()),
            path_components: vec!["bar".to_string()],
            target_name: TargetName::Name("qux".to_string()),
        }))
    );
    assert_eq!(
        Target::try_from("bazel://foo/bar:baz/qux.py"),
        Ok(Target::Bazel(Label {
            external_repository: None,
            path_components: vec!["foo".to_string(), "bar".to_string()],
            target_name: TargetName::Name("baz/qux.py".to_string()),
        }))
    );

    assert_eq!(
        Target::try_from("bogus:whatever").unwrap_err(),
        TargetError::UnsupportedScheme("bogus".to_owned())
    );
    assert_eq!(
        Target::try_from("okay").unwrap_err(),
        TargetError::NoSchemeProvidedError
    );
    assert_eq!(
        Target::try_from("bazel://").unwrap_err(),
        TargetError::LabelError(LabelParseError::EmptyLabel),
    );
}

#[test]
fn target_text_round_trips() {
    for text in [
        "bazel://a:b",
        "bazel://foo/bar/...",
        "bazel:@foo//bar:qux",
        "directory:some/dir",
        "pants:foo/bar:baz",
    ] {
        let target = Target::try_from(text).unwrap();
        assert_eq!(target.to_qualified_string(), text);
        assert_eq!(Target::try_from(target.to_qualified_string().as_str()).unwrap(), target);
    }
    assert_eq!(Target::try_from("bazel://a:b").unwrap().to_string(), "//a:b");
    assert_eq!(Target::try_from("bazel://foo").unwrap().to_string(), "//foo:foo");
}

#[test]
fn label_text_round_trips() {
    let label = Label::parse("@repo//foo/bar:baz").unwrap();
    assert_eq!(label.to_string(), "@repo//foo/bar:baz");
    assert_eq!(Label::parse(label.to_string().as_str()).unwrap(), label);
}

#[test]
fn empty_labels_are_refused() {
    assert_eq!(
        Label::parse("//foo:"),
        Ok(Label {
            external_repository: None,
            path_components: vec!["foo".to_string()],
            target_name: TargetName::Name(String::new()),
        })
    );
    assert_eq!(Label::parse(""), Err(LabelParseError::EmptyLabel));
    assert_eq!(Label::parse("//foo/"), Err(LabelParseError::EmptyLabel));
}
