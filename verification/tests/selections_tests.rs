use std::collections::HashSet;

use focus_internals::selection::{
    project_cache_names, Operation, OperationAction, PersistedSelection, Project, ProjectSet, Projects, Selection,
    Selections, Underlying,
};
use focus_internals::stringset::StringSet;
use focus_internals::target::Target;

fn project(name: &str, mandatory: bool, targets: &[&str]) -> Project {
    Project {
        name: name.to_owned(),
        description: String::new(),
        mandatory,
        targets: StringSet::from_vec(targets.iter().map(|t| t.to_string()).collect()),
        projects: StringSet::new(),
    }
}

fn optional() -> Projects {
    let mut p = Projects::new();
    p.extend(
        "team_banzai.projects.json",
        &ProjectSet { projects: vec![project("team_banzai/project_a", false, &["bazel://library_a/..."])] },
    )
    .unwrap();
    p.extend(
        "team_zissou.projects.json",
        &ProjectSet { projects: vec![project("team_zissou/project_b", false, &["bazel://library_b/..."])] },
    )
    .unwrap();
    p
}

fn mandatory() -> Projects {
    let mut p = Projects::new();
    p.extend("mandatory.projects.json", &ProjectSet { projects: vec![project("mandatory", true, &[])] })
        .unwrap();
    p
}

fn selections(persisted: PersistedSelection) -> Selections {
    Selections::new("/repo/.focus/user.selection.json", optional(), mandatory(), persisted).unwrap()
}

fn project_names(selection: &Selection) -> HashSet<String> {
    selection.projects.iter().map(|project| project.name.clone()).collect()
}

#[test]
fn repo_with_no_selections_returns_mandatory_projects_in_computed_selection() {
    let manager = selections(PersistedSelection::default());
    let computed_selection = manager.computed_selection();
    assert_eq!(project_names(&computed_selection), HashSet::from([String::from("mandatory")]));
    assert!(computed_selection.targets.is_empty());
}

#[test]
fn modifying_and_saving_the_selection() {
    let project_name = String::from("team_banzai/project_a");
    let target = Target::try_from("bazel://library_b/...").unwrap();

    let saved = {
        let mut manager = selections(PersistedSelection::default());
        manager.process(&vec![
            Operation {
                action: OperationAction::default_add(),
                underlying: Underlying::Project(project_name.clone()),
            },
            Operation {
                action: OperationAction::default_add(),
                underlying: Underlying::Target(target.clone()),
            },
        ]);
        let saved = manager.save();
        let computed_selection = manager.computed_selection();
        assert_eq!(
            project_names(&computed_selection),
            HashSet::from([String::from("mandatory"), project_name.clone()])
        );
        assert_eq!(computed_selection.targets, vec![target.clone()]);
        saved
    };

    {
        let mut manager = selections(saved);
        let computed_selection = manager.computed_selection();
        assert_eq!(
            project_names(&computed_selection),
            HashSet::from([String::from("mandatory"), project_name.clone()])
        );
        assert_eq!(computed_selection.targets, vec![target.clone()]);

        manager.process(&vec![Operation {
            action: OperationAction::default_remove(),
            underlying: Underlying::Target(target),
        }]);
        let saved_again = manager.save();
        let computed_selection = manager.computed_selection();
        assert_eq!(
            project_names(&computed_selection),
            HashSet::from([String::from("mandatory"), project_name])
        );
        assert!(computed_selection.targets.is_empty());
        assert!(saved_again.targets.is_empty());
    }
}

#[test]
fn adding_an_unknown_project() {
    let nonexistent_project = Underlying::Project(String::from("blofeld/moonbase"));
    let mut manager = selections(PersistedSelection::default());
    let result = manager.process(&vec![Operation {
        action: OperationAction::default_add(),
        underlying: nonexistent_project.clone(),
    }]);
    assert!(!result.is_success());
    assert_eq!(result.absent, vec![nonexistent_project]);
}

#[test]
fn mandatory_projects_cannot_be_selected() {
    let mandatory_project = Underlying::Project(String::from("mandatory"));
    let mut manager = selections(PersistedSelection::default());
    let result = manager.process(&vec![Operation {
        action: OperationAction::default_add(),
        underlying: mandatory_project.clone(),
    }]);
    assert!(!result.is_success());
    assert_eq!(result.absent, vec![mandatory_project]);
}

#[test]
fn duplicate_projects_are_ignored() {
    let project_b = Underlying::Project(String::from("team_zissou/project_b"));
    let mut manager = selections(PersistedSelection::default());
    let result = manager.process(&vec![Operation {
        action: OperationAction::default_add(),
        underlying: project_b.clone(),
    }]);
    assert!(result.is_success());
    assert_eq!(result.added, vec![project_b.clone()]);
    assert_eq!(result.change_count(), 1);

    let result = manager.process(&vec![Operation {
        action: OperationAction::default_add(),
        underlying: project_b.clone(),
    }]);
    assert!(result.is_success());
    assert_eq!(result.ignored, vec![project_b]);
    assert_eq!(result.change_count(), 0);
}

#[test]
fn mutate_adds_projects_and_targets_by_name() {
    let mut manager = selections(PersistedSelection::default());
    let changed = manager
        .mutate(
            OperationAction::default_add(),
            &vec!["team_banzai/project_a".to_string(), "bazel://x:y".to_string()],
        )
        .unwrap();
    assert!(changed);
    assert_eq!(manager.selection().projects.len(), 1);
    assert_eq!(manager.selection().targets.len(), 1);
    let again = manager
        .mutate(OperationAction::default_add(), &vec!["team_banzai/project_a".to_string()])
        .unwrap();
    assert!(!again);
}

#[test]
fn project_cache_serves_only_project_selections() {
    let with_projects = Selection {
        projects: vec![project("a", false, &[]), project("m", true, &[]), project("b", false, &[])],
        targets: vec![],
    };
    let mut names = project_cache_names(&with_projects).unwrap();
    names.sort();
    assert_eq!(names, vec!["a".to_string(), "b".to_string()]);
    let with_targets = Selection {
        projects: vec![project("a", false, &[])],
        targets: vec![Target::try_from("bazel://x:y").unwrap()],
    };
    assert_eq!(project_cache_names(&with_targets), None);
}

fn padded(name: &str) -> String {
    format!("{:<48}", name)
}

#[test]
fn project_index_listing_is_ordered_by_name() {
    let mut index = Projects::new();
    index
        .extend(
            "x.projects.json",
            &ProjectSet {
                projects: vec![
                    project("zeta", false, &["bazel://z:z", "bazel://y:y"]),
                    project("alpha", false, &[]),
                ],
            },
        )
        .unwrap();
    let expected = format!("{}  (0 targets)\n{}  (2 targets)\n", padded("alpha"), padded("zeta"));
    assert_eq!(index.to_string(), expected);
}

#[test]
fn selection_listing_skips_mandatory_projects_and_repeats() {
    let mut zed = project("zed", false, &["bazel://a:a", "bazel://b:b"]);
    zed.description = "z".to_owned();
    let mut alpha = project("alpha", false, &[]);
    alpha.description = "first".to_owned();
    let selection = Selection {
        projects: vec![project("mandatory", true, &[]), zed, alpha],
        targets: vec![
            Target::try_from("pants:x/y").unwrap(),
            Target::try_from("bazel://b:c").unwrap(),
            Target::try_from("directory:x/y").unwrap(),
        ],
    };
    let expected = format!(
        "--- Projects ---\n{} first (0 targets)\n{} z (2 targets)\n\n--- Targets ---\n//b:c\nx/y\n",
        padded("alpha"),
        padded("zed")
    );
    assert_eq!(selection.to_string(), expected);
}

#[test]
fn empty_selection_listing_says_none_selected() {
    assert_eq!(
        Selection::default().to_string(),
        "--- Projects ---\nNone selected.\n\n--- Targets ---\nNone selected.\n"
    );
}

#[test]
fn long_names_are_not_cut() {
    let long = "n".repeat(50);
    let mut index = Projects::new();
    index.extend("x.projects.json", &ProjectSet { projects: vec![project(&long, false, &[])] }).unwrap();
    assert_eq!(index.to_string(), format!("{}  (0 targets)\n", long));
}
