use std::collections::HashSet;

use focus_internals::resolution::{resolve_targets_for_project, ResolveError};
use focus_internals::selection::{
    Operation, OperationAction, PersistedSelection, Project, ProjectSet, Projects, Selection,
    SelectionOperationProcessor, Underlying,
};
use focus_internals::stringset::StringSet;
use focus_internals::target::Target;

fn strings(items: &[&str]) -> Vec<String> {
    items.iter().map(|s| s.to_string()).collect()
}

fn project_of(name: &str, description: &str, targets: &[&str], projects: &[&str]) -> Project {
    Project {
        name: name.to_owned(),
        description: description.to_owned(),
        mandatory: false,
        targets: StringSet::from_vec(strings(targets)),
        projects: StringSet::from_vec(strings(projects)),
    }
}

fn index_of(projects: Vec<Project>) -> Projects {
    let mut index = Projects::new();
    index.extend("projects.json", &ProjectSet { projects }).unwrap();
    index
}

#[test]
fn operation_new() {
    assert_eq!(
        Operation::new(OperationAction::default_add(), "bazel://a/b:*"),
        Operation {
            action: OperationAction::default_add(),
            underlying: Underlying::Target(Target::try_from("bazel://a/b:*").unwrap())
        }
    );

    assert_eq!(
        Operation::new(OperationAction::default_remove(), "foo"),
        Operation {
            action: OperationAction::default_remove(),
            underlying: Underlying::Project(String::from("foo"))
        }
    );
}

const PERSISTED_PROJECT: &str = "a_project";
const PERSISTED_TARGET: &str = "bazel://c:d";

fn persisted_fixture() -> Selection {
    Selection {
        projects: vec![project_of(
            PERSISTED_PROJECT,
            "This is a description",
            &["bazel://a:b"],
            &[],
        )],
        targets: vec![Target::try_from(PERSISTED_TARGET).unwrap()],
    }
}

#[test]
fn from_selection() {
    let selection = persisted_fixture();
    let persisted_selection = PersistedSelection::from_selection(&selection);
    let projects: HashSet<String> = persisted_selection.projects.iter().cloned().collect();
    let targets: HashSet<String> = persisted_selection.targets.iter().cloned().collect();
    assert_eq!(projects, HashSet::from([PERSISTED_PROJECT.to_owned()]));
    assert_eq!(targets, HashSet::from([PERSISTED_TARGET.to_owned()]));
}

#[test]
fn operation_vec_try_from() {
    let selection = persisted_fixture();
    let persisted_selection = PersistedSelection::from_selection(&selection);
    let ops = persisted_selection.to_operations().unwrap();
    assert_eq!(
        vec![
            Operation {
                action: OperationAction::default_add(),
                underlying: Underlying::Project(PERSISTED_PROJECT.to_owned())
            },
            Operation {
                action: OperationAction::default_add(),
                underlying: Underlying::Target(Target::try_from(PERSISTED_TARGET).unwrap())
            }
        ],
        ops
    );
}

const PROJECT_NAME_STR: &str = "a_project";
const PROJECT_NAME_STR_2: &str = "b_project";
const TARGET_STR: &str = "bazel://a:b";
const TARGET_STR_2: &str = "bazel://c:d";

fn project() -> Project {
    project_of(PROJECT_NAME_STR, "This is a description", &[TARGET_STR], &[PROJECT_NAME_STR_2])
}

fn project2() -> Project {
    project_of(
        PROJECT_NAME_STR_2,
        "This is a description",
        &[TARGET_STR_2],
        &[PROJECT_NAME_STR_2, PROJECT_NAME_STR],
    )
}

#[test]
fn test_get_all_targets_for_project() {
    let available_projects = index_of(vec![project2(), project()]);
    let target_set = resolve_targets_for_project(vec![project()], &available_projects).unwrap();
    let got: HashSet<Target> = target_set.into_iter().collect();
    let expected: HashSet<Target> = HashSet::from([
        Target::try_from(TARGET_STR).unwrap(),
        Target::try_from(TARGET_STR_2).unwrap(),
    ]);
    assert_eq!(expected, got);
}

#[test]
fn test_get_all_targets_for_project_fails_with_invalid_subproject_name() {
    let available_projects = index_of(vec![project()]);
    let target_set = resolve_targets_for_project(vec![project()], &available_projects);
    assert!(target_set.is_err());
    assert_eq!(
        target_set.unwrap_err(),
        ResolveError::UnknownProject(PROJECT_NAME_STR_2.to_owned())
    );
}

#[test]
fn resolution_reports_an_invalid_target() {
    let bad = project_of("bad", "", &["nonsense"], &[]);
    let available_projects = index_of(vec![]);
    match resolve_targets_for_project(vec![bad], &available_projects) {
        Err(ResolveError::InvalidTarget(_)) => {}
        other => panic!("unexpected {:?}", other),
    }
}

#[test]
fn resolution_visits_each_project_once() {
    let a = project_of("a", "", &["bazel://x:y"], &["a", "b"]);
    let b = project_of("b", "", &["bazel://x:y", "bazel://z:w"], &["a"]);
    let available_projects = index_of(vec![a.clone(), b]);
    let targets = resolve_targets_for_project(vec![a], &available_projects).unwrap();
    assert_eq!(targets.len(), 2);
}

#[test]
fn lint_compliant_project() {
    let good_project = project_of("compliant_project", "This project is compliant", &["bazel://something"], &[]);
    assert!(good_project.lint().is_ok());
}

#[test]
fn lint_noncompliant_project() {
    let bad_project = project_of(
        "non_compliant_project",
        "This project is non-compliant",
        &["non-compliant-scheme:thisdoesntmatter"],
        &[],
    );
    assert!(bad_project.lint().is_err());
}

#[test]
fn adding_then_removing_a_target_restores_the_selection() {
    let projects = index_of(vec![project(), project2()]);
    let mut processor = SelectionOperationProcessor {
        selection: Selection { projects: vec![], targets: vec![] },
        projects: &projects,
    };
    let add = vec![Operation::new(OperationAction::default_add(), "bazel://q:r")];
    let result = processor.process(&add);
    assert!(result.is_success());
    assert!(result.changed());
    assert_eq!(processor.selection.targets.len(), 1);
    let remove = vec![Operation::new(OperationAction::default_remove(), "bazel://q:r")];
    let result = processor.process(&remove);
    assert!(result.is_success());
    assert!(processor.selection.targets.is_empty());
}

#[test]
fn adding_twice_changes_once() {
    let projects = index_of(vec![project(), project2()]);
    let mut processor = SelectionOperationProcessor {
        selection: Selection { projects: vec![], targets: vec![] },
        projects: &projects,
    };
    let add = vec![Operation::new(OperationAction::default_add(), PROJECT_NAME_STR)];
    assert!(processor.process(&add).changed());
    assert!(!processor.process(&add).changed());
    assert_eq!(processor.selection.projects.len(), 1);
}

#[test]
fn adding_an_unknown_project_is_absent() {
    let projects = index_of(vec![project()]);
    let mut processor = SelectionOperationProcessor {
        selection: Selection { projects: vec![], targets: vec![] },
        projects: &projects,
    };
    let result = processor.process(&vec![Operation::new(OperationAction::default_add(), "nope")]);
    assert!(!result.is_success());
    assert_eq!(result.absent.len(), 1);
}

#[test]
fn duplicate_project_names_are_refused_by_the_index() {
    let mut index = Projects::new();
    index.extend("one", &ProjectSet { projects: vec![project()] }).unwrap();
    let err = index.extend("two", &ProjectSet { projects: vec![project()] }).unwrap_err();
    assert_eq!(err.name, PROJECT_NAME_STR);
}
