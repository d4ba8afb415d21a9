use focus_internals::adhoc;
use focus_internals::layers::{
    initial_selection, computed_projects, extract_coordinates, find_named_projects, pop_selection,
    push_as_selection, remove_from_stack, set_containing_layers, Project, ProjectSet, ProjectStack, RemovalError,
    RichProjectSet,
};

fn strings(items: &[&str]) -> Vec<String> {
    items.iter().map(|s| s.to_string()).collect()
}

fn projects() -> Vec<Project> {
    vec![
        Project::new(
            "baseline/tools_implicit_deps",
            "",
            true,
            strings(&["bazel://tools/implicit_deps:thrift-implicit-deps-impl"]),
        ),
        Project::new(
            "baseline/scrooge_internal",
            "",
            true,
            strings(&["bazel://tools/implicit_deps:thrift-implicit-deps-impl"]),
        ),
        Project::new("baseline/loglens", "", true, strings(&["bazel://scrooge-internal/..."])),
        Project::new("projects/cdpain", "", false, strings(&["bazel://workflows/examples/cdpain/..."])),
    ]
}

fn project_set() -> ProjectSet {
    ProjectSet::new(projects())
}

#[test]
fn validate_no_duplicate_layer_names() {
    {
        let project_set = project_set();
        assert!(project_set.validate().is_ok());
    }

    {
        let mut projects = projects();
        projects.push(Project::new("baseline/loglens", "", false, strings(&["it doesn't matter"])));
        let project_set = ProjectSet::new(projects);
        let e = project_set.validate().unwrap_err();
        assert_eq!(
            "Project named 'baseline/loglens' at index 4 has the same name as existing project at index 2",
            e.to_string()
        );
    }
}

#[test]
fn validate_no_colons() {
    {
        let project_set = project_set();
        assert!(project_set.validate().is_ok());
    }

    {
        let mut projects = projects();
        projects.push(Project::new("beep:boop", "", false, strings(&["blah"])));
        let project_set = ProjectSet::new(projects);
        let e = project_set.validate().unwrap_err();
        assert_eq!(
            "Project name 'beep:boop' contains a colon (:); colons are not allowed in project names",
            e.to_string()
        );
    }
}

#[test]
fn merge() {
    let mut t1 = project_set();
    let t2 = ProjectSet::new(vec![Project::new("foo", "", false, strings(&["//foo/bar/..."]))]);

    t1.extend(t2.clone());
    assert_eq!(&t1.projects().last().unwrap(), &t2.projects().last().unwrap());
}

#[test]
fn remove_named_layer() {
    let mut project_set = project_set();
    project_set.remove_named_project("projects/cdpain").unwrap();
    assert_eq!(project_set.projects().len(), 3);
}

#[test]
fn remove_named_layer_not_found() {
    let mut project_set = project_set();
    let result = project_set.remove_named_project("baseline/boo");
    assert!(result.is_err());
    assert_eq!(result.unwrap_err().to_string(), RemovalError::NotFound.to_string());
}

#[test]
fn remove_named_project_cannot_remove_mandatory_projects() {
    let mut project_set = project_set();
    let result = project_set.remove_named_project("baseline/loglens");
    assert!(result.is_err());
    assert_eq!(result.unwrap_err().to_string(), RemovalError::Mandatory.to_string());
    assert_eq!(project_set.projects().len(), 4);
}

#[test]
fn optional_projects() {
    let ls = vec![
        Project::new("a", "", true, strings(&["//a/..."])),
        Project::new("b", "", false, strings(&["//b/...ı"])),
    ];
    let t = ProjectSet::new(ls);

    let projects = t.optional_projects();
    assert_eq!(projects.len(), 1);
    assert_eq!(projects.last().unwrap().name(), "b");
}

#[test]
fn indexed_sets_refuse_duplicate_names() {
    let mut ps = projects();
    ps.push(Project::new("projects/cdpain", "again", false, vec![]));
    let err = RichProjectSet::new(ProjectSet::new(ps)).unwrap_err();
    assert_eq!(err.project.name(), "projects/cdpain");
    assert_eq!(err.existing.name(), "projects/cdpain");
    let indexed = RichProjectSet::new(project_set()).unwrap();
    assert_eq!(indexed.find_index("baseline/loglens"), Some(2));
    assert!(indexed.contains_key("projects/cdpain"));
    assert!(indexed.get("nope").is_none());
}

#[test]
fn named_projects_are_found_in_order() {
    let indexed = RichProjectSet::new(project_set()).unwrap();
    let found = find_named_projects(&strings(&["projects/cdpain", "baseline/loglens"]), &indexed).unwrap();
    assert_eq!(found[0].name(), "projects/cdpain");
    assert_eq!(found[1].name(), "baseline/loglens");
    let err = find_named_projects(&strings(&["baseline/loglens", "nope"]), &indexed).unwrap_err();
    assert_eq!(err.index, 1);
    assert_eq!(err.to_string(), "Project named 'nope' (at index 1) is not present");
}

#[test]
fn pushing_selects_available_projects_once() {
    let available = RichProjectSet::new(project_set()).unwrap();
    let selected = RichProjectSet::new(ProjectSet::new(vec![])).unwrap();
    let stack = ProjectStack::new(vec![]);
    let (stack, set, changed) =
        push_as_selection(&stack, &selected, &available, &strings(&["projects/cdpain"])).unwrap();
    assert!(changed);
    assert_eq!(stack.names(), &strings(&["projects/cdpain"]));
    assert_eq!(set.projects().len(), 1);

    let selected = RichProjectSet::new(set).unwrap();
    let (_, set, changed) =
        push_as_selection(&stack, &selected, &available, &strings(&["projects/cdpain"])).unwrap();
    assert!(!changed);
    assert_eq!(set.projects().len(), 1);

    let err = push_as_selection(&stack, &selected, &available, &strings(&["missing"])).unwrap_err();
    assert_eq!(err.name, "missing");
}

#[test]
fn popping_and_removing_names() {
    let stack = ProjectStack::new(strings(&["a", "b", "c"]));
    let set = ProjectSet::new(vec![]);
    let (popped, _, changed) = pop_selection(&stack, &set, 2);
    assert!(changed);
    assert_eq!(popped.names(), &strings(&["a"]));
    let (popped, _, changed) = pop_selection(&stack, &set, 0);
    assert!(!changed);
    assert_eq!(popped.names(), &strings(&["a", "b", "c"]));
    let (popped, _, _) = pop_selection(&stack, &set, 7);
    assert!(popped.names().is_empty());

    let (kept, changed) = remove_from_stack(&stack, &strings(&["b", "z"]));
    assert!(changed);
    assert_eq!(kept.names(), &strings(&["a", "c"]));
    let (kept, changed) = remove_from_stack(&stack, &strings(&["z"]));
    assert!(!changed);
    assert_eq!(kept.names(), &strings(&["a", "b", "c"]));
}

#[test]
fn computed_projects_concatenate_in_order() {
    let mandatory = ProjectSet::new(vec![Project::new("m", "", true, vec![])]);
    let adhoc_set = ProjectSet::new(vec![Project::new("adhoc", "", false, vec![])]);
    let selected = ProjectSet::new(vec![Project::new("s", "", false, vec![])]);
    let all = computed_projects(mandatory.clone(), Some(adhoc_set), Some(selected));
    let names: Vec<&str> = all.projects().iter().map(|p| p.name()).collect();
    assert_eq!(names, vec!["m", "adhoc", "s"]);
    let only = computed_projects(mandatory, None, None);
    assert_eq!(only.projects().len(), 1);
}

#[test]
fn coordinates_are_all_targets_in_order() {
    let set = ProjectSet::new(vec![
        Project::new("a", "", false, strings(&["x", "y"])),
        Project::new("b", "", false, strings(&["z"])),
    ]);
    assert_eq!(extract_coordinates(&set), strings(&["x", "y", "z"]));
}

#[test]
fn adhoc_push_skips_present_targets() {
    let mut targets = strings(&["a", "b"]);
    adhoc::push(&mut targets, &strings(&["b", "c", "c"]));
    assert_eq!(targets, strings(&["a", "b", "c", "c"]));
}

#[test]
fn adhoc_pop_stops_at_empty() {
    let mut targets = strings(&["a", "b", "c"]);
    adhoc::pop(&mut targets, 2);
    assert_eq!(targets, strings(&["a"]));
    adhoc::pop(&mut targets, 5);
    assert!(targets.is_empty());
}

#[test]
fn adhoc_remove_uses_initial_positions() {
    let mut targets = strings(&["a", "b", "c"]);
    assert!(adhoc::removal_in_bounds(&targets, &strings(&["b"])));
    adhoc::remove(&mut targets, &strings(&["b", "zzz"]));
    assert_eq!(targets, strings(&["a", "c"]));

    let targets = strings(&["a", "b", "c"]);
    assert!(!adhoc::removal_in_bounds(&targets, &strings(&["a", "c"])));
}

#[test]
fn adhoc_set_is_written_only_on_change() {
    let before = strings(&["a"]);
    assert!(adhoc::updated_adhoc_set(&before, strings(&["a"])).is_none());
    let set = adhoc::updated_adhoc_set(&before, strings(&["a", "b"])).unwrap();
    assert_eq!(set.projects().len(), 1);
    assert_eq!(set.projects()[0].name(), "adhoc");
    assert_eq!(set.projects()[0].targets(), &strings(&["a", "b"])[..]);
}

#[test]
fn containing_sets_are_built_from_names() {
    let indexed = RichProjectSet::new(project_set()).unwrap();
    let set = set_containing_layers(&indexed, &strings(&["projects/cdpain"])).unwrap();
    assert_eq!(set.projects().len(), 1);
    let err = set_containing_layers(&indexed, &strings(&["nope"])).unwrap_err();
    assert_eq!(err.to_string(), "Layer named 'nope' not found");
}

#[test]
fn clones_start_from_mandatory_adhoc_and_named_layers() {
    let mandatory = ProjectSet::new(vec![Project::new("base", "", true, strings(&["bazel://b/..."]))]);
    let named = ProjectSet::new(vec![Project::new("team", "", false, strings(&["bazel://t:x", "bazel://t:y"]))]);
    let s = initial_selection(mandatory, strings(&["directory:d"]), named).unwrap();
    assert_eq!(s.selected_names, strings(&["team"]));
    assert_eq!(s.coordinates, strings(&["bazel://b/...", "directory:d", "bazel://t:x", "bazel://t:y"]));
    assert_eq!(s.adhoc.projects().len(), 1);
    assert_eq!(s.adhoc.projects()[0].name(), "adhoc");
    assert_eq!(s.adhoc.projects()[0].description(), "Ad-hoc layer");
    assert!(!s.adhoc.projects()[0].is_mandatory());

    let clash = ProjectSet::new(vec![Project::new("adhoc", "", false, vec![])]);
    assert!(initial_selection(ProjectSet::new(vec![]), vec![], clash).is_err());
}

#[test]
fn adhoc_operations_tell_whether_the_stack_changed() {
    let mut targets = strings(&["a", "b"]);
    assert!(!adhoc::push(&mut targets, &strings(&["a"])));
    assert!(adhoc::push(&mut targets, &strings(&["c"])));
    assert!(!adhoc::pop(&mut targets, 0));
    assert!(adhoc::pop(&mut targets, 1));
    assert!(!adhoc::remove(&mut targets, &strings(&["zzz"])));
    assert!(adhoc::remove(&mut targets, &strings(&["a"])));
    assert_eq!(targets, strings(&["b"]));
    let mut empty: Vec<String> = vec![];
    assert!(!adhoc::pop(&mut empty, 3));
}
