use focus_internals::catalog::{ProjectCatalog, ProjectCatalogError, ProjectIndex, ProjectSetStore};
use focus_internals::selection::{Project, ProjectSet};
use focus_internals::stringset::StringSet;

fn project(name: &str, target: &str) -> Project {
    Project {
        name: name.to_owned(),
        description: String::new(),
        mandatory: false,
        targets: StringSet::from_vec(vec![target.to_owned()]),
        projects: StringSet::new(),
    }
}

fn store() -> ProjectSetStore {
    let mut store = ProjectSetStore::new();
    store.insert("a.projects.json".to_owned(), ProjectSet { projects: vec![project("a", "bazel://a:a")] });
    store.insert("b.projects.json".to_owned(), ProjectSet { projects: vec![project("b", "bazel://b:b")] });
    store
}

#[test]
fn catalog_indexes_every_set() {
    let catalog = ProjectCatalog::new(store(), &ProjectSetStore::new()).unwrap();
    assert_eq!(catalog.optional_projects.underlying.len(), 2);
    assert_eq!(
        catalog.optional_projects.sources.get("b").map(|s| s.as_str()),
        Some("b.projects.json")
    );
    assert_eq!(catalog.mandatory_projects.underlying.len(), 0);
}

#[test]
fn catalog_refuses_a_project_defined_twice() {
    let mut twice = store();
    twice.insert("c.projects.json".to_owned(), ProjectSet { projects: vec![project("a", "bazel://c:c")] });
    let err = ProjectCatalog::new(twice, &ProjectSetStore::new()).unwrap_err();
    assert_eq!(err.name, "a");
    assert_eq!(err.project_set_name, "c.projects.json");
    assert_eq!(err.previously_defined_in, "a.projects.json");
}

#[test]
fn setting_a_known_project_keeps_its_file() {
    let mut catalog = ProjectCatalog::new(store(), &ProjectSetStore::new()).unwrap();
    let updated = project("a", "bazel://new:one");
    catalog.set_project("a".to_owned(), updated, None).unwrap();
    let set = catalog.optional_project_sets().get("a.projects.json").unwrap();
    assert_eq!(set.projects.len(), 1);
    assert_eq!(set.projects[0].targets.items(), &vec!["bazel://new:one".to_owned()]);
}

#[test]
fn setting_a_new_project_needs_a_file() {
    let mut catalog = ProjectCatalog::new(store(), &ProjectSetStore::new()).unwrap();
    assert_eq!(
        catalog.set_project("n".to_owned(), project("n", "bazel://n:n"), None),
        Err(ProjectCatalogError::ProjectExistsElsewhere)
    );
    catalog
        .set_project("n".to_owned(), project("n", "bazel://n:n"), Some("n.projects.json".to_owned()))
        .unwrap();
    assert_eq!(
        catalog.optional_projects.sources.get("n").map(|s| s.as_str()),
        Some("n.projects.json")
    );
    assert_eq!(catalog.optional_project_sets().get("n.projects.json").unwrap().projects.len(), 1);
}

#[test]
fn a_known_project_cannot_move_files() {
    let mut catalog = ProjectCatalog::new(store(), &ProjectSetStore::new()).unwrap();
    assert_eq!(
        catalog.set_project("a".to_owned(), project("a", "bazel://x:x"), Some("b.projects.json".to_owned())),
        Err(ProjectCatalogError::ProjectNotFound)
    );
}

#[test]
fn set_project_replaces_in_place_or_appends() {
    let mut set = ProjectSet { projects: vec![project("a", "bazel://a:a"), project("b", "bazel://b:b")] };
    set.set_project("a".to_owned(), project("a", "bazel://z:z"));
    assert_eq!(set.projects[0].targets.items(), &vec!["bazel://z:z".to_owned()]);
    set.set_project("c".to_owned(), project("c", "bazel://c:c"));
    assert_eq!(set.projects.len(), 3);
    set.remove_project("a".to_owned());
    assert_eq!(set.projects.len(), 2);
    assert_eq!(set.projects[0].name, "b");
}

#[test]
fn index_extension_reports_the_first_duplicate() {
    let mut index = ProjectIndex::new();
    index.extend("one", &ProjectSet { projects: vec![project("a", "bazel://a:a")] }).unwrap();
    let err = index
        .extend("two", &ProjectSet { projects: vec![project("b", "bazel://b:b"), project("a", "bazel://x:x")] })
        .unwrap_err();
    assert_eq!(err.name, "a");
    assert_eq!(err.project_set_name, "two");
    assert_eq!(err.previously_defined_in, "one");
}

fn entry(file: &str) -> Option<String> {
    focus_internals::keyed::collection_entry_name(file, "projects.json")
}

#[test]
fn collection_files_name_their_entries() {
    assert_eq!(entry("team.projects.json"), Some("team".to_string()));
    assert_eq!(entry(".projects.json"), Some(String::new()));
    assert_eq!(entry("team.json"), None);
    assert_eq!(entry("projects.json"), None);
    assert_eq!(entry("a.b.projects.json"), Some("a.b".to_string()));
}

#[test]
fn index_listing_pads_names_and_counts_contents() {
    let mut index = ProjectIndex::new();
    let mut wide = project("zeta_long", "bazel://z:z");
    wide.description = "last".to_owned();
    wide.targets = StringSet::from_vec(vec!["bazel://z:z".to_owned(), "bazel://y:y".to_owned()]);
    wide.projects = StringSet::from_vec(vec!["a".to_owned()]);
    let mut bare = project("alpha", "bazel://a:a");
    bare.description = "first".to_owned();
    bare.targets = StringSet::new();
    index.extend("one", &ProjectSet { projects: vec![wide, bare] }).unwrap();
    assert_eq!(
        index.to_string(),
        "alpha       first\nzeta_long   last (2 targets, 1 project)\n"
    );
}
