use focus_internals::materialize::PathsToMaterialize;
use focus_internals::outlining::{Pattern, PatternSet};
use focus_internals::selection::{Project, Selection};
use focus_internals::stringset::StringSet;
use focus_internals::sync::{
    branch_fetch_spec, idle_threshold_millis, incremental_next, needs_checkout, prefetch_ref_name,
    preemptive_sync_is_redundant, primary_branch_name, project_cache_patterns, project_cache_plan, MissingMandatoryPatterns, sync_commit, IncrementalAction,
    ProjectCacheSkip, SyncError, SyncResult,
};
use focus_internals::target::Target;

#[test]
fn idle_threshold_falls_back_to_the_default() {
    assert_eq!(idle_threshold_millis(None), 15000);
    assert_eq!(idle_threshold_millis(Some(0)), 15000);
    assert_eq!(idle_threshold_millis(Some(-5)), 15000);
    assert_eq!(idle_threshold_millis(Some(1)), 1);
    assert_eq!(idle_threshold_millis(Some(60000)), 60000);
}

#[test]
fn primary_branch_prefers_master() {
    assert_eq!(primary_branch_name(true, true), Some("master".to_string()));
    assert_eq!(primary_branch_name(false, true), Some("main".to_string()));
    assert_eq!(primary_branch_name(false, false), None);
}

#[test]
fn reference_names() {
    assert_eq!(prefetch_ref_name("origin", "main"), "refs/prefetch/remotes/origin/main");
    assert_eq!(branch_fetch_spec("master"), "refs/heads/master:refs/remotes/origin/master");
}

#[test]
fn sync_commit_choice() {
    assert_eq!(sync_commit(false, vec![1], Some(vec![2])), Ok(vec![1]));
    assert_eq!(sync_commit(true, vec![1], Some(vec![2])), Ok(vec![2]));
    assert_eq!(sync_commit(true, vec![1], None), Err(SyncError::NoPrefetchCommit));
    assert_eq!(SyncError::NoPrefetchCommit.to_string(), "No prefetch commit found for preemptive sync");
}

#[test]
fn redundant_preemptive_syncs() {
    let c = vec![7u8, 8];
    assert!(preemptive_sync_is_redundant(&c, &Some(vec![7, 8]), &None));
    // A known sparse sync point elsewhere decides, whatever the preemptive one.
    assert!(!preemptive_sync_is_redundant(&c, &Some(vec![1]), &Some(vec![7, 8])));
    assert!(preemptive_sync_is_redundant(&c, &None, &Some(vec![7, 8])));
    assert!(!preemptive_sync_is_redundant(&c, &None, &None));
}

#[test]
fn sync_results() {
    let r = SyncResult::disabled();
    assert!(r.skipped && !r.checked_out && r.commit_id.is_none());
    let r = SyncResult::redundant(vec![3]);
    assert!(r.skipped && !r.checked_out && r.commit_id == Some(vec![3]));
    let r = SyncResult::done(true, vec![4]);
    assert!(!r.skipped && r.checked_out && r.commit_id == Some(vec![4]));
}

fn project(name: &str, mandatory: bool) -> Project {
    Project {
        name: name.to_owned(),
        description: String::new(),
        mandatory,
        targets: StringSet::new(),
        projects: StringSet::new(),
    }
}

#[test]
fn project_cache_is_used_only_for_projects_with_an_endpoint() {
    let selection = Selection { projects: vec![project("a", false), project("m", true)], targets: vec![] };
    let plan = project_cache_plan(&selection, true, false).unwrap();
    assert_eq!(plan.project_names, vec!["a".to_owned()]);
    assert!(plan.fetch);
    assert!(!project_cache_plan(&selection, true, true).unwrap().fetch);
    assert_eq!(project_cache_plan(&selection, false, false).unwrap_err(), ProjectCacheSkip::NoEndpoint);
    let with_targets = Selection {
        projects: vec![project("a", false)],
        targets: vec![Target::try_from("bazel://a:b").unwrap()],
    };
    assert_eq!(project_cache_plan(&with_targets, true, false).unwrap_err(), ProjectCacheSkip::AdHocTargets);
}

#[test]
fn incremental_sync_asks_once_more_then_outlines() {
    let missing = PathsToMaterialize::MissingKeys { missing_keys: vec![], seen_keys: vec![] };
    assert!(matches!(incremental_next(true, false, &missing), IncrementalAction::AskAgain));
    assert!(matches!(incremental_next(true, true, &missing), IncrementalAction::Outline));
    assert!(matches!(incremental_next(false, false, &missing), IncrementalAction::Outline));
    let complete = PathsToMaterialize::Complete { seen_keys: vec![], paths: vec!["b".to_owned(), "a/c".to_owned()] };
    match incremental_next(true, false, &complete) {
        IncrementalAction::CheckOut(ps) => assert_eq!(ps.len(), 2),
        other => panic!("unexpected {:?}", other),
    }
}

#[test]
fn an_unchanged_profile_is_not_applied_again() {
    let digest = vec![1u8, 2, 3];
    assert!(!needs_checkout(&Some(vec![1, 2, 3]), &digest));
    assert!(needs_checkout(&Some(vec![1, 2, 4]), &digest));
    assert!(needs_checkout(&None, &digest));
    assert!(needs_checkout(&Some(vec![]), &vec![]));
}

fn dirs(paths: &[&str]) -> PatternSet {
    let mut set = PatternSet::new();
    for p in paths {
        set.insert(Pattern::Directory { precedence: 0, path: p.to_string(), recursive: true });
    }
    set
}

#[test]
fn project_cache_patterns_join_or_give_up() {
    let mandatory = dirs(&["m"]);
    let joined = project_cache_patterns(dirs(&["d"]), Some(&mandatory), &vec![Some(dirs(&["a"])), Some(dirs(&["b", "a"]))])
        .unwrap()
        .unwrap();
    assert_eq!(joined.len(), 4);
    assert!(project_cache_patterns(dirs(&["d"]), Some(&mandatory), &vec![Some(dirs(&["a"])), None])
        .unwrap()
        .is_none());
    assert_eq!(project_cache_patterns(dirs(&["d"]), None, &vec![]).unwrap_err(), MissingMandatoryPatterns);
}
