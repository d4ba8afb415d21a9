use focus_internals::config::{
    hook_names, hook_script, hooks_dir, DataPaths,
    default_authorities_in, default_repo_root_in, default_source_root_in, default_target_extractors,
    Configuration, NotificationCategory, NotificationConfig,
};

#[test]
fn notification_config_defaults_to_unsupressed() {
    let config = NotificationConfig::default();
    assert!(config.suppressed_categories.is_empty());
    assert!(config.is_allowed(NotificationCategory::BuildGraphState));
}

#[test]
fn reading_notification_config() {
    let in_memory_config = NotificationConfig {
        suppressed_categories: vec![NotificationCategory::BuildGraphState],
    };
    assert!(!in_memory_config.is_allowed(NotificationCategory::BuildGraphState));
}

#[test]
fn configuration_lives_below_the_repository() {
    assert_eq!(Configuration::config_dir("/repo"), "/repo/.focus/config");
    assert_eq!(Configuration::config_dir("/repo/"), "/repo/.focus/config");
}

#[test]
fn default_locations() {
    assert_eq!(default_target_extractors(), vec!["bazel", "pants"]);
    assert_eq!(default_repo_root_in("/home/a"), "/home/a/workspace/repos");
    assert_eq!(default_source_root_in("/home/a"), "/home/a/workspace/source");
    let authorities = default_authorities_in("/home/a");
    assert_eq!(authorities.len(), 1);
    assert_eq!(authorities[0].path, "/home/a/workspace/source");
}

#[test]
fn working_tree_paths_and_hooks() {
    let p = DataPaths::for_working_tree("/w");
    assert_eq!(p.dot_focus_dir, "/w/.focus");
    assert_eq!(p.focus_dir, "/w/focus");
    assert_eq!(p.project_dir, "/w/focus/projects");
    assert_eq!(p.selection_file, "/w/.focus/user.selection.json");
    assert_eq!(hook_names(), vec!["post-merge", "post-commit"]);
    assert_eq!(hooks_dir("/w"), "/w/.git/hooks");
}

#[test]
fn write_hooks_to_dir_produces_correct_scripts() {
    let focus_exe_path = "focus";
    for hook in ["fancy-hook", "boring-hook"] {
        let expected_content = format!("{} event {}\n", focus_exe_path, hook);
        assert_eq!(hook_script(focus_exe_path, hook), expected_content);
    }
}

#[test]
fn default_locations_follow_the_home_directory() {
    if let Some(root) = focus_internals::config::default_source_root() {
        assert!(root.ends_with("workspace/source"));
    }
    if let Some(root) = focus_internals::config::default_repo_root() {
        assert!(root.ends_with("workspace/repos"));
    }
    if let Some(authorities) = focus_internals::config::default_authorities() {
        assert_eq!(authorities.len(), 1);
        assert_eq!(authorities[0].target_extractors, vec!["bazel", "pants"]);
    }
}
