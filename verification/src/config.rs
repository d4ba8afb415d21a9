//! Per-repository configuration (index and notifications) and the default
//! locations of repositories.

use vstd::prelude::*;
use crate::maintenance::joined_path;
use crate::text::views;

verus! {

/// A kind of notification that a user may suppress.
#[derive(Debug, Clone, Copy, PartialEq, Eq, Structural, Hash, PartialOrd, Ord)]
pub enum NotificationCategory {
    /// Notifications about the state of the build graph.
    BuildGraphState,
}

/// Which notifications are suppressed.
#[derive(Debug, Clone, PartialEq, Eq, Hash)]
pub struct NotificationConfig {
    /// The suppressed categories.
    pub suppressed_categories: Vec<NotificationCategory>,
}

impl Default for NotificationConfig {
    fn default() -> (res: Self)
        ensures
            res.suppressed_categories@ == Seq::<NotificationCategory>::empty(),
    {
        NotificationConfig { suppressed_categories: Vec::new() }
    }
}

impl NotificationConfig {
    /// Whether notifications of `category` may be shown.
    pub fn is_allowed(&self, category: NotificationCategory) -> (res: bool)
        ensures
            res == !self.suppressed_categories@.contains(category),
    {
        let mut i: usize = 0;
        while i < self.suppressed_categories.len()
            invariant
                i <= self.suppressed_categories@.len(),
                forall|j: int| 0 <= j < i ==> self.suppressed_categories@[j] != category,
            decreases self.suppressed_categories@.len() - i,
        {
            if self.suppressed_categories[i] == category {
                return false;
            }
            i = i + 1;
        }
        true
    }
}

/// Where the index of a repository is fetched from.
#[derive(Debug, Clone, Default, PartialEq, Eq)]
pub struct IndexConfig {
    /// Whether fetching is enabled.
    pub enabled: bool,
    /// The remote URL.
    pub remote: String,
}

/// The configuration of a repository.
#[derive(Debug, Clone, Default, PartialEq, Eq)]
pub struct Configuration {
    pub index: IndexConfig,
    pub notification: NotificationConfig,
}

/// The name of the file that holds the index configuration.
pub const INDEX_CONFIG_FILENAME: &'static str = "index.cfg.json";

/// The name of the file that holds the notification configuration.
pub const NOTIFICATION_CONFIG_FILENAME: &'static str = "notification.cfg.json";

impl Configuration {
    /// The directory of the configuration files of the repository at
    /// `repo_path`.
    pub fn config_dir(repo_path: &str) -> (res: String)
        ensures
            res@ == joined_path(joined_path(repo_path@, ".focus"@), "config"@),
    {
        let focus = crate::maintenance::join_path(repo_path, ".focus");
        crate::maintenance::join_path(focus.as_str(), "config")
    }
}

/// A repository that focus manages, and how targets are found in it.
#[derive(Debug, Clone)]
pub struct RepoConfig {
    pub path: String,
    pub target_extractors: Vec<String>,
}

/// The names of the default target extractors.
pub fn default_target_extractors() -> (res: Vec<String>)
    ensures
        views(res@) == seq!["bazel"@, "pants"@],
{
    let res = vec![String::from_str("bazel"), String::from_str("pants")];
    assert(views(res@) =~= seq!["bazel"@, "pants"@]);
    res
}

/// The home directory of the user, through `dirs::home_dir`: `None` where
/// it cannot be determined, or where it is not valid Unicode. It depends on
/// the environment, so nothing is said of its value.
#[verifier::external_body]
fn home_dir() -> (res: Option<String>) {
    dirs::home_dir().and_then(|p| p.to_str().map(|s| s.to_string()))
}

/// The default directory of repositories below the home directory `home`.
pub fn default_repo_root_in(home: &str) -> (res: String)
    ensures
        res@ == joined_path(joined_path(home@, "workspace"@), "repos"@),
{
    let workspace = crate::maintenance::join_path(home, "workspace");
    crate::maintenance::join_path(workspace.as_str(), "repos")
}

/// The default source directory below the home directory `home`.
pub fn default_source_root_in(home: &str) -> (res: String)
    ensures
        res@ == joined_path(joined_path(home@, "workspace"@), "source"@),
{
    let workspace = crate::maintenance::join_path(home, "workspace");
    crate::maintenance::join_path(workspace.as_str(), "source")
}

/// The default directory of repositories: `None` where the home directory
/// is unknown.
pub fn default_repo_root() -> (res: Option<String>)
    ensures
        res matches Some(r) ==> exists|h: Seq<char>|
            r@ == #[trigger] joined_path(joined_path(h, "workspace"@), "repos"@),
{
    match home_dir() {
        Some(home) => Some(default_repo_root_in(home.as_str())),
        None => None,
    }
}

/// The default source directory: `None` where the home directory is
/// unknown.
pub fn default_source_root() -> (res: Option<String>)
    ensures
        res matches Some(r) ==> exists|h: Seq<char>|
            r@ == #[trigger] joined_path(joined_path(h, "workspace"@), "source"@),
{
    match home_dir() {
        Some(home) => Some(default_source_root_in(home.as_str())),
        None => None,
    }
}

/// The default managed repositories for the home directory `home`: its
/// source directory, with the default target extractors.
pub fn default_authorities_in(home: &str) -> (res: Vec<RepoConfig>)
    ensures
        res@.len() == 1,
        res@[0].path@ == joined_path(joined_path(home@, "workspace"@), "source"@),
        views(res@[0].target_extractors@) == seq!["bazel"@, "pants"@],
{
    vec![RepoConfig { path: default_source_root_in(home), target_extractors: default_target_extractors() }]
}

/// The default managed repositories: `None` where the home directory is
/// unknown.
pub fn default_authorities() -> (res: Option<Vec<RepoConfig>>)
    ensures
        res matches Some(v) ==> v@.len() == 1 && views(v@[0].target_extractors@) == seq![
            "bazel"@,
            "pants"@,
        ] && exists|h: Seq<char>|
            v@[0].path@ == #[trigger] joined_path(joined_path(h, "workspace"@), "source"@),
{
    match home_dir() {
        Some(home) => Some(default_authorities_in(home.as_str())),
        None => None,
    }
}


/// Where focus keeps its data in a working tree.
#[derive(Debug, Clone)]
pub struct DataPaths {
    pub dot_focus_dir: String,
    pub focus_dir: String,
    pub project_dir: String,
    pub selection_file: String,
}

impl DataPaths {
    /// The data paths of the working tree at `work_dir`: `.focus`,
    /// `focus`, `focus/projects` and `.focus/user.selection.json`.
    pub fn for_working_tree(work_dir: &str) -> (res: DataPaths)
        ensures
            res.dot_focus_dir@ == joined_path(work_dir@, ".focus"@),
            res.focus_dir@ == joined_path(work_dir@, "focus"@),
            res.project_dir@ == joined_path(joined_path(work_dir@, "focus"@), "projects"@),
            res.selection_file@ == joined_path(
                joined_path(work_dir@, ".focus"@),
                "user.selection.json"@,
            ),
    {
        let dot_focus_dir = crate::maintenance::join_path(work_dir, ".focus");
        let focus_dir = crate::maintenance::join_path(work_dir, "focus");
        let project_dir = crate::maintenance::join_path(focus_dir.as_str(), "projects");
        let selection_file = crate::maintenance::join_path(dot_focus_dir.as_str(), "user.selection.json");
        DataPaths { dot_focus_dir, focus_dir, project_dir, selection_file }
    }
}

/// The kind of a working tree.
#[derive(Debug, Clone, Copy, PartialEq, Eq, Structural)]
pub enum WorkingTreeKind {
    Sparse,
    Dense,
}

/// The store of the index.
#[derive(Debug, Clone, Copy, PartialEq, Eq, Structural)]
pub enum Backend {
    /// A store in plain Git objects; not for production use.
    Simple,
    /// A RocksDB database.
    RocksDb,
}

/// The status a command ends with.
#[derive(Debug, Clone, Copy, PartialEq, Eq, Structural)]
pub struct ExitCode(pub i32);

/// The Git hooks that focus installs.
pub fn hook_names() -> (res: Vec<String>)
    ensures
        views(res@) == seq!["post-merge"@, "post-commit"@],
{
    let res = vec![String::from_str("post-merge"), String::from_str("post-commit")];
    assert(views(res@) =~= seq!["post-merge"@, "post-commit"@]);
    res
}

/// The directory of the Git hooks of the repository at `repo_path`.
pub fn hooks_dir(repo_path: &str) -> (res: String)
    ensures
        res@ == joined_path(joined_path(repo_path@, ".git"@), "hooks"@),
{
    let git = crate::maintenance::join_path(repo_path, ".git");
    crate::maintenance::join_path(git.as_str(), "hooks")
}

/// The script of the hook `hook`, which runs the program `exe_name`.
pub fn hook_script(exe_name: &str, hook: &str) -> (res: String)
    ensures
        res@ == exe_name@ + " event "@ + hook@ + "\n"@,
{
    String::from_str(exe_name).concat(" event ").concat(hook).concat("\n")
}

} // verus!
