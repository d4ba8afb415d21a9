//! The decisions of a sync: which commit it brings the sparse profile to,
//! when a preemptive sync has nothing to do, and the repository settings it
//! reads. Reading and writing the repository is left to the caller.

use vstd::prelude::*;
use crate::materialize::PathsToMaterialize;
use crate::outlining::{PatternSet, PatternView, directory_patterns, directory_patterns_of, insert_all};
use crate::selection::{Selection, project_cache_names, selectable_names};
use crate::text::views;

verus! {

/// The idle time, in milliseconds, after which a preemptive sync may run
/// when none (or no positive one) is configured.
pub const PREEMPTIVE_SYNC_USER_IDLE_MILLIS_THRESHOLD_DEFAULT: i32 = 15000;

/// The idle threshold a configuration value stands for.
pub open spec fn idle_threshold(configured: Option<i32>) -> int {
    match configured {
        Some(t) => if t >= 1 {
            t as int
        } else {
            PREEMPTIVE_SYNC_USER_IDLE_MILLIS_THRESHOLD_DEFAULT as int
        },
        None => PREEMPTIVE_SYNC_USER_IDLE_MILLIS_THRESHOLD_DEFAULT as int,
    }
}

/// The idle time, in milliseconds, after which a preemptive sync may run:
/// the configured value where it is positive, else the default.
pub fn idle_threshold_millis(configured: Option<i32>) -> (res: u64)
    ensures
        res == idle_threshold(configured),
{
    match configured {
        Some(t) => if t >= 1 {
            t as u64
        } else {
            PREEMPTIVE_SYNC_USER_IDLE_MILLIS_THRESHOLD_DEFAULT as u64
        },
        None => PREEMPTIVE_SYNC_USER_IDLE_MILLIS_THRESHOLD_DEFAULT as u64,
    }
}

/// The primary branch of a repository: `master` where it has one, else
/// `main` where it has one; none otherwise.
pub fn primary_branch_name(has_master: bool, has_main: bool) -> (res: Option<String>)
    ensures
        has_master ==> (res matches Some(n) && n@ == "master"@),
        !has_master && has_main ==> (res matches Some(n) && n@ == "main"@),
        !has_master && !has_main ==> res is None,
{
    if has_master {
        Some(String::from_str("master"))
    } else if has_main {
        Some(String::from_str("main"))
    } else {
        None
    }
}

/// The reference that prefetching leaves for a branch of a remote.
pub fn prefetch_ref_name(remote: &str, branch: &str) -> (res: String)
    ensures
        res@ == "refs/prefetch/remotes/"@ + remote@ + "/"@ + branch@,
{
    String::from_str("refs/prefetch/remotes/").concat(remote).concat("/").concat(branch)
}

/// The fetch refspec that tracks a branch of `origin`.
pub fn branch_fetch_spec(branch: &str) -> (res: String)
    ensures
        res@ == "refs/heads/"@ + branch@ + ":refs/remotes/origin/"@ + branch@,
{
    String::from_str("refs/heads/").concat(branch).concat(":refs/remotes/origin/").concat(branch)
}

/// Why a sync cannot go on.
#[derive(Debug, Clone, Copy, PartialEq, Eq, Structural)]
pub enum SyncError {
    /// A preemptive sync found no prefetched commit of the primary branch.
    NoPrefetchCommit,
}

impl SyncError {
    /// The message of the error.
    pub fn to_string(&self) -> (res: String)
        ensures
            res@ == "No prefetch commit found for preemptive sync"@,
    {
        String::from_str("No prefetch commit found for preemptive sync")
    }
}

/// The commit a sync brings the sparse profile to: the prefetched commit of
/// the primary branch for a preemptive sync (which fails without one), the
/// head commit otherwise.
pub fn sync_commit(preemptive: bool, head: Vec<u8>, prefetched: Option<Vec<u8>>) -> (res: Result<
    Vec<u8>,
    SyncError,
>)
    ensures
        !preemptive ==> (res matches Ok(c) && c@ == head@),
        preemptive ==> match prefetched {
            Some(p) => res matches Ok(c) && c@ == p@,
            None => res == Err::<Vec<u8>, SyncError>(SyncError::NoPrefetchCommit),
        },
{
    if preemptive {
        match prefetched {
            Some(p) => Ok(p),
            None => Err(SyncError::NoPrefetchCommit),
        }
    } else {
        Ok(head)
    }
}

fn same_bytes(a: &Vec<u8>, b: &Vec<u8>) -> (res: bool)
    ensures
        res == (a@ == b@),
{
    if a.len() != b.len() {
        return false;
    }
    let mut i: usize = 0;
    while i < a.len()
        invariant
            a@.len() == b@.len(),
            i <= a@.len(),
            forall|j: int| 0 <= j < i ==> a@[j] == b@[j],
        decreases a@.len() - i,
    {
        if a[i] != b[i] {
            return false;
        }
        i = i + 1;
    }
    assert(a@ =~= b@);
    true
}

/// Whether a preemptive sync to `commit` has nothing to do: the sync point
/// of the sparse profile, where it is known, is at `commit`; where it is
/// not known, the preemptive sync point is.
pub open spec fn presync_is_redundant(
    commit: Seq<u8>,
    sparse_sync_point: Option<Seq<u8>>,
    preemptive_sync_point: Option<Seq<u8>>,
) -> bool {
    match sparse_sync_point {
        Some(s) => s == commit,
        None => preemptive_sync_point == Some(commit),
    }
}

/// Whether a preemptive sync to `commit` has nothing to do, given the
/// sync points that could be read.
pub fn preemptive_sync_is_redundant(
    commit: &Vec<u8>,
    sparse_sync_point: &Option<Vec<u8>>,
    preemptive_sync_point: &Option<Vec<u8>>,
) -> (res: bool)
    ensures
        res == presync_is_redundant(
            commit@,
            match sparse_sync_point {
                Some(s) => Some(s@),
                None => None,
            },
            match preemptive_sync_point {
                Some(p) => Some(p@),
                None => None,
            },
        ),
{
    match sparse_sync_point {
        Some(s) => same_bytes(s, commit),
        None => match preemptive_sync_point {
            Some(p) => same_bytes(p, commit),
            None => false,
        },
    }
}

/// What a sync did.
#[derive(Debug, Clone)]
pub struct SyncResult {
    /// The working tree was checked out anew.
    pub checked_out: bool,
    /// The commit synced to, where one was chosen.
    pub commit_id: Option<Vec<u8>>,
    /// The sync had nothing to do.
    pub skipped: bool,
}

impl SyncResult {
    /// A preemptive sync that is turned off.
    pub fn disabled() -> (res: SyncResult)
        ensures
            !res.checked_out && res.commit_id is None && res.skipped,
    {
        SyncResult { checked_out: false, commit_id: None, skipped: true }
    }

    /// A preemptive sync skipped because the sync point is already at the
    /// commit.
    pub fn redundant(commit: Vec<u8>) -> (res: SyncResult)
        ensures
            !res.checked_out && res.commit_id == Some(commit) && res.skipped,
    {
        SyncResult { checked_out: false, commit_id: Some(commit), skipped: true }
    }

    /// A sync that ran.
    pub fn done(checked_out: bool, commit: Vec<u8>) -> (res: SyncResult)
        ensures
            res.checked_out == checked_out && res.commit_id == Some(commit) && !res.skipped,
    {
        SyncResult { checked_out, commit_id: Some(commit), skipped: false }
    }
}

/// Why a sync does not use the project cache.
#[derive(Debug, Clone, Copy, PartialEq, Eq, Structural)]
pub enum ProjectCacheSkip {
    /// The selection holds targets of its own, which the cache does not know.
    AdHocTargets,
    /// No remote endpoint of the project cache is configured.
    NoEndpoint,
}

/// How a sync uses the project cache.
#[derive(Debug)]
pub struct ProjectCachePlan {
    /// The projects whose cached patterns are looked up.
    pub project_names: Vec<String>,
    /// Whether the cache's content for the build graph is fetched first.
    pub fetch: bool,
}

/// Whether and how a sync uses the project cache: not for a selection with
/// targets of its own, nor without a configured endpoint; otherwise the
/// patterns of the selection's selectable projects are looked up, after
/// fetching the cache's content unless it was imported already.
pub fn project_cache_plan(selection: &Selection, endpoint_configured: bool, imported: bool) -> (res:
    Result<ProjectCachePlan, ProjectCacheSkip>)
    ensures
        selection.targets@.len() > 0 ==> res == Err::<ProjectCachePlan, ProjectCacheSkip>(
            ProjectCacheSkip::AdHocTargets,
        ),
        selection.targets@.len() == 0 && !endpoint_configured ==> res == Err::<
            ProjectCachePlan,
            ProjectCacheSkip,
        >(ProjectCacheSkip::NoEndpoint),
        selection.targets@.len() == 0 && endpoint_configured ==> (res matches Ok(plan) && views(
            plan.project_names@,
        ).to_set() == selectable_names(selection@) && plan.fetch == !imported),
{
    match project_cache_names(selection) {
        None => Err(ProjectCacheSkip::AdHocTargets),
        Some(names) => {
            if !endpoint_configured {
                Err(ProjectCacheSkip::NoEndpoint)
            } else {
                Ok(ProjectCachePlan { project_names: names, fetch: !imported })
            }
        },
    }
}

/// What an incremental sync does once the index has been asked which paths
/// its keys materialize.
#[derive(Debug)]
pub enum IncrementalAction {
    /// Ask the index again (after fetching it from the remote).
    AskAgain,
    /// Check out these patterns: each path with all below it.
    CheckOut(PatternSet),
    /// Some keys have no answer: outline the targets with Bazel.
    Outline,
}

/// The next step of an incremental sync, given whether the remote index is
/// enabled, whether the index was asked again already, and the answer: a
/// complete answer is checked out; keys without an answer make it ask once
/// more where the remote index is enabled, and otherwise outline.
pub fn incremental_next(index_enabled: bool, asked_again: bool, outcome: &PathsToMaterialize) -> (res:
    IncrementalAction)
    ensures
        match outcome {
            PathsToMaterialize::Complete { paths, .. } => res matches IncrementalAction::CheckOut(
                ps,
            ) && ps.wf() && ps@ == insert_all(Seq::empty(), directory_patterns_of(views(paths@))),
            PathsToMaterialize::MissingKeys { .. } => if index_enabled && !asked_again {
                res is AskAgain
            } else {
                res is Outline
            },
        },
{
    match outcome {
        PathsToMaterialize::Complete { paths, .. } => IncrementalAction::CheckOut(
            directory_patterns(paths),
        ),
        PathsToMaterialize::MissingKeys { .. } => {
            if index_enabled && !asked_again {
                IncrementalAction::AskAgain
            } else {
                IncrementalAction::Outline
            }
        },
    }
}

/// Whether a sparse profile with digest `candidate` has to be applied, given
/// the digest of the profile in place (`None` where there is none): it has
/// to unless the one in place has a non-empty digest equal to it.
pub fn needs_checkout(current: &Option<Vec<u8>>, candidate: &Vec<u8>) -> (res: bool)
    ensures
        res == !(current matches Some(c) && c@.len() > 0 && c@ == candidate@),
{
    match current {
        None => true,
        Some(c) => {
            if c.len() == 0 || c.len() != candidate.len() {
                return true;
            }
            let mut i: usize = 0;
            while i < c.len()
                invariant
                    *current == Some(*c),
                    c@.len() == candidate@.len(),
                    i <= c@.len(),
                    forall|j: int| 0 <= j < i ==> c@[j] == candidate@[j],
                decreases c@.len() - i,
            {
                if c[i] != candidate[i] {
                    assert(c@[i as int] != candidate@[i as int]);
                    assert(c@ != candidate@);
                    return true;
                }
                i = i + 1;
            }
            assert(c@ =~= candidate@);
            false
        },
    }
}

/// The project cache holds no patterns of the mandatory projects.
#[derive(Debug, Clone, Copy, PartialEq, Eq, Structural)]
pub struct MissingMandatoryPatterns;

/// `start` with each of the cached pattern sets added in turn; none where
/// one of them is missing.
pub open spec fn joined_patterns(start: Seq<PatternView>, sets: Seq<Option<PatternSet>>) -> Option<
    Seq<PatternView>,
>
    decreases sets.len(),
{
    if sets.len() == 0 {
        Some(start)
    } else {
        match joined_patterns(start, sets.drop_last()) {
            None => None,
            Some(s) => match sets.last() {
                None => None,
                Some(p) => Some(insert_all(s, p@)),
            },
        }
    }
}

/// The patterns a sync checks out from the project cache: the default
/// patterns of the working tree, those of the mandatory projects, then
/// those of each selected project; none where the cache lacks the patterns
/// of some selected project, and an error where it lacks the mandatory
/// ones.
pub fn project_cache_patterns(
    defaults: PatternSet,
    mandatory: Option<&PatternSet>,
    optional: &Vec<Option<PatternSet>>,
) -> (res: Result<Option<PatternSet>, MissingMandatoryPatterns>)
    requires
        defaults.wf(),
    ensures
        match mandatory {
            None => res == Err::<Option<PatternSet>, MissingMandatoryPatterns>(MissingMandatoryPatterns),
            Some(m) => match joined_patterns(insert_all(defaults@, m@), optional@) {
                None => res matches Ok(None),
                Some(v) => res matches Ok(Some(ps)) && ps.wf() && ps@ == v,
            },
        },
{
    let m = match mandatory {
        Some(m) => m,
        None => {
            return Err(MissingMandatoryPatterns);
        },
    };
    let mut patterns = defaults;
    patterns.extend(m);
    let ghost start = patterns@;
    let mut i: usize = 0;
    assert(optional@.subrange(0, 0) =~= Seq::<Option<PatternSet>>::empty());
    while i < optional.len()
        invariant
            i <= optional@.len(),
            patterns.wf(),
            mandatory == Some(m),
            start == insert_all(defaults@, m@),
            joined_patterns(start, optional@.subrange(0, i as int)) == Some(patterns@),
        decreases optional@.len() - i,
    {
        assert(optional@.subrange(0, i + 1).drop_last() =~= optional@.subrange(0, i as int));
        match &optional[i] {
            Some(p) => {
                patterns.extend(p);
            },
            None => {
                proof {
                    lemma_joined_missing(start, optional@, i as int);
                }
                return Ok(None);
            },
        }
        i = i + 1;
    }
    assert(optional@.subrange(0, i as int) =~= optional@);
    Ok(Some(patterns))
}

/// Once a set is missing, the join is none.
proof fn lemma_joined_missing(start: Seq<PatternView>, sets: Seq<Option<PatternSet>>, i: int)
    requires
        0 <= i < sets.len(),
        sets[i] is None,
    ensures
        joined_patterns(start, sets) is None,
    decreases sets.len(),
{
    if i < sets.len() - 1 {
        lemma_joined_missing(start, sets.drop_last(), i);
    }
}

} // verus!
