//! Resolving targets to the paths a sparse checkout needs: the set of
//! paths a resolution gives, the Bazel queries it runs and what it keeps of
//! their answers, and the dependency keys of the index.

use vstd::prelude::*;
use crate::path::{
    Order, PathComponent, components_order, flip, lemma_components_order,
    lemma_components_order_transitive, path_components,
};
use crate::target::{Label, LabelParseError, LabelView, Target, TargetName, TargetNameView, TargetView, label_text};
use crate::text::{join_with, views};

verus! {

/// Paths are ordered by their components, each once.
pub open spec fn ordered_paths(s: Seq<Seq<PathComponent>>) -> bool {
    forall|i: int, j: int| 0 <= i < j < s.len() ==> components_order(s[i], s[j]) == Order::Less
}

pub open spec fn path_views(v: Seq<String>) -> Seq<Seq<PathComponent>> {
    v.map_values(|p: String| path_components(p@))
}

/// A set of paths, ordered by their components; two texts that name the
/// same path (such as `a/b` and `a/b/`) count once, as the first inserted.
#[derive(Debug, Clone)]
pub struct PathSet {
    paths: Vec<String>,
}

impl View for PathSet {
    type V = Seq<Seq<PathComponent>>;

    closed spec fn view(&self) -> Seq<Seq<PathComponent>> {
        path_views(self.paths@)
    }
}

impl PathSet {
    pub closed spec fn wf(&self) -> bool {
        ordered_paths(self@)
    }

    /// An empty set.
    pub fn new() -> (res: PathSet)
        ensures
            res.wf(),
            res@ == Seq::<Seq<PathComponent>>::empty(),
    {
        let res = PathSet { paths: Vec::new() };
        assert(res@ =~= Seq::<Seq<PathComponent>>::empty());
        res
    }

    /// The paths, in order.
    pub fn paths(&self) -> (res: &Vec<String>)
        ensures
            path_views(res@) == self@,
    {
        &self.paths
    }

    /// The number of paths.
    pub fn len(&self) -> (res: usize)
        ensures
            res == self@.len(),
    {
        self.paths.len()
    }

    /// Inserts `path` unless the set holds the same path; tells whether it
    /// was inserted.
    #[verifier::loop_isolation(false)]
    pub fn insert(&mut self, path: String) -> (res: bool)
        requires
            old(self).wf(),
        ensures
            final(self).wf(),
            res == !old(self)@.contains(path_components(path@)),
            final(self)@.to_set() == old(self)@.to_set().insert(path_components(path@)),
    {
        let ghost before = self@;
        let ghost c = path_components(path@);
        let mut k: usize = 0;
        let mut stopped = false;
        while k < self.paths.len()
            invariant
                self@ == before,
                c == path_components(path@),
                ordered_paths(before),
                k <= before.len(),
                !stopped,
                forall|i: int| 0 <= i < k ==> components_order(before[i], c) == Order::Less,
            decreases before.len() - k,
        {
            let o = crate::path::compare_paths(path.as_str(), self.paths[k].as_str());
            assert(before[k as int] == path_components(self.paths@[k as int]@));
            proof {
                lemma_components_order(c, before[k as int]);
            }
            match o {
                Order::Greater => {
                    k = k + 1;
                },
                Order::Equal => {
                    assert(before[k as int] == c);
                    assert(before.contains(c));
                    assert(before.to_set().insert(c) =~= before.to_set());
                    return false;
                },
                Order::Less => {
                    stopped = true;
                    break;
                },
            }
        }
        assert(stopped ==> k < before.len() && components_order(c, before[k as int]) == Order::Less);
        assert(!stopped ==> k == before.len());
        proof {
            assert forall|i: int| 0 <= i < before.len() implies before[i] != c by {
                if i < k {
                    lemma_components_order(before[i], c);
                } else {
                    lemma_components_order(c, before[k as int]);
                    if i > k {
                        lemma_components_order(before[k as int], before[i]);
                        if before[i] == c {
                            lemma_components_order_transitive(c, before[k as int], before[i]);
                            lemma_components_order(c, c);
                        }
                    }
                }
            }
        }
        self.paths.insert(k, path);
        proof {
            let after = self@;
            assert(after =~= before.insert(k as int, c));
            assert forall|i: int, j: int| 0 <= i < j < after.len() implies components_order(
                after[i],
                after[j],
            ) == Order::Less by {
                if j < k {
                    assert(after[i] == before[i] && after[j] == before[j]);
                } else if j == k {
                    assert(after[i] == before[i]);
                } else if i > k {
                    assert(after[i] == before[i - 1] && after[j] == before[j - 1]);
                } else if i == k {
                    assert(after[j] == before[j - 1]);
                    if j - 1 == k {
                    } else {
                        lemma_components_order_transitive(c, before[k as int], before[j - 1]);
                    }
                } else {
                    assert(after[i] == before[i] && after[j] == before[j - 1]);
                    if j - 1 == k {
                        lemma_components_order_transitive(before[i], c, before[k as int]);
                    } else {
                        lemma_components_order_transitive(before[i], before[k as int], before[j - 1]);
                    }
                }
            }
            assert(after.to_set() =~= before.to_set().insert(c)) by {
                assert forall|x| after.to_set().contains(x) implies before.to_set().insert(c).contains(
                    x,
                ) by {
                    let j = choose|j: int| 0 <= j < after.len() && after[j] == x;
                    if j < k {
                        assert(before[j] == x);
                    } else if j > k {
                        assert(before[j - 1] == x);
                    }
                }
                assert forall|x| before.to_set().insert(c).contains(x) implies after.to_set().contains(
                    x,
                ) by {
                    if x == c {
                        assert(after[k as int] == x);
                    } else {
                        let j = choose|j: int| 0 <= j < before.len() && before[j] == x;
                        if j < k {
                            assert(after[j] == x);
                        } else {
                            assert(after[j + 1] == x);
                        }
                    }
                }
            }
        }
        true
    }
}

/// The paths that resolving coordinates gives.
#[derive(Debug, Clone)]
pub struct ResolutionResult {
    paths: PathSet,
}

impl ResolutionResult {
    pub closed spec fn wf(&self) -> bool {
        self.paths.wf()
    }

    /// The paths of the result, as a set.
    pub closed spec fn path_set(&self) -> Set<Seq<PathComponent>> {
        self.paths@.to_set()
    }

    /// An empty result.
    pub fn new() -> (res: ResolutionResult)
        ensures
            res.wf(),
            res.path_set() == Set::<Seq<PathComponent>>::empty(),
    {
        let res = ResolutionResult { paths: PathSet::new() };
        assert(res.path_set() =~= Set::<Seq<PathComponent>>::empty());
        res
    }

    /// The result holding the given paths.
    pub fn from_paths(paths: &Vec<String>) -> (res: ResolutionResult)
        ensures
            res.wf(),
            res.path_set() == path_views(paths@).to_set(),
    {
        let mut res = ResolutionResult::new();
        let mut i: usize = 0;
        while i < paths.len()
            invariant
                res.wf(),
                i <= paths@.len(),
                res.path_set() == path_views(paths@).subrange(0, i as int).to_set(),
            decreases paths@.len() - i,
        {
            let ghost pre = path_views(paths@).subrange(0, i as int);
            res.paths.insert(paths[i].clone());
            proof {
                let next = path_views(paths@).subrange(0, i + 1);
                assert(next =~= pre.push(path_views(paths@)[i as int]));
                assert(next.to_set() =~= pre.to_set().insert(path_views(paths@)[i as int])) by {
                    assert forall|x| next.to_set().contains(x) implies pre.to_set().insert(
                        path_views(paths@)[i as int],
                    ).contains(x) by {
                        let j = choose|j: int| 0 <= j < next.len() && next[j] == x;
                        if j < i {
                            assert(pre[j] == x);
                        }
                    }
                    assert forall|x| pre.to_set().insert(path_views(paths@)[i as int]).contains(
                        x,
                    ) implies next.to_set().contains(x) by {
                        if x != path_views(paths@)[i as int] {
                            let j = choose|j: int| 0 <= j < pre.len() && pre[j] == x;
                            assert(next[j] == x);
                        } else {
                            assert(next[i as int] == x);
                        }
                    }
                }
            }
            i = i + 1;
        }
        assert(path_views(paths@).subrange(0, i as int) =~= path_views(paths@));
        res
    }

    /// The paths of the result, in order.
    pub fn paths(&self) -> (res: &Vec<String>)
        requires
            self.wf(),
        ensures
            path_views(res@).to_set() == self.path_set(),
            ordered_paths(path_views(res@)),
    {
        self.paths.paths()
    }

    /// Adds the paths of `other`.
    pub fn merge(&mut self, other: &ResolutionResult)
        requires
            old(self).wf(),
        ensures
            final(self).wf(),
            final(self).path_set() == old(self).path_set().union(other.path_set()),
    {
        let ghost start = self.path_set();
        let ghost theirs = other.paths@;
        let mut i: usize = 0;
        assert(start.union(theirs.subrange(0, 0).to_set()) =~= start);
        while i < other.paths.paths.len()
            invariant
                self.wf(),
                theirs == other.paths@,
                i <= theirs.len(),
                self.path_set() == start.union(theirs.subrange(0, i as int).to_set()),
            decreases theirs.len() - i,
        {
            let p = other.paths.paths[i].clone();
            assert(path_components(p@) == theirs[i as int]);
            self.paths.insert(p);
            proof {
                let pre = theirs.subrange(0, i as int);
                let next = theirs.subrange(0, i + 1);
                assert(next.to_set() =~= pre.to_set().insert(theirs[i as int])) by {
                    assert forall|x| next.to_set().contains(x) implies pre.to_set().insert(
                        theirs[i as int],
                    ).contains(x) by {
                        let j = choose|j: int| 0 <= j < next.len() && next[j] == x;
                        if j < i {
                            assert(pre[j] == x);
                        }
                    }
                    assert forall|x| pre.to_set().insert(theirs[i as int]).contains(
                        x,
                    ) implies next.to_set().contains(x) by {
                        if x != theirs[i as int] {
                            let j = choose|j: int| 0 <= j < pre.len() && pre[j] == x;
                            assert(next[j] == x);
                        } else {
                            assert(next[i as int] == x);
                        }
                    }
                }
                assert(self.path_set() =~= start.union(next.to_set()));
            }
            i = i + 1;
        }
        assert(theirs.subrange(0, i as int) =~= theirs);
    }
}

/// Whether a resolver may answer from, and write to, its cache.
#[derive(Debug, Clone, Copy, PartialEq, Eq, Structural)]
pub struct CacheOptions {
    pub accept_cached_response: bool,
    pub store_response_in_cache: bool,
}

impl CacheOptions {
    /// Options with the given permissions.
    pub fn new(accept_cached_response: bool, store_response_in_cache: bool) -> (res: CacheOptions)
        ensures
            res.accept_cached_response == accept_cached_response,
            res.store_response_in_cache == store_response_in_cache,
    {
        CacheOptions { accept_cached_response, store_response_in_cache }
    }
}

impl Default for CacheOptions {
    fn default() -> (res: CacheOptions)
        ensures
            res.accept_cached_response,
            res.store_response_in_cache,
    {
        CacheOptions { accept_cached_response: true, store_response_in_cache: true }
    }
}

/// Whether the target is the directory with the components `c`.
pub open spec fn names_directory(t: TargetView, c: Seq<PathComponent>) -> bool {
    match t {
        TargetView::Directory(d) => path_components(d) == c,
        _ => false,
    }
}

/// Resolves directory coordinates to themselves.
#[derive(Debug, Clone)]
pub struct DirectoryResolver {
    pub cache_root: String,
}

impl DirectoryResolver {
    /// A resolver keeping its cache below `cache_root`.
    pub fn new(cache_root: &str) -> (res: DirectoryResolver)
        ensures
            res.cache_root@ == crate::maintenance::joined_path(cache_root@, "directory"@),
    {
        DirectoryResolver { cache_root: crate::maintenance::join_path(cache_root, "directory") }
    }

    /// The directories named by the given targets; any other target is
    /// left out.
    pub fn resolve(&self, targets: &Vec<Target>) -> (res: ResolutionResult)
        ensures
            res.wf(),
            forall|c: Seq<PathComponent>| #[trigger]
                res.path_set().contains(c) <==> exists|i: int|
                    0 <= i < targets@.len() && names_directory(targets@[i]@, c),
    {
        let mut dirs: Vec<String> = Vec::new();
        let mut i: usize = 0;
        while i < targets.len()
            invariant
                i <= targets@.len(),
                forall|c: Seq<PathComponent>| #[trigger]
                    path_views(dirs@).to_set().contains(c) <==> exists|j: int|
                        0 <= j < i && names_directory(targets@[j]@, c),
            decreases targets@.len() - i,
        {
            let ghost prev = dirs@;
            match &targets[i] {
                Target::Directory(d) => {
                    dirs.push(d.clone());
                    proof {
                        assert(path_views(dirs@) =~= path_views(prev).push(path_components(d@)));
                        assert forall|c: Seq<PathComponent>| #[trigger]
                            path_views(dirs@).to_set().contains(c) <==> exists|j: int|
                                0 <= j < i + 1 && names_directory(targets@[j]@, c) by {
                            if path_views(dirs@).to_set().contains(c) {
                                let k = choose|k: int|
                                    0 <= k < path_views(dirs@).len() && path_views(dirs@)[k] == c;
                                if k < prev.len() {
                                    assert(path_views(prev).to_set().contains(c));
                                } else {
                                    assert(names_directory(targets@[i as int]@, c));
                                }
                            }
                            if exists|j: int|
                                0 <= j < i + 1 && names_directory(targets@[j]@, c) {
                                let j = choose|j: int|
                                    0 <= j < i + 1 && names_directory(targets@[j]@, c);
                                if j < i {
                                    assert(path_views(prev).to_set().contains(c));
                                    let k = choose|k: int|
                                        0 <= k < path_views(prev).len() && path_views(prev)[k] == c;
                                    assert(path_views(dirs@)[k] == c);
                                } else {
                                    assert(path_views(dirs@)[prev.len() as int] == c);
                                }
                            }
                        }
                    }
                },
                _ => {},
            }
            i = i + 1;
        }
        ResolutionResult::from_paths(&dirs)
    }
}

} // verus!
