//! Working out which paths a set of dependency keys needs checked out:
//! keys are taken round by round, each at most once; a package of this
//! repository is looked up in the index, whose answer (given by the caller)
//! brings the keys of the next round.

use vstd::prelude::*;
use crate::bazel::{
    DependencyKey, DependencyKeyView, DependencyValue, absorb_value, key_step, key_views,
    materialize_key,
};
use crate::path::{PathComponent, path_components};
use crate::resolver::PathSet;
use crate::target::Label;
use crate::valueset::{contains_value, distinct_values, insert_value, value_seq, value_set};

verus! {

/// The paths that the keys ask for at once.
pub open spec fn key_paths(keys: Set<DependencyKeyView>) -> Set<Seq<PathComponent>> {
    Set::new(
        |c: Seq<PathComponent>|
            exists|k: DependencyKeyView|
                #![trigger keys.contains(k)]
                keys.contains(k) && (key_step(k).0 matches Some(p) && path_components(p) == c),
    )
}

/// The mathematical value of a materialization.
pub struct MaterializationView {
    /// The keys of this round still to take.
    pub pending: Set<DependencyKeyView>,
    /// The keys the answers so far bring for the next round.
    pub next: Set<DependencyKeyView>,
    /// The keys taken so far.
    pub seen: Set<DependencyKeyView>,
    /// The paths to check out so far.
    pub paths: Set<Seq<PathComponent>>,
    /// The keys the index has no answer for, with their hashes.
    pub missing: Set<(DependencyKeyView, Seq<u8>)>,
}

/// A materialization in progress.
pub struct Materialization {
    pending: Vec<DependencyKey>,
    next: Vec<DependencyKey>,
    seen: Vec<DependencyKey>,
    paths: PathSet,
    missing: Vec<(DependencyKey, Vec<u8>)>,
}

pub open spec fn missing_views(v: Seq<(DependencyKey, Vec<u8>)>) -> Set<(DependencyKeyView, Seq<u8>)> {
    v.map_values(|x: (DependencyKey, Vec<u8>)| (x.0@, x.1@)).to_set()
}

impl View for Materialization {
    type V = MaterializationView;

    closed spec fn view(&self) -> MaterializationView {
        MaterializationView {
            pending: value_set(self.pending@),
            next: value_set(self.next@),
            seen: value_set(self.seen@),
            paths: self.paths@.to_set(),
            missing: missing_views(self.missing@),
        }
    }
}

/// What to do next.
#[derive(Debug)]
pub enum MaterializeAction {
    /// Look the key up in the index and hand the answer to `absorb`.
    LookUp(DependencyKey),
    /// Every key is taken: the result is ready.
    Finished,
}

/// The outcome of a materialization.
#[derive(Debug)]
pub enum PathsToMaterialize {
    /// Every key was answered: the keys taken and the paths to check out.
    Complete { seen_keys: Vec<DependencyKey>, paths: Vec<String> },
    /// Some keys have no answer in the index.
    MissingKeys { missing_keys: Vec<(DependencyKey, Vec<u8>)>, seen_keys: Vec<DependencyKey> },
}

impl Materialization {
    /// The pending keys are distinct and none of them is taken yet.
    pub closed spec fn wf(&self) -> bool {
        &&& distinct_values(self.pending@)
        &&& distinct_values(self.seen@)
        &&& self@.pending.disjoint(self@.seen)
        &&& self.paths.wf()
    }

    /// A materialization of the given keys and of the build files that the
    /// prelude loads.
    pub fn new(keys: Vec<DependencyKey>, prelude: Vec<Label>) -> (res: Materialization)
        ensures
            res.wf(),
            res@.pending == value_set(keys@).union(
                value_set(prelude@).map(|l: crate::target::LabelView| DependencyKeyView::BazelBuildFile(l)),
            ),
            res@.next.is_empty(),
            res@.seen.is_empty(),
            res@.paths.is_empty(),
            res@.missing.is_empty(),
    {
        let mut pending: Vec<DependencyKey> = Vec::new();
        let mut i: usize = 0;
        proof {
            assert(value_set(pending@) =~= Set::<DependencyKeyView>::empty());
        }
        while i < keys.len()
            invariant
                i <= keys@.len(),
                distinct_values(pending@),
                value_set(pending@) == value_set(keys@.subrange(0, i as int)),
            decreases keys@.len() - i,
        {
            insert_value(&mut pending, keys[i].duplicate());
            proof {
                assert(value_seq(keys@.subrange(0, i + 1)) =~= value_seq(keys@.subrange(0, i as int)).push(
                    keys@[i as int]@,
                ));
                value_seq(keys@.subrange(0, i as int)).lemma_push_to_set_commute(keys@[i as int]@);
            }
            i = i + 1;
        }
        let ghost from_keys = value_set(pending@);
        let mut j: usize = 0;
        while j < prelude.len()
            invariant
                j <= prelude@.len(),
                distinct_values(pending@),
                value_set(pending@) == from_keys.union(
                    value_set(prelude@.subrange(0, j as int)).map(
                        |l: crate::target::LabelView| DependencyKeyView::BazelBuildFile(l),
                    ),
                ),
            decreases prelude@.len() - j,
        {
            insert_value(&mut pending, DependencyKey::BazelBuildFile(prelude[j].duplicate()));
            proof {
                let before = value_seq(prelude@.subrange(0, j as int));
                let l = prelude@[j as int]@;
                assert(value_seq(prelude@.subrange(0, j + 1)) =~= before.push(l));
                before.lemma_push_to_set_commute(l);
                let f = |l: crate::target::LabelView| DependencyKeyView::BazelBuildFile(l);
                let a = before.to_set().insert(l);
                let b = before.to_set();
                assert forall|y: DependencyKeyView| a.map(f).contains(y) <==> b.map(f).insert(f(l)).contains(y) by {
                    if a.map(f).contains(y) {
                        let x = choose|x: crate::target::LabelView| a.contains(x) && y == f(x);
                        if x != l {
                            assert(b.contains(x) && y == f(x));
                        }
                    }
                    if b.map(f).contains(y) {
                        let x = choose|x: crate::target::LabelView| b.contains(x) && y == f(x);
                        assert(a.contains(x) && y == f(x));
                    }
                    if y == f(l) {
                        assert(a.contains(l) && y == f(l));
                    }
                }
                assert(a.map(f) =~= b.map(f).insert(f(l)));
            }
            j = j + 1;
        }
        proof {
            assert(keys@.subrange(0, i as int) =~= keys@);
            assert(prelude@.subrange(0, j as int) =~= prelude@);
        }
        let res = Materialization {
            pending,
            next: Vec::new(),
            seen: Vec::new(),
            paths: PathSet::new(),
            missing: Vec::new(),
        };
        proof {
            assert(res@.seen =~= Set::<DependencyKeyView>::empty());
            assert(res@.next =~= Set::<DependencyKeyView>::empty());
            assert(res@.paths =~= Set::<Seq<PathComponent>>::empty());
            assert(res@.missing =~= Set::<(DependencyKeyView, Seq<u8>)>::empty());
        }
        res
    }
}


/// Taking a key adds the path it asks for.
proof fn lemma_key_paths_insert(keys: Set<DependencyKeyView>, k: DependencyKeyView)
    ensures
        key_paths(keys.insert(k)) == match key_step(k).0 {
            Some(p) => key_paths(keys).insert(path_components(p)),
            None => key_paths(keys),
        },
{
    let target = match key_step(k).0 {
        Some(p) => key_paths(keys).insert(path_components(p)),
        None => key_paths(keys),
    };
    assert forall|c: Seq<PathComponent>| key_paths(keys.insert(k)).contains(c) <==> target.contains(c) by {
        if key_paths(keys.insert(k)).contains(c) {
            let j = choose|j: DependencyKeyView|
                #![trigger keys.insert(k).contains(j)]
                keys.insert(k).contains(j) && (key_step(j).0 matches Some(p) && path_components(p) == c);
            if j != k {
                assert(keys.contains(j));
            }
        }
        if key_paths(keys).contains(c) {
            let j = choose|j: DependencyKeyView|
                #![trigger keys.contains(j)]
                keys.contains(j) && (key_step(j).0 matches Some(p) && path_components(p) == c);
            assert(keys.insert(k).contains(j));
        }
        if key_step(k).0 matches Some(p) && path_components(p) == c {
            assert(keys.insert(k).contains(k));
        }
    }
    assert(key_paths(keys.insert(k)) =~= target);
}

proof fn lemma_key_paths_empty()
    ensures
        key_paths(Set::<DependencyKeyView>::empty()) == Set::<Seq<PathComponent>>::empty(),
{
    assert(key_paths(Set::<DependencyKeyView>::empty()) =~= Set::<Seq<PathComponent>>::empty());
}

/// Taking the last of distinct values off removes it from their set.
proof fn lemma_pop_value<T: View>(v: Seq<T>)
    requires
        distinct_values(v),
        v.len() > 0,
    ensures
        distinct_values(v.drop_last()),
        value_set(v.drop_last()) == value_set(v).remove(v.last()@),
{
    let w = v.drop_last();
    assert(value_seq(w) =~= value_seq(v).drop_last());
    assert forall|x: T::V| value_set(w).contains(x) <==> value_set(v).remove(v.last()@).contains(x) by {
        if value_set(w).contains(x) {
            let i = choose|i: int| 0 <= i < value_seq(w).len() && value_seq(w)[i] == x;
            assert(value_seq(v)[i] == x);
            assert(value_seq(v)[i] != value_seq(v)[v.len() - 1]);
        }
        if value_set(v).remove(v.last()@).contains(x) {
            let i = choose|i: int| 0 <= i < value_seq(v).len() && value_seq(v)[i] == x;
            assert(i != v.len() - 1);
            assert(value_seq(w)[i] == x);
        }
    }
    assert(value_set(w) =~= value_set(v).remove(v.last()@));
}

impl Materialization {
    /// Takes keys, each once, until one must be looked up in the index or
    /// none is left: when the keys of a round are all taken, the keys the
    /// answers brought that are not taken yet make the next round. Every key
    /// taken adds the path it asks for.
    #[verifier::loop_isolation(false)]
    pub fn next_action(&mut self) -> (res: MaterializeAction)
        requires
            old(self).wf(),
        ensures
            final(self).wf(),
            final(self)@.missing == old(self)@.missing,
            old(self)@.seen.subset_of(final(self)@.seen),
            final(self)@.seen.union(final(self)@.pending).union(final(self)@.next) == old(
                self,
            )@.seen.union(old(self)@.pending).union(old(self)@.next),
            final(self)@.paths == old(self)@.paths.union(
                key_paths(final(self)@.seen.difference(old(self)@.seen)),
            ),
            match res {
                MaterializeAction::LookUp(k) => {
                    &&& !old(self)@.seen.contains(k@)
                    &&& final(self)@.seen.contains(k@)
                    &&& key_step(k@).1
                    &&& forall|j: DependencyKeyView|
                        #![trigger final(self)@.seen.contains(j)]
                        final(self)@.seen.contains(j) && !old(self)@.seen.contains(j) && key_step(j).1
                            ==> j == k@
                },
                MaterializeAction::Finished => {
                    &&& final(self)@.pending.is_empty()
                    &&& final(self)@.next.is_empty()
                    &&& final(self)@.seen == old(self)@.seen.union(old(self)@.pending).union(old(self)@.next)
                    &&& forall|j: DependencyKeyView|
                        #![trigger final(self)@.seen.contains(j)]
                        final(self)@.seen.contains(j) && !old(self)@.seen.contains(j) ==> !key_step(j).1
                },
            },
    {
        let ghost start = self@;
        proof {
            assert(self@.seen.difference(start.seen) =~= Set::<DependencyKeyView>::empty());
            lemma_key_paths_empty();
            assert(self@.paths.union(Set::<Seq<PathComponent>>::empty()) =~= self@.paths);
        }
        loop
            invariant
                self.wf(),
                self@.missing == start.missing,
                start.seen.subset_of(self@.seen),
                self@.seen.union(self@.pending).union(self@.next) == start.seen.union(start.pending).union(
                    start.next,
                ),
                self@.paths == start.paths.union(key_paths(self@.seen.difference(start.seen))),
                forall|j: DependencyKeyView|
                    #![trigger self@.seen.contains(j)]
                    self@.seen.contains(j) && !start.seen.contains(j) ==> !key_step(j).1,
            decreases self.next@.len(), self.pending@.len(),
        {
            if self.pending.len() == 0 {
                if self.next.len() == 0 {
                    proof {
                        assert(self@.pending =~= Set::<DependencyKeyView>::empty());
                        assert(self@.next =~= Set::<DependencyKeyView>::empty());
                    }
                    return MaterializeAction::Finished;
                }
                self.begin_round();
                continue;
            }
            let ghost before = self@;
            let ghost pv = self.pending@;
            proof {
                lemma_pop_value(pv);
            }
            let k = match self.pending.pop() {
                Some(k) => k,
                None => {
                    return MaterializeAction::Finished;
                },
            };
            proof {
                assert(self.pending@ == pv.drop_last());
                assert(k@ == pv.last()@);
                assert(value_seq(pv)[pv.len() - 1] == k@);
                assert(before.pending.contains(k@));
                assert(!before.seen.contains(k@));
            }
            insert_value(&mut self.seen, k.duplicate());
            let step = materialize_key(&k);
            match step.path {
                Some(p) => {
                    self.paths.insert(p);
                },
                None => {},
            }
            proof {
                let added = before.seen.difference(start.seen);
                assert(self@.seen.difference(start.seen) =~= added.insert(k@));
                lemma_key_paths_insert(added, k@);
                assert(self@.seen.union(self@.pending).union(self@.next) =~= before.seen.union(
                    before.pending,
                ).union(before.next));
                assert(self@.paths =~= start.paths.union(key_paths(self@.seen.difference(start.seen))));
                assert(self@.pending.disjoint(self@.seen));
            }
            if step.look_up {
                return MaterializeAction::LookUp(k);
            }
        }
    }

    /// Makes the keys that the answers brought and that are not taken yet
    /// the keys of the next round.
    fn begin_round(&mut self)
        requires
            old(self).wf(),
            old(self)@.pending.is_empty(),
            old(self).next@.len() > 0,
        ensures
            final(self).wf(),
            final(self)@.pending == old(self)@.next.difference(old(self)@.seen),
            final(self)@.next.is_empty(),
            final(self).next@.len() == 0,
            final(self)@.seen == old(self)@.seen,
            final(self)@.paths == old(self)@.paths,
            final(self)@.missing == old(self)@.missing,
    {
        let mut fresh: Vec<DependencyKey> = Vec::new();
        let mut i: usize = 0;
        let ghost nv = self.next@;
        proof {
            assert(value_set(fresh@) =~= value_set(nv.subrange(0, 0)).difference(self@.seen));
        }
        while i < self.next.len()
            invariant
                i <= nv.len(),
                nv == self.next@,
                distinct_values(fresh@),
                value_set(fresh@) == value_set(nv.subrange(0, i as int)).difference(self@.seen),
            decreases nv.len() - i,
        {
            proof {
                let b = value_seq(nv.subrange(0, i as int));
                assert(value_seq(nv.subrange(0, i + 1)) =~= b.push(nv[i as int]@));
                b.lemma_push_to_set_commute(nv[i as int]@);
            }
            if !contains_value(&self.seen, &self.next[i]) {
                insert_value(&mut fresh, self.next[i].duplicate());
            }
            proof {
                assert(value_set(fresh@) =~= value_set(nv.subrange(0, i + 1)).difference(self@.seen));
            }
            i = i + 1;
        }
        proof {
            assert(nv.subrange(0, i as int) =~= nv);
        }
        self.pending = fresh;
        self.next = Vec::new();
        proof {
            assert(self@.next =~= Set::<DependencyKeyView>::empty());
        }
    }
}


impl Materialization {
    /// Takes in the index's answer for a key it was asked about: the keys a
    /// package depends on join the next round, a path is to be checked out,
    /// and a key without an answer is missing.
    pub fn absorb(&mut self, key: DependencyKey, hash: Vec<u8>, value: Option<DependencyValue>)
        requires
            old(self).wf(),
        ensures
            final(self).wf(),
            final(self)@.pending == old(self)@.pending,
            final(self)@.seen == old(self)@.seen,
            match value {
                Some(DependencyValue::PackageInfo { deps }) => {
                    &&& final(self)@.next == old(self)@.next.union(key_views(deps@).to_set())
                    &&& final(self)@.paths == old(self)@.paths
                    &&& final(self)@.missing == old(self)@.missing
                },
                Some(DependencyValue::Path { path }) => {
                    &&& final(self)@.next == old(self)@.next
                    &&& final(self)@.paths == old(self)@.paths.insert(path_components(path@))
                    &&& final(self)@.missing == old(self)@.missing
                },
                Some(DependencyValue::DummyForTesting(_)) => {
                    &&& final(self)@.next == old(self)@.next
                    &&& final(self)@.paths == old(self)@.paths
                    &&& final(self)@.missing == old(self)@.missing
                },
                None => {
                    &&& final(self)@.next == old(self)@.next
                    &&& final(self)@.paths == old(self)@.paths
                    &&& final(self)@.missing == old(self)@.missing.insert((key@, hash@))
                },
            },
    {
        let ghost deps_view: Seq<DependencyKeyView> = match &value {
            Some(DependencyValue::PackageInfo { deps }) => key_views(deps@),
            _ => Seq::empty(),
        };
        let step = absorb_value(value);
        let ghost start_next = self.next@;
        let mut i: usize = 0;
        while i < step.next.len()
            invariant
                i <= step.next@.len(),
                key_views(step.next@) == deps_view,
                self.pending@ == old(self).pending@,
                self.seen@ == old(self).seen@,
                self.paths == old(self).paths,
                self.missing@ == old(self).missing@,
                self.wf(),
                value_set(self.next@) == value_set(start_next).union(key_views(step.next@).subrange(0, i as int).to_set()),
            decreases step.next@.len() - i,
        {
            let ghost before = self.next@;
            self.next.push(step.next[i].duplicate());
            proof {
                let b = key_views(step.next@).subrange(0, i as int);
                assert(key_views(step.next@).subrange(0, i + 1) =~= b.push(step.next@[i as int]@));
                b.lemma_push_to_set_commute(step.next@[i as int]@);
                assert(value_seq(self.next@) =~= value_seq(before).push(step.next@[i as int]@));
                value_seq(before).lemma_push_to_set_commute(step.next@[i as int]@);
                assert(value_set(self.next@) =~= value_set(start_next).union(
                    key_views(step.next@).subrange(0, i + 1).to_set(),
                ));
            }
            i = i + 1;
        }
        proof {
            assert(key_views(step.next@).subrange(0, i as int) =~= key_views(step.next@));
            assert(deps_view.len() == 0 ==> deps_view.to_set() =~= Set::<DependencyKeyView>::empty());
            assert(deps_view.len() == 0 ==> value_set(self.next@) =~= value_set(start_next));
        }
        match step.path {
            Some(p) => {
                self.paths.insert(p);
            },
            None => {},
        }
        if step.missing {
            let ghost before = self.missing@;
            self.missing.push((key, hash));
            proof {
                let f = |x: (DependencyKey, Vec<u8>)| (x.0@, x.1@);
                assert(self.missing@.map_values(f) =~= before.map_values(f).push(
                    f(self.missing@[before.len() as int]),
                ));
                before.map_values(f).lemma_push_to_set_commute(f(self.missing@[before.len() as int]));
            }
        }
    }

    /// The outcome: the keys taken and the paths to check out, or, where
    /// the index had no answer for some keys, those keys and the keys taken.
    pub fn finish(&self) -> (res: PathsToMaterialize)
        requires
            self.wf(),
        ensures
            match res {
                PathsToMaterialize::Complete { seen_keys, paths } => {
                    &&& self@.missing.is_empty()
                    &&& value_set(seen_keys@) == self@.seen
                    &&& distinct_values(seen_keys@)
                    &&& crate::resolver::path_views(paths@).to_set() == self@.paths
                },
                PathsToMaterialize::MissingKeys { missing_keys, seen_keys } => {
                    &&& !self@.missing.is_empty()
                    &&& missing_views(missing_keys@) == self@.missing
                    &&& value_set(seen_keys@) == self@.seen
                    &&& distinct_values(seen_keys@)
                },
            },
    {
        let seen = copy_keys(&self.seen);
        if self.missing.len() == 0 {
            proof {
                assert(missing_views(self.missing@) =~= Set::<(DependencyKeyView, Seq<u8>)>::empty());
            }
            let held = self.paths.paths();
            let paths = crate::text::copy_strings(held);
            proof {
                assert(crate::resolver::path_views(paths@) =~= crate::resolver::path_views(held@));
            }
            PathsToMaterialize::Complete { seen_keys: seen, paths }
        } else {
            proof {
                let f = |x: (DependencyKey, Vec<u8>)| (x.0@, x.1@);
                assert(self.missing@.map_values(f)[0] == f(self.missing@[0]));
                assert(self.missing@.map_values(f).contains(f(self.missing@[0])));
                assert(missing_views(self.missing@).contains(f(self.missing@[0])));
            }
            let mut missing: Vec<(DependencyKey, Vec<u8>)> = Vec::new();
            let mut i: usize = 0;
            while i < self.missing.len()
                invariant
                    i <= self.missing@.len(),
                    missing@.len() == i,
                    forall|j: int| 0 <= j < i ==> (#[trigger] missing@[j]).0@ == self.missing@[j].0@
                        && missing@[j].1@ == self.missing@[j].1@,
                decreases self.missing@.len() - i,
            {
                let entry = &self.missing[i];
                missing.push((entry.0.duplicate(), entry.1.clone()));
                i = i + 1;
            }
            proof {
                let f = |x: (DependencyKey, Vec<u8>)| (x.0@, x.1@);
                assert(missing@.map_values(f) =~= self.missing@.map_values(f));
            }
            PathsToMaterialize::MissingKeys { missing_keys: missing, seen_keys: seen }
        }
    }
}

fn copy_keys(v: &Vec<DependencyKey>) -> (res: Vec<DependencyKey>)
    ensures
        value_seq(res@) == value_seq(v@),
{
    let mut out: Vec<DependencyKey> = Vec::new();
    let mut i: usize = 0;
    while i < v.len()
        invariant
            i <= v@.len(),
            value_seq(out@) == value_seq(v@.subrange(0, i as int)),
        decreases v@.len() - i,
    {
        let ghost prev = out@;
        out.push(v[i].duplicate());
        assert(value_seq(out@) =~= value_seq(prev).push(v@[i as int]@));
        assert(value_seq(v@.subrange(0, i + 1)) =~= value_seq(v@.subrange(0, i as int)).push(v@[i as int]@));
        i = i + 1;
    }
    assert(v@.subrange(0, i as int) =~= v@);
    out
}


/// A key is looked up at most once: a key handed out for lookup is taken
/// at once, taken keys stay taken, and a key is handed out only while it is
/// not taken yet.
pub proof fn lemma_each_key_looked_up_once(
    earlier: MaterializationView,
    later: MaterializationView,
    first: DependencyKeyView,
    second: DependencyKeyView,
)
    requires
        earlier.seen.contains(first),
        earlier.seen.subset_of(later.seen),
        !later.seen.contains(second),
    ensures
        first != second,
{
}

/// Every taken key that is looked up in the index (but `except`, whose
/// answer is awaited) has the keys that its answer brings, as `brings`
/// gives them, among the keys taken, pending or brought for the next round.
pub open spec fn answers_followed(
    v: MaterializationView,
    brings: spec_fn(DependencyKeyView) -> Set<DependencyKeyView>,
    except: Option<DependencyKeyView>,
) -> bool {
    forall|k: DependencyKeyView|
        #![trigger v.seen.contains(k), brings(k)]
        v.seen.contains(k) && key_step(k).1 && except != Some(k) ==> brings(k).subset_of(
            v.seen.union(v.pending).union(v.next),
        )
}

/// A run starts with no answer to follow.
pub proof fn lemma_run_starts_followed(
    v: MaterializationView,
    brings: spec_fn(DependencyKeyView) -> Set<DependencyKeyView>,
)
    requires
        v.seen.is_empty(),
    ensures
        answers_followed(v, brings, None),
{
}

/// Taking keys (what `next_action` does) keeps every answer followed, but
/// for the key it hands out for lookup; when it finishes instead, the keys
/// taken hold all that the answers of the looked-up ones bring.
pub proof fn lemma_taking_keeps_answers_followed(
    before: MaterializationView,
    after: MaterializationView,
    looked_up: Option<DependencyKeyView>,
    brings: spec_fn(DependencyKeyView) -> Set<DependencyKeyView>,
)
    requires
        answers_followed(before, brings, None),
        before.seen.subset_of(after.seen),
        after.seen.union(after.pending).union(after.next) == before.seen.union(before.pending).union(
            before.next,
        ),
        forall|j: DependencyKeyView|
            #![trigger after.seen.contains(j)]
            after.seen.contains(j) && !before.seen.contains(j) && key_step(j).1 ==> looked_up == Some(
                j,
            ),
    ensures
        answers_followed(after, brings, looked_up),
        looked_up is None && after.pending.is_empty() && after.next.is_empty() ==> forall|
            k: DependencyKeyView,
        |
            #![trigger after.seen.contains(k), brings(k)]
            after.seen.contains(k) && key_step(k).1 ==> brings(k).subset_of(after.seen),
{
    assert forall|k: DependencyKeyView|
        #![trigger after.seen.contains(k), brings(k)]
        after.seen.contains(k) && key_step(k).1 && looked_up != Some(k) implies brings(k).subset_of(
            after.seen.union(after.pending).union(after.next),
        ) by {
        assert(before.seen.contains(k));
        assert(brings(k).subset_of(before.seen.union(before.pending).union(before.next)));
    }
    if looked_up is None && after.pending.is_empty() && after.next.is_empty() {
        assert(after.seen.union(after.pending).union(after.next) =~= after.seen);
    }
}

/// Taking in the answer for the key handed out for lookup (what `absorb`
/// does, with the keys the answer brings joining the next round) makes
/// every answer followed again.
pub proof fn lemma_absorbing_follows_the_answer(
    before: MaterializationView,
    after: MaterializationView,
    key: DependencyKeyView,
    brings: spec_fn(DependencyKeyView) -> Set<DependencyKeyView>,
)
    requires
        answers_followed(before, brings, Some(key)),
        after.seen == before.seen,
        after.pending == before.pending,
        after.next == before.next.union(brings(key)),
    ensures
        answers_followed(after, brings, None),
{
    assert forall|k: DependencyKeyView|
        #![trigger after.seen.contains(k), brings(k)]
        after.seen.contains(k) && key_step(k).1 implies brings(k).subset_of(
            after.seen.union(after.pending).union(after.next),
        ) by {
        if k != key {
            assert(brings(k).subset_of(before.seen.union(before.pending).union(before.next)));
        }
    }
}

} // verus!
