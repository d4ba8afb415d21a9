//! The ad-hoc target stack: targets pushed, popped and removed by hand,
//! kept as the one project of the ad-hoc project set.

use vstd::prelude::*;
use crate::keyed::KeyedMap;
use crate::layers::{LayerView, Project, ProjectSet, layer_views};
use crate::text::{contains_string, strings_equal, views};

verus! {

/// `names` pushed onto `stack`, one by one, skipping a name that the stack
/// held before the push began.
pub open spec fn pushed_names(
    start: Seq<Seq<char>>,
    stack: Seq<Seq<char>>,
    names: Seq<Seq<char>>,
) -> Seq<Seq<char>>
    decreases names.len(),
{
    if names.len() == 0 {
        stack
    } else {
        let st = pushed_names(start, stack, names.drop_last());
        if start.contains(names.last()) {
            st
        } else {
            st.push(names.last())
        }
    }
}

/// Pushes each of `names` that the stack does not hold yet; tells whether
/// the stack changed.
pub fn push(targets: &mut Vec<String>, names: &Vec<String>) -> (res: bool)
    ensures
        views(final(targets)@) == pushed_names(views(old(targets)@), views(old(targets)@), views(names@)),
        res == (views(final(targets)@) != views(old(targets)@)),
{
    let before = crate::text::copy_strings(targets);
    push_names(targets, names);
    !strings_equal(&before, targets)
}

fn push_names(targets: &mut Vec<String>, names: &Vec<String>)
    ensures
        views(final(targets)@) == pushed_names(views(old(targets)@), views(old(targets)@), views(names@)),
{
    let ghost start = views(targets@);
    let present = crate::text::copy_strings(targets);
    let mut i: usize = 0;
    assert(views(names@).subrange(0, 0) =~= Seq::<Seq<char>>::empty());
    while i < names.len()
        invariant
            views(present@) == start,
            i <= names@.len(),
            views(targets@) == pushed_names(start, start, views(names@).subrange(0, i as int)),
        decreases names@.len() - i,
    {
        let ghost prev = targets@;
        proof {
            assert(views(names@).subrange(0, i + 1).drop_last() =~= views(names@).subrange(
                0,
                i as int,
            ));
            assert(views(names@)[i as int] == names@[i as int]@);
        }
        if !contains_string(&present, names[i].as_str()) {
            let n = names[i].clone();
            targets.push(n);
            assert(views(targets@) =~= views(prev).push(n@));
        }
        i = i + 1;
    }
    assert(views(names@).subrange(0, i as int) =~= views(names@));
}

/// Pops up to `count` targets off the stack; tells whether it popped any,
/// which is whether the stack changed.
pub fn pop(targets: &mut Vec<String>, count: usize) -> (res: bool)
    ensures
        views(final(targets)@) == crate::layers::popped(views(old(targets)@), count as int),
        res == (count > 0 && old(targets)@.len() > 0),
        res == (views(final(targets)@) != views(old(targets)@)),
{
    let had = targets.len();
    pop_targets(targets, count);
    proof {
        if count > 0 && had > 0 {
            assert(views(targets@).len() < had);
        } else {
            assert(views(targets@) =~= views(old(targets)@));
        }
    }
    count > 0 && had > 0
}

#[verifier::loop_isolation(false)]
fn pop_targets(targets: &mut Vec<String>, count: usize)
    ensures
        views(final(targets)@) == crate::layers::popped(views(old(targets)@), count as int),
{
    let ghost start = views(targets@);
    let mut i: usize = 0;
    while i < count
        invariant
            i <= count,
            views(targets@) == crate::layers::popped(start, i as int),
        decreases count - i,
    {
        let ghost before = targets@;
        let popped = targets.pop();
        proof {
            assert(views(before).len() == before.len());
            if before.len() > 0 {
                assert(targets@ =~= before.subrange(0, before.len() - 1));
                assert(views(targets@) =~= views(before).subrange(0, before.len() - 1));
            }
            if start.len() > i + 1 {
                assert(crate::layers::popped(start, i + 1) =~= crate::layers::popped(
                    start,
                    i as int,
                ).subrange(0, start.len() - i - 1));
            }
        }
        if popped.is_none() {
            proof {
                assert(before.len() == 0);
                assert(start.len() <= i);
                assert(crate::layers::popped(start, count as int) =~= Seq::<Seq<char>>::empty());
            }
            return;
        }
        i = i + 1;
    }
}

/// Each target of `t` mapped to the last position it has.
pub open spec fn last_positions(t: Seq<Seq<char>>) -> Map<Seq<char>, int>
    decreases t.len(),
{
    if t.len() == 0 {
        Map::empty()
    } else {
        last_positions(t.drop_last()).insert(t.last(), t.len() - 1)
    }
}

/// The stack after removing, for each of `names` in turn, the element at
/// the position that the name had at the start (its last one); `None`
/// where such a position lies beyond the end of the shrunken stack.
pub open spec fn removed_names(
    t: Seq<Seq<char>>,
    positions: Map<Seq<char>, int>,
    names: Seq<Seq<char>>,
) -> Option<Seq<Seq<char>>>
    decreases names.len(),
{
    if names.len() == 0 {
        Some(t)
    } else {
        match removed_names(t, positions, names.drop_last()) {
            None => None,
            Some(u) => {
                let n = names.last();
                if positions.contains_key(n) {
                    if positions[n] < u.len() {
                        Some(u.remove(positions[n]))
                    } else {
                        None
                    }
                } else {
                    Some(u)
                }
            },
        }
    }
}

fn last_position_index(targets: &Vec<String>) -> (res: KeyedMap<usize>)
    ensures
        res.wf(),
        res@ == last_positions(views(targets@)).map_values(|i: int| i as usize),
        forall|s: Seq<char>| #[trigger]
            last_positions(views(targets@)).contains_key(s) ==> 0 <= last_positions(
                views(targets@),
            )[s] < targets@.len(),
{
    let ghost start = views(targets@);
    let mut index: KeyedMap<usize> = KeyedMap::new();
    let mut k: usize = 0;
    assert(index@ =~= last_positions(start.subrange(0, 0)).map_values(|i: int| i as usize));
    while k < targets.len()
        invariant
            start == views(targets@),
            k <= start.len(),
            index.wf(),
            index@ == last_positions(start.subrange(0, k as int)).map_values(|i: int| i as usize),
            forall|s: Seq<char>| #[trigger]
                last_positions(start.subrange(0, k as int)).contains_key(s) ==> 0 <= last_positions(
                    start.subrange(0, k as int),
                )[s] < k,
        decreases start.len() - k,
    {
        let ghost prefix = start.subrange(0, k as int);
        let ghost next = start.subrange(0, k + 1);
        assert(next.drop_last() =~= prefix);
        assert(targets@[k as int]@ == start[k as int]);
        index.insert(targets[k].clone(), k);
        proof {
            assert(index@ =~= last_positions(next).map_values(|i: int| i as usize));
        }
        k = k + 1;
    }
    assert(start.subrange(0, k as int) =~= start);
    index
}

/// Whether `remove` can remove `names` from `targets`: each position it
/// removes at lies within the stack as it then is.
pub fn removal_in_bounds(targets: &Vec<String>, names: &Vec<String>) -> (res: bool)
    ensures
        res == removed_names(views(targets@), last_positions(views(targets@)), views(names@)) is Some,
{
    let ghost start = views(targets@);
    let ghost positions = last_positions(start);
    let index = last_position_index(targets);
    let n = targets.len();
    assert(start.len() == n as int);
    let mut work = crate::text::copy_strings(targets);
    let mut i: usize = 0;
    assert(views(names@).subrange(0, 0) =~= Seq::<Seq<char>>::empty());
    while i < names.len()
        invariant
            i <= names@.len(),
            index.wf(),
            index@ == positions.map_values(|i: int| i as usize),
            positions == last_positions(start),
            start == views(targets@),
            forall|s: Seq<char>| #[trigger] positions.contains_key(s) ==> 0 <= positions[s] < start.len(),
            start.len() <= usize::MAX,
            removed_names(start, positions, views(names@).subrange(0, i as int)) == Some(
                views(work@),
            ),
        decreases names@.len() - i,
    {
        let ghost pre = views(names@).subrange(0, i as int);
        let ghost next = views(names@).subrange(0, i + 1);
        proof {
            assert(next.drop_last() =~= pre);
            assert(views(names@)[i as int] == names@[i as int]@);
        }
        match index.get(names[i].as_str()) {
            Some(at) => {
                let at = *at;
                assert(positions.contains_key(names@[i as int]@));
                assert(at as int == positions[names@[i as int]@]);
                if at >= work.len() {
                    proof {
                        assert(removed_names(start, positions, next) is None);
                        lemma_removed_stuck(start, positions, views(names@), i + 1);
                    }
                    return false;
                }
                let ghost before = work@;
                work.remove(at);
                assert(views(work@) =~= views(before).remove(at as int));
            },
            None => {},
        }
        i = i + 1;
    }
    assert(views(names@).subrange(0, i as int) =~= views(names@));
    true
}

proof fn lemma_removed_stuck(
    t: Seq<Seq<char>>,
    positions: Map<Seq<char>, int>,
    names: Seq<Seq<char>>,
    n: int,
)
    requires
        0 <= n <= names.len(),
        removed_names(t, positions, names.subrange(0, n)) is None,
    ensures
        removed_names(t, positions, names) is None,
    decreases names.len() - n,
{
    if n < names.len() {
        assert(names.subrange(0, n + 1).drop_last() =~= names.subrange(0, n));
        lemma_removed_stuck(t, positions, names, n + 1);
    } else {
        assert(names.subrange(0, n) =~= names);
    }
}

/// Removes the targets named `names`, each at the last position it had on
/// the stack before the removal began; tells whether the stack changed.
pub fn remove(targets: &mut Vec<String>, names: &Vec<String>) -> (res: bool)
    requires
        removed_names(views(old(targets)@), last_positions(views(old(targets)@)), views(names@)) is Some,
    ensures
        Some(views(final(targets)@)) == removed_names(
            views(old(targets)@),
            last_positions(views(old(targets)@)),
            views(names@),
        ),
        res == (views(final(targets)@) != views(old(targets)@)),
{
    let before = crate::text::copy_strings(targets);
    remove_names(targets, names);
    !strings_equal(&before, targets)
}

fn remove_names(targets: &mut Vec<String>, names: &Vec<String>)
    requires
        removed_names(views(old(targets)@), last_positions(views(old(targets)@)), views(names@)) is Some,
    ensures
        Some(views(final(targets)@)) == removed_names(
            views(old(targets)@),
            last_positions(views(old(targets)@)),
            views(names@),
        ),
{
    let ghost start = views(targets@);
    let ghost positions = last_positions(start);
    let index = last_position_index(targets);
    let n = targets.len();
    assert(start.len() == n as int);
    let mut i: usize = 0;
    assert(views(names@).subrange(0, 0) =~= Seq::<Seq<char>>::empty());
    while i < names.len()
        invariant
            i <= names@.len(),
            index.wf(),
            index@ == positions.map_values(|i: int| i as usize),
            forall|s: Seq<char>| #[trigger] positions.contains_key(s) ==> 0 <= positions[s] < start.len(),
            start.len() <= usize::MAX,
            removed_names(start, positions, views(names@)) is Some,
            removed_names(start, positions, views(names@).subrange(0, i as int)) == Some(
                views(targets@),
            ),
        decreases names@.len() - i,
    {
        let ghost pre = views(names@).subrange(0, i as int);
        let ghost next = views(names@).subrange(0, i + 1);
        proof {
            assert(next.drop_last() =~= pre);
            assert(views(names@)[i as int] == names@[i as int]@);
            lemma_removed_prefix(start, positions, views(names@), i + 1);
        }
        match index.get(names[i].as_str()) {
            Some(at) => {
                let ghost before = targets@;
                let at = *at;
                assert(positions.contains_key(names@[i as int]@));
                assert(at as int == positions[names@[i as int]@]);
                targets.remove(at);
                assert(views(targets@) =~= views(before).remove(at as int));
            },
            None => {},
        }
        i = i + 1;
    }
    assert(views(names@).subrange(0, i as int) =~= views(names@));
}

proof fn lemma_removed_prefix(
    t: Seq<Seq<char>>,
    positions: Map<Seq<char>, int>,
    names: Seq<Seq<char>>,
    n: int,
)
    requires
        0 <= n <= names.len(),
        removed_names(t, positions, names) is Some,
    ensures
        removed_names(t, positions, names.subrange(0, n)) is Some,
    decreases names.len() - n,
{
    if n < names.len() {
        lemma_removed_prefix(t, positions, names, n + 1);
        assert(names.subrange(0, n + 1).drop_last() =~= names.subrange(0, n));
    } else {
        assert(names.subrange(0, n) =~= names);
    }
}

/// The ad-hoc project set holding `targets` as its one project.
pub open spec fn adhoc_set_view(targets: Seq<Seq<char>>) -> Seq<LayerView> {
    seq![LayerView { name: "adhoc"@, description: "Ad-hoc target stack"@, mandatory: false, targets }]
}

/// The ad-hoc project set holding `targets`.
pub fn adhoc_project_set(targets: Vec<String>) -> (res: ProjectSet)
    ensures
        res@ == adhoc_set_view(views(targets@)),
{
    let project = Project::new("adhoc", "Ad-hoc target stack", false, targets);
    let set = ProjectSet::new(vec![project]);
    assert(layer_views(seq![project]) =~= seq![project@]);
    set
}

/// The ad-hoc project set to store after the stack went from `before` to
/// `after`: none where it did not change.
pub fn updated_adhoc_set(before: &Vec<String>, after: Vec<String>) -> (res: Option<ProjectSet>)
    ensures
        views(before@) == views(after@) ==> res is None,
        views(before@) != views(after@) ==> (res matches Some(s) && s@ == adhoc_set_view(
            views(after@),
        )),
{
    if strings_equal(before, &after) {
        None
    } else {
        Some(adhoc_project_set(after))
    }
}

} // verus!
