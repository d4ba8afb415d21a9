//! Vectors used as sets of values: membership, insertion and removal by
//! value, with the set of views as their meaning.

use vstd::prelude::*;

verus! {

/// Values that can be compared and copied by their view.
pub trait SameValue: View + Sized {
    /// Equality by view.
    fn same_as(&self, other: &Self) -> (res: bool)
        ensures
            res == (self@ == other@),
    ;

    /// A copy with the same view.
    fn duplicate(&self) -> (res: Self)
        ensures
            res@ == self@,
    ;
}

/// The views of the elements.
pub open spec fn value_seq<T: View>(v: Seq<T>) -> Seq<T::V> {
    v.map_values(|x: T| x@)
}

/// The set of views of the elements.
pub open spec fn value_set<T: View>(v: Seq<T>) -> Set<T::V> {
    value_seq(v).to_set()
}

/// No two elements have the same view.
pub open spec fn distinct_values<T: View>(v: Seq<T>) -> bool {
    value_seq(v).no_duplicates()
}

/// Membership by value.
pub fn contains_value<T: SameValue>(v: &Vec<T>, x: &T) -> (res: bool)
    ensures
        res == value_set(v@).contains(x@),
{
    let mut i: usize = 0;
    while i < v.len()
        invariant
            i <= v@.len(),
            forall|j: int| 0 <= j < i ==> v@[j]@ != x@,
        decreases v@.len() - i,
    {
        if v[i].same_as(x) {
            assert(value_seq(v@)[i as int] == x@);
            return true;
        }
        i = i + 1;
    }
    assert(!value_seq(v@).contains(x@)) by {
        if value_seq(v@).contains(x@) {
            let k = choose|k: int| 0 <= k < value_seq(v@).len() && value_seq(v@)[k] == x@;
            assert(v@[k]@ == x@);
        }
    }
    false
}

/// Inserts `x` unless a value equal to it is present; returns whether it
/// was inserted.
pub fn insert_value<T: SameValue>(v: &mut Vec<T>, x: T) -> (res: bool)
    ensures
        res == !value_set(old(v)@).contains(x@),
        value_set(final(v)@) == value_set(old(v)@).insert(x@),
        distinct_values(old(v)@) ==> distinct_values(final(v)@),
        res ==> value_seq(final(v)@) == value_seq(old(v)@).push(x@),
        !res ==> final(v)@ == old(v)@,
{
    if contains_value(v, &x) {
        assert(value_set(v@).insert(x@) =~= value_set(v@));
        return false;
    }
    let ghost before = v@;
    let ghost xv = x@;
    v.push(x);
    proof {
        assert(value_seq(v@) =~= value_seq(before).push(xv));
        assert(value_set(v@) =~= value_set(before).insert(xv)) by {
            assert forall|y| value_set(v@).contains(y) implies value_set(before).insert(xv).contains(
                y,
            ) by {
                let k = choose|k: int| 0 <= k < value_seq(v@).len() && value_seq(v@)[k] == y;
                if k < before.len() {
                    assert(value_seq(before)[k] == y);
                }
            }
            assert forall|y| value_set(before).insert(xv).contains(y) implies value_set(v@).contains(
                y,
            ) by {
                if y == xv {
                    assert(value_seq(v@)[before.len() as int] == y);
                } else {
                    let k = choose|k: int| 0 <= k < value_seq(before).len() && value_seq(before)[k] == y;
                    assert(value_seq(v@)[k] == y);
                }
            }
        }
        if distinct_values(before) {
            assert forall|a: int, b: int|
                0 <= a < value_seq(v@).len() && 0 <= b < value_seq(v@).len() && a != b implies value_seq(
                v@,
            )[a] != value_seq(v@)[b] by {
                if a == before.len() {
                    assert(!value_seq(before).contains(xv));
                    assert(value_seq(before)[b] != xv);
                } else if b == before.len() {
                    assert(!value_seq(before).contains(xv));
                    assert(value_seq(before)[a] != xv);
                }
            }
        }
    }
    true
}

/// Removes every element equal to `x`; returns whether there was one.
pub fn remove_value<T: SameValue>(v: &mut Vec<T>, x: &T) -> (res: bool)
    ensures
        res == value_set(old(v)@).contains(x@),
        value_set(final(v)@) == value_set(old(v)@).remove(x@),
        distinct_values(old(v)@) ==> distinct_values(final(v)@),
{
    let ghost before = v@;
    let mut kept: Vec<T> = Vec::new();
    let mut found = false;
    let mut i: usize = 0;
    while i < v.len()
        invariant
            v@ == before,
            i <= before.len(),
            found == value_seq(before.subrange(0, i as int)).contains(x@),
            value_set(kept@) == value_set(before.subrange(0, i as int)).remove(x@),
            forall|k: int| 0 <= k < kept@.len() ==> exists|j: int|
                0 <= j < i && #[trigger] kept@[k]@ == before[j]@,
            distinct_values(before) ==> distinct_values(kept@),
        decreases before.len() - i,
    {
        let ghost pre = before.subrange(0, i as int);
        let ghost next = before.subrange(0, i + 1);
        proof {
            assert(value_seq(next) =~= value_seq(pre).push(before[i as int]@));
            assert(value_set(next) =~= value_set(pre).insert(before[i as int]@)) by {
                assert forall|y| value_set(next).contains(y) implies value_set(pre).insert(
                    before[i as int]@,
                ).contains(y) by {
                    let k = choose|k: int| 0 <= k < value_seq(next).len() && value_seq(next)[k] == y;
                    if k < i {
                        assert(value_seq(pre)[k] == y);
                    }
                }
                assert forall|y| value_set(pre).insert(before[i as int]@).contains(y) implies value_set(
                    next,
                ).contains(y) by {
                    if y == before[i as int]@ {
                        assert(value_seq(next)[i as int] == y);
                    } else {
                        let k = choose|k: int| 0 <= k < value_seq(pre).len() && value_seq(pre)[k] == y;
                        assert(value_seq(next)[k] == y);
                    }
                }
            }
        }
        if v[i].same_as(x) {
            found = true;
            assert(value_seq(next)[i as int] == x@);
            assert(value_set(next).remove(x@) =~= value_set(pre).remove(x@));
        } else {
            let ghost old_kept = kept@;
            kept.push(v[i].duplicate());
            proof {
                assert(value_seq(kept@) =~= value_seq(old_kept).push(before[i as int]@));
                assert(value_set(kept@) =~= value_set(old_kept).insert(before[i as int]@)) by {
                    assert forall|y| value_set(kept@).contains(y) implies value_set(old_kept).insert(
                        before[i as int]@,
                    ).contains(y) by {
                        let k = choose|k: int|
                            0 <= k < value_seq(kept@).len() && value_seq(kept@)[k] == y;
                        if k < old_kept.len() {
                            assert(value_seq(old_kept)[k] == y);
                        }
                    }
                    assert forall|y| value_set(old_kept).insert(before[i as int]@).contains(
                        y,
                    ) implies value_set(kept@).contains(y) by {
                        if y == before[i as int]@ {
                            assert(value_seq(kept@)[old_kept.len() as int] == y);
                        } else {
                            let k = choose|k: int|
                                0 <= k < value_seq(old_kept).len() && value_seq(old_kept)[k] == y;
                            assert(value_seq(kept@)[k] == y);
                        }
                    }
                }
                assert(value_set(next).remove(x@) =~= value_set(pre).remove(x@).insert(
                    before[i as int]@,
                ));
                if !value_seq(pre).contains(x@) {
                    assert(!value_seq(next).contains(x@)) by {
                        if value_seq(next).contains(x@) {
                            let k = choose|k: int|
                                0 <= k < value_seq(next).len() && value_seq(next)[k] == x@;
                            if k < i {
                                assert(value_seq(pre)[k] == x@);
                            }
                        }
                    }
                }
                assert forall|k: int| 0 <= k < kept@.len() implies exists|j: int|
                    0 <= j < i + 1 && #[trigger] kept@[k]@ == before[j]@ by {
                    if k == old_kept.len() {
                        assert(kept@[k]@ == before[i as int]@);
                    } else {
                        assert(kept@[k] == old_kept[k]);
                    }
                }
                if distinct_values(before) {
                    assert forall|a: int, b: int|
                        0 <= a < value_seq(kept@).len() && 0 <= b < value_seq(kept@).len() && a
                            != b implies value_seq(kept@)[a] != value_seq(kept@)[b] by {
                        if a == old_kept.len() || b == old_kept.len() {
                            let other = if a == old_kept.len() {
                                b
                            } else {
                                a
                            };
                            let j = choose|j: int| 0 <= j < i && kept@[other]@ == before[j]@;
                            assert(value_seq(before)[j] != value_seq(before)[i as int]);
                        }
                    }
                }
            }
        }
        proof {
            if v@[i as int]@ != x@ {
                if value_seq(pre).contains(x@) {
                    let k = choose|k: int| 0 <= k < value_seq(pre).len() && value_seq(pre)[k] == x@;
                    assert(value_seq(next)[k] == x@);
                }
            }
        }
        i = i + 1;
    }
    proof {
        assert(before.subrange(0, before.len() as int) =~= before);
    }
    *v = kept;
    found
}

} // verus!
