//! Association lists: sequences of (key, value) pairs in which no key
//! occurs twice, read as maps.

use vstd::prelude::*;

verus! {

/// No key occurs twice.
pub open spec fn distinct_keys<A, B>(t: Seq<(A, B)>) -> bool {
    forall|i: int, j: int|
        0 <= i < t.len() && 0 <= j < t.len() && i != j ==> #[trigger] t[i].0 != #[trigger] t[j].0
}

/// Each key to its value.
pub open spec fn table<A, B>(t: Seq<(A, B)>) -> Map<A, B> {
    Map::new(
        |k: A| exists|i: int| 0 <= i < t.len() && #[trigger] t[i].0 == k,
        |k: A|
            {
                let i = choose|i: int| 0 <= i < t.len() && #[trigger] t[i].0 == k;
                t[i].1
            },
    )
}

/// An entry is what the table holds under its key.
pub proof fn lemma_table_entry<A, B>(t: Seq<(A, B)>, i: int)
    requires
        distinct_keys(t),
        0 <= i < t.len(),
    ensures
        table(t).contains_key(t[i].0),
        table(t)[t[i].0] == t[i].1,
{
    assert(table(t).dom().contains(t[i].0));
    let j = choose|j: int| 0 <= j < t.len() && #[trigger] t[j].0 == t[i].0;
    assert(j == i);
}

/// Removing an entry removes its key.
pub proof fn lemma_table_remove<A, B>(t: Seq<(A, B)>, i: int)
    requires
        distinct_keys(t),
        0 <= i < t.len(),
    ensures
        distinct_keys(t.remove(i)),
        table(t.remove(i)) == table(t).remove(t[i].0),
{
    let r = t.remove(i);
    assert forall|a: int, b: int| 0 <= a < r.len() && 0 <= b < r.len() && a != b implies #[trigger] r[a].0
        != #[trigger] r[b].0 by {
        let a2 = if a < i { a } else { a + 1 };
        let b2 = if b < i { b } else { b + 1 };
        assert(r[a] == t[a2] && r[b] == t[b2]);
        assert(t[a2].0 != t[b2].0);
    }
    let target = table(t).remove(t[i].0);
    assert forall|k: A| #[trigger] table(r).contains_key(k) <==> target.contains_key(k) by {
        if table(r).contains_key(k) {
            let a = choose|a: int| 0 <= a < r.len() && #[trigger] r[a].0 == k;
            let a2 = if a < i { a } else { a + 1 };
            assert(r[a] == t[a2]);
            assert(t[a2].0 != t[i].0);
            assert(table(t).dom().contains(k));
        }
        if target.contains_key(k) {
            let j = choose|j: int| 0 <= j < t.len() && #[trigger] t[j].0 == k;
            let j2 = if j < i { j } else { j - 1 };
            assert(r[j2] == t[j]);
            assert(table(r).dom().contains(k));
        }
    }
    assert forall|k: A| #[trigger] table(r).contains_key(k) implies table(r)[k] == target[k] by {
        let a = choose|a: int| 0 <= a < r.len() && #[trigger] r[a].0 == k;
        let a2 = if a < i { a } else { a + 1 };
        assert(r[a] == t[a2]);
        lemma_table_entry(r, a);
        lemma_table_entry(t, a2);
    }
    assert(table(r) =~= target);
}

/// Replacing the value of an entry replaces it in the table.
pub proof fn lemma_table_update<A, B>(t: Seq<(A, B)>, i: int, x: (A, B))
    requires
        distinct_keys(t),
        0 <= i < t.len(),
        x.0 == t[i].0,
    ensures
        distinct_keys(t.update(i, x)),
        table(t.update(i, x)) == table(t).insert(x.0, x.1),
{
    let r = t.update(i, x);
    assert forall|a: int, b: int| 0 <= a < r.len() && 0 <= b < r.len() && a != b implies #[trigger] r[a].0
        != #[trigger] r[b].0 by {
        assert(t[a].0 != t[b].0);
    }
    let target = table(t).insert(x.0, x.1);
    assert forall|k: A| #[trigger] table(r).contains_key(k) <==> target.contains_key(k) by {
        if table(r).contains_key(k) {
            let a = choose|a: int| 0 <= a < r.len() && #[trigger] r[a].0 == k;
            if a != i {
                assert(table(t).dom().contains(k));
            }
        }
        if target.contains_key(k) {
            if k == x.0 {
                assert(r[i].0 == k);
            } else {
                let j = choose|j: int| 0 <= j < t.len() && #[trigger] t[j].0 == k;
                assert(r[j] == t[j]);
            }
            assert(table(r).dom().contains(k));
        }
    }
    assert forall|k: A| #[trigger] table(r).contains_key(k) implies table(r)[k] == target[k] by {
        let a = choose|a: int| 0 <= a < r.len() && #[trigger] r[a].0 == k;
        lemma_table_entry(r, a);
        if a != i {
            lemma_table_entry(t, a);
        }
    }
    assert(table(r) =~= target);
}

/// Appending an entry under a new key adds it to the table.
pub proof fn lemma_table_push<A, B>(t: Seq<(A, B)>, x: (A, B))
    requires
        distinct_keys(t),
        !table(t).contains_key(x.0),
    ensures
        distinct_keys(t.push(x)),
        table(t.push(x)) == table(t).insert(x.0, x.1),
{
    let r = t.push(x);
    let n = t.len() as int;
    assert forall|a: int, b: int| 0 <= a < r.len() && 0 <= b < r.len() && a != b implies #[trigger] r[a].0
        != #[trigger] r[b].0 by {
        if a < n && b < n {
            assert(t[a].0 != t[b].0);
        } else if a < n {
            assert(r[a] == t[a]);
            assert(table(t).dom().contains(t[a].0));
        } else {
            assert(r[b] == t[b]);
            assert(table(t).dom().contains(t[b].0));
        }
    }
    let target = table(t).insert(x.0, x.1);
    assert forall|k: A| #[trigger] table(r).contains_key(k) <==> target.contains_key(k) by {
        if table(r).contains_key(k) {
            let a = choose|a: int| 0 <= a < r.len() && #[trigger] r[a].0 == k;
            if a < n {
                assert(r[a] == t[a]);
                assert(table(t).dom().contains(k));
            }
        }
        if target.contains_key(k) {
            if k == x.0 {
                assert(r[n].0 == k);
            } else {
                let j = choose|j: int| 0 <= j < t.len() && #[trigger] t[j].0 == k;
                assert(r[j] == t[j]);
            }
            assert(table(r).dom().contains(k));
        }
    }
    assert forall|k: A| #[trigger] table(r).contains_key(k) implies table(r)[k] == target[k] by {
        let a = choose|a: int| 0 <= a < r.len() && #[trigger] r[a].0 == k;
        lemma_table_entry(r, a);
        if a < n {
            assert(r[a] == t[a]);
            lemma_table_entry(t, a);
        }
    }
    assert(table(r) =~= target);
}

/// The empty list is the empty table.
pub proof fn lemma_table_empty<A, B>(t: Seq<(A, B)>)
    requires
        t.len() == 0,
    ensures
        distinct_keys(t),
        table(t) == Map::<A, B>::empty(),
{
    assert(table(t) =~= Map::<A, B>::empty());
}

} // verus!
