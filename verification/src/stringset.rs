//! Ordered sets of strings: strings kept in increasing text order, each
//! once.

use vstd::prelude::*;
use crate::path::{Order, compare_text, lemma_text_order, lemma_text_order_transitive, text_order};
use crate::text::views;

verus! {

/// Strictly increasing in text order.
pub open spec fn is_ordered_set(s: Seq<Seq<char>>) -> bool {
    forall|i: int, j: int| 0 <= i < j < s.len() ==> text_order(s[i], s[j]) == Order::Less
}

/// Where `x` belongs in the ordered `s`.
pub open spec fn text_position(s: Seq<Seq<char>>, x: Seq<char>) -> int
    decreases s.len(),
{
    if s.len() == 0 {
        0
    } else if text_order(s[0], x) == Order::Less {
        1 + text_position(s.drop_first(), x)
    } else {
        0
    }
}

/// Inserting into an ordered set.
pub open spec fn ordered_insert(s: Seq<Seq<char>>, x: Seq<char>) -> Seq<Seq<char>> {
    if s.contains(x) {
        s
    } else {
        s.insert(text_position(s, x), x)
    }
}

/// The ordered set of the strings of `v`.
pub open spec fn ordered_set_of(v: Seq<Seq<char>>) -> Seq<Seq<char>>
    decreases v.len(),
{
    if v.len() == 0 {
        Seq::empty()
    } else {
        ordered_insert(ordered_set_of(v.drop_last()), v.last())
    }
}

pub proof fn lemma_text_position(s: Seq<Seq<char>>, x: Seq<char>)
    requires
        is_ordered_set(s),
    ensures
        0 <= text_position(s, x) <= s.len(),
        forall|j: int| 0 <= j < text_position(s, x) ==> text_order(s[j], x) == Order::Less,
        forall|j: int| text_position(s, x) <= j < s.len() ==> text_order(s[j], x) != Order::Less,
    decreases s.len(),
{
    if s.len() > 0 {
        let t = s.drop_first();
        assert(is_ordered_set(t)) by {
            assert forall|i: int, j: int| 0 <= i < j < t.len() implies text_order(t[i], t[j])
                == Order::Less by {
                assert(t[i] == s[i + 1] && t[j] == s[j + 1]);
            }
        }
        lemma_text_position(t, x);
        if text_order(s[0], x) == Order::Less {
            assert forall|j: int| 0 <= j < text_position(s, x) implies text_order(s[j], x)
                == Order::Less by {
                if j > 0 {
                    assert(s[j] == t[j - 1]);
                }
            }
            assert forall|j: int| text_position(s, x) <= j < s.len() implies text_order(s[j], x)
                != Order::Less by {
                assert(s[j] == t[j - 1]);
            }
        } else {
            assert forall|j: int| 0 <= j < s.len() implies text_order(s[j], x) != Order::Less by {
                if j > 0 && text_order(s[j], x) == Order::Less {
                    lemma_text_order_transitive(s[0], s[j], x);
                }
            }
        }
    }
}

/// Inserting keeps the set ordered and gives the old elements plus `x`.
pub proof fn lemma_ordered_insert(s: Seq<Seq<char>>, x: Seq<char>)
    requires
        is_ordered_set(s),
    ensures
        is_ordered_set(ordered_insert(s, x)),
        ordered_insert(s, x).to_set() == s.to_set().insert(x),
{
    if !s.contains(x) {
        lemma_text_position(s, x);
        let i = text_position(s, x);
        let w = s.insert(i, x);
        s.insert_ensures(i, x);
        assert forall|a: int, b: int| 0 <= a < b < w.len() implies text_order(w[a], w[b])
            == Order::Less by {
            if b < i {
            } else if a < i && b == i {
            } else if a < i {
                assert(w[b] == s[b - 1]);
            } else if a == i {
                assert(w[b] == s[b - 1]);
                lemma_text_order(s[b - 1], x);
                assert(s[b - 1] != x);
            } else {
                assert(w[a] == s[a - 1] && w[b] == s[b - 1]);
            }
        }
        assert(w.to_set() =~= s.to_set().insert(x)) by {
            assert forall|y| w.to_set().contains(y) implies s.to_set().insert(x).contains(y) by {
                let k = choose|k: int| 0 <= k < w.len() && w[k] == y;
                if k < i {
                    assert(s[k] == y);
                } else if k > i {
                    assert(s[k - 1] == y);
                }
            }
            assert forall|y| s.to_set().insert(x).contains(y) implies w.to_set().contains(y) by {
                if y == x {
                    assert(w[i] == y);
                } else {
                    let k = choose|k: int| 0 <= k < s.len() && s[k] == y;
                    if k < i {
                        assert(w[k] == y);
                    } else {
                        assert(w[k + 1] == y);
                    }
                }
            }
        }
    } else {
        assert(s.to_set().insert(x) =~= s.to_set());
    }
}

pub proof fn lemma_ordered_set_of(v: Seq<Seq<char>>)
    ensures
        is_ordered_set(ordered_set_of(v)),
        ordered_set_of(v).to_set() == v.to_set(),
    decreases v.len(),
{
    if v.len() == 0 {
        assert(v.to_set() =~= Set::<Seq<char>>::empty());
        assert(ordered_set_of(v).to_set() =~= Set::<Seq<char>>::empty());
    } else {
        lemma_ordered_set_of(v.drop_last());
        lemma_ordered_insert(ordered_set_of(v.drop_last()), v.last());
        assert(v.to_set() =~= v.drop_last().to_set().insert(v.last())) by {
            assert forall|y| v.to_set().contains(y) implies v.drop_last().to_set().insert(
                v.last(),
            ).contains(y) by {
                let k = choose|k: int| 0 <= k < v.len() && v[k] == y;
                if k < v.len() - 1 {
                    assert(v.drop_last()[k] == y);
                }
            }
            assert forall|y| v.drop_last().to_set().insert(v.last()).contains(y) implies v.to_set().contains(
                y,
            ) by {
                if y != v.last() {
                    let k = choose|k: int| 0 <= k < v.len() - 1 && v.drop_last()[k] == y;
                    assert(v[k] == y);
                } else {
                    assert(v[v.len() - 1] == y);
                }
            }
        }
    }
}

/// An ordered set of strings (each string once, in increasing text order).
#[derive(Debug, Clone, Default, PartialEq, Eq, Hash, PartialOrd, Ord)]
pub struct StringSet {
    items: Vec<String>,
}

impl View for StringSet {
    type V = Seq<Seq<char>>;

    closed spec fn view(&self) -> Seq<Seq<char>> {
        views(self.items@)
    }
}

impl StringSet {
    /// The strings are in increasing order, each once.
    pub closed spec fn wf(&self) -> bool {
        is_ordered_set(self@)
    }

    /// An empty set.
    pub fn new() -> (res: StringSet)
        ensures
            res.wf(),
            res@ == Seq::<Seq<char>>::empty(),
    {
        let res = StringSet { items: Vec::new() };
        assert(res@ =~= Seq::<Seq<char>>::empty());
        res
    }

    /// The set of the given strings.
    pub fn from_vec(v: Vec<String>) -> (res: StringSet)
        ensures
            res.wf(),
            res@ == ordered_set_of(views(v@)),
    {
        let mut res = StringSet::new();
        let mut i: usize = 0;
        while i < v.len()
            invariant
                i <= v@.len(),
                res.wf(),
                res@ == ordered_set_of(views(v@).subrange(0, i as int)),
            decreases v@.len() - i,
        {
            proof {
                assert(views(v@).subrange(0, i + 1).drop_last() =~= views(v@).subrange(0, i as int));
            }
            res.insert(v[i].clone());
            i = i + 1;
        }
        assert(views(v@).subrange(0, v@.len() as int) =~= views(v@));
        res
    }

    /// Inserts `s` unless present; returns whether it was inserted.
    pub fn insert(&mut self, s: String) -> (res: bool)
        requires
            old(self).wf(),
        ensures
            final(self).wf(),
            final(self)@ == ordered_insert(old(self)@, s@),
            res == !old(self)@.contains(s@),
    {
        proof {
            lemma_text_position(self@, s@);
            lemma_ordered_insert(self@, s@);
        }
        let ghost pos = text_position(self@, s@);
        let mut i: usize = 0;
        let mut searching = true;
        while searching && i < self.items.len()
            invariant
                i <= pos,
                !searching ==> i == pos,
                0 <= pos <= self@.len(),
                forall|j: int| 0 <= j < pos ==> text_order(self@[j], s@) == Order::Less,
                forall|j: int| pos <= j < self@.len() ==> text_order(self@[j], s@) != Order::Less,
            decreases self@.len() - i + (if searching {
                1int
            } else {
                0int
            }),
        {
            assert(self@[i as int] == self.items@[i as int]@);
            match compare_text(self.items[i].as_str(), s.as_str()) {
                Order::Less => {
                    i = i + 1;
                },
                _ => {
                    searching = false;
                },
            }
        }
        if i < self.items.len() {
            assert(self@[i as int] == self.items@[i as int]@);
            match compare_text(self.items[i].as_str(), s.as_str()) {
                Order::Equal => {
                    proof {
                        lemma_text_order(self@[i as int], s@);
                        assert(self@.contains(s@));
                    }
                    return false;
                },
                _ => {},
            }
        }
        proof {
            if self@.contains(s@) {
                let k = choose|k: int| 0 <= k < self@.len() && self@[k] == s@;
                lemma_text_order(self@[k], s@);
                if k > pos {
                    assert(text_order(self@[pos], self@[k]) == Order::Less);
                    lemma_text_order(self@[pos], s@);
                }
            }
        }
        let ghost before = self@;
        self.items.insert(i, s);
        assert(self@ =~= before.insert(i as int, s@));
        true
    }

    /// Whether `s` is in the set.
    pub fn contains(&self, s: &str) -> (res: bool)
        ensures
            res == self@.contains(s@),
    {
        crate::text::contains_string(&self.items, s)
    }

    /// The number of strings.
    pub fn len(&self) -> (res: usize)
        ensures
            res == self@.len(),
    {
        self.items.len()
    }

    /// Whether the set is empty.
    pub fn is_empty(&self) -> (res: bool)
        ensures
            res == (self@.len() == 0),
    {
        self.items.len() == 0
    }

    /// The strings in increasing order.
    pub fn items(&self) -> (res: &Vec<String>)
        ensures
            views(res@) == self@,
    {
        &self.items
    }

    /// A copy with the same strings.
    pub fn duplicate(&self) -> (res: StringSet)
        ensures
            res@ == self@,
            self.wf() ==> res.wf(),
    {
        StringSet { items: crate::text::copy_strings(&self.items) }
    }

    /// Equality by the strings held.
    pub fn same_as(&self, other: &StringSet) -> (res: bool)
        ensures
            res == (self@ == other@),
    {
        crate::text::strings_equal(&self.items, &other.items)
    }
}

} // verus!
