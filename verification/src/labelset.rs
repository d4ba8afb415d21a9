//! The order of Bazel labels (by repository, then path, then target name),
//! and ordered sets of labels: each label once, in increasing order.

use vstd::prelude::*;
use crate::path::{Order, compare_text, flip, lemma_text_order, lemma_text_order_transitive, text_order};
use crate::target::{Label, LabelView, TargetName, TargetNameView};
use crate::valueset::{value_seq, value_set};

verus! {

/// Lexicographic order of sequences of texts, each compared by
/// `text_order`; a proper prefix comes first.
pub open spec fn texts_order(a: Seq<Seq<char>>, b: Seq<Seq<char>>) -> Order
    decreases a.len(),
{
    if a.len() == 0 && b.len() == 0 {
        Order::Equal
    } else if a.len() == 0 {
        Order::Less
    } else if b.len() == 0 {
        Order::Greater
    } else {
        match text_order(a[0], b[0]) {
            Order::Equal => texts_order(a.drop_first(), b.drop_first()),
            o => o,
        }
    }
}

/// The order of optional texts: none first, then by text.
pub open spec fn optional_text_order(a: Option<Seq<char>>, b: Option<Seq<char>>) -> Order {
    match (a, b) {
        (None, None) => Order::Equal,
        (None, Some(_)) => Order::Less,
        (Some(_), None) => Order::Greater,
        (Some(x), Some(y)) => text_order(x, y),
    }
}

/// The order of target names: names by text, then the ellipsis.
pub open spec fn name_order(a: TargetNameView, b: TargetNameView) -> Order {
    match (a, b) {
        (TargetNameView::Name(x), TargetNameView::Name(y)) => text_order(x, y),
        (TargetNameView::Name(_), TargetNameView::Ellipsis) => Order::Less,
        (TargetNameView::Ellipsis, TargetNameView::Name(_)) => Order::Greater,
        (TargetNameView::Ellipsis, TargetNameView::Ellipsis) => Order::Equal,
    }
}

/// The order of labels: by external repository, then by path components,
/// then by target name.
pub open spec fn label_order(a: LabelView, b: LabelView) -> Order {
    match optional_text_order(a.external_repository, b.external_repository) {
        Order::Equal => match texts_order(a.path_components, b.path_components) {
            Order::Equal => name_order(a.target_name, b.target_name),
            o => o,
        },
        o => o,
    }
}

pub proof fn lemma_texts_order(a: Seq<Seq<char>>, b: Seq<Seq<char>>)
    ensures
        (texts_order(a, b) == Order::Equal) == (a == b),
        texts_order(b, a) == flip(texts_order(a, b)),
    decreases a.len(),
{
    if a.len() == 0 && b.len() == 0 {
        assert(a =~= b);
    }
    if a.len() > 0 && b.len() > 0 {
        lemma_text_order(a[0], b[0]);
        lemma_texts_order(a.drop_first(), b.drop_first());
        if a[0] == b[0] && a.drop_first() == b.drop_first() {
            assert(a =~= seq![a[0]] + a.drop_first());
            assert(b =~= seq![b[0]] + b.drop_first());
        }
    }
}

pub proof fn lemma_texts_order_transitive(a: Seq<Seq<char>>, b: Seq<Seq<char>>, c: Seq<Seq<char>>)
    requires
        texts_order(a, b) == Order::Less,
        texts_order(b, c) == Order::Less,
    ensures
        texts_order(a, c) == Order::Less,
    decreases a.len(),
{
    if a.len() > 0 && b.len() > 0 && c.len() > 0 {
        lemma_text_order(a[0], b[0]);
        lemma_text_order(b[0], c[0]);
        lemma_text_order(a[0], c[0]);
        if a[0] == b[0] && b[0] == c[0] {
            lemma_texts_order_transitive(a.drop_first(), b.drop_first(), c.drop_first());
        } else if a[0] != b[0] && b[0] != c[0] {
            lemma_text_order_transitive(a[0], b[0], c[0]);
        }
    }
}

pub proof fn lemma_label_order(a: LabelView, b: LabelView)
    ensures
        (label_order(a, b) == Order::Equal) == (a == b),
        label_order(b, a) == flip(label_order(a, b)),
{
    lemma_texts_order(a.path_components, b.path_components);
    if let (Some(x), Some(y)) = (a.external_repository, b.external_repository) {
        lemma_text_order(x, y);
    }
    if let (TargetNameView::Name(x), TargetNameView::Name(y)) = (a.target_name, b.target_name) {
        lemma_text_order(x, y);
    }
}

pub proof fn lemma_label_order_transitive(a: LabelView, b: LabelView, c: LabelView)
    requires
        label_order(a, b) == Order::Less,
        label_order(b, c) == Order::Less,
    ensures
        label_order(a, c) == Order::Less,
{
    lemma_label_order(a, b);
    lemma_label_order(b, c);
    lemma_label_order(a, c);
    lemma_texts_order(a.path_components, b.path_components);
    lemma_texts_order(b.path_components, c.path_components);
    lemma_texts_order(a.path_components, c.path_components);
    if texts_order(a.path_components, b.path_components) == Order::Less && texts_order(
        b.path_components,
        c.path_components,
    ) == Order::Less {
        lemma_texts_order_transitive(a.path_components, b.path_components, c.path_components);
    }
    if let (Some(x), Some(y), Some(z)) = (
        a.external_repository,
        b.external_repository,
        c.external_repository,
    ) {
        lemma_text_order(x, y);
        lemma_text_order(y, z);
        lemma_text_order(x, z);
        if text_order(x, y) == Order::Less && text_order(y, z) == Order::Less {
            lemma_text_order_transitive(x, y, z);
        }
    }
    if let (TargetNameView::Name(x), TargetNameView::Name(y), TargetNameView::Name(z)) = (
        a.target_name,
        b.target_name,
        c.target_name,
    ) {
        lemma_text_order(x, y);
        lemma_text_order(y, z);
        lemma_text_order(x, z);
        if text_order(x, y) == Order::Less && text_order(y, z) == Order::Less {
            lemma_text_order_transitive(x, y, z);
        }
    }
}

/// Strictly increasing in label order (so each label once).
pub open spec fn is_label_set(s: Seq<LabelView>) -> bool {
    forall|i: int, j: int| 0 <= i < j < s.len() ==> label_order(s[i], s[j]) == Order::Less
}

/// The labels of `s`, each once, in increasing order.
pub open spec fn ordered_labels(s: Set<LabelView>) -> Seq<LabelView> {
    choose|q: Seq<LabelView>| is_label_set(q) && q.to_set() == s
}

/// Two ordered sets of labels with the same elements are the same
/// sequence.
pub proof fn lemma_label_set_unique(a: Seq<LabelView>, b: Seq<LabelView>)
    requires
        is_label_set(a),
        is_label_set(b),
        a.to_set() == b.to_set(),
    ensures
        a == b,
    decreases a.len(),
{
    if a.len() == 0 {
        if b.len() > 0 {
            assert(b.to_set().contains(b[0]));
        }
        assert(a =~= b);
    } else if b.len() == 0 {
        assert(a.to_set().contains(a[0]));
    } else {
        assert(b.to_set().contains(a[0]));
        assert(a.to_set().contains(b[0]));
        let i = choose|i: int| 0 <= i < b.len() && b[i] == a[0];
        let j = choose|j: int| 0 <= j < a.len() && a[j] == b[0];
        if a[0] != b[0] {
            assert(i > 0 && j > 0);
            assert(label_order(b[0], b[i]) == Order::Less);
            assert(label_order(a[0], a[j]) == Order::Less);
            lemma_label_order(a[0], b[0]);
        }
        let ta = a.drop_first();
        let tb = b.drop_first();
        assert(is_label_set(ta)) by {
            assert forall|x: int, y: int| 0 <= x < y < ta.len() implies label_order(ta[x], ta[y])
                == Order::Less by {
                assert(ta[x] == a[x + 1] && ta[y] == a[y + 1]);
            }
        }
        assert(is_label_set(tb)) by {
            assert forall|x: int, y: int| 0 <= x < y < tb.len() implies label_order(tb[x], tb[y])
                == Order::Less by {
                assert(tb[x] == b[x + 1] && tb[y] == b[y + 1]);
            }
        }
        assert(ta.to_set() =~= tb.to_set()) by {
            assert forall|v: LabelView| ta.to_set().contains(v) implies tb.to_set().contains(v) by {
                let k = choose|k: int| 0 <= k < ta.len() && ta[k] == v;
                assert(a[k + 1] == v);
                assert(label_order(a[0], a[k + 1]) == Order::Less);
                lemma_label_order(a[0], v);
                assert(b.to_set().contains(v));
                let m = choose|m: int| 0 <= m < b.len() && b[m] == v;
                assert(m != 0);
                assert(tb[m - 1] == v);
            }
            assert forall|v: LabelView| tb.to_set().contains(v) implies ta.to_set().contains(v) by {
                let k = choose|k: int| 0 <= k < tb.len() && tb[k] == v;
                assert(b[k + 1] == v);
                assert(label_order(b[0], b[k + 1]) == Order::Less);
                lemma_label_order(b[0], v);
                assert(a.to_set().contains(v));
                let m = choose|m: int| 0 <= m < a.len() && a[m] == v;
                assert(m != 0);
                assert(ta[m - 1] == v);
            }
        }
        lemma_label_set_unique(ta, tb);
        assert(a =~= seq![a[0]] + ta);
        assert(b =~= seq![b[0]] + tb);
    }
}

/// An ordered set is the ordered labels of its elements.
pub proof fn lemma_ordered_labels(s: Seq<LabelView>)
    requires
        is_label_set(s),
    ensures
        ordered_labels(s.to_set()) == s,
{
    let q = ordered_labels(s.to_set());
    assert(is_label_set(q) && q.to_set() == s.to_set());
    lemma_label_set_unique(q, s);
}

fn compare_optional_text(a: &Option<String>, b: &Option<String>) -> (res: Order)
    ensures
        res == optional_text_order(
            match a {
                Some(x) => Some(x@),
                None => None,
            },
            match b {
                Some(x) => Some(x@),
                None => None,
            },
        ),
{
    match (a, b) {
        (None, None) => Order::Equal,
        (None, Some(_)) => Order::Less,
        (Some(_), None) => Order::Greater,
        (Some(x), Some(y)) => compare_text(x.as_str(), y.as_str()),
    }
}

fn compare_texts(a: &Vec<String>, b: &Vec<String>) -> (res: Order)
    ensures
        res == texts_order(crate::text::views(a@), crate::text::views(b@)),
{
    let ghost va = crate::text::views(a@);
    let ghost vb = crate::text::views(b@);
    let n = a.len();
    let m = b.len();
    let mut i: usize = 0;
    assert(va.skip(0) =~= va);
    assert(vb.skip(0) =~= vb);
    while i < n && i < m
        invariant
            n == a@.len(),
            m == b@.len(),
            va == crate::text::views(a@),
            vb == crate::text::views(b@),
            i <= n,
            i <= m,
            texts_order(va, vb) == texts_order(va.skip(i as int), vb.skip(i as int)),
        decreases n - i,
    {
        let o = compare_text(a[i].as_str(), b[i].as_str());
        proof {
            assert(va.skip(i as int)[0] == va[i as int]);
            assert(vb.skip(i as int)[0] == vb[i as int]);
            assert(va.skip(i as int).drop_first() =~= va.skip(i + 1));
            assert(vb.skip(i as int).drop_first() =~= vb.skip(i + 1));
        }
        match o {
            Order::Equal => {
                i = i + 1;
            },
            _ => {
                return o;
            },
        }
    }
    if i == n && i == m {
        Order::Equal
    } else if i == n {
        Order::Less
    } else {
        Order::Greater
    }
}

fn compare_names(a: &TargetName, b: &TargetName) -> (res: Order)
    ensures
        res == name_order(a@, b@),
{
    match (a, b) {
        (TargetName::Name(x), TargetName::Name(y)) => compare_text(x.as_str(), y.as_str()),
        (TargetName::Name(_), TargetName::Ellipsis) => Order::Less,
        (TargetName::Ellipsis, TargetName::Name(_)) => Order::Greater,
        (TargetName::Ellipsis, TargetName::Ellipsis) => Order::Equal,
    }
}

/// The comparison of two labels, as `label_order` states.
pub fn compare_labels(a: &Label, b: &Label) -> (res: Order)
    ensures
        res == label_order(a@, b@),
{
    match compare_optional_text(&a.external_repository, &b.external_repository) {
        Order::Equal => match compare_texts(&a.path_components, &b.path_components) {
            Order::Equal => compare_names(&a.target_name, &b.target_name),
            o => o,
        },
        o => o,
    }
}

/// The labels, each once, in increasing order.
pub fn label_set(labels: &Vec<Label>) -> (res: Vec<Label>)
    ensures
        is_label_set(value_seq(res@)),
        value_seq(res@) == ordered_labels(value_set(labels@)),
{
    let mut out: Vec<Label> = Vec::new();
    let mut i: usize = 0;
    assert(value_seq(out@).to_set() =~= value_seq(labels@).subrange(0, 0).to_set());
    while i < labels.len()
        invariant
            i <= labels@.len(),
            is_label_set(value_seq(out@)),
            value_seq(out@).to_set() == value_seq(labels@).subrange(0, i as int).to_set(),
        decreases labels@.len() - i,
    {
        let ghost s = value_seq(out@);
        let ghost x = labels@[i as int]@;
        let mut pos: usize = 0;
        let mut searching = true;
        while searching && pos < out.len()
            invariant
                s == value_seq(out@),
                is_label_set(s),
                i < labels@.len(),
                x == labels@[i as int]@,
                pos <= s.len(),
                forall|j: int| 0 <= j < pos ==> label_order(#[trigger] s[j], x) == Order::Less,
                !searching ==> pos < s.len() && label_order(s[pos as int], x) != Order::Less,
            decreases s.len() - pos + (if searching {
                1int
            } else {
                0int
            }),
        {
            match compare_labels(&out[pos], &labels[i]) {
                Order::Less => {
                    pos = pos + 1;
                },
                _ => {
                    searching = false;
                },
            }
        }
        let present = pos < out.len() && match compare_labels(&out[pos], &labels[i]) {
            Order::Equal => true,
            _ => false,
        };
        proof {
            assert(value_seq(labels@).subrange(0, i + 1) =~= value_seq(labels@).subrange(
                0,
                i as int,
            ).push(x));
            value_seq(labels@).subrange(0, i as int).lemma_push_to_set_commute(x);
            if pos < s.len() {
                lemma_label_order(s[pos as int], x);
            }
        }
        if present {
            proof {
                assert(s[pos as int] == x);
                assert(s.to_set().contains(x));
                assert(s.to_set().insert(x) =~= s.to_set());
            }
        } else {
            proof {
                assert forall|j: int| pos <= j < s.len() implies label_order(x, #[trigger] s[j])
                    == Order::Less by {
                    lemma_label_order(s[pos as int], x);
                    if j > pos {
                        lemma_label_order(s[j], x);
                        lemma_label_order(s[pos as int], s[j]);
                        if label_order(s[j], x) != Order::Greater {
                            if s[j] == x {
                                lemma_label_order(s[pos as int], x);
                            } else {
                                lemma_label_order_transitive(s[pos as int], s[j], x);
                            }
                        }
                    }
                    lemma_label_order(x, s[j]);
                }
            }
            out.insert(pos, labels[i].duplicate());
            proof {
                let w = value_seq(out@);
                assert(w =~= s.insert(pos as int, x));
                assert forall|a: int, b: int| 0 <= a < b < w.len() implies label_order(w[a], w[b])
                    == Order::Less by {
                    if b < pos {
                    } else if a < pos && b == pos {
                    } else if a < pos {
                        assert(w[b] == s[b - 1]);
                        lemma_label_order_transitive(s[a], x, s[b - 1]);
                    } else if a == pos {
                        assert(w[b] == s[b - 1]);
                    } else {
                        assert(w[a] == s[a - 1] && w[b] == s[b - 1]);
                    }
                }
                assert(w.to_set() =~= s.to_set().insert(x)) by {
                    assert forall|y| w.to_set().contains(y) implies s.to_set().insert(x).contains(
                        y,
                    ) by {
                        let k = choose|k: int| 0 <= k < w.len() && w[k] == y;
                        if k < pos {
                            assert(s[k] == y);
                        } else if k > pos {
                            assert(s[k - 1] == y);
                        }
                    }
                    assert forall|y| s.to_set().insert(x).contains(y) implies w.to_set().contains(
                        y,
                    ) by {
                        if y == x {
                            assert(w[pos as int] == y);
                        } else {
                            let k = choose|k: int| 0 <= k < s.len() && s[k] == y;
                            if k < pos {
                                assert(w[k] == y);
                            } else {
                                assert(w[k + 1] == y);
                            }
                        }
                    }
                }
            }
        }
        i = i + 1;
    }
    proof {
        assert(value_seq(labels@).subrange(0, i as int) =~= value_seq(labels@));
        lemma_ordered_labels(value_seq(out@));
    }
    out
}

} // verus!
