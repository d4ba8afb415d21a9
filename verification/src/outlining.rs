//! Outlining patterns: the lines of a Git sparse-checkout profile, kept in a
//! sorted set and expanded so that every directory comes with its leading
//! directories.

use vstd::prelude::*;
use crate::path::{
    Order, PathComponent, compare_paths, compare_text, flip, is_same_path,
    lemma_components_order, lemma_components_order_transitive, lemma_parent_shorter,
    lemma_text_order, lemma_text_order_transitive, parent, path_components, path_order,
    path_parent, same_path, text_order,
};
use crate::text::{contains_string, views};
use crate::path::is_rooted;

verus! {

/// A pattern of a sparse profile.
#[derive(Debug, Clone)]
pub enum Pattern {
    /// A line written to the profile as it is.
    Verbatim { precedence: usize, fragment: String },
    /// A directory, with (`recursive`) or without its subdirectories.
    Directory { precedence: usize, path: String, recursive: bool },
}

/// The mathematical value of a `Pattern`.
pub enum PatternView {
    Verbatim { precedence: usize, fragment: Seq<char> },
    Directory { precedence: usize, path: Seq<char>, recursive: bool },
}

/// What the order of patterns tells apart: the kind, the precedence, and
/// the fragment or the components of the path.
pub enum PatternKey {
    Verbatim(usize, Seq<char>),
    Directory(usize, Seq<PathComponent>),
}

impl View for Pattern {
    type V = PatternView;

    open spec fn view(&self) -> PatternView {
        match self {
            Pattern::Verbatim { precedence, fragment } => PatternView::Verbatim {
                precedence: *precedence,
                fragment: fragment@,
            },
            Pattern::Directory { precedence, path, recursive } => PatternView::Directory {
                precedence: *precedence,
                path: path@,
                recursive: *recursive,
            },
        }
    }
}

/// The precedence that patterns get when none is given.
pub fn pattern_default_precedence() -> (res: usize)
    ensures
        res == usize::MAX,
{
    usize::MAX
}

pub open spec fn usize_order(a: usize, b: usize) -> Order {
    if a < b {
        Order::Less
    } else if a > b {
        Order::Greater
    } else {
        Order::Equal
    }
}

/// The order of patterns: directories before verbatim lines; within a kind
/// by precedence, then by path components or fragment text.
pub open spec fn pattern_order(a: PatternView, b: PatternView) -> Order {
    match (a, b) {
        (
            PatternView::Verbatim { precedence: pa, fragment: fa },
            PatternView::Verbatim { precedence: pb, fragment: fb },
        ) => match usize_order(pa, pb) {
            Order::Equal => text_order(fa, fb),
            o => o,
        },
        (PatternView::Verbatim { .. }, PatternView::Directory { .. }) => Order::Greater,
        (PatternView::Directory { .. }, PatternView::Verbatim { .. }) => Order::Less,
        (
            PatternView::Directory { precedence: pa, path: xa, .. },
            PatternView::Directory { precedence: pb, path: xb, .. },
        ) => match usize_order(pa, pb) {
            Order::Equal => path_order(xa, xb),
            o => o,
        },
    }
}

pub open spec fn pattern_key(p: PatternView) -> PatternKey {
    match p {
        PatternView::Verbatim { precedence, fragment } => PatternKey::Verbatim(
            precedence,
            fragment,
        ),
        PatternView::Directory { precedence, path, .. } => PatternKey::Directory(
            precedence,
            path_components(path),
        ),
    }
}

/// Two patterns are equal in the order exactly when their keys agree, and
/// the order is antisymmetric.
pub proof fn lemma_pattern_order(a: PatternView, b: PatternView)
    ensures
        (pattern_order(a, b) == Order::Equal) == (pattern_key(a) == pattern_key(b)),
        pattern_order(b, a) == flip(pattern_order(a, b)),
{
    match (a, b) {
        (
            PatternView::Verbatim { precedence: pa, fragment: fa },
            PatternView::Verbatim { precedence: pb, fragment: fb },
        ) => {
            lemma_text_order(fa, fb);
        },
        (
            PatternView::Directory { precedence: pa, path: xa, .. },
            PatternView::Directory { precedence: pb, path: xb, .. },
        ) => {
            lemma_components_order(path_components(xa), path_components(xb));
        },
        _ => {},
    }
}

/// The order of patterns is transitive.
pub proof fn lemma_pattern_order_transitive(a: PatternView, b: PatternView, c: PatternView)
    requires
        pattern_order(a, b) == Order::Less,
        pattern_order(b, c) == Order::Less,
    ensures
        pattern_order(a, c) == Order::Less,
{
    lemma_pattern_order(a, b);
    lemma_pattern_order(b, c);
    match (a, b, c) {
        (
            PatternView::Verbatim { precedence: pa, fragment: fa },
            PatternView::Verbatim { precedence: pb, fragment: fb },
            PatternView::Verbatim { precedence: pc, fragment: fc },
        ) => {
            if pa == pb && pb == pc {
                lemma_text_order_transitive(fa, fb, fc);
            }
        },
        (
            PatternView::Directory { precedence: pa, path: xa, .. },
            PatternView::Directory { precedence: pb, path: xb, .. },
            PatternView::Directory { precedence: pc, path: xc, .. },
        ) => {
            if pa == pb && pb == pc {
                lemma_components_order_transitive(
                    path_components(xa),
                    path_components(xb),
                    path_components(xc),
                );
            }
        },
        _ => {},
    }
}

/// A Less-then-Equal chain is Less.
pub proof fn lemma_pattern_order_less_equal(a: PatternView, b: PatternView, c: PatternView)
    requires
        pattern_order(a, b) == Order::Less,
        pattern_order(b, c) == Order::Equal,
    ensures
        pattern_order(a, c) == Order::Less,
{
    lemma_pattern_order(a, b);
    lemma_pattern_order(b, c);
    lemma_pattern_order(a, c);
    match (a, b, c) {
        (
            PatternView::Verbatim { precedence: pa, fragment: fa },
            PatternView::Verbatim { precedence: pb, fragment: fb },
            PatternView::Verbatim { precedence: pc, fragment: fc },
        ) => {
            lemma_text_order(fa, fc);
            lemma_text_order(fb, fc);
        },
        (
            PatternView::Directory { precedence: pa, path: xa, .. },
            PatternView::Directory { precedence: pb, path: xb, .. },
            PatternView::Directory { precedence: pc, path: xc, .. },
        ) => {
            lemma_components_order(path_components(xa), path_components(xc));
            lemma_components_order(path_components(xb), path_components(xc));
        },
        _ => {},
    }
}

fn compare_usize(a: usize, b: usize) -> (res: Order)
    ensures
        res == usize_order(a, b),
{
    if a < b {
        Order::Less
    } else if a > b {
        Order::Greater
    } else {
        Order::Equal
    }
}

/// The order of two patterns, as `pattern_order` states.
pub fn compare_patterns(a: &Pattern, b: &Pattern) -> (res: Order)
    ensures
        res == pattern_order(a@, b@),
{
    match (a, b) {
        (
            Pattern::Verbatim { precedence: pa, fragment: fa },
            Pattern::Verbatim { precedence: pb, fragment: fb },
        ) => match compare_usize(*pa, *pb) {
            Order::Equal => compare_text(fa.as_str(), fb.as_str()),
            o => o,
        },
        (Pattern::Verbatim { .. }, Pattern::Directory { .. }) => Order::Greater,
        (Pattern::Directory { .. }, Pattern::Verbatim { .. }) => Order::Less,
        (
            Pattern::Directory { precedence: pa, path: xa, .. },
            Pattern::Directory { precedence: pb, path: xb, .. },
        ) => match compare_usize(*pa, *pb) {
            Order::Equal => compare_paths(xa.as_str(), xb.as_str()),
            o => o,
        },
    }
}

/// Equality of patterns ignores the precedence (and whether a directory is
/// recursive): verbatim lines by their text, directories by their path.
pub open spec fn pattern_same(a: PatternView, b: PatternView) -> bool {
    match (a, b) {
        (PatternView::Verbatim { fragment: fa, .. }, PatternView::Verbatim { fragment: fb, .. }) => fa
            == fb,
        (PatternView::Directory { path: xa, .. }, PatternView::Directory { path: xb, .. }) => same_path(
            xa,
            xb,
        ),
        _ => false,
    }
}

impl PartialEq for Pattern {
    fn eq(&self, other: &Pattern) -> (res: bool) {
        match (self, other) {
            (Pattern::Verbatim { fragment: fa, .. }, Pattern::Verbatim { fragment: fb, .. }) => *fa
                == *fb,
            (Pattern::Directory { path: xa, .. }, Pattern::Directory { path: xb, .. }) => is_same_path(
                xa.as_str(),
                xb.as_str(),
            ),
            _ => false,
        }
    }
}

impl vstd::std_specs::cmp::PartialEqSpecImpl for Pattern {
    open spec fn obeys_eq_spec() -> bool {
        true
    }

    open spec fn eq_spec(&self, other: &Pattern) -> bool {
        pattern_same(self@, other@)
    }
}

fn ends_with_separator(s: &str) -> (res: bool)
    ensures
        res == (s@.len() > 0 && s@.last() == '/'),
{
    let n = s.unicode_len();
    n > 0 && s.get_char(n - 1) == '/'
}

impl Pattern {
    /// The lines of the sparse profile that this pattern produces, as
    /// `pattern_lines` states.
    pub fn lines(&self) -> (res: Vec<String>)
        ensures
            views(res@) == pattern_lines(self@),
    {
        let mut out: Vec<String> = Vec::new();
        match self {
            Pattern::Verbatim { fragment, .. } => {
                out.push(fragment.clone());
            },
            Pattern::Directory { path, recursive, .. } => {
                let slash = "/";
                let star = "/*";
                let not_star = "!/*/";
                let not = "!";
                let star_slash = "*/";
                proof {
                    reveal_strlit("/");
                    reveal_strlit("/*");
                    reveal_strlit("!/*/");
                    reveal_strlit("!");
                    reveal_strlit("*/");
                    assert(slash@ =~= root_text());
                    assert(star@ =~= seq!['/', '*']);
                    assert(not_star@ =~= seq!['!', '/', '*', '/']);
                    assert(not@ =~= seq!['!']);
                    assert(star_slash@ =~= seq!['*', '/']);
                }
                let p = path.as_str();
                if p.unicode_len() == 0 || crate::text::str_equal(p, slash) {
                    out.push(String::from_str(star));
                    out.push(String::from_str(not_star));
                } else {
                    let rooted = if p.get_char(0) == '/' {
                        String::from_str(p)
                    } else {
                        String::from_str(slash).concat(p)
                    };
                    let line = if ends_with_separator(rooted.as_str()) {
                        rooted
                    } else {
                        rooted.concat(slash)
                    };
                    assert(line@ =~= directory_line(path@));
                    if *recursive {
                        out.push(line);
                    } else {
                        let excluded = String::from_str(not).concat(line.as_str()).concat(
                            star_slash,
                        );
                        out.push(line);
                        out.push(excluded);
                    }
                }
            },
        }
        assert(views(out@) =~= pattern_lines(self@));
        out
    }

    /// A copy with the same value.
    pub fn duplicate(&self) -> (res: Pattern)
        ensures
            res@ == self@,
    {
        match self {
            Pattern::Verbatim { precedence, fragment } => Pattern::Verbatim {
                precedence: *precedence,
                fragment: fragment.clone(),
            },
            Pattern::Directory { precedence, path, recursive } => Pattern::Directory {
                precedence: *precedence,
                path: path.clone(),
                recursive: *recursive,
            },
        }
    }
}

pub open spec fn root_text() -> Seq<char> {
    seq!['/']
}

/// The profile line of a directory: the path between a leading and a
/// trailing `/` (each added when missing).
pub open spec fn directory_line(path: Seq<char>) -> Seq<char> {
    let rooted = if is_rooted(path) {
        path
    } else {
        seq!['/'] + path
    };
    if rooted.last() == '/' {
        rooted
    } else {
        rooted.push('/')
    }
}

/// The lines of the sparse profile that a pattern produces: a verbatim
/// pattern its fragment; the root directory `/*` and `!/*/`; another
/// directory its line, followed, when it is not recursive, by a line that
/// excludes its subdirectories.
pub open spec fn pattern_lines(p: PatternView) -> Seq<Seq<char>> {
    match p {
        PatternView::Verbatim { fragment, .. } => seq![fragment],
        PatternView::Directory { path, recursive, .. } => if path.len() == 0 || path
            == root_text() {
            seq![seq!['/', '*'], seq!['!', '/', '*', '/']]
        } else {
            let d = directory_line(path);
            if recursive {
                seq![d]
            } else {
                seq![d, seq!['!'] + d + seq!['*', '/']]
            }
        },
    }
}

/// The profile lines of a directory (other than the root): one rooted
/// line, starting and ending with `/`, that names the directory with all
/// below it; a directory without its subdirectories adds the exclusion
/// `!` + that line + `*/`, so its subdirectories stay out.
pub proof fn lemma_directory_lines(precedence: usize, path: Seq<char>)
    requires
        path.len() > 0,
        path != root_text(),
    ensures
        ({
            let with = pattern_lines(PatternView::Directory { precedence, path, recursive: true });
            let without = pattern_lines(PatternView::Directory { precedence, path, recursive: false });
            &&& with.len() == 1
            &&& without.len() == 2
            &&& without[0] == with[0]
            &&& without[1] == seq!['!'] + with[0] + seq!['*', '/']
            &&& with[0].len() >= 2
            &&& with[0][0] == '/'
            &&& with[0].last() == '/'
        }),
{
    let rooted = if is_rooted(path) {
        path
    } else {
        seq!['/'] + path
    };
    assert(rooted.len() >= 1 && rooted[0] == '/');
    if rooted.last() == '/' {
        if rooted.len() == 1 {
            assert(path =~= root_text());
        }
    }
}

/// The profile is its lines, each followed by a newline: the first line
/// and a newline come first, then the profile of the rest; so its length
/// is that of the lines plus one for each line.
pub proof fn lemma_profile_text_front(lines: Seq<Seq<char>>)
    requires
        lines.len() > 0,
    ensures
        profile_text(lines) == lines[0] + seq!['\n'] + profile_text(lines.drop_first()),
        profile_text(lines).len() == lines[0].len() + 1 + profile_text(lines.drop_first()).len(),
    decreases lines.len(),
{
    if lines.len() == 1 {
        assert(lines.drop_last() =~= Seq::<Seq<char>>::empty());
        assert(lines.drop_first() =~= Seq::<Seq<char>>::empty());
        assert(profile_text(lines) =~= lines[0] + seq!['\n']);
        assert(profile_text(lines) =~= lines[0] + seq!['\n'] + profile_text(lines.drop_first()));
    } else {
        lemma_profile_text_front(lines.drop_last());
        assert(lines.drop_last().drop_first() =~= lines.drop_first().drop_last());
        assert(lines.drop_first().last() == lines.last());
        assert(profile_text(lines) =~= lines[0] + seq!['\n'] + profile_text(lines.drop_first()));
    }
}

/// The empty list of lines gives the empty profile.
pub proof fn lemma_profile_text_empty()
    ensures
        profile_text(Seq::<Seq<char>>::empty()) == Seq::<char>::empty(),
{
}

/// The lines of all patterns, in order.
pub open spec fn all_lines(v: Seq<PatternView>) -> Seq<Seq<char>>
    decreases v.len(),
{
    if v.len() == 0 {
        Seq::empty()
    } else {
        all_lines(v.drop_last()) + pattern_lines(v.last())
    }
}

/// One step of writing a profile: a line is written unless it is `/` or
/// was written before.
pub open spec fn production_step(written: Seq<Seq<char>>, line: Seq<char>) -> Seq<Seq<char>> {
    if line == root_text() || written.contains(line) {
        written
    } else {
        written.push(line)
    }
}

/// The lines written for a sequence of candidate lines.
pub open spec fn dedup_lines(lines: Seq<Seq<char>>) -> Seq<Seq<char>>
    decreases lines.len(),
{
    if lines.len() == 0 {
        Seq::empty()
    } else {
        production_step(dedup_lines(lines.drop_last()), lines.last())
    }
}

/// The lines of the sparse profile written for a pattern set.
pub open spec fn productions(v: Seq<PatternView>) -> Seq<Seq<char>> {
    dedup_lines(all_lines(v))
}

/// The text of a profile: each line followed by a newline.
pub open spec fn profile_text(lines: Seq<Seq<char>>) -> Seq<char>
    decreases lines.len(),
{
    if lines.len() == 0 {
        Seq::empty()
    } else {
        profile_text(lines.drop_last()) + lines.last() + seq!['\n']
    }
}

/// No line is written twice, and `/` is never written.
pub proof fn lemma_dedup_lines_distinct(lines: Seq<Seq<char>>)
    ensures
        dedup_lines(lines).no_duplicates(),
        !dedup_lines(lines).contains(root_text()),
        forall|x: Seq<char>| #[trigger] dedup_lines(lines).contains(x) ==> lines.contains(x),
        forall|x: Seq<char>| #[trigger] lines.contains(x) && x != root_text() ==> dedup_lines(
            lines,
        ).contains(x),
    decreases lines.len(),
{
    if lines.len() > 0 {
        let init = lines.drop_last();
        lemma_dedup_lines_distinct(init);
        let r = dedup_lines(init);
        let x = lines.last();
        assert forall|y: Seq<char>| #[trigger] dedup_lines(lines).contains(y) implies lines.contains(
            y,
        ) by {
            if r.contains(y) {
                let k = choose|k: int| 0 <= k < init.len() && init[k] == y;
                assert(lines[k] == y);
            } else {
                assert(lines[lines.len() - 1] == y);
            }
        }
        assert forall|y: Seq<char>| #[trigger] lines.contains(y) && y != root_text() implies dedup_lines(
            lines,
        ).contains(y) by {
            let k = choose|k: int| 0 <= k < lines.len() && lines[k] == y;
            if k < lines.len() - 1 {
                assert(init[k] == y);
                assert(init.contains(y));
                assert(r.contains(y));
                let k2 = choose|k2: int| 0 <= k2 < r.len() && r[k2] == y;
                assert(r.push(x)[k2] == y);
            } else {
                assert(y == x);
                if !r.contains(x) {
                    assert(r.push(x)[r.len() as int] == x);
                }
            }
        }
        if !(x == root_text() || r.contains(x)) {
            assert forall|y: Seq<char>| #[trigger] r.push(x).contains(y) && y != x implies r.contains(
                y,
            ) by {
                let k = choose|k: int| 0 <= k < r.len() + 1 && r.push(x)[k] == y;
                assert(r[k] == y);
            }
        }
    }
}

/// Patterns in strictly increasing order (so no two share a key).
pub open spec fn is_sorted_set(v: Seq<PatternView>) -> bool {
    forall|i: int, j: int| 0 <= i < j < v.len() ==> pattern_order(v[i], v[j]) == Order::Less
}

/// Where `p` belongs in the sorted `v`: the number of leading elements
/// that are less than `p`.
pub open spec fn insert_position(v: Seq<PatternView>, p: PatternView) -> int
    decreases v.len(),
{
    if v.len() == 0 {
        0
    } else if pattern_order(v[0], p) == Order::Less {
        1 + insert_position(v.drop_first(), p)
    } else {
        0
    }
}

/// Inserting into a sorted set: nothing changes when an element with the
/// same key is present (the present one stays), otherwise `p` goes in at
/// its place.
pub open spec fn set_insert(v: Seq<PatternView>, p: PatternView) -> Seq<PatternView> {
    let i = insert_position(v, p);
    if i < v.len() && pattern_order(v[i], p) == Order::Equal {
        v
    } else {
        v.insert(i, p)
    }
}

/// Inserting several patterns in turn.
pub open spec fn insert_all(v: Seq<PatternView>, ps: Seq<PatternView>) -> Seq<PatternView>
    decreases ps.len(),
{
    if ps.len() == 0 {
        v
    } else {
        insert_all(set_insert(v, ps[0]), ps.drop_first())
    }
}

/// `v` holds a pattern with the key of `p`.
pub open spec fn contains_key(v: Seq<PatternView>, p: PatternView) -> bool {
    exists|i: int| 0 <= i < v.len() && pattern_key(#[trigger] v[i]) == pattern_key(p)
}

pub proof fn lemma_insert_position(v: Seq<PatternView>, p: PatternView)
    requires
        is_sorted_set(v),
    ensures
        0 <= insert_position(v, p) <= v.len(),
        forall|j: int| 0 <= j < insert_position(v, p) ==> pattern_order(v[j], p) == Order::Less,
        forall|j: int|
            insert_position(v, p) <= j < v.len() ==> pattern_order(v[j], p) != Order::Less,
    decreases v.len(),
{
    if v.len() > 0 {
        let t = v.drop_first();
        assert(is_sorted_set(t)) by {
            assert forall|i: int, j: int| 0 <= i < j < t.len() implies pattern_order(
                t[i],
                t[j],
            ) == Order::Less by {
                assert(t[i] == v[i + 1] && t[j] == v[j + 1]);
            }
        }
        lemma_insert_position(t, p);
        if pattern_order(v[0], p) == Order::Less {
            assert forall|j: int| 0 <= j < insert_position(v, p) implies pattern_order(
                v[j],
                p,
            ) == Order::Less by {
                if j > 0 {
                    assert(v[j] == t[j - 1]);
                }
            }
            assert forall|j: int| insert_position(v, p) <= j < v.len() implies pattern_order(
                v[j],
                p,
            ) != Order::Less by {
                assert(v[j] == t[j - 1]);
            }
        } else {
            assert forall|j: int| 0 <= j < v.len() implies pattern_order(v[j], p)
                != Order::Less by {
                if j > 0 {
                    assert(pattern_order(v[0], v[j]) == Order::Less);
                    if pattern_order(v[j], p) == Order::Less {
                        lemma_pattern_order_transitive(v[0], v[j], p);
                    }
                }
            }
        }
    }
}

/// Inserting keeps the set sorted, keeps every element, and adds `p`
/// unless an element with its key is present.
pub proof fn lemma_set_insert(v: Seq<PatternView>, p: PatternView)
    requires
        is_sorted_set(v),
    ensures
        is_sorted_set(set_insert(v, p)),
        contains_key(set_insert(v, p), p),
        forall|i: int| 0 <= i < v.len() ==> set_insert(v, p).contains(#[trigger] v[i]),
        forall|q: PatternView| #[trigger] set_insert(v, p).contains(q) ==> v.contains(q) || q == p,
        contains_key(v, p) ==> set_insert(v, p) == v,
        !contains_key(v, p) ==> set_insert(v, p).len() == v.len() + 1,
{
    lemma_insert_position(v, p);
    let i = insert_position(v, p);
    if i < v.len() && pattern_order(v[i], p) == Order::Equal {
        lemma_pattern_order(v[i], p);
        assert(pattern_key(v[i]) == pattern_key(p));
    } else {
        let w = v.insert(i, p);
        v.insert_ensures(i, p);
        assert forall|a: int, b: int| 0 <= a < b < w.len() implies pattern_order(w[a], w[b])
            == Order::Less by {
            if b < i {
            } else if a < i && b == i {
            } else if a < i {
                assert(w[b] == v[b - 1]);
            } else if a == i {
                assert(w[b] == v[b - 1]);
                lemma_pattern_order(v[i], p);
                lemma_pattern_order(p, v[b - 1]);
                if b - 1 > i {
                    assert(pattern_order(v[i], v[b - 1]) == Order::Less);
                    lemma_pattern_order(v[b - 1], p);
                    if pattern_order(v[i], p) == Order::Greater {
                        lemma_pattern_order_transitive(p, v[i], v[b - 1]);
                    }
                }
            } else {
                assert(w[a] == v[a - 1] && w[b] == v[b - 1]);
            }
        }
        assert(w[i] == p);
        lemma_pattern_order(p, p);
        assert forall|k: int| 0 <= k < v.len() implies w.contains(#[trigger] v[k]) by {
            if k < i {
                assert(w[k] == v[k]);
            } else {
                assert(w[k + 1] == v[k]);
            }
        }
        assert forall|q: PatternView| #[trigger] w.contains(q) implies v.contains(q) || q == p by {
            let k = choose|k: int| 0 <= k < w.len() && w[k] == q;
            if k < i {
                assert(v[k] == q);
            } else if k > i {
                assert(v[k - 1] == q);
            }
        }
        if contains_key(v, p) {
            let k = choose|k: int| 0 <= k < v.len() && pattern_key(#[trigger] v[k]) == pattern_key(p);
            lemma_pattern_order(v[k], p);
            if k < i {
            } else if k > i {
                lemma_pattern_order(v[i], p);
                assert(pattern_order(v[i], v[k]) == Order::Less);
                lemma_pattern_order_less_equal(v[i], v[k], p);
            }
        }
    }
}

/// `p` is the same path as one of the `ceilings`.
pub open spec fn in_ceilings(p: Seq<char>, ceilings: Seq<Seq<char>>) -> bool {
    exists|i: int| 0 <= i < ceilings.len() && same_path(#[trigger] ceilings[i], p)
}

/// The non-recursive patterns for the parents of `cur`, nearest first,
/// stopping before the empty path and before a ceiling.
pub open spec fn leading_chain(precedence: usize, cur: Seq<char>, ceilings: Seq<Seq<char>>) -> Seq<
    PatternView,
>
    decreases cur.len(),
{
    match path_parent(cur) {
        None => Seq::empty(),
        Some(par) => {
            proof {
                lemma_parent_shorter(cur);
            }
            if par.len() == 0 || in_ceilings(par, ceilings) {
                Seq::empty()
            } else {
                seq![
                    PatternView::Directory { precedence: precedence, path: par, recursive: false },
                ] + leading_chain(precedence, par, ceilings)
            }
        },
    }
}

/// The patterns that inserting `p` with its leading directories adds: a
/// verbatim pattern alone; a directory as recursive, then its parents.
pub open spec fn leading_patterns(p: PatternView, ceilings: Seq<Seq<char>>) -> Seq<PatternView> {
    match p {
        PatternView::Verbatim { .. } => seq![p],
        PatternView::Directory { precedence, path, .. } => seq![
            PatternView::Directory { precedence: precedence, path: path, recursive: true },
        ] + leading_chain(precedence, path, ceilings),
    }
}

/// Inserting each pattern with its leading directories, in turn.
pub open spec fn insert_leading_all(
    v: Seq<PatternView>,
    ps: Seq<PatternView>,
    ceilings: Seq<Seq<char>>,
) -> Seq<PatternView>
    decreases ps.len(),
{
    if ps.len() == 0 {
        v
    } else {
        insert_leading_all(insert_all(v, leading_patterns(ps[0], ceilings)), ps.drop_first(), ceilings)
    }
}

/// The kind of a pattern for the expansion: 0 verbatim, 1 recursive
/// directory, 2 non-recursive directory.
pub open spec fn pattern_kind(p: PatternView) -> int {
    match p {
        PatternView::Verbatim { .. } => 0,
        PatternView::Directory { recursive, .. } => if recursive {
            1
        } else {
            2
        },
    }
}

pub open spec fn directory_path(p: PatternView) -> Seq<char> {
    match p {
        PatternView::Directory { path, .. } => path,
        PatternView::Verbatim { fragment, .. } => fragment,
    }
}

/// The patterns of `v` of the given kind, in order.
pub open spec fn select_kind(v: Seq<PatternView>, kind: int) -> Seq<PatternView>
    decreases v.len(),
{
    if v.len() == 0 {
        Seq::empty()
    } else if pattern_kind(v.last()) == kind {
        select_kind(v.drop_last(), kind).push(v.last())
    } else {
        select_kind(v.drop_last(), kind)
    }
}

/// The paths of directory patterns.
pub open spec fn paths_of(v: Seq<PatternView>) -> Seq<Seq<char>>
    decreases v.len(),
{
    if v.len() == 0 {
        Seq::empty()
    } else {
        paths_of(v.drop_last()).push(directory_path(v.last()))
    }
}

/// The hierarchical expansion of a pattern set: verbatim patterns as they
/// are, then every recursive directory and after them every non-recursive
/// one inserted with its leading directories, where the paths of the
/// recursive directories are ceilings that the leading directories stop at.
pub open spec fn hierarchical(v: Seq<PatternView>) -> Seq<PatternView> {
    let recursive = select_kind(v, 1);
    insert_leading_all(
        insert_all(Seq::empty(), select_kind(v, 0)),
        recursive + select_kind(v, 2),
        paths_of(recursive),
    )
}

pub proof fn lemma_select_kind(v: Seq<PatternView>, kind: int)
    ensures
        forall|q: PatternView| #[trigger]
            select_kind(v, kind).contains(q) ==> v.contains(q) && pattern_kind(q) == kind,
        forall|q: PatternView| #[trigger] v.contains(q) && pattern_kind(q) == kind ==> select_kind(
            v,
            kind,
        ).contains(q),
    decreases v.len(),
{
    if v.len() > 0 {
        let init = v.drop_last();
        lemma_select_kind(init, kind);
        let r = select_kind(init, kind);
        assert forall|q: PatternView| #[trigger] select_kind(v, kind).contains(q) implies v.contains(q)
            && pattern_kind(q) == kind by {
            if r.contains(q) {
                let k = choose|k: int| 0 <= k < init.len() && init[k] == q;
                assert(v[k] == q);
            } else {
                assert(v[v.len() - 1] == q);
            }
        }
        assert forall|q: PatternView| #[trigger] v.contains(q) && pattern_kind(q) == kind implies select_kind(
            v,
            kind,
        ).contains(q) by {
            let k = choose|k: int| 0 <= k < v.len() && v[k] == q;
            if k < v.len() - 1 {
                assert(init[k] == q);
                assert(init.contains(q));
                assert(r.contains(q));
                let k2 = choose|k2: int| 0 <= k2 < r.len() && r[k2] == q;
                if pattern_kind(v.last()) == kind {
                    assert(r.push(v.last())[k2] == q);
                }
            } else {
                assert(r.push(v.last())[r.len() as int] == q);
            }
        }
    }
}

pub proof fn lemma_insert_all(v: Seq<PatternView>, ps: Seq<PatternView>)
    requires
        is_sorted_set(v),
    ensures
        is_sorted_set(insert_all(v, ps)),
        forall|i: int| 0 <= i < v.len() ==> insert_all(v, ps).contains(#[trigger] v[i]),
        forall|i: int| 0 <= i < ps.len() ==> contains_key(insert_all(v, ps), #[trigger] ps[i]),
        forall|q: PatternView| #[trigger]
            insert_all(v, ps).contains(q) ==> v.contains(q) || ps.contains(q),
    decreases ps.len(),
{
    if ps.len() > 0 {
        let w = set_insert(v, ps[0]);
        let rest = ps.drop_first();
        lemma_set_insert(v, ps[0]);
        lemma_insert_all(w, rest);
        let r = insert_all(w, rest);
        assert forall|i: int| 0 <= i < v.len() implies r.contains(#[trigger] v[i]) by {
            assert(w.contains(v[i]));
            let k = choose|k: int| 0 <= k < w.len() && w[k] == v[i];
            assert(r.contains(w[k]));
        }
        assert forall|i: int| 0 <= i < ps.len() implies contains_key(r, #[trigger] ps[i]) by {
            if i == 0 {
                let k = choose|k: int| 0 <= k < w.len() && pattern_key(#[trigger] w[k]) == pattern_key(
                    ps[0],
                );
                assert(r.contains(w[k]));
                let k2 = choose|k2: int| 0 <= k2 < r.len() && r[k2] == w[k];
                assert(pattern_key(r[k2]) == pattern_key(ps[0]));
            } else {
                assert(ps[i] == rest[i - 1]);
            }
        }
        assert forall|q: PatternView| #[trigger] r.contains(q) implies v.contains(q) || ps.contains(
            q,
        ) by {
            if w.contains(q) {
                if !v.contains(q) {
                    assert(q == ps[0]);
                    assert(ps[0] == ps[0]);
                }
            } else {
                let k = choose|k: int| 0 <= k < rest.len() && rest[k] == q;
                assert(ps[k + 1] == q);
            }
        }
    }
}

/// `a` is the parent of `s`, or the parent of the parent, and so on.
pub open spec fn is_ancestor(a: Seq<char>, s: Seq<char>) -> bool
    decreases s.len(),
{
    match path_parent(s) {
        Some(par) => {
            proof {
                lemma_parent_shorter(s);
            }
            par == a || is_ancestor(a, par)
        },
        None => false,
    }
}

/// `q` comes from a pattern of `v`: a verbatim pattern of `v`, or a
/// directory with the precedence of a directory of `v` whose path is that
/// directory's path or one of its ancestors.
pub open spec fn derived_from(q: PatternView, v: Seq<PatternView>) -> bool {
    match q {
        PatternView::Verbatim { .. } => v.contains(q),
        PatternView::Directory { precedence, path, .. } => exists|i: int|
            0 <= i < v.len() && (#[trigger] v[i] matches PatternView::Directory {
                precedence: pi,
                path: xi,
                ..
            } && pi == precedence && (xi == path || is_ancestor(path, xi))),
    }
}

pub proof fn lemma_leading_chain(precedence: usize, cur: Seq<char>, ceilings: Seq<Seq<char>>)
    ensures
        forall|j: int|
            0 <= j < leading_chain(precedence, cur, ceilings).len() ==> (#[trigger] leading_chain(
                precedence,
                cur,
                ceilings,
            )[j] matches PatternView::Directory { precedence: pj, path: xj, .. } && pj
                == precedence && is_ancestor(xj, cur)),
    decreases cur.len(),
{
    lemma_parent_shorter(cur);
    if let Some(par) = path_parent(cur) {
        if !(par.len() == 0 || in_ceilings(par, ceilings)) {
            lemma_leading_chain(precedence, par, ceilings);
            let chain = leading_chain(precedence, cur, ceilings);
            let rest = leading_chain(precedence, par, ceilings);
            assert forall|j: int| 0 <= j < chain.len() implies (#[trigger] chain[j] matches PatternView::Directory {
                precedence: pj,
                path: xj,
                ..
            } && pj == precedence && is_ancestor(xj, cur)) by {
                if j > 0 {
                    assert(chain[j] == rest[j - 1]);
                }
            }
        }
    }
}

/// The patterns that `leading_patterns` adds: the first has the key of `p`;
/// for a directory all are directories of its precedence whose path is its
/// path or an ancestor of it.
pub proof fn lemma_leading_patterns(p: PatternView, ceilings: Seq<Seq<char>>)
    ensures
        leading_patterns(p, ceilings).len() > 0,
        pattern_key(leading_patterns(p, ceilings)[0]) == pattern_key(p),
        forall|j: int|
            0 <= j < leading_patterns(p, ceilings).len() ==> derived_from(
                #[trigger] leading_patterns(p, ceilings)[j],
                seq![p],
            ),
{
    let l = leading_patterns(p, ceilings);
    match p {
        PatternView::Verbatim { .. } => {
            assert(seq![p][0] == p);
        },
        PatternView::Directory { precedence, path, .. } => {
            lemma_leading_chain(precedence, path, ceilings);
            let chain = leading_chain(precedence, path, ceilings);
            assert forall|j: int| 0 <= j < l.len() implies derived_from(#[trigger] l[j], seq![p]) by {
                assert(seq![p][0] == p);
                if j > 0 {
                    assert(l[j] == chain[j - 1]);
                }
            }
        },
    }
}

pub proof fn lemma_insert_leading_all(
    v: Seq<PatternView>,
    ps: Seq<PatternView>,
    ceilings: Seq<Seq<char>>,
)
    requires
        is_sorted_set(v),
    ensures
        is_sorted_set(insert_leading_all(v, ps, ceilings)),
        forall|i: int| 0 <= i < v.len() ==> insert_leading_all(v, ps, ceilings).contains(#[trigger] v[i]),
        forall|i: int|
            0 <= i < ps.len() ==> contains_key(insert_leading_all(v, ps, ceilings), #[trigger] ps[i]),
        forall|q: PatternView| #[trigger]
            insert_leading_all(v, ps, ceilings).contains(q) ==> v.contains(q) || derived_from(q, ps),
    decreases ps.len(),
{
    if ps.len() > 0 {
        let l = leading_patterns(ps[0], ceilings);
        let w = insert_all(v, l);
        let rest = ps.drop_first();
        lemma_insert_all(v, l);
        lemma_leading_patterns(ps[0], ceilings);
        lemma_insert_leading_all(w, rest, ceilings);
        let r = insert_leading_all(w, rest, ceilings);
        assert forall|i: int| 0 <= i < v.len() implies r.contains(#[trigger] v[i]) by {
            let k = choose|k: int| 0 <= k < w.len() && w[k] == v[i];
            assert(r.contains(w[k]));
        }
        assert forall|i: int| 0 <= i < ps.len() implies contains_key(r, #[trigger] ps[i]) by {
            if i == 0 {
                assert(contains_key(w, l[0]));
                let k = choose|k: int| 0 <= k < w.len() && pattern_key(#[trigger] w[k]) == pattern_key(
                    l[0],
                );
                assert(r.contains(w[k]));
                let k2 = choose|k2: int| 0 <= k2 < r.len() && r[k2] == w[k];
                assert(pattern_key(r[k2]) == pattern_key(ps[0]));
            } else {
                assert(ps[i] == rest[i - 1]);
            }
        }
        assert forall|q: PatternView| #[trigger] r.contains(q) implies v.contains(q) || derived_from(
            q,
            ps,
        ) by {
            if w.contains(q) {
                if !v.contains(q) {
                    let j = choose|j: int| 0 <= j < l.len() && l[j] == q;
                    assert(derived_from(l[j], seq![ps[0]]));
                    assert(seq![ps[0]][0] == ps[0]);
                    assert(ps[0] == ps[0]);
                    match q {
                        PatternView::Verbatim { .. } => {
                            let k = choose|k: int| 0 <= k < 1 && seq![ps[0]][k] == q;
                            assert(ps[0] == q);
                            assert(ps.contains(q));
                        },
                        PatternView::Directory { .. } => {
                            let k = choose|k: int| 0 <= k < 1 && (#[trigger] seq![ps[0]][k] matches PatternView::Directory {
                                precedence: pi,
                                path: xi,
                                ..
                            } && pi == q->Directory_precedence && (xi == q->Directory_path || is_ancestor(q->Directory_path, xi)));
                            assert(ps[0] == seq![ps[0]][k]);
                        },
                    }
                }
            } else {
                match q {
                    PatternView::Verbatim { .. } => {
                        let k = choose|k: int| 0 <= k < rest.len() && rest[k] == q;
                        assert(ps[k + 1] == q);
                    },
                    PatternView::Directory { .. } => {
                        let k = choose|k: int| 0 <= k < rest.len() && (#[trigger] rest[k] matches PatternView::Directory {
                            precedence: pi,
                            path: xi,
                            ..
                        } && pi == q->Directory_precedence && (xi == q->Directory_path || is_ancestor(q->Directory_path, xi)));
                        assert(ps[k + 1] == rest[k]);
                    },
                }
            }
        }
    }
}

/// The expansion keeps every pattern of the set: for each pattern of `v`
/// the result holds a pattern with its key (a directory may stand there as
/// recursive or not, and first come first kept).
pub proof fn lemma_hierarchical_covers(v: Seq<PatternView>)
    requires
        is_sorted_set(v),
    ensures
        is_sorted_set(hierarchical(v)),
        forall|i: int| 0 <= i < v.len() ==> contains_key(hierarchical(v), #[trigger] v[i]),
{
    let verbatim = select_kind(v, 0);
    let recursive = select_kind(v, 1);
    let plain = select_kind(v, 2);
    let all = recursive + plain;
    let base = insert_all(Seq::empty(), verbatim);
    assert(is_sorted_set(Seq::<PatternView>::empty()));
    lemma_insert_all(Seq::empty(), verbatim);
    lemma_insert_leading_all(base, all, paths_of(recursive));
    lemma_select_kind(v, 0);
    lemma_select_kind(v, 1);
    lemma_select_kind(v, 2);
    let h = hierarchical(v);
    assert forall|i: int| 0 <= i < v.len() implies contains_key(h, #[trigger] v[i]) by {
        let p = v[i];
        assert(v.contains(p));
        if pattern_kind(p) == 0 {
            assert(verbatim.contains(p));
            let k = choose|k: int| 0 <= k < verbatim.len() && verbatim[k] == p;
            assert(contains_key(base, verbatim[k]));
            let m = choose|m: int| 0 <= m < base.len() && pattern_key(#[trigger] base[m]) == pattern_key(p);
            assert(h.contains(base[m]));
            let m2 = choose|m2: int| 0 <= m2 < h.len() && h[m2] == base[m];
            assert(pattern_key(h[m2]) == pattern_key(p));
        } else if pattern_kind(p) == 1 {
            assert(recursive.contains(p));
            let k = choose|k: int| 0 <= k < recursive.len() && recursive[k] == p;
            assert(all[k] == p);
        } else {
            assert(plain.contains(p));
            let k = choose|k: int| 0 <= k < plain.len() && plain[k] == p;
            assert(all[recursive.len() + k] == p);
        }
    }
}

/// The expansion adds nothing else: every pattern of the result is a
/// verbatim pattern of `v`, or a directory of `v` or one of its ancestors,
/// with the precedence of that directory.
pub proof fn lemma_hierarchical_sound(v: Seq<PatternView>)
    ensures
        forall|q: PatternView| #[trigger] hierarchical(v).contains(q) ==> derived_from(q, v),
{
    let verbatim = select_kind(v, 0);
    let recursive = select_kind(v, 1);
    let plain = select_kind(v, 2);
    let all = recursive + plain;
    let base = insert_all(Seq::empty(), verbatim);
    assert(is_sorted_set(Seq::<PatternView>::empty()));
    lemma_insert_all(Seq::empty(), verbatim);
    lemma_insert_leading_all(base, all, paths_of(recursive));
    lemma_select_kind(v, 0);
    lemma_select_kind(v, 1);
    lemma_select_kind(v, 2);
    assert forall|q: PatternView| #[trigger] hierarchical(v).contains(q) implies derived_from(q, v) by {
        if base.contains(q) {
            assert(!Seq::<PatternView>::empty().contains(q));
            assert(verbatim.contains(q));
            assert(v.contains(q));
            let k = choose|k: int| 0 <= k < v.len() && v[k] == q;
        } else {
            assert(derived_from(q, all));
            match q {
                PatternView::Verbatim { .. } => {
                    let k = choose|k: int| 0 <= k < all.len() && all[k] == q;
                    if k < recursive.len() {
                        assert(recursive.contains(q));
                    } else {
                        assert(plain[k - recursive.len()] == q);
                        assert(plain.contains(q));
                    }
                },
                PatternView::Directory { .. } => {
                    let k = choose|k: int| 0 <= k < all.len() && (#[trigger] all[k] matches PatternView::Directory {
                        precedence: pi,
                        path: xi,
                        ..
                    } && pi == q->Directory_precedence && (xi == q->Directory_path || is_ancestor(q->Directory_path, xi)));
                    let src = all[k];
                    if k < recursive.len() {
                        assert(recursive.contains(src));
                    } else {
                        assert(plain[k - recursive.len()] == src);
                        assert(plain.contains(src));
                    }
                    assert(v.contains(src));
                    let m = choose|m: int| 0 <= m < v.len() && v[m] == src;
                    assert(v[m] == src);
                },
            }
        }
    }
}

/// A set of patterns, kept sorted by `pattern_order` with no two patterns
/// of the same key.
#[derive(Debug, Clone)]
pub struct PatternSet {
    patterns: Vec<Pattern>,
}

pub open spec fn pattern_views(v: Seq<Pattern>) -> Seq<PatternView> {
    v.map_values(|p: Pattern| p@)
}

impl View for PatternSet {
    type V = Seq<PatternView>;

    closed spec fn view(&self) -> Seq<PatternView> {
        pattern_views(self.patterns@)
    }
}

/// Whether `p` is the same path as one of `paths`.
pub fn contains_path(paths: &Vec<String>, p: &str) -> (res: bool)
    ensures
        res == in_ceilings(p@, views(paths@)),
{
    let mut i: usize = 0;
    while i < paths.len()
        invariant
            i <= paths@.len(),
            forall|j: int| 0 <= j < i ==> !same_path(#[trigger] views(paths@)[j], p@),
        decreases paths@.len() - i,
    {
        if is_same_path(paths[i].as_str(), p) {
            assert(same_path(views(paths@)[i as int], p@));
            return true;
        }
        i = i + 1;
    }
    false
}

/// The patterns that an outline starts from: the verbatim `/*` (the files
/// at the top of the repository) with the default precedence.
pub fn default_outlining_patterns() -> (res: PatternSet)
    ensures
        res.wf(),
        res@ == seq![PatternView::Verbatim { precedence: usize::MAX, fragment: seq!['/', '*'] }],
{
    let mut patterns = PatternSet::new();
    let top = "/*";
    proof {
        reveal_strlit("/*");
        assert(top@ =~= seq!['/', '*']);
    }
    let p = Pattern::Verbatim { precedence: pattern_default_precedence(), fragment: String::from_str(top) };
    proof {
        lemma_set_insert(patterns@, p@);
    }
    patterns.insert(p);
    assert(patterns@ =~= seq![PatternView::Verbatim { precedence: usize::MAX, fragment: seq!['/', '*'] }]);
    patterns
}

/// The hierarchical expansion of a pattern set, as `hierarchical` states:
/// each directory comes with its leading directories (see
/// `lemma_hierarchical_covers` and `lemma_hierarchical_sound`).
pub fn create_hierarchical_patterns(patterns: &PatternSet) -> (res: PatternSet)
    requires
        patterns.wf(),
    ensures
        res.wf(),
        res@ == hierarchical(patterns@),
{
    let ghost v = patterns@;
    let mut verbatim: Vec<Pattern> = Vec::new();
    let mut recursive: Vec<Pattern> = Vec::new();
    let mut plain: Vec<Pattern> = Vec::new();
    let mut ceilings: Vec<String> = Vec::new();
    let mut i: usize = 0;
    while i < patterns.patterns.len()
        invariant
            v == pattern_views(patterns.patterns@),
            i <= v.len(),
            pattern_views(verbatim@) == select_kind(v.subrange(0, i as int), 0),
            pattern_views(recursive@) == select_kind(v.subrange(0, i as int), 1),
            pattern_views(plain@) == select_kind(v.subrange(0, i as int), 2),
            views(ceilings@) == paths_of(select_kind(v.subrange(0, i as int), 1)),
        decreases v.len() - i,
    {
        let p = patterns.patterns[i].duplicate();
        let ghost pre = v.subrange(0, i as int);
        proof {
            let next = v.subrange(0, i + 1);
            assert(next.drop_last() =~= pre);
            assert(next.last() == p@);
        }
        let ghost rv = pattern_views(recursive@);
        let ghost vv = pattern_views(verbatim@);
        let ghost pv = pattern_views(plain@);
        let ghost cv = views(ceilings@);
        match &p {
            Pattern::Verbatim { .. } => {
                verbatim.push(p);
                assert(pattern_views(verbatim@) =~= vv.push(patterns.patterns@[i as int]@));
            },
            Pattern::Directory { path, recursive: is_recursive, .. } => {
                if *is_recursive {
                    ceilings.push(path.clone());
                    recursive.push(p);
                    assert(pattern_views(recursive@) =~= rv.push(patterns.patterns@[i as int]@));
                    assert(views(ceilings@) =~= cv.push(
                        directory_path(patterns.patterns@[i as int]@),
                    ));
                    assert(rv.push(patterns.patterns@[i as int]@).drop_last() =~= rv);
                } else {
                    plain.push(p);
                    assert(pattern_views(plain@) =~= pv.push(patterns.patterns@[i as int]@));
                }
            },
        }
        i = i + 1;
    }
    assert(v.subrange(0, v.len() as int) =~= v);
    let mut result = PatternSet::new();
    result.insert_each(&verbatim);
    let ghost base = result@;
    let mut order: Vec<Pattern> = Vec::new();
    order.append(&mut recursive);
    order.append(&mut plain);
    let ghost all = pattern_views(order@);
    let ghost cv = views(ceilings@);
    assert(all =~= select_kind(v, 1) + select_kind(v, 2));
    assert(all.skip(0) =~= all);
    let mut j: usize = 0;
    while j < order.len()
        invariant
            result.wf(),
            all == pattern_views(order@),
            cv == views(ceilings@),
            j <= all.len(),
            insert_leading_all(base, all, cv) == insert_leading_all(result@, all.skip(j as int), cv),
        decreases all.len() - j,
    {
        proof {
            assert(all.skip(j as int).drop_first() =~= all.skip(j + 1));
            assert(all.skip(j as int)[0] == order@[j as int]@);
        }
        result.insert_leading(order[j].duplicate(), &ceilings);
        j = j + 1;
    }
    assert(all.skip(j as int) =~= Seq::<PatternView>::empty());
    result
}

impl PatternSet {
    /// The set is sorted with unique keys.
    pub open spec fn wf(&self) -> bool {
        is_sorted_set(self@)
    }

    /// An empty set.
    pub fn new() -> (res: PatternSet)
        ensures
            res.wf(),
            res@ == Seq::<PatternView>::empty(),
    {
        let res = PatternSet { patterns: Vec::new() };
        assert(res@ =~= Seq::<PatternView>::empty());
        res
    }

    /// The number of patterns.
    pub fn len(&self) -> (res: usize)
        ensures
            res == self@.len(),
    {
        self.patterns.len()
    }

    /// The patterns in order.
    pub fn patterns(&self) -> (res: &Vec<Pattern>)
        ensures
            pattern_views(res@) == self@,
    {
        &self.patterns
    }

    /// Whether a pattern with the key of `p` is present.
    pub fn contains(&self, p: &Pattern) -> (res: bool)
        requires
            self.wf(),
        ensures
            res == contains_key(self@, p@),
    {
        let mut i: usize = 0;
        while i < self.patterns.len()
            invariant
                i <= self@.len(),
                self@ == pattern_views(self.patterns@),
                forall|j: int| 0 <= j < i ==> pattern_key(self@[j]) != pattern_key(p@),
            decreases self@.len() - i,
        {
            let o = compare_patterns(&self.patterns[i], p);
            proof {
                lemma_pattern_order(self@[i as int], p@);
            }
            match o {
                Order::Equal => {
                    return true;
                },
                _ => {},
            }
            i = i + 1;
        }
        false
    }

    /// Keeps only the patterns whose key `other` does not hold.
    #[verifier::loop_isolation(false)]
    pub fn retain_not_in(&mut self, other: &PatternSet)
        requires
            old(self).wf(),
            other.wf(),
        ensures
            final(self).wf(),
            final(self)@ == old(self)@.filter(|q: PatternView| !contains_key(other@, q)),
    {
        let ghost all = self@;
        let ghost keep = |q: PatternView| !contains_key(other@, q);
        let mut kept: Vec<Pattern> = Vec::new();
        let mut i: usize = 0;
        while i < self.patterns.len()
            invariant
                self@ == all,
                is_sorted_set(all),
                i <= all.len(),
                pattern_views(kept@) == all.subrange(0, i as int).filter(keep),
                is_sorted_set(pattern_views(kept@)),
            decreases all.len() - i,
        {
            let ghost prev = kept@;
            proof {
                assert(all.subrange(0, i + 1) =~= all.subrange(0, i as int).push(all[i as int]));
                all.subrange(0, i as int).lemma_filter_push(all[i as int], keep);
            }
            if !other.contains(&self.patterns[i]) {
                kept.push(self.patterns[i].duplicate());
                proof {
                    let pv = pattern_views(prev);
                    assert(pattern_views(kept@) =~= pv.push(all[i as int]));
                    assert forall|a: int, b: int|
                        0 <= a < b < pattern_views(kept@).len() implies pattern_order(
                        pattern_views(kept@)[a],
                        pattern_views(kept@)[b],
                    ) == Order::Less by {
                        if b == pv.len() {
                            assert(pv.contains(pv[a]));
                            all.subrange(0, i as int).lemma_filter_contains_rev(keep, pv[a]);
                            let j = choose|j: int|
                                0 <= j < all.subrange(0, i as int).len() && all.subrange(
                                    0,
                                    i as int,
                                )[j] == pv[a];
                            assert(all[j] == pv[a]);
                        } else {
                            assert(pattern_views(kept@)[a] == pv[a]);
                            assert(pattern_views(kept@)[b] == pv[b]);
                        }
                    }
                }
            }
            i = i + 1;
        }
        assert(all.subrange(0, i as int) =~= all);
        self.patterns = kept;
    }

    /// Inserts `p` unless a pattern with its key is present; returns whether
    /// it was inserted.
    pub fn insert(&mut self, p: Pattern) -> (res: bool)
        requires
            old(self).wf(),
        ensures
            final(self).wf(),
            final(self)@ == set_insert(old(self)@, p@),
            res == !contains_key(old(self)@, p@),
    {
        proof {
            lemma_insert_position(self@, p@);
            lemma_set_insert(self@, p@);
        }
        let ghost pos = insert_position(self@, p@);
        let mut i: usize = 0;
        let mut searching = true;
        while searching && i < self.patterns.len()
            invariant
                i <= pos,
                !searching ==> i == pos,
                self@ == pattern_views(self.patterns@),
                0 <= pos <= self@.len(),
                forall|j: int| 0 <= j < pos ==> pattern_order(self@[j], p@) == Order::Less,
                forall|j: int| pos <= j < self@.len() ==> pattern_order(self@[j], p@)
                    != Order::Less,
            decreases self@.len() - i + (if searching { 1int } else { 0int }),
        {
            assert(self@[i as int] == self.patterns@[i as int]@);
            match compare_patterns(&self.patterns[i], &p) {
                Order::Less => {
                    i = i + 1;
                },
                _ => {
                    searching = false;
                },
            }
        }
        assert(i == pos);
        if i < self.patterns.len() {
            match compare_patterns(&self.patterns[i], &p) {
                Order::Equal => {
                    return false;
                },
                _ => {},
            }
        }
        let ghost before = self@;
        self.patterns.insert(i, p);
        proof {
            assert(self@ =~= before.insert(i as int, p@));
        }
        true
    }

    /// The lines written to a sparse profile for this set, in order: the
    /// lines of each pattern, leaving out `/` and lines already written.
    pub fn productions(&self) -> (res: Vec<String>)
        ensures
            views(res@) == productions(self@),
    {
        let mut out: Vec<String> = Vec::new();
        let slash = "/";
        proof {
            reveal_strlit("/");
            assert(slash@ =~= root_text());
        }
        let mut i: usize = 0;
        while i < self.patterns.len()
            invariant
                i <= self@.len(),
                self@ == pattern_views(self.patterns@),
                slash@ == root_text(),
                views(out@) == dedup_lines(all_lines(self@.subrange(0, i as int))),
            decreases self@.len() - i,
        {
            let lines = self.patterns[i].lines();
            let ghost before = all_lines(self@.subrange(0, i as int));
            proof {
                let next = self@.subrange(0, i + 1);
                assert(next.drop_last() =~= self@.subrange(0, i as int));
                assert(next.last() == self.patterns@[i as int]@);
            }
            let mut j: usize = 0;
            while j < lines.len()
                invariant
                    j <= lines@.len(),
                    slash@ == root_text(),
                    views(out@) == dedup_lines(before + views(lines@).subrange(0, j as int)),
                decreases lines@.len() - j,
            {
                let line = lines[j].clone();
                let ghost prev = before + views(lines@).subrange(0, j as int);
                proof {
                    let next = before + views(lines@).subrange(0, j + 1);
                    assert(next.drop_last() =~= prev);
                    assert(next.last() == line@);
                }
                if !crate::text::str_equal(line.as_str(), slash) && !contains_string(
                    &out,
                    line.as_str(),
                ) {
                    let ghost o = views(out@);
                    out.push(line);
                    assert(views(out@) =~= o.push(lines@[j as int]@));
                }
                j = j + 1;
            }
            assert(views(lines@).subrange(0, lines@.len() as int) =~= views(lines@));
            i = i + 1;
        }
        assert(self@.subrange(0, self@.len() as int) =~= self@);
        out
    }

    /// The text of the sparse profile for this set: each production
    /// followed by a newline.
    pub fn profile(&self) -> (res: String)
        ensures
            res@ == profile_text(productions(self@)),
    {
        let lines = self.productions();
        let newline = "\n";
        proof {
            reveal_strlit("\n");
            assert(newline@ =~= seq!['\n']);
        }
        let mut out = String::new();
        let mut i: usize = 0;
        while i < lines.len()
            invariant
                i <= lines@.len(),
                newline@ == seq!['\n'],
                out@ == profile_text(views(lines@).subrange(0, i as int)),
            decreases lines@.len() - i,
        {
            proof {
                let next = views(lines@).subrange(0, i + 1);
                assert(next.drop_last() =~= views(lines@).subrange(0, i as int));
            }
            out = out.concat(lines[i].as_str()).concat(newline);
            i = i + 1;
        }
        assert(views(lines@).subrange(0, lines@.len() as int) =~= views(lines@));
        out
    }

    /// Inserts `pattern`; for a directory, inserts it as recursive and then
    /// each of its parents as non-recursive, nearest first, stopping before
    /// the empty path and before any path that is one of `ceilings`.
    #[verifier::loop_isolation(false)]
    pub fn insert_leading(&mut self, pattern: Pattern, ceilings: &Vec<String>)
        requires
            old(self).wf(),
        ensures
            final(self).wf(),
            final(self)@ == insert_all(old(self)@, leading_patterns(pattern@, views(ceilings@))),
    {
        let ghost cv = views(ceilings@);
        let ghost whole = leading_patterns(pattern@, cv);
        let ghost start = self@;
        match pattern {
            Pattern::Verbatim { .. } => {
                proof {
                    lemma_set_insert(self@, pattern@);
                    assert(whole.drop_first() =~= Seq::<PatternView>::empty());
                    assert(insert_all(start, whole) == insert_all(
                        set_insert(start, whole[0]),
                        whole.drop_first(),
                    ));
                }
                self.insert(pattern);
            },
            Pattern::Directory { precedence, path, .. } => {
                let own = Pattern::Directory {
                    precedence,
                    path: path.clone(),
                    recursive: true,
                };
                proof {
                    lemma_set_insert(self@, own@);
                    assert(whole[0] == own@);
                    assert(whole.drop_first() =~= leading_chain(precedence, path@, cv));
                    assert(insert_all(start, whole) == insert_all(
                        set_insert(start, whole[0]),
                        whole.drop_first(),
                    ));
                }
                self.insert(own);
                let mut cur = path;
                loop
                    invariant
                        self.wf(),
                        cv == views(ceilings@),
                        insert_all(start, whole) == insert_all(
                            self@,
                            leading_chain(precedence, cur@, cv),
                        ),
                    decreases cur@.len(),
                {
                    proof {
                        lemma_parent_shorter(cur@);
                    }
                    match parent(cur.as_str()) {
                        None => {
                            assert(leading_chain(precedence, cur@, cv) =~= Seq::<
                                PatternView,
                            >::empty());
                            return ;
                        },
                        Some(par) => {
                            if par.as_str().unicode_len() == 0 || contains_path(
                                ceilings,
                                par.as_str(),
                            ) {
                                assert(leading_chain(precedence, cur@, cv) =~= Seq::<
                                    PatternView,
                                >::empty());
                                return ;
                            }
                            let next = Pattern::Directory {
                                precedence,
                                path: par.clone(),
                                recursive: false,
                            };
                            proof {
                                let chain = leading_chain(precedence, cur@, cv);
                                assert(chain[0] == next@);
                                assert(chain.drop_first() =~= leading_chain(precedence, par@, cv));
                                lemma_set_insert(self@, next@);
                                assert(insert_all(self@, chain) == insert_all(
                                    set_insert(self@, chain[0]),
                                    chain.drop_first(),
                                ));
                            }
                            self.insert(next);
                            cur = par;
                        },
                    }
                }
            },
        }
    }

    /// The digest of the sparse profile for this set: SHA-256 of the UTF-8
    /// encoding of its text.
    pub fn profile_digest(&self) -> (res: Vec<u8>)
        ensures
            res@ == crate::digest::sha256(vstd::utf8::encode_utf8(profile_text(productions(self@)))),
    {
        let text = self.profile();
        crate::digest::text_digest(text.as_str())
    }

    /// Inserts each of `ps`, in order.
    fn insert_each(&mut self, ps: &Vec<Pattern>)
        requires
            old(self).wf(),
        ensures
            final(self).wf(),
            final(self)@ == insert_all(old(self)@, pattern_views(ps@)),
    {
        let ghost all = pattern_views(ps@);
        let ghost start = self@;
        assert(all.skip(0) =~= all);
        let mut i: usize = 0;
        while i < ps.len()
            invariant
                self.wf(),
                all == pattern_views(ps@),
                i <= all.len(),
                insert_all(start, all) == insert_all(self@, all.skip(i as int)),
            decreases all.len() - i,
        {
            proof {
                assert(all.skip(i as int).drop_first() =~= all.skip(i + 1));
                lemma_set_insert(self@, all[i as int]);
            }
            self.insert(ps[i].duplicate());
            i = i + 1;
        }
        assert(all.skip(i as int) =~= Seq::<PatternView>::empty());
    }

    /// Inserts every pattern of `other`, in its order.
    pub fn extend(&mut self, other: &PatternSet)
        requires
            old(self).wf(),
        ensures
            final(self).wf(),
            final(self)@ == insert_all(old(self)@, other@),
    {
        let mut i: usize = 0;
        let ghost start = self@;
        assert(other@.skip(0) =~= other@);
        while i < other.patterns.len()
            invariant
                self.wf(),
                other@ == pattern_views(other.patterns@),
                i <= other@.len(),
                insert_all(start, other@) == insert_all(self@, other@.skip(i as int)),
            decreases other@.len() - i,
        {
            proof {
                assert(other@.skip(i as int).drop_first() =~= other@.skip(i + 1));
                lemma_set_insert(self@, other@[i as int]);
            }
            self.insert(other.patterns[i].duplicate());
            i = i + 1;
        }
        assert(other@.skip(i as int) =~= Seq::<PatternView>::empty());
    }
}


/// The patterns that every working tree checks out: the whole top
/// directory first, and the `focus` directory.
pub open spec fn working_tree_defaults() -> Seq<PatternView> {
    seq![
        PatternView::Directory { precedence: 0, path: Seq::empty(), recursive: true },
        PatternView::Directory { precedence: usize::MAX, path: "focus"@, recursive: true },
    ]
}

/// The patterns that every working tree checks out.
pub fn default_working_tree_patterns() -> (res: PatternSet)
    ensures
        res.wf(),
        res@ == insert_all(Seq::empty(), working_tree_defaults()),
{
    let mut patterns = PatternSet::new();
    let first = Pattern::Directory { precedence: patterns.len(), path: String::new(), recursive: true };
    let focus = "focus";
    proof {
        reveal_strlit("focus");
    }
    let second = Pattern::Directory {
        precedence: pattern_default_precedence(),
        path: String::from_str(focus),
        recursive: true,
    };
    let ghost d = working_tree_defaults();
    proof {
        assert(first@ == d[0]);
        assert(second@ == d[1]);
        lemma_set_insert(patterns@, first@);
        assert(d.drop_first().drop_first() =~= Seq::<PatternView>::empty());
        assert(d.drop_first()[0] == d[1]);
    }
    patterns.insert(first);
    proof {
        lemma_set_insert(patterns@, second@);
    }
    patterns.insert(second);
    proof {
        let e = Seq::<PatternView>::empty();
        let s1 = set_insert(e, d[0]);
        let s2 = set_insert(s1, d[1]);
        assert(patterns@ == s2);
        assert(insert_all(s2, d.drop_first().drop_first()) == s2);
        assert(insert_all(s1, d.drop_first()) == insert_all(s2, d.drop_first().drop_first()));
        assert(insert_all(e, d) == insert_all(s1, d.drop_first()));
    }
    patterns
}

/// The recursive directory patterns, of the last precedence, of the paths.
pub open spec fn directory_patterns_of(paths: Seq<Seq<char>>) -> Seq<PatternView> {
    paths.map_values(|p: Seq<char>| PatternView::Directory { precedence: usize::MAX, path: p, recursive: true })
}

/// The pattern set that checks out the given directories with all that is
/// below them.
pub fn directory_patterns(paths: &Vec<String>) -> (res: PatternSet)
    ensures
        res.wf(),
        res@ == insert_all(Seq::empty(), directory_patterns_of(views(paths@))),
{
    let ghost all = directory_patterns_of(views(paths@));
    let mut patterns = PatternSet::new();
    let mut i: usize = 0;
    assert(all.skip(0) =~= all);
    while i < paths.len()
        invariant
            patterns.wf(),
            i <= paths@.len(),
            all == directory_patterns_of(views(paths@)),
            insert_all(Seq::empty(), all) == insert_all(patterns@, all.skip(i as int)),
        decreases paths@.len() - i,
    {
        let p = Pattern::Directory { precedence: pattern_default_precedence(), path: paths[i].clone(), recursive: true };
        proof {
            assert(all.skip(i as int).drop_first() =~= all.skip(i + 1));
            assert(p@ == all[i as int]);
            lemma_set_insert(patterns@, p@);
        }
        patterns.insert(p);
        i = i + 1;
    }
    assert(all.skip(i as int) =~= Seq::<PatternView>::empty());
    patterns
}

} // verus!
