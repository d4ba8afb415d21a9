//! Repository paths held as text, with the component structure, ordering
//! and `parent` relation that Unix paths have: a leading `/` is the root,
//! empty and `.` pieces between separators are not components (a leading
//! `.` is the current directory), and `..` is the parent directory.

use vstd::prelude::*;
use crate::text::{
    join_strings, join_with, lemma_find_char, no_char, split_on, split_str, str_equal, substring,
    views,
};

verus! {

/// One component of a path.
pub enum PathComponent {
    RootDir,
    CurDir,
    ParentDir,
    Normal(Seq<char>),
}

/// The outcome of a three-way comparison.
#[derive(Debug, Clone, Copy, PartialEq, Eq, Structural)]
pub enum Order {
    Less,
    Equal,
    Greater,
}

/// Index of the last occurrence of `c` in `s`.
pub open spec fn rfind_char(s: Seq<char>, c: char) -> Option<int>
    decreases s.len(),
{
    if s.len() == 0 {
        None
    } else if s.last() == c {
        Some(s.len() - 1)
    } else {
        rfind_char(s.drop_last(), c)
    }
}

pub proof fn lemma_rfind_char(s: Seq<char>, c: char)
    ensures
        match rfind_char(s, c) {
            Some(i) => 0 <= i < s.len() && s[i] == c && forall|j: int| i < j < s.len() ==> s[j] != c,
            None => no_char(s, c),
        },
    decreases s.len(),
{
    if s.len() > 0 && s.last() != c {
        lemma_rfind_char(s.drop_last(), c);
        assert forall|j: int| 0 <= j < s.len() - 1 implies s[j] == s.drop_last()[j] by {}
    }
}

pub open spec fn dot_text() -> Seq<char> {
    seq!['.']
}

pub open spec fn dot_dot_text() -> Seq<char> {
    seq!['.', '.']
}

pub open spec fn is_rooted(s: Seq<char>) -> bool {
    s.len() > 0 && s[0] == '/'
}

/// The path starts with a current-directory component (`.` or `./...`).
pub open spec fn starts_with_cur_dir(s: Seq<char>) -> bool {
    !is_rooted(s) && s.len() > 0 && s[0] == '.' && (s.len() == 1 || s[1] == '/')
}

/// Length of the part before the body: the root `/` or a leading `.`.
pub open spec fn prefix_len(s: Seq<char>) -> int {
    if is_rooted(s) || starts_with_cur_dir(s) {
        1
    } else {
        0
    }
}

/// A piece between separators that is not a component.
pub open spec fn is_skipped_piece(p: Seq<char>) -> bool {
    p.len() == 0 || p == dot_text()
}

pub open spec fn piece_component(p: Seq<char>) -> PathComponent {
    if p == dot_dot_text() {
        PathComponent::ParentDir
    } else {
        PathComponent::Normal(p)
    }
}

/// The components named by the pieces of a path body.
pub open spec fn body_components(pieces: Seq<Seq<char>>) -> Seq<PathComponent>
    decreases pieces.len(),
{
    if pieces.len() == 0 {
        Seq::empty()
    } else {
        let rest = body_components(pieces.drop_last());
        if is_skipped_piece(pieces.last()) {
            rest
        } else {
            rest.push(piece_component(pieces.last()))
        }
    }
}

/// The components of the path `s`.
pub open spec fn path_components(s: Seq<char>) -> Seq<PathComponent> {
    let head = if is_rooted(s) {
        seq![PathComponent::RootDir]
    } else if starts_with_cur_dir(s) {
        seq![PathComponent::CurDir]
    } else {
        Seq::empty()
    };
    head + body_components(split_on(s.skip(prefix_len(s)), '/'))
}

/// The last piece of the body of `s`, with the number of characters that
/// removing it (and the separator before it) takes off the end.
pub open spec fn last_piece(s: Seq<char>) -> (int, Seq<char>) {
    let body = s.skip(prefix_len(s));
    match rfind_char(body, '/') {
        None => (body.len() as int, body),
        Some(i) => (body.len() - i, body.skip(i + 1)),
    }
}

pub proof fn lemma_last_piece(s: Seq<char>)
    requires
        s.len() > prefix_len(s),
    ensures
        1 <= last_piece(s).0 <= s.len() - prefix_len(s),
        last_piece(s).1 == s.skip(s.len() - last_piece(s).0 + (if last_piece(s).0 == s.len()
            - prefix_len(s) && rfind_char(s.skip(prefix_len(s)), '/') is None {
            0int
        } else {
            1int
        })),
{
    let body = s.skip(prefix_len(s));
    lemma_rfind_char(body, '/');
    match rfind_char(body, '/') {
        None => {
            assert(body =~= s.skip(s.len() - body.len()));
        },
        Some(i) => {
            assert(body.skip(i + 1) =~= s.skip(s.len() - (body.len() - i) + 1));
        },
    }
}

/// The last component of `s` and the text before it (Rust's
/// `Components::next_back`).
pub open spec fn next_back(s: Seq<char>) -> Option<(PathComponent, Seq<char>)>
    decreases s.len(),
{
    if s.len() > prefix_len(s) {
        let (size, p) = last_piece(s);
        proof {
            lemma_last_piece(s);
        }
        let rem = s.take(s.len() - size);
        if is_skipped_piece(p) {
            next_back(rem)
        } else {
            Some((piece_component(p), rem))
        }
    } else if s.len() == 1 && is_rooted(s) {
        Some((PathComponent::RootDir, Seq::empty()))
    } else if s.len() == 1 && starts_with_cur_dir(s) {
        Some((PathComponent::CurDir, Seq::empty()))
    } else {
        None
    }
}

/// `s` without trailing separators and `.` pieces.
pub open spec fn trim_trailing(s: Seq<char>) -> Seq<char>
    decreases s.len(),
{
    if s.len() > prefix_len(s) {
        let (size, p) = last_piece(s);
        proof {
            lemma_last_piece(s);
        }
        if is_skipped_piece(p) {
            trim_trailing(s.take(s.len() - size))
        } else {
            s
        }
    } else {
        s
    }
}

/// Rust's `Path::parent`: the path without its last component, or `None`
/// for the root and the empty path.
pub open spec fn path_parent(s: Seq<char>) -> Option<Seq<char>> {
    match next_back(s) {
        Some((c, rem)) => match c {
            PathComponent::RootDir => None,
            _ => Some(trim_trailing(rem)),
        },
        None => None,
    }
}

pub proof fn lemma_next_back_shorter(s: Seq<char>)
    ensures
        next_back(s) matches Some((c, rem)) ==> rem.len() < s.len(),
    decreases s.len(),
{
    if s.len() > prefix_len(s) {
        lemma_last_piece(s);
        let (size, p) = last_piece(s);
        if is_skipped_piece(p) {
            lemma_next_back_shorter(s.take(s.len() - size));
        }
    }
}

pub proof fn lemma_trim_trailing_shorter(s: Seq<char>)
    ensures
        trim_trailing(s).len() <= s.len(),
    decreases s.len(),
{
    if s.len() > prefix_len(s) {
        lemma_last_piece(s);
        let (size, p) = last_piece(s);
        if is_skipped_piece(p) {
            lemma_trim_trailing_shorter(s.take(s.len() - size));
        }
    }
}

/// The parent of a path is shorter than the path.
pub proof fn lemma_parent_shorter(s: Seq<char>)
    ensures
        path_parent(s) matches Some(p) ==> p.len() < s.len(),
{
    lemma_next_back_shorter(s);
    if let Some((c, rem)) = next_back(s) {
        lemma_trim_trailing_shorter(rem);
    }
}

/// Lexicographic comparison of character sequences by code point (the
/// byte order of their UTF-8 encodings).
pub open spec fn text_order(a: Seq<char>, b: Seq<char>) -> Order
    decreases a.len(),
{
    if a.len() == 0 && b.len() == 0 {
        Order::Equal
    } else if a.len() == 0 {
        Order::Less
    } else if b.len() == 0 {
        Order::Greater
    } else if (a[0] as int) < (b[0] as int) {
        Order::Less
    } else if (a[0] as int) > (b[0] as int) {
        Order::Greater
    } else {
        text_order(a.drop_first(), b.drop_first())
    }
}

pub open spec fn flip(o: Order) -> Order {
    match o {
        Order::Less => Order::Greater,
        Order::Equal => Order::Equal,
        Order::Greater => Order::Less,
    }
}

pub proof fn lemma_text_order(a: Seq<char>, b: Seq<char>)
    ensures
        (text_order(a, b) == Order::Equal) == (a == b),
        text_order(b, a) == flip(text_order(a, b)),
    decreases a.len(),
{
    if a.len() == 0 && b.len() == 0 {
        assert(a =~= b);
    }
    if a.len() > 0 && b.len() > 0 && a[0] == b[0] {
        lemma_text_order(a.drop_first(), b.drop_first());
        if a.drop_first() == b.drop_first() {
            assert(a =~= seq![a[0]] + a.drop_first());
            assert(b =~= seq![b[0]] + b.drop_first());
        }
    } else if a.len() > 0 && b.len() > 0 {
        assert((a[0] as int) != (b[0] as int));
    }
}

pub proof fn lemma_text_order_transitive(a: Seq<char>, b: Seq<char>, c: Seq<char>)
    requires
        text_order(a, b) == Order::Less,
        text_order(b, c) == Order::Less,
    ensures
        text_order(a, c) == Order::Less,
    decreases a.len(),
{
    if a.len() > 0 && b.len() > 0 && c.len() > 0 && a[0] == b[0] && b[0] == c[0] {
        lemma_text_order_transitive(a.drop_first(), b.drop_first(), c.drop_first());
    } else if a.len() > 0 && b.len() > 0 && a[0] != b[0] {
        assert((a[0] as int) != (b[0] as int));
    } else if b.len() > 0 && c.len() > 0 && b[0] != c[0] {
        assert((b[0] as int) != (c[0] as int));
    }
}

pub open spec fn component_rank(c: PathComponent) -> int {
    match c {
        PathComponent::RootDir => 0,
        PathComponent::CurDir => 1,
        PathComponent::ParentDir => 2,
        PathComponent::Normal(_) => 3,
    }
}

/// The order of components: root, current, parent, then named components
/// by their text.
pub open spec fn component_order(a: PathComponent, b: PathComponent) -> Order {
    if component_rank(a) < component_rank(b) {
        Order::Less
    } else if component_rank(a) > component_rank(b) {
        Order::Greater
    } else {
        match (a, b) {
            (PathComponent::Normal(x), PathComponent::Normal(y)) => text_order(x, y),
            _ => Order::Equal,
        }
    }
}

pub proof fn lemma_component_order(a: PathComponent, b: PathComponent)
    ensures
        (component_order(a, b) == Order::Equal) == (a == b),
        component_order(b, a) == flip(component_order(a, b)),
{
    if let (PathComponent::Normal(x), PathComponent::Normal(y)) = (a, b) {
        lemma_text_order(x, y);
    }
}

pub proof fn lemma_component_order_transitive(a: PathComponent, b: PathComponent, c: PathComponent)
    requires
        component_order(a, b) == Order::Less,
        component_order(b, c) == Order::Less,
    ensures
        component_order(a, c) == Order::Less,
{
    if let (PathComponent::Normal(x), PathComponent::Normal(y), PathComponent::Normal(z)) = (
        a,
        b,
        c,
    ) {
        lemma_text_order_transitive(x, y, z);
    }
}

/// Lexicographic comparison of component sequences.
pub open spec fn components_order(a: Seq<PathComponent>, b: Seq<PathComponent>) -> Order
    decreases a.len(),
{
    if a.len() == 0 && b.len() == 0 {
        Order::Equal
    } else if a.len() == 0 {
        Order::Less
    } else if b.len() == 0 {
        Order::Greater
    } else {
        match component_order(a[0], b[0]) {
            Order::Equal => components_order(a.drop_first(), b.drop_first()),
            o => o,
        }
    }
}

pub proof fn lemma_components_order(a: Seq<PathComponent>, b: Seq<PathComponent>)
    ensures
        (components_order(a, b) == Order::Equal) == (a == b),
        components_order(b, a) == flip(components_order(a, b)),
    decreases a.len(),
{
    if a.len() == 0 && b.len() == 0 {
        assert(a =~= b);
    }
    if a.len() > 0 && b.len() > 0 {
        lemma_component_order(a[0], b[0]);
        lemma_component_order(b[0], a[0]);
        if a[0] == b[0] {
            lemma_components_order(a.drop_first(), b.drop_first());
            if a.drop_first() == b.drop_first() {
                assert(a =~= seq![a[0]] + a.drop_first());
                assert(b =~= seq![b[0]] + b.drop_first());
            }
        }
    }
}

pub proof fn lemma_components_order_transitive(
    a: Seq<PathComponent>,
    b: Seq<PathComponent>,
    c: Seq<PathComponent>,
)
    requires
        components_order(a, b) == Order::Less,
        components_order(b, c) == Order::Less,
    ensures
        components_order(a, c) == Order::Less,
    decreases a.len(),
{
    if a.len() > 0 && b.len() > 0 && c.len() > 0 {
        lemma_component_order(a[0], b[0]);
        lemma_component_order(b[0], c[0]);
        lemma_component_order(a[0], c[0]);
        if a[0] == b[0] && b[0] == c[0] {
            lemma_components_order_transitive(a.drop_first(), b.drop_first(), c.drop_first());
        } else if a[0] == b[0] {
        } else if b[0] == c[0] {
        } else {
            lemma_component_order_transitive(a[0], b[0], c[0]);
        }
    }
}

/// The comparison of two paths by their components (Rust's `Path::cmp`).
pub open spec fn path_order(a: Seq<char>, b: Seq<char>) -> Order {
    components_order(path_components(a), path_components(b))
}

/// Two paths are the same path (Rust's `Path::eq`).
pub open spec fn same_path(a: Seq<char>, b: Seq<char>) -> bool {
    path_components(a) == path_components(b)
}

/// A component of a path, held as a value.
#[derive(Debug, Clone)]
pub enum Component {
    RootDir,
    CurDir,
    ParentDir,
    Normal(String),
}

impl View for Component {
    type V = PathComponent;

    open spec fn view(&self) -> PathComponent {
        match self {
            Component::RootDir => PathComponent::RootDir,
            Component::CurDir => PathComponent::CurDir,
            Component::ParentDir => PathComponent::ParentDir,
            Component::Normal(s) => PathComponent::Normal(s@),
        }
    }
}

pub open spec fn component_views(v: Seq<Component>) -> Seq<PathComponent> {
    v.map_values(|c: Component| c@)
}

fn is_rooted_exec(s: &str) -> (res: bool)
    ensures
        res == is_rooted(s@),
{
    s.unicode_len() > 0 && s.get_char(0) == '/'
}

fn prefix_len_exec(s: &str) -> (res: usize)
    ensures
        res == prefix_len(s@),
{
    let n = s.unicode_len();
    if n == 0 {
        0
    } else if s.get_char(0) == '/' {
        1
    } else if s.get_char(0) == '.' && (n == 1 || s.get_char(1) == '/') {
        1
    } else {
        0
    }
}

fn piece_to_component(p: String) -> (res: Option<Component>)
    ensures
        match res {
            Some(c) => !is_skipped_piece(p@) && c@ == piece_component(p@),
            None => is_skipped_piece(p@),
        },
{
    let dot = ".";
    let dot_dot = "..";
    proof {
        reveal_strlit(".");
        reveal_strlit("..");
        assert(dot@ =~= dot_text());
        assert(dot_dot@ =~= dot_dot_text());
    }
    if p.as_str().unicode_len() == 0 || str_equal(p.as_str(), dot) {
        None
    } else if str_equal(p.as_str(), dot_dot) {
        Some(Component::ParentDir)
    } else {
        Some(Component::Normal(p))
    }
}

/// The components of a path, as `path_components` states.
pub fn components(s: &str) -> (res: Vec<Component>)
    ensures
        component_views(res@) == path_components(s@),
{
    let n = s.unicode_len();
    let mut out: Vec<Component> = Vec::new();
    if is_rooted_exec(s) {
        out.push(Component::RootDir);
    } else if prefix_len_exec(s) == 1 {
        out.push(Component::CurDir);
    }
    let start = prefix_len_exec(s);
    let body = s.substring_char(start, n);
    assert(body@ =~= s@.skip(prefix_len(s@)));
    let mut pieces = split_str(body, '/');
    let ghost all = views(pieces@);
    let ghost head = component_views(out@);
    let mut i: usize = 0;
    let k = pieces.len();
    // Walk the pieces from the front, keeping the pieces seen so far.
    while i < k
        invariant
            k == all.len(),
            i <= k,
            all == split_on(body@, '/'),
            component_views(out@) == head + body_components(all.subrange(0, i as int)),
            pieces@.len() == k - i,
            forall|j: int| 0 <= j < k - i ==> pieces@[j]@ == all[i + j],
        decreases k - i,
    {
        let p = pieces.remove(0);
        let ghost pv = p@;
        let ghost before = component_views(out@);
        proof {
            assert(pv == all[i as int]);
            assert(all.subrange(0, i + 1).drop_last() =~= all.subrange(0, i as int));
            assert(all.subrange(0, i + 1).last() == pv);
        }
        match piece_to_component(p) {
            Some(c) => {
                out.push(c);
                assert(component_views(out@) =~= before.push(piece_component(pv)));
            },
            None => {},
        }
        i = i + 1;
    }
    assert(all.subrange(0, k as int) =~= all);
    assert(head == (if is_rooted(s@) {
        seq![PathComponent::RootDir]
    } else if starts_with_cur_dir(s@) {
        seq![PathComponent::CurDir]
    } else {
        Seq::empty()
    }));
    out
}

fn char_order(a: char, b: char) -> (res: Order)
    ensures
        res == (if (a as int) < (b as int) {
            Order::Less
        } else if (a as int) > (b as int) {
            Order::Greater
        } else {
            Order::Equal
        }),
{
    if a < b {
        Order::Less
    } else if a > b {
        Order::Greater
    } else {
        Order::Equal
    }
}

/// Lexicographic comparison of two strings, as `text_order` states.
pub fn compare_text(a: &str, b: &str) -> (res: Order)
    ensures
        res == text_order(a@, b@),
{
    let n = a.unicode_len();
    let m = b.unicode_len();
    let mut i: usize = 0;
    assert(a@.skip(0) =~= a@);
    assert(b@.skip(0) =~= b@);
    while i < n && i < m
        invariant
            n == a@.len(),
            m == b@.len(),
            i <= n,
            i <= m,
            text_order(a@, b@) == text_order(a@.skip(i as int), b@.skip(i as int)),
        decreases n - i,
    {
        let o = char_order(a.get_char(i), b.get_char(i));
        proof {
            assert(a@.skip(i as int)[0] == a@[i as int]);
            assert(b@.skip(i as int)[0] == b@[i as int]);
            assert(a@.skip(i as int).drop_first() =~= a@.skip(i + 1));
            assert(b@.skip(i as int).drop_first() =~= b@.skip(i + 1));
        }
        match o {
            Order::Equal => {
                i = i + 1;
            },
            _ => {
                return o;
            },
        }
    }
    if i == n && i == m {
        Order::Equal
    } else if i == n {
        Order::Less
    } else {
        Order::Greater
    }
}

fn component_rank_exec(c: &Component) -> (res: u8)
    ensures
        res as int == component_rank(c@),
{
    match c {
        Component::RootDir => 0,
        Component::CurDir => 1,
        Component::ParentDir => 2,
        Component::Normal(_) => 3,
    }
}

fn compare_component(a: &Component, b: &Component) -> (res: Order)
    ensures
        res == component_order(a@, b@),
{
    let ra = component_rank_exec(a);
    let rb = component_rank_exec(b);
    if ra < rb {
        Order::Less
    } else if ra > rb {
        Order::Greater
    } else {
        match (a, b) {
            (Component::Normal(x), Component::Normal(y)) => compare_text(x.as_str(), y.as_str()),
            _ => Order::Equal,
        }
    }
}

/// Comparison of two paths by their components, as `path_order` states.
pub fn compare_paths(a: &str, b: &str) -> (res: Order)
    ensures
        res == path_order(a@, b@),
{
    let ca = components(a);
    let cb = components(b);
    let ghost va = component_views(ca@);
    let ghost vb = component_views(cb@);
    let n = ca.len();
    let m = cb.len();
    let mut i: usize = 0;
    assert(va.skip(0) =~= va);
    assert(vb.skip(0) =~= vb);
    while i < n && i < m
        invariant
            n == ca@.len(),
            m == cb@.len(),
            va == component_views(ca@),
            vb == component_views(cb@),
            va == path_components(a@),
            vb == path_components(b@),
            i <= n,
            i <= m,
            components_order(va, vb) == components_order(va.skip(i as int), vb.skip(i as int)),
        decreases n - i,
    {
        let o = compare_component(&ca[i], &cb[i]);
        proof {
            assert(va.skip(i as int)[0] == va[i as int]);
            assert(vb.skip(i as int)[0] == vb[i as int]);
            assert(va.skip(i as int).drop_first() =~= va.skip(i + 1));
            assert(vb.skip(i as int).drop_first() =~= vb.skip(i + 1));
        }
        match o {
            Order::Equal => {
                i = i + 1;
            },
            _ => {
                return o;
            },
        }
    }
    if i == n && i == m {
        Order::Equal
    } else if i == n {
        Order::Less
    } else {
        Order::Greater
    }
}

/// Whether two strings name the same path, as `same_path` states.
pub fn is_same_path(a: &str, b: &str) -> (res: bool)
    ensures
        res == same_path(a@, b@),
{
    let o = compare_paths(a, b);
    proof {
        lemma_components_order(path_components(a@), path_components(b@));
    }
    match o {
        Order::Equal => true,
        _ => false,
    }
}

/// Position of the last `c` in `s`, as `rfind_char` states.
fn last_index_of_char(s: &str, c: char) -> (res: Option<usize>)
    ensures
        match res {
            Some(i) => rfind_char(s@, c) == Some(i as int),
            None => rfind_char(s@, c) is None,
        },
{
    let n = s.unicode_len();
    let mut i: usize = n;
    assert(s@.take(n as int) =~= s@);
    while i > 0
        invariant
            n == s@.len(),
            i <= n,
            rfind_char(s@, c) == rfind_char(s@.take(i as int), c),
        decreases i,
    {
        let ghost t = s@.take(i as int);
        assert(t.drop_last() =~= s@.take(i - 1));
        if s.get_char(i - 1) == c {
            return Some(i - 1);
        }
        i = i - 1;
    }
    None
}

fn last_piece_exec(t: &str) -> (res: (usize, String))
    requires
        t@.len() > prefix_len(t@),
    ensures
        res.0 as int == last_piece(t@).0,
        res.1@ == last_piece(t@).1,
{
    let n = t.unicode_len();
    let start = prefix_len_exec(t);
    let body = t.substring_char(start, n);
    assert(body@ =~= t@.skip(prefix_len(t@)));
    proof {
        lemma_rfind_char(body@, '/');
    }
    let k = body.unicode_len();
    match last_index_of_char(body, '/') {
        None => (k, String::from_str(body)),
        Some(i) => (k - i, substring(body, i + 1, k)),
    }
}

fn is_skipped_piece_exec(p: &str) -> (res: bool)
    ensures
        res == is_skipped_piece(p@),
{
    let dot = ".";
    proof {
        reveal_strlit(".");
        assert(dot@ =~= dot_text());
    }
    p.unicode_len() == 0 || str_equal(p, dot)
}

/// `s` without trailing separators and `.` pieces, as `trim_trailing` states.
fn trim_trailing_exec(s: &str) -> (res: String)
    ensures
        res@ == trim_trailing(s@),
{
    let mut t = String::from_str(s);
    loop
        invariant
            trim_trailing(t@) == trim_trailing(s@),
        decreases t@.len(),
    {
        let n = t.as_str().unicode_len();
        if n > prefix_len_exec(t.as_str()) {
            let (size, p) = last_piece_exec(t.as_str());
            proof {
                lemma_last_piece(t@);
            }
            if is_skipped_piece_exec(p.as_str()) {
                t = substring(t.as_str(), 0, n - size);
            } else {
                return t;
            }
        } else {
            return t;
        }
    }
}

/// The parent of a path, as `path_parent` states (Rust's `Path::parent`).
pub fn parent(s: &str) -> (res: Option<String>)
    ensures
        match res {
            Some(p) => path_parent(s@) == Some(p@),
            None => path_parent(s@) is None,
        },
{
    let mut t = String::from_str(s);
    loop
        invariant
            next_back(t@) == next_back(s@),
        decreases t@.len(),
    {
        let n = t.as_str().unicode_len();
        if n > prefix_len_exec(t.as_str()) {
            let (size, p) = last_piece_exec(t.as_str());
            proof {
                lemma_last_piece(t@);
            }
            let rem = substring(t.as_str(), 0, n - size);
            if is_skipped_piece_exec(p.as_str()) {
                t = rem;
            } else {
                return Some(trim_trailing_exec(rem.as_str()));
            }
        } else if n == 1 && is_rooted_exec(t.as_str()) {
            return None;
        } else if n == 1 && prefix_len_exec(t.as_str()) == 1 {
            let empty = String::new();
            proof {
                assert(trim_trailing(empty@) == empty@);
            }
            return Some(empty);
        } else {
            return None;
        }
    }
}


/// The path and its ancestors, nearest first: what popping the last
/// component off a `PathBuf` goes through until it has no parent.
pub open spec fn ancestor_chain(s: Seq<char>) -> Seq<Seq<char>>
    decreases s.len(),
{
    match path_parent(s) {
        Some(p) => {
            proof {
                lemma_parent_shorter(s);
            }
            seq![s] + ancestor_chain(p)
        },
        None => seq![s],
    }
}

/// The path and its ancestors, nearest first, as `ancestor_chain` states.
pub fn ancestors(s: &str) -> (res: Vec<String>)
    ensures
        views(res@) == ancestor_chain(s@),
{
    let mut out: Vec<String> = Vec::new();
    let mut cur = String::from_str(s);
    proof {
        assert(views(out@) + ancestor_chain(cur@) =~= ancestor_chain(s@));
    }
    loop
        invariant
            views(out@) + ancestor_chain(cur@) == ancestor_chain(s@),
        decreases cur@.len(),
    {
        let next = parent(cur.as_str());
        let ghost prev = views(out@);
        let ghost c = cur@;
        out.push(cur);
        proof {
            assert(views(out@) =~= prev.push(c));
        }
        match next {
            Some(p) => {
                proof {
                    lemma_parent_shorter(c);
                    assert(ancestor_chain(c) == seq![c] + ancestor_chain(p@));
                    assert(views(out@) + ancestor_chain(p@) =~= prev + ancestor_chain(c));
                }
                cur = p;
            },
            None => {
                proof {
                    assert(ancestor_chain(c) == seq![c]);
                    assert(views(out@) =~= prev + ancestor_chain(c));
                }
                return out;
            },
        }
    }
}


/// The pieces of the body of `s` (after its root or leading `.`), between
/// separators.
pub open spec fn body_pieces(s: Seq<char>) -> Seq<Seq<char>> {
    split_on(s.skip(prefix_len(s)), '/')
}

/// The pieces that follow the one naming the `j`-th component of the body
/// (all of them when `j` is zero).
pub open spec fn pieces_after(pieces: Seq<Seq<char>>, j: nat) -> Seq<Seq<char>>
    decreases pieces.len(),
{
    if j == 0 || pieces.len() == 0 {
        pieces
    } else if is_skipped_piece(pieces[0]) {
        pieces_after(pieces.drop_first(), j)
    } else {
        pieces_after(pieces.drop_first(), (j - 1) as nat)
    }
}

/// The pieces without the empty and `.` ones at their start.
pub open spec fn drop_leading_skipped(pieces: Seq<Seq<char>>) -> Seq<Seq<char>>
    decreases pieces.len(),
{
    if pieces.len() > 0 && is_skipped_piece(pieces[0]) {
        drop_leading_skipped(pieces.drop_first())
    } else {
        pieces
    }
}

/// The pieces without the empty and `.` ones at their end.
pub open spec fn drop_trailing_skipped(pieces: Seq<Seq<char>>) -> Seq<Seq<char>>
    decreases pieces.len(),
{
    if pieces.len() > 0 && is_skipped_piece(pieces.last()) {
        drop_trailing_skipped(pieces.drop_last())
    } else {
        pieces
    }
}

/// Rust's `Path::strip_prefix`: `None` unless the components of `base` begin
/// those of `s`; otherwise the text of `s` after them, without the
/// separators and `.` pieces at either end (at the end only, when `base`
/// has no component).
pub open spec fn strip_path_prefix(base: Seq<char>, s: Seq<char>) -> Option<Seq<char>> {
    let bc = path_components(base);
    let sc = path_components(s);
    if bc.len() > sc.len() || sc.take(bc.len() as int) != bc {
        None
    } else if bc.len() == 0 {
        Some(trim_trailing(s))
    } else {
        Some(
            join_with(
                drop_trailing_skipped(
                    drop_leading_skipped(
                        pieces_after(body_pieces(s), (bc.len() - prefix_len(s)) as nat),
                    ),
                ),
                seq!['/'],
            ),
        )
    }
}

/// `s` with the path `base` taken off its front, as `strip_path_prefix`
/// states.
pub fn strip_prefix(base: &str, s: &str) -> (res: Option<String>)
    ensures
        match res {
            Some(r) => strip_path_prefix(base@, s@) == Some(r@),
            None => strip_path_prefix(base@, s@) is None,
        },
{
    let bc = components(base);
    let sc = components(s);
    let ghost bv = component_views(bc@);
    let ghost sv = component_views(sc@);
    if bc.len() > sc.len() {
        return None;
    }
    let mut i: usize = 0;
    while i < bc.len()
        invariant
            bv == component_views(bc@),
            sv == component_views(sc@),
            bv == path_components(base@),
            sv == path_components(s@),
            bc@.len() <= sc@.len(),
            i <= bc@.len(),
            forall|k: int| 0 <= k < i ==> bv[k] == sv[k],
        decreases bc@.len() - i,
    {
        let o = compare_component(&bc[i], &sc[i]);
        proof {
            lemma_component_order(bv[i as int], sv[i as int]);
        }
        match o {
            Order::Equal => {},
            _ => {
                proof {
                    assert(sv.take(bv.len() as int)[i as int] != bv[i as int]);
                }
                return None;
            },
        }
        i = i + 1;
    }
    assert(sv.take(bv.len() as int) =~= bv);
    if bc.len() == 0 {
        return Some(trim_trailing_exec(s));
    }
    let n = s.unicode_len();
    let start = prefix_len_exec(s);
    let body = s.substring_char(start, n);
    assert(body@ =~= s@.skip(prefix_len(s@)));
    let pieces = split_str(body, '/');
    let ghost all = views(pieces@);
    let m = pieces.len();
    // When the path has a root or a leading `.`, that is its first
    // component, so `base` has it too.
    proof {
        if start == 1 {
            assert(sv[0] == bv[0]);
        }
    }
    let mut left: usize = bc.len() - start;
    let mut t: usize = 0;
    assert(all.skip(0) =~= all);
    while left > 0 && t < m
        invariant
            all == views(pieces@),
            m == all.len(),
            t <= m,
            pieces_after(all, (bv.len() - prefix_len(s@)) as nat) == pieces_after(
                all.skip(t as int),
                left as nat,
            ),
        decreases m - t,
    {
        let skipped = is_skipped_piece_exec(pieces[t].as_str());
        assert(all.skip(t as int).drop_first() =~= all.skip(t + 1));
        assert(all.skip(t as int)[0] == all[t as int]);
        if !skipped {
            left = left - 1;
        }
        t = t + 1;
    }
    let mut a: usize = t;
    assert(pieces_after(all.skip(t as int), left as nat) == all.skip(t as int)) by {
        if t == m {
            assert(all.skip(t as int).len() == 0);
        }
    }
    while a < m && is_skipped_piece_exec(pieces[a].as_str())
        invariant
            all == views(pieces@),
            m == all.len(),
            t <= a <= m,
            drop_leading_skipped(all.skip(t as int)) == drop_leading_skipped(all.skip(a as int)),
        decreases m - a,
    {
        assert(all.skip(a as int).drop_first() =~= all.skip(a + 1));
        assert(all.skip(a as int)[0] == all[a as int]);
        a = a + 1;
    }
    proof {
        if a < m {
            assert(all.skip(a as int)[0] == all[a as int]);
        }
        assert(drop_leading_skipped(all.skip(a as int)) == all.skip(a as int));
        assert(all.skip(a as int) =~= all.subrange(a as int, m as int));
    }
    let mut b: usize = m;
    while b > a && is_skipped_piece_exec(pieces[b - 1].as_str())
        invariant
            all == views(pieces@),
            m == all.len(),
            a <= b <= m,
            drop_trailing_skipped(all.subrange(a as int, m as int)) == drop_trailing_skipped(
                all.subrange(a as int, b as int),
            ),
        decreases b - a,
    {
        assert(all.subrange(a as int, b as int).drop_last() =~= all.subrange(a as int, b - 1));
        assert(all.subrange(a as int, b as int).last() == all[b - 1]);
        b = b - 1;
    }
    proof {
        if b > a {
            assert(all.subrange(a as int, b as int).last() == all[b - 1]);
        }
        assert(drop_trailing_skipped(all.subrange(a as int, b as int)) == all.subrange(
            a as int,
            b as int,
        ));
    }
    let mut kept: Vec<String> = Vec::new();
    let mut k: usize = a;
    while k < b
        invariant
            all == views(pieces@),
            m == all.len(),
            a <= k <= b <= m,
            views(kept@) == all.subrange(a as int, k as int),
        decreases b - k,
    {
        let ghost prev = views(kept@);
        let piece = pieces[k].clone();
        assert(piece@ == all[k as int]);
        kept.push(piece);
        assert(views(kept@) =~= prev.push(all[k as int]));
        assert(all.subrange(a as int, k + 1) =~= all.subrange(a as int, k as int).push(all[k as int]));
        k = k + 1;
    }
    let sep = "/";
    proof {
        reveal_strlit("/");
        assert(sep@ =~= seq!['/']);
    }
    Some(join_strings(&kept, sep))
}

/// Why a path cannot be made relative to a repository.
#[derive(Debug, Clone, Copy, PartialEq, Eq, Structural)]
pub enum RepoPathError {
    /// The path is not inside the repository.
    OutsideRepository,
}

/// A path inside the repository at `repo_path`, relative to it: `None`
/// when what is left is the root directory itself.
pub fn treat_path(repo_path: &str, path: &str) -> (res: Result<Option<String>, RepoPathError>)
    ensures
        match strip_path_prefix(repo_path@, path@) {
            None => res == Err::<Option<String>, RepoPathError>(RepoPathError::OutsideRepository),
            Some(p) => if same_path(p, seq!['/']) {
                res matches Ok(None)
            } else {
                res matches Ok(Some(r)) && r@ == p
            },
        },
{
    match strip_prefix(repo_path, path) {
        None => Err(RepoPathError::OutsideRepository),
        Some(p) => {
            let root = "/";
            proof {
                reveal_strlit("/");
                assert(root@ =~= seq!['/']);
            }
            if is_same_path(p.as_str(), root) {
                Ok(None)
            } else {
                Ok(Some(p))
            }
        },
    }
}

} // verus!
