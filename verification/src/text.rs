//! Character-level helpers on strings, with the specifications that the
//! parsers and printers of the crate are stated over.

use vstd::prelude::*;

verus! {

/// Index of the first occurrence of `c` in `s`.
pub open spec fn find_char(s: Seq<char>, c: char) -> Option<int>
    decreases s.len(),
{
    if s.len() == 0 {
        None
    } else if s[0] == c {
        Some(0)
    } else {
        match find_char(s.drop_first(), c) {
            Some(i) => Some(i + 1),
            None => None,
        }
    }
}

/// `i` is the position of the first `c` in `s`.
pub open spec fn is_first_index(s: Seq<char>, c: char, i: int) -> bool {
    &&& 0 <= i < s.len()
    &&& s[i] == c
    &&& forall|j: int| 0 <= j < i ==> s[j] != c
}

pub proof fn lemma_find_char(s: Seq<char>, c: char)
    ensures
        match find_char(s, c) {
            Some(i) => is_first_index(s, c, i),
            None => forall|j: int| 0 <= j < s.len() ==> s[j] != c,
        },
    decreases s.len(),
{
    if s.len() > 0 && s[0] != c {
        lemma_find_char(s.drop_first(), c);
        match find_char(s.drop_first(), c) {
            Some(i) => {
                assert forall|j: int| 0 <= j < i + 1 implies s[j] != c by {
                    if j > 0 {
                        assert(s[j] == s.drop_first()[j - 1]);
                    }
                }
            },
            None => {
                assert forall|j: int| 0 <= j < s.len() implies s[j] != c by {
                    if j > 0 {
                        assert(s[j] == s.drop_first()[j - 1]);
                    }
                }
            },
        }
    }
}

/// The first occurrence of `c` is characterised by `is_first_index`.
pub proof fn lemma_find_char_iff(s: Seq<char>, c: char, i: int)
    ensures
        find_char(s, c) == Some(i) <==> is_first_index(s, c, i),
        (find_char(s, c) is None) <==> (forall|j: int| 0 <= j < s.len() ==> s[j] != c),
{
    lemma_find_char(s, c);
}

/// `s` contains no `c`.
pub open spec fn no_char(s: Seq<char>, c: char) -> bool {
    forall|j: int| 0 <= j < s.len() ==> s[j] != c
}

/// Rust's `str::split_once(c)` on a character.
pub open spec fn split_once(s: Seq<char>, c: char) -> Option<(Seq<char>, Seq<char>)> {
    match find_char(s, c) {
        Some(i) => Some((s.take(i), s.skip(i + 1))),
        None => None,
    }
}

/// Index of the first occurrence of the two-character pattern `a b` in `s`.
pub open spec fn find_pair(s: Seq<char>, a: char, b: char) -> Option<int>
    decreases s.len(),
{
    if s.len() < 2 {
        None
    } else if s[0] == a && s[1] == b {
        Some(0)
    } else {
        match find_pair(s.drop_first(), a, b) {
            Some(i) => Some(i + 1),
            None => None,
        }
    }
}

pub open spec fn pair_at(s: Seq<char>, a: char, b: char, i: int) -> bool {
    0 <= i && i + 1 < s.len() && s[i] == a && s[i + 1] == b
}

pub proof fn lemma_find_pair(s: Seq<char>, a: char, b: char)
    ensures
        match find_pair(s, a, b) {
            Some(i) => pair_at(s, a, b, i) && forall|j: int| 0 <= j < i ==> !pair_at(s, a, b, j),
            None => forall|j: int| !pair_at(s, a, b, j),
        },
    decreases s.len(),
{
    if s.len() >= 2 && !(s[0] == a && s[1] == b) {
        let t = s.drop_first();
        lemma_find_pair(t, a, b);
        assert forall|j: int| j > 0 implies pair_at(s, a, b, j) == pair_at(t, a, b, j - 1) by {}
        match find_pair(t, a, b) {
            Some(i) => {
                assert(pair_at(t, a, b, i));
                assert forall|j: int| 0 <= j < i + 1 implies !pair_at(s, a, b, j) by {
                    if j > 0 {
                        assert(!pair_at(t, a, b, j - 1));
                    }
                }
            },
            None => {
                assert forall|j: int| !pair_at(s, a, b, j) by {
                    if j > 0 {
                        assert(!pair_at(t, a, b, j - 1));
                    }
                }
            },
        }
    }
}

/// Rust's `str::split_once` on the two-character pattern `a b`.
pub open spec fn split_once_pair(s: Seq<char>, a: char, b: char) -> Option<(Seq<char>, Seq<char>)> {
    match find_pair(s, a, b) {
        Some(i) => Some((s.take(i), s.skip(i + 2))),
        None => None,
    }
}

/// Rust's `str::split(c)`: the pieces between occurrences of `c` (always at
/// least one).
pub open spec fn split_on(s: Seq<char>, c: char) -> Seq<Seq<char>>
    decreases s.len(),
{
    match find_char(s, c) {
        Some(i) => {
            proof {
                lemma_find_char(s, c);
            }
            seq![s.take(i)] + split_on(s.skip(i + 1), c)
        },
        None => seq![s],
    }
}

/// Pieces joined with `sep` between them (Rust's `[String]::join`).
pub open spec fn join_with(pieces: Seq<Seq<char>>, sep: Seq<char>) -> Seq<char>
    decreases pieces.len(),
{
    if pieces.len() == 0 {
        Seq::empty()
    } else if pieces.len() == 1 {
        pieces[0]
    } else {
        pieces[0] + sep + join_with(pieces.drop_first(), sep)
    }
}

/// The views of a sequence of strings.
pub open spec fn views(v: Seq<String>) -> Seq<Seq<char>> {
    v.map_values(|x: String| x@)
}

/// A join of pieces and a separator that hold no `c` holds no `c`.
pub proof fn lemma_join_no_char(pieces: Seq<Seq<char>>, sep: Seq<char>, c: char)
    requires
        no_char(sep, c),
        forall|i: int| 0 <= i < pieces.len() ==> no_char(#[trigger] pieces[i], c),
    ensures
        no_char(join_with(pieces, sep), c),
    decreases pieces.len(),
{
    if pieces.len() > 1 {
        let rest = pieces.drop_first();
        assert forall|i: int| 0 <= i < rest.len() implies no_char(#[trigger] rest[i], c) by {
            assert(rest[i] == pieces[i + 1]);
        }
        lemma_join_no_char(rest, sep, c);
        assert(no_char(pieces[0], c));
        let j = join_with(pieces, sep);
        assert(j == pieces[0] + sep + join_with(rest, sep));
        assert forall|k: int| 0 <= k < j.len() implies j[k] != c by {
            if k < pieces[0].len() {
                assert(j[k] == pieces[0][k]);
            } else if k < pieces[0].len() + sep.len() {
                assert(j[k] == sep[k - pieces[0].len()]);
            } else {
                assert(j[k] == join_with(rest, sep)[k - pieces[0].len() - sep.len()]);
            }
        }
    } else if pieces.len() == 1 {
        assert(no_char(pieces[0], c));
    }
}

/// Joining one more piece appends the separator and the piece.
pub proof fn lemma_join_push(pieces: Seq<Seq<char>>, x: Seq<char>, sep: Seq<char>)
    requires
        pieces.len() > 0,
    ensures
        join_with(pieces.push(x), sep) == join_with(pieces, sep) + sep + x,
    decreases pieces.len(),
{
    if pieces.len() == 1 {
        let p = pieces.push(x);
        assert(p.drop_first() =~= seq![x]);
        assert(join_with(seq![x], sep) == x);
        assert(p[0] == pieces[0]);
        assert(join_with(p, sep) == p[0] + sep + join_with(p.drop_first(), sep));
        assert(join_with(p, sep) =~= pieces[0] + sep + x);
    } else {
        let rest = pieces.drop_first();
        lemma_join_push(rest, x, sep);
        assert(pieces.push(x).drop_first() =~= rest.push(x));
        assert(join_with(pieces.push(x), sep) =~= join_with(pieces, sep) + sep + x);
    }
}

/// Splitting the join of pieces that hold no separator gives the pieces back.
pub proof fn lemma_split_join(pieces: Seq<Seq<char>>, c: char)
    requires
        pieces.len() > 0,
        forall|i: int| 0 <= i < pieces.len() ==> no_char(#[trigger] pieces[i], c),
    ensures
        split_on(join_with(pieces, seq![c]), c) == pieces,
    decreases pieces.len(),
{
    let j = join_with(pieces, seq![c]);
    if pieces.len() == 1 {
        lemma_find_char(pieces[0], c);
        assert(split_on(j, c) =~= pieces);
    } else {
        let rest = pieces.drop_first();
        assert forall|i: int| 0 <= i < rest.len() implies no_char(#[trigger] rest[i], c) by {
            assert(rest[i] == pieces[i + 1]);
        }
        lemma_split_join(rest, c);
        let k = pieces[0].len() as int;
        assert(is_first_index(j, c, k)) by {
            assert(no_char(pieces[0], c));
            assert forall|x: int| 0 <= x < k implies j[x] != c by {
                assert(j[x] == pieces[0][x]);
            }
        }
        lemma_find_char_iff(j, c, k);
        assert(j.take(k) =~= pieces[0]);
        assert(j.skip(k + 1) =~= join_with(rest, seq![c]));
        assert(split_on(j, c) =~= pieces);
    }
}

/// ASCII lower-casing of one character.
pub open spec fn ascii_lower(c: char) -> char {
    if 'A' <= c <= 'Z' {
        ((c as u32) + 32) as char
    } else {
        c
    }
}

/// Rust's `str::eq_ignore_ascii_case`.
pub open spec fn eq_ignore_ascii_case(a: Seq<char>, b: Seq<char>) -> bool {
    &&& a.len() == b.len()
    &&& forall|i: int| 0 <= i < a.len() ==> ascii_lower(a[i]) == ascii_lower(b[i])
}

/// Position of the first `c` in `s`, as `find_char` states.
pub fn index_of_char(s: &str, c: char) -> (res: Option<usize>)
    ensures
        match res {
            Some(i) => find_char(s@, c) == Some(i as int),
            None => find_char(s@, c) is None,
        },
{
    let n = s.unicode_len();
    let mut i: usize = 0;
    while i < n
        invariant
            n == s@.len(),
            i <= n,
            forall|j: int| 0 <= j < i ==> s@[j] != c,
        decreases n - i,
    {
        if s.get_char(i) == c {
            proof {
                lemma_find_char_iff(s@, c, i as int);
            }
            return Some(i);
        }
        i = i + 1;
    }
    proof {
        lemma_find_char_iff(s@, c, 0);
    }
    None
}

/// Position of the first `a b` in `s`, as `find_pair` states.
pub fn index_of_pair(s: &str, a: char, b: char) -> (res: Option<usize>)
    ensures
        match res {
            Some(i) => find_pair(s@, a, b) == Some(i as int),
            None => find_pair(s@, a, b) is None,
        },
{
    proof {
        lemma_find_pair(s@, a, b);
    }
    let n = s.unicode_len();
    let mut i: usize = 0;
    while n > 0 && i < n - 1
        invariant
            n == s@.len(),
            forall|j: int| 0 <= j < i ==> !pair_at(s@, a, b, j),
        decreases n - i,
    {
        if s.get_char(i) == a && s.get_char(i + 1) == b {
            assert(pair_at(s@, a, b, i as int));
            proof {
                lemma_find_pair(s@, a, b);
            }
            return Some(i);
        }
        i = i + 1;
    }
    assert forall|j: int| !pair_at(s@, a, b, j) by {
        if j >= i {
            assert(!(j + 1 < s@.len()));
        }
    }
    None
}

/// Rust's `str::split(c)`, collected into owned pieces.
pub fn split_str(s: &str, c: char) -> (res: Vec<String>)
    ensures
        views(res@) == split_on(s@, c),
{
    let n = s.unicode_len();
    let mut pieces: Vec<String> = Vec::new();
    let mut start: usize = 0;
    let mut i: usize = 0;
    proof {
        assert(views(pieces@) =~= Seq::<Seq<char>>::empty());
        assert(s@.subrange(0, n as int) =~= s@);
        assert(views(pieces@) + split_on(s@.subrange(0, n as int), c) =~= split_on(s@, c));
    }
    while i < n
        invariant
            n == s@.len(),
            start <= i <= n,
            views(pieces@) + split_on(s@.subrange(start as int, n as int), c) == split_on(s@, c),
            forall|j: int| start <= j < i ==> s@[j] != c,
        decreases n - i,
    {
        if s.get_char(i) == c {
            let ghost t = s@.subrange(start as int, n as int);
            proof {
                assert(is_first_index(t, c, i - start));
                lemma_find_char_iff(t, c, i - start);
                assert(t.take(i - start) =~= s@.subrange(start as int, i as int));
                assert(t.skip(i - start + 1) =~= s@.subrange(i + 1, n as int));
            }
            let piece = substring(s, start, i);
            let ghost old_pieces = pieces@;
            pieces.push(piece);
            proof {
                assert(views(pieces@) =~= views(old_pieces).push(piece@));
                assert(views(pieces@) + split_on(s@.subrange(i + 1, n as int), c) =~= views(
                    old_pieces,
                ) + split_on(t, c));
            }
            start = i + 1;
        }
        i = i + 1;
    }
    let ghost t = s@.subrange(start as int, n as int);
    proof {
        lemma_find_char_iff(t, c, 0);
    }
    let piece = substring(s, start, n);
    let ghost old_pieces = pieces@;
    pieces.push(piece);
    proof {
        assert(views(pieces@) =~= views(old_pieces).push(piece@));
        assert(views(pieces@) =~= views(old_pieces) + split_on(t, c));
    }
    pieces
}

/// The pieces joined with `sep` between them.
pub fn join_strings(pieces: &Vec<String>, sep: &str) -> (res: String)
    ensures
        res@ == join_with(views(pieces@), sep@),
{
    let n = pieces.len();
    if n == 0 {
        return String::new();
    }
    let mut acc = pieces[n - 1].clone();
    let mut k: usize = n - 1;
    while k > 0
        invariant
            n == pieces@.len(),
            k < n,
            acc@ == join_with(views(pieces@).subrange(k as int, n as int), sep@),
        decreases k,
    {
        let ghost tail = views(pieces@).subrange(k as int, n as int);
        let front = String::from_str(pieces[k - 1].as_str());
        let with_sep = front.concat(sep);
        acc = with_sep.concat(acc.as_str());
        proof {
            let whole = views(pieces@).subrange(k - 1, n as int);
            assert(whole.drop_first() =~= tail);
            assert(whole[0] == pieces@[k - 1]@);
        }
        k = k - 1;
    }
    proof {
        assert(views(pieces@).subrange(0, n as int) =~= views(pieces@));
    }
    acc
}

/// `s[from..to]` as an owned string.
pub fn substring(s: &str, from: usize, to: usize) -> (res: String)
    requires
        from <= to <= s@.len(),
    ensures
        res@ == s@.subrange(from as int, to as int),
{
    let piece = s.substring_char(from, to);
    String::from_str(piece)
}

/// Equality of two string slices by their characters.
pub fn str_equal(a: &str, b: &str) -> (res: bool)
    ensures
        res == (a@ == b@),
{
    let n = a.unicode_len();
    if n != b.unicode_len() {
        return false;
    }
    let mut i: usize = 0;
    while i < n
        invariant
            n == a@.len(),
            n == b@.len(),
            i <= n,
            forall|j: int| 0 <= j < i ==> a@[j] == b@[j],
        decreases n - i,
    {
        if a.get_char(i) != b.get_char(i) {
            return false;
        }
        i = i + 1;
    }
    assert(a@ =~= b@);
    true
}

/// ASCII lower-casing of one character.
pub fn to_ascii_lower(c: char) -> (res: char)
    ensures
        res == ascii_lower(c),
{
    if 'A' <= c && c <= 'Z' {
        let code: u32 = (c as u32) + 32;
        assert(code <= 0x7f);
        char_from_ascii(code)
    } else {
        c
    }
}

/// The character of an ASCII code point.
fn char_from_ascii(code: u32) -> (res: char)
    requires
        code <= 0x7f,
    ensures
        res == code as char,
{
    let byte: u8 = code as u8;
    byte as char
}

/// Rust's `str::eq_ignore_ascii_case`.
pub fn equals_ignore_ascii_case(a: &str, b: &str) -> (res: bool)
    ensures
        res == eq_ignore_ascii_case(a@, b@),
{
    let n = a.unicode_len();
    if n != b.unicode_len() {
        return false;
    }
    let mut i: usize = 0;
    while i < n
        invariant
            n == a@.len(),
            n == b@.len(),
            i <= n,
            forall|j: int| 0 <= j < i ==> ascii_lower(a@[j]) == ascii_lower(b@[j]),
        decreases n - i,
    {
        if to_ascii_lower(a.get_char(i)) != to_ascii_lower(b.get_char(i)) {
            return false;
        }
        i = i + 1;
    }
    true
}

/// A copy of a vector of strings.
pub fn copy_strings(v: &Vec<String>) -> (res: Vec<String>)
    ensures
        res@ == v@,
{
    let mut out: Vec<String> = Vec::new();
    let mut i: usize = 0;
    while i < v.len()
        invariant
            i <= v@.len(),
            out@ == v@.subrange(0, i as int),
        decreases v@.len() - i,
    {
        out.push(v[i].clone());
        proof {
            assert(v@.subrange(0, i + 1) =~= v@.subrange(0, i as int).push(v@[i as int]));
        }
        i = i + 1;
    }
    assert(v@.subrange(0, v@.len() as int) =~= v@);
    out
}

/// Equality of two vectors of strings by their characters.
pub fn strings_equal(a: &Vec<String>, b: &Vec<String>) -> (res: bool)
    ensures
        res == (views(a@) == views(b@)),
{
    if a.len() != b.len() {
        assert(views(a@).len() != views(b@).len());
        return false;
    }
    let mut i: usize = 0;
    while i < a.len()
        invariant
            a@.len() == b@.len(),
            i <= a@.len(),
            forall|j: int| 0 <= j < i ==> a@[j]@ == b@[j]@,
        decreases a@.len() - i,
    {
        if a[i] != b[i] {
            assert(views(a@)[i as int] != views(b@)[i as int]);
            return false;
        }
        i = i + 1;
    }
    assert(views(a@) =~= views(b@));
    true
}

/// Equality of two optional strings by their characters.
pub fn optional_strings_equal(a: &Option<String>, b: &Option<String>) -> (res: bool)
    ensures
        res == (optional_view(*a) == optional_view(*b)),
{
    match (a, b) {
        (Some(x), Some(y)) => *x == *y,
        (None, None) => true,
        _ => false,
    }
}

/// The view of an optional string.
pub open spec fn optional_view(o: Option<String>) -> Option<Seq<char>> {
    match o {
        Some(s) => Some(s@),
        None => None,
    }
}

/// Membership of a string, by its characters, in a vector of strings.
pub fn contains_string(v: &Vec<String>, s: &str) -> (res: bool)
    ensures
        res == views(v@).contains(s@),
{
    let mut i: usize = 0;
    while i < v.len()
        invariant
            i <= v@.len(),
            forall|j: int| 0 <= j < i ==> v@[j]@ != s@,
        decreases v@.len() - i,
    {
        if str_equal(v[i].as_str(), s) {
            assert(views(v@)[i as int] == s@);
            return true;
        }
        i = i + 1;
    }
    assert forall|j: int| 0 <= j < views(v@).len() implies views(v@)[j] != s@ by {
        assert(views(v@)[j] == v@[j]@);
    }
    false
}


/// The decimal digit `d` as a character.
pub open spec fn digit_char(d: int) -> char {
    if d == 0 {
        '0'
    } else if d == 1 {
        '1'
    } else if d == 2 {
        '2'
    } else if d == 3 {
        '3'
    } else if d == 4 {
        '4'
    } else if d == 5 {
        '5'
    } else if d == 6 {
        '6'
    } else if d == 7 {
        '7'
    } else if d == 8 {
        '8'
    } else {
        '9'
    }
}

/// `n` written in decimal, without leading zeros.
pub open spec fn decimal_text(n: nat) -> Seq<char>
    decreases n,
{
    if n < 10 {
        seq![digit_char(n as int)]
    } else {
        decimal_text(n / 10) + seq![digit_char((n % 10) as int)]
    }
}

/// Ten to the power `k`.
pub open spec fn pow10(k: nat) -> nat
    decreases k,
{
    if k == 0 {
        1
    } else {
        10 * pow10((k - 1) as nat)
    }
}

proof fn lemma_decimal_text_digits(n: nat, k: nat)
    requires
        k >= 1,
        n < pow10(k),
    ensures
        decimal_text(n).len() <= k,
    decreases k,
{
    if n >= 10 {
        let k1 = (k - 1) as nat;
        if k == 1 {
            assert(pow10(1) == 10 * pow10(0));
        }
        assert(k1 >= 1);
        let p = pow10(k1);
        assert(n < 10 * p);
        assert(n / 10 < p) by (nonlinear_arith)
            requires
                n < 10 * p,
        ;
        lemma_decimal_text_digits(n / 10, k1);
    }
}

/// A 64-bit number has at most twenty decimal digits.
pub proof fn lemma_decimal_text_len(n: nat)
    requires
        n <= 0xFFFF_FFFF_FFFF_FFFF,
    ensures
        decimal_text(n).len() <= 20,
{
    assert(pow10(20) == 100000000000000000000nat) by {
        reveal_with_fuel(pow10, 21);
    }
    lemma_decimal_text_digits(n, 20);
}

fn digit_string(d: usize) -> (res: String)
    requires
        d < 10,
    ensures
        res@ == seq![digit_char(d as int)],
{
    let lit = if d == 0 {
        proof { reveal_strlit("0"); }
        "0"
    } else if d == 1 {
        proof { reveal_strlit("1"); }
        "1"
    } else if d == 2 {
        proof { reveal_strlit("2"); }
        "2"
    } else if d == 3 {
        proof { reveal_strlit("3"); }
        "3"
    } else if d == 4 {
        proof { reveal_strlit("4"); }
        "4"
    } else if d == 5 {
        proof { reveal_strlit("5"); }
        "5"
    } else if d == 6 {
        proof { reveal_strlit("6"); }
        "6"
    } else if d == 7 {
        proof { reveal_strlit("7"); }
        "7"
    } else if d == 8 {
        proof { reveal_strlit("8"); }
        "8"
    } else {
        proof { reveal_strlit("9"); }
        "9"
    };
    assert(lit@ =~= seq![digit_char(d as int)]);
    String::from_str(lit)
}

/// `n` written in decimal.
pub fn decimal_string(n: usize) -> (res: String)
    ensures
        res@ == decimal_text(n as nat),
    decreases n,
{
    if n < 10 {
        digit_string(n)
    } else {
        let head = decimal_string(n / 10);
        let tail = digit_string(n % 10);
        head.concat(tail.as_str())
    }
}


/// A line without the `\r` of a `\r\n` line ending.
pub open spec fn strip_cr(p: Seq<char>) -> Seq<char> {
    if p.len() > 0 && p.last() == '\r' {
        p.drop_last()
    } else {
        p
    }
}

/// Rust's `str::lines`: the pieces between `\n` line endings, each without
/// the `\r` of a `\r\n` ending; a final line ending adds no empty line.
pub open spec fn text_lines(s: Seq<char>) -> Seq<Seq<char>> {
    let pieces = split_on(s, '\n');
    let body = pieces.drop_last().map_values(|p: Seq<char>| strip_cr(p));
    if pieces.last().len() == 0 {
        body
    } else {
        body.push(pieces.last())
    }
}

/// There is always at least one piece.
pub proof fn lemma_split_on_nonempty(s: Seq<char>, c: char)
    ensures
        split_on(s, c).len() >= 1,
{
}

/// The lines of a text, as `text_lines` states.
pub fn text_lines_of(s: &str) -> (res: Vec<String>)
    ensures
        views(res@) == text_lines(s@),
{
    let pieces = split_str(s, '\n');
    let ghost all = views(pieces@);
    proof {
        lemma_split_on_nonempty(s@, '\n');
    }
    let n = pieces.len();
    let mut out: Vec<String> = Vec::new();
    let mut i: usize = 0;
    while i + 1 < n
        invariant
            n == all.len(),
            n >= 1,
            all == views(pieces@),
            i < n,
            views(out@) == all.subrange(0, i as int).map_values(|p: Seq<char>| strip_cr(p)),
        decreases n - i,
    {
        let piece = pieces[i].as_str();
        let len = piece.unicode_len();
        let line = if len > 0 && piece.get_char(len - 1) == '\r' {
            substring(piece, 0, len - 1)
        } else {
            String::from_str(piece)
        };
        proof {
            assert(piece@ == all[i as int]);
            assert(line@ == strip_cr(all[i as int]));
        }
        let ghost prev = views(out@);
        out.push(line);
        proof {
            assert(views(out@) =~= prev.push(line@));
            assert(all.subrange(0, i + 1).map_values(|p: Seq<char>| strip_cr(p)) =~= all.subrange(
                0,
                i as int,
            ).map_values(|p: Seq<char>| strip_cr(p)).push(strip_cr(all[i as int])));
        }
        i = i + 1;
    }
    proof {
        assert(all.subrange(0, i as int) =~= all.drop_last());
    }
    let last = pieces[n - 1].as_str();
    if last.unicode_len() > 0 {
        let ghost prev = views(out@);
        out.push(String::from_str(last));
        proof {
            assert(views(out@) =~= prev.push(all.last()));
        }
    }
    out
}

} // verus!
