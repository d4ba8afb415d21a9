//! Whether changes since the last sync touch the build graph: reading the
//! paths out of Git's status output, and the verdict that is reported.
//! Running Git is left to the caller.

use vstd::prelude::*;
use crate::config::ExitCode;
use crate::text::{eq_ignore_ascii_case, equals_ignore_ascii_case};

verus! {

/// Rust's `char::is_ascii_whitespace`: space, tab, line feed, form feed and
/// carriage return.
pub open spec fn is_ascii_ws(c: char) -> bool {
    c == ' ' || c == '\t' || c == '\n' || c == '\x0C' || c == '\r'
}

/// The index of the first ASCII white space character, or the length.
pub open spec fn word_end(s: Seq<char>) -> int
    decreases s.len(),
{
    if s.len() == 0 || is_ascii_ws(s[0]) {
        0
    } else {
        1 + word_end(s.drop_first())
    }
}

pub proof fn lemma_word_end(s: Seq<char>)
    ensures
        0 <= word_end(s) <= s.len(),
        forall|j: int| 0 <= j < word_end(s) ==> !is_ascii_ws(#[trigger] s[j]),
        word_end(s) < s.len() ==> is_ascii_ws(s[word_end(s)]),
    decreases s.len(),
{
    if s.len() > 0 && !is_ascii_ws(s[0]) {
        lemma_word_end(s.drop_first());
        assert forall|j: int| 0 <= j < word_end(s) implies !is_ascii_ws(#[trigger] s[j]) by {
            if j > 0 {
                assert(s[j] == s.drop_first()[j - 1]);
            }
        }
    }
}

/// Rust's `str::split_ascii_whitespace`: the nonempty runs of characters
/// between ASCII white space.
pub open spec fn ascii_words(s: Seq<char>) -> Seq<Seq<char>>
    decreases s.len(),
{
    if s.len() == 0 {
        Seq::empty()
    } else if is_ascii_ws(s[0]) {
        ascii_words(s.drop_first())
    } else {
        proof {
            lemma_word_end(s);
        }
        seq![s.take(word_end(s))] + ascii_words(s.skip(word_end(s)))
    }
}

/// Why a line of `git status --porcelain` could not be read.
#[derive(Debug, Clone, Copy, PartialEq, Eq, Structural)]
pub enum StatusLineError {
    /// The line has no status.
    MissingStatus,
    /// The line has a status but no path.
    MissingPath,
}

/// The first word of `s` and what follows it, where `s` has a word.
fn next_word(s: &str, from: usize) -> (res: Option<(usize, usize)>)
    requires
        from <= s@.len(),
    ensures
        match res {
            Some((start, end)) => from <= start < end <= s@.len() && ascii_words(s@.skip(from as int)) == seq![
                s@.subrange(start as int, end as int),
            ] + ascii_words(s@.skip(end as int)),
            None => ascii_words(s@.skip(from as int)).len() == 0,
        },
{
    let n = s.unicode_len();
    let mut i = from;
    while i < n && is_ws(s.get_char(i))
        invariant
            from <= i <= n,
            n == s@.len(),
            ascii_words(s@.skip(from as int)) == ascii_words(s@.skip(i as int)),
        decreases n - i,
    {
        proof {
            assert(s@.skip(i as int).drop_first() =~= s@.skip(i + 1));
        }
        i = i + 1;
    }
    if i == n {
        proof {
            assert(s@.skip(i as int) =~= Seq::<char>::empty());
        }
        return None;
    }
    let start = i;
    let ghost t = s@.skip(start as int);
    while i < n && !is_ws(s.get_char(i))
        invariant
            start <= i <= n,
            n == s@.len(),
            t == s@.skip(start as int),
            forall|j: int| start <= j < i ==> !is_ascii_ws(#[trigger] s@[j]),
        decreases n - i,
    {
        i = i + 1;
    }
    proof {
        lemma_word_end_at(t, i - start);
        assert(t.take(i - start) =~= s@.subrange(start as int, i as int));
        assert(t.skip(i - start) =~= s@.skip(i as int));
    }
    Some((start, i))
}

proof fn lemma_word_end_at(t: Seq<char>, k: int)
    requires
        0 < k <= t.len(),
        forall|j: int| 0 <= j < k ==> !is_ascii_ws(#[trigger] t[j]),
        k < t.len() ==> is_ascii_ws(t[k]),
    ensures
        word_end(t) == k,
    decreases k,
{
    if k > 1 {
        assert forall|j: int| 0 <= j < k - 1 implies !is_ascii_ws(#[trigger] t.drop_first()[j]) by {
            assert(t.drop_first()[j] == t[j + 1]);
        }
        lemma_word_end_at(t.drop_first(), k - 1);
    } else {
        assert(word_end(t.drop_first()) == 0);
    }
}

fn is_ws(c: char) -> (res: bool)
    ensures
        res == is_ascii_ws(c),
{
    c == ' ' || c == '\t' || c == '\n' || c == '\x0C' || c == '\r'
}

/// The path of a line of `git status --porcelain --no-renames`: its second
/// word, the first being the status.
pub fn status_line_path(line: &str) -> (res: Result<String, StatusLineError>)
    ensures
        ascii_words(line@).len() == 0 ==> res == Err::<String, StatusLineError>(
            StatusLineError::MissingStatus,
        ),
        ascii_words(line@).len() == 1 ==> res == Err::<String, StatusLineError>(
            StatusLineError::MissingPath,
        ),
        ascii_words(line@).len() >= 2 ==> (res matches Ok(p) && p@ == ascii_words(line@)[1]),
{
    proof {
        assert(line@.skip(0) =~= line@);
    }
    match next_word(line, 0) {
        None => Err(StatusLineError::MissingStatus),
        Some((_s, e)) => match next_word(line, e) {
            None => Err(StatusLineError::MissingPath),
            Some((start, end)) => Ok(crate::text::substring(line, start, end)),
        },
    }
}

/// Whether the tool was run for `lint`, which it leaves alone.
pub fn is_lint(args: &Vec<String>) -> (res: bool)
    ensures
        res == (args@.len() > 0 && eq_ignore_ascii_case(args@[0]@, "lint"@)),
{
    args.len() > 0 && equals_ignore_ascii_case(args[0].as_str(), "lint")
}

/// What is reported about changes that touch the build graph: a message,
/// and the exit code, which is 1 where there are such changes.
pub fn change_report(committed: bool, uncommitted: bool) -> (res: (String, ExitCode))
    ensures
        committed && uncommitted ==> res.0@
            == "Committed and uncommitted changes affect the build graph, please run `focus sync` to update the sparse checkout!"@,
        committed && !uncommitted ==> res.0@
            == "Committed changes affect the build graph, please run `focus sync` to update the sparse checkout!"@,
        !committed && uncommitted ==> res.0@
            == "Uncommitted changes affect the build graph, please run `focus sync` to update the sparse checkout!"@,
        !committed && !uncommitted ==> res.0@
            == "No changes to files affecting the build graph were detected"@,
        res.1.0 == (if committed || uncommitted {
            1i32
        } else {
            0i32
        }),
{
    if committed && uncommitted {
        (
            String::from_str(
                "Committed and uncommitted changes affect the build graph, please run `focus sync` to update the sparse checkout!",
            ),
            ExitCode(1),
        )
    } else if committed {
        (
            String::from_str(
                "Committed changes affect the build graph, please run `focus sync` to update the sparse checkout!",
            ),
            ExitCode(1),
        )
    } else if uncommitted {
        (
            String::from_str(
                "Uncommitted changes affect the build graph, please run `focus sync` to update the sparse checkout!",
            ),
            ExitCode(1),
        )
    } else {
        (String::from_str("No changes to files affecting the build graph were detected"), ExitCode(0))
    }
}

} // verus!
