//! Targets name what a sparse checkout must contain: a Bazel label, a
//! directory, or a Pants address, each written with a scheme prefix such as
//! `bazel://foo/bar:baz` or `directory:foo/bar`.

use vstd::prelude::*;
use crate::text::{
    ascii_lower, copy_strings, find_pair, eq_ignore_ascii_case, is_first_index, lemma_find_char_iff,
    lemma_join_no_char, lemma_join_push, lemma_split_join, no_char, pair_at, equals_ignore_ascii_case, index_of_char, index_of_pair,
    join_strings, join_with, lemma_find_char, lemma_find_pair, optional_strings_equal, optional_view,
    split_on, split_once, split_once_pair, split_str, str_equal, strings_equal, substring, views,
};

verus! {

/// The target part of a Bazel label.
#[derive(Debug, Clone, PartialEq, Eq, PartialOrd, Ord, Hash)]
pub enum TargetName {
    Name(String),
    Ellipsis,
}

/// A Bazel label referring to a specific target, such as `@repo//foo/bar:baz`
/// or `//foo/...`.
#[derive(Debug, Clone, PartialEq, Eq, PartialOrd, Ord, Hash)]
pub struct Label {
    /// For `@foo//bar:baz` this is `@foo`; `None` when there is no part before `//`.
    pub external_repository: Option<String>,
    /// The directory components of the path after `//`.
    pub path_components: Vec<String>,
    /// The explicit target name, or the last path component when none is given.
    pub target_name: TargetName,
}

/// A scheme-qualified target.
#[derive(Debug, Clone, PartialEq, Eq, PartialOrd, Ord, Hash)]
pub enum Target {
    /// A Bazel package like `//foo/bar:baz`.
    Bazel(Label),
    /// A specific directory within the repository.
    Directory(String),
    /// A Pants package like `foo/bar:baz`.
    Pants(String),
}

/// Why a label could not be parsed.
#[derive(Debug, Clone, Copy, PartialEq, Eq, Structural)]
pub enum LabelParseError {
    NoTargetName,
    EmptyLabel,
}

/// Why a target could not be parsed.
#[derive(Debug, Clone, PartialEq, Eq)]
pub enum TargetError {
    /// The scheme before the first `:` is none of `bazel`, `directory`, `pants`.
    UnsupportedScheme(String),
    /// There is no `:` at all.
    NoSchemeProvidedError,
    /// The scheme is `bazel` but the label does not parse.
    LabelError(LabelParseError),
}

/// The mathematical value of a `TargetName`.
pub enum TargetNameView {
    Name(Seq<char>),
    Ellipsis,
}

/// The mathematical value of a `Label`.
pub struct LabelView {
    pub external_repository: Option<Seq<char>>,
    pub path_components: Seq<Seq<char>>,
    pub target_name: TargetNameView,
}

/// The mathematical value of a `Target`.
pub enum TargetView {
    Bazel(LabelView),
    Directory(Seq<char>),
    Pants(Seq<char>),
}

/// The mathematical value of a `TargetError`.
pub enum TargetErrorView {
    UnsupportedScheme(Seq<char>),
    NoSchemeProvidedError,
    LabelError(LabelParseError),
}

impl View for TargetName {
    type V = TargetNameView;

    open spec fn view(&self) -> TargetNameView {
        match self {
            TargetName::Name(n) => TargetNameView::Name(n@),
            TargetName::Ellipsis => TargetNameView::Ellipsis,
        }
    }
}

impl View for Label {
    type V = LabelView;

    open spec fn view(&self) -> LabelView {
        LabelView {
            external_repository: optional_view(self.external_repository),
            path_components: views(self.path_components@),
            target_name: self.target_name@,
        }
    }
}

impl View for Target {
    type V = TargetView;

    open spec fn view(&self) -> TargetView {
        match self {
            Target::Bazel(l) => TargetView::Bazel(l@),
            Target::Directory(d) => TargetView::Directory(d@),
            Target::Pants(p) => TargetView::Pants(p@),
        }
    }
}

impl View for TargetError {
    type V = TargetErrorView;

    open spec fn view(&self) -> TargetErrorView {
        match self {
            TargetError::UnsupportedScheme(s) => TargetErrorView::UnsupportedScheme(s@),
            TargetError::NoSchemeProvidedError => TargetErrorView::NoSchemeProvidedError,
            TargetError::LabelError(e) => TargetErrorView::LabelError(*e),
        }
    }
}

pub open spec fn ellipsis_text() -> Seq<char> {
    seq!['.', '.', '.']
}

pub open spec fn bazel_scheme() -> Seq<char> {
    seq!['b', 'a', 'z', 'e', 'l']
}

pub open spec fn directory_scheme() -> Seq<char> {
    seq!['d', 'i', 'r', 'e', 'c', 't', 'o', 'r', 'y']
}

pub open spec fn pants_scheme() -> Seq<char> {
    seq!['p', 'a', 'n', 't', 's']
}

/// Where the external-repository part ends: `(external repository, rest)`.
pub open spec fn split_external(s: Seq<char>) -> (Option<Seq<char>>, Seq<char>) {
    match split_once_pair(s, '/', '/') {
        None => (None, s),
        Some((before, after)) => if before.len() == 0 {
            (None, after)
        } else {
            (Some(before), after)
        },
    }
}

/// The label that the text `s` denotes, or why there is none.
pub open spec fn parse_label(s: Seq<char>) -> Result<LabelView, LabelParseError> {
    let (external, rest) = split_external(s);
    let (package, target) = match split_once(rest, ':') {
        Some((p, t)) => (p, Some(t)),
        None => (rest, None),
    };
    let components = split_on(package, '/');
    let name: Option<Seq<char>> = match target {
        Some(t) => Some(t),
        None => if components.last().len() == 0 {
            None
        } else {
            Some(components.last())
        },
    };
    match name {
        None => Err(LabelParseError::EmptyLabel),
        Some(t) => if t == ellipsis_text() {
            Ok(
                LabelView {
                    external_repository: external,
                    path_components: components.drop_last(),
                    target_name: TargetNameView::Ellipsis,
                },
            )
        } else {
            Ok(
                LabelView {
                    external_repository: external,
                    path_components: components,
                    target_name: TargetNameView::Name(t),
                },
            )
        },
    }
}

/// The target that the text `s` denotes, or why there is none.
pub open spec fn parse_target(s: Seq<char>) -> Result<TargetView, TargetErrorView> {
    match split_once(s, ':') {
        None => Err(TargetErrorView::NoSchemeProvidedError),
        Some((prefix, rest)) => if eq_ignore_ascii_case(prefix, bazel_scheme()) {
            match parse_label(rest) {
                Ok(l) => Ok(TargetView::Bazel(l)),
                Err(e) => Err(TargetErrorView::LabelError(e)),
            }
        } else if eq_ignore_ascii_case(prefix, directory_scheme()) {
            Ok(TargetView::Directory(rest))
        } else if eq_ignore_ascii_case(prefix, pants_scheme()) {
            Ok(TargetView::Pants(rest))
        } else {
            Err(TargetErrorView::UnsupportedScheme(prefix))
        },
    }
}

/// The printed form of a label: `[repo]//a/b:name` or `[repo]//a/b/...`.
pub open spec fn label_text(l: LabelView) -> Seq<char> {
    let repo = match l.external_repository {
        Some(r) => r,
        None => Seq::empty(),
    };
    let head = repo + seq!['/', '/'] + join_with(l.path_components, seq!['/']);
    match l.target_name {
        TargetNameView::Name(n) => head + seq![':'] + n,
        TargetNameView::Ellipsis => head + seq!['/'] + ellipsis_text(),
    }
}

/// The printed form of a target without its scheme.
pub open spec fn target_text(t: TargetView) -> Seq<char> {
    match t {
        TargetView::Bazel(l) => label_text(l),
        TargetView::Directory(d) => d,
        TargetView::Pants(p) => p,
    }
}

/// The printed form of a target with its scheme, such as `bazel://a:b`.
pub open spec fn qualified_target_text(t: TargetView) -> Seq<char> {
    match t {
        TargetView::Bazel(l) => bazel_scheme() + seq![':'] + label_text(l),
        TargetView::Directory(d) => directory_scheme() + seq![':'] + d,
        TargetView::Pants(p) => pants_scheme() + seq![':'] + p,
    }
}

/// A label whose printed form parses back to it: a non-empty external
/// repository that holds no `//` and does not end in `/`, at least one path
/// component, components free of `/` and `:`, and a name other than `...`.
pub open spec fn is_printable_label(l: LabelView) -> bool {
    &&& match l.external_repository {
        Some(r) => r.len() > 0 && r.last() != '/' && forall|j: int| !pair_at(r, '/', '/', j),
        None => true,
    }
    &&& l.path_components.len() > 0
    &&& forall|i: int|
        0 <= i < l.path_components.len() ==> no_char(#[trigger] l.path_components[i], '/')
            && no_char(l.path_components[i], ':')
    &&& match l.target_name {
        TargetNameView::Name(n) => n != ellipsis_text(),
        TargetNameView::Ellipsis => true,
    }
}

/// A target whose qualified printed form parses back to it.
pub open spec fn is_printable_target(t: TargetView) -> bool {
    match t {
        TargetView::Bazel(l) => is_printable_label(l),
        _ => true,
    }
}

/// Printing a label and parsing the text gives the same label, for every
/// label whose parts can be told apart in the text.
pub proof fn lemma_label_roundtrip(l: LabelView)
    requires
        is_printable_label(l),
    ensures
        parse_label(label_text(l)) == Ok::<LabelView, LabelParseError>(l),
{
    let repo = match l.external_repository {
        Some(r) => r,
        None => Seq::<char>::empty(),
    };
    let comps = l.path_components;
    let joined = join_with(comps, seq!['/']);
    let t = label_text(l);
    let k = repo.len() as int;
    // The first `//` is the one printed after the repository.
    assert(pair_at(t, '/', '/', k));
    assert forall|j: int| 0 <= j < k implies !pair_at(t, '/', '/', j) by {
        if j + 1 < k {
            assert(!pair_at(repo, '/', '/', j));
            assert(t[j] == repo[j] && t[j + 1] == repo[j + 1]);
        } else {
            assert(t[j] == repo.last());
        }
    }
    lemma_find_pair(t, '/', '/');
    let found = find_pair(t, '/', '/');
    assert(found == Some(k)) by {
        let f = found->0;
        if f < k {
        } else if f > k {
        }
    }
    let rest = t.skip(k + 2);
    assert(split_external(t).1 == rest);
    assert(split_external(t).0 == l.external_repository);
    lemma_join_no_char(comps, seq!['/'], ':');
    match l.target_name {
        TargetNameView::Name(n) => {
            assert(rest =~= joined + seq![':'] + n);
            let jl = joined.len() as int;
            assert(is_first_index(rest, ':', jl));
            lemma_find_char_iff(rest, ':', jl);
            assert(rest.take(jl) =~= joined);
            assert(rest.skip(jl + 1) =~= n);
            lemma_split_join(comps, '/');
        },
        TargetNameView::Ellipsis => {
            let pieces = comps.push(ellipsis_text());
            lemma_join_push(comps, ellipsis_text(), seq!['/']);
            assert(rest =~= join_with(pieces, seq!['/']));
            assert forall|i: int| 0 <= i < pieces.len() implies no_char(#[trigger] pieces[i], ':')
                && no_char(pieces[i], '/') by {
                if i < comps.len() {
                    assert(pieces[i] == comps[i]);
                }
            }
            lemma_join_no_char(pieces, seq!['/'], ':');
            lemma_find_char_iff(rest, ':', 0);
            lemma_split_join(pieces, '/');
            assert(pieces.drop_last() =~= comps);
        },
    }
}

/// Printing a target with its scheme and parsing the text gives the same
/// target.
pub proof fn lemma_target_roundtrip(t: TargetView)
    requires
        is_printable_target(t),
    ensures
        parse_target(qualified_target_text(t)) == Ok::<TargetView, TargetErrorView>(t),
{
    let q = qualified_target_text(t);
    let (scheme, body) = match t {
        TargetView::Bazel(l) => (bazel_scheme(), label_text(l)),
        TargetView::Directory(d) => (directory_scheme(), d),
        TargetView::Pants(p) => (pants_scheme(), p),
    };
    assert(q =~= scheme + seq![':'] + body);
    let k = scheme.len() as int;
    assert(is_first_index(q, ':', k));
    lemma_find_char_iff(q, ':', k);
    assert(q.take(k) =~= scheme);
    assert(q.skip(k + 1) =~= body);
    assert(ascii_lower('p') != ascii_lower('b'));
    assert(!eq_ignore_ascii_case(pants_scheme(), bazel_scheme()));
    assert(!eq_ignore_ascii_case(directory_scheme(), bazel_scheme()));
    assert(!eq_ignore_ascii_case(pants_scheme(), directory_scheme()));
    assert(eq_ignore_ascii_case(scheme, scheme));
    if let TargetView::Bazel(l) = t {
        lemma_label_roundtrip(l);
    }
}

pub proof fn lemma_split_on_nonempty(s: Seq<char>, c: char)
    ensures
        split_on(s, c).len() >= 1,
{
}

fn is_ellipsis(s: &str) -> (res: bool)
    ensures
        res == (s@ == ellipsis_text()),
{
    let dots = "...";
    proof {
        reveal_strlit("...");
        assert(dots@ =~= ellipsis_text());
    }
    str_equal(s, dots)
}

impl TargetName {
    /// A copy with the same value.
    pub fn duplicate(&self) -> (res: TargetName)
        ensures
            res@ == self@,
    {
        match self {
            TargetName::Name(n) => TargetName::Name(n.clone()),
            TargetName::Ellipsis => TargetName::Ellipsis,
        }
    }

    /// Equality by value.
    pub fn same_as(&self, other: &TargetName) -> (res: bool)
        ensures
            res == (self@ == other@),
    {
        match (self, other) {
            (TargetName::Name(a), TargetName::Name(b)) => *a == *b,
            (TargetName::Ellipsis, TargetName::Ellipsis) => true,
            _ => false,
        }
    }
}

impl Label {
    /// Parses a label such as `@repo//foo/bar:baz`, `//foo/bar` (target `bar`)
    /// or `//foo/...`.
    pub fn parse(s: &str) -> (res: Result<Label, LabelParseError>)
        ensures
            match res {
                Ok(l) => parse_label(s@) == Ok::<LabelView, LabelParseError>(l@),
                Err(e) => parse_label(s@) == Err::<LabelView, LabelParseError>(e),
            },
    {
        let n = s.unicode_len();
        let (external, rest_start): (Option<String>, usize) = match index_of_pair(s, '/', '/') {
            None => (None, 0),
            Some(i) => {
                proof {
                    lemma_find_pair(s@, '/', '/');
                }
                if i == 0 {
                    (None, 2)
                } else {
                    (Some(substring(s, 0, i)), i + 2)
                }
            },
        };
        proof {
            lemma_find_pair(s@, '/', '/');
        }
        let rest = s.substring_char(rest_start, n);
        assert(optional_view(external) == split_external(s@).0);
        assert(rest@ =~= split_external(s@).1);
        let m = rest.unicode_len();
        let (package, target): (&str, Option<String>) = match index_of_char(rest, ':') {
            Some(j) => {
                proof {
                    lemma_find_char(rest@, ':');
                }
                (rest.substring_char(0, j), Some(substring(rest, j + 1, m)))
            },
            None => (rest, None),
        };
        let mut components = split_str(package, '/');
        proof {
            lemma_split_on_nonempty(package@, '/');
        }
        let k = components.len();
        let name: String = match target {
            Some(t) => t,
            None => {
                if components[k - 1].as_str().unicode_len() == 0 {
                    return Err(LabelParseError::EmptyLabel);
                }
                components[k - 1].clone()
            },
        };
        if is_ellipsis(name.as_str()) {
            let ghost before = components@;
            components.pop();
            assert(views(components@) =~= views(before).drop_last());
            Ok(
                Label {
                    external_repository: external,
                    path_components: components,
                    target_name: TargetName::Ellipsis,
                },
            )
        } else {
            Ok(
                Label {
                    external_repository: external,
                    path_components: components,
                    target_name: TargetName::Name(name),
                },
            )
        }
    }

    /// The printed form, as `label_text` states.
    pub fn to_string(&self) -> (res: String)
        ensures
            res@ == label_text(self@),
    {
        let repo = match &self.external_repository {
            Some(r) => r.clone(),
            None => String::new(),
        };
        let slashes = "//";
        let separator = "/";
        proof {
            reveal_strlit("//");
            reveal_strlit("/");
            assert(slashes@ =~= seq!['/', '/']);
            assert(separator@ =~= seq!['/']);
        }
        let joined = join_strings(&self.path_components, separator);
        let head = repo.concat(slashes).concat(joined.as_str());
        match &self.target_name {
            TargetName::Name(n) => {
                let colon = ":";
                proof {
                    reveal_strlit(":");
                    assert(colon@ =~= seq![':']);
                }
                let res = head.concat(colon).concat(n.as_str());
                assert(res@ =~= label_text(self@));
                res
            },
            TargetName::Ellipsis => {
                let tail = "/...";
                proof {
                    reveal_strlit("/...");
                    assert(tail@ =~= seq!['/'] + ellipsis_text());
                }
                let res = head.concat(tail);
                assert(res@ =~= label_text(self@));
                res
            },
        }
    }

    /// A copy with the same value.
    pub fn duplicate(&self) -> (res: Label)
        ensures
            res@ == self@,
    {
        let external_repository = match &self.external_repository {
            Some(r) => Some(r.clone()),
            None => None,
        };
        Label {
            external_repository,
            path_components: copy_strings(&self.path_components),
            target_name: self.target_name.duplicate(),
        }
    }

    /// Equality by value.
    pub fn same_as(&self, other: &Label) -> (res: bool)
        ensures
            res == (self@ == other@),
    {
        optional_strings_equal(&self.external_repository, &other.external_repository)
            && strings_equal(&self.path_components, &other.path_components)
            && self.target_name.same_as(&other.target_name)
    }
}

impl Target {
    /// Parses a scheme-qualified target such as `bazel://a:b`,
    /// `directory:foo/bar` or `pants:foo:bar`; the scheme is matched
    /// ignoring ASCII case.
    pub fn try_from(value: &str) -> (res: Result<Target, TargetError>)
        ensures
            match res {
                Ok(t) => parse_target(value@) == Ok::<TargetView, TargetErrorView>(t@),
                Err(e) => parse_target(value@) == Err::<TargetView, TargetErrorView>(e@),
            },
    {
        let n = value.unicode_len();
        match index_of_char(value, ':') {
            None => Err(TargetError::NoSchemeProvidedError),
            Some(i) => {
                proof {
                    lemma_find_char(value@, ':');
                }
                let prefix = value.substring_char(0, i);
                let rest = substring(value, i + 1, n);
                let bazel = "bazel";
                let directory = "directory";
                let pants = "pants";
                proof {
                    reveal_strlit("bazel");
                    reveal_strlit("directory");
                    reveal_strlit("pants");
                    assert(bazel@ =~= bazel_scheme());
                    assert(directory@ =~= directory_scheme());
                    assert(pants@ =~= pants_scheme());
                }
                if equals_ignore_ascii_case(prefix, bazel) {
                    match Label::parse(rest.as_str()) {
                        Ok(l) => Ok(Target::Bazel(l)),
                        Err(e) => Err(TargetError::LabelError(e)),
                    }
                } else if equals_ignore_ascii_case(prefix, directory) {
                    Ok(Target::Directory(rest))
                } else if equals_ignore_ascii_case(prefix, pants) {
                    Ok(Target::Pants(rest))
                } else {
                    Err(TargetError::UnsupportedScheme(String::from_str(prefix)))
                }
            },
        }
    }

    /// The printed form without the scheme (the label, directory or address).
    pub fn to_string(&self) -> (res: String)
        ensures
            res@ == target_text(self@),
    {
        match self {
            Target::Bazel(l) => l.to_string(),
            Target::Directory(d) => d.clone(),
            Target::Pants(p) => p.clone(),
        }
    }

    /// The printed form with the scheme, such as `bazel://a:b`; parsing it
    /// gives the target back (see `lemma_target_roundtrip`).
    pub fn to_qualified_string(&self) -> (res: String)
        ensures
            res@ == qualified_target_text(self@),
    {
        let (scheme, body) = match self {
            Target::Bazel(l) => {
                let s = "bazel:";
                proof {
                    reveal_strlit("bazel:");
                    assert(s@ =~= bazel_scheme() + seq![':']);
                }
                (s, l.to_string())
            },
            Target::Directory(d) => {
                let s = "directory:";
                proof {
                    reveal_strlit("directory:");
                    assert(s@ =~= directory_scheme() + seq![':']);
                }
                (s, d.clone())
            },
            Target::Pants(p) => {
                let s = "pants:";
                proof {
                    reveal_strlit("pants:");
                    assert(s@ =~= pants_scheme() + seq![':']);
                }
                (s, p.clone())
            },
        };
        String::from_str(scheme).concat(body.as_str())
    }

    /// A copy with the same value.
    pub fn duplicate(&self) -> (res: Target)
        ensures
            res@ == self@,
    {
        match self {
            Target::Bazel(l) => Target::Bazel(l.duplicate()),
            Target::Directory(d) => Target::Directory(d.clone()),
            Target::Pants(p) => Target::Pants(p.clone()),
        }
    }

    /// Equality by value.
    pub fn same_as(&self, other: &Target) -> (res: bool)
        ensures
            res == (self@ == other@),
    {
        match (self, other) {
            (Target::Bazel(a), Target::Bazel(b)) => a.same_as(b),
            (Target::Directory(a), Target::Directory(b)) => *a == *b,
            (Target::Pants(a), Target::Pants(b)) => *a == *b,
            _ => false,
        }
    }
}

} // verus!
