//! What the content hash of a dependency key is made of: the key under
//! which it is cached, the inputs whose hashes go into it, and the text that
//! is hashed. Reading the repository and hashing are left to the caller.

use vstd::prelude::*;
use crate::bazel::{
    DependencyKey, DependencyKeyView, components_path, path_of_components,
};
use crate::cachekeys::{hex_encode, hex_text};
use crate::maintenance::{join_path, joined_path};
use crate::target::{Label, LabelView, TargetName, TargetNameView, label_text};
use crate::text::{decimal_string, decimal_text, optional_view};
use crate::target::parse_label;
use crate::labelset::{label_set, ordered_labels};
use crate::valueset::{distinct_values, insert_value, value_set};
use crate::valueset::SameValue;

verus! {

/// Mixed into every content hash; changed when hashing changes in a way
/// that old hashes cannot be compared with new ones.
pub const CONTENT_HASH_VERSION: usize = 7;

/// The key under which the hash of `key` is cached: one hash covers all
/// the targets of a package.
pub open spec fn cache_key_of(key: DependencyKeyView) -> DependencyKeyView {
    match key {
        DependencyKeyView::BazelPackage(l) => DependencyKeyView::BazelPackage(
            LabelView { target_name: TargetNameView::Ellipsis, ..l },
        ),
        _ => key,
    }
}

/// The key under which the hash of `key` is cached.
pub fn cache_key(key: &DependencyKey) -> (res: DependencyKey)
    ensures
        res@ == cache_key_of(key@),
{
    match key {
        DependencyKey::BazelPackage(l) => {
            let d = l.duplicate();
            DependencyKey::BazelPackage(Label { target_name: TargetName::Ellipsis, ..d })
        },
        _ => key.duplicate(),
    }
}

/// A key's cache key is its own cache key, and all the targets of one
/// package share one cache key.
pub proof fn lemma_cache_key_covers_package(key: DependencyKeyView, other: DependencyKeyView)
    ensures
        cache_key_of(cache_key_of(key)) == cache_key_of(key),
        (key matches DependencyKeyView::BazelPackage(a) && other matches DependencyKeyView::BazelPackage(b)
            && a.external_repository == b.external_repository && a.path_components
            == b.path_components) ==> cache_key_of(key) == cache_key_of(other),
{
}

/// Something whose hash goes into the hash of a key.
#[derive(Debug)]
pub enum HashInput {
    /// Another key.
    Key(DependencyKey),
    /// The tree at a path of the head commit.
    TreePath(String),
}

/// The mathematical value of a `HashInput`.
pub enum HashInputView {
    Key(DependencyKeyView),
    TreePath(Seq<char>),
}

impl View for HashInput {
    type V = HashInputView;

    open spec fn view(&self) -> HashInputView {
        match self {
            HashInput::Key(k) => HashInputView::Key(k@),
            HashInput::TreePath(p) => HashInputView::TreePath(p@),
        }
    }
}

pub open spec fn input_views(v: Seq<HashInput>) -> Seq<HashInputView> {
    v.map_values(|x: HashInput| x@)
}

/// The `WORKSPACE` file at the root of the repository.
pub open spec fn workspace_label() -> LabelView {
    LabelView {
        external_repository: None,
        path_components: Seq::empty(),
        target_name: TargetNameView::Name("WORKSPACE"@),
    }
}

/// Keeps every label but `skip`.
pub open spec fn all_but(skip: Option<LabelView>) -> spec_fn(LabelView) -> bool {
    |x: LabelView|
        match skip {
            Some(s) => x != s,
            None => true,
        }
}

/// The build-file keys of loaded labels.
pub open spec fn build_file_inputs(loaded: Seq<LabelView>) -> Seq<HashInputView> {
    loaded.map_values(|l: LabelView| HashInputView::Key(DependencyKeyView::BazelBuildFile(l)))
}

/// The inputs of the hash of `key`, where `loaded` are the labels that it
/// loads (for a package of this repository: those its build files load and
/// those of the prelude; for a build file of this repository: those it
/// loads); none for a build file label that names every target of a
/// package.
pub open spec fn hash_inputs(key: DependencyKeyView, loaded: Seq<LabelView>) -> Option<Seq<HashInputView>> {
    match key {
        DependencyKeyView::BazelPackage(l) => Some(
            seq![HashInputView::Key(DependencyKeyView::Path(components_path(l.path_components)))]
                + if l.external_repository is None {
                build_file_inputs(loaded)
            } else {
                Seq::empty()
            } + seq![HashInputView::Key(DependencyKeyView::BazelBuildFile(workspace_label()))],
        ),
        DependencyKeyView::BazelBuildFile(l) => match l.external_repository {
            Some(_) => Some(seq![HashInputView::Key(DependencyKeyView::Path("WORKSPACE"@))]),
            None => match l.target_name {
                TargetNameView::Ellipsis => None,
                TargetNameView::Name(t) => Some(
                    seq![
                        HashInputView::Key(
                            DependencyKeyView::Path(joined_path(components_path(l.path_components), t)),
                        ),
                    ] + build_file_inputs(loaded.filter(all_but(Some(l)))) + seq![
                        HashInputView::Key(DependencyKeyView::Path("WORKSPACE"@)),
                    ],
                ),
            },
        },
        DependencyKeyView::Path(p) => Some(seq![HashInputView::TreePath(p)]),
        DependencyKeyView::DummyForTesting(inner) => Some(seq![HashInputView::Key(*inner)]),
    }
}

/// The name of a key's kind in the hashed text.
pub open spec fn kind_name(key: DependencyKeyView) -> Seq<char> {
    match key {
        DependencyKeyView::BazelPackage(_) => "BazelPackage"@,
        DependencyKeyView::BazelBuildFile(_) => "BazelBuildFile"@,
        DependencyKeyView::Path(_) => "Path"@,
        DependencyKeyView::DummyForTesting(_) => "DummyForTesting"@,
    }
}

/// The label a key's hashed text names.
pub open spec fn key_label(key: DependencyKeyView) -> Option<LabelView> {
    match key {
        DependencyKeyView::BazelPackage(l) => Some(l),
        DependencyKeyView::BazelBuildFile(l) => Some(l),
        _ => None,
    }
}

/// An error of `git2`.
#[verifier::external_type_specification]
#[verifier::external_body]
pub struct ExGitError(git2::Error);

/// The error of `regex::Regex::new`.
#[verifier::external_type_specification]
#[verifier::external_body]
pub struct ExRegexError(regex::Error);

/// Why the hash of a key cannot be made.
#[derive(Debug)]
pub enum ContentHashError {
    /// A build-file key whose label names every target of a package rather
    /// than a `BUILD` or `.bzl` file.
    EllipsisBuildFile(Label),
    /// Git could not hash the text.
    HashObject(git2::Error),
    /// The text is not the hex form of an object id.
    InvalidHash(git2::Error),
}

/// The value of a hex digit (either case), or none.
pub open spec fn hex_value(c: char) -> Option<int> {
    if '0' <= c && c <= '9' {
        Some(c as int - '0' as int)
    } else if 'a' <= c && c <= 'f' {
        Some(c as int - 'a' as int + 10)
    } else if 'A' <= c && c <= 'F' {
        Some(c as int - 'A' as int + 10)
    } else {
        None
    }
}

/// The hex form of an object id that Git reads: one to forty hex digits.
pub open spec fn is_oid_text(text: Seq<char>) -> bool {
    1 <= text.len() <= 40 && forall|i: int| 0 <= i < text.len() ==> hex_value(#[trigger] text[i]) is Some
}

/// The value of the `p`-th digit of a hex text, zero past its end.
pub open spec fn nibble(text: Seq<char>, p: int) -> int {
    if 0 <= p < text.len() {
        match hex_value(text[p]) {
            Some(v) => v,
            None => 0,
        }
    } else {
        0
    }
}

/// The twenty bytes of the object id whose hex form is `text` (two digits a
/// byte, high digit first), the digits it lacks taken as zero.
pub open spec fn oid_bytes(text: Seq<char>) -> Seq<u8> {
    Seq::new(20, |i: int| (nibble(text, 2 * i) * 16 + nibble(text, 2 * i + 1)) as u8)
}

/// Calls `git2::Oid::from_str` and reads the bytes of the id
/// (`Oid::as_bytes`). Claimed, from the source of `git_oid_fromstrn` that it
/// calls: it fails exactly where the text is empty, longer than forty bytes
/// or holds a byte that is not a hex digit; otherwise the id's twenty bytes
/// hold the digits two a byte, high digit first, and zero where the text
/// ends.
#[verifier::external_body]
fn parse_oid(text: &str) -> (res: Result<Vec<u8>, git2::Error>)
    ensures
        match res {
            Ok(v) => is_oid_text(text@) && v@ == oid_bytes(text@),
            Err(_) => !is_oid_text(text@),
        },
{
    let oid = git2::Oid::from_str(text)?;
    Ok(oid.as_bytes().to_vec())
}

/// The content hash written in hex in `text`, as an object id's bytes.
pub fn parse_content_hash(text: &str) -> (res: Result<Vec<u8>, ContentHashError>)
    ensures
        is_oid_text(text@) ==> (res matches Ok(v) && v@ == oid_bytes(text@)),
        !is_oid_text(text@) ==> (res matches Err(e) && e is InvalidHash),
{
    match parse_oid(text) {
        Ok(v) => Ok(v),
        Err(e) => Err(ContentHashError::InvalidHash(e)),
    }
}

/// What the hash of a key is made of.
#[derive(Debug)]
pub struct HashPlan {
    /// The name of the key's kind.
    pub kind: String,
    /// The label the key names, if any.
    pub label: Option<Label>,
    /// The inputs whose hashes go into the key's hash, in order.
    pub inputs: Vec<HashInput>,
}

fn build_file_keys(loaded: &Vec<Label>, skip: Option<&Label>) -> (res: Vec<HashInput>)
    ensures
        input_views(res@) == build_file_inputs(
            crate::valueset::value_seq(loaded@).filter(
                all_but(
                    match skip {
                        Some(s) => Some(s@),
                        None => None,
                    },
                ),
            ),
        ),
{
    let ghost all = crate::valueset::value_seq(loaded@);
    let ghost keep = all_but(
        match skip {
            Some(s) => Some(s@),
            None => None,
        },
    );
    let mut res: Vec<HashInput> = Vec::new();
    let mut i: usize = 0;
    proof {
        assert(all.subrange(0, 0).filter(keep) =~= Seq::<LabelView>::empty());
        assert(input_views(res@) =~= build_file_inputs(all.subrange(0, 0).filter(keep)));
    }
    while i < loaded.len()
        invariant
            i <= loaded@.len(),
            all == crate::valueset::value_seq(loaded@),
            keep == all_but(
                match skip {
                    Some(s) => Some(s@),
                    None => None,
                },
            ),
            input_views(res@) == build_file_inputs(all.subrange(0, i as int).filter(keep)),
        decreases loaded@.len() - i,
    {
        proof {
            assert(all.subrange(0, i + 1) =~= all.subrange(0, i as int).push(all[i as int]));
            all.subrange(0, i as int).lemma_filter_push(all[i as int], keep);
        }
        let wanted = match skip {
            Some(s) => !loaded[i].same_as(s),
            None => true,
        };
        assert(wanted == keep(all[i as int]));
        if wanted {
            let ghost prev = input_views(res@);
            let ghost before = all.subrange(0, i as int).filter(keep);
            res.push(HashInput::Key(DependencyKey::BazelBuildFile(loaded[i].duplicate())));
            proof {
                assert(input_views(res@) =~= prev.push(
                    HashInputView::Key(DependencyKeyView::BazelBuildFile(all[i as int])),
                ));
                assert(build_file_inputs(before.push(all[i as int])) =~= build_file_inputs(before).push(
                    HashInputView::Key(DependencyKeyView::BazelBuildFile(all[i as int])),
                ));
            }
        }
        i = i + 1;
    }
    proof {
        assert(all.subrange(0, i as int) =~= all);
    }
    res
}

/// Filtering by a predicate that holds of every element changes nothing.
proof fn lemma_filter_all<A>(s: Seq<A>, keep: spec_fn(A) -> bool)
    requires
        forall|j: int| 0 <= j < s.len() ==> keep(#[trigger] s[j]),
    ensures
        s.filter(keep) == s,
    decreases s.len(),
{
    if s.len() > 0 {
        lemma_filter_all(s.drop_last(), keep);
        assert(s.drop_last().push(s.last()) =~= s);
        s.drop_last().lemma_filter_push(s.last(), keep);
    } else {
        assert(s.filter(keep) =~= s);
    }
}

/// What the hash of `key` is made of, where `loaded` are the labels that it
/// loads (see `hash_inputs`), taken each once and in label order whatever
/// order they come in; fails for a build-file key whose label names every
/// target of a package.
pub fn hash_plan(key: &DependencyKey, loaded: &Vec<Label>) -> (res: Result<HashPlan, ContentHashError>)
    ensures
        match hash_inputs(key@, ordered_labels(value_set(loaded@))) {
            Some(inputs) => res matches Ok(plan) && plan.kind@ == kind_name(key@) && match plan.label {
                Some(l) => key_label(key@) == Some(l@),
                None => key_label(key@) is None,
            } && input_views(plan.inputs@) == inputs,
            None => res matches Err(ContentHashError::EllipsisBuildFile(l)) && key_label(key@)
                == Some(l@),
        },
{
    let ordered = label_set(loaded);
    let loaded = &ordered;
    let ghost lv = crate::valueset::value_seq(loaded@);
    match key {
        DependencyKey::BazelPackage(l) => {
            let mut inputs: Vec<HashInput> = Vec::new();
            inputs.push(HashInput::Key(DependencyKey::Path(path_of_components(&l.path_components))));
            let mut loads = match &l.external_repository {
                None => build_file_keys(loaded, None),
                Some(_) => Vec::new(),
            };
            let ghost first = input_views(inputs@);
            let ghost middle = input_views(loads@);
            inputs.append(&mut loads);
            let workspace = Label {
                external_repository: None,
                path_components: Vec::new(),
                target_name: TargetName::Name(String::from_str("WORKSPACE")),
            };
            proof {
                reveal_strlit("WORKSPACE");
                reveal_strlit("BazelPackage");
                assert(workspace@.path_components =~= Seq::<Seq<char>>::empty());
                assert(workspace@ =~= workspace_label());
            }
            inputs.push(HashInput::Key(DependencyKey::BazelBuildFile(workspace)));
            proof {
                assert(input_views(inputs@) =~= first + middle + seq![
                    HashInputView::Key(DependencyKeyView::BazelBuildFile(workspace_label())),
                ]);
                if l.external_repository is None {
                    lemma_filter_all(lv, all_but(None));
                    assert(middle == build_file_inputs(lv));
                } else {
                    assert(middle =~= Seq::<HashInputView>::empty());
                }
            }
            Ok(HashPlan { kind: String::from_str("BazelPackage"), label: Some(l.duplicate()), inputs })
        },
        DependencyKey::BazelBuildFile(l) => {
            let workspace_path = String::from_str("WORKSPACE");
            proof {
                reveal_strlit("WORKSPACE");
                reveal_strlit("BazelBuildFile");
            }
            let inputs = match &l.external_repository {
                Some(_) => {
                    let mut inputs: Vec<HashInput> = Vec::new();
                    inputs.push(HashInput::Key(DependencyKey::Path(workspace_path)));
                    assert(input_views(inputs@) =~= seq![
                        HashInputView::Key(DependencyKeyView::Path("WORKSPACE"@)),
                    ]);
                    inputs
                },
                None => match &l.target_name {
                    TargetName::Ellipsis => {
                        return Err(ContentHashError::EllipsisBuildFile(l.duplicate()));
                    },
                    TargetName::Name(t) => {
                        let dir = path_of_components(&l.path_components);
                        let path = join_path(dir.as_str(), t.as_str());
                        let mut inputs: Vec<HashInput> = Vec::new();
                        inputs.push(HashInput::Key(DependencyKey::Path(path)));
                        let ghost first = input_views(inputs@);
                        let mut loads = build_file_keys(loaded, Some(l));
                        let ghost middle = input_views(loads@);
                        inputs.append(&mut loads);
                        inputs.push(HashInput::Key(DependencyKey::Path(workspace_path)));
                        assert(input_views(inputs@) =~= first + middle + seq![
                            HashInputView::Key(DependencyKeyView::Path("WORKSPACE"@)),
                        ]);
                        inputs
                    },
                },
            };
            Ok(HashPlan { kind: String::from_str("BazelBuildFile"), label: Some(l.duplicate()), inputs })
        },
        DependencyKey::Path(p) => {
            let mut inputs: Vec<HashInput> = Vec::new();
            inputs.push(HashInput::TreePath(p.clone()));
            proof {
                reveal_strlit("Path");
                assert(input_views(inputs@) =~= seq![HashInputView::TreePath(p@)]);
            }
            Ok(HashPlan { kind: String::from_str("Path"), label: None, inputs })
        },
        DependencyKey::DummyForTesting(inner) => {
            let mut inputs: Vec<HashInput> = Vec::new();
            inputs.push(HashInput::Key((**inner).duplicate()));
            proof {
                reveal_strlit("DummyForTesting");
                assert(input_views(inputs@) =~= seq![HashInputView::Key((**inner)@)]);
            }
            Ok(HashPlan { kind: String::from_str("DummyForTesting"), label: None, inputs })
        },
    }
}


/// The hashes of the inputs, each in hexadecimal and followed by `, `.
pub open spec fn hashes_text(hs: Seq<Seq<u8>>) -> Seq<char>
    decreases hs.len(),
{
    if hs.len() == 0 {
        Seq::empty()
    } else {
        hashes_text(hs.drop_last()) + hex_text(hs.last()) + ", "@
    }
}

/// The text whose hash is the hash of a key: the version, the key's kind,
/// its label if it has one, and the hashes of its inputs, in order.
pub open spec fn key_hash_text(kind: Seq<char>, label: Option<LabelView>, hs: Seq<Seq<u8>>) -> Seq<char> {
    "DependencyKeyV"@ + decimal_text(CONTENT_HASH_VERSION as nat) + "::"@ + kind + "("@ + match label {
        Some(l) => label_text(l) + ", "@,
        None => Seq::empty(),
    } + hashes_text(hs) + ")"@
}

pub open spec fn byte_views(v: Seq<Vec<u8>>) -> Seq<Seq<u8>> {
    v.map_values(|h: Vec<u8>| h@)
}

/// The text whose hash is the hash of a key of the plan's kind and label,
/// given the hashes of the plan's inputs.
pub fn hash_text(kind: &str, label: Option<&Label>, hashes: &Vec<Vec<u8>>) -> (res: String)
    ensures
        res@ == key_hash_text(
            kind@,
            match label {
                Some(l) => Some(l@),
                None => None,
            },
            byte_views(hashes@),
        ),
{
    let version = decimal_string(CONTENT_HASH_VERSION);
    let mut text = String::from_str("DependencyKeyV").concat(version.as_str()).concat("::").concat(
        kind,
    ).concat("(");
    match label {
        Some(l) => {
            let lt = l.to_string();
            text = text.concat(lt.as_str()).concat(", ");
        },
        None => {},
    }
    let ghost head = text@;
    let ghost hv = byte_views(hashes@);
    let mut i: usize = 0;
    proof {
        assert(hv.subrange(0, 0) =~= Seq::<Seq<u8>>::empty());
        assert(text@ =~= head + hashes_text(hv.subrange(0, 0)));
    }
    while i < hashes.len()
        invariant
            i <= hashes@.len(),
            hv == byte_views(hashes@),
            text@ == head + hashes_text(hv.subrange(0, i as int)),
        decreases hashes@.len() - i,
    {
        let h = hex_encode(hashes[i].as_slice());
        proof {
            assert(hv.subrange(0, i + 1).drop_last() =~= hv.subrange(0, i as int));
            assert(hashes[i as int]@ == hv[i as int]);
        }
        text = text.concat(h.as_str()).concat(", ");
        proof {
            assert(text@ =~= head + hashes_text(hv.subrange(0, i + 1)));
        }
        i = i + 1;
    }
    proof {
        assert(hv.subrange(0, i as int) =~= hv);
        reveal_strlit("DependencyKeyV");
        reveal_strlit("::");
        reveal_strlit("(");
        reveal_strlit(", ");
    }
    text.concat(")")
}

/// The text whose hash is the hash of the tree at a path, given the id of
/// that tree.
pub fn tree_path_hash_text(tree_id: &[u8]) -> (res: String)
    ensures
        res@ == "PathBufV"@ + decimal_text(CONTENT_HASH_VERSION as nat) + "("@ + hex_text(tree_id@)
            + ")"@,
{
    let version = decimal_string(CONTENT_HASH_VERSION);
    let hex = hex_encode(tree_id);
    String::from_str("PathBufV").concat(version.as_str()).concat("(").concat(hex.as_str()).concat(")")
}


/// The id that Git gives a blob whose content is the UTF-8 encoding of the
/// text, or `None` where Git fails to hash that text.
pub uninterp spec fn git_blob_id(text: Seq<char>) -> Option<Seq<u8>>;

/// Calls `git2::Oid::hash_object` with the blob object type on the UTF-8
/// bytes of the text, and reads the bytes of the id (`Oid::as_bytes`).
/// Claimed: the call hashes its input alone (no repository is involved), so
/// whether it succeeds and the id it gives are `git_blob_id` of the text.
#[verifier::external_body]
fn blob_id(text: &str) -> (res: Result<Vec<u8>, git2::Error>)
    ensures
        match git_blob_id(text@) {
            Some(id) => res matches Ok(v) && v@ == id,
            None => res is Err,
        },
{
    let oid = git2::Oid::hash_object(git2::ObjectType::Blob, text.as_bytes())?;
    Ok(oid.as_bytes().to_vec())
}

/// The hash of a key of the given kind and label, whose inputs have the
/// given hashes: the id of the blob of `key_hash_text`.
pub fn key_hash(kind: &str, label: Option<&Label>, hashes: &Vec<Vec<u8>>) -> (res: Result<
    Vec<u8>,
    ContentHashError,
>)
    ensures
        match git_blob_id(
            key_hash_text(
                kind@,
                match label {
                    Some(l) => Some(l@),
                    None => None,
                },
                byte_views(hashes@),
            ),
        ) {
            Some(id) => res matches Ok(h) && h@ == id,
            None => res matches Err(e) && e is HashObject,
        },
{
    let text = hash_text(kind, label, hashes);
    match blob_id(text.as_str()) {
        Ok(h) => Ok(h),
        Err(e) => Err(ContentHashError::HashObject(e)),
    }
}

/// The hash of the tree at a path, given the id of that tree: the id of the
/// blob of its text.
pub fn tree_path_hash(tree_id: &[u8]) -> (res: Result<Vec<u8>, ContentHashError>)
    ensures
        match git_blob_id(
            "PathBufV"@ + decimal_text(CONTENT_HASH_VERSION as nat) + "("@ + hex_text(tree_id@) + ")"@,
        ) {
            Some(id) => res matches Ok(h) && h@ == id,
            None => res matches Err(e) && e is HashObject,
        },
{
    let text = tree_path_hash_text(tree_id);
    match blob_id(text.as_str()) {
        Ok(h) => Ok(h),
        Err(e) => Err(ContentHashError::HashObject(e)),
    }
}

/// For each match of the regular expression `pattern` in `text`, left to
/// right and not overlapping, the text of each of its capture groups
/// (group 0 being the whole match) where the group took part; none where
/// `pattern` does not build into a regular expression.
pub uninterp spec fn regex_captures(pattern: Seq<char>, text: Seq<char>) -> Option<
    Seq<Seq<Option<Seq<char>>>>,
>;

pub open spec fn capture_views(v: Seq<Vec<Option<String>>>) -> Seq<Seq<Option<Seq<char>>>> {
    v.map_values(|c: Vec<Option<String>>| c@.map_values(|g: Option<String>| optional_view(g)))
}

/// Calls `regex::Regex::new` on the pattern and `Regex::captures_iter` on
/// the text, reading each group of each match (`Captures::iter`,
/// `Match::as_str`). Claimed: an error exactly where `regex_captures` has
/// none, and otherwise its captures.
#[verifier::external_body]
fn captures_of(pattern: &str, text: &str) -> (res: Result<Vec<Vec<Option<String>>>, regex::Error>)
    ensures
        match res {
            Ok(v) => regex_captures(pattern@, text@) == Some(capture_views(v@)),
            Err(_) => regex_captures(pattern@, text@) is None,
        },
{
    let re = regex::Regex::new(pattern)?;
    Ok(
        re.captures_iter(text).map(|c| c.iter().map(|m| m.map(|m| m.as_str().to_string())).collect()).collect(),
    )
}

/// The pattern of the first argument of a `load` statement: `load`, an
/// opening parenthesis, a string in double or single quotes, and a comma or
/// closing parenthesis, with white space between them.
pub open spec fn load_pattern() -> Seq<char> {
    r#"(?x)
# Literal "load".
load
\s*?

# Open parenthesis.
\(
\s*?

# String literal enclosed in quotes.
(?:
    "( [[:print:]--"]*? )"
  | '( [[:print:]--']*? )'
)

# Either a closing parenthesis or a comma to start the argument list.
\s*?
(?:
  ,
| \)
)
"#@
}

/// The quoted text of a match: that of the double-quoted group, or else of
/// the single-quoted one.
pub open spec fn captured_target(c: Seq<Option<Seq<char>>>) -> Option<Seq<char>> {
    if c.len() > 1 && c[1] is Some {
        c[1]
    } else if c.len() > 2 && c[2] is Some {
        c[2]
    } else {
        None
    }
}

/// The labels that the matches load; a text that is no label is passed
/// over.
pub open spec fn loaded_labels(caps: Seq<Seq<Option<Seq<char>>>>) -> Set<LabelView>
    decreases caps.len(),
{
    if caps.len() == 0 {
        Set::empty()
    } else {
        let s = loaded_labels(caps.drop_last());
        match captured_target(caps.last()) {
            Some(t) => match parse_label(t) {
                Ok(l) => s.insert(l),
                Err(_) => s,
            },
            None => s,
        }
    }
}

/// The labels that the `load` statements of a build file's content load,
/// each once.
pub fn load_statement_labels(content: &str) -> (res: Result<Vec<Label>, regex::Error>)
    ensures
        match regex_captures(load_pattern(), content@) {
            Some(caps) => res matches Ok(v) && distinct_values(v@) && value_set(v@) == loaded_labels(
                caps,
            ),
            None => res is Err,
        },
{
    let pattern = r#"(?x)
# Literal "load".
load
\s*?

# Open parenthesis.
\(
\s*?

# String literal enclosed in quotes.
(?:
    "( [[:print:]--"]*? )"
  | '( [[:print:]--']*? )'
)

# Either a closing parenthesis or a comma to start the argument list.
\s*?
(?:
  ,
| \)
)
"#;
    let caps = captures_of(pattern, content)?;
    let ghost cv = capture_views(caps@);
    let mut result: Vec<Label> = Vec::new();
    let mut i: usize = 0;
    proof {
        assert(cv.subrange(0, 0) =~= Seq::<Seq<Option<Seq<char>>>>::empty());
        assert(value_set(result@) =~= Set::<LabelView>::empty());
    }
    while i < caps.len()
        invariant
            i <= caps@.len(),
            cv == capture_views(caps@),
            distinct_values(result@),
            value_set(result@) == loaded_labels(cv.subrange(0, i as int)),
        decreases caps@.len() - i,
    {
        let c = &caps[i];
        proof {
            assert(cv.subrange(0, i + 1).drop_last() =~= cv.subrange(0, i as int));
            assert(cv.subrange(0, i + 1).last() == cv[i as int]);
            assert(cv[i as int] == c@.map_values(|g: Option<String>| optional_view(g)));
        }
        let target: Option<&String> = if c.len() > 1 && c[1].is_some() {
            c[1].as_ref()
        } else if c.len() > 2 && c[2].is_some() {
            c[2].as_ref()
        } else {
            None
        };
        proof {
            match target {
                Some(t) => assert(captured_target(cv[i as int]) == Some(t@)),
                None => assert(captured_target(cv[i as int]) is None),
            }
        }
        match target {
            Some(t) => {
                match Label::parse(t.as_str()) {
                    Ok(l) => {
                        insert_value(&mut result, l);
                    },
                    Err(_) => {},
                }
            },
            None => {},
        }
        i = i + 1;
    }
    proof {
        assert(cv.subrange(0, i as int) =~= cv);
    }
    Ok(result)
}

} // verus!
