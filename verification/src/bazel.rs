//! Bazel queries: the query texts the resolver runs, the answers Bazel
//! gives (`bazel query --output xml`, read into the types below), what is
//! kept of them, and the dependency keys of the index.

use vstd::prelude::*;
use crate::maintenance::{join_path, joined_path};
use crate::target::{
    Label, LabelParseError, LabelView, Target, TargetName, TargetNameView, TargetView, label_text,
    parse_label,
};
use crate::path::{Component, PathComponent, path_components};
use crate::text::{join_with, str_equal, text_lines, views};
use crate::assoc::{distinct_keys, lemma_table_empty, lemma_table_entry, lemma_table_push, lemma_table_update, table};
use crate::valueset::{SameValue, distinct_values, insert_value, value_set};

verus! {

/// The answer to a query: its elements, in order.
#[derive(Debug)]
pub struct Query {
    pub rules: Vec<QueryElement>,
}

/// An element of a query's answer.
#[derive(Debug)]
pub enum QueryElement {
    Rule(Rule),
    SourceFile { name: String },
    GeneratedFile { name: String },
    PackageGroup,
}

/// A rule, with where it is defined and its attributes.
#[derive(Debug)]
pub struct Rule {
    pub name: String,
    pub location: Option<String>,
    pub elements: Vec<RuleElement>,
}

/// A list attribute of a rule.
#[derive(Debug)]
pub struct List {
    pub name: String,
    pub values: Vec<RuleElement>,
}

/// A label attribute of a rule.
#[derive(Debug, Clone)]
pub struct BazelLabel {
    pub name: Option<String>,
    pub value: Option<String>,
}

/// An attribute of a rule, or a value of a list attribute.
#[derive(Debug)]
#[allow(inconsistent_fields)]
pub enum RuleElement {
    Boolean { name: Option<String>, value: Option<String> },
    Int { name: Option<String>, value: Option<isize> },
    String { name: Option<String>, value: Option<String> },
    List(List),
    Dict { name: String },
    Label(BazelLabel),
    VisibilityLabel { name: String },
    RuleInput { name: String },
    RuleOutput { name: String },
    Output { name: Option<String> },
    Tristate { name: String },
}

/// Whether `needle` occurs in `haystack`.
pub open spec fn contains_text(haystack: Seq<char>, needle: Seq<char>) -> bool {
    exists|i: int|
        0 <= i && i + needle.len() <= haystack.len() && #[trigger] haystack.subrange(
            i,
            i + needle.len(),
        ) == needle
}

/// Whether `needle` occurs in `haystack`.
pub fn text_contains(haystack: &str, needle: &str) -> (res: bool)
    ensures
        res == contains_text(haystack@, needle@),
{
    let n = haystack.unicode_len();
    let m = needle.unicode_len();
    if m > n {
        return false;
    }
    if m == 0 {
        assert(haystack@.subrange(0int, 0int + needle@.len()) =~= needle@);
        return true;
    }
    let last = n - m;
    let mut i: usize = 0;
    while i <= last
        invariant
            n == haystack@.len(),
            m == needle@.len(),
            0 < m <= n,
            last == n - m,
            i <= last + 1,
            forall|j: int| 0 <= j < i ==> #[trigger] haystack@.subrange(j, j + m) != needle@,
        decreases last + 1 - i,
    {
        let piece = haystack.substring_char(i, i + m);
        if str_equal(piece, needle) {
            return true;
        }
        i = i + 1;
    }
    proof {
        if contains_text(haystack@, needle@) {
            let j = choose|j: int|
                0 <= j && j + needle@.len() <= haystack@.len() && #[trigger] haystack@.subrange(
                    j,
                    j + needle@.len(),
                ) == needle@;
            assert(haystack@.subrange(j, j + m) == needle@);
        }
    }
    false
}

/// The tag that marks a rule as usable with Bazel.
pub open spec fn required_tag() -> Seq<char> {
    "bazel-compatible"@
}

/// A plain string value equal to the required tag.
pub open spec fn is_required_tag(e: RuleElement) -> bool {
    match e {
        RuleElement::String { name: None, value: Some(v) } => v@ == required_tag(),
        _ => false,
    }
}

/// A `tags` list holding the required tag.
pub open spec fn is_tag_list_with_required_tag(e: RuleElement) -> bool {
    match e {
        RuleElement::List(l) => l.name@ == "tags"@ && exists|j: int|
            0 <= j < l.values@.len() && is_required_tag(#[trigger] l.values@[j]),
        _ => false,
    }
}

/// Whether a rule is defined in a `BUILD.bazel` file.
pub open spec fn in_bazel_file(location: Option<String>) -> bool {
    match location {
        Some(l) => contains_text(l@, "/BUILD.bazel:"@),
        None => false,
    }
}

/// The label text that an element of a query's answer contributes to the
/// top-level targets: rules defined in a `BUILD.bazel` file or tagged as
/// usable with Bazel, and every source or generated file.
pub open spec fn top_level_name(e: QueryElement) -> Option<Seq<char>> {
    match e {
        QueryElement::Rule(r) => if in_bazel_file(r.location) || exists|i: int|
            0 <= i < r.elements@.len() && is_tag_list_with_required_tag(#[trigger] r.elements@[i]) {
            Some(r.name@)
        } else {
            None
        },
        QueryElement::SourceFile { name } => Some(name@),
        QueryElement::GeneratedFile { name } => Some(name@),
        QueryElement::PackageGroup => None,
    }
}

/// The top-level targets of the elements, in turn; the first label that
/// does not parse stops it.
pub open spec fn top_level_labels(rules: Seq<QueryElement>) -> Result<Set<LabelView>, LabelParseError>
    decreases rules.len(),
{
    if rules.len() == 0 {
        Ok(Set::empty())
    } else {
        match top_level_labels(rules.drop_last()) {
            Err(e) => Err(e),
            Ok(s) => match top_level_name(rules.last()) {
                None => Ok(s),
                Some(t) => match parse_label(t) {
                    Ok(l) => Ok(s.insert(l)),
                    Err(e) => Err(e),
                },
            },
        }
    }
}

#[verifier::loop_isolation(false)]
fn has_required_tag(elements: &Vec<RuleElement>) -> (res: bool)
    ensures
        res == exists|i: int|
            0 <= i < elements@.len() && is_tag_list_with_required_tag(#[trigger] elements@[i]),
{
    let mut i: usize = 0;
    while i < elements.len()
        invariant
            i <= elements@.len(),
            forall|k: int| 0 <= k < i ==> !is_tag_list_with_required_tag(#[trigger] elements@[k]),
        decreases elements@.len() - i,
    {
        match &elements[i] {
            RuleElement::List(l) => {
                if str_equal(l.name.as_str(), "tags") {
                    let mut j: usize = 0;
                    while j < l.values.len()
                        invariant
                            j <= l.values@.len(),
                            forall|k: int| 0 <= k < j ==> !is_required_tag(#[trigger] l.values@[k]),
                        decreases l.values@.len() - j,
                    {
                        match &l.values[j] {
                            RuleElement::String { name: None, value: Some(v) } => {
                                if str_equal(v.as_str(), "bazel-compatible") {
                                    assert(is_required_tag(l.values@[j as int]));
                                    assert(is_tag_list_with_required_tag(elements@[i as int]));
                                    return true;
                                }
                            },
                            _ => {},
                        }
                        j = j + 1;
                    }
                }
            },
            _ => {},
        }
        i = i + 1;
    }
    false
}

impl SameValue for Label {
    fn same_as(&self, other: &Label) -> (res: bool) {
        Label::same_as(self, other)
    }

    fn duplicate(&self) -> (res: Label) {
        Label::duplicate(self)
    }
}

/// The top-level targets of a query's answer, each once; fails at the
/// first label that does not parse.
pub fn top_level_targets(query: &Query) -> (res: Result<Vec<Label>, LabelParseError>)
    ensures
        match top_level_labels(query.rules@) {
            Ok(s) => res matches Ok(v) && distinct_values(v@) && value_set(v@) == s,
            Err(e) => res == Err::<Vec<Label>, LabelParseError>(e),
        },
{
    let ghost rules = query.rules@;
    let mut result: Vec<Label> = Vec::new();
    let mut i: usize = 0;
    assert(value_set(result@) =~= Set::<LabelView>::empty());
    assert(rules.subrange(0, 0) =~= Seq::<QueryElement>::empty());
    while i < query.rules.len()
        invariant
            rules == query.rules@,
            i <= rules.len(),
            distinct_values(result@),
            top_level_labels(rules.subrange(0, i as int)) == Ok::<Set<LabelView>, LabelParseError>(
                value_set(result@),
            ),
        decreases rules.len() - i,
    {
        let ghost pre = rules.subrange(0, i as int);
        let ghost next = rules.subrange(0, i + 1);
        assert(next.drop_last() =~= pre);
        assert(next.last() == rules[i as int]);
        let name: Option<&String> = match &query.rules[i] {
            QueryElement::Rule(r) => {
                let keep = match &r.location {
                    Some(l) => text_contains(l.as_str(), "/BUILD.bazel:"),
                    None => false,
                };
                if keep || has_required_tag(&r.elements) {
                    Some(&r.name)
                } else {
                    None
                }
            },
            QueryElement::SourceFile { name } => Some(name),
            QueryElement::GeneratedFile { name } => Some(name),
            QueryElement::PackageGroup => None,
        };
        match name {
            Some(n) => {
                assert(top_level_name(rules[i as int]) == Some(n@));
                match Label::parse(n.as_str()) {
                    Ok(l) => {
                        insert_value(&mut result, l);
                    },
                    Err(e) => {
                        proof {
                            lemma_top_level_stuck(rules, i + 1);
                        }
                        return Err(e);
                    },
                }
            },
            None => {
                assert(top_level_name(rules[i as int]) is None);
            },
        }
        i = i + 1;
    }
    assert(rules.subrange(0, i as int) =~= rules);
    Ok(result)
}

proof fn lemma_top_level_stuck(rules: Seq<QueryElement>, n: int)
    requires
        0 <= n <= rules.len(),
        top_level_labels(rules.subrange(0, n)) is Err,
    ensures
        top_level_labels(rules) == top_level_labels(rules.subrange(0, n)),
    decreases rules.len() - n,
{
    if n < rules.len() {
        assert(rules.subrange(0, n + 1).drop_last() =~= rules.subrange(0, n));
        lemma_top_level_stuck(rules, n + 1);
    } else {
        assert(rules.subrange(0, n) =~= rules);
    }
}

/// A target name in double quotes, so that Bazel reads it as one token.
pub open spec fn quoted(name: Seq<char>) -> Seq<char> {
    "\""@ + name + "\""@
}

/// The query set of the given labels, each quoted.
pub open spec fn bazel_set_text(labels: Seq<LabelView>) -> Seq<char> {
    "set("@ + join_with(labels.map_values(|l: LabelView| quoted(label_text(l))), " "@) + ")"@
}

/// Resolves Bazel targets by querying Bazel.
#[derive(Debug, Clone)]
pub struct BazelResolver {
    pub cache_root: String,
}

impl BazelResolver {
    /// A resolver keeping its cache below `cache_root`.
    pub fn new(cache_root: &str) -> (res: BazelResolver)
        ensures
            res.cache_root@ == joined_path(cache_root@, "bazel"@),
    {
        BazelResolver { cache_root: join_path(cache_root, "bazel") }
    }

    /// `target_name` in double quotes.
    pub fn quote_target_name(target_name: &str) -> (res: String)
        ensures
            res@ == quoted(target_name@),
    {
        String::from_str("\"").concat(target_name).concat("\"")
    }

    /// The query set of the given labels: `set("a" "b" ...)`.
    pub fn make_bazel_set(labels: &Vec<Label>) -> (res: String)
        ensures
            res@ == bazel_set_text(labels@.map_values(|l: Label| l@)),
    {
        let mut quoted_labels: Vec<String> = Vec::new();
        let mut i: usize = 0;
        while i < labels.len()
            invariant
                i <= labels@.len(),
                views(quoted_labels@) == labels@.map_values(|l: Label| l@).map_values(
                    |l: LabelView| quoted(label_text(l)),
                ).subrange(0, i as int),
            decreases labels@.len() - i,
        {
            let ghost prev = quoted_labels@;
            let text = labels[i].to_string();
            let q = Self::quote_target_name(text.as_str());
            quoted_labels.push(q);
            proof {
                assert(views(quoted_labels@) =~= views(prev).push(q@));
                assert(labels@.map_values(|l: Label| l@).map_values(
                    |l: LabelView| quoted(label_text(l)),
                ).subrange(0, i + 1) =~= labels@.map_values(|l: Label| l@).map_values(
                    |l: LabelView| quoted(label_text(l)),
                ).subrange(0, i as int).push(q@));
            }
            i = i + 1;
        }
        assert(labels@.map_values(|l: Label| l@).map_values(|l: LabelView| quoted(label_text(l))).subrange(
            0,
            i as int,
        ) =~= labels@.map_values(|l: Label| l@).map_values(|l: LabelView| quoted(label_text(l))));
        let joined = crate::text::join_strings(&quoted_labels, " ");
        String::from_str("set(").concat(joined.as_str()).concat(")")
    }
}

/// Something the index knows the content of.
#[derive(Debug)]
pub enum DependencyKey {
    /// A Bazel package of the build graph.
    BazelPackage(Label),
    /// A `BUILD` or `.bzl` file.
    BazelBuildFile(Label),
    /// A path to check out.
    Path(String),
    /// Made up by tests.
    DummyForTesting(Box<DependencyKey>),
}

/// The mathematical value of a `DependencyKey`.
pub enum DependencyKeyView {
    BazelPackage(LabelView),
    BazelBuildFile(LabelView),
    Path(Seq<char>),
    DummyForTesting(Box<DependencyKeyView>),
}

impl View for DependencyKey {
    type V = DependencyKeyView;

    open spec fn view(&self) -> DependencyKeyView
        decreases self,
    {
        match self {
            DependencyKey::BazelPackage(l) => DependencyKeyView::BazelPackage(l@),
            DependencyKey::BazelBuildFile(l) => DependencyKeyView::BazelBuildFile(l@),
            DependencyKey::Path(p) => DependencyKeyView::Path(p@),
            DependencyKey::DummyForTesting(k) => DependencyKeyView::DummyForTesting(
                Box::new((**k).view()),
            ),
        }
    }
}

impl DependencyKey {
    /// A copy of the key.
    pub fn duplicate(&self) -> (res: DependencyKey)
        ensures
            res@ == self@,
        decreases self,
    {
        match self {
            DependencyKey::BazelPackage(l) => DependencyKey::BazelPackage(l.duplicate()),
            DependencyKey::BazelBuildFile(l) => DependencyKey::BazelBuildFile(l.duplicate()),
            DependencyKey::Path(p) => DependencyKey::Path(p.clone()),
            DependencyKey::DummyForTesting(k) => DependencyKey::DummyForTesting(
                Box::new((**k).duplicate()),
            ),
        }
    }
}

impl DependencyKey {
    /// Whether two keys have the same value.
    pub fn same_key(&self, other: &DependencyKey) -> (res: bool)
        ensures
            res == (self@ == other@),
        decreases self,
    {
        match (self, other) {
            (DependencyKey::BazelPackage(a), DependencyKey::BazelPackage(b)) => a.same_as(b),
            (DependencyKey::BazelBuildFile(a), DependencyKey::BazelBuildFile(b)) => a.same_as(b),
            (DependencyKey::Path(a), DependencyKey::Path(b)) => str_equal(a.as_str(), b.as_str()),
            (DependencyKey::DummyForTesting(a), DependencyKey::DummyForTesting(b)) => {
                let r = (**a).same_key(&**b);
                proof {
                    if r {
                        assert(self@ == other@);
                    } else {
                        assert((**a)@ != (**b)@);
                    }
                }
                r
            },
            _ => false,
        }
    }
}

impl SameValue for DependencyKey {
    fn same_as(&self, other: &DependencyKey) -> (res: bool) {
        self.same_key(other)
    }

    fn duplicate(&self) -> (res: DependencyKey) {
        DependencyKey::duplicate(self)
    }
}

pub open spec fn key_views(v: Seq<DependencyKey>) -> Seq<DependencyKeyView> {
    v.map_values(|k: DependencyKey| k@)
}

/// What the index knows of a key.
#[derive(Debug)]
pub enum DependencyValue {
    /// The immediate dependencies of a package.
    PackageInfo { deps: Vec<DependencyKey> },
    /// A path to check out.
    Path { path: String },
    /// Made up by tests.
    DummyForTesting(DependencyKey),
}

impl DependencyKey {
    /// The key of a Bazel or directory target.
    pub fn from_target(target: Target) -> (res: DependencyKey)
        requires
            !(target is Pants),
        ensures
            match target@ {
                TargetView::Bazel(l) => res@ == DependencyKeyView::BazelPackage(l),
                TargetView::Directory(p) => res@ == DependencyKeyView::Path(p),
                TargetView::Pants(_) => false,
            },
    {
        match target {
            Target::Bazel(label) => DependencyKey::BazelPackage(label),
            Target::Directory(path) => DependencyKey::Path(path),
            Target::Pants(_) => {
                assert(false);
                DependencyKey::Path(String::new())
            },
        }
    }
}

/// The path made by pushing each component in turn onto an empty path.
pub open spec fn components_path(components: Seq<Seq<char>>) -> Seq<char>
    decreases components.len(),
{
    if components.len() == 0 {
        Seq::empty()
    } else {
        joined_path(components_path(components.drop_last()), components.last())
    }
}

pub(crate) fn path_of_components(components: &Vec<String>) -> (res: String)
    ensures
        res@ == components_path(views(components@)),
{
    let mut path = String::new();
    let mut i: usize = 0;
    assert(views(components@).subrange(0, 0) =~= Seq::<Seq<char>>::empty());
    while i < components.len()
        invariant
            i <= components@.len(),
            path@ == components_path(views(components@).subrange(0, i as int)),
        decreases components@.len() - i,
    {
        assert(views(components@).subrange(0, i + 1).drop_last() =~= views(components@).subrange(
            0,
            i as int,
        ));
        path = join_path(path.as_str(), components[i].as_str());
        i = i + 1;
    }
    assert(views(components@).subrange(0, i as int) =~= views(components@));
    path
}

/// The path that a label of this repository stands for; none for a label
/// of an external repository.
pub open spec fn label_path(l: LabelView) -> Option<Seq<char>> {
    match l.external_repository {
        Some(_) => None,
        None => match l.target_name {
            TargetNameView::Ellipsis => Some(components_path(l.path_components)),
            TargetNameView::Name(n) => Some(joined_path(components_path(l.path_components), n)),
        },
    }
}

/// The path that a label of this repository stands for.
pub fn label_into_path(label: Label) -> (res: Option<String>)
    ensures
        crate::text::optional_view(res) == label_path(label@),
{
    match &label.external_repository {
        Some(_) => None,
        None => {
            let base = path_of_components(&label.path_components);
            match &label.target_name {
                TargetName::Ellipsis => Some(base),
                TargetName::Name(name) => Some(join_path(base.as_str(), name.as_str())),
            }
        },
    }
}

/// The target text of a key.
pub open spec fn key_target_text(k: DependencyKeyView) -> Seq<char> {
    match k {
        DependencyKeyView::BazelPackage(l) => "bazel:"@ + label_text(l),
        DependencyKeyView::BazelBuildFile(l) => "bazel:"@ + label_text(l),
        DependencyKeyView::Path(p) => "directory:"@ + p,
        DependencyKeyView::DummyForTesting(_) => Seq::empty(),
    }
}

/// The target text of a key that is not made up by tests.
pub fn dep_key_to_target(dep_key: &DependencyKey) -> (res: String)
    requires
        !(dep_key is DummyForTesting),
    ensures
        res@ == key_target_text(dep_key@),
{
    match dep_key {
        DependencyKey::BazelPackage(label) | DependencyKey::BazelBuildFile(label) => {
            let text = label.to_string();
            String::from_str("bazel:").concat(text.as_str())
        },
        DependencyKey::Path(path) => String::from_str("directory:").concat(path.as_str()),
        DependencyKey::DummyForTesting(_) => String::new(),
    }
}

/// A key for a package or build file of this repository.
pub open spec fn is_local_bazel_key(k: DependencyKeyView) -> bool {
    match k {
        DependencyKeyView::BazelPackage(l) => l.external_repository is None,
        DependencyKeyView::BazelBuildFile(l) => l.external_repository is None,
        _ => false,
    }
}

/// The path components of a Bazel key.
pub open spec fn key_components(k: DependencyKeyView) -> Seq<Seq<char>> {
    match k {
        DependencyKeyView::BazelPackage(l) => l.path_components,
        DependencyKeyView::BazelBuildFile(l) => l.path_components,
        _ => Seq::empty(),
    }
}

/// The keys of `keys` below the directory of `containing`, in order.
pub open spec fn keys_below(keys: Seq<DependencyKeyView>, containing: Seq<Seq<char>>) -> Seq<
    DependencyKeyView,
> {
    keys.filter(|k: DependencyKeyView| containing.is_prefix_of(key_components(k)))
}

fn starts_with_components(a: &Vec<String>, prefix: &Vec<String>) -> (res: bool)
    ensures
        res == views(prefix@).is_prefix_of(views(a@)),
{
    if prefix.len() > a.len() {
        return false;
    }
    let mut i: usize = 0;
    while i < prefix.len()
        invariant
            prefix@.len() <= a@.len(),
            i <= prefix@.len(),
            forall|j: int| 0 <= j < i ==> prefix@[j]@ == a@[j]@,
        decreases prefix@.len() - i,
    {
        if !str_equal(prefix[i].as_str(), a[i].as_str()) {
            assert(views(prefix@)[i as int] != views(a@)[i as int]);
            return false;
        }
        i = i + 1;
    }
    assert(views(a@).subrange(0, views(prefix@).len() as int) =~= views(prefix@));
    true
}

/// Package information that lists exactly `deps`, in order.
pub open spec fn is_package_info(v: DependencyValue, deps: Seq<DependencyKeyView>) -> bool {
    match v {
        DependencyValue::PackageInfo { deps: d } => key_views(d@) == deps,
        _ => false,
    }
}

fn keys_under(keys: &Vec<DependencyKey>, containing: &Vec<String>) -> (res: Vec<DependencyKey>)
    requires
        forall|i: int| 0 <= i < keys@.len() ==> is_local_bazel_key(#[trigger] keys@[i]@),
    ensures
        key_views(res@) == keys_below(key_views(keys@), views(containing@)),
{
    let ghost kv = key_views(keys@);
    let ghost prefix = views(containing@);
    let ghost keep = |k: DependencyKeyView| prefix.is_prefix_of(key_components(k));
    let mut deps: Vec<DependencyKey> = Vec::new();
    let mut i: usize = 0;
    while i < keys.len()
        invariant
            i <= keys@.len(),
            kv == key_views(keys@),
            prefix == views(containing@),
            keep == (|k: DependencyKeyView| prefix.is_prefix_of(key_components(k))),
            forall|m: int| 0 <= m < keys@.len() ==> is_local_bazel_key(#[trigger] keys@[m]@),
            key_views(deps@) == kv.subrange(0, i as int).filter(keep),
        decreases keys@.len() - i,
    {
        proof {
            assert(kv.subrange(0, i + 1) =~= kv.subrange(0, i as int).push(kv[i as int]));
            kv.subrange(0, i as int).lemma_filter_push(kv[i as int], keep);
            assert(kv[i as int] == keys@[i as int]@);
        }
        let under = match &keys[i] {
            DependencyKey::BazelPackage(l) | DependencyKey::BazelBuildFile(l) => starts_with_components(
                &l.path_components,
                containing,
            ),
            _ => false,
        };
        assert(under == keep(kv[i as int]));
        if under {
            let ghost prev = deps@;
            let d = keys[i].duplicate();
            deps.push(d);
            assert(key_views(deps@) =~= key_views(prev).push(kv[i as int]));
        }
        i = i + 1;
    }
    assert(kv.subrange(0, i as int) =~= kv);
    deps
}

/// An entry of the recursive dependencies: the query `l` with exactly the
/// keys below its directory, of which there is at least one.
pub open spec fn is_recursive_entry(
    entry: (DependencyKey, DependencyValue),
    l: LabelView,
    keys: Seq<DependencyKeyView>,
) -> bool {
    &&& entry.0@ == DependencyKeyView::BazelPackage(l)
    &&& keys_below(keys, l.path_components).len() > 0
    &&& is_package_info(entry.1, keys_below(keys, l.path_components))
}

/// An entry of the recursive dependencies for one of the queries `ls`.
pub open spec fn entry_of_some_query(
    entry: (DependencyKey, DependencyValue),
    ls: Seq<LabelView>,
    keys: Seq<DependencyKeyView>,
) -> bool {
    exists|j: int| 0 <= j < ls.len() && is_recursive_entry(entry, #[trigger] ls[j], keys)
}

/// Dependencies for each recursive query `//foo/...` of `recursive`: the
/// keys of `keys` whose package lies below `//foo`, for those queries with
/// any such key, in the order of the queries, each query once.
pub fn add_recursive_package_query_deps(recursive: &Vec<Label>, keys: &Vec<DependencyKey>) -> (res:
    Vec<(DependencyKey, DependencyValue)>)
    requires
        recursive@.len() > 0 ==> forall|i: int|
            0 <= i < keys@.len() ==> is_local_bazel_key(#[trigger] keys@[i]@),
    ensures
        forall|i: int|
            0 <= i < res@.len() ==> entry_of_some_query(
                #[trigger] res@[i],
                recursive@.map_values(|l: Label| l@),
                key_views(keys@),
            ),
        forall|j: int|
            0 <= j < recursive@.len() && keys_below(
                key_views(keys@),
                #[trigger] recursive@[j]@.path_components,
            ).len() > 0 ==> exists|i: int|
                0 <= i < res@.len() && is_recursive_entry(res@[i], recursive@[j]@, key_views(keys@)),
        forall|a: int, b: int| 0 <= a < b < res@.len() ==> res@[a].0@ != res@[b].0@,
{
    let ghost kv = key_views(keys@);
    let ghost lv = recursive@.map_values(|l: Label| l@);
    let mut res: Vec<(DependencyKey, DependencyValue)> = Vec::new();
    let ghost mut origin: Seq<int> = Seq::empty();
    let mut j: usize = 0;
    while j < recursive.len()
        invariant
            j <= recursive@.len(),
            kv == key_views(keys@),
            lv == recursive@.map_values(|l: Label| l@),
            recursive@.len() > 0 ==> forall|i: int|
                0 <= i < keys@.len() ==> is_local_bazel_key(#[trigger] keys@[i]@),
            origin.len() == res@.len(),
            forall|i: int|
                0 <= i < res@.len() ==> 0 <= #[trigger] origin[i] < j && is_recursive_entry(
                    res@[i],
                    lv[origin[i]],
                    kv,
                ),
            forall|a: int, b: int| 0 <= a < b < res@.len() ==> res@[a].0@ != res@[b].0@,
            forall|k: int|
                0 <= k < j && keys_below(kv, #[trigger] lv[k].path_components).len() > 0
                    ==> exists|i: int| 0 <= i < res@.len() && is_recursive_entry(res@[i], lv[k], kv),
        decreases recursive@.len() - j,
    {
        let containing = &recursive[j];
        let deps = keys_under(keys, &containing.path_components);
        assert(lv[j as int] == containing@);
        let key = DependencyKey::BazelPackage(containing.duplicate());
        let mut m: usize = 0;
        let mut present = false;
        while m < res.len() && !present
            invariant
                m <= res@.len(),
                !present ==> forall|a: int| 0 <= a < m ==> res@[a].0@ != key@,
                present ==> m > 0 && res@[m - 1].0@ == key@,
            decreases res@.len() - m,
        {
            present = res[m].0.same_as(&key);
            m = m + 1;
        }
        if present {
            proof {
                let i = (m - 1) as int;
                let o = origin[i];
                assert(is_recursive_entry(res@[i], lv[o], kv));
                assert(lv[o] == lv[j as int]);
                assert(is_recursive_entry(res@[i], lv[j as int], kv) == is_recursive_entry(
                    res@[i],
                    lv[o],
                    kv,
                ));
            }
        } else if deps.len() > 0 {
            let ghost before = res@;
            let ghost old_origin = origin;
            res.push((key, DependencyValue::PackageInfo { deps }));
            proof {
                origin = origin.push(j as int);
                assert forall|i: int| 0 <= i < res@.len() implies 0 <= #[trigger] origin[i] < j + 1
                    && is_recursive_entry(res@[i], lv[origin[i]], kv) by {
                    if i < before.len() {
                        assert(res@[i] == before[i]);
                        assert(origin[i] == old_origin[i]);
                    }
                }
                assert forall|a: int, b: int| 0 <= a < b < res@.len() implies res@[a].0@
                    != res@[b].0@ by {
                    assert(res@[a] == before[a]);
                    if b < before.len() {
                        assert(res@[b] == before[b]);
                    }
                }
                assert forall|k: int|
                    0 <= k < j + 1 && keys_below(kv, #[trigger] lv[k].path_components).len() > 0
                        implies exists|i: int| 0 <= i < res@.len() && is_recursive_entry(res@[i], lv[k], kv) by {
                    if k < j {
                        let i = choose|i: int| 0 <= i < before.len() && is_recursive_entry(before[i], lv[k], kv);
                        assert(res@[i] == before[i]);
                    } else {
                        assert(is_recursive_entry(res@[before.len() as int], lv[k], kv));
                    }
                }
            }
        }
        j = j + 1;
    }
    proof {
        assert forall|i: int| 0 <= i < res@.len() implies entry_of_some_query(
            #[trigger] res@[i],
            lv,
            kv,
        ) by {
            let k = origin[i];
            assert(is_recursive_entry(res@[i], lv[k], kv));
        }
        assert forall|j: int|
            0 <= j < recursive@.len() && keys_below(
                key_views(keys@),
                #[trigger] recursive@[j]@.path_components,
            ).len() > 0 implies exists|i: int|
                0 <= i < res@.len() && is_recursive_entry(res@[i], recursive@[j]@, key_views(keys@)) by {
            assert(lv[j] == recursive@[j]@);
        }
    }
    res
}

/// What materializing a key asks for at once: the path it names, if any,
/// and whether its dependencies are to be looked up in the index.
pub struct KeyStep {
    pub path: Option<String>,
    pub look_up: bool,
}

/// The path and lookup that materializing a key asks for: a package of this
/// repository gives its directory and is looked up; a path gives itself; a
/// build file gives the directory of its package; anything else gives
/// nothing.
pub open spec fn key_step(k: DependencyKeyView) -> (Option<Seq<char>>, bool) {
    match k {
        DependencyKeyView::BazelPackage(l) => match l.external_repository {
            None => (Some(components_path(l.path_components)), true),
            Some(_) => (None, false),
        },
        DependencyKeyView::Path(p) => (Some(p), false),
        DependencyKeyView::BazelBuildFile(l) => (
            label_path(LabelView { target_name: TargetNameView::Ellipsis, ..l }),
            false,
        ),
        DependencyKeyView::DummyForTesting(_) => (None, false),
    }
}

/// What materializing `key` asks for at once.
pub fn materialize_key(key: &DependencyKey) -> (res: KeyStep)
    ensures
        (crate::text::optional_view(res.path), res.look_up) == key_step(key@),
{
    match key {
        DependencyKey::BazelPackage(label) => match &label.external_repository {
            None => KeyStep { path: Some(path_of_components(&label.path_components)), look_up: true },
            Some(_) => KeyStep { path: None, look_up: false },
        },
        DependencyKey::Path(p) => KeyStep { path: Some(p.clone()), look_up: false },
        DependencyKey::BazelBuildFile(label) => {
            let containing = Label {
                external_repository: label.external_repository.clone(),
                path_components: crate::text::copy_strings(&label.path_components),
                target_name: TargetName::Ellipsis,
            };
            assert(containing@ == (LabelView { target_name: TargetNameView::Ellipsis, ..label@ }));
            KeyStep { path: label_into_path(containing), look_up: false }
        },
        DependencyKey::DummyForTesting(_) => KeyStep { path: None, look_up: false },
    }
}

/// What the index's answer for a looked-up key adds: the keys it depends
/// on, a path to check out, or that the key is missing from the index.
pub struct ValueStep {
    pub next: Vec<DependencyKey>,
    pub path: Option<String>,
    pub missing: bool,
}

/// What the index's answer for a looked-up key adds.
pub fn absorb_value(value: Option<DependencyValue>) -> (res: ValueStep)
    ensures
        match value {
            Some(DependencyValue::PackageInfo { deps }) => key_views(res.next@) == key_views(deps@)
                && res.path is None && !res.missing,
            Some(DependencyValue::Path { path }) => res.next@.len() == 0 && res.path == Some(path)
                && !res.missing,
            Some(DependencyValue::DummyForTesting(_)) => res.next@.len() == 0 && res.path is None
                && !res.missing,
            None => res.next@.len() == 0 && res.path is None && res.missing,
        },
{
    match value {
        Some(DependencyValue::PackageInfo { deps }) => ValueStep { next: deps, path: None, missing: false },
        Some(DependencyValue::Path { path }) => ValueStep { next: Vec::new(), path: Some(path), missing: false },
        Some(DependencyValue::DummyForTesting(_)) => ValueStep { next: Vec::new(), path: None, missing: false },
        None => ValueStep { next: Vec::new(), path: None, missing: true },
    }
}


/// The labels of the rule inputs among a rule's attributes, in turn; the
/// first that does not parse stops it.
pub open spec fn rule_input_labels(es: Seq<RuleElement>) -> Result<Set<LabelView>, LabelParseError>
    decreases es.len(),
{
    if es.len() == 0 {
        Ok(Set::empty())
    } else {
        match rule_input_labels(es.drop_last()) {
            Err(e) => Err(e),
            Ok(s) => match es.last() {
                RuleElement::RuleInput { name } => match parse_label(name@) {
                    Ok(l) => Ok(s.insert(l)),
                    Err(e) => Err(e),
                },
                _ => Ok(s),
            },
        }
    }
}

proof fn lemma_rule_inputs_stuck(es: Seq<RuleElement>, n: int)
    requires
        0 <= n <= es.len(),
        rule_input_labels(es.subrange(0, n)) is Err,
    ensures
        rule_input_labels(es) == rule_input_labels(es.subrange(0, n)),
    decreases es.len() - n,
{
    if n < es.len() {
        assert(es.subrange(0, n + 1).drop_last() =~= es.subrange(0, n));
        lemma_rule_inputs_stuck(es, n + 1);
    } else {
        assert(es.subrange(0, n) =~= es);
    }
}

/// The rule inputs of a rule, each once.
fn rule_inputs(elements: &Vec<RuleElement>) -> (res: Result<Vec<Label>, LabelParseError>)
    ensures
        match rule_input_labels(elements@) {
            Ok(s) => res matches Ok(v) && distinct_values(v@) && value_set(v@) == s,
            Err(e) => res == Err::<Vec<Label>, LabelParseError>(e),
        },
{
    let ghost es = elements@;
    let mut result: Vec<Label> = Vec::new();
    let mut i: usize = 0;
    assert(value_set(result@) =~= Set::<LabelView>::empty());
    assert(es.subrange(0, 0) =~= Seq::<RuleElement>::empty());
    while i < elements.len()
        invariant
            es == elements@,
            i <= es.len(),
            distinct_values(result@),
            rule_input_labels(es.subrange(0, i as int)) == Ok::<Set<LabelView>, LabelParseError>(
                value_set(result@),
            ),
        decreases es.len() - i,
    {
        assert(es.subrange(0, i + 1).drop_last() =~= es.subrange(0, i as int));
        assert(es.subrange(0, i + 1).last() == es[i as int]);
        match &elements[i] {
            RuleElement::RuleInput { name } => {
                match Label::parse(name.as_str()) {
                    Ok(l) => {
                        insert_value(&mut result, l);
                    },
                    Err(e) => {
                        proof {
                            lemma_rule_inputs_stuck(es, i + 1);
                        }
                        return Err(e);
                    },
                }
            },
            _ => {},
        }
        i = i + 1;
    }
    assert(es.subrange(0, i as int) =~= es);
    Ok(result)
}

/// The immediate dependencies of the packages of a query's answer, in
/// turn: each rule's label with the labels of its rule inputs (gathered
/// over all the rules of that label), and each source or generated file
/// with none of its own; the first label that does not parse stops it.
pub open spec fn immediate_deps(rules: Seq<QueryElement>) -> Result<
    Map<LabelView, Set<LabelView>>,
    LabelParseError,
>
    decreases rules.len(),
{
    if rules.len() == 0 {
        Ok(Map::empty())
    } else {
        match immediate_deps(rules.drop_last()) {
            Err(e) => Err(e),
            Ok(m) => match rules.last() {
                QueryElement::Rule(r) => match parse_label(r.name@) {
                    Err(e) => Err(e),
                    Ok(t) => match rule_input_labels(r.elements@) {
                        Err(e) => Err(e),
                        Ok(ins) => Ok(
                            m.insert(
                                t,
                                if m.contains_key(t) {
                                    m[t].union(ins)
                                } else {
                                    ins
                                },
                            ),
                        ),
                    },
                },
                QueryElement::SourceFile { name } => match parse_label(name@) {
                    Err(e) => Err(e),
                    Ok(t) => Ok(
                        if m.contains_key(t) {
                            m
                        } else {
                            m.insert(t, Set::empty())
                        },
                    ),
                },
                QueryElement::GeneratedFile { name } => match parse_label(name@) {
                    Err(e) => Err(e),
                    Ok(t) => Ok(
                        if m.contains_key(t) {
                            m
                        } else {
                            m.insert(t, Set::empty())
                        },
                    ),
                },
                QueryElement::PackageGroup => Ok(m),
            },
        }
    }
}

proof fn lemma_immediate_deps_stuck(rules: Seq<QueryElement>, n: int)
    requires
        0 <= n <= rules.len(),
        immediate_deps(rules.subrange(0, n)) is Err,
    ensures
        immediate_deps(rules) == immediate_deps(rules.subrange(0, n)),
    decreases rules.len() - n,
{
    if n < rules.len() {
        assert(rules.subrange(0, n + 1).drop_last() =~= rules.subrange(0, n));
        lemma_immediate_deps_stuck(rules, n + 1);
    } else {
        assert(rules.subrange(0, n) =~= rules);
    }
}

/// The package keys of a set of labels.
pub open spec fn package_keys(s: Set<LabelView>) -> Set<DependencyKeyView> {
    s.map(|l: LabelView| DependencyKeyView::BazelPackage(l))
}

/// Package information listing, each once, the package keys of `deps`.
pub open spec fn lists_packages(v: DependencyValue, deps: Set<LabelView>) -> bool {
    match v {
        DependencyValue::PackageInfo { deps: d } => key_views(d@).no_duplicates() && key_views(
            d@,
        ).to_set() == package_keys(deps),
        _ => false,
    }
}

/// The entries hold, each once, the package key of each label of `m` with
/// package information listing the packages it maps to, and nothing else.
pub open spec fn is_dependency_table(
    v: Seq<(DependencyKey, DependencyValue)>,
    m: Map<LabelView, Set<LabelView>>,
) -> bool {
    &&& forall|i: int|
        0 <= i < v.len() ==> (#[trigger] v[i]).0@ is BazelPackage && m.contains_key(
            v[i].0@->BazelPackage_0,
        ) && lists_packages(v[i].1, m[v[i].0@->BazelPackage_0])
    &&& forall|l: LabelView|
        #[trigger] m.contains_key(l) ==> exists|i: int|
            0 <= i < v.len() && v[i].0@ == DependencyKeyView::BazelPackage(l)
    &&& forall|i: int, j: int|
        0 <= i < v.len() && 0 <= j < v.len() && i != j ==> (#[trigger] v[i]).0@ != (#[trigger] v[j]).0@
}

/// The labels gathered so far, each with the set of its dependencies.
pub open spec fn groups(acc: Seq<(Label, Vec<Label>)>) -> Seq<(LabelView, Set<LabelView>)> {
    acc.map_values(|x: (Label, Vec<Label>)| (x.0@, value_set(x.1@)))
}

fn find_group(acc: &Vec<(Label, Vec<Label>)>, l: &Label) -> (res: Option<usize>)
    requires
        distinct_keys(groups(acc@)),
    ensures
        match res {
            Some(i) => i < acc@.len() && acc@[i as int].0@ == l@,
            None => !table(groups(acc@)).contains_key(l@),
        },
{
    let ghost g = groups(acc@);
    let mut i: usize = 0;
    while i < acc.len()
        invariant
            i <= acc@.len(),
            g == groups(acc@),
            forall|j: int| 0 <= j < i ==> #[trigger] g[j].0 != l@,
        decreases acc@.len() - i,
    {
        if acc[i].0.same_as(l) {
            return Some(i);
        }
        i = i + 1;
    }
    None
}

fn union_into(d: &mut Vec<Label>, ins: &Vec<Label>)
    requires
        distinct_values(old(d)@),
    ensures
        distinct_values(final(d)@),
        value_set(final(d)@) == value_set(old(d)@).union(value_set(ins@)),
{
    let ghost start = value_set(d@);
    let mut j: usize = 0;
    while j < ins.len()
        invariant
            j <= ins@.len(),
            distinct_values(d@),
            value_set(d@) == start.union(value_set(ins@.subrange(0, j as int))),
        decreases ins@.len() - j,
    {
        let x = ins[j].duplicate();
        insert_value(d, x);
        proof {
            let vs = crate::valueset::value_seq(ins@.subrange(0, j as int));
            assert(crate::valueset::value_seq(ins@.subrange(0, j + 1)) =~= vs.push(ins@[j as int]@));
            vs.lemma_push_to_set_commute(ins@[j as int]@);
            assert(value_set(d@) =~= start.union(value_set(ins@.subrange(0, j + 1))));
        }
        j = j + 1;
    }
    assert(ins@.subrange(0, j as int) =~= ins@);
}

fn package_keys_of(d: &Vec<Label>) -> (res: Vec<DependencyKey>)
    ensures
        key_views(res@) == crate::valueset::value_seq(d@).map_values(
            |l: LabelView| DependencyKeyView::BazelPackage(l),
        ),
{
    let mut res: Vec<DependencyKey> = Vec::new();
    let mut j: usize = 0;
    while j < d.len()
        invariant
            j <= d@.len(),
            res@.len() == j,
            key_views(res@) == crate::valueset::value_seq(d@.subrange(0, j as int)).map_values(
                |l: LabelView| DependencyKeyView::BazelPackage(l),
            ),
        decreases d@.len() - j,
    {
        let ghost prev = res@;
        res.push(DependencyKey::BazelPackage(d[j].duplicate()));
        proof {
            let f = |l: LabelView| DependencyKeyView::BazelPackage(l);
            let lhs = key_views(res@);
            let rhs = crate::valueset::value_seq(d@.subrange(0, j + 1)).map_values(f);
            assert forall|a: int| 0 <= a < j + 1 implies lhs[a] == rhs[a] by {
                assert(d@.subrange(0, j + 1)[a] == d@[a]);
                if a < j {
                    assert(res@[a] == prev[a]);
                    assert(key_views(prev)[a] == crate::valueset::value_seq(d@.subrange(0, j as int)).map_values(f)[a]);
                    assert(d@.subrange(0, j as int)[a] == d@[a]);
                }
            }
            assert(lhs =~= rhs);
        }
        j = j + 1;
    }
    assert(d@.subrange(0, j as int) =~= d@);
    res
}

proof fn lemma_lists_packages(d: Seq<Label>, keys: Vec<DependencyKey>)
    requires
        distinct_values(d),
        key_views(keys@) == crate::valueset::value_seq(d).map_values(
            |l: LabelView| DependencyKeyView::BazelPackage(l),
        ),
    ensures
        lists_packages(DependencyValue::PackageInfo { deps: keys }, value_set(d)),
{
    let f = |l: LabelView| DependencyKeyView::BazelPackage(l);
    let vs = crate::valueset::value_seq(d);
    assert(vstd::relations::injective(f));
    vs.lemma_no_duplicates_injective(f);
    vs.lemma_to_set_map_commutes(f);
}


/// The immediate dependencies of the packages of a query's answer: each
/// package key once, with the package keys it depends on, each once.
pub fn immediate_dependencies(query: &Query) -> (res: Result<
    Vec<(DependencyKey, DependencyValue)>,
    LabelParseError,
>)
    ensures
        match immediate_deps(query.rules@) {
            Ok(m) => res matches Ok(v) && is_dependency_table(v@, m),
            Err(e) => res matches Err(r) && r == e,
        },
{
    let ghost rules = query.rules@;
    let mut acc: Vec<(Label, Vec<Label>)> = Vec::new();
    let mut i: usize = 0;
    proof {
        lemma_table_empty(groups(acc@));
        assert(rules.subrange(0, 0) =~= Seq::<QueryElement>::empty());
    }
    while i < query.rules.len()
        invariant
            rules == query.rules@,
            i <= rules.len(),
            distinct_keys(groups(acc@)),
            forall|k: int| 0 <= k < acc@.len() ==> distinct_values(#[trigger] acc@[k].1@),
            immediate_deps(rules.subrange(0, i as int)) == Ok::<
                Map<LabelView, Set<LabelView>>,
                LabelParseError,
            >(table(groups(acc@))),
        decreases rules.len() - i,
    {
        let ghost pre = rules.subrange(0, i as int);
        let ghost g = groups(acc@);
        proof {
            assert(rules.subrange(0, i + 1).drop_last() =~= pre);
            assert(rules.subrange(0, i + 1).last() == rules[i as int]);
        }
        let (name, rule_elements): (&String, Option<&Vec<RuleElement>>) = match &query.rules[i] {
            QueryElement::Rule(r) => (&r.name, Some(&r.elements)),
            QueryElement::SourceFile { name } => (name, None),
            QueryElement::GeneratedFile { name } => (name, None),
            QueryElement::PackageGroup => {
                i = i + 1;
                continue;
            },
        };
        let target = match Label::parse(name.as_str()) {
            Ok(t) => t,
            Err(e) => {
                proof {
                    lemma_immediate_deps_stuck(rules, i + 1);
                }
                return Err(e);
            },
        };
        match rule_elements {
            Some(elements) => {
                let ins = match rule_inputs(elements) {
                    Ok(v) => v,
                    Err(e) => {
                        proof {
                            lemma_immediate_deps_stuck(rules, i + 1);
                        }
                        return Err(e);
                    },
                };
                match find_group(&acc, &target) {
                    Some(k) => {
                        proof {
                            lemma_table_entry(g, k as int);
                        }
                        let ghost before = acc@;
                        let (l, mut d) = acc.remove(k);
                        union_into(&mut d, &ins);
                        let ghost x = (l@, value_set(d@));
                        acc.insert(k, (l, d));
                        proof {
                            lemma_table_update(g, k as int, x);
                            assert(groups(acc@) =~= g.update(k as int, x));
                            assert forall|m: int| 0 <= m < acc@.len() implies distinct_values(
                                #[trigger] acc@[m].1@,
                            ) by {
                                if m != k {
                                    assert(acc@[m] == before[m]);
                                }
                            }
                        }
                    },
                    None => {
                        let ghost x = (target@, value_set(ins@));
                        acc.push((target, ins));
                        proof {
                            lemma_table_push(g, x);
                            assert(groups(acc@) =~= g.push(x));
                        }
                    },
                }
            },
            None => {
                match find_group(&acc, &target) {
                    Some(k) => {
                        proof {
                            lemma_table_entry(g, k as int);
                        }
                    },
                    None => {
                        let ghost x = (target@, Set::<LabelView>::empty());
                        let empty: Vec<Label> = Vec::new();
                        proof {
                            assert(value_set(empty@) =~= Set::<LabelView>::empty());
                        }
                        acc.push((target, empty));
                        proof {
                            lemma_table_push(g, x);
                            assert(groups(acc@) =~= g.push(x));
                        }
                    },
                }
            },
        }
        i = i + 1;
    }
    proof {
        assert(rules.subrange(0, i as int) =~= rules);
    }
    let ghost g = groups(acc@);
    let mut res: Vec<(DependencyKey, DependencyValue)> = Vec::new();
    let mut k: usize = 0;
    while k < acc.len()
        invariant
            k <= acc@.len(),
            g == groups(acc@),
            distinct_keys(g),
            forall|m: int| 0 <= m < acc@.len() ==> distinct_values(#[trigger] acc@[m].1@),
            res@.len() == k,
            forall|a: int|
                0 <= a < k ==> (#[trigger] res@[a]).0@ == DependencyKeyView::BazelPackage(g[a].0)
                    && lists_packages(res@[a].1, g[a].1),
        decreases acc@.len() - k,
    {
        let key = DependencyKey::BazelPackage(acc[k].0.duplicate());
        let deps = package_keys_of(&acc[k].1);
        proof {
            lemma_lists_packages(acc@[k as int].1@, deps);
        }
        res.push((key, DependencyValue::PackageInfo { deps }));
        k = k + 1;
    }
    proof {
        let m = table(g);
        assert forall|a: int| 0 <= a < res@.len() implies (#[trigger] res@[a]).0@ is BazelPackage
            && m.contains_key(res@[a].0@->BazelPackage_0) && lists_packages(
            res@[a].1,
            m[res@[a].0@->BazelPackage_0],
        ) by {
            lemma_table_entry(g, a);
        }
        assert forall|l: LabelView| #[trigger] m.contains_key(l) implies exists|a: int|
            0 <= a < res@.len() && res@[a].0@ == DependencyKeyView::BazelPackage(l) by {
            let a = choose|a: int| 0 <= a < g.len() && #[trigger] g[a].0 == l;
            assert(res@[a].0@ == DependencyKeyView::BazelPackage(l));
        }
        assert forall|a: int, b: int| 0 <= a < res@.len() && 0 <= b < res@.len() && a != b implies (
        #[trigger] res@[a]).0@ != (#[trigger] res@[b]).0@ by {
            assert(g[a].0 != g[b].0);
        }
    }
    Ok(res)
}


/// Whether the path's first component is `name`.
pub open spec fn first_component_is(line: Seq<char>, name: Seq<char>) -> bool {
    path_components(line).len() > 0 && path_components(line)[0] == PathComponent::Normal(name)
}

/// A line of `bazel query --output=package` that names a package of this
/// repository: not empty, not of an external repository (`@...`), and not
/// under `bazel-out/` or `external/`.
pub open spec fn is_package_line(line: Seq<char>) -> bool {
    &&& line.len() > 0
    &&& line[0] != '@'
    &&& !first_component_is(line, "bazel-out"@)
    &&& !first_component_is(line, "external"@)
}

/// The package lines of a query's output.
pub open spec fn package_lines(output: Seq<char>) -> Seq<Seq<char>> {
    text_lines(output).filter(|l: Seq<char>| is_package_line(l))
}

/// The labels of the lines, in turn; the first that does not parse stops
/// it.
pub open spec fn line_labels(lines: Seq<Seq<char>>) -> Result<Set<LabelView>, LabelParseError>
    decreases lines.len(),
{
    if lines.len() == 0 {
        Ok(Set::empty())
    } else {
        match line_labels(lines.drop_last()) {
            Err(e) => Err(e),
            Ok(s) => match parse_label(lines.last()) {
                Ok(l) => Ok(s.insert(l)),
                Err(e) => Err(e),
            },
        }
    }
}

proof fn lemma_line_labels_stuck(lines: Seq<Seq<char>>, n: int)
    requires
        0 <= n <= lines.len(),
        line_labels(lines.subrange(0, n)) is Err,
    ensures
        line_labels(lines) == line_labels(lines.subrange(0, n)),
    decreases lines.len() - n,
{
    if n < lines.len() {
        assert(lines.subrange(0, n + 1).drop_last() =~= lines.subrange(0, n));
        lemma_line_labels_stuck(lines, n + 1);
    } else {
        assert(lines.subrange(0, n) =~= lines);
    }
}

fn first_component_is_exec(line: &str, name: &str) -> (res: bool)
    ensures
        res == first_component_is(line@, name@),
{
    let cs = crate::path::components(line);
    if cs.len() == 0 {
        return false;
    }
    proof {
        assert(cs@[0]@ == path_components(line@)[0]);
    }
    match &cs[0] {
        Component::Normal(n) => str_equal(n.as_str(), name),
        _ => false,
    }
}

/// The packages named by the output of `bazel query --output=package`:
/// the paths of the package lines, as a set of paths, and their labels,
/// each once; fails at the first package line that is no label.
pub fn packages_of_query_output(output: &str) -> (res: Result<(Vec<String>, Vec<Label>), LabelParseError>)
    ensures
        match line_labels(package_lines(output@)) {
            Ok(s) => res matches Ok((paths, labels)) && views(paths@) == package_lines(output@)
                && distinct_values(labels@) && value_set(labels@) == s,
            Err(e) => res matches Err(r) && r == e,
        },
{
    let lines = crate::text::text_lines_of(output);
    let ghost all = views(lines@);
    let ghost keep = |l: Seq<char>| is_package_line(l);
    let bazel_out = "bazel-out";
    let external = "external";
    proof {
        reveal_strlit("bazel-out");
        reveal_strlit("external");
    }
    let mut paths: Vec<String> = Vec::new();
    let mut labels: Vec<Label> = Vec::new();
    let mut i: usize = 0;
    proof {
        assert(all.subrange(0, 0).filter(keep) =~= Seq::<Seq<char>>::empty());
        assert(value_set(labels@) =~= Set::<LabelView>::empty());
    }
    while i < lines.len()
        invariant
            all == views(lines@),
            all == text_lines(output@),
            keep == (|l: Seq<char>| is_package_line(l)),
            bazel_out@ == "bazel-out"@,
            external@ == "external"@,
            i <= all.len(),
            views(paths@) == all.subrange(0, i as int).filter(keep),
            distinct_values(labels@),
            line_labels(all.subrange(0, i as int).filter(keep)) == Ok::<
                Set<LabelView>,
                LabelParseError,
            >(value_set(labels@)),
        decreases all.len() - i,
    {
        let line = lines[i].as_str();
        proof {
            assert(line@ == all[i as int]);
            assert(all.subrange(0, i + 1) =~= all.subrange(0, i as int).push(all[i as int]));
            all.subrange(0, i as int).lemma_filter_push(all[i as int], keep);
        }
        let n = line.unicode_len();
        let wanted = n > 0 && line.get_char(0) != '@' && !first_component_is_exec(line, bazel_out)
            && !first_component_is_exec(line, external);
        assert(wanted == keep(all[i as int]));
        if wanted {
            let ghost kept = all.subrange(0, i as int).filter(keep);
            let ghost next = kept.push(all[i as int]);
            proof {
                assert(next.drop_last() =~= kept);
            }
            match Label::parse(line) {
                Ok(l) => {
                    let ghost prev = views(paths@);
                    paths.push(String::from_str(line));
                    assert(views(paths@) =~= prev.push(line@));
                    insert_value(&mut labels, l);
                },
                Err(e) => {
                    proof {
                        let whole = all.filter(keep);
                        assert(all.subrange(0, i + 1).filter(keep) == next);
                        lemma_filter_prefix(all, keep, i + 1);
                        lemma_line_labels_stuck(whole, next.len() as int);
                    }
                    return Err(e);
                },
            }
        }
        i = i + 1;
    }
    proof {
        assert(all.subrange(0, i as int) =~= all);
    }
    Ok((paths, labels))
}

/// The filter of a prefix is a prefix of the filter.
proof fn lemma_filter_prefix(s: Seq<Seq<char>>, keep: spec_fn(Seq<char>) -> bool, n: int)
    requires
        0 <= n <= s.len(),
    ensures
        s.subrange(0, n).filter(keep).len() <= s.filter(keep).len(),
        s.filter(keep).subrange(0, s.subrange(0, n).filter(keep).len() as int) == s.subrange(0, n).filter(
            keep,
        ),
    decreases s.len() - n,
{
    if n < s.len() {
        lemma_filter_prefix(s, keep, n + 1);
        let a = s.subrange(0, n);
        let b = s.subrange(0, n + 1);
        assert(b =~= a.push(s[n]));
        a.lemma_filter_push(s[n], keep);
        let fa = a.filter(keep);
        let fb = b.filter(keep);
        assert(s.filter(keep).subrange(0, fa.len() as int) =~= fb.subrange(0, fa.len() as int));
        assert(fb.subrange(0, fa.len() as int) =~= fa);
    } else {
        assert(s.subrange(0, n) =~= s);
        assert(s.filter(keep).subrange(0, s.filter(keep).len() as int) =~= s.filter(keep));
    }
}


/// The label that names every top-level target and file of a package:
/// the package's label with the target name `*`.
pub fn top_level_targets_spec(package: Label) -> (res: Label)
    ensures
        res@ == (LabelView { target_name: TargetNameView::Name("*"@), ..package@ }),
{
    let star = "*";
    proof {
        reveal_strlit("*");
    }
    Label { target_name: TargetName::Name(String::from_str(star)), ..package }
}

/// The recursive queries (`//foo/...`) among the labels, in order.
pub fn recursive_package_queries(labels: &Vec<Label>) -> (res: Vec<Label>)
    ensures
        crate::valueset::value_seq(res@) == crate::valueset::value_seq(labels@).filter(
            |l: LabelView| l.target_name is Ellipsis,
        ),
{
    let ghost all = crate::valueset::value_seq(labels@);
    let ghost keep = |l: LabelView| l.target_name is Ellipsis;
    let mut res: Vec<Label> = Vec::new();
    let mut i: usize = 0;
    proof {
        assert(all.subrange(0, 0).filter(keep) =~= Seq::<LabelView>::empty());
        assert(crate::valueset::value_seq(res@) =~= Seq::<LabelView>::empty());
    }
    while i < labels.len()
        invariant
            all == crate::valueset::value_seq(labels@),
            keep == (|l: LabelView| l.target_name is Ellipsis),
            i <= labels@.len(),
            crate::valueset::value_seq(res@) == all.subrange(0, i as int).filter(keep),
        decreases labels@.len() - i,
    {
        proof {
            assert(all.subrange(0, i + 1) =~= all.subrange(0, i as int).push(all[i as int]));
            all.subrange(0, i as int).lemma_filter_push(all[i as int], keep);
        }
        let recursive = match labels[i].target_name {
            TargetName::Ellipsis => true,
            TargetName::Name(_) => false,
        };
        if recursive {
            let ghost prev = crate::valueset::value_seq(res@);
            res.push(labels[i].duplicate());
            assert(crate::valueset::value_seq(res@) =~= prev.push(all[i as int]));
        }
        i = i + 1;
    }
    assert(all.subrange(0, i as int) =~= all);
    res
}

} // verus!
