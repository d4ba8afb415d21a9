//! The listings of an index of projects and of a selection, as the command
//! line prints them: projects in the order of their names with the name
//! padded to a column, and targets in text order, each once.

use vstd::prelude::*;
use crate::catalog::{project_view_refs, sort_by_name, sorted_by_name, spaces};
use crate::selection::{Project, ProjectView, Projects, Selection};
use crate::stringset::{StringSet, is_ordered_set, lemma_ordered_set_of};
use crate::target::{TargetView, target_text};
use crate::text::{decimal_string, decimal_text, views};
use crate::valueset::{SameValue, distinct_values, insert_value, value_seq, value_set};

verus! {

/// The width, in characters, that project names are padded to.
pub const NAME_COLUMN: usize = 48;

/// The line of a project: its name padded to the column, its description
/// and how many targets it has.
pub open spec fn listing_line(p: ProjectView) -> Seq<char> {
    p.name + spaces(NAME_COLUMN - p.name.len()) + " "@ + p.description + " ("@ + decimal_text(
        p.targets.len(),
    ) + " targets)\n"@
}

/// The lines of the projects, in order.
pub open spec fn listing_lines(ps: Seq<ProjectView>) -> Seq<char>
    decreases ps.len(),
{
    if ps.len() == 0 {
        Seq::empty()
    } else {
        listing_lines(ps.drop_last()) + listing_line(ps.last())
    }
}

/// Each text on a line of its own, in order.
pub open spec fn lines_of(ts: Seq<Seq<char>>) -> Seq<char>
    decreases ts.len(),
{
    if ts.len() == 0 {
        Seq::empty()
    } else {
        lines_of(ts.drop_last()) + ts.last() + "\n"@
    }
}

/// `order` lists each project of `ps` once, in the order of their names.
pub open spec fn listed_in_order(order: Seq<ProjectView>, ps: Set<ProjectView>) -> bool {
    &&& order.no_duplicates()
    &&& order.to_set() == ps
    &&& sorted_by_name(order)
}

/// The projects that a user chose, as opposed to the mandatory ones.
pub open spec fn chosen_projects(ps: Set<ProjectView>) -> Set<ProjectView> {
    ps.filter(|p: ProjectView| !p.mandatory)
}

/// The printed forms of the targets.
pub open spec fn target_texts(ts: Set<TargetView>) -> Set<Seq<char>> {
    ts.map(|t: TargetView| target_text(t))
}

/// A section of the listing of a selection: its heading, then its lines or
/// a note that it is empty.
pub open spec fn section(heading: Seq<char>, lines: Seq<char>) -> Seq<char> {
    heading + if lines.len() == 0 {
        "None selected.\n"@
    } else {
        lines
    }
}

/// The listing of a selection whose chosen projects come in `order` and
/// whose target texts are `texts`.
pub open spec fn selection_listing(order: Seq<ProjectView>, texts: Seq<Seq<char>>) -> Seq<char> {
    section("--- Projects ---\n"@, listing_lines(order)) + "\n"@ + section(
        "--- Targets ---\n"@,
        lines_of(texts),
    )
}

proof fn lemma_listing_lines_empty(ps: Seq<ProjectView>)
    ensures
        (listing_lines(ps).len() == 0) == (ps.len() == 0),
    decreases ps.len(),
{
    if ps.len() > 0 {
        reveal_strlit(" targets)\n");
        assert(listing_line(ps.last()).len() > 0);
    }
}

proof fn lemma_lines_of_empty(ts: Seq<Seq<char>>)
    ensures
        (lines_of(ts).len() == 0) == (ts.len() == 0),
{
    reveal_strlit("\n");
}

/// Sequences with the same elements counted with multiplicity hold the
/// same set, and one without repeats has a twin without repeats.
proof fn lemma_same_multiset<A>(a: Seq<A>, b: Seq<A>)
    requires
        a.to_multiset() == b.to_multiset(),
    ensures
        a.to_set() == b.to_set(),
        b.no_duplicates() ==> a.no_duplicates(),
{
    assert forall|x: A| a.to_set().contains(x) == b.to_set().contains(x) by {
        vstd::seq_lib::to_multiset_contains(a, x);
        vstd::seq_lib::to_multiset_contains(b, x);
    }
    assert(a.to_set() =~= b.to_set());
    if b.no_duplicates() {
        b.lemma_multiset_has_no_duplicates();
        a.lemma_multiset_has_no_duplicates_conv();
    }
}

/// References to the projects, ordered by name.
fn projects_by_name(ps: &Vec<Project>) -> (res: Vec<&Project>)
    requires
        distinct_values(ps@),
    ensures
        listed_in_order(project_view_refs(res@), value_set(ps@)),
{
    let mut refs: Vec<&Project> = Vec::new();
    let mut i: usize = 0;
    while i < ps.len()
        invariant
            i <= ps@.len(),
            project_view_refs(refs@) == value_seq(ps@).subrange(0, i as int),
        decreases ps@.len() - i,
    {
        let ghost prev = project_view_refs(refs@);
        refs.push(&ps[i]);
        assert(project_view_refs(refs@) =~= prev.push(ps@[i as int]@));
        assert(value_seq(ps@).subrange(0, i + 1) =~= value_seq(ps@).subrange(0, i as int).push(
            ps@[i as int]@,
        ));
        i = i + 1;
    }
    assert(value_seq(ps@).subrange(0, i as int) =~= value_seq(ps@));
    let sorted = sort_by_name(refs);
    proof {
        lemma_same_multiset(project_view_refs(sorted@), value_seq(ps@));
    }
    sorted
}

/// The lines of the projects, in the given order.
fn listing_text(ps: &Vec<&Project>) -> (res: String)
    ensures
        res@ == listing_lines(project_view_refs(ps@)),
{
    let ghost order = project_view_refs(ps@);
    let mut text = String::new();
    let mut k: usize = 0;
    assert(order.subrange(0, 0) =~= Seq::<ProjectView>::empty());
    while k < ps.len()
        invariant
            k <= ps@.len(),
            order == project_view_refs(ps@),
            text@ == listing_lines(order.subrange(0, k as int)),
        decreases ps@.len() - k,
    {
        let line = line_text(ps[k]);
        proof {
            assert(order.subrange(0, k + 1).drop_last() =~= order.subrange(0, k as int));
            assert(order[k as int] == ps@[k as int]@);
        }
        text = text.concat(line.as_str());
        k = k + 1;
    }
    assert(order.subrange(0, k as int) =~= order);
    text
}

fn line_text(p: &Project) -> (res: String)
    ensures
        res@ == listing_line(p@),
{
    let mut padded = p.name.clone();
    let n = p.name.as_str().unicode_len();
    let mut k: usize = n;
    assert(padded@ =~= p@.name + spaces(0));
    while k < NAME_COLUMN
        invariant
            n == p@.name.len(),
            n <= k,
            k <= NAME_COLUMN || k == n,
            padded@ == p@.name + spaces(k - n),
        decreases NAME_COLUMN - k,
    {
        padded = padded.concat(" ");
        proof {
            reveal_strlit(" ");
        }
        assert(spaces(k + 1 - n) =~= spaces(k - n).push(' '));
        assert(padded@ =~= p@.name + spaces(k + 1 - n));
        k = k + 1;
    }
    assert(spaces(k - n) =~= spaces(NAME_COLUMN - p@.name.len()));
    proof {
        reveal_strlit(" (");
        reveal_strlit(" targets)\n");
    }
    padded.concat(" ").concat(p.description.as_str()).concat(" (").concat(
        decimal_string(p.targets.len()).as_str(),
    ).concat(" targets)\n")
}

/// Each text on a line of its own.
fn lines_text(ts: &Vec<String>) -> (res: String)
    ensures
        res@ == lines_of(views(ts@)),
{
    let ghost vs = views(ts@);
    let mut text = String::new();
    let mut k: usize = 0;
    assert(vs.subrange(0, 0) =~= Seq::<Seq<char>>::empty());
    while k < ts.len()
        invariant
            k <= ts@.len(),
            vs == views(ts@),
            text@ == lines_of(vs.subrange(0, k as int)),
        decreases ts@.len() - k,
    {
        proof {
            reveal_strlit("\n");
            assert(vs.subrange(0, k + 1).drop_last() =~= vs.subrange(0, k as int));
        }
        text = text.concat(ts[k].as_str()).concat("\n");
        k = k + 1;
    }
    assert(vs.subrange(0, k as int) =~= vs);
    text
}

impl Projects {
    /// The listing of the index: a line for each project, in the order of
    /// their names, with the name padded to the column, the description and
    /// the number of targets.
    pub fn to_string(&self) -> (res: String)
        requires
            self.wf(),
        ensures
            exists|order: Seq<ProjectView>|
                #![trigger listing_lines(order)]
                listed_in_order(order, self@.underlying.values()) && res@ == listing_lines(order),
    {
        let all = self.values();
        let mut kept: Vec<Project> = Vec::new();
        let mut i: usize = 0;
        while i < all.len()
            invariant
                i <= all@.len(),
                distinct_values(kept@),
                value_set(kept@) == value_set(all@.subrange(0, i as int)),
            decreases all@.len() - i,
        {
            insert_value(&mut kept, all[i].duplicate());
            assert(value_seq(all@.subrange(0, i + 1)) =~= value_seq(all@.subrange(0, i as int)).push(
                all@[i as int]@,
            ));
            proof {
                value_seq(all@.subrange(0, i as int)).lemma_push_to_set_commute(all@[i as int]@);
            }
            i = i + 1;
        }
        assert(all@.subrange(0, i as int) =~= all@);
        assert(value_set(kept@) =~= self@.underlying.values());
        let sorted = projects_by_name(&kept);
        listing_text(&sorted)
    }
}

impl Selection {
    /// The listing of the selection: the projects the user chose, in the
    /// order of their names, then the targets in text order, each once; an
    /// empty part says `None selected.`.
    pub fn to_string(&self) -> (res: String)
        ensures
            exists|order: Seq<ProjectView>, texts: Seq<Seq<char>>|
                #![trigger selection_listing(order, texts)]
                listed_in_order(order, chosen_projects(self@.projects)) && is_ordered_set(texts)
                    && texts.to_set() == target_texts(self@.targets) && res@ == selection_listing(
                    order,
                    texts,
                ),
    {
        let mut kept: Vec<Project> = Vec::new();
        let mut i: usize = 0;
        while i < self.projects.len()
            invariant
                i <= self.projects@.len(),
                distinct_values(kept@),
                value_set(kept@) == chosen_projects(value_set(self.projects@.subrange(0, i as int))),
            decreases self.projects@.len() - i,
        {
            let ghost before = value_set(self.projects@.subrange(0, i as int));
            let ghost p = self.projects@[i as int]@;
            assert(value_seq(self.projects@.subrange(0, i + 1)) =~= value_seq(
                self.projects@.subrange(0, i as int),
            ).push(p));
            proof {
                value_seq(self.projects@.subrange(0, i as int)).lemma_push_to_set_commute(p);
            }
            if !self.projects[i].mandatory {
                insert_value(&mut kept, self.projects[i].duplicate());
                assert(chosen_projects(before.insert(p)) =~= chosen_projects(before).insert(p));
            } else {
                assert(chosen_projects(before.insert(p)) =~= chosen_projects(before));
            }
            i = i + 1;
        }
        assert(self.projects@.subrange(0, i as int) =~= self.projects@);
        let sorted = projects_by_name(&kept);
        let projects_text = listing_text(&sorted);

        let mut texts: Vec<String> = Vec::new();
        let mut k: usize = 0;
        while k < self.targets.len()
            invariant
                k <= self.targets@.len(),
                views(texts@) == value_seq(self.targets@.subrange(0, k as int)).map_values(
                    |t: TargetView| target_text(t),
                ),
            decreases self.targets@.len() - k,
        {
            let text = self.targets[k].to_string();
            let ghost prev = views(texts@);
            let ghost t = self.targets@[k as int]@;
            texts.push(text);
            assert(views(texts@) =~= prev.push(target_text(t)));
            assert(value_seq(self.targets@.subrange(0, k + 1)) =~= value_seq(
                self.targets@.subrange(0, k as int),
            ).push(t));
            assert(value_seq(self.targets@.subrange(0, k + 1)).map_values(
                |t: TargetView| target_text(t),
            ) =~= prev.push(target_text(t)));
            k = k + 1;
        }
        assert(self.targets@.subrange(0, k as int) =~= self.targets@);
        let ghost all_texts = views(texts@);
        proof {
            lemma_ordered_set_of(all_texts);
            assert(all_texts.to_set() =~= target_texts(self@.targets)) by {
                let vs = value_seq(self.targets@);
                assert forall|x: Seq<char>| all_texts.to_set().contains(x) implies target_texts(
                    self@.targets,
                ).contains(x) by {
                    let j = choose|j: int| 0 <= j < all_texts.len() && all_texts[j] == x;
                    assert(vs.to_set().contains(vs[j]));
                }
                assert forall|x: Seq<char>| target_texts(self@.targets).contains(x) implies all_texts.to_set().contains(
                    x,
                ) by {
                    let t = choose|t: TargetView| vs.to_set().contains(t) && target_text(t) == x;
                    let j = choose|j: int| 0 <= j < vs.len() && vs[j] == t;
                    assert(all_texts[j] == x);
                }
            }
        }
        let ordered = StringSet::from_vec(texts);
        let targets_text = lines_text(ordered.items());
        proof {
            lemma_listing_lines_empty(project_view_refs(sorted@));
            lemma_lines_of_empty(ordered@);
            reveal_strlit("--- Projects ---\n");
            reveal_strlit("--- Targets ---\n");
            reveal_strlit("None selected.\n");
            reveal_strlit("\n");
        }
        let projects_part = if projects_text.as_str().unicode_len() == 0 {
            String::from_str("--- Projects ---\n").concat("None selected.\n")
        } else {
            String::from_str("--- Projects ---\n").concat(projects_text.as_str())
        };
        let targets_part = if targets_text.as_str().unicode_len() == 0 {
            String::from_str("--- Targets ---\n").concat("None selected.\n")
        } else {
            String::from_str("--- Targets ---\n").concat(targets_text.as_str())
        };
        let res = projects_part.concat("\n").concat(targets_part.as_str());
        assert(res@ == selection_listing(project_view_refs(sorted@), ordered@));
        res
    }
}

} // verus!
