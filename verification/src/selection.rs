//! The user's selection: which projects and targets are focused, the
//! operations that change it, and the index of projects it draws on.

use vstd::prelude::*;
use crate::target::{
    Target, TargetError, TargetErrorView, TargetView, parse_target, qualified_target_text,
};
use crate::text::{copy_strings, optional_view, strings_equal, views};
use crate::stringset::StringSet;
use crate::valueset::{
    SameValue, contains_value, distinct_values, insert_value, remove_value, value_seq, value_set,
};

verus! {

/// A project is a named collection of targets, which may include other
/// projects.
#[derive(Debug, Clone, Default, PartialEq, Eq, Hash)]
pub struct Project {
    /// The name of the project.
    pub name: String,
    /// A description of the project.
    pub description: String,
    /// Mandatory projects are always in the selection and cannot be selected.
    pub mandatory: bool,
    /// The targets of the project.
    pub targets: StringSet,
    /// The names of the projects included in this one.
    pub projects: StringSet,
}

/// The mathematical value of a `Project`.
pub struct ProjectView {
    pub name: Seq<char>,
    pub description: Seq<char>,
    pub mandatory: bool,
    pub targets: Seq<Seq<char>>,
    pub projects: Seq<Seq<char>>,
}

impl View for Project {
    type V = ProjectView;

    open spec fn view(&self) -> ProjectView {
        ProjectView {
            name: self.name@,
            description: self.description@,
            mandatory: self.mandatory,
            targets: self.targets@,
            projects: self.projects@,
        }
    }
}

impl SameValue for Project {
    fn same_as(&self, other: &Project) -> (res: bool) {
        self.name == other.name && self.description == other.description && self.mandatory
            == other.mandatory && self.targets.same_as(&other.targets) && self.projects.same_as(
            &other.projects,
        )
    }

    fn duplicate(&self) -> (res: Project) {
        Project {
            name: self.name.clone(),
            description: self.description.clone(),
            mandatory: self.mandatory,
            targets: self.targets.duplicate(),
            projects: self.projects.duplicate(),
        }
    }
}

impl SameValue for Target {
    fn same_as(&self, other: &Target) -> (res: bool) {
        Target::same_as(self, other)
    }

    fn duplicate(&self) -> (res: Target) {
        Target::duplicate(self)
    }
}

/// Every target of `targets` parses.
pub open spec fn all_parse(targets: Seq<Seq<char>>) -> bool {
    forall|i: int| 0 <= i < targets.len() ==> parse_target(targets[i]) is Ok
}

impl Project {
    /// Whether the project is mandatory: always present in the outline and
    /// not offered for selection.
    pub fn is_mandatory(&self) -> (res: bool)
        ensures
            res == self.mandatory,
    {
        self.mandatory
    }

    /// Whether the project can be selected by users.
    pub fn is_selectable(&self) -> (res: bool)
        ensures
            res == !self.mandatory,
    {
        !self.is_mandatory()
    }

    /// Checks that every target parses; on failure returns the error of the
    /// first target (in order) that does not.
    pub fn lint(&self) -> (res: Result<(), TargetError>)
        ensures
            res is Ok <==> all_parse(self.targets@),
            res matches Err(e) ==> exists|i: int|
                0 <= i < self.targets@.len() && (forall|j: int| 0 <= j < i ==> parse_target(
                    #[trigger] self.targets@[j],
                ) is Ok) && parse_target(self.targets@[i]) == Err::<TargetView, TargetErrorView>(
                    e@,
                ),
    {
        let targets = self.targets.items();
        let mut i: usize = 0;
        while i < targets.len()
            invariant
                views(targets@) == self.targets@,
                i <= targets@.len(),
                forall|j: int| 0 <= j < i ==> parse_target(#[trigger] self.targets@[j]) is Ok,
            decreases targets@.len() - i,
        {
            match Target::try_from(targets[i].as_str()) {
                Ok(_) => {},
                Err(e) => {
                    assert(self.targets@[i as int] == targets@[i as int]@);
                    return Err(e);
                },
            }
            i = i + 1;
        }
        Ok(())
    }
}

/// A file-level container of projects (a set).
#[derive(Debug, Clone, Default, PartialEq)]
pub struct ProjectSet {
    pub projects: Vec<Project>,
}

impl View for ProjectSet {
    type V = Seq<ProjectView>;

    open spec fn view(&self) -> Seq<ProjectView> {
        project_views(self.projects@)
    }
}

/// The position of the first project of `ps`, from `i` on, named `name`.
pub open spec fn named_position(ps: Seq<ProjectView>, name: Seq<char>, i: int) -> Option<int>
    decreases ps.len() - i,
{
    if i < 0 || i >= ps.len() {
        None
    } else if ps[i].name == name {
        Some(i)
    } else {
        named_position(ps, name, i + 1)
    }
}

/// `ps` with the first project named `name` replaced by `p`, or with `p`
/// added at the end where none is.
pub open spec fn with_project(ps: Seq<ProjectView>, name: Seq<char>, p: ProjectView) -> Seq<
    ProjectView,
> {
    match named_position(ps, name, 0) {
        Some(i) => ps.update(i, p),
        None => ps.push(p),
    }
}

proof fn lemma_named_position(ps: Seq<ProjectView>, name: Seq<char>, i: int)
    requires
        0 <= i <= ps.len(),
    ensures
        match named_position(ps, name, i) {
            Some(k) => i <= k < ps.len() && ps[k].name == name && forall|j: int|
                i <= j < k ==> ps[j].name != name,
            None => forall|j: int| i <= j < ps.len() ==> ps[j].name != name,
        },
    decreases ps.len() - i,
{
    if i < ps.len() {
        lemma_named_position(ps, name, i + 1);
    }
}

/// After a project is set under its own name, looking that name up finds
/// it; the set grows by one only where no project had the name.
pub proof fn lemma_set_project_then_find(ps: Seq<ProjectView>, name: Seq<char>, p: ProjectView)
    requires
        p.name == name,
    ensures
        match named_position(with_project(ps, name, p), name, 0) {
            Some(i) => with_project(ps, name, p)[i] == p,
            None => false,
        },
        with_project(ps, name, p).len() == ps.len() + if named_position(ps, name, 0) is None {
            1int
        } else {
            0int
        },
{
    let after = with_project(ps, name, p);
    lemma_named_position(ps, name, 0);
    lemma_named_position(after, name, 0);
    match named_position(ps, name, 0) {
        Some(i) => {
            assert(after[i] == p);
            match named_position(after, name, 0) {
                Some(k) => {
                    if k < i {
                        assert(after[k] == ps[k]);
                    }
                    if k > i {
                        assert(after[i].name == name);
                    }
                },
                None => {
                    assert(after[i].name == name);
                },
            }
        },
        None => {
            assert(after[ps.len() as int] == p);
            match named_position(after, name, 0) {
                Some(k) => {
                    if k < ps.len() {
                        assert(after[k] == ps[k]);
                    }
                },
                None => {
                    assert(after[ps.len() as int].name == name);
                },
            }
        },
    }
}

impl SameValue for ProjectSet {
    fn same_as(&self, other: &ProjectSet) -> (res: bool) {
        if self.projects.len() != other.projects.len() {
            assert(self@.len() != other@.len());
            return false;
        }
        let mut i: usize = 0;
        while i < self.projects.len()
            invariant
                self.projects@.len() == other.projects@.len(),
                i <= self.projects@.len(),
                forall|j: int| 0 <= j < i ==> self.projects@[j]@ == other.projects@[j]@,
            decreases self.projects@.len() - i,
        {
            if !self.projects[i].same_as(&other.projects[i]) {
                assert(self@[i as int] != other@[i as int]);
                return false;
            }
            i = i + 1;
        }
        assert(self@ =~= other@);
        true
    }

    fn duplicate(&self) -> (res: ProjectSet) {
        let mut projects: Vec<Project> = Vec::new();
        let mut i: usize = 0;
        while i < self.projects.len()
            invariant
                i <= self.projects@.len(),
                project_views(projects@) == self@.subrange(0, i as int),
            decreases self.projects@.len() - i,
        {
            let ghost prev = projects@;
            projects.push(self.projects[i].duplicate());
            proof {
                assert(project_views(projects@) =~= project_views(prev).push(self@[i as int]));
                assert(self@.subrange(0, i + 1) =~= self@.subrange(0, i as int).push(
                    self@[i as int],
                ));
            }
            i = i + 1;
        }
        assert(self@.subrange(0, i as int) =~= self@);
        ProjectSet { projects }
    }
}

impl ProjectSet {
    /// Replaces the first project named `project_name` by `project`, or adds
    /// `project` at the end where there is none.
    #[verifier::loop_isolation(false)]
    pub fn set_project(&mut self, project_name: String, project: Project)
        ensures
            final(self)@ == with_project(old(self)@, project_name@, project@),
    {
        let ghost before = self@;
        proof {
            lemma_named_position(before, project_name@, 0);
        }
        let mut i: usize = 0;
        while i < self.projects.len()
            invariant
                self@ == before,
                i <= before.len(),
                forall|j: int| 0 <= j < i ==> before[j].name != project_name@,
            decreases before.len() - i,
        {
            if crate::text::str_equal(self.projects[i].name.as_str(), project_name.as_str()) {
                assert(before[i as int].name == project_name@);
                assert(named_position(before, project_name@, 0) == Some(i as int)) by {
                    lemma_named_position(before, project_name@, 0);
                    let k = named_position(before, project_name@, 0)->Some_0;
                    if k < i {
                        assert(before[k].name != project_name@);
                    }
                    if k > i {
                        assert(before[i as int].name != project_name@);
                    }
                }
                let ghost pv = project@;
                self.projects.remove(i);
                self.projects.insert(i, project);
                assert(self@ =~= before.update(i as int, pv));
                assert(with_project(before, project_name@, pv) == before.update(i as int, pv));
                return;
            }
            i = i + 1;
        }
        let ghost pv = project@;
        self.projects.push(project);
        assert(self@ =~= before.push(pv));
    }

    /// Removes every project named `project_name`.
    #[verifier::loop_isolation(false)]
    pub fn remove_project(&mut self, project_name: String)
        ensures
            final(self)@ == old(self)@.filter(|p: ProjectView| p.name != project_name@),
    {
        let ghost before = self@;
        let ghost keep = |p: ProjectView| p.name != project_name@;
        let mut kept: Vec<Project> = Vec::new();
        let mut i: usize = 0;
        while i < self.projects.len()
            invariant
                self@ == before,
                i <= before.len(),
                project_views(kept@) == before.subrange(0, i as int).filter(keep),
            decreases before.len() - i,
        {
            let ghost prev = kept@;
            proof {
                assert(before.subrange(0, i + 1) =~= before.subrange(0, i as int).push(
                    before[i as int],
                ));
                before.subrange(0, i as int).lemma_filter_push(before[i as int], keep);
            }
            if !crate::text::str_equal(self.projects[i].name.as_str(), project_name.as_str()) {
                kept.push(self.projects[i].duplicate());
                assert(project_views(kept@) =~= project_views(prev).push(before[i as int]));
            }
            i = i + 1;
        }
        assert(before.subrange(0, i as int) =~= before);
        self.projects = kept;
    }
}

/// A project of one name was defined twice.
#[derive(Debug, Clone, PartialEq, Eq)]
pub struct DuplicateProject {
    /// The name of the project.
    pub name: String,
    /// The set that defined it again.
    pub project_set_name: String,
    /// The set that defined it first.
    pub previously_defined_in: String,
}

/// An index of projects by name, with the name of the project set that
/// each was defined in.
#[derive(Debug, Clone, Default)]
pub struct Projects {
    entries: Vec<(Project, String)>,
}

/// The mathematical value of a `Projects` index: name to project and name
/// to the set it was defined in.
pub struct ProjectsView {
    pub underlying: Map<Seq<char>, ProjectView>,
    pub sources: Map<Seq<char>, Seq<char>>,
}

pub open spec fn entry_names(e: Seq<(Project, String)>) -> Seq<Seq<char>> {
    e.map_values(|x: (Project, String)| x.0.name@)
}

/// Name to project, later entries taking precedence.
pub open spec fn entries_map(e: Seq<(Project, String)>) -> Map<Seq<char>, ProjectView>
    decreases e.len(),
{
    if e.len() == 0 {
        Map::empty()
    } else {
        entries_map(e.drop_last()).insert(e.last().0.name@, e.last().0@)
    }
}

/// Name to source, later entries taking precedence.
pub open spec fn entries_sources(e: Seq<(Project, String)>) -> Map<Seq<char>, Seq<char>>
    decreases e.len(),
{
    if e.len() == 0 {
        Map::empty()
    } else {
        entries_sources(e.drop_last()).insert(e.last().0.name@, e.last().1@)
    }
}

pub proof fn lemma_entries_map(e: Seq<(Project, String)>)
    requires
        entry_names(e).no_duplicates(),
    ensures
        forall|n: Seq<char>| #[trigger]
            entries_map(e).contains_key(n) <==> entry_names(e).contains(n),
        forall|n: Seq<char>| #[trigger]
            entries_sources(e).contains_key(n) <==> entry_names(e).contains(n),
        forall|i: int|
            0 <= i < e.len() ==> entries_map(e)[#[trigger] e[i].0.name@] == e[i].0@
                && entries_sources(e)[e[i].0.name@] == e[i].1@,
    decreases e.len(),
{
    if e.len() > 0 {
        let init = e.drop_last();
        assert(entry_names(init) =~= entry_names(e).drop_last());
        assert(entry_names(init).no_duplicates()) by {
            assert forall|a: int, b: int|
                0 <= a < entry_names(init).len() && 0 <= b < entry_names(init).len() && a
                    != b implies entry_names(init)[a] != entry_names(init)[b] by {
                assert(entry_names(e)[a] != entry_names(e)[b]);
            }
        }
        lemma_entries_map(init);
        let last = e.last().0.name@;
        assert forall|n: Seq<char>| #[trigger] entry_names(e).contains(n) <==> (entry_names(
            init,
        ).contains(n) || n == last) by {
            if entry_names(e).contains(n) {
                let k = choose|k: int| 0 <= k < entry_names(e).len() && entry_names(e)[k] == n;
                if k < e.len() - 1 {
                    assert(entry_names(init)[k] == n);
                } else {
                    assert(e[k] == e.last());
                }
            }
            if entry_names(init).contains(n) {
                let k = choose|k: int| 0 <= k < entry_names(init).len() && entry_names(init)[k] == n;
                assert(entry_names(e)[k] == n);
            }
            if n == last {
                assert(entry_names(e)[e.len() - 1] == n);
            }
        }
        assert forall|n: Seq<char>| #[trigger]
            entries_map(e).contains_key(n) <==> entry_names(e).contains(n) by {
            assert(entries_map(e).contains_key(n) <==> (entries_map(init).contains_key(n) || n
                == last));
        }
        assert forall|n: Seq<char>| #[trigger]
            entries_sources(e).contains_key(n) <==> entry_names(e).contains(n) by {
            assert(entries_sources(e).contains_key(n) <==> (entries_sources(init).contains_key(n)
                || n == last));
        }
        assert forall|i: int| 0 <= i < e.len() implies entries_map(e)[#[trigger] e[i].0.name@]
            == e[i].0@ && entries_sources(e)[e[i].0.name@] == e[i].1@ by {
            if i < e.len() - 1 {
                assert(entry_names(e)[i] != entry_names(e)[e.len() - 1]);
                assert(init[i] == e[i]);
            }
        }
    }
}

impl View for Projects {
    type V = ProjectsView;

    closed spec fn view(&self) -> ProjectsView {
        ProjectsView {
            underlying: entries_map(self.entries@),
            sources: entries_sources(self.entries@),
        }
    }
}

impl Projects {
    /// No two entries share a name.
    pub closed spec fn wf(&self) -> bool {
        entry_names(self.entries@).no_duplicates()
    }

    /// An empty index.
    pub fn new() -> (res: Projects)
        ensures
            res.wf(),
            res@.underlying == Map::<Seq<char>, ProjectView>::empty(),
            res@.sources == Map::<Seq<char>, Seq<char>>::empty(),
    {
        let res = Projects { entries: Vec::new() };
        assert(res@.underlying =~= Map::<Seq<char>, ProjectView>::empty());
        assert(res@.sources =~= Map::<Seq<char>, Seq<char>>::empty());
        res
    }

    proof fn lemma_view_at(&self, i: int)
        requires
            self.wf(),
            0 <= i < self.entries@.len(),
        ensures
            self@.underlying.contains_key(self.entries@[i].0.name@),
            self@.underlying[self.entries@[i].0.name@] == self.entries@[i].0@,
            self@.sources.contains_key(self.entries@[i].0.name@),
            self@.sources[self.entries@[i].0.name@] == self.entries@[i].1@,
    {
        lemma_entries_map(self.entries@);
        assert(entry_names(self.entries@)[i] == self.entries@[i].0.name@);
    }

    /// The project of the given name.
    pub fn get(&self, name: &str) -> (res: Option<&Project>)
        requires
            self.wf(),
        ensures
            match res {
                Some(p) => self@.underlying.contains_key(name@) && self@.underlying[name@] == p@,
                None => !self@.underlying.contains_key(name@),
            },
    {
        let mut i: usize = 0;
        while i < self.entries.len()
            invariant
                self.wf(),
                i <= self.entries@.len(),
                forall|j: int| 0 <= j < i ==> self.entries@[j].0.name@ != name@,
            decreases self.entries@.len() - i,
        {
            if crate::text::str_equal(self.entries[i].0.name.as_str(), name) {
                proof {
                    self.lemma_view_at(i as int);
                }
                return Some(&self.entries[i].0);
            }
            i = i + 1;
        }
        assert(!entry_names(self.entries@).contains(name@)) by {
            if entry_names(self.entries@).contains(name@) {
                let k = choose|k: int|
                    0 <= k < entry_names(self.entries@).len() && entry_names(self.entries@)[k]
                        == name@;
            }
        }
        proof {
            lemma_entries_map(self.entries@);
        }
        None
    }

    /// The name of the project set that defined the project of this name.
    pub fn source(&self, name: &str) -> (res: Option<&String>)
        requires
            self.wf(),
        ensures
            match res {
                Some(s) => self@.sources.contains_key(name@) && self@.sources[name@] == s@,
                None => !self@.sources.contains_key(name@),
            },
    {
        let mut i: usize = 0;
        while i < self.entries.len()
            invariant
                self.wf(),
                i <= self.entries@.len(),
                forall|j: int| 0 <= j < i ==> self.entries@[j].0.name@ != name@,
            decreases self.entries@.len() - i,
        {
            if crate::text::str_equal(self.entries[i].0.name.as_str(), name) {
                proof {
                    self.lemma_view_at(i as int);
                }
                return Some(&self.entries[i].1);
            }
            i = i + 1;
        }
        assert(!entry_names(self.entries@).contains(name@)) by {
            if entry_names(self.entries@).contains(name@) {
                let k = choose|k: int|
                    0 <= k < entry_names(self.entries@).len() && entry_names(self.entries@)[k]
                        == name@;
            }
        }
        proof {
            lemma_entries_map(self.entries@);
        }
        None
    }

    /// The number of projects.
    pub fn len(&self) -> (res: usize)
        requires
            self.wf(),
        ensures
            res == self@.underlying.len(),
    {
        proof {
            self.lemma_len();
        }
        self.entries.len()
    }

    proof fn lemma_len(&self)
        requires
            self.wf(),
        ensures
            self@.underlying.len() == self.entries@.len(),
            self@.underlying.dom() == entry_names(self.entries@).to_set(),
    {
        let names = entry_names(self.entries@);
        lemma_entries_map(self.entries@);
        assert(self@.underlying.dom() =~= names.to_set());
        names.unique_seq_to_set();
    }

    /// An index holds finitely many projects, each under its own name.
    pub proof fn lemma_keyed_by_name(&self)
        requires
            self.wf(),
        ensures
            self@.underlying.dom().finite(),
            forall|n: Seq<char>| #[trigger]
                self@.underlying.contains_key(n) ==> self@.underlying[n].name == n,
    {
        self.lemma_len();
        lemma_entries_map(self.entries@);
        assert forall|n: Seq<char>| #[trigger] self@.underlying.contains_key(n) implies self@.underlying[
            n].name == n by {
            let k = choose|k: int|
                0 <= k < entry_names(self.entries@).len() && entry_names(self.entries@)[k] == n;
            assert(self.entries@[k].0.name@ == n);
        }
    }

    /// The projects of the index.
    pub fn values(&self) -> (res: Vec<Project>)
        requires
            self.wf(),
        ensures
            forall|p: ProjectView| #[trigger]
                value_set(res@).contains(p) <==> exists|n: Seq<char>|
                    self@.underlying.contains_key(n) && self@.underlying[n] == p,
    {
        let mut out: Vec<Project> = Vec::new();
        let mut i: usize = 0;
        while i < self.entries.len()
            invariant
                self.wf(),
                i <= self.entries@.len(),
                out@.len() == i,
                forall|j: int| 0 <= j < i ==> (#[trigger] out@[j])@ == self.entries@[j].0@,
            decreases self.entries@.len() - i,
        {
            out.push(self.entries[i].0.duplicate());
            i = i + 1;
        }
        assert forall|p: ProjectView| #[trigger] value_set(out@).contains(p) implies exists|
            n: Seq<char>,
        | self@.underlying.contains_key(n) && self@.underlying[n] == p by {
            let j = choose|j: int| 0 <= j < value_seq(out@).len() && value_seq(out@)[j] == p;
            assert(out@[j]@ == p);
            self.lemma_view_at(j);
            let n = self.entries@[j].0.name@;
            assert(self@.underlying.contains_key(n) && self@.underlying[n] == p);
        }
        assert forall|p: ProjectView|
            (exists|n: Seq<char>| self@.underlying.contains_key(n) && self@.underlying[n] == p) implies #[trigger] value_set(
            out@,
        ).contains(p) by {
            let n = choose|n: Seq<char>| self@.underlying.contains_key(n) && self@.underlying[n] == p;
            let e = self.entries@;
            lemma_entries_map(e);
            let k = choose|k: int| 0 <= k < entry_names(e).len() && entry_names(e)[k] == n;
            assert(e[k].0.name@ == n);
            assert(value_seq(out@)[k] == p);
        }
        out
    }

    /// Adds the projects of `project_set`, in order, recording
    /// `project_set_name` as where each was defined. A project whose name is
    /// already present replaces the one there (keeping its source), and the
    /// call stops with an error naming both sets.
    #[verifier::loop_isolation(false)]
    pub fn extend(&mut self, project_set_name: &str, project_set: &ProjectSet) -> (res: Result<
        (),
        DuplicateProject,
    >)
        requires
            old(self).wf(),
        ensures
            final(self).wf(),
            res is Ok <==> extends_cleanly(old(self)@.underlying, project_views(project_set.projects@)),
            res is Ok ==> final(self)@.underlying == add_projects(
                old(self)@.underlying,
                project_views(project_set.projects@),
            ),
            res is Ok ==> final(self)@.sources == add_sources(
                old(self)@.sources,
                project_views(project_set.projects@),
                project_set_name@,
            ),
            res matches Err(d) ==> exists|i: int|
                0 <= i < project_set.projects@.len() && extends_cleanly(
                    old(self)@.underlying,
                    #[trigger] project_views(project_set.projects@).subrange(0, i),
                ) && add_projects(
                    old(self)@.underlying,
                    project_views(project_set.projects@).subrange(0, i),
                ).contains_key(project_set.projects@[i]@.name) && d.name@
                    == project_set.projects@[i]@.name && d.project_set_name@ == project_set_name@
                    && d.previously_defined_in@ == add_sources(
                    old(self)@.sources,
                    project_views(project_set.projects@).subrange(0, i),
                    project_set_name@,
                )[project_set.projects@[i]@.name],
    {
        let ghost all = project_views(project_set.projects@);
        let ghost start = self@;
        let mut i: usize = 0;
        while i < project_set.projects.len()
            invariant
                self.wf(),
                all == project_views(project_set.projects@),
                i <= all.len(),
                extends_cleanly(start.underlying, all.subrange(0, i as int)),
                self@.underlying == add_projects(start.underlying, all.subrange(0, i as int)),
                self@.sources == add_sources(
                    start.sources,
                    all.subrange(0, i as int),
                    project_set_name@,
                ),
            decreases all.len() - i,
        {
            let p = project_set.projects[i].duplicate();
            let ghost pre = all.subrange(0, i as int);
            let ghost next = all.subrange(0, i + 1);
            proof {
                assert(next.drop_last() =~= pre);
                assert(next.last() == p@);
                lemma_add_projects_dom(start.underlying, pre);
            }
            let mut k: usize = 0;
            while k < self.entries.len()
                invariant
                    self.wf(),
                    k <= self.entries@.len(),
                    i < all.len(),
                    self@.underlying == add_projects(start.underlying, pre),
                    self@.sources == add_sources(start.sources, pre, project_set_name@),
                    forall|j: int| 0 <= j < k ==> self.entries@[j].0.name@ != p.name@,
                decreases self.entries@.len() - k,
            {
                if self.entries[k].0.name == p.name {
                    proof {
                        self.lemma_view_at(k as int);
                        assert(add_projects(start.underlying, pre).contains_key(p@.name));
                        if start.underlying.contains_key(p@.name) {
                            assert(all[i as int].name == p@.name);
                        } else {
                            let j = choose|j: int| 0 <= j < pre.len() && pre[j].name == p@.name;
                            assert(all[j].name == all[i as int].name);
                        }
                    }
                    let previously_defined_in = self.entries[k].1.clone();
                    proof {
                        self.lemma_view_at(k as int);
                        assert(previously_defined_in@ == add_sources(
                            start.sources,
                            pre,
                            project_set_name@,
                        )[all[i as int].name]);
                        assert(project_set.projects@[i as int]@ == all[i as int]);
                    }
                    let name = p.name.clone();
                    let ghost before = self.entries@;
                    self.entries.set(k, (p, previously_defined_in.clone()));
                    assert(entry_names(self.entries@) =~= entry_names(before));
                    return Err(
                        DuplicateProject {
                            name,
                            project_set_name: String::from_str(project_set_name),
                            previously_defined_in,
                        },
                    );
                }
                k = k + 1;
            }
            let ghost before = self.entries@;
            let ghost old_view = self@;
            assert(!entry_names(before).contains(p.name@)) by {
                if entry_names(before).contains(p.name@) {
                    let j = choose|j: int|
                        0 <= j < entry_names(before).len() && entry_names(before)[j] == p.name@;
                }
            }
            proof {
                lemma_entries_map(before);
                assert(!add_projects(start.underlying, pre).contains_key(p@.name));
                assert forall|a: int, b: int| 0 <= a < b < next.len() implies next[a].name
                    != next[b].name by {
                    if b == i {
                        assert(next[a] == pre[a]);
                    } else {
                        assert(next[a] == pre[a] && next[b] == pre[b]);
                    }
                }
                assert forall|a: int| 0 <= a < next.len() implies !start.underlying.contains_key(
                    #[trigger] next[a].name,
                ) by {
                    if a < i {
                        assert(next[a] == pre[a]);
                    }
                }
            }
            self.entries.push((p, String::from_str(project_set_name)));
            proof {
                let e = self.entries@;
                assert(e.drop_last() =~= before);
                assert(e.last().0@ == next.last());
                assert(entries_map(e) == entries_map(before).insert(next.last().name, next.last()));
                assert(entries_sources(e) == entries_sources(before).insert(
                    next.last().name,
                    project_set_name@,
                ));
                assert(entry_names(e) =~= entry_names(before).push(e.last().0.name@));
                assert(entry_names(e).no_duplicates()) by {
                    assert forall|a: int, b: int|
                        0 <= a < entry_names(e).len() && 0 <= b < entry_names(e).len() && a
                            != b implies entry_names(e)[a] != entry_names(e)[b] by {
                        if a == before.len() {
                            assert(entry_names(before)[b] != e.last().0.name@);
                        } else if b == before.len() {
                            assert(entry_names(before)[a] != e.last().0.name@);
                        }
                    }
                }
            }
            i = i + 1;
        }
        assert(all.subrange(0, all.len() as int) =~= all);
        Ok(())
    }

    /// Whether a project is mandatory.
    pub fn is_mandatory(project: &Project) -> (res: bool)
        ensures
            res == project.mandatory,
    {
        project.mandatory
    }

    /// Whether a project can be selected.
    pub fn is_selectable(project: &Project) -> (res: bool)
        ensures
            res == !project.mandatory,
    {
        !Self::is_mandatory(project)
    }
}

pub open spec fn project_views(v: Seq<Project>) -> Seq<ProjectView> {
    v.map_values(|p: Project| p@)
}

/// The index with the projects `ps` added by name, in order.
pub open spec fn add_projects(m: Map<Seq<char>, ProjectView>, ps: Seq<ProjectView>) -> Map<
    Seq<char>,
    ProjectView,
>
    decreases ps.len(),
{
    if ps.len() == 0 {
        m
    } else {
        add_projects(m, ps.drop_last()).insert(ps.last().name, ps.last())
    }
}

/// The sources with the projects `ps` recorded as defined in `set_name`.
pub open spec fn add_sources(m: Map<Seq<char>, Seq<char>>, ps: Seq<ProjectView>, set_name: Seq<char>) -> Map<
    Seq<char>,
    Seq<char>,
>
    decreases ps.len(),
{
    if ps.len() == 0 {
        m
    } else {
        add_sources(m, ps.drop_last(), set_name).insert(ps.last().name, set_name)
    }
}

/// No project of `ps` has a name present in `m` or shared with another
/// project of `ps`.
pub open spec fn extends_cleanly(m: Map<Seq<char>, ProjectView>, ps: Seq<ProjectView>) -> bool {
    &&& forall|i: int| 0 <= i < ps.len() ==> !m.contains_key(#[trigger] ps[i].name)
    &&& forall|i: int, j: int| 0 <= i < j < ps.len() ==> ps[i].name != ps[j].name
}

pub proof fn lemma_add_projects_dom(m: Map<Seq<char>, ProjectView>, ps: Seq<ProjectView>)
    ensures
        forall|n: Seq<char>| #[trigger]
            add_projects(m, ps).contains_key(n) ==> m.contains_key(n) || exists|i: int|
                0 <= i < ps.len() && ps[i].name == n,
        forall|n: Seq<char>| m.contains_key(n) ==> #[trigger] add_projects(m, ps).contains_key(n),
        forall|i: int| 0 <= i < ps.len() ==> add_projects(m, ps).contains_key(#[trigger] ps[i].name),
    decreases ps.len(),
{
    if ps.len() > 0 {
        let init = ps.drop_last();
        lemma_add_projects_dom(m, init);
        assert forall|n: Seq<char>| #[trigger] add_projects(m, ps).contains_key(n) implies m.contains_key(
            n,
        ) || exists|i: int| 0 <= i < ps.len() && ps[i].name == n by {
            if n == ps.last().name {
                assert(ps[ps.len() - 1].name == n);
            } else {
                assert(add_projects(m, init).contains_key(n));
                if !m.contains_key(n) {
                    let i = choose|i: int| 0 <= i < init.len() && init[i].name == n;
                    assert(ps[i].name == n);
                }
            }
        }
        assert forall|n: Seq<char>| m.contains_key(n) implies #[trigger] add_projects(
            m,
            ps,
        ).contains_key(n) by {
            assert(add_projects(m, init).contains_key(n));
        }
        assert forall|i: int| 0 <= i < ps.len() implies add_projects(m, ps).contains_key(
            #[trigger] ps[i].name,
        ) by {
            if i < ps.len() - 1 {
                assert(init[i] == ps[i]);
                assert(add_projects(m, init).contains_key(init[i].name));
            }
        }
    }
}

/// Options of an addition.
#[derive(Debug, Clone, Copy, PartialEq, Eq, Hash, Structural)]
pub struct AddOptions {
    pub unroll: bool,
}

/// Options of a removal.
#[derive(Debug, Clone, Copy, PartialEq, Eq, Hash, Structural)]
pub struct RemoveOptions {
    pub all: bool,
}

/// What an operation does to the selection.
#[derive(Debug, Clone, Copy, PartialEq, Eq, Hash, Structural)]
pub enum OperationAction {
    Add(AddOptions),
    Remove(RemoveOptions),
}

impl OperationAction {
    /// An addition with default options.
    pub fn default_add() -> (res: OperationAction)
        ensures
            res == OperationAction::Add(AddOptions { unroll: false }),
    {
        OperationAction::Add(AddOptions { unroll: false })
    }

    /// A removal with default options.
    pub fn default_remove() -> (res: OperationAction)
        ensures
            res == OperationAction::Remove(RemoveOptions { all: false }),
    {
        OperationAction::Remove(RemoveOptions { all: false })
    }
}

/// What an operation applies to: a target or a project (by name).
#[derive(Debug, Clone, PartialEq, Eq, Hash)]
pub enum Underlying {
    Target(Target),
    Project(String),
}

/// The mathematical value of an `Underlying`.
pub enum UnderlyingView {
    Target(TargetView),
    Project(Seq<char>),
}

impl View for Underlying {
    type V = UnderlyingView;

    open spec fn view(&self) -> UnderlyingView {
        match self {
            Underlying::Target(t) => UnderlyingView::Target(t@),
            Underlying::Project(n) => UnderlyingView::Project(n@),
        }
    }
}

impl SameValue for Underlying {
    fn same_as(&self, other: &Underlying) -> (res: bool) {
        match (self, other) {
            (Underlying::Target(a), Underlying::Target(b)) => a.same_as(b),
            (Underlying::Project(a), Underlying::Project(b)) => *a == *b,
            _ => false,
        }
    }

    fn duplicate(&self) -> (res: Underlying) {
        match self {
            Underlying::Target(t) => Underlying::Target(Target::duplicate(t)),
            Underlying::Project(n) => Underlying::Project(n.clone()),
        }
    }
}

/// An operation on the selection.
#[derive(Debug, PartialEq, Eq, Hash)]
pub struct Operation {
    pub action: OperationAction,
    pub underlying: Underlying,
}

/// The mathematical value of an `Operation`.
pub struct OperationView {
    pub action: OperationAction,
    pub underlying: UnderlyingView,
}

impl View for Operation {
    type V = OperationView;

    open spec fn view(&self) -> OperationView {
        OperationView { action: self.action, underlying: self.underlying@ }
    }
}

/// What a text names: the target it parses as, or else a project.
pub open spec fn underlying_of(s: Seq<char>) -> UnderlyingView {
    match parse_target(s) {
        Ok(t) => UnderlyingView::Target(t),
        Err(_) => UnderlyingView::Project(s),
    }
}

impl Operation {
    /// An operation on what `string_repr` names: a target when it parses as
    /// one, otherwise the project of that name.
    pub fn new(action: OperationAction, string_repr: &str) -> (res: Operation)
        ensures
            res@ == (OperationView { action, underlying: underlying_of(string_repr@) }),
    {
        let underlying = match Target::try_from(string_repr) {
            Ok(t) => Underlying::Target(t),
            Err(_) => Underlying::Project(String::from_str(string_repr)),
        };
        Operation { action, underlying }
    }

    /// A copy with the same value.
    pub fn duplicate(&self) -> (res: Operation)
        ensures
            res@ == self@,
    {
        Operation { action: self.action, underlying: self.underlying.duplicate() }
    }
}

/// The outcome of processing operations: what was added, removed, what was
/// named but absent from the projects, and what changed nothing.
#[derive(Debug, Default)]
pub struct OperationResult {
    pub added: Vec<Underlying>,
    pub removed: Vec<Underlying>,
    pub absent: Vec<Underlying>,
    pub ignored: Vec<Underlying>,
}

/// The mathematical value of an `OperationResult`.
pub struct OperationResultView {
    pub added: Set<UnderlyingView>,
    pub removed: Set<UnderlyingView>,
    pub absent: Set<UnderlyingView>,
    pub ignored: Set<UnderlyingView>,
}

impl View for OperationResult {
    type V = OperationResultView;

    open spec fn view(&self) -> OperationResultView {
        OperationResultView {
            added: value_set(self.added@),
            removed: value_set(self.removed@),
            absent: value_set(self.absent@),
            ignored: value_set(self.ignored@),
        }
    }
}

pub open spec fn empty_result() -> OperationResultView {
    OperationResultView {
        added: Set::empty(),
        removed: Set::empty(),
        absent: Set::empty(),
        ignored: Set::empty(),
    }
}

impl OperationResult {
    /// No set holds a value twice.
    pub open spec fn wf(&self) -> bool {
        &&& distinct_values(self.added@)
        &&& distinct_values(self.removed@)
        &&& distinct_values(self.absent@)
        &&& distinct_values(self.ignored@)
    }

    /// An empty result.
    pub fn new() -> (res: OperationResult)
        ensures
            res.wf(),
            res@ == empty_result(),
    {
        let res = OperationResult {
            added: Vec::new(),
            removed: Vec::new(),
            absent: Vec::new(),
            ignored: Vec::new(),
        };
        assert(value_seq(res.added@) =~= Seq::<UnderlyingView>::empty());
        assert(res@.added =~= Set::<UnderlyingView>::empty());
        assert(res@.removed =~= Set::<UnderlyingView>::empty());
        assert(res@.absent =~= Set::<UnderlyingView>::empty());
        assert(res@.ignored =~= Set::<UnderlyingView>::empty());
        res
    }

    /// The number of projects and targets added or removed.
    pub fn change_count(&self) -> (res: usize)
        requires
            self.wf(),
            self.added@.len() + self.removed@.len() <= usize::MAX,
        ensures
            res == self@.added.len() + self@.removed.len(),
    {
        proof {
            value_seq(self.added@).unique_seq_to_set();
            value_seq(self.removed@).unique_seq_to_set();
        }
        self.added.len() + self.removed.len()
    }

    /// Whether processing changed the selection.
    pub fn changed(&self) -> (res: bool)
        requires
            self.wf(),
        ensures
            res == (self@.added.len() + self@.removed.len() > 0),
    {
        proof {
            value_seq(self.added@).unique_seq_to_set();
            value_seq(self.removed@).unique_seq_to_set();
        }
        self.added.len() > 0 || self.removed.len() > 0
    }

    /// Whether the operations were processed successfully: nothing named
    /// was absent.
    pub fn is_success(&self) -> (res: bool)
        requires
            self.wf(),
        ensures
            res == self@.absent.is_empty(),
    {
        proof {
            value_seq(self.absent@).unique_seq_to_set();
            if self@.absent.len() == 0 {
                assert(self@.absent =~= Set::<UnderlyingView>::empty());
            }
        }
        self.absent.len() == 0
    }
}

/// The projects and targets currently selected.
#[derive(Debug, Clone, Default, PartialEq)]
pub struct Selection {
    pub projects: Vec<Project>,
    pub targets: Vec<Target>,
}

/// The mathematical value of a `Selection`.
pub struct SelectionView {
    pub projects: Set<ProjectView>,
    pub targets: Set<TargetView>,
}

impl View for Selection {
    type V = SelectionView;

    open spec fn view(&self) -> SelectionView {
        SelectionView { projects: value_set(self.projects@), targets: value_set(self.targets@) }
    }
}

impl Selection {
    /// A copy with the same value.
    pub fn duplicate(&self) -> (res: Selection)
        ensures
            res@ == self@,
    {
        let mut projects: Vec<Project> = Vec::new();
        let mut i: usize = 0;
        while i < self.projects.len()
            invariant
                i <= self.projects@.len(),
                value_seq(projects@) == value_seq(self.projects@.subrange(0, i as int)),
            decreases self.projects@.len() - i,
        {
            projects.push(self.projects[i].duplicate());
            proof {
                assert(value_seq(self.projects@.subrange(0, i + 1)) =~= value_seq(
                    self.projects@.subrange(0, i as int),
                ).push(self.projects@[i as int]@));
            }
            assert(value_seq(projects@) =~= value_seq(self.projects@.subrange(0, i + 1)));
            i = i + 1;
        }
        let mut targets: Vec<Target> = Vec::new();
        let mut k: usize = 0;
        while k < self.targets.len()
            invariant
                k <= self.targets@.len(),
                value_seq(targets@) == value_seq(self.targets@.subrange(0, k as int)),
            decreases self.targets@.len() - k,
        {
            targets.push(self.targets[k].duplicate());
            proof {
                assert(value_seq(self.targets@.subrange(0, k + 1)) =~= value_seq(
                    self.targets@.subrange(0, k as int),
                ).push(self.targets@[k as int]@));
            }
            assert(value_seq(targets@) =~= value_seq(self.targets@.subrange(0, k + 1)));
            k = k + 1;
        }
        assert(self.projects@.subrange(0, self.projects@.len() as int) =~= self.projects@);
        assert(self.targets@.subrange(0, self.targets@.len() as int) =~= self.targets@);
        Selection { projects, targets }
    }
}

/// One operation applied to a selection and a result, with projects looked
/// up by name in `projects`.
pub open spec fn apply_operation(
    sel: SelectionView,
    res: OperationResultView,
    projects: Map<Seq<char>, ProjectView>,
    op: OperationView,
) -> (SelectionView, OperationResultView) {
    let u = op.underlying;
    match (op.action, u) {
        (OperationAction::Add(_), UnderlyingView::Target(t)) => if sel.targets.contains(t) {
            (sel, OperationResultView { ignored: res.ignored.insert(u), ..res })
        } else {
            (
                SelectionView { targets: sel.targets.insert(t), ..sel },
                OperationResultView { added: res.added.insert(u), ..res },
            )
        },
        (OperationAction::Add(_), UnderlyingView::Project(n)) => if !projects.contains_key(n) {
            (sel, OperationResultView { absent: res.absent.insert(u), ..res })
        } else if sel.projects.contains(projects[n]) {
            (sel, OperationResultView { ignored: res.ignored.insert(u), ..res })
        } else {
            (
                SelectionView { projects: sel.projects.insert(projects[n]), ..sel },
                OperationResultView { added: res.added.insert(u), ..res },
            )
        },
        (OperationAction::Remove(_), UnderlyingView::Target(t)) => if sel.targets.contains(t) {
            (
                SelectionView { targets: sel.targets.remove(t), ..sel },
                OperationResultView { removed: res.removed.insert(u), ..res },
            )
        } else {
            (sel, OperationResultView { ignored: res.ignored.insert(u), ..res })
        },
        (OperationAction::Remove(_), UnderlyingView::Project(n)) => if !projects.contains_key(n) {
            (sel, OperationResultView { absent: res.absent.insert(u), ..res })
        } else if sel.projects.contains(projects[n]) {
            (
                SelectionView { projects: sel.projects.remove(projects[n]), ..sel },
                OperationResultView { removed: res.removed.insert(u), ..res },
            )
        } else {
            (sel, OperationResultView { ignored: res.ignored.insert(u), ..res })
        },
    }
}

/// Removing a project takes out exactly the index's project of that name,
/// where it is selected; every other selected project and every target
/// stays. The operation is reported as removed, as ignored where the
/// project was not selected, and as absent only where the index has no
/// project of that name.
pub proof fn lemma_remove_project(
    sel: SelectionView,
    res: OperationResultView,
    projects: Map<Seq<char>, ProjectView>,
    opts: RemoveOptions,
    name: Seq<char>,
)
    ensures
        ({
            let u = UnderlyingView::Project(name);
            let (s1, r1) = apply_operation(
                sel,
                res,
                projects,
                OperationView { action: OperationAction::Remove(opts), underlying: u },
            );
            &&& forall|p: ProjectView|
                s1.projects.contains(p) <==> (sel.projects.contains(p) && !(projects.contains_key(name)
                    && p == projects[name]))
            &&& s1.targets == sel.targets
            &&& r1.added == res.added
            &&& r1.removed == (if projects.contains_key(name) && sel.projects.contains(projects[name]) {
                res.removed.insert(u)
            } else {
                res.removed
            })
            &&& r1.absent == (if projects.contains_key(name) {
                res.absent
            } else {
                res.absent.insert(u)
            })
        }),
{
}

/// Removing a target takes out exactly that target; the projects and every
/// other target stay. A target that is not selected is reported as
/// ignored, never as absent.
pub proof fn lemma_remove_target(
    sel: SelectionView,
    res: OperationResultView,
    projects: Map<Seq<char>, ProjectView>,
    opts: RemoveOptions,
    t: TargetView,
)
    ensures
        ({
            let u = UnderlyingView::Target(t);
            let (s1, r1) = apply_operation(
                sel,
                res,
                projects,
                OperationView { action: OperationAction::Remove(opts), underlying: u },
            );
            &&& forall|x: TargetView| s1.targets.contains(x) <==> (sel.targets.contains(x) && x != t)
            &&& s1.projects == sel.projects
            &&& r1.absent == res.absent
            &&& r1.added == res.added
            &&& (sel.targets.contains(t) ==> r1.removed == res.removed.insert(u) && r1.ignored
                == res.ignored)
            &&& (!sel.targets.contains(t) ==> r1.ignored == res.ignored.insert(u) && r1.removed
                == res.removed && s1 == sel)
        }),
{
}

/// Adding keeps everything selected: the selection after an addition holds
/// all it held, plus the target, or the index's project of that name.
pub proof fn lemma_add_keeps_selection(
    sel: SelectionView,
    res: OperationResultView,
    projects: Map<Seq<char>, ProjectView>,
    opts: AddOptions,
    u: UnderlyingView,
)
    ensures
        ({
            let (s1, r1) = apply_operation(
                sel,
                res,
                projects,
                OperationView { action: OperationAction::Add(opts), underlying: u },
            );
            &&& r1.removed == res.removed
            &&& match u {
                UnderlyingView::Target(t) => s1.targets == sel.targets.insert(t) && s1.projects
                    == sel.projects && r1.absent == res.absent,
                UnderlyingView::Project(n) => s1.targets == sel.targets && if projects.contains_key(
                    n,
                ) {
                    s1.projects == sel.projects.insert(projects[n]) && r1.absent == res.absent
                } else {
                    s1 == sel && r1.absent == res.absent.insert(u)
                },
            }
        }),
{
    match u {
        UnderlyingView::Target(t) => {
            if sel.targets.contains(t) {
                assert(sel.targets.insert(t) =~= sel.targets);
            }
        },
        UnderlyingView::Project(n) => {
            if projects.contains_key(n) && sel.projects.contains(projects[n]) {
                assert(sel.projects.insert(projects[n]) =~= sel.projects);
            }
        },
    }
}

/// Over a batch of operations, what is reported absent is what was absent
/// before, plus exactly the project names of the batch that the index does
/// not hold: never a target.
pub proof fn lemma_absent_are_unknown_projects(
    sel: SelectionView,
    res: OperationResultView,
    projects: Map<Seq<char>, ProjectView>,
    ops: Seq<OperationView>,
)
    ensures
        forall|x: UnderlyingView|
            #[trigger] apply_operations(sel, res, projects, ops).1.absent.contains(x) <==> (
            res.absent.contains(x) || (exists|i: int|
                0 <= i < ops.len() && #[trigger] ops[i].underlying == x && (x matches UnderlyingView::Project(
                    n,
                ) && !projects.contains_key(n)))),
    decreases ops.len(),
{
    if ops.len() > 0 {
        let (s1, r1) = apply_operation(sel, res, projects, ops[0]);
        let rest = ops.drop_first();
        lemma_absent_are_unknown_projects(s1, r1, projects, rest);
        assert forall|x: UnderlyingView|
            #[trigger] apply_operations(sel, res, projects, ops).1.absent.contains(x) <==> (
            res.absent.contains(x) || (exists|i: int|
                0 <= i < ops.len() && #[trigger] ops[i].underlying == x && (x matches UnderlyingView::Project(
                    n,
                ) && !projects.contains_key(n)))) by {
            assert(apply_operations(sel, res, projects, ops) == apply_operations(s1, r1, projects, rest));
            let unknown0 = ops[0].underlying == x && (x matches UnderlyingView::Project(n)
                && !projects.contains_key(n));
            assert(r1.absent.contains(x) <==> (res.absent.contains(x) || unknown0));
            if exists|i: int|
                0 <= i < ops.len() && #[trigger] ops[i].underlying == x && (x matches UnderlyingView::Project(
                    n,
                ) && !projects.contains_key(n)) {
                let i = choose|i: int|
                    0 <= i < ops.len() && #[trigger] ops[i].underlying == x && (x matches UnderlyingView::Project(
                        n,
                    ) && !projects.contains_key(n));
                if i > 0 {
                    assert(rest[i - 1] == ops[i]);
                }
            }
            if exists|i: int|
                0 <= i < rest.len() && #[trigger] rest[i].underlying == x && (x matches UnderlyingView::Project(
                    n,
                ) && !projects.contains_key(n)) {
                let i = choose|i: int|
                    0 <= i < rest.len() && #[trigger] rest[i].underlying == x && (x matches UnderlyingView::Project(
                        n,
                    ) && !projects.contains_key(n));
                assert(ops[i + 1] == rest[i]);
            }
        }
    }
}

/// Operations applied in order.
pub open spec fn apply_operations(
    sel: SelectionView,
    res: OperationResultView,
    projects: Map<Seq<char>, ProjectView>,
    ops: Seq<OperationView>,
) -> (SelectionView, OperationResultView)
    decreases ops.len(),
{
    if ops.len() == 0 {
        (sel, res)
    } else {
        let (s1, r1) = apply_operation(sel, res, projects, ops[0]);
        apply_operations(s1, r1, projects, ops.drop_first())
    }
}

pub open spec fn operation_views(v: Seq<Operation>) -> Seq<OperationView> {
    v.map_values(|o: Operation| o@)
}

/// Adding a target that is not selected and then removing it gives back
/// the selection.
pub proof fn lemma_add_then_remove_target(
    sel: SelectionView,
    projects: Map<Seq<char>, ProjectView>,
    t: TargetView,
    add: AddOptions,
    remove: RemoveOptions,
)
    requires
        !sel.targets.contains(t),
    ensures
        apply_operations(
            sel,
            empty_result(),
            projects,
            seq![
                OperationView { action: OperationAction::Add(add), underlying: UnderlyingView::Target(t) },
                OperationView {
                    action: OperationAction::Remove(remove),
                    underlying: UnderlyingView::Target(t),
                },
            ],
        ).0 == sel,
{
    let ops = seq![
        OperationView { action: OperationAction::Add(add), underlying: UnderlyingView::Target(t) },
        OperationView { action: OperationAction::Remove(remove), underlying: UnderlyingView::Target(t) },
    ];
    let (s1, r1) = apply_operation(sel, empty_result(), projects, ops[0]);
    let (s2, r2) = apply_operation(s1, r1, projects, ops[1]);
    let rest = ops.drop_first();
    assert(rest[0] == ops[1]);
    assert(rest.drop_first().len() == 0);
    assert(apply_operations(sel, empty_result(), projects, ops) == apply_operations(s1, r1, projects, rest));
    assert(apply_operations(s1, r1, projects, rest) == apply_operations(s2, r2, projects, rest.drop_first()));
    assert(apply_operations(s2, r2, projects, rest.drop_first()) == (s2, r2));
    assert(s1.targets == sel.targets.insert(t));
    assert(s2.targets =~= sel.targets);
    assert(s2 == sel);
}

/// Applying an operation a second time changes nothing more, and what it
/// names is then reported as ignored or absent.
pub proof fn lemma_operation_idempotent(
    sel: SelectionView,
    res: OperationResultView,
    projects: Map<Seq<char>, ProjectView>,
    op: OperationView,
)
    ensures
        ({
            let (s1, r1) = apply_operation(sel, res, projects, op);
            let (s2, r2) = apply_operation(s1, r1, projects, op);
            &&& s2 == s1
            &&& r2.ignored.contains(op.underlying) || r2.absent.contains(op.underlying)
        }),
{
    let (s1, r1) = apply_operation(sel, res, projects, op);
    match (op.action, op.underlying) {
        (OperationAction::Add(_), UnderlyingView::Target(t)) => {
            assert(s1.targets.contains(t));
        },
        (OperationAction::Add(_), UnderlyingView::Project(n)) => {
            if projects.contains_key(n) {
                assert(s1.projects.contains(projects[n]));
            }
        },
        (OperationAction::Remove(_), UnderlyingView::Target(t)) => {
            assert(!s1.targets.contains(t));
        },
        (OperationAction::Remove(_), UnderlyingView::Project(n)) => {
            if projects.contains_key(n) {
                assert(!s1.projects.contains(projects[n]));
            }
        },
    }
}

/// The projects that additions of project names bring in.
pub open spec fn added_projects(ops: Seq<OperationView>, projects: Map<Seq<char>, ProjectView>) -> Set<
    ProjectView,
>
    decreases ops.len(),
{
    if ops.len() == 0 {
        Set::empty()
    } else {
        let rest = added_projects(ops.drop_first(), projects);
        match ops[0].underlying {
            UnderlyingView::Project(n) => if projects.contains_key(n) {
                rest.insert(projects[n])
            } else {
                rest
            },
            UnderlyingView::Target(_) => rest,
        }
    }
}

/// The targets that additions of targets bring in.
pub open spec fn added_targets(ops: Seq<OperationView>) -> Set<TargetView>
    decreases ops.len(),
{
    if ops.len() == 0 {
        Set::empty()
    } else {
        let rest = added_targets(ops.drop_first());
        match ops[0].underlying {
            UnderlyingView::Target(t) => rest.insert(t),
            UnderlyingView::Project(_) => rest,
        }
    }
}

/// Additions only ever add: the selection after them is the selection
/// before with every added project and target.
pub proof fn lemma_apply_additions(
    sel: SelectionView,
    res: OperationResultView,
    projects: Map<Seq<char>, ProjectView>,
    ops: Seq<OperationView>,
)
    requires
        forall|i: int| 0 <= i < ops.len() ==> (#[trigger] ops[i]).action is Add,
    ensures
        apply_operations(sel, res, projects, ops).0 == (SelectionView {
            projects: sel.projects.union(added_projects(ops, projects)),
            targets: sel.targets.union(added_targets(ops)),
        }),
    decreases ops.len(),
{
    if ops.len() == 0 {
        assert(sel.projects.union(Set::empty()) =~= sel.projects);
        assert(sel.targets.union(Set::empty()) =~= sel.targets);
    } else {
        let (s1, r1) = apply_operation(sel, res, projects, ops[0]);
        let rest = ops.drop_first();
        assert forall|i: int| 0 <= i < rest.len() implies (#[trigger] rest[i]).action is Add by {
            assert(rest[i] == ops[i + 1]);
        }
        assert(ops[0].action is Add);
        lemma_apply_additions(s1, r1, projects, rest);
        match ops[0].underlying {
            UnderlyingView::Target(t) => {
                assert(s1.projects == sel.projects);
                assert(s1.targets =~= sel.targets.insert(t));
                assert(s1.targets.union(added_targets(rest)) =~= sel.targets.union(
                    added_targets(ops),
                ));
            },
            UnderlyingView::Project(n) => {
                if projects.contains_key(n) {
                    assert(s1.projects =~= sel.projects.insert(projects[n]));
                    assert(s1.projects.union(added_projects(rest, projects)) =~= sel.projects.union(
                        added_projects(ops, projects),
                    ));
                }
            },
        }
    }
}

pub proof fn lemma_added_from_persisted(
    names: Seq<Seq<char>>,
    texts: Seq<Seq<char>>,
    projects: Map<Seq<char>, ProjectView>,
)
    ensures
        added_projects(persisted_operations(names, texts), projects) == names.to_set().filter(
            |n: Seq<char>| projects.contains_key(n),
        ).map(|n: Seq<char>| projects[n]),
        added_targets(persisted_operations(names, texts)) == texts.to_set().map(
            |t: Seq<char>| parse_target(t)->Ok_0,
        ),
    decreases names.len() + texts.len(),
{
    let ops = persisted_operations(names, texts);
    if names.len() > 0 {
        let rest = names.drop_first();
        lemma_added_from_persisted(rest, texts, projects);
        assert(ops.drop_first() =~= persisted_operations(rest, texts));
        let a = names.to_set().filter(|n: Seq<char>| projects.contains_key(n)).map(
            |n: Seq<char>| projects[n],
        );
        let b = rest.to_set().filter(|n: Seq<char>| projects.contains_key(n)).map(
            |n: Seq<char>| projects[n],
        );
        assert(names.to_set() =~= rest.to_set().insert(names[0])) by {
            assert forall|x| names.to_set().contains(x) implies rest.to_set().insert(names[0]).contains(x) by {
                let k = choose|k: int| 0 <= k < names.len() && names[k] == x;
                if k > 0 {
                    assert(rest[k - 1] == x);
                }
            }
            assert forall|x| rest.to_set().insert(names[0]).contains(x) implies names.to_set().contains(x) by {
                if x != names[0] {
                    let k = choose|k: int| 0 <= k < rest.len() && rest[k] == x;
                    assert(names[k + 1] == x);
                }
            }
        }
        if projects.contains_key(names[0]) {
            assert(a =~= b.insert(projects[names[0]])) by {
                assert forall|p| a.contains(p) implies b.insert(projects[names[0]]).contains(p) by {
                    let n = choose|n: Seq<char>| names.to_set().filter(|n: Seq<char>| projects.contains_key(n)).contains(n) && projects[n] == p;
                    if n != names[0] {
                        assert(rest.to_set().filter(|n: Seq<char>| projects.contains_key(n)).contains(n));
                    }
                }
                assert forall|p| b.insert(projects[names[0]]).contains(p) implies a.contains(p) by {
                    if p == projects[names[0]] {
                        assert(names.to_set().filter(|n: Seq<char>| projects.contains_key(n)).contains(names[0]));
                    } else {
                        let n = choose|n: Seq<char>| rest.to_set().filter(|n: Seq<char>| projects.contains_key(n)).contains(n) && projects[n] == p;
                        assert(names.to_set().filter(|n: Seq<char>| projects.contains_key(n)).contains(n));
                    }
                }
            }
        } else {
            assert(a =~= b) by {
                assert forall|p| a.contains(p) implies b.contains(p) by {
                    let n = choose|n: Seq<char>| names.to_set().filter(|n: Seq<char>| projects.contains_key(n)).contains(n) && projects[n] == p;
                    assert(rest.to_set().filter(|n: Seq<char>| projects.contains_key(n)).contains(n));
                }
                assert forall|p| b.contains(p) implies a.contains(p) by {
                    let n = choose|n: Seq<char>| rest.to_set().filter(|n: Seq<char>| projects.contains_key(n)).contains(n) && projects[n] == p;
                    assert(names.to_set().filter(|n: Seq<char>| projects.contains_key(n)).contains(n));
                }
            }
        }
    } else if texts.len() > 0 {
        let rest = texts.drop_first();
        lemma_added_from_persisted(names, rest, projects);
        assert(ops =~= target_additions(texts));
        assert(ops.drop_first() =~= persisted_operations(names, rest));
        assert(texts.to_set() =~= rest.to_set().insert(texts[0])) by {
            assert forall|x| texts.to_set().contains(x) implies rest.to_set().insert(texts[0]).contains(x) by {
                let k = choose|k: int| 0 <= k < texts.len() && texts[k] == x;
                if k > 0 {
                    assert(rest[k - 1] == x);
                }
            }
            assert forall|x| rest.to_set().insert(texts[0]).contains(x) implies texts.to_set().contains(x) by {
                if x != texts[0] {
                    let k = choose|k: int| 0 <= k < rest.len() && rest[k] == x;
                    assert(texts[k + 1] == x);
                }
            }
        }
        let f = |t: Seq<char>| parse_target(t)->Ok_0;
        assert(texts.to_set().map(f) =~= rest.to_set().map(f).insert(f(texts[0]))) by {
            assert forall|y| texts.to_set().map(f).contains(y) implies rest.to_set().map(f).insert(f(texts[0])).contains(y) by {
                let x = choose|x: Seq<char>| texts.to_set().contains(x) && f(x) == y;
                if x != texts[0] {
                    assert(rest.to_set().contains(x));
                }
            }
            assert forall|y| rest.to_set().map(f).insert(f(texts[0])).contains(y) implies texts.to_set().map(f).contains(y) by {
                if y == f(texts[0]) {
                    assert(texts.to_set().contains(texts[0]));
                } else {
                    let x = choose|x: Seq<char>| rest.to_set().contains(x) && f(x) == y;
                    assert(texts.to_set().contains(x));
                }
            }
        }
    } else {
        assert(names.to_set() =~= Set::<Seq<char>>::empty());
        assert(texts.to_set() =~= Set::<Seq<char>>::empty());
        assert(names.to_set().filter(|n: Seq<char>| projects.contains_key(n)).map(|n: Seq<char>| projects[n]) =~= Set::<ProjectView>::empty());
        assert(texts.to_set().map(|t: Seq<char>| parse_target(t)->Ok_0) =~= Set::<TargetView>::empty());
    }
}

/// Storing a selection and loading it back gives the selection without
/// its mandatory projects, when each selectable project is what the index
/// holds under its name and each target is printable.
pub proof fn lemma_persist_roundtrip(
    sel: SelectionView,
    projects: Map<Seq<char>, ProjectView>,
    names: Seq<Seq<char>>,
    texts: Seq<Seq<char>>,
)
    requires
        forall|p: ProjectView| #[trigger]
            sel.projects.contains(p) && !p.mandatory ==> projects.contains_key(p.name)
                && projects[p.name] == p,
        forall|t: TargetView| #[trigger] sel.targets.contains(t) ==> crate::target::is_printable_target(t),
        names.to_set() == persist(sel).projects,
        texts.to_set() == persist(sel).targets,
    ensures
        apply_operations(
            SelectionView { projects: Set::empty(), targets: Set::empty() },
            empty_result(),
            projects,
            persisted_operations(names, texts),
        ).0 == (SelectionView {
            projects: sel.projects.filter(|p: ProjectView| !p.mandatory),
            targets: sel.targets,
        }),
{
    let ops = persisted_operations(names, texts);
    assert forall|i: int| 0 <= i < ops.len() implies (#[trigger] ops[i]).action is Add by {
        if i < names.len() {
        } else {
        }
    }
    let empty = SelectionView { projects: Set::<ProjectView>::empty(), targets: Set::<TargetView>::empty() };
    lemma_apply_additions(empty, empty_result(), projects, ops);
    lemma_added_from_persisted(names, texts, projects);
    let selectable = sel.projects.filter(|p: ProjectView| !p.mandatory);
    let got_projects = names.to_set().filter(|n: Seq<char>| projects.contains_key(n)).map(
        |n: Seq<char>| projects[n],
    );
    assert(got_projects =~= selectable) by {
        assert forall|p| got_projects.contains(p) implies selectable.contains(p) by {
            let n = choose|n: Seq<char>| names.to_set().filter(|n: Seq<char>| projects.contains_key(n)).contains(n) && projects[n] == p;
            assert(persist(sel).projects.contains(n));
            let q = choose|q: ProjectView| selectable.contains(q) && q.name == n;
            assert(sel.projects.contains(q) && !q.mandatory);
        }
        assert forall|p| selectable.contains(p) implies got_projects.contains(p) by {
            assert(sel.projects.contains(p) && !p.mandatory);
            assert(persist(sel).projects.contains(p.name));
            assert(names.to_set().filter(|n: Seq<char>| projects.contains_key(n)).contains(p.name));
        }
    }
    let f = |t: Seq<char>| parse_target(t)->Ok_0;
    assert(texts.to_set().map(f) =~= sel.targets) by {
        assert forall|t| texts.to_set().map(f).contains(t) implies sel.targets.contains(t) by {
            let x = choose|x: Seq<char>| texts.to_set().contains(x) && f(x) == t;
            assert(persist(sel).targets.contains(x));
            let u = choose|u: TargetView| sel.targets.contains(u) && qualified_target_text(u) == x;
            crate::target::lemma_target_roundtrip(u);
        }
        assert forall|t| sel.targets.contains(t) implies texts.to_set().map(f).contains(t) by {
            crate::target::lemma_target_roundtrip(t);
            assert(persist(sel).targets.contains(qualified_target_text(t)));
            assert(texts.to_set().contains(qualified_target_text(t)));
        }
    }
    assert(Set::<ProjectView>::empty().union(got_projects) =~= got_projects);
    assert(Set::<TargetView>::empty().union(texts.to_set().map(f)) =~= texts.to_set().map(f));
}

/// Saving a selection and reloading what was saved (as `Selections::save`
/// and `Selections::reload` do, or building new `Selections` from it)
/// succeeds and gives the same selection back, when the selection holds only
/// selectable projects that the optional index holds under their names,
/// and targets whose printed forms parse back to them.
pub proof fn lemma_save_then_reload(
    sel: SelectionView,
    optional: Map<Seq<char>, ProjectView>,
    saved: PersistedSelection,
)
    requires
        forall|p: ProjectView| #[trigger]
            sel.projects.contains(p) ==> !p.mandatory && optional.contains_key(p.name)
                && optional[p.name] == p,
        forall|t: TargetView| #[trigger] sel.targets.contains(t) ==> crate::target::is_printable_target(t),
        saved@ == persist(sel),
    ensures
        forall|i: int|
            0 <= i < saved.targets@.len() ==> parse_target(#[trigger] saved.targets@[i]@) is Ok,
        apply_operations(
            SelectionView { projects: Set::empty(), targets: Set::empty() },
            empty_result(),
            optional,
            persisted_operations(views(saved.projects@), views(saved.targets@)),
        ).0 == sel,
{
    let names = views(saved.projects@);
    let texts = views(saved.targets@);
    assert(names =~= value_seq(saved.projects@));
    assert(texts =~= value_seq(saved.targets@));
    lemma_persist_roundtrip(sel, optional, names, texts);
    assert(sel.projects.filter(|p: ProjectView| !p.mandatory) =~= sel.projects);
    assert forall|i: int| 0 <= i < saved.targets@.len() implies parse_target(
        #[trigger] saved.targets@[i]@,
    ) is Ok by {
        assert(texts[i] == saved.targets@[i]@);
        assert(value_set(saved.targets@).contains(texts[i]));
        assert(persist(sel).targets.contains(texts[i]));
        let t = choose|t: TargetView| sel.targets.contains(t) && qualified_target_text(t) == texts[i];
        crate::target::lemma_target_roundtrip(t);
    }
}

/// Applies operations to a selection, looking projects up in an index.
pub struct SelectionOperationProcessor<'a> {
    /// The selection being changed.
    pub selection: Selection,
    /// The projects that operations name.
    pub projects: &'a Projects,
}

impl<'a> SelectionOperationProcessor<'a> {
    /// Applies each operation in turn, as `apply_operations` states, and
    /// reports what each did.
    pub fn process(&mut self, operations: &Vec<Operation>) -> (res: OperationResult)
        requires
            old(self).projects.wf(),
        ensures
            final(self).projects == old(self).projects,
            res.wf(),
            (final(self).selection@, res@) == apply_operations(
                old(self).selection@,
                empty_result(),
                old(self).projects@.underlying,
                operation_views(operations@),
            ),
    {
        let mut result = OperationResult::new();
        let ghost ops = operation_views(operations@);
        let ghost projects = self.projects@.underlying;
        let ghost goal = apply_operations(self.selection@, empty_result(), projects, ops);
        assert(ops.skip(0) =~= ops);
        let mut i: usize = 0;
        while i < operations.len()
            invariant
                self.projects.wf(),
                self.projects == old(self).projects,
                projects == self.projects@.underlying,
                ops == operation_views(operations@),
                i <= ops.len(),
                result.wf(),
                goal == apply_operations(self.selection@, result@, projects, ops.skip(i as int)),
            decreases ops.len() - i,
        {
            let op = &operations[i];
            let u = op.underlying.duplicate();
            let ghost pre_sel = self.selection@;
            let ghost pre_res = result@;
            proof {
                assert(ops.skip(i as int)[0] == op@);
                assert(ops.skip(i as int).drop_first() =~= ops.skip(i + 1));
            }
            match (&op.action, &op.underlying) {
                (OperationAction::Add(_), Underlying::Target(t)) => {
                    if insert_value(&mut self.selection.targets, t.duplicate()) {
                        insert_value(&mut result.added, u);
                    } else {
                        insert_value(&mut result.ignored, u);
                    }
                },
                (OperationAction::Add(_), Underlying::Project(name)) => {
                    match self.projects.get(name.as_str()) {
                        Some(project) => {
                            if insert_value(&mut self.selection.projects, project.duplicate()) {
                                insert_value(&mut result.added, u);
                            } else {
                                insert_value(&mut result.ignored, u);
                            }
                        },
                        None => {
                            insert_value(&mut result.absent, u);
                        },
                    }
                },
                (OperationAction::Remove(_), Underlying::Target(t)) => {
                    if remove_value(&mut self.selection.targets, t) {
                        insert_value(&mut result.removed, u);
                    } else {
                        assert(pre_sel.targets.remove(t@) =~= pre_sel.targets);
                        insert_value(&mut result.ignored, u);
                    }
                },
                (OperationAction::Remove(_), Underlying::Project(name)) => {
                    match self.projects.get(name.as_str()) {
                        Some(project) => {
                            if remove_value(&mut self.selection.projects, project) {
                                insert_value(&mut result.removed, u);
                            } else {
                                assert(pre_sel.projects.remove(project@) =~= pre_sel.projects);
                                insert_value(&mut result.ignored, u);
                            }
                        },
                        None => {
                            insert_value(&mut result.absent, u);
                        },
                    }
                },
            }
            i = i + 1;
        }
        assert(ops.skip(i as int) =~= Seq::<OperationView>::empty());
        result
    }
}

impl SameValue for String {
    fn same_as(&self, other: &String) -> (res: bool) {
        *self == *other
    }

    fn duplicate(&self) -> (res: String) {
        self.clone()
    }
}

/// The names of the selected projects and the printed forms of the
/// selected targets, as they are stored.
#[derive(Debug, Clone, Default, PartialEq)]
pub struct PersistedSelection {
    pub projects: Vec<String>,
    pub targets: Vec<String>,
}

/// The mathematical value of a `PersistedSelection`.
pub struct PersistedSelectionView {
    pub projects: Set<Seq<char>>,
    pub targets: Set<Seq<char>>,
}

impl View for PersistedSelection {
    type V = PersistedSelectionView;

    open spec fn view(&self) -> PersistedSelectionView {
        PersistedSelectionView { projects: value_set(self.projects@), targets: value_set(self.targets@) }
    }
}

/// What is stored of a selection: the names of its selectable projects
/// and the qualified printed forms of its targets.
pub open spec fn persist(sel: SelectionView) -> PersistedSelectionView {
    PersistedSelectionView {
        projects: sel.projects.filter(|p: ProjectView| !p.mandatory).map(|p: ProjectView| p.name),
        targets: sel.targets.map(|t: TargetView| qualified_target_text(t)),
    }
}

/// The operations that rebuild a stored selection: add each project, then
/// add each target.
pub open spec fn persisted_operations(projects: Seq<Seq<char>>, targets: Seq<Seq<char>>) -> Seq<
    OperationView,
> {
    project_additions(projects) + target_additions(targets)
}

/// An addition of each named project.
pub open spec fn project_additions(names: Seq<Seq<char>>) -> Seq<OperationView> {
    names.map_values(
        |n: Seq<char>|
            OperationView {
                action: OperationAction::Add(AddOptions { unroll: false }),
                underlying: UnderlyingView::Project(n),
            },
    )
}

/// An addition of the target that each text parses as.
pub open spec fn target_additions(texts: Seq<Seq<char>>) -> Seq<OperationView> {
    texts.map_values(
        |t: Seq<char>|
            OperationView {
                action: OperationAction::Add(AddOptions { unroll: false }),
                underlying: UnderlyingView::Target(parse_target(t)->Ok_0),
            },
    )
}

impl PersistedSelection {
    /// The stored form of a selection, as `persist` states.
    pub fn from_selection(selection: &Selection) -> (res: PersistedSelection)
        ensures
            res@ == persist(selection@),
    {
        let mut projects: Vec<String> = Vec::new();
        let mut i: usize = 0;
        while i < selection.projects.len()
            invariant
                i <= selection.projects@.len(),
                value_set(projects@) == value_set(selection.projects@.subrange(0, i as int)).filter(
                    |p: ProjectView| !p.mandatory,
                ).map(|p: ProjectView| p.name),
            decreases selection.projects@.len() - i,
        {
            let p = &selection.projects[i];
            let ghost pre = value_set(selection.projects@.subrange(0, i as int));
            let ghost next = value_set(selection.projects@.subrange(0, i + 1));
            proof {
                assert(next =~= pre.insert(p@)) by {
                    let a = selection.projects@.subrange(0, i as int);
                    let b = selection.projects@.subrange(0, i + 1);
                    assert(value_seq(b) =~= value_seq(a).push(p@));
                    assert forall|x| next.contains(x) implies pre.insert(p@).contains(x) by {
                        let k = choose|k: int| 0 <= k < value_seq(b).len() && value_seq(b)[k] == x;
                        if k < i {
                            assert(value_seq(a)[k] == x);
                        }
                    }
                    assert forall|x| pre.insert(p@).contains(x) implies next.contains(x) by {
                        if x == p@ {
                            assert(value_seq(b)[i as int] == x);
                        } else {
                            let k = choose|k: int| 0 <= k < value_seq(a).len() && value_seq(a)[k] == x;
                            assert(value_seq(b)[k] == x);
                        }
                    }
                }
            }
            let ghost before = value_set(projects@);
            if p.is_selectable() {
                insert_value(&mut projects, p.name.clone());
                assert(next.filter(|p: ProjectView| !p.mandatory).map(|p: ProjectView| p.name) =~= pre.filter(
                    |p: ProjectView| !p.mandatory,
                ).map(|p: ProjectView| p.name).insert(p@.name)) by {
                    let f = next.filter(|p: ProjectView| !p.mandatory);
                    let g = pre.filter(|p: ProjectView| !p.mandatory);
                    assert(f =~= g.insert(p@));
                    let fm = f.map(|p: ProjectView| p.name);
                    let gm = g.map(|p: ProjectView| p.name);
                    assert forall|y| fm.contains(y) implies gm.insert(p@.name).contains(y) by {
                        let x = choose|x: ProjectView| f.contains(x) && x.name == y;
                        if x != p@ {
                            assert(g.contains(x));
                        }
                    }
                    assert forall|y| gm.insert(p@.name).contains(y) implies fm.contains(y) by {
                        if y == p@.name {
                            assert(f.contains(p@));
                        } else {
                            let x = choose|x: ProjectView| g.contains(x) && x.name == y;
                            assert(f.contains(x));
                        }
                    }
                }
            } else {
                assert(next.filter(|p: ProjectView| !p.mandatory) =~= pre.filter(
                    |p: ProjectView| !p.mandatory,
                ));
            }
            i = i + 1;
        }
        let mut targets: Vec<String> = Vec::new();
        let mut k: usize = 0;
        while k < selection.targets.len()
            invariant
                k <= selection.targets@.len(),
                value_set(targets@) == value_set(selection.targets@.subrange(0, k as int)).map(
                    |t: TargetView| qualified_target_text(t),
                ),
            decreases selection.targets@.len() - k,
        {
            let t = &selection.targets[k];
            let ghost pre = value_set(selection.targets@.subrange(0, k as int));
            let ghost next = value_set(selection.targets@.subrange(0, k + 1));
            proof {
                assert(next =~= pre.insert(t@)) by {
                    let a = selection.targets@.subrange(0, k as int);
                    let b = selection.targets@.subrange(0, k + 1);
                    assert(value_seq(b) =~= value_seq(a).push(t@));
                    assert forall|x| next.contains(x) implies pre.insert(t@).contains(x) by {
                        let j = choose|j: int| 0 <= j < value_seq(b).len() && value_seq(b)[j] == x;
                        if j < k {
                            assert(value_seq(a)[j] == x);
                        }
                    }
                    assert forall|x| pre.insert(t@).contains(x) implies next.contains(x) by {
                        if x == t@ {
                            assert(value_seq(b)[k as int] == x);
                        } else {
                            let j = choose|j: int| 0 <= j < value_seq(a).len() && value_seq(a)[j] == x;
                            assert(value_seq(b)[j] == x);
                        }
                    }
                }
                let fm = next.map(|t: TargetView| qualified_target_text(t));
                let gm = pre.map(|t: TargetView| qualified_target_text(t));
                assert forall|y| fm.contains(y) implies gm.insert(qualified_target_text(t@)).contains(y) by {
                    let x = choose|x: TargetView| next.contains(x) && qualified_target_text(x) == y;
                    if x != t@ {
                        assert(pre.contains(x));
                    }
                }
                assert forall|y| gm.insert(qualified_target_text(t@)).contains(y) implies fm.contains(y) by {
                    if y == qualified_target_text(t@) {
                        assert(next.contains(t@));
                    } else {
                        let x = choose|x: TargetView| pre.contains(x) && qualified_target_text(x) == y;
                        assert(next.contains(x));
                    }
                }
                assert(fm =~= gm.insert(qualified_target_text(t@)));
            }
            insert_value(&mut targets, t.to_qualified_string());
            k = k + 1;
        }
        assert(selection.projects@.subrange(0, selection.projects@.len() as int)
            =~= selection.projects@);
        assert(selection.targets@.subrange(0, selection.targets@.len() as int)
            =~= selection.targets@);
        PersistedSelection { projects, targets }
    }

    /// The operations that rebuild this selection: an addition of each
    /// project, then of each target; or, when some targets do not parse,
    /// the errors of those targets in order.
    pub fn to_operations(&self) -> (res: Result<Vec<Operation>, Vec<TargetError>>)
        ensures
            res is Ok <==> forall|i: int|
                0 <= i < self.targets@.len() ==> parse_target(#[trigger] self.targets@[i]@) is Ok,
            res matches Ok(ops) ==> operation_views(ops@) == persisted_operations(
                views(self.projects@),
                views(self.targets@),
            ),
            res matches Err(errors) ==> errors@.len() > 0,
    {
        let mut errors: Vec<TargetError> = Vec::new();
        let mut targets: Vec<Operation> = Vec::new();
        let mut i: usize = 0;
        while i < self.targets.len()
            invariant
                i <= self.targets@.len(),
                errors@.len() == 0 <==> forall|j: int|
                    0 <= j < i ==> parse_target(#[trigger] self.targets@[j]@) is Ok,
                errors@.len() == 0 ==> operation_views(targets@) == target_additions(
                    views(self.targets@.subrange(0, i as int)),
                ),
            decreases self.targets@.len() - i,
        {
            match Target::try_from(self.targets[i].as_str()) {
                Ok(t) => {
                    let ghost before = operation_views(targets@);
                    targets.push(
                        Operation { action: OperationAction::default_add(), underlying: Underlying::Target(t) },
                    );
                    proof {
                        let a = target_additions(views(self.targets@.subrange(0, i as int)));
                        let b = target_additions(views(self.targets@.subrange(0, i + 1)));
                        assert(views(self.targets@.subrange(0, i + 1)) =~= views(
                            self.targets@.subrange(0, i as int),
                        ).push(self.targets@[i as int]@));
                        if errors@.len() == 0 {
                            assert(b =~= a.push(operation_views(targets@).last()));
                            assert(operation_views(targets@) =~= before.push(operation_views(targets@).last()));
                        }
                    }
                },
                Err(e) => {
                    errors.push(e);
                },
            }
            i = i + 1;
        }
        if errors.len() > 0 {
            return Err(errors);
        }
        let mut ops: Vec<Operation> = Vec::new();
        let mut k: usize = 0;
        while k < self.projects.len()
            invariant
                k <= self.projects@.len(),
                operation_views(ops@) == project_additions(views(self.projects@.subrange(0, k as int))),
            decreases self.projects@.len() - k,
        {
            let ghost before = operation_views(ops@);
            ops.push(
                Operation {
                    action: OperationAction::default_add(),
                    underlying: Underlying::Project(self.projects[k].clone()),
                },
            );
            proof {
                assert(views(self.projects@.subrange(0, k + 1)) =~= views(
                    self.projects@.subrange(0, k as int),
                ).push(self.projects@[k as int]@));
                assert(operation_views(ops@) =~= before.push(operation_views(ops@).last()));
                assert(project_additions(views(self.projects@.subrange(0, k + 1))) =~= project_additions(
                    views(self.projects@.subrange(0, k as int)),
                ).push(operation_views(ops@).last()));
            }
            k = k + 1;
        }
        let ghost pv = operation_views(ops@);
        let ghost tv = operation_views(targets@);
        ops.append(&mut targets);
        proof {
            assert(self.projects@.subrange(0, self.projects@.len() as int) =~= self.projects@);
            assert(self.targets@.subrange(0, self.targets@.len() as int) =~= self.targets@);
            assert(operation_views(ops@) =~= pv + tv);

        }
        Ok(ops)
    }
}

impl<'a> SelectionOperationProcessor<'a> {
    /// Rebuilds a stored selection into the current one: every project and
    /// target of it is added (projects missing from the index are skipped);
    /// fails, changing nothing, when some stored target does not parse.
    pub fn reify(&mut self, persisted_selection: PersistedSelection) -> (res: Result<(), Vec<TargetError>>)
        requires
            old(self).projects.wf(),
        ensures
            final(self).projects == old(self).projects,
            res is Ok <==> forall|i: int|
                0 <= i < persisted_selection.targets@.len() ==> parse_target(
                    #[trigger] persisted_selection.targets@[i]@,
                ) is Ok,
            res is Err ==> final(self).selection@ == old(self).selection@,
            res is Ok ==> final(self).selection@ == apply_operations(
                old(self).selection@,
                empty_result(),
                old(self).projects@.underlying,
                persisted_operations(
                    views(persisted_selection.projects@),
                    views(persisted_selection.targets@),
                ),
            ).0,
    {
        match persisted_selection.to_operations() {
            Ok(ops) => {
                self.process(&ops);
                Ok(())
            },
            Err(errors) => Err(errors),
        }
    }
}

/// Why the selection could not be loaded or changed.
#[derive(Debug, Clone, PartialEq, Eq)]
pub enum SelectionError {
    /// Some stored targets do not parse.
    UninterpretableTargets(Vec<TargetError>),
    /// Some operations named projects that are not defined.
    UpdateFailed,
}

/// The selection of a repository, with the optional projects it may name
/// and the mandatory projects that are always part of it.
pub struct Selections {
    selection_path: String,
    pub optional_projects: Projects,
    pub mandatory_projects: Projects,
    selection: Selection,
}

/// The selection together with every mandatory project.
pub open spec fn computed(sel: SelectionView, mandatory: Map<Seq<char>, ProjectView>) -> SelectionView {
    SelectionView {
        projects: sel.projects.union(mandatory.values()),
        targets: sel.targets,
    }
}

impl Selections {
    /// Both project indices are well formed.
    pub closed spec fn wf(&self) -> bool {
        self.optional_projects.wf() && self.mandatory_projects.wf()
    }

    pub closed spec fn selection_view(&self) -> SelectionView {
        self.selection@
    }

    pub closed spec fn optional_view(&self) -> ProjectsView {
        self.optional_projects@
    }

    pub closed spec fn mandatory_view(&self) -> ProjectsView {
        self.mandatory_projects@
    }

    pub closed spec fn path_view(&self) -> Seq<char> {
        self.selection_path@
    }

    /// Selections stored at `selection_path`, loaded from the stored
    /// `persisted` selection.
    pub fn new(
        selection_path: &str,
        optional_projects: Projects,
        mandatory_projects: Projects,
        persisted: PersistedSelection,
    ) -> (res: Result<Selections, SelectionError>)
        requires
            optional_projects.wf(),
            mandatory_projects.wf(),
        ensures
            res is Ok <==> forall|i: int|
                0 <= i < persisted.targets@.len() ==> parse_target(#[trigger] persisted.targets@[i]@) is Ok,
            res matches Ok(s) ==> s.wf() && s.path_view() == selection_path@ && s.optional_view()
                == optional_projects@ && s.mandatory_view() == mandatory_projects@
                && s.selection_view() == apply_operations(
                SelectionView { projects: Set::empty(), targets: Set::empty() },
                empty_result(),
                optional_projects@.underlying,
                persisted_operations(views(persisted.projects@), views(persisted.targets@)),
            ).0,
    {
        let mut instance = Selections {
            selection_path: String::from_str(selection_path),
            optional_projects,
            mandatory_projects,
            selection: Selection { projects: Vec::new(), targets: Vec::new() },
        };
        assert(instance.selection@.projects =~= Set::<ProjectView>::empty());
        assert(instance.selection@.targets =~= Set::<TargetView>::empty());
        match instance.reload(persisted) {
            Ok(()) => Ok(instance),
            Err(e) => Err(e),
        }
    }

    /// Replaces the selection by the one that `persisted` stores.
    pub fn reload(&mut self, persisted: PersistedSelection) -> (res: Result<(), SelectionError>)
        requires
            old(self).wf(),
        ensures
            final(self).wf(),
            final(self).path_view() == old(self).path_view(),
            final(self).optional_view() == old(self).optional_view(),
            final(self).mandatory_view() == old(self).mandatory_view(),
            res is Ok <==> forall|i: int|
                0 <= i < persisted.targets@.len() ==> parse_target(#[trigger] persisted.targets@[i]@) is Ok,
            res is Err ==> final(self).selection_view() == old(self).selection_view(),
            res is Ok ==> final(self).selection_view() == apply_operations(
                SelectionView { projects: Set::empty(), targets: Set::empty() },
                empty_result(),
                old(self).optional_view().underlying,
                persisted_operations(views(persisted.projects@), views(persisted.targets@)),
            ).0,
    {
        let mut processor = SelectionOperationProcessor {
            selection: Selection { projects: Vec::new(), targets: Vec::new() },
            projects: &self.optional_projects,
        };
        assert(processor.selection@.projects =~= Set::<ProjectView>::empty());
        assert(processor.selection@.targets =~= Set::<TargetView>::empty());
        match processor.reify(persisted) {
            Ok(()) => {
                self.selection = processor.selection;
                Ok(())
            },
            Err(errors) => Err(SelectionError::UninterpretableTargets(errors)),
        }
    }

    /// The stored form of the current selection, to be written to
    /// `selection_path`.
    pub fn save(&self) -> (res: PersistedSelection)
        ensures
            res@ == persist(self.selection_view()),
    {
        PersistedSelection::from_selection(&self.selection)
    }

    /// Where the selection is stored.
    pub fn selection_path(&self) -> (res: &String)
        ensures
            res@ == self.path_view(),
    {
        &self.selection_path
    }

    /// The user's selection.
    pub fn selection(&self) -> (res: &Selection)
        ensures
            res@ == self.selection_view(),
    {
        &self.selection
    }

    /// The selection together with every mandatory project.
    pub fn computed_selection(&self) -> (res: Selection)
        requires
            self.wf(),
        ensures
            res@ == computed(self.selection_view(), self.mandatory_view().underlying),
    {
        let mut selection = self.selection.duplicate();
        let mandatory = self.mandatory_projects.values();
        let ghost m = self.mandatory_projects@.underlying;
        let ghost start = selection@.projects;
        let mut i: usize = 0;
        while i < mandatory.len()
            invariant
                i <= mandatory@.len(),
                selection@.targets == self.selection_view().targets,
                selection@.projects == start.union(value_set(mandatory@.subrange(0, i as int))),
            decreases mandatory@.len() - i,
        {
            let ghost pre = value_set(mandatory@.subrange(0, i as int));
            insert_value(&mut selection.projects, mandatory[i].duplicate());
            proof {
                let a = mandatory@.subrange(0, i as int);
                let b = mandatory@.subrange(0, i + 1);
                assert(value_seq(b) =~= value_seq(a).push(mandatory@[i as int]@));
                assert(value_set(b) =~= pre.insert(mandatory@[i as int]@)) by {
                    assert forall|x| value_set(b).contains(x) implies pre.insert(mandatory@[i as int]@).contains(x) by {
                        let k = choose|k: int| 0 <= k < value_seq(b).len() && value_seq(b)[k] == x;
                        if k < i {
                            assert(value_seq(a)[k] == x);
                        }
                    }
                    assert forall|x| pre.insert(mandatory@[i as int]@).contains(x) implies value_set(b).contains(x) by {
                        if x == mandatory@[i as int]@ {
                            assert(value_seq(b)[i as int] == x);
                        } else {
                            let k = choose|k: int| 0 <= k < value_seq(a).len() && value_seq(a)[k] == x;
                            assert(value_seq(b)[k] == x);
                        }
                    }
                }
                assert(selection@.projects =~= start.union(value_set(b)));
            }
            i = i + 1;
        }
        proof {
            assert(mandatory@.subrange(0, mandatory@.len() as int) =~= mandatory@);
            assert(value_set(mandatory@) =~= m.values()) by {
                assert forall|p| value_set(mandatory@).contains(p) implies m.values().contains(p) by {
                    let n = choose|n: Seq<char>| m.contains_key(n) && m[n] == p;
                }
                assert forall|p| m.values().contains(p) implies value_set(mandatory@).contains(p) by {
                    let n = choose|n: Seq<char>| m.contains_key(n) && m[n] == p;
                }
            }
        }
        selection
    }

    /// Applies operations to the selection. The selection changes only
    /// when every operation succeeds (nothing named is absent); otherwise
    /// it stays as it was.
    pub fn process(&mut self, operations: &Vec<Operation>) -> (res: OperationResult)
        requires
            old(self).wf(),
        ensures
            final(self).wf(),
            final(self).path_view() == old(self).path_view(),
            final(self).optional_view() == old(self).optional_view(),
            final(self).mandatory_view() == old(self).mandatory_view(),
            res.wf(),
            res@ == apply_operations(
                old(self).selection_view(),
                empty_result(),
                old(self).optional_view().underlying,
                operation_views(operations@),
            ).1,
            res@.absent.is_empty() ==> final(self).selection_view() == apply_operations(
                old(self).selection_view(),
                empty_result(),
                old(self).optional_view().underlying,
                operation_views(operations@),
            ).0,
            !res@.absent.is_empty() ==> final(self).selection_view() == old(self).selection_view(),
    {
        let mut processor = SelectionOperationProcessor {
            selection: self.selection.duplicate(),
            projects: &self.optional_projects,
        };
        let result = processor.process(operations);
        if result.is_success() {
            self.selection = processor.selection;
        }
        result
    }

    /// Applies an action to each of `projects_and_targets` (each a target
    /// when it parses as one, otherwise a project name); fails, changing
    /// nothing, when a named project is not defined. Returns whether the
    /// selection changed.
    pub fn mutate(&mut self, action: OperationAction, projects_and_targets: &Vec<String>) -> (res: Result<
        bool,
        SelectionError,
    >)
        requires
            old(self).wf(),
        ensures
            final(self).wf(),
            final(self).optional_view() == old(self).optional_view(),
            final(self).mandatory_view() == old(self).mandatory_view(),
            ({
                let ops = views(projects_and_targets@).map_values(
                    |s: Seq<char>| OperationView { action, underlying: underlying_of(s) },
                );
                let (sel, r) = apply_operations(
                    old(self).selection_view(),
                    empty_result(),
                    old(self).optional_view().underlying,
                    ops,
                );
                &&& res is Ok <==> r.absent.is_empty()
                &&& res matches Ok(changed) ==> changed == (r.added.len() + r.removed.len() > 0)
                    && final(self).selection_view() == sel
                &&& res is Err ==> final(self).selection_view() == old(self).selection_view()
            }),
    {
        let mut operations: Vec<Operation> = Vec::new();
        let mut i: usize = 0;
        while i < projects_and_targets.len()
            invariant
                i <= projects_and_targets@.len(),
                operation_views(operations@) == views(projects_and_targets@.subrange(0, i as int)).map_values(
                    |s: Seq<char>| OperationView { action, underlying: underlying_of(s) },
                ),
            decreases projects_and_targets@.len() - i,
        {
            let ghost before = operation_views(operations@);
            let op = Operation::new(action, projects_and_targets[i].as_str());
            let ghost ov = op@;
            operations.push(op);
            proof {
                assert(operation_views(operations@) =~= before.push(ov));
                assert(views(projects_and_targets@.subrange(0, i + 1)) =~= views(
                    projects_and_targets@.subrange(0, i as int),
                ).push(projects_and_targets@[i as int]@));
            }
            assert(operation_views(operations@) =~= views(projects_and_targets@.subrange(0, i + 1)).map_values(
                |s: Seq<char>| OperationView { action, underlying: underlying_of(s) },
            ));
            i = i + 1;
        }
        assert(projects_and_targets@.subrange(0, projects_and_targets@.len() as int)
            =~= projects_and_targets@);
        let result = self.process(&operations);
        if !result.is_success() {
            return Err(SelectionError::UpdateFailed);
        }
        Ok(result.changed())
    }
}


/// The names of the selectable (not mandatory) projects of a selection.
pub open spec fn selectable_names(s: SelectionView) -> Set<Seq<char>> {
    s.projects.filter(|p: ProjectView| !p.mandatory).map(|p: ProjectView| p.name)
}

/// The projects whose cached patterns a sync can use: none when the
/// selection holds targets of its own (the project cache knows only
/// projects), else the names of its selectable projects.
pub fn project_cache_names(selection: &Selection) -> (res: Option<Vec<String>>)
    ensures
        selection.targets@.len() > 0 ==> res is None,
        selection.targets@.len() == 0 ==> (res matches Some(v) && views(v@).to_set()
            == selectable_names(selection@)),
{
    if selection.targets.len() > 0 {
        return None;
    }
    let ghost ps = selection.projects@;
    let mut names: Vec<String> = Vec::new();
    let mut i: usize = 0;
    while i < selection.projects.len()
        invariant
            i <= ps.len(),
            ps == selection.projects@,
            forall|n: Seq<char>| #[trigger] views(names@).contains(n) <==> exists|j: int|
                0 <= j < i && !ps[j].mandatory && ps[j].name@ == n,
        decreases ps.len() - i,
    {
        if !selection.projects[i].mandatory {
            let ghost prev = views(names@);
            names.push(selection.projects[i].name.clone());
            proof {
                assert(views(names@) =~= prev.push(ps[i as int].name@));
                assert forall|n: Seq<char>| #[trigger] views(names@).contains(n) <==> exists|j: int|
                    0 <= j < i + 1 && !ps[j].mandatory && ps[j].name@ == n by {
                    if views(names@).contains(n) && n != ps[i as int].name@ {
                        let k = choose|k: int| 0 <= k < views(names@).len() && views(names@)[k] == n;
                        assert(prev[k] == n);
                        assert(prev.contains(n));
                    }
                    if n == ps[i as int].name@ {
                        assert(views(names@)[prev.len() as int] == n);
                    }
                    if exists|j: int| 0 <= j < i && !ps[j].mandatory && ps[j].name@ == n {
                        assert(prev.contains(n));
                        let k = choose|k: int| 0 <= k < prev.len() && prev[k] == n;
                        assert(views(names@)[k] == n);
                    }
                }
            }
        }
        i = i + 1;
    }
    proof {
        let target = selectable_names(selection@);
        assert forall|n: Seq<char>| views(names@).to_set().contains(n) <==> target.contains(n) by {
            if views(names@).to_set().contains(n) {
                assert(views(names@).contains(n));
                let j = choose|j: int| 0 <= j < ps.len() && !ps[j].mandatory && ps[j].name@ == n;
                assert(value_seq(ps)[j] == ps[j]@);
                assert(value_set(ps).contains(ps[j]@));
                assert(selection@.projects.filter(|p: ProjectView| !p.mandatory).contains(ps[j]@));
            }
            if target.contains(n) {
                let p = choose|p: ProjectView| selection@.projects.filter(|p: ProjectView| !p.mandatory).contains(p) && p.name == n;
                assert(value_set(ps).contains(p));
                let j = choose|j: int| 0 <= j < value_seq(ps).len() && value_seq(ps)[j] == p;
                assert(ps[j]@ == p);
                assert(views(names@).contains(n));
            }
        }
        assert(views(names@).to_set() =~= target);
    }
    Some(names)
}

} // verus!
