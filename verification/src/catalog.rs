//! The catalog of the projects that a repository defines: an index of the
//! optional and of the mandatory projects, and the project sets (one per
//! file) that the optional ones are stored in.

use vstd::prelude::*;
use crate::keyed::KeyedMap;
use crate::selection::{
    DuplicateProject, Project, ProjectSet, ProjectView, ProjectsView, add_projects, add_sources,
    extends_cleanly, project_views, with_project,
};
use crate::valueset::SameValue;
use crate::path::{Order, compare_text, lemma_text_order, lemma_text_order_transitive, text_order};
use crate::text::{decimal_string, decimal_text, join_with};

verus! {

/// An index of projects by name, with the name of the project set that each
/// was defined in.
#[derive(Debug, Clone)]
pub struct ProjectIndex {
    /// Project names to projects.
    pub underlying: KeyedMap<Project>,
    /// Project names to the name of the set they were defined in.
    pub sources: KeyedMap<String>,
}

impl View for ProjectIndex {
    type V = ProjectsView;

    open spec fn view(&self) -> ProjectsView {
        ProjectsView { underlying: self.underlying@, sources: self.sources@ }
    }
}

/// Where adding the sets named `order`, in that order, to the index `start`
/// leads: `None` where a project name comes twice.
pub open spec fn index_sets(
    start: ProjectsView,
    order: Seq<Seq<char>>,
    sets: Map<Seq<char>, Seq<ProjectView>>,
) -> Option<ProjectsView>
    decreases order.len(),
{
    if order.len() == 0 {
        Some(start)
    } else {
        match index_sets(start, order.drop_last(), sets) {
            None => None,
            Some(v) => {
                let name = order.last();
                let ps = sets[name];
                if extends_cleanly(v.underlying, ps) {
                    Some(
                        ProjectsView {
                            underlying: add_projects(v.underlying, ps),
                            sources: add_sources(v.sources, ps, name),
                        },
                    )
                } else {
                    None
                }
            },
        }
    }
}

pub open spec fn empty_index() -> ProjectsView {
    ProjectsView { underlying: Map::empty(), sources: Map::empty() }
}

impl ProjectIndex {
    /// Both maps are well formed and name the same projects.
    pub open spec fn wf(&self) -> bool {
        &&& self.underlying.wf()
        &&& self.sources.wf()
        &&& self.underlying@.dom() == self.sources@.dom()
    }

    /// An empty index.
    pub fn new() -> (res: ProjectIndex)
        ensures
            res.wf(),
            res@ == empty_index(),
    {
        let res = ProjectIndex { underlying: KeyedMap::new(), sources: KeyedMap::new() };
        assert(res@.underlying.dom() =~= res@.sources.dom());
        res
    }

    /// Adds the projects of `project_set`, in order, recording
    /// `project_set_name` as where each was defined. At the first project
    /// whose name is already present, that project replaces the one there
    /// and the call stops with an error naming both sets.
    #[verifier::loop_isolation(false)]
    pub fn extend(&mut self, project_set_name: &str, project_set: &ProjectSet) -> (res: Result<
        (),
        DuplicateProject,
    >)
        requires
            old(self).wf(),
        ensures
            final(self).wf(),
            res is Ok <==> extends_cleanly(old(self)@.underlying, project_set@),
            res is Ok ==> final(self)@.underlying == add_projects(
                old(self)@.underlying,
                project_set@,
            ),
            res is Ok ==> final(self)@.sources == add_sources(
                old(self)@.sources,
                project_set@,
                project_set_name@,
            ),
            res matches Err(d) ==> exists|i: int|
                0 <= i < project_set@.len() && extends_cleanly(
                    old(self)@.underlying,
                    #[trigger] project_set@.subrange(0, i),
                ) && add_projects(old(self)@.underlying, project_set@.subrange(0, i)).contains_key(
                    project_set@[i].name,
                ) && d.name@ == project_set@[i].name && d.project_set_name@ == project_set_name@
                    && d.previously_defined_in@ == add_sources(
                    old(self)@.sources,
                    project_set@.subrange(0, i),
                    project_set_name@,
                )[project_set@[i].name],
    {
        let ghost all = project_set@;
        let ghost start = self@;
        let mut i: usize = 0;
        assert(all.subrange(0, 0) =~= Seq::<ProjectView>::empty());
        while i < project_set.projects.len()
            invariant
                self.wf(),
                i <= all.len(),
                extends_cleanly(start.underlying, all.subrange(0, i as int)),
                self@.underlying == add_projects(start.underlying, all.subrange(0, i as int)),
                self@.sources == add_sources(
                    start.sources,
                    all.subrange(0, i as int),
                    project_set_name@,
                ),
            decreases all.len() - i,
        {
            let p = project_set.projects[i].duplicate();
            let ghost pv = p@;
            assert(pv == all[i as int]);
            let ghost pre = all.subrange(0, i as int);
            let ghost next = all.subrange(0, i + 1);
            assert(next.drop_last() =~= pre);
            assert(next.last() == pv);
            let name = p.name.clone();
            let previous = self.underlying.insert(name.clone(), p);
            match previous {
                Some(_) => {
                    let source = self.sources.get(name.as_str());
                    match source {
                        Some(src) => {
                            let err = DuplicateProject {
                                name,
                                project_set_name: String::from_str(project_set_name),
                                previously_defined_in: src.clone(),
                            };
                            proof {
                                assert(!extends_cleanly(start.underlying, all)) by {
                                    assert(!extends_cleanly(start.underlying, all.subrange(0, i + 1)))
                                        by {
                                        if extends_cleanly(start.underlying, next) {
                                            crate::selection::lemma_add_projects_dom(
                                                start.underlying,
                                                pre,
                                            );
                                            if start.underlying.contains_key(pv.name) {
                                                assert(next[i as int] == pv);
                                            } else {
                                                let k = choose|k: int|
                                                    0 <= k < pre.len() && pre[k].name == pv.name;
                                                assert(next[k] == pre[k]);
                                                assert(next[i as int] == pv);
                                            }
                                        }
                                    }
                                    if extends_cleanly(start.underlying, all) {
                                        assert forall|a: int| 0 <= a < next.len() implies !start.underlying.contains_key(
                                            #[trigger] next[a].name,
                                        ) by {
                                            assert(next[a] == all[a]);
                                        }
                                        assert forall|a: int, b: int| 0 <= a < b < next.len() implies next[a].name
                                            != next[b].name by {
                                            assert(next[a] == all[a]);
                                            assert(next[b] == all[b]);
                                        }
                                    }
                                }
                            }
                            assert(self@.underlying.dom() =~= self@.sources.dom());
                            return Err(err);
                        },
                        None => {
                            assert(false);
                            return Ok(());
                        },
                    }
                },
                None => {
                    self.sources.insert(name, String::from_str(project_set_name));
                    proof {
                        assert(self@.underlying.dom() =~= self@.sources.dom());
                        crate::selection::lemma_add_projects_dom(start.underlying, pre);
                        assert forall|a: int| 0 <= a < next.len() implies !start.underlying.contains_key(
                            #[trigger] next[a].name,
                        ) by {
                            if a < i {
                                assert(next[a] == pre[a]);
                            } else {
                                assert(next[a] == pv);
                            }
                        }
                        assert forall|a: int, b: int| 0 <= a < b < next.len() implies next[a].name
                            != next[b].name by {
                            if b < i {
                                assert(next[a] == pre[a]);
                                assert(next[b] == pre[b]);
                            } else {
                                assert(next[a] == pre[a]);
                                assert(next[b] == pv);
                                assert(add_projects(start.underlying, pre).contains_key(pre[a].name));
                            }
                        }
                    }
                },
            }
            i = i + 1;
        }
        assert(all.subrange(0, i as int) =~= all);
        Ok(())
    }

    /// Indexes the sets of `store`, in the order in which they were stored.
    pub fn from_store(store: &ProjectSetStore) -> (res: Result<ProjectIndex, DuplicateProject>)
        requires
            store.wf(),
        ensures
            res is Ok <==> index_sets(empty_index(), store.order(), store@) is Some,
            res matches Ok(index) ==> index.wf() && Some(index@) == index_sets(
                empty_index(),
                store.order(),
                store@,
            ),
    {
        let names = store.sets.keys();
        let ghost order = store.order();
        let mut index = ProjectIndex::new();
        let mut k: usize = 0;
        assert(order.subrange(0, 0) =~= Seq::<Seq<char>>::empty());
        while k < names.len()
            invariant
                store.wf(),
                crate::text::views(names@) == order,
                order == store.order(),
                k <= order.len(),
                index.wf(),
                index_sets(empty_index(), order.subrange(0, k as int), store@) == Some(index@),
            decreases order.len() - k,
        {
            proof {
                store.sets.lemma_key_order();
                assert(names@[k as int]@ == order[k as int]);
                assert(order.subrange(0, k + 1).drop_last() =~= order.subrange(0, k as int));
            }
            match store.sets.get(names[k].as_str()) {
                Some(set) => {
                    match index.extend(names[k].as_str(), set) {
                        Ok(()) => {},
                        Err(e) => {
                            assert(index_sets(empty_index(), order.subrange(0, k + 1), store@) is None);
                            proof {
                                lemma_index_sets_stuck(order, store@, k as int + 1);
                            }
                            assert(order.subrange(0, order.len() as int) =~= order);
                            return Err(e);
                        },
                    }
                },
                None => {
                    assert(false);
                },
            }
            k = k + 1;
        }
        assert(order.subrange(0, k as int) =~= order);
        Ok(index)
    }
}

proof fn lemma_index_sets_stuck(order: Seq<Seq<char>>, sets: Map<Seq<char>, Seq<ProjectView>>, n: int)
    requires
        0 <= n <= order.len(),
        index_sets(empty_index(), order.subrange(0, n), sets) is None,
    ensures
        index_sets(empty_index(), order, sets) is None,
    decreases order.len() - n,
{
    if n < order.len() {
        assert(order.subrange(0, n + 1).drop_last() =~= order.subrange(0, n));
        lemma_index_sets_stuck(order, sets, n + 1);
    } else {
        assert(order.subrange(0, n) =~= order);
    }
}

/// The project sets of a directory, by name.
#[derive(Debug, Clone)]
pub struct ProjectSetStore {
    sets: KeyedMap<ProjectSet>,
}

impl View for ProjectSetStore {
    type V = Map<Seq<char>, Seq<ProjectView>>;

    closed spec fn view(&self) -> Map<Seq<char>, Seq<ProjectView>> {
        self.sets@
    }
}

impl ProjectSetStore {
    pub closed spec fn wf(&self) -> bool {
        self.sets.wf()
    }

    /// The names of the sets, in the order in which they were stored.
    pub closed spec fn order(&self) -> Seq<Seq<char>> {
        self.sets.key_order()
    }

    /// An empty store.
    pub fn new() -> (res: ProjectSetStore)
        ensures
            res.wf(),
            res@ == Map::<Seq<char>, Seq<ProjectView>>::empty(),
            res.order() == Seq::<Seq<char>>::empty(),
    {
        ProjectSetStore { sets: KeyedMap::new() }
    }

    /// Stores `project_set` under `name`.
    pub fn insert(&mut self, name: String, project_set: ProjectSet)
        requires
            old(self).wf(),
        ensures
            final(self).wf(),
            final(self)@ == old(self)@.insert(name@, project_set@),
    {
        self.sets.insert(name, project_set);
    }

    /// The set stored under `name`.
    pub fn get(&self, name: &str) -> (res: Option<&ProjectSet>)
        requires
            self.wf(),
        ensures
            match res {
                Some(s) => self@.contains_key(name@) && self@[name@] == s@,
                None => !self@.contains_key(name@),
            },
    {
        self.sets.get(name)
    }

    /// The names of the sets, in the order in which they were stored.
    pub fn names(&self) -> (res: Vec<String>)
        requires
            self.wf(),
        ensures
            crate::text::views(res@) == self.order(),
    {
        self.sets.keys()
    }
}

/// Why a project could not be set in the catalog. The names of the two
/// variants are the other way round from the cases they are given in:
/// `ProjectNotFound` comes for a known project asked to move, and
/// `ProjectExistsElsewhere` for an unknown project with no file.
#[derive(Debug, Clone, Copy, PartialEq, Eq, Structural)]
pub enum ProjectCatalogError {
    /// The project is known and a different file was asked for.
    ProjectNotFound,
    /// The project is not known and no file was given.
    ProjectExistsElsewhere,
}

/// The file that a project is to be saved to, given the file it was found
/// in and the file asked for.
pub open spec fn save_target(found: Option<Seq<char>>, requested: Option<Seq<char>>) -> Result<
    Seq<char>,
    ProjectCatalogError,
> {
    match (found, requested) {
        (None, None) => Err(ProjectCatalogError::ProjectExistsElsewhere),
        (Some(f), Some(g)) => if f == g {
            Ok(f)
        } else {
            Err(ProjectCatalogError::ProjectNotFound)
        },
        (None, Some(g)) => Ok(g),
        (Some(f), None) => Ok(f),
    }
}

/// The set stored under `file` with `p` set in it under `name`; a new set
/// holding `p` alone where there is none.
pub open spec fn stored_with(
    sets: Map<Seq<char>, Seq<ProjectView>>,
    file: Seq<char>,
    name: Seq<char>,
    p: ProjectView,
) -> Map<Seq<char>, Seq<ProjectView>> {
    if sets.contains_key(file) {
        sets.insert(file, with_project(sets[file], name, p))
    } else {
        sets.insert(file, seq![p])
    }
}

/// The optional and mandatory projects of a repository.
#[derive(Debug)]
pub struct ProjectCatalog {
    pub optional_projects: ProjectIndex,
    pub mandatory_projects: ProjectIndex,
    optional_project_set_store: ProjectSetStore,
}

impl ProjectCatalog {
    pub closed spec fn wf(&self) -> bool {
        &&& self.optional_projects.wf()
        &&& self.mandatory_projects.wf()
        &&& self.optional_project_set_store.wf()
    }

    /// The index of the optional projects.
    pub closed spec fn optional(&self) -> ProjectsView {
        self.optional_projects@
    }

    /// The index of the mandatory projects.
    pub closed spec fn mandatory(&self) -> ProjectsView {
        self.mandatory_projects@
    }

    /// The sets the optional projects are stored in.
    pub closed spec fn store(&self) -> ProjectSetStore {
        self.optional_project_set_store
    }

    /// Indexes the optional and the mandatory project sets.
    pub fn new(optional: ProjectSetStore, mandatory: &ProjectSetStore) -> (res: Result<
        ProjectCatalog,
        DuplicateProject,
    >)
        requires
            optional.wf(),
            mandatory.wf(),
        ensures
            res is Ok <==> (index_sets(empty_index(), optional.order(), optional@) is Some
                && index_sets(empty_index(), mandatory.order(), mandatory@) is Some),
            res matches Ok(c) ==> c.wf() && Some(c.optional()) == index_sets(
                empty_index(),
                optional.order(),
                optional@,
            ) && Some(c.mandatory()) == index_sets(
                empty_index(),
                mandatory.order(),
                mandatory@,
            ) && c.store()@ == optional@,
    {
        let optional_projects = match ProjectIndex::from_store(&optional) {
            Ok(i) => i,
            Err(e) => return Err(e),
        };
        let mandatory_projects = match ProjectIndex::from_store(mandatory) {
            Ok(i) => i,
            Err(e) => return Err(e),
        };
        Ok(ProjectCatalog { optional_projects, mandatory_projects, optional_project_set_store: optional })
    }

    /// The project sets of the optional projects.
    pub fn optional_project_sets(&self) -> (res: &ProjectSetStore)
        ensures
            res == self.store(),
    {
        &self.optional_project_set_store
    }

    /// Sets the optional project `project_name` to `project`, in the file it
    /// was found in or in `maybe_project_file`. A known project cannot move
    /// to another file (the error is then `ProjectNotFound`), and an unknown
    /// one needs a file (the error is then `ProjectExistsElsewhere`): the
    /// errors are named the other way round from their cases.
    pub fn set_project(
        &mut self,
        project_name: String,
        project: Project,
        maybe_project_file: Option<String>,
    ) -> (res: Result<(), ProjectCatalogError>)
        requires
            old(self).wf(),
        ensures
            final(self).wf(),
            final(self).mandatory() == old(self).mandatory(),
            match save_target(
                old(self).optional().sources.get(project_name@),
                crate::text::optional_view(maybe_project_file),
            ) {
                Err(e) => res == Err::<(), ProjectCatalogError>(e) && final(self)@ == old(self)@,
                Ok(file) => {
                    &&& res is Ok
                    &&& final(self).optional().underlying == old(
                        self,
                    ).optional().underlying.insert(project_name@, project@)
                    &&& final(self).optional().sources == old(self).optional().sources.insert(
                        project_name@,
                        file,
                    )
                    &&& final(self).store()@ == stored_with(
                        old(self).store()@,
                        file,
                        project_name@,
                        project@,
                    )
                },
            },
    {
        let found: Option<String> = match self.optional_projects.sources.get(project_name.as_str()) {
            Some(s) => Some(s.clone()),
            None => None,
        };
        let file: String = match (found, maybe_project_file) {
            (None, None) => {
                return Err(ProjectCatalogError::ProjectExistsElsewhere);
            },
            (Some(f), Some(g)) => {
                if crate::text::str_equal(f.as_str(), g.as_str()) {
                    g
                } else {
                    return Err(ProjectCatalogError::ProjectNotFound);
                }
            },
            (None, Some(g)) => g,
            (Some(f), None) => f,
        };
        let ghost pv = project@;
        self.optional_projects.sources.insert(project_name.clone(), file.clone());
        self.optional_projects.underlying.insert(project_name.clone(), project.duplicate());
        assert(self.optional_projects.underlying@.dom() =~= self.optional_projects.sources@.dom());
        match self.optional_project_set_store.sets.take(file.as_str()) {
            Some(set) => {
                let mut set = set;
                set.set_project(project_name, project);
                self.optional_project_set_store.sets.insert(file, set);
            },
            None => {
                let set = ProjectSet { projects: vec![project] };
                assert(set@ =~= seq![pv]);
                self.optional_project_set_store.sets.insert(file, set);
            },
        }
        proof {
            assert(self.store()@ =~= stored_with(old(self).store()@, file@, project_name@, pv));
        }
        Ok(())
    }
}

impl View for ProjectCatalog {
    type V = (ProjectsView, ProjectsView, Map<Seq<char>, Seq<ProjectView>>);

    closed spec fn view(&self) -> (ProjectsView, ProjectsView, Map<Seq<char>, Seq<ProjectView>>) {
        (self.optional_projects@, self.mandatory_projects@, self.optional_project_set_store@)
    }
}


/// The number of bytes of the UTF-8 encoding of a text.
pub open spec fn byte_len(s: Seq<char>) -> nat {
    vstd::utf8::encode_utf8(s).len()
}

/// `n` spaces.
pub open spec fn spaces(n: int) -> Seq<char> {
    Seq::new(if n > 0 { n as nat } else { 0 }, |i: int| ' ')
}

/// A count with its noun, singular for one.
pub open spec fn counted(n: nat, one: Seq<char>, many: Seq<char>) -> Seq<char> {
    decimal_text(n) + " "@ + if n == 1 {
        one
    } else {
        many
    }
}

/// What a project of the index holds: its targets and its projects, each
/// where it has any.
pub open spec fn project_stats(p: ProjectView) -> Seq<Seq<char>> {
    (if p.targets.len() > 0 {
        seq![counted(p.targets.len(), "target"@, "targets"@)]
    } else {
        Seq::empty()
    }) + if p.projects.len() > 0 {
        seq![counted(p.projects.len(), "project"@, "projects"@)]
    } else {
        Seq::empty()
    }
}

/// The line of a project in the listing of an index whose names are padded
/// to `width` bytes.
pub open spec fn index_line(p: ProjectView, width: int) -> Seq<char> {
    p.name + spaces(width - byte_len(p.name)) + "   "@ + p.description + (if project_stats(p).len() == 0 {
        Seq::empty()
    } else {
        " ("@ + join_with(project_stats(p), ", "@) + ")"@
    }) + "\n"@
}

/// The lines of the projects, in order.
pub open spec fn index_lines(ps: Seq<ProjectView>, width: int) -> Seq<char>
    decreases ps.len(),
{
    if ps.len() == 0 {
        Seq::empty()
    } else {
        index_lines(ps.drop_last(), width) + index_line(ps.last(), width)
    }
}

/// The widest name, in bytes.
pub open spec fn widest_name(ps: Seq<ProjectView>) -> nat
    decreases ps.len(),
{
    if ps.len() == 0 {
        0
    } else {
        let w = widest_name(ps.drop_last());
        if byte_len(ps.last().name) > w {
            byte_len(ps.last().name)
        } else {
            w
        }
    }
}

/// Ordered by name.
pub open spec fn sorted_by_name(ps: Seq<ProjectView>) -> bool {
    forall|i: int, j: int| 0 <= i < j < ps.len() ==> text_order(ps[j].name, ps[i].name) != Order::Less
}

/// The projects of an index, in the order of their names.
pub open spec fn index_projects(idx: ProjectsView, keys: Seq<Seq<char>>) -> Seq<ProjectView> {
    keys.map_values(|k: Seq<char>| idx.underlying[k])
}

pub open spec fn project_view_refs(v: Seq<&Project>) -> Seq<ProjectView> {
    v.map_values(|p: &Project| p@)
}

proof fn lemma_greater_chain(a: Seq<char>, b: Seq<char>, c: Seq<char>)
    requires
        text_order(a, b) == Order::Greater,
        text_order(c, a) != Order::Less,
    ensures
        text_order(c, b) == Order::Greater,
{
    lemma_text_order(a, b);
    lemma_text_order(c, a);
    lemma_text_order(c, b);
    if c != a {
        lemma_text_order_transitive(b, a, c);
    }
}

/// The projects sorted by name, ties in no stated order.
pub(crate) fn sort_by_name(v: Vec<&Project>) -> (res: Vec<&Project>)
    ensures
        project_view_refs(res@).to_multiset() == project_view_refs(v@).to_multiset(),
        sorted_by_name(project_view_refs(res@)),
{
    let mut sorted: Vec<&Project> = Vec::new();
    let mut i: usize = 0;
    proof {
        assert(project_view_refs(sorted@) =~= Seq::<ProjectView>::empty());
        assert(project_view_refs(v@).subrange(0, 0) =~= Seq::<ProjectView>::empty());
    }
    while i < v.len()
        invariant
            i <= v@.len(),
            project_view_refs(sorted@).to_multiset() == project_view_refs(v@).subrange(0, i as int).to_multiset(),
            sorted_by_name(project_view_refs(sorted@)),
        decreases v@.len() - i,
    {
        let p = v[i];
        let ghost s = project_view_refs(sorted@);
        let mut pos: usize = 0;
        let mut searching = true;
        while searching && pos < sorted.len()
            invariant
                pos <= sorted@.len(),
                s == project_view_refs(sorted@),
                sorted_by_name(s),
                forall|j: int| 0 <= j < pos ==> text_order(#[trigger] s[j].name, p@.name) != Order::Greater,
                !searching ==> pos < s.len() && text_order(s[pos as int].name, p@.name) == Order::Greater,
            decreases sorted@.len() - pos + (if searching { 1int } else { 0int }),
        {
            match compare_text(sorted[pos].name.as_str(), p.name.as_str()) {
                Order::Greater => {
                    searching = false;
                },
                _ => {
                    pos = pos + 1;
                },
            }
        }
        proof {
            assert forall|j: int| pos <= j < s.len() implies text_order(#[trigger] s[j].name, p@.name)
                == Order::Greater by {
                assert(!searching);
                if j > pos {
                    lemma_greater_chain(s[pos as int].name, p@.name, s[j].name);
                }
            }
        }
        sorted.insert(pos, p);
        proof {
            let t = project_view_refs(sorted@);
            assert(t =~= s.insert(pos as int, p@));
            vstd::seq_lib::to_multiset_insert(s, pos as int, p@);
            let before = project_view_refs(v@).subrange(0, i as int);
            assert(project_view_refs(v@).subrange(0, i + 1) =~= before.push(p@));
            vstd::seq_lib::to_multiset_build(before, p@);
            assert forall|a: int, b: int| 0 <= a < b < t.len() implies text_order(t[b].name, t[a].name)
                != Order::Less by {
                if a < pos && b < pos {
                } else if a < pos && b == pos {
                    lemma_text_order(p@.name, s[a].name);
                } else if a < pos {
                    assert(t[b] == s[b - 1]);
                } else if a == pos {
                    assert(t[b] == s[b - 1]);
                    lemma_text_order(s[b - 1].name, p@.name);
                } else {
                    assert(t[a] == s[a - 1] && t[b] == s[b - 1]);
                }
            }
        }
        i = i + 1;
    }
    proof {
        assert(project_view_refs(v@).subrange(0, i as int) =~= project_view_refs(v@));
    }
    sorted
}

fn stats_text(p: &Project) -> (res: Vec<String>)
    ensures
        crate::text::views(res@) == project_stats(p@),
{
    let mut stats: Vec<String> = Vec::new();
    let t = p.targets.len();
    proof {
        reveal_strlit("target");
        reveal_strlit("targets");
        reveal_strlit("project");
        reveal_strlit("projects");
        reveal_strlit(" ");
    }
    if t > 0 {
        let noun = if t == 1 { "target" } else { "targets" };
        stats.push(decimal_string(t).concat(" ").concat(noun));
    }
    let n = p.projects.len();
    if n > 0 {
        let noun = if n == 1 { "project" } else { "projects" };
        stats.push(decimal_string(n).concat(" ").concat(noun));
    }
    proof {
        assert(crate::text::views(stats@) =~= project_stats(p@));
    }
    stats
}

fn line_of(p: &Project, width: usize) -> (res: String)
    requires
        width >= byte_len(p@.name),
    ensures
        res@ == index_line(p@, width as int),
{
    let mut padded = p.name.clone();
    let pad = width - p.name.as_str().len();
    let mut k: usize = 0;
    proof {
        assert(spaces(0) =~= Seq::<char>::empty());
        assert(padded@ =~= p@.name + spaces(0));
    }
    while k < pad
        invariant
            k <= pad,
            padded@ == p@.name + spaces(k as int),
        decreases pad - k,
    {
        padded = padded.concat(" ");
        proof {
            reveal_strlit(" ");
            assert(spaces(k + 1) =~= spaces(k as int).push(' '));
            assert(padded@ =~= p@.name + spaces(k + 1));
        }
        k = k + 1;
    }
    let stats = stats_text(p);
    let tail = if stats.len() == 0 {
        String::new()
    } else {
        String::from_str(" (").concat(crate::text::join_strings(&stats, ", ").as_str()).concat(")")
    };
    proof {
        reveal_strlit("   ");
        reveal_strlit(" (");
        reveal_strlit(")");
        reveal_strlit("\n");
    }
    padded.concat("   ").concat(p.description.as_str()).concat(tail.as_str()).concat("\n")
}

impl ProjectIndex {
    /// The listing of the index: a line for each project, in the order of
    /// their names, with the name padded to the widest, the description and
    /// how many targets and projects it holds.
    pub fn to_string(&self) -> (res: String)
        requires
            self.underlying.wf(),
        ensures
            exists|order: Seq<ProjectView>|
                #![trigger index_lines(order, widest_name(order) as int)]
                order.to_multiset() == index_projects(self@, self.underlying.key_order()).to_multiset()
                    && sorted_by_name(order) && res@ == index_lines(order, widest_name(order) as int),
    {
        let keys = self.underlying.keys();
        let ghost ko = self.underlying.key_order();
        proof {
            self.underlying.lemma_key_order();
        }
        let mut values: Vec<&Project> = Vec::new();
        let mut i: usize = 0;
        while i < keys.len()
            invariant
                i <= keys@.len(),
                crate::text::views(keys@) == ko,
                ko == self.underlying.key_order(),
                self.underlying.wf(),
                ko.to_set() == self.underlying@.dom(),
                project_view_refs(values@) == index_projects(self@, ko.subrange(0, i as int)),
            decreases keys@.len() - i,
        {
            proof {
                assert(ko[i as int] == keys@[i as int]@);
                assert(ko.contains(ko[i as int]));
            }
            match self.underlying.get(keys[i].as_str()) {
                Some(p) => {
                    let ghost prev = project_view_refs(values@);
                    values.push(p);
                    proof {
                        assert(project_view_refs(values@) =~= prev.push(p@));
                        assert(index_projects(self@, ko.subrange(0, i + 1)) =~= index_projects(
                            self@,
                            ko.subrange(0, i as int),
                        ).push(self@.underlying[ko[i as int]]));
                    }
                },
                None => {
                    proof {
                        assert(ko.to_set().contains(ko[i as int]));
                        assert(false);
                    }
                },
            }
            i = i + 1;
        }
        proof {
            assert(ko.subrange(0, i as int) =~= ko);
        }
        let sorted = sort_by_name(values);
        let ghost order = project_view_refs(sorted@);
        let mut width: usize = 0;
        let mut j: usize = 0;
        assert(order.subrange(0, 0) =~= Seq::<ProjectView>::empty());
        while j < sorted.len()
            invariant
                j <= sorted@.len(),
                order == project_view_refs(sorted@),
                width == widest_name(order.subrange(0, j as int)),
            decreases sorted@.len() - j,
        {
            let n = sorted[j].name.as_str().as_bytes().len();
            proof {
                assert(n == byte_len(order[j as int].name));
                assert(order.subrange(0, j + 1).drop_last() =~= order.subrange(0, j as int));
                assert(order.subrange(0, j + 1).last() == sorted@[j as int]@);
            }
            if n > width {
                width = n;
            }
            j = j + 1;
        }
        proof {
            assert(order.subrange(0, j as int) =~= order);
        }
        let mut text = String::new();
        let mut k: usize = 0;
        proof {
            assert(text@ =~= index_lines(order.subrange(0, 0), width as int));
        }
        while k < sorted.len()
            invariant
                k <= sorted@.len(),
                order == project_view_refs(sorted@),
                width == widest_name(order),
                text@ == index_lines(order.subrange(0, k as int), width as int),
            decreases sorted@.len() - k,
        {
            proof {
                lemma_widest_name(order, k as int);
                assert(order[k as int] == sorted@[k as int]@);
            }
            let line = line_of(sorted[k], width);
            proof {
                assert(order.subrange(0, k + 1).drop_last() =~= order.subrange(0, k as int));
            }
            text = text.concat(line.as_str());
            k = k + 1;
        }
        proof {
            assert(order.subrange(0, k as int) =~= order);
        }
        text
    }
}

proof fn lemma_widest_name(ps: Seq<ProjectView>, k: int)
    requires
        0 <= k < ps.len(),
    ensures
        byte_len(ps[k].name) <= widest_name(ps),
    decreases ps.len(),
{
    if k < ps.len() - 1 {
        lemma_widest_name(ps.drop_last(), k);
    }
}

} // verus!
