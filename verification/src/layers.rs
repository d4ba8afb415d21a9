//! Project sets of the layered model: named lists of targets kept in files,
//! a stack of the names the user selected, and the ad-hoc target stack.

use vstd::prelude::*;
use crate::keyed::KeyedMap;
use crate::text::{decimal_string, decimal_text, str_equal, views};

verus! {

/// A named list of targets.
#[derive(Debug, Clone, PartialEq, PartialOrd)]
pub struct Project {
    name: String,
    description: String,
    mandatory: bool,
    targets: Vec<String>,
}

/// The mathematical value of a `Project`.
pub struct LayerView {
    pub name: Seq<char>,
    pub description: Seq<char>,
    pub mandatory: bool,
    pub targets: Seq<Seq<char>>,
}

impl View for Project {
    type V = LayerView;

    closed spec fn view(&self) -> LayerView {
        LayerView {
            name: self.name@,
            description: self.description@,
            mandatory: self.mandatory,
            targets: views(self.targets@),
        }
    }
}

impl Project {
    /// A project of the given name, description, kind and targets.
    pub fn new(name: &str, description: &str, mandatory: bool, targets: Vec<String>) -> (res: Project)
        ensures
            res@ == (LayerView {
                name: name@,
                description: description@,
                mandatory,
                targets: views(targets@),
            }),
    {
        Project {
            name: String::from_str(name),
            description: String::from_str(description),
            mandatory,
            targets,
        }
    }

    /// The name of the project.
    pub fn name(&self) -> (res: &str)
        ensures
            res@ == self@.name,
    {
        self.name.as_str()
    }

    /// The description of the project.
    pub fn description(&self) -> (res: &str)
        ensures
            res@ == self@.description,
    {
        self.description.as_str()
    }

    /// The targets of the project.
    pub fn targets(&self) -> (res: &[String])
        ensures
            views(res@) == self@.targets,
    {
        self.targets.as_slice()
    }

    /// Whether the project is mandatory.
    pub fn is_mandatory(&self) -> (res: bool)
        ensures
            res == self@.mandatory,
    {
        self.mandatory
    }

    /// A copy of the project.
    pub fn duplicate(&self) -> (res: Project)
        ensures
            res@ == self@,
    {
        Project {
            name: self.name.clone(),
            description: self.description.clone(),
            mandatory: self.mandatory,
            targets: crate::text::copy_strings(&self.targets),
        }
    }
}

pub open spec fn layer_views(v: Seq<Project>) -> Seq<LayerView> {
    v.map_values(|p: Project| p@)
}

/// Why a project could not be removed from a set.
#[derive(Debug, Clone, Copy, PartialEq, Eq, Structural)]
pub enum RemovalError {
    NotFound,
    Mandatory,
}

impl RemovalError {
    /// The message of the error.
    pub fn to_string(&self) -> (res: String)
        ensures
            res@ == match self {
                RemovalError::NotFound => "not found"@,
                RemovalError::Mandatory => "unable to remove mandatory project"@,
            },
    {
        match self {
            RemovalError::NotFound => String::from_str("not found"),
            RemovalError::Mandatory => String::from_str("unable to remove mandatory project"),
        }
    }
}

/// A project that was asked for could not be found.
#[derive(Debug, Clone, Copy, PartialEq, Eq, Structural)]
pub enum LoadError {
    NotFound,
}

impl LoadError {
    /// The message of the error.
    pub fn to_string(&self) -> (res: String)
        ensures
            res@ == "not found"@,
    {
        String::from_str("not found")
    }
}

/// Why a project set is not valid.
#[derive(Debug, Clone, PartialEq, Eq)]
pub enum ValidationError {
    /// The name of a project holds a colon.
    ColonInName(String),
    /// The project at `index` has the name of the one at `existing_index`.
    DuplicateName { name: String, index: usize, existing_index: usize },
}

pub enum ValidationErrorView {
    ColonInName(Seq<char>),
    DuplicateName { name: Seq<char>, index: int, existing_index: int },
}

impl View for ValidationError {
    type V = ValidationErrorView;

    open spec fn view(&self) -> ValidationErrorView {
        match self {
            ValidationError::ColonInName(n) => ValidationErrorView::ColonInName(n@),
            ValidationError::DuplicateName { name, index, existing_index } =>
                ValidationErrorView::DuplicateName {
                name: name@,
                index: *index as int,
                existing_index: *existing_index as int,
            },
        }
    }
}

/// The message of a validation error.
pub open spec fn validation_message(e: ValidationErrorView) -> Seq<char> {
    match e {
        ValidationErrorView::ColonInName(n) => "Project name '"@ + n
            + "' contains a colon (:); colons are not allowed in project names"@,
        ValidationErrorView::DuplicateName { name, index, existing_index } => "Project named '"@
            + name + "' at index "@ + decimal_text(index as nat)
            + " has the same name as existing project at index "@ + decimal_text(
            existing_index as nat,
        ),
    }
}

impl ValidationError {
    /// The message of the error.
    pub fn to_string(&self) -> (res: String)
        ensures
            res@ == validation_message(self@),
    {
        match self {
            ValidationError::ColonInName(n) => {
                let a = String::from_str("Project name '");
                let b = a.concat(n.as_str());
                b.concat("' contains a colon (:); colons are not allowed in project names")
            },
            ValidationError::DuplicateName { name, index, existing_index } => {
                let a = String::from_str("Project named '");
                let b = a.concat(name.as_str());
                let c = b.concat("' at index ");
                let i = decimal_string(*index);
                let d = c.concat(i.as_str());
                let e = d.concat(" has the same name as existing project at index ");
                let j = decimal_string(*existing_index);
                e.concat(j.as_str())
            },
        }
    }
}

/// The first problem of `ps` from position `i` on: a name with a colon,
/// or a name that an earlier project has.
pub open spec fn validation_from(ps: Seq<LayerView>, i: int) -> Option<ValidationErrorView>
    decreases ps.len() - i,
{
    if i < 0 || i >= ps.len() {
        None
    } else if ps[i].name.contains(':') {
        Some(ValidationErrorView::ColonInName(ps[i].name))
    } else if exists|j: int| 0 <= j < i && ps[j].name == ps[i].name {
        Some(
            ValidationErrorView::DuplicateName {
                name: ps[i].name,
                index: i,
                existing_index: choose|j: int| 0 <= j < i && ps[j].name == ps[i].name,
            },
        )
    } else {
        validation_from(ps, i + 1)
    }
}

/// A set passes validation exactly when no project name holds a colon and
/// no two projects share a name.
pub proof fn lemma_validation_accepts_exactly_distinct_colon_free_names(ps: Seq<LayerView>)
    ensures
        validation_from(ps, 0) is None <==> (forall|i: int|
            0 <= i < ps.len() ==> !(#[trigger] ps[i].name).contains(':')) && (forall|a: int, b: int|
            0 <= a < b < ps.len() ==> ps[a].name != ps[b].name),
{
    lemma_validation_from(ps, 0);
}

proof fn lemma_validation_from(ps: Seq<LayerView>, i: int)
    requires
        0 <= i <= ps.len(),
    ensures
        validation_from(ps, i) is None <==> (forall|k: int|
            i <= k < ps.len() ==> !(#[trigger] ps[k].name).contains(':')) && (forall|a: int, b: int|
            0 <= a < b < ps.len() && i <= b ==> ps[a].name != ps[b].name),
    decreases ps.len() - i,
{
    if i < ps.len() {
        lemma_validation_from(ps, i + 1);
        if validation_from(ps, i) is None {
            assert(!ps[i].name.contains(':'));
            assert(!exists|j: int| 0 <= j < i && ps[j].name == ps[i].name);
            assert forall|a: int, b: int| 0 <= a < b < ps.len() && i <= b implies ps[a].name
                != ps[b].name by {
                if b == i {
                    if ps[a].name == ps[b].name {
                        assert(exists|j: int| 0 <= j < i && ps[j].name == ps[i].name);
                    }
                }
            }
        } else {
            if (forall|k: int| i <= k < ps.len() ==> !(#[trigger] ps[k].name).contains(':')) && (forall|
                a: int,
                b: int,
            | 0 <= a < b < ps.len() && i <= b ==> ps[a].name != ps[b].name) {
                assert(!ps[i].name.contains(':'));
                if exists|j: int| 0 <= j < i && ps[j].name == ps[i].name {
                    let j = choose|j: int| 0 <= j < i && ps[j].name == ps[i].name;
                    assert(ps[j].name != ps[i].name);
                }
            }
        }
    }
}

/// `stack` without the names of `names`, in order.
pub open spec fn names_without(stack: Seq<Seq<char>>, names: Seq<Seq<char>>) -> Seq<Seq<char>> {
    stack.filter(|n: Seq<char>| !names.contains(n))
}

/// After removing `names` from a stack, none of them is left, and every
/// other name stays.
pub proof fn lemma_removed_names_are_gone(stack: Seq<Seq<char>>, names: Seq<Seq<char>>)
    ensures
        forall|i: int|
            0 <= i < names_without(stack, names).len() ==> !names.contains(
                #[trigger] names_without(stack, names)[i],
            ),
        forall|x: Seq<char>|
            stack.contains(x) && !names.contains(x) ==> #[trigger] names_without(
                stack,
                names,
            ).contains(x),
{
    let keep = |n: Seq<char>| !names.contains(n);
    assert(names_without(stack, names) == stack.filter(keep));
    assert forall|i: int| 0 <= i < names_without(stack, names).len() implies !names.contains(
        #[trigger] names_without(stack, names)[i],
    ) by {
        stack.lemma_filter_pred(keep, i);
    }
    assert forall|x: Seq<char>| stack.contains(x) && !names.contains(x) implies #[trigger] names_without(
        stack,
        names,
    ).contains(x) by {
        let i = choose|i: int| 0 <= i < stack.len() && stack[i] == x;
        stack.lemma_filter_contains(keep, i);
    }
}

/// A list of projects, as kept in one file.
#[derive(Debug, Clone, Default, PartialEq, PartialOrd)]
pub struct ProjectSet {
    projects: Vec<Project>,
}

impl View for ProjectSet {
    type V = Seq<LayerView>;

    closed spec fn view(&self) -> Seq<LayerView> {
        layer_views(self.projects@)
    }
}

/// The position of the first project named `name`, from `i` on.
pub open spec fn layer_position(ps: Seq<LayerView>, name: Seq<char>, i: int) -> Option<int>
    decreases ps.len() - i,
{
    if i < 0 || i >= ps.len() {
        None
    } else if ps[i].name == name {
        Some(i)
    } else {
        layer_position(ps, name, i + 1)
    }
}

proof fn lemma_layer_position(ps: Seq<LayerView>, name: Seq<char>, i: int)
    requires
        0 <= i <= ps.len(),
    ensures
        match layer_position(ps, name, i) {
            Some(k) => i <= k < ps.len() && ps[k].name == name && forall|j: int|
                i <= j < k ==> ps[j].name != name,
            None => forall|j: int| i <= j < ps.len() ==> ps[j].name != name,
        },
    decreases ps.len() - i,
{
    if i < ps.len() {
        lemma_layer_position(ps, name, i + 1);
    }
}

impl ProjectSet {
    /// A set of the given projects.
    pub fn new(projects: Vec<Project>) -> (res: ProjectSet)
        ensures
            res@ == layer_views(projects@),
    {
        ProjectSet { projects }
    }

    /// The projects of the set.
    pub fn projects(&self) -> (res: &[Project])
        ensures
            layer_views(res@) == self@,
    {
        self.projects.as_slice()
    }

    /// Checks that no project name holds a colon and no two projects share
    /// a name, reporting the first project at fault.
    pub fn validate(&self) -> (res: Result<(), ValidationError>)
        ensures
            match validation_from(self@, 0) {
                None => res is Ok,
                Some(e) => res matches Err(f) && f@ == e,
            },
    {
        let ghost ps = self@;
        let mut visited: KeyedMap<usize> = KeyedMap::new();
        let mut index: usize = 0;
        while index < self.projects.len()
            invariant
                ps == self@,
                index <= ps.len(),
                visited.wf(),
                validation_from(ps, 0) == validation_from(ps, index as int),
                forall|n: Seq<char>| #[trigger]
                    visited@.contains_key(n) <==> exists|j: int| 0 <= j < index && ps[j].name == n,
                forall|j: int| 0 <= j < index ==> visited@[#[trigger] ps[j].name] == j,
                forall|a: int, b: int| 0 <= a < b < index ==> ps[a].name != ps[b].name,
            decreases ps.len() - index,
        {
            let name = self.projects[index].name.clone();
            assert(name@ == ps[index as int].name);
            if crate::text::index_of_char(name.as_str(), ':').is_some() {
                proof {
                    crate::text::lemma_find_char(name@, ':');
                }
                return Err(ValidationError::ColonInName(name));
            }
            proof {
                crate::text::lemma_find_char(name@, ':');
            }
            let previous = visited.insert(name.clone(), index);
            match previous {
                Some(existing_index) => {
                    proof {
                        let j = choose|j: int| 0 <= j < index && ps[j].name == name@;
                        assert(existing_index == j);
                        assert(exists|j: int| 0 <= j < index && ps[j].name == ps[index as int].name);
                        let c = choose|c: int| 0 <= c < index && ps[c].name == ps[index as int].name;
                        assert(c == j) by {
                            if c != j {
                                if c < j {
                                    assert(ps[c].name != ps[j].name);
                                } else {
                                    assert(ps[j].name != ps[c].name);
                                }
                            }
                        }
                    }
                    return Err(
                        ValidationError::DuplicateName { name, index, existing_index },
                    );
                },
                None => {
                    proof {
                        assert(!exists|j: int| 0 <= j < index && ps[j].name == ps[index as int].name);
                        assert forall|n: Seq<char>| #[trigger]
                            visited@.contains_key(n) <==> exists|j: int|
                                0 <= j < index + 1 && ps[j].name == n by {
                            if n == name@ {
                                assert(ps[index as int].name == n);
                            }
                            if exists|j: int| 0 <= j < index + 1 && ps[j].name == n {
                                let j = choose|j: int| 0 <= j < index + 1 && ps[j].name == n;
                                if j < index {
                                    assert(exists|j: int| 0 <= j < index && ps[j].name == n);
                                }
                            }
                        }
                        assert forall|a: int, b: int| 0 <= a < b < index + 1 implies ps[a].name
                            != ps[b].name by {
                            if b == index {
                                if ps[a].name == ps[b].name {
                                    assert(exists|j: int|
                                        0 <= j < index && ps[j].name == ps[index as int].name);
                                }
                            }
                        }
                        assert forall|j: int| 0 <= j < index + 1 implies visited@[#[trigger] ps[j].name]
                            == j by {
                            if j < index {
                                assert(ps[j].name != ps[index as int].name);
                            }
                        }
                    }
                },
            }
            index = index + 1;
        }
        Ok(())
    }

    /// Appends the projects of `other`.
    pub fn extend(&mut self, other: ProjectSet)
        ensures
            final(self)@ == old(self)@ + other@,
    {
        let mut other = other;
        let ghost a = self@;
        let ghost b = other@;
        self.projects.append(&mut other.projects);
        assert(self@ =~= a + b);
    }

    /// Removes the first project named `name`, unless it is mandatory.
    #[verifier::loop_isolation(false)]
    pub fn remove_named_project(&mut self, name: &str) -> (res: Result<(), RemovalError>)
        ensures
            match layer_position(old(self)@, name@, 0) {
                None => res == Err::<(), RemovalError>(RemovalError::NotFound) && final(self)@
                    == old(self)@,
                Some(i) => if old(self)@[i].mandatory {
                    res == Err::<(), RemovalError>(RemovalError::Mandatory) && final(self)@
                        == old(self)@
                } else {
                    res is Ok && final(self)@ == old(self)@.remove(i)
                },
            },
    {
        let ghost before = self@;
        proof {
            lemma_layer_position(before, name@, 0);
        }
        let mut ix: usize = 0;
        while ix < self.projects.len()
            invariant
                self@ == before,
                ix <= before.len(),
                forall|j: int| 0 <= j < ix ==> before[j].name != name@,
                match layer_position(before, name@, 0) {
                    Some(k) => ix <= k,
                    None => true,
                },
            decreases before.len() - ix,
        {
            if str_equal(self.projects[ix].name.as_str(), name) {
                proof {
                    lemma_layer_position(before, name@, 0);
                    assert(before[ix as int].name == name@);
                }
                assert(layer_position(before, name@, 0) == Some(ix as int));
                if self.projects[ix].mandatory {
                    return Err(RemovalError::Mandatory);
                }
                self.projects.remove(ix);
                assert(self@ =~= before.remove(ix as int));
                return Ok(());
            }
            ix = ix + 1;
        }
        Err(RemovalError::NotFound)
    }

    /// The projects that are not mandatory, in order.
    pub fn optional_projects(&self) -> (res: Vec<&Project>)
        ensures
            res@.map_values(|p: &Project| p@) == self@.filter(|p: LayerView| !p.mandatory),
    {
        let ghost keep = |p: LayerView| !p.mandatory;
        let mut out: Vec<&Project> = Vec::new();
        let mut i: usize = 0;
        while i < self.projects.len()
            invariant
                i <= self@.len(),
                keep == (|p: LayerView| !p.mandatory),
                out@.map_values(|p: &Project| p@) == self@.subrange(0, i as int).filter(keep),
            decreases self@.len() - i,
        {
            let ghost prev = out@;
            proof {
                assert(self@.subrange(0, i + 1) =~= self@.subrange(0, i as int).push(
                    self@[i as int],
                ));
                self@.subrange(0, i as int).lemma_filter_push(self@[i as int], keep);
            }
            if !self.projects[i].mandatory {
                out.push(&self.projects[i]);
                assert(out@.map_values(|p: &Project| p@) =~= prev.map_values(|p: &Project| p@).push(
                    self@[i as int],
                ));
            }
            i = i + 1;
        }
        assert(self@.subrange(0, i as int) =~= self@);
        out
    }
}


/// Whether some project of `ps` is named `name`.
pub open spec fn has_layer(ps: Seq<LayerView>, name: Seq<char>) -> bool {
    exists|i: int| 0 <= i < ps.len() && ps[i].name == name
}

/// The first project of `ps`, from `i` on, whose name an earlier project
/// has, with the position of that earlier project.
pub open spec fn duplicate_from(ps: Seq<LayerView>, i: int) -> Option<(int, int)>
    decreases ps.len() - i,
{
    if i < 0 || i >= ps.len() {
        None
    } else if exists|j: int| 0 <= j < i && ps[j].name == ps[i].name {
        Some((i, choose|j: int| 0 <= j < i && ps[j].name == ps[i].name))
    } else {
        duplicate_from(ps, i + 1)
    }
}

/// Two projects of a set share a name.
#[derive(Debug, Clone)]
pub struct SameNameError {
    /// The later of the two projects.
    pub project: Project,
    /// The earlier of the two projects.
    pub existing: Project,
}

/// A project set indexed by project name.
#[derive(Debug, Clone)]
pub struct RichProjectSet {
    underlying: ProjectSet,
    index_on_name: KeyedMap<usize>,
}

impl View for RichProjectSet {
    type V = Seq<LayerView>;

    closed spec fn view(&self) -> Seq<LayerView> {
        self.underlying@
    }
}

impl RichProjectSet {
    /// The index holds, under each name, the position of the project of
    /// that name, and no two projects share a name.
    pub closed spec fn wf(&self) -> bool {
        let ps = self.underlying@;
        &&& self.index_on_name.wf()
        &&& forall|n: Seq<char>| #[trigger]
            self.index_on_name@.contains_key(n) <==> has_layer(ps, n)
        &&& forall|j: int| 0 <= j < ps.len() ==> self.index_on_name@[#[trigger] ps[j].name] == j
        &&& forall|a: int, b: int| 0 <= a < b < ps.len() ==> ps[a].name != ps[b].name
    }

    /// Indexes `underlying`, which must not hold two projects of one name.
    pub fn new(underlying: ProjectSet) -> (res: Result<RichProjectSet, SameNameError>)
        ensures
            match duplicate_from(underlying@, 0) {
                None => res matches Ok(r) && r.wf() && r@ == underlying@,
                Some((i, j)) => res matches Err(e) && e.project@ == underlying@[i]
                    && e.existing@ == underlying@[j],
            },
    {
        let ghost ps = underlying@;
        let mut index: KeyedMap<usize> = KeyedMap::new();
        let mut i: usize = 0;
        while i < underlying.projects.len()
            invariant
                ps == underlying@,
                i <= ps.len(),
                index.wf(),
                duplicate_from(ps, 0) == duplicate_from(ps, i as int),
                forall|n: Seq<char>| #[trigger]
                    index@.contains_key(n) <==> exists|j: int| 0 <= j < i && ps[j].name == n,
                forall|j: int| 0 <= j < i ==> index@[#[trigger] ps[j].name] == j,
                forall|a: int, b: int| 0 <= a < b < i ==> ps[a].name != ps[b].name,
            decreases ps.len() - i,
        {
            let name = underlying.projects[i].name.clone();
            assert(name@ == ps[i as int].name);
            match index.insert(name, i) {
                Some(existing) => {
                    proof {
                        let j = choose|j: int| 0 <= j < i && ps[j].name == ps[i as int].name;
                        assert(existing == j);
                        assert(duplicate_from(ps, i as int) == Some((i as int, j)));
                    }
                    let project = underlying.projects[i].duplicate();
                    let other = underlying.projects[existing].duplicate();
                    return Err(SameNameError { project, existing: other });
                },
                None => {
                    proof {
                        assert(!exists|j: int| 0 <= j < i && ps[j].name == ps[i as int].name);
                        assert forall|n: Seq<char>| #[trigger]
                            index@.contains_key(n) <==> exists|j: int|
                                0 <= j < i + 1 && ps[j].name == n by {
                            if n == ps[i as int].name {
                                assert(ps[i as int].name == n);
                            }
                            if exists|j: int| 0 <= j < i + 1 && ps[j].name == n {
                                let j = choose|j: int| 0 <= j < i + 1 && ps[j].name == n;
                                if j < i {
                                    assert(exists|j: int| 0 <= j < i && ps[j].name == n);
                                }
                            }
                        }
                        assert forall|a: int, b: int| 0 <= a < b < i + 1 implies ps[a].name
                            != ps[b].name by {
                            if b == i && ps[a].name == ps[b].name {
                                assert(exists|j: int| 0 <= j < i && ps[j].name == ps[i as int].name);
                            }
                        }
                        assert forall|j: int| 0 <= j < i + 1 implies index@[#[trigger] ps[j].name]
                            == j by {
                            if j < i {
                                assert(ps[j].name != ps[i as int].name);
                            }
                        }
                    }
                },
            }
            i = i + 1;
        }
        let res = RichProjectSet { underlying, index_on_name: index };
        assert forall|n: Seq<char>| #[trigger]
            res.index_on_name@.contains_key(n) <==> has_layer(ps, n) by {}
        Ok(res)
    }

    /// The position of the project named `name`.
    pub fn find_index(&self, name: &str) -> (res: Option<usize>)
        requires
            self.wf(),
        ensures
            match res {
                Some(i) => i < self@.len() && self@[i as int].name == name@,
                None => !has_layer(self@, name@),
            },
    {
        match self.index_on_name.get(name) {
            Some(ix) => {
                proof {
                    let j = choose|j: int| 0 <= j < self@.len() && self@[j].name == name@;
                    assert(self.index_on_name@[self@[j].name] == j);
                }
                Some(*ix)
            },
            None => None,
        }
    }

    /// The project named `name`.
    pub fn get(&self, name: &str) -> (res: Option<&Project>)
        requires
            self.wf(),
        ensures
            match res {
                Some(p) => has_layer(self@, name@) && p@.name == name@ && self@.contains(p@),
                None => !has_layer(self@, name@),
            },
    {
        match self.find_index(name) {
            Some(ix) => {
                assert(self.underlying@[ix as int] == self.underlying.projects@[ix as int]@);
                Some(&self.underlying.projects[ix])
            },
            None => None,
        }
    }

    /// Whether a project is named `name`.
    pub fn contains_key(&self, name: &str) -> (res: bool)
        requires
            self.wf(),
        ensures
            res == has_layer(self@, name@),
    {
        self.index_on_name.contains_key(name)
    }

    /// No two projects of an indexed set share a name.
    pub proof fn lemma_unique_names(&self)
        requires
            self.wf(),
        ensures
            forall|a: int, b: int|
                0 <= a < self@.len() && 0 <= b < self@.len() && #[trigger] self@[a].name
                    == #[trigger] self@[b].name ==> a == b,
    {
        assert forall|a: int, b: int|
            0 <= a < self@.len() && 0 <= b < self@.len() && #[trigger] self@[a].name
                == #[trigger] self@[b].name implies a == b by {
            if a < b {
                assert(self.underlying@[a].name != self.underlying@[b].name);
            } else if b < a {
                assert(self.underlying@[b].name != self.underlying@[a].name);
            }
        }
    }
}

/// The project of `ps` named `name` (the first, where several are).
pub open spec fn named_layer(ps: Seq<LayerView>, name: Seq<char>) -> LayerView {
    ps[layer_position(ps, name, 0)->Some_0]
}

/// A project that was asked for by name is not present.
#[derive(Debug, Clone, PartialEq, Eq)]
pub struct MissingProject {
    pub name: String,
    pub index: usize,
}

impl MissingProject {
    /// What went wrong, at bottom.
    pub fn root_cause(&self) -> (res: LoadError)
        ensures
            res == LoadError::NotFound,
    {
        LoadError::NotFound
    }

    /// The message of the error.
    pub fn to_string(&self) -> (res: String)
        ensures
            res@ == "Project named '"@ + self.name@ + "' (at index "@ + decimal_text(
                self.index as nat,
            ) + ") is not present"@,
    {
        let a = String::from_str("Project named '");
        let b = a.concat(self.name.as_str());
        let c = b.concat("' (at index ");
        let i = decimal_string(self.index);
        let d = c.concat(i.as_str());
        d.concat(") is not present")
    }
}

/// The position of the first name of `names`, from `i` on, that no project
/// of `ps` has.
pub open spec fn first_missing(names: Seq<Seq<char>>, ps: Seq<LayerView>, i: int) -> Option<int>
    decreases names.len() - i,
{
    if i < 0 || i >= names.len() {
        None
    } else if !has_layer(ps, names[i]) {
        Some(i)
    } else {
        first_missing(names, ps, i + 1)
    }
}

pub open spec fn named_layers(names: Seq<Seq<char>>, ps: Seq<LayerView>) -> Seq<LayerView> {
    names.map_values(|n: Seq<char>| named_layer(ps, n))
}

proof fn lemma_named_layer(ps: Seq<LayerView>, k: int)
    requires
        0 <= k < ps.len(),
        forall|a: int, b: int| 0 <= a < b < ps.len() ==> ps[a].name != ps[b].name,
    ensures
        named_layer(ps, ps[k].name) == ps[k],
{
    lemma_layer_position(ps, ps[k].name, 0);
    let p = layer_position(ps, ps[k].name, 0)->Some_0;
    if p != k {
        if p < k {
            assert(ps[p].name != ps[k].name);
        } else {
            assert(ps[k].name != ps[p].name);
        }
    }
}

/// The projects of `set` named `names`, in the order of the names.
pub fn find_named_projects(names: &[String], set: &RichProjectSet) -> (res: Result<
    Vec<Project>,
    MissingProject,
>)
    requires
        set.wf(),
    ensures
        match first_missing(views(names@), set@, 0) {
            None => res matches Ok(ps) && layer_views(ps@) == named_layers(views(names@), set@),
            Some(i) => res matches Err(e) && e.index == i && e.name@ == views(names@)[i],
        },
{
    let ghost ns = views(names@);
    let mut projects: Vec<Project> = Vec::new();
    let mut index: usize = 0;
    while index < names.len()
        invariant
            set.wf(),
            ns == views(names@),
            index <= ns.len(),
            first_missing(ns, set@, 0) == first_missing(ns, set@, index as int),
            layer_views(projects@) == named_layers(ns.subrange(0, index as int), set@),
        decreases ns.len() - index,
    {
        assert(ns[index as int] == names@[index as int]@);
        match set.get(names[index].as_str()) {
            Some(project) => {
                let ghost prev = projects@;
                proof {
                    set.lemma_unique_names();
                    let k = choose|k: int| 0 <= k < set@.len() && set@[k] == project@;
                    lemma_named_layer_of(set, k);
                    assert(named_layer(set@, ns[index as int]) == project@);
                }
                projects.push(project.duplicate());
                proof {
                    assert(ns.subrange(0, index + 1) =~= ns.subrange(0, index as int).push(
                        ns[index as int],
                    ));
                    assert(layer_views(projects@) =~= layer_views(prev).push(
                        named_layer(set@, ns[index as int]),
                    ));
                    assert(named_layers(ns.subrange(0, index + 1), set@) =~= named_layers(
                        ns.subrange(0, index as int),
                        set@,
                    ).push(named_layer(set@, ns[index as int])));
                }
            },
            None => {
                return Err(MissingProject { name: names[index].clone(), index });
            },
        }
        index = index + 1;
    }
    assert(ns.subrange(0, index as int) =~= ns);
    Ok(projects)
}

proof fn lemma_named_layer_of(set: &RichProjectSet, k: int)
    requires
        set.wf(),
        0 <= k < set@.len(),
    ensures
        named_layer(set@, set@[k].name) == set@[k],
{
    lemma_named_layer(set.underlying@, k);
}

/// A stack of the names of the projects the user selected.
#[derive(Debug, Clone, Default, PartialEq, PartialOrd)]
pub struct ProjectStack {
    selected_project_names: Vec<String>,
}

impl View for ProjectStack {
    type V = Seq<Seq<char>>;

    closed spec fn view(&self) -> Seq<Seq<char>> {
        views(self.selected_project_names@)
    }
}

impl ProjectStack {
    /// A stack of the given names, the last on top.
    pub fn new(selected_project_names: Vec<String>) -> (res: ProjectStack)
        ensures
            res@ == views(selected_project_names@),
    {
        ProjectStack { selected_project_names }
    }

    /// The names of the stack, the last on top.
    pub fn names(&self) -> (res: &Vec<String>)
        ensures
            views(res@) == self@,
    {
        &self.selected_project_names
    }
}


/// Pushing `names` onto a selection: a name already selected at the start
/// is skipped, an available one is pushed, and an unknown one stops the
/// push. Gives the new stack, the new selected projects and whether they
/// changed, or the first unknown name.
pub open spec fn push_names(
    selected: Seq<LayerView>,
    available: Seq<LayerView>,
    stack: Seq<Seq<char>>,
    names: Seq<Seq<char>>,
) -> Result<(Seq<Seq<char>>, Seq<LayerView>, bool), int>
    decreases names.len(),
{
    if names.len() == 0 {
        Ok((stack, selected, false))
    } else {
        match push_names(selected, available, stack, names.drop_last()) {
            Err(i) => Err(i),
            Ok((st, sel, changed)) => {
                let n = names.last();
                if has_layer(selected, n) {
                    Ok((st, sel, changed))
                } else if has_layer(available, n) {
                    Ok((st.push(n), sel.push(named_layer(available, n)), true))
                } else {
                    Err(names.len() - 1)
                }
            },
        }
    }
}

/// Pushes the projects named `names` onto the stack and the selected set,
/// skipping those selected to begin with; fails at the first name that is
/// not available.
pub fn push_as_selection(
    stack: &ProjectStack,
    selected: &RichProjectSet,
    available: &RichProjectSet,
    names: &Vec<String>,
) -> (res: Result<(ProjectStack, ProjectSet, bool), MissingProject>)
    requires
        selected.wf(),
        available.wf(),
    ensures
        match push_names(selected@, available@, stack@, views(names@)) {
            Ok((st, sel, changed)) => res matches Ok((s, p, c)) && s@ == st && p@ == sel && c
                == changed,
            Err(i) => res matches Err(e) && e.index == i && e.name@ == views(names@)[i],
        },
{
    let ghost ns = views(names@);
    let mut new_stack = ProjectStack { selected_project_names: crate::text::copy_strings(&stack.selected_project_names) };
    let mut new_selected = selected.underlying.duplicate_set();
    let mut changed = false;
    let mut i: usize = 0;
    while i < names.len()
        invariant
            selected.wf(),
            available.wf(),
            ns == views(names@),
            i <= ns.len(),
            push_names(selected@, available@, stack@, ns.subrange(0, i as int)) == Ok::<
                (Seq<Seq<char>>, Seq<LayerView>, bool),
                int,
            >((new_stack@, new_selected@, changed)),
        decreases ns.len() - i,
    {
        proof {
            assert(ns.subrange(0, i + 1).drop_last() =~= ns.subrange(0, i as int));
            assert(ns[i as int] == names@[i as int]@);
        }
        let name = &names[i];
        if selected.contains_key(name.as_str()) {
        } else {
            match available.get(name.as_str()) {
                Some(project) => {
                    proof {
                        let k = choose|k: int| 0 <= k < available@.len() && available@[k] == project@;
                        lemma_named_layer_of(available, k);
                    }
                    let ghost st = new_stack@;
                    let ghost sel = new_selected@;
                    new_stack.selected_project_names.push(name.clone());
                    new_selected.projects.push(project.duplicate());
                    changed = true;
                    assert(new_stack@ =~= st.push(ns[i as int]));
                    assert(new_selected@ =~= sel.push(named_layer(available@, ns[i as int])));
                },
                None => {
                    proof {
                        lemma_push_stuck(selected@, available@, stack@, ns, i + 1);
                    }
                    return Err(MissingProject { name: name.clone(), index: i });
                },
            }
        }
        i = i + 1;
    }
    assert(ns.subrange(0, i as int) =~= ns);
    Ok((new_stack, new_selected, changed))
}

proof fn lemma_push_stuck(
    selected: Seq<LayerView>,
    available: Seq<LayerView>,
    stack: Seq<Seq<char>>,
    names: Seq<Seq<char>>,
    n: int,
)
    requires
        0 <= n <= names.len(),
        push_names(selected, available, stack, names.subrange(0, n)) is Err,
    ensures
        push_names(selected, available, stack, names) == push_names(
            selected,
            available,
            stack,
            names.subrange(0, n),
        ),
    decreases names.len() - n,
{
    if n < names.len() {
        assert(names.subrange(0, n + 1).drop_last() =~= names.subrange(0, n));
        lemma_push_stuck(selected, available, stack, names, n + 1);
    } else {
        assert(names.subrange(0, n) =~= names);
    }
}

impl ProjectSet {
    /// A copy of the set.
    pub fn duplicate_set(&self) -> (res: ProjectSet)
        ensures
            res@ == self@,
    {
        let mut projects: Vec<Project> = Vec::new();
        let mut i: usize = 0;
        while i < self.projects.len()
            invariant
                i <= self@.len(),
                layer_views(projects@) == self@.subrange(0, i as int),
            decreases self@.len() - i,
        {
            let ghost prev = projects@;
            projects.push(self.projects[i].duplicate());
            proof {
                assert(layer_views(projects@) =~= layer_views(prev).push(self@[i as int]));
                assert(self@.subrange(0, i + 1) =~= self@.subrange(0, i as int).push(self@[i as int]));
            }
            i = i + 1;
        }
        assert(self@.subrange(0, i as int) =~= self@);
        ProjectSet { projects }
    }
}

/// `s` with up to `count` elements taken off its end.
pub open spec fn popped<A>(s: Seq<A>, count: int) -> Seq<A> {
    if count >= s.len() {
        Seq::empty()
    } else {
        s.subrange(0, s.len() - count)
    }
}

proof fn lemma_popped_step<A>(s: Seq<A>, k: int)
    requires
        0 <= k,
    ensures
        popped(s, k + 1) == if popped(s, k).len() > 0 {
            popped(s, k).subrange(0, popped(s, k).len() - 1)
        } else {
            popped(s, k)
        },
{
    if k + 1 < s.len() {
        assert(popped(s, k + 1) =~= popped(s, k).subrange(0, popped(s, k).len() - 1));
    } else if k < s.len() {
        assert(popped(s, k).subrange(0, popped(s, k).len() - 1) =~= Seq::<A>::empty());
    }
}

/// Pops `count` names off the stack and `count` projects off the selected
/// set; a pop of at least one counts as a change.
pub fn pop_selection(stack: &ProjectStack, selected: &ProjectSet, count: usize) -> (res: (
    ProjectStack,
    ProjectSet,
    bool,
))
    ensures
        res.0@ == popped(stack@, count as int),
        res.1@ == popped(selected@, count as int),
        res.2 == (count > 0),
{
    let mut names = crate::text::copy_strings(&stack.selected_project_names);
    let mut projects = selected.duplicate_set();
    let mut changed = false;
    let mut k: usize = 0;
    while k < count
        invariant
            k <= count,
            views(names@) == popped(stack@, k as int),
            projects@ == popped(selected@, k as int),
            changed == (k > 0),
        decreases count - k,
    {
        let ghost before_names = names@;
        let ghost before_projects = projects.projects@;
        let _ = names.pop();
        let _ = projects.projects.pop();
        proof {
            lemma_popped_step(stack@, k as int);
            lemma_popped_step(selected@, k as int);
            assert(views(before_names).len() == before_names.len());
            if before_names.len() > 0 {
                assert(names@ =~= before_names.subrange(0, before_names.len() - 1));
                assert(views(names@) =~= views(before_names).subrange(0, before_names.len() - 1));
            }
            assert(views(names@) =~= popped(stack@, k + 1));
            if before_projects.len() > 0 {
                assert(projects.projects@ =~= before_projects.subrange(
                    0,
                    before_projects.len() - 1,
                ));
                assert(projects@ =~= layer_views(before_projects).subrange(
                    0,
                    before_projects.len() - 1,
                ));
            }
            assert(projects@ =~= popped(selected@, k + 1));
        }
        changed = true;
        k = k + 1;
    }
    (ProjectStack { selected_project_names: names }, projects, changed)
}

/// Removes every name of `names` from the stack, telling whether any was
/// there.
pub fn remove_from_stack(stack: &ProjectStack, names: &Vec<String>) -> (res: (ProjectStack, bool))
    ensures
        res.0@ == names_without(stack@, views(names@)),
        res.1 == exists|i: int| 0 <= i < stack@.len() && views(names@).contains(stack@[i]),
{
    let ghost keep = |n: Seq<char>| !views(names@).contains(n);
    let ghost all = stack@;
    let mut retained: Vec<String> = Vec::new();
    let mut removals: usize = 0;
    let mut i: usize = 0;
    while i < stack.selected_project_names.len()
        invariant
            all == stack@,
            keep == (|n: Seq<char>| !views(names@).contains(n)),
            i <= all.len(),
            removals <= i,
            views(retained@) == all.subrange(0, i as int).filter(keep),
            (removals > 0) == exists|j: int| 0 <= j < i && views(names@).contains(all[j]),
        decreases all.len() - i,
    {
        let name = &stack.selected_project_names[i];
        assert(name@ == all[i as int]);
        let ghost prev = retained@;
        proof {
            assert(all.subrange(0, i + 1) =~= all.subrange(0, i as int).push(all[i as int]));
            all.subrange(0, i as int).lemma_filter_push(all[i as int], keep);
        }
        if crate::text::contains_string(names, name.as_str()) {
            removals = removals + 1;
        } else {
            retained.push(name.clone());
            assert(views(retained@) =~= views(prev).push(all[i as int]));
        }
        i = i + 1;
    }
    assert(all.subrange(0, i as int) =~= all);
    (ProjectStack { selected_project_names: retained }, removals > 0)
}

/// The projects in effect: the mandatory ones, then the ad-hoc ones, then
/// the selected ones.
pub fn computed_projects(
    mandatory: ProjectSet,
    adhoc: Option<ProjectSet>,
    selected: Option<ProjectSet>,
) -> (res: ProjectSet)
    ensures
        res@ == mandatory@ + match adhoc {
            Some(a) => a@,
            None => Seq::empty(),
        } + match selected {
            Some(s) => s@,
            None => Seq::empty(),
        },
{
    let mut projects = mandatory;
    let ghost m = projects@;
    match adhoc {
        Some(a) => projects.extend(a),
        None => {
            assert(projects@ =~= m + Seq::<LayerView>::empty());
        },
    }
    let ghost ma = projects@;
    match selected {
        Some(s) => projects.extend(s),
        None => {
            assert(projects@ =~= ma + Seq::<LayerView>::empty());
        },
    }
    projects
}

/// The targets of the projects of `ps`, in order.
pub open spec fn all_targets(ps: Seq<LayerView>) -> Seq<Seq<char>>
    decreases ps.len(),
{
    if ps.len() == 0 {
        Seq::empty()
    } else {
        all_targets(ps.drop_last()) + ps.last().targets
    }
}

/// The targets of all the projects of `set`, in order.
pub fn extract_coordinates(set: &ProjectSet) -> (res: Vec<String>)
    ensures
        views(res@) == all_targets(set@),
{
    let mut results: Vec<String> = Vec::new();
    let mut i: usize = 0;
    while i < set.projects.len()
        invariant
            i <= set@.len(),
            views(results@) == all_targets(set@.subrange(0, i as int)),
        decreases set@.len() - i,
    {
        let project = &set.projects[i];
        assert(set@.subrange(0, i + 1).drop_last() =~= set@.subrange(0, i as int));
        let ghost before = views(results@);
        let mut j: usize = 0;
        while j < project.targets.len()
            invariant
                j <= project@.targets.len(),
                views(results@) == before + project@.targets.subrange(0, j as int),
            decreases project@.targets.len() - j,
        {
            let ghost prev = results@;
            let t = project.targets[j].clone();
            results.push(t);
            proof {
                assert(project@.targets[j as int] == project.targets@[j as int]@);
                assert(views(results@) =~= views(prev).push(t@));
                assert(project@.targets.subrange(0, j + 1) =~= project@.targets.subrange(
                    0,
                    j as int,
                ).push(project@.targets[j as int]));
            }
            j = j + 1;
        }
        assert(project@.targets.subrange(0, j as int) =~= project@.targets);
        assert(set@.subrange(0, i + 1).last() == project@);
        i = i + 1;
    }
    assert(set@.subrange(0, i as int) =~= set@);
    results
}


/// A layer asked for by name does not exist.
#[derive(Debug, Clone, PartialEq, Eq)]
pub struct LayerNotFound {
    pub name: String,
}

impl LayerNotFound {
    /// The message of the error.
    pub fn to_string(&self) -> (res: String)
        ensures
            res@ == "Layer named '"@ + self.name@ + "' not found"@,
    {
        String::from_str("Layer named '").concat(self.name.as_str()).concat("' not found")
    }
}

/// The set of the layers named `layer_names`, in that order, taken from
/// `available`.
pub fn set_containing_layers(available: &RichProjectSet, layer_names: &[String]) -> (res: Result<
    ProjectSet,
    LayerNotFound,
>)
    requires
        available.wf(),
    ensures
        match first_missing(views(layer_names@), available@, 0) {
            None => res matches Ok(s) && s@ == named_layers(views(layer_names@), available@),
            Some(i) => res matches Err(e) && e.name@ == views(layer_names@)[i],
        },
{
    match find_named_projects(layer_names, available) {
        Ok(projects) => Ok(ProjectSet { projects }),
        Err(missing) => Err(LayerNotFound { name: missing.name }),
    }
}


/// The ad-hoc layer of a clone: the coordinates asked for on the command
/// line.
pub open spec fn adhoc_layer(coordinates: Seq<Seq<char>>) -> LayerView {
    LayerView {
        name: "adhoc"@,
        description: "Ad-hoc layer"@,
        mandatory: false,
        targets: coordinates,
    }
}

/// What a new clone selects: the ad-hoc layer set to store, the names of
/// the layers selected by name, and the coordinates of all the layers.
#[derive(Debug)]
pub struct InitialSelection {
    pub adhoc: ProjectSet,
    pub selected_names: Vec<String>,
    pub coordinates: Vec<String>,
}

/// The selection a new clone starts from: the mandatory layers, then an
/// ad-hoc layer of the given coordinates, then the layers chosen by name;
/// fails where these together do not validate.
pub fn initial_selection(mandatory: ProjectSet, coordinates: Vec<String>, named: ProjectSet) -> (res:
    Result<InitialSelection, ValidationError>)
    ensures
        ({
            let merged = mandatory@ + seq![adhoc_layer(views(coordinates@))] + named@;
            match validation_from(merged, 0) {
                Some(e) => res matches Err(f) && f@ == e,
                None => res matches Ok(s) && s.adhoc@ == seq![adhoc_layer(views(coordinates@))]
                    && views(s.selected_names@) == named@.map_values(|l: LayerView| l.name)
                    && views(s.coordinates@) == all_targets(merged),
            }
        }),
{
    let ghost coords = views(coordinates@);
    let ghost named_view = named@;
    let adhoc_project = Project::new("adhoc", "Ad-hoc layer", false, coordinates);
    proof {
        reveal_strlit("adhoc");
        reveal_strlit("Ad-hoc layer");
    }
    let mut projects: Vec<Project> = Vec::new();
    projects.push(adhoc_project);
    let adhoc = ProjectSet::new(projects);
    proof {
        assert(adhoc@ =~= seq![adhoc_layer(coords)]);
    }
    let mut names: Vec<String> = Vec::new();
    let mut i: usize = 0;
    while i < named.projects.len()
        invariant
            i <= named@.len(),
            named_view == named@,
            views(names@) == named@.subrange(0, i as int).map_values(|l: LayerView| l.name),
        decreases named@.len() - i,
    {
        let ghost prev = views(names@);
        names.push(String::from_str(named.projects[i].name()));
        proof {
            assert(views(names@) =~= prev.push(named@[i as int].name));
            assert(named@.subrange(0, i + 1).map_values(|l: LayerView| l.name) =~= named@.subrange(
                0,
                i as int,
            ).map_values(|l: LayerView| l.name).push(named@[i as int].name));
        }
        i = i + 1;
    }
    proof {
        assert(named@.subrange(0, i as int) =~= named@);
    }
    let mut merged = mandatory;
    merged.extend(adhoc.duplicate_set());
    merged.extend(named);
    match merged.validate() {
        Err(e) => Err(e),
        Ok(()) => {
            let coordinates = extract_coordinates(&merged);
            Ok(InitialSelection { adhoc, selected_names: names, coordinates })
        },
    }
}

} // verus!
