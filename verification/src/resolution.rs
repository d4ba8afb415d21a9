//! Resolving the targets of projects, following the projects they include.

use vstd::prelude::*;
use crate::selection::{Project, ProjectView, Projects, project_views};
use crate::target::{Target, TargetError, TargetErrorView, TargetView, parse_target};
use crate::text::{contains_string, views};
use crate::valueset::{SameValue, distinct_values, insert_value, value_seq, value_set};

verus! {

/// Why the targets of a project could not be resolved.
#[derive(Debug, Clone, PartialEq, Eq)]
pub enum ResolveError {
    /// A target of a resolved project does not parse.
    InvalidTarget(TargetError),
    /// A resolved project includes a project that is not available.
    UnknownProject(String),
}

pub enum ResolveErrorView {
    InvalidTarget(TargetErrorView),
    UnknownProject(Seq<char>),
}

impl View for ResolveError {
    type V = ResolveErrorView;

    open spec fn view(&self) -> ResolveErrorView {
        match self {
            ResolveError::InvalidTarget(e) => ResolveErrorView::InvalidTarget(e@),
            ResolveError::UnknownProject(n) => ResolveErrorView::UnknownProject(n@),
        }
    }
}

/// The error of the first target of `ts`, from position `i` on, that does
/// not parse.
pub open spec fn target_error_from(ts: Seq<Seq<char>>, i: int) -> Option<TargetErrorView>
    decreases ts.len() - i,
{
    if i < 0 || i >= ts.len() {
        None
    } else {
        match parse_target(ts[i]) {
            Err(e) => Some(e),
            Ok(_) => target_error_from(ts, i + 1),
        }
    }
}

/// The targets that the first `n` texts of `ts` parse to.
pub open spec fn parsed_prefix(ts: Seq<Seq<char>>, n: int) -> Set<TargetView> {
    Set::new(|t: TargetView| exists|j: int| 0 <= j < n && #[trigger] parse_target(ts[j]) == Ok::<
        TargetView,
        TargetErrorView,
    >(t))
}

/// The first name of `names`, from position `i` on, that `avail` lacks.
pub open spec fn missing_from(
    names: Seq<Seq<char>>,
    avail: Map<Seq<char>, ProjectView>,
    i: int,
) -> Option<Seq<char>>
    decreases names.len() - i,
{
    if i < 0 || i >= names.len() {
        None
    } else if !avail.contains_key(names[i]) {
        Some(names[i])
    } else {
        missing_from(names, avail, i + 1)
    }
}

/// The projects of `avail` under the given names, in order.
pub open spec fn looked_up(names: Seq<Seq<char>>, avail: Map<Seq<char>, ProjectView>) -> Seq<
    ProjectView,
> {
    names.map_values(|n: Seq<char>| avail[n])
}

pub open spec fn project_names(ps: Seq<ProjectView>) -> Seq<Seq<char>> {
    ps.map_values(|p: ProjectView| p.name)
}

/// Every name that resolution can meet: those of the projects to resolve
/// and those of the available projects.
pub open spec fn resolution_names(
    initial: Seq<ProjectView>,
    avail: Map<Seq<char>, ProjectView>,
) -> Set<Seq<char>> {
    project_names(initial).to_set().union(avail.dom())
}

/// The available projects are finitely many, each under its own name.
pub open spec fn keyed_by_name(avail: Map<Seq<char>, ProjectView>) -> bool {
    &&& avail.dom().finite()
    &&& forall|n: Seq<char>| #[trigger] avail.contains_key(n) ==> avail[n].name == n
}

/// Resolution from a stack of projects still to visit (visited from its
/// end), the names already visited and the targets gathered so far.
pub open spec fn resolve_from(
    work: Seq<ProjectView>,
    seen: Set<Seq<char>>,
    acc: Set<TargetView>,
    avail: Map<Seq<char>, ProjectView>,
    names: Set<Seq<char>>,
) -> Result<Set<TargetView>, ResolveErrorView>
    decreases names.difference(seen).len(), work.len(),
    when names.finite() && keyed_by_name(avail) && avail.dom().subset_of(names) && (forall|i: int|
        0 <= i < work.len() ==> names.contains(#[trigger] work[i].name))
{
    if work.len() == 0 {
        Ok(acc)
    } else {
        let p = work.last();
        let rest = work.drop_last();
        if seen.contains(p.name) {
            resolve_from(rest, seen, acc, avail, names)
        } else {
            match target_error_from(p.targets, 0) {
                Some(e) => Err(ResolveErrorView::InvalidTarget(e)),
                None => match missing_from(p.projects, avail, 0) {
                    Some(n) => Err(ResolveErrorView::UnknownProject(n)),
                    None => {
                        proof {
                            assert(names.difference(seen.insert(p.name)) =~= names.difference(
                                seen,
                            ).remove(p.name));
                        }
                        resolve_from(
                            rest + looked_up(p.projects, avail),
                            seen.insert(p.name),
                            acc.union(parsed_prefix(p.targets, p.targets.len() as int)),
                            avail,
                            names,
                        )
                    },
                },
            }
        }
    }
}

/// The targets of `initial` and of every project they include, directly or
/// not, visiting the projects last first, each name once.
pub open spec fn resolve_targets(
    initial: Seq<ProjectView>,
    avail: Map<Seq<char>, ProjectView>,
) -> Result<Set<TargetView>, ResolveErrorView> {
    resolve_from(initial, Set::empty(), Set::empty(), avail, resolution_names(initial, avail))
}

proof fn lemma_missing_step(names: Seq<Seq<char>>, avail: Map<Seq<char>, ProjectView>, i: int)
    requires
        0 <= i < names.len(),
        avail.contains_key(names[i]),
    ensures
        missing_from(names, avail, i) == missing_from(names, avail, i + 1),
{
}

proof fn lemma_no_missing(names: Seq<Seq<char>>, avail: Map<Seq<char>, ProjectView>, i: int)
    requires
        0 <= i <= names.len(),
        missing_from(names, avail, i) is None,
    ensures
        forall|j: int| i <= j < names.len() ==> avail.contains_key(#[trigger] names[j]),
    decreases names.len() - i,
{
    if i < names.len() {
        lemma_no_missing(names, avail, i + 1);
    }
}

/// The project that resolution knows by the name `n`: the given project of
/// that name, or else the available one.
pub open spec fn project_named(
    initial: Seq<ProjectView>,
    avail: Map<Seq<char>, ProjectView>,
    n: Seq<char>,
) -> ProjectView {
    if exists|i: int| 0 <= i < initial.len() && initial[i].name == n {
        initial[choose|i: int| 0 <= i < initial.len() && initial[i].name == n]
    } else {
        avail[n]
    }
}

/// A chain of inclusions: it starts at a given project, and each later name
/// is available and included by the project of the name before it.
pub open spec fn is_inclusion_chain(
    initial: Seq<ProjectView>,
    avail: Map<Seq<char>, ProjectView>,
    c: Seq<Seq<char>>,
) -> bool {
    &&& c.len() > 0
    &&& project_names(initial).contains(c[0])
    &&& forall|k: int|
        0 <= k < c.len() - 1 ==> avail.contains_key(#[trigger] c[k + 1]) && project_named(
            initial,
            avail,
            c[k],
        ).projects.contains(c[k + 1])
}

/// Whether the name `n` is reached from the given projects by inclusions.
pub open spec fn reachable(
    initial: Seq<ProjectView>,
    avail: Map<Seq<char>, ProjectView>,
    n: Seq<char>,
) -> bool {
    exists|c: Seq<Seq<char>>| #[trigger] is_inclusion_chain(initial, avail, c) && c.last() == n
}

/// A project whose targets all parse and whose included projects are all
/// available.
pub open spec fn is_resolvable(p: ProjectView, avail: Map<Seq<char>, ProjectView>) -> bool {
    &&& target_error_from(p.targets, 0) is None
    &&& missing_from(p.projects, avail, 0) is None
}

/// The targets of every reachable project.
pub open spec fn reachable_targets(
    initial: Seq<ProjectView>,
    avail: Map<Seq<char>, ProjectView>,
) -> Set<TargetView> {
    Set::new(
        |t: TargetView|
            exists|n: Seq<char>|
                reachable(initial, avail, n) && #[trigger] parsed_prefix(
                    project_named(initial, avail, n).targets,
                    project_named(initial, avail, n).targets.len() as int,
                ).contains(t),
    )
}

/// The given projects have distinct names, and a given project that is
/// also available is the available one.
pub open spec fn consistent(initial: Seq<ProjectView>, avail: Map<Seq<char>, ProjectView>) -> bool {
    &&& forall|i: int, j: int| 0 <= i < j < initial.len() ==> initial[i].name != initial[j].name
    &&& forall|i: int|
        0 <= i < initial.len() && #[trigger] avail.contains_key(initial[i].name) ==> avail[initial[i].name]
            == initial[i]
}

/// What holds along resolution: the stack holds reachable projects under
/// their names; every visited name is reachable and resolvable, with its
/// targets gathered and its inclusions visited or on the stack; and every
/// given name is visited or on the stack.
pub open spec fn closure_invariant(
    initial: Seq<ProjectView>,
    avail: Map<Seq<char>, ProjectView>,
    work: Seq<ProjectView>,
    seen: Set<Seq<char>>,
    acc: Set<TargetView>,
) -> bool {
    &&& forall|i: int|
        0 <= i < work.len() ==> #[trigger] work[i] == project_named(initial, avail, work[i].name)
            && reachable(initial, avail, work[i].name)
    &&& forall|n: Seq<char>|
        #[trigger] seen.contains(n) ==> reachable(initial, avail, n) && is_resolvable(
            project_named(initial, avail, n),
            avail,
        )
    &&& forall|n: Seq<char>, m: Seq<char>|
        seen.contains(n) && #[trigger] project_named(initial, avail, n).projects.contains(m)
            ==> seen.contains(m) || project_names(work).contains(m)
    &&& acc == Set::new(
        |t: TargetView|
            exists|n: Seq<char>|
                seen.contains(n) && #[trigger] parsed_prefix(
                    project_named(initial, avail, n).targets,
                    project_named(initial, avail, n).targets.len() as int,
                ).contains(t),
    )
    &&& forall|i: int|
        0 <= i < initial.len() ==> seen.contains(#[trigger] initial[i].name) || project_names(
            work,
        ).contains(initial[i].name)
}

proof fn lemma_missing_none_all_available(
    names: Seq<Seq<char>>,
    avail: Map<Seq<char>, ProjectView>,
)
    ensures
        missing_from(names, avail, 0) is None <==> forall|j: int|
            0 <= j < names.len() ==> avail.contains_key(#[trigger] names[j]),
{
    lemma_no_missing_from(names, avail, 0);
}

proof fn lemma_no_missing_from(names: Seq<Seq<char>>, avail: Map<Seq<char>, ProjectView>, i: int)
    requires
        0 <= i <= names.len(),
    ensures
        missing_from(names, avail, i) is None <==> forall|j: int|
            i <= j < names.len() ==> avail.contains_key(#[trigger] names[j]),
    decreases names.len() - i,
{
    if i < names.len() {
        lemma_no_missing_from(names, avail, i + 1);
    }
}

/// Every name reached by a chain lies in any set of names that holds the
/// given names and every available name included by one of its names.
proof fn lemma_chains_stay_in_closed_sets(
    initial: Seq<ProjectView>,
    avail: Map<Seq<char>, ProjectView>,
    s: Set<Seq<char>>,
    c: Seq<Seq<char>>,
)
    requires
        forall|i: int| 0 <= i < initial.len() ==> s.contains(#[trigger] initial[i].name),
        forall|n: Seq<char>, m: Seq<char>|
            s.contains(n) && #[trigger] project_named(initial, avail, n).projects.contains(m)
                && avail.contains_key(m) ==> s.contains(m),
        is_inclusion_chain(initial, avail, c),
    ensures
        s.contains(c.last()),
    decreases c.len(),
{
    if c.len() == 1 {
        let i = choose|i: int| 0 <= i < project_names(initial).len() && project_names(initial)[i] == c[0];
        assert(initial[i].name == c[0]);
    } else {
        let d = c.drop_last();
        assert forall|k: int| 0 <= k < d.len() - 1 implies avail.contains_key(#[trigger] d[k + 1])
            && project_named(initial, avail, d[k]).projects.contains(d[k + 1]) by {
            assert(d[k + 1] == c[k + 1]);
            assert(d[k] == c[k]);
        }
        lemma_chains_stay_in_closed_sets(initial, avail, s, d);
        let k = c.len() - 2;
        assert(avail.contains_key(c[k + 1]));
        assert(d.last() == c[k]);
    }
}

proof fn lemma_chain_extends(
    initial: Seq<ProjectView>,
    avail: Map<Seq<char>, ProjectView>,
    n: Seq<char>,
    m: Seq<char>,
)
    requires
        reachable(initial, avail, n),
        avail.contains_key(m),
        project_named(initial, avail, n).projects.contains(m),
    ensures
        reachable(initial, avail, m),
{
    let c = choose|c: Seq<Seq<char>>| #[trigger] is_inclusion_chain(initial, avail, c) && c.last() == n;
    let d = c.push(m);
    assert forall|k: int| 0 <= k < d.len() - 1 implies avail.contains_key(#[trigger] d[k + 1])
        && project_named(initial, avail, d[k]).projects.contains(d[k + 1]) by {
        if k < c.len() - 1 {
            assert(d[k + 1] == c[k + 1]);
            assert(d[k] == c[k]);
        } else {
            assert(d[k] == n);
            assert(d[k + 1] == m);
        }
    }
    assert(d[0] == c[0]);
    assert(is_inclusion_chain(initial, avail, d));
    assert(d.last() == m);
}

proof fn lemma_closure_step(
    initial: Seq<ProjectView>,
    avail: Map<Seq<char>, ProjectView>,
    work: Seq<ProjectView>,
    seen: Set<Seq<char>>,
    acc: Set<TargetView>,
    names: Set<Seq<char>>,
)
    requires
        consistent(initial, avail),
        names.finite(),
        keyed_by_name(avail),
        avail.dom().subset_of(names),
        forall|i: int| 0 <= i < work.len() ==> names.contains(#[trigger] work[i].name),
        closure_invariant(initial, avail, work, seen, acc),
    ensures
        (resolve_from(work, seen, acc, avail, names) is Ok) <==> (forall|n: Seq<char>|
            reachable(initial, avail, n) ==> #[trigger] is_resolvable(
                project_named(initial, avail, n),
                avail,
            )),
        resolve_from(work, seen, acc, avail, names) matches Ok(s) ==> s == reachable_targets(
            initial,
            avail,
        ),
    decreases names.difference(seen).len(), work.len(),
{
    if work.len() == 0 {
        assert forall|n: Seq<char>, m: Seq<char>|
            seen.contains(n) && #[trigger] project_named(initial, avail, n).projects.contains(m)
                && avail.contains_key(m) implies seen.contains(m) by {
            if !seen.contains(m) {
                assert(project_names(work).contains(m));
                let k = choose|k: int| 0 <= k < project_names(work).len() && project_names(work)[k] == m;
            }
        }
        assert forall|i: int| 0 <= i < initial.len() implies seen.contains(#[trigger] initial[i].name) by {
            if !seen.contains(initial[i].name) {
                let k = choose|k: int|
                    0 <= k < project_names(work).len() && project_names(work)[k] == initial[i].name;
            }
        }
        assert forall|n: Seq<char>| reachable(initial, avail, n) implies seen.contains(n) by {
            let c = choose|c: Seq<Seq<char>>| #[trigger] is_inclusion_chain(initial, avail, c) && c.last() == n;
            lemma_chains_stay_in_closed_sets(initial, avail, seen, c);
        }
        assert forall|n: Seq<char>| reachable(initial, avail, n) implies #[trigger] is_resolvable(
            project_named(initial, avail, n),
            avail,
        ) by {
            assert(seen.contains(n));
        }
        assert(resolve_from(work, seen, acc, avail, names) == Ok::<Set<TargetView>, ResolveErrorView>(acc));
        assert(acc =~= reachable_targets(initial, avail));
    } else {
        let p = work.last();
        let rest = work.drop_last();
        assert(work[work.len() - 1] == p);
        assert forall|i: int| 0 <= i < rest.len() implies names.contains(#[trigger] rest[i].name) by {
            assert(rest[i] == work[i]);
        }
        if seen.contains(p.name) {
            assert(closure_invariant(initial, avail, rest, seen, acc)) by {
                assert forall|i: int| 0 <= i < rest.len() implies #[trigger] rest[i] == project_named(
                    initial,
                    avail,
                    rest[i].name,
                ) && reachable(initial, avail, rest[i].name) by {
                    assert(rest[i] == work[i]);
                }
                assert forall|n: Seq<char>, m: Seq<char>|
                    seen.contains(n) && #[trigger] project_named(initial, avail, n).projects.contains(m)
                        implies seen.contains(m) || project_names(rest).contains(m) by {
                    if !seen.contains(m) {
                        let k = choose|k: int|
                            0 <= k < project_names(work).len() && project_names(work)[k] == m;
                        if k < rest.len() {
                            assert(project_names(rest)[k] == m);
                        }
                    }
                }
                assert forall|i: int| 0 <= i < initial.len() implies seen.contains(
                    #[trigger] initial[i].name,
                ) || project_names(rest).contains(initial[i].name) by {
                    if !seen.contains(initial[i].name) {
                        let k = choose|k: int|
                            0 <= k < project_names(work).len() && project_names(work)[k]
                                == initial[i].name;
                        if k < rest.len() {
                            assert(project_names(rest)[k] == initial[i].name);
                        }
                    }
                }
            }
            lemma_closure_step(initial, avail, rest, seen, acc, names);
        } else {
            assert(p == project_named(initial, avail, p.name) && reachable(initial, avail, p.name));
            match target_error_from(p.targets, 0) {
                Some(_) => {
                    assert(!is_resolvable(project_named(initial, avail, p.name), avail));
                    assert(resolve_from(work, seen, acc, avail, names) is Err);
                },
                None => match missing_from(p.projects, avail, 0) {
                    Some(_) => {
                        assert(!is_resolvable(project_named(initial, avail, p.name), avail));
                        assert(resolve_from(work, seen, acc, avail, names) is Err);
                    },
                    None => {
                        lemma_missing_none_all_available(p.projects, avail);
                        let pushed = looked_up(p.projects, avail);
                        let work2 = rest + pushed;
                        let seen2 = seen.insert(p.name);
                        let all = parsed_prefix(p.targets, p.targets.len() as int);
                        let acc2 = acc.union(all);
                        assert(names.difference(seen2) =~= names.difference(seen).remove(p.name));
                        assert(names.contains(p.name));
                        assert forall|i: int| 0 <= i < work2.len() implies names.contains(
                            #[trigger] work2[i].name,
                        ) by {
                            if i < rest.len() {
                                assert(work2[i] == rest[i]);
                            } else {
                                let k = i - rest.len();
                                assert(work2[i] == avail[p.projects[k]]);
                                assert(avail.contains_key(p.projects[k]));
                            }
                        }
                        assert(closure_invariant(initial, avail, work2, seen2, acc2)) by {
                            assert forall|i: int| 0 <= i < work2.len() implies #[trigger] work2[i]
                                == project_named(initial, avail, work2[i].name) && reachable(
                                initial,
                                avail,
                                work2[i].name,
                            ) by {
                                if i < rest.len() {
                                    assert(work2[i] == rest[i]);
                                    assert(rest[i] == work[i]);
                                } else {
                                    let k = i - rest.len();
                                    let m = p.projects[k];
                                    assert(avail.contains_key(m));
                                    assert(work2[i] == avail[m]);
                                    assert(avail[m].name == m);
                                    if exists|j: int| 0 <= j < initial.len() && initial[j].name == m {
                                        let j = choose|j: int|
                                            0 <= j < initial.len() && initial[j].name == m;
                                        assert(avail.contains_key(initial[j].name));
                                    }
                                    assert(p.projects.contains(m));
                                    lemma_chain_extends(initial, avail, p.name, m);
                                }
                            }
                            assert forall|n: Seq<char>| #[trigger] seen2.contains(n) implies reachable(
                                initial,
                                avail,
                                n,
                            ) && is_resolvable(project_named(initial, avail, n), avail) by {}
                            assert forall|n: Seq<char>, m: Seq<char>|
                                seen2.contains(n) && #[trigger] project_named(
                                    initial,
                                    avail,
                                    n,
                                ).projects.contains(m) implies seen2.contains(m) || project_names(
                                work2,
                            ).contains(m) by {
                                if n == p.name {
                                    let k = choose|k: int| 0 <= k < p.projects.len() && p.projects[k] == m;
                                    assert(avail.contains_key(m));
                                    assert(work2[rest.len() + k] == avail[m]);
                                    assert(project_names(work2)[rest.len() + k] == m);
                                } else if !seen.contains(m) {
                                    let k = choose|k: int|
                                        0 <= k < project_names(work).len() && project_names(work)[k]
                                            == m;
                                    if k < rest.len() {
                                        assert(work2[k] == rest[k]);
                                        assert(project_names(work2)[k] == m);
                                    } else {
                                        assert(m == p.name);
                                    }
                                }
                            }
                            assert(acc2 =~= Set::new(
                                |t: TargetView|
                                    exists|n: Seq<char>|
                                        seen2.contains(n) && #[trigger] parsed_prefix(
                                            project_named(initial, avail, n).targets,
                                            project_named(initial, avail, n).targets.len() as int,
                                        ).contains(t),
                            ));
                            assert forall|i: int| 0 <= i < initial.len() implies seen2.contains(
                                #[trigger] initial[i].name,
                            ) || project_names(work2).contains(initial[i].name) by {
                                if !seen.contains(initial[i].name) && initial[i].name != p.name {
                                    let k = choose|k: int|
                                        0 <= k < project_names(work).len() && project_names(work)[k]
                                            == initial[i].name;
                                    if k < rest.len() {
                                        assert(work2[k] == rest[k]);
                                        assert(project_names(work2)[k] == initial[i].name);
                                    }
                                }
                            }
                        }
                        lemma_closure_step(initial, avail, work2, seen2, acc2, names);
                    },
                },
            }
        }
    }
}

/// For given projects of distinct names that agree with the available
/// projects of the same names, resolution succeeds exactly when every
/// project reached by inclusions has targets that parse and includes only
/// available projects, and it then gives the targets of all those
/// projects.
pub proof fn lemma_resolution_gathers_reachable_targets(
    initial: Seq<ProjectView>,
    avail: Map<Seq<char>, ProjectView>,
)
    requires
        keyed_by_name(avail),
        consistent(initial, avail),
    ensures
        (resolve_targets(initial, avail) is Ok) <==> (forall|n: Seq<char>|
            reachable(initial, avail, n) ==> #[trigger] is_resolvable(
                project_named(initial, avail, n),
                avail,
            )),
        resolve_targets(initial, avail) matches Ok(s) ==> s == reachable_targets(initial, avail),
{
    let names = resolution_names(initial, avail);
    assert(names.finite()) by {
        vstd::seq_lib::seq_to_set_is_finite(project_names(initial));
    }
    assert forall|i: int| 0 <= i < initial.len() implies names.contains(#[trigger] initial[i].name) by {
        assert(project_names(initial)[i] == initial[i].name);
    }
    assert(closure_invariant(initial, avail, initial, Set::empty(), Set::empty())) by {
        assert forall|i: int| 0 <= i < initial.len() implies #[trigger] initial[i] == project_named(
            initial,
            avail,
            initial[i].name,
        ) && reachable(initial, avail, initial[i].name) by {
            let j = choose|j: int| 0 <= j < initial.len() && initial[j].name == initial[i].name;
            if j != i {
                if j < i {
                    assert(initial[j].name != initial[i].name);
                } else {
                    assert(initial[i].name != initial[j].name);
                }
            }
            let c = seq![initial[i].name];
            assert(project_names(initial)[i] == initial[i].name);
            assert(is_inclusion_chain(initial, avail, c));
        }
        assert(Set::<TargetView>::empty() =~= Set::new(
            |t: TargetView|
                exists|n: Seq<char>|
                    Set::<Seq<char>>::empty().contains(n) && #[trigger] parsed_prefix(
                        project_named(initial, avail, n).targets,
                        project_named(initial, avail, n).targets.len() as int,
                    ).contains(t),
        ));
        assert forall|i: int| 0 <= i < initial.len() implies Set::<Seq<char>>::empty().contains(
            #[trigger] initial[i].name,
        ) || project_names(initial).contains(initial[i].name) by {
            assert(project_names(initial)[i] == initial[i].name);
        }
    }
    lemma_closure_step(initial, avail, initial, Set::empty(), Set::empty(), names);
}

/// Resolves the targets of `projects` and of the projects they include,
/// looked up by name in `available`.
#[verifier::loop_isolation(false)]
pub fn resolve_targets_for_project(projects: Vec<Project>, available: &Projects) -> (res: Result<
    Vec<Target>,
    ResolveError,
>)
    requires
        available.wf(),
    ensures
        match res {
            Ok(ts) => distinct_values(ts@) && resolve_targets(
                project_views(projects@),
                available@.underlying,
            ) == Ok::<Set<TargetView>, ResolveErrorView>(value_set(ts@)),
            Err(e) => resolve_targets(project_views(projects@), available@.underlying) == Err::<
                Set<TargetView>,
                ResolveErrorView,
            >(e@),
        },
{
    let ghost avail = available@.underlying;
    let ghost initial = project_views(projects@);
    let ghost names = resolution_names(initial, avail);
    let ghost goal = resolve_targets(initial, avail);
    proof {
        available.lemma_keyed_by_name();
        assert forall|i: int| 0 <= i < initial.len() implies names.contains(#[trigger] initial[i].name) by {
            assert(project_names(initial)[i] == initial[i].name);
        }
    }
    let mut work = projects;
    let mut seen: Vec<String> = Vec::new();
    let mut acc: Vec<Target> = Vec::new();
    assert(value_set(acc@) =~= Set::<TargetView>::empty());
    assert(views(seen@).to_set() =~= Set::<Seq<char>>::empty());
    assert forall|i: int| 0 <= i < work@.len() implies names.contains(#[trigger] work@[i]@.name) by {
        assert(initial[i] == work@[i]@);
    }
    loop
        invariant
            available.wf(),
            avail == available@.underlying,
            names.finite(),
            keyed_by_name(avail),
            avail.dom().subset_of(names),
            forall|i: int| 0 <= i < work@.len() ==> names.contains(#[trigger] work@[i]@.name),
            distinct_values(acc@),
            resolve_from(project_views(work@), views(seen@).to_set(), value_set(acc@), avail, names)
                == goal,
        decreases names.difference(views(seen@).to_set()).len(), work@.len(),
    {
        let ghost seen_set = views(seen@).to_set();
        let ghost before = work@;
        let ghost wv = project_views(before);
        assert forall|i: int| 0 <= i < wv.len() implies names.contains(#[trigger] wv[i].name) by {
            assert(wv[i] == before[i]@);
        }
        match work.pop() {
            None => {
                assert(wv.len() == 0);
                assert(resolve_from(wv, seen_set, value_set(acc@), avail, names) == Ok::<
                    Set<TargetView>,
                    ResolveErrorView,
                >(value_set(acc@)));
                return Ok(acc);
            },
            Some(project) => {
                let ghost pv = project@;
                assert(wv.last() == pv);
                assert(project_views(work@) =~= wv.drop_last());
                if contains_string(&seen, project.name.as_str()) {
                    continue;
                }
                // Gather the targets of the project.
                let ghost acc0 = value_set(acc@);
                let targets = project.targets.items();
                let mut i: usize = 0;
                proof {
                    assert(parsed_prefix(pv.targets, 0) =~= Set::<TargetView>::empty());
                    assert(acc0.union(parsed_prefix(pv.targets, 0)) =~= acc0);
                }
                while i < targets.len()
                    invariant
                        views(targets@) == pv.targets,
                        i <= targets@.len(),
                        distinct_values(acc@),
                        value_set(acc@) == acc0.union(parsed_prefix(pv.targets, i as int)),
                        target_error_from(pv.targets, 0) == target_error_from(pv.targets, i as int),
                    decreases targets@.len() - i,
                {
                    assert(targets@[i as int]@ == pv.targets[i as int]);
                    match Target::try_from(targets[i].as_str()) {
                        Err(e) => {
                            assert(target_error_from(pv.targets, i as int) == Some(e@));
                            return Err(ResolveError::InvalidTarget(e));
                        },
                        Ok(t) => {
                            let ghost tv = t@;
                            insert_value(&mut acc, t);
                            proof {
                                assert(parsed_prefix(pv.targets, i + 1) =~= parsed_prefix(
                                    pv.targets,
                                    i as int,
                                ).insert(tv)) by {
                                    assert(parse_target(pv.targets[i as int]) == Ok::<
                                        TargetView,
                                        TargetErrorView,
                                    >(tv));
                                }
                                assert(value_set(acc@) =~= acc0.union(
                                    parsed_prefix(pv.targets, i + 1),
                                ));
                            }
                        },
                    }
                    i = i + 1;
                }
                assert(target_error_from(pv.targets, 0) is None);
                // Queue the projects it includes.
                let subs = project.projects.items();
                let ghost rest = project_views(work@);
                let mut j: usize = 0;
                assert(looked_up(pv.projects.subrange(0, 0), avail) =~= Seq::<ProjectView>::empty());
                assert(project_views(work@) =~= rest + looked_up(pv.projects.subrange(0, 0), avail));
                while j < subs.len()
                    invariant
                        available.wf(),
                        avail == available@.underlying,
                        keyed_by_name(avail),
                        views(subs@) == pv.projects,
                        j <= subs@.len(),
                        missing_from(pv.projects, avail, 0) == missing_from(pv.projects, avail, j as int),
                        project_views(work@) == rest + looked_up(pv.projects.subrange(0, j as int), avail),
                    decreases subs@.len() - j,
                {
                    assert(subs@[j as int]@ == pv.projects[j as int]);
                    match available.get(subs[j].as_str()) {
                        Some(sp) => {
                            let next = sp.duplicate();
                            let ghost old_work = work@;
                            work.push(next);
                            proof {
                                lemma_missing_step(pv.projects, avail, j as int);
                                assert(pv.projects.subrange(0, j + 1) =~= pv.projects.subrange(
                                    0,
                                    j as int,
                                ).push(pv.projects[j as int]));
                                assert(project_views(work@) =~= project_views(old_work).push(
                                    next@,
                                ));
                                assert(looked_up(pv.projects.subrange(0, j + 1), avail) =~= looked_up(
                                    pv.projects.subrange(0, j as int),
                                    avail,
                                ).push(avail[pv.projects[j as int]]));
                            }
                        },
                        None => {
                            return Err(ResolveError::UnknownProject(subs[j].clone()));
                        },
                    }
                    j = j + 1;
                }
                assert(pv.projects.subrange(0, j as int) =~= pv.projects);
                assert(missing_from(pv.projects, avail, 0) is None);
                let ghost new_work = rest + looked_up(pv.projects, avail);
                proof {
                    lemma_no_missing(pv.projects, avail, 0);
                    assert forall|i: int| 0 <= i < new_work.len() implies names.contains(
                        #[trigger] new_work[i].name,
                    ) by {
                        if i >= rest.len() {
                            let k = i - rest.len();
                            assert(avail.contains_key(pv.projects[k]));
                            assert(new_work[i] == avail[pv.projects[k]]);
                        } else {
                            assert(rest[i] == wv[i]);
                        }
                    }
                    assert(parsed_prefix(pv.targets, i as int) == parsed_prefix(
                        pv.targets,
                        pv.targets.len() as int,
                    ));
                }
                let ghost seen_before = views(seen@).to_set();
                let ghost old_views = views(seen@);
                seen.push(project.name.clone());
                proof {
                    assert(views(seen@) =~= old_views.push(pv.name));
                    assert(views(seen@).to_set() =~= seen_before.insert(pv.name)) by {
                        assert forall|x| views(seen@).to_set().contains(x) implies seen_before.insert(
                            pv.name,
                        ).contains(x) by {
                            let k = choose|k: int| 0 <= k < views(seen@).len() && views(seen@)[k] == x;
                            if k < old_views.len() {
                                assert(old_views[k] == x);
                            }
                        }
                        assert forall|x| seen_before.insert(pv.name).contains(x) implies views(
                            seen@,
                        ).to_set().contains(x) by {
                            if x == pv.name {
                                assert(views(seen@)[old_views.len() as int] == x);
                            } else {
                                let k = choose|k: int| 0 <= k < old_views.len() && old_views[k] == x;
                                assert(views(seen@)[k] == x);
                            }
                        }
                    }
                    assert forall|i: int| 0 <= i < work@.len() implies names.contains(
                        #[trigger] work@[i]@.name,
                    ) by {
                        assert(project_views(work@)[i] == work@[i]@);
                    }
                    assert(names.difference(seen_before.insert(pv.name)) =~= names.difference(
                        seen_before,
                    ).remove(pv.name));
                }
            },
        }
    }
}

} // verus!
