//! What each step of resolution does to what is noted, requested and pending.

use crate::component::ComponentView;
use crate::hosts::{lemma_needed, needed};
use crate::identifier::{IdView, NameView};
use crate::resolution::{compatible, id_names, imports_name, last_mismatch, version_max};
use crate::resolution::{law_last_unsatisfied_import_is_reported, mismatched};
use crate::resolution::{ConflictView, InfoView, RequestView, ResolverView, StateView};
use crate::version::{law_match_is_on_the_same_line, version_matches};
use vstd::prelude::*;

verus! {

/// A package of which nothing is noted is requested in the version in which it is needed, at the end of
/// the list, and exactly in that version if it is top-level. Nothing else changes.
pub proof fn law_unknown_package_is_requested(s: ResolverView, id: IdView, exact: bool)
    requires
        s.pending.len() > 0,
        id == s.pending[s.pending.len() - 1],
        !s.chosen.contains_key(id.name),
        exact == exists|i: int| 0 <= i < s.top_level.len() && (#[trigger] s.top_level[i]).name == id.name,
    ensures
        s.step() == Ok::<ResolverView, ConflictView>(
            ResolverView {
                top_level: s.top_level,
                linker: s.linker,
                hosts: s.hosts,
                chosen: s.chosen.insert(
                    id.name,
                    InfoView {
                        version: id.version,
                        exact,
                        state: StateView::Unresolved(s.requests.len() as int),
                    },
                ),
                requests: s.requests.push(RequestView { id, exact, selected: None }),
                pending: s.pending.take(s.pending.len() - 1),
                graph: s.graph,
            },
        ),
{
    lemma_top_level_by_name(s, id.name);
    assert(s.pending.drop_last() =~= s.pending.take(s.pending.len() - 1));
}

/// A package is top-level exactly if the list of top-level packages holds its name.
proof fn lemma_top_level_by_name(s: ResolverView, name: NameView)
    ensures
        s.is_top_level(name) <==> exists|i: int|
            0 <= i < s.top_level.len() && (#[trigger] s.top_level[i]).name == name,
{
    let names = id_names(s.top_level);
    if names.contains(name) {
        let i = names.index_of(name);
        assert(s.top_level[i].name == name);
    }
    if exists|i: int| 0 <= i < s.top_level.len() && (#[trigger] s.top_level[i]).name == name {
        let i = choose|i: int| 0 <= i < s.top_level.len() && (#[trigger] s.top_level[i]).name == name;
        assert(names[i] == name);
    }
}

/// A package that is needed in a version that conflicts with the noted one is reported with both versions,
/// the noted one first.
pub proof fn law_conflicting_need_is_reported(s: ResolverView, id: IdView)
    requires
        s.pending.len() > 0,
        id == s.pending[s.pending.len() - 1],
        s.chosen.contains_key(id.name),
        !compatible(s.chosen[id.name].version, s.chosen[id.name].exact, id.version),
    ensures
        s.step() == Err::<ResolverView, ConflictView>(
            ConflictView { name: id.name, first: s.chosen[id.name].version, second: id.version },
        ),
{
}

/// A package that is needed in a greater version than the noted one, and of which no component has been
/// supplied, is requested in the greater version, in the same place of the list.
pub proof fn law_greater_need_raises_the_request(s: ResolverView, id: IdView, i: int)
    requires
        s.pending.len() > 0,
        id == s.pending[s.pending.len() - 1],
        s.chosen.contains_key(id.name),
        compatible(s.chosen[id.name].version, s.chosen[id.name].exact, id.version),
        version_max(s.chosen[id.name].version, id.version) != s.chosen[id.name].version,
        s.chosen[id.name].state == StateView::Unresolved(i),
        0 <= i < s.requests.len(),
    ensures
        s.step() == Ok::<ResolverView, ConflictView>(
            ResolverView {
                top_level: s.top_level,
                linker: s.linker,
                hosts: s.hosts,
                chosen: s.chosen.insert(
                    id.name,
                    InfoView {
                        version: id.version,
                        exact: s.chosen[id.name].exact,
                        state: StateView::Unresolved(i),
                    },
                ),
                requests: s.requests.update(
                    i,
                    RequestView { id, exact: s.requests[i].exact, selected: s.requests[i].selected },
                ),
                pending: s.pending.take(s.pending.len() - 1),
                graph: s.graph,
            },
        ),
{
    assert(s.pending.drop_last() =~= s.pending.take(s.pending.len() - 1));
}

/// A package that is needed in a greater version than the one that was supplied, and is not in the graph
/// yet, is requested again, in the greater version, at the end of the list.
pub proof fn law_greater_need_requests_again(s: ResolverView, id: IdView, exact: bool)
    requires
        s.pending.len() > 0,
        id == s.pending[s.pending.len() - 1],
        s.chosen.contains_key(id.name),
        compatible(s.chosen[id.name].version, s.chosen[id.name].exact, id.version),
        version_max(s.chosen[id.name].version, id.version) != s.chosen[id.name].version,
        s.chosen[id.name].state is Resolved,
        exact == exists|i: int| 0 <= i < s.top_level.len() && (#[trigger] s.top_level[i]).name == id.name,
    ensures
        s.step() == Ok::<ResolverView, ConflictView>(
            ResolverView {
                top_level: s.top_level,
                linker: s.linker,
                hosts: s.hosts,
                chosen: s.chosen.insert(
                    id.name,
                    InfoView {
                        version: id.version,
                        exact,
                        state: StateView::Unresolved(s.requests.len() as int),
                    },
                ),
                requests: s.requests.push(RequestView { id, exact, selected: None }),
                pending: s.pending.take(s.pending.len() - 1),
                graph: s.graph,
            },
        ),
{
    lemma_top_level_by_name(s, id.name);
    assert(s.pending.drop_last() =~= s.pending.take(s.pending.len() - 1));
}

/// When a package in the graph is needed in a greater version, resolution begins again with the top-level
/// packages. The package is forgotten, and so is all that was not supplied; every other package that was
/// supplied is kept, with its version and its component.
pub proof fn law_greater_need_begins_again(s: ResolverView, id: IdView, name: NameView)
    requires
        s.pending.len() > 0,
        id == s.pending[s.pending.len() - 1],
        s.chosen.contains_key(id.name),
        compatible(s.chosen[id.name].version, s.chosen[id.name].exact, id.version),
        version_max(s.chosen[id.name].version, id.version) != s.chosen[id.name].version,
        s.chosen[id.name].state is InGraph,
    ensures
        s.step() is Ok,
        s.step()->Ok_0.top_level == s.top_level,
        s.step()->Ok_0.linker == s.linker,
        s.step()->Ok_0.hosts == s.hosts,
        s.step()->Ok_0.pending == s.top_level,
        s.step()->Ok_0.requests.len() == 0,
        s.step()->Ok_0.graph.dom() == Set::<NameView>::empty(),
        s.step()->Ok_0.chosen.contains_key(name) <==> name != id.name && s.chosen.contains_key(name) && !(
        s.chosen[name].state is Unresolved),
        name != id.name && s.chosen.contains_key(name) ==> {
            let before = s.chosen[name];
            let after = s.step()->Ok_0.chosen[name];
            &&& before.state matches StateView::Resolved(component) ==> after == (InfoView {
                version: before.version,
                exact: before.exact,
                state: StateView::Resolved(component),
            })
            &&& before.state matches StateView::InGraph(component) ==> after == (InfoView {
                version: before.version,
                exact: before.exact,
                state: StateView::Resolved(component),
            })
        },
{
    assert(s.step()->Ok_0.graph.dom() =~= Set::<NameView>::empty());
}

/// A package that is needed in no greater version than the noted one is passed over if it is requested or
/// in the graph.
pub proof fn law_satisfied_need_changes_nothing(s: ResolverView, id: IdView)
    requires
        s.pending.len() > 0,
        id == s.pending[s.pending.len() - 1],
        s.chosen.contains_key(id.name),
        compatible(s.chosen[id.name].version, s.chosen[id.name].exact, id.version),
        version_max(s.chosen[id.name].version, id.version) == s.chosen[id.name].version,
        !(s.chosen[id.name].state is Resolved),
    ensures
        s.step() == Ok::<ResolverView, ConflictView>(
            ResolverView {
                top_level: s.top_level,
                linker: s.linker,
                hosts: s.hosts,
                chosen: s.chosen,
                requests: s.requests,
                pending: s.pending.take(s.pending.len() - 1),
                graph: s.graph,
            },
        ),
{
    assert(s.pending.drop_last() =~= s.pending.take(s.pending.len() - 1));
}

/// A package that was supplied in a sufficient version, and whose imports the host satisfies as far as it
/// provides some version of them, is put into the graph, with an edge to each package from which it imports
/// an interface of which the host provides no version. Those packages become pending, in the versions that
/// the imports name. Nothing else changes.
pub proof fn law_supplied_package_enters_the_graph(s: ResolverView, id: IdView, component: ComponentView)
    requires
        s.pending.len() > 0,
        id == s.pending[s.pending.len() - 1],
        s.chosen.contains_key(id.name),
        compatible(s.chosen[id.name].version, s.chosen[id.name].exact, id.version),
        version_max(s.chosen[id.name].version, id.version) == s.chosen[id.name].version,
        s.chosen[id.name].state == StateView::Resolved(component),
        forall|k: int|
            0 <= k < component.imports.len() ==> !mismatched(s.hosts, #[trigger] component.imports[k]),
    ensures
        s.step() is Ok,
        s.step()->Ok_0.top_level == s.top_level,
        s.step()->Ok_0.linker == s.linker,
        s.step()->Ok_0.hosts == s.hosts,
        s.step()->Ok_0.requests == s.requests,
        s.step()->Ok_0.chosen == s.chosen.insert(
            id.name,
            InfoView {
                version: s.chosen[id.name].version,
                exact: s.chosen[id.name].exact,
                state: StateView::InGraph(component),
            },
        ),
        s.step()->Ok_0.pending == s.pending.take(s.pending.len() - 1) + needed(s.hosts, component.imports),
        s.step()->Ok_0.graph.dom() == s.graph.dom().insert(id.name),
        forall|name: NameView|
            name != id.name && s.graph.contains_key(name) ==> #[trigger] s.step()->Ok_0.graph[name]
                == s.graph[name],
        forall|other: NameView| #[trigger]
            s.step()->Ok_0.graph[id.name].contains(other) <==> exists|k: int|
                0 <= k < component.imports.len() && (#[trigger] component.imports[k]).package.name == other
                    && !s.hosts.contains_key(
                    (
                        component.imports[k].package.name.0,
                        component.imports[k].package.name.1,
                        component.imports[k].name,
                    ),
                ),
{
    law_last_unsatisfied_import_is_reported(s.hosts, component.imports);
    let depends = needed(s.hosts, component.imports);
    let names = id_names(depends);
    let t = s.step()->Ok_0;
    assert(s.pending.drop_last() =~= s.pending.take(s.pending.len() - 1));
    assert(t.graph.dom() =~= s.graph.dom().insert(id.name));
    lemma_needed(s.hosts, component.imports);
    assert forall|other: NameView| #[trigger] t.graph[id.name].contains(other) <==> exists|k: int|
        0 <= k < component.imports.len() && (#[trigger] component.imports[k]).package.name == other
            && !s.hosts.contains_key(
            (
                component.imports[k].package.name.0,
                component.imports[k].package.name.1,
                component.imports[k].name,
            ),
        ) by {
        if names.contains(other) {
            let r = names.index_of(other);
            assert(depends[r].name == other);
            assert(depends.contains(depends[r]));
            let k = choose|k: int|
                0 <= k < component.imports.len() && !s.hosts.contains_key(
                    (#[trigger] component.imports[k]).unversioned(),
                ) && component.imports[k].package == depends[r];
            assert(component.imports[k].package.name == other);
        }
        if exists|k: int|
            0 <= k < component.imports.len() && (#[trigger] component.imports[k]).package.name == other
                && !s.hosts.contains_key(
                (
                    component.imports[k].package.name.0,
                    component.imports[k].package.name.1,
                    component.imports[k].name,
                ),
            ) {
            let k = choose|k: int|
                0 <= k < component.imports.len() && (#[trigger] component.imports[k]).package.name == other
                    && !s.hosts.contains_key(
                    (
                        component.imports[k].package.name.0,
                        component.imports[k].package.name.1,
                        component.imports[k].name,
                    ),
                );
            assert(!s.hosts.contains_key(component.imports[k].unversioned()));
            assert(depends.contains(component.imports[k].package));
            let r = depends.index_of(component.imports[k].package);
            assert(names[r] == other);
        }
    }
}

/// A package that was supplied in a sufficient version, and of whose imports the host does not satisfy one
/// although it provides some version of it, is refused.
pub proof fn law_unsatisfied_host_import_is_refused(s: ResolverView, id: IdView, component: ComponentView, k: int)
    requires
        s.pending.len() > 0,
        id == s.pending[s.pending.len() - 1],
        s.chosen.contains_key(id.name),
        compatible(s.chosen[id.name].version, s.chosen[id.name].exact, id.version),
        version_max(s.chosen[id.name].version, id.version) == s.chosen[id.name].version,
        s.chosen[id.name].state == StateView::Resolved(component),
        0 <= k < component.imports.len(),
        mismatched(s.hosts, component.imports[k]),
    ensures
        s.step() is Err,
        last_mismatch(s.hosts, component.imports) == Some(s.step()->Err_0),
{
    law_last_unsatisfied_import_is_reported(s.hosts, component.imports);
}

/// A conflict is reported only if there is one: the package that is looked at is needed in a version that
/// conflicts with the noted one, or its component imports an interface of which the host provides a version
/// with another major or minor number, a smaller one, or one without any number where one is named.
pub proof fn law_conflicts_are_real(s: ResolverView, id: IdView)
    requires
        s.pending.len() > 0,
        id == s.pending[s.pending.len() - 1],
        s.step() is Err,
    ensures
        s.chosen.contains_key(id.name),
        ({
            ||| {
                &&& s.step()->Err_0.name == id.name
                &&& s.step()->Err_0.first == s.chosen[id.name].version
                &&& s.step()->Err_0.second == id.version
                &&& s.chosen[id.name].exact ==> s.chosen[id.name].version != id.version
                &&& !s.chosen[id.name].exact ==> s.chosen[id.name].version is Some && id.version is Some && (
                s.chosen[id.name].version->0.major != id.version->0.major || s.chosen[id.name].version->0.minor
                    != id.version->0.minor)
            }
            ||| {
                &&& s.chosen[id.name].state is Resolved
                &&& s.step()->Err_0.first is Some
                &&& s.step()->Err_0.first != s.step()->Err_0.second
                &&& !version_matches(s.step()->Err_0.first, s.step()->Err_0.second)
                &&& exists|k: int|
                    #![trigger s.chosen[id.name].state->Resolved_0.imports[k]]
                    {
                        let imports = s.chosen[id.name].state->Resolved_0.imports;
                        &&& 0 <= k < imports.len()
                        &&& imports[k].package.name == s.step()->Err_0.name
                        &&& imports[k].package.version == s.step()->Err_0.first
                        &&& s.hosts.contains_key(
                            (imports[k].package.name.0, imports[k].package.name.1, imports[k].name),
                        )
                        &&& s.hosts[(
                            imports[k].package.name.0,
                            imports[k].package.name.1,
                            imports[k].name,
                        )].package.version == s.step()->Err_0.second
                    }
            }
        }),
{
    let info = s.chosen[id.name];
    if compatible(info.version, info.exact, id.version) {
        let imports = info.state->Resolved_0.imports;
        law_last_unsatisfied_import_is_reported(s.hosts, imports);
        let conflict = last_mismatch(s.hosts, imports)->0;
        let k = choose|k: int|
            {
                &&& 0 <= k < imports.len()
                &&& mismatched(s.hosts, #[trigger] imports[k])
                &&& conflict.name == imports[k].package.name
                &&& conflict.first == imports[k].package.version
                &&& conflict.second == s.hosts[(
                    imports[k].package.name.0,
                    imports[k].package.name.1,
                    imports[k].name,
                )].package.version
            };
        assert(s.hosts.contains_key(imports[k].unversioned()));
        assert(imports[k].package.name == s.step()->Err_0.name);
    }
}

/// Resolution takes one step after the other, as long as a package is pending and there is no conflict, and
/// has come to an end when it takes none any more.
pub proof fn law_resolution_goes_step_by_step(s: ResolverView, n: nat)
    ensures
        s.run(0) == Ok::<ResolverView, ConflictView>(s),
        s.run(n) is Ok && s.run(n)->Ok_0.pending.len() > 0 ==> s.run(n + 1) == s.run(n)->Ok_0.step() && !s.ends(n),
        s.run(n) is Ok && s.run(n)->Ok_0.pending.len() == 0 ==> s.run(n + 1) == s.run(n) && s.ends(n),
        s.run(n) is Err ==> s.run(n + 1) == s.run(n) && s.ends(n),
{
}

/// A conflict that ends resolution is the one that its last step met.
pub proof fn law_reported_conflict_comes_of_a_step(s: ResolverView, n: nat)
    requires
        s.run(n) is Err,
    ensures
        exists|m: nat|
            m < n && (#[trigger] s.run(m)) is Ok && s.run(m)->Ok_0.pending.len() > 0 && s.run(m)->Ok_0.step()
                == s.run(n),
    decreases n,
{
    if n > 0 {
        let m = (n - 1) as nat;
        if s.run(m) is Err {
            law_reported_conflict_comes_of_a_step(s, m);
            let l = choose|l: nat|
                l < m && (#[trigger] s.run(l)) is Ok && s.run(l)->Ok_0.pending.len() > 0 && s.run(l)->Ok_0.step()
                    == s.run(m);
            assert(s.run(l) is Ok);
        } else {
            assert(s.run(m) is Ok);
        }
    }
}

/// When resolution goes on, the packages that were supplied are noted with the versions and the components
/// that were supplied, and become pending in the order of their requests; the requests for which none was
/// supplied stay, in their order; and all else stays as it was.
pub proof fn law_supplied_packages_are_taken_over(s: ResolverView, k: nat)
    requires
        k < s.requests.len(),
    ensures
        s.accepted(0) == (ResolverView {
            top_level: s.top_level,
            linker: s.linker,
            hosts: s.hosts,
            chosen: s.chosen,
            requests: Seq::<RequestView>::empty(),
            pending: s.pending,
            graph: s.graph,
        }),
        s.requests[k as int].selected matches Some((id, component)) ==> s.accepted(k + 1) == (ResolverView {
            top_level: s.accepted(k).top_level,
            linker: s.accepted(k).linker,
            hosts: s.accepted(k).hosts,
            chosen: s.accepted(k).chosen.insert(
                s.requests[k as int].id.name,
                InfoView {
                    version: id.version,
                    exact: s.accepted(k).chosen[s.requests[k as int].id.name].exact,
                    state: StateView::Resolved(component),
                },
            ),
            requests: s.accepted(k).requests,
            pending: s.accepted(k).pending.push(id),
            graph: s.accepted(k).graph,
        }),
        s.requests[k as int].selected is None ==> s.accepted(k + 1) == (ResolverView {
            top_level: s.accepted(k).top_level,
            linker: s.accepted(k).linker,
            hosts: s.accepted(k).hosts,
            chosen: s.accepted(k).chosen.insert(
                s.requests[k as int].id.name,
                InfoView {
                    version: s.accepted(k).chosen[s.requests[k as int].id.name].version,
                    exact: s.accepted(k).chosen[s.requests[k as int].id.name].exact,
                    state: StateView::Unresolved(s.accepted(k).requests.len() as int),
                },
            ),
            requests: s.accepted(k).requests.push(s.requests[k as int]),
            pending: s.accepted(k).pending,
            graph: s.accepted(k).graph,
        }),
        s.start() == s.accepted(s.requests.len()),
{
}

/// When nothing is pending, the version that is noted of a package, which is requested or in the graph,
/// satisfies every package in the graph that imports from it: it has the imported major and minor number
/// and at least the imported patch number.
pub proof fn law_noted_version_satisfies_every_importer(s: ResolverView, name: NameView, k: int)
    requires
        s.inv(),
        s.pending.len() == 0,
        s.chosen.contains_key(name),
        s.chosen[name].state is InGraph,
        0 <= k < s.chosen[name].state->InGraph_0.imports.len(),
        !s.hosts.contains_key(
            (
                s.chosen[name].state->InGraph_0.imports[k].package.name.0,
                s.chosen[name].state->InGraph_0.imports[k].package.name.1,
                s.chosen[name].state->InGraph_0.imports[k].name,
            ),
        ),
    ensures
        ({
            let need = s.chosen[name].state->InGraph_0.imports[k].package;
            &&& s.chosen.contains_key(need.name)
            &&& !(s.chosen[need.name].state is Resolved)
            &&& version_matches(need.version, s.chosen[need.name].version)
            &&& need.version matches Some(a) ==> {
                &&& s.chosen[need.name].version matches Some(b)
                &&& a.major == b.major
                &&& a.minor == b.minor
                &&& a.patch <= b.patch
            }
        }),
{
    let component = s.chosen[name].state->InGraph_0;
    let import = component.imports[k];
    let depends = needed(s.hosts, component.imports);
    assert(s.graph.contains_key(name));
    assert(s.node_ok(name, component));
    lemma_needed(s.hosts, component.imports);
    assert(!s.hosts.contains_key(import.unversioned()));
    assert(depends.contains(import.package));
    let r = depends.index_of(import.package);
    assert(s.settled(depends[r]));
    assert(id_names(s.pending).len() == 0);
    if import.package.version is Some {
        law_match_is_on_the_same_line(
            import.package.version->0,
            s.chosen[import.package.name].version->0,
        );
    }
}

/// When nothing is pending, a package that is requested is requested in the version that is noted of it,
/// and exactly in that version if it is top-level.
pub proof fn law_requests_name_the_noted_version(s: ResolverView, i: int)
    requires
        s.inv(),
        0 <= i < s.requests.len(),
    ensures
        s.chosen.contains_key(s.requests[i].id.name),
        s.chosen[s.requests[i].id.name].version == s.requests[i].id.version,
        s.requests[i].exact <==> exists|j: int|
            0 <= j < s.top_level.len() && (#[trigger] s.top_level[j]).name == s.requests[i].id.name,
        forall|j: int|
            0 <= j < s.requests.len() && j != i ==> (#[trigger] s.requests[j]).id.name != s.requests[i].id.name,
{
    assert(s.request_ok(s.requests[i]));
    assert(s.info_ok(s.requests[i].id.name));
    lemma_top_level_by_name(s, s.requests[i].id.name);
    assert forall|j: int| 0 <= j < s.requests.len() && j != i implies (#[trigger] s.requests[j]).id.name
        != s.requests[i].id.name by {
        if i < j {
            assert(s.requests[i].id.name != s.requests[j].id.name);
        } else {
            assert(s.requests[j].id.name != s.requests[i].id.name);
        }
    }
}

/// An identifier and a component were supplied together exactly if a package of that name is noted in that
/// version with that component, or they were selected together for a request.
pub proof fn law_supplied_pairs_are_noted_or_selected(s: ResolverView, id: IdView, component: ComponentView)
    ensures
        s.supplied_pair(id, component) <==> (s.chosen.contains_key(id.name) && s.chosen[id.name].version
            == id.version && (s.chosen[id.name].state == StateView::Resolved(component)
            || s.chosen[id.name].state == StateView::InGraph(component))) || (exists|i: int|
            0 <= i < s.requests.len() && (#[trigger] s.requests[i]).selected == Some((id, component))),
{
}

/// The packages that are known are those that are top-level, noted or pending, and those of whose
/// interfaces a component that was supplied imports one. Resolution is within its limits exactly if a flag
/// for each two of them can be tabulated.
pub proof fn law_limits_go_by_the_known_packages(s: ResolverView, name: NameView)
    ensures
        s.known_names().contains(name) <==> {
            ||| exists|i: int| 0 <= i < s.top_level.len() && (#[trigger] s.top_level[i]).name == name
            ||| s.chosen.contains_key(name)
            ||| exists|i: int| 0 <= i < s.pending.len() && (#[trigger] s.pending[i]).name == name
            ||| exists|other: NameView, k: int|
                #![trigger s.chosen[other].state->Resolved_0.imports[k]]
                s.chosen.contains_key(other) && s.chosen[other].state is Resolved && 0 <= k
                    < s.chosen[other].state->Resolved_0.imports.len()
                    && s.chosen[other].state->Resolved_0.imports[k].package.name == name
            ||| exists|other: NameView, k: int|
                #![trigger s.chosen[other].state->InGraph_0.imports[k]]
                s.chosen.contains_key(other) && s.chosen[other].state is InGraph && 0 <= k
                    < s.chosen[other].state->InGraph_0.imports.len()
                    && s.chosen[other].state->InGraph_0.imports[k].package.name == name
            ||| exists|i: int, k: int|
                #![trigger s.requests[i].selected->Some_0.1.imports[k]]
                0 <= i < s.requests.len() && s.requests[i].selected is Some && 0 <= k
                    < s.requests[i].selected->Some_0.1.imports.len()
                    && s.requests[i].selected->Some_0.1.imports[k].package.name == name
        },
        s.limited() <==> s.known_names().finite() && 8 * (s.known_names().len() * s.known_names().len())
            <= usize::MAX,
{
    lemma_top_level_by_name(s, name);
    let names = id_names(s.pending);
    if names.contains(name) {
        let i = names.index_of(name);
        assert(s.pending[i].name == name);
    }
    if exists|i: int| 0 <= i < s.pending.len() && (#[trigger] s.pending[i]).name == name {
        let i = choose|i: int| 0 <= i < s.pending.len() && (#[trigger] s.pending[i]).name == name;
        assert(names[i] == name);
    }
    if exists|other: NameView| #[trigger]
        s.chosen.contains_key(other) && s.chosen[other].state.component() is Some && imports_name(
            s.chosen[other].state.component()->0,
            name,
        ) {
        let other = choose|other: NameView| #[trigger]
            s.chosen.contains_key(other) && s.chosen[other].state.component() is Some && imports_name(
                s.chosen[other].state.component()->0,
                name,
            );
        let imports = s.chosen[other].state.component()->0.imports;
        let k = choose|k: int| 0 <= k < imports.len() && (#[trigger] imports[k]).package.name == name;
        if s.chosen[other].state is Resolved {
            assert(s.chosen[other].state->Resolved_0.imports[k].package.name == name);
        } else {
            assert(s.chosen[other].state->InGraph_0.imports[k].package.name == name);
        }
    }
    if exists|i: int|
        0 <= i < s.requests.len() && (#[trigger] s.requests[i]).selected is Some && imports_name(
            s.requests[i].selected->Some_0.1,
            name,
        ) {
        let i = choose|i: int|
            0 <= i < s.requests.len() && (#[trigger] s.requests[i]).selected is Some && imports_name(
                s.requests[i].selected->Some_0.1,
                name,
            );
        let imports = s.requests[i].selected->Some_0.1.imports;
        let k = choose|k: int| 0 <= k < imports.len() && (#[trigger] imports[k]).package.name == name;
        assert(s.requests[i].selected->Some_0.1.imports[k].package.name == name);
    }
}

/// A resolver that has looked at nothing has its top-level packages pending, has noted and requested
/// nothing, and its graph is empty; what it requests are the identifiers of its requests.
pub proof fn law_fresh_resolver_has_done_nothing(s: ResolverView)
    ensures
        s.fresh() ==> s.pending == s.top_level && s.requests.len() == 0 && s.chosen.dom()
            == Set::<NameView>::empty() && s.graph.dom() == Set::<NameView>::empty(),
        s.pending == s.top_level && s.requests.len() == 0 && s.chosen.dom() == Set::<NameView>::empty()
            && s.graph.dom() == Set::<NameView>::empty() && (forall|i: int, j: int|
            0 <= i < j < s.top_level.len() ==> (#[trigger] s.top_level[i]).name != (
            #[trigger] s.top_level[j]).name) ==> s.fresh(),
        s.request_ids().len() == s.requests.len(),
        forall|i: int| 0 <= i < s.requests.len() ==> #[trigger] s.request_ids()[i] == s.requests[i].id,
{
    if s.pending == s.top_level && s.requests.len() == 0 && s.chosen.dom() == Set::<NameView>::empty()
        && s.graph.dom() == Set::<NameView>::empty() && (forall|i: int, j: int|
        0 <= i < j < s.top_level.len() ==> (#[trigger] s.top_level[i]).name != (#[trigger] s.top_level[j]).name) {
        let names = id_names(s.top_level);
        assert forall|i: int, j: int| 0 <= i < names.len() && 0 <= j < names.len() && i != j implies names[i]
            != names[j] by {
            assert(names[i] == s.top_level[i].name && names[j] == s.top_level[j].name);
            if i < j {
                assert(s.top_level[i].name != s.top_level[j].name);
            } else {
                assert(s.top_level[j].name != s.top_level[i].name);
            }
        }
        assert(s.chosen =~= Map::<NameView, InfoView>::empty());
        assert(s.requests =~= Seq::<RequestView>::empty());
        assert(s.graph =~= Map::<NameView, Set<NameView>>::empty());
    }
    if s.fresh() {
        assert(s.chosen.dom() =~= Set::<NameView>::empty());
        assert(s.graph.dom() =~= Set::<NameView>::empty());
    }
}

} // verus!
