//! What resolution does, step by step, and what every step keeps.

use crate::component::ComponentView;
use crate::hosts::{hosts_of, lemma_needed, needed};
use crate::identifier::{IdView, InterfaceView, NameView, UnversionedView};
use crate::linker::LinkerView;
use crate::version::{build_precedes, prerelease_precedes};
use crate::version::{version_compared, version_matches, version_order};
use crate::version::{version_supersedes, version_valid, VersionView};
use std::cmp::Ordering;
use vstd::prelude::*;

verus! {

/// A package's current standing in the component graph.
pub enum StateView {
    /// The package has a pending resolution request with the given index.
    Unresolved(int),
    /// The package has been resolved to a component.
    Resolved(ComponentView),
    /// The package has been resolved to a component and is in the graph.
    InGraph(ComponentView),
}

impl StateView {
    /// The component to which the package has been resolved, if any.
    pub open spec fn component(self) -> Option<ComponentView> {
        match self {
            StateView::Unresolved(_) => None,
            StateView::Resolved(c) => Some(c),
            StateView::InGraph(c) => Some(c),
        }
    }
}

/// What is known of a package during resolution.
#[verifier::ext_equal]
pub struct InfoView {
    /// The maximum version of the package requested or loaded so far.
    pub version: Option<VersionView>,
    /// Whether any candidate packages must match in version exactly.
    pub exact: bool,
    /// Where the package stands.
    pub state: StateView,
}

/// A package that must be supplied for resolution to continue.
#[verifier::ext_equal]
pub struct RequestView {
    /// The ID of the package.
    pub id: IdView,
    /// Whether any candidate packages must match the version exactly.
    pub exact: bool,
    /// The selected package, if any.
    pub selected: Option<(IdView, ComponentView)>,
}

impl RequestView {
    /// Whether a package with the given ID may be supplied.
    pub open spec fn accepts(self, id: IdView) -> bool {
        &&& id.name == self.id.name
        &&& if self.exact {
            id.version == self.id.version
        } else {
            version_matches(self.id.version, id.version)
        }
    }

    /// Whether the selected package, if there is one, may be supplied, and satisfies every request
    /// that the requested version would satisfy.
    pub open spec fn well_selected(self) -> bool {
        self.selected matches Some((id, component)) ==> {
            &&& self.accepts(id)
            &&& version_supersedes(id.version, self.id.version)
            &&& id.valid()
            &&& component.valid()
        }
    }
}

/// The state of a resolver.
#[verifier::ext_equal]
pub struct ResolverView {
    /// The top-level packages from which all dependencies originate.
    pub top_level: Seq<IdView>,
    /// The linker that will be used to resolve host imports.
    pub linker: LinkerView,
    /// The interfaces that the host provides.
    pub hosts: Map<UnversionedView, InterfaceView>,
    /// The current versions and components of packages.
    pub chosen: Map<NameView, InfoView>,
    /// The packages that the user has yet to supply.
    pub requests: Seq<RequestView>,
    /// The packages that are yet to be looked at, the next one last.
    pub pending: Seq<IdView>,
    /// The packages whose dependencies are known, each with their names.
    pub graph: Map<NameView, Set<NameView>>,
}

/// The same package was required multiple times with conflicting versions.
pub struct ConflictView {
    pub name: NameView,
    pub first: Option<VersionView>,
    pub second: Option<VersionView>,
}

/// The greater of two versions.
pub open spec fn version_max(a: Option<VersionView>, b: Option<VersionView>) -> Option<VersionView> {
    if version_order(a, b) == Ordering::Less {
        b
    } else {
        a
    }
}

/// Whether a version may be requested of a package that stands at version `current`. Where the
/// version must match exactly, nothing else may; otherwise they may differ from the patch number
/// on, and a missing version goes with everything.
pub open spec fn compatible(
    current: Option<VersionView>,
    exact: bool,
    requested: Option<VersionView>,
) -> bool {
    if exact {
        requested == current
    } else {
        match (current, requested) {
            (Some(a), Some(b)) => a.same_line(b),
            _ => true,
        }
    }
}

/// The names of a row of package identifiers.
pub open spec fn id_names(ids: Seq<IdView>) -> Seq<NameView> {
    ids.map_values(|id: IdView| id.name)
}

/// Whether the host provides an interface, but not in a version that satisfies the import.
pub open spec fn mismatched(hosts: Map<UnversionedView, InterfaceView>, import: InterfaceView) -> bool {
    hosts.contains_key(import.unversioned()) && !version_matches(
        import.package.version,
        hosts[import.unversioned()].package.version,
    )
}

/// The conflict of the last import that the host provides in a version that does not satisfy it.
pub open spec fn last_mismatch(
    hosts: Map<UnversionedView, InterfaceView>,
    imports: Seq<InterfaceView>,
) -> Option<ConflictView>
    decreases imports.len(),
{
    if imports.len() == 0 {
        None
    } else if mismatched(hosts, imports.last()) {
        Some(
            ConflictView {
                name: imports.last().package.name,
                first: imports.last().package.version,
                second: hosts[imports.last().unversioned()].package.version,
            },
        )
    } else {
        last_mismatch(hosts, imports.drop_last())
    }
}

/// The names of identifiers are their names, in their order.
pub proof fn law_names_are_those_of_the_identifiers(ids: Seq<IdView>)
    ensures
        id_names(ids).len() == ids.len(),
        forall|i: int| 0 <= i < ids.len() ==> #[trigger] id_names(ids)[i] == ids[i].name,
{
}

/// Versions of which none must be matched exactly conflict exactly if their major or their minor numbers
/// differ; a missing version conflicts with none.
pub proof fn law_versions_conflict_across_lines(a: VersionView, b: VersionView, other: Option<VersionView>)
    ensures
        compatible(Some(a), false, Some(b)) <==> a.major == b.major && a.minor == b.minor,
        compatible(None, false, other),
        compatible(other, false, None),
{
}

/// Where a version must be matched exactly, every other version conflicts with it, also a missing one.
pub proof fn law_exact_versions_conflict_with_others(a: Option<VersionView>, b: Option<VersionView>)
    ensures
        compatible(a, true, b) <==> a == b,
{
}

/// Merging two versions takes one of them, whole. It takes the one with the greater number where their
/// numbers differ, then goes by pre-release and build metadata, and takes a missing version for the least.
pub proof fn law_merging_takes_the_greater_version(a: VersionView, b: VersionView, other: Option<VersionView>)
    ensures
        version_max(None, other) == other,
        version_max(other, None) == other,
        a.major < b.major ==> version_max(Some(a), Some(b)) == Some(b) && version_max(Some(b), Some(a)) == Some(b),
        a.major == b.major && a.minor < b.minor ==> version_max(Some(a), Some(b)) == Some(b) && version_max(
            Some(b),
            Some(a),
        ) == Some(b),
        a.major == b.major && a.minor == b.minor && a.patch < b.patch ==> version_max(Some(a), Some(b)) == Some(b)
            && version_max(Some(b), Some(a)) == Some(b),
        a.major == b.major && a.minor == b.minor && a.patch == b.patch && a.pre != b.pre ==> version_max(
            Some(a),
            Some(b),
        ) == (if prerelease_precedes(a.pre, b.pre) { Some(b) } else { Some(a) }),
        a.major == b.major && a.minor == b.minor && a.patch == b.patch && a.pre == b.pre && a.build != b.build
            ==> version_max(Some(a), Some(b)) == (if build_precedes(a.build, b.build) {
            Some(b)
        } else {
            Some(a)
        }),
        version_max(other, other) == other,
{
}

/// Merging two versions of one line gives a version whose patch number is the greater of the two, and
/// which satisfies a request for the version with the smaller one.
pub proof fn law_merged_version_satisfies_both(a: VersionView, b: VersionView)
    requires
        a.major == b.major,
        a.minor == b.minor,
        a.patch != b.patch,
    ensures
        version_max(Some(a), Some(b)) is Some,
        version_max(Some(a), Some(b))->0.patch >= a.patch,
        version_max(Some(a), Some(b))->0.patch >= b.patch,
        version_matches(Some(a), version_max(Some(a), Some(b))),
        version_matches(Some(b), version_max(Some(a), Some(b))),
{
}

/// A request that need not be matched exactly accepts a package only if it has the requested name and, if
/// a version is requested, a version with the requested major and minor number that is not smaller; and it
/// accepts every such package.
pub proof fn law_request_accepts_compatible_versions(request: RequestView, id: IdView, a: VersionView, b: VersionView)
    requires
        !request.exact,
    ensures
        id.name != request.id.name ==> !request.accepts(id),
        id.name == request.id.name && request.id.version is None ==> request.accepts(id),
        request.id.version is Some && id.version is None ==> !request.accepts(id),
        request.id.version == Some(a) && id.version == Some(b) && (a.major != b.major || a.minor != b.minor || a.patch
            > b.patch) ==> !request.accepts(id),
        id.name == request.id.name && request.id.version == Some(a) && id.version == Some(b) && a.major == b.major
            && a.minor == b.minor && a.patch < b.patch ==> request.accepts(id),
        id.name == request.id.name && request.id.version == id.version ==> request.accepts(id),
        id.name == request.id.name && request.id.version == Some(a) && id.version == Some(b) && a.major == b.major
            && a.minor == b.minor && a.patch == b.patch && a.pre != b.pre ==> (request.accepts(id)
            <==> prerelease_precedes(a.pre, b.pre)),
        id.name == request.id.name && request.id.version == Some(a) && id.version == Some(b) && a.major == b.major
            && a.minor == b.minor && a.patch == b.patch && a.pre == b.pre && a.build != b.build ==> (
        request.accepts(id) <==> build_precedes(a.build, b.build)),
{
}

/// A request that must be matched exactly accepts the package with the requested name and version, and no
/// other.
pub proof fn law_exact_request_accepts_one_version(request: RequestView, id: IdView)
    requires
        request.exact,
    ensures
        request.accepts(id) <==> id.name == request.id.name && id.version == request.id.version,
{
}

/// The host satisfies an import of an interface of which it provides some version exactly if the import
/// names no version, or if the host's version has the imported major and minor number and is not smaller.
/// It stands in nobody's way where it provides no version of the interface.
pub proof fn law_host_satisfies_compatible_imports(
    hosts: Map<UnversionedView, InterfaceView>,
    import: InterfaceView,
    a: VersionView,
    b: VersionView,
)
    ensures
        !hosts.contains_key((import.package.name.0, import.package.name.1, import.name)) ==> !mismatched(
            hosts,
            import,
        ),
        import.package.version is None ==> !mismatched(hosts, import),
        hosts.contains_key((import.package.name.0, import.package.name.1, import.name)) && import.package.version
            == Some(a) ==> {
            let provided = hosts[(
                import.package.name.0,
                import.package.name.1,
                import.name,
            )].package.version;
            &&& provided is None ==> mismatched(hosts, import)
            &&& provided == Some(b) && (a.major != b.major || a.minor != b.minor || a.patch > b.patch)
                ==> mismatched(hosts, import)
            &&& provided == Some(b) && a.major == b.major && a.minor == b.minor && a.patch < b.patch
                ==> !mismatched(hosts, import)
            &&& provided == Some(a) ==> !mismatched(hosts, import)
            &&& provided == Some(b) && a.major == b.major && a.minor == b.minor && a.patch == b.patch && a.pre
                != b.pre ==> (mismatched(hosts, import) <==> !prerelease_precedes(a.pre, b.pre))
            &&& provided == Some(b) && a.major == b.major && a.minor == b.minor && a.patch == b.patch && a.pre
                == b.pre && a.build != b.build ==> (mismatched(hosts, import) <==> !build_precedes(
                a.build,
                b.build,
            ))
        },
{
}

/// A conflict with the host is reported exactly if some import is not satisfied, and what is reported is
/// the last such import: its package, the version that it names, and the version that the host provides.
pub proof fn law_last_unsatisfied_import_is_reported(
    hosts: Map<UnversionedView, InterfaceView>,
    imports: Seq<InterfaceView>,
)
    ensures
        last_mismatch(hosts, imports) is None <==> forall|k: int|
            0 <= k < imports.len() ==> !mismatched(hosts, #[trigger] imports[k]),
        last_mismatch(hosts, imports) matches Some(conflict) ==> exists|k: int|
            {
                &&& 0 <= k < imports.len()
                &&& mismatched(hosts, #[trigger] imports[k])
                &&& conflict.name == imports[k].package.name
                &&& conflict.first == imports[k].package.version
                &&& conflict.second == hosts[(
                    imports[k].package.name.0,
                    imports[k].package.name.1,
                    imports[k].name,
                )].package.version
                &&& forall|l: int| k < l < imports.len() ==> !mismatched(hosts, #[trigger] imports[l])
            },
    decreases imports.len(),
{
    if imports.len() > 0 {
        let shorter = imports.drop_last();
        let last = imports.len() - 1;
        law_last_unsatisfied_import_is_reported(hosts, shorter);
        assert forall|k: int| 0 <= k < last implies shorter[k] == #[trigger] imports[k] by {}
        if mismatched(hosts, imports.last()) {
            assert(imports[last] == imports.last());
        } else {
            if last_mismatch(hosts, shorter) is None {
                assert forall|k: int| 0 <= k < imports.len() implies !mismatched(hosts, #[trigger] imports[k]) by {
                    if k < last {
                        assert(!mismatched(hosts, shorter[k]));
                    }
                }
            } else {
                let conflict = last_mismatch(hosts, shorter)->0;
                let k = choose|k: int|
                    {
                        &&& 0 <= k < shorter.len()
                        &&& mismatched(hosts, #[trigger] shorter[k])
                        &&& conflict.name == shorter[k].package.name
                        &&& conflict.first == shorter[k].package.version
                        &&& conflict.second == hosts[(
                            shorter[k].package.name.0,
                            shorter[k].package.name.1,
                            shorter[k].name,
                        )].package.version
                        &&& forall|l: int| k < l < shorter.len() ==> !mismatched(hosts, #[trigger] shorter[l])
                    };
                assert(mismatched(hosts, imports[k]));
                assert forall|l: int| k < l < imports.len() implies !mismatched(hosts, #[trigger] imports[l]) by {
                    if l < last {
                        assert(!mismatched(hosts, shorter[l]));
                    }
                }
            }
        }
    }
}

impl ResolverView {
    /// Whether a package is top-level.
    pub open spec fn is_top_level(self, name: NameView) -> bool {
        id_names(self.top_level).contains(name)
    }

    /// The state with a request for a package added, and the package noted as requested.
    pub open spec fn requested(self, id: IdView) -> Self {
        let exact = self.is_top_level(id.name);
        ResolverView {
            chosen: self.chosen.insert(
                id.name,
                InfoView {
                    version: id.version,
                    exact,
                    state: StateView::Unresolved(self.requests.len() as int),
                },
            ),
            requests: self.requests.push(RequestView { id, exact, selected: None }),
            ..self
        }
    }

    /// The state after a version was raised for which packages in the graph may have been chosen:
    /// the graph and the requests are dropped, the packages that were supplied stay, and the
    /// top-level packages are looked at again.
    pub open spec fn reset(self) -> Self {
        ResolverView {
            chosen: Map::new(
                |name: NameView|
                    self.chosen.contains_key(name) && self.chosen[name].state.component() is Some,
                |name: NameView|
                    InfoView {
                        state: StateView::Resolved(self.chosen[name].state.component()->0),
                        ..self.chosen[name]
                    },
            ),
            requests: Seq::empty(),
            pending: self.top_level,
            graph: Map::empty(),
            ..self
        }
    }

    /// The state with a package noted as being in the graph, and the packages that it needs listed
    /// to be looked at.
    pub open spec fn linked(self, name: NameView, component: ComponentView) -> Self {
        let depends = needed(self.hosts, component.imports);
        ResolverView {
            chosen: self.chosen.insert(
                name,
                InfoView { state: StateView::InGraph(component), ..self.chosen[name] },
            ),
            pending: self.pending + depends,
            graph: self.graph.insert(name, id_names(depends).to_set()),
            ..self
        }
    }

    /// The state after a version of a package that was noted before was raised to that of `id`. A
    /// request is raised, and a component that was supplied is dropped, so that the package is
    /// requested anew: at once, or when it is met again if packages in the graph may rest on it.
    pub open spec fn raised(self, id: IdView) -> Self {
        let info = InfoView { version: id.version, ..self.chosen[id.name] };
        match info.state {
            StateView::Unresolved(i) => ResolverView {
                chosen: self.chosen.insert(id.name, info),
                requests: self.requests.update(i, RequestView { id, ..self.requests[i] }),
                ..self
            },
            StateView::Resolved(_) => self.requested(id),
            StateView::InGraph(_) => (ResolverView {
                chosen: self.chosen.remove(id.name),
                ..self
            }).reset(),
        }
    }

    /// What comes of looking at the next pending package: the next state, or a conflict.
    pub open spec fn step(self) -> Result<Self, ConflictView> {
        let id = self.pending.last();
        let rest = ResolverView { pending: self.pending.drop_last(), ..self };
        if !self.chosen.contains_key(id.name) {
            Ok(rest.requested(id))
        } else {
            let info = self.chosen[id.name];
            if !compatible(info.version, info.exact, id.version) {
                Err(ConflictView { name: id.name, first: info.version, second: id.version })
            } else if version_max(info.version, id.version) != info.version {
                Ok(rest.raised(id))
            } else {
                match info.state {
                    StateView::Resolved(component) => match last_mismatch(
                        self.hosts,
                        component.imports,
                    ) {
                        Some(conflict) => Err(conflict),
                        None => Ok(rest.linked(id.name, component)),
                    },
                    _ => Ok(rest),
                }
            }
        }
    }

    /// What comes of at most `n` steps, taken as long as there are pending packages and no
    /// conflict.
    pub open spec fn run(self, n: nat) -> Result<Self, ConflictView>
        decreases n,
    {
        if n == 0 {
            Ok(self)
        } else {
            match self.run((n - 1) as nat) {
                Ok(state) => if state.pending.len() > 0 {
                    state.step()
                } else {
                    Ok(state)
                },
                Err(conflict) => Err(conflict),
            }
        }
    }

    /// Whether `n` steps lead to an end: no package is pending, or there is a conflict.
    pub open spec fn ends(self, n: nat) -> bool {
        match self.run(n) {
            Ok(state) => state.pending.len() == 0,
            Err(_) => true,
        }
    }

    /// The state after the first `k` requests were looked at for packages that were supplied. Those
    /// become pending with the versions that were supplied; the other requests are kept.
    pub open spec fn accepted(self, k: nat) -> Self
        decreases k,
    {
        if k == 0 {
            ResolverView { requests: Seq::empty(), ..self }
        } else {
            let before = self.accepted((k - 1) as nat);
            let request = self.requests[k - 1];
            let info = before.chosen[request.id.name];
            match request.selected {
                Some((id, component)) => ResolverView {
                    chosen: before.chosen.insert(
                        request.id.name,
                        InfoView {
                            version: id.version,
                            state: StateView::Resolved(component),
                            ..info
                        },
                    ),
                    pending: before.pending.push(id),
                    ..before
                },
                None => ResolverView {
                    chosen: before.chosen.insert(
                        request.id.name,
                        InfoView {
                            state: StateView::Unresolved(before.requests.len() as int),
                            ..info
                        },
                    ),
                    requests: before.requests.push(request),
                    ..before
                },
            }
        }
    }

    /// The state from which resolution goes on, after the packages that were supplied have been
    /// taken over.
    pub open spec fn start(self) -> Self {
        self.accepted(self.requests.len())
    }
}

/// Resolution has one end: however many steps lead to an end, it is the same.
pub proof fn law_run_is_deterministic(state: ResolverView, m: nat, n: nat)
    requires
        state.ends(m),
        state.ends(n),
    ensures
        state.run(m) == state.run(n),
    decreases m + n,
{
    if m < n {
        lemma_run_stays(state, m, n);
    } else {
        lemma_run_stays(state, n, m);
    }
}

/// Once resolution has come to an end it stays there.
proof fn lemma_run_stays(state: ResolverView, m: nat, n: nat)
    requires
        state.ends(m),
        m <= n,
    ensures
        state.run(n) == state.run(m),
    decreases n,
{
    if m < n {
        lemma_run_stays(state, m, (n - 1) as nat);
    }
}

impl ResolverView {
    /// Whether nothing has been looked at yet: the top-level packages are pending, each once.
    pub open spec fn fresh(self) -> bool {
        &&& id_names(self.top_level).no_duplicates()
        &&& self.pending == self.top_level
        &&& self.chosen == Map::<NameView, InfoView>::empty()
        &&& self.requests == Seq::<RequestView>::empty()
        &&& self.graph == Map::<NameView, Set<NameView>>::empty()
    }

    /// The identifiers of the packages that are requested.
    pub open spec fn request_ids(self) -> Seq<IdView> {
        self.requests.map_values(|request: RequestView| request.id)
    }
}

/// What the first steps make of a resolver that has looked at nothing: each requests one more top-level
/// package, the last one first.
proof fn lemma_first_steps(s: ResolverView, n: nat)
    requires
        s.fresh(),
        n <= s.top_level.len(),
    ensures
        s.run(n) is Ok,
        s.run(n)->Ok_0.top_level == s.top_level,
        s.run(n)->Ok_0.graph == s.graph,
        s.run(n)->Ok_0.pending == s.top_level.take(s.top_level.len() - n),
        s.run(n)->Ok_0.requests == Seq::new(
            n,
            |i: int|
                RequestView { id: s.top_level[s.top_level.len() - 1 - i], exact: true, selected: None },
        ),
        forall|name: NameView| #[trigger]
            s.run(n)->Ok_0.chosen.contains_key(name) ==> id_names(s.top_level).skip(
                s.top_level.len() - n,
            ).contains(name),
    decreases n,
{
    let len = s.top_level.len();
    let names = id_names(s.top_level);
    if n == 0 {
        assert(s.top_level.take(len as int) =~= s.top_level);
    } else {
        lemma_first_steps(s, (n - 1) as nat);
        let before = s.run((n - 1) as nat)->Ok_0;
        let id = s.top_level[len - n];
        assert(before.pending.last() == id);
        assert(names[len - n] == id.name);
        let noted = names.skip(len - n + 1);
        if before.chosen.contains_key(id.name) {
            let k = noted.index_of(id.name);
            assert(noted[k] == names[len - n + 1 + k]);
        }
        assert(before.is_top_level(id.name));
        let next = s.run(n)->Ok_0;
        assert(before.step() == s.run(n));
        assert(next.pending =~= s.top_level.take(len - n));
        let wider = names.skip(len - n);
        assert forall|name: NameView| #[trigger] next.chosen.contains_key(name) implies wider.contains(name) by {
            if name == id.name {
                assert(wider[0] == name);
            } else {
                assert(before.chosen.contains_key(name));
                let k = noted.index_of(name);
                assert(wider[k + 1] == noted[k]);
            }
        }
    }
}

/// The first time that resolution comes to an end, exactly the top-level packages are requested, each
/// once and in exactly its version, and there is no conflict.
pub proof fn law_first_requests_are_top_level(s: ResolverView, n: nat)
    requires
        s.fresh(),
        s.start().ends(n),
    ensures
        s.start() == s,
        s.start().run(n) is Ok,
        s.start().run(n)->Ok_0.request_ids() == s.top_level.reverse(),
        s.start().run(n)->Ok_0.request_ids().to_set() == s.top_level.to_set(),
        forall|i: int|
            0 <= i < s.start().run(n)->Ok_0.requests.len() ==> (
            #[trigger] s.start().run(n)->Ok_0.requests[i]).exact
                && s.start().run(n)->Ok_0.requests[i].selected is None,
        s.start().run(n)->Ok_0.graph == Map::<NameView, Set<NameView>>::empty(),
{
    let len = s.top_level.len();
    assert(s.start() =~= s);
    lemma_first_steps(s, len);
    assert(s.ends(len));
    law_run_is_deterministic(s, len, n);
    let ids = s.run(n)->Ok_0.request_ids();
    assert(ids =~= s.top_level.reverse());
    assert forall|id: IdView| ids.to_set().contains(id) == s.top_level.to_set().contains(id) by {
        if ids.contains(id) {
            let i = ids.index_of(id);
            assert(s.top_level[len - 1 - i] == id);
        }
        if s.top_level.contains(id) {
            let i = s.top_level.index_of(id);
            assert(ids[len - 1 - i] == id);
        }
    }
    assert(ids.to_set() =~= s.top_level.to_set());
}

/// The order in which the top-level packages are listed makes no difference to which packages are
/// requested first.
pub proof fn law_first_requests_are_the_same_in_any_order(s: ResolverView, t: ResolverView, m: nat, n: nat)
    requires
        s.fresh(),
        t.fresh(),
        s.top_level.to_multiset() == t.top_level.to_multiset(),
        s.start().ends(m),
        t.start().ends(n),
    ensures
        s.start().run(m) is Ok,
        t.start().run(n) is Ok,
        s.start().run(m)->Ok_0.request_ids().to_set() == t.start().run(n)->Ok_0.request_ids().to_set(),
{
    law_first_requests_are_top_level(s, m);
    law_first_requests_are_top_level(t, n);
    s.top_level.to_multiset_ensures();
    t.top_level.to_multiset_ensures();
    assert forall|id: IdView| s.top_level.to_set().contains(id) == t.top_level.to_set().contains(id) by {
        assert(s.top_level.contains(id) <==> s.top_level.to_multiset().count(id) > 0);
        assert(t.top_level.contains(id) <==> t.top_level.to_multiset().count(id) > 0);
    }
    assert(s.top_level.to_set() =~= t.top_level.to_set());
}

impl ResolverView {
    /// Whether a package that was noted is requested or in the graph, or will be looked at again.
    pub open spec fn attended(self, name: NameView) -> bool {
        !(self.chosen[name].state is Resolved) || id_names(self.pending).contains(name)
    }

    /// Whether a package that a package in the graph needs is pending, or is attended to in a
    /// version that satisfies the need, and in exactly that of the need if it is top-level.
    pub open spec fn settled(self, id: IdView) -> bool {
        ||| self.pending.contains(id)
        ||| {
            &&& self.chosen.contains_key(id.name)
            &&& version_matches(id.version, self.chosen[id.name].version)
            &&& self.is_top_level(id.name) ==> self.chosen[id.name].version == id.version
            &&& self.attended(id.name)
        }
    }

    /// Whether a top-level package is pending, or is attended to in exactly its version.
    pub open spec fn top_settled(self, id: IdView) -> bool {
        ||| self.pending.contains(id)
        ||| {
            &&& self.chosen.contains_key(id.name)
            &&& self.chosen[id.name].version == id.version
            &&& self.attended(id.name)
        }
    }

    /// Whether the graph holds the dependencies of a component, the host satisfies those of its
    /// imports that it provides, and the packages that the component needs are settled.
    pub open spec fn node_ok(self, name: NameView, component: ComponentView) -> bool {
        &&& self.graph[name] == id_names(needed(self.hosts, component.imports)).to_set()
        &&& forall|k: int|
            0 <= k < component.imports.len() ==> !mismatched(
                self.hosts,
                #[trigger] component.imports[k],
            )
        &&& forall|k: int|
            0 <= k < needed(self.hosts, component.imports).len() ==> self.settled(
                #[trigger] needed(self.hosts, component.imports)[k],
            )
    }

    /// Whether a request is for a package that is noted as requested, in the version noted.
    pub open spec fn request_ok(self, request: RequestView) -> bool {
        &&& request.id.valid()
        &&& request.well_selected()
        &&& self.chosen.contains_key(request.id.name)
        &&& self.chosen[request.id.name].version == request.id.version
        &&& self.chosen[request.id.name].exact == request.exact
        &&& self.chosen[request.id.name].state is Unresolved
    }

    /// Whether what is noted of a package is in order.
    pub open spec fn info_ok(self, name: NameView) -> bool {
        let info = self.chosen[name];
        &&& info.exact == self.is_top_level(name)
        &&& version_valid(info.version)
        &&& info.state.component() matches Some(component) ==> component.valid()
        &&& info.state is Unresolved ==> exists|i: int|
            0 <= i < self.requests.len() && (#[trigger] self.requests[i]).id.name == name
    }

    /// What holds of a resolver at all times.
    pub open spec fn inv(self) -> bool {
        &&& hosts_of(self.hosts, self.linker.instances.dom())
        &&& id_names(self.top_level).no_duplicates()
        &&& forall|i: int| 0 <= i < self.top_level.len() ==> (#[trigger] self.top_level[i]).valid()
        &&& forall|i: int| 0 <= i < self.pending.len() ==> (#[trigger] self.pending[i]).valid()
        &&& forall|i: int| 0 <= i < self.requests.len() ==> self.request_ok(#[trigger] self.requests[i])
        &&& forall|i: int, j: int|
            0 <= i < j < self.requests.len() ==> (#[trigger] self.requests[i]).id.name != (
            #[trigger] self.requests[j]).id.name
        &&& forall|name: NameView| #[trigger] self.chosen.contains_key(name) ==> self.info_ok(name)
        &&& forall|name: NameView| #[trigger]
            self.graph.contains_key(name) <==> self.chosen.contains_key(name)
                && self.chosen[name].state is InGraph
        &&& forall|name: NameView| #[trigger]
            self.graph.contains_key(name) ==> self.node_ok(name, self.chosen[name].state->InGraph_0)
        &&& forall|i: int|
            0 <= i < self.top_level.len() ==> self.top_settled(#[trigger] self.top_level[i])
    }

    /// Whether nothing has been supplied yet, and each requested package is noted with the place
    /// of its request.
    pub open spec fn placed(self) -> bool {
        forall|i: int|
            0 <= i < self.requests.len() ==> (#[trigger] self.requests[i]).selected is None
                && self.chosen[self.requests[i].id.name].state == StateView::Unresolved(i)
    }

    /// Whether a state follows another in which the package looked at last has been attended to,
    /// and what is noted of other packages is the same.
    pub open spec fn advances_to(self, next: Self) -> bool {
        let id = self.pending.last();
        &&& next.top_level == self.top_level
        &&& next.hosts == self.hosts
        &&& self.pending.len() > 0
        &&& next.pending.len() >= self.pending.len() - 1
        &&& forall|i: int| 0 <= i < self.pending.len() - 1 ==> next.pending[i] == #[trigger] self.pending[i]
        &&& forall|name: NameView|
            name != id.name ==> #[trigger] next.chosen.contains_key(name) == self.chosen.contains_key(name)
                && next.chosen[name] == self.chosen[name]
        &&& next.chosen.contains_key(id.name)
        &&& !(next.chosen[id.name].state is Resolved)
        &&& version_matches(id.version, next.chosen[id.name].version)
        &&& self.chosen.contains_key(id.name) ==> version_supersedes(
            next.chosen[id.name].version,
            self.chosen[id.name].version,
        )
        &&& self.is_top_level(id.name) ==> next.chosen[id.name].version == id.version && (
        self.chosen.contains_key(id.name) ==> self.chosen[id.name].version == id.version)
    }
}

/// What is settled stays settled while other packages are looked at.
proof fn lemma_stays_settled(s: ResolverView, t: ResolverView, id: IdView)
    requires
        s.advances_to(t),
        id.valid(),
        s.settled(id),
    ensures
        t.settled(id),
{
    let last = s.pending.last();
    if s.pending.contains(id) && id != last {
        let i = s.pending.index_of(id);
        assert(t.pending[i] == s.pending[i]);
        assert(t.pending.contains(id));
    } else if id != last && id.name != last.name {
        assert(t.chosen.contains_key(id.name) == s.chosen.contains_key(id.name));
        lemma_stays_attended(s, t, id.name);
    }
}

/// What is attended to stays so while other packages are looked at.
proof fn lemma_stays_attended(s: ResolverView, t: ResolverView, name: NameView)
    requires
        s.advances_to(t),
        s.chosen.contains_key(name),
        s.attended(name),
        name != s.pending.last().name,
    ensures
        t.attended(name),
{
    assert(t.chosen.contains_key(name) == s.chosen.contains_key(name));
    if s.chosen[name].state is Resolved {
        let names = id_names(s.pending);
        let i = names.index_of(name);
        assert(names[i] == name && names[i] == s.pending[i].name);
        assert(t.pending[i] == s.pending[i]);
        assert(id_names(t.pending)[i] == name);
    }
}

/// A top-level package that is settled stays so while packages are looked at.
proof fn lemma_top_stays_settled(s: ResolverView, t: ResolverView, id: IdView)
    requires
        s.advances_to(t),
        s.top_level.contains(id),
        s.top_settled(id),
    ensures
        t.top_settled(id),
{
    let last = s.pending.last();
    let at = s.top_level.index_of(id);
    assert(id_names(s.top_level)[at] == id.name);
    assert(s.is_top_level(id.name));
    if s.pending.contains(id) && id != last {
        let i = s.pending.index_of(id);
        assert(t.pending[i] == s.pending[i]);
        assert(t.pending.contains(id));
    } else if id != last && id.name != last.name {
        assert(t.chosen.contains_key(id.name) == s.chosen.contains_key(id.name));
        lemma_stays_attended(s, t, id.name);
    }
}

/// The needed packages of a valid component have valid identifiers.
proof fn lemma_needed_valid(hosts: Map<UnversionedView, InterfaceView>, component: ComponentView)
    requires
        component.valid(),
    ensures
        forall|k: int|
            0 <= k < needed(hosts, component.imports).len() ==> (#[trigger] needed(
                hosts,
                component.imports,
            )[k]).valid(),
{
    let depends = needed(hosts, component.imports);
    lemma_needed(hosts, component.imports);
    assert forall|k: int| 0 <= k < depends.len() implies (#[trigger] depends[k]).valid() by {
        assert(depends.contains(depends[k]));
        let m = choose|m: int|
            0 <= m < component.imports.len() && !hosts.contains_key(
                (#[trigger] component.imports[m]).unversioned(),
            ) && component.imports[m].package == depends[k];
        assert(component.imports[m].valid());
    }
}

/// Nodes that stay in the graph stay in order while packages are looked at.
proof fn lemma_nodes_stay_ok(s: ResolverView, t: ResolverView, name: NameView)
    requires
        s.inv(),
        s.advances_to(t),
        s.graph.contains_key(name),
        t.graph.contains_key(name),
        t.graph[name] == s.graph[name],
        t.chosen[name].state == s.chosen[name].state,
    ensures
        t.node_ok(name, t.chosen[name].state->InGraph_0),
{
    let component = s.chosen[name].state->InGraph_0;
    let depends = needed(s.hosts, component.imports);
    assert(s.chosen.contains_key(name));
    assert(s.info_ok(name));
    assert(s.node_ok(name, component));
    lemma_needed_valid(s.hosts, component);
    assert forall|k: int| 0 <= k < depends.len() implies t.settled(#[trigger] depends[k]) by {
        lemma_stays_settled(s, t, depends[k]);
    }
}

/// If no import is named as the last one that the host does not satisfy, the host satisfies all
/// that it provides.
proof fn lemma_no_mismatch(hosts: Map<UnversionedView, InterfaceView>, imports: Seq<InterfaceView>)
    requires
        last_mismatch(hosts, imports) is None,
    ensures
        forall|k: int| 0 <= k < imports.len() ==> !mismatched(hosts, #[trigger] imports[k]),
    decreases imports.len(),
{
    if imports.len() > 0 {
        let shorter = imports.drop_last();
        lemma_no_mismatch(hosts, shorter);
        assert forall|k: int| 0 <= k < imports.len() implies !mismatched(hosts, #[trigger] imports[k]) by {
            if k < imports.len() - 1 {
                assert(shorter[k] == imports[k]);
            }
        }
    }
}

/// The greater of the version that is noted and one that may be requested satisfies the request,
/// and all that the noted version satisfies.
pub proof fn lemma_version_max(current: Option<VersionView>, exact: bool, requested: Option<VersionView>)
    requires
        compatible(current, exact, requested),
        version_compared(current, requested),
        version_valid(requested),
    ensures
        version_matches(requested, version_max(current, requested)),
        version_supersedes(version_max(current, requested), current),
        version_max(current, requested) != current ==> version_max(current, requested) == requested
            && !exact,
{
    let max = version_max(current, requested);
    assert forall|x: Option<VersionView>|
        version_valid(x) && #[trigger] version_matches(x, current) implies version_matches(x, max) by {
        if x is Some && current is Some && requested is Some && max != current {
            assert(x->0 == current->0 || x->0.precedes(current->0));
        }
    }
}

impl ResolverView {
    /// Whether the version of the next pending package has been compared with the one that is
    /// noted.
    pub open spec fn next_compared(self) -> bool {
        self.chosen.contains_key(self.pending.last().name) ==> version_compared(
            self.chosen[self.pending.last().name].version,
            self.pending.last().version,
        )
    }

    /// Whether the package looked at last is the only one of which something else is noted, and
    /// the graph has not lost nodes nor changed other ones.
    pub open spec fn graph_grows_to(self, next: Self) -> bool {
        forall|name: NameView| #[trigger]
            self.graph.contains_key(name) ==> next.graph.contains_key(name) && next.graph[name]
                == self.graph[name] && next.chosen[name].state == self.chosen[name].state
    }
}

/// Of a state that advances, what holds of the top-level packages and of the nodes that were in the
/// graph holds still.
proof fn lemma_advance(s: ResolverView, t: ResolverView)
    requires
        s.inv(),
        s.advances_to(t),
        s.graph_grows_to(t),
    ensures
        forall|name: NameView| #[trigger]
            s.graph.contains_key(name) ==> t.node_ok(name, t.chosen[name].state->InGraph_0),
        forall|i: int| 0 <= i < t.top_level.len() ==> t.top_settled(#[trigger] t.top_level[i]),
{
    assert forall|name: NameView| #[trigger] s.graph.contains_key(name) implies t.node_ok(
        name,
        t.chosen[name].state->InGraph_0,
    ) by {
        lemma_nodes_stay_ok(s, t, name);
    }
    assert forall|i: int| 0 <= i < t.top_level.len() implies t.top_settled(#[trigger] t.top_level[i]) by {
        assert(s.top_settled(s.top_level[i]));
        assert(s.top_level.contains(s.top_level[i]));
        lemma_top_stays_settled(s, t, s.top_level[i]);
    }
}

/// Looking at a package of which nothing is noted keeps what holds at all times.
proof fn lemma_new_keeps(s: ResolverView)
    requires
        s.inv(),
        s.placed(),
        s.pending.len() > 0,
        !s.chosen.contains_key(s.pending.last().name),
    ensures
        s.step() is Ok,
        s.step()->Ok_0.inv(),
        s.step()->Ok_0.placed(),
{
    let id = s.pending.last();
    let t = s.step()->Ok_0;
    assert(s.pending[s.pending.len() - 1].valid());
    assert(s.advances_to(t));
    assert forall|name: NameView| #[trigger] s.graph.contains_key(name) implies name != id.name by {}
    lemma_advance(s, t);
    assert forall|i: int| 0 <= i < t.requests.len() implies t.request_ok(#[trigger] t.requests[i]) by {
        if i < s.requests.len() {
            assert(s.request_ok(s.requests[i]));
        }
    }
    assert forall|i: int, j: int| 0 <= i < j < t.requests.len() implies (#[trigger] t.requests[i]).id.name != (
    #[trigger] t.requests[j]).id.name by {
        assert(s.request_ok(s.requests[i]));
    }
    assert forall|name: NameView| #[trigger] t.chosen.contains_key(name) implies t.info_ok(name) by {
        if name == id.name {
            assert(t.requests[t.requests.len() - 1].id.name == name);
        } else {
            lemma_info_stays_ok(s, t, name);
        }
    }
    assert forall|i: int| 0 <= i < t.requests.len() implies (#[trigger] t.requests[i]).selected is None
        && t.chosen[t.requests[i].id.name].state == StateView::Unresolved(i) by {
        if i < s.requests.len() {
            assert(s.request_ok(s.requests[i]));
            assert(s.requests[i].selected is None);
        }
    }
}

/// What is noted of a package stays in order if it does not change and no request is lost.
proof fn lemma_info_stays_ok(s: ResolverView, t: ResolverView, name: NameView)
    requires
        s.inv(),
        s.chosen.contains_key(name),
        t.chosen.contains_key(name),
        t.chosen[name] == s.chosen[name],
        t.top_level == s.top_level,
        t.requests.len() >= s.requests.len(),
        forall|i: int|
            0 <= i < s.requests.len() ==> t.requests[i].id.name == (#[trigger] s.requests[i]).id.name,
    ensures
        t.info_ok(name),
{
    assert(s.info_ok(name));
    if s.chosen[name].state is Unresolved {
        let i = choose|i: int| 0 <= i < s.requests.len() && (#[trigger] s.requests[i]).id.name == name;
        assert(t.requests[i].id.name == name);
    }
}

/// Looking at a package whose noted version stays, and which is not waiting to be put into the
/// graph, keeps what holds at all times.
proof fn lemma_kept_keeps(s: ResolverView)
    requires
        s.inv(),
        s.placed(),
        s.pending.len() > 0,
        s.next_compared(),
        s.chosen.contains_key(s.pending.last().name),
        s.step() is Ok,
        version_max(s.chosen[s.pending.last().name].version, s.pending.last().version)
            == s.chosen[s.pending.last().name].version,
        !(s.chosen[s.pending.last().name].state is Resolved),
    ensures
        s.step()->Ok_0.inv(),
        s.step()->Ok_0.placed(),
{
    let id = s.pending.last();
    let t = s.step()->Ok_0;
    let info = s.chosen[id.name];
    assert(s.pending[s.pending.len() - 1].valid());
    assert(s.info_ok(id.name));
    lemma_version_max(info.version, info.exact, id.version);
    assert(s.advances_to(t));
    lemma_advance(s, t);
    assert forall|i: int| 0 <= i < t.requests.len() implies t.request_ok(#[trigger] t.requests[i]) by {
        assert(s.request_ok(s.requests[i]));
    }
    assert forall|name: NameView| #[trigger] t.chosen.contains_key(name) implies t.info_ok(name) by {
        lemma_info_stays_ok(s, t, name);
    }
}

/// Putting a package into the graph keeps what holds at all times.
proof fn lemma_linked_keeps(s: ResolverView)
    requires
        s.inv(),
        s.placed(),
        s.pending.len() > 0,
        s.next_compared(),
        s.chosen.contains_key(s.pending.last().name),
        s.step() is Ok,
        version_max(s.chosen[s.pending.last().name].version, s.pending.last().version)
            == s.chosen[s.pending.last().name].version,
        s.chosen[s.pending.last().name].state is Resolved,
    ensures
        s.step()->Ok_0.inv(),
        s.step()->Ok_0.placed(),
{
    let id = s.pending.last();
    let t = s.step()->Ok_0;
    let info = s.chosen[id.name];
    let component = info.state->Resolved_0;
    let depends = needed(s.hosts, component.imports);
    assert(s.pending[s.pending.len() - 1].valid());
    assert(s.info_ok(id.name));
    lemma_version_max(info.version, info.exact, id.version);
    assert(s.advances_to(t));
    assert forall|name: NameView| #[trigger] s.graph.contains_key(name) implies name != id.name by {}
    lemma_advance(s, t);
    lemma_needed_valid(s.hosts, component);
    lemma_no_mismatch(s.hosts, component.imports);
    assert forall|k: int| 0 <= k < depends.len() implies t.settled(#[trigger] depends[k]) by {
        assert(t.pending[s.pending.len() - 1 + k] == depends[k]);
        assert(t.pending.contains(depends[k]));
    }
    assert(t.node_ok(id.name, component));
    assert forall|i: int| 0 <= i < t.pending.len() implies (#[trigger] t.pending[i]).valid() by {
        if i < s.pending.len() - 1 {
            assert(t.pending[i] == s.pending[i]);
        } else {
            assert(t.pending[i] == depends[i - (s.pending.len() - 1)]);
        }
    }
    assert forall|i: int| 0 <= i < t.requests.len() implies t.request_ok(#[trigger] t.requests[i]) by {
        assert(s.request_ok(s.requests[i]));
    }
    assert forall|name: NameView| #[trigger] t.chosen.contains_key(name) implies t.info_ok(name) by {
        if name != id.name {
            lemma_info_stays_ok(s, t, name);
        }
    }
    assert forall|i: int| 0 <= i < t.requests.len() implies (#[trigger] t.requests[i]).selected is None
        && t.chosen[t.requests[i].id.name].state == StateView::Unresolved(i) by {
        assert(s.request_ok(s.requests[i]));
        assert(s.requests[i].selected is None);
    }
}

/// Raising the version of a package that is requested or was supplied keeps what holds at all
/// times.
proof fn lemma_raised_keeps(s: ResolverView)
    requires
        s.inv(),
        s.placed(),
        s.pending.len() > 0,
        s.next_compared(),
        s.chosen.contains_key(s.pending.last().name),
        s.step() is Ok,
        version_max(s.chosen[s.pending.last().name].version, s.pending.last().version)
            != s.chosen[s.pending.last().name].version,
        !(s.chosen[s.pending.last().name].state is InGraph),
    ensures
        s.step()->Ok_0.inv(),
        s.step()->Ok_0.placed(),
{
    let id = s.pending.last();
    let t = s.step()->Ok_0;
    let info = s.chosen[id.name];
    assert(s.pending[s.pending.len() - 1].valid());
    assert(s.info_ok(id.name));
    lemma_version_max(info.version, info.exact, id.version);
    assert forall|name: NameView| #[trigger] s.graph.contains_key(name) implies name != id.name by {}
    if info.state is Unresolved {
        let r = choose|i: int| 0 <= i < s.requests.len() && (#[trigger] s.requests[i]).id.name == id.name;
        assert(s.requests[r].selected is None);
        assert(info.state == StateView::Unresolved(r));
    }
    assert(s.advances_to(t));
    lemma_advance(s, t);
    assert forall|i: int| 0 <= i < t.requests.len() implies t.request_ok(#[trigger] t.requests[i]) by {
        if i < s.requests.len() {
            assert(s.request_ok(s.requests[i]));
            assert(s.requests[i].selected is None);
        }
    }
    assert forall|i: int, j: int| 0 <= i < j < t.requests.len() implies (#[trigger] t.requests[i]).id.name != (
    #[trigger] t.requests[j]).id.name by {
        assert(s.request_ok(s.requests[i]));
        if j < s.requests.len() {
            assert(s.requests[i].id.name != s.requests[j].id.name);
        }
    }
    assert forall|name: NameView| #[trigger] t.chosen.contains_key(name) implies t.info_ok(name) by {
        if name == id.name {
            if info.state is Unresolved {
                assert(t.requests[info.state->Unresolved_0].id.name == name);
            } else {
                assert(t.requests[t.requests.len() - 1].id.name == name);
            }
        } else {
            lemma_info_stays_ok(s, t, name);
        }
    }
    assert forall|i: int| 0 <= i < t.requests.len() implies (#[trigger] t.requests[i]).selected is None
        && t.chosen[t.requests[i].id.name].state == StateView::Unresolved(i) by {
        if i < s.requests.len() {
            assert(s.request_ok(s.requests[i]));
            assert(s.requests[i].selected is None);
        }
    }
}

/// Beginning again because the version of a package in the graph was raised keeps what holds at
/// all times.
proof fn lemma_reset_keeps(s: ResolverView)
    requires
        s.inv(),
        s.placed(),
        s.pending.len() > 0,
        s.next_compared(),
        s.chosen.contains_key(s.pending.last().name),
        s.step() is Ok,
        version_max(s.chosen[s.pending.last().name].version, s.pending.last().version)
            != s.chosen[s.pending.last().name].version,
        s.chosen[s.pending.last().name].state is InGraph,
    ensures
        s.step()->Ok_0.inv(),
        s.step()->Ok_0.placed(),
{
    let id = s.pending.last();
    let t = s.step()->Ok_0;
    let info = s.chosen[id.name];
    assert(s.pending[s.pending.len() - 1].valid());
    assert(s.info_ok(id.name));
    lemma_version_max(info.version, info.exact, id.version);
    assert forall|name: NameView| #[trigger] t.chosen.contains_key(name) implies t.info_ok(name) by {
        assert(s.info_ok(name));
    }
    assert forall|i: int| 0 <= i < t.top_level.len() implies t.top_settled(#[trigger] t.top_level[i]) by {
        assert(t.pending.contains(t.top_level[i]));
    }
}

/// Every step of resolution keeps what holds at all times.
pub proof fn law_step_keeps_invariant(s: ResolverView)
    requires
        s.inv(),
        s.placed(),
        s.pending.len() > 0,
        s.next_compared(),
        s.step() is Ok,
    ensures
        s.step()->Ok_0.inv(),
        s.step()->Ok_0.placed(),
{
    let id = s.pending.last();
    if !s.chosen.contains_key(id.name) {
        lemma_new_keeps(s);
    } else if version_max(s.chosen[id.name].version, id.version) != s.chosen[id.name].version {
        if s.chosen[id.name].state is InGraph {
            lemma_reset_keeps(s);
        } else {
            lemma_raised_keeps(s);
        }
    } else if s.chosen[id.name].state is Resolved {
        lemma_linked_keeps(s);
    } else {
        lemma_kept_keeps(s);
    }
}

impl ResolverView {
    /// Whether another state notes of the package of a request what has come of the request: the
    /// package that was supplied, which is pending, or the place of the request if none was.
    pub open spec fn carried_to(self, next: Self, request: RequestView) -> bool {
        let info = next.chosen[request.id.name];
        &&& info.exact == request.exact
        &&& match request.selected {
            Some((id, component)) => {
                &&& info.version == id.version
                &&& info.state == StateView::Resolved(component)
                &&& id_names(next.pending).contains(request.id.name)
            },
            None => {
                &&& info.version == request.id.version
                &&& info.state is Unresolved
                &&& 0 <= info.state->Unresolved_0 < next.requests.len()
                &&& next.requests[info.state->Unresolved_0] == request
            },
        }
    }

    /// What holds after the first `k` requests were looked at for packages that were supplied.
    pub open spec fn accepted_to(self, k: int, next: Self) -> bool {
        &&& next.top_level == self.top_level
        &&& next.linker == self.linker
        &&& next.hosts == self.hosts
        &&& next.graph == self.graph
        &&& next.chosen.dom() == self.chosen.dom()
        &&& forall|i: int| 0 <= i < k ==> self.carried_to(next, #[trigger] self.requests[i])
        &&& forall|name: NameView| #[trigger]
            self.chosen.contains_key(name) && (forall|i: int|
                0 <= i < k ==> (#[trigger] self.requests[i]).id.name != name) ==> next.chosen[name]
                == self.chosen[name]
        &&& forall|j: int|
            0 <= j < next.requests.len() ==> (#[trigger] next.requests[j]).selected is None
                && next.chosen[next.requests[j].id.name].state == StateView::Unresolved(j) && exists|i: int|
                0 <= i < k && #[trigger] self.requests[i] == next.requests[j]
        &&& next.pending.len() >= self.pending.len()
        &&& forall|i: int| 0 <= i < self.pending.len() ==> next.pending[i] == #[trigger] self.pending[i]
        &&& forall|i: int| 0 <= i < next.pending.len() ==> (#[trigger] next.pending[i]).valid()
    }
}

/// Looking at the requests for packages that were supplied does what [`ResolverView::accepted_to`]
/// says.
pub proof fn lemma_accepted(s: ResolverView, k: nat)
    requires
        s.inv(),
        k <= s.requests.len(),
    ensures
        s.accepted_to(k as int, s.accepted(k)),
    decreases k,
{
    if k == 0 {
        assert(s.accepted(k).chosen.dom() =~= s.chosen.dom());
    } else {
        let b = s.accepted((k - 1) as nat);
        let t = s.accepted(k);
        let r = s.requests[k - 1];
        lemma_accepted(s, (k - 1) as nat);
        assert(s.request_ok(r));
        assert(b.chosen[r.id.name] == s.chosen[r.id.name]) by {
            assert forall|i: int| 0 <= i < k - 1 implies (#[trigger] s.requests[i]).id.name != r.id.name by {
                assert(s.requests[i].id.name != s.requests[k - 1].id.name);
            }
            assert(s.chosen.contains_key(r.id.name));
        }
        assert(s.chosen.dom().contains(r.id.name));
        assert(t.chosen.dom() =~= s.chosen.dom());
        if r.selected is Some {
            assert(id_names(t.pending)[b.pending.len() as int] == r.id.name);
            assert(id_names(t.pending).contains(r.id.name));
        } else {
            assert(t.requests[b.requests.len() as int] == r);
        }
        assert forall|i: int| 0 <= i < k implies s.carried_to(t, #[trigger] s.requests[i]) by {
            if i < k - 1 {
                assert(s.carried_to(b, s.requests[i]));
                assert(s.requests[i].id.name != s.requests[k - 1].id.name);
                if s.requests[i].selected is Some {
                    let names = id_names(b.pending);
                    let at = names.index_of(s.requests[i].id.name);
                    assert(names[at] == s.requests[i].id.name);
                    assert(id_names(t.pending)[at] == s.requests[i].id.name);
                }
            }
        }
        assert forall|name: NameView| #[trigger]
            s.chosen.contains_key(name) && (forall|i: int|
                0 <= i < k ==> (#[trigger] s.requests[i]).id.name != name) implies t.chosen[name]
            == s.chosen[name] by {
            assert(s.requests[k - 1].id.name != name);
        }
        assert forall|j: int| 0 <= j < t.requests.len() implies (#[trigger] t.requests[j]).selected is None
            && t.chosen[t.requests[j].id.name].state == StateView::Unresolved(j) && exists|i: int|
            0 <= i < k && #[trigger] s.requests[i] == t.requests[j] by {
            if j < b.requests.len() {
                assert(t.requests[j] == b.requests[j]);
                let i = choose|i: int| 0 <= i < k - 1 && #[trigger] s.requests[i] == b.requests[j];
                assert(s.requests[i] == t.requests[j]);
                assert(s.requests[i].id.name != s.requests[k - 1].id.name);
            } else {
                assert(s.requests[k - 1] == t.requests[j]);
            }
        }
    }
}

/// Taking over the packages that were supplied keeps what holds at all times.
pub proof fn law_start_keeps_invariant(s: ResolverView)
    requires
        s.inv(),
    ensures
        s.start().inv(),
        s.start().placed(),
{
    let t = s.start();
    let n = s.requests.len();
    lemma_accepted(s, n);
    assert forall|name: NameView| s.chosen.contains_key(name) == #[trigger] t.chosen.contains_key(name) by {
        assert(s.chosen.dom().contains(name) == t.chosen.dom().contains(name));
    }
    assert forall|j: int| 0 <= j < t.requests.len() implies t.request_ok(#[trigger] t.requests[j]) by {
        let i = choose|i: int| 0 <= i < n && #[trigger] s.requests[i] == t.requests[j];
        assert(s.request_ok(s.requests[i]));
        assert(s.carried_to(t, s.requests[i]));
    }
    assert forall|i: int, j: int| 0 <= i < j < t.requests.len() implies (#[trigger] t.requests[i]).id.name != (
    #[trigger] t.requests[j]).id.name by {
        assert(t.chosen[t.requests[i].id.name].state == StateView::Unresolved(i));
        assert(t.chosen[t.requests[j].id.name].state == StateView::Unresolved(j));
    }
    assert forall|name: NameView| #[trigger] t.chosen.contains_key(name) implies t.info_ok(name)
        && noted_from(s, t, name) by {
        assert(s.info_ok(name));
        lemma_start_noted(s, t, name);
    }
    assert forall|name: NameView| #[trigger] t.graph.contains_key(name) <==> t.chosen.contains_key(name)
        && t.chosen[name].state is InGraph by {
        if t.chosen.contains_key(name) {
            assert(noted_from(s, t, name));
        }
    }
    assert forall|name: NameView| #[trigger] t.graph.contains_key(name) implies t.node_ok(
        name,
        t.chosen[name].state->InGraph_0,
    ) by {
        assert(s.graph.contains_key(name));
        assert(t.chosen.contains_key(name));
        assert(noted_from(s, t, name));
        let component = s.chosen[name].state->InGraph_0;
        let depends = needed(s.hosts, component.imports);
        assert(s.node_ok(name, component));
        assert(s.info_ok(name));
        lemma_needed_valid(s.hosts, component);
        assert forall|k: int| 0 <= k < depends.len() implies t.settled(#[trigger] depends[k]) by {
            assert(s.settled(depends[k]));
            lemma_start_settled(s, t, depends[k]);
        }
    }
    assert forall|i: int| 0 <= i < t.top_level.len() implies t.top_settled(#[trigger] t.top_level[i]) by {
        let id = s.top_level[i];
        assert(s.top_settled(id));
        if s.pending.contains(id) {
            let at = s.pending.index_of(id);
            assert(t.pending[at] == s.pending[at]);
            assert(t.pending.contains(id));
        } else {
            assert(t.chosen.contains_key(id.name));
            assert(noted_from(s, t, id.name));
            assert(id_names(s.top_level)[i] == id.name);
            assert(s.is_top_level(id.name));
            assert(s.info_ok(id.name));
            lemma_start_attended(s, t, id.name);
        }
    }
}

/// Whether a package stands as before, or was requested and now stands as was supplied or still is
/// requested.
spec fn noted_from(s: ResolverView, t: ResolverView, name: NameView) -> bool {
    ||| t.chosen[name] == s.chosen[name]
    ||| {
        &&& s.chosen[name].state is Unresolved
        &&& !(t.chosen[name].state is InGraph)
        &&& t.chosen[name].exact == s.chosen[name].exact
        &&& version_supersedes(t.chosen[name].version, s.chosen[name].version)
        &&& s.chosen[name].exact ==> t.chosen[name].version == s.chosen[name].version
        &&& t.chosen[name].state is Resolved ==> id_names(t.pending).contains(name)
    }
}

/// After the packages that were supplied have been taken over, what is noted is in order.
proof fn lemma_start_noted(s: ResolverView, t: ResolverView, name: NameView)
    requires
        s.inv(),
        s.accepted_to(s.requests.len() as int, t),
        s.chosen.contains_key(name),
    ensures
        t.info_ok(name),
        noted_from(s, t, name),
{
    let n = s.requests.len();
    assert(s.info_ok(name));
    if exists|i: int| 0 <= i < n && (#[trigger] s.requests[i]).id.name == name {
        let i = choose|i: int| 0 <= i < n && (#[trigger] s.requests[i]).id.name == name;
        let r = s.requests[i];
        assert(s.request_ok(r));
        assert(s.carried_to(t, r));
        if r.selected is None {
            assert(t.requests[t.chosen[name].state->Unresolved_0].id.name == name);
        }
    } else {
        assert(t.chosen[name] == s.chosen[name]);
    }
}

/// What is attended to stays so when the packages that were supplied are taken over.
proof fn lemma_start_attended(s: ResolverView, t: ResolverView, name: NameView)
    requires
        s.accepted_to(s.requests.len() as int, t),
        noted_from(s, t, name),
        s.attended(name),
    ensures
        t.attended(name),
{
    if t.chosen[name] == s.chosen[name] && s.chosen[name].state is Resolved {
        let names = id_names(s.pending);
        let at = names.index_of(name);
        assert(names[at] == name);
        assert(t.pending[at] == s.pending[at]);
        assert(id_names(t.pending)[at] == name);
    }
}

/// What is settled stays so when the packages that were supplied are taken over.
proof fn lemma_start_settled(s: ResolverView, t: ResolverView, id: IdView)
    requires
        s.inv(),
        s.accepted_to(s.requests.len() as int, t),
        id.valid(),
        s.settled(id),
    ensures
        t.settled(id),
{
    if s.pending.contains(id) {
        let at = s.pending.index_of(id);
        assert(t.pending[at] == s.pending[at]);
        assert(t.pending.contains(id));
    } else {
        assert(s.chosen.dom().contains(id.name));
        lemma_start_noted(s, t, id.name);
        lemma_start_attended(s, t, id.name);
    }
}

/// How many of a row of package identifiers have a property.
pub open spec fn count_where(ids: Seq<IdView>, p: spec_fn(IdView) -> bool) -> nat
    decreases ids.len(),
{
    if ids.len() == 0 {
        0
    } else {
        count_where(ids.drop_last(), p) + if p(ids.last()) { 1nat } else { 0nat }
    }
}

/// A property that is narrower holds of no more identifiers, and of fewer if there is one that only
/// the other property holds of.
proof fn lemma_count(ids: Seq<IdView>, p: spec_fn(IdView) -> bool, q: spec_fn(IdView) -> bool)
    requires
        forall|i: int| 0 <= i < ids.len() && q(#[trigger] ids[i]) ==> p(ids[i]),
    ensures
        count_where(ids, q) <= count_where(ids, p),
        (exists|i: int| 0 <= i < ids.len() && p(#[trigger] ids[i]) && !q(ids[i])) ==> count_where(ids, q)
            < count_where(ids, p),
    decreases ids.len(),
{
    if ids.len() > 0 {
        let shorter = ids.drop_last();
        assert forall|i: int| 0 <= i < shorter.len() && q(#[trigger] shorter[i]) implies p(shorter[i]) by {
            assert(shorter[i] == ids[i]);
        }
        lemma_count(shorter, p, q);
        assert(q(ids[ids.len() - 1]) ==> p(ids[ids.len() - 1]));
        if exists|i: int| 0 <= i < ids.len() && p(#[trigger] ids[i]) && !q(ids[i]) {
            let i = choose|i: int| 0 <= i < ids.len() && p(#[trigger] ids[i]) && !q(ids[i]);
            if i < ids.len() - 1 {
                assert(p(shorter[i]) && !q(shorter[i]));
            }
        }
    }
}

impl ResolverView {
    /// Whether a package has been resolved to a component.
    pub open spec fn supplied(self, id: IdView) -> bool {
        self.chosen.contains_key(id.name) && self.chosen[id.name].state.component() is Some
    }

    /// Whether a package has been resolved to a component and is not in the graph.
    pub open spec fn waiting(self, id: IdView) -> bool {
        self.chosen.contains_key(id.name) && self.chosen[id.name].state is Resolved
    }

    /// Whether a row of identifiers lists all packages that may become pending.
    pub open spec fn covered(self, ids: Seq<IdView>) -> bool {
        &&& forall|i: int| 0 <= i < ids.len() ==> (#[trigger] ids[i]).valid()
        &&& forall|i: int| 0 <= i < self.pending.len() ==> ids.contains(#[trigger] self.pending[i])
        &&& forall|i: int| 0 <= i < self.top_level.len() ==> ids.contains(#[trigger] self.top_level[i])
        &&& forall|name: NameView| #[trigger]
            self.chosen.contains_key(name) ==> (self.chosen[name].state.component() matches Some(component)
                ==> self.component_covered(ids, component))
    }

    /// Whether a row of identifiers lists all packages that a component needs.
    pub open spec fn component_covered(self, ids: Seq<IdView>, component: ComponentView) -> bool {
        forall|k: int|
            0 <= k < needed(self.hosts, component.imports).len() ==> ids.contains(
                #[trigger] needed(self.hosts, component.imports)[k],
            )
    }

    /// The number of identifiers of packages that have been resolved to components.
    pub open spec fn supplied_count(self, ids: Seq<IdView>) -> nat {
        count_where(ids, |id: IdView| self.supplied(id))
    }

    /// The number of identifiers of packages that wait to be put into the graph.
    pub open spec fn waiting_count(self, ids: Seq<IdView>) -> nat {
        count_where(ids, |id: IdView| self.waiting(id))
    }
}

/// Every step of resolution brings it closer to its end: packages lose their components, or are put
/// into the graph, or fewer packages are pending, and what counts more does not grow.
pub proof fn law_step_makes_progress(s: ResolverView, ids: Seq<IdView>)
    requires
        s.pending.len() > 0,
        s.step() is Ok,
        s.covered(ids),
    ensures
        s.step()->Ok_0.covered(ids),
        decreases_to!(
            s.supplied_count(ids), s.waiting_count(ids), s.pending.len()
            => s.step()->Ok_0.supplied_count(ids), s.step()->Ok_0.waiting_count(ids),
            s.step()->Ok_0.pending.len()
        ),
{
    let id = s.pending.last();
    let t = s.step()->Ok_0;
    let info = s.chosen[id.name];
    assert(s.pending[s.pending.len() - 1] == id);
    assert(ids.contains(id));
    let at = ids.index_of(id);
    assert(ids[at] == id);
    let supplied = (|x: IdView| s.supplied(x), |x: IdView| t.supplied(x));
    let waiting = (|x: IdView| s.waiting(x), |x: IdView| t.waiting(x));
    assert forall|i: int| 0 <= i < ids.len() && t.supplied(#[trigger] ids[i]) implies s.supplied(ids[i]) by {}
    lemma_count(ids, supplied.0, supplied.1);
    if !s.chosen.contains_key(id.name) {
        lemma_count(ids, waiting.0, waiting.1);
        lemma_covered(s, t, ids);
    } else {
        if version_max(info.version, id.version) != info.version {
            if info.state is InGraph {
                assert(s.supplied(ids[at]) && !t.supplied(ids[at]));
                lemma_reset_covered(s, ids);
            } else if info.state is Resolved {
                assert(s.supplied(ids[at]) && !t.supplied(ids[at]));
                lemma_covered(s, t, ids);
            } else {
                lemma_count(ids, waiting.0, waiting.1);
                lemma_covered(s, t, ids);
            }
        } else {
            if info.state is Resolved {
                assert(s.waiting(ids[at]) && !t.waiting(ids[at]));
                lemma_count(ids, waiting.0, waiting.1);
                lemma_linked_covered(s, ids);
            } else {
                lemma_count(ids, waiting.0, waiting.1);
                lemma_covered(s, t, ids);
            }
        }
    }
}

/// Resolution comes to an end. Here `names` lists the packages that are noted.
pub proof fn law_resolution_ends(s: ResolverView, names: Seq<NameView>)
    requires
        s.inv(),
        s.chosen.dom() == names.to_set(),
    ensures
        exists|n: nat| #[trigger] s.ends(n),
{
    lemma_covering(s, names);
    lemma_ends(s, s.covering(names));
}

/// Resolution comes to an end if a row lists all packages that may become pending.
proof fn lemma_ends(s: ResolverView, ids: Seq<IdView>)
    requires
        s.covered(ids),
    ensures
        exists|n: nat| #[trigger] s.ends(n),
    decreases s.supplied_count(ids), s.waiting_count(ids), s.pending.len(),
{
    if s.pending.len() == 0 {
        assert(s.ends(0));
    } else if s.step() is Err {
        reveal_with_fuel(ResolverView::run, 2);
        assert(s.ends(1));
    } else {
        let t = s.step()->Ok_0;
        law_step_makes_progress(s, ids);
        lemma_ends(t, ids);
        let n = choose|n: nat| #[trigger] t.ends(n);
        lemma_run_after_step(s, n);
        assert(s.ends(n + 1));
    }
}

/// Running one step more from a state is running from the state after a step.
proof fn lemma_run_after_step(s: ResolverView, n: nat)
    requires
        s.pending.len() > 0,
        s.step() is Ok,
    ensures
        s.run(n + 1) == s.step()->Ok_0.run(n),
    decreases n,
{
    if n == 0 {
        reveal_with_fuel(ResolverView::run, 2);
    } else {
        lemma_run_after_step(s, (n - 1) as nat);
    }
}

/// A row that lists all packages that may become pending does so still if nothing else becomes
/// pending and nothing is supplied.
proof fn lemma_covered(s: ResolverView, t: ResolverView, ids: Seq<IdView>)
    requires
        s.covered(ids),
        s.pending.len() > 0,
        t.top_level == s.top_level,
        t.hosts == s.hosts,
        t.pending == s.pending.drop_last(),
        forall|name: NameView| #[trigger]
            t.chosen.contains_key(name) && t.chosen[name].state.component() is Some
                ==> s.chosen.contains_key(name) && s.chosen[name].state.component()
                == t.chosen[name].state.component(),
    ensures
        t.covered(ids),
{
    assert forall|i: int| 0 <= i < t.pending.len() implies ids.contains(#[trigger] t.pending[i]) by {
        assert(t.pending[i] == s.pending[i]);
    }
    assert forall|name: NameView| #[trigger] t.chosen.contains_key(name) implies (
    t.chosen[name].state.component() matches Some(component) ==> t.component_covered(ids, component)) by {
        if t.chosen[name].state.component() is Some {
            assert(s.chosen.contains_key(name));
            assert(s.component_covered(ids, s.chosen[name].state.component()->0));
        }
    }
}

/// A row that lists all packages that may become pending does so still after a package was put
/// into the graph.
proof fn lemma_linked_covered(s: ResolverView, ids: Seq<IdView>)
    requires
        s.covered(ids),
        s.pending.len() > 0,
        s.chosen.contains_key(s.pending.last().name),
        s.chosen[s.pending.last().name].state is Resolved,
        s.step() is Ok,
        version_max(s.chosen[s.pending.last().name].version, s.pending.last().version)
            == s.chosen[s.pending.last().name].version,
    ensures
        s.step()->Ok_0.covered(ids),
{
    let id = s.pending.last();
    let t = s.step()->Ok_0;
    let component = s.chosen[id.name].state->Resolved_0;
    let depends = needed(s.hosts, component.imports);
    assert(s.component_covered(ids, component));
    assert forall|i: int| 0 <= i < t.pending.len() implies ids.contains(#[trigger] t.pending[i]) by {
        if i < s.pending.len() - 1 {
            assert(t.pending[i] == s.pending[i]);
        } else {
            assert(t.pending[i] == depends[i - (s.pending.len() - 1)]);
        }
    }
    assert forall|name: NameView| #[trigger] t.chosen.contains_key(name) implies (
    t.chosen[name].state.component() matches Some(c) ==> t.component_covered(ids, c)) by {
        assert(s.chosen.contains_key(name));
        if t.chosen[name].state.component() is Some {
            assert(s.component_covered(ids, s.chosen[name].state.component()->0));
        }
    }
}

/// A row that lists all packages that may become pending does so still after resolution began
/// again.
proof fn lemma_reset_covered(s: ResolverView, ids: Seq<IdView>)
    requires
        s.covered(ids),
        s.pending.len() > 0,
        s.chosen.contains_key(s.pending.last().name),
        s.chosen[s.pending.last().name].state is InGraph,
        s.step() is Ok,
        version_max(s.chosen[s.pending.last().name].version, s.pending.last().version)
            != s.chosen[s.pending.last().name].version,
    ensures
        s.step()->Ok_0.covered(ids),
{
    let t = s.step()->Ok_0;
    assert forall|name: NameView| #[trigger] t.chosen.contains_key(name) implies (
    t.chosen[name].state.component() matches Some(c) ==> t.component_covered(ids, c)) by {
        assert(s.chosen.contains_key(name));
        assert(s.component_covered(ids, s.chosen[name].state.component()->0));
    }
}

/// Whether a component imports an interface of a package with the given name.
pub open spec fn imports_name(component: ComponentView, name: NameView) -> bool {
    exists|k: int|
        0 <= k < component.imports.len() && (#[trigger] component.imports[k]).package.name == name
}

impl ResolverView {
    /// Whether a package with the given name is top-level, noted or pending, or a component that
    /// was supplied imports an interface of it.
    pub open spec fn knows(self, name: NameView) -> bool {
        ||| self.is_top_level(name)
        ||| self.chosen.contains_key(name)
        ||| id_names(self.pending).contains(name)
        ||| exists|other: NameView| #[trigger]
            self.chosen.contains_key(other) && self.chosen[other].state.component() is Some && imports_name(
                self.chosen[other].state.component()->0,
                name,
            )
        ||| exists|i: int|
            0 <= i < self.requests.len() && (#[trigger] self.requests[i]).selected is Some && imports_name(
                self.requests[i].selected->Some_0.1,
                name,
            )
    }

    /// The names of all packages that may come into the graph without anything else being
    /// supplied.
    pub open spec fn known_names(self) -> Set<NameView> {
        Set::new(|name: NameView| self.knows(name))
    }

    /// Whether all packages that are noted, or may come to be, have names of a set.
    pub open spec fn within(self, names: Set<NameView>) -> bool {
        &&& forall|name: NameView| #[trigger] self.chosen.contains_key(name) ==> names.contains(name)
        &&& forall|i: int| 0 <= i < self.pending.len() ==> names.contains((#[trigger] self.pending[i]).name)
        &&& forall|i: int|
            0 <= i < self.top_level.len() ==> names.contains((#[trigger] self.top_level[i]).name)
        &&& forall|other: NameView, name: NameView|
            #![trigger self.chosen.contains_key(other), names.contains(name)]
            self.chosen.contains_key(other) && self.chosen[other].state.component() is Some && imports_name(
                self.chosen[other].state.component()->0,
                name,
            ) ==> names.contains(name)
    }
}

/// Only packages with known names are noted when resolution goes on.
pub proof fn lemma_start_within(s: ResolverView)
    requires
        s.inv(),
    ensures
        s.start().within(s.known_names()),
{
    let t = s.start();
    let n = s.requests.len();
    let names = s.known_names();
    lemma_accepted(s, n);
    assert forall|name: NameView| #[trigger] t.chosen.contains_key(name) implies names.contains(name) by {
        assert(t.chosen.dom().contains(name));
        assert(s.chosen.contains_key(name));
    }
    assert forall|i: int| 0 <= i < t.pending.len() implies names.contains((#[trigger] t.pending[i]).name) by {
        lemma_accepted_pending(s, n, i);
    }
    assert forall|i: int| 0 <= i < t.top_level.len() implies names.contains((#[trigger] t.top_level[i]).name) by {
        assert(id_names(s.top_level)[i] == s.top_level[i].name);
    }
    assert forall|other: NameView, name: NameView|
        #![trigger t.chosen.contains_key(other), names.contains(name)]
        t.chosen.contains_key(other) && t.chosen[other].state.component() is Some && imports_name(
            t.chosen[other].state.component()->0,
            name,
        ) implies names.contains(name) by {
        assert(t.chosen.dom().contains(other));
        assert(s.chosen.contains_key(other));
        if exists|i: int| 0 <= i < n && (#[trigger] s.requests[i]).id.name == other {
            let i = choose|i: int| 0 <= i < n && (#[trigger] s.requests[i]).id.name == other;
            assert(s.carried_to(t, s.requests[i]));
            assert(s.requests[i].selected is Some);
            assert(imports_name(s.requests[i].selected->Some_0.1, name));
        } else {
            assert(t.chosen[other] == s.chosen[other]);
        }
    }
}

/// What becomes pending because it was supplied was noted as requested.
proof fn lemma_accepted_pending(s: ResolverView, k: nat, i: int)
    requires
        s.inv(),
        k <= s.requests.len(),
        0 <= i < s.accepted(k).pending.len(),
    ensures
        s.known_names().contains(s.accepted(k).pending[i].name),
    decreases k,
{
    if k == 0 {
        assert(id_names(s.pending)[i] == s.pending[i].name);
    } else {
        let b = s.accepted((k - 1) as nat);
        let r = s.requests[k - 1];
        if i < b.pending.len() {
            lemma_accepted_pending(s, (k - 1) as nat, i);
        } else {
            assert(s.request_ok(r));
        }
    }
}

/// Every step of resolution notes only packages with known names.
pub proof fn lemma_step_within(s: ResolverView, names: Set<NameView>)
    requires
        s.within(names),
        s.pending.len() > 0,
        s.step() is Ok,
    ensures
        s.step()->Ok_0.within(names),
{
    let id = s.pending.last();
    let t = s.step()->Ok_0;
    assert(names.contains(s.pending[s.pending.len() - 1].name));
    assert forall|other: NameView, name: NameView|
        #![trigger t.chosen.contains_key(other), names.contains(name)]
        t.chosen.contains_key(other) && t.chosen[other].state.component() is Some && imports_name(
            t.chosen[other].state.component()->0,
            name,
        ) implies names.contains(name) by {
        assert(s.chosen.contains_key(other));
        assert(s.chosen[other].state.component() == t.chosen[other].state.component());
    }
    assert forall|i: int| 0 <= i < t.pending.len() implies names.contains((#[trigger] t.pending[i]).name) by {
        if t.graph.dom() == Set::<NameView>::empty() && t.pending == t.top_level {
            assert(t.pending[i] == s.top_level[i]);
        } else if i < s.pending.len() - 1 {
            assert(t.pending[i] == s.pending[i]);
        } else {
            let component = s.chosen[id.name].state->Resolved_0;
            let depends = needed(s.hosts, component.imports);
            let at = i - (s.pending.len() - 1);
            assert(t.pending[i] == depends[at]);
            lemma_needed(s.hosts, component.imports);
            assert(depends.contains(depends[at]));
            let k = choose|k: int|
                0 <= k < component.imports.len() && !s.hosts.contains_key(
                    (#[trigger] component.imports[k]).unversioned(),
                ) && component.imports[k].package == depends[at];
            assert(imports_name(component, depends[at].name));
            assert(s.chosen.contains_key(id.name));
            assert(names.contains(depends[at].name));
        }
    }
}

/// When nothing is pending or requested, the packages that a package in the graph needs are in the
/// graph, in versions that satisfy it, and in exactly those that it names if they are top-level.
pub proof fn law_needs_are_met(s: ResolverView, name: NameView, k: int)
    requires
        s.inv(),
        s.pending.len() == 0,
        s.requests.len() == 0,
        s.graph.contains_key(name),
        0 <= k < needed(s.hosts, s.chosen[name].state->InGraph_0.imports).len(),
    ensures
        s.graph.contains_key(needed(s.hosts, s.chosen[name].state->InGraph_0.imports)[k].name),
        version_matches(
            needed(s.hosts, s.chosen[name].state->InGraph_0.imports)[k].version,
            s.chosen[needed(s.hosts, s.chosen[name].state->InGraph_0.imports)[k].name].version,
        ),
        s.is_top_level(needed(s.hosts, s.chosen[name].state->InGraph_0.imports)[k].name) ==> needed(
            s.hosts,
            s.chosen[name].state->InGraph_0.imports,
        )[k].version == s.chosen[needed(s.hosts, s.chosen[name].state->InGraph_0.imports)[k].name].version,
{
    let component = s.chosen[name].state->InGraph_0;
    let id = needed(s.hosts, component.imports)[k];
    assert(s.node_ok(name, component));
    assert(s.settled(id));
    lemma_all_in_graph(s, id.name);
}

/// When nothing is pending or requested, every top-level package is in the graph, in exactly its
/// version.
pub proof fn law_top_level_is_met(s: ResolverView, i: int)
    requires
        s.inv(),
        s.pending.len() == 0,
        s.requests.len() == 0,
        0 <= i < s.top_level.len(),
    ensures
        s.graph.contains_key(s.top_level[i].name),
        s.chosen[s.top_level[i].name].version == s.top_level[i].version,
{
    assert(s.top_settled(s.top_level[i]));
    lemma_all_in_graph(s, s.top_level[i].name);
}

/// When nothing is pending or requested, what is attended to is in the graph.
proof fn lemma_all_in_graph(s: ResolverView, name: NameView)
    requires
        s.inv(),
        s.pending.len() == 0,
        s.requests.len() == 0,
        s.chosen.contains_key(name),
        s.attended(name),
    ensures
        s.graph.contains_key(name),
{
    assert(s.info_ok(name));
    assert(id_names(s.pending).len() == 0);
}

impl ResolverView {
    /// Whether a package is top-level, or a package in the graph needs it.
    pub open spec fn wanted(self, name: NameView) -> bool {
        self.is_top_level(name) || exists|other: NameView| #[trigger]
            self.graph.contains_key(other) && self.graph[other].contains(name)
    }

    /// Whether all packages that are pending, requested or in the graph are there because they are
    /// top-level or a package in the graph needs them.
    pub open spec fn all_wanted(self) -> bool {
        &&& forall|i: int| 0 <= i < self.pending.len() ==> self.wanted((#[trigger] self.pending[i]).name)
        &&& forall|i: int|
            0 <= i < self.requests.len() ==> self.wanted((#[trigger] self.requests[i]).id.name)
        &&& forall|name: NameView| #[trigger] self.graph.contains_key(name) ==> self.wanted(name)
    }
}

/// Every step of resolution keeps that nothing is pending, requested or in the graph but what is
/// top-level or needed.
#[verifier::spinoff_prover]
pub proof fn law_step_keeps_wanted(s: ResolverView)
    requires
        s.inv(),
        s.placed(),
        s.all_wanted(),
        s.pending.len() > 0,
        s.step() is Ok,
    ensures
        s.step()->Ok_0.all_wanted(),
{
    let id = s.pending.last();
    let t = s.step()->Ok_0;
    let info = s.chosen[id.name];
    assert(s.wanted(s.pending[s.pending.len() - 1].name));
    if s.chosen.contains_key(id.name) && info.state is InGraph && version_max(info.version, id.version)
        != info.version {
        assert forall|i: int| 0 <= i < t.pending.len() implies t.wanted((#[trigger] t.pending[i]).name) by {
            assert(id_names(t.top_level)[i] == t.pending[i].name);
        }
    } else {
        assert forall|name: NameView| s.wanted(name) implies #[trigger] t.wanted(name) by {
            if !s.is_top_level(name) {
                let other = choose|other: NameView| #[trigger]
                    s.graph.contains_key(other) && s.graph[other].contains(name);
                assert(other != id.name || t.graph == s.graph);
                assert(t.graph.contains_key(other) && t.graph[other].contains(name));
            }
        }
        assert forall|i: int| 0 <= i < t.pending.len() implies t.wanted((#[trigger] t.pending[i]).name) by {
            if i < s.pending.len() - 1 {
                assert(t.pending[i] == s.pending[i]);
                assert(s.wanted(s.pending[i].name));
            } else {
                let depends = needed(s.hosts, info.state->Resolved_0.imports);
                let at = i - (s.pending.len() - 1);
                assert(t.pending[i] == depends[at]);
                assert(id_names(depends)[at] == depends[at].name);
                assert(id_names(depends).contains(depends[at].name));
                assert(t.graph.contains_key(id.name));
            }
        }
        assert forall|i: int| 0 <= i < t.requests.len() implies t.wanted((#[trigger] t.requests[i]).id.name) by {
            if i < s.requests.len() {
                assert(s.wanted(s.requests[i].id.name));
                assert(s.request_ok(s.requests[i]));
                assert(s.chosen[s.requests[i].id.name].state == StateView::Unresolved(i));
            }
        }
        assert forall|name: NameView| #[trigger] t.graph.contains_key(name) implies t.wanted(name) by {
            if name != id.name {
                assert(s.graph.contains_key(name));
                assert(s.wanted(name));
            }
        }
    }
}

/// Taking over the packages that were supplied keeps that nothing is pending, requested or in the
/// graph but what is top-level or needed.
pub proof fn law_start_keeps_wanted(s: ResolverView)
    requires
        s.inv(),
        s.all_wanted(),
    ensures
        s.start().all_wanted(),
{
    let t = s.start();
    let n = s.requests.len();
    lemma_accepted(s, n);
    assert forall|name: NameView| s.wanted(name) implies #[trigger] t.wanted(name) by {
        if !s.is_top_level(name) {
            let other = choose|other: NameView| #[trigger]
                s.graph.contains_key(other) && s.graph[other].contains(name);
            assert(t.graph.contains_key(other) && t.graph[other].contains(name));
        }
    }
    assert forall|i: int| 0 <= i < t.pending.len() implies t.wanted((#[trigger] t.pending[i]).name) by {
        lemma_accepted_wanted(s, n, i);
    }
    assert forall|j: int| 0 <= j < t.requests.len() implies t.wanted((#[trigger] t.requests[j]).id.name) by {
        let i = choose|i: int| 0 <= i < n && #[trigger] s.requests[i] == t.requests[j];
        assert(s.wanted(s.requests[i].id.name));
    }
}

/// What becomes pending because it was supplied was wanted.
proof fn lemma_accepted_wanted(s: ResolverView, k: nat, i: int)
    requires
        s.inv(),
        s.all_wanted(),
        k <= s.requests.len(),
        0 <= i < s.accepted(k).pending.len(),
    ensures
        s.wanted(s.accepted(k).pending[i].name),
    decreases k,
{
    if k > 0 {
        let b = s.accepted((k - 1) as nat);
        let r = s.requests[k - 1];
        if i < b.pending.len() {
            lemma_accepted_wanted(s, (k - 1) as nat, i);
        } else {
            assert(s.request_ok(r));
            assert(s.wanted(r.id.name));
        }
    }
}

impl ResolverView {
    /// All packages that the components of a row of packages need.
    pub open spec fn all_needed(self, names: Seq<NameView>) -> Seq<IdView>
        decreases names.len(),
    {
        if names.len() == 0 {
            Seq::empty()
        } else {
            self.all_needed(names.drop_last()) + match self.chosen[names.last()].state.component() {
                Some(component) => needed(self.hosts, component.imports),
                None => Seq::empty(),
            }
        }
    }

    /// All packages that may become pending, where `names` lists those that are noted.
    pub open spec fn covering(self, names: Seq<NameView>) -> Seq<IdView> {
        self.pending + self.top_level + self.all_needed(names)
    }
}

/// What the component of a package needs is among what those of a row with the package need, and
/// all of that is valid.
proof fn lemma_all_needed(s: ResolverView, names: Seq<NameView>)
    requires
        s.inv(),
        forall|i: int| 0 <= i < names.len() ==> s.chosen.contains_key(#[trigger] names[i]),
    ensures
        forall|i: int| 0 <= i < s.all_needed(names).len() ==> (#[trigger] s.all_needed(names)[i]).valid(),
        forall|i: int|
            0 <= i < names.len() ==> (s.chosen[#[trigger] names[i]].state.component() matches Some(component)
                ==> s.component_covered(s.all_needed(names), component)),
    decreases names.len(),
{
    if names.len() > 0 {
        let shorter = names.drop_last();
        let before = s.all_needed(shorter);
        let all = s.all_needed(names);
        assert forall|i: int| 0 <= i < shorter.len() implies s.chosen.contains_key(#[trigger] shorter[i]) by {
            assert(shorter[i] == names[i]);
        }
        lemma_all_needed(s, shorter);
        let last = names.last();
        assert(s.chosen.contains_key(names[names.len() - 1]));
        assert(s.info_ok(last));
        let state = s.chosen[last].state;
        if state.component() is Some {
            lemma_needed_valid(s.hosts, state.component()->0);
        }
        assert forall|i: int| 0 <= i < all.len() implies (#[trigger] all[i]).valid() by {
            if i < before.len() {
                assert(all[i] == before[i]);
            } else {
                assert(all[i] == needed(s.hosts, state.component()->0.imports)[i - before.len()]);
            }
        }
        assert forall|i: int| 0 <= i < names.len() implies (s.chosen[#[trigger] names[i]].state.component() matches Some(
            component,
        ) ==> s.component_covered(all, component)) by {
            if s.chosen[names[i]].state.component() is Some {
                let depends = needed(s.hosts, s.chosen[names[i]].state.component()->0.imports);
                assert forall|k: int| 0 <= k < depends.len() implies all.contains(#[trigger] depends[k]) by {
                    if i < names.len() - 1 {
                        assert(shorter[i] == names[i]);
                        assert(s.component_covered(before, s.chosen[shorter[i]].state.component()->0));
                        assert(before.contains(depends[k]));
                        assert(all[before.index_of(depends[k])] == depends[k]);
                    } else {
                        assert(all[before.len() + k] == depends[k]);
                    }
                }
            }
        }
    }
}

/// There is a row that lists all packages that may become pending.
pub proof fn lemma_covering(s: ResolverView, names: Seq<NameView>)
    requires
        s.inv(),
        s.chosen.dom() == names.to_set(),
    ensures
        s.covered(s.covering(names)),
{
    let all = s.covering(names);
    let needs = s.all_needed(names);
    assert forall|i: int| 0 <= i < names.len() implies s.chosen.contains_key(#[trigger] names[i]) by {
        assert(names.to_set().contains(names[i]));
    }
    lemma_all_needed(s, names);
    let offset = s.pending.len() + s.top_level.len();
    assert forall|i: int| 0 <= i < all.len() implies (#[trigger] all[i]).valid() by {
        if i >= offset {
            assert(all[i] == needs[i - offset]);
        } else if i >= s.pending.len() {
            assert(all[i] == s.top_level[i - s.pending.len()]);
        } else {
            assert(all[i] == s.pending[i]);
        }
    }
    assert forall|i: int| 0 <= i < s.pending.len() implies all.contains(#[trigger] s.pending[i]) by {
        assert(all[i] == s.pending[i]);
    }
    assert forall|i: int| 0 <= i < s.top_level.len() implies all.contains(#[trigger] s.top_level[i]) by {
        assert(all[s.pending.len() + i] == s.top_level[i]);
    }
    assert forall|name: NameView| #[trigger] s.chosen.contains_key(name) implies (
    s.chosen[name].state.component() matches Some(component) ==> s.component_covered(all, component)) by {
        if s.chosen[name].state.component() is Some {
            assert(names.to_set().contains(name));
            let at = names.index_of(name);
            assert(names[at] == name);
            let depends = needed(s.hosts, s.chosen[name].state.component()->0.imports);
            assert forall|k: int| 0 <= k < depends.len() implies all.contains(#[trigger] depends[k]) by {
                assert(s.component_covered(needs, s.chosen[names[at]].state.component()->0));
                assert(needs.contains(depends[k]));
                assert(all[offset + needs.index_of(depends[k])] == depends[k]);
            }
        }
    }
}

impl ResolverView {
    /// Whether the packages that may come into the graph are few enough for their dependencies to be
    /// tabulated, with a flag for each two of them.
    pub open spec fn limited(self) -> bool {
        &&& self.known_names().finite()
        &&& self.known_names().len() * self.known_names().len() <= usize::MAX / 8
    }

    /// Whether a package that is noted has the given name, or its component imports an interface of
    /// a package with that name.
    pub open spec fn brings(self, noted: NameView, name: NameView) -> bool {
        ||| noted == name
        ||| self.chosen[noted].state.component() matches Some(component) && imports_name(component, name)
    }
}

/// What is known of a resolver's packages, where `noted` lists those that are noted.
pub proof fn lemma_knows(s: ResolverView, noted: Seq<NameView>, name: NameView)
    requires
        s.chosen.dom() == noted.to_set(),
    ensures
        s.knows(name) <==> {
            ||| id_names(s.top_level).contains(name)
            ||| id_names(s.pending).contains(name)
            ||| exists|k: int| 0 <= k < noted.len() && s.brings(#[trigger] noted[k], name)
            ||| exists|k: int|
                0 <= k < s.requests.len() && (#[trigger] s.requests[k]).selected is Some && imports_name(
                    s.requests[k].selected->Some_0.1,
                    name,
                )
        },
{
    assert forall|other: NameView| #[trigger] s.chosen.contains_key(other) implies noted.contains(other) by {
        assert(noted.to_set().contains(other));
    }
    assert forall|k: int| 0 <= k < noted.len() implies s.chosen.contains_key(#[trigger] noted[k]) by {
        assert(noted.to_set().contains(noted[k]));
    }
    if s.chosen.contains_key(name) {
        assert(s.brings(noted[noted.index_of(name)], name));
    }
    if exists|other: NameView| #[trigger]
        s.chosen.contains_key(other) && s.chosen[other].state.component() is Some && imports_name(
            s.chosen[other].state.component()->0,
            name,
        ) {
        let other = choose|other: NameView| #[trigger]
            s.chosen.contains_key(other) && s.chosen[other].state.component() is Some && imports_name(
                s.chosen[other].state.component()->0,
                name,
            );
        assert(s.brings(noted[noted.index_of(other)], name));
    }
}

/// If the packages that are noted have few names, the graph has few nodes.
pub proof fn lemma_few_nodes(s: ResolverView, names: Set<NameView>)
    requires
        s.inv(),
        s.within(names),
        names.finite(),
        names.len() * names.len() <= usize::MAX / 8,
    ensures
        s.graph.dom().len() * s.graph.dom().len() <= usize::MAX / 8,
        s.graph.dom().len() <= u32::MAX,
{
    let nodes = s.graph.dom();
    assert forall|name: NameView| nodes.contains(name) implies #[trigger] names.contains(name) by {
        assert(s.graph.contains_key(name));
        assert(s.chosen.contains_key(name));
    }
    assert(nodes.subset_of(names));
    vstd::set_lib::lemma_len_subset(nodes, names);
    let m = nodes.len();
    let n = names.len();
    assert(m * m <= n * n) by (nonlinear_arith)
        requires
            0 <= m <= n,
    ;
    assert(m <= u32::MAX) by (nonlinear_arith)
        requires
            m * m <= 0x1fff_ffff_ffff_ffff,
            0 <= m,
    ;
}

/// Supplying a package that was asked for keeps what holds at all times.
#[verifier::spinoff_prover]
pub proof fn law_supplying_keeps_invariant(s: ResolverView, i: int, request: RequestView)
    requires
        s.inv(),
        s.all_wanted(),
        0 <= i < s.requests.len(),
        request.id == s.requests[i].id,
        request.exact == s.requests[i].exact,
        request.well_selected(),
    ensures
        (ResolverView { requests: s.requests.update(i, request), ..s }).inv(),
        (ResolverView { requests: s.requests.update(i, request), ..s }).all_wanted(),
{
    let t = ResolverView { requests: s.requests.update(i, request), ..s };
    assert forall|j: int| 0 <= j < t.requests.len() implies t.request_ok(#[trigger] t.requests[j]) && t.wanted(
        t.requests[j].id.name,
    ) by {
        assert(s.request_ok(s.requests[j]));
        assert(s.wanted(s.requests[j].id.name));
        assert(t.graph == s.graph);
        assert(t.top_level == s.top_level);
    }
    assert forall|a: int, b: int| 0 <= a < b < t.requests.len() implies (#[trigger] t.requests[a]).id.name != (
    #[trigger] t.requests[b]).id.name by {
        assert(s.requests[a].id.name != s.requests[b].id.name);
    }
    assert forall|name: NameView| #[trigger] t.chosen.contains_key(name) implies t.info_ok(name) by {
        assert(s.chosen.contains_key(name));
        lemma_info_stays_ok(s, t, name);
    }
    assert forall|name: NameView| #[trigger] t.graph.contains_key(name) implies t.node_ok(
        name,
        t.chosen[name].state->InGraph_0,
    ) && t.wanted(name) by {
        assert(s.graph.contains_key(name));
        let component = s.chosen[name].state->InGraph_0;
        assert(s.node_ok(name, component));
        assert(s.wanted(name));
        let depends = needed(s.hosts, component.imports);
        assert forall|k: int| 0 <= k < depends.len() implies t.settled(#[trigger] depends[k]) by {
            assert(s.settled(depends[k]));
        }
    }
    assert forall|j: int| 0 <= j < t.top_level.len() implies t.top_settled(#[trigger] t.top_level[j]) by {
        assert(s.top_settled(s.top_level[j]));
    }
    assert forall|j: int| 0 <= j < t.pending.len() implies t.wanted((#[trigger] t.pending[j]).name) by {
        assert(s.wanted(s.pending[j].name));
    }
}

/// Resolving again when nothing has been supplied since packages were found missing finds the same
/// packages missing, and loses nothing.
pub proof fn law_resolving_again_changes_nothing(s: ResolverView)
    requires
        s.inv(),
        s.placed(),
        s.pending.len() == 0,
    ensures
        s.start() == s,
        s.start().ends(0),
        s.start().run(0) == Ok::<ResolverView, ConflictView>(s),
{
    lemma_accepting_nothing(s, s.requests.len());
    assert(s.requests.take(s.requests.len() as int) =~= s.requests);
}

/// Looking at requests of which none was supplied changes nothing.
proof fn lemma_accepting_nothing(s: ResolverView, k: nat)
    requires
        s.inv(),
        s.placed(),
        k <= s.requests.len(),
    ensures
        s.accepted(k) == (ResolverView { requests: s.requests.take(k as int), ..s }),
    decreases k,
{
    if k == 0 {
        assert(s.requests.take(0) =~= Seq::<RequestView>::empty());
    } else {
        lemma_accepting_nothing(s, (k - 1) as nat);
        let request = s.requests[k - 1];
        assert(s.request_ok(request));
        assert(request.selected is None);
        let before = s.accepted((k - 1) as nat);
        assert(before.requests.len() == k - 1);
        assert(s.requests.take(k as int) =~= s.requests.take(k - 1).push(request));
        assert(s.accepted(k).chosen =~= s.chosen);
    }
}

impl ResolverView {
    /// Whether a package is noted in the version of an identifier and with a component.
    pub open spec fn noted_pair(self, id: IdView, component: ComponentView) -> bool {
        &&& self.chosen.contains_key(id.name)
        &&& self.chosen[id.name].version == id.version
        &&& self.chosen[id.name].state.component() == Some(component)
    }

    /// Whether an identifier and a component were selected together for a request, or are noted
    /// together.
    pub open spec fn supplied_pair(self, id: IdView, component: ComponentView) -> bool {
        ||| self.noted_pair(id, component)
        ||| exists|i: int| 0 <= i < self.requests.len() && (#[trigger] self.requests[i]).selected == Some((id, component))
    }
}

/// No step of resolution pairs a component with an identifier: those that are noted together after
/// the step were noted together before.
pub proof fn law_step_keeps_pairs(s: ResolverView, id: IdView, component: ComponentView)
    requires
        s.pending.len() > 0,
        s.step() is Ok,
        s.step()->Ok_0.noted_pair(id, component),
    ensures
        s.noted_pair(id, component),
{
}

/// However many steps resolution takes, an identifier and a component that are noted together were
/// noted together when it began.
pub proof fn law_run_keeps_pairs(s: ResolverView, n: nat, id: IdView, component: ComponentView)
    requires
        s.run(n) is Ok,
        s.run(n)->Ok_0.noted_pair(id, component),
    ensures
        s.noted_pair(id, component),
    decreases n,
{
    if n > 0 {
        let before = s.run((n - 1) as nat)->Ok_0;
        if before.pending.len() > 0 {
            law_step_keeps_pairs(before, id, component);
        }
        law_run_keeps_pairs(s, (n - 1) as nat, id, component);
    }
}

/// When resolution goes on, only identifiers and components are noted together that were supplied
/// together or were noted together before.
pub proof fn law_start_keeps_pairs(s: ResolverView, id: IdView, component: ComponentView)
    requires
        s.inv(),
        s.start().noted_pair(id, component),
    ensures
        s.supplied_pair(id, component),
{
    let t = s.start();
    let n = s.requests.len();
    lemma_accepted(s, n);
    assert(t.chosen.dom().contains(id.name));
    assert(s.chosen.contains_key(id.name));
    if exists|i: int| 0 <= i < n && (#[trigger] s.requests[i]).id.name == id.name {
        let i = choose|i: int| 0 <= i < n && (#[trigger] s.requests[i]).id.name == id.name;
        assert(s.request_ok(s.requests[i]));
        assert(s.carried_to(t, s.requests[i]));
        assert(s.requests[i].selected == Some((id, component)));
    } else {
        assert(t.chosen[id.name] == s.chosen[id.name]);
    }
}

/// Supplying a package pairs the identifier and the component that were supplied, and no others.
pub proof fn law_supplying_adds_one_pair(
    s: ResolverView,
    i: int,
    request: RequestView,
    id: IdView,
    component: ComponentView,
)
    requires
        0 <= i < s.requests.len(),
        (ResolverView { requests: s.requests.update(i, request), ..s }).supplied_pair(id, component),
    ensures
        s.supplied_pair(id, component) || request.selected == Some((id, component)),
{
    let t = ResolverView { requests: s.requests.update(i, request), ..s };
    if !t.noted_pair(id, component) {
        let j = choose|j: int|
            0 <= j < t.requests.len() && (#[trigger] t.requests[j]).selected == Some((id, component));
        if j != i {
            assert(s.requests[j].selected == Some((id, component)));
        }
    }
}

impl ResolverView {
    /// Whether nothing has been supplied for any request, and packages that are noted as requested
    /// are noted with places of requests.
    pub open spec fn unsupplied(self) -> bool {
        &&& forall|i: int| 0 <= i < self.requests.len() ==> (#[trigger] self.requests[i]).selected is None
        &&& forall|name: NameView| #[trigger]
            self.chosen.contains_key(name) ==> (self.chosen[name].state matches StateView::Unresolved(i) ==> 0 <= i
                < self.requests.len())
    }

    /// The state after a package was supplied for request `i`.
    pub open spec fn with_supplied(self, i: int, id: IdView, component: ComponentView) -> Self {
        ResolverView {
            requests: self.requests.update(
                i,
                RequestView { selected: Some((id, component)), ..self.requests[i] },
            ),
            ..self
        }
    }

    /// Whether a state comes of another by supplying a package for a request.
    pub open spec fn supplies(self, next: Self, id: IdView, component: ComponentView) -> bool {
        exists|i: int|
            0 <= i < self.requests.len() && next == #[trigger] self.with_supplied(i, id, component)
    }

    /// Whether a state comes of another by going on with resolution.
    pub open spec fn resumes(self, next: Self) -> bool {
        exists|n: nat| #[trigger] self.start().run(n) == Ok::<ResolverView, ConflictView>(next)
    }

    /// Whether a state comes of another by supplying a package or by going on with resolution.
    pub open spec fn leads_on_to(self, next: Self) -> bool {
        self.resumes(next) || exists|id: IdView, component: ComponentView| #[trigger]
            self.supplies(next, id, component)
    }
}

/// Whether a row of states begins with one to which nothing has been supplied, and each comes of the
/// one before by supplying a package or by going on with resolution.
pub open spec fn is_history(history: Seq<ResolverView>) -> bool {
    &&& history.len() > 0
    &&& forall|id: IdView, component: ComponentView| !(#[trigger] history[0].supplied_pair(id, component))
    &&& forall|k: int| 0 <= k < history.len() - 1 ==> (#[trigger] history[k]).inv()
    &&& forall|k: int|
        0 <= k < history.len() - 1 ==> (#[trigger] history[k]).leads_on_to(history[k + 1])
}

/// While resolution runs, nothing is supplied for a request.
proof fn lemma_run_supplies_nothing(s: ResolverView, n: nat)
    requires
        s.unsupplied(),
        s.run(n) is Ok,
    ensures
        s.run(n)->Ok_0.unsupplied(),
    decreases n,
{
    if n > 0 {
        lemma_run_supplies_nothing(s, (n - 1) as nat);
        let before = s.run((n - 1) as nat)->Ok_0;
        let t = s.run(n)->Ok_0;
        assert forall|i: int| 0 <= i < t.requests.len() implies (#[trigger] t.requests[i]).selected is None by {
            if i < before.requests.len() {
                assert(before.requests[i].selected is None);
            }
        }
        assert forall|name: NameView| #[trigger] t.chosen.contains_key(name) implies (
        t.chosen[name].state matches StateView::Unresolved(i) ==> 0 <= i < t.requests.len()) by {
            if before.chosen.contains_key(name) {
                assert(before.chosen[name].state matches StateView::Unresolved(i) ==> 0 <= i
                    < before.requests.len());
            }
        }
    }
}

/// When resolution goes on, what was supplied has been taken over.
proof fn lemma_start_is_unsupplied(s: ResolverView)
    requires
        s.inv(),
    ensures
        s.start().unsupplied(),
{
    let t = s.start();
    lemma_accepted(s, s.requests.len());
    assert forall|name: NameView| #[trigger] t.chosen.contains_key(name) implies (
    t.chosen[name].state matches StateView::Unresolved(i) ==> 0 <= i < t.requests.len()) by {
        assert(t.chosen.dom().contains(name));
        assert(s.chosen.contains_key(name));
        assert(s.info_ok(name));
        if exists|i: int| 0 <= i < s.requests.len() && (#[trigger] s.requests[i]).id.name == name {
            let i = choose|i: int| 0 <= i < s.requests.len() && (#[trigger] s.requests[i]).id.name == name;
            assert(s.carried_to(t, s.requests[i]));
        } else {
            assert(t.chosen[name] == s.chosen[name]);
        }
    }
}

/// Whatever is done with a resolver, an identifier and a component come together only where they were
/// supplied together.
pub proof fn law_pairs_were_supplied(history: Seq<ResolverView>, id: IdView, component: ComponentView)
    requires
        is_history(history),
        history.last().supplied_pair(id, component),
    ensures
        exists|k: int|
            0 <= k < history.len() - 1 && (#[trigger] history[k]).supplies(history[k + 1], id, component),
    decreases history.len(),
{
    if history.len() > 1 {
        let k = history.len() - 2;
        let s = history[k];
        let t = history[k + 1];
        if !s.supplies(t, id, component) {
            lemma_pair_was_there(s, t, id, component);
            let shorter = history.drop_last();
            assert forall|j: int| 0 <= j < shorter.len() - 1 implies (#[trigger] shorter[j]).leads_on_to(
                shorter[j + 1],
            ) by {
                assert(shorter[j] == history[j] && shorter[j + 1] == history[j + 1]);
            }
            assert forall|j: int| 0 <= j < shorter.len() - 1 implies (#[trigger] shorter[j]).inv() by {
                assert(shorter[j] == history[j]);
            }
            law_pairs_were_supplied(shorter, id, component);
            let j = choose|j: int|
                0 <= j < shorter.len() - 1 && (#[trigger] shorter[j]).supplies(shorter[j + 1], id, component);
            assert(history[j].supplies(history[j + 1], id, component));
        }
    } else {
        assert(!history[0].supplied_pair(id, component));
    }
}

/// A pair that is not supplied in going from one state to another was there before.
proof fn lemma_pair_was_there(s: ResolverView, t: ResolverView, id: IdView, component: ComponentView)
    requires
        s.inv(),
        s.leads_on_to(t),
        t.supplied_pair(id, component),
        !s.supplies(t, id, component),
    ensures
        s.supplied_pair(id, component),
{
    if s.resumes(t) {
        let n = choose|n: nat| #[trigger] s.start().run(n) == Ok::<ResolverView, ConflictView>(t);
        lemma_start_is_unsupplied(s);
        lemma_run_supplies_nothing(s.start(), n);
        assert(t.noted_pair(id, component));
        law_run_keeps_pairs(s.start(), n, id, component);
        law_start_keeps_pairs(s, id, component);
    } else {
        let (x, c) = choose|x: IdView, c: ComponentView| #[trigger] s.supplies(t, x, c);
        let i = choose|i: int|
            0 <= i < s.requests.len() && t == #[trigger] s.with_supplied(i, x, c);
        law_supplying_adds_one_pair(
            s,
            i,
            RequestView { selected: Some((x, c)), ..s.requests[i] },
            id,
            component,
        );
    }
}

impl ResolverView {
    /// Whether a package is listed among the requests.
    pub open spec fn lists(self, name: NameView) -> bool {
        exists|i: int| 0 <= i < self.requests.len() && (#[trigger] self.requests[i]).id.name == name
    }

    /// Whether a package has been resolved to a component.
    pub open spec fn holds(self, name: NameView) -> bool {
        self.chosen.contains_key(name) && self.chosen[name].state.component() is Some
    }

    /// Whether the component of a package imports an interface, which the host does not provide, of
    /// a package with another name.
    pub open spec fn leads_to(self, name: NameView, other: NameView) -> bool {
        &&& self.holds(name)
        &&& id_names(needed(self.hosts, self.chosen[name].state.component()->0.imports)).contains(other)
    }

    /// Whether a row of packages begins with a top-level package, and the component of each imports
    /// from the next one.
    pub open spec fn is_trail(self, trail: Seq<NameView>) -> bool {
        &&& trail.len() > 0
        &&& self.is_top_level(trail[0])
        &&& forall|k: int| 0 <= k < trail.len() - 1 ==> self.leads_to(#[trigger] trail[k], trail[k + 1])
    }
}

/// When nothing is pending, a package that is wanted is in the graph, or it is listed among the
/// requests, and which of the two holds depends on whether it has a component.
pub proof fn law_wanted_packages_are_listed(s: ResolverView, name: NameView)
    requires
        s.inv(),
        s.pending.len() == 0,
        s.wanted(name),
    ensures
        s.chosen.contains_key(name),
        s.lists(name) <==> !s.holds(name),
        s.graph.contains_key(name) <==> s.holds(name),
{
    assert(id_names(s.pending).len() == 0);
    if s.is_top_level(name) {
        let i = id_names(s.top_level).index_of(name);
        assert(s.top_level[i].name == name);
        assert(s.top_settled(s.top_level[i]));
    } else {
        let other = choose|other: NameView| #[trigger]
            s.graph.contains_key(other) && s.graph[other].contains(name);
        let component = s.chosen[other].state->InGraph_0;
        assert(s.node_ok(other, component));
        let depends = needed(s.hosts, component.imports);
        let k = id_names(depends).index_of(name);
        assert(id_names(depends)[k] == name);
        assert(depends[k].name == name);
        assert(s.settled(depends[k]));
    }
    assert(s.info_ok(name));
    if s.lists(name) {
        let i = choose|i: int| 0 <= i < s.requests.len() && (#[trigger] s.requests[i]).id.name == name;
        assert(s.request_ok(s.requests[i]));
    }
}

/// When nothing is pending, every package from which components import, beginning with the top-level
/// packages, is in the graph if it has a component, and else it is listed among the requests.
pub proof fn law_missing_packages_are_listed(s: ResolverView, trail: Seq<NameView>)
    requires
        s.inv(),
        s.pending.len() == 0,
        s.is_trail(trail),
    ensures
        s.wanted(trail.last()),
        s.graph.contains_key(trail.last()) <==> s.holds(trail.last()),
        s.lists(trail.last()) <==> !s.holds(trail.last()),
    decreases trail.len(),
{
    if trail.len() > 1 {
        let shorter = trail.drop_last();
        let last = trail[trail.len() - 2];
        assert forall|k: int| 0 <= k < shorter.len() - 1 implies s.leads_to(#[trigger] shorter[k], shorter[k + 1]) by {
            assert(s.leads_to(trail[k], trail[k + 1]));
        }
        law_missing_packages_are_listed(s, shorter);
        assert(s.leads_to(trail[trail.len() - 2], trail[trail.len() - 2 + 1]));
        assert(s.node_ok(last, s.chosen[last].state->InGraph_0));
        assert(s.graph[last].contains(trail.last()));
    }
    law_wanted_packages_are_listed(s, trail.last());
}

/// No component comes to a package while resolution runs.
proof fn lemma_run_gives_nothing(s: ResolverView, n: nat, name: NameView)
    requires
        s.run(n) is Ok,
        s.run(n)->Ok_0.holds(name),
    ensures
        s.holds(name),
{
    let t = s.run(n)->Ok_0;
    let id = IdView { name, version: t.chosen[name].version };
    law_run_keeps_pairs(s, n, id, t.chosen[name].state.component()->0);
}

/// A request stays listed, call after call, until a package is supplied for it: when resolution has
/// gone on and nothing is pending any more, it is still listed, or nothing wants the package.
pub proof fn law_request_stays_listed(s: ResolverView, n: nat, i: int)
    requires
        s.inv(),
        0 <= i < s.requests.len(),
        s.requests[i].selected is None,
        s.start().run(n) is Ok,
        s.start().run(n)->Ok_0.inv(),
        s.start().run(n)->Ok_0.pending.len() == 0,
    ensures
        s.start().run(n)->Ok_0.lists(s.requests[i].id.name) || !s.start().run(n)->Ok_0.wanted(
            s.requests[i].id.name,
        ),
{
    let name = s.requests[i].id.name;
    let t = s.start().run(n)->Ok_0;
    lemma_accepted(s, s.requests.len());
    assert(s.carried_to(s.start(), s.requests[i]));
    if t.wanted(name) {
        law_wanted_packages_are_listed(t, name);
        if t.holds(name) {
            lemma_run_gives_nothing(s.start(), n, name);
        }
    }
}

/// The order in which a package is upgraded with two versions does not matter, and upgrading with
/// either once more changes nothing. All of these upgrades are compatible.
pub proof fn law_upgrades_commute(
    current: Option<VersionView>,
    x: Option<VersionView>,
    y: Option<VersionView>,
)
    requires
        version_valid(current),
        version_valid(x),
        version_valid(y),
        compatible(current, false, x),
        compatible(current, false, y),
        compatible(x, false, y),
        version_compared(current, x),
        version_compared(current, y),
        version_compared(x, y),
    ensures
        version_max(version_max(current, x), y) == version_max(version_max(current, y), x),
        compatible(version_max(current, x), false, y),
        compatible(version_max(current, y), false, x),
        compatible(version_max(version_max(current, x), y), false, x),
        compatible(version_max(version_max(current, x), y), false, y),
        version_max(version_max(version_max(current, x), y), x) == version_max(version_max(current, x), y),
        version_max(version_max(version_max(current, x), y), y) == version_max(version_max(current, x), y),
{
}

/// Versions without pre-release and build metadata compare as in a strict total order.
pub proof fn law_releases_are_compared(a: VersionView, b: VersionView)
    requires
        a.pre.len() == 0 && a.build.len() == 0,
        b.pre.len() == 0 && b.build.len() == 0,
    ensures
        a.valid(),
        version_compared(Some(a), Some(b)),
{
    assert(a.pre =~= b.pre && a.build =~= b.build);
}

/// Whether a version, if it is there, has neither pre-release nor build metadata.
pub open spec fn is_release(version: Option<VersionView>) -> bool {
    version matches Some(v) ==> v.pre.len() == 0 && v.build.len() == 0
}

/// The order in which a package is upgraded with two versions without pre-release and build metadata
/// does not matter, and upgrading with either once more changes nothing.
pub proof fn law_release_upgrades_commute(
    current: Option<VersionView>,
    x: Option<VersionView>,
    y: Option<VersionView>,
)
    requires
        is_release(current),
        is_release(x),
        is_release(y),
        compatible(current, false, x),
        compatible(current, false, y),
        compatible(x, false, y),
    ensures
        version_max(version_max(current, x), y) == version_max(version_max(current, y), x),
        compatible(version_max(current, x), false, y),
        compatible(version_max(current, y), false, x),
        compatible(version_max(version_max(current, x), y), false, x),
        compatible(version_max(version_max(current, x), y), false, y),
        version_max(version_max(version_max(current, x), y), x) == version_max(version_max(current, x), y),
        version_max(version_max(version_max(current, x), y), y) == version_max(version_max(current, x), y),
{
    if current is Some && x is Some {
        law_releases_are_compared(current->0, x->0);
    }
    if current is Some && y is Some {
        law_releases_are_compared(current->0, y->0);
    }
    if x is Some && y is Some {
        law_releases_are_compared(x->0, y->0);
    }
    if current is Some {
        law_releases_are_compared(current->0, current->0);
    }
    if x is Some {
        law_releases_are_compared(x->0, x->0);
    }
    if y is Some {
        law_releases_are_compared(y->0, y->0);
    }
    law_upgrades_commute(current, x, y);
}

} // verus!
