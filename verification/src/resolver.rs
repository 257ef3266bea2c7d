//! The resolver, which builds the graph of the packages that must be loaded.

use crate::component::{interface_views, Component, ComponentView};
use crate::flags::{gather_rows, spread_row, Bits, PackageFlagsList};
use crate::graph::{cyclic, lemma_empty_graph, name_views, topological, DependencyGraph};
use crate::hosts::{host_package_set, hosts_of, needed, one_version_each};
use crate::identifier::{IdView, InterfaceView, NameView, PackageIdentifier, PackageName};
use crate::image::{law_dependents_mirror_dependencies, package_views, HostLinker};
use crate::image::{PackageContextImage, PackageContextImageInner, ResolvedPackage};
use crate::linker::Linker;
use crate::package_map::PackageMap;
use crate::resolution::{compatible, id_names, last_mismatch, lemma_accepted, version_max};
use crate::resolution::{law_first_requests_are_top_level, law_run_keeps_pairs, law_start_keeps_pairs};
use crate::resolution::{imports_name, law_needs_are_met, law_start_keeps_invariant, law_start_keeps_wanted};
use crate::resolution::{law_step_keeps_invariant, law_step_keeps_wanted, law_step_makes_progress};
use crate::resolution::{lemma_covering, lemma_few_nodes, lemma_knows, lemma_start_within, lemma_step_within};
use crate::resolution::{ConflictView, InfoView};
use crate::resolution::{RequestView, ResolverView, StateView};
use crate::tables::{depends_listed, lemma_all_loaded, lemma_loaded_before, lemma_loaded_next};
use crate::tables::{lemma_spread, loaded, spread};
use crate::topology::{law_image_is_valid, law_image_keeps_pairs, law_image_serves, lemma_image_depends, lemma_ordered};
use crate::version::{copy_version, same_version, version_compared, version_supersedes, version_view};
use crate::version::{PartialVersionRef, Version};
use std::sync::Arc;
use vstd::prelude::*;

verus! {

/// The values of a row of package identifiers.
pub open spec fn id_views(ids: Seq<PackageIdentifier>) -> Seq<IdView> {
    ids.map_values(|id: PackageIdentifier| id@)
}

/// Denotes a package that must be supplied for resolution to continue.
#[derive(Debug)]
pub struct UnresolvedPackage {
    /// Whether any candidate packages must match the version exactly.
    exact: bool,
    /// The ID of the package.
    id: PackageIdentifier,
    /// The selected component, if any.
    selected: Option<(PackageIdentifier, Component)>,
}

/// The value of a package that was selected, if any.
pub open spec fn selected_view(selected: Option<(PackageIdentifier, Component)>) -> Option<(IdView, ComponentView)> {
    match selected {
        Some((id, component)) => Some((id@, component@)),
        None => None,
    }
}

impl View for UnresolvedPackage {
    type V = RequestView;

    closed spec fn view(&self) -> RequestView {
        RequestView { id: self.id@, exact: self.exact, selected: selected_view(self.selected) }
    }
}

/// The values of a row of requests.
pub open spec fn request_views(requests: Seq<UnresolvedPackage>) -> Seq<RequestView> {
    requests.map_values(|request: UnresolvedPackage| request@)
}

impl UnresolvedPackage {
    /// Gets the requested ID of this package.
    pub fn id(&self) -> (id: &PackageIdentifier)
        ensures
            id@ == self@.id,
    {
        &self.id
    }

    /// Whether the resolved component must match in version exactly. Otherwise, any version
    /// that is greater only in patch (satisfying the `semver` equation `actual = ^requested`)
    /// is allowed.
    pub fn exact(&self) -> (exact: bool)
        ensures
            exact == self@.exact,
    {
        self.exact
    }

    /// Whether a component has been provided for this package.
    pub fn is_resolved(&self) -> (resolved: bool)
        ensures
            resolved == (self@.selected is Some),
    {
        self.selected.is_some()
    }

    /// Whether a package with the given ID can be used to resolve this package: it matches in name
    /// and has a compatible version.
    pub fn accepts(&self, id: &PackageIdentifier) -> (accepted: bool)
        ensures
            accepted == self@.accepts(id@),
            accepted ==> version_supersedes(id@.version, self@.id.version) && id@.valid(),
    {
        let requested = PartialVersionRef(self.id.version());
        let offered = PartialVersionRef(id.version());
        self.id.name().same(id.name()) && if self.exact {
            requested == offered
        } else {
            requested.matches(&offered)
        }
    }

    /// Resolves this package using the given component and ID. The resolved component must match in
    /// name and have a compatible version, and none may have been provided before.
    pub fn resolve(&mut self, id: PackageIdentifier, component: Component)
        requires
            old(self)@.selected is None,
            old(self)@.accepts(id@),
        ensures
            final(self)@ == (RequestView { selected: Some((id@, component@)), ..old(self)@ }),
            final(self)@.well_selected(),
    {
        proof {
            use_type_invariant(&component);
        }
        if self.accepts(&id) {
            self.selected = Some((id, component));
        }
    }
}

/// Denotes a package's current standing in the component graph.
#[derive(Debug)]
pub enum PackageResolutionState {
    /// The package has a pending resolution request with the given index.
    Unresolved(usize),
    /// The package has been resolved to a component.
    Resolved(Component),
    /// The package has been resolved to a component, and a vertex representing it has been added
    /// to the graph.
    InGraph(Component),
}

impl View for PackageResolutionState {
    type V = StateView;

    open spec fn view(&self) -> StateView {
        match self {
            PackageResolutionState::Unresolved(i) => StateView::Unresolved(*i as int),
            PackageResolutionState::Resolved(c) => StateView::Resolved(c@),
            PackageResolutionState::InGraph(c) => StateView::InGraph(c@),
        }
    }
}

/// Stores transient information about a package during version resolution.
#[derive(Debug)]
pub struct PackageResolutionInfo {
    /// The maximum version of the package loaded so far.
    pub version: Option<Version>,
    /// Whether any candidate packages must match in version exactly.
    pub exact: bool,
    /// Whether this package is resolved and in the component graph.
    pub state: PackageResolutionState,
}

impl View for PackageResolutionInfo {
    type V = InfoView;

    open spec fn view(&self) -> InfoView {
        InfoView { version: version_view(self.version), exact: self.exact, state: self.state@ }
    }
}

/// The values of what is noted of packages.
pub open spec fn info_views(infos: Map<NameView, PackageResolutionInfo>) -> Map<NameView, InfoView> {
    infos.map_values(|info: PackageResolutionInfo| info@)
}

/// The top-level packages in the order in which they were listed.
pub open spec fn top_level_views(packages: PackageMap<Option<Version>>) -> Seq<IdView> {
    packages.names().map_values(
        |name: NameView| IdView { name, version: version_view(packages@[name]) },
    )
}

/// Describes an issue with package dependency resolution.
pub enum PackageResolverError {
    /// Two or more packages were mutually dependent on each other.
    CyclicPackageDependency(),
    /// The same package was required multiple times with conflicting `semver` versions.
    IncompatibleVersions(PackageName, Option<Version>, Option<Version>),
    /// The resolver needs additional packages to be supplied externally.
    MissingPackages(PackageResolver),
}

impl PackageResolverError {
    /// Whether the error reports the given conflict.
    pub open spec fn reports(self, conflict: ConflictView) -> bool {
        self matches PackageResolverError::IncompatibleVersions(name, first, second) && name@ == conflict.name
            && version_view(first) == conflict.first && version_view(second) == conflict.second
    }
}

/// Builds a package dependency graph which can be converted to a [`PackageContextImage`].
pub struct PackageResolver {
    /// The topological graph.
    graph: DependencyGraph,
    /// The current versions and binaries of loaded packages.
    chosen_packages: PackageMap<PackageResolutionInfo>,
    /// The top-level packages from which all dependencies originate.
    top_level_packages: PackageMap<Option<Version>>,
    /// The list of packages that the user has yet to resolve.
    unresolved_packages: Vec<UnresolvedPackage>,
    /// The set of packages that are currently undergoing resolution.
    to_resolve: Vec<PackageIdentifier>,
    /// The linker that will be used to resolve host imports, and the interfaces that it defines.
    linker_packages: Arc<HostLinker>,
}

impl View for PackageResolver {
    type V = ResolverView;

    closed spec fn view(&self) -> ResolverView {
        ResolverView {
            top_level: top_level_views(self.top_level_packages),
            linker: self.linker_packages.linker@,
            hosts: self.linker_packages.interfaces@,
            chosen: info_views(self.chosen_packages@),
            requests: request_views(self.unresolved_packages@),
            pending: id_views(self.to_resolve@),
            graph: self.graph@,
        }
    }
}

/// Whether no package appears in a list multiple times.
pub fn distinct_packages(ids: &Vec<PackageIdentifier>) -> (distinct: bool)
    ensures
        distinct == id_names(id_views(ids@)).no_duplicates(),
{
    let ghost names = id_names(id_views(ids@));
    for i in 0..ids.len()
        invariant
            names == id_names(id_views(ids@)),
            forall|a: int, b: int| 0 <= a < b < i ==> #[trigger] names[a] != #[trigger] names[b],
    {
        for j in 0..i
            invariant
                i < ids@.len(),
                names == id_names(id_views(ids@)),
                forall|a: int| 0 <= a < j ==> #[trigger] names[a] != names[i as int],
        {
            assert(names[j as int] == ids@[j as int]@.name && names[i as int] == ids@[i as int]@.name);
            if ids[j].name().same(ids[i].name()) {
                return false;
            }
        }
    }
    true
}

impl PackageResolver {
    /// Whether the tables of the resolver are in order.
    pub closed spec fn tables_wf(self) -> bool {
        &&& self.chosen_packages.wf()
        &&& self.top_level_packages.wf()
        &&& self.linker_packages.interfaces.wf()
    }

    /// Whether the resolver is in order.
    pub open spec fn wf(self) -> bool {
        self.tables_wf() && self@.inv() && self@.all_wanted()
    }

    /// Creates a new package resolver for the requested set of top-level packages and host linker.
    /// The list may not hold the same package multiple times.
    pub fn new(ids: Vec<PackageIdentifier>, linker: &Linker) -> (resolver: Self)
        requires
            id_names(id_views(ids@)).no_duplicates(),
            one_version_each(linker@.instances.dom()),
        ensures
            resolver.wf(),
            resolver@.fresh(),
            resolver@.top_level == id_views(ids@),
            resolver@.pending == id_views(ids@),
            resolver@.linker == linker@,
            hosts_of(resolver@.hosts, linker@.instances.dom()),
            resolver@.chosen == Map::<NameView, InfoView>::empty(),
            resolver@.requests == Seq::<RequestView>::empty(),
            resolver@.graph == Map::<NameView, Set<NameView>>::empty(),
            forall|id: IdView, component: ComponentView| !(#[trigger] resolver@.supplied_pair(id, component)),
    {
        let ghost views = id_views(ids@);
        let ghost names = id_names(views);
        let mut top_level_packages: PackageMap<Option<Version>> = PackageMap::new();
        for i in 0..ids.len()
            invariant
                views == id_views(ids@),
                names == id_names(views),
                names.no_duplicates(),
                top_level_packages.wf(),
                top_level_packages.names() == names.take(i as int),
                forall|j: int|
                    0 <= j < i ==> version_view(top_level_packages@[#[trigger] names[j]]) == views[j].version,
                forall|j: int| 0 <= j < i ==> (#[trigger] views[j]).valid(),
        {
            assert(names[i as int] == ids@[i as int]@.name);
            proof {
                top_level_packages.lemma_names();
                if top_level_packages@.contains_key(names[i as int]) {
                    assert(names.take(i as int).to_set().contains(names[i as int]));
                    let j = names.take(i as int).index_of(names[i as int]);
                    assert(names.take(i as int)[j] == names[i as int]);
                    assert(names[j] == names[i as int]);
                }
            }
            top_level_packages.insert(ids[i].name().clone(), copy_version(&ids[i].version));
            assert(top_level_packages.names() =~= names.take(i + 1));
            assert(views[i as int] == ids@[i as int]@);
        }
        let resolver = PackageResolver {
            graph: DependencyGraph::new(),
            chosen_packages: PackageMap::new(),
            top_level_packages,
            unresolved_packages: Vec::new(),
            to_resolve: ids,
            linker_packages: Arc::new(
                HostLinker { linker: linker.copy(), interfaces: host_package_set(linker) },
            ),
        };
        proof {
            let s = resolver@;
            assert(names.take(names.len() as int) =~= names);
            assert(s.top_level =~= views) by {
                assert forall|i: int| 0 <= i < views.len() implies s.top_level[i] == #[trigger] views[i] by {
                    assert(names[i] == views[i].name);
                }
            }
            assert(s.chosen =~= Map::<NameView, InfoView>::empty());
            assert(s.requests =~= Seq::<RequestView>::empty());
            assert(s.graph =~= Map::<NameView, Set<NameView>>::empty());
            assert forall|i: int| 0 <= i < s.top_level.len() implies s.top_settled(#[trigger] s.top_level[i]) by {
                assert(s.pending[i] == s.top_level[i]);
                assert(s.pending.contains(s.top_level[i]));
            }
            assert forall|i: int| 0 <= i < s.pending.len() implies s.wanted((#[trigger] s.pending[i]).name) by {
                assert(id_names(s.top_level)[i] == s.pending[i].name);
            }
        }
        resolver
    }

    /// The list of packages that must be provided for resolution to continue.
    pub fn unresolved(&mut self) -> (requests: &mut [UnresolvedPackage])
        ensures
            request_views(requests@) == old(self)@.requests,
            final(self)@ == (ResolverView { requests: request_views(final(requests)@), ..old(self)@ }),
            old(self).tables_wf() ==> final(self).tables_wf(),
    {
        self.unresolved_packages.as_mut_slice()
    }

    /// Takes the maximum between two dependency versions, returning whether the version changed in the
    /// process.
    pub fn upgrade(id: &PackageIdentifier, current: &mut Option<Version>, exact: bool) -> (changed: Result<
        bool,
        PackageResolverError,
    >)
        ensures
            changed is Ok <==> compatible(version_view(*old(current)), exact, id@.version),
            changed matches Ok(c) ==> {
                &&& version_view(*final(current)) == version_max(version_view(*old(current)), id@.version)
                &&& c == (version_view(*final(current)) != version_view(*old(current)))
                &&& version_compared(version_view(*old(current)), id@.version)
            },
            changed matches Err(error) ==> error.reports(
                ConflictView {
                    name: id@.name,
                    first: version_view(*old(current)),
                    second: id@.version,
                },
            ) && *final(current) == *old(current),
    {
        if exact {
            if same_version(&id.version, current) {
                Ok(false)
            } else {
                Err(
                    PackageResolverError::IncompatibleVersions(
                        id.name().clone(),
                        copy_version(current),
                        copy_version(&id.version),
                    ),
                )
            }
        } else {
            match (&*current, id.version()) {
                (_, None) => Ok(false),
                (None, Some(b)) => {
                    *current = Some(b.clone());
                    Ok(true)
                },
                (Some(a), Some(b)) => {
                    if a.major() == b.major() && a.minor() == b.minor() {
                        if a.precedes(b) {
                            *current = Some(b.clone());
                            Ok(true)
                        } else {
                            Ok(false)
                        }
                    } else {
                        Err(
                            PackageResolverError::IncompatibleVersions(
                                id.name().clone(),
                                Some(a.clone()),
                                Some(b.clone()),
                            ),
                        )
                    }
                },
            }
        }
    }

    /// Removes any newly-resolved packages from the list of requested external packages.
    fn clear_unresolved(&mut self)
        requires
            old(self).wf(),
        ensures
            final(self).tables_wf(),
            final(self)@ == old(self)@.start(),
    {
        let ghost s = self@;
        let mut taken: Vec<UnresolvedPackage> = Vec::new();
        std::mem::swap(&mut taken, &mut self.unresolved_packages);
        assert(self@.requests =~= Seq::<RequestView>::empty());
        for k in 0..taken.len()
            invariant
                s.inv(),
                request_views(taken@) == s.requests,
                self.tables_wf(),
                self@ == s.accepted(k as nat),
        {
            let request = &taken[k];
            proof {
                lemma_accepted(s, k as nat);
                assert(s.requests[k as int] == request@);
                assert(s.request_ok(s.requests[k as int]));
                assert(s.chosen.dom().contains(request@.id.name));
                assert(self@.chosen.contains_key(request@.id.name));
            }
            match &request.selected {
                Some((id, component)) => {
                    if let Some(info) = self.chosen_packages.get_mut(id.name()) {
                        info.version = copy_version(&id.version);
                        info.state = PackageResolutionState::Resolved(component.clone());
                    }
                    self.to_resolve.push(id.clone());
                    proof {
                        assert(self@.chosen =~= s.accepted((k + 1) as nat).chosen);
                        assert(self@.pending =~= s.accepted((k + 1) as nat).pending);
                    }
                },
                None => {
                    let i = self.unresolved_packages.len();
                    if let Some(info) = self.chosen_packages.get_mut(request.id.name()) {
                        info.state = PackageResolutionState::Unresolved(i);
                    }
                    self.unresolved_packages.push(
                        UnresolvedPackage { exact: request.exact, id: request.id.clone(), selected: None },
                    );
                    proof {
                        assert(self@.chosen =~= s.accepted((k + 1) as nat).chosen);
                        assert(self@.requests =~= s.accepted((k + 1) as nat).requests);
                    }
                },
            }
            assert(self@ == s.accepted((k + 1) as nat));
        }
    }

    /// Whether a package is top-level.
    fn is_top_level(&self, name: &PackageName) -> (found: bool)
        requires
            self.tables_wf(),
        ensures
            found == self@.is_top_level(name@),
    {
        proof {
            self.top_level_packages.lemma_names();
            assert(id_names(self@.top_level) =~= self.top_level_packages.names());
            assert(self.top_level_packages.names().to_set().contains(name@)
                == self.top_level_packages.names().contains(name@));
        }
        self.top_level_packages.contains(name)
    }

    /// Requests a package from the user.
    fn request(&mut self, id: PackageIdentifier)
        requires
            old(self).tables_wf(),
        ensures
            final(self).tables_wf(),
            final(self)@ == old(self)@.requested(id@),
    {
        let exact = self.is_top_level(id.name());
        let index = self.unresolved_packages.len();
        self.chosen_packages.insert(
            id.name().clone(),
            PackageResolutionInfo {
                version: copy_version(&id.version),
                exact,
                state: PackageResolutionState::Unresolved(index),
            },
        );
        self.unresolved_packages.push(UnresolvedPackage { exact, id, selected: None });
        proof {
            assert(self@.chosen =~= old(self)@.requested(id@).chosen);
            assert(self@.requests =~= old(self)@.requested(id@).requests);
        }
    }

    /// Resets the dependency graph. Called after bumping the version of an existing dependency
    /// during resolution. Packages that have been supplied are kept, and the top-level packages are
    /// looked at again.
    fn reset_graph(&mut self)
        requires
            old(self).tables_wf(),
        ensures
            final(self).tables_wf(),
            final(self)@ == old(self)@.reset(),
    {
        let ghost infos = self.chosen_packages@;
        let ghost names = self.chosen_packages.names();
        let mut kept: PackageMap<PackageResolutionInfo> = PackageMap::new();
        let count = self.chosen_packages.len();
        for i in 0..count
            invariant
                count == names.len(),
                self.chosen_packages.wf(),
                infos == self.chosen_packages@,
                names == self.chosen_packages.names(),
                kept.wf(),
                forall|name: NameView| #[trigger]
                    kept@.contains_key(name) <==> infos.contains_key(name) && infos[name]@.state.component() is Some
                        && names.take(i as int).contains(name),
                forall|name: NameView| #[trigger]
                    kept@.contains_key(name) ==> kept@[name]@ == (InfoView {
                        state: StateView::Resolved(infos[name]@.state.component()->0),
                        ..infos[name]@
                    }),
        {
            let info = self.chosen_packages.value_at(i);
            let name = self.chosen_packages.name_at(i);
            proof {
                let before = names.take(i as int);
                let after = names.take(i + 1);
                assert(after =~= before.push(name@));
                assert forall|other: NameView| #[trigger] after.contains(other) <==> before.contains(other)
                    || other == name@ by {
                    if before.contains(other) {
                        assert(after[before.index_of(other)] == other);
                    }
                    assert(after[i as int] == name@);
                }
            }
            let component = match &info.state {
                PackageResolutionState::Unresolved(_) => None,
                PackageResolutionState::Resolved(c) => Some(c),
                PackageResolutionState::InGraph(c) => Some(c),
            };
            if let Some(c) = component {
                kept.insert(
                    name.clone(),
                    PackageResolutionInfo {
                        version: copy_version(&info.version),
                        exact: info.exact,
                        state: PackageResolutionState::Resolved(c.clone()),
                    },
                );
            }
        }
        let mut to_resolve: Vec<PackageIdentifier> = Vec::new();
        let count = self.top_level_packages.len();
        for i in 0..count
            invariant
                count == self.top_level_packages.names().len(),
                self.top_level_packages.wf(),
                id_views(to_resolve@) == top_level_views(self.top_level_packages).take(i as int),
        {
            let name = self.top_level_packages.name_at(i).clone();
            let version = copy_version(self.top_level_packages.value_at(i));
            let ghost before = id_views(to_resolve@);
            let id = PackageIdentifier::new(name, version);
            to_resolve.push(id);
            proof {
                let all = top_level_views(self.top_level_packages);
                assert(all[i as int] == id@);
                assert(id_views(to_resolve@) =~= before.push(id@));
                assert(all.take(i + 1) =~= all.take(i as int).push(all[i as int]));
            }
        }
        self.graph = DependencyGraph::new();
        self.unresolved_packages = Vec::new();
        self.to_resolve = to_resolve;
        proof {
            old(self).chosen_packages.lemma_names();
            assert(names.take(names.len() as int) =~= names);
            assert forall|name: NameView| infos.contains_key(name) implies #[trigger] names.contains(name) by {
                assert(names.to_set().contains(name));
            }
        }
        self.chosen_packages = kept;
        proof {
            let t = old(self)@.reset();
            assert(self@.chosen =~= t.chosen);
            assert(self@.requests =~= t.requests);
            assert(self@.pending =~= t.pending);
            assert(self@.graph =~= t.graph);
        }
    }

    /// Puts a package into the graph, and lists the packages that it needs to be looked at. Fails
    /// if the host provides an interface that the package imports, but not in a version that
    /// satisfies it.
    fn link(&mut self, name: &PackageName, component: Component) -> (linked: Result<(), PackageResolverError>)
        requires
            old(self).tables_wf(),
            old(self)@.chosen.contains_key(name@),
        ensures
            match last_mismatch(old(self)@.hosts, component@.imports) {
                Some(conflict) => linked matches Err(error) && error.reports(conflict),
                None => linked is Ok && final(self).tables_wf() && final(self)@ == old(self)@.linked(
                    name@,
                    component@,
                ),
            },
    {
        let ghost hosts = self@.hosts;
        let ghost all = component@.imports;
        let mut depends: Vec<PackageIdentifier> = Vec::new();
        let mut names: Vec<PackageName> = Vec::new();
        let mut mismatch: Option<PackageResolverError> = None;
        let imports = component.imports();
        assert(all.take(0) =~= Seq::<InterfaceView>::empty());
        assert(id_views(depends@) =~= Seq::<IdView>::empty());
        for i in 0..imports.len()
            invariant
                self.tables_wf(),
                hosts == self@.hosts,
                all == interface_views(imports@),
                id_views(depends@) == needed(hosts, all.take(i as int)),
                name_views(names@) == id_names(id_views(depends@)),
                match last_mismatch(hosts, all.take(i as int)) {
                    Some(conflict) => mismatch matches Some(error) && error.reports(conflict),
                    None => mismatch is None,
                },
        {
            let import = &imports[i];
            let ghost before = all.take(i as int);
            proof {
                assert(all[i as int] == import@);
                assert(all.take(i + 1).drop_last() =~= before);
                assert(all.take(i + 1).last() == import@);
            }
            match self.linker_packages.interfaces.get(import) {
                Some(host) => {
                    if !PartialVersionRef(import.package().version()).matches(
                        &PartialVersionRef(host.package().version()),
                    ) {
                        mismatch = Some(
                            PackageResolverError::IncompatibleVersions(
                                import.package().name().clone(),
                                copy_version(&import.package.version),
                                copy_version(&host.package.version),
                            ),
                        );
                    }
                },
                None => {
                    let ghost named = name_views(names@);
                    depends.push(import.package().clone());
                    names.push(import.package().name().clone());
                    proof {
                        assert(id_views(depends@) =~= needed(hosts, before).push(import@.package));
                        assert(name_views(names@) =~= named.push(import@.package.name));
                        assert(id_names(id_views(depends@)) =~= named.push(import@.package.name));
                    }
                },
            }
        }
        assert(all.take(all.len() as int) =~= all);
        if let Some(error) = mismatch {
            return Err(error);
        }
        self.graph.insert(name, &names);
        self.to_resolve.append(&mut depends);
        if let Some(info) = self.chosen_packages.get_mut(name) {
            info.state = PackageResolutionState::InGraph(component);
        }
        proof {
            let t = old(self)@.linked(name@, component@);
            assert(self@.chosen =~= t.chosen);
            assert(self@.pending =~= t.pending);
        }
        Ok(())
    }

    /// Looks at the next pending package.
    fn step(&mut self) -> (stepped: Result<(), PackageResolverError>)
        requires
            old(self).tables_wf(),
            old(self)@.inv(),
            old(self)@.placed(),
            old(self)@.pending.len() > 0,
        ensures
            stepped is Ok ==> {
                &&& final(self).tables_wf()
                &&& old(self)@.step() == Ok::<ResolverView, ConflictView>(final(self)@)
                &&& old(self)@.next_compared()
            },
            stepped matches Err(error) ==> old(self)@.step() is Err && error.reports(old(self)@.step()->Err_0),
    {
        let ghost s = self@;
        let next = match self.to_resolve.pop() {
            Some(next) => next,
            None => {
                return Ok(());
            },
        };
        let ghost rest = ResolverView { pending: s.pending.drop_last(), ..s };
        proof {
            assert(s.pending.last() == next@);
            assert(self@.pending =~= rest.pending);
            assert(self@ == rest);
        }
        let info = match self.chosen_packages.get(next.name()) {
            Some(info) => info,
            None => {
                self.request(next);
                return Ok(());
            },
        };
        assert(s.chosen.contains_key(next@.name) && s.chosen[next@.name] == info@);
        let mut version = copy_version(&info.version);
        let changed = match Self::upgrade(&next, &mut version, info.exact) {
            Ok(changed) => changed,
            Err(error) => {
                return Err(error);
            },
        };
        if changed {
            match &info.state {
                PackageResolutionState::Unresolved(index) => {
                    let index = *index;
                    proof {
                        assert(s.info_ok(next@.name));
                        let r = choose|r: int|
                            0 <= r < s.requests.len() && (#[trigger] s.requests[r]).id.name == next@.name;
                        assert(s.chosen[s.requests[r].id.name].state == StateView::Unresolved(r));
                    }
                    if let Some(noted) = self.chosen_packages.get_mut(next.name()) {
                        noted.version = version;
                    }
                    self.unresolved_packages[index].id = next;
                    proof {
                        let t = rest.raised(next@);
                        assert(self@.chosen =~= t.chosen);
                        assert(self@.requests =~= t.requests);
                    }
                },
                PackageResolutionState::Resolved(_) => {
                    self.request(next);
                },
                PackageResolutionState::InGraph(_) => {
                    self.chosen_packages.remove(next.name());
                    assert(self@.chosen =~= rest.chosen.remove(next@.name));
                    self.reset_graph();
                },
            }
            Ok(())
        } else if let PackageResolutionState::Resolved(component) = &info.state {
            let component = component.clone();
            self.link(next.name(), component)
        } else {
            Ok(())
        }
    }

    /// Lists the places of the packages on which a package of the graph depends.
    fn dependency_places(
        &self,
        name: &PackageName,
        places: &PackageMap<usize>,
        Ghost(order): Ghost<Seq<NameView>>,
    ) -> (found: Vec<usize>)
        requires
            self@.graph.contains_key(name@),
            places.wf(),
            order.no_duplicates(),
            forall|other: NameView| #[trigger]
                self@.graph[name@].contains(other) ==> places@.contains_key(other),
            forall|other: NameView| #[trigger]
                places@.contains_key(other) ==> places@[other] < order.len() && order[places@[other] as int]
                    == other,
        ensures
            lists_places(found@, order, self@.graph[name@]),
    {
        let depends = self.graph.dependencies(name);
        let ghost views = name_views(depends@);
        let ghost set = self@.graph[name@];
        let mut found: Vec<usize> = Vec::new();
        for k in 0..depends.len()
            invariant
                views == name_views(depends@),
                views.to_set() == set,
                places.wf(),
                forall|other: NameView| #[trigger] set.contains(other) ==> places@.contains_key(other),
                found@.len() == k,
                forall|l: int| 0 <= l < k ==> #[trigger] found@[l] == places@[views[l]],
        {
            assert(views[k as int] == depends@[k as int]@);
            assert(views.to_set().contains(views[k as int]));
            if let Some(place) = places.get(&depends[k]) {
                found.push(*place);
            }
        }
        proof {
            assert forall|k: int| 0 <= k < found@.len() implies (#[trigger] found@[k]) < order.len() && set.contains(
                order[found@[k] as int],
            ) by {
                assert(views.to_set().contains(views[k]));
                assert(places@.contains_key(views[k]));
            }
            assert forall|j: int| 0 <= j < order.len() && set.contains(#[trigger] order[j]) implies found@.contains(
                j as usize,
            ) by {
                assert(views.to_set().contains(order[j]));
                let l = views.index_of(order[j]);
                assert(views[l] == order[j]);
                assert(places@.contains_key(order[j]));
                assert(order[places@[order[j]] as int] == order[j]);
                assert(found@[l] == j as usize);
            }
        }
        found
    }

    /// Loads a package's component into the output image.
    fn load_package(&self, name: &PackageName, res: &mut PackageContextImageInner)
        requires
            self.tables_wf(),
            self@.chosen.contains_key(name@),
            self@.chosen[name@].state is InGraph,
            old(res).package_map.wf(),
            old(res).packages@.len() < old(res).top_level_packages@.len(),
        ensures
            package_views(final(res).packages@) == package_views(old(res).packages@).push(
                self@.resolved(name@),
            ),
            final(res).package_map.wf(),
            final(res).package_map@ == old(res).package_map@.insert(
                name@,
                old(res).packages@.len() as usize,
            ),
            final(res).top_level_packages@ == (if self@.chosen[name@].exact {
                old(res).top_level_packages@.update(old(res).packages@.len() as int, true)
            } else {
                old(res).top_level_packages@
            }),
            final(res).transitive_dependencies == old(res).transitive_dependencies,
            final(res).transitive_dependents == old(res).transitive_dependents,
            final(res).linker_packages == old(res).linker_packages,
    {
        if let Some(info) = self.chosen_packages.get(name) {
            assert(self@.chosen[name@] == info@);
            if let PackageResolutionState::InGraph(component) = &info.state {
                let index = res.packages.len();
                if info.exact {
                    res.top_level_packages.set(index, true);
                }
                res.package_map.insert(name.clone(), index);
                let package = ResolvedPackage {
                    id: PackageIdentifier::new(name.clone(), copy_version(&info.version)),
                    component: component.clone(),
                };
                res.packages.push(package);
                proof {
                    assert(package@ == self@.resolved(name@));
                    assert(package_views(res.packages@) =~= package_views(old(res).packages@).push(
                        self@.resolved(name@),
                    ));
                }
            }
        }
    }

    /// Loads the next package of an order, and its transitive dependency list, into the output image.
    fn load_next(&self, order: &Vec<PackageName>, i: usize, res: &mut PackageContextImageInner)
        requires
            self.tables_wf(),
            sorted(self@, name_views(order@)),
            i < order@.len(),
            loaded(self@.image_in(name_views(order@)), name_views(order@), *old(res), i as int),
        ensures
            loaded(self@.image_in(name_views(order@)), name_views(order@), *final(res), i + 1),
            final(res).transitive_dependents == old(res).transitive_dependents,
            final(res).linker_packages == old(res).linker_packages,
    {
        let ghost s = self@;
        let ghost views = name_views(order@);
        let ghost image = s.image_in(views);
        let name = &order[i];
        proof {
            assert(views[i as int] == name@);
            assert(order@.len() == order.len());
            lemma_sorted(s, views, i as int);
            lemma_loaded_before(image, views, *res, i as int, s.graph[name@]);
        }
        let depends = self.dependency_places(name, &res.package_map, Ghost(views));
        proof {
            lemma_sorted_depends(s, views, i as int, depends@);
        }
        self.load_package(name, res);
        gather_rows(&mut res.transitive_dependencies, i, &depends);
        proof {
            lemma_loaded_next(image, views, i as int, depends@, *old(res), *res);
        }
    }

    /// Whether an image is being made with the host linker of the resolver.
    pub closed spec fn shares_linker(self, res: PackageContextImageInner) -> bool {
        res.linker_packages == self.linker_packages
    }

    /// Loads the packages' components and their transitive dependency lists into the output image.
    pub fn load_packages_and_dependencies(&self, order: &Vec<PackageName>, res: &mut PackageContextImageInner)
        requires
            self.tables_wf(),
            self@.at_rest(),
            topological(self@.graph, name_views(order@)),
            old(res).packages@.len() == 0,
            old(res).package_map.wf(),
            old(res).package_map@ == Map::<NameView, usize>::empty(),
            old(res).top_level_packages@ == Seq::new(order@.len(), |i: int| false),
            old(res).transitive_dependencies.wf(),
            old(res).transitive_dependencies.size() == order@.len(),
            forall|i: int, j: int|
                0 <= i < order@.len() && 0 <= j < order@.len()
                    ==> !(#[trigger] old(res).transitive_dependencies.at(i, j)),
            self.shares_linker(*old(res)),
        ensures
            final(res)@ == self@.image_in(name_views(order@)),
            final(res).names_mapped(),
            final(res).dependencies_complete(),
            final(res).transitive_dependents == old(res).transitive_dependents,
            final(res).linker_packages == old(res).linker_packages,
    {
        let ghost views = name_views(order@);
        let ghost image = self@.image_in(views);
        proof {
            reveal(sorted);
        }
        assert(package_views(res.packages@) =~= image.packages.take(0));
        for i in 0..order.len()
            invariant
                views == name_views(order@),
                image == self@.image_in(views),
                self.tables_wf(),
                sorted(self@, views),
                loaded(image, views, *res, i as int),
                res.transitive_dependents == old(res).transitive_dependents,
                res.linker_packages == old(res).linker_packages,
        {
            self.load_next(order, i, res);
        }
        proof {
            lemma_all_loaded(image, views, *res);
        }
    }

    /// Adds the transitive dependents of a package in the image to those of the packages on which it
    /// depends.
    fn spread_next(&self, order: &Vec<PackageName>, i: usize, res: &mut PackageContextImageInner)
        requires
            sorted(self@, name_views(order@)),
            i < order@.len(),
            spread(self@.image_in(name_views(order@)), *old(res), i + 1),
        ensures
            spread(self@.image_in(name_views(order@)), *final(res), i as int),
            *final(res) == (PackageContextImageInner {
                transitive_dependents: final(res).transitive_dependents,
                ..*old(res)
            }),
    {
        let ghost s = self@;
        let ghost views = name_views(order@);
        let ghost image = s.image_in(views);
        let name = &order[i];
        proof {
            assert(views[i as int] == name@);
            assert(order@.len() == order.len());
            lemma_sorted(s, views, i as int);
            lemma_names_in_order(s, views, *res);
            assert forall|other: NameView| #[trigger] s.graph[name@].contains(other) implies res.package_map@.contains_key(
                other,
            ) by {
                assert(views[views.index_of(other)] == other);
            }
        }
        let depends = self.dependency_places(name, &res.package_map, Ghost(views));
        proof {
            lemma_sorted_depends(s, views, i as int, depends@);
            lemma_sorted_is_valid(s, views);
        }
        let ghost list = res.transitive_dependents;
        spread_row(&mut res.transitive_dependents, i, &depends);
        proof {
            lemma_spread(image, i as int, depends@, list, res.transitive_dependents);
        }
    }

    /// Computes the transitive dependents for each package in the image. Their table becomes the
    /// mirror image of that of the transitive dependencies.
    pub fn compute_inverse_dependencies(&self, res: &mut PackageContextImageInner, order: &Vec<PackageName>)
        requires
            self@.at_rest(),
            topological(self@.graph, name_views(order@)),
            old(res)@ == self@.image_in(name_views(order@)),
            old(res).names_mapped(),
            old(res).dependencies_complete(),
            old(res).transitive_dependents.wf(),
            old(res).transitive_dependents.size() == order@.len(),
            forall|i: int, j: int|
                0 <= i < order@.len() && 0 <= j < order@.len()
                    ==> !(#[trigger] old(res).transitive_dependents.at(i, j)),
        ensures
            *final(res) == (PackageContextImageInner {
                transitive_dependents: final(res).transitive_dependents,
                ..*old(res)
            }),
            final(res).dependents_complete(),
            forall|i: int, j: int|
                0 <= i < order@.len() && 0 <= j < order@.len()
                    ==> #[trigger] final(res).transitive_dependents.at(i, j)
                    == final(res).transitive_dependencies.at(j, i),
    {
        let ghost views = name_views(order@);
        let ghost image = self@.image_in(views);
        proof {
            reveal(sorted);
        }
        let mut i: usize = order.len();
        while i > 0
            invariant
                i <= order@.len(),
                views == name_views(order@),
                image == self@.image_in(views),
                sorted(self@, views),
                spread(image, *res, i as int),
                *res == (PackageContextImageInner { transitive_dependents: res.transitive_dependents, ..*old(res) }),
            decreases i,
        {
            i -= 1;
            self.spread_next(order, i, res);
        }
        proof {
            assert forall|i: int, j: int|
                0 <= i < order@.len() && 0 <= j < order@.len() implies #[trigger] res.transitive_dependents.at(i, j)
                == res.transitive_dependencies.at(j, i) by {
                law_dependents_mirror_dependencies(*res, i, j);
            }
        }
    }

    /// Builds the image of the packages in the graph, which stand in an order in which each comes
    /// after those on which it depends.
    pub fn image_in_order(self, order: Vec<PackageName>) -> (image: PackageContextImage)
        requires
            self.wf(),
            self@.at_rest(),
            topological(self@.graph, name_views(order@)),
            order@.len() * order@.len() <= usize::MAX / 8,
        ensures
            image@ == self@.image_in(name_views(order@)),
    {
        let len = order.len();
        proof {
            assert(len <= len * len) by (nonlinear_arith)
                requires
                    0 <= len,
            ;
        }
        let mut res = PackageContextImageInner {
            packages: Vec::new(),
            transitive_dependencies: PackageFlagsList::new(false, len),
            transitive_dependents: PackageFlagsList::new(false, len),
            top_level_packages: Bits::repeat(false, len),
            package_map: PackageMap::new(),
            linker_packages: self.linker_packages.clone(),
        };
        self.load_packages_and_dependencies(&order, &mut res);
        self.compute_inverse_dependencies(&mut res, &order);
        proof {
            law_image_is_valid(self@, name_views(order@));
        }
        PackageContextImage::from_inner(res)
    }

    /// Extracts the topologically-sorted list of dependencies from this resolver.
    fn into_package_topology(self) -> (image: Result<PackageContextImage, PackageResolverError>)
        requires
            self.wf(),
            self@.at_rest(),
            self@.graph.dom().len() * self@.graph.dom().len() <= usize::MAX / 8,
            self@.graph.dom().len() <= u32::MAX,
        ensures
            resolved_to(Ok::<ResolverView, ConflictView>(self@), image),
            image matches Ok(built) ==> built@.serves(self@.top_level) && built@.linker == self@.linker
                && built@.hosts == self@.hosts,
            image matches Ok(built) ==> forall|i: int|
                0 <= i < built@.packages.len() ==> self@.noted_pair(
                    (#[trigger] built@.packages[i]).id,
                    built@.packages[i].component,
                ),
    {
        match self.graph.sort() {
            None => Err(PackageResolverError::CyclicPackageDependency()),
            Some(order) => {
                proof {
                    let views = name_views(order@);
                    views.unique_seq_to_set();
                    assert(views.len() == self@.graph.dom().len());
                    law_image_serves(self@, views);
                    let built = self@.image_in(views);
                    assert forall|i: int| 0 <= i < built.packages.len() implies self@.noted_pair(
                        (#[trigger] built.packages[i]).id,
                        built.packages[i].component,
                    ) by {
                        law_image_keeps_pairs(self@, views, i);
                    }
                }
                Ok(self.image_in_order(order))
            },
        }
    }

    /// Attempts to resolve the dependency graph into a set of distinct, versioned packages.
    /// Fails if more packages need to be provided, if packages have conflicting dependencies,
    /// or if packages have cyclic dependencies.
    pub fn resolve(self) -> (image: Result<PackageContextImage, PackageResolverError>)
        requires
            self.wf(),
            self@.limited(),
        ensures
            exists|n: nat| #[trigger]
                self@.start().ends(n) && resolved_to(self@.start().run(n), image),
            image matches Ok(built) ==> built@.serves(self@.top_level) && built@.linker == self@.linker
                && built@.hosts == self@.hosts,
            image matches Ok(built) ==> forall|i: int|
                0 <= i < built@.packages.len() ==> self@.supplied_pair(
                    (#[trigger] built@.packages[i]).id,
                    built@.packages[i].component,
                ),
            self@.fresh() && self@.top_level.len() > 0 ==> (image matches Err(
                PackageResolverError::MissingPackages(resolver),
            ) && resolver@.request_ids().to_set() == self@.top_level.to_set()),
            self@.fresh() && self@.top_level.len() == 0 ==> (image matches Ok(built)
                && built@.packages.len() == 0),
            image matches Err(PackageResolverError::MissingPackages(resolver)) ==> forall|
                id: IdView,
                component: ComponentView,
            | #[trigger] resolver@.supplied_pair(id, component) ==> self@.supplied_pair(id, component),
    {
        let ghost s = self@;
        let ghost start = s.start();
        let ghost names = s.known_names();
        let mut this = self;
        this.clear_unresolved();
        proof {
            law_start_keeps_invariant(s);
            law_start_keeps_wanted(s);
            lemma_start_within(s);
            lemma_accepted(s, s.requests.len());
            this.chosen_packages.lemma_names();
            assert(this@.chosen.dom() =~= this.chosen_packages@.dom());
        }
        let ghost ids = start.covering(this.chosen_packages.names());
        proof {
            lemma_covering(start, this.chosen_packages.names());
        }
        let ghost mut n: nat = 0;
        while this.to_resolve.len() > 0
            invariant
                this.wf(),
                this@.placed(),
                this@.within(names),
                this@.covered(ids),
                start.run(n) == Ok::<ResolverView, ConflictView>(this@),
                s == self@,
                start == s.start(),
                this@.top_level == self@.top_level,
                this@.linker == self@.linker,
                this@.hosts == self@.hosts,
            decreases
                    this@.supplied_count(ids),
                    this@.waiting_count(ids),
                    this@.pending.len(),
        {
            let ghost before = this@;
            assert(before.pending.len() == this.to_resolve@.len());
            match this.step() {
                Ok(()) => {},
                Err(error) => {
                    assert(start.run(n + 1) == before.step());
                    assert(start.ends(n + 1));
                    proof {
                        if s.fresh() {
                            law_first_requests_are_top_level(s, n + 1);
                        }
                    }
                    return Err(error);
                },
            }
            proof {
                assert(start.run(n + 1) == before.step());
                law_step_keeps_invariant(before);
                law_step_keeps_wanted(before);
                law_step_makes_progress(before, ids);
                lemma_step_within(before, names);
                n = n + 1;
            }
        }
        assert(this@.pending.len() == this.to_resolve@.len());
        assert(start.ends(n));
        proof {
            assert forall|id: IdView, component: ComponentView| #[trigger]
                this@.noted_pair(id, component) implies s.supplied_pair(id, component) by {
                law_run_keeps_pairs(start, n, id, component);
                law_start_keeps_pairs(s, id, component);
            }
            if s.fresh() {
                law_first_requests_are_top_level(s, n);
                assert(this@.request_ids().len() == this@.requests.len());
                lemma_empty_graph(this@.graph);
            }
        }
        if this.unresolved_packages.len() == 0 {
            assert(this@.requests.len() == this.unresolved_packages@.len());
            proof {
                lemma_few_nodes(this@, names);
            }
            this.into_package_topology()
        } else {
            assert(this@.requests.len() == this.unresolved_packages@.len());
            Err(PackageResolverError::MissingPackages(this))
        }
    }

    /// Notes the names of the packages of which a component imports interfaces.
    fn note_imports(component: &Component, known: &mut PackageMap<()>)
        requires
            old(known).wf(),
        ensures
            final(known).wf(),
            forall|name: NameView| #[trigger]
                final(known)@.contains_key(name) <==> old(known)@.contains_key(name) || imports_name(
                    component@,
                    name,
                ),
    {
        let imports = component.imports();
        let ghost all = component@.imports;
        for i in 0..imports.len()
            invariant
                all == interface_views(imports@),
                all == component@.imports,
                known.wf(),
                forall|name: NameView| #[trigger]
                    known@.contains_key(name) <==> old(known)@.contains_key(name) || exists|k: int|
                        0 <= k < i && (#[trigger] all[k]).package.name == name,
        {
            assert(all[i as int] == imports@[i as int]@);
            known.insert(imports[i].package().name().clone(), ());
        }
    }

    /// Whether the packages that may come into the graph are few enough for their dependencies to be
    /// tabulated.
    pub fn within_limits(&self) -> (within: bool)
        requires
            self.tables_wf(),
        ensures
            within == self@.limited(),
    {
        let ghost s = self@;
        let mut known: PackageMap<()> = PackageMap::new();
        let count = self.top_level_packages.len();
        for i in 0..count
            invariant
                s == self@,
                count == s.top_level.len(),
                self.tables_wf(),
                known.wf(),
                forall|name: NameView| #[trigger]
                    known@.contains_key(name) <==> id_names(s.top_level).take(i as int).contains(name),
        {
            known.insert(self.top_level_packages.name_at(i).clone(), ());
            proof {
                lemma_take_contains(id_names(s.top_level), i as int);
            }
        }
        let ghost top = id_names(s.top_level);
        assert(top.take(top.len() as int) =~= top);
        for i in 0..self.to_resolve.len()
            invariant
                s == self@,
                top == id_names(s.top_level),
                known.wf(),
                forall|name: NameView| #[trigger]
                    known@.contains_key(name) <==> top.contains(name) || id_names(s.pending).take(
                        i as int,
                    ).contains(name),
        {
            assert(s.pending[i as int] == self.to_resolve@[i as int]@);
            known.insert(self.to_resolve[i].name().clone(), ());
            proof {
                lemma_take_contains(id_names(s.pending), i as int);
            }
        }
        let ghost pending = id_names(s.pending);
        assert(pending.take(pending.len() as int) =~= pending);
        let ghost first = known@;
        let ghost noted = self.chosen_packages.names();
        let count = self.chosen_packages.len();
        for i in 0..count
            invariant
                s == self@,
                self.tables_wf(),
                noted == self.chosen_packages.names(),
                count == noted.len(),
                known.wf(),
                forall|name: NameView| #[trigger]
                    known@.contains_key(name) <==> first.contains_key(name) || exists|k: int|
                        0 <= k < i && s.brings(#[trigger] noted[k], name),
        {
            let info = self.chosen_packages.value_at(i);
            assert(s.chosen[noted[i as int]] == info@);
            known.insert(self.chosen_packages.name_at(i).clone(), ());
            match &info.state {
                PackageResolutionState::Unresolved(_) => {},
                PackageResolutionState::Resolved(component) => {
                    Self::note_imports(component, &mut known);
                },
                PackageResolutionState::InGraph(component) => {
                    Self::note_imports(component, &mut known);
                },
            }
        }
        let ghost second = known@;
        for i in 0..self.unresolved_packages.len()
            invariant
                s == self@,
                known.wf(),
                forall|name: NameView| #[trigger]
                    known@.contains_key(name) <==> second.contains_key(name) || exists|k: int|
                        0 <= k < i && (#[trigger] s.requests[k]).selected is Some && imports_name(
                            s.requests[k].selected->Some_0.1,
                            name,
                        ),
        {
            assert(s.requests[i as int] == self.unresolved_packages@[i as int]@);
            if let Some((_, component)) = &self.unresolved_packages[i].selected {
                Self::note_imports(component, &mut known);
            }
        }
        proof {
            self.chosen_packages.lemma_names();
            assert(s.chosen.dom() =~= self.chosen_packages@.dom());
            assert forall|name: NameView| known@.contains_key(name) == #[trigger] s.knows(name) by {
                lemma_knows(s, noted, name);
            }
            assert(known@.dom() =~= s.known_names());
            known.lemma_names();
        }
        let len = known.len();
        match len.checked_mul(len) {
            Some(cells) => cells <= usize::MAX / 8,
            None => false,
        }
    }
}

/// What a part of a row that is longer by one holds.
proof fn lemma_take_contains(row: Seq<NameView>, i: int)
    requires
        0 <= i < row.len(),
    ensures
        forall|name: NameView| #[trigger]
            row.take(i + 1).contains(name) <==> row.take(i).contains(name) || name == row[i],
{
    let before = row.take(i);
    let after = row.take(i + 1);
    assert forall|name: NameView| #[trigger] after.contains(name) <==> before.contains(name) || name == row[i] by {
        if before.contains(name) {
            assert(after[before.index_of(name)] == name);
        }
        if after.contains(name) && name != row[i] {
            assert(before[after.index_of(name)] == name);
        }
        assert(after[i] == row[i]);
    }
}

/// How resolution is reported that came to a given end.
pub open spec fn resolved_to(
    end: Result<ResolverView, ConflictView>,
    image: Result<PackageContextImage, PackageResolverError>,
) -> bool {
    match end {
        Err(conflict) => image matches Err(error) && error.reports(conflict),
        Ok(state) => state.inv() && state.all_wanted() && if state.requests.len() > 0 {
            image matches Err(PackageResolverError::MissingPackages(resolver)) && resolver@ == state
                && resolver.wf() && resolver@.placed()
        } else if cyclic(state.graph) {
            image matches Err(error) && error is CyclicPackageDependency
        } else {
            image matches Ok(built) && exists|order: Seq<NameView>| #[trigger]
                topological(state.graph, order) && built@ == state.image_in(order)
        },
    }
}

/// A conflict is reported as the package and the two versions.
pub proof fn law_reported_conflict_names_the_versions(
    name: PackageName,
    first: Option<Version>,
    second: Option<Version>,
    conflict: ConflictView,
)
    ensures
        PackageResolverError::IncompatibleVersions(name, first, second).reports(conflict) <==> name@
            == conflict.name && version_view(first) == conflict.first && version_view(second) == conflict.second,
        !PackageResolverError::CyclicPackageDependency().reports(conflict),
{
}

/// What resolution reports is what it came to: the conflict that ended it; else the packages that are
/// missing, if any are; else that packages depend on each other in a circle, if they do; and else the image
/// of all packages in the graph, each after those on which it depends.
pub proof fn law_outcome_is_what_resolution_came_to(
    end: Result<ResolverView, ConflictView>,
    image: Result<PackageContextImage, PackageResolverError>,
)
    requires
        resolved_to(end, image),
    ensures
        end matches Err(conflict) ==> (image matches Err(
            PackageResolverError::IncompatibleVersions(name, first, second),
        ) && name@ == conflict.name && version_view(first) == conflict.first && version_view(second)
            == conflict.second),
        end matches Ok(state) ==> (state.requests.len() > 0 ==> (image matches Err(
            PackageResolverError::MissingPackages(resolver),
        ) && resolver@ == state)),
        end matches Ok(state) ==> (state.requests.len() == 0 && cyclic(state.graph) ==> (image matches Err(
            PackageResolverError::CyclicPackageDependency(),
        ))),
        end matches Ok(state) ==> (state.requests.len() == 0 && !cyclic(state.graph) ==> (image matches Ok(built)
            && exists|order: Seq<NameView>| #[trigger]
            topological(state.graph, order) && built@ == state.image_in(order))),
{
}

/// The values of a row are those of what stands in it, in its order, and what was selected is the package
/// and the component that were.
pub proof fn law_request_values_are_in_order(
    ids: Seq<PackageIdentifier>,
    requests: Seq<UnresolvedPackage>,
    id: PackageIdentifier,
    component: Component,
)
    ensures
        id_views(ids).len() == ids.len(),
        forall|i: int| 0 <= i < ids.len() ==> #[trigger] id_views(ids)[i] == ids[i]@,
        request_views(requests).len() == requests.len(),
        forall|i: int| 0 <= i < requests.len() ==> #[trigger] request_views(requests)[i] == requests[i]@,
        selected_view(Some((id, component))) == Some((id@, component@)),
        selected_view(None) == None::<(IdView, ComponentView)>,
{
}

/// Whether a row lists the places in an order at which the names of a set stand, and no others.
spec fn lists_places(places: Seq<usize>, order: Seq<NameView>, names: Set<NameView>) -> bool {
    &&& forall|k: int|
        0 <= k < places.len() ==> (#[trigger] places[k]) < order.len() && names.contains(
            order[places[k] as int],
        )
    &&& forall|j: int|
        0 <= j < order.len() && names.contains(#[trigger] order[j]) ==> places.contains(j as usize)
}

/// Whether all packages are in the graph, and an order lists each of them after those on which it
/// depends.
#[verifier::opaque]
spec fn sorted(s: ResolverView, order: Seq<NameView>) -> bool {
    s.at_rest() && topological(s.graph, order)
}

/// The image of packages in order is valid.
proof fn lemma_sorted_is_valid(s: ResolverView, order: Seq<NameView>)
    requires
        sorted(s, order),
    ensures
        s.image_in(order).valid(),
{
    reveal(sorted);
    law_image_is_valid(s, order);
}

/// A package of an order is in the graph, and the packages on which it depends stand before it.
proof fn lemma_sorted(s: ResolverView, order: Seq<NameView>, i: int)
    requires
        sorted(s, order),
        0 <= i < order.len(),
    ensures
        order.no_duplicates(),
        s.graph.contains_key(order[i]),
        s.chosen.contains_key(order[i]),
        s.chosen[order[i]].state is InGraph,
        s.image_in(order).packages[i] == s.resolved(order[i]),
        s.image_in(order).top_level[i] == s.chosen[order[i]].exact,
        forall|other: NameView| #[trigger]
            s.graph[order[i]].contains(other) ==> order.contains(other) && order.index_of(other) < i,
{
    reveal(sorted);
    lemma_ordered(s, order, i);
    let depends = needed(s.hosts, s.chosen[order[i]].state->InGraph_0.imports);
    assert forall|other: NameView| #[trigger] s.graph[order[i]].contains(other) implies order.contains(other)
        && order.index_of(other) < i by {
        let names = id_names(depends);
        assert(names.to_set().contains(other));
        let k = names.index_of(other);
        assert(names[k] == depends[k].name);
        law_needs_are_met(s, order[i], k);
        assert(s.graph.dom().contains(other));
        assert(order.to_set().contains(other));
        let j = order.index_of(other);
        assert(order[j] == other);
    }
}

/// The places of the packages on which a package depends in the graph are those of the packages on
/// which it depends in the image.
proof fn lemma_sorted_depends(s: ResolverView, order: Seq<NameView>, i: int, depends: Seq<usize>)
    requires
        sorted(s, order),
        0 <= i < order.len() <= usize::MAX,
        lists_places(depends, order, s.graph[order[i]]),
    ensures
        depends_listed(s.image_in(order), i, depends),
{
    reveal(sorted);
    let image = s.image_in(order);
    assert forall|c: int| 0 <= c < image.packages.len() implies (#[trigger] image.depends(i, c) <==> depends.contains(
        c as usize,
    )) by {
        lemma_image_depends(s, order, i, c);
    }
    assert forall|k: int| 0 <= k < depends.len() implies (#[trigger] depends[k]) < i by {
        lemma_image_depends(s, order, i, depends[k] as int);
    }
}

/// The name table of an image in order says where each name stands in the order.
proof fn lemma_names_in_order(s: ResolverView, order: Seq<NameView>, res: PackageContextImageInner)
    requires
        res@ == s.image_in(order),
        res.names_mapped(),
    ensures
        forall|j: int| 0 <= j < order.len() ==> res.package_map@.contains_key(#[trigger] order[j]),
        forall|name: NameView| #[trigger]
            res.package_map@.contains_key(name) ==> res.package_map@[name] < order.len()
                && order[res.package_map@[name] as int] == name,
{
    assert forall|j: int| 0 <= j < order.len() implies res.package_map@.contains_key(#[trigger] order[j]) by {
        assert(res@.packages[j].id.name == order[j]);
    }
}

} // verus!
