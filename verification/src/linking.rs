//! How the imports of a package are linked to the host and to packages that are loaded.

use crate::component::{Component, ComponentView};
use crate::hosts::HostInterfaces;
use crate::identifier::{IdView, InterfaceIdentifier, InterfaceView, NameView};
use crate::identifier::{PackageIdentifier, UnversionedView};
use crate::linker::{copy_instance, fill_linker, InstanceView, LinkError, Linker};
use crate::linker::{LinkerInstance, LinkerView};
use crate::loaded::{loaded_views, LoadedView, ResolvedInstance};
use crate::package_map::PackageMap;
use crate::version::{copy_version, same_version};
use vstd::prelude::*;

verus! {

/// The value of a [`LinkError`].
pub enum LinkErrorView {
    DuplicateInstance(InterfaceView),
    MissingHostInterface(InterfaceView),
    ConflictingHostInterface(InterfaceView),
    MissingInterface(IdView, InterfaceView),
}

impl View for LinkError {
    type V = LinkErrorView;

    open spec fn view(&self) -> LinkErrorView {
        match self {
            LinkError::DuplicateInstance(id) => LinkErrorView::DuplicateInstance(id@),
            LinkError::MissingHostInterface(id) => LinkErrorView::MissingHostInterface(id@),
            LinkError::ConflictingHostInterface(id) => LinkErrorView::ConflictingHostInterface(id@),
            LinkError::MissingInterface(package, id) => LinkErrorView::MissingInterface(package@, id@),
        }
    }
}

/// What a package is linked against.
#[verifier::ext_equal]
pub struct LinkInput {
    /// The identifier of the package.
    pub id: IdView,
    /// The interfaces that the host provides.
    pub hosts: Map<UnversionedView, InterfaceView>,
    /// The packages that are loaded.
    pub packages: Map<NameView, LoadedView>,
    /// The linker with the definitions of the host.
    pub linker: LinkerView,
}

impl LinkInput {
    /// The interface that the host or the package with the imported name provides for an import.
    pub open spec fn provider(self, import: InterfaceView) -> InterfaceView {
        if self.hosts.contains_key(import.unversioned()) {
            self.hosts[import.unversioned()]
        } else {
            InterfaceView {
                package: IdView {
                    name: import.package.name,
                    version: self.packages[import.package.name].version,
                },
                name: import.name,
            }
        }
    }

    /// Whether the host provides exactly the imported version of an interface, so that nothing is
    /// to be defined.
    pub open spec fn hosted_as_is(self, import: InterfaceView) -> bool {
        self.hosts.contains_key(import.unversioned()) && self.hosts[import.unversioned()].package.version
            == import.package.version
    }

    /// The interfaces among which the one that provides an import is looked up: those of the linker
    /// if the host provides it, and else those that the package exports.
    pub open spec fn offered(self, import: InterfaceView) -> Map<InterfaceView, InstanceView> {
        if self.hosts.contains_key(import.unversioned()) {
            self.linker.instances
        } else {
            self.packages[import.package.name].instance.exports.instances
        }
    }

    /// What is wrong with an import, if anything.
    pub open spec fn import_error(self, import: InterfaceView) -> Option<LinkErrorView> {
        let hosted = self.hosts.contains_key(import.unversioned());
        if self.hosted_as_is(import) {
            None
        } else if !self.offered(import).contains_key(self.provider(import)) {
            Some(
                if hosted {
                    LinkErrorView::MissingHostInterface(self.provider(import))
                } else {
                    LinkErrorView::MissingInterface(self.id, import)
                },
            )
        } else if self.linker.instances.contains_key(import) {
            Some(
                if hosted {
                    LinkErrorView::ConflictingHostInterface(import)
                } else {
                    LinkErrorView::DuplicateInstance(import)
                },
            )
        } else {
            None
        }
    }

    /// What is wrong with the first import with which anything is.
    pub open spec fn first_error(self, imports: Seq<InterfaceView>) -> Option<LinkErrorView>
        decreases imports.len(),
    {
        if imports.len() == 0 {
            None
        } else {
            match self.first_error(imports.drop_last()) {
                Some(error) => Some(error),
                None => self.import_error(imports.last()),
            }
        }
    }

    /// Whether an interface is one of a row of imports and is to be defined.
    pub open spec fn defines(self, imports: Seq<InterfaceView>, id: InterfaceView) -> bool {
        imports.contains(id) && !self.hosted_as_is(id)
    }

    /// The linker with a definition for each import of a row: what is provided for it.
    pub open spec fn filled(self, imports: Seq<InterfaceView>) -> LinkerView {
        LinkerView {
            root: self.linker.root,
            instances: Map::new(
                |id: InterfaceView| self.linker.instances.contains_key(id) || self.defines(imports, id),
                |id: InterfaceView|
                    if self.defines(imports, id) {
                        self.offered(id)[self.provider(id)]
                    } else {
                        self.linker.instances[id]
                    },
            ),
        }
    }

    /// What comes of linking a component: the linker with which it can be instantiated, or what is
    /// wrong with the first import with which anything is.
    pub open spec fn linked(self, component: ComponentView) -> Result<LinkerView, LinkErrorView> {
        match self.first_error(component.imports) {
            Some(error) => Err(error),
            None => Ok(self.filled(component.imports)),
        }
    }
}

/// After linking, everything that the component imports is defined, or the host provides it in the
/// imported version.
pub proof fn law_linked_imports_are_defined(input: LinkInput, component: ComponentView, k: int)
    requires
        input.linked(component) is Ok,
        0 <= k < component.imports.len(),
    ensures
        input.linked(component)->Ok_0.instances.contains_key(component.imports[k]) || input.hosted_as_is(
            component.imports[k],
        ),
        !input.hosted_as_is(component.imports[k]) ==> input.linked(
            component,
        )->Ok_0.instances[component.imports[k]] == input.offered(component.imports[k])[input.provider(
            component.imports[k],
        )],
{
    assert(component.imports.contains(component.imports[k]));
}

/// Linking leaves what the linker defined as it was.
pub proof fn law_linking_keeps_definitions(input: LinkInput, component: ComponentView, id: InterfaceView)
    requires
        input.linked(component) is Ok,
        input.linker.instances.contains_key(id),
    ensures
        input.linked(component)->Ok_0.root == input.linker.root,
        input.linked(component)->Ok_0.instances.contains_key(id),
        input.linked(component)->Ok_0.instances[id] == input.linker.instances[id],
{
    if input.defines(component.imports, id) {
        let k = component.imports.index_of(id);
        assert(component.imports[k] == id);
        lemma_no_error(input, component.imports, k);
    }
}

/// If nothing is wrong with any import of a row, nothing is wrong with each.
proof fn lemma_no_error(input: LinkInput, imports: Seq<InterfaceView>, k: int)
    requires
        input.first_error(imports) is None,
        0 <= k < imports.len(),
    ensures
        input.import_error(imports[k]) is None,
    decreases imports.len(),
{
    if k < imports.len() - 1 {
        assert(imports.drop_last()[k] == imports[k]);
        lemma_no_error(input, imports.drop_last(), k);
    }
}

/// What is wrong with the first imports stays wrong with all.
proof fn lemma_error_stays(input: LinkInput, imports: Seq<InterfaceView>, k: int)
    requires
        0 <= k <= imports.len(),
        input.first_error(imports.take(k)) is Some,
    ensures
        input.first_error(imports) == input.first_error(imports.take(k)),
    decreases imports.len() - k,
{
    if k < imports.len() {
        assert(imports.take(k + 1).drop_last() =~= imports.take(k));
        lemma_error_stays(input, imports, k + 1);
    } else {
        assert(imports.take(k) =~= imports);
    }
}

/// The linker after one more import has been looked at.
proof fn lemma_filled_step(input: LinkInput, imports: Seq<InterfaceView>, i: int)
    requires
        imports.no_duplicates(),
        0 <= i < imports.len(),
    ensures
        input.hosted_as_is(imports[i]) ==> input.filled(imports.take(i + 1)) == input.filled(imports.take(i)),
        !input.hosted_as_is(imports[i]) ==> input.filled(imports.take(i + 1)) == (LinkerView {
            root: input.linker.root,
            instances: input.filled(imports.take(i)).instances.insert(
                imports[i],
                input.offered(imports[i])[input.provider(imports[i])],
            ),
        }),
        input.filled(imports.take(i)).instances.contains_key(imports[i])
            == input.linker.instances.contains_key(imports[i]),
        imports.take(i + 1).drop_last() == imports.take(i),
        imports.take(i + 1).last() == imports[i],
{
    let before = imports.take(i);
    let after = imports.take(i + 1);
    let import = imports[i];
    assert(after.drop_last() =~= before);
    assert(!before.contains(import)) by {
        if before.contains(import) {
            assert(imports[before.index_of(import)] == import);
        }
    }
    assert forall|id: InterfaceView| #[trigger] after.contains(id) <==> before.contains(id) || id == import by {
        if before.contains(id) {
            assert(after[before.index_of(id)] == id);
        }
        if after.contains(id) && id != import {
            assert(before[after.index_of(id)] == id);
        }
        assert(after[i] == import);
    }
    if input.hosted_as_is(import) {
        assert(input.filled(after).instances =~= input.filled(before).instances);
    } else {
        assert(input.filled(after).instances =~= input.filled(before).instances.insert(
            import,
            input.offered(import)[input.provider(import)],
        ));
    }
}

/// An import of which the host provides no version is linked to what the loaded package of its name exports
/// as the interface of its name in the version in which the package is loaded, whichever version the import
/// names. The linker then defines the import as exactly that.
pub proof fn law_import_is_linked_to_the_loaded_version(input: LinkInput, component: ComponentView, k: int)
    requires
        input.linked(component) is Ok,
        0 <= k < component.imports.len(),
        !input.hosts.contains_key(
            (
                component.imports[k].package.name.0,
                component.imports[k].package.name.1,
                component.imports[k].name,
            ),
        ),
    ensures
        ({
            let import = component.imports[k];
            let exporting = input.packages[import.package.name];
            let exported = InterfaceView {
                package: IdView { name: import.package.name, version: exporting.version },
                name: import.name,
            };
            &&& !input.linker.instances.contains_key(import)
            &&& exporting.instance.exports.instances.contains_key(exported)
            &&& input.linked(component)->Ok_0.instances.contains_key(import)
            &&& input.linked(component)->Ok_0.instances[import] == exporting.instance.exports.instances[exported]
        }),
{
    lemma_no_error(input, component.imports, k);
    assert(component.imports.contains(component.imports[k]));
}

/// An import that the host provides in another version is defined as what the host defines in its version,
/// and one that it provides in the very version stays as it is.
pub proof fn law_import_is_linked_to_the_host_version(input: LinkInput, component: ComponentView, k: int)
    requires
        input.linked(component) is Ok,
        0 <= k < component.imports.len(),
        input.hosts.contains_key(
            (
                component.imports[k].package.name.0,
                component.imports[k].package.name.1,
                component.imports[k].name,
            ),
        ),
    ensures
        ({
            let import = component.imports[k];
            let host = input.hosts[(import.package.name.0, import.package.name.1, import.name)];
            let linked = input.linked(component)->Ok_0;
            &&& host.package.version != import.package.version ==> !input.linker.instances.contains_key(import)
                && input.linker.instances.contains_key(host) && linked.instances.contains_key(import)
                && linked.instances[import] == input.linker.instances[host]
            &&& host.package.version == import.package.version ==> linked.instances.contains_key(import)
                == input.linker.instances.contains_key(import) && (input.linker.instances.contains_key(import)
                ==> linked.instances[import] == input.linker.instances[import])
        }),
{
    lemma_no_error(input, component.imports, k);
    assert(component.imports.contains(component.imports[k]));
}

/// Linking defines nothing but imports, and leaves the root interface alone.
pub proof fn law_linking_defines_only_imports(input: LinkInput, component: ComponentView, id: InterfaceView)
    requires
        input.linked(component) is Ok,
        !component.imports.contains(id),
    ensures
        input.linked(component)->Ok_0.root == input.linker.root,
        input.linked(component)->Ok_0.instances.contains_key(id) == input.linker.instances.contains_key(id),
        input.linker.instances.contains_key(id) ==> input.linked(component)->Ok_0.instances[id]
            == input.linker.instances[id],
{
}

/// A component without imports is linked with the linker as it is.
pub proof fn law_linking_nothing_changes_nothing(input: LinkInput, component: ComponentView)
    requires
        component.imports.len() == 0,
    ensures
        input.linked(component) == Ok::<LinkerView, LinkErrorView>(input.linker),
{
    assert(input.filled(component.imports).instances =~= input.linker.instances);
    assert(input.filled(component.imports) =~= input.linker);
}

/// Imports are linked one after the other, and the first that cannot be linked is reported, whatever comes
/// after it.
pub proof fn law_first_failing_import_is_reported(input: LinkInput, component: ComponentView, fewer: ComponentView)
    requires
        component.imports.len() > 0,
        fewer.imports == component.imports.drop_last(),
        input.linked(fewer) is Err,
    ensures
        input.linked(component) == input.linked(fewer),
{
}

/// Whether the last of a row of imports can be linked depends on that import alone, if those before it can
/// be linked. One that the host provides fails if the linker does not define what the host provides, or
/// already defines the import. Another one fails if the loaded package of its name does not export the
/// interface in the version in which it is loaded, or if the linker already defines the import. Nothing
/// else makes linking fail.
pub proof fn law_linking_fails_only_for_a_reason(input: LinkInput, component: ComponentView, fewer: ComponentView)
    requires
        component.imports.len() > 0,
        fewer.imports == component.imports.drop_last(),
        input.linked(fewer) is Ok,
    ensures
        ({
            let import = component.imports.last();
            let key = (import.package.name.0, import.package.name.1, import.name);
            let host = input.hosts[key];
            let exporting = input.packages[import.package.name];
            let exported = InterfaceView {
                package: IdView { name: import.package.name, version: exporting.version },
                name: import.name,
            };
            let defined = input.linker.instances;
            if input.hosts.contains_key(key) {
                if host.package.version == import.package.version {
                    input.linked(component) is Ok
                } else if !defined.contains_key(host) {
                    input.linked(component) == Err::<LinkerView, LinkErrorView>(
                        LinkErrorView::MissingHostInterface(host),
                    )
                } else if defined.contains_key(import) {
                    input.linked(component) == Err::<LinkerView, LinkErrorView>(
                        LinkErrorView::ConflictingHostInterface(import),
                    )
                } else {
                    input.linked(component) is Ok
                }
            } else if !exporting.instance.exports.instances.contains_key(exported) {
                input.linked(component) == Err::<LinkerView, LinkErrorView>(
                    LinkErrorView::MissingInterface(input.id, import),
                )
            } else if defined.contains_key(import) {
                input.linked(component) == Err::<LinkerView, LinkErrorView>(
                    LinkErrorView::DuplicateInstance(import),
                )
            } else {
                input.linked(component) is Ok
            }
        }),
{
}

/// A component whose imports the host does not provide, while the loaded packages of their names export
/// them in the versions in which they are loaded and the linker defines none of them, can be linked,
/// whichever versions it imports.
pub proof fn law_exported_imports_can_be_linked(input: LinkInput, component: ComponentView)
    requires
        forall|k: int|
            #![trigger component.imports[k]]
            0 <= k < component.imports.len() ==> {
                let import = component.imports[k];
                let exporting = input.packages[import.package.name];
                &&& !input.hosts.contains_key((import.package.name.0, import.package.name.1, import.name))
                &&& !input.linker.instances.contains_key(import)
                &&& exporting.instance.exports.instances.contains_key(
                    InterfaceView {
                        package: IdView { name: import.package.name, version: exporting.version },
                        name: import.name,
                    },
                )
            },
    ensures
        input.linked(component) is Ok,
    decreases component.imports.len(),
{
    if component.imports.len() > 0 {
        let fewer = ComponentView { imports: component.imports.drop_last(), ..component };
        assert forall|k: int|
            #![trigger fewer.imports[k]]
            0 <= k < fewer.imports.len() implies fewer.imports[k] == component.imports[k] by {}
        law_exported_imports_can_be_linked(input, fewer);
        law_linking_fails_only_for_a_reason(input, component, fewer);
        assert(component.imports.last() == component.imports[component.imports.len() - 1]);
    }
}

/// An error says what it holds.
pub proof fn law_link_errors_say_what_they_hold(interface: InterfaceIdentifier, package: PackageIdentifier)
    ensures
        LinkError::DuplicateInstance(interface)@ == LinkErrorView::DuplicateInstance(interface@),
        LinkError::MissingHostInterface(interface)@ == LinkErrorView::MissingHostInterface(interface@),
        LinkError::ConflictingHostInterface(interface)@ == LinkErrorView::ConflictingHostInterface(interface@),
        LinkError::MissingInterface(package, interface)@ == LinkErrorView::MissingInterface(package@, interface@),
{
}

/// The interface of the host that provides an import is not among those that imports define.
proof fn lemma_host_is_not_defined(input: LinkInput, imports: Seq<InterfaceView>, import: InterfaceView)
    requires
        input.hosts.contains_key(import.unversioned()),
        input.hosts[import.unversioned()].unversioned() == import.unversioned(),
    ensures
        input.filled(imports).instances.contains_key(input.hosts[import.unversioned()])
            == input.linker.instances.contains_key(input.hosts[import.unversioned()]),
        input.linker.instances.contains_key(input.hosts[import.unversioned()]) ==> input.filled(
            imports,
        ).instances[input.hosts[import.unversioned()]]
            == input.linker.instances[input.hosts[import.unversioned()]],
{
    let host = input.hosts[import.unversioned()];
    assert(input.hosted_as_is(host));
}

/// Links all imports of a package: those that the host provides in another version are defined as
/// copies of the host's interface, and those that it does not provide come from the exports of the
/// packages that are loaded.
pub fn link_package(
    id: &PackageIdentifier,
    component: &Component,
    packages: &PackageMap<ResolvedInstance>,
    linker_versions: &HostInterfaces,
    linker: &Linker,
) -> (linked: Result<Linker, LinkError>)
    requires
        packages.wf(),
        linker_versions.wf(),
        forall|k: int|
            0 <= k < component@.imports.len() ==> linker_versions@.contains_key(
                (#[trigger] component@.imports[k]).unversioned(),
            ) || packages@.contains_key(component@.imports[k].package.name),
    ensures
        match (LinkInput {
            id: id@,
            hosts: linker_versions@,
            packages: loaded_views(packages@),
            linker: linker@,
        }).linked(component@) {
            Ok(filled) => linked matches Ok(l) && l@ == filled,
            Err(error) => linked matches Err(e) && e@ == error,
        },
{
    let ghost input = LinkInput {
        id: id@,
        hosts: linker_versions@,
        packages: loaded_views(packages@),
        linker: linker@,
    };
    let mut filled = linker.copy();
    let imports = component.imports();
    let ghost all = component@.imports;
    proof {
        assert(all.take(0) =~= Seq::<InterfaceView>::empty());
        assert(input.filled(all.take(0)).instances =~= input.linker.instances);
    }
    for i in 0..imports.len()
        invariant
            all == component@.imports,
            all == crate::component::interface_views(imports@),
            all.no_duplicates(),
            packages.wf(),
            linker_versions.wf(),
            forall|k: int|
                0 <= k < all.len() ==> linker_versions@.contains_key((#[trigger] all[k]).unversioned())
                    || packages@.contains_key(all[k].package.name),
            input.id == id@,
            input.hosts == linker_versions@,
            input.packages == loaded_views(packages@),
            input.linker == linker@,
            filled@ == input.filled(all.take(i as int)),
            input.first_error(all.take(i as int)) is None,
    {
        let interface = &imports[i];
        proof {
            assert(all[i as int] == interface@);
            lemma_filled_step(input, all, i as int);
            if input.import_error(interface@) is Some {
                assert(input.first_error(all.take(i + 1)) == input.import_error(interface@));
                lemma_error_stays(input, all, i + 1);
            }
        }
        match linker_versions.get(interface) {
            Some(host) => {
                proof {
                    lemma_host_is_not_defined(input, all.take(i as int), interface@);
                }
                if !same_version(&host.package.version, &interface.package.version) {
                    let mut copied = LinkerInstance::new();
                    match filled.instance(host) {
                        Some(instance) => copy_instance(instance, &mut copied),
                        None => {
                            return Err(LinkError::MissingHostInterface(host.clone()));
                        },
                    }
                    assert(copied@ =~= input.linker.instances[host@]);
                    if !filled.define_instance(interface.clone(), copied) {
                        return Err(LinkError::ConflictingHostInterface(interface.clone()));
                    }
                }
            },
            None => {
                let exporting = match packages.get(interface.package().name()) {
                    Some(exporting) => exporting,
                    None => {
                        assert(false);
                        return Err(LinkError::MissingInterface(id.clone(), interface.clone()));
                    },
                };
                let name = InterfaceIdentifier::new(
                    PackageIdentifier::new(
                        interface.package().name().clone(),
                        copy_version(&exporting.version),
                    ),
                    interface.name.clone(),
                );
                assert(input.packages[interface@.package.name] == exporting@);
                assert(name@ =~= input.provider(interface@));
                match exporting.instance.exports().instance(&name) {
                    Some(exported) => {
                        match fill_linker(&mut filled, interface, exported) {
                            Ok(()) => {},
                            Err(error) => {
                                return Err(error);
                            },
                        }
                    },
                    None => {
                        return Err(LinkError::MissingInterface(id.clone(), interface.clone()));
                    },
                }
            },
        }
    }
    assert(all.take(all.len() as int) =~= all);
    Ok(filled)
}

} // verus!
