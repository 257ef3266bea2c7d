//! Components, and the instances that are made of them.

use crate::identifier::{InterfaceIdentifier, InterfaceView};
use crate::linker::{InstanceView, InterfaceTable, LinkerInstance};
use std::sync::Arc;
use vstd::prelude::*;

verus! {

/// The values of a row of interface identifiers.
pub open spec fn interface_views(interfaces: Seq<InterfaceIdentifier>) -> Seq<InterfaceView> {
    interfaces.map_values(|interface: InterfaceIdentifier| interface@)
}

/// The values of a row of interface identifiers are those of what stands in it, in its order.
pub proof fn law_interface_values_are_in_order(interfaces: Seq<InterfaceIdentifier>)
    ensures
        interface_views(interfaces).len() == interfaces.len(),
        forall|i: int| 0 <= i < interfaces.len() ==> #[trigger] interface_views(interfaces)[i] == interfaces[i]@,
{
}

/// The value of a [`Component`].
#[verifier::ext_equal]
pub struct ComponentView {
    pub handle: u64,
    pub imports: Seq<InterfaceView>,
}

impl ComponentView {
    /// Whether no interface is imported twice and the versions are well formed.
    pub open spec fn valid(self) -> bool {
        &&& self.imports.no_duplicates()
        &&& forall|i: int| 0 <= i < self.imports.len() ==> (#[trigger] self.imports[i]).valid()
    }
}

/// What a component is made of.
#[derive(Debug)]
struct ComponentData {
    /// The number by which the host finds the parsed binary.
    handle: u64,
    /// The interfaces that must be there for the component to be instantiated.
    imports: Vec<InterfaceIdentifier>,
}

/// A parsed component. Copies share what it is made of.
#[derive(Debug)]
pub struct Component {
    /// What the component is made of.
    data: Arc<ComponentData>,
}

impl View for Component {
    type V = ComponentView;

    closed spec fn view(&self) -> ComponentView {
        ComponentView { handle: self.data.handle, imports: interface_views(self.data.imports@) }
    }
}

impl Component {
    /// No component imports an interface twice.
    #[verifier::type_invariant]
    pub open spec fn well_formed(self) -> bool {
        self@.valid()
    }

    /// Creates a component from the handle of its binary and the interfaces that it imports. Gives
    /// nothing if an interface is listed twice.
    pub fn new(handle: u64, imports: Vec<InterfaceIdentifier>) -> (component: Option<Self>)
        ensures
            component is Some <==> interface_views(imports@).no_duplicates(),
            component matches Some(c) ==> c@ == (ComponentView {
                handle,
                imports: interface_views(imports@),
            }),
    {
        let ghost views = interface_views(imports@);
        for i in 0..imports.len()
            invariant
                views == interface_views(imports@),
                forall|a: int, b: int| 0 <= a < b < i ==> #[trigger] views[a] != #[trigger] views[b],
                forall|a: int| 0 <= a < i ==> (#[trigger] views[a]).valid(),
        {
            for j in 0..i
                invariant
                    i < imports@.len(),
                    views == interface_views(imports@),
                    forall|a: int| 0 <= a < j ==> #[trigger] views[a] != views[i as int],
            {
                if imports[j].same(&imports[i]) {
                    assert(views[j as int] == views[i as int]);
                    return None;
                }
                assert(views[j as int] != views[i as int]);
            }
            if let Some(version) = &imports[i].package.version {
                proof {
                    use_type_invariant(version);
                }
            }
            assert(views[i as int].valid());
        }
        Some(Component { data: Arc::new(ComponentData { handle, imports }) })
    }

    /// The number by which the host finds the parsed binary.
    pub fn handle(&self) -> (handle: u64)
        ensures
            handle == self@.handle,
    {
        self.data.handle
    }

    /// The interfaces imported by this component.
    pub fn imports(&self) -> (imports: &Vec<InterfaceIdentifier>)
        ensures
            interface_views(imports@) == self@.imports,
            self@.valid(),
    {
        proof {
            use_type_invariant(self);
        }
        &self.data.imports
    }

    /// Whether two components are made of the same.
    pub fn same(&self, other: &Self) -> (same: bool)
        ensures
            same == (self@ == other@),
    {
        let imports = self.imports();
        let others = other.imports();
        let ghost views = interface_views(imports@);
        let ghost other_views = interface_views(others@);
        if self.handle() != other.handle() || imports.len() != others.len() {
            assert(views.len() == imports@.len() && other_views.len() == others@.len());
            return false;
        }
        for i in 0..imports.len()
            invariant
                views == interface_views(imports@),
                other_views == interface_views(others@),
                views == self@.imports,
                other_views == other@.imports,
                imports@.len() == others@.len(),
                forall|j: int| 0 <= j < i ==> views[j] == #[trigger] other_views[j],
        {
            if !imports[i].same(&others[i]) {
                assert(views[i as int] != other_views[i as int]);
                return false;
            }
        }
        assert(views =~= other_views);
        true
    }
}

impl Clone for Component {
    fn clone(&self) -> (copy: Self)
        ensures
            copy@ == self@,
    {
        proof {
            use_type_invariant(self);
        }
        Component { data: self.data.clone() }
    }
}

/// The value of [`Exports`].
#[verifier::ext_equal]
pub struct ExportsView {
    pub root: InstanceView,
    pub instances: Map<InterfaceView, InstanceView>,
}

/// The interfaces that an instance exports.
#[derive(Debug)]
pub struct Exports {
    /// The root interface of the instance.
    pub root: LinkerInstance,
    /// All of the instance's exported interfaces.
    pub instances: InterfaceTable,
}

impl View for Exports {
    type V = ExportsView;

    open spec fn view(&self) -> ExportsView {
        ExportsView { root: self.root@, instances: self.instances@ }
    }
}

impl Exports {
    /// Gets the root interface.
    pub fn root(&self) -> (root: &LinkerInstance)
        ensures
            root@ == self@.root,
    {
        &self.root
    }

    /// Gets the interface with the specified identifier, if any.
    pub fn instance(&self, id: &InterfaceIdentifier) -> (instance: Option<&LinkerInstance>)
        ensures
            instance is Some <==> self@.instances.contains_key(id@),
            instance matches Some(found) ==> found@ == self@.instances[id@],
    {
        self.instances.get(id)
    }
}

/// What an instance is made of.
#[derive(Debug)]
struct InstanceData {
    /// The number by which the host finds the instance.
    handle: u64,
    /// The interfaces that the instance exports.
    exports: Exports,
}

/// An instantiated component. Copies share what it is made of.
#[derive(Debug)]
pub struct Instance {
    /// What the instance is made of.
    data: Arc<InstanceData>,
}

/// The value of an [`Instance`].
#[verifier::ext_equal]
pub struct ExportingInstance {
    pub handle: u64,
    pub exports: ExportsView,
}

impl View for Instance {
    type V = ExportingInstance;

    closed spec fn view(&self) -> ExportingInstance {
        ExportingInstance { handle: self.data.handle, exports: self.data.exports@ }
    }
}

impl Instance {
    /// Creates an instance from its handle and what it exports.
    pub fn new(handle: u64, exports: Exports) -> (instance: Self)
        ensures
            instance@ == (ExportingInstance { handle, exports: exports@ }),
    {
        Instance { data: Arc::new(InstanceData { handle, exports }) }
    }

    /// The number by which the host finds the instance.
    pub fn handle(&self) -> (handle: u64)
        ensures
            handle == self@.handle,
    {
        self.data.handle
    }

    /// The interfaces that the instance exports.
    pub fn exports(&self) -> (exports: &Exports)
        ensures
            exports@ == self@.exports,
    {
        &self.data.exports
    }
}

impl Clone for Instance {
    fn clone(&self) -> (copy: Self)
        ensures
            copy@ == self@,
    {
        Instance { data: self.data.clone() }
    }
}

} // verus!
