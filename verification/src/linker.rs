//! What interfaces hold, and tables of interfaces: those a linker defines, and those an instance
//! exports.

use crate::identifier::{InterfaceIdentifier, InterfaceView, PackageIdentifier};
use vstd::prelude::*;

verus! {

/// Describes an issue with linking a package.
#[derive(Debug)]
pub enum LinkError {
    /// The linker already defines an interface that an import needs.
    DuplicateInstance(InterfaceIdentifier),
    /// The linker does not define the interface of the host that satisfies an import.
    MissingHostInterface(InterfaceIdentifier),
    /// The linker already defines the version of an interface of the host that is imported.
    ConflictingHostInterface(InterfaceIdentifier),
    /// The package imports an interface that the package it should come from does not export.
    MissingInterface(PackageIdentifier, InterfaceIdentifier),
}

/// Functions or resources by name. Each is known by a handle, a number by which the host finds it
/// again.
#[derive(Debug)]
pub struct ItemMap {
    /// The names, each with its handle.
    entries: Vec<(String, u64)>,
}

/// The handle that a row of entries holds for each name.
pub open spec fn entry_map(entries: Seq<(String, u64)>) -> Map<Seq<char>, u64>
    decreases entries.len(),
{
    if entries.len() == 0 {
        Map::empty()
    } else {
        entry_map(entries.drop_last()).insert(entries.last().0@, entries.last().1)
    }
}

/// Whether no two entries have the same name.
pub open spec fn entries_distinct(entries: Seq<(String, u64)>) -> bool {
    forall|i: int, j: int|
        0 <= i < j < entries.len() ==> (#[trigger] entries[i]).0@ != (#[trigger] entries[j]).0@
}

/// The names that a map of entries holds are those of the entries.
proof fn lemma_entry_map(entries: Seq<(String, u64)>)
    ensures
        forall|i: int| 0 <= i < entries.len() ==> entry_map(entries).contains_key(#[trigger] entries[i].0@),
        forall|name: Seq<char>| #[trigger]
            entry_map(entries).contains_key(name) ==> exists|i: int|
                0 <= i < entries.len() && #[trigger] entries[i].0@ == name,
        entries_distinct(entries) ==> forall|i: int|
            0 <= i < entries.len() ==> entry_map(entries)[#[trigger] entries[i].0@] == entries[i].1,
    decreases entries.len(),
{
    if entries.len() > 0 {
        let shorter = entries.drop_last();
        lemma_entry_map(shorter);
        assert forall|i: int| 0 <= i < entries.len() implies entry_map(entries).contains_key(
            #[trigger] entries[i].0@,
        ) by {
            if i < entries.len() - 1 {
                assert(shorter[i] == entries[i]);
            }
        }
        assert forall|name: Seq<char>| #[trigger] entry_map(entries).contains_key(name) implies exists|i: int|
            0 <= i < entries.len() && #[trigger] entries[i].0@ == name by {
            if name == entries.last().0@ {
                assert(entries[entries.len() - 1].0@ == name);
            } else {
                let i = choose|i: int| 0 <= i < shorter.len() && #[trigger] shorter[i].0@ == name;
                assert(entries[i].0@ == name);
            }
        }
        if entries_distinct(entries) {
            assert(entries_distinct(shorter)) by {
                assert forall|i: int, j: int| 0 <= i < j < shorter.len() implies (#[trigger] shorter[i]).0@ != (
                #[trigger] shorter[j]).0@ by {
                    assert(entries[i].0@ != entries[j].0@);
                }
            }
            assert forall|i: int| 0 <= i < entries.len() implies entry_map(entries)[#[trigger] entries[i].0@]
                == entries[i].1 by {
                if i < entries.len() - 1 {
                    assert(shorter[i] == entries[i]);
                    assert(entries[i].0@ != entries[entries.len() - 1].0@);
                }
            }
        }
    }
}

/// A row of entries with different names defines the name of each entry as its handle, and no other name.
pub proof fn law_entries_define_their_names(entries: Seq<(String, u64)>, name: Seq<char>, i: int)
    requires
        forall|j: int, k: int| 0 <= j < k < entries.len() ==> (#[trigger] entries[j]).0@ != (#[trigger] entries[k]).0@,
    ensures
        entry_map(entries).contains_key(name) <==> exists|j: int| 0 <= j < entries.len() && #[trigger] entries[j].0@ == name,
        0 <= i < entries.len() ==> entry_map(entries)[entries[i].0@] == entries[i].1,
        entries_distinct(entries),
{
    lemma_entry_map(entries);
}

impl View for ItemMap {
    type V = Map<Seq<char>, u64>;

    closed spec fn view(&self) -> Map<Seq<char>, u64> {
        entry_map(self.entries@)
    }
}

impl ItemMap {
    #[verifier::type_invariant]
    spec fn distinct(self) -> bool {
        entries_distinct(self.entries@)
    }

    /// Creates an empty map.
    pub fn new() -> (map: Self)
        ensures
            map@ == Map::<Seq<char>, u64>::empty(),
    {
        ItemMap { entries: Vec::new() }
    }

    /// Gets the handle of a name, if it is defined.
    pub fn get(&self, name: &String) -> (handle: Option<u64>)
        ensures
            handle is Some <==> self@.contains_key(name@),
            handle matches Some(h) ==> h == self@[name@],
    {
        proof {
            use_type_invariant(self);
            lemma_entry_map(self.entries@);
        }
        for i in 0..self.entries.len()
            invariant
                entries_distinct(self.entries@),
                forall|j: int| 0 <= j < i ==> (#[trigger] self.entries@[j]).0@ != name@,
                forall|j: int|
                    0 <= j < self.entries@.len() ==> entry_map(self.entries@).contains_key(
                        #[trigger] self.entries@[j].0@,
                    ) && entry_map(self.entries@)[self.entries@[j].0@] == self.entries@[j].1,
        {
            if self.entries[i].0 == *name {
                return Some(self.entries[i].1);
            }
        }
        None
    }

    /// Defines a name. Gives `false`, and changes nothing, if the name is already defined.
    pub fn define(&mut self, name: String, handle: u64) -> (defined: bool)
        ensures
            defined == !old(self)@.contains_key(name@),
            defined ==> final(self)@ == old(self)@.insert(name@, handle),
            !defined ==> final(self)@ == old(self)@,
    {
        if self.get(&name).is_some() {
            return false;
        }
        proof {
            use_type_invariant(&*self);
            lemma_entry_map(self.entries@);
        }
        let mut entries: Vec<(String, u64)> = Vec::new();
        std::mem::swap(&mut entries, &mut self.entries);
        entries.push((name, handle));
        assert(entries@.drop_last() =~= old(self).entries@);
        self.entries = entries;
        true
    }

    /// The names, each with its handle.
    pub fn entries(&self) -> (entries: &Vec<(String, u64)>)
        ensures
            entries_distinct(entries@),
            entry_map(entries@) == self@,
    {
        proof {
            use_type_invariant(self);
        }
        &self.entries
    }

    /// Defines every name of another map, none of which is defined yet.
    pub fn define_all(&mut self, items: &ItemMap)
        requires
            old(self)@.dom().disjoint(items@.dom()),
        ensures
            final(self)@ == old(self)@.union_prefer_right(items@),
    {
        proof {
            use_type_invariant(items);
        }
        let ghost all = items.entries@;
        assert(all.take(0) =~= Seq::empty());
        assert(self@.union_prefer_right(entry_map(all.take(0))) =~= self@);
        for i in 0..items.entries.len()
            invariant
                all == items.entries@,
                entries_distinct(all),
                entry_map(all) == items@,
                old(self)@.dom().disjoint(items@.dom()),
                self@ == old(self)@.union_prefer_right(entry_map(all.take(i as int))),
        {
            proof {
                let taken = all.take(i as int);
                lemma_entry_map(all);
                lemma_entry_map(taken);
                let name = all[i as int].0@;
                assert(items@.contains_key(name));
                if entry_map(taken).contains_key(name) {
                    let j = choose|j: int| 0 <= j < taken.len() && #[trigger] taken[j].0@ == name;
                    assert(all[j].0@ == name);
                }
            }
            self.define(items.entries[i].0.clone(), items.entries[i].1);
            proof {
                let next = all.take(i + 1);
                assert(next.drop_last() =~= all.take(i as int));
                assert(self@ =~= old(self)@.union_prefer_right(entry_map(next)));
            }
        }
        assert(all.take(all.len() as int) =~= all);
    }
}

/// The value of a [`LinkerInstance`].
#[verifier::ext_equal]
pub struct InstanceView {
    pub funcs: Map<Seq<char>, u64>,
    pub resources: Map<Seq<char>, u64>,
}

/// The value of an interface that holds nothing.
pub open spec fn empty_instance() -> InstanceView {
    InstanceView { funcs: Map::empty(), resources: Map::empty() }
}

/// The functions and the instantiated resource types of an interface.
#[derive(Debug)]
pub struct LinkerInstance {
    /// The functions in the interface.
    pub funcs: ItemMap,
    /// The resource types in the interface.
    pub resources: ItemMap,
}

impl View for LinkerInstance {
    type V = InstanceView;

    open spec fn view(&self) -> InstanceView {
        InstanceView { funcs: self.funcs@, resources: self.resources@ }
    }
}

impl LinkerInstance {
    /// Creates an interface that holds nothing.
    pub fn new() -> (instance: Self)
        ensures
            instance@ == empty_instance(),
    {
        LinkerInstance { funcs: ItemMap::new(), resources: ItemMap::new() }
    }
}

/// Copies one linker instance to another, which defines none of its functions and resources.
pub fn copy_instance(old_instance: &LinkerInstance, new_instance: &mut LinkerInstance)
    requires
        old(new_instance)@.funcs.dom().disjoint(old_instance@.funcs.dom()),
        old(new_instance)@.resources.dom().disjoint(old_instance@.resources.dom()),
    ensures
        final(new_instance)@.funcs == old(new_instance)@.funcs.union_prefer_right(old_instance@.funcs),
        final(new_instance)@.resources == old(new_instance)@.resources.union_prefer_right(
            old_instance@.resources,
        ),
{
    new_instance.funcs.define_all(&old_instance.funcs);
    new_instance.resources.define_all(&old_instance.resources);
}

/// Interfaces, each with what it holds.
#[derive(Debug)]
pub struct InterfaceTable {
    /// The identifiers, each with the interface.
    entries: Vec<(InterfaceIdentifier, LinkerInstance)>,
}

/// The interface that a row of entries holds for each identifier.
pub open spec fn interface_map(entries: Seq<(InterfaceIdentifier, LinkerInstance)>) -> Map<
    InterfaceView,
    InstanceView,
>
    decreases entries.len(),
{
    if entries.len() == 0 {
        Map::empty()
    } else {
        interface_map(entries.drop_last()).insert(entries.last().0@, entries.last().1@)
    }
}

/// Whether no two entries have the same identifier.
pub open spec fn interfaces_distinct(entries: Seq<(InterfaceIdentifier, LinkerInstance)>) -> bool {
    forall|i: int, j: int|
        0 <= i < j < entries.len() ==> (#[trigger] entries[i]).0@ != (#[trigger] entries[j]).0@
}

/// The identifiers that a map of entries holds are those of the entries.
pub proof fn lemma_interface_map(entries: Seq<(InterfaceIdentifier, LinkerInstance)>)
    ensures
        forall|i: int|
            0 <= i < entries.len() ==> interface_map(entries).contains_key(#[trigger] entries[i].0@),
        forall|id: InterfaceView| #[trigger]
            interface_map(entries).contains_key(id) ==> exists|i: int|
                0 <= i < entries.len() && #[trigger] entries[i].0@ == id,
        interfaces_distinct(entries) ==> forall|i: int|
            0 <= i < entries.len() ==> interface_map(entries)[#[trigger] entries[i].0@] == entries[i].1@,
    decreases entries.len(),
{
    if entries.len() > 0 {
        let shorter = entries.drop_last();
        lemma_interface_map(shorter);
        assert forall|i: int| 0 <= i < entries.len() implies interface_map(entries).contains_key(
            #[trigger] entries[i].0@,
        ) by {
            if i < entries.len() - 1 {
                assert(shorter[i] == entries[i]);
            }
        }
        assert forall|id: InterfaceView| #[trigger] interface_map(entries).contains_key(id) implies exists|
            i: int,
        | 0 <= i < entries.len() && #[trigger] entries[i].0@ == id by {
            if id == entries.last().0@ {
                assert(entries[entries.len() - 1].0@ == id);
            } else {
                let i = choose|i: int| 0 <= i < shorter.len() && #[trigger] shorter[i].0@ == id;
                assert(entries[i].0@ == id);
            }
        }
        if interfaces_distinct(entries) {
            assert(interfaces_distinct(shorter)) by {
                assert forall|i: int, j: int| 0 <= i < j < shorter.len() implies (#[trigger] shorter[i]).0@ != (
                #[trigger] shorter[j]).0@ by {
                    assert(entries[i].0@ != entries[j].0@);
                }
            }
            assert forall|i: int| 0 <= i < entries.len() implies interface_map(
                entries,
            )[#[trigger] entries[i].0@] == entries[i].1@ by {
                if i < entries.len() - 1 {
                    assert(shorter[i] == entries[i]);
                    assert(entries[i].0@ != entries[entries.len() - 1].0@);
                }
            }
        }
    }
}

/// A row of entries with different identifiers defines the identifier of each entry as its interface, and
/// no other identifier.
pub proof fn law_entries_define_their_interfaces(
    entries: Seq<(InterfaceIdentifier, LinkerInstance)>,
    id: InterfaceView,
    i: int,
)
    requires
        forall|j: int, k: int| 0 <= j < k < entries.len() ==> (#[trigger] entries[j]).0@ != (#[trigger] entries[k]).0@,
    ensures
        interface_map(entries).contains_key(id) <==> exists|j: int| 0 <= j < entries.len() && #[trigger] entries[j].0@ == id,
        0 <= i < entries.len() ==> interface_map(entries)[entries[i].0@] == entries[i].1@,
        interfaces_distinct(entries),
{
    lemma_interface_map(entries);
}

/// A linker and its interfaces hold what their parts hold, and an empty interface holds nothing.
pub proof fn law_linkers_are_their_parts(linker: Linker, instance: LinkerInstance, name: Seq<char>)
    ensures
        linker@.root == linker.root@,
        linker@.instances == linker.instances@,
        instance@.funcs == instance.funcs@,
        instance@.resources == instance.resources@,
        !empty_instance().funcs.contains_key(name),
        !empty_instance().resources.contains_key(name),
{
}

impl View for InterfaceTable {
    type V = Map<InterfaceView, InstanceView>;

    closed spec fn view(&self) -> Map<InterfaceView, InstanceView> {
        interface_map(self.entries@)
    }
}

impl InterfaceTable {
    #[verifier::type_invariant]
    spec fn distinct(self) -> bool {
        interfaces_distinct(self.entries@)
    }

    /// Creates an empty table.
    pub fn new() -> (table: Self)
        ensures
            table@ == Map::<InterfaceView, InstanceView>::empty(),
    {
        InterfaceTable { entries: Vec::new() }
    }

    /// The identifiers, each with the interface.
    pub fn entries(&self) -> (entries: &Vec<(InterfaceIdentifier, LinkerInstance)>)
        ensures
            interfaces_distinct(entries@),
            interface_map(entries@) == self@,
    {
        proof {
            use_type_invariant(self);
        }
        &self.entries
    }

    /// Gets the interface with the given identifier, if any.
    pub fn get(&self, id: &InterfaceIdentifier) -> (instance: Option<&LinkerInstance>)
        ensures
            instance is Some <==> self@.contains_key(id@),
            instance matches Some(found) ==> found@ == self@[id@],
    {
        proof {
            use_type_invariant(self);
            lemma_interface_map(self.entries@);
        }
        for i in 0..self.entries.len()
            invariant
                forall|j: int| 0 <= j < i ==> (#[trigger] self.entries@[j]).0@ != id@,
                forall|j: int|
                    0 <= j < self.entries@.len() ==> interface_map(self.entries@).contains_key(
                        #[trigger] self.entries@[j].0@,
                    ) && interface_map(self.entries@)[self.entries@[j].0@] == self.entries@[j].1@,
        {
            if self.entries[i].0.same(id) {
                return Some(&self.entries[i].1);
            }
        }
        None
    }

    /// Adds an interface. Gives `false`, and changes nothing, if the table already has one with
    /// that identifier.
    pub fn define(&mut self, id: InterfaceIdentifier, instance: LinkerInstance) -> (defined: bool)
        ensures
            defined == !old(self)@.contains_key(id@),
            defined ==> final(self)@ == old(self)@.insert(id@, instance@),
            !defined ==> final(self)@ == old(self)@,
    {
        if self.get(&id).is_some() {
            return false;
        }
        proof {
            use_type_invariant(&*self);
            lemma_interface_map(self.entries@);
        }
        let mut entries: Vec<(InterfaceIdentifier, LinkerInstance)> = Vec::new();
        std::mem::swap(&mut entries, &mut self.entries);
        entries.push((id, instance));
        assert(entries@.drop_last() =~= old(self).entries@);
        self.entries = entries;
        true
    }
}

/// The value of a [`Linker`].
#[verifier::ext_equal]
pub struct LinkerView {
    pub root: InstanceView,
    pub instances: Map<InterfaceView, InstanceView>,
}

/// Provides the ability to define imports for a component.
#[derive(Debug)]
pub struct Linker {
    /// The root interface used for linking.
    pub root: LinkerInstance,
    /// The set of interfaces against which to link.
    pub instances: InterfaceTable,
}

impl View for Linker {
    type V = LinkerView;

    open spec fn view(&self) -> LinkerView {
        LinkerView { root: self.root@, instances: self.instances@ }
    }
}

impl Linker {
    /// Creates a linker that defines nothing.
    pub fn new() -> (linker: Self)
        ensures
            linker@.root == empty_instance(),
            linker@.instances == Map::<InterfaceView, InstanceView>::empty(),
    {
        Linker { root: LinkerInstance::new(), instances: InterfaceTable::new() }
    }

    /// Obtains the interface with the given identifier, if any.
    pub fn instance(&self, id: &InterfaceIdentifier) -> (instance: Option<&LinkerInstance>)
        ensures
            instance is Some <==> self@.instances.contains_key(id@),
            instance matches Some(found) ==> found@ == self@.instances[id@],
    {
        self.instances.get(id)
    }

    /// Defines an interface. Gives `false`, and changes nothing, if the linker already defines
    /// one with that identifier.
    pub fn define_instance(&mut self, id: InterfaceIdentifier, instance: LinkerInstance) -> (defined: bool)
        ensures
            defined == !old(self)@.instances.contains_key(id@),
            defined ==> final(self)@.instances == old(self)@.instances.insert(id@, instance@),
            !defined ==> final(self)@.instances == old(self)@.instances,
            final(self)@.root == old(self)@.root,
    {
        self.instances.define(id, instance)
    }

    /// Copies the linker.
    pub fn copy(&self) -> (linker: Self)
        ensures
            linker@ == self@,
    {
        let mut linker = Linker::new();
        copy_instance(&self.root, &mut linker.root);
        assert(linker.root@ =~= self.root@);
        let entries = self.instances.entries();
        let ghost all = entries@;
        assert(all.take(0) =~= Seq::empty());
        for i in 0..entries.len()
            invariant
                all == entries@,
                interfaces_distinct(all),
                linker@.root == self@.root,
                linker@.instances == interface_map(all.take(i as int)),
        {
            let mut instance = LinkerInstance::new();
            copy_instance(&entries[i].1, &mut instance);
            assert(instance@ =~= entries@[i as int].1@);
            proof {
                let taken = all.take(i as int);
                lemma_interface_map(taken);
                let id = all[i as int].0@;
                if interface_map(taken).contains_key(id) {
                    let j = choose|j: int| 0 <= j < taken.len() && #[trigger] taken[j].0@ == id;
                    assert(all[j].0@ == id);
                }
                assert(all.take(i + 1).drop_last() =~= taken);
            }
            linker.define_instance(entries[i].0.clone(), instance);
        }
        assert(all.take(all.len() as int) =~= all);
        linker
    }
}

/// Adds all exports from the provided interface instantiation to the linker, failing if the
/// interface is already defined.
pub fn fill_linker(
    linker: &mut Linker,
    id: &InterfaceIdentifier,
    instance: &LinkerInstance,
) -> (filled: Result<(), LinkError>)
    ensures
        filled is Ok <==> !old(linker)@.instances.contains_key(id@),
        filled is Ok ==> final(linker)@ == (LinkerView {
            root: old(linker)@.root,
            instances: old(linker)@.instances.insert(id@, instance@),
        }),
        filled matches Err(error) ==> error matches LinkError::DuplicateInstance(duplicate) && duplicate@ == id@,
        filled is Err ==> final(linker)@ == old(linker)@,
{
    let mut to_fill = LinkerInstance::new();
    copy_instance(instance, &mut to_fill);
    assert(to_fill@ =~= instance@);
    if linker.define_instance(id.clone(), to_fill) {
        Ok(())
    } else {
        Err(LinkError::DuplicateInstance(id.clone()))
    }
}

} // verus!
