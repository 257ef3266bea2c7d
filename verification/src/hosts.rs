//! The interfaces that the host provides.

use crate::identifier::{IdView, InterfaceIdentifier, InterfaceView};
use crate::identifier::{UnversionedInterface, UnversionedView};
use crate::linker::{interface_map, interfaces_distinct, lemma_interface_map, Linker};
use fxhash::FxHashMap;
use vstd::prelude::*;

verus! {

/// What a table of positions holds: a position for each interface that is in it.
pub uninterp spec fn interface_positions(table: FxHashMap<(String, String, String), usize>) -> Map<
    (Seq<char>, Seq<char>, Seq<char>),
    usize,
>;

/// Calls `default` of `fxhash::FxHashMap`, which makes an empty table.
#[verifier::external_body]
fn table_new() -> (table: FxHashMap<(String, String, String), usize>)
    ensures
        interface_positions(table).dom() == Set::<(Seq<char>, Seq<char>, Seq<char>)>::empty(),
{
    FxHashMap::default()
}

/// Calls `get` of `fxhash::FxHashMap`: the position that the table holds for a key, if any. Two
/// keys are the same to the table if their texts are.
#[verifier::external_body]
fn table_get(
    table: &FxHashMap<(String, String, String), usize>,
    key: &(String, String, String),
) -> (position: Option<usize>)
    ensures
        position is Some <==> interface_positions(*table).contains_key(key@),
        position matches Some(p) ==> p == interface_positions(*table)[key@],
{
    table.get(key).copied()
}

/// Calls `insert` of `fxhash::FxHashMap`, which sets the position of a key and leaves the other
/// keys alone.
#[verifier::external_body]
fn table_insert(
    table: &mut FxHashMap<(String, String, String), usize>,
    key: (String, String, String),
    position: usize,
)
    ensures
        interface_positions(*final(table)) == interface_positions(*old(table)).insert(key@, position),
{
    table.insert(key, position);
}

/// The packages that must provide imports, in the order of the imports: those of the interfaces
/// that the host does not provide.
pub open spec fn needed(
    hosts: Map<UnversionedView, InterfaceView>,
    imports: Seq<InterfaceView>,
) -> Seq<IdView>
    decreases imports.len(),
{
    if imports.len() == 0 {
        Seq::empty()
    } else if hosts.contains_key(imports.last().unversioned()) {
        needed(hosts, imports.drop_last())
    } else {
        needed(hosts, imports.drop_last()).push(imports.last().package)
    }
}

/// The needed packages are those of the imported interfaces that the host does not provide.
pub proof fn lemma_needed(hosts: Map<UnversionedView, InterfaceView>, imports: Seq<InterfaceView>)
    ensures
        forall|k: int|
            0 <= k < imports.len() && !hosts.contains_key((#[trigger] imports[k]).unversioned()) ==> needed(
                hosts,
                imports,
            ).contains(imports[k].package),
        forall|id: IdView| #[trigger]
            needed(hosts, imports).contains(id) ==> exists|k: int|
                0 <= k < imports.len() && !hosts.contains_key((#[trigger] imports[k]).unversioned())
                    && imports[k].package == id,
    decreases imports.len(),
{
    if imports.len() > 0 {
        let shorter = imports.drop_last();
        let before = needed(hosts, shorter);
        let after = needed(hosts, imports);
        lemma_needed(hosts, shorter);
        assert forall|k: int|
            0 <= k < imports.len() && !hosts.contains_key((#[trigger] imports[k]).unversioned()) implies after.contains(
            imports[k].package,
        ) by {
            if k < imports.len() - 1 {
                assert(shorter[k] == imports[k]);
                assert(before.contains(imports[k].package));
                assert(after[before.index_of(imports[k].package)] == imports[k].package);
            } else {
                assert(after[before.len() as int] == imports[k].package);
            }
        }
        assert forall|id: IdView| #[trigger] after.contains(id) implies exists|k: int|
            0 <= k < imports.len() && !hosts.contains_key((#[trigger] imports[k]).unversioned())
                && imports[k].package == id by {
            let at = after.index_of(id);
            if at < before.len() {
                assert(before[at] == id);
                assert(before.contains(id));
                let k = choose|k: int|
                    0 <= k < shorter.len() && !hosts.contains_key((#[trigger] shorter[k]).unversioned())
                        && shorter[k].package == id;
                assert(imports[k] == shorter[k]);
            } else {
                assert(imports[imports.len() - 1].package == id);
            }
        }
    }
}

/// An import that the host does not provide in any version needs its package, in the version that it
/// names, and an import that the host provides in some version needs none.
pub proof fn law_import_needs_its_package(hosts: Map<UnversionedView, InterfaceView>, import: InterfaceView)
    ensures
        needed(hosts, Seq::<InterfaceView>::empty()).len() == 0,
        hosts.contains_key((import.package.name.0, import.package.name.1, import.name)) ==> needed(
            hosts,
            seq![import],
        ).len() == 0,
        !hosts.contains_key((import.package.name.0, import.package.name.1, import.name)) ==> needed(
            hosts,
            seq![import],
        ) == seq![import.package],
{
    reveal_with_fuel(needed, 3);
    assert(seq![import].drop_last() =~= Seq::<InterfaceView>::empty());
    assert(seq![import].last() == import);
    assert(Seq::<IdView>::empty().push(import.package) =~= seq![import.package]);
}

/// What imports need together is what they need one after the other, in their order.
pub proof fn law_needs_add_up(
    hosts: Map<UnversionedView, InterfaceView>,
    first: Seq<InterfaceView>,
    second: Seq<InterfaceView>,
)
    ensures
        needed(hosts, first + second) == needed(hosts, first) + needed(hosts, second),
    decreases second.len(),
{
    let all = first + second;
    if second.len() == 0 {
        assert(all =~= first);
        assert(needed(hosts, first) + needed(hosts, second) =~= needed(hosts, first));
    } else {
        law_needs_add_up(hosts, first, second.drop_last());
        assert(all.drop_last() =~= first + second.drop_last());
        assert(all.last() == second.last());
        assert(needed(hosts, all) =~= needed(hosts, first) + needed(hosts, second));
    }
}

/// A set of interfaces that holds at most one version of each.
#[derive(Debug)]
pub struct HostInterfaces {
    /// Where each interface stands.
    table: FxHashMap<(String, String, String), usize>,
    /// The interfaces.
    entries: Vec<InterfaceIdentifier>,
}

impl View for HostInterfaces {
    type V = Map<UnversionedView, InterfaceView>;

    closed spec fn view(&self) -> Map<UnversionedView, InterfaceView> {
        Map::new(
            |key: UnversionedView| interface_positions(self.table).contains_key(key),
            |key: UnversionedView| self.entries@[interface_positions(self.table)[key] as int]@,
        )
    }
}

/// Whether a set of host interfaces holds those that a linker defines and no others.
pub open spec fn hosts_of(
    hosts: Map<UnversionedView, InterfaceView>,
    defined: Set<InterfaceView>,
) -> bool {
    &&& forall|id: InterfaceView| #[trigger]
        defined.contains(id) ==> hosts.contains_key(id.unversioned()) && hosts[id.unversioned()] == id
    &&& forall|key: UnversionedView| #[trigger]
        hosts.contains_key(key) ==> defined.contains(hosts[key]) && hosts[key].unversioned() == key
}

/// Whether a set of interfaces holds at most one version of each.
pub open spec fn one_version_each(defined: Set<InterfaceView>) -> bool {
    forall|a: InterfaceView, b: InterfaceView| #[trigger]
        defined.contains(a) && #[trigger] defined.contains(b) && a.unversioned() == b.unversioned() ==> a == b
}

/// What the host provides under the names of a package and of an interface is the version that the
/// linker defines, and it provides nothing that the linker does not define.
pub proof fn law_host_provides_what_is_defined(
    hosts: Map<UnversionedView, InterfaceView>,
    defined: Set<InterfaceView>,
    id: InterfaceView,
    key: UnversionedView,
)
    requires
        hosts_of(hosts, defined),
    ensures
        defined.contains(id) ==> hosts.contains_key((id.package.name.0, id.package.name.1, id.name))
            && hosts[(id.package.name.0, id.package.name.1, id.name)] == id,
        hosts.contains_key(key) ==> defined.contains(hosts[key]) && hosts[key].package.name == (key.0, key.1)
            && hosts[key].name == key.2,
{
    if hosts.contains_key(key) {
        assert(hosts[key].unversioned() == key);
        assert(hosts[key].package.name.0 == key.0 && hosts[key].package.name.1 == key.1);
    }
}

/// A set of interfaces holds one version of each exactly if no two of them differ in the version of their
/// package and in nothing else.
pub proof fn law_versions_of_an_interface_are_told_apart(defined: Set<InterfaceView>)
    ensures
        one_version_each(defined) <==> forall|a: InterfaceView, b: InterfaceView| #[trigger]
            defined.contains(a) && #[trigger] defined.contains(b) && a.name == b.name && a.package.name
                == b.package.name ==> a.package.version == b.package.version,
{
    if forall|a: InterfaceView, b: InterfaceView| #[trigger]
        defined.contains(a) && #[trigger] defined.contains(b) && a.name == b.name && a.package.name
            == b.package.name ==> a.package.version == b.package.version {
        assert forall|a: InterfaceView, b: InterfaceView| #[trigger]
            defined.contains(a) && #[trigger] defined.contains(b) && a.unversioned() == b.unversioned() implies a
            == b by {
            assert(a.package.name == b.package.name);
            assert(a =~= b);
        }
    }
}

impl HostInterfaces {
    /// Whether every interface stands where the table says, and no other is in the table.
    pub closed spec fn wf(self) -> bool {
        &&& forall|i: int|
            0 <= i < self.entries@.len() ==> interface_positions(self.table).contains_key(
                (#[trigger] self.entries@[i])@.unversioned(),
            ) && interface_positions(self.table)[self.entries@[i]@.unversioned()] == i
        &&& forall|key: UnversionedView| #[trigger]
            interface_positions(self.table).contains_key(key) ==> interface_positions(self.table)[key]
                < self.entries@.len() && self.entries@[interface_positions(self.table)[key] as int]@.unversioned()
                == key
    }

    /// Creates an empty set.
    pub fn new() -> (hosts: Self)
        ensures
            hosts.wf(),
            hosts@ == Map::<UnversionedView, InterfaceView>::empty(),
    {
        let hosts = HostInterfaces { table: table_new(), entries: Vec::new() };
        assert(hosts@ =~= Map::<UnversionedView, InterfaceView>::empty());
        hosts
    }

    /// Gets the version of an interface that the set holds, if any.
    pub fn get(&self, interface: &InterfaceIdentifier) -> (host: Option<&InterfaceIdentifier>)
        requires
            self.wf(),
        ensures
            host is Some <==> self@.contains_key(interface@.unversioned()),
            host matches Some(h) ==> h@ == self@[interface@.unversioned()] && h@.unversioned()
                == interface@.unversioned(),
    {
        match table_get(&self.table, &UnversionedInterface(interface).key()) {
            Some(i) => Some(&self.entries[i]),
            None => None,
        }
    }

    /// Adds an interface of which the set holds no version yet.
    fn insert(&mut self, interface: InterfaceIdentifier)
        requires
            old(self).wf(),
            !old(self)@.contains_key(interface@.unversioned()),
        ensures
            final(self).wf(),
            final(self)@ == old(self)@.insert(interface@.unversioned(), interface@),
    {
        let i = self.entries.len();
        table_insert(&mut self.table, UnversionedInterface(&interface).key(), i);
        self.entries.push(interface);
        proof {
            assert forall|j: int| 0 <= j < i implies #[trigger] self.entries@[j] == old(self).entries@[j] by {}
            assert(self@ =~= old(self)@.insert(interface@.unversioned(), interface@));
        }
    }
}

/// Whether a linker defines at most one version of each interface.
pub fn defines_one_version_each(linker: &Linker) -> (single: bool)
    ensures
        single == one_version_each(linker@.instances.dom()),
{
    let entries = linker.instances.entries();
    let ghost all = entries@;
    proof {
        lemma_interface_map(all);
    }
    for i in 0..entries.len()
        invariant
            all == entries@,
            interface_map(all) == linker@.instances,
            interfaces_distinct(all),
            forall|j: int| 0 <= j < all.len() ==> interface_map(all).contains_key(#[trigger] all[j].0@),
            forall|a: int, b: int|
                0 <= a < b < i ==> (#[trigger] all[a]).0@.unversioned() != (#[trigger] all[b]).0@.unversioned(),
    {
        for j in 0..i
            invariant
                i < all.len(),
                all == entries@,
                interface_map(all) == linker@.instances,
                interfaces_distinct(all),
                forall|k: int| 0 <= k < all.len() ==> interface_map(all).contains_key(#[trigger] all[k].0@),
                forall|a: int|
                    0 <= a < j ==> (#[trigger] all[a]).0@.unversioned() != all[i as int].0@.unversioned(),
        {
            if UnversionedInterface(&entries[j].0) == UnversionedInterface(&entries[i].0) {
                assert(all[j as int].0@ != all[i as int].0@);
                assert(linker@.instances.dom().contains(all[j as int].0@));
                assert(linker@.instances.dom().contains(all[i as int].0@));
                return false;
            }
        }
    }
    proof {
        let defined = linker@.instances.dom();
        assert forall|a: InterfaceView, b: InterfaceView| #[trigger]
            defined.contains(a) && #[trigger] defined.contains(b) && a.unversioned() == b.unversioned() implies a
            == b by {
            assert(interface_map(all).contains_key(a) && interface_map(all).contains_key(b));
            let i = choose|i: int| 0 <= i < all.len() && #[trigger] all[i].0@ == a;
            let j = choose|j: int| 0 <= j < all.len() && #[trigger] all[j].0@ == b;
            assert(i == j);
        }
    }
    true
}

/// Collects the set of host interfaces from the input linker, which defines at most one version of
/// each.
pub fn host_package_set(linker: &Linker) -> (hosts: HostInterfaces)
    requires
        one_version_each(linker@.instances.dom()),
    ensures
        hosts.wf(),
        hosts_of(hosts@, linker@.instances.dom()),
{
    let mut hosts = HostInterfaces::new();
    let entries = linker.instances.entries();
    let ghost all = entries@;
    proof {
        lemma_interface_map(all);
    }
    for i in 0..entries.len()
        invariant
            all == entries@,
            one_version_each(linker@.instances.dom()),
            interface_map(all) == linker@.instances,
            interfaces_distinct(all),
            forall|j: int| 0 <= j < all.len() ==> interface_map(all).contains_key(#[trigger] all[j].0@),
            hosts.wf(),
            forall|j: int|
                0 <= j < i ==> hosts@.contains_key((#[trigger] all[j]).0@.unversioned())
                    && hosts@[all[j].0@.unversioned()] == all[j].0@,
            forall|key: UnversionedView| #[trigger]
                hosts@.contains_key(key) ==> hosts@[key].unversioned() == key && exists|j: int|
                    0 <= j < i && (#[trigger] all[j]).0@ == hosts@[key],
    {
        proof {
            let id = all[i as int].0@;
            if hosts@.contains_key(id.unversioned()) {
                let j = choose|j: int| 0 <= j < i && (#[trigger] all[j]).0@ == hosts@[id.unversioned()];
                assert(linker@.instances.dom().contains(all[j].0@));
                assert(linker@.instances.dom().contains(id));
                assert(all[j].0@ == id);
            }
        }
        hosts.insert(entries[i].0.clone());
        assert(hosts@[all[i as int].0@.unversioned()] == all[i as int].0@);
    }
    proof {
        assert forall|id: InterfaceView| #[trigger] linker@.instances.dom().contains(id) implies hosts@.contains_key(
            id.unversioned(),
        ) && hosts@[id.unversioned()] == id by {
            assert(interface_map(all).contains_key(id));
            let j = choose|j: int| 0 <= j < all.len() && #[trigger] all[j].0@ == id;
            assert(hosts@[all[j].0@.unversioned()] == all[j].0@);
        }
        assert forall|key: UnversionedView| #[trigger] hosts@.contains_key(key) implies linker@.instances.dom().contains(
            hosts@[key],
        ) && hosts@[key].unversioned() == key by {
            let j = choose|j: int| 0 <= j < all.len() && (#[trigger] all[j]).0@ == hosts@[key];
            assert(interface_map(all).contains_key(all[j].0@));
        }
    }
    hosts
}

} // verus!
