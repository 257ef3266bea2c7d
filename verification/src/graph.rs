//! The graph of the dependencies between packages.

use crate::identifier::{NameView, PackageName};
use topo_sort::{CycleError, TopoSort};
use vstd::prelude::*;

verus! {

/// `topo_sort::TopoSort`, which maps nodes to their dependencies and sorts them.
#[verifier::external_type_specification]
#[verifier::external_body]
#[verifier::reject_recursive_types(T)]
pub struct ExTopoSort<T: Eq + std::hash::Hash>(TopoSort<T>);

/// `topo_sort::CycleError`, which says that nodes depend on each other.
#[verifier::external_type_specification]
#[verifier::external_body]
pub struct ExCycleError(CycleError);

/// What a graph holds: the nodes, each with the set of nodes that it depends on.
pub uninterp spec fn node_depends(graph: TopoSort<(String, String)>) -> Map<
    (Seq<char>, Seq<char>),
    Set<(Seq<char>, Seq<char>)>,
>;

/// The values of a row of keys.
pub open spec fn key_views(keys: Seq<(String, String)>) -> Seq<NameView> {
    keys.map_values(|key: (String, String)| key@)
}

/// Whether one node of a graph depends directly on another.
pub open spec fn edge(graph: Map<NameView, Set<NameView>>, from: NameView, to: NameView) -> bool {
    graph.contains_key(from) && graph.contains_key(to) && graph[from].contains(to)
}

/// Whether each node of a path depends directly on the next one.
pub open spec fn is_path(graph: Map<NameView, Set<NameView>>, path: Seq<NameView>) -> bool {
    forall|i: int| 0 <= i < path.len() - 1 ==> edge(graph, #[trigger] path[i], path[i + 1])
}

/// Whether a path of at least one step comes back to where it began.
pub open spec fn is_cycle(graph: Map<NameView, Set<NameView>>, path: Seq<NameView>) -> bool {
    path.len() >= 2 && is_path(graph, path) && path.first() == path.last()
}

/// Whether some node depends on itself, directly or indirectly.
pub open spec fn cyclic(graph: Map<NameView, Set<NameView>>) -> bool {
    exists|path: Seq<NameView>| is_cycle(graph, path)
}

/// Whether nodes of a path follow each other that are not different.
pub open spec fn stutters(path: Seq<NameView>) -> bool {
    exists|i: int| 0 <= i < path.len() - 1 && #[trigger] path[i] == path[i + 1]
}

/// Whether an order lists every node of a graph once.
pub open spec fn lists_nodes(graph: Map<NameView, Set<NameView>>, order: Seq<NameView>) -> bool {
    order.no_duplicates() && order.to_set() == graph.dom()
}

/// Whether an order lists every node of a graph once, after the nodes on which it depends.
pub open spec fn topological(graph: Map<NameView, Set<NameView>>, order: Seq<NameView>) -> bool {
    &&& lists_nodes(graph, order)
    &&& forall|i: int, j: int|
        #![trigger order[i], order[j]]
        0 <= i < order.len() && 0 <= j < order.len() && graph[order[i]].contains(order[j]) ==> j < i
}

/// A graph without nodes has no cycle, and its only order is empty.
pub proof fn lemma_empty_graph(graph: Map<NameView, Set<NameView>>)
    requires
        graph == Map::<NameView, Set<NameView>>::empty(),
    ensures
        !cyclic(graph),
        forall|order: Seq<NameView>| #[trigger] topological(graph, order) ==> order.len() == 0,
{
    assert forall|path: Seq<NameView>| !is_cycle(graph, path) by {
        if is_cycle(graph, path) {
            assert(graph.contains_key(path[0]));
        }
    }
    assert forall|order: Seq<NameView>| #[trigger] topological(graph, order) implies order.len() == 0 by {
        if order.len() > 0 {
            assert(order.to_set().contains(order[0]));
        }
    }
}

/// Calls `TopoSort::new`, which makes a graph without nodes.
#[verifier::external_body]
fn graph_new() -> (graph: TopoSort<(String, String)>)
    ensures
        node_depends(graph).dom() == Set::<(Seq<char>, Seq<char>)>::empty(),
{
    TopoSort::new()
}

/// Calls `TopoSort::insert`, which adds a node with its dependencies, in place of those that it
/// had, and leaves the other nodes alone.
#[verifier::external_body]
fn graph_insert(
    graph: &mut TopoSort<(String, String)>,
    node: (String, String),
    depends: Vec<(String, String)>,
)
    ensures
        node_depends(*final(graph)) == node_depends(*old(graph)).insert(
            node@,
            key_views(depends@).to_set(),
        ),
{
    graph.insert(node, depends);
}

/// Calls `TopoSort::len`: the number of nodes.
#[verifier::external_body]
fn graph_len(graph: &TopoSort<(String, String)>) -> (len: usize)
    ensures
        len == node_depends(*graph).dom().len(),
{
    graph.len()
}

/// Calls `TopoSort::get`: the nodes on which a node depends, each once. Their order is left open.
#[verifier::external_body]
fn graph_get(graph: &TopoSort<(String, String)>, node: &(String, String)) -> (depends: Option<Vec<(String, String)>>)
    ensures
        depends is Some <==> node_depends(*graph).contains_key(node@),
        depends matches Some(d) ==> key_views(d@).no_duplicates() && key_views(d@).to_set()
            == node_depends(*graph)[node@],
{
    graph.get(node).map(|depends| depends.iter().cloned().collect())
}

/// Calls `TopoSort::try_owned_vec_nodes`, which lists the nodes such that each stands after the
/// nodes of the graph on which it depends, where a node that depends on itself is let pass. It
/// fails if different nodes depend on each other in a circle. Which one of several such orders it
/// gives is left open. It counts the dependencies of a node in 32 bits.
#[verifier::external_body]
fn graph_sort(graph: &TopoSort<(String, String)>) -> (sorted: Result<Vec<(String, String)>, CycleError>)
    requires
        node_depends(*graph).dom().len() <= u32::MAX,
    ensures
        sorted matches Ok(order) ==> {
            &&& lists_nodes(node_depends(*graph), key_views(order@))
            &&& forall|i: int, j: int|
                #![trigger order@[i], order@[j]]
                0 <= i < order@.len() && 0 <= j < order@.len() && i != j && node_depends(
                    *graph,
                )[order@[i]@].contains(order@[j]@) ==> j < i
        },
        sorted is Err ==> exists|path: Seq<NameView>|
            is_cycle(node_depends(*graph), path) && !stutters(path),
{
    graph.try_owned_vec_nodes()
}

/// An order in which each node stands after its dependencies exists only if no node depends on
/// itself, directly or indirectly.
pub proof fn law_topological_is_acyclic(graph: Map<NameView, Set<NameView>>, order: Seq<NameView>)
    requires
        topological(graph, order),
    ensures
        !cyclic(graph),
{
    if cyclic(graph) {
        let path = choose|path: Seq<NameView>| is_cycle(graph, path);
        lemma_descends(graph, order, path);
    }
}

/// A graph has a cycle exactly if some row of at least two nodes, each of which depends directly on the
/// next, ends where it began. A node that depends on itself is a cycle.
pub proof fn law_cycle_ends_where_it_began(graph: Map<NameView, Set<NameView>>, path: Seq<NameView>)
    ensures
        path.len() >= 2 && path[0] == path[path.len() - 1] && (forall|i: int|
            0 <= i < path.len() - 1 ==> graph.contains_key(#[trigger] path[i]) && graph.contains_key(path[i + 1])
                && graph[path[i]].contains(path[i + 1])) ==> cyclic(graph),
        cyclic(graph) ==> exists|round: Seq<NameView>|
            {
                &&& #[trigger] round.len() >= 2
                &&& round[0] == round[round.len() - 1]
                &&& forall|i: int|
                    0 <= i < round.len() - 1 ==> graph.contains_key(#[trigger] round[i]) && graph.contains_key(
                        round[i + 1],
                    ) && graph[round[i]].contains(round[i + 1])
            },
{
    if path.len() >= 2 && path[0] == path[path.len() - 1] && (forall|i: int|
        0 <= i < path.len() - 1 ==> graph.contains_key(#[trigger] path[i]) && graph.contains_key(path[i + 1])
            && graph[path[i]].contains(path[i + 1])) {
        assert(is_path(graph, path));
        assert(is_cycle(graph, path));
    }
    if cyclic(graph) {
        let round = choose|round: Seq<NameView>| is_cycle(graph, round);
        assert(round.len() >= 2);
        assert forall|i: int| 0 <= i < round.len() - 1 implies graph.contains_key(#[trigger] round[i])
            && graph.contains_key(round[i + 1]) && graph[round[i]].contains(round[i + 1]) by {
            assert(edge(graph, round[i], round[i + 1]));
        }
    }
}

/// A row is a topological order of a graph exactly if it holds every node of the graph and nothing else,
/// none twice, and every node after those on which it depends directly.
pub proof fn law_topological_order_lists_dependencies_first(
    graph: Map<NameView, Set<NameView>>,
    order: Seq<NameView>,
)
    ensures
        topological(graph, order) <==> {
            &&& forall|i: int, j: int| 0 <= i < j < order.len() ==> #[trigger] order[i] != #[trigger] order[j]
            &&& forall|i: int| 0 <= i < order.len() ==> graph.contains_key(#[trigger] order[i])
            &&& forall|name: NameView| #[trigger]
                graph.contains_key(name) ==> exists|i: int| 0 <= i < order.len() && #[trigger] order[i] == name
            &&& forall|i: int, j: int|
                #![trigger order[i], order[j]]
                0 <= i < order.len() && 0 <= j < order.len() && graph[order[i]].contains(order[j]) ==> j < i
        },
{
    if topological(graph, order) {
        assert forall|i: int| 0 <= i < order.len() implies graph.contains_key(#[trigger] order[i]) by {
            assert(order.to_set().contains(order[i]));
        }
        assert forall|name: NameView| #[trigger] graph.contains_key(name) implies exists|i: int|
            0 <= i < order.len() && #[trigger] order[i] == name by {
            assert(order.to_set().contains(name));
            assert(order[order.index_of(name)] == name);
        }
    }
    if (forall|i: int| 0 <= i < order.len() ==> graph.contains_key(#[trigger] order[i])) && (forall|
        name: NameView,
    | #[trigger]
        graph.contains_key(name) ==> exists|i: int| 0 <= i < order.len() && #[trigger] order[i] == name) {
        assert forall|name: NameView| order.to_set().contains(name) == graph.dom().contains(name) by {
            if order.contains(name) {
                assert(graph.contains_key(order[order.index_of(name)]));
            }
            if graph.contains_key(name) {
                let i = choose|i: int| 0 <= i < order.len() && #[trigger] order[i] == name;
                assert(order.contains(name));
            }
        }
        assert(order.to_set() =~= graph.dom());
    }
}

/// A path stutters exactly if some node in it follows itself.
pub proof fn law_stuttering_repeats_a_node(path: Seq<NameView>, keys: Seq<(String, String)>)
    ensures
        stutters(path) <==> exists|i: int| 0 <= i < path.len() - 1 && #[trigger] path[i] == path[i + 1],
        key_views(keys).len() == keys.len(),
        forall|i: int| 0 <= i < keys.len() ==> #[trigger] key_views(keys)[i] == keys[i]@,
{
}

/// The values of a row of names are those of what stands in it, in its order.
pub proof fn law_name_values_are_in_order(names: Seq<PackageName>)
    ensures
        name_views(names).len() == names.len(),
        forall|i: int| 0 <= i < names.len() ==> #[trigger] name_views(names)[i] == names[i]@,
{
}

/// Along a path the places of the nodes in a topological order go down.
proof fn lemma_descends(graph: Map<NameView, Set<NameView>>, order: Seq<NameView>, path: Seq<NameView>)
    requires
        topological(graph, order),
        is_path(graph, path),
        path.len() >= 2,
    ensures
        order.contains(path.first()),
        order.contains(path.last()),
        order.index_of(path.last()) < order.index_of(path.first()),
    decreases path.len(),
{
    let a = path[path.len() - 2];
    let b = path.last();
    assert(edge(graph, path[path.len() - 2], path[path.len() - 2 + 1]));
    assert(order.to_set().contains(a) && order.to_set().contains(b));
    assert(order[order.index_of(a)] == a && order[order.index_of(b)] == b);
    assert(order.index_of(b) < order.index_of(a));
    if path.len() > 2 {
        let shorter = path.drop_last();
        assert forall|i: int| 0 <= i < shorter.len() - 1 implies edge(
            graph,
            #[trigger] shorter[i],
            shorter[i + 1],
        ) by {
            assert(edge(graph, path[i], path[i + 1]));
        }
        lemma_descends(graph, order, shorter);
    }
}

/// A graph of packages and the packages on which each of them depends.
pub struct DependencyGraph {
    /// The packages by namespace and name.
    inner: TopoSort<(String, String)>,
}

impl View for DependencyGraph {
    type V = Map<NameView, Set<NameView>>;

    closed spec fn view(&self) -> Map<NameView, Set<NameView>> {
        node_depends(self.inner)
    }
}

/// The values of a row of package names.
pub open spec fn name_views(names: Seq<PackageName>) -> Seq<NameView> {
    names.map_values(|name: PackageName| name@)
}

/// Copies the namespaces and names of a row of package names.
fn copy_keys(names: &Vec<PackageName>) -> (keys: Vec<(String, String)>)
    ensures
        key_views(keys@) == name_views(names@),
{
    let mut keys: Vec<(String, String)> = Vec::new();
    for i in 0..names.len()
        invariant
            keys@.len() == i,
            forall|j: int| 0 <= j < i ==> #[trigger] keys@[j]@ == names@[j]@,
    {
        let key = names[i].key();
        keys.push((key.0.clone(), key.1.clone()));
    }
    assert(key_views(keys@) =~= name_views(names@));
    keys
}

/// Turns a row of namespaces and names into a row of package names.
fn names_of_keys(keys: Vec<(String, String)>) -> (names: Vec<PackageName>)
    ensures
        name_views(names@) == key_views(keys@),
{
    let mut names: Vec<PackageName> = Vec::new();
    for i in 0..keys.len()
        invariant
            names@.len() == i,
            forall|j: int| 0 <= j < i ==> #[trigger] names@[j]@ == keys@[j]@,
    {
        names.push(PackageName::from_key((keys[i].0.clone(), keys[i].1.clone())));
    }
    assert(name_views(names@) =~= key_views(keys@));
    names
}

impl DependencyGraph {
    /// Creates a graph without packages.
    pub fn new() -> (graph: Self)
        ensures
            graph@.dom() == Set::<NameView>::empty(),
    {
        DependencyGraph { inner: graph_new() }
    }

    /// Adds a package with its dependencies.
    pub fn insert(&mut self, package: &PackageName, depends: &Vec<PackageName>)
        ensures
            final(self)@ == old(self)@.insert(package@, name_views(depends@).to_set()),
    {
        let key = package.key();
        graph_insert(&mut self.inner, (key.0.clone(), key.1.clone()), copy_keys(depends));
    }

    /// The number of packages.
    pub fn len(&self) -> (len: usize)
        ensures
            len == self@.dom().len(),
    {
        graph_len(&self.inner)
    }

    /// The packages on which a package of the graph depends directly, each once.
    pub fn dependencies(&self, package: &PackageName) -> (depends: Vec<PackageName>)
        requires
            self@.contains_key(package@),
        ensures
            name_views(depends@).no_duplicates(),
            name_views(depends@).to_set() == self@[package@],
    {
        match graph_get(&self.inner, package.key()) {
            Some(depends) => names_of_keys(depends),
            None => Vec::new(),
        }
    }

    /// Whether a package of the graph depends directly on itself.
    fn depends_on_itself(&self, package: &PackageName) -> (found: bool)
        requires
            self@.contains_key(package@),
        ensures
            found == self@[package@].contains(package@),
    {
        let depends = self.dependencies(package);
        let ghost views = name_views(depends@);
        for i in 0..depends.len()
            invariant
                views == name_views(depends@),
                views.to_set() == self@[package@],
                forall|j: int| 0 <= j < i ==> #[trigger] views[j] != package@,
        {
            if depends[i].same(package) {
                assert(views[i as int] == package@);
                assert(views.contains(package@));
                return true;
            }
            assert(views[i as int] == depends@[i as int]@);
        }
        proof {
            if views.to_set().contains(package@) {
                assert(views[views.index_of(package@)] == package@);
            }
        }
        false
    }

    /// Lists the packages such that each stands after those on which it depends. Gives
    /// nothing if a package depends on itself, directly or indirectly.
    pub fn sort(&self) -> (sorted: Option<Vec<PackageName>>)
        requires
            self@.dom().len() <= u32::MAX,
        ensures
            sorted matches Some(order) ==> topological(self@, name_views(order@)),
            sorted is None <==> cyclic(self@),
    {
        let keys = match graph_sort(&self.inner) {
            Ok(keys) => keys,
            Err(_) => {
                return None;
            },
        };
        let ghost key_seq = keys@;
        let order = names_of_keys(keys);
        let ghost views = name_views(order@);
        assert(views == key_views(key_seq));
        for i in 0..order.len()
            invariant
                views == name_views(order@),
                lists_nodes(self@, views),
                forall|j: int| 0 <= j < i ==> !self@[#[trigger] views[j]].contains(views[j]),
        {
            assert(views[i as int] == order@[i as int]@);
            assert(views.to_set().contains(views[i as int]));
            if self.depends_on_itself(&order[i]) {
                proof {
                    let name = order@[i as int]@;
                    let path = seq![name, name];
                    assert(edge(self@, name, name));
                    assert forall|k: int| 0 <= k < path.len() - 1 implies edge(
                        self@,
                        #[trigger] path[k],
                        path[k + 1],
                    ) by {}
                    assert(is_cycle(self@, path));
                }
                return None;
            }
        }
        proof {
            assert forall|i: int, j: int|
                #![trigger views[i], views[j]]
                0 <= i < views.len() && 0 <= j < views.len() && self@[views[i]].contains(views[j]) implies j
                < i by {
                assert(views[i] == key_seq[i]@ && views[j] == key_seq[j]@);
            }
            law_topological_is_acyclic(self@, views);
        }
        Some(order)
    }
}

} // verus!
