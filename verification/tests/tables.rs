use modularity::flags::{gather_rows, spread_row, PackageFlagsList};
use modularity::graph::DependencyGraph;
use modularity::identifier::PackageName;
use modularity::package_map::PackageMap;

fn name(text: &str) -> PackageName {
    PackageName::new("test".to_string(), text.to_string())
}

fn texts(names: &[PackageName]) -> Vec<&str> {
    names.iter().map(|n| n.name()).collect()
}

#[test]
fn map_finds_what_was_inserted() {
    let mut map: PackageMap<u32> = PackageMap::new();
    assert_eq!(map.len(), 0);
    assert_eq!(map.insert(name("a"), 1), None);
    assert_eq!(map.insert(name("b"), 2), None);
    assert_eq!(map.insert(name("a"), 3), Some(1));
    assert_eq!(map.len(), 2);
    assert_eq!(map.get(&name("a")), Some(&3));
    assert_eq!(map.get(&name("b")), Some(&2));
    assert_eq!(map.get(&name("c")), None);
    assert!(map.contains(&name("b")));
    assert!(!map.contains(&PackageName::new("other".to_string(), "b".to_string())));
}

#[test]
fn map_keeps_the_order_of_insertion() {
    let mut map: PackageMap<u32> = PackageMap::new();
    map.insert(name("b"), 2);
    map.insert(name("a"), 1);
    map.insert(name("b"), 4);
    assert_eq!(map.name_at(0).name(), "b");
    assert_eq!(map.name_at(1).name(), "a");
    assert_eq!(*map.value_at(0), 4);
    assert_eq!(*map.value_at(1), 1);
}

#[test]
fn map_gives_access_to_values() {
    let mut map: PackageMap<u32> = PackageMap::new();
    map.insert(name("a"), 1);
    if let Some(value) = map.get_mut(&name("a")) {
        *value = 7;
    }
    assert_eq!(map.get(&name("a")), Some(&7));
    assert!(map.get_mut(&name("b")).is_none());
}

#[test]
fn map_forgets_what_was_removed() {
    let mut map: PackageMap<u32> = PackageMap::new();
    map.insert(name("a"), 1);
    map.insert(name("b"), 2);
    map.insert(name("c"), 3);
    assert_eq!(map.remove(&name("a")), Some(1));
    assert_eq!(map.remove(&name("a")), None);
    assert_eq!(map.get(&name("a")), None);
    assert_eq!(map.get(&name("b")), Some(&2));
    assert_eq!(map.get(&name("c")), Some(&3));
    assert_eq!(map.remove(&name("c")), Some(3));
    assert_eq!(map.get(&name("b")), Some(&2));
    assert_eq!(map.len(), 1);
}

fn rows(list: &PackageFlagsList, size: usize) -> Vec<Vec<bool>> {
    (0..size).map(|i| (0..size).map(|j| list.is_set(i, j)).collect()).collect()
}

#[test]
fn flags_start_with_one_value() {
    assert_eq!(rows(&PackageFlagsList::new(false, 2), 2), vec![vec![false, false], vec![false, false]]);
    assert_eq!(rows(&PackageFlagsList::new(true, 2), 2), vec![vec![true, true], vec![true, true]]);
}

#[test]
fn edits_change_their_row() {
    let mut list = PackageFlagsList::new(false, 3);
    let mut edit = list.edit(1);
    edit.set(2, true);
    edit.set(0, true);
    edit.set(0, false);
    assert_eq!(
        rows(&list, 3),
        vec![vec![false, false, false], vec![false, false, true], vec![false, false, false]]
    );
}

#[test]
fn or_with_takes_flags_from_an_earlier_row() {
    let mut list = PackageFlagsList::new(false, 3);
    list.edit(0).set(1, true);
    let mut edit = list.edit(2);
    edit.set(2, true);
    edit.or_with(0);
    assert_eq!(
        rows(&list, 3),
        vec![vec![false, true, false], vec![false, false, false], vec![false, true, true]]
    );
}

#[test]
fn or_into_gives_flags_to_an_earlier_row() {
    let mut list = PackageFlagsList::new(false, 3);
    list.edit(0).set(1, true);
    let mut edit = list.edit(2);
    edit.set(2, true);
    edit.or_into(0);
    assert_eq!(
        rows(&list, 3),
        vec![vec![false, true, true], vec![false, false, false], vec![false, false, true]]
    );
}

#[test]
fn lists_are_combined_flag_by_flag() {
    let mut a = PackageFlagsList::new(false, 2);
    let mut b = PackageFlagsList::new(false, 2);
    a.edit(0).set(1, true);
    b.edit(1).set(0, true);
    a.bitor_assign(&b);
    assert_eq!(rows(&a, 2), vec![vec![false, true], vec![true, false]]);
    assert_eq!(rows(&b, 2), vec![vec![false, false], vec![true, false]]);
}

#[test]
fn rows_are_gathered_and_spread() {
    let mut list = PackageFlagsList::new(false, 3);
    gather_rows(&mut list, 0, &vec![]);
    gather_rows(&mut list, 1, &vec![0]);
    gather_rows(&mut list, 2, &vec![1]);
    assert_eq!(
        rows(&list, 3),
        vec![vec![true, false, false], vec![true, true, false], vec![true, true, true]]
    );
    let mut list = PackageFlagsList::new(false, 3);
    spread_row(&mut list, 2, &vec![1]);
    spread_row(&mut list, 1, &vec![0]);
    spread_row(&mut list, 0, &vec![]);
    assert_eq!(
        rows(&list, 3),
        vec![vec![true, true, true], vec![false, true, true], vec![false, false, true]]
    );
}

#[test]
fn graph_knows_its_dependencies() {
    let mut graph = DependencyGraph::new();
    assert_eq!(graph.len(), 0);
    graph.insert(&name("a"), &vec![name("b"), name("c"), name("b")]);
    graph.insert(&name("b"), &vec![]);
    assert_eq!(graph.len(), 2);
    let depends = graph.dependencies(&name("a"));
    let mut found = texts(&depends);
    found.sort();
    assert_eq!(found, vec!["b", "c"]);
    graph.insert(&name("a"), &vec![name("b")]);
    assert_eq!(texts(&graph.dependencies(&name("a"))), vec!["b"]);
    assert_eq!(graph.len(), 2);
}

#[test]
fn sort_lists_dependencies_first() {
    let mut graph = DependencyGraph::new();
    graph.insert(&name("a"), &vec![name("b"), name("c")]);
    graph.insert(&name("b"), &vec![name("d")]);
    graph.insert(&name("c"), &vec![name("d"), name("b")]);
    graph.insert(&name("d"), &vec![]);
    let order = graph.sort().expect("there is no cycle");
    assert_eq!(texts(&order), vec!["d", "b", "c", "a"]);
}

#[test]
fn sort_of_nothing_is_empty() {
    let order = DependencyGraph::new().sort().expect("there is no cycle");
    assert!(order.is_empty());
}

#[test]
fn cycles_cannot_be_sorted() {
    let mut graph = DependencyGraph::new();
    graph.insert(&name("a"), &vec![name("b")]);
    graph.insert(&name("b"), &vec![name("c")]);
    graph.insert(&name("c"), &vec![name("a")]);
    graph.insert(&name("d"), &vec![]);
    assert!(graph.sort().is_none());
}

#[test]
fn a_package_that_needs_itself_is_a_cycle() {
    let mut graph = DependencyGraph::new();
    graph.insert(&name("a"), &vec![name("a")]);
    assert!(graph.sort().is_none());
}
