use modularity::component::{Component, Exports, Instance};
use modularity::hosts::{defines_one_version_each, host_package_set};
use modularity::identifier::{InterfaceIdentifier, PackageIdentifier, PackageName, UnversionedInterface};
use modularity::linker::{
    copy_instance, fill_linker, InterfaceTable, ItemMap, LinkError, Linker, LinkerInstance,
};
use modularity::version::Version;

fn package(name: &str, version: Option<(u64, u64, u64)>) -> PackageIdentifier {
    PackageIdentifier::new(
        PackageName::new("test".to_string(), name.to_string()),
        version.map(|(a, b, c)| Version::new(a, b, c, "", "").expect("well formed")),
    )
}

fn interface(name: &str, version: Option<(u64, u64, u64)>, item: &str) -> InterfaceIdentifier {
    InterfaceIdentifier::new(package(name, version), item.to_string())
}

fn holding(func: &str, handle: u64) -> LinkerInstance {
    let mut instance = LinkerInstance::new();
    assert!(instance.funcs.define(func.to_string(), handle));
    instance
}

#[test]
fn identifiers_are_compared_with_their_versions() {
    assert!(package("a", None).same(&package("a", None)));
    assert!(!package("a", None).same(&package("a", Some((1, 0, 0)))));
    assert!(!package("a", None).same(&package("b", None)));
    assert!(package("a", Some((1, 0, 0))).same(&package("a", Some((1, 0, 0))).clone()));
    assert!(interface("a", None, "x").same(&interface("a", None, "x")));
    assert!(!interface("a", None, "x").same(&interface("a", None, "y")));
    assert!(!interface("a", None, "x").same(&interface("a", Some((1, 0, 0)), "x")));
    assert_eq!(interface("a", None, "x").package().name().namespace(), "test");
    assert_eq!(interface("a", None, "x").name(), "x");
}

#[test]
fn unversioned_interfaces_are_compared_without_their_versions() {
    let a = interface("a", None, "x");
    let b = interface("a", Some((1, 0, 0)), "x");
    let c = interface("a", None, "y");
    let d = interface("b", None, "x");
    assert!(UnversionedInterface(&a) == UnversionedInterface(&b));
    assert!(UnversionedInterface(&a) != UnversionedInterface(&c));
    assert!(UnversionedInterface(&a) != UnversionedInterface(&d));
    assert_eq!(UnversionedInterface(&a).key(), UnversionedInterface(&b).key());
}

#[test]
fn names_are_defined_once() {
    let mut items = ItemMap::new();
    assert!(items.define("f".to_string(), 1));
    assert!(!items.define("f".to_string(), 2));
    assert!(items.define("g".to_string(), 3));
    assert_eq!(items.get(&"f".to_string()), Some(1));
    assert_eq!(items.get(&"g".to_string()), Some(3));
    assert_eq!(items.get(&"h".to_string()), None);
    assert_eq!(items.entries().len(), 2);
}

#[test]
fn instances_are_copied() {
    let mut from = holding("f", 1);
    from.resources.define("r".to_string(), 2);
    let mut to = holding("g", 3);
    copy_instance(&from, &mut to);
    assert_eq!(to.funcs.get(&"f".to_string()), Some(1));
    assert_eq!(to.funcs.get(&"g".to_string()), Some(3));
    assert_eq!(to.resources.get(&"r".to_string()), Some(2));
    assert_eq!(from.funcs.get(&"g".to_string()), None);
}

#[test]
fn linkers_define_each_interface_once() {
    let mut linker = Linker::new();
    assert!(linker.define_instance(interface("a", None, "x"), holding("f", 1)));
    assert!(!linker.define_instance(interface("a", None, "x"), holding("f", 2)));
    assert!(linker.define_instance(interface("a", Some((1, 0, 0)), "x"), holding("f", 3)));
    let found = linker.instance(&interface("a", None, "x")).expect("it was defined");
    assert_eq!(found.funcs.get(&"f".to_string()), Some(1));
    assert!(linker.instance(&interface("b", None, "x")).is_none());
}

#[test]
fn copies_of_linkers_are_independent() {
    let mut linker = Linker::new();
    linker.root.funcs.define("main".to_string(), 9);
    linker.define_instance(interface("a", None, "x"), holding("f", 1));
    let mut copy = linker.copy();
    assert_eq!(copy.root.funcs.get(&"main".to_string()), Some(9));
    assert!(copy.define_instance(interface("b", None, "x"), holding("g", 2)));
    assert!(copy.instance(&interface("a", None, "x")).is_some());
    assert!(linker.instance(&interface("b", None, "x")).is_none());
}

#[test]
fn filling_a_linker_fails_if_the_interface_is_defined() {
    let mut linker = Linker::new();
    let id = interface("a", None, "x");
    assert!(fill_linker(&mut linker, &id, &holding("f", 1)).is_ok());
    match fill_linker(&mut linker, &id, &holding("f", 2)) {
        Err(LinkError::DuplicateInstance(duplicate)) => assert!(duplicate.same(&id)),
        other => panic!("unexpected {other:?}"),
    }
    let found = linker.instance(&id).expect("it was defined");
    assert_eq!(found.funcs.get(&"f".to_string()), Some(1));
}

#[test]
fn host_interfaces_are_found_in_any_version() {
    let mut linker = Linker::new();
    linker.define_instance(interface("a", Some((1, 0, 0)), "x"), LinkerInstance::new());
    linker.define_instance(interface("a", None, "y"), LinkerInstance::new());
    assert!(defines_one_version_each(&linker));
    let hosts = host_package_set(&linker);
    let found = hosts.get(&interface("a", Some((3, 0, 0)), "x")).expect("some version is there");
    assert!(found.same(&interface("a", Some((1, 0, 0)), "x")));
    let found = hosts.get(&interface("a", Some((1, 0, 0)), "y")).expect("some version is there");
    assert!(found.same(&interface("a", None, "y")));
    assert!(hosts.get(&interface("a", None, "z")).is_none());
    assert!(hosts.get(&interface("b", None, "x")).is_none());
}

#[test]
fn two_versions_of_a_host_interface_are_noticed() {
    let mut linker = Linker::new();
    assert!(defines_one_version_each(&linker));
    linker.define_instance(interface("a", Some((1, 0, 0)), "x"), LinkerInstance::new());
    assert!(defines_one_version_each(&linker));
    linker.define_instance(interface("a", Some((1, 0, 1)), "x"), LinkerInstance::new());
    assert!(!defines_one_version_each(&linker));
}

#[test]
fn components_import_each_interface_once() {
    let imports = vec![interface("a", None, "x"), interface("a", None, "y")];
    let component = Component::new(5, imports).expect("the imports are different");
    assert_eq!(component.handle(), 5);
    assert_eq!(component.imports().len(), 2);
    assert!(component.same(&component.clone()));
    assert!(Component::new(5, vec![interface("a", None, "x"), interface("a", None, "x")]).is_none());
    let other = Component::new(5, vec![interface("a", None, "x")]).expect("one import");
    assert!(!component.same(&other));
    assert!(!other.same(&Component::new(6, vec![interface("a", None, "x")]).expect("one import")));
}

#[test]
fn instances_share_their_exports() {
    let mut instances = InterfaceTable::new();
    assert!(instances.define(interface("a", None, "x"), holding("f", 1)));
    let instance = Instance::new(7, Exports { root: holding("main", 2), instances });
    let copy = instance.clone();
    assert_eq!(copy.handle(), 7);
    assert_eq!(copy.exports().root().funcs.get(&"main".to_string()), Some(2));
    assert!(copy.exports().instance(&interface("a", None, "x")).is_some());
    assert!(copy.exports().instance(&interface("a", None, "y")).is_none());
}
