use modularity::component::{Component, Exports, Instance};
use modularity::identifier::{InterfaceIdentifier, PackageIdentifier, PackageName};
use modularity::linker::{InterfaceTable, LinkError, Linker, LinkerInstance};
use modularity::version::Version;
use modularity::{BuildStep, PackageContext, PackageContextImage, PackageContextTransition};
use modularity::{PackageContextTransitionBuilder, PackageResolver, PackageResolverError, StateCounter};

type Numbers = Option<(u64, u64, u64)>;

fn name(text: &str) -> PackageName {
    PackageName::new("test".to_string(), text.to_string())
}

fn package(text: &str, numbers: Numbers) -> PackageIdentifier {
    PackageIdentifier::new(
        name(text),
        numbers.map(|(a, b, c)| Version::new(a, b, c, "", "").expect("well formed")),
    )
}

fn interface(text: &str, numbers: Numbers) -> InterfaceIdentifier {
    InterfaceIdentifier::new(package(text, numbers), "api".to_string())
}

fn show(id: &PackageIdentifier) -> String {
    match id.version() {
        Some(v) => format!("{}@{}.{}.{}", id.name().name(), v.major(), v.minor(), v.patch()),
        None => id.name().name().to_string(),
    }
}

fn shown(ids: &[PackageIdentifier]) -> Vec<String> {
    ids.iter().map(show).collect()
}

fn holding(handle: u64) -> LinkerInstance {
    let mut instance = LinkerInstance::new();
    assert!(instance.funcs.define("call".to_string(), handle));
    assert!(instance.resources.define("thing".to_string(), handle + 1000));
    instance
}

/// An instance of a package that exports its interface, with the package's handle in it.
fn instance_of(id: &PackageIdentifier, handle: u64) -> Instance {
    let mut instances = InterfaceTable::new();
    instances.define(InterfaceIdentifier::new(id.clone(), "api".to_string()), holding(handle));
    Instance::new(handle, Exports { root: LinkerInstance::new(), instances })
}

type Source<'a> = &'a [(&'a str, Numbers, &'a [(&'a str, Numbers)])];

/// The image of all packages of a source, of which those are top-level that no other one imports.
fn image(linker: &Linker, source: Source) -> PackageContextImage {
    let ids = source
        .iter()
        .filter(|(text, _, _)| !source.iter().any(|(_, _, imports)| imports.iter().any(|i| i.0 == *text)))
        .map(|(text, numbers, _)| package(text, *numbers))
        .collect();
    let mut resolver = PackageResolver::new(ids, linker);
    loop {
        match resolver.resolve() {
            Ok(image) => return image,
            Err(PackageResolverError::MissingPackages(mut missing)) => {
                for request in missing.unresolved() {
                    let (text, numbers, imports) = source
                        .iter()
                        .find(|(text, numbers, _)| request.accepts(&package(text, *numbers)))
                        .expect("the source holds the package");
                    let imports = imports.iter().map(|(text, numbers)| interface(text, *numbers)).collect();
                    let component = Component::new(0, imports).expect("different imports");
                    request.resolve(package(text, *numbers), component);
                }
                resolver = missing;
            }
            Err(_) => panic!("resolution failed"),
        }
    }
}

/// Builds a transition, instantiating packages with handles that count up from the given one.
fn build(
    builder: PackageContextTransitionBuilder,
    first: u64,
) -> Result<PackageContextTransition, LinkError> {
    let mut handle = first;
    let mut progress = builder.build();
    loop {
        match progress.next()? {
            BuildStep::Done(transition) => return Ok(transition),
            BuildStep::Instantiate(pending) => {
                let instance = instance_of(pending.id(), handle);
                handle += 1;
                progress = pending.instantiated(instance);
            }
        }
    }
}

/// Moves a context to an image. Gives the packages that were loaded, those that were unloaded, and
/// the handles of the instances that must be dropped.
fn enter(
    ctx: &mut PackageContext,
    counter: &mut StateCounter,
    image: &PackageContextImage,
    first: u64,
) -> (Vec<String>, Vec<String>, Vec<u64>) {
    let builder = PackageContextTransitionBuilder::new(image, ctx);
    assert!(builder.is_buildable());
    let transition = build(builder, first).expect("the packages can be linked");
    assert!(transition.applies_to(ctx));
    let loaded = shown(transition.to_load());
    let unloaded = shown(transition.to_unload());
    let dropped = transition.apply(ctx, counter).iter().map(|i| i.handle()).collect();
    (loaded, unloaded, dropped)
}

fn listed(ctx: &PackageContext) -> Vec<String> {
    let mut found: Vec<String> = ctx.packages().iter().map(|p| show(p.id())).collect();
    found.sort();
    found
}

fn handle_of(ctx: &PackageContext, id: &PackageIdentifier) -> Option<u64> {
    let loaded = ctx.package(id.name())?;
    assert!(loaded.id().same(id));
    let exported = loaded
        .exports()
        .instance(&InterfaceIdentifier::new(id.clone(), "api".to_string()))
        .expect("it exports its interface");
    exported.funcs.get(&"call".to_string())
}

#[test]
fn states_are_counted() {
    let mut counter = StateCounter::new();
    assert_eq!(counter.next_state(), 0);
    assert_eq!(counter.next_state(), 1);
    assert_eq!(counter.next_state(), 2);
}

#[test]
fn a_new_context_has_nothing_loaded() {
    let mut counter = StateCounter::new();
    let ctx = PackageContext::new(&mut counter);
    assert!(ctx.packages().is_empty());
    assert!(ctx.package(&name("a")).is_none());
    assert!(ctx.image().packages().is_empty());
}

#[test]
fn packages_are_loaded_after_their_dependencies() {
    let mut counter = StateCounter::new();
    let mut ctx = PackageContext::new(&mut counter);
    let image = image(
        &Linker::new(),
        &[("a", None, &[("b", None)]), ("b", Some((1, 0, 0)), &[("c", None)]), ("c", None, &[])],
    );
    let (loaded, unloaded, dropped) = enter(&mut ctx, &mut counter, &image, 1);
    assert_eq!(loaded, vec!["c", "b@1.0.0", "a"]);
    assert!(unloaded.is_empty());
    assert!(dropped.is_empty());
    assert_eq!(listed(&ctx), vec!["a", "b@1.0.0", "c"]);
    assert_eq!(handle_of(&ctx, &package("c", None)), Some(1));
    assert_eq!(handle_of(&ctx, &package("b", Some((1, 0, 0)))), Some(2));
    assert_eq!(handle_of(&ctx, &package("a", None)), Some(3));
    assert_eq!(ctx.image().packages().len(), 3);
}

#[test]
fn the_same_image_changes_nothing() {
    let mut counter = StateCounter::new();
    let mut ctx = PackageContext::new(&mut counter);
    let image = image(&Linker::new(), &[("a", None, &[("b", None)]), ("b", None, &[])]);
    enter(&mut ctx, &mut counter, &image, 1);
    let (loaded, unloaded, dropped) = enter(&mut ctx, &mut counter, &image.clone(), 10);
    assert!(loaded.is_empty() && unloaded.is_empty() && dropped.is_empty());
    assert_eq!(handle_of(&ctx, &package("a", None)), Some(2));
}

#[test]
fn packages_are_unloaded_before_their_dependencies() {
    let mut counter = StateCounter::new();
    let mut ctx = PackageContext::new(&mut counter);
    let full = image(
        &Linker::new(),
        &[("a", None, &[("b", None)]), ("b", None, &[("c", None)]), ("c", None, &[])],
    );
    enter(&mut ctx, &mut counter, &full, 1);
    let (loaded, unloaded, dropped) =
        enter(&mut ctx, &mut counter, &PackageContextImage::default(), 10);
    assert!(loaded.is_empty());
    assert_eq!(unloaded, vec!["a", "b", "c"]);
    assert_eq!(dropped, vec![3, 2, 1]);
    assert!(ctx.packages().is_empty());
}

#[test]
fn packages_that_both_images_hold_stay() {
    let mut counter = StateCounter::new();
    let mut ctx = PackageContext::new(&mut counter);
    let first = image(&Linker::new(), &[("a", None, &[("b", None)]), ("b", None, &[])]);
    let second = image(&Linker::new(), &[("c", None, &[("b", None)]), ("b", None, &[])]);
    enter(&mut ctx, &mut counter, &first, 1);
    let (loaded, unloaded, dropped) = enter(&mut ctx, &mut counter, &second, 10);
    assert_eq!(loaded, vec!["c"]);
    assert_eq!(unloaded, vec!["a"]);
    assert_eq!(dropped, vec![2]);
    assert_eq!(handle_of(&ctx, &package("b", None)), Some(1));
    assert_eq!(handle_of(&ctx, &package("c", None)), Some(10));
    assert!(ctx.package(&name("a")).is_none());
}

#[test]
fn dependents_of_a_changed_package_are_loaded_again() {
    let mut counter = StateCounter::new();
    let mut ctx = PackageContext::new(&mut counter);
    let old: Source = &[
        ("a", None, &[("b", None)]),
        ("b", None, &[("c", None)]),
        ("c", Some((1, 0, 0)), &[]),
        ("d", None, &[]),
    ];
    let new: Source = &[
        ("a", None, &[("b", None)]),
        ("b", None, &[("c", None)]),
        ("c", Some((1, 0, 1)), &[]),
        ("d", None, &[]),
    ];
    let (old, new) = (image(&Linker::new(), old), image(&Linker::new(), new));
    enter(&mut ctx, &mut counter, &old, 1);
    let kept = handle_of(&ctx, &package("d", None));
    let (loaded, unloaded, dropped) = enter(&mut ctx, &mut counter, &new, 10);
    assert_eq!(loaded, vec!["c@1.0.1", "b", "a"]);
    assert_eq!(unloaded, vec!["a", "b", "c@1.0.0"]);
    assert_eq!(dropped.len(), 3);
    assert_eq!(handle_of(&ctx, &package("d", None)), kept);
    assert_eq!(listed(&ctx), vec!["a", "b", "c@1.0.1", "d"]);
}

#[test]
fn imports_are_linked_to_exports() {
    let mut counter = StateCounter::new();
    let ctx = PackageContext::new(&mut counter);
    let image = image(
        &Linker::new(),
        &[("a", None, &[("b", Some((1, 0, 1)))]), ("b", Some((1, 0, 1)), &[])],
    );
    let progress = PackageContextTransitionBuilder::new(&image, &ctx).build();
    let Ok(BuildStep::Instantiate(pending)) = progress.next() else { panic!("b must be loaded") };
    assert_eq!(show(pending.id()), "b@1.0.1");
    assert!(pending.linker().instances.entries().is_empty());
    let progress = pending.instantiated(instance_of(&package("b", Some((1, 0, 1))), 42));
    let Ok(BuildStep::Instantiate(pending)) = progress.next() else { panic!("a must be loaded") };
    assert_eq!(show(pending.id()), "a");
    assert_eq!(pending.component().imports().len(), 1);
    let linked = pending.linker().instance(&interface("b", Some((1, 0, 1)))).expect("it is defined");
    assert_eq!(linked.funcs.get(&"call".to_string()), Some(42));
    assert_eq!(linked.resources.get(&"thing".to_string()), Some(1042));
}

#[test]
fn imports_without_version_are_linked_to_the_loaded_version() {
    let mut counter = StateCounter::new();
    let ctx = PackageContext::new(&mut counter);
    let image = image(&Linker::new(), &[("a", None, &[("b", None)]), ("b", Some((1, 0, 1)), &[])]);
    let progress = PackageContextTransitionBuilder::new(&image, &ctx).build();
    let Ok(BuildStep::Instantiate(pending)) = progress.next() else { panic!("b must be loaded") };
    let progress = pending.instantiated(instance_of(&package("b", Some((1, 0, 1))), 42));
    let Ok(BuildStep::Instantiate(pending)) = progress.next() else { panic!("a must be loaded") };
    let linked = pending.linker().instance(&interface("b", None)).expect("it is defined");
    assert_eq!(linked.funcs.get(&"call".to_string()), Some(42));
    assert!(pending.linker().instance(&interface("b", Some((1, 0, 1)))).is_none());
}

#[test]
fn other_versions_of_host_interfaces_are_copied() {
    let mut linker = Linker::new();
    linker.define_instance(interface("h", Some((1, 0, 3))), holding(7));
    let mut counter = StateCounter::new();
    let ctx = PackageContext::new(&mut counter);
    let image = image(&linker, &[("a", None, &[("h", Some((1, 0, 1)))])]);
    let progress = PackageContextTransitionBuilder::new(&image, &ctx).build();
    let Ok(BuildStep::Instantiate(pending)) = progress.next() else { panic!("a must be loaded") };
    for numbers in [Some((1, 0, 1)), Some((1, 0, 3))] {
        let defined = pending.linker().instance(&interface("h", numbers)).expect("it is defined");
        assert_eq!(defined.funcs.get(&"call".to_string()), Some(7));
        assert_eq!(defined.resources.get(&"thing".to_string()), Some(1007));
    }
}

#[test]
fn the_same_version_of_a_host_interface_is_left_alone() {
    let mut linker = Linker::new();
    linker.define_instance(interface("h", Some((1, 0, 3))), holding(7));
    let mut counter = StateCounter::new();
    let ctx = PackageContext::new(&mut counter);
    let image = image(&linker, &[("a", None, &[("h", Some((1, 0, 3)))])]);
    let progress = PackageContextTransitionBuilder::new(&image, &ctx).build();
    let Ok(BuildStep::Instantiate(pending)) = progress.next() else { panic!("a must be loaded") };
    assert_eq!(pending.linker().instances.entries().len(), 1);
}

#[test]
fn linkers_can_be_customized_for_a_package() {
    let mut counter = StateCounter::new();
    let ctx = PackageContext::new(&mut counter);
    let image = image(&Linker::new(), &[("a", None, &[]), ("b", None, &[])]);
    let mut builder = PackageContextTransitionBuilder::new(&image, &ctx);
    for options in builder.to_load_mut() {
        if options.id().name().name() == "a" {
            assert!(options.component().imports().is_empty());
            options.linker_mut().define_instance(interface("x", None), holding(9));
            assert!(options.linker().instance(&interface("x", None)).is_some());
        }
    }
    assert!(builder.is_buildable());
    let counts: Vec<usize> =
        builder.to_load().iter().map(|o| o.linker().instances.entries().len()).collect();
    assert_eq!(counts.iter().sum::<usize>(), 1);
    assert!(image.linker().instances.entries().is_empty());
    let mut progress = builder.build();
    loop {
        match progress.next().expect("the packages can be linked") {
            BuildStep::Done(_) => break,
            BuildStep::Instantiate(pending) => {
                let expected = pending.id().name().name() == "a";
                assert_eq!(pending.linker().instance(&interface("x", None)).is_some(), expected);
                let instance = instance_of(pending.id(), 1);
                progress = pending.instantiated(instance);
            }
        }
    }
}

#[test]
fn a_changed_linker_is_for_one_entry_only() {
    let mut counter = StateCounter::new();
    let ctx = PackageContext::new(&mut counter);
    let image = image(&Linker::new(), &[("a", None, &[]), ("b", None, &[])]);
    let mut builder = PackageContextTransitionBuilder::new(&image, &ctx);
    let other = PackageContextTransitionBuilder::new(&image, &ctx);
    builder.to_load_mut()[0].linker_mut().define_instance(interface("x", None), holding(9));
    assert!(builder.to_load()[0].linker().instance(&interface("x", None)).is_some());
    assert!(builder.to_load()[1].linker().instance(&interface("x", None)).is_none());
    assert!(other.to_load().iter().all(|o| o.linker().instance(&interface("x", None)).is_none()));
    let later = PackageContextTransitionBuilder::new(&image, &ctx);
    assert!(later.to_load().iter().all(|o| o.linker().instance(&interface("x", None)).is_none()));
    assert!(image.linker().instance(&interface("x", None)).is_none());
    assert!(builder.is_buildable());
}

#[test]
fn packages_can_be_loaded_in_another_order() {
    let mut counter = StateCounter::new();
    let mut ctx = PackageContext::new(&mut counter);
    let image = image(&Linker::new(), &[("a", None, &[]), ("b", None, &[])]);
    let mut builder = PackageContextTransitionBuilder::new(&image, &ctx);
    let mut expected: Vec<String> = builder.to_load().iter().map(|o| show(o.id())).collect();
    expected.reverse();
    builder.to_load_mut().swap(0, 1);
    assert!(builder.is_buildable());
    let transition = build(builder, 1).expect("the packages can be linked");
    assert_eq!(shown(transition.to_load()), expected);
    transition.apply(&mut ctx, &mut counter);
    assert_eq!(listed(&ctx), vec!["a", "b"]);
}

#[test]
fn options_of_another_builder_are_noticed() {
    let mut counter = StateCounter::new();
    let ctx = PackageContext::new(&mut counter);
    let first = image(&Linker::new(), &[("a", None, &[])]);
    let second = image(&Linker::new(), &[("b", None, &[])]);
    let mut builder = PackageContextTransitionBuilder::new(&first, &ctx);
    let mut other = PackageContextTransitionBuilder::new(&second, &ctx);
    std::mem::swap(&mut builder.to_load_mut()[0], &mut other.to_load_mut()[0]);
    assert!(!builder.is_buildable());
    assert!(!other.is_buildable());
}

#[test]
fn a_list_with_a_dependency_last_is_noticed() {
    let mut counter = StateCounter::new();
    let ctx = PackageContext::new(&mut counter);
    let image = image(&Linker::new(), &[("a", None, &[("b", None)]), ("b", None, &[])]);
    let mut builder = PackageContextTransitionBuilder::new(&image, &ctx);
    assert!(builder.is_buildable());
    builder.to_load_mut().swap(0, 1);
    assert!(!builder.is_buildable());
    assert!(builder.to_unload().is_empty());
}

#[test]
fn missing_exports_are_reported() {
    let mut counter = StateCounter::new();
    let ctx = PackageContext::new(&mut counter);
    let image = image(&Linker::new(), &[("a", None, &[("b", None)]), ("b", None, &[])]);
    let progress = PackageContextTransitionBuilder::new(&image, &ctx).build();
    let Ok(BuildStep::Instantiate(pending)) = progress.next() else { panic!("b must be loaded") };
    let exports = Exports { root: LinkerInstance::new(), instances: InterfaceTable::new() };
    match pending.instantiated(Instance::new(1, exports)).next() {
        Err(LinkError::MissingInterface(importer, missing)) => {
            assert_eq!(show(&importer), "a");
            assert!(missing.same(&interface("b", None)));
        }
        _ => panic!("b does not export its interface"),
    }
}

#[test]
fn interfaces_that_are_defined_already_are_reported() {
    let mut counter = StateCounter::new();
    let ctx = PackageContext::new(&mut counter);
    let image = image(&Linker::new(), &[("a", None, &[("b", None)]), ("b", None, &[])]);
    let mut builder = PackageContextTransitionBuilder::new(&image, &ctx);
    builder.to_load_mut()[1].linker_mut().define_instance(interface("b", None), holding(9));
    match build(builder, 1) {
        Err(LinkError::DuplicateInstance(duplicate)) => assert!(duplicate.same(&interface("b", None))),
        _ => panic!("the interface is defined already"),
    }
}

#[test]
fn host_interfaces_that_are_gone_are_reported() {
    let mut linker = Linker::new();
    linker.define_instance(interface("h", Some((1, 0, 3))), holding(7));
    let mut counter = StateCounter::new();
    let ctx = PackageContext::new(&mut counter);
    let image = image(&linker, &[("a", None, &[("h", Some((1, 0, 1)))])]);
    let mut builder = PackageContextTransitionBuilder::new(&image, &ctx);
    *builder.to_load_mut()[0].linker_mut() = Linker::new();
    match build(builder, 1) {
        Err(LinkError::MissingHostInterface(missing)) => {
            assert!(missing.same(&interface("h", Some((1, 0, 3)))));
        }
        _ => panic!("the interface is gone"),
    }
}

#[test]
fn conflicting_host_interfaces_are_reported() {
    let mut linker = Linker::new();
    linker.define_instance(interface("h", Some((1, 0, 3))), holding(7));
    let mut counter = StateCounter::new();
    let ctx = PackageContext::new(&mut counter);
    let image = image(&linker, &[("a", None, &[("h", Some((1, 0, 1)))])]);
    let mut builder = PackageContextTransitionBuilder::new(&image, &ctx);
    builder.to_load_mut()[0].linker_mut().define_instance(interface("h", Some((1, 0, 1))), holding(8));
    match build(builder, 1) {
        Err(LinkError::ConflictingHostInterface(conflict)) => {
            assert!(conflict.same(&interface("h", Some((1, 0, 1)))));
        }
        _ => panic!("the interface is defined already"),
    }
}

#[test]
fn transitions_apply_to_the_state_they_were_built_for() {
    let mut counter = StateCounter::new();
    let mut ctx = PackageContext::new(&mut counter);
    let other = PackageContext::new(&mut counter);
    let image = image(&Linker::new(), &[("a", None, &[])]);
    let first = build(PackageContextTransitionBuilder::new(&image, &ctx), 1).expect("it can be linked");
    let second = build(PackageContextTransitionBuilder::new(&image, &ctx), 1).expect("it can be linked");
    assert!(first.applies_to(&ctx));
    assert!(!first.applies_to(&other));
    assert_eq!(first.image().packages().len(), 1);
    first.apply(&mut ctx, &mut counter);
    assert!(!second.applies_to(&ctx));
}

#[test]
fn a_second_transition_is_refused_even_if_the_first_changes_nothing() {
    let mut counter = StateCounter::new();
    let mut ctx = PackageContext::new(&mut counter);
    let image = image(&Linker::new(), &[("a", None, &[])]);
    enter(&mut ctx, &mut counter, &image, 1);
    let first = build(PackageContextTransitionBuilder::new(&image, &ctx), 5).expect("it can be linked");
    let empty = PackageContextImage::default();
    let second = build(PackageContextTransitionBuilder::new(&empty, &ctx), 9).expect("it can be linked");
    assert!(first.to_load().is_empty() && first.to_unload().is_empty());
    assert!(first.applies_to(&ctx) && second.applies_to(&ctx));
    assert!(first.apply(&mut ctx, &mut counter).is_empty());
    assert!(!second.applies_to(&ctx));
    assert_eq!(listed(&ctx), vec!["a"]);
    assert_eq!(handle_of(&ctx, &package("a", None)), Some(1));
    assert_eq!(ctx.image().packages().len(), 1);
}
