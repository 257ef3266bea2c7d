use modularity::component::Component;
use modularity::identifier::{InterfaceIdentifier, PackageIdentifier, PackageName};
use modularity::image::PackageContextImage;
use modularity::linker::{Linker, LinkerInstance};
use modularity::resolver::{distinct_packages, PackageResolver, PackageResolverError};
use modularity::version::Version;

type Numbers = Option<(u64, u64, u64)>;

fn version(numbers: Numbers) -> Option<Version> {
    numbers.map(|(a, b, c)| Version::new(a, b, c, "", "").expect("well formed"))
}

fn name(text: &str) -> PackageName {
    PackageName::new("test".to_string(), text.to_string())
}

fn package(text: &str, numbers: Numbers) -> PackageIdentifier {
    PackageIdentifier::new(name(text), version(numbers))
}

fn interface(text: &str, numbers: Numbers) -> InterfaceIdentifier {
    InterfaceIdentifier::new(package(text, numbers), "api".to_string())
}

fn importing(handle: u64, imports: &[(&str, Numbers)]) -> Component {
    let imports = imports.iter().map(|(text, numbers)| interface(text, *numbers)).collect();
    Component::new(handle, imports).expect("the imports are different")
}

fn show(id: &PackageIdentifier) -> String {
    match id.version() {
        Some(v) => format!("{}@{}.{}.{}", id.name().name(), v.major(), v.minor(), v.patch()),
        None => id.name().name().to_string(),
    }
}

fn shown(ids: &[&PackageIdentifier]) -> Vec<String> {
    ids.iter().map(|id| show(id)).collect()
}

fn packages(image: &PackageContextImage) -> Vec<String> {
    image.packages().iter().map(|p| show(&p.id)).collect()
}

fn handles(image: &PackageContextImage) -> Vec<u64> {
    image.packages().iter().map(|p| p.component.handle()).collect()
}

/// Resolves, supplying each request in the given version with the imports that are listed for it.
/// Gives the outcome and what was requested in each round.
fn run(
    ids: Vec<PackageIdentifier>,
    linker: &Linker,
    source: &[(&str, Numbers, u64, &[(&str, Numbers)])],
) -> (Result<PackageContextImage, PackageResolverError>, Vec<Vec<String>>) {
    assert!(distinct_packages(&ids));
    let mut resolver = PackageResolver::new(ids, linker);
    let mut rounds = Vec::new();
    loop {
        assert!(resolver.within_limits());
        match resolver.resolve() {
            Err(PackageResolverError::MissingPackages(mut missing)) => {
                let mut round = Vec::new();
                for request in missing.unresolved() {
                    assert!(!request.is_resolved());
                    round.push(show(request.id()));
                    let (text, numbers, handle, imports) = source
                        .iter()
                        .find(|(text, numbers, _, _)| request.accepts(&package(text, *numbers)))
                        .expect("the source holds the package");
                    request.resolve(package(text, *numbers), importing(*handle, imports));
                    assert!(request.is_resolved());
                }
                rounds.push(round);
                resolver = missing;
            }
            outcome => return (outcome, rounds),
        }
    }
}

fn image(
    ids: Vec<PackageIdentifier>,
    source: &[(&str, Numbers, u64, &[(&str, Numbers)])],
) -> PackageContextImage {
    match run(ids, &Linker::new(), source).0 {
        Ok(image) => image,
        Err(_) => panic!("resolution failed"),
    }
}

#[test]
fn nothing_resolves_to_an_empty_image() {
    let image = image(vec![], &[]);
    assert!(image.packages().is_empty());
    assert!(PackageContextImage::default().packages().is_empty());
}

#[test]
fn duplicate_top_level_packages_are_noticed() {
    assert!(distinct_packages(&vec![package("a", None), package("b", None)]));
    assert!(!distinct_packages(&vec![package("a", None), package("a", Some((1, 0, 0)))]));
}

#[test]
fn missing_packages_are_reported_and_supplied() {
    let (outcome, rounds) = run(
        vec![package("a", Some((1, 0, 0)))],
        &Linker::new(),
        &[("a", Some((1, 0, 0)), 1, &[("b", None)]), ("b", Some((2, 0, 0)), 2, &[])],
    );
    assert_eq!(rounds, vec![vec!["a@1.0.0".to_string()], vec!["b".to_string()]]);
    let image = outcome.unwrap_or_else(|_| panic!("resolution failed"));
    assert_eq!(packages(&image), vec!["b@2.0.0", "a@1.0.0"]);
    assert_eq!(handles(&image), vec![2, 1]);
}

#[test]
fn top_level_packages_are_requested_exactly() {
    let resolver = PackageResolver::new(vec![package("a", Some((1, 0, 0)))], &Linker::new());
    match resolver.resolve() {
        Err(PackageResolverError::MissingPackages(mut missing)) => {
            let request = &mut missing.unresolved()[0];
            assert!(request.exact());
            assert!(request.accepts(&package("a", Some((1, 0, 0)))));
            assert!(!request.accepts(&package("a", Some((1, 0, 1)))));
            assert!(!request.accepts(&package("a", None)));
            assert!(!request.accepts(&package("b", Some((1, 0, 0)))));
        }
        _ => panic!("a package is missing"),
    }
}

/// What is requested first for a list of top-level packages, in alphabetical order.
fn first_requests(ids: Vec<PackageIdentifier>) -> Vec<String> {
    match PackageResolver::new(ids, &Linker::new()).resolve() {
        Err(PackageResolverError::MissingPackages(mut missing)) => {
            let mut found: Vec<String> =
                missing.unresolved().iter().map(|request| show(request.id())).collect();
            assert!(missing.unresolved().iter().all(|request| request.exact()));
            found.sort();
            found
        }
        _ => panic!("packages are missing"),
    }
}

#[test]
fn first_requests_are_the_top_level_packages_in_any_order() {
    let (a, b, c) = (package("a", None), package("b", Some((1, 0, 0))), package("c", Some((2, 1, 0))));
    let expected = vec!["a", "b@1.0.0", "c@2.1.0"];
    assert_eq!(first_requests(vec![a.clone(), b.clone(), c.clone()]), expected);
    assert_eq!(first_requests(vec![c.clone(), a.clone(), b.clone()]), expected);
    assert_eq!(first_requests(vec![b, c, a]), expected);
    let mut resolver = PackageResolver::new(vec![package("a", None)], &Linker::new());
    assert!(resolver.unresolved().is_empty());
}

#[test]
fn dependencies_are_requested_with_compatible_versions() {
    let resolver = PackageResolver::new(vec![package("a", None)], &Linker::new());
    let Err(PackageResolverError::MissingPackages(mut missing)) = resolver.resolve() else {
        panic!("a package is missing");
    };
    missing.unresolved()[0].resolve(package("a", None), importing(1, &[("b", Some((1, 2, 3)))]));
    let Err(PackageResolverError::MissingPackages(mut missing)) = missing.resolve() else {
        panic!("a package is missing");
    };
    let requests = missing.unresolved();
    assert_eq!(requests.len(), 1);
    assert!(!requests[0].exact());
    assert!(requests[0].accepts(&package("b", Some((1, 2, 3)))));
    assert!(requests[0].accepts(&package("b", Some((1, 2, 9)))));
    assert!(!requests[0].accepts(&package("b", Some((1, 2, 2)))));
    assert!(!requests[0].accepts(&package("b", Some((1, 3, 3)))));
    assert!(!requests[0].accepts(&package("b", None)));
}

#[test]
fn resolving_again_reports_the_same_packages() {
    let ids = vec![package("a", None), package("b", None)];
    let mut resolver = PackageResolver::new(ids, &Linker::new());
    for _ in 0..3 {
        match resolver.resolve() {
            Err(PackageResolverError::MissingPackages(mut missing)) => {
                let found: Vec<String> = missing.unresolved().iter().map(|r| show(r.id())).collect();
                assert_eq!(found, vec!["b", "a"]);
                resolver = missing;
            }
            _ => panic!("packages are missing"),
        }
    }
}

#[test]
fn packages_can_be_supplied_one_at_a_time() {
    let ids = vec![package("a", None), package("b", None)];
    let resolver = PackageResolver::new(ids, &Linker::new());
    let Err(PackageResolverError::MissingPackages(mut missing)) = resolver.resolve() else {
        panic!("packages are missing");
    };
    missing.unresolved()[0].resolve(package("b", None), importing(2, &[]));
    let Err(PackageResolverError::MissingPackages(mut missing)) = missing.resolve() else {
        panic!("a package is missing");
    };
    assert_eq!(missing.unresolved().len(), 1);
    assert_eq!(show(missing.unresolved()[0].id()), "a");
    missing.unresolved()[0].resolve(package("a", None), importing(1, &[("b", None)]));
    let image = missing.resolve().unwrap_or_else(|_| panic!("resolution failed"));
    assert_eq!(packages(&image), vec!["b", "a"]);
}

#[test]
fn the_greatest_requested_version_is_requested() {
    let (outcome, rounds) = run(
        vec![package("a", None), package("b", None)],
        &Linker::new(),
        &[
            ("a", None, 1, &[("c", Some((1, 0, 2)))]),
            ("b", None, 2, &[("c", Some((1, 0, 5)))]),
            ("c", Some((1, 0, 5)), 3, &[]),
        ],
    );
    assert_eq!(rounds[1], vec!["c@1.0.5"]);
    let image = outcome.unwrap_or_else(|_| panic!("resolution failed"));
    let found = packages(&image);
    assert_eq!(found[0], "c@1.0.5");
    assert_eq!(found.len(), 3);
}

#[test]
fn a_greater_prerelease_is_taken_whole() {
    let alpha = Version::new(1, 0, 0, "alpha", "").expect("well formed");
    let linker = Linker::new();
    let resolver = PackageResolver::new(vec![package("a", None), package("b", None)], &linker);
    let Err(PackageResolverError::MissingPackages(mut missing)) = resolver.resolve() else {
        panic!("packages are missing");
    };
    for request in missing.unresolved() {
        let id = request.id().clone();
        let wanted = if id.name().name() == "a" {
            InterfaceIdentifier::new(
                PackageIdentifier::new(name("c"), Some(alpha.clone())),
                "api".to_string(),
            )
        } else {
            interface("c", Some((1, 0, 1)))
        };
        request.resolve(id, Component::new(1, vec![wanted]).expect("one import"));
    }
    let Err(PackageResolverError::MissingPackages(mut missing)) = missing.resolve() else {
        panic!("a package is missing");
    };
    let requested = missing.unresolved()[0].id().version().expect("it has a version").clone();
    assert_eq!((requested.major(), requested.minor(), requested.patch()), (1, 0, 1));
    assert_eq!(requested.pre(), "");
}

#[test]
fn a_package_that_was_supplied_too_old_is_requested_again() {
    let source: &[(&str, Numbers, u64, &[(&str, Numbers)])] = &[
        ("a", None, 1, &[("c", Some((1, 0, 0))), ("b", None)]),
        ("b", None, 2, &[("c", Some((1, 0, 4)))]),
        ("c", Some((1, 0, 0)), 3, &[]),
        ("c", Some((1, 0, 4)), 4, &[]),
    ];
    let (outcome, rounds) = run(vec![package("a", None)], &Linker::new(), source);
    assert_eq!(rounds[0], vec!["a"]);
    let mut asked = rounds[1].clone();
    asked.sort();
    assert_eq!(asked, vec!["b", "c@1.0.0"]);
    let image = outcome.unwrap_or_else(|_| panic!("resolution failed"));
    let place = image.place_of(&name("c")).expect("it is there");
    assert_eq!(packages(&image)[place], "c@1.0.4");
    assert_eq!(handles(&image)[place], 4);
}

#[test]
fn versions_are_raised_in_the_graph_by_beginning_again() {
    let linker = Linker::new();
    let resolver = PackageResolver::new(vec![package("a", None)], &linker);
    let Err(PackageResolverError::MissingPackages(mut missing)) = resolver.resolve() else {
        panic!("a package is missing");
    };
    missing.unresolved()[0]
        .resolve(package("a", None), importing(1, &[("b", None), ("c", Some((1, 0, 0)))]));
    let Err(PackageResolverError::MissingPackages(mut missing)) = missing.resolve() else {
        panic!("packages are missing");
    };
    for request in missing.unresolved() {
        if request.id().name().name() == "c" {
            request.resolve(package("c", Some((1, 0, 0))), importing(3, &[]));
        }
    }
    let Err(PackageResolverError::MissingPackages(mut missing)) = missing.resolve() else {
        panic!("a package is missing");
    };
    assert_eq!(missing.unresolved().len(), 1);
    missing.unresolved()[0].resolve(package("b", None), importing(2, &[("c", Some((1, 0, 4)))]));
    let Err(PackageResolverError::MissingPackages(mut missing)) = missing.resolve() else {
        panic!("a package is missing");
    };
    assert_eq!(missing.unresolved().len(), 1);
    assert_eq!(show(missing.unresolved()[0].id()), "c@1.0.4");
    assert!(!missing.unresolved()[0].accepts(&package("c", Some((1, 0, 0)))));
    missing.unresolved()[0].resolve(package("c", Some((1, 0, 5))), importing(4, &[]));
    let image = missing.resolve().unwrap_or_else(|_| panic!("resolution failed"));
    assert_eq!(packages(&image), vec!["c@1.0.5", "b", "a"]);
    assert_eq!(handles(&image), vec![4, 2, 1]);
}

#[test]
fn requests_that_were_dropped_are_made_again() {
    let linker = Linker::new();
    let resolver = PackageResolver::new(vec![package("a", None)], &linker);
    let Err(PackageResolverError::MissingPackages(mut missing)) = resolver.resolve() else {
        panic!("a package is missing");
    };
    missing.unresolved()[0]
        .resolve(package("a", None), importing(1, &[("d", None), ("b", None), ("c", Some((1, 0, 0)))]));
    let Err(PackageResolverError::MissingPackages(mut missing)) = missing.resolve() else {
        panic!("packages are missing");
    };
    for request in missing.unresolved() {
        if request.id().name().name() == "c" {
            request.resolve(package("c", Some((1, 0, 0))), importing(3, &[]));
        }
    }
    let Err(PackageResolverError::MissingPackages(mut missing)) = missing.resolve() else {
        panic!("packages are missing");
    };
    for request in missing.unresolved() {
        if request.id().name().name() == "b" {
            request.resolve(package("b", None), importing(2, &[("c", Some((1, 0, 4)))]));
        }
    }
    let Err(PackageResolverError::MissingPackages(mut missing)) = missing.resolve() else {
        panic!("packages are missing");
    };
    let mut asked: Vec<String> = missing.unresolved().iter().map(|r| show(r.id())).collect();
    asked.sort();
    assert_eq!(asked, vec!["c@1.0.4", "d"]);
    for request in missing.unresolved() {
        let id = request.id().clone();
        let handle = if id.name().name() == "c" { 5 } else { 4 };
        request.resolve(id, importing(handle, &[]));
    }
    let image = missing.resolve().unwrap_or_else(|_| panic!("resolution failed"));
    let mut found: Vec<(String, u64)> = packages(&image).into_iter().zip(handles(&image)).collect();
    found.sort();
    let expected = [("a", 1), ("b", 2), ("c@1.0.4", 5), ("d", 4)];
    assert_eq!(found, expected.map(|(text, handle)| (text.to_string(), handle)).to_vec());
}

#[test]
fn conflicting_versions_are_refused() {
    let (outcome, _) = run(
        vec![package("a", None), package("b", None)],
        &Linker::new(),
        &[
            ("a", None, 1, &[("c", Some((1, 0, 0)))]),
            ("b", None, 2, &[("c", Some((2, 0, 0)))]),
            ("c", Some((1, 0, 0)), 3, &[]),
        ],
    );
    match outcome {
        Err(PackageResolverError::IncompatibleVersions(conflict, first, second)) => {
            assert_eq!(conflict.name(), "c");
            let mut majors = vec![first.expect("a version").major(), second.expect("a version").major()];
            majors.sort();
            assert_eq!(majors, vec![1, 2]);
        }
        _ => panic!("the versions conflict"),
    }
}

#[test]
fn other_versions_of_top_level_packages_are_refused() {
    let (outcome, _) = run(
        vec![package("a", None), package("b", Some((1, 0, 0)))],
        &Linker::new(),
        &[("a", None, 1, &[("b", Some((1, 0, 1)))]), ("b", Some((1, 0, 0)), 2, &[])],
    );
    match outcome {
        Err(PackageResolverError::IncompatibleVersions(conflict, first, second)) => {
            assert_eq!(conflict.name(), "b");
            assert_eq!(first.expect("a version").patch(), 0);
            assert_eq!(second.expect("a version").patch(), 1);
        }
        _ => panic!("the versions conflict"),
    }
}

#[test]
fn mutual_dependencies_are_refused() {
    let (outcome, _) = run(
        vec![package("a", None)],
        &Linker::new(),
        &[("a", None, 1, &[("b", None)]), ("b", None, 2, &[("a", None)])],
    );
    assert!(matches!(outcome, Err(PackageResolverError::CyclicPackageDependency())));
}

#[test]
fn a_package_cannot_import_from_itself() {
    let (outcome, _) = run(vec![package("a", None)], &Linker::new(), &[("a", None, 1, &[("a", None)])]);
    assert!(matches!(outcome, Err(PackageResolverError::CyclicPackageDependency())));
}

#[test]
fn interfaces_of_the_host_are_not_requested() {
    let mut linker = Linker::new();
    linker.define_instance(interface("h", Some((1, 0, 3))), LinkerInstance::new());
    let (outcome, rounds) = run(
        vec![package("a", None)],
        &linker,
        &[("a", None, 1, &[("h", Some((1, 0, 1)))])],
    );
    assert_eq!(rounds, vec![vec!["a".to_string()]]);
    let image = outcome.unwrap_or_else(|_| panic!("resolution failed"));
    assert_eq!(packages(&image), vec!["a"]);
    assert!(image.linker().instance(&interface("h", Some((1, 0, 3)))).is_some());
}

#[test]
fn incompatible_interfaces_of_the_host_are_refused() {
    let mut linker = Linker::new();
    linker.define_instance(interface("h", Some((1, 0, 3))), LinkerInstance::new());
    let (outcome, _) = run(
        vec![package("a", None)],
        &linker,
        &[("a", None, 1, &[("h", Some((1, 0, 4)))])],
    );
    match outcome {
        Err(PackageResolverError::IncompatibleVersions(conflict, first, second)) => {
            assert_eq!(conflict.name(), "h");
            assert_eq!(first.expect("a version").patch(), 4);
            assert_eq!(second.expect("a version").patch(), 3);
        }
        _ => panic!("the versions conflict"),
    }
}

fn diamond() -> PackageContextImage {
    image(
        vec![package("a", None), package("e", None)],
        &[
            ("a", None, 1, &[("b", None), ("c", None)]),
            ("b", None, 2, &[("d", Some((1, 0, 0)))]),
            ("c", None, 3, &[("d", None)]),
            ("d", Some((1, 0, 0)), 4, &[]),
            ("e", None, 5, &[("c", None)]),
        ],
    )
}

#[test]
fn packages_stand_after_their_dependencies() {
    let image = diamond();
    let found = packages(&image);
    let place = |text: &str| found.iter().position(|p| p == text).expect("it is there");
    assert_eq!(found.len(), 5);
    assert!(place("d@1.0.0") < place("b"));
    assert!(place("d@1.0.0") < place("c"));
    assert!(place("b") < place("a"));
    assert!(place("c") < place("a"));
    assert!(place("c") < place("e"));
    assert_eq!(image.place_of(&name("a")), Some(place("a")));
    assert_eq!(image.place_of(&name("x")), None);
}

#[test]
fn dependencies_are_listed_transitively() {
    let image = diamond();
    let mut found = shown(&image.transitive_dependencies(&package("a", None)));
    found.sort();
    assert_eq!(found, vec!["b", "c", "d@1.0.0"]);
    assert_eq!(shown(&image.transitive_dependencies(&package("b", None))), vec!["d@1.0.0"]);
    assert!(image.transitive_dependencies(&package("d", Some((1, 0, 0)))).is_empty());
    assert!(image.transitive_dependencies(&package("d", None)).is_empty());
    assert!(image.transitive_dependencies(&package("x", None)).is_empty());
}

#[test]
fn dependents_are_listed_transitively() {
    let image = diamond();
    let mut found = shown(&image.transitive_dependents(&package("d", Some((1, 0, 0)))));
    found.sort();
    assert_eq!(found, vec!["a", "b", "c", "e"]);
    assert_eq!(shown(&image.transitive_dependents(&package("b", None))), vec!["a"]);
    assert!(image.transitive_dependents(&package("a", None)).is_empty());
    assert!(image.transitive_dependents(&package("d", None)).is_empty());
    assert!(image.transitive_dependents(&package("x", None)).is_empty());
}

#[test]
fn top_level_dependents_are_listed() {
    let image = diamond();
    let mut found = shown(&image.top_level_dependents(&package("c", None)));
    found.sort();
    assert_eq!(found, vec!["a", "e"]);
    assert_eq!(shown(&image.top_level_dependents(&package("b", None))), vec!["a"]);
    assert!(image.top_level_dependents(&package("a", None)).is_empty());
    assert!(image.top_level_dependents(&package("d", None)).is_empty());
    assert!(image.top_level_dependents(&package("x", None)).is_empty());
}

#[test]
fn every_other_package_has_a_top_level_dependent() {
    let image = diamond();
    for p in image.packages() {
        let top_level = ["a", "e"].contains(&p.id.name().name());
        assert_eq!(image.top_level_dependents(&p.id).is_empty(), top_level);
    }
}

#[test]
fn dependents_and_dependencies_mirror_each_other() {
    let image = diamond();
    for p in image.packages() {
        for q in image.packages() {
            let depends = image.transitive_dependencies(&p.id).iter().any(|id| id.same(&q.id));
            let depended = image.transitive_dependents(&q.id).iter().any(|id| id.same(&p.id));
            assert_eq!(depends, depended);
        }
    }
}

/// Upgrades a version with others in turn. Gives what became of it and which upgrades changed it.
fn upgraded(start: Numbers, with: &[Numbers]) -> (Option<u64>, Vec<bool>) {
    let mut current = version(start);
    let changes = with
        .iter()
        .map(|numbers| {
            PackageResolver::upgrade(&package("a", *numbers), &mut current, false)
                .unwrap_or_else(|_| panic!("the versions are compatible"))
        })
        .collect();
    (current.map(|v| v.patch()), changes)
}

#[test]
fn upgrades_commute() {
    let (x, y) = (Some((1, 0, 3)), Some((1, 0, 7)));
    assert_eq!(upgraded(Some((1, 0, 1)), &[x, y, x, y]), (Some(7), vec![true, true, false, false]));
    assert_eq!(upgraded(Some((1, 0, 1)), &[y, x, x, y]), (Some(7), vec![true, false, false, false]));
    assert_eq!(upgraded(None, &[None, x, None]), (Some(3), vec![false, true, false]));
    assert_eq!(upgraded(None, &[x, None]), (Some(3), vec![true, false]));
}

#[test]
fn upgrades_can_conflict() {
    let mut current = version(Some((1, 0, 1)));
    let outcome = PackageResolver::upgrade(&package("a", Some((1, 1, 0))), &mut current, false);
    assert!(matches!(outcome, Err(PackageResolverError::IncompatibleVersions(_, Some(_), Some(_)))));
    let outcome = PackageResolver::upgrade(&package("a", None), &mut current, true);
    assert!(matches!(outcome, Err(PackageResolverError::IncompatibleVersions(_, Some(_), None))));
    let outcome = PackageResolver::upgrade(&package("a", Some((1, 0, 1))), &mut current, true);
    assert!(matches!(outcome, Ok(false)));
    assert_eq!(current.map(|v| v.patch()), Some(1));
}

#[test]
fn a_need_of_a_top_level_package_names_its_version() {
    let source: &[(&str, Numbers, u64, &[(&str, Numbers)])] = &[
        ("a", None, 1, &[("b", Some((1, 0, 0)))]),
        ("b", Some((1, 0, 0)), 2, &[]),
    ];
    let ids = vec![package("a", None), package("b", Some((1, 0, 0)))];
    assert_eq!(packages(&image(ids, source)), vec!["b@1.0.0", "a"]);
    let source: &[(&str, Numbers, u64, &[(&str, Numbers)])] =
        &[("a", None, 1, &[("b", None)]), ("b", Some((1, 0, 0)), 2, &[])];
    let ids = vec![package("a", None), package("b", Some((1, 0, 0)))];
    let (outcome, _) = run(ids, &Linker::new(), source);
    assert!(matches!(outcome, Err(PackageResolverError::IncompatibleVersions(_, Some(_), None))));
}

#[test]
fn two_versions_of_a_shared_package_resolve_to_one() {
    let (outcome, _) = run(
        vec![package("guest3", None), package("guest4", None)],
        &Linker::new(),
        &[
            ("guest", Some((0, 1, 1)), 1, &[]),
            ("guest2", None, 2, &[("guest", Some((0, 1, 0)))]),
            ("guest3", None, 3, &[("guest2", None)]),
            ("guest4", None, 4, &[("guest", Some((0, 1, 1)))]),
        ],
    );
    let image = outcome.unwrap_or_else(|_| panic!("resolution failed"));
    let mut found = packages(&image);
    assert_eq!(found[0], "guest@0.1.1");
    found.sort();
    assert_eq!(found, vec!["guest2", "guest3", "guest4", "guest@0.1.1"]);
}

#[test]
fn the_same_packages_resolve_alike() {
    let source: &[(&str, Numbers, u64, &[(&str, Numbers)])] = &[
        ("a", None, 1, &[("b", Some((1, 0, 0))), ("c", None)]),
        ("b", Some((1, 0, 3)), 2, &[("c", Some((2, 0, 0)))]),
        ("c", Some((2, 0, 0)), 3, &[]),
    ];
    let (first, first_rounds) = run(vec![package("a", None)], &Linker::new(), source);
    let (second, second_rounds) = run(vec![package("a", None)], &Linker::new(), source);
    assert_eq!(first_rounds, second_rounds);
    let first = first.unwrap_or_else(|_| panic!("resolution failed"));
    let second = second.unwrap_or_else(|_| panic!("resolution failed"));
    assert_eq!(packages(&first), vec!["c@2.0.0", "b@1.0.3", "a"]);
    assert_eq!(packages(&first), packages(&second));
    assert_eq!(handles(&first), handles(&second));
}
