use modularity::version::{copy_version, same_version, PartialVersionRef, Version};
use std::cmp::Ordering;

fn version(major: u64, minor: u64, patch: u64, pre: &str, build: &str) -> Version {
    Version::new(major, minor, patch, pre, build).expect("the parts are well formed")
}

fn release(major: u64, minor: u64, patch: u64) -> Version {
    version(major, minor, patch, "", "")
}

#[test]
fn version_keeps_its_parts() {
    let v = version(1, 2, 3, "alpha.1", "build.007");
    assert_eq!(v.major(), 1);
    assert_eq!(v.minor(), 2);
    assert_eq!(v.patch(), 3);
    assert_eq!(v.pre(), "alpha.1");
    assert_eq!(v.build(), "build.007");
    assert!(v.same(&v.clone()));
}

#[test]
fn malformed_prerelease_is_refused() {
    assert!(Version::new(1, 0, 0, "alpha..1", "").is_none());
    assert!(Version::new(1, 0, 0, ".alpha", "").is_none());
    assert!(Version::new(1, 0, 0, "alpha.", "").is_none());
    assert!(Version::new(1, 0, 0, "al_pha", "").is_none());
    assert!(Version::new(1, 0, 0, "01", "").is_none());
    assert!(Version::new(1, 0, 0, "alpha.00", "").is_none());
    assert!(Version::new(1, 0, 0, "0", "").is_some());
    assert!(Version::new(1, 0, 0, "0a", "").is_some());
    assert!(Version::new(1, 0, 0, "0-1", "").is_some());
    assert!(Version::new(1, 0, 0, "", "").is_some());
}

#[test]
fn malformed_build_metadata_is_refused() {
    assert!(Version::new(1, 0, 0, "", "a..b").is_none());
    assert!(Version::new(1, 0, 0, "", "a+b").is_none());
    assert!(Version::new(1, 0, 0, "", ".").is_none());
    assert!(Version::new(1, 0, 0, "", "01").is_some());
    assert!(Version::new(1, 0, 0, "", "a.b-c.9").is_some());
}

#[test]
fn numbers_decide_first() {
    assert!(release(1, 9, 9).precedes(&release(2, 0, 0)));
    assert!(release(1, 1, 9).precedes(&release(1, 2, 0)));
    assert!(release(1, 1, 1).precedes(&release(1, 1, 2)));
    assert!(!release(1, 1, 2).precedes(&release(1, 1, 1)));
    assert!(!release(1, 1, 1).precedes(&release(1, 1, 1)));
}

#[test]
fn prereleases_come_before_the_release() {
    assert!(version(1, 0, 0, "alpha", "").precedes(&release(1, 0, 0)));
    assert!(!release(1, 0, 0).precedes(&version(1, 0, 0, "alpha", "")));
    assert!(version(1, 0, 0, "alpha", "").precedes(&version(1, 0, 0, "alpha.1", "")));
    assert!(version(1, 0, 0, "alpha.1", "").precedes(&version(1, 0, 0, "alpha.beta", "")));
    assert!(version(1, 0, 0, "beta.2", "").precedes(&version(1, 0, 0, "beta.11", "")));
    assert!(!version(1, 0, 0, "beta.11", "").precedes(&version(1, 0, 0, "beta.2", "")));
}

#[test]
fn build_metadata_decides_last() {
    assert!(version(1, 0, 0, "", "").precedes(&version(1, 0, 0, "", "a")));
    assert!(version(1, 0, 0, "", "2").precedes(&version(1, 0, 0, "", "11")));
    assert!(version(1, 0, 0, "", "1").precedes(&version(1, 0, 0, "", "01")));
    assert!(!version(1, 0, 0, "", "01").precedes(&version(1, 0, 0, "", "1")));
    assert!(version(1, 0, 0, "alpha", "z").precedes(&version(1, 0, 0, "beta", "a")));
}

#[test]
fn matching_allows_greater_patches_only() {
    let a = release(1, 2, 3);
    let newer = release(1, 2, 4);
    let older = release(1, 2, 2);
    let minor = release(1, 3, 3);
    let major = release(2, 2, 3);
    let wanted = PartialVersionRef(Some(&a));
    assert!(wanted.matches(&PartialVersionRef(Some(&a))));
    assert!(wanted.matches(&PartialVersionRef(Some(&newer))));
    assert!(!wanted.matches(&PartialVersionRef(Some(&older))));
    assert!(!wanted.matches(&PartialVersionRef(Some(&minor))));
    assert!(!wanted.matches(&PartialVersionRef(Some(&major))));
}

#[test]
fn missing_version_matches_anything() {
    let a = release(1, 2, 3);
    assert!(PartialVersionRef(None).matches(&PartialVersionRef(None)));
    assert!(PartialVersionRef(None).matches(&PartialVersionRef(Some(&a))));
    assert!(!PartialVersionRef(Some(&a)).matches(&PartialVersionRef(None)));
}

#[test]
fn prerelease_does_not_satisfy_the_release() {
    let alpha = version(1, 0, 0, "alpha", "");
    let full = release(1, 0, 0);
    assert!(!PartialVersionRef(Some(&full)).matches(&PartialVersionRef(Some(&alpha))));
    assert!(PartialVersionRef(Some(&alpha)).matches(&PartialVersionRef(Some(&full))));
}

#[test]
fn missing_version_is_least() {
    let a = release(0, 0, 0);
    let b = release(0, 0, 1);
    assert_eq!(PartialVersionRef(None).cmp(&PartialVersionRef(None)), Ordering::Equal);
    assert_eq!(PartialVersionRef(None).cmp(&PartialVersionRef(Some(&a))), Ordering::Less);
    assert_eq!(PartialVersionRef(Some(&a)).cmp(&PartialVersionRef(None)), Ordering::Greater);
    assert_eq!(PartialVersionRef(Some(&a)).cmp(&PartialVersionRef(Some(&b))), Ordering::Less);
    assert_eq!(PartialVersionRef(Some(&b)).cmp(&PartialVersionRef(Some(&a))), Ordering::Greater);
    assert_eq!(PartialVersionRef(Some(&b)).cmp(&PartialVersionRef(Some(&b))), Ordering::Equal);
    assert!(PartialVersionRef(None) < PartialVersionRef(Some(&a)));
    assert!(PartialVersionRef(Some(&b)) > PartialVersionRef(Some(&a)));
}

#[test]
fn references_are_equal_if_the_versions_are() {
    let a = version(1, 0, 0, "alpha", "x");
    let b = version(1, 0, 0, "alpha", "x");
    let c = version(1, 0, 0, "alpha", "y");
    assert!(PartialVersionRef(Some(&a)) == PartialVersionRef(Some(&b)));
    assert!(PartialVersionRef(Some(&a)) != PartialVersionRef(Some(&c)));
    assert!(PartialVersionRef(None) != PartialVersionRef(Some(&c)));
    assert!(PartialVersionRef(None) == PartialVersionRef(None));
}

#[test]
fn copies_of_optional_versions_are_the_same() {
    let a = Some(version(1, 0, 0, "alpha", "x"));
    assert!(same_version(&a, &copy_version(&a)));
    assert!(same_version(&None, &copy_version(&None)));
    assert!(!same_version(&a, &None));
    assert!(!same_version(&a, &Some(release(1, 0, 0))));
}
