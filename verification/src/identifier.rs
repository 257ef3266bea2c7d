//! The names of packages and of the interfaces that they hold.

use crate::version::{copy_version, same_version, version_valid, version_view};
use crate::version::{Version, VersionView};
use vstd::prelude::*;
use vstd::std_specs::cmp::PartialEqSpec;

verus! {

/// The value of a [`PackageName`]: its namespace and its name.
pub type NameView = (Seq<char>, Seq<char>);

/// Uniquely identifies a package within a registry.
#[derive(Debug)]
pub struct PackageName {
    /// The namespace, and the name within it.
    key: (String, String),
}

impl View for PackageName {
    type V = NameView;

    closed spec fn view(&self) -> NameView {
        self.key@
    }
}

impl PackageName {
    /// Creates a new package name for the given namespace and name.
    pub fn new(namespace: String, name: String) -> (package: Self)
        ensures
            package@ == (namespace@, name@),
    {
        PackageName { key: (namespace, name) }
    }

    /// The namespace of the package.
    pub fn namespace(&self) -> (namespace: &str)
        ensures
            namespace@ == self@.0,
    {
        self.key.0.as_str()
    }

    /// The name of the package within its namespace.
    pub fn name(&self) -> (name: &str)
        ensures
            name@ == self@.1,
    {
        self.key.1.as_str()
    }

    /// The namespace and the name.
    pub fn key(&self) -> (key: &(String, String))
        ensures
            key@ == self@,
    {
        &self.key
    }

    /// Creates the package name with the given namespace and name.
    pub fn from_key(key: (String, String)) -> (package: Self)
        ensures
            package@ == key@,
    {
        PackageName { key }
    }

    /// Whether two package names are the same.
    pub fn same(&self, other: &Self) -> (same: bool)
        ensures
            same == (self@ == other@),
    {
        self.key.0 == other.key.0 && self.key.1 == other.key.1
    }
}

impl Clone for PackageName {
    fn clone(&self) -> (copy: Self)
        ensures
            copy@ == self@,
    {
        PackageName { key: (self.key.0.clone(), self.key.1.clone()) }
    }
}

/// The value of a [`PackageIdentifier`].
#[verifier::ext_equal]
pub struct IdView {
    pub name: NameView,
    pub version: Option<VersionView>,
}

impl IdView {
    /// Whether the version, if there is one, is well formed.
    pub open spec fn valid(self) -> bool {
        version_valid(self.version)
    }
}

/// Uniquely identifies a package within a registry, with an optionally-associated version.
#[derive(Debug)]
pub struct PackageIdentifier {
    /// The name of the package.
    pub name: PackageName,
    /// The version of the package.
    pub version: Option<Version>,
}

impl View for PackageIdentifier {
    type V = IdView;

    open spec fn view(&self) -> IdView {
        IdView { name: self.name@, version: version_view(self.version) }
    }
}

impl PackageIdentifier {
    /// Creates a new package identifier for the given name and version.
    pub fn new(name: PackageName, version: Option<Version>) -> (id: Self)
        ensures
            id@ == (IdView { name: name@, version: version_view(version) }),
            id@.valid(),
    {
        if let Some(v) = &version {
            proof {
                use_type_invariant(v);
            }
        }
        PackageIdentifier { name, version }
    }

    /// Gets the name of the package.
    pub fn name(&self) -> (name: &PackageName)
        ensures
            name@ == self@.name,
    {
        &self.name
    }

    /// Gets the version of the package, if any.
    pub fn version(&self) -> (version: Option<&Version>)
        ensures
            version is Some <==> self@.version is Some,
            version matches Some(v) ==> self@.version == Some(v@) && v@.valid(),
            self@.valid(),
    {
        match &self.version {
            Some(v) => {
                proof {
                    use_type_invariant(v);
                }
                Some(v)
            },
            None => None,
        }
    }

    /// Whether two package identifiers are the same, the versions included.
    pub fn same(&self, other: &Self) -> (same: bool)
        ensures
            same == (self@ == other@),
    {
        self.name.same(&other.name) && same_version(&self.version, &other.version)
    }
}

impl Clone for PackageIdentifier {
    fn clone(&self) -> (copy: Self)
        ensures
            copy@ == self@,
            copy@.valid(),
    {
        PackageIdentifier::new(self.name.clone(), copy_version(&self.version))
    }
}

/// The value of an [`InterfaceIdentifier`].
#[verifier::ext_equal]
pub struct InterfaceView {
    pub package: IdView,
    pub name: Seq<char>,
}

/// The value of an interface identifier without its version: the namespace and the name of the
/// package, and the name of the interface.
pub type UnversionedView = (Seq<char>, Seq<char>, Seq<char>);

impl InterfaceView {
    /// Whether the version of the package, if there is one, is well formed.
    pub open spec fn valid(self) -> bool {
        self.package.valid()
    }

    /// What is left of the identifier without its version.
    pub open spec fn unversioned(self) -> UnversionedView {
        (self.package.name.0, self.package.name.1, self.name)
    }
}

/// Without their versions, two identifiers are equal exactly if they name the same interface of the same
/// package, whatever the versions are.
pub proof fn law_unversioned_is_equal_across_versions(a: InterfaceView, b: InterfaceView)
    ensures
        a.unversioned() == b.unversioned() <==> a.name == b.name && a.package.name == b.package.name,
{
}

/// The value of an identifier is made of the values of its parts, the version included.
pub proof fn law_identifiers_are_their_parts(id: PackageIdentifier, interface: InterfaceIdentifier)
    ensures
        id@.name == id.name@,
        id.version matches Some(v) ==> id@.version == Some(v@),
        id.version is None ==> id@.version is None,
        interface@.package == interface.package@,
        interface@.name == interface.name@,
{
}

/// Uniquely identifies an interface within a package.
#[derive(Debug)]
pub struct InterfaceIdentifier {
    /// The package.
    pub package: PackageIdentifier,
    /// The name of the interface.
    pub name: String,
}

impl View for InterfaceIdentifier {
    type V = InterfaceView;

    open spec fn view(&self) -> InterfaceView {
        InterfaceView { package: self.package@, name: self.name@ }
    }
}

impl InterfaceIdentifier {
    /// Creates a new interface identifier for the given package and name.
    pub fn new(package: PackageIdentifier, name: String) -> (id: Self)
        ensures
            id@ == (InterfaceView { package: package@, name: name@ }),
    {
        InterfaceIdentifier { package, name }
    }

    /// Gets the identifier of the package.
    pub fn package(&self) -> (package: &PackageIdentifier)
        ensures
            package@ == self@.package,
    {
        &self.package
    }

    /// Gets the name of the interface.
    pub fn name(&self) -> (name: &str)
        ensures
            name@ == self@.name,
    {
        self.name.as_str()
    }

    /// Whether two interface identifiers are the same, the versions included.
    pub fn same(&self, other: &Self) -> (same: bool)
        ensures
            same == (self@ == other@),
    {
        self.name == other.name && self.package.same(&other.package)
    }
}

impl Clone for InterfaceIdentifier {
    fn clone(&self) -> (copy: Self)
        ensures
            copy@ == self@,
            copy@.valid(),
    {
        InterfaceIdentifier { package: self.package.clone(), name: self.name.clone() }
    }
}

/// An interface identifier which is equal across all versions.
#[derive(Debug)]
pub struct UnversionedInterface<'a>(pub &'a InterfaceIdentifier);

impl<'a> View for UnversionedInterface<'a> {
    type V = UnversionedView;

    open spec fn view(&self) -> UnversionedView {
        self.0@.unversioned()
    }
}

impl<'a> UnversionedInterface<'a> {
    /// What two identifiers of the same interface have in common, and what a table of interfaces
    /// is searched by.
    pub fn key(&self) -> (key: (String, String, String))
        ensures
            key@ == self@,
    {
        let package = self.0.package.name.key();
        (package.0.clone(), package.1.clone(), self.0.name.clone())
    }
}

impl<'a> PartialEq for UnversionedInterface<'a> {
    fn eq(&self, other: &Self) -> (same: bool) {
        self.0.name == other.0.name && self.0.package.name.same(&other.0.package.name)
    }
}

/// `==` of [`UnversionedInterface`] says whether two identifiers name the same interface of the same
/// package, whatever the versions are.
pub proof fn law_versions_make_no_difference(a: InterfaceIdentifier, b: InterfaceIdentifier)
    ensures
        UnversionedInterface::obeys_eq_spec(),
        UnversionedInterface(&a).eq_spec(&UnversionedInterface(&b)) <==> a.name@ == b.name@ && a.package.name@
            == b.package.name@,
{
    law_unversioned_is_equal_across_versions(a@, b@);
}

impl<'a> vstd::std_specs::cmp::PartialEqSpecImpl for UnversionedInterface<'a> {
    open spec fn obeys_eq_spec() -> bool {
        true
    }

    open spec fn eq_spec(&self, other: &Self) -> bool {
        self@ == other@
    }
}

} // verus!
