//! Packages that are loaded.

use crate::component::{Exports, ExportingInstance, Instance};
use crate::identifier::{NameView, PackageIdentifier, PackageName};
use crate::image::ImageView;
use crate::package_map::PackageMap;
use crate::version::{copy_version, version_view, Version, VersionView};
use vstd::prelude::*;

verus! {

/// The value of a [`ResolvedInstance`].
#[verifier::ext_equal]
pub struct LoadedView {
    pub version: Option<VersionView>,
    pub instance: ExportingInstance,
}

/// A package that consists of a version and an instantiated component.
#[derive(Debug)]
pub struct ResolvedInstance {
    /// The version of the instance.
    pub version: Option<Version>,
    /// The instantiated component.
    pub instance: Instance,
}

impl View for ResolvedInstance {
    type V = LoadedView;

    open spec fn view(&self) -> LoadedView {
        LoadedView { version: version_view(self.version), instance: self.instance@ }
    }
}

/// The values of loaded packages.
pub open spec fn loaded_views(packages: Map<NameView, ResolvedInstance>) -> Map<NameView, LoadedView> {
    packages.map_values(|package: ResolvedInstance| package@)
}

/// Whether packages with the names and versions of those of an image are loaded, and no others.
pub open spec fn matches_image(packages: Map<NameView, LoadedView>, image: ImageView) -> bool {
    &&& forall|i: int|
        0 <= i < image.packages.len() ==> packages.contains_key((#[trigger] image.packages[i]).id.name)
            && packages[image.packages[i].id.name].version == image.packages[i].id.version
    &&& forall|name: NameView| #[trigger]
        packages.contains_key(name) ==> exists|i: int|
            0 <= i < image.packages.len() && (#[trigger] image.packages[i]).id.name == name
}

/// Loaded packages match an image exactly if there is one for each package of the image, of its name and in
/// its version, and none of another name.
pub proof fn law_loaded_packages_match_their_image(packages: Map<NameView, LoadedView>, image: ImageView)
    ensures
        matches_image(packages, image) <==> (forall|i: int|
            0 <= i < image.packages.len() ==> packages.contains_key((#[trigger] image.packages[i]).id.name)
                && packages[image.packages[i].id.name].version == image.packages[i].id.version) && (forall|
            name: NameView,
        | #[trigger]
            packages.contains_key(name) ==> exists|i: int|
                0 <= i < image.packages.len() && (#[trigger] image.packages[i]).id.name == name),
{
}

/// The values of loaded packages are those of the packages, under their names.
pub proof fn law_loaded_values_are_under_their_names(packages: Map<NameView, ResolvedInstance>, name: NameView)
    ensures
        loaded_views(packages).contains_key(name) <==> packages.contains_key(name),
        packages.contains_key(name) ==> loaded_views(packages)[name].instance == packages[name].instance@
            && loaded_views(packages)[name].version == version_view(packages[name].version),
{
}

/// Copies a map of loaded packages.
pub(crate) fn copy_loaded(packages: &PackageMap<ResolvedInstance>) -> (copy: PackageMap<ResolvedInstance>)
    requires
        packages.wf(),
    ensures
        copy.wf(),
        loaded_views(copy@) == loaded_views(packages@),
{
    let ghost names = packages.names();
    let mut copy: PackageMap<ResolvedInstance> = PackageMap::new();
    let count = packages.len();
    proof {
        packages.lemma_names();
    }
    for i in 0..count
        invariant
            packages.wf(),
            names == packages.names(),
            names.no_duplicates(),
            count == names.len(),
            copy.wf(),
            copy.names() == names.take(i as int),
            forall|j: int|
                0 <= j < i ==> copy@.contains_key(#[trigger] names[j]) && copy@[names[j]]@ == packages@[names[j]]@,
    {
        let package = packages.value_at(i);
        proof {
            copy.lemma_names();
            if copy@.contains_key(names[i as int]) {
                assert(names.take(i as int).to_set().contains(names[i as int]));
                let j = names.take(i as int).index_of(names[i as int]);
                assert(names.take(i as int)[j] == names[i as int]);
                assert(names[j] == names[i as int]);
            }
        }
        copy.insert(
            packages.name_at(i).clone(),
            ResolvedInstance {
                version: copy_version(&package.version),
                instance: package.instance.clone(),
            },
        );
        assert(copy.names() =~= names.take(i + 1));
    }
    proof {
        packages.lemma_names();
        copy.lemma_names();
        assert(names.take(count as int) =~= names);
        assert(copy@.dom() == packages@.dom());
        assert forall|name: NameView| #[trigger] packages@.contains_key(name) implies copy@[name]@
            == packages@[name]@ by {
            assert(names.to_set().contains(name));
            let j = names.index_of(name);
            assert(names[j] == name);
        }
        assert(loaded_views(copy@) =~= loaded_views(packages@));
    }
    copy
}

/// Represents an instantiated WebAssembly component that is owned by a context.
#[derive(Debug)]
pub struct LoadedPackage<'a> {
    /// The package's ID.
    name: PackageIdentifier,
    /// The instance associated with the package.
    instance: &'a Instance,
}

impl<'a> View for LoadedPackage<'a> {
    type V = (NameView, LoadedView);

    closed spec fn view(&self) -> (NameView, LoadedView) {
        (self.name@.name, LoadedView { version: self.name@.version, instance: self.instance@ })
    }
}

impl<'a> LoadedPackage<'a> {
    /// Gives access to a loaded package with the given name.
    pub(crate) fn new(name: &PackageName, package: &'a ResolvedInstance) -> (loaded: Self)
        ensures
            loaded@ == (name@, package@),
    {
        LoadedPackage {
            name: PackageIdentifier::new(name.clone(), copy_version(&package.version)),
            instance: &package.instance,
        }
    }

    /// The identifier of the package.
    pub fn id(&self) -> (id: &PackageIdentifier)
        ensures
            id@.name == self@.0,
            id@.version == self@.1.version,
    {
        &self.name
    }

    /// The exports of the package.
    pub fn exports(&self) -> (exports: &Exports)
        ensures
            exports@ == self@.1.instance.exports,
    {
        self.instance.exports()
    }
}

} // verus!
