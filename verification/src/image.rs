//! Images: the packages that a context should hold, and how they depend on each other.

use crate::component::{Component, ComponentView};
use crate::flags::{lemma_places, places, Bits, PackageFlagsList};
use crate::hosts::{hosts_of, lemma_needed, needed, HostInterfaces};
use crate::identifier::{IdView, InterfaceView, NameView, PackageIdentifier, PackageName};
use crate::identifier::UnversionedView;
use crate::linker::{Linker, LinkerView};
use crate::package_map::PackageMap;
use crate::version::{law_match_is_on_the_same_line, version_matches};
use std::sync::Arc;
use vstd::prelude::*;

verus! {

/// The value of a [`ResolvedPackage`].
#[verifier::ext_equal]
pub struct ResolvedView {
    pub id: IdView,
    pub component: ComponentView,
}

/// A package that consists of an identifier and parsed binary.
#[derive(Debug)]
pub struct ResolvedPackage {
    /// The ID of the package.
    pub id: PackageIdentifier,
    /// The parsed component.
    pub component: Component,
}

impl View for ResolvedPackage {
    type V = ResolvedView;

    open spec fn view(&self) -> ResolvedView {
        ResolvedView { id: self.id@, component: self.component@ }
    }
}

/// The value of a [`PackageContextImage`].
#[verifier::ext_equal]
pub struct ImageView {
    /// The packages, each after those on which it depends.
    pub packages: Seq<ResolvedView>,
    /// Which packages are top-level.
    pub top_level: Seq<bool>,
    /// The linker that will be used to resolve host imports.
    pub linker: LinkerView,
    /// The interfaces that the host provides.
    pub hosts: Map<UnversionedView, InterfaceView>,
}

impl ImageView {
    /// The packages that package `i` needs, as it requests them.
    pub open spec fn requests(self, i: int) -> Seq<IdView> {
        needed(self.hosts, self.packages[i].component.imports)
    }

    /// Whether package `i` imports an interface that package `j` must provide.
    pub open spec fn depends(self, i: int, j: int) -> bool {
        exists|k: int|
            0 <= k < self.requests(i).len() && (#[trigger] self.requests(i)[k]).name
                == self.packages[j].id.name
    }

    /// Whether each package of a chain depends directly on the next one.
    pub open spec fn is_chain(self, chain: Seq<int>) -> bool {
        &&& chain.len() >= 1
        &&& forall|k: int| 0 <= k < chain.len() ==> 0 <= #[trigger] chain[k] < self.packages.len()
        &&& forall|k: int| 0 <= k < chain.len() - 1 ==> self.depends(#[trigger] chain[k], chain[k + 1])
    }

    /// Whether package `i` is package `j` or depends on it, directly or indirectly.
    pub open spec fn reaches(self, i: int, j: int) -> bool {
        exists|chain: Seq<int>| #[trigger] self.is_chain(chain) && chain.first() == i && chain.last() == j
    }

    /// Whether the packages have different names, each stands after those on which it depends, all
    /// of those are there, and they have versions that satisfy the requests.
    pub open spec fn valid(self) -> bool {
        &&& self.top_level.len() == self.packages.len()
        &&& hosts_of(self.hosts, self.linker.instances.dom())
        &&& forall|i: int, j: int|
            0 <= i < j < self.packages.len() ==> (#[trigger] self.packages[i]).id.name != (
            #[trigger] self.packages[j]).id.name
        &&& forall|i: int|
            0 <= i < self.packages.len() ==> (#[trigger] self.packages[i]).component.valid()
        &&& forall|i: int, k: int|
            0 <= i < self.packages.len() && 0 <= k < self.requests(i).len() ==> self.provided(
                i,
                #[trigger] self.requests(i)[k],
            )
    }

    /// Whether a package before package `i` has the requested name and a version that satisfies
    /// the request.
    pub open spec fn provided(self, i: int, request: IdView) -> bool {
        exists|j: int|
            0 <= j < i && (#[trigger] self.packages[j]).id.name == request.name && version_matches(
                request.version,
                self.packages[j].id.version,
            )
    }

    /// The place of the package with an identifier, where one is.
    pub open spec fn place(self, id: IdView) -> Option<int> {
        if exists|i: int| 0 <= i < self.packages.len() && (#[trigger] self.packages[i]).id == id {
            Some(choose|i: int| 0 <= i < self.packages.len() && (#[trigger] self.packages[i]).id == id)
        } else {
            None
        }
    }

    /// The identifiers of the packages at the places where flags are set, in ascending order.
    pub open spec fn ids_where(self, flags: Seq<bool>) -> Seq<IdView> {
        places(flags, true, self.packages.len()).map_values(|j: usize| self.packages[j as int].id)
    }

    /// Whether the image holds two packages, and the first depends on the second, directly or
    /// indirectly.
    pub open spec fn needs(self, id: IdView, other: IdView) -> bool {
        &&& id != other
        &&& self.place(id) is Some
        &&& self.place(other) is Some
        &&& self.reaches(self.place(id)->0, self.place(other)->0)
    }

    /// Whether the image holds a package and marks it as top-level.
    pub open spec fn marks(self, id: IdView) -> bool {
        self.place(id) matches Some(i) && self.top_level[i]
    }

    /// The packages that a package depends upon, directly or indirectly. There are none if the image
    /// does not hold the package.
    pub open spec fn dependencies_of(self, id: IdView) -> Seq<IdView> {
        match self.place(id) {
            Some(i) => self.ids_where(
                Seq::new(self.packages.len(), |j: int| j != i && self.reaches(i, j)),
            ),
            None => Seq::empty(),
        }
    }

    /// The packages that depend upon a package, directly or indirectly. There are none if the image
    /// does not hold the package.
    pub open spec fn dependents_of(self, id: IdView) -> Seq<IdView> {
        match self.place(id) {
            Some(i) => self.ids_where(
                Seq::new(self.packages.len(), |j: int| j != i && self.reaches(j, i)),
            ),
            None => Seq::empty(),
        }
    }

    /// The top-level packages that depend upon a package, directly or indirectly. There are none if
    /// the image does not hold the package.
    pub open spec fn top_level_dependents_of(self, id: IdView) -> Seq<IdView> {
        match self.place(id) {
            Some(i) => self.ids_where(
                Seq::new(
                    self.packages.len(),
                    |j: int| j != i && self.top_level[j] && self.reaches(j, i),
                ),
            ),
            None => Seq::empty(),
        }
    }
}

/// A package of a valid image is found where it stands.
pub proof fn lemma_place(image: ImageView, i: int)
    requires
        image.valid(),
        0 <= i < image.packages.len(),
    ensures
        image.place(image.packages[i].id) == Some(i),
{
    let id = image.packages[i].id;
    let j = choose|j: int| 0 <= j < image.packages.len() && (#[trigger] image.packages[j]).id == id;
    if i < j {
        assert(image.packages[i].id.name != image.packages[j].id.name);
    } else if j < i {
        assert(image.packages[j].id.name != image.packages[i].id.name);
    }
}

/// The list of the packages at the places where flags are set holds the package at each such place,
/// once, and no others.
proof fn lemma_ids_where(image: ImageView, flags: Seq<bool>)
    requires
        image.valid(),
        flags.len() == image.packages.len() <= usize::MAX,
    ensures
        image.ids_where(flags).no_duplicates(),
        forall|other: IdView| #[trigger]
            image.ids_where(flags).contains(other) <==> (image.place(other) matches Some(j) && flags[j]),
{
    let list = places(flags, true, flags.len());
    let ids = image.ids_where(flags);
    lemma_places(flags, true, flags.len());
    assert forall|k: int, l: int| 0 <= k < ids.len() && 0 <= l < ids.len() && k != l implies ids[k] != ids[l] by {
        lemma_place(image, list[k] as int);
        lemma_place(image, list[l] as int);
        if k < l {
            assert(list[k] < list[l]);
        } else {
            assert(list[l] < list[k]);
        }
    }
    assert forall|other: IdView| #[trigger]
        ids.contains(other) <==> (image.place(other) matches Some(j) && flags[j]) by {
        if ids.contains(other) {
            let k = ids.index_of(other);
            lemma_place(image, list[k] as int);
        }
        if image.place(other) is Some && flags[image.place(other)->0] {
            let j = image.place(other)->0;
            assert(list.contains(j as usize));
            assert(ids[list.index_of(j as usize)] == other);
        }
    }
}

/// The packages on which a package depends are listed, each once, and no others.
pub proof fn law_dependencies_are_listed(image: ImageView, id: IdView)
    requires
        image.valid(),
        image.packages.len() <= usize::MAX,
    ensures
        image.dependencies_of(id).no_duplicates(),
        forall|other: IdView| #[trigger]
            image.dependencies_of(id).contains(other) <==> image.needs(id, other),
{
    if let Some(i) = image.place(id) {
        let flags = Seq::new(image.packages.len(), |j: int| j != i && image.reaches(i, j));
        lemma_ids_where(image, flags);
        assert forall|other: IdView| #[trigger]
            image.dependencies_of(id).contains(other) <==> image.needs(id, other) by {
            assert(image.ids_where(flags).contains(other) <==> (image.place(other) matches Some(j) && flags[j]));
        }
    }
}

/// The packages that depend on a package are listed, each once, and no others.
pub proof fn law_dependents_are_listed(image: ImageView, id: IdView)
    requires
        image.valid(),
        image.packages.len() <= usize::MAX,
    ensures
        image.dependents_of(id).no_duplicates(),
        forall|other: IdView| #[trigger]
            image.dependents_of(id).contains(other) <==> image.needs(other, id),
{
    if let Some(i) = image.place(id) {
        let flags = Seq::new(image.packages.len(), |j: int| j != i && image.reaches(j, i));
        lemma_ids_where(image, flags);
        assert forall|other: IdView| #[trigger]
            image.dependents_of(id).contains(other) <==> image.needs(other, id) by {
            assert(image.ids_where(flags).contains(other) <==> (image.place(other) matches Some(j) && flags[j]));
        }
    }
}

/// The packages that depend on a package and are marked as top-level are listed, each once, and no
/// others.
pub proof fn law_top_level_dependents_are_listed(image: ImageView, id: IdView)
    requires
        image.valid(),
        image.packages.len() <= usize::MAX,
    ensures
        image.top_level_dependents_of(id).no_duplicates(),
        forall|other: IdView| #[trigger]
            image.top_level_dependents_of(id).contains(other) <==> image.needs(other, id) && image.marks(other),
{
    if let Some(i) = image.place(id) {
        let flags = Seq::new(
            image.packages.len(),
            |j: int| j != i && image.top_level[j] && image.reaches(j, i),
        );
        lemma_ids_where(image, flags);
        assert forall|other: IdView| #[trigger]
            image.top_level_dependents_of(id).contains(other) <==> image.needs(other, id) && image.marks(other) by {
            assert(image.ids_where(flags).contains(other) <==> (image.place(other) matches Some(j) && flags[j]));
        }
    }
}

/// The lists of an image mirror each other: a package is among the dependents of another exactly if the
/// other is among its dependencies. Neither list has a package of which the image does not hold that
/// very version.
pub proof fn law_lists_mirror_each_other(image: ImageView, a: IdView, b: IdView)
    requires
        image.valid(),
        image.packages.len() <= usize::MAX,
    ensures
        image.dependents_of(b).contains(a) <==> image.dependencies_of(a).contains(b),
        image.place(a) is None ==> image.dependencies_of(a).len() == 0 && !image.dependents_of(b).contains(a),
        image.place(b) is None ==> image.dependents_of(b).len() == 0 && !image.dependencies_of(a).contains(b),
{
    law_dependencies_are_listed(image, a);
    law_dependents_are_listed(image, b);
}

/// A package reaches another exactly if it is that package, or depends directly on a package that
/// reaches it.
pub proof fn lemma_reaches_step(image: ImageView, i: int, j: int)
    requires
        0 <= i < image.packages.len(),
        0 <= j < image.packages.len(),
    ensures
        image.reaches(i, j) <==> i == j || exists|k: int|
            0 <= k < image.packages.len() && #[trigger] image.depends(i, k) && image.reaches(k, j),
{
    if image.reaches(i, j) && i != j {
        let chain = choose|chain: Seq<int>| #[trigger]
            image.is_chain(chain) && chain.first() == i && chain.last() == j;
        let rest = chain.drop_first();
        assert(chain.len() >= 2);
        assert forall|k: int| 0 <= k < rest.len() implies 0 <= #[trigger] rest[k] < image.packages.len() by {
            assert(rest[k] == chain[k + 1]);
        }
        assert forall|k: int| 0 <= k < rest.len() - 1 implies image.depends(#[trigger] rest[k], rest[k + 1]) by {
            assert(image.depends(chain[k + 1], chain[k + 1 + 1]));
        }
        assert(image.is_chain(rest));
        assert(image.depends(chain[0], chain[1]));
        assert(image.reaches(chain[1], j));
    }
    if i == j {
        let chain = seq![i];
        assert(image.is_chain(chain));
        assert(image.reaches(i, j));
    }
    if exists|k: int|
        0 <= k < image.packages.len() && #[trigger] image.depends(i, k) && image.reaches(k, j) {
        let k = choose|k: int|
            0 <= k < image.packages.len() && #[trigger] image.depends(i, k) && image.reaches(k, j);
        let rest = choose|chain: Seq<int>| #[trigger]
            image.is_chain(chain) && chain.first() == k && chain.last() == j;
        let chain = seq![i] + rest;
        assert forall|l: int| 0 <= l < chain.len() implies 0 <= #[trigger] chain[l] < image.packages.len() by {
            if l > 0 {
                assert(chain[l] == rest[l - 1]);
            }
        }
        assert forall|l: int| 0 <= l < chain.len() - 1 implies image.depends(#[trigger] chain[l], chain[l + 1]) by {
            if l > 0 {
                assert(image.depends(rest[l - 1], rest[l - 1 + 1]));
            }
        }
        assert(image.is_chain(chain));
        assert(chain.last() == rest.last());
    }
}

/// A package is reached by another exactly if it is that package, or some package that the other
/// reaches depends directly on it.
pub proof fn lemma_reaches_last_step(image: ImageView, i: int, j: int)
    requires
        0 <= i < image.packages.len(),
        0 <= j < image.packages.len(),
    ensures
        image.reaches(i, j) <==> i == j || exists|k: int|
            0 <= k < image.packages.len() && image.reaches(i, k) && #[trigger] image.depends(k, j),
{
    if image.reaches(i, j) && i != j {
        let chain = choose|chain: Seq<int>| #[trigger]
            image.is_chain(chain) && chain.first() == i && chain.last() == j;
        let rest = chain.drop_last();
        assert(chain.len() >= 2);
        assert forall|k: int| 0 <= k < rest.len() implies 0 <= #[trigger] rest[k] < image.packages.len() by {
            assert(rest[k] == chain[k]);
        }
        assert forall|k: int| 0 <= k < rest.len() - 1 implies image.depends(#[trigger] rest[k], rest[k + 1]) by {
            assert(image.depends(chain[k], chain[k + 1]));
        }
        assert(image.is_chain(rest));
        let k = rest.last();
        assert(image.depends(chain[chain.len() - 2], chain[chain.len() - 2 + 1]));
        assert(image.reaches(i, k) && image.depends(k, j));
    }
    if i == j {
        let chain = seq![i];
        assert(image.is_chain(chain));
        assert(image.reaches(i, j));
    }
    if exists|k: int|
        0 <= k < image.packages.len() && image.reaches(i, k) && #[trigger] image.depends(k, j) {
        let k = choose|k: int|
            0 <= k < image.packages.len() && image.reaches(i, k) && #[trigger] image.depends(k, j);
        let rest = choose|chain: Seq<int>| #[trigger]
            image.is_chain(chain) && chain.first() == i && chain.last() == k;
        let chain = rest.push(j);
        assert forall|l: int| 0 <= l < chain.len() implies 0 <= #[trigger] chain[l] < image.packages.len() by {
            if l < rest.len() {
                assert(chain[l] == rest[l]);
            }
        }
        assert forall|l: int| 0 <= l < chain.len() - 1 implies image.depends(#[trigger] chain[l], chain[l + 1]) by {
            if l < rest.len() - 1 {
                assert(image.depends(rest[l], rest[l + 1]));
            }
        }
        assert(image.is_chain(chain));
        assert(chain.first() == i);
    }
}

/// A package of a valid image depends only on packages that stand before it.
pub proof fn lemma_depends_on_earlier(image: ImageView, i: int, j: int)
    requires
        image.valid(),
        0 <= i < image.packages.len(),
        0 <= j < image.packages.len(),
        image.depends(i, j),
    ensures
        j < i,
{
    let k = choose|k: int|
        0 <= k < image.requests(i).len() && (#[trigger] image.requests(i)[k]).name == image.packages[j].id.name;
    assert(image.provided(i, image.requests(i)[k]));
    let m = choose|m: int|
        0 <= m < i && (#[trigger] image.packages[m]).id.name == image.requests(i)[k].name;
    if m < j {
        assert(image.packages[m].id.name != image.packages[j].id.name);
    } else if j < m {
        assert(image.packages[j].id.name != image.packages[m].id.name);
    }
}

/// What a package's dependencies depend on, the package depends on.
pub proof fn law_dependencies_are_transitive(image: ImageView, i: int, j: int, k: int)
    requires
        image.reaches(i, j),
        image.reaches(j, k),
    ensures
        image.reaches(i, k),
{
    let first = choose|chain: Seq<int>| #[trigger]
        image.is_chain(chain) && chain.first() == i && chain.last() == j;
    let second = choose|chain: Seq<int>| #[trigger]
        image.is_chain(chain) && chain.first() == j && chain.last() == k;
    let chain = first.drop_last() + second;
    let joint = first.len() - 1;
    assert forall|l: int| 0 <= l < chain.len() implies 0 <= #[trigger] chain[l] < image.packages.len() by {
        if l < joint {
            assert(chain[l] == first[l]);
        } else {
            assert(chain[l] == second[l - joint]);
        }
    }
    assert forall|l: int| 0 <= l < chain.len() - 1 implies image.depends(#[trigger] chain[l], chain[l + 1]) by {
        if l < joint {
            assert(chain[l] == first[l] && chain[l + 1] == first[l + 1]);
        } else {
            assert(chain[l] == second[l - joint] && chain[l + 1] == second[l - joint + 1]);
        }
    }
    assert(image.is_chain(chain));
    assert(chain.first() == i && chain.last() == k);
}

/// A package of a valid image stands after all packages on which it depends, directly or indirectly,
/// so no two packages depend on each other.
pub proof fn law_dependencies_stand_before(image: ImageView, i: int, j: int)
    requires
        image.valid(),
        0 <= i < image.packages.len(),
        0 <= j < image.packages.len(),
        image.reaches(i, j),
    ensures
        j <= i,
    decreases i,
{
    lemma_reaches_step(image, i, j);
    if i != j {
        let k = choose|k: int|
            0 <= k < image.packages.len() && #[trigger] image.depends(i, k) && image.reaches(k, j);
        lemma_depends_on_earlier(image, i, k);
        law_dependencies_stand_before(image, k, j);
    }
}

/// A package depends directly on another exactly if it imports an interface of the other's name, of which
/// the host provides no version.
pub proof fn law_imports_make_dependencies(image: ImageView, i: int, j: int)
    requires
        0 <= i < image.packages.len(),
        0 <= j < image.packages.len(),
    ensures
        image.depends(i, j) <==> exists|k: int|
            0 <= k < image.packages[i].component.imports.len() && (
            #[trigger] image.packages[i].component.imports[k]).package.name == image.packages[j].id.name
                && !image.hosts.contains_key(
                (
                    image.packages[i].component.imports[k].package.name.0,
                    image.packages[i].component.imports[k].package.name.1,
                    image.packages[i].component.imports[k].name,
                ),
            ),
{
    let imports = image.packages[i].component.imports;
    let requests = image.requests(i);
    let name = image.packages[j].id.name;
    lemma_needed(image.hosts, imports);
    if image.depends(i, j) {
        let r = choose|r: int| 0 <= r < requests.len() && (#[trigger] requests[r]).name == name;
        assert(requests.contains(requests[r]));
        let k = choose|k: int|
            0 <= k < imports.len() && !image.hosts.contains_key((#[trigger] imports[k]).unversioned())
                && imports[k].package == requests[r];
        assert(imports[k].package.name == name);
    }
    if exists|k: int|
        0 <= k < imports.len() && (#[trigger] imports[k]).package.name == name && !image.hosts.contains_key(
            (imports[k].package.name.0, imports[k].package.name.1, imports[k].name),
        ) {
        let k = choose|k: int|
            0 <= k < imports.len() && (#[trigger] imports[k]).package.name == name && !image.hosts.contains_key(
                (imports[k].package.name.0, imports[k].package.name.1, imports[k].name),
            );
        assert(!image.hosts.contains_key(imports[k].unversioned()));
        assert(requests.contains(imports[k].package));
        let r = requests.index_of(imports[k].package);
        assert(requests[r].name == name);
    }
}

/// A package reaches itself and the packages on which it depends directly.
pub proof fn law_direct_dependencies_are_reached(image: ImageView, i: int, j: int)
    requires
        0 <= i < image.packages.len(),
        0 <= j < image.packages.len(),
    ensures
        image.reaches(i, i),
        image.depends(i, j) ==> image.reaches(i, j),
{
    lemma_reaches_step(image, i, i);
    lemma_reaches_step(image, j, j);
    lemma_reaches_step(image, i, j);
}

/// A package reaches nothing else: whatever holds of it, and of the direct dependencies of all of which it
/// holds, holds of every package that it reaches.
pub proof fn law_only_dependencies_are_reached(image: ImageView, i: int, j: int, closed: Set<int>)
    requires
        closed.contains(i),
        forall|a: int, b: int|
            0 <= a < image.packages.len() && 0 <= b < image.packages.len() && closed.contains(a)
                && #[trigger] image.depends(a, b) ==> closed.contains(b),
        image.reaches(i, j),
    ensures
        closed.contains(j),
        0 <= i < image.packages.len(),
        0 <= j < image.packages.len(),
{
    let chain = choose|chain: Seq<int>| #[trigger]
        image.is_chain(chain) && chain.first() == i && chain.last() == j;
    lemma_chain_stays_in(image, chain, closed);
    assert(0 <= chain[0] < image.packages.len());
    assert(0 <= chain[chain.len() - 1] < image.packages.len());
}

/// A chain of dependencies that begins in a set that is closed under them ends in it.
proof fn lemma_chain_stays_in(image: ImageView, chain: Seq<int>, closed: Set<int>)
    requires
        image.is_chain(chain),
        closed.contains(chain.first()),
        forall|a: int, b: int|
            0 <= a < image.packages.len() && 0 <= b < image.packages.len() && closed.contains(a)
                && #[trigger] image.depends(a, b) ==> closed.contains(b),
    ensures
        closed.contains(chain.last()),
    decreases chain.len(),
{
    if chain.len() > 1 {
        let shorter = chain.drop_last();
        assert forall|k: int| 0 <= k < shorter.len() implies 0 <= #[trigger] shorter[k] < image.packages.len() by {
            assert(shorter[k] == chain[k]);
        }
        assert forall|k: int| 0 <= k < shorter.len() - 1 implies image.depends(#[trigger] shorter[k], shorter[k + 1]) by {
            assert(image.depends(chain[k], chain[k + 1]));
        }
        lemma_chain_stays_in(image, shorter, closed);
        let k = chain.len() - 2;
        assert(image.depends(chain[k], chain[k + 1]));
        assert(0 <= chain[k] < image.packages.len() && 0 <= chain[k + 1] < image.packages.len());
    }
}

/// In a valid image no two packages have the same name.
pub proof fn law_names_are_different(image: ImageView, i: int, j: int)
    requires
        image.valid(),
        0 <= i < image.packages.len(),
        0 <= j < image.packages.len(),
        i != j,
    ensures
        image.packages[i].id.name != image.packages[j].id.name,
{
    if i < j {
        assert(image.packages[i].id.name != image.packages[j].id.name);
    } else {
        assert(image.packages[j].id.name != image.packages[i].id.name);
    }
}

/// In a valid image an import of which the host provides no version comes from a package that stands
/// earlier, which has the version that the import names or a greater one with the same major and minor
/// number.
pub proof fn law_valid_image_provides_imports(image: ImageView, i: int, k: int)
    requires
        image.valid(),
        0 <= i < image.packages.len(),
        0 <= k < image.packages[i].component.imports.len(),
        !image.hosts.contains_key(
            (
                image.packages[i].component.imports[k].package.name.0,
                image.packages[i].component.imports[k].package.name.1,
                image.packages[i].component.imports[k].name,
            ),
        ),
    ensures
        exists|m: int|
            {
                &&& 0 <= m < i
                &&& (#[trigger] image.packages[m]).id.name == image.packages[i].component.imports[k].package.name
                &&& version_matches(
                    image.packages[i].component.imports[k].package.version,
                    image.packages[m].id.version,
                )
                &&& match (
                    image.packages[i].component.imports[k].package.version,
                    image.packages[m].id.version,
                ) {
                    (None, _) => true,
                    (Some(a), Some(b)) => a.major == b.major && a.minor == b.minor && a.patch <= b.patch,
                    (Some(_), None) => false,
                }
            },
{
    let imports = image.packages[i].component.imports;
    lemma_needed(image.hosts, imports);
    assert(!image.hosts.contains_key(imports[k].unversioned()));
    assert(image.requests(i).contains(imports[k].package));
    let r = image.requests(i).index_of(imports[k].package);
    assert(image.provided(i, image.requests(i)[r]));
    let m = choose|m: int|
        0 <= m < i && (#[trigger] image.packages[m]).id.name == imports[k].package.name && version_matches(
            imports[k].package.version,
            image.packages[m].id.version,
        );
    if imports[k].package.version is Some && image.packages[m].id.version is Some {
        law_match_is_on_the_same_line(imports[k].package.version->0, image.packages[m].id.version->0);
    }
}

/// A package is found in a valid image exactly where it stands, and only in the version that is there.
pub proof fn law_package_is_found_where_it_stands(image: ImageView, id: IdView, i: int)
    requires
        image.valid(),
    ensures
        image.place(id) == Some(i) <==> 0 <= i < image.packages.len() && image.packages[i].id == id,
        image.place(id) is None <==> forall|j: int|
            0 <= j < image.packages.len() ==> (#[trigger] image.packages[j]).id != id,
{
    if 0 <= i < image.packages.len() && image.packages[i].id == id {
        lemma_place(image, i);
    }
}

/// A package of a valid image needs another exactly if they are different and it reaches the other, and a
/// package is marked as top-level exactly if the flag at its place is set.
pub proof fn law_needs_go_by_places(image: ImageView, id: IdView, other: IdView, i: int, j: int)
    requires
        image.valid(),
        0 <= i < image.packages.len(),
        0 <= j < image.packages.len(),
        image.packages[i].id == id,
    ensures
        image.packages[j].id == other ==> (image.needs(id, other) <==> i != j && image.reaches(i, j)),
        image.needs(id, other) ==> exists|m: int|
            0 <= m < image.packages.len() && (#[trigger] image.packages[m]).id == other,
        image.marks(id) <==> image.top_level[i],
{
    lemma_place(image, i);
    if image.packages[j].id == other {
        lemma_place(image, j);
    }
}

/// The lists of dependencies and of dependents are in the order in which the packages stand in the image.
pub proof fn law_lists_are_in_order(image: ImageView, id: IdView, k: int, l: int, i: int, j: int)
    requires
        image.valid(),
        image.packages.len() <= usize::MAX,
        0 <= k < l,
        0 <= i < image.packages.len(),
        0 <= j < image.packages.len(),
    ensures
        l < image.dependencies_of(id).len() && image.dependencies_of(id)[k] == image.packages[i].id
            && image.dependencies_of(id)[l] == image.packages[j].id ==> i < j,
        l < image.dependents_of(id).len() && image.dependents_of(id)[k] == image.packages[i].id
            && image.dependents_of(id)[l] == image.packages[j].id ==> i < j,
        l < image.top_level_dependents_of(id).len() && image.top_level_dependents_of(id)[k] == image.packages[i].id
            && image.top_level_dependents_of(id)[l] == image.packages[j].id ==> i < j,
{
    if let Some(p) = image.place(id) {
        lemma_ids_in_order(image, Seq::new(image.packages.len(), |m: int| m != p && image.reaches(p, m)), k, l, i, j);
        lemma_ids_in_order(image, Seq::new(image.packages.len(), |m: int| m != p && image.reaches(m, p)), k, l, i, j);
        lemma_ids_in_order(
            image,
            Seq::new(image.packages.len(), |m: int| m != p && image.top_level[m] && image.reaches(m, p)),
            k,
            l,
            i,
            j,
        );
    }
}

/// The list of the packages at the places where flags are set is in the order of the image.
proof fn lemma_ids_in_order(image: ImageView, flags: Seq<bool>, k: int, l: int, i: int, j: int)
    requires
        image.valid(),
        flags.len() == image.packages.len() <= usize::MAX,
        0 <= k < l,
        0 <= i < image.packages.len(),
        0 <= j < image.packages.len(),
    ensures
        l < image.ids_where(flags).len() && image.ids_where(flags)[k] == image.packages[i].id
            && image.ids_where(flags)[l] == image.packages[j].id ==> i < j,
{
    let list = places(flags, true, flags.len());
    let ids = image.ids_where(flags);
    lemma_places(flags, true, flags.len());
    if l < ids.len() && ids[k] == image.packages[i].id && ids[l] == image.packages[j].id {
        assert(list[k] < list[l]);
        lemma_place(image, list[k] as int);
        lemma_place(image, list[l] as int);
        lemma_place(image, i);
        lemma_place(image, j);
    }
}

/// The values of a row are those of what stands in it, in its order.
pub proof fn law_values_are_in_order(packages: Seq<ResolvedPackage>, ids: Seq<&PackageIdentifier>)
    ensures
        package_views(packages).len() == packages.len(),
        forall|i: int|
            0 <= i < packages.len() ==> (#[trigger] package_views(packages)[i]).id == packages[i].id@
                && package_views(packages)[i].component == packages[i].component@,
        id_ref_views(ids).len() == ids.len(),
        forall|i: int| 0 <= i < ids.len() ==> #[trigger] id_ref_views(ids)[i] == ids[i]@,
{
}

/// The values of a row of resolved packages.
pub open spec fn package_views(packages: Seq<ResolvedPackage>) -> Seq<ResolvedView> {
    packages.map_values(|package: ResolvedPackage| package@)
}

/// The values of a row of references to package identifiers.
pub open spec fn id_ref_views(ids: Seq<&PackageIdentifier>) -> Seq<IdView> {
    ids.map_values(|id: &PackageIdentifier| id@)
}

/// The linker that will be used to resolve host imports, and the interfaces that it defines.
#[derive(Debug)]
pub struct HostLinker {
    /// The linker.
    pub linker: Linker,
    /// The interfaces that the linker defines, by name.
    pub interfaces: HostInterfaces,
}

/// Stores the inner state for an image.
#[derive(Debug)]
pub struct PackageContextImageInner {
    /// An indexed list of resolved packages.
    pub packages: Vec<ResolvedPackage>,
    /// The indirect dependencies for each package.
    pub transitive_dependencies: PackageFlagsList,
    /// The indirect dependents for each package.
    pub transitive_dependents: PackageFlagsList,
    /// The subset of packages that are top-level.
    pub top_level_packages: Bits,
    /// A mapping from package name to index in the resolved list.
    pub package_map: PackageMap<usize>,
    /// The linker that will be used to resolve host imports.
    pub linker_packages: Arc<HostLinker>,
}

impl View for PackageContextImageInner {
    type V = ImageView;

    open spec fn view(&self) -> ImageView {
        ImageView {
            packages: package_views(self.packages@),
            top_level: self.top_level_packages@,
            linker: self.linker_packages.linker@,
            hosts: self.linker_packages.interfaces@,
        }
    }
}

impl PackageContextImageInner {
    /// Whether the name table says where each package stands and holds no other names.
    pub open spec fn names_mapped(self) -> bool {
        &&& self.package_map.wf()
        &&& forall|i: int|
            0 <= i < self@.packages.len() ==> self.package_map@.contains_key(
                (#[trigger] self@.packages[i]).id.name,
            ) && self.package_map@[self@.packages[i].id.name] == i
        &&& forall|name: NameView| #[trigger]
            self.package_map@.contains_key(name) ==> self.package_map@[name] < self@.packages.len()
                && self@.packages[self.package_map@[name] as int].id.name == name
    }

    /// Whether the flags say which packages each package depends on, directly or indirectly.
    pub open spec fn dependencies_complete(self) -> bool {
        &&& self.transitive_dependencies.wf()
        &&& self.transitive_dependencies.size() == self@.packages.len()
        &&& forall|i: int, j: int|
            0 <= i < self@.packages.len() && 0 <= j < self@.packages.len()
                ==> #[trigger] self.transitive_dependencies.at(i, j) == self@.reaches(i, j)
    }

    /// Whether the flags say which packages depend on each package, directly or indirectly.
    pub open spec fn dependents_complete(self) -> bool {
        &&& self.transitive_dependents.wf()
        &&& self.transitive_dependents.size() == self@.packages.len()
        &&& forall|i: int, j: int|
            0 <= i < self@.packages.len() && 0 <= j < self@.packages.len()
                ==> #[trigger] self.transitive_dependents.at(i, j) == self@.reaches(j, i)
    }

    /// Whether the packages are a valid image and the tables about them are complete.
    pub open spec fn wf(self) -> bool {
        &&& self@.valid()
        &&& self.linker_packages.interfaces.wf()
        &&& self.names_mapped()
        &&& self.dependencies_complete()
        &&& self.dependents_complete()
    }
}

/// The two tables of an image mirror each other: a package is among the dependents of another exactly
/// if the other is among its dependencies.
pub proof fn law_dependents_mirror_dependencies(inner: PackageContextImageInner, i: int, j: int)
    requires
        inner.dependencies_complete(),
        inner.dependents_complete(),
        0 <= i < inner@.packages.len(),
        0 <= j < inner@.packages.len(),
    ensures
        inner.transitive_dependents.at(i, j) == inner.transitive_dependencies.at(j, i),
{
}

/// Describes a target state which can be applied to a context. Each image is an instantaneous
/// "snapshot" of what a context should look like after loading and unloading the requisite
/// packages. Copies share what it is made of.
#[derive(Debug)]
pub struct PackageContextImage {
    /// What the image is made of.
    pub(crate) inner: Arc<PackageContextImageInner>,
}

impl View for PackageContextImage {
    type V = ImageView;

    closed spec fn view(&self) -> ImageView {
        self.inner@
    }
}

impl PackageContextImage {
    /// Every image is complete.
    #[verifier::type_invariant]
    pub(crate) closed spec fn well_formed(self) -> bool {
        self.inner.wf()
    }

    /// The packages of every image are valid, and they can be counted.
    pub(crate) proof fn lemma_well_formed(&self)
        requires
            self.well_formed(),
        ensures
            self@.valid(),
            self@.packages.len() <= usize::MAX,
    {
        assert(self.inner.packages@.len() == self.inner.packages.len());
    }

    /// Creates an image from what it is made of.
    pub(crate) fn from_inner(inner: PackageContextImageInner) -> (image: Self)
        requires
            inner.wf(),
        ensures
            image@ == inner@,
    {
        PackageContextImage { inner: Arc::new(inner) }
    }

    /// The packages of every image have different names, each stands after those on which it
    /// depends, all of those are there, and they have versions that satisfy the requests.
    pub fn packages(&self) -> (packages: &Vec<ResolvedPackage>)
        ensures
            package_views(packages@) == self@.packages,
            self@.valid(),
    {
        proof {
            use_type_invariant(self);
        }
        &self.inner.packages
    }

    /// The linker that will be used to resolve host imports.
    pub fn linker(&self) -> (linker: &Linker)
        ensures
            linker@ == self@.linker,
    {
        &self.inner.linker_packages.linker
    }

    /// The interfaces that the host provides.
    pub fn hosts(&self) -> (hosts: &HostInterfaces)
        ensures
            hosts.wf(),
            hosts@ == self@.hosts,
    {
        proof {
            use_type_invariant(self);
        }
        &self.inner.linker_packages.interfaces
    }

    /// Finds the place of the package with the given name, in whatever version.
    pub fn place_of(&self, name: &PackageName) -> (place: Option<usize>)
        ensures
            match place {
                Some(i) => i < self@.packages.len() && self@.packages[i as int].id.name == name@,
                None => forall|i: int|
                    0 <= i < self@.packages.len() ==> (#[trigger] self@.packages[i]).id.name != name@,
            },
    {
        proof {
            use_type_invariant(self);
        }
        match self.inner.package_map.get(name) {
            Some(i) => Some(*i),
            None => None,
        }
    }

    /// Gets a flag for each package that says whether it is the package at a place or depends on it,
    /// directly or indirectly.
    pub(crate) fn dependents_at(&self, i: usize) -> (flags: Bits)
        requires
            i < self@.packages.len(),
        ensures
            flags@ == Seq::new(self@.packages.len(), |j: int| self@.reaches(j, i as int)),
    {
        proof {
            use_type_invariant(self);
        }
        let row = self.inner.transitive_dependents.get(i);
        assert(row@ =~= Seq::new(self@.packages.len(), |j: int| self@.reaches(j, i as int)));
        row
    }

    /// Gets a flag for each package that is not set.
    pub(crate) fn no_flags(&self) -> (flags: Bits)
        ensures
            flags@ == Seq::new(self@.packages.len(), |j: int| false),
    {
        proof {
            use_type_invariant(self);
            self.inner.transitive_dependents.lemma_row_is_short();
        }
        let flags = Bits::repeat(false, self.inner.packages.len());
        assert(flags@ =~= Seq::new(self@.packages.len(), |j: int| false));
        flags
    }

    /// Finds the place of the package with the given identifier.
    fn find(&self, id: &PackageIdentifier) -> (place: Option<usize>)
        ensures
            place is Some <==> self@.place(id@) is Some,
            place matches Some(i) ==> i < self@.packages.len() && self@.place(id@) == Some(i as int),
    {
        proof {
            use_type_invariant(self);
        }
        match self.inner.package_map.get(id.name()) {
            Some(i) => {
                let i = *i;
                assert(self@.packages[i as int] == self.inner.packages@[i as int]@);
                if self.inner.packages[i].id.same(id) {
                    proof {
                        assert(self@.packages[i as int].id == id@);
                        let j = choose|j: int|
                            0 <= j < self@.packages.len() && (#[trigger] self@.packages[j]).id == id@;
                        assert(self.inner.package_map@[self@.packages[j].id.name] == j);
                    }
                    Some(i)
                } else {
                    proof {
                        if self@.place(id@) is Some {
                            let j = choose|j: int|
                                0 <= j < self@.packages.len() && (#[trigger] self@.packages[j]).id == id@;
                            assert(self.inner.package_map@[self@.packages[j].id.name] == j);
                        }
                    }
                    None
                }
            },
            None => {
                proof {
                    if self@.place(id@) is Some {
                        let j = choose|j: int|
                            0 <= j < self@.packages.len() && (#[trigger] self@.packages[j]).id == id@;
                        assert(self.inner.package_map@.contains_key(self@.packages[j].id.name));
                    }
                }
                None
            },
        }
    }

    /// Lists the identifiers of the packages whose flags are set.
    fn ids_where<'a>(&'a self, flags: &Bits) -> (ids: Vec<&'a PackageIdentifier>)
        requires
            flags@.len() == self@.packages.len(),
        ensures
            id_ref_views(ids@) == self@.ids_where(flags@),
    {
        let ones = flags.ones();
        proof {
            assert(self@.packages.len() == self.inner.packages@.len());
            assert(self.inner.packages@.len() == self.inner.packages.len());
            lemma_places(flags@, true, flags@.len());
        }
        let mut ids: Vec<&'a PackageIdentifier> = Vec::new();
        for k in 0..ones.len()
            invariant
                self@.packages.len() == self.inner.packages@.len(),
                flags@.len() == self@.packages.len(),
                ones@ == places(flags@, true, flags@.len()),
                forall|l: int| 0 <= l < ones@.len() ==> (#[trigger] ones@[l]) < flags@.len(),
                ids@.len() == k,
                forall|l: int| 0 <= l < k ==> (#[trigger] ids@[l])@ == self@.packages[ones@[l] as int].id,
        {
            let j = ones[k];
            assert(self@.packages[j as int] == self.inner.packages@[j as int]@);
            ids.push(&self.inner.packages[j].id);
        }
        assert(id_ref_views(ids@) =~= self@.ids_where(flags@));
        ids
    }

    /// Lists all packages that this one depends upon, directly or indirectly, each once. The list is
    /// empty if the image does not hold the package.
    pub fn transitive_dependencies<'a>(&'a self, id: &PackageIdentifier) -> (ids: Vec<&'a PackageIdentifier>)
        ensures
            id_ref_views(ids@) == self@.dependencies_of(id@),
            id_ref_views(ids@).no_duplicates(),
            forall|other: IdView| #[trigger]
                id_ref_views(ids@).contains(other) <==> self@.needs(id@, other),
    {
        proof {
            use_type_invariant(self);
            self.lemma_well_formed();
            law_dependencies_are_listed(self@, id@);
        }
        match self.find(id) {
            Some(i) => {
                let mut row = self.inner.transitive_dependencies.get(i);
                row.set(i, false);
                assert(row@ =~= Seq::new(self@.packages.len(), |j: int| j != i && self@.reaches(i as int, j)));
                self.ids_where(&row)
            },
            None => {
                let ids: Vec<&'a PackageIdentifier> = Vec::new();
                assert(id_ref_views(ids@) =~= Seq::<IdView>::empty());
                ids
            },
        }
    }

    /// Lists all packages that depend upon this one, directly or indirectly, each once. The list is
    /// empty if the image does not hold the package.
    pub fn transitive_dependents<'a>(&'a self, id: &PackageIdentifier) -> (ids: Vec<&'a PackageIdentifier>)
        ensures
            id_ref_views(ids@) == self@.dependents_of(id@),
            id_ref_views(ids@).no_duplicates(),
            forall|other: IdView| #[trigger]
                id_ref_views(ids@).contains(other) <==> self@.needs(other, id@),
    {
        proof {
            use_type_invariant(self);
            self.lemma_well_formed();
            law_dependents_are_listed(self@, id@);
        }
        match self.find(id) {
            Some(i) => {
                let mut row = self.dependents_at(i);
                row.set(i, false);
                assert(row@ =~= Seq::new(self@.packages.len(), |j: int| j != i && self@.reaches(j, i as int)));
                self.ids_where(&row)
            },
            None => {
                let ids: Vec<&'a PackageIdentifier> = Vec::new();
                assert(id_ref_views(ids@) =~= Seq::<IdView>::empty());
                ids
            },
        }
    }

    /// Lists all top-level packages that depend upon this one, directly or indirectly, each once. The
    /// list is empty if the image does not hold the package.
    pub fn top_level_dependents<'a>(&'a self, id: &PackageIdentifier) -> (ids: Vec<&'a PackageIdentifier>)
        ensures
            id_ref_views(ids@) == self@.top_level_dependents_of(id@),
            id_ref_views(ids@).no_duplicates(),
            forall|other: IdView| #[trigger]
                id_ref_views(ids@).contains(other) <==> self@.needs(other, id@) && self@.marks(other),
    {
        proof {
            use_type_invariant(self);
            self.lemma_well_formed();
            self.inner.transitive_dependents.lemma_row_is_short();
            law_top_level_dependents_are_listed(self@, id@);
        }
        let mut tmp = self.inner.top_level_packages.copy();
        match self.find(id) {
            Some(i) => {
                let mut row = self.dependents_at(i);
                row.set(i, false);
                tmp.and(&row);
                assert(tmp@ =~= Seq::new(
                    self@.packages.len(),
                    |j: int| j != i && self@.top_level[j] && self@.reaches(j, i as int),
                ));
            },
            None => {
                tmp.fill(false);
                proof {
                    lemma_places(tmp@, true, tmp@.len());
                    if places(tmp@, true, tmp@.len()).len() > 0 {
                        assert(tmp@[places(tmp@, true, tmp@.len())[0] as int]);
                    }
                    assert(self@.ids_where(tmp@) =~= Seq::<IdView>::empty());
                }
            },
        }
        self.ids_where(&tmp)
    }
}

impl Clone for PackageContextImage {
    fn clone(&self) -> (copy: Self)
        ensures
            copy@ == self@,
    {
        proof {
            use_type_invariant(self);
        }
        PackageContextImage { inner: self.inner.clone() }
    }
}

impl Default for PackageContextImage {
    /// Creates the image of a context with nothing loaded.
    fn default() -> (image: Self)
        ensures
            image@.packages.len() == 0,
            image@.linker.root == crate::linker::empty_instance(),
            image@.linker.instances == Map::<InterfaceView, crate::linker::InstanceView>::empty(),
            image@.hosts == Map::<UnversionedView, InterfaceView>::empty(),
    {
        let inner = PackageContextImageInner {
            packages: Vec::new(),
            transitive_dependencies: PackageFlagsList::new(false, 0),
            transitive_dependents: PackageFlagsList::new(false, 0),
            top_level_packages: Bits::repeat(false, 0),
            package_map: PackageMap::new(),
            linker_packages: Arc::new(HostLinker { linker: Linker::new(), interfaces: HostInterfaces::new() }),
        };
        PackageContextImage::from_inner(inner)
    }
}

} // verus!
