//! What image comes of a resolver that has nothing left to look at, and what holds of it.

use crate::graph::topological;
use crate::hosts::{lemma_needed, needed};
use crate::identifier::{IdView, NameView};
use crate::image::{law_dependents_are_listed, law_top_level_dependents_are_listed};
use crate::image::{lemma_place, lemma_reaches_last_step, lemma_reaches_step, ImageView, ResolvedView};
use crate::resolution::{id_names, law_needs_are_met, law_top_level_is_met, mismatched};
use crate::resolution::{ResolverView, StateView};
use crate::version::{law_match_is_on_the_same_line, version_matches};
use vstd::prelude::*;

verus! {

impl ResolverView {
    /// Whether resolution has come to an end at which all packages are in the graph.
    pub open spec fn at_rest(self) -> bool {
        self.inv() && self.all_wanted() && self.pending.len() == 0 && self.requests.len() == 0
    }

    /// The version and the component of a package in the graph.
    pub open spec fn resolved(self, name: NameView) -> ResolvedView {
        ResolvedView {
            id: IdView { name, version: self.chosen[name].version },
            component: self.chosen[name].state->InGraph_0,
        }
    }

    /// The image of the packages in the graph, in the given order.
    pub open spec fn image_in(self, order: Seq<NameView>) -> ImageView {
        ImageView {
            packages: order.map_values(|name: NameView| self.resolved(name)),
            top_level: order.map_values(|name: NameView| self.chosen[name].exact),
            linker: self.linker,
            hosts: self.hosts,
        }
    }
}

/// The packages of an order of the graph are in the graph and in order.
pub proof fn lemma_ordered(s: ResolverView, order: Seq<NameView>, i: int)
    requires
        s.at_rest(),
        topological(s.graph, order),
        0 <= i < order.len(),
    ensures
        s.graph.contains_key(order[i]),
        s.chosen.contains_key(order[i]),
        s.chosen[order[i]].state is InGraph,
        s.info_ok(order[i]),
        s.node_ok(order[i], s.chosen[order[i]].state->InGraph_0),
        s.image_in(order).packages[i] == s.resolved(order[i]),
        s.image_in(order).top_level[i] == s.chosen[order[i]].exact,
        s.image_in(order).requests(i) == needed(s.hosts, s.chosen[order[i]].state->InGraph_0.imports),
{
    assert(order.to_set().contains(order[i]));
    assert(s.graph.dom().contains(order[i]));
    assert(s.graph.contains_key(order[i]));
}

/// A package of the image depends directly on another exactly if the graph says so.
pub proof fn lemma_image_depends(s: ResolverView, order: Seq<NameView>, i: int, j: int)
    requires
        s.at_rest(),
        topological(s.graph, order),
        0 <= i < order.len(),
        0 <= j < order.len(),
    ensures
        s.image_in(order).depends(i, j) <==> s.graph[order[i]].contains(order[j]),
        s.image_in(order).depends(i, j) ==> j < i,
{
    let image = s.image_in(order);
    lemma_ordered(s, order, i);
    lemma_ordered(s, order, j);
    let names = id_names(image.requests(i));
    assert(s.graph[order[i]] == names.to_set());
    if image.depends(i, j) {
        let k = choose|k: int|
            0 <= k < image.requests(i).len() && (#[trigger] image.requests(i)[k]).name == image.packages[j].id.name;
        assert(names[k] == order[j]);
        assert(names.contains(order[j]));
    }
    if names.to_set().contains(order[j]) {
        let k = names.index_of(order[j]);
        assert(names[k] == image.requests(i)[k].name);
    }
}

/// The image that comes of resolution is valid: its packages have different names, each stands
/// after those on which it depends, all of those are there, and they have versions that satisfy
/// the requests.
pub proof fn law_image_is_valid(s: ResolverView, order: Seq<NameView>)
    requires
        s.at_rest(),
        topological(s.graph, order),
    ensures
        s.image_in(order).valid(),
{
    let image = s.image_in(order);
    assert forall|i: int, j: int| 0 <= i < j < image.packages.len() implies (#[trigger] image.packages[i]).id.name != (
    #[trigger] image.packages[j]).id.name by {
        lemma_ordered(s, order, i);
        lemma_ordered(s, order, j);
    }
    assert forall|i: int| 0 <= i < image.packages.len() implies (#[trigger] image.packages[i]).component.valid() by {
        lemma_ordered(s, order, i);
    }
    assert forall|i: int, k: int|
        0 <= i < image.packages.len() && 0 <= k < image.requests(i).len() implies image.provided(
        i,
        #[trigger] image.requests(i)[k],
    ) by {
        let request = image.requests(i)[k];
        lemma_ordered(s, order, i);
        law_needs_are_met(s, order[i], k);
        assert(s.graph.dom().contains(request.name));
        assert(order.to_set().contains(request.name));
        let j = order.index_of(request.name);
        assert(order[j] == request.name);
        lemma_ordered(s, order, j);
        assert(image.packages[j].id.name == request.name);
        assert(image.depends(i, j));
        lemma_image_depends(s, order, i, j);
    }
}

/// The image that comes of resolution holds every top-level package, in exactly the version in
/// which it was asked for, and marks it as top-level.
pub proof fn law_image_holds_top_level(s: ResolverView, order: Seq<NameView>, i: int)
    requires
        s.at_rest(),
        topological(s.graph, order),
        0 <= i < s.top_level.len(),
    ensures
        s.image_in(order).holds_top_level(s.top_level[i]),
{
    let image = s.image_in(order);
    let id = s.top_level[i];
    law_top_level_is_met(s, i);
    assert(s.graph.dom().contains(id.name));
    assert(order.to_set().contains(id.name));
    let j = order.index_of(id.name);
    assert(order[j] == id.name);
    lemma_ordered(s, order, j);
    assert(id_names(s.top_level)[i] == id.name);
    assert(s.is_top_level(id.name));
    assert(image.packages[j].id =~= id);
}

/// The image that comes of resolution marks no package as top-level but those that were asked for.
pub proof fn law_image_marks_only_top_level(s: ResolverView, order: Seq<NameView>, j: int)
    requires
        s.at_rest(),
        topological(s.graph, order),
        0 <= j < s.image_in(order).packages.len(),
    ensures
        s.image_in(order).top_level[j] <==> s.is_top_level(s.image_in(order).packages[j].id.name),
{
    lemma_ordered(s, order, j);
}

/// All packages in the image that comes of resolution originate from the top-level packages: each
/// is one, or a top-level package depends on it, directly or indirectly.
pub proof fn law_image_originates_from_top_level(s: ResolverView, order: Seq<NameView>, i: int)
    requires
        s.at_rest(),
        topological(s.graph, order),
        0 <= i < s.image_in(order).packages.len(),
    ensures
        s.image_in(order).originates(i),
    decreases order.len() - i,
{
    let image = s.image_in(order);
    lemma_ordered(s, order, i);
    lemma_reaches_step(image, i, i);
    assert(image.reaches(i, i));
    assert(s.wanted(order[i]));
    if !s.is_top_level(order[i]) {
        let other = choose|other: NameView| #[trigger]
            s.graph.contains_key(other) && s.graph[other].contains(order[i]);
        assert(s.graph.dom().contains(other));
        assert(order.to_set().contains(other));
        let k = order.index_of(other);
        assert(order[k] == other);
        lemma_image_depends(s, order, k, i);
        law_image_originates_from_top_level(s, order, k);
        let j = choose|j: int|
            0 <= j < image.packages.len() && image.top_level[j] && #[trigger] image.reaches(j, k);
        lemma_reaches_last_step(image, j, i);
        assert(image.reaches(j, k) && image.depends(k, i));
        assert(image.reaches(j, i));
    }
}

/// A package in the image that needs a top-level package names exactly its version.
pub proof fn law_image_names_top_level_exactly(s: ResolverView, order: Seq<NameView>, i: int)
    requires
        s.at_rest(),
        topological(s.graph, order),
        0 <= i < s.image_in(order).packages.len(),
    ensures
        s.image_in(order).names_exactly(i),
{
    let image = s.image_in(order);
    lemma_ordered(s, order, i);
    assert forall|k: int, j: int|
        #![trigger image.requests(i)[k], image.packages[j]]
        0 <= k < image.requests(i).len() && 0 <= j < image.packages.len() && image.packages[j].id.name
            == image.requests(i)[k].name && image.top_level[j] implies image.packages[j].id.version
        == image.requests(i)[k].version by {
        lemma_ordered(s, order, j);
        law_needs_are_met(s, order[i], k);
    }
}

/// Every package in the image has the identifier and the component that are noted together.
pub proof fn law_image_keeps_pairs(s: ResolverView, order: Seq<NameView>, i: int)
    requires
        s.at_rest(),
        topological(s.graph, order),
        0 <= i < s.image_in(order).packages.len(),
    ensures
        s.noted_pair(s.image_in(order).packages[i].id, s.image_in(order).packages[i].component),
{
    lemma_ordered(s, order, i);
}

/// The host satisfies every import of a package in the image of which it provides some version.
pub proof fn law_image_agrees_with_host(s: ResolverView, order: Seq<NameView>, i: int, k: int)
    requires
        s.at_rest(),
        topological(s.graph, order),
        0 <= i < s.image_in(order).packages.len(),
        0 <= k < s.image_in(order).packages[i].component.imports.len(),
    ensures
        !mismatched(s.image_in(order).hosts, s.image_in(order).packages[i].component.imports[k]),
{
    lemma_ordered(s, order, i);
}

impl ImageView {
    /// Whether the image holds a package, in exactly the given version, and marks it as top-level.
    pub open spec fn holds_top_level(self, id: IdView) -> bool {
        exists|j: int|
            0 <= j < self.packages.len() && (#[trigger] self.packages[j]).id == id && self.top_level[j]
    }

    /// Whether package `i` is top-level, or a top-level package depends on it, directly or indirectly.
    pub open spec fn originates(self, i: int) -> bool {
        exists|j: int| 0 <= j < self.packages.len() && self.top_level[j] && #[trigger] self.reaches(j, i)
    }

    /// Whether the host satisfies every import of package `i` of which it provides some version.
    pub open spec fn agrees_with_host(self, i: int) -> bool {
        forall|k: int|
            0 <= k < self.packages[i].component.imports.len() ==> !mismatched(
                self.hosts,
                #[trigger] self.packages[i].component.imports[k],
            )
    }

    /// Whether package `i` names exactly the versions of the top-level packages that it needs.
    pub open spec fn names_exactly(self, i: int) -> bool {
        forall|k: int, j: int|
            #![trigger self.requests(i)[k], self.packages[j]]
            0 <= k < self.requests(i).len() && 0 <= j < self.packages.len() && self.packages[j].id.name
                == self.requests(i)[k].name && self.top_level[j] ==> self.packages[j].id.version
                == self.requests(i)[k].version
    }

    /// Whether the image is what was asked for with a list of top-level packages: it is valid, it
    /// holds every top-level package in exactly its version, it marks those and no others as
    /// top-level, all its packages originate from them, what needs a top-level package names exactly
    /// its version, and the host satisfies every import of which it provides some version.
    pub open spec fn serves(self, top_level: Seq<IdView>) -> bool {
        &&& self.valid()
        &&& forall|i: int| 0 <= i < top_level.len() ==> self.holds_top_level(#[trigger] top_level[i])
        &&& forall|j: int|
            0 <= j < self.packages.len() ==> #[trigger] self.top_level[j] == id_names(top_level).contains(
                self.packages[j].id.name,
            )
        &&& forall|i: int| 0 <= i < self.packages.len() ==> #[trigger] self.originates(i)
        &&& forall|i: int| 0 <= i < self.packages.len() ==> #[trigger] self.names_exactly(i)
        &&& forall|i: int| 0 <= i < self.packages.len() ==> #[trigger] self.agrees_with_host(i)
    }
}

/// An image that is what was asked for with a list of top-level packages marks exactly the packages in
/// the list as top-level, in exactly their versions.
pub proof fn law_listed_packages_are_marked(image: ImageView, top_level: Seq<IdView>, id: IdView)
    requires
        image.serves(top_level),
    ensures
        image.marks(id) <==> top_level.contains(id),
{
    if image.marks(id) {
        let i = image.place(id)->0;
        assert(image.top_level[i]);
        let k = id_names(top_level).index_of(id.name);
        assert(top_level[k].name == id.name);
        assert(image.holds_top_level(top_level[k]));
        let j = choose|j: int|
            0 <= j < image.packages.len() && (#[trigger] image.packages[j]).id == top_level[k] && image.top_level[j];
        if i < j {
            assert(image.packages[i].id.name != image.packages[j].id.name);
        } else if j < i {
            assert(image.packages[j].id.name != image.packages[i].id.name);
        }
    }
    if top_level.contains(id) {
        let k = top_level.index_of(id);
        assert(image.holds_top_level(top_level[k]));
        let j = choose|j: int|
            0 <= j < image.packages.len() && (#[trigger] image.packages[j]).id == id && image.top_level[j];
        lemma_place(image, j);
    }
}

/// In an image that is what was asked for with a list of top-level packages, the top-level dependents
/// of a package are those of its dependents that are in the list.
pub proof fn law_top_level_dependents_are_in_list(
    image: ImageView,
    top_level: Seq<IdView>,
    id: IdView,
    other: IdView,
)
    requires
        image.serves(top_level),
        image.packages.len() <= usize::MAX,
    ensures
        image.top_level_dependents_of(id).contains(other) <==> top_level.contains(other)
            && image.dependents_of(id).contains(other),
{
    law_listed_packages_are_marked(image, top_level, other);
    law_dependents_are_listed(image, id);
    law_top_level_dependents_are_listed(image, id);
}

/// In an image that is what was asked for with a list of top-level packages, every package outside the
/// list has a top-level dependent: nothing is in the image that no package in the list needs.
pub proof fn law_packages_outside_list_are_needed(image: ImageView, top_level: Seq<IdView>, id: IdView)
    requires
        image.serves(top_level),
        image.packages.len() <= usize::MAX,
        image.place(id) is Some,
        !top_level.contains(id),
    ensures
        image.top_level_dependents_of(id).len() > 0,
{
    let i = image.place(id)->0;
    assert(image.originates(i));
    let j = choose|j: int|
        0 <= j < image.packages.len() && image.top_level[j] && #[trigger] image.reaches(j, i);
    let other = image.packages[j].id;
    lemma_place(image, j);
    law_listed_packages_are_marked(image, top_level, id);
    law_top_level_dependents_are_listed(image, id);
    assert(image.top_level_dependents_of(id).contains(other));
}

/// The image of packages in the graph has them in the given order, each with the version and the component
/// that are noted of it, and marks those as top-level that must be matched exactly.
pub proof fn law_image_is_made_of_what_is_noted(s: ResolverView, order: Seq<NameView>, i: int)
    requires
        0 <= i < order.len(),
    ensures
        s.image_in(order).packages.len() == order.len(),
        s.image_in(order).top_level.len() == order.len(),
        s.image_in(order).linker == s.linker,
        s.image_in(order).hosts == s.hosts,
        s.image_in(order).packages[i].id.name == order[i],
        s.image_in(order).packages[i].id.version == s.chosen[order[i]].version,
        s.chosen[order[i]].state matches StateView::InGraph(component) ==> s.image_in(order).packages[i].component
            == component,
        s.image_in(order).top_level[i] == s.chosen[order[i]].exact,
        s.at_rest() ==> s.pending.len() == 0 && s.requests.len() == 0,
{
}

/// An image that is what was asked for holds every package that was asked for, in exactly its version, and
/// marks exactly the packages of those names as top-level. Every package is one of them, or one of them
/// reaches it.
pub proof fn law_served_image_holds_what_was_asked_for(image: ImageView, top_level: Seq<IdView>, i: int, j: int)
    requires
        image.serves(top_level),
        0 <= j < image.packages.len(),
    ensures
        0 <= i < top_level.len() ==> exists|m: int|
            0 <= m < image.packages.len() && (#[trigger] image.packages[m]).id == top_level[i] && image.top_level[m],
        image.top_level[j] <==> exists|m: int|
            0 <= m < top_level.len() && (#[trigger] top_level[m]).name == image.packages[j].id.name,
        exists|m: int| 0 <= m < image.packages.len() && image.top_level[m] && #[trigger] image.reaches(m, j),
        image.valid(),
{
    if 0 <= i < top_level.len() {
        assert(image.holds_top_level(top_level[i]));
    }
    let names = id_names(top_level);
    let name = image.packages[j].id.name;
    if names.contains(name) {
        let m = names.index_of(name);
        assert(top_level[m].name == name);
    }
    if exists|m: int| 0 <= m < top_level.len() && (#[trigger] top_level[m]).name == name {
        let m = choose|m: int| 0 <= m < top_level.len() && (#[trigger] top_level[m]).name == name;
        assert(names[m] == name);
    }
    assert(image.top_level[j] == names.contains(name));
    assert(image.originates(j));
}

/// In an image that is what was asked for, every import of which the host provides some version names no
/// version, or the host's version has the imported major and minor number and is not smaller.
pub proof fn law_served_image_agrees_with_the_host(image: ImageView, top_level: Seq<IdView>, i: int, k: int)
    requires
        image.serves(top_level),
        0 <= i < image.packages.len(),
        0 <= k < image.packages[i].component.imports.len(),
        image.hosts.contains_key(
            (
                image.packages[i].component.imports[k].package.name.0,
                image.packages[i].component.imports[k].package.name.1,
                image.packages[i].component.imports[k].name,
            ),
        ),
    ensures
        ({
            let import = image.packages[i].component.imports[k];
            let host = image.hosts[(import.package.name.0, import.package.name.1, import.name)];
            &&& version_matches(import.package.version, host.package.version)
            &&& import.package.version matches Some(a) ==> {
                &&& host.package.version matches Some(b)
                &&& a.major == b.major
                &&& a.minor == b.minor
                &&& a.patch <= b.patch
            }
        }),
{
    let import = image.packages[i].component.imports[k];
    assert(image.agrees_with_host(i));
    assert(!mismatched(image.hosts, image.packages[i].component.imports[k]));
    let host = image.hosts[import.unversioned()];
    if import.package.version is Some && host.package.version is Some {
        law_match_is_on_the_same_line(import.package.version->0, host.package.version->0);
    }
}

/// In an image that is what was asked for, a package that imports an interface that the host does not
/// provide from a top-level package names exactly the version of that package.
pub proof fn law_served_image_names_top_level_versions(
    image: ImageView,
    top_level: Seq<IdView>,
    i: int,
    k: int,
    j: int,
)
    requires
        image.serves(top_level),
        0 <= i < image.packages.len(),
        0 <= j < image.packages.len(),
        0 <= k < image.packages[i].component.imports.len(),
        !image.hosts.contains_key(
            (
                image.packages[i].component.imports[k].package.name.0,
                image.packages[i].component.imports[k].package.name.1,
                image.packages[i].component.imports[k].name,
            ),
        ),
        image.packages[j].id.name == image.packages[i].component.imports[k].package.name,
        top_level.contains(image.packages[j].id),
    ensures
        image.packages[i].component.imports[k].package.version == image.packages[j].id.version,
{
    let imports = image.packages[i].component.imports;
    lemma_needed(image.hosts, imports);
    assert(!image.hosts.contains_key(imports[k].unversioned()));
    assert(image.requests(i).contains(imports[k].package));
    let r = image.requests(i).index_of(imports[k].package);
    law_listed_packages_are_marked(image, top_level, image.packages[j].id);
    lemma_place(image, j);
    assert(image.names_exactly(i));
    assert(image.packages[j].id.name == image.requests(i)[r].name);
}

/// The image that comes of resolution is what was asked for.
pub proof fn law_image_serves(s: ResolverView, order: Seq<NameView>)
    requires
        s.at_rest(),
        topological(s.graph, order),
    ensures
        s.image_in(order).serves(s.top_level),
{
    let image = s.image_in(order);
    law_image_is_valid(s, order);
    assert forall|i: int| 0 <= i < s.top_level.len() implies image.holds_top_level(#[trigger] s.top_level[i]) by {
        law_image_holds_top_level(s, order, i);
    }
    assert forall|j: int| 0 <= j < image.packages.len() implies #[trigger] image.top_level[j] == id_names(
        s.top_level,
    ).contains(image.packages[j].id.name) by {
        law_image_marks_only_top_level(s, order, j);
    }
    assert forall|i: int| 0 <= i < image.packages.len() implies #[trigger] image.originates(i) by {
        law_image_originates_from_top_level(s, order, i);
    }
    assert forall|i: int| 0 <= i < image.packages.len() implies #[trigger] image.names_exactly(i) by {
        law_image_names_top_level_exactly(s, order, i);
    }
    assert forall|i: int| 0 <= i < image.packages.len() implies #[trigger] image.agrees_with_host(i) by {
        assert forall|k: int| 0 <= k < image.packages[i].component.imports.len() implies !mismatched(
            image.hosts,
            #[trigger] image.packages[i].component.imports[k],
        ) by {
            law_image_agrees_with_host(s, order, i, k);
        }
    }
}

} // verus!
