//! Which packages stay loaded, and which are loaded and unloaded, when a context moves from one
//! image to another.

use crate::flags::{lemma_places, places};
use crate::identifier::IdView;
use crate::image::{lemma_depends_on_earlier, lemma_reaches_last_step, lemma_reaches_step};
use crate::image::{law_names_are_different, ImageView, ResolvedView};
use vstd::prelude::*;

verus! {

/// Whether a package of the old image has the name of package `i` of the new image, but another
/// version.
pub open spec fn changed_from(new: ImageView, old_image: ImageView, i: int, o: int) -> bool {
    &&& 0 <= o < old_image.packages.len()
    &&& old_image.packages[o].id.name == new.packages[i].id.name
    &&& old_image.packages[o].id != new.packages[i].id
}

/// Whether package `o` of the old image is, or depends on, a package of which one of the first
/// `count` packages of the new image is another version.
pub open spec fn dead(new: ImageView, old_image: ImageView, count: int, o: int) -> bool {
    exists|j: int, p: int|
        0 <= j < count && #[trigger] changed_from(new, old_image, j, p) && old_image.reaches(o, p)
}

/// Whether package `i` of the new image stays loaded: the old image holds it, and neither it nor what
/// it depends on there has another version in the new image up to package `i`.
pub open spec fn kept(new: ImageView, old_image: ImageView, i: int) -> bool {
    exists|o: int|
        0 <= o < old_image.packages.len() && (#[trigger] old_image.packages[o]).id.name
            == new.packages[i].id.name && !dead(new, old_image, i + 1, o)
}

/// Whether package `o` of the old image stays loaded.
pub open spec fn stays(new: ImageView, old_image: ImageView, o: int) -> bool {
    exists|i: int|
        0 <= i < new.packages.len() && (#[trigger] new.packages[i]).id.name == old_image.packages[o].id.name
            && kept(new, old_image, i)
}

/// For each package of the new image, whether it stays loaded.
pub open spec fn kept_flags(new: ImageView, old_image: ImageView) -> Seq<bool> {
    Seq::new(new.packages.len(), |i: int| kept(new, old_image, i))
}

/// For each package of the old image, whether it stays loaded.
pub open spec fn stays_flags(new: ImageView, old_image: ImageView) -> Seq<bool> {
    Seq::new(old_image.packages.len(), |o: int| stays(new, old_image, o))
}

/// The places in the new image of the packages that must be loaded, in the order of the image.
pub open spec fn load_places(new: ImageView, old_image: ImageView) -> Seq<usize> {
    places(kept_flags(new, old_image), false, new.packages.len())
}

/// The places in the old image of the packages that must be unloaded, in reverse order of the image.
pub open spec fn unload_places(new: ImageView, old_image: ImageView) -> Seq<usize> {
    places(stays_flags(new, old_image), false, old_image.packages.len()).reverse()
}

/// The packages that must be loaded, in the order in which they are.
pub open spec fn to_load(new: ImageView, old_image: ImageView) -> Seq<ResolvedView> {
    load_places(new, old_image).map_values(|i: usize| new.packages[i as int])
}

/// The identifiers of the packages that must be unloaded, in the order in which they are.
pub open spec fn to_unload(new: ImageView, old_image: ImageView) -> Seq<IdView> {
    unload_places(new, old_image).map_values(|o: usize| old_image.packages[o as int].id)
}

/// A package that stays loaded has the same identifier in both images.
pub proof fn law_kept_is_unchanged(new: ImageView, old_image: ImageView, i: int, o: int)
    requires
        new.valid(),
        old_image.valid(),
        0 <= i < new.packages.len(),
        0 <= o < old_image.packages.len(),
        old_image.packages[o].id.name == new.packages[i].id.name,
        kept(new, old_image, i),
    ensures
        old_image.packages[o].id == new.packages[i].id,
        stays(new, old_image, o),
        !dead(new, old_image, i + 1, o),
{
    let p = choose|p: int|
        0 <= p < old_image.packages.len() && (#[trigger] old_image.packages[p]).id.name
            == new.packages[i].id.name && !dead(new, old_image, i + 1, p);
    assert(p == o) by {
        if p < o {
            assert(old_image.packages[p].id.name != old_image.packages[o].id.name);
        } else if o < p {
            assert(old_image.packages[o].id.name != old_image.packages[p].id.name);
        }
    }
    if old_image.packages[o].id != new.packages[i].id {
        lemma_reaches_step(old_image, o, o);
        assert(changed_from(new, old_image, i, o));
        assert(dead(new, old_image, i + 1, o));
    }
}

/// A package of the old image stays loaded exactly if the package of its name in the new image does.
pub proof fn lemma_stays(new: ImageView, old_image: ImageView, i: int, o: int)
    requires
        new.valid(),
        0 <= i < new.packages.len(),
        0 <= o < old_image.packages.len(),
        old_image.packages[o].id.name == new.packages[i].id.name,
    ensures
        stays(new, old_image, o) <==> kept(new, old_image, i),
{
    if stays(new, old_image, o) {
        let j = choose|j: int|
            0 <= j < new.packages.len() && (#[trigger] new.packages[j]).id.name == old_image.packages[o].id.name
                && kept(new, old_image, j);
        assert(i == j) by {
            if i < j {
                assert(new.packages[i].id.name != new.packages[j].id.name);
            } else if j < i {
                assert(new.packages[j].id.name != new.packages[i].id.name);
            }
        }
    }
}

/// Every package of the new image stays loaded or is loaded, and not both.
pub proof fn law_all_packages_are_kept_or_loaded(new: ImageView, old_image: ImageView, i: int)
    requires
        0 <= i < new.packages.len() <= usize::MAX,
    ensures
        kept(new, old_image, i) <==> !load_places(new, old_image).contains(i as usize),
{
    let flags = kept_flags(new, old_image);
    lemma_places(flags, false, flags.len());
    let loads = load_places(new, old_image);
    if loads.contains(i as usize) {
        let k = loads.index_of(i as usize);
        assert(!flags[loads[k] as int]);
    }
    if !kept(new, old_image, i) {
        assert(!flags[i]);
    }
}

/// Every package of the old image stays loaded or is unloaded, and not both.
pub proof fn law_all_packages_stay_or_are_unloaded(new: ImageView, old_image: ImageView, o: int)
    requires
        0 <= o < old_image.packages.len() <= usize::MAX,
    ensures
        stays(new, old_image, o) <==> !unload_places(new, old_image).contains(o as usize),
{
    let flags = stays_flags(new, old_image);
    lemma_places(flags, false, flags.len());
    let list = places(flags, false, flags.len());
    let unloads = unload_places(new, old_image);
    if unloads.contains(o as usize) {
        let k = unloads.index_of(o as usize);
        assert(unloads[k] == list[list.len() - 1 - k]);
        assert(!flags[list[list.len() - 1 - k] as int]);
    }
    if !stays(new, old_image, o) {
        assert(!flags[o]);
        assert(list.contains(o as usize));
        let k = list.index_of(o as usize);
        assert(unloads[list.len() - 1 - k] == o as usize);
    }
}

/// No package is unloaded twice, and a package is unloaded before those on which it depends.
pub proof fn law_dependents_are_unloaded_first(new: ImageView, old_image: ImageView, k: int, l: int)
    requires
        old_image.valid(),
        old_image.packages.len() <= usize::MAX,
        0 <= k < unload_places(new, old_image).len(),
        0 <= l < unload_places(new, old_image).len(),
        k != l,
    ensures
        unload_places(new, old_image)[k] != unload_places(new, old_image)[l],
        to_unload(new, old_image)[k].name != to_unload(new, old_image)[l].name,
        old_image.depends(
            unload_places(new, old_image)[k] as int,
            unload_places(new, old_image)[l] as int,
        ) ==> k < l,
{
    let flags = stays_flags(new, old_image);
    lemma_places(flags, false, flags.len());
    let list = places(flags, false, flags.len());
    let unloads = unload_places(new, old_image);
    let last = list.len() - 1;
    assert(unloads[k] == list[last - k] && unloads[l] == list[last - l]);
    let a = unloads[k] as int;
    let b = unloads[l] as int;
    assert(list[last - k] < flags.len() && list[last - l] < flags.len());
    if k < l {
        assert(list[last - l] < list[last - k]);
        assert(old_image.packages[b].id.name != old_image.packages[a].id.name);
    } else {
        assert(list[last - k] < list[last - l]);
        assert(old_image.packages[a].id.name != old_image.packages[b].id.name);
    }
    if old_image.depends(a, b) {
        lemma_depends_on_earlier(old_image, a, b);
    }
}

/// No package is loaded twice, and a package is loaded after those on which it depends, if they are
/// loaded and do not stay.
pub proof fn law_dependencies_are_loaded_first(new: ImageView, old_image: ImageView, k: int, l: int)
    requires
        new.valid(),
        new.packages.len() <= usize::MAX,
        0 <= k < load_places(new, old_image).len(),
        0 <= l < load_places(new, old_image).len(),
        k != l,
    ensures
        load_places(new, old_image)[k] != load_places(new, old_image)[l],
        to_load(new, old_image)[k].id.name != to_load(new, old_image)[l].id.name,
        new.depends(
            load_places(new, old_image)[k] as int,
            load_places(new, old_image)[l] as int,
        ) ==> l < k,
{
    let flags = kept_flags(new, old_image);
    lemma_places(flags, false, flags.len());
    let loads = load_places(new, old_image);
    let a = loads[k] as int;
    let b = loads[l] as int;
    assert(a < flags.len() && b < flags.len());
    if k < l {
        assert(loads[k] < loads[l]);
        assert(new.packages[a].id.name != new.packages[b].id.name);
    } else {
        assert(loads[l] < loads[k]);
        assert(new.packages[b].id.name != new.packages[a].id.name);
    }
    if new.depends(a, b) {
        lemma_depends_on_earlier(new, a, b);
    }
}

/// Whether a package that has the same identifier in both images needs in the new image what it
/// needed in the old one.
pub open spec fn needs_carry_over(new: ImageView, old_image: ImageView) -> bool {
    forall|i: int, o: int, p: int|
        #![trigger new.packages[i], old_image.depends(o, p)]
        0 <= i < new.packages.len() && 0 <= o < old_image.packages.len() && 0 <= p < old_image.packages.len()
            && new.packages[i].id == old_image.packages[o].id && old_image.depends(o, p) ==> exists|k: int|
            0 <= k < new.requests(i).len() && (#[trigger] new.requests(i)[k]).name
                == old_image.packages[p].id.name
}

/// A package that stays loaded depends only on packages that stay loaded, if packages that both images
/// hold need in the new image what they needed in the old one.
pub proof fn law_kept_depends_on_kept(new: ImageView, old_image: ImageView, o: int, p: int)
    requires
        new.valid(),
        old_image.valid(),
        needs_carry_over(new, old_image),
        0 <= o < old_image.packages.len(),
        0 <= p < old_image.packages.len(),
        stays(new, old_image, o),
        old_image.depends(o, p),
    ensures
        stays(new, old_image, p),
{
    let i = choose|i: int|
        0 <= i < new.packages.len() && (#[trigger] new.packages[i]).id.name == old_image.packages[o].id.name
            && kept(new, old_image, i);
    law_kept_is_unchanged(new, old_image, i, o);
    let k = choose|k: int|
        0 <= k < new.requests(i).len() && (#[trigger] new.requests(i)[k]).name == old_image.packages[p].id.name;
    assert(new.provided(i, new.requests(i)[k]));
    let m = choose|m: int| 0 <= m < i && (#[trigger] new.packages[m]).id.name == new.requests(i)[k].name;
    lemma_reaches_step(old_image, p, p);
    lemma_reaches_step(old_image, o, p);
    assert(old_image.reaches(o, p));
    if dead(new, old_image, m + 1, p) {
        let (j, q) = choose|j: int, q: int|
            0 <= j < m + 1 && #[trigger] changed_from(new, old_image, j, q) && old_image.reaches(p, q);
        lemma_reaches_step(old_image, o, q);
        assert(old_image.depends(o, p) && old_image.reaches(p, q));
        assert(old_image.reaches(o, q));
        assert(dead(new, old_image, i + 1, o));
    }
    assert(kept(new, old_image, m));
}

/// If a package is unloaded, all that depend on it are, if packages that both images hold need in the
/// new image what they needed in the old one.
pub proof fn law_dependents_of_unloaded_are_unloaded(new: ImageView, old_image: ImageView, o: int, p: int)
    requires
        new.valid(),
        old_image.valid(),
        old_image.packages.len() <= usize::MAX,
        needs_carry_over(new, old_image),
        0 <= o < old_image.packages.len(),
        0 <= p < old_image.packages.len(),
        unload_places(new, old_image).contains(p as usize),
        old_image.reaches(o, p),
    ensures
        unload_places(new, old_image).contains(o as usize),
    decreases old_image.packages.len() - p,
{
    law_all_packages_stay_or_are_unloaded(new, old_image, o);
    law_all_packages_stay_or_are_unloaded(new, old_image, p);
    if o != p {
        lemma_reaches_last_step(old_image, o, p);
        let k = choose|k: int|
            0 <= k < old_image.packages.len() && old_image.reaches(o, k) && #[trigger] old_image.depends(k, p);
        lemma_depends_on_earlier(old_image, k, p);
        if stays(new, old_image, k) {
            law_kept_depends_on_kept(new, old_image, k, p);
        }
        law_all_packages_stay_or_are_unloaded(new, old_image, k);
        law_dependents_of_unloaded_are_unloaded(new, old_image, o, k);
    }
}

/// A package of the new image stays loaded exactly if the old image holds it under the same identifier,
/// and no package up to it in the new image is another version of a package that it reaches in the old one.
proof fn lemma_kept_by_identifiers(new: ImageView, old_image: ImageView, i: int)
    requires
        new.valid(),
        old_image.valid(),
        0 <= i < new.packages.len(),
    ensures
        kept(new, old_image, i) <==> exists|o: int|
            0 <= o < old_image.packages.len() && (#[trigger] old_image.packages[o]).id == new.packages[i].id && (
            forall|j: int, p: int|
                #![trigger new.packages[j], old_image.packages[p]]
                0 <= j <= i && 0 <= p < old_image.packages.len() && old_image.reaches(o, p)
                    && new.packages[j].id.name == old_image.packages[p].id.name ==> new.packages[j].id
                    == old_image.packages[p].id),
{
    if kept(new, old_image, i) {
        let o = choose|o: int|
            0 <= o < old_image.packages.len() && (#[trigger] old_image.packages[o]).id.name
                == new.packages[i].id.name && !dead(new, old_image, i + 1, o);
        law_kept_is_unchanged(new, old_image, i, o);
        assert forall|j: int, p: int|
            #![trigger new.packages[j], old_image.packages[p]]
            0 <= j <= i && 0 <= p < old_image.packages.len() && old_image.reaches(o, p)
                && new.packages[j].id.name == old_image.packages[p].id.name implies new.packages[j].id
            == old_image.packages[p].id by {
            if new.packages[j].id != old_image.packages[p].id {
                assert(changed_from(new, old_image, j, p));
            }
        }
    }
    if exists|o: int|
        0 <= o < old_image.packages.len() && (#[trigger] old_image.packages[o]).id == new.packages[i].id && (
        forall|j: int, p: int|
            #![trigger new.packages[j], old_image.packages[p]]
            0 <= j <= i && 0 <= p < old_image.packages.len() && old_image.reaches(o, p) && new.packages[j].id.name
                == old_image.packages[p].id.name ==> new.packages[j].id == old_image.packages[p].id) {
        let o = choose|o: int|
            0 <= o < old_image.packages.len() && (#[trigger] old_image.packages[o]).id == new.packages[i].id && (
            forall|j: int, p: int|
                #![trigger new.packages[j], old_image.packages[p]]
                0 <= j <= i && 0 <= p < old_image.packages.len() && old_image.reaches(o, p)
                    && new.packages[j].id.name == old_image.packages[p].id.name ==> new.packages[j].id
                    == old_image.packages[p].id);
        if dead(new, old_image, i + 1, o) {
            let (j, p) = choose|j: int, p: int|
                0 <= j < i + 1 && #[trigger] changed_from(new, old_image, j, p) && old_image.reaches(o, p);
            assert(new.packages[j].id.name == old_image.packages[p].id.name);
        }
        assert(old_image.packages[o].id.name == new.packages[i].id.name);
    }
}

/// A package of the new image is among those to load exactly if it does not stay loaded, and a package of
/// the old image is among those to unload exactly if it does not stay loaded.
proof fn lemma_lists_go_by_places(new: ImageView, old_image: ImageView)
    requires
        new.valid(),
        old_image.valid(),
        new.packages.len() <= usize::MAX,
        old_image.packages.len() <= usize::MAX,
    ensures
        forall|i: int|
            0 <= i < new.packages.len() ==> (to_load(new, old_image).contains(#[trigger] new.packages[i]) <==> !kept(
                new,
                old_image,
                i,
            )),
        forall|o: int|
            0 <= o < old_image.packages.len() ==> (to_unload(new, old_image).contains(
                (#[trigger] old_image.packages[o]).id,
            ) <==> !stays(new, old_image, o)),
        forall|k: int|
            0 <= k < to_load(new, old_image).len() ==> load_places(new, old_image)[k] < new.packages.len()
                && #[trigger] to_load(new, old_image)[k] == new.packages[load_places(new, old_image)[k] as int],
        forall|k: int|
            0 <= k < to_unload(new, old_image).len() ==> unload_places(new, old_image)[k]
                < old_image.packages.len() && #[trigger] to_unload(new, old_image)[k]
                == old_image.packages[unload_places(new, old_image)[k] as int].id,
{
    let loads = load_places(new, old_image);
    let unloads = unload_places(new, old_image);
    let flags = kept_flags(new, old_image);
    lemma_places(flags, false, flags.len());
    let marks = stays_flags(new, old_image);
    lemma_places(marks, false, marks.len());
    let list = places(marks, false, marks.len());
    assert forall|k: int| 0 <= k < unloads.len() implies (#[trigger] unloads[k]) < old_image.packages.len() by {
        assert(unloads[k] == list[list.len() - 1 - k]);
        assert(list[list.len() - 1 - k] < marks.len());
    }
    assert forall|i: int| 0 <= i < new.packages.len() implies (to_load(new, old_image).contains(
        #[trigger] new.packages[i],
    ) <==> !kept(new, old_image, i)) by {
        law_all_packages_are_kept_or_loaded(new, old_image, i);
        if loads.contains(i as usize) {
            assert(to_load(new, old_image)[loads.index_of(i as usize)] == new.packages[i]);
        }
        if to_load(new, old_image).contains(new.packages[i]) {
            let k = to_load(new, old_image).index_of(new.packages[i]);
            assert(new.packages[loads[k] as int] == new.packages[i]);
            if loads[k] as int != i {
                law_names_are_different(new, loads[k] as int, i);
            }
            assert(loads.contains(i as usize));
        }
    }
    assert forall|o: int| 0 <= o < old_image.packages.len() implies (to_unload(new, old_image).contains(
        (#[trigger] old_image.packages[o]).id,
    ) <==> !stays(new, old_image, o)) by {
        law_all_packages_stay_or_are_unloaded(new, old_image, o);
        if unloads.contains(o as usize) {
            assert(to_unload(new, old_image)[unloads.index_of(o as usize)] == old_image.packages[o].id);
        }
        if to_unload(new, old_image).contains(old_image.packages[o].id) {
            let k = to_unload(new, old_image).index_of(old_image.packages[o].id);
            assert(old_image.packages[unloads[k] as int].id == old_image.packages[o].id);
            if unloads[k] as int != o {
                law_names_are_different(old_image, unloads[k] as int, o);
            }
            assert(unloads.contains(o as usize));
        }
    }
}

/// A package is restarted only for a reason. If both images hold it under the same identifier, and of no
/// package that it reaches in the old image the new image holds another version, then it is neither loaded
/// nor unloaded, whatever else changes.
pub proof fn law_unaffected_packages_are_left_alone(new: ImageView, old_image: ImageView, i: int, o: int)
    requires
        new.valid(),
        old_image.valid(),
        new.packages.len() <= usize::MAX,
        old_image.packages.len() <= usize::MAX,
        0 <= i < new.packages.len(),
        0 <= o < old_image.packages.len(),
        new.packages[i].id == old_image.packages[o].id,
        forall|j: int, p: int|
            #![trigger new.packages[j], old_image.packages[p]]
            0 <= j < new.packages.len() && 0 <= p < old_image.packages.len() && old_image.reaches(o, p)
                && new.packages[j].id.name == old_image.packages[p].id.name ==> new.packages[j].id
                == old_image.packages[p].id,
    ensures
        !to_load(new, old_image).contains(new.packages[i]),
        !to_unload(new, old_image).contains(old_image.packages[o].id),
{
    lemma_lists_go_by_places(new, old_image);
    lemma_kept_by_identifiers(new, old_image, i);
    lemma_stays(new, old_image, i, o);
}

/// A package is unloaded only if the new image does not hold a package of its name, or if it holds another
/// version of the package or of one that it reaches in the old image.
pub proof fn law_only_affected_packages_are_unloaded(new: ImageView, old_image: ImageView, o: int)
    requires
        new.valid(),
        old_image.valid(),
        new.packages.len() <= usize::MAX,
        old_image.packages.len() <= usize::MAX,
        0 <= o < old_image.packages.len(),
        to_unload(new, old_image).contains(old_image.packages[o].id),
    ensures
        (forall|i: int|
            0 <= i < new.packages.len() ==> (#[trigger] new.packages[i]).id.name
                != old_image.packages[o].id.name) || (exists|j: int, p: int|
            #![trigger new.packages[j], old_image.packages[p]]
            0 <= j < new.packages.len() && 0 <= p < old_image.packages.len() && old_image.reaches(o, p)
                && new.packages[j].id.name == old_image.packages[p].id.name && new.packages[j].id
                != old_image.packages[p].id),
{
    if exists|i: int|
        0 <= i < new.packages.len() && (#[trigger] new.packages[i]).id.name == old_image.packages[o].id.name {
        let i = choose|i: int|
            0 <= i < new.packages.len() && (#[trigger] new.packages[i]).id.name == old_image.packages[o].id.name;
        lemma_reaches_step(old_image, o, o);
        if new.packages[i].id == old_image.packages[o].id {
            if forall|j: int, p: int|
                #![trigger new.packages[j], old_image.packages[p]]
                0 <= j < new.packages.len() && 0 <= p < old_image.packages.len() && old_image.reaches(o, p)
                    && new.packages[j].id.name == old_image.packages[p].id.name ==> new.packages[j].id
                    == old_image.packages[p].id {
                law_unaffected_packages_are_left_alone(new, old_image, i, o);
            }
        }
    }
}

/// A package of the new image stays loaded exactly if the old image holds it under the same identifier,
/// and the packages up to it in the new image hold no other version of a package that it reaches in the
/// old one. Else it is loaded, and what the old image holds under its name is unloaded.
pub proof fn law_plan_goes_by_identifiers(new: ImageView, old_image: ImageView, i: int)
    requires
        new.valid(),
        old_image.valid(),
        new.packages.len() <= usize::MAX,
        old_image.packages.len() <= usize::MAX,
        0 <= i < new.packages.len(),
    ensures
        !to_load(new, old_image).contains(new.packages[i]) <==> exists|o: int|
            0 <= o < old_image.packages.len() && (#[trigger] old_image.packages[o]).id == new.packages[i].id && (
            forall|j: int, p: int|
                #![trigger new.packages[j], old_image.packages[p]]
                0 <= j <= i && 0 <= p < old_image.packages.len() && old_image.reaches(o, p)
                    && new.packages[j].id.name == old_image.packages[p].id.name ==> new.packages[j].id
                    == old_image.packages[p].id),
        forall|o: int|
            0 <= o < old_image.packages.len() && (#[trigger] old_image.packages[o]).id.name
                == new.packages[i].id.name ==> (to_unload(new, old_image).contains(old_image.packages[o].id)
                <==> to_load(new, old_image).contains(new.packages[i])),
{
    lemma_lists_go_by_places(new, old_image);
    lemma_kept_by_identifiers(new, old_image, i);
    assert forall|o: int|
        0 <= o < old_image.packages.len() && (#[trigger] old_image.packages[o]).id.name == new.packages[i].id.name implies (
    to_unload(new, old_image).contains(old_image.packages[o].id) <==> to_load(new, old_image).contains(
        new.packages[i],
    )) by {
        lemma_stays(new, old_image, i, o);
    }
}

/// A package whose name the new image does not hold is unloaded, and one whose version changes is unloaded
/// and loaded in the new version.
pub proof fn law_changed_packages_are_replaced(new: ImageView, old_image: ImageView, o: int)
    requires
        new.valid(),
        old_image.valid(),
        new.packages.len() <= usize::MAX,
        old_image.packages.len() <= usize::MAX,
        0 <= o < old_image.packages.len(),
    ensures
        (forall|i: int|
            0 <= i < new.packages.len() ==> (#[trigger] new.packages[i]).id.name
                != old_image.packages[o].id.name) ==> to_unload(new, old_image).contains(old_image.packages[o].id),
        forall|i: int|
            0 <= i < new.packages.len() && (#[trigger] new.packages[i]).id.name == old_image.packages[o].id.name
                && new.packages[i].id != old_image.packages[o].id ==> to_unload(new, old_image).contains(
                old_image.packages[o].id,
            ) && to_load(new, old_image).contains(new.packages[i]),
{
    lemma_lists_go_by_places(new, old_image);
    assert forall|i: int|
        0 <= i < new.packages.len() && (#[trigger] new.packages[i]).id.name == old_image.packages[o].id.name
            && new.packages[i].id != old_image.packages[o].id implies to_unload(new, old_image).contains(
        old_image.packages[o].id,
    ) && to_load(new, old_image).contains(new.packages[i]) by {
        lemma_stays(new, old_image, i, o);
        if kept(new, old_image, i) {
            law_kept_is_unchanged(new, old_image, i, o);
        }
    }
}

/// Only packages of the new image are loaded, and only packages of the old image are unloaded, each once.
/// Packages are loaded in the order of the new image and unloaded against the order of the old one.
pub proof fn law_plan_follows_the_images(new: ImageView, old_image: ImageView, k: int, l: int)
    requires
        new.valid(),
        old_image.valid(),
        new.packages.len() <= usize::MAX,
        old_image.packages.len() <= usize::MAX,
        0 <= k < l,
    ensures
        l < to_load(new, old_image).len() ==> exists|i: int, j: int|
            0 <= i < j < new.packages.len() && #[trigger] new.packages[i] == to_load(new, old_image)[k]
                && #[trigger] new.packages[j] == to_load(new, old_image)[l],
        l < to_unload(new, old_image).len() ==> exists|o: int, p: int|
            0 <= p < o < old_image.packages.len() && (#[trigger] old_image.packages[o]).id == to_unload(
                new,
                old_image,
            )[k] && (#[trigger] old_image.packages[p]).id == to_unload(new, old_image)[l],
        k < to_load(new, old_image).len() ==> exists|i: int|
            0 <= i < new.packages.len() && #[trigger] new.packages[i] == to_load(new, old_image)[k],
        k < to_unload(new, old_image).len() ==> exists|o: int|
            0 <= o < old_image.packages.len() && (#[trigger] old_image.packages[o]).id == to_unload(
                new,
                old_image,
            )[k],
{
    lemma_lists_go_by_places(new, old_image);
    let loads = load_places(new, old_image);
    let unloads = unload_places(new, old_image);
    let flags = kept_flags(new, old_image);
    lemma_places(flags, false, flags.len());
    let marks = stays_flags(new, old_image);
    lemma_places(marks, false, marks.len());
    let list = places(marks, false, marks.len());
    if k < loads.len() {
        assert(new.packages[loads[k] as int] == to_load(new, old_image)[k]);
    }
    if k < unloads.len() {
        assert(old_image.packages[unloads[k] as int].id == to_unload(new, old_image)[k]);
    }
    if l < loads.len() {
        assert(loads[k] < loads[l]);
        assert(new.packages[loads[l] as int] == to_load(new, old_image)[l]);
    }
    if l < unloads.len() {
        let last = list.len() - 1;
        assert(unloads[k] == list[last - k] && unloads[l] == list[last - l]);
        assert(list[last - l] < list[last - k]);
        assert(old_image.packages[unloads[l] as int].id == to_unload(new, old_image)[l]);
    }
}

/// Moving to the image that a context already has loads and unloads nothing.
pub proof fn law_same_image_changes_nothing(image: ImageView)
    requires
        image.valid(),
        image.packages.len() <= usize::MAX,
    ensures
        to_load(image, image).len() == 0,
        to_unload(image, image).len() == 0,
{
    assert forall|i: int| 0 <= i < image.packages.len() implies #[trigger] kept(image, image, i) by {
        if dead(image, image, i + 1, i) {
            let (j, p) = choose|j: int, p: int|
                0 <= j < i + 1 && #[trigger] changed_from(image, image, j, p) && image.reaches(i, p);
            if j < p {
                assert(image.packages[j].id.name != image.packages[p].id.name);
            } else if p < j {
                assert(image.packages[p].id.name != image.packages[j].id.name);
            }
        }
        assert(image.packages[i].id.name == image.packages[i].id.name);
    }
    if load_places(image, image).len() > 0 {
        let flags = kept_flags(image, image);
        lemma_places(flags, false, flags.len());
        assert(!flags[load_places(image, image)[0] as int]);
    }
    let flags = stays_flags(image, image);
    let list = places(flags, false, flags.len());
    if list.len() > 0 {
        lemma_places(flags, false, flags.len());
        let o = list[0] as int;
        assert(!flags[o]);
        lemma_stays(image, image, o, o);
    }
}

} // verus!
