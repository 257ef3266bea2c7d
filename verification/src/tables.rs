//! How the tables of an image come to say which packages depend on which, package by package.

use crate::flags::PackageFlagsList;
use crate::identifier::NameView;
use crate::image::{lemma_depends_on_earlier, lemma_reaches_last_step, lemma_reaches_step};
use crate::image::{package_views, ImageView, PackageContextImageInner};
use vstd::prelude::*;

verus! {

/// Whether a row lists the places of the packages on which package `i` depends, which are smaller than
/// its own.
pub open spec fn depends_listed(image: ImageView, i: int, depends: Seq<usize>) -> bool {
    &&& forall|k: int| 0 <= k < depends.len() ==> (#[trigger] depends[k]) < i
    &&& forall|c: int|
        0 <= c < image.packages.len() ==> (#[trigger] image.depends(i, c) <==> depends.contains(c as usize))
}

/// Whether a table says which packages the first `count` packages reach, and nothing of the others.
pub open spec fn reaching(image: ImageView, table: PackageFlagsList, count: int) -> bool {
    &&& table.wf()
    &&& table.size() == image.packages.len()
    &&& forall|a: int, b: int|
        0 <= a < image.packages.len() && 0 <= b < image.packages.len() ==> #[trigger] table.at(a, b) == (a
            < count && image.reaches(a, b))
}

/// Whether the first packages of an order, and what is known of them, have been put into an image
/// that is being built.
pub open spec fn loaded(
    image: ImageView,
    order: Seq<NameView>,
    res: PackageContextImageInner,
    count: int,
) -> bool {
    &&& image.packages.len() == order.len()
    &&& forall|j: int|
        0 <= j < order.len() ==> (#[trigger] image.packages[j]).id.name == order[j]
    &&& image.top_level.len() == order.len()
    &&& package_views(res.packages@) == image.packages.take(count)
    &&& res.package_map.wf()
    &&& forall|j: int|
        0 <= j < count ==> res.package_map@.contains_key(#[trigger] order[j]) && res.package_map@[order[j]] == j
    &&& forall|name: NameView| #[trigger]
        res.package_map@.contains_key(name) ==> res.package_map@[name] < count && order[res.package_map@[name] as int]
            == name
    &&& res.top_level_packages@.len() == order.len()
    &&& forall|j: int|
        0 <= j < order.len() ==> #[trigger] res.top_level_packages@[j] == (j < count && image.top_level[j])
    &&& res.linker_packages.linker@ == image.linker
    &&& res.linker_packages.interfaces@ == image.hosts
    &&& reaching(image, res.transitive_dependencies, count)
}

/// What stands before the next package has been put into the image.
pub proof fn lemma_loaded_before(
    image: ImageView,
    order: Seq<NameView>,
    res: PackageContextImageInner,
    i: int,
    names: Set<NameView>,
)
    requires
        loaded(image, order, res, i),
        0 <= i < order.len(),
        forall|other: NameView| #[trigger]
            names.contains(other) ==> order.contains(other) && order.index_of(other) < i,
    ensures
        res.packages@.len() == i,
        forall|other: NameView| #[trigger] names.contains(other) ==> res.package_map@.contains_key(other),
{
    assert(package_views(res.packages@).len() == res.packages@.len());
    assert(image.packages.take(i).len() == i);
    assert forall|other: NameView| #[trigger] names.contains(other) implies res.package_map@.contains_key(other) by {
        assert(order[order.index_of(other)] == other);
    }
}

/// The row that gathers what the packages on which a package depends reach says what the package
/// reaches.
proof fn lemma_gathered(
    image: ImageView,
    i: int,
    depends: Seq<usize>,
    before: PackageFlagsList,
    after: PackageFlagsList,
    b: int,
)
    requires
        0 <= i < image.packages.len() <= usize::MAX,
        0 <= b < image.packages.len(),
        depends_listed(image, i, depends),
        reaching(image, before, i),
        after.at(i, b) == (before.at(i, b) || b == i || exists|k: int|
            0 <= k < depends.len() && before.at(#[trigger] depends[k] as int, b)),
    ensures
        after.at(i, b) == image.reaches(i, b),
{
    lemma_reaches_step(image, i, b);
    assert(!before.at(i, b));
    if image.reaches(i, b) && i != b {
        let c = choose|c: int|
            0 <= c < image.packages.len() && #[trigger] image.depends(i, c) && image.reaches(c, b);
        assert(depends.contains(c as usize));
        let k = depends.index_of(c as usize);
        assert(depends[k] < i);
        assert(before.at(depends[k] as int, b));
    }
    if exists|k: int| 0 <= k < depends.len() && before.at(#[trigger] depends[k] as int, b) {
        let k = choose|k: int| 0 <= k < depends.len() && before.at(#[trigger] depends[k] as int, b);
        let c = depends[k] as int;
        assert(depends.contains(c as usize));
        assert(image.depends(i, c) && image.reaches(c, b));
    }
}

/// When the next package of an order, and what is known of it, has been put into an image, one more
/// package is there.
#[verifier::spinoff_prover]
pub proof fn lemma_loaded_next(
    image: ImageView,
    order: Seq<NameView>,
    i: int,
    depends: Seq<usize>,
    before: PackageContextImageInner,
    after: PackageContextImageInner,
)
    requires
        order.no_duplicates(),
        0 <= i < order.len() <= usize::MAX,
        loaded(image, order, before, i),
        depends_listed(image, i, depends),
        package_views(after.packages@) == package_views(before.packages@).push(image.packages[i]),
        after.package_map.wf(),
        after.package_map@ == before.package_map@.insert(order[i], i as usize),
        after.top_level_packages@ == (if image.top_level[i] {
            before.top_level_packages@.update(i, true)
        } else {
            before.top_level_packages@
        }),
        after.linker_packages == before.linker_packages,
        after.transitive_dependencies.wf(),
        after.transitive_dependencies.size() == order.len(),
        forall|a: int, b: int|
            0 <= a < order.len() && 0 <= b < order.len() ==> #[trigger] after.transitive_dependencies.at(a, b)
                == (before.transitive_dependencies.at(a, b) || (a == i && (b == i || exists|k: int|
                0 <= k < depends.len() && before.transitive_dependencies.at(#[trigger] depends[k] as int, b)))),
    ensures
        loaded(image, order, after, i + 1),
{
    assert forall|a: int, b: int| 0 <= a < order.len() && 0 <= b < order.len() implies
        #[trigger] after.transitive_dependencies.at(a, b) == (a < i + 1 && image.reaches(a, b)) by {
        if a == i {
            lemma_gathered(
                image,
                i,
                depends,
                before.transitive_dependencies,
                after.transitive_dependencies,
                b,
            );
        }
    }
    assert(image.packages.take(i + 1) =~= image.packages.take(i).push(image.packages[i]));
    assert forall|j: int| 0 <= j < i + 1 implies after.package_map@.contains_key(#[trigger] order[j])
        && after.package_map@[order[j]] == j by {
        if j < i {
            assert(before.package_map@.contains_key(order[j]));
            assert(order[j] != order[i]);
        }
    }
}

/// When all packages of an order have been put into an image, it is that image, and the name table and
/// the dependencies are complete.
pub proof fn lemma_all_loaded(image: ImageView, order: Seq<NameView>, res: PackageContextImageInner)
    requires
        loaded(image, order, res, order.len() as int),
    ensures
        res@ == image,
        res.names_mapped(),
        res.dependencies_complete(),
{
    assert(image.packages.take(order.len() as int) =~= image.packages);
    assert(res.top_level_packages@ =~= image.top_level);
    assert(res@ == image);
    assert forall|i: int| 0 <= i < res@.packages.len() implies res.package_map@.contains_key(
        (#[trigger] res@.packages[i]).id.name,
    ) && res.package_map@[res@.packages[i].id.name] == i by {
        assert(res.package_map@.contains_key(order[i]));
    }
}

/// Whether package `b` of an image is package `a` or depends on it, as far as that is known from the
/// packages from `from` on.
pub open spec fn reached_from(image: ImageView, from: int, a: int, b: int) -> bool {
    if a >= from {
        image.reaches(b, a)
    } else {
        exists|c: int|
            from <= c < image.packages.len() && #[trigger] image.depends(c, a) && image.reaches(b, c)
    }
}

/// Whether a table says which packages depend on each package, as far as that is known from the
/// packages from `from` on.
pub open spec fn reached(image: ImageView, table: PackageFlagsList, from: int) -> bool {
    &&& table.wf()
    &&& table.size() == image.packages.len()
    &&& forall|a: int, b: int|
        0 <= a < image.packages.len() && 0 <= b < image.packages.len() ==> #[trigger] table.at(a, b)
            == reached_from(image, from, a, b)
}

/// Whether the dependents of the packages from `from` on have been spread in an image that is being
/// built and lacks nothing else.
pub open spec fn spread(image: ImageView, res: PackageContextImageInner, from: int) -> bool {
    &&& res@ == image
    &&& res.names_mapped()
    &&& reached(image, res.transitive_dependents, from)
}

/// What more is known of the packages before one package when that is looked at.
proof fn lemma_reached_before(image: ImageView, from: int, a: int, b: int)
    requires
        0 <= a < from < image.packages.len(),
        0 <= b < image.packages.len(),
    ensures
        reached_from(image, from, a, b) == (reached_from(image, from + 1, a, b) || (image.depends(from, a)
            && image.reaches(b, from))),
{
    if reached_from(image, from, a, b) {
        let c = choose|c: int|
            from <= c < image.packages.len() && #[trigger] image.depends(c, a) && image.reaches(b, c);
        assert(c == from || (image.depends(c, a) && image.reaches(b, c)));
    }
}

/// What more is known of a package when it is looked at itself.
proof fn lemma_reached_itself(image: ImageView, from: int, b: int)
    requires
        image.valid(),
        0 <= from < image.packages.len(),
        0 <= b < image.packages.len(),
    ensures
        image.reaches(b, from) == (b == from || reached_from(image, from + 1, from, b)),
{
    lemma_reaches_last_step(image, b, from);
    if image.reaches(b, from) && b != from {
        let c = choose|c: int|
            0 <= c < image.packages.len() && image.reaches(b, c) && #[trigger] image.depends(c, from);
        lemma_depends_on_earlier(image, c, from);
        assert(image.depends(c, from) && image.reaches(b, c));
    }
}

/// After the dependents of a package were added to those of the packages on which it depends, the
/// rows say what is known from that package on.
#[verifier::spinoff_prover]
pub proof fn lemma_spread(
    image: ImageView,
    i: int,
    depends: Seq<usize>,
    before: PackageFlagsList,
    after: PackageFlagsList,
)
    requires
        image.valid(),
        0 <= i < image.packages.len() <= usize::MAX,
        depends_listed(image, i, depends),
        reached(image, before, i + 1),
        after.wf(),
        after.size() == image.packages.len(),
        forall|a: int, b: int|
            0 <= a < image.packages.len() && 0 <= b < image.packages.len() ==> #[trigger] after.at(a, b) == (
            before.at(a, b) || ((a == i || depends.contains(a as usize)) && (b == i || before.at(i, b)))),
    ensures
        reached(image, after, i),
{
    assert forall|a: int, b: int|
        0 <= a < image.packages.len() && 0 <= b < image.packages.len() implies #[trigger] after.at(a, b)
        == reached_from(image, i, a, b) by {
        assert(before.at(a, b) == reached_from(image, i + 1, a, b));
        assert(before.at(i, b) == reached_from(image, i + 1, i, b));
        lemma_reached_itself(image, i, b);
        assert(image.depends(i, a) <==> depends.contains(a as usize));
        if a < i {
            lemma_reached_before(image, i, a, b);
        } else if image.depends(i, a) {
            lemma_depends_on_earlier(image, i, a);
        }
    }
}

} // verus!
