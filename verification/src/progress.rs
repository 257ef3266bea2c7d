//! How the packages of a context become those of an image, one after the other.

use crate::flags::{lemma_places, places};
use crate::hosts::{lemma_needed, needed};
use crate::identifier::{IdView, NameView};
use crate::image::{lemma_depends_on_earlier, ImageView, ResolvedView};
use crate::linker::LinkerView;
use crate::linking::{LinkErrorView, LinkInput};
use crate::loaded::{matches_image, LoadedView};
use crate::plan::{kept, kept_flags, law_all_packages_are_kept_or_loaded};
use crate::plan::law_dependencies_are_loaded_first;
use crate::plan::{law_all_packages_stay_or_are_unloaded, law_kept_is_unchanged};
use crate::plan::{load_places, stays, stays_flags, to_load, to_unload, unload_places};
use crate::resolution::id_names;
use vstd::prelude::*;

verus! {

/// The value of a context.
#[verifier::ext_equal]
pub struct ContextView {
    /// The state of the context.
    pub state: u64,
    /// The image upon which the context is based.
    pub image: ImageView,
    /// The packages that are loaded.
    pub packages: Map<NameView, LoadedView>,
}

/// The value of the options with which a package is loaded.
#[verifier::ext_equal]
pub struct OptionsView {
    /// The package.
    pub resolved: ResolvedView,
    /// The linker which will resolve host imports.
    pub linker: LinkerView,
}

/// The packages of a row of options.
pub open spec fn option_packages(options: Seq<OptionsView>) -> Seq<ResolvedView> {
    options.map_values(|option: OptionsView| option.resolved)
}

/// The identifiers of the packages of a row of options.
pub open spec fn option_ids(options: Seq<OptionsView>) -> Seq<IdView> {
    options.map_values(|option: OptionsView| option.resolved.id)
}

/// The value of a builder of a transition.
#[verifier::ext_equal]
pub struct BuilderView {
    /// The context against which to build.
    pub context: ContextView,
    /// The new image.
    pub image: ImageView,
    /// The packages to load, along with load options.
    pub to_load: Seq<OptionsView>,
    /// The packages to unload.
    pub to_unload: Seq<IdView>,
}

impl BuilderView {
    /// Whether the lists hold the packages that must be loaded and unloaded, in the order in which
    /// they must be.
    pub open spec fn planned(self) -> bool {
        &&& option_packages(self.to_load) == to_load(self.image, self.context.image)
        &&& self.to_unload == to_unload(self.image, self.context.image)
    }

    /// The packages that package `k` of those to load needs, as it requests them.
    pub open spec fn needs(self, k: int) -> Seq<IdView> {
        needed(self.image.hosts, self.to_load[k].resolved.component.imports)
    }

    /// Whether the packages to load are those that must be loaded, each once, in whatever order.
    pub open spec fn loads_planned(self) -> bool {
        &&& options_distinct(self.to_load)
        &&& forall|k: int|
            0 <= k < self.to_load.len() ==> to_load(self.image, self.context.image).contains(
                (#[trigger] self.to_load[k]).resolved,
            )
        &&& forall|package: ResolvedView| #[trigger]
            to_load(self.image, self.context.image).contains(package) ==> option_packages(
                self.to_load,
            ).contains(package)
    }

    /// Whether the packages that package `k` of those to load needs are not loaded after it.
    pub open spec fn needs_first(self, k: int) -> bool {
        forall|r: int, l: int|
            #![trigger self.needs(k)[r], self.to_load[l]]
            0 <= r < self.needs(k).len() && 0 <= l < self.to_load.len() && self.to_load[l].resolved.id.name
                == self.needs(k)[r].name ==> l < k
    }

    /// Whether the lists hold the packages that must be loaded and unloaded, those to load in an order
    /// in which each stands after those that it needs.
    pub open spec fn buildable(self) -> bool {
        &&& self.loads_planned()
        &&& forall|k: int| 0 <= k < self.to_load.len() ==> #[trigger] self.needs_first(k)
        &&& self.to_unload == to_unload(self.image, self.context.image)
    }

    /// The builder with another linker for package `k` of those to load.
    pub open spec fn with_linker(self, k: int, linker: LinkerView) -> Self {
        BuilderView {
            to_load: self.to_load.update(k, OptionsView { linker, ..self.to_load[k] }),
            ..self
        }
    }
}

/// Another linker for one package to load is for that package only: the image, the context, the other
/// packages to load with their linkers and the packages to unload stay as they were, and what could be
/// built before can be built now.
pub proof fn law_linker_is_for_one_package(builder: BuilderView, k: int, linker: LinkerView)
    requires
        0 <= k < builder.to_load.len(),
    ensures
        builder.with_linker(k, linker).image == builder.image,
        builder.with_linker(k, linker).context == builder.context,
        builder.with_linker(k, linker).to_unload == builder.to_unload,
        builder.with_linker(k, linker).to_load.len() == builder.to_load.len(),
        builder.with_linker(k, linker).to_load[k].linker == linker,
        builder.with_linker(k, linker).to_load[k].resolved == builder.to_load[k].resolved,
        forall|l: int|
            0 <= l < builder.to_load.len() && l != k ==> #[trigger] builder.with_linker(k, linker).to_load[l]
                == builder.to_load[l],
        builder.planned() ==> builder.with_linker(k, linker).planned(),
        builder.buildable() ==> builder.with_linker(k, linker).buildable(),
{
    let after = builder.with_linker(k, linker);
    assert forall|l: int| 0 <= l < builder.to_load.len() implies (#[trigger] after.to_load[l]).resolved
        == builder.to_load[l].resolved by {}
    assert(option_packages(after.to_load) =~= option_packages(builder.to_load));
    if builder.buildable() {
        assert forall|l: int| 0 <= l < after.to_load.len() implies #[trigger] after.needs_first(l) by {
            assert(builder.needs_first(l));
            assert(after.needs(l) == builder.needs(l));
            assert forall|r: int, m: int|
                #![trigger after.needs(l)[r], after.to_load[m]]
                0 <= r < after.needs(l).len() && 0 <= m < after.to_load.len()
                    && after.to_load[m].resolved.id.name == after.needs(l)[r].name implies m < l by {
                assert(builder.to_load[m].resolved.id.name == builder.needs(l)[r].name);
            }
        }
        assert forall|l: int, m: int| 0 <= l < m < after.to_load.len() implies (
        #[trigger] after.to_load[l]).resolved.id.name != (#[trigger] after.to_load[m]).resolved.id.name by {
            assert(builder.to_load[l].resolved.id.name != builder.to_load[m].resolved.id.name);
        }
    }
}

/// The packages and the identifiers of options are those of each, in their order.
pub proof fn law_options_are_in_order(options: Seq<OptionsView>)
    ensures
        option_packages(options).len() == options.len(),
        option_ids(options).len() == options.len(),
        forall|k: int| 0 <= k < options.len() ==> #[trigger] option_packages(options)[k] == options[k].resolved,
        forall|k: int| 0 <= k < options.len() ==> #[trigger] option_ids(options)[k] == options[k].resolved.id,
{
}

/// A planned builder lists the packages to load and to unload that follow from the two images, in the order
/// that follows from them.
pub proof fn law_planned_builder_follows_the_images(builder: BuilderView)
    requires
        builder.planned(),
    ensures
        builder.to_load.len() == to_load(builder.image, builder.context.image).len(),
        forall|k: int|
            0 <= k < builder.to_load.len() ==> (#[trigger] builder.to_load[k]).resolved == to_load(
                builder.image,
                builder.context.image,
            )[k],
        builder.to_unload == to_unload(builder.image, builder.context.image),
{
    assert(option_packages(builder.to_load).len() == builder.to_load.len());
    assert forall|k: int| 0 <= k < builder.to_load.len() implies (#[trigger] builder.to_load[k]).resolved == to_load(
        builder.image,
        builder.context.image,
    )[k] by {
        assert(option_packages(builder.to_load)[k] == builder.to_load[k].resolved);
    }
}

/// A builder can be built exactly if it lists each package that must be loaded once and no other, none
/// before a package from which it imports an interface that the host does not provide, and if it lists the
/// packages that must be unloaded, in their order.
pub proof fn law_buildable_lists_are_complete_and_ordered(builder: BuilderView)
    ensures
        builder.buildable() <==> {
            let plan = to_load(builder.image, builder.context.image);
            &&& forall|k: int, l: int|
                0 <= k < l < builder.to_load.len() ==> (#[trigger] builder.to_load[k]).resolved.id.name != (
                #[trigger] builder.to_load[l]).resolved.id.name
            &&& forall|k: int|
                0 <= k < builder.to_load.len() ==> plan.contains((#[trigger] builder.to_load[k]).resolved)
            &&& forall|package: ResolvedView| #[trigger]
                plan.contains(package) ==> exists|k: int|
                    0 <= k < builder.to_load.len() && (#[trigger] builder.to_load[k]).resolved == package
            &&& forall|k: int, m: int, l: int|
                #![trigger builder.to_load[k].resolved.component.imports[m], builder.to_load[l]]
                0 <= k < builder.to_load.len() && 0 <= m < builder.to_load[k].resolved.component.imports.len() && 0
                    <= l < builder.to_load.len() && builder.to_load[l].resolved.id.name
                    == builder.to_load[k].resolved.component.imports[m].package.name
                    && !builder.image.hosts.contains_key(
                    (
                        builder.to_load[k].resolved.component.imports[m].package.name.0,
                        builder.to_load[k].resolved.component.imports[m].package.name.1,
                        builder.to_load[k].resolved.component.imports[m].name,
                    ),
                ) ==> l < k
            &&& builder.to_unload == to_unload(builder.image, builder.context.image)
        },
{
    let plan = to_load(builder.image, builder.context.image);
    let hosts = builder.image.hosts;
    let options = option_packages(builder.to_load);
    assert forall|package: ResolvedView| #[trigger] options.contains(package) <==> exists|k: int|
        0 <= k < builder.to_load.len() && (#[trigger] builder.to_load[k]).resolved == package by {
        if options.contains(package) {
            let k = options.index_of(package);
            assert(builder.to_load[k].resolved == package);
        }
        if exists|k: int| 0 <= k < builder.to_load.len() && (#[trigger] builder.to_load[k]).resolved == package {
            let k = choose|k: int|
                0 <= k < builder.to_load.len() && (#[trigger] builder.to_load[k]).resolved == package;
            assert(options[k] == package);
        }
    }
    if builder.buildable() {
        assert forall|k: int, m: int, l: int|
            #![trigger builder.to_load[k].resolved.component.imports[m], builder.to_load[l]]
            0 <= k < builder.to_load.len() && 0 <= m < builder.to_load[k].resolved.component.imports.len() && 0 <= l
                < builder.to_load.len() && builder.to_load[l].resolved.id.name
                == builder.to_load[k].resolved.component.imports[m].package.name && !hosts.contains_key(
                (
                    builder.to_load[k].resolved.component.imports[m].package.name.0,
                    builder.to_load[k].resolved.component.imports[m].package.name.1,
                    builder.to_load[k].resolved.component.imports[m].name,
                ),
            ) implies l < k by {
            let imports = builder.to_load[k].resolved.component.imports;
            lemma_needed(hosts, imports);
            assert(!hosts.contains_key(imports[m].unversioned()));
            assert(builder.needs(k).contains(imports[m].package));
            let r = builder.needs(k).index_of(imports[m].package);
            assert(builder.needs_first(k));
            assert(builder.to_load[l].resolved.id.name == builder.needs(k)[r].name);
        }
    }
    if forall|k: int, m: int, l: int|
        #![trigger builder.to_load[k].resolved.component.imports[m], builder.to_load[l]]
        0 <= k < builder.to_load.len() && 0 <= m < builder.to_load[k].resolved.component.imports.len() && 0 <= l
            < builder.to_load.len() && builder.to_load[l].resolved.id.name
            == builder.to_load[k].resolved.component.imports[m].package.name && !hosts.contains_key(
            (
                builder.to_load[k].resolved.component.imports[m].package.name.0,
                builder.to_load[k].resolved.component.imports[m].package.name.1,
                builder.to_load[k].resolved.component.imports[m].name,
            ),
        ) ==> l < k {
        assert forall|k: int| 0 <= k < builder.to_load.len() implies #[trigger] builder.needs_first(k) by {
            let imports = builder.to_load[k].resolved.component.imports;
            lemma_needed(hosts, imports);
            assert forall|r: int, l: int|
                #![trigger builder.needs(k)[r], builder.to_load[l]]
                0 <= r < builder.needs(k).len() && 0 <= l < builder.to_load.len()
                    && builder.to_load[l].resolved.id.name == builder.needs(k)[r].name implies l < k by {
                assert(builder.needs(k).contains(builder.needs(k)[r]));
                let m = choose|m: int|
                    0 <= m < imports.len() && !hosts.contains_key((#[trigger] imports[m]).unversioned())
                        && imports[m].package == builder.needs(k)[r];
                assert(builder.to_load[k].resolved.component.imports[m] == imports[m]);
            }
        }
    }
}

/// Whether no two options of a row are for packages with the same name.
pub open spec fn options_distinct(options: Seq<OptionsView>) -> bool {
    forall|k: int, l: int|
        0 <= k < l < options.len() ==> (#[trigger] options[k]).resolved.id.name != (
        #[trigger] options[l]).resolved.id.name
}

/// The lists with which a builder begins can be built.
pub proof fn law_planned_is_buildable(builder: BuilderView)
    requires
        builder.planned(),
        builder.image.valid(),
        builder.image.packages.len() <= usize::MAX,
    ensures
        builder.buildable(),
{
    let image = builder.image;
    let old_image = builder.context.image;
    let plan = to_load(image, old_image);
    let loads = load_places(image, old_image);
    let flags = kept_flags(image, old_image);
    lemma_places(flags, false, flags.len());
    assert(option_packages(builder.to_load).len() == plan.len());
    assert forall|k: int| 0 <= k < plan.len() implies (#[trigger] builder.to_load[k]).resolved == plan[k] && plan[k]
        == image.packages[loads[k] as int] && loads[k] < image.packages.len() by {
        assert(option_packages(builder.to_load)[k] == plan[k]);
    }
    assert forall|k: int, l: int| 0 <= k < l < builder.to_load.len() implies (
    #[trigger] builder.to_load[k]).resolved.id.name != (#[trigger] builder.to_load[l]).resolved.id.name by {
        law_dependencies_are_loaded_first(image, old_image, k, l);
    }
    assert forall|k: int| 0 <= k < builder.to_load.len() implies #[trigger] builder.needs_first(k) by {
        assert forall|r: int, l: int|
            #![trigger builder.needs(k)[r], builder.to_load[l]]
            0 <= r < builder.needs(k).len() && 0 <= l < builder.to_load.len()
                && builder.to_load[l].resolved.id.name == builder.needs(k)[r].name implies l < k by {
            assert(builder.to_load[k].resolved == plan[k]);
            let a = loads[k] as int;
            let b = loads[l] as int;
            assert(image.requests(a)[r].name == image.packages[b].id.name);
            assert(image.depends(a, b));
            if k == l {
                lemma_depends_on_earlier(image, a, b);
            } else {
                law_dependencies_are_loaded_first(image, old_image, k, l);
            }
        }
    }
}

/// The value of a transition.
#[verifier::ext_equal]
pub struct TransitionView {
    /// The original state of the context.
    pub state: u64,
    /// The image to use.
    pub image: ImageView,
    /// The packages to load.
    pub to_load: Seq<IdView>,
    /// The packages to unload.
    pub to_unload: Seq<IdView>,
    /// The new set of packages for the context.
    pub packages: Map<NameView, LoadedView>,
}

/// The value of a transition that is being built.
#[verifier::ext_equal]
pub struct ProgressView {
    /// What is being built.
    pub builder: BuilderView,
    /// The packages that will be loaded, as far as they are there.
    pub packages: Map<NameView, LoadedView>,
    /// How many of the packages to load have been instantiated.
    pub done: int,
}

impl ProgressView {
    /// Whether package `i` of the new image is there: it stays loaded or has been instantiated.
    pub open spec fn arrived(self, i: int) -> bool {
        kept(self.builder.image, self.builder.context.image, i) || exists|k: int|
            0 <= k < self.done && (#[trigger] self.builder.to_load[k]).resolved.id.name
                == self.builder.image.packages[i].id.name
    }

    /// Whether the packages that are there are those that should be: those that stay, as they were,
    /// and those that have been instantiated.
    pub open spec fn in_order(self) -> bool {
        let image = self.builder.image;
        let context = self.builder.context;
        &&& self.builder.buildable()
        &&& image.valid()
        &&& context.image.valid()
        &&& image.packages.len() <= usize::MAX
        &&& context.image.packages.len() <= usize::MAX
        &&& matches_image(context.packages, context.image)
        &&& 0 <= self.done <= self.builder.to_load.len()
        &&& forall|i: int|
            #![trigger image.packages[i]]
            0 <= i < image.packages.len() && self.arrived(i) ==> self.packages.contains_key(
                image.packages[i].id.name,
            ) && self.packages[image.packages[i].id.name].version == image.packages[i].id.version
        &&& forall|name: NameView| #[trigger]
            self.packages.contains_key(name) ==> exists|i: int|
                0 <= i < image.packages.len() && (#[trigger] image.packages[i]).id.name == name && self.arrived(
                    i,
                )
        &&& forall|i: int|
            #![trigger image.packages[i]]
            0 <= i < image.packages.len() && kept(image, context.image, i)
                ==> self.packages[image.packages[i].id.name] == context.packages[image.packages[i].id.name]
    }

    /// What the next package is linked against.
    pub open spec fn link_input(self) -> LinkInput {
        LinkInput {
            id: self.builder.to_load[self.done].resolved.id,
            hosts: self.builder.image.hosts,
            packages: self.packages,
            linker: self.builder.to_load[self.done].linker,
        }
    }

    /// What comes of linking the next package.
    pub open spec fn link_next(self) -> Result<LinkerView, LinkErrorView> {
        self.link_input().linked(self.builder.to_load[self.done].resolved.component)
    }

    /// The transition with the packages that are there.
    pub open spec fn transition(self) -> TransitionView {
        TransitionView {
            state: self.builder.context.state,
            image: self.builder.image,
            to_load: option_ids(self.builder.to_load),
            to_unload: self.builder.to_unload,
            packages: self.packages,
        }
    }

    /// The progress after the next package was instantiated.
    pub open spec fn with_next(self, package: LoadedView) -> Self {
        ProgressView {
            packages: self.packages.insert(self.builder.to_load[self.done].resolved.id.name, package),
            done: self.done + 1,
            ..self
        }
    }
}

/// The progress at the beginning: the packages of the context without those to unload.
pub open spec fn progress_begin(builder: BuilderView) -> ProgressView {
    ProgressView {
        builder,
        packages: builder.context.packages.remove_keys(id_names(builder.to_unload).to_set()),
        done: 0,
    }
}

/// A transition begins with the packages of the context, as they are, without those that must be unloaded.
pub proof fn law_transition_begins_without_the_unloaded(builder: BuilderView, name: NameView)
    ensures
        progress_begin(builder).builder == builder,
        progress_begin(builder).done == 0,
        progress_begin(builder).packages.contains_key(name) <==> builder.context.packages.contains_key(name) && (
        forall|k: int| 0 <= k < builder.to_unload.len() ==> (#[trigger] builder.to_unload[k]).name != name),
        progress_begin(builder).packages.contains_key(name) ==> progress_begin(builder).packages[name]
            == builder.context.packages[name],
{
    let names = id_names(builder.to_unload);
    if names.contains(name) {
        let k = names.index_of(name);
        assert(builder.to_unload[k].name == name);
    }
    if exists|k: int| 0 <= k < builder.to_unload.len() && (#[trigger] builder.to_unload[k]).name == name {
        let k = choose|k: int| 0 <= k < builder.to_unload.len() && (#[trigger] builder.to_unload[k]).name == name;
        assert(names[k] == name);
    }
    assert(names.to_set().contains(name) == names.contains(name));
}

/// When a package has been instantiated, it is there under its name, all others are as they were, and the
/// next package is the one after it in the list.
pub proof fn law_instantiated_package_is_added(p: ProgressView, package: LoadedView, name: NameView)
    ensures
        p.with_next(package).builder == p.builder,
        p.with_next(package).done == p.done + 1,
        p.with_next(package).packages.contains_key(p.builder.to_load[p.done].resolved.id.name),
        p.with_next(package).packages[p.builder.to_load[p.done].resolved.id.name] == package,
        name != p.builder.to_load[p.done].resolved.id.name ==> p.with_next(package).packages.contains_key(name)
            == p.packages.contains_key(name) && (p.packages.contains_key(name) ==> p.with_next(
            package,
        ).packages[name] == p.packages[name]),
{
}

/// The next package is linked as itself, against the interfaces of the host of the new image, the packages
/// that are there, and its own linker.
pub proof fn law_next_package_is_linked_against_what_is_there(p: ProgressView)
    ensures
        p.link_next() == (LinkInput {
            id: p.builder.to_load[p.done].resolved.id,
            hosts: p.builder.image.hosts,
            packages: p.packages,
            linker: p.builder.to_load[p.done].linker,
        }).linked(p.builder.to_load[p.done].resolved.component),
{
}

/// The transition is for the state of the context for which it was built. It has the new image, the lists
/// that were built, in their order, and the packages that are there.
pub proof fn law_transition_is_what_was_built(p: ProgressView)
    ensures
        p.transition().state == p.builder.context.state,
        p.transition().image == p.builder.image,
        p.transition().to_unload == p.builder.to_unload,
        p.transition().packages == p.packages,
        p.transition().to_load.len() == p.builder.to_load.len(),
        forall|k: int|
            0 <= k < p.builder.to_load.len() ==> #[trigger] p.transition().to_load[k]
                == p.builder.to_load[k].resolved.id,
{
}

/// When all packages to load have been instantiated, a package that did not have to be loaded has the very
/// instance that it had before.
pub proof fn law_kept_packages_keep_their_instances(p: ProgressView, i: int)
    requires
        p.in_order(),
        p.done == p.builder.to_load.len(),
        0 <= i < p.builder.image.packages.len(),
        !to_load(p.builder.image, p.builder.context.image).contains(p.builder.image.packages[i]),
    ensures
        p.packages.contains_key(p.builder.image.packages[i].id.name),
        p.builder.context.packages.contains_key(p.builder.image.packages[i].id.name),
        p.packages[p.builder.image.packages[i].id.name]
            == p.builder.context.packages[p.builder.image.packages[i].id.name],
{
    let image = p.builder.image;
    let old_image = p.builder.context.image;
    law_all_packages_are_kept_or_loaded(image, old_image, i);
    let loads = load_places(image, old_image);
    if loads.contains(i as usize) {
        assert(to_load(image, old_image)[loads.index_of(i as usize)] == image.packages[i]);
    }
    assert(kept(image, old_image, i));
    law_finished_transition_matches_image(p);
    let o = choose|o: int|
        0 <= o < old_image.packages.len() && (#[trigger] old_image.packages[o]).id.name == image.packages[i].id.name;
    assert(p.builder.context.packages.contains_key(old_image.packages[o].id.name));
}

/// Every package that must be unloaded is loaded.
pub proof fn law_unloaded_packages_are_loaded(builder: BuilderView, k: int)
    requires
        builder.buildable(),
        builder.context.image.packages.len() <= usize::MAX,
        matches_image(builder.context.packages, builder.context.image),
        0 <= k < builder.to_unload.len(),
    ensures
        builder.context.packages.contains_key(builder.to_unload[k].name),
        builder.context.packages[builder.to_unload[k].name].version == builder.to_unload[k].version,
{
    let flags = stays_flags(builder.image, builder.context.image);
    lemma_places(flags, false, flags.len());
    let list = places(flags, false, flags.len());
    let unloads = unload_places(builder.image, builder.context.image);
    assert(unloads[k] == list[list.len() - 1 - k]);
    assert(list[list.len() - 1 - k] < flags.len());
    let o = unloads[k] as int;
    assert(builder.to_unload[k] == builder.context.image.packages[o].id);
}

/// When the packages to unload have been taken out, those are there that should be.
pub proof fn lemma_begin_in_order(builder: BuilderView)
    requires
        builder.buildable(),
        builder.image.valid(),
        builder.context.image.valid(),
        builder.image.packages.len() <= usize::MAX,
        builder.context.image.packages.len() <= usize::MAX,
        matches_image(builder.context.packages, builder.context.image),
    ensures
        progress_begin(builder).in_order(),
{
    let p = progress_begin(builder);
    let image = builder.image;
    let old_image = builder.context.image;
    let unloads = unload_places(image, old_image);
    let names = id_names(builder.to_unload);
    let loaded = builder.context.packages;
    let flags = stays_flags(image, old_image);
    lemma_places(flags, false, flags.len());
    let list = places(flags, false, flags.len());
    assert forall|o: int| 0 <= o < old_image.packages.len() implies names.contains(
        (#[trigger] old_image.packages[o]).id.name,
    ) == !stays(image, old_image, o) by {
        law_all_packages_stay_or_are_unloaded(image, old_image, o);
        let name = old_image.packages[o].id.name;
        if unloads.contains(o as usize) {
            assert(names[unloads.index_of(o as usize)] == name);
        }
        if names.contains(name) {
            let k = names.index_of(name);
            assert(unloads[k] == list[list.len() - 1 - k]);
            assert(list[list.len() - 1 - k] < flags.len());
            let q = unloads[k] as int;
            assert(names[k] == old_image.packages[q].id.name);
            if q < o {
                assert(old_image.packages[q].id.name != old_image.packages[o].id.name);
            } else if o < q {
                assert(old_image.packages[o].id.name != old_image.packages[q].id.name);
            }
            assert(unloads.contains(o as usize));
        }
    }
    assert forall|i: int|
        #![trigger image.packages[i]]
        0 <= i < image.packages.len() && p.arrived(i) implies p.packages.contains_key(image.packages[i].id.name)
        && p.packages[image.packages[i].id.name].version == image.packages[i].id.version
        && p.packages[image.packages[i].id.name] == loaded[image.packages[i].id.name] by {
        let o = choose|o: int|
            0 <= o < old_image.packages.len() && (#[trigger] old_image.packages[o]).id.name
                == image.packages[i].id.name;
        law_kept_is_unchanged(image, old_image, i, o);
        assert(loaded.contains_key(old_image.packages[o].id.name));
        assert(!names.contains(old_image.packages[o].id.name));
        assert(!names.to_set().contains(image.packages[i].id.name));
    }
    assert forall|name: NameView| #[trigger] p.packages.contains_key(name) implies exists|i: int|
        0 <= i < image.packages.len() && (#[trigger] image.packages[i]).id.name == name && p.arrived(i) by {
        assert(loaded.contains_key(name));
        assert(!names.to_set().contains(name));
        let o = choose|o: int| 0 <= o < old_image.packages.len() && (#[trigger] old_image.packages[o]).id.name == name;
        assert(stays(image, old_image, o));
        let i = choose|i: int|
            0 <= i < image.packages.len() && (#[trigger] image.packages[i]).id.name == old_image.packages[o].id.name
                && kept(image, old_image, i);
        assert(p.arrived(i));
    }
}

/// A package that must be loaded is a package of the new image that does not stay loaded.
proof fn lemma_place_to_load(builder: BuilderView, k: int) -> (i: int)
    requires
        builder.loads_planned(),
        builder.image.packages.len() <= usize::MAX,
        0 <= k < builder.to_load.len(),
    ensures
        0 <= i < builder.image.packages.len(),
        builder.to_load[k].resolved == builder.image.packages[i],
        !kept(builder.image, builder.context.image, i),
{
    let image = builder.image;
    let old_image = builder.context.image;
    let plan = to_load(image, old_image);
    let loads = load_places(image, old_image);
    let flags = kept_flags(image, old_image);
    lemma_places(flags, false, flags.len());
    let m = plan.index_of(builder.to_load[k].resolved);
    assert(plan[m] == image.packages[loads[m] as int]);
    assert(!flags[loads[m] as int]);
    loads[m] as int
}

/// A package of the new image that does not stay loaded is among those to load.
proof fn lemma_option_of_place(builder: BuilderView, i: int) -> (k: int)
    requires
        builder.loads_planned(),
        0 <= i < builder.image.packages.len() <= usize::MAX,
        !kept(builder.image, builder.context.image, i),
    ensures
        0 <= k < builder.to_load.len(),
        builder.to_load[k].resolved == builder.image.packages[i],
{
    let image = builder.image;
    let old_image = builder.context.image;
    let loads = load_places(image, old_image);
    law_all_packages_are_kept_or_loaded(image, old_image, i);
    let m = loads.index_of(i as usize);
    assert(to_load(image, old_image)[m] == image.packages[i]);
    assert(to_load(image, old_image).contains(image.packages[i]));
    let options = option_packages(builder.to_load);
    let k = options.index_of(image.packages[i]);
    assert(options[k] == builder.to_load[k].resolved);
    k
}

/// The next package to load is a package of the new image that is not there yet.
proof fn lemma_next_place(p: ProgressView) -> (i: int)
    requires
        p.in_order(),
        p.done < p.builder.to_load.len(),
    ensures
        0 <= i < p.builder.image.packages.len(),
        p.builder.to_load[p.done].resolved == p.builder.image.packages[i],
        !p.arrived(i),
{
    let i = lemma_place_to_load(p.builder, p.done);
    if p.arrived(i) {
        let k = choose|k: int|
            0 <= k < p.done && (#[trigger] p.builder.to_load[k]).resolved.id.name
                == p.builder.image.packages[i].id.name;
        assert(p.builder.to_load[k].resolved.id.name != p.builder.to_load[p.done].resolved.id.name);
    }
    i
}

/// What the next package imports and the host does not provide comes from packages that are there.
pub proof fn law_imported_packages_are_loaded(p: ProgressView, k: int)
    requires
        p.in_order(),
        p.done < p.builder.to_load.len(),
        0 <= k < p.builder.to_load[p.done].resolved.component.imports.len(),
    ensures
        p.builder.image.hosts.contains_key(
            p.builder.to_load[p.done].resolved.component.imports[k].unversioned(),
        ) || p.packages.contains_key(
            p.builder.to_load[p.done].resolved.component.imports[k].package.name,
        ),
{
    let image = p.builder.image;
    let i = lemma_next_place(p);
    let imports = image.packages[i].component.imports;
    if !image.hosts.contains_key(imports[k].unversioned()) {
        lemma_needed(image.hosts, imports);
        assert(image.requests(i).contains(imports[k].package));
        let r = image.requests(i).index_of(imports[k].package);
        assert(image.provided(i, image.requests(i)[r]));
        let j = choose|j: int|
            0 <= j < i && (#[trigger] image.packages[j]).id.name == image.requests(i)[r].name;
        if !kept(image, p.builder.context.image, j) {
            let l = lemma_option_of_place(p.builder, j);
            assert(p.builder.needs_first(p.done));
            assert(p.builder.needs(p.done)[r].name == p.builder.to_load[l].resolved.id.name);
        }
        assert(p.arrived(j));
        assert(p.packages.contains_key(image.packages[j].id.name));
    }
}

/// When the next package has been instantiated, the packages are there that should be. The package
/// was not there before.
pub proof fn lemma_next_in_order(p: ProgressView, package: LoadedView)
    requires
        p.in_order(),
        p.done < p.builder.to_load.len(),
        package.version == p.builder.to_load[p.done].resolved.id.version,
    ensures
        p.with_next(package).in_order(),
        !p.packages.contains_key(p.builder.to_load[p.done].resolved.id.name),
{
    let image = p.builder.image;
    let old_image = p.builder.context.image;
    let i = lemma_next_place(p);
    let t = p.with_next(package);
    let name = image.packages[i].id.name;
    assert forall|j: int|
        0 <= j < image.packages.len() && (#[trigger] image.packages[j]).id.name == name implies j == i by {
        if i < j {
            assert(image.packages[i].id.name != image.packages[j].id.name);
        } else if j < i {
            assert(image.packages[j].id.name != image.packages[i].id.name);
        }
    }
    if p.packages.contains_key(name) {
        let j = choose|j: int|
            0 <= j < image.packages.len() && (#[trigger] image.packages[j]).id.name == name && p.arrived(j);
    }
    assert forall|j: int| 0 <= j < image.packages.len() implies #[trigger] t.arrived(j) == (p.arrived(j) || j
        == i) by {
        lemma_arrived_next(p, t, i, j);
    }
    assert forall|j: int|
        #![trigger image.packages[j]]
        0 <= j < image.packages.len() && t.arrived(j) implies t.packages.contains_key(image.packages[j].id.name)
        && t.packages[image.packages[j].id.name].version == image.packages[j].id.version by {
        if j != i {
            assert(p.arrived(j));
            assert(p.packages.contains_key(image.packages[j].id.name));
        }
    }
    assert forall|other: NameView| #[trigger] t.packages.contains_key(other) implies exists|j: int|
        0 <= j < image.packages.len() && (#[trigger] image.packages[j]).id.name == other && t.arrived(j) by {
        if other == name {
            assert(image.packages[i].id.name == other && t.arrived(i));
        } else {
            assert(p.packages.contains_key(other));
            let j = choose|j: int|
                0 <= j < image.packages.len() && (#[trigger] image.packages[j]).id.name == other && p.arrived(j);
            assert(t.arrived(j));
        }
    }
    assert forall|j: int|
        #![trigger image.packages[j]]
        0 <= j < image.packages.len() && kept(image, old_image, j) implies t.packages[image.packages[j].id.name]
        == p.builder.context.packages[image.packages[j].id.name] by {
        assert(p.arrived(j));
        assert(p.packages.contains_key(image.packages[j].id.name));
    }
}

/// Which packages are there when one more has been instantiated.
proof fn lemma_arrived_next(p: ProgressView, t: ProgressView, i: int, j: int)
    requires
        t.builder == p.builder,
        t.done == p.done + 1,
        0 <= p.done < p.builder.to_load.len(),
        p.builder.image.valid(),
        0 <= i < p.builder.image.packages.len(),
        0 <= j < p.builder.image.packages.len(),
        p.builder.to_load[p.done].resolved == p.builder.image.packages[i],
    ensures
        t.arrived(j) == (p.arrived(j) || j == i),
{
    let image = p.builder.image;
    if t.arrived(j) && !kept(image, p.builder.context.image, j) {
        let k = choose|k: int|
            0 <= k < t.done && (#[trigger] t.builder.to_load[k]).resolved.id.name == image.packages[j].id.name;
        if k == p.done {
            if i < j {
                assert(image.packages[i].id.name != image.packages[j].id.name);
            } else if j < i {
                assert(image.packages[j].id.name != image.packages[i].id.name);
            }
        } else {
            assert(p.builder.to_load[k].resolved.id.name == image.packages[j].id.name);
        }
    }
    if p.arrived(j) && !kept(image, p.builder.context.image, j) {
        let k = choose|k: int|
            0 <= k < p.done && (#[trigger] p.builder.to_load[k]).resolved.id.name == image.packages[j].id.name;
        assert(t.builder.to_load[k].resolved.id.name == image.packages[j].id.name);
    }
    if j == i {
        assert(t.builder.to_load[p.done].resolved.id.name == image.packages[j].id.name);
    }
}

/// When all packages to load have been instantiated, the packages of the new image are there, and no
/// others, and those that stay loaded are as they were.
pub proof fn law_finished_transition_matches_image(p: ProgressView)
    requires
        p.in_order(),
        p.done == p.builder.to_load.len(),
    ensures
        matches_image(p.packages, p.builder.image),
        forall|i: int|
            #![trigger p.builder.image.packages[i]]
            0 <= i < p.builder.image.packages.len() && kept(p.builder.image, p.builder.context.image, i)
                ==> p.packages[p.builder.image.packages[i].id.name]
                == p.builder.context.packages[p.builder.image.packages[i].id.name],
{
    let image = p.builder.image;
    assert forall|i: int| 0 <= i < image.packages.len() implies p.packages.contains_key(
        (#[trigger] image.packages[i]).id.name,
    ) && p.packages[image.packages[i].id.name].version == image.packages[i].id.version by {
        if !kept(image, p.builder.context.image, i) {
            let k = lemma_option_of_place(p.builder, i);
            assert(p.builder.to_load[k].resolved.id.name == image.packages[i].id.name);
        }
        assert(p.arrived(i));
    }
}

} // verus!
