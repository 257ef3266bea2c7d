//! Contexts, which hold loaded packages, and the transitions that move them from image to image.

use crate::component::{interface_views, Component, ExportingInstance, Instance};
use crate::flags::{lemma_places, places, Bits};
use crate::hosts::lemma_needed;
use crate::identifier::{IdView, InterfaceView, NameView, PackageIdentifier, PackageName};
use crate::identifier::UnversionedView;
use crate::image::{package_views, ImageView, PackageContextImage, ResolvedPackage, ResolvedView};
use crate::linker::{LinkError, Linker, LinkerView};
use crate::linking::link_package;
use crate::loaded::{copy_loaded, loaded_views, matches_image, LoadedPackage, LoadedView, ResolvedInstance};
use crate::package_map::PackageMap;
use crate::plan::{changed_from, dead, kept, kept_flags, stays_flags, to_load, to_unload};
use crate::progress::{law_finished_transition_matches_image, law_imported_packages_are_loaded};
use crate::progress::{law_planned_is_buildable, options_distinct};
use crate::progress::{law_unloaded_packages_are_loaded, lemma_begin_in_order, lemma_next_in_order};
use crate::progress::{option_ids, option_packages, progress_begin, BuilderView, ContextView};
use crate::progress::{OptionsView, ProgressView, TransitionView};
use crate::resolution::id_names;
use crate::resolver::id_views;
use crate::version::copy_version;
use vstd::prelude::*;

verus! {

/// A counter which ensures that each context state is unique.
pub struct StateCounter {
    /// The next state.
    next: u64,
}

impl View for StateCounter {
    type V = u64;

    closed spec fn view(&self) -> u64 {
        self.next
    }
}

/// The state that follows another.
pub open spec fn state_after(state: u64) -> u64 {
    if state == u64::MAX {
        0
    } else {
        (state + 1) as u64
    }
}

/// States are counted up by one; after the last comes the first.
pub proof fn law_states_count_up(state: u64)
    ensures
        state < u64::MAX ==> state_after(state) == state + 1,
        state_after(u64::MAX) == 0,
{
}

/// The state that follows another after `n` states have been given out.
pub open spec fn state_after_all(state: u64, n: nat) -> u64
    decreases n,
{
    if n == 0 {
        state
    } else {
        state_after(state_after_all(state, (n - 1) as nat))
    }
}

/// A counter gives out no state twice before it has given out all.
pub proof fn law_states_are_unique(state: u64, m: nat, n: nat)
    requires
        m < n <= u64::MAX,
    ensures
        state_after_all(state, m) != state_after_all(state, n),
{
    lemma_state_after_all(state, m);
    lemma_state_after_all(state, n);
}

/// A transition that was built for a state of a context cannot be applied any more once another one has
/// been applied, if the counter that gave the state out also gives out the new one, and not every state
/// has been given out since.
pub proof fn law_stale_transition_is_refused(
    transition: TransitionView,
    before: ContextView,
    after: ContextView,
    n: nat,
)
    requires
        applicable(transition, before),
        0 < n <= u64::MAX,
        after.state == state_after_all(before.state, n),
    ensures
        !applicable(transition, after),
{
    law_states_are_unique(before.state, 0, n);
}

/// Of two transitions that were built for the same state of a context, the second cannot be applied any
/// more once the first has been, whatever they load and unload: the context keeps the image and the
/// packages of the first. The counter that gave out the state also gives out the next one, and not every
/// state has been given out in between.
pub proof fn law_second_transition_is_refused(
    first: TransitionView,
    second: TransitionView,
    before: ContextView,
    after: ContextView,
    counter: u64,
    n: nat,
)
    requires
        first.state == before.state,
        second.state == before.state,
        0 < n <= u64::MAX,
        counter == state_after_all(before.state, n),
        after == applied(first, counter),
    ensures
        !applicable(second, after),
        !applicable(first, after),
        after.image == first.image,
        after.packages == first.packages,
{
    law_states_are_unique(before.state, 0, n);
}

/// How far a counter gets.
proof fn lemma_state_after_all(state: u64, n: nat)
    requires
        n <= u64::MAX,
    ensures
        state_after_all(state, n) == (if state + n <= u64::MAX {
            state + n
        } else {
            state + n - u64::MAX - 1
        }),
    decreases n,
{
    if n > 0 {
        lemma_state_after_all(state, (n - 1) as nat);
    }
}

impl StateCounter {
    /// Creates a counter that has given out no state.
    pub fn new() -> (counter: Self)
        ensures
            counter@ == 0,
    {
        StateCounter { next: 0 }
    }

    /// Gets the next internal state which tracks the image that a context currently has.
    pub fn next_state(&mut self) -> (state: u64)
        ensures
            state == old(self)@,
            final(self)@ == state_after(old(self)@),
    {
        let state = self.next;
        self.next = if state == u64::MAX {
            0
        } else {
            state + 1
        };
        state
    }
}

/// Manages a set of loaded WebAssembly components. `PackageContext`s are responsible for loading,
/// linking, and unloading packages to match the state described by a [`PackageContextImage`].
/// Contexts also provide access to the exports of loaded packages.
pub struct PackageContext {
    /// The state of the context.
    state: u64,
    /// The context's image.
    image: PackageContextImage,
    /// The set of currently-loaded packages.
    packages: PackageMap<ResolvedInstance>,
}

impl View for PackageContext {
    type V = ContextView;

    closed spec fn view(&self) -> ContextView {
        ContextView {
            state: self.state,
            image: self.image@,
            packages: loaded_views(self.packages@),
        }
    }
}

/// The names of a row of loaded packages.
pub open spec fn loaded_names(packages: Seq<LoadedPackage>) -> Seq<NameView> {
    packages.map_values(|package: LoadedPackage| package@.0)
}

impl PackageContext {
    /// Every context has the packages of its image loaded, and no others.
    #[verifier::type_invariant]
    spec fn in_order(self) -> bool {
        self.packages.wf() && matches_image(self@.packages, self.image@)
    }

    /// Creates a new package context with nothing loaded.
    pub fn new(counter: &mut StateCounter) -> (context: Self)
        ensures
            context@.state == old(counter)@,
            final(counter)@ == state_after(old(counter)@),
            context@.image.packages.len() == 0,
            context@.image.linker.instances.dom() == Set::<InterfaceView>::empty(),
            context@.image.hosts.dom() == Set::<UnversionedView>::empty(),
            context@.packages == Map::<NameView, LoadedView>::empty(),
    {
        let image = PackageContextImage::default();
        let packages: PackageMap<ResolvedInstance> = PackageMap::new();
        assert(loaded_views(packages@) =~= Map::<NameView, LoadedView>::empty());
        PackageContext { state: counter.next_state(), image, packages }
    }

    /// The image upon which this context is based. Its packages are loaded, in the versions that it
    /// says, and no others.
    pub fn image(&self) -> (image: &PackageContextImage)
        ensures
            image@ == self@.image,
            matches_image(self@.packages, self@.image),
    {
        proof {
            use_type_invariant(self);
        }
        &self.image
    }

    /// Gets the package with the provided name, if any.
    pub fn package(&self, name: &PackageName) -> (package: Option<LoadedPackage<'_>>)
        ensures
            package is Some <==> self@.packages.contains_key(name@),
            package matches Some(p) ==> p@ == (name@, self@.packages[name@]),
    {
        proof {
            use_type_invariant(self);
        }
        match self.packages.get(name) {
            Some(package) => Some(LoadedPackage::new(name, package)),
            None => None,
        }
    }

    /// Lists all loaded packages, each once.
    pub fn packages(&self) -> (packages: Vec<LoadedPackage<'_>>)
        ensures
            loaded_names(packages@).no_duplicates(),
            loaded_names(packages@).to_set() == self@.packages.dom(),
            forall|i: int|
                0 <= i < packages@.len() ==> (#[trigger] packages@[i])@.1 == self@.packages[packages@[i]@.0],
    {
        proof {
            use_type_invariant(self);
            self.packages.lemma_names();
        }
        let ghost names = self.packages.names();
        let mut packages: Vec<LoadedPackage<'_>> = Vec::new();
        let count = self.packages.len();
        for i in 0..count
            invariant
                self.packages.wf(),
                names == self.packages.names(),
                count == names.len(),
                packages@.len() == i,
                forall|j: int|
                    0 <= j < i ==> (#[trigger] packages@[j])@.0 == names[j] && packages@[j]@.1
                        == self@.packages[names[j]],
        {
            packages.push(LoadedPackage::new(self.packages.name_at(i), self.packages.value_at(i)));
        }
        assert(loaded_names(packages@) =~= names);
        assert(self@.packages.dom() =~= self.packages@.dom());
        packages
    }
}

/// The linker with which a package is loaded.
#[derive(Debug)]
pub enum BuildLinker<'a> {
    /// The linker that all packages share.
    Shared(&'a Linker),
    /// A linker for this package.
    Custom(Linker),
}

impl<'a> View for BuildLinker<'a> {
    type V = LinkerView;

    open spec fn view(&self) -> LinkerView {
        match self {
            BuildLinker::Shared(linker) => linker@,
            BuildLinker::Custom(linker) => linker@,
        }
    }
}

/// Determines how a package's component should be instantiated and linked.
#[derive(Debug)]
pub struct PackageBuildOptions<'a> {
    /// The resolved package.
    resolved: &'a ResolvedPackage,
    /// The linker to use.
    linker: BuildLinker<'a>,
}

impl<'a> View for PackageBuildOptions<'a> {
    type V = OptionsView;

    closed spec fn view(&self) -> OptionsView {
        OptionsView { resolved: self.resolved@, linker: self.linker@ }
    }
}

/// The values of a row of options.
pub open spec fn option_views(options: Seq<PackageBuildOptions>) -> Seq<OptionsView> {
    options.map_values(|option: PackageBuildOptions| option@)
}

impl<'a> PackageBuildOptions<'a> {
    /// The associated package ID.
    pub fn id(&self) -> (id: &PackageIdentifier)
        ensures
            id@ == self@.resolved.id,
    {
        &self.resolved.id
    }

    /// The component that will be instantiated.
    pub fn component(&self) -> (component: &Component)
        ensures
            component@ == self@.resolved.component,
    {
        &self.resolved.component
    }

    /// Gets an immutable reference to the linker which will resolve host imports.
    pub fn linker(&self) -> (linker: &Linker)
        ensures
            linker@ == self@.linker,
    {
        match &self.linker {
            BuildLinker::Shared(linker) => linker,
            BuildLinker::Custom(linker) => linker,
        }
    }

    /// Gets a mutable reference to the linker which will resolve host imports. Changes are for this
    /// package only.
    pub fn linker_mut(&mut self) -> (linker: &mut Linker)
        ensures
            linker@ == old(self)@.linker,
            final(self)@ == (OptionsView { linker: final(linker)@, ..old(self)@ }),
    {
        if let BuildLinker::Shared(shared) = &self.linker {
            let copy = shared.copy();
            self.linker = BuildLinker::Custom(copy);
        }
        match &mut self.linker {
            BuildLinker::Custom(linker) => linker,
            BuildLinker::Shared(_) => vstd::pervasive::unreached(),
        }
    }
}

/// When the linker of one package in the list of a builder has been changed, the builder is the one with
/// that linker for that package.
pub proof fn law_changed_linker_is_for_one_package(
    builder: BuilderView,
    options: Seq<PackageBuildOptions>,
    k: int,
    changed: PackageBuildOptions,
)
    requires
        option_views(options) == builder.to_load,
        0 <= k < options.len(),
        changed@.resolved == options[k]@.resolved,
    ensures
        (BuilderView { to_load: option_views(options.update(k, changed)), ..builder }) == builder.with_linker(
            k,
            changed@.linker,
        ),
{
    assert(option_views(options)[k] == options[k]@);
    assert(option_views(options.update(k, changed)) =~= builder.with_linker(k, changed@.linker).to_load);
}

/// Facilitates the creation of new [`PackageContextTransition`]s, which switch the
/// [`PackageContextImage`] upon which a context is based.
pub struct PackageContextTransitionBuilder<'a> {
    /// The context against which to build.
    context: &'a PackageContext,
    /// The new image.
    image: &'a PackageContextImage,
    /// The list of packages to load, along with load options.
    to_load: Vec<PackageBuildOptions<'a>>,
    /// The list of packages to unload.
    to_unload: Vec<PackageIdentifier>,
}

impl<'a> View for PackageContextTransitionBuilder<'a> {
    type V = BuilderView;

    closed spec fn view(&self) -> BuilderView {
        BuilderView {
            context: self.context@,
            image: self.image@,
            to_load: option_views(self.to_load@),
            to_unload: id_views(self.to_unload@),
        }
    }
}

/// What one more package of the new image makes of the packages of the old image.
proof fn lemma_dead_step(new: ImageView, old_image: ImageView, i: int, place: Option<usize>, o: int)
    requires
        old_image.valid(),
        0 <= i < new.packages.len(),
        0 <= o < old_image.packages.len(),
        match place {
            Some(p) => p < old_image.packages.len() && old_image.packages[p as int].id.name
                == new.packages[i].id.name,
            None => forall|p: int|
                0 <= p < old_image.packages.len() ==> (#[trigger] old_image.packages[p]).id.name
                    != new.packages[i].id.name,
        },
    ensures
        dead(new, old_image, i + 1, o) == (dead(new, old_image, i, o) || match place {
            Some(p) => old_image.packages[p as int].id != new.packages[i].id && old_image.reaches(o, p as int),
            None => false,
        }),
        match place {
            Some(p) => kept(new, old_image, i) == !dead(new, old_image, i + 1, p as int),
            None => !kept(new, old_image, i),
        },
{
    assert forall|p: int, q: int|
        0 <= p < old_image.packages.len() && 0 <= q < old_image.packages.len() && (
        #[trigger] old_image.packages[p]).id.name == (#[trigger] old_image.packages[q]).id.name implies p == q by {
        if p < q {
            assert(old_image.packages[p].id.name != old_image.packages[q].id.name);
        } else if q < p {
            assert(old_image.packages[q].id.name != old_image.packages[p].id.name);
        }
    }
    if dead(new, old_image, i, o) {
        let (j, p) = choose|j: int, p: int|
            0 <= j < i && #[trigger] changed_from(new, old_image, j, p) && old_image.reaches(o, p);
        assert(changed_from(new, old_image, j, p) && old_image.reaches(o, p));
    }
    if place is Some {
        let p = place->0 as int;
        if old_image.packages[p].id != new.packages[i].id && old_image.reaches(o, p) {
            assert(changed_from(new, old_image, i, p));
        }
        assert(old_image.packages[p].id.name == new.packages[i].id.name);
    }
    if dead(new, old_image, i + 1, o) {
        let (j, p) = choose|j: int, p: int|
            0 <= j < i + 1 && #[trigger] changed_from(new, old_image, j, p) && old_image.reaches(o, p);
        if j == i {
            assert(old_image.packages[p].id.name == new.packages[i].id.name);
        }
    }
}

/// Whether package `o` of the old image stays loaded because of one of the first `count` packages of
/// the new image.
spec fn stays_by(new: ImageView, old_image: ImageView, count: int, o: int) -> bool {
    exists|i: int|
        0 <= i < count && (#[trigger] new.packages[i]).id.name == old_image.packages[o].id.name && kept(
            new,
            old_image,
            i,
        )
}

/// The packages of the first `count` packages of the new image that must be loaded.
spec fn loads_up_to(new: ImageView, old_image: ImageView, count: nat) -> Seq<ResolvedView> {
    places(kept_flags(new, old_image), false, count).map_values(|i: usize| new.packages[i as int])
}

/// What must be loaded when one more package of the new image is looked at.
proof fn lemma_loads_step(new: ImageView, old_image: ImageView, i: int)
    requires
        0 <= i < new.packages.len() <= usize::MAX,
    ensures
        loads_up_to(new, old_image, (i + 1) as nat) == (if kept(new, old_image, i) {
            loads_up_to(new, old_image, i as nat)
        } else {
            loads_up_to(new, old_image, i as nat).push(new.packages[i])
        }),
{
    assert(kept_flags(new, old_image)[i] == kept(new, old_image, i));
    assert(loads_up_to(new, old_image, (i + 1) as nat) =~= (if kept(new, old_image, i) {
        loads_up_to(new, old_image, i as nat)
    } else {
        loads_up_to(new, old_image, i as nat).push(new.packages[i])
    }));
}

/// Whether flags for the packages of the old image say which stay loaded, and which are or depend on
/// packages that change, as far as the first `count` packages of the new image decide.
spec fn weighed(new: ImageView, old_image: ImageView, count: int, touched: Seq<bool>, dead_flags: Seq<bool>) -> bool {
    &&& touched.len() == old_image.packages.len()
    &&& dead_flags.len() == old_image.packages.len()
    &&& forall|o: int|
        0 <= o < old_image.packages.len() ==> #[trigger] dead_flags[o] == dead(new, old_image, count, o)
    &&& forall|o: int|
        0 <= o < old_image.packages.len() ==> #[trigger] touched[o] == stays_by(new, old_image, count, o)
}

impl PackageContextImage {
    /// Decides whether the next package of a new image must be loaded. If it stays loaded, it is
    /// marked as touched; if its version changes, what depends on it is marked as dead.
    fn must_load(
        old_image: &PackageContextImage,
        i: usize,
        pkg: &ResolvedPackage,
        old_touched: &mut Bits,
        old_dead: &mut Bits,
        Ghost(new): Ghost<ImageView>,
    ) -> (load: bool)
        requires
            i < new.packages.len(),
            new.packages[i as int] == pkg@,
            weighed(new, old_image@, i as int, old(old_touched)@, old(old_dead)@),
        ensures
            load == !kept(new, old_image@, i as int),
            weighed(new, old_image@, i + 1, final(old_touched)@, final(old_dead)@),
    {
        let old_packages = old_image.packages();
        let old_len = old_packages.len();
        let ghost old_view = old_image@;
        let place = old_image.place_of(pkg.id.name());
        assert(old_view.packages.len() == old_len);
        let load = match place {
            Some(old_i) => {
                assert(old_view.packages[old_i as int] == old_packages@[old_i as int]@);
                if !pkg.id.same(&old_packages[old_i].id) {
                    old_dead.or_slice(0, old_len, &old_image.dependents_at(old_i));
                }
                proof {
                    lemma_dead_step(new, old_view, i as int, place, old_i as int);
                    assert(old(old_dead)@[old_i as int] == dead(new, old_view, i as int, old_i as int));
                }
                if old_dead.get(old_i) {
                    true
                } else {
                    old_touched.set(old_i, true);
                    false
                }
            },
            None => true,
        };
        proof {
            assert forall|o: int| 0 <= o < old_len implies #[trigger] old_dead@[o] == dead(
                new,
                old_view,
                i + 1,
                o,
            ) by {
                lemma_dead_step(new, old_view, i as int, place, o);
                assert(old(old_dead)@[o] == dead(new, old_view, i as int, o));
            }
            if place is None && kept(new, old_view, i as int) {
                let o = choose|o: int|
                    0 <= o < old_len && (#[trigger] old_view.packages[o]).id.name == new.packages[i as int].id.name;
            }
            assert forall|o: int| 0 <= o < old_len implies #[trigger] old_touched@[o] == stays_by(
                new,
                old_view,
                i + 1,
                o,
            ) by {
                lemma_stays_step(new, old_view, i as int, place, o);
                assert(old(old_touched)@[o] == stays_by(new, old_view, i as int, o));
            }
        }
        load
    }

    /// Creates a transition for the given context based upon this image.
    pub fn as_transition<'a>(&'a self, ctx: &'a PackageContext) -> (transition: PackageContextTransitionBuilder<'a>)
        ensures
            transition@.context == ctx@,
            transition@.image == self@,
            transition@.planned(),
            forall|k: int|
                0 <= k < transition@.to_load.len() ==> (#[trigger] transition@.to_load[k]).linker == self@.linker,
    {
        let ghost new = self@;
        let ghost old_image = ctx.image@;
        let packages = self.packages();
        let old_packages = ctx.image.packages();
        let old_len = old_packages.len();
        let mut to_load: Vec<PackageBuildOptions<'a>> = Vec::new();
        let mut old_touched = ctx.image.no_flags();
        let mut old_dead = ctx.image.no_flags();
        let len = packages.len();
        assert(option_packages(option_views(to_load@)) =~= loads_up_to(new, old_image, 0));
        for i in 0..len
            invariant
                new == self@,
                old_image == ctx.image@,
                new.valid(),
                old_image.valid(),
                package_views(packages@) == new.packages,
                package_views(old_packages@) == old_image.packages,
                len == new.packages.len(),
                old_len == old_image.packages.len(),
                weighed(new, old_image, i as int, old_touched@, old_dead@),
                option_packages(option_views(to_load@)) == loads_up_to(new, old_image, i as nat),
                forall|k: int| 0 <= k < to_load@.len() ==> (#[trigger] to_load@[k])@.linker == new.linker,
        {
            let pkg = &packages[i];
            let ghost before = to_load@;
            proof {
                assert(new.packages[i as int] == pkg@);
                lemma_loads_step(new, old_image, i as int);
            }
            let load = Self::must_load(&ctx.image, i, pkg, &mut old_touched, &mut old_dead, Ghost(new));
            if load {
                to_load.push(
                    PackageBuildOptions { resolved: pkg, linker: BuildLinker::Shared(self.linker()) },
                );
                assert(option_packages(option_views(to_load@)) =~= option_packages(
                    option_views(before),
                ).push(pkg@));
            }
        }
        let zeros = old_touched.zeros();
        assert(old_touched@ =~= stays_flags(new, old_image));
        proof {
            lemma_places(old_touched@, false, old_touched@.len());
        }
        let ghost list = zeros@;
        let mut to_unload: Vec<PackageIdentifier> = Vec::new();
        let mut k: usize = zeros.len();
        while k > 0
            invariant
                k <= zeros@.len(),
                list == zeros@,
                package_views(old_packages@) == old_image.packages,
                forall|l: int| 0 <= l < list.len() ==> (#[trigger] list[l]) < old_image.packages.len(),
                to_unload@.len() == list.len() - k,
                forall|l: int|
                    0 <= l < to_unload@.len() ==> (#[trigger] to_unload@[l])@ == old_image.packages[list[list.len()
                        - 1 - l] as int].id,
            decreases k,
        {
            k -= 1;
            let o = zeros[k];
            assert(list[k as int] == o);
            assert(old_image.packages[o as int] == old_packages@[o as int]@);
            to_unload.push(old_packages[o].id.clone());
        }
        assert(id_views(to_unload@) =~= crate::plan::to_unload(new, old_image));
        PackageContextTransitionBuilder { context: ctx, image: self, to_load, to_unload }
    }
}

/// Which packages of the old image stay loaded when one more package of the new image is looked at.
proof fn lemma_stays_step(new: ImageView, old_image: ImageView, i: int, place: Option<usize>, o: int)
    requires
        old_image.valid(),
        0 <= i < new.packages.len(),
        0 <= o < old_image.packages.len() <= usize::MAX,
        match place {
            Some(p) => p < old_image.packages.len() && old_image.packages[p as int].id.name
                == new.packages[i].id.name,
            None => forall|p: int|
                0 <= p < old_image.packages.len() ==> (#[trigger] old_image.packages[p]).id.name
                    != new.packages[i].id.name,
        },
    ensures
        stays_by(new, old_image, i + 1, o) == (stays_by(new, old_image, i, o) || (place == Some(o as usize)
            && kept(new, old_image, i))),
{
    if stays_by(new, old_image, i, o) {
        let j = choose|j: int|
            0 <= j < i && (#[trigger] new.packages[j]).id.name == old_image.packages[o].id.name && kept(
                new,
                old_image,
                j,
            );
        assert(new.packages[j].id.name == old_image.packages[o].id.name);
    }
    if stays_by(new, old_image, i + 1, o) {
        let j = choose|j: int|
            0 <= j < i + 1 && (#[trigger] new.packages[j]).id.name == old_image.packages[o].id.name && kept(
                new,
                old_image,
                j,
            );
        if j == i {
            assert(old_image.packages[o].id.name == new.packages[i].id.name);
            let p = place->0 as int;
            if p < o {
                assert(old_image.packages[p].id.name != old_image.packages[o].id.name);
            } else if o < p {
                assert(old_image.packages[o].id.name != old_image.packages[p].id.name);
            }
        }
    }
    if place == Some(o as usize) && kept(new, old_image, i) {
        assert(new.packages[i].id.name == new.packages[i].id.name);
    }
}

/// The values of a row of instances.
pub open spec fn instance_views(instances: Seq<Instance>) -> Seq<ExportingInstance> {
    instances.map_values(|instance: Instance| instance@)
}

impl<'a> PackageContextTransitionBuilder<'a> {
    /// Creates a builder for switching the given context's state to a new image.
    pub fn new(image: &'a PackageContextImage, ctx: &'a PackageContext) -> (builder: Self)
        ensures
            builder@.context == ctx@,
            builder@.image == image@,
            builder@.planned(),
            builder@.buildable(),
            forall|k: int|
                0 <= k < builder@.to_load.len() ==> (#[trigger] builder@.to_load[k]).linker == image@.linker,
    {
        let builder = image.as_transition(ctx);
        proof {
            use_type_invariant(image);
            image.lemma_well_formed();
            law_planned_is_buildable(builder@);
        }
        builder
    }

    /// An immutable reference to the ordered list of packages that must be instantiated and loaded,
    /// along with options on how to create instances of them.
    pub fn to_load(&self) -> (options: &[PackageBuildOptions<'a>])
        ensures
            option_views(options@) == self@.to_load,
    {
        self.to_load.as_slice()
    }

    /// A mutable reference to the ordered list of packages that must be instantiated and loaded,
    /// along with options on how to create instances of them.
    pub fn to_load_mut(&mut self) -> (options: &mut [PackageBuildOptions<'a>])
        ensures
            option_views(options@) == old(self)@.to_load,
            final(self)@ == (BuilderView { to_load: option_views(final(options)@), ..old(self)@ }),
    {
        self.to_load.as_mut_slice()
    }

    /// The ordered list of packages that must be unloaded.
    pub fn to_unload(&self) -> (ids: &[PackageIdentifier])
        ensures
            id_views(ids@) == self@.to_unload,
    {
        self.to_unload.as_slice()
    }

    /// Whether the packages that each package to load needs are not loaded after it, where the
    /// packages stand in the list as a table says.
    fn needs_come_first(&self, places: &PackageMap<usize>) -> (first: bool)
        requires
            places.wf(),
            positioned(places@, self@.to_load),
        ensures
            first == (forall|k: int| 0 <= k < self@.to_load.len() ==> #[trigger] self@.needs_first(k)),
    {
        let ghost builder = self@;
        for k in 0..self.to_load.len()
            invariant
                builder == self@,
                builder.to_load.len() == self.to_load@.len(),
                places.wf(),
                positioned(places@, builder.to_load),
                forall|l: int| 0 <= l < k ==> #[trigger] builder.needs_first(l),
        {
            let imports = self.to_load[k].component().imports();
            let hosts = self.image.hosts();
            let ghost all = builder.to_load[k as int].resolved.component.imports;
            assert(builder.to_load[k as int] == self.to_load@[k as int]@);
            for m in 0..imports.len()
                invariant
                    builder == self@,
                    0 <= k < builder.to_load.len(),
                    all == builder.to_load[k as int].resolved.component.imports,
                    all == interface_views(imports@),
                    hosts.wf(),
                    hosts@ == builder.image.hosts,
                    places.wf(),
                    positioned(places@, builder.to_load),
                    forall|n: int|
                        0 <= n < m ==> import_comes_first(builder, k as int, #[trigger] all[n]),
            {
                let import = &imports[m];
                assert(all[m as int] == import@);
                if hosts.get(import).is_none() {
                    if let Some(place) = places.get(import.package().name()) {
                        if *place >= k {
                            proof {
                                lemma_late_import(builder, k as int, m as int, *place as int);
                            }
                            return false;
                        }
                    }
                }
                assert(import_comes_first(builder, k as int, all[m as int]));
            }
            proof {
                lemma_imports_come_first(builder, k as int);
            }
        }
        true
    }

    /// Whether the lists of packages are still those that must be loaded and unloaded, and each package
    /// to load stands after those that it needs.
    pub fn is_buildable(&self) -> (buildable: bool)
        ensures
            buildable == self@.buildable(),
    {
        let fresh = self.image.as_transition(self.context);
        proof {
            use_type_invariant(self.image);
            self.image.lemma_well_formed();
            law_planned_is_buildable(fresh@);
        }
        let places = match option_places(&self.to_load) {
            Some(places) => places,
            None => {
                return false;
            },
        };
        let planned_places = match option_places(&fresh.to_load) {
            Some(places) => places,
            None => {
                return false;
            },
        };
        proof {
            lemma_same_packages(self@, fresh@);
        }
        all_among(&self.to_load, &fresh.to_load, &planned_places) && all_among(
            &fresh.to_load,
            &self.to_load,
            &places,
        ) && self.needs_come_first(&places) && same_ids(&self.to_unload, &fresh.to_unload)
    }

    /// Begins to instantiate and link any new components to produce a final
    /// [`PackageContextTransition`].
    pub fn build(self) -> (progress: TransitionProgress<'a>)
        requires
            self@.buildable(),
        ensures
            progress@ == progress_begin(self@),
            progress@.in_order(),
    {
        let ghost builder = self@;
        proof {
            use_type_invariant(self.context);
            use_type_invariant(self.image);
            use_type_invariant(&self.context.image);
            self.image.lemma_well_formed();
            self.context.image.lemma_well_formed();
        }
        let mut packages = copy_loaded(&self.context.packages);
        let ghost names = id_names(builder.to_unload);
        proof {
            assert(loaded_views(packages@) =~= builder.context.packages.remove_keys(
                names.take(0).to_set(),
            )) by {
                assert(names.take(0) =~= Seq::<NameView>::empty());
            }
        }
        for k in 0..self.to_unload.len()
            invariant
                builder == self@,
                names == id_names(builder.to_unload),
                packages.wf(),
                loaded_views(packages@) == builder.context.packages.remove_keys(
                    names.take(k as int).to_set(),
                ),
        {
            let ghost before = packages@;
            packages.remove(self.to_unload[k].name());
            proof {
                assert(names[k as int] == self.to_unload@[k as int]@.name);
                lemma_remove_next(builder.context.packages, names, k as int);
                assert(loaded_views(packages@) =~= loaded_views(before).remove(names[k as int]));
            }
        }
        proof {
            assert(names.take(names.len() as int) =~= names);
            lemma_begin_in_order(builder);
        }
        TransitionProgress { builder: self, packages, done: 0 }
    }
}

/// Whether a table says where the packages of a row of options stand, by name.
spec fn positioned(places: Map<NameView, usize>, options: Seq<OptionsView>) -> bool {
    &&& options_distinct(options)
    &&& forall|k: int|
        0 <= k < options.len() ==> places.contains_key((#[trigger] options[k]).resolved.id.name)
            && places[options[k].resolved.id.name] == k
    &&& forall|name: NameView| #[trigger]
        places.contains_key(name) ==> places[name] < options.len() && options[places[name] as int].resolved.id.name
            == name
}

/// Finds where the packages of a row of options stand. Gives nothing if two have the same name.
fn option_places(options: &Vec<PackageBuildOptions>) -> (places: Option<PackageMap<usize>>)
    ensures
        places is Some <==> options_distinct(option_views(options@)),
        places matches Some(p) ==> p.wf() && positioned(p@, option_views(options@)),
{
    let ghost views = option_views(options@);
    let mut places: PackageMap<usize> = PackageMap::new();
    for k in 0..options.len()
        invariant
            views == option_views(options@),
            places.wf(),
            positioned(places@, views.take(k as int)),
    {
        let name = options[k].id().name();
        let ghost before = places@;
        assert(views[k as int].resolved.id.name == name@);
        if places.insert(name.clone(), k).is_some() {
            proof {
                let l = before[name@] as int;
                assert(views.take(k as int)[l] == views[l]);
                assert(views[l].resolved.id.name == views[k as int].resolved.id.name);
            }
            return None;
        }
        proof {
            let next = views.take(k + 1);
            assert forall|l: int| 0 <= l < next.len() implies places@.contains_key(
                (#[trigger] next[l]).resolved.id.name,
            ) && places@[next[l].resolved.id.name] == l by {
                if l < k {
                    assert(views.take(k as int)[l] == next[l]);
                }
            }
            assert forall|l: int, m: int| 0 <= l < m < next.len() implies (#[trigger] next[l]).resolved.id.name != (
            #[trigger] next[m]).resolved.id.name by {
                assert(places@[next[l].resolved.id.name] == l);
                assert(places@[next[m].resolved.id.name] == m);
            }
            assert forall|other: NameView| #[trigger] places@.contains_key(other) implies places@[other]
                < next.len() && next[places@[other] as int].resolved.id.name == other by {
                if other != name@ {
                    assert(before.contains_key(other));
                    assert(views.take(k as int)[before[other] as int] == next[before[other] as int]);
                }
            }
        }
    }
    assert(views.take(views.len() as int) =~= views);
    Some(places)
}

/// Whether the packages of a row of options are among those of another row, where a table says how the
/// other row stands.
fn all_among(
    options: &Vec<PackageBuildOptions>,
    others: &Vec<PackageBuildOptions>,
    places: &PackageMap<usize>,
) -> (among: bool)
    requires
        places.wf(),
        positioned(places@, option_views(others@)),
    ensures
        among == (forall|k: int|
            0 <= k < options@.len() ==> option_packages(option_views(others@)).contains(
                (#[trigger] option_views(options@)[k]).resolved,
            )),
{
    let ghost views = option_views(options@);
    let ghost other_views = option_views(others@);
    let ghost packages = option_packages(other_views);
    for k in 0..options.len()
        invariant
            views == option_views(options@),
            other_views == option_views(others@),
            packages == option_packages(other_views),
            places.wf(),
            positioned(places@, other_views),
            forall|l: int| 0 <= l < k ==> packages.contains((#[trigger] views[l]).resolved),
    {
        let resolved = options[k].resolved;
        assert(views[k as int].resolved == resolved@);
        let found = match places.get(resolved.id.name()) {
            Some(place) => {
                let other = others[*place].resolved;
                assert(packages[*place as int] == other@);
                resolved.id.same(&other.id) && resolved.component.same(&other.component)
            },
            None => false,
        };
        if !found {
            proof {
                if packages.contains(resolved@) {
                    let l = packages.index_of(resolved@);
                    assert(other_views[l].resolved == resolved@);
                }
            }
            return false;
        }
    }
    true
}

/// Whether two rows of package identifiers are the same.
fn same_ids(a: &Vec<PackageIdentifier>, b: &Vec<PackageIdentifier>) -> (same: bool)
    ensures
        same == (id_views(a@) == id_views(b@)),
{
    if a.len() != b.len() {
        assert(id_views(a@).len() == a@.len() && id_views(b@).len() == b@.len());
        return false;
    }
    for k in 0..a.len()
        invariant
            a@.len() == b@.len(),
            forall|l: int| 0 <= l < k ==> id_views(a@)[l] == #[trigger] id_views(b@)[l],
    {
        assert(id_views(a@)[k as int] == a@[k as int]@ && id_views(b@)[k as int] == b@[k as int]@);
        if !a[k].same(&b[k]) {
            return false;
        }
    }
    assert(id_views(a@) =~= id_views(b@));
    true
}

/// The packages to load are those that must be loaded if they are among those of the plan, and those of
/// the plan are among them.
proof fn lemma_same_packages(builder: BuilderView, fresh: BuilderView)
    requires
        fresh.planned(),
        fresh.image == builder.image,
        fresh.context == builder.context,
        options_distinct(builder.to_load),
    ensures
        builder.loads_planned() <==> {
            &&& forall|k: int|
                0 <= k < builder.to_load.len() ==> option_packages(fresh.to_load).contains(
                    (#[trigger] builder.to_load[k]).resolved,
                )
            &&& forall|k: int|
                0 <= k < fresh.to_load.len() ==> option_packages(builder.to_load).contains(
                    (#[trigger] fresh.to_load[k]).resolved,
                )
        },
{
    let plan = option_packages(fresh.to_load);
    assert forall|k: int| 0 <= k < fresh.to_load.len() implies plan.contains(
        (#[trigger] fresh.to_load[k]).resolved,
    ) by {
        assert(plan[k] == fresh.to_load[k].resolved);
    }
    if forall|k: int|
        0 <= k < fresh.to_load.len() ==> option_packages(builder.to_load).contains(
            (#[trigger] fresh.to_load[k]).resolved,
        ) {
        assert forall|package: ResolvedView| #[trigger] plan.contains(package) implies option_packages(
            builder.to_load,
        ).contains(package) by {
            let k = plan.index_of(package);
            assert(fresh.to_load[k].resolved == package);
        }
    }
}

/// Whether the package that must provide an import of package `k` of those to load is not loaded after
/// it.
spec fn import_comes_first(builder: BuilderView, k: int, import: InterfaceView) -> bool {
    builder.image.hosts.contains_key(import.unversioned()) || forall|l: int|
        0 <= l < builder.to_load.len() && (#[trigger] builder.to_load[l]).resolved.id.name == import.package.name
            ==> l < k
}

/// If all imports of a package come first, all its needs do.
proof fn lemma_imports_come_first(builder: BuilderView, k: int)
    requires
        0 <= k < builder.to_load.len(),
        forall|n: int|
            0 <= n < builder.to_load[k].resolved.component.imports.len() ==> import_comes_first(
                builder,
                k,
                #[trigger] builder.to_load[k].resolved.component.imports[n],
            ),
    ensures
        builder.needs_first(k),
{
    let imports = builder.to_load[k].resolved.component.imports;
    lemma_needed(builder.image.hosts, imports);
    assert forall|r: int, l: int|
        #![trigger builder.needs(k)[r], builder.to_load[l]]
        0 <= r < builder.needs(k).len() && 0 <= l < builder.to_load.len() && builder.to_load[l].resolved.id.name
            == builder.needs(k)[r].name implies l < k by {
        assert(builder.needs(k).contains(builder.needs(k)[r]));
        let n = choose|n: int|
            0 <= n < imports.len() && !builder.image.hosts.contains_key((#[trigger] imports[n]).unversioned())
                && imports[n].package == builder.needs(k)[r];
        assert(import_comes_first(builder, k, imports[n]));
    }
}

/// If an import does not come first, neither does a need.
proof fn lemma_late_import(builder: BuilderView, k: int, n: int, place: int)
    requires
        0 <= k < builder.to_load.len(),
        0 <= n < builder.to_load[k].resolved.component.imports.len(),
        !builder.image.hosts.contains_key(
            builder.to_load[k].resolved.component.imports[n].unversioned(),
        ),
        k <= place < builder.to_load.len(),
        builder.to_load[place].resolved.id.name
            == builder.to_load[k].resolved.component.imports[n].package.name,
    ensures
        !builder.needs_first(k),
{
    let imports = builder.to_load[k].resolved.component.imports;
    lemma_needed(builder.image.hosts, imports);
    assert(builder.needs(k).contains(imports[n].package));
    let r = builder.needs(k).index_of(imports[n].package);
    assert(builder.needs(k)[r].name == builder.to_load[place].resolved.id.name);
}

/// What is left when one more package has been taken out.
proof fn lemma_remove_next(packages: Map<NameView, LoadedView>, names: Seq<NameView>, k: int)
    requires
        0 <= k < names.len(),
    ensures
        packages.remove_keys(names.take(k + 1).to_set()) == packages.remove_keys(
            names.take(k).to_set(),
        ).remove(names[k]),
{
    let before = names.take(k);
    let after = names.take(k + 1);
    assert forall|name: NameView| #[trigger] after.contains(name) <==> before.contains(name) || name == names[k] by {
        if before.contains(name) {
            assert(after[before.index_of(name)] == name);
        }
        if after.contains(name) && name != names[k] {
            assert(before[after.index_of(name)] == name);
        }
        assert(after[k] == names[k]);
    }
    assert(packages.remove_keys(after.to_set()) =~= packages.remove_keys(before.to_set()).remove(names[k]));
}

/// A transition that is being built: its packages are linked one after the other, and the host
/// instantiates them.
pub struct TransitionProgress<'a> {
    /// What is being built.
    builder: PackageContextTransitionBuilder<'a>,
    /// The packages that are there.
    packages: PackageMap<ResolvedInstance>,
    /// How many of the packages to load have been instantiated.
    done: usize,
}

impl<'a> View for TransitionProgress<'a> {
    type V = ProgressView;

    closed spec fn view(&self) -> ProgressView {
        ProgressView {
            builder: self.builder@,
            packages: loaded_views(self.packages@),
            done: self.done as int,
        }
    }
}

/// The value of a [`PendingInstance`].
#[verifier::ext_equal]
pub struct PendingView {
    /// How far the transition has come.
    pub progress: ProgressView,
    /// The linker with which to instantiate the component.
    pub linker: LinkerView,
}

/// A package that has been linked and must be instantiated.
pub struct PendingInstance<'a> {
    /// How far the transition has come.
    progress: TransitionProgress<'a>,
    /// The linker with which to instantiate the component.
    linker: Linker,
}

impl<'a> View for PendingInstance<'a> {
    type V = PendingView;

    closed spec fn view(&self) -> PendingView {
        PendingView { progress: self.progress@, linker: self.linker@ }
    }
}

/// What must be done next for a transition to be built.
pub enum BuildStep<'a> {
    /// A package must be instantiated.
    Instantiate(PendingInstance<'a>),
    /// The transition is complete.
    Done(PackageContextTransition),
}

impl<'a> TransitionProgress<'a> {
    /// The packages that are there are always those that should be.
    #[verifier::type_invariant]
    spec fn in_order(self) -> bool {
        self.packages.wf() && self@.in_order()
    }

    /// Links the next package against the host and the packages that are there, or completes the
    /// transition if there is none.
    pub fn next(self) -> (step: Result<BuildStep<'a>, LinkError>)
        ensures
            self@.in_order(),
            self@.done == self@.builder.to_load.len() ==> (step matches Ok(BuildStep::Done(transition))
                && transition@ == self@.transition()),
            self@.done < self@.builder.to_load.len() ==> match self@.link_next() {
                Ok(linker) => step matches Ok(BuildStep::Instantiate(pending)) && pending@ == (PendingView {
                    progress: self@,
                    linker,
                }),
                Err(error) => step matches Err(e) && e@ == error,
            },
    {
        let ghost p = self@;
        proof {
            use_type_invariant(&self);
            assert(p.builder.to_load.len() == self.builder.to_load@.len());
        }
        if self.done < self.builder.to_load.len() {
            let step = &self.builder.to_load[self.done];
            proof {
                assert(p.builder.to_load[p.done] == step@);
                assert forall|k: int| 0 <= k < step.resolved.component@.imports.len() implies p.builder.image.hosts.contains_key(
                    (#[trigger] step.resolved.component@.imports[k]).unversioned(),
                ) || self.packages@.contains_key(step.resolved.component@.imports[k].package.name) by {
                    law_imported_packages_are_loaded(p, k);
                }
            }
            match link_package(
                step.id(),
                step.component(),
                &self.packages,
                self.builder.image.hosts(),
                step.linker(),
            ) {
                Ok(linker) => Ok(BuildStep::Instantiate(PendingInstance { progress: self, linker })),
                Err(error) => Err(error),
            }
        } else {
            let mut to_load: Vec<PackageIdentifier> = Vec::new();
            for k in 0..self.builder.to_load.len()
                invariant
                    to_load@.len() == k,
                    forall|l: int|
                        0 <= l < k ==> (#[trigger] to_load@[l])@ == self.builder.to_load@[l]@.resolved.id,
            {
                to_load.push(self.builder.to_load[k].id().clone());
            }
            proof {
                law_finished_transition_matches_image(p);
                assert(id_views(to_load@) =~= option_ids(p.builder.to_load));
            }
            Ok(
                BuildStep::Done(
                    PackageContextTransition {
                        state: self.builder.context.state,
                        image: self.builder.image.clone(),
                        to_load,
                        to_unload: self.builder.to_unload,
                        packages: self.packages,
                    },
                ),
            )
        }
    }
}

impl<'a> PendingInstance<'a> {
    /// There is always a package to instantiate.
    #[verifier::type_invariant]
    spec fn in_order(self) -> bool {
        self.progress.packages.wf() && self.progress@.in_order() && self.progress@.done
            < self.progress@.builder.to_load.len()
    }

    /// The ID of the package that must be instantiated.
    pub fn id(&self) -> (id: &PackageIdentifier)
        ensures
            id@ == self@.progress.builder.to_load[self@.progress.done].resolved.id,
    {
        proof {
            use_type_invariant(self);
        }
        self.progress.builder.to_load[self.progress.done].id()
    }

    /// The component that must be instantiated.
    pub fn component(&self) -> (component: &Component)
        ensures
            component@ == self@.progress.builder.to_load[self@.progress.done].resolved.component,
    {
        proof {
            use_type_invariant(self);
        }
        self.progress.builder.to_load[self.progress.done].component()
    }

    /// The linker with which the component must be instantiated.
    pub fn linker(&self) -> (linker: &Linker)
        ensures
            linker@ == self@.linker,
    {
        &self.linker
    }

    /// Takes over the instance that the host has made, and goes on to the next package.
    pub fn instantiated(self, instance: Instance) -> (progress: TransitionProgress<'a>)
        ensures
            progress@ == self@.progress.with_next(
                LoadedView {
                    version: self@.progress.builder.to_load[self@.progress.done].resolved.id.version,
                    instance: instance@,
                },
            ),
            progress@.in_order(),
    {
        proof {
            use_type_invariant(&self);
        }
        let ghost p = self.progress@;
        let name = self.id().name().clone();
        let version = copy_version(&self.id().version);
        let package = ResolvedInstance { version, instance };
        let ghost view = package@;
        let TransitionProgress { builder, mut packages, done } = self.progress;
        let ghost before = packages@;
        packages.insert(name, package);
        proof {
            assert(loaded_views(packages@) =~= loaded_views(before).insert(name@, view));
            lemma_next_in_order(p, view);
        }
        let count = builder.to_load.len();
        assert(done < count);
        TransitionProgress { builder, packages, done: done + 1 }
    }
}

/// Describes how to move a context between two [`PackageContextImage`]s.
#[derive(Debug)]
pub struct PackageContextTransition {
    /// The original state of the context.
    state: u64,
    /// The image to use.
    image: PackageContextImage,
    /// The list of packages to load.
    to_load: Vec<PackageIdentifier>,
    /// The list of packages to unload.
    to_unload: Vec<PackageIdentifier>,
    /// The new set of packages for the context.
    packages: PackageMap<ResolvedInstance>,
}

impl View for PackageContextTransition {
    type V = TransitionView;

    closed spec fn view(&self) -> TransitionView {
        TransitionView {
            state: self.state,
            image: self.image@,
            to_load: id_views(self.to_load@),
            to_unload: id_views(self.to_unload@),
            packages: loaded_views(self.packages@),
        }
    }
}

/// Whether a transition was created for the current state of a context, which has the packages to
/// unload.
pub open spec fn applicable(transition: TransitionView, context: ContextView) -> bool {
    &&& transition.state == context.state
    &&& forall|k: int|
        0 <= k < transition.to_unload.len() ==> context.packages.contains_key(
            (#[trigger] transition.to_unload[k]).name,
        )
}

/// The context to which a transition has been applied, with the state that a counter gave out for it.
pub open spec fn applied(transition: TransitionView, state: u64) -> ContextView {
    ContextView { state, image: transition.image, packages: transition.packages }
}

/// A transition can be applied to a context exactly if it was built for the state of the context and all
/// packages that it unloads are loaded. Then the context has a new state, and the image and the packages of
/// the transition.
pub proof fn law_applying_goes_by_the_state(transition: TransitionView, context: ContextView, state: u64)
    ensures
        applicable(transition, context) <==> transition.state == context.state && (forall|k: int|
            0 <= k < transition.to_unload.len() ==> context.packages.contains_key(
                (#[trigger] transition.to_unload[k]).name,
            )),
        applied(transition, state).state == state,
        applied(transition, state).image == transition.image,
        applied(transition, state).packages == transition.packages,
{
}

/// The values of a row are those of what stands in it, in its order.
pub proof fn law_row_values_are_in_order(
    packages: Seq<LoadedPackage>,
    options: Seq<PackageBuildOptions>,
    instances: Seq<Instance>,
)
    ensures
        loaded_names(packages).len() == packages.len(),
        forall|i: int| 0 <= i < packages.len() ==> #[trigger] loaded_names(packages)[i] == packages[i]@.0,
        option_views(options).len() == options.len(),
        forall|i: int| 0 <= i < options.len() ==> #[trigger] option_views(options)[i] == options[i]@,
        instance_views(instances).len() == instances.len(),
        forall|i: int| 0 <= i < instances.len() ==> #[trigger] instance_views(instances)[i] == instances[i]@,
{
}

impl PackageContextTransition {
    /// The new packages are always those of the image.
    #[verifier::type_invariant]
    spec fn in_order(self) -> bool {
        self.packages.wf() && matches_image(self@.packages, self@.image)
    }

    /// Whether this transition was created for the current state of the given context.
    pub fn applies_to(&self, ctx: &PackageContext) -> (applies: bool)
        ensures
            applies == applicable(self@, ctx@),
    {
        if self.state != ctx.state {
            return false;
        }
        for k in 0..self.to_unload.len()
            invariant
                forall|l: int|
                    0 <= l < k ==> ctx@.packages.contains_key((#[trigger] self@.to_unload[l]).name),
        {
            assert(self@.to_unload[k as int] == self.to_unload@[k as int]@);
            if !ctx.packages.contains(self.to_unload[k].name()) {
                return false;
            }
        }
        true
    }

    /// Applies this transition to the given context, updating the set of loaded packages. Gives the
    /// instances that are no longer loaded, in the order in which they must be dropped. Once the counter
    /// is past the state of the context, no transition that was created for that state applies any more.
    pub fn apply(self, ctx: &mut PackageContext, counter: &mut StateCounter) -> (dropped: Vec<Instance>)
        requires
            applicable(self@, old(ctx)@),
        ensures
            final(ctx)@ == applied(self@, old(counter)@),
            final(counter)@ == state_after(old(counter)@),
            old(counter)@ != old(ctx)@.state ==> forall|other: TransitionView| #[trigger]
                applicable(other, old(ctx)@) ==> !applicable(other, final(ctx)@),
            instance_views(dropped@) == self@.to_unload.map_values(
                |id: IdView| old(ctx)@.packages[id.name].instance,
            ),
    {
        proof {
            use_type_invariant(&self);
            use_type_invariant(&*ctx);
        }
        let mut dropped: Vec<Instance> = Vec::new();
        for k in 0..self.to_unload.len()
            invariant
                *ctx == *old(ctx),
                ctx.packages.wf(),
                applicable(self@, ctx@),
                dropped@.len() == k,
                forall|l: int|
                    0 <= l < k ==> (#[trigger] dropped@[l])@ == ctx@.packages[self@.to_unload[l].name].instance,
        {
            assert(self@.to_unload[k as int] == self.to_unload@[k as int]@);
            if let Some(package) = ctx.packages.get(self.to_unload[k].name()) {
                dropped.push(package.instance.clone());
            }
        }
        assert(instance_views(dropped@) =~= self@.to_unload.map_values(
            |id: IdView| old(ctx)@.packages[id.name].instance,
        ));
        *ctx = PackageContext {
            state: counter.next_state(),
            image: self.image,
            packages: self.packages,
        };
        dropped
    }

    /// The image upon which this transition is based.
    pub fn image(&self) -> (image: &PackageContextImage)
        ensures
            image@ == self@.image,
            matches_image(self@.packages, self@.image),
    {
        proof {
            use_type_invariant(self);
        }
        &self.image
    }

    /// The ordered list of packages that this transition will load.
    pub fn to_load(&self) -> (ids: &[PackageIdentifier])
        ensures
            id_views(ids@) == self@.to_load,
    {
        self.to_load.as_slice()
    }

    /// The ordered list of packages that this transition will unload.
    pub fn to_unload(&self) -> (ids: &[PackageIdentifier])
        ensures
            id_views(ids@) == self@.to_unload,
    {
        self.to_unload.as_slice()
    }
}

/// A transition that was built for a context can be applied to it.
pub proof fn law_built_transition_is_applicable(p: ProgressView)
    requires
        p.in_order(),
    ensures
        applicable(p.transition(), p.builder.context),
{
    assert forall|k: int| 0 <= k < p.builder.to_unload.len() implies p.builder.context.packages.contains_key(
        (#[trigger] p.builder.to_unload[k]).name,
    ) by {
        law_unloaded_packages_are_loaded(p.builder, k);
    }
}

} // verus!
