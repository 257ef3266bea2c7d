# modularity

`modularity` is a bare-bones library for loading and linking WebAssembly components, verified with
Verus. It resolves dependency graphs of packages from arbitrary sources, plans which packages must be
loaded and unloaded to move a context from one set of packages to another, and links the imports of
packages to the host and to the exports of other packages.

The library never touches an engine: components, functions, resource types and instances are known by
handles, and the host does what must be done with them. `app/` does so for `wasm_component_layer`.

## Layout

- `version`, `identifier`: versions, and the names of packages and interfaces.
- `package_map`, `flags`, `graph`: a map by package name, tables of flags, and the dependency graph.
- `linker`, `component`, `hosts`: interfaces, linkers, components and instances.
- `resolution`, `topology`: what resolution does step by step, what every step keeps, and what holds of
  the image that comes of it.
- `tables`: how the tables of an image come to say which packages depend on which.
- `resolver`, `image`: the resolver, and the images that it produces.
- `plan`, `linking`, `progress`: which packages stay, how a package is linked, and how the packages of a
  context become those of an image.
- `loaded`, `context`: contexts, and the transitions that move them from image to image.

## Usage

```rust
let mut resolver = PackageResolver::new(ids, &linker);
let image = loop {
    match resolver.resolve() {
        Ok(image) => break image,
        Err(PackageResolverError::MissingPackages(mut missing)) => {
            for request in missing.unresolved() {
                let (id, component) = get_package(request);
                request.resolve(id, component);
            }
            resolver = missing;
        }
        Err(_) => panic!("the packages cannot be loaded together"),
    }
};

let mut progress = PackageContextTransitionBuilder::new(&image, &ctx).build();
let transition = loop {
    match progress.next().unwrap() {
        BuildStep::Instantiate(pending) => {
            let instance = instantiate(pending.linker(), pending.component());
            progress = pending.instantiated(instance);
        }
        BuildStep::Done(transition) => break transition,
    }
};
for instance in transition.apply(&mut ctx, &mut counter) {
    drop_instance(instance);
}
```
