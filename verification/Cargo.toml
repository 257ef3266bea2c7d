[package]
name = "modularity"
version = "0.1.0"
edition = "2021"
publish = false

[dependencies]
anyhow = "=1.0.104"
bitvec = "=1.1.1"
fxhash = "=0.2.1"
semver = "=1.0.28"
topo_sort = "=0.4.0"
wasm_component_layer = "=0.1.18"
wasm_runtime_layer = "=0.4.2"
