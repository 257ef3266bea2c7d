//! Resolving, linking and loading packages of WebAssembly components.

pub mod version;
pub mod identifier;
pub mod package_map;
pub mod flags;
pub mod graph;
pub mod linker;
pub mod component;
pub mod hosts;
pub mod image;
pub mod resolution;
pub mod stepping;
pub mod tables;
pub mod topology;
pub mod resolver;
pub mod plan;
pub mod loaded;
pub mod linking;
pub mod progress;
pub mod context;

pub use context::{BuildStep, PackageBuildOptions, PackageContext, PackageContextTransition};
pub use context::{PackageContextTransitionBuilder, PendingInstance, StateCounter, TransitionProgress};
pub use image::PackageContextImage;
pub use loaded::LoadedPackage;
pub use resolver::{PackageResolver, PackageResolverError, UnresolvedPackage};
