//! Verified core of a dependency injection container: provider registries
//! with hierarchical lookup and scoped caching, circular dependency
//! detection, dependency graph ordering, module lifecycle planning, metrics
//! rendering and the error model shared by all of them.
use vstd::prelude::*;

pub mod actix;
pub mod application;
pub mod assoc;
pub mod axum;
pub mod eager;
pub mod error;
pub mod graph;
pub mod injectable;
pub mod lifecycle;
pub mod instance;
pub mod observability;
pub mod registry;
pub mod resolve_guard;
pub mod scope;
pub mod text;

pub use error::{Error, ErrorKind};
pub use instance::Instance;

verus! {

/// Shared, reference-counted ownership of a resolved value.
pub type Shared<T> = std::sync::Arc<T>;

} // verus!
