//! Loading of a two-layer skeleton configuration, ordering of its content
//! by declared dependencies, and merging of variables and tasks across layers.

pub mod config;
pub mod content;
pub mod error;
pub mod order;
pub mod skeleton;
pub mod table;
pub mod text;
pub mod util;

pub use crate::skeleton::Skeleton;
