pub mod document;
pub mod fs_helpers;
pub mod kdl_helpers;
pub mod project;
pub mod skeleton;
pub mod task;

pub use project::ProjectConfig;
pub use skeleton::SkeletonConfig;
pub use task::{Task, TaskStep};
