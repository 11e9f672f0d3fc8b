//! The remote daemon: holds the workspace mirror, and runs every build inside
//! a container so the host filesystem stays pristine.

pub mod backend;
pub mod builds;
pub mod serve;
pub mod sync;
