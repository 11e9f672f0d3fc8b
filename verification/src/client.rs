//! The local client: syncs code roots to the remote, dispatches builds, and
//! integrates with the shell.

pub mod agent;
pub mod ancestor;
pub mod builds;
pub mod commands;
pub mod connection;
pub mod deploy;
pub mod download;
pub mod image;
pub mod service;
pub mod shell_hook;
pub mod shim;
pub mod sync;
