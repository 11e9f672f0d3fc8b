//! rbuild: run a build command locally, have it compile on a remote machine,
//! and get the artifacts back as if they had been built here.
//!
//! This crate is the verified core of the client (`rbuild`) and of the daemon
//! (`rbuildd`): the frames and messages they exchange, content-addressed
//! manifests and the three-way merge over them, rolling-hash deltas, the state
//! of sync and build sessions, and every decision that their I/O loops act on.
//! Nothing in here performs I/O.

use vstd::prelude::*;

pub mod chunk;
pub mod client;
pub mod config;
pub mod daemon;
pub mod hash;
pub mod merge;
pub mod path;
pub mod proto;
pub mod scan;
pub mod text;
pub mod transport;

pub use proto::{Message, Target, PROTOCOL_VERSION};

verus! {

/// Version string exchanged in the handshake so mismatches are visible.
pub const VERSION: &'static str = "0.1.0";

} // verus!
