//! Management of pseudo-terminal (PTY) sessions for a terminal-emulator host.
//!
//! The crate keeps a warm pool of pre-spawned shells, routes reader output
//! through a per-PTY state machine that either buffers bytes (while pooled)
//! or streams them to an output channel (once assigned), splits byte streams
//! on UTF-8 character boundaries so that multi-byte characters survive read
//! boundaries, and tracks the table of live terminal sessions.

pub mod cwd;
pub mod errors;
pub mod manager;
pub mod messages;
pub mod reader;
pub mod router;
pub mod splitter;

use vstd::prelude::*;

verus! {

/// Largest number of pre-spawned shells kept idle in the pool.
pub const MAX_POOL_SIZE: usize = 3;

} // verus!
