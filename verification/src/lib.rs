//! A verified core for a Rubik's-cube block chain: participants extend a
//! shared chain of blocks by solving a cube scramble that is derived
//! deterministically from the parent block's hash and the new content,
//! and forks are settled by a deterministic fork-choice rule.
//!
//! - [`cube`]: the cube state and move engine.
//! - [`utils`]: the scramble codec, hashing, and solution checking.
//! - [`models`]: blocks, the validity audit, the weekly gate, and tags.
//! - [`chain`]: the fork-choice resolver over a block snapshot.
//! - [`messages`]: user-facing flash messages.

pub mod chain;
pub mod cube;
pub mod messages;
pub mod models;
pub mod utils;
