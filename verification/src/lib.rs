//! A message-level multiplexer for Language Server Protocol traffic: one
//! client-facing stream fanned out to several backend language servers,
//! whose replies are fanned back in onto the single client stream.
use vstd::prelude::*;

pub mod codec;
pub mod config;
pub mod engine;

verus! {

/// Capacity of the broadcast channel and of each per-backend queue.
pub const CHANNEL_CAPACITY: usize = 100;

} // verus!

