//! A frame allocator that keeps its free list in fixed-capacity storage.
//!
//! `noalloc` holds the allocator, `model` the mathematical model that its
//! contracts speak of, `laws` what holds of its operations, and `lemmas`,
//! `sorting` and `coalescing` the facts that the proofs rest on.

pub mod coalescing;
pub mod laws;
pub mod lemmas;
pub mod model;
pub mod noalloc;
pub mod sorting;
