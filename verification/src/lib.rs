//! Core of an event-streaming runtime.
//!
//! The crate verifies the three pieces of the runtime that carry its
//! correctness burden: a text metrics/events wire codec with a byte-exact
//! round-trip law, a schema-driven record-to-protobuf encoder, and the
//! pipeline plumbing (buffered non-blocking sender, priority merge,
//! destination tables with tick suppression).

pub mod channel;
pub mod dogstatsd;
pub mod gbq;
pub mod pipeline;
pub mod proto;
pub mod segments;
pub mod text;
