//! Partitioning of `user:password` records into shard files keyed by the
//! first three characters of the password.
pub mod classify;
pub mod pipeline;
pub mod record;
pub mod shard;
pub mod text;
