//! Discovery-to-selection pipeline for version-controlled project
//! directories: a deduplicating cache with a persistent text format,
//! path-walking rules, session-name derivation, and the session
//! activation state machine.

pub mod cache;
pub mod codec;
pub mod pipeline;
pub mod record;
pub mod session;
pub mod walker;
