//! A conflict-free replicated manifest for a peer-to-peer shared folder:
//! hybrid logical clocks, an OR-Set of `path -> entry` with last-writer-wins
//! and conflict-copy retention, content-defined chunking, the provider-lease
//! merge rule, and the bookkeeping an agent does between its disk and the
//! manifest.
pub mod hlc;
pub mod strings;
pub mod manifest;
pub mod chunk;
pub mod wire;
pub mod lease;
pub mod store;
