//! A synchronization engine for conversation transcripts: one
//! append-only record-log file per session, mirrored across machines
//! through a version-controlled tree.
//!
//! The engine's decisions are verified: reading a transcript into a
//! session record and deduplicating sessions that share an identifier
//! (`session`), classifying every local session against the synced
//! tree by content fingerprint and planning scoped deletions (`push`),
//! recovering project names from encoded directory names and checking
//! the synced tree's layout (`discovery`), the file filter and its
//! configuration (`filter`), merging a platform-tagged shared document
//! (`platform`), and choosing which peer's configuration to apply
//! (`config_sync`). All I/O — walking trees, reading and writing
//! files, driving the version-control backend — stays outside and
//! hands these modules plain values.

pub mod config_sync;
pub mod discovery;
pub mod filter;
pub mod platform;
pub mod push;
pub mod session;
pub mod summary;
pub mod text;
pub mod update;
