//! A versioned, content-addressed note store with multi-device reconciliation.
//!
//! Notes are immutable, content-addressed records: a logical note (identified
//! by a stable 128-bit id) is a sequence of note versions, each keyed by a
//! fingerprint of its tags and payload.  The store keeps at most one version
//! of each logical note active; updating a note inserts a new version and
//! retires the old one.  A reconciliation module merges batches of notes and
//! review events coming from independent replicas with field-level
//! last-writer-wins rules.

pub mod config;
pub mod fingerprint;
pub mod note;
pub mod store;
pub mod sync;
pub mod tags;

pub use config::CliConfig;
pub use note::{DbNote, InputNote, NoteData, NoteParseError, ReviewResult};
pub use store::Store;
pub use sync::ReplicaStore;
