//! Directory snapshotting and comparison.
//!
//! A snapshot maps each relative file path to a content digest. A snapshot can
//! be serialized to bytes and reloaded, and a live directory listing can be
//! reconciled against a loaded snapshot, classifying every path as present
//! only in the directory, present only in the record, or changed in content.

pub mod order;
pub mod digest;
pub mod snapshot;
pub mod codec;
pub mod reconcile;
pub mod laws;
