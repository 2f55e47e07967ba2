//! Organizes media files from a source tree into a destination tree laid
//! out by capture date, copying each file at most once across repeated,
//! resumable runs.
//!
//! The crate models the copy engine over plain values: source files are
//! byte vectors with relative paths, the durable record of discovered and
//! copied files is a [`store::StateStore`], and the destination tree is a
//! [`dest::DestIndex`] of path, size and content-digest entries. All
//! decisions — capture-date extraction, collision handling, duplicate
//! detection, state transitions — are verified; reading directories,
//! copying bytes and persisting the state are left to the surrounding
//! program.

pub mod digits;
pub mod paths;
pub mod capture;
pub mod compare;
pub mod store;
pub mod dest;
pub mod engine;
