//! A map with built-in change tracking, so that clients can follow it
//! incrementally.
//!
//! [`RepLogMap`] is a map from byte strings to byte strings, held in stable
//! structures. It gives every key a stable entry ID and logs every change, so
//! that a client can ask for what changed since it last synced, or read the
//! whole map page by page where the log no longer reaches back that far.
//!
//! - [`replog`]: the map and its operations.
//! - [`changelog`]: the change records, the counters and their stored forms.
//! - [`storage`]: the stable structures that hold the map, with what is believed
//!   of them.
//! - [`model`]: what a map holds, and what each operation makes of it.
//! - [`image`]: what the memories of a map hold.
//! - [`order`]: the order of keys.
//! - [`answers`] and [`effects`]: what each operation answers, and what it does to every
//!   key, entry ID and change.
//! - [`laws`]: what holds of every map; [`history`]: what holds over any sequence of
//!   operations on it.
//! - [`sync`] and [`sync_by_id`]: why a client that follows a map in requests of
//!   any size ends with the contents of the map; [`snapshot`], [`resync`] and
//!   [`resync_by_id`]: the same of one that reads it page by page first;
//!   [`late_values`]: the same of one that files rows before it has their values.

pub mod answers;
pub mod changelog;
pub mod effects;
pub mod history;
pub mod image;
pub mod late_values;
pub mod laws;
pub mod model;
pub mod order;
pub mod replog;
pub mod resync;
pub mod resync_by_id;
pub mod snapshot;
pub mod storage;
pub mod sync;
pub mod sync_by_id;

pub use changelog::{ChangeEntry, ChangeKind, Counters};
pub use order::KeyBound;
pub use replog::{RepLogError, RepLogMap};
pub use storage::PagedMemory;
