//! A crash-safe, position-indexed opening-book store.
//!
//! The store maps a normalized board-position key to an ordered list of
//! candidate moves, each annotated with a priority, outcome counters, an
//! enable flag and a comment.  The in-memory index ([`index`]), the on-disk
//! record codec ([`codec`]) and the per-operation storage engine
//! ([`storage`]) are verified; a thin unverified layer around the library
//! performs the actual file reads, atomic renames and locking.

pub mod codec;
pub mod index;
pub mod order;
pub mod paths;
pub mod storage;
pub mod types;
