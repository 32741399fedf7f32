//! An embedded key-value store in the Bitcask style: an append-only data log,
//! an in-memory offset index, a write-ahead log with bracketed batches, a
//! bounded read cache and a secondary index over JSON fields.
//!
//! The library works on in-memory images of its files; the caller moves the
//! images to and from disk.
//!
//! The modules, leaves first: `bytes` and `decimal` for byte strings and
//! numbers; `codec` for the record line; `offsets`, `storage` and `hint` for
//! the offset index, the data log and the hint file; `wal` for the journal;
//! `json`, `index`, `cache` and `serialization` for what the engine leans
//! on; `store` for what is stored, as readers see it; `kv`, `composite` and
//! `clocked` for the engine and its operations; `laws` for what holds
//! across operations; `script`, `table` and `cli` for the script registry
//! and the command line.

pub mod bytes;
pub mod decimal;
pub mod types;
pub mod codec;
pub mod offsets;
pub mod storage;
pub mod hint;
pub mod wal;
pub mod json;
pub mod index;
pub mod cache;
pub mod serialization;
pub mod store;
pub mod kv;
pub mod composite;
pub mod clocked;
pub mod laws;
pub mod table;
pub mod script;
pub mod cli;
