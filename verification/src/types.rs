//! Types shared by the modules of the store.

use vstd::prelude::*;

verus! {

/// Why an operation failed.
#[derive(Clone, Copy, Debug, PartialEq, Eq, Structural)]
pub enum Error {
    /// A file-system or operating-system failure.
    Io,
    /// A value could not be serialized or deserialized.
    Serde,
    /// A script lookup failed.
    NotFound,
    /// A log line is not a well-formed record.
    InvalidRecord,
    /// The scripting sandbox reported an error.
    Lua,
    /// The clock could not be read.
    SystemTime,
}

/// One mutation of a batch.
#[derive(Clone, Debug)]
pub enum BatchOp {
    Put(String, String),
    Del(String),
}

/// A mutation of a batch as a plain value.
pub enum BatchOpView {
    Put(Seq<char>, Seq<char>),
    Del(Seq<char>),
}

impl View for BatchOp {
    type V = BatchOpView;

    open spec fn view(&self) -> BatchOpView {
        match self {
            BatchOp::Put(k, v) => BatchOpView::Put(k@, v@),
            BatchOp::Del(k) => BatchOpView::Del(k@),
        }
    }
}

/// The views of the mutations of a batch.
pub open spec fn ops_view(ops: Seq<BatchOp>) -> Seq<BatchOpView> {
    Seq::new(ops.len(), |i: int| ops[i]@)
}

impl BatchOpView {
    /// The key that the mutation is about.
    pub open spec fn key(self) -> Seq<char> {
        match self {
            BatchOpView::Put(k, _) => k,
            BatchOpView::Del(k) => k,
        }
    }
}

/// What is remembered of a registered script.
#[derive(Clone, Debug)]
pub struct ScriptMeta {
    pub name: String,
    pub sha1: String,
    pub desc: Option<String>,
}

/// Counters and sizes of a store.
#[derive(Clone, Copy, Debug, PartialEq, Eq, Structural)]
pub struct Stats {
    pub reads: u64,
    pub writes: u64,
    pub hits: u64,
    pub misses: u64,
    pub key_count: u64,
    pub log_bytes: u64,
    pub wal_bytes: u64,
    pub hint_bytes: u64,
    pub total_bytes: u64,
}

} // verus!
