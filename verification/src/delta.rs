//! The coarse delta model: typed fact transitions collected from file
//! diffs, plus the receipt recorded when a guard produced them.

use vstd::prelude::*;

verus! {

/// How a fact changed.
#[derive(Debug, Clone, PartialEq, Eq)]
pub enum Change {
    Added,
    Removed,
    Modified { from: String, to: String },
}

/// Kind of declaration.
#[derive(Debug, Clone, Copy, PartialEq, Eq)]
pub enum DeclKind {
    Function,
    Type,
    Constant,
    Import,
    Module,
    Field,
}

/// Core delta type: a semantic fact transition.
#[derive(Debug, Clone)]
pub enum Delta {
    Declaration { kind: DeclKind, name: String, change: Change },
    Rule { section: String, predicate: String, change: Change },
    Criterion { ticket_id: String, ac: String, change: Change },
    Dependency { name: String, from: String, to: String, breaking: bool },
    Behavior { component: String, old: String, new: String, breaking: bool },
    Quad { adds: Vec<String>, removes: Vec<String> },
}

/// An ordered list of deltas.
#[derive(Debug, Clone)]
pub struct DeltaList {
    pub deltas: Vec<Delta>,
}

impl DeltaList {
    pub fn new() -> (r: Self)
        ensures
            r.deltas@ =~= Seq::<Delta>::empty(),
    {
        DeltaList { deltas: Vec::new() }
    }

    pub fn add(&mut self, delta: Delta)
        ensures
            final(self).deltas@ == old(self).deltas@.push(delta),
    {
        self.deltas.push(delta);
    }
}

/// Nanoseconds since the Unix epoch at some moment during the call; the
/// value depends on the clock, so nothing more is promised.
///
/// Relies on std::time::SystemTime::now and its distance from UNIX_EPOCH.
#[verifier::external_body]
fn unix_time_ns() -> u64 {
    std::time::SystemTime::now()
        .duration_since(std::time::UNIX_EPOCH)
        .unwrap_or_default()
        .as_nanos() as u64
}

/// Receipt for one delta production.
#[derive(Debug, Clone)]
pub struct GuardReceipt {
    /// Taken from the wall clock when the receipt is created.
    pub timestamp_ns: u64,
    pub session_id: String,
    pub file_path: String,
    pub input_hash: String,
    pub output_hash: String,
    pub delta_hash: String,
    pub injected: bool,
    pub delta_count: usize,
}

impl GuardReceipt {
    pub fn new(
        session_id: String,
        file_path: String,
        input_hash: String,
        output_hash: String,
        delta_hash: String,
        delta_count: usize,
    ) -> (r: Self)
        ensures
            r.session_id == session_id,
            r.file_path == file_path,
            r.input_hash == input_hash,
            r.output_hash == output_hash,
            r.delta_hash == delta_hash,
            r.delta_count == delta_count,
            !r.injected,
    {
        GuardReceipt {
            timestamp_ns: unix_time_ns(),
            session_id,
            file_path,
            input_hash,
            output_hash,
            delta_hash,
            injected: false,
            delta_count,
        }
    }
}

} // verus!
