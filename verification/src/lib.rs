//! A process-mining analytics engine with verified repository tooling.
//!
//! The core takes an event log (a restricted XES-like text format) and a
//! Petri net (a restricted PNML-like text format) and answers how well the
//! log conforms to the net (token-based replay), what net best explains the
//! log (directly-follows discovery), and how fast the process runs
//! (performance statistics). A log can also be re-expressed as an
//! object-centric event log document.
//!
//! Around the engine live the verified pieces of the repository tooling
//! that grew up beside it: typed fact deltas with content hashes, the
//! declaration, rules, manifest, ticket, quad and changelog differs that
//! produce them, and the emitter context their host shares.

#![verifier::loop_isolation(false)]

pub mod api;
pub mod assoc;
pub mod delta;
pub mod differ;
pub mod discovery;
pub mod emit;
pub mod facts;
pub mod javadiff;
pub mod manifest_diff;
pub mod log_codec;
pub mod log_model;
pub mod net_codec;
pub mod net_model;
pub mod ocel;
pub mod performance;
pub mod replay;
pub mod scout;
pub mod structural;
pub mod text;

