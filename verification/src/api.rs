//! Plain request and response shapes the engine exchanges with a hosting
//! service: text blobs in, plain data out. The engine itself performs no
//! I/O; a host parses its wire format into these and back.

use vstd::prelude::*;

verus! {

/// A liveness report of the hosting service.
pub struct HealthResponse {
    pub status: String,
    pub version: String,
    pub timestamp: String,
}

/// A conformance-check request: a model text and a log text.
pub struct ReplayRequest {
    pub pnml: String,
    pub xes: String,
}

/// A discovery or analysis request: a log text.
pub struct DiscoveryRequest {
    pub xes: String,
}

/// A discovered model, serialized.
pub struct AlphaResponse {
    pub pnml: String,
}

/// A client-facing failure: what was violated, and any detail.
pub struct ErrorResponse {
    pub error: String,
    pub details: Option<String>,
}

} // verus!
