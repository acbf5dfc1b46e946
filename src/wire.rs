//! The messages exchanged between verifiers and the prover.

use vstd::prelude::*;
use crate::affine::AffineTuple;

verus! {

/// The protocol version this prover speaks.
pub const PROTOCOL_VERSION: u16 = 1;

/// What every request carries.
#[derive(Clone, Copy, Debug, PartialEq, Eq, Structural)]
pub struct RequestHeader {
    pub version: u16,
    pub timestamp: u64,
    pub request_id: u64,
}

/// A request sent by a verifier.
#[derive(Clone, Debug, PartialEq, Eq)]
pub enum HtpRequest {
    /// A membership proof for `user_id`.
    GetProof { header: RequestHeader, user_id: String },
    /// The current global root.
    GetGlobalRoot { header: RequestHeader },
    /// Registers `user_id`.
    RegisterUser { header: RequestHeader, user_id: String },
}

/// A response of the prover.
#[derive(Clone, Debug, PartialEq, Eq)]
pub enum HtpResponse {
    /// A proof bundle; it never names the target coordinate.
    ProofBundle {
        request_id: u64,
        primary_path: Vec<AffineTuple>,
        orthogonal_anchors: Vec<AffineTuple>,
        epoch: u64,
    },
    /// The current global root.
    GlobalRoot(AffineTuple),
    /// A registration went through.
    RegisterSuccess { request_id: u64, epoch: u64 },
    /// A failure, as a generic message.
    Error(String),
}

} // verus!
