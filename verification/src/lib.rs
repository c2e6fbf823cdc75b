//! Client-side building blocks of a remote-attestation key-broker protocol.
//!
//! A confidential workload registers its expected measurement with a remote
//! key broker ([`client_registration`]), proves its identity through a
//! request/challenge/attestation handshake bound to an ephemeral RSA key
//! ([`client_session`]), and receives a secret wrapped in a JWE-style
//! envelope.  A network-isolated environment reaches the broker by relaying
//! framed JSON documents over a duplex byte channel ([`client_proxy`]).

use vstd::prelude::*;

pub mod codec;
pub mod json;
pub mod client_proxy;
pub mod client_registration;
pub mod client_session;

use crate::client_proxy::CPError;
use crate::client_registration::CRError;
use crate::client_session::CSError;

verus! {

/// Union of the error domains of the three subsystems.
#[derive(Debug, Clone, PartialEq, Eq)]
pub enum KBCError {
    /// Errors raised while driving an attestation session.
    CS(CSError),
    /// Errors raised while building a registration payload.
    CR(CRError),
    /// Errors raised by the proxy tunnel.
    CP(CPError),
}

} // verus!
