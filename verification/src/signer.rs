//! The signing capability consumed by the approval engine.
//!
//! The engine never computes a signature itself: once a message reaches
//! quorum it is handed to a [`Signer`].  A production backend forwards the
//! message to an external signing service; [`TestSigner`] is a
//! deterministic double for tests.

use vstd::prelude::*;

verus! {

/// Error type for signing operations.
#[derive(Debug, PartialEq, Eq, Structural)]
pub enum SigningError {
    /// Invalid signature error.
    InvalidSignature,
    /// Message already queued error.
    MsgAlreadyQueued,
}

/// A capability that signs messages.
///
/// Nothing is assumed of the returned signature: callers state what holds
/// whatever a backend hands back.
pub trait Signer {
    /// Sign a message and return the raw signature bytes, or a
    /// [`SigningError`] if signing fails.
    fn sign(&self, msg: Vec<u8>) -> Result<Vec<u8>, SigningError>;
}

/// A test signer that always succeeds and returns an empty signature.
pub struct TestSigner;

impl Signer for TestSigner {
    fn sign(&self, _msg: Vec<u8>) -> (r: Result<Vec<u8>, SigningError>)
        ensures
            r matches Ok(sig) && sig@ == Seq::<u8>::empty(),
    {
        Ok(Vec::new())
    }
}

} // verus!
