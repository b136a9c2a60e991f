//! A threshold-approval engine for multi-signature wallets.
//!
//! A wallet is owned by a set of signer identities together with a quorum
//! threshold.  Messages are proposed into a per-wallet queue, gather
//! approvals from signers, and become eligible for signing once the
//! approval count reaches the threshold.  Specially formatted messages are
//! governance commands that reconfigure the signer set instead of being
//! signed.  A registry keeps every wallet under a caller-chosen identifier
//! and maintains a reverse index from signer identity to owned wallets.
//! A companion module recovers the discriminator byte of an ECDSA
//! signature and verifies signatures against a known public key.

pub mod crypto;
pub mod encoding;
pub mod ids;
pub mod registry;
pub mod signer;
pub mod wallet;
