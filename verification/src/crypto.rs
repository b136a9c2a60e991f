//! Signature recovery and verification.
//!
//! An externally produced ECDSA signature is a fixed 64-byte (r,s) pair
//! with no discriminator: the byte that says which of two candidate
//! public keys the signature belongs to.  Recovery tries both candidates
//! against a known public key; verification splits a completed 65-byte
//! signature, recovers the key and compares.

use vstd::prelude::*;

use crate::wallet::clone_bytes;

verus! {

/// Errors from signature recovery and verification.
#[derive(Debug, PartialEq, Eq, Structural)]
pub enum CryptoError {
    /// A digest or signature had the wrong length, or the trailing
    /// discriminator byte was not one of the two candidates.
    MalformedInput,
    /// Neither discriminator candidate recovers the known public key.
    NoMatchingDiscriminator,
}

/// The serialized public key that ECDSA recovery yields for a digest, a
/// 64-byte signature and a discriminator candidate; nothing when
/// recovery fails.
pub uninterp spec fn recovered_key(digest: Seq<u8>, sig: Seq<u8>, rec_id: u8) -> Option<Seq<u8>>;

/// Relies on `libsecp256k1::recover` (with `Message::parse_slice`,
/// `Signature::parse_overflowing_slice` and `RecoveryId::parse`):
/// public-key recovery is a deterministic function of the digest, the
/// signature bytes and the recovery id, and a recovered key serializes
/// to 65 bytes.
#[verifier::external_body]
fn recover_pubkey(digest: &[u8], sig: &[u8], rec_id: u8) -> (r: Option<Vec<u8>>)
    requires
        digest@.len() == 32,
        sig@.len() == 64,
        rec_id == 0 || rec_id == 1,
    ensures
        r matches Some(k) ==> recovered_key(digest@, sig@, rec_id) == Some(k@) && k@.len() == 65,
        r is None ==> recovered_key(digest@, sig@, rec_id) is None,
{
    let message = libsecp256k1::Message::parse_slice(digest).ok()?;
    let signature = libsecp256k1::Signature::parse_overflowing_slice(sig).ok()?;
    let id = libsecp256k1::RecoveryId::parse(rec_id).ok()?;
    let key = libsecp256k1::recover(&message, &signature, &id).ok()?;
    Some(key.serialize().to_vec())
}

/// Whether a recovered key equals the known 65-byte public key.
fn key_matches(k: &Vec<u8>, key: &[u8; 65]) -> (r: bool)
    ensures
        r == (k@ == key@),
{
    if k.len() != 65 {
        assert(k@.len() != key@.len());
        return false;
    }
    let mut i: usize = 0;
    while i < 65
        invariant
            i <= 65,
            k@.len() == 65,
            key@.len() == 65,
            forall|j: int| 0 <= j < i ==> k@[j] == key@[j],
        decreases 65 - i,
    {
        if k[i] != key[i] {
            assert(k@ != key@);
            return false;
        }
        i = i + 1;
    }
    assert(k@ =~= key@);
    true
}

/// Search the two discriminator candidates for the one whose recovered
/// key matches the known public key: the answer is the first candidate
/// that matches, and there is none exactly when neither matches.
pub fn find_recovery_id(msg: &[u8], sig: &[u8], known_pubkey: [u8; 65]) -> (r: Option<u8>)
    requires
        msg@.len() == 32,
        sig@.len() == 64,
    ensures
        r matches Some(id) ==> (id == 0 || id == 1) && recovered_key(msg@, sig@, id) == Some(
            known_pubkey@,
        ) && (id == 1 ==> recovered_key(msg@, sig@, 0) != Some(known_pubkey@)),
        r is None ==> recovered_key(msg@, sig@, 0) != Some(known_pubkey@) && recovered_key(
            msg@,
            sig@,
            1,
        ) != Some(known_pubkey@),
{
    match recover_pubkey(msg, sig, 0) {
        Some(k) => {
            if key_matches(&k, &known_pubkey) {
                return Some(0);
            }
        },
        None => {},
    }
    match recover_pubkey(msg, sig, 1) {
        Some(k) => {
            if key_matches(&k, &known_pubkey) {
                return Some(1);
            }
        },
        None => {},
    }
    None
}

/// A completed signature verifies: the digest and signature are well
/// formed and the key recovered with the embedded discriminator is the
/// known key.
pub open spec fn spec_verify(msg: Seq<u8>, signature: Seq<u8>, key: Seq<u8>) -> bool {
    &&& msg.len() == 32
    &&& signature.len() == 65
    &&& signature[64] == 0 || signature[64] == 1
    &&& recovered_key(msg, signature.subrange(0, 64), signature[64]) == Some(key)
}

/// Complete a raw 64-byte signature with the discriminator recovered
/// against the known public key.  The completed signature verifies
/// against that key; when neither candidate matches, the signing attempt
/// has failed fatally.
pub fn attach_recovery_id(digest: &[u8], sig: &Vec<u8>, known_pubkey: [u8; 65]) -> (r: Result<
    Vec<u8>,
    CryptoError,
>)
    requires
        digest@.len() == 32,
        sig@.len() == 64,
    ensures
        r matches Ok(full) ==> full@.len() == 65 && full@.subrange(0, 64) == sig@ && spec_verify(
            digest@,
            full@,
            known_pubkey@,
        ) && (full@[64] == 1 ==> recovered_key(digest@, sig@, 0) != Some(known_pubkey@)),
        r matches Err(e) ==> e == CryptoError::NoMatchingDiscriminator && recovered_key(
            digest@,
            sig@,
            0,
        ) != Some(known_pubkey@) && recovered_key(digest@, sig@, 1) != Some(known_pubkey@),
{
    match find_recovery_id(digest, sig.as_slice(), known_pubkey) {
        Some(id) => {
            let mut full = clone_bytes(sig);
            full.push(id);
            proof {
                assert(full@.subrange(0, 64) =~= sig@);
            }
            Ok(full)
        },
        None => Err(CryptoError::NoMatchingDiscriminator),
    }
}

/// Verification round trip: a 64-byte signature completed with a
/// discriminator whose recovered key is the known key — as
/// [`attach_recovery_id`] completes it — verifies against that key.
pub proof fn lemma_completed_signature_verifies(
    digest: Seq<u8>,
    sig: Seq<u8>,
    full: Seq<u8>,
    key: Seq<u8>,
)
    requires
        digest.len() == 32,
        sig.len() == 64,
        full.len() == 65,
        full.subrange(0, 64) == sig,
        full[64] == 0 || full[64] == 1,
        recovered_key(digest, sig, full[64]) == Some(key),
    ensures
        spec_verify(digest, full, key),
{
}

/// Verify a completed signature against a known public key.  The digest
/// must be 32 bytes and the signature 65, its trailing byte one of the
/// two discriminator candidates; anything else is malformed.  The result
/// is the comparison of the recovered key with the known key: a
/// non-matching signature is a `false` answer, not an error.
pub fn verify_signature_with_key(msg: &Vec<u8>, signature: &Vec<u8>, known_pubkey: [u8; 65]) -> (r:
    Result<bool, CryptoError>)
    ensures
        msg@.len() == 32 && signature@.len() == 65 && (signature@[64] == 0 || signature@[64] == 1)
            ==> r == Ok::<bool, CryptoError>(spec_verify(msg@, signature@, known_pubkey@)),
        !(msg@.len() == 32 && signature@.len() == 65 && (signature@[64] == 0 || signature@[64]
            == 1)) ==> r == Err::<bool, CryptoError>(CryptoError::MalformedInput),
{
    if msg.len() != 32 || signature.len() != 65 {
        return Err(CryptoError::MalformedInput);
    }
    let rec = signature[64];
    if rec > 1 {
        return Err(CryptoError::MalformedInput);
    }
    let sig64 = vstd::slice::slice_subrange(signature.as_slice(), 0, 64);
    match recover_pubkey(msg.as_slice(), sig64, rec) {
        Some(k) => Ok(key_matches(&k, &known_pubkey)),
        None => Ok(false),
    }
}

} // verus!
