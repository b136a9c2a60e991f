//! Signer identities.
//!
//! A signer is identified by the raw bytes of its principal: an opaque,
//! comparable token.  Equality is exact byte equality; no ordering is
//! required.  A principal holds at most 29 significant bytes, and the
//! textual form used by governance commands is the canonical principal
//! text representation.

use vstd::prelude::*;

verus! {

/// The largest number of significant bytes a principal may hold.
pub const MAX_ID_BYTES: usize = 29;

/// An opaque signer identity: the raw bytes of a participant's principal.
#[derive(Debug)]
pub struct SignerId {
    bytes: Vec<u8>,
}

impl View for SignerId {
    type V = Seq<u8>;

    closed spec fn view(&self) -> Seq<u8> {
        self.bytes@
    }
}

impl SignerId {
    /// Identities built by this library never exceed the principal length limit.
    pub open spec fn wf(&self) -> bool {
        self@.len() <= MAX_ID_BYTES
    }

    /// Wrap raw principal bytes; rejects byte strings longer than a principal allows.
    pub fn from_bytes(bytes: Vec<u8>) -> (r: Option<SignerId>)
        ensures
            bytes@.len() <= MAX_ID_BYTES ==> (r matches Some(id) && id@ == bytes@ && id.wf()),
            bytes@.len() > MAX_ID_BYTES ==> r is None,
    {
        if bytes.len() <= MAX_ID_BYTES {
            Some(SignerId { bytes })
        } else {
            None
        }
    }

    /// The identity's raw bytes.
    pub fn as_bytes(&self) -> (r: &Vec<u8>)
        ensures
            r@ == self@,
    {
        &self.bytes
    }

    /// Parse the canonical text representation of a principal.
    ///
    /// Returns the identity exactly when the text is a well-formed
    /// principal, as `principal_of_text` describes.
    pub fn from_text(text: &str) -> (r: Option<SignerId>)
        ensures
            (r matches Some(id) ==> principal_of_text(text@) == Some(id@) && id.wf()),
            r is None ==> principal_of_text(text@) is None,
    {
        match parse_principal_text(text) {
            Some(bytes) => Some(SignerId { bytes }),
            None => None,
        }
    }

    /// The canonical text representation of this identity.
    ///
    /// Parsing the result gives back exactly this identity.
    pub fn to_text(&self) -> (r: String)
        requires
            self.wf(),
        ensures
            r@ == principal_text(self@),
            principal_of_text(r@) == Some(self@),
    {
        principal_text_of_bytes(&self.bytes)
    }
}

impl Clone for SignerId {
    fn clone(&self) -> (r: Self)
        ensures
            r@ == self@,
    {
        let mut bytes: Vec<u8> = Vec::new();
        let mut i: usize = 0;
        while i < self.bytes.len()
            invariant
                i <= self.bytes.len(),
                bytes@ == self.bytes@.subrange(0, i as int),
            decreases self.bytes.len() - i,
        {
            bytes.push(self.bytes[i]);
            i = i + 1;
        }
        assert(bytes@ =~= self.bytes@);
        SignerId { bytes }
    }
}

impl PartialEq for SignerId {
    fn eq(&self, other: &SignerId) -> (r: bool) {
        if self.bytes.len() != other.bytes.len() {
            assert(self@ != other@);
            return false;
        }
        let mut i: usize = 0;
        while i < self.bytes.len()
            invariant
                i <= self.bytes.len(),
                self.bytes@.len() == other.bytes@.len(),
                forall|j: int| 0 <= j < i ==> self.bytes@[j] == other.bytes@[j],
            decreases self.bytes.len() - i,
        {
            if self.bytes[i] != other.bytes[i] {
                assert(self@ != other@);
                return false;
            }
            i = i + 1;
        }
        assert(self@ =~= other@);
        true
    }
}

impl vstd::std_specs::cmp::PartialEqSpecImpl for SignerId {
    open spec fn obeys_eq_spec() -> bool {
        true
    }

    open spec fn eq_spec(&self, other: &SignerId) -> bool {
        self@ == other@
    }
}

/// The bytes of the principal whose canonical text representation is the
/// given text, if the text is a well-formed principal.
pub uninterp spec fn principal_of_text(text: Seq<char>) -> Option<Seq<u8>>;

/// The canonical text representation of the principal with the given bytes.
pub uninterp spec fn principal_text(bytes: Seq<u8>) -> Seq<char>;

/// Relies on `candid::Principal::from_text`: parsing accepts exactly the
/// canonical text representations, the result is a function of the text
/// alone, and a principal never exceeds 29 bytes.
#[verifier::external_body]
fn parse_principal_text(text: &str) -> (r: Option<Vec<u8>>)
    ensures
        (r matches Some(bytes) ==> principal_of_text(text@) == Some(bytes@) && bytes@.len()
            <= MAX_ID_BYTES),
        r is None ==> principal_of_text(text@) is None,
{
    match candid::Principal::from_text(text) {
        Ok(p) => Some(p.as_slice().to_vec()),
        Err(_) => None,
    }
}

/// Relies on `candid::Principal::to_text` (with `Principal::try_from_slice`,
/// which accepts every slice of at most 29 bytes): printing is a function of
/// the bytes alone, and `Principal::from_text` parses the canonical text
/// back to the same principal.
#[verifier::external_body]
fn principal_text_of_bytes(bytes: &Vec<u8>) -> (r: String)
    requires
        bytes@.len() <= MAX_ID_BYTES,
    ensures
        r@ == principal_text(bytes@),
        principal_of_text(r@) == Some(bytes@),
{
    match candid::Principal::try_from_slice(bytes.as_slice()) {
        Ok(p) => p.to_text(),
        Err(_) => String::new(),
    }
}

} // verus!
