//! Generation of random session identifiers.

use vstd::prelude::*;

use rand::distributions::Alphanumeric;
use rand::rngs::OsRng;
use rand::Rng;

verus! {

/// An ASCII digit, upper-case letter or lower-case letter.
pub open spec fn is_alphanumeric_byte(b: u8) -> bool {
    (48 <= b <= 57) || (65 <= b <= 90) || (97 <= b <= 122)
}

/// A well-formed session identifier: exactly 64 bytes, all alphanumeric.
pub open spec fn valid_session_key(s: Seq<u8>) -> bool {
    s.len() == 64 && forall|i: int| 0 <= i < s.len() ==> is_alphanumeric_byte(s[i])
}

/// An opaque session identifier. Always exactly 64 ASCII alphanumeric bytes;
/// the bytes are the UTF-8 form of the identifier the client sees.
#[derive(Clone, Debug)]
pub struct SessionKey {
    bytes: Vec<u8>,
}

impl View for SessionKey {
    type V = Seq<u8>;

    closed spec fn view(&self) -> Seq<u8> {
        self.bytes@
    }
}

impl SessionKey {
    /// The well-formedness invariant every constructed key satisfies.
    pub open spec fn wf(&self) -> bool {
        valid_session_key(self@)
    }

    /// Borrow the identifier's bytes.
    pub fn as_bytes(&self) -> (r: &Vec<u8>)
        ensures
            r@ == self@,
    {
        &self.bytes
    }

    /// Build a key from bytes already in hand, accepting exactly the
    /// well-formed ones.
    pub fn from_bytes(bytes: Vec<u8>) -> (r: Result<SessionKey, Vec<u8>>)
        ensures
            r is Ok <==> valid_session_key(bytes@),
            r is Ok ==> r->Ok_0@ == bytes@ && r->Ok_0.wf(),
            r is Err ==> r->Err_0@ == bytes@,
    {
        if bytes.len() != 64 {
            return Err(bytes);
        }
        let mut i: usize = 0;
        while i < bytes.len()
            invariant
                i <= bytes@.len(),
                bytes@.len() == 64,
                forall|j: int| 0 <= j < i ==> is_alphanumeric_byte(bytes@[j]),
            decreases bytes@.len() - i,
        {
            let b = bytes[i];
            if !((48 <= b && b <= 57) || (65 <= b && b <= 90) || (97 <= b && b <= 122)) {
                return Err(bytes);
            }
            i = i + 1;
        }
        Ok(SessionKey { bytes })
    }

    /// An identical copy of the identifier.
    pub fn clone_key(&self) -> (r: SessionKey)
        ensures
            r@ == self@,
    {
        SessionKey { bytes: vstd::slice::slice_to_vec(self.bytes.as_slice()) }
    }

    /// Compare two identifiers byte for byte.
    pub fn key_eq(&self, other: &SessionKey) -> (r: bool)
        ensures
            r == (self@ == other@),
    {
        if self.bytes.len() != other.bytes.len() {
            return false;
        }
        let mut i: usize = 0;
        while i < self.bytes.len()
            invariant
                i <= self@.len(),
                self@.len() == other@.len(),
                forall|j: int| 0 <= j < i ==> self@[j] == other@[j],
            decreases self@.len() - i,
        {
            if self.bytes[i] != other.bytes[i] {
                return false;
            }
            i = i + 1;
        }
        assert(self@ =~= other@);
        true
    }
}

/// Relies on rand's `OsRng.sample(Alphanumeric)`: a byte drawn from the ASCII
/// alphanumeric alphabet (`A`-`Z`, `a`-`z`, `0`-`9`) by the operating
/// system's cryptographically secure random source.
#[verifier::external_body]
fn sample_alphanumeric_byte() -> (b: u8)
    ensures
        is_alphanumeric_byte(b),
{
    OsRng.sample(Alphanumeric)
}

/// Produce a fresh random session identifier: 64 bytes, each sampled from the
/// alphanumeric alphabet by a cryptographically secure source.
pub fn generate() -> (key: SessionKey)
    ensures
        key.wf(),
{
    let mut bytes: Vec<u8> = Vec::new();
    let mut i: usize = 0;
    while i < 64
        invariant
            i <= 64,
            bytes@.len() == i,
            forall|j: int| 0 <= j < i ==> is_alphanumeric_byte(bytes@[j]),
        decreases 64 - i,
    {
        bytes.push(sample_alphanumeric_byte());
        i = i + 1;
    }
    SessionKey { bytes }
}

} // verus!
