//! Where a party is, and the coarse classification of what a provider can
//! fail with.
use vstd::prelude::*;

verus! {

/// Where a party is: who, and which of their devices.
#[derive(Clone, Debug, PartialEq, Eq, PartialOrd, Ord, Hash)]
pub struct Address {
    pub user: String,
    pub device: u8,
}

impl Address {
    pub fn new(user: &str, device: u8) -> (a: Address)
        ensures
            a.user@ == user@,
            a.device == device,
    {
        Address { user: user.to_owned(), device }
    }
}

/// The failure classes two providers are compared on.
#[derive(Clone, Copy, Debug, PartialEq, Eq, Structural)]
pub enum Failure {
    /// The ciphertext was not well-formed, or not for this session.
    Undecryptable,
    /// The bundle was rejected.
    BadBundle,
    /// No session with that peer, where one was required.
    NoSession,
    /// Anything else.
    Other,
}

/// Bytes as a sixty-four-byte array.
fn array64(bytes: &[u8]) -> (a: [u8; 64])
    requires
        bytes@.len() == 64,
    ensures
        a@ == bytes@,
{
    let mut a = [0u8; 64];
    for i in 0..64
        invariant
            bytes@.len() == 64,
            forall|j: int| 0 <= j < i ==> a@[j] == bytes@[j],
    {
        a[i] = bytes[i];
    }
    assert(a@ =~= bytes@);
    a
}

/// What a challenge verification checks before any signature arithmetic:
/// the identity is a thirty-two-byte key and the signature sixty-four
/// bytes. Both as fixed-width arrays, or `None`, which fails the
/// verification, for any other width.
pub fn challenge_parts(identity: &[u8], signature: &[u8]) -> (r: Option<([u8; 32], [u8; 64])>)
    ensures
        match r {
            Some((key, sig)) => key@ == identity@ && sig@ == signature@,
            None => !(identity@.len() == 32 && signature@.len() == 64),
        },
{
    if identity.len() != 32 || signature.len() != 64 {
        return None;
    }
    Some((crate::group::array32(identity), array64(signature)))
}

} // verus!
