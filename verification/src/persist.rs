//! The sealed envelope for persisted client state, and the freshness policy
//! for the generation it carries.
//!
//! A sealed blob is a version byte, an eight-byte big-endian generation
//! counter, the payload, and an HMAC-SHA-256 tag over those under a domain
//! label. The counter sits inside the authenticated bytes, so a writer who
//! lacks the key cannot lower it without breaking the tag. The payload is
//! authenticated, not encrypted.
use crate::codec::{be64, extend, lemma_be64_of, lemma_u64_roundtrip, put_u64, read_u64, to_vec, u64_of};
use hmac::{Hmac, Mac};
use sha2::Sha256;
use vstd::prelude::*;

verus! {

/// This envelope's own format version.
pub const SEAL_VERSION: u8 = 0x01;
/// The generation counter's width.
pub const GENERATION_LEN: usize = 8;
/// The authenticator's width.
pub const TAG_LEN: usize = 32;
/// What a sealed blob adds to its payload.
pub const SEAL_OVERHEAD: usize = 1 + GENERATION_LEN + TAG_LEN;

/// HMAC-SHA-256 of `message` under `key`.
pub uninterp spec fn hmac_sha256(key: Seq<u8>, message: Seq<u8>) -> Seq<u8>;

/// The label the authenticator is taken under: `tacenta:persisted-state:v1`
/// and a terminator byte that cannot occur in the prefix.
pub open spec fn seal_label() -> Seq<u8> {
    seq![
        116u8, 97, 99, 101, 110, 116, 97, 58, 112, 101, 114, 115, 105, 115, 116, 101, 100, 45, 115, 116,
        97, 116, 101, 58, 118, 49, 255,
    ]
}

/// The authenticated part of a blob: version, generation, payload.
pub open spec fn sealed_body(generation: u64, payload: Seq<u8>) -> Seq<u8> {
    seq![SEAL_VERSION] + be64(generation) + payload
}

/// The tag over `body` under `key`.
pub open spec fn seal_tag(key: Seq<u8>, body: Seq<u8>) -> Seq<u8> {
    hmac_sha256(key, seal_label() + body)
}

/// The blob that seals `payload` at `generation` under `key`.
pub open spec fn spec_seal(key: Seq<u8>, generation: u64, payload: Seq<u8>) -> Seq<u8> {
    sealed_body(generation, payload) + seal_tag(key, sealed_body(generation, payload))
}

/// Why a sealed blob was refused.
#[derive(Clone, Copy, PartialEq, Eq, Structural, Debug)]
pub enum SealError {
    /// Not this envelope format, or a version this build does not know.
    UnknownVersion,
    /// Too short to hold a version, a generation and a tag.
    TooShort,
    /// The authenticator does not match: the bytes were altered or the key
    /// is wrong, and which is deliberately not told.
    BadAuthenticator,
}

/// What came out of a blob that authenticated.
#[derive(Clone, PartialEq, Eq, Debug)]
pub struct Unsealed {
    /// The generation the writer stamped.
    pub generation: u64,
    pub payload: Vec<u8>,
}

/// An opened blob as a value.
pub struct UnsealedV {
    pub generation: u64,
    pub payload: Seq<u8>,
}

impl View for Unsealed {
    type V = UnsealedV;

    open spec fn view(&self) -> UnsealedV {
        UnsealedV { generation: self.generation, payload: self.payload@ }
    }
}

/// Opening `sealed` under `key`: too short, then an unknown version, then a
/// tag that does not match the rest are refused in that order; otherwise
/// the generation and the payload.
pub open spec fn spec_unseal(key: Seq<u8>, sealed: Seq<u8>) -> Result<UnsealedV, SealError> {
    if sealed.len() < SEAL_OVERHEAD {
        Err(SealError::TooShort)
    } else if sealed[0] != SEAL_VERSION {
        Err(SealError::UnknownVersion)
    } else {
        let body = sealed.take(sealed.len() - TAG_LEN);
        let tag = sealed.skip(sealed.len() - TAG_LEN);
        if tag != seal_tag(key, body) {
            Err(SealError::BadAuthenticator)
        } else {
            Ok(UnsealedV { generation: u64_of(body.subrange(1, 9)), payload: body.skip(9) })
        }
    }
}

/// `Mac::finalize` of `Hmac<Sha256>` (hmac) after `new_from_slice(key)` and
/// `update(message)`: the 32-byte tag, which is HMAC-SHA-256 of the message
/// under the key. `new_from_slice` takes a key of any length.
#[verifier::external_body]
fn hmac_sha256_tag(key: &[u8], message: &[u8]) -> (tag: [u8; 32])
    ensures
        tag@ == hmac_sha256(key@, message@),
{
    let mut m = Hmac::<Sha256>::new_from_slice(key).expect("HMAC takes a key of any length");
    m.update(message);
    let out = m.finalize().into_bytes();
    let mut tag = [0u8; 32];
    tag.copy_from_slice(&out);
    tag
}

/// `Mac::verify_slice` of `Hmac<Sha256>` (hmac) after `new_from_slice(key)`
/// and `update(message)`: whether `tag` is exactly the HMAC-SHA-256 of the
/// message, compared in constant time; a tag of another length is refused.
#[verifier::external_body]
fn hmac_sha256_verify(key: &[u8], message: &[u8], tag: &[u8]) -> (ok: bool)
    ensures
        ok == (tag@ == hmac_sha256(key@, message@)),
{
    let mut m = Hmac::<Sha256>::new_from_slice(key).expect("HMAC takes a key of any length");
    m.update(message);
    m.verify_slice(tag).is_ok()
}

/// The label, then `body`.
fn labelled(body: &[u8]) -> (m: Vec<u8>)
    ensures
        m@ == seal_label() + body@,
{
    let mut m: Vec<u8> = vec![
        116u8, 97, 99, 101, 110, 116, 97, 58, 112, 101, 114, 115, 105, 115, 116, 101, 100, 45, 115, 116,
        97, 116, 101, 58, 118, 49, 255,
    ];
    assert(m@ =~= seal_label());
    extend(&mut m, body);
    m
}

/// Wrap `payload` with a generation counter and an authenticator under
/// `key`. The key belongs in platform secure storage, not beside the blob.
pub fn seal(key: &[u8; 32], generation: u64, payload: &[u8]) -> (out: Vec<u8>)
    ensures
        out@ == spec_seal(key@, generation, payload@),
        seal_tag(key@, sealed_body(generation, payload@)).len() == TAG_LEN,
{
    let mut out: Vec<u8> = Vec::new();
    out.push(SEAL_VERSION);
    put_u64(&mut out, generation);
    extend(&mut out, payload);
    assert(out@ =~= sealed_body(generation, payload@));
    let message = labelled(out.as_slice());
    let tag = hmac_sha256_tag(key.as_slice(), message.as_slice());
    extend(&mut out, tag.as_slice());
    out
}

/// Verify and open a blob produced by [`seal`].
pub fn unseal(key: &[u8; 32], sealed: &[u8]) -> (r: Result<Unsealed, SealError>)
    ensures
        match r {
            Ok(u) => spec_unseal(key@, sealed@) == Ok::<UnsealedV, SealError>(u@),
            Err(e) => spec_unseal(key@, sealed@) == Err::<UnsealedV, SealError>(e),
        },
{
    if sealed.len() < SEAL_OVERHEAD {
        return Err(SealError::TooShort);
    }
    if sealed[0] != SEAL_VERSION {
        return Err(SealError::UnknownVersion);
    }
    let (body, tag) = sealed.split_at(sealed.len() - TAG_LEN);
    assert(body@ =~= sealed@.take(sealed@.len() - TAG_LEN));
    assert(tag@ =~= sealed@.skip(sealed@.len() - TAG_LEN));
    let message = labelled(body);
    if !hmac_sha256_verify(key.as_slice(), message.as_slice(), tag) {
        return Err(SealError::BadAuthenticator);
    }
    let generation = read_u64(body, 1);
    let (_, rest) = body.split_at(1 + GENERATION_LEN);
    assert(rest@ =~= body@.skip(9));
    Ok(Unsealed { generation, payload: to_vec(rest) })
}

/// What a reader should do with state whose generation it has just learned.
#[derive(Clone, Copy, PartialEq, Eq, Structural, Debug)]
pub enum Freshness {
    /// At or ahead of anything seen before: resume normally.
    Current,
    /// Older than a generation already seen: load it, keep the identity, and
    /// discard every session rather than resume a ratchet.
    RolledBack,
}

/// Compare a generation against the highest previously seen. With nothing
/// seen yet (`0`), everything is current.
pub fn freshness(highest_seen: u64, offered: u64) -> (f: Freshness)
    ensures
        f == (if offered < highest_seen {
            Freshness::RolledBack
        } else {
            Freshness::Current
        }),
{
    if offered < highest_seen {
        Freshness::RolledBack
    } else {
        Freshness::Current
    }
}

/// A blob sealed under a key opens under that key to the generation and
/// the payload that went in.
pub proof fn law_a_sealed_blob_opens_to_what_went_in(key: Seq<u8>, generation: u64, payload: Seq<u8>)
    requires
        seal_tag(key, sealed_body(generation, payload)).len() == TAG_LEN,
    ensures
        spec_unseal(key, spec_seal(key, generation, payload)) == Ok::<UnsealedV, SealError>(
            UnsealedV { generation, payload },
        ),
{
    let body = sealed_body(generation, payload);
    let s = spec_seal(key, generation, payload);
    lemma_u64_roundtrip(generation);
    assert(s.take(s.len() - TAG_LEN) =~= body);
    assert(s.skip(s.len() - TAG_LEN) =~= seal_tag(key, body));
    assert(body.subrange(1, 9) =~= be64(generation));
    assert(body.skip(9) =~= payload);
}

/// Whatever opens under a key is exactly the blob that sealing its
/// generation and payload under that key gives: nothing else authenticates.
pub proof fn law_only_a_sealed_blob_opens(key: Seq<u8>, sealed: Seq<u8>)
    requires
        spec_unseal(key, sealed) is Ok,
    ensures
        sealed == spec_seal(
            key,
            spec_unseal(key, sealed)->Ok_0.generation,
            spec_unseal(key, sealed)->Ok_0.payload,
        ),
{
    let body = sealed.take(sealed.len() - TAG_LEN);
    let u = spec_unseal(key, sealed)->Ok_0;
    lemma_be64_of(body.subrange(1, 9));
    assert(body =~= sealed_body(u.generation, u.payload));
    assert(sealed =~= body + sealed.skip(sealed.len() - TAG_LEN));
}

} // verus!
