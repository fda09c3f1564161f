//! The relay's routing address and its authentication frame.
//!
//! A device's address is the relay's own routing key: which user, which of
//! their devices. On the wire it is the user's UTF-8 bytes behind a `u32`
//! length, then the device number as a big-endian `u32`.
use crate::codec::{
    be32, extend, lemma_take_bytes_inv, lemma_take_bytes_of, lemma_take_u32_inv, lemma_take_u32_of, lp,
    put_bytes, put_u32, take_bytes, take_bytes_spec, take_u32, take_u32_spec, to_vec,
};
use crate::text::string_from_utf8;
use vstd::prelude::*;
use vstd::utf8::*;

verus! {

broadcast use vstd::utf8::encode_utf8_valid_utf8, vstd::utf8::encode_utf8_decode_utf8;

/// A device's routing address: which user, which of their devices.
#[derive(Clone, Debug, PartialEq, Eq, Hash)]
pub struct DeviceAddr {
    pub user: String,
    pub device: u32,
}

/// An address as a value: the user's characters and the device number.
pub type AddrV = (Seq<char>, u32);

impl View for DeviceAddr {
    type V = AddrV;

    open spec fn view(&self) -> AddrV {
        (self.user@, self.device)
    }
}

/// Whether a `Send` was queued or refused.
#[derive(Clone, Copy, Debug, PartialEq, Eq, Structural)]
pub enum Enqueued {
    /// Appended to the recipient's queue.
    Queued,
    /// Refused as backpressure: the recipient's backlog is at its limit.
    QueueFull,
    /// Refused permanently: this one message is over the per-envelope limit.
    TooLarge,
}

impl DeviceAddr {
    pub fn new(user: &str, device: u32) -> (a: DeviceAddr)
        ensures
            a@ == (user@, device),
    {
        DeviceAddr { user: user.to_owned(), device }
    }

    /// The same address, as a fresh value.
    pub fn duplicate(&self) -> (a: DeviceAddr)
        ensures
            a@ == self@,
    {
        DeviceAddr { user: self.user.clone(), device: self.device }
    }

    /// Whether two addresses name the same device.
    pub fn same(&self, other: &DeviceAddr) -> (eq: bool)
        ensures
            eq == (self@ == other@),
    {
        self.user == other.user && self.device == other.device
    }
}

/// The UTF-8 bytes of an address's user.
pub open spec fn user_bytes(a: AddrV) -> Seq<u8> {
    encode_utf8(a.0)
}

/// An address can be written: its user's bytes fit a `u32` length.
pub open spec fn addr_ok(a: AddrV) -> bool {
    user_bytes(a).len() <= u32::MAX
}

/// The wire form of an address.
pub open spec fn addr_bytes(a: AddrV) -> Seq<u8> {
    lp(user_bytes(a)) + be32(a.1)
}

/// Reading an address off the front of `s`.
pub open spec fn take_addr_spec(s: Seq<u8>) -> Option<(AddrV, Seq<u8>)> {
    match take_bytes_spec(s) {
        Some((ub, r)) => if valid_utf8(ub) {
            match take_u32_spec(r) {
                Some((d, r2)) => Some(((decode_utf8(ub), d), r2)),
                None => None,
            }
        } else {
            None
        },
        None => None,
    }
}

pub proof fn lemma_take_addr_of(a: AddrV, rest: Seq<u8>)
    requires
        addr_ok(a),
    ensures
        take_addr_spec(addr_bytes(a) + rest) == Some((a, rest)),
{
    assert(addr_bytes(a) + rest =~= lp(user_bytes(a)) + (be32(a.1) + rest));
    lemma_take_bytes_of(user_bytes(a), be32(a.1) + rest);
    lemma_take_u32_of(a.1, rest);
}

pub proof fn lemma_take_addr_inv(s: Seq<u8>)
    requires
        take_addr_spec(s) is Some,
    ensures
        s == addr_bytes(take_addr_spec(s).unwrap().0) + take_addr_spec(s).unwrap().1,
        addr_ok(take_addr_spec(s).unwrap().0),
{
    let (ub, r) = take_bytes_spec(s).unwrap();
    lemma_take_bytes_inv(s);
    lemma_take_u32_inv(r);
    vstd::utf8::decode_utf8_encode_utf8(ub);
    let (d, r2) = take_u32_spec(r).unwrap();
    assert(s =~= lp(ub) + be32(d) + r2);
}

/// Append an address. The user's bytes must fit a `u32` length.
pub fn put_addr(out: &mut Vec<u8>, addr: &DeviceAddr)
    requires
        addr_ok(addr@),
    ensures
        final(out)@ == old(out)@ + addr_bytes(addr@),
{
    let ghost start = out@;
    put_bytes(out, addr.user.as_str().as_bytes());
    put_u32(out, addr.device);
    assert(out@ =~= start + addr_bytes(addr@));
}

/// Read an address off the front; `None` if it is cut short or its user is
/// not UTF-8.
pub fn take_addr(bytes: &[u8]) -> (r: Option<(DeviceAddr, &[u8])>)
    ensures
        match r {
            Some((a, rest)) => take_addr_spec(bytes@) == Some((a@, rest@)),
            None => take_addr_spec(bytes@) is None,
        },
{
    let (user_bytes, rest) = take_bytes(bytes)?;
    let user = string_from_utf8(user_bytes)?;
    let (device, rest) = take_u32(rest)?;
    Some((DeviceAddr { user, device }, rest))
}

/// The wire form of an authentication response.
pub open spec fn auth_bytes(a: AddrV, signature: Seq<u8>) -> Seq<u8> {
    addr_bytes(a) + lp(signature)
}

/// Reading an authentication response: the address, the signature, nothing
/// after.
pub open spec fn decode_auth_spec(s: Seq<u8>) -> Option<(AddrV, Seq<u8>)> {
    match take_addr_spec(s) {
        Some((a, r)) => match take_bytes_spec(r) {
            Some((sig, r2)) => if r2.len() == 0 {
                Some((a, sig))
            } else {
                None
            },
            None => None,
        },
        None => None,
    }
}

/// Decoding the encoding of an authentication response gives it back.
pub proof fn lemma_auth_roundtrip(a: AddrV, signature: Seq<u8>)
    requires
        addr_ok(a),
        signature.len() <= u32::MAX,
    ensures
        decode_auth_spec(auth_bytes(a, signature)) == Some((a, signature)),
{
    lemma_take_addr_of(a, lp(signature));
    lemma_take_bytes_of(signature, Seq::empty());
    assert(lp(signature) + Seq::<u8>::empty() =~= lp(signature));
}

/// Whatever decodes is the encoding of what it decodes to.
pub proof fn lemma_auth_canonical(s: Seq<u8>)
    requires
        decode_auth_spec(s) is Some,
    ensures
        s == auth_bytes(decode_auth_spec(s).unwrap().0, decode_auth_spec(s).unwrap().1),
        addr_ok(decode_auth_spec(s).unwrap().0),
        decode_auth_spec(s).unwrap().1.len() <= u32::MAX,
{
    lemma_take_addr_inv(s);
    let (a, r) = take_addr_spec(s).unwrap();
    lemma_take_bytes_inv(r);
    let (sig, r2) = take_bytes_spec(r).unwrap();
    assert(r =~= lp(sig));
}

/// Encode an authentication response: the device claiming identity and its
/// signature over the server's challenge, `[addr][u32 sig len][sig]`.
pub fn encode_auth(device: &DeviceAddr, signature: &[u8]) -> (out: Vec<u8>)
    requires
        addr_ok(device@),
        signature@.len() <= u32::MAX,
    ensures
        out@ == auth_bytes(device@, signature@),
{
    let mut out = Vec::new();
    put_addr(&mut out, device);
    put_bytes(&mut out, signature);
    assert(out@ =~= auth_bytes(device@, signature@));
    out
}

fn decode_auth_inner(bytes: &[u8]) -> (r: Option<(DeviceAddr, Vec<u8>)>)
    ensures
        match r {
            Some((a, sig)) => decode_auth_spec(bytes@) == Some((a@, sig@)),
            None => decode_auth_spec(bytes@) is None,
        },
{
    let (device, rest) = take_addr(bytes)?;
    let (sig, rest) = take_bytes(rest)?;
    if rest.len() == 0 {
        Some((device, to_vec(sig)))
    } else {
        None
    }
}

/// Decode an authentication response into `(device, signature)`: exactly the
/// byte strings `encode_auth` produces decode, and to what was encoded.
pub fn decode_auth(bytes: &[u8]) -> (r: Option<(DeviceAddr, Vec<u8>)>)
    ensures
        match r {
            Some((a, sig)) => bytes@ == auth_bytes(a@, sig@) && addr_ok(a@) && sig@.len() <= u32::MAX,
            None => forall|a: AddrV, sig: Seq<u8>|
                addr_ok(a) && sig.len() <= u32::MAX ==> bytes@ != #[trigger] auth_bytes(a, sig),
        },
{
    let r = decode_auth_inner(bytes);
    proof {
        if decode_auth_spec(bytes@) is Some {
            lemma_auth_canonical(bytes@);
        } else {
            assert forall|a: AddrV, sig: Seq<u8>|
                addr_ok(a) && sig.len() <= u32::MAX implies bytes@ != #[trigger] auth_bytes(a, sig) by {
                lemma_auth_roundtrip(a, sig);
            }
        }
    }
    r
}

/// The authentication frame round-trips: decoding an encoded response gives
/// back the same address and signature.
pub proof fn law_auth_frame_round_trips(a: AddrV, signature: Seq<u8>, s: Seq<u8>)
    requires
        addr_ok(a),
        signature.len() <= u32::MAX,
        s == auth_bytes(a, signature),
    ensures
        decode_auth_spec(s) == Some((a, signature)),
{
    lemma_auth_roundtrip(a, signature);
}

} // verus!
