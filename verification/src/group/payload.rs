//! The authenticated inner payload a group relay envelope carries: an
//! explicit tag selects the application or the roster parser before either
//! state machine sees the value.
use crate::codec::{be32, extend, lemma_take_u32_inv, lemma_take_u32_of, lp, put_u32, take_u32_spec};
use crate::group::{
    byte_field, context_bytes, context_error, context_shape, decode_context_spec, decode_roster_spec,
    domain_field, law_context_encoding_is_canonical, law_context_round_trips, law_roster_encoding_is_canonical,
    law_roster_round_trips, roster_bytes, roster_error, roster_shape, take_byte, take_domain, take_u32_field,
    u32_field, ApplicationContext, ApplicationContextV, Error, Roster, RosterV,
};
use vstd::prelude::*;
use vstd::utf8::*;

verus! {

/// The payload's domain string.
pub open spec fn payload_domain() -> Seq<u8> {
    encode_utf8("Tacenta Group Payload v1"@)
}

fn payload_domain_bytes() -> (d: &'static [u8])
    ensures
        d@ == payload_domain(),
        d@.len() == 24,
{
    proof {
        reveal_strlit("Tacenta Group Payload v1");
        is_ascii_chars_encode_utf8("Tacenta Group Payload v1"@);
    }
    "Tacenta Group Payload v1".as_bytes()
}

/// The largest group payload.
pub const MAX_GROUP_PAYLOAD_LEN: usize = 8192;

/// A group relay payload.
#[derive(Clone, Debug, PartialEq, Eq)]
pub enum GroupPayload {
    Application(ApplicationContext),
    Roster(Roster),
}

/// A group payload as a value.
pub enum GroupPayloadV {
    Application(ApplicationContextV),
    Roster(RosterV),
}

impl View for GroupPayload {
    type V = GroupPayloadV;

    open spec fn view(&self) -> GroupPayloadV {
        match self {
            GroupPayload::Application(c) => GroupPayloadV::Application(c@),
            GroupPayload::Roster(r) => GroupPayloadV::Roster(r@),
        }
    }
}

/// The tag that selects each parser.
pub open spec fn payload_tag(p: GroupPayloadV) -> u8 {
    match p {
        GroupPayloadV::Application(_) => 1,
        GroupPayloadV::Roster(_) => 2,
    }
}

/// The canonical bytes of the carried value.
pub open spec fn payload_value_bytes(p: GroupPayloadV) -> Seq<u8> {
    match p {
        GroupPayloadV::Application(c) => context_bytes(c),
        GroupPayloadV::Roster(r) => roster_bytes(r),
    }
}

/// The carried value's first broken profile bound, if any.
pub open spec fn payload_error(p: GroupPayloadV) -> Option<Error> {
    match p {
        GroupPayloadV::Application(c) => context_error(c),
        GroupPayloadV::Roster(r) => roster_error(r),
    }
}

/// The carried value's fixed-width fields have their widths.
pub open spec fn payload_shape(p: GroupPayloadV) -> bool {
    match p {
        GroupPayloadV::Application(c) => context_shape(c),
        GroupPayloadV::Roster(r) => roster_shape(r),
    }
}

/// The canonical payload: the domain, the tag, then the value behind its
/// `u32` length.
pub open spec fn payload_bytes(p: GroupPayloadV) -> Seq<u8> {
    payload_domain() + seq![payload_tag(p)] + lp(payload_value_bytes(p))
}

/// The framing of a payload: at most `MAX_GROUP_PAYLOAD_LEN` bytes behind the
/// domain, a tag, and a `u32` length that the rest matches exactly; the tag
/// and the rest.
pub open spec fn payload_frame(b: Seq<u8>) -> Result<(u8, Seq<u8>), Error> {
    if b.len() > MAX_GROUP_PAYLOAD_LEN {
        Err(Error::Malformed)
    } else {
        match domain_field(b, payload_domain()) {
            Err(e) => Err(e),
            Ok(r0) => match byte_field(r0) {
                Err(e) => Err(e),
                Ok((tag, r1)) => match u32_field(r1) {
                    Err(e) => Err(e),
                    Ok((length, value)) => if value.len() != length {
                        Err(Error::Malformed)
                    } else {
                        Ok((tag, value))
                    },
                },
            },
        }
    }
}

/// The value a tag selects, decoded by its own decoder.
pub open spec fn decode_tagged(tag: u8, value: Seq<u8>) -> Result<GroupPayloadV, Error> {
    if tag == 1 {
        match decode_context_spec(value) {
            Ok(c) => Ok(GroupPayloadV::Application(c)),
            Err(e) => Err(e),
        }
    } else if tag == 2 {
        match decode_roster_spec(value) {
            Ok(r) => Ok(GroupPayloadV::Roster(r)),
            Err(e) => Err(e),
        }
    } else {
        Err(Error::Malformed)
    }
}

/// Decoding a payload: at most `MAX_GROUP_PAYLOAD_LEN` bytes behind the
/// domain, a tag, a length that the rest matches exactly, then the value's
/// own decoder as the tag selects; an unknown tag is `Malformed`.
pub open spec fn decode_payload_spec(b: Seq<u8>) -> Result<GroupPayloadV, Error> {
    match payload_frame(b) {
        Err(e) => Err(e),
        Ok((tag, value)) => decode_tagged(tag, value),
    }
}

impl GroupPayload {
    /// The canonical payload, if the carried value respects its bounds.
    pub fn encode(&self) -> (r: Result<Vec<u8>, Error>)
        ensures
            match r {
                Ok(b) => payload_error(self@) is None && b@ == payload_bytes(self@),
                Err(e) => payload_error(self@) == Some(e),
            },
    {
        let (tag, value) = match self {
            GroupPayload::Application(context) => match context.encode() {
                Ok(v) => (1u8, v),
                Err(e) => return Err(e),
            },
            GroupPayload::Roster(roster) => match roster.encode() {
                Ok(v) => (2u8, v),
                Err(e) => return Err(e),
            },
        };
        let mut out = Vec::new();
        extend(&mut out, payload_domain_bytes());
        out.push(tag);
        put_u32(&mut out, value.len() as u32);
        extend(&mut out, value.as_slice());
        assert(out@ =~= payload_bytes(self@));
        Ok(out)
    }

    /// Decode a payload with the parser its tag selects.
    pub fn decode(bytes: &[u8]) -> (r: Result<GroupPayload, Error>)
        ensures
            match r {
                Ok(p) => decode_payload_spec(bytes@) == Ok::<GroupPayloadV, Error>(p@),
                Err(e) => decode_payload_spec(bytes@) == Err::<GroupPayloadV, Error>(e),
            },
    {
        if bytes.len() > MAX_GROUP_PAYLOAD_LEN {
            return Err(Error::Malformed);
        }
        let r0 = match take_domain(bytes, payload_domain_bytes()) {
            Ok(rest) => rest,
            Err(e) => return Err(e),
        };
        let (tag, r1) = match take_byte(r0) {
            Ok(p) => p,
            Err(e) => return Err(e),
        };
        let (length, value) = match take_u32_field(r1) {
            Ok(p) => p,
            Err(e) => return Err(e),
        };
        if value.len() as u64 != length as u64 {
            return Err(Error::Malformed);
        }
        if tag == 1 {
            match ApplicationContext::decode(value) {
                Ok(c) => Ok(GroupPayload::Application(c)),
                Err(e) => Err(e),
            }
        } else if tag == 2 {
            match Roster::decode(value) {
                Ok(r) => Ok(GroupPayload::Roster(r)),
                Err(e) => Err(e),
            }
        } else {
            Err(Error::Malformed)
        }
    }
}

/// Framing a value and reading the frame back gives the tag and the value.
proof fn lemma_frame_of(tag: u8, v: Seq<u8>)
    requires
        v.len() <= 4096,
    ensures
        payload_frame(payload_domain() + seq![tag] + lp(v)) == Ok::<(u8, Seq<u8>), Error>((tag, v)),
{
    reveal_strlit("Tacenta Group Payload v1");
    is_ascii_chars_encode_utf8("Tacenta Group Payload v1"@);
    let d = payload_domain();
    let t1 = lp(v);
    let t0 = seq![tag] + t1;
    assert(d + seq![tag] + lp(v) =~= d + t0);
    assert((d + t0).take(d.len() as int) =~= d);
    assert((d + t0).skip(d.len() as int) =~= t0);
    assert(t0.drop_first() =~= t1);
    lemma_take_u32_of(v.len() as u32, v);
}

/// What frames successfully is a framed value.
proof fn lemma_frame_inv(b: Seq<u8>)
    requires
        payload_frame(b) is Ok,
    ensures
        b == payload_domain() + seq![payload_frame(b)->Ok_0.0] + lp(payload_frame(b)->Ok_0.1),
{
    let d = payload_domain();
    let r0 = b.skip(d.len() as int);
    assert(b =~= d + r0);
    let tag = r0[0];
    let r1 = r0.drop_first();
    assert(r0 =~= seq![tag] + r1);
    lemma_take_u32_inv(r1);
    let (length, value) = take_u32_spec(r1).unwrap();
    assert(b =~= d + seq![tag] + lp(value));
}

/// A payload whose value respects its bounds decodes from its canonical
/// bytes to exactly itself.
pub proof fn law_payload_round_trips(p: GroupPayloadV)
    requires
        payload_shape(p),
        payload_error(p) is None,
    ensures
        decode_payload_spec(payload_bytes(p)) == Ok::<GroupPayloadV, Error>(p),
{
    match p {
        GroupPayloadV::Application(c) => lemma_application_round_trips(c),
        GroupPayloadV::Roster(r) => lemma_roster_payload_round_trips(r),
    }
}

proof fn lemma_application_round_trips(c: ApplicationContextV)
    requires
        context_shape(c),
        context_error(c) is None,
    ensures
        decode_payload_spec(payload_bytes(GroupPayloadV::Application(c))) == Ok::<GroupPayloadV, Error>(
            GroupPayloadV::Application(c),
        ),
{
    let v = context_bytes(c);
    assert(v.len() <= 2048);
    law_context_round_trips(c);
    lemma_frame_of(1, v);
}

proof fn lemma_roster_payload_round_trips(r: RosterV)
    requires
        roster_shape(r),
        roster_error(r) is None,
    ensures
        decode_payload_spec(payload_bytes(GroupPayloadV::Roster(r))) == Ok::<GroupPayloadV, Error>(
            GroupPayloadV::Roster(r),
        ),
{
    let v = roster_bytes(r);
    assert(v.len() <= 4096);
    law_roster_round_trips(r);
    lemma_frame_of(2, v);
}

/// Decoding is canonical: whatever decodes is exactly the canonical bytes of
/// the payload it decodes to.
pub proof fn law_payload_encoding_is_canonical(b: Seq<u8>)
    requires
        decode_payload_spec(b) is Ok,
    ensures
        payload_bytes(decode_payload_spec(b)->Ok_0) == b,
        payload_shape(decode_payload_spec(b)->Ok_0),
{
    lemma_frame_inv(b);
    let (tag, value) = payload_frame(b)->Ok_0;
    if tag == 1 {
        law_context_encoding_is_canonical(value);
    } else {
        law_roster_encoding_is_canonical(value);
    }
}

/// A payload's canonical bytes with one more byte after them are refused as
/// malformed: the length field no longer matches what follows it.
pub proof fn law_payload_refuses_a_trailing_byte(p: GroupPayloadV, x: u8)
    requires
        payload_shape(p),
        payload_error(p) is None,
    ensures
        decode_payload_spec(payload_bytes(p) + seq![x]) == Err::<GroupPayloadV, Error>(Error::Malformed),
{
    let v = payload_value_bytes(p);
    match p {
        GroupPayloadV::Application(c) => {
            assert(v.len() <= 2048);
        },
        GroupPayloadV::Roster(r) => {
            assert(v.len() <= 4096);
        },
    }
    lemma_frame_refuses_extra(payload_tag(p), v, x);
}

/// A frame with one byte more than its length field says is refused.
proof fn lemma_frame_refuses_extra(tag: u8, v: Seq<u8>, x: u8)
    requires
        v.len() <= 4096,
    ensures
        payload_frame(payload_domain() + seq![tag] + lp(v) + seq![x]) == Err::<(u8, Seq<u8>), Error>(Error::Malformed),
{
    reveal_strlit("Tacenta Group Payload v1");
    is_ascii_chars_encode_utf8("Tacenta Group Payload v1"@);
    let d = payload_domain();
    let t1 = be32(v.len() as u32) + (v + seq![x]);
    let t0 = seq![tag] + t1;
    assert(d + seq![tag] + lp(v) + seq![x] =~= d + t0);
    assert((d + t0).take(d.len() as int) =~= d);
    assert((d + t0).skip(d.len() as int) =~= t0);
    assert(t0.drop_first() =~= t1);
    lemma_take_u32_of(v.len() as u32, v + seq![x]);
}

/// A frame whose tag selects neither an application context nor a roster is
/// refused as malformed, whatever value it carries.
pub proof fn law_payload_refuses_an_unknown_tag(tag: u8, v: Seq<u8>)
    requires
        tag != 1,
        tag != 2,
        v.len() <= 4096,
    ensures
        decode_payload_spec(payload_domain() + seq![tag] + lp(v)) == Err::<GroupPayloadV, Error>(Error::Malformed),
{
    lemma_frame_of(tag, v);
}

} // verus!
