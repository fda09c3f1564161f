//! Canonical values for bounded group chat.
//!
//! This module owns the group's policy bytes only: who may be in a roster and
//! in what order, what an application message's authenticated context holds,
//! and the exact canonical encodings of both. There is no cryptography here:
//! callers obtain an authenticated peer from their pairwise channel and
//! commit to the preimages produced here with their own digest.
use crate::codec::{
    be32, be64, lemma_take_bytes_inv, lemma_take_bytes_of, lemma_take_u32_inv, lemma_take_u32_of,
    lemma_take_u64_inv, lemma_take_u64_of, lp, put_bytes, put_u32, put_u64, take_bytes,
    take_bytes_spec, take_u32, take_u32_spec, take_u64, take_u64_spec, to_vec, extend,
};
use vstd::prelude::*;
use vstd::utf8::*;

pub mod invitation;
pub mod payload;
pub mod receive;
pub mod roster_view;
pub mod send;

verus! {

broadcast use vstd::array::group_array_axioms;

/// The bounded profile's group identifiers are sixteen opaque bytes.
pub const GROUP_ID_LEN: usize = 16;
/// Roster and context commitments are thirty-two bytes.
pub const DIGEST_LEN: usize = 32;
/// The one-authority profile has at most eight members.
pub const MAX_MEMBERS: usize = 8;
/// The largest application payload.
pub const MAX_PAYLOAD_LEN: usize = 1024;
/// The largest canonical identity one member binding holds.
pub const MAX_IDENTITY_LEN: usize = 256;
/// The largest canonical device encoding one member binding holds.
pub const MAX_DEVICE_LEN: usize = 64;
/// The largest complete roster preimage.
pub const MAX_ROSTER_LEN: usize = 4096;
/// The largest complete application context.
pub const MAX_APPLICATION_CONTEXT_LEN: usize = 2048;
/// The most unfinished logical sends one group may hold.
pub const MAX_LIVE_LOGICAL_SENDS: usize = 8;
/// The policy version of the bounded profile.
pub const POLICY_VERSION_V1: u32 = 1;
/// `u64::MAX` never encodes a group revision.
pub const RESERVED_REVISION: u64 = 0xffff_ffff_ffff_ffffu64;

/// A parsing or profile-bound violation.
#[derive(Clone, Copy, Debug, PartialEq, Eq, Structural)]
pub enum Error {
    Malformed,
    NonCanonical,
    UnsupportedPolicy,
    ReservedRevision,
    TooManyMembers,
    PayloadTooLarge,
    IdentityTooLarge,
    DeviceTooLarge,
    RosterTooLarge,
    ContextTooLarge,
    Unauthorized,
    Conflict,
    WrongTarget,
    StaleSource,
    Expired,
    Revoked,
    WrongDisposition,
    EmptyRecipients,
    NotMember,
    Closed,
    RetryExhausted,
    OutboxFull,
}

impl Error {
    /// A human-readable description of the violation.
    pub fn message(&self) -> (s: &'static str)
        ensures
            s@ == self.spec_message(),
    {
        match self {
            Error::Malformed => "malformed bounded group value",
            Error::NonCanonical => "non-canonical bounded group value",
            Error::UnsupportedPolicy => "unsupported bounded group policy",
            Error::ReservedRevision => "reserved bounded group revision",
            Error::TooManyMembers => "too many bounded group members",
            Error::PayloadTooLarge => "bounded group payload is too large",
            Error::IdentityTooLarge => "bounded group identity is too large",
            Error::DeviceTooLarge => "bounded group device is too large",
            Error::RosterTooLarge => "bounded group roster is too large",
            Error::ContextTooLarge => "bounded group application context is too large",
            Error::Unauthorized => "unauthorized bounded group action",
            Error::Conflict => "conflicting bounded group record",
            Error::WrongTarget => "bounded group invitation targets another member",
            Error::StaleSource => "stale bounded group invitation source",
            Error::Expired => "expired bounded group invitation",
            Error::Revoked => "revoked bounded group invitation",
            Error::WrongDisposition => "invalid bounded group invitation disposition",
            Error::EmptyRecipients => "bounded group logical send has no recipients",
            Error::NotMember => "bounded group member is not active in the roster",
            Error::Closed => "bounded group is closed",
            Error::RetryExhausted => "bounded group retry budget is exhausted",
            Error::OutboxFull => "bounded group outbox is full",
        }
    }

    /// The description of each violation.
    pub open spec fn spec_message(self) -> Seq<char> {
        match self {
            Error::Malformed => "malformed bounded group value"@,
            Error::NonCanonical => "non-canonical bounded group value"@,
            Error::UnsupportedPolicy => "unsupported bounded group policy"@,
            Error::ReservedRevision => "reserved bounded group revision"@,
            Error::TooManyMembers => "too many bounded group members"@,
            Error::PayloadTooLarge => "bounded group payload is too large"@,
            Error::IdentityTooLarge => "bounded group identity is too large"@,
            Error::DeviceTooLarge => "bounded group device is too large"@,
            Error::RosterTooLarge => "bounded group roster is too large"@,
            Error::ContextTooLarge => "bounded group application context is too large"@,
            Error::Unauthorized => "unauthorized bounded group action"@,
            Error::Conflict => "conflicting bounded group record"@,
            Error::WrongTarget => "bounded group invitation targets another member"@,
            Error::StaleSource => "stale bounded group invitation source"@,
            Error::Expired => "expired bounded group invitation"@,
            Error::Revoked => "revoked bounded group invitation"@,
            Error::WrongDisposition => "invalid bounded group invitation disposition"@,
            Error::EmptyRecipients => "bounded group logical send has no recipients"@,
            Error::NotMember => "bounded group member is not active in the roster"@,
            Error::Closed => "bounded group is closed"@,
            Error::RetryExhausted => "bounded group retry budget is exhausted"@,
            Error::OutboxFull => "bounded group outbox is full"@,
        }
    }
}

/// A fixed-width opaque group identifier.
#[derive(Clone, Copy, Debug, PartialEq, Eq, Hash)]
pub struct GroupId([u8; 16]);

impl View for GroupId {
    type V = Seq<u8>;

    closed spec fn view(&self) -> Seq<u8> {
        self.0@
    }
}

/// Bytes as a sixteen-byte array.
pub fn array16(bytes: &[u8]) -> (a: [u8; 16])
    requires
        bytes@.len() == 16,
    ensures
        a@ == bytes@,
{
    let mut a = [0u8; 16];
    for i in 0..16
        invariant
            bytes@.len() == 16,
            forall|j: int| 0 <= j < i ==> a@[j] == bytes@[j],
    {
        a[i] = bytes[i];
    }
    assert(a@ =~= bytes@);
    a
}

/// Bytes as a thirty-two-byte array.
pub fn array32(bytes: &[u8]) -> (a: [u8; 32])
    requires
        bytes@.len() == 32,
    ensures
        a@ == bytes@,
{
    let mut a = [0u8; 32];
    for i in 0..32
        invariant
            bytes@.len() == 32,
            forall|j: int| 0 <= j < i ==> a@[j] == bytes@[j],
    {
        a[i] = bytes[i];
    }
    assert(a@ =~= bytes@);
    a
}

/// Whether two arrays of equal width hold the same bytes.
pub fn same_bytes16(a: &[u8; 16], b: &[u8; 16]) -> (eq: bool)
    ensures
        eq == (a@ == b@),
{
    crate::directory_core::bytes_eq(a.as_slice(), b.as_slice())
}

/// Whether two digests hold the same bytes.
pub fn same_digest(a: &[u8; 32], b: &[u8; 32]) -> (eq: bool)
    ensures
        eq == (a@ == b@),
{
    crate::directory_core::bytes_eq(a.as_slice(), b.as_slice())
}

impl GroupId {
    pub fn new(bytes: [u8; 16]) -> (g: GroupId)
        ensures
            g@ == bytes@,
    {
        GroupId(bytes)
    }

    pub fn as_bytes(&self) -> (b: &[u8; 16])
        ensures
            b@ == self@,
    {
        &self.0
    }

    /// The identifier held in exactly sixteen bytes; `Malformed` otherwise.
    pub fn from_slice(bytes: &[u8]) -> (r: Result<GroupId, Error>)
        ensures
            match r {
                Ok(g) => bytes@.len() == 16 && g@ == bytes@,
                Err(e) => bytes@.len() != 16 && e == Error::Malformed,
            },
    {
        if bytes.len() != 16 {
            return Err(Error::Malformed);
        }
        Ok(GroupId(array16(bytes)))
    }

    /// The identifier's width.
    pub proof fn lemma_width(&self)
        ensures
            self@.len() == 16,
    {
    }

    /// Whether two identifiers are the same.
    pub fn same(&self, other: &GroupId) -> (eq: bool)
        ensures
            eq == (self@ == other@),
    {
        same_bytes16(&self.0, &other.0)
    }
}

/// A member binding as a value: its canonical identity and device bytes.
pub struct MemberV {
    pub identity: Seq<u8>,
    pub device: Seq<u8>,
}

/// A product-validated identity/device binding. The identity layer supplies
/// both canonical encodings; they are preserved exactly.
#[derive(Clone, Debug, PartialEq, Eq)]
pub struct Member {
    identity: Vec<u8>,
    device: Vec<u8>,
}

impl View for Member {
    type V = MemberV;

    closed spec fn view(&self) -> MemberV {
        MemberV { identity: self.identity@, device: self.device@ }
    }
}

/// The bound a member binding must respect, and the error that reports the
/// first it breaks.
pub open spec fn member_error(m: MemberV) -> Option<Error> {
    if m.identity.len() > MAX_IDENTITY_LEN {
        Some(Error::IdentityTooLarge)
    } else if m.device.len() > MAX_DEVICE_LEN {
        Some(Error::DeviceTooLarge)
    } else {
        None
    }
}

/// The key members are ordered by: the identity bytes, then the device bytes.
pub open spec fn sort_key(m: MemberV) -> Seq<u8> {
    m.identity + m.device
}

/// Lexicographic order on byte strings, a proper prefix first.
pub open spec fn lex_lt(a: Seq<u8>, b: Seq<u8>) -> bool
    decreases a.len(),
{
    if a.len() == 0 {
        b.len() > 0
    } else if b.len() == 0 {
        false
    } else if a[0] != b[0] {
        a[0] < b[0]
    } else {
        lex_lt(a.drop_first(), b.drop_first())
    }
}

/// Whether `a` sorts strictly before `b`.
pub fn bytes_lt(a: &[u8], b: &[u8]) -> (lt: bool)
    ensures
        lt == lex_lt(a@, b@),
{
    let mut i: usize = 0;
    assert(a@.skip(0) =~= a@ && b@.skip(0) =~= b@);
    while i < a.len() && i < b.len() && a[i] == b[i]
        invariant
            0 <= i <= a@.len(),
            i <= b@.len(),
            lex_lt(a@, b@) == lex_lt(a@.skip(i as int), b@.skip(i as int)),
        decreases a@.len() - i,
    {
        assert(a@.skip(i as int).drop_first() =~= a@.skip(i + 1));
        assert(b@.skip(i as int).drop_first() =~= b@.skip(i + 1));
        i = i + 1;
    }
    if i == a.len() {
        i < b.len()
    } else if i == b.len() {
        false
    } else {
        assert(a@.skip(i as int)[0] == a@[i as int] && b@.skip(i as int)[0] == b@[i as int]);
        a[i] < b[i]
    }
}

impl Member {
    pub fn new(identity: Vec<u8>, device: Vec<u8>) -> (m: Member)
        ensures
            m@ == (MemberV { identity: identity@, device: device@ }),
    {
        Member { identity, device }
    }

    pub fn identity(&self) -> (b: &[u8])
        ensures
            b@ == self@.identity,
    {
        self.identity.as_slice()
    }

    pub fn device(&self) -> (b: &[u8])
        ensures
            b@ == self@.device,
    {
        self.device.as_slice()
    }

    /// The same binding, as a fresh value.
    pub fn duplicate(&self) -> (m: Member)
        ensures
            m@ == self@,
    {
        Member { identity: to_vec(self.identity.as_slice()), device: to_vec(self.device.as_slice()) }
    }

    /// Whether two bindings are the same binding.
    pub fn same(&self, other: &Member) -> (eq: bool)
        ensures
            eq == (self@ == other@),
    {
        crate::directory_core::bytes_eq(self.identity.as_slice(), other.identity.as_slice())
            && crate::directory_core::bytes_eq(self.device.as_slice(), other.device.as_slice())
    }

    /// The key members are ordered by.
    pub fn canonical_sort_key(&self) -> (k: Vec<u8>)
        ensures
            k@ == sort_key(self@),
    {
        let mut k = to_vec(self.identity.as_slice());
        extend(&mut k, self.device.as_slice());
        k
    }

    /// Whether this binding sorts strictly before `other`.
    pub fn sorts_before(&self, other: &Member) -> (lt: bool)
        ensures
            lt == lex_lt(sort_key(self@), sort_key(other@)),
    {
        let a = self.canonical_sort_key();
        let b = other.canonical_sort_key();
        bytes_lt(a.as_slice(), b.as_slice())
    }

    /// The binding's own bounds.
    pub fn validate(&self) -> (r: Result<(), Error>)
        ensures
            match r {
                Ok(_) => member_error(self@) is None,
                Err(e) => member_error(self@) == Some(e),
            },
    {
        if self.identity.len() > MAX_IDENTITY_LEN {
            return Err(Error::IdentityTooLarge);
        }
        if self.device.len() > MAX_DEVICE_LEN {
            return Err(Error::DeviceTooLarge);
        }
        Ok(())
    }
}

/// Whether `m` is in `ms`, compared as complete bindings.
pub fn contains_member(ms: &[Member], m: &Member) -> (found: bool)
    ensures
        found == member_views(ms@).contains(m@),
{
    let ghost v = member_views(ms@);
    let mut i: usize = 0;
    while i < ms.len()
        invariant
            0 <= i <= ms@.len(),
            v == member_views(ms@),
            forall|j: int| 0 <= j < i ==> v[j] != m@,
        decreases ms@.len() - i,
    {
        assert(v[i as int] == ms@[i as int]@);
        if ms[i].same(m) {
            assert(v[i as int] == m@);
            return true;
        }
        i = i + 1;
    }
    false
}


/// Reading a block behind its `u32` length; `Malformed` when cut short.
pub open spec fn lp_field(s: Seq<u8>) -> Result<(Seq<u8>, Seq<u8>), Error> {
    match take_bytes_spec(s) {
        Some(p) => Ok(p),
        None => Err(Error::Malformed),
    }
}

/// Reading a big-endian `u32`; `Malformed` when cut short.
pub open spec fn u32_field(s: Seq<u8>) -> Result<(u32, Seq<u8>), Error> {
    match take_u32_spec(s) {
        Some(p) => Ok(p),
        None => Err(Error::Malformed),
    }
}

/// Reading a big-endian `u64`; `Malformed` when cut short.
pub open spec fn u64_field(s: Seq<u8>) -> Result<(u64, Seq<u8>), Error> {
    match take_u64_spec(s) {
        Some(p) => Ok(p),
        None => Err(Error::Malformed),
    }
}

/// Reading one byte; `Malformed` when there is none.
pub open spec fn byte_field(s: Seq<u8>) -> Result<(u8, Seq<u8>), Error> {
    if s.len() >= 1 {
        Ok((s[0], s.drop_first()))
    } else {
        Err(Error::Malformed)
    }
}

/// Reading an exact domain string; `Malformed` when it is not there.
pub open spec fn domain_field(s: Seq<u8>, domain: Seq<u8>) -> Result<Seq<u8>, Error> {
    if s.len() >= domain.len() && s.take(domain.len() as int) == domain {
        Ok(s.skip(domain.len() as int))
    } else {
        Err(Error::Malformed)
    }
}

/// A member binding on the wire: its identity, then its device, each behind
/// its `u32` length.
pub open spec fn member_bytes(m: MemberV) -> Seq<u8> {
    lp(m.identity) + lp(m.device)
}

/// Reading a member binding and checking its bounds.
#[verifier::opaque]
pub open spec fn member_field(s: Seq<u8>) -> Result<(MemberV, Seq<u8>), Error> {
    match lp_field(s) {
        Err(e) => Err(e),
        Ok((identity, r1)) => match lp_field(r1) {
            Err(e) => Err(e),
            Ok((device, r2)) => {
                let m = MemberV { identity, device };
                match member_error(m) {
                    Some(e) => Err(e),
                    None => Ok((m, r2)),
                }
            },
        },
    }
}

/// Member bindings one after another.
#[verifier::opaque]
pub open spec fn members_bytes(ms: Seq<MemberV>) -> Seq<u8>
    decreases ms.len(),
{
    if ms.len() == 0 {
        Seq::empty()
    } else {
        member_bytes(ms[0]) + members_bytes(ms.drop_first())
    }
}

/// Reading `n` member bindings, each checked as it is read.
#[verifier::opaque]
pub open spec fn members_field(n: nat, s: Seq<u8>) -> Result<(Seq<MemberV>, Seq<u8>), Error>
    decreases n,
{
    if n == 0 {
        Ok((Seq::empty(), s))
    } else {
        match member_field(s) {
            Err(e) => Err(e),
            Ok((m, r)) => match members_field((n - 1) as nat, r) {
                Err(e) => Err(e),
                Ok((ms, r2)) => Ok((seq![m] + ms, r2)),
            },
        }
    }
}

/// Every binding respects its bounds.
pub open spec fn members_ok(ms: Seq<MemberV>) -> bool {
    forall|i: int| 0 <= i < ms.len() ==> member_error(#[trigger] ms[i]) is None
}

pub proof fn lemma_member_field_of(m: MemberV, rest: Seq<u8>)
    requires
        member_error(m) is None,
    ensures
        member_field(member_bytes(m) + rest) == Ok::<(MemberV, Seq<u8>), Error>((m, rest)),
{
    reveal(member_field);
    lemma_take_bytes_of(m.identity, lp(m.device) + rest);
    lemma_take_bytes_of(m.device, rest);
    assert(member_bytes(m) + rest =~= lp(m.identity) + (lp(m.device) + rest));
}

pub proof fn lemma_member_field_inv(s: Seq<u8>)
    requires
        member_field(s) is Ok,
    ensures
        s == member_bytes(member_field(s)->Ok_0.0) + member_field(s)->Ok_0.1,
        member_error(member_field(s)->Ok_0.0) is None,
{
    reveal(member_field);
    lemma_take_bytes_inv(s);
    let (identity, r1) = take_bytes_spec(s).unwrap();
    lemma_take_bytes_inv(r1);
    let (device, r2) = take_bytes_spec(r1).unwrap();
    assert(s =~= (lp(identity) + lp(device)) + r2);
}

/// `members_bytes` one step at a time.
pub proof fn lemma_members_bytes_unfold(ms: Seq<MemberV>)
    ensures
        ms.len() == 0 ==> members_bytes(ms) == Seq::<u8>::empty(),
        ms.len() > 0 ==> members_bytes(ms) == member_bytes(ms[0]) + members_bytes(ms.drop_first()),
{
    reveal(members_bytes);
}

/// `members_field` one step at a time.
pub proof fn lemma_members_field_unfold(n: nat, s: Seq<u8>)
    ensures
        n == 0 ==> members_field(n, s) == Ok::<(Seq<MemberV>, Seq<u8>), Error>((Seq::empty(), s)),
        n > 0 ==> members_field(n, s) == match member_field(s) {
            Err(e) => Err(e),
            Ok((m, r)) => match members_field((n - 1) as nat, r) {
                Err(e) => Err(e),
                Ok((ms, r2)) => Ok((seq![m] + ms, r2)),
            },
        },
{
    reveal(members_field);
}

pub proof fn lemma_members_bytes_push(ms: Seq<MemberV>, m: MemberV)
    ensures
        members_bytes(ms.push(m)) == members_bytes(ms) + member_bytes(m),
    decreases ms.len(),
{
    lemma_members_bytes_unfold(ms);
    lemma_members_bytes_unfold(ms.push(m));
    if ms.len() == 0 {
        assert(ms.push(m).drop_first() =~= Seq::<MemberV>::empty());
        lemma_members_bytes_unfold(ms.push(m).drop_first());
        assert(ms.push(m)[0] == m);
        assert(members_bytes(ms.push(m)) =~= members_bytes(ms) + member_bytes(m));
    } else {
        lemma_members_bytes_push(ms.drop_first(), m);
        assert(ms.push(m).drop_first() =~= ms.drop_first().push(m));
        assert(ms.push(m)[0] == ms[0]);
        assert(member_bytes(ms[0]) + (members_bytes(ms.drop_first()) + member_bytes(m)) =~= (member_bytes(
            ms[0],
        ) + members_bytes(ms.drop_first())) + member_bytes(m));
    }
}

pub proof fn lemma_members_field_of(ms: Seq<MemberV>, rest: Seq<u8>)
    requires
        members_ok(ms),
    ensures
        members_field(ms.len(), members_bytes(ms) + rest) == Ok::<(Seq<MemberV>, Seq<u8>), Error>((ms, rest)),
    decreases ms.len(),
{
    lemma_members_bytes_unfold(ms);
    lemma_members_field_unfold(ms.len(), members_bytes(ms) + rest);
    if ms.len() == 0 {
        assert(members_bytes(ms) + rest =~= rest);
        assert(ms =~= Seq::<MemberV>::empty());
    } else {
        let tail = ms.drop_first();
        assert(members_ok(tail)) by {
            assert forall|i: int| 0 <= i < tail.len() implies member_error(#[trigger] tail[i]) is None by {
                assert(tail[i] == ms[i + 1]);
            }
        }
        assert(member_error(ms[0]) is None);
        lemma_members_field_of(tail, rest);
        lemma_member_field_of(ms[0], members_bytes(tail) + rest);
        assert(members_bytes(ms) + rest =~= member_bytes(ms[0]) + (members_bytes(tail) + rest));
        assert(seq![ms[0]] + tail =~= ms);
    }
}

#[verifier::spinoff_prover]
#[verifier::rlimit(50)]
pub proof fn lemma_members_field_inv(n: nat, s: Seq<u8>)
    requires
        members_field(n, s) is Ok,
    ensures
        s == members_bytes(members_field(n, s)->Ok_0.0) + members_field(n, s)->Ok_0.1,
        members_field(n, s)->Ok_0.0.len() == n,
        members_ok(members_field(n, s)->Ok_0.0),
    decreases n,
{
    lemma_members_field_unfold(n, s);
    if n == 0 {
        lemma_members_bytes_unfold(Seq::<MemberV>::empty());
        assert(s =~= members_bytes(Seq::empty()) + s);
    } else {
        lemma_member_field_inv(s);
        let (m, r) = member_field(s)->Ok_0;
        lemma_members_field_inv((n - 1) as nat, r);
        let (ms, r2) = members_field((n - 1) as nat, r)->Ok_0;
        let all = seq![m] + ms;
        assert(all.drop_first() =~= ms);
        assert(all[0] == m);
        lemma_members_bytes_unfold(all);
        assert(s =~= members_bytes(all) + r2);
        assert forall|i: int| 0 <= i < all.len() implies member_error(#[trigger] all[i]) is None by {
            if i > 0 {
                assert(all[i] == ms[i - 1]);
            }
        }
    }
}

/// Read a block behind its `u32` length.
pub fn take_lp(input: &[u8]) -> (r: Result<(Vec<u8>, &[u8]), Error>)
    ensures
        match r {
            Ok((b, rest)) => lp_field(input@) == Ok::<(Seq<u8>, Seq<u8>), Error>((b@, rest@)),
            Err(e) => lp_field(input@) == Err::<(Seq<u8>, Seq<u8>), Error>(e),
        },
{
    match take_bytes(input) {
        Some((b, rest)) => Ok((to_vec(b), rest)),
        None => Err(Error::Malformed),
    }
}

/// Read a big-endian `u32`.
pub fn take_u32_field(input: &[u8]) -> (r: Result<(u32, &[u8]), Error>)
    ensures
        match r {
            Ok((n, rest)) => u32_field(input@) == Ok::<(u32, Seq<u8>), Error>((n, rest@)),
            Err(e) => u32_field(input@) == Err::<(u32, Seq<u8>), Error>(e),
        },
{
    match take_u32(input) {
        Some((n, rest)) => Ok((n, rest)),
        None => Err(Error::Malformed),
    }
}

/// Read a big-endian `u64`.
pub fn take_u64_field(input: &[u8]) -> (r: Result<(u64, &[u8]), Error>)
    ensures
        match r {
            Ok((n, rest)) => u64_field(input@) == Ok::<(u64, Seq<u8>), Error>((n, rest@)),
            Err(e) => u64_field(input@) == Err::<(u64, Seq<u8>), Error>(e),
        },
{
    match take_u64(input) {
        Some((n, rest)) => Ok((n, rest)),
        None => Err(Error::Malformed),
    }
}

/// Read one byte.
pub fn take_byte(input: &[u8]) -> (r: Result<(u8, &[u8]), Error>)
    ensures
        match r {
            Ok((b, rest)) => byte_field(input@) == Ok::<(u8, Seq<u8>), Error>((b, rest@)),
            Err(e) => byte_field(input@) == Err::<(u8, Seq<u8>), Error>(e),
        },
{
    if input.len() < 1 {
        return Err(Error::Malformed);
    }
    let rest = &input[1..input.len()];
    assert(rest@ =~= input@.drop_first());
    Ok((input[0], rest))
}

/// Read an exact domain string.
pub fn take_domain<'a>(input: &'a [u8], domain: &[u8]) -> (r: Result<&'a [u8], Error>)
    ensures
        match r {
            Ok(rest) => domain_field(input@, domain@) == Ok::<Seq<u8>, Error>(rest@),
            Err(e) => domain_field(input@, domain@) == Err::<Seq<u8>, Error>(e),
        },
{
    if input.len() < domain.len() {
        return Err(Error::Malformed);
    }
    let head = &input[0..domain.len()];
    assert(head@ =~= input@.take(domain@.len() as int));
    if !crate::directory_core::bytes_eq(head, domain) {
        return Err(Error::Malformed);
    }
    let rest = &input[domain.len()..input.len()];
    assert(rest@ =~= input@.skip(domain@.len() as int));
    Ok(rest)
}

/// Read a member binding and check its bounds.
pub fn take_member(input: &[u8]) -> (r: Result<(Member, &[u8]), Error>)
    ensures
        match r {
            Ok((m, rest)) => member_field(input@) == Ok::<(MemberV, Seq<u8>), Error>((m@, rest@)),
            Err(e) => member_field(input@) == Err::<(MemberV, Seq<u8>), Error>(e),
        },
{
    proof {
        reveal(member_field);
    }
    let (identity, r1) = match take_lp(input) {
        Ok(p) => p,
        Err(e) => return Err(e),
    };
    let (device, r2) = match take_lp(r1) {
        Ok(p) => p,
        Err(e) => return Err(e),
    };
    let m = Member::new(identity, device);
    match m.validate() {
        Ok(_) => Ok((m, r2)),
        Err(e) => Err(e),
    }
}

/// Append a member binding.
pub fn put_member(out: &mut Vec<u8>, m: &Member)
    requires
        member_error(m@) is None,
    ensures
        final(out)@ == old(out)@ + member_bytes(m@),
{
    let ghost start = out@;
    put_bytes(out, m.identity());
    put_bytes(out, m.device());
    assert(out@ =~= start + member_bytes(m@));
}

/// The views of a list of member bindings.
pub open spec fn member_views(ms: Seq<Member>) -> Seq<MemberV> {
    ms.map_values(|m: Member| m@)
}

/// Read `n` member bindings, each checked as it is read.
pub fn take_members(n: u32, input: &[u8]) -> (r: Result<(Vec<Member>, &[u8]), Error>)
    ensures
        match r {
            Ok((ms, rest)) => members_field(n as nat, input@) == Ok::<(Seq<MemberV>, Seq<u8>), Error>(
                (member_views(ms@), rest@),
            ),
            Err(e) => members_field(n as nat, input@) == Err::<(Seq<MemberV>, Seq<u8>), Error>(e),
        },
    decreases n,
{
    proof {
        lemma_members_field_unfold(n as nat, input@);
    }
    if n == 0 {
        let empty: Vec<Member> = Vec::new();
        assert(member_views(empty@) =~= Seq::<MemberV>::empty());
        return Ok((empty, input));
    }
    let (m, r1) = match take_member(input) {
        Ok(p) => p,
        Err(e) => return Err(e),
    };
    let (mut ms, rest) = match take_members(n - 1, r1) {
        Ok(p) => p,
        Err(e) => return Err(e),
    };
    let ghost tail = ms@;
    ms.insert(0, m);
    assert(member_views(ms@) =~= seq![m@] + member_views(tail));
    Ok((ms, rest))
}

/// Whether member `i` of a list is a second binding of an identity already
/// bound earlier in the list.
pub open spec fn repeats_identity(ms: Seq<MemberV>, i: int) -> bool {
    exists|j: int| 0 <= j < i && (#[trigger] ms[j]).identity == ms[i].identity
}

/// The first violation in a member list from position `i` on, checking each
/// binding's bounds, then that it sorts strictly after its predecessor, then
/// that its identity is not bound earlier in the list.
pub open spec fn member_list_error(ms: Seq<MemberV>, i: nat) -> Option<Error>
    decreases ms.len() - i,
{
    if i >= ms.len() {
        None
    } else if member_error(ms[i as int]) is Some {
        member_error(ms[i as int])
    } else if i > 0 && !lex_lt(sort_key(ms[i - 1]), sort_key(ms[i as int])) {
        Some(Error::NonCanonical)
    } else if repeats_identity(ms, i as int) {
        Some(Error::NonCanonical)
    } else {
        member_list_error(ms, i + 1)
    }
}

/// Check a member list: each binding in bounds, strictly increasing by
/// identity then device, and one binding per identity.
pub fn validate_member_list(ms: &[Member]) -> (r: Result<(), Error>)
    ensures
        match r {
            Ok(_) => member_list_error(member_views(ms@), 0) is None,
            Err(e) => member_list_error(member_views(ms@), 0) == Some(e),
        },
{
    let ghost v = member_views(ms@);
    let mut i: usize = 0;
    while i < ms.len()
        invariant
            0 <= i <= ms@.len(),
            v == member_views(ms@),
            member_list_error(v, 0) == member_list_error(v, i as nat),
        decreases ms@.len() - i,
    {
        assert(v[i as int] == ms@[i as int]@);
        match ms[i].validate() {
            Err(e) => return Err(e),
            Ok(_) => {},
        }
        if i > 0 {
            assert(v[i - 1] == ms@[i - 1]@);
            if !ms[i - 1].sorts_before(&ms[i]) {
                return Err(Error::NonCanonical);
            }
        }
        let mut j: usize = 0;
        while j < i
            invariant
                0 <= j <= i < ms@.len(),
                v == member_views(ms@),
                member_list_error(v, 0) == member_list_error(v, i as nat),
                member_error(v[i as int]) is None,
                i > 0 ==> lex_lt(sort_key(v[i - 1]), sort_key(v[i as int])),
                forall|k: int| 0 <= k < j ==> (#[trigger] v[k]).identity != v[i as int].identity,
            decreases i - j,
        {
            assert(v[j as int] == ms@[j as int]@);
            if crate::directory_core::bytes_eq(ms[j].identity(), ms[i].identity()) {
                assert(repeats_identity(v, i as int));
                assert(member_list_error(v, i as nat) == Some(Error::NonCanonical));
                return Err(Error::NonCanonical);
            }
            j = j + 1;
        }
        assert(!repeats_identity(v, i as int));
        i = i + 1;
    }
    Ok(())
}

/// The roster preimage's domain string.
pub open spec fn roster_domain() -> Seq<u8> {
    encode_utf8("Tacenta Group Roster v1"@)
}

fn roster_domain_bytes() -> (d: &'static [u8])
    ensures
        d@ == roster_domain(),
        d@.len() == 23,
{
    proof {
        reveal_strlit("Tacenta Group Roster v1");
        is_ascii_chars_encode_utf8("Tacenta Group Roster v1"@);
    }
    "Tacenta Group Roster v1".as_bytes()
}

/// A roster as a value.
pub struct RosterV {
    pub group_id: Seq<u8>,
    pub revision: u64,
    pub predecessor_digest: Seq<u8>,
    pub authority: MemberV,
    pub policy_version: u32,
    pub closed: bool,
    pub members: Seq<MemberV>,
}

/// The exact product-owned preimage of a roster commitment.
#[derive(Clone, Debug, PartialEq, Eq)]
pub struct Roster {
    pub group_id: GroupId,
    pub revision: u64,
    pub predecessor_digest: [u8; 32],
    pub authority: Member,
    pub policy_version: u32,
    pub closed: bool,
    pub members: Vec<Member>,
}

impl View for Roster {
    type V = RosterV;

    open spec fn view(&self) -> RosterV {
        RosterV {
            group_id: self.group_id@,
            revision: self.revision,
            predecessor_digest: self.predecessor_digest@,
            authority: self.authority@,
            policy_version: self.policy_version,
            closed: self.closed,
            members: member_views(self.members@),
        }
    }
}

/// The widths a roster's fixed fields have.
pub open spec fn roster_shape(r: RosterV) -> bool {
    r.group_id.len() == GROUP_ID_LEN && r.predecessor_digest.len() == DIGEST_LEN
}

/// A boolean as one byte.
pub open spec fn bool_byte(b: bool) -> u8 {
    if b {
        1
    } else {
        0
    }
}

/// The canonical roster preimage.
pub open spec fn roster_bytes(r: RosterV) -> Seq<u8> {
    roster_domain() + lp(r.group_id) + be64(r.revision) + lp(r.predecessor_digest) + member_bytes(r.authority)
        + be32(r.policy_version) + seq![bool_byte(r.closed)] + be32(r.members.len() as u32)
        + members_bytes(r.members)
}

/// The first profile bound a roster breaks, in the order they are checked.
pub open spec fn roster_error(r: RosterV) -> Option<Error> {
    if r.revision == RESERVED_REVISION {
        Some(Error::ReservedRevision)
    } else if r.policy_version != POLICY_VERSION_V1 {
        Some(Error::UnsupportedPolicy)
    } else if r.members.len() > MAX_MEMBERS {
        Some(Error::TooManyMembers)
    } else if member_error(r.authority) is Some {
        member_error(r.authority)
    } else if member_list_error(r.members, 0) is Some {
        member_list_error(r.members, 0)
    } else if roster_bytes(r).len() > MAX_ROSTER_LEN {
        Some(Error::RosterTooLarge)
    } else {
        None
    }
}

/// The length of a member binding on the wire.
pub fn member_len(m: &Member) -> (n: usize)
    requires
        member_error(m@) is None,
    ensures
        n == member_bytes(m@).len(),
{
    8 + m.identity().len() + m.device().len()
}

/// The length of a list of bounded member bindings on the wire.
pub fn members_len(ms: &[Member]) -> (n: usize)
    requires
        ms@.len() <= MAX_MEMBERS,
        members_ok(member_views(ms@)),
    ensures
        n == members_bytes(member_views(ms@)).len(),
        n <= 8 * 328,
{
    let ghost v = member_views(ms@);
    let mut total: usize = 0;
    let mut i: usize = 0;
    proof {
        lemma_members_bytes_unfold(v.take(0));
    }
    while i < ms.len()
        invariant
            0 <= i <= ms@.len() <= MAX_MEMBERS,
            v == member_views(ms@),
            members_ok(v),
            total == members_bytes(v.take(i as int)).len(),
            total <= i * 328,
        decreases ms@.len() - i,
    {
        assert(v[i as int] == ms@[i as int]@);
        assert(member_error(v[i as int]) is None);
        proof {
            lemma_members_bytes_push(v.take(i as int), v[i as int]);
            assert(v.take(i + 1) =~= v.take(i as int).push(v[i as int]));
        }
        total = total + member_len(&ms[i]);
        i = i + 1;
    }
    assert(v.take(i as int) =~= v);
    total
}

impl Roster {
    /// Check every profile bound, in order, reporting the first broken.
    pub fn validate(&self) -> (r: Result<(), Error>)
        ensures
            match r {
                Ok(_) => roster_error(self@) is None,
                Err(e) => roster_error(self@) == Some(e),
            },
    {
        if self.revision == RESERVED_REVISION {
            return Err(Error::ReservedRevision);
        }
        if self.policy_version != POLICY_VERSION_V1 {
            return Err(Error::UnsupportedPolicy);
        }
        if self.members.len() > MAX_MEMBERS {
            return Err(Error::TooManyMembers);
        }
        match self.authority.validate() {
            Err(e) => return Err(e),
            Ok(_) => {},
        }
        match validate_member_list(self.members.as_slice()) {
            Err(e) => return Err(e),
            Ok(_) => {},
        }
        proof {
            assert forall|i: int| 0 <= i < self@.members.len() implies member_error(#[trigger] self@.members[i]) is None by {
                lemma_member_list_ok(self@.members, 0, i as nat);
            }
        }
        let domain = roster_domain_bytes();
        let total = domain.len() + (4 + 16) + 8 + (4 + 32) + member_len(&self.authority) + 4 + 1 + 4 + members_len(
            self.members.as_slice(),
        );
        assert(total == roster_bytes(self@).len());
        if total > MAX_ROSTER_LEN {
            return Err(Error::RosterTooLarge);
        }
        Ok(())
    }

    /// A roster, if it respects every profile bound.
    pub fn new(
        group_id: GroupId,
        revision: u64,
        predecessor_digest: [u8; 32],
        authority: Member,
        policy_version: u32,
        closed: bool,
        members: Vec<Member>,
    ) -> (r: Result<Roster, Error>)
        ensures
            ({
                let v = RosterV {
                    group_id: group_id@,
                    revision,
                    predecessor_digest: predecessor_digest@,
                    authority: authority@,
                    policy_version,
                    closed,
                    members: member_views(members@),
                };
                match r {
                    Ok(roster) => roster_error(v) is None && roster@ == v,
                    Err(e) => roster_error(v) == Some(e),
                }
            }),
    {
        let roster = Roster { group_id, revision, predecessor_digest, authority, policy_version, closed, members };
        match roster.validate() {
            Ok(_) => Ok(roster),
            Err(e) => Err(e),
        }
    }
}

/// A list without errors from position `i` on has every binding from there
/// in bounds.
pub proof fn lemma_member_list_ok(ms: Seq<MemberV>, i: nat, k: nat)
    requires
        member_list_error(ms, i) is None,
        i <= k < ms.len(),
    ensures
        member_error(ms[k as int]) is None,
    decreases k - i,
{
    if i < k {
        lemma_member_list_ok(ms, i + 1, k);
    }
}

/// Append member bindings one after another.
pub fn put_members(out: &mut Vec<u8>, ms: &[Member])
    requires
        members_ok(member_views(ms@)),
    ensures
        final(out)@ == old(out)@ + members_bytes(member_views(ms@)),
{
    let ghost start = out@;
    let ghost v = member_views(ms@);
    let mut i: usize = 0;
    proof {
        lemma_members_bytes_unfold(v.take(0));
    }
    assert(out@ =~= start + members_bytes(v.take(0)));
    while i < ms.len()
        invariant
            0 <= i <= ms@.len(),
            v == member_views(ms@),
            members_ok(v),
            out@ == start + members_bytes(v.take(i as int)),
        decreases ms@.len() - i,
    {
        assert(v[i as int] == ms@[i as int]@);
        assert(member_error(v[i as int]) is None);
        proof {
            lemma_members_bytes_push(v.take(i as int), v[i as int]);
            assert(v.take(i + 1) =~= v.take(i as int).push(v[i as int]));
        }
        put_member(out, &ms[i]);
        i = i + 1;
        assert(out@ =~= start + members_bytes(v.take(i as int)));
    }
    assert(v.take(i as int) =~= v);
}

/// A roster's fields as a value.
pub open spec fn roster_of(
    group_id: Seq<u8>,
    revision: u64,
    predecessor_digest: Seq<u8>,
    authority: MemberV,
    policy_version: u32,
    closed: bool,
    members: Seq<MemberV>,
) -> RosterV {
    RosterV { group_id, revision, predecessor_digest, authority, policy_version, closed, members }
}

/// Decoding a roster from its closed flag on: the flag is `0` or `1`, at most
/// eight members are announced, exactly they follow, and nothing trails; the
/// result must then respect every profile bound.
pub open spec fn decode_roster_tail(
    group_id: Seq<u8>,
    revision: u64,
    predecessor_digest: Seq<u8>,
    authority: MemberV,
    policy_version: u32,
    s: Seq<u8>,
) -> Result<RosterV, Error> {
    match byte_field(s) {
        Err(e) => Err(e),
        Ok((c, r6)) => if c > 1 {
            Err(Error::Malformed)
        } else {
            match u32_field(r6) {
                Err(e) => Err(e),
                Ok((count, r7)) => if count > MAX_MEMBERS {
                    Err(Error::TooManyMembers)
                } else {
                    match members_field(count as nat, r7) {
                        Err(e) => Err(e),
                        Ok((members, r8)) => if r8.len() > 0 {
                            Err(Error::Malformed)
                        } else {
                            let r = roster_of(
                                group_id,
                                revision,
                                predecessor_digest,
                                authority,
                                policy_version,
                                c == 1,
                                members,
                            );
                            match roster_error(r) {
                                Some(e) => Err(e),
                                None => Ok(r),
                            }
                        },
                    }
                },
            }
        },
    }
}

/// Decoding a roster preimage: at most `MAX_ROSTER_LEN` bytes, the domain,
/// a sixteen-byte group identifier, the revision, a thirty-two-byte
/// predecessor digest, the authority, the policy version, then the tail.
pub open spec fn decode_roster_spec(b: Seq<u8>) -> Result<RosterV, Error> {
    if b.len() > MAX_ROSTER_LEN {
        Err(Error::RosterTooLarge)
    } else {
        match domain_field(b, roster_domain()) {
            Err(e) => Err(e),
            Ok(r0) => match lp_field(r0) {
                Err(e) => Err(e),
                Ok((g, r1)) => if g.len() != GROUP_ID_LEN {
                    Err(Error::Malformed)
                } else {
                    match u64_field(r1) {
                        Err(e) => Err(e),
                        Ok((revision, r2)) => match lp_field(r2) {
                            Err(e) => Err(e),
                            Ok((p, r3)) => if p.len() != DIGEST_LEN {
                                Err(Error::Malformed)
                            } else {
                                match member_field(r3) {
                                    Err(e) => Err(e),
                                    Ok((authority, r4)) => match u32_field(r4) {
                                        Err(e) => Err(e),
                                        Ok((policy, r5)) => decode_roster_tail(
                                            g,
                                            revision,
                                            p,
                                            authority,
                                            policy,
                                            r5,
                                        ),
                                    },
                                }
                            },
                        },
                    }
                },
            },
        }
    }
}

fn decode_roster_rest(
    group_id: GroupId,
    revision: u64,
    predecessor_digest: [u8; 32],
    authority: Member,
    policy_version: u32,
    input: &[u8],
) -> (r: Result<Roster, Error>)
    ensures
        match r {
            Ok(roster) => decode_roster_tail(
                group_id@,
                revision,
                predecessor_digest@,
                authority@,
                policy_version,
                input@,
            ) == Ok::<RosterV, Error>(roster@),
            Err(e) => decode_roster_tail(
                group_id@,
                revision,
                predecessor_digest@,
                authority@,
                policy_version,
                input@,
            ) == Err::<RosterV, Error>(e),
        },
{
    let (c, r6) = match take_byte(input) {
        Ok(p) => p,
        Err(e) => return Err(e),
    };
    let closed = if c == 0 {
        false
    } else if c == 1 {
        true
    } else {
        return Err(Error::Malformed);
    };
    let (count, r7) = match take_u32_field(r6) {
        Ok(p) => p,
        Err(e) => return Err(e),
    };
    if count > 8 {
        return Err(Error::TooManyMembers);
    }
    let (members, r8) = match take_members(count, r7) {
        Ok(p) => p,
        Err(e) => return Err(e),
    };
    if r8.len() > 0 {
        return Err(Error::Malformed);
    }
    Roster::new(group_id, revision, predecessor_digest, authority, policy_version, closed, members)
}

impl Roster {
    /// The preimage whose digest later revisions carry, if the roster
    /// respects every profile bound.
    pub fn encode(&self) -> (r: Result<Vec<u8>, Error>)
        ensures
            match r {
                Ok(b) => roster_error(self@) is None && b@ == roster_bytes(self@),
                Err(e) => roster_error(self@) == Some(e),
            },
    {
        match self.validate() {
            Err(e) => return Err(e),
            Ok(_) => {},
        }
        proof {
            assert forall|i: int| 0 <= i < self@.members.len() implies member_error(#[trigger] self@.members[i]) is None by {
                lemma_member_list_ok(self@.members, 0, i as nat);
            }
        }
        let mut out = Vec::new();
        extend(&mut out, roster_domain_bytes());
        put_bytes(&mut out, self.group_id.as_bytes().as_slice());
        put_u64(&mut out, self.revision);
        put_bytes(&mut out, self.predecessor_digest.as_slice());
        put_member(&mut out, &self.authority);
        put_u32(&mut out, self.policy_version);
        out.push(if self.closed {
            1u8
        } else {
            0u8
        });
        put_u32(&mut out, self.members.len() as u32);
        put_members(&mut out, self.members.as_slice());
        assert(out@ =~= roster_bytes(self@));
        Ok(out)
    }

    /// Decode only an exact, canonical roster preimage.
    pub fn decode(bytes: &[u8]) -> (r: Result<Roster, Error>)
        ensures
            match r {
                Ok(roster) => decode_roster_spec(bytes@) == Ok::<RosterV, Error>(roster@),
                Err(e) => decode_roster_spec(bytes@) == Err::<RosterV, Error>(e),
            },
    {
        if bytes.len() > MAX_ROSTER_LEN {
            return Err(Error::RosterTooLarge);
        }
        let r0 = match take_domain(bytes, roster_domain_bytes()) {
            Ok(rest) => rest,
            Err(e) => return Err(e),
        };
        let (g, r1) = match take_lp(r0) {
            Ok(p) => p,
            Err(e) => return Err(e),
        };
        let group_id = match GroupId::from_slice(g.as_slice()) {
            Ok(id) => id,
            Err(e) => return Err(e),
        };
        let (revision, r2) = match take_u64_field(r1) {
            Ok(p) => p,
            Err(e) => return Err(e),
        };
        let (p, r3) = match take_lp(r2) {
            Ok(p) => p,
            Err(e) => return Err(e),
        };
        if p.len() != 32 {
            return Err(Error::Malformed);
        }
        let predecessor_digest = array32(p.as_slice());
        let (authority, r4) = match take_member(r3) {
            Ok(p) => p,
            Err(e) => return Err(e),
        };
        let (policy_version, r5) = match take_u32_field(r4) {
            Ok(p) => p,
            Err(e) => return Err(e),
        };
        decode_roster_rest(group_id, revision, predecessor_digest, authority, policy_version, r5)
    }
}

/// A roster that respects every profile bound decodes from its canonical
/// preimage to exactly itself.
#[verifier::spinoff_prover]
#[verifier::rlimit(90)]
pub proof fn law_roster_round_trips(r: RosterV)
    requires
        roster_shape(r),
        roster_error(r) is None,
    ensures
        decode_roster_spec(roster_bytes(r)) == Ok::<RosterV, Error>(r),
{
    let d = roster_domain();
    let t8 = members_bytes(r.members);
    let t7 = be32(r.members.len() as u32) + t8;
    let t6 = seq![bool_byte(r.closed)] + t7;
    let t5 = be32(r.policy_version) + t6;
    let t4 = member_bytes(r.authority) + t5;
    let t3 = lp(r.predecessor_digest) + t4;
    let t2 = be64(r.revision) + t3;
    let t1 = lp(r.group_id) + t2;
    assert(roster_bytes(r) =~= d + t1);
    assert((d + t1).take(d.len() as int) =~= d);
    assert((d + t1).skip(d.len() as int) =~= t1);
    lemma_take_bytes_of(r.group_id, t2);
    lemma_take_u64_of(r.revision, t3);
    lemma_take_bytes_of(r.predecessor_digest, t4);
    lemma_member_field_of(r.authority, t5);
    lemma_take_u32_of(r.policy_version, t6);
    assert(t6.drop_first() =~= t7);
    assert(t6[0] == bool_byte(r.closed));
    lemma_take_u32_of(r.members.len() as u32, t8);
    assert forall|i: int| 0 <= i < r.members.len() implies member_error(#[trigger] r.members[i]) is None by {
        lemma_member_list_ok(r.members, 0, i as nat);
    }
    lemma_members_field_of(r.members, Seq::empty());
    assert(t8 + Seq::<u8>::empty() =~= t8);
    assert(roster_of(
        r.group_id,
        r.revision,
        r.predecessor_digest,
        r.authority,
        r.policy_version,
        bool_byte(r.closed) == 1,
        r.members,
    ) == r);
}

/// Decoding is canonical: whatever decodes is exactly the preimage of the
/// roster it decodes to.
#[verifier::spinoff_prover]
#[verifier::rlimit(90)]
pub proof fn law_roster_encoding_is_canonical(b: Seq<u8>)
    requires
        decode_roster_spec(b) is Ok,
    ensures
        roster_bytes(decode_roster_spec(b)->Ok_0) == b,
        roster_shape(decode_roster_spec(b)->Ok_0),
{
    let d = roster_domain();
    let r0 = b.skip(d.len() as int);
    assert(b =~= d + r0);
    lemma_take_bytes_inv(r0);
    let (g, r1) = take_bytes_spec(r0).unwrap();
    lemma_take_u64_inv(r1);
    let (revision, r2) = take_u64_spec(r1).unwrap();
    lemma_take_bytes_inv(r2);
    let (p, r3) = take_bytes_spec(r2).unwrap();
    lemma_member_field_inv(r3);
    let (authority, r4) = member_field(r3)->Ok_0;
    lemma_take_u32_inv(r4);
    let (policy, r5) = take_u32_spec(r4).unwrap();
    let c = r5[0];
    let r6 = r5.drop_first();
    assert(r5 =~= seq![c] + r6);
    lemma_take_u32_inv(r6);
    let (count, r7) = take_u32_spec(r6).unwrap();
    lemma_members_field_inv(count as nat, r7);
    let (members, r8) = members_field(count as nat, r7)->Ok_0;
    let r = decode_roster_spec(b)->Ok_0;
    assert(r == roster_of(g, revision, p, authority, policy, c == 1, members));
    assert(bool_byte(c == 1) == c);
    assert(r8 =~= Seq::<u8>::empty());
    assert(b =~= roster_bytes(r));
}

/// The application context's domain string.
pub open spec fn application_domain() -> Seq<u8> {
    encode_utf8("Tacenta Group Application v1"@)
}

fn application_domain_bytes() -> (d: &'static [u8])
    ensures
        d@ == application_domain(),
        d@.len() == 28,
{
    proof {
        reveal_strlit("Tacenta Group Application v1");
        is_ascii_chars_encode_utf8("Tacenta Group Application v1"@);
    }
    "Tacenta Group Application v1".as_bytes()
}

/// An application context as a value.
pub struct ApplicationContextV {
    pub group_id: Seq<u8>,
    pub revision: u64,
    pub roster_digest: Seq<u8>,
    pub sender: MemberV,
    pub recipient: MemberV,
    pub logical_sequence: u64,
    pub payload: Seq<u8>,
}

/// The authenticated plaintext context of one application message.
#[derive(Clone, Debug, PartialEq, Eq)]
pub struct ApplicationContext {
    pub group_id: GroupId,
    pub revision: u64,
    pub roster_digest: [u8; 32],
    pub sender: Member,
    pub recipient: Member,
    pub logical_sequence: u64,
    pub payload: Vec<u8>,
}

impl View for ApplicationContext {
    type V = ApplicationContextV;

    open spec fn view(&self) -> ApplicationContextV {
        ApplicationContextV {
            group_id: self.group_id@,
            revision: self.revision,
            roster_digest: self.roster_digest@,
            sender: self.sender@,
            recipient: self.recipient@,
            logical_sequence: self.logical_sequence,
            payload: self.payload@,
        }
    }
}

/// The widths a context's fixed fields have.
pub open spec fn context_shape(c: ApplicationContextV) -> bool {
    c.group_id.len() == GROUP_ID_LEN && c.roster_digest.len() == DIGEST_LEN
}

/// The canonical application context.
pub open spec fn context_bytes(c: ApplicationContextV) -> Seq<u8> {
    application_domain() + lp(c.group_id) + be64(c.revision) + lp(c.roster_digest) + member_bytes(c.sender)
        + member_bytes(c.recipient) + be64(c.logical_sequence) + lp(c.payload)
}

/// The first profile bound a context breaks, in the order they are checked.
pub open spec fn context_error(c: ApplicationContextV) -> Option<Error> {
    if c.revision == RESERVED_REVISION {
        Some(Error::ReservedRevision)
    } else if c.payload.len() > MAX_PAYLOAD_LEN {
        Some(Error::PayloadTooLarge)
    } else if member_error(c.sender) is Some {
        member_error(c.sender)
    } else if member_error(c.recipient) is Some {
        member_error(c.recipient)
    } else if context_bytes(c).len() > MAX_APPLICATION_CONTEXT_LEN {
        Some(Error::ContextTooLarge)
    } else {
        None
    }
}

/// Decoding a context from its sequence number on.
pub open spec fn decode_context_tail(
    group_id: Seq<u8>,
    revision: u64,
    roster_digest: Seq<u8>,
    sender: MemberV,
    recipient: MemberV,
    s: Seq<u8>,
) -> Result<ApplicationContextV, Error> {
    match u64_field(s) {
        Err(e) => Err(e),
        Ok((logical_sequence, r7)) => match lp_field(r7) {
            Err(e) => Err(e),
            Ok((payload, r8)) => if r8.len() > 0 {
                Err(Error::Malformed)
            } else {
                let c = ApplicationContextV {
                    group_id,
                    revision,
                    roster_digest,
                    sender,
                    recipient,
                    logical_sequence,
                    payload,
                };
                match context_error(c) {
                    Some(e) => Err(e),
                    None => Ok(c),
                }
            },
        },
    }
}

/// Decoding an application context: at most `MAX_APPLICATION_CONTEXT_LEN`
/// bytes, the domain, a sixteen-byte group identifier, the revision, a
/// thirty-two-byte roster digest, sender, recipient, sequence and payload,
/// nothing trailing; the result must respect every profile bound.
pub open spec fn decode_context_spec(b: Seq<u8>) -> Result<ApplicationContextV, Error> {
    if b.len() > MAX_APPLICATION_CONTEXT_LEN {
        Err(Error::ContextTooLarge)
    } else {
        match domain_field(b, application_domain()) {
            Err(e) => Err(e),
            Ok(r0) => match lp_field(r0) {
                Err(e) => Err(e),
                Ok((g, r1)) => if g.len() != GROUP_ID_LEN {
                    Err(Error::Malformed)
                } else {
                    match u64_field(r1) {
                        Err(e) => Err(e),
                        Ok((revision, r2)) => match lp_field(r2) {
                            Err(e) => Err(e),
                            Ok((d, r3)) => if d.len() != DIGEST_LEN {
                                Err(Error::Malformed)
                            } else {
                                match member_field(r3) {
                                    Err(e) => Err(e),
                                    Ok((sender, r4)) => match member_field(r4) {
                                        Err(e) => Err(e),
                                        Ok((recipient, r5)) => decode_context_tail(
                                            g,
                                            revision,
                                            d,
                                            sender,
                                            recipient,
                                            r5,
                                        ),
                                    },
                                }
                            },
                        },
                    }
                },
            },
        }
    }
}

impl ApplicationContext {
    /// Check every profile bound, in order, reporting the first broken.
    pub fn validate(&self) -> (r: Result<(), Error>)
        ensures
            match r {
                Ok(_) => context_error(self@) is None,
                Err(e) => context_error(self@) == Some(e),
            },
    {
        if self.revision == RESERVED_REVISION {
            return Err(Error::ReservedRevision);
        }
        if self.payload.len() > MAX_PAYLOAD_LEN {
            return Err(Error::PayloadTooLarge);
        }
        match self.sender.validate() {
            Err(e) => return Err(e),
            Ok(_) => {},
        }
        match self.recipient.validate() {
            Err(e) => return Err(e),
            Ok(_) => {},
        }
        let total = application_domain_bytes().len() + (4 + 16) + 8 + (4 + 32) + member_len(&self.sender)
            + member_len(&self.recipient) + 8 + (4 + self.payload.len());
        assert(total == context_bytes(self@).len());
        if total > MAX_APPLICATION_CONTEXT_LEN {
            return Err(Error::ContextTooLarge);
        }
        Ok(())
    }

    /// A context, if it respects every profile bound.
    pub fn new(
        group_id: GroupId,
        revision: u64,
        roster_digest: [u8; 32],
        sender: Member,
        recipient: Member,
        logical_sequence: u64,
        payload: Vec<u8>,
    ) -> (r: Result<ApplicationContext, Error>)
        ensures
            ({
                let v = ApplicationContextV {
                    group_id: group_id@,
                    revision,
                    roster_digest: roster_digest@,
                    sender: sender@,
                    recipient: recipient@,
                    logical_sequence,
                    payload: payload@,
                };
                match r {
                    Ok(c) => context_error(v) is None && c@ == v,
                    Err(e) => context_error(v) == Some(e),
                }
            }),
    {
        let context = ApplicationContext {
            group_id,
            revision,
            roster_digest,
            sender,
            recipient,
            logical_sequence,
            payload,
        };
        match context.validate() {
            Ok(_) => Ok(context),
            Err(e) => Err(e),
        }
    }

    /// The canonical context bytes, if it respects every profile bound.
    pub fn encode(&self) -> (r: Result<Vec<u8>, Error>)
        ensures
            match r {
                Ok(b) => context_error(self@) is None && b@ == context_bytes(self@),
                Err(e) => context_error(self@) == Some(e),
            },
    {
        match self.validate() {
            Err(e) => return Err(e),
            Ok(_) => {},
        }
        let mut out = Vec::new();
        extend(&mut out, application_domain_bytes());
        put_bytes(&mut out, self.group_id.as_bytes().as_slice());
        put_u64(&mut out, self.revision);
        put_bytes(&mut out, self.roster_digest.as_slice());
        put_member(&mut out, &self.sender);
        put_member(&mut out, &self.recipient);
        put_u64(&mut out, self.logical_sequence);
        put_bytes(&mut out, self.payload.as_slice());
        assert(out@ =~= context_bytes(self@));
        Ok(out)
    }

    /// Decode only an exact, canonical application context.
    pub fn decode(bytes: &[u8]) -> (r: Result<ApplicationContext, Error>)
        ensures
            match r {
                Ok(c) => decode_context_spec(bytes@) == Ok::<ApplicationContextV, Error>(c@),
                Err(e) => decode_context_spec(bytes@) == Err::<ApplicationContextV, Error>(e),
            },
    {
        if bytes.len() > MAX_APPLICATION_CONTEXT_LEN {
            return Err(Error::ContextTooLarge);
        }
        let r0 = match take_domain(bytes, application_domain_bytes()) {
            Ok(rest) => rest,
            Err(e) => return Err(e),
        };
        let (g, r1) = match take_lp(r0) {
            Ok(p) => p,
            Err(e) => return Err(e),
        };
        let group_id = match GroupId::from_slice(g.as_slice()) {
            Ok(id) => id,
            Err(e) => return Err(e),
        };
        let (revision, r2) = match take_u64_field(r1) {
            Ok(p) => p,
            Err(e) => return Err(e),
        };
        let (d, r3) = match take_lp(r2) {
            Ok(p) => p,
            Err(e) => return Err(e),
        };
        if d.len() != 32 {
            return Err(Error::Malformed);
        }
        let roster_digest = array32(d.as_slice());
        let (sender, r4) = match take_member(r3) {
            Ok(p) => p,
            Err(e) => return Err(e),
        };
        let (recipient, r5) = match take_member(r4) {
            Ok(p) => p,
            Err(e) => return Err(e),
        };
        let (logical_sequence, r7) = match take_u64_field(r5) {
            Ok(p) => p,
            Err(e) => return Err(e),
        };
        let (payload, r8) = match take_lp(r7) {
            Ok(p) => p,
            Err(e) => return Err(e),
        };
        if r8.len() > 0 {
            return Err(Error::Malformed);
        }
        ApplicationContext::new(group_id, revision, roster_digest, sender, recipient, logical_sequence, payload)
    }

    /// The same context, as a fresh value.
    pub fn duplicate(&self) -> (c: ApplicationContext)
        ensures
            c@ == self@,
    {
        ApplicationContext {
            group_id: self.group_id,
            revision: self.revision,
            roster_digest: self.roster_digest,
            sender: self.sender.duplicate(),
            recipient: self.recipient.duplicate(),
            logical_sequence: self.logical_sequence,
            payload: to_vec(self.payload.as_slice()),
        }
    }
}

/// A context that respects every profile bound decodes from its canonical
/// bytes to exactly itself.
#[verifier::spinoff_prover]
#[verifier::rlimit(30)]
pub proof fn law_context_round_trips(c: ApplicationContextV)
    requires
        context_shape(c),
        context_error(c) is None,
    ensures
        decode_context_spec(context_bytes(c)) == Ok::<ApplicationContextV, Error>(c),
{
    let d = application_domain();
    let t7 = lp(c.payload);
    let t6 = be64(c.logical_sequence) + t7;
    let t5 = member_bytes(c.recipient) + t6;
    let t4 = member_bytes(c.sender) + t5;
    let t3 = lp(c.roster_digest) + t4;
    let t2 = be64(c.revision) + t3;
    let t1 = lp(c.group_id) + t2;
    assert(context_bytes(c) =~= d + t1);
    assert((d + t1).take(d.len() as int) =~= d);
    assert((d + t1).skip(d.len() as int) =~= t1);
    lemma_take_bytes_of(c.group_id, t2);
    lemma_take_u64_of(c.revision, t3);
    lemma_take_bytes_of(c.roster_digest, t4);
    lemma_member_field_of(c.sender, t5);
    lemma_member_field_of(c.recipient, t6);
    lemma_take_u64_of(c.logical_sequence, t7);
    lemma_take_bytes_of(c.payload, Seq::empty());
    assert(t7 + Seq::<u8>::empty() =~= t7);
}

/// Decoding is canonical: whatever decodes is exactly the canonical bytes of
/// the context it decodes to.
#[verifier::spinoff_prover]
#[verifier::rlimit(30)]
pub proof fn law_context_encoding_is_canonical(b: Seq<u8>)
    requires
        decode_context_spec(b) is Ok,
    ensures
        context_bytes(decode_context_spec(b)->Ok_0) == b,
        context_shape(decode_context_spec(b)->Ok_0),
{
    let d = application_domain();
    let r0 = b.skip(d.len() as int);
    assert(b =~= d + r0);
    lemma_take_bytes_inv(r0);
    let (g, r1) = take_bytes_spec(r0).unwrap();
    lemma_take_u64_inv(r1);
    let (revision, r2) = take_u64_spec(r1).unwrap();
    lemma_take_bytes_inv(r2);
    let (dg, r3) = take_bytes_spec(r2).unwrap();
    lemma_member_field_inv(r3);
    let (sender, r4) = member_field(r3)->Ok_0;
    lemma_member_field_inv(r4);
    let (recipient, r5) = member_field(r4)->Ok_0;
    lemma_take_u64_inv(r5);
    let (sequence, r7) = take_u64_spec(r5).unwrap();
    lemma_take_bytes_inv(r7);
    let (payload, r8) = take_bytes_spec(r7).unwrap();
    assert(r8 =~= Seq::<u8>::empty());
    let c = decode_context_spec(b)->Ok_0;
    assert(b =~= context_bytes(c));
}

/// Whether two member lists hold the same bindings in the same order.
pub fn same_members(a: &[Member], b: &[Member]) -> (eq: bool)
    ensures
        eq == (member_views(a@) == member_views(b@)),
{
    if a.len() != b.len() {
        assert(member_views(a@).len() != member_views(b@).len());
        return false;
    }
    let mut i: usize = 0;
    while i < a.len()
        invariant
            0 <= i <= a@.len(),
            a@.len() == b@.len(),
            forall|j: int| 0 <= j < i ==> (#[trigger] a@[j])@ == b@[j]@,
        decreases a@.len() - i,
    {
        if !a[i].same(&b[i]) {
            assert(member_views(a@)[i as int] != member_views(b@)[i as int]);
            return false;
        }
        i = i + 1;
    }
    assert(member_views(a@) =~= member_views(b@));
    true
}

impl Roster {
    /// Whether two rosters are the same roster.
    pub fn same(&self, other: &Roster) -> (eq: bool)
        ensures
            eq == (self@ == other@),
    {
        self.group_id.same(&other.group_id) && self.revision == other.revision && same_digest(
            &self.predecessor_digest,
            &other.predecessor_digest,
        ) && self.authority.same(&other.authority) && self.policy_version == other.policy_version
            && self.closed == other.closed && same_members(self.members.as_slice(), other.members.as_slice())
    }

    /// Whether the roster grants `member` application membership: it is not
    /// closed and holds that complete binding.
    pub fn grants(&self, member: &Member) -> (active: bool)
        ensures
            active == roster_grants(self@, member@),
    {
        !self.closed && contains_member(self.members.as_slice(), member)
    }

    /// The same roster, as a fresh value.
    pub fn duplicate(&self) -> (r: Roster)
        ensures
            r@ == self@,
    {
        let mut members: Vec<Member> = Vec::new();
        let mut i: usize = 0;
        while i < self.members.len()
            invariant
                0 <= i <= self.members@.len(),
                members@.len() == i,
                forall|j: int| 0 <= j < i ==> (#[trigger] members@[j])@ == self.members@[j]@,
            decreases self.members@.len() - i,
        {
            members.push(self.members[i].duplicate());
            i = i + 1;
        }
        assert(member_views(members@) =~= member_views(self.members@));
        Roster {
            group_id: self.group_id,
            revision: self.revision,
            predecessor_digest: self.predecessor_digest,
            authority: self.authority.duplicate(),
            policy_version: self.policy_version,
            closed: self.closed,
            members,
        }
    }
}

/// A roster grants application membership to a binding when it is open and
/// holds that binding.
pub open spec fn roster_grants(r: RosterV, m: MemberV) -> bool {
    !r.closed && r.members.contains(m)
}


impl ApplicationContext {
    /// Whether two contexts are the same context.
    pub fn same(&self, other: &ApplicationContext) -> (eq: bool)
        ensures
            eq == (self@ == other@),
    {
        self.group_id.same(&other.group_id) && self.revision == other.revision && same_digest(
            &self.roster_digest,
            &other.roster_digest,
        ) && self.sender.same(&other.sender) && self.recipient.same(&other.recipient) && self.logical_sequence
            == other.logical_sequence && crate::directory_core::bytes_eq(
            self.payload.as_slice(),
            other.payload.as_slice(),
        )
    }
}


/// No byte string sorts before itself.
pub proof fn lemma_lex_irreflexive(a: Seq<u8>)
    ensures
        !lex_lt(a, a),
    decreases a.len(),
{
    if a.len() > 0 {
        lemma_lex_irreflexive(a.drop_first());
    }
}

/// Of two byte strings, at most one sorts before the other.
pub proof fn lemma_lex_asymmetric(a: Seq<u8>, b: Seq<u8>)
    ensures
        lex_lt(a, b) ==> !lex_lt(b, a),
    decreases a.len(),
{
    if a.len() > 0 && b.len() > 0 && a[0] == b[0] {
        lemma_lex_asymmetric(a.drop_first(), b.drop_first());
    }
}

/// The order is transitive.
pub proof fn lemma_lex_transitive(a: Seq<u8>, b: Seq<u8>, c: Seq<u8>)
    requires
        lex_lt(a, b),
        lex_lt(b, c),
    ensures
        lex_lt(a, c),
    decreases a.len(),
{
    if a.len() > 0 && b.len() > 0 && c.len() > 0 && a[0] == b[0] && b[0] == c[0] {
        lemma_lex_transitive(a.drop_first(), b.drop_first(), c.drop_first());
    }
}

/// Of two different byte strings, one sorts before the other.
pub proof fn lemma_lex_total(a: Seq<u8>, b: Seq<u8>)
    requires
        a != b,
    ensures
        lex_lt(a, b) || lex_lt(b, a),
    decreases a.len(),
{
    if a.len() == 0 {
        assert(b.len() > 0) by {
            if b.len() == 0 {
                assert(a =~= b);
            }
        }
    } else if b.len() > 0 && a[0] == b[0] {
        if a.drop_first() == b.drop_first() {
            assert(a =~= seq![a[0]] + a.drop_first());
            assert(b =~= seq![b[0]] + b.drop_first());
        }
        lemma_lex_total(a.drop_first(), b.drop_first());
    }
}

/// A decoded roster re-encodes byte for byte: it respects every profile
/// bound and its canonical bytes are the bytes it was read from.
pub proof fn law_a_decoded_roster_re_encodes(b: Seq<u8>)
    requires
        decode_roster_spec(b) is Ok,
    ensures
        roster_error(decode_roster_spec(b)->Ok_0) is None,
        roster_bytes(decode_roster_spec(b)->Ok_0) == b,
{
    law_roster_encoding_is_canonical(b);
}

/// A roster's canonical bytes with one more byte after them are refused:
/// as too large where the byte crosses the size bound, else as malformed.
#[verifier::spinoff_prover]
#[verifier::rlimit(90)]
pub proof fn law_roster_refuses_a_trailing_byte(r: RosterV, x: u8)
    requires
        roster_shape(r),
        roster_error(r) is None,
    ensures
        decode_roster_spec(roster_bytes(r) + seq![x]) == Err::<RosterV, Error>(
            if roster_bytes(r).len() + 1 > MAX_ROSTER_LEN {
                Error::RosterTooLarge
            } else {
                Error::Malformed
            },
        ),
{
    let extra = seq![x];
    let d = roster_domain();
    let t8 = members_bytes(r.members) + extra;
    let t7 = be32(r.members.len() as u32) + t8;
    let t6 = seq![bool_byte(r.closed)] + t7;
    let t5 = be32(r.policy_version) + t6;
    let t4 = member_bytes(r.authority) + t5;
    let t3 = lp(r.predecessor_digest) + t4;
    let t2 = be64(r.revision) + t3;
    let t1 = lp(r.group_id) + t2;
    assert(roster_bytes(r) + extra =~= d + t1);
    assert((d + t1).take(d.len() as int) =~= d);
    assert((d + t1).skip(d.len() as int) =~= t1);
    lemma_take_bytes_of(r.group_id, t2);
    lemma_take_u64_of(r.revision, t3);
    lemma_take_bytes_of(r.predecessor_digest, t4);
    lemma_member_field_of(r.authority, t5);
    lemma_take_u32_of(r.policy_version, t6);
    assert(t6.drop_first() =~= t7);
    assert(t6[0] == bool_byte(r.closed));
    lemma_take_u32_of(r.members.len() as u32, t8);
    assert forall|i: int| 0 <= i < r.members.len() implies member_error(#[trigger] r.members[i]) is None by {
        lemma_member_list_ok(r.members, 0, i as nat);
    }
    lemma_members_field_of(r.members, extra);
}

/// A context's canonical bytes with one more byte after them are refused:
/// as too large where the byte crosses the size bound, else as malformed.
#[verifier::spinoff_prover]
#[verifier::rlimit(90)]
pub proof fn law_context_refuses_a_trailing_byte(c: ApplicationContextV, x: u8)
    requires
        context_shape(c),
        context_error(c) is None,
    ensures
        decode_context_spec(context_bytes(c) + seq![x]) == Err::<ApplicationContextV, Error>(
            if context_bytes(c).len() + 1 > MAX_APPLICATION_CONTEXT_LEN {
                Error::ContextTooLarge
            } else {
                Error::Malformed
            },
        ),
{
    let extra = seq![x];
    let d = application_domain();
    let t7 = lp(c.payload) + extra;
    let t6 = be64(c.logical_sequence) + t7;
    let t5 = member_bytes(c.recipient) + t6;
    let t4 = member_bytes(c.sender) + t5;
    let t3 = lp(c.roster_digest) + t4;
    let t2 = be64(c.revision) + t3;
    let t1 = lp(c.group_id) + t2;
    assert(context_bytes(c) + extra =~= d + t1);
    assert((d + t1).take(d.len() as int) =~= d);
    assert((d + t1).skip(d.len() as int) =~= t1);
    lemma_take_bytes_of(c.group_id, t2);
    lemma_take_u64_of(c.revision, t3);
    lemma_take_bytes_of(c.roster_digest, t4);
    lemma_member_field_of(c.sender, t5);
    lemma_member_field_of(c.recipient, t6);
    lemma_take_u64_of(c.logical_sequence, t7);
    lemma_take_bytes_of(c.payload, extra);
}

/// A context whose roster-digest length field says anything but thirty-two
/// does not decode.
#[verifier::spinoff_prover]
#[verifier::rlimit(90)]
pub proof fn law_context_refuses_a_wrong_digest_length(c: ApplicationContextV, n: u32)
    requires
        context_shape(c),
        context_error(c) is None,
        n != DIGEST_LEN,
    ensures
        decode_context_spec(
            application_domain() + lp(c.group_id) + be64(c.revision) + be32(n) + c.roster_digest + member_bytes(
                c.sender,
            ) + member_bytes(c.recipient) + be64(c.logical_sequence) + lp(c.payload),
        ) == Err::<ApplicationContextV, Error>(Error::Malformed),
{
    let d = application_domain();
    let tail = member_bytes(c.sender) + member_bytes(c.recipient) + be64(c.logical_sequence) + lp(c.payload);
    let t3 = be32(n) + (c.roster_digest + tail);
    let t2 = be64(c.revision) + t3;
    let t1 = lp(c.group_id) + t2;
    let b = d + lp(c.group_id) + be64(c.revision) + be32(n) + c.roster_digest + member_bytes(c.sender) + member_bytes(
        c.recipient,
    ) + be64(c.logical_sequence) + lp(c.payload);
    assert(b =~= d + t1);
    assert((d + t1).take(d.len() as int) =~= d);
    assert((d + t1).skip(d.len() as int) =~= t1);
    lemma_take_bytes_of(c.group_id, t2);
    lemma_take_u64_of(c.revision, t3);
    lemma_take_u32_of(n, c.roster_digest + tail);
    assert(b.len() == context_bytes(c).len());
    match lp_field(t3) {
        Ok((dg, r3)) => {
            assert(dg.len() == n);
        },
        Err(_) => {},
    }
}

/// A closed roster grants application membership to no binding, listed or
/// not; an open roster grants it exactly to the bindings it lists.
pub proof fn law_a_closed_roster_grants_nothing(r: RosterV, m: MemberV)
    ensures
        r.closed ==> !roster_grants(r, m),
        !r.closed ==> (roster_grants(r, m) <==> r.members.contains(m)),
{
}

} // verus!
