//! The bounded invitation lifecycle of one group, authority side and
//! recipient side: pending, accepted pending admission, admitted, revoked or
//! expired, and a canonical checkpoint of all of it.
//!
//! Authentication comes from the integration layer as the actual peer
//! binding of the pairwise channel; these methods compare that binding with
//! the authority or the target the invitation names. A relay address is
//! never identity evidence here.
use crate::codec::{
    be16, be32, be64, extend, lemma_be16_of, lemma_take_u32_inv, lemma_take_u32_of, lemma_take_u64_inv,
    lemma_take_u64_of, lemma_u16_roundtrip, put_u16, put_u32, put_u64, read_u16, take_u32_spec, take_u64_spec,
    to_vec, u16_of,
};
use crate::group::{byte_field, domain_field, take_byte, take_domain, take_u32_field, take_u64_field, u32_field, u64_field};
use crate::group::{
    array16, array32, lex_lt, member_error, same_bytes16, same_digest, Error, GroupId, Member, MemberV,
    POLICY_VERSION_V1, RESERVED_REVISION,
};
use vstd::prelude::*;

verus! {

/// The most invitation records one book holds.
pub const MAX_INVITATION_RECORDS: usize = 32;

/// A fixed-width opaque invitation identifier.
#[derive(Clone, Copy, Debug, PartialEq, Eq, Hash)]
pub struct InvitationId([u8; 16]);

impl View for InvitationId {
    type V = Seq<u8>;

    closed spec fn view(&self) -> Seq<u8> {
        self.0@
    }
}

impl InvitationId {
    pub fn new(bytes: [u8; 16]) -> (i: InvitationId)
        ensures
            i@ == bytes@,
    {
        InvitationId(bytes)
    }

    pub fn as_bytes(&self) -> (b: &[u8; 16])
        ensures
            b@ == self@,
    {
        &self.0
    }

    /// The identifier held in exactly sixteen bytes; `Malformed` otherwise.
    pub fn from_slice(bytes: &[u8]) -> (r: Result<InvitationId, Error>)
        ensures
            match r {
                Ok(i) => bytes@.len() == 16 && i@ == bytes@,
                Err(e) => bytes@.len() != 16 && e == Error::Malformed,
            },
    {
        if bytes.len() != 16 {
            return Err(Error::Malformed);
        }
        Ok(InvitationId(array16(bytes)))
    }

    /// Whether two identifiers are the same.
    pub fn same(&self, other: &InvitationId) -> (eq: bool)
        ensures
            eq == (self@ == other@),
    {
        same_bytes16(&self.0, &other.0)
    }

    /// Whether this identifier sorts strictly before `other`.
    pub fn sorts_before(&self, other: &InvitationId) -> (lt: bool)
        ensures
            lt == lex_lt(self@, other@),
    {
        crate::group::bytes_lt(self.0.as_slice(), other.0.as_slice())
    }

    /// The identifier's width.
    pub proof fn lemma_width(&self)
        ensures
            self@.len() == 16,
    {
    }
}

/// A committed invitation's only legal lifecycle states.
#[derive(Clone, Copy, Debug, PartialEq, Eq, Structural)]
pub enum InvitationStatus {
    Pending,
    AcceptedPendingAdmission,
    Admitted { revision: u64 },
    Revoked,
    Expired,
}

/// The immutable part of an authority-issued invitation, and its status.
#[derive(Clone, Debug, PartialEq, Eq)]
pub struct Invitation {
    pub id: InvitationId,
    pub group_id: GroupId,
    pub target: Member,
    pub source_revision: u64,
    pub source_roster_digest: [u8; 32],
    pub policy_version: u32,
    pub expires_at: u64,
    pub status: InvitationStatus,
}

/// An invitation as a value.
pub struct InvitationV {
    pub id: Seq<u8>,
    pub group_id: Seq<u8>,
    pub target: MemberV,
    pub source_revision: u64,
    pub source_roster_digest: Seq<u8>,
    pub policy_version: u32,
    pub expires_at: u64,
    pub status: InvitationStatus,
}

impl View for Invitation {
    type V = InvitationV;

    open spec fn view(&self) -> InvitationV {
        InvitationV {
            id: self.id@,
            group_id: self.group_id@,
            target: self.target@,
            source_revision: self.source_revision,
            source_roster_digest: self.source_roster_digest@,
            policy_version: self.policy_version,
            expires_at: self.expires_at,
            status: self.status,
        }
    }
}

/// The first bound a new invitation breaks.
pub open spec fn invitation_error(source_revision: u64, policy_version: u32, target: MemberV) -> Option<Error> {
    if source_revision == RESERVED_REVISION {
        Some(Error::ReservedRevision)
    } else if policy_version != POLICY_VERSION_V1 {
        Some(Error::UnsupportedPolicy)
    } else {
        member_error(target)
    }
}

/// Two invitations agree on every field an invitation can never change.
pub open spec fn same_invitation(a: InvitationV, b: InvitationV) -> bool {
    &&& a.id == b.id
    &&& a.group_id == b.group_id
    &&& a.target == b.target
    &&& a.source_revision == b.source_revision
    &&& a.source_roster_digest == b.source_roster_digest
    &&& a.policy_version == b.policy_version
    &&& a.expires_at == b.expires_at
}

/// An open invitation whose deadline has come expires.
pub open spec fn expire_if_due(r: InvitationV, now: u64) -> InvitationV {
    if now >= r.expires_at && (r.status == InvitationStatus::Pending || r.status
        == InvitationStatus::AcceptedPendingAdmission) {
        InvitationV { status: InvitationStatus::Expired, ..r }
    } else {
        r
    }
}

impl Invitation {
    /// A pending invitation, unless its source revision is reserved, its
    /// policy is not this profile's, or its target breaks a member bound.
    pub fn new(
        id: InvitationId,
        group_id: GroupId,
        target: Member,
        source_revision: u64,
        source_roster_digest: [u8; 32],
        policy_version: u32,
        expires_at: u64,
    ) -> (r: Result<Invitation, Error>)
        ensures
            match r {
                Ok(inv) => invitation_error(source_revision, policy_version, target@) is None && inv@ == (
                InvitationV {
                    id: id@,
                    group_id: group_id@,
                    target: target@,
                    source_revision,
                    source_roster_digest: source_roster_digest@,
                    policy_version,
                    expires_at,
                    status: InvitationStatus::Pending,
                }),
                Err(e) => invitation_error(source_revision, policy_version, target@) == Some(e),
            },
    {
        if source_revision == RESERVED_REVISION {
            return Err(Error::ReservedRevision);
        }
        if policy_version != POLICY_VERSION_V1 {
            return Err(Error::UnsupportedPolicy);
        }
        match target.validate() {
            Err(e) => return Err(e),
            Ok(_) => {},
        }
        Ok(
            Invitation {
                id,
                group_id,
                target,
                source_revision,
                source_roster_digest,
                policy_version,
                expires_at,
                status: InvitationStatus::Pending,
            },
        )
    }

    fn same_immutable_fields(&self, candidate: &Invitation) -> (eq: bool)
        ensures
            eq == same_invitation(self@, candidate@),
    {
        self.id.same(&candidate.id) && self.group_id.same(&candidate.group_id) && self.target.same(
            &candidate.target,
        ) && self.source_revision == candidate.source_revision && same_digest(
            &self.source_roster_digest,
            &candidate.source_roster_digest,
        ) && self.policy_version == candidate.policy_version && self.expires_at == candidate.expires_at
    }

    fn expire_if_due(&mut self, now: u64)
        ensures
            final(self)@ == expire_if_due(old(self)@, now),
    {
        if now >= self.expires_at && (self.status == InvitationStatus::Pending || self.status
            == InvitationStatus::AcceptedPendingAdmission) {
            self.status = InvitationStatus::Expired;
        }
    }

    /// The same invitation, as a fresh value.
    pub fn duplicate(&self) -> (i: Invitation)
        ensures
            i@ == self@,
    {
        Invitation {
            id: self.id,
            group_id: self.group_id,
            target: self.target.duplicate(),
            source_revision: self.source_revision,
            source_roster_digest: self.source_roster_digest,
            policy_version: self.policy_version,
            expires_at: self.expires_at,
            status: self.status,
        }
    }
}

/// The invitation records of one group.
#[derive(Clone, Debug, PartialEq, Eq)]
pub struct InvitationBook {
    group_id: GroupId,
    invitations: Vec<Invitation>,
}

/// A book as a value.
pub struct BookV {
    pub group_id: Seq<u8>,
    pub records: Seq<InvitationV>,
}

/// The views of a list of invitations.
pub open spec fn invitation_views(rs: Seq<Invitation>) -> Seq<InvitationV> {
    rs.map_values(|r: Invitation| r@)
}

impl View for InvitationBook {
    type V = BookV;

    closed spec fn view(&self) -> BookV {
        BookV { group_id: self.group_id@, records: invitation_views(self.invitations@) }
    }
}

/// No identifier occurs twice, and there are at most
/// `MAX_INVITATION_RECORDS` records.
pub open spec fn book_wf(b: BookV) -> bool {
    &&& b.records.len() <= MAX_INVITATION_RECORDS
    &&& forall|i: int, j: int| 0 <= i < j < b.records.len() ==> (#[trigger] b.records[i]).id != (
    #[trigger] b.records[j]).id
}

/// Whether a record with identifier `id` is held.
pub open spec fn has_invitation(rs: Seq<InvitationV>, id: Seq<u8>) -> bool {
    exists|k: int| 0 <= k < rs.len() && (#[trigger] rs[k]).id == id
}

/// The position of the record with identifier `id`.
pub open spec fn invitation_index(rs: Seq<InvitationV>, id: Seq<u8>) -> int {
    choose|k: int| 0 <= k < rs.len() && (#[trigger] rs[k]).id == id
}

/// Creating a record: only the authenticated authority, only for this
/// group, only before its deadline and only for someone not yet active; an
/// exact retry returns the committed record and a reused identifier with a
/// changed field conflicts; a full book refuses.
pub open spec fn spec_create(
    b: BookV,
    authenticated: MemberV,
    authority: MemberV,
    active: Seq<MemberV>,
    inv: InvitationV,
    now: u64,
) -> (BookV, Result<InvitationV, Error>) {
    if authenticated != authority {
        (b, Err(Error::Unauthorized))
    } else if inv.group_id != b.group_id {
        (b, Err(Error::Conflict))
    } else if now >= inv.expires_at {
        (b, Err(Error::Expired))
    } else if active.contains(inv.target) {
        (b, Err(Error::Conflict))
    } else if has_invitation(b.records, inv.id) {
        let existing = b.records[invitation_index(b.records, inv.id)];
        if same_invitation(existing, inv) {
            (b, Ok(existing))
        } else {
            (b, Err(Error::Conflict))
        }
    } else if b.records.len() == MAX_INVITATION_RECORDS {
        (b, Err(Error::OutboxFull))
    } else {
        (BookV { records: b.records.push(inv), ..b }, Ok(inv))
    }
}

/// A book with the record at `k` replaced.
pub open spec fn with_record(b: BookV, k: int, r: InvitationV) -> BookV {
    BookV { records: b.records.update(k, r), ..b }
}

/// Accepting: only the named target, only against the source roster it was
/// issued from; a due record expires first; a pending one becomes accepted
/// pending admission, an accepted or admitted one is returned as it is.
pub open spec fn spec_accept(
    b: BookV,
    id: Seq<u8>,
    authenticated: MemberV,
    observed_revision: u64,
    observed_digest: Seq<u8>,
    now: u64,
) -> (BookV, Result<InvitationV, Error>) {
    if !has_invitation(b.records, id) {
        (b, Err(Error::Malformed))
    } else {
        let k = invitation_index(b.records, id);
        let r = b.records[k];
        if authenticated != r.target {
            (b, Err(Error::WrongTarget))
        } else if !(r.source_revision == observed_revision && r.source_roster_digest == observed_digest) {
            (b, Err(Error::StaleSource))
        } else {
            let r1 = expire_if_due(r, now);
            match r1.status {
                InvitationStatus::Pending => {
                    let r2 = InvitationV { status: InvitationStatus::AcceptedPendingAdmission, ..r1 };
                    (with_record(b, k, r2), Ok(r2))
                },
                InvitationStatus::AcceptedPendingAdmission | InvitationStatus::Admitted { .. } => (
                    with_record(b, k, r1),
                    Ok(r1),
                ),
                InvitationStatus::Revoked => (with_record(b, k, r1), Err(Error::Revoked)),
                InvitationStatus::Expired => (with_record(b, k, r1), Err(Error::Expired)),
            }
        }
    }
}

/// Revoking: only the authority; revocation wins over an accepted but not
/// yet admitted invitation; a revoked one is returned as it is.
pub open spec fn spec_revoke(b: BookV, id: Seq<u8>, authenticated: MemberV, authority: MemberV, now: u64) -> (
    BookV,
    Result<InvitationV, Error>,
) {
    if authenticated != authority {
        (b, Err(Error::Unauthorized))
    } else if !has_invitation(b.records, id) {
        (b, Err(Error::Malformed))
    } else {
        let k = invitation_index(b.records, id);
        let r1 = expire_if_due(b.records[k], now);
        match r1.status {
            InvitationStatus::Pending | InvitationStatus::AcceptedPendingAdmission => {
                let r2 = InvitationV { status: InvitationStatus::Revoked, ..r1 };
                (with_record(b, k, r2), Ok(r2))
            },
            InvitationStatus::Revoked => (with_record(b, k, r1), Ok(r1)),
            InvitationStatus::Expired => (with_record(b, k, r1), Err(Error::Expired)),
            InvitationStatus::Admitted { .. } => (with_record(b, k, r1), Err(Error::WrongDisposition)),
        }
    }
}

/// Admitting: only the authority, at a usable revision, and only an
/// accepted invitation; an admitted one is returned as it is.
pub open spec fn spec_admit(
    b: BookV,
    id: Seq<u8>,
    authenticated: MemberV,
    authority: MemberV,
    accepted_revision: u64,
    now: u64,
) -> (BookV, Result<InvitationV, Error>) {
    if authenticated != authority {
        (b, Err(Error::Unauthorized))
    } else if accepted_revision == RESERVED_REVISION {
        (b, Err(Error::ReservedRevision))
    } else if !has_invitation(b.records, id) {
        (b, Err(Error::Malformed))
    } else {
        let k = invitation_index(b.records, id);
        let r1 = expire_if_due(b.records[k], now);
        match r1.status {
            InvitationStatus::AcceptedPendingAdmission => {
                let r2 = InvitationV { status: InvitationStatus::Admitted { revision: accepted_revision }, ..r1 };
                (with_record(b, k, r2), Ok(r2))
            },
            InvitationStatus::Admitted { .. } => (with_record(b, k, r1), Ok(r1)),
            InvitationStatus::Pending => (with_record(b, k, r1), Err(Error::WrongDisposition)),
            InvitationStatus::Revoked => (with_record(b, k, r1), Err(Error::Revoked)),
            InvitationStatus::Expired => (with_record(b, k, r1), Err(Error::Expired)),
        }
    }
}

impl InvitationBook {
    /// No identifier occurs twice and the book is within its bound.
    pub closed spec fn wf(&self) -> bool {
        book_wf(self@)
    }

    pub fn new(group_id: GroupId) -> (b: InvitationBook)
        ensures
            b.wf(),
            b@ == (BookV { group_id: group_id@, records: Seq::empty() }),
    {
        let b = InvitationBook { group_id, invitations: Vec::new() };
        assert(b@.records =~= Seq::<InvitationV>::empty());
        b
    }

    pub fn group_id(&self) -> (g: GroupId)
        ensures
            g@ == self@.group_id,
    {
        self.group_id
    }

    pub fn records(&self) -> (r: &[Invitation])
        ensures
            invitation_views(r@) == self@.records,
    {
        self.invitations.as_slice()
    }

    fn find(&self, id: &InvitationId) -> (r: Option<usize>)
        requires
            self.wf(),
        ensures
            match r {
                Some(k) => has_invitation(self@.records, id@) && k == invitation_index(self@.records, id@),
                None => !has_invitation(self@.records, id@),
            },
    {
        let ghost v = self@.records;
        let mut i: usize = 0;
        while i < self.invitations.len()
            invariant
                0 <= i <= self.invitations@.len(),
                v == self@.records,
                book_wf(self@),
                forall|j: int| 0 <= j < i ==> (#[trigger] v[j]).id != id@,
            decreases self.invitations@.len() - i,
        {
            assert(v[i as int] == self.invitations@[i as int]@);
            if self.invitations[i].id.same(id) {
                assert(has_invitation(v, id@));
                let ghost k = invitation_index(v, id@);
                assert(k == i as int) by {
                    if k < i {
                        assert(v[k].id != v[i as int].id);
                    } else if k > i {
                        assert(v[i as int].id != v[k].id);
                    }
                }
                return Some(i);
            }
            i = i + 1;
        }
        None
    }

    /// Create an immutable pending record. An exact retry returns the
    /// current record; a reused identifier with a changed immutable field is
    /// a conflict.
    pub fn create(
        &mut self,
        authenticated_authority: &Member,
        authority: &Member,
        active_members: &[Member],
        invitation: Invitation,
        now: u64,
    ) -> (r: Result<&Invitation, Error>)
        requires
            old(self).wf(),
        ensures
            final(self).wf(),
            final(self)@ == spec_create(
                old(self)@,
                authenticated_authority@,
                authority@,
                crate::group::member_views(active_members@),
                invitation@,
                now,
            ).0,
            match r {
                Ok(i) => spec_create(
                    old(self)@,
                    authenticated_authority@,
                    authority@,
                    crate::group::member_views(active_members@),
                    invitation@,
                    now,
                ).1 == Ok::<InvitationV, Error>(i@),
                Err(e) => spec_create(
                    old(self)@,
                    authenticated_authority@,
                    authority@,
                    crate::group::member_views(active_members@),
                    invitation@,
                    now,
                ).1 == Err::<InvitationV, Error>(e),
            },
    {
        if !authenticated_authority.same(authority) {
            return Err(Error::Unauthorized);
        }
        if !invitation.group_id.same(&self.group_id) {
            return Err(Error::Conflict);
        }
        if now >= invitation.expires_at {
            return Err(Error::Expired);
        }
        if crate::group::contains_member(active_members, &invitation.target) {
            return Err(Error::Conflict);
        }
        match self.find(&invitation.id) {
            Some(k) => {
                assert(self@.records[k as int] == self.invitations@[k as int]@);
                if self.invitations[k].same_immutable_fields(&invitation) {
                    return Ok(&self.invitations[k]);
                }
                return Err(Error::Conflict);
            },
            None => {},
        }
        if self.invitations.len() == MAX_INVITATION_RECORDS {
            return Err(Error::OutboxFull);
        }
        let ghost before = self@.records;
        let ghost iv = invitation@;
        self.invitations.push(invitation);
        assert(self@.records =~= before.push(iv));
        assert forall|i: int, j: int| 0 <= i < j < self@.records.len() implies (#[trigger] self@.records[i]).id != (
        #[trigger] self@.records[j]).id by {
            if j == before.len() {
                assert(self@.records[i] == before[i]);
            } else {
                assert(self@.records[i] == before[i] && self@.records[j] == before[j]);
            }
        }
        let last = self.invitations.len() - 1;
        Ok(&self.invitations[last])
    }

    /// Record the target's acceptance only. Admission remains an authority
    /// action.
    pub fn accept(
        &mut self,
        id: InvitationId,
        authenticated_target: &Member,
        observed_revision: u64,
        observed_roster_digest: &[u8; 32],
        now: u64,
    ) -> (r: Result<&Invitation, Error>)
        requires
            old(self).wf(),
        ensures
            final(self).wf(),
            final(self)@ == spec_accept(
                old(self)@,
                id@,
                authenticated_target@,
                observed_revision,
                observed_roster_digest@,
                now,
            ).0,
            match r {
                Ok(i) => spec_accept(
                    old(self)@,
                    id@,
                    authenticated_target@,
                    observed_revision,
                    observed_roster_digest@,
                    now,
                ).1 == Ok::<InvitationV, Error>(i@),
                Err(e) => spec_accept(
                    old(self)@,
                    id@,
                    authenticated_target@,
                    observed_revision,
                    observed_roster_digest@,
                    now,
                ).1 == Err::<InvitationV, Error>(e),
            },
    {
        let k = match self.find(&id) {
            Some(k) => k,
            None => return Err(Error::Malformed),
        };
        let ghost b = self@;
        assert(b.records[k as int] == self.invitations@[k as int]@);
        if !authenticated_target.same(&self.invitations[k].target) {
            return Err(Error::WrongTarget);
        }
        if !(self.invitations[k].source_revision == observed_revision && same_digest(
            &self.invitations[k].source_roster_digest,
            observed_roster_digest,
        )) {
            return Err(Error::StaleSource);
        }
        let mut inv = self.invitations.remove(k);
        inv.expire_if_due(now);
        let outcome = match inv.status {
            InvitationStatus::Pending => {
                inv.status = InvitationStatus::AcceptedPendingAdmission;
                Ok(())
            },
            InvitationStatus::AcceptedPendingAdmission | InvitationStatus::Admitted { .. } => Ok(()),
            InvitationStatus::Revoked => Err(Error::Revoked),
            InvitationStatus::Expired => Err(Error::Expired),
        };
        let ghost iv = inv@;
        self.invitations.insert(k, inv);
        assert(self@.records =~= b.records.update(k as int, iv));
        assert forall|i: int, j: int| 0 <= i < j < self@.records.len() implies (#[trigger] self@.records[i]).id != (
        #[trigger] self@.records[j]).id by {
            assert(b.records[i].id != b.records[j].id);
        }
        match outcome {
            Ok(_) => Ok(&self.invitations[k]),
            Err(e) => Err(e),
        }
    }

    /// Revoke; revocation wins over a previously accepted invitation.
    pub fn revoke(&mut self, id: InvitationId, authenticated_authority: &Member, authority: &Member, now: u64) -> (r:
        Result<&Invitation, Error>)
        requires
            old(self).wf(),
        ensures
            final(self).wf(),
            final(self)@ == spec_revoke(old(self)@, id@, authenticated_authority@, authority@, now).0,
            match r {
                Ok(i) => spec_revoke(old(self)@, id@, authenticated_authority@, authority@, now).1 == Ok::<
                    InvitationV,
                    Error,
                >(i@),
                Err(e) => spec_revoke(old(self)@, id@, authenticated_authority@, authority@, now).1 == Err::<
                    InvitationV,
                    Error,
                >(e),
            },
    {
        if !authenticated_authority.same(authority) {
            return Err(Error::Unauthorized);
        }
        let k = match self.find(&id) {
            Some(k) => k,
            None => return Err(Error::Malformed),
        };
        let ghost b = self@;
        assert(b.records[k as int] == self.invitations@[k as int]@);
        let mut inv = self.invitations.remove(k);
        inv.expire_if_due(now);
        let outcome = match inv.status {
            InvitationStatus::Pending | InvitationStatus::AcceptedPendingAdmission => {
                inv.status = InvitationStatus::Revoked;
                Ok(())
            },
            InvitationStatus::Revoked => Ok(()),
            InvitationStatus::Expired => Err(Error::Expired),
            InvitationStatus::Admitted { .. } => Err(Error::WrongDisposition),
        };
        let ghost iv = inv@;
        self.invitations.insert(k, inv);
        assert(self@.records =~= b.records.update(k as int, iv));
        assert forall|i: int, j: int| 0 <= i < j < self@.records.len() implies (#[trigger] self@.records[i]).id != (
        #[trigger] self@.records[j]).id by {
            assert(b.records[i].id != b.records[j].id);
        }
        match outcome {
            Ok(_) => Ok(&self.invitations[k]),
            Err(e) => Err(e),
        }
    }

    /// Activate membership, only through an authenticated authority
    /// successor at a usable revision.
    pub fn admit_invitation(
        &mut self,
        id: InvitationId,
        authenticated_authority: &Member,
        authority: &Member,
        accepted_revision: u64,
        now: u64,
    ) -> (r: Result<&Invitation, Error>)
        requires
            old(self).wf(),
        ensures
            final(self).wf(),
            final(self)@ == spec_admit(
                old(self)@,
                id@,
                authenticated_authority@,
                authority@,
                accepted_revision,
                now,
            ).0,
            match r {
                Ok(i) => spec_admit(old(self)@, id@, authenticated_authority@, authority@, accepted_revision, now).1
                    == Ok::<InvitationV, Error>(i@),
                Err(e) => spec_admit(old(self)@, id@, authenticated_authority@, authority@, accepted_revision, now).1
                    == Err::<InvitationV, Error>(e),
            },
    {
        if !authenticated_authority.same(authority) {
            return Err(Error::Unauthorized);
        }
        if accepted_revision == RESERVED_REVISION {
            return Err(Error::ReservedRevision);
        }
        let k = match self.find(&id) {
            Some(k) => k,
            None => return Err(Error::Malformed),
        };
        let ghost b = self@;
        assert(b.records[k as int] == self.invitations@[k as int]@);
        let mut inv = self.invitations.remove(k);
        inv.expire_if_due(now);
        let outcome = match inv.status {
            InvitationStatus::AcceptedPendingAdmission => {
                inv.status = InvitationStatus::Admitted { revision: accepted_revision };
                Ok(())
            },
            InvitationStatus::Admitted { .. } => Ok(()),
            InvitationStatus::Pending => Err(Error::WrongDisposition),
            InvitationStatus::Revoked => Err(Error::Revoked),
            InvitationStatus::Expired => Err(Error::Expired),
        };
        let ghost iv = inv@;
        self.invitations.insert(k, inv);
        assert(self@.records =~= b.records.update(k as int, iv));
        assert forall|i: int, j: int| 0 <= i < j < self@.records.len() implies (#[trigger] self@.records[i]).id != (
        #[trigger] self@.records[j]).id by {
            assert(b.records[i].id != b.records[j].id);
        }
        match outcome {
            Ok(_) => Ok(&self.invitations[k]),
            Err(e) => Err(e),
        }
    }
}

/// Acceptance never activates membership: accepting never yields an
/// admitted status that was not already there, and only admission turns an
/// accepted invitation into an admitted one, at the revision the authority
/// names.
pub proof fn law_acceptance_does_not_admit(
    b: BookV,
    id: Seq<u8>,
    target: MemberV,
    observed_revision: u64,
    observed_digest: Seq<u8>,
    authority: MemberV,
    accepted_revision: u64,
    now: u64,
)
    requires
        has_invitation(b.records, id),
    ensures
        ({
            let k = invitation_index(b.records, id);
            let (b1, r) = spec_accept(b, id, target, observed_revision, observed_digest, now);
            r is Ok && (r->Ok_0.status is Admitted) ==> b.records[k].status is Admitted
        }),
        ({
            let k = invitation_index(b.records, id);
            let (b2, r) = spec_admit(b, id, authority, authority, accepted_revision, now);
            r is Ok && !(b.records[k].status is Admitted) ==> r->Ok_0.status == (InvitationStatus::Admitted {
                revision: accepted_revision,
            }) && b.records[k].status == InvitationStatus::AcceptedPendingAdmission
        }),
{
}

/// Revocation and expiry win over admission: a revoked invitation can never
/// be admitted, and neither can one whose deadline has passed unless it was
/// already admitted.
pub proof fn law_revocation_and_expiry_win_over_admission(
    b: BookV,
    id: Seq<u8>,
    authority: MemberV,
    accepted_revision: u64,
    now: u64,
)
    requires
        has_invitation(b.records, id),
        accepted_revision != RESERVED_REVISION,
    ensures
        ({
            let r = b.records[invitation_index(b.records, id)];
            &&& r.status == InvitationStatus::Revoked ==> spec_admit(
                b,
                id,
                authority,
                authority,
                accepted_revision,
                now,
            ).1 == Err::<InvitationV, Error>(Error::Revoked)
            &&& now >= r.expires_at && !(r.status is Admitted) && r.status != InvitationStatus::Revoked ==> spec_admit(
                b,
                id,
                authority,
                authority,
                accepted_revision,
                now,
            ).1 is Err
        }),
{
}

/// An exact retry of a creation returns the committed record and changes
/// nothing; a changed field under a held identifier conflicts and changes
/// nothing.
pub proof fn law_creation_retries_keep_the_committed_record(
    b: BookV,
    authority: MemberV,
    active: Seq<MemberV>,
    inv: InvitationV,
    now: u64,
)
    requires
        has_invitation(b.records, inv.id),
    ensures
        spec_create(b, authority, authority, active, inv, now).0 == b,
        spec_create(b, authority, authority, active, inv, now).1 is Ok ==> spec_create(
            b,
            authority,
            authority,
            active,
            inv,
            now,
        ).1 == Ok::<InvitationV, Error>(b.records[invitation_index(b.records, inv.id)]),
{
}


/// Records in strictly increasing identifier order.
pub open spec fn sorted_by_id(t: Seq<InvitationV>) -> bool {
    forall|i: int, j: int| 0 <= i < j < t.len() ==> lex_lt((#[trigger] t[i]).id, (#[trigger] t[j]).id)
}

/// `t` holds exactly the records of `rs`, as many of them.
pub open spec fn rearranges(rs: Seq<InvitationV>, t: Seq<InvitationV>) -> bool {
    &&& t.len() == rs.len()
    &&& forall|x: InvitationV| t.contains(x) <==> rs.contains(x)
}

/// The records of `rs` in strictly increasing identifier order.
pub open spec fn records_in_id_order(rs: Seq<InvitationV>) -> Seq<InvitationV> {
    choose|t: Seq<InvitationV>| sorted_by_id(t) && rearranges(rs, t)
}

/// `x` placed into `t` before the first record whose identifier it precedes.
spec fn insert_by_id(t: Seq<InvitationV>, x: InvitationV) -> Seq<InvitationV>
    decreases t.len(),
{
    if t.len() == 0 {
        seq![x]
    } else if lex_lt(x.id, t[0].id) {
        seq![x] + t
    } else {
        seq![t[0]] + insert_by_id(t.drop_first(), x)
    }
}

/// A record in front of a sorted list whose identifiers all follow its own
/// keeps the list sorted.
proof fn lemma_sorted_cons(x: InvitationV, t: Seq<InvitationV>)
    requires
        sorted_by_id(t),
        forall|i: int| 0 <= i < t.len() ==> lex_lt(x.id, (#[trigger] t[i]).id),
    ensures
        sorted_by_id(seq![x] + t),
{
    let u = seq![x] + t;
    assert forall|i: int, j: int| 0 <= i < j < u.len() implies lex_lt((#[trigger] u[i]).id, (#[trigger] u[j]).id) by {
        if i == 0 {
            assert(u[j] == t[j - 1]);
        } else {
            assert(u[i] == t[i - 1] && u[j] == t[j - 1]);
        }
    }
}

proof fn lemma_insert_by_id(t: Seq<InvitationV>, x: InvitationV)
    requires
        sorted_by_id(t),
        forall|i: int| 0 <= i < t.len() ==> (#[trigger] t[i]).id != x.id,
    ensures
        sorted_by_id(insert_by_id(t, x)),
        insert_by_id(t, x).len() == t.len() + 1,
        forall|y: InvitationV| #[trigger] insert_by_id(t, x).contains(y) <==> (t.contains(y) || y == x),
    decreases t.len(),
{
    let u = insert_by_id(t, x);
    if t.len() == 0 {
        assert(u[0] == x);
    } else if lex_lt(x.id, t[0].id) {
        assert forall|i: int| 0 <= i < t.len() implies lex_lt(x.id, (#[trigger] t[i]).id) by {
            if i > 0 {
                crate::group::lemma_lex_transitive(x.id, t[0].id, t[i].id);
            }
        }
        lemma_sorted_cons(x, t);
        assert forall|y: InvitationV| u.contains(y) <==> (t.contains(y) || y == x) by {
            if u.contains(y) {
                let k = choose|k: int| 0 <= k < u.len() && u[k] == y;
                if k > 0 {
                    assert(t[k - 1] == y);
                }
            }
            if t.contains(y) {
                let k = choose|k: int| 0 <= k < t.len() && t[k] == y;
                assert(u[k + 1] == y);
            }
            if y == x {
                assert(u[0] == y);
            }
        }
    } else {
        let rest = t.drop_first();
        assert forall|i: int, j: int| 0 <= i < j < rest.len() implies lex_lt((#[trigger] rest[i]).id, (#[trigger] rest[j]).id) by {
            assert(rest[i] == t[i + 1] && rest[j] == t[j + 1]);
        }
        assert forall|i: int| 0 <= i < rest.len() implies (#[trigger] rest[i]).id != x.id by {
            assert(rest[i] == t[i + 1]);
        }
        lemma_insert_by_id(rest, x);
        let v = insert_by_id(rest, x);
        assert(t[0].id != x.id);
        crate::group::lemma_lex_total(t[0].id, x.id);
        assert forall|i: int| 0 <= i < v.len() implies lex_lt(t[0].id, (#[trigger] v[i]).id) by {
            assert(v.contains(v[i]));
            if v[i] != x {
                assert(rest.contains(v[i]));
                let k = choose|k: int| 0 <= k < rest.len() && rest[k] == v[i];
                assert(rest[k] == t[k + 1]);
            }
        }
        lemma_sorted_cons(t[0], v);
        assert(t =~= seq![t[0]] + rest);
        assert forall|y: InvitationV| u.contains(y) <==> (t.contains(y) || y == x) by {
            if u.contains(y) {
                let k = choose|k: int| 0 <= k < u.len() && u[k] == y;
                if k > 0 {
                    assert(v[k - 1] == y);
                    assert(v.contains(y));
                    if y != x {
                        assert(rest.contains(y));
                        let m = choose|m: int| 0 <= m < rest.len() && rest[m] == y;
                        assert(t[m + 1] == y);
                    }
                } else {
                    assert(t[0] == y);
                }
            }
            if t.contains(y) {
                let k = choose|k: int| 0 <= k < t.len() && t[k] == y;
                if k == 0 {
                    assert(u[0] == y);
                } else {
                    assert(rest[k - 1] == y);
                    assert(rest.contains(y));
                    assert(v.contains(y));
                    let m = choose|m: int| 0 <= m < v.len() && v[m] == y;
                    assert(u[m + 1] == y);
                }
            }
            if y == x {
                assert(v.contains(x));
                let m = choose|m: int| 0 <= m < v.len() && v[m] == x;
                assert(u[m + 1] == y);
            }
        }
    }
}

/// Records with distinct identifiers have an arrangement in increasing
/// identifier order.
proof fn lemma_sorted_arrangement_exists(rs: Seq<InvitationV>)
    requires
        forall|i: int, j: int| 0 <= i < j < rs.len() ==> (#[trigger] rs[i]).id != (#[trigger] rs[j]).id,
    ensures
        sorted_by_id(records_in_id_order(rs)),
        rearranges(rs, records_in_id_order(rs)),
    decreases rs.len(),
{
    if rs.len() == 0 {
        let e = Seq::<InvitationV>::empty();
        assert(sorted_by_id(e) && rearranges(rs, e));
    } else {
        let front = rs.drop_last();
        let x = rs.last();
        lemma_sorted_arrangement_exists(front);
        let t0 = records_in_id_order(front);
        assert forall|i: int| 0 <= i < t0.len() implies (#[trigger] t0[i]).id != x.id by {
            assert(t0.contains(t0[i]));
            let k = choose|k: int| 0 <= k < front.len() && front[k] == t0[i];
            assert(front[k] == rs[k]);
        }
        lemma_insert_by_id(t0, x);
        let u = insert_by_id(t0, x);
        assert(rs =~= front.push(x));
        assert forall|y: InvitationV| u.contains(y) <==> rs.contains(y) by {
            if front.contains(y) {
                let k = choose|k: int| 0 <= k < front.len() && front[k] == y;
                assert(rs[k] == y);
            }
            if rs.contains(y) {
                let k = choose|k: int| 0 <= k < rs.len() && rs[k] == y;
                if k < front.len() {
                    assert(front[k] == y);
                }
            }
        }
        assert(sorted_by_id(u) && rearranges(rs, u));
    }
}

/// Two sorted lists with the same records are the same list.
proof fn lemma_sorted_arrangement_unique(t1: Seq<InvitationV>, t2: Seq<InvitationV>)
    requires
        sorted_by_id(t1),
        sorted_by_id(t2),
        t1.len() == t2.len(),
        forall|x: InvitationV| t1.contains(x) <==> t2.contains(x),
    ensures
        t1 == t2,
    decreases t1.len(),
{
    if t1.len() > 0 {
        assert(t1.contains(t1[0]));
        assert(t2.contains(t2[0]));
        let j = choose|j: int| 0 <= j < t2.len() && t2[j] == t1[0];
        let k = choose|k: int| 0 <= k < t1.len() && t1[k] == t2[0];
        if j > 0 && k > 0 {
            assert(lex_lt(t2[0].id, t2[j].id));
            assert(lex_lt(t1[0].id, t1[k].id));
            crate::group::lemma_lex_asymmetric(t1[0].id, t2[0].id);
        }
        assert(t1[0] == t2[0]);
        let r1 = t1.drop_first();
        let r2 = t2.drop_first();
        assert forall|i: int, m: int| 0 <= i < m < r1.len() implies lex_lt((#[trigger] r1[i]).id, (#[trigger] r1[m]).id) by {
            assert(r1[i] == t1[i + 1] && r1[m] == t1[m + 1]);
        }
        assert forall|i: int, m: int| 0 <= i < m < r2.len() implies lex_lt((#[trigger] r2[i]).id, (#[trigger] r2[m]).id) by {
            assert(r2[i] == t2[i + 1] && r2[m] == t2[m + 1]);
        }
        assert forall|x: InvitationV| r1.contains(x) <==> r2.contains(x) by {
            if r1.contains(x) {
                let a = choose|a: int| 0 <= a < r1.len() && r1[a] == x;
                assert(t1[a + 1] == x);
                assert(t1.contains(x));
                let b = choose|b: int| 0 <= b < t2.len() && t2[b] == x;
                if b == 0 {
                    assert(lex_lt(t1[0].id, t1[a + 1].id));
                    crate::group::lemma_lex_irreflexive(x.id);
                }
                assert(r2[b - 1] == x);
            }
            if r2.contains(x) {
                let a = choose|a: int| 0 <= a < r2.len() && r2[a] == x;
                assert(t2[a + 1] == x);
                assert(t2.contains(x));
                let b = choose|b: int| 0 <= b < t1.len() && t1[b] == x;
                if b == 0 {
                    assert(lex_lt(t2[0].id, t2[a + 1].id));
                    crate::group::lemma_lex_irreflexive(x.id);
                }
                assert(r1[b - 1] == x);
            }
        }
        lemma_sorted_arrangement_unique(r1, r2);
        assert(t1 =~= seq![t1[0]] + r1);
        assert(t2 =~= seq![t2[0]] + r2);
    }
}

/// Every sorted arrangement of records with distinct identifiers is the one
/// `records_in_id_order` names.
proof fn lemma_records_in_id_order(rs: Seq<InvitationV>, t: Seq<InvitationV>)
    requires
        sorted_by_id(t),
        rearranges(rs, t),
    ensures
        records_in_id_order(rs) == t,
{
    let c = records_in_id_order(rs);
    assert(sorted_by_id(c) && rearranges(rs, c));
    lemma_sorted_arrangement_unique(c, t);
}

/// The records, in increasing identifier order.
#[verifier::spinoff_prover]
fn sort_by_id(rs: &[Invitation]) -> (t: Vec<Invitation>)
    requires
        forall|i: int, j: int| 0 <= i < j < rs@.len() ==> (#[trigger] rs@[i]).id@ != (#[trigger] rs@[j]).id@,
    ensures
        sorted_by_id(invitation_views(t@)),
        rearranges(invitation_views(rs@), invitation_views(t@)),
{
    let ghost rv = invitation_views(rs@);
    let mut t: Vec<Invitation> = Vec::new();
    let mut i: usize = 0;
    while i < rs.len()
        invariant
            0 <= i <= rs@.len(),
            rv == invitation_views(rs@),
            forall|a: int, b: int| 0 <= a < b < rs@.len() ==> (#[trigger] rs@[a]).id@ != (#[trigger] rs@[b]).id@,
            t@.len() == i,
            sorted_by_id(invitation_views(t@)),
            forall|x: InvitationV| invitation_views(t@).contains(x) <==> rv.take(i as int).contains(x),
        decreases rs@.len() - i,
    {
        let ghost tv = invitation_views(t@);
        let x = rs[i].duplicate();
        assert(x@ == rv[i as int]);
        let mut j: usize = 0;
        while j < t.len() && t[j].id.sorts_before(&x.id)
            invariant
                0 <= j <= t@.len(),
                tv == invitation_views(t@),
                forall|k: int| 0 <= k < j ==> lex_lt((#[trigger] tv[k]).id, x@.id),
            decreases t@.len() - j,
        {
            assert(tv[j as int] == t@[j as int]@);
            j = j + 1;
        }
        proof {
            if j < t@.len() {
                assert(tv[j as int] == t@[j as int]@);
                assert(tv.contains(tv[j as int]));
                assert(rv.take(i as int).contains(tv[j as int]));
                let m = choose|m: int| 0 <= m < i && rv.take(i as int)[m] == tv[j as int];
                assert(rv[m] == rs@[m]@ && rv[i as int] == rs@[i as int]@);
                assert(tv[j as int].id != x@.id);
                crate::group::lemma_lex_total(tv[j as int].id, x@.id);
            }
        }
        t.insert(j, x);
        proof {
            let nt = invitation_views(t@);
            assert(nt =~= tv.insert(j as int, rv[i as int]));
            assert forall|a: int, b: int| 0 <= a < b < nt.len() implies lex_lt((#[trigger] nt[a]).id, (
            #[trigger] nt[b]).id) by {
                if b < j {
                    assert(nt[a] == tv[a] && nt[b] == tv[b]);
                } else if b == j {
                    assert(nt[a] == tv[a]);
                } else if a < j {
                    assert(nt[a] == tv[a] && nt[b] == tv[b - 1]);
                    assert(lex_lt(tv[a].id, x@.id));
                    assert(lex_lt(x@.id, tv[j as int].id));
                    if b - 1 > j {
                        crate::group::lemma_lex_transitive(x@.id, tv[j as int].id, tv[b - 1].id);
                    }
                    crate::group::lemma_lex_transitive(tv[a].id, x@.id, tv[b - 1].id);
                } else if a == j {
                    assert(nt[b] == tv[b - 1]);
                    if b - 1 > j {
                        crate::group::lemma_lex_transitive(x@.id, tv[j as int].id, tv[b - 1].id);
                    }
                } else {
                    assert(nt[a] == tv[a - 1] && nt[b] == tv[b - 1]);
                }
            }
            let pre = rv.take(i as int);
            let post = rv.take(i + 1);
            assert forall|y: InvitationV| nt.contains(y) implies post.contains(y) by {
                let k = choose|k: int| 0 <= k < nt.len() && nt[k] == y;
                if k == j {
                    assert(post[i as int] == y);
                } else {
                    if k < j {
                        assert(tv[k] == y);
                    } else {
                        assert(tv[k - 1] == y);
                    }
                    assert(tv.contains(y));
                    assert(pre.contains(y));
                    let m = choose|m: int| 0 <= m < pre.len() && pre[m] == y;
                    assert(post[m] == y);
                }
            }
            assert forall|y: InvitationV| post.contains(y) implies nt.contains(y) by {
                let m = choose|m: int| 0 <= m < post.len() && post[m] == y;
                if m == i {
                    assert(nt[j as int] == y);
                } else {
                    assert(pre[m] == y);
                    assert(pre.contains(y));
                    assert(tv.contains(y));
                    let k = choose|k: int| 0 <= k < tv.len() && tv[k] == y;
                    if k < j {
                        assert(nt[k] == y);
                    } else {
                        assert(nt[k + 1] == y);
                    }
                }
            }
        }
        i = i + 1;
    }
    assert(rv.take(i as int) =~= rv);
    t
}


/// The checkpoint's domain string.
pub open spec fn book_domain() -> Seq<u8> {
    vstd::utf8::encode_utf8("Tacenta Group Invitation Book State v1"@)
}

fn book_domain_bytes() -> (d: &'static [u8])
    ensures
        d@ == book_domain(),
        d@.len() == 38,
{
    proof {
        reveal_strlit("Tacenta Group Invitation Book State v1");
        vstd::utf8::is_ascii_chars_encode_utf8("Tacenta Group Invitation Book State v1"@);
    }
    "Tacenta Group Invitation Book State v1".as_bytes()
}

/// A block behind its two-byte big-endian length.
pub open spec fn lp16(b: Seq<u8>) -> Seq<u8> {
    be16(b.len() as u16) + b
}

/// A status on the wire: its code, and for an admission its revision.
pub open spec fn status_bytes(st: InvitationStatus) -> Seq<u8> {
    match st {
        InvitationStatus::Pending => seq![0u8],
        InvitationStatus::AcceptedPendingAdmission => seq![1u8],
        InvitationStatus::Admitted { revision } => seq![2u8] + be64(revision),
        InvitationStatus::Revoked => seq![3u8],
        InvitationStatus::Expired => seq![4u8],
    }
}

/// One record on the wire.
pub open spec fn record_bytes(r: InvitationV) -> Seq<u8> {
    r.id + lp16(r.target.identity) + lp16(r.target.device) + be64(r.source_revision) + r.source_roster_digest
        + be32(r.policy_version) + be64(r.expires_at) + status_bytes(r.status)
}

/// Writing one record: `Malformed` when a target field is too long for its
/// two-byte length, `ReservedRevision` for an admission at the reserved
/// revision.
pub open spec fn record_encode(r: InvitationV) -> Result<Seq<u8>, Error> {
    if r.target.identity.len() > 0xffff || r.target.device.len() > 0xffff {
        Err(Error::Malformed)
    } else if r.status matches InvitationStatus::Admitted { revision } && revision == RESERVED_REVISION {
        Err(Error::ReservedRevision)
    } else {
        Ok(record_bytes(r))
    }
}

/// Records one after another.
pub open spec fn records_bytes(t: Seq<InvitationV>) -> Seq<u8>
    decreases t.len(),
{
    if t.len() == 0 {
        Seq::empty()
    } else {
        records_bytes(t.drop_last()) + record_bytes(t.last())
    }
}

/// Writing records in order; the first that cannot be written decides the
/// error.
pub open spec fn records_encode(t: Seq<InvitationV>) -> Result<Seq<u8>, Error>
    decreases t.len(),
{
    if t.len() == 0 {
        Ok(Seq::empty())
    } else {
        match records_encode(t.drop_last()) {
            Err(e) => Err(e),
            Ok(b) => match record_encode(t.last()) {
                Err(e) => Err(e),
                Ok(rb) => Ok(b + rb),
            },
        }
    }
}

/// The checkpoint of `t`'s records for group `g`: the domain, the group,
/// the count, and the records.
pub open spec fn state_encode(g: Seq<u8>, t: Seq<InvitationV>) -> Result<Seq<u8>, Error> {
    if t.len() > MAX_INVITATION_RECORDS {
        Err(Error::Malformed)
    } else {
        match records_encode(t) {
            Err(e) => Err(e),
            Ok(rb) => Ok(book_domain() + g + seq![t.len() as u8] + rb),
        }
    }
}

proof fn lemma_records_encode_stays_failed(t: Seq<InvitationV>, i: int, k: int)
    requires
        0 <= i <= k <= t.len(),
        records_encode(t.take(i)) is Err,
    ensures
        records_encode(t.take(k)) == records_encode(t.take(i)),
    decreases k - i,
{
    if i < k {
        lemma_records_encode_stays_failed(t, i, k - 1);
        assert(t.take(k).drop_last() =~= t.take(k - 1));
    }
}

/// Append one record.
fn put_record(out: &mut Vec<u8>, r: &Invitation) -> (res: Result<(), Error>)
    ensures
        match res {
            Ok(_) => record_encode(r@) == Ok::<Seq<u8>, Error>(record_bytes(r@)) && final(out)@ == old(out)@
                + record_bytes(r@),
            Err(e) => record_encode(r@) == Err::<Seq<u8>, Error>(e),
        },
{
    let identity = r.target.identity();
    let device = r.target.device();
    if identity.len() > 0xffff || device.len() > 0xffff {
        return Err(Error::Malformed);
    }
    match r.status {
        InvitationStatus::Admitted { revision } => {
            if revision == RESERVED_REVISION {
                return Err(Error::ReservedRevision);
            }
        },
        _ => {},
    }
    let ghost start = out@;
    extend(out, r.id.as_bytes().as_slice());
    put_u16(out, identity.len() as u16);
    extend(out, identity);
    put_u16(out, device.len() as u16);
    extend(out, device);
    put_u64(out, r.source_revision);
    extend(out, r.source_roster_digest.as_slice());
    put_u32(out, r.policy_version);
    put_u64(out, r.expires_at);
    match r.status {
        InvitationStatus::Pending => out.push(0u8),
        InvitationStatus::AcceptedPendingAdmission => out.push(1u8),
        InvitationStatus::Admitted { revision } => {
            out.push(2u8);
            put_u64(out, revision);
        },
        InvitationStatus::Revoked => out.push(3u8),
        InvitationStatus::Expired => out.push(4u8),
    }
    assert(out@ =~= start + record_bytes(r@));
    Ok(())
}

impl InvitationBook {
    /// The complete lifecycle checkpoint. Records are sorted by identifier,
    /// so a restart never depends on arrival order.
    #[verifier::spinoff_prover]
    pub fn encode_state(&self) -> (r: Result<Vec<u8>, Error>)
        requires
            self.wf(),
        ensures
            match r {
                Ok(b) => state_encode(self@.group_id, records_in_id_order(self@.records)) == Ok::<Seq<u8>, Error>(b@),
                Err(e) => state_encode(self@.group_id, records_in_id_order(self@.records)) == Err::<Seq<u8>, Error>(e),
            },
    {
        proof {
            assert forall|i: int, j: int| 0 <= i < j < self.invitations@.len() implies (
            #[trigger] self.invitations@[i]).id@ != (#[trigger] self.invitations@[j]).id@ by {
                assert(self@.records[i] == self.invitations@[i]@ && self@.records[j] == self.invitations@[j]@);
            }
        }
        let sorted = sort_by_id(self.invitations.as_slice());
        let ghost t = invitation_views(sorted@);
        proof {
            lemma_records_in_id_order(self@.records, t);
        }
        assert(t.len() <= MAX_INVITATION_RECORDS);
        let mut out = Vec::new();
        extend(&mut out, book_domain_bytes());
        extend(&mut out, self.group_id.as_bytes().as_slice());
        out.push(sorted.len() as u8);
        let ghost head = out@;
        assert(head =~= book_domain() + self@.group_id + seq![t.len() as u8]);
        let mut i: usize = 0;
        assert(t.take(0) =~= Seq::<InvitationV>::empty());
        assert(out@ =~= head + records_bytes(t.take(0)));
        while i < sorted.len()
            invariant
                0 <= i <= sorted@.len(),
                t == invitation_views(sorted@),
                t == records_in_id_order(self@.records),
                t.len() <= MAX_INVITATION_RECORDS,
                sorted_by_id(t),
                rearranges(self@.records, t),
                records_encode(t.take(i as int)) == Ok::<Seq<u8>, Error>(records_bytes(t.take(i as int))),
                out@ == head + records_bytes(t.take(i as int)),
            decreases sorted@.len() - i,
        {
            assert(t[i as int] == sorted@[i as int]@);
            assert(t.take(i + 1).drop_last() =~= t.take(i as int));
            assert(t.take(i + 1).last() == t[i as int]);
            match put_record(&mut out, &sorted[i]) {
                Err(e) => {
                    proof {
                        assert(record_encode(t[i as int]) == Err::<Seq<u8>, Error>(e));
                        assert(records_encode(t.take(i + 1)) == Err::<Seq<u8>, Error>(e));
                        lemma_records_encode_stays_failed(t, i + 1, t.len() as int);
                        assert(t.take(t.len() as int) =~= t);
                        assert(records_encode(t) == Err::<Seq<u8>, Error>(e));
                    }
                    assert(state_encode(self@.group_id, t) == Err::<Seq<u8>, Error>(e));
                    return Err(e);
                },
                Ok(_) => {},
            }
            i = i + 1;
            assert(out@ =~= head + records_bytes(t.take(i as int)));
        }
        assert(t.take(i as int) =~= t);
        assert(state_encode(self@.group_id, t) == Ok::<Seq<u8>, Error>(out@));
        Ok(out)
    }
}


/// Reading exactly `n` bytes; `Malformed` when fewer remain.
pub open spec fn fixed_field(s: Seq<u8>, n: nat) -> Result<(Seq<u8>, Seq<u8>), Error> {
    if s.len() < n {
        Err(Error::Malformed)
    } else {
        Ok((s.take(n as int), s.skip(n as int)))
    }
}

/// Reading a block behind its two-byte length.
pub open spec fn lp16_field(s: Seq<u8>) -> Result<(Seq<u8>, Seq<u8>), Error> {
    if s.len() < 2 {
        Err(Error::Malformed)
    } else {
        let n = u16_of(s.take(2));
        let r = s.skip(2);
        if r.len() < n {
            Err(Error::Malformed)
        } else {
            Ok((r.take(n as int), r.skip(n as int)))
        }
    }
}

/// Reading a status: codes `0` to `4`; an admission carries a revision that
/// must not be the reserved one.
pub open spec fn status_field(s: Seq<u8>) -> Result<(InvitationStatus, Seq<u8>), Error> {
    match byte_field(s) {
        Err(e) => Err(e),
        Ok((code, r)) => if code == 0 {
            Ok((InvitationStatus::Pending, r))
        } else if code == 1 {
            Ok((InvitationStatus::AcceptedPendingAdmission, r))
        } else if code == 2 {
            match u64_field(r) {
                Err(e) => Err(e),
                Ok((revision, r2)) => if revision == RESERVED_REVISION {
                    Err(Error::ReservedRevision)
                } else {
                    Ok((InvitationStatus::Admitted { revision }, r2))
                },
            }
        } else if code == 3 {
            Ok((InvitationStatus::Revoked, r))
        } else if code == 4 {
            Ok((InvitationStatus::Expired, r))
        } else {
            Err(Error::Malformed)
        },
    }
}

/// Reading a record's identifier, which must sort strictly after the
/// previous one, and its target.
#[verifier::opaque]
pub open spec fn record_head_field(s: Seq<u8>, prev: Option<Seq<u8>>) -> Result<(Seq<u8>, MemberV, Seq<u8>), Error> {
    match fixed_field(s, 16) {
        Err(e) => Err(e),
        Ok((id, r1)) => if prev matches Some(p) && !lex_lt(p, id) {
            Err(Error::NonCanonical)
        } else {
            match lp16_field(r1) {
                Err(e) => Err(e),
                Ok((identity, r2)) => match lp16_field(r2) {
                    Err(e) => Err(e),
                    Ok((device, r3)) => Ok((id, MemberV { identity, device }, r3)),
                },
            }
        },
    }
}

/// Reading a record's source revision, source digest, policy, deadline and
/// status.
#[verifier::opaque]
pub open spec fn record_tail_field(s: Seq<u8>) -> Result<(u64, Seq<u8>, u32, u64, InvitationStatus, Seq<u8>), Error> {
    match u64_field(s) {
        Err(e) => Err(e),
        Ok((source, r4)) => match fixed_field(r4, 32) {
            Err(e) => Err(e),
            Ok((digest, r5)) => match u32_field(r5) {
                Err(e) => Err(e),
                Ok((policy, r6)) => match u64_field(r6) {
                    Err(e) => Err(e),
                    Ok((expires, r7)) => match status_field(r7) {
                        Err(e) => Err(e),
                        Ok((status, r8)) => Ok((source, digest, policy, expires, status, r8)),
                    },
                },
            },
        },
    }
}

/// Reading one record of group `g`; it must also make a valid invitation.
pub open spec fn record_field(s: Seq<u8>, g: Seq<u8>, prev: Option<Seq<u8>>) -> Result<(InvitationV, Seq<u8>), Error> {
    match record_head_field(s, prev) {
        Err(e) => Err(e),
        Ok((id, target, r3)) => match record_tail_field(r3) {
            Err(e) => Err(e),
            Ok((source, digest, policy, expires, status, r8)) => match invitation_error(source, policy, target) {
                Some(e) => Err(e),
                None => Ok(
                    (
                        InvitationV {
                            id,
                            group_id: g,
                            target,
                            source_revision: source,
                            source_roster_digest: digest,
                            policy_version: policy,
                            expires_at: expires,
                            status,
                        },
                        r8,
                    ),
                ),
            },
        },
    }
}

/// Reading `n` records, each sorting strictly after the one before.
#[verifier::opaque]
pub open spec fn records_field(n: nat, s: Seq<u8>, g: Seq<u8>, prev: Option<Seq<u8>>) -> Result<
    (Seq<InvitationV>, Seq<u8>),
    Error,
>
    decreases n,
{
    if n == 0 {
        Ok((Seq::empty(), s))
    } else {
        match record_field(s, g, prev) {
            Err(e) => Err(e),
            Ok((r, rest)) => match records_field((n - 1) as nat, rest, g, Some(r.id)) {
                Err(e) => Err(e),
                Ok((rs, rest2)) => Ok((seq![r] + rs, rest2)),
            },
        }
    }
}

/// Restoring a checkpoint for the expected group: the domain, the group,
/// which must be the expected one, a count of at most
/// `MAX_INVITATION_RECORDS`, exactly that many records, nothing trailing.
pub open spec fn decode_state_spec(b: Seq<u8>, g: Seq<u8>) -> Result<BookV, Error> {
    match domain_field(b, book_domain()) {
        Err(e) => Err(e),
        Ok(r0) => match fixed_field(r0, 16) {
            Err(e) => Err(e),
            Ok((gid, r1)) => if gid != g {
                Err(Error::Conflict)
            } else {
                match byte_field(r1) {
                    Err(e) => Err(e),
                    Ok((count, r2)) => if count > MAX_INVITATION_RECORDS {
                        Err(Error::Malformed)
                    } else {
                        match records_field(count as nat, r2, g, None) {
                            Err(e) => Err(e),
                            Ok((rs, r3)) => if r3.len() > 0 {
                                Err(Error::Malformed)
                            } else {
                                Ok(BookV { group_id: g, records: rs })
                            },
                        }
                    },
                }
            },
        },
    }
}

proof fn lemma_records_field_unfold(n: nat, s: Seq<u8>, g: Seq<u8>, prev: Option<Seq<u8>>)
    ensures
        n == 0 ==> records_field(n, s, g, prev) == Ok::<(Seq<InvitationV>, Seq<u8>), Error>((Seq::empty(), s)),
        n > 0 ==> records_field(n, s, g, prev) == match record_field(s, g, prev) {
            Err(e) => Err(e),
            Ok((r, rest)) => match records_field((n - 1) as nat, rest, g, Some(r.id)) {
                Err(e) => Err(e),
                Ok((rs, rest2)) => Ok((seq![r] + rs, rest2)),
            },
        },
{
    reveal(records_field);
}

fn take_fixed(input: &[u8], n: usize) -> (r: Result<(&[u8], &[u8]), Error>)
    ensures
        match r {
            Ok((h, t)) => fixed_field(input@, n as nat) == Ok::<(Seq<u8>, Seq<u8>), Error>((h@, t@)),
            Err(e) => fixed_field(input@, n as nat) == Err::<(Seq<u8>, Seq<u8>), Error>(e),
        },
{
    if input.len() < n {
        return Err(Error::Malformed);
    }
    let h = &input[0..n];
    let t = &input[n..input.len()];
    assert(h@ =~= input@.take(n as int));
    assert(t@ =~= input@.skip(n as int));
    Ok((h, t))
}

fn take_lp16(input: &[u8]) -> (r: Result<(Vec<u8>, &[u8]), Error>)
    ensures
        match r {
            Ok((b, t)) => lp16_field(input@) == Ok::<(Seq<u8>, Seq<u8>), Error>((b@, t@)),
            Err(e) => lp16_field(input@) == Err::<(Seq<u8>, Seq<u8>), Error>(e),
        },
{
    if input.len() < 2 {
        return Err(Error::Malformed);
    }
    let n = read_u16(input, 0);
    assert(input@.subrange(0, 2) =~= input@.take(2));
    let r = &input[2..input.len()];
    assert(r@ =~= input@.skip(2));
    if r.len() < n as usize {
        return Err(Error::Malformed);
    }
    let b = &r[0..n as usize];
    let t = &r[n as usize..r.len()];
    assert(b@ =~= r@.take(n as int));
    assert(t@ =~= r@.skip(n as int));
    Ok((to_vec(b), t))
}

fn take_status(input: &[u8]) -> (r: Result<(InvitationStatus, &[u8]), Error>)
    ensures
        match r {
            Ok((st, t)) => status_field(input@) == Ok::<(InvitationStatus, Seq<u8>), Error>((st, t@)),
            Err(e) => status_field(input@) == Err::<(InvitationStatus, Seq<u8>), Error>(e),
        },
{
    let (code, r) = match take_byte(input) {
        Ok(p) => p,
        Err(e) => return Err(e),
    };
    if code == 0 {
        Ok((InvitationStatus::Pending, r))
    } else if code == 1 {
        Ok((InvitationStatus::AcceptedPendingAdmission, r))
    } else if code == 2 {
        let (revision, r2) = match take_u64_field(r) {
            Ok(p) => p,
            Err(e) => return Err(e),
        };
        if revision == RESERVED_REVISION {
            return Err(Error::ReservedRevision);
        }
        Ok((InvitationStatus::Admitted { revision }, r2))
    } else if code == 3 {
        Ok((InvitationStatus::Revoked, r))
    } else if code == 4 {
        Ok((InvitationStatus::Expired, r))
    } else {
        Err(Error::Malformed)
    }
}

fn take_record<'a>(input: &'a [u8], g: GroupId, prev: Option<InvitationId>) -> (r: Result<(Invitation, &'a [u8]), Error>)
    ensures
        ({
            let pv = match prev {
                Some(p) => Some(p@),
                None => None,
            };
            match r {
                Ok((inv, t)) => record_field(input@, g@, pv) == Ok::<(InvitationV, Seq<u8>), Error>((inv@, t@)),
                Err(e) => record_field(input@, g@, pv) == Err::<(InvitationV, Seq<u8>), Error>(e),
            }
        }),
{
    proof {
        reveal(record_head_field);
        reveal(record_tail_field);
    }
    let (idb, r1) = match take_fixed(input, 16) {
        Ok(p) => p,
        Err(e) => return Err(e),
    };
    let id = InvitationId::new(array16(idb));
    match prev {
        Some(p) => {
            if !p.sorts_before(&id) {
                return Err(Error::NonCanonical);
            }
        },
        None => {},
    }
    let (identity, r2) = match take_lp16(r1) {
        Ok(p) => p,
        Err(e) => return Err(e),
    };
    let (device, r3) = match take_lp16(r2) {
        Ok(p) => p,
        Err(e) => return Err(e),
    };
    let (source_revision, r4) = match take_u64_field(r3) {
        Ok(p) => p,
        Err(e) => return Err(e),
    };
    let (db, r5) = match take_fixed(r4, 32) {
        Ok(p) => p,
        Err(e) => return Err(e),
    };
    let (policy_version, r6) = match take_u32_field(r5) {
        Ok(p) => p,
        Err(e) => return Err(e),
    };
    let (expires_at, r7) = match take_u64_field(r6) {
        Ok(p) => p,
        Err(e) => return Err(e),
    };
    let (status, r8) = match take_status(r7) {
        Ok(p) => p,
        Err(e) => return Err(e),
    };
    let target = Member::new(identity, device);
    let mut inv = match Invitation::new(id, g, target, source_revision, array32(db), policy_version, expires_at) {
        Ok(inv) => inv,
        Err(e) => return Err(e),
    };
    inv.status = status;
    Ok((inv, r8))
}

fn take_records<'a>(n: u8, input: &'a [u8], g: GroupId, prev: Option<InvitationId>) -> (r: Result<
    (Vec<Invitation>, &'a [u8]),
    Error,
>)
    ensures
        ({
            let pv = match prev {
                Some(p) => Some(p@),
                None => None,
            };
            match r {
                Ok((rs, t)) => records_field(n as nat, input@, g@, pv) == Ok::<(Seq<InvitationV>, Seq<u8>), Error>(
                    (invitation_views(rs@), t@),
                ),
                Err(e) => records_field(n as nat, input@, g@, pv) == Err::<(Seq<InvitationV>, Seq<u8>), Error>(e),
            }
        }),
    decreases n,
{
    proof {
        lemma_records_field_unfold(n as nat, input@, g@, match prev {
            Some(p) => Some(p@),
            None => None,
        });
    }
    if n == 0 {
        let empty: Vec<Invitation> = Vec::new();
        assert(invitation_views(empty@) =~= Seq::<InvitationV>::empty());
        return Ok((empty, input));
    }
    let (inv, r1) = match take_record(input, g, prev) {
        Ok(p) => p,
        Err(e) => return Err(e),
    };
    let (mut rs, rest) = match take_records(n - 1, r1, g, Some(inv.id)) {
        Ok(p) => p,
        Err(e) => return Err(e),
    };
    let ghost tail = rs@;
    let ghost iv = inv@;
    rs.insert(0, inv);
    assert(invitation_views(rs@) =~= seq![iv] + invitation_views(tail));
    Ok((rs, rest))
}

/// Strictly increasing identifiers are distinct.
proof fn lemma_sorted_ids_distinct(t: Seq<InvitationV>)
    requires
        sorted_by_id(t),
    ensures
        forall|i: int, j: int| 0 <= i < j < t.len() ==> (#[trigger] t[i]).id != (#[trigger] t[j]).id,
{
    assert forall|i: int, j: int| 0 <= i < j < t.len() implies (#[trigger] t[i]).id != (#[trigger] t[j]).id by {
        if t[i].id == t[j].id {
            crate::group::lemma_lex_irreflexive(t[i].id);
        }
    }
}

/// Read records are in strictly increasing identifier order, each after
/// `prev`.
proof fn lemma_records_field_sorted(n: nat, s: Seq<u8>, g: Seq<u8>, prev: Option<Seq<u8>>)
    requires
        records_field(n, s, g, prev) is Ok,
    ensures
        sorted_by_id(records_field(n, s, g, prev)->Ok_0.0),
        records_field(n, s, g, prev)->Ok_0.0.len() == n,
        prev matches Some(p) ==> forall|i: int|
            0 <= i < n ==> lex_lt(p, (#[trigger] records_field(n, s, g, prev)->Ok_0.0[i]).id),
    decreases n,
{
    lemma_records_field_unfold(n, s, g, prev);
    if n > 0 {
        lemma_record_field_inv(s, g, prev);
        let (r, rest) = record_field(s, g, prev)->Ok_0;
        lemma_records_field_sorted((n - 1) as nat, rest, g, Some(r.id));
        let (rs, rest2) = records_field((n - 1) as nat, rest, g, Some(r.id))->Ok_0;
        let all = seq![r] + rs;
        assert forall|i: int, j: int| 0 <= i < j < all.len() implies lex_lt((#[trigger] all[i]).id, (
        #[trigger] all[j]).id) by {
            if i == 0 {
                assert(all[j] == rs[j - 1]);
            } else {
                assert(all[i] == rs[i - 1] && all[j] == rs[j - 1]);
            }
        }
        if prev is Some {
            let p = prev.unwrap();
            assert forall|i: int| 0 <= i < n implies lex_lt(p, (#[trigger] all[i]).id) by {
                if i > 0 {
                    assert(all[i] == rs[i - 1]);
                    crate::group::lemma_lex_transitive(p, r.id, rs[i - 1].id);
                }
            }
        }
    }
}

impl InvitationBook {
    /// Restore a canonical checkpoint for the expected group. An ambiguous
    /// or partially consumed state is refused rather than completed.
    pub fn decode_state(bytes: &[u8], expected_group_id: GroupId) -> (r: Result<InvitationBook, Error>)
        ensures
            match r {
                Ok(b) => b.wf() && decode_state_spec(bytes@, expected_group_id@) == Ok::<BookV, Error>(b@),
                Err(e) => decode_state_spec(bytes@, expected_group_id@) == Err::<BookV, Error>(e),
            },
    {
        let r0 = match take_domain(bytes, book_domain_bytes()) {
            Ok(rest) => rest,
            Err(e) => return Err(e),
        };
        let (gb, r1) = match take_fixed(r0, 16) {
            Ok(p) => p,
            Err(e) => return Err(e),
        };
        let encoded = GroupId::new(array16(gb));
        if !encoded.same(&expected_group_id) {
            return Err(Error::Conflict);
        }
        let (count, r2) = match take_byte(r1) {
            Ok(p) => p,
            Err(e) => return Err(e),
        };
        if count as usize > MAX_INVITATION_RECORDS {
            return Err(Error::Malformed);
        }
        let (invitations, r3) = match take_records(count, r2, expected_group_id, None) {
            Ok(p) => p,
            Err(e) => return Err(e),
        };
        if r3.len() > 0 {
            return Err(Error::Malformed);
        }
        let book = InvitationBook { group_id: expected_group_id, invitations };
        proof {
            lemma_records_field_sorted(count as nat, r2@, expected_group_id@, None);
            lemma_sorted_ids_distinct(book@.records);
        }
        Ok(book)
    }
}


/// A record the checkpoint can hold for group `g`.
pub open spec fn record_valid(r: InvitationV, g: Seq<u8>) -> bool {
    &&& r.id.len() == 16
    &&& r.group_id == g
    &&& r.source_roster_digest.len() == 32
    &&& invitation_error(r.source_revision, r.policy_version, r.target) is None
    &&& !(r.status matches InvitationStatus::Admitted { revision } && revision == RESERVED_REVISION)
}

proof fn lemma_lp16_field_of(b: Seq<u8>, rest: Seq<u8>)
    requires
        b.len() <= 0xffff,
    ensures
        lp16_field(lp16(b) + rest) == Ok::<(Seq<u8>, Seq<u8>), Error>((b, rest)),
{
    let s = lp16(b) + rest;
    lemma_u16_roundtrip(b.len() as u16);
    assert(s.take(2) =~= be16(b.len() as u16));
    assert(s.skip(2) =~= b + rest);
    assert((b + rest).take(b.len() as int) =~= b);
    assert((b + rest).skip(b.len() as int) =~= rest);
}

proof fn lemma_lp16_field_inv(s: Seq<u8>)
    requires
        lp16_field(s) is Ok,
    ensures
        s == lp16(lp16_field(s)->Ok_0.0) + lp16_field(s)->Ok_0.1,
        lp16_field(s)->Ok_0.0.len() <= 0xffff,
{
    let n = u16_of(s.take(2));
    lemma_be16_of(s.take(2));
    let r = s.skip(2);
    let b = r.take(n as int);
    assert(b.len() == n);
    assert(s =~= be16(n) + b + r.skip(n as int));
}

proof fn lemma_status_field_of(st: InvitationStatus, rest: Seq<u8>)
    requires
        !(st matches InvitationStatus::Admitted { revision } && revision == RESERVED_REVISION),
    ensures
        status_field(status_bytes(st) + rest) == Ok::<(InvitationStatus, Seq<u8>), Error>((st, rest)),
{
    let s = status_bytes(st) + rest;
    assert(s[0] == status_bytes(st)[0]);
    match st {
        InvitationStatus::Admitted { revision } => {
            assert(s.drop_first() =~= be64(revision) + rest);
            lemma_take_u64_of(revision, rest);
        },
        _ => {
            assert(s.drop_first() =~= rest);
        },
    }
}

proof fn lemma_status_field_inv(s: Seq<u8>)
    requires
        status_field(s) is Ok,
    ensures
        s == status_bytes(status_field(s)->Ok_0.0) + status_field(s)->Ok_0.1,
        !(status_field(s)->Ok_0.0 matches InvitationStatus::Admitted { revision } && revision
            == RESERVED_REVISION),
{
    let code = s[0];
    let r = s.drop_first();
    if code == 2 {
        lemma_take_u64_inv(r);
        let (revision, r2) = take_u64_spec(r).unwrap();
        assert(s =~= seq![2u8] + be64(revision) + r2);
    } else {
        assert(s =~= seq![code] + r);
    }
}

proof fn lemma_record_head_of(r: InvitationV, rest: Seq<u8>, prev: Option<Seq<u8>>)
    requires
        record_valid(r, r.group_id),
        prev matches Some(p) ==> lex_lt(p, r.id),
    ensures
        record_head_field(r.id + lp16(r.target.identity) + lp16(r.target.device) + rest, prev) == Ok::<
            (Seq<u8>, MemberV, Seq<u8>),
            Error,
        >((r.id, r.target, rest)),
{
    reveal(record_head_field);
    let t3 = lp16(r.target.device) + rest;
    let t2 = lp16(r.target.identity) + t3;
    let s = r.id + t2;
    assert(r.id + lp16(r.target.identity) + lp16(r.target.device) + rest =~= s);
    assert(s.take(16) =~= r.id);
    assert(s.skip(16) =~= t2);
    lemma_lp16_field_of(r.target.identity, t3);
    lemma_lp16_field_of(r.target.device, rest);
}

proof fn lemma_record_tail_of(r: InvitationV, rest: Seq<u8>)
    requires
        record_valid(r, r.group_id),
    ensures
        record_tail_field(be64(r.source_revision) + r.source_roster_digest + be32(r.policy_version) + be64(
            r.expires_at,
        ) + status_bytes(r.status) + rest) == Ok::<(u64, Seq<u8>, u32, u64, InvitationStatus, Seq<u8>), Error>(
            (r.source_revision, r.source_roster_digest, r.policy_version, r.expires_at, r.status, rest),
        ),
{
    reveal(record_tail_field);
    let t8 = status_bytes(r.status) + rest;
    let t7 = be64(r.expires_at) + t8;
    let t6 = be32(r.policy_version) + t7;
    let t5 = r.source_roster_digest + t6;
    let t4 = be64(r.source_revision) + t5;
    assert(be64(r.source_revision) + r.source_roster_digest + be32(r.policy_version) + be64(r.expires_at)
        + status_bytes(r.status) + rest =~= t4);
    lemma_take_u64_of(r.source_revision, t5);
    assert(t5.take(32) =~= r.source_roster_digest);
    assert(t5.skip(32) =~= t6);
    lemma_take_u32_of(r.policy_version, t7);
    lemma_take_u64_of(r.expires_at, t8);
    lemma_status_field_of(r.status, rest);
}

proof fn lemma_record_field_of(r: InvitationV, rest: Seq<u8>, g: Seq<u8>, prev: Option<Seq<u8>>)
    requires
        record_valid(r, g),
        prev matches Some(p) ==> lex_lt(p, r.id),
    ensures
        record_field(record_bytes(r) + rest, g, prev) == Ok::<(InvitationV, Seq<u8>), Error>((r, rest)),
{
    let tail = be64(r.source_revision) + r.source_roster_digest + be32(r.policy_version) + be64(r.expires_at)
        + status_bytes(r.status) + rest;
    lemma_record_head_of(r, tail, prev);
    lemma_record_tail_of(r, rest);
    assert(record_bytes(r) + rest =~= r.id + lp16(r.target.identity) + lp16(r.target.device) + tail);
}

#[verifier::spinoff_prover]
#[verifier::rlimit(50)]
proof fn lemma_record_head_inv(s: Seq<u8>, prev: Option<Seq<u8>>)
    requires
        record_head_field(s, prev) is Ok,
    ensures
        ({
            let (id, target, rest) = record_head_field(s, prev)->Ok_0;
            &&& s == id + lp16(target.identity) + lp16(target.device) + rest
            &&& id.len() == 16
            &&& prev matches Some(p) ==> lex_lt(p, id)
        }),
{
    reveal(record_head_field);
    let id = s.take(16);
    let r1 = s.skip(16);
    lemma_lp16_field_inv(r1);
    let (identity, r2) = lp16_field(r1)->Ok_0;
    lemma_lp16_field_inv(r2);
    let (device, r3) = lp16_field(r2)->Ok_0;
    assert(s =~= id + lp16(identity) + lp16(device) + r3);
}

#[verifier::spinoff_prover]
#[verifier::rlimit(50)]
proof fn lemma_record_tail_inv(s: Seq<u8>)
    requires
        record_tail_field(s) is Ok,
    ensures
        ({
            let (source, digest, policy, expires, status, rest) = record_tail_field(s)->Ok_0;
            &&& s == be64(source) + digest + be32(policy) + be64(expires) + status_bytes(status) + rest
            &&& digest.len() == 32
            &&& !(status matches InvitationStatus::Admitted { revision } && revision == RESERVED_REVISION)
        }),
{
    reveal(record_tail_field);
    lemma_take_u64_inv(s);
    let (source, r4) = take_u64_spec(s).unwrap();
    let digest = r4.take(32);
    let r5 = r4.skip(32);
    lemma_take_u32_inv(r5);
    let (policy, r6) = take_u32_spec(r5).unwrap();
    lemma_take_u64_inv(r6);
    let (expires, r7) = take_u64_spec(r6).unwrap();
    lemma_status_field_inv(r7);
    let (status, r8) = status_field(r7)->Ok_0;
    assert(s =~= be64(source) + digest + be32(policy) + be64(expires) + status_bytes(status) + r8);
}

proof fn lemma_record_field_inv(s: Seq<u8>, g: Seq<u8>, prev: Option<Seq<u8>>)
    requires
        record_field(s, g, prev) is Ok,
    ensures
        s == record_bytes(record_field(s, g, prev)->Ok_0.0) + record_field(s, g, prev)->Ok_0.1,
        record_valid(record_field(s, g, prev)->Ok_0.0, g),
        prev matches Some(p) ==> lex_lt(p, record_field(s, g, prev)->Ok_0.0.id),
{
    lemma_record_head_inv(s, prev);
    let (id, target, r3) = record_head_field(s, prev)->Ok_0;
    lemma_record_tail_inv(r3);
    let (source, digest, policy, expires, status, r8) = record_tail_field(r3)->Ok_0;
    let r = record_field(s, g, prev)->Ok_0.0;
    assert(s =~= record_bytes(r) + r8);
}

#[verifier::spinoff_prover]
proof fn lemma_records_bytes_cons(r: InvitationV, t: Seq<InvitationV>)
    ensures
        records_bytes(seq![r] + t) == record_bytes(r) + records_bytes(t),
    decreases t.len(),
{
    if t.len() == 0 {
        assert(seq![r] + t =~= seq![r]);
        assert(seq![r].drop_last() =~= Seq::<InvitationV>::empty());
        assert(seq![r].last() == r);
        assert(records_bytes(Seq::<InvitationV>::empty()) == Seq::<u8>::empty());
        assert(records_bytes(t) == Seq::<u8>::empty());
        assert(records_bytes(seq![r]) =~= record_bytes(r) + records_bytes(t));
    } else {
        lemma_records_bytes_cons(r, t.drop_last());
        assert((seq![r] + t).drop_last() =~= seq![r] + t.drop_last());
        assert((seq![r] + t).last() == t.last());
        assert(records_bytes(seq![r] + t) =~= record_bytes(r) + records_bytes(t));
    }
}

proof fn lemma_records_encode_valid(t: Seq<InvitationV>, g: Seq<u8>)
    requires
        forall|i: int| 0 <= i < t.len() ==> record_valid(#[trigger] t[i], g),
    ensures
        records_encode(t) == Ok::<Seq<u8>, Error>(records_bytes(t)),
    decreases t.len(),
{
    if t.len() > 0 {
        let u = t.drop_last();
        assert forall|i: int| 0 <= i < u.len() implies record_valid(#[trigger] u[i], g) by {
            assert(u[i] == t[i]);
        }
        lemma_records_encode_valid(u, g);
        assert(record_valid(t[t.len() - 1], g));
    }
}

#[verifier::spinoff_prover]
proof fn lemma_records_field_of(t: Seq<InvitationV>, rest: Seq<u8>, g: Seq<u8>, prev: Option<Seq<u8>>)
    requires
        forall|i: int| 0 <= i < t.len() ==> record_valid(#[trigger] t[i], g),
        sorted_by_id(t),
        t.len() > 0 && prev is Some ==> lex_lt(prev.unwrap(), t[0].id),
    ensures
        records_field(t.len(), records_bytes(t) + rest, g, prev) == Ok::<(Seq<InvitationV>, Seq<u8>), Error>(
            (t, rest),
        ),
    decreases t.len(),
{
    lemma_records_field_unfold(t.len(), records_bytes(t) + rest, g, prev);
    if t.len() == 0 {
        assert(records_bytes(t) + rest =~= rest);
        assert(t =~= Seq::<InvitationV>::empty());
    } else {
        let r = t[0];
        let u = t.drop_first();
        assert(seq![r] + u =~= t);
        lemma_records_bytes_cons(r, u);
        assert forall|i: int| 0 <= i < u.len() implies record_valid(#[trigger] u[i], g) by {
            assert(u[i] == t[i + 1]);
        }
        assert(sorted_by_id(u)) by {
            assert forall|i: int, j: int| 0 <= i < j < u.len() implies lex_lt((#[trigger] u[i]).id, (
            #[trigger] u[j]).id) by {
                assert(u[i] == t[i + 1] && u[j] == t[j + 1]);
            }
        }
        if u.len() > 0 {
            assert(u[0] == t[1]);
        }
        lemma_records_field_of(u, rest, g, Some(r.id));
        lemma_record_field_of(r, records_bytes(u) + rest, g, prev);
        assert(records_bytes(t) + rest =~= record_bytes(r) + (records_bytes(u) + rest));
    }
}

#[verifier::spinoff_prover]
proof fn lemma_records_field_inv(n: nat, s: Seq<u8>, g: Seq<u8>, prev: Option<Seq<u8>>)
    requires
        records_field(n, s, g, prev) is Ok,
    ensures
        s == records_bytes(records_field(n, s, g, prev)->Ok_0.0) + records_field(n, s, g, prev)->Ok_0.1,
        forall|i: int|
            0 <= i < records_field(n, s, g, prev)->Ok_0.0.len() ==> record_valid(
                #[trigger] records_field(n, s, g, prev)->Ok_0.0[i],
                g,
            ),
    decreases n,
{
    lemma_records_field_unfold(n, s, g, prev);
    if n == 0 {
        assert(s =~= records_bytes(Seq::<InvitationV>::empty()) + s);
    } else {
        lemma_record_field_inv(s, g, prev);
        let (r, rest) = record_field(s, g, prev)->Ok_0;
        lemma_records_field_inv((n - 1) as nat, rest, g, Some(r.id));
        let (rs, rest2) = records_field((n - 1) as nat, rest, g, Some(r.id))->Ok_0;
        lemma_records_bytes_cons(r, rs);
        let all = seq![r] + rs;
        assert(s =~= records_bytes(all) + rest2);
        assert forall|i: int| 0 <= i < all.len() implies record_valid(#[trigger] all[i], g) by {
            if i > 0 {
                assert(all[i] == rs[i - 1]);
            }
        }
    }
}

/// A checkpoint of at most `MAX_INVITATION_RECORDS` valid records of group
/// `g`, in strictly increasing identifier order, is written and read back
/// to exactly those records.
pub proof fn law_book_state_round_trips(g: Seq<u8>, t: Seq<InvitationV>)
    requires
        g.len() == 16,
        t.len() <= MAX_INVITATION_RECORDS,
        sorted_by_id(t),
        forall|i: int| 0 <= i < t.len() ==> record_valid(#[trigger] t[i], g),
    ensures
        state_encode(g, t) is Ok,
        decode_state_spec(state_encode(g, t)->Ok_0, g) == Ok::<BookV, Error>(BookV { group_id: g, records: t }),
{
    lemma_records_encode_valid(t, g);
    let d = book_domain();
    let rb = records_bytes(t);
    let b = d + g + seq![t.len() as u8] + rb;
    assert(state_encode(g, t) == Ok::<Seq<u8>, Error>(b));
    let r0 = g + seq![t.len() as u8] + rb;
    assert(b =~= d + r0);
    assert(b.take(d.len() as int) =~= d);
    assert(b.skip(d.len() as int) =~= r0);
    assert(r0.take(16) =~= g);
    let r1 = seq![t.len() as u8] + rb;
    assert(r0.skip(16) =~= r1);
    assert(r1.drop_first() =~= rb);
    lemma_records_field_of(t, Seq::empty(), g, None);
    assert(rb + Seq::<u8>::empty() =~= rb);
}

/// Restoring is canonical: a checkpoint that restores lists its records in
/// strictly increasing identifier order, and writing them again gives back
/// exactly the checkpoint.
pub proof fn law_book_state_is_canonical(b: Seq<u8>, g: Seq<u8>)
    requires
        decode_state_spec(b, g) is Ok,
    ensures
        sorted_by_id(decode_state_spec(b, g)->Ok_0.records),
        book_wf(decode_state_spec(b, g)->Ok_0),
        state_encode(g, decode_state_spec(b, g)->Ok_0.records) == Ok::<Seq<u8>, Error>(b),
{
    let d = book_domain();
    let r0 = b.skip(d.len() as int);
    assert(b =~= d + r0);
    let r1 = r0.skip(16);
    assert(r0 =~= g + r1);
    let count = r1[0];
    let r2 = r1.drop_first();
    assert(r1 =~= seq![count] + r2);
    lemma_records_field_sorted(count as nat, r2, g, None);
    lemma_records_field_inv(count as nat, r2, g, None);
    let (rs, r3) = records_field(count as nat, r2, g, None)->Ok_0;
    lemma_sorted_ids_distinct(rs);
    lemma_records_encode_valid(rs, g);
    assert(r3 =~= Seq::<u8>::empty());
    assert(b =~= d + g + seq![rs.len() as u8] + records_bytes(rs));
}

/// A book's checkpoint lists its records in strictly increasing identifier
/// order: the same records, each once.
pub proof fn law_book_checkpoint_lists_records_by_id(b: BookV)
    requires
        book_wf(b),
    ensures
        sorted_by_id(records_in_id_order(b.records)),
        rearranges(b.records, records_in_id_order(b.records)),
{
    lemma_sorted_arrangement_exists(b.records);
}

/// Two books of one group holding the same records, whatever order they
/// arrived in, write the same checkpoint.
pub proof fn law_book_checkpoint_ignores_arrival_order(a: BookV, b: BookV)
    requires
        book_wf(a),
        a.group_id == b.group_id,
        rearranges(a.records, b.records),
    ensures
        records_in_id_order(a.records) == records_in_id_order(b.records),
        state_encode(a.group_id, records_in_id_order(a.records)) == state_encode(
            b.group_id,
            records_in_id_order(b.records),
        ),
{
    lemma_sorted_arrangement_exists(a.records);
    let t = records_in_id_order(a.records);
    assert(rearranges(b.records, t));
    lemma_records_in_id_order(b.records, t);
}

/// A checkpoint that restores is written again, byte for byte, by the book
/// it restores to.
pub proof fn law_a_restored_checkpoint_re_encodes(bytes: Seq<u8>, g: Seq<u8>)
    requires
        decode_state_spec(bytes, g) is Ok,
    ensures
        book_wf(decode_state_spec(bytes, g)->Ok_0),
        decode_state_spec(bytes, g)->Ok_0.group_id == g,
        state_encode(g, records_in_id_order(decode_state_spec(bytes, g)->Ok_0.records)) == Ok::<Seq<u8>, Error>(
            bytes,
        ),
{
    law_book_state_is_canonical(bytes, g);
    let rs = decode_state_spec(bytes, g)->Ok_0.records;
    lemma_records_in_id_order(rs, rs);
}

/// Every record of the book is one its checkpoint can hold.
pub open spec fn records_valid(b: BookV) -> bool {
    forall|i: int| 0 <= i < b.records.len() ==> record_valid(#[trigger] b.records[i], b.group_id)
}

/// A book of valid records writes a checkpoint, and the checkpoint restores
/// to the same group and the same records in identifier order.
pub proof fn law_book_checkpoint_round_trips(b: BookV)
    requires
        book_wf(b),
        b.group_id.len() == 16,
        records_valid(b),
    ensures
        state_encode(b.group_id, records_in_id_order(b.records)) is Ok,
        decode_state_spec(state_encode(b.group_id, records_in_id_order(b.records))->Ok_0, b.group_id) == Ok::<
            BookV,
            Error,
        >(BookV { group_id: b.group_id, records: records_in_id_order(b.records) }),
{
    lemma_sorted_arrangement_exists(b.records);
    let t = records_in_id_order(b.records);
    assert forall|i: int| 0 <= i < t.len() implies record_valid(#[trigger] t[i], b.group_id) by {
        assert(t.contains(t[i]));
        let k = choose|k: int| 0 <= k < b.records.len() && b.records[k] == t[i];
        assert(record_valid(b.records[k], b.group_id));
    }
    law_book_state_round_trips(b.group_id, t);
}

/// An invitation made by `Invitation::new` is a record a checkpoint can hold.
pub proof fn law_a_new_invitation_is_a_valid_record(inv: InvitationV)
    requires
        inv.id.len() == 16,
        inv.group_id.len() == 16,
        inv.source_roster_digest.len() == 32,
        invitation_error(inv.source_revision, inv.policy_version, inv.target) is None,
        inv.status == InvitationStatus::Pending,
    ensures
        record_valid(inv, inv.group_id),
{
}

/// Expiry changes a record's status only.
proof fn lemma_expiry_keeps_validity(r: InvitationV, g: Seq<u8>, now: u64)
    requires
        record_valid(r, g),
    ensures
        record_valid(expire_if_due(r, now), g),
{
}

/// Every lifecycle operation keeps every record one the checkpoint can hold,
/// given that a created invitation is valid for its own group.
#[verifier::spinoff_prover]
#[verifier::rlimit(40)]
pub proof fn law_lifecycle_keeps_records_valid(
    b: BookV,
    id: Seq<u8>,
    inv: InvitationV,
    authenticated: MemberV,
    authority: MemberV,
    active: Seq<MemberV>,
    observed_revision: u64,
    observed_digest: Seq<u8>,
    accepted_revision: u64,
    now: u64,
)
    requires
        records_valid(b),
        record_valid(inv, inv.group_id),
    ensures
        records_valid(spec_create(b, authenticated, authority, active, inv, now).0),
        records_valid(spec_accept(b, id, authenticated, observed_revision, observed_digest, now).0),
        records_valid(spec_revoke(b, id, authenticated, authority, now).0),
        records_valid(spec_admit(b, id, authenticated, authority, accepted_revision, now).0),
{
    let c = spec_create(b, authenticated, authority, active, inv, now).0;
    assert forall|i: int| 0 <= i < c.records.len() implies record_valid(#[trigger] c.records[i], c.group_id) by {
        if i < b.records.len() {
            assert(c.records[i] == b.records[i]);
        }
    }
    if has_invitation(b.records, id) {
        let k = invitation_index(b.records, id);
        lemma_expiry_keeps_validity(b.records[k], b.group_id, now);
        let a = spec_accept(b, id, authenticated, observed_revision, observed_digest, now).0;
        assert forall|i: int| 0 <= i < a.records.len() implies record_valid(#[trigger] a.records[i], a.group_id) by {
            if i != k {
                assert(a.records[i] == b.records[i]);
            }
        }
        let v = spec_revoke(b, id, authenticated, authority, now).0;
        assert forall|i: int| 0 <= i < v.records.len() implies record_valid(#[trigger] v.records[i], v.group_id) by {
            if i != k {
                assert(v.records[i] == b.records[i]);
            }
        }
        let d = spec_admit(b, id, authenticated, authority, accepted_revision, now).0;
        assert forall|i: int| 0 <= i < d.records.len() implies record_valid(#[trigger] d.records[i], d.group_id) by {
            if i != k {
                assert(d.records[i] == b.records[i]);
            }
        }
    }
}

/// A refused creation changes nothing, and a record for another group is
/// always refused: it cannot enter this book's lifecycle.
pub proof fn law_a_refused_creation_changes_nothing(
    b: BookV,
    authenticated: MemberV,
    authority: MemberV,
    active: Seq<MemberV>,
    inv: InvitationV,
    now: u64,
)
    ensures
        spec_create(b, authenticated, authority, active, inv, now).1 is Err ==> spec_create(
            b,
            authenticated,
            authority,
            active,
            inv,
            now,
        ).0 == b,
        inv.group_id != b.group_id ==> spec_create(b, authenticated, authority, active, inv, now).1 is Err,
{
}

/// Acceptance checks the authenticated target and the source roster before
/// any state changes: a wrong target or a stale source leaves the book as
/// it was.
pub proof fn law_acceptance_checks_come_before_state_changes(
    b: BookV,
    id: Seq<u8>,
    authenticated: MemberV,
    observed_revision: u64,
    observed_digest: Seq<u8>,
    now: u64,
)
    ensures
        ({
            let (b1, r) = spec_accept(b, id, authenticated, observed_revision, observed_digest, now);
            (r == Err::<InvitationV, Error>(Error::WrongTarget) || r == Err::<InvitationV, Error>(
                Error::StaleSource,
            ) || r == Err::<InvitationV, Error>(Error::Malformed)) ==> b1 == b
        }),
{
}

/// No invitation is ever recorded for someone already active: whenever the
/// target is among the active members, creation fails and the book stays as
/// it was; once the caller is the authority, the invitation is for this
/// group and its deadline is ahead, the failure is `Conflict`.
pub proof fn law_an_active_member_cannot_be_invited(
    b: BookV,
    authenticated: MemberV,
    authority: MemberV,
    active: Seq<MemberV>,
    inv: InvitationV,
    now: u64,
    i: int,
)
    requires
        0 <= i < active.len(),
        active[i] == inv.target,
    ensures
        spec_create(b, authenticated, authority, active, inv, now).0 == b,
        spec_create(b, authenticated, authority, active, inv, now).1 is Err,
        authenticated == authority && inv.group_id == b.group_id && now < inv.expires_at ==> spec_create(
            b,
            authenticated,
            authority,
            active,
            inv,
            now,
        ).1 == Err::<InvitationV, Error>(Error::Conflict),
{
    assert(active.contains(inv.target));
}

/// Revocation is idempotent: the authority revoking a record that is
/// already revoked gets that same record back, and the book is unchanged.
pub proof fn law_revocation_is_idempotent(
    b: BookV,
    id: Seq<u8>,
    authority: MemberV,
    now: u64,
    k: int,
)
    requires
        book_wf(b),
        0 <= k < b.records.len(),
        b.records[k].id == id,
        b.records[k].status == InvitationStatus::Revoked,
    ensures
        spec_revoke(b, id, authority, authority, now) == (b, Ok::<InvitationV, Error>(b.records[k])),
{
    lemma_record_at(b, id, k);
    assert(b.records.update(k, b.records[k]) =~= b.records);
}

/// In a book without repeated identifiers, the record with `id` is the one
/// at the position holding it.
proof fn lemma_record_at(b: BookV, id: Seq<u8>, k: int)
    requires
        book_wf(b),
        0 <= k < b.records.len(),
        b.records[k].id == id,
    ensures
        has_invitation(b.records, id),
        invitation_index(b.records, id) == k,
{
    assert(has_invitation(b.records, id));
    let j = invitation_index(b.records, id);
    if j != k {
        if j < k {
            assert(b.records[j].id != b.records[k].id);
        } else {
            assert(b.records[k].id != b.records[j].id);
        }
    }
}

/// Creation: only the authority may create; an invitation for another group
/// conflicts; one whose deadline has come is expired. A fresh invitation
/// that passes every check, with room in the book, is appended as it is and
/// returned.
pub proof fn law_creation_checks_and_records(
    b: BookV,
    authenticated: MemberV,
    authority: MemberV,
    active: Seq<MemberV>,
    inv: InvitationV,
    now: u64,
)
    ensures
        authenticated != authority ==> spec_create(b, authenticated, authority, active, inv, now) == (
            b,
            Err::<InvitationV, Error>(Error::Unauthorized),
        ),
        authenticated == authority && inv.group_id != b.group_id ==> spec_create(
            b,
            authenticated,
            authority,
            active,
            inv,
            now,
        ) == (b, Err::<InvitationV, Error>(Error::Conflict)),
        authenticated == authority && inv.group_id == b.group_id && now >= inv.expires_at ==> spec_create(
            b,
            authenticated,
            authority,
            active,
            inv,
            now,
        ) == (b, Err::<InvitationV, Error>(Error::Expired)),
        ({
            &&& authenticated == authority
            &&& inv.group_id == b.group_id
            &&& now < inv.expires_at
            &&& forall|i: int| 0 <= i < active.len() ==> active[i] != inv.target
            &&& forall|i: int| 0 <= i < b.records.len() ==> b.records[i].id != inv.id
            &&& b.records.len() < MAX_INVITATION_RECORDS
        }) ==> spec_create(b, authenticated, authority, active, inv, now) == (
            BookV { records: b.records.push(inv), ..b },
            Ok::<InvitationV, Error>(inv),
        ),
{
}

/// Acceptance of the record at `k`: only its target may accept, only
/// against the roster it was issued from; a pending record whose deadline
/// is ahead becomes accepted pending admission, and nothing else changes; a
/// revoked one is refused as revoked.
pub proof fn law_acceptance_by_the_target(
    b: BookV,
    k: int,
    authenticated: MemberV,
    observed_revision: u64,
    observed_digest: Seq<u8>,
    now: u64,
)
    requires
        book_wf(b),
        0 <= k < b.records.len(),
    ensures
        ({
            let r = b.records[k];
            let (b1, res) = spec_accept(b, r.id, authenticated, observed_revision, observed_digest, now);
            &&& authenticated != r.target ==> b1 == b && res == Err::<InvitationV, Error>(Error::WrongTarget)
            &&& authenticated == r.target && !(r.source_revision == observed_revision
                && r.source_roster_digest == observed_digest) ==> b1 == b && res == Err::<InvitationV, Error>(
                Error::StaleSource,
            )
            &&& authenticated == r.target && r.source_revision == observed_revision && r.source_roster_digest
                == observed_digest ==> {
                &&& r.status == InvitationStatus::Pending && now < r.expires_at ==> {
                    let accepted = InvitationV { status: InvitationStatus::AcceptedPendingAdmission, ..r };
                    b1 == (BookV { records: b.records.update(k, accepted), ..b }) && res == Ok::<
                        InvitationV,
                        Error,
                    >(accepted)
                }
                &&& r.status == InvitationStatus::Revoked ==> b1 == b && res == Err::<InvitationV, Error>(
                    Error::Revoked,
                )
            }
        }),
{
    lemma_record_at(b, b.records[k].id, k);
    assert(b.records.update(k, b.records[k]) =~= b.records);
}

/// Revocation of the record at `k`: only the authority may revoke; a
/// pending or accepted record whose deadline is ahead becomes revoked and
/// nothing else changes; an admitted one is refused and stays admitted.
pub proof fn law_revocation_by_the_authority(
    b: BookV,
    k: int,
    authenticated: MemberV,
    authority: MemberV,
    now: u64,
)
    requires
        book_wf(b),
        0 <= k < b.records.len(),
    ensures
        ({
            let r = b.records[k];
            let (b1, res) = spec_revoke(b, r.id, authenticated, authority, now);
            &&& authenticated != authority ==> b1 == b && res == Err::<InvitationV, Error>(Error::Unauthorized)
            &&& authenticated == authority && (r.status == InvitationStatus::Pending || r.status
                == InvitationStatus::AcceptedPendingAdmission) && now < r.expires_at ==> {
                let revoked = InvitationV { status: InvitationStatus::Revoked, ..r };
                b1 == (BookV { records: b.records.update(k, revoked), ..b }) && res == Ok::<InvitationV, Error>(
                    revoked,
                )
            }
            &&& authenticated == authority && r.status is Admitted ==> b1 == b && res == Err::<
                InvitationV,
                Error,
            >(Error::WrongDisposition)
        }),
{
    lemma_record_at(b, b.records[k].id, k);
    assert(b.records.update(k, b.records[k]) =~= b.records);
}

/// Admission of the record at `k`: only the authority, only at a usable
/// revision; an accepted record whose deadline is ahead becomes admitted at
/// that revision and nothing else changes; an admitted one is returned as
/// it is; a pending one is refused and stays pending.
pub proof fn law_admission_by_the_authority(
    b: BookV,
    k: int,
    authenticated: MemberV,
    authority: MemberV,
    accepted_revision: u64,
    now: u64,
)
    requires
        book_wf(b),
        0 <= k < b.records.len(),
    ensures
        ({
            let r = b.records[k];
            let (b1, res) = spec_admit(b, r.id, authenticated, authority, accepted_revision, now);
            &&& authenticated != authority ==> b1 == b && res == Err::<InvitationV, Error>(Error::Unauthorized)
            &&& authenticated == authority && accepted_revision == RESERVED_REVISION ==> b1 == b && res == Err::<
                InvitationV,
                Error,
            >(Error::ReservedRevision)
            &&& authenticated == authority && accepted_revision != RESERVED_REVISION ==> {
                &&& r.status == InvitationStatus::AcceptedPendingAdmission && now < r.expires_at ==> {
                    let admitted = InvitationV { status: InvitationStatus::Admitted { revision: accepted_revision }, ..r };
                    b1 == (BookV { records: b.records.update(k, admitted), ..b }) && res == Ok::<
                        InvitationV,
                        Error,
                    >(admitted)
                }
                &&& r.status is Admitted ==> b1 == b && res == Ok::<InvitationV, Error>(r)
                &&& r.status == InvitationStatus::Pending && now < r.expires_at ==> b1 == b && res == Err::<
                    InvitationV,
                    Error,
                >(Error::WrongDisposition)
            }
        }),
{
    lemma_record_at(b, b.records[k].id, k);
    assert(b.records.update(k, b.records[k]) =~= b.records);
}

} // verus!
