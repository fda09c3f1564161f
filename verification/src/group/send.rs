//! Fixed-recipient application sends for a group: the immutable logical
//! record committed before any pairwise work, each recipient's progress
//! through preparation, bounded handoff and relay acceptance, and the
//! bounded outbox that owns them.
use crate::codec::{
    be32, be64, extend, lemma_take_bytes_inv, lemma_take_bytes_of, lemma_take_u32_inv, lemma_take_u32_of,
    lemma_take_u64_inv, lemma_take_u64_of, lp, put_bytes, put_u32, put_u64, take_bytes_spec, take_u32_spec,
    take_u64_spec, to_vec,
};
use crate::group::{
    domain_field, lp_field, members_field, take_domain, take_lp, take_member, take_members, take_u32_field,
    take_u64_field, u32_field, u64_field, lex_lt, member_bytes, member_error, member_field, member_views, members_bytes, put_member, put_members,
    same_digest, sort_key, ApplicationContext, ApplicationContextV, Error, GroupId, Member, MemberV, Roster, RosterV,
    MAX_LIVE_LOGICAL_SENDS, MAX_MEMBERS, MAX_PAYLOAD_LEN, RESERVED_REVISION,
};
use vstd::prelude::*;

verus! {

/// An application message identifier, allocated independently of the
/// pairwise ratchets.
#[derive(Clone, Debug, PartialEq, Eq)]
pub struct LogicalMessageId {
    pub group_id: GroupId,
    pub revision: u64,
    pub sender: Member,
    pub sequence: u64,
}

/// A message identifier as a value.
pub struct MessageIdV {
    pub group_id: Seq<u8>,
    pub revision: u64,
    pub sender: MemberV,
    pub sequence: u64,
}

impl View for LogicalMessageId {
    type V = MessageIdV;

    open spec fn view(&self) -> MessageIdV {
        MessageIdV {
            group_id: self.group_id@,
            revision: self.revision,
            sender: self.sender@,
            sequence: self.sequence,
        }
    }
}

impl LogicalMessageId {
    /// An identifier, unless the revision is the reserved one.
    pub fn new(group_id: GroupId, revision: u64, sender: Member, sequence: u64) -> (r: Result<
        LogicalMessageId,
        Error,
    >)
        ensures
            match r {
                Ok(id) => revision != RESERVED_REVISION && id@ == (MessageIdV {
                    group_id: group_id@,
                    revision,
                    sender: sender@,
                    sequence,
                }),
                Err(e) => revision == RESERVED_REVISION && e == Error::ReservedRevision,
            },
    {
        if revision == RESERVED_REVISION {
            return Err(Error::ReservedRevision);
        }
        Ok(LogicalMessageId { group_id, revision, sender, sequence })
    }

    /// Whether two identifiers are the same.
    pub fn same(&self, other: &LogicalMessageId) -> (eq: bool)
        ensures
            eq == (self@ == other@),
    {
        self.group_id.same(&other.group_id) && self.revision == other.revision && self.sender.same(&other.sender)
            && self.sequence == other.sequence
    }

    /// The same identifier, as a fresh value.
    pub fn duplicate(&self) -> (id: LogicalMessageId)
        ensures
            id@ == self@,
    {
        LogicalMessageId {
            group_id: self.group_id,
            revision: self.revision,
            sender: self.sender.duplicate(),
            sequence: self.sequence,
        }
    }
}

/// Where one recipient's immutable ciphertext stands.
#[derive(Clone, Copy, Debug, PartialEq, Eq, Structural)]
pub enum RecipientDisposition {
    Pending,
    Prepared,
    HandedOff,
    RelayAccepted,
    Cancelled,
    CancelledAfterHandoff,
    ExhaustedUnknown,
}

/// The durable record of one recipient's progress.
#[derive(Clone, Debug, PartialEq, Eq)]
pub struct RecipientProgress {
    pub recipient: Member,
    pub disposition: RecipientDisposition,
    /// The commitment over this recipient's canonical application context; it
    /// is kept with the ciphertext and cannot change on retry.
    pub context_commitment: Option<[u8; 32]>,
    pub ciphertext: Option<Vec<u8>>,
    pub attempts_reserved: u8,
}

/// A recipient's progress as a value.
pub struct ProgressV {
    pub recipient: MemberV,
    pub disposition: RecipientDisposition,
    pub context_commitment: Option<Seq<u8>>,
    pub ciphertext: Option<Seq<u8>>,
    pub attempts_reserved: u8,
}

impl View for RecipientProgress {
    type V = ProgressV;

    open spec fn view(&self) -> ProgressV {
        ProgressV {
            recipient: self.recipient@,
            disposition: self.disposition,
            context_commitment: match self.context_commitment {
                Some(c) => Some(c@),
                None => None,
            },
            ciphertext: match self.ciphertext {
                Some(c) => Some(c@),
                None => None,
            },
            attempts_reserved: self.attempts_reserved,
        }
    }
}

/// A fixed-recipient application send. It makes no transport or delivery
/// claim; its owner persists it before passing a ciphertext on.
#[derive(Clone, Debug, PartialEq, Eq)]
pub struct LogicalSend {
    pub id: LogicalMessageId,
    pub roster_digest: [u8; 32],
    pub payload: Vec<u8>,
    pub recipients: Vec<RecipientProgress>,
}

/// A logical send as a value.
pub struct SendV {
    pub id: MessageIdV,
    pub roster_digest: Seq<u8>,
    pub payload: Seq<u8>,
    pub recipients: Seq<ProgressV>,
}

/// The views of a list of progress records.
pub open spec fn progress_views(ps: Seq<RecipientProgress>) -> Seq<ProgressV> {
    ps.map_values(|p: RecipientProgress| p@)
}

impl View for LogicalSend {
    type V = SendV;

    open spec fn view(&self) -> SendV {
        SendV {
            id: self.id@,
            roster_digest: self.roster_digest@,
            payload: self.payload@,
            recipients: progress_views(self.recipients@),
        }
    }
}

/// A recipient that nothing more will be done for.
pub open spec fn is_settled(d: RecipientDisposition) -> bool {
    match d {
        RecipientDisposition::RelayAccepted | RecipientDisposition::Cancelled
        | RecipientDisposition::CancelledAfterHandoff | RecipientDisposition::ExhaustedUnknown => true,
        _ => false,
    }
}

/// Every recipient is settled.
pub open spec fn send_is_terminal(s: SendV) -> bool {
    forall|i: int| 0 <= i < s.recipients.len() ==> is_settled(#[trigger] s.recipients[i].disposition)
}

/// `i` is the first position holding `m`'s progress.
pub open spec fn first_recipient_at(rs: Seq<ProgressV>, m: MemberV, i: int) -> bool {
    &&& 0 <= i < rs.len()
    &&& rs[i].recipient == m
    &&& forall|j: int| 0 <= j < i ==> (#[trigger] rs[j]).recipient != m
}

/// Whether the send has progress for `m`.
pub open spec fn has_recipient(rs: Seq<ProgressV>, m: MemberV) -> bool {
    exists|i: int| 0 <= i < rs.len() && (#[trigger] rs[i]).recipient == m
}

/// The first position holding `m`'s progress.
pub open spec fn recipient_index(rs: Seq<ProgressV>, m: MemberV) -> int {
    choose|i: int| first_recipient_at(rs, m, i)
}

/// A fresh, pending progress record.
pub open spec fn pending(m: MemberV) -> ProgressV {
    ProgressV {
        recipient: m,
        disposition: RecipientDisposition::Pending,
        context_commitment: None,
        ciphertext: None,
        attempts_reserved: 0,
    }
}

/// Storing a recipient's ciphertext: once while pending; an identical retry
/// while prepared or handed off changes nothing; anything else is refused.
pub open spec fn prepare_step(p: ProgressV, commitment: Seq<u8>, ciphertext: Seq<u8>) -> Result<ProgressV, Error> {
    match p.disposition {
        RecipientDisposition::Pending => Ok(
            ProgressV {
                disposition: RecipientDisposition::Prepared,
                context_commitment: Some(commitment),
                ciphertext: Some(ciphertext),
                ..p
            },
        ),
        RecipientDisposition::Prepared | RecipientDisposition::HandedOff => if p.context_commitment == Some(
            commitment,
        ) && p.ciphertext == Some(ciphertext) {
            Ok(p)
        } else {
            Err(Error::Conflict)
        },
        _ => Err(Error::WrongDisposition),
    }
}

/// Reserving a handoff attempt: only a prepared or handed-off recipient with
/// a ciphertext; the third attempt is the last, and asking again after it
/// marks the recipient exhausted. The record afterwards, and the answer.
pub open spec fn handoff_step(p: ProgressV) -> (ProgressV, Result<ProgressV, Error>) {
    match p.disposition {
        RecipientDisposition::Prepared | RecipientDisposition::HandedOff => if p.ciphertext is None {
            (p, Err(Error::WrongDisposition))
        } else if p.attempts_reserved >= 3 {
            let q = ProgressV { disposition: RecipientDisposition::ExhaustedUnknown, ..p };
            (q, Err(Error::RetryExhausted))
        } else {
            let attempts = (p.attempts_reserved + 1) as u8;
            let q = ProgressV {
                attempts_reserved: attempts,
                disposition: if attempts == 3 {
                    RecipientDisposition::ExhaustedUnknown
                } else {
                    RecipientDisposition::HandedOff
                },
                ..p
            };
            (q, Ok(q))
        },
        RecipientDisposition::ExhaustedUnknown => (p, Err(Error::RetryExhausted)),
        _ => (p, Err(Error::WrongDisposition)),
    }
}

/// Relay acceptance ends the retries of a handed-off recipient only.
pub open spec fn relay_step(p: ProgressV) -> Result<ProgressV, Error> {
    if p.disposition == RecipientDisposition::HandedOff {
        Ok(ProgressV { disposition: RecipientDisposition::RelayAccepted, ..p })
    } else {
        Err(Error::WrongDisposition)
    }
}

/// Cancelling a recipient whose context became obsolete: unsent work is
/// cancelled, a handoff is kept as evidence, settled recipients stay.
pub open spec fn cancel_step(p: ProgressV) -> ProgressV {
    match p.disposition {
        RecipientDisposition::Pending | RecipientDisposition::Prepared => ProgressV {
            disposition: RecipientDisposition::Cancelled,
            ..p
        },
        RecipientDisposition::HandedOff => ProgressV {
            disposition: RecipientDisposition::CancelledAfterHandoff,
            ..p
        },
        _ => p,
    }
}

/// A send whose recipient at `k` is replaced.
pub open spec fn with_progress(s: SendV, k: int, p: ProgressV) -> SendV {
    SendV { recipients: s.recipients.update(k, p), ..s }
}

/// Applying an operation to `m`'s progress: the send afterwards and the
/// answer; `NotMember` when the send has no progress for `m`.
pub open spec fn spec_record_prepared(s: SendV, m: MemberV, commitment: Seq<u8>, ciphertext: Seq<u8>) -> (
    SendV,
    Result<ProgressV, Error>,
) {
    if !has_recipient(s.recipients, m) {
        (s, Err(Error::NotMember))
    } else {
        let k = recipient_index(s.recipients, m);
        match prepare_step(s.recipients[k], commitment, ciphertext) {
            Ok(p) => (with_progress(s, k, p), Ok(p)),
            Err(e) => (s, Err(e)),
        }
    }
}

pub open spec fn spec_reserve_handoff(s: SendV, m: MemberV) -> (SendV, Result<ProgressV, Error>) {
    if !has_recipient(s.recipients, m) {
        (s, Err(Error::NotMember))
    } else {
        let k = recipient_index(s.recipients, m);
        let (q, r) = handoff_step(s.recipients[k]);
        (with_progress(s, k, q), r)
    }
}

pub open spec fn spec_record_relay_accepted(s: SendV, m: MemberV) -> (SendV, Result<ProgressV, Error>) {
    if !has_recipient(s.recipients, m) {
        (s, Err(Error::NotMember))
    } else {
        let k = recipient_index(s.recipients, m);
        match relay_step(s.recipients[k]) {
            Ok(p) => (with_progress(s, k, p), Ok(p)),
            Err(e) => (s, Err(e)),
        }
    }
}

pub open spec fn spec_cancel_for_roster_change(s: SendV, m: MemberV) -> (SendV, Result<ProgressV, Error>) {
    if !has_recipient(s.recipients, m) {
        (s, Err(Error::NotMember))
    } else {
        let k = recipient_index(s.recipients, m);
        let p = cancel_step(s.recipients[k]);
        (with_progress(s, k, p), Ok(p))
    }
}

/// A newer accepted roster cancels every recipient of an older-revision send.
pub open spec fn spec_cancel_for_newer_roster(s: SendV, revision: u64) -> SendV {
    if s.id.revision >= revision {
        s
    } else {
        SendV { recipients: s.recipients.map_values(|p: ProgressV| cancel_step(p)), ..s }
    }
}

/// The position of `m`'s progress, found in order.
fn find_recipient(rs: &[RecipientProgress], m: &Member) -> (r: Option<usize>)
    ensures
        match r {
            Some(k) => has_recipient(progress_views(rs@), m@) && k == recipient_index(progress_views(rs@), m@)
                && first_recipient_at(progress_views(rs@), m@, k as int),
            None => !has_recipient(progress_views(rs@), m@),
        },
{
    let ghost v = progress_views(rs@);
    let mut i: usize = 0;
    while i < rs.len()
        invariant
            0 <= i <= rs@.len(),
            v == progress_views(rs@),
            forall|j: int| 0 <= j < i ==> (#[trigger] v[j]).recipient != m@,
        decreases rs@.len() - i,
    {
        assert(v[i as int] == rs@[i as int]@);
        if rs[i].recipient.same(m) {
            assert(first_recipient_at(v, m@, i as int));
            let ghost k = recipient_index(v, m@);
            assert(k == i as int) by {
                if k < i {
                    assert(v[k].recipient != m@);
                } else if k > i {
                    assert(v[i as int].recipient != m@);
                }
            }
            return Some(i);
        }
        i = i + 1;
    }
    None
}

/// Settle every unsettled recipient of a progress list.
fn cancel_all(rs: &mut Vec<RecipientProgress>)
    ensures
        progress_views(final(rs)@) == progress_views(old(rs)@).map_values(|p: ProgressV| cancel_step(p)),
{
    let ghost start = progress_views(rs@);
    let mut i: usize = 0;
    while i < rs.len()
        invariant
            0 <= i <= rs@.len(),
            rs@.len() == start.len(),
            forall|j: int| 0 <= j < i ==> (#[trigger] rs@[j])@ == cancel_step(start[j]),
            forall|j: int| i <= j < rs@.len() ==> (#[trigger] rs@[j])@ == start[j],
        decreases rs@.len() - i,
    {
        let mut p = rs.remove(i);
        match p.disposition {
            RecipientDisposition::Pending | RecipientDisposition::Prepared => {
                p.disposition = RecipientDisposition::Cancelled;
            },
            RecipientDisposition::HandedOff => {
                p.disposition = RecipientDisposition::CancelledAfterHandoff;
            },
            _ => {},
        }
        rs.insert(i, p);
        i = i + 1;
    }
    assert(progress_views(rs@) =~= start.map_values(|p: ProgressV| cancel_step(p)));
}

impl RecipientProgress {
    /// The same record, as a fresh value.
    pub fn duplicate(&self) -> (p: RecipientProgress)
        ensures
            p@ == self@,
    {
        RecipientProgress {
            recipient: self.recipient.duplicate(),
            disposition: self.disposition,
            context_commitment: self.context_commitment,
            ciphertext: match &self.ciphertext {
                Some(c) => Some(to_vec(c.as_slice())),
                None => None,
            },
            attempts_reserved: self.attempts_reserved,
        }
    }
}

impl LogicalSend {
    pub fn recipients(&self) -> (r: &[RecipientProgress])
        ensures
            progress_views(r@) == self@.recipients,
    {
        self.recipients.as_slice()
    }

    /// Whether every recipient is settled.
    pub fn is_terminal(&self) -> (t: bool)
        ensures
            t == send_is_terminal(self@),
    {
        let ghost v = self@.recipients;
        let mut i: usize = 0;
        while i < self.recipients.len()
            invariant
                0 <= i <= self.recipients@.len(),
                v == self@.recipients,
                forall|j: int| 0 <= j < i ==> is_settled(#[trigger] v[j].disposition),
            decreases self.recipients@.len() - i,
        {
            assert(v[i as int] == self.recipients@[i as int]@);
            match self.recipients[i].disposition {
                RecipientDisposition::RelayAccepted | RecipientDisposition::Cancelled
                | RecipientDisposition::CancelledAfterHandoff | RecipientDisposition::ExhaustedUnknown => {},
                _ => {
                    assert(!is_settled(v[i as int].disposition));
                    return false;
                },
            }
            i = i + 1;
        }
        true
    }

    /// The exact canonical plaintext to encrypt for `recipient`: the send's
    /// group, revision, digest, sender, sequence and payload, addressed to
    /// that recipient; `NotMember` if the send has no such recipient.
    pub fn application_context(&self, recipient: &Member) -> (r: Result<ApplicationContext, Error>)
        ensures
            ({
                let v = ApplicationContextV {
                    group_id: self@.id.group_id,
                    revision: self@.id.revision,
                    roster_digest: self@.roster_digest,
                    sender: self@.id.sender,
                    recipient: recipient@,
                    logical_sequence: self@.id.sequence,
                    payload: self@.payload,
                };
                match r {
                    Ok(c) => has_recipient(self@.recipients, recipient@) && crate::group::context_error(v) is None
                        && c@ == v,
                    Err(e) => if !has_recipient(self@.recipients, recipient@) {
                        e == Error::NotMember
                    } else {
                        crate::group::context_error(v) == Some(e)
                    },
                }
            }),
    {
        match find_recipient(self.recipients.as_slice(), recipient) {
            None => return Err(Error::NotMember),
            Some(_) => {},
        }
        ApplicationContext::new(
            self.id.group_id,
            self.id.revision,
            self.roster_digest,
            self.id.sender.duplicate(),
            recipient.duplicate(),
            self.id.sequence,
            to_vec(self.payload.as_slice()),
        )
    }

    /// Store a recipient's ciphertext exactly once. An equal retry is safe; a
    /// changed one conflicts rather than silently replacing ratchet output.
    pub fn record_prepared(&mut self, recipient: &Member, context_commitment: [u8; 32], ciphertext: Vec<u8>) -> (r:
        Result<&RecipientProgress, Error>)
        ensures
            final(self)@ == spec_record_prepared(old(self)@, recipient@, context_commitment@, ciphertext@).0,
            match r {
                Ok(p) => spec_record_prepared(old(self)@, recipient@, context_commitment@, ciphertext@).1 == Ok::<
                    ProgressV,
                    Error,
                >(p@),
                Err(e) => spec_record_prepared(old(self)@, recipient@, context_commitment@, ciphertext@).1 == Err::<
                    ProgressV,
                    Error,
                >(e),
            },
    {
        let ghost s = self@;
        let k = match find_recipient(self.recipients.as_slice(), recipient) {
            Some(k) => k,
            None => return Err(Error::NotMember),
        };
        assert(s.recipients[k as int] == self.recipients@[k as int]@);
        match self.recipients[k].disposition {
            RecipientDisposition::Pending => {
                let mut p = self.recipients.remove(k);
                p.context_commitment = Some(context_commitment);
                p.ciphertext = Some(ciphertext);
                p.disposition = RecipientDisposition::Prepared;
                self.recipients.insert(k, p);
                assert(self@.recipients =~= s.recipients.update(k as int, self.recipients@[k as int]@));
                Ok(&self.recipients[k])
            },
            RecipientDisposition::Prepared | RecipientDisposition::HandedOff => {
                let same_commitment = match &self.recipients[k].context_commitment {
                    Some(c) => same_digest(c, &context_commitment),
                    None => false,
                };
                let same_ciphertext = match &self.recipients[k].ciphertext {
                    Some(c) => crate::directory_core::bytes_eq(c.as_slice(), ciphertext.as_slice()),
                    None => false,
                };
                if same_commitment && same_ciphertext {
                    assert(s.recipients.update(k as int, s.recipients[k as int]) =~= s.recipients);
                    Ok(&self.recipients[k])
                } else {
                    Err(Error::Conflict)
                }
            },
            _ => Err(Error::WrongDisposition),
        }
    }

    /// Reserve an attempt and record a transport handoff of the stored
    /// ciphertext. The coordinator commits this state before it performs the
    /// handoff; a later retry only ever receives these bytes.
    pub fn reserve_handoff(&mut self, recipient: &Member) -> (r: Result<&RecipientProgress, Error>)
        ensures
            final(self)@ == spec_reserve_handoff(old(self)@, recipient@).0,
            match r {
                Ok(p) => spec_reserve_handoff(old(self)@, recipient@).1 == Ok::<ProgressV, Error>(p@),
                Err(e) => spec_reserve_handoff(old(self)@, recipient@).1 == Err::<ProgressV, Error>(e),
            },
    {
        let ghost s = self@;
        let k = match find_recipient(self.recipients.as_slice(), recipient) {
            Some(k) => k,
            None => return Err(Error::NotMember),
        };
        assert(s.recipients[k as int] == self.recipients@[k as int]@);
        match self.recipients[k].disposition {
            RecipientDisposition::Prepared | RecipientDisposition::HandedOff => {},
            RecipientDisposition::ExhaustedUnknown => {
                assert(s.recipients.update(k as int, s.recipients[k as int]) =~= s.recipients);
                return Err(Error::RetryExhausted);
            },
            _ => {
                assert(s.recipients.update(k as int, s.recipients[k as int]) =~= s.recipients);
                return Err(Error::WrongDisposition);
            },
        }
        if self.recipients[k].ciphertext.is_none() {
            assert(s.recipients.update(k as int, s.recipients[k as int]) =~= s.recipients);
            return Err(Error::WrongDisposition);
        }
        let mut p = self.recipients.remove(k);
        if p.attempts_reserved >= 3 {
            p.disposition = RecipientDisposition::ExhaustedUnknown;
            self.recipients.insert(k, p);
            assert(self@.recipients =~= s.recipients.update(k as int, self.recipients@[k as int]@));
            return Err(Error::RetryExhausted);
        }
        p.attempts_reserved = p.attempts_reserved + 1;
        p.disposition = if p.attempts_reserved == 3 {
            RecipientDisposition::ExhaustedUnknown
        } else {
            RecipientDisposition::HandedOff
        };
        self.recipients.insert(k, p);
        assert(self@.recipients =~= s.recipients.update(k as int, self.recipients@[k as int]@));
        Ok(&self.recipients[k])
    }

    /// Relay acceptance ends automatic retries; it is not an application
    /// receipt.
    pub fn record_relay_accepted(&mut self, recipient: &Member) -> (r: Result<&RecipientProgress, Error>)
        ensures
            final(self)@ == spec_record_relay_accepted(old(self)@, recipient@).0,
            match r {
                Ok(p) => spec_record_relay_accepted(old(self)@, recipient@).1 == Ok::<ProgressV, Error>(p@),
                Err(e) => spec_record_relay_accepted(old(self)@, recipient@).1 == Err::<ProgressV, Error>(e),
            },
    {
        let ghost s = self@;
        let k = match find_recipient(self.recipients.as_slice(), recipient) {
            Some(k) => k,
            None => return Err(Error::NotMember),
        };
        assert(s.recipients[k as int] == self.recipients@[k as int]@);
        if self.recipients[k].disposition != RecipientDisposition::HandedOff {
            return Err(Error::WrongDisposition);
        }
        let mut p = self.recipients.remove(k);
        p.disposition = RecipientDisposition::RelayAccepted;
        self.recipients.insert(k, p);
        assert(self@.recipients =~= s.recipients.update(k as int, self.recipients@[k as int]@));
        Ok(&self.recipients[k])
    }

    /// Cancel a recipient whose context became obsolete. Handoff evidence
    /// remains, but no further automatic retry of the old context happens.
    pub fn cancel_for_roster_change(&mut self, removed: &Member) -> (r: Result<&RecipientProgress, Error>)
        ensures
            final(self)@ == spec_cancel_for_roster_change(old(self)@, removed@).0,
            match r {
                Ok(p) => spec_cancel_for_roster_change(old(self)@, removed@).1 == Ok::<ProgressV, Error>(p@),
                Err(e) => spec_cancel_for_roster_change(old(self)@, removed@).1 == Err::<ProgressV, Error>(e),
            },
    {
        let ghost s = self@;
        let k = match find_recipient(self.recipients.as_slice(), removed) {
            Some(k) => k,
            None => return Err(Error::NotMember),
        };
        assert(s.recipients[k as int] == self.recipients@[k as int]@);
        let mut p = self.recipients.remove(k);
        match p.disposition {
            RecipientDisposition::Pending | RecipientDisposition::Prepared => {
                p.disposition = RecipientDisposition::Cancelled;
            },
            RecipientDisposition::HandedOff => {
                p.disposition = RecipientDisposition::CancelledAfterHandoff;
            },
            _ => {},
        }
        self.recipients.insert(k, p);
        assert(self@.recipients =~= s.recipients.update(k as int, self.recipients@[k as int]@));
        Ok(&self.recipients[k])
    }

    /// Stop every unsettled recipient after a newer revision was accepted.
    pub fn cancel_for_newer_roster(&mut self, revision: u64)
        ensures
            final(self)@ == spec_cancel_for_newer_roster(old(self)@, revision),
    {
        if self.id.revision >= revision {
            return;
        }
        cancel_all(&mut self.recipients);
    }
}


/// The members a list of progress records is for.
pub open spec fn recipient_members(rs: Seq<ProgressV>) -> Seq<MemberV> {
    rs.map_values(|p: ProgressV| p.recipient)
}

/// The first violation in a recipient list from position `i` on: when
/// `roster_members` is checked, each recipient must be one of them; each
/// must sort strictly after its predecessor, and no identity may repeat.
pub open spec fn recipients_error(
    roster_members: Seq<MemberV>,
    check_membership: bool,
    rs: Seq<MemberV>,
    i: nat,
) -> Option<Error>
    decreases rs.len() - i,
{
    if i >= rs.len() {
        None
    } else if check_membership && !roster_members.contains(rs[i as int]) {
        Some(Error::NotMember)
    } else if i > 0 && !lex_lt(sort_key(rs[i - 1]), sort_key(rs[i as int])) {
        Some(Error::NonCanonical)
    } else if crate::group::repeats_identity(rs, i as int) {
        Some(Error::NonCanonical)
    } else {
        recipients_error(roster_members, check_membership, rs, i + 1)
    }
}

/// Check a recipient list, optionally against a roster's members.
fn validate_recipients(roster_members: &[Member], check_membership: bool, rs: &[Member]) -> (r: Result<(), Error>)
    ensures
        match r {
            Ok(_) => recipients_error(member_views(roster_members@), check_membership, member_views(rs@), 0) is None,
            Err(e) => recipients_error(member_views(roster_members@), check_membership, member_views(rs@), 0) == Some(
                e,
            ),
        },
{
    let ghost v = member_views(rs@);
    let ghost rm = member_views(roster_members@);
    let mut i: usize = 0;
    while i < rs.len()
        invariant
            0 <= i <= rs@.len(),
            v == member_views(rs@),
            rm == member_views(roster_members@),
            recipients_error(rm, check_membership, v, 0) == recipients_error(rm, check_membership, v, i as nat),
        decreases rs@.len() - i,
    {
        assert(v[i as int] == rs@[i as int]@);
        if check_membership && !crate::group::contains_member(roster_members, &rs[i]) {
            return Err(Error::NotMember);
        }
        if i > 0 {
            assert(v[i - 1] == rs@[i - 1]@);
            if !rs[i - 1].sorts_before(&rs[i]) {
                return Err(Error::NonCanonical);
            }
        }
        let mut j: usize = 0;
        while j < i
            invariant
                0 <= j <= i < rs@.len(),
                v == member_views(rs@),
                rm == member_views(roster_members@),
                recipients_error(rm, check_membership, v, 0) == recipients_error(rm, check_membership, v, i as nat),
                !(check_membership && !rm.contains(v[i as int])),
                i > 0 ==> lex_lt(sort_key(v[i - 1]), sort_key(v[i as int])),
                forall|k: int| 0 <= k < j ==> (#[trigger] v[k]).identity != v[i as int].identity,
            decreases i - j,
        {
            assert(v[j as int] == rs@[j as int]@);
            if crate::directory_core::bytes_eq(rs[j].identity(), rs[i].identity()) {
                assert(crate::group::repeats_identity(v, i as int));
                assert(recipients_error(rm, check_membership, v, i as nat) == Some(Error::NonCanonical));
                return Err(Error::NonCanonical);
            }
            j = j + 1;
        }
        assert(!crate::group::repeats_identity(v, i as int));
        i = i + 1;
    }
    Ok(())
}

/// Fresh, pending progress for each recipient.
fn pending_progress(recipients: Vec<Member>) -> (ps: Vec<RecipientProgress>)
    ensures
        progress_views(ps@) == member_views(recipients@).map_values(|m: MemberV| pending(m)),
{
    let mut ps: Vec<RecipientProgress> = Vec::new();
    let mut i: usize = 0;
    while i < recipients.len()
        invariant
            0 <= i <= recipients@.len(),
            ps@.len() == i,
            forall|j: int| 0 <= j < i ==> (#[trigger] ps@[j])@ == pending(recipients@[j]@),
        decreases recipients@.len() - i,
    {
        ps.push(
            RecipientProgress {
                recipient: recipients[i].duplicate(),
                disposition: RecipientDisposition::Pending,
                context_commitment: None,
                ciphertext: None,
                attempts_reserved: 0,
            },
        );
        i = i + 1;
    }
    assert(progress_views(ps@) =~= member_views(recipients@).map_values(|m: MemberV| pending(m)));
    ps
}

/// A new logical send, fixing its group, revision, sender, sequence,
/// payload and recipient set before any per-recipient work.
pub open spec fn spec_new_send(
    roster: RosterV,
    roster_digest: Seq<u8>,
    sender: MemberV,
    sequence: u64,
    recipients: Seq<MemberV>,
    payload: Seq<u8>,
) -> Result<SendV, Error> {
    if roster.closed {
        Err(Error::Closed)
    } else if roster.revision == RESERVED_REVISION {
        Err(Error::ReservedRevision)
    } else if !roster.members.contains(sender) {
        Err(Error::NotMember)
    } else if recipients.len() == 0 {
        Err(Error::EmptyRecipients)
    } else if payload.len() > MAX_PAYLOAD_LEN {
        Err(Error::PayloadTooLarge)
    } else if recipients_error(roster.members, true, recipients, 0) is Some {
        Err(recipients_error(roster.members, true, recipients, 0).unwrap())
    } else {
        Ok(
            SendV {
                id: MessageIdV { group_id: roster.group_id, revision: roster.revision, sender, sequence },
                roster_digest,
                payload,
                recipients: recipients.map_values(|m: MemberV| pending(m)),
            },
        )
    }
}

/// The logical send's domain string.
pub open spec fn send_domain() -> Seq<u8> {
    vstd::utf8::encode_utf8("Tacenta Group Logical Send v1"@)
}

fn send_domain_bytes() -> (d: &'static [u8])
    ensures
        d@ == send_domain(),
        d@.len() == 29,
{
    proof {
        reveal_strlit("Tacenta Group Logical Send v1");
        vstd::utf8::is_ascii_chars_encode_utf8("Tacenta Group Logical Send v1"@);
    }
    "Tacenta Group Logical Send v1".as_bytes()
}

/// A binding's fields fit `u32` lengths.
pub open spec fn member_fits(m: MemberV) -> bool {
    m.identity.len() <= u32::MAX && m.device.len() <= u32::MAX
}

/// Every field of the intent fits its length prefix.
pub open spec fn intent_fits(s: SendV) -> bool {
    &&& s.recipients.len() <= u32::MAX
    &&& s.id.group_id.len() <= u32::MAX
    &&& member_fits(s.id.sender)
    &&& s.roster_digest.len() <= u32::MAX
    &&& s.payload.len() <= u32::MAX
    &&& forall|i: int| 0 <= i < s.recipients.len() ==> member_fits(#[trigger] s.recipients[i].recipient)
}

/// The canonical immutable intent: the domain, the logical identifier, the
/// roster digest, the payload and the recipient bindings, and no progress.
pub open spec fn intent_bytes(s: SendV) -> Seq<u8> {
    send_domain() + lp(s.id.group_id) + be64(s.id.revision) + member_bytes(s.id.sender) + be64(s.id.sequence) + lp(
        s.roster_digest,
    ) + lp(s.payload) + be32(s.recipients.len() as u32) + members_bytes(recipient_members(s.recipients))
}

fn put_member_fitting(out: &mut Vec<u8>, m: &Member)
    requires
        member_fits(m@),
    ensures
        final(out)@ == old(out)@ + member_bytes(m@),
{
    let ghost start = out@;
    put_bytes(out, m.identity());
    put_bytes(out, m.device());
    assert(out@ =~= start + member_bytes(m@));
}

fn put_recipients(out: &mut Vec<u8>, rs: &[RecipientProgress])
    requires
        forall|i: int| 0 <= i < rs@.len() ==> member_fits(#[trigger] rs@[i].recipient@),
    ensures
        final(out)@ == old(out)@ + members_bytes(recipient_members(progress_views(rs@))),
{
    let ghost start = out@;
    let ghost v = recipient_members(progress_views(rs@));
    let mut i: usize = 0;
    proof {
        crate::group::lemma_members_bytes_unfold(v.take(0));
    }
    assert(out@ =~= start + members_bytes(v.take(0)));
    while i < rs.len()
        invariant
            0 <= i <= rs@.len(),
            v == recipient_members(progress_views(rs@)),
            forall|j: int| 0 <= j < rs@.len() ==> member_fits(#[trigger] rs@[j].recipient@),
            out@ == start + members_bytes(v.take(i as int)),
        decreases rs@.len() - i,
    {
        assert(v[i as int] == rs@[i as int].recipient@);
        proof {
            crate::group::lemma_members_bytes_push(v.take(i as int), v[i as int]);
            assert(v.take(i + 1) =~= v.take(i as int).push(v[i as int]));
        }
        put_member_fitting(out, &rs[i].recipient);
        i = i + 1;
        assert(out@ =~= start + members_bytes(v.take(i as int)));
    }
    assert(v.take(i as int) =~= v);
}

impl LogicalSend {
    /// Allocate a logical send against an accepted roster: the group must be
    /// open, the sender a member, the recipients a non-empty, canonical list
    /// of members, and the payload within bounds.
    pub fn new(
        roster: &Roster,
        roster_digest: [u8; 32],
        sender: Member,
        sequence: u64,
        recipients: Vec<Member>,
        payload: Vec<u8>,
    ) -> (r: Result<LogicalSend, Error>)
        ensures
            match r {
                Ok(s) => spec_new_send(
                    roster@,
                    roster_digest@,
                    sender@,
                    sequence,
                    member_views(recipients@),
                    payload@,
                ) == Ok::<SendV, Error>(s@),
                Err(e) => spec_new_send(
                    roster@,
                    roster_digest@,
                    sender@,
                    sequence,
                    member_views(recipients@),
                    payload@,
                ) == Err::<SendV, Error>(e),
            },
    {
        if roster.closed {
            return Err(Error::Closed);
        }
        if roster.revision == RESERVED_REVISION {
            return Err(Error::ReservedRevision);
        }
        if !crate::group::contains_member(roster.members.as_slice(), &sender) {
            return Err(Error::NotMember);
        }
        if recipients.len() == 0 {
            return Err(Error::EmptyRecipients);
        }
        if payload.len() > MAX_PAYLOAD_LEN {
            return Err(Error::PayloadTooLarge);
        }
        match validate_recipients(roster.members.as_slice(), true, recipients.as_slice()) {
            Err(e) => return Err(e),
            Ok(_) => {},
        }
        let id = LogicalMessageId { group_id: roster.group_id, revision: roster.revision, sender, sequence };
        Ok(LogicalSend { id, roster_digest, payload, recipients: pending_progress(recipients) })
    }

    /// The canonical immutable intent that commits this logical identifier
    /// before any recipient-specific work; `Malformed` if a field is too long
    /// for its length prefix.
    pub fn encode_intent(&self) -> (r: Result<Vec<u8>, Error>)
        ensures
            match r {
                Ok(b) => intent_fits(self@) && b@ == intent_bytes(self@),
                Err(e) => !intent_fits(self@) && e == Error::Malformed,
            },
    {
        let ghost v = self@;
        if self.recipients.len() > 0xffff_ffffusize || self.id.sender.identity().len() > 0xffff_ffffusize
            || self.id.sender.device().len() > 0xffff_ffffusize || self.payload.len() > 0xffff_ffffusize {
            return Err(Error::Malformed);
        }
        let mut i: usize = 0;
        while i < self.recipients.len()
            invariant
                0 <= i <= self.recipients@.len(),
                v == self@,
                forall|j: int| 0 <= j < i ==> member_fits(#[trigger] self.recipients@[j].recipient@),
            decreases self.recipients@.len() - i,
        {
            if self.recipients[i].recipient.identity().len() > 0xffff_ffffusize
                || self.recipients[i].recipient.device().len() > 0xffff_ffffusize {
                assert(v.recipients[i as int] == self.recipients@[i as int]@);
                assert(!member_fits(v.recipients[i as int].recipient));
                return Err(Error::Malformed);
            }
            i = i + 1;
        }
        assert forall|j: int| 0 <= j < v.recipients.len() implies member_fits(#[trigger] v.recipients[j].recipient) by {
            assert(v.recipients[j] == self.recipients@[j]@);
        }
        let mut out = Vec::new();
        extend(&mut out, send_domain_bytes());
        put_bytes(&mut out, self.id.group_id.as_bytes().as_slice());
        put_u64(&mut out, self.id.revision);
        put_member_fitting(&mut out, &self.id.sender);
        put_u64(&mut out, self.id.sequence);
        put_bytes(&mut out, self.roster_digest.as_slice());
        put_bytes(&mut out, self.payload.as_slice());
        put_u32(&mut out, self.recipients.len() as u32);
        put_recipients(&mut out, self.recipients.as_slice());
        assert(out@ =~= intent_bytes(self@));
        Ok(out)
    }

    /// Whether `candidate` has the same identifier, digest, payload and
    /// recipient list: the fields a logical send can never change.
    pub fn same_immutable_fields(&self, candidate: &LogicalSend) -> (eq: bool)
        ensures
            eq == same_immutable(self@, candidate@),
    {
        if !self.id.same(&candidate.id) || !same_digest(&self.roster_digest, &candidate.roster_digest)
            || !crate::directory_core::bytes_eq(self.payload.as_slice(), candidate.payload.as_slice()) {
            return false;
        }
        if self.recipients.len() != candidate.recipients.len() {
            assert(recipient_members(self@.recipients).len() != recipient_members(candidate@.recipients).len());
            return false;
        }
        let mut i: usize = 0;
        while i < self.recipients.len()
            invariant
                0 <= i <= self.recipients@.len(),
                self.recipients@.len() == candidate.recipients@.len(),
                forall|j: int| 0 <= j < i ==> (#[trigger] self.recipients@[j]).recipient@
                    == candidate.recipients@[j].recipient@,
            decreases self.recipients@.len() - i,
        {
            if !self.recipients[i].recipient.same(&candidate.recipients[i].recipient) {
                assert(recipient_members(self@.recipients)[i as int] != recipient_members(
                    candidate@.recipients,
                )[i as int]);
                return false;
            }
            i = i + 1;
        }
        assert(recipient_members(self@.recipients) =~= recipient_members(candidate@.recipients));
        true
    }

    /// The same send, as a fresh value.
    pub fn duplicate(&self) -> (s: LogicalSend)
        ensures
            s@ == self@,
    {
        let mut recipients: Vec<RecipientProgress> = Vec::new();
        let mut i: usize = 0;
        while i < self.recipients.len()
            invariant
                0 <= i <= self.recipients@.len(),
                recipients@.len() == i,
                forall|j: int| 0 <= j < i ==> (#[trigger] recipients@[j])@ == self.recipients@[j]@,
            decreases self.recipients@.len() - i,
        {
            recipients.push(self.recipients[i].duplicate());
            i = i + 1;
        }
        assert(progress_views(recipients@) =~= progress_views(self.recipients@));
        LogicalSend {
            id: self.id.duplicate(),
            roster_digest: self.roster_digest,
            payload: to_vec(self.payload.as_slice()),
            recipients,
        }
    }
}

/// Two sends agree on every field a logical send can never change.
pub open spec fn same_immutable(a: SendV, b: SendV) -> bool {
    &&& a.id == b.id
    &&& a.roster_digest == b.roster_digest
    &&& a.payload == b.payload
    &&& recipient_members(a.recipients) == recipient_members(b.recipients)
}

/// The intent commits to the immutable fields only: two sends that agree on
/// them have the same intent, whatever their recipients' progress.
pub proof fn law_intent_excludes_recipient_progress(a: SendV, b: SendV)
    requires
        same_immutable(a, b),
    ensures
        intent_bytes(a) == intent_bytes(b),
        intent_fits(a) == intent_fits(b),
{
    assert(a.recipients.len() == recipient_members(a.recipients).len());
    assert(b.recipients.len() == recipient_members(b.recipients).len());
    assert forall|i: int| 0 <= i < a.recipients.len() implies a.recipients[i].recipient == b.recipients[i].recipient by {
        assert(recipient_members(a.recipients)[i] == recipient_members(b.recipients)[i]);
    }
}


/// A member with progress somewhere has a first position.
proof fn lemma_first_recipient_exists(rs: Seq<ProgressV>, m: MemberV, i: int)
    requires
        0 <= i < rs.len(),
        rs[i].recipient == m,
    ensures
        first_recipient_at(rs, m, recipient_index(rs, m)),
    decreases i,
{
    if exists|j: int| 0 <= j < i && (#[trigger] rs[j]).recipient == m {
        let j = choose|j: int| 0 <= j < i && (#[trigger] rs[j]).recipient == m;
        lemma_first_recipient_exists(rs, m, j);
    } else {
        assert(first_recipient_at(rs, m, i));
    }
}

/// Replacing one recipient's progress by progress for the same member keeps
/// the immutable fields.
proof fn lemma_with_progress_keeps_immutable(s: SendV, k: int, p: ProgressV)
    requires
        0 <= k < s.recipients.len(),
        p.recipient == s.recipients[k].recipient,
    ensures
        same_immutable(s, with_progress(s, k, p)),
{
    assert(recipient_members(with_progress(s, k, p).recipients) =~= recipient_members(s.recipients));
}

/// Every progress operation keeps a send's immutable fields, and so its
/// intent bytes: preparing, reserving a handoff, recording relay acceptance
/// and either cancellation change recipient progress only.
pub proof fn law_progress_keeps_the_intent(s: SendV, m: MemberV, commitment: Seq<u8>, ciphertext: Seq<u8>, revision: u64)
    ensures
        same_immutable(s, spec_record_prepared(s, m, commitment, ciphertext).0),
        same_immutable(s, spec_reserve_handoff(s, m).0),
        same_immutable(s, spec_record_relay_accepted(s, m).0),
        same_immutable(s, spec_cancel_for_roster_change(s, m).0),
        same_immutable(s, spec_cancel_for_newer_roster(s, revision)),
        intent_bytes(spec_record_prepared(s, m, commitment, ciphertext).0) == intent_bytes(s),
        intent_bytes(spec_reserve_handoff(s, m).0) == intent_bytes(s),
        intent_bytes(spec_record_relay_accepted(s, m).0) == intent_bytes(s),
        intent_bytes(spec_cancel_for_roster_change(s, m).0) == intent_bytes(s),
        intent_bytes(spec_cancel_for_newer_roster(s, revision)) == intent_bytes(s),
{
    if has_recipient(s.recipients, m) {
        let i = choose|i: int| 0 <= i < s.recipients.len() && (#[trigger] s.recipients[i]).recipient == m;
        lemma_first_recipient_exists(s.recipients, m, i);
        let k = recipient_index(s.recipients, m);
        let q = s.recipients[k];
        match prepare_step(q, commitment, ciphertext) {
            Ok(p) => lemma_with_progress_keeps_immutable(s, k, p),
            Err(_) => {},
        }
        lemma_with_progress_keeps_immutable(s, k, handoff_step(q).0);
        match relay_step(q) {
            Ok(p) => lemma_with_progress_keeps_immutable(s, k, p),
            Err(_) => {},
        }
        lemma_with_progress_keeps_immutable(s, k, cancel_step(q));
    }
    let c = spec_cancel_for_newer_roster(s, revision);
    assert(recipient_members(c.recipients) =~= recipient_members(s.recipients));
    law_intent_excludes_recipient_progress(s, spec_record_prepared(s, m, commitment, ciphertext).0);
    law_intent_excludes_recipient_progress(s, spec_reserve_handoff(s, m).0);
    law_intent_excludes_recipient_progress(s, spec_record_relay_accepted(s, m).0);
    law_intent_excludes_recipient_progress(s, spec_cancel_for_roster_change(s, m).0);
    law_intent_excludes_recipient_progress(s, c);
}

/// Decoding an intent from its roster digest on.
#[verifier::opaque]
pub open spec fn decode_intent_tail(group_id: Seq<u8>, revision: u64, sender: MemberV, sequence: u64, s: Seq<u8>) -> Result<
    SendV,
    Error,
> {
    match lp_field(s) {
        Err(e) => Err(e),
        Ok((d, r5)) => if d.len() != 32 {
            Err(Error::Malformed)
        } else {
            match lp_field(r5) {
                Err(e) => Err(e),
                Ok((payload, r6)) => if payload.len() > MAX_PAYLOAD_LEN {
                    Err(Error::PayloadTooLarge)
                } else {
                    match u32_field(r6) {
                        Err(e) => Err(e),
                        Ok((count, r7)) => if count == 0 {
                            Err(Error::EmptyRecipients)
                        } else if count > MAX_MEMBERS {
                            Err(Error::TooManyMembers)
                        } else {
                            match members_field(count as nat, r7) {
                                Err(e) => Err(e),
                                Ok((ms, r8)) => if r8.len() > 0 {
                                    Err(Error::Malformed)
                                } else if recipients_error(Seq::empty(), false, ms, 0) is Some {
                                    Err(recipients_error(Seq::empty(), false, ms, 0).unwrap())
                                } else if revision == RESERVED_REVISION {
                                    Err(Error::ReservedRevision)
                                } else {
                                    Ok(
                                        SendV {
                                            id: MessageIdV { group_id, revision, sender, sequence },
                                            roster_digest: d,
                                            payload,
                                            recipients: ms.map_values(|m: MemberV| pending(m)),
                                        },
                                    )
                                },
                            }
                        },
                    }
                },
            }
        },
    }
}

/// Decoding a canonical intent: the domain, a sixteen-byte group
/// identifier, the revision, the sender, the sequence, then the tail; every
/// recipient comes back pending.
pub open spec fn decode_intent_spec(b: Seq<u8>) -> Result<SendV, Error> {
    match domain_field(b, send_domain()) {
        Err(e) => Err(e),
        Ok(r0) => match lp_field(r0) {
            Err(e) => Err(e),
            Ok((g, r1)) => if g.len() != 16 {
                Err(Error::Malformed)
            } else {
                match u64_field(r1) {
                    Err(e) => Err(e),
                    Ok((revision, r2)) => match member_field(r2) {
                        Err(e) => Err(e),
                        Ok((sender, r3)) => match u64_field(r3) {
                            Err(e) => Err(e),
                            Ok((sequence, r4)) => decode_intent_tail(g, revision, sender, sequence, r4),
                        },
                    },
                }
            },
        },
    }
}

fn decode_intent_rest(group_id: GroupId, revision: u64, sender: Member, sequence: u64, input: &[u8]) -> (r: Result<
    LogicalSend,
    Error,
>)
    ensures
        match r {
            Ok(s) => decode_intent_tail(group_id@, revision, sender@, sequence, input@) == Ok::<SendV, Error>(s@),
            Err(e) => decode_intent_tail(group_id@, revision, sender@, sequence, input@) == Err::<SendV, Error>(e),
        },
{
    proof {
        reveal(decode_intent_tail);
    }
    let (d, r5) = match take_lp(input) {
        Ok(p) => p,
        Err(e) => return Err(e),
    };
    if d.len() != 32 {
        return Err(Error::Malformed);
    }
    let roster_digest = crate::group::array32(d.as_slice());
    let (payload, r6) = match take_lp(r5) {
        Ok(p) => p,
        Err(e) => return Err(e),
    };
    if payload.len() > MAX_PAYLOAD_LEN {
        return Err(Error::PayloadTooLarge);
    }
    let (count, r7) = match take_u32_field(r6) {
        Ok(p) => p,
        Err(e) => return Err(e),
    };
    if count == 0 {
        return Err(Error::EmptyRecipients);
    }
    if count > 8 {
        return Err(Error::TooManyMembers);
    }
    let (members, r8) = match take_members(count, r7) {
        Ok(p) => p,
        Err(e) => return Err(e),
    };
    if r8.len() > 0 {
        return Err(Error::Malformed);
    }
    let none: Vec<Member> = Vec::new();
    assert(member_views(none@) =~= Seq::<MemberV>::empty());
    match validate_recipients(none.as_slice(), false, members.as_slice()) {
        Err(e) => return Err(e),
        Ok(_) => {},
    }
    let id = match LogicalMessageId::new(group_id, revision, sender, sequence) {
        Ok(id) => id,
        Err(e) => return Err(e),
    };
    Ok(LogicalSend { id, roster_digest, payload, recipients: pending_progress(members) })
}

impl LogicalSend {
    /// Recover one immutable logical send from its canonical intent. The
    /// recipients' progress is not part of it: every recipient comes back
    /// pending, and recovery replays later records on top.
    pub fn decode_intent(bytes: &[u8]) -> (r: Result<LogicalSend, Error>)
        ensures
            match r {
                Ok(s) => decode_intent_spec(bytes@) == Ok::<SendV, Error>(s@),
                Err(e) => decode_intent_spec(bytes@) == Err::<SendV, Error>(e),
            },
    {
        let r0 = match take_domain(bytes, send_domain_bytes()) {
            Ok(rest) => rest,
            Err(e) => return Err(e),
        };
        let (g, r1) = match take_lp(r0) {
            Ok(p) => p,
            Err(e) => return Err(e),
        };
        let group_id = match GroupId::from_slice(g.as_slice()) {
            Ok(id) => id,
            Err(e) => return Err(e),
        };
        let (revision, r2) = match take_u64_field(r1) {
            Ok(p) => p,
            Err(e) => return Err(e),
        };
        let (sender, r3) = match take_member(r2) {
            Ok(p) => p,
            Err(e) => return Err(e),
        };
        let (sequence, r4) = match take_u64_field(r3) {
            Ok(p) => p,
            Err(e) => return Err(e),
        };
        decode_intent_rest(group_id, revision, sender, sequence, r4)
    }
}

/// The same send with every recipient pending.
pub open spec fn pending_send(s: SendV) -> SendV {
    SendV { recipients: recipient_members(s.recipients).map_values(|m: MemberV| pending(m)), ..s }
}

/// What an intent may hold: a sixteen-byte group, a valid sender, a
/// thirty-two-byte digest, a bounded payload, one to eight valid,
/// canonical recipients, and a usable revision.
pub open spec fn intent_valid(s: SendV) -> bool {
    let rms = recipient_members(s.recipients);
    &&& s.id.group_id.len() == 16
    &&& member_error(s.id.sender) is None
    &&& s.roster_digest.len() == 32
    &&& s.payload.len() <= MAX_PAYLOAD_LEN
    &&& 1 <= rms.len() <= MAX_MEMBERS
    &&& crate::group::members_ok(rms)
    &&& recipients_error(Seq::empty(), false, rms, 0) is None
    &&& s.id.revision != RESERVED_REVISION
}

/// Every field of an intent within its bounds, leaving the recipients'
/// order aside.
pub open spec fn intent_shape_valid(s: SendV) -> bool {
    let rms = recipient_members(s.recipients);
    &&& s.id.group_id.len() == 16
    &&& member_error(s.id.sender) is None
    &&& s.roster_digest.len() == 32
    &&& s.payload.len() <= MAX_PAYLOAD_LEN
    &&& 1 <= rms.len() <= MAX_MEMBERS
    &&& crate::group::members_ok(rms)
    &&& s.id.revision != RESERVED_REVISION
}

/// Without the membership check, the only fault a recipient list can have
/// is its order.
proof fn lemma_unchecked_recipients_error_is_order(rm: Seq<MemberV>, rs: Seq<MemberV>, i: nat)
    ensures
        recipients_error(rm, false, rs, i) is Some ==> recipients_error(rm, false, rs, i) == Some(Error::NonCanonical),
    decreases rs.len() - i,
{
    if i < rs.len() {
        lemma_unchecked_recipients_error_is_order(rm, rs, i + 1);
    }
}

/// A valid intent decodes from its canonical bytes to the same send with
/// every recipient pending.
pub proof fn law_intent_round_trips(s: SendV)
    requires
        intent_valid(s),
    ensures
        decode_intent_spec(intent_bytes(s)) == Ok::<SendV, Error>(pending_send(s)),
{
    lemma_intent_decodes(s);
}

/// What every field but the recipients' order allows decodes to the pending
/// send when that order is canonical, and is refused as `NonCanonical`
/// otherwise.
#[verifier::spinoff_prover]
#[verifier::rlimit(40)]
proof fn lemma_intent_decodes(s: SendV)
    requires
        intent_shape_valid(s),
    ensures
        decode_intent_spec(intent_bytes(s)) == if recipients_error(
            Seq::empty(),
            false,
            recipient_members(s.recipients),
            0,
        ) is None {
            Ok::<SendV, Error>(pending_send(s))
        } else {
            Err::<SendV, Error>(Error::NonCanonical)
        },
{
    lemma_unchecked_recipients_error_is_order(Seq::empty(), recipient_members(s.recipients), 0);
    reveal(decode_intent_tail);
    let rms = recipient_members(s.recipients);
    let d = send_domain();
    let t8 = members_bytes(rms);
    let t7 = be32(s.recipients.len() as u32) + t8;
    let t6 = lp(s.payload) + t7;
    let t5 = lp(s.roster_digest) + t6;
    let t4 = be64(s.id.sequence) + t5;
    let t3 = member_bytes(s.id.sender) + t4;
    let t2 = be64(s.id.revision) + t3;
    let t1 = lp(s.id.group_id) + t2;
    assert(intent_bytes(s) =~= d + t1);
    assert((d + t1).take(d.len() as int) =~= d);
    assert((d + t1).skip(d.len() as int) =~= t1);
    lemma_take_bytes_of(s.id.group_id, t2);
    lemma_take_u64_of(s.id.revision, t3);
    crate::group::lemma_member_field_of(s.id.sender, t4);
    lemma_take_u64_of(s.id.sequence, t5);
    lemma_take_bytes_of(s.roster_digest, t6);
    lemma_take_bytes_of(s.payload, t7);
    lemma_take_u32_of(s.recipients.len() as u32, t8);
    crate::group::lemma_members_field_of(rms, Seq::empty());
    assert(t8 + Seq::<u8>::empty() =~= t8);
}

/// A valid intent's canonical bytes with one more byte after them are
/// refused as malformed.
#[verifier::spinoff_prover]
#[verifier::rlimit(40)]
pub proof fn law_intent_refuses_a_trailing_byte(s: SendV, x: u8)
    requires
        intent_valid(s),
    ensures
        decode_intent_spec(intent_bytes(s) + seq![x]) == Err::<SendV, Error>(Error::Malformed),
{
    reveal(decode_intent_tail);
    let extra = seq![x];
    let rms = recipient_members(s.recipients);
    let d = send_domain();
    let t8 = members_bytes(rms) + extra;
    let t7 = be32(s.recipients.len() as u32) + t8;
    let t6 = lp(s.payload) + t7;
    let t5 = lp(s.roster_digest) + t6;
    let t4 = be64(s.id.sequence) + t5;
    let t3 = member_bytes(s.id.sender) + t4;
    let t2 = be64(s.id.revision) + t3;
    let t1 = lp(s.id.group_id) + t2;
    assert(intent_bytes(s) + extra =~= d + t1);
    assert((d + t1).take(d.len() as int) =~= d);
    assert((d + t1).skip(d.len() as int) =~= t1);
    lemma_take_bytes_of(s.id.group_id, t2);
    lemma_take_u64_of(s.id.revision, t3);
    crate::group::lemma_member_field_of(s.id.sender, t4);
    lemma_take_u64_of(s.id.sequence, t5);
    lemma_take_bytes_of(s.roster_digest, t6);
    lemma_take_bytes_of(s.payload, t7);
    lemma_take_u32_of(s.recipients.len() as u32, t8);
    crate::group::lemma_members_field_of(rms, extra);
}

/// What the tail of a decodable intent is made of.
#[verifier::spinoff_prover]
#[verifier::rlimit(40)]
proof fn lemma_intent_tail_canonical(group_id: Seq<u8>, revision: u64, sender: MemberV, sequence: u64, r4: Seq<u8>)
    requires
        decode_intent_tail(group_id, revision, sender, sequence, r4) is Ok,
    ensures
        ({
            let s = decode_intent_tail(group_id, revision, sender, sequence, r4)->Ok_0;
            &&& r4 == lp(s.roster_digest) + lp(s.payload) + be32(s.recipients.len() as u32) + members_bytes(
                recipient_members(s.recipients),
            )
            &&& s.id == (MessageIdV { group_id, revision, sender, sequence })
            &&& s.roster_digest.len() == 32
            &&& s.payload.len() <= MAX_PAYLOAD_LEN
            &&& 1 <= recipient_members(s.recipients).len() <= MAX_MEMBERS
            &&& crate::group::members_ok(recipient_members(s.recipients))
            &&& recipients_error(Seq::empty(), false, recipient_members(s.recipients), 0) is None
            &&& revision != RESERVED_REVISION
        }),
{
    reveal(decode_intent_tail);
    lemma_take_bytes_inv(r4);
    let (dg, r5) = take_bytes_spec(r4).unwrap();
    lemma_take_bytes_inv(r5);
    let (payload, r6) = take_bytes_spec(r5).unwrap();
    lemma_take_u32_inv(r6);
    let (count, r7) = take_u32_spec(r6).unwrap();
    crate::group::lemma_members_field_inv(count as nat, r7);
    let (ms, r8) = members_field(count as nat, r7)->Ok_0;
    let s = decode_intent_tail(group_id, revision, sender, sequence, r4)->Ok_0;
    assert(recipient_members(s.recipients) =~= ms);
    assert(r8 =~= Seq::<u8>::empty());
    assert(r4 =~= lp(dg) + lp(payload) + be32(count) + members_bytes(ms));
}

/// Decoding is canonical: whatever decodes is exactly the intent of the send
/// it decodes to.
#[verifier::spinoff_prover]
#[verifier::rlimit(80)]
pub proof fn law_intent_encoding_is_canonical(b: Seq<u8>)
    requires
        decode_intent_spec(b) is Ok,
    ensures
        intent_bytes(decode_intent_spec(b)->Ok_0) == b,
        intent_valid(decode_intent_spec(b)->Ok_0),
{
    let d = send_domain();
    let r0 = b.skip(d.len() as int);
    assert(b =~= d + r0);
    lemma_take_bytes_inv(r0);
    let (g, r1) = take_bytes_spec(r0).unwrap();
    lemma_take_u64_inv(r1);
    let (revision, r2) = take_u64_spec(r1).unwrap();
    crate::group::lemma_member_field_inv(r2);
    let (sender, r3) = member_field(r2)->Ok_0;
    lemma_take_u64_inv(r3);
    let (sequence, r4) = take_u64_spec(r3).unwrap();
    lemma_intent_tail_canonical(g, revision, sender, sequence, r4);
    let s = decode_intent_spec(b)->Ok_0;
    assert(b =~= intent_bytes(s));
}

/// Whether recording an intent inserted a new record or met the same record
/// already held.
#[derive(Clone, Copy, Debug, PartialEq, Eq, Structural)]
pub enum OutboxDisposition {
    Inserted,
    Duplicate,
}

/// The durable, bounded set of one group's logical sends.
#[derive(Clone, Debug, PartialEq, Eq)]
pub struct GroupOutbox {
    group_id: GroupId,
    sends: Vec<LogicalSend>,
}

/// An outbox as a value.
pub struct OutboxV {
    pub group_id: Seq<u8>,
    pub sends: Seq<SendV>,
}

/// The views of a list of sends.
pub open spec fn send_views(ss: Seq<LogicalSend>) -> Seq<SendV> {
    ss.map_values(|s: LogicalSend| s@)
}

impl View for GroupOutbox {
    type V = OutboxV;

    closed spec fn view(&self) -> OutboxV {
        OutboxV { group_id: self.group_id@, sends: send_views(self.sends@) }
    }
}

/// How many sends still have unsettled recipients.
pub open spec fn live_count(ss: Seq<SendV>) -> nat
    decreases ss.len(),
{
    if ss.len() == 0 {
        0
    } else {
        live_count(ss.drop_last()) + if send_is_terminal(ss.last()) {
            0nat
        } else {
            1nat
        }
    }
}

/// `k` is the first position of a send with identifier `id`.
pub open spec fn first_send_at(ss: Seq<SendV>, id: MessageIdV, k: int) -> bool {
    &&& 0 <= k < ss.len()
    &&& ss[k].id == id
    &&& forall|j: int| 0 <= j < k ==> (#[trigger] ss[j]).id != id
}

/// Whether a send with identifier `id` is held.
pub open spec fn has_send(ss: Seq<SendV>, id: MessageIdV) -> bool {
    exists|k: int| 0 <= k < ss.len() && (#[trigger] ss[k]).id == id
}

/// The first position of a send with identifier `id`.
pub open spec fn send_index(ss: Seq<SendV>, id: MessageIdV) -> int {
    choose|k: int| first_send_at(ss, id, k)
}

/// Recording an intent: it must be for this group; an identifier already
/// held is a duplicate when every immutable field agrees and a conflict
/// otherwise, and never replaces the committed record; a new one is
/// refused while the outbox already holds its bound of live sends.
pub open spec fn spec_record(o: OutboxV, s: SendV) -> (OutboxV, Result<OutboxDisposition, Error>) {
    if s.id.group_id != o.group_id {
        (o, Err(Error::Conflict))
    } else if has_send(o.sends, s.id) {
        if same_immutable(o.sends[send_index(o.sends, s.id)], s) {
            (o, Ok(OutboxDisposition::Duplicate))
        } else {
            (o, Err(Error::Conflict))
        }
    } else if live_count(o.sends) >= MAX_LIVE_LOGICAL_SENDS {
        (o, Err(Error::OutboxFull))
    } else {
        (OutboxV { sends: o.sends.push(s), ..o }, Ok(OutboxDisposition::Inserted))
    }
}

/// A newer accepted roster cancels every older-revision send's unsettled
/// recipients.
pub open spec fn spec_outbox_cancel(o: OutboxV, revision: u64) -> OutboxV {
    OutboxV { sends: o.sends.map_values(|s: SendV| spec_cancel_for_newer_roster(s, revision)), ..o }
}

impl GroupOutbox {
    pub fn new(group_id: GroupId) -> (o: GroupOutbox)
        ensures
            o@ == (OutboxV { group_id: group_id@, sends: Seq::empty() }),
    {
        let o = GroupOutbox { group_id, sends: Vec::new() };
        assert(o@.sends =~= Seq::<SendV>::empty());
        o
    }

    pub fn sends(&self) -> (r: &[LogicalSend])
        ensures
            send_views(r@) == self@.sends,
    {
        self.sends.as_slice()
    }

    /// The first position of a send with identifier `id`.
    fn find(&self, id: &LogicalMessageId) -> (r: Option<usize>)
        ensures
            match r {
                Some(k) => has_send(self@.sends, id@) && k == send_index(self@.sends, id@) && first_send_at(
                    self@.sends,
                    id@,
                    k as int,
                ),
                None => !has_send(self@.sends, id@),
            },
    {
        let ghost v = self@.sends;
        let mut i: usize = 0;
        while i < self.sends.len()
            invariant
                0 <= i <= self.sends@.len(),
                v == self@.sends,
                forall|j: int| 0 <= j < i ==> (#[trigger] v[j]).id != id@,
            decreases self.sends@.len() - i,
        {
            assert(v[i as int] == self.sends@[i as int]@);
            if self.sends[i].id.same(id) {
                assert(first_send_at(v, id@, i as int));
                let ghost k = send_index(v, id@);
                assert(k == i as int) by {
                    if k < i {
                        assert(v[k].id != id@);
                    } else if k > i {
                        assert(v[i as int].id != id@);
                    }
                }
                return Some(i);
            }
            i = i + 1;
        }
        None
    }

    /// The send with identifier `id`; `Malformed` if none is held.
    pub fn send(&self, id: &LogicalMessageId) -> (r: Result<&LogicalSend, Error>)
        ensures
            match r {
                Ok(s) => has_send(self@.sends, id@) && s@ == self@.sends[send_index(self@.sends, id@)],
                Err(e) => !has_send(self@.sends, id@) && e == Error::Malformed,
            },
    {
        match self.find(id) {
            Some(k) => {
                assert(self@.sends[k as int] == self.sends@[k as int]@);
                Ok(&self.sends[k])
            },
            None => Err(Error::Malformed),
        }
    }

    /// The send with identifier `id`, to change in place; `Malformed` if none
    /// is held.
    pub fn send_mut(&mut self, id: &LogicalMessageId) -> (r: Result<&mut LogicalSend, Error>)
        ensures
            match r {
                Ok(s) => {
                    &&& has_send(old(self)@.sends, id@)
                    &&& (*s)@ == old(self)@.sends[send_index(old(self)@.sends, id@)]
                    &&& final(self)@.group_id == old(self)@.group_id
                    &&& final(self)@.sends =~= old(self)@.sends.update(
                        send_index(old(self)@.sends, id@),
                        (*final(s))@,
                    )
                },
                Err(e) => !has_send(old(self)@.sends, id@) && e == Error::Malformed && final(self)@ == old(
                    self,
                )@,
            },
    {
        match self.find(id) {
            Some(k) => {
                assert(self@.sends[k as int] == self.sends@[k as int]@);
                let r = &mut self.sends[k];
                Ok(r)
            },
            None => Err(Error::Malformed),
        }
    }

    /// How many sends still have unsettled recipients.
    fn live(&self) -> (n: usize)
        ensures
            n == live_count(self@.sends),
    {
        let ghost v = self@.sends;
        let mut n: usize = 0;
        let mut i: usize = 0;
        while i < self.sends.len()
            invariant
                0 <= i <= self.sends@.len(),
                v == self@.sends,
                n == live_count(v.take(i as int)),
                n <= i,
            decreases self.sends@.len() - i,
        {
            proof {
                assert(v.take(i + 1).drop_last() =~= v.take(i as int));
                assert(v.take(i + 1).last() == v[i as int]);
                assert(v[i as int] == self.sends@[i as int]@);
            }
            if !self.sends[i].is_terminal() {
                n = n + 1;
            }
            i = i + 1;
        }
        assert(v.take(i as int) =~= v);
        n
    }

    /// Add a distinct live logical send. An exact replay meets the committed
    /// record; changed data under its identifier cannot replace it.
    pub fn record(&mut self, send: LogicalSend) -> (r: Result<OutboxDisposition, Error>)
        ensures
            (final(self)@, r) == spec_record(old(self)@, send@),
    {
        if !send.id.group_id.same(&self.group_id) {
            return Err(Error::Conflict);
        }
        match self.find(&send.id) {
            Some(k) => {
                assert(self@.sends[k as int] == self.sends@[k as int]@);
                if self.sends[k].same_immutable_fields(&send) {
                    return Ok(OutboxDisposition::Duplicate);
                }
                return Err(Error::Conflict);
            },
            None => {},
        }
        if self.live() >= MAX_LIVE_LOGICAL_SENDS {
            return Err(Error::OutboxFull);
        }
        let ghost before = self@.sends;
        let ghost sv = send@;
        self.sends.push(send);
        assert(self@.sends =~= before.push(sv));
        Ok(OutboxDisposition::Inserted)
    }

    /// Apply a locally accepted newer roster to every logical send.
    pub fn cancel_for_newer_roster(&mut self, revision: u64)
        ensures
            final(self)@ == spec_outbox_cancel(old(self)@, revision),
    {
        let ghost start = self@.sends;
        let mut i: usize = 0;
        while i < self.sends.len()
            invariant
                0 <= i <= self.sends@.len(),
                self.group_id == old(self).group_id,
                self.sends@.len() == start.len(),
                forall|j: int| 0 <= j < i ==> (#[trigger] self.sends@[j])@ == spec_cancel_for_newer_roster(
                    start[j],
                    revision,
                ),
                forall|j: int| i <= j < self.sends@.len() ==> (#[trigger] self.sends@[j])@ == start[j],
            decreases self.sends@.len() - i,
        {
            let mut s = self.sends.remove(i);
            s.cancel_for_newer_roster(revision);
            self.sends.insert(i, s);
            i = i + 1;
        }
        assert(self@.sends =~= spec_outbox_cancel(old(self)@, revision).sends);
        assert(self@ == spec_outbox_cancel(old(self)@, revision));
    }
}

/// Recording never replaces a committed record: a duplicate or a refusal
/// leaves the outbox as it was, and an insertion appends the new send after
/// every held one, only below the bound of live sends.
pub proof fn law_recording_keeps_committed_records(o: OutboxV, s: SendV)
    ensures
        ({
            let (o2, r) = spec_record(o, s);
            &&& r != Ok::<OutboxDisposition, Error>(OutboxDisposition::Inserted) ==> o2 == o
            &&& r == Ok::<OutboxDisposition, Error>(OutboxDisposition::Inserted) ==> {
                &&& o2.sends == o.sends.push(s)
                &&& live_count(o.sends) < MAX_LIVE_LOGICAL_SENDS
                &&& !has_send(o.sends, s.id)
            }
        }),
{
}

/// A settled recipient stays settled: no per-recipient operation moves it
/// back to pending, prepared or handed off.
pub proof fn law_settled_recipients_stay_settled(p: ProgressV, commitment: Seq<u8>, ciphertext: Seq<u8>)
    requires
        is_settled(p.disposition),
    ensures
        prepare_step(p, commitment, ciphertext) is Err,
        is_settled(handoff_step(p).0.disposition),
        handoff_step(p).1 is Err,
        relay_step(p) is Err,
        cancel_step(p) == p,
{
}

/// Attempts are bounded: whatever a recipient's record, reserving a
/// handoff never takes its attempts past three, and a third attempt leaves
/// it exhausted rather than claiming delivery or its absence.
pub proof fn law_attempts_are_bounded(p: ProgressV)
    requires
        p.attempts_reserved <= 3,
    ensures
        handoff_step(p).0.attempts_reserved <= 3,
        handoff_step(p).0.attempts_reserved == 3 && p.ciphertext is Some && (p.disposition
            == RecipientDisposition::Prepared || p.disposition == RecipientDisposition::HandedOff)
            ==> handoff_step(p).0.disposition
            == RecipientDisposition::ExhaustedUnknown,
        handoff_step(p).1 is Ok ==> handoff_step(p).0.ciphertext == p.ciphertext
            && handoff_step(p).0.context_commitment == p.context_commitment,
{
}


/// The three-byte prefix every group transcript record starts with.
pub open spec fn tcg() -> Seq<u8> {
    vstd::utf8::encode_utf8("TCG"@)
}

/// The tag of a recorded intent.
pub open spec fn intent_tag() -> Seq<u8> {
    vstd::utf8::encode_utf8("TCGI"@)
}

/// The tag of a recorded preparation.
pub open spec fn prepared_tag() -> Seq<u8> {
    vstd::utf8::encode_utf8("TCGP"@)
}

/// The tag of a recorded handoff.
pub open spec fn handoff_tag() -> Seq<u8> {
    vstd::utf8::encode_utf8("TCGH"@)
}

/// The tag of a recorded relay acceptance.
pub open spec fn accepted_tag() -> Seq<u8> {
    vstd::utf8::encode_utf8("TCGA"@)
}

/// A recorded intent: the intent behind its `u32` length, exactly.
pub open spec fn intent_record_spec(body: Seq<u8>) -> Result<SendV, Error> {
    match u32_field(body) {
        Err(e) => Err(e),
        Ok((length, intent)) => if intent.len() != length {
            Err(Error::Malformed)
        } else {
            decode_intent_spec(intent)
        },
    }
}

/// A recorded per-recipient step as a value.
pub struct ProgressRecordV {
    pub context: ApplicationContextV,
    pub commitment: Seq<u8>,
    pub ciphertext: Seq<u8>,
    pub rest: Seq<u8>,
}

/// A recorded per-recipient step: the canonical context behind its `u32`
/// length, the thirty-two-byte commitment, the ciphertext behind its `u32`
/// length, and whatever follows.
pub open spec fn progress_record_spec(body: Seq<u8>) -> Result<ProgressRecordV, Error> {
    match lp_field(body) {
        Err(e) => Err(e),
        Ok((context_bytes, r1)) => match crate::group::decode_context_spec(context_bytes) {
            Err(e) => Err(e),
            Ok(context) => if r1.len() < 32 {
                Err(Error::Malformed)
            } else {
                match lp_field(r1.skip(32)) {
                    Err(e) => Err(e),
                    Ok((ciphertext, rest)) => Ok(
                        ProgressRecordV { context, commitment: r1.take(32), ciphertext, rest },
                    ),
                }
            },
        },
    }
}

/// A handoff's suffix: exactly the attempt count and the disposition code,
/// `0` handed off and `1` exhausted.
pub open spec fn handoff_suffix_spec(rest: Seq<u8>) -> Result<(u8, RecipientDisposition), Error> {
    if rest.len() != 2 {
        Err(Error::Malformed)
    } else if rest[1] == 0 {
        Ok((rest[0], RecipientDisposition::HandedOff))
    } else if rest[1] == 1 {
        Ok((rest[0], RecipientDisposition::ExhaustedUnknown))
    } else {
        Err(Error::Malformed)
    }
}

/// The logical identifier a context belongs to.
pub open spec fn id_of_context(c: ApplicationContextV) -> MessageIdV {
    MessageIdV { group_id: c.group_id, revision: c.revision, sender: c.sender, sequence: c.logical_sequence }
}

/// The context a send addresses to one recipient.
pub open spec fn context_for(s: SendV, m: MemberV) -> ApplicationContextV {
    ApplicationContextV {
        group_id: s.id.group_id,
        revision: s.id.revision,
        roster_digest: s.roster_digest,
        sender: s.id.sender,
        recipient: m,
        logical_sequence: s.id.sequence,
        payload: s.payload,
    }
}

/// An outbox with the send at `k` replaced.
pub open spec fn with_send(o: OutboxV, k: int, s: SendV) -> OutboxV {
    OutboxV { sends: o.sends.update(k, s), ..o }
}

/// Replaying a recorded preparation: a context of another group is
/// skipped; otherwise the commitment must be the one computed over the
/// context's canonical bytes (`expected`), the context must be exactly the
/// one its send addresses to that recipient, and the ciphertext is stored as
/// `record_prepared` would.
pub open spec fn spec_apply_preparation(
    o: OutboxV,
    group_id: Seq<u8>,
    c: ApplicationContextV,
    commitment: Seq<u8>,
    ciphertext: Seq<u8>,
    expected: Seq<u8>,
) -> Result<OutboxV, Error> {
    if c.group_id != group_id {
        Ok(o)
    } else if crate::group::context_error(c) is Some {
        Err(crate::group::context_error(c).unwrap())
    } else if commitment != expected {
        Err(Error::Conflict)
    } else if c.revision == RESERVED_REVISION {
        Err(Error::ReservedRevision)
    } else if !has_send(o.sends, id_of_context(c)) {
        Err(Error::Malformed)
    } else {
        let k = send_index(o.sends, id_of_context(c));
        let s = o.sends[k];
        if !has_recipient(s.recipients, c.recipient) {
            Err(Error::NotMember)
        } else if crate::group::context_error(context_for(s, c.recipient)) is Some {
            Err(crate::group::context_error(context_for(s, c.recipient)).unwrap())
        } else if context_for(s, c.recipient) != c {
            Err(Error::Conflict)
        } else {
            let (s2, r) = spec_record_prepared(s, c.recipient, commitment, ciphertext);
            match r {
                Ok(_) => Ok(with_send(o, k, s2)),
                Err(e) => Err(e),
            }
        }
    }
}

/// Replaying a recorded intent: one of another group is skipped; otherwise
/// it must insert a new record.
#[verifier::opaque]
pub open spec fn spec_intent_entry(o: OutboxV, group_id: Seq<u8>, body: Seq<u8>) -> Result<OutboxV, Error> {
    match intent_record_spec(body) {
        Err(e) => Err(e),
        Ok(s) => if s.id.group_id != group_id {
            Ok(o)
        } else {
            let (o2, r) = spec_record(o, s);
            match r {
                Err(e) => Err(e),
                Ok(OutboxDisposition::Inserted) => Ok(o2),
                Ok(OutboxDisposition::Duplicate) => Err(Error::Conflict),
            }
        },
    }
}

/// Replaying a recorded preparation, which has nothing after the ciphertext.
#[verifier::opaque]
pub open spec fn spec_prepared_entry(o: OutboxV, group_id: Seq<u8>, body: Seq<u8>, expected: Seq<u8>) -> Result<
    OutboxV,
    Error,
> {
    match progress_record_spec(body) {
        Err(e) => Err(e),
        Ok(rec) => if rec.rest.len() > 0 {
            Err(Error::Malformed)
        } else {
            spec_apply_preparation(o, group_id, rec.context, rec.commitment, rec.ciphertext, expected)
        },
    }
}

/// Replaying a recorded handoff: its preparation first, then exactly one
/// more reserved attempt, which must end with the recorded count and
/// disposition.
#[verifier::opaque]
pub open spec fn spec_handoff_entry(o: OutboxV, group_id: Seq<u8>, body: Seq<u8>, expected: Seq<u8>) -> Result<
    OutboxV,
    Error,
> {
    match progress_record_spec(body) {
        Err(e) => Err(e),
        Ok(rec) => match handoff_suffix_spec(rec.rest) {
            Err(e) => Err(e),
            Ok((attempts, disposition)) => if rec.context.group_id != group_id {
                Ok(o)
            } else {
                match spec_apply_preparation(o, group_id, rec.context, rec.commitment, rec.ciphertext, expected) {
                    Err(e) => Err(e),
                    Ok(o1) => {
                        let c = rec.context;
                        if c.revision == RESERVED_REVISION {
                            Err(Error::ReservedRevision)
                        } else if !has_send(o1.sends, id_of_context(c)) {
                            Err(Error::Malformed)
                        } else {
                            let k = send_index(o1.sends, id_of_context(c));
                            let s = o1.sends[k];
                            if !has_recipient(s.recipients, c.recipient) {
                                Err(Error::NotMember)
                            } else {
                                let prior = s.recipients[recipient_index(s.recipients, c.recipient)].attempts_reserved;
                                if prior == 255 || attempts != prior + 1 {
                                    Err(Error::Malformed)
                                } else {
                                    let (s2, r) = spec_reserve_handoff(s, c.recipient);
                                    match r {
                                        Err(e) => Err(e),
                                        Ok(p) => if p.attempts_reserved != attempts || p.disposition != disposition {
                                            Err(Error::Malformed)
                                        } else {
                                            Ok(with_send(o1, k, s2))
                                        },
                                    }
                                }
                            }
                        }
                    },
                }
            },
        },
    }
}

/// Replaying a recorded relay acceptance: its preparation first, then the
/// recipient must be handed off, and relay acceptance is recorded.
#[verifier::opaque]
pub open spec fn spec_accepted_entry(o: OutboxV, group_id: Seq<u8>, body: Seq<u8>, expected: Seq<u8>) -> Result<
    OutboxV,
    Error,
> {
    match progress_record_spec(body) {
        Err(e) => Err(e),
        Ok(rec) => if rec.rest.len() > 0 {
            Err(Error::Malformed)
        } else if rec.context.group_id != group_id {
            Ok(o)
        } else {
            match spec_apply_preparation(o, group_id, rec.context, rec.commitment, rec.ciphertext, expected) {
                Err(e) => Err(e),
                Ok(o1) => {
                    let c = rec.context;
                    if c.revision == RESERVED_REVISION {
                        Err(Error::ReservedRevision)
                    } else if !has_send(o1.sends, id_of_context(c)) {
                        Err(Error::Malformed)
                    } else {
                        let k = send_index(o1.sends, id_of_context(c));
                        let s = o1.sends[k];
                        if !has_recipient(s.recipients, c.recipient) {
                            Err(Error::NotMember)
                        } else if s.recipients[recipient_index(s.recipients, c.recipient)].disposition
                            != RecipientDisposition::HandedOff {
                            Err(Error::WrongDisposition)
                        } else {
                            let (s2, r) = spec_record_relay_accepted(s, c.recipient);
                            match r {
                                Err(e) => Err(e),
                                Ok(_) => Ok(with_send(o1, k, s2)),
                            }
                        }
                    }
                },
            }
        },
    }
}

/// Replaying one transcript entry: records tagged `TCGI`, `TCGP`, `TCGH`
/// and `TCGA` are applied; any other record starting with `TCG` is
/// malformed; everything else belongs to another component and is skipped.
pub open spec fn spec_recover_entry(o: OutboxV, group_id: Seq<u8>, entry: Seq<u8>, expected: Seq<u8>) -> Result<
    OutboxV,
    Error,
> {
    if entry.len() < 4 {
        if entry.len() >= 3 && entry.take(3) == tcg() {
            Err(Error::Malformed)
        } else {
            Ok(o)
        }
    } else {
        let tag = entry.take(4);
        let body = entry.skip(4);
        if tag == intent_tag() {
            spec_intent_entry(o, group_id, body)
        } else if tag == prepared_tag() {
            spec_prepared_entry(o, group_id, body, expected)
        } else if tag == handoff_tag() {
            spec_handoff_entry(o, group_id, body, expected)
        } else if tag == accepted_tag() {
            spec_accepted_entry(o, group_id, body, expected)
        } else if tag.take(3) == tcg() {
            Err(Error::Malformed)
        } else {
            Ok(o)
        }
    }
}

/// Replaying the first `n` entries into an empty outbox, each with the
/// commitment computed for it.
pub open spec fn spec_recover_prefix(group_id: Seq<u8>, entries: Seq<Seq<u8>>, expected: Seq<Seq<u8>>, n: nat) -> Result<
    OutboxV,
    Error,
>
    decreases n,
{
    if n == 0 {
        Ok(OutboxV { group_id, sends: Seq::empty() })
    } else {
        match spec_recover_prefix(group_id, entries, expected, (n - 1) as nat) {
            Err(e) => Err(e),
            Ok(o) => spec_recover_entry(o, group_id, entries[n - 1], expected[n - 1]),
        }
    }
}

/// What the caller's payload commitment is applied to for one transcript
/// entry: the canonical bytes of its context, for a well-formed preparation,
/// handoff or acceptance record of group `group_id`; nothing for any other
/// entry.
pub open spec fn commitment_input(group_id: Seq<u8>, entry: Seq<u8>) -> Option<Seq<u8>> {
    if entry.len() >= 4 && (entry.take(4) == prepared_tag() || entry.take(4) == handoff_tag() || entry.take(4)
        == accepted_tag()) {
        match progress_record_spec(entry.skip(4)) {
            Ok(rec) => if rec.context.group_id == group_id && crate::group::context_error(rec.context) is None {
                Some(crate::group::context_bytes(rec.context))
            } else {
                None
            },
            Err(_) => None,
        }
    } else {
        None
    }
}

/// Replaying a whole transcript.
pub open spec fn spec_recover(group_id: Seq<u8>, entries: Seq<Seq<u8>>, expected: Seq<Seq<u8>>) -> Result<
    OutboxV,
    Error,
> {
    spec_recover_prefix(group_id, entries, expected, entries.len())
}


fn tcg_bytes() -> (b: &'static [u8])
    ensures
        b@ == tcg(),
        b@.len() == 3,
{
    proof {
        reveal_strlit("TCG");
        vstd::utf8::is_ascii_chars_encode_utf8("TCG"@);
    }
    "TCG".as_bytes()
}

fn intent_tag_bytes() -> (b: &'static [u8])
    ensures
        b@ == intent_tag(),
        b@.len() == 4,
{
    proof {
        reveal_strlit("TCGI");
        vstd::utf8::is_ascii_chars_encode_utf8("TCGI"@);
    }
    "TCGI".as_bytes()
}

fn prepared_tag_bytes() -> (b: &'static [u8])
    ensures
        b@ == prepared_tag(),
        b@.len() == 4,
{
    proof {
        reveal_strlit("TCGP");
        vstd::utf8::is_ascii_chars_encode_utf8("TCGP"@);
    }
    "TCGP".as_bytes()
}

fn handoff_tag_bytes() -> (b: &'static [u8])
    ensures
        b@ == handoff_tag(),
        b@.len() == 4,
{
    proof {
        reveal_strlit("TCGH");
        vstd::utf8::is_ascii_chars_encode_utf8("TCGH"@);
    }
    "TCGH".as_bytes()
}

fn accepted_tag_bytes() -> (b: &'static [u8])
    ensures
        b@ == accepted_tag(),
        b@.len() == 4,
{
    proof {
        reveal_strlit("TCGA");
        vstd::utf8::is_ascii_chars_encode_utf8("TCGA"@);
    }
    "TCGA".as_bytes()
}

/// Read a recorded intent.
fn decode_intent_record(body: &[u8]) -> (r: Result<LogicalSend, Error>)
    ensures
        match r {
            Ok(s) => intent_record_spec(body@) == Ok::<SendV, Error>(s@),
            Err(e) => intent_record_spec(body@) == Err::<SendV, Error>(e),
        },
{
    let (length, intent) = match take_u32_field(body) {
        Ok(p) => p,
        Err(e) => return Err(e),
    };
    if intent.len() as u64 != length as u64 {
        return Err(Error::Malformed);
    }
    LogicalSend::decode_intent(intent)
}

/// Read a recorded per-recipient step.
fn decode_progress_record(body: &[u8]) -> (r: Result<(ApplicationContext, [u8; 32], Vec<u8>, &[u8]), Error>)
    ensures
        match r {
            Ok((c, m, ct, rest)) => progress_record_spec(body@) == Ok::<ProgressRecordV, Error>(
                ProgressRecordV { context: c@, commitment: m@, ciphertext: ct@, rest: rest@ },
            ),
            Err(e) => progress_record_spec(body@) == Err::<ProgressRecordV, Error>(e),
        },
{
    let (context_bytes, r1) = match take_lp(body) {
        Ok(p) => p,
        Err(e) => return Err(e),
    };
    let context = match ApplicationContext::decode(context_bytes.as_slice()) {
        Ok(c) => c,
        Err(e) => return Err(e),
    };
    if r1.len() < 32 {
        return Err(Error::Malformed);
    }
    let head = &r1[0..32];
    let r2 = &r1[32..r1.len()];
    assert(head@ =~= r1@.take(32));
    assert(r2@ =~= r1@.skip(32));
    let commitment = crate::group::array32(head);
    let (ciphertext, rest) = match take_lp(r2) {
        Ok(p) => p,
        Err(e) => return Err(e),
    };
    Ok((context, commitment, ciphertext, rest))
}

/// Read a handoff's suffix.
fn decode_handoff_suffix(rest: &[u8]) -> (r: Result<(u8, RecipientDisposition), Error>)
    ensures
        match r {
            Ok(p) => handoff_suffix_spec(rest@) == Ok::<(u8, RecipientDisposition), Error>(p),
            Err(e) => handoff_suffix_spec(rest@) == Err::<(u8, RecipientDisposition), Error>(e),
        },
{
    if rest.len() != 2 {
        return Err(Error::Malformed);
    }
    if rest[1] == 0 {
        Ok((rest[0], RecipientDisposition::HandedOff))
    } else if rest[1] == 1 {
        Ok((rest[0], RecipientDisposition::ExhaustedUnknown))
    } else {
        Err(Error::Malformed)
    }
}

/// A recovery that failed at some entry stays failed with that error.
proof fn lemma_recover_prefix_stays_failed(
    group_id: Seq<u8>,
    entries: Seq<Seq<u8>>,
    expected: Seq<Seq<u8>>,
    j: nat,
    k: nat,
)
    requires
        spec_recover_prefix(group_id, entries, expected, j) is Err,
        j <= k,
    ensures
        spec_recover_prefix(group_id, entries, expected, k) == spec_recover_prefix(group_id, entries, expected, j),
    decreases k - j,
{
    if j < k {
        lemma_recover_prefix_stays_failed(group_id, entries, expected, j, (k - 1) as nat);
    }
}

impl GroupOutbox {
    fn apply_recovered_preparation(
        &mut self,
        group_id: &GroupId,
        context: &ApplicationContext,
        commitment: [u8; 32],
        ciphertext: Vec<u8>,
        expected: &[u8; 32],
    ) -> (r: Result<(), Error>)
        ensures
            match r {
                Ok(_) => spec_apply_preparation(
                    old(self)@,
                    group_id@,
                    context@,
                    commitment@,
                    ciphertext@,
                    expected@,
                ) == Ok::<OutboxV, Error>(final(self)@),
                Err(e) => spec_apply_preparation(
                    old(self)@,
                    group_id@,
                    context@,
                    commitment@,
                    ciphertext@,
                    expected@,
                ) == Err::<OutboxV, Error>(e),
            },
    {
        if !context.group_id.same(group_id) {
            return Ok(());
        }
        match context.validate() {
            Err(e) => return Err(e),
            Ok(_) => {},
        }
        if !same_digest(&commitment, expected) {
            return Err(Error::Conflict);
        }
        if context.revision == RESERVED_REVISION {
            return Err(Error::ReservedRevision);
        }
        let id = LogicalMessageId {
            group_id: context.group_id,
            revision: context.revision,
            sender: context.sender.duplicate(),
            sequence: context.logical_sequence,
        };
        let k = match self.find(&id) {
            Some(k) => k,
            None => return Err(Error::Malformed),
        };
        let ghost o = self@;
        assert(o.sends[k as int] == self.sends@[k as int]@);
        let addressed = match self.sends[k].application_context(&context.recipient) {
            Ok(c) => c,
            Err(e) => return Err(e),
        };
        if !addressed.same(context) {
            return Err(Error::Conflict);
        }
        let mut s = self.sends.remove(k);
        let outcome = match s.record_prepared(&context.recipient, commitment, ciphertext) {
            Ok(_) => Ok(()),
            Err(e) => Err(e),
        };
        let ghost s2 = s@;
        self.sends.insert(k, s);
        match outcome {
            Ok(_) => {
                assert(self@.sends =~= o.sends.update(k as int, s2));
                Ok(())
            },
            Err(e) => Err(e),
        }
    }

    /// Replay one transcript entry.
    fn recover_entry(&mut self, group_id: &GroupId, entry: &[u8], expected: &[u8; 32]) -> (r: Result<(), Error>)
        ensures
            match r {
                Ok(_) => spec_recover_entry(old(self)@, group_id@, entry@, expected@) == Ok::<OutboxV, Error>(
                    final(self)@,
                ),
                Err(e) => spec_recover_entry(old(self)@, group_id@, entry@, expected@) == Err::<OutboxV, Error>(e),
            },
    {
        if entry.len() < 4 {
            if entry.len() >= 3 {
                let head = &entry[0..3];
                assert(head@ =~= entry@.take(3));
                if crate::directory_core::bytes_eq(head, tcg_bytes()) {
                    return Err(Error::Malformed);
                }
            }
            return Ok(());
        }
        let tag = &entry[0..4];
        let body = &entry[4..entry.len()];
        assert(tag@ =~= entry@.take(4));
        assert(body@ =~= entry@.skip(4));
        if crate::directory_core::bytes_eq(tag, intent_tag_bytes()) {
            self.recover_intent(group_id, body)
        } else if crate::directory_core::bytes_eq(tag, prepared_tag_bytes()) {
            self.recover_preparation(group_id, body, expected)
        } else if crate::directory_core::bytes_eq(tag, handoff_tag_bytes()) {
            self.recover_handoff(group_id, body, expected)
        } else if crate::directory_core::bytes_eq(tag, accepted_tag_bytes()) {
            self.recover_relay_acceptance(group_id, body, expected)
        } else {
            let head = &tag[0..3];
            assert(head@ =~= tag@.take(3));
            if crate::directory_core::bytes_eq(head, tcg_bytes()) {
                Err(Error::Malformed)
            } else {
                Ok(())
            }
        }
    }

    fn recover_intent(&mut self, group_id: &GroupId, body: &[u8]) -> (r: Result<(), Error>)
        ensures
            match r {
                Ok(_) => spec_intent_entry(old(self)@, group_id@, body@) == Ok::<OutboxV, Error>(final(self)@),
                Err(e) => spec_intent_entry(old(self)@, group_id@, body@) == Err::<OutboxV, Error>(e),
            },
    {
        proof {
            reveal(spec_intent_entry);
        }
        let send = match decode_intent_record(body) {
            Ok(s) => s,
            Err(e) => return Err(e),
        };
        if !send.id.group_id.same(group_id) {
            return Ok(());
        }
        match self.record(send) {
            Err(e) => Err(e),
            Ok(OutboxDisposition::Inserted) => Ok(()),
            Ok(OutboxDisposition::Duplicate) => Err(Error::Conflict),
        }
    }

    fn recover_preparation(&mut self, group_id: &GroupId, body: &[u8], expected: &[u8; 32]) -> (r: Result<
        (),
        Error,
    >)
        ensures
            match r {
                Ok(_) => spec_prepared_entry(old(self)@, group_id@, body@, expected@) == Ok::<OutboxV, Error>(
                    final(self)@,
                ),
                Err(e) => spec_prepared_entry(old(self)@, group_id@, body@, expected@) == Err::<OutboxV, Error>(e),
            },
    {
        proof {
            reveal(spec_prepared_entry);
        }
        let (context, commitment, ciphertext, rest) = match decode_progress_record(body) {
            Ok(p) => p,
            Err(e) => return Err(e),
        };
        if rest.len() > 0 {
            return Err(Error::Malformed);
        }
        self.apply_recovered_preparation(group_id, &context, commitment, ciphertext, expected)
    }

    fn recover_handoff(&mut self, group_id: &GroupId, body: &[u8], expected: &[u8; 32]) -> (r: Result<(), Error>)
        ensures
            match r {
                Ok(_) => spec_handoff_entry(old(self)@, group_id@, body@, expected@) == Ok::<OutboxV, Error>(
                    final(self)@,
                ),
                Err(e) => spec_handoff_entry(old(self)@, group_id@, body@, expected@) == Err::<OutboxV, Error>(e),
            },
    {
        proof {
            reveal(spec_handoff_entry);
        }
        let (context, commitment, ciphertext, rest) = match decode_progress_record(body) {
            Ok(p) => p,
            Err(e) => return Err(e),
        };
        let (attempts, disposition) = match decode_handoff_suffix(rest) {
            Ok(p) => p,
            Err(e) => return Err(e),
        };
        if !context.group_id.same(group_id) {
            return Ok(());
        }
        match self.apply_recovered_preparation(group_id, &context, commitment, ciphertext, expected) {
            Err(e) => return Err(e),
            Ok(_) => {},
        }
        if context.revision == RESERVED_REVISION {
            return Err(Error::ReservedRevision);
        }
        let id = LogicalMessageId {
            group_id: context.group_id,
            revision: context.revision,
            sender: context.sender.duplicate(),
            sequence: context.logical_sequence,
        };
        let k = match self.find(&id) {
            Some(k) => k,
            None => return Err(Error::Malformed),
        };
        let ghost o1 = self@;
        assert(o1.sends[k as int] == self.sends@[k as int]@);
        let idx = match find_recipient(self.sends[k].recipients.as_slice(), &context.recipient) {
            Some(i) => i,
            None => return Err(Error::NotMember),
        };
        assert(o1.sends[k as int].recipients[idx as int] == self.sends@[k as int].recipients@[idx as int]@);
        let prior = self.sends[k].recipients[idx].attempts_reserved;
        if prior == 255 || attempts != prior + 1 {
            return Err(Error::Malformed);
        }
        let mut s = self.sends.remove(k);
        let check = match s.reserve_handoff(&context.recipient) {
            Ok(p) => Ok((p.attempts_reserved, p.disposition)),
            Err(e) => Err(e),
        };
        let ghost s2 = s@;
        self.sends.insert(k, s);
        match check {
            Err(e) => Err(e),
            Ok((a, d)) => {
                if a != attempts || d != disposition {
                    return Err(Error::Malformed);
                }
                assert(self@.sends =~= o1.sends.update(k as int, s2));
                Ok(())
            },
        }
    }

    fn recover_relay_acceptance(&mut self, group_id: &GroupId, body: &[u8], expected: &[u8; 32]) -> (r: Result<
        (),
        Error,
    >)
        ensures
            match r {
                Ok(_) => spec_accepted_entry(old(self)@, group_id@, body@, expected@) == Ok::<OutboxV, Error>(
                    final(self)@,
                ),
                Err(e) => spec_accepted_entry(old(self)@, group_id@, body@, expected@) == Err::<OutboxV, Error>(e),
            },
    {
        proof {
            reveal(spec_accepted_entry);
        }
        let (context, commitment, ciphertext, rest) = match decode_progress_record(body) {
            Ok(p) => p,
            Err(e) => return Err(e),
        };
        if rest.len() > 0 {
            return Err(Error::Malformed);
        }
        if !context.group_id.same(group_id) {
            return Ok(());
        }
        match self.apply_recovered_preparation(group_id, &context, commitment, ciphertext, expected) {
            Err(e) => return Err(e),
            Ok(_) => {},
        }
        if context.revision == RESERVED_REVISION {
            return Err(Error::ReservedRevision);
        }
        let id = LogicalMessageId {
            group_id: context.group_id,
            revision: context.revision,
            sender: context.sender.duplicate(),
            sequence: context.logical_sequence,
        };
        let k = match self.find(&id) {
            Some(k) => k,
            None => return Err(Error::Malformed),
        };
        let ghost o1 = self@;
        assert(o1.sends[k as int] == self.sends@[k as int]@);
        let idx = match find_recipient(self.sends[k].recipients.as_slice(), &context.recipient) {
            Some(i) => i,
            None => return Err(Error::NotMember),
        };
        assert(o1.sends[k as int].recipients[idx as int] == self.sends@[k as int].recipients@[idx as int]@);
        if self.sends[k].recipients[idx].disposition != RecipientDisposition::HandedOff {
            return Err(Error::WrongDisposition);
        }
        let mut s = self.sends.remove(k);
        let outcome = match s.record_relay_accepted(&context.recipient) {
            Ok(_) => Ok(()),
            Err(e) => Err(e),
        };
        let ghost s2 = s@;
        self.sends.insert(k, s);
        match outcome {
            Err(e) => Err(e),
            Ok(_) => {
                assert(self@.sends =~= o1.sends.update(k as int, s2));
                Ok(())
            },
        }
    }

    /// Rebuild one group's outbox from the ordered records of a combined
    /// operation transcript, given for each entry the commitment over its
    /// context's canonical bytes (any value for an entry that carries none).
    pub fn recover_with_commitments(group_id: GroupId, entries: &[Vec<u8>], commitments: &[[u8; 32]]) -> (r: Result<
        GroupOutbox,
        Error,
    >)
        requires
            commitments@.len() == entries@.len(),
        ensures
            match r {
                Ok(o) => spec_recover(
                    group_id@,
                    crate::codec::blocks_view(entries@),
                    commitments@.map_values(|c: [u8; 32]| c@),
                ) == Ok::<OutboxV, Error>(o@),
                Err(e) => spec_recover(
                    group_id@,
                    crate::codec::blocks_view(entries@),
                    commitments@.map_values(|c: [u8; 32]| c@),
                ) == Err::<OutboxV, Error>(e),
            },
    {
        let ghost ev = crate::codec::blocks_view(entries@);
        let ghost cv = commitments@.map_values(|c: [u8; 32]| c@);
        let mut outbox = GroupOutbox::new(group_id);
        let mut i: usize = 0;
        while i < entries.len()
            invariant
                0 <= i <= entries@.len(),
                commitments@.len() == entries@.len(),
                ev == crate::codec::blocks_view(entries@),
                cv == commitments@.map_values(|c: [u8; 32]| c@),
                spec_recover_prefix(group_id@, ev, cv, i as nat) == Ok::<OutboxV, Error>(outbox@),
            decreases entries@.len() - i,
        {
            assert(ev[i as int] == entries@[i as int]@);
            assert(cv[i as int] == commitments@[i as int]@);
            match outbox.recover_entry(&group_id, entries[i].as_slice(), &commitments[i]) {
                Err(e) => {
                    proof {
                        lemma_recover_prefix_stays_failed(group_id@, ev, cv, (i + 1) as nat, ev.len());
                    }
                    return Err(e);
                },
                Ok(_) => {},
            }
            i = i + 1;
        }
        Ok(outbox)
    }

    /// Rebuild one group's outbox from the ordered records of a combined
    /// operation transcript. The caller supplies the domain-separated payload
    /// commitment, so this policy stays free of cryptography. It is handed
    /// the canonical bytes of the context of every well-formed per-recipient
    /// record of this group, and the outcome is the replay of the transcript
    /// with what it returned for each.
    pub fn recover_from_transcript(
        group_id: GroupId,
        entries: &[Vec<u8>],
        payload_commitment: impl Fn(&[u8]) -> [u8; 32],
    ) -> (r: Result<GroupOutbox, Error>)
        requires
            forall|b: &[u8]| payload_commitment.requires((b,)),
        ensures
            exists|cs: Seq<Seq<u8>>|
                #![trigger spec_recover(group_id@, crate::codec::blocks_view(entries@), cs)]
                {
                    &&& cs.len() == entries@.len()
                    &&& forall|i: int|
                        #![trigger commitment_input(group_id@, crate::codec::blocks_view(entries@)[i])]
                        0 <= i < cs.len() && commitment_input(group_id@, crate::codec::blocks_view(entries@)[i]) is Some
                            ==> exists|b: &[u8], c: [u8; 32]|
                            #![trigger call_ensures(payload_commitment, (b,), c)]
                            b@ == commitment_input(group_id@, crate::codec::blocks_view(entries@)[i])->0 && c@
                                == cs[i] && call_ensures(payload_commitment, (b,), c)
                    &&& match r {
                        Ok(o) => spec_recover(group_id@, crate::codec::blocks_view(entries@), cs) == Ok::<
                            OutboxV,
                            Error,
                        >(o@),
                        Err(e) => spec_recover(group_id@, crate::codec::blocks_view(entries@), cs) == Err::<
                            OutboxV,
                            Error,
                        >(e),
                    }
                },
    {
        let ghost ev = crate::codec::blocks_view(entries@);
        let mut commitments: Vec<[u8; 32]> = Vec::new();
        let mut i: usize = 0;
        while i < entries.len()
            invariant
                0 <= i <= entries@.len(),
                commitments@.len() == i,
                ev == crate::codec::blocks_view(entries@),
                forall|b: &[u8]| payload_commitment.requires((b,)),
                forall|j: int|
                    #![trigger commitment_input(group_id@, ev[j])]
                    0 <= j < i && commitment_input(group_id@, ev[j]) is Some ==> exists|b: &[u8], c: [u8; 32]|
                        #![trigger call_ensures(payload_commitment, (b,), c)]
                        b@ == commitment_input(group_id@, ev[j])->0 && c@ == commitments@[j]@ && call_ensures(
                            payload_commitment,
                            (b,),
                            c,
                        ),
            decreases entries@.len() - i,
        {
            let entry = entries[i].as_slice();
            assert(ev[i as int] == entry@);
            let mut commitment = [0u8; 32];
            if entry.len() >= 4 {
                let tag = &entry[0..4];
                let body = &entry[4..entry.len()];
                assert(tag@ =~= entry@.take(4));
                assert(body@ =~= entry@.skip(4));
                if crate::directory_core::bytes_eq(tag, prepared_tag_bytes()) || crate::directory_core::bytes_eq(
                    tag,
                    handoff_tag_bytes(),
                ) || crate::directory_core::bytes_eq(tag, accepted_tag_bytes()) {
                    match decode_progress_record(body) {
                        Ok((context, _, _, _)) => {
                            if context.group_id.same(&group_id) {
                                match context.encode() {
                                    Ok(bytes) => {
                                        commitment = payload_commitment(bytes.as_slice());
                                        assert(commitment_input(group_id@, ev[i as int]) == Some(bytes@));
                                    },
                                    Err(_) => {},
                                }
                            }
                        },
                        Err(_) => {},
                    }
                }
            }
            let ghost before = commitments@;
            commitments.push(commitment);
            proof {
                assert forall|j: int|
                    #![trigger commitment_input(group_id@, ev[j])]
                    0 <= j < i + 1 && commitment_input(group_id@, ev[j]) is Some implies exists|b: &[u8], c: [u8; 32]|
                    #![trigger call_ensures(payload_commitment, (b,), c)]
                    b@ == commitment_input(group_id@, ev[j])->0 && c@ == commitments@[j]@ && call_ensures(
                        payload_commitment,
                        (b,),
                        c,
                    ) by {
                    if j < i {
                        assert(commitments@[j] == before[j]);
                    }
                }
            }
            i = i + 1;
        }
        let ghost cs = commitments@.map_values(|c: [u8; 32]| c@);
        let r = GroupOutbox::recover_with_commitments(group_id, entries, commitments.as_slice());
        assert(cs.len() == entries@.len());
        assert forall|k: int|
            #![trigger commitment_input(group_id@, crate::codec::blocks_view(entries@)[k])]
            0 <= k < cs.len() && commitment_input(group_id@, crate::codec::blocks_view(entries@)[k]) is Some implies exists|
            b: &[u8],
            c: [u8; 32],
        |
            #![trigger call_ensures(payload_commitment, (b,), c)]
            b@ == commitment_input(group_id@, crate::codec::blocks_view(entries@)[k])->0 && c@ == cs[k] && call_ensures(
                payload_commitment,
                (b,),
                c,
            ) by {
            assert(commitment_input(group_id@, ev[k]) is Some);
            assert(cs[k] == commitments@[k]@);
        }
        assert(spec_recover(group_id@, crate::codec::blocks_view(entries@), cs) == spec_recover(
            group_id@,
            crate::codec::blocks_view(entries@),
            cs,
        ));
        r
    }
}

/// The four record tags all begin with `TCG`.
proof fn lemma_tags_share_the_prefix()
    ensures
        intent_tag().take(3) == tcg(),
        prepared_tag().take(3) == tcg(),
        handoff_tag().take(3) == tcg(),
        accepted_tag().take(3) == tcg(),
        tcg().len() == 3,
{
    reveal_strlit("TCG");
    reveal_strlit("TCGI");
    reveal_strlit("TCGP");
    reveal_strlit("TCGH");
    reveal_strlit("TCGA");
    vstd::utf8::is_ascii_chars_encode_utf8("TCG"@);
    vstd::utf8::is_ascii_chars_encode_utf8("TCGI"@);
    vstd::utf8::is_ascii_chars_encode_utf8("TCGP"@);
    vstd::utf8::is_ascii_chars_encode_utf8("TCGH"@);
    vstd::utf8::is_ascii_chars_encode_utf8("TCGA"@);
    assert(intent_tag().take(3) =~= tcg());
    assert(prepared_tag().take(3) =~= tcg());
    assert(handoff_tag().take(3) =~= tcg());
    assert(accepted_tag().take(3) =~= tcg());
}

/// A record of another component: it does not begin with `TCG`.
pub open spec fn foreign_record(entry: Seq<u8>) -> bool {
    !(entry.len() >= 3 && entry.take(3) == tcg())
}

proof fn lemma_foreign_record_is_skipped(o: OutboxV, group_id: Seq<u8>, entry: Seq<u8>, expected: Seq<u8>)
    requires
        foreign_record(entry),
    ensures
        spec_recover_entry(o, group_id, entry, expected) == Ok::<OutboxV, Error>(o),
{
    lemma_tags_share_the_prefix();
    if entry.len() >= 4 {
        assert(entry.take(4).take(3) =~= entry.take(3));
    }
}

proof fn lemma_recover_without(group_id: Seq<u8>, es: Seq<Seq<u8>>, cs: Seq<Seq<u8>>, k: int, n: nat)
    requires
        0 <= k < es.len(),
        es.len() == cs.len(),
        foreign_record(es[k]),
        n <= es.len(),
    ensures
        n <= k ==> spec_recover_prefix(group_id, es, cs, n) == spec_recover_prefix(
            group_id,
            es.remove(k),
            cs.remove(k),
            n,
        ),
        n > k ==> spec_recover_prefix(group_id, es, cs, n) == spec_recover_prefix(
            group_id,
            es.remove(k),
            cs.remove(k),
            (n - 1) as nat,
        ),
    decreases n,
{
    if n > 0 {
        lemma_recover_without(group_id, es, cs, k, (n - 1) as nat);
        if n - 1 == k {
            match spec_recover_prefix(group_id, es, cs, (n - 1) as nat) {
                Err(_) => {},
                Ok(o) => {
                    lemma_foreign_record_is_skipped(o, group_id, es[k], cs[k]);
                },
            }
        } else if n - 1 > k {
            assert(es[n - 1] == es.remove(k)[n - 2]);
            assert(cs[n - 1] == cs.remove(k)[n - 2]);
        } else {
            assert(es[n - 1] == es.remove(k)[n - 1]);
            assert(cs[n - 1] == cs.remove(k)[n - 1]);
        }
    }
}

/// Recovery keeps only this component's records: a transcript entry that
/// does not begin with `TCG` changes nothing, whichever commitment stands
/// beside it, while an entry beginning with `TCG` but carrying no known tag
/// is refused as malformed.
pub proof fn law_recovery_skips_other_components_records(
    group_id: Seq<u8>,
    es: Seq<Seq<u8>>,
    cs: Seq<Seq<u8>>,
    k: int,
)
    requires
        0 <= k < es.len(),
        es.len() == cs.len(),
        foreign_record(es[k]),
    ensures
        spec_recover(group_id, es, cs) == spec_recover(group_id, es.remove(k), cs.remove(k)),
{
    lemma_recover_without(group_id, es, cs, k, es.len());
}

/// A record that begins with `TCG` but is none of the four kinds is refused
/// as malformed.
pub proof fn law_an_unknown_record_tag_is_refused(o: OutboxV, group_id: Seq<u8>, entry: Seq<u8>, expected: Seq<u8>)
    requires
        entry.len() >= 3,
        entry.take(3) == tcg(),
        entry.len() < 4 || (entry.take(4) != intent_tag() && entry.take(4) != prepared_tag() && entry.take(4)
            != handoff_tag() && entry.take(4) != accepted_tag()),
    ensures
        spec_recover_entry(o, group_id, entry, expected) == Err::<OutboxV, Error>(Error::Malformed),
{
    if entry.len() >= 4 {
        assert(entry.take(4).take(3) =~= entry.take(3));
    }
}

/// A recipient list that passes the membership check names only roster
/// members, repeats no identity, and passes the check without membership.
proof fn lemma_checked_recipients(rm: Seq<MemberV>, rs: Seq<MemberV>, i: nat)
    requires
        recipients_error(rm, true, rs, i) is None,
    ensures
        recipients_error(Seq::empty(), false, rs, i) is None,
        forall|k: int| i <= k < rs.len() ==> rm.contains(#[trigger] rs[k]),
        forall|k: int| i <= k < rs.len() ==> !crate::group::repeats_identity(rs, k),
    decreases rs.len() - i,
{
    if i < rs.len() {
        lemma_checked_recipients(rm, rs, i + 1);
    }
}

/// A recipient list in canonical order ascends strictly at every step.
proof fn lemma_ordered_recipients_ascend(rs: Seq<MemberV>, i: nat, k: int)
    requires
        recipients_error(Seq::empty(), false, rs, i) is None,
        i <= k < rs.len(),
        k > 0,
    ensures
        lex_lt(sort_key(rs[k - 1]), sort_key(rs[k])),
    decreases k - i,
{
    if i < k {
        lemma_ordered_recipients_ascend(rs, i + 1, k);
    }
}

/// A send allocated against a roster that respects its bounds, with a
/// thirty-two-byte digest, is a valid intent: it encodes, and its intent
/// decodes back to exactly the send.
#[verifier::spinoff_prover]
#[verifier::rlimit(60)]
pub proof fn law_a_new_send_is_a_valid_intent(
    roster: RosterV,
    roster_digest: Seq<u8>,
    sender: MemberV,
    sequence: u64,
    recipients: Seq<MemberV>,
    payload: Seq<u8>,
)
    requires
        crate::group::roster_shape(roster),
        crate::group::roster_error(roster) is None,
        roster_digest.len() == 32,
        spec_new_send(roster, roster_digest, sender, sequence, recipients, payload) is Ok,
    ensures
        ({
            let s = spec_new_send(roster, roster_digest, sender, sequence, recipients, payload)->Ok_0;
            &&& intent_valid(s)
            &&& intent_fits(s)
            &&& decode_intent_spec(intent_bytes(s)) == Ok::<SendV, Error>(s)
        }),
{
    let s = spec_new_send(roster, roster_digest, sender, sequence, recipients, payload)->Ok_0;
    let ms = roster.members;
    let rms = recipient_members(s.recipients);
    assert(rms =~= recipients);
    lemma_checked_recipients(ms, recipients, 0);
    assert forall|k: int| 0 <= k < ms.len() implies member_error(#[trigger] ms[k]) is None by {
        crate::group::lemma_member_list_ok(ms, 0, k as nat);
    }
    let ks = choose|k: int| 0 <= k < ms.len() && ms[k] == sender;
    assert(member_error(ms[ks]) is None);
    assert forall|k: int| 0 <= k < rms.len() implies member_error(#[trigger] rms[k]) is None by {
        assert(ms.contains(recipients[k]));
        let j = choose|j: int| 0 <= j < ms.len() && ms[j] == recipients[k];
        assert(member_error(ms[j]) is None);
    }
    assert(recipients.no_duplicates()) by {
        assert forall|a: int, b: int| 0 <= a < recipients.len() && 0 <= b < recipients.len() && a != b implies recipients[a]
            != recipients[b] by {
            if a < b {
                assert(!crate::group::repeats_identity(recipients, b));
            } else {
                assert(!crate::group::repeats_identity(recipients, a));
            }
        }
    }
    recipients.unique_seq_to_set();
    ms.lemma_cardinality_of_set();
    vstd::seq_lib::seq_to_set_is_finite(ms);
    assert(recipients.to_set().subset_of(ms.to_set())) by {
        assert forall|m: MemberV| recipients.to_set().contains(m) implies ms.to_set().contains(m) by {
            let k = choose|k: int| 0 <= k < recipients.len() && recipients[k] == m;
            assert(ms.contains(recipients[k]));
        }
    }
    vstd::set_lib::lemma_len_subset(recipients.to_set(), ms.to_set());
    assert(intent_valid(s));
    assert forall|i: int| 0 <= i < s.recipients.len() implies member_fits(#[trigger] s.recipients[i].recipient) by {
        assert(s.recipients[i].recipient == rms[i]);
    }
    assert(intent_fits(s));
    law_intent_round_trips(s);
    assert(pending_send(s).recipients =~= s.recipients);
    assert(pending_send(s) == s);
}

/// The send with the recipients at `i` and `i + 1` exchanged.
pub open spec fn swap_recipients(s: SendV, i: int) -> SendV {
    SendV { recipients: s.recipients.update(i, s.recipients[i + 1]).update(i + 1, s.recipients[i]), ..s }
}

/// An intent with two neighbouring recipients exchanged is refused as
/// `NonCanonical`: the recipient list must ascend strictly.
#[verifier::spinoff_prover]
#[verifier::rlimit(60)]
pub proof fn law_intent_refuses_swapped_recipients(s: SendV, i: int)
    requires
        intent_valid(s),
        0 <= i,
        i + 1 < s.recipients.len(),
    ensures
        decode_intent_spec(intent_bytes(swap_recipients(s, i))) == Err::<SendV, Error>(Error::NonCanonical),
{
    let t = swap_recipients(s, i);
    let rs = recipient_members(s.recipients);
    let rt = recipient_members(t.recipients);
    assert(rt =~= rs.update(i, rs[i + 1]).update(i + 1, rs[i]));
    assert forall|k: int| 0 <= k < rt.len() implies member_error(#[trigger] rt[k]) is None by {
        if k == i {
            assert(member_error(rs[i + 1]) is None);
        } else if k == i + 1 {
            assert(member_error(rs[i]) is None);
        } else {
            assert(member_error(rs[k]) is None);
        }
    }
    assert(intent_shape_valid(t));
    lemma_ordered_recipients_ascend(rs, 0, i + 1);
    crate::group::lemma_lex_asymmetric(sort_key(rs[i]), sort_key(rs[i + 1]));
    if recipients_error(Seq::empty(), false, rt, 0) is None {
        lemma_ordered_recipients_ascend(rt, 0, i + 1);
    }
    lemma_intent_decodes(t);
}

} // verus!
