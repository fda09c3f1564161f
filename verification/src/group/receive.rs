//! What a group member does with an application message before it
//! acknowledges relay delivery: accept it once under a stable event number,
//! recognise a replay, refuse what the roster does not allow, and hold a
//! little near-future traffic until its roster arrives.
use crate::group::{
    same_digest, ApplicationContext, ApplicationContextV, GroupId, Member, MemberV, Roster, RosterV, roster_grants,
};
use vstd::prelude::*;

verus! {

/// How many sequence numbers behind the newest accepted one a message may be.
pub const DEDUP_WINDOW: u64 = 64;
/// How many revisions ahead of the accepted roster a message may be deferred.
pub const FUTURE_REVISIONS: u64 = 2;
/// How many messages may wait for a future roster.
pub const MAX_DEFERRED: usize = 4;

/// Why a received message is refused.
#[derive(Clone, Copy, Debug, PartialEq, Eq, Structural)]
pub enum ReceiveRefusal {
    Malformed,
    WrongPeer,
    WrongGroup,
    WrongRecipient,
    NotActive,
    OldRevision,
    InvalidRoster,
    FutureOutOfRange,
    SequenceExpired,
    Conflict,
    DeferredFull,
}

/// What the receiver decided about one message.
#[derive(Clone, Copy, Debug, PartialEq, Eq, Structural)]
pub enum ReceiveDisposition {
    Accepted { event_id: u64 },
    Duplicate { event_id: u64 },
    Deferred,
    Rejected(ReceiveRefusal),
}

/// A formerly deferred message after it was checked against a newly accepted
/// roster.
#[derive(Clone, Debug, PartialEq, Eq)]
pub struct RevalidatedReceive {
    pub context: ApplicationContext,
    pub commitment: [u8; 32],
    pub disposition: ReceiveDisposition,
}

/// A message's logical identity as a value: group, revision, sender,
/// sequence.
pub struct KeyV {
    pub group_id: Seq<u8>,
    pub revision: u64,
    pub sender: MemberV,
    pub sequence: u64,
}

/// An accepted message as a value.
pub struct AcceptedV {
    pub key: KeyV,
    pub commitment: Seq<u8>,
    pub event_id: u64,
}

/// A deferred message as a value.
pub struct DeferredV {
    pub context: ApplicationContextV,
    pub commitment: Seq<u8>,
}

/// A receiver as a value.
pub struct ReceiverV {
    pub roster: RosterV,
    pub roster_digest: Seq<u8>,
    pub local: MemberV,
    pub accepted: Seq<AcceptedV>,
    pub deferred: Seq<DeferredV>,
    pub next_event_id: u64,
}

struct Key {
    group_id: GroupId,
    revision: u64,
    sender: Member,
    sequence: u64,
}

impl View for Key {
    type V = KeyV;

    closed spec fn view(&self) -> KeyV {
        KeyV { group_id: self.group_id@, revision: self.revision, sender: self.sender@, sequence: self.sequence }
    }
}

struct Accepted {
    key: Key,
    commitment: [u8; 32],
    event_id: u64,
}

impl View for Accepted {
    type V = AcceptedV;

    closed spec fn view(&self) -> AcceptedV {
        AcceptedV { key: self.key@, commitment: self.commitment@, event_id: self.event_id }
    }
}

struct Deferred {
    context: ApplicationContext,
    commitment: [u8; 32],
}

impl View for Deferred {
    type V = DeferredV;

    closed spec fn view(&self) -> DeferredV {
        DeferredV { context: self.context@, commitment: self.commitment@ }
    }
}

/// The receiving policy for one locally accepted roster. The caller commits
/// each returned disposition with its own state before acknowledging.
pub struct GroupReceiver {
    roster: Roster,
    roster_digest: [u8; 32],
    local: Member,
    accepted: Vec<Accepted>,
    deferred: Vec<Deferred>,
    next_event_id: u64,
}

impl View for GroupReceiver {
    type V = ReceiverV;

    closed spec fn view(&self) -> ReceiverV {
        ReceiverV {
            roster: self.roster@,
            roster_digest: self.roster_digest@,
            local: self.local@,
            accepted: self.accepted@.map_values(|a: Accepted| a@),
            deferred: self.deferred@.map_values(|d: Deferred| d@),
            next_event_id: self.next_event_id,
        }
    }
}

/// A message's logical identity.
pub open spec fn key_of(c: ApplicationContextV) -> KeyV {
    KeyV { group_id: c.group_id, revision: c.revision, sender: c.sender, sequence: c.logical_sequence }
}

/// `a + b`, held at `u64::MAX`.
pub open spec fn sat_add(a: u64, b: u64) -> u64 {
    if a + b > u64::MAX {
        u64::MAX
    } else {
        (a + b) as u64
    }
}

/// Each logical identity is accepted at most once and deferred at most once.
pub open spec fn receiver_wf(s: ReceiverV) -> bool {
    &&& forall|i: int, j: int|
        0 <= i < j < s.accepted.len() ==> (#[trigger] s.accepted[i]).key != (#[trigger] s.accepted[j]).key
    &&& forall|i: int, j: int|
        0 <= i < j < s.deferred.len() ==> key_of((#[trigger] s.deferred[i]).context) != key_of(
            (#[trigger] s.deferred[j]).context,
        )
    &&& s.deferred.len() <= MAX_DEFERRED
}

/// Whether an accepted message with this identity is held.
pub open spec fn has_accepted(s: ReceiverV, key: KeyV) -> bool {
    exists|i: int| 0 <= i < s.accepted.len() && (#[trigger] s.accepted[i]).key == key
}

/// The accepted message with this identity.
pub open spec fn accepted_with(s: ReceiverV, key: KeyV) -> AcceptedV {
    s.accepted[choose|i: int| 0 <= i < s.accepted.len() && (#[trigger] s.accepted[i]).key == key]
}

/// Whether some accepted message from the same sender at the same revision
/// is at least `DEDUP_WINDOW` sequence numbers ahead of `key`.
pub open spec fn sequence_expired(s: ReceiverV, key: KeyV) -> bool {
    exists|i: int|
        0 <= i < s.accepted.len() && (#[trigger] s.accepted[i]).key.sender == key.sender
            && s.accepted[i].key.revision == key.revision && sat_add(key.sequence, DEDUP_WINDOW)
            <= s.accepted[i].key.sequence
}

/// Accepting a message at the current revision: a replay with the same
/// commitment is a duplicate under its first event number and a changed one
/// conflicts; a message too far behind its sender's newest is expired;
/// otherwise it is accepted under the next event number.
pub open spec fn spec_accept_current(s: ReceiverV, key: KeyV, commitment: Seq<u8>) -> (
    ReceiverV,
    ReceiveDisposition,
) {
    if has_accepted(s, key) {
        let existing = accepted_with(s, key);
        if existing.commitment == commitment {
            (s, ReceiveDisposition::Duplicate { event_id: existing.event_id })
        } else {
            (s, ReceiveDisposition::Rejected(ReceiveRefusal::Conflict))
        }
    } else if sequence_expired(s, key) {
        (s, ReceiveDisposition::Rejected(ReceiveRefusal::SequenceExpired))
    } else {
        let event_id = s.next_event_id;
        (
            ReceiverV {
                accepted: s.accepted.push(AcceptedV { key, commitment, event_id }),
                next_event_id: sat_add(s.next_event_id, 1),
                ..s
            },
            ReceiveDisposition::Accepted { event_id },
        )
    }
}

/// Whether a deferred message with this identity is held.
pub open spec fn has_deferred(s: ReceiverV, key: KeyV) -> bool {
    exists|i: int| 0 <= i < s.deferred.len() && key_of((#[trigger] s.deferred[i]).context) == key
}

/// The deferred message with this identity.
pub open spec fn deferred_with(s: ReceiverV, key: KeyV) -> DeferredV {
    s.deferred[choose|i: int| 0 <= i < s.deferred.len() && key_of((#[trigger] s.deferred[i]).context) == key]
}

/// Deferring a near-future message: a replay with the same commitment stays
/// deferred and a changed one conflicts; a full queue refuses; otherwise it
/// waits.
pub open spec fn spec_defer(s: ReceiverV, c: ApplicationContextV, commitment: Seq<u8>) -> (
    ReceiverV,
    ReceiveDisposition,
) {
    let key = key_of(c);
    if has_deferred(s, key) {
        if deferred_with(s, key).commitment == commitment {
            (s, ReceiveDisposition::Deferred)
        } else {
            (s, ReceiveDisposition::Rejected(ReceiveRefusal::Conflict))
        }
    } else if s.deferred.len() == MAX_DEFERRED {
        (s, ReceiveDisposition::Rejected(ReceiveRefusal::DeferredFull))
    } else {
        (
            ReceiverV { deferred: s.deferred.push(DeferredV { context: c, commitment }), ..s },
            ReceiveDisposition::Deferred,
        )
    }
}

/// The receiving policy: the checks in order and the state afterwards.
pub open spec fn spec_receive(s: ReceiverV, c: ApplicationContextV, peer: MemberV, commitment: Seq<u8>) -> (
    ReceiverV,
    ReceiveDisposition,
) {
    if peer != c.sender {
        (s, ReceiveDisposition::Rejected(ReceiveRefusal::WrongPeer))
    } else if c.group_id != s.roster.group_id {
        (s, ReceiveDisposition::Rejected(ReceiveRefusal::WrongGroup))
    } else if c.recipient != s.local {
        (s, ReceiveDisposition::Rejected(ReceiveRefusal::WrongRecipient))
    } else if !roster_grants(s.roster, c.sender) || !roster_grants(s.roster, s.local) {
        (s, ReceiveDisposition::Rejected(ReceiveRefusal::NotActive))
    } else if c.revision < s.roster.revision {
        (s, ReceiveDisposition::Rejected(ReceiveRefusal::OldRevision))
    } else if c.revision == s.roster.revision {
        if c.roster_digest != s.roster_digest {
            (s, ReceiveDisposition::Rejected(ReceiveRefusal::InvalidRoster))
        } else {
            spec_accept_current(s, key_of(c), commitment)
        }
    } else if c.revision > sat_add(s.roster.revision, FUTURE_REVISIONS) {
        (s, ReceiveDisposition::Rejected(ReceiveRefusal::FutureOutOfRange))
    } else {
        spec_defer(s, c, commitment)
    }
}

/// Revalidating deferred messages one after another against the receiver's
/// current roster: the state afterwards and each message's disposition.
pub open spec fn spec_revalidate(s: ReceiverV, items: Seq<DeferredV>) -> (ReceiverV, Seq<ReceiveDisposition>)
    decreases items.len(),
{
    if items.len() == 0 {
        (s, Seq::empty())
    } else {
        let (s1, ds) = spec_revalidate(s, items.drop_last());
        let item = items.last();
        let (s2, d) = spec_receive(s1, item.context, item.context.sender, item.commitment);
        (s2, ds.push(d))
    }
}

impl Key {
    fn same(&self, other: &Key) -> (eq: bool)
        ensures
            eq == (self@ == other@),
    {
        self.group_id.same(&other.group_id) && self.revision == other.revision && self.sender.same(&other.sender)
            && self.sequence == other.sequence
    }
}

fn key_from(c: &ApplicationContext) -> (k: Key)
    ensures
        k@ == key_of(c@),
{
    Key { group_id: c.group_id, revision: c.revision, sender: c.sender.duplicate(), sequence: c.logical_sequence }
}

fn sat_add_u64(a: u64, b: u64) -> (r: u64)
    ensures
        r == sat_add(a, b),
{
    if a > u64::MAX - b {
        u64::MAX
    } else {
        a + b
    }
}

impl GroupReceiver {
    /// The receiving policy's well-formedness: each identity is held at most
    /// once in each list, and few enough are deferred.
    pub closed spec fn wf(&self) -> bool {
        receiver_wf(self@)
    }

    pub fn new(roster: Roster, roster_digest: [u8; 32], local: Member) -> (r: GroupReceiver)
        ensures
            r.wf(),
            r@ == (ReceiverV {
                roster: roster@,
                roster_digest: roster_digest@,
                local: local@,
                accepted: Seq::empty(),
                deferred: Seq::empty(),
                next_event_id: 0,
            }),
    {
        let r = GroupReceiver {
            roster,
            roster_digest,
            local,
            accepted: Vec::new(),
            deferred: Vec::new(),
            next_event_id: 0,
        };
        assert(r@.accepted =~= Seq::<AcceptedV>::empty());
        assert(r@.deferred =~= Seq::<DeferredV>::empty());
        r
    }

    fn accept_current(&mut self, key: Key, commitment: [u8; 32]) -> (d: ReceiveDisposition)
        requires
            old(self).wf(),
        ensures
            final(self).wf(),
            (final(self)@, d) == spec_accept_current(old(self)@, key@, commitment@),
    {
        let ghost s = self@;
        let mut i: usize = 0;
        while i < self.accepted.len()
            invariant
                0 <= i <= self.accepted@.len(),
                self@ == s,
                receiver_wf(s),
                forall|j: int| 0 <= j < i ==> (#[trigger] s.accepted[j]).key != key@,
            decreases self.accepted@.len() - i,
        {
            assert(s.accepted[i as int] == self.accepted@[i as int]@);
            if self.accepted[i].key.same(&key) {
                assert(has_accepted(s, key@));
                let ghost chosen = choose|k: int| 0 <= k < s.accepted.len() && (#[trigger] s.accepted[k]).key
                    == key@;
                assert(chosen == i as int) by {
                    if chosen != i as int {
                        if chosen < i {
                            assert(s.accepted[chosen].key != s.accepted[i as int].key);
                        } else {
                            assert(s.accepted[i as int].key != s.accepted[chosen].key);
                        }
                    }
                }
                if same_digest(&self.accepted[i].commitment, &commitment) {
                    return ReceiveDisposition::Duplicate { event_id: self.accepted[i].event_id };
                } else {
                    return ReceiveDisposition::Rejected(ReceiveRefusal::Conflict);
                }
            }
            i = i + 1;
        }
        assert(!has_accepted(s, key@));
        let mut j: usize = 0;
        while j < self.accepted.len()
            invariant
                0 <= j <= self.accepted@.len(),
                self@ == s,
                receiver_wf(s),
                !has_accepted(s, key@),
                forall|k: int|
                    0 <= k < j ==> !((#[trigger] s.accepted[k]).key.sender == key@.sender
                        && s.accepted[k].key.revision == key@.revision && sat_add(key@.sequence, DEDUP_WINDOW)
                        <= s.accepted[k].key.sequence),
            decreases self.accepted@.len() - j,
        {
            assert(s.accepted[j as int] == self.accepted@[j as int]@);
            let item = &self.accepted[j];
            if item.key.sender.same(&key.sender) && item.key.revision == key.revision && sat_add_u64(
                key.sequence,
                DEDUP_WINDOW,
            ) <= item.key.sequence {
                assert(sequence_expired(s, key@));
                return ReceiveDisposition::Rejected(ReceiveRefusal::SequenceExpired);
            }
            j = j + 1;
        }
        assert(!sequence_expired(s, key@));
        let event_id = self.next_event_id;
        self.next_event_id = sat_add_u64(self.next_event_id, 1);
        let ghost item_v = AcceptedV { key: key@, commitment: commitment@, event_id };
        self.accepted.push(Accepted { key, commitment, event_id });
        assert(self@.accepted =~= s.accepted.push(item_v));
        assert forall|a: int, b: int| 0 <= a < b < self@.accepted.len() implies (
        #[trigger] self@.accepted[a]).key != (#[trigger] self@.accepted[b]).key by {
            if b == s.accepted.len() {
                assert(self@.accepted[a] == s.accepted[a]);
            } else {
                assert(self@.accepted[a] == s.accepted[a] && self@.accepted[b] == s.accepted[b]);
            }
        }
        ReceiveDisposition::Accepted { event_id }
    }

    fn defer(&mut self, context: &ApplicationContext, commitment: [u8; 32]) -> (d: ReceiveDisposition)
        requires
            old(self).wf(),
        ensures
            final(self).wf(),
            (final(self)@, d) == spec_defer(old(self)@, context@, commitment@),
    {
        let ghost s = self@;
        let key = key_from(context);
        let mut i: usize = 0;
        while i < self.deferred.len()
            invariant
                0 <= i <= self.deferred@.len(),
                self@ == s,
                receiver_wf(s),
                key@ == key_of(context@),
                forall|j: int| 0 <= j < i ==> key_of((#[trigger] s.deferred[j]).context) != key@,
            decreases self.deferred@.len() - i,
        {
            assert(s.deferred[i as int] == self.deferred@[i as int]@);
            let held = key_from(&self.deferred[i].context);
            if held.same(&key) {
                assert(has_deferred(s, key@));
                let ghost chosen = choose|k: int| 0 <= k < s.deferred.len() && key_of(
                    (#[trigger] s.deferred[k]).context,
                ) == key@;
                assert(chosen == i as int) by {
                    if chosen != i as int {
                        if chosen < i {
                            assert(key_of(s.deferred[chosen].context) != key_of(s.deferred[i as int].context));
                        } else {
                            assert(key_of(s.deferred[i as int].context) != key_of(s.deferred[chosen].context));
                        }
                    }
                }
                if same_digest(&self.deferred[i].commitment, &commitment) {
                    return ReceiveDisposition::Deferred;
                } else {
                    return ReceiveDisposition::Rejected(ReceiveRefusal::Conflict);
                }
            }
            i = i + 1;
        }
        assert(!has_deferred(s, key@));
        if self.deferred.len() == MAX_DEFERRED {
            return ReceiveDisposition::Rejected(ReceiveRefusal::DeferredFull);
        }
        let ghost item_v = DeferredV { context: context@, commitment: commitment@ };
        self.deferred.push(Deferred { context: context.duplicate(), commitment });
        assert(self@.deferred =~= s.deferred.push(item_v));
        assert(s.deferred.len() < MAX_DEFERRED);
        assert(self@.deferred.len() <= MAX_DEFERRED);
        assert(self@.accepted == s.accepted);
        assert forall|a: int, b: int| 0 <= a < b < self@.deferred.len() implies key_of(
            (#[trigger] self@.deferred[a]).context,
        ) != key_of((#[trigger] self@.deferred[b]).context) by {
            if b == s.deferred.len() {
                assert(self@.deferred[a] == s.deferred[a]);
            } else {
                assert(self@.deferred[a] == s.deferred[a] && self@.deferred[b] == s.deferred[b]);
            }
        }
        ReceiveDisposition::Deferred
    }

    /// Apply the receiving policy. `authenticated_peer` must be the peer the
    /// pairwise channel reported, never a relay routing label.
    pub fn receive(&mut self, context: &ApplicationContext, authenticated_peer: &Member, commitment: [u8; 32]) -> (d:
        ReceiveDisposition)
        requires
            old(self).wf(),
        ensures
            final(self).wf(),
            (final(self)@, d) == spec_receive(old(self)@, context@, authenticated_peer@, commitment@),
    {
        if !authenticated_peer.same(&context.sender) {
            return ReceiveDisposition::Rejected(ReceiveRefusal::WrongPeer);
        }
        if !context.group_id.same(&self.roster.group_id) {
            return ReceiveDisposition::Rejected(ReceiveRefusal::WrongGroup);
        }
        if !context.recipient.same(&self.local) {
            return ReceiveDisposition::Rejected(ReceiveRefusal::WrongRecipient);
        }
        if !self.roster.grants(&context.sender) || !self.roster.grants(&self.local) {
            return ReceiveDisposition::Rejected(ReceiveRefusal::NotActive);
        }
        if context.revision < self.roster.revision {
            return ReceiveDisposition::Rejected(ReceiveRefusal::OldRevision);
        }
        if context.revision == self.roster.revision {
            if !same_digest(&context.roster_digest, &self.roster_digest) {
                return ReceiveDisposition::Rejected(ReceiveRefusal::InvalidRoster);
            }
            let key = key_from(context);
            return self.accept_current(key, commitment);
        }
        if context.revision > sat_add_u64(self.roster.revision, FUTURE_REVISIONS) {
            return ReceiveDisposition::Rejected(ReceiveRefusal::FutureOutOfRange);
        }
        self.defer(context, commitment)
    }

    /// Install a roster the control layer has already authenticated and
    /// accepted, then repeat ordinary receive validation for every deferred
    /// message, in the order they were deferred. The caller records the
    /// returned dispositions with the roster change before acknowledging or
    /// delivering any accepted message.
    pub fn install_accepted_roster(&mut self, roster: Roster, roster_digest: [u8; 32]) -> (r: Result<
        Vec<RevalidatedReceive>,
        ReceiveRefusal,
    >)
        requires
            old(self).wf(),
        ensures
            final(self).wf(),
            match r {
                Err(e) => roster@.group_id != old(self)@.roster.group_id && e == ReceiveRefusal::WrongGroup
                    && final(self)@ == old(self)@,
                Ok(out) => {
                    let s = ReceiverV {
                        roster: roster@,
                        roster_digest: roster_digest@,
                        deferred: Seq::empty(),
                        ..old(self)@
                    };
                    let (s2, ds) = spec_revalidate(s, old(self)@.deferred);
                    &&& roster@.group_id == old(self)@.roster.group_id
                    &&& final(self)@ == s2
                    &&& out@.len() == old(self)@.deferred.len()
                    &&& forall|i: int|
                        0 <= i < out@.len() ==> (#[trigger] out@[i]).context@ == old(self)@.deferred[i].context
                            && out@[i].commitment@ == old(self)@.deferred[i].commitment && out@[i].disposition
                            == ds[i]
                },
            },
    {
        if !roster.group_id.same(&self.roster.group_id) {
            return Err(ReceiveRefusal::WrongGroup);
        }
        let ghost items = self@.deferred;
        self.roster = roster;
        self.roster_digest = roster_digest;
        let mut deferred: Vec<Deferred> = Vec::new();
        std::mem::swap(&mut deferred, &mut self.deferred);
        assert(deferred@.map_values(|d: Deferred| d@) == items);
        let ghost start = self@;
        assert(start.deferred =~= Seq::<DeferredV>::empty());
        assert(receiver_wf(start));
        let mut out: Vec<RevalidatedReceive> = Vec::new();
        let mut i: usize = 0;
        assert(items.take(0) =~= Seq::<DeferredV>::empty());
        while i < deferred.len()
            invariant
                0 <= i <= deferred@.len(),
                deferred@.map_values(|d: Deferred| d@) == items,
                self.wf(),
                self@ == spec_revalidate(start, items.take(i as int)).0,
                out@.len() == i,
                forall|j: int|
                    0 <= j < i ==> (#[trigger] out@[j]).context@ == items[j].context && out@[j].commitment@
                        == items[j].commitment && out@[j].disposition == spec_revalidate(
                        start,
                        items.take(i as int),
                    ).1[j],
                spec_revalidate(start, items.take(i as int)).1.len() == i,
            decreases deferred@.len() - i,
        {
            let ghost before = spec_revalidate(start, items.take(i as int));
            assert(items[i as int] == deferred@[i as int]@);
            let item = &deferred[i];
            let disposition = self.receive(&item.context, &item.context.sender, item.commitment);
            out.push(RevalidatedReceive {
                context: item.context.duplicate(),
                commitment: item.commitment,
                disposition,
            });
            proof {
                let next = items.take(i + 1);
                assert(next.drop_last() =~= items.take(i as int));
                assert(next.last() == items[i as int]);
            }
            i = i + 1;
        }
        assert(items.take(i as int) =~= items);
        Ok(out)
    }
}

/// Receiving is idempotent for the sender's retries: once a message is
/// accepted under an event number, the same message with the same
/// commitment is a duplicate under that same number, the same message with
/// a changed commitment is a conflict, and neither changes the receiver.
pub proof fn law_receiving_deduplicates_with_stable_event_ids(
    s: ReceiverV,
    c: ApplicationContextV,
    peer: MemberV,
    commitment: Seq<u8>,
    other: Seq<u8>,
)
    requires
        receiver_wf(s),
        spec_receive(s, c, peer, commitment).1 is Accepted,
    ensures
        ({
            let (s1, d) = spec_receive(s, c, peer, commitment);
            &&& spec_receive(s1, c, peer, commitment) == (s1, ReceiveDisposition::Duplicate {
                event_id: d->Accepted_event_id,
            })
            &&& other != commitment ==> spec_receive(s1, c, peer, other) == (s1, ReceiveDisposition::Rejected(
                ReceiveRefusal::Conflict,
            ))
            &&& d->Accepted_event_id == s.next_event_id
        }),
{
    let (s1, d) = spec_receive(s, c, peer, commitment);
    let key = key_of(c);
    let n = s.accepted.len();
    assert(s1.accepted[n as int].key == key);
    assert(has_accepted(s1, key));
    let chosen = choose|i: int| 0 <= i < s1.accepted.len() && (#[trigger] s1.accepted[i]).key == key;
    if chosen != n as int {
        assert(s1.accepted[chosen] == s.accepted[chosen]);
        assert(has_accepted(s, key));
    }
}

/// Event numbers are handed out in order: an accepted message gets the
/// receiver's next number and the next number moves past it (held at
/// `u64::MAX`); no other disposition hands one out.
pub proof fn law_event_ids_are_handed_out_in_order(
    s: ReceiverV,
    c: ApplicationContextV,
    peer: MemberV,
    commitment: Seq<u8>,
)
    ensures
        ({
            let (s1, d) = spec_receive(s, c, peer, commitment);
            &&& d is Accepted ==> d->Accepted_event_id == s.next_event_id && s1.next_event_id == sat_add(
                s.next_event_id,
                1,
            )
            &&& !(d is Accepted) ==> s1.next_event_id == s.next_event_id && s1.accepted == s.accepted
        }),
{
}

/// A message that was never accepted, while its sender already has an
/// accepted message at the same revision at least `DEDUP_WINDOW` sequence
/// numbers ahead (the sum held at `u64::MAX`), is refused as expired and
/// changes nothing.
pub proof fn law_a_message_far_behind_its_sender_is_expired(
    s: ReceiverV,
    key: KeyV,
    commitment: Seq<u8>,
    i: int,
)
    requires
        forall|j: int| 0 <= j < s.accepted.len() ==> (#[trigger] s.accepted[j]).key != key,
        0 <= i < s.accepted.len(),
        s.accepted[i].key.sender == key.sender,
        s.accepted[i].key.revision == key.revision,
        key.sequence + DEDUP_WINDOW <= s.accepted[i].key.sequence || s.accepted[i].key.sequence == u64::MAX,
    ensures
        spec_accept_current(s, key, commitment) == (s, ReceiveDisposition::Rejected(ReceiveRefusal::SequenceExpired)),
{
    assert(!has_accepted(s, key));
    assert(sequence_expired(s, key));
}

/// The same through the whole receiving policy: a current-revision message
/// from an active sender to an active local member, under the right roster
/// digest, that was never accepted and trails an accepted message of its
/// sender at its revision by at least `DEDUP_WINDOW` is refused as expired
/// and changes nothing.
pub proof fn law_receive_refuses_a_message_far_behind_its_sender(
    s: ReceiverV,
    c: ApplicationContextV,
    commitment: Seq<u8>,
    i: int,
)
    requires
        c.group_id == s.roster.group_id,
        c.recipient == s.local,
        !s.roster.closed,
        s.roster.members.contains(c.sender),
        s.roster.members.contains(s.local),
        c.revision == s.roster.revision,
        c.roster_digest == s.roster_digest,
        forall|j: int| 0 <= j < s.accepted.len() ==> (#[trigger] s.accepted[j]).key != key_of(c),
        0 <= i < s.accepted.len(),
        s.accepted[i].key.sender == c.sender,
        s.accepted[i].key.revision == c.revision,
        c.logical_sequence + DEDUP_WINDOW <= s.accepted[i].key.sequence || s.accepted[i].key.sequence == u64::MAX,
    ensures
        spec_receive(s, c, c.sender, commitment) == (s, ReceiveDisposition::Rejected(
            ReceiveRefusal::SequenceExpired,
        )),
{
    law_a_message_far_behind_its_sender_is_expired(s, key_of(c), commitment, i);
}

/// A closed roster makes no member active: every message that reaches the
/// membership check is refused as `NotActive`, and nothing changes.
pub proof fn law_a_closed_roster_refuses_every_message(
    s: ReceiverV,
    c: ApplicationContextV,
    commitment: Seq<u8>,
)
    requires
        s.roster.closed,
        c.group_id == s.roster.group_id,
        c.recipient == s.local,
    ensures
        spec_receive(s, c, c.sender, commitment) == (s, ReceiveDisposition::Rejected(ReceiveRefusal::NotActive)),
{
    crate::group::law_a_closed_roster_grants_nothing(s.roster, c.sender);
}

/// The receiving policy's refusals, in the order it checks: a peer other
/// than the sender, another group, another recipient, then an inactive
/// sender or local member, then a revision older than the roster's, then,
/// at the roster's revision, another roster digest. Each refusal changes
/// nothing. A never-accepted current message that trails no accepted
/// message of its sender by `DEDUP_WINDOW` is accepted under the next event
/// number and recorded.
pub proof fn law_receiving_checks_in_order(s: ReceiverV, c: ApplicationContextV, peer: MemberV, commitment: Seq<u8>)
    ensures
        peer != c.sender ==> spec_receive(s, c, peer, commitment) == (s, ReceiveDisposition::Rejected(
            ReceiveRefusal::WrongPeer,
        )),
        peer == c.sender && c.group_id != s.roster.group_id ==> spec_receive(s, c, peer, commitment) == (
            s,
            ReceiveDisposition::Rejected(ReceiveRefusal::WrongGroup),
        ),
        peer == c.sender && c.group_id == s.roster.group_id && c.recipient != s.local ==> spec_receive(
            s,
            c,
            peer,
            commitment,
        ) == (s, ReceiveDisposition::Rejected(ReceiveRefusal::WrongRecipient)),
        peer == c.sender && c.group_id == s.roster.group_id && c.recipient == s.local && (!s.roster.members.contains(
            c.sender,
        ) || !s.roster.members.contains(s.local)) ==> spec_receive(s, c, peer, commitment) == (
            s,
            ReceiveDisposition::Rejected(ReceiveRefusal::NotActive),
        ),
        ({
            &&& peer == c.sender
            &&& c.group_id == s.roster.group_id
            &&& c.recipient == s.local
            &&& !s.roster.closed
            &&& s.roster.members.contains(c.sender)
            &&& s.roster.members.contains(s.local)
        }) ==> {
            &&& c.revision < s.roster.revision ==> spec_receive(s, c, peer, commitment) == (
                s,
                ReceiveDisposition::Rejected(ReceiveRefusal::OldRevision),
            )
            &&& c.revision == s.roster.revision && c.roster_digest != s.roster_digest ==> spec_receive(
                s,
                c,
                peer,
                commitment,
            ) == (s, ReceiveDisposition::Rejected(ReceiveRefusal::InvalidRoster))
            &&& c.revision == s.roster.revision && c.roster_digest == s.roster_digest && (forall|j: int|
                0 <= j < s.accepted.len() ==> (#[trigger] s.accepted[j]).key != key_of(c)) && (forall|j: int|
                0 <= j < s.accepted.len() ==> !((#[trigger] s.accepted[j]).key.sender == c.sender
                    && s.accepted[j].key.revision == c.revision && (c.logical_sequence + DEDUP_WINDOW
                    <= s.accepted[j].key.sequence || s.accepted[j].key.sequence == u64::MAX))) ==> spec_receive(
                s,
                c,
                peer,
                commitment,
            ) == (
                ReceiverV {
                    accepted: s.accepted.push(AcceptedV { key: key_of(c), commitment, event_id: s.next_event_id }),
                    next_event_id: if s.next_event_id == u64::MAX {
                        u64::MAX
                    } else {
                        (s.next_event_id + 1) as u64
                    },
                    ..s
                },
                ReceiveDisposition::Accepted { event_id: s.next_event_id },
            )
        },
{
    crate::group::law_a_closed_roster_grants_nothing(s.roster, c.sender);
    crate::group::law_a_closed_roster_grants_nothing(s.roster, s.local);
    let key = key_of(c);
    if (forall|j: int| 0 <= j < s.accepted.len() ==> (#[trigger] s.accepted[j]).key != key) {
        assert(!has_accepted(s, key));
    }
    if (forall|j: int|
        0 <= j < s.accepted.len() ==> !((#[trigger] s.accepted[j]).key.sender == c.sender
            && s.accepted[j].key.revision == c.revision && (c.logical_sequence + DEDUP_WINDOW
            <= s.accepted[j].key.sequence || s.accepted[j].key.sequence == u64::MAX))) {
        assert(!sequence_expired(s, key));
    }
}

/// A message from a later revision that passes the policy's earlier checks
/// is refused beyond `FUTURE_REVISIONS` revisions ahead; within them, a new
/// one waits in the deferred queue while it has room, and is refused when
/// the queue is full, changing nothing.
pub proof fn law_future_messages_wait_within_range(
    s: ReceiverV,
    c: ApplicationContextV,
    commitment: Seq<u8>,
)
    requires
        c.group_id == s.roster.group_id,
        c.recipient == s.local,
        !s.roster.closed,
        s.roster.members.contains(c.sender),
        s.roster.members.contains(s.local),
        c.revision > s.roster.revision,
    ensures
        c.revision > s.roster.revision + FUTURE_REVISIONS ==> spec_receive(s, c, c.sender, commitment) == (
            s,
            ReceiveDisposition::Rejected(ReceiveRefusal::FutureOutOfRange),
        ),
        c.revision <= s.roster.revision + FUTURE_REVISIONS && (forall|j: int|
            0 <= j < s.deferred.len() ==> key_of((#[trigger] s.deferred[j]).context) != key_of(c)) ==> {
            &&& s.deferred.len() < MAX_DEFERRED ==> spec_receive(s, c, c.sender, commitment) == (
                ReceiverV { deferred: s.deferred.push(DeferredV { context: c, commitment }), ..s },
                ReceiveDisposition::Deferred,
            )
            &&& s.deferred.len() == MAX_DEFERRED ==> spec_receive(s, c, c.sender, commitment) == (
                s,
                ReceiveDisposition::Rejected(ReceiveRefusal::DeferredFull),
            )
        },
{
    crate::group::law_a_closed_roster_grants_nothing(s.roster, c.sender);
    crate::group::law_a_closed_roster_grants_nothing(s.roster, s.local);
    if (forall|j: int| 0 <= j < s.deferred.len() ==> key_of((#[trigger] s.deferred[j]).context) != key_of(c)) {
        assert(!has_deferred(s, key_of(c)));
    }
}

} // verus!
