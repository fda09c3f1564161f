//! The accepted roster and its progression, once the caller has checked the
//! core commitment over each candidate's preimage.
use crate::group::{same_digest, Member, MemberV, Roster, RosterV, roster_grants};
use vstd::prelude::*;

verus! {

/// Why a candidate roster cannot replace the accepted one.
#[derive(Clone, Copy, Debug, PartialEq, Eq, Structural)]
pub enum RosterRefusal {
    WrongAuthority,
    WrongGroup,
    InvalidGenesis,
    StaleRevision,
    MissingPredecessor,
    Conflict,
    AuthorityTransfer,
    PolicyChange,
    Reopened,
    MissingAuthorityMember,
}

/// The result of considering a complete, commitment-checked roster.
#[derive(Clone, Copy, Debug, PartialEq, Eq, Structural)]
pub enum RosterDisposition {
    Accepted,
    Duplicate,
    Rejected(RosterRefusal),
}

/// One locally accepted roster and the digest the caller computed over its
/// preimage.
#[derive(Clone, Debug, PartialEq, Eq)]
pub struct RosterView {
    roster: Roster,
    digest: [u8; 32],
}

/// An accepted roster as a value.
pub struct RosterViewV {
    pub roster: RosterV,
    pub digest: Seq<u8>,
}

impl View for RosterView {
    type V = RosterViewV;

    closed spec fn view(&self) -> RosterViewV {
        RosterViewV { roster: self.roster@, digest: self.digest@ }
    }
}

/// Thirty-two zero bytes: the predecessor digest of a genesis roster.
pub open spec fn zero_digest() -> Seq<u8> {
    Seq::new(32, |i: int| 0u8)
}

/// The only valid genesis: authored by the authenticated authority, at
/// revision zero with no predecessor, open, with the authority its only
/// member.
pub open spec fn genesis_refusal(authenticated: MemberV, r: RosterV) -> Option<RosterRefusal> {
    if authenticated != r.authority {
        Some(RosterRefusal::WrongAuthority)
    } else if r.revision != 0 || r.predecessor_digest != zero_digest() || r.closed || r.members != seq![
        r.authority,
    ] {
        Some(RosterRefusal::InvalidGenesis)
    } else {
        None
    }
}

/// Considering a successor: the checks in order, and the view afterwards.
/// Only an exact next revision from the same authority, in the same group
/// and policy, naming the authority a member, chained to the accepted digest
/// and not reopening a closed group, replaces the view.
pub open spec fn spec_accept_successor(
    v: RosterViewV,
    authenticated: MemberV,
    candidate: RosterV,
    digest: Seq<u8>,
) -> (RosterViewV, RosterDisposition) {
    let current = v.roster;
    if authenticated != current.authority {
        (v, RosterDisposition::Rejected(RosterRefusal::WrongAuthority))
    } else if candidate.group_id != current.group_id {
        (v, RosterDisposition::Rejected(RosterRefusal::WrongGroup))
    } else if candidate.authority != current.authority {
        (v, RosterDisposition::Rejected(RosterRefusal::AuthorityTransfer))
    } else if candidate.policy_version != current.policy_version {
        (v, RosterDisposition::Rejected(RosterRefusal::PolicyChange))
    } else if !candidate.members.contains(candidate.authority) {
        (v, RosterDisposition::Rejected(RosterRefusal::MissingAuthorityMember))
    } else if candidate.revision < current.revision {
        (v, RosterDisposition::Rejected(RosterRefusal::StaleRevision))
    } else if candidate.revision == current.revision {
        if candidate == current && digest == v.digest {
            (v, RosterDisposition::Duplicate)
        } else {
            (v, RosterDisposition::Rejected(RosterRefusal::Conflict))
        }
    } else if candidate.revision != current.revision + 1 || candidate.predecessor_digest != v.digest {
        (v, RosterDisposition::Rejected(RosterRefusal::MissingPredecessor))
    } else if current.closed && !candidate.closed {
        (v, RosterDisposition::Rejected(RosterRefusal::Reopened))
    } else {
        (RosterViewV { roster: candidate, digest }, RosterDisposition::Accepted)
    }
}

impl RosterView {
    /// Start from the only valid genesis.
    pub fn accept_genesis(authenticated_authority: &Member, roster: Roster, digest: [u8; 32]) -> (r: Result<
        RosterView,
        RosterRefusal,
    >)
        ensures
            match r {
                Ok(view) => genesis_refusal(authenticated_authority@, roster@) is None && view@ == (RosterViewV {
                    roster: roster@,
                    digest: digest@,
                }),
                Err(e) => genesis_refusal(authenticated_authority@, roster@) == Some(e),
            },
    {
        if !authenticated_authority.same(&roster.authority) {
            return Err(RosterRefusal::WrongAuthority);
        }
        let zero = [0u8; 32];
        assert(zero@ =~= zero_digest());
        let only_authority = roster.members.len() == 1 && roster.members[0].same(&roster.authority);
        proof {
            if roster@.members.len() == 1 {
                assert(roster@.members[0] == roster.members@[0]@);
                if roster@.members[0] == roster@.authority {
                    assert(roster@.members =~= seq![roster@.authority]);
                }
            }
        }
        if roster.revision != 0 || !same_digest(&roster.predecessor_digest, &zero) || roster.closed
            || !only_authority {
            return Err(RosterRefusal::InvalidGenesis);
        }
        Ok(RosterView { roster, digest })
    }

    pub fn roster(&self) -> (r: &Roster)
        ensures
            r@ == self@.roster,
    {
        &self.roster
    }

    pub fn digest(&self) -> (d: &[u8; 32])
        ensures
            d@ == self@.digest,
    {
        &self.digest
    }

    /// Whether the accepted roster grants this complete binding application
    /// membership. Observing control history alone does not.
    pub fn is_active(&self, member: &Member) -> (active: bool)
        ensures
            active == roster_grants(self@.roster, member@),
    {
        self.roster.grants(member)
    }

    /// Consider a successor roster.
    pub fn accept_successor(&mut self, authenticated_authority: &Member, candidate: Roster, digest: [u8; 32]) -> (d:
        RosterDisposition)
        ensures
            (final(self)@, d) == spec_accept_successor(old(self)@, authenticated_authority@, candidate@, digest@),
    {
        if !authenticated_authority.same(&self.roster.authority) {
            return RosterDisposition::Rejected(RosterRefusal::WrongAuthority);
        }
        if !candidate.group_id.same(&self.roster.group_id) {
            return RosterDisposition::Rejected(RosterRefusal::WrongGroup);
        }
        if !candidate.authority.same(&self.roster.authority) {
            return RosterDisposition::Rejected(RosterRefusal::AuthorityTransfer);
        }
        if candidate.policy_version != self.roster.policy_version {
            return RosterDisposition::Rejected(RosterRefusal::PolicyChange);
        }
        let names_authority = crate::group::contains_member(candidate.members.as_slice(), &candidate.authority);
        if !names_authority {
            return RosterDisposition::Rejected(RosterRefusal::MissingAuthorityMember);
        }
        if candidate.revision < self.roster.revision {
            return RosterDisposition::Rejected(RosterRefusal::StaleRevision);
        }
        if candidate.revision == self.roster.revision {
            if candidate.same(&self.roster) && same_digest(&digest, &self.digest) {
                return RosterDisposition::Duplicate;
            } else {
                return RosterDisposition::Rejected(RosterRefusal::Conflict);
            }
        }
        if self.roster.revision == u64::MAX || candidate.revision != self.roster.revision + 1 || !same_digest(
            &candidate.predecessor_digest,
            &self.digest,
        ) {
            return RosterDisposition::Rejected(RosterRefusal::MissingPredecessor);
        }
        if self.roster.closed && !candidate.closed {
            return RosterDisposition::Rejected(RosterRefusal::Reopened);
        }
        self.roster = candidate;
        self.digest = digest;
        RosterDisposition::Accepted
    }
}

/// A roster view only moves forward one revision at a time along its own
/// chain: a refusal or a duplicate leaves it unchanged, and an accepted
/// successor is the candidate itself, exactly one revision later, chained to
/// the previous digest, from the same authority in the same group and
/// policy, naming the authority a member, and never reopening a closed group.
pub proof fn law_roster_view_moves_along_its_chain(
    v: RosterViewV,
    authenticated: MemberV,
    candidate: RosterV,
    digest: Seq<u8>,
)
    ensures
        ({
            let (v2, d) = spec_accept_successor(v, authenticated, candidate, digest);
            &&& d != RosterDisposition::Accepted ==> v2 == v
            &&& d == RosterDisposition::Accepted ==> {
                &&& v2 == (RosterViewV { roster: candidate, digest })
                &&& authenticated == v.roster.authority
                &&& candidate.revision == v.roster.revision + 1
                &&& candidate.predecessor_digest == v.digest
                &&& candidate.group_id == v.roster.group_id
                &&& candidate.authority == v.roster.authority
                &&& candidate.policy_version == v.roster.policy_version
                &&& candidate.members.contains(candidate.authority)
                &&& (v.roster.closed ==> candidate.closed)
            }
        }),
{
}

} // verus!
