//! The pure trust core of the directory.
//!
//! The directory binds each device to a public identity key under *trust on
//! first use*: the first registration of a device sticks, and a later one must
//! present the same key (it may refresh the prekey bundle) or be rejected, so
//! an address cannot be silently reassigned. Authorized *rotation* replaces the
//! bound key through a separate path. The rollback witness is the third pure
//! rule: a monotone maximum over presented persisted-state generations.
use vstd::prelude::*;

verus! {

/// The outcome of a registration attempt.
#[derive(Clone, Copy, Debug, PartialEq, Eq, Structural)]
pub enum Registration {
    /// The device was unbound; it is now bound to the presented identity.
    Registered,
    /// The device was already bound to this same identity; only the prekey
    /// bundle (held by the caller) refreshes.
    Refreshed,
    /// The device is bound to a different identity; nothing changes.
    Rejected,
}

/// The outcome of an authorized identity rotation.
#[derive(Clone, Copy, Debug, PartialEq, Eq, Structural)]
pub enum Rotation {
    /// The device was bound; its identity is now replaced.
    Rotated,
    /// The device was not bound: there is no binding to rotate.
    Unregistered,
}

/// The verdict of witnessing a device's presented persisted-state generation.
#[derive(Clone, Copy, Debug, PartialEq, Eq, Structural)]
pub enum Witness {
    /// At or ahead of the highest generation seen.
    Fresh,
    /// Below the highest generation already seen for this device.
    RolledBack,
    /// No binding exists to witness against.
    Unregistered,
}

/// The trust-on-first-use rule over identity keys as byte sequences.
pub open spec fn spec_register(current: Option<Seq<u8>>, presented: Seq<u8>) -> (Registration, Seq<u8>) {
    match current {
        None => (Registration::Registered, presented),
        Some(existing) => if existing == presented {
            (Registration::Refreshed, presented)
        } else {
            (Registration::Rejected, existing)
        },
    }
}

/// The rotation rule: a bound device rotates, an unbound one stays unbound.
pub open spec fn spec_rotate(current: Option<Seq<u8>>, new_identity: Seq<u8>) -> (Rotation, Option<Seq<u8>>) {
    match current {
        None => (Rotation::Unregistered, None),
        Some(_) => (Rotation::Rotated, Some(new_identity)),
    }
}

/// The rollback rule: fresh iff the offer does not go backwards; the new
/// highest is the maximum of the stored and the offered generation.
pub open spec fn spec_witness(stored: Option<u64>, offered: u64) -> (Witness, u64) {
    match stored {
        None => (Witness::Fresh, offered),
        Some(highest) => if offered >= highest {
            (Witness::Fresh, offered)
        } else {
            (Witness::RolledBack, highest)
        },
    }
}

/// Byte-for-byte equality of two slices.
pub fn bytes_eq(a: &[u8], b: &[u8]) -> (eq: bool)
    ensures
        eq == (a@ == b@),
{
    if a.len() != b.len() {
        return false;
    }
    let mut i: usize = 0;
    while i < a.len()
        invariant
            a@.len() == b@.len(),
            0 <= i <= a@.len(),
            forall|j: int| 0 <= j < i ==> a@[j] == b@[j],
        decreases a@.len() - i,
    {
        if a[i] != b[i] {
            return false;
        }
        i = i + 1;
    }
    assert(a@ =~= b@);
    true
}

/// The trust-on-first-use decision for a registration, as a pure function of
/// the device's current identity binding. Returns the outcome and the identity
/// the device is bound to afterwards; a rejected registration keeps the
/// existing binding.
pub fn register_core(current: Option<Vec<u8>>, presented: Vec<u8>) -> (result: (Registration, Vec<u8>))
    ensures
        (result.0, result.1@) == spec_register(
            match current { Some(c) => Some(c@), None => None },
            presented@,
        ),
{
    match current {
        None => (Registration::Registered, presented),
        Some(existing) => {
            if bytes_eq(existing.as_slice(), presented.as_slice()) {
                (Registration::Refreshed, presented)
            } else {
                (Registration::Rejected, existing)
            }
        },
    }
}

/// The authorized-rotation decision: a bound device rotates to the new key; an
/// unbound device cannot be rotated and stays unbound.
pub fn rotate_core(current: Option<Vec<u8>>, new_identity: Vec<u8>) -> (result: (Rotation, Option<Vec<u8>>))
    ensures
        result.0 == spec_rotate(match current { Some(c) => Some(c@), None => None }, new_identity@).0,
        match result.1 { Some(k) => Some(k@), None => None } == spec_rotate(
            match current { Some(c) => Some(c@), None => None },
            new_identity@,
        ).1,
{
    match current {
        None => (Rotation::Unregistered, None),
        Some(_) => (Rotation::Rotated, Some(new_identity)),
    }
}

/// The rollback decision, as a pure function of the highest generation stored
/// and the one offered. The returned generation never decreases.
pub fn witness_core(stored: Option<u64>, offered: u64) -> (result: (Witness, u64))
    ensures
        result == spec_witness(stored, offered),
{
    match stored {
        None => (Witness::Fresh, offered),
        Some(highest) => {
            if offered >= highest {
                (Witness::Fresh, offered)
            } else {
                (Witness::RolledBack, highest)
            }
        },
    }
}

/// Trust on first use: whatever is presented, a device that is bound stays
/// bound to a key, and a rejected registration leaves the binding unchanged;
/// only a matching key refreshes.
pub proof fn law_register_core_is_tofu(existing: Seq<u8>, presented: Seq<u8>)
    ensures
        spec_register(Some(existing), presented).1 == existing,
        spec_register(Some(existing), presented).0 == Registration::Rejected <==> existing != presented,
        spec_register(Some(existing), presented).0 != Registration::Registered,
{
}

/// The witnessed generation is monotone: it never falls below either the
/// stored or the offered generation, and a rolled-back verdict never moves it.
pub proof fn law_witness_core_is_monotone(stored: Option<u64>, offered: u64)
    ensures
        spec_witness(stored, offered).1 >= offered || spec_witness(stored, offered).0 == Witness::RolledBack,
        stored matches Some(h) ==> spec_witness(stored, offered).1 >= h,
        spec_witness(stored, offered).1 == offered || spec_witness(stored, offered).1 == stored.unwrap(),
        spec_witness(stored, offered).0 == Witness::RolledBack ==> stored == Some(spec_witness(stored, offered).1)
            && offered < spec_witness(stored, offered).1,
{
}

} // verus!
