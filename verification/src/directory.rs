//! A directory of public key material.
//!
//! Devices register their public identity key and prekey bundle here so
//! others can find them. Everything stored is public and opaque: no secrets,
//! no cryptography. Registration is *trust on first use*: the first
//! registration binds an address to an identity key, and a later one must
//! present the same key or change nothing. Authorized rotation replaces the
//! bound key through [`Directory::rotate`]. One-time bundles are dispensed at
//! most once each, and a per-device generation anchor catches a rolled-back
//! persisted state.
use crate::codec::{blocks_view, to_vec};
use crate::directory_core::{
    bytes_eq, register_core, rotate_core, spec_register, spec_witness, witness_core, Registration, Rotation,
    Witness,
};
use crate::directory_protocol::DirResponse;
use crate::relay::{AddrV, DeviceAddr};
use crate::table::Table;
use std::collections::VecDeque;
use vstd::hash_map::StringHashMap;
use vstd::prelude::*;

verus! {

broadcast use vstd::std_specs::vecdeque::group_vec_dequeue_axioms;

/// The outcome of stocking a device's one-time bundle pool.
#[derive(Clone, Copy, Debug, PartialEq, Eq, Structural)]
pub enum Deposit {
    /// The bundles were added; the count is the pool's new depth.
    Deposited(usize),
    /// The presented identity is not the one bound to this address.
    Rejected,
    /// The address is not registered, so there is no pool to stock.
    Unregistered,
}

/// The outcome of setting a device's recovery key.
#[derive(Clone, Copy, Debug, PartialEq, Eq, Structural)]
pub enum RecoverySet {
    /// The recovery key was stored (or replaced).
    Stored,
    /// The address is not registered: no binding to attach recovery to.
    Unregistered,
}

/// A device's published public material.
struct Entry {
    identity: Vec<u8>,
    /// Served when the pool is empty.
    bundle: Vec<u8>,
    /// Complete bundles, each served at most once, oldest first.
    pool: VecDeque<Vec<u8>>,
}

/// A device's published material as a value.
#[verifier::ext_equal]
pub struct EntryV {
    pub identity: Seq<u8>,
    pub bundle: Seq<u8>,
    pub pool: Seq<Seq<u8>>,
}

impl View for Entry {
    type V = EntryV;

    closed spec fn view(&self) -> EntryV {
        EntryV { identity: self.identity@, bundle: self.bundle@, pool: blocks_view(self.pool@) }
    }
}

/// The directory as a value: each bound device's material, each device's
/// recovery key, and the highest persisted-state generation witnessed for
/// each device.
#[verifier::ext_equal]
pub struct DirectoryV {
    pub entries: Map<AddrV, EntryV>,
    pub recovery: Map<AddrV, Seq<u8>>,
    pub generations: Map<AddrV, u64>,
}

/// The directory: bound devices, a per-user index of devices, recovery keys,
/// and the rollback anchors.
pub struct Directory {
    entries: Table<DeviceAddr, Entry>,
    devices: StringHashMap<Vec<u32>>,
    recovery: Table<DeviceAddr, Vec<u8>>,
    generations: Table<DeviceAddr, u64>,
}

impl View for Directory {
    type V = DirectoryV;

    closed spec fn view(&self) -> DirectoryV {
        DirectoryV {
            entries: self.entries.map().map_values(|e: Entry| e@),
            recovery: self.recovery.map().map_values(|k: Vec<u8>| k@),
            generations: self.generations.map(),
        }
    }
}

/// Strictly increasing.
pub open spec fn strictly_sorted(s: Seq<u32>) -> bool {
    forall|i: int, j: int| 0 <= i < j < s.len() ==> s[i] < s[j]
}

/// The identity bound to a device, if any.
pub open spec fn bound_identity(d: DirectoryV, a: AddrV) -> Option<Seq<u8>> {
    if d.entries.contains_key(a) {
        Some(d.entries[a].identity)
    } else {
        None
    }
}

/// Registration under trust on first use: a refresh or a first registration
/// stores the bound identity with the new bundle and an empty pool; a
/// rejection changes nothing.
pub open spec fn spec_dir_register(d: DirectoryV, a: AddrV, identity: Seq<u8>, bundle: Seq<u8>) -> (
    DirectoryV,
    Registration,
) {
    let (outcome, binding) = spec_register(bound_identity(d, a), identity);
    match outcome {
        Registration::Rejected => (d, outcome),
        _ => (
            DirectoryV {
                entries: d.entries.insert(a, EntryV { identity: binding, bundle, pool: Seq::empty() }),
                ..d
            },
            outcome,
        ),
    }
}

/// Rotation: a bound device gets the new identity and bundle, an empty pool,
/// and a cleared rollback anchor; an unbound one changes nothing.
pub open spec fn spec_dir_rotate(d: DirectoryV, a: AddrV, identity: Seq<u8>, bundle: Seq<u8>) -> (
    DirectoryV,
    Rotation,
) {
    if d.entries.contains_key(a) {
        (
            DirectoryV {
                entries: d.entries.insert(a, EntryV { identity, bundle, pool: Seq::empty() }),
                generations: d.generations.remove(a),
                ..d
            },
            Rotation::Rotated,
        )
    } else {
        (d, Rotation::Unregistered)
    }
}

/// Witnessing: only a bound device is witnessed, and its anchor becomes the
/// larger of the stored and the offered generation.
pub open spec fn spec_dir_witness(d: DirectoryV, a: AddrV, generation: u64) -> (DirectoryV, Witness) {
    if d.entries.contains_key(a) {
        let stored = if d.generations.contains_key(a) {
            Some(d.generations[a])
        } else {
            None
        };
        let (verdict, highest) = spec_witness(stored, generation);
        (DirectoryV { generations: d.generations.insert(a, highest), ..d }, verdict)
    } else {
        (d, Witness::Unregistered)
    }
}

/// Stocking the pool: only under the bound identity, appending the bundles.
pub open spec fn spec_dir_deposit(d: DirectoryV, a: AddrV, identity: Seq<u8>, bundles: Seq<Seq<u8>>) -> (
    DirectoryV,
    Deposit,
) {
    if !d.entries.contains_key(a) {
        (d, Deposit::Unregistered)
    } else if d.entries[a].identity != identity {
        (d, Deposit::Rejected)
    } else {
        let e = d.entries[a];
        let pool = e.pool + bundles;
        (
            DirectoryV { entries: d.entries.insert(a, EntryV { pool, ..e }), ..d },
            Deposit::Deposited(pool.len() as usize),
        )
    }
}

/// Dispensing: the oldest one-time bundle leaves the pool and is served; an
/// empty pool serves the multi-use bundle; an unbound device serves nothing.
pub open spec fn spec_dir_take_bundle(d: DirectoryV, a: AddrV) -> (DirectoryV, Option<Seq<u8>>) {
    if !d.entries.contains_key(a) {
        (d, None)
    } else {
        let e = d.entries[a];
        if e.pool.len() > 0 {
            (
                DirectoryV { entries: d.entries.insert(a, EntryV { pool: e.pool.drop_first(), ..e }), ..d },
                Some(e.pool[0]),
            )
        } else {
            (d, Some(e.bundle))
        }
    }
}

/// Attaching a recovery key: only to a bound device.
pub open spec fn spec_dir_set_recovery(d: DirectoryV, a: AddrV, key: Seq<u8>) -> (DirectoryV, RecoverySet) {
    if d.entries.contains_key(a) {
        (DirectoryV { recovery: d.recovery.insert(a, key), ..d }, RecoverySet::Stored)
    } else {
        (d, RecoverySet::Unregistered)
    }
}



/// A pool depth as the wire carries it: saturated at `u32::MAX`.
pub open spec fn wire_depth(depth: usize) -> u32 {
    if depth <= u32::MAX {
        depth as u32
    } else {
        u32::MAX
    }
}

impl From<Registration> for DirResponse {
    fn from(outcome: Registration) -> (r: DirResponse) {
        match outcome {
            Registration::Registered => DirResponse::Registered,
            Registration::Refreshed => DirResponse::Refreshed,
            Registration::Rejected => DirResponse::Rejected,
        }
    }
}

impl vstd::std_specs::convert::FromSpecImpl<Registration> for DirResponse {
    open spec fn obeys_from_spec() -> bool {
        true
    }

    open spec fn from_spec(outcome: Registration) -> DirResponse {
        match outcome {
            Registration::Registered => DirResponse::Registered,
            Registration::Refreshed => DirResponse::Refreshed,
            Registration::Rejected => DirResponse::Rejected,
        }
    }
}

impl From<Rotation> for DirResponse {
    fn from(outcome: Rotation) -> (r: DirResponse) {
        match outcome {
            Rotation::Rotated => DirResponse::Rotated,
            Rotation::Unregistered => DirResponse::Unregistered,
        }
    }
}

impl vstd::std_specs::convert::FromSpecImpl<Rotation> for DirResponse {
    open spec fn obeys_from_spec() -> bool {
        true
    }

    open spec fn from_spec(outcome: Rotation) -> DirResponse {
        match outcome {
            Rotation::Rotated => DirResponse::Rotated,
            Rotation::Unregistered => DirResponse::Unregistered,
        }
    }
}

impl From<Deposit> for DirResponse {
    fn from(outcome: Deposit) -> (r: DirResponse) {
        match outcome {
            Deposit::Deposited(depth) => {
                let wire: u32 = if depth <= 0xffff_ffffusize {
                    depth as u32
                } else {
                    u32::MAX
                };
                DirResponse::Deposited(wire)
            },
            Deposit::Rejected => DirResponse::DepositRejected,
            Deposit::Unregistered => DirResponse::Unregistered,
        }
    }
}

impl vstd::std_specs::convert::FromSpecImpl<Deposit> for DirResponse {
    open spec fn obeys_from_spec() -> bool {
        true
    }

    open spec fn from_spec(outcome: Deposit) -> DirResponse {
        match outcome {
            Deposit::Deposited(depth) => DirResponse::Deposited(wire_depth(depth)),
            Deposit::Rejected => DirResponse::DepositRejected,
            Deposit::Unregistered => DirResponse::Unregistered,
        }
    }
}

impl From<RecoverySet> for DirResponse {
    fn from(outcome: RecoverySet) -> (r: DirResponse) {
        match outcome {
            RecoverySet::Stored => DirResponse::RecoverySet,
            RecoverySet::Unregistered => DirResponse::Unregistered,
        }
    }
}

impl vstd::std_specs::convert::FromSpecImpl<RecoverySet> for DirResponse {
    open spec fn obeys_from_spec() -> bool {
        true
    }

    open spec fn from_spec(outcome: RecoverySet) -> DirResponse {
        match outcome {
            RecoverySet::Stored => DirResponse::RecoverySet,
            RecoverySet::Unregistered => DirResponse::Unregistered,
        }
    }
}

impl From<Witness> for DirResponse {
    fn from(outcome: Witness) -> (r: DirResponse) {
        match outcome {
            Witness::Fresh => DirResponse::Fresh,
            Witness::RolledBack => DirResponse::RolledBack,
            Witness::Unregistered => DirResponse::Unregistered,
        }
    }
}

impl vstd::std_specs::convert::FromSpecImpl<Witness> for DirResponse {
    open spec fn obeys_from_spec() -> bool {
        true
    }

    open spec fn from_spec(outcome: Witness) -> DirResponse {
        match outcome {
            Witness::Fresh => DirResponse::Fresh,
            Witness::RolledBack => DirResponse::RolledBack,
            Witness::Unregistered => DirResponse::Unregistered,
        }
    }
}

/// Move `bundles` onto the back of `pool`, in order.
fn append_bundles(pool: &mut VecDeque<Vec<u8>>, bundles: Vec<Vec<u8>>)
    ensures
        final(pool)@ == old(pool)@ + bundles@,
{
    let ghost start = pool@;
    let ghost all = bundles@;
    let ghost n = bundles@.len();
    let mut more = bundles;
    let mut rev: Vec<Vec<u8>> = Vec::new();
    while more.len() > 0
        invariant
            more@.len() + rev@.len() == n,
            all.len() == n,
            forall|i: int| 0 <= i < more@.len() ==> more@[i] == all[i],
            forall|j: int| 0 <= j < rev@.len() ==> rev@[j] == all[n - 1 - j],
        decreases more@.len(),
    {
        match more.pop() {
            Some(b) => rev.push(b),
            None => {},
        }
    }
    while rev.len() > 0
        invariant
            all.len() == n,
            rev@.len() <= n,
            forall|j: int| 0 <= j < rev@.len() ==> rev@[j] == all[n - 1 - j],
            pool@ == start + all.take(n - rev@.len()),
        decreases rev@.len(),
    {
        let ghost k = n - rev@.len();
        match rev.pop() {
            Some(b) => {
                assert(b == all[k]);
                pool.push_back(b);
                assert(all.take(k + 1) =~= all.take(k).push(all[k]));
            },
            None => {},
        }
    }
    assert(all.take(n as int) =~= all);
}

/// A fresh copy of a list of device numbers.
fn copy_numbers(l: &Vec<u32>) -> (r: Vec<u32>)
    ensures
        r@ == l@,
{
    let mut r: Vec<u32> = Vec::new();
    let mut i: usize = 0;
    while i < l.len()
        invariant
            0 <= i <= l@.len(),
            r@ == l@.take(i as int),
        decreases l@.len() - i,
    {
        r.push(l[i]);
        i = i + 1;
        assert(r@ =~= l@.take(i as int));
    }
    assert(l@.take(i as int) =~= l@);
    r
}

/// Add `n` to a strictly increasing list of device numbers, keeping it
/// strictly increasing; a number already present is not added twice.
#[verifier::spinoff_prover]
fn insert_sorted(list: &mut Vec<u32>, n: u32)
    requires
        strictly_sorted(old(list)@),
    ensures
        strictly_sorted(final(list)@),
        forall|m: u32| final(list)@.contains(m) <==> (old(list)@.contains(m) || m == n),
{
    let mut i: usize = 0;
    while i < list.len() && list[i] < n
        invariant
            0 <= i <= list@.len(),
            list@ == old(list)@,
            strictly_sorted(list@),
            forall|j: int| 0 <= j < i ==> list@[j] < n,
        decreases list@.len() - i,
    {
        i = i + 1;
    }
    if i < list.len() && list[i] == n {
        assert(list@[i as int] == n);
        assert(list@.contains(n));
        return;
    }
    let ghost before = list@;
    assert(before == old(list)@);
    assert(forall|j: int| i <= j < before.len() ==> before[j] > n) by {
        assert forall|j: int| i <= j < before.len() implies before[j] > n by {
            assert(before[i as int] >= n && before[i as int] != n);
            if j > i {
                assert(before[i as int] < before[j]);
            }
        }
    }
    list.insert(i, n);
    assert forall|a: int, b: int| 0 <= a < b < list@.len() implies list@[a] < list@[b] by {
        if b < i {
            assert(list@[a] == before[a] && list@[b] == before[b]);
        } else if b == i {
            assert(list@[a] == before[a]);
        } else if a < i {
            assert(list@[a] == before[a] && list@[b] == before[b - 1]);
        } else if a == i {
            assert(list@[b] == before[b - 1]);
        } else {
            assert(list@[a] == before[a - 1] && list@[b] == before[b - 1]);
        }
    }
    assert forall|m: u32| #[trigger] list@.contains(m) <==> (before.contains(m) || m == n) by {
        if list@.contains(m) {
            let k = choose|k: int| 0 <= k < list@.len() && list@[k] == m;
            if k < i {
                assert(before[k] == m);
            } else if k > i {
                assert(before[k - 1] == m);
            }
        }
        if before.contains(m) {
            let k = choose|k: int| 0 <= k < before.len() && before[k] == m;
            if k < i {
                assert(list@[k] == m);
            } else {
                assert(list@[k + 1] == m);
            }
        }
        if m == n {
            assert(list@[i as int] == n);
        }
    }
}

impl Directory {
    /// The tables are well formed, and the per-user index holds, for each
    /// user, exactly the bound device numbers, strictly increasing.
    pub closed spec fn wf(&self) -> bool {
        &&& self.entries.wf()
        &&& self.recovery.wf()
        &&& self.generations.wf()
        &&& forall|u: Seq<char>| #[trigger]
            self.devices@.contains_key(u) ==> strictly_sorted(self.devices@[u]@)
        &&& forall|u: Seq<char>, n: u32| #[trigger]
            self.entries.map().contains_key((u, n)) <==> (self.devices@.contains_key(u)
                && self.devices@[u]@.contains(n))
    }

    pub fn new() -> (d: Directory)
        ensures
            d.wf(),
            d@.entries == Map::<AddrV, EntryV>::empty(),
            d@.recovery == Map::<AddrV, Seq<u8>>::empty(),
            d@.generations == Map::<AddrV, u64>::empty(),
    {
        let d = Directory { entries: Table::new(), devices: StringHashMap::new(), recovery: Table::new(), generations: Table::new() };
        assert(d@.entries =~= Map::<AddrV, EntryV>::empty());
        assert(d@.recovery =~= Map::<AddrV, Seq<u8>>::empty());
        d
    }


    /// Publish a device's identity key and prekey bundle under trust on first
    /// use. The first registration of an address binds it and indexes the
    /// device under its user (`Registered`); a later one presenting the same
    /// identity refreshes the bundle (`Refreshed`); one presenting a different
    /// identity changes nothing (`Rejected`). Either success empties the
    /// one-time pool, whose bundles were built against the old signed prekey,
    /// and neither touches the recovery key or the rollback anchor.
    pub fn register(&mut self, device: &DeviceAddr, identity: Vec<u8>, bundle: Vec<u8>) -> (r: Registration)
        requires
            old(self).wf(),
        ensures
            final(self).wf(),
            r == spec_dir_register(old(self)@, device@, identity@, bundle@).1,
            final(self)@ == spec_dir_register(old(self)@, device@, identity@, bundle@).0,
    {
        let ghost a = device@;
        let ghost d0 = self@;
        let current = match self.entries.get(device) {
            Some(e) => Some(to_vec(e.identity.as_slice())),
            None => None,
        };
        let ghost presented = identity@;
        let ghost bundle_v = bundle@;
        let (outcome, binding) = register_core(current, identity);
        let ghost expect = spec_dir_register(d0, a, presented, bundle_v);
        match outcome {
            Registration::Rejected => Registration::Rejected,
            Registration::Refreshed => {
                let entry = Entry { identity: binding, bundle, pool: VecDeque::new() };
                proof {
                    assert(blocks_view(entry.pool@) =~= Seq::<Seq<u8>>::empty());
                }
                self.entries.insert(device.duplicate(), entry);
                assert(self@.entries =~= expect.0.entries);
                Registration::Refreshed
            },
            Registration::Registered => {
                let mut list: Vec<u32> = match self.devices.get(device.user.as_str()) {
                    Some(l) => copy_numbers(l),
                    None => Vec::new(),
                };
                insert_sorted(&mut list, device.device);
                self.devices.insert(device.user.clone(), list);
                let entry = Entry { identity: binding, bundle, pool: VecDeque::new() };
                proof {
                    assert(blocks_view(entry.pool@) =~= Seq::<Seq<u8>>::empty());
                }
                self.entries.insert(device.duplicate(), entry);
                assert(self@.entries =~= expect.0.entries);
                assert forall|u: Seq<char>, n: u32| #[trigger]
                    self.entries.map().contains_key((u, n)) <==> (self.devices@.contains_key(u)
                        && self.devices@[u]@.contains(n)) by {
                    if u == a.0 && n == a.1 {
                    } else if u == a.0 {
                    } else {
                    }
                }
                Registration::Registered
            },
        }
    }

    /// Replace the identity key and bundle bound to `device`, the authorized
    /// rotation path: the caller has checked that the currently bound key (or
    /// the recovery key) authorized it. The pool empties and the rollback
    /// anchor resets, since rotation starts a fresh trust epoch. An unbound
    /// address changes nothing.
    pub fn rotate(&mut self, device: &DeviceAddr, new_identity: Vec<u8>, new_bundle: Vec<u8>) -> (r: Rotation)
        requires
            old(self).wf(),
        ensures
            final(self).wf(),
            r == spec_dir_rotate(old(self)@, device@, new_identity@, new_bundle@).1,
            final(self)@ == spec_dir_rotate(old(self)@, device@, new_identity@, new_bundle@).0,
    {
        let ghost d0 = self@;
        let ghost expect = spec_dir_rotate(d0, device@, new_identity@, new_bundle@);
        let current = match self.entries.get(device) {
            Some(e) => Some(to_vec(e.identity.as_slice())),
            None => None,
        };
        let (outcome, binding) = rotate_core(current, new_identity);
        match binding {
            Some(identity) => {
                let entry = Entry { identity, bundle: new_bundle, pool: VecDeque::new() };
                proof {
                    assert(blocks_view(entry.pool@) =~= Seq::<Seq<u8>>::empty());
                }
                self.entries.insert(device.duplicate(), entry);
                let _ = self.generations.take(device);
                assert(self@.entries =~= expect.0.entries);
                assert(self@.generations =~= expect.0.generations);
                Rotation::Rotated
            },
            None => outcome,
        }
    }

    /// Attach (or replace) the recovery key of a bound device; an unbound
    /// address gets none.
    pub fn set_recovery(&mut self, device: &DeviceAddr, key: Vec<u8>) -> (r: RecoverySet)
        requires
            old(self).wf(),
        ensures
            final(self).wf(),
            r == spec_dir_set_recovery(old(self)@, device@, key@).1,
            final(self)@ == spec_dir_set_recovery(old(self)@, device@, key@).0,
    {
        let ghost expect = spec_dir_set_recovery(self@, device@, key@);
        if !self.entries.contains(device) {
            return RecoverySet::Unregistered;
        }
        self.recovery.insert(device.duplicate(), key);
        assert(self@.recovery =~= expect.0.recovery);
        RecoverySet::Stored
    }

    /// Witness a device's presented persisted-state generation: the anchor
    /// becomes the larger of the stored and the offered one, and a lower
    /// offer is reported as a rollback. Only a bound device is witnessed.
    pub fn witness(&mut self, device: &DeviceAddr, generation: u64) -> (r: Witness)
        requires
            old(self).wf(),
        ensures
            final(self).wf(),
            r == spec_dir_witness(old(self)@, device@, generation).1,
            final(self)@ == spec_dir_witness(old(self)@, device@, generation).0,
    {
        let ghost expect = spec_dir_witness(self@, device@, generation);
        if !self.entries.contains(device) {
            return Witness::Unregistered;
        }
        let stored = match self.generations.get(device) {
            Some(g) => Some(*g),
            None => None,
        };
        let (verdict, highest) = witness_core(stored, generation);
        self.generations.insert(device.duplicate(), highest);
        assert(self@.generations =~= expect.0.generations);
        verdict
    }

    /// Restore a witnessed generation on load, without the monotone check:
    /// the snapshot is trusted, and this is the anchor the next check runs
    /// against.
    pub(crate) fn restore_generation(&mut self, device: &DeviceAddr, generation: u64)
        requires
            old(self).wf(),
        ensures
            final(self).wf(),
            final(self)@ == (DirectoryV {
                generations: old(self)@.generations.insert(device@, generation),
                ..old(self)@
            }),
    {
        self.generations.insert(device.duplicate(), generation);
        assert(self@.generations =~= old(self)@.generations.insert(device@, generation));
    }


    /// Stock a device's one-time bundle pool. Only the identity bound to the
    /// address may stock it; the bundles are appended, oldest first, so a
    /// device can top up without knowing how many were dispensed.
    pub fn deposit_prekeys(&mut self, device: &DeviceAddr, identity: &[u8], bundles: Vec<Vec<u8>>) -> (r: Deposit)
        requires
            old(self).wf(),
        ensures
            final(self).wf(),
            r == spec_dir_deposit(old(self)@, device@, identity@, blocks_view(bundles@)).1,
            final(self)@ == spec_dir_deposit(old(self)@, device@, identity@, blocks_view(bundles@)).0,
    {
        let ghost expect = spec_dir_deposit(self@, device@, identity@, blocks_view(bundles@));
        let ghost old_entries = self.entries.map();
        let mut entry = match self.entries.take(device) {
            Some(e) => e,
            None => return Deposit::Unregistered,
        };
        if !bytes_eq(entry.identity.as_slice(), identity) {
            self.entries.insert(device.duplicate(), entry);
            assert(self.entries.map() =~= old_entries);
            return Deposit::Rejected;
        }
        let ghost old_pool = entry.pool@;
        append_bundles(&mut entry.pool, bundles);
        proof {
            assert(blocks_view(entry.pool@) =~= blocks_view(old_pool) + blocks_view(bundles@));
        }
        let depth = entry.pool.len();
        self.entries.insert(device.duplicate(), entry);
        assert(self@.entries =~= expect.0.entries);
        Deposit::Deposited(depth)
    }

    /// Take a bundle for a peer opening a session: the oldest one-time bundle
    /// if any remains, removed as it is served so that no two peers get the
    /// same one; otherwise the multi-use bundle. `None` for an unbound device.
    pub fn take_bundle(&mut self, device: &DeviceAddr) -> (r: Option<Vec<u8>>)
        requires
            old(self).wf(),
        ensures
            final(self).wf(),
            (match r {
                Some(b) => Some(b@),
                None => None,
            }) == spec_dir_take_bundle(old(self)@, device@).1,
            final(self)@ == spec_dir_take_bundle(old(self)@, device@).0,
    {
        let ghost expect = spec_dir_take_bundle(self@, device@);
        let ghost old_entries = self.entries.map();
        let mut entry = match self.entries.take(device) {
            Some(e) => e,
            None => return None,
        };
        if entry.pool.len() > 0 {
            let ghost old_pool = entry.pool@;
            let one_time = match entry.pool.pop_front() {
                Some(b) => b,
                None => Vec::new(),
            };
            proof {
                assert(blocks_view(entry.pool@) =~= blocks_view(old_pool).drop_first());
            }
            self.entries.insert(device.duplicate(), entry);
            assert(self@.entries =~= expect.0.entries);
            Some(one_time)
        } else {
            let fallback = to_vec(entry.bundle.as_slice());
            self.entries.insert(device.duplicate(), entry);
            assert(self.entries.map() =~= old_entries);
            Some(fallback)
        }
    }

    /// A device's identity key and a dispensed bundle together, for a peer's
    /// lookup; `None` if the device is not registered. Dispensing, as
    /// [`Directory::take_bundle`] is.
    pub fn lookup(&mut self, device: &DeviceAddr) -> (r: Option<(Vec<u8>, Vec<u8>)>)
        requires
            old(self).wf(),
        ensures
            final(self).wf(),
            final(self)@ == spec_dir_take_bundle(old(self)@, device@).0,
            match r {
                Some((identity, bundle)) => old(self)@.entries.contains_key(device@)
                    && identity@ == old(self)@.entries[device@].identity
                    && Some(bundle@) == spec_dir_take_bundle(old(self)@, device@).1,
                None => !old(self)@.entries.contains_key(device@),
            },
    {
        let identity = match self.identity(device) {
            Some(k) => to_vec(k),
            None => return None,
        };
        match self.take_bundle(device) {
            Some(bundle) => Some((identity, bundle)),
            None => None,
        }
    }

    /// Whether this device already has a binding.
    pub fn contains_device(&self, device: &DeviceAddr) -> (b: bool)
        requires
            self.wf(),
        ensures
            b == self@.entries.contains_key(device@),
    {
        self.entries.contains(device)
    }

    /// A device's public identity key bytes; `None` if it is not registered.
    pub fn identity(&self, device: &DeviceAddr) -> (r: Option<&[u8]>)
        requires
            self.wf(),
        ensures
            match r {
                Some(k) => self@.entries.contains_key(device@) && k@ == self@.entries[device@].identity,
                None => !self@.entries.contains_key(device@),
            },
    {
        match self.entries.get(device) {
            Some(e) => Some(e.identity.as_slice()),
            None => None,
        }
    }

    /// A device's published multi-use bundle **without dispensing**; `None`
    /// if it is not registered.
    pub fn bundle(&self, device: &DeviceAddr) -> (r: Option<&[u8]>)
        requires
            self.wf(),
        ensures
            match r {
                Some(b) => self@.entries.contains_key(device@) && b@ == self@.entries[device@].bundle,
                None => !self@.entries.contains_key(device@),
            },
    {
        match self.entries.get(device) {
            Some(e) => Some(e.bundle.as_slice()),
            None => None,
        }
    }

    /// How many one-time bundles remain for `device` (zero if unregistered).
    pub fn pool_depth(&self, device: &DeviceAddr) -> (n: usize)
        requires
            self.wf(),
        ensures
            n == (if self@.entries.contains_key(device@) {
                self@.entries[device@].pool.len()
            } else {
                0
            }),
    {
        match self.entries.get(device) {
            Some(e) => e.pool.len(),
            None => 0,
        }
    }

    /// A device's recovery key bytes, if one is set.
    pub fn recovery_key(&self, device: &DeviceAddr) -> (r: Option<&[u8]>)
        requires
            self.wf(),
        ensures
            match r {
                Some(k) => self@.recovery.contains_key(device@) && k@ == self@.recovery[device@],
                None => !self@.recovery.contains_key(device@),
            },
    {
        match self.recovery.get(device) {
            Some(k) => Some(k.as_slice()),
            None => None,
        }
    }

    /// The highest generation witnessed for a device.
    pub fn generation(&self, device: &DeviceAddr) -> (r: Option<u64>)
        requires
            self.wf(),
        ensures
            r == (if self@.generations.contains_key(device@) {
                Some(self@.generations[device@])
            } else {
                None
            }),
    {
        match self.generations.get(device) {
            Some(g) => Some(*g),
            None => None,
        }
    }

    /// The device numbers registered for a user, strictly increasing; empty
    /// for an unknown user.
    pub fn devices_of(&self, user: &str) -> (r: &[u32])
        requires
            self.wf(),
        ensures
            strictly_sorted(r@),
            forall|n: u32| r@.contains(n) <==> self@.entries.contains_key((user@, n)),
    {
        match self.devices.get(user) {
            Some(list) => list.as_slice(),
            None => {
                let empty: &[u32] = &[];
                assert forall|n: u32| empty@.contains(n) <==> self@.entries.contains_key((user@, n)) by {
                    assert(!self.entries.map().contains_key((user@, n)));
                }
                empty
            },
        }
    }
}

/// Rotation needs a binding: an unbound device is reported unregistered and
/// nothing changes; a bound one is rebound to exactly the new identity and
/// bundle.
pub proof fn law_rotation_needs_a_binding_and_rebinds(d: DirectoryV, a: AddrV, identity: Seq<u8>, bundle: Seq<u8>)
    ensures
        !d.entries.contains_key(a) ==> spec_dir_rotate(d, a, identity, bundle) == (d, Rotation::Unregistered),
        d.entries.contains_key(a) ==> spec_dir_rotate(d, a, identity, bundle).1 == Rotation::Rotated
            && spec_dir_rotate(d, a, identity, bundle).0.entries[a].identity == identity
            && spec_dir_rotate(d, a, identity, bundle).0.entries[a].bundle == bundle,
{
}

/// Registering or rotating one device never changes another device's
/// binding, bundle or pool.
pub proof fn law_operations_frame_other_devices(
    d: DirectoryV,
    a: AddrV,
    b: AddrV,
    identity: Seq<u8>,
    bundle: Seq<u8>,
)
    requires
        a != b,
    ensures
        spec_dir_register(d, a, identity, bundle).0.entries.contains_key(b) == d.entries.contains_key(b),
        d.entries.contains_key(b) ==> spec_dir_register(d, a, identity, bundle).0.entries[b] == d.entries[b],
        spec_dir_rotate(d, a, identity, bundle).0.entries.contains_key(b) == d.entries.contains_key(b),
        d.entries.contains_key(b) ==> spec_dir_rotate(d, a, identity, bundle).0.entries[b] == d.entries[b],
{
}

} // verus!

verus! {

/// Trust on first use, over the whole directory: a registration at a bound
/// address never changes the bound identity; it is rejected exactly when it
/// presents a different one, and a rejection changes nothing at all.
pub proof fn law_registration_is_trust_on_first_use(d: DirectoryV, a: AddrV, identity: Seq<u8>, bundle: Seq<u8>)
    requires
        d.entries.contains_key(a),
    ensures
        spec_dir_register(d, a, identity, bundle).0.entries[a].identity == d.entries[a].identity,
        spec_dir_register(d, a, identity, bundle).1 == Registration::Rejected <==> d.entries[a].identity
            != identity,
        spec_dir_register(d, a, identity, bundle).1 == Registration::Rejected ==> spec_dir_register(
            d,
            a,
            identity,
            bundle,
        ).0 == d,
        spec_dir_register(d, a, identity, bundle).1 != Registration::Registered,
{
}

/// A registration, first or refresh, leaves every recovery key and every
/// rollback anchor as it was: a reconnecting client's refresh cannot blind the
/// rollback check.
pub proof fn law_registration_keeps_anchors_and_recovery(
    d: DirectoryV,
    a: AddrV,
    identity: Seq<u8>,
    bundle: Seq<u8>,
)
    ensures
        spec_dir_register(d, a, identity, bundle).0.generations == d.generations,
        spec_dir_register(d, a, identity, bundle).0.recovery == d.recovery,
{
}

/// A new bundle makes every pooled one stale: a successful registration and a
/// rotation both leave the device with an empty pool, and a rotation also
/// clears the device's rollback anchor, so a fresh witness starts over.
pub proof fn law_republishing_and_rotating_clear_the_pool(
    d: DirectoryV,
    a: AddrV,
    identity: Seq<u8>,
    bundle: Seq<u8>,
    generation: u64,
)
    ensures
        spec_dir_register(d, a, identity, bundle).1 != Registration::Rejected ==> spec_dir_register(
            d,
            a,
            identity,
            bundle,
        ).0.entries[a].pool.len() == 0,
        d.entries.contains_key(a) ==> {
            let rotated = spec_dir_rotate(d, a, identity, bundle).0;
            &&& rotated.entries[a].pool.len() == 0
            &&& !rotated.generations.contains_key(a)
            &&& spec_dir_witness(rotated, a, generation).1 == Witness::Fresh
        },
{
}

/// The rollback anchor of a bound device never decreases, ends at least at
/// the offered generation unless the offer is reported as a rollback, and a
/// rollback is reported exactly when the offer is below the anchor.
pub proof fn law_witness_is_monotone(d: DirectoryV, a: AddrV, generation: u64)
    requires
        d.entries.contains_key(a),
    ensures
        ({
            let (d2, verdict) = spec_dir_witness(d, a, generation);
            &&& d2.generations.contains_key(a)
            &&& d.generations.contains_key(a) ==> d2.generations[a] >= d.generations[a]
            &&& (verdict == Witness::RolledBack <==> d.generations.contains_key(a) && generation
                < d.generations[a])
            &&& verdict != Witness::RolledBack ==> d2.generations[a] == generation
            &&& d2.entries == d.entries
        }),
{
}

/// Only the identity bound to an address may stock its pool: any other
/// identity is refused and nothing changes.
pub proof fn law_only_the_bound_identity_deposits(
    d: DirectoryV,
    a: AddrV,
    identity: Seq<u8>,
    bundles: Seq<Seq<u8>>,
)
    requires
        d.entries.contains_key(a),
        d.entries[a].identity != identity,
    ensures
        spec_dir_deposit(d, a, identity, bundles) == (d, Deposit::Rejected),
{
}

/// The bundles served by `n` successive dispensing lookups.
pub open spec fn served(d: DirectoryV, a: AddrV, n: nat) -> Seq<Seq<u8>>
    decreases n,
{
    if n == 0 {
        Seq::empty()
    } else {
        let (d2, r) = spec_dir_take_bundle(d, a);
        seq![r.unwrap()] + served(d2, a, (n - 1) as nat)
    }
}

/// The directory after `n` successive dispensing lookups.
pub open spec fn after_takes(d: DirectoryV, a: AddrV, n: nat) -> DirectoryV
    decreases n,
{
    if n == 0 {
        d
    } else {
        after_takes(spec_dir_take_bundle(d, a).0, a, (n - 1) as nat)
    }
}

/// Each one-time bundle is served once: `n` successive lookups of a bound
/// device whose pool holds at least `n` bundles are served exactly the first
/// `n` of them, in order, and leave exactly the rest in the pool.
pub proof fn law_each_one_time_bundle_is_served_once(d: DirectoryV, a: AddrV, n: nat)
    requires
        d.entries.contains_key(a),
        n <= d.entries[a].pool.len(),
    ensures
        served(d, a, n) == d.entries[a].pool.take(n as int),
        after_takes(d, a, n).entries.contains_key(a),
        after_takes(d, a, n).entries[a].pool == d.entries[a].pool.skip(n as int),
        after_takes(d, a, n).entries[a].identity == d.entries[a].identity,
    decreases n,
{
    if n > 0 {
        let d2 = spec_dir_take_bundle(d, a).0;
        let pool = d.entries[a].pool;
        assert(d2.entries[a].pool == pool.drop_first());
        law_each_one_time_bundle_is_served_once(d2, a, (n - 1) as nat);
        assert(pool.drop_first().take(n - 1) + Seq::empty() == pool.drop_first().take(n - 1));
        assert(seq![pool[0]] + pool.drop_first().take(n - 1) =~= pool.take(n as int));
        assert(pool.drop_first().skip(n - 1) =~= pool.skip(n as int));
    }
}

} // verus!
