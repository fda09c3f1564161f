//! Per-source sliding-window throttles: the directory's limit on new handle
//! registrations and the gateway's limit on tenant signups.
//!
//! A source may act at most `max` times within one window. A refused attempt
//! is not recorded, so being blocked does not push the window forward. The
//! key is a client address an attacker may vary, so the limiter defends its
//! own memory: sources that can no longer be blocked are dropped, and the
//! number of sources held is capped, evicting the oldest last-seen first so a
//! caller being actively throttled stays resident while a flood is shed
//! around it.
use crate::group::lex_lt;
use vstd::hash_map::StringHashMap;
use vstd::prelude::*;
use vstd::utf8::encode_utf8;

verus! {

broadcast use vstd::hash_map::group_hash_map_axioms;

/// The most distinct sources a limiter holds.
pub const MAX_KEYS: usize = 65536;
/// The window, in seconds: one hour.
pub const WINDOW_SECS: u64 = 3600;
/// New registrations allowed per source within the window, by default.
pub const DEFAULT_MAX_PER_WINDOW: usize = 20;
/// Signups allowed per address within the window, by default.
pub const MAX_PER_WINDOW: usize = 5;

/// `a + b`, held at `u64::MAX`.
pub open spec fn sat_add(a: u64, b: u64) -> u64 {
    if a + b > u64::MAX {
        u64::MAX
    } else {
        (a + b) as u64
    }
}

/// A timestamp still inside the window that ends at `now`.
pub open spec fn live(t: u64, window: u64, now: u64) -> bool {
    sat_add(t, window) >= now
}

/// The timestamps still inside the window, in order.
pub open spec fn kept(ts: Seq<u64>, window: u64, now: u64) -> Seq<u64>
    decreases ts.len(),
{
    if ts.len() == 0 {
        ts
    } else {
        let k = kept(ts.drop_last(), window, now);
        if live(ts.last(), window, now) {
            k.push(ts.last())
        } else {
            k
        }
    }
}

/// The latest timestamp, `0` for none.
pub open spec fn last_seen(ts: Seq<u64>) -> u64
    decreases ts.len(),
{
    if ts.len() == 0 {
        0
    } else {
        let m = last_seen(ts.drop_last());
        if ts.last() > m {
            ts.last()
        } else {
            m
        }
    }
}

/// A source that can still be blocked: one of its timestamps is inside the
/// window.
pub open spec fn can_block(ts: Seq<u64>, window: u64, now: u64) -> bool {
    exists|i: int| 0 <= i < ts.len() && live(#[trigger] ts[i], window, now)
}

/// The sources that can still be blocked.
pub open spec fn shed_dead(m: Map<Seq<char>, Seq<u64>>, window: u64, now: u64) -> Map<Seq<char>, Seq<u64>> {
    Map::new(|k: Seq<char>| m.contains_key(k) && can_block(m[k], window, now), |k: Seq<char>| m[k])
}

/// Source `a`, last seen at `a_seen`, goes before source `b`: seen earlier,
/// or seen at the same time and sorting first by its bytes.
pub open spec fn older(a_seen: u64, a: Seq<char>, b_seen: u64, b: Seq<char>) -> bool {
    a_seen < b_seen || (a_seen == b_seen && lex_lt(encode_utf8(a), encode_utf8(b)))
}

/// `k` goes before every other source held.
pub open spec fn is_oldest(m: Map<Seq<char>, Seq<u64>>, k: Seq<char>) -> bool {
    &&& m.contains_key(k)
    &&& forall|j: Seq<char>| #[trigger]
        m.contains_key(j) && j != k ==> older(last_seen(m[k]), k, last_seen(m[j]), j)
}

/// The source that goes before every other.
pub open spec fn oldest(m: Map<Seq<char>, Seq<u64>>) -> Seq<char> {
    choose|k: Seq<char>| is_oldest(m, k)
}

/// Dropping sources that can no longer be blocked, then, over the cap,
/// evicting the oldest.
pub open spec fn spec_shed(m: Map<Seq<char>, Seq<u64>>, window: u64, now: u64) -> Map<Seq<char>, Seq<u64>> {
    let l = shed_dead(m, window, now);
    if l.len() <= MAX_KEYS {
        l
    } else {
        l.remove(oldest(l))
    }
}

/// A limiter as a value: each source's recent timestamps, the ceiling and
/// the window.
pub struct LimiterV {
    pub seen: Map<Seq<char>, Seq<u64>>,
    pub max: usize,
    pub window: u64,
}

/// The timestamps held for `source`, none when it is not held.
pub open spec fn times_of(s: LimiterV, source: Seq<char>) -> Seq<u64> {
    if s.seen.contains_key(source) {
        s.seen[source]
    } else {
        Seq::empty()
    }
}

/// Recording an attempt from `source` at `now`: the source's timestamps
/// outside the window are dropped; at the ceiling the attempt is refused
/// and not recorded; otherwise it is recorded and the limiter sheds.
pub open spec fn spec_over_limit(s: LimiterV, source: Seq<char>, now: u64) -> (LimiterV, bool) {
    let ts = times_of(s, source);
    let k = kept(ts, s.window, now);
    if k.len() >= s.max {
        (LimiterV { seen: s.seen.insert(source, k), ..s }, true)
    } else {
        (LimiterV { seen: spec_shed(s.seen.insert(source, k.push(now)), s.window, now), ..s }, false)
    }
}

proof fn lemma_last_seen_is_held(ts: Seq<u64>)
    requires
        ts.len() > 0,
    ensures
        exists|i: int| 0 <= i < ts.len() && ts[i] == last_seen(ts),
    decreases ts.len(),
{
    let n = ts.len() - 1;
    if ts.last() > last_seen(ts.drop_last()) {
        assert(ts[n] == last_seen(ts));
    } else if ts.len() > 1 {
        lemma_last_seen_is_held(ts.drop_last());
        let i = choose|i: int| 0 <= i < ts.drop_last().len() && ts.drop_last()[i] == last_seen(ts.drop_last());
        assert(ts[i] == ts.drop_last()[i]);
    } else {
        assert(last_seen(ts.drop_last()) == 0);
        assert(ts[n] == last_seen(ts));
    }
}

/// A source whose latest timestamp is at least `floor` can still be blocked
/// while `floor` is inside the window.
proof fn lemma_floor_keeps_live(ts: Seq<u64>, floor: u64, window: u64, now: u64)
    requires
        ts.len() > 0,
        floor <= last_seen(ts),
        live(floor, window, now),
    ensures
        can_block(ts, window, now),
{
    lemma_last_seen_is_held(ts);
    let i = choose|i: int| 0 <= i < ts.len() && ts[i] == last_seen(ts);
    assert(live(ts[i], window, now));
}

/// The older-than order is asymmetric.
proof fn lemma_older_asymmetric(a_seen: u64, a: Seq<char>, b_seen: u64, b: Seq<char>)
    ensures
        older(a_seen, a, b_seen, b) ==> !older(b_seen, b, a_seen, a),
{
    crate::group::lemma_lex_asymmetric(encode_utf8(a), encode_utf8(b));
}

/// Of two different sources, one goes before the other.
proof fn lemma_older_total(a_seen: u64, a: Seq<char>, b_seen: u64, b: Seq<char>)
    requires
        a != b,
    ensures
        older(a_seen, a, b_seen, b) || older(b_seen, b, a_seen, a),
{
    broadcast use vstd::utf8::encode_utf8_decode_utf8;

    if encode_utf8(a) == encode_utf8(b) {
        assert(decode_utf8_of(a) == decode_utf8_of(b));
    }
    crate::group::lemma_lex_total(encode_utf8(a), encode_utf8(b));
}

spec fn decode_utf8_of(a: Seq<char>) -> Seq<char> {
    vstd::utf8::decode_utf8(encode_utf8(a))
}

/// Two sources that both go before every other are the same source.
proof fn lemma_oldest_unique(m: Map<Seq<char>, Seq<u64>>, k: Seq<char>)
    requires
        is_oldest(m, k),
    ensures
        oldest(m) == k,
{
    let o = oldest(m);
    assert(is_oldest(m, o));
    if o != k {
        assert(m.contains_key(k) && k != o);
        assert(older(last_seen(m[o]), o, last_seen(m[k]), k));
        assert(m.contains_key(o) && o != k);
        assert(older(last_seen(m[k]), k, last_seen(m[o]), o));
        lemma_older_asymmetric(last_seen(m[o]), o, last_seen(m[k]), k);
    }
}


fn sat_add_u64(a: u64, b: u64) -> (r: u64)
    ensures
        r == sat_add(a, b),
{
    if a > u64::MAX - b {
        u64::MAX
    } else {
        a + b
    }
}

fn copy_u64s(v: &[u64]) -> (r: Vec<u64>)
    ensures
        r@ == v@,
{
    let mut r: Vec<u64> = Vec::new();
    let mut i: usize = 0;
    while i < v.len()
        invariant
            0 <= i <= v@.len(),
            r@ == v@.take(i as int),
        decreases v@.len() - i,
    {
        r.push(v[i]);
        i = i + 1;
        assert(r@ =~= v@.take(i as int));
    }
    assert(v@.take(i as int) =~= v@);
    r
}

/// The timestamps still inside the window.
fn kept_in_window(ts: &[u64], window: u64, now: u64) -> (r: Vec<u64>)
    ensures
        r@ == kept(ts@, window, now),
{
    let mut r: Vec<u64> = Vec::new();
    let mut i: usize = 0;
    assert(ts@.take(0) =~= Seq::<u64>::empty());
    while i < ts.len()
        invariant
            0 <= i <= ts@.len(),
            r@ == kept(ts@.take(i as int), window, now),
        decreases ts@.len() - i,
    {
        assert(ts@.take(i + 1).drop_last() =~= ts@.take(i as int));
        assert(ts@.take(i + 1).last() == ts@[i as int]);
        if sat_add_u64(ts[i], window) >= now {
            r.push(ts[i]);
        }
        i = i + 1;
    }
    assert(ts@.take(i as int) =~= ts@);
    r
}

/// The latest timestamp, `0` for none.
fn latest(ts: &[u64]) -> (r: u64)
    ensures
        r == last_seen(ts@),
{
    let mut m: u64 = 0;
    let mut i: usize = 0;
    assert(ts@.take(0) =~= Seq::<u64>::empty());
    while i < ts.len()
        invariant
            0 <= i <= ts@.len(),
            m == last_seen(ts@.take(i as int)),
        decreases ts@.len() - i,
    {
        assert(ts@.take(i + 1).drop_last() =~= ts@.take(i as int));
        assert(ts@.take(i + 1).last() == ts@[i as int]);
        if ts[i] > m {
            m = ts[i];
        }
        i = i + 1;
    }
    assert(ts@.take(i as int) =~= ts@);
    m
}

/// Whether one of the timestamps is still inside the window.
fn any_live(ts: &[u64], window: u64, now: u64) -> (r: bool)
    ensures
        r == can_block(ts@, window, now),
{
    let mut i: usize = 0;
    while i < ts.len()
        invariant
            0 <= i <= ts@.len(),
            forall|j: int| 0 <= j < i ==> !live(#[trigger] ts@[j], window, now),
        decreases ts@.len() - i,
    {
        if sat_add_u64(ts[i], window) >= now {
            assert(live(ts@[i as int], window, now));
            return true;
        }
        i = i + 1;
    }
    false
}
/// What the limiter holds for one source: its recent timestamps and its
/// place in the list of sources.
struct Track {
    times: Vec<u64>,
    slot: usize,
}

/// The throttle both limiters run. Beside the map from each source to its
/// timestamps it keeps the list of sources with each one's last-seen time,
/// so the oldest is found without a lookup per source, and a lower bound on
/// every last-seen time that tells, without a scan, when no source can have
/// fallen out of the window.
struct SlidingWindow {
    seen: StringHashMap<Track>,
    sources: Vec<String>,
    stamps: Vec<u64>,
    max: usize,
    window: u64,
    floor: u64,
    dirty: bool,
}

impl View for SlidingWindow {
    type V = LimiterV;

    closed spec fn view(&self) -> LimiterV {
        LimiterV { seen: self.seen@.map_values(|t: Track| t.times@), max: self.max, window: self.window }
    }
}

impl SlidingWindow {
    /// The list of sources names each source held exactly once, at the slot
    /// its entry records, beside its last-seen time.
    closed spec fn consistent(&self) -> bool {
        &&& self.seen@.dom().finite()
        &&& self.sources@.len() == self.stamps@.len()
        &&& self.seen@.len() == self.sources@.len()
        &&& forall|i: int|
            #![trigger self.sources@[i]]
            0 <= i < self.sources@.len() ==> {
                let k = self.sources@[i]@;
                &&& self.seen@.contains_key(k)
                &&& self.seen@[k].slot == i
                &&& self.stamps@[i] == last_seen(self.seen@[k].times@)
            }
        &&& forall|k: Seq<char>| #[trigger]
            self.seen@.contains_key(k) ==> {
                let s = self.seen@[k].slot as int;
                0 <= s < self.sources@.len() && self.sources@[s]@ == k
            }
    }

    /// Unless marked dirty, every source held has a timestamp and was last
    /// seen no earlier than `floor`.
    closed spec fn floor_holds(&self) -> bool {
        !self.dirty ==> forall|k: Seq<char>| #[trigger]
            self@.seen.contains_key(k) ==> self@.seen[k].len() > 0 && self.floor <= last_seen(self@.seen[k])
    }

    closed spec fn wf(&self) -> bool {
        &&& self.consistent()
        &&& self.floor_holds()
        &&& (self.max == 0 || self.seen@.len() <= MAX_KEYS)
    }

    proof fn lemma_view_len(&self)
        requires
            self.consistent(),
        ensures
            self@.seen.dom().finite(),
            self@.seen.len() == self.seen@.len(),
            self@.seen.len() == self.sources@.len(),
    {
        assert(self@.seen.dom() =~= self.seen@.dom());
    }

    fn new(max: usize, window: u64) -> (w: SlidingWindow)
        ensures
            w.wf(),
            w@ == (LimiterV { seen: Map::empty(), max, window }),
    {
        let w = SlidingWindow {
            seen: StringHashMap::new(),
            sources: Vec::new(),
            stamps: Vec::new(),
            max,
            window,
            floor: u64::MAX,
            dirty: false,
        };
        assert(w@.seen =~= Map::<Seq<char>, Seq<u64>>::empty());
        w
    }

    /// The number of sources held.
    fn len(&self) -> (n: usize)
        requires
            self.consistent(),
        ensures
            n == self@.seen.len(),
    {
        proof {
            self.lemma_view_len();
        }
        self.sources.len()
    }

    /// Forget the source at `i`; the last source takes its place.
    fn remove_at(&mut self, i: usize)
        requires
            old(self).consistent(),
            i < old(self).sources@.len(),
        ensures
            final(self).consistent(),
            final(self)@ == (LimiterV { seen: old(self)@.seen.remove(old(self).sources@[i as int]@), ..old(self)@ }),
            final(self).sources@ == old(self).sources@.update(i as int, old(self).sources@.last()).drop_last(),
            final(self).stamps@ == old(self).stamps@.update(i as int, old(self).stamps@.last()).drop_last(),
            final(self).floor == old(self).floor,
            final(self).dirty == old(self).dirty,
    {
        let ghost key = self.sources@[i as int]@;
        let ghost m = self.seen@;
        let ghost src = self.sources@;
        let ghost n = self.sources@.len();
        let ghost last = src[n - 1]@;
        let removed = self.sources.swap_remove(i);
        self.stamps.swap_remove(i);
        self.seen.remove(removed.as_str());
        if i < self.sources.len() {
            assert(src[n - 1]@ != key);
            let times = match self.seen.get(self.sources[i].as_str()) {
                Some(t) => copy_u64s(t.times.as_slice()),
                None => Vec::new(),
            };
            let moved = self.sources[i].clone();
            self.seen.insert(moved, Track { times, slot: i });
        }
        proof {
            assert(m.dom().contains(key));
            if (i as int) < n - 1 {
                assert(self.seen@.dom() =~= m.dom().remove(key));
            } else {
                assert(self.seen@.dom() =~= m.dom().remove(key));
            }
            assert forall|a: int| #![trigger self.sources@[a]] 0 <= a < self.sources@.len() implies {
                let k = self.sources@[a]@;
                &&& self.seen@.contains_key(k)
                &&& self.seen@[k].slot == a
                &&& self.stamps@[a] == last_seen(self.seen@[k].times@)
            } by {
                if a != i {
                    assert(src[a]@ != key);
                    assert(src[a]@ != last);
                }
            }
            assert forall|k: Seq<char>| #[trigger] self.seen@.contains_key(k) implies {
                let s = self.seen@[k].slot as int;
                0 <= s < self.sources@.len() && self.sources@[s]@ == k
            } by {
                if k != last {
                    assert(m[k].slot != i);
                }
            }
            assert(self@.seen =~= m.map_values(|t: Track| t.times@).remove(key));
        }
    }

    /// Drop every source that can no longer be blocked.
    #[verifier::spinoff_prover]
    #[verifier::rlimit(40)]
    fn drop_dead(&mut self, now: u64)
        requires
            old(self).consistent(),
        ensures
            final(self).consistent(),
            final(self).floor_holds(),
            !final(self).dirty,
            final(self)@ == (LimiterV { seen: shed_dead(old(self)@.seen, old(self).window, now), ..old(self)@ }),
            final(self).sources@.len() <= old(self).sources@.len(),
    {
        let ghost m0 = self@.seen;
        let mut floor: u64 = u64::MAX;
        let mut i: usize = 0;
        while i < self.sources.len()
            invariant
                self.consistent(),
                self.max == old(self).max,
                self.window == old(self).window,
                m0 == old(self)@.seen,
                0 <= i <= self.sources@.len(),
                self.sources@.len() <= old(self).sources@.len(),
                forall|k: Seq<char>| #[trigger]
                    self@.seen.contains_key(k) ==> m0.contains_key(k) && self@.seen[k] == m0[k],
                forall|k: Seq<char>| #[trigger]
                    m0.contains_key(k) && can_block(m0[k], self.window, now) ==> self@.seen.contains_key(k),
                forall|a: int|
                    #![trigger self.sources@[a]]
                    0 <= a < i ==> can_block(self@.seen[self.sources@[a]@], self.window, now) && floor
                        <= self.stamps@[a],
            decreases self.sources@.len() - i,
        {
            let ghost k = self.sources@[i as int]@;
            let live = match self.seen.get(self.sources[i].as_str()) {
                Some(t) => any_live(t.times.as_slice(), self.window, now),
                None => false,
            };
            assert(self@.seen.contains_key(k) && self@.seen[k] == self.seen@[k].times@);
            if live {
                if self.stamps[i] < floor {
                    floor = self.stamps[i];
                }
                i = i + 1;
            } else {
                let ghost before = self@.seen;
                let ghost src = self.sources@;
                self.remove_at(i);
                proof {
                    assert forall|a: int| #![trigger self.sources@[a]] 0 <= a < i implies can_block(
                        self@.seen[self.sources@[a]@],
                        self.window,
                        now,
                    ) && floor <= self.stamps@[a] by {
                        assert(self.sources@[a] == src[a]);
                        assert(src[a]@ != k);
                    }
                }
            }
        }
        self.floor = floor;
        self.dirty = false;
        proof {
            let target = shed_dead(m0, self.window, now);
            assert forall|k: Seq<char>| self@.seen.contains_key(k) implies target.contains_key(k) by {
                let s = self.seen@[k].slot as int;
                assert(self.sources@[s]@ == k);
            }
            assert(self@.seen =~= target);
            assert forall|k: Seq<char>| #[trigger] self@.seen.contains_key(k) implies self@.seen[k].len() > 0
                && self.floor <= last_seen(self@.seen[k]) by {
                let s = self.seen@[k].slot as int;
                assert(self.sources@[s]@ == k);
            }
        }
    }

    /// Evict the source that goes before every other.
    #[verifier::spinoff_prover]
    #[verifier::rlimit(40)]
    fn evict_oldest(&mut self)
        requires
            old(self).consistent(),
            old(self).seen@.len() > 0,
        ensures
            final(self).consistent(),
            final(self).floor == old(self).floor,
            final(self).dirty == old(self).dirty,
            is_oldest(old(self)@.seen, oldest(old(self)@.seen)),
            final(self)@ == (LimiterV { seen: old(self)@.seen.remove(oldest(old(self)@.seen)), ..old(self)@ }),
            final(self).sources@.len() == old(self).sources@.len() - 1,
    {
        let ghost m = self@.seen;
        let mut best: usize = 0;
        let mut j: usize = 1;
        while j < self.sources.len()
            invariant
                1 <= j <= self.sources@.len(),
                best < j,
                self.consistent(),
                m == self@.seen,
                forall|a: int|
                    #![trigger self.sources@[a]]
                    0 <= a < j && a != best ==> older(
                        self.stamps@[best as int],
                        self.sources@[best as int]@,
                        self.stamps@[a],
                        self.sources@[a]@,
                    ),
            decreases self.sources@.len() - j,
        {
            let before = self.stamps[j] < self.stamps[best] || (self.stamps[j] == self.stamps[best]
                && crate::group::bytes_lt(self.sources[j].as_str().as_bytes(), self.sources[best].as_str().as_bytes()));
            let ghost kj = self.sources@[j as int]@;
            let ghost kb = self.sources@[best as int]@;
            proof {
                assert(kj != kb);
                lemma_older_total(self.stamps@[j as int], kj, self.stamps@[best as int], kb);
            }
            if before {
                proof {
                    assert forall|a: int| #![trigger self.sources@[a]] 0 <= a < j + 1 && a != j implies older(
                        self.stamps@[j as int],
                        kj,
                        self.stamps@[a],
                        self.sources@[a]@,
                    ) by {
                        if a != best {
                            lemma_older_transitive(
                                self.stamps@[j as int],
                                kj,
                                self.stamps@[best as int],
                                kb,
                                self.stamps@[a],
                                self.sources@[a]@,
                            );
                        }
                    }
                }
                best = j;
            }
            j = j + 1;
        }
        let ghost victim = self.sources@[best as int]@;
        proof {
            assert forall|k: Seq<char>| #[trigger] m.contains_key(k) && k != victim implies older(
                last_seen(m[victim]),
                victim,
                last_seen(m[k]),
                k,
            ) by {
                let s = self.seen@[k].slot as int;
                assert(self.sources@[s]@ == k);
            }
            assert(is_oldest(m, victim));
            lemma_oldest_unique(m, victim);
        }
        self.remove_at(best);
    }

    /// Drop the sources that can no longer be blocked, then, over the cap,
    /// evict the oldest.
    fn shed(&mut self, now: u64)
        requires
            old(self).consistent(),
            old(self).floor_holds(),
            old(self).seen@.len() <= MAX_KEYS + 1,
        ensures
            final(self).consistent(),
            final(self).floor_holds(),
            final(self).seen@.len() <= MAX_KEYS,
            final(self)@ == (LimiterV { seen: spec_shed(old(self)@.seen, old(self).window, now), ..old(self)@ }),
    {
        let ghost m = self@.seen;
        if self.dirty || sat_add_u64(self.floor, self.window) < now {
            self.drop_dead(now);
        } else {
            proof {
                assert forall|k: Seq<char>| m.contains_key(k) implies can_block(m[k], self.window, now) by {
                    lemma_floor_keeps_live(m[k], self.floor, self.window, now);
                }
                assert(shed_dead(m, self.window, now) =~= m);
            }
        }
        proof {
            self.lemma_view_len();
        }
        if self.len() > MAX_KEYS {
            self.evict_oldest();
            proof {
                self.lemma_view_len();
            }
        }
    }

    /// Hold `times` as the timestamps of `source`, in its own slot when it
    /// is held already.
    fn put(&mut self, source: &str, times: Vec<u64>, slot: Option<usize>)
        requires
            old(self).consistent(),
            slot is Some ==> old(self).seen@.contains_key(source@) && old(self).seen@[source@].slot == slot->0,
            slot is None ==> !old(self).seen@.contains_key(source@),
        ensures
            final(self).consistent(),
            final(self)@ == (LimiterV { seen: old(self)@.seen.insert(source@, times@), ..old(self)@ }),
            final(self).floor == old(self).floor,
            final(self).dirty == old(self).dirty,
            final(self).seen@.len() == old(self).seen@.len() + (if slot is None {
                1int
            } else {
                0int
            }),
    {
        let ghost m = self.seen@;
        let ghost src = self.sources@;
        let ghost t = times@;
        let stamp = latest(times.as_slice());
        match slot {
            Some(s) => {
                self.seen.insert(source.to_owned(), Track { times, slot: s });
                self.stamps[s] = stamp;
                proof {
                    assert(self.seen@.dom() =~= m.dom());
                    assert forall|a: int| #![trigger self.sources@[a]] 0 <= a < self.sources@.len() implies {
                        let k = self.sources@[a]@;
                        &&& self.seen@.contains_key(k)
                        &&& self.seen@[k].slot == a
                        &&& self.stamps@[a] == last_seen(self.seen@[k].times@)
                    } by {
                        if a != s {
                            assert(src[a]@ != source@);
                        }
                    }
                }
            },
            None => {
                let s = self.sources.len();
                self.seen.insert(source.to_owned(), Track { times, slot: s });
                self.sources.push(source.to_owned());
                self.stamps.push(stamp);
                proof {
                    assert(self.seen@.dom() =~= m.dom().insert(source@));
                    assert forall|a: int| #![trigger self.sources@[a]] 0 <= a < self.sources@.len() implies {
                        let k = self.sources@[a]@;
                        &&& self.seen@.contains_key(k)
                        &&& self.seen@[k].slot == a
                        &&& self.stamps@[a] == last_seen(self.seen@[k].times@)
                    } by {
                        if a < s {
                            assert(self.sources@[a] == src[a]);
                        }
                    }
                }
            },
        }
        proof {
            assert forall|k: Seq<char>| #[trigger] self.seen@.contains_key(k) implies {
                let s = self.seen@[k].slot as int;
                0 <= s < self.sources@.len() && self.sources@[s]@ == k
            } by {
                if k != source@ {
                    assert(m.contains_key(k));
                }
            }
            assert(self@.seen =~= m.map_values(|t: Track| t.times@).insert(source@, t));
        }
    }

    /// Record an attempt from `source` at `now` and report whether it is
    /// over the ceiling.
    fn record(&mut self, source: &str, now: u64) -> (over: bool)
        requires
            old(self).wf(),
        ensures
            final(self).wf(),
            (final(self)@, over) == spec_over_limit(old(self)@, source@, now),
    {
        let ghost s0 = self@;
        proof {
            self.lemma_view_len();
        }
        let (mut k, slot) = match self.seen.get(source) {
            Some(t) => (kept_in_window(t.times.as_slice(), self.window, now), Some(t.slot)),
            None => (Vec::new(), None),
        };
        proof {
            if slot is None {
                assert(k@ =~= kept(Seq::<u64>::empty(), self.window, now));
            } else {
                assert(self@.seen[source@] == self.seen@[source@].times@);
            }
        }
        let over = k.len() >= self.max;
        if !over {
            k.push(now);
        }
        let stamp = latest(k.as_slice());
        let empty = k.len() == 0;
        self.put(source, k, slot);
        if empty {
            self.dirty = true;
        } else if stamp < self.floor {
            self.floor = stamp;
        }
        proof {
            self.lemma_view_len();
        }
        if over {
            return true;
        }
        self.shed(now);
        false
    }
}

/// The machine's clock as whole seconds since the Unix epoch, `0` before
/// it: `SystemTime::elapsed` (std) on `UNIX_EPOCH`. Nothing is stated of the
/// value.
#[verifier::external_body]
fn unix_now() -> u64 {
    match std::time::UNIX_EPOCH.elapsed() {
        Ok(d) => d.as_secs(),
        Err(_) => 0,
    }
}

/// Recent new-registration timestamps (unix seconds) per source address.
pub struct RegistrationLimiter {
    throttle: SlidingWindow,
}

impl View for RegistrationLimiter {
    type V = LimiterV;

    closed spec fn view(&self) -> LimiterV {
        self.throttle@
    }
}

impl RegistrationLimiter {
    /// The limiter's internal bookkeeping agrees with its view.
    pub closed spec fn wf(&self) -> bool {
        self.throttle.wf()
    }

    /// A limiter with an explicit per-window ceiling, at least one; the
    /// window is fixed at one hour.
    pub fn with_max(max: usize) -> (r: RegistrationLimiter)
        ensures
            r.wf(),
            r@ == (LimiterV { seen: Map::empty(), max: if max == 0 {
                1
            } else {
                max
            }, window: WINDOW_SECS }),
    {
        let max = if max == 0 {
            1
        } else {
            max
        };
        RegistrationLimiter { throttle: SlidingWindow::new(max, WINDOW_SECS) }
    }

    /// Record a new registration from `source` at `now` and report whether it
    /// is over the ceiling (to be refused). A refused attempt is not
    /// recorded.
    pub fn over_limit_at(&mut self, source: &str, now: u64) -> (over: bool)
        requires
            old(self).wf(),
        ensures
            final(self).wf(),
            (final(self)@, over) == spec_over_limit(old(self)@, source@, now),
            final(self)@.max >= 1 ==> final(self)@.seen.len() <= MAX_KEYS,
    {
        let over = self.throttle.record(source, now);
        proof {
            self.throttle.lemma_view_len();
        }
        over
    }

    /// [`over_limit_at`](Self::over_limit_at) at the time the clock reads.
    pub fn over_limit(&mut self, source: &str) -> (over: bool)
        requires
            old(self).wf(),
        ensures
            final(self).wf(),
            exists|now: u64| (final(self)@, over) == spec_over_limit(old(self)@, source@, now),
            final(self)@.max >= 1 ==> final(self)@.seen.len() <= MAX_KEYS,
    {
        let now = unix_now();
        self.over_limit_at(source, now)
    }

    /// The number of sources held.
    pub fn held_sources(&self) -> (n: usize)
        requires
            self.wf(),
        ensures
            n == self@.seen.len(),
    {
        self.throttle.len()
    }
}

impl Default for RegistrationLimiter {
    fn default() -> (r: RegistrationLimiter)
        ensures
            r.wf(),
            r@ == (LimiterV { seen: Map::empty(), max: DEFAULT_MAX_PER_WINDOW, window: WINDOW_SECS }),
    {
        RegistrationLimiter::with_max(DEFAULT_MAX_PER_WINDOW)
    }
}

/// Recent signup timestamps (unix seconds) per client address.
pub struct IpRateLimiter {
    throttle: SlidingWindow,
}

impl View for IpRateLimiter {
    type V = LimiterV;

    closed spec fn view(&self) -> LimiterV {
        self.throttle@
    }
}

impl IpRateLimiter {
    /// The limiter's internal bookkeeping agrees with its view.
    pub closed spec fn wf(&self) -> bool {
        self.throttle.wf()
    }

    /// A limiter with its own ceiling per one-hour window.
    pub fn with_limit(max: usize) -> (r: IpRateLimiter)
        ensures
            r.wf(),
            r@ == (LimiterV { seen: Map::empty(), max, window: WINDOW_SECS }),
    {
        IpRateLimiter { throttle: SlidingWindow::new(max, WINDOW_SECS) }
    }

    /// Record a signup attempt from `ip` at `now` and report whether it is
    /// over the limit (to be refused). A refused attempt is not recorded.
    pub fn check_and_record_at(&mut self, ip: &str, now: u64) -> (over: bool)
        requires
            old(self).wf(),
        ensures
            final(self).wf(),
            (final(self)@, over) == spec_over_limit(old(self)@, ip@, now),
            final(self)@.max >= 1 ==> final(self)@.seen.len() <= MAX_KEYS,
    {
        let over = self.throttle.record(ip, now);
        proof {
            self.throttle.lemma_view_len();
        }
        over
    }

    /// [`check_and_record_at`](Self::check_and_record_at) at the time the
    /// clock reads.
    pub fn check_and_record(&mut self, ip: &str) -> (over: bool)
        requires
            old(self).wf(),
        ensures
            final(self).wf(),
            exists|now: u64| (final(self)@, over) == spec_over_limit(old(self)@, ip@, now),
            final(self)@.max >= 1 ==> final(self)@.seen.len() <= MAX_KEYS,
    {
        let now = unix_now();
        self.check_and_record_at(ip, now)
    }

    /// The number of addresses held.
    pub fn held_sources(&self) -> (n: usize)
        requires
            self.wf(),
        ensures
            n == self@.seen.len(),
    {
        self.throttle.len()
    }
}

impl Default for IpRateLimiter {
    fn default() -> (r: IpRateLimiter)
        ensures
            r.wf(),
            r@ == (LimiterV { seen: Map::empty(), max: MAX_PER_WINDOW, window: WINDOW_SECS }),
    {
        IpRateLimiter::with_limit(MAX_PER_WINDOW)
    }
}

/// The older-than order is transitive.
proof fn lemma_older_transitive(a_seen: u64, a: Seq<char>, b_seen: u64, b: Seq<char>, c_seen: u64, c: Seq<char>)
    requires
        older(a_seen, a, b_seen, b),
        older(b_seen, b, c_seen, c),
    ensures
        older(a_seen, a, c_seen, c),
{
    if a_seen == b_seen && b_seen == c_seen {
        crate::group::lemma_lex_transitive(encode_utf8(a), encode_utf8(b), encode_utf8(c));
    }
}

/// Keeping the timestamps inside the window keeps no more than there were.
proof fn lemma_kept_shorter(ts: Seq<u64>, window: u64, now: u64)
    ensures
        kept(ts, window, now).len() <= ts.len(),
    decreases ts.len(),
{
    if ts.len() > 0 {
        lemma_kept_shorter(ts.drop_last(), window, now);
    }
}

/// When every timestamp is outside the window, none is kept.
proof fn lemma_kept_none(ts: Seq<u64>, window: u64, now: u64)
    requires
        forall|i: int| 0 <= i < ts.len() ==> !live(#[trigger] ts[i], window, now),
    ensures
        kept(ts, window, now).len() == 0,
    decreases ts.len(),
{
    if ts.len() > 0 {
        assert(!live(ts[ts.len() - 1], window, now));
        lemma_kept_none(ts.drop_last(), window, now);
    }
}

/// A finite map with at least one source has a source that goes before
/// every other.
proof fn lemma_oldest_exists(m: Map<Seq<char>, Seq<u64>>)
    requires
        m.dom().finite(),
        m.len() > 0,
    ensures
        is_oldest(m, oldest(m)),
    decreases m.len(),
{
    let k0 = m.dom().choose();
    let r = m.remove(k0);
    assert(r.len() == m.len() - 1);
    if r.len() == 0 {
        assert forall|j: Seq<char>| #[trigger] m.contains_key(j) && j != k0 implies older(
            last_seen(m[k0]),
            k0,
            last_seen(m[j]),
            j,
        ) by {
            assert(r.dom().contains(j));
        }
        lemma_oldest_unique(m, k0);
    } else {
        lemma_oldest_exists(r);
        let k1 = oldest(r);
        lemma_older_total(last_seen(m[k0]), k0, last_seen(m[k1]), k1);
        if older(last_seen(m[k0]), k0, last_seen(m[k1]), k1) {
            assert forall|j: Seq<char>| #[trigger] m.contains_key(j) && j != k0 implies older(
                last_seen(m[k0]),
                k0,
                last_seen(m[j]),
                j,
            ) by {
                if j != k1 {
                    assert(r.contains_key(j));
                    lemma_older_transitive(last_seen(m[k0]), k0, last_seen(m[k1]), k1, last_seen(m[j]), j);
                }
            }
            lemma_oldest_unique(m, k0);
        } else {
            assert forall|j: Seq<char>| #[trigger] m.contains_key(j) && j != k1 implies older(
                last_seen(m[k1]),
                k1,
                last_seen(m[j]),
                j,
            ) by {
                if j != k0 {
                    assert(r.contains_key(j));
                }
            }
            lemma_oldest_unique(m, k1);
        }
    }
}

/// The sources that can still be blocked are among those held.
proof fn lemma_shed_dead_finite(m: Map<Seq<char>, Seq<u64>>, window: u64, now: u64)
    requires
        m.dom().finite(),
    ensures
        shed_dead(m, window, now).dom().finite(),
        shed_dead(m, window, now).len() <= m.len(),
{
    vstd::set_lib::lemma_len_subset(shed_dead(m, window, now).dom(), m.dom());
}

/// An attempt is refused exactly when the source already has `max`
/// timestamps inside the window, and a refused attempt is not recorded: the
/// source keeps only its timestamps still inside the window.
pub proof fn law_a_refused_attempt_is_not_recorded(s: LimiterV, source: Seq<char>, now: u64)
    ensures
        spec_over_limit(s, source, now).1 <==> kept(times_of(s, source), s.window, now).len() >= s.max,
        spec_over_limit(s, source, now).1 ==> spec_over_limit(s, source, now).0.seen == s.seen.insert(
            source,
            kept(times_of(s, source), s.window, now),
        ),
{
}

/// Once a whole window has passed since a source's last timestamp, its next
/// attempt is accepted.
pub proof fn law_a_source_recovers_after_the_window(s: LimiterV, source: Seq<char>, now: u64)
    requires
        s.max >= 1,
        forall|i: int|
            0 <= i < times_of(s, source).len() ==> !live(#[trigger] times_of(s, source)[i], s.window, now),
    ensures
        !spec_over_limit(s, source, now).1,
{
    lemma_kept_none(times_of(s, source), s.window, now);
}

/// No source ever holds more than `max` timestamps.
pub proof fn law_no_source_holds_more_than_the_ceiling(s: LimiterV, source: Seq<char>, now: u64)
    requires
        forall|k: Seq<char>| #[trigger] s.seen.contains_key(k) ==> s.seen[k].len() <= s.max,
    ensures
        forall|k: Seq<char>| #[trigger]
            spec_over_limit(s, source, now).0.seen.contains_key(k) ==> spec_over_limit(s, source, now).0.seen[k].len()
                <= s.max,
{
    lemma_kept_shorter(times_of(s, source), s.window, now);
}

/// An attempt from one source leaves every other source's timestamps as
/// they were, unless it sheds that source.
pub proof fn law_sources_are_independent(s: LimiterV, source: Seq<char>, now: u64, other: Seq<char>)
    requires
        other != source,
    ensures
        spec_over_limit(s, source, now).0.seen.contains_key(other) ==> s.seen.contains_key(other)
            && spec_over_limit(s, source, now).0.seen[other] == s.seen[other],
        spec_over_limit(s, source, now).1 ==> (spec_over_limit(s, source, now).0.seen.contains_key(other)
            <==> s.seen.contains_key(other)),
{
}

/// After an accepted attempt, every source still held can still be blocked:
/// those that cannot have been shed.
pub proof fn law_only_sources_that_can_be_blocked_are_kept(s: LimiterV, source: Seq<char>, now: u64)
    ensures
        !spec_over_limit(s, source, now).1 ==> forall|k: Seq<char>| #[trigger]
            spec_over_limit(s, source, now).0.seen.contains_key(k) ==> can_block(
                spec_over_limit(s, source, now).0.seen[k],
                s.window,
                now,
            ),
{
}

/// Over the cap, the one source evicted is the oldest: last seen earliest,
/// ties broken by its bytes. Every other source that can still be blocked
/// stays, so a caller being throttled stays while a flood is shed around it.
pub proof fn law_the_cap_evicts_only_the_oldest(s: LimiterV, source: Seq<char>, now: u64, k: Seq<char>)
    requires
        s.seen.dom().finite(),
    ensures
        ({
            let l = shed_dead(
                s.seen.insert(source, kept(times_of(s, source), s.window, now).push(now)),
                s.window,
                now,
            );
            let (t, over) = spec_over_limit(s, source, now);
            !over && l.contains_key(k) && !t.seen.contains_key(k) ==> l.len() > MAX_KEYS && is_oldest(l, k)
        }),
{
    let m = s.seen.insert(source, kept(times_of(s, source), s.window, now).push(now));
    let l = shed_dead(m, s.window, now);
    lemma_shed_dead_finite(m, s.window, now);
    if l.len() > MAX_KEYS {
        lemma_oldest_exists(l);
    }
}

/// A limiter whose ceiling is at least one never holds more than
/// `MAX_KEYS` sources.
pub proof fn law_the_number_of_sources_is_capped(s: LimiterV, source: Seq<char>, now: u64)
    requires
        s.seen.dom().finite(),
        s.max >= 1,
        s.seen.len() <= MAX_KEYS,
    ensures
        spec_over_limit(s, source, now).0.seen.dom().finite(),
        spec_over_limit(s, source, now).0.seen.len() <= MAX_KEYS,
{
    let ts = times_of(s, source);
    let k = kept(ts, s.window, now);
    if k.len() >= s.max {
        lemma_kept_shorter(ts, s.window, now);
        assert(s.seen.contains_key(source));
        assert(s.seen.insert(source, k).dom() =~= s.seen.dom());
    } else {
        let m = s.seen.insert(source, k.push(now));
        assert(m.len() <= s.seen.len() + 1);
        let l = shed_dead(m, s.window, now);
        lemma_shed_dead_finite(m, s.window, now);
        if l.len() > MAX_KEYS {
            lemma_oldest_exists(l);
            assert(l.remove(oldest(l)).len() == l.len() - 1);
        }
    }
}

/// The limiter after a sequence of attempts, each a source and a time.
pub open spec fn run_limiter(s: LimiterV, calls: Seq<(Seq<char>, u64)>) -> LimiterV
    decreases calls.len(),
{
    if calls.len() == 0 {
        s
    } else {
        spec_over_limit(run_limiter(s, calls.drop_last()), calls.last().0, calls.last().1).0
    }
}

/// The times, in order, of the attempts from `source` that were accepted.
pub open spec fn accepted_times(s: LimiterV, calls: Seq<(Seq<char>, u64)>, source: Seq<char>) -> Seq<u64>
    decreases calls.len(),
{
    if calls.len() == 0 {
        Seq::empty()
    } else {
        let prev = accepted_times(s, calls.drop_last(), source);
        if calls.last().0 == source && !spec_over_limit(
            run_limiter(s, calls.drop_last()),
            calls.last().0,
            calls.last().1,
        ).1 {
            prev.push(calls.last().1)
        } else {
            prev
        }
    }
}

/// The sources with an accepted attempt still inside the window at `now`.
pub open spec fn live_sources(s: LimiterV, calls: Seq<(Seq<char>, u64)>, now: u64) -> Set<Seq<char>> {
    Set::new(|src: Seq<char>| can_block(accepted_times(s, calls, src), s.window, now))
}

/// Keeping the timestamps inside the window at `t`, then at a later `now`,
/// keeps those inside the window at `now`.
proof fn lemma_kept_twice(ts: Seq<u64>, window: u64, t: u64, now: u64)
    requires
        t <= now,
    ensures
        kept(kept(ts, window, t), window, now) == kept(ts, window, now),
    decreases ts.len(),
{
    if ts.len() > 0 {
        let front = ts.drop_last();
        lemma_kept_twice(front, window, t, now);
        let k = kept(front, window, t);
        if live(ts.last(), window, t) {
            assert(k.push(ts.last()).drop_last() =~= k);
        }
    }
}

/// Keeping after one more timestamp.
proof fn lemma_kept_push(ts: Seq<u64>, x: u64, window: u64, now: u64)
    ensures
        kept(ts.push(x), window, now) == if live(x, window, now) {
            kept(ts, window, now).push(x)
        } else {
            kept(ts, window, now)
        },
{
    assert(ts.push(x).drop_last() =~= ts);
}

/// What is kept was there.
proof fn lemma_kept_within(ts: Seq<u64>, window: u64, now: u64)
    ensures
        forall|x: u64| #[trigger] kept(ts, window, now).contains(x) ==> ts.contains(x),
    decreases ts.len(),
{
    if ts.len() > 0 {
        let front = ts.drop_last();
        lemma_kept_within(front, window, now);
        assert forall|x: u64| #[trigger] kept(ts, window, now).contains(x) implies ts.contains(x) by {
            let k = kept(front, window, now);
            if live(ts.last(), window, now) && x == ts.last() {
                assert(ts[ts.len() - 1] == x);
            } else {
                if live(ts.last(), window, now) {
                    let i = choose|i: int| 0 <= i < k.push(ts.last()).len() && k.push(ts.last())[i] == x;
                    assert(k[i] == x);
                }
                assert(k.contains(x));
                assert(front.contains(x));
                let j = choose|j: int| 0 <= j < front.len() && front[j] == x;
                assert(ts[j] == x);
            }
        }
    }
}

/// No timestamp is later than the latest.
proof fn lemma_below_last_seen(ts: Seq<u64>, i: int)
    requires
        0 <= i < ts.len(),
    ensures
        ts[i] <= last_seen(ts),
    decreases ts.len(),
{
    if i < ts.len() - 1 {
        lemma_below_last_seen(ts.drop_last(), i);
    }
}

/// A source with an accepted attempt made one of the attempts.
proof fn lemma_accepted_sources_called(s: LimiterV, calls: Seq<(Seq<char>, u64)>, source: Seq<char>)
    requires
        accepted_times(s, calls, source).len() > 0,
    ensures
        exists|i: int| 0 <= i < calls.len() && (#[trigger] calls[i]).0 == source,
    decreases calls.len(),
{
    let front = calls.drop_last();
    if accepted_times(s, front, source).len() > 0 {
        lemma_accepted_sources_called(s, front, source);
        let i = choose|i: int| 0 <= i < front.len() && (#[trigger] front[i]).0 == source;
        assert(calls[i] == front[i]);
    } else {
        assert(calls[calls.len() - 1].0 == source);
    }
}

/// Along a history of attempts, each made no later than `now`, in which the
/// sources with an accepted attempt inside the window at `now` fit in
/// `bound`, and `bound` fits under the cap: each source holds exactly its
/// accepted times as far as the window at `now` goes, and holds no time that
/// was not accepted.
#[verifier::spinoff_prover]
#[verifier::rlimit(100)]
proof fn lemma_history(s: LimiterV, calls: Seq<(Seq<char>, u64)>, now: u64, bound: Set<Seq<char>>)
    requires
        s.seen == Map::<Seq<char>, Seq<u64>>::empty(),
        forall|i: int| 0 <= i < calls.len() ==> (#[trigger] calls[i]).1 <= now,
        bound.finite(),
        bound.len() <= MAX_KEYS,
        forall|src: Seq<char>| #[trigger] can_block(accepted_times(s, calls, src), s.window, now) ==> bound.contains(src),
    ensures
        run_limiter(s, calls).max == s.max,
        run_limiter(s, calls).window == s.window,
        run_limiter(s, calls).seen.dom().finite(),
        forall|src: Seq<char>| #[trigger]
            kept(times_of(run_limiter(s, calls), src), s.window, now) == kept(
                accepted_times(s, calls, src),
                s.window,
                now,
            ),
        forall|src: Seq<char>, x: u64|
            run_limiter(s, calls).seen.contains_key(src) && #[trigger] run_limiter(s, calls).seen[src].contains(x)
                ==> accepted_times(s, calls, src).contains(x),
    decreases calls.len(),
{
    let w = s.window;
    if calls.len() == 0 {
        return;
    }
    let pc = calls.drop_last();
    let c = calls.last().0;
    let t = calls.last().1;
    assert(t == calls[calls.len() - 1].1);
    assert forall|src: Seq<char>| #[trigger] can_block(accepted_times(s, pc, src), w, now) implies bound.contains(
        src,
    ) by {
        let a = accepted_times(s, pc, src);
        let i = choose|i: int| 0 <= i < a.len() && live(#[trigger] a[i], w, now);
        assert(accepted_times(s, calls, src)[i] == a[i]);
        assert(can_block(accepted_times(s, calls, src), w, now));
    }
    assert forall|i: int| 0 <= i < pc.len() implies (#[trigger] pc[i]).1 <= now by {
        assert(pc[i] == calls[i]);
    }
    lemma_history(s, pc, now, bound);
    let p = run_limiter(s, pc);
    let f = run_limiter(s, calls);
    let tp = times_of(p, c);
    let k = kept(tp, w, t);
    lemma_kept_twice(tp, w, t, now);
    lemma_kept_within(tp, w, t);
    assert forall|x: u64| #[trigger] tp.contains(x) implies accepted_times(s, pc, c).contains(x) by {
        if p.seen.contains_key(c) {
            assert(p.seen[c].contains(x));
        }
    }
    if k.len() >= p.max {
        assert forall|src: Seq<char>| #[trigger]
            kept(times_of(f, src), w, now) == kept(accepted_times(s, calls, src), w, now) by {
            assert(accepted_times(s, calls, src) == accepted_times(s, pc, src));
            assert(kept(times_of(p, src), w, now) == kept(accepted_times(s, pc, src), w, now));
            if src == c {
                assert(times_of(f, src) == k);
            } else {
                assert(times_of(f, src) == times_of(p, src));
            }
        }
        assert forall|src: Seq<char>, x: u64|
            f.seen.contains_key(src) && #[trigger] f.seen[src].contains(x) implies accepted_times(
                s,
                calls,
                src,
            ).contains(x) by {
            assert(accepted_times(s, calls, src) == accepted_times(s, pc, src));
            if src == c {
                assert(k.contains(x));
            }
        }
    } else {
        let m = p.seen.insert(c, k.push(t));
        let l = shed_dead(m, w, t);
        assert(f.seen == if l.len() <= MAX_KEYS {
            l
        } else {
            l.remove(oldest(l))
        });
        let acc_c = accepted_times(s, calls, c);
        assert(acc_c == accepted_times(s, pc, c).push(t));
        lemma_kept_push(k, t, w, now);
        lemma_kept_push(accepted_times(s, pc, c), t, w, now);
        // What the source map holds before shedding was accepted, and keeps
        // the accepted times inside the window at `now`.
        assert forall|src: Seq<char>, x: u64| m.contains_key(src) && #[trigger] m[src].contains(x) implies accepted_times(
            s,
            calls,
            src,
        ).contains(x) by {
            if src == c {
                if x == t {
                    assert(acc_c[acc_c.len() - 1] == t);
                } else {
                    let i = choose|i: int| 0 <= i < k.push(t).len() && k.push(t)[i] == x;
                    assert(k[i] == x);
                    assert(k.contains(x));
                    let a = accepted_times(s, pc, c);
                    assert(a.contains(x));
                    let j = choose|j: int| 0 <= j < a.len() && a[j] == x;
                    assert(acc_c[j] == x);
                }
            } else {
                assert(accepted_times(s, calls, src) == accepted_times(s, pc, src));
                assert(p.seen[src].contains(x));
            }
        }
        assert forall|src: Seq<char>| m.contains_key(src) implies #[trigger] kept(m[src], w, now) == kept(
            accepted_times(s, calls, src),
            w,
            now,
        ) by {
            if src != c {
                assert(accepted_times(s, calls, src) == accepted_times(s, pc, src));
                assert(kept(times_of(p, src), w, now) == kept(accepted_times(s, pc, src), w, now));
            }
        }
        // A source that is dropped holds nothing inside the window at `now`.
        assert(m.dom().finite());
        assert forall|src: Seq<char>, x: u64|
            m.contains_key(src) && #[trigger] m[src].contains(x) && live(x, w, now) implies bound.contains(src) by {
            let a = accepted_times(s, calls, src);
            assert(a.contains(x));
            let i = choose|i: int| 0 <= i < a.len() && a[i] == x;
            assert(live(a[i], w, now));
            assert(can_block(a, w, now));
        }
        assert forall|src: Seq<char>| m.contains_key(src) && !f.seen.contains_key(src) implies kept(
            #[trigger] m[src],
            w,
            now,
        ).len() == 0 by {
            if can_block(m[src], w, now) {
                lemma_live_sources_stay(m, w, t, now, src, bound);
            }
            assert forall|i: int| 0 <= i < m[src].len() implies !live(#[trigger] m[src][i], w, now) by {
            }
            lemma_kept_none(m[src], w, now);
        }
        assert forall|src: Seq<char>| #[trigger]
            kept(times_of(f, src), w, now) == kept(accepted_times(s, calls, src), w, now) by {
            if f.seen.contains_key(src) {
                assert(f.seen[src] == m[src]);
            } else if m.contains_key(src) {
                assert(kept(m[src], w, now) == kept(accepted_times(s, calls, src), w, now));
            } else {
                assert(src != c);
                assert(accepted_times(s, calls, src) == accepted_times(s, pc, src));
                assert(times_of(p, src) == Seq::<u64>::empty());
            }
        }
        assert forall|src: Seq<char>, x: u64|
            f.seen.contains_key(src) && #[trigger] f.seen[src].contains(x) implies accepted_times(
                s,
                calls,
                src,
            ).contains(x) by {
            assert(f.seen[src] == m[src]);
            assert(m[src].contains(x));
        }
        lemma_shed_dead_finite(m, w, t);
    }
}

/// A source with a timestamp inside the window at a later `now` is never
/// shed at `t`, when the sources with such a timestamp fit under the cap.
proof fn lemma_live_sources_stay(
    m: Map<Seq<char>, Seq<u64>>,
    w: u64,
    t: u64,
    now: u64,
    src: Seq<char>,
    bound: Set<Seq<char>>,
)
    requires
        m.dom().finite(),
        t <= now,
        bound.finite(),
        bound.len() <= MAX_KEYS,
        forall|j: Seq<char>, x: u64| m.contains_key(j) && #[trigger] m[j].contains(x) && live(x, w, now) ==> bound.contains(j),
        m.contains_key(src),
        can_block(m[src], w, now),
    ensures
        ({
            let l = shed_dead(m, w, t);
            (if l.len() <= MAX_KEYS {
                l
            } else {
                l.remove(oldest(l))
            }).contains_key(src)
        }),
{
    let l = shed_dead(m, w, t);
    let i = choose|i: int| 0 <= i < m[src].len() && live(#[trigger] m[src][i], w, now);
    assert(live(m[src][i], w, t));
    assert(l.contains_key(src));
    if l.len() > MAX_KEYS {
        lemma_shed_dead_finite(m, w, t);
        lemma_oldest_exists(l);
        let o = oldest(l);
        if o == src {
            lemma_below_last_seen(m[src], i);
            assert forall|j: Seq<char>| l.dom().contains(j) implies bound.contains(j) by {
                assert(m[src].contains(m[src][i]));
                if j != src {
                    assert(l.contains_key(j) && j != o);
                    assert(older(last_seen(l[o]), o, last_seen(l[j]), j));
                    lemma_last_seen_is_held(l[j]);
                    let k = choose|k: int| 0 <= k < l[j].len() && l[j][k] == last_seen(l[j]);
                    assert(m[j].contains(l[j][k]));
                    assert(live(l[j][k], w, now));
                }
            }
            vstd::set_lib::lemma_len_subset(l.dom(), bound);
        }
    }
}

/// Over a history of attempts on a fresh limiter, each made no later than
/// `now`: an attempt at `now` is refused exactly when its source already has
/// `max` accepted attempts inside the window, refused attempts not counting,
/// and only an accepted attempt joins the source's accepted times. This
/// holds while the sources with an accepted attempt inside the window fit
/// under the cap on sources held.
pub proof fn law_refusal_counts_the_accepted_attempts_in_the_window(
    s: LimiterV,
    calls: Seq<(Seq<char>, u64)>,
    source: Seq<char>,
    now: u64,
)
    requires
        s.seen == Map::<Seq<char>, Seq<u64>>::empty(),
        forall|i: int| 0 <= i < calls.len() ==> (#[trigger] calls[i]).1 <= now,
        live_sources(s, calls, now).len() <= MAX_KEYS,
    ensures
        spec_over_limit(run_limiter(s, calls), source, now).1 <==> kept(accepted_times(s, calls, source), s.window, now).len()
            >= s.max,
        accepted_times(s, calls.push((source, now)), source) == if spec_over_limit(
            run_limiter(s, calls),
            source,
            now,
        ).1 {
            accepted_times(s, calls, source)
        } else {
            accepted_times(s, calls, source).push(now)
        },
{
    let bound = live_sources(s, calls, now);
    let callers = calls.map_values(|c: (Seq<char>, u64)| c.0).to_set();
    assert(bound.subset_of(callers)) by {
        assert forall|src: Seq<char>| bound.contains(src) implies callers.contains(src) by {
            lemma_accepted_sources_called(s, calls, src);
            let i = choose|i: int| 0 <= i < calls.len() && (#[trigger] calls[i]).0 == src;
            assert(calls.map_values(|c: (Seq<char>, u64)| c.0)[i] == src);
        }
    }
    vstd::seq_lib::seq_to_set_is_finite(calls.map_values(|c: (Seq<char>, u64)| c.0));
    vstd::set_lib::lemma_len_subset(bound, callers);
    lemma_history(s, calls, now, bound);
    assert(kept(times_of(run_limiter(s, calls), source), s.window, now) == kept(
        accepted_times(s, calls, source),
        s.window,
        now,
    ));
    let longer = calls.push((source, now));
    assert(longer.drop_last() =~= calls);
}

} // verus!
