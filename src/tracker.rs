//! All slots in flight, the highest slot seen, and the eviction policy.
use vstd::prelude::*;
use crate::slot::{SlotState, SetEntry, slot_sets, chain_bytes, chain_end, decoded_in, lemma_emitted_follow_fec_order};
use crate::entries::split_entries;
use crate::fec::{DecodeOutcome, decode_outcome, decoded_after};

verus! {

/// Counters that only ever grow; each saturates at `u64::MAX`.
#[derive(Debug, Clone, Copy, PartialEq, Eq, Structural)]
pub struct ShredMetrics {
    pub duplicate_shreds_dropped: u64,
    pub malformed_shreds_dropped: u64,
    pub late_shreds_dropped: u64,
    pub fec_sets_recovered: u64,
    pub fec_set_decode_failures: u64,
    pub slots_evicted: u64,
    pub entries_decoded: u64,
    pub packets_forwarded: u64,
}

pub open spec fn sat_add(a: u64, n: nat) -> u64 {
    if a + n > u64::MAX { u64::MAX } else { (a + n) as u64 }
}

/// Adds `n` to a counter, stopping at `u64::MAX`.
pub fn bump_by(c: u64, n: u64) -> (r: u64)
    ensures
        r == sat_add(c, n as nat),
{
    if c > u64::MAX - n { u64::MAX } else { c + n }
}

impl ShredMetrics {
    pub open spec fn zero() -> ShredMetrics {
        ShredMetrics {
            duplicate_shreds_dropped: 0,
            malformed_shreds_dropped: 0,
            late_shreds_dropped: 0,
            fec_sets_recovered: 0,
            fec_set_decode_failures: 0,
            slots_evicted: 0,
            entries_decoded: 0,
            packets_forwarded: 0,
        }
    }

    pub fn new() -> (r: ShredMetrics)
        ensures
            r == ShredMetrics::zero(),
    {
        ShredMetrics {
            duplicate_shreds_dropped: 0,
            malformed_shreds_dropped: 0,
            late_shreds_dropped: 0,
            fec_sets_recovered: 0,
            fec_set_decode_failures: 0,
            slots_evicted: 0,
            entries_decoded: 0,
            packets_forwarded: 0,
        }
    }
}

/// No counter of `b` is below its value in `a`.
pub open spec fn metrics_grow(a: ShredMetrics, b: ShredMetrics) -> bool {
    &&& a.duplicate_shreds_dropped <= b.duplicate_shreds_dropped
    &&& a.malformed_shreds_dropped <= b.malformed_shreds_dropped
    &&& a.late_shreds_dropped <= b.late_shreds_dropped
    &&& a.fec_sets_recovered <= b.fec_sets_recovered
    &&& a.fec_set_decode_failures <= b.fec_set_decode_failures
    &&& a.slots_evicted <= b.slots_evicted
    &&& a.entries_decoded <= b.entries_decoded
    &&& a.packets_forwarded <= b.packets_forwarded
}

/// Lowest slot kept when the highest slot seen is `highest`.
pub open spec fn eviction_floor(highest: u64, window: u64) -> u64 {
    if highest >= window { (highest - window) as u64 } else { 0 }
}

pub fn floor_of(highest: u64, window: u64) -> (r: u64)
    ensures
        r == eviction_floor(highest, window),
{
    if highest >= window { highest - window } else { 0 }
}

/// Every FEC set held, keyed by slot and FEC-set index.
pub open spec fn tracker_sets(t: ShredTracker) -> Map<(u64, u32), SetEntry> {
    Map::new(
        |k: (u64, u32)| t.has_slot(k.0) && slot_sets(t.slots@[t.position(k.0)].1).contains_key(k.1),
        |k: (u64, u32)| slot_sets(t.slots@[t.position(k.0)].1)[k.1],
    )
}

/// Replacing the slot state at `pos` by one whose set map differs at `fec`
/// alone changes the tracker's set map at that key alone.
pub proof fn lemma_tracker_sets_update(o: ShredTracker, fin: ShredTracker, pos: int, fec: u32, v: SetEntry)
    requires
        ShredTracker::sorted(o.slots@),
        ShredTracker::sorted(fin.slots@),
        o.slots@.len() == fin.slots@.len(),
        0 <= pos < o.slots@.len(),
        fin.slots@[pos].0 == o.slots@[pos].0,
        forall|j: int| 0 <= j < o.slots@.len() && j != pos ==> (#[trigger] fin.slots@[j]) == o.slots@[j],
        slot_sets(fin.slots@[pos].1) == slot_sets(o.slots@[pos].1).insert(fec, v),
    ensures
        tracker_sets(fin) == tracker_sets(o).insert((o.slots@[pos].0, fec), v),
{
    let m = tracker_sets(o).insert((o.slots@[pos].0, fec), v);
    o.lemma_position(pos);
    fin.lemma_position(pos);
    assert forall|k: (u64, u32)| #[trigger] tracker_sets(fin).contains_key(k) == m.contains_key(k)
        && (m.contains_key(k) ==> tracker_sets(fin)[k] == m[k]) by {
        if k.0 == o.slots@[pos].0 {
        } else {
            if o.has_slot(k.0) {
                let j = o.position(k.0);
                o.lemma_position(j);
                assert(fin.slots@[j] == o.slots@[j]);
                fin.lemma_position(j);
            }
            if fin.has_slot(k.0) {
                let j = fin.position(k.0);
                fin.lemma_position(j);
                assert(fin.slots@[j] == o.slots@[j]);
                o.lemma_position(j);
            }
        }
    }
    assert(tracker_sets(fin) =~= m);
}

/// The entries a slot has emitted so far; none for a slot not held.
pub open spec fn emitted_of(t: ShredTracker, slot: u64) -> Seq<Seq<u8>> {
    if t.has_slot(slot) { t.slots@[t.position(slot)].1.emitted@ } else { Seq::empty() }
}

/// Replacing the slot state at `pos` by one for the same slot changes what
/// `emitted_of` gives for that slot alone.
pub proof fn lemma_emitted_update(o: ShredTracker, fin: ShredTracker, pos: int)
    requires
        ShredTracker::sorted(o.slots@),
        ShredTracker::sorted(fin.slots@),
        o.slots@.len() == fin.slots@.len(),
        0 <= pos < o.slots@.len(),
        fin.slots@[pos].0 == o.slots@[pos].0,
        forall|j: int| 0 <= j < o.slots@.len() && j != pos ==> (#[trigger] fin.slots@[j]) == o.slots@[j],
    ensures
        forall|s: u64| #[trigger] emitted_of(fin, s) == if s == o.slots@[pos].0 { fin.slots@[pos].1.emitted@ } else { emitted_of(o, s) },
        forall|s: u64| #[trigger] fin.has_slot(s) == o.has_slot(s),
{
    o.lemma_position(pos);
    fin.lemma_position(pos);
    assert forall|s: u64| #[trigger] emitted_of(fin, s) == (if s == o.slots@[pos].0 { fin.slots@[pos].1.emitted@ } else { emitted_of(o, s) })
        && fin.has_slot(s) == o.has_slot(s) by {
        if s != o.slots@[pos].0 {
            if o.has_slot(s) {
                let j = o.position(s);
                o.lemma_position(j);
                assert(fin.slots@[j] == o.slots@[j]);
                fin.lemma_position(j);
            }
            if fin.has_slot(s) {
                let j = fin.position(s);
                fin.lemma_position(j);
                assert(fin.slots@[j] == o.slots@[j]);
                o.lemma_position(j);
            }
        }
    }
    assert forall|s: u64| #[trigger] fin.has_slot(s) == o.has_slot(s) by {
        if s != o.slots@[pos].0 {
            if o.has_slot(s) {
                let j = o.position(s);
                o.lemma_position(j);
                assert(fin.slots@[j] == o.slots@[j]);
                fin.lemma_position(j);
            }
            if fin.has_slot(s) {
                let j = fin.position(s);
                fin.lemma_position(j);
                assert(fin.slots@[j] == o.slots@[j]);
                o.lemma_position(j);
            }
        }
    }
}

/// The sets of slot `slot` in `m`, keyed by FEC-set index.
pub open spec fn slot_map(m: Map<(u64, u32), SetEntry>, slot: u64) -> Map<u32, SetEntry> {
    Map::new(|f: u32| m.contains_key((slot, f)), |f: u32| m[(slot, f)])
}

pub proof fn lemma_slot_map(t: ShredTracker, slot: u64)
    requires
        t.has_slot(slot),
    ensures
        slot_map(tracker_sets(t), slot) == slot_sets(t.slots@[t.position(slot)].1),
{
    assert(slot_map(tracker_sets(t), slot) =~= slot_sets(t.slots@[t.position(slot)].1));
}

/// The sets of `m` whose slot is at least `floor`.
pub open spec fn sets_from(m: Map<(u64, u32), SetEntry>, floor: u64) -> Map<(u64, u32), SetEntry> {
    Map::new(|k: (u64, u32)| m.contains_key(k) && k.0 >= floor, |k: (u64, u32)| m[k])
}

/// Replacing the slot state at `pos` by one with the same FEC sets keeps the
/// tracker's set map.
pub proof fn lemma_tracker_sets_same(o: ShredTracker, fin: ShredTracker, pos: int)
    requires
        ShredTracker::sorted(o.slots@),
        ShredTracker::sorted(fin.slots@),
        o.slots@.len() == fin.slots@.len(),
        0 <= pos < o.slots@.len(),
        fin.slots@[pos].0 == o.slots@[pos].0,
        forall|j: int| 0 <= j < o.slots@.len() && j != pos ==> (#[trigger] fin.slots@[j]) == o.slots@[j],
        slot_sets(fin.slots@[pos].1) == slot_sets(o.slots@[pos].1),
    ensures
        tracker_sets(fin) == tracker_sets(o),
{
    let m = tracker_sets(o);
    o.lemma_position(pos);
    fin.lemma_position(pos);
    assert forall|k: (u64, u32)| #[trigger] tracker_sets(fin).contains_key(k) == m.contains_key(k)
        && (m.contains_key(k) ==> tracker_sets(fin)[k] == m[k]) by {
        if k.0 != o.slots@[pos].0 {
            if o.has_slot(k.0) {
                let j = o.position(k.0);
                o.lemma_position(j);
                assert(fin.slots@[j] == o.slots@[j]);
                fin.lemma_position(j);
            }
            if fin.has_slot(k.0) {
                let j = fin.position(k.0);
                fin.lemma_position(j);
                assert(fin.slots@[j] == o.slots@[j]);
                o.lemma_position(j);
            }
        }
    }
    assert(tracker_sets(fin) =~= m);
}

/// Reconstruction state across all slots in flight.
pub struct ShredTracker {
    /// Slot states in strictly ascending slot order.
    pub slots: Vec<(u64, SlotState)>,
    pub highest_slot: u64,
    pub retention_window: u64,
    pub metrics: ShredMetrics,
}

impl ShredTracker {
    pub open spec fn sorted(s: Seq<(u64, SlotState)>) -> bool {
        forall|i: int, j: int| 0 <= i < j < s.len() ==> (#[trigger] s[i]).0 < (#[trigger] s[j]).0
    }

    pub open spec fn well_formed(&self) -> bool {
        &&& Self::sorted(self.slots@)
        &&& forall|i: int| 0 <= i < self.slots@.len() ==> (#[trigger] self.slots@[i]).1.well_formed()
        &&& forall|i: int|
            0 <= i < self.slots@.len() ==> (#[trigger] self.slots@[i]).0 >= eviction_floor(
                self.highest_slot,
                self.retention_window,
            )
    }

    pub open spec fn has_slot(&self, slot: u64) -> bool {
        exists|i: int| 0 <= i < self.slots@.len() && (#[trigger] self.slots@[i]).0 == slot
    }

    /// Index of `slot` among the slots held.
    pub open spec fn position(&self, slot: u64) -> int {
        choose|i: int| 0 <= i < self.slots@.len() && (#[trigger] self.slots@[i]).0 == slot
    }

    pub proof fn lemma_position(&self, i: int)
        requires
            Self::sorted(self.slots@),
            0 <= i < self.slots@.len(),
        ensures
            self.has_slot(self.slots@[i].0),
            self.position(self.slots@[i].0) == i,
    {
        let p = self.position(self.slots@[i].0);
        assert(self.slots@[p].0 == self.slots@[i].0);
        if p < i {
            assert(self.slots@[p].0 < self.slots@[i].0);
        } else if p > i {
            assert(self.slots@[i].0 < self.slots@[p].0);
        }
    }

    pub fn new(retention_window: u64) -> (r: ShredTracker)
        ensures
            r.well_formed(),
            r.slots@.len() == 0,
            r.highest_slot == 0,
            r.retention_window == retention_window,
            r.metrics == ShredMetrics::zero(),
    {
        ShredTracker { slots: Vec::new(), highest_slot: 0, retention_window, metrics: ShredMetrics::new() }
    }

    /// Where `slot` stands: `Ok(i)` if held at `i`, else `Err(i)`, the
    /// position that keeps the order.
    pub fn locate(&self, slot: u64) -> (r: Result<usize, usize>)
        requires
            Self::sorted(self.slots@),
        ensures
            r is Ok ==> r->Ok_0 < self.slots@.len() && self.slots@[r->Ok_0 as int].0 == slot,
            r is Err ==> r->Err_0 <= self.slots@.len() && (forall|i: int|
                0 <= i < r->Err_0 ==> (#[trigger] self.slots@[i]).0 < slot) && (forall|i: int|
                r->Err_0 <= i < self.slots@.len() ==> (#[trigger] self.slots@[i]).0 > slot),
            r is Err ==> !self.has_slot(slot),
    {
        let mut i: usize = 0;
        while i < self.slots.len()
            invariant
                Self::sorted(self.slots@),
                i <= self.slots@.len(),
                forall|k: int| 0 <= k < i ==> (#[trigger] self.slots@[k]).0 < slot,
            decreases self.slots@.len() - i,
        {
            if self.slots[i].0 == slot {
                return Ok(i);
            }
            if self.slots[i].0 > slot {
                assert forall|k: int| i <= k < self.slots@.len() implies (#[trigger] self.slots@[k]).0 > slot by {
                    if k > i {
                        assert(self.slots@[i as int].0 < self.slots@[k].0);
                    }
                }
                return Err(i);
            }
            i = i + 1;
        }
        Err(i)
    }

    /// Raises the highest-slot watermark to `observed` if that is higher, then
    /// drops every slot below `watermark - retention_window`. Returns how many
    /// slots were dropped.
    pub fn evict(&mut self, observed: u64) -> (n: usize)
        requires
            old(self).well_formed(),
        ensures
            final(self).well_formed(),
            final(self).retention_window == old(self).retention_window,
            final(self).highest_slot == if observed > old(self).highest_slot { observed } else { old(self).highest_slot },
            n <= old(self).slots@.len(),
            final(self).slots@ == old(self).slots@.subrange(n as int, old(self).slots@.len() as int),
            forall|i: int| 0 <= i < n ==> (#[trigger] old(self).slots@[i]).0 < eviction_floor(
                final(self).highest_slot,
                final(self).retention_window,
            ),
            final(self).metrics == (ShredMetrics {
                slots_evicted: sat_add(old(self).metrics.slots_evicted, n as nat),
                ..old(self).metrics
            }),
            forall|t: u64| #[trigger] final(self).has_slot(t) ==> old(self).has_slot(t) && emitted_of(*final(self), t) == emitted_of(*old(self), t),
            tracker_sets(*final(self)) == sets_from(
                tracker_sets(*old(self)),
                eviction_floor(final(self).highest_slot, final(self).retention_window),
            ),
    {
        if observed > self.highest_slot {
            self.highest_slot = observed;
        }
        let floor = floor_of(self.highest_slot, self.retention_window);
        let mut k: usize = 0;
        while k < self.slots.len() && self.slots[k].0 < floor
            invariant
                k <= self.slots@.len(),
                forall|i: int| 0 <= i < k ==> (#[trigger] self.slots@[i]).0 < floor,
            decreases self.slots@.len() - k,
        {
            k = k + 1;
        }
        let ghost before = self.slots@;
        let kept = self.slots.split_off(k);
        self.slots = kept;
        assert forall|i: int| 0 <= i < self.slots@.len() implies (#[trigger] self.slots@[i]).0 >= floor by {
            assert(self.slots@[i] == before[i + k]);
            if i > 0 {
                assert(before[k as int].0 < before[i + k].0);
            }
        }
        assert forall|i: int, j: int| 0 <= i < j < self.slots@.len() implies (#[trigger] self.slots@[i]).0 < (#[trigger] self.slots@[j]).0 by {
            assert(self.slots@[i] == before[i + k]);
            assert(self.slots@[j] == before[j + k]);
        }
        assert forall|i: int| 0 <= i < self.slots@.len() implies (#[trigger] self.slots@[i]).1.well_formed() by {
            assert(self.slots@[i] == before[i + k]);
        }
        self.metrics.slots_evicted = bump_by(self.metrics.slots_evicted, k as u64);
        proof {
            let fin = *self;
            let o = *old(self);
            assert forall|t: u64| #[trigger] fin.has_slot(t) implies o.has_slot(t) && emitted_of(fin, t) == emitted_of(o, t) by {
                let j = fin.position(t);
                fin.lemma_position(j);
                assert(fin.slots@[j] == before[j + k]);
                assert(o.slots@[j + k].0 == t);
                o.lemma_position(j + k);
            }
            let m = sets_from(tracker_sets(o), floor);
            assert forall|key: (u64, u32)| #[trigger] tracker_sets(fin).contains_key(key) == m.contains_key(key)
                && (m.contains_key(key) ==> tracker_sets(fin)[key] == m[key]) by {
                if fin.has_slot(key.0) {
                    let j = fin.position(key.0);
                    fin.lemma_position(j);
                    assert(fin.slots@[j] == before[j + k]);
                    o.lemma_position(j + k);
                }
                if o.has_slot(key.0) && key.0 >= floor {
                    let j = o.position(key.0);
                    o.lemma_position(j);
                    assert(j >= k);
                    assert(fin.slots@[j - k] == before[j]);
                    fin.lemma_position(j - k);
                }
            }
            assert(tracker_sets(fin) =~= m);
        }
        k
    }

    /// Assembles the slot at position `k`; returns its newly complete entries.
    pub fn assemble_at(&mut self, k: usize) -> (r: Vec<Vec<u8>>)
        requires
            old(self).well_formed(),
            k < old(self).slots@.len(),
        ensures
            final(self).well_formed(),
            final(self).highest_slot == old(self).highest_slot,
            final(self).retention_window == old(self).retention_window,
            final(self).metrics == old(self).metrics,
            final(self).slots@.len() == old(self).slots@.len(),
            forall|i: int| 0 <= i < old(self).slots@.len() ==> (#[trigger] final(self).slots@[i]).0 == old(self).slots@[i].0,
            final(self).slots@[k as int].1.emitted@ == old(self).slots@[k as int].1.emitted@ + r@.map_values(|e: Vec<u8>| e@),
            forall|i: int| 0 <= i < old(self).slots@.len() && i != k ==> (#[trigger] final(self).slots@[i]) == old(self).slots@[i],
            !final(self).slots@[k as int].1.can_extend(),
            old(self).slots@[k as int].1.chain@.is_prefix_of(final(self).slots@[k as int].1.chain@),
            forall|t: u64| #[trigger] emitted_of(*final(self), t) == if t == old(self).slots@[k as int].0 {
                old(self).slots@[k as int].1.emitted@ + r@.map_values(|e: Vec<u8>| e@)
            } else {
                emitted_of(*old(self), t)
            },
            forall|t: u64| #[trigger] final(self).has_slot(t) == old(self).has_slot(t),
            tracker_sets(*final(self)) == tracker_sets(*old(self)),
    {
        let ghost s1 = self.slots@;
        let mut entry = self.slots.remove(k);
        let ghost st0 = entry.1;
        let found = entry.1.assemble();
        assert(slot_sets(entry.1) =~= slot_sets(st0));
        self.slots.insert(k, entry);
        assert(self.slots@ =~= s1.update(k as int, entry));
        proof {
            lemma_emitted_update(*old(self), *self, k as int);
            lemma_tracker_sets_same(*old(self), *self, k as int);
        }
        found
    }

    /// Tries to decode FEC set `fec` of `slot`; `None` if either is not held.
    pub fn decode_in_slot(&mut self, slot: u64, fec: u32) -> (r: Option<DecodeOutcome>)
        requires
            old(self).well_formed(),
        ensures
            final(self).well_formed(),
            final(self).highest_slot == old(self).highest_slot,
            final(self).retention_window == old(self).retention_window,
            final(self).metrics == old(self).metrics,
            final(self).slots@.len() == old(self).slots@.len(),
            forall|i: int| 0 <= i < old(self).slots@.len() ==> (#[trigger] final(self).slots@[i]).0 == old(self).slots@[i].0,
            r is Some ==> old(self).has_slot(slot),
            (r is Some) == tracker_sets(*old(self)).contains_key((slot, fec)),
            forall|t: u64| #[trigger] emitted_of(*final(self), t) == emitted_of(*old(self), t),
            forall|t: u64| #[trigger] final(self).has_slot(t) == old(self).has_slot(t),
            r is None ==> tracker_sets(*final(self)) == tracker_sets(*old(self)),
            r is Some ==> {
                let e = tracker_sets(*old(self))[(slot, fec)];
                &&& r == Some(decode_outcome(e.0, e.1, e.2))
                &&& tracker_sets(*final(self)) == tracker_sets(*old(self)).insert(
                    (slot, fec),
                    (decoded_after(e.0, e.1, e.2), e.1, e.2),
                )
            },
    {
        match self.locate(slot) {
            Ok(pos) => {
                let ghost s1 = self.slots@;
                let ghost st = s1[pos as int].1;
                proof {
                    self.lemma_position(pos as int);
                }
                let mut entry = self.slots.remove(pos);
                let out = entry.1.decode_fec(fec);
                self.slots.insert(pos, entry);
                assert(self.slots@ =~= s1.update(pos as int, entry));
                assert(s1[pos as int].0 == slot);
                proof {
                    lemma_emitted_update(*old(self), *self, pos as int);
                    if out is None {
                        assert(self.slots@ =~= s1);
                        assert(tracker_sets(*self) =~= tracker_sets(*old(self)));
                    } else {
                        let a = st.fec_sets@[st.fec_pos(fec)].1;
                        assert(tracker_sets(*old(self))[(slot, fec)] == slot_sets(st)[fec]);
                        lemma_tracker_sets_update(*old(self), *self, pos as int, fec,
                            (decoded_after(a@, a.num_data, a.num_parity), a.num_data, a.num_parity));
                    }
                }
                out
            },
            Err(_) => None,
        }
    }

    /// Position of `slot`, after adding an empty state for it if none is held.
    pub fn open_slot(&mut self, slot: u64) -> (pos: usize)
        requires
            old(self).well_formed(),
            slot >= eviction_floor(old(self).highest_slot, old(self).retention_window),
        ensures
            final(self).well_formed(),
            final(self).highest_slot == old(self).highest_slot,
            final(self).retention_window == old(self).retention_window,
            final(self).metrics == old(self).metrics,
            pos < final(self).slots@.len(),
            final(self).slots@[pos as int].0 == slot,
            final(self).slots@.len() >= old(self).slots@.len(),
            forall|t: u64| #[trigger] old(self).has_slot(t) ==> final(self).has_slot(t),
            final(self).has_slot(slot),
            final(self).position(slot) == pos,
            old(self).has_slot(slot) ==> final(self).slots@[pos as int] == old(self).slots@[old(self).position(slot)],
            !old(self).has_slot(slot) ==> slot_sets(final(self).slots@[pos as int].1) == Map::<u32, SetEntry>::empty(),
            tracker_sets(*final(self)) == tracker_sets(*old(self)),
            forall|t: u64| #[trigger] emitted_of(*final(self), t) == emitted_of(*old(self), t),
            forall|t: u64| #[trigger] final(self).has_slot(t) ==> old(self).has_slot(t) || t == slot,
    {
        let ghost s0 = self.slots@;
        match self.locate(slot) {
            Ok(i) => {
                proof {
                    self.lemma_position(i as int);
                }
                i
            },
            Err(i) => {
                self.slots.insert(i, (slot, SlotState::new()));
                assert forall|a: int, b: int| 0 <= a < b < self.slots@.len() implies (#[trigger] self.slots@[a]).0 < (#[trigger] self.slots@[b]).0 by {
                    if a < i && b > i { assert(self.slots@[b] == s0[b - 1]); }
                    if a > i { assert(self.slots@[a] == s0[a - 1]); assert(self.slots@[b] == s0[b - 1]); }
                    if b < i { assert(self.slots@[a] == s0[a]); }
                }
                assert forall|k: int| 0 <= k < self.slots@.len() implies (#[trigger] self.slots@[k]).1.well_formed()
                    && self.slots@[k].0 >= eviction_floor(self.highest_slot, self.retention_window) by {
                    if k < i { assert(self.slots@[k] == s0[k]); }
                    if k > i { assert(self.slots@[k] == s0[k - 1]); }
                }
                assert forall|t: u64| #[trigger] old(self).has_slot(t) implies self.has_slot(t) by {
                    let k = choose|k: int| 0 <= k < s0.len() && (#[trigger] s0[k]).0 == t;
                    if k < i { assert(self.slots@[k] == s0[k]); } else { assert(self.slots@[k + 1] == s0[k]); }
                }
                proof {
                    self.lemma_position(i as int);
                    let o = *old(self);
                    let fin = *self;
                    assert forall|k: (u64, u32)| #[trigger] tracker_sets(fin).contains_key(k) == tracker_sets(o).contains_key(k)
                        && (tracker_sets(o).contains_key(k) ==> tracker_sets(fin)[k] == tracker_sets(o)[k]) by {
                        if k.0 != slot {
                            if o.has_slot(k.0) {
                                let j = o.position(k.0);
                                o.lemma_position(j);
                                let jj = if j < i { j } else { j + 1 };
                                assert(fin.slots@[jj] == o.slots@[j]);
                                fin.lemma_position(jj);
                            }
                            if fin.has_slot(k.0) {
                                let j = fin.position(k.0);
                                fin.lemma_position(j);
                                let jj = if j < i { j } else { j - 1 };
                                assert(fin.slots@[j] == o.slots@[jj]);
                                o.lemma_position(jj);
                            }
                        }
                    }
                    assert(tracker_sets(fin) =~= tracker_sets(o));
                    assert forall|t: u64| #[trigger] emitted_of(fin, t) == emitted_of(o, t)
                        && (fin.has_slot(t) ==> o.has_slot(t) || t == slot) by {
                        if t != slot {
                            if o.has_slot(t) {
                                let j = o.position(t);
                                o.lemma_position(j);
                                let jj = if j < i { j } else { j + 1 };
                                assert(fin.slots@[jj] == o.slots@[j]);
                                fin.lemma_position(jj);
                            }
                            if fin.has_slot(t) {
                                let j = fin.position(t);
                                fin.lemma_position(j);
                                let jj = if j < i { j } else { j - 1 };
                                assert(fin.slots@[j] == o.slots@[jj]);
                                o.lemma_position(jj);
                            }
                        }
                    }
                }
                i
            },
        }
    }
}


/// Whatever the order and batching of its packets, every slot a tracker
/// holds has emitted exactly the complete entries framed in its decoded FEC
/// sets joined in index order from the slot's first data fragment, with no gap.
pub proof fn lemma_slot_entries_follow_fec_order(t: ShredTracker, slot: u64)
    requires
        t.well_formed(),
        t.has_slot(slot),
    ensures
        ({
            let st = t.slots@[t.position(slot)].1;
            &&& emitted_of(t, slot) == split_entries(chain_bytes(st.chain@)).0
            &&& forall|j: int| 0 <= j < st.chain@.len() ==> (#[trigger] st.chain@[j]).0 == chain_end(st.chain@.take(j))
            &&& forall|j: int| 0 <= j < st.chain@.len() ==> decoded_in(st.fec_sets@, (#[trigger] st.chain@[j]).0, st.chain@[j].1, st.chain@[j].2)
        }),
{
    let p = t.position(slot);
    lemma_emitted_follow_fec_order(&t.slots@[p].1);
}

} // verus!
