//! Batch processing: parse, deduplicate, decode, assemble, evict.
use vstd::prelude::*;
use crate::wire::{parse_shred, frame_ok, shape_ok, index_ok, slot_of, fec_index_of, index_of, num_data_of, num_parity_of, ShredKind, HEADER_LEN};
use crate::fec::{DecodeOutcome, decode_outcome, decoded_after, copy_bytes, ShredKey, absorb, empty_view, shred_key};
use crate::slot::{SlotState, SetEntry, slot_sets, assembled_from, lemma_settled_slot};
use crate::entries::split_entries;
use crate::tracker::{ShredTracker, ShredMetrics, sat_add, bump_by, floor_of, eviction_floor, metrics_grow, tracker_sets, sets_from, slot_map, lemma_slot_map, lemma_tracker_sets_update, emitted_of, lemma_emitted_update};

verus! {

/// What became of one packet.
#[derive(Debug, Clone, Copy, PartialEq, Eq, Structural)]
pub enum PacketFate {
    /// It does not parse, or names a shape its FEC set does not have.
    Malformed,
    /// Its slot was already evicted.
    Late,
    /// The same fragment was received before.
    Duplicate,
    /// A new fragment; the packet is forwarded.
    Fresh,
}

/// The packet parses as a shred.
pub open spec fn parses(b: Seq<u8>) -> bool {
    frame_ok(b) && shape_ok(b) && index_ok(b)
}

/// Entries that became complete in one slot during one batch, in order.
pub struct SlotEntries {
    pub slot: u64,
    pub entries: Vec<Vec<u8>>,
}

/// Result of one batch.
pub struct BatchOutput {
    /// Newly complete entries, grouped by slot in ascending slot order.
    pub entries: Vec<SlotEntries>,
    /// The packets that carried new fragments, unchanged and in arrival order.
    pub forward: Vec<Vec<u8>>,
    /// What became of each packet of the batch, in order.
    pub fates: Vec<PacketFate>,
}

/// The entries a batch reports for `slot`; none if it has no group.
pub open spec fn group_of(gs: Seq<SlotEntries>, slot: u64) -> Seq<Seq<u8>>
    decreases gs.len(),
{
    if gs.len() == 0 {
        Seq::empty()
    } else if gs.last().slot == slot {
        gs.last().entries@.map_values(|e: Vec<u8>| e@)
    } else {
        group_of(gs.drop_last(), slot)
    }
}

/// How many entries the groups hold in all.
pub open spec fn entry_total(gs: Seq<SlotEntries>) -> nat
    decreases gs.len(),
{
    if gs.len() == 0 { 0 } else { entry_total(gs.drop_last()) + gs.last().entries@.len() }
}

proof fn lemma_group_absent(gs: Seq<SlotEntries>, slot: u64)
    requires
        forall|a: int| 0 <= a < gs.len() ==> (#[trigger] gs[a]).slot != slot,
    ensures
        group_of(gs, slot) == Seq::<Seq<u8>>::empty(),
    decreases gs.len(),
{
    if gs.len() > 0 {
        lemma_group_absent(gs.drop_last(), slot);
    }
}

/// Largest slot among the packets that parse; 0 if none does.
pub open spec fn max_parsed_slot(batch: Seq<Vec<u8>>) -> nat
    decreases batch.len(),
{
    if batch.len() == 0 {
        0
    } else {
        let rest = max_parsed_slot(batch.drop_last());
        let b = batch.last()@;
        if parses(b) && slot_of(b) > rest { slot_of(b) } else { rest }
    }
}

/// The fragment identity a parsable packet carries.
pub open spec fn packet_key(b: Seq<u8>) -> ShredKey {
    (
        slot_of(b) as u64,
        fec_index_of(b) as u32,
        index_of(b) as u32,
        if b[16] == 0 { ShredKind::Data } else { ShredKind::Parity },
        b.subrange(HEADER_LEN as int, b.len() as int),
    )
}

/// One packet taken into the map of FEC sets, with eviction floor `floor`:
/// the sets afterwards and what became of the packet.
pub open spec fn absorb_step(m: Map<(u64, u32), SetEntry>, floor: u64, b: Seq<u8>) -> (
    Map<(u64, u32), SetEntry>,
    PacketFate,
) {
    if !parses(b) {
        (m, PacketFate::Malformed)
    } else if slot_of(b) < floor {
        (m, PacketFate::Late)
    } else {
        let k = (slot_of(b) as u64, fec_index_of(b) as u32);
        let nd = num_data_of(b) as u16;
        let np = num_parity_of(b) as u16;
        if m.contains_key(k) && (m[k].1 != nd || m[k].2 != np) {
            (m, PacketFate::Malformed)
        } else {
            let before = if m.contains_key(k) { m[k].0 } else { empty_view(nd, np) };
            (
                m.insert(k, (absorb(before, packet_key(b)), nd, np)),
                if before.seen.contains(packet_key(b)) { PacketFate::Duplicate } else { PacketFate::Fresh },
            )
        }
    }
}

/// How many of `fs` are `f`.
pub open spec fn count_fate(fs: Seq<PacketFate>, f: PacketFate) -> nat
    decreases fs.len(),
{
    if fs.len() == 0 {
        0
    } else {
        count_fate(fs.drop_last(), f) + if fs.last() == f { 1nat } else { 0nat }
    }
}

/// The packets whose fate is `Fresh`, in order.
pub open spec fn fresh_packets(batch: Seq<Vec<u8>>, fs: Seq<PacketFate>) -> Seq<Seq<u8>>
    decreases batch.len(),
{
    if batch.len() == 0 || fs.len() != batch.len() {
        Seq::empty()
    } else {
        let rest = fresh_packets(batch.drop_last(), fs.drop_last());
        if fs.last() == PacketFate::Fresh { rest.push(batch.last()@) } else { rest }
    }
}

/// The counters after one packet with fate `f` (a forwarded packet is
/// counted by the caller that forwards it).
pub open spec fn count_packet(m: ShredMetrics, f: PacketFate) -> ShredMetrics {
    match f {
        PacketFate::Malformed => ShredMetrics { malformed_shreds_dropped: sat_add(m.malformed_shreds_dropped, 1), ..m },
        PacketFate::Late => ShredMetrics { late_shreds_dropped: sat_add(m.late_shreds_dropped, 1), ..m },
        PacketFate::Duplicate => ShredMetrics { duplicate_shreds_dropped: sat_add(m.duplicate_shreds_dropped, 1), ..m },
        PacketFate::Fresh => m,
    }
}

/// Slot and FEC-set index of the fresh packets, each pair once, in order of
/// first appearance.
pub open spec fn fresh_keys(batch: Seq<Vec<u8>>, fs: Seq<PacketFate>) -> Seq<(u64, u32)>
    decreases batch.len(),
{
    if batch.len() == 0 || fs.len() != batch.len() {
        Seq::empty()
    } else {
        let rest = fresh_keys(batch.drop_last(), fs.drop_last());
        let k = (slot_of(batch.last()@) as u64, fec_index_of(batch.last()@) as u32);
        if fs.last() == PacketFate::Fresh && !rest.contains(k) {
            rest.push(k)
        } else {
            rest
        }
    }
}

fn pair_in(v: &Vec<(u64, u32)>, k: (u64, u32)) -> (r: bool)
    ensures
        r == v@.contains(k),
{
    let mut i: usize = 0;
    while i < v.len()
        invariant
            i <= v@.len(),
            forall|j: int| 0 <= j < i ==> v@[j] != k,
        decreases v@.len() - i,
    {
        if v[i].0 == k.0 && v[i].1 == k.1 {
            assert(v@[i as int] == k);
            return true;
        }
        i = i + 1;
    }
    false
}

/// One decode step on each listed FEC set that is held, in order: the sets
/// afterwards and the outcomes.
pub open spec fn decode_all(m: Map<(u64, u32), SetEntry>, keys: Seq<(u64, u32)>) -> (
    Map<(u64, u32), SetEntry>,
    Seq<DecodeOutcome>,
)
    decreases keys.len(),
{
    if keys.len() == 0 {
        (m, Seq::empty())
    } else {
        let (m1, os) = decode_all(m, keys.drop_last());
        let k = keys.last();
        if m1.contains_key(k) {
            let e = m1[k];
            (m1.insert(k, (decoded_after(e.0, e.1, e.2), e.1, e.2)), os.push(decode_outcome(e.0, e.1, e.2)))
        } else {
            (m1, os)
        }
    }
}

/// How many of `os` are `o`.
pub open spec fn count_outcome(os: Seq<DecodeOutcome>, o: DecodeOutcome) -> nat
    decreases os.len(),
{
    if os.len() == 0 {
        0
    } else {
        count_outcome(os.drop_last(), o) + if os.last() == o { 1nat } else { 0nat }
    }
}

/// The decode outcomes of one batch: each FEC set a fresh packet reached,
/// in packet order, after the whole batch was taken in.
pub open spec fn batch_outcomes(m: Map<(u64, u32), SetEntry>, floor: u64, batch: Seq<Vec<u8>>) -> Seq<DecodeOutcome> {
    let (m1, fs) = absorb_all(m, floor, batch);
    decode_all(m1, fresh_keys(batch, fs)).1
}

/// A whole batch taken in, packet after packet.
pub open spec fn absorb_all(m: Map<(u64, u32), SetEntry>, floor: u64, batch: Seq<Vec<u8>>) -> (
    Map<(u64, u32), SetEntry>,
    Seq<PacketFate>,
)
    decreases batch.len(),
{
    if batch.len() == 0 {
        (m, Seq::empty())
    } else {
        let (m1, fs) = absorb_all(m, floor, batch.drop_last());
        let (m2, f) = absorb_step(m1, floor, batch.last()@);
        (m2, fs.push(f))
    }
}

impl ShredTracker {
    /// Takes in one packet and returns what became of it, whether it parsed,
    /// and (if it did) its slot and FEC-set index. A packet that does not
    /// parse, or whose slot lies below the eviction floor, leaves the slots
    /// untouched.
    pub fn absorb_packet(&mut self, packet: &Vec<u8>) -> (r: (PacketFate, bool, u64, u32))
        requires
            old(self).well_formed(),
        ensures
            final(self).well_formed(),
            final(self).highest_slot == old(self).highest_slot,
            final(self).retention_window == old(self).retention_window,
            !parses(packet@) ==> r.0 == PacketFate::Malformed && final(self).slots@ == old(self).slots@,
            !parses(packet@) ==> final(self).metrics == (ShredMetrics {
                malformed_shreds_dropped: sat_add(old(self).metrics.malformed_shreds_dropped, 1),
                ..old(self).metrics
            }),
            parses(packet@) ==> r.2 == slot_of(packet@) && r.3 == fec_index_of(packet@),
            parses(packet@) && slot_of(packet@) < eviction_floor(old(self).highest_slot, old(self).retention_window)
                ==> r.0 == PacketFate::Late && final(self).slots@ == old(self).slots@
                && final(self).metrics == (ShredMetrics {
                    late_shreds_dropped: sat_add(old(self).metrics.late_shreds_dropped, 1),
                    ..old(self).metrics
                }),
            parses(packet@) && slot_of(packet@) >= eviction_floor(old(self).highest_slot, old(self).retention_window)
                ==> final(self).has_slot(r.2) && final(self).slots@[final(self).position(r.2)].1.has_fec(r.3),
            r.0 == PacketFate::Duplicate ==> final(self).metrics == (ShredMetrics {
                duplicate_shreds_dropped: sat_add(old(self).metrics.duplicate_shreds_dropped, 1),
                ..old(self).metrics
            }),
            r.0 == PacketFate::Fresh ==> final(self).metrics == old(self).metrics,
            r.0 == PacketFate::Fresh ==> parses(packet@),
            r.1 == parses(packet@),
            r.0 == PacketFate::Fresh ==> r.2 >= eviction_floor(old(self).highest_slot, old(self).retention_window),
            forall|s: u64| #[trigger] old(self).has_slot(s) ==> final(self).has_slot(s),
            final(self).slots@.len() >= old(self).slots@.len(),
            final(self).metrics.packets_forwarded == old(self).metrics.packets_forwarded,
            metrics_grow(old(self).metrics, final(self).metrics),
            final(self).metrics == count_packet(old(self).metrics, r.0),
            forall|t: u64| #[trigger] emitted_of(*final(self), t) == emitted_of(*old(self), t),
            forall|t: u64| #[trigger] final(self).has_slot(t) ==> old(self).has_slot(t) || (r.0 == PacketFate::Fresh && t == r.2),
            r.0 == absorb_step(
                tracker_sets(*old(self)),
                eviction_floor(old(self).highest_slot, old(self).retention_window),
                packet@,
            ).1,
            tracker_sets(*final(self)) == absorb_step(
                tracker_sets(*old(self)),
                eviction_floor(old(self).highest_slot, old(self).retention_window),
                packet@,
            ).0,
    {
        let s = match parse_shred(packet) {
            Ok(s) => s,
            Err(_) => {
                self.metrics.malformed_shreds_dropped = bump_by(self.metrics.malformed_shreds_dropped, 1);
                assert(tracker_sets(*self) =~= tracker_sets(*old(self)));
                assert(self.slots == old(self).slots);
                assert forall|t: u64| #[trigger] emitted_of(*self, t) == emitted_of(*old(self), t) && (self.has_slot(t) == old(self).has_slot(t)) by {}
                return (PacketFate::Malformed, false, 0, 0);
            },
        };
        let floor = floor_of(self.highest_slot, self.retention_window);
        if s.slot < floor {
            self.metrics.late_shreds_dropped = bump_by(self.metrics.late_shreds_dropped, 1);
            assert(tracker_sets(*self) =~= tracker_sets(*old(self)));
            assert(self.slots == old(self).slots);
            assert forall|t: u64| #[trigger] emitted_of(*self, t) == emitted_of(*old(self), t) && (self.has_slot(t) == old(self).has_slot(t)) by {}
            return (PacketFate::Late, true, s.slot, s.fec_set_index);
        }
        assert(shred_key(&s) == packet_key(packet@));
        let pos = self.open_slot(s.slot);
        let ghost s1 = self.slots@;
        let ghost mid = *self;
        let ghost st = s1[pos as int].1;
        let mut entry = self.slots.remove(pos);
        let res = entry.1.insert_shred(&s);
        self.slots.insert(pos, entry);
        assert(self.slots@ =~= s1.update(pos as int, entry));
        let ghost fin1 = *self;
        proof {
            lemma_emitted_update(mid, *self, pos as int);
            assert(mid.position(s.slot) == pos);
            assert(self.slots@[pos as int].1.emitted == mid.slots@[pos as int].1.emitted);
            assert forall|t: u64| #[trigger] emitted_of(*self, t) == emitted_of(*old(self), t) by {
                assert(emitted_of(mid, t) == emitted_of(*old(self), t));
            }
            assert forall|t: u64| #[trigger] self.has_slot(t) implies old(self).has_slot(t) || t == s.slot by {
                assert(mid.has_slot(t));
            }
            if !old(self).has_slot(s.slot) {
                assert(!slot_sets(st).contains_key(s.fec_set_index));
            }
            let m = tracker_sets(*old(self));
            let k = (s.slot, s.fec_set_index);
            assert(m.contains_key(k) == st.has_fec(s.fec_set_index));
            if st.has_fec(s.fec_set_index) {
                assert(m[k] == slot_sets(st)[s.fec_set_index]);
            }
            match res {
                None => {
                    assert(self.slots@ =~= s1);
                    assert(tracker_sets(*self) =~= tracker_sets(mid));
                },
                Some(_) => {
                    lemma_tracker_sets_update(mid, *self, pos as int, s.fec_set_index,
                        (absorb(st.fec_view_or_empty(s.fec_set_index, s.num_data, s.num_parity), shred_key(&s)), s.num_data, s.num_parity));
                },
            }
        }
        assert forall|t: u64| #[trigger] old(self).has_slot(t) implies self.has_slot(t) by {
            let k = choose|k: int| 0 <= k < s1.len() && (#[trigger] s1[k]).0 == t;
            assert(self.slots@[k].0 == t);
        }
        proof {
            self.lemma_position(pos as int);
        }
        assert(self.slots@[pos as int] == entry);
        assert(self.slots@[self.position(s.slot)].1.has_fec(s.fec_set_index));
        let ghost s2 = self.slots@;
        let fate = match res {
            None => {
                self.metrics.malformed_shreds_dropped = bump_by(self.metrics.malformed_shreds_dropped, 1);
                PacketFate::Malformed
            },
            Some(false) => {
                self.metrics.duplicate_shreds_dropped = bump_by(self.metrics.duplicate_shreds_dropped, 1);
                PacketFate::Duplicate
            },
            Some(true) => PacketFate::Fresh,
        };
        assert(self.slots@ == s2);
        assert(self.has_slot(s.slot));
        assert(self.slots == fin1.slots);
        assert forall|t: u64| #[trigger] emitted_of(*self, t) == emitted_of(*old(self), t) by {
            assert(emitted_of(*self, t) == emitted_of(fin1, t));
        }
        assert forall|t: u64| #[trigger] self.has_slot(t) implies old(self).has_slot(t) || (fate == PacketFate::Fresh && t == s.slot) by {
            assert(fin1.has_slot(t));
        }
        (fate, true, s.slot, s.fec_set_index)
    }

    /// Processes one batch of packets: absorbs each, decodes every FEC set the
    /// batch added a fragment to, assembles each slot's contiguous prefix into
    /// entries, then evicts by the batch's highest parsed slot.
    pub fn reconstruct(&mut self, batch: &Vec<Vec<u8>>) -> (r: BatchOutput)
        requires
            old(self).well_formed(),
        ensures
            final(self).well_formed(),
            final(self).retention_window == old(self).retention_window,
            final(self).highest_slot as nat == if max_parsed_slot(batch@) > old(self).highest_slot {
                max_parsed_slot(batch@)
            } else {
                old(self).highest_slot as nat
            },
            forall|i: int| 0 <= i < final(self).slots@.len() ==> (#[trigger] final(self).slots@[i]).0
                >= eviction_floor(final(self).highest_slot, final(self).retention_window),
            r.forward@.len() <= batch@.len(),
            forall|t: u64| #[trigger] final(self).has_slot(t) ==> emitted_of(*final(self), t) == emitted_of(*old(self), t)
                + group_of(r.entries@, t),
            forall|i: int| 0 <= i < r.entries@.len() ==> (#[trigger] r.entries@[i]).slot >= eviction_floor(
                old(self).highest_slot,
                old(self).retention_window,
            ),
            final(self).metrics.entries_decoded == sat_add(old(self).metrics.entries_decoded, entry_total(r.entries@)),
            tracker_sets(*final(self)) == sets_from(
                decode_all(
                    absorb_all(
                        tracker_sets(*old(self)),
                        eviction_floor(old(self).highest_slot, old(self).retention_window),
                        batch@,
                    ).0,
                    fresh_keys(batch@, r.fates@),
                ).0,
                eviction_floor(final(self).highest_slot, final(self).retention_window),
            ),
            forall|i: int| 0 <= i < final(self).slots@.len() ==> !(#[trigger] final(self).slots@[i]).1.can_extend(),
            forall|t: u64| #[trigger] final(self).has_slot(t) ==> emitted_of(*final(self), t) == split_entries(
                assembled_from(slot_map(tracker_sets(*final(self)), t), 0),
            ).0,
            forall|t: u64|
                old(self).has_slot(t) || (exists|i: int| 0 <= i < r.entries@.len() && (#[trigger] r.entries@[i]).slot == t)
                ==> #[trigger] emitted_of(*old(self), t) + group_of(r.entries@, t) == split_entries(
                assembled_from(
                    slot_map(
                        decode_all(
                            absorb_all(
                                tracker_sets(*old(self)),
                                eviction_floor(old(self).highest_slot, old(self).retention_window),
                                batch@,
                            ).0,
                            fresh_keys(batch@, r.fates@),
                        ).0,
                        t,
                    ),
                    0,
                ),
            ).0,
            forall|i: int| 0 <= i < r.entries@.len() ==> old(self).has_slot((#[trigger] r.entries@[i]).slot)
                || count_fate(r.fates@, PacketFate::Fresh) > 0,
            r.fates@ == absorb_all(
                tracker_sets(*old(self)),
                eviction_floor(old(self).highest_slot, old(self).retention_window),
                batch@,
            ).1,
            r.forward@.map_values(|p: Vec<u8>| p@) == fresh_packets(batch@, r.fates@),
            final(self).metrics.malformed_shreds_dropped == sat_add(
                old(self).metrics.malformed_shreds_dropped,
                count_fate(r.fates@, PacketFate::Malformed),
            ),
            final(self).metrics.late_shreds_dropped == sat_add(
                old(self).metrics.late_shreds_dropped,
                count_fate(r.fates@, PacketFate::Late),
            ),
            final(self).metrics.duplicate_shreds_dropped == sat_add(
                old(self).metrics.duplicate_shreds_dropped,
                count_fate(r.fates@, PacketFate::Duplicate),
            ),
            final(self).metrics.fec_sets_recovered == sat_add(
                old(self).metrics.fec_sets_recovered,
                count_outcome(batch_outcomes(tracker_sets(*old(self)), eviction_floor(old(self).highest_slot, old(self).retention_window), batch@), DecodeOutcome::Decoded),
            ),
            final(self).metrics.fec_set_decode_failures == sat_add(
                old(self).metrics.fec_set_decode_failures,
                count_outcome(batch_outcomes(tracker_sets(*old(self)), eviction_floor(old(self).highest_slot, old(self).retention_window), batch@), DecodeOutcome::Failed),
            ),
            final(self).metrics.packets_forwarded == sat_add(
                old(self).metrics.packets_forwarded,
                r.forward@.len(),
            ),
            forall|i: int| 0 <= i < r.entries@.len() ==> (#[trigger] r.entries@[i]).entries@.len() > 0,
            metrics_grow(old(self).metrics, final(self).metrics),
            forall|i: int| 0 <= i < r.forward@.len() ==> parses((#[trigger] r.forward@[i])@) && exists|j: int|
                0 <= j < batch@.len() && (#[trigger] batch@[j])@ == r.forward@[i]@,
            forall|i: int| 0 <= i < r.forward@.len() ==> slot_of((#[trigger] r.forward@[i])@)
                >= eviction_floor(old(self).highest_slot, old(self).retention_window),
            forall|i: int, j: int| 0 <= i < j < r.entries@.len() ==> (#[trigger] r.entries@[i]).slot
                < (#[trigger] r.entries@[j]).slot,
    {
        let ghost h0 = self.highest_slot;
        let mut forward: Vec<Vec<u8>> = Vec::new();
        let mut touched: Vec<(u64, u32)> = Vec::new();
        let mut batch_max: u64 = 0;
        let mut fates: Vec<PacketFate> = Vec::new();
        let ghost m0 = tracker_sets(*old(self));
        let ghost floor0 = eviction_floor(old(self).highest_slot, old(self).retention_window);
        let mut i: usize = 0;
        assert(forward@.map_values(|p: Vec<u8>| p@) =~= Seq::<Seq<u8>>::empty());
        while i < batch.len()
            invariant
                fates@.len() == i,
                forall|t: u64| #[trigger] old(self).has_slot(t) ==> self.has_slot(t),
                touched@.len() <= count_fate(fates@, PacketFate::Fresh),
                self.metrics.entries_decoded == old(self).metrics.entries_decoded,
                touched@ == fresh_keys(batch@.take(i as int), fates@),
                forall|t: u64| #[trigger] emitted_of(*self, t) == emitted_of(*old(self), t),
                forall|t: u64| #[trigger] self.has_slot(t) ==> old(self).has_slot(t) || exists|j: int| 0 <= j < touched@.len() && touched@[j].0 == t,
                self.metrics.fec_sets_recovered == old(self).metrics.fec_sets_recovered,
                self.metrics.fec_set_decode_failures == old(self).metrics.fec_set_decode_failures,
                (tracker_sets(*self), fates@) == absorb_all(m0, floor0, batch@.take(i as int)),
                forward@.map_values(|p: Vec<u8>| p@) == fresh_packets(batch@.take(i as int), fates@),
                self.metrics.malformed_shreds_dropped == sat_add(old(self).metrics.malformed_shreds_dropped, count_fate(fates@, PacketFate::Malformed)),
                self.metrics.late_shreds_dropped == sat_add(old(self).metrics.late_shreds_dropped, count_fate(fates@, PacketFate::Late)),
                self.metrics.duplicate_shreds_dropped == sat_add(old(self).metrics.duplicate_shreds_dropped, count_fate(fates@, PacketFate::Duplicate)),
                m0 == tracker_sets(*old(self)),
                floor0 == eviction_floor(old(self).highest_slot, old(self).retention_window),
                self.well_formed(),
                self.highest_slot == h0,
                self.highest_slot == old(self).highest_slot,
                self.retention_window == old(self).retention_window,
                i <= batch@.len(),
                batch_max as nat == max_parsed_slot(batch@.take(i as int)),
                forward@.len() <= i,
                self.metrics.packets_forwarded == sat_add(old(self).metrics.packets_forwarded, forward@.len()),
                metrics_grow(old(self).metrics, self.metrics),
                forall|k: int| 0 <= k < forward@.len() ==> parses((#[trigger] forward@[k])@) && exists|j: int|
                    0 <= j < batch@.len() && (#[trigger] batch@[j])@ == forward@[k]@,
                forall|k: int| 0 <= k < forward@.len() ==> slot_of((#[trigger] forward@[k])@)
                    >= eviction_floor(h0, old(self).retention_window),
            decreases batch@.len() - i,
        {
            let ghost f0 = fates@;
            let ghost fw0 = forward@;
            let ghost pre = *self;
            let ghost tk0 = touched@;
            let (fate, parsed, slot, fec) = self.absorb_packet(&batch[i]);
            let ghost after_abs = *self;
            assert(batch@.take(i + 1).drop_last() =~= batch@.take(i as int));
            fates.push(fate);
            assert(fates@.drop_last() =~= f0);
            if parsed && slot > batch_max {
                batch_max = slot;
            }
            if fate == PacketFate::Fresh {
                let copy = copy_bytes(&batch[i]);
                let ghost k = forward@.len();
                forward.push(copy);
                assert(forward@[k as int]@ == batch@[i as int]@);
                self.metrics.packets_forwarded = bump_by(self.metrics.packets_forwarded, 1);
                let present = pair_in(&touched, (slot, fec));
                if !present {
                    touched.push((slot, fec));
                    assert(touched@ == tk0.push((slot, fec)));
                    assert(touched@[tk0.len() as int] == (slot, fec));
                }
                assert(touched@.contains((slot, fec)));
                assert(batch@.take(i + 1).last() == batch@[i as int]);
                assert(touched@ == fresh_keys(batch@.take(i + 1), fates@));
                assert(forward@.map_values(|p: Vec<u8>| p@) =~= fw0.map_values(|p: Vec<u8>| p@).push(batch@[i as int]@));
            } else {
                assert(forward@ == fw0);
                assert(touched@ == fresh_keys(batch@.take(i + 1), fates@));
            }
            assert(batch@.take(i + 1).last() == batch@[i as int]);
            assert(self.slots == after_abs.slots);
            assert forall|t: u64| #[trigger] emitted_of(*self, t) == emitted_of(*old(self), t) by {
                assert(emitted_of(*self, t) == emitted_of(after_abs, t));
                assert(emitted_of(after_abs, t) == emitted_of(pre, t));
            }
            assert forall|t: u64| #[trigger] old(self).has_slot(t) implies self.has_slot(t) by {
                assert(pre.has_slot(t));
                assert(after_abs.has_slot(t));
            }
            assert forall|t: u64| #[trigger] self.has_slot(t) implies old(self).has_slot(t) || exists|j: int| 0 <= j < touched@.len() && touched@[j].0 == t by {
                assert(after_abs.has_slot(t));
                if fate == PacketFate::Fresh && t == slot {
                    assert(touched@.contains((slot, fec)));
                    let j = choose|j: int| 0 <= j < touched@.len() && touched@[j] == (slot, fec);
                    assert(touched@[j].0 == t);
                } else {
                    assert(pre.has_slot(t));
                    if !old(self).has_slot(t) {
                        let j = choose|j: int| 0 <= j < tk0.len() && tk0[j].0 == t;
                        assert(touched@[j] == tk0[j]);
                    }
                }
            }
            i = i + 1;
        }
        assert(batch@.take(batch@.len() as int) =~= batch@);
        let mut t: usize = 0;
        let ghost c_mal = self.metrics.malformed_shreds_dropped;
        let ghost c_late = self.metrics.late_shreds_dropped;
        let ghost c_dup = self.metrics.duplicate_shreds_dropped;
        let ghost m1 = tracker_sets(*self);
        let mut outs: Ghost<Seq<DecodeOutcome>> = Ghost(Seq::empty());
        assert(touched@.take(0) =~= Seq::<(u64, u32)>::empty());
        while t < touched.len()
            invariant
                m1 == absorb_all(m0, floor0, batch@).0,
                touched@ == fresh_keys(batch@, fates@),
                fates@ == absorb_all(m0, floor0, batch@).1,
                forall|t: u64| #[trigger] old(self).has_slot(t) ==> self.has_slot(t),
                forall|t: u64| #[trigger] emitted_of(*self, t) == emitted_of(*old(self), t),
                forall|t: u64| #[trigger] self.has_slot(t) ==> old(self).has_slot(t) || exists|j: int| 0 <= j < touched@.len() && touched@[j].0 == t,
                (tracker_sets(*self), outs@) == decode_all(m1, touched@.take(t as int)),
                self.metrics.fec_sets_recovered == sat_add(old(self).metrics.fec_sets_recovered, count_outcome(outs@, DecodeOutcome::Decoded)),
                self.metrics.fec_set_decode_failures == sat_add(old(self).metrics.fec_set_decode_failures, count_outcome(outs@, DecodeOutcome::Failed)),
                self.well_formed(),
                self.highest_slot == old(self).highest_slot,
                self.retention_window == old(self).retention_window,
                t <= touched@.len(),
                self.metrics.entries_decoded == old(self).metrics.entries_decoded,
                self.metrics.malformed_shreds_dropped == c_mal,
                self.metrics.late_shreds_dropped == c_late,
                self.metrics.duplicate_shreds_dropped == c_dup,
                self.metrics.packets_forwarded == sat_add(old(self).metrics.packets_forwarded, forward@.len()),
                metrics_grow(old(self).metrics, self.metrics),
            decreases touched@.len() - t,
        {
            let (slot, fec) = touched[t];
            let ghost o0 = outs@;
            let out = self.decode_in_slot(slot, fec);
            let ghost after = *self;
            assert(touched@.take(t + 1).drop_last() =~= touched@.take(t as int));
            assert(touched@.take(t + 1).last() == (slot, fec));
            match out {
                Some(o) => {
                    outs = Ghost(o0.push(o));
                    assert(outs@.drop_last() =~= o0);
                },
                None => {},
            }
            if out == Some(DecodeOutcome::Decoded) {
                self.metrics.fec_sets_recovered = bump_by(self.metrics.fec_sets_recovered, 1);
            } else if out == Some(DecodeOutcome::Failed) {
                self.metrics.fec_set_decode_failures = bump_by(self.metrics.fec_set_decode_failures, 1);
            }
            assert(self.slots == after.slots);
            assert forall|t: u64| #[trigger] emitted_of(*self, t) == emitted_of(*old(self), t) by {
                assert(emitted_of(*self, t) == emitted_of(after, t));
            }
            assert forall|t: u64| #[trigger] self.has_slot(t) implies old(self).has_slot(t) || exists|j: int| 0 <= j < touched@.len() && touched@[j].0 == t by {
                assert(after.has_slot(t));
            }
            assert forall|t: u64| #[trigger] old(self).has_slot(t) implies self.has_slot(t) by {
                assert(after.has_slot(t));
            }
            t = t + 1;
        }
        assert(touched@.take(touched@.len() as int) =~= touched@);
        let ghost pre3 = *self;
        let entries = self.assemble_slots();
        let ghost pre4 = *self;
        assert(tracker_sets(pre3) == decode_all(m1, touched@).0);
        assert forall|t: u64|
            old(self).has_slot(t) || (exists|i: int| 0 <= i < entries@.len() && (#[trigger] entries@[i]).slot == t)
            implies #[trigger] emitted_of(*old(self), t) + group_of(entries@, t) == split_entries(
                assembled_from(slot_map(decode_all(m1, touched@).0, t), 0),
            ).0 by {
            if !old(self).has_slot(t) {
                let i = choose|i: int| 0 <= i < entries@.len() && (#[trigger] entries@[i]).slot == t;
                assert(pre3.has_slot(entries@[i].slot));
            }
            assert(pre3.has_slot(t));
            assert(pre4.has_slot(t));
            let p = pre4.position(t);
            assert(pre4.slots@[p].1.well_formed());
            assert(!pre4.slots@[p].1.can_extend());
            lemma_settled_slot(&pre4.slots@[p].1);
            lemma_slot_map(pre4, t);
            assert(emitted_of(pre3, t) == emitted_of(*old(self), t));
            assert(emitted_of(pre4, t) == emitted_of(pre3, t) + group_of(entries@, t));
            assert(tracker_sets(pre4) == tracker_sets(pre3));
            assert(emitted_of(pre4, t) == pre4.slots@[p].1.emitted@);
        }
        self.evict(batch_max);
        assert forall|i: int| 0 <= i < self.slots@.len() implies !(#[trigger] self.slots@[i]).1.can_extend() by {
            let n = pre4.slots@.len() - self.slots@.len();
            assert(self.slots@[i] == pre4.slots@[i + n]);
        }
        assert forall|t: u64| #[trigger] self.has_slot(t) implies emitted_of(*self, t) == split_entries(
            assembled_from(slot_map(tracker_sets(*self), t), 0),
        ).0 by {
            let p = self.position(t);
            assert(self.slots@[p].1.well_formed());
            assert(!self.slots@[p].1.can_extend());
            lemma_settled_slot(&self.slots@[p].1);
            lemma_slot_map(*self, t);
        }
        assert forall|i: int| 0 <= i < entries@.len() implies old(self).has_slot((#[trigger] entries@[i]).slot)
            || count_fate(fates@, PacketFate::Fresh) > 0 by {
            assert(pre3.has_slot(entries@[i].slot));
        }
        assert forall|t: u64| #[trigger] self.has_slot(t) implies emitted_of(*self, t) == emitted_of(*old(self), t)
            + group_of(entries@, t) by {
            assert(emitted_of(*self, t) == emitted_of(pre4, t));
            assert(emitted_of(pre3, t) == emitted_of(*old(self), t));
        }
        assert forall|i: int| 0 <= i < entries@.len() implies (#[trigger] entries@[i]).slot >= eviction_floor(
            old(self).highest_slot,
            old(self).retention_window,
        ) by {
            let p = pre3.position(entries@[i].slot);
            assert(pre3.slots@[p].0 >= eviction_floor(pre3.highest_slot, pre3.retention_window));
        }
        BatchOutput { entries, forward, fates }
    }

    /// Assembles every slot, in ascending slot order, and returns the entries
    /// that became complete, grouped by slot.
    pub fn assemble_slots(&mut self) -> (r: Vec<SlotEntries>)
        requires
            old(self).well_formed(),
        ensures
            final(self).well_formed(),
            final(self).highest_slot == old(self).highest_slot,
            final(self).retention_window == old(self).retention_window,
            final(self).slots@.len() == old(self).slots@.len(),
            final(self).metrics.packets_forwarded == old(self).metrics.packets_forwarded,
            metrics_grow(old(self).metrics, final(self).metrics),
            final(self).metrics == (ShredMetrics { entries_decoded: final(self).metrics.entries_decoded, ..old(self).metrics }),
            forall|t: u64| #[trigger] emitted_of(*final(self), t) == emitted_of(*old(self), t) + group_of(r@, t),
            final(self).metrics.entries_decoded == sat_add(old(self).metrics.entries_decoded, entry_total(r@)),
            tracker_sets(*final(self)) == tracker_sets(*old(self)),
            forall|i: int| 0 <= i < final(self).slots@.len() ==> !(#[trigger] final(self).slots@[i]).1.can_extend(),
            forall|t: u64| #[trigger] final(self).has_slot(t) == old(self).has_slot(t),
            forall|i: int| 0 <= i < r@.len() ==> old(self).has_slot((#[trigger] r@[i]).slot),
            forall|i: int| 0 <= i < r@.len() ==> (#[trigger] r@[i]).entries@.len() > 0,
            forall|i: int, j: int| 0 <= i < j < r@.len() ==> (#[trigger] r@[i]).slot < (#[trigger] r@[j]).slot,
    {
        let ghost keys = old(self).slots@.map_values(|e: (u64, SlotState)| e.0);
        let mut entries: Vec<SlotEntries> = Vec::new();
        assert forall|t: u64| #[trigger] emitted_of(*self, t) == emitted_of(*old(self), t) + group_of(entries@, t) by {
            assert(emitted_of(*old(self), t) + Seq::<Seq<u8>>::empty() =~= emitted_of(*old(self), t));
        }
        let mut k: usize = 0;
        while k < self.slots.len()
            invariant
                self.well_formed(),
                self.highest_slot == old(self).highest_slot,
                self.retention_window == old(self).retention_window,
                self.slots@.len() == keys.len(),
                keys == old(self).slots@.map_values(|e: (u64, SlotState)| e.0),
                ShredTracker::sorted(old(self).slots@),
                forall|b: int| 0 <= b < keys.len() ==> (#[trigger] self.slots@[b]).0 == keys[b],
                k <= keys.len(),
                self.metrics.packets_forwarded == old(self).metrics.packets_forwarded,
                metrics_grow(old(self).metrics, self.metrics),
                self.metrics == (ShredMetrics { entries_decoded: self.metrics.entries_decoded, ..old(self).metrics }),
                forall|t: u64| #[trigger] emitted_of(*self, t) == emitted_of(*old(self), t) + group_of(entries@, t),
                forall|t: u64| #[trigger] self.has_slot(t) == old(self).has_slot(t),
                self.metrics.entries_decoded == sat_add(old(self).metrics.entries_decoded, entry_total(entries@)),
                tracker_sets(*self) == tracker_sets(*old(self)),
                forall|b: int| 0 <= b < k ==> !(#[trigger] self.slots@[b]).1.can_extend(),
                forall|a: int| 0 <= a < entries@.len() ==> (#[trigger] entries@[a]).entries@.len() > 0,
                forall|a: int| 0 <= a < entries@.len() ==> exists|b: int| 0 <= b < k && (#[trigger] entries@[a]).slot == keys[b],
                forall|a: int, b: int| 0 <= a < b < entries@.len() ==> (#[trigger] entries@[a]).slot < (#[trigger] entries@[b]).slot,
            decreases keys.len() - k,
        {
            let slot = self.slots[k].0;
            let ghost cur = *self;
            let ghost e_before = entries@;
            proof {
                cur.lemma_position(k as int);
                assert forall|a: int| 0 <= a < e_before.len() implies (#[trigger] e_before[a]).slot != slot by {
                    let c = choose|c: int| 0 <= c < k && (#[trigger] e_before[a]).slot == keys[c];
                    assert(old(self).slots@[c].0 < old(self).slots@[k as int].0);
                }
                lemma_group_absent(e_before, slot);
                assert(emitted_of(cur, slot) =~= emitted_of(*old(self), slot));
            }
            let found = self.assemble_at(k);
            let ghost after = *self;
            if found.len() == 0 {
                assert forall|t: u64| #[trigger] emitted_of(*self, t) == emitted_of(*old(self), t) + group_of(entries@, t) by {
                    if t == slot {
                        assert(found@.map_values(|e: Vec<u8>| e@) =~= Seq::<Seq<u8>>::empty());
                        assert(emitted_of(*old(self), t) + group_of(entries@, t) =~= emitted_of(*old(self), t));
                    }
                }
            }
            if found.len() > 0 {
                self.metrics.entries_decoded = bump_by(self.metrics.entries_decoded, found.len() as u64);
                let ghost e0 = entries@;
                let ghost fv = found@.map_values(|e: Vec<u8>| e@);
                entries.push(SlotEntries { slot, entries: found });
                assert(entries@.drop_last() =~= e0);
                assert(entry_total(entries@) == entry_total(e0) + found@.len());
                assert(self.slots == after.slots);
                assert forall|t: u64| #[trigger] emitted_of(*self, t) == emitted_of(*old(self), t) + group_of(entries@, t) by {
                    assert(emitted_of(*self, t) == emitted_of(after, t));
                    if t == slot {
                        assert(emitted_of(*old(self), t) + Seq::<Seq<u8>>::empty() =~= emitted_of(*old(self), t));
                    }
                }
                assert forall|a: int, b: int| 0 <= a < b < entries@.len() implies (#[trigger] entries@[a]).slot < (#[trigger] entries@[b]).slot by {
                    if b == e0.len() {
                        assert(entries@[a] == e0[a]);
                        let c = choose|c: int| 0 <= c < k && (#[trigger] e0[a]).slot == keys[c];
                        assert(old(self).slots@[c].0 < old(self).slots@[k as int].0);
                    } else {
                        assert(entries@[a] == e0[a]);
                        assert(entries@[b] == e0[b]);
                    }
                }
                assert forall|a: int| 0 <= a < entries@.len() implies exists|b: int| 0 <= b < k + 1 && (#[trigger] entries@[a]).slot == keys[b] by {
                    if a == e0.len() {
                        assert(entries@[a].slot == keys[k as int]);
                    } else {
                        assert(entries@[a] == e0[a]);
                        let c = choose|c: int| 0 <= c < k && (#[trigger] e0[a]).slot == keys[c];
                        assert(entries@[a].slot == keys[c]);
                    }
                }
            }
            assert(self.slots == after.slots);
            assert(tracker_sets(*self) =~= tracker_sets(after));
            assert forall|b: int| 0 <= b < k + 1 implies !(#[trigger] self.slots@[b]).1.can_extend() by {
                if b < k {
                    assert(after.slots@[b] == cur.slots@[b]);
                }
            }
            assert forall|t: u64| #[trigger] self.has_slot(t) == old(self).has_slot(t) by {
                assert(self.has_slot(t) == after.has_slot(t));
                assert(after.has_slot(t) == cur.has_slot(t));
            }
            k = k + 1;
        }
        entries
    }
}


/// A batch made of `n >= 1` copies of one packet carrying a fragment not seen
/// before (in a live slot, of a matching shape) leaves the FEC sets as one
/// copy does; the first copy is fresh and forwarded, the other `n - 1` are
/// counted as duplicates.
pub proof fn lemma_copies_are_duplicates(m: Map<(u64, u32), SetEntry>, floor: u64, b: Seq<u8>, batch: Seq<Vec<u8>>)
    requires
        batch.len() >= 1,
        forall|i: int| 0 <= i < batch.len() ==> (#[trigger] batch[i])@ == b,
        absorb_step(m, floor, b).1 == PacketFate::Fresh,
    ensures
        absorb_all(m, floor, batch).0 == absorb_step(m, floor, b).0,
        absorb_all(m, floor, batch).1 == Seq::new(
            batch.len(),
            |i: int| if i == 0 { PacketFate::Fresh } else { PacketFate::Duplicate },
        ),
        count_fate(absorb_all(m, floor, batch).1, PacketFate::Duplicate) == batch.len() - 1,
        fresh_packets(batch, absorb_all(m, floor, batch).1) == seq![b],
    decreases batch.len(),
{
    let fs = absorb_all(m, floor, batch).1;
    if batch.len() == 1 {
        assert(batch.drop_last() =~= Seq::<Vec<u8>>::empty());
        assert(fs =~= Seq::new(1, |i: int| if i == 0 { PacketFate::Fresh } else { PacketFate::Duplicate }));
        assert(fs.drop_last() =~= Seq::<PacketFate>::empty());
        assert(fresh_packets(batch.drop_last(), fs.drop_last()) == Seq::<Seq<u8>>::empty());
        assert(count_fate(fs.drop_last(), PacketFate::Duplicate) == 0);
        assert(seq![b] =~= Seq::<Seq<u8>>::empty().push(b));
    } else {
        let prev = batch.drop_last();
        lemma_copies_are_duplicates(m, floor, b, prev);
        let m1 = absorb_step(m, floor, b).0;
        let k = (slot_of(b) as u64, fec_index_of(b) as u32);
        let key = packet_key(b);
        let before = if m.contains_key(k) { m[k].0 } else { empty_view(num_data_of(b) as u16, num_parity_of(b) as u16) };
        let w = absorb(before, key);
        assert(w.seen.contains(key)) by {
            if !before.seen.contains(key) {
                assert(w.seen[w.seen.len() - 1] == key);
            }
        }
        assert(absorb(w, key) == w);
        assert(m1[k] == (w, num_data_of(b) as u16, num_parity_of(b) as u16));
        assert(m1.insert(k, (absorb(w, key), num_data_of(b) as u16, num_parity_of(b) as u16)) =~= m1);
        assert(absorb_step(m1, floor, b).1 == PacketFate::Duplicate);
        assert(batch.last()@ == b);
        assert(fs =~= Seq::new(batch.len(), |i: int| if i == 0 { PacketFate::Fresh } else { PacketFate::Duplicate }));
        assert(fs.drop_last() =~= absorb_all(m, floor, prev).1);
        assert(fs.last() == PacketFate::Duplicate);
        assert(count_fate(fs, PacketFate::Duplicate) == count_fate(fs.drop_last(), PacketFate::Duplicate) + 1);
    }
}

} // verus!
