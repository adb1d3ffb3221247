//! State of one slot: its FEC sets and the ordered assembly of their data.
use vstd::prelude::*;
use crate::wire::{Shred, MAX_DATA_SHREDS, MAX_PARITY_SHREDS};
use crate::fec::{FecSetState, FecView, DecodeOutcome, decode_outcome, decoded_after, absorb, shred_key, append_bytes, empty_view};
use crate::entries::{split_entries, extract_entries, lemma_split_append};

verus! {

/// One slot in flight.
pub struct SlotState {
    /// FEC sets keyed by FEC-set index; each key occurs once.
    pub fec_sets: Vec<(u32, FecSetState)>,
    /// Index of the first data fragment not yet assembled; sets are assembled
    /// strictly in index order from the slot's start.
    pub next_fec_index: u32,
    /// Assembled bytes that do not yet form a complete entry.
    pub tail: Vec<u8>,
    /// Whether a fragment marked last of the slot has arrived.
    pub last_seen: bool,
    /// Every byte assembled so far, in order.
    pub assembled: Ghost<Seq<u8>>,
    /// Every entry emitted so far, in order.
    pub emitted: Ghost<Seq<Seq<u8>>>,
    /// The FEC sets assembled so far, in order: index, data-fragment count
    /// and decoded bytes of each.
    pub chain: Ghost<Seq<(u32, u16, Seq<u8>)>>,
}

/// A FEC set's view and declared shape.
pub type SetEntry = (FecView, u16, u16);

/// The FEC sets a slot holds, keyed by FEC-set index.
pub open spec fn slot_sets(st: SlotState) -> Map<u32, SetEntry> {
    Map::new(
        |f: u32| st.has_fec(f),
        |f: u32| (st.fec_sets@[st.fec_pos(f)].1@, st.fec_sets@[st.fec_pos(f)].1.num_data, st.fec_sets@[st.fec_pos(f)].1.num_parity),
    )
}

/// The sets hold a decoded FEC set with index `fec`, `nd` data fragments and
/// data bytes `bytes`.
pub open spec fn decoded_in(sets: Seq<(u32, FecSetState)>, fec: u32, nd: u16, bytes: Seq<u8>) -> bool {
    exists|i: int|
        0 <= i < sets.len() && (#[trigger] sets[i]).0 == fec && sets[i].1@.decoded == Some(bytes)
            && sets[i].1.num_data == nd
}

/// Index of the first data fragment after a chain of assembled sets.
pub open spec fn chain_end(c: Seq<(u32, u16, Seq<u8>)>) -> int {
    if c.len() == 0 { 0 } else { c.last().0 + c.last().1 }
}

/// The bytes of a chain of assembled sets, in order.
pub open spec fn chain_bytes(c: Seq<(u32, u16, Seq<u8>)>) -> Seq<u8> {
    c.map_values(|x: (u32, u16, Seq<u8>)| x.2).flatten()
}

/// Every decoded set stays decoded, with the same bytes, under the same index.
pub open spec fn keeps_decoded(a: Seq<(u32, FecSetState)>, b: Seq<(u32, FecSetState)>) -> bool {
    &&& a.len() <= b.len()
    &&& forall|i: int|
        0 <= i < a.len() ==> (#[trigger] b[i]).0 == a[i].0 && (a[i].1@.decoded is Some ==> b[i].1@.decoded
            == a[i].1@.decoded && b[i].1.num_data == a[i].1.num_data)
}

proof fn lemma_keeps_decoded(a: Seq<(u32, FecSetState)>, b: Seq<(u32, FecSetState)>, fec: u32, nd: u16, bytes: Seq<u8>)
    requires
        keeps_decoded(a, b),
        decoded_in(a, fec, nd, bytes),
    ensures
        decoded_in(b, fec, nd, bytes),
{
    let i = choose|i: int|
        0 <= i < a.len() && (#[trigger] a[i]).0 == fec && a[i].1@.decoded == Some(bytes) && a[i].1.num_data == nd;
    assert(b[i].0 == fec);
}


/// Keys held pairwise distinct.
pub open spec fn keys_unique(st: SlotState) -> bool {
    forall|a: int, b: int|
        0 <= a < b < st.fec_sets@.len() ==> (#[trigger] st.fec_sets@[a]).0 != (#[trigger] st.fec_sets@[b]).0
}

/// Replacing (or appending) the set at `pos`, with index `fec`, changes the
/// slot's set map at `fec` alone.
proof fn lemma_sets_after_update(o: SlotState, fin: SlotState, pos: int, fec: u32)
    requires
        keys_unique(o),
        keys_unique(fin),
        0 <= pos < fin.fec_sets@.len(),
        fin.fec_sets@[pos].0 == fec,
        fin.fec_sets@.len() == o.fec_sets@.len() || (fin.fec_sets@.len() == o.fec_sets@.len() + 1
            && pos == o.fec_sets@.len()),
        pos < o.fec_sets@.len() ==> o.fec_sets@[pos].0 == fec,
        forall|j: int| 0 <= j < o.fec_sets@.len() && j != pos ==> (#[trigger] fin.fec_sets@[j]) == o.fec_sets@[j],
    ensures
        slot_sets(fin) == slot_sets(o).insert(
            fec,
            (fin.fec_sets@[pos].1@, fin.fec_sets@[pos].1.num_data, fin.fec_sets@[pos].1.num_parity),
        ),
{
    fin.lemma_fec_pos(pos);
    assert forall|f: u32| #[trigger] fin.has_fec(f) implies o.has_fec(f) || f == fec by {
        let k = choose|k: int| 0 <= k < fin.fec_sets@.len() && (#[trigger] fin.fec_sets@[k]).0 == f;
        if k < o.fec_sets@.len() && k != pos {
            assert(o.fec_sets@[k].0 == f);
        }
    }
    assert forall|f: u32| o.has_fec(f) && f != fec implies fin.has_fec(f) && (#[trigger] fin.fec_pos(f)) == o.fec_pos(f)
        && fin.fec_sets@[fin.fec_pos(f)] == o.fec_sets@[o.fec_pos(f)] by {
        let j = o.fec_pos(f);
        o.lemma_fec_pos(j);
        assert(j != pos);
        assert(fin.fec_sets@[j] == o.fec_sets@[j]);
        fin.lemma_fec_pos(j);
    }
    let m = slot_sets(o).insert(
        fec,
        (fin.fec_sets@[pos].1@, fin.fec_sets@[pos].1.num_data, fin.fec_sets@[pos].1.num_parity),
    );
    assert forall|f: u32| #[trigger] slot_sets(fin).contains_key(f) == m.contains_key(f) by {
        if f != fec && o.has_fec(f) {
            let j = o.fec_pos(f);
            o.lemma_fec_pos(j);
            assert(fin.fec_sets@[j] == o.fec_sets@[j]);
            fin.lemma_fec_pos(j);
        }
    }
    assert forall|f: u32| #[trigger] slot_sets(fin).contains_key(f) implies slot_sets(fin)[f] == m[f] by {
        if f != fec {
            let j = o.fec_pos(f);
            o.lemma_fec_pos(j);
            assert(fin.fec_sets@[j] == o.fec_sets@[j]);
            fin.lemma_fec_pos(j);
        }
    }
    assert(slot_sets(fin) =~= m);
}

impl SlotState {
    pub closed spec fn well_formed(&self) -> bool {
        &&& forall|i: int| 0 <= i < self.fec_sets@.len() ==> (#[trigger] self.fec_sets@[i]).1.well_formed()
        &&& forall|i: int, j: int|
            0 <= i < j < self.fec_sets@.len() ==> (#[trigger] self.fec_sets@[i]).0 != (#[trigger] self.fec_sets@[j]).0
        &&& split_entries(self.assembled@) == (self.emitted@, self.tail@)
        &&& self.chain_ok()
    }

    /// The assembled bytes are the decoded sets' bytes, set after set, starting
    /// at the slot's first data fragment with no gap.
    pub open spec fn chain_ok(&self) -> bool {
        let c = self.chain@;
        &&& forall|j: int| 0 <= j < c.len() ==> decoded_in(self.fec_sets@, (#[trigger] c[j]).0, c[j].1, c[j].2)
        &&& forall|j: int| 0 <= j < c.len() ==> (#[trigger] c[j]).0 == chain_end(c.take(j))
        &&& self.next_fec_index == chain_end(c)
        &&& self.assembled@ == chain_bytes(c)
    }

    proof fn lemma_chain_kept(&self, before: Seq<(u32, FecSetState)>)
        requires
            keeps_decoded(before, self.fec_sets@),
            forall|j: int| 0 <= j < self.chain@.len() ==> decoded_in(before, (#[trigger] self.chain@[j]).0, self.chain@[j].1, self.chain@[j].2),
        ensures
            forall|j: int| 0 <= j < self.chain@.len() ==> decoded_in(self.fec_sets@, (#[trigger] self.chain@[j]).0, self.chain@[j].1, self.chain@[j].2),
    {
        assert forall|j: int| 0 <= j < self.chain@.len() implies decoded_in(self.fec_sets@, (#[trigger] self.chain@[j]).0, self.chain@[j].1, self.chain@[j].2) by {
            lemma_keeps_decoded(before, self.fec_sets@, self.chain@[j].0, self.chain@[j].1, self.chain@[j].2);
        }
    }

    pub open spec fn has_fec(&self, fec: u32) -> bool {
        exists|i: int| 0 <= i < self.fec_sets@.len() && (#[trigger] self.fec_sets@[i]).0 == fec
    }

    pub fn new() -> (r: SlotState)
        ensures
            r.well_formed(),
            r.fec_sets@.len() == 0,
            r.next_fec_index == 0,
            r.assembled@.len() == 0,
            r.emitted@.len() == 0,
            slot_sets(r) == Map::<u32, SetEntry>::empty(),
    {
        let r = SlotState {
            fec_sets: Vec::new(),
            next_fec_index: 0,
            tail: Vec::new(),
            last_seen: false,
            assembled: Ghost(Seq::empty()),
            emitted: Ghost(Seq::empty()),
            chain: Ghost(Seq::empty()),
        };
        assert(chain_bytes(Seq::empty()) =~= Seq::<u8>::empty());
        assert(slot_sets(r) =~= Map::<u32, SetEntry>::empty());
        assert(split_entries(Seq::<u8>::empty()) == (Seq::<Seq<u8>>::empty(), Seq::<u8>::empty()));
        assert(r.tail@ =~= Seq::<u8>::empty());
        r
    }

    /// Position of the FEC set with index `fec`.
    pub fn find_fec(&self, fec: u32) -> (r: Option<usize>)
        ensures
            r is Some ==> r->Some_0 < self.fec_sets@.len() && self.fec_sets@[r->Some_0 as int].0 == fec,
            r is None ==> !self.has_fec(fec),
    {
        let mut i: usize = 0;
        while i < self.fec_sets.len()
            invariant
                i <= self.fec_sets@.len(),
                forall|k: int| 0 <= k < i ==> (#[trigger] self.fec_sets@[k]).0 != fec,
            decreases self.fec_sets@.len() - i,
        {
            if self.fec_sets[i].0 == fec {
                return Some(i);
            }
            i = i + 1;
        }
        None
    }

    /// Position of the FEC set with index `fec`, when the slot holds one.
    pub open spec fn fec_pos(&self, fec: u32) -> int {
        choose|i: int| 0 <= i < self.fec_sets@.len() && (#[trigger] self.fec_sets@[i]).0 == fec
    }

    /// The held FEC set with index `fec`, as a view; an empty set of the
    /// given shape where none is held.
    pub open spec fn fec_view_or_empty(&self, fec: u32, nd: u16, np: u16) -> FecView {
        if self.has_fec(fec) { self.fec_sets@[self.fec_pos(fec)].1@ } else { empty_view(nd, np) }
    }

    /// The held FEC set with index `fec` declares a shape other than `nd` + `np`.
    pub open spec fn shape_conflict(&self, fec: u32, nd: u16, np: u16) -> bool {
        self.has_fec(fec) && (self.fec_sets@[self.fec_pos(fec)].1.num_data != nd
            || self.fec_sets@[self.fec_pos(fec)].1.num_parity != np)
    }

    proof fn lemma_fec_pos(&self, i: int)
        requires
            forall|a: int, b: int|
                0 <= a < b < self.fec_sets@.len() ==> (#[trigger] self.fec_sets@[a]).0 != (#[trigger] self.fec_sets@[b]).0,
            0 <= i < self.fec_sets@.len(),
        ensures
            self.has_fec(self.fec_sets@[i].0),
            self.fec_pos(self.fec_sets@[i].0) == i,
    {
        let p = self.fec_pos(self.fec_sets@[i].0);
        if p != i {
            if p < i {
                assert(self.fec_sets@[p].0 != self.fec_sets@[i].0);
            } else {
                assert(self.fec_sets@[i].0 != self.fec_sets@[p].0);
            }
        }
    }

    /// The set at the next index is held and decoded, and appending it keeps
    /// the index within `u32`.
    pub open spec fn can_extend(&self) -> bool {
        &&& self.has_fec(self.next_fec_index)
        &&& self.fec_sets@[self.fec_pos(self.next_fec_index)].1@.decoded is Some
        &&& self.next_fec_index + self.fec_sets@[self.fec_pos(self.next_fec_index)].1.num_data <= u32::MAX
    }

    /// Records a shred in its FEC set, creating the set on its first fragment.
    /// Returns `None`, changing nothing, when the held set declares another
    /// shape; else whether the fragment was new.
    #[verifier::rlimit(80)]
    pub fn insert_shred(&mut self, s: &Shred) -> (r: Option<bool>)
        requires
            old(self).well_formed(),
            s.well_formed(),
        ensures
            final(self).well_formed(),
            (r is None) == old(self).shape_conflict(s.fec_set_index, s.num_data, s.num_parity),
            r is None ==> *final(self) == *old(self),
            r is Some ==> {
                let before = old(self).fec_view_or_empty(s.fec_set_index, s.num_data, s.num_parity);
                let i = final(self).fec_pos(s.fec_set_index);
                &&& final(self).has_fec(s.fec_set_index)
                &&& 0 <= i < final(self).fec_sets@.len()
                &&& final(self).fec_sets@[i].1@ == absorb(before, shred_key(s))
                &&& final(self).fec_sets@[i].1.num_data == s.num_data
                &&& final(self).fec_sets@[i].1.num_parity == s.num_parity
                &&& r == Some(!before.seen.contains(shred_key(s)))
                &&& old(self).has_fec(s.fec_set_index) ==> i == old(self).fec_pos(s.fec_set_index)
                    && final(self).fec_sets@.len() == old(self).fec_sets@.len()
                &&& !old(self).has_fec(s.fec_set_index) ==> i == old(self).fec_sets@.len()
                    && final(self).fec_sets@.len() == old(self).fec_sets@.len() + 1
                &&& forall|j: int| 0 <= j < old(self).fec_sets@.len() && j != i ==> (#[trigger] final(self).fec_sets@[j]) == old(self).fec_sets@[j]
                &&& final(self).next_fec_index == old(self).next_fec_index
                &&& final(self).assembled == old(self).assembled
                &&& final(self).emitted == old(self).emitted
                &&& final(self).tail == old(self).tail
                &&& final(self).chain == old(self).chain
                &&& final(self).last_seen == (old(self).last_seen || s.last_in_slot)
                &&& slot_sets(*final(self)) == slot_sets(*old(self)).insert(
                    s.fec_set_index,
                    (absorb(before, shred_key(s)), s.num_data, s.num_parity),
                )
            },
            forall|f: u32| #[trigger] old(self).has_fec(f) ==> final(self).has_fec(f),
    {
        let pos = match self.find_fec(s.fec_set_index) {
            Some(p) => {
                proof {
                    self.lemma_fec_pos(p as int);
                }
                if self.fec_sets[p].1.num_data != s.num_data || self.fec_sets[p].1.num_parity != s.num_parity {
                    return None;
                }
                p
            },
            None => {
                let st = FecSetState::new(s.num_data, s.num_parity);
                self.fec_sets.push((s.fec_set_index, st));
                proof {
                    self.lemma_chain_kept(old(self).fec_sets@);
                }
                assert(self.fec_sets@[self.fec_sets@.len() - 1].0 == s.fec_set_index);
                assert forall|f: u32| #[trigger] old(self).has_fec(f) implies self.has_fec(f) by {
                    let k = choose|k: int| 0 <= k < old(self).fec_sets@.len() && (#[trigger] old(self).fec_sets@[k]).0 == f;
                    assert(self.fec_sets@[k] == old(self).fec_sets@[k]);
                }
                (self.fec_sets.len() - 1) as usize
            },
        };
        let ghost mid = self.fec_sets@;
        if s.last_in_slot {
            self.last_seen = true;
        }
        let mut entry = self.fec_sets.remove(pos);
        let fresh = entry.1.insert(s);
        self.fec_sets.insert(pos, entry);
        assert(self.fec_sets@ =~= mid.update(pos as int, entry));
        assert(keeps_decoded(mid, self.fec_sets@));
        proof {
            self.lemma_chain_kept(mid);
            self.lemma_fec_pos(pos as int);
        }
        assert forall|f: u32| #[trigger] old(self).has_fec(f) implies self.has_fec(f) by {
            let k = choose|k: int| 0 <= k < mid.len() && (#[trigger] mid[k]).0 == f;
            assert(self.fec_sets@[k].0 == f);
        }
        proof {
            lemma_sets_after_update(*old(self), *self, pos as int, s.fec_set_index);
        }
        Some(fresh)
    }

    /// Decodes the FEC set with index `fec`, if the slot holds one.
    pub fn decode_fec(&mut self, fec: u32) -> (r: Option<DecodeOutcome>)
        requires
            old(self).well_formed(),
        ensures
            final(self).well_formed(),
            final(self).next_fec_index == old(self).next_fec_index,
            final(self).assembled == old(self).assembled,
            final(self).emitted == old(self).emitted,
            final(self).tail == old(self).tail,
            final(self).fec_sets@.len() == old(self).fec_sets@.len(),
            r is None <==> !old(self).has_fec(fec),
            r is None ==> *final(self) == *old(self),
            r is Some ==> {
                let i = old(self).fec_pos(fec);
                let a = old(self).fec_sets@[i].1;
                &&& 0 <= i < old(self).fec_sets@.len()
                &&& final(self).fec_pos(fec) == i
                &&& final(self).fec_sets@[i].0 == fec
                &&& final(self).fec_sets@[i].1.num_data == a.num_data
                &&& final(self).fec_sets@[i].1.num_parity == a.num_parity
                &&& r == Some(decode_outcome(a@, a.num_data, a.num_parity))
                &&& final(self).fec_sets@[i].1@ == decoded_after(a@, a.num_data, a.num_parity)
                &&& forall|j: int| 0 <= j < old(self).fec_sets@.len() && j != i ==> (#[trigger] final(self).fec_sets@[j]) == old(self).fec_sets@[j]
                &&& final(self).chain == old(self).chain
                &&& final(self).last_seen == old(self).last_seen
                &&& slot_sets(*final(self)) == slot_sets(*old(self)).insert(
                    fec,
                    (decoded_after(a@, a.num_data, a.num_parity), a.num_data, a.num_parity),
                )
            },
            forall|f: u32| #[trigger] old(self).has_fec(f) ==> final(self).has_fec(f),
    {
        match self.find_fec(fec) {
            None => None,
            Some(pos) => {
                proof {
                    self.lemma_fec_pos(pos as int);
                }
                let ghost mid = self.fec_sets@;
                let mut entry = self.fec_sets.remove(pos);
                let out = entry.1.try_decode();
                self.fec_sets.insert(pos, entry);
                assert(self.fec_sets@ =~= mid.update(pos as int, entry));
                assert(keeps_decoded(mid, self.fec_sets@));
                proof {
                    self.lemma_chain_kept(mid);
                }
                assert forall|f: u32| #[trigger] old(self).has_fec(f) implies self.has_fec(f) by {
                    let k = choose|k: int| 0 <= k < mid.len() && (#[trigger] mid[k]).0 == f;
                    assert(self.fec_sets@[k].0 == f);
                }
                proof {
                    self.lemma_fec_pos(pos as int);
                    lemma_sets_after_update(*old(self), *self, pos as int, fec);
                }
                Some(out)
            },
        }
    }

    /// Appends the decoded set at `pos`, which continues the assembled prefix.
    fn append_set(&mut self, pos: usize)
        requires
            keys_unique(*old(self)),
            old(self).chain_ok(),
            pos < old(self).fec_sets@.len(),
            old(self).fec_sets@[pos as int].0 == old(self).next_fec_index,
            old(self).fec_sets@[pos as int].1@.decoded is Some,
            old(self).next_fec_index + old(self).fec_sets@[pos as int].1.num_data <= u32::MAX,
        ensures
            final(self).fec_sets@ == old(self).fec_sets@,
            final(self).chain_ok(),
            final(self).chain@ == old(self).chain@.push((
                old(self).next_fec_index,
                old(self).fec_sets@[pos as int].1.num_data,
                old(self).fec_sets@[pos as int].1@.decoded->Some_0,
            )),
            final(self).assembled@ == old(self).assembled@ + old(self).fec_sets@[pos as int].1@.decoded->Some_0,
            final(self).tail@ == old(self).tail@ + old(self).fec_sets@[pos as int].1@.decoded->Some_0,
            final(self).next_fec_index == old(self).next_fec_index + old(self).fec_sets@[pos as int].1.num_data,
            final(self).emitted == old(self).emitted,
            final(self).last_seen == old(self).last_seen,
    {
        let nd = self.fec_sets[pos].1.num_data as u32;
        match &self.fec_sets[pos].1.decoded {
            Some(bytes) => {
                let ghost c0 = self.chain@;
                let ghost x = (self.next_fec_index, nd as u16, bytes@);
                append_bytes(&mut self.tail, bytes);
                self.assembled = Ghost(self.assembled@ + bytes@);
                self.chain = Ghost(c0.push(x));
                proof {
                    let f = |y: (u32, u16, Seq<u8>)| y.2;
                    assert(c0.push(x).map_values(f) =~= c0.map_values(f).push(bytes@));
                    c0.map_values(f).lemma_flatten_push(bytes@);
                    assert(decoded_in(self.fec_sets@, x.0, x.1, x.2)) by {
                        assert(self.fec_sets@[pos as int].0 == x.0);
                    }
                    assert forall|j: int| 0 <= j < self.chain@.len() implies (#[trigger] self.chain@[j]).0
                        == chain_end(self.chain@.take(j)) by {
                        if j < c0.len() {
                            assert(self.chain@.take(j) =~= c0.take(j));
                        } else {
                            assert(self.chain@.take(j) =~= c0);
                        }
                    }
                }
                self.next_fec_index = self.next_fec_index + nd;
            },
            None => {},
        }
    }

    /// Appends every decoded FEC set that continues the slot's contiguous
    /// prefix, then returns the entries that became complete.
    pub fn assemble(&mut self) -> (r: Vec<Vec<u8>>)
        requires
            old(self).well_formed(),
        ensures
            final(self).well_formed(),
            final(self).fec_sets@ == old(self).fec_sets@,
            final(self).next_fec_index >= old(self).next_fec_index,
            old(self).assembled@.is_prefix_of(final(self).assembled@),
            final(self).emitted@ == old(self).emitted@ + r@.map_values(|e: Vec<u8>| e@),
            final(self).emitted@ == split_entries(final(self).assembled@).0,
            !final(self).can_extend(),
            old(self).chain@.is_prefix_of(final(self).chain@),
            final(self).last_seen == old(self).last_seen,
    {
        let ghost a0 = self.assembled@;
        let ghost t0 = self.tail@;
        assert(self.assembled@ == a0 + Seq::<u8>::empty() && self.tail@ == t0 + Seq::<u8>::empty());
        loop
            invariant
                self.fec_sets@ == old(self).fec_sets@,
                forall|i: int| 0 <= i < self.fec_sets@.len() ==> (#[trigger] self.fec_sets@[i]).1.well_formed(),
                forall|i: int, j: int|
                    0 <= i < j < self.fec_sets@.len() ==> (#[trigger] self.fec_sets@[i]).0 != (#[trigger] self.fec_sets@[j]).0,
                self.emitted@ == old(self).emitted@,
                self.next_fec_index >= old(self).next_fec_index,
                a0 == old(self).assembled@,
                t0 == old(self).tail@,
                split_entries(a0) == (self.emitted@, t0),
                exists|added: Seq<u8>| self.assembled@ == a0 + added && self.tail@ == t0 + added,
                self.chain_ok(),
                old(self).chain@.is_prefix_of(self.chain@),
                self.last_seen == old(self).last_seen,
            ensures
                !self.can_extend(),
            decreases u32::MAX - self.next_fec_index,
        {
            let pos = match self.find_fec(self.next_fec_index) {
                Some(p) => p,
                None => break,
            };
            proof {
                self.lemma_fec_pos(pos as int);
            }
            let nd = self.fec_sets[pos].1.num_data as u32;
            assert(self.fec_sets@[pos as int].1.well_formed());
            if self.next_fec_index > u32::MAX - nd {
                break;
            }
            if self.fec_sets[pos].1.decoded.is_none() {
                break;
            }
            let ghost added = choose|added: Seq<u8>| self.assembled@ == a0 + added && self.tail@ == t0 + added;
            let ghost c0 = self.chain@;
            let ghost bytes = self.fec_sets@[pos as int].1@.decoded->Some_0;
            self.append_set(pos);
            assert(old(self).chain@.is_prefix_of(self.chain@)) by {
                assert(self.chain@.subrange(0, old(self).chain@.len() as int) =~= c0.subrange(0, old(self).chain@.len() as int));
            }
            assert(self.assembled@ =~= a0 + (added + bytes));
            assert(self.tail@ =~= t0 + (added + bytes));
        }
        let ghost added = choose|added: Seq<u8>| self.assembled@ == a0 + added && self.tail@ == t0 + added;
        proof {
            lemma_split_append(a0, added);
        }
        let r = extract_entries(&mut self.tail);
        self.emitted = Ghost(self.emitted@ + r@.map_values(|e: Vec<u8>| e@));
        assert(a0.is_prefix_of(self.assembled@)) by {
            assert(self.assembled@.subrange(0, a0.len() as int) =~= a0);
        }
        r
    }
}


/// Whatever the order and batching in which a slot's fragments arrived, the
/// entries it has emitted are exactly the complete entries framed in the bytes
/// of its decoded FEC sets joined in index order, starting at the slot's first
/// data fragment and leaving no gap.
pub proof fn lemma_emitted_follow_fec_order(st: &SlotState)
    requires
        st.well_formed(),
    ensures
        st.emitted@ == split_entries(chain_bytes(st.chain@)).0,
        forall|j: int| 0 <= j < st.chain@.len() ==> (#[trigger] st.chain@[j]).0 == chain_end(st.chain@.take(j)),
        forall|j: int|
            0 <= j < st.chain@.len() ==> decoded_in(st.fec_sets@, (#[trigger] st.chain@[j]).0, st.chain@[j].1, st.chain@[j].2),
{
}


/// The bytes of the decoded FEC sets of a slot, joined set after set from
/// index `start` for as long as the next set is held and decoded.
pub open spec fn assembled_from(m: Map<u32, SetEntry>, start: u32) -> Seq<u8>
    decreases u32::MAX - start,
{
    if m.contains_key(start) && m[start].0.decoded is Some && m[start].1 >= 1 && start + m[start].1 <= u32::MAX {
        m[start].0.decoded->Some_0 + assembled_from(m, (start + m[start].1) as u32)
    } else {
        Seq::empty()
    }
}

proof fn lemma_settled_suffix(st: &SlotState, j: int)
    requires
        st.well_formed(),
        !st.can_extend(),
        0 <= j <= st.chain@.len(),
    ensures
        assembled_from(slot_sets(*st), if j < st.chain@.len() { st.chain@[j].0 } else { st.next_fec_index })
            == st.chain@.skip(j).map_values(|y: (u32, u16, Seq<u8>)| y.2).flatten(),
    decreases st.chain@.len() - j,
{
    let c = st.chain@;
    let m = slot_sets(*st);
    let f = |y: (u32, u16, Seq<u8>)| y.2;
    if j == c.len() {
        if m.contains_key(st.next_fec_index) && m[st.next_fec_index].0.decoded is Some && m[st.next_fec_index].1 >= 1
            && st.next_fec_index + m[st.next_fec_index].1 <= u32::MAX {
            assert(st.can_extend());
        }
        assert(c.skip(j).map_values(f) =~= Seq::<Seq<u8>>::empty());
        assert(Seq::<Seq<u8>>::empty().flatten() =~= Seq::<u8>::empty());
    } else {
        lemma_settled_suffix(st, j + 1);
        let x = c[j];
        assert(decoded_in(st.fec_sets@, x.0, x.1, x.2));
        let i = choose|i: int|
            0 <= i < st.fec_sets@.len() && (#[trigger] st.fec_sets@[i]).0 == x.0 && st.fec_sets@[i].1@.decoded == Some(x.2)
                && st.fec_sets@[i].1.num_data == x.1;
        st.lemma_fec_pos(i);
        assert(st.fec_sets@[i].1.well_formed());
        assert(m.contains_key(x.0));
        assert(m[x.0].0.decoded == Some(x.2) && m[x.0].1 == x.1);
        let nxt = if j + 1 < c.len() { c[j + 1].0 } else { st.next_fec_index };
        assert(c.take(j + 1).drop_last() =~= c.take(j));
        assert(c.take(j + 1).last() == x);
        if j + 1 < c.len() {
            assert(c[j + 1].0 == chain_end(c.take(j + 1)));
        } else {
            assert(c.take(j + 1) =~= c);
        }
        assert(nxt == x.0 + x.1);
        assert(c.skip(j).map_values(f).first() == x.2);
        assert(c.skip(j).map_values(f).drop_first() =~= c.skip(j + 1).map_values(f));
    }
}

/// Once nothing more can be appended, a slot has emitted exactly the complete
/// entries of its decoded sets joined in index order from its first data
/// fragment: what it emitted depends on its FEC sets alone.
pub proof fn lemma_settled_slot(st: &SlotState)
    requires
        st.well_formed(),
        !st.can_extend(),
    ensures
        st.emitted@ == split_entries(assembled_from(slot_sets(*st), 0)).0,
{
    let c = st.chain@;
    lemma_settled_suffix(st, 0);
    if c.len() > 0 {
        assert(c[0].0 == chain_end(c.take(0)));
    }
    assert(c.skip(0) =~= c);
}

} // verus!
