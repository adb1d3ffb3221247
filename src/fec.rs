//! Deduplicating state of one FEC set and its decode step.
use vstd::prelude::*;
use crate::wire::{Shred, ShredKind, MAX_DATA_SHREDS, MAX_PARITY_SHREDS};
use crate::recovery::{
    shards_view, present_count, recoverable, lengths_consistent, rs_reconstructed,
    reconstruct_data_shards,
};

verus! {

broadcast use vstd::seq_lib::group_seq_properties;

/// What identifies one delivered fragment: slot, FEC-set index, fragment
/// index, kind and payload bytes.
pub type ShredKey = (u64, u32, u32, ShredKind, Seq<u8>);

/// A shred compared by value, so that retransmissions of one fragment are
/// equal; its hash covers the same fields as its equality.
#[derive(Debug, Clone, Hash)]
pub struct ComparableShred {
    pub slot: u64,
    pub fec_set_index: u32,
    pub index: u32,
    pub kind: ShredKind,
    pub payload: Vec<u8>,
}

impl View for ComparableShred {
    type V = ShredKey;

    open spec fn view(&self) -> ShredKey {
        (self.slot, self.fec_set_index, self.index, self.kind, self.payload@)
    }
}

pub fn bytes_equal(a: &Vec<u8>, b: &Vec<u8>) -> (r: bool)
    ensures
        r == (a@ == b@),
{
    if a.len() != b.len() {
        return false;
    }
    let mut i: usize = 0;
    while i < a.len()
        invariant
            a@.len() == b@.len(),
            i <= a@.len(),
            forall|k: int| 0 <= k < i ==> a@[k] == b@[k],
        decreases a@.len() - i,
    {
        if a[i] != b[i] {
            return false;
        }
        i = i + 1;
    }
    assert(a@ =~= b@);
    true
}

pub fn copy_bytes(v: &Vec<u8>) -> (r: Vec<u8>)
    ensures
        r@ == v@,
{
    let r = v.clone();
    assert(r@ =~= v@);
    r
}

/// The identity of a parsed shred.
pub open spec fn shred_key(s: &Shred) -> ShredKey {
    (s.slot, s.fec_set_index, s.index, s.kind, s.payload@)
}

impl ComparableShred {
    pub fn new(s: &Shred) -> (r: ComparableShred)
        ensures
            r@ == (s.slot, s.fec_set_index, s.index, s.kind, s.payload@),
    {
        ComparableShred {
            slot: s.slot,
            fec_set_index: s.fec_set_index,
            index: s.index,
            kind: s.kind,
            payload: copy_bytes(&s.payload),
        }
    }

    pub fn same_as(&self, o: &ComparableShred) -> (r: bool)
        ensures
            r == (self@ == o@),
    {
        self.slot == o.slot && self.fec_set_index == o.fec_set_index && self.index == o.index
            && self.kind == o.kind && bytes_equal(&self.payload, &o.payload)
    }
}

impl PartialEq for ComparableShred {
    fn eq(&self, o: &ComparableShred) -> (r: bool) {
        self.same_as(o)
    }
}

impl Eq for ComparableShred {}

impl vstd::std_specs::cmp::PartialEqSpecImpl for ComparableShred {
    open spec fn obeys_eq_spec() -> bool {
        true
    }

    open spec fn eq_spec(&self, o: &ComparableShred) -> bool {
        self@ == o@
    }
}

/// Abstract state of a FEC set.
pub struct FecView {
    /// Distinct fragments received, in arrival order.
    pub seen: Seq<ShredKey>,
    /// First payload received at each data index.
    pub data: Seq<Option<Seq<u8>>>,
    /// First payload received at each parity index.
    pub parity: Seq<Option<Seq<u8>>>,
    /// The set's data bytes, once decoded.
    pub decoded: Option<Seq<u8>>,
}

/// A set of shape `nd` + `np` that has received nothing.
pub open spec fn empty_view(nd: u16, np: u16) -> FecView {
    FecView {
        seen: Seq::empty(),
        data: Seq::new(nd as nat, |i: int| None::<Seq<u8>>),
        parity: Seq::new(np as nat, |i: int| None::<Seq<u8>>),
        decoded: None,
    }
}

/// The state after one fragment arrives: a fragment seen before changes nothing.
pub open spec fn absorb(v: FecView, k: ShredKey) -> FecView {
    if v.seen.contains(k) {
        v
    } else {
        let i = k.2 as int;
        FecView {
            seen: v.seen.push(k),
            data: if k.3 == ShredKind::Data && v.data[i] is None {
                v.data.update(i, Some(k.4))
            } else {
                v.data
            },
            parity: if k.3 == ShredKind::Parity && v.parity[i] is None {
                v.parity.update(i, Some(k.4))
            } else {
                v.parity
            },
            decoded: v.decoded,
        }
    }
}

/// The state after the same fragment arrives `n` times, and how many of those
/// arrivals were duplicates.
pub open spec fn absorb_times(v: FecView, k: ShredKey, n: nat) -> (FecView, nat)
    decreases n,
{
    if n == 0 {
        (v, 0)
    } else {
        let (w, d) = absorb_times(v, k, (n - 1) as nat);
        (absorb(w, k), d + if w.seen.contains(k) { 1nat } else { 0nat })
    }
}

/// Feeding one fragment to a FEC set `n >= 1` times leaves the set as a single
/// delivery does, and all deliveries after the first count as duplicates.
pub proof fn lemma_dedup_idempotent(v: FecView, k: ShredKey, n: nat)
    requires
        n >= 1,
    ensures
        absorb_times(v, k, n).0 == absorb(v, k),
        absorb_times(v, k, n).1 == (n - 1) + if v.seen.contains(k) { 1nat } else { 0nat },
    decreases n,
{
    let w = absorb(v, k);
    assert(w.seen.contains(k)) by {
        if !v.seen.contains(k) {
            assert(w.seen[w.seen.len() - 1] == k);
        }
    }
    assert(absorb(w, k) == w);
    if n == 1 {
        assert(absorb_times(v, k, 0) == (v, 0nat));
    } else {
        lemma_dedup_idempotent(v, k, (n - 1) as nat);
    }
}

/// Concatenation of the payloads of an all-present fragment list.
pub open spec fn joined(s: Seq<Option<Seq<u8>>>) -> Seq<u8> {
    s.map_values(|o: Option<Seq<u8>>| o->Some_0).flatten()
}

pub open spec fn all_present(s: Seq<Option<Seq<u8>>>) -> bool {
    forall|i: int| 0 <= i < s.len() ==> (#[trigger] s[i]) is Some
}

/// What one decode step does to a set of shape `nd` + `np`.
pub open spec fn decode_outcome(v: FecView, nd: u16, np: u16) -> DecodeOutcome {
    if v.decoded is Some {
        DecodeOutcome::AlreadyDecoded
    } else if all_present(v.data) {
        DecodeOutcome::Decoded
    } else if fragment_count(v) < nd {
        DecodeOutcome::Pending
    } else if recoverable(decoder_input(v), nd as nat) {
        DecodeOutcome::Decoded
    } else {
        DecodeOutcome::Failed
    }
}

/// The set's data bytes when a decode step succeeds: the data fragments
/// joined in index order, recovered first where some are missing.
pub open spec fn decoded_bytes(v: FecView, nd: u16, np: u16) -> Seq<u8> {
    if all_present(v.data) {
        joined(v.data)
    } else {
        joined(rs_reconstructed(decoder_input(v), nd as nat, np as nat).take(nd as int))
    }
}

/// The set after one decode step.
pub open spec fn decoded_after(v: FecView, nd: u16, np: u16) -> FecView {
    if decode_outcome(v, nd, np) == DecodeOutcome::Decoded {
        FecView { decoded: Some(decoded_bytes(v, nd, np)), ..v }
    } else {
        v
    }
}

#[derive(Debug, Clone, Copy, PartialEq, Eq, Structural)]
pub enum DecodeOutcome {
    /// The set was decoded before; nothing was done.
    AlreadyDecoded,
    /// Fewer fragments than data fragments are present; nothing was done.
    Pending,
    /// Enough fragments, but the recovery rejected them; nothing changed.
    Failed,
    /// The set's data bytes are now known.
    Decoded,
}

/// One FEC set of one slot.
pub struct FecSetState {
    pub num_data: u16,
    pub num_parity: u16,
    pub seen: Vec<ComparableShred>,
    pub data: Vec<Option<Vec<u8>>>,
    pub parity: Vec<Option<Vec<u8>>>,
    pub n_data: usize,
    pub n_parity: usize,
    pub decoded: Option<Vec<u8>>,
}

impl View for FecSetState {
    type V = FecView;

    open spec fn view(&self) -> FecView {
        FecView {
            seen: self.seen@.map_values(|c: ComparableShred| c@),
            data: shards_view(self.data@),
            parity: shards_view(self.parity@),
            decoded: match self.decoded {
                Some(d) => Some(d@),
                None => None,
            },
        }
    }
}

proof fn lemma_present_count_update(s: Seq<Option<Seq<u8>>>, i: int, x: Seq<u8>)
    requires
        0 <= i < s.len(),
        s[i] is None,
    ensures
        present_count(s.update(i, Some(x))) == present_count(s) + 1,
    decreases s.len(),
{
    let t = s.update(i, Some(x));
    if i < s.len() - 1 {
        assert(t.drop_last() =~= s.drop_last().update(i, Some(x)));
        lemma_present_count_update(s.drop_last(), i, x);
    } else {
        assert(t.drop_last() =~= s.drop_last());
    }
}

proof fn lemma_present_count_bound(s: Seq<Option<Seq<u8>>>)
    ensures
        present_count(s) <= s.len(),
        present_count(s) == s.len() ==> all_present(s),
    decreases s.len(),
{
    if s.len() > 0 {
        lemma_present_count_bound(s.drop_last());
        if present_count(s) == s.len() {
            assert forall|i: int| 0 <= i < s.len() implies (#[trigger] s[i]) is Some by {
                if i < s.len() - 1 {
                    assert(s[i] == s.drop_last()[i]);
                }
            }
        }
    }
}

impl FecSetState {
    pub open spec fn well_formed(&self) -> bool {
        &&& 1 <= self.num_data <= MAX_DATA_SHREDS
        &&& self.num_parity <= MAX_PARITY_SHREDS
        &&& self.data@.len() == self.num_data
        &&& self.parity@.len() == self.num_parity
        &&& self.n_data == present_count(shards_view(self.data@))
        &&& self.n_parity == present_count(shards_view(self.parity@))
    }

    /// The set would accept this shred: it names the same shape and a valid index.
    pub open spec fn fits(&self, s: &Shred) -> bool {
        &&& s.num_data == self.num_data
        &&& s.num_parity == self.num_parity
        &&& s.well_formed()
    }

    pub fn new(num_data: u16, num_parity: u16) -> (r: FecSetState)
        requires
            1 <= num_data <= MAX_DATA_SHREDS,
            num_parity <= MAX_PARITY_SHREDS,
        ensures
            r.well_formed(),
            r.num_data == num_data,
            r.num_parity == num_parity,
            r@.seen.len() == 0,
            r@.data == Seq::new(num_data as nat, |i: int| None::<Seq<u8>>),
            r@.parity == Seq::new(num_parity as nat, |i: int| None::<Seq<u8>>),
            r@.decoded is None,
            r@ == empty_view(num_data, num_parity),
    {
        let mut data: Vec<Option<Vec<u8>>> = Vec::new();
        let mut i: u16 = 0;
        while i < num_data
            invariant
                i <= num_data,
                data@.len() == i,
                forall|k: int| 0 <= k < i ==> (#[trigger] data@[k]) is None,
            decreases num_data - i,
        {
            data.push(None);
            i = i + 1;
        }
        let mut parity: Vec<Option<Vec<u8>>> = Vec::new();
        let mut j: u16 = 0;
        while j < num_parity
            invariant
                j <= num_parity,
                parity@.len() == j,
                forall|k: int| 0 <= k < j ==> (#[trigger] parity@[k]) is None,
            decreases num_parity - j,
        {
            parity.push(None);
            j = j + 1;
        }
        let r = FecSetState {
            num_data,
            num_parity,
            seen: Vec::new(),
            data,
            parity,
            n_data: 0,
            n_parity: 0,
            decoded: None,
        };
        assert(r@.data =~= Seq::new(num_data as nat, |i: int| None::<Seq<u8>>));
        assert(r@.parity =~= Seq::new(num_parity as nat, |i: int| None::<Seq<u8>>));
        assert(r@.seen =~= Seq::<ShredKey>::empty());
        assert(r@ == empty_view(num_data, num_parity));
        proof {
            lemma_all_absent(r@.data);
            lemma_all_absent(r@.parity);
        }
        r
    }
}


impl FecSetState {
    /// Whether a fragment equal to `c` was received already.
    pub fn contains(&self, c: &ComparableShred) -> (r: bool)
        ensures
            r == self@.seen.contains(c@),
    {
        let mut i: usize = 0;
        while i < self.seen.len()
            invariant
                i <= self.seen@.len(),
                forall|k: int| 0 <= k < i ==> self.seen@[k]@ != c@,
            decreases self.seen@.len() - i,
        {
            if self.seen[i].same_as(c) {
                assert(self@.seen[i as int] == c@);
                return true;
            }
            i = i + 1;
        }
        assert(!self@.seen.contains(c@)) by {
            if self@.seen.contains(c@) {
                let k = choose|k: int| 0 <= k < self@.seen.len() && self@.seen[k] == c@;
                assert(self.seen@[k]@ == c@);
            }
        }
        false
    }

    /// Records one arrival. Returns whether the fragment was new; a fragment
    /// received before leaves the set unchanged.
    pub fn insert(&mut self, s: &Shred) -> (fresh: bool)
        requires
            old(self).well_formed(),
            old(self).fits(s),
        ensures
            final(self).well_formed(),
            final(self).num_data == old(self).num_data,
            final(self).num_parity == old(self).num_parity,
            fresh == !old(self)@.seen.contains(shred_key(s)),
            !fresh ==> *final(self) == *old(self),
            final(self)@ == absorb(old(self)@, shred_key(s)),
    {
        let c = ComparableShred::new(s);
        if self.contains(&c) {
            return false;
        }
        let ghost v0 = self@;
        let idx = s.index as usize;
        self.seen.push(c);
        assert(self@.seen =~= v0.seen.push(shred_key(s)));
        match s.kind {
            ShredKind::Data => {
                if self.data[idx].is_none() {
                    proof {
                        lemma_present_count_update(v0.data, idx as int, s.payload@);
                        lemma_present_count_bound(v0.data.update(idx as int, Some(s.payload@)));
                    }
                    self.data.set(idx, Some(copy_bytes(&s.payload)));
                    self.n_data = self.n_data + 1;
                    assert(self@.data =~= v0.data.update(idx as int, Some(s.payload@)));
                }
            },
            ShredKind::Parity => {
                if self.parity[idx].is_none() {
                    proof {
                        lemma_present_count_update(v0.parity, idx as int, s.payload@);
                        lemma_present_count_bound(v0.parity.update(idx as int, Some(s.payload@)));
                    }
                    self.parity.set(idx, Some(copy_bytes(&s.payload)));
                    self.n_parity = self.n_parity + 1;
                    assert(self@.parity =~= v0.parity.update(idx as int, Some(s.payload@)));
                }
            },
        }
        assert(self@ == absorb(v0, shred_key(s)));
        true
    }
}


/// Total distinct fragment indices present in a set.
pub open spec fn fragment_count(v: FecView) -> nat {
    present_count(v.data) + present_count(v.parity)
}

/// Fragments in decoder order: data indices first, then parity.
pub open spec fn decoder_input(v: FecView) -> Seq<Option<Seq<u8>>> {
    v.data + v.parity
}

pub fn append_bytes(out: &mut Vec<u8>, b: &Vec<u8>)
    ensures
        final(out)@ == old(out)@ + b@,
{
    let mut i: usize = 0;
    while i < b.len()
        invariant
            i <= b@.len(),
            out@ == old(out)@ + b@.take(i as int),
        decreases b@.len() - i,
    {
        out.push(b[i]);
        i = i + 1;
        assert(out@ =~= old(out)@ + b@.take(i as int));
    }
    assert(b@.take(b@.len() as int) =~= b@);
}

proof fn lemma_joined_step(s: Seq<Option<Seq<u8>>>, i: int)
    requires
        0 <= i < s.len(),
    ensures
        joined(s.take(i + 1)) == joined(s.take(i)) + s[i]->Some_0,
{
    let f = |o: Option<Seq<u8>>| o->Some_0;
    assert(s.take(i + 1).map_values(f) =~= s.take(i).map_values(f).push(s[i]->Some_0));
    s.take(i).map_values(f).lemma_flatten_push(s[i]->Some_0);
}

/// Concatenates the first `n` fragments, all of which are present.
fn join_present(s: &Vec<Option<Vec<u8>>>, n: usize) -> (r: Vec<u8>)
    requires
        n <= s@.len(),
        all_present(shards_view(s@).take(n as int)),
    ensures
        r@ == joined(shards_view(s@).take(n as int)),
{
    let ghost sv = shards_view(s@);
    let mut out: Vec<u8> = Vec::new();
    let mut i: usize = 0;
    assert(sv.take(0).map_values(|o: Option<Seq<u8>>| o->Some_0) =~= Seq::<Seq<u8>>::empty());
    assert(Seq::<Seq<u8>>::empty().flatten() =~= Seq::<u8>::empty());
    while i < n
        invariant
            n <= s@.len(),
            sv == shards_view(s@),
            all_present(sv.take(n as int)),
            i <= n,
            out@ == joined(sv.take(i as int)),
        decreases n - i,
    {
        assert(sv.take(n as int)[i as int] is Some);
        proof {
            lemma_joined_step(sv, i as int);
        }
        match &s[i] {
            Some(b) => append_bytes(&mut out, b),
            None => {},
        }
        i = i + 1;
    }
    out
}

/// Copies the fragments into a fresh list, appending them to `out`.
fn copy_shards(out: &mut Vec<Option<Vec<u8>>>, s: &Vec<Option<Vec<u8>>>)
    ensures
        shards_view(final(out)@) == shards_view(old(out)@) + shards_view(s@),
{
    let mut i: usize = 0;
    while i < s.len()
        invariant
            i <= s@.len(),
            shards_view(out@) == shards_view(old(out)@) + shards_view(s@).take(i as int),
        decreases s@.len() - i,
    {
        let item = match &s[i] {
            Some(b) => Some(copy_bytes(b)),
            None => None,
        };
        let ghost before = out@;
        assert(shards_view(seq![item])[0] == shards_view(s@)[i as int]);
        out.push(item);
        assert(shards_view(out@) =~= shards_view(before).push(shards_view(seq![item])[0]));
        assert(shards_view(out@) =~= shards_view(old(out)@) + shards_view(s@).take(i + 1));
        i = i + 1;
    }
    assert(shards_view(s@).take(s@.len() as int) =~= shards_view(s@));
}

impl FecSetState {
    /// Decodes the set if enough fragments are present and it is not decoded yet.
    pub fn try_decode(&mut self) -> (r: DecodeOutcome)
        requires
            old(self).well_formed(),
        ensures
            final(self).well_formed(),
            final(self).num_data == old(self).num_data,
            final(self).num_parity == old(self).num_parity,
            r == decode_outcome(old(self)@, old(self).num_data, old(self).num_parity),
            final(self)@ == decoded_after(old(self)@, old(self).num_data, old(self).num_parity),
    {
        if self.decoded.is_some() {
            return DecodeOutcome::AlreadyDecoded;
        }
        let ghost v0 = self@;
        proof {
            lemma_present_count_bound(v0.data);
            lemma_present_count_bound(v0.parity);
        }
        let d = self.num_data as usize;
        if self.n_data == d {
            assert(v0.data.take(d as int) =~= v0.data);
            let bytes = join_present(&self.data, d);
            self.decoded = Some(bytes);
            return DecodeOutcome::Decoded;
        }
        assert(!all_present(v0.data)) by {
            if all_present(v0.data) {
                lemma_all_present_count(v0.data);
            }
        }
        if self.n_data + self.n_parity < d {
            return DecodeOutcome::Pending;
        }
        let mut shards: Vec<Option<Vec<u8>>> = Vec::new();
        copy_shards(&mut shards, &self.data);
        copy_shards(&mut shards, &self.parity);
        assert(shards_view(shards@) =~= decoder_input(v0));
        match reconstruct_data_shards(d, self.num_parity as usize, shards) {
            Ok(full) => {
                let ghost fv = shards_view(full@);
                assert forall|i: int| 0 <= i < d implies (#[trigger] fv.take(d as int)[i]) is Some by {
                    assert(full@[i] is Some);
                }
                let bytes = join_present(&full, d);
                self.decoded = Some(bytes);
                DecodeOutcome::Decoded
            },
            Err(_) => DecodeOutcome::Failed,
        }
    }
}

proof fn lemma_all_present_count(s: Seq<Option<Seq<u8>>>)
    requires
        all_present(s),
    ensures
        present_count(s) == s.len(),
    decreases s.len(),
{
    if s.len() > 0 {
        assert(all_present(s.drop_last())) by {
            assert forall|i: int| 0 <= i < s.len() - 1 implies (#[trigger] s.drop_last()[i]) is Some by {
                assert(s[i] is Some);
            }
        }
        lemma_all_present_count(s.drop_last());
        assert(s[s.len() - 1] is Some);
    }
}

proof fn lemma_all_absent(s: Seq<Option<Seq<u8>>>)
    requires
        forall|i: int| 0 <= i < s.len() ==> (#[trigger] s[i]) is None,
    ensures
        present_count(s) == 0,
    decreases s.len(),
{
    if s.len() > 0 {
        lemma_all_absent(s.drop_last());
    }
}


proof fn lemma_present_count_concat(a: Seq<Option<Seq<u8>>>, b: Seq<Option<Seq<u8>>>)
    ensures
        present_count(a + b) == present_count(a) + present_count(b),
    decreases b.len(),
{
    if b.len() > 0 {
        assert((a + b).drop_last() =~= a + b.drop_last());
        lemma_present_count_concat(a, b.drop_last());
    } else {
        assert(a + b =~= a);
    }
}

/// A FEC set of `D` data fragments whose distinct fragments, data and parity
/// together, number at least `D` and agree in length is one the decoder
/// recovers; one with fewer than `D` is left pending by `try_decode`.
pub proof fn lemma_decode_threshold(v: FecView, num_data: nat)
    ensures
        fragment_count(v) >= num_data && lengths_consistent(decoder_input(v)) ==> recoverable(
            decoder_input(v),
            num_data,
        ),
        fragment_count(v) < num_data ==> !recoverable(decoder_input(v), num_data),
{
    lemma_present_count_concat(v.data, v.parity);
}

} // verus!
