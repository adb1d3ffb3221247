//! Binary layout of one shred packet and its parser.
//!
//! A packet is a fixed header followed by the fragment's payload:
//!
//! | bytes   | field                                   |
//! |---------|-----------------------------------------|
//! | 0..8    | slot, little endian                     |
//! | 8..12   | FEC-set index, little endian            |
//! | 12..16  | fragment index within the set           |
//! | 16      | kind: 0 data, 1 parity                  |
//! | 17      | flags: 0 none, 1 last fragment of slot  |
//! | 18..20  | data fragments in the set               |
//! | 20..22  | parity fragments in the set             |
//! | 22..    | payload, at least one byte              |
use vstd::prelude::*;

verus! {

pub const HEADER_LEN: usize = 22;

/// Largest number of data fragments a FEC set may declare.
pub const MAX_DATA_SHREDS: u16 = 32;

/// Largest number of parity fragments a FEC set may declare.
pub const MAX_PARITY_SHREDS: u16 = 32;

#[derive(Debug, Clone, Copy, PartialEq, Eq, Hash, Structural)]
pub enum ShredKind {
    Data,
    Parity,
}

#[derive(Debug, Clone, Copy, PartialEq, Eq, Structural)]
pub enum ParseError {
    /// Too short, or a header field holds a value the layout does not allow.
    MalformedShred,
    /// The declared data/parity counts are outside the configured bounds.
    UnknownShape,
}

/// One fragment of a slot's data, as read off the wire.
#[derive(Debug, Clone)]
pub struct Shred {
    pub slot: u64,
    pub fec_set_index: u32,
    pub index: u32,
    pub kind: ShredKind,
    pub last_in_slot: bool,
    pub num_data: u16,
    pub num_parity: u16,
    pub payload: Vec<u8>,
}

pub open spec fn pow256(k: nat) -> nat
    decreases k,
{
    if k == 0 { 1 } else { 256 * pow256((k - 1) as nat) }
}

/// Little-endian value of a byte sequence.
pub open spec fn le_val(s: Seq<u8>) -> nat
    decreases s.len(),
{
    if s.len() == 0 { 0 } else { s[0] as nat + 256 * le_val(s.subrange(1, s.len() as int)) }
}

pub open spec fn field(b: Seq<u8>, start: int, n: int) -> nat {
    le_val(b.subrange(start, start + n))
}

pub open spec fn slot_of(b: Seq<u8>) -> nat { field(b, 0, 8) }
pub open spec fn fec_index_of(b: Seq<u8>) -> nat { field(b, 8, 4) }
pub open spec fn index_of(b: Seq<u8>) -> nat { field(b, 12, 4) }
pub open spec fn num_data_of(b: Seq<u8>) -> nat { field(b, 18, 2) }
pub open spec fn num_parity_of(b: Seq<u8>) -> nat { field(b, 20, 2) }

/// Length, kind byte and flag byte are acceptable.
pub open spec fn frame_ok(b: Seq<u8>) -> bool {
    &&& b.len() > HEADER_LEN
    &&& b[16] <= 1
    &&& b[17] <= 1
}

/// The declared shape is within the configured bounds.
pub open spec fn shape_ok(b: Seq<u8>) -> bool {
    &&& 1 <= num_data_of(b) <= MAX_DATA_SHREDS
    &&& num_parity_of(b) <= MAX_PARITY_SHREDS
}

/// The fragment index lies inside the part of the set its kind names.
pub open spec fn index_ok(b: Seq<u8>) -> bool {
    if b[16] == 0 { index_of(b) < num_data_of(b) } else { index_of(b) < num_parity_of(b) }
}

impl Shred {
    /// The shred's fields are exactly those the packet `b` encodes.
    pub open spec fn decodes(&self, b: Seq<u8>) -> bool {
        &&& self.slot as nat == slot_of(b)
        &&& self.fec_set_index as nat == fec_index_of(b)
        &&& self.index as nat == index_of(b)
        &&& self.kind == (if b[16] == 0 { ShredKind::Data } else { ShredKind::Parity })
        &&& self.last_in_slot == (b[17] == 1)
        &&& self.num_data as nat == num_data_of(b)
        &&& self.num_parity as nat == num_parity_of(b)
        &&& self.payload@ == b.subrange(HEADER_LEN as int, b.len() as int)
    }

    /// Bounds every parsed shred satisfies.
    pub open spec fn well_formed(&self) -> bool {
        &&& 1 <= self.num_data <= MAX_DATA_SHREDS
        &&& self.num_parity <= MAX_PARITY_SHREDS
        &&& self.payload@.len() > 0
        &&& match self.kind {
            ShredKind::Data => self.index < self.num_data,
            ShredKind::Parity => self.index < self.num_parity,
        }
    }
}

proof fn lemma_pow256_mono(a: nat, b: nat)
    requires
        a <= b,
    ensures
        pow256(a) <= pow256(b),
    decreases b,
{
    if a < b {
        lemma_pow256_mono(a, (b - 1) as nat);
    }
}

proof fn lemma_le_val_bound(s: Seq<u8>)
    ensures
        le_val(s) < pow256(s.len()),
    decreases s.len(),
{
    if s.len() > 0 {
        let t = s.subrange(1, s.len() as int);
        lemma_le_val_bound(t);
        assert(pow256(s.len()) == 256 * pow256(t.len()));
        assert(s[0] as nat + 256 * le_val(t) < 256 * pow256(t.len())) by (nonlinear_arith)
            requires
                le_val(t) < pow256(t.len()),
                s[0] < 256,
        ;
    }
}

/// Reads the `n`-byte little-endian integer at `start`.
pub(crate) fn read_le(b: &Vec<u8>, start: usize, n: usize) -> (r: u64)
    requires
        n <= 8,
        start + n <= b@.len(),
    ensures
        r as nat == field(b@, start as int, n as int),
{
    let len = b.len();
    let mut v: u64 = 0;
    let mut i: usize = n;
    proof {
        reveal_with_fuel(pow256, 9);
        lemma_pow256_mono(n as nat, 8);
    }
    while i > 0
        invariant
            i <= n <= 8,
            start + n <= b@.len() == len,
            pow256(n as nat) <= 0x1_0000_0000_0000_0000,
            v as nat == le_val(b@.subrange(start + i, start + n)),
        decreases i,
    {
        let ghost tail = b@.subrange(start + i, start + n);
        let ghost s = b@.subrange(start + i - 1, start + n);
        assert(s.subrange(1, s.len() as int) =~= tail);
        proof {
            lemma_le_val_bound(tail);
            lemma_pow256_mono((n - i + 1) as nat, n as nat);
            assert(pow256((n - i + 1) as nat) == 256 * pow256(tail.len()));
            assert(b[start + i - 1] as nat + 256 * le_val(tail) < 256 * pow256(tail.len()))
                by (nonlinear_arith)
                requires
                    le_val(tail) < pow256(tail.len()),
                    b[start + i - 1] < 256,
            ;
        }
        v = b[start + (i - 1)] as u64 + 256 * v;
        i = i - 1;
    }
    v
}

/// Parses one packet into a shred.
pub fn parse_shred(b: &Vec<u8>) -> (r: Result<Shred, ParseError>)
    ensures
        r is Ok <==> frame_ok(b@) && shape_ok(b@) && index_ok(b@),
        r is Ok ==> r->Ok_0.decodes(b@) && r->Ok_0.well_formed(),
        r == Err::<Shred, ParseError>(ParseError::UnknownShape) <==> frame_ok(b@) && !shape_ok(b@),
        r == Err::<Shred, ParseError>(ParseError::MalformedShred) <==> !frame_ok(b@) || (shape_ok(b@)
            && !index_ok(b@)),
{
    if b.len() <= HEADER_LEN || b[16] > 1 || b[17] > 1 {
        return Err(ParseError::MalformedShred);
    }
    let slot = read_le(b, 0, 8);
    let fec_set_index = read_le(b, 8, 4);
    let index = read_le(b, 12, 4);
    let num_data = read_le(b, 18, 2);
    let num_parity = read_le(b, 20, 2);
    proof {
        reveal_with_fuel(pow256, 9);
        lemma_le_val_bound(b@.subrange(8, 12));
        lemma_le_val_bound(b@.subrange(12, 16));
        lemma_le_val_bound(b@.subrange(18, 20));
        lemma_le_val_bound(b@.subrange(20, 22));
    }
    if num_data < 1 || num_data > MAX_DATA_SHREDS as u64 || num_parity > MAX_PARITY_SHREDS as u64 {
        return Err(ParseError::UnknownShape);
    }
    let kind = if b[16] == 0 { ShredKind::Data } else { ShredKind::Parity };
    let limit = if b[16] == 0 { num_data } else { num_parity };
    if index >= limit {
        return Err(ParseError::MalformedShred);
    }
    let mut payload: Vec<u8> = Vec::new();
    let mut i: usize = HEADER_LEN;
    while i < b.len()
        invariant
            HEADER_LEN <= i <= b@.len(),
            payload@ == b@.subrange(HEADER_LEN as int, i as int),
        decreases b@.len() - i,
    {
        payload.push(b[i]);
        i = i + 1;
        assert(payload@ =~= b@.subrange(HEADER_LEN as int, i as int));
    }
    Ok(Shred {
        slot,
        fec_set_index: fec_set_index as u32,
        index: index as u32,
        kind,
        last_in_slot: b[17] == 1,
        num_data: num_data as u16,
        num_parity: num_parity as u16,
        payload,
    })
}

} // verus!
