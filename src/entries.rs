//! Framing of ledger entries inside a slot's decoded byte stream: each entry
//! is a 4-byte little-endian length followed by that many bytes.
use vstd::prelude::*;
use crate::wire::{field, read_le};

verus! {

broadcast use vstd::seq_lib::group_seq_properties;

/// Splits a byte stream into its complete entries and the unfinished rest.
pub open spec fn split_entries(s: Seq<u8>) -> (Seq<Seq<u8>>, Seq<u8>)
    decreases s.len(),
{
    if s.len() < 4 {
        (Seq::empty(), s)
    } else {
        let n = field(s, 0, 4) as int;
        if s.len() < 4 + n {
            (Seq::empty(), s)
        } else {
            let (es, rest) = split_entries(s.subrange(4 + n, s.len() as int));
            (seq![s.subrange(4, 4 + n)] + es, rest)
        }
    }
}

/// An unfinished rest stays unfinished until bytes after it arrive; bytes
/// appended to a stream only extend the rest and the entries after it.
pub proof fn lemma_split_append(a: Seq<u8>, b: Seq<u8>)
    ensures
        split_entries(a + b).0 == split_entries(a).0 + split_entries(split_entries(a).1 + b).0,
        split_entries(a + b).1 == split_entries(split_entries(a).1 + b).1,
    decreases a.len(),
{
    if a.len() >= 4 {
        let n = field(a, 0, 4) as int;
        assert((a + b).subrange(0, 4) =~= a.subrange(0, 4));
        if a.len() >= 4 + n {
            let a2 = a.subrange(4 + n, a.len() as int);
            assert((a + b).subrange(4 + n, (a + b).len() as int) =~= a2 + b);
            assert((a + b).subrange(4, 4 + n) =~= a.subrange(4, 4 + n));
            lemma_split_append(a2, b);
            assert(split_entries(a + b).0 =~= split_entries(a).0 + split_entries(
                split_entries(a).1 + b,
            ).0);
        }
    }
}

/// Delivering a byte stream in two pieces, carrying the unfinished rest over,
/// yields the same entries, in the same order, as delivering it whole.
pub proof fn lemma_pieces_match_whole(a: Seq<u8>, b: Seq<u8>)
    ensures
        split_entries(a).0 + split_entries(split_entries(a).1 + b).0 == split_entries(a + b).0,
        split_entries(split_entries(a).1 + b).1 == split_entries(a + b).1,
{
    lemma_split_append(a, b);
}

/// Removes every complete entry from the front of `buf`; what is left is the
/// unfinished rest.
pub fn extract_entries(buf: &mut Vec<u8>) -> (r: Vec<Vec<u8>>)
    ensures
        r@.map_values(|e: Vec<u8>| e@) == split_entries(old(buf)@).0,
        final(buf)@ == split_entries(old(buf)@).1,
{
    let ghost whole = buf@;
    let mut out: Vec<Vec<u8>> = Vec::new();
    let mut pos: usize = 0;
    let len = buf.len();
    assert(whole.subrange(0, len as int) =~= whole);
    assert(out@.map_values(|e: Vec<u8>| e@) =~= Seq::<Seq<u8>>::empty());
    loop
        invariant
            buf@ == whole,
            len == whole.len(),
            pos <= len,
            split_entries(whole).0 == out@.map_values(|e: Vec<u8>| e@) + split_entries(
                whole.subrange(pos as int, len as int),
            ).0,
            split_entries(whole).1 == split_entries(whole.subrange(pos as int, len as int)).1,
        ensures
            pos <= len,
            split_entries(whole.subrange(pos as int, len as int)) == (
                Seq::<Seq<u8>>::empty(),
                whole.subrange(pos as int, len as int),
            ),
        decreases len - pos,
    {
        let ghost cur = whole.subrange(pos as int, len as int);
        if len - pos < 4 {
            break;
        }
        let n = read_le(buf, pos, 4);
        assert(cur.subrange(0, 4) =~= whole.subrange(pos as int, pos + 4));
        if ((len - pos - 4) as u64) < n {
            break;
        }
        let stop = pos + 4 + n as usize;
        let mut e: Vec<u8> = Vec::new();
        let mut i: usize = pos + 4;
        while i < stop
            invariant
                buf@ == whole,
                pos + 4 <= i <= stop <= len == whole.len(),
                e@ == whole.subrange(pos + 4, i as int),
            decreases stop - i,
        {
            e.push(buf[i]);
            i = i + 1;
            assert(e@ =~= whole.subrange(pos + 4, i as int));
        }
        assert(cur.subrange(4, 4 + n as int) =~= e@);
        assert(cur.subrange(4 + n as int, cur.len() as int) =~= whole.subrange(stop as int, len as int));
        let ghost prev = out@;
        out.push(e);
        assert(out@.map_values(|e: Vec<u8>| e@) =~= prev.map_values(|e: Vec<u8>| e@).push(
            cur.subrange(4, 4 + n as int),
        ));
        pos = stop;
    }
    let mut rest: Vec<u8> = Vec::new();
    let mut j: usize = pos;
    while j < len
        invariant
            buf@ == whole,
            pos <= j <= len == whole.len(),
            rest@ == whole.subrange(pos as int, j as int),
        decreases len - j,
    {
        rest.push(buf[j]);
        j = j + 1;
        assert(rest@ =~= whole.subrange(pos as int, j as int));
    }
    assert(out@.map_values(|e: Vec<u8>| e@) + Seq::<Seq<u8>>::empty() =~= out@.map_values(
        |e: Vec<u8>| e@,
    ));
    *buf = rest;
    out
}

} // verus!
