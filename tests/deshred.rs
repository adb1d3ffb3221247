use jito_shredstream_proxy::engine::PacketFate;
use jito_shredstream_proxy::entries::extract_entries;
use jito_shredstream_proxy::fec::{ComparableShred, DecodeOutcome, FecSetState};
use std::collections::HashSet;
use jito_shredstream_proxy::tracker::ShredTracker;
use jito_shredstream_proxy::wire::{parse_shred, ParseError, ShredKind, HEADER_LEN};

fn packet(
    slot: u64,
    fec: u32,
    index: u32,
    parity: bool,
    last: bool,
    num_data: u16,
    num_parity: u16,
    payload: &[u8],
) -> Vec<u8> {
    let mut p = Vec::new();
    p.extend_from_slice(&slot.to_le_bytes());
    p.extend_from_slice(&fec.to_le_bytes());
    p.extend_from_slice(&index.to_le_bytes());
    p.push(if parity { 1 } else { 0 });
    p.push(if last { 1 } else { 0 });
    p.extend_from_slice(&num_data.to_le_bytes());
    p.extend_from_slice(&num_parity.to_le_bytes());
    p.extend_from_slice(payload);
    p
}

fn framed(body: &[u8]) -> Vec<u8> {
    let mut v = (body.len() as u32).to_le_bytes().to_vec();
    v.extend_from_slice(body);
    v
}

/// Splits `stream` into `d` equal data shards and computes `p` parity shards.
fn encode(stream: &[u8], d: usize, p: usize) -> Vec<Vec<u8>> {
    assert_eq!(stream.len() % d, 0);
    let len = stream.len() / d;
    let mut shards: Vec<Vec<u8>> = stream.chunks(len).map(|c| c.to_vec()).collect();
    for _ in 0..p {
        shards.push(vec![0u8; len]);
    }
    let rs = reed_solomon_erasure::galois_8::ReedSolomon::new(d, p).unwrap();
    rs.encode(&mut shards).unwrap();
    shards
}

fn two_entries() -> (Vec<u8>, Vec<u8>, Vec<u8>) {
    let e1: Vec<u8> = (1..=12).collect();
    let e2: Vec<u8> = (101..=112).collect();
    let mut stream = framed(&e1);
    stream.extend(framed(&e2));
    (e1, e2, stream)
}

#[test]
fn parse_reads_every_header_field() {
    let p = packet(0x0102030405060708, 7, 3, false, true, 4, 2, &[9, 8, 7]);
    let s = parse_shred(&p).unwrap();
    assert_eq!(s.slot, 0x0102030405060708);
    assert_eq!(s.fec_set_index, 7);
    assert_eq!(s.index, 3);
    assert_eq!(s.kind, ShredKind::Data);
    assert!(s.last_in_slot);
    assert_eq!(s.num_data, 4);
    assert_eq!(s.num_parity, 2);
    assert_eq!(s.payload, vec![9, 8, 7]);
}

#[test]
fn parse_rejects_short_and_bad_packets() {
    assert_eq!(parse_shred(&vec![1, 2, 3]).err(), Some(ParseError::MalformedShred));
    let header_only = packet(1, 0, 0, false, false, 4, 2, &[]);
    assert_eq!(header_only.len(), HEADER_LEN);
    assert_eq!(parse_shred(&header_only).err(), Some(ParseError::MalformedShred));
    let mut bad_kind = packet(1, 0, 0, false, false, 4, 2, &[1]);
    bad_kind[16] = 7;
    assert_eq!(parse_shred(&bad_kind).err(), Some(ParseError::MalformedShred));
    let out_of_range = packet(1, 0, 2, true, false, 4, 2, &[1]);
    assert_eq!(parse_shred(&out_of_range).err(), Some(ParseError::MalformedShred));
}

#[test]
fn parse_rejects_unknown_shapes() {
    assert_eq!(parse_shred(&packet(1, 0, 0, false, false, 0, 2, &[1])).err(), Some(ParseError::UnknownShape));
    assert_eq!(parse_shred(&packet(1, 0, 0, false, false, 33, 2, &[1])).err(), Some(ParseError::UnknownShape));
    assert_eq!(parse_shred(&packet(1, 0, 0, false, false, 4, 33, &[1])).err(), Some(ParseError::UnknownShape));
}

#[test]
fn short_packet_is_counted_and_not_forwarded() {
    let mut t = ShredTracker::new(10);
    let out = t.reconstruct(&vec![vec![1, 2, 3]]);
    assert_eq!(t.metrics.malformed_shreds_dropped, 1);
    assert!(out.forward.is_empty());
    assert!(out.entries.is_empty());
    assert!(t.slots.is_empty());
}

#[test]
fn recovers_missing_data_and_suppresses_later_duplicate() {
    let (e1, e2, stream) = two_entries();
    let shards = encode(&stream, 4, 2);
    let d0 = packet(10, 0, 0, false, false, 4, 2, &shards[0]);
    let batch = vec![
        d0.clone(),
        packet(10, 0, 1, false, false, 4, 2, &shards[1]),
        packet(10, 0, 0, true, false, 4, 2, &shards[4]),
        packet(10, 0, 1, true, false, 4, 2, &shards[5]),
    ];
    let mut t = ShredTracker::new(10);
    let out = t.reconstruct(&batch);
    assert_eq!(t.metrics.fec_sets_recovered, 1);
    assert_eq!(out.forward, batch);
    assert_eq!(out.entries.len(), 1);
    assert_eq!(out.entries[0].slot, 10);
    assert_eq!(out.entries[0].entries, vec![e1, e2]);
    assert_eq!(t.metrics.entries_decoded, 2);

    let again = t.reconstruct(&vec![d0]);
    assert_eq!(t.metrics.duplicate_shreds_dropped, 1);
    assert!(again.entries.is_empty());
    assert!(again.forward.is_empty());
    assert_eq!(t.metrics.fec_sets_recovered, 1);
}

#[test]
fn same_fragment_many_times_counts_duplicates() {
    let (_, _, stream) = two_entries();
    let shards = encode(&stream, 4, 2);
    let p = packet(3, 0, 2, false, false, 4, 2, &shards[2]);
    let mut t = ShredTracker::new(10);
    let out = t.reconstruct(&vec![p.clone(), p.clone(), p.clone(), p.clone()]);
    assert_eq!(t.metrics.duplicate_shreds_dropped, 3);
    assert_eq!(out.forward, vec![p]);
    assert_eq!(t.metrics.packets_forwarded, 1);
}

#[test]
fn one_fragment_short_of_threshold_stays_pending() {
    let (_, _, stream) = two_entries();
    let shards = encode(&stream, 4, 2);
    let mut t = ShredTracker::new(10);
    let out = t.reconstruct(&vec![
        packet(5, 0, 0, false, false, 4, 2, &shards[0]),
        packet(5, 0, 3, false, false, 4, 2, &shards[3]),
        packet(5, 0, 1, true, false, 4, 2, &shards[5]),
    ]);
    assert!(out.entries.is_empty());
    assert_eq!(t.metrics.fec_sets_recovered, 0);
    assert_eq!(t.metrics.fec_set_decode_failures, 0);
    assert!(t.slots[0].1.fec_sets[0].1.decoded.is_none());
}

#[test]
fn any_four_of_six_fragments_decode_identically() {
    let (_, _, stream) = two_entries();
    let shards = encode(&stream, 4, 2);
    for skip_a in 0..6usize {
        for skip_b in (skip_a + 1)..6usize {
            let mut st = FecSetState::new(4, 2);
            for i in 0..6usize {
                if i == skip_a || i == skip_b {
                    continue;
                }
                let (parity, idx) = if i < 4 { (false, i) } else { (true, i - 4) };
                let s = parse_shred(&packet(1, 0, idx as u32, parity, false, 4, 2, &shards[i])).unwrap();
                assert!(st.insert(&s));
            }
            assert_eq!(st.try_decode(), DecodeOutcome::Decoded);
            assert_eq!(st.decoded.as_ref().unwrap(), &stream);
            assert_eq!(st.try_decode(), DecodeOutcome::AlreadyDecoded);
        }
    }
}

#[test]
fn conflicting_lengths_fail_and_leave_the_set_pending() {
    let mut st = FecSetState::new(2, 2);
    for (idx, parity, payload) in [(0u32, false, vec![1u8, 2]), (0, true, vec![3u8, 4, 5])] {
        let s = parse_shred(&packet(1, 0, idx, parity, false, 2, 2, &payload)).unwrap();
        st.insert(&s);
    }
    assert_eq!(st.try_decode(), DecodeOutcome::Failed);
    assert!(st.decoded.is_none());
}

#[test]
fn reverse_batches_give_the_same_entries_as_one_forward_batch() {
    let a: Vec<u8> = (0..8).collect();
    let b: Vec<u8> = (20..28).collect();
    let c: Vec<u8> = (40..42).collect();
    let mut stream = framed(&a);
    stream.extend(framed(&b));
    stream.extend(framed(&c));
    assert_eq!(stream.len(), 30);
    let chunks: Vec<Vec<u8>> = stream.chunks(15).map(|c| c.to_vec()).collect();
    let set0 = encode(&chunks[0], 3, 1);
    let set1 = encode(&chunks[1], 3, 1);
    let pk = |fec: u32, shards: &Vec<Vec<u8>>, i: usize| packet(7, fec, i as u32, false, false, 3, 1, &shards[i]);

    let mut forward_tracker = ShredTracker::new(10);
    let mut all = Vec::new();
    for i in 0..3 {
        all.push(pk(0, &set0, i));
    }
    for i in 0..3 {
        all.push(pk(3, &set1, i));
    }
    let whole = forward_tracker.reconstruct(&all);
    let whole_entries: Vec<Vec<u8>> = whole.entries.iter().flat_map(|s| s.entries.clone()).collect();
    assert_eq!(whole_entries, vec![a.clone(), b.clone(), c.clone()]);

    let mut reverse_tracker = ShredTracker::new(10);
    let mut got: Vec<Vec<u8>> = Vec::new();
    for fec in [3u32, 0] {
        let shards = if fec == 3 { &set1 } else { &set0 };
        let batch: Vec<Vec<u8>> = (0..3).rev().map(|i| pk(fec, shards, i)).collect();
        let out = reverse_tracker.reconstruct(&batch);
        if fec == 3 {
            assert!(out.entries.is_empty());
        }
        for s in out.entries {
            got.extend(s.entries);
        }
    }
    assert_eq!(got, whole_entries);
}

#[test]
fn evicted_slot_is_not_resurrected() {
    let mut t = ShredTracker::new(5);
    let p10 = packet(10, 0, 0, false, false, 2, 0, &[1, 2]);
    let p100 = packet(100, 0, 0, false, false, 2, 0, &[1, 2]);
    t.reconstruct(&vec![p10.clone()]);
    assert_eq!(t.slots.len(), 1);
    t.reconstruct(&vec![p100]);
    assert_eq!(t.highest_slot, 100);
    assert_eq!(t.metrics.slots_evicted, 1);
    assert!(t.slots.iter().all(|s| s.0 >= 95));
    let out = t.reconstruct(&vec![p10]);
    assert_eq!(t.metrics.late_shreds_dropped, 1);
    assert!(out.forward.is_empty());
    assert!(t.slots.iter().all(|s| s.0 != 10));
}

#[test]
fn zero_window_keeps_the_highest_slot() {
    let mut t = ShredTracker::new(0);
    t.reconstruct(&vec![
        packet(4, 0, 0, false, false, 2, 0, &[1]),
        packet(9, 0, 0, false, false, 2, 0, &[1]),
    ]);
    assert_eq!(t.slots.len(), 1);
    assert_eq!(t.slots[0].0, 9);
    assert_eq!(t.evict(3), 0);
    assert_eq!(t.highest_slot, 9);
}

#[test]
fn shape_mismatch_is_counted_as_malformed() {
    let mut t = ShredTracker::new(10);
    let first = packet(2, 0, 0, false, false, 2, 1, &[1, 2]);
    let other = packet(2, 0, 1, false, false, 3, 1, &[3, 4]);
    assert_eq!(t.absorb_packet(&first).0, PacketFate::Fresh);
    assert_eq!(t.absorb_packet(&other).0, PacketFate::Malformed);
    assert_eq!(t.metrics.malformed_shreds_dropped, 1);
}

#[test]
fn entries_wait_for_their_full_length() {
    let mut buf = framed(&[1, 2, 3]);
    buf.extend_from_slice(&[5, 0, 0, 0, 9]);
    let got = extract_entries(&mut buf);
    assert_eq!(got, vec![vec![1, 2, 3]]);
    assert_eq!(buf, vec![5, 0, 0, 0, 9]);
    let mut short = vec![1, 0];
    assert!(extract_entries(&mut short).is_empty());
    assert_eq!(short, vec![1, 0]);
}

#[test]
fn retransmitted_fragment_is_equal_and_hashes_alike() {
    let a = ComparableShred::new(&parse_shred(&packet(4, 0, 1, false, false, 2, 1, &[7, 7])).unwrap());
    let b = ComparableShred::new(&parse_shred(&packet(4, 0, 1, false, false, 2, 1, &[7, 7])).unwrap());
    let c = ComparableShred::new(&parse_shred(&packet(4, 0, 1, false, false, 2, 1, &[7, 8])).unwrap());
    assert!(a == b);
    assert!(a != c);
    let set: HashSet<ComparableShred> = vec![a, b, c].into_iter().collect();
    assert_eq!(set.len(), 2);
}

#[test]
fn fates_report_each_packet_in_order() {
    let mut t = ShredTracker::new(5);
    t.reconstruct(&vec![packet(100, 0, 0, false, false, 2, 0, &[1])]);
    let p = packet(100, 0, 1, false, false, 2, 0, &[2]);
    let out = t.reconstruct(&vec![
        vec![0u8; 3],
        packet(10, 0, 0, false, false, 2, 0, &[1]),
        p.clone(),
        p.clone(),
        packet(100, 0, 0, false, false, 3, 0, &[1]),
    ]);
    assert_eq!(
        out.fates,
        vec![PacketFate::Malformed, PacketFate::Late, PacketFate::Fresh, PacketFate::Duplicate, PacketFate::Malformed]
    );
    assert_eq!(out.forward, vec![p]);
    assert_eq!(t.metrics.malformed_shreds_dropped, 2);
    assert_eq!(t.metrics.late_shreds_dropped, 1);
    assert_eq!(t.metrics.duplicate_shreds_dropped, 1);
}

#[test]
fn failed_set_is_counted_once_per_batch() {
    let mut t = ShredTracker::new(10);
    let out = t.reconstruct(&vec![
        packet(6, 0, 0, false, false, 2, 2, &[1, 2]),
        packet(6, 0, 0, true, false, 2, 2, &[3, 4, 5]),
        packet(6, 0, 1, true, false, 2, 2, &[6, 7, 8]),
    ]);
    assert_eq!(out.forward.len(), 3);
    assert_eq!(t.metrics.fec_set_decode_failures, 1);
    assert_eq!(t.metrics.fec_sets_recovered, 0);
    assert!(out.entries.is_empty());
}
