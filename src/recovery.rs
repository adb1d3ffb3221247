//! Erasure-code recovery of missing data fragments of one FEC set.
use vstd::prelude::*;

verus! {

#[verifier::external_type_specification]
#[verifier::external_body]
pub struct ExReedSolomonError(reed_solomon_erasure::Error);

/// Fragments of one FEC set as plain byte sequences, `None` where absent.
pub open spec fn shards_view(s: Seq<Option<Vec<u8>>>) -> Seq<Option<Seq<u8>>> {
    s.map_values(|o: Option<Vec<u8>>| match o {
        Some(v) => Some(v@),
        None => None,
    })
}

/// Number of fragments that are present.
pub open spec fn present_count(s: Seq<Option<Seq<u8>>>) -> nat
    decreases s.len(),
{
    if s.len() == 0 {
        0
    } else {
        present_count(s.drop_last()) + if s.last() is Some { 1nat } else { 0nat }
    }
}

/// Every present fragment is non-empty and all have the same length.
pub open spec fn lengths_consistent(s: Seq<Option<Seq<u8>>>) -> bool {
    forall|i: int, j: int|
        0 <= i < s.len() && 0 <= j < s.len() && s[i] is Some && s[j] is Some ==> {
            &&& s[i]->Some_0.len() > 0
            &&& s[i]->Some_0.len() == s[j]->Some_0.len()
        }
}

/// Which input the Reed-Solomon decoder can recover: enough fragments, of one length.
pub open spec fn recoverable(s: Seq<Option<Seq<u8>>>, num_data: nat) -> bool {
    present_count(s) >= num_data && lengths_consistent(s)
}

/// The fragments after a Reed-Solomon (GF(2^8)) reconstruction of the data
/// fragments of a set of shape `num_data` + `num_parity`.
pub uninterp spec fn rs_reconstructed(
    shards: Seq<Option<Seq<u8>>>,
    num_data: nat,
    num_parity: nat,
) -> Seq<Option<Seq<u8>>>;

/// Relies on reed_solomon_erasure's `galois_8::ReedSolomon::new`, which accepts
/// any shape with at least one data and one parity shard and at most 256 in
/// all, and on its `reconstruct_data`: it fails, touching nothing, when a
/// present shard is empty, when two present shards differ in length, or when
/// fewer than `num_data` are present; otherwise it fills every missing data
/// shard and leaves the present ones as they were.
#[verifier::external_body]
pub(crate) fn reconstruct_data_shards(
    num_data: usize,
    num_parity: usize,
    shards: Vec<Option<Vec<u8>>>,
) -> (r: Result<Vec<Option<Vec<u8>>>, reed_solomon_erasure::Error>)
    requires
        1 <= num_data,
        1 <= num_parity,
        num_data + num_parity <= 256,
        shards@.len() == num_data + num_parity,
    ensures
        r is Ok <==> recoverable(shards_view(shards@), num_data as nat),
        r is Ok ==> shards_view(r->Ok_0@) == rs_reconstructed(
            shards_view(shards@),
            num_data as nat,
            num_parity as nat,
        ),
        r is Ok ==> r->Ok_0@.len() == shards@.len(),
        r is Ok ==> forall|i: int| 0 <= i < num_data ==> (#[trigger] r->Ok_0@[i]) is Some,
        r is Ok ==> forall|i: int|
            0 <= i < shards@.len() && (#[trigger] shards@[i]) is Some ==> r->Ok_0@[i] == shards@[i],
{
    let mut shards = shards;
    let codec = reed_solomon_erasure::galois_8::ReedSolomon::new(num_data, num_parity)?;
    codec.reconstruct_data(&mut shards)?;
    Ok(shards)
}

} // verus!
