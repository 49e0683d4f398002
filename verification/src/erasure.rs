use reed_solomon_erasure::galois_8::ReedSolomon;
use vstd::prelude::*;

verus! {

/// The error type of `reed_solomon_erasure`, carried through unread.
#[verifier::external_type_specification]
#[verifier::external_body]
pub struct ExErasureError(reed_solomon_erasure::Error);

/// Shards after `ReedSolomon::encode` (GF(2^8)) with `data_count` data shards and
/// `parity_count` parity shards has run on `shards`.
pub uninterp spec fn erasure_encoded(data_count: nat, parity_count: nat, shards: Seq<Seq<u8>>) -> Seq<Seq<u8>>;

/// Shards after `ReedSolomon::reconstruct` (GF(2^8)) with `data_count` data
/// shards and `parity_count` parity shards has filled in the missing entries of
/// `shards`.
pub uninterp spec fn erasure_reconstructed(data_count: nat, parity_count: nat, shards: Seq<Option<Seq<u8>>>) -> Seq<Seq<u8>>;

/// The shard counts that `ReedSolomon::new` over GF(2^8) accepts.
pub open spec fn codec_accepts(data_count: nat, parity_count: nat) -> bool {
    &&& data_count > 0
    &&& parity_count > 0
    &&& data_count + parity_count <= 256
}

/// A full set of shards that `encode` accepts: one per coded position, all of
/// one nonzero length.
pub open spec fn encodable(data_count: nat, parity_count: nat, shards: Seq<Seq<u8>>) -> bool {
    &&& codec_accepts(data_count, parity_count)
    &&& shards.len() == data_count + parity_count
    &&& shards[0].len() > 0
    &&& forall|i: int| 0 <= i < shards.len() ==> #[trigger] shards[i].len() == shards[0].len()
}

/// How many positions of `shards` hold a shard.
pub open spec fn present_count(shards: Seq<Option<Seq<u8>>>) -> nat
    decreases shards.len(),
{
    if shards.len() == 0 {
        0
    } else {
        present_count(shards.drop_last()) + if shards.last() is Some { 1nat } else { 0nat }
    }
}

/// The present shards of `shards` all have length `len`.
pub open spec fn present_have_len(shards: Seq<Option<Seq<u8>>>, len: nat) -> bool {
    forall|i: int| 0 <= i < shards.len() && #[trigger] shards[i] is Some ==> shards[i]->0.len() == len
}

/// A partial set of shards that `reconstruct` accepts.
pub open spec fn reconstructible(data_count: nat, parity_count: nat, shards: Seq<Option<Seq<u8>>>) -> bool {
    &&& codec_accepts(data_count, parity_count)
    &&& shards.len() == data_count + parity_count
    &&& present_count(shards) >= data_count
    &&& exists|len: nat| len > 0 && present_have_len(shards, len)
}

/// Every present shard of `partial` is the shard at the same position of `full`.
pub open spec fn agrees_with(partial: Seq<Option<Seq<u8>>>, full: Seq<Seq<u8>>) -> bool {
    &&& partial.len() == full.len()
    &&& forall|i: int| 0 <= i < partial.len() && #[trigger] partial[i] is Some ==> partial[i] == Some(full[i])
}

/// `ReedSolomon::new(data_count, parity_count)` then `encode(shards)`.
/// `new` adds the two counts unchecked, so the call is only made where the sum
/// fits in a `usize`. The source (reed-solomon-erasure 6.0.0) refuses zero data or parity shards,
/// more than 256 shards in all, a shard count other than their sum, an empty
/// first shard and shards of unequal length, and on success overwrites only the
/// parity positions. The contract claims: success exactly on `encodable`
/// shards; on success the data shards are unchanged, every shard keeps the
/// common length and the whole is named `erasure_encoded`; on failure nothing
/// is touched. It also states the erasure-code property that the crate
/// documents (its README recovers the encoded master copy with `reconstruct`
/// after removing shards): any partial copy of the encoded set that
/// `reconstruct` accepts (at least `data_count` shards present) is filled back
/// into exactly this encoded set.
#[verifier::external_body]
pub(crate) fn encode(data_count: usize, parity_count: usize, shards: &mut Vec<Vec<u8>>) -> (result: Result<(), reed_solomon_erasure::Error>)
    requires
        data_count + parity_count <= usize::MAX,
    ensures
        result is Ok <==> encodable(data_count as nat, parity_count as nat, old(shards).deep_view()),
        result is Ok ==> {
            &&& final(shards).deep_view() == erasure_encoded(data_count as nat, parity_count as nat, old(shards).deep_view())
            &&& final(shards).deep_view().len() == old(shards).deep_view().len()
            &&& forall|i: int| 0 <= i < data_count ==> #[trigger] final(shards).deep_view()[i] == old(shards).deep_view()[i]
            &&& forall|i: int| 0 <= i < final(shards).deep_view().len() ==> #[trigger] final(shards).deep_view()[i].len() == old(shards).deep_view()[0].len()
            &&& forall|partial: Seq<Option<Seq<u8>>>|
                reconstructible(data_count as nat, parity_count as nat, partial)
                && agrees_with(partial, final(shards).deep_view())
                ==> #[trigger] erasure_reconstructed(data_count as nat, parity_count as nat, partial) == final(shards).deep_view()
        },
        result is Err ==> final(shards).deep_view() == old(shards).deep_view(),
{
    ReedSolomon::new(data_count, parity_count)?.encode(shards)
}

/// `ReedSolomon::new(data_count, parity_count)` then `reconstruct(shards)`.
/// As for `encode`, the call is only made where the sum of the counts fits in
/// a `usize`. The source refuses what `new` refuses, a shard count other than
/// the sum, an empty or unequal-length present shard, and fewer than
/// `data_count` present shards; otherwise it fills every missing position with
/// a shard of the present shards' length (`get_or_initialize(shard_len)`) and
/// leaves the present ones as they were, and on failure touches nothing. The
/// contract claims those facts and names the filled set
/// `erasure_reconstructed`.
#[verifier::external_body]
pub(crate) fn reconstruct(data_count: usize, parity_count: usize, shards: &mut Vec<Option<Vec<u8>>>) -> (result: Result<(), reed_solomon_erasure::Error>)
    requires
        data_count + parity_count <= usize::MAX,
    ensures
        result is Ok <==> reconstructible(data_count as nat, parity_count as nat, old(shards).deep_view()),
        result is Ok ==> {
            &&& final(shards).deep_view().len() == old(shards).deep_view().len()
            &&& final(shards).deep_view() == erasure_reconstructed(data_count as nat, parity_count as nat, old(shards).deep_view())
                .map_values(|shard: Seq<u8>| Some(shard))
            &&& forall|i: int| 0 <= i < old(shards).deep_view().len() && #[trigger] old(shards).deep_view()[i] is Some
                ==> final(shards).deep_view()[i] == old(shards).deep_view()[i]
            &&& forall|i: int, j: int|
                0 <= i < old(shards).deep_view().len() && 0 <= j < old(shards).deep_view().len()
                && #[trigger] old(shards).deep_view()[i] is Some
                ==> (#[trigger] final(shards).deep_view()[j])->0.len() == old(shards).deep_view()[i]->0.len()
        },
        result is Err ==> final(shards).deep_view() == old(shards).deep_view(),
{
    ReedSolomon::new(data_count, parity_count)?.reconstruct(shards)
}

} // verus!
