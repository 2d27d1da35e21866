//! Gradient descent variants: the sampling of mini-batches.

use vstd::prelude::*;
use rand::rngs::ThreadRng;
use rand::seq::SliceRandom;

verus! {

#[verifier::external_type_specification]
#[verifier::external_body]
pub struct ExThreadRng(ThreadRng);

/// `SliceRandom::shuffle` of rand on the elements of a vector: the elements end up in
/// some order that chance decides, each one still there as often as before.
#[verifier::external_body]
fn shuffle_indices(rng: &mut ThreadRng, values: &mut Vec<usize>)
    ensures
        final(values)@.to_multiset() == old(values)@.to_multiset(),
{
    values.shuffle(rng);
}

/// The sample indices `0..n` in increasing order.
pub open spec fn all_indices(n: usize) -> Seq<usize> {
    Seq::new(n as nat, |i: int| i as usize)
}

/// Sample a mini-batch of sample indices: the indices `0..num_samples` in a random order,
/// cut to the first `batch_size` of them (all of them when the batch is larger).
pub fn sample_batch(rng: &mut ThreadRng, num_samples: usize, batch_size: usize) -> (batch: Vec<usize>)
    ensures
        batch.len() == if batch_size <= num_samples { batch_size } else { num_samples },
        batch@.no_duplicates(),
        forall|i: int| 0 <= i < batch.len() ==> #[trigger] batch@[i] < num_samples,
        exists|shuffled: Seq<usize>|
            shuffled.to_multiset() == all_indices(num_samples).to_multiset()
                && batch@ == #[trigger] shuffled.take(batch.len() as int),
        batch_size >= num_samples ==> forall|i: usize| i < num_samples ==> #[trigger] batch@.contains(i),
{
    let mut batch: Vec<usize> = Vec::new();
    for i in 0..num_samples
        invariant
            batch.len() == i,
            forall|j: int| 0 <= j < i ==> #[trigger] batch@[j] == j,
    {
        batch.push(i);
    }
    let ghost before = batch@;
    proof {
        assert(before =~= all_indices(num_samples));
        assert(before.no_duplicates());
        before.lemma_multiset_has_no_duplicates();
    }
    shuffle_indices(rng, &mut batch);
    proof {
        broadcast use vstd::seq_lib::group_to_multiset_ensures;
        batch@.lemma_multiset_has_no_duplicates_conv();
        assert(batch@.len() == batch@.to_multiset().len());
        assert(before.len() == before.to_multiset().len());
        assert forall|i: int| 0 <= i < batch.len() implies #[trigger] batch@[i] < num_samples by {
            assert(batch@.contains(batch@[i]));
            assert(batch@.to_multiset().count(batch@[i]) > 0);
            assert(before.contains(batch@[i]));
        }
    }
    let keep = if batch_size <= num_samples { batch_size } else { num_samples };
    let ghost shuffled = batch@;
    batch.truncate(keep);
    proof {
        assert(batch@ =~= shuffled.take(keep as int));
        assert(shuffled.to_multiset() == all_indices(num_samples).to_multiset());
        if batch_size >= num_samples {
            assert forall|i: usize| i < num_samples implies #[trigger] batch@.contains(i) by {
                broadcast use vstd::seq_lib::group_to_multiset_ensures;
                assert(before[i as int] == i);
                assert(before.contains(i));
                assert(before.to_multiset().count(i) > 0);
                assert(shuffled.to_multiset().count(i) > 0);
                assert(shuffled.contains(i));
                assert(batch@ =~= shuffled);
            }
        }
        assert forall|i: int| 0 <= i < batch.len() implies #[trigger] batch@[i] < num_samples by {
            assert(batch@[i] == shuffled[i]);
        }
    }
    batch
}

} // verus!
