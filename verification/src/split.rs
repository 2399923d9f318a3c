//! Shuffling, splitting off validation samples, and columns for statistics.

use rand::rngs::ThreadRng;
use rand::seq::SliceRandom;
use vstd::prelude::*;
use crate::config::{INPUT_DIM, SEQ_LEN};
use crate::dataset::Sample;

verus! {

/// The generator of `rand`, one per thread and seeded by the system.
#[verifier::external_type_specification]
#[verifier::external_body]
pub struct ExThreadRng(ThreadRng);

/// `rand::thread_rng` hands out the thread's generator. Nothing is claimed of
/// the numbers that it gives.
pub assume_specification[ rand::thread_rng ]() -> (rng: ThreadRng)
;

/// `rand::seq::SliceRandom::shuffle` swaps elements of a slice in place: the
/// same elements remain, each as often as before. Which order they end up in
/// is up to the generator.
#[verifier::external_body]
fn shuffle(samples: &mut Vec<Sample>, rng: &mut ThreadRng)
    ensures
        final(samples)@.to_multiset() == old(samples)@.to_multiset(),
{
    samples.shuffle(rng);
}

/// Every sample is a whole sequence with a class.
pub open spec fn all_wf(samples: Seq<Sample>) -> bool {
    forall|i: int| 0 <= i < samples.len() ==> (#[trigger] samples[i]).wf()
}

/// Samples to learn from, and samples to validate with.
#[derive(Debug)]
pub struct Split {
    pub train: Vec<Sample>,
    pub val: Vec<Sample>,
}

/// Splits off the first tenth, rounded down, for validation.
pub fn split(samples: Vec<Sample>) -> (parts: Split)
    ensures
        parts.val@ == samples@.take(samples@.len() as int / 10),
        parts.train@ == samples@.skip(samples@.len() as int / 10),
{
    let mut val: Vec<Sample> = samples;
    let count: usize = val.len() / 10;
    let train: Vec<Sample> = val.split_off(count);
    Split { train, val }
}

/// Shuffles the samples and splits off a tenth, rounded down, for validation.
/// Every sample ends up in one of the two parts, whatever the order.
pub fn shuffle_and_split(samples: Vec<Sample>) -> (parts: Split)
    ensures
        parts.val@.len() == samples@.len() as int / 10,
        (parts.val@ + parts.train@).to_multiset() == samples@.to_multiset(),
        all_wf(samples@) ==> all_wf(parts.train@) && all_wf(parts.val@),
{
    let mut mixed: Vec<Sample> = samples;
    let mut rng: ThreadRng = rand::thread_rng();
    shuffle(&mut mixed, &mut rng);
    let ghost order = mixed@;
    let parts: Split = split(mixed);
    proof {
        assert(parts.val@ + parts.train@ =~= order);
        order.to_multiset_ensures();
        samples@.to_multiset_ensures();
        if all_wf(samples@) {
            assert forall|i: int| 0 <= i < order.len() implies (#[trigger] order[i]).wf() by {
                assert(order.contains(order[i]));
                assert(order.to_multiset().count(order[i]) > 0);
                assert(samples@.contains(order[i]));
            }
        }
    }
    parts
}

/// One feature of every time step of every sample, in order.
pub open spec fn column_of(samples: Seq<Sample>, feature: int) -> Seq<u32> {
    Seq::new(
        samples.len() * SEQ_LEN as nat,
        |i: int|
            samples[i / SEQ_LEN as int].features@[(i % SEQ_LEN as int) * INPUT_DIM + feature],
    )
}

/// Collects one feature over all time steps of all samples.
pub fn feature_column(samples: &Vec<Sample>, feature: usize) -> (column: Vec<u32>)
    requires
        feature < INPUT_DIM,
        all_wf(samples@),
    ensures
        column@ == column_of(samples@, feature as int),
{
    let mut column: Vec<u32> = Vec::new();
    let mut s: usize = 0;
    while s < samples.len()
        invariant
            s <= samples.len(),
            feature < INPUT_DIM,
            all_wf(samples@),
            column@ == column_of(samples@.take(s as int), feature as int),
        decreases samples.len() - s,
    {
        let ghost before = column@;
        let mut t: usize = 0;
        while t < SEQ_LEN
            invariant
                s < samples.len(),
                t <= SEQ_LEN,
                feature < INPUT_DIM,
                samples[s as int].wf(),
                column@.len() == before.len() + t,
                forall|i: int| 0 <= i < before.len() ==> column@[i] == before[i],
                forall|i: int|
                    before.len() <= i < column@.len() ==> column@[i]
                        == samples[s as int].features@[(i - before.len()) * INPUT_DIM + feature],
            decreases SEQ_LEN - t,
        {
            column.push(samples[s].features[t * INPUT_DIM + feature]);
            t = t + 1;
        }
        proof {
            let shorter = samples@.take(s as int);
            let longer = samples@.take(s + 1);
            assert(before.len() == s * 20);
            assert forall|i: int| 0 <= i < column@.len() implies column@[i] == column_of(
                longer,
                feature as int,
            )[i] by {
                if i < before.len() {
                    assert(shorter[i / 20] == longer[i / 20]);
                    assert(column@[i] == column_of(shorter, feature as int)[i]);
                } else {
                    assert(i / 20 == s);
                    assert(i % 20 == i - before.len());
                    assert(longer[i / 20] == samples[s as int]);
                }
            }
            assert(column@ =~= column_of(longer, feature as int));
        }
        s = s + 1;
    }
    assert(samples@.take(samples.len() as int) =~= samples@);
    column
}

/// The values of a column are those of the feature, time step after time step,
/// sample after sample.
pub proof fn law_columns_hold_one_feature(
    samples: Seq<Sample>,
    feature: int,
    sample: int,
    step: int,
)
    requires
        0 <= feature < 54,
        0 <= sample < samples.len(),
        0 <= step < 20,
    ensures
        column_of(samples, feature).len() == samples.len() * 20,
        column_of(samples, feature)[sample * 20 + step] == samples[sample].features@[step * 54
            + feature],
{
    let i = sample * 20 + step;
    assert(i / 20 == sample);
    assert(i % 20 == step);
}

/// Splitting loses no sample and changes no order: validation comes first, with
/// one sample out of every whole ten, and the others follow.
pub proof fn law_parts_make_up_the_samples(samples: Vec<Sample>, parts: Split)
    requires
        call_ensures(split, (samples,), parts),
    ensures
        parts.val@ + parts.train@ == samples@,
        10 * parts.val@.len() <= samples@.len() < 10 * parts.val@.len() + 10,
{
    assert(parts.val@ + parts.train@ =~= samples@);
}

} // verus!
