//! The course of training: batches, counts, and the best epoch.

use vstd::prelude::*;
use crate::dataset::{Sample, SEQUENCE_VALUES};
use crate::ieee::{double_is_nan, double_lt, is_double_lt, DOUBLE_MAX};
use crate::split::all_wf;

verus! {

/// A run of samples that are worked on together.
#[derive(Clone, Copy, Debug)]
pub struct Batch {
    pub index: usize,
    pub start: usize,
    pub end: usize,
}

/// How many batches there are: as many as it takes for all samples.
pub open spec fn batch_count(samples: int, size: int) -> int {
    (samples + size - 1) / size
}

/// Where a batch ends: after its size, or with the last sample.
pub open spec fn batch_end(samples: int, size: int, index: int) -> int {
    if (index + 1) * size <= samples {
        (index + 1) * size
    } else {
        samples
    }
}

/// The batches of so many samples, in order. All but the last have the given
/// size.
pub fn batches(samples: usize, size: usize) -> (all: Vec<Batch>)
    requires
        size > 0,
    ensures
        all@.len() == batch_count(samples as int, size as int),
        forall|i: int|
            0 <= i < all@.len() ==> (#[trigger] all@[i]).index == i && all@[i].start == i * size
                && all@[i].end == batch_end(samples as int, size as int, i),
{
    let mut all: Vec<Batch> = Vec::new();
    let mut index: usize = 0;
    let mut start: usize = 0;
    proof {
        lemma_no_batches(size as int);
    }
    while start < samples
        invariant
            size > 0,
            all@.len() == index,
            index <= start,
            start < samples ==> start == index * size,
            start >= samples ==> start == samples && index == batch_count(
                samples as int,
                size as int,
            ),
            forall|i: int|
                0 <= i < all@.len() ==> (#[trigger] all@[i]).index == i && all@[i].start == i
                    * size && all@[i].end == batch_end(samples as int, size as int, i),
        decreases samples - start,
    {
        let end: usize = if samples - start > size {
            start + size
        } else {
            samples
        };
        proof {
            assert((index + 1) * size == index * size + size) by (nonlinear_arith);
            if end == samples {
                lemma_count_from_last(samples as int, size as int, index as int);
            }
        }
        all.push(Batch { index, start, end });
        index = index + 1;
        start = end;
    }
    all
}

proof fn lemma_no_batches(size: int)
    requires
        size > 0,
    ensures
        batch_count(0, size) == 0,
{
    vstd::arithmetic::div_mod::lemma_basic_div(size - 1, size);
}

proof fn lemma_count_from_last(samples: int, size: int, last: int)
    requires
        size > 0,
        last >= 0,
        last * size < samples <= last * size + size,
    ensures
        batch_count(samples, size) == last + 1,
{
    let rest = samples + size - 1 - (last + 1) * size;
    assert((last + 1) * size == last * size + size) by (nonlinear_arith);
    assert(0 <= rest < size);
    vstd::arithmetic::div_mod::lemma_fundamental_div_mod_converse(
        samples + size - 1,
        size,
        last + 1,
        rest,
    );
}

/// Batches tile the samples: every sample is in the batch of its number over
/// the size, and in no other, and no batch is empty.
pub proof fn law_batches_tile_samples(samples: int, size: int, sample: int, index: int)
    requires
        size > 0,
        0 <= sample < samples,
        0 <= index < batch_count(samples, size),
    ensures
        0 <= sample / size < batch_count(samples, size),
        index * size <= sample < batch_end(samples, size, index) <==> index == sample / size,
        index * size < batch_end(samples, size, index) <= samples,
{
    let own = sample / size;
    vstd::arithmetic::div_mod::lemma_fundamental_div_mod(sample, size);
    vstd::arithmetic::div_mod::lemma_mod_bound(sample, size);
    vstd::arithmetic::div_mod::lemma_div_pos_is_pos(sample, size);
    vstd::arithmetic::div_mod::lemma_fundamental_div_mod(samples + size - 1, size);
    vstd::arithmetic::div_mod::lemma_mod_bound(samples + size - 1, size);
    let count = batch_count(samples, size);
    assert(size * own == own * size && size * count == count * size) by (nonlinear_arith);
    assert((index + 1) * size == index * size + size) by (nonlinear_arith);
    assert((own + 1) * size == own * size + size) by (nonlinear_arith);
    assert(own < count) by (nonlinear_arith)
        requires
            size > 0,
            own * size <= sample < samples,
            samples <= count * size,
    ;
    assert(index * size + size <= count * size) by (nonlinear_arith)
        requires
            size > 0,
            index + 1 <= count,
    ;
    assert(count * size <= samples + size - 1);
    if index < own {
        assert((index + 1) * size <= own * size) by (nonlinear_arith)
            requires
                size > 0,
                index + 1 <= own,
        ;
    } else if own < index {
        assert((own + 1) * size <= index * size) by (nonlinear_arith)
            requires
                size > 0,
                own + 1 <= index,
        ;
    }
}

/// What the model is given of a batch: the sequences of its samples one after
/// the other, and their classes.
#[derive(Debug)]
pub struct BatchInputs {
    pub features: Vec<u32>,
    pub labels: Vec<i32>,
}

/// The sequences of samples, one after the other.
pub open spec fn features_of_batch(samples: Seq<Sample>) -> Seq<u32> {
    Seq::new(
        samples.len() * SEQUENCE_VALUES as nat,
        |i: int| samples[i / SEQUENCE_VALUES as int].features@[i % SEQUENCE_VALUES as int],
    )
}

/// Collects what the model is given of a run of samples.
pub fn batch_inputs(samples: &Vec<Sample>, start: usize, end: usize) -> (inputs: BatchInputs)
    requires
        all_wf(samples@),
        start <= end <= samples.len(),
    ensures
        inputs.features@ == features_of_batch(samples@.subrange(start as int, end as int)),
        inputs.labels@.len() == end - start,
        forall|i: int|
            0 <= i < end - start ==> (#[trigger] inputs.labels@[i]) == samples[start + i].label,
{
    let mut features: Vec<u32> = Vec::new();
    let mut labels: Vec<i32> = Vec::new();
    let mut s: usize = start;
    while s < end
        invariant
            all_wf(samples@),
            start <= s <= end <= samples.len(),
            features@ == features_of_batch(samples@.subrange(start as int, s as int)),
            labels@.len() == s - start,
            forall|i: int|
                0 <= i < s - start ==> (#[trigger] labels@[i]) == samples[start + i].label,
        decreases end - s,
    {
        let ghost before = features@;
        let ghost done = samples@.subrange(start as int, s as int);
        let ghost next = samples@.subrange(start as int, s + 1);
        assert(samples[s as int].wf());
        let mut i: usize = 0;
        while i < SEQUENCE_VALUES
            invariant
                i <= SEQUENCE_VALUES,
                s < samples.len(),
                samples[s as int].wf(),
                features@ == before + samples[s as int].features@.take(i as int),
            decreases SEQUENCE_VALUES - i,
        {
            features.push(samples[s].features[i]);
            assert(samples[s as int].features@.take(i + 1) =~= samples[s as int].features@.take(
                i as int,
            ).push(samples[s as int].features@[i as int]));
            i = i + 1;
        }
        labels.push(samples[s].label as i32);
        proof {
            assert(before.len() == (s - start) * 1080);
            assert forall|j: int| 0 <= j < features@.len() implies features@[j]
                == features_of_batch(next)[j] by {
                if j < before.len() {
                    assert(next[j / 1080] == done[j / 1080]);
                    assert(features@[j] == features_of_batch(done)[j]);
                } else {
                    assert(j / 1080 == s - start);
                    assert(j % 1080 == j - before.len());
                    assert(next[j / 1080] == samples[s as int]);
                }
            }
            assert(features@ =~= features_of_batch(next));
        }
        s = s + 1;
    }
    BatchInputs { features, labels }
}

/// Whether a line about a batch is due: the first, and every fiftieth.
pub fn is_batch_report_due(index: usize) -> (due: bool)
    ensures
        due == (index == 0 || (index + 1) % 50 == 0),
{
    index == 0 || index % 50 == 49
}

/// Samples that were classified, and those of them that were classified right.
#[derive(Debug)]
pub struct Tally {
    pub correct: usize,
    pub total: usize,
}

impl Tally {
    /// Nothing classified yet.
    pub fn new() -> (tally: Self)
        ensures
            tally.correct == 0,
            tally.total == 0,
    {
        Tally { correct: 0, total: 0 }
    }

    /// Counts a batch.
    pub fn count(&mut self, correct: usize, samples: usize)
        requires
            old(self).correct + correct <= usize::MAX,
            old(self).total + samples <= usize::MAX,
        ensures
            final(self).correct == old(self).correct + correct,
            final(self).total == old(self).total + samples,
    {
        self.correct = self.correct + correct;
        self.total = self.total + samples;
    }
}

/// The lowest validation loss so far, in double precision, and its epoch.
/// Before there is one, the loss is the largest finite number and the epoch
/// zero.
#[derive(Clone, Copy, Debug)]
pub struct Best {
    pub loss: u64,
    pub epoch: usize,
}

/// The best epoch after one more.
pub open spec fn improved(best: Best, epoch: usize, loss: u64) -> Best {
    if double_lt(loss, best.loss) {
        Best { loss, epoch }
    } else {
        best
    }
}

impl Best {
    /// No epoch yet.
    pub fn new() -> (best: Self)
        ensures
            best == (Best { loss: DOUBLE_MAX, epoch: 0 }),
    {
        Best { loss: DOUBLE_MAX, epoch: 0 }
    }

    /// Takes the loss of an epoch, and says whether it is the lowest so far.
    pub fn offer(&mut self, epoch: usize, loss: u64) -> (better: bool)
        ensures
            better == double_lt(loss, old(self).loss),
            *final(self) == improved(*old(self), epoch, loss),
    {
        if is_double_lt(loss, self.loss) {
            self.loss = loss;
            self.epoch = epoch;
            true
        } else {
            false
        }
    }
}

/// The best epoch after a series of losses, the first of which is of epoch one.
pub open spec fn best_of(losses: Seq<u64>) -> Best
    decreases losses.len(),
{
    if losses.len() == 0 {
        Best { loss: DOUBLE_MAX, epoch: 0 }
    } else {
        improved(best_of(losses.drop_last()), losses.len() as usize, losses.last())
    }
}

/// The best epoch is the first of those with the lowest loss: no epoch has a
/// lower one, earlier epochs have a higher one or none that compares. There is
/// no best epoch exactly where no loss is below the largest finite number.
pub proof fn law_best_is_first_lowest(losses: Seq<u64>)
    requires
        losses.len() <= usize::MAX,
    ensures
        ({
            let best = best_of(losses);
            &&& best.epoch <= losses.len()
            &&& forall|j: int|
                0 <= j < losses.len() ==> !double_lt(#[trigger] losses[j], best.loss)
            &&& if best.epoch == 0 {
                best.loss == DOUBLE_MAX
            } else {
                &&& losses[best.epoch - 1] == best.loss
                &&& double_lt(best.loss, DOUBLE_MAX)
                &&& forall|j: int|
                    0 <= j < best.epoch - 1 ==> double_is_nan(#[trigger] losses[j]) || double_lt(
                        best.loss,
                        losses[j],
                    )
            }
        }),
    decreases losses.len(),
{
    if losses.len() > 0 {
        let fewer = losses.drop_last();
        law_best_is_first_lowest(fewer);
        let before = best_of(fewer);
        assert forall|j: int| 0 <= j < losses.len() implies !double_lt(
            #[trigger] losses[j],
            best_of(losses).loss,
        ) by {
            if j < fewer.len() {
                assert(fewer[j] == losses[j]);
                assert(!double_lt(fewer[j], before.loss));
            }
        }
        let best = best_of(losses);
        if best.epoch > 0 {
            assert forall|j: int| 0 <= j < best.epoch - 1 implies double_is_nan(
                #[trigger] losses[j],
            ) || double_lt(best.loss, losses[j]) by {
                assert(fewer[j] == losses[j]);
                assert(!double_lt(fewer[j], before.loss));
            }
        }
    }
}

/// Read as sequences of time steps of features, a batch has at each place what
/// its sample has there: feature after feature, time step after time step, sample
/// after sample.
pub proof fn law_batches_keep_time_steps_and_features(
    samples: Seq<Sample>,
    sample: int,
    step: int,
    feature: int,
)
    requires
        0 <= sample < samples.len(),
        0 <= step < 20,
        0 <= feature < 54,
    ensures
        features_of_batch(samples).len() == samples.len() * 20 * 54,
        features_of_batch(samples)[(sample * 20 + step) * 54 + feature]
            == samples[sample].features@[step * 54 + feature],
{
    let i = (sample * 20 + step) * 54 + feature;
    assert(i == sample * 1080 + (step * 54 + feature));
    assert(i / 1080 == sample);
    assert(i % 1080 == step * 54 + feature);
}

/// The batches of a run of samples are what each sample gives alone, one after
/// the other.
pub proof fn law_batches_are_put_together(first: Seq<Sample>, second: Seq<Sample>)
    ensures
        features_of_batch(first + second) == features_of_batch(first) + features_of_batch(second),
{
    let both = features_of_batch(first + second);
    let parts = features_of_batch(first) + features_of_batch(second);
    assert(both.len() == parts.len());
    assert forall|i: int| 0 <= i < both.len() implies both[i] == parts[i] by {
        let n = first.len() * 1080;
        if i >= n {
            assert((i - n) / 1080 == i / 1080 - first.len());
            assert((i - n) % 1080 == i % 1080);
        }
    }
    assert(both =~= parts);
}

/// A line is due at the first batch, at the fiftieth, and from there on at every
/// fiftieth and at none between.
pub proof fn law_lines_come_every_fifty_batches(
    index: usize,
    other: usize,
    due: bool,
    other_due: bool,
)
    requires
        call_ensures(is_batch_report_due, (index,), due),
        call_ensures(is_batch_report_due, (other,), other_due),
    ensures
        index == 0 || index == 49 ==> due,
        0 < index < other < index + 50 ==> !(due && other_due),
        0 < index && other == index + 50 ==> due == other_due,
{
}

} // verus!
