//! The whole data set: the samples of all symbols, shuffled and split.

use vstd::multiset::Multiset;
use vstd::prelude::*;
use crate::config::{class_of, INPUT_DIM, SEQ_LEN};
use crate::dataset::{
    anchors_from, ascending, build_rows, build_samples, feature_rows, features_of,
    latest_label, law_anchors_take_latest_label, law_every_step_is_an_anchor,
    law_features_keep_the_values, law_marks_tell_symbols_apart, law_samples_follow_their_anchors,
    law_windows_end_in_their_row, lemma_latest_label_is_latest, pair_anchors, row_views, sample_of,
    samples_of, too_far, window, Sample, SnapshotRow, ANCHOR_STEP,
};
use crate::ieee::double_le;
use crate::rounding::rounded;
use crate::split::{all_wf, shuffle_and_split, Split};

verus! {

/// What the database holds of one symbol: its snapshots, and the times and
/// actions of its labels, oldest first.
#[derive(Debug)]
pub struct SymbolHistory {
    pub snapshots: Vec<SnapshotRow>,
    pub label_times: Vec<u64>,
    pub actions: Vec<String>,
}

impl SymbolHistory {
    /// Labels are in ascending order, and each has an action.
    pub open spec fn wf(&self) -> bool {
        ascending(self.label_times@) && self.actions@.len() == self.label_times@.len()
    }

    /// The times of the snapshots.
    pub open spec fn times(&self) -> Seq<u64> {
        self.snapshots@.map_values(|row: SnapshotRow| row.ts)
    }

    /// The actions of the labels.
    pub open spec fn action_names(&self) -> Seq<Seq<char>> {
        self.actions@.map_values(|action: String| action@)
    }

    /// The anchors, each with its label.
    pub open spec fn anchors(&self) -> Seq<(usize, usize)> {
        anchors_from(self.times(), self.label_times@, SEQ_LEN as nat)
    }

    /// What the anchors become, by the differences of their labels' times and
    /// their own.
    pub open spec fn samples(&self, symbol: nat, differences: Seq<u64>) -> Seq<(Seq<u32>, nat)> {
        samples_of(
            feature_rows(self.snapshots@, symbol),
            self.anchors(),
            differences,
            self.action_names(),
        )
    }

    /// Pairs the anchors with their labels.
    pub fn pair(&self) -> (anchors: Vec<(usize, usize)>)
        requires
            self.wf(),
        ensures
            anchors@ == self.anchors(),
            forall|i: int|
                0 <= i < anchors.len() ==> (#[trigger] anchors[i]).0 < self.snapshots.len()
                    && anchors[i].1 < self.label_times.len(),
    {
        let mut times: Vec<u64> = Vec::new();
        let mut i: usize = 0;
        while i < self.snapshots.len()
            invariant
                i <= self.snapshots.len(),
                times@.len() == i,
                forall|j: int| 0 <= j < i ==> times@[j] == self.snapshots[j].ts,
            decreases self.snapshots.len() - i,
        {
            times.push(self.snapshots[i].ts);
            i = i + 1;
        }
        assert(times@ =~= self.times());
        pair_anchors(&times, &self.label_times)
    }

    /// Turns the anchors of the symbol at a position into samples.
    pub fn build(&self, symbol: usize, differences: &Vec<u64>) -> (samples: Vec<Sample>)
        requires
            self.wf(),
            differences@.len() == self.anchors().len(),
        ensures
            samples@.map_values(|s: Sample| s@) == self.samples(symbol as nat, differences@),
            all_wf(samples@),
    {
        let (times, rows): (Vec<u64>, Vec<[u32; INPUT_DIM]>) = build_rows(&self.snapshots, symbol);
        assert(rows@.len() == row_views(rows@).len());
        let anchors: Vec<(usize, usize)> = pair_anchors(&times, &self.label_times);
        build_samples(&rows, &anchors, differences, &self.actions)
    }
}

/// The samples of the symbols, one symbol after the other.
pub open spec fn dataset_of(histories: Seq<SymbolHistory>, differences: Seq<Seq<u64>>) -> Seq<
    (Seq<u32>, nat),
>
    decreases histories.len(),
{
    if histories.len() == 0 {
        seq![]
    } else {
        let last = (histories.len() - 1) as nat;
        dataset_of(histories.drop_last(), differences) + histories.last().samples(
            last,
            differences[last as int],
        )
    }
}

/// Whether there is a difference for every anchor of every symbol.
pub open spec fn is_complete(histories: Seq<SymbolHistory>, differences: Seq<Seq<u64>>) -> bool {
    &&& differences.len() == histories.len()
    &&& forall|k: int|
        0 <= k < histories.len() ==> (#[trigger] histories[k]).wf() && differences[k].len()
            == histories[k].anchors().len()
}

/// Differences as mathematical sequences.
pub open spec fn difference_views(differences: Seq<Vec<u64>>) -> Seq<Seq<u64>> {
    differences.map_values(|list: Vec<u64>| list@)
}

/// Builds the samples of all symbols. The differences are those of the labels'
/// times and the anchors', in the order of the anchors.
pub fn build_dataset(histories: &Vec<SymbolHistory>, differences: &Vec<Vec<u64>>) -> (samples: Vec<
    Sample,
>)
    requires
        is_complete(histories@, difference_views(differences@)),
    ensures
        samples@.map_values(|s: Sample| s@) == dataset_of(
            histories@,
            difference_views(differences@),
        ),
        all_wf(samples@),
{
    let ghost views = difference_views(differences@);
    let mut samples: Vec<Sample> = Vec::new();
    let mut k: usize = 0;
    assert(samples@.map_values(|s: Sample| s@) =~= dataset_of(histories@.take(0), views));
    while k < histories.len()
        invariant
            k <= histories.len(),
            views == difference_views(differences@),
            is_complete(histories@, views),
            samples@.map_values(|s: Sample| s@) == dataset_of(histories@.take(k as int), views),
            all_wf(samples@),
        decreases histories.len() - k,
    {
        let ghost before = samples@;
        assert(histories@[k as int].wf());
        assert(views[k as int] == differences@[k as int]@);
        let mut more: Vec<Sample> = histories[k].build(k, &differences[k]);
        let ghost added = more@;
        samples.append(&mut more);
        proof {
            let next = histories@.take(k + 1);
            assert(next.drop_last() =~= histories@.take(k as int));
            assert(samples@ =~= before + added);
            assert(samples@.map_values(|s: Sample| s@) =~= before.map_values(|s: Sample| s@)
                + added.map_values(|s: Sample| s@));
        }
        k = k + 1;
    }
    assert(histories@.take(histories.len() as int) =~= histories@);
    samples
}

/// The samples of a list, counted.
pub open spec fn counted(samples: Seq<Sample>) -> Multiset<(Seq<u32>, nat)> {
    samples.map_values(|s: Sample| s@).to_multiset()
}

proof fn lemma_same_samples_same_count(a: Seq<Sample>, b: Seq<Sample>)
    requires
        a.to_multiset() == b.to_multiset(),
    ensures
        counted(a) == counted(b),
    decreases a.len(),
{
    a.to_multiset_ensures();
    b.to_multiset_ensures();
    let f = |s: Sample| s@;
    let va = a.map_values(f);
    let vb = b.map_values(f);
    if a.len() == 0 {
        assert(va =~= vb);
    } else {
        let x = a.last();
        assert(a[a.len() - 1] == x);
        assert(a.contains(x));
        assert(b.to_multiset().count(x) > 0);
        let j = b.index_of(x);
        assert(b.contains(x));
        assert(0 <= j < b.len() && b[j] == x);
        assert(a.remove(a.len() - 1) =~= a.drop_last());
        lemma_same_samples_same_count(a.drop_last(), b.remove(j));
        va.to_multiset_ensures();
        vb.to_multiset_ensures();
        assert(va.remove(a.len() - 1) =~= a.drop_last().map_values(f));
        assert(vb.remove(j) =~= b.remove(j).map_values(f));
        assert(va[a.len() - 1] == x@ && vb[j] == x@);
        assert(va.contains(x@) && vb.contains(x@));
        assert(va.to_multiset().remove(x@) == vb.to_multiset().remove(x@));
        assert(va.to_multiset() =~= va.to_multiset().remove(x@).insert(x@));
        assert(vb.to_multiset() =~= vb.to_multiset().remove(x@).insert(x@));
    }
}

/// Builds the samples of all symbols, shuffles them, and splits off a tenth,
/// rounded down, for validation. Both parts together hold every sample of every
/// symbol, as often as there is one, and no other: where the differences are
/// gaps of times, these are the labelled windows.
pub fn prepare(histories: &Vec<SymbolHistory>, differences: &Vec<Vec<u64>>) -> (parts: Split)
    requires
        is_complete(histories@, difference_views(differences@)),
    ensures
        ({
            let all = dataset_of(histories@, difference_views(differences@));
            &&& parts.val@.len() == all.len() as int / 10
            &&& parts.train@.len() == all.len() - parts.val@.len()
            &&& counted(parts.val@ + parts.train@) == all.to_multiset()
        }),
        forall|gap: spec_fn(u64, u64) -> u64| #[trigger]
            are_all_gaps(histories@, difference_views(differences@), gap) ==> counted(
                parts.val@ + parts.train@,
            ) == all_labelled_windows(histories@, gap).to_multiset(),
        all_wf(parts.train@),
        all_wf(parts.val@),
{
    let samples: Vec<Sample> = build_dataset(histories, differences);
    let ghost all = samples@;
    let parts: Split = shuffle_and_split(samples);
    proof {
        let both = parts.val@ + parts.train@;
        lemma_same_samples_same_count(both, all);
        both.to_multiset_ensures();
        all.to_multiset_ensures();
        assert(all.map_values(|s: Sample| s@).len() == all.len());
        let views = difference_views(differences@);
        assert forall|gap: spec_fn(u64, u64) -> u64| #[trigger]
            are_all_gaps(histories@, views, gap) implies dataset_of(histories@, views)
            == all_labelled_windows(histories@, gap) by {
            assert forall|k: int| 0 <= k < histories@.len() implies (#[trigger] histories@[k])
                .snapshots@.len() <= usize::MAX && histories@[k].label_times@.len()
                <= usize::MAX by {
                assert(histories@[k].snapshots.len() <= usize::MAX);
                assert(histories@[k].label_times.len() <= usize::MAX);
            }
            law_dataset_is_all_labelled_windows(histories@, views, gap);
        }
    }
    parts
}

/// The class of a row of a symbol: that of the last label at or before it,
/// where that is near enough and of a known action. The gap of two times is
/// their difference.
pub open spec fn label_of(
    history: SymbolHistory,
    row: nat,
    gap: spec_fn(u64, u64) -> u64,
) -> Option<nat> {
    match latest_label(history.label_times@, history.times()[row as int]) {
        Some(label) => if too_far(
            gap(history.label_times@[label as int], history.times()[row as int]),
        ) {
            None
        } else {
            class_of(history.actions@[label as int]@)
        },
        None => None,
    }
}

/// The windows of a symbol that end in a row that has a class, each with that
/// class: of every fifth row from a row on.
pub open spec fn labelled_windows(
    history: SymbolHistory,
    symbol: nat,
    gap: spec_fn(u64, u64) -> u64,
    from: nat,
) -> Seq<(Seq<u32>, nat)>
    decreases history.snapshots@.len() + ANCHOR_STEP - from,
{
    if from >= history.snapshots@.len() {
        seq![]
    } else {
        let rest = labelled_windows(history, symbol, gap, from + ANCHOR_STEP as nat);
        match label_of(history, from, gap) {
            Some(class) => seq![
                (window(feature_rows(history.snapshots@, symbol), from as int), class),
            ] + rest,
            None => rest,
        }
    }
}

/// The labelled windows of the symbols, one symbol after the other.
pub open spec fn all_labelled_windows(
    histories: Seq<SymbolHistory>,
    gap: spec_fn(u64, u64) -> u64,
) -> Seq<(Seq<u32>, nat)>
    decreases histories.len(),
{
    if histories.len() == 0 {
        seq![]
    } else {
        all_labelled_windows(histories.drop_last(), gap) + labelled_windows(
            histories.last(),
            (histories.len() - 1) as nat,
            gap,
            SEQ_LEN as nat,
        )
    }
}

/// Whether differences are the gaps of the labels' times and the anchors'.
pub open spec fn are_gaps(
    differences: Seq<u64>,
    anchors: Seq<(usize, usize)>,
    history: SymbolHistory,
    gap: spec_fn(u64, u64) -> u64,
) -> bool {
    &&& differences.len() == anchors.len()
    &&& forall|i: int|
        0 <= i < anchors.len() ==> #[trigger] differences[i] == gap(
            history.label_times@[anchors[i].1 as int],
            history.times()[anchors[i].0 as int],
        )
}

/// Whether the differences of all symbols are gaps.
pub open spec fn are_all_gaps(
    histories: Seq<SymbolHistory>,
    differences: Seq<Seq<u64>>,
    gap: spec_fn(u64, u64) -> u64,
) -> bool {
    forall|k: int|
        0 <= k < histories.len() ==> are_gaps(
            #[trigger] differences[k],
            histories[k].anchors(),
            histories[k],
            gap,
        )
}

proof fn lemma_samples_after_first(
    rows: Seq<Seq<u32>>,
    first: (usize, usize),
    rest: Seq<(usize, usize)>,
    differences: Seq<u64>,
    actions: Seq<Seq<char>>,
)
    requires
        differences.len() > rest.len(),
    ensures
        samples_of(rows, seq![first] + rest, differences, actions) == (match sample_of(
            rows,
            first,
            differences[0],
            actions,
        ) {
            Some(sample) => seq![sample],
            None => seq![],
        }) + samples_of(rows, rest, differences.skip(1), actions),
    decreases rest.len(),
{
    let all = seq![first] + rest;
    if rest.len() == 0 {
        assert(all.drop_last() =~= seq![]);
        assert(samples_of(rows, all.drop_last(), differences, actions) =~= seq![]);
        assert(samples_of(rows, rest, differences.skip(1), actions) =~= seq![]);
        assert(all.last() == first);
    } else {
        assert(all.drop_last() =~= seq![first] + rest.drop_last());
        assert(all.last() == rest.last());
        lemma_samples_after_first(rows, first, rest.drop_last(), differences, actions);
        assert(differences.skip(1)[rest.len() - 1] == differences[all.len() - 1]);
    }
}

proof fn lemma_samples_are_windows(
    history: SymbolHistory,
    symbol: nat,
    gap: spec_fn(u64, u64) -> u64,
    differences: Seq<u64>,
    from: nat,
)
    requires
        history.wf(),
        history.snapshots@.len() <= usize::MAX,
        history.label_times@.len() <= usize::MAX,
        are_gaps(
            differences,
            anchors_from(history.times(), history.label_times@, from),
            history,
            gap,
        ),
    ensures
        samples_of(
            feature_rows(history.snapshots@, symbol),
            anchors_from(history.times(), history.label_times@, from),
            differences,
            history.action_names(),
        ) == labelled_windows(history, symbol, gap, from),
    decreases history.snapshots@.len() + ANCHOR_STEP - from,
{
    let rows = feature_rows(history.snapshots@, symbol);
    let times = history.times();
    let labels = history.label_times@;
    let names = history.action_names();
    let all = anchors_from(times, labels, from);
    if from < times.len() {
        let rest = anchors_from(times, labels, from + ANCHOR_STEP as nat);
        lemma_latest_label_is_latest(labels, times[from as int]);
        match latest_label(labels, times[from as int]) {
            Some(label) => {
                let first = (from as usize, label as usize);
                assert(all == seq![first] + rest);
                assert(all[0] == first);
                assert(differences[0] == gap(labels[label as int], times[from as int]));
                assert forall|i: int| 0 <= i < rest.len() implies #[trigger] differences.skip(1)[i]
                    == gap(labels[rest[i].1 as int], times[rest[i].0 as int]) by {
                    assert(all[i + 1] == rest[i]);
                    assert(differences.skip(1)[i] == differences[i + 1]);
                }
                lemma_samples_are_windows(
                    history,
                    symbol,
                    gap,
                    differences.skip(1),
                    from + ANCHOR_STEP as nat,
                );
                lemma_samples_after_first(rows, first, rest, differences, names);
                assert(names[label as int] == history.actions@[label as int]@);
                let others = samples_of(rows, rest, differences.skip(1), names);
                assert(Seq::<(Seq<u32>, nat)>::empty() + others =~= others);
            },
            None => {
                lemma_samples_are_windows(
                    history,
                    symbol,
                    gap,
                    differences,
                    from + ANCHOR_STEP as nat,
                );
            },
        }
    }
}

/// The samples of the whole data set are the labelled windows of its symbols:
/// for each symbol every fifth row from the first with a full history before it
/// on, where it has a class, gives the window of that symbol's own features that
/// ends in it, once. A symbol without more rows than a sequence gives none.
pub proof fn law_dataset_is_all_labelled_windows(
    histories: Seq<SymbolHistory>,
    differences: Seq<Seq<u64>>,
    gap: spec_fn(u64, u64) -> u64,
)
    requires
        is_complete(histories, differences),
        are_all_gaps(histories, differences, gap),
        forall|k: int|
            0 <= k < histories.len() ==> (#[trigger] histories[k]).snapshots@.len() <= usize::MAX
                && histories[k].label_times@.len() <= usize::MAX,
    ensures
        dataset_of(histories, differences) == all_labelled_windows(histories, gap),
        forall|k: int|
            0 <= k < histories.len() && (#[trigger] histories[k]).snapshots@.len() <= SEQ_LEN
                ==> histories[k].samples(k as nat, differences[k]).len() == 0,
    decreases histories.len(),
{
    if histories.len() > 0 {
        let fewer = histories.drop_last();
        let last = histories.len() - 1;
        assert forall|k: int| 0 <= k < fewer.len() implies (#[trigger] fewer[k]).wf()
            && differences.drop_last()[k].len() == fewer[k].anchors().len() by {
            assert(fewer[k] == histories[k]);
        }
        assert forall|k: int| 0 <= k < fewer.len() implies are_gaps(
            #[trigger] differences.drop_last()[k],
            fewer[k].anchors(),
            fewer[k],
            gap,
        ) by {
            assert(differences[k] == differences.drop_last()[k]);
        }
        law_dataset_is_all_labelled_windows(fewer, differences.drop_last(), gap);
        lemma_fewer_differences(fewer, differences.drop_last(), differences);
        assert(histories[last].wf());
        assert(are_gaps(differences[last], histories[last].anchors(), histories[last], gap));
        lemma_samples_are_windows(
            histories[last],
            last as nat,
            gap,
            differences[last],
            SEQ_LEN as nat,
        );
        assert forall|k: int|
            0 <= k < histories.len() && (#[trigger] histories[k]).snapshots@.len()
                <= SEQ_LEN implies histories[k].samples(k as nat, differences[k]).len() == 0 by {
            assert(histories[k].anchors() =~= seq![]);
        }
    }
}

proof fn lemma_fewer_differences(
    histories: Seq<SymbolHistory>,
    a: Seq<Seq<u64>>,
    b: Seq<Seq<u64>>,
)
    requires
        forall|k: int| 0 <= k < histories.len() ==> #[trigger] a[k] == b[k],
    ensures
        dataset_of(histories, a) == dataset_of(histories, b),
    decreases histories.len(),
{
    if histories.len() > 0 {
        assert(a[histories.len() - 1] == b[histories.len() - 1]);
        lemma_fewer_differences(histories.drop_last(), a, b);
    }
}

/// The anchors of a symbol are its rows from the twenty-first on, every fifth of
/// them, that have a label at or before them. Each takes the last such label, and
/// they come in the order of the rows.
pub proof fn law_anchors_of_a_symbol(history: SymbolHistory, row: nat)
    requires
        history.snapshots@.len() <= usize::MAX,
        history.label_times@.len() <= usize::MAX,
        row < history.snapshots@.len(),
    ensures
        (exists|i: int| 0 <= i < history.anchors().len() && (#[trigger] history.anchors()[i]).0
            == row) <==> row >= 20 && (row - 20) % 5 == 0 && exists|l: int|
            0 <= l < history.label_times@.len() && double_le(
                #[trigger] history.label_times@[l],
                history.snapshots@[row as int].ts,
            ),
        forall|i: int|
            0 <= i < history.anchors().len() ==> ({
                let anchor = #[trigger] history.anchors()[i];
                &&& anchor.0 < history.snapshots@.len()
                &&& anchor.1 < history.label_times@.len()
                &&& double_le(
                    history.label_times@[anchor.1 as int],
                    history.snapshots@[anchor.0 as int].ts,
                )
                &&& forall|l: int|
                    anchor.1 < l < history.label_times@.len() ==> !double_le(
                        #[trigger] history.label_times@[l],
                        history.snapshots@[anchor.0 as int].ts,
                    )
            }),
        forall|i: int, j: int|
            0 <= i < j < history.anchors().len() ==> (#[trigger] history.anchors()[i]).0 < (
            #[trigger] history.anchors()[j]).0,
{
    let times = history.times();
    let labels = history.label_times@;
    let anchors = history.anchors();
    assert forall|i: int| 0 <= i < anchors.len() implies 20 <= (#[trigger] anchors[i]).0
        < times.len() && (anchors[i].0 - 20) % 5 == 0 && anchors[i].1 < labels.len() && double_le(
        labels[anchors[i].1 as int],
        times[anchors[i].0 as int],
    ) && forall|l: int|
        anchors[i].1 < l < labels.len() ==> !double_le(
            #[trigger] labels[l],
            times[anchors[i].0 as int],
        ) by {
        law_anchors_take_latest_label(times, labels, 20, i);
    }
    lemma_anchors_ascend(times, labels, 20);
    if row >= 20 && (row - 20) % 5 == 0 && exists|l: int|
        0 <= l < labels.len() && double_le(
            #[trigger] labels[l],
            history.snapshots@[row as int].ts,
        ) {
        let l = choose|l: int|
            0 <= l < labels.len() && double_le(
                #[trigger] labels[l],
                history.snapshots@[row as int].ts,
            );
        law_every_step_is_an_anchor(times, labels, 20, row, l);
    }
    if exists|i: int| 0 <= i < anchors.len() && (#[trigger] anchors[i]).0 == row {
        let i = choose|i: int| 0 <= i < anchors.len() && (#[trigger] anchors[i]).0 == row;
        assert(double_le(labels[anchors[i].1 as int], times[row as int]));
    }
}

proof fn lemma_anchors_ascend(times: Seq<u64>, labels: Seq<u64>, from: nat)
    requires
        times.len() <= usize::MAX,
        labels.len() <= usize::MAX,
    ensures
        forall|i: int, j: int|
            0 <= i < j < anchors_from(times, labels, from).len() ==> (#[trigger] anchors_from(
                times,
                labels,
                from,
            )[i]).0 < (#[trigger] anchors_from(times, labels, from)[j]).0,
    decreases times.len() + ANCHOR_STEP - from,
{
    if from < times.len() {
        let all = anchors_from(times, labels, from);
        let rest = anchors_from(times, labels, from + ANCHOR_STEP as nat);
        lemma_anchors_ascend(times, labels, from + ANCHOR_STEP as nat);
        assert forall|i: int, j: int| 0 <= i < j < all.len() implies (#[trigger] all[i]).0 < (
        #[trigger] all[j]).0 by {
            match latest_label(labels, times[from as int]) {
                Some(_) => {
                    assert(all[j] == rest[j - 1]);
                    law_anchors_take_latest_label(times, labels, from + ANCHOR_STEP as nat, j - 1);
                    if i > 0 {
                        assert(all[i] == rest[i - 1]);
                    }
                },
                None => {},
            }
        }
    }
}

/// A symbol's samples hold what the database does: at a time step the values of
/// the snapshot so many before the anchor, in single precision, the symbol's own
/// mark, and no other; and the class of the action that was recorded last at or
/// before the anchor.
pub proof fn law_samples_hold_what_the_database_does(
    history: SymbolHistory,
    symbol: nat,
    differences: Seq<u64>,
    j: int,
    step: int,
    feature: int,
) -> (at: int)
    requires
        history.wf(),
        history.snapshots@.len() <= usize::MAX,
        history.label_times@.len() <= usize::MAX,
        differences.len() == history.anchors().len(),
        symbol < 6,
        0 <= j < history.samples(symbol, differences).len(),
        0 <= step < 20,
        0 <= feature < 40,
    ensures
        0 <= at < history.anchors().len(),
        !too_far(differences[at]),
        ({
            let sample = history.samples(symbol, differences)[j];
            let anchor = history.anchors()[at];
            let values = history.snapshots@[anchor.0 - 19 + step].values@;
            &&& class_of(history.actions@[anchor.1 as int]@) == Some(sample.1)
            &&& sample.0.len() == 1080
            &&& sample.0[step * 54 + feature] == (if feature < values.len() {
                rounded(values[feature])
            } else {
                0
            })
            &&& forall|k: int|
                0 <= k < 6 ==> #[trigger] sample.0[step * 54 + 40 + k] == (if k == symbol {
                    0x3f80_0000u32
                } else {
                    0
                })
        }),
{
    let rows = feature_rows(history.snapshots@, symbol);
    let anchors = history.anchors();
    let picks = law_samples_follow_their_anchors(
        rows,
        anchors,
        differences,
        history.action_names(),
    );
    let at = picks[j];
    let sample = history.samples(symbol, differences)[j];
    let anchor = anchors[at];
    assert(picks.contains(at));
    law_anchors_of_a_symbol(history, 0);
    law_anchors_take_latest_label(history.times(), history.label_times@, SEQ_LEN as nat, at);
    let values = history.snapshots@[anchor.0 - 19 + step].values@;
    law_windows_end_in_their_row(rows, anchor.0 as int, step, feature);
    law_features_keep_the_values(values, symbol, feature);
    law_marks_tell_symbols_apart(values, symbol, values, symbol);
    assert forall|k: int| 0 <= k < 6 implies #[trigger] sample.0[step * 54 + 40 + k] == (if k
        == symbol {
        0x3f80_0000u32
    } else {
        0
    }) by {
        law_windows_end_in_their_row(rows, anchor.0 as int, step, 40 + k);
        assert(rows[anchor.0 - 19 + step] == features_of(values, symbol));
        assert(step * 54 + 40 + k == step * 54 + (40 + k));
    }
    at
}

/// The data set is put together symbol by symbol, each symbol's samples with its
/// own number, behind those of the symbols before it.
pub proof fn law_symbols_follow_each_other(
    histories: Seq<SymbolHistory>,
    differences: Seq<Seq<u64>>,
    history: SymbolHistory,
    more: Seq<u64>,
)
    requires
        differences.len() == histories.len(),
    ensures
        dataset_of(histories.push(history), differences.push(more)) == dataset_of(
            histories,
            differences,
        ) + history.samples(histories.len(), more),
        dataset_of(seq![], seq![]) == Seq::<(Seq<u32>, nat)>::empty(),
{
    let all = histories.push(history);
    assert(all.drop_last() =~= histories);
    assert forall|k: int| 0 <= k < histories.len() implies #[trigger] differences.push(more)[k]
        == differences[k] by {}
    lemma_fewer_differences(histories, differences.push(more), differences);
}

/// Samples are counted one by one, each with its features and its class.
pub proof fn law_samples_are_counted(samples: Seq<Sample>, sample: Sample)
    ensures
        counted(Seq::empty()) == Multiset::<(Seq<u32>, nat)>::empty(),
        counted(samples.push(sample)) == counted(samples).insert(
            (sample.features@, sample.label as nat),
        ),
{
    let f = |s: Sample| s@;
    let before = samples.map_values(f);
    let after = samples.push(sample).map_values(f);
    assert(after =~= before.push(sample@));
    before.to_multiset_ensures();
    let none = Seq::<Sample>::empty().map_values(f);
    none.to_multiset_ensures();
    assert(none.to_multiset().len() == 0);
    assert(none.to_multiset() =~= Multiset::empty());
}

} // verus!
