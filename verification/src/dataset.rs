//! Labelled feature sequences out of database rows.
//!
//! The rows of one symbol become feature rows. Every fifth of them, once there
//! is enough history, is an anchor: it takes the action that was recorded last
//! at or before it as its label, and the rows up to it as its sequence.

use vstd::arithmetic::power2::*;
use vstd::prelude::*;
use crate::config::{
    class_index, class_of, INPUT_DIM, NUM_CLASSES, NUM_SYMBOLS, SEQ_LEN,
};
use crate::ieee::{
    double_is_nan, double_le, double_magnitude, double_rank, double_units, double_value,
    is_double_le, is_double_nan, law_double_rank_orders_values, rank_of_double, SINGLE_ONE,
};
use crate::query::snapshot_columns;
use crate::rounding::{round_to_single, rounded};
use crate::sequence::flatten;

verus! {

/// Rows from one anchor to the next.
pub const ANCHOR_STEP: usize = 5;

/// Values of a sequence.
pub const SEQUENCE_VALUES: usize = 1080;

/// The bits of five seconds, the widest gap from a label to its anchor.
pub const MAX_LABEL_GAP: u64 = 0x4014_0000_0000_0000;

/// A snapshot as the database holds it: its time and its values in double
/// precision.
#[derive(Debug)]
pub struct SnapshotRow {
    pub ts: u64,
    pub values: Vec<u64>,
}

/// A sequence of feature rows, one after the other, and the class of the
/// action that was taken after it.
#[derive(Debug)]
pub struct Sample {
    pub features: Vec<u32>,
    pub label: usize,
}

impl View for Sample {
    type V = (Seq<u32>, nat);

    open spec fn view(&self) -> (Seq<u32>, nat) {
        (self.features@, self.label as nat)
    }
}

impl Sample {
    /// A sample holds one whole sequence and a class.
    pub open spec fn wf(&self) -> bool {
        self.features@.len() == SEQUENCE_VALUES && self.label < NUM_CLASSES
    }
}

/// A value of a row in single precision, or zero where the row is shorter.
pub open spec fn value_at(values: Seq<u64>, i: int) -> u32 {
    if 0 <= i < values.len() {
        rounded(values[i])
    } else {
        0
    }
}

/// The features of a row: forty values of the snapshot, a one at the symbol's
/// place among six, four values about funding and four about the order book.
pub open spec fn features_of(values: Seq<u64>, symbol: nat) -> Seq<u32> {
    Seq::new(40, |i: int| value_at(values, i)) + Seq::new(
        NUM_SYMBOLS as nat,
        |i: int| if i == symbol { SINGLE_ONE } else { 0 },
    ) + seq![
        value_at(values, 3),
        value_at(values, 36),
        value_at(values, 35),
        value_at(values, 33),
    ] + seq![
        value_at(values, 0),
        value_at(values, 39),
        value_at(values, 37),
        value_at(values, 38),
    ]
}

/// The features of the rows of a symbol.
pub open spec fn feature_rows(rows: Seq<SnapshotRow>, symbol: nat) -> Seq<Seq<u32>> {
    rows.map_values(|row: SnapshotRow| features_of(row.values@, symbol))
}

/// Times in ascending order, without NaN.
pub open spec fn ascending(times: Seq<u64>) -> bool {
    &&& forall|i: int| 0 <= i < times.len() ==> !double_is_nan(#[trigger] times[i])
    &&& forall|i: int, j: int|
        0 <= i <= j < times.len() ==> double_rank(#[trigger] times[i]) <= double_rank(
            #[trigger] times[j],
        )
}

/// The last label at or before a time.
pub open spec fn latest_label(label_times: Seq<u64>, time: u64) -> Option<nat>
    decreases label_times.len(),
{
    if label_times.len() == 0 {
        None
    } else if double_le(label_times.last(), time) {
        Some((label_times.len() - 1) as nat)
    } else {
        latest_label(label_times.drop_last(), time)
    }
}

/// The anchors from a row on, each with the label that it takes. Anchors
/// without a label are left out.
pub open spec fn anchors_from(times: Seq<u64>, label_times: Seq<u64>, from: nat) -> Seq<
    (usize, usize),
>
    decreases times.len() + ANCHOR_STEP - from,
{
    if from >= times.len() {
        seq![]
    } else {
        let rest = anchors_from(times, label_times, from + ANCHOR_STEP as nat);
        match latest_label(label_times, times[from as int]) {
            Some(label) => seq![(from as usize, label as usize)] + rest,
            None => rest,
        }
    }
}

/// Whether the difference of two times is more than five seconds either way.
pub open spec fn too_far(difference: u64) -> bool {
    !double_is_nan(difference) && double_magnitude(difference) > MAX_LABEL_GAP
}

/// Rows as mathematical sequences.
pub open spec fn row_views(rows: Seq<[u32; INPUT_DIM]>) -> Seq<Seq<u32>> {
    rows.map_values(|row: [u32; INPUT_DIM]| row@)
}

/// The values of the rows up to a row, as many as make a sequence, oldest
/// first.
pub open spec fn window(rows: Seq<Seq<u32>>, row: int) -> Seq<u32> {
    Seq::new(
        SEQUENCE_VALUES as nat,
        |i: int| rows[row + 1 - SEQ_LEN + i / INPUT_DIM as int][i % INPUT_DIM as int],
    )
}

/// What an anchor becomes: nothing where its label is too far away or is no
/// known action, otherwise the sequence of rows that ends in it, and its class.
pub open spec fn sample_of(
    rows: Seq<Seq<u32>>,
    anchor: (usize, usize),
    difference: u64,
    actions: Seq<Seq<char>>,
) -> Option<(Seq<u32>, nat)> {
    if too_far(difference) {
        None
    } else {
        match class_of(actions[anchor.1 as int]) {
            Some(class) => Some((window(rows, anchor.0 as int), class)),
            None => None,
        }
    }
}

/// What the anchors become, in their order.
pub open spec fn samples_of(
    rows: Seq<Seq<u32>>,
    anchors: Seq<(usize, usize)>,
    differences: Seq<u64>,
    actions: Seq<Seq<char>>,
) -> Seq<(Seq<u32>, nat)>
    decreases anchors.len(),
{
    if anchors.len() == 0 {
        seq![]
    } else {
        let earlier = samples_of(rows, anchors.drop_last(), differences, actions);
        match sample_of(rows, anchors.last(), differences[anchors.len() - 1], actions) {
            Some(sample) => earlier.push(sample),
            None => earlier,
        }
    }
}

fn value(values: &Vec<u64>, i: usize) -> (v: u32)
    ensures
        v == value_at(values@, i as int),
{
    if i < values.len() {
        round_to_single(values[i])
    } else {
        0
    }
}

/// Lays out the features of a row.
pub fn build_features(values: &Vec<u64>, symbol: usize) -> (features: [u32; INPUT_DIM])
    ensures
        features@ == features_of(values@, symbol as nat),
{
    let mut features: [u32; INPUT_DIM] = [0u32; INPUT_DIM];
    let mut i: usize = 0;
    while i < 40
        invariant
            i <= 40,
            forall|j: int| 0 <= j < i ==> features@[j] == value_at(values@, j),
        decreases 40 - i,
    {
        features[i] = value(values, i);
        i = i + 1;
    }
    let mut k: usize = 0;
    while k < NUM_SYMBOLS
        invariant
            k <= NUM_SYMBOLS,
            forall|j: int| 0 <= j < 40 ==> features@[j] == value_at(values@, j),
            forall|j: int|
                40 <= j < 40 + k ==> features@[j] == (if j - 40 == symbol {
                    SINGLE_ONE
                } else {
                    0
                }),
        decreases NUM_SYMBOLS - k,
    {
        features[40 + k] = if k == symbol {
            SINGLE_ONE
        } else {
            0
        };
        k = k + 1;
    }
    features[46] = value(values, 3);
    features[47] = value(values, 36);
    features[48] = value(values, 35);
    features[49] = value(values, 33);
    features[50] = value(values, 0);
    features[51] = value(values, 39);
    features[52] = value(values, 37);
    features[53] = value(values, 38);
    assert(features@ =~= features_of(values@, symbol as nat));
    features
}

/// The values of cells. One that cannot be read counts as zero.
pub open spec fn cell_values(cells: Seq<Option<u64>>) -> Seq<u64> {
    cells.map_values(
        |cell: Option<u64>|
            match cell {
                Some(value) => value,
                None => 0,
            },
    )
}

/// Makes a snapshot of the cells of a database row, in double precision. A row
/// whose time cannot be read is dropped; any other cell that cannot be read
/// counts as zero.
pub fn row_of_cells(ts: Option<u64>, cells: &Vec<Option<u64>>) -> (row: Option<SnapshotRow>)
    ensures
        row is Some <==> ts is Some,
        row matches Some(row) ==> row.ts == ts->0 && row.values@ == cell_values(cells@),
{
    match ts {
        None => None,
        Some(ts) => {
            let mut values: Vec<u64> = Vec::new();
            let mut i: usize = 0;
            while i < cells.len()
                invariant
                    i <= cells.len(),
                    values@ == cell_values(cells@.take(i as int)),
                decreases cells.len() - i,
            {
                let value: u64 = match cells[i] {
                    Some(value) => value,
                    None => 0,
                };
                values.push(value);
                assert(values@ =~= cell_values(cells@.take(i + 1)));
                i = i + 1;
            }
            assert(cells@.take(cells.len() as int) =~= cells@);
            Some(SnapshotRow { ts, values })
        },
    }
}

/// Makes a label of the cells of a database row: its time and its action. A row
/// in which one of them cannot be read is dropped.
pub fn label_of_cells(ts: Option<u64>, action: Option<String>) -> (label: Option<(u64, String)>)
    ensures
        label is Some <==> ts is Some && action is Some,
        label matches Some(label) ==> label.0 == ts->0 && label.1 == action->0,
{
    match (ts, action) {
        (Some(ts), Some(action)) => Some((ts, action)),
        _ => None,
    }
}

/// The times and the feature rows of a symbol's snapshots.
pub fn build_rows(rows: &Vec<SnapshotRow>, symbol: usize) -> (built: (
    Vec<u64>,
    Vec<[u32; INPUT_DIM]>,
))
    ensures
        built.0@ == rows@.map_values(|row: SnapshotRow| row.ts),
        row_views(built.1@) == feature_rows(rows@, symbol as nat),
{
    let mut times: Vec<u64> = Vec::new();
    let mut features: Vec<[u32; INPUT_DIM]> = Vec::new();
    let mut i: usize = 0;
    while i < rows.len()
        invariant
            i <= rows.len(),
            times.len() == i,
            features.len() == i,
            forall|j: int| 0 <= j < i ==> times[j] == rows[j].ts,
            forall|j: int|
                0 <= j < i ==> (#[trigger] features[j])@ == features_of(
                    rows[j].values@,
                    symbol as nat,
                ),
        decreases rows.len() - i,
    {
        times.push(rows[i].ts);
        features.push(build_features(&rows[i].values, symbol));
        i = i + 1;
    }
    assert(times@ =~= rows@.map_values(|row: SnapshotRow| row.ts));
    assert(row_views(features@) =~= feature_rows(rows@, symbol as nat));
    (times, features)
}

/// Whether times are in ascending order, without NaN.
pub fn is_ascending(times: &Vec<u64>) -> (yes: bool)
    ensures
        yes == ascending(times@),
{
    let mut i: usize = 0;
    while i < times.len()
        invariant
            i <= times.len(),
            ascending(times@.take(i as int)),
        decreases times.len() - i,
    {
        if is_double_nan(times[i]) {
            return false;
        }
        if i > 0 && rank_of_double(times[i - 1]) > rank_of_double(times[i]) {
            return false;
        }
        proof {
            let shorter = times@.take(i as int);
            let longer = times@.take(i + 1);
            assert forall|a: int, b: int| 0 <= a <= b < longer.len() implies double_rank(
                #[trigger] longer[a],
            ) <= double_rank(#[trigger] longer[b]) by {
                if b < i {
                    assert(shorter[a] == longer[a] && shorter[b] == longer[b]);
                } else if a < i {
                    assert(shorter[a] == longer[a]);
                    assert(shorter[i - 1] == times[i - 1]);
                }
            }
            assert forall|a: int| 0 <= a < longer.len() implies !double_is_nan(
                #[trigger] longer[a],
            ) by {
                if a < i {
                    assert(shorter[a] == longer[a]);
                }
            }
        }
        i = i + 1;
    }
    assert(times@.take(times.len() as int) =~= times@);
    true
}

proof fn lemma_latest_label(label_times: Seq<u64>, time: u64, count: nat)
    requires
        count <= label_times.len(),
        forall|j: int| 0 <= j < count ==> double_le(#[trigger] label_times[j], time),
        forall|j: int| count <= j < label_times.len() ==> !double_le(#[trigger] label_times[j], time),
    ensures
        latest_label(label_times, time) == (if count == 0 {
            None::<nat>
        } else {
            Some((count - 1) as nat)
        }),
    decreases label_times.len(),
{
    if label_times.len() > count {
        lemma_latest_label(label_times.drop_last(), time, count);
    }
}

/// Finds the last label at or before a time.
pub fn find_label(label_times: &Vec<u64>, time: u64) -> (label: Option<usize>)
    requires
        ascending(label_times@),
    ensures
        match label {
            Some(l) => latest_label(label_times@, time) == Some(l as nat) && l < label_times.len(),
            None => latest_label(label_times@, time) is None,
        },
{
    let mut low: usize = 0;
    let mut high: usize = label_times.len();
    while low < high
        invariant
            low <= high <= label_times.len(),
            ascending(label_times@),
            forall|j: int| 0 <= j < low ==> double_le(#[trigger] label_times[j], time),
            forall|j: int| high <= j < label_times.len() ==> !double_le(#[trigger] label_times[j], time),
        decreases high - low,
    {
        let middle: usize = low + (high - low) / 2;
        if is_double_le(label_times[middle], time) {
            low = middle + 1;
        } else {
            high = middle;
        }
    }
    proof {
        lemma_latest_label(label_times@, time, low as nat);
    }
    if low > 0 {
        Some(low - 1)
    } else {
        None
    }
}

/// Pairs the anchors of a symbol's snapshots with their labels.
pub fn pair_anchors(times: &Vec<u64>, label_times: &Vec<u64>) -> (anchors: Vec<(usize, usize)>)
    requires
        ascending(label_times@),
    ensures
        anchors@ == anchors_from(times@, label_times@, SEQ_LEN as nat),
        forall|i: int|
            0 <= i < anchors.len() ==> SEQ_LEN <= (#[trigger] anchors[i]).0 < times.len()
                && anchors[i].1 < label_times.len(),
{
    let mut anchors: Vec<(usize, usize)> = Vec::new();
    let mut row: usize = SEQ_LEN;
    while row < times.len()
        invariant
            SEQ_LEN <= row,
            ascending(label_times@),
            anchors@ + anchors_from(times@, label_times@, row as nat) == anchors_from(
                times@,
                label_times@,
                SEQ_LEN as nat,
            ),
            forall|i: int|
                0 <= i < anchors.len() ==> SEQ_LEN <= (#[trigger] anchors[i]).0 < times.len()
                    && anchors[i].1 < label_times.len(),
        decreases times.len() - row,
    {
        let ghost before = anchors@;
        let ghost rest = anchors_from(times@, label_times@, (row + ANCHOR_STEP) as nat);
        if let Some(label) = find_label(label_times, times[row]) {
            anchors.push((row, label));
            assert(anchors@ + rest =~= before + (seq![(row, label)] + rest));
        }
        assert(anchors@ + rest == anchors_from(times@, label_times@, SEQ_LEN as nat));
        row = if times.len() - row > ANCHOR_STEP {
            row + ANCHOR_STEP
        } else {
            times.len()
        };
    }
    assert(anchors@ =~= anchors@ + anchors_from(times@, label_times@, row as nat));
    anchors
}

/// Whether the difference of two times is more than five seconds either way.
pub fn is_too_far(difference: u64) -> (far: bool)
    ensures
        far == too_far(difference),
{
    let magnitude: u64 = if difference >= 0x8000_0000_0000_0000 {
        difference - 0x8000_0000_0000_0000
    } else {
        difference
    };
    !is_double_nan(difference) && magnitude > MAX_LABEL_GAP
}

/// Turns a symbol's anchors into samples. The difference at a position is that
/// of the label's time and the anchor's.
pub fn build_samples(
    rows: &Vec<[u32; INPUT_DIM]>,
    anchors: &Vec<(usize, usize)>,
    differences: &Vec<u64>,
    actions: &Vec<String>,
) -> (samples: Vec<Sample>)
    requires
        differences.len() == anchors.len(),
        forall|i: int|
            0 <= i < anchors.len() ==> SEQ_LEN <= (#[trigger] anchors[i]).0 + 1 <= rows.len()
                && anchors[i].1 < actions.len(),
    ensures
        samples@.map_values(|s: Sample| s@) == samples_of(
            row_views(rows@),
            anchors@,
            differences@,
            actions@.map_values(|a: String| a@),
        ),
        forall|i: int| 0 <= i < samples.len() ==> (#[trigger] samples[i]).wf(),
{
    let ghost names = actions@.map_values(|a: String| a@);
    let mut samples: Vec<Sample> = Vec::new();
    let mut i: usize = 0;
    while i < anchors.len()
        invariant
            i <= anchors.len(),
            differences.len() == anchors.len(),
            names == actions@.map_values(|a: String| a@),
            forall|j: int|
                0 <= j < anchors.len() ==> SEQ_LEN <= (#[trigger] anchors[j]).0 + 1 <= rows.len()
                    && anchors[j].1 < actions.len(),
            samples@.map_values(|s: Sample| s@) == samples_of(
                row_views(rows@),
                anchors@.take(i as int),
                differences@,
                names,
            ),
            forall|j: int| 0 <= j < samples.len() ==> (#[trigger] samples[j]).wf(),
        decreases anchors.len() - i,
    {
        let ghost before = samples@;
        let anchor: (usize, usize) = anchors[i];
        proof {
            assert(anchors@.take(i + 1).drop_last() =~= anchors@.take(i as int));
            assert(anchors@.take(i + 1).last() == anchor);
        }
        if !is_too_far(differences[i]) {
            if let Some(label) = class_index(actions[anchor.1].as_str()) {
                let features: Vec<u32> = flatten(rows, anchor.0 + 1 - SEQ_LEN, anchor.0 + 1);
                assert(features@ =~= window(row_views(rows@), anchor.0 as int));
                let sample: Sample = Sample { features, label };
                samples.push(sample);
                assert(samples@.map_values(|s: Sample| s@) =~= before.map_values(
                    |s: Sample| s@,
                ).push(sample@));
            }
        }
        i = i + 1;
    }
    assert(anchors@.take(anchors.len() as int) =~= anchors@);
    samples
}

/// Every anchor takes a label at or before it, no later label would do, and
/// anchors stand at whole steps from the first row with a full history.
pub proof fn law_anchors_take_latest_label(
    times: Seq<u64>,
    label_times: Seq<u64>,
    from: nat,
    i: int,
)
    requires
        times.len() <= usize::MAX,
        label_times.len() <= usize::MAX,
        0 <= i < anchors_from(times, label_times, from).len(),
    ensures
        ({
            let anchor = anchors_from(times, label_times, from)[i];
            &&& from <= anchor.0 < times.len()
            &&& (anchor.0 - from) % ANCHOR_STEP as int == 0
            &&& anchor.1 < label_times.len()
            &&& double_le(label_times[anchor.1 as int], times[anchor.0 as int])
            &&& forall|j: int|
                anchor.1 < j < label_times.len() ==> !double_le(
                    #[trigger] label_times[j],
                    times[anchor.0 as int],
                )
        }),
    decreases times.len() + ANCHOR_STEP - from,
{
    let rest = anchors_from(times, label_times, from + ANCHOR_STEP as nat);
    lemma_latest_label_is_latest(label_times, times[from as int]);
    match latest_label(label_times, times[from as int]) {
        Some(_) => {
            if i > 0 {
                law_anchors_take_latest_label(
                    times,
                    label_times,
                    from + ANCHOR_STEP as nat,
                    i - 1,
                );
            }
        },
        None => {
            law_anchors_take_latest_label(times, label_times, from + ANCHOR_STEP as nat, i);
        },
    }
}

/// Every row at a whole step from the first with a full history is an anchor,
/// if there is a label at or before it at all.
pub proof fn law_every_step_is_an_anchor(
    times: Seq<u64>,
    label_times: Seq<u64>,
    from: nat,
    row: nat,
    label: int,
)
    requires
        times.len() <= usize::MAX,
        label_times.len() <= usize::MAX,
        from <= row < times.len(),
        (row - from) % ANCHOR_STEP as int == 0,
        0 <= label < label_times.len(),
        double_le(label_times[label], times[row as int]),
    ensures
        exists|i: int|
            0 <= i < anchors_from(times, label_times, from).len() && (#[trigger] anchors_from(
                times,
                label_times,
                from,
            )[i]).0 == row,
    decreases times.len() + ANCHOR_STEP - from,
{
    let all = anchors_from(times, label_times, from);
    let rest = anchors_from(times, label_times, from + ANCHOR_STEP as nat);
    if row == from {
        lemma_latest_label_is_latest(label_times, times[from as int]);
        assert(all[0].0 == row);
    } else {
        law_every_step_is_an_anchor(
            times,
            label_times,
            from + ANCHOR_STEP as nat,
            row,
            label,
        );
        let i = choose|i: int| 0 <= i < rest.len() && (#[trigger] rest[i]).0 == row;
        match latest_label(label_times, times[from as int]) {
            Some(_) => {
                assert(all[i + 1] == rest[i]);
            },
            None => {
                assert(all[i] == rest[i]);
            },
        }
    }
}

/// The latest label is at or before the time, and the last that is.
pub proof fn lemma_latest_label_is_latest(label_times: Seq<u64>, time: u64)
    ensures
        match latest_label(label_times, time) {
            Some(label) => label < label_times.len() && double_le(label_times[label as int], time)
                && forall|j: int|
                label < j < label_times.len() ==> !double_le(#[trigger] label_times[j], time),
            None => forall|j: int|
                0 <= j < label_times.len() ==> !double_le(#[trigger] label_times[j], time),
        },
    decreases label_times.len(),
{
    if label_times.len() > 0 && !double_le(label_times.last(), time) {
        let shorter = label_times.drop_last();
        lemma_latest_label_is_latest(shorter, time);
        assert forall|j: int|
            0 <= j < label_times.len() && (latest_label(label_times, time) matches Some(
                label,
            ) ==> label < j) implies !double_le(#[trigger] label_times[j], time) by {
            if j < shorter.len() {
                assert(shorter[j] == label_times[j]);
            }
        }
    }
}

/// The six features from the fortieth on mark the symbol: a one at its place,
/// zeros at the others. So rows of different symbols never have the same marks.
pub proof fn law_marks_tell_symbols_apart(
    values: Seq<u64>,
    symbol: nat,
    other_values: Seq<u64>,
    other: nat,
)
    requires
        symbol < 6,
        other < 6,
    ensures
        features_of(values, symbol).len() == 54,
        features_of(values, symbol)[40 + symbol as int] == 0x3f80_0000,
        forall|j: int|
            40 <= j < 46 && j != 40 + symbol ==> #[trigger] features_of(values, symbol)[j] == 0,
        features_of(values, symbol).subrange(40, 46) == features_of(other_values, other).subrange(
            40,
            46,
        ) <==> symbol == other,
{
    let a = features_of(values, symbol);
    let b = features_of(other_values, other);
    let left = a.subrange(40, 46);
    let right = b.subrange(40, 46);
    if symbol == other {
        assert(left =~= right);
    } else {
        assert(left[symbol as int] == a[40 + symbol as int]);
        assert(right[symbol as int] == b[40 + symbol as int]);
    }
}

/// The first forty features are the values of the row in single precision, each
/// at its own place, and zeros beyond the row's end. They do not depend on the
/// symbol.
pub proof fn law_features_keep_the_values(values: Seq<u64>, symbol: nat, i: int)
    requires
        0 <= i < 40,
    ensures
        i < values.len() ==> features_of(values, symbol)[i] == rounded(values[i]),
        i >= values.len() ==> features_of(values, symbol)[i] == 0,
{
}

/// The last eight features say again what eight columns of the snapshot hold: the
/// vote on funding, the spread, the confidence of the field, the agreement; the
/// vote on the order book, the best bid, the price, the mark price.
pub proof fn law_last_features_repeat_columns(values: Seq<u64>, symbol: nat)
    ensures
        snapshot_columns()[4] == "funding_vote"@,
        features_of(values, symbol)[46] == features_of(values, symbol)[3],
        snapshot_columns()[37] == "spread_bps"@,
        features_of(values, symbol)[47] == features_of(values, symbol)[36],
        snapshot_columns()[36] == "mrf_confidence"@,
        features_of(values, symbol)[48] == features_of(values, symbol)[35],
        snapshot_columns()[34] == "agreement"@,
        features_of(values, symbol)[49] == features_of(values, symbol)[33],
        snapshot_columns()[1] == "ob_vote"@,
        features_of(values, symbol)[50] == features_of(values, symbol)[0],
        snapshot_columns()[40] == "best_bid"@,
        features_of(values, symbol)[51] == features_of(values, symbol)[39],
        snapshot_columns()[38] == "price"@,
        features_of(values, symbol)[52] == features_of(values, symbol)[37],
        snapshot_columns()[39] == "mark_price"@,
        features_of(values, symbol)[53] == features_of(values, symbol)[38],
{
}

/// Cells keep their places, and each that can be read its value. The others are
/// zero.
pub proof fn law_cells_keep_their_places(cells: Seq<Option<u64>>, i: int)
    requires
        0 <= i < cells.len(),
    ensures
        cell_values(cells).len() == cells.len(),
        cells[i] matches Some(value) ==> cell_values(cells)[i] == value,
        cells[i] is None ==> cell_values(cells)[i] == 0,
{
}

/// A label is too far away where the gap is more than five seconds either way:
/// five times the number whose units there are two to the 1074th of.
pub proof fn law_labels_count_within_five_seconds(difference: u64)
    requires
        !double_is_nan(difference),
    ensures
        too_far(difference) <==> (double_value(difference) > 5 * pow2(1074) || double_value(
            difference,
        ) < -(5 * pow2(1074))),
{
    let m = double_magnitude(difference);
    let gap = 0x4014_0000_0000_0000int;
    assert(gap / 0x10_0000_0000_0000 == 1025);
    assert(gap % 0x10_0000_0000_0000 == 0x4_0000_0000_0000);
    lemma_pow2_adds(1024, 50);
    lemma2_to64_rest();
    assert(double_units(gap) == 5 * pow2(1074)) by {
        let p = pow2(1024) as int;
        assert(0x14_0000_0000_0000 * p == 5 * (p * 0x4_0000_0000_0000)) by (nonlinear_arith);
    }
    law_double_rank_orders_values(m as u64, gap as u64);
    law_double_rank_orders_values(0, m as u64);
    assert(double_units(0) == 0);
}

/// A window holds the rows up to a row, twenty of them, oldest first: the value
/// at a time step and a feature is that of the row so many before the last.
pub proof fn law_windows_end_in_their_row(rows: Seq<Seq<u32>>, row: int, step: int, feature: int)
    requires
        19 <= row < rows.len(),
        0 <= step < 20,
        0 <= feature < 54,
    ensures
        window(rows, row).len() == 1080,
        window(rows, row)[step * 54 + feature] == rows[row - 19 + step][feature],
{
    let i = step * 54 + feature;
    assert(i / 54 == step);
    assert(i % 54 == feature);
}

/// Samples come from anchors, in their order: those whose label is near enough
/// and of a known action give one each, with the class of that action and the
/// window that ends in the anchor's row, and the others give none.
pub proof fn law_samples_follow_their_anchors(
    rows: Seq<Seq<u32>>,
    anchors: Seq<(usize, usize)>,
    differences: Seq<u64>,
    actions: Seq<Seq<char>>,
) -> (picks: Seq<int>)
    requires
        differences.len() == anchors.len(),
    ensures
        picks.len() == samples_of(rows, anchors, differences, actions).len(),
        forall|j: int| 0 <= j < picks.len() ==> 0 <= #[trigger] picks[j] < anchors.len(),
        forall|i: int, j: int| 0 <= i < j < picks.len() ==> #[trigger] picks[i] < #[trigger] picks[j],
        forall|i: int|
            0 <= i < anchors.len() ==> (#[trigger] picks.contains(i) <==> !too_far(differences[i])
                && class_of(actions[anchors[i].1 as int]) is Some),
        forall|j: int|
            0 <= j < picks.len() ==> ({
                let sample = #[trigger] samples_of(rows, anchors, differences, actions)[j];
                let anchor = anchors[picks[j]];
                &&& sample.0 == window(rows, anchor.0 as int)
                &&& class_of(actions[anchor.1 as int]) == Some(sample.1)
            }),
    decreases anchors.len(),
{
    if anchors.len() == 0 {
        Seq::empty()
    } else {
        let last = anchors.len() - 1;
        let earlier = samples_of(rows, anchors.drop_last(), differences, actions);
        lemma_differences_beyond(rows, anchors.drop_last(), differences, actions);
        let before = law_samples_follow_their_anchors(
            rows,
            anchors.drop_last(),
            differences.drop_last(),
            actions,
        );
        let keep = sample_of(rows, anchors.last(), differences[last], actions) is Some;
        let picks = if keep {
            before.push(last)
        } else {
            before
        };
        assert forall|i: int| 0 <= i < anchors.len() implies (#[trigger] picks.contains(i)
            <==> !too_far(differences[i]) && class_of(actions[anchors[i].1 as int]) is Some) by {
            if i < last {
                assert(before.contains(i) <==> !too_far(differences.drop_last()[i]) && class_of(
                    actions[anchors.drop_last()[i].1 as int],
                ) is Some);
                if keep {
                    if before.contains(i) {
                        let j = before.index_of(i);
                        assert(picks[j] == i);
                    }
                    if picks.contains(i) {
                        let j = picks.index_of(i);
                        assert(picks[j] == i);
                        assert(before[j] == i);
                    }
                }
            } else if keep {
                assert(picks[before.len() as int] == last);
            } else if picks.contains(i) {
                let j = picks.index_of(i);
                assert(before[j] == i);
            }
        }
        assert forall|j: int| 0 <= j < picks.len() implies ({
            let sample = #[trigger] samples_of(rows, anchors, differences, actions)[j];
            let anchor = anchors[picks[j]];
            &&& sample.0 == window(rows, anchor.0 as int)
            &&& class_of(actions[anchor.1 as int]) == Some(sample.1)
        }) by {
            if j < before.len() {
                assert(earlier[j] == samples_of(
                    rows,
                    anchors.drop_last(),
                    differences.drop_last(),
                    actions,
                )[j]);
                assert(anchors.drop_last()[before[j]] == anchors[picks[j]]);
            }
        }
        picks
    }
}

proof fn lemma_differences_beyond(
    rows: Seq<Seq<u32>>,
    anchors: Seq<(usize, usize)>,
    differences: Seq<u64>,
    actions: Seq<Seq<char>>,
)
    requires
        differences.len() > anchors.len(),
    ensures
        samples_of(rows, anchors, differences, actions) == samples_of(
            rows,
            anchors,
            differences.drop_last(),
            actions,
        ),
    decreases anchors.len(),
{
    if anchors.len() > 0 {
        lemma_differences_beyond(rows, anchors.drop_last(), differences, actions);
    }
}

/// The feature rows of a symbol are those of its snapshots, one by one.
pub proof fn law_feature_rows_keep_their_places(rows: Seq<SnapshotRow>, symbol: nat, i: int)
    requires
        0 <= i < rows.len(),
    ensures
        feature_rows(rows, symbol).len() == rows.len(),
        feature_rows(rows, symbol)[i] == features_of(rows[i].values@, symbol),
{
}

/// A whole sample has twenty time steps of fifty-four features and one of four
/// classes, and is seen with all of them.
pub proof fn law_samples_are_whole(sample: Sample)
    ensures
        sample.wf() <==> sample.features@.len() == 20 * 54 && sample.label < 4,
        sample@.0 == sample.features@,
        sample@.1 == sample.label,
{
}

/// Times ascend exactly where each is at or before all that follow it, which no
/// time is that is no number.
pub proof fn law_times_ascend_in_pairs(times: Seq<u64>)
    ensures
        ascending(times) <==> forall|i: int, j: int|
            0 <= i <= j < times.len() ==> double_le(#[trigger] times[i], #[trigger] times[j]),
{
    if forall|i: int, j: int|
        0 <= i <= j < times.len() ==> double_le(#[trigger] times[i], #[trigger] times[j]) {
        assert forall|i: int| 0 <= i < times.len() implies !double_is_nan(#[trigger] times[i]) by {
            assert(double_le(times[i], times[i]));
        }
    }
}

} // verus!
