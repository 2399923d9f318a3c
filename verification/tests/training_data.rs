use joi_burn::config::INPUT_DIM;
use joi_burn::dataset::{
    build_features, build_rows, build_samples, find_label, is_ascending, is_too_far,
    label_of_cells, pair_anchors, row_of_cells, Sample, SnapshotRow,
};
use joi_burn::history::{build_dataset, prepare, SymbolHistory};
use joi_burn::ieee::{is_double_le, is_double_lt, is_single_nan, rank_of_double, rank_of_single};
use joi_burn::query::{label_query, snapshot_query};
use joi_burn::split::{feature_column, shuffle_and_split, split};
use joi_burn::text::{decimal_text, join, parse_number};
use joi_burn::training::{
    batch_inputs, batches, is_batch_report_due, Best, Tally,
};

fn times(list: &[f64]) -> Vec<u64> {
    list.iter().map(|t| t.to_bits()).collect()
}

fn sample(tag: u32, label: usize) -> Sample {
    Sample { features: (0..1080).map(|i| tag * 10_000 + i).collect(), label }
}

#[test]
fn queries() {
    let query = snapshot_query();
    assert!(query.starts_with("SELECT ts,ob_vote,tape_vote,mdf_vote,funding_vote,"));
    assert!(query.ends_with(
        ",dax_modifier,mdt_confirmed,mdt_momentum_bps,omega,effective_omega,agreement,\
         num_voters,mrf_confidence,spread_bps,price,mark_price,best_bid \
         FROM signal_snapshots WHERE symbol=? ORDER BY ts ASC"
    ));
    assert_eq!(query.matches(',').count(), 40);
    assert_eq!(
        label_query(),
        "SELECT ts, action FROM omega_history WHERE symbol=? ORDER BY ts ASC"
    );
}

#[test]
fn texts() {
    assert_eq!(decimal_text(0), "0");
    assert_eq!(decimal_text(1080), "1080");
    assert_eq!(decimal_text(usize::MAX), usize::MAX.to_string());
    assert_eq!(join(&vec![], ","), "");
    assert_eq!(join(&vec!["a".to_string()], ","), "a");
    assert_eq!(join(&vec!["a".to_string(), "".to_string(), "c".to_string()], ", "), "a, , c");
    assert_eq!(parse_number("12"), Some(12));
    for n in [0usize, 9, 10, 1080, usize::MAX] {
        assert_eq!(parse_number(&decimal_text(n)), Some(n as u64));
        assert_eq!(parse_number(&format!("+{}", decimal_text(n))), Some(n as u64));
    }
}

#[test]
fn feature_layout() {
    let values: Vec<u64> = (100..140).map(|v| (v as f64 + 0.1).to_bits()).collect();
    let features = build_features(&values, 2);
    let single = |v: u32| ((v as f64 + 0.1) as f32).to_bits();
    for i in 0..40 {
        assert_eq!(features[i as usize], single(100 + i));
    }
    let one = 1.0f32.to_bits();
    assert_eq!(&features[40..46], &[0, 0, one, 0, 0, 0]);
    assert_eq!(&features[46..50], &[103, 136, 135, 133].map(single));
    assert_eq!(&features[50..54], &[100, 139, 137, 138].map(single));
}

#[test]
fn cells_that_cannot_be_read() {
    let bits = |x: f64| Some(x.to_bits());
    let row = row_of_cells(bits(5.0), &vec![bits(1.5), None, bits(-2.0)]).unwrap();
    assert_eq!(row.ts, 5.0f64.to_bits());
    assert_eq!(row.values, times(&[1.5, 0.0, -2.0]));
    assert!(row_of_cells(None, &vec![bits(1.5)]).is_none());
    let action = || Some("HOLD".to_string());
    assert_eq!(label_of_cells(bits(3.0), action()), Some((3.0f64.to_bits(), "HOLD".to_string())));
    assert!(label_of_cells(None, action()).is_none());
    assert!(label_of_cells(bits(3.0), None).is_none());
}

#[test]
fn short_rows_are_padded() {
    let features = build_features(&times(&[9.0, 8.0, 7.0, 6.0]), 0).map(f32::from_bits);
    assert_eq!(&features[..5], &[9.0, 8.0, 7.0, 6.0, 0.0]);
    assert_eq!(&features[46..54], &[6.0, 0.0, 0.0, 0.0, 9.0, 0.0, 0.0, 0.0]);
    assert_eq!(build_features(&vec![], 5)[45], 1.0f32.to_bits());
}

#[test]
fn labels_at_or_before() {
    let labels = times(&[1.0, 2.0, 2.0, 5.0]);
    let find = |t: f64| find_label(&labels, t.to_bits());
    assert_eq!(find(0.5), None);
    assert_eq!(find(1.0), Some(0));
    assert_eq!(find(2.0), Some(2));
    assert_eq!(find(4.9), Some(2));
    assert_eq!(find(f64::INFINITY), Some(3));
    assert_eq!(find(f64::NAN), None);
    assert_eq!(find_label(&vec![], 1.0f64.to_bits()), None);
    for t in [0.0, 1.5, 3.0, 7.0] {
        let sorted = [1.0, 2.0, 2.0, 5.0];
        let count = sorted.partition_point(|&x| x <= t);
        assert_eq!(find(t), count.checked_sub(1));
    }
}

#[test]
fn ascending_times() {
    assert!(is_ascending(&times(&[])));
    assert!(is_ascending(&times(&[-1.0, -0.0, 0.0, 3.0, 3.0])));
    assert!(!is_ascending(&times(&[1.0, 0.5])));
    assert!(!is_ascending(&times(&[1.0, f64::NAN])));
}

#[test]
fn distances() {
    for d in [0.0f64, 5.0, -5.0, 5.000000001, -5.000000001, 1e300, f64::INFINITY, f64::NAN] {
        assert_eq!(is_too_far(d.to_bits()), d.abs() > 5.0);
    }
}

#[test]
fn anchors_every_fifth_row() {
    let rows: Vec<f64> = (0..32).map(|i| i as f64).collect();
    let labels = times(&[22.0, 24.5, 30.0]);
    assert_eq!(pair_anchors(&times(&rows), &labels), vec![(25, 1), (30, 2)]);
    assert_eq!(pair_anchors(&times(&rows[..20]), &labels), vec![]);
    assert_eq!(pair_anchors(&times(&rows[..21]), &times(&[20.0])), vec![(20, 0)]);
    assert_eq!(pair_anchors(&times(&rows), &vec![]), vec![]);
}

#[test]
fn samples_from_anchors() {
    let snapshots: Vec<SnapshotRow> = (0..41u32)
        .map(|i| SnapshotRow { ts: (i as f64).to_bits(), values: times(&[i as f64]) })
        .collect();
    let (ts, rows) = build_rows(&snapshots, 1);
    assert_eq!(ts[7], 7.0f64.to_bits());
    let label_times = times(&[19.0, 24.0, 30.0, 34.0]);
    let actions: Vec<String> =
        ["HOLD", "PANIC", "ENTER_SHORT", "OBSERVE"].iter().map(|s| s.to_string()).collect();
    let anchors = pair_anchors(&ts, &label_times);
    assert_eq!(anchors, vec![(20, 0), (25, 1), (30, 2), (35, 3), (40, 3)]);
    let differences: Vec<u64> = anchors
        .iter()
        .map(|&(a, l)| {
            (f64::from_bits(label_times[l]) - f64::from_bits(ts[a])).to_bits()
        })
        .collect();
    let samples = build_samples(&rows, &anchors, &differences, &actions);
    let labels: Vec<usize> = samples.iter().map(|s| s.label).collect();
    assert_eq!(labels, vec![1, 3, 0]);
    assert_eq!(samples[0].features.len(), 1080);
    assert_eq!(samples[0].features[0], 1.0f32.to_bits());
    assert_eq!(samples[0].features[19 * INPUT_DIM], 20.0f32.to_bits());
    assert_eq!(samples[1].features[0], 11.0f32.to_bits());
    assert_eq!(samples[1].features[19 * INPUT_DIM + 50], 30.0f32.to_bits());
    assert_eq!(samples[1].features[41], 1.0f32.to_bits());
}

#[test]
fn every_labelled_window_of_every_symbol() {
    let history = |count: usize, first: f64| SymbolHistory {
        snapshots: (0..count)
            .map(|i| SnapshotRow { ts: (i as f64).to_bits(), values: times(&[first + i as f64]) })
            .collect(),
        label_times: times(&[18.0, 29.0, 34.0]),
        actions: ["HOLD", "ENTER_LONG", "WAIT"].iter().map(|s| s.to_string()).collect(),
    };
    let counts = [20, 21, 31, 0, 36, 41];
    let histories: Vec<SymbolHistory> =
        counts.iter().enumerate().map(|(k, &n)| history(n, 1000.0 * k as f64)).collect();
    let differences: Vec<Vec<u64>> = histories
        .iter()
        .map(|h| {
            h.pair()
                .into_iter()
                .map(|(a, l)| {
                    let gap = f64::from_bits(h.label_times[l]) - f64::from_bits(h.snapshots[a].ts);
                    gap.to_bits()
                })
                .collect()
        })
        .collect();
    let mut expected: Vec<(f32, usize)> = Vec::new();
    for (k, &n) in counts.iter().enumerate() {
        for row in (20..n).step_by(5) {
            let label = match row {
                20 => Some(1),
                30 => Some(2),
                _ => None,
            };
            if let Some(label) = label {
                expected.push(((1000 * k + row) as f32, label));
            }
        }
    }
    let read = |samples: &[Sample]| -> Vec<(f32, usize)> {
        samples
            .iter()
            .map(|s| {
                let newest = f32::from_bits(s.features[19 * INPUT_DIM]);
                let symbol = newest as usize / 1000;
                for t in 0..20 {
                    let value = f32::from_bits(s.features[t * INPUT_DIM]);
                    assert_eq!(value, newest - (19 - t) as f32);
                    assert_eq!(s.features[t * INPUT_DIM + 40 + symbol], 1.0f32.to_bits());
                }
                (newest, s.label)
            })
            .collect()
    };
    assert_eq!(read(&build_dataset(&histories, &differences)), expected);
    let parts = prepare(&histories, &differences);
    assert_eq!(parts.val.len(), expected.len() / 10);
    let mut all = read(&parts.val);
    all.extend(read(&parts.train));
    all.sort_by(|a, b| a.partial_cmp(b).unwrap());
    assert_eq!(all, expected);
}

#[test]
fn tenth_for_validation() {
    let parts = split((0..25).map(|i| sample(i, 0)).collect());
    assert_eq!(parts.val.len(), 2);
    assert_eq!(parts.train.len(), 23);
    assert_eq!(parts.val[1].features[0], 10_000);
    assert_eq!(parts.train[0].features[0], 20_000);
    assert_eq!(split((0..9).map(|i| sample(i, 0)).collect()).val.len(), 0);
}

#[test]
fn shuffling_keeps_every_sample() {
    let parts = shuffle_and_split((0..500).map(|i| sample(i, i as usize % 4)).collect());
    assert_eq!(parts.val.len(), 50);
    assert_eq!(parts.train.len(), 450);
    let mut order: Vec<u32> =
        parts.val.iter().chain(parts.train.iter()).map(|s| s.features[0] / 10_000).collect();
    let sorted: Vec<u32> = (0..500).collect();
    assert_ne!(order, sorted);
    order.sort();
    assert_eq!(order, sorted);
    for s in parts.train.iter() {
        assert_eq!(s.label, (s.features[0] / 10_000) as usize % 4);
    }
}

#[test]
fn columns() {
    let column = feature_column(&vec![sample(0, 0), sample(1, 0)], 3);
    assert_eq!(column.len(), 40);
    assert_eq!(column[0], 3);
    assert_eq!(column[1], 57);
    assert_eq!(column[19], 19 * 54 + 3);
    assert_eq!(column[20], 10_003);
    assert_eq!(column[39], 10_000 + 19 * 54 + 3);
}

#[test]
fn batches_tile_the_samples() {
    let list: Vec<(usize, usize, usize)> =
        batches(10, 4).iter().map(|b| (b.index, b.start, b.end)).collect();
    assert_eq!(list, vec![(0, 0, 4), (1, 4, 8), (2, 8, 10)]);
    assert_eq!(batches(8, 4).len(), 2);
    assert_eq!(batches(0, 4).len(), 0);
    let one = batches(3, usize::MAX);
    assert_eq!((one.len(), one[0].start, one[0].end), (1, 0, 3));
}

#[test]
fn batch_contents() {
    let inputs = batch_inputs(&vec![sample(0, 3), sample(1, 1), sample(2, 2)], 1, 3);
    assert_eq!(inputs.features.len(), 2160);
    assert_eq!(inputs.features[0], 10_000);
    assert_eq!(inputs.features[1079], 11_079);
    assert_eq!(inputs.features[1080], 20_000);
    assert_eq!(inputs.labels, vec![1, 2]);
}

#[test]
fn batch_reports() {
    let due: Vec<usize> = (0..160).filter(|&i| is_batch_report_due(i)).collect();
    assert_eq!(due, vec![0, 49, 99, 149]);
}

#[test]
fn counting() {
    let mut tally = Tally::new();
    tally.count(3, 16);
    tally.count(5, 10);
    assert_eq!((tally.correct, tally.total), (8, 26));
}

#[test]
fn best_epoch() {
    let mut best = Best::new();
    assert_eq!(f64::from_bits(best.loss), f64::MAX);
    let losses = [f64::NAN, f64::INFINITY, 2.0, 1.5, 1.5, 1.75, f64::NAN];
    let better: Vec<bool> = losses
        .iter()
        .enumerate()
        .map(|(i, l)| best.offer(i + 1, l.to_bits()))
        .collect();
    assert_eq!(better, vec![false, false, true, true, false, false, false]);
    assert_eq!(best.epoch, 4);
    assert_eq!(f64::from_bits(best.loss), 1.5);
    let mut none = Best::new();
    assert!(!none.offer(1, f64::MAX.to_bits()));
    assert_eq!(none.epoch, 0);
}

#[test]
fn ranks_order_as_floats() {
    let doubles = [
        0.0f64, -0.0, 1.0, -1.0, 1e-310, -1e-310, f64::MAX, f64::MIN, f64::INFINITY,
        f64::NEG_INFINITY, f64::NAN, 5.0,
    ];
    for a in doubles {
        for b in doubles {
            assert_eq!(is_double_le(a.to_bits(), b.to_bits()), a <= b);
            assert_eq!(is_double_lt(a.to_bits(), b.to_bits()), a < b);
        }
    }
    let singles = [0.0f32, -0.0, 1.0, -1.0, 1e-40, f32::MAX, f32::NEG_INFINITY];
    for a in singles {
        for b in singles {
            assert_eq!(
                rank_of_single(a.to_bits()).cmp(&rank_of_single(b.to_bits())),
                a.partial_cmp(&b).unwrap()
            );
        }
    }
    assert!(is_single_nan(f32::NAN.to_bits()) && is_single_nan((-f32::NAN).to_bits()));
    assert!(!is_single_nan(f32::INFINITY.to_bits()));
    assert_eq!(rank_of_double((-1.0f64).to_bits()), -rank_of_double(1.0f64.to_bits()));
}
