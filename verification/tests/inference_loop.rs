use joi_burn::cli::{archive_path, deviations_path, means_path, parse_args, Invocation, RunConfig};
use joi_burn::config::{class_index, class_name, symbol_index, symbol_name, INPUT_DIM, SEQ_LEN};
use joi_burn::engine::{is_status_due, Engine, Step};
use joi_burn::predict::{best_class, predict, report, short_action};
use joi_burn::ring::FeatureRingBuffer;
use joi_burn::snapshot::read_features_snapshot;
use joi_burn::rounding::round_to_single;
use joi_burn::stats::{divisor, floor_deviation, load_npy, training_deviation};

fn row(v: u32) -> [u32; INPUT_DIM] {
    [v; INPUT_DIM]
}

fn args(list: &[&str]) -> Vec<String> {
    list.iter().map(|s| s.to_string()).collect()
}

fn run(list: &[&str]) -> RunConfig {
    match parse_args(&args(list)) {
        Invocation::Run(config) => config,
        Invocation::Help => panic!("help"),
    }
}

#[test]
fn names_and_numbers_agree() {
    for c in 0..4 {
        assert_eq!(class_index(class_name(c)), Some(c));
    }
    assert_eq!(class_name(3), "ENTER_SHORT");
    assert_eq!(class_index("hold"), None);
    for s in 0..6 {
        assert_eq!(symbol_index(symbol_name(s)), Some(s));
    }
    assert_eq!(symbol_name(3), "HYPE");
    assert_eq!(symbol_index("DOGE"), None);
}

#[test]
fn ring_gives_the_latest_rows() {
    let mut ring = FeatureRingBuffer::new();
    for i in 0..19 {
        ring.push("ETH", row(i));
        assert!(ring.get_sequence("ETH").is_none());
    }
    for i in 19..100 {
        ring.push("ETH", row(i));
        let sequence = ring.get_sequence("ETH").unwrap();
        assert_eq!(sequence.len(), SEQ_LEN);
        assert_eq!(sequence[0], row(i - 19));
        assert_eq!(sequence[19], row(i));
    }
    assert_eq!(ring.rows(0), 0);
}

#[test]
fn ring_is_cut_back() {
    let mut ring = FeatureRingBuffer::new();
    for i in 0..40 {
        ring.push("BTC", row(i));
    }
    assert_eq!(ring.rows(0), 40);
    ring.push("BTC", row(40));
    assert_eq!(ring.rows(0), 20);
    ring.push("DOGE", row(1));
    assert!(ring.get_sequence("DOGE").is_none());
    assert_eq!(ring.rows(0), 20);
}

#[test]
fn loop_predicts_from_the_twentieth_snapshot_on() {
    let mut engine = Engine::new();
    let mut taken = 0;
    for tick in 1..=50u64 {
        let nothing = tick % 7 == 0;
        let reading = if nothing {
            None
        } else {
            taken += 1;
            Some((0..6).map(|k| row(taken * 10 + k)).collect())
        };
        match engine.step(reading) {
            Step::Waiting { report } => {
                assert!(nothing);
                assert_eq!(report, tick % 10 == 0);
            }
            Step::Buffering { counts } => {
                assert!(!nothing && taken < 20);
                assert_eq!(counts.is_some(), tick % 5 == 0);
                if tick == 15 {
                    assert_eq!(
                        counts.unwrap(),
                        "BTC=13 ETH=13 SOL=13 HYPE=13 BNB=13 LINK=13"
                    );
                }
            }
            Step::Ready { inputs } => {
                assert!(!nothing && taken >= 20);
                assert_eq!(inputs.len(), 6);
                assert_eq!(inputs[2].len(), SEQ_LEN * INPUT_DIM);
                assert_eq!(inputs[2][0], (taken - 19) * 10 + 2);
                assert_eq!(inputs[2][SEQ_LEN * INPUT_DIM - 1], taken * 10 + 2);
                assert_eq!(inputs[5][INPUT_DIM], (taken - 18) * 10 + 5);
            }
        }
        assert_eq!(engine.tick, tick);
    }
}

#[test]
fn status_lines() {
    let due: Vec<u64> = (1..=130).filter(|&t| is_status_due(t)).collect();
    assert_eq!(due, vec![1, 2, 3, 60, 120]);
}

#[test]
fn best_action() {
    let bits = |v: [f32; 4]| v.map(|x| x.to_bits());
    assert_eq!(best_class(&bits([0.1, 0.2, 0.6, 0.1])), Some(2));
    assert_eq!(best_class(&bits([0.25, 0.25, 0.25, 0.25])), Some(3));
    assert_eq!(best_class(&bits([0.4, 0.1, 0.4, 0.1])), Some(2));
    assert_eq!(best_class(&bits([-0.0, 0.0, -1.0, -2.0])), Some(1));
    assert_eq!(best_class(&bits([-3.0, -2.0, f32::NEG_INFINITY, -4.0])), Some(1));
    assert_eq!(best_class(&bits([0.1, f32::NAN, 0.6, 0.1])), None);
}

#[test]
fn best_action_agrees_with_float_order() {
    let values = [0.0f32, -0.0, 1.5, -1.5, 1e-40, f32::INFINITY, f32::NEG_INFINITY, f32::MAX];
    for a in values {
        for b in values {
            for c in values {
                for d in values {
                    let list = [a, b, c, d];
                    let expected = list
                        .iter()
                        .enumerate()
                        .max_by(|x, y| x.1.partial_cmp(y.1).unwrap())
                        .unwrap()
                        .0;
                    assert_eq!(best_class(&list.map(|x| x.to_bits())), Some(expected));
                }
            }
        }
    }
}

#[test]
fn prediction_and_report() {
    let probs = [0.1f32, 0.2, 0.3, 0.4].map(|x| x.to_bits());
    let p = predict(4, &probs, 0.75f32.to_bits(), 1.5f64.to_bits()).unwrap();
    assert_eq!(p.symbol, "BNB");
    assert_eq!(p.action, "ENTER_SHORT");
    assert_eq!(p.action_probs.len(), 4);
    assert_eq!(p.action_probs[1], ("HOLD".to_string(), 0.2f32.to_bits()));
    assert_eq!(p.confidence, 0.75f32.to_bits());
    assert_eq!(p.inference_ms, 1.5f64.to_bits());
    assert_eq!(p.seq_len, 20);
    assert_eq!(p.top_active_brains, 300);
    assert!(predict(0, &[f32::NAN.to_bits(), 0, 0, 0], 0, 0).is_none());
    let output = report(7, "now".to_string(), vec![p], 2);
    assert_eq!(output.tick, 7);
    assert_eq!(output.timestamp, "now");
    assert_eq!(output.predictions.len(), 1);
    assert_eq!(output.model, "burn_swarm_v3_300b_temporal_metal");
    assert_eq!(output.total_inference_ms, 2);
}

#[test]
fn short_actions() {
    assert_eq!(short_action("ENTER_LONG"), "ENT");
    assert_eq!(short_action("HOLD"), "HOL");
    assert_eq!(short_action("no"), "no");
    assert_eq!(short_action(""), "");
}

fn snapshot(last: &str) -> String {
    format!(
        "{{\"BTC\":[1,-2.5,1e3],\"ETH\":[],\"SOL\":[0.1],\"HYPE\":[3],\"BNB\":[4],\"LINK\":{last}}}"
    )
}

#[test]
fn snapshot_rows() {
    let rows = read_features_snapshot(&snapshot("[5, 6, 7]")).unwrap();
    assert_eq!(rows.len(), 6);
    assert_eq!(rows[0][0], 1.0f32.to_bits());
    assert_eq!(rows[0][1], (-2.5f32).to_bits());
    assert_eq!(rows[0][2], 1000.0f32.to_bits());
    assert_eq!(rows[0][3], 0);
    assert_eq!(rows[1], [0u32; INPUT_DIM]);
    assert_eq!(rows[2][0], 0.1f32.to_bits());
    assert_eq!(rows[5][2], 7.0f32.to_bits());
}

#[test]
fn snapshot_with_more_than_enough() {
    let mut list: Vec<String> = (0..54).map(|i| i.to_string()).collect();
    list.push("\"beyond\"".to_string());
    let rows = read_features_snapshot(&snapshot(&format!("[{}]", list.join(",")))).unwrap();
    assert_eq!(rows[5][53], 53.0f32.to_bits());
}

#[test]
fn snapshots_that_are_none() {
    assert!(read_features_snapshot("").is_none());
    assert!(read_features_snapshot("[1, 2]").is_none());
    assert!(read_features_snapshot("{\"BTC\":[1]}").is_none());
    assert!(read_features_snapshot(&snapshot("{\"a\":1}")).is_none());
    assert!(read_features_snapshot(&snapshot("[1, \"x\"]")).is_none());
    assert!(read_features_snapshot(&snapshot("[null]")).is_none());
}

fn npy(header: u16, values: &[f32]) -> Vec<u8> {
    let mut file = vec![0x93, b'N', b'U', b'M', b'P', b'Y', 1, 0];
    file.extend_from_slice(&header.to_le_bytes());
    file.extend(std::iter::repeat(b' ').take(header as usize));
    for v in values {
        file.extend_from_slice(&v.to_le_bytes());
    }
    file
}

#[test]
fn statistics_from_array_files() {
    let full: Vec<f32> = (0..60).map(|i| i as f32 * 0.5).collect();
    let read = load_npy(&npy(118, &full)).unwrap();
    assert_eq!(read[0], 0);
    assert_eq!(read[53], 26.5f32.to_bits());
    let short = load_npy(&npy(300, &[1.0, 2.0])).unwrap();
    assert_eq!(short[1], 2.0f32.to_bits());
    assert_eq!(short[2], 0);
    let mut cut = npy(4, &[1.0, 2.0]);
    cut.pop();
    assert_eq!(load_npy(&cut).unwrap()[1], 0);
    assert!(load_npy(&npy(4, &[])[..9]).is_none());
    assert!(load_npy(&npy(4, &[])[..13]).is_none());
    assert!(load_npy(&npy(4, &[])).is_some());
}

#[test]
fn divisors() {
    let by = |x: f32| f32::from_bits(divisor(x.to_bits()));
    assert_eq!(by(2.0), 2.0);
    assert_eq!(by(-2.0), -2.0);
    assert_eq!(by(0.0), 1.0);
    assert_eq!(by(-0.0), 1.0);
    assert_eq!(by(9.9e-9), 1.0);
    assert_eq!(by(-9.9e-9), 1.0);
    assert_eq!(by(1e-8), 1e-8);
    assert!(by(f32::NAN).is_nan());
    for x in [0.0f32, 1e-9, 1e-8, 1.0000001e-8, 1e-7, 3.0] {
        let expected = if x.abs() < 1e-8 { 1.0 } else { x };
        assert_eq!(by(x), expected);
    }
}

#[test]
fn least_deviation() {
    let kept = |x: f64| f64::from_bits(floor_deviation(x.to_bits()));
    for x in [0.0f64, 1e-9, 1e-8, 2e-8, 5.0, -1.0, f64::INFINITY] {
        assert_eq!(kept(x), x.max(1e-8));
    }
    assert_eq!(kept(f64::NAN), 1e-8);
}

#[test]
fn rounding_agrees_with_casts() {
    let check = |x: f64| {
        assert_eq!(round_to_single(x.to_bits()), (x as f32).to_bits());
        assert_eq!(round_to_single((-x).to_bits()), (-x as f32).to_bits());
    };
    let mut seed = 1u64;
    for _ in 0..20_000 {
        seed = seed.wrapping_mul(6_364_136_223_846_793_005).wrapping_add(1_442_695_040_888_963_407);
        let bits = seed >> 1;
        let near = (bits & 0x000f_ffff_ffff_ffff) | (870 + (bits >> 52) % 290) << 52;
        for candidate in [bits, near] {
            if !f64::from_bits(candidate).is_nan() {
                check(f64::from_bits(candidate));
            }
        }
    }
    for single in [0u32, 1, 2, 3, 0x7f_ffff, 0x80_0000, 0x3f80_0000, 0x3f80_0001, 0x7f7f_ffff] {
        let low = f32::from_bits(single) as f64;
        let high = if single == 0x7f7f_ffff {
            2f64.powi(128)
        } else {
            f32::from_bits(single + 1) as f64
        };
        let middle = low + (high - low) / 2.0;
        for x in [low, middle, high] {
            check(x);
            check(f64::from_bits(x.to_bits() + 1));
            if x > 0.0 {
                check(f64::from_bits(x.to_bits() - 1));
            }
        }
    }
    for x in [0.0, f64::MAX, f64::INFINITY, f64::MIN_POSITIVE, 1e-320, 1e-8, 1e-5] {
        check(x);
    }
    assert!(f32::from_bits(round_to_single(f64::NAN.to_bits())).is_nan());
}

#[test]
fn deviations_alike_in_training_and_inference() {
    for x in [0.0f64, 1e-9, 1e-8, 1.0000001e-8, 2e-8, 0.5, 7.25, 1e300, f64::NAN] {
        let kept = training_deviation(x.to_bits());
        assert_eq!(f32::from_bits(kept), x.max(1e-8) as f32);
        assert!(f32::from_bits(kept) >= 1e-8f32);
        assert_eq!(divisor(kept), kept);
    }
    assert_eq!(f32::from_bits(training_deviation(0)), 1e-8f32);
}

#[test]
fn arguments_by_place() {
    let config = run(&["joi-burn"]);
    assert_eq!(config.model_dir, "./weights");
    assert_eq!(config.features_path, "./quant/burn_features_cache.json");
    assert_eq!(config.output_path, "./burn_brain_signal.json");
    assert_eq!(config.interval_s, 1);
    assert!(!config.single_shot);
    let config = run(&["joi-burn", "w", "/ws", "5", "--once"]);
    assert_eq!(config.model_dir, "w");
    assert_eq!(config.features_path, "/ws/quant/burn_features_cache.json");
    assert_eq!(config.output_path, "/ws/burn_brain_signal.json");
    assert_eq!(config.interval_s, 5);
    assert!(config.single_shot);
}

#[test]
fn intervals() {
    let interval = |text: &str| run(&["joi-burn", "w", "ws", text]).interval_s;
    for text in ["7", "+7", "007", "0", "18446744073709551615"] {
        assert_eq!(interval(text), text.parse::<u64>().unwrap());
    }
    for text in ["", "+", "-1", "1.5", " 1", "1 ", "x", "18446744073709551616", "++1"] {
        assert!(text.parse::<u64>().is_err());
        assert_eq!(interval(text), 1);
    }
}

#[test]
fn arguments_by_name() {
    let config = run(&[
        "joi-burn",
        "--model-dir",
        "./w",
        "--input",
        "in.json",
        "--output",
        "out.json",
    ]);
    assert_eq!(config.model_dir, "./w");
    assert_eq!(config.features_path, "in.json");
    assert_eq!(config.output_path, "out.json");
    assert_eq!(config.interval_s, 1);
    let config = run(&["joi-burn", "--once", "--output", "o", "--input"]);
    assert_eq!(config.model_dir, "./weights");
    assert_eq!(config.features_path, "./quant/burn_features_cache.json");
    assert_eq!(config.output_path, "o");
    assert!(config.single_shot);
}

#[test]
fn arguments_by_name_and_by_place() {
    let config = run(&["joi-burn", "./m", "./ws", "5", "--output", "x"]);
    assert_eq!(config.model_dir, "./m");
    assert_eq!(config.features_path, "./ws/quant/burn_features_cache.json");
    assert_eq!(config.output_path, "x");
    assert_eq!(config.interval_s, 5);
    let config = run(&["joi-burn", "--input", "i", "7", "--model-dir", "./n"]);
    assert_eq!(config.model_dir, "./n");
    assert_eq!(config.features_path, "i");
    assert_eq!(config.output_path, "./burn_brain_signal.json");
    assert_eq!(config.interval_s, 7);
    let config = run(&["joi-burn", "./m", "--input", "9", "--once"]);
    assert_eq!(config.model_dir, "./m");
    assert_eq!(config.features_path, "9");
    assert_eq!(config.interval_s, 1);
    let config = run(&["joi-burn", "--once", "ws", "2"]);
    assert_eq!(config.model_dir, "--once");
    assert_eq!(config.output_path, "ws/burn_brain_signal.json");
    assert_eq!(config.interval_s, 2);
}

#[test]
fn help() {
    assert!(matches!(parse_args(&args(&["joi-burn", "w", "--help"])), Invocation::Help));
}

#[test]
fn files_of_the_weights() {
    assert_eq!(archive_path("./weights"), "./weights/swarm_v2_beast.safetensors");
    assert_eq!(means_path("d"), "d/norm_means.npy");
    assert_eq!(deviations_path("d"), "d/norm_stds.npy");
}
