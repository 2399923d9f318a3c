use joi_burn::config::INPUT_DIM;
use joi_burn::graph::{Op, Program};
use joi_burn::ieee::DOUBLE_EPSILON;
use joi_burn::inference::{inference_pass, layer_pass};
use joi_burn::model::{
    estimate_params, inference_attention, AttentionPlan, BatchedBrainSwarm, Init, ParamPlan,
    PlanError, SwarmConfig,
};
use joi_burn::training_pass::training_pass;

#[derive(Clone, Debug)]
struct Array {
    dims: Vec<usize>,
    data: Vec<f64>,
}

fn size(dims: &[usize]) -> usize {
    dims.iter().product()
}

fn strides(dims: &[usize]) -> Vec<usize> {
    (0..dims.len()).map(|i| size(&dims[i + 1..])).collect()
}

impl Array {
    fn build(dims: &[usize], value: impl Fn(&[usize]) -> f64) -> Array {
        let steps = strides(dims);
        let data = (0..size(dims))
            .map(|k| {
                let at: Vec<usize> =
                    dims.iter().zip(&steps).map(|(d, s)| k / s % d).collect();
                value(&at)
            })
            .collect();
        Array { dims: dims.to_vec(), data }
    }

    fn at(&self, index: &[usize]) -> f64 {
        assert_eq!(index.len(), self.dims.len());
        for (i, d) in index.iter().zip(&self.dims) {
            assert!(i < d);
        }
        self.data[index.iter().zip(strides(&self.dims)).map(|(i, s)| i * s).sum::<usize>()]
    }

    fn map(&self, f: impl Fn(f64) -> f64) -> Array {
        Array { dims: self.dims.clone(), data: self.data.iter().map(|&x| f(x)).collect() }
    }

    fn zip(&self, other: &Array, f: impl Fn(f64, f64) -> f64) -> Array {
        assert_eq!(self.dims.len(), other.dims.len());
        let dims: Vec<usize> = self
            .dims
            .iter()
            .zip(&other.dims)
            .map(|(&a, &b)| {
                assert!(a == b || a == 1 || b == 1);
                if a == 1 { b } else { a }
            })
            .collect();
        let pick = |array: &Array, at: &[usize]| {
            let own: Vec<usize> =
                at.iter().zip(&array.dims).map(|(&i, &d)| if d == 1 { 0 } else { i }).collect();
            array.at(&own)
        };
        Array::build(&dims, |at| f(pick(self, at), pick(other, at)))
    }

    fn along(&self, dim: usize, at: &[usize]) -> Vec<f64> {
        (0..self.dims[dim])
            .map(|i| {
                let mut own = at.to_vec();
                own[dim] = i;
                self.at(&own)
            })
            .collect()
    }
}

fn gelu(x: f64) -> f64 {
    x / (1.0 + (-1.702 * x).exp())
}

fn mean(values: &[f64]) -> f64 {
    values.iter().sum::<f64>() / values.len() as f64
}

fn softmax(values: &[f64]) -> Vec<f64> {
    let most = values.iter().cloned().fold(f64::NEG_INFINITY, f64::max);
    let total: f64 = values.iter().map(|v| (v - most).exp()).sum();
    values.iter().map(|v| (v - most).exp() / total).collect()
}

fn evaluate(op: &Op, done: &[Array], input: &Array, weights: &[Array]) -> Array {
    match op {
        Op::Input => input.clone(),
        Op::Weight { id } => weights[*id].clone(),
        Op::MatMul { a, b } => {
            let (a, b) = (&done[*a], &done[*b]);
            let n = a.dims.len();
            assert_eq!(a.dims[n - 1], b.dims[n - 2]);
            assert_eq!(a.dims[..n - 2], b.dims[..n - 2]);
            let mut dims = a.dims.clone();
            dims[n - 1] = b.dims[n - 1];
            Array::build(&dims, |at| {
                (0..a.dims[n - 1])
                    .map(|k| {
                        let (mut left, mut right) = (at.to_vec(), at.to_vec());
                        left[n - 1] = k;
                        right[n - 2] = k;
                        a.at(&left) * b.at(&right)
                    })
                    .sum()
            })
        }
        Op::Sum { a, b } => done[*a].zip(&done[*b], |x, y| x + y),
        Op::Difference { a, b } => done[*a].zip(&done[*b], |x, y| x - y),
        Op::Product { a, b } => done[*a].zip(&done[*b], |x, y| x * y),
        Op::Quotient { a, b } => done[*a].zip(&done[*b], |x, y| x / y),
        Op::Swap { a, i, j } => {
            let mut dims = done[*a].dims.clone();
            dims.swap(*i, *j);
            Array::build(&dims, |at| {
                let mut own = at.to_vec();
                own.swap(*i, *j);
                done[*a].at(&own)
            })
        }
        Op::Reshape { a, dims } => {
            assert_eq!(size(dims), done[*a].data.len());
            Array { dims: dims.clone(), data: done[*a].data.clone() }
        }
        Op::Slice { a, dim, start, end } => {
            let mut dims = done[*a].dims.clone();
            assert!(start < end && *end <= dims[*dim]);
            dims[*dim] = end - start;
            Array::build(&dims, |at| {
                let mut own = at.to_vec();
                own[*dim] += start;
                done[*a].at(&own)
            })
        }
        Op::Repeat { a, dim, times } => {
            let mut dims = done[*a].dims.clone();
            assert_eq!(dims[*dim], 1);
            dims[*dim] = *times;
            Array::build(&dims, |at| {
                let mut own = at.to_vec();
                own[*dim] = 0;
                done[*a].at(&own)
            })
        }
        Op::Unsqueeze { a, dim } => {
            let mut dims = done[*a].dims.clone();
            dims.insert(*dim, 1);
            Array { dims, data: done[*a].data.clone() }
        }
        Op::Squeeze { a, dim } => {
            let mut dims = done[*a].dims.clone();
            assert_eq!(dims.remove(*dim), 1);
            Array { dims, data: done[*a].data.clone() }
        }
        Op::Mean { a, dim } => {
            let mut dims = done[*a].dims.clone();
            dims[*dim] = 1;
            Array::build(&dims, |at| mean(&done[*a].along(*dim, at)))
        }
        Op::Softmax { a, dim } => Array::build(&done[*a].dims, |at| {
            softmax(&done[*a].along(*dim, at))[at[*dim]]
        }),
        Op::Gelu { a } => done[*a].map(gelu),
        Op::Relu { a } => done[*a].map(|x| x.max(0.0)),
        Op::Sigmoid { a } => done[*a].map(|x| 1.0 / (1.0 + (-x).exp())),
        Op::Square { a } => done[*a].map(|x| x * x),
        Op::Root { a } => done[*a].map(f64::sqrt),
        Op::Plus { a, constant } => done[*a].map(|x| x + f64::from_bits(*constant)),
        Op::Scale { a, by } => done[*a].map(|x| x * (*by as f64).powf(-0.5)),
    }
}

fn run(program: &Program, input: &Array, weights: &[Array]) -> Vec<Array> {
    let mut done: Vec<Array> = Vec::new();
    for op in &program.ops {
        let next = evaluate(op, &done, input, weights);
        done.push(next);
    }
    done
}

fn noise(seed: usize) -> f64 {
    let mixed = (seed as u64 + 1).wrapping_mul(0x9e37_79b9_7f4a_7c15);
    ((mixed ^ mixed >> 29) % 2001) as f64 / 1000.0 - 1.0
}

fn noise_array(dims: &[usize], seed: usize) -> Array {
    let count = size(dims);
    Array { dims: dims.to_vec(), data: (0..count).map(|i| noise(seed * 7919 + i)).collect() }
}

fn params(swarm: &BatchedBrainSwarm) -> Vec<&ParamPlan> {
    vec![
        &swarm.input_proj_w, &swarm.input_proj_b, &swarm.attn_in_w, &swarm.attn_in_b,
        &swarm.attn_out_w, &swarm.attn_out_b, &swarm.ffn_w1, &swarm.ffn_b1, &swarm.ffn_w2,
        &swarm.ffn_b2, &swarm.ln1_w, &swarm.ln1_b, &swarm.ln2_w, &swarm.ln2_b,
        &swarm.final_ln_w, &swarm.final_ln_b, &swarm.gate_w1, &swarm.gate_b1, &swarm.gate_w2,
        &swarm.gate_b2, &swarm.action_w, &swarm.action_b, &swarm.conf_w, &swarm.conf_b,
    ]
}

type Rows = Vec<Vec<f64>>;

fn linear(x: &[f64], rows: usize, w: impl Fn(usize, usize) -> f64, b: impl Fn(usize) -> f64) -> Vec<f64> {
    (0..rows)
        .map(|o| x.iter().enumerate().map(|(i, v)| v * w(o, i)).sum::<f64>() + b(o))
        .collect()
}

fn layer_norm(x: &[f64], w: impl Fn(usize) -> f64, b: impl Fn(usize) -> f64) -> Vec<f64> {
    let center = mean(x);
    let variance = mean(&x.iter().map(|v| (v - center).powi(2)).collect::<Vec<_>>());
    x.iter()
        .enumerate()
        .map(|(i, v)| (v - center) / (variance + 1e-5).sqrt() * w(i) + b(i))
        .collect()
}

fn added(x: &[f64], y: &[f64]) -> Vec<f64> {
    x.iter().zip(y).map(|(a, b)| a + b).collect()
}

/// One brain on one sequence, written out row by row.
fn brain(c: &SwarmConfig, rows: &Rows, n: usize, w: &[Array]) -> Vec<f64> {
    let (d, heads) = (c.d_model, c.n_heads);
    let hd = d / heads;
    let mut h: Rows = rows
        .iter()
        .map(|x| linear(x, d, |o, i| w[0].at(&[n, o, i]), |o| w[1].at(&[n, o])))
        .collect();
    for l in 0..c.n_layers {
        let joint: Rows = h
            .iter()
            .map(|x| linear(x, 3 * d, |o, i| w[2].at(&[l, n, o, i]), |o| w[3].at(&[l, n, o])))
            .collect();
        h = (0..h.len())
            .map(|t| {
                let mut out = Vec::new();
                for head in 0..heads {
                    let scores: Vec<f64> = joint
                        .iter()
                        .map(|other| {
                            (0..hd)
                                .map(|i| joint[t][head * hd + i] * other[d + head * hd + i])
                                .sum::<f64>()
                                / (hd as f64).sqrt()
                        })
                        .collect();
                    let shares = softmax(&scores);
                    for i in 0..hd {
                        out.push(
                            joint
                                .iter()
                                .zip(&shares)
                                .map(|(other, s)| s * other[2 * d + head * hd + i])
                                .sum(),
                        );
                    }
                }
                let mixed =
                    linear(&out, d, |o, i| w[4].at(&[l, n, o, i]), |o| w[5].at(&[l, n, o]));
                let y = layer_norm(
                    &added(&h[t], &mixed),
                    |i| w[10].at(&[l, n, i]),
                    |i| w[11].at(&[l, n, i]),
                );
                let inner: Vec<f64> =
                    linear(&y, c.ffn_dim, |o, i| w[6].at(&[l, n, o, i]), |o| w[7].at(&[l, n, o]))
                        .into_iter()
                        .map(gelu)
                        .collect();
                let fed =
                    linear(&inner, d, |o, i| w[8].at(&[l, n, o, i]), |o| w[9].at(&[l, n, o]));
                layer_norm(
                    &added(&y, &fed),
                    |i| w[12].at(&[l, n, i]),
                    |i| w[13].at(&[l, n, i]),
                )
            })
            .collect();
    }
    let pooled: Vec<f64> =
        (0..d).map(|i| mean(&h.iter().map(|row| row[i]).collect::<Vec<_>>())).collect();
    layer_norm(&pooled, |i| w[14].at(&[n, i]), |i| w[15].at(&[n, i]))
}

fn logits(c: &SwarmConfig, rows: &Rows, w: &[Array]) -> Vec<f64> {
    let last = rows.last().unwrap();
    let hidden: Vec<f64> = linear(last, c.d_model, |o, i| w[16].at(&[o, i]), |o| w[17].at(&[o]))
        .into_iter()
        .map(|x| x.max(0.0))
        .collect();
    let shares =
        softmax(&linear(&hidden, c.n_brains, |o, i| w[18].at(&[o, i]), |o| w[19].at(&[o])));
    let outputs: Rows = (0..c.n_brains).map(|n| brain(c, rows, n, w)).collect();
    let together: Vec<f64> = (0..c.d_model)
        .map(|i| outputs.iter().zip(&shares).map(|(out, s)| s * out[i]).sum())
        .collect();
    linear(&together, c.n_classes, |o, i| w[20].at(&[o, i]), |o| w[21].at(&[o]))
}

fn config(n_brains: usize, d_model: usize, n_heads: usize, n_layers: usize) -> SwarmConfig {
    SwarmConfig { n_brains, d_model, n_heads, n_layers, ffn_dim: 3, n_classes: 4 }
}

fn compare(c: SwarmConfig, batch: usize, seq: usize) {
    let swarm = BatchedBrainSwarm::new(c);
    let weights: Vec<Array> =
        params(&swarm).iter().enumerate().map(|(k, p)| noise_array(&p.dims, k)).collect();
    let input = noise_array(&[batch, seq, INPUT_DIM], 100);
    let pass = training_pass(&c, batch, seq).unwrap();
    let result = &run(&pass.program, &input, &weights)[pass.logits];
    assert_eq!(result.dims, vec![batch, 4]);
    for b in 0..batch {
        let rows: Rows = (0..seq).map(|t| input.along(2, &[b, t, 0])).collect();
        for (k, value) in logits(&c, &rows, &weights).into_iter().enumerate() {
            assert!((result.at(&[b, k]) - value).abs() < 1e-9);
        }
    }
}

#[test]
fn pass_computes_the_model() {
    compare(config(2, 4, 2, 2), 2, 3);
    compare(config(3, 6, 3, 1), 1, 2);
    compare(config(1, 4, 1, 1), 3, 1);
}

#[test]
fn pass_without_layers() {
    compare(config(2, 3, 2, 0), 2, 2);
}

#[test]
fn refused_passes() {
    assert!(matches!(training_pass(&config(2, 4, 0, 1), 1, 1), Err(PlanError::NoHeads)));
    assert!(matches!(training_pass(&config(2, 4, 2, 1), 1, 0), Err(PlanError::Empty)));
    assert!(matches!(training_pass(&config(2, 4, 2, 1), 0, 1), Err(PlanError::Empty)));
    assert!(matches!(training_pass(&config(0, 4, 2, 1), 1, 1), Err(PlanError::Empty)));
    assert!(matches!(training_pass(&config(2, 0, 2, 1), 1, 1), Err(PlanError::Empty)));
    assert!(matches!(training_pass(&config(2, 5, 2, 1), 1, 1), Err(PlanError::UnevenHeads)));
    assert!(matches!(
        training_pass(&config(2, 4, 2, 1), usize::MAX, 1),
        Err(PlanError::TooLarge)
    ));
    assert!(training_pass(&config(300, 256, 8, 4), 16, 20).is_ok());
}

fn shapes(program: &Program, input: &[usize], weights: &[Vec<usize>]) -> Vec<Vec<usize>> {
    let mut done: Vec<Vec<usize>> = Vec::new();
    for op in &program.ops {
        let next = match op {
            Op::Input => input.to_vec(),
            Op::Weight { id } => weights[*id].clone(),
            Op::MatMul { a, b } => {
                let n = done[*a].len();
                assert_eq!(done[*a][n - 1], done[*b][n - 2]);
                let mut dims = done[*a].clone();
                dims[n - 1] = done[*b][n - 1];
                dims
            }
            Op::Sum { a, b }
            | Op::Difference { a, b }
            | Op::Product { a, b }
            | Op::Quotient { a, b } => done[*a]
                .iter()
                .zip(&done[*b])
                .map(|(&x, &y)| {
                    assert!(x == y || x == 1 || y == 1);
                    x.max(y)
                })
                .collect(),
            Op::Swap { a, i, j } => {
                let mut dims = done[*a].clone();
                dims.swap(*i, *j);
                dims
            }
            Op::Reshape { a, dims } => {
                assert_eq!(size(&done[*a]), size(dims));
                dims.clone()
            }
            Op::Slice { a, dim, start, end } => {
                let mut dims = done[*a].clone();
                assert!(*end <= dims[*dim]);
                dims[*dim] = end - start;
                dims
            }
            Op::Repeat { a, dim, times } => {
                let mut dims = done[*a].clone();
                dims[*dim] = *times;
                dims
            }
            Op::Unsqueeze { a, dim } => {
                let mut dims = done[*a].clone();
                dims.insert(*dim, 1);
                dims
            }
            Op::Squeeze { a, dim } => {
                let mut dims = done[*a].clone();
                assert_eq!(dims.remove(*dim), 1);
                dims
            }
            Op::Mean { a, dim } => {
                let mut dims = done[*a].clone();
                dims[*dim] = 1;
                dims
            }
            Op::Softmax { a, dim } => {
                assert!(*dim < done[*a].len());
                done[*a].clone()
            }
            Op::Gelu { a }
            | Op::Relu { a }
            | Op::Sigmoid { a }
            | Op::Square { a }
            | Op::Root { a }
            | Op::Plus { a, .. }
            | Op::Scale { a, .. } => done[*a].clone(),
        };
        done.push(next);
    }
    done
}

fn loaded_shapes() -> Vec<Vec<usize>> {
    let layer: [&[usize]; 12] = [
        &[300, 768, 256], &[300, 768], &[300, 256, 256], &[300, 256], &[300, 256], &[300, 256],
        &[300, 1024, 256], &[300, 1024], &[300, 256, 1024], &[300, 256], &[300, 256],
        &[300, 256],
    ];
    let head: [&[usize]; 12] = [
        &[300, 256, 54], &[300, 256], &[300, 256], &[300, 256], &[256, 54], &[256], &[300, 256],
        &[300], &[4, 256], &[4], &[1, 256], &[1],
    ];
    let mut weights: Vec<Vec<usize>> = Vec::new();
    for _ in 0..4 {
        weights.extend(layer.iter().map(|dims| dims.to_vec()));
    }
    weights.extend(head.iter().map(|dims| dims.to_vec()));
    weights
}

fn weights_of(c: SwarmConfig, seed: usize) -> Vec<Array> {
    let swarm = BatchedBrainSwarm::new(c);
    params(&swarm).iter().enumerate().map(|(k, p)| noise_array(&p.dims, seed + k)).collect()
}

fn trained_logits(c: &SwarmConfig, input: &Array, weights: &[Array]) -> Array {
    let pass = training_pass(c, input.dims[0], input.dims[1]).unwrap();
    run(&pass.program, input, weights)[pass.logits].clone()
}

/// The part of an array at one place of its first dimension.
fn part(x: &Array, at: usize) -> Array {
    let dims = x.dims[1..].to_vec();
    let count = size(&dims);
    Array { dims, data: x.data[at * count..(at + 1) * count].to_vec() }
}

/// An array with its parts along a dimension in another order.
fn moved(x: &Array, dim: usize, order: &[usize]) -> Array {
    Array::build(&x.dims, |at| {
        let mut own = at.to_vec();
        own[dim] = order[at[dim]];
        x.at(&own)
    })
}

fn assert_near(x: &Array, y: &Array) {
    assert_eq!(x.dims, y.dims);
    for (a, b) in x.data.iter().zip(&y.data) {
        assert!((a - b).abs() < 1e-9, "{a} {b}");
    }
}

fn assert_far(x: &Array, y: &Array) {
    assert_eq!(x.dims, y.dims);
    assert!(x.data.iter().zip(&y.data).any(|(a, b)| (a - b).abs() > 1e-6));
}

/// The sizes of a swarm of three brains in place of those of the inference swarm.
fn small() -> SwarmConfig {
    config(3, 16, 8, 4)
}

/// The same program at the smaller size.
fn shrink(program: &mut Program) {
    let size = |n: usize| match n {
        300 => 3,
        2400 => 24,
        256 => 16,
        512 => 32,
        768 => 48,
        32 => 2,
        other => other,
    };
    for op in program.ops.iter_mut() {
        match op {
            Op::Reshape { dims, .. } => dims.iter_mut().for_each(|n| *n = size(*n)),
            Op::Slice { start, end, .. } => (*start, *end) = (size(*start), size(*end)),
            Op::Repeat { times, .. } => *times = size(*times),
            Op::Scale { by, .. } => *by = size(*by),
            _ => {}
        }
    }
}

/// The tensors of inference, from the stacked parameters of training.
fn exported(weights: &[Array]) -> Vec<Array> {
    let stacked = [2, 3, 4, 5, 10, 11, 6, 7, 8, 9, 12, 13];
    let single = [0, 1, 14, 15, 16, 17, 18, 19, 20, 21, 22, 23];
    let mut loaded: Vec<Array> = Vec::new();
    for layer in 0..4 {
        loaded.extend(stacked.iter().map(|k| part(&weights[*k], layer)));
    }
    loaded.extend(single.iter().map(|k| weights[*k].clone()));
    loaded
}

/// The probabilities and the confidence of a swarm of the smaller size.
fn inferred(input: &Array, weights: &[Array]) -> (Array, Array) {
    let mut pass = inference_pass();
    shrink(&mut pass.program);
    let done = run(&pass.program, input, weights);
    (done[pass.action].clone(), done[pass.confidence].clone())
}

fn layer_result(layer: usize, input: &Array, weights: &[Array]) -> Array {
    let mut pass = layer_pass(layer, input.dims[1]).unwrap();
    shrink(&mut pass.program);
    run(&pass.program, input, weights)[pass.result].clone()
}

#[test]
fn inference_computes_what_was_trained() {
    let weights = weights_of(small(), 1);
    let input = noise_array(&[1, 20, INPUT_DIM], 100);
    let (action, _) = inferred(&part(&input, 0), &exported(&weights));
    let logits = trained_logits(&small(), &input, &weights);
    let expected = Array { dims: vec![1, 4], data: softmax(&logits.data) };
    assert_near(&action, &expected);
    assert!((action.data.iter().sum::<f64>() - 1.0).abs() < 1e-9);
    assert_far(&action, &logits);
}

#[test]
fn sequences_of_a_batch_are_independent() {
    let c = config(2, 4, 2, 2);
    let weights = weights_of(c, 3);
    let input = noise_array(&[3, 5, INPUT_DIM], 100);
    let all = trained_logits(&c, &input, &weights);
    for i in 0..3 {
        let own = part(&input, i);
        let alone = Array { dims: vec![1, 5, INPUT_DIM], data: own.data };
        assert_near(&part(&trained_logits(&c, &alone, &weights), 0), &part(&all, i));
    }
    let order = [2, 0, 1];
    assert_near(&trained_logits(&c, &moved(&input, 0, &order), &weights), &moved(&all, 0, &order));
}

#[test]
fn time_steps_before_the_last_act_as_a_set() {
    let c = config(2, 4, 2, 2);
    let weights = weights_of(c, 5);
    let input = noise_array(&[2, 5, INPUT_DIM], 100);
    let before = trained_logits(&c, &input, &weights);
    let steps = moved(&input, 1, &[2, 3, 0, 1, 4]);
    assert_near(&trained_logits(&c, &steps, &weights), &before);
    let last = moved(&input, 1, &[0, 1, 2, 4, 3]);
    assert_far(&trained_logits(&c, &last, &weights), &before);
}

#[test]
fn equal_brains_compute_as_one() {
    let (c, one) = (config(3, 4, 2, 2), config(1, 4, 2, 2));
    let single = weights_of(one, 7);
    let mut weights = weights_of(c, 9);
    for k in 0..16 {
        let own = &single[k];
        let dim = if (2..14).contains(&k) { 1 } else { 0 };
        weights[k] = Array::build(&weights[k].dims, |at| {
            let mut place = at.to_vec();
            place[dim] = 0;
            own.at(&place)
        });
    }
    weights[20] = single[20].clone();
    weights[21] = single[21].clone();
    let input = noise_array(&[2, 3, INPUT_DIM], 100);
    assert_near(
        &trained_logits(&c, &input, &weights),
        &trained_logits(&one, &input, &single),
    );
}

#[test]
fn logits_follow_the_bias_of_the_actions() {
    let c = config(2, 4, 2, 1);
    let weights = weights_of(c, 11);
    let input = noise_array(&[2, 3, INPUT_DIM], 100);
    let before = trained_logits(&c, &input, &weights);
    let more = [0.5, -2.0, 0.0, 3.25];
    let mut other = weights.clone();
    other[21] = Array::build(&[4], |at| weights[21].at(at) + more[at[0]]);
    other[22] = noise_array(&weights[22].dims, 500);
    other[23] = noise_array(&weights[23].dims, 501);
    let expected = Array::build(&before.dims, |at| before.at(at) + more[at[1]]);
    assert_near(&trained_logits(&c, &input, &other), &expected);
}

#[test]
fn values_have_their_shapes() {
    let c = config(2, 4, 2, 2);
    let weights = weights_of(c, 27);
    let dims: Vec<Vec<usize>> = weights.iter().map(|w| w.dims.clone()).collect();
    let pass = training_pass(&c, 2, 3).unwrap();
    let done = run(&pass.program, &noise_array(&[2, 3, INPUT_DIM], 100), &weights);
    let expected = shapes(&pass.program, &[2, 3, INPUT_DIM], &dims);
    assert_eq!(done.len(), expected.len());
    for (value, dims) in done.iter().zip(&expected) {
        assert_eq!(value.dims, *dims);
        assert_eq!(value.data.len(), size(dims));
    }
}

#[test]
fn layers_of_any_number_of_rows() {
    assert!(matches!(layer_pass(0, 0), Err(PlanError::Empty)));
    let weights = loaded_shapes();
    for rows in [1, 7, 20, 31] {
        let pass = layer_pass(3, rows).unwrap();
        let done = shapes(&pass.program, &[300, rows, 256], &weights);
        assert_eq!(done[pass.result], vec![300, rows, 256]);
    }
}

#[test]
fn layers_keep_the_order_of_rows() {
    let weights = exported(&weights_of(small(), 13));
    let input = noise_array(&[3, 5, 16], 100);
    let before = layer_result(1, &input, &weights);
    assert_eq!(before.dims, vec![3, 5, 16]);
    let order = [4, 2, 0, 1, 3];
    assert_near(&layer_result(1, &moved(&input, 1, &order), &weights), &moved(&before, 1, &order));
}

#[test]
fn brains_do_not_meet_in_layers() {
    let weights = exported(&weights_of(small(), 13));
    let other = exported(&weights_of(small(), 57));
    let input = noise_array(&[3, 5, 16], 100);
    let foreign = noise_array(&[3, 5, 16], 101);
    let keep = |own: &Array, strange: &Array| {
        Array::build(&own.dims, |at| if at[0] == 1 { own.at(at) } else { strange.at(at) })
    };
    let mixed: Vec<Array> = (0..weights.len())
        .map(|k| if k / 12 == 2 { keep(&weights[k], &other[k]) } else { other[k].clone() })
        .collect();
    let before = layer_result(2, &input, &weights);
    let after = layer_result(2, &keep(&input, &foreign), &mixed);
    assert_near(&part(&after, 1), &part(&before, 1));
    assert_far(&part(&after, 0), &part(&before, 0));
}

#[test]
fn layers_without_sublayers_normalize() {
    let mut weights = exported(&weights_of(small(), 17));
    for k in [2, 3, 8, 9] {
        weights[k] = weights[k].map(|_| 0.0);
    }
    let input = noise_array(&[3, 4, 16], 100);
    let result = layer_result(0, &input, &weights);
    for n in 0..3 {
        for t in 0..4 {
            let x = input.along(2, &[n, t, 0]);
            let y = layer_norm(&x, |i| weights[4].at(&[n, i]), |i| weights[5].at(&[n, i]));
            let z = layer_norm(&y, |i| weights[10].at(&[n, i]), |i| weights[11].at(&[n, i]));
            for (i, v) in z.into_iter().enumerate() {
                assert!((result.at(&[n, t, i]) - v).abs() < 1e-9);
            }
        }
    }
    let shifts = Array::build(&input.dims, |at| input.at(at) + (at[0] * 4 + at[1]) as f64 - 5.5);
    assert_near(&layer_result(0, &shifts, &weights), &result);
    for k in [4, 10] {
        weights[k] = weights[k].map(|_| 1.0);
        weights[k + 1] = weights[k + 1].map(|_| 0.0);
    }
    let standard = layer_result(0, &input, &weights);
    for n in 0..3 {
        for t in 0..4 {
            let row = standard.along(2, &[n, t, 0]);
            assert!(mean(&row).abs() < 1e-9);
            let square = mean(&row.iter().map(|v| v * v).collect::<Vec<_>>());
            assert!(square > 0.99 && square <= 1.0);
        }
    }
}

#[test]
fn rows_before_the_last_act_as_a_set() {
    let weights = exported(&weights_of(small(), 19));
    let input = noise_array(&[20, INPUT_DIM], 100);
    let (action, confidence) = inferred(&input, &weights);
    let mut order: Vec<usize> = (0..19).rev().collect();
    order.push(19);
    let (other, surety) = inferred(&moved(&input, 0, &order), &weights);
    assert_near(&other, &action);
    assert_near(&surety, &confidence);
    order.swap(0, 19);
    assert_far(&inferred(&moved(&input, 0, &order), &weights).0, &action);
}

#[test]
fn brains_can_be_renumbered() {
    let weights = exported(&weights_of(small(), 21));
    let input = noise_array(&[20, INPUT_DIM], 100);
    let (action, confidence) = inferred(&input, &weights);
    let order = [2, 0, 1];
    let renumbered: Vec<Array> = weights
        .iter()
        .enumerate()
        .map(|(k, w)| match k {
            52 | 53 | 56.. => w.clone(),
            _ => moved(w, 0, &order),
        })
        .collect();
    let (other, surety) = inferred(&input, &renumbered);
    assert_near(&other, &action);
    assert_near(&surety, &confidence);
}

#[test]
fn brains_without_share_do_not_matter() {
    let mut weights = exported(&weights_of(small(), 23));
    weights[54] = weights[54].map(|_| 0.0);
    weights[55] = Array { dims: vec![3], data: vec![0.0, 1000.0, 0.0] };
    let input = noise_array(&[20, INPUT_DIM], 100);
    let (action, confidence) = inferred(&input, &weights);
    let strange = exported(&weights_of(small(), 88));
    let changed = |one: usize| -> Vec<Array> {
        (0..weights.len())
            .map(|k| {
                let own = &weights[k];
                if k < 52 {
                    Array::build(&own.dims, |at| {
                        if at[0] == one { own.at(at) } else { strange[k].at(at) }
                    })
                } else {
                    own.clone()
                }
            })
            .collect()
    };
    let (other, surety) = inferred(&input, &changed(1));
    assert_near(&other, &action);
    assert_near(&surety, &confidence);
    assert_far(&inferred(&input, &changed(0)).0, &action);
}

#[test]
fn confidence_grows_with_its_bias() {
    let weights = exported(&weights_of(small(), 25));
    let input = noise_array(&[20, INPUT_DIM], 100);
    let (action, confidence) = inferred(&input, &weights);
    let mut other = weights.clone();
    other[59] = weights[59].map(|b| b + 0.75);
    let (same, surety) = inferred(&input, &other);
    assert_near(&same, &action);
    assert!(confidence.data[0] < surety.data[0]);
    assert!(0.0 < confidence.data[0] && surety.data[0] < 1.0);
}

#[test]
fn inference_shapes() {
    let weights = loaded_shapes();
    let pass = inference_pass();
    let done = shapes(&pass.program, &[20, 54], &weights);
    assert_eq!(done[pass.action], vec![1, 4]);
    assert_eq!(done[pass.confidence], vec![1, 1]);
    let scales: Vec<usize> = pass
        .program
        .ops
        .iter()
        .filter_map(|op| match op {
            Op::Scale { by, .. } => Some(*by),
            _ => None,
        })
        .collect();
    assert_eq!(scales, vec![32; 4]);
}

#[test]
fn last_uses_of_operations() {
    let pass = inference_pass();
    let uses = pass.program.last_uses();
    assert_eq!(uses[pass.action], pass.action);
    assert_eq!(uses[pass.confidence], pass.confidence);
    let mut small = Program::new();
    let x = small.emit(Op::Input);
    let y = small.emit(Op::Gelu { a: x });
    let z = small.emit(Op::Sum { a: x, b: y });
    let w = small.emit(Op::Square { a: z });
    assert_eq!((x, y, z, w), (0, 1, 2, 3));
    assert_eq!(small.last_uses(), vec![2, 2, 3, 3]);
}

#[test]
fn small_constant() {
    assert_eq!(f64::from_bits(DOUBLE_EPSILON), 1e-5);
}

#[test]
fn attention_plans() {
    let plan = inference_attention();
    assert_eq!(plan.head_dim, 32);
    assert_eq!(plan.queries, (0, 256));
    assert_eq!(plan.keys, (256, 512));
    assert_eq!(plan.values, (512, 768));
    assert_eq!(plan.split, [300, 20, 8, 32]);
    assert_eq!(plan.folded, [2400, 20, 32]);
    assert_eq!(plan.unfolded, [300, 8, 20, 32]);
    assert_eq!(size(&plan.split), 300 * 20 * 256);
    assert_eq!(size(&plan.folded), size(&plan.split));
    assert_eq!(size(&plan.unfolded), size(&plan.split));
    assert!(matches!(AttentionPlan::new(1, 1, 4, 0), Err(PlanError::NoHeads)));
    assert!(matches!(AttentionPlan::new(1, 1, 5, 2), Err(PlanError::UnevenHeads)));
    assert!(matches!(AttentionPlan::new(usize::MAX, 1, 4, 2), Err(PlanError::TooLarge)));
}

#[test]
fn parameters_of_the_default_swarm() {
    let c = SwarmConfig {
        n_brains: 300,
        d_model: 256,
        n_heads: 8,
        n_layers: 4,
        ffn_dim: 1024,
        n_classes: 4,
    };
    let swarm = BatchedBrainSwarm::new(c);
    assert_eq!(swarm.attn_in_w.dims, vec![4, 300, 768, 256]);
    assert!(matches!(swarm.input_proj_w.init, Init::Normal { fan_in: 54 }));
    assert!(matches!(swarm.gate_w1.init, Init::Normal { fan_in: 54 }));
    assert!(matches!(swarm.ffn_w1.init, Init::Normal { fan_in: 256 }));
    assert!(matches!(swarm.ffn_w2.init, Init::Normal { fan_in: 1024 }));
    assert!(matches!(swarm.ln2_w.init, Init::Ones));
    assert!(matches!(swarm.final_ln_w.init, Init::Ones));
    assert!(matches!(swarm.ln2_b.init, Init::Zeros));
    assert_eq!(swarm.conf_w.dims, vec![1, 256]);
    let expected = 300 * (256 * 54 + 256 + 4 * (4 * 256 * 256 + 2 * 1024 * 256 + 4 * 256) + 256)
        + 256 * 54 + 256 + 300 * 256 + 300 + 4 * 256 + 4 + 256 + 1;
    assert_eq!(estimate_params(&c), Some(expected));
    assert_eq!(estimate_params(&SwarmConfig { n_brains: usize::MAX, ..c }), None);
}
