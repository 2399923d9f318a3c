//! What the training pass computes, in real numbers.

use vstd::prelude::*;
use crate::attending::{lemma_attention_value, Heads};
use crate::config::INPUT_DIM;
use crate::evaluation::{
    is_sized, lemma_block_value, lemma_dense_value, lemma_linear_value, lemma_mapped_rows,
    lemma_norm_value, lemma_softmax_value, lemma_sum_value, lemma_turned_value, row_at,
};
use crate::forward::{
    attention_of, block_of, dense_of, linear_of, matmul, mean, norm_of, reshape, slice, squeeze,
    sum, swap, unsqueeze,
};
use crate::graph::{naturals, Term};
use crate::inference_values::{brain_affine, brain_norm, has_weights, shared_affine};
use crate::model::{param_specs, SwarmConfig};
use crate::reals::{products, total};
use crate::rows::{
    affine, affine_rows, attention_row, attention_rows, brain_row, brain_rows, column, fed_rows,
    gate_row, layers_rows, logits_row, mean_row, mixed_rows, plus_rows, together, weighted, Affine,
    BrainWeights, LayerWeights, Norm, SwarmWeights,
};
use crate::tensor::{
    along, averaged, exchanged, flat, lemma_reshaped, mapped, matrix, multiplied, padded,
    positive_part, repeated, reshaped, row, sliced, squeezed, unsqueezed, value, At, Functions,
    Given, Tensor,
};
use crate::training_pass;
use crate::training_pass::{
    brains_of, by_brain, by_sequence, extent, fed_of, gate_of, layer_param, layers_of, logits_of,
    mixed_of, param, Extent,
};
use crate::training_shapes::training_shapes;

verus! {

/// A linear map of one layer of one brain, from stacked tensors.
pub open spec fn stacked_affine(w: Tensor, b: Tensor, layer: int, brain: int) -> Affine {
    Affine { w: matrix(w, layer, brain), b: row(b, 0, layer, brain) }
}

/// A normalization of one layer of one brain, from stacked tensors.
pub open spec fn stacked_norm(w: Tensor, b: Tensor, layer: int, brain: int) -> Norm {
    Norm { w: row(w, 0, layer, brain), b: row(b, 0, layer, brain) }
}

/// The weights of one layer of one brain.
pub open spec fn trained_layer(given: Given, layer: int, brain: int) -> LayerWeights {
    let w = given.weights;
    LayerWeights {
        joint: stacked_affine(w[2], w[3], layer, brain),
        out: stacked_affine(w[4], w[5], layer, brain),
        norm1: stacked_norm(w[10], w[11], layer, brain),
        ffn1: stacked_affine(w[6], w[7], layer, brain),
        ffn2: stacked_affine(w[8], w[9], layer, brain),
        norm2: stacked_norm(w[12], w[13], layer, brain),
    }
}

/// The weights of one brain.
pub open spec fn trained_brain(given: Given, layers: nat, brain: int) -> BrainWeights {
    BrainWeights {
        input: brain_affine(given.weights[0], given.weights[1], brain),
        layers: Seq::new(layers, |l: int| trained_layer(given, l, brain)),
        norm: brain_norm(given.weights[14], given.weights[15], brain),
    }
}

/// The weights of the swarm.
pub open spec fn trained_swarm(given: Given, c: SwarmConfig) -> SwarmWeights {
    SwarmWeights {
        brains: Seq::new(
            c.n_brains as nat,
            |n: int| trained_brain(given, c.n_layers as nat, n),
        ),
        gate1: shared_affine(given.weights[16], given.weights[17]),
        gate2: shared_affine(given.weights[18], given.weights[19]),
        action: shared_affine(given.weights[20], given.weights[21]),
    }
}

/// Whether a batch of sequences and the parameters of a swarm of a given size
/// are what the pass is computed from.
pub open spec fn is_trained_on(given: Given, c: SwarmConfig, batch: usize, seq: usize) -> bool {
    &&& has_weights(given, training_shapes(c, batch, seq))
    &&& is_sized(given.input, 3, 1, batch as int, seq as int, INPUT_DIM as int)
}

/// The size of a parameter.
pub proof fn lemma_param_size(given: Given, c: SwarmConfig, batch: usize, seq: usize, k: int)
    requires
        is_trained_on(given, c, batch, seq),
        0 <= k < 24,
    ensures
        given.weights[k].rank == param_specs(c)[k].0.len(),
        given.weights[k].dims == padded(naturals(param_specs(c)[k].0)),
{
    assert(given.weights[k].rank == training_shapes(c, batch, seq).weights[k].len());
}

/// A layer's matrices of a stacked parameter.
proof fn lemma_layer_matrix(given: Given, f: Functions, k: nat, l: nat, n: int, o: int, i: int)
    requires
        given.weights[k as int].rank == 4,
        given.weights[k as int].dims.b == n,
        given.weights[k as int].dims.c == o,
        given.weights[k as int].dims.d == i,
        o >= 0,
        i >= 0,
    ensures
        is_sized(value(layer_param(k, l), given, f), 3, 1, n, o, i),
        forall|m: int| #[trigger]
            matrix(value(layer_param(k, l), given, f), 0, m) == matrix(
                given.weights[k as int],
                l as int,
                m,
            ),
{
    reveal_with_fuel(value, 4);
    let all = given.weights[k as int];
    let y = value(layer_param(k, l), given, f);
    assert(y == squeezed(sliced(all, 0, l, l + 1), 0));
    assert forall|m: int| #[trigger] matrix(y, 0, m) == matrix(all, l as int, m) by {
        assert forall|q: int| 0 <= q < o implies #[trigger] matrix(y, 0, m)[q] == matrix(
            all,
            l as int,
            m,
        )[q] by {
            assert(row(y, 0, m, q) =~= row(all, l as int, m, q));
        }
        assert(matrix(y, 0, m) =~= matrix(all, l as int, m));
    }
}

/// A layer's rows of a stacked parameter.
proof fn lemma_layer_rows(given: Given, f: Functions, k: nat, l: nat, n: int, o: int)
    requires
        given.weights[k as int].rank == 3,
        given.weights[k as int].dims.a == 1,
        given.weights[k as int].dims.c == n,
        given.weights[k as int].dims.d == o,
    ensures
        is_sized(value(layer_param(k, l), given, f), 2, 1, 1, n, o),
        forall|m: int| #[trigger]
            row(value(layer_param(k, l), given, f), 0, 0, m) == row(
                given.weights[k as int],
                0,
                l as int,
                m,
            ),
{
    reveal_with_fuel(value, 4);
    let all = given.weights[k as int];
    let y = value(layer_param(k, l), given, f);
    assert(y == squeezed(sliced(all, 0, l, l + 1), 0));
    assert forall|m: int| #[trigger] row(y, 0, 0, m) == row(all, 0, l as int, m) by {
        assert(row(y, 0, 0, m) =~= row(all, 0, l as int, m));
    }
}

/// A layer's row for each brain, with dimensions for what it applies to.
proof fn lemma_brain_rows(given: Given, f: Functions, k: nat, l: nat, e: Extent)
    requires
        given.weights[k as int].rank == 3,
        given.weights[k as int].dims.a == 1,
        given.weights[k as int].dims.c == e.n,
        given.weights[k as int].dims.d == e.d,
    ensures
        ({
            let y = value(reshape(layer_param(k, l), by_brain(e)), given, f);
            &&& is_sized(y, 4, e.n as int, 1, 1, e.d as int)
            &&& forall|m: int, p: int, t: int|
                0 <= m < e.n ==> #[trigger] row_at(y, m, p, t) == row(
                    given.weights[k as int],
                    0,
                    l as int,
                    m,
                )
        }),
{
    lemma_layer_rows(given, f, k, l, e.n as int, e.d as int);
    let own = value(layer_param(k, l), given, f);
    let y = value(reshape(layer_param(k, l), by_brain(e)), given, f);
    assert(y == reshaped(own, by_brain(e)));
    assert forall|m: int, p: int, t: int| 0 <= m < e.n implies #[trigger] row_at(y, m, p, t)
        == row(given.weights[k as int], 0, l as int, m) by {
        assert forall|i: int| 0 <= i < e.d implies row_at(y, m, p, t)[i] == #[trigger] row(
            own,
            0,
            0,
            m,
        )[i] by {
            let from = At { a: 0, b: 0, c: m, d: i };
            let to = At { a: m, b: 0, c: 0, d: i };
            let n = e.n as int;
            assert((0 * 1 + 0) * n == 0) by (nonlinear_arith);
            assert((m * 1 + 0) * 1 + 0 == m);
            lemma_reshaped(own, by_brain(e), from, to);
        }
        assert(row_at(y, m, p, t) =~= row(own, 0, 0, m));
    }
}

/// The number of a row of a sequence among those of the batch.
pub proof fn lemma_row_number(p: int, t: int, b: int, s: int)
    requires
        0 <= p < b,
        0 <= t < s,
    ensures
        0 <= p * s + t < b * s,
{
    assert(0 <= p * s && p * s + s <= b * s) by (nonlinear_arith)
        requires
            0 <= p,
            p + 1 <= b,
            s > 0,
    ;
}

proof fn lemma_same_number(m: int, p: int, t: int, n: int, b: int, s: int, w: int, k: int)
    ensures
        flat(At { a: n, b: b, c: s, d: w }, At { a: m, b: p, c: t, d: k }) == flat(
            At { a: 1, b: n, c: b * s, d: w },
            At { a: 0, b: m, c: p * s + t, d: k },
        ),
        ((m * b + p) * s + t) * w + k == flat(
            At { a: 1, b: n, c: b * s, d: w },
            At { a: 0, b: m, c: p * s + t, d: k },
        ),
{
    assert((m * b + p) * s + t == m * (b * s) + (p * s + t)) by (nonlinear_arith);
    assert(0 * n + m == m);
}

/// Rows of sequences, one sequence after the other.
pub proof fn lemma_flattened(x: Term, given: Given, f: Functions, n: nat, b: nat, s: nat, w: nat)
    requires
        is_sized(value(x, given, f), 4, n as int, b as int, s as int, w as int),
    ensures
        ({
            let y = value(reshape(x, seq![n, b * s, w]), given, f);
            &&& is_sized(y, 3, 1, n as int, (b * s) as int, w as int)
            &&& forall|m: int, p: int, t: int|
                0 <= m < n && 0 <= p < b && 0 <= t < s ==> row(y, 0, m, p * s + t) == #[trigger] row(
                    value(x, given, f),
                    m,
                    p,
                    t,
                )
        }),
{
    let vx = value(x, given, f);
    let y = value(reshape(x, seq![n, b * s, w]), given, f);
    assert(y == reshaped(vx, seq![n, b * s, w]));
    assert forall|m: int, p: int, t: int| 0 <= m < n && 0 <= p < b && 0 <= t < s implies row(
        y,
        0,
        m,
        p * s + t,
    ) == #[trigger] row(vx, m, p, t) by {
        assert forall|k: int| 0 <= k < w implies row(y, 0, m, p * s + t)[k] == #[trigger] row(
            vx,
            m,
            p,
            t,
        )[k] by {
            lemma_same_number(m, p, t, n as int, b as int, s as int, w as int, k);
            lemma_reshaped(
                vx,
                seq![n, b * s, w],
                At { a: m, b: p, c: t, d: k },
                At { a: 0, b: m, c: p * s + t, d: k },
            );
        }
        assert(row(y, 0, m, p * s + t) =~= row(vx, m, p, t));
    }
}

/// Rows of sequences, by sequence.
pub proof fn lemma_unflattened(x: Term, given: Given, f: Functions, n: nat, b: nat, s: nat, w: nat)
    requires
        is_sized(value(x, given, f), 3, 1, n as int, (b * s) as int, w as int),
    ensures
        ({
            let y = value(reshape(x, seq![n, b, s, w]), given, f);
            &&& is_sized(y, 4, n as int, b as int, s as int, w as int)
            &&& forall|m: int, p: int, t: int|
                0 <= m < n && 0 <= p < b && 0 <= t < s ==> #[trigger] row(y, m, p, t) == row(
                    value(x, given, f),
                    0,
                    m,
                    p * s + t,
                )
        }),
{
    let vx = value(x, given, f);
    let y = value(reshape(x, seq![n, b, s, w]), given, f);
    assert(y == reshaped(vx, seq![n, b, s, w]));
    assert forall|m: int, p: int, t: int| 0 <= m < n && 0 <= p < b && 0 <= t < s implies #[trigger] row(
        y,
        m,
        p,
        t,
    ) == row(vx, 0, m, p * s + t) by {
        lemma_row_number(p, t, b as int, s as int);
        assert forall|k: int| 0 <= k < w implies #[trigger] row(y, m, p, t)[k] == row(
            vx,
            0,
            m,
            p * s + t,
        )[k] by {
            lemma_same_number(m, p, t, n as int, b as int, s as int, w as int, k);
            lemma_reshaped(
                vx,
                seq![n, b, s, w],
                At { a: 0, b: m, c: p * s + t, d: k },
                At { a: m, b: p, c: t, d: k },
            );
        }
        assert(row(y, m, p, t) =~= row(vx, 0, m, p * s + t));
    }
}

/// What a pass works on, and how its attention divides it.
spec fn heads_for(e: Extent) -> Heads {
    Heads {
        outer: e.n as int,
        inner: e.b as int,
        rows: e.s as int,
        heads: e.heads as int,
        head_dim: (e.d / e.heads) as int,
    }
}

/// Attention computes, for each brain and sequence, that of its own rows.
pub proof fn lemma_mixed_value(h: Term, l: nat, c: SwarmConfig, batch: usize, seq: usize, given: Given, f: Functions)
    requires
        is_trained_on(given, c, batch, seq),
        !training_pass::is_empty(c, batch, seq),
        c.n_heads > 0,
        c.d_model % c.n_heads == 0,
        c.n_layers > 0 ==> 3 * c.d_model <= usize::MAX,
        l < c.n_layers,
        is_sized(
            value(h, given, f),
            4,
            c.n_brains as int,
            batch as int,
            seq as int,
            c.d_model as int,
        ),
    ensures
        ({
            let y = value(mixed_of(h, l, extent(c, batch, seq)), given, f);
            &&& is_sized(y, 4, c.n_brains as int, batch as int, seq as int, c.d_model as int)
            &&& forall|m: int, p: int|
                0 <= m < c.n_brains && 0 <= p < batch ==> #[trigger] matrix(y, m, p) == mixed_rows(
                    matrix(value(h, given, f), m, p),
                    trained_layer(given, l as int, m),
                    c.d_model as nat,
                    (c.d_model / c.n_heads) as nat,
                    f,
                )
        }),
{
    let e = extent(c, batch, seq);
    let n = e.n as int;
    let b = e.b as int;
    let s = e.s as int;
    let d = e.d as int;
    let hd = (e.d / e.heads) as int;
    lemma_param_size(given, c, batch, seq, 2);
    lemma_param_size(given, c, batch, seq, 3);
    lemma_param_size(given, c, batch, seq, 4);
    lemma_param_size(given, c, batch, seq, 5);
    lemma_param_size(given, c, batch, seq, 10);
    lemma_param_size(given, c, batch, seq, 11);
    lemma_layer_matrix(given, f, 2, l, n, 3 * d, d);
    lemma_layer_rows(given, f, 3, l, n, 3 * d);
    lemma_layer_matrix(given, f, 4, l, n, d, d);
    lemma_layer_rows(given, f, 5, l, n, d);
    lemma_brain_rows(given, f, 10, l, e);
    lemma_brain_rows(given, f, 11, l, e);
    let vh = value(h, given, f);
    let rows = reshape(h, training_pass::flat(e));
    lemma_flattened(h, given, f, e.n, e.b, e.s, e.d);
    lemma_linear_value(rows, layer_param(2, l), layer_param(3, l), given, f, n, b * s, d, 3 * d);
    let joint = linear_of(rows, layer_param(2, l), layer_param(3, l));
    lemma_unflattened(joint, given, f, e.n, e.b, e.s, 3 * e.d);
    let wide = reshape(joint, seq![e.n, e.b, e.s, 3 * e.d]);
    let vw = value(wide, given, f);
    let split = heads_for(e);
    vstd::arithmetic::div_mod::lemma_fundamental_div_mod(d, e.heads as int);
    assert(split.width() == d);
    assert(hd > 0) by (nonlinear_arith)
        requires
            d == e.heads * hd,
            d > 0,
            e.heads > 0,
    ;
    assert(split.wf());
    let out = training_pass::flat(e);
    let attention = attention_of(wide, 3, e.n * e.b, e.s, e.d, e.heads, out);
    let va = value(attention, given, f);
    assert(padded(out) == At { a: 1, b: n, c: b * s, d });
    assert forall|m: int, p: int, t: int, j: int|
        0 <= m < n && 0 <= p < b && 0 <= t < s && 0 <= j < d implies va.rank == 3 && va.dims
        == padded(out) && #[trigger] row(va, 0, m, p * s + t)[j] == #[trigger] attention_row(
        matrix(vw, m, p),
        t,
        d as nat,
        hd as nat,
        f,
    )[j] by {
        let to = At { a: 0, b: m, c: p * s + t, d: j };
        lemma_same_number(m, p, t, n, b, s, d, j);
        lemma_attention_value(wide, 3, split, out, given, f, m, p, t, j, to);
    }
    assert(row(va, 0, 0, 0 * s + 0)[0] == attention_row(
        matrix(vw, 0, 0),
        0,
        d as nat,
        hd as nat,
        f,
    )[0]);
    lemma_linear_value(
        attention,
        layer_param(4, l),
        layer_param(5, l),
        given,
        f,
        n,
        b * s,
        d,
        d,
    );
    let projected = linear_of(attention, layer_param(4, l), layer_param(5, l));
    lemma_unflattened(projected, given, f, e.n, e.b, e.s, e.d);
    let back = reshape(projected, by_sequence(e));
    lemma_sum_value(h, back, given, f);
    let more = sum(h, back);
    let scale = reshape(layer_param(10, l), by_brain(e));
    let shift = reshape(layer_param(11, l), by_brain(e));
    lemma_norm_value(more, 3, scale, shift, given, f);
    let y = value(mixed_of(h, l, e), given, f);
    assert(mixed_of(h, l, e) == norm_of(more, 3, scale, shift));
    let vj = value(joint, given, f);
    let vr = value(rows, given, f);
    let vp = value(projected, given, f);
    let vb = value(back, given, f);
    let vm = value(more, given, f);
    assert forall|m: int, p: int| 0 <= m < n && 0 <= p < b implies #[trigger] matrix(y, m, p)
        == mixed_rows(
        matrix(vh, m, p),
        trained_layer(given, l as int, m),
        d as nat,
        hd as nat,
        f,
    ) by {
        let own = matrix(vh, m, p);
        let weights = trained_layer(given, l as int, m);
        assert(matrix(vw, m, p) =~= affine_rows(own, weights.joint)) by {
            assert forall|t: int| 0 <= t < s implies #[trigger] matrix(vw, m, p)[t] == affine(
                own[t],
                weights.joint,
            ) by {
                lemma_row_number(p, t, b, s);
                assert(row(vw, m, p, t) == row(vj, 0, m, p * s + t));
                assert(row(vr, 0, m, p * s + t) == row(vh, m, p, t));
            }
        }
        let attended = attention_rows(matrix(vw, m, p), d as nat, hd as nat, f);
        let expected = mixed_rows(own, weights, d as nat, hd as nat, f);
        assert forall|t: int| 0 <= t < s implies matrix(y, m, p)[t] == #[trigger] expected[t] by {
            lemma_row_number(p, t, b, s);
            let q = p * s + t;
            assert(row(va, 0, m, q) =~= attended[t]) by {
                assert forall|j: int| 0 <= j < d implies row(va, 0, m, q)[j] == #[trigger] attended[t][j] by {
                    assert(row(va, 0, m, p * s + t)[j] == attention_row(
                        matrix(vw, m, p),
                        t,
                        d as nat,
                        hd as nat,
                        f,
                    )[j]);
                }
            }
            assert(row(vp, 0, m, q) == affine(attended[t], weights.out));
            assert(row(vb, m, p, t) == row(vp, 0, m, q));
            assert(row(vm, m, p, t) == plus_rows(own, affine_rows(attended, weights.out))[t]);
            assert(row_at(value(scale, given, f), m, p, t) == weights.norm1.w);
            assert(row_at(value(shift, given, f), m, p, t) == weights.norm1.b);
            assert(row(y, m, p, t) == matrix(y, m, p)[t]);
        }
        assert(matrix(y, m, p) =~= expected);
    }
}

/// The feed-forward block computes, for each brain and sequence, that of its own
/// rows.
pub proof fn lemma_fed_value(
    h: Term,
    l: nat,
    c: SwarmConfig,
    batch: usize,
    seq: usize,
    given: Given,
    f: Functions,
)
    requires
        is_trained_on(given, c, batch, seq),
        l < c.n_layers,
        is_sized(
            value(h, given, f),
            4,
            c.n_brains as int,
            batch as int,
            seq as int,
            c.d_model as int,
        ),
    ensures
        ({
            let y = value(fed_of(h, l, extent(c, batch, seq)), given, f);
            &&& is_sized(y, 4, c.n_brains as int, batch as int, seq as int, c.d_model as int)
            &&& forall|m: int, p: int|
                0 <= m < c.n_brains && 0 <= p < batch ==> #[trigger] matrix(y, m, p) == fed_rows(
                    matrix(value(h, given, f), m, p),
                    trained_layer(given, l as int, m),
                    f,
                )
        }),
{
    let e = extent(c, batch, seq);
    let n = e.n as int;
    let b = e.b as int;
    let s = e.s as int;
    let d = e.d as int;
    let k = c.ffn_dim as int;
    lemma_param_size(given, c, batch, seq, 6);
    lemma_param_size(given, c, batch, seq, 7);
    lemma_param_size(given, c, batch, seq, 8);
    lemma_param_size(given, c, batch, seq, 9);
    lemma_param_size(given, c, batch, seq, 12);
    lemma_param_size(given, c, batch, seq, 13);
    lemma_layer_matrix(given, f, 6, l, n, k, d);
    lemma_layer_rows(given, f, 7, l, n, k);
    lemma_layer_matrix(given, f, 8, l, n, d, k);
    lemma_layer_rows(given, f, 9, l, n, d);
    lemma_brain_rows(given, f, 12, l, e);
    lemma_brain_rows(given, f, 13, l, e);
    let vh = value(h, given, f);
    let rows = reshape(h, training_pass::flat(e));
    lemma_flattened(h, given, f, e.n, e.b, e.s, e.d);
    let w1 = layer_param(6, l);
    let b1 = layer_param(7, l);
    let w2 = layer_param(8, l);
    let b2 = layer_param(9, l);
    lemma_block_value(rows, w1, b1, w2, b2, given, f, n, b * s, d, k);
    let z = block_of(rows, w1, b1, w2, b2);
    lemma_unflattened(z, given, f, e.n, e.b, e.s, e.d);
    let back = reshape(z, by_sequence(e));
    lemma_sum_value(h, back, given, f);
    let more = sum(h, back);
    let scale = reshape(layer_param(12, l), by_brain(e));
    let shift = reshape(layer_param(13, l), by_brain(e));
    lemma_norm_value(more, 3, scale, shift, given, f);
    let y = value(fed_of(h, l, e), given, f);
    assert(fed_of(h, l, e) == norm_of(more, 3, scale, shift));
    let vr = value(rows, given, f);
    let vz = value(z, given, f);
    let vb = value(back, given, f);
    assert forall|m: int, p: int| 0 <= m < n && 0 <= p < b implies #[trigger] matrix(y, m, p)
        == fed_rows(matrix(vh, m, p), trained_layer(given, l as int, m), f) by {
        let own = matrix(vh, m, p);
        let weights = trained_layer(given, l as int, m);
        let expected = fed_rows(own, weights, f);
        assert forall|t: int| 0 <= t < s implies matrix(y, m, p)[t] == #[trigger] expected[t] by {
            lemma_row_number(p, t, b, s);
            let q = p * s + t;
            assert(row(vr, 0, m, q) == row(vh, m, p, t));
            assert(row(vh, m, p, t) == own[t]);
            assert(row(vz, 0, m, q) == affine(
                affine(own[t], weights.ffn1).map_values(f.gelu),
                weights.ffn2,
            ));
            assert(row(vb, m, p, t) == row(vz, 0, m, q));
            assert(row_at(value(scale, given, f), m, p, t) == weights.norm2.w);
            assert(row_at(value(shift, given, f), m, p, t) == weights.norm2.b);
            assert(row(y, m, p, t) == matrix(y, m, p)[t]);
        }
        assert(matrix(y, m, p) =~= expected);
    }
}

/// Layers compute, for each brain and sequence, its own of its own rows.
pub proof fn lemma_layers_value(
    h: Term,
    count: nat,
    c: SwarmConfig,
    batch: usize,
    seq: usize,
    given: Given,
    f: Functions,
)
    requires
        is_trained_on(given, c, batch, seq),
        !training_pass::is_empty(c, batch, seq),
        c.n_heads > 0,
        c.n_layers > 0 ==> c.d_model % c.n_heads == 0,
        c.n_layers > 0 ==> 3 * c.d_model <= usize::MAX,
        count <= c.n_layers,
        is_sized(
            value(h, given, f),
            4,
            c.n_brains as int,
            batch as int,
            seq as int,
            c.d_model as int,
        ),
    ensures
        ({
            let y = value(layers_of(h, count, extent(c, batch, seq)), given, f);
            &&& is_sized(y, 4, c.n_brains as int, batch as int, seq as int, c.d_model as int)
            &&& forall|m: int, p: int|
                0 <= m < c.n_brains && 0 <= p < batch ==> #[trigger] matrix(y, m, p) == layers_rows(
                    matrix(value(h, given, f), m, p),
                    trained_brain(given, c.n_layers as nat, m).layers.take(count as int),
                    c.d_model as nat,
                    (c.d_model / c.n_heads) as nat,
                    f,
                )
        }),
    decreases count,
{
    let e = extent(c, batch, seq);
    let y = value(layers_of(h, count, e), given, f);
    let d = c.d_model as nat;
    let hd = (c.d_model / c.n_heads) as nat;
    if count > 0 {
        let l = (count - 1) as nat;
        lemma_layers_value(h, l, c, batch, seq, given, f);
        let below = layers_of(h, l, e);
        lemma_mixed_value(below, l, c, batch, seq, given, f);
        lemma_fed_value(mixed_of(below, l, e), l, c, batch, seq, given, f);
    }
    assert forall|m: int, p: int| 0 <= m < c.n_brains && 0 <= p < batch implies #[trigger] matrix(
        y,
        m,
        p,
    ) == layers_rows(
        matrix(value(h, given, f), m, p),
        trained_brain(given, c.n_layers as nat, m).layers.take(count as int),
        d,
        hd,
        f,
    ) by {
        let all = trained_brain(given, c.n_layers as nat, m).layers;
        if count > 0 {
            let l = (count - 1) as nat;
            let below = layers_of(h, l, e);
            assert(all.take(count as int).drop_last() =~= all.take(l as int));
            assert(all.take(count as int).last() == trained_layer(given, l as int, m));
            assert(matrix(value(below, given, f), m, p).len() == seq);
            assert(matrix(value(mixed_of(below, l, e), given, f), m, p).len() == seq);
        }
    }
}

/// What the brains make of a batch, brain by brain and sequence by sequence.
pub proof fn lemma_brains_value(
    c: SwarmConfig,
    batch: usize,
    seq: usize,
    given: Given,
    f: Functions,
)
    requires
        is_trained_on(given, c, batch, seq),
        !training_pass::is_empty(c, batch, seq),
        c.n_heads > 0,
        c.n_layers > 0 ==> c.d_model % c.n_heads == 0,
        c.n_layers > 0 ==> 3 * c.d_model <= usize::MAX,
    ensures
        ({
            let y = value(brains_of(Term::Input, extent(c, batch, seq)), given, f);
            &&& is_sized(y, 3, 1, c.n_brains as int, batch as int, c.d_model as int)
            &&& forall|m: int, p: int|
                0 <= m < c.n_brains && 0 <= p < batch ==> #[trigger] row(y, 0, m, p) == brain_row(
                    matrix(given.input, 0, p),
                    trained_brain(given, c.n_layers as nat, m),
                    c.d_model as nat,
                    (c.d_model / c.n_heads) as nat,
                    f,
                )
        }),
{
    let e = extent(c, batch, seq);
    let n = e.n as int;
    let b = e.b as int;
    let s = e.s as int;
    let d = e.d as int;
    let i = INPUT_DIM as int;
    let hd = (c.d_model / c.n_heads) as nat;
    lemma_param_size(given, c, batch, seq, 0);
    lemma_param_size(given, c, batch, seq, 1);
    lemma_param_size(given, c, batch, seq, 14);
    lemma_param_size(given, c, batch, seq, 15);
    let single = unsqueeze(Term::Input, 0);
    let each = Term::Repeat(Box::new(single), 0, e.n);
    reveal_with_fuel(value, 3);
    let ve = value(each, given, f);
    assert(ve == repeated(unsqueezed(given.input, 0), 0, e.n));
    assert(is_sized(ve, 4, n, b, s, i));
    assert forall|m: int, p: int, t: int| 0 <= m < n && 0 <= p < b && 0 <= t < s implies #[trigger] row(
        ve,
        m,
        p,
        t,
    ) == row(given.input, 0, p, t) by {
        assert(row(ve, m, p, t) =~= row(given.input, 0, p, t));
    }
    let rows = reshape(each, seq![e.n, e.b * e.s, INPUT_DIM as nat]);
    lemma_flattened(each, given, f, e.n, e.b, e.s, INPUT_DIM as nat);
    lemma_linear_value(rows, param(0), param(1), given, f, n, b * s, i, d);
    let first = linear_of(rows, param(0), param(1));
    lemma_unflattened(first, given, f, e.n, e.b, e.s, e.d);
    let start = reshape(first, by_sequence(e));
    let vr = value(rows, given, f);
    let vf = value(first, given, f);
    let vs = value(start, given, f);
    lemma_layers_value(start, e.layers, c, batch, seq, given, f);
    let h = layers_of(start, e.layers, e);
    let vh = value(h, given, f);
    let pooled = squeeze(mean(h, 2), 2);
    let vp = value(pooled, given, f);
    assert(vp == squeezed(averaged(vh, 2), 2));
    assert(is_sized(vp, 3, 1, n, b, d));
    lemma_turned_value(param(14), given, f, n, d);
    lemma_turned_value(param(15), given, f, n, d);
    let scale = unsqueeze(param(14), 1);
    let shift = unsqueeze(param(15), 1);
    lemma_norm_value(pooled, 2, scale, shift, given, f);
    let y = value(brains_of(Term::Input, e), given, f);
    assert(brains_of(Term::Input, e) == norm_of(pooled, 2, scale, shift));
    assert forall|m: int, p: int| 0 <= m < n && 0 <= p < b implies #[trigger] row(y, 0, m, p)
        == brain_row(
        matrix(given.input, 0, p),
        trained_brain(given, c.n_layers as nat, m),
        d as nat,
        hd,
        f,
    ) by {
        let brain = trained_brain(given, c.n_layers as nat, m);
        let input = matrix(given.input, 0, p);
        assert(matrix(vs, m, p) =~= affine_rows(input, brain.input)) by {
            assert forall|t: int| 0 <= t < s implies #[trigger] matrix(vs, m, p)[t] == affine(
                input[t],
                brain.input,
            ) by {
                lemma_row_number(p, t, b, s);
                assert(row(vs, m, p, t) == row(vf, 0, m, p * s + t));
                assert(row(vr, 0, m, p * s + t) == row(ve, m, p, t));
                assert(row(ve, m, p, t) == input[t]);
            }
        }
        let own = matrix(vh, m, p);
        assert(brain.layers.take(e.layers as int) =~= brain.layers);
        assert(own == layers_rows(
            affine_rows(input, brain.input),
            brain.layers,
            d as nat,
            hd,
            f,
        ));
        assert(row(vp, 0, m, p) =~= mean_row(own, d as nat)) by {
            assert forall|k: int| 0 <= k < d implies #[trigger] row(vp, 0, m, p)[k] == mean_row(
                own,
                d as nat,
            )[k] by {
                assert(along(vh, 2, At { a: m, b: p, c: 0, d: k }) =~= column(own, k));
            }
        }
        assert(row_at(value(scale, given, f), 0, m, p) == brain.norm.w);
        assert(row_at(value(shift, given, f), 0, m, p) == brain.norm.b);
    }
}

/// How much each brain counts, sequence by sequence.
pub proof fn lemma_gate_value(c: SwarmConfig, batch: usize, seq: usize, given: Given, f: Functions)
    requires
        is_trained_on(given, c, batch, seq),
        seq > 0,
    ensures
        ({
            let y = value(gate_of(Term::Input, extent(c, batch, seq)), given, f);
            &&& is_sized(y, 2, 1, 1, batch as int, c.n_brains as int)
            &&& forall|p: int|
                0 <= p < batch ==> #[trigger] row(y, 0, 0, p) == gate_row(
                    matrix(given.input, 0, p).last(),
                    trained_swarm(given, c),
                    f,
                )
        }),
{
    let e = extent(c, batch, seq);
    let n = e.n as int;
    let b = e.b as int;
    let d = e.d as int;
    lemma_param_size(given, c, batch, seq, 16);
    lemma_param_size(given, c, batch, seq, 17);
    lemma_param_size(given, c, batch, seq, 18);
    lemma_param_size(given, c, batch, seq, 19);
    let last = squeeze(slice(Term::Input, 1, (e.s - 1) as nat, e.s), 1);
    reveal_with_fuel(value, 3);
    let vl = value(last, given, f);
    assert(vl == squeezed(sliced(given.input, 1, (e.s - 1) as nat, e.s), 1));
    assert(is_sized(vl, 2, 1, 1, b, INPUT_DIM as int));
    lemma_dense_value(last, param(16), param(17), given, f, b, INPUT_DIM as int, d);
    let inner = dense_of(last, param(16), param(17));
    let hidden = Term::Relu(Box::new(inner));
    let op = |x: real| positive_part(x);
    assert(value(hidden, given, f) == mapped(value(inner, given, f), op));
    lemma_mapped_rows(value(inner, given, f), op);
    lemma_dense_value(hidden, param(18), param(19), given, f, b, d, n);
    let logits = dense_of(hidden, param(18), param(19));
    lemma_softmax_value(logits, 1, given, f);
    let y = value(gate_of(Term::Input, e), given, f);
    let swarm = trained_swarm(given, c);
    assert forall|p: int| 0 <= p < b implies #[trigger] row(y, 0, 0, p) == gate_row(
        matrix(given.input, 0, p).last(),
        swarm,
        f,
    ) by {
        assert(row(vl, 0, 0, p) =~= matrix(given.input, 0, p).last());
        assert(row(value(inner, given, f), 0, 0, p) == affine(row(vl, 0, 0, p), swarm.gate1));
        assert(row(value(hidden, given, f), 0, 0, p) == affine(
            row(vl, 0, 0, p),
            swarm.gate1,
        ).map_values(op));
        assert(row(value(logits, given, f), 0, 0, p) == affine(
            row(value(hidden, given, f), 0, 0, p),
            swarm.gate2,
        ));
    }
}

/// The training pass computes the model on the rows of each sequence of the
/// batch.
pub proof fn law_training_computes_the_model(
    c: SwarmConfig,
    batch: usize,
    seq: usize,
    given: Given,
    f: Functions,
)
    requires
        is_trained_on(given, c, batch, seq),
        !training_pass::is_empty(c, batch, seq),
        c.n_heads > 0,
        c.n_layers > 0 ==> c.d_model % c.n_heads == 0,
        c.n_layers > 0 ==> 3 * c.d_model <= usize::MAX,
    ensures
        ({
            let y = value(logits_of(Term::Input, extent(c, batch, seq)), given, f);
            &&& is_sized(y, 2, 1, 1, batch as int, c.n_classes as int)
            &&& forall|p: int|
                0 <= p < batch ==> #[trigger] row(y, 0, 0, p) == logits_row(
                    matrix(given.input, 0, p),
                    trained_swarm(given, c),
                    c.d_model as nat,
                    (c.d_model / c.n_heads) as nat,
                    f,
                )
        }),
{
    let e = extent(c, batch, seq);
    let n = e.n as int;
    let b = e.b as int;
    let d = e.d as int;
    let hd = (c.d_model / c.n_heads) as nat;
    lemma_param_size(given, c, batch, seq, 20);
    lemma_param_size(given, c, batch, seq, 21);
    lemma_brains_value(c, batch, seq, given, f);
    lemma_gate_value(c, batch, seq, given, f);
    let brains = brains_of(Term::Input, e);
    let gate = gate_of(Term::Input, e);
    let vb = value(brains, given, f);
    let vg = value(gate, given, f);
    let product = matmul(unsqueeze(gate, 1), swap(brains, 0, 1));
    let whole = squeeze(product, 1);
    reveal_with_fuel(value, 4);
    let vw = value(whole, given, f);
    let wide = unsqueezed(vg, 1);
    let turned = exchanged(vb, 0, 1);
    assert(vw == squeezed(multiplied(wide, turned), 1));
    assert(is_sized(vw, 2, 1, 1, b, d));
    let swarm = trained_swarm(given, c);
    assert forall|p: int| 0 <= p < b implies #[trigger] row(vw, 0, 0, p) == together(
        matrix(given.input, 0, p),
        swarm,
        d as nat,
        hd,
        f,
    ) by {
        let x = matrix(given.input, 0, p);
        let shares = row(vg, 0, 0, p);
        let rows = brain_rows(x, swarm, d as nat, hd, f);
        assert forall|k: int| 0 <= k < d implies row(vw, 0, 0, p)[k] == #[trigger] weighted(
            shares,
            rows,
            d as nat,
        )[k] by {
            let i = At { a: 0, b: p, c: 0, d: k };
            let terms = Seq::new(
                wide.dims.d as nat,
                |m: int| (wide.at)(At { d: m, ..i }) * (turned.at)(At { c: m, ..i }),
            );
            let expected = products(shares, column(rows, k));
            assert forall|m: int| 0 <= m < n implies terms[m] == #[trigger] expected[m] by {
                assert((wide.at)(At { d: m, ..i }) == shares[m]);
                assert((turned.at)(At { c: m, ..i }) == (vb.at)(At { a: 0, b: m, c: p, d: k }));
                assert(row(vb, 0, m, p)[k] == (vb.at)(At { a: 0, b: m, c: p, d: k }));
                assert(swarm.brains[m] == trained_brain(given, c.n_layers as nat, m));
                assert(rows[m] == row(vb, 0, m, p));
            }
            assert(terms =~= expected);
            assert((vw.at)(At { a: 0, b: 0, c: p, d: k }) == (multiplied(wide, turned).at)(i));
            assert((multiplied(wide, turned).at)(i) == total(terms));
        }
        assert(row(vw, 0, 0, p) =~= weighted(shares, rows, d as nat));
    }
    lemma_dense_value(whole, param(20), param(21), given, f, b, d, c.n_classes as int);
    let y = value(logits_of(Term::Input, e), given, f);
    assert(logits_of(Term::Input, e) == dense_of(whole, param(20), param(21)));
    assert forall|p: int| 0 <= p < b implies #[trigger] row(y, 0, 0, p) == logits_row(
        matrix(given.input, 0, p),
        swarm,
        d as nat,
        hd,
        f,
    ) by {
        assert(row(vw, 0, 0, p) == together(matrix(given.input, 0, p), swarm, d as nat, hd, f));
    }
}

} // verus!
