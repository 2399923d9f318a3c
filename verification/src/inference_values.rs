//! What the inference pass computes, in real numbers.

use vstd::prelude::*;
use crate::attending::{lemma_attention_value, Heads};
use crate::config::{
    D_MODEL, FFN_DIM, HEAD_DIM, INPUT_DIM, NUM_BRAINS, NUM_CLASSES, NUM_HEADS, NUM_LAYERS, SEQ_LEN,
};
use crate::evaluation::{
    is_sized, lemma_block_value, lemma_dense_value, lemma_linear_value, lemma_mapped_rows,
    lemma_norm_value, lemma_softmax_value, lemma_sum_value, lemma_turned_value, row_at,
};
use crate::forward::{
    attention_of, block_of, dense_of, linear_of, mean, norm_of, slice, squeeze, sum, unsqueeze,
};
use crate::graph::{naturals, Shapes, Term};
use crate::inference::{
    action_of, brains_of, combined, confidence_of, fed_of, gate_of, layer_of, layers_of, mixed_of,
    of_head, of_layer, FIRST_HEAD, LAYER_TENSORS,
};
use crate::reals::{products, total};
use crate::rows::{
    affine, affine_rows, attention_row, attention_rows, brain_rows, column, confidence_row,
    fed_rows, gate_row, layer_rows, layers_rows, logits_row, mean_row, mixed_rows, plus_rows,
    together, weighted, Affine, BrainWeights, LayerWeights, Norm, SwarmWeights,
};
use crate::shapes::{inference_shapes, lemma_head_weight, lemma_layer_weight};
use crate::tensor::{
    along, averaged, mapped, matrix, multiplied, padded, positive_part, repeated, row, softmax_of,
    squeezed, unsqueezed, value, At, Functions, Given, Tensor,
};
use crate::weights::{head_specs, layer_specs, QKV_DIM};

verus! {

/// Whether tensors have the given shapes.
pub open spec fn has_weights(given: Given, shapes: Shapes) -> bool {
    &&& given.weights.len() == shapes.weights.len()
    &&& forall|i: int|
        0 <= i < given.weights.len() ==> (#[trigger] given.weights[i]).rank
            == shapes.weights[i].len() && given.weights[i].dims == padded(shapes.weights[i])
}

/// A linear map of one brain, from the tensors of all.
pub open spec fn brain_affine(w: Tensor, b: Tensor, brain: int) -> Affine {
    Affine { w: matrix(w, 0, brain), b: row(b, 0, 0, brain) }
}

/// A normalization of one brain, from the tensors of all.
pub open spec fn brain_norm(w: Tensor, b: Tensor, brain: int) -> Norm {
    Norm { w: row(w, 0, 0, brain), b: row(b, 0, 0, brain) }
}

/// A linear map that all brains share.
pub open spec fn shared_affine(w: Tensor, b: Tensor) -> Affine {
    Affine { w: matrix(w, 0, 0), b: row(b, 0, 0, 0) }
}

/// A tensor of a layer.
pub open spec fn layer_tensor(given: Given, layer: int, k: int) -> Tensor {
    given.weights[LAYER_TENSORS * layer + k]
}

/// A tensor outside the layers.
pub open spec fn head_tensor(given: Given, k: int) -> Tensor {
    given.weights[FIRST_HEAD + k]
}

/// The weights of one layer of one brain.
pub open spec fn loaded_layer(given: Given, layer: int, brain: int) -> LayerWeights {
    LayerWeights {
        joint: brain_affine(layer_tensor(given, layer, 0), layer_tensor(given, layer, 1), brain),
        out: brain_affine(layer_tensor(given, layer, 2), layer_tensor(given, layer, 3), brain),
        norm1: brain_norm(layer_tensor(given, layer, 4), layer_tensor(given, layer, 5), brain),
        ffn1: brain_affine(layer_tensor(given, layer, 6), layer_tensor(given, layer, 7), brain),
        ffn2: brain_affine(layer_tensor(given, layer, 8), layer_tensor(given, layer, 9), brain),
        norm2: brain_norm(layer_tensor(given, layer, 10), layer_tensor(given, layer, 11), brain),
    }
}

/// The weights of one brain.
pub open spec fn loaded_brain(given: Given, brain: int) -> BrainWeights {
    BrainWeights {
        input: brain_affine(head_tensor(given, 0), head_tensor(given, 1), brain),
        layers: Seq::new(NUM_LAYERS as nat, |l: int| loaded_layer(given, l, brain)),
        norm: brain_norm(head_tensor(given, 2), head_tensor(given, 3), brain),
    }
}

/// The weights of the swarm.
pub open spec fn loaded_swarm(given: Given) -> SwarmWeights {
    SwarmWeights {
        brains: Seq::new(NUM_BRAINS as nat, |n: int| loaded_brain(given, n)),
        gate1: shared_affine(head_tensor(given, 4), head_tensor(given, 5)),
        gate2: shared_affine(head_tensor(given, 6), head_tensor(given, 7)),
        action: shared_affine(head_tensor(given, 8), head_tensor(given, 9)),
    }
}

/// The weights of the confidence.
pub open spec fn loaded_confidence(given: Given) -> Affine {
    shared_affine(head_tensor(given, 10), head_tensor(given, 11))
}

/// The size of a tensor of a layer.
pub proof fn lemma_layer_tensor(given: Given, layer: nat, k: nat)
    requires
        has_weights(given, inference_shapes()),
        layer < NUM_LAYERS,
        k < LAYER_TENSORS,
    ensures
        ({
            let dims = naturals(layer_specs(layer)[k as int].1);
            let w = layer_tensor(given, layer as int, k as int);
            w.rank == dims.len() && w.dims == padded(dims)
        }),
{
    lemma_layer_weight(layer, k, inference_shapes());
    let id = LAYER_TENSORS * layer + k;
    assert(given.weights[id].rank == inference_shapes().weights[id].len());
}

/// The size of a tensor outside the layers.
pub proof fn lemma_head_tensor(given: Given, k: nat)
    requires
        has_weights(given, inference_shapes()),
        k < 12,
    ensures
        given.weights.len() == FIRST_HEAD + 12,
        ({
            let dims = naturals(head_specs()[k as int].1);
            let w = head_tensor(given, k as int);
            w.rank == dims.len() && w.dims == padded(dims)
        }),
{
    lemma_head_weight(k);
    let id = FIRST_HEAD + k;
    assert(given.weights[id].rank == inference_shapes().weights[id].len());
}

/// Attention computes, for each brain, that of its own rows.
pub proof fn lemma_mixed_value(x: Term, layer: nat, s: nat, given: Given, f: Functions)
    requires
        has_weights(given, inference_shapes()),
        layer < NUM_LAYERS,
        s > 0,
        is_sized(value(x, given, f), 3, 1, NUM_BRAINS as int, s as int, D_MODEL as int),
    ensures
        ({
            let y = value(mixed_of(x, layer, s), given, f);
            &&& is_sized(y, 3, 1, NUM_BRAINS as int, s as int, D_MODEL as int)
            &&& forall|m: int|
                0 <= m < NUM_BRAINS ==> #[trigger] matrix(y, 0, m) == mixed_rows(
                    matrix(value(x, given, f), 0, m),
                    loaded_layer(given, layer as int, m),
                    D_MODEL as nat,
                    HEAD_DIM as nat,
                    f,
                )
        }),
{
    let n = NUM_BRAINS as int;
    let d = D_MODEL as int;
    let l = layer as int;
    let rows = s as int;
    lemma_layer_tensor(given, layer, 0);
    lemma_layer_tensor(given, layer, 1);
    lemma_layer_tensor(given, layer, 2);
    lemma_layer_tensor(given, layer, 3);
    lemma_layer_tensor(given, layer, 4);
    lemma_layer_tensor(given, layer, 5);
    let vx = value(x, given, f);
    let joint = linear_of(x, of_layer(layer, 0), of_layer(layer, 1));
    lemma_linear_value(
        x,
        of_layer(layer, 0),
        of_layer(layer, 1),
        given,
        f,
        n,
        rows,
        d,
        QKV_DIM as int,
    );
    let vj = value(joint, given, f);
    let out = seq![n as nat, s, d as nat];
    let split = Heads {
        outer: 1,
        inner: n,
        rows,
        heads: NUM_HEADS as int,
        head_dim: HEAD_DIM as int,
    };
    assert(split.width() == 8 * 32);
    assert(split.outer * split.inner == n) by (nonlinear_arith)
        requires
            split.outer == 1,
            split.inner == n,
    ;
    assert(vj.dims == At { a: 1, b: n, c: rows, d: 3 * split.width() });
    let attention = attention_of(joint, 2, n as nat, s, d as nat, NUM_HEADS as nat, out);
    let va = value(attention, given, f);
    assert(padded(out) == At { a: 1, b: n, c: rows, d });
    assert forall|m: int, t: int| 0 <= m < n && 0 <= t < rows implies #[trigger] row(va, 0, m, t)
        == attention_row(matrix(vj, 0, m), t, d as nat, HEAD_DIM as nat, f) by {
        let expected = attention_row(matrix(vj, 0, m), t, d as nat, HEAD_DIM as nat, f);
        assert forall|j: int| 0 <= j < d implies #[trigger] (va.at)(At { a: 0, b: m, c: t, d: j })
            == expected[j] by {
            let to = At { a: 0, b: m, c: t, d: j };
            lemma_attention_value(joint, 2, split, out, given, f, 0, m, t, j, to);
        }
        lemma_attention_value(
            joint,
            2,
            split,
            out,
            given,
            f,
            0,
            m,
            t,
            0,
            At { a: 0, b: m, c: t, d: 0 },
        );
        assert(row(va, 0, m, t) =~= expected);
    }
    lemma_attention_value(
        joint,
        2,
        split,
        out,
        given,
        f,
        0,
        0,
        0,
        0,
        At { a: 0, b: 0, c: 0, d: 0 },
    );
    lemma_linear_value(attention, of_layer(layer, 2), of_layer(layer, 3), given, f, n, rows, d, d);
    let projected = linear_of(attention, of_layer(layer, 2), of_layer(layer, 3));
    lemma_sum_value(x, projected, given, f);
    let more = sum(x, projected);
    lemma_turned_value(of_layer(layer, 4), given, f, n, d);
    lemma_turned_value(of_layer(layer, 5), given, f, n, d);
    let scale = unsqueeze(of_layer(layer, 4), 1);
    let shift = unsqueeze(of_layer(layer, 5), 1);
    lemma_norm_value(more, 2, scale, shift, given, f);
    let y = value(mixed_of(x, layer, s), given, f);
    assert(mixed_of(x, layer, s) == norm_of(more, 2, scale, shift));
    assert forall|m: int| 0 <= m < n implies #[trigger] matrix(y, 0, m) == mixed_rows(
        matrix(vx, 0, m),
        loaded_layer(given, l, m),
        d as nat,
        HEAD_DIM as nat,
        f,
    ) by {
        let own = matrix(vx, 0, m);
        let weights = loaded_layer(given, l, m);
        assert(matrix(vj, 0, m) =~= affine_rows(own, weights.joint)) by {
            assert forall|q: int| 0 <= q < rows implies #[trigger] matrix(vj, 0, m)[q] == affine(
                own[q],
                weights.joint,
            ) by {
                assert(row(vj, 0, m, q) == matrix(vj, 0, m)[q]);
            }
        }
        let attended = attention_rows(affine_rows(own, weights.joint), d as nat, HEAD_DIM as nat, f);
        let vp = value(projected, given, f);
        let vm = value(more, given, f);
        let expected = mixed_rows(own, weights, d as nat, HEAD_DIM as nat, f);
        assert forall|q: int| 0 <= q < rows implies matrix(y, 0, m)[q] == #[trigger] expected[q] by {
            assert(row(va, 0, m, q) == attended[q]);
            assert(row(vp, 0, m, q) == affine(attended[q], weights.out));
            assert(row(vm, 0, m, q) == plus_rows(own, affine_rows(attended, weights.out))[q]);
            assert(row_at(value(scale, given, f), 0, m, q) == weights.norm1.w);
            assert(row_at(value(shift, given, f), 0, m, q) == weights.norm1.b);
            assert(row(y, 0, m, q) == matrix(y, 0, m)[q]);
        }
        assert(matrix(y, 0, m) =~= expected);
    }
}

/// The feed-forward block computes, for each brain, that of its own rows.
pub proof fn lemma_fed_value(x: Term, layer: nat, s: nat, given: Given, f: Functions)
    requires
        has_weights(given, inference_shapes()),
        layer < NUM_LAYERS,
        is_sized(value(x, given, f), 3, 1, NUM_BRAINS as int, s as int, D_MODEL as int),
    ensures
        ({
            let y = value(fed_of(x, layer), given, f);
            &&& is_sized(y, 3, 1, NUM_BRAINS as int, s as int, D_MODEL as int)
            &&& forall|m: int|
                0 <= m < NUM_BRAINS ==> #[trigger] matrix(y, 0, m) == fed_rows(
                    matrix(value(x, given, f), 0, m),
                    loaded_layer(given, layer as int, m),
                    f,
                )
        }),
{
    let n = NUM_BRAINS as int;
    let d = D_MODEL as int;
    let l = layer as int;
    let rows = s as int;
    lemma_layer_tensor(given, layer, 6);
    lemma_layer_tensor(given, layer, 7);
    lemma_layer_tensor(given, layer, 8);
    lemma_layer_tensor(given, layer, 9);
    lemma_layer_tensor(given, layer, 10);
    lemma_layer_tensor(given, layer, 11);
    let vx = value(x, given, f);
    let w1 = of_layer(layer, 6);
    let b1 = of_layer(layer, 7);
    let w2 = of_layer(layer, 8);
    let b2 = of_layer(layer, 9);
    lemma_block_value(x, w1, b1, w2, b2, given, f, n, rows, d, FFN_DIM as int);
    let z = block_of(x, w1, b1, w2, b2);
    lemma_sum_value(x, z, given, f);
    let more = sum(x, z);
    lemma_turned_value(of_layer(layer, 10), given, f, n, d);
    lemma_turned_value(of_layer(layer, 11), given, f, n, d);
    let scale = unsqueeze(of_layer(layer, 10), 1);
    let shift = unsqueeze(of_layer(layer, 11), 1);
    lemma_norm_value(more, 2, scale, shift, given, f);
    let y = value(fed_of(x, layer), given, f);
    assert(fed_of(x, layer) == norm_of(more, 2, scale, shift));
    assert forall|m: int| 0 <= m < n implies #[trigger] matrix(y, 0, m) == fed_rows(
        matrix(vx, 0, m),
        loaded_layer(given, l, m),
        f,
    ) by {
        let own = matrix(vx, 0, m);
        let weights = loaded_layer(given, l, m);
        let vm = value(more, given, f);
        let expected = fed_rows(own, weights, f);
        assert forall|q: int| 0 <= q < rows implies matrix(y, 0, m)[q] == #[trigger] expected[q] by {
            assert(row(vx, 0, m, q) == own[q]);
            assert(row(value(z, given, f), 0, m, q) == affine(
                affine(own[q], weights.ffn1).map_values(f.gelu),
                weights.ffn2,
            ));
            assert(row(vm, 0, m, q).len() == d);
            assert(row_at(value(scale, given, f), 0, m, q) == weights.norm2.w);
            assert(row_at(value(shift, given, f), 0, m, q) == weights.norm2.b);
            assert(row(y, 0, m, q) == matrix(y, 0, m)[q]);
        }
        assert(matrix(y, 0, m) =~= expected);
    }
}

/// A layer computes, for each brain, that brain's layer of its own rows.
pub proof fn lemma_layer_value(x: Term, layer: nat, s: nat, given: Given, f: Functions)
    requires
        has_weights(given, inference_shapes()),
        layer < NUM_LAYERS,
        s > 0,
        is_sized(value(x, given, f), 3, 1, NUM_BRAINS as int, s as int, D_MODEL as int),
    ensures
        ({
            let y = value(layer_of(x, layer, s), given, f);
            &&& is_sized(y, 3, 1, NUM_BRAINS as int, s as int, D_MODEL as int)
            &&& forall|m: int|
                0 <= m < NUM_BRAINS ==> #[trigger] matrix(y, 0, m) == layer_rows(
                    matrix(value(x, given, f), 0, m),
                    loaded_layer(given, layer as int, m),
                    D_MODEL as nat,
                    HEAD_DIM as nat,
                    f,
                )
        }),
{
    lemma_mixed_value(x, layer, s, given, f);
    let y = mixed_of(x, layer, s);
    lemma_fed_value(y, layer, s, given, f);
    let z = value(layer_of(x, layer, s), given, f);
    assert forall|m: int| 0 <= m < NUM_BRAINS implies #[trigger] matrix(z, 0, m) == layer_rows(
        matrix(value(x, given, f), 0, m),
        loaded_layer(given, layer as int, m),
        D_MODEL as nat,
        HEAD_DIM as nat,
        f,
    ) by {
        assert(matrix(value(y, given, f), 0, m).len() == s);
    }
}

/// Layers compute, for each brain, its own of its own rows.
pub proof fn lemma_layers_value(x: Term, count: nat, s: nat, given: Given, f: Functions)
    requires
        has_weights(given, inference_shapes()),
        count <= NUM_LAYERS,
        s > 0,
        is_sized(value(x, given, f), 3, 1, NUM_BRAINS as int, s as int, D_MODEL as int),
    ensures
        ({
            let y = value(layers_of(x, count, s), given, f);
            &&& is_sized(y, 3, 1, NUM_BRAINS as int, s as int, D_MODEL as int)
            &&& forall|m: int|
                0 <= m < NUM_BRAINS ==> #[trigger] matrix(y, 0, m) == layers_rows(
                    matrix(value(x, given, f), 0, m),
                    loaded_brain(given, m).layers.take(count as int),
                    D_MODEL as nat,
                    HEAD_DIM as nat,
                    f,
                )
        }),
    decreases count,
{
    let y = value(layers_of(x, count, s), given, f);
    if count > 0 {
        let l = (count - 1) as nat;
        lemma_layers_value(x, l, s, given, f);
        lemma_layer_value(layers_of(x, l, s), l, s, given, f);
    }
    assert forall|m: int| 0 <= m < NUM_BRAINS implies #[trigger] matrix(y, 0, m) == layers_rows(
        matrix(value(x, given, f), 0, m),
        loaded_brain(given, m).layers.take(count as int),
        D_MODEL as nat,
        HEAD_DIM as nat,
        f,
    ) by {
        if count > 0 {
            let l = (count - 1) as nat;
            let layers = loaded_brain(given, m).layers.take(count as int);
            assert(layers.drop_last() =~= loaded_brain(given, m).layers.take(l as int));
            assert(layers.last() == loaded_layer(given, l as int, m));
            let below = value(layers_of(x, l, s), given, f);
            assert(matrix(below, 0, m).len() == s);
        }
    }
}

/// What the brains make of the input, brain by brain.
pub proof fn lemma_brains_value(given: Given, f: Functions)
    requires
        has_weights(given, inference_shapes()),
        is_sized(given.input, 2, 1, 1, SEQ_LEN as int, INPUT_DIM as int),
    ensures
        ({
            let y = value(brains_of(Term::Input), given, f);
            &&& is_sized(y, 2, 1, 1, NUM_BRAINS as int, D_MODEL as int)
            &&& matrix(y, 0, 0) == brain_rows(
                matrix(given.input, 0, 0),
                loaded_swarm(given),
                D_MODEL as nat,
                HEAD_DIM as nat,
                f,
            )
        }),
{
    let n = NUM_BRAINS as int;
    let d = D_MODEL as int;
    let s = SEQ_LEN as int;
    lemma_head_tensor(given, 0);
    lemma_head_tensor(given, 1);
    lemma_head_tensor(given, 2);
    lemma_head_tensor(given, 3);
    let single = unsqueeze(Term::Input, 0);
    let rows = Term::Repeat(Box::new(single), 0, n as nat);
    reveal_with_fuel(value, 3);
    let vr = value(rows, given, f);
    assert(vr == repeated(unsqueezed(given.input, 0), 0, n as nat));
    assert(is_sized(vr, 3, 1, n, s, INPUT_DIM as int));
    assert forall|m: int, q: int| 0 <= m < n && 0 <= q < s implies #[trigger] row(vr, 0, m, q)
        == row(given.input, 0, 0, q) by {
        assert(row(vr, 0, m, q) =~= row(given.input, 0, 0, q));
    }
    lemma_linear_value(rows, of_head(0), of_head(1), given, f, n, s, INPUT_DIM as int, d);
    let first = linear_of(rows, of_head(0), of_head(1));
    let vf = value(first, given, f);
    lemma_layers_value(first, NUM_LAYERS as nat, SEQ_LEN as nat, given, f);
    let h = layers_of(first, NUM_LAYERS as nat, SEQ_LEN as nat);
    let vh = value(h, given, f);
    let pooled = squeeze(mean(h, 1), 1);
    let vp = value(pooled, given, f);
    assert(vp == squeezed(averaged(vh, 1), 1));
    assert(is_sized(vp, 2, 1, 1, n, d));
    lemma_norm_value(pooled, 1, of_head(2), of_head(3), given, f);
    let y = value(brains_of(Term::Input), given, f);
    assert(brains_of(Term::Input) == norm_of(pooled, 1, of_head(2), of_head(3)));
    let input = matrix(given.input, 0, 0);
    let swarm = loaded_swarm(given);
    let expected = brain_rows(input, swarm, d as nat, HEAD_DIM as nat, f);
    assert forall|m: int| 0 <= m < n implies matrix(y, 0, 0)[m] == #[trigger] expected[m] by {
        let brain = loaded_brain(given, m);
        assert(swarm.brains[m] == brain);
        assert(matrix(vf, 0, m) =~= affine_rows(input, brain.input)) by {
            assert forall|q: int| 0 <= q < s implies #[trigger] matrix(vf, 0, m)[q] == affine(
                input[q],
                brain.input,
            ) by {
                assert(row(vf, 0, m, q) == matrix(vf, 0, m)[q]);
                assert(row(vr, 0, m, q) == input[q]);
            }
        }
        let own = matrix(vh, 0, m);
        assert(brain.layers.take(NUM_LAYERS as int) =~= brain.layers);
        assert(own == layers_rows(
            affine_rows(input, brain.input),
            brain.layers,
            d as nat,
            HEAD_DIM as nat,
            f,
        ));
        assert(row(vp, 0, 0, m) =~= mean_row(own, d as nat)) by {
            assert forall|k: int| 0 <= k < d implies #[trigger] row(vp, 0, 0, m)[k] == mean_row(
                own,
                d as nat,
            )[k] by {
                assert(along(vh, 2, At { a: 0, b: m, c: 0, d: k }) =~= column(own, k));
            }
        }
        assert(row(y, 0, 0, m) == matrix(y, 0, 0)[m]);
        assert(row_at(head_tensor(given, 2), 0, 0, m) == brain.norm.w);
        assert(row_at(head_tensor(given, 3), 0, 0, m) == brain.norm.b);
    }
    assert(matrix(y, 0, 0) =~= expected);
}

/// How much each brain counts.
pub proof fn lemma_gate_value(given: Given, f: Functions)
    requires
        has_weights(given, inference_shapes()),
        is_sized(given.input, 2, 1, 1, SEQ_LEN as int, INPUT_DIM as int),
    ensures
        ({
            let y = value(gate_of(Term::Input), given, f);
            &&& is_sized(y, 2, 1, 1, 1, NUM_BRAINS as int)
            &&& row(y, 0, 0, 0) == gate_row(
                matrix(given.input, 0, 0).last(),
                loaded_swarm(given),
                f,
            )
        }),
{
    let n = NUM_BRAINS as int;
    let d = D_MODEL as int;
    lemma_head_tensor(given, 4);
    lemma_head_tensor(given, 5);
    lemma_head_tensor(given, 6);
    lemma_head_tensor(given, 7);
    let last = slice(Term::Input, 0, (SEQ_LEN - 1) as nat, SEQ_LEN as nat);
    reveal_with_fuel(value, 2);
    let vl = value(last, given, f);
    assert(is_sized(vl, 2, 1, 1, 1, INPUT_DIM as int));
    assert(row(vl, 0, 0, 0) =~= matrix(given.input, 0, 0).last());
    lemma_dense_value(last, of_head(4), of_head(5), given, f, 1, INPUT_DIM as int, d);
    let inner = dense_of(last, of_head(4), of_head(5));
    let hidden = Term::Relu(Box::new(inner));
    let op = |x: real| positive_part(x);
    assert(value(hidden, given, f) == mapped(value(inner, given, f), op));
    lemma_mapped_rows(value(inner, given, f), op);
    lemma_dense_value(hidden, of_head(6), of_head(7), given, f, 1, d, n);
    lemma_softmax_value(dense_of(hidden, of_head(6), of_head(7)), 1, given, f);
    let swarm = loaded_swarm(given);
    assert(row(value(inner, given, f), 0, 0, 0) == affine(row(vl, 0, 0, 0), swarm.gate1));
    assert(row(value(hidden, given, f), 0, 0, 0) == affine(
        row(vl, 0, 0, 0),
        swarm.gate1,
    ).map_values(op));
    assert(row(value(dense_of(hidden, of_head(6), of_head(7)), given, f), 0, 0, 0) == affine(
        row(value(hidden, given, f), 0, 0, 0),
        swarm.gate2,
    ));
}

/// What the brains make of the input together.
pub proof fn lemma_combined_value(given: Given, f: Functions)
    requires
        has_weights(given, inference_shapes()),
        is_sized(given.input, 2, 1, 1, SEQ_LEN as int, INPUT_DIM as int),
    ensures
        ({
            let y = value(combined(), given, f);
            &&& is_sized(y, 2, 1, 1, 1, D_MODEL as int)
            &&& row(y, 0, 0, 0) == together(
                matrix(given.input, 0, 0),
                loaded_swarm(given),
                D_MODEL as nat,
                HEAD_DIM as nat,
                f,
            )
        }),
{
    let n = NUM_BRAINS as int;
    let d = D_MODEL as int;
    lemma_brains_value(given, f);
    lemma_gate_value(given, f);
    let vg = value(gate_of(Term::Input), given, f);
    let vb = value(brains_of(Term::Input), given, f);
    let y = value(combined(), given, f);
    assert(y == multiplied(vg, vb));
    let shares = row(vg, 0, 0, 0);
    let rows = matrix(vb, 0, 0);
    assert(row(y, 0, 0, 0) =~= weighted(shares, rows, d as nat)) by {
        assert forall|k: int| 0 <= k < d implies #[trigger] row(y, 0, 0, 0)[k] == weighted(
            shares,
            rows,
            d as nat,
        )[k] by {
            let i = At { a: 0, b: 0, c: 0, d: k };
            let terms = Seq::new(
                vg.dims.d as nat,
                |m: int| (vg.at)(At { d: m, ..i }) * (vb.at)(At { c: m, ..i }),
            );
            assert(terms =~= products(shares, column(rows, k)));
            assert((y.at)(i) == total(terms));
        }
    }
}

/// The inference pass computes the model on the rows of the sequence: the
/// probabilities are the softmax of its logits, and the confidence is its
/// confidence.
pub proof fn law_inference_computes_the_model(given: Given, f: Functions)
    requires
        has_weights(given, inference_shapes()),
        is_sized(given.input, 2, 1, 1, SEQ_LEN as int, INPUT_DIM as int),
    ensures
        ({
            let x = matrix(given.input, 0, 0);
            let swarm = loaded_swarm(given);
            let action = value(action_of(combined()), given, f);
            let confidence = value(confidence_of(combined()), given, f);
            &&& is_sized(action, 2, 1, 1, 1, NUM_CLASSES as int)
            &&& row(action, 0, 0, 0) == softmax_of(
                logits_row(x, swarm, D_MODEL as nat, HEAD_DIM as nat, f),
                f,
            )
            &&& is_sized(confidence, 2, 1, 1, 1, 1)
            &&& row(confidence, 0, 0, 0) == confidence_row(
                x,
                swarm,
                loaded_confidence(given),
                D_MODEL as nat,
                HEAD_DIM as nat,
                f,
            )
        }),
{
    let d = D_MODEL as int;
    lemma_combined_value(given, f);
    lemma_head_tensor(given, 8);
    lemma_head_tensor(given, 9);
    lemma_head_tensor(given, 10);
    lemma_head_tensor(given, 11);
    reveal_with_fuel(value, 2);
    lemma_dense_value(combined(), of_head(8), of_head(9), given, f, 1, d, NUM_CLASSES as int);
    let logits = dense_of(combined(), of_head(8), of_head(9));
    lemma_softmax_value(logits, 1, given, f);
    lemma_dense_value(combined(), of_head(10), of_head(11), given, f, 1, d, 1);
    let score = dense_of(combined(), of_head(10), of_head(11));
    lemma_mapped_rows(value(score, given, f), f.sigmoid);
    let own = row(value(combined(), given, f), 0, 0, 0);
    assert(row(value(logits, given, f), 0, 0, 0) == affine(own, loaded_swarm(given).action));
    assert(row(value(score, given, f), 0, 0, 0) == affine(own, loaded_confidence(given)));
    assert(value(confidence_of(combined()), given, f) == mapped(
        value(score, given, f),
        f.sigmoid,
    ));
}

} // verus!
