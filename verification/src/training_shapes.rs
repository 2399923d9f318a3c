//! The forward pass of the trained swarm never meets shapes that it cannot
//! combine.

use vstd::prelude::*;
use crate::config::INPUT_DIM;
use crate::forward::{
    attention_of, block_of, dense_of, linear_of, matmul, mean, reshape, slice, squeeze, sum, swap,
    unsqueeze,
};
use crate::graph::{naturals, product_shape, shape, size, Shapes, Term};
use crate::model::{param_specs, SwarmConfig};
use crate::shapes::{
    lemma_attention, lemma_block, lemma_broadcast, lemma_dense, lemma_linear, lemma_norm,
    lemma_size_of_four, lemma_size_of_three, lemma_size_of_two, lemma_turned,
};
use crate::training_pass::{
    brains_of, by_brain, by_sequence, extent, fed_of, flat, gate_of, layer_param, layers_of,
    logits_of, mixed_of, param, Extent,
};

verus! {

/// The shapes that the trained swarm works with: a batch of sequences, and its
/// parameters.
pub open spec fn training_shapes(c: SwarmConfig, batch: usize, seq: usize) -> Shapes {
    Shapes {
        input: seq![batch as nat, seq as nat, INPUT_DIM as nat],
        weights: Seq::new(param_specs(c).len(), |i: int| naturals(param_specs(c)[i].0)),
    }
}

/// A layer's part of a parameter with so many dimensions.
pub proof fn lemma_layer_param(c: SwarmConfig, batch: usize, seq: usize, k: nat, l: nat)
    requires
        k < 24,
        l < c.n_layers,
        param_specs(c)[k as int].0.len() > 0,
        param_specs(c)[k as int].0[0] == c.n_layers,
    ensures
        shape(layer_param(k, l), training_shapes(c, batch, seq)) == Some(
            naturals(param_specs(c)[k as int].0).remove(0),
        ),
{
    let given = training_shapes(c, batch, seq);
    let dims = naturals(param_specs(c)[k as int].0);
    assert(shape(Term::Weight(k), given) == Some(dims));
    let one = slice(Term::Weight(k), 0, l, l + 1);
    assert(shape(one, given) == Some(dims.update(0, 1)));
    assert(dims.update(0, 1).remove(0) =~= dims.remove(0));
}

proof fn lemma_brain_param(c: SwarmConfig, batch: usize, seq: usize, k: nat, l: nat)
    requires
        10 <= k <= 13,
        l < c.n_layers,
    ensures
        ({
            let e = extent(c, batch, seq);
            shape(
                reshape(layer_param(k, l), by_brain(e)),
                training_shapes(c, batch, seq),
            ) == Some(by_brain(e))
        }),
{
    let e = extent(c, batch, seq);
    lemma_layer_param(c, batch, seq, k, l);
    assert(naturals(param_specs(c)[k as int].0).remove(0) =~= seq![e.n, e.d]);
    lemma_size_of_two(e.n, e.d);
    lemma_size_of_four(e.n, 1, 1, e.d);
    assert(e.n * 1 * 1 * e.d == e.n * e.d);
}

proof fn lemma_flat_size(e: Extent, width: nat)
    ensures
        size(seq![e.n, e.b * e.s, width]) == size(seq![e.n, e.b, e.s, width]),
        size(seq![e.n, e.b, e.s]) == e.n * e.b * e.s,
        size(seq![e.n, e.b * e.s, width]) == e.n * e.b * e.s * width,
{
    lemma_size_of_three(e.n, e.b * e.s, width);
    lemma_size_of_four(e.n, e.b, e.s, width);
    lemma_size_of_three(e.n, e.b, e.s);
    let n = e.n;
    let b = e.b;
    let s = e.s;
    assert(n * (b * s) * width == n * b * s * width) by (nonlinear_arith);
}

proof fn lemma_training_mixed(h: Term, l: nat, c: SwarmConfig, batch: usize, seq: usize)
    requires
        c.n_brains > 0,
        c.d_model > 0,
        batch > 0,
        seq > 0,
        l < c.n_layers,
        c.n_heads > 0,
        c.d_model % c.n_heads == 0,
        3 * c.d_model <= usize::MAX,
        shape(h, training_shapes(c, batch, seq)) == Some(by_sequence(extent(c, batch, seq))),
    ensures
        ({
            let e = extent(c, batch, seq);
            shape(mixed_of(h, l, e), training_shapes(c, batch, seq)) == Some(by_sequence(e))
        }),
{
    let e = extent(c, batch, seq);
    let given = training_shapes(c, batch, seq);
    let n = e.n;
    let r = e.b * e.s;
    let d = e.d;
    lemma_layer_param(c, batch, seq, 2, l);
    lemma_layer_param(c, batch, seq, 3, l);
    lemma_layer_param(c, batch, seq, 4, l);
    lemma_layer_param(c, batch, seq, 5, l);
    lemma_brain_param(c, batch, seq, 10, l);
    lemma_brain_param(c, batch, seq, 11, l);
    assert(naturals(param_specs(c)[2].0).remove(0) =~= seq![n, 3 * d, d]);
    assert(naturals(param_specs(c)[3].0).remove(0) =~= seq![n, 3 * d]);
    assert(naturals(param_specs(c)[4].0).remove(0) =~= seq![n, d, d]);
    assert(naturals(param_specs(c)[5].0).remove(0) =~= seq![n, d]);
    lemma_flat_size(e, d);
    lemma_flat_size(e, 3 * d);
    let rows = reshape(h, flat(e));
    assert(shape(rows, given) == Some(seq![n, r, d]));
    lemma_linear(rows, layer_param(2, l), layer_param(3, l), given, n, r, d, 3 * d);
    let joint = linear_of(rows, layer_param(2, l), layer_param(3, l));
    let wide = seq![n, e.b, e.s, 3 * d];
    let split = reshape(joint, wide);
    assert(shape(split, given) == Some(wide));
    assert(wide.drop_last() =~= seq![n, e.b, e.s]);
    lemma_attention(split, given, wide, n * e.b, e.s, d, e.heads, flat(e));
    let attended = attention_of(split, 3, n * e.b, e.s, d, e.heads, flat(e));
    lemma_linear(attended, layer_param(4, l), layer_param(5, l), given, n, r, d, d);
    let projected = linear_of(attended, layer_param(4, l), layer_param(5, l));
    let back = reshape(projected, by_sequence(e));
    assert(shape(back, given) == Some(by_sequence(e)));
    lemma_broadcast(by_sequence(e), by_sequence(e));
    assert(shape(sum(h, back), given) == Some(by_sequence(e)));
    lemma_norm(
        sum(h, back),
        3,
        reshape(layer_param(10, l), by_brain(e)),
        reshape(layer_param(11, l), by_brain(e)),
        given,
        by_sequence(e),
        by_brain(e),
    );
}

proof fn lemma_training_fed(h: Term, l: nat, c: SwarmConfig, batch: usize, seq: usize)
    requires
        l < c.n_layers,
        shape(h, training_shapes(c, batch, seq)) == Some(by_sequence(extent(c, batch, seq))),
    ensures
        ({
            let e = extent(c, batch, seq);
            shape(fed_of(h, l, e), training_shapes(c, batch, seq)) == Some(by_sequence(e))
        }),
{
    let e = extent(c, batch, seq);
    let given = training_shapes(c, batch, seq);
    let n = e.n;
    let r = e.b * e.s;
    let d = e.d;
    let f = c.ffn_dim as nat;
    lemma_layer_param(c, batch, seq, 6, l);
    lemma_layer_param(c, batch, seq, 7, l);
    lemma_layer_param(c, batch, seq, 8, l);
    lemma_layer_param(c, batch, seq, 9, l);
    lemma_brain_param(c, batch, seq, 12, l);
    lemma_brain_param(c, batch, seq, 13, l);
    assert(naturals(param_specs(c)[6].0).remove(0) =~= seq![n, f, d]);
    assert(naturals(param_specs(c)[7].0).remove(0) =~= seq![n, f]);
    assert(naturals(param_specs(c)[8].0).remove(0) =~= seq![n, d, f]);
    assert(naturals(param_specs(c)[9].0).remove(0) =~= seq![n, d]);
    lemma_flat_size(e, d);
    let rows = reshape(h, flat(e));
    assert(shape(rows, given) == Some(seq![n, r, d]));
    let w1 = layer_param(6, l);
    let b1 = layer_param(7, l);
    let w2 = layer_param(8, l);
    let b2 = layer_param(9, l);
    lemma_block(rows, w1, b1, w2, b2, given, n, r, d, f);
    let back = reshape(block_of(rows, w1, b1, w2, b2), by_sequence(e));
    assert(shape(back, given) == Some(by_sequence(e)));
    lemma_broadcast(by_sequence(e), by_sequence(e));
    assert(shape(sum(h, back), given) == Some(by_sequence(e)));
    lemma_norm(
        sum(h, back),
        3,
        reshape(layer_param(12, l), by_brain(e)),
        reshape(layer_param(13, l), by_brain(e)),
        given,
        by_sequence(e),
        by_brain(e),
    );
}

proof fn lemma_training_layers(h: Term, count: nat, c: SwarmConfig, batch: usize, seq: usize)
    requires
        c.n_brains > 0,
        c.d_model > 0,
        batch > 0,
        seq > 0,
        count <= c.n_layers,
        c.n_heads > 0,
        c.n_layers > 0 ==> c.d_model % c.n_heads == 0,
        3 * c.d_model <= usize::MAX,
        shape(h, training_shapes(c, batch, seq)) == Some(by_sequence(extent(c, batch, seq))),
    ensures
        ({
            let e = extent(c, batch, seq);
            shape(layers_of(h, count, e), training_shapes(c, batch, seq)) == Some(by_sequence(e))
        }),
    decreases count,
{
    if count > 0 {
        let e = extent(c, batch, seq);
        let l = (count - 1) as nat;
        lemma_training_layers(h, l, c, batch, seq);
        let x = layers_of(h, l, e);
        lemma_training_mixed(x, l, c, batch, seq);
        lemma_training_fed(mixed_of(x, l, e), l, c, batch, seq);
    }
}

/// What the brains make of a batch is one row for each brain and sequence.
proof fn lemma_training_brains(c: SwarmConfig, batch: usize, seq: usize)
    requires
        c.n_brains > 0,
        c.d_model > 0,
        batch > 0,
        seq > 0,
        c.n_heads > 0,
        c.n_layers > 0 ==> c.d_model % c.n_heads == 0,
        3 * c.d_model <= usize::MAX,
    ensures
        ({
            let e = extent(c, batch, seq);
            shape(brains_of(Term::Input, e), training_shapes(c, batch, seq)) == Some(
                seq![e.n, e.b, e.d],
            )
        }),
{
    let e = extent(c, batch, seq);
    let given = training_shapes(c, batch, seq);
    let n = e.n;
    let r = e.b * e.s;
    let d = e.d;
    let i = INPUT_DIM as nat;
    assert(shape(param(0), given)->0 =~= seq![n, d, i]);
    assert(shape(param(1), given)->0 =~= seq![n, d]);
    assert(shape(param(14), given)->0 =~= seq![n, d]);
    assert(shape(param(15), given)->0 =~= seq![n, d]);
    let single = unsqueeze(Term::Input, 0);
    assert(shape(single, given)->0 =~= seq![1, e.b, e.s, i]);
    let each = Term::Repeat(Box::new(single), 0, n);
    assert(shape(each, given)->0 =~= seq![n, e.b, e.s, i]);
    lemma_flat_size(e, i);
    lemma_flat_size(e, d);
    let rows = reshape(each, seq![n, r, i]);
    assert(shape(rows, given) == Some(seq![n, r, i]));
    lemma_linear(rows, param(0), param(1), given, n, r, i, d);
    let first = reshape(linear_of(rows, param(0), param(1)), by_sequence(e));
    assert(shape(first, given) == Some(by_sequence(e)));
    lemma_training_layers(first, e.layers, c, batch, seq);
    let h = layers_of(first, e.layers, e);
    assert(shape(mean(h, 2), given)->0 =~= seq![n, e.b, 1, d]);
    let pooled = squeeze(mean(h, 2), 2);
    assert(shape(pooled, given)->0 =~= seq![n, e.b, d]);
    lemma_turned(param(14), given, n, d);
    lemma_turned(param(15), given, n, d);
    lemma_norm(
        pooled,
        2,
        unsqueeze(param(14), 1),
        unsqueeze(param(15), 1),
        given,
        seq![n, e.b, d],
        seq![n, 1, d],
    );
}

proof fn lemma_training_gate(c: SwarmConfig, batch: usize, seq: usize)
    requires
        batch > 0,
        seq > 0,
    ensures
        ({
            let e = extent(c, batch, seq);
            shape(gate_of(Term::Input, e), training_shapes(c, batch, seq)) == Some(
                seq![e.b, e.n],
            )
        }),
{
    let e = extent(c, batch, seq);
    let given = training_shapes(c, batch, seq);
    let n = e.n;
    let d = e.d;
    let i = INPUT_DIM as nat;
    assert(shape(param(16), given)->0 =~= seq![d, i]);
    assert(shape(param(17), given)->0 =~= seq![d]);
    assert(shape(param(18), given)->0 =~= seq![n, d]);
    assert(shape(param(19), given)->0 =~= seq![n]);
    let row = slice(Term::Input, 1, (e.s - 1) as nat, e.s);
    assert(shape(row, given)->0 =~= seq![e.b, 1, i]);
    let last = squeeze(row, 1);
    assert(shape(last, given)->0 =~= seq![e.b, i]);
    lemma_dense(last, param(16), param(17), given, e.b, i, d);
    let hidden = Term::Relu(Box::new(dense_of(last, param(16), param(17))));
    assert(shape(hidden, given) == Some(seq![e.b, d]));
    lemma_dense(hidden, param(18), param(19), given, e.b, d, n);
}

/// Given a batch of sequences and parameters of the shapes that the swarm is
/// built with, every operation of the forward pass meets shapes that it can
/// combine, and what comes out is one logit for each action and sequence.
pub proof fn law_training_shapes_fit(c: SwarmConfig, batch: usize, seq: usize)
    requires
        c.n_heads > 0,
        c.n_brains > 0,
        c.d_model > 0,
        batch > 0,
        seq > 0,
        c.n_layers > 0 ==> c.d_model % c.n_heads == 0,
        3 * c.d_model <= usize::MAX,
    ensures
        shape(
            logits_of(Term::Input, extent(c, batch, seq)),
            training_shapes(c, batch, seq),
        ) == Some(seq![batch as nat, c.n_classes as nat]),
{
    let e = extent(c, batch, seq);
    let given = training_shapes(c, batch, seq);
    let n = e.n;
    let b = e.b;
    let d = e.d;
    let classes = c.n_classes as nat;
    lemma_training_brains(c, batch, seq);
    lemma_training_gate(c, batch, seq);
    let by_seq = swap(brains_of(Term::Input, e), 0, 1);
    assert(shape(by_seq, given)->0 =~= seq![b, n, d]);
    let wide = unsqueeze(gate_of(Term::Input, e), 1);
    assert(shape(wide, given)->0 =~= seq![b, 1, n]);
    assert(product_shape(seq![b, 1, n], seq![b, n, d])->0 =~= seq![b, 1, d]);
    let product = matmul(wide, by_seq);
    assert(shape(product, given) == Some(seq![b, 1, d]));
    let together = squeeze(product, 1);
    assert(shape(together, given)->0 =~= seq![b, d]);
    assert(shape(param(20), given)->0 =~= seq![classes, d]);
    assert(shape(param(21), given)->0 =~= seq![classes]);
    lemma_dense(together, param(20), param(21), given, b, d, classes);
}

} // verus!
