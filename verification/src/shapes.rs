//! The forward passes never meet shapes that they cannot combine.

use vstd::prelude::*;
use crate::config::{
    D_MODEL, FFN_DIM, INPUT_DIM, NUM_BRAINS, NUM_CLASSES, NUM_HEADS, NUM_LAYERS, SEQ_LEN,
};
use crate::forward::{
    attended, attention_of, block_of, centered, dense_of, heads_of, linear_of, matmul, mean,
    norm_of, reshape, slice, softmax, squeeze, standardized, sum, swap, unsqueeze,
};
use crate::graph::{
    all_positive, broadcast_shape, naturals, product_shape, shape, size, Shapes, Term,
};
use crate::ieee::DOUBLE_EPSILON;
use crate::inference::{
    action_of, brains_of, combined, confidence_of, fed_of, gate_of, layer_of, layers_of, mixed_of,
    of_head, of_layer, FIRST_HEAD, LAYER_TENSORS,
};
use crate::weights::{head_specs, layer_specs, layers_specs, swarm_specs, QKV_DIM};

verus! {

/// The number of values of three dimensions.
pub proof fn lemma_size_of_three(a: nat, b: nat, c: nat)
    ensures
        size(seq![a, b, c]) == a * b * c,
{
    reveal_with_fuel(size, 4);
    let all = seq![a, b, c];
    assert(all.drop_last() =~= seq![a, b]);
    assert(all.drop_last().drop_last() =~= seq![a]);
    assert(all.drop_last().drop_last().drop_last() =~= Seq::<nat>::empty());
    assert(1 * a * b * c == a * b * c);
}

/// The number of values of four dimensions.
pub proof fn lemma_size_of_four(a: nat, b: nat, c: nat, d: nat)
    ensures
        size(seq![a, b, c, d]) == a * b * c * d,
{
    lemma_size_of_three(a, b, c);
    assert(seq![a, b, c, d].drop_last() =~= seq![a, b, c]);
}

pub proof fn lemma_broadcast(x: Seq<nat>, y: Seq<nat>)
    requires
        x.len() == y.len(),
        forall|i: int| 0 <= i < x.len() ==> #[trigger] y[i] == x[i] || y[i] == 1,
    ensures
        broadcast_shape(x, y) == Some(x),
{
    assert forall|i: int| 0 <= i < x.len() implies #[trigger] x[i] == y[i] || x[i] == 1 || y[i]
        == 1 by {
        assert(y[i] == x[i] || y[i] == 1);
    }
    assert(broadcast_shape(x, y)->0 =~= x);
}

/// A linear map for each brain takes rows of one width to rows of another.
pub proof fn lemma_linear(
    x: Term,
    w: Term,
    b: Term,
    given: Shapes,
    n: nat,
    r: nat,
    k: nat,
    o: nat,
)
    requires
        shape(x, given) == Some(seq![n, r, k]),
        shape(w, given) == Some(seq![n, o, k]),
        shape(b, given) == Some(seq![n, o]),
    ensures
        shape(linear_of(x, w, b), given) == Some(seq![n, r, o]),
{
    assert(shape(swap(w, 1, 2), given)->0 =~= seq![n, k, o]);
    assert(product_shape(seq![n, r, k], seq![n, k, o])->0 =~= seq![n, r, o]);
    assert(shape(matmul(x, swap(w, 1, 2)), given) == Some(seq![n, r, o]));
    assert(shape(unsqueeze(b, 1), given)->0 =~= seq![n, 1, o]);
    lemma_broadcast(seq![n, r, o], seq![n, 1, o]);
}

/// A linear map takes rows of one width to rows of another.
pub proof fn lemma_dense(x: Term, w: Term, b: Term, given: Shapes, r: nat, k: nat, o: nat)
    requires
        shape(x, given) == Some(seq![r, k]),
        shape(w, given) == Some(seq![o, k]),
        shape(b, given) == Some(seq![o]),
    ensures
        shape(dense_of(x, w, b), given) == Some(seq![r, o]),
{
    assert(shape(swap(w, 0, 1), given)->0 =~= seq![k, o]);
    assert(product_shape(seq![r, k], seq![k, o])->0 =~= seq![r, o]);
    assert(shape(matmul(x, swap(w, 0, 1)), given) == Some(seq![r, o]));
    assert(shape(unsqueeze(b, 0), given)->0 =~= seq![1, o]);
    lemma_broadcast(seq![r, o], seq![1, o]);
}

/// A normalization keeps the shape.
pub proof fn lemma_norm(
    x: Term,
    dim: nat,
    w: Term,
    b: Term,
    given: Shapes,
    dims: Seq<nat>,
    w_dims: Seq<nat>,
)
    requires
        shape(x, given) == Some(dims),
        dim < dims.len(),
        shape(w, given) == Some(w_dims),
        shape(b, given) == Some(w_dims),
        w_dims.len() == dims.len(),
        forall|i: int| 0 <= i < dims.len() ==> #[trigger] w_dims[i] == dims[i] || w_dims[i] == 1,
    ensures
        shape(norm_of(x, dim, w, b), given) == Some(dims),
{
    let one = dims.update(dim as int, 1);
    lemma_broadcast(dims, one);
    lemma_broadcast(dims, w_dims);
    let far = centered(x, dim);
    assert(shape(mean(x, dim), given) == Some(one));
    assert(shape(far, given) == Some(dims));
    let square = Term::Square(Box::new(far));
    assert(shape(square, given) == Some(dims));
    assert(shape(mean(square, dim), given) == Some(one));
    let more = Term::Plus(Box::new(mean(square, dim)), DOUBLE_EPSILON);
    assert(shape(more, given) == Some(one));
    let root = Term::Root(Box::new(more));
    assert(shape(root, given) == Some(one));
    assert(standardized(x, dim) == Term::Quotient(Box::new(far), Box::new(root)));
    assert(shape(standardized(x, dim), given) == Some(dims));
    let scaled = Term::Product(Box::new(standardized(x, dim)), Box::new(w));
    assert(shape(scaled, given) == Some(dims));
}

/// A feed-forward block keeps the shape of its rows.
pub proof fn lemma_block(
    x: Term,
    w1: Term,
    b1: Term,
    w2: Term,
    b2: Term,
    given: Shapes,
    n: nat,
    r: nat,
    d: nat,
    f: nat,
)
    requires
        shape(x, given) == Some(seq![n, r, d]),
        shape(w1, given) == Some(seq![n, f, d]),
        shape(b1, given) == Some(seq![n, f]),
        shape(w2, given) == Some(seq![n, d, f]),
        shape(b2, given) == Some(seq![n, d]),
    ensures
        shape(block_of(x, w1, b1, w2, b2), given) == Some(seq![n, r, d]),
{
    lemma_linear(x, w1, b1, given, n, r, d, f);
    let active = Term::Gelu(Box::new(linear_of(x, w1, b1)));
    assert(shape(active, given) == Some(seq![n, r, f]));
    lemma_linear(active, w2, b2, given, n, r, f, d);
}

proof fn lemma_heads(
    joint: Term,
    given: Shapes,
    dims: Seq<nat>,
    start: nat,
    g: nat,
    r: nat,
    h: nat,
    hd: nat,
)
    requires
        shape(joint, given) == Some(dims),
        dims.len() > 0,
        start + h * hd <= dims.last(),
        h * hd > 0,
        all_positive(dims.drop_last()),
        size(dims.drop_last()) == g * r,
    ensures
        shape(
            heads_of(
                slice(joint, (dims.len() - 1) as nat, start, start + h * hd),
                seq![g, r, h, hd],
                seq![g * h, r, hd],
            ),
            given,
        ) == Some(seq![g * h, r, hd]),
{
    let axis = (dims.len() - 1) as nat;
    let d = h * hd;
    let part = slice(joint, axis, start, start + d);
    assert(dims.take(axis as int) =~= dims.drop_last());
    let part_dims = dims.update(axis as int, d);
    assert(shape(part, given) == Some(part_dims));
    assert(part_dims.drop_last() =~= dims.drop_last());
    assert(size(part_dims) == g * r * d);
    lemma_size_of_four(g, r, h, hd);
    assert(g * r * d == g * r * h * hd) by (nonlinear_arith)
        requires
            d == h * hd,
    ;
    let split = reshape(part, seq![g, r, h, hd]);
    assert(shape(split, given) == Some(seq![g, r, h, hd]));
    assert(shape(swap(split, 1, 2), given)->0 =~= seq![g, h, r, hd]);
    lemma_size_of_four(g, h, r, hd);
    lemma_size_of_three(g * h, r, hd);
}

/// Attention over a joint projection gives rows of the model's width.
pub proof fn lemma_attention(
    joint: Term,
    given: Shapes,
    dims: Seq<nat>,
    g: nat,
    r: nat,
    d: nat,
    h: nat,
    out: Seq<nat>,
)
    requires
        shape(joint, given) == Some(dims),
        dims.len() > 0,
        dims.last() == 3 * d,
        d > 0,
        all_positive(dims.drop_last()),
        size(dims.drop_last()) == g * r,
        h > 0,
        d % h == 0,
        size(out) == g * r * d,
    ensures
        shape(attention_of(joint, (dims.len() - 1) as nat, g, r, d, h, out), given) == Some(out),
{
    let axis = (dims.len() - 1) as nat;
    let hd = d / h;
    vstd::arithmetic::div_mod::lemma_fundamental_div_mod(d as int, h as int);
    assert(d == h * hd);
    let split = seq![g, r, h, hd];
    let folded = seq![g * h, r, hd];
    lemma_heads(joint, given, dims, 0, g, r, h, hd);
    lemma_heads(joint, given, dims, d, g, r, h, hd);
    lemma_heads(joint, given, dims, 2 * d, g, r, h, hd);
    let q = heads_of(slice(joint, axis, 0, d), split, folded);
    let k = heads_of(slice(joint, axis, d, 2 * d), split, folded);
    let v = heads_of(slice(joint, axis, 2 * d, 3 * d), split, folded);
    assert(shape(q, given) == Some(folded));
    assert(shape(k, given) == Some(folded));
    assert(shape(v, given) == Some(folded));
    assert(shape(swap(k, 1, 2), given)->0 =~= seq![g * h, hd, r]);
    let products = matmul(q, swap(k, 1, 2));
    assert(product_shape(folded, seq![g * h, hd, r])->0 =~= seq![g * h, r, r]);
    assert(shape(products, given) == Some(seq![g * h, r, r]));
    let scores = Term::Scale(Box::new(products), hd);
    assert(shape(scores, given) == Some(seq![g * h, r, r]));
    assert(shape(softmax(scores, 2), given) == Some(seq![g * h, r, r]));
    let mixed = attended(q, k, v, hd);
    assert(product_shape(seq![g * h, r, r], folded)->0 =~= folded);
    assert(shape(mixed, given) == Some(folded));
    lemma_size_of_three(g * h, r, hd);
    lemma_size_of_four(g, h, r, hd);
    lemma_size_of_four(g, r, h, hd);
    let unfolded = reshape(mixed, seq![g, h, r, hd]);
    assert(shape(unfolded, given) == Some(seq![g, h, r, hd]));
    assert(shape(swap(unfolded, 1, 2), given)->0 =~= seq![g, r, h, hd]);
    assert(g * r * d == g * r * h * hd) by (nonlinear_arith)
        requires
            d == h * hd,
    ;
}

/// The shapes that the inference swarm works with: one sequence of rows, and
/// the weights as they are loaded.
pub open spec fn inference_shapes() -> Shapes {
    Shapes {
        input: seq![SEQ_LEN as nat, INPUT_DIM as nat],
        weights: Seq::new(swarm_specs().len(), |i: int| naturals(swarm_specs()[i].1)),
    }
}

proof fn lemma_layers_specs(count: nat, layer: nat, k: nat)
    requires
        k < LAYER_TENSORS,
    ensures
        layers_specs(count).len() == LAYER_TENSORS * count,
        layer < count ==> layers_specs(count)[LAYER_TENSORS * layer + k] == layer_specs(
            layer,
        )[k as int],
    decreases count,
{
    if count > 0 {
        lemma_layers_specs((count - 1) as nat, layer, k);
    }
}

/// A tensor of a layer has the shape in which it is loaded.
pub proof fn lemma_layer_weight(layer: nat, k: nat, given: Shapes)
    requires
        given.weights == inference_shapes().weights,
        layer < NUM_LAYERS,
        k < LAYER_TENSORS,
    ensures
        shape(of_layer(layer, k), given) == Some(
            naturals(layer_specs(layer)[k as int].1),
        ),
{
    lemma_layers_specs(NUM_LAYERS as nat, layer, k);
    let id = LAYER_TENSORS * layer + k;
    assert(swarm_specs()[id] == layers_specs(NUM_LAYERS as nat)[id]);
}

/// A tensor outside the layers has the shape in which it is loaded.
pub proof fn lemma_head_weight(k: nat)
    requires
        k < 12,
    ensures
        inference_shapes().weights.len() == FIRST_HEAD + 12,
        shape(of_head(k), inference_shapes()) == Some(naturals(head_specs()[k as int].1)),
{
    lemma_layers_specs(NUM_LAYERS as nat, 0, 0);
    let id = FIRST_HEAD + k;
    assert(swarm_specs()[id] == head_specs()[k as int]);
}

/// One row for each brain, with a dimension for what it applies to.
pub proof fn lemma_turned(w: Term, given: Shapes, n: nat, d: nat)
    requires
        shape(w, given) == Some(seq![n, d]),
    ensures
        shape(unsqueeze(w, 1), given) == Some(seq![n, 1, d]),
{
    assert(shape(unsqueeze(w, 1), given)->0 =~= seq![n, 1, d]);
}

proof fn lemma_inference_mixed(x: Term, layer: nat, s: nat, given: Shapes)
    requires
        s > 0,
        given.weights == inference_shapes().weights,
        layer < NUM_LAYERS,
        shape(x, given) == Some(
            seq![NUM_BRAINS as nat, s, D_MODEL as nat],
        ),
    ensures
        shape(mixed_of(x, layer, s), given) == Some(
            seq![NUM_BRAINS as nat, s, D_MODEL as nat],
        ),
{
    let n = NUM_BRAINS as nat;
    let d = D_MODEL as nat;
    let q = QKV_DIM as nat;
    let rows = seq![n, s, d];
    lemma_layer_weight(layer, 0, given);
    lemma_layer_weight(layer, 1, given);
    lemma_layer_weight(layer, 2, given);
    lemma_layer_weight(layer, 3, given);
    lemma_layer_weight(layer, 4, given);
    lemma_layer_weight(layer, 5, given);
    assert(naturals(layer_specs(layer)[0].1) =~= seq![n, q, d]);
    assert(naturals(layer_specs(layer)[1].1) =~= seq![n, q]);
    assert(naturals(layer_specs(layer)[2].1) =~= seq![n, d, d]);
    assert(naturals(layer_specs(layer)[3].1) =~= seq![n, d]);
    assert(naturals(layer_specs(layer)[4].1) =~= seq![n, d]);
    assert(naturals(layer_specs(layer)[5].1) =~= seq![n, d]);
    lemma_linear(x, of_layer(layer, 0), of_layer(layer, 1), given, n, s, d, q);
    let joint = linear_of(x, of_layer(layer, 0), of_layer(layer, 1));
    lemma_size_of_three(n, s, d);
    lemma_size_of_two(n, s);
    assert(seq![n, s, q].drop_last() =~= seq![n, s]);
    lemma_attention(joint, given, seq![n, s, q], n, s, d, NUM_HEADS as nat, rows);
    let attention = attention_of(joint, 2, n, s, d, NUM_HEADS as nat, rows);
    lemma_linear(attention, of_layer(layer, 2), of_layer(layer, 3), given, n, s, d, d);
    let mixed = linear_of(attention, of_layer(layer, 2), of_layer(layer, 3));
    lemma_broadcast(rows, rows);
    assert(shape(sum(x, mixed), given) == Some(rows));
    lemma_turned(of_layer(layer, 4), given, n, d);
    lemma_turned(of_layer(layer, 5), given, n, d);
    lemma_norm(
        sum(x, mixed),
        2,
        unsqueeze(of_layer(layer, 4), 1),
        unsqueeze(of_layer(layer, 5), 1),
        given,
        rows,
        seq![n, 1, d],
    );
}

/// The number of values of two dimensions.
pub proof fn lemma_size_of_two(a: nat, b: nat)
    ensures
        size(seq![a, b]) == a * b,
{
    reveal_with_fuel(size, 3);
    assert(seq![a, b].drop_last() =~= seq![a]);
    assert(seq![a].drop_last() =~= Seq::<nat>::empty());
    assert(1 * a * b == a * b);
}

proof fn lemma_inference_fed(y: Term, layer: nat, s: nat, given: Shapes)
    requires
        given.weights == inference_shapes().weights,
        layer < NUM_LAYERS,
        shape(y, given) == Some(
            seq![NUM_BRAINS as nat, s, D_MODEL as nat],
        ),
    ensures
        shape(fed_of(y, layer), given) == Some(
            seq![NUM_BRAINS as nat, s, D_MODEL as nat],
        ),
{
    let n = NUM_BRAINS as nat;
    let d = D_MODEL as nat;
    let f = FFN_DIM as nat;
    let rows = seq![n, s, d];
    lemma_layer_weight(layer, 6, given);
    lemma_layer_weight(layer, 7, given);
    lemma_layer_weight(layer, 8, given);
    lemma_layer_weight(layer, 9, given);
    lemma_layer_weight(layer, 10, given);
    lemma_layer_weight(layer, 11, given);
    assert(naturals(layer_specs(layer)[6].1) =~= seq![n, f, d]);
    assert(naturals(layer_specs(layer)[7].1) =~= seq![n, f]);
    assert(naturals(layer_specs(layer)[8].1) =~= seq![n, d, f]);
    assert(naturals(layer_specs(layer)[9].1) =~= seq![n, d]);
    assert(naturals(layer_specs(layer)[10].1) =~= seq![n, d]);
    assert(naturals(layer_specs(layer)[11].1) =~= seq![n, d]);
    let w1 = of_layer(layer, 6);
    let b1 = of_layer(layer, 7);
    let w2 = of_layer(layer, 8);
    let b2 = of_layer(layer, 9);
    lemma_block(y, w1, b1, w2, b2, given, n, s, d, f);
    let z = block_of(y, w1, b1, w2, b2);
    lemma_broadcast(rows, rows);
    assert(shape(sum(y, z), given) == Some(rows));
    lemma_turned(of_layer(layer, 10), given, n, d);
    lemma_turned(of_layer(layer, 11), given, n, d);
    lemma_norm(
        sum(y, z),
        2,
        unsqueeze(of_layer(layer, 10), 1),
        unsqueeze(of_layer(layer, 11), 1),
        given,
        rows,
        seq![n, 1, d],
    );
}

proof fn lemma_inference_layers(x: Term, count: nat, s: nat, given: Shapes)
    requires
        s > 0,
        given.weights == inference_shapes().weights,
        count <= NUM_LAYERS,
        shape(x, given) == Some(
            seq![NUM_BRAINS as nat, s, D_MODEL as nat],
        ),
    ensures
        shape(layers_of(x, count, s), given) == Some(
            seq![NUM_BRAINS as nat, s, D_MODEL as nat],
        ),
    decreases count,
{
    if count > 0 {
        let l = (count - 1) as nat;
        lemma_inference_layers(x, l, s, given);
        lemma_inference_mixed(layers_of(x, l, s), l, s, given);
        lemma_inference_fed(mixed_of(layers_of(x, l, s), l, s), l, s, given);
        assert(layers_of(x, count, s) == layer_of(layers_of(x, l, s), l, s));
    }
}

proof fn lemma_inference_brains()
    ensures
        shape(brains_of(Term::Input), inference_shapes()) == Some(
            seq![NUM_BRAINS as nat, D_MODEL as nat],
        ),
{
    let given = inference_shapes();
    let n = NUM_BRAINS as nat;
    let s = SEQ_LEN as nat;
    let d = D_MODEL as nat;
    let i = INPUT_DIM as nat;
    lemma_head_weight(0);
    lemma_head_weight(1);
    lemma_head_weight(2);
    lemma_head_weight(3);
    assert(naturals(head_specs()[0].1) =~= seq![n, d, i]);
    assert(naturals(head_specs()[1].1) =~= seq![n, d]);
    assert(naturals(head_specs()[2].1) =~= seq![n, d]);
    assert(naturals(head_specs()[3].1) =~= seq![n, d]);
    let single = unsqueeze(Term::Input, 0);
    assert(shape(single, given)->0 =~= seq![1, s, i]);
    let rows = Term::Repeat(Box::new(single), 0, n);
    assert(shape(rows, given)->0 =~= seq![n, s, i]);
    lemma_linear(rows, of_head(0), of_head(1), given, n, s, i, d);
    let first = linear_of(rows, of_head(0), of_head(1));
    lemma_inference_layers(first, NUM_LAYERS as nat, s, given);
    let h = layers_of(first, NUM_LAYERS as nat, s);
    assert(shape(mean(h, 1), given)->0 =~= seq![n, 1, d]);
    assert(shape(squeeze(mean(h, 1), 1), given)->0 =~= seq![n, d]);
    lemma_norm(
        squeeze(mean(h, 1), 1),
        1,
        of_head(2),
        of_head(3),
        given,
        seq![n, d],
        seq![n, d],
    );
}

proof fn lemma_inference_gate()
    ensures
        shape(gate_of(Term::Input), inference_shapes()) == Some(seq![1, NUM_BRAINS as nat]),
{
    let given = inference_shapes();
    let n = NUM_BRAINS as nat;
    let s = SEQ_LEN as nat;
    let d = D_MODEL as nat;
    let i = INPUT_DIM as nat;
    lemma_head_weight(4);
    lemma_head_weight(5);
    lemma_head_weight(6);
    lemma_head_weight(7);
    assert(naturals(head_specs()[4].1) =~= seq![d, i]);
    assert(naturals(head_specs()[5].1) =~= seq![d]);
    assert(naturals(head_specs()[6].1) =~= seq![n, d]);
    assert(naturals(head_specs()[7].1) =~= seq![n]);
    let last = slice(Term::Input, 0, (s - 1) as nat, s);
    assert(shape(last, given)->0 =~= seq![1, i]);
    lemma_dense(last, of_head(4), of_head(5), given, 1, i, d);
    let hidden = Term::Relu(Box::new(dense_of(last, of_head(4), of_head(5))));
    assert(shape(hidden, given) == Some(seq![1, d]));
    lemma_dense(hidden, of_head(6), of_head(7), given, 1, d, n);
}

/// A layer takes any number of rows of the model's width to as many: every
/// operation of it meets shapes that it can combine.
pub proof fn law_layer_keeps_shape(layer: nat, rows: nat)
    requires
        layer < NUM_LAYERS,
        rows > 0,
    ensures
        shape(
            layer_of(Term::Input, layer, rows),
            (Shapes {
                input: seq![NUM_BRAINS as nat, rows, D_MODEL as nat],
                weights: inference_shapes().weights,
            }),
        ) == Some(seq![NUM_BRAINS as nat, rows, D_MODEL as nat]),
{
    let given = Shapes {
        input: seq![NUM_BRAINS as nat, rows, D_MODEL as nat],
        weights: inference_shapes().weights,
    };
    lemma_inference_mixed(Term::Input, layer, rows, given);
    lemma_inference_fed(mixed_of(Term::Input, layer, rows), layer, rows, given);
}

/// Given one sequence and weights of the shapes that are loaded, every
/// operation of the inference pass meets shapes that it can combine, and what
/// comes out is one probability for each action, and one confidence.
pub proof fn law_inference_shapes_fit()
    ensures
        shape(action_of(combined()), inference_shapes()) == Some(seq![1, NUM_CLASSES as nat]),
        shape(confidence_of(combined()), inference_shapes()) == Some(seq![1nat, 1nat]),
{
    let given = inference_shapes();
    let n = NUM_BRAINS as nat;
    let d = D_MODEL as nat;
    let c = NUM_CLASSES as nat;
    lemma_inference_brains();
    lemma_inference_gate();
    assert(product_shape(seq![1, n], seq![n, d])->0 =~= seq![1, d]);
    assert(shape(combined(), given) == Some(seq![1, d]));
    lemma_head_weight(8);
    lemma_head_weight(9);
    lemma_head_weight(10);
    lemma_head_weight(11);
    assert(naturals(head_specs()[8].1) =~= seq![c, d]);
    assert(naturals(head_specs()[9].1) =~= seq![c]);
    assert(naturals(head_specs()[10].1) =~= seq![1, d]);
    assert(naturals(head_specs()[11].1) =~= seq![1nat]);
    lemma_dense(combined(), of_head(8), of_head(9), given, 1, d, c);
    lemma_dense(combined(), of_head(10), of_head(11), given, 1, d, 1);
}

} // verus!
