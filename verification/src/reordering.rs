//! What becomes of the model when the rows of a sequence, or the brains of a
//! swarm, come in another order.

use vstd::prelude::*;
use crate::reals::{average, dot, is_permutation, lemma_total_of_permuted, permuted, products};
use crate::rows::{
    affine, affine_rows, attention_row, attention_rows, brain_row, brain_rows, column, fed_rows,
    gate_row, layer_rows, layers_rows, mean_row, mixed_rows, part, plus_rows, shares, together,
    value_column, weighted, Affine, BrainWeights, LayerWeights, SwarmWeights,
};
use crate::tensor::{positive_part, softmax_of, Functions};

verus! {

/// A linear map with its outputs in another order.
pub open spec fn permuted_affine(m: Affine, order: Seq<int>) -> Affine {
    Affine { w: permuted(m.w, order), b: permuted(m.b, order) }
}

/// A swarm with its brains in another order.
pub open spec fn renumbered(m: SwarmWeights, order: Seq<int>) -> SwarmWeights {
    SwarmWeights {
        brains: permuted(m.brains, order),
        gate1: m.gate1,
        gate2: permuted_affine(m.gate2, order),
        action: m.action,
    }
}

proof fn lemma_softmax_of_permuted(x: Seq<real>, order: Seq<int>, f: Functions)
    requires
        is_permutation(order, x.len()),
    ensures
        softmax_of(permuted(x, order), f) == permuted(softmax_of(x, f), order),
{
    let y = permuted(x, order);
    assert(y.map_values(f.exp) =~= permuted(x.map_values(f.exp), order));
    lemma_total_of_permuted(x.map_values(f.exp), order);
    assert forall|i: int| 0 <= i < order.len() implies #[trigger] softmax_of(y, f)[i]
        == permuted(softmax_of(x, f), order)[i] by {
        assert(0 <= order[i] < x.len());
        assert(y[i] == x[order[i]]);
    }
    assert(softmax_of(y, f) =~= permuted(softmax_of(x, f), order));
}

proof fn lemma_dot_of_permuted(x: Seq<real>, y: Seq<real>, order: Seq<int>)
    requires
        is_permutation(order, x.len()),
    ensures
        dot(permuted(x, order), permuted(y, order)) == dot(x, y),
{
    lemma_total_of_permuted(products(x, y), order);
    assert(products(permuted(x, order), permuted(y, order)) =~= permuted(products(x, y), order)) by {
        assert forall|i: int| 0 <= i < order.len() implies #[trigger] products(
            permuted(x, order),
            permuted(y, order),
        )[i] == permuted(products(x, y), order)[i] by {
            assert(0 <= order[i] < x.len());
        }
    }
}

proof fn lemma_affine_of_permuted(x: Seq<Seq<real>>, m: Affine, order: Seq<int>)
    requires
        is_permutation(order, x.len()),
    ensures
        affine_rows(permuted(x, order), m) == permuted(affine_rows(x, m), order),
{
    assert forall|i: int| 0 <= i < order.len() implies #[trigger] affine_rows(
        permuted(x, order),
        m,
    )[i] == permuted(affine_rows(x, m), order)[i] by {
        assert(0 <= order[i] < x.len());
    }
    assert(affine_rows(permuted(x, order), m) =~= permuted(affine_rows(x, m), order));
}

proof fn lemma_attention_of_permuted(
    joint: Seq<Seq<real>>,
    order: Seq<int>,
    width: nat,
    head_dim: nat,
    f: Functions,
)
    requires
        is_permutation(order, joint.len()),
    ensures
        attention_rows(permuted(joint, order), width, head_dim, f) == permuted(
            attention_rows(joint, width, head_dim, f),
            order,
        ),
{
    let other = permuted(joint, order);
    let result = attention_rows(joint, width, head_dim, f);
    let moved = attention_rows(other, width, head_dim, f);
    assert forall|i: int| 0 <= i < order.len() implies #[trigger] moved[i] == permuted(
        result,
        order,
    )[i] by {
        let t = order[i];
        assert(0 <= t < joint.len());
        assert(other[i] == joint[t]);
        assert(permuted(result, order)[i] == result[t]);
        assert(result[t] == attention_row(joint, t, width, head_dim, f));
        assert forall|j: int| 0 <= j < width implies #[trigger] moved[i][j] == result[t][j] by {
            let head = j / head_dim as int;
            let score = |row: Seq<real>|
                dot(
                    part(joint[t], head * head_dim, head_dim),
                    part(row, width + head * head_dim, head_dim),
                ) * (f.inverse_root)(head_dim);
            let scores = joint.map_values(score);
            assert(shares(joint, t, head, width, head_dim, f) == softmax_of(scores, f));
            assert(other.map_values(score) =~= permuted(scores, order)) by {
                assert forall|q: int| 0 <= q < order.len() implies #[trigger] other.map_values(
                    score,
                )[q] == permuted(scores, order)[q] by {
                    assert(0 <= order[q] < joint.len());
                }
            }
            assert(shares(other, i, head, width, head_dim, f) == softmax_of(
                other.map_values(score),
                f,
            ));
            lemma_softmax_of_permuted(scores, order, f);
            let values = value_column(joint, width, j);
            assert(value_column(other, width, j) =~= permuted(values, order)) by {
                assert forall|q: int| 0 <= q < order.len() implies #[trigger] value_column(
                    other,
                    width,
                    j,
                )[q] == permuted(values, order)[q] by {
                    assert(0 <= order[q] < joint.len());
                }
            }
            lemma_dot_of_permuted(softmax_of(scores, f), values, order);
            assert(moved[i][j] == dot(
                shares(other, i, head, width, head_dim, f),
                value_column(other, width, j),
            ));
        }
        assert(moved[i] =~= result[t]);
    }
    assert(moved =~= permuted(result, order));
}

/// A layer of a brain gives the rows in the order in which it gets them.
pub proof fn lemma_layer_of_permuted(
    x: Seq<Seq<real>>,
    m: LayerWeights,
    order: Seq<int>,
    width: nat,
    head_dim: nat,
    f: Functions,
)
    requires
        is_permutation(order, x.len()),
    ensures
        layer_rows(x, m, width, head_dim, f).len() == x.len(),
        layer_rows(permuted(x, order), m, width, head_dim, f) == permuted(
            layer_rows(x, m, width, head_dim, f),
            order,
        ),
{
    let y = permuted(x, order);
    let joint = affine_rows(x, m.joint);
    lemma_affine_of_permuted(x, m.joint, order);
    lemma_attention_of_permuted(joint, order, width, head_dim, f);
    let attended = attention_rows(joint, width, head_dim, f);
    lemma_affine_of_permuted(attended, m.out, order);
    let projected = affine_rows(attended, m.out);
    assert(plus_rows(y, permuted(projected, order)) =~= permuted(
        plus_rows(x, projected),
        order,
    )) by {
        assert forall|i: int| 0 <= i < order.len() implies #[trigger] plus_rows(
            y,
            permuted(projected, order),
        )[i] == permuted(plus_rows(x, projected), order)[i] by {
            assert(0 <= order[i] < x.len());
        }
    }
    let mixed = mixed_rows(x, m, width, head_dim, f);
    let moved = mixed_rows(y, m, width, head_dim, f);
    assert(moved =~= permuted(mixed, order)) by {
        assert forall|i: int| 0 <= i < order.len() implies #[trigger] moved[i] == permuted(
            mixed,
            order,
        )[i] by {
            assert(0 <= order[i] < x.len());
        }
    }
    let result = layer_rows(x, m, width, head_dim, f);
    assert(fed_rows(permuted(mixed, order), m, f) =~= permuted(result, order)) by {
        assert forall|i: int| 0 <= i < order.len() implies #[trigger] fed_rows(
            permuted(mixed, order),
            m,
            f,
        )[i] == permuted(result, order)[i] by {
            assert(0 <= order[i] < x.len());
        }
    }
}

proof fn lemma_layers_of_permuted(
    x: Seq<Seq<real>>,
    layers: Seq<LayerWeights>,
    order: Seq<int>,
    width: nat,
    head_dim: nat,
    f: Functions,
)
    requires
        is_permutation(order, x.len()),
    ensures
        layers_rows(x, layers, width, head_dim, f).len() == x.len(),
        layers_rows(permuted(x, order), layers, width, head_dim, f) == permuted(
            layers_rows(x, layers, width, head_dim, f),
            order,
        ),
    decreases layers.len(),
{
    if layers.len() > 0 {
        lemma_layers_of_permuted(x, layers.drop_last(), order, width, head_dim, f);
        lemma_layer_of_permuted(
            layers_rows(x, layers.drop_last(), width, head_dim, f),
            layers.last(),
            order,
            width,
            head_dim,
            f,
        );
    }
}

proof fn lemma_brain_of_permuted(
    x: Seq<Seq<real>>,
    m: BrainWeights,
    order: Seq<int>,
    width: nat,
    head_dim: nat,
    f: Functions,
)
    requires
        is_permutation(order, x.len()),
    ensures
        brain_row(permuted(x, order), m, width, head_dim, f) == brain_row(
            x,
            m,
            width,
            head_dim,
            f,
        ),
{
    let first = affine_rows(x, m.input);
    lemma_affine_of_permuted(x, m.input, order);
    lemma_layers_of_permuted(first, m.layers, order, width, head_dim, f);
    let h = layers_rows(first, m.layers, width, head_dim, f);
    assert forall|k: int| 0 <= k < width implies #[trigger] mean_row(
        permuted(h, order),
        width,
    )[k] == mean_row(h, width)[k] by {
        assert(column(permuted(h, order), k) =~= permuted(column(h, k), order)) by {
            assert forall|i: int| 0 <= i < order.len() implies #[trigger] column(
                permuted(h, order),
                k,
            )[i] == permuted(column(h, k), order)[i] by {
                assert(0 <= order[i] < x.len());
            }
        }
        lemma_total_of_permuted(column(h, k), order);
        assert(average(column(permuted(h, order), k)) == average(column(h, k)));
    }
    assert(mean_row(permuted(h, order), width) =~= mean_row(h, width));
}

/// The order of the rows before the last is of no account.
pub proof fn lemma_together_of_permuted(
    x: Seq<Seq<real>>,
    m: SwarmWeights,
    order: Seq<int>,
    width: nat,
    head_dim: nat,
    f: Functions,
)
    requires
        x.len() > 0,
        is_permutation(order, x.len()),
        order[x.len() - 1] == x.len() - 1,
    ensures
        together(permuted(x, order), m, width, head_dim, f) == together(x, m, width, head_dim, f),
{
    let y = permuted(x, order);
    assert(y.last() == x.last());
    let before = brain_rows(x, m, width, head_dim, f);
    let after = brain_rows(y, m, width, head_dim, f);
    assert forall|n: int| 0 <= n < m.brains.len() implies #[trigger] after[n] == before[n] by {
        lemma_brain_of_permuted(x, m.brains[n], order, width, head_dim, f);
    }
    assert(after =~= before);
}

/// The numbers of the brains are of no account.
pub proof fn lemma_together_of_renumbered(
    x: Seq<Seq<real>>,
    m: SwarmWeights,
    order: Seq<int>,
    width: nat,
    head_dim: nat,
    f: Functions,
)
    requires
        is_permutation(order, m.brains.len()),
        m.gate2.w.len() == m.brains.len(),
    ensures
        together(x, renumbered(m, order), width, head_dim, f) == together(
            x,
            m,
            width,
            head_dim,
            f,
        ),
{
    let other = renumbered(m, order);
    let hidden = affine(x.last(), m.gate1).map_values(|v: real| positive_part(v));
    let scores = affine(hidden, m.gate2);
    assert(affine(hidden, other.gate2) =~= permuted(scores, order)) by {
        assert forall|i: int| 0 <= i < order.len() implies #[trigger] affine(
            hidden,
            other.gate2,
        )[i] == permuted(scores, order)[i] by {
            assert(0 <= order[i] < m.brains.len());
        }
    }
    lemma_softmax_of_permuted(scores, order, f);
    let gate = gate_row(x.last(), m, f);
    assert(gate_row(x.last(), other, f) == permuted(gate, order));
    let rows = brain_rows(x, m, width, head_dim, f);
    assert(brain_rows(x, other, width, head_dim, f) =~= permuted(rows, order)) by {
        assert forall|i: int| 0 <= i < order.len() implies #[trigger] brain_rows(
            x,
            other,
            width,
            head_dim,
            f,
        )[i] == permuted(rows, order)[i] by {
            assert(0 <= order[i] < m.brains.len());
        }
    }
    assert forall|k: int| 0 <= k < width implies #[trigger] weighted(
        permuted(gate, order),
        permuted(rows, order),
        width,
    )[k] == weighted(gate, rows, width)[k] by {
        assert(column(permuted(rows, order), k) =~= permuted(column(rows, k), order)) by {
            assert forall|i: int| 0 <= i < order.len() implies #[trigger] column(
                permuted(rows, order),
                k,
            )[i] == permuted(column(rows, k), order)[i] by {
                assert(0 <= order[i] < m.brains.len());
            }
        }
        lemma_dot_of_permuted(gate, column(rows, k), order);
    }
    assert(weighted(permuted(gate, order), permuted(rows, order), width) =~= weighted(
        gate,
        rows,
        width,
    ));
}

} // verus!
