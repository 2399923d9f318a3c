//! Laws of a layer of the inference swarm and of its normalizations, in real
//! numbers.

use vstd::prelude::*;
use crate::config::{D_MODEL, FFN_DIM, HEAD_DIM, NUM_BRAINS, NUM_LAYERS};
use crate::evaluation::{fits, is_sized, lemma_norm_value, row_at};
use crate::forward::norm_of;
use crate::graph::Term;
use crate::inference::layer_of;
use crate::inference_values::{has_weights, lemma_layer_tensor, lemma_layer_value, loaded_layer};
use crate::normalization::{
    has_roots, is_zero, lemma_layer_of_nothing, lemma_normed_is_standard, lemma_normed_of_shifted,
    shifted,
};
use crate::reals::{average, constant, is_permutation, permuted};
use crate::reordering::lemma_layer_of_permuted;
use crate::rows::{mean_square, normed_rows, Norm};
use crate::shapes::inference_shapes;
use crate::tensor::{matrix, row, value, Functions, Given, Tensor};

verus! {

/// Whether a layer can be computed from these tensors: the weights of a swarm,
/// and so many rows for each brain.
pub open spec fn is_layer_given(given: Given, rows: nat) -> bool {
    &&& rows > 0
    &&& has_weights(given, inference_shapes())
    &&& is_sized(given.input, 3, 1, NUM_BRAINS as int, rows as int, D_MODEL as int)
}

/// What a layer makes of the rows that it is given.
pub open spec fn layer_result(given: Given, layer: nat, rows: nat, f: Functions) -> Tensor {
    value(layer_of(Term::Input, layer, rows), given, f)
}

/// A layer gives its rows in the order in which it gets them: it knows no
/// positions. What comes out has the size of what goes in.
pub proof fn law_layer_keeps_order(
    given: Given,
    moved: Given,
    layer: nat,
    rows: nat,
    order: Seq<int>,
    f: Functions,
)
    requires
        layer < NUM_LAYERS,
        is_layer_given(given, rows),
        is_layer_given(moved, rows),
        moved.weights == given.weights,
        is_permutation(order, rows),
        forall|n: int|
            0 <= n < NUM_BRAINS ==> #[trigger] matrix(moved.input, 0, n) == permuted(
                matrix(given.input, 0, n),
                order,
            ),
    ensures
        is_sized(
            layer_result(given, layer, rows, f),
            3,
            1,
            NUM_BRAINS as int,
            rows as int,
            D_MODEL as int,
        ),
        forall|n: int|
            0 <= n < NUM_BRAINS ==> #[trigger] matrix(
                layer_result(moved, layer, rows, f),
                0,
                n,
            ) == permuted(matrix(layer_result(given, layer, rows, f), 0, n), order),
{
    lemma_layer_value(Term::Input, layer, rows, given, f);
    lemma_layer_value(Term::Input, layer, rows, moved, f);
    assert forall|n: int| 0 <= n < NUM_BRAINS implies #[trigger] matrix(
        layer_result(moved, layer, rows, f),
        0,
        n,
    ) == permuted(matrix(layer_result(given, layer, rows, f), 0, n), order) by {
        let own = matrix(given.input, 0, n);
        assert(matrix(value(Term::Input, given, f), 0, n) == own);
        assert(matrix(value(Term::Input, moved, f), 0, n) == matrix(moved.input, 0, n));
        assert(loaded_layer(moved, layer as int, n) == loaded_layer(given, layer as int, n));
        assert(own.len() == rows);
        assert(matrix(layer_result(given, layer, rows, f), 0, n).len() == rows);
        lemma_layer_of_permuted(
            own,
            loaded_layer(given, layer as int, n),
            order,
            D_MODEL as nat,
            HEAD_DIM as nat,
            f,
        );
    }
}

/// What a layer makes of the rows of a brain depends on these rows and on the
/// brain's own weights in that layer alone.
pub proof fn law_brains_do_not_meet_in_layers(
    given: Given,
    other: Given,
    layer: nat,
    other_layer: nat,
    rows: nat,
    brain: int,
    f: Functions,
)
    requires
        layer < NUM_LAYERS,
        other_layer < NUM_LAYERS,
        is_layer_given(given, rows),
        is_layer_given(other, rows),
        0 <= brain < NUM_BRAINS,
        matrix(other.input, 0, brain) == matrix(given.input, 0, brain),
        loaded_layer(other, other_layer as int, brain) == loaded_layer(given, layer as int, brain),
    ensures
        matrix(layer_result(other, other_layer, rows, f), 0, brain) == matrix(
            layer_result(given, layer, rows, f),
            0,
            brain,
        ),
{
    lemma_layer_value(Term::Input, layer, rows, given, f);
    lemma_layer_value(Term::Input, other_layer, rows, other, f);
    assert(matrix(layer_result(given, layer, rows, f), 0, brain).len() == rows);
    assert(matrix(layer_result(other, other_layer, rows, f), 0, brain).len() == rows);
}

/// Where attention and the feed-forward block of a brain give nothing but zeros,
/// its layer is the two normalizations, one after the other.
pub proof fn law_layer_without_sublayers_normalizes(
    given: Given,
    layer: nat,
    rows: nat,
    brain: int,
    f: Functions,
)
    requires
        layer < NUM_LAYERS,
        is_layer_given(given, rows),
        0 <= brain < NUM_BRAINS,
        is_zero(loaded_layer(given, layer as int, brain).out, D_MODEL as nat, D_MODEL as nat),
        is_zero(loaded_layer(given, layer as int, brain).ffn2, FFN_DIM as nat, D_MODEL as nat),
    ensures
        ({
            let own = loaded_layer(given, layer as int, brain);
            matrix(layer_result(given, layer, rows, f), 0, brain) == normed_rows(
                normed_rows(matrix(given.input, 0, brain), own.norm1, f),
                own.norm2,
                f,
            )
        }),
{
    lemma_layer_value(Term::Input, layer, rows, given, f);
    lemma_layer_tensor(given, layer, 6);
    let x = matrix(given.input, 0, brain);
    let own = loaded_layer(given, layer as int, brain);
    assert(own.ffn1.w.len() == FFN_DIM);
    assert(matrix(layer_result(given, layer, rows, f), 0, brain).len() == rows);
    lemma_layer_of_nothing(x, own, D_MODEL as nat, HEAD_DIM as nat, f);
}

/// A normalization does not see one number that is added to a whole row.
pub proof fn law_normalization_ignores_shifts(
    x: Term,
    y: Term,
    dim: nat,
    w: Term,
    b: Term,
    given: Given,
    f: Functions,
    p: int,
    m: int,
    q: int,
    by: real,
)
    requires
        ({
            let vx = value(x, given, f);
            &&& vx.rank == dim + 1
            &&& value(y, given, f).rank == vx.rank
            &&& value(y, given, f).dims == vx.dims
            &&& fits(value(w, given, f).dims, vx.dims)
            &&& fits(value(b, given, f).dims, vx.dims)
            &&& 0 <= p < vx.dims.a
            &&& 0 <= m < vx.dims.b
            &&& 0 <= q < vx.dims.c
            &&& 0 <= vx.dims.d
            &&& row(value(y, given, f), p, m, q) == shifted(row(vx, p, m, q), by)
        }),
    ensures
        row(value(norm_of(y, dim, w, b), given, f), p, m, q) == row(
            value(norm_of(x, dim, w, b), given, f),
            p,
            m,
            q,
        ),
{
    lemma_norm_value(x, dim, w, b, given, f);
    lemma_norm_value(y, dim, w, b, given, f);
    let own = Norm {
        w: row_at(value(w, given, f), p, m, q),
        b: row_at(value(b, given, f), p, m, q),
    };
    lemma_normed_of_shifted(row(value(x, given, f), p, m, q), by, own, f);
    assert(row(value(norm_of(y, dim, w, b), given, f), p, m, q).len() == value(
        x,
        given,
        f,
    ).dims.d);
}

/// With scales of one and shifts of zero, every row of a normalization has mean
/// zero, and its mean square is at most one.
pub proof fn law_normalization_standardizes(
    x: Term,
    dim: nat,
    w: Term,
    b: Term,
    given: Given,
    f: Functions,
    p: int,
    m: int,
    q: int,
)
    requires
        has_roots(f),
        ({
            let vx = value(x, given, f);
            &&& vx.rank == dim + 1
            &&& fits(value(w, given, f).dims, vx.dims)
            &&& fits(value(b, given, f).dims, vx.dims)
            &&& 0 <= p < vx.dims.a
            &&& 0 <= m < vx.dims.b
            &&& 0 <= q < vx.dims.c
            &&& 0 < vx.dims.d
            &&& row_at(value(w, given, f), p, m, q) == constant(vx.dims.d as nat, 1real)
            &&& row_at(value(b, given, f), p, m, q) == constant(vx.dims.d as nat, 0real)
        }),
    ensures
        ({
            let y = row(value(norm_of(x, dim, w, b), given, f), p, m, q);
            &&& average(y) == 0real
            &&& 0real <= mean_square(y) <= 1real
        }),
{
    lemma_norm_value(x, dim, w, b, given, f);
    let own = Norm {
        w: row_at(value(w, given, f), p, m, q),
        b: row_at(value(b, given, f), p, m, q),
    };
    lemma_normed_is_standard(row(value(x, given, f), p, m, q), own, f);
}

} // verus!
