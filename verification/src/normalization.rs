//! What normalization does to a row, and what is left of a layer without its
//! sub-layers.

use vstd::prelude::*;
use crate::ieee::DOUBLE_EPSILON;
use crate::reals::{
    average, constant, dot, lemma_total_is_not_negative, lemma_total_of_constant,
    lemma_total_of_multiple, lemma_total_of_sum, plus, products, times, total,
};
use crate::rows::{
    affine, affine_rows, attention_rows, centered, fed_rows, layer_rows, mean_square, mixed_rows,
    normed, normed_rows, plus_rows, spread, Affine, LayerWeights, Norm,
};
use crate::tensor::Functions;

verus! {

/// A row with one number added throughout.
pub open spec fn shifted(x: Seq<real>, by: real) -> Seq<real> {
    Seq::new(x.len(), |k: int| x[k] + by)
}

/// Whether roots are roots, and the constant that keeps them from zero is
/// positive.
pub open spec fn has_roots(f: Functions) -> bool {
    &&& (f.constant)(DOUBLE_EPSILON) > 0real
    &&& forall|z: real|
        z > 0real ==> #[trigger] (f.root)(z) > 0real && (f.root)(z) * (f.root)(z) == z
}

/// Whether a linear map of a size has zero weights and biases.
pub open spec fn is_zero(m: Affine, inputs: nat, outputs: nat) -> bool {
    &&& m.w.len() == outputs
    &&& m.b.len() == outputs
    &&& forall|o: int| 0 <= o < outputs ==> #[trigger] m.w[o] == constant(inputs, 0real)
    &&& forall|o: int| 0 <= o < outputs ==> #[trigger] m.b[o] == 0real
}

/// A shift of a row by one number leaves its distances from the mean.
pub proof fn lemma_centered_of_shifted(x: Seq<real>, by: real)
    ensures
        centered(shifted(x, by)) == centered(x),
{
    let y = shifted(x, by);
    if x.len() > 0 {
        let n = x.len() as real;
        assert(y =~= plus(x, constant(x.len(), by)));
        lemma_total_of_sum(x, constant(x.len(), by));
        lemma_total_of_constant(x.len(), by);
        let t = total(x);
        assert((t + n * by) / n == t / n + by) by (nonlinear_arith)
            requires
                n > 0real,
        ;
    }
    assert(centered(y) =~= centered(x));
}

/// A shift of a row by one number leaves its normalization.
pub proof fn lemma_normed_of_shifted(x: Seq<real>, by: real, m: Norm, f: Functions)
    ensures
        normed(shifted(x, by), m, f) == normed(x, m, f),
{
    lemma_centered_of_shifted(x, by);
    assert(normed(shifted(x, by), m, f) =~= normed(x, m, f));
}

proof fn lemma_centered_sums_to_zero(x: Seq<real>)
    requires
        x.len() > 0,
    ensures
        total(centered(x)) == 0real,
{
    let n = x.len() as real;
    let mean = average(x);
    assert(centered(x) =~= plus(x, constant(x.len(), -mean)));
    lemma_total_of_sum(x, constant(x.len(), -mean));
    lemma_total_of_constant(x.len(), -mean);
    let t = total(x);
    assert(t + n * (-(t / n)) == 0real) by (nonlinear_arith)
        requires
            n > 0real,
    ;
}

/// Without scale and shift, a normalized row has mean zero, and its mean square
/// is at most one.
pub proof fn lemma_normed_is_standard(x: Seq<real>, m: Norm, f: Functions)
    requires
        has_roots(f),
        x.len() > 0,
        m.w == constant(x.len(), 1real),
        m.b == constant(x.len(), 0real),
    ensures
        average(normed(x, m, f)) == 0real,
        0real <= mean_square(normed(x, m, f)) <= 1real,
{
    let n = x.len() as real;
    let c = centered(x);
    let y = normed(x, m, f);
    let s = spread(x, f);
    let squares = c.map_values(|v: real| v * v);
    let v = mean_square(c);
    let eps = (f.constant)(DOUBLE_EPSILON);
    assert forall|k: int| 0 <= k < squares.len() implies #[trigger] squares[k] >= 0real by {
        let z = c[k];
        assert(z * z >= 0real) by (nonlinear_arith);
    }
    lemma_total_is_not_negative(squares);
    let t = total(squares);
    assert(t / n >= 0real) by (nonlinear_arith)
        requires
            t >= 0real,
            n > 0real,
    ;
    assert(v + eps > 0real);
    assert(s > 0real && s * s == v + eps);
    let by = 1real / s;
    assert forall|k: int| 0 <= k < x.len() implies #[trigger] y[k] == c[k] * by by {
        let z = c[k];
        assert(z / s * 1real + 0real == z * (1real / s)) by (nonlinear_arith)
            requires
                s > 0real,
        ;
    }
    assert(y =~= times(c, by));
    lemma_total_of_multiple(c, by);
    lemma_centered_sums_to_zero(x);
    assert(0real * by == 0real) by (nonlinear_arith);
    assert(0real / n == 0real) by (nonlinear_arith)
        requires
            n > 0real,
    ;
    let more = y.map_values(|v: real| v * v);
    let square = by * by;
    assert forall|k: int| 0 <= k < more.len() implies #[trigger] more[k] == squares[k] * square by {
        let z = c[k];
        assert(y[k] == z * by);
        assert((z * by) * (z * by) == z * z * (by * by)) by (nonlinear_arith);
    }
    assert(more =~= times(squares, square));
    lemma_total_of_multiple(squares, square);
    assert(square * (v + eps) == 1real) by (nonlinear_arith)
        requires
            s > 0real,
            s * s == v + eps,
            by == 1real / s,
            square == by * by,
    ;
    assert(t * square / n == t / n * square) by (nonlinear_arith)
        requires
            n > 0real,
    ;
    assert(square >= 0real) by (nonlinear_arith)
        requires
            square == by * by,
    ;
    assert(0real <= v * square <= 1real) by (nonlinear_arith)
        requires
            v >= 0real,
            eps > 0real,
            square >= 0real,
            square * (v + eps) == 1real,
    ;
}

/// A linear map of zeros gives zeros.
pub proof fn lemma_affine_of_zero(x: Seq<real>, m: Affine, outputs: nat)
    requires
        is_zero(m, x.len(), outputs),
    ensures
        affine(x, m) == constant(outputs, 0real),
{
    assert forall|o: int| 0 <= o < outputs implies #[trigger] affine(x, m)[o] == 0real by {
        assert(m.w[o] == constant(x.len(), 0real));
        assert(m.b[o] == 0real);
        assert(products(x, m.w[o]) =~= times(x, 0real));
        lemma_total_of_multiple(x, 0real);
        let t = total(x);
        assert(t * 0real == 0real) by (nonlinear_arith);
        assert(dot(x, m.w[o]) == 0real);
    }
    assert(affine(x, m) =~= constant(outputs, 0real));
}

/// A layer whose sub-layers give nothing but zeros is its two normalizations, one
/// after the other.
pub proof fn lemma_layer_of_nothing(
    x: Seq<Seq<real>>,
    m: LayerWeights,
    width: nat,
    head_dim: nat,
    f: Functions,
)
    requires
        forall|t: int| 0 <= t < x.len() ==> (#[trigger] x[t]).len() == width,
        is_zero(m.out, width, width),
        is_zero(m.ffn2, m.ffn1.w.len(), width),
    ensures
        layer_rows(x, m, width, head_dim, f) == normed_rows(
            normed_rows(x, m.norm1, f),
            m.norm2,
            f,
        ),
{
    let attended = attention_rows(affine_rows(x, m.joint), width, head_dim, f);
    let projected = affine_rows(attended, m.out);
    assert(plus_rows(x, projected) =~= x) by {
        assert forall|t: int| 0 <= t < x.len() implies #[trigger] plus_rows(x, projected)[t]
            == x[t] by {
            assert(x[t].len() == width);
            lemma_affine_of_zero(attended[t], m.out, width);
            assert(plus(x[t], constant(width, 0real)) =~= x[t]);
        }
    }
    let mixed = mixed_rows(x, m, width, head_dim, f);
    assert(mixed == normed_rows(x, m.norm1, f));
    let result = normed_rows(mixed, m.norm2, f);
    assert forall|t: int| 0 <= t < x.len() implies #[trigger] fed_rows(mixed, m, f)[t]
        == result[t] by {
        let row = mixed[t];
        assert(x[t].len() == width);
        lemma_affine_of_zero(affine(row, m.ffn1).map_values(f.gelu), m.ffn2, width);
        assert(plus(row, constant(width, 0real)) =~= row);
    }
    assert(fed_rows(mixed, m, f) =~= result);
}

} // verus!
