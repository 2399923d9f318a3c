//! How the brains of a swarm count in what they make together.

use vstd::prelude::*;
use crate::reals::{
    dot, lemma_total_grows, lemma_total_is_positive, lemma_total_of_multiple,
    lemma_total_of_sum, lemma_total_without_one, plus, products, times, total,
};
use crate::rows::{
    affine, brain_row, brain_rows, column, gate_row, together, weighted, Affine, BrainWeights,
    SwarmWeights,
};
use crate::tensor::{positive_part, softmax_of, Functions};

verus! {

/// Whether exponentials are positive.
pub open spec fn has_positive_exponentials(f: Functions) -> bool {
    forall|v: real| #[trigger] (f.exp)(v) > 0real
}

/// Whether two swarms have the same gate.
pub open spec fn has_gate_of(other: SwarmWeights, m: SwarmWeights) -> bool {
    other.gate1 == m.gate1 && other.gate2 == m.gate2
}

/// Shares are positive and sum to one.
pub proof fn lemma_shares_sum_to_one(x: Seq<real>, f: Functions)
    requires
        has_positive_exponentials(f),
        x.len() > 0,
    ensures
        total(softmax_of(x, f)) == 1real,
        forall|k: int| 0 <= k < x.len() ==> #[trigger] softmax_of(x, f)[k] > 0real,
{
    let exps = x.map_values(f.exp);
    let sum = total(exps);
    assert forall|k: int| 0 <= k < exps.len() implies #[trigger] exps[k] > 0real by {
        assert((f.exp)(x[k]) > 0real);
    }
    lemma_total_is_positive(exps);
    let shares = softmax_of(x, f);
    assert forall|k: int| 0 <= k < x.len() implies #[trigger] shares[k] == exps[k] * (1real / sum)
        && shares[k] > 0real by {
        let e = exps[k];
        assert(e > 0real);
        assert(e / sum == e * (1real / sum) && e / sum > 0real) by (nonlinear_arith)
            requires
                sum > 0real,
                e > 0real,
        ;
    }
    assert(shares =~= times(exps, 1real / sum));
    lemma_total_of_multiple(exps, 1real / sum);
    assert(sum * (1real / sum) == 1real) by (nonlinear_arith)
        requires
            sum > 0real,
    ;
}

/// Equal brains make together what one of them makes.
pub proof fn lemma_together_of_equal_brains(
    x: Seq<Seq<real>>,
    m: SwarmWeights,
    brain: BrainWeights,
    width: nat,
    head_dim: nat,
    f: Functions,
)
    requires
        has_positive_exponentials(f),
        m.brains.len() > 0,
        m.gate2.w.len() == m.brains.len(),
        forall|n: int| 0 <= n < m.brains.len() ==> #[trigger] m.brains[n] == brain,
    ensures
        together(x, m, width, head_dim, f) == brain_row(x, brain, width, head_dim, f),
{
    let gate = gate_row(x.last(), m, f);
    let rows = brain_rows(x, m, width, head_dim, f);
    let own = brain_row(x, brain, width, head_dim, f);
    let hidden = affine(x.last(), m.gate1).map_values(
        |v: real| positive_part(v),
    );
    lemma_shares_sum_to_one(affine(hidden, m.gate2), f);
    assert forall|k: int| 0 <= k < width implies #[trigger] weighted(gate, rows, width)[k]
        == own[k] by {
        assert(products(gate, column(rows, k)) =~= times(gate, own[k])) by {
            assert forall|n: int| 0 <= n < gate.len() implies #[trigger] products(
                gate,
                column(rows, k),
            )[n] == times(gate, own[k])[n] by {
                assert(m.brains[n] == brain);
            }
        }
        lemma_total_of_multiple(gate, own[k]);
    }
    assert(weighted(gate, rows, width) =~= own);
}

/// Brains without a share have no influence.
pub proof fn lemma_together_of_shared(
    x: Seq<Seq<real>>,
    m: SwarmWeights,
    other: SwarmWeights,
    width: nat,
    head_dim: nat,
    f: Functions,
)
    requires
        has_gate_of(other, m),
        m.gate2.w.len() == m.brains.len(),
        other.brains.len() == m.brains.len(),
        forall|n: int|
            0 <= n < m.brains.len() ==> #[trigger] other.brains[n] == m.brains[n] || gate_row(
                x.last(),
                m,
                f,
            )[n] == 0real,
    ensures
        together(x, other, width, head_dim, f) == together(x, m, width, head_dim, f),
{
    let gate = gate_row(x.last(), m, f);
    let rows = brain_rows(x, m, width, head_dim, f);
    let others = brain_rows(x, other, width, head_dim, f);
    assert forall|k: int| 0 <= k < width implies #[trigger] weighted(gate, others, width)[k]
        == weighted(gate, rows, width)[k] by {
        assert(products(gate, column(others, k)) =~= products(gate, column(rows, k))) by {
            assert forall|n: int| 0 <= n < gate.len() implies #[trigger] products(
                gate,
                column(others, k),
            )[n] == products(gate, column(rows, k))[n] by {
                let a = others[n][k];
                let b = rows[n][k];
                if other.brains[n] != m.brains[n] {
                    assert(0real * a == 0real * b) by (nonlinear_arith);
                }
            }
        }
    }
    assert(weighted(gate, others, width) =~= weighted(gate, rows, width));
}

proof fn lemma_dot_differs_little(
    shares: Seq<real>,
    x: Seq<real>,
    y: Seq<real>,
    at: int,
    most: real,
)
    requires
        x.len() == shares.len(),
        y.len() == shares.len(),
        0 <= at < shares.len(),
        x[at] == y[at],
        forall|n: int| 0 <= n < shares.len() ==> #[trigger] shares[n] >= 0real,
        forall|n: int| 0 <= n < x.len() ==> #[trigger] x[n] <= y[n] + most,
    ensures
        dot(shares, x) <= dot(shares, y) + (total(shares) - shares[at]) * most,
{
    let rest = shares.update(at, 0real);
    let bound = times(rest, most);
    assert(rest.remove(at) =~= shares.remove(at));
    lemma_total_without_one(shares, at);
    lemma_total_without_one(rest, at);
    lemma_total_of_multiple(rest, most);
    lemma_total_of_sum(products(shares, y), bound);
    let upper = plus(products(shares, y), bound);
    assert forall|n: int| 0 <= n < shares.len() implies #[trigger] products(shares, x)[n]
        <= upper[n] by {
        let s = shares[n];
        let a = x[n];
        let b = y[n];
        if n == at {
            assert(0real * most == 0real) by (nonlinear_arith);
        } else {
            assert(s * a <= s * b + s * most) by (nonlinear_arith)
                requires
                    s >= 0real,
                    a <= b + most,
            ;
        }
    }
    lemma_total_grows(products(shares, x), upper);
}

/// Brains count by their shares: where all but one are exchanged for others whose
/// rows differ by so much at most, the result differs by no more than that, times
/// what the shares of all but the one amount to.
pub proof fn lemma_together_of_exchanged(
    x: Seq<Seq<real>>,
    m: SwarmWeights,
    other: SwarmWeights,
    one: int,
    most: real,
    width: nat,
    head_dim: nat,
    f: Functions,
)
    requires
        has_positive_exponentials(f),
        has_gate_of(other, m),
        m.gate2.w.len() == m.brains.len(),
        other.brains.len() == m.brains.len(),
        0 <= one < m.brains.len(),
        other.brains[one] == m.brains[one],
        forall|n: int, k: int|
            0 <= n < m.brains.len() && 0 <= k < width ==> -most <= #[trigger] brain_rows(
                x,
                other,
                width,
                head_dim,
                f,
            )[n][k] - brain_rows(x, m, width, head_dim, f)[n][k] <= most,
    ensures
        forall|k: int|
            0 <= k < width ==> {
                let rest = 1real - gate_row(x.last(), m, f)[one];
                -(rest * most) <= #[trigger] together(x, other, width, head_dim, f)[k] - together(
                    x,
                    m,
                    width,
                    head_dim,
                    f,
                )[k] <= rest * most
            },
{
    let gate = gate_row(x.last(), m, f);
    let rows = brain_rows(x, m, width, head_dim, f);
    let others = brain_rows(x, other, width, head_dim, f);
    let hidden = affine(x.last(), m.gate1).map_values(
        |v: real| positive_part(v),
    );
    lemma_shares_sum_to_one(affine(hidden, m.gate2), f);
    assert forall|k: int| 0 <= k < width implies {
        let rest = 1real - gate[one];
        -(rest * most) <= #[trigger] together(x, other, width, head_dim, f)[k] - together(
            x,
            m,
            width,
            head_dim,
            f,
        )[k] <= rest * most
    } by {
        let a = column(others, k);
        let b = column(rows, k);
        assert forall|n: int| 0 <= n < a.len() implies #[trigger] a[n] <= b[n] + most by {
            assert(others[n][k] - rows[n][k] <= most);
        }
        assert forall|n: int| 0 <= n < b.len() implies #[trigger] b[n] <= a[n] + most by {
            assert(-most <= others[n][k] - rows[n][k]);
        }
        lemma_dot_differs_little(gate, a, b, one, most);
        lemma_dot_differs_little(gate, b, a, one, most);
    }
}

/// What is added to the biases is added to the result.
pub proof fn lemma_affine_of_more(x: Seq<real>, m: Affine, more: Seq<real>)
    requires
        m.b.len() == m.w.len(),
    ensures
        affine(x, (Affine { w: m.w, b: plus(m.b, more) })) == plus(affine(x, m), more),
{
    assert(affine(x, Affine { w: m.w, b: plus(m.b, more) }) =~= plus(affine(x, m), more));
}

} // verus!
