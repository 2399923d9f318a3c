//! The model's forward passes: their formulas, and programs that compute them.

use vstd::prelude::*;
use crate::graph::{extends, naturals, Op, Program, Term};
use crate::ieee::DOUBLE_EPSILON;
use crate::model::AttentionPlan;

verus! {

/// A matrix product.
pub open spec fn matmul(a: Term, b: Term) -> Term {
    Term::MatMul(Box::new(a), Box::new(b))
}

/// A sum.
pub open spec fn sum(a: Term, b: Term) -> Term {
    Term::Sum(Box::new(a), Box::new(b))
}

/// Two dimensions exchanged.
pub open spec fn swap(a: Term, i: nat, j: nat) -> Term {
    Term::Swap(Box::new(a), i, j)
}

/// Another shape.
pub open spec fn reshape(a: Term, dims: Seq<nat>) -> Term {
    Term::Reshape(Box::new(a), dims)
}

/// A range of one dimension.
pub open spec fn slice(a: Term, dim: nat, start: nat, end: nat) -> Term {
    Term::Slice(Box::new(a), dim, start, end)
}

/// A new dimension of one.
pub open spec fn unsqueeze(a: Term, dim: nat) -> Term {
    Term::Unsqueeze(Box::new(a), dim)
}

/// A dimension of one taken away.
pub open spec fn squeeze(a: Term, dim: nat) -> Term {
    Term::Squeeze(Box::new(a), dim)
}

/// The mean over a dimension.
pub open spec fn mean(a: Term, dim: nat) -> Term {
    Term::Mean(Box::new(a), dim)
}

/// The softmax over a dimension.
pub open spec fn softmax(a: Term, dim: nat) -> Term {
    Term::Softmax(Box::new(a), dim)
}

/// One linear map for each brain: rows times the transposed weights, plus the
/// biases.
pub open spec fn linear_of(x: Term, w: Term, b: Term) -> Term {
    sum(matmul(x, swap(w, 1, 2)), unsqueeze(b, 1))
}

/// One linear map: rows times the transposed weights, plus the biases.
pub open spec fn dense_of(x: Term, w: Term, b: Term) -> Term {
    sum(matmul(x, swap(w, 0, 1)), unsqueeze(b, 0))
}

/// Distances from the mean over a dimension.
pub open spec fn centered(x: Term, dim: nat) -> Term {
    Term::Difference(Box::new(x), Box::new(mean(x, dim)))
}

/// Values with mean zero and deviation one over a dimension: distances from
/// the mean, over the root of their mean square plus ten to the minus five.
pub open spec fn standardized(x: Term, dim: nat) -> Term {
    let square = mean(Term::Square(Box::new(centered(x, dim))), dim);
    Term::Quotient(
        Box::new(centered(x, dim)),
        Box::new(Term::Root(Box::new(Term::Plus(Box::new(square), DOUBLE_EPSILON)))),
    )
}

/// Standardized values, scaled and shifted.
pub open spec fn norm_of(x: Term, dim: nat, w: Term, b: Term) -> Term {
    sum(Term::Product(Box::new(standardized(x, dim)), Box::new(w)), b)
}

/// The feed-forward block.
pub open spec fn block_of(x: Term, w1: Term, b1: Term, w2: Term, b2: Term) -> Term {
    linear_of(Term::Gelu(Box::new(linear_of(x, w1, b1))), w2, b2)
}

/// Rows split by head, the heads folded into the leading dimension.
pub open spec fn heads_of(x: Term, split: Seq<nat>, folded: Seq<nat>) -> Term {
    reshape(swap(reshape(x, split), 1, 2), folded)
}

/// Attention of one set of heads: values weighted by the softmax of the
/// products of queries and keys, over the root of the head's dimension.
pub open spec fn attended(q: Term, k: Term, v: Term, head_dim: nat) -> Term {
    matmul(softmax(Term::Scale(Box::new(matmul(q, swap(k, 1, 2))), head_dim), 2), v)
}

/// Attention over a joint projection of so many groups of rows: queries, keys
/// and values stand side by side along an axis, and each is divided among the
/// heads.
pub open spec fn attention_of(
    joint: Term,
    axis: nat,
    groups: nat,
    rows: nat,
    width: nat,
    heads: nat,
    out: Seq<nat>,
) -> Term {
    let head_dim = width / heads;
    let split = seq![groups, rows, heads, head_dim];
    let folded = seq![groups * heads, rows, head_dim];
    let q = slice(joint, axis, 0, width);
    let k = slice(joint, axis, width, 2 * width);
    let v = slice(joint, axis, 2 * width, 3 * width);
    let mixed = attended(
        heads_of(q, split, folded),
        heads_of(k, split, folded),
        heads_of(v, split, folded),
        head_dim,
    );
    reshape(swap(reshape(mixed, seq![groups, heads, rows, head_dim]), 1, 2), out)
}

/// Whether a program was extended so that a place computes a term.
pub open spec fn has_added(before: Seq<Term>, after: Program, place: usize, term: Term) -> bool {
    &&& after.wf()
    &&& extends(after.terms(), before)
    &&& place < after.terms().len()
    &&& after.terms()[place as int] == term
}

/// Adds a linear map for each brain.
pub fn linear(p: &mut Program, x: usize, w: usize, b: usize) -> (place: usize)
    requires
        old(p).wf(),
        x < old(p).terms().len(),
        w < old(p).terms().len(),
        b < old(p).terms().len(),
    ensures
        has_added(
            old(p).terms(),
            *final(p),
            place,
            linear_of(
                old(p).terms()[x as int],
                old(p).terms()[w as int],
                old(p).terms()[b as int],
            ),
        ),
{
    let turned: usize = p.emit(Op::Swap { a: w, i: 1, j: 2 });
    let rows: usize = p.emit(Op::MatMul { a: x, b: turned });
    let bias: usize = p.emit(Op::Unsqueeze { a: b, dim: 1 });
    p.emit(Op::Sum { a: rows, b: bias })
}

/// Adds a linear map.
pub fn dense(p: &mut Program, x: usize, w: usize, b: usize) -> (place: usize)
    requires
        old(p).wf(),
        x < old(p).terms().len(),
        w < old(p).terms().len(),
        b < old(p).terms().len(),
    ensures
        has_added(
            old(p).terms(),
            *final(p),
            place,
            dense_of(old(p).terms()[x as int], old(p).terms()[w as int], old(p).terms()[b as int]),
        ),
{
    let turned: usize = p.emit(Op::Swap { a: w, i: 0, j: 1 });
    let rows: usize = p.emit(Op::MatMul { a: x, b: turned });
    let bias: usize = p.emit(Op::Unsqueeze { a: b, dim: 0 });
    p.emit(Op::Sum { a: rows, b: bias })
}

/// Adds a normalization over a dimension.
pub fn norm(p: &mut Program, x: usize, dim: usize, w: usize, b: usize) -> (place: usize)
    requires
        old(p).wf(),
        x < old(p).terms().len(),
        w < old(p).terms().len(),
        b < old(p).terms().len(),
    ensures
        has_added(
            old(p).terms(),
            *final(p),
            place,
            norm_of(
                old(p).terms()[x as int],
                dim as nat,
                old(p).terms()[w as int],
                old(p).terms()[b as int],
            ),
        ),
{
    let center: usize = p.emit(Op::Mean { a: x, dim });
    let distance: usize = p.emit(Op::Difference { a: x, b: center });
    let square: usize = p.emit(Op::Square { a: distance });
    let variance: usize = p.emit(Op::Mean { a: square, dim });
    let enough: usize = p.emit(Op::Plus { a: variance, constant: DOUBLE_EPSILON });
    let deviation: usize = p.emit(Op::Root { a: enough });
    let standard: usize = p.emit(Op::Quotient { a: distance, b: deviation });
    let scaled: usize = p.emit(Op::Product { a: standard, b: w });
    p.emit(Op::Sum { a: scaled, b })
}

/// Adds a feed-forward block.
pub fn block(
    p: &mut Program,
    x: usize,
    w1: usize,
    b1: usize,
    w2: usize,
    b2: usize,
) -> (place: usize)
    requires
        old(p).wf(),
        x < old(p).terms().len(),
        w1 < old(p).terms().len(),
        b1 < old(p).terms().len(),
        w2 < old(p).terms().len(),
        b2 < old(p).terms().len(),
    ensures
        has_added(
            old(p).terms(),
            *final(p),
            place,
            block_of(
                old(p).terms()[x as int],
                old(p).terms()[w1 as int],
                old(p).terms()[b1 as int],
                old(p).terms()[w2 as int],
                old(p).terms()[b2 as int],
            ),
        ),
{
    let inner: usize = linear(p, x, w1, b1);
    let active: usize = p.emit(Op::Gelu { a: inner });
    linear(p, active, w2, b2)
}

fn copied(dims: &[usize]) -> (copy: Vec<usize>)
    ensures
        copy@ == dims@,
{
    let mut copy: Vec<usize> = Vec::new();
    let mut i: usize = 0;
    while i < dims.len()
        invariant
            i <= dims@.len(),
            copy@ == dims@.take(i as int),
        decreases dims@.len() - i,
    {
        copy.push(dims[i]);
        assert(copy@ =~= dims@.take(i + 1));
        i = i + 1;
    }
    assert(dims@.take(dims@.len() as int) =~= dims@);
    copy
}

fn heads(
    p: &mut Program,
    joint: usize,
    axis: usize,
    range: (usize, usize),
    plan: &AttentionPlan,
) -> (place: usize)
    requires
        old(p).wf(),
        joint < old(p).terms().len(),
    ensures
        has_added(
            old(p).terms(),
            *final(p),
            place,
            heads_of(
                slice(
                    old(p).terms()[joint as int],
                    axis as nat,
                    range.0 as nat,
                    range.1 as nat,
                ),
                naturals(plan.split@),
                naturals(plan.folded@),
            ),
        ),
{
    let part: usize = p.emit(Op::Slice { a: joint, dim: axis, start: range.0, end: range.1 });
    let split: usize = p.emit(Op::Reshape { a: part, dims: copied(&plan.split) });
    let turned: usize = p.emit(Op::Swap { a: split, i: 1, j: 2 });
    p.emit(Op::Reshape { a: turned, dims: copied(&plan.folded) })
}

/// Adds attention over a joint projection.
pub fn attention(
    p: &mut Program,
    joint: usize,
    axis: usize,
    plan: &AttentionPlan,
    out: Vec<usize>,
) -> (place: usize)
    requires
        old(p).wf(),
        joint < old(p).terms().len(),
        plan.wf(),
    ensures
        has_added(
            old(p).terms(),
            *final(p),
            place,
            attention_of(
                old(p).terms()[joint as int],
                axis as nat,
                plan.split@[0] as nat,
                plan.split@[1] as nat,
                plan.queries.1 as nat,
                plan.split@[2] as nat,
                naturals(out@),
            ),
        ),
{
    proof {
        let groups = plan.split@[0] as nat;
        let rows = plan.split@[1] as nat;
        let heads = plan.split@[2] as nat;
        let head_dim = plan.head_dim as nat;
        assert(naturals(plan.split@) =~= seq![groups, rows, heads, head_dim]);
        assert(naturals(plan.folded@) =~= seq![groups * heads, rows, head_dim]);
        assert(naturals(plan.unfolded@) =~= seq![groups, heads, rows, head_dim]);
    }
    let q: usize = heads(p, joint, axis, plan.queries, plan);
    let k: usize = heads(p, joint, axis, plan.keys, plan);
    let v: usize = heads(p, joint, axis, plan.values, plan);
    let turned: usize = p.emit(Op::Swap { a: k, i: 1, j: 2 });
    let products: usize = p.emit(Op::MatMul { a: q, b: turned });
    let scores: usize = p.emit(Op::Scale { a: products, by: plan.head_dim });
    let weights: usize = p.emit(Op::Softmax { a: scores, dim: 2 });
    let mixed: usize = p.emit(Op::MatMul { a: weights, b: v });
    let unfolded: usize = p.emit(Op::Reshape { a: mixed, dims: copied(&plan.unfolded) });
    let rows: usize = p.emit(Op::Swap { a: unfolded, i: 1, j: 2 });
    p.emit(Op::Reshape { a: rows, dims: out })
}

} // verus!
