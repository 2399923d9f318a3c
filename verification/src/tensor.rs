//! What tensor operations compute, on real numbers.
//!
//! Tensors have up to four dimensions. One of fewer has leading dimensions of
//! one. Programs run on rounded numbers: what is proved here of real ones holds of
//! them up to rounding.

use vstd::prelude::*;
use crate::graph::Term;
use crate::reals::{average, total};

verus! {

/// A place in a tensor, or its dimensions.
pub ghost struct At {
    pub a: int,
    pub b: int,
    pub c: int,
    pub d: int,
}

/// Real numbers, by their places.
pub ghost struct Tensor {
    pub rank: nat,
    pub dims: At,
    pub at: spec_fn(At) -> real,
}

/// What a term is computed from.
pub ghost struct Given {
    pub input: Tensor,
    pub weights: Seq<Tensor>,
}

/// The functions of one number that operations use. Constants are given by their
/// double-precision bits.
pub ghost struct Functions {
    pub exp: spec_fn(real) -> real,
    pub gelu: spec_fn(real) -> real,
    pub sigmoid: spec_fn(real) -> real,
    pub root: spec_fn(real) -> real,
    pub inverse_root: spec_fn(nat) -> real,
    pub constant: spec_fn(u64) -> real,
}

/// The greater of a number and zero.
pub open spec fn positive_part(x: real) -> real {
    if x > 0real {
        x
    } else {
        0real
    }
}

/// One of four positions.
pub open spec fn get(i: At, p: int) -> int {
    if p == 0 {
        i.a
    } else if p == 1 {
        i.b
    } else if p == 2 {
        i.c
    } else {
        i.d
    }
}

/// One of four positions changed.
pub open spec fn put(i: At, p: int, v: int) -> At {
    if p == 0 {
        At { a: v, ..i }
    } else if p == 1 {
        At { b: v, ..i }
    } else if p == 2 {
        At { c: v, ..i }
    } else {
        At { d: v, ..i }
    }
}

/// The position of a dimension of a tensor.
pub open spec fn position(rank: nat, dim: nat) -> int {
    4 - rank + dim
}

/// A place among dimensions of which those of one stand for any.
pub open spec fn clipped(i: At, dims: At) -> At {
    At {
        a: if dims.a == 1 { 0 } else { i.a },
        b: if dims.b == 1 { 0 } else { i.b },
        c: if dims.c == 1 { 0 } else { i.c },
        d: if dims.d == 1 { 0 } else { i.d },
    }
}

/// Dimensions of values combined one by one.
pub open spec fn merged(x: At, y: At) -> At {
    At {
        a: if x.a == 1 { y.a } else { x.a },
        b: if x.b == 1 { y.b } else { x.b },
        c: if x.c == 1 { y.c } else { x.c },
        d: if x.d == 1 { y.d } else { x.d },
    }
}

/// Values combined one by one.
pub open spec fn combined(x: Tensor, y: Tensor, op: spec_fn(real, real) -> real) -> Tensor {
    Tensor {
        rank: x.rank,
        dims: merged(x.dims, y.dims),
        at: |i: At| op((x.at)(clipped(i, x.dims)), (y.at)(clipped(i, y.dims))),
    }
}

/// Values changed one by one.
pub open spec fn mapped(x: Tensor, op: spec_fn(real) -> real) -> Tensor {
    Tensor { rank: x.rank, dims: x.dims, at: |i: At| op((x.at)(i)) }
}

/// The matrix product over the last two dimensions.
pub open spec fn multiplied(x: Tensor, y: Tensor) -> Tensor {
    Tensor {
        rank: x.rank,
        dims: At { d: y.dims.d, ..x.dims },
        at: |i: At|
            total(
                Seq::new(
                    x.dims.d as nat,
                    |k: int| (x.at)(At { d: k, ..i }) * (y.at)(At { c: k, ..i }),
                ),
            ),
    }
}

/// Two dimensions exchanged.
pub open spec fn exchanged(x: Tensor, i: nat, j: nat) -> Tensor {
    let p = position(x.rank, i);
    let q = position(x.rank, j);
    let turn = |at: At| put(put(at, p, get(at, q)), q, get(at, p));
    Tensor { rank: x.rank, dims: turn(x.dims), at: |at: At| (x.at)(turn(at)) }
}

/// The number of a place among all places, row-major.
pub open spec fn flat(dims: At, i: At) -> int {
    ((i.a * dims.b + i.b) * dims.c + i.c) * dims.d + i.d
}

/// The place with a number.
pub open spec fn unflat(dims: At, n: int) -> At {
    At {
        a: n / dims.d / dims.c / dims.b,
        b: n / dims.d / dims.c % dims.b,
        c: n / dims.d % dims.c,
        d: n % dims.d,
    }
}

/// Dimensions with leading ones.
pub open spec fn padded(dims: Seq<nat>) -> At {
    let n = dims.len() as int;
    At {
        a: if n > 3 { dims[n - 4] as int } else { 1 },
        b: if n > 2 { dims[n - 3] as int } else { 1 },
        c: if n > 1 { dims[n - 2] as int } else { 1 },
        d: if n > 0 { dims[n - 1] as int } else { 1 },
    }
}

/// The same values, row-major, in another shape.
pub open spec fn reshaped(x: Tensor, dims: Seq<nat>) -> Tensor {
    Tensor {
        rank: dims.len(),
        dims: padded(dims),
        at: |i: At| (x.at)(unflat(x.dims, flat(padded(dims), i))),
    }
}

/// A range of one dimension.
pub open spec fn sliced(x: Tensor, dim: nat, start: nat, end: nat) -> Tensor {
    let p = position(x.rank, dim);
    Tensor {
        rank: x.rank,
        dims: put(x.dims, p, end - start),
        at: |i: At| (x.at)(put(i, p, get(i, p) + start)),
    }
}

/// A dimension of one, repeated.
pub open spec fn repeated(x: Tensor, dim: nat, times: nat) -> Tensor {
    let p = position(x.rank, dim);
    Tensor {
        rank: x.rank,
        dims: put(x.dims, p, times as int),
        at: |i: At| (x.at)(put(i, p, 0)),
    }
}

/// A place without one of its positions: those before it move up.
pub open spec fn dropped(i: At, p: int, first: int) -> At {
    At {
        a: first,
        b: if p >= 1 { i.a } else { i.b },
        c: if p >= 2 { i.b } else { i.c },
        d: if p >= 3 { i.c } else { i.d },
    }
}

/// A place with one more position: those up to it move down.
pub open spec fn inserted(i: At, p: int, v: int) -> At {
    At {
        a: if p == 0 { v } else { i.b },
        b: if p < 1 { i.b } else if p == 1 { v } else { i.c },
        c: if p < 2 { i.c } else if p == 2 { v } else { i.d },
        d: if p < 3 { i.d } else { v },
    }
}

/// A new dimension of one.
pub open spec fn unsqueezed(x: Tensor, dim: nat) -> Tensor {
    let p = position(x.rank + 1, dim);
    Tensor {
        rank: x.rank + 1,
        dims: inserted(x.dims, p, 1),
        at: |i: At| (x.at)(dropped(i, p, 0)),
    }
}

/// A dimension of one taken away.
pub open spec fn squeezed(x: Tensor, dim: nat) -> Tensor {
    let p = position(x.rank, dim);
    Tensor {
        rank: (x.rank - 1) as nat,
        dims: dropped(x.dims, p, 1),
        at: |i: At| (x.at)(inserted(i, p, 0)),
    }
}

/// The values along a dimension.
pub open spec fn along(x: Tensor, p: int, i: At) -> Seq<real> {
    Seq::new(get(x.dims, p) as nat, |k: int| (x.at)(put(i, p, k)))
}

/// The mean over a dimension, which becomes one.
pub open spec fn averaged(x: Tensor, dim: nat) -> Tensor {
    let p = position(x.rank, dim);
    Tensor { rank: x.rank, dims: put(x.dims, p, 1), at: |i: At| average(along(x, p, i)) }
}

/// A softmax: exponentials, over their sum.
pub open spec fn softmax_of(x: Seq<real>, f: Functions) -> Seq<real> {
    Seq::new(x.len(), |k: int| (f.exp)(x[k]) / total(x.map_values(f.exp)))
}

/// The softmax over a dimension.
pub open spec fn shared(x: Tensor, dim: nat, f: Functions) -> Tensor {
    let p = position(x.rank, dim);
    Tensor {
        rank: x.rank,
        dims: x.dims,
        at: |i: At| softmax_of(along(x, p, i), f)[get(i, p)],
    }
}

/// What a term computes.
pub open spec fn value(term: Term, given: Given, f: Functions) -> Tensor
    decreases term,
{
    match term {
        Term::Input => given.input,
        Term::Weight(id) => given.weights[id as int],
        Term::MatMul(a, b) => multiplied(value(*a, given, f), value(*b, given, f)),
        Term::Sum(a, b) => combined(
            value(*a, given, f),
            value(*b, given, f),
            |x: real, y: real| x + y,
        ),
        Term::Difference(a, b) => combined(
            value(*a, given, f),
            value(*b, given, f),
            |x: real, y: real| x - y,
        ),
        Term::Product(a, b) => combined(
            value(*a, given, f),
            value(*b, given, f),
            |x: real, y: real| x * y,
        ),
        Term::Quotient(a, b) => combined(
            value(*a, given, f),
            value(*b, given, f),
            |x: real, y: real| x / y,
        ),
        Term::Swap(a, i, j) => exchanged(value(*a, given, f), i, j),
        Term::Reshape(a, dims) => reshaped(value(*a, given, f), dims),
        Term::Slice(a, dim, start, end) => sliced(value(*a, given, f), dim, start, end),
        Term::Repeat(a, dim, times) => repeated(value(*a, given, f), dim, times),
        Term::Unsqueeze(a, dim) => unsqueezed(value(*a, given, f), dim),
        Term::Squeeze(a, dim) => squeezed(value(*a, given, f), dim),
        Term::Mean(a, dim) => averaged(value(*a, given, f), dim),
        Term::Softmax(a, dim) => shared(value(*a, given, f), dim, f),
        Term::Gelu(a) => mapped(value(*a, given, f), f.gelu),
        Term::Relu(a) => mapped(value(*a, given, f), |x: real| positive_part(x)),
        Term::Sigmoid(a) => mapped(value(*a, given, f), f.sigmoid),
        Term::Square(a) => mapped(value(*a, given, f), |x: real| x * x),
        Term::Root(a) => mapped(value(*a, given, f), f.root),
        Term::Plus(a, bits) => mapped(value(*a, given, f), |x: real| x + (f.constant)(bits)),
        Term::Scale(a, by) => mapped(value(*a, given, f), |x: real| x * (f.inverse_root)(by)),
    }
}

/// The numbers along the last dimension.
pub open spec fn row(x: Tensor, a: int, b: int, c: int) -> Seq<real> {
    Seq::new(x.dims.d as nat, |k: int| (x.at)(At { a, b, c, d: k }))
}

/// The rows along the last dimension but one.
pub open spec fn matrix(x: Tensor, a: int, b: int) -> Seq<Seq<real>> {
    Seq::new(x.dims.c as nat, |i: int| row(x, a, b, i))
}

proof fn lemma_split_number(q: int, r: int, d: int)
    requires
        0 <= r < d,
    ensures
        (q * d + r) / d == q,
        (q * d + r) % d == r,
{
    vstd::arithmetic::div_mod::lemma_fundamental_div_mod_converse(q * d + r, d, q, r);
}

/// Places are found again by their numbers.
pub proof fn lemma_unflat(dims: At, i: At)
    requires
        0 <= i.b < dims.b,
        0 <= i.c < dims.c,
        0 <= i.d < dims.d,
    ensures
        unflat(dims, flat(dims, i)) == i,
{
    let x = i.a * dims.b + i.b;
    let y = x * dims.c + i.c;
    lemma_split_number(y, i.d, dims.d);
    lemma_split_number(x, i.c, dims.c);
    lemma_split_number(i.a, i.b, dims.b);
}

/// Reshaping keeps a value whose place has the same number in both shapes.
pub proof fn lemma_reshaped(x: Tensor, dims: Seq<nat>, from: At, to: At)
    requires
        0 <= from.b < x.dims.b,
        0 <= from.c < x.dims.c,
        0 <= from.d < x.dims.d,
        flat(x.dims, from) == flat(padded(dims), to),
    ensures
        (reshaped(x, dims).at)(to) == (x.at)(from),
{
    lemma_unflat(x.dims, from);
}

} // verus!
