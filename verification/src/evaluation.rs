//! What the building blocks of the forward passes compute, row by row.

use vstd::prelude::*;
use crate::forward;
use crate::forward::{block_of, dense_of, linear_of, norm_of};
use crate::graph::Term;
use crate::ieee::DOUBLE_EPSILON;
use crate::reals::{plus, products, total};
use crate::rows::{affine, centered, normed, spread, Affine, Norm};
use crate::tensor::{
    along, averaged, clipped, combined, exchanged, mapped, matrix, multiplied, row, shared,
    softmax_of, unsqueezed, value, At, Functions, Given, Tensor,
};

verus! {

/// Whether a tensor has a rank and dimensions.
pub open spec fn is_sized(x: Tensor, rank: nat, a: int, b: int, c: int, d: int) -> bool {
    x.rank == rank && x.dims == (At { a, b, c, d })
}

/// A linear map of each brain, of its rows.
pub proof fn lemma_linear_value(
    x: Term,
    w: Term,
    b: Term,
    given: Given,
    f: Functions,
    n: int,
    r: int,
    k: int,
    o: int,
)
    requires
        is_sized(value(x, given, f), 3, 1, n, r, k),
        is_sized(value(w, given, f), 3, 1, n, o, k),
        is_sized(value(b, given, f), 2, 1, 1, n, o),
        k >= 0,
        o >= 0,
    ensures
        ({
            let y = value(linear_of(x, w, b), given, f);
            &&& is_sized(y, 3, 1, n, r, o)
            &&& forall|m: int, q: int|
                0 <= m < n && 0 <= q < r ==> #[trigger] row(y, 0, m, q) == affine(
                    row(value(x, given, f), 0, m, q),
                    (Affine {
                        w: matrix(value(w, given, f), 0, m),
                        b: row(value(b, given, f), 0, 0, m),
                    }),
                )
        }),
{
    let vx = value(x, given, f);
    let vw = value(w, given, f);
    let vb = value(b, given, f);
    let turned = exchanged(vw, 1, 2);
    let product = multiplied(vx, turned);
    let bias = unsqueezed(vb, 1);
    let y = combined(product, bias, |x: real, y: real| x + y);
    reveal_with_fuel(value, 4);
    assert(value(linear_of(x, w, b), given, f) == y);
    assert(is_sized(turned, 3, 1, n, k, o));
    assert(is_sized(product, 3, 1, n, r, o));
    assert(is_sized(bias, 3, 1, n, 1, o));
    assert(is_sized(y, 3, 1, n, r, o));
    assert forall|m: int, q: int| 0 <= m < n && 0 <= q < r implies #[trigger] row(y, 0, m, q)
        == affine(row(vx, 0, m, q), (Affine { w: matrix(vw, 0, m), b: row(vb, 0, 0, m) })) by {
        let map = Affine { w: matrix(vw, 0, m), b: row(vb, 0, 0, m) };
        let own = row(vx, 0, m, q);
        assert forall|j: int| 0 <= j < o implies row(y, 0, m, q)[j] == #[trigger] affine(
            own,
            map,
        )[j] by {
            let i = At { a: 0, b: m, c: q, d: j };
            assert(clipped(i, product.dims) == i);
            let terms = Seq::new(
                vx.dims.d as nat,
                |l: int| (vx.at)(At { d: l, ..i }) * (turned.at)(At { c: l, ..i }),
            );
            assert(terms =~= products(own, map.w[j])) by {
                assert forall|l: int| 0 <= l < k implies terms[l] == own[l] * map.w[j][l] by {
                    assert((turned.at)(At { c: l, ..i }) == (vw.at)(At { a: 0, b: m, c: j, d: l }));
                }
            }
            assert((product.at)(i) == total(terms));
            assert((bias.at)(clipped(i, bias.dims)) == (vb.at)(At { a: 0, b: 0, c: m, d: j }));
        }
        assert(row(y, 0, m, q) =~= affine(own, map));
    }
}

/// One linear map of rows.
pub proof fn lemma_dense_value(
    x: Term,
    w: Term,
    b: Term,
    given: Given,
    f: Functions,
    r: int,
    k: int,
    o: int,
)
    requires
        is_sized(value(x, given, f), 2, 1, 1, r, k),
        is_sized(value(w, given, f), 2, 1, 1, o, k),
        is_sized(value(b, given, f), 1, 1, 1, 1, o),
        k >= 0,
        o >= 0,
    ensures
        ({
            let y = value(dense_of(x, w, b), given, f);
            &&& is_sized(y, 2, 1, 1, r, o)
            &&& forall|q: int|
                0 <= q < r ==> #[trigger] row(y, 0, 0, q) == affine(
                    row(value(x, given, f), 0, 0, q),
                    (Affine {
                        w: matrix(value(w, given, f), 0, 0),
                        b: row(value(b, given, f), 0, 0, 0),
                    }),
                )
        }),
{
    let vx = value(x, given, f);
    let vw = value(w, given, f);
    let vb = value(b, given, f);
    let turned = exchanged(vw, 0, 1);
    let product = multiplied(vx, turned);
    let bias = unsqueezed(vb, 0);
    let y = combined(product, bias, |x: real, y: real| x + y);
    reveal_with_fuel(value, 4);
    assert(value(dense_of(x, w, b), given, f) == y);
    assert(is_sized(turned, 2, 1, 1, k, o));
    assert(is_sized(product, 2, 1, 1, r, o));
    assert(is_sized(bias, 2, 1, 1, 1, o));
    assert(is_sized(y, 2, 1, 1, r, o));
    assert forall|q: int| 0 <= q < r implies #[trigger] row(y, 0, 0, q) == affine(
        row(vx, 0, 0, q),
        (Affine { w: matrix(vw, 0, 0), b: row(vb, 0, 0, 0) }),
    ) by {
        let map = Affine { w: matrix(vw, 0, 0), b: row(vb, 0, 0, 0) };
        let own = row(vx, 0, 0, q);
        assert forall|j: int| 0 <= j < o implies row(y, 0, 0, q)[j] == #[trigger] affine(
            own,
            map,
        )[j] by {
            let i = At { a: 0, b: 0, c: q, d: j };
            assert(clipped(i, product.dims) == i);
            let terms = Seq::new(
                vx.dims.d as nat,
                |l: int| (vx.at)(At { d: l, ..i }) * (turned.at)(At { c: l, ..i }),
            );
            assert(terms =~= products(own, map.w[j])) by {
                assert forall|l: int| 0 <= l < k implies terms[l] == own[l] * map.w[j][l] by {
                    assert((turned.at)(At { c: l, ..i }) == (vw.at)(At { a: 0, b: 0, c: j, d: l }));
                }
            }
            assert((product.at)(i) == total(terms));
            assert((bias.at)(clipped(i, bias.dims)) == (vb.at)(At { a: 0, b: 0, c: 0, d: j }));
        }
        assert(row(y, 0, 0, q) =~= affine(own, map));
    }
}

/// Whether dimensions are those of a tensor, or one in their place.
pub open spec fn fits(own: At, dims: At) -> bool {
    &&& own.a == dims.a || own.a == 1
    &&& own.b == dims.b || own.b == 1
    &&& own.c == dims.c || own.c == 1
    &&& own.d == dims.d
}

/// The row of a tensor that counts at a place of a larger one.
pub open spec fn row_at(x: Tensor, a: int, b: int, c: int) -> Seq<real> {
    let i = clipped(At { a, b, c, d: 0 }, x.dims);
    row(x, i.a, i.b, i.c)
}

/// A normalization over the last dimension, of every row.
pub proof fn lemma_norm_value(x: Term, dim: nat, w: Term, b: Term, given: Given, f: Functions)
    requires
        ({
            let vx = value(x, given, f);
            let vw = value(w, given, f);
            let vb = value(b, given, f);
            &&& vx.rank == dim + 1
            &&& fits(vw.dims, vx.dims)
            &&& fits(vb.dims, vx.dims)
            &&& vx.dims.d >= 0
        }),
    ensures
        ({
            let vx = value(x, given, f);
            let y = value(norm_of(x, dim, w, b), given, f);
            &&& y.rank == vx.rank
            &&& y.dims == vx.dims
            &&& forall|p: int, m: int, q: int|
                0 <= p < vx.dims.a && 0 <= m < vx.dims.b && 0 <= q < vx.dims.c
                    ==> #[trigger] row(y, p, m, q) == normed(
                    row(vx, p, m, q),
                    (Norm {
                        w: row_at(value(w, given, f), p, m, q),
                        b: row_at(value(b, given, f), p, m, q),
                    }),
                    f,
                )
        }),
{
    let vx = value(x, given, f);
    let vw = value(w, given, f);
    let vb = value(b, given, f);
    let center = averaged(vx, dim);
    let distance = combined(vx, center, |x: real, y: real| x - y);
    let square = mapped(distance, |x: real| x * x);
    let variance = averaged(square, dim);
    let enough = mapped(variance, |x: real| x + (f.constant)(DOUBLE_EPSILON));
    let deviation = mapped(enough, f.root);
    let standard = combined(distance, deviation, |x: real, y: real| x / y);
    let scaled = combined(standard, vw, |x: real, y: real| x * y);
    let y = combined(scaled, vb, |x: real, y: real| x + y);
    assert(value(norm_of(x, dim, w, b), given, f) == y) by {
        lemma_norm_unfolds(x, dim, w, b, given, f);
    }
    assert(distance.dims == vx.dims);
    assert(standard.dims == vx.dims);
    assert(scaled.dims == vx.dims);
    assert(y.dims == vx.dims);
    assert forall|p: int, m: int, q: int|
        0 <= p < vx.dims.a && 0 <= m < vx.dims.b && 0 <= q < vx.dims.c implies #[trigger] row(
        y,
        p,
        m,
        q,
    ) == normed(
        row(vx, p, m, q),
        (Norm { w: row_at(vw, p, m, q), b: row_at(vb, p, m, q) }),
        f,
    ) by {
        let own = row(vx, p, m, q);
        let n = Norm { w: row_at(vw, p, m, q), b: row_at(vb, p, m, q) };
        let d = vx.dims.d;
        assert forall|j: int| 0 <= j < d implies (#[trigger] (distance.at)(
            At { a: p, b: m, c: q, d: j },
        )) == centered(own)[j] by {
            let i = At { a: p, b: m, c: q, d: j };
            assert(clipped(i, vx.dims) == i);
            let z = clipped(i, center.dims);
            assert(z == At { a: p, b: m, c: q, d: 0 });
            assert(along(vx, 3, z) =~= own);
        }
        assert forall|j: int| 0 <= j < d implies row(y, p, m, q)[j] == #[trigger] normed(
            own,
            n,
            f,
        )[j] by {
            let i = At { a: p, b: m, c: q, d: j };
            assert(clipped(i, vx.dims) == i);
            let z = clipped(i, deviation.dims);
            assert(z == At { a: p, b: m, c: q, d: 0 });
            assert(along(square, 3, z) =~= centered(own).map_values(|v: real| v * v));
            assert((deviation.at)(z) == spread(own, f));
            assert((standard.at)(i) == centered(own)[j] / spread(own, f));
            assert((vw.at)(clipped(i, vw.dims)) == n.w[j]);
            assert((vb.at)(clipped(i, vb.dims)) == n.b[j]);
        }
        assert(row(y, p, m, q) =~= normed(own, n, f));
    }
}

proof fn lemma_norm_unfolds(x: Term, dim: nat, w: Term, b: Term, given: Given, f: Functions)
    ensures
        ({
            let vx = value(x, given, f);
            let center = averaged(vx, dim);
            let distance = combined(vx, center, |x: real, y: real| x - y);
            let square = mapped(distance, |x: real| x * x);
            let variance = averaged(square, dim);
            let enough = mapped(variance, |x: real| x + (f.constant)(DOUBLE_EPSILON));
            let deviation = mapped(enough, f.root);
            let standard = combined(distance, deviation, |x: real, y: real| x / y);
            let scaled = combined(standard, value(w, given, f), |x: real, y: real| x * y);
            value(norm_of(x, dim, w, b), given, f) == combined(
                scaled,
                value(b, given, f),
                |x: real, y: real| x + y,
            )
        }),
{
    reveal_with_fuel(value, 10);
}

/// A sum of tensors of the same dimensions, of every row.
pub proof fn lemma_sum_value(x: Term, y: Term, given: Given, f: Functions)
    requires
        value(x, given, f).dims == value(y, given, f).dims,
    ensures
        ({
            let vx = value(x, given, f);
            let z = value(forward::sum(x, y), given, f);
            &&& z.rank == vx.rank
            &&& z.dims == vx.dims
            &&& forall|p: int, m: int, q: int|
                0 <= p < vx.dims.a && 0 <= m < vx.dims.b && 0 <= q < vx.dims.c
                    ==> #[trigger] row(z, p, m, q) == plus(
                    row(vx, p, m, q),
                    row(value(y, given, f), p, m, q),
                )
        }),
{
    let vx = value(x, given, f);
    let vy = value(y, given, f);
    let z = value(forward::sum(x, y), given, f);
    assert(z == combined(vx, vy, |x: real, y: real| x + y));
    assert forall|p: int, m: int, q: int|
        0 <= p < vx.dims.a && 0 <= m < vx.dims.b && 0 <= q < vx.dims.c implies #[trigger] row(
        z,
        p,
        m,
        q,
    ) == plus(row(vx, p, m, q), row(vy, p, m, q)) by {
        assert forall|k: int| 0 <= k < vx.dims.d implies row(z, p, m, q)[k] == #[trigger] plus(
            row(vx, p, m, q),
            row(vy, p, m, q),
        )[k] by {
            let i = At { a: p, b: m, c: q, d: k };
            assert(clipped(i, vx.dims) == i);
        }
        assert(row(z, p, m, q) =~= plus(row(vx, p, m, q), row(vy, p, m, q)));
    }
}

/// A row for each brain, with a dimension for the rows that it applies to.
pub proof fn lemma_turned_value(w: Term, given: Given, f: Functions, n: int, d: int)
    requires
        is_sized(value(w, given, f), 2, 1, 1, n, d),
    ensures
        ({
            let y = value(forward::unsqueeze(w, 1), given, f);
            &&& is_sized(y, 3, 1, n, 1, d)
            &&& forall|m: int, q: int|
                0 <= m < n ==> #[trigger] row_at(y, 0, m, q) == row(value(w, given, f), 0, 0, m)
        }),
{
    let vw = value(w, given, f);
    let y = value(forward::unsqueeze(w, 1), given, f);
    assert(y == unsqueezed(vw, 1));
    assert forall|m: int, q: int| 0 <= m < n implies #[trigger] row_at(y, 0, m, q) == row(
        vw,
        0,
        0,
        m,
    ) by {
        assert(row_at(y, 0, m, q) =~= row(vw, 0, 0, m));
    }
}

/// A feed-forward block of each brain, of its rows.
pub proof fn lemma_block_value(
    x: Term,
    w1: Term,
    b1: Term,
    w2: Term,
    b2: Term,
    given: Given,
    f: Functions,
    n: int,
    r: int,
    d: int,
    k: int,
)
    requires
        is_sized(value(x, given, f), 3, 1, n, r, d),
        is_sized(value(w1, given, f), 3, 1, n, k, d),
        is_sized(value(b1, given, f), 2, 1, 1, n, k),
        is_sized(value(w2, given, f), 3, 1, n, d, k),
        is_sized(value(b2, given, f), 2, 1, 1, n, d),
        d >= 0,
        k >= 0,
    ensures
        ({
            let y = value(block_of(x, w1, b1, w2, b2), given, f);
            &&& is_sized(y, 3, 1, n, r, d)
            &&& forall|m: int, q: int|
                0 <= m < n && 0 <= q < r ==> #[trigger] row(y, 0, m, q) == affine(
                    affine(
                        row(value(x, given, f), 0, m, q),
                        (Affine {
                            w: matrix(value(w1, given, f), 0, m),
                            b: row(value(b1, given, f), 0, 0, m),
                        }),
                    ).map_values(f.gelu),
                    (Affine {
                        w: matrix(value(w2, given, f), 0, m),
                        b: row(value(b2, given, f), 0, 0, m),
                    }),
                )
        }),
{
    let inner = linear_of(x, w1, b1);
    let active = Term::Gelu(Box::new(inner));
    lemma_linear_value(x, w1, b1, given, f, n, r, d, k);
    let vi = value(inner, given, f);
    let va = value(active, given, f);
    assert(va == mapped(vi, f.gelu));
    lemma_linear_value(active, w2, b2, given, f, n, r, k, d);
    let y = value(block_of(x, w1, b1, w2, b2), given, f);
    assert forall|m: int, q: int| 0 <= m < n && 0 <= q < r implies #[trigger] row(y, 0, m, q)
        == affine(
        affine(
            row(value(x, given, f), 0, m, q),
            (Affine {
                w: matrix(value(w1, given, f), 0, m),
                b: row(value(b1, given, f), 0, 0, m),
            }),
        ).map_values(f.gelu),
        (Affine { w: matrix(value(w2, given, f), 0, m), b: row(value(b2, given, f), 0, 0, m) }),
    ) by {
        assert(row(va, 0, m, q) =~= row(vi, 0, m, q).map_values(f.gelu));
    }
}

/// A softmax over the last dimension, of every row.
pub proof fn lemma_softmax_value(x: Term, dim: nat, given: Given, f: Functions)
    requires
        value(x, given, f).rank == dim + 1,
    ensures
        ({
            let vx = value(x, given, f);
            let y = value(forward::softmax(x, dim), given, f);
            &&& y.rank == vx.rank
            &&& y.dims == vx.dims
            &&& forall|p: int, m: int, q: int| #[trigger]
                row(y, p, m, q) == softmax_of(row(vx, p, m, q), f)
        }),
{
    let vx = value(x, given, f);
    let y = value(forward::softmax(x, dim), given, f);
    assert(y == shared(vx, dim, f));
    assert forall|p: int, m: int, q: int| #[trigger] row(y, p, m, q) == softmax_of(
        row(vx, p, m, q),
        f,
    ) by {
        let own = row(vx, p, m, q);
        assert forall|k: int| 0 <= k < own.len() implies row(y, p, m, q)[k] == #[trigger] softmax_of(
            own,
            f,
        )[k] by {
            assert(along(vx, 3, At { a: p, b: m, c: q, d: k }) =~= own);
        }
        assert(row(y, p, m, q) =~= softmax_of(own, f));
    }
}

/// Values changed one by one, of every row.
pub proof fn lemma_mapped_rows(x: Tensor, op: spec_fn(real) -> real)
    ensures
        forall|p: int, m: int, q: int| #[trigger]
            row(mapped(x, op), p, m, q) == row(x, p, m, q).map_values(op),
{
    assert forall|p: int, m: int, q: int| #[trigger] row(mapped(x, op), p, m, q) == row(
        x,
        p,
        m,
        q,
    ).map_values(op) by {
        assert(row(mapped(x, op), p, m, q) =~= row(x, p, m, q).map_values(op));
    }
}

} // verus!
