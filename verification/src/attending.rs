//! What attention computes, row by row.

use vstd::prelude::*;
use crate::forward::{attended, attention_of, heads_of, reshape, slice, swap};
use crate::graph::Term;
use crate::reals::{dot, products, total};
use crate::rows::{attention_row, part, shares, value_column};
use crate::tensor::{
    along, exchanged, flat, lemma_reshaped, mapped, matrix, multiplied, padded, reshaped, row,
    shared, sliced, value, At, Functions, Given, Tensor,
};

verus! {

/// How attention divides groups of rows among its heads. The groups come in two
/// dimensions.
pub ghost struct Heads {
    pub outer: int,
    pub inner: int,
    pub rows: int,
    pub heads: int,
    pub head_dim: int,
}

impl Heads {
    /// The width of a row.
    pub open spec fn width(&self) -> int {
        self.heads * self.head_dim
    }

    /// All sizes are positive.
    pub open spec fn wf(&self) -> bool {
        &&& self.outer > 0
        &&& self.inner > 0
        &&& self.rows > 0
        &&& self.heads > 0
        &&& self.head_dim > 0
    }

    /// Rows split by head.
    pub open spec fn split(&self) -> Seq<nat> {
        seq![
            (self.outer * self.inner) as nat,
            self.rows as nat,
            self.heads as nat,
            self.head_dim as nat,
        ]
    }

    /// The heads folded into the groups.
    pub open spec fn folded(&self) -> Seq<nat> {
        seq![
            (self.outer * self.inner * self.heads) as nat,
            self.rows as nat,
            self.head_dim as nat,
        ]
    }

    /// The heads unfolded from the groups.
    pub open spec fn unfolded(&self) -> Seq<nat> {
        seq![
            (self.outer * self.inner) as nat,
            self.heads as nat,
            self.rows as nat,
            self.head_dim as nat,
        ]
    }

    /// Whether these are a place's group, its row, its head, and the place in the
    /// head.
    pub open spec fn holds(&self, a: int, b: int, t: int, h: int, i: int) -> bool {
        &&& 0 <= a < self.outer
        &&& 0 <= b < self.inner
        &&& 0 <= t < self.rows
        &&& 0 <= h < self.heads
        &&& 0 <= i < self.head_dim
    }
}

/// A part of the joint projection of so many groups of rows, split by head, the
/// heads folded into the groups.
spec fn folded_part(joint: Tensor, axis: nat, start: nat, s: Heads) -> Tensor {
    reshaped(
        exchanged(
            reshaped(sliced(joint, axis, start, start + s.width() as nat), s.split()),
            1,
            2,
        ),
        s.folded(),
    )
}

proof fn lemma_sizes(s: Heads)
    requires
        s.wf(),
    ensures
        s.width() > 0,
        s.outer * s.inner > 0,
        s.outer * s.inner * s.heads > 0,
{
    assert(s.heads * s.head_dim > 0) by (nonlinear_arith)
        requires
            s.heads > 0,
            s.head_dim > 0,
    ;
    assert(s.outer * s.inner > 0) by (nonlinear_arith)
        requires
            s.outer > 0,
            s.inner > 0,
    ;
    let g = s.outer * s.inner;
    assert(g * s.heads > 0) by (nonlinear_arith)
        requires
            g > 0,
            s.heads > 0,
    ;
}

proof fn lemma_in_head(s: Heads, h: int, i: int)
    requires
        0 <= h < s.heads,
        0 <= i < s.head_dim,
    ensures
        0 <= h * s.head_dim + i < s.width(),
        (h * s.head_dim + i) / s.head_dim == h,
        (h * s.head_dim + i) % s.head_dim == i,
{
    let k = s.head_dim;
    assert(0 <= h * k && h * k + k <= s.heads * k) by (nonlinear_arith)
        requires
            0 <= h,
            h + 1 <= s.heads,
            k > 0,
    ;
    vstd::arithmetic::div_mod::lemma_fundamental_div_mod_converse(h * k + i, k, h, i);
}

proof fn lemma_split_numbers(s: Heads, a: int, b: int, t: int, h: int, i: int)
    ensures
        ((a * s.inner + b) * s.rows + t) * s.width() + (h * s.head_dim + i) == (((a * s.inner + b)
            * s.rows + t) * s.heads + h) * s.head_dim + i,
{
    let x = (a * s.inner + b) * s.rows + t;
    assert(x * (s.heads * s.head_dim) + (h * s.head_dim + i) == (x * s.heads + h) * s.head_dim + i)
        by (nonlinear_arith);
}

proof fn lemma_folded_part(
    joint: Tensor,
    axis: nat,
    start: nat,
    s: Heads,
    a: int,
    b: int,
    t: int,
    h: int,
    i: int,
)
    requires
        s.wf(),
        s.holds(a, b, t, h, i),
        joint.rank == axis + 1,
        joint.dims.a == s.outer,
        joint.dims.b == s.inner,
        joint.dims.c == s.rows,
    ensures
        (folded_part(joint, axis, start, s).at)(
            At { a: 0, b: (a * s.inner + b) * s.heads + h, c: t, d: i },
        ) == (joint.at)(At { a, b, c: t, d: start + (h * s.head_dim + i) }),
        folded_part(joint, axis, start, s).rank == 3,
        folded_part(joint, axis, start, s).dims == (At {
            a: 1,
            b: s.outer * s.inner * s.heads,
            c: s.rows,
            d: s.head_dim,
        }),
{
    lemma_sizes(s);
    lemma_in_head(s, h, i);
    lemma_split_numbers(s, a, b, t, h, i);
    let g = a * s.inner + b;
    let own = sliced(joint, axis, start, start + s.width() as nat);
    let j = h * s.head_dim + i;
    assert((own.at)(At { a, b, c: t, d: j }) == (joint.at)(At { a, b, c: t, d: start + j }));
    assert(own.dims == At { a: s.outer, b: s.inner, c: s.rows, d: s.width() });
    let split = reshaped(own, s.split());
    lemma_reshaped(own, s.split(), At { a, b, c: t, d: j }, At { a: g, b: t, c: h, d: i });
    let turned = exchanged(split, 1, 2);
    assert((turned.at)(At { a: g, b: h, c: t, d: i }) == (split.at)(At { a: g, b: t, c: h, d: i }));
    assert(turned.dims == At { a: s.outer * s.inner, b: s.heads, c: s.rows, d: s.head_dim });
    let e = s.outer * s.inner * s.heads;
    assert(0 * e == 0);
    lemma_reshaped(
        turned,
        s.folded(),
        At { a: g, b: h, c: t, d: i },
        At { a: 0, b: g * s.heads + h, c: t, d: i },
    );
}

/// Attention over the joint projections of groups of rows: the number at a place
/// of the result is that of the place's group.
pub proof fn lemma_attention_value(
    joint: Term,
    axis: nat,
    s: Heads,
    out: Seq<nat>,
    given: Given,
    f: Functions,
    a: int,
    b: int,
    t: int,
    j: int,
    to: At,
)
    requires
        s.wf(),
        value(joint, given, f).rank == axis + 1,
        value(joint, given, f).dims == (At {
            a: s.outer,
            b: s.inner,
            c: s.rows,
            d: 3 * s.width(),
        }),
        0 <= a < s.outer,
        0 <= b < s.inner,
        0 <= t < s.rows,
        0 <= j < s.width(),
        flat(padded(out), to) == ((a * s.inner + b) * s.rows + t) * s.width() + j,
    ensures
        ({
            let y = value(
                attention_of(
                    joint,
                    axis,
                    (s.outer * s.inner) as nat,
                    s.rows as nat,
                    s.width() as nat,
                    s.heads as nat,
                    out,
                ),
                given,
                f,
            );
            &&& y.rank == out.len()
            &&& y.dims == padded(out)
            &&& (y.at)(to) == attention_row(
                matrix(value(joint, given, f), a, b),
                t,
                s.width() as nat,
                s.head_dim as nat,
                f,
            )[j]
        }),
{
    lemma_sizes(s);
    let d = s.width();
    let k = s.head_dim;
    let vj = value(joint, given, f);
    let rows = matrix(vj, a, b);
    let g = a * s.inner + b;
    let h = j / k;
    let i = j % k;
    vstd::arithmetic::div_mod::lemma_fundamental_div_mod(j, k);
    vstd::arithmetic::div_mod::lemma_mod_bound(j, k);
    vstd::arithmetic::div_mod::lemma_div_pos_is_pos(j, k);
    assert(j == h * k + i) by (nonlinear_arith)
        requires
            j == k * h + i,
    ;
    assert(h < s.heads) by (nonlinear_arith)
        requires
            h * k + i < s.heads * k,
            0 <= i,
            k > 0,
    ;
    assert(d / s.heads == k) by {
        assert(d == k * s.heads + 0) by (nonlinear_arith)
            requires
                d == s.heads * k,
        ;
        vstd::arithmetic::div_mod::lemma_fundamental_div_mod_converse(d, s.heads, k, 0);
    }
    let q = folded_part(vj, axis, 0, s);
    let keys = folded_part(vj, axis, d as nat, s);
    let values = folded_part(vj, axis, (2 * d) as nat, s);
    let e = g * s.heads + h;
    assert forall|u: int, x: int| 0 <= u < s.rows && 0 <= x < k implies #[trigger] (q.at)(
        At { a: 0, b: e, c: u, d: x },
    ) == rows[u][h * k + x] by {
        lemma_folded_part(vj, axis, 0, s, a, b, u, h, x);
        lemma_in_head(s, h, x);
    }
    assert forall|u: int, x: int| 0 <= u < s.rows && 0 <= x < k implies #[trigger] (keys.at)(
        At { a: 0, b: e, c: u, d: x },
    ) == rows[u][d + h * k + x] by {
        lemma_folded_part(vj, axis, d as nat, s, a, b, u, h, x);
        lemma_in_head(s, h, x);
    }
    assert forall|u: int| 0 <= u < s.rows implies #[trigger] (values.at)(
        At { a: 0, b: e, c: u, d: i },
    ) == rows[u][2 * d + j] by {
        lemma_folded_part(vj, axis, (2 * d) as nat, s, a, b, u, h, i);
    }
    lemma_folded_part(vj, axis, 0, s, a, b, t, h, i);
    lemma_folded_part(vj, axis, d as nat, s, a, b, t, h, i);
    lemma_folded_part(vj, axis, (2 * d) as nat, s, a, b, t, h, i);
    let turned = exchanged(keys, 1, 2);
    let raw = multiplied(q, turned);
    let scores = mapped(raw, |x: real| x * (f.inverse_root)(k as nat));
    let weights = shared(scores, 2, f);
    let mixed = multiplied(weights, values);
    let place = At { a: 0, b: e, c: t, d: i };
    let list = rows.map_values(
        |r: Seq<real>|
            dot(part(rows[t], h * k, k as nat), part(r, d + h * k, k as nat)) * (f.inverse_root)(
                k as nat,
            ),
    );
    assert forall|u: int| 0 <= u < s.rows implies #[trigger] (scores.at)(
        At { a: 0, b: e, c: t, d: u },
    ) == list[u] by {
        let spot = At { a: 0, b: e, c: t, d: u };
        let own = Seq::new(
            q.dims.d as nat,
            |x: int| (q.at)(At { d: x, ..spot }) * (turned.at)(At { c: x, ..spot }),
        );
        let expected = products(
            part(rows[t], h * k, k as nat),
            part(rows[u], d + h * k, k as nat),
        );
        assert forall|x: int| 0 <= x < k implies own[x] == #[trigger] expected[x] by {
            assert((turned.at)(At { c: x, ..spot }) == (keys.at)(At { a: 0, b: e, c: u, d: x }));
            assert((q.at)(At { a: 0, b: e, c: t, d: x }) == rows[t][h * k + x]);
        }
        assert(own =~= expected);
        assert((raw.at)(spot) == total(own));
    }
    let own_shares = shares(rows, t, h, d as nat, k as nat, f);
    assert(scores.dims == At { a: 1, b: s.outer * s.inner * s.heads, c: s.rows, d: s.rows });
    assert forall|u: int| 0 <= u < s.rows implies #[trigger] (weights.at)(
        At { a: 0, b: e, c: t, d: u },
    ) == own_shares[u] by {
        let spot = At { a: 0, b: e, c: t, d: u };
        assert(along(scores, 3, spot) =~= list) by {
            assert forall|x: int| 0 <= x < s.rows implies along(scores, 3, spot)[x] == #[trigger]
                list[x] by {
                assert((scores.at)(At { a: 0, b: e, c: t, d: x }) == list[x]);
            }
        }
    }
    let terms = Seq::new(
        weights.dims.d as nat,
        |u: int| (weights.at)(At { d: u, ..place }) * (values.at)(At { c: u, ..place }),
    );
    let expected = products(own_shares, value_column(rows, d as nat, j));
    assert forall|u: int| 0 <= u < s.rows implies terms[u] == #[trigger] expected[u] by {
        assert((weights.at)(At { a: 0, b: e, c: t, d: u }) == own_shares[u]);
        assert((values.at)(At { a: 0, b: e, c: u, d: i }) == rows[u][2 * d + j]);
    }
    assert(terms =~= expected);
    assert((mixed.at)(place) == dot(own_shares, value_column(rows, d as nat, j)));
    let unfolded = reshaped(mixed, s.unfolded());
    assert(mixed.dims == At {
        a: 1,
        b: s.outer * s.inner * s.heads,
        c: s.rows,
        d: s.head_dim,
    });
    lemma_group_bound(s, a, b, h);
    let all = s.outer * s.inner * s.heads;
    assert(0 * all == 0);
    lemma_reshaped(mixed, s.unfolded(), place, At { a: g, b: h, c: t, d: i });
    let back = exchanged(unfolded, 1, 2);
    assert((back.at)(At { a: g, b: t, c: h, d: i }) == (unfolded.at)(
        At { a: g, b: h, c: t, d: i },
    ));
    assert(back.dims == At { a: s.outer * s.inner, b: s.rows, c: s.heads, d: s.head_dim });
    lemma_split_numbers(s, a, b, t, h, i);
    lemma_reshaped(back, out, At { a: g, b: t, c: h, d: i }, to);
    assert(value(
        attention_of(
            joint,
            axis,
            (s.outer * s.inner) as nat,
            s.rows as nat,
            d as nat,
            s.heads as nat,
            out,
        ),
        given,
        f,
    ) == reshaped(back, out)) by {
        lemma_attention_unfolds(joint, axis, s, out, given, f);
    }
}

proof fn lemma_group_bound(s: Heads, a: int, b: int, h: int)
    requires
        0 <= a < s.outer,
        0 <= b < s.inner,
        0 <= h < s.heads,
    ensures
        0 <= (a * s.inner + b) * s.heads + h < s.outer * s.inner * s.heads,
{
    let g = a * s.inner + b;
    assert(0 <= g && g + 1 <= s.outer * s.inner) by (nonlinear_arith)
        requires
            0 <= a,
            a + 1 <= s.outer,
            0 <= b < s.inner,
            g == a * s.inner + b,
    ;
    let all = s.outer * s.inner;
    assert(0 <= g * s.heads + h < all * s.heads) by (nonlinear_arith)
        requires
            0 <= g,
            g + 1 <= all,
            0 <= h < s.heads,
    ;
}

proof fn lemma_attention_unfolds(
    joint: Term,
    axis: nat,
    s: Heads,
    out: Seq<nat>,
    given: Given,
    f: Functions,
)
    requires
        s.wf(),
        s.width() / s.heads == s.head_dim,
    ensures
        ({
            let d = s.width();
            let vj = value(joint, given, f);
            let scores = mapped(
                multiplied(
                    folded_part(vj, axis, 0, s),
                    exchanged(folded_part(vj, axis, d as nat, s), 1, 2),
                ),
                |x: real| x * (f.inverse_root)(s.head_dim as nat),
            );
            let mixed = multiplied(
                shared(scores, 2, f),
                folded_part(vj, axis, (2 * d) as nat, s),
            );
            value(
                attention_of(
                    joint,
                    axis,
                    (s.outer * s.inner) as nat,
                    s.rows as nat,
                    d as nat,
                    s.heads as nat,
                    out,
                ),
                given,
                f,
            ) == reshaped(exchanged(reshaped(mixed, s.unfolded()), 1, 2), out)
        }),
{
    lemma_sizes(s);
    let d = s.width() as nat;
    let q = heads_of(slice(joint, axis, 0, d), s.split(), s.folded());
    let k = heads_of(slice(joint, axis, d, 2 * d), s.split(), s.folded());
    let v = heads_of(slice(joint, axis, 2 * d, 3 * d), s.split(), s.folded());
    lemma_heads_unfold(joint, axis, 0, s, given, f);
    lemma_heads_unfold(joint, axis, d, s, given, f);
    lemma_heads_unfold(joint, axis, 2 * d, s, given, f);
    let mixed = attended(q, k, v, s.head_dim as nat);
    assert(s.folded() =~= seq![
        (s.outer * s.inner) as nat * s.heads as nat,
        s.rows as nat,
        s.head_dim as nat,
    ]);
    let term = reshape(swap(reshape(mixed, s.unfolded()), 1, 2), out);
    assert(attention_of(
        joint,
        axis,
        (s.outer * s.inner) as nat,
        s.rows as nat,
        d,
        s.heads as nat,
        out,
    ) == term);
    reveal_with_fuel(value, 9);
}

proof fn lemma_heads_unfold(
    joint: Term,
    axis: nat,
    start: nat,
    s: Heads,
    given: Given,
    f: Functions,
)
    ensures
        value(
            heads_of(slice(joint, axis, start, start + s.width() as nat), s.split(), s.folded()),
            given,
            f,
        ) == folded_part(value(joint, given, f), axis, start, s),
{
    reveal_with_fuel(value, 5);
}

} // verus!
