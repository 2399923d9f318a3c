//! Sums, means and vectors of real numbers.

use vstd::prelude::*;

verus! {

/// The sum of real numbers.
pub open spec fn total(x: Seq<real>) -> real
    decreases x.len(),
{
    if x.len() == 0 {
        0real
    } else {
        total(x.drop_last()) + x.last()
    }
}

/// The mean of real numbers.
pub open spec fn average(x: Seq<real>) -> real {
    total(x) / (x.len() as real)
}

/// Products, one by one.
pub open spec fn products(x: Seq<real>, y: Seq<real>) -> Seq<real> {
    Seq::new(x.len(), |k: int| x[k] * y[k])
}

/// The sum of products.
pub open spec fn dot(x: Seq<real>, y: Seq<real>) -> real {
    total(products(x, y))
}

/// Sums, one by one.
pub open spec fn plus(x: Seq<real>, y: Seq<real>) -> Seq<real> {
    Seq::new(x.len(), |k: int| x[k] + y[k])
}

/// Multiples.
pub open spec fn times(x: Seq<real>, by: real) -> Seq<real> {
    Seq::new(x.len(), |k: int| x[k] * by)
}

/// One number, so many times.
pub open spec fn constant(count: nat, x: real) -> Seq<real> {
    Seq::new(count, |k: int| x)
}

/// Whether every number below a count occurs once in a list.
pub open spec fn is_permutation(order: Seq<int>, count: nat) -> bool {
    &&& order.len() == count
    &&& forall|i: int| 0 <= i < count ==> 0 <= #[trigger] order[i] < count
    &&& forall|i: int, j: int| 0 <= i < j < count ==> #[trigger] order[i] != #[trigger] order[j]
    &&& forall|x: int| 0 <= x < count ==> #[trigger] order.contains(x)
}

/// The elements of a list in another order.
pub open spec fn permuted<A>(x: Seq<A>, order: Seq<int>) -> Seq<A> {
    Seq::new(order.len(), |i: int| x[order[i]])
}

/// The sum of sums.
pub proof fn lemma_total_of_sum(x: Seq<real>, y: Seq<real>)
    requires
        x.len() == y.len(),
    ensures
        total(plus(x, y)) == total(x) + total(y),
    decreases x.len(),
{
    if x.len() > 0 {
        lemma_total_of_sum(x.drop_last(), y.drop_last());
        assert(plus(x, y).drop_last() =~= plus(x.drop_last(), y.drop_last()));
    }
}

/// The sum of multiples.
pub proof fn lemma_total_of_multiple(x: Seq<real>, by: real)
    ensures
        total(times(x, by)) == total(x) * by,
    decreases x.len(),
{
    if x.len() > 0 {
        lemma_total_of_multiple(x.drop_last(), by);
        assert(times(x, by).drop_last() =~= times(x.drop_last(), by));
        let a = total(x.drop_last());
        let b = x.last();
        assert((a + b) * by == a * by + b * by) by (nonlinear_arith);
    } else {
        assert(0real * by == 0real) by (nonlinear_arith);
    }
}

/// The sum of one number, so many times.
pub proof fn lemma_total_of_constant(count: nat, x: real)
    ensures
        total(constant(count, x)) == (count as real) * x,
    decreases count,
{
    if count > 0 {
        let fewer = (count - 1) as nat;
        lemma_total_of_constant(fewer, x);
        assert(constant(count, x).drop_last() =~= constant(fewer, x));
        let n = fewer as real;
        assert(count as real == n + 1real);
        assert((n + 1real) * x == n * x + x) by (nonlinear_arith);
    } else {
        assert(0real * x == 0real) by (nonlinear_arith);
    }
}

/// Sums of numbers that are not negative are not negative.
pub proof fn lemma_total_is_not_negative(x: Seq<real>)
    requires
        forall|k: int| 0 <= k < x.len() ==> #[trigger] x[k] >= 0real,
    ensures
        total(x) >= 0real,
    decreases x.len(),
{
    if x.len() > 0 {
        lemma_total_is_not_negative(x.drop_last());
        assert(x[x.len() - 1] >= 0real);
    }
}

/// Sums of positive numbers are positive.
pub proof fn lemma_total_is_positive(x: Seq<real>)
    requires
        x.len() > 0,
        forall|k: int| 0 <= k < x.len() ==> #[trigger] x[k] > 0real,
    ensures
        total(x) > 0real,
{
    assert forall|k: int| 0 <= k < x.drop_last().len() implies #[trigger] x.drop_last()[k]
        >= 0real by {
        assert(x[k] > 0real);
    }
    lemma_total_is_not_negative(x.drop_last());
    assert(x[x.len() - 1] > 0real);
}

/// Sums grow with their numbers.
pub proof fn lemma_total_grows(x: Seq<real>, y: Seq<real>)
    requires
        x.len() == y.len(),
        forall|k: int| 0 <= k < x.len() ==> #[trigger] x[k] <= y[k],
    ensures
        total(x) <= total(y),
    decreases x.len(),
{
    if x.len() > 0 {
        assert forall|k: int| 0 <= k < x.drop_last().len() implies #[trigger] x.drop_last()[k]
            <= y.drop_last()[k] by {
            assert(x[k] <= y[k]);
        }
        lemma_total_grows(x.drop_last(), y.drop_last());
        assert(x[x.len() - 1] <= y[x.len() - 1]);
    }
}

/// One of the numbers of a sum, taken out.
pub proof fn lemma_total_without_one(x: Seq<real>, at: int)
    requires
        0 <= at < x.len(),
    ensures
        total(x) == total(x.remove(at)) + x[at],
    decreases x.len(),
{
    if at == x.len() - 1 {
        assert(x.remove(at) =~= x.drop_last());
    } else {
        lemma_total_without_one(x.drop_last(), at);
        assert(x.remove(at).drop_last() =~= x.drop_last().remove(at));
        assert(x.remove(at).last() == x.last());
    }
}

/// A sum does not depend on the order.
pub proof fn lemma_total_of_permuted(x: Seq<real>, order: Seq<int>)
    requires
        is_permutation(order, x.len()),
    ensures
        total(permuted(x, order)) == total(x),
    decreases x.len(),
{
    let mixed = permuted(x, order);
    if x.len() > 0 {
        let last = x.len() - 1;
        assert(order.contains(last));
        let at = order.index_of(last);
        assert(order[at] == last);
        lemma_total_without_one(mixed, at);
        let rest = order.remove(at);
        let fewer = x.drop_last();
        assert forall|i: int| 0 <= i < rest.len() implies 0 <= #[trigger] rest[i] < last by {
            let j = if i < at {
                i
            } else {
                i + 1
            };
            assert(rest[i] == order[j]);
            assert(order[j] != order[at]);
        }
        assert forall|i: int, j: int| 0 <= i < j < rest.len() implies #[trigger] rest[i]
            != #[trigger] rest[j] by {
            let a = if i < at {
                i
            } else {
                i + 1
            };
            let b = if j < at {
                j
            } else {
                j + 1
            };
            assert(order[a] != order[b]);
        }
        assert forall|v: int| 0 <= v < last implies #[trigger] rest.contains(v) by {
            assert(order.contains(v));
            let j = order.index_of(v);
            assert(order[j] == v);
            if j < at {
                assert(rest[j] == v);
            } else {
                assert(rest[j - 1] == v);
            }
        }
        lemma_total_of_permuted(fewer, rest);
        assert(mixed.remove(at) =~= permuted(fewer, rest));
    } else {
        assert(mixed =~= x);
    }
}

} // verus!
