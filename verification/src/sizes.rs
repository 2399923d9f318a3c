//! What tensor operations compute has the shape that they are said to have.

use vstd::prelude::*;
use crate::graph::{shape, Shapes, Term};
use crate::inference_values::has_weights;
use crate::tensor::{dropped, inserted, padded, position, value, Functions, Given, Tensor};

verus! {

/// Whether a tensor has a shape.
pub open spec fn has_shape(x: Tensor, dims: Seq<nat>) -> bool {
    x.rank == dims.len() && x.dims == padded(dims)
}

/// Whether what a term is computed from, and all that is computed on the way, has
/// up to four dimensions.
pub open spec fn is_within_four(term: Term, given: Shapes) -> bool
    decreases term,
{
    &&& shape(term, given) is Some
    &&& shape(term, given)->0.len() <= 4
    &&& match term {
        Term::Input | Term::Weight(_) => true,
        Term::MatMul(a, b)
        | Term::Sum(a, b)
        | Term::Difference(a, b)
        | Term::Product(a, b)
        | Term::Quotient(a, b) => is_within_four(*a, given) && is_within_four(*b, given),
        Term::Swap(a, _, _) | Term::Repeat(a, _, _) => is_within_four(*a, given),
        Term::Slice(a, _, _, _) => is_within_four(*a, given),
        Term::Reshape(a, _) => is_within_four(*a, given),
        Term::Unsqueeze(a, _)
        | Term::Squeeze(a, _)
        | Term::Mean(a, _)
        | Term::Softmax(a, _)
        | Term::Scale(a, _) => is_within_four(*a, given),
        Term::Plus(a, _) => is_within_four(*a, given),
        Term::Gelu(a)
        | Term::Relu(a)
        | Term::Sigmoid(a)
        | Term::Square(a)
        | Term::Root(a) => is_within_four(*a, given),
    }
}

proof fn lemma_removed(x: Seq<nat>, dim: nat)
    requires
        dim < x.len() <= 4,
    ensures
        padded(x.remove(dim as int)) == dropped(padded(x), position(x.len(), dim), 1),
{
    let y = x.remove(dim as int);
    assert(forall|i: int| 0 <= i < dim ==> #[trigger] y[i] == x[i]);
    assert(forall|i: int| dim <= i < y.len() ==> #[trigger] y[i] == x[i + 1]);
}

proof fn lemma_inserted(x: Seq<nat>, dim: nat)
    requires
        dim <= x.len() < 4,
    ensures
        padded(x.insert(dim as int, 1)) == inserted(padded(x), position(x.len() + 1, dim), 1),
{
    let y = x.insert(dim as int, 1);
    assert(forall|i: int| 0 <= i < dim ==> #[trigger] y[i] == x[i]);
    assert(forall|i: int| dim < i < y.len() ==> #[trigger] y[i] == x[i - 1]);
}

/// What a term computes has the shape of the term.
pub proof fn law_values_have_their_shapes(term: Term, shapes: Shapes, given: Given, f: Functions)
    requires
        has_shape(given.input, shapes.input),
        has_weights(given, shapes),
        is_within_four(term, shapes),
    ensures
        has_shape(value(term, given, f), shape(term, shapes)->0),
    decreases term,
{
    reveal_with_fuel(is_within_four, 2);
    match term {
        Term::Input => {},
        Term::Weight(id) => {
            assert(given.weights[id as int].rank == shapes.weights[id as int].len());
        },
        Term::MatMul(a, b)
        | Term::Sum(a, b)
        | Term::Difference(a, b)
        | Term::Product(a, b)
        | Term::Quotient(a, b) => {
            law_values_have_their_shapes(*a, shapes, given, f);
            law_values_have_their_shapes(*b, shapes, given, f);
        },
        Term::Swap(a, _, _) | Term::Repeat(a, _, _) => {
            law_values_have_their_shapes(*a, shapes, given, f);
        },
        Term::Slice(a, _, _, _) => {
            law_values_have_their_shapes(*a, shapes, given, f);
        },
        Term::Reshape(a, _) => {
            law_values_have_their_shapes(*a, shapes, given, f);
        },
        Term::Unsqueeze(a, dim) => {
            law_values_have_their_shapes(*a, shapes, given, f);
            lemma_inserted(shape(*a, shapes)->0, dim);
        },
        Term::Squeeze(a, dim) => {
            law_values_have_their_shapes(*a, shapes, given, f);
            lemma_removed(shape(*a, shapes)->0, dim);
        },
        Term::Mean(a, _) | Term::Softmax(a, _) | Term::Scale(a, _) => {
            law_values_have_their_shapes(*a, shapes, given, f);
        },
        Term::Plus(a, _) => {
            law_values_have_their_shapes(*a, shapes, given, f);
        },
        Term::Gelu(a) | Term::Relu(a) | Term::Sigmoid(a) | Term::Square(a) | Term::Root(a) => {
            law_values_have_their_shapes(*a, shapes, given, f);
        },
    }
}

} // verus!
