//! Laws of the inference pass, in real numbers.

use vstd::prelude::*;
use crate::config::{D_MODEL, HEAD_DIM, INPUT_DIM, NUM_BRAINS, NUM_LAYERS, SEQ_LEN};
use crate::evaluation::is_sized;
use crate::inference::{action_of, combined, confidence_of, FIRST_HEAD};
use crate::inference_values::{
    has_weights, law_inference_computes_the_model, lemma_combined_value, lemma_head_tensor,
    loaded_brain, loaded_confidence, loaded_layer, loaded_swarm,
};
use crate::mixing::{
    has_gate_of, has_positive_exponentials, lemma_shares_sum_to_one,
    lemma_together_of_equal_brains, lemma_together_of_exchanged, lemma_together_of_shared,
};
use crate::normalization::lemma_affine_of_zero;
use crate::reals::{constant, is_permutation, permuted, total};
use crate::reordering::{lemma_together_of_permuted, lemma_together_of_renumbered, renumbered};
use crate::rows::{affine, brain_row, brain_rows, gate_row, logits_row, Affine};
use crate::shapes::inference_shapes;
use crate::tensor::{matrix, positive_part, row, softmax_of, value, Functions, Given, Tensor};

verus! {

/// Whether the pass can be computed from these tensors: the weights of a swarm,
/// and a sequence.
pub open spec fn is_loaded(given: Given) -> bool {
    &&& has_weights(given, inference_shapes())
    &&& is_sized(given.input, 2, 1, 1, SEQ_LEN as int, INPUT_DIM as int)
}

/// The rows of the sequence.
pub open spec fn sequence(given: Given) -> Seq<Seq<real>> {
    matrix(given.input, 0, 0)
}

/// How much each brain counts for the sequence.
pub open spec fn gate(given: Given, f: Functions) -> Seq<real> {
    gate_row(sequence(given).last(), loaded_swarm(given), f)
}

/// The probabilities of the actions.
pub open spec fn probabilities(given: Given, f: Functions) -> Seq<real> {
    row(value(action_of(combined()), given, f), 0, 0, 0)
}

/// The confidence.
pub open spec fn confidence(given: Given, f: Functions) -> real {
    row(value(confidence_of(combined()), given, f), 0, 0, 0)[0]
}

/// Probabilities are positive and sum to one.
pub proof fn law_probabilities_sum_to_one(given: Given, f: Functions)
    requires
        is_loaded(given),
        has_positive_exponentials(f),
    ensures
        total(probabilities(given, f)) == 1real,
        forall|k: int|
            0 <= k < probabilities(given, f).len() ==> #[trigger] probabilities(given, f)[k]
                > 0real,
{
    law_inference_computes_the_model(given, f);
    let logits = logits_row(
        sequence(given),
        loaded_swarm(given),
        D_MODEL as nat,
        HEAD_DIM as nat,
        f,
    );
    lemma_head_tensor(given, 8);
    lemma_shares_sum_to_one(logits, f);
}

/// Only the last row of a sequence is told apart. The others act as a set: in
/// another order they give the same probabilities and the same confidence.
pub proof fn law_order_of_rows_does_not_matter(
    given: Given,
    moved: Given,
    order: Seq<int>,
    f: Functions,
)
    requires
        is_loaded(given),
        is_loaded(moved),
        moved.weights == given.weights,
        is_permutation(order, SEQ_LEN as nat),
        order[SEQ_LEN - 1] == SEQ_LEN - 1,
        sequence(moved) == permuted(sequence(given), order),
    ensures
        probabilities(moved, f) == probabilities(given, f),
        confidence(moved, f) == confidence(given, f),
{
    law_inference_computes_the_model(given, f);
    law_inference_computes_the_model(moved, f);
    let swarm = loaded_swarm(given);
    lemma_same_weights(given, moved);
    lemma_together_of_permuted(
        sequence(given),
        swarm,
        order,
        D_MODEL as nat,
        HEAD_DIM as nat,
        f,
    );
}

proof fn lemma_same_weights(given: Given, other: Given)
    requires
        given.weights == other.weights,
    ensures
        loaded_swarm(given) == loaded_swarm(other),
        loaded_confidence(given) == loaded_confidence(other),
{
    lemma_same_swarm(given, other);
}

proof fn lemma_same_swarm(given: Given, other: Given)
    requires
        given.weights.len() == other.weights.len(),
        forall|i: int| 0 <= i < FIRST_HEAD + 10 ==> #[trigger] given.weights[i] == other.weights[i],
    ensures
        loaded_swarm(given) == loaded_swarm(other),
{
    let a = loaded_swarm(given);
    let b = loaded_swarm(other);
    assert forall|n: int| 0 <= n < NUM_BRAINS implies #[trigger] a.brains[n] == b.brains[n] by {
        let x = loaded_brain(given, n);
        let y = loaded_brain(other, n);
        assert forall|l: int| 0 <= l < NUM_LAYERS implies #[trigger] x.layers[l] == y.layers[l] by {
            assert(loaded_layer(given, l, n) == loaded_layer(other, l, n));
        }
        assert(x.layers =~= y.layers);
    }
    assert(a.brains =~= b.brains);
}

/// The numbers of the brains do not matter. Where a swarm has the brains of
/// another in another order, and its gate the rows for them in the same order, it
/// gives the same probabilities and the same confidence.
pub proof fn law_numbers_of_brains_do_not_matter(
    given: Given,
    other: Given,
    order: Seq<int>,
    f: Functions,
)
    requires
        is_loaded(given),
        is_loaded(other),
        is_permutation(order, NUM_BRAINS as nat),
        loaded_swarm(other) == renumbered(loaded_swarm(given), order),
        loaded_confidence(other) == loaded_confidence(given),
        sequence(other) == sequence(given),
    ensures
        probabilities(other, f) == probabilities(given, f),
        confidence(other, f) == confidence(given, f),
{
    law_inference_computes_the_model(given, f);
    law_inference_computes_the_model(other, f);
    lemma_head_tensor(given, 6);
    lemma_together_of_renumbered(
        sequence(given),
        loaded_swarm(given),
        order,
        D_MODEL as nat,
        HEAD_DIM as nat,
        f,
    );
}

/// Without weights in its last map, a gate is the softmax of its biases,
/// whatever the sequence.
pub proof fn law_gate_without_weights(given: Given, f: Functions)
    requires
        is_loaded(given),
        forall|n: int|
            0 <= n < NUM_BRAINS ==> #[trigger] loaded_swarm(given).gate2.w[n] == constant(
                D_MODEL as nat,
                0real,
            ),
    ensures
        gate(given, f) == softmax_of(loaded_swarm(given).gate2.b, f),
{
    let swarm = loaded_swarm(given);
    lemma_head_tensor(given, 4);
    lemma_head_tensor(given, 6);
    lemma_head_tensor(given, 7);
    let hidden = affine(sequence(given).last(), swarm.gate1).map_values(
        |v: real| positive_part(v),
    );
    let zero = Affine { w: swarm.gate2.w, b: constant(NUM_BRAINS as nat, 0real) };
    lemma_affine_of_zero(hidden, zero, NUM_BRAINS as nat);
    assert forall|n: int| 0 <= n < NUM_BRAINS implies #[trigger] affine(hidden, swarm.gate2)[n]
        == swarm.gate2.b[n] by {
        assert(affine(hidden, zero)[n] == 0real);
    }
    assert(affine(hidden, swarm.gate2) =~= swarm.gate2.b);
}

/// Brains without a share have no influence: whatever weights they have, the
/// probabilities and the confidence stay. So where one brain has it all,
/// the weights of the others do not matter.
pub proof fn law_brains_without_share_do_not_matter(given: Given, other: Given, f: Functions)
    requires
        is_loaded(given),
        is_loaded(other),
        has_gate_of(loaded_swarm(other), loaded_swarm(given)),
        loaded_swarm(other).action == loaded_swarm(given).action,
        loaded_confidence(other) == loaded_confidence(given),
        sequence(other) == sequence(given),
        forall|n: int|
            0 <= n < NUM_BRAINS ==> #[trigger] loaded_brain(other, n) == loaded_brain(given, n)
                || gate(given, f)[n] == 0real,
    ensures
        probabilities(other, f) == probabilities(given, f),
        confidence(other, f) == confidence(given, f),
{
    law_inference_computes_the_model(given, f);
    law_inference_computes_the_model(other, f);
    lemma_head_tensor(given, 6);
    let a = loaded_swarm(given);
    let b = loaded_swarm(other);
    assert forall|n: int| 0 <= n < a.brains.len() implies #[trigger] b.brains[n] == a.brains[n]
        || gate_row(sequence(given).last(), a, f)[n] == 0real by {
        assert(loaded_brain(other, n) == loaded_brain(given, n) || gate(given, f)[n] == 0real);
    }
    lemma_together_of_shared(sequence(given), a, b, D_MODEL as nat, HEAD_DIM as nat, f);
}

/// Brains count by their shares. Where all but one are exchanged for brains whose
/// results differ by so much at most, what the brains make together differs by no
/// more than that, times what the shares of all but the one amount to.
pub proof fn law_brains_count_by_their_shares(
    given: Given,
    other: Given,
    one: int,
    most: real,
    f: Functions,
)
    requires
        is_loaded(given),
        is_loaded(other),
        has_positive_exponentials(f),
        has_gate_of(loaded_swarm(other), loaded_swarm(given)),
        sequence(other) == sequence(given),
        0 <= one < NUM_BRAINS,
        loaded_brain(other, one) == loaded_brain(given, one),
        forall|n: int, k: int|
            0 <= n < NUM_BRAINS && 0 <= k < D_MODEL ==> -most <= #[trigger] brain_rows(
                sequence(given),
                loaded_swarm(other),
                D_MODEL as nat,
                HEAD_DIM as nat,
                f,
            )[n][k] - brain_rows(
                sequence(given),
                loaded_swarm(given),
                D_MODEL as nat,
                HEAD_DIM as nat,
                f,
            )[n][k] <= most,
    ensures
        forall|k: int|
            0 <= k < D_MODEL ==> {
                let rest = 1real - gate(given, f)[one];
                -(rest * most) <= #[trigger] row(value(combined(), other, f), 0, 0, 0)[k] - row(
                    value(combined(), given, f),
                    0,
                    0,
                    0,
                )[k] <= rest * most
            },
{
    lemma_combined_value(given, f);
    lemma_combined_value(other, f);
    lemma_head_tensor(given, 6);
    lemma_together_of_exchanged(
        sequence(given),
        loaded_swarm(given),
        loaded_swarm(other),
        one,
        most,
        D_MODEL as nat,
        HEAD_DIM as nat,
        f,
    );
}

/// A swarm of equal brains makes of a sequence what one of them does.
pub proof fn law_equal_brains_agree(given: Given, f: Functions)
    requires
        is_loaded(given),
        has_positive_exponentials(f),
        forall|n: int|
            0 <= n < NUM_BRAINS ==> #[trigger] loaded_brain(given, n) == loaded_brain(given, 0),
    ensures
        row(value(combined(), given, f), 0, 0, 0) == brain_row(
            sequence(given),
            loaded_brain(given, 0),
            D_MODEL as nat,
            HEAD_DIM as nat,
            f,
        ),
{
    lemma_combined_value(given, f);
    lemma_head_tensor(given, 6);
    let swarm = loaded_swarm(given);
    let brain = loaded_brain(given, 0);
    assert forall|n: int| 0 <= n < swarm.brains.len() implies #[trigger] swarm.brains[n]
        == brain by {
        assert(loaded_brain(given, n) == brain);
    }
    lemma_together_of_equal_brains(
        sequence(given),
        swarm,
        brain,
        D_MODEL as nat,
        HEAD_DIM as nat,
        f,
    );
}

/// The bias of the confidence does not touch the probabilities, and the confidence
/// does not decrease with it.
pub proof fn law_confidence_grows_with_its_bias(
    given: Given,
    other: Given,
    bias: Tensor,
    f: Functions,
)
    requires
        is_loaded(given),
        is_loaded(other),
        other.input == given.input,
        other.weights == given.weights.update(FIRST_HEAD + 11, bias),
        loaded_confidence(given).b[0] <= loaded_confidence(other).b[0],
        forall|x: real, y: real| x <= y ==> #[trigger] (f.sigmoid)(x) <= #[trigger] (f.sigmoid)(y),
    ensures
        probabilities(other, f) == probabilities(given, f),
        confidence(given, f) <= confidence(other, f),
{
    law_inference_computes_the_model(given, f);
    law_inference_computes_the_model(other, f);
    lemma_head_tensor(given, 10);
    lemma_same_swarm(given, other);
    let a = loaded_confidence(given);
    let b = loaded_confidence(other);
    assert(b.w == a.w);
    lemma_combined_value(given, f);
    let x = row(value(combined(), given, f), 0, 0, 0);
    assert(affine(x, a)[0] <= affine(x, b)[0]);
    assert(confidence(given, f) == (f.sigmoid)(affine(x, a)[0]));
    assert(confidence(other, f) == (f.sigmoid)(affine(x, b)[0]));
}

} // verus!
