//! Laws of the training pass, in real numbers.

use vstd::prelude::*;
use crate::graph::Term;
use crate::mixing::{
    has_positive_exponentials, lemma_affine_of_more, lemma_together_of_equal_brains,
};
use crate::model::SwarmConfig;
use crate::reals::{is_permutation, permuted, plus};
use crate::reordering::lemma_together_of_permuted;
use crate::rows::{logits_row, together};
use crate::tensor::{matrix, row, value, Functions, Given};
use crate::training_pass::{extent, is_empty, logits_of};
use crate::training_values::{
    is_trained_on, law_training_computes_the_model, lemma_param_size, trained_brain, trained_layer,
    trained_swarm,
};

verus! {

/// Whether there is a pass for a swarm of a size and so many sequences of a
/// length.
pub open spec fn has_pass(c: SwarmConfig, batch: usize, seq: usize) -> bool {
    &&& c.n_heads > 0
    &&& !is_empty(c, batch, seq)
    &&& c.n_layers > 0 ==> c.d_model % c.n_heads == 0
    &&& c.n_layers > 0 ==> 3 * c.d_model <= usize::MAX
}

/// Whether a pass can be computed from these tensors.
pub open spec fn is_passed(given: Given, c: SwarmConfig, batch: usize, seq: usize) -> bool {
    has_pass(c, batch, seq) && is_trained_on(given, c, batch, seq)
}

/// One of the sequences.
pub open spec fn item(given: Given, i: int) -> Seq<Seq<real>> {
    matrix(given.input, 0, i)
}

/// The logits of all sequences, one row for each.
pub open spec fn training_logits(
    given: Given,
    c: SwarmConfig,
    batch: usize,
    seq: usize,
    f: Functions,
) -> Seq<Seq<real>> {
    matrix(value(logits_of(Term::Input, extent(c, batch, seq)), given, f), 0, 0)
}

/// Each row of the logits is what the model makes of its sequence.
pub proof fn lemma_logits(
    given: Given,
    c: SwarmConfig,
    batch: usize,
    seq: usize,
    f: Functions,
    i: int,
)
    requires
        is_passed(given, c, batch, seq),
        0 <= i < batch,
    ensures
        training_logits(given, c, batch, seq, f).len() == batch,
        training_logits(given, c, batch, seq, f)[i] == logits_row(
            item(given, i),
            trained_swarm(given, c),
            c.d_model as nat,
            (c.d_model / c.n_heads) as nat,
            f,
        ),
{
    law_training_computes_the_model(c, batch, seq, given, f);
    let y = value(logits_of(Term::Input, extent(c, batch, seq)), given, f);
    assert(row(y, 0, 0, i) == training_logits(given, c, batch, seq, f)[i]);
}

/// Whether two sets of tensors hold the same parameters of the model, but for the
/// confidence and the biases of the actions.
pub open spec fn has_body_of(other: Given, given: Given) -> bool {
    forall|k: int| 0 <= k < 21 ==> #[trigger] other.weights[k] == given.weights[k]
}

proof fn lemma_same_body(other: Given, given: Given, c: SwarmConfig)
    requires
        has_body_of(other, given),
    ensures
        trained_swarm(other, c).brains == trained_swarm(given, c).brains,
        trained_swarm(other, c).gate1 == trained_swarm(given, c).gate1,
        trained_swarm(other, c).gate2 == trained_swarm(given, c).gate2,
        trained_swarm(other, c).action.w == trained_swarm(given, c).action.w,
{
    let a = trained_swarm(given, c);
    let b = trained_swarm(other, c);
    assert forall|n: int| 0 <= n < c.n_brains implies #[trigger] a.brains[n] == b.brains[n] by {
        let x = trained_brain(given, c.n_layers as nat, n);
        let y = trained_brain(other, c.n_layers as nat, n);
        assert forall|l: int| 0 <= l < c.n_layers implies #[trigger] x.layers[l]
            == y.layers[l] by {
            assert(trained_layer(given, l, n) == trained_layer(other, l, n));
        }
        assert(x.layers =~= y.layers);
    }
    assert(a.brains =~= b.brains);
}

/// The sequences of a batch do not influence one another: with the same
/// parameters, a sequence has the same logits wherever it stands and whatever
/// stands beside it. So each row is that of its sequence alone.
pub proof fn law_items_are_independent(
    given: Given,
    batch: usize,
    i: int,
    other: Given,
    other_batch: usize,
    j: int,
    c: SwarmConfig,
    seq: usize,
    f: Functions,
)
    requires
        is_passed(given, c, batch, seq),
        is_passed(other, c, other_batch, seq),
        0 <= i < batch,
        0 <= j < other_batch,
        other.weights == given.weights,
        item(other, j) == item(given, i),
    ensures
        training_logits(other, c, other_batch, seq, f)[j] == training_logits(
            given,
            c,
            batch,
            seq,
            f,
        )[i],
{
    lemma_logits(given, c, batch, seq, f, i);
    lemma_logits(other, c, other_batch, seq, f, j);
    lemma_same_body(other, given, c);
}

/// The sequences of a batch in another order have their logits in that order.
pub proof fn law_logits_keep_the_order_of_items(
    given: Given,
    moved: Given,
    order: Seq<int>,
    c: SwarmConfig,
    batch: usize,
    seq: usize,
    f: Functions,
)
    requires
        is_passed(given, c, batch, seq),
        is_passed(moved, c, batch, seq),
        moved.weights == given.weights,
        is_permutation(order, batch as nat),
        forall|i: int| 0 <= i < batch ==> #[trigger] item(moved, i) == item(given, order[i]),
    ensures
        training_logits(moved, c, batch, seq, f) == permuted(
            training_logits(given, c, batch, seq, f),
            order,
        ),
{
    let before = training_logits(given, c, batch, seq, f);
    let after = training_logits(moved, c, batch, seq, f);
    lemma_logits(given, c, batch, seq, f, 0);
    lemma_logits(moved, c, batch, seq, f, 0);
    assert forall|i: int| 0 <= i < batch implies #[trigger] after[i] == permuted(before, order)[i] by {
        assert(0 <= order[i] < batch);
        assert(item(moved, i) == item(given, order[i]));
        law_items_are_independent(given, batch, order[i], moved, batch, i, c, seq, f);
    }
    assert(after =~= permuted(before, order));
}

/// Only the last time step is told apart. In another order the others give the
/// same logits.
pub proof fn law_order_of_time_steps_does_not_matter(
    given: Given,
    moved: Given,
    order: Seq<int>,
    c: SwarmConfig,
    batch: usize,
    seq: usize,
    i: int,
    f: Functions,
)
    requires
        is_passed(given, c, batch, seq),
        is_passed(moved, c, batch, seq),
        moved.weights == given.weights,
        is_permutation(order, seq as nat),
        order[seq - 1] == seq - 1,
        0 <= i < batch,
        item(moved, i) == permuted(item(given, i), order),
    ensures
        training_logits(moved, c, batch, seq, f)[i] == training_logits(given, c, batch, seq, f)[i],
{
    lemma_logits(given, c, batch, seq, f, i);
    lemma_logits(moved, c, batch, seq, f, i);
    lemma_same_body(moved, given, c);
    lemma_together_of_permuted(
        item(given, i),
        trained_swarm(given, c),
        order,
        c.d_model as nat,
        (c.d_model / c.n_heads) as nat,
        f,
    );
}

/// A swarm of equal brains computes what one of them does: its logits are those
/// of the swarm of one such brain with the same head for the actions, whatever
/// the gates of the two.
pub proof fn law_equal_brains_compute_as_one(
    given: Given,
    single: Given,
    c: SwarmConfig,
    batch: usize,
    seq: usize,
    i: int,
    f: Functions,
)
    requires
        has_positive_exponentials(f),
        is_passed(given, c, batch, seq),
        is_passed(single, (SwarmConfig { n_brains: 1, ..c }), batch, seq),
        0 <= i < batch,
        item(single, i) == item(given, i),
        forall|n: int|
            0 <= n < c.n_brains ==> #[trigger] trained_brain(given, c.n_layers as nat, n)
                == trained_brain(single, c.n_layers as nat, 0),
        trained_swarm(given, c).action == trained_swarm(single, c).action,
    ensures
        training_logits(given, c, batch, seq, f)[i] == training_logits(
            single,
            (SwarmConfig { n_brains: 1, ..c }),
            batch,
            seq,
            f,
        )[i],
{
    let one = SwarmConfig { n_brains: 1, ..c };
    let width = c.d_model as nat;
    let head_dim = (c.d_model / c.n_heads) as nat;
    lemma_logits(given, c, batch, seq, f, i);
    lemma_logits(single, one, batch, seq, f, i);
    lemma_param_size(given, c, batch, seq, 18);
    lemma_param_size(single, one, batch, seq, 18);
    let brain = trained_brain(single, c.n_layers as nat, 0);
    let many = trained_swarm(given, c);
    let few = trained_swarm(single, one);
    assert forall|n: int| 0 <= n < many.brains.len() implies #[trigger] many.brains[n]
        == brain by {
        assert(trained_brain(given, c.n_layers as nat, n) == brain);
    }
    lemma_together_of_equal_brains(item(given, i), many, brain, width, head_dim, f);
    lemma_together_of_equal_brains(item(given, i), few, brain, width, head_dim, f);
}

/// What is added to the biases of the actions is added to the logits, and the
/// parameters of the confidence have no influence on them.
pub proof fn law_logits_are_affine_in_their_bias(
    given: Given,
    other: Given,
    more: Seq<real>,
    c: SwarmConfig,
    batch: usize,
    seq: usize,
    i: int,
    f: Functions,
)
    requires
        is_passed(given, c, batch, seq),
        is_passed(other, c, batch, seq),
        0 <= i < batch,
        item(other, i) == item(given, i),
        has_body_of(other, given),
        row(other.weights[21], 0, 0, 0) == plus(row(given.weights[21], 0, 0, 0), more),
    ensures
        training_logits(other, c, batch, seq, f)[i] == plus(
            training_logits(given, c, batch, seq, f)[i],
            more,
        ),
{
    lemma_logits(given, c, batch, seq, f, i);
    lemma_logits(other, c, batch, seq, f, i);
    lemma_same_body(other, given, c);
    lemma_param_size(given, c, batch, seq, 20);
    lemma_param_size(given, c, batch, seq, 21);
    let head = trained_swarm(given, c).action;
    let x = together(
        item(given, i),
        trained_swarm(given, c),
        c.d_model as nat,
        (c.d_model / c.n_heads) as nat,
        f,
    );
    lemma_affine_of_more(x, head, more);
}

} // verus!
