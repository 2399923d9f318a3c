//! Training and inference compute the same model.

use vstd::prelude::*;
use crate::config::{NUM_BRAINS, NUM_LAYERS, SEQ_LEN};
use crate::inference_values::{
    head_tensor, law_inference_computes_the_model, layer_tensor, lemma_head_tensor,
    lemma_layer_tensor, loaded_brain, loaded_layer, loaded_swarm,
};
use crate::model::inference_config;
use crate::swarm_laws::{is_loaded, probabilities, sequence};
use crate::tensor::{matrix, row, softmax_of, sliced, squeezed, At, Functions, Given, Tensor};
use crate::training_laws::{is_passed, item, lemma_logits, training_logits};
use crate::training_values::{lemma_param_size, trained_brain, trained_layer, trained_swarm};

verus! {

/// Whether a place lies within dimensions.
pub open spec fn is_within(i: At, dims: At) -> bool {
    0 <= i.a < dims.a && 0 <= i.b < dims.b && 0 <= i.c < dims.c && 0 <= i.d < dims.d
}

/// Whether two tensors have the same dimensions and the same numbers.
pub open spec fn has_values_of(x: Tensor, y: Tensor) -> bool {
    &&& x.rank == y.rank
    &&& x.dims == y.dims
    &&& forall|i: At| is_within(i, x.dims) ==> #[trigger] (x.at)(i) == (y.at)(i)
}

/// One layer's part of a stacked tensor.
pub open spec fn layer_part(x: Tensor, layer: nat) -> Tensor {
    squeezed(sliced(x, 0, layer, layer + 1), 0)
}

/// The number of the parameter in which a tensor of a layer is stacked.
pub open spec fn stacked_in(k: int) -> int {
    if k < 4 {
        k + 2
    } else if k < 6 {
        k + 6
    } else if k < 10 {
        k
    } else {
        k + 2
    }
}

/// The number of the parameter that a tensor outside the layers is.
pub open spec fn parameter_of(k: int) -> int {
    if k < 2 {
        k
    } else {
        k + 12
    }
}

/// Whether the tensors that inference loads are the parameters that were trained.
pub open spec fn is_export_of(loaded: Given, trained: Given) -> bool {
    &&& forall|layer: nat, k: int|
        layer < NUM_LAYERS && 0 <= k < 12 ==> has_values_of(
            #[trigger] layer_tensor(loaded, layer as int, k),
            layer_part(trained.weights[stacked_in(k)], layer),
        )
    &&& forall|k: int|
        0 <= k < 12 ==> has_values_of(
            #[trigger] head_tensor(loaded, k),
            trained.weights[parameter_of(k)],
        )
}

proof fn lemma_same_row(x: Tensor, y: Tensor, a: int, b: int, c: int)
    requires
        has_values_of(x, y),
        0 <= a < x.dims.a,
        0 <= b < x.dims.b,
        0 <= c < x.dims.c,
        0 <= x.dims.d,
    ensures
        row(x, a, b, c) == row(y, a, b, c),
{
    assert forall|k: int| 0 <= k < x.dims.d implies #[trigger] row(x, a, b, c)[k] == row(
        y,
        a,
        b,
        c,
    )[k] by {
        assert(is_within(At { a, b, c, d: k }, x.dims));
    }
    assert(row(x, a, b, c) =~= row(y, a, b, c));
}

proof fn lemma_same_matrix(x: Tensor, y: Tensor, a: int, b: int)
    requires
        has_values_of(x, y),
        0 <= a < x.dims.a,
        0 <= b < x.dims.b,
        0 <= x.dims.c,
        0 <= x.dims.d,
    ensures
        matrix(x, a, b) == matrix(y, a, b),
{
    assert forall|i: int| 0 <= i < x.dims.c implies #[trigger] matrix(x, a, b)[i] == matrix(
        y,
        a,
        b,
    )[i] by {
        lemma_same_row(x, y, a, b, i);
    }
    assert(matrix(x, a, b) =~= matrix(y, a, b));
}

proof fn lemma_part_of_matrices(x: Tensor, layer: nat, b: int)
    requires
        x.rank == 4,
        x.dims.c >= 0,
        x.dims.d >= 0,
    ensures
        matrix(layer_part(x, layer), 0, b) == matrix(x, layer as int, b),
{
    let y = layer_part(x, layer);
    assert forall|i: int| 0 <= i < x.dims.c implies #[trigger] matrix(y, 0, b)[i] == matrix(
        x,
        layer as int,
        b,
    )[i] by {
        assert(row(y, 0, b, i) =~= row(x, layer as int, b, i));
    }
    assert(matrix(y, 0, b) =~= matrix(x, layer as int, b));
}

proof fn lemma_part_of_rows(x: Tensor, layer: nat, c: int)
    requires
        x.rank == 3,
        x.dims.d >= 0,
    ensures
        row(layer_part(x, layer), 0, 0, c) == row(x, 0, layer as int, c),
{
    assert(row(layer_part(x, layer), 0, 0, c) =~= row(x, 0, layer as int, c));
}

proof fn lemma_exported_matrix(loaded: Given, trained: Given, layer: nat, k: int, brain: int)
    requires
        is_export_of(loaded, trained),
        layer < NUM_LAYERS,
        0 <= k < 12,
        layer_tensor(loaded, layer as int, k).rank == 3,
        layer_tensor(loaded, layer as int, k).dims.a == 1,
        layer_tensor(loaded, layer as int, k).dims.b == NUM_BRAINS,
        layer_tensor(loaded, layer as int, k).dims.c >= 0,
        layer_tensor(loaded, layer as int, k).dims.d >= 0,
        trained.weights[stacked_in(k)].rank == 4,
        0 <= brain < NUM_BRAINS,
    ensures
        matrix(layer_tensor(loaded, layer as int, k), 0, brain) == matrix(
            trained.weights[stacked_in(k)],
            layer as int,
            brain,
        ),
{
    let x = layer_tensor(loaded, layer as int, k);
    let all = trained.weights[stacked_in(k)];
    lemma_same_matrix(x, layer_part(all, layer), 0, brain);
    lemma_part_of_matrices(all, layer, brain);
}

proof fn lemma_exported_row(loaded: Given, trained: Given, layer: nat, k: int, brain: int)
    requires
        is_export_of(loaded, trained),
        layer < NUM_LAYERS,
        0 <= k < 12,
        layer_tensor(loaded, layer as int, k).rank == 2,
        layer_tensor(loaded, layer as int, k).dims.a == 1,
        layer_tensor(loaded, layer as int, k).dims.b == 1,
        layer_tensor(loaded, layer as int, k).dims.c == NUM_BRAINS,
        layer_tensor(loaded, layer as int, k).dims.d >= 0,
        trained.weights[stacked_in(k)].rank == 3,
        0 <= brain < NUM_BRAINS,
    ensures
        row(layer_tensor(loaded, layer as int, k), 0, 0, brain) == row(
            trained.weights[stacked_in(k)],
            0,
            layer as int,
            brain,
        ),
{
    let x = layer_tensor(loaded, layer as int, k);
    let all = trained.weights[stacked_in(k)];
    lemma_same_row(x, layer_part(all, layer), 0, 0, brain);
    lemma_part_of_rows(all, layer, brain);
}

proof fn lemma_same_layer(loaded: Given, trained: Given, layer: nat, brain: int)
    requires
        is_loaded(loaded),
        is_passed(trained, inference_config(), 1, SEQ_LEN),
        is_export_of(loaded, trained),
        layer < NUM_LAYERS,
        0 <= brain < NUM_BRAINS,
    ensures
        loaded_layer(loaded, layer as int, brain) == trained_layer(trained, layer as int, brain),
{
    let c = inference_config();
    let l = layer as int;
    lemma_layer_tensor(loaded, layer, 0);
    lemma_layer_tensor(loaded, layer, 1);
    lemma_layer_tensor(loaded, layer, 2);
    lemma_layer_tensor(loaded, layer, 3);
    lemma_layer_tensor(loaded, layer, 4);
    lemma_layer_tensor(loaded, layer, 5);
    lemma_layer_tensor(loaded, layer, 6);
    lemma_layer_tensor(loaded, layer, 7);
    lemma_layer_tensor(loaded, layer, 8);
    lemma_layer_tensor(loaded, layer, 9);
    lemma_layer_tensor(loaded, layer, 10);
    lemma_layer_tensor(loaded, layer, 11);
    lemma_param_size(trained, c, 1, SEQ_LEN, 2);
    lemma_param_size(trained, c, 1, SEQ_LEN, 3);
    lemma_param_size(trained, c, 1, SEQ_LEN, 4);
    lemma_param_size(trained, c, 1, SEQ_LEN, 5);
    lemma_param_size(trained, c, 1, SEQ_LEN, 6);
    lemma_param_size(trained, c, 1, SEQ_LEN, 7);
    lemma_param_size(trained, c, 1, SEQ_LEN, 8);
    lemma_param_size(trained, c, 1, SEQ_LEN, 9);
    lemma_param_size(trained, c, 1, SEQ_LEN, 10);
    lemma_param_size(trained, c, 1, SEQ_LEN, 11);
    lemma_param_size(trained, c, 1, SEQ_LEN, 12);
    lemma_param_size(trained, c, 1, SEQ_LEN, 13);
    lemma_exported_matrix(loaded, trained, layer, 0, brain);
    lemma_exported_matrix(loaded, trained, layer, 2, brain);
    lemma_exported_matrix(loaded, trained, layer, 6, brain);
    lemma_exported_matrix(loaded, trained, layer, 8, brain);
    lemma_exported_row(loaded, trained, layer, 1, brain);
    lemma_exported_row(loaded, trained, layer, 3, brain);
    lemma_exported_row(loaded, trained, layer, 4, brain);
    lemma_exported_row(loaded, trained, layer, 5, brain);
    lemma_exported_row(loaded, trained, layer, 7, brain);
    lemma_exported_row(loaded, trained, layer, 9, brain);
    lemma_exported_row(loaded, trained, layer, 10, brain);
    lemma_exported_row(loaded, trained, layer, 11, brain);
    assert(loaded_layer(loaded, l, brain) == trained_layer(trained, l, brain));
}

/// The weights of the swarm that inference loads are those that were trained.
proof fn lemma_same_swarm(loaded: Given, trained: Given)
    requires
        is_loaded(loaded),
        is_passed(trained, inference_config(), 1, SEQ_LEN),
        is_export_of(loaded, trained),
    ensures
        loaded_swarm(loaded) == trained_swarm(trained, inference_config()),
{
    let c = inference_config();
    let a = loaded_swarm(loaded);
    let b = trained_swarm(trained, c);
    lemma_head_tensor(loaded, 0);
    lemma_head_tensor(loaded, 1);
    lemma_head_tensor(loaded, 2);
    lemma_head_tensor(loaded, 3);
    lemma_head_tensor(loaded, 4);
    lemma_head_tensor(loaded, 5);
    lemma_head_tensor(loaded, 6);
    lemma_head_tensor(loaded, 7);
    lemma_head_tensor(loaded, 8);
    lemma_head_tensor(loaded, 9);
    assert forall|n: int| 0 <= n < NUM_BRAINS implies #[trigger] a.brains[n] == b.brains[n] by {
        let x = loaded_brain(loaded, n);
        let y = trained_brain(trained, c.n_layers as nat, n);
        assert forall|l: int| 0 <= l < NUM_LAYERS implies #[trigger] x.layers[l] == y.layers[l] by {
            lemma_same_layer(loaded, trained, l as nat, n);
        }
        assert(x.layers =~= y.layers);
        lemma_same_matrix(head_tensor(loaded, 0), trained.weights[0], 0, n);
        lemma_same_row(head_tensor(loaded, 1), trained.weights[1], 0, 0, n);
        lemma_same_row(head_tensor(loaded, 2), trained.weights[14], 0, 0, n);
        lemma_same_row(head_tensor(loaded, 3), trained.weights[15], 0, 0, n);
    }
    assert(a.brains =~= b.brains);
    lemma_same_matrix(head_tensor(loaded, 4), trained.weights[16], 0, 0);
    lemma_same_row(head_tensor(loaded, 5), trained.weights[17], 0, 0, 0);
    lemma_same_matrix(head_tensor(loaded, 6), trained.weights[18], 0, 0);
    lemma_same_row(head_tensor(loaded, 7), trained.weights[19], 0, 0, 0);
    lemma_same_matrix(head_tensor(loaded, 8), trained.weights[20], 0, 0);
    lemma_same_row(head_tensor(loaded, 9), trained.weights[21], 0, 0, 0);
}

/// Inference computes the function that was trained: on the weights of a swarm of
/// its size, and on a sequence as a batch of one, its probabilities are the
/// softmax of the logits that training computes.
pub proof fn law_inference_computes_what_was_trained(loaded: Given, trained: Given, f: Functions)
    requires
        is_loaded(loaded),
        is_passed(trained, inference_config(), 1, SEQ_LEN),
        is_export_of(loaded, trained),
        item(trained, 0) == sequence(loaded),
    ensures
        probabilities(loaded, f) == softmax_of(
            training_logits(trained, inference_config(), 1, SEQ_LEN, f)[0],
            f,
        ),
{
    lemma_same_swarm(loaded, trained);
    law_inference_computes_the_model(loaded, f);
    lemma_logits(trained, inference_config(), 1, SEQ_LEN, f, 0);
}

} // verus!
