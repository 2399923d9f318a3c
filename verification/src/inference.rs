//! The forward pass of the inference swarm.

use vstd::prelude::*;
use crate::config::{D_MODEL, NUM_BRAINS, NUM_HEADS, NUM_LAYERS, SEQ_LEN};
use crate::forward::{
    attention, attention_of, block, block_of, dense, dense_of, has_added, linear, linear_of,
    matmul, mean, norm, norm_of, slice, softmax, squeeze, sum, unsqueeze,
};
use crate::graph::{naturals, Op, Program, Term};
use crate::model::{inference_attention, AttentionPlan, PlanError};

verus! {

/// Tensors of a layer.
pub const LAYER_TENSORS: usize = 12;

/// Number of the first tensor outside the layers.
pub const FIRST_HEAD: usize = 48;

/// A tensor of a layer, by its place in the order in which they are loaded.
pub open spec fn of_layer(layer: nat, k: nat) -> Term {
    Term::Weight(LAYER_TENSORS as nat * layer + k)
}

/// A tensor outside the layers, by its place in the order in which they are
/// loaded.
pub open spec fn of_head(k: nat) -> Term {
    Term::Weight(FIRST_HEAD as nat + k)
}

/// Attention of every brain over so many rows, added to what it was given and normalized.
pub open spec fn mixed_of(x: Term, layer: nat, s: nat) -> Term {
    let n = NUM_BRAINS as nat;
    let d = D_MODEL as nat;
    let joint = linear_of(x, of_layer(layer, 0), of_layer(layer, 1));
    let mixed = linear_of(
        attention_of(joint, 2, n, s, d, NUM_HEADS as nat, seq![n, s, d]),
        of_layer(layer, 2),
        of_layer(layer, 3),
    );
    norm_of(
        sum(x, mixed),
        2,
        unsqueeze(of_layer(layer, 4), 1),
        unsqueeze(of_layer(layer, 5), 1),
    )
}

/// The feed-forward block of every brain, added to what it was given and
/// normalized.
pub open spec fn fed_of(y: Term, layer: nat) -> Term {
    let z = block_of(
        y,
        of_layer(layer, 6),
        of_layer(layer, 7),
        of_layer(layer, 8),
        of_layer(layer, 9),
    );
    norm_of(sum(y, z), 2, unsqueeze(of_layer(layer, 10), 1), unsqueeze(of_layer(layer, 11), 1))
}

/// A transformer layer of every brain, on so many rows.
pub open spec fn layer_of(x: Term, layer: nat, rows: nat) -> Term {
    fed_of(mixed_of(x, layer, rows), layer)
}

/// The layers below a number, one after the other.
pub open spec fn layers_of(x: Term, count: nat, rows: nat) -> Term
    decreases count,
{
    if count == 0 {
        x
    } else {
        layer_of(layers_of(x, (count - 1) as nat, rows), (count - 1) as nat, rows)
    }
}

/// What each brain makes of the input: the input's rows through its layers,
/// their mean, normalized.
pub open spec fn brains_of(input: Term) -> Term {
    let rows = Term::Repeat(Box::new(unsqueeze(input, 0)), 0, NUM_BRAINS as nat);
    let h = layers_of(
        linear_of(rows, of_head(0), of_head(1)),
        NUM_LAYERS as nat,
        SEQ_LEN as nat,
    );
    norm_of(squeeze(mean(h, 1), 1), 1, of_head(2), of_head(3))
}

/// How much each brain counts, by the last row of the input.
pub open spec fn gate_of(input: Term) -> Term {
    let last = slice(input, 0, (SEQ_LEN - 1) as nat, SEQ_LEN as nat);
    let hidden = Term::Relu(Box::new(dense_of(last, of_head(4), of_head(5))));
    softmax(dense_of(hidden, of_head(6), of_head(7)), 1)
}

/// What the brains make of the input together.
pub open spec fn combined() -> Term {
    matmul(gate_of(Term::Input), brains_of(Term::Input))
}

/// The probabilities of the actions.
pub open spec fn action_of(together: Term) -> Term {
    softmax(dense_of(together, of_head(8), of_head(9)), 1)
}

/// The confidence.
pub open spec fn confidence_of(together: Term) -> Term {
    Term::Sigmoid(Box::new(dense_of(together, of_head(10), of_head(11))))
}

/// A program for the forward pass, and where its results are.
#[derive(Debug)]
pub struct InferencePass {
    pub program: Program,
    pub action: usize,
    pub confidence: usize,
}

fn weight(p: &mut Program, id: usize) -> (place: usize)
    requires
        old(p).wf(),
    ensures
        has_added(old(p).terms(), *final(p), place, Term::Weight(id as nat)),
{
    p.emit(Op::Weight { id })
}

fn turned_weight(p: &mut Program, id: usize) -> (place: usize)
    requires
        old(p).wf(),
    ensures
        has_added(old(p).terms(), *final(p), place, unsqueeze(Term::Weight(id as nat), 1)),
{
    let w: usize = p.emit(Op::Weight { id });
    p.emit(Op::Unsqueeze { a: w, dim: 1 })
}

fn mixed(p: &mut Program, x: usize, l: usize, rows: usize, plan: &AttentionPlan) -> (place: usize)
    requires
        old(p).wf(),
        x < old(p).terms().len(),
        l < NUM_LAYERS,
        plan.wf(),
        plan.divides(NUM_BRAINS, rows, D_MODEL, NUM_HEADS),
    ensures
        has_added(
            old(p).terms(),
            *final(p),
            place,
            mixed_of(old(p).terms()[x as int], l as nat, rows as nat),
        ),
{
    let first: usize = LAYER_TENSORS * l;
    let in_w: usize = weight(p, first);
    let in_b: usize = weight(p, first + 1);
    let joint: usize = linear(p, x, in_w, in_b);
    let out: Vec<usize> = vec![NUM_BRAINS, rows, D_MODEL];
    assert(naturals(out@) =~= seq![NUM_BRAINS as nat, rows as nat, D_MODEL as nat]);
    let attended: usize = attention(p, joint, 2, plan, out);
    let out_w: usize = weight(p, first + 2);
    let out_b: usize = weight(p, first + 3);
    let projected: usize = linear(p, attended, out_w, out_b);
    let more: usize = p.emit(Op::Sum { a: x, b: projected });
    let scale: usize = turned_weight(p, first + 4);
    let shift: usize = turned_weight(p, first + 5);
    norm(p, more, 2, scale, shift)
}

fn fed(p: &mut Program, y: usize, l: usize) -> (place: usize)
    requires
        old(p).wf(),
        y < old(p).terms().len(),
        l < NUM_LAYERS,
    ensures
        has_added(
            old(p).terms(),
            *final(p),
            place,
            fed_of(old(p).terms()[y as int], l as nat),
        ),
{
    let first: usize = LAYER_TENSORS * l;
    let w1: usize = weight(p, first + 6);
    let b1: usize = weight(p, first + 7);
    let w2: usize = weight(p, first + 8);
    let b2: usize = weight(p, first + 9);
    let z: usize = block(p, y, w1, b1, w2, b2);
    let more: usize = p.emit(Op::Sum { a: y, b: z });
    let scale: usize = turned_weight(p, first + 10);
    let shift: usize = turned_weight(p, first + 11);
    norm(p, more, 2, scale, shift)
}

fn brains(p: &mut Program, input: usize) -> (place: usize)
    requires
        old(p).wf(),
        input < old(p).terms().len(),
    ensures
        has_added(old(p).terms(), *final(p), place, brains_of(old(p).terms()[input as int])),
{
    let ghost before = p.terms();
    let plan: AttentionPlan = inference_attention();
    let single: usize = p.emit(Op::Unsqueeze { a: input, dim: 0 });
    let rows: usize = p.emit(Op::Repeat { a: single, dim: 0, times: NUM_BRAINS });
    let w: usize = weight(p, FIRST_HEAD);
    let b: usize = weight(p, FIRST_HEAD + 1);
    let start: usize = linear(p, rows, w, b);
    let ghost first = p.terms()[start as int];
    let mut h: usize = start;
    let mut l: usize = 0;
    while l < NUM_LAYERS
        invariant
            l <= NUM_LAYERS,
            has_added(before, *p, h, layers_of(first, l as nat, SEQ_LEN as nat)),
            plan.wf(),
            plan.divides(NUM_BRAINS, SEQ_LEN, D_MODEL, NUM_HEADS),
        decreases NUM_LAYERS - l,
    {
        let y: usize = mixed(p, h, l, SEQ_LEN, &plan);
        h = fed(p, y, l);
        l = l + 1;
    }
    let mean_row: usize = p.emit(Op::Mean { a: h, dim: 1 });
    let pooled: usize = p.emit(Op::Squeeze { a: mean_row, dim: 1 });
    let scale: usize = weight(p, FIRST_HEAD + 2);
    let shift: usize = weight(p, FIRST_HEAD + 3);
    norm(p, pooled, 1, scale, shift)
}

fn gate(p: &mut Program, input: usize) -> (place: usize)
    requires
        old(p).wf(),
        input < old(p).terms().len(),
    ensures
        has_added(old(p).terms(), *final(p), place, gate_of(old(p).terms()[input as int])),
{
    let last: usize = p.emit(Op::Slice { a: input, dim: 0, start: SEQ_LEN - 1, end: SEQ_LEN });
    let w1: usize = weight(p, FIRST_HEAD + 4);
    let b1: usize = weight(p, FIRST_HEAD + 5);
    let inner: usize = dense(p, last, w1, b1);
    let hidden: usize = p.emit(Op::Relu { a: inner });
    let w2: usize = weight(p, FIRST_HEAD + 6);
    let b2: usize = weight(p, FIRST_HEAD + 7);
    let logits: usize = dense(p, hidden, w2, b2);
    p.emit(Op::Softmax { a: logits, dim: 1 })
}

/// A program for one layer, and where its result is.
#[derive(Debug)]
pub struct LayerPass {
    pub program: Program,
    pub result: usize,
}

/// Writes the program of one layer, for every brain and so many rows.
pub fn layer_pass(layer: usize, rows: usize) -> (result: Result<LayerPass, PlanError>)
    requires
        layer < NUM_LAYERS,
    ensures
        match result {
            Ok(pass) => {
                &&& rows > 0
                &&& pass.program.wf()
                &&& pass.result < pass.program.terms().len()
                &&& pass.program.terms()[pass.result as int] == layer_of(
                    Term::Input,
                    layer as nat,
                    rows as nat,
                )
            },
            Err(error) => rows == 0 && error == PlanError::Empty,
        },
{
    if rows == 0 {
        return Err(PlanError::Empty);
    }
    let plan: AttentionPlan = match AttentionPlan::new(NUM_BRAINS, rows, D_MODEL, NUM_HEADS) {
        Ok(plan) => plan,
        Err(error) => {
            return Err(error);
        },
    };
    let mut program: Program = Program::new();
    let input: usize = program.emit(Op::Input);
    let y: usize = mixed(&mut program, input, layer, rows, &plan);
    let result: usize = fed(&mut program, y, layer);
    Ok(LayerPass { program, result })
}

/// Writes the program of the forward pass.
pub fn inference_pass() -> (pass: InferencePass)
    ensures
        pass.program.wf(),
        pass.action < pass.program.terms().len(),
        pass.confidence < pass.program.terms().len(),
        pass.program.terms()[pass.action as int] == action_of(combined()),
        pass.program.terms()[pass.confidence as int] == confidence_of(combined()),
{
    let mut program: Program = Program::new();
    let input: usize = program.emit(Op::Input);
    let brain_rows: usize = brains(&mut program, input);
    let shares: usize = gate(&mut program, input);
    let together: usize = program.emit(Op::MatMul { a: shares, b: brain_rows });
    let action_w: usize = weight(&mut program, FIRST_HEAD + 8);
    let action_b: usize = weight(&mut program, FIRST_HEAD + 9);
    let logits: usize = dense(&mut program, together, action_w, action_b);
    let action: usize = program.emit(Op::Softmax { a: logits, dim: 1 });
    let conf_w: usize = weight(&mut program, FIRST_HEAD + 10);
    let conf_b: usize = weight(&mut program, FIRST_HEAD + 11);
    let score: usize = dense(&mut program, together, conf_w, conf_b);
    let confidence: usize = program.emit(Op::Sigmoid { a: score });
    InferencePass { program, action, confidence }
}

} // verus!
