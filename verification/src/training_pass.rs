//! The forward pass of the trained swarm, over a batch of sequences.

use vstd::prelude::*;
use crate::config::INPUT_DIM;
use crate::forward::{
    attention, attention_of, block, block_of, dense, dense_of, has_added, linear, linear_of,
    matmul, mean, norm, norm_of, reshape, slice, softmax, squeeze, sum, swap, unsqueeze,
};
use crate::graph::{naturals, Op, Program, Term};
use crate::model::{AttentionPlan, PlanError, SwarmConfig};

verus! {

/// The size of a batch of sequences, and of the swarm that works on it.
pub ghost struct Extent {
    pub n: nat,
    pub b: nat,
    pub s: nat,
    pub d: nat,
    pub heads: nat,
    pub layers: nat,
}

/// The extent of a swarm of a given size on a batch of sequences.
pub open spec fn extent(c: SwarmConfig, batch: usize, seq: usize) -> Extent {
    Extent {
        n: c.n_brains as nat,
        b: batch as nat,
        s: seq as nat,
        d: c.d_model as nat,
        heads: c.n_heads as nat,
        layers: c.n_layers as nat,
    }
}

/// A parameter, by its place among the swarm's.
pub open spec fn param(k: nat) -> Term {
    Term::Weight(k)
}

/// A layer's part of a parameter that is stacked by layer.
pub open spec fn layer_param(k: nat, layer: nat) -> Term {
    squeeze(slice(Term::Weight(k), 0, layer, layer + 1), 0)
}

/// The rows of a batch, for each brain.
pub open spec fn flat(e: Extent) -> Seq<nat> {
    seq![e.n, e.b * e.s, e.d]
}

/// The rows of each sequence of a batch, for each brain.
pub open spec fn by_sequence(e: Extent) -> Seq<nat> {
    seq![e.n, e.b, e.s, e.d]
}

/// One row for each brain.
pub open spec fn by_brain(e: Extent) -> Seq<nat> {
    seq![e.n, 1, 1, e.d]
}

/// Attention of every brain, added to what it was given and normalized.
pub open spec fn mixed_of(h: Term, layer: nat, e: Extent) -> Term {
    let joint = linear_of(reshape(h, flat(e)), layer_param(2, layer), layer_param(3, layer));
    let attended = attention_of(
        reshape(joint, seq![e.n, e.b, e.s, 3 * e.d]),
        3,
        e.n * e.b,
        e.s,
        e.d,
        e.heads,
        flat(e),
    );
    let mixed = linear_of(attended, layer_param(4, layer), layer_param(5, layer));
    norm_of(
        sum(h, reshape(mixed, by_sequence(e))),
        3,
        reshape(layer_param(10, layer), by_brain(e)),
        reshape(layer_param(11, layer), by_brain(e)),
    )
}

/// The feed-forward block of every brain, added to what it was given and
/// normalized.
pub open spec fn fed_of(h: Term, layer: nat, e: Extent) -> Term {
    let z = block_of(
        reshape(h, flat(e)),
        layer_param(6, layer),
        layer_param(7, layer),
        layer_param(8, layer),
        layer_param(9, layer),
    );
    norm_of(
        sum(h, reshape(z, by_sequence(e))),
        3,
        reshape(layer_param(12, layer), by_brain(e)),
        reshape(layer_param(13, layer), by_brain(e)),
    )
}

/// The layers below a number, one after the other.
pub open spec fn layers_of(h: Term, count: nat, e: Extent) -> Term
    decreases count,
{
    if count == 0 {
        h
    } else {
        let l = (count - 1) as nat;
        fed_of(mixed_of(layers_of(h, l, e), l, e), l, e)
    }
}

/// What each brain makes of the input: the input's rows through its layers,
/// their mean over each sequence, normalized.
pub open spec fn brains_of(input: Term, e: Extent) -> Term {
    let rows = Term::Repeat(Box::new(unsqueeze(input, 0)), 0, e.n);
    let first = linear_of(
        reshape(rows, seq![e.n, e.b * e.s, INPUT_DIM as nat]),
        param(0),
        param(1),
    );
    let h = layers_of(reshape(first, by_sequence(e)), e.layers, e);
    norm_of(squeeze(mean(h, 2), 2), 2, unsqueeze(param(14), 1), unsqueeze(param(15), 1))
}

/// How much each brain counts, by the last row of each sequence.
pub open spec fn gate_of(input: Term, e: Extent) -> Term {
    let last = squeeze(slice(input, 1, (e.s - 1) as nat, e.s), 1);
    let hidden = Term::Relu(Box::new(dense_of(last, param(16), param(17))));
    softmax(dense_of(hidden, param(18), param(19)), 1)
}

/// The logits of the actions for each sequence.
pub open spec fn logits_of(input: Term, e: Extent) -> Term {
    let together = squeeze(
        matmul(unsqueeze(gate_of(input, e), 1), swap(brains_of(input, e), 0, 1)),
        1,
    );
    dense_of(together, param(20), param(21))
}

/// A program for the forward pass, and where its result is.
#[derive(Debug)]
pub struct TrainingPass {
    pub program: Program,
    pub logits: usize,
}

/// The sizes that the program is written for.
struct Sizes {
    n: usize,
    b: usize,
    s: usize,
    d: usize,
    rows: usize,
}

impl Sizes {
    spec fn wf(&self, e: Extent) -> bool {
        &&& self.n == e.n
        &&& self.b == e.b
        &&& self.s == e.s
        &&& self.d == e.d
        &&& self.rows == e.b * e.s
    }
}

fn layer_weight(p: &mut Program, k: usize, l: usize) -> (place: usize)
    requires
        old(p).wf(),
        l < usize::MAX,
    ensures
        has_added(old(p).terms(), *final(p), place, layer_param(k as nat, l as nat)),
{
    let all: usize = p.emit(Op::Weight { id: k });
    let one: usize = p.emit(Op::Slice { a: all, dim: 0, start: l, end: l + 1 });
    p.emit(Op::Squeeze { a: one, dim: 0 })
}

fn brain_weight(p: &mut Program, k: usize, l: usize, z: &Sizes, Ghost(e): Ghost<Extent>) -> (place:
    usize)
    requires
        old(p).wf(),
        l < usize::MAX,
        z.wf(e),
    ensures
        has_added(
            old(p).terms(),
            *final(p),
            place,
            reshape(layer_param(k as nat, l as nat), by_brain(e)),
        ),
{
    let w: usize = layer_weight(p, k, l);
    let dims: Vec<usize> = vec![z.n, 1, 1, z.d];
    assert(naturals(dims@) =~= by_brain(e));
    p.emit(Op::Reshape { a: w, dims })
}

fn flattened(p: &mut Program, h: usize, z: &Sizes, Ghost(e): Ghost<Extent>) -> (place: usize)
    requires
        old(p).wf(),
        h < old(p).terms().len(),
        z.wf(e),
    ensures
        has_added(
            old(p).terms(),
            *final(p),
            place,
            reshape(old(p).terms()[h as int], flat(e)),
        ),
{
    let dims: Vec<usize> = vec![z.n, z.rows, z.d];
    assert(naturals(dims@) =~= flat(e));
    p.emit(Op::Reshape { a: h, dims })
}

fn unflattened(p: &mut Program, h: usize, z: &Sizes, Ghost(e): Ghost<Extent>) -> (place: usize)
    requires
        old(p).wf(),
        h < old(p).terms().len(),
        z.wf(e),
    ensures
        has_added(
            old(p).terms(),
            *final(p),
            place,
            reshape(old(p).terms()[h as int], by_sequence(e)),
        ),
{
    let dims: Vec<usize> = vec![z.n, z.b, z.s, z.d];
    assert(naturals(dims@) =~= by_sequence(e));
    p.emit(Op::Reshape { a: h, dims })
}

fn mixed(
    p: &mut Program,
    h: usize,
    l: usize,
    z: &Sizes,
    plan: &AttentionPlan,
    Ghost(e): Ghost<Extent>,
) -> (place: usize)
    requires
        old(p).wf(),
        h < old(p).terms().len(),
        l < usize::MAX,
        z.wf(e),
        plan.wf(),
        plan.split@[0] == e.n * e.b,
        plan.split@[1] == e.s,
        plan.queries.1 == e.d,
        plan.split@[2] == e.heads,
    ensures
        has_added(
            old(p).terms(),
            *final(p),
            place,
            mixed_of(old(p).terms()[h as int], l as nat, e),
        ),
{
    let rows: usize = flattened(p, h, z, Ghost(e));
    let in_w: usize = layer_weight(p, 2, l);
    let in_b: usize = layer_weight(p, 3, l);
    let joint: usize = linear(p, rows, in_w, in_b);
    let wide: Vec<usize> = vec![z.n, z.b, z.s, plan.values.1];
    assert(naturals(wide@) =~= seq![e.n, e.b, e.s, 3 * e.d]);
    let by_seq: usize = p.emit(Op::Reshape { a: joint, dims: wide });
    let out: Vec<usize> = vec![z.n, z.rows, z.d];
    assert(naturals(out@) =~= flat(e));
    let attended: usize = attention(p, by_seq, 3, plan, out);
    let out_w: usize = layer_weight(p, 4, l);
    let out_b: usize = layer_weight(p, 5, l);
    let projected: usize = linear(p, attended, out_w, out_b);
    let back: usize = unflattened(p, projected, z, Ghost(e));
    let more: usize = p.emit(Op::Sum { a: h, b: back });
    let scale: usize = brain_weight(p, 10, l, z, Ghost(e));
    let shift: usize = brain_weight(p, 11, l, z, Ghost(e));
    norm(p, more, 3, scale, shift)
}

fn fed(p: &mut Program, h: usize, l: usize, z: &Sizes, Ghost(e): Ghost<Extent>) -> (place: usize)
    requires
        old(p).wf(),
        h < old(p).terms().len(),
        l < usize::MAX,
        z.wf(e),
    ensures
        has_added(
            old(p).terms(),
            *final(p),
            place,
            fed_of(old(p).terms()[h as int], l as nat, e),
        ),
{
    let rows: usize = flattened(p, h, z, Ghost(e));
    let w1: usize = layer_weight(p, 6, l);
    let b1: usize = layer_weight(p, 7, l);
    let w2: usize = layer_weight(p, 8, l);
    let b2: usize = layer_weight(p, 9, l);
    let out: usize = block(p, rows, w1, b1, w2, b2);
    let back: usize = unflattened(p, out, z, Ghost(e));
    let more: usize = p.emit(Op::Sum { a: h, b: back });
    let scale: usize = brain_weight(p, 12, l, z, Ghost(e));
    let shift: usize = brain_weight(p, 13, l, z, Ghost(e));
    norm(p, more, 3, scale, shift)
}

fn weight(p: &mut Program, id: usize) -> (place: usize)
    requires
        old(p).wf(),
    ensures
        has_added(old(p).terms(), *final(p), place, param(id as nat)),
{
    p.emit(Op::Weight { id })
}

fn brains(
    p: &mut Program,
    input: usize,
    z: &Sizes,
    layers: usize,
    plan: &Option<AttentionPlan>,
    Ghost(e): Ghost<Extent>,
) -> (place: usize)
    requires
        old(p).wf(),
        input < old(p).terms().len(),
        z.wf(e),
        layers == e.layers,
        layers > 0 ==> plan is Some,
        plan matches Some(plan) ==> plan.wf() && plan.split@[0] == e.n * e.b && plan.split@[1]
            == e.s && plan.queries.1 == e.d && plan.split@[2] == e.heads,
    ensures
        has_added(old(p).terms(), *final(p), place, brains_of(old(p).terms()[input as int], e)),
{
    let ghost before = p.terms();
    let single: usize = p.emit(Op::Unsqueeze { a: input, dim: 0 });
    let each: usize = p.emit(Op::Repeat { a: single, dim: 0, times: z.n });
    let dims: Vec<usize> = vec![z.n, z.rows, INPUT_DIM];
    assert(naturals(dims@) =~= seq![e.n, e.b * e.s, INPUT_DIM as nat]);
    let rows: usize = p.emit(Op::Reshape { a: each, dims });
    let w: usize = weight(p, 0);
    let b: usize = weight(p, 1);
    let start: usize = linear(p, rows, w, b);
    let mut h: usize = unflattened(p, start, z, Ghost(e));
    let ghost first = p.terms()[h as int];
    if let Some(plan) = plan {
        let mut l: usize = 0;
        while l < layers
            invariant
                l <= layers,
                layers == e.layers,
                has_added(before, *p, h, layers_of(first, l as nat, e)),
                z.wf(e),
                plan.wf(),
                plan.split@[0] == e.n * e.b,
                plan.split@[1] == e.s,
                plan.queries.1 == e.d,
                plan.split@[2] == e.heads,
            decreases layers - l,
        {
            let y: usize = mixed(p, h, l, z, plan, Ghost(e));
            h = fed(p, y, l, z, Ghost(e));
            l = l + 1;
        }
    }
    let mean_row: usize = p.emit(Op::Mean { a: h, dim: 2 });
    let pooled: usize = p.emit(Op::Squeeze { a: mean_row, dim: 2 });
    let scale_w: usize = weight(p, 14);
    let scale: usize = p.emit(Op::Unsqueeze { a: scale_w, dim: 1 });
    let shift_w: usize = weight(p, 15);
    let shift: usize = p.emit(Op::Unsqueeze { a: shift_w, dim: 1 });
    norm(p, pooled, 2, scale, shift)
}

fn gate(p: &mut Program, input: usize, s: usize, Ghost(e): Ghost<Extent>) -> (place: usize)
    requires
        old(p).wf(),
        input < old(p).terms().len(),
        s == e.s,
        s > 0,
    ensures
        has_added(old(p).terms(), *final(p), place, gate_of(old(p).terms()[input as int], e)),
{
    let row: usize = p.emit(Op::Slice { a: input, dim: 1, start: s - 1, end: s });
    let last: usize = p.emit(Op::Squeeze { a: row, dim: 1 });
    let w1: usize = weight(p, 16);
    let b1: usize = weight(p, 17);
    let inner: usize = dense(p, last, w1, b1);
    let hidden: usize = p.emit(Op::Relu { a: inner });
    let w2: usize = weight(p, 18);
    let b2: usize = weight(p, 19);
    let logits: usize = dense(p, hidden, w2, b2);
    p.emit(Op::Softmax { a: logits, dim: 1 })
}

/// Whether the pass has nothing to work on or with.
pub open spec fn is_empty(c: SwarmConfig, batch: usize, seq: usize) -> bool {
    batch == 0 || seq == 0 || c.n_brains == 0 || c.d_model == 0
}

/// Whether some dimension of the pass does not fit a `usize`.
pub open spec fn too_large(c: SwarmConfig, batch: usize, seq: usize) -> bool {
    ||| batch * seq > usize::MAX
    ||| c.n_layers > 0 && (c.n_brains * batch > usize::MAX || 3 * c.d_model > usize::MAX
        || c.n_brains * batch * c.n_heads > usize::MAX)
}

/// Writes the program of the forward pass for a batch of sequences.
pub fn training_pass(c: &SwarmConfig, batch: usize, seq: usize) -> (result: Result<
    TrainingPass,
    PlanError,
>)
    ensures
        match result {
            Err(PlanError::NoHeads) => c.n_heads == 0,
            Err(PlanError::Empty) => c.n_heads > 0 && is_empty(*c, batch, seq),
            Err(PlanError::UnevenHeads) => c.n_heads > 0 && !is_empty(*c, batch, seq) && c.n_layers > 0 && c.d_model
                % c.n_heads != 0,
            Err(PlanError::TooLarge) => c.n_heads > 0 && !is_empty(*c, batch, seq) && (c.n_layers > 0 ==> c.d_model
                % c.n_heads == 0) && too_large(*c, batch, seq),
            Ok(pass) => {
                &&& c.n_heads > 0
                &&& !is_empty(*c, batch, seq)
                &&& c.n_layers > 0 ==> c.d_model % c.n_heads == 0
                &&& !too_large(*c, batch, seq)
                &&& pass.program.wf()
                &&& pass.logits < pass.program.terms().len()
                &&& pass.program.terms()[pass.logits as int] == logits_of(
                    Term::Input,
                    extent(*c, batch, seq),
                )
            },
        },
{
    if c.n_heads == 0 {
        return Err(PlanError::NoHeads);
    }
    if batch == 0 || seq == 0 || c.n_brains == 0 || c.d_model == 0 {
        return Err(PlanError::Empty);
    }
    let plan: Option<AttentionPlan> = if c.n_layers > 0 {
        if c.d_model % c.n_heads != 0 {
            return Err(PlanError::UnevenHeads);
        }
        let groups: usize = match c.n_brains.checked_mul(batch) {
            Some(groups) => groups,
            None => {
                return Err(PlanError::TooLarge);
            },
        };
        match AttentionPlan::new(groups, seq, c.d_model, c.n_heads) {
            Ok(plan) => Some(plan),
            Err(error) => {
                return Err(error);
            },
        }
    } else {
        None
    };
    let rows: usize = match batch.checked_mul(seq) {
        Some(rows) => rows,
        None => {
            return Err(PlanError::TooLarge);
        },
    };
    let ghost e = extent(*c, batch, seq);
    let sizes: Sizes = Sizes { n: c.n_brains, b: batch, s: seq, d: c.d_model, rows };
    let mut program: Program = Program::new();
    let input: usize = program.emit(Op::Input);
    let brain_rows: usize = brains(&mut program, input, &sizes, c.n_layers, &plan, Ghost(e));
    let by_seq: usize = program.emit(Op::Swap { a: brain_rows, i: 0, j: 1 });
    let shares: usize = gate(&mut program, input, seq, Ghost(e));
    let wide: usize = program.emit(Op::Unsqueeze { a: shares, dim: 1 });
    let product: usize = program.emit(Op::MatMul { a: wide, b: by_seq });
    let together: usize = program.emit(Op::Squeeze { a: product, dim: 1 });
    let w: usize = weight(&mut program, 20);
    let b: usize = weight(&mut program, 21);
    let logits: usize = dense(&mut program, together, w, b);
    Ok(TrainingPass { program, logits })
}

/// A pass is refused for want of something exactly where there are no sequences,
/// no time steps, no brains or no width; and as too large only where the rows of
/// the batch, the joint projection or the heads of all brains and sequences are
/// more than a `usize` can count.
pub proof fn law_passes_are_refused_for_their_size(c: SwarmConfig, batch: usize, seq: usize)
    ensures
        is_empty(c, batch, seq) <==> batch == 0 || seq == 0 || c.n_brains == 0 || c.d_model == 0,
        c.n_heads > 0 ==> (too_large(c, batch, seq) <==> batch * seq > usize::MAX || (c.n_layers > 0
            && (3 * c.d_model > usize::MAX || c.n_brains * batch * c.n_heads > usize::MAX))),
{
    if c.n_heads > 0 {
        let groups = c.n_brains * batch;
        let heads = c.n_heads as int;
        assert(groups <= groups * heads) by (nonlinear_arith)
            requires
                heads >= 1,
                groups >= 0,
        ;
    }
}

} // verus!
