//! The shape of the trained swarm: its parameters, how they start, and how
//! attention divides them.

use vstd::arithmetic::overflow::CheckedUsize;
use vstd::prelude::*;
use crate::archive::{law_sizes_multiply, size_of};
use crate::config::{
    D_MODEL, FFN_DIM, HEAD_DIM, INPUT_DIM, NUM_BRAINS, NUM_CLASSES, NUM_HEADS, NUM_LAYERS, SEQ_LEN,
};
use crate::weights::{head_specs, layer_specs};

verus! {

/// The size of a swarm.
#[derive(Clone, Copy, Debug)]
pub struct SwarmConfig {
    pub n_brains: usize,
    pub d_model: usize,
    pub n_heads: usize,
    pub n_layers: usize,
    pub ffn_dim: usize,
    pub n_classes: usize,
}

/// How a parameter starts: drawn from a normal distribution around zero whose
/// deviation is the inverse square root of the inputs, or with one value.
#[derive(Clone, Copy, Debug)]
pub enum Init {
    Normal { fan_in: usize },
    Zeros,
    Ones,
}

/// The shape of a parameter, and how it starts.
#[derive(Debug)]
pub struct ParamPlan {
    pub dims: Vec<usize>,
    pub init: Init,
}

impl View for ParamPlan {
    type V = (Seq<usize>, Init);

    open spec fn view(&self) -> (Seq<usize>, Init) {
        (self.dims@, self.init)
    }
}

/// The parameters of a swarm of a given size.
pub open spec fn param_specs(c: SwarmConfig) -> Seq<(Seq<usize>, Init)> {
    seq![
        (seq![c.n_brains, c.d_model, INPUT_DIM], Init::Normal { fan_in: INPUT_DIM }),
        (seq![c.n_brains, c.d_model], Init::Zeros),
        (seq![c.n_layers, c.n_brains, (3 * c.d_model) as usize, c.d_model], Init::Normal { fan_in: c.d_model }),
        (seq![c.n_layers, c.n_brains, (3 * c.d_model) as usize], Init::Zeros),
        (seq![c.n_layers, c.n_brains, c.d_model, c.d_model], Init::Normal { fan_in: c.d_model }),
        (seq![c.n_layers, c.n_brains, c.d_model], Init::Zeros),
        (seq![c.n_layers, c.n_brains, c.ffn_dim, c.d_model], Init::Normal { fan_in: c.d_model }),
        (seq![c.n_layers, c.n_brains, c.ffn_dim], Init::Zeros),
        (seq![c.n_layers, c.n_brains, c.d_model, c.ffn_dim], Init::Normal { fan_in: c.ffn_dim }),
        (seq![c.n_layers, c.n_brains, c.d_model], Init::Zeros),
        (seq![c.n_layers, c.n_brains, c.d_model], Init::Ones),
        (seq![c.n_layers, c.n_brains, c.d_model], Init::Zeros),
        (seq![c.n_layers, c.n_brains, c.d_model], Init::Ones),
        (seq![c.n_layers, c.n_brains, c.d_model], Init::Zeros),
        (seq![c.n_brains, c.d_model], Init::Ones),
        (seq![c.n_brains, c.d_model], Init::Zeros),
        (seq![c.d_model, INPUT_DIM], Init::Normal { fan_in: INPUT_DIM }),
        (seq![c.d_model], Init::Zeros),
        (seq![c.n_brains, c.d_model], Init::Normal { fan_in: c.d_model }),
        (seq![c.n_brains], Init::Zeros),
        (seq![c.n_classes, c.d_model], Init::Normal { fan_in: c.d_model }),
        (seq![c.n_classes], Init::Zeros),
        (seq![1usize, c.d_model], Init::Normal { fan_in: c.d_model }),
        (seq![1usize], Init::Zeros),
    ]
}

/// The parameters of a swarm, and its size.
#[derive(Debug)]
pub struct BatchedBrainSwarm {
    pub input_proj_w: ParamPlan,
    pub input_proj_b: ParamPlan,
    pub attn_in_w: ParamPlan,
    pub attn_in_b: ParamPlan,
    pub attn_out_w: ParamPlan,
    pub attn_out_b: ParamPlan,
    pub ffn_w1: ParamPlan,
    pub ffn_b1: ParamPlan,
    pub ffn_w2: ParamPlan,
    pub ffn_b2: ParamPlan,
    pub ln1_w: ParamPlan,
    pub ln1_b: ParamPlan,
    pub ln2_w: ParamPlan,
    pub ln2_b: ParamPlan,
    pub final_ln_w: ParamPlan,
    pub final_ln_b: ParamPlan,
    pub gate_w1: ParamPlan,
    pub gate_b1: ParamPlan,
    pub gate_w2: ParamPlan,
    pub gate_b2: ParamPlan,
    pub action_w: ParamPlan,
    pub action_b: ParamPlan,
    pub conf_w: ParamPlan,
    pub conf_b: ParamPlan,
    pub config: SwarmConfig,
}

impl BatchedBrainSwarm {
    /// The parameters, in the order of their fields.
    pub open spec fn params(&self) -> Seq<(Seq<usize>, Init)> {
        seq![
            self.input_proj_w@,
            self.input_proj_b@,
            self.attn_in_w@,
            self.attn_in_b@,
            self.attn_out_w@,
            self.attn_out_b@,
            self.ffn_w1@,
            self.ffn_b1@,
            self.ffn_w2@,
            self.ffn_b2@,
            self.ln1_w@,
            self.ln1_b@,
            self.ln2_w@,
            self.ln2_b@,
            self.final_ln_w@,
            self.final_ln_b@,
            self.gate_w1@,
            self.gate_b1@,
            self.gate_w2@,
            self.gate_b2@,
            self.action_w@,
            self.action_b@,
            self.conf_w@,
            self.conf_b@,
        ]
    }

    /// Lays out the parameters of a swarm.
    pub fn new(c: SwarmConfig) -> (swarm: Self)
        requires
            3 * c.d_model <= usize::MAX,
        ensures
            swarm.params() == param_specs(c),
            swarm.config == c,
    {
        let swarm: BatchedBrainSwarm = BatchedBrainSwarm {
            input_proj_w: ParamPlan { dims: vec![c.n_brains, c.d_model, INPUT_DIM], init: Init::Normal { fan_in: INPUT_DIM } },
            input_proj_b: ParamPlan { dims: vec![c.n_brains, c.d_model], init: Init::Zeros },
            attn_in_w: ParamPlan { dims: vec![c.n_layers, c.n_brains, 3 * c.d_model, c.d_model], init: Init::Normal { fan_in: c.d_model } },
            attn_in_b: ParamPlan { dims: vec![c.n_layers, c.n_brains, 3 * c.d_model], init: Init::Zeros },
            attn_out_w: ParamPlan { dims: vec![c.n_layers, c.n_brains, c.d_model, c.d_model], init: Init::Normal { fan_in: c.d_model } },
            attn_out_b: ParamPlan { dims: vec![c.n_layers, c.n_brains, c.d_model], init: Init::Zeros },
            ffn_w1: ParamPlan { dims: vec![c.n_layers, c.n_brains, c.ffn_dim, c.d_model], init: Init::Normal { fan_in: c.d_model } },
            ffn_b1: ParamPlan { dims: vec![c.n_layers, c.n_brains, c.ffn_dim], init: Init::Zeros },
            ffn_w2: ParamPlan { dims: vec![c.n_layers, c.n_brains, c.d_model, c.ffn_dim], init: Init::Normal { fan_in: c.ffn_dim } },
            ffn_b2: ParamPlan { dims: vec![c.n_layers, c.n_brains, c.d_model], init: Init::Zeros },
            ln1_w: ParamPlan { dims: vec![c.n_layers, c.n_brains, c.d_model], init: Init::Ones },
            ln1_b: ParamPlan { dims: vec![c.n_layers, c.n_brains, c.d_model], init: Init::Zeros },
            ln2_w: ParamPlan { dims: vec![c.n_layers, c.n_brains, c.d_model], init: Init::Ones },
            ln2_b: ParamPlan { dims: vec![c.n_layers, c.n_brains, c.d_model], init: Init::Zeros },
            final_ln_w: ParamPlan { dims: vec![c.n_brains, c.d_model], init: Init::Ones },
            final_ln_b: ParamPlan { dims: vec![c.n_brains, c.d_model], init: Init::Zeros },
            gate_w1: ParamPlan { dims: vec![c.d_model, INPUT_DIM], init: Init::Normal { fan_in: INPUT_DIM } },
            gate_b1: ParamPlan { dims: vec![c.d_model], init: Init::Zeros },
            gate_w2: ParamPlan { dims: vec![c.n_brains, c.d_model], init: Init::Normal { fan_in: c.d_model } },
            gate_b2: ParamPlan { dims: vec![c.n_brains], init: Init::Zeros },
            action_w: ParamPlan { dims: vec![c.n_classes, c.d_model], init: Init::Normal { fan_in: c.d_model } },
            action_b: ParamPlan { dims: vec![c.n_classes], init: Init::Zeros },
            conf_w: ParamPlan { dims: vec![1, c.d_model], init: Init::Normal { fan_in: c.d_model } },
            conf_b: ParamPlan { dims: vec![1], init: Init::Zeros },
            config: c,
        };
        assert(swarm.params() =~~= param_specs(c));
        swarm
    }
}

/// The size at which the inference swarm runs.
pub open spec fn inference_config() -> SwarmConfig {
    SwarmConfig {
        n_brains: NUM_BRAINS,
        d_model: D_MODEL,
        n_heads: NUM_HEADS,
        n_layers: NUM_LAYERS,
        ffn_dim: FFN_DIM,
        n_classes: NUM_CLASSES,
    }
}

/// A swarm that is trained at the size of the inference swarm has exactly the
/// shapes that inference loads: the tensors outside the layers one for one,
/// and those of the layers stacked, one slice for each layer.
pub proof fn law_training_shapes_fit_inference(layer: nat)
    requires
        layer < NUM_LAYERS,
    ensures
        ({
            let params = param_specs(inference_config());
            &&& params[2].0 == seq![NUM_LAYERS] + layer_specs(layer)[0].1
            &&& params[3].0 == seq![NUM_LAYERS] + layer_specs(layer)[1].1
            &&& params[4].0 == seq![NUM_LAYERS] + layer_specs(layer)[2].1
            &&& params[5].0 == seq![NUM_LAYERS] + layer_specs(layer)[3].1
            &&& params[10].0 == seq![NUM_LAYERS] + layer_specs(layer)[4].1
            &&& params[11].0 == seq![NUM_LAYERS] + layer_specs(layer)[5].1
            &&& params[6].0 == seq![NUM_LAYERS] + layer_specs(layer)[6].1
            &&& params[7].0 == seq![NUM_LAYERS] + layer_specs(layer)[7].1
            &&& params[8].0 == seq![NUM_LAYERS] + layer_specs(layer)[8].1
            &&& params[9].0 == seq![NUM_LAYERS] + layer_specs(layer)[9].1
            &&& params[12].0 == seq![NUM_LAYERS] + layer_specs(layer)[10].1
            &&& params[13].0 == seq![NUM_LAYERS] + layer_specs(layer)[11].1
            &&& params[0].0 == head_specs()[0].1
            &&& params[1].0 == head_specs()[1].1
            &&& params[14].0 == head_specs()[2].1
            &&& params[15].0 == head_specs()[3].1
            &&& params[16].0 == head_specs()[4].1
            &&& params[17].0 == head_specs()[5].1
            &&& params[18].0 == head_specs()[6].1
            &&& params[19].0 == head_specs()[7].1
            &&& params[20].0 == head_specs()[8].1
            &&& params[21].0 == head_specs()[9].1
            &&& params[22].0 == head_specs()[10].1
            &&& params[23].0 == head_specs()[11].1
        }),
{
    let params = param_specs(inference_config());
    assert(params[2].0 =~= seq![NUM_LAYERS] + layer_specs(layer)[0].1);
    assert(params[3].0 =~= seq![NUM_LAYERS] + layer_specs(layer)[1].1);
    assert(params[4].0 =~= seq![NUM_LAYERS] + layer_specs(layer)[2].1);
    assert(params[5].0 =~= seq![NUM_LAYERS] + layer_specs(layer)[3].1);
    assert(params[10].0 =~= seq![NUM_LAYERS] + layer_specs(layer)[4].1);
    assert(params[11].0 =~= seq![NUM_LAYERS] + layer_specs(layer)[5].1);
    assert(params[6].0 =~= seq![NUM_LAYERS] + layer_specs(layer)[6].1);
    assert(params[7].0 =~= seq![NUM_LAYERS] + layer_specs(layer)[7].1);
    assert(params[8].0 =~= seq![NUM_LAYERS] + layer_specs(layer)[8].1);
    assert(params[9].0 =~= seq![NUM_LAYERS] + layer_specs(layer)[9].1);
    assert(params[12].0 =~= seq![NUM_LAYERS] + layer_specs(layer)[10].1);
    assert(params[13].0 =~= seq![NUM_LAYERS] + layer_specs(layer)[11].1);
    assert(params[0].0 =~= head_specs()[0].1);
    assert(params[1].0 =~= head_specs()[1].1);
    assert(params[14].0 =~= head_specs()[2].1);
    assert(params[15].0 =~= head_specs()[3].1);
    assert(params[16].0 =~= head_specs()[4].1);
    assert(params[17].0 =~= head_specs()[5].1);
    assert(params[18].0 =~= head_specs()[6].1);
    assert(params[19].0 =~= head_specs()[7].1);
    assert(params[20].0 =~= head_specs()[8].1);
    assert(params[21].0 =~= head_specs()[9].1);
    assert(params[22].0 =~= head_specs()[10].1);
    assert(params[23].0 =~= head_specs()[11].1);
}

/// A number, where a `usize` can hold it.
pub open spec fn capped(n: int) -> Option<usize> {
    if 0 <= n <= usize::MAX {
        Some(n as usize)
    } else {
        None
    }
}

/// About how many parameters a swarm has, biases of attention and of the
/// feed-forward block left aside.
pub open spec fn param_estimate(c: SwarmConfig) -> int {
    c.n_brains * (c.d_model * INPUT_DIM + c.d_model + c.n_layers * (3 * (c.d_model * c.d_model)
        + c.d_model * c.d_model + c.ffn_dim * c.d_model + c.d_model * c.ffn_dim + 4 * c.d_model)
        + c.d_model) + c.d_model * INPUT_DIM + c.d_model + c.n_brains * c.d_model + c.n_brains
        + NUM_CLASSES * c.d_model + NUM_CLASSES + c.d_model + 1
}

/// About how many parameters a swarm has, where a `usize` can hold it.
pub fn estimate_params(c: &SwarmConfig) -> (count: Option<usize>)
    ensures
        count == capped(param_estimate(*c)),
{
    let brains: CheckedUsize = CheckedUsize::new(c.n_brains);
    let width: CheckedUsize = CheckedUsize::new(c.d_model);
    let square: CheckedUsize = width.mul_value(c.d_model);
    let ffn: CheckedUsize = CheckedUsize::new(c.ffn_dim);
    let projection: CheckedUsize = width.mul_value(INPUT_DIM).add_checked(&width);
    let attention: CheckedUsize = square.mul_value(3).add_checked(&square);
    let block: CheckedUsize = ffn.mul_checked(&width).add_checked(&width.mul_checked(&ffn));
    let norms: CheckedUsize = width.mul_value(4);
    let layer: CheckedUsize = attention.add_checked(&block).add_checked(&norms);
    let layers: CheckedUsize = CheckedUsize::new(c.n_layers).mul_checked(&layer);
    let brain: CheckedUsize = projection.add_checked(&layers).add_checked(&width);
    let gate: CheckedUsize = projection.add_checked(&brains.mul_checked(&width)).add_checked(
        &brains,
    );
    let action: CheckedUsize = CheckedUsize::new(NUM_CLASSES).mul_checked(&width).add_value(
        NUM_CLASSES,
    );
    let confidence: CheckedUsize = width.add_value(1);
    let total: CheckedUsize = brains.mul_checked(&brain).add_checked(&gate).add_checked(
        &action,
    ).add_checked(&confidence);
    proof {
        let d = c.d_model as int;
        let f = c.ffn_dim as int;
        assert(d * d * 3 == 3 * (d * d)) by (nonlinear_arith);
        assert(d * 4 == 4 * d) by (nonlinear_arith);
        assert(layer@ == 3 * (d * d) + d * d + f * d + d * f + 4 * d);
        assert(total@ == param_estimate(*c));
    }
    total.to_option()
}

/// Why attention cannot divide its input among its heads.
#[derive(Debug)]
pub enum PlanError {
    /// There are no heads.
    NoHeads,
    /// The width is not a multiple of the number of heads.
    UnevenHeads,
    /// A dimension does not fit a `usize`.
    TooLarge,
    /// There are no sequences, no time steps, no brains, or brains of no width.
    Empty,
}

/// How attention divides its input. The joint projection of a row holds
/// queries, keys and values side by side, each in its range. Each of these is
/// split by head, and the heads are then folded into the leading dimension;
/// afterwards they are unfolded again.
#[derive(Debug)]
pub struct AttentionPlan {
    pub head_dim: usize,
    pub queries: (usize, usize),
    pub keys: (usize, usize),
    pub values: (usize, usize),
    pub split: [usize; 4],
    pub folded: [usize; 3],
    pub unfolded: [usize; 4],
}

impl AttentionPlan {
    /// Whether this is how so many groups of rows are divided.
    pub open spec fn divides(
        &self,
        groups: usize,
        rows: usize,
        width: usize,
        heads: usize,
    ) -> bool {
        &&& self.head_dim == width / heads
        &&& self.queries == (0usize, width)
        &&& self.keys == (width, (2 * width) as usize)
        &&& self.values == ((2 * width) as usize, (3 * width) as usize)
        &&& self.split@ == seq![groups, rows, heads, self.head_dim]
        &&& self.folded@ == seq![(groups * heads) as usize, rows, self.head_dim]
        &&& self.unfolded@ == seq![groups, heads, rows, self.head_dim]
    }

    /// Whether this is how some groups of rows are divided.
    pub open spec fn wf(&self) -> bool {
        &&& self.split@[2] > 0
        &&& self.queries.1 % self.split@[2] == 0
        &&& 3 * self.queries.1 <= usize::MAX
        &&& self.split@[0] * self.split@[2] <= usize::MAX
        &&& self.divides(self.split@[0], self.split@[1], self.queries.1, self.split@[2])
    }

    /// Plans attention over so many groups of rows of a given width.
    pub fn new(groups: usize, rows: usize, width: usize, heads: usize) -> (result: Result<
        Self,
        PlanError,
    >)
        ensures
            match result {
                Err(PlanError::NoHeads) => heads == 0,
                Err(PlanError::UnevenHeads) => heads > 0 && width % heads != 0,
                Err(PlanError::TooLarge) => heads > 0 && width % heads == 0 && (3 * width
                    > usize::MAX || groups * heads > usize::MAX),
                Err(PlanError::Empty) => false,
                Ok(plan) => heads > 0 && width % heads == 0 && 3 * width <= usize::MAX && groups
                    * heads <= usize::MAX && plan.divides(groups, rows, width, heads) && plan.wf(),
            },
    {
        if heads == 0 {
            return Err(PlanError::NoHeads);
        }
        if width % heads != 0 {
            return Err(PlanError::UnevenHeads);
        }
        match (width.checked_mul(3), groups.checked_mul(heads)) {
            (Some(joint), Some(folds)) => {
                let head_dim: usize = width / heads;
                let plan: AttentionPlan = AttentionPlan {
                    head_dim,
                    queries: (0, width),
                    keys: (width, 2 * width),
                    values: (2 * width, joint),
                    split: [groups, rows, heads, head_dim],
                    folded: [folds, rows, head_dim],
                    unfolded: [groups, heads, rows, head_dim],
                };
                assert(plan.split@ =~= seq![groups, rows, heads, head_dim]);
                assert(plan.folded@ =~= seq![folds, rows, head_dim]);
                assert(plan.unfolded@ =~= seq![groups, heads, rows, head_dim]);
                Ok(plan)
            },
            _ => Err(PlanError::TooLarge),
        }
    }
}

/// A plan keeps every value: splitting, folding and unfolding have as many
/// values as the groups of rows, and the three ranges tile the joint
/// projection.
pub proof fn law_attention_keeps_values(
    plan: AttentionPlan,
    groups: usize,
    rows: usize,
    width: usize,
    heads: usize,
)
    requires
        heads > 0,
        width % heads == 0,
        3 * width <= usize::MAX,
        groups * heads <= usize::MAX,
        plan.divides(groups, rows, width, heads),
    ensures
        size_of(plan.split@) == groups * rows * width,
        size_of(plan.folded@) == groups * rows * width,
        size_of(plan.unfolded@) == groups * rows * width,
        plan.queries.0 == 0,
        plan.queries.1 == plan.keys.0,
        plan.keys.1 == plan.values.0,
        plan.values.1 == 3 * width,
        plan.queries.1 - plan.queries.0 == width,
        plan.keys.1 - plan.keys.0 == width,
        plan.values.1 - plan.values.0 == width,
{
    let g = groups as int;
    let r = rows as int;
    let h = heads as int;
    let d = plan.head_dim as int;
    vstd::arithmetic::div_mod::lemma_fundamental_div_mod(width as int, h);
    assert(width == h * d);
    reveal_with_fuel(size_of, 5);
    assert(plan.split@.drop_last() =~= seq![groups, rows, heads]);
    assert(plan.split@.drop_last().drop_last() =~= seq![groups, rows]);
    assert(plan.split@.drop_last().drop_last().drop_last() =~= seq![groups]);
    assert(plan.unfolded@.drop_last() =~= seq![groups, heads, rows]);
    assert(plan.unfolded@.drop_last().drop_last() =~= seq![groups, heads]);
    assert(plan.unfolded@.drop_last().drop_last().drop_last() =~= seq![groups]);
    assert(plan.folded@.drop_last() =~= seq![(groups * heads) as usize, rows]);
    assert(plan.folded@.drop_last().drop_last() =~= seq![(groups * heads) as usize]);
    assert(size_of(plan.split@) == 1 * g * r * h * d);
    assert(size_of(plan.unfolded@) == 1 * g * h * r * d);
    assert(size_of(plan.folded@) == 1 * (g * h) * r * d);
    assert(1 * g * r * h * d == g * r * (h * d)) by (nonlinear_arith);
    assert(1 * g * h * r * d == g * r * (h * d)) by (nonlinear_arith);
    assert(1 * (g * h) * r * d == g * r * (h * d)) by (nonlinear_arith);
}

/// The inference swarm's attention has a plan, with heads of the model's head
/// dimension.
pub fn inference_attention() -> (plan: AttentionPlan)
    ensures
        plan.divides(NUM_BRAINS, SEQ_LEN, D_MODEL, NUM_HEADS),
        plan.wf(),
        plan.head_dim == HEAD_DIM,
{
    AttentionPlan::new(NUM_BRAINS, SEQ_LEN, D_MODEL, NUM_HEADS).unwrap()
}

/// Weights start around zero with the deviation that their inputs call for, of
/// which there are as many as their last dimension says; scales start at one,
/// biases and shifts at zero.
pub proof fn law_parameters_start_by_their_inputs(c: SwarmConfig)
    ensures
        param_specs(c).len() == 24,
        param_specs(c)[0].1 == (Init::Normal { fan_in: param_specs(c)[0].0.last() }),
        param_specs(c)[2].1 == (Init::Normal { fan_in: param_specs(c)[2].0.last() }),
        param_specs(c)[4].1 == (Init::Normal { fan_in: param_specs(c)[4].0.last() }),
        param_specs(c)[6].1 == (Init::Normal { fan_in: param_specs(c)[6].0.last() }),
        param_specs(c)[8].1 == (Init::Normal { fan_in: param_specs(c)[8].0.last() }),
        param_specs(c)[16].1 == (Init::Normal { fan_in: param_specs(c)[16].0.last() }),
        param_specs(c)[18].1 == (Init::Normal { fan_in: param_specs(c)[18].0.last() }),
        param_specs(c)[20].1 == (Init::Normal { fan_in: param_specs(c)[20].0.last() }),
        param_specs(c)[22].1 == (Init::Normal { fan_in: param_specs(c)[22].0.last() }),
        param_specs(c)[10].1 == Init::Ones,
        param_specs(c)[12].1 == Init::Ones,
        param_specs(c)[14].1 == Init::Ones,
        param_specs(c)[1].1 == Init::Zeros,
        param_specs(c)[3].1 == Init::Zeros,
        param_specs(c)[5].1 == Init::Zeros,
        param_specs(c)[7].1 == Init::Zeros,
        param_specs(c)[9].1 == Init::Zeros,
        param_specs(c)[11].1 == Init::Zeros,
        param_specs(c)[13].1 == Init::Zeros,
        param_specs(c)[15].1 == Init::Zeros,
        param_specs(c)[17].1 == Init::Zeros,
        param_specs(c)[19].1 == Init::Zeros,
        param_specs(c)[21].1 == Init::Zeros,
        param_specs(c)[23].1 == Init::Zeros,
{
}

/// The number of classes of a swarm does not enter into the estimate.
pub proof fn law_estimate_is_for_all_actions(c: SwarmConfig, classes: usize)
    ensures
        param_estimate(c) == param_estimate((SwarmConfig { n_classes: classes, ..c })),
{
}

/// The estimate counts every parameter of a swarm but the biases of attention and
/// of the feed-forward block and the shifts of the last normalization.
pub proof fn law_estimate_leaves_biases_aside(c: SwarmConfig)
    requires
        c.n_classes == 4,
        3 * c.d_model <= usize::MAX,
    ensures
        ({
            let p = param_specs(c);
            param_estimate(c) == size_of(p[0].0)
                + size_of(p[1].0)
                + size_of(p[2].0)
                + size_of(p[4].0)
                + size_of(p[6].0)
                + size_of(p[8].0)
                + size_of(p[10].0)
                + size_of(p[11].0)
                + size_of(p[12].0)
                + size_of(p[13].0)
                + size_of(p[14].0)
                + size_of(p[16].0)
                + size_of(p[17].0)
                + size_of(p[18].0)
                + size_of(p[19].0)
                + size_of(p[20].0)
                + size_of(p[21].0)
                + size_of(p[22].0)
                + size_of(p[23].0)
        }),
{
    let p = param_specs(c);
    let n = c.n_brains;
    let d = c.d_model;
    let l = c.n_layers;
    let f = c.ffn_dim;
    let k = c.n_classes;
    let wide = (3 * d) as usize;
    law_sizes_multiply(n, d, INPUT_DIM, 0);
    law_sizes_multiply(l, n, wide, d);
    law_sizes_multiply(l, n, d, d);
    law_sizes_multiply(l, n, f, d);
    law_sizes_multiply(l, n, d, f);
    law_sizes_multiply(d, INPUT_DIM, 0, 0);
    law_sizes_multiply(n, d, 0, 0);
    law_sizes_multiply(k, d, 0, 0);
    law_sizes_multiply(1, d, 0, 0);
    lemma_estimate(n as int, d as int, l as int, f as int);
}

proof fn lemma_estimate(n: int, d: int, l: int, f: int)
    ensures
        n * (d * 54 + d + l * (3 * (d * d) + d * d + f * d + d * f + 4 * d) + d) + d * 54 + d + n
            * d + n + 4 * d + 4 + d + 1 == n * d * 54 + n * d + l * n * (3 * d) * d + l * n * d * d
            + l * n * f * d + l * n * d * f + l * n * d + l * n * d + l * n * d + l * n * d + n * d
            + d * 54 + d + n * d + n + 4 * d + 4 + 1 * d + 1,
{
    assert(n * (d * 54 + d + l * (3 * (d * d) + d * d + f * d + d * f + 4 * d) + d) == n * d * 54
        + n * d + n * (l * (3 * (d * d) + d * d + f * d + d * f + 4 * d)) + n * d)
        by (nonlinear_arith);
    let x = d * d;
    let y = f * d;
    let z = d * f;
    assert(n * (l * (3 * x + x + y + z + 4 * d)) == 3 * (l * n * x) + l * n * x + l * n * y + l * n
        * z + 4 * (l * n * d)) by (nonlinear_arith);
    assert(l * n * (3 * d) * d == 3 * (l * n * (d * d))) by (nonlinear_arith);
    assert(l * n * d * d == l * n * (d * d)) by (nonlinear_arith);
    assert(l * n * f * d == l * n * (f * d)) by (nonlinear_arith);
    assert(l * n * d * f == l * n * (d * f)) by (nonlinear_arith);
}

/// Every parameter of a swarm has the shape and the start of its own name: weights
/// with a row for each output, as wide as they have inputs, stacked by brain and,
/// inside the layers, by layer before that.
pub proof fn law_parameters_are_laid_out_by_name(swarm: BatchedBrainSwarm, c: SwarmConfig)
    requires
        swarm.params() == param_specs(c),
    ensures
        swarm.input_proj_w.dims@ == seq![c.n_brains, c.d_model, INPUT_DIM],
        swarm.input_proj_w.init == (Init::Normal { fan_in: INPUT_DIM }),
        swarm.input_proj_b.dims@ == seq![c.n_brains, c.d_model],
        swarm.input_proj_b.init == Init::Zeros,
        swarm.attn_in_w.dims@ == seq![c.n_layers, c.n_brains, (3 * c.d_model) as usize, c.d_model],
        swarm.attn_in_w.init == (Init::Normal { fan_in: c.d_model }),
        swarm.attn_in_b.dims@ == seq![c.n_layers, c.n_brains, (3 * c.d_model) as usize],
        swarm.attn_in_b.init == Init::Zeros,
        swarm.attn_out_w.dims@ == seq![c.n_layers, c.n_brains, c.d_model, c.d_model],
        swarm.attn_out_w.init == (Init::Normal { fan_in: c.d_model }),
        swarm.attn_out_b.dims@ == seq![c.n_layers, c.n_brains, c.d_model],
        swarm.attn_out_b.init == Init::Zeros,
        swarm.ffn_w1.dims@ == seq![c.n_layers, c.n_brains, c.ffn_dim, c.d_model],
        swarm.ffn_w1.init == (Init::Normal { fan_in: c.d_model }),
        swarm.ffn_b1.dims@ == seq![c.n_layers, c.n_brains, c.ffn_dim],
        swarm.ffn_b1.init == Init::Zeros,
        swarm.ffn_w2.dims@ == seq![c.n_layers, c.n_brains, c.d_model, c.ffn_dim],
        swarm.ffn_w2.init == (Init::Normal { fan_in: c.ffn_dim }),
        swarm.ffn_b2.dims@ == seq![c.n_layers, c.n_brains, c.d_model],
        swarm.ffn_b2.init == Init::Zeros,
        swarm.ln1_w.dims@ == seq![c.n_layers, c.n_brains, c.d_model],
        swarm.ln1_w.init == Init::Ones,
        swarm.ln1_b.dims@ == seq![c.n_layers, c.n_brains, c.d_model],
        swarm.ln1_b.init == Init::Zeros,
        swarm.ln2_w.dims@ == seq![c.n_layers, c.n_brains, c.d_model],
        swarm.ln2_w.init == Init::Ones,
        swarm.ln2_b.dims@ == seq![c.n_layers, c.n_brains, c.d_model],
        swarm.ln2_b.init == Init::Zeros,
        swarm.final_ln_w.dims@ == seq![c.n_brains, c.d_model],
        swarm.final_ln_w.init == Init::Ones,
        swarm.final_ln_b.dims@ == seq![c.n_brains, c.d_model],
        swarm.final_ln_b.init == Init::Zeros,
        swarm.gate_w1.dims@ == seq![c.d_model, INPUT_DIM],
        swarm.gate_w1.init == (Init::Normal { fan_in: INPUT_DIM }),
        swarm.gate_b1.dims@ == seq![c.d_model],
        swarm.gate_b1.init == Init::Zeros,
        swarm.gate_w2.dims@ == seq![c.n_brains, c.d_model],
        swarm.gate_w2.init == (Init::Normal { fan_in: c.d_model }),
        swarm.gate_b2.dims@ == seq![c.n_brains],
        swarm.gate_b2.init == Init::Zeros,
        swarm.action_w.dims@ == seq![c.n_classes, c.d_model],
        swarm.action_w.init == (Init::Normal { fan_in: c.d_model }),
        swarm.action_b.dims@ == seq![c.n_classes],
        swarm.action_b.init == Init::Zeros,
        swarm.conf_w.dims@ == seq![1usize, c.d_model],
        swarm.conf_w.init == (Init::Normal { fan_in: c.d_model }),
        swarm.conf_b.dims@ == seq![1usize],
        swarm.conf_b.init == Init::Zeros,
{
    assert(swarm.params()[0] == swarm.input_proj_w@);
    assert(swarm.params()[1] == swarm.input_proj_b@);
    assert(swarm.params()[2] == swarm.attn_in_w@);
    assert(swarm.params()[3] == swarm.attn_in_b@);
    assert(swarm.params()[4] == swarm.attn_out_w@);
    assert(swarm.params()[5] == swarm.attn_out_b@);
    assert(swarm.params()[6] == swarm.ffn_w1@);
    assert(swarm.params()[7] == swarm.ffn_b1@);
    assert(swarm.params()[8] == swarm.ffn_w2@);
    assert(swarm.params()[9] == swarm.ffn_b2@);
    assert(swarm.params()[10] == swarm.ln1_w@);
    assert(swarm.params()[11] == swarm.ln1_b@);
    assert(swarm.params()[12] == swarm.ln2_w@);
    assert(swarm.params()[13] == swarm.ln2_b@);
    assert(swarm.params()[14] == swarm.final_ln_w@);
    assert(swarm.params()[15] == swarm.final_ln_b@);
    assert(swarm.params()[16] == swarm.gate_w1@);
    assert(swarm.params()[17] == swarm.gate_b1@);
    assert(swarm.params()[18] == swarm.gate_w2@);
    assert(swarm.params()[19] == swarm.gate_b2@);
    assert(swarm.params()[20] == swarm.action_w@);
    assert(swarm.params()[21] == swarm.action_b@);
    assert(swarm.params()[22] == swarm.conf_w@);
    assert(swarm.params()[23] == swarm.conf_b@);
}

/// A number is given exactly where a `usize` holds it.
pub proof fn law_capped_numbers_are_exact(n: int, held: usize)
    ensures
        capped(n) == Some(held) <==> n == held,
        capped(n) is None <==> n < 0 || n > usize::MAX,
{
}

} // verus!
