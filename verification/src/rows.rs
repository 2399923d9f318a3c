//! The model on the rows of one sequence, in real numbers: brain by brain, row by
//! row.

use vstd::prelude::*;
use crate::ieee::DOUBLE_EPSILON;
use crate::reals::{average, dot, plus};
use crate::tensor::{positive_part, softmax_of, Functions};

verus! {

/// A matrix of weights, one row for each output, and the biases.
pub ghost struct Affine {
    pub w: Seq<Seq<real>>,
    pub b: Seq<real>,
}

/// The scale and the shift of a normalization.
pub ghost struct Norm {
    pub w: Seq<real>,
    pub b: Seq<real>,
}

/// The weights of one layer of one brain.
pub ghost struct LayerWeights {
    pub joint: Affine,
    pub out: Affine,
    pub norm1: Norm,
    pub ffn1: Affine,
    pub ffn2: Affine,
    pub norm2: Norm,
}

/// The weights of one brain.
pub ghost struct BrainWeights {
    pub input: Affine,
    pub layers: Seq<LayerWeights>,
    pub norm: Norm,
}

/// The weights of a swarm.
pub ghost struct SwarmWeights {
    pub brains: Seq<BrainWeights>,
    pub gate1: Affine,
    pub gate2: Affine,
    pub action: Affine,
}

/// A linear map.
pub open spec fn affine(x: Seq<real>, m: Affine) -> Seq<real> {
    Seq::new(m.w.len(), |o: int| dot(x, m.w[o]) + m.b[o])
}

/// A linear map of every row.
pub open spec fn affine_rows(x: Seq<Seq<real>>, m: Affine) -> Seq<Seq<real>> {
    x.map_values(|row: Seq<real>| affine(row, m))
}

/// Distances from the mean.
pub open spec fn centered(x: Seq<real>) -> Seq<real> {
    Seq::new(x.len(), |k: int| x[k] - average(x))
}

/// The mean square.
pub open spec fn mean_square(x: Seq<real>) -> real {
    average(x.map_values(|v: real| v * v))
}

/// What the distances from the mean are divided by.
pub open spec fn spread(x: Seq<real>, f: Functions) -> real {
    (f.root)(mean_square(centered(x)) + (f.constant)(DOUBLE_EPSILON))
}

/// Values with mean zero and deviation one, scaled and shifted.
pub open spec fn normed(x: Seq<real>, m: Norm, f: Functions) -> Seq<real> {
    Seq::new(x.len(), |k: int| centered(x)[k] / spread(x, f) * m.w[k] + m.b[k])
}

/// Every row normalized.
pub open spec fn normed_rows(x: Seq<Seq<real>>, m: Norm, f: Functions) -> Seq<Seq<real>> {
    x.map_values(|row: Seq<real>| normed(row, m, f))
}

/// Rows added one by one.
pub open spec fn plus_rows(x: Seq<Seq<real>>, y: Seq<Seq<real>>) -> Seq<Seq<real>> {
    Seq::new(x.len(), |t: int| plus(x[t], y[t]))
}

/// A part of a row.
pub open spec fn part(x: Seq<real>, start: int, count: nat) -> Seq<real> {
    Seq::new(count, |k: int| x[start + k])
}

/// How much each row counts for a row, in a head: the softmax of the products of
/// its query and their keys, over the root of the head's dimension. Queries,
/// keys and values stand side by side.
pub open spec fn shares(
    joint: Seq<Seq<real>>,
    t: int,
    head: int,
    width: nat,
    head_dim: nat,
    f: Functions,
) -> Seq<real> {
    softmax_of(
        joint.map_values(
            |row: Seq<real>|
                dot(
                    part(joint[t], head * head_dim, head_dim),
                    part(row, width + head * head_dim, head_dim),
                ) * (f.inverse_root)(head_dim),
        ),
        f,
    )
}

/// One column of the values.
pub open spec fn value_column(joint: Seq<Seq<real>>, width: nat, j: int) -> Seq<real> {
    joint.map_values(|row: Seq<real>| row[2 * width + j])
}

/// The values, weighted by how much each row counts.
pub open spec fn attention_row(
    joint: Seq<Seq<real>>,
    t: int,
    width: nat,
    head_dim: nat,
    f: Functions,
) -> Seq<real> {
    Seq::new(
        width,
        |j: int|
            dot(
                shares(joint, t, j / head_dim as int, width, head_dim, f),
                value_column(joint, width, j),
            ),
    )
}

/// Attention of every row over all rows.
pub open spec fn attention_rows(
    joint: Seq<Seq<real>>,
    width: nat,
    head_dim: nat,
    f: Functions,
) -> Seq<Seq<real>> {
    Seq::new(joint.len(), |t: int| attention_row(joint, t, width, head_dim, f))
}

/// Attention, added to what it was given and normalized.
pub open spec fn mixed_rows(
    x: Seq<Seq<real>>,
    m: LayerWeights,
    width: nat,
    head_dim: nat,
    f: Functions,
) -> Seq<Seq<real>> {
    normed_rows(
        plus_rows(
            x,
            affine_rows(attention_rows(affine_rows(x, m.joint), width, head_dim, f), m.out),
        ),
        m.norm1,
        f,
    )
}

/// The feed-forward block of a row, added to it and normalized.
pub open spec fn fed_row(x: Seq<real>, m: LayerWeights, f: Functions) -> Seq<real> {
    normed(
        plus(x, affine(affine(x, m.ffn1).map_values(f.gelu), m.ffn2)),
        m.norm2,
        f,
    )
}

/// The feed-forward block of every row.
pub open spec fn fed_rows(x: Seq<Seq<real>>, m: LayerWeights, f: Functions) -> Seq<Seq<real>> {
    x.map_values(|row: Seq<real>| fed_row(row, m, f))
}

/// A layer of one brain.
pub open spec fn layer_rows(
    x: Seq<Seq<real>>,
    m: LayerWeights,
    width: nat,
    head_dim: nat,
    f: Functions,
) -> Seq<Seq<real>> {
    fed_rows(mixed_rows(x, m, width, head_dim, f), m, f)
}

/// Layers of one brain, one after the other.
pub open spec fn layers_rows(
    x: Seq<Seq<real>>,
    layers: Seq<LayerWeights>,
    width: nat,
    head_dim: nat,
    f: Functions,
) -> Seq<Seq<real>>
    decreases layers.len(),
{
    if layers.len() == 0 {
        x
    } else {
        layer_rows(
            layers_rows(x, layers.drop_last(), width, head_dim, f),
            layers.last(),
            width,
            head_dim,
            f,
        )
    }
}

/// One number of every row.
pub open spec fn column(x: Seq<Seq<real>>, k: int) -> Seq<real> {
    x.map_values(|row: Seq<real>| row[k])
}

/// The mean of rows of a width.
pub open spec fn mean_row(x: Seq<Seq<real>>, width: nat) -> Seq<real> {
    Seq::new(width, |k: int| average(column(x, k)))
}

/// What one brain makes of a sequence.
pub open spec fn brain_row(
    x: Seq<Seq<real>>,
    m: BrainWeights,
    width: nat,
    head_dim: nat,
    f: Functions,
) -> Seq<real> {
    normed(
        mean_row(
            layers_rows(affine_rows(x, m.input), m.layers, width, head_dim, f),
            width,
        ),
        m.norm,
        f,
    )
}

/// How much each brain counts, by the last row of a sequence.
pub open spec fn gate_row(last: Seq<real>, m: SwarmWeights, f: Functions) -> Seq<real> {
    softmax_of(
        affine(affine(last, m.gate1).map_values(|v: real| positive_part(v)), m.gate2),
        f,
    )
}

/// What the brains make of a sequence, brain by brain.
pub open spec fn brain_rows(
    x: Seq<Seq<real>>,
    m: SwarmWeights,
    width: nat,
    head_dim: nat,
    f: Functions,
) -> Seq<Seq<real>> {
    m.brains.map_values(|brain: BrainWeights| brain_row(x, brain, width, head_dim, f))
}

/// Rows, weighted and added.
pub open spec fn weighted(shares: Seq<real>, rows: Seq<Seq<real>>, width: nat) -> Seq<real> {
    Seq::new(width, |k: int| dot(shares, column(rows, k)))
}

/// What the brains make of a sequence together.
pub open spec fn together(
    x: Seq<Seq<real>>,
    m: SwarmWeights,
    width: nat,
    head_dim: nat,
    f: Functions,
) -> Seq<real> {
    weighted(gate_row(x.last(), m, f), brain_rows(x, m, width, head_dim, f), width)
}

/// The logits of the actions for a sequence.
pub open spec fn logits_row(
    x: Seq<Seq<real>>,
    m: SwarmWeights,
    width: nat,
    head_dim: nat,
    f: Functions,
) -> Seq<real> {
    affine(together(x, m, width, head_dim, f), m.action)
}

/// The confidence in a sequence.
pub open spec fn confidence_row(
    x: Seq<Seq<real>>,
    m: SwarmWeights,
    confidence: Affine,
    width: nat,
    head_dim: nat,
    f: Functions,
) -> Seq<real> {
    affine(together(x, m, width, head_dim, f), confidence).map_values(f.sigmoid)
}

} // verus!
