//! The training pass, stage by stage: each number in terms of the numbers that it
//! is computed from, and of the parameters by their places.

use vstd::prelude::*;
use crate::config::INPUT_DIM;
use crate::evaluation::{is_sized, lemma_linear_value, lemma_norm_value, lemma_turned_value, row_at};
use crate::forward::{linear_of, mean, norm_of, reshape, squeeze, unsqueeze};
use crate::graph::Term;
use crate::model::SwarmConfig;
use crate::pass_laws::{lemma_attention_formula, lemma_norm_formula};
use crate::reals::{dot, plus, products, total};
use crate::rows::{
    affine, affine_rows, attention_row, attention_rows, brain_rows, column, fed_row, fed_rows,
    mixed_rows, normed, plus_rows, together, weighted, Norm,
};
use crate::tensor::{
    along, averaged, matrix, positive_part, repeated, row, squeezed, unsqueezed, value, At,
    Functions, Given,
};
use crate::training_laws::{is_passed, item, lemma_logits, training_logits};
use crate::training_pass::{brains_of, by_sequence, extent, fed_of, gate_of, layers_of, mixed_of};
use crate::training_values::{
    lemma_brains_value, lemma_fed_value, lemma_flattened, lemma_gate_value, lemma_layers_value,
    lemma_mixed_value, lemma_param_size, lemma_row_number, lemma_unflattened, trained_layer,
    trained_swarm,
};

verus! {

/// The logit of an action is its weights times what the brains make of the
/// sequence together, plus its bias; and together they make the sum of what each
/// makes, weighted by how much it counts.
pub proof fn law_logits_are_linear_in_the_brains(
    given: Given,
    c: SwarmConfig,
    batch: usize,
    seq: usize,
    f: Functions,
    i: int,
    class: int,
)
    requires
        is_passed(given, c, batch, seq),
        0 <= i < batch,
        0 <= class < c.n_classes,
    ensures
        ({
            let e = extent(c, batch, seq);
            let share = row(value(gate_of(Term::Input, e), given, f), 0, 0, i);
            let brain = value(brains_of(Term::Input, e), given, f);
            let whole = Seq::new(
                c.d_model as nat,
                |k: int|
                    total(
                        Seq::new(
                            c.n_brains as nat,
                            |n: int| share[n] * row(brain, 0, n, i)[k],
                        ),
                    ),
            );
            &&& training_logits(given, c, batch, seq, f).len() == batch
            &&& training_logits(given, c, batch, seq, f)[i].len() == c.n_classes
            &&& training_logits(given, c, batch, seq, f)[i][class] == dot(
                whole,
                row(given.weights[20], 0, 0, class),
            ) + row(given.weights[21], 0, 0, 0)[class]
        }),
{
    let e = extent(c, batch, seq);
    lemma_logits(given, c, batch, seq, f, i);
    lemma_gate_value(c, batch, seq, given, f);
    lemma_brains_value(c, batch, seq, given, f);
    lemma_param_size(given, c, batch, seq, 18);
    lemma_param_size(given, c, batch, seq, 20);
    lemma_param_size(given, c, batch, seq, 21);
    let width = c.d_model as nat;
    let hd = (c.d_model / c.n_heads) as nat;
    let swarm = trained_swarm(given, c);
    let share = row(value(gate_of(Term::Input, e), given, f), 0, 0, i);
    let brain = value(brains_of(Term::Input, e), given, f);
    let rows = brain_rows(item(given, i), swarm, width, hd, f);
    let whole = Seq::new(
        width,
        |k: int| total(Seq::new(c.n_brains as nat, |n: int| share[n] * row(brain, 0, n, i)[k])),
    );
    assert(together(item(given, i), swarm, width, hd, f) =~= whole) by {
        assert forall|k: int| 0 <= k < width implies #[trigger] weighted(share, rows, width)[k]
            == whole[k] by {
            let terms = Seq::new(c.n_brains as nat, |n: int| share[n] * row(brain, 0, n, i)[k]);
            let own = products(share, column(rows, k));
            assert forall|n: int| 0 <= n < c.n_brains implies own[n] == #[trigger] terms[n] by {
                assert(row(brain, 0, n, i) == rows[n]);
            }
            assert(own =~= terms);
        }
    }
}

/// How much a brain counts for a sequence depends on its last time step alone: it
/// is the exponential of the brain's score over the sum of those of all brains,
/// and the scores are linear in what is positive of a linear map of that step.
pub proof fn law_shares_are_by_the_last_step(
    given: Given,
    c: SwarmConfig,
    batch: usize,
    seq: usize,
    f: Functions,
    i: int,
    brain: int,
)
    requires
        is_passed(given, c, batch, seq),
        0 <= i < batch,
        0 <= brain < c.n_brains,
    ensures
        ({
            let last = row(given.input, 0, i, seq - 1);
            let hidden = Seq::new(
                c.d_model as nat,
                |j: int|
                    {
                        let v = dot(last, row(given.weights[16], 0, 0, j)) + row(
                            given.weights[17],
                            0,
                            0,
                            0,
                        )[j];
                        if v > 0real {
                            v
                        } else {
                            0real
                        }
                    },
            );
            let score = |n: int|
                dot(hidden, row(given.weights[18], 0, 0, n)) + row(given.weights[19], 0, 0, 0)[n];
            row(value(gate_of(Term::Input, extent(c, batch, seq)), given, f), 0, 0, i)[brain]
                == (f.exp)(score(brain)) / total(
                Seq::new(c.n_brains as nat, |n: int| (f.exp)(score(n))),
            )
        }),
{
    lemma_gate_value(c, batch, seq, given, f);
    lemma_param_size(given, c, batch, seq, 16);
    lemma_param_size(given, c, batch, seq, 17);
    lemma_param_size(given, c, batch, seq, 18);
    lemma_param_size(given, c, batch, seq, 19);
    let swarm = trained_swarm(given, c);
    let last = row(given.input, 0, i, seq - 1);
    assert(matrix(given.input, 0, i).last() == last);
    let hidden = Seq::new(
        c.d_model as nat,
        |j: int|
            {
                let v = dot(last, row(given.weights[16], 0, 0, j)) + row(
                    given.weights[17],
                    0,
                    0,
                    0,
                )[j];
                if v > 0real {
                    v
                } else {
                    0real
                }
            },
    );
    assert(affine(last, swarm.gate1).map_values(|v: real| positive_part(v)) =~= hidden);
    let score = |n: int|
        dot(hidden, row(given.weights[18], 0, 0, n)) + row(given.weights[19], 0, 0, 0)[n];
    let scores = affine(hidden, swarm.gate2);
    assert(scores.map_values(f.exp) =~= Seq::new(c.n_brains as nat, |n: int| (f.exp)(score(n))));
}

/// The rows that the layers start from: for every brain, its own linear map of
/// those of the sequences.
pub open spec fn first_rows(c: SwarmConfig, batch: usize, seq: usize) -> Term {
    let e = extent(c, batch, seq);
    let rows = Term::Repeat(Box::new(unsqueeze(Term::Input, 0)), 0, e.n);
    let flat = reshape(rows, seq![e.n, e.b * e.s, INPUT_DIM as nat]);
    reshape(linear_of(flat, Term::Weight(0), Term::Weight(1)), by_sequence(e))
}

/// Every brain starts from its own linear map of the time steps of the sequences.
pub proof fn law_brains_start_from_the_sequences(
    given: Given,
    c: SwarmConfig,
    batch: usize,
    seq: usize,
    f: Functions,
)
    requires
        is_passed(given, c, batch, seq),
    ensures
        ({
            let y = value(first_rows(c, batch, seq), given, f);
            &&& is_sized(y, 4, c.n_brains as int, batch as int, seq as int, c.d_model as int)
            &&& forall|n: int, i: int, t: int, k: int|
                0 <= n < c.n_brains && 0 <= i < batch && 0 <= t < seq && 0 <= k < c.d_model
                    ==> #[trigger] row(y, n, i, t)[k] == dot(
                    row(given.input, 0, i, t),
                    row(given.weights[0], 0, n, k),
                ) + row(given.weights[1], 0, 0, n)[k]
        }),
{
    let e = extent(c, batch, seq);
    let n = e.n as int;
    let b = e.b as int;
    let s = e.s as int;
    let d = e.d as int;
    lemma_param_size(given, c, batch, seq, 0);
    lemma_param_size(given, c, batch, seq, 1);
    let each = Term::Repeat(Box::new(unsqueeze(Term::Input, 0)), 0, e.n);
    reveal_with_fuel(value, 3);
    let ve = value(each, given, f);
    assert(ve == repeated(unsqueezed(given.input, 0), 0, e.n));
    assert(is_sized(ve, 4, n, b, s, INPUT_DIM as int));
    let flat = reshape(each, seq![e.n, e.b * e.s, INPUT_DIM as nat]);
    lemma_flattened(each, given, f, e.n, e.b, e.s, INPUT_DIM as nat);
    let w = Term::Weight(0);
    let bias = Term::Weight(1);
    lemma_linear_value(flat, w, bias, given, f, n, b * s, INPUT_DIM as int, d);
    let first = linear_of(flat, w, bias);
    lemma_unflattened(first, given, f, e.n, e.b, e.s, e.d);
    let y = value(first_rows(c, batch, seq), given, f);
    let vr = value(flat, given, f);
    let vf = value(first, given, f);
    assert forall|m: int, i: int, t: int, k: int|
        0 <= m < c.n_brains && 0 <= i < batch && 0 <= t < seq && 0 <= k < c.d_model implies
        #[trigger] row(y, m, i, t)[k] == dot(
            row(given.input, 0, i, t),
            row(given.weights[0], 0, m, k),
        ) + row(given.weights[1], 0, 0, m)[k] by {
        lemma_row_number(i, t, b, s);
        assert(row(y, m, i, t) == row(vf, 0, m, i * s + t));
        assert(row(vr, 0, m, i * s + t) == row(ve, m, i, t));
        assert(row(ve, m, i, t) =~= row(given.input, 0, i, t));
    }
}

/// The layers follow each other, each on what the one before it gives.
pub proof fn law_trained_layers_follow_each_other(h: Term, count: nat, c: SwarmConfig, batch: usize, seq: usize)
    ensures
        ({
            let e = extent(c, batch, seq);
            &&& layers_of(h, 0, e) == h
            &&& layers_of(h, count + 1, e) == fed_of(
                mixed_of(layers_of(h, count, e), count, e),
                count,
                e,
            )
        }),
{
}

/// What a brain makes of a sequence is the mean of its rows behind the last layer,
/// normalized with its own scale and shift.
pub proof fn law_trained_brains_end_in_a_normalized_mean(
    given: Given,
    c: SwarmConfig,
    batch: usize,
    seq: usize,
    f: Functions,
    brain: int,
    i: int,
)
    requires
        is_passed(given, c, batch, seq),
        0 <= brain < c.n_brains,
        0 <= i < batch,
    ensures
        ({
            let e = extent(c, batch, seq);
            let h = value(
                layers_of(first_rows(c, batch, seq), c.n_layers as nat, e),
                given,
                f,
            );
            let means = Seq::new(
                c.d_model as nat,
                |k: int|
                    total(Seq::new(seq as nat, |t: int| row(h, brain, i, t)[k])) / (
                    seq as nat as real),
            );
            let norm = |v: Seq<real>, w: Seq<real>, b: Seq<real>|
                {
                    let count = v.len() as real;
                    let mean = total(v) / count;
                    let spread = (f.root)(
                        total(Seq::new(v.len(), |i: int| (v[i] - mean) * (v[i] - mean))) / count
                            + (f.constant)(0x3ee4_f8b5_88e3_68f1),
                    );
                    Seq::new(v.len(), |i: int| (v[i] - mean) / spread * w[i] + b[i])
                };
            &&& is_sized(h, 4, c.n_brains as int, batch as int, seq as int, c.d_model as int)
            &&& row(value(brains_of(Term::Input, e), given, f), 0, brain, i) == norm(
                means,
                row(given.weights[14], 0, 0, brain),
                row(given.weights[15], 0, 0, brain),
            )
        }),
{
    let e = extent(c, batch, seq);
    let n = e.n as int;
    let b = e.b as int;
    let d = e.d as int;
    law_brains_start_from_the_sequences(given, c, batch, seq, f);
    let start = first_rows(c, batch, seq);
    lemma_layers_value(start, c.n_layers as nat, c, batch, seq, given, f);
    lemma_param_size(given, c, batch, seq, 14);
    lemma_param_size(given, c, batch, seq, 15);
    let h = layers_of(start, e.layers, e);
    let vh = value(h, given, f);
    reveal_with_fuel(value, 3);
    let pooled = squeeze(mean(h, 2), 2);
    let vp = value(pooled, given, f);
    assert(vp == squeezed(averaged(vh, 2), 2));
    assert(is_sized(vp, 3, 1, n, b, d));
    lemma_turned_value(Term::Weight(14), given, f, n, d);
    lemma_turned_value(Term::Weight(15), given, f, n, d);
    let scale = unsqueeze(Term::Weight(14), 1);
    let shift = unsqueeze(Term::Weight(15), 1);
    lemma_norm_value(pooled, 2, scale, shift, given, f);
    assert(brains_of(Term::Input, e) == norm_of(pooled, 2, scale, shift));
    let means = Seq::new(
        c.d_model as nat,
        |k: int|
            total(Seq::new(seq as nat, |t: int| row(vh, brain, i, t)[k])) / (seq as nat as real),
    );
    assert(row(vp, 0, brain, i) =~= means) by {
        assert forall|k: int| 0 <= k < d implies #[trigger] row(vp, 0, brain, i)[k]
            == means[k] by {
            assert(along(vh, 2, At { a: brain, b: i, c: 0, d: k }) =~= Seq::new(
                seq as nat,
                |t: int| row(vh, brain, i, t)[k],
            ));
        }
    }
    let w = row(given.weights[14], 0, 0, brain);
    let shifts = row(given.weights[15], 0, 0, brain);
    assert(row_at(value(scale, given, f), 0, brain, i) == w);
    assert(row_at(value(shift, given, f), 0, brain, i) == shifts);
    lemma_norm_formula(means, w, shifts, f);
    assert(row(value(brains_of(Term::Input, e), given, f), 0, brain, i) == normed(
        means,
        Norm { w, b: shifts },
        f,
    ));
}

/// Attention of a brain over the time steps of a sequence, step by step: the
/// step's query meets the keys of all steps of that sequence, head by head, over
/// the root of the head's dimension. The values are summed by the softmax of that,
/// mapped, added to the step, and the sum is normalized with the first scale and
/// shift. Queries, keys and values are the first, the second and the last third of
/// one linear map.
pub proof fn law_attention_mixes_time_steps(
    h: Term,
    layer: nat,
    given: Given,
    c: SwarmConfig,
    batch: usize,
    seq: usize,
    f: Functions,
    brain: int,
    i: int,
    t: int,
)
    requires
        is_passed(given, c, batch, seq),
        layer < c.n_layers,
        is_sized(
            value(h, given, f),
            4,
            c.n_brains as int,
            batch as int,
            seq as int,
            c.d_model as int,
        ),
        0 <= brain < c.n_brains,
        0 <= i < batch,
        0 <= t < seq,
    ensures
        ({
            let width = c.d_model as nat;
            let hd = (c.d_model / c.n_heads) as nat;
            let l = layer as int;
            let own = value(h, given, f);
            let w = |k: int| given.weights[k];
            let joint = Seq::new(
                seq as nat,
                |u: int|
                    Seq::new(
                        3 * width,
                        |j: int|
                            dot(row(own, brain, i, u), row(w(2), l, brain, j)) + row(
                                w(3),
                                0,
                                l,
                                brain,
                            )[j],
                    ),
            );
            let attend = |joint: Seq<Seq<real>>, t: int|
                Seq::new(
                    width,
                    |j: int|
                        {
                            let first = (j / hd as int) * hd;
                            let score = |u: int|
                                total(
                                    Seq::new(
                                        hd,
                                        |i: int| joint[t][first + i] * joint[u][width + first + i],
                                    ),
                                ) * (f.inverse_root)(hd);
                            let sum = total(Seq::new(joint.len(), |u: int| (f.exp)(score(u))));
                            total(
                                Seq::new(
                                    joint.len(),
                                    |u: int| (f.exp)(score(u)) / sum * joint[u][2 * width + j],
                                ),
                            )
                        },
                );
            let more = Seq::new(
                width,
                |j: int|
                    row(own, brain, i, t)[j] + (dot(attend(joint, t), row(w(4), l, brain, j)) + row(
                        w(5),
                        0,
                        l,
                        brain,
                    )[j]),
            );
            let norm = |v: Seq<real>, w: Seq<real>, b: Seq<real>|
                {
                    let count = v.len() as real;
                    let mean = total(v) / count;
                    let spread = (f.root)(
                        total(Seq::new(v.len(), |i: int| (v[i] - mean) * (v[i] - mean))) / count
                            + (f.constant)(0x3ee4_f8b5_88e3_68f1),
                    );
                    Seq::new(v.len(), |i: int| (v[i] - mean) / spread * w[i] + b[i])
                };
            let y = value(mixed_of(h, layer, extent(c, batch, seq)), given, f);
            &&& is_sized(y, 4, c.n_brains as int, batch as int, seq as int, c.d_model as int)
            &&& row(y, brain, i, t) == norm(more, row(w(10), 0, l, brain), row(w(11), 0, l, brain))
        }),
{
    lemma_mixed_value(h, layer, c, batch, seq, given, f);
    lemma_param_size(given, c, batch, seq, 2);
    lemma_param_size(given, c, batch, seq, 3);
    lemma_param_size(given, c, batch, seq, 4);
    lemma_param_size(given, c, batch, seq, 5);
    let width = c.d_model as nat;
    let hd = (c.d_model / c.n_heads) as nat;
    let l = layer as int;
    let m = trained_layer(given, l, brain);
    let own = value(h, given, f);
    let all = matrix(own, brain, i);
    let w = |k: int| given.weights[k];
    let joint = Seq::new(
        seq as nat,
        |u: int|
            Seq::new(
                3 * width,
                |j: int|
                    dot(row(own, brain, i, u), row(w(2), l, brain, j)) + row(w(3), 0, l, brain)[j],
            ),
    );
    assert(affine_rows(all, m.joint) =~= joint) by {
        assert forall|u: int| 0 <= u < seq implies #[trigger] affine_rows(all, m.joint)[u]
            == joint[u] by {
            assert(affine_rows(all, m.joint)[u] =~= joint[u]);
        }
    }
    lemma_attention_formula(joint, t, width, hd, f);
    let attended = attention_row(joint, t, width, hd, f);
    let more = Seq::new(
        width,
        |j: int|
            row(own, brain, i, t)[j] + (dot(attended, row(w(4), l, brain, j)) + row(
                w(5),
                0,
                l,
                brain,
            )[j]),
    );
    let rest = affine_rows(attention_rows(joint, width, hd, f), m.out);
    assert(plus_rows(all, rest)[t] =~= more);
    lemma_norm_formula(more, row(w(10), 0, l, brain), row(w(11), 0, l, brain), f);
    let y = value(mixed_of(h, layer, extent(c, batch, seq)), given, f);
    assert(matrix(y, brain, i)[t] == row(y, brain, i, t));
    assert(mixed_rows(all, m, width, hd, f)[t] == normed(more, m.norm1, f));
}

/// The feed-forward block of a brain, step by step: the step is mapped, the
/// Gaussian unit is taken of each number, the result is mapped back and added to
/// the step, and the sum is normalized with the second scale and shift.
pub proof fn law_blocks_work_on_single_steps(
    h: Term,
    layer: nat,
    given: Given,
    c: SwarmConfig,
    batch: usize,
    seq: usize,
    f: Functions,
    brain: int,
    i: int,
    t: int,
)
    requires
        is_passed(given, c, batch, seq),
        layer < c.n_layers,
        is_sized(
            value(h, given, f),
            4,
            c.n_brains as int,
            batch as int,
            seq as int,
            c.d_model as int,
        ),
        0 <= brain < c.n_brains,
        0 <= i < batch,
        0 <= t < seq,
    ensures
        ({
            let l = layer as int;
            let own = row(value(h, given, f), brain, i, t);
            let w = |k: int| given.weights[k];
            let inner = Seq::new(
                c.ffn_dim as nat,
                |j: int| (f.gelu)(dot(own, row(w(6), l, brain, j)) + row(w(7), 0, l, brain)[j]),
            );
            let more = Seq::new(
                c.d_model as nat,
                |j: int| own[j] + (dot(inner, row(w(8), l, brain, j)) + row(w(9), 0, l, brain)[j]),
            );
            let norm = |v: Seq<real>, w: Seq<real>, b: Seq<real>|
                {
                    let count = v.len() as real;
                    let mean = total(v) / count;
                    let spread = (f.root)(
                        total(Seq::new(v.len(), |i: int| (v[i] - mean) * (v[i] - mean))) / count
                            + (f.constant)(0x3ee4_f8b5_88e3_68f1),
                    );
                    Seq::new(v.len(), |i: int| (v[i] - mean) / spread * w[i] + b[i])
                };
            let y = value(fed_of(h, layer, extent(c, batch, seq)), given, f);
            &&& is_sized(y, 4, c.n_brains as int, batch as int, seq as int, c.d_model as int)
            &&& row(y, brain, i, t) == norm(more, row(w(12), 0, l, brain), row(w(13), 0, l, brain))
        }),
{
    lemma_fed_value(h, layer, c, batch, seq, given, f);
    lemma_param_size(given, c, batch, seq, 6);
    lemma_param_size(given, c, batch, seq, 7);
    lemma_param_size(given, c, batch, seq, 8);
    lemma_param_size(given, c, batch, seq, 9);
    let l = layer as int;
    let m = trained_layer(given, l, brain);
    let all = matrix(value(h, given, f), brain, i);
    let own = row(value(h, given, f), brain, i, t);
    assert(all[t] == own);
    let w = |k: int| given.weights[k];
    let inner = Seq::new(
        c.ffn_dim as nat,
        |j: int| (f.gelu)(dot(own, row(w(6), l, brain, j)) + row(w(7), 0, l, brain)[j]),
    );
    assert(affine(own, m.ffn1).map_values(f.gelu) =~= inner);
    let more = Seq::new(
        c.d_model as nat,
        |j: int| own[j] + (dot(inner, row(w(8), l, brain, j)) + row(w(9), 0, l, brain)[j]),
    );
    assert(plus(own, affine(inner, m.ffn2)) =~= more);
    lemma_norm_formula(more, row(w(12), 0, l, brain), row(w(13), 0, l, brain), f);
    let y = value(fed_of(h, layer, extent(c, batch, seq)), given, f);
    assert(matrix(y, brain, i)[t] == row(y, brain, i, t));
    assert(fed_rows(all, m, f)[t] == fed_row(own, m, f));
    assert(fed_row(own, m, f) == normed(more, m.norm2, f));
}

} // verus!
