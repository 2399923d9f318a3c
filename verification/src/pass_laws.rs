//! The inference pass, stage by stage: each number in terms of the numbers that
//! it is computed from, and of the tensors by the places at which they are loaded.

use vstd::prelude::*;
use crate::config::{D_MODEL, INPUT_DIM, NUM_BRAINS, NUM_LAYERS, SEQ_LEN};
use crate::evaluation::{is_sized, lemma_linear_value, lemma_norm_value, row_at};
use crate::forward::{linear_of, mean, norm_of, squeeze, unsqueeze};
use crate::graph::Term;
use crate::inference::{
    action_of, brains_of, combined, confidence_of, fed_of, gate_of, layer_of, layers_of, mixed_of,
    of_head,
};
use crate::inference_values::{
    has_weights, law_inference_computes_the_model, lemma_brains_value, lemma_combined_value,
    lemma_fed_value, lemma_gate_value, lemma_head_tensor, lemma_layer_tensor, lemma_layers_value,
    lemma_mixed_value, loaded_layer, loaded_swarm,
};
use crate::reals::{dot, plus, products, total};
use crate::rows::{
    affine, affine_rows, attention_row, attention_rows, centered, column, fed_row, fed_rows,
    mixed_rows, normed, part, plus_rows, shares, value_column, weighted, Norm,
};
use crate::shapes::inference_shapes;
use crate::swarm_laws::{confidence, is_loaded, probabilities};
use crate::tensor::{
    along, averaged, matrix, positive_part, repeated, row, softmax_of, squeezed, unsqueezed, value,
    At, Functions, Given,
};

verus! {

/// A normalization, number by number.
pub proof fn lemma_norm_formula(v: Seq<real>, w: Seq<real>, b: Seq<real>, f: Functions)
    ensures
        ({
            let count = v.len() as real;
            let mean = total(v) / count;
            let spread = (f.root)(
                total(Seq::new(v.len(), |i: int| (v[i] - mean) * (v[i] - mean))) / count
                    + (f.constant)(0x3ee4_f8b5_88e3_68f1),
            );
            normed(v, (Norm { w, b }), f) == Seq::new(
                v.len(),
                |i: int| (v[i] - mean) / spread * w[i] + b[i],
            )
        }),
{
    let count = v.len() as real;
    let mean = total(v) / count;
    let squares = Seq::new(v.len(), |i: int| (v[i] - mean) * (v[i] - mean));
    assert(centered(v).map_values(|x: real| x * x) =~= squares);
    let spread = (f.root)(total(squares) / count + (f.constant)(0x3ee4_f8b5_88e3_68f1));
    assert(normed(v, Norm { w, b }, f) =~= Seq::new(
        v.len(),
        |i: int| (v[i] - mean) / spread * w[i] + b[i],
    ));
}

/// The confidence is the logistic function of the score that the confidence head
/// gives to what the brains make together: its weights times that, plus its bias.
/// So without weights it is the logistic function of the bias.
pub proof fn law_confidence_is_the_logistic_of_a_score(given: Given, f: Functions)
    requires
        is_loaded(given),
    ensures
        ({
            let together = row(value(combined(), given, f), 0, 0, 0);
            let w = row(given.weights[58], 0, 0, 0);
            let b = row(given.weights[59], 0, 0, 0);
            &&& together.len() == 256
            &&& row(value(confidence_of(combined()), given, f), 0, 0, 0).len() == 1
            &&& confidence(given, f) == row(value(confidence_of(combined()), given, f), 0, 0, 0)[0]
            &&& confidence(given, f) == (f.sigmoid)(dot(together, w) + b[0])
            &&& (forall|k: int| 0 <= k < 256 ==> #[trigger] w[k] == 0real) ==> confidence(given, f)
                == (f.sigmoid)(b[0])
        }),
{
    lemma_combined_value(given, f);
    law_inference_computes_the_model(given, f);
    lemma_head_tensor(given, 10);
    lemma_head_tensor(given, 11);
    let together = row(value(combined(), given, f), 0, 0, 0);
    let w = row(given.weights[58], 0, 0, 0);
    if forall|k: int| 0 <= k < 256 ==> #[trigger] w[k] == 0real {
        lemma_dot_with_zeros(together, w);
    }
}

proof fn lemma_dot_with_zeros(x: Seq<real>, w: Seq<real>)
    requires
        w.len() == x.len(),
        forall|k: int| 0 <= k < w.len() ==> #[trigger] w[k] == 0real,
    ensures
        dot(x, w) == 0real,
    decreases x.len(),
{
    if x.len() > 0 {
        let fewer = x.drop_last();
        let rest = w.drop_last();
        assert forall|k: int| 0 <= k < rest.len() implies #[trigger] rest[k] == 0real by {
            assert(w[k] == 0real);
        }
        lemma_dot_with_zeros(fewer, rest);
        assert(products(x, w).drop_last() =~= products(fewer, rest));
        assert(w[x.len() - 1] == 0real);
        let a = x.last();
        assert(a * 0real == 0real) by (nonlinear_arith);
    }
}

/// The probability of an action is the exponential of its score over the sum of
/// those of all four. Its score is its weights times what the brains make
/// together, plus its bias.
pub proof fn law_probabilities_are_shares_of_scores(given: Given, f: Functions, class: int)
    requires
        is_loaded(given),
        0 <= class < 4,
    ensures
        ({
            let together = row(value(combined(), given, f), 0, 0, 0);
            let score = |c: int|
                dot(together, row(given.weights[56], 0, 0, c)) + row(given.weights[57], 0, 0, 0)[c];
            &&& probabilities(given, f) == row(value(action_of(combined()), given, f), 0, 0, 0)
            &&& probabilities(given, f).len() == 4
            &&& probabilities(given, f)[class] == (f.exp)(score(class)) / total(
                Seq::new(4, |c: int| (f.exp)(score(c))),
            )
        }),
{
    lemma_combined_value(given, f);
    law_inference_computes_the_model(given, f);
    lemma_head_tensor(given, 8);
    lemma_head_tensor(given, 9);
    let together = row(value(combined(), given, f), 0, 0, 0);
    let score = |c: int|
        dot(together, row(given.weights[56], 0, 0, c)) + row(given.weights[57], 0, 0, 0)[c];
    let logits = affine(together, loaded_swarm(given).action);
    assert(logits.map_values(f.exp) =~= Seq::new(4, |c: int| (f.exp)(score(c))));
}

/// What the brains make together is the sum of what each makes, weighted by how
/// much it counts.
pub proof fn law_brains_are_summed_by_their_shares(given: Given, f: Functions, k: int)
    requires
        is_loaded(given),
        0 <= k < 256,
    ensures
        ({
            let share = row(value(gate_of(Term::Input), given, f), 0, 0, 0);
            let brain = value(brains_of(Term::Input), given, f);
            &&& share.len() == 300
            &&& row(value(combined(), given, f), 0, 0, 0)[k] == total(
                Seq::new(300, |n: int| share[n] * row(brain, 0, 0, n)[k]),
            )
        }),
{
    lemma_combined_value(given, f);
    lemma_brains_value(given, f);
    lemma_gate_value(given, f);
    let share = row(value(gate_of(Term::Input), given, f), 0, 0, 0);
    let brain = value(brains_of(Term::Input), given, f);
    let rows = matrix(brain, 0, 0);
    assert(products(share, column(rows, k)) =~= Seq::new(
        300,
        |n: int| share[n] * row(brain, 0, 0, n)[k],
    ));
}

/// How much a brain counts depends on the last row of the sequence alone: it is
/// the exponential of the brain's score over the sum of those of all brains, and
/// the scores are linear in what is positive of a linear map of that row.
pub proof fn law_shares_are_by_the_last_row(given: Given, f: Functions, brain: int)
    requires
        is_loaded(given),
        0 <= brain < 300,
    ensures
        ({
            let last = row(given.input, 0, 0, 19);
            let hidden = Seq::new(
                256,
                |j: int|
                    {
                        let v = dot(last, row(given.weights[52], 0, 0, j)) + row(
                            given.weights[53],
                            0,
                            0,
                            0,
                        )[j];
                        if v > 0real {
                            v
                        } else {
                            0real
                        }
                    },
            );
            let score = |n: int|
                dot(hidden, row(given.weights[54], 0, 0, n)) + row(given.weights[55], 0, 0, 0)[n];
            row(value(gate_of(Term::Input), given, f), 0, 0, 0)[brain] == (f.exp)(score(brain))
                / total(Seq::new(300, |n: int| (f.exp)(score(n))))
        }),
{
    lemma_gate_value(given, f);
    lemma_head_tensor(given, 4);
    lemma_head_tensor(given, 5);
    lemma_head_tensor(given, 6);
    lemma_head_tensor(given, 7);
    let swarm = loaded_swarm(given);
    let last = row(given.input, 0, 0, 19);
    assert(matrix(given.input, 0, 0).last() == last);
    let hidden = Seq::new(
        256,
        |j: int|
            {
                let v = dot(last, row(given.weights[52], 0, 0, j)) + row(
                    given.weights[53],
                    0,
                    0,
                    0,
                )[j];
                if v > 0real {
                    v
                } else {
                    0real
                }
            },
    );
    assert(affine(last, swarm.gate1).map_values(|v: real| positive_part(v)) =~= hidden);
    let score = |n: int|
        dot(hidden, row(given.weights[54], 0, 0, n)) + row(given.weights[55], 0, 0, 0)[n];
    let scores = affine(hidden, swarm.gate2);
    assert(scores.map_values(f.exp) =~= Seq::new(300, |n: int| (f.exp)(score(n))));
}

/// Every brain starts from its own linear map of the rows of the sequence.
pub proof fn law_brains_start_from_the_sequence(
    given: Given,
    f: Functions,
    brain: int,
    t: int,
    k: int,
)
    requires
        is_loaded(given),
        0 <= brain < 300,
        0 <= t < 20,
        0 <= k < 256,
    ensures
        ({
            let rows = Term::Repeat(Box::new(unsqueeze(Term::Input, 0)), 0, 300);
            let first = linear_of(rows, Term::Weight(48), Term::Weight(49));
            &&& is_sized(value(first, given, f), 3, 1, 300, 20, 256)
            &&& row(value(first, given, f), 0, brain, t)[k] == dot(
                row(given.input, 0, 0, t),
                row(given.weights[48], 0, brain, k),
            ) + row(given.weights[49], 0, 0, brain)[k]
        }),
{
    let rows = Term::Repeat(Box::new(unsqueeze(Term::Input, 0)), 0, 300);
    lemma_head_tensor(given, 0);
    lemma_head_tensor(given, 1);
    reveal_with_fuel(value, 3);
    let vr = value(rows, given, f);
    assert(vr == repeated(unsqueezed(given.input, 0), 0, 300));
    assert(row(vr, 0, brain, t) =~= row(given.input, 0, 0, t));
    lemma_linear_value(
        rows,
        Term::Weight(48),
        Term::Weight(49),
        given,
        f,
        300,
        20,
        INPUT_DIM as int,
        256,
    );
    let first = linear_of(rows, Term::Weight(48), Term::Weight(49));
    assert(row(value(first, given, f), 0, brain, t).len() == 256);
}

/// The four layers follow each other, each on what the one before it gives.
pub proof fn law_layers_follow_each_other(x: Term, rows: nat)
    ensures
        layers_of(x, 4, rows) == layer_of(
            layer_of(layer_of(layer_of(x, 0, rows), 1, rows), 2, rows),
            3,
            rows,
        ),
        forall|y: Term, layer: nat| #[trigger]
            layer_of(y, layer, rows) == fed_of(mixed_of(y, layer, rows), layer),
{
    reveal_with_fuel(layers_of, 5);
}

/// What a brain makes of a sequence is the mean of its rows behind the last layer,
/// normalized with its own scale and shift.
pub proof fn law_brains_end_in_a_normalized_mean(given: Given, f: Functions, brain: int)
    requires
        is_loaded(given),
        0 <= brain < 300,
    ensures
        ({
            let rows = Term::Repeat(Box::new(unsqueeze(Term::Input, 0)), 0, 300);
            let first = linear_of(rows, Term::Weight(48), Term::Weight(49));
            let h = value(layers_of(first, 4, 20), given, f);
            let means = Seq::new(
                256,
                |k: int| total(Seq::new(20, |t: int| row(h, 0, brain, t)[k])) / 20real,
            );
            let norm = |v: Seq<real>, w: Seq<real>, b: Seq<real>|
                {
                    let count = v.len() as real;
                    let mean = total(v) / count;
                    let spread = (f.root)(
                        total(Seq::new(v.len(), |i: int| (v[i] - mean) * (v[i] - mean))) / count
                            + (f.constant)(0x3ee4_f8b5_88e3_68f1),
                    );
                    Seq::new(v.len(), |i: int| (v[i] - mean) / spread * w[i] + b[i])
                };
            &&& is_sized(h, 3, 1, 300, 20, 256)
            &&& row(value(brains_of(Term::Input), given, f), 0, 0, brain) == norm(
                means,
                row(given.weights[50], 0, 0, brain),
                row(given.weights[51], 0, 0, brain),
            )
        }),
{
    let n = NUM_BRAINS as int;
    let d = D_MODEL as int;
    let rows = Term::Repeat(Box::new(unsqueeze(Term::Input, 0)), 0, 300);
    let first = linear_of(rows, Term::Weight(48), Term::Weight(49));
    law_brains_start_from_the_sequence(given, f, brain, 0, 0);
    lemma_layers_value(first, NUM_LAYERS as nat, SEQ_LEN as nat, given, f);
    lemma_head_tensor(given, 2);
    lemma_head_tensor(given, 3);
    let h = layers_of(first, 4, 20);
    let vh = value(h, given, f);
    reveal_with_fuel(value, 3);
    let pooled = squeeze(mean(h, 1), 1);
    let vp = value(pooled, given, f);
    assert(vp == squeezed(averaged(vh, 1), 1));
    assert(is_sized(vp, 2, 1, 1, n, d));
    lemma_norm_value(pooled, 1, of_head(2), of_head(3), given, f);
    assert(brains_of(Term::Input) == norm_of(pooled, 1, of_head(2), of_head(3)));
    let means = Seq::new(
        256,
        |k: int| total(Seq::new(20, |t: int| row(vh, 0, brain, t)[k])) / 20real,
    );
    assert(row(vp, 0, 0, brain) =~= means) by {
        assert forall|k: int| 0 <= k < d implies #[trigger] row(vp, 0, 0, brain)[k] == means[k] by {
            assert(along(vh, 2, At { a: 0, b: brain, c: 0, d: k }) =~= Seq::new(
                20,
                |t: int| row(vh, 0, brain, t)[k],
            ));
        }
    }
    let w = row(given.weights[50], 0, 0, brain);
    let b = row(given.weights[51], 0, 0, brain);
    assert(row_at(given.weights[50], 0, 0, brain) == w);
    assert(row_at(given.weights[51], 0, 0, brain) == b);
    lemma_norm_formula(means, w, b, f);
    assert(row(value(brains_of(Term::Input), given, f), 0, 0, brain) == normed(
        means,
        Norm { w, b },
        f,
    ));
}

/// Attention of a row, number by number.
pub proof fn lemma_attention_formula(
    joint: Seq<Seq<real>>,
    t: int,
    width: nat,
    hd: nat,
    f: Functions,
)
    requires
        0 <= t < joint.len(),
    ensures
        ({
            let attend = |joint: Seq<Seq<real>>, t: int|
                Seq::new(
                    width,
                    |j: int|
                        {
                            let first = (j / hd as int) * hd;
                            let score = |u: int|
                                total(
                                    Seq::new(
                                        hd,
                                        |i: int| joint[t][first + i] * joint[u][width + first + i],
                                    ),
                                ) * (f.inverse_root)(hd);
                            let sum = total(Seq::new(joint.len(), |u: int| (f.exp)(score(u))));
                            total(
                                Seq::new(
                                    joint.len(),
                                    |u: int| (f.exp)(score(u)) / sum * joint[u][2 * width + j],
                                ),
                            )
                        },
                );
            attention_row(joint, t, width, hd, f) == attend(joint, t)
        }),
{
    let attend = |joint: Seq<Seq<real>>, t: int|
                Seq::new(
                    width,
                    |j: int|
                        {
                            let first = (j / hd as int) * hd;
                            let score = |u: int|
                                total(
                                    Seq::new(
                                        hd,
                                        |i: int| joint[t][first + i] * joint[u][width + first + i],
                                    ),
                                ) * (f.inverse_root)(hd);
                            let sum = total(Seq::new(joint.len(), |u: int| (f.exp)(score(u))));
                            total(
                                Seq::new(
                                    joint.len(),
                                    |u: int| (f.exp)(score(u)) / sum * joint[u][2 * width + j],
                                ),
                            )
                        },
                );
    assert forall|j: int| 0 <= j < width implies #[trigger] attention_row(
        joint,
        t,
        width,
        hd,
        f,
    )[j] == attend(joint, t)[j] by {
        let head = j / hd as int;
        let first = head * hd;
        let score = |u: int|
            total(
                Seq::new(hd, |i: int| joint[t][first + i] * joint[u][width + first + i]),
            ) * (f.inverse_root)(hd);
        let by_row = |x: Seq<real>|
            dot(part(joint[t], head * hd, hd), part(x, width + head * hd, hd))
                * (f.inverse_root)(hd);
        let scores = joint.map_values(by_row);
        assert forall|u: int| 0 <= u < joint.len() implies #[trigger] scores[u] == score(u) by {
            assert(products(part(joint[t], first, hd), part(joint[u], width + first, hd))
                =~= Seq::new(hd, |i: int| joint[t][first + i] * joint[u][width + first + i]));
        }
        let exps = Seq::new(joint.len(), |u: int| (f.exp)(score(u)));
        assert(scores.map_values(f.exp) =~= exps);
        let sum = total(exps);
        let own = shares(joint, t, head, width, hd, f);
        assert(own == softmax_of(scores, f));
        let terms = Seq::new(
            joint.len(),
            |u: int| (f.exp)(score(u)) / sum * joint[u][2 * width + j],
        );
        assert(products(own, value_column(joint, width, j)) =~= terms);
        assert(attention_row(joint, t, width, hd, f)[j] == total(terms));
        assert(attend(joint, t)[j] == total(terms));
    }
    assert(attention_row(joint, t, width, hd, f) =~= attend(joint, t));
}

/// Attention of a brain, row by row: the row's query meets the keys of all rows,
/// head by head, over the root of the head's dimension. The values are summed by
/// the softmax of that, mapped, added to the row, and the sum is normalized with
/// the first scale and shift. Queries, keys and values are the first, the second
/// and the last third of one linear map of the rows.
pub proof fn law_attention_mixes_rows(
    x: Term,
    layer: nat,
    rows: nat,
    given: Given,
    f: Functions,
    brain: int,
    t: int,
)
    requires
        layer < 4,
        rows > 0,
        has_weights(given, inference_shapes()),
        is_sized(value(x, given, f), 3, 1, 300, rows as int, 256),
        0 <= brain < 300,
        0 <= t < rows,
    ensures
        ({
            let width: nat = 256;
            let hd: nat = 32;
            let own = value(x, given, f);
            let w = |k: int| given.weights[12 * layer + k];
            let joint = Seq::new(
                rows,
                |u: int|
                    Seq::new(
                        768,
                        |j: int|
                            dot(row(own, 0, brain, u), row(w(0), 0, brain, j)) + row(
                                w(1),
                                0,
                                0,
                                brain,
                            )[j],
                    ),
            );
            let attend = |joint: Seq<Seq<real>>, t: int|
                Seq::new(
                    width,
                    |j: int|
                        {
                            let first = (j / hd as int) * hd;
                            let score = |u: int|
                                total(
                                    Seq::new(
                                        hd,
                                        |i: int| joint[t][first + i] * joint[u][width + first + i],
                                    ),
                                ) * (f.inverse_root)(hd);
                            let sum = total(Seq::new(joint.len(), |u: int| (f.exp)(score(u))));
                            total(
                                Seq::new(
                                    joint.len(),
                                    |u: int| (f.exp)(score(u)) / sum * joint[u][2 * width + j],
                                ),
                            )
                        },
                );
            let more = Seq::new(
                width,
                |j: int|
                    row(own, 0, brain, t)[j] + (dot(attend(joint, t), row(w(2), 0, brain, j)) + row(
                        w(3),
                        0,
                        0,
                        brain,
                    )[j]),
            );
            let norm = |v: Seq<real>, w: Seq<real>, b: Seq<real>|
                {
                    let count = v.len() as real;
                    let mean = total(v) / count;
                    let spread = (f.root)(
                        total(Seq::new(v.len(), |i: int| (v[i] - mean) * (v[i] - mean))) / count
                            + (f.constant)(0x3ee4_f8b5_88e3_68f1),
                    );
                    Seq::new(v.len(), |i: int| (v[i] - mean) / spread * w[i] + b[i])
                };
            &&& is_sized(value(mixed_of(x, layer, rows), given, f), 3, 1, 300, rows as int, 256)
            &&& row(value(mixed_of(x, layer, rows), given, f), 0, brain, t) == norm(
                more,
                row(w(4), 0, 0, brain),
                row(w(5), 0, 0, brain),
            )
        }),
{
    lemma_mixed_value(x, layer, rows, given, f);
    lemma_layer_tensor(given, layer, 0);
    lemma_layer_tensor(given, layer, 1);
    lemma_layer_tensor(given, layer, 2);
    lemma_layer_tensor(given, layer, 3);
    let width: nat = 256;
    let hd: nat = 32;
    let m = loaded_layer(given, layer as int, brain);
    let own = value(x, given, f);
    let all = matrix(own, 0, brain);
    let w = |k: int| given.weights[12 * layer + k];
    let joint = Seq::new(
        rows,
        |u: int|
            Seq::new(
                768,
                |j: int|
                    dot(row(own, 0, brain, u), row(w(0), 0, brain, j)) + row(w(1), 0, 0, brain)[j],
            ),
    );
    assert(affine_rows(all, m.joint) =~= joint) by {
        assert forall|u: int| 0 <= u < rows implies #[trigger] affine_rows(all, m.joint)[u]
            == joint[u] by {
            assert(affine_rows(all, m.joint)[u] =~= joint[u]);
        }
    }
    lemma_attention_formula(joint, t, width, hd, f);
    let attended = attention_row(joint, t, width, hd, f);
    let more = Seq::new(
        width,
        |j: int|
            row(own, 0, brain, t)[j] + (dot(attended, row(w(2), 0, brain, j)) + row(
                w(3),
                0,
                0,
                brain,
            )[j]),
    );
    let rest = affine_rows(attention_rows(joint, width, hd, f), m.out);
    assert(plus_rows(all, rest)[t] =~= more);
    lemma_norm_formula(more, row(w(4), 0, 0, brain), row(w(5), 0, 0, brain), f);
    let y = value(mixed_of(x, layer, rows), given, f);
    assert(matrix(y, 0, brain)[t] == row(y, 0, brain, t));
    assert(mixed_rows(all, m, width, hd, f)[t] == normed(more, m.norm1, f));
}

/// The feed-forward block of a brain, row by row: the row is mapped, the Gaussian
/// unit is taken of each number, the result is mapped back and added to the row,
/// and the sum is normalized with the second scale and shift.
pub proof fn law_blocks_work_on_single_rows(
    y: Term,
    layer: nat,
    rows: nat,
    given: Given,
    f: Functions,
    brain: int,
    t: int,
)
    requires
        layer < 4,
        has_weights(given, inference_shapes()),
        is_sized(value(y, given, f), 3, 1, 300, rows as int, 256),
        0 <= brain < 300,
        0 <= t < rows,
    ensures
        ({
            let own = row(value(y, given, f), 0, brain, t);
            let w = |k: int| given.weights[12 * layer + k];
            let inner = Seq::new(
                1024,
                |j: int|
                    (f.gelu)(dot(own, row(w(6), 0, brain, j)) + row(w(7), 0, 0, brain)[j]),
            );
            let more = Seq::new(
                256,
                |j: int|
                    own[j] + (dot(inner, row(w(8), 0, brain, j)) + row(w(9), 0, 0, brain)[j]),
            );
            let norm = |v: Seq<real>, w: Seq<real>, b: Seq<real>|
                {
                    let count = v.len() as real;
                    let mean = total(v) / count;
                    let spread = (f.root)(
                        total(Seq::new(v.len(), |i: int| (v[i] - mean) * (v[i] - mean))) / count
                            + (f.constant)(0x3ee4_f8b5_88e3_68f1),
                    );
                    Seq::new(v.len(), |i: int| (v[i] - mean) / spread * w[i] + b[i])
                };
            &&& is_sized(value(fed_of(y, layer), given, f), 3, 1, 300, rows as int, 256)
            &&& row(value(fed_of(y, layer), given, f), 0, brain, t) == norm(
                more,
                row(w(10), 0, 0, brain),
                row(w(11), 0, 0, brain),
            )
        }),
{
    lemma_fed_value(y, layer, rows, given, f);
    lemma_layer_tensor(given, layer, 6);
    lemma_layer_tensor(given, layer, 7);
    lemma_layer_tensor(given, layer, 8);
    lemma_layer_tensor(given, layer, 9);
    let m = loaded_layer(given, layer as int, brain);
    let all = matrix(value(y, given, f), 0, brain);
    let own = row(value(y, given, f), 0, brain, t);
    assert(all[t] == own);
    let w = |k: int| given.weights[12 * layer + k];
    let inner = Seq::new(
        1024,
        |j: int| (f.gelu)(dot(own, row(w(6), 0, brain, j)) + row(w(7), 0, 0, brain)[j]),
    );
    assert(affine(own, m.ffn1).map_values(f.gelu) =~= inner);
    let more = Seq::new(
        256,
        |j: int| own[j] + (dot(inner, row(w(8), 0, brain, j)) + row(w(9), 0, 0, brain)[j]),
    );
    assert(plus(own, affine(inner, m.ffn2)) =~= more);
    lemma_norm_formula(more, row(w(10), 0, 0, brain), row(w(11), 0, 0, brain), f);
    let z = value(fed_of(y, layer), given, f);
    assert(matrix(z, 0, brain)[t] == row(z, 0, brain, t));
    assert(fed_rows(all, m, f)[t] == fed_row(own, m, f));
    assert(fed_row(own, m, f) == normed(more, m.norm2, f));
}

} // verus!
