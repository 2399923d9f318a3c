//! Predictions out of what the model returns.

use vstd::prelude::*;
use vstd::string::*;
use crate::config::{
    class_name, class_names, class_of, law_class_names_round_trip, law_symbols_round_trip,
    symbol_name, symbol_position, symbols, NUM_BRAINS, NUM_CLASSES, NUM_SYMBOLS, SEQ_LEN,
};
use crate::ieee::{
    is_single_nan, law_single_rank_orders_values, rank_of_single, single_is_nan, single_rank,
    single_value,
};

verus! {

/// What the model says of one symbol. Probabilities and confidence are in
/// single precision, the time in double precision.
#[derive(Debug)]
pub struct Prediction {
    pub symbol: String,
    pub action: String,
    pub action_probs: Vec<(String, u32)>,
    pub confidence: u32,
    pub inference_ms: u64,
    pub seq_len: usize,
    pub top_active_brains: usize,
}

/// What the model says of all symbols at one tick, in their order.
#[derive(Debug)]
pub struct Output {
    pub tick: u64,
    pub timestamp: String,
    pub predictions: Vec<Prediction>,
    pub model: String,
    pub total_inference_ms: u64,
}

/// Whether a class is the last of those with the highest probability.
pub open spec fn is_best(probs: Seq<u32>, class: int) -> bool {
    &&& 0 <= class < probs.len()
    &&& forall|j: int|
        0 <= j <= class ==> single_rank(#[trigger] probs[j]) <= single_rank(probs[class])
    &&& forall|j: int|
        class < j < probs.len() ==> single_rank(#[trigger] probs[j]) < single_rank(probs[class])
}

/// Whether some probability is a NaN.
pub open spec fn has_nan(probs: Seq<u32>) -> bool {
    exists|j: int| 0 <= j < probs.len() && single_is_nan(#[trigger] probs[j])
}

impl Prediction {
    /// Whether this is what the model says of a symbol, for these results.
    pub open spec fn states(
        &self,
        symbol: nat,
        probs: Seq<u32>,
        confidence: u32,
        inference_ms: u64,
    ) -> bool {
        &&& self.symbol@ == symbols()[symbol as int]
        &&& exists|class: int|
            #[trigger] is_best(probs, class) && self.action@ == class_names()[class]
        &&& self.action_probs@.len() == NUM_CLASSES
        &&& forall|c: int|
            0 <= c < NUM_CLASSES ==> (#[trigger] self.action_probs@[c]).0@ == class_names()[c]
                && self.action_probs@[c].1 == probs[c]
        &&& self.confidence == confidence
        &&& self.inference_ms == inference_ms
        &&& self.seq_len == SEQ_LEN
        &&& self.top_active_brains == NUM_BRAINS
    }
}

/// The class of highest probability, the last one where several are highest.
/// Probabilities with a NaN among them have none.
pub fn best_class(probs: &[u32; NUM_CLASSES]) -> (best: Option<usize>)
    ensures
        match best {
            Some(class) => !has_nan(probs@) && is_best(probs@, class as int),
            None => has_nan(probs@),
        },
{
    let mut best: usize = 0;
    let mut i: usize = 0;
    while i < NUM_CLASSES
        invariant
            i <= NUM_CLASSES,
            best <= i,
            best < NUM_CLASSES,
            forall|j: int| 0 <= j < i ==> !single_is_nan(#[trigger] probs@[j]),
            forall|j: int|
                0 <= j < i && j <= best ==> single_rank(#[trigger] probs@[j]) <= single_rank(
                    probs@[best as int],
                ),
            forall|j: int|
                best < j < i ==> single_rank(#[trigger] probs@[j]) < single_rank(
                    probs@[best as int],
                ),
        decreases NUM_CLASSES - i,
    {
        if is_single_nan(probs[i]) {
            return None;
        }
        if rank_of_single(probs[i]) >= rank_of_single(probs[best]) {
            best = i;
        }
        i = i + 1;
    }
    Some(best)
}

/// What the model says of the symbol at a position. There is no prediction
/// where a probability is a NaN.
pub fn predict(
    symbol: usize,
    probs: &[u32; NUM_CLASSES],
    confidence: u32,
    inference_ms: u64,
) -> (prediction: Option<Prediction>)
    requires
        symbol < NUM_SYMBOLS,
    ensures
        match prediction {
            Some(p) => !has_nan(probs@) && p.states(
                symbol as nat,
                probs@,
                confidence,
                inference_ms,
            ),
            None => has_nan(probs@),
        },
{
    match best_class(probs) {
        None => None,
        Some(class) => {
            let mut action_probs: Vec<(String, u32)> = Vec::new();
            let mut c: usize = 0;
            while c < NUM_CLASSES
                invariant
                    c <= NUM_CLASSES,
                    action_probs@.len() == c,
                    forall|j: int|
                        0 <= j < c ==> (#[trigger] action_probs@[j]).0@ == class_names()[j]
                            && action_probs@[j].1 == probs@[j],
                decreases NUM_CLASSES - c,
            {
                action_probs.push((class_name(c).to_owned(), probs[c]));
                c = c + 1;
            }
            Some(
                Prediction {
                    symbol: symbol_name(symbol).to_owned(),
                    action: class_name(class).to_owned(),
                    action_probs,
                    confidence,
                    inference_ms,
                    seq_len: SEQ_LEN,
                    top_active_brains: NUM_BRAINS,
                },
            )
        },
    }
}

/// Puts the predictions of a tick together, under the model's name.
pub fn report(
    tick: u64,
    timestamp: String,
    predictions: Vec<Prediction>,
    total_inference_ms: u64,
) -> (output: Output)
    ensures
        output.tick == tick,
        output.timestamp == timestamp,
        output.predictions == predictions,
        output.model@ == "burn_swarm_v3_300b_temporal_metal"@,
        output.total_inference_ms == total_inference_ms,
{
    Output {
        tick,
        timestamp,
        predictions,
        model: "burn_swarm_v3_300b_temporal_metal".to_owned(),
        total_inference_ms,
    }
}

/// The first three characters of an action, or all of it where it is shorter.
pub fn short_action(action: &str) -> (short: String)
    ensures
        short@ == action@.take(
            if action@.len() < 3 {
                action@.len() as int
            } else {
                3
            },
        ),
{
    let length: usize = action.unicode_len();
    let end: usize = if length < 3 {
        length
    } else {
        3
    };
    let short: &str = action.substring_char(0, end);
    assert(short@ =~= action@.take(end as int));
    short.to_owned()
}

/// There is never more than one best class.
pub proof fn law_best_class_is_unique(probs: Seq<u32>, a: int, b: int)
    requires
        is_best(probs, a),
        is_best(probs, b),
    ensures
        a == b,
{
    if a < b {
        assert(single_rank(probs[b]) < single_rank(probs[a]));
        assert(single_rank(probs[a]) <= single_rank(probs[b]));
    } else if b < a {
        assert(single_rank(probs[a]) < single_rank(probs[b]));
        assert(single_rank(probs[b]) <= single_rank(probs[a]));
    }
}

/// A prediction gives the probability of each action under that action's name:
/// an entry's number is what the model returned for the class of its name, and
/// no two of the four entries have one name. The reported action is one of
/// them, none has a higher probability, and none of a later class has as high a
/// one. The prediction is of the symbol that was asked for, with the confidence
/// and the time that were given.
pub proof fn law_predictions_name_what_the_model_returned(
    prediction: Prediction,
    symbol: nat,
    probs: Seq<u32>,
    confidence: u32,
    inference_ms: u64,
)
    requires
        symbol < 6,
        probs.len() == 4,
        prediction.states(symbol, probs, confidence, inference_ms),
    ensures
        prediction.action_probs@.len() == 4,
        forall|j: int|
            0 <= j < 4 ==> (class_of((#[trigger] prediction.action_probs@[j]).0@) matches Some(c)
                && c < 4 && prediction.action_probs@[j].1 == probs[c as int]),
        forall|i: int, j: int|
            0 <= i < j < 4 ==> (#[trigger] prediction.action_probs@[i]).0@ != (
            #[trigger] prediction.action_probs@[j]).0@,
        class_of(prediction.action@) matches Some(best) && best < 4 && forall|c: nat|
            c < 4 ==> single_value(#[trigger] probs[c as int]) <= single_value(
                probs[best as int],
            ) && (single_value(probs[c as int]) == single_value(probs[best as int]) ==> c <= best),
        symbol_position(prediction.symbol@) == Some(symbol),
        prediction.confidence == confidence,
        prediction.inference_ms == inference_ms,
        prediction.seq_len == 20,
        prediction.top_active_brains == 300,
{
    let class = choose|class: int|
        #[trigger] is_best(probs, class) && prediction.action@ == class_names()[class];
    law_class_names_round_trip(class as nat, seq![]);
    law_symbols_round_trip(symbol, seq![]);
    assert forall|j: int| 0 <= j < 4 implies (class_of(
        (#[trigger] prediction.action_probs@[j]).0@,
    ) matches Some(c) && c == j && prediction.action_probs@[j].1 == probs[c as int]) by {
        law_class_names_round_trip(j as nat, seq![]);
    }
    assert forall|i: int, j: int| 0 <= i < j < 4 implies (
    #[trigger] prediction.action_probs@[i]).0@ != (#[trigger] prediction.action_probs@[j]).0@ by {
        assert(class_of(prediction.action_probs@[i].0@) == Some(i as nat));
        assert(class_of(prediction.action_probs@[j].0@) == Some(j as nat));
    }
    assert forall|c: nat| c < 4 implies single_value(#[trigger] probs[c as int])
        <= single_value(probs[class]) && (single_value(probs[c as int]) == single_value(
        probs[class],
    ) ==> c <= class) by {
        law_single_rank_orders_values(probs[c as int], probs[class]);
    }
}

/// Predictions differ where what the model returned does: two predictions of
/// equal entries come from equal probabilities.
pub proof fn law_predictions_keep_all_probabilities(
    a: Prediction,
    b: Prediction,
    symbol: nat,
    a_probs: Seq<u32>,
    b_probs: Seq<u32>,
    confidence: u32,
    inference_ms: u64,
)
    requires
        symbol < 6,
        a_probs.len() == 4,
        b_probs.len() == 4,
        a.states(symbol, a_probs, confidence, inference_ms),
        b.states(symbol, b_probs, confidence, inference_ms),
        forall|j: int| 0 <= j < 4 ==> (#[trigger] a.action_probs@[j]).1 == b.action_probs@[j].1,
    ensures
        a_probs == b_probs,
{
    assert forall|j: int| 0 <= j < 4 implies a_probs[j] == b_probs[j] by {
        assert(a.action_probs@[j].1 == b.action_probs@[j].1);
    }
    assert(a_probs =~= b_probs);
}

/// There is no prediction exactly where one of the four probabilities is no
/// number.
pub proof fn law_predictions_need_numbers(probs: Seq<u32>)
    requires
        probs.len() == 4,
    ensures
        has_nan(probs) <==> single_is_nan(probs[0]) || single_is_nan(probs[1]) || single_is_nan(
            probs[2],
        ) || single_is_nan(probs[3]),
{
    if has_nan(probs) {
        let j = choose|j: int| 0 <= j < probs.len() && single_is_nan(#[trigger] probs[j]);
        assert(j == 0 || j == 1 || j == 2 || j == 3);
    }
}

/// A short action begins the action, and only leaves out what is behind its third
/// character.
pub proof fn law_short_actions_begin_the_action(action: &str, short: String)
    requires
        call_ensures(short_action, (action,), short),
    ensures
        short@.len() <= 3,
        short@.len() <= action@.len(),
        short@.len() == 3 || short@.len() == action@.len(),
        forall|i: int| 0 <= i < short@.len() ==> #[trigger] short@[i] == action@[i],
{
}

} // verus!
