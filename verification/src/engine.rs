//! The inference loop: what to do with each reading of the features.

use vstd::prelude::*;
use vstd::string::*;
use crate::config::{
    law_symbols_round_trip, symbol_name, symbols, INPUT_DIM, NUM_SYMBOLS, SEQ_LEN,
};
use crate::ring::{
    last_sequence, law_sequence_is_latest_rows, law_sequences_are_the_last_rows, pushed, replayed,
    FeatureRingBuffer,
};
use crate::sequence::{flatten, flattened, law_rows_follow_each_other};
use crate::text::{decimal, decimal_text, join, joined};

verus! {

/// What to do after a reading.
#[derive(Debug)]
pub enum Step {
    /// There was nothing to read.
    Waiting { report: bool },
    /// There is not enough history yet. What is held may be due for a report.
    Buffering { counts: Option<String> },
    /// Run the model on these inputs, one for each symbol.
    Ready { inputs: Vec<Vec<u32>> },
}

/// The rows of the symbols after a reading: one more for each, or none where
/// there was nothing to read.
pub open spec fn advanced(
    rows: Seq<Seq<[u32; INPUT_DIM]>>,
    reading: Option<Seq<[u32; INPUT_DIM]>>,
) -> Seq<Seq<[u32; INPUT_DIM]>> {
    match reading {
        Some(snapshot) => Seq::new(NUM_SYMBOLS as nat, |k: int| pushed(rows[k], snapshot[k])),
        None => rows,
    }
}

/// Whether every symbol has a full sequence.
pub open spec fn ready(rows: Seq<Seq<[u32; INPUT_DIM]>>) -> bool {
    forall|k: int| 0 <= k < NUM_SYMBOLS ==> (#[trigger] rows[k]).len() >= SEQ_LEN
}

/// How many rows are held, symbol by symbol.
pub open spec fn counts_text(rows: Seq<Seq<[u32; INPUT_DIM]>>) -> Seq<char> {
    joined(
        Seq::new(NUM_SYMBOLS as nat, |k: int| symbols()[k] + "="@ + decimal(rows[k].len())),
        " "@,
    )
}

/// What a step has to be, with the rows and the tick after the reading.
pub open spec fn is_step(
    step: Step,
    rows: Seq<Seq<[u32; INPUT_DIM]>>,
    tick: int,
    read: bool,
) -> bool {
    match step {
        Step::Waiting { report } => !read && report == (tick % 10 == 0),
        Step::Buffering { counts } => read && !ready(rows) && (match counts {
            Some(text) => tick % 5 == 0 && text@ == counts_text(rows),
            None => tick % 5 != 0,
        }),
        Step::Ready { inputs } => {
            &&& read
            &&& ready(rows)
            &&& inputs@.len() == NUM_SYMBOLS
            &&& forall|k: int|
                0 <= k < NUM_SYMBOLS ==> (#[trigger] inputs@[k])@ == flattened(
                    last_sequence(rows[k])->0,
                )
        },
    }
}

/// Whether a line about a finished prediction is due: on the first three ticks
/// and once in sixty.
pub open spec fn status_due(tick: u64) -> bool {
    tick % 60 == 0 || tick <= 3
}

/// The inference loop's state: the rows read so far, and the ticks.
pub struct Engine {
    pub ring: FeatureRingBuffer,
    pub tick: u64,
}

impl Engine {
    /// The state before the first tick.
    pub fn new() -> (engine: Self)
        ensures
            engine.ring.wf(),
            engine.ring@ == initial_rows(),
            engine.tick == 0,
    {
        Engine { ring: FeatureRingBuffer::new(), tick: 0 }
    }

    /// Takes a reading: a row for each symbol, or nothing.
    pub fn step(&mut self, reading: Option<Vec<[u32; INPUT_DIM]>>) -> (step: Step)
        requires
            old(self).ring.wf(),
            old(self).tick < u64::MAX,
            reading matches Some(snapshot) ==> snapshot@.len() == NUM_SYMBOLS,
        ensures
            final(self).ring.wf(),
            final(self).tick == old(self).tick + 1,
            final(self).ring@ == advanced(
                old(self).ring@,
                match reading {
                    Some(snapshot) => Some(snapshot@),
                    None => None,
                },
            ),
            is_step(step, final(self).ring@, final(self).tick as int, reading is Some),
    {
        self.tick = self.tick + 1;
        match reading {
            None => Step::Waiting { report: self.tick % 10 == 0 },
            Some(snapshot) => {
                let ghost before = self.ring@;
                let mut k: usize = 0;
                while k < NUM_SYMBOLS
                    invariant
                        k <= NUM_SYMBOLS,
                        snapshot@.len() == NUM_SYMBOLS,
                        self.ring.wf(),
                        self.tick == old(self).tick + 1,
                        before.len() == NUM_SYMBOLS,
                        forall|j: int|
                            0 <= j < NUM_SYMBOLS ==> #[trigger] self.ring@[j] == (if j < k {
                                pushed(before[j], snapshot@[j])
                            } else {
                                before[j]
                            }),
                    decreases NUM_SYMBOLS - k,
                {
                    proof {
                        law_symbols_round_trip(k as nat, symbols()[k as int]);
                    }
                    self.ring.push(symbol_name(k), snapshot[k]);
                    k = k + 1;
                }
                assert(self.ring@ =~= advanced(before, Some(snapshot@)));
                self.decide()
            },
        }
    }

    fn decide(&self) -> (step: Step)
        requires
            self.ring.wf(),
        ensures
            is_step(step, self.ring@, self.tick as int, true),
    {
        let mut inputs: Vec<Vec<u32>> = Vec::new();
        let mut k: usize = 0;
        while k < NUM_SYMBOLS
            invariant
                k <= NUM_SYMBOLS,
                self.ring.wf(),
                inputs@.len() == k,
                forall|j: int| 0 <= j < k ==> (#[trigger] self.ring@[j]).len() >= SEQ_LEN,
                forall|j: int|
                    0 <= j < k ==> (#[trigger] inputs@[j])@ == flattened(
                        last_sequence(self.ring@[j])->0,
                    ),
            decreases NUM_SYMBOLS - k,
        {
            proof {
                law_symbols_round_trip(k as nat, symbols()[k as int]);
            }
            match self.ring.get_sequence(symbol_name(k)) {
                Some(rows) => {
                    let flat: Vec<u32> = flatten(&rows, 0, rows.len());
                    assert(rows@.subrange(0, rows@.len() as int) =~= rows@);
                    inputs.push(flat);
                },
                None => {
                    assert(!ready(self.ring@)) by {
                        assert(self.ring@[k as int].len() < SEQ_LEN);
                    }
                    let counts: Option<String> = if self.tick % 5 == 0 {
                        Some(self.counts())
                    } else {
                        None
                    };
                    return Step::Buffering { counts };
                },
            }
            k = k + 1;
        }
        Step::Ready { inputs }
    }

    fn counts(&self) -> (text: String)
        requires
            self.ring.wf(),
        ensures
            text@ == counts_text(self.ring@),
    {
        let ghost rows = self.ring@;
        let mut parts: Vec<String> = Vec::new();
        let mut k: usize = 0;
        while k < NUM_SYMBOLS
            invariant
                k <= NUM_SYMBOLS,
                self.ring.wf(),
                rows == self.ring@,
                parts@.len() == k,
                forall|j: int|
                    0 <= j < k ==> (#[trigger] parts@[j])@ == symbols()[j] + "="@ + decimal(
                        rows[j].len(),
                    ),
            decreases NUM_SYMBOLS - k,
        {
            let mut part: String = symbol_name(k).to_owned();
            part.append("=");
            let count: String = decimal_text(self.ring.rows(k));
            part.append(count.as_str());
            parts.push(part);
            k = k + 1;
        }
        assert(parts@.map_values(|s: String| s@) =~= Seq::new(
            NUM_SYMBOLS as nat,
            |k: int| symbols()[k] + "="@ + decimal(rows[k].len()),
        ));
        join(&parts, " ")
    }
}

/// Whether a line about a finished prediction is due.
pub fn is_status_due(tick: u64) -> (due: bool)
    ensures
        due == status_due(tick),
{
    tick % 60 == 0 || tick <= 3
}

/// No rows for any symbol.
pub open spec fn initial_rows() -> Seq<Seq<[u32; INPUT_DIM]>> {
    Seq::new(NUM_SYMBOLS as nat, |i: int| Seq::<[u32; INPUT_DIM]>::empty())
}

/// The rows of the symbols after a series of readings.
pub open spec fn rows_after(readings: Seq<Option<Seq<[u32; INPUT_DIM]>>>) -> Seq<
    Seq<[u32; INPUT_DIM]>,
>
    decreases readings.len(),
{
    if readings.len() == 0 {
        initial_rows()
    } else {
        advanced(rows_after(readings.drop_last()), readings.last())
    }
}

/// The snapshots among a series of readings.
pub open spec fn snapshots(readings: Seq<Option<Seq<[u32; INPUT_DIM]>>>) -> Seq<
    Seq<[u32; INPUT_DIM]>,
>
    decreases readings.len(),
{
    if readings.len() == 0 {
        seq![]
    } else {
        match readings.last() {
            Some(snapshot) => snapshots(readings.drop_last()).push(snapshot),
            None => snapshots(readings.drop_last()),
        }
    }
}

/// The rows of one symbol in a series of snapshots.
pub open spec fn rows_of(taken: Seq<Seq<[u32; INPUT_DIM]>>, symbol: int) -> Seq<
    [u32; INPUT_DIM],
> {
    taken.map_values(|snapshot: Seq<[u32; INPUT_DIM]>| snapshot[symbol])
}

proof fn lemma_rows_are_replayed(
    readings: Seq<Option<Seq<[u32; INPUT_DIM]>>>,
    symbol: int,
)
    requires
        0 <= symbol < NUM_SYMBOLS,
    ensures
        rows_after(readings)[symbol] == replayed(rows_of(snapshots(readings), symbol)),
    decreases readings.len(),
{
    if readings.len() == 0 {
        assert(rows_of(snapshots(readings), symbol) =~= seq![]);
    } else {
        lemma_rows_are_replayed(readings.drop_last(), symbol);
        if let Some(snapshot) = readings.last() {
            let earlier = rows_of(snapshots(readings.drop_last()), symbol);
            let all = rows_of(snapshots(readings), symbol);
            assert(all.drop_last() =~= earlier);
            assert(all.last() == snapshot[symbol]);
        }
    }
}

/// The model runs from the reading on that completes a sequence of snapshots,
/// whatever readings came to nothing in between, and each symbol's input is
/// made of its rows in the latest snapshots, in their order.
pub proof fn law_runs_once_enough_snapshots(
    readings: Seq<Option<Seq<[u32; INPUT_DIM]>>>,
    symbol: int,
)
    requires
        0 <= symbol < NUM_SYMBOLS,
    ensures
        ready(rows_after(readings)) <==> snapshots(readings).len() >= SEQ_LEN,
        last_sequence(rows_after(readings)[symbol]) == last_sequence(
            rows_of(snapshots(readings), symbol),
        ),
{
    let rows = rows_after(readings);
    let count = snapshots(readings).len();
    assert forall|k: int| 0 <= k < NUM_SYMBOLS implies ((#[trigger] rows[k]).len() >= SEQ_LEN
        <==> count >= SEQ_LEN) && last_sequence(rows[k]) == last_sequence(
        rows_of(snapshots(readings), k),
    ) by {
        lemma_rows_are_replayed(readings, k);
        law_sequence_is_latest_rows(rows_of(snapshots(readings), k));
        assert(rows_of(snapshots(readings), k).len() == count);
    }
    assert(rows[0].len() >= SEQ_LEN <==> count >= SEQ_LEN);
}

/// A step says what the reading allows: waiting where there was nothing to read,
/// running the model where every symbol has twenty rows or more, buffering
/// otherwise. Waiting is reported every tenth tick, what is held every fifth. The
/// model's input for a symbol is made of the symbol's last twenty rows, oldest
/// first, feature after feature.
pub proof fn law_steps_do_what_is_due(
    step: Step,
    rows: Seq<Seq<[u32; INPUT_DIM]>>,
    tick: int,
    read: bool,
    symbol: int,
    t: int,
    feature: int,
)
    requires
        is_step(step, rows, tick, read),
        0 <= symbol < 6,
        0 <= t < 20,
        0 <= feature < 54,
    ensures
        step is Waiting <==> !read,
        step is Ready <==> read && forall|k: int| 0 <= k < 6 ==> (#[trigger] rows[k]).len() >= 20,
        step matches Step::Waiting { report } ==> (report <==> tick % 10 == 0),
        step matches Step::Buffering { counts } ==> (counts is Some <==> tick % 5 == 0),
        step matches Step::Ready { inputs } ==> inputs@.len() == 6 && inputs@[symbol]@.len()
            == 20 * 54 && inputs@[symbol]@[54 * t + feature] == rows[symbol][rows[symbol].len() - 20
            + t]@[feature],
{
    if let Step::Ready { inputs } = step {
        let own = last_sequence(rows[symbol])->0;
        assert(rows[symbol].len() >= 20);
        law_rows_follow_each_other(own, t, feature);
        assert(inputs@[symbol]@ == flattened(own));
    }
}

/// Whatever readings came, the model's input for a symbol holds that symbol's
/// features of the twenty latest snapshots, oldest first; and the model runs
/// exactly where there was something to read and twenty snapshots are there.
pub proof fn law_inputs_are_the_latest_snapshots(
    readings: Seq<Option<Seq<[u32; INPUT_DIM]>>>,
    step: Step,
    tick: int,
    symbol: int,
    t: int,
    feature: int,
)
    requires
        readings.len() > 0,
        is_step(step, rows_after(readings), tick, readings.last() is Some),
        0 <= symbol < 6,
        0 <= t < 20,
        0 <= feature < 54,
    ensures
        step is Ready <==> readings.last() is Some && snapshots(readings).len() >= 20,
        step matches Step::Ready { inputs } ==> inputs@[symbol]@[54 * t + feature] == snapshots(
            readings,
        )[snapshots(readings).len() - 20 + t][symbol]@[feature],
{
    law_runs_once_enough_snapshots(readings, symbol);
    law_steps_do_what_is_due(
        step,
        rows_after(readings),
        tick,
        readings.last() is Some,
        symbol,
        t,
        feature,
    );
    let held = rows_after(readings)[symbol];
    let all = rows_of(snapshots(readings), symbol);
    if step is Ready {
        assert(held.len() >= 20);
        law_sequences_are_the_last_rows(held, t);
        law_sequences_are_the_last_rows(all, t);
        assert(all.len() == snapshots(readings).len());
    }
}

/// What is held is reported symbol by symbol, in the symbols' order.
pub proof fn law_counts_name_every_symbol(rows: Seq<Seq<[u32; INPUT_DIM]>>)
    ensures
        counts_text(rows) == "BTC"@ + "="@ + decimal(rows[0].len()) + " "@ + ("ETH"@ + "="@
            + decimal(rows[1].len())) + " "@ + ("SOL"@ + "="@ + decimal(rows[2].len())) + " "@ + (
        "HYPE"@ + "="@ + decimal(rows[3].len())) + " "@ + ("BNB"@ + "="@ + decimal(rows[4].len()))
            + " "@ + ("LINK"@ + "="@ + decimal(rows[5].len())),
{
    let parts = Seq::new(NUM_SYMBOLS as nat, |k: int| symbols()[k] + "="@ + decimal(rows[k].len()));
    let space = " "@;
    let five = parts.drop_last();
    let four = five.drop_last();
    let three = four.drop_last();
    let two = three.drop_last();
    let one = two.drop_last();
    assert(joined(one, space) == parts[0]);
    assert(joined(two, space) == parts[0] + space + parts[1]);
    assert(joined(three, space) == joined(two, space) + space + parts[2]);
    assert(joined(four, space) == joined(three, space) + space + parts[3]);
    assert(joined(five, space) == joined(four, space) + space + parts[4]);
    assert(joined(parts, space) == joined(five, space) + space + parts[5]);
}

/// A line about a finished prediction is due on the first three ticks, and from
/// one such tick after them to the next are sixty.
pub proof fn law_status_is_due_every_minute(tick: u64)
    ensures
        tick <= 3 ==> status_due(tick),
        3 < tick <= u64::MAX - 60 ==> (status_due(tick) <==> status_due((tick + 60) as u64)),
        status_due(60),
        60 < tick < 120 ==> !status_due(tick),
{
}

} // verus!
