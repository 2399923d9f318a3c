//! The latest feature rows of every symbol.

use vstd::prelude::*;
use crate::config::{symbol_index, symbol_position, INPUT_DIM, NUM_SYMBOLS, SEQ_LEN};

verus! {

/// Rows above which a symbol's history is cut back to one sequence.
pub const MAX_ROWS: usize = 40;

/// A symbol's rows after one more: at the end, and cut back to the last
/// sequence where there are too many.
pub open spec fn pushed(rows: Seq<[u32; INPUT_DIM]>, row: [u32; INPUT_DIM]) -> Seq<
    [u32; INPUT_DIM],
> {
    let more = rows.push(row);
    if more.len() > MAX_ROWS {
        more.skip(more.len() - SEQ_LEN)
    } else {
        more
    }
}

/// The last sequence of a symbol's rows, once there are enough of them.
pub open spec fn last_sequence(rows: Seq<[u32; INPUT_DIM]>) -> Option<Seq<[u32; INPUT_DIM]>> {
    if rows.len() < SEQ_LEN {
        None
    } else {
        Some(rows.skip(rows.len() - SEQ_LEN))
    }
}

/// A symbol's rows after a history of them.
pub open spec fn replayed(history: Seq<[u32; INPUT_DIM]>) -> Seq<[u32; INPUT_DIM]>
    decreases history.len(),
{
    if history.len() == 0 {
        seq![]
    } else {
        pushed(replayed(history.drop_last()), history.last())
    }
}

/// The latest feature rows of every symbol.
pub struct FeatureRingBuffer {
    buffer: Vec<Vec<[u32; INPUT_DIM]>>,
}

impl View for FeatureRingBuffer {
    type V = Seq<Seq<[u32; INPUT_DIM]>>;

    /// The rows of each symbol, oldest first, in the order of the symbols.
    closed spec fn view(&self) -> Seq<Seq<[u32; INPUT_DIM]>> {
        Seq::new(self.buffer@.len(), |i: int| self.buffer@[i]@)
    }
}

impl FeatureRingBuffer {
    /// There are rows for each symbol, and never too many.
    pub open spec fn wf(&self) -> bool {
        &&& self@.len() == NUM_SYMBOLS
        &&& forall|i: int| 0 <= i < NUM_SYMBOLS ==> (#[trigger] self@[i]).len() <= MAX_ROWS
    }

    /// A buffer without rows.
    pub fn new() -> (ring: Self)
        ensures
            ring.wf(),
            ring@ == Seq::new(NUM_SYMBOLS as nat, |i: int| Seq::<[u32; INPUT_DIM]>::empty()),
    {
        let mut buffer: Vec<Vec<[u32; INPUT_DIM]>> = Vec::new();
        let mut i: usize = 0;
        while i < NUM_SYMBOLS
            invariant
                i <= NUM_SYMBOLS,
                buffer@.len() == i,
                forall|j: int|
                    0 <= j < i ==> (#[trigger] buffer@[j])@ == Seq::<[u32; INPUT_DIM]>::empty(),
            decreases NUM_SYMBOLS - i,
        {
            buffer.push(Vec::new());
            i = i + 1;
        }
        let ring: FeatureRingBuffer = FeatureRingBuffer { buffer };
        assert(ring@ =~= Seq::new(
            NUM_SYMBOLS as nat,
            |i: int| Seq::<[u32; INPUT_DIM]>::empty(),
        ));
        ring
    }

    /// Adds a row to a symbol's. A symbol that is not followed is passed over.
    pub fn push(&mut self, symbol: &str, row: [u32; INPUT_DIM])
        requires
            old(self).wf(),
        ensures
            final(self).wf(),
            final(self)@ == (match symbol_position(symbol@) {
                Some(p) => old(self)@.update(p as int, pushed(old(self)@[p as int], row)),
                None => old(self)@,
            }),
    {
        if let Some(p) = symbol_index(symbol) {
            let ghost before = self@;
            assert(self@[p as int] == self.buffer@[p as int]@);
            let mut rows: Vec<[u32; INPUT_DIM]> = Vec::new();
            std::mem::swap(&mut rows, &mut self.buffer[p]);
            rows.push(row);
            if rows.len() > MAX_ROWS {
                let start: usize = rows.len() - SEQ_LEN;
                let ghost more = rows@;
                rows = rows.split_off(start);
                assert(rows@ =~= more.skip(more.len() - SEQ_LEN));
            }
            assert(rows@ == pushed(before[p as int], row));
            std::mem::swap(&mut rows, &mut self.buffer[p]);
            assert(self@ =~= before.update(p as int, pushed(before[p as int], row)));
        }
    }

    /// The last sequence of a symbol's rows, once there are enough of them.
    pub fn get_sequence(&self, symbol: &str) -> (sequence: Option<Vec<[u32; INPUT_DIM]>>)
        requires
            self.wf(),
        ensures
            match (sequence, symbol_position(symbol@)) {
                (Some(rows), Some(p)) => last_sequence(self@[p as int]) == Some(rows@),
                (None, Some(p)) => last_sequence(self@[p as int]) is None,
                (Some(_), None) => false,
                (None, None) => true,
            },
    {
        match symbol_index(symbol) {
            None => None,
            Some(p) => {
                assert(self@[p as int] == self.buffer@[p as int]@);
                let rows: &Vec<[u32; INPUT_DIM]> = &self.buffer[p];
                if rows.len() < SEQ_LEN {
                    None
                } else {
                    let mut sequence: Vec<[u32; INPUT_DIM]> = Vec::new();
                    let start: usize = rows.len() - SEQ_LEN;
                    let mut i: usize = start;
                    while i < rows.len()
                        invariant
                            start <= i <= rows.len(),
                            sequence@ == rows@.subrange(start as int, i as int),
                        decreases rows.len() - i,
                    {
                        sequence.push(rows[i]);
                        assert(sequence@ =~= rows@.subrange(start as int, i + 1));
                        i = i + 1;
                    }
                    assert(sequence@ =~= rows@.skip(rows@.len() - SEQ_LEN));
                    Some(sequence)
                }
            },
        }
    }

    /// How many rows are held for the symbol at a position.
    pub fn rows(&self, position: usize) -> (count: usize)
        requires
            self.wf(),
            position < NUM_SYMBOLS,
        ensures
            count == self@[position as int].len(),
    {
        self.buffer[position].len()
    }
}

proof fn lemma_replayed_is_suffix(history: Seq<[u32; INPUT_DIM]>)
    ensures
        ({
            let rows = replayed(history);
            &&& rows.len() <= history.len()
            &&& rows.len() <= MAX_ROWS
            &&& history.len() <= SEQ_LEN ==> rows.len() == history.len()
            &&& history.len() >= SEQ_LEN ==> rows.len() >= SEQ_LEN
            &&& rows == history.skip(history.len() - rows.len())
        }),
    decreases history.len(),
{
    if history.len() == 0 {
        assert(replayed(history) =~= history.skip(0));
    } else {
        let shorter = history.drop_last();
        lemma_replayed_is_suffix(shorter);
        let rows = replayed(history);
        assert(rows =~= history.skip(history.len() - rows.len()));
    }
}

/// Whatever rows a symbol was given, in whatever number, its sequence is made
/// of the latest of them, in the order in which they came; and there is none
/// while there are too few.
pub proof fn law_sequence_is_latest_rows(history: Seq<[u32; INPUT_DIM]>)
    ensures
        last_sequence(replayed(history)) == last_sequence(history),
        replayed(history).len() <= MAX_ROWS,
{
    lemma_replayed_is_suffix(history);
    if history.len() >= SEQ_LEN {
        let rows = replayed(history);
        assert(rows.skip(rows.len() - SEQ_LEN) =~= history.skip(history.len() - SEQ_LEN));
    }
}

/// A sequence is there from the twentieth row on, and is made of the twenty last
/// rows, oldest first.
pub proof fn law_sequences_are_the_last_rows(rows: Seq<[u32; INPUT_DIM]>, t: int)
    requires
        0 <= t < 20,
    ensures
        last_sequence(rows) is Some <==> rows.len() >= 20,
        last_sequence(rows) matches Some(sequence) ==> sequence.len() == 20 && sequence[t]
            == rows[rows.len() - 20 + t],
{
}

/// One more row comes last. Of the others all stay, up to forty rows; beyond
/// that, only the nineteen before it.
pub proof fn law_rows_stay_in_order(
    rows: Seq<[u32; INPUT_DIM]>,
    row: [u32; INPUT_DIM],
    j: int,
)
    requires
        rows.len() <= 40,
        0 <= j < pushed(rows, row).len() - 1,
    ensures
        pushed(rows, row).len() == (if rows.len() < 40 {
            rows.len() + 1
        } else {
            20
        }),
        pushed(rows, row)[pushed(rows, row).len() - 1] == row,
        pushed(rows, row)[j] == rows[rows.len() + 1 - pushed(rows, row).len() + j],
{
}

/// After a history of rows its latest are held: all of them up to forty, after
/// that between twenty and forty, one more with each row.
pub proof fn law_latest_rows_are_held(history: Seq<[u32; INPUT_DIM]>, j: int)
    ensures
        history.len() <= 40 ==> replayed(history).len() == history.len(),
        history.len() > 40 ==> replayed(history).len() == 20 + (history.len() - 41) % 21,
        0 <= j < replayed(history).len() ==> replayed(history)[j] == history[history.len()
            - replayed(history).len() + j],
    decreases history.len(),
{
    lemma_replayed_is_suffix(history);
    if history.len() > 0 {
        law_latest_rows_are_held(history.drop_last(), 0);
    }
}

} // verus!
