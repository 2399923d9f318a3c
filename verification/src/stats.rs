//! Normalization statistics: reading them, and the rules that they follow.

use vstd::prelude::*;
use crate::bytes::{law_words_begin_with_their_least_byte, read_words, words_of};
use crate::config::INPUT_DIM;
use crate::ieee::{
    double_is_nan, double_le, double_lt, double_magnitude, is_double_lt, is_double_nan,
    single_is_nan, single_magnitude, single_rank, DOUBLE_TINY, SINGLE_ONE, SINGLE_TINY,
};
use crate::rounding::{round_to_single, rounded};

verus! {

/// The place of the first value in an array file: after ten bytes, the last
/// two of which give the length of what else comes first.
pub open spec fn values_start(file: Seq<u8>) -> int {
    10 + file[8] + 0x100 * file[9]
}

/// Whether an array file is long enough to have a place for values.
pub open spec fn has_values(file: Seq<u8>) -> bool {
    file.len() >= 10 && values_start(file) <= file.len()
}

/// The statistics that an array file holds, one for each feature. Features
/// beyond its end get zero.
pub open spec fn statistics_of(file: Seq<u8>) -> Seq<u32> {
    let values = words_of(file.skip(values_start(file)));
    Seq::new(
        INPUT_DIM as nat,
        |i: int|
            if i < values.len() {
                values[i]
            } else {
                0
            },
    )
}

/// Reads the statistics of an array file.
pub fn load_npy(file: &[u8]) -> (statistics: Option<[u32; INPUT_DIM]>)
    ensures
        match statistics {
            Some(values) => has_values(file@) && values@ == statistics_of(file@),
            None => !has_values(file@),
        },
{
    let total: usize = file.len();
    if total < 10 {
        return None;
    }
    let start: usize = 10 + file[8] as usize + 0x100 * file[9] as usize;
    if start > total {
        return None;
    }
    let held: usize = (total - start) / 4;
    let count: usize = if held < INPUT_DIM {
        held
    } else {
        INPUT_DIM
    };
    let words: Vec<u32> = read_words(file, start, count);
    let mut values: [u32; INPUT_DIM] = [0u32; INPUT_DIM];
    let mut i: usize = 0;
    while i < count
        invariant
            i <= count <= INPUT_DIM,
            words@.len() == count,
            forall|j: int| 0 <= j < i ==> values@[j] == words@[j],
            forall|j: int| i <= j < INPUT_DIM ==> values@[j] == 0,
        decreases count - i,
    {
        values[i] = words[i];
        i = i + 1;
    }
    assert(values@ =~= statistics_of(file@));
    Some(values)
}

/// What a feature is divided by: its deviation, or one where the deviation is
/// next to nothing.
pub open spec fn divisor_of(deviation: u32) -> u32 {
    if single_magnitude(deviation) < SINGLE_TINY {
        SINGLE_ONE
    } else {
        deviation
    }
}

/// What a feature is divided by.
pub fn divisor(deviation: u32) -> (by: u32)
    ensures
        by == divisor_of(deviation),
{
    let magnitude: u32 = if deviation >= 0x8000_0000 {
        deviation - 0x8000_0000
    } else {
        deviation
    };
    if magnitude < SINGLE_TINY {
        SINGLE_ONE
    } else {
        deviation
    }
}

/// A deviation that is fit to divide by: no less than the least that is kept,
/// and never a NaN.
pub open spec fn floored(deviation: u64) -> u64 {
    if double_is_nan(deviation) || double_lt(deviation, DOUBLE_TINY) {
        DOUBLE_TINY
    } else {
        deviation
    }
}

/// Raises a deviation to the least that is kept.
pub fn floor_deviation(deviation: u64) -> (kept: u64)
    ensures
        kept == floored(deviation),
{
    if is_double_nan(deviation) || is_double_lt(deviation, DOUBLE_TINY) {
        DOUBLE_TINY
    } else {
        deviation
    }
}

/// The deviation that training divides by, in single precision.
pub fn training_deviation(deviation: u64) -> (kept: u32)
    ensures
        kept == rounded(floored(deviation)),
{
    round_to_single(floor_deviation(deviation))
}

/// Whatever deviations are read or computed, nothing is divided by zero or by
/// next to nothing; and a deviation that is large enough is kept as it is.
pub proof fn law_divisors_are_not_tiny(read: u32, computed: u64)
    ensures
        single_magnitude(divisor_of(read)) >= SINGLE_TINY,
        single_magnitude(read) >= SINGLE_TINY ==> divisor_of(read) == read,
        double_le(DOUBLE_TINY, floored(computed)),
        double_le(DOUBLE_TINY, computed) ==> floored(computed) == computed,
{
}

/// What training divides by is never a NaN and never below the least that is
/// kept, in single precision as well, and is just that where the deviation is no
/// more, as that of a column with one value throughout.
pub proof fn law_training_deviations_are_not_tiny(deviation: u64)
    ensures
        ({
            let kept = rounded(floored(deviation));
            &&& !single_is_nan(kept)
            &&& single_rank(kept) >= single_rank(SINGLE_TINY)
            &&& double_le(deviation, DOUBLE_TINY) ==> kept == SINGLE_TINY
            &&& double_is_nan(deviation) ==> kept == SINGLE_TINY
        }),
{
    let m = double_magnitude(floored(deviation));
    let a = m - 896 * 0x10_0000_0000_0000;
    assert(m >= DOUBLE_TINY);
    assert(m / 0x10_0000_0000_0000 >= 897);
    assert(a / 0x2000_0000 >= SINGLE_TINY);
    if floored(deviation) == DOUBLE_TINY {
        assert(a / 0x2000_0000 == SINGLE_TINY);
        assert(a % 0x2000_0000 == 0x0230_8c3a);
    }
}

/// A model divides by the same in inference as in training: inference keeps the
/// deviations that training used as they are.
pub proof fn law_inference_keeps_training_deviations(deviation: u64)
    ensures
        divisor_of(rounded(floored(deviation))) == rounded(floored(deviation)),
{
    law_training_deviations_are_not_tiny(deviation);
}

/// The statistics of an array file start behind a header whose length two bytes
/// give, the lesser first, and are words with the least byte first, one for each
/// feature. Those that the file does not hold whole are zero.
pub proof fn law_statistics_follow_the_header(file: Seq<u8>, i: int)
    requires
        0 <= i < 54,
    ensures
        has_values(file) <==> file.len() >= 10 && 10 + file[8] + 256 * file[9] <= file.len(),
        statistics_of(file).len() == 54,
        has_values(file) ==> ({
            let at = 10 + file[8] + 256 * file[9] + 4 * i;
            if at + 4 <= file.len() {
                statistics_of(file)[i] == file[at] + 256 * file[at + 1] + 65536 * file[at + 2]
                    + 16777216 * file[at + 3]
            } else {
                statistics_of(file)[i] == 0
            }
        }),
{
    if has_values(file) {
        let rest = file.skip(values_start(file));
        if 4 * i + 4 <= rest.len() {
            law_words_begin_with_their_least_byte(rest, i);
        }
    }
}

/// A feature is divided by its deviation, or by one where that is next to
/// nothing, whatever its sign; and training divides by the deviation or by the
/// least that is kept, whichever is more.
pub proof fn law_divisors_are_deviations_or_one(read: u32, computed: u64)
    ensures
        divisor_of(read) == read || divisor_of(read) == 0x3f80_0000,
        single_magnitude(read) < SINGLE_TINY ==> divisor_of(read) == 0x3f80_0000,
        floored(computed) == computed || floored(computed) == DOUBLE_TINY,
        !double_le(DOUBLE_TINY, computed) ==> floored(computed) == DOUBLE_TINY,
{
}

} // verus!
