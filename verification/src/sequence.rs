//! Rows of features, one after the other.

use vstd::prelude::*;
use crate::config::INPUT_DIM;

verus! {

/// The values of the rows, row by row.
pub open spec fn flattened(rows: Seq<[u32; INPUT_DIM]>) -> Seq<u32> {
    Seq::new(
        rows.len() * INPUT_DIM as nat,
        |i: int| rows[i / INPUT_DIM as int]@[i % INPUT_DIM as int],
    )
}

/// Writes the rows of a range one after the other.
pub fn flatten(rows: &Vec<[u32; INPUT_DIM]>, start: usize, end: usize) -> (flat: Vec<u32>)
    requires
        start <= end <= rows.len(),
    ensures
        flat@ == flattened(rows@.subrange(start as int, end as int)),
{
    let mut flat: Vec<u32> = Vec::new();
    let mut r: usize = start;
    while r < end
        invariant
            start <= r <= end <= rows.len(),
            flat@ == flattened(rows@.subrange(start as int, r as int)),
        decreases end - r,
    {
        let ghost before = flat@;
        let ghost done = rows@.subrange(start as int, r as int);
        let ghost next = rows@.subrange(start as int, r + 1);
        let mut c: usize = 0;
        while c < INPUT_DIM
            invariant
                c <= INPUT_DIM,
                r < rows.len(),
                flat@ == before + rows[r as int]@.take(c as int),
            decreases INPUT_DIM - c,
        {
            flat.push(rows[r][c]);
            assert(rows[r as int]@.take(c + 1) =~= rows[r as int]@.take(c as int).push(
                rows[r as int]@[c as int],
            ));
            c = c + 1;
        }
        proof {
            assert(flat@.len() == flattened(next).len());
            assert forall|i: int| 0 <= i < flat@.len() implies flat@[i] == flattened(next)[i] by {
                if i < before.len() {
                    assert(i / INPUT_DIM as int == i / 54);
                    assert(next[i / 54] == done[i / 54]);
                } else {
                    assert(i / 54 == r - start);
                    assert(i % 54 == i - before.len());
                }
            }
            assert(flat@ =~= flattened(next));
        }
        r = r + 1;
    }
    flat
}

/// The value at a row and a column of rows that were written one after the other
/// is that row's, at that column.
pub proof fn law_rows_follow_each_other(rows: Seq<[u32; INPUT_DIM]>, row: int, column: int)
    requires
        0 <= row < rows.len(),
        0 <= column < 54,
    ensures
        flattened(rows).len() == 54 * rows.len(),
        0 <= 54 * row + column < flattened(rows).len(),
        flattened(rows)[54 * row + column] == rows[row]@[column],
{
    assert((54 * row + column) / 54 == row);
    assert((54 * row + column) % 54 == column);
}

} // verus!
