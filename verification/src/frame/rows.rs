//! Row masks: sixteen pixels of four collision bits each in a `u64`.  A pixel
//! is occupied where any of its four bits is set.

use vstd::prelude::*;

verus! {

/// The four bits of column `i` in a row mask.  Column 0 is held in the four
/// highest bits of the mask, column 15 in the four lowest.
pub open spec fn nibble(row: u64, i: u64) -> u64 {
    (row >> (((15 - i) * 4) as u64)) & 0xf
}

/// The row `row` with its column `start` moved to column 0 and only its
/// first `len` columns kept.
pub open spec fn masked(row: u64, start: u64, len: u64) -> u64 {
    (row << ((start * 4) as u64)) & (0xffff_ffff_ffff_ffffu64 << (((16 - len) * 4) as u64))
}

/// A mask whose sixteen columns are all zero is zero.
pub proof fn lemma_all_nibbles_zero(v: u64)
    by (bit_vector)
    requires
        nibble(v, 0) == 0,
        nibble(v, 1) == 0,
        nibble(v, 2) == 0,
        nibble(v, 3) == 0,
        nibble(v, 4) == 0,
        nibble(v, 5) == 0,
        nibble(v, 6) == 0,
        nibble(v, 7) == 0,
        nibble(v, 8) == 0,
        nibble(v, 9) == 0,
        nibble(v, 10) == 0,
        nibble(v, 11) == 0,
        nibble(v, 12) == 0,
        nibble(v, 13) == 0,
        nibble(v, 14) == 0,
        nibble(v, 15) == 0,
    ensures
        v == 0,
{
}

/// Column `i` of what two rows have in common, after each was moved and cut
/// to `len` columns by `masked`.
pub proof fn lemma_row_pair(row_a: u64, start_a: u64, row_b: u64, start_b: u64, len: u64, i: u64)
    by (bit_vector)
    requires
        1 <= len,
        len <= 16,
        start_a <= 16,
        start_b <= 16,
        start_a + len <= 16,
        start_b + len <= 16,
        i < 16,
    ensures
        i < len ==> nibble(masked(row_a, start_a, len) & masked(row_b, start_b, len), i) == nibble(
            row_a,
            (start_a + i) as u64,
        ) & nibble(row_b, (start_b + i) as u64),
        i >= len ==> nibble(masked(row_a, start_a, len) & masked(row_b, start_b, len), i) == 0,
        nibble(0, i) == 0,
        nibble(row_a, i) <= 15,
        nibble(row_b, i) <= 15,
{
}

/// Column `i` of a row after the bits `v` were put into its column `n - 1`.
pub proof fn lemma_or_nibble(acc: u64, v: u64, n: u64, i: u64)
    by (bit_vector)
    requires
        v <= 15,
        1 <= n,
        n <= 16,
        i < 16,
    ensures
        i + 1 == n ==> nibble(acc | (v << (((16 - n) * 4) as u64)), i) == nibble(acc, i) | v,
        i + 1 != n ==> nibble(acc | (v << (((16 - n) * 4) as u64)), i) == nibble(acc, i),
        0u64 | v == v,
        acc | (0u64 << (((16 - n) * 4) as u64)) == acc,
        nibble(0, i) == 0,
        nibble(acc, i) <= 15,
{
}

/// The low four bits of a byte are a number up to 15.
pub proof fn lemma_low_bits(c: u8)
    by (bit_vector)
    ensures
        c & 0x0f <= 15,
{
}

/// The occupancy of a row: in each column the lowest bit is set where the
/// row has any bit in that column, and no other bit is.
pub open spec fn occupancy(row: u64) -> u64 {
    (row | (row >> 1) | (row >> 2) | (row >> 3)) & 0x1111_1111_1111_1111
}

/// A column of the occupancy of a row is 1 where the row has a bit in that
/// column, else 0.
pub proof fn lemma_occupancy(row: u64, i: u64)
    by (bit_vector)
    requires
        i < 16,
    ensures
        nibble(row, i) != 0 ==> nibble(occupancy(row), i) == 1,
        nibble(row, i) == 0 ==> nibble(occupancy(row), i) == 0,
        nibble(row, i) <= 15,
{
}

/// Two occupancy bits have a bit in common just where both are set.
pub proof fn lemma_both_set(a: u64, b: u64)
    by (bit_vector)
    requires
        a <= 1,
        b <= 1,
    ensures
        (a & b != 0) == (a == 1 && b == 1),
{
}

/// The occupancy of a row.
pub fn occupied(row: u64) -> (marks: u64)
    ensures
        marks == occupancy(row),
{
    (row | (row >> 1) | (row >> 2) | (row >> 3)) & 0x1111_1111_1111_1111
}

/// A column of a mask that is not zero where the mask is not zero.
pub proof fn lemma_find_nibble(v: u64) -> (i: u64)
    requires
        v != 0,
    ensures
        i < 16,
        nibble(v, i) != 0,
{
    if nibble(v, 0) != 0 {
        0
    } else if nibble(v, 1) != 0 {
        1
    } else if nibble(v, 2) != 0 {
        2
    } else if nibble(v, 3) != 0 {
        3
    } else if nibble(v, 4) != 0 {
        4
    } else if nibble(v, 5) != 0 {
        5
    } else if nibble(v, 6) != 0 {
        6
    } else if nibble(v, 7) != 0 {
        7
    } else if nibble(v, 8) != 0 {
        8
    } else if nibble(v, 9) != 0 {
        9
    } else if nibble(v, 10) != 0 {
        10
    } else if nibble(v, 11) != 0 {
        11
    } else if nibble(v, 12) != 0 {
        12
    } else if nibble(v, 13) != 0 {
        13
    } else if nibble(v, 14) != 0 {
        14
    } else {
        if nibble(v, 15) == 0 {
            lemma_all_nibbles_zero(v);
        }
        15
    }
}

/// The row `row` with its column `start` moved to column 0 and only its
/// first `len` columns kept.
pub fn line_mask(row: u64, start: u64, len: u64) -> (kept: u64)
    requires
        1 <= len,
        start + len <= 16,
    ensures
        kept == masked(row, start, len),
{
    let mask: u64 = 0xffff_ffff_ffff_ffffu64 << ((16 - len) * 4);
    let shift: u64 = start * 4;
    (row << shift) & mask
}

} // verus!
