//! The length and distance code tables of the format.
//!
//! A match length or distance is sent as the code of the row that holds it,
//! followed by its offset from the start of the row in the row's number of
//! extra bits.

use crate::bits::{lemma_pow2_values, pow2};
use vstd::prelude::*;

verus! {

/// A row of a code table: the first value it holds, one past the last value,
/// the number of extra bits, and the code.
pub type Row = (u32, u32, u8, u32);

/// The rows for the match lengths `3..=258`, with the codes `257..=285`.
pub const LEN_TO_CODE: [Row; 29] = [
    (3, 4, 0, 257),
    (4, 5, 0, 258),
    (5, 6, 0, 259),
    (6, 7, 0, 260),
    (7, 8, 0, 261),
    (8, 9, 0, 262),
    (9, 10, 0, 263),
    (10, 11, 0, 264),
    (11, 13, 1, 265),
    (13, 15, 1, 266),
    (15, 17, 1, 267),
    (17, 19, 1, 268),
    (19, 23, 2, 269),
    (23, 27, 2, 270),
    (27, 31, 2, 271),
    (31, 35, 2, 272),
    (35, 43, 3, 273),
    (43, 51, 3, 274),
    (51, 59, 3, 275),
    (59, 67, 3, 276),
    (67, 83, 4, 277),
    (83, 99, 4, 278),
    (99, 115, 4, 279),
    (115, 131, 4, 280),
    (131, 163, 5, 281),
    (163, 195, 5, 282),
    (195, 227, 5, 283),
    (227, 258, 5, 284),
    (258, 259, 0, 285),
];

/// The rows for the match distances `1..=32768`, with the codes `0..=29`.
pub const DIST_TO_CODE: [Row; 30] = [
    (1, 2, 0, 0),
    (2, 3, 0, 1),
    (3, 4, 0, 2),
    (4, 5, 0, 3),
    (5, 7, 1, 4),
    (7, 9, 1, 5),
    (9, 13, 2, 6),
    (13, 17, 2, 7),
    (17, 25, 3, 8),
    (25, 33, 3, 9),
    (33, 49, 4, 10),
    (49, 65, 4, 11),
    (65, 97, 5, 12),
    (97, 129, 5, 13),
    (129, 193, 6, 14),
    (193, 257, 6, 15),
    (257, 385, 7, 16),
    (385, 513, 7, 17),
    (513, 769, 8, 18),
    (769, 1025, 8, 19),
    (1025, 1537, 9, 20),
    (1537, 2049, 9, 21),
    (2049, 3073, 10, 22),
    (3073, 4097, 10, 23),
    (4097, 6145, 11, 24),
    (6145, 8193, 11, 25),
    (8193, 12289, 12, 26),
    (12289, 16385, 12, 27),
    (16385, 24577, 13, 28),
    (24577, 32769, 13, 29),
];

/// The smallest match length.
pub const MIN_MATCH: u32 = 3;

/// The largest match length.
pub const MAX_MATCH: u32 = 258;

/// The largest match distance.
pub const MAX_DISTANCE: u32 = 32768;

/// The row holds the value `v`.
pub open spec fn row_holds(row: Row, v: int) -> bool {
    row.0 <= v < row.1
}

/// The rows follow one another without a gap, and none is empty.
pub open spec fn contiguous(table: Seq<Row>) -> bool {
    forall|i: int|
        0 <= i < table.len() ==> {
            &&& (#[trigger] table[i]).0 < table[i].1
            &&& i + 1 < table.len() ==> table[i].1 == table[i + 1].0
        }
}

/// The index of the row of `table` that holds `v`.
pub open spec fn row_of(table: Seq<Row>, v: int) -> int {
    choose|i: int| 0 <= i < table.len() && row_holds(#[trigger] table[i], v)
}

/// The index of the row of [`LEN_TO_CODE`] that holds `len`.
pub open spec fn length_row(len: int) -> int {
    row_of(LEN_TO_CODE@, len)
}

/// The index of the row of [`DIST_TO_CODE`] that holds `dist`.
pub open spec fn distance_row(dist: int) -> int {
    row_of(DIST_TO_CODE@, dist)
}

proof fn lemma_rows_ordered(table: Seq<Row>, i: int, j: int)
    requires
        contiguous(table),
        0 <= i < j < table.len(),
    ensures
        table[i].1 <= table[j].0,
    decreases j - i,
{
    if i + 1 < j {
        lemma_rows_ordered(table, i + 1, j);
        assert(table[i].1 == table[i + 1].0);
        assert(table[i + 1].0 < table[i + 1].1);
    } else {
        assert(table[i].1 == table[i + 1].0);
    }
}

/// Every row lies between the start of the first and the end of the last.
proof fn lemma_rows_span(table: Seq<Row>, i: int)
    requires
        contiguous(table),
        0 <= i < table.len(),
    ensures
        table[0].0 <= table[i].0,
        table[i].1 <= table.last().1,
{
    if 0 < i {
        lemma_rows_ordered(table, 0, i);
        assert(table[0].0 < table[0].1);
    }
    if i < table.len() - 1 {
        lemma_rows_ordered(table, i, table.len() - 1);
        assert(table.last().0 < table.last().1);
    }
    assert(table[i].0 < table[i].1);
}

proof fn lemma_row_exists(table: Seq<Row>, v: int, i: int)
    requires
        contiguous(table),
        0 <= i < table.len(),
        table[i].0 <= v < table.last().1,
    ensures
        exists|j: int| 0 <= j < table.len() && row_holds(#[trigger] table[j], v),
    decreases table.len() - i,
{
    if v < table[i].1 {
        assert(row_holds(table[i], v));
    } else {
        assert(table[i].1 == table[i + 1].0);
        lemma_row_exists(table, v, i + 1);
    }
}

/// In a table without gaps every value from its first to its last has
/// exactly one row.
pub proof fn lemma_row_of(table: Seq<Row>, v: int)
    requires
        contiguous(table),
        table.len() > 0,
        table[0].0 <= v < table.last().1,
    ensures
        0 <= row_of(table, v) < table.len(),
        row_holds(table[row_of(table, v)], v),
        forall|i: int|
            0 <= i < table.len() && row_holds(#[trigger] table[i], v) ==> i == row_of(table, v),
{
    lemma_row_exists(table, v, 0);
    let r = row_of(table, v);
    assert forall|i: int| 0 <= i < table.len() && row_holds(#[trigger] table[i], v) implies i
        == r by {
        if i < r {
            lemma_rows_ordered(table, i, r);
        } else if r < i {
            lemma_rows_ordered(table, r, i);
        }
    }
}

/// The shape of the length table: its rows follow one another without a gap
/// from 3 to 258, each is wide enough for its values and none wider than its
/// extra bits can tell apart, and the codes count up from 257.
pub proof fn lemma_length_table(i: int)
    requires
        0 <= i < 29,
    ensures
        LEN_TO_CODE[0].0 == 3,
        LEN_TO_CODE[28].1 == 259,
        LEN_TO_CODE[i].0 < LEN_TO_CODE[i].1,
        i < 28 ==> LEN_TO_CODE[i].1 == LEN_TO_CODE[i + 1].0,
        LEN_TO_CODE[i].1 - LEN_TO_CODE[i].0 <= pow2(LEN_TO_CODE[i].2 as nat),
        LEN_TO_CODE[i].2 <= 5,
        LEN_TO_CODE[i].3 == 257 + i,
{
    lemma_pow2_values();
}

/// Every match length from 3 to 258 has a row, and its offset in that row
/// fits the row's extra bits.
pub proof fn lemma_length_row(len: int)
    requires
        3 <= len <= 258,
    ensures
        0 <= length_row(len) < 29,
        row_holds(LEN_TO_CODE[length_row(len)], len),
        len - LEN_TO_CODE[length_row(len)].0 < pow2(LEN_TO_CODE[length_row(len)].2 as nat),
        LEN_TO_CODE[length_row(len)].3 == 257 + length_row(len),
        LEN_TO_CODE[length_row(len)].2 <= 5,
{
    lemma_length_table_contiguous();
    lemma_length_table(0);
    lemma_row_of(LEN_TO_CODE@, len);
    lemma_length_table(length_row(len));
}

/// No match length has two rows.
pub proof fn lemma_length_row_unique(len: int, i: int)
    requires
        0 <= i < 29,
        row_holds(LEN_TO_CODE[i], len),
    ensures
        i == length_row(len),
{
    lemma_length_table_contiguous();
    lemma_length_table(0);
    lemma_length_table(i);
    lemma_rows_span(LEN_TO_CODE@, i);
    lemma_row_of(LEN_TO_CODE@, len);
}

proof fn lemma_length_table_contiguous()
    ensures
        contiguous(LEN_TO_CODE@),
{
    assert forall|i: int| 0 <= i < 29 implies {
        &&& (#[trigger] LEN_TO_CODE@[i]).0 < LEN_TO_CODE@[i].1
        &&& i + 1 < 29 ==> LEN_TO_CODE@[i].1 == LEN_TO_CODE@[i + 1].0
    } by {
        lemma_length_table(i);
    }
}

/// Finds the row of a match length; `None` for a length outside `3..=258`.
pub fn find_length_row(len: u32) -> (r: Option<usize>)
    ensures
        match r {
            Some(i) => 3 <= len <= 258 && i == length_row(len as int),
            None => !(3 <= len <= 258),
        },
{
    if len < MIN_MATCH || len > MAX_MATCH {
        return None;
    }
    proof {
        lemma_length_table(0);
    }
    let mut i: usize = 0;
    while i < 28
        invariant
            0 <= i <= 28,
            LEN_TO_CODE[i as int].0 <= len <= 258,
        decreases 28 - i,
    {
        if len < LEN_TO_CODE[i].1 {
            proof {
                lemma_length_row_unique(len as int, i as int);
            }
            return Some(i);
        }
        proof {
            lemma_length_table(i as int);
        }
        i = i + 1;
    }
    proof {
        lemma_length_table(28);
        lemma_length_row_unique(len as int, 28);
    }
    Some(i)
}

/// The shape of the distance table: its rows follow one another without a
/// gap from 1 to 32768, each as wide as its extra bits can tell apart, and
/// the codes count up from 0.
pub proof fn lemma_distance_table(i: int)
    requires
        0 <= i < 30,
    ensures
        DIST_TO_CODE[0].0 == 1,
        DIST_TO_CODE[29].1 == 32769,
        DIST_TO_CODE[i].0 < DIST_TO_CODE[i].1,
        i < 29 ==> DIST_TO_CODE[i].1 == DIST_TO_CODE[i + 1].0,
        DIST_TO_CODE[i].1 - DIST_TO_CODE[i].0 == pow2(DIST_TO_CODE[i].2 as nat),
        DIST_TO_CODE[i].2 <= 13,
        DIST_TO_CODE[i].3 == i,
{
    lemma_pow2_values();
}

/// Every match distance from 1 to 32768 has a row, and its offset in that
/// row fits the row's extra bits.
pub proof fn lemma_distance_row(dist: int)
    requires
        1 <= dist <= 32768,
    ensures
        0 <= distance_row(dist) < 30,
        row_holds(DIST_TO_CODE[distance_row(dist)], dist),
        dist - DIST_TO_CODE[distance_row(dist)].0 < pow2(DIST_TO_CODE[distance_row(dist)].2 as nat),
        DIST_TO_CODE[distance_row(dist)].3 == distance_row(dist),
        DIST_TO_CODE[distance_row(dist)].2 <= 13,
{
    lemma_distance_table_contiguous();
    lemma_distance_table(0);
    lemma_row_of(DIST_TO_CODE@, dist);
    lemma_distance_table(distance_row(dist));
}

/// No match distance has two rows.
pub proof fn lemma_distance_row_unique(dist: int, i: int)
    requires
        0 <= i < 30,
        row_holds(DIST_TO_CODE[i], dist),
    ensures
        i == distance_row(dist),
{
    lemma_distance_table_contiguous();
    lemma_distance_table(0);
    lemma_distance_table(i);
    lemma_rows_span(DIST_TO_CODE@, i);
    lemma_row_of(DIST_TO_CODE@, dist);
}

proof fn lemma_distance_table_contiguous()
    ensures
        contiguous(DIST_TO_CODE@),
{
    assert forall|i: int| 0 <= i < 30 implies {
        &&& (#[trigger] DIST_TO_CODE@[i]).0 < DIST_TO_CODE@[i].1
        &&& i + 1 < 30 ==> DIST_TO_CODE@[i].1 == DIST_TO_CODE@[i + 1].0
    } by {
        lemma_distance_table(i);
    }
}

/// Finds the row of a match distance; `None` for a distance outside
/// `1..=32768`.
pub fn find_distance_row(dist: u32) -> (r: Option<usize>)
    ensures
        match r {
            Some(i) => 1 <= dist <= 32768 && i == distance_row(dist as int),
            None => !(1 <= dist <= 32768),
        },
{
    if dist < 1 || dist > MAX_DISTANCE {
        return None;
    }
    proof {
        lemma_distance_table(0);
    }
    let mut i: usize = 0;
    while i < 29
        invariant
            0 <= i <= 29,
            DIST_TO_CODE[i as int].0 <= dist <= 32768,
        decreases 29 - i,
    {
        if dist < DIST_TO_CODE[i].1 {
            proof {
                lemma_distance_row_unique(dist as int, i as int);
            }
            return Some(i);
        }
        proof {
            lemma_distance_table(i as int);
        }
        i = i + 1;
    }
    proof {
        lemma_distance_table(29);
        lemma_distance_row_unique(dist as int, 29);
    }
    Some(i)
}

} // verus!
