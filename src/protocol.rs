//! The wire form of the protocol's messages. The transport carries `i32`
//! words; every kind of message has its own tag, and a matrix travels as a
//! dimensions message followed by a data message.

use vstd::prelude::*;

use crate::partition::WorkAssignment;

verus! {

pub const TAG_MATRIX_DIMENSIONS: i32 = 1;

pub const TAG_MATRIX_DATA: i32 = 2;

pub const TAG_RESULT_DATA: i32 = 3;

pub const TAG_WORK_ASSIGNMENT: i32 = 4;

/// A count that one wire word can carry.
pub open spec fn fits_word(n: int) -> bool {
    0 <= n <= i32::MAX
}

pub open spec fn assignment_fits(a: WorkAssignment) -> bool {
    fits_word(a.row_start as int) && fits_word(a.row_end as int) && fits_word(a.col_start as int)
        && fits_word(a.col_end as int)
}

/// The words of a dimensions message, `[rows, cols]`.
pub open spec fn dimensions_words(rows: usize, cols: usize) -> Seq<i32> {
    seq![rows as i32, cols as i32]
}

/// The words of an assignment message,
/// `[row_start, row_end, col_start, col_end]`.
pub open spec fn assignment_words(a: WorkAssignment) -> Seq<i32> {
    seq![a.row_start as i32, a.row_end as i32, a.col_start as i32, a.col_end as i32]
}

/// The assignment that four non-negative words describe.
pub open spec fn assignment_of_words(w: Seq<i32>) -> WorkAssignment {
    WorkAssignment {
        row_start: w[0] as usize,
        row_end: w[1] as usize,
        col_start: w[2] as usize,
        col_end: w[3] as usize,
    }
}

fn to_word(n: usize) -> (r: Option<i32>)
    ensures
        r is Some <==> fits_word(n as int),
        r matches Some(w) ==> w == n,
{
    if n <= 0x7fff_ffff {
        Some(n as i32)
    } else {
        None
    }
}

fn from_word(w: i32) -> (r: Option<usize>)
    ensures
        r is Some <==> w >= 0,
        r matches Some(n) ==> n == w,
{
    if w >= 0 {
        Some(w as usize)
    } else {
        None
    }
}

/// The dimensions message of a `rows × cols` matrix; `None` when a count
/// does not fit in a word.
pub fn encode_dimensions(rows: usize, cols: usize) -> (r: Option<[i32; 2]>)
    ensures
        r is Some <==> fits_word(rows as int) && fits_word(cols as int),
        r matches Some(m) ==> m@ == dimensions_words(rows, cols),
{
    match (to_word(rows), to_word(cols)) {
        (Some(r), Some(c)) => {
            let m = [r, c];
            assert(m@ =~= dimensions_words(rows, cols));
            Some(m)
        },
        _ => None,
    }
}

/// The dimensions that a message carries; `None` when a word is negative.
pub fn decode_dimensions(msg: [i32; 2]) -> (r: Option<(usize, usize)>)
    ensures
        r is Some <==> msg@[0] >= 0 && msg@[1] >= 0,
        r matches Some((rows, cols)) ==> rows == msg@[0] && cols == msg@[1],
{
    match (from_word(msg[0]), from_word(msg[1])) {
        (Some(rows), Some(cols)) => Some((rows, cols)),
        _ => None,
    }
}

/// The message of an assignment; `None` when a bound does not fit in a
/// word.
pub fn encode_assignment(a: &WorkAssignment) -> (r: Option<[i32; 4]>)
    ensures
        r is Some <==> assignment_fits(*a),
        r matches Some(m) ==> m@ == assignment_words(*a),
{
    match (to_word(a.row_start), to_word(a.row_end), to_word(a.col_start), to_word(a.col_end)) {
        (Some(rs), Some(re), Some(cs), Some(ce)) => {
            let m = [rs, re, cs, ce];
            assert(m@ =~= assignment_words(*a));
            Some(m)
        },
        _ => None,
    }
}

/// The assignment that a message carries; `None` when a word is negative.
pub fn decode_assignment(msg: [i32; 4]) -> (r: Option<WorkAssignment>)
    ensures
        r is Some <==> (forall|k: int| 0 <= k < 4 ==> msg@[k] >= 0),
        r matches Some(a) ==> a == assignment_of_words(msg@),
{
    match (from_word(msg[0]), from_word(msg[1]), from_word(msg[2]), from_word(msg[3])) {
        (Some(row_start), Some(row_end), Some(col_start), Some(col_end)) => {
            let a = WorkAssignment { row_start, row_end, col_start, col_end };
            Some(a)
        },
        _ => None,
    }
}

/// The length of the data message that follows a dimensions message:
/// `rows * cols`, or `None` when that does not fit in memory indices.
pub fn data_len(rows: usize, cols: usize) -> (r: Option<usize>)
    ensures
        r is Some <==> rows * cols <= usize::MAX,
        r matches Some(n) ==> n == rows * cols,
{
    rows.checked_mul(cols)
}

/// Wire round trip: an assignment whose bounds fit in words is read back
/// from its message unchanged.
pub proof fn lemma_assignment_round_trip(a: WorkAssignment)
    requires
        assignment_fits(a),
    ensures
        assignment_of_words(assignment_words(a)) == a,
{
}

} // verus!
