//! The rows of the persistent log: which of them a request is about.
//!
//! The database numbers rows with signed 64-bit integers.
use vstd::prelude::*;

verus! {

/// One end of a range of log indices.
#[derive(Debug, Clone, Copy, PartialEq, Eq, Structural)]
pub enum Bound {
    Included(u64),
    Excluded(u64),
    Unbounded,
}

/// Whether an index is not before a start.
pub open spec fn after_start(i: u64, start: Bound) -> bool {
    match start {
        Bound::Included(s) => s <= i,
        Bound::Excluded(s) => s < i,
        Bound::Unbounded => true,
    }
}

/// Whether an index is not behind an end.
pub open spec fn before_end(i: u64, end: Bound) -> bool {
    match end {
        Bound::Included(e) => i <= e,
        Bound::Excluded(e) => i < e,
        Bound::Unbounded => true,
    }
}

/// The row number of a log index: the same number, or, beyond the range of row
/// numbers, what is left of it modulo 2 to the 64th.
pub open spec fn row_number(i: u64) -> int {
    if i <= i64::MAX {
        i as int
    } else {
        i - u64::MAX - 1
    }
}

fn row_of(i: u64) -> (r: i64)
    ensures
        r == row_number(i),
{
    if i <= i64::MAX as u64 {
        i as i64
    } else {
        -((u64::MAX - i) as i64) - 1
    }
}

/// Whether a bound lies in the range of row numbers.
pub open spec fn in_rows(b: Bound) -> bool {
    match b {
        Bound::Included(i) => i <= i64::MAX,
        Bound::Excluded(i) => i <= i64::MAX,
        Bound::Unbounded => true,
    }
}

/// The first and the last row of a range, both inclusive.
pub fn row_range(start: Bound, end: Bound) -> (r: (i64, i64))
    requires
        start matches Bound::Excluded(i) ==> row_number(i) < i64::MAX,
        end matches Bound::Excluded(i) ==> row_number(i) > i64::MIN,
    ensures
        r.0 == (match start {
            Bound::Included(i) => row_number(i),
            Bound::Excluded(i) => row_number(i) + 1,
            Bound::Unbounded => i64::MIN as int,
        }),
        r.1 == (match end {
            Bound::Included(i) => row_number(i),
            Bound::Excluded(i) => row_number(i) - 1,
            Bound::Unbounded => i64::MAX as int,
        }),
        in_rows(start) && in_rows(end) ==> forall|row: u64|
            row <= i64::MAX ==> ((r.0 <= row <= r.1) <==> (#[trigger] after_start(row, start)
                && before_end(row, end))),
{
    let first: i64 = match start {
        Bound::Included(i) => row_of(i),
        Bound::Excluded(i) => row_of(i) + 1,
        Bound::Unbounded => i64::MIN,
    };
    let last: i64 = match end {
        Bound::Included(i) => row_of(i),
        Bound::Excluded(i) => row_of(i) - 1,
        Bound::Unbounded => i64::MAX,
    };
    (first, last)
}

/// The first row to drop when the log is cut behind an entry, or altogether.
pub fn first_truncated(last_index: Option<u64>) -> (r: i64)
    requires
        last_index matches Some(i) ==> row_number(i) < i64::MAX,
    ensures
        r == (match last_index {
            Some(i) => row_number(i) + 1,
            None => 0int,
        }),
        (last_index matches Some(i) ==> i <= i64::MAX) ==> forall|row: u64|
            row <= i64::MAX ==> (row < r <==> last_index is Some && #[trigger] before_end(
                row,
                Bound::Included(last_index->0),
            )),
{
    match last_index {
        Some(i) => row_of(i) + 1,
        None => 0,
    }
}

/// The id of the last entry: that of the last row, or, where all rows were purged,
/// of the last one purged.
pub fn last_log_id<L>(last_row: Option<L>, last_purged: Option<L>) -> (r: Option<L>)
    ensures
        r == (if last_row is Some {
            last_row
        } else {
            last_purged
        }),
{
    match last_row {
        Some(id) => Some(id),
        None => last_purged,
    }
}

} // verus!
