//! Search tables: sorted lists of character ranges, searched by bisection
//! where a chain of range tests would be too long.

use vstd::prelude::*;

verus! {

/// The largest number of ranges that a guard tests one by one. A guard over
/// more ranges searches a table.
pub const MAX_GUARD_SIZE: usize = 9;

/// Whether `c` is in one of the ranges of `ranges`, ends included.
pub open spec fn in_ranges(ranges: Seq<(char, char)>, c: char) -> bool {
    exists|i: int| 0 <= i < ranges.len() && (#[trigger] ranges[i]).0 <= c && c <= ranges[i].1
}

/// Whether the ranges are non-empty, in the order of their starts, and
/// pairwise disjoint.
pub open spec fn sorted_ranges(ranges: Seq<(char, char)>) -> bool {
    &&& forall|i: int| 0 <= i < ranges.len() ==> (#[trigger] ranges[i]).0 <= ranges[i].1
    &&& forall|i: int, j: int|
        0 <= i < j < ranges.len() ==> (#[trigger] ranges[i]).1 < (#[trigger] ranges[j]).0
}

/// Whether `c` is in one of the ranges of `ranges`, tested one after another.
pub fn any_range_contains(c: char, ranges: &[(char, char)]) -> (found: bool)
    ensures
        found == in_ranges(ranges@, c),
{
    let mut i: usize = 0;
    while i < ranges.len()
        invariant
            i <= ranges@.len(),
            forall|j: int| 0 <= j < i ==> !((#[trigger] ranges@[j]).0 <= c && c <= ranges@[j].1),
        decreases ranges@.len() - i,
    {
        if ranges[i].0 <= c && c <= ranges[i].1 {
            return true;
        }
        i += 1;
    }
    false
}

/// Whether `c` is in one of the ranges of the sorted `table`, found by
/// bisection. The result is that of testing the ranges one after another.
pub fn binary_search(c: char, table: &[(char, char)]) -> (found: bool)
    requires
        sorted_ranges(table@),
    ensures
        found == in_ranges(table@, c),
{
    let mut lo: usize = 0;
    let mut hi: usize = table.len();
    while lo < hi
        invariant
            lo <= hi <= table@.len(),
            sorted_ranges(table@),
            forall|j: int| 0 <= j < lo ==> (#[trigger] table@[j]).1 < c,
            forall|j: int| hi <= j < table@.len() ==> c < (#[trigger] table@[j]).0,
        decreases hi - lo,
    {
        let mid: usize = lo + (hi - lo) / 2;
        let (start, end) = table[mid];
        if c < start {
            hi = mid;
        } else if c > end {
            lo = mid + 1;
        } else {
            return true;
        }
    }
    false
}

} // verus!
