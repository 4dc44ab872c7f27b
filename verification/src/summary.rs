//! Which positions of a sorted series a summary reads.
use vstd::prelude::*;

verus! {

/// Positions, in the sorted series, of the minimum, the maximum and the two
/// entries whose mean is the median (the same entry twice for an odd length).
pub struct SummaryPositions {
    pub min: usize,
    pub max: usize,
    pub median_low: usize,
    pub median_high: usize,
}

/// The positions a summary of `len` sorted values reads; `None` for an empty
/// series. The median is the middle entry for an odd length and the mean of
/// the two middle entries for an even one.
pub fn summary_positions(len: usize) -> (pos: Option<SummaryPositions>)
    ensures
        pos is None <==> len == 0,
        pos matches Some(p) ==> {
            &&& p.min == 0
            &&& p.max == len - 1
            &&& len % 2 == 1 ==> p.median_low == len / 2 && p.median_high == len / 2
            &&& len % 2 == 0 ==> p.median_low == len / 2 - 1 && p.median_high == len / 2
            &&& p.median_low <= p.median_high <= p.median_low + 1
            &&& p.median_low + p.median_high == len - 1
        },
{
    if len == 0 {
        return None;
    }
    let mid = len / 2;
    let low = if len % 2 == 0 {
        mid - 1
    } else {
        mid
    };
    Some(SummaryPositions { min: 0, max: len - 1, median_low: low, median_high: mid })
}

} // verus!
