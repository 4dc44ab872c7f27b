//! Sliding windows over a series: the spans that a moving average or a
//! return reads.
use vstd::prelude::*;

verus! {

/// The spans `start..end` of every run of `width` consecutive positions in a
/// series of `len` entries, in order. A width of zero, or one longer than the
/// series, has no windows.
pub fn sliding_windows(len: usize, width: usize) -> (spans: Vec<(usize, usize)>)
    ensures
        width == 0 || len < width ==> spans@.len() == 0,
        width > 0 && width <= len ==> spans@.len() == len - width + 1,
        forall|k: int| 0 <= k < spans@.len() ==> #[trigger] spans@[k] == (k as usize, (k + width) as usize),
{
    let mut spans: Vec<(usize, usize)> = Vec::new();
    if width == 0 || len < width {
        return spans;
    }
    let count = len - width + 1;
    let mut k: usize = 0;
    while k < count
        invariant
            0 < width <= len,
            count == len - width + 1,
            k <= count,
            spans@.len() == k,
            forall|j: int| 0 <= j < k ==> #[trigger] spans@[j] == (j as usize, (j + width) as usize),
        decreases count - k,
    {
        spans.push((k, k + width));
        k = k + 1;
    }
    spans
}

} // verus!
