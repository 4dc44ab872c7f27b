//! Which row a check of a series reports.
use vstd::prelude::*;

verus! {

/// The 1-based row of the first entry that failed a check, or `None` when
/// every entry passed.
pub fn first_failed_row(passed: &[bool]) -> (row: Option<usize>)
    ensures
        row is None <==> forall|i: int| 0 <= i < passed@.len() ==> #[trigger] passed@[i],
        row matches Some(r) ==> {
            &&& 1 <= r <= passed@.len()
            &&& !passed@[r - 1]
            &&& forall|i: int| 0 <= i < r - 1 ==> #[trigger] passed@[i]
        },
{
    let mut i: usize = 0;
    while i < passed.len()
        invariant
            i <= passed@.len(),
            forall|k: int| 0 <= k < i ==> #[trigger] passed@[k],
        decreases passed@.len() - i,
    {
        if !passed[i] {
            return Some(i + 1);
        }
        i = i + 1;
    }
    None
}

} // verus!
