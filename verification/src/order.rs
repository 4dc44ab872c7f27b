//! Stable time order: the positions of a series of timestamps, sorted by
//! timestamp with ties kept in their original order.
use vstd::prelude::*;

verus! {

/// Position `i` comes before position `j` in stable time order: its timestamp
/// is earlier, or the timestamps are equal and `i` stands first.
pub open spec fn time_before(ts: Seq<i64>, i: int, j: int) -> bool {
    ts[i] < ts[j] || (ts[i] == ts[j] && i < j)
}

/// Every entry of `s` comes strictly before every later entry.
pub open spec fn in_time_order(ts: Seq<i64>, s: Seq<usize>) -> bool {
    forall|a: int, b: int|
        0 <= a < b < s.len() ==> #[trigger] time_before(ts, s[a] as int, s[b] as int)
}

/// Every entry of `s` is a position of `ts`.
pub open spec fn positions_of(ts: Seq<i64>, s: Seq<usize>) -> bool {
    forall|a: int| 0 <= a < s.len() ==> #[trigger] s[a] < ts.len()
}

/// One step of a merge: appending the next entry of the `taken` run, which
/// comes before the next entry of the `other` run, to a merged prefix keeps
/// the prefix in time order, before both runs' next entries, and made of
/// exactly the entries taken so far.
proof fn lemma_merge_take(
    ts: Seq<i64>,
    taken: Seq<usize>,
    ti: int,
    other: Seq<usize>,
    oj: int,
    old_res: Seq<usize>,
    res: Seq<usize>,
)
    requires
        in_time_order(ts, taken),
        positions_of(ts, taken),
        0 <= ti < taken.len(),
        0 <= oj <= other.len(),
        in_time_order(ts, old_res),
        positions_of(ts, old_res),
        forall|k: int|
            0 <= k < old_res.len() ==> time_before(ts, #[trigger] old_res[k] as int, taken[ti] as int)
                && (oj < other.len() ==> time_before(ts, old_res[k] as int, other[oj] as int)),
        oj < other.len() ==> time_before(ts, taken[ti] as int, other[oj] as int),
        forall|y: usize|
            old_res.contains(y) <==> (taken.subrange(0, ti).contains(y) || other.subrange(0, oj).contains(y)),
        res == old_res.push(taken[ti]),
    ensures
        in_time_order(ts, res),
        positions_of(ts, res),
        forall|k: int|
            0 <= k < res.len() ==> (ti + 1 < taken.len() ==> time_before(
                ts,
                #[trigger] res[k] as int,
                taken[ti + 1] as int,
            )) && (oj < other.len() ==> time_before(ts, res[k] as int, other[oj] as int)),
        forall|y: usize|
            res.contains(y) <==> (taken.subrange(0, ti + 1).contains(y) || other.subrange(0, oj).contains(y)),
{
    let x = taken[ti];
    assert(taken.subrange(0, ti + 1) =~= taken.subrange(0, ti).push(x));
    assert forall|y: usize| res.contains(y) <==> (taken.subrange(0, ti + 1).contains(y)
        || other.subrange(0, oj).contains(y)) by {
        vstd::seq_lib::lemma_seq_contains_after_push(taken.subrange(0, ti), x, y);
        vstd::seq_lib::lemma_seq_contains_after_push(old_res, x, y);
    }
    if ti + 1 < taken.len() {
        assert(time_before(ts, x as int, taken[ti + 1] as int));
    }
    assert forall|k: int| 0 <= k < res.len() implies (ti + 1 < taken.len() ==> time_before(
        ts,
        #[trigger] res[k] as int,
        taken[ti + 1] as int,
    )) && (oj < other.len() ==> time_before(ts, res[k] as int, other[oj] as int)) by {
        if k < old_res.len() && ti + 1 < taken.len() {
            assert(time_before(ts, old_res[k] as int, x as int));
        }
    }
    assert forall|a: int, b: int| 0 <= a < b < res.len() implies #[trigger] time_before(
        ts,
        res[a] as int,
        res[b] as int,
    ) by {
        if b < old_res.len() {
            assert(time_before(ts, old_res[a] as int, old_res[b] as int));
        }
    }
}

/// Merges two disjoint runs that are each in time order.
fn merge(ts: &[i64], left: &Vec<usize>, right: &Vec<usize>) -> (res: Vec<usize>)
    requires
        in_time_order(ts@, left@),
        in_time_order(ts@, right@),
        positions_of(ts@, left@),
        positions_of(ts@, right@),
        forall|a: int, b: int|
            0 <= a < left@.len() && 0 <= b < right@.len() ==> left@[a] != right@[b],
    ensures
        res@.len() == left@.len() + right@.len(),
        in_time_order(ts@, res@),
        positions_of(ts@, res@),
        forall|x: usize| res@.contains(x) <==> (left@.contains(x) || right@.contains(x)),
{
    let mut res: Vec<usize> = Vec::new();
    let mut i: usize = 0;
    let mut j: usize = 0;
    while i < left.len() || j < right.len()
        invariant
            in_time_order(ts@, left@),
            in_time_order(ts@, right@),
            positions_of(ts@, left@),
            positions_of(ts@, right@),
            forall|a: int, b: int|
                0 <= a < left@.len() && 0 <= b < right@.len() ==> left@[a] != right@[b],
            i <= left@.len(),
            j <= right@.len(),
            res@.len() == i + j,
            in_time_order(ts@, res@),
            positions_of(ts@, res@),
            forall|k: int|
                0 <= k < res@.len() ==> (i < left@.len() ==> time_before(
                    ts@,
                    #[trigger] res@[k] as int,
                    left@[i as int] as int,
                )) && (j < right@.len() ==> time_before(
                    ts@,
                    res@[k] as int,
                    right@[j as int] as int,
                )),
            forall|x: usize|
                res@.contains(x) <==> (left@.subrange(0, i as int).contains(x)
                    || right@.subrange(0, j as int).contains(x)),
        decreases left@.len() + right@.len() - i - j,
    {
        let take_left = if j >= right.len() {
            true
        } else if i >= left.len() {
            false
        } else {
            let a: usize = left[i];
            let b: usize = right[j];
            ts[a] < ts[b] || (ts[a] == ts[b] && a < b)
        };
        let ghost old_res = res@;
        if take_left {
            res.push(left[i]);
            proof {
                lemma_merge_take(ts@, left@, i as int, right@, j as int, old_res, res@);
            }
            i = i + 1;
        } else {
            res.push(right[j]);
            proof {
                if i < left@.len() {
                    assert(left@[i as int] != right@[j as int]);
                }
                lemma_merge_take(ts@, right@, j as int, left@, i as int, old_res, res@);
            }
            j = j + 1;
        }
    }
    proof {
        assert(left@.subrange(0, left@.len() as int) =~= left@);
        assert(right@.subrange(0, right@.len() as int) =~= right@);
    }
    res
}

/// The positions `lo..hi` of `ts`, in stable time order.
fn sort_range(ts: &[i64], lo: usize, hi: usize) -> (res: Vec<usize>)
    requires
        lo <= hi <= ts@.len(),
    ensures
        res@.len() == hi - lo,
        in_time_order(ts@, res@),
        forall|k: int| 0 <= k < res@.len() ==> lo <= #[trigger] res@[k] < hi,
        forall|x: usize| lo <= x < hi ==> res@.contains(x),
    decreases hi - lo,
{
    if hi - lo == 0 {
        Vec::new()
    } else if hi - lo == 1 {
        let mut v: Vec<usize> = Vec::new();
        v.push(lo);
        proof {
            assert forall|x: usize| lo <= x < hi implies v@.contains(x) by {
                assert(v@[0] == x);
            }
        }
        v
    } else {
        let mid = lo + (hi - lo) / 2;
        let left = sort_range(ts, lo, mid);
        let right = sort_range(ts, mid, hi);
        let res = merge(ts, &left, &right);
        proof {
            assert forall|k: int| 0 <= k < res@.len() implies lo <= #[trigger] res@[k] < hi by {
                assert(res@.contains(res@[k]));
                if left@.contains(res@[k]) {
                    let a = choose|a: int| 0 <= a < left@.len() && left@[a] == res@[k];
                    assert(lo <= left@[a] < mid);
                } else {
                    let b = choose|b: int| 0 <= b < right@.len() && right@[b] == res@[k];
                    assert(mid <= right@[b] < hi);
                }
            }
            assert forall|x: usize| lo <= x < hi implies res@.contains(x) by {
                if x < mid {
                    assert(left@.contains(x));
                } else {
                    assert(right@.contains(x));
                }
            }
        }
        res
    }
}

/// A run in time order never goes back in time, and entries with equal
/// timestamps keep ascending positions, whatever the timestamp.
pub open spec fn sorted_and_stable(ts: Seq<i64>, s: Seq<usize>) -> bool {
    forall|a: int, b: int|
        0 <= a < b < s.len() ==> {
            &&& ts[#[trigger] s[a] as int] <= ts[#[trigger] s[b] as int]
            &&& ts[s[a] as int] == ts[s[b] as int] ==> s[a] < s[b]
        }
}

/// Time order is a stable sort by timestamp: along a run in time order the
/// timestamps never decrease, and positions that share a timestamp stay in
/// ascending order, for every timestamp value.
pub proof fn lemma_time_order_is_stable_sort(ts: Seq<i64>, s: Seq<usize>)
    requires
        in_time_order(ts, s),
    ensures
        sorted_and_stable(ts, s),
{
    assert forall|a: int, b: int| 0 <= a < b < s.len() implies {
        &&& ts[#[trigger] s[a] as int] <= ts[#[trigger] s[b] as int]
        &&& ts[s[a] as int] == ts[s[b] as int] ==> s[a] < s[b]
    } by {
        assert(time_before(ts, s[a] as int, s[b] as int));
    }
}

/// The positions of `ts` in stable time order: sorted by timestamp, ties in
/// their original order. Every position occurs exactly once.
pub fn time_order(ts: &[i64]) -> (order: Vec<usize>)
    ensures
        order@.len() == ts@.len(),
        in_time_order(ts@, order@),
        sorted_and_stable(ts@, order@),
        positions_of(ts@, order@),
        forall|x: usize| x < ts@.len() ==> order@.contains(x),
{
    let order = sort_range(ts, 0, ts.len());
    proof {
        lemma_time_order_is_stable_sort(ts@, order@);
    }
    order
}

} // verus!
