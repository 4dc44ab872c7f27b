//! Time buckets: assigning timestamps to fixed-width intervals.
use vstd::prelude::*;
use crate::order::{
    in_time_order, lemma_time_order_is_stable_sort, positions_of, sorted_and_stable, time_before,
    time_order,
};

verus! {

/// Start of the bucket of width `interval` that holds `t`: the greatest
/// multiple of `interval` that is not above `t` (Euclidean division).
pub open spec fn bucket_of(t: int, interval: int) -> int {
    (t / interval) * interval
}

/// The bucket start of `t` can be held in an `i64`.
pub open spec fn bucket_fits(t: i64, interval: i64) -> bool {
    bucket_of(t as int, interval as int) >= i64::MIN
}

/// A bucket start lies at or below its timestamp, less than one interval
/// away, and is a multiple of the interval.
pub proof fn lemma_bucket_bounds(t: int, interval: int)
    requires
        interval > 0,
    ensures
        bucket_of(t, interval) <= t < bucket_of(t, interval) + interval,
        bucket_of(t, interval) % interval == 0,
{
    vstd::arithmetic::div_mod::lemma_fundamental_div_mod(t, interval);
    vstd::arithmetic::div_mod::lemma_mod_bound(t, interval);
    vstd::arithmetic::mul::lemma_mul_is_commutative(t / interval, interval);
    vstd::arithmetic::div_mod::lemma_mod_multiples_basic(t / interval, interval);
}

/// A multiple `b` of the interval with `b <= t < b + interval` is the bucket
/// start of `t`.
pub proof fn lemma_bucket_unique(t: int, interval: int, q: int)
    requires
        interval > 0,
        q * interval <= t < q * interval + interval,
    ensures
        bucket_of(t, interval) == q * interval,
{
    vstd::arithmetic::div_mod::lemma_fundamental_div_mod_converse(
        t,
        interval,
        q,
        t - q * interval,
    );
}

/// Bucket starts never decrease as the timestamp grows.
pub proof fn lemma_bucket_monotone(t1: int, t2: int, interval: int)
    requires
        interval > 0,
        t1 <= t2,
    ensures
        bucket_of(t1, interval) <= bucket_of(t2, interval),
{
    lemma_bucket_bounds(t1, interval);
    lemma_bucket_bounds(t2, interval);
    let q1 = t1 / interval;
    let q2 = t2 / interval;
    assert(q1 <= q2) by (nonlinear_arith)
        requires
            q1 * interval <= t1,
            t1 <= t2,
            t2 < q2 * interval + interval,
            interval > 0,
    {
        if q1 > q2 {
            assert((q1 - q2) * interval >= interval);
        }
    }
    assert(q1 * interval <= q2 * interval) by (nonlinear_arith)
        requires
            q1 <= q2,
            interval > 0,
    ;
}

/// The quotient of a timestamp by a positive interval fits in an `i64`.
proof fn lemma_bucket_quotient_fits(t: i64, interval: i64)
    requires
        interval > 0,
    ensures
        i64::MIN <= (t as int) / (interval as int) <= i64::MAX,
{
    lemma_bucket_bounds(t as int, interval as int);
    let q = (t as int) / (interval as int);
    assert(i64::MIN <= q <= i64::MAX) by (nonlinear_arith)
        requires
            q * interval <= t,
            t < q * interval + interval,
            interval >= 1,
            i64::MIN <= t <= i64::MAX,
    {
        if q > t && q > 0 {
            assert(q * interval >= q);
        }
        if q < t && q < 0 {
            assert(q * interval <= q);
        }
    }
}

/// Start of the bucket of width `interval` that holds `t`.
pub fn bucket_start(t: i64, interval: i64) -> (b: i64)
    requires
        interval > 0,
        bucket_fits(t, interval),
    ensures
        b as int == bucket_of(t as int, interval as int),
{
    proof {
        lemma_bucket_quotient_fits(t, interval);
        lemma_bucket_bounds(t as int, interval as int);
    }
    let q = match t.checked_div_euclid(interval) {
        Some(q) => q,
        None => 0,
    };
    match q.checked_mul(interval) {
        Some(b) => b,
        None => 0,
    }
}

/// One bucket of a plan: its start, and the positions of the series that
/// fall in it, in stable time order.
pub struct Bucket {
    pub timestamp: i64,
    pub members: Vec<usize>,
}

/// The buckets of `plan` start in increasing order, none is empty, and each
/// holds, in stable time order, positions of `ts` whose timestamp falls in it.
pub open spec fn buckets_well_formed(ts: Seq<i64>, interval: int, plan: Seq<Bucket>) -> bool {
    &&& forall|a: int, b: int|
        0 <= a < b < plan.len() ==> #[trigger] plan[a].timestamp < #[trigger] plan[b].timestamp
    &&& forall|a: int| 0 <= a < plan.len() ==> #[trigger] plan[a].members@.len() > 0
    &&& forall|a: int| 0 <= a < plan.len() ==> in_time_order(ts, #[trigger] plan[a].members@)
    &&& forall|a: int, m: int|
        0 <= a < plan.len() && 0 <= m < plan[a].members@.len() ==> {
            &&& #[trigger] plan[a].members@[m] < ts.len()
            &&& bucket_of(ts[plan[a].members@[m] as int] as int, interval) == plan[a].timestamp
        }
}

/// `plan` groups the positions of `ts` by bucket of width `interval`: one
/// bucket per distinct bucket start, in increasing order of start; each
/// bucket holds, in stable time order, the positions whose timestamp falls
/// in it, and every position is held by some bucket.
pub open spec fn is_bucket_plan(ts: Seq<i64>, interval: int, plan: Seq<Bucket>) -> bool {
    &&& buckets_well_formed(ts, interval, plan)
    &&& forall|i: int| 0 <= i < ts.len() ==> #[trigger] plan_holds(plan, i)
}

/// Some bucket of `plan` holds position `i`.
pub open spec fn plan_holds(plan: Seq<Bucket>, i: int) -> bool {
    exists|a: int, m: int|
        0 <= a < plan.len() && 0 <= m < plan[a].members@.len() && #[trigger] plan[a].members@[m]
            == i
}

/// Every timestamp of `ts` has a bucket start that an `i64` holds.
pub open spec fn all_buckets_fit(ts: Seq<i64>, interval: i64) -> bool {
    forall|i: int| 0 <= i < ts.len() ==> bucket_fits(#[trigger] ts[i], interval)
}

/// Appending the run `order[start..end]`, whose entries all fall in the
/// bucket `start_ts`, as one bucket after buckets that start earlier keeps the
/// plan well formed, and the plan then holds every entry of `order` before
/// `end`.
proof fn lemma_close_bucket(
    ts: Seq<i64>,
    interval: int,
    order: Seq<usize>,
    start: int,
    end: int,
    start_ts: i64,
    old_plan: Seq<Bucket>,
    plan: Seq<Bucket>,
)
    requires
        in_time_order(ts, order),
        positions_of(ts, order),
        0 <= start < end <= order.len(),
        forall|q: int|
            start <= q < end ==> bucket_of(ts[#[trigger] order[q] as int] as int, interval)
                == start_ts,
        buckets_well_formed(ts, interval, old_plan),
        forall|a: int| 0 <= a < old_plan.len() ==> #[trigger] old_plan[a].timestamp < start_ts,
        forall|q: int| 0 <= q < start ==> plan_holds(old_plan, #[trigger] order[q] as int),
        plan.len() == old_plan.len() + 1,
        forall|a: int| 0 <= a < old_plan.len() ==> #[trigger] plan[a] == old_plan[a],
        plan[old_plan.len() as int].timestamp == start_ts,
        plan[old_plan.len() as int].members@ =~= order.subrange(start, end),
    ensures
        buckets_well_formed(ts, interval, plan),
        forall|a: int| 0 <= a < plan.len() ==> #[trigger] plan[a].timestamp <= start_ts,
        forall|q: int| 0 <= q < end ==> plan_holds(plan, #[trigger] order[q] as int),
{
    let last = old_plan.len() as int;
    let run = plan[last].members@;
    assert forall|a: int, c: int| 0 <= a < c < run.len() implies #[trigger] time_before(
        ts,
        run[a] as int,
        run[c] as int,
    ) by {
        assert(run[a] == order[start + a]);
        assert(run[c] == order[start + c]);
    }
    assert forall|a: int, m: int| 0 <= a < plan.len() && 0 <= m < plan[a].members@.len() implies {
        &&& #[trigger] plan[a].members@[m] < ts.len()
        &&& bucket_of(ts[plan[a].members@[m] as int] as int, interval) == plan[a].timestamp
    } by {
        if a == last {
            assert(plan[a].members@[m] == order[start + m]);
        } else {
            assert(plan[a] == old_plan[a]);
        }
    }
    assert forall|a: int| 0 <= a < plan.len() implies in_time_order(ts, #[trigger] plan[a].members@) by {
        if a < last {
            assert(plan[a] == old_plan[a]);
        }
    }
    assert forall|a: int| 0 <= a < plan.len() implies #[trigger] plan[a].members@.len() > 0 by {
        if a < last {
            assert(plan[a] == old_plan[a]);
        }
    }
    assert forall|a: int, b: int| 0 <= a < b < plan.len() implies #[trigger] plan[a].timestamp
        < #[trigger] plan[b].timestamp by {
        assert(plan[a] == old_plan[a]);
        if b < last {
            assert(plan[b] == old_plan[b]);
        }
    }
    assert forall|a: int| 0 <= a < plan.len() implies #[trigger] plan[a].timestamp <= start_ts by {
        if a < last {
            assert(plan[a] == old_plan[a]);
        }
    }
    assert forall|q: int| 0 <= q < end implies plan_holds(plan, #[trigger] order[q] as int) by {
        if q < start {
            assert(plan_holds(old_plan, order[q] as int));
            let (a, m) = choose|a: int, m: int|
                0 <= a < old_plan.len() && 0 <= m < old_plan[a].members@.len()
                    && #[trigger] old_plan[a].members@[m] == order[q] as int;
            assert(plan[a] == old_plan[a]);
            assert(plan[a].members@[m] == order[q]);
        } else {
            assert(plan[last].members@[q - start] == order[q]);
        }
    }
}

/// Groups the positions of `ts` into buckets of width `interval`, as
/// `is_bucket_plan` describes. A non-positive interval gives no buckets.
pub fn bucket_plan(ts: &[i64], interval: i64) -> (plan: Vec<Bucket>)
    requires
        interval > 0 ==> all_buckets_fit(ts@, interval),
    ensures
        interval <= 0 ==> plan@.len() == 0,
        interval > 0 ==> is_bucket_plan(ts@, interval as int, plan@),
        forall|a: int| 0 <= a < plan@.len() ==> sorted_and_stable(ts@, #[trigger] plan@[a].members@),
{
    let mut plan: Vec<Bucket> = Vec::new();
    if interval <= 0 || ts.len() == 0 {
        return plan;
    }
    let order = time_order(ts);
    let n: usize = order.len();
    let first: usize = order[0];
    let mut cur_ts: i64 = bucket_start(ts[first], interval);
    let mut cur: Vec<usize> = Vec::new();
    cur.push(first);
    let ghost mut start: int = 0;
    let mut k: usize = 1;
    proof {
        assert(cur@ =~= order@.subrange(0, 1));
    }
    while k < n
        invariant
            n == order@.len(),
            n == ts@.len(),
            interval > 0,
            all_buckets_fit(ts@, interval),
            in_time_order(ts@, order@),
            positions_of(ts@, order@),
            forall|x: usize| x < ts@.len() ==> order@.contains(x),
            1 <= k <= n,
            0 <= start < k,
            cur@ =~= order@.subrange(start, k as int),
            forall|q: int|
                start <= q < k ==> bucket_of(ts@[#[trigger] order@[q] as int] as int, interval as int)
                    == cur_ts,
            buckets_well_formed(ts@, interval as int, plan@),
            forall|a: int| 0 <= a < plan@.len() ==> #[trigger] plan@[a].timestamp < cur_ts,
            forall|q: int| 0 <= q < start ==> plan_holds(plan@, #[trigger] order@[q] as int),
        decreases n - k,
    {
        let idx: usize = order[k];
        let b: i64 = bucket_start(ts[idx], interval);
        proof {
            let prev = order@[k - 1];
            assert(time_before(ts@, prev as int, idx as int));
            lemma_bucket_monotone(ts@[prev as int] as int, ts@[idx as int] as int, interval as int);
        }
        if b == cur_ts {
            cur.push(idx);
            proof {
                assert(cur@ =~= order@.subrange(start, k + 1));
            }
        } else {
            let ghost old_plan = plan@;
            plan.push(Bucket { timestamp: cur_ts, members: cur });
            proof {
                lemma_close_bucket(ts@, interval as int, order@, start, k as int, cur_ts, old_plan, plan@);
                start = k as int;
            }
            cur = Vec::new();
            cur.push(idx);
            proof {
                assert(cur@ =~= order@.subrange(start, k + 1));
            }
            cur_ts = b;
        }
        k = k + 1;
    }
    let ghost old_plan = plan@;
    plan.push(Bucket { timestamp: cur_ts, members: cur });
    proof {
        lemma_close_bucket(ts@, interval as int, order@, start, n as int, cur_ts, old_plan, plan@);
        assert forall|a: int| 0 <= a < plan@.len() implies sorted_and_stable(
            ts@,
            #[trigger] plan@[a].members@,
        ) by {
            lemma_time_order_is_stable_sort(ts@, plan@[a].members@);
        }
        assert forall|i: int| 0 <= i < ts@.len() implies #[trigger] plan_holds(plan@, i) by {
            assert(order@.contains(i as usize));
            let q = choose|q: int| 0 <= q < order@.len() && order@[q] == i as usize;
            assert(plan_holds(plan@, order@[q] as int));
        }
    }
    plan
}

/// Whether `bucket_plan` can be called on `ts` with `interval`: the interval
/// is not positive, or every bucket start fits in an `i64`.
pub fn buckets_fit(ts: &[i64], interval: i64) -> (ok: bool)
    ensures
        ok == (interval > 0 ==> all_buckets_fit(ts@, interval)),
{
    if interval <= 0 {
        return true;
    }
    let mut i: usize = 0;
    while i < ts.len()
        invariant
            interval > 0,
            i <= ts@.len(),
            forall|k: int| 0 <= k < i ==> bucket_fits(#[trigger] ts@[k], interval),
        decreases ts@.len() - i,
    {
        let t = ts[i];
        proof {
            lemma_bucket_quotient_fits(t, interval);
            lemma_bucket_bounds(t as int, interval as int);
        }
        let q = match t.checked_div_euclid(interval) {
            Some(q) => q,
            None => 0,
        };
        if q.checked_mul(interval).is_none() {
            proof {
                assert(q * interval <= t);
                assert(!bucket_fits(t, interval));
            }
            return false;
        }
        i = i + 1;
    }
    true
}

} // verus!
