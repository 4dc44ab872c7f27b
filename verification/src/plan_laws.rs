//! Laws of bucket plans: a plan is determined by the timestamps alone, so the
//! input order of the series does not matter beyond ties, and re-bucketing
//! bucket starts into a coarser interval that is a multiple of the finer one
//! gives the buckets of the original timestamps.
use vstd::prelude::*;
use crate::buckets::{bucket_of, is_bucket_plan, lemma_bucket_bounds, lemma_bucket_unique, plan_holds, Bucket};
use crate::order::{in_time_order, time_before};

verus! {

/// Two sequences that are each strictly ordered by the same asymmetric
/// relation and hold the same elements are equal.
proof fn lemma_sorted_same_elements<A>(s1: Seq<A>, s2: Seq<A>, lt: spec_fn(A, A) -> bool)
    requires
        forall|x: A, y: A| #[trigger] lt(x, y) ==> !lt(y, x),
        forall|a: int, b: int| 0 <= a < b < s1.len() ==> lt(#[trigger] s1[a], #[trigger] s1[b]),
        forall|a: int, b: int| 0 <= a < b < s2.len() ==> lt(#[trigger] s2[a], #[trigger] s2[b]),
        forall|x: A| s1.contains(x) <==> s2.contains(x),
    ensures
        s1 =~= s2,
    decreases s1.len(),
{
    if s1.len() == 0 {
        if s2.len() > 0 {
            assert(s2.contains(s2[0]));
        }
    } else if s2.len() == 0 {
        assert(s1.contains(s1[0]));
    } else {
        assert(s1.contains(s1[0]));
        assert(s2.contains(s2[0]));
        let j = choose|j: int| 0 <= j < s1.len() && s1[j] == s2[0];
        let i = choose|i: int| 0 <= i < s2.len() && s2[i] == s1[0];
        if j > 0 && i > 0 {
            assert(lt(s1[0], s1[j]));
            assert(lt(s2[0], s2[i]));
            assert(false);
        }
        assert(s1[0] == s2[0]);
        let t1 = s1.drop_first();
        let t2 = s2.drop_first();
        assert forall|x: A| t1.contains(x) <==> t2.contains(x) by {
            if t1.contains(x) {
                let a = choose|a: int| 0 <= a < t1.len() && t1[a] == x;
                assert(s1[a + 1] == x);
                assert(s1.contains(x));
                let b = choose|b: int| 0 <= b < s2.len() && s2[b] == x;
                if b == 0 {
                    assert(lt(s1[0], s1[a + 1]));
                    assert(false);
                }
                assert(t2[b - 1] == x);
            }
            if t2.contains(x) {
                let a = choose|a: int| 0 <= a < t2.len() && t2[a] == x;
                assert(s2[a + 1] == x);
                assert(s2.contains(x));
                let b = choose|b: int| 0 <= b < s1.len() && s1[b] == x;
                if b == 0 {
                    assert(lt(s2[0], s2[a + 1]));
                    assert(false);
                }
                assert(t1[b - 1] == x);
            }
        }
        assert forall|a: int, b: int| 0 <= a < b < t1.len() implies lt(#[trigger] t1[a], #[trigger] t1[b]) by {
            assert(lt(s1[a + 1], s1[b + 1]));
        }
        assert forall|a: int, b: int| 0 <= a < b < t2.len() implies lt(#[trigger] t2[a], #[trigger] t2[b]) by {
            assert(lt(s2[a + 1], s2[b + 1]));
        }
        lemma_sorted_same_elements(t1, t2, lt);
        assert(s1 =~= t1.insert(0, s1[0]));
        assert(s2 =~= t2.insert(0, s2[0]));
    }
}

/// In a plan, a bucket holds exactly the positions whose timestamp falls in
/// it.
pub proof fn lemma_plan_members(ts: Seq<i64>, interval: int, plan: Seq<Bucket>, a: int, x: usize)
    requires
        is_bucket_plan(ts, interval, plan),
        0 <= a < plan.len(),
    ensures
        plan[a].members@.contains(x) <==> (x < ts.len() && bucket_of(ts[x as int] as int, interval)
            == plan[a].timestamp),
{
    if plan[a].members@.contains(x) {
        let m = choose|m: int| 0 <= m < plan[a].members@.len() && plan[a].members@[m] == x;
        assert(plan[a].members@[m] < ts.len());
    }
    if x < ts.len() && bucket_of(ts[x as int] as int, interval) == plan[a].timestamp {
        assert(plan_holds(plan, x as int));
        let (b, m) = choose|b: int, m: int|
            0 <= b < plan.len() && 0 <= m < plan[b].members@.len() && #[trigger] plan[b].members@[m]
                == x as int;
        assert(plan[b].members@[m] < ts.len());
        if b < a {
            assert(plan[b].timestamp < plan[a].timestamp);
        }
        if a < b {
            assert(plan[a].timestamp < plan[b].timestamp);
        }
        assert(b == a);
    }
}

/// In a plan, a bucket start occurs exactly when some timestamp falls in it.
pub proof fn lemma_plan_starts(ts: Seq<i64>, interval: int, plan: Seq<Bucket>, t: int)
    requires
        is_bucket_plan(ts, interval, plan),
    ensures
        (exists|a: int| 0 <= a < plan.len() && plan[a].timestamp == t) <==> (exists|i: int|
            0 <= i < ts.len() && bucket_of(ts[i] as int, interval) == t),
{
    if exists|a: int| 0 <= a < plan.len() && plan[a].timestamp == t {
        let a = choose|a: int| 0 <= a < plan.len() && plan[a].timestamp == t;
        assert(plan[a].members@.len() > 0);
        let x = plan[a].members@[0];
        assert(x < ts.len());
        assert(bucket_of(ts[x as int] as int, interval) == t);
    }
    if exists|i: int| 0 <= i < ts.len() && bucket_of(ts[i] as int, interval) == t {
        let i = choose|i: int| 0 <= i < ts.len() && bucket_of(ts[i] as int, interval) == t;
        assert(plan_holds(plan, i));
        let (b, m) = choose|b: int, m: int|
            0 <= b < plan.len() && 0 <= m < plan[b].members@.len() && #[trigger] plan[b].members@[m]
                == i;
        assert(plan[b].timestamp == t);
    }
}

/// The starts of a plan's buckets, in order.
pub open spec fn plan_starts(plan: Seq<Bucket>) -> Seq<int> {
    Seq::new(plan.len(), |a: int| plan[a].timestamp as int)
}

/// A bucket plan is determined by the timestamps and the interval: any two
/// plans of the same series are the same.
pub proof fn lemma_plan_unique(ts: Seq<i64>, interval: int, p1: Seq<Bucket>, p2: Seq<Bucket>)
    requires
        is_bucket_plan(ts, interval, p1),
        is_bucket_plan(ts, interval, p2),
    ensures
        p1.len() == p2.len(),
        forall|a: int|
            0 <= a < p1.len() ==> #[trigger] p1[a].timestamp == p2[a].timestamp && p1[a].members@
                == p2[a].members@,
{
    let s1 = plan_starts(p1);
    let s2 = plan_starts(p2);
    let lt_int = |x: int, y: int| x < y;
    assert forall|t: int| s1.contains(t) <==> s2.contains(t) by {
        lemma_plan_starts(ts, interval, p1, t);
        lemma_plan_starts(ts, interval, p2, t);
        if s1.contains(t) {
            let a = choose|a: int| 0 <= a < s1.len() && s1[a] == t;
            assert(p1[a].timestamp == t);
            let b = choose|b: int| 0 <= b < p2.len() && p2[b].timestamp == t;
            assert(s2[b] == t);
        }
        if s2.contains(t) {
            let a = choose|a: int| 0 <= a < s2.len() && s2[a] == t;
            assert(p2[a].timestamp == t);
            let b = choose|b: int| 0 <= b < p1.len() && p1[b].timestamp == t;
            assert(s1[b] == t);
        }
    }
    assert forall|a: int, b: int| 0 <= a < b < s1.len() implies lt_int(#[trigger] s1[a], #[trigger] s1[b]) by {
        assert(p1[a].timestamp < p1[b].timestamp);
    }
    assert forall|a: int, b: int| 0 <= a < b < s2.len() implies lt_int(#[trigger] s2[a], #[trigger] s2[b]) by {
        assert(p2[a].timestamp < p2[b].timestamp);
    }
    lemma_sorted_same_elements(s1, s2, lt_int);
    assert forall|a: int| 0 <= a < p1.len() implies #[trigger] p1[a].timestamp == p2[a].timestamp
        && p1[a].members@ == p2[a].members@ by {
        assert(s1[a] == s2[a]);
        let m1 = p1[a].members@;
        let m2 = p2[a].members@;
        let lt = |x: usize, y: usize| time_before(ts, x as int, y as int);
        assert forall|x: usize| m1.contains(x) <==> m2.contains(x) by {
            lemma_plan_members(ts, interval, p1, a, x);
            lemma_plan_members(ts, interval, p2, a, x);
        }
        assert(in_time_order(ts, m1));
        assert(in_time_order(ts, m2));
        assert forall|c: int, d: int| 0 <= c < d < m1.len() implies lt(#[trigger] m1[c], #[trigger] m1[d]) by {
            assert(time_before(ts, m1[c] as int, m1[d] as int));
        }
        assert forall|c: int, d: int| 0 <= c < d < m2.len() implies lt(#[trigger] m2[c], #[trigger] m2[d]) by {
            assert(time_before(ts, m2[c] as int, m2[d] as int));
        }
        lemma_sorted_same_elements(m1, m2, lt);
    }
}

/// `p` lists every position below `n` exactly once.
pub open spec fn is_permutation(p: Seq<usize>, n: int) -> bool {
    &&& p.len() == n
    &&& forall|j: int| 0 <= j < n ==> #[trigger] p[j] < n
    &&& forall|j: int, k: int| 0 <= j < k < n ==> #[trigger] p[j] != #[trigger] p[k]
    &&& forall|x: usize| x < n ==> #[trigger] p.contains(x)
}

/// `ts2` is `ts` rearranged by `p` (entry `j` of `ts2` is entry `p[j]` of
/// `ts`), and entries with equal timestamps keep their relative order.
pub open spec fn is_tie_keeping_rearrangement(ts: Seq<i64>, ts2: Seq<i64>, p: Seq<usize>) -> bool {
    &&& is_permutation(p, ts.len() as int)
    &&& ts2.len() == ts.len()
    &&& forall|j: int| 0 <= j < ts2.len() ==> #[trigger] ts2[j] == ts[p[j] as int]
    &&& forall|j: int, k: int|
        0 <= j < k < ts2.len() && ts2[j] == ts2[k] ==> #[trigger] p[j] < #[trigger] p[k]
}

/// Each entry `j` of `s` replaced by `p[j]`.
pub open spec fn relabel(p: Seq<usize>, s: Seq<usize>) -> Seq<usize> {
    s.map_values(|j: usize| p[j as int])
}

/// One bucket of the law below: when the buckets at `a` of both plans start
/// at the same time, they hold the same positions through `p`.
proof fn lemma_bucket_relabel(
    ts: Seq<i64>,
    ts2: Seq<i64>,
    p: Seq<usize>,
    interval: int,
    plan: Seq<Bucket>,
    plan2: Seq<Bucket>,
    a: int,
)
    requires
        ts.len() <= usize::MAX,
        is_tie_keeping_rearrangement(ts, ts2, p),
        is_bucket_plan(ts, interval, plan),
        is_bucket_plan(ts2, interval, plan2),
        0 <= a < plan.len(),
        a < plan2.len(),
        plan[a].timestamp == plan2[a].timestamp,
    ensures
        plan[a].members@ == relabel(p, plan2[a].members@),
{
    let n = ts.len() as int;
    let t = plan[a].timestamp as int;
    let m1 = plan[a].members@;
    let raw = plan2[a].members@;
    let m2 = relabel(p, raw);
    let lt = |x: usize, y: usize| time_before(ts, x as int, y as int);
    assert forall|x: usize| m1.contains(x) <==> m2.contains(x) by {
        lemma_plan_members(ts, interval, plan, a, x);
        if m1.contains(x) {
            assert(p.contains(x));
            let j = choose|j: int| 0 <= j < p.len() && p[j] == x;
            assert(bucket_of(ts2[j] as int, interval) == t);
            lemma_plan_members(ts2, interval, plan2, a, j as usize);
            let c = choose|c: int| 0 <= c < raw.len() && raw[c] == j as usize;
            assert(m2[c] == x);
        }
        if m2.contains(x) {
            let c = choose|c: int| 0 <= c < m2.len() && m2[c] == x;
            let j = raw[c];
            assert(raw.contains(j));
            lemma_plan_members(ts2, interval, plan2, a, j);
            assert(p[j as int] == x);
        }
    }
    assert(in_time_order(ts, m1));
    assert(in_time_order(ts2, raw));
    assert forall|c: int, d: int| 0 <= c < d < m1.len() implies lt(#[trigger] m1[c], #[trigger] m1[d]) by {
        assert(time_before(ts, m1[c] as int, m1[d] as int));
    }
    assert forall|c: int, d: int| 0 <= c < d < m2.len() implies lt(#[trigger] m2[c], #[trigger] m2[d]) by {
        let j = raw[c];
        let k = raw[d];
        assert(time_before(ts2, j as int, k as int));
        assert(raw.contains(j));
        assert(raw.contains(k));
        lemma_plan_members(ts2, interval, plan2, a, j);
        lemma_plan_members(ts2, interval, plan2, a, k);
        if j < k {
            if ts2[j as int] == ts2[k as int] {
                assert(p[j as int] < p[k as int]);
            }
        }
        assert(m2[c] == p[j as int]);
        assert(m2[d] == p[k as int]);
    }
    lemma_sorted_same_elements(m1, m2, lt);
}

/// The input order of a series does not matter, except among equal
/// timestamps: if `ts2` is `ts` rearranged by `p` with ties kept in order,
/// their plans have the same buckets, and each bucket of the plan of `ts2`
/// holds, through `p`, the same positions in the same order.
pub proof fn lemma_plan_ignores_input_order(
    ts: Seq<i64>,
    ts2: Seq<i64>,
    p: Seq<usize>,
    interval: int,
    plan: Seq<Bucket>,
    plan2: Seq<Bucket>,
)
    requires
        ts.len() <= usize::MAX,
        is_tie_keeping_rearrangement(ts, ts2, p),
        is_bucket_plan(ts, interval, plan),
        is_bucket_plan(ts2, interval, plan2),
    ensures
        plan.len() == plan2.len(),
        forall|a: int| 0 <= a < plan.len() ==> #[trigger] plan[a].timestamp == plan2[a].timestamp,
        forall|a: int|
            0 <= a < plan.len() ==> #[trigger] plan[a].members@ == relabel(p, plan2[a].members@),
{
    let n = ts.len() as int;
    let s1 = plan_starts(plan);
    let s2 = plan_starts(plan2);
    let lt_int = |x: int, y: int| x < y;
    assert forall|t: int| s1.contains(t) <==> s2.contains(t) by {
        lemma_plan_starts(ts, interval, plan, t);
        lemma_plan_starts(ts2, interval, plan2, t);
        if s1.contains(t) {
            let a = choose|a: int| 0 <= a < s1.len() && s1[a] == t;
            assert(plan[a].timestamp == t);
            let i = choose|i: int| 0 <= i < ts.len() && bucket_of(ts[i] as int, interval) == t;
            assert(p.contains(i as usize));
            let j = choose|j: int| 0 <= j < p.len() && p[j] == i as usize;
            assert(bucket_of(ts2[j] as int, interval) == t);
            let b = choose|b: int| 0 <= b < plan2.len() && plan2[b].timestamp == t;
            assert(s2[b] == t);
        }
        if s2.contains(t) {
            let a = choose|a: int| 0 <= a < s2.len() && s2[a] == t;
            assert(plan2[a].timestamp == t);
            let j = choose|j: int| 0 <= j < ts2.len() && bucket_of(ts2[j] as int, interval) == t;
            assert(p[j] < n);
            assert(bucket_of(ts[p[j] as int] as int, interval) == t);
            let b = choose|b: int| 0 <= b < plan.len() && plan[b].timestamp == t;
            assert(s1[b] == t);
        }
    }
    assert forall|a: int, b: int| 0 <= a < b < s1.len() implies lt_int(#[trigger] s1[a], #[trigger] s1[b]) by {
        assert(plan[a].timestamp < plan[b].timestamp);
    }
    assert forall|a: int, b: int| 0 <= a < b < s2.len() implies lt_int(#[trigger] s2[a], #[trigger] s2[b]) by {
        assert(plan2[a].timestamp < plan2[b].timestamp);
    }
    lemma_sorted_same_elements(s1, s2, lt_int);
    assert(plan.len() == s1.len() && s1.len() == s2.len() && s2.len() == plan2.len());
    assert forall|a: int| 0 <= a < plan.len() implies #[trigger] plan[a].timestamp == plan2[a].timestamp by {
        assert(s1[a] == s2[a]);
    }
    assert forall|a: int| 0 <= a < plan.len() implies #[trigger] plan[a].members@ == relabel(p, plan2[a].members@) by {
        assert(s1[a] == s2[a]);
        lemma_bucket_relabel(ts, ts2, p, interval, plan, plan2, a);
    }
}

/// Candle of candles: re-bucketing a bucket start of width `fine` into a
/// width `coarse` that is a multiple of `fine` gives the `coarse` bucket of
/// the original timestamp.
pub proof fn lemma_rebucket_coarser(t: int, fine: int, coarse: int)
    requires
        fine > 0,
        coarse > 0,
        coarse % fine == 0,
    ensures
        bucket_of(bucket_of(t, fine), coarse) == bucket_of(t, coarse),
{
    lemma_bucket_bounds(t, fine);
    lemma_bucket_bounds(t, coarse);
    let qa = t / fine;
    let qb = t / coarse;
    let c = coarse / fine;
    vstd::arithmetic::div_mod::lemma_fundamental_div_mod(coarse, fine);
    assert(coarse == fine * c);
    let a = qa * fine;
    let b = qb * coarse;
    assert(b <= a) by (nonlinear_arith)
        requires
            b == qb * coarse,
            a == qa * fine,
            coarse == fine * c,
            b <= t,
            t < a + fine,
            fine > 0,
    {
        assert(b == (qb * c) * fine);
        if qb * c > qa {
            assert((qb * c) * fine >= (qa + 1) * fine);
        }
    }
    lemma_bucket_unique(a, coarse, qb);
}

/// A plan holds each position exactly once: two places in the plan that hold
/// the same position are the same place.
pub proof fn lemma_plan_holds_each_once(
    ts: Seq<i64>,
    interval: int,
    plan: Seq<Bucket>,
    a1: int,
    m1: int,
    a2: int,
    m2: int,
)
    requires
        is_bucket_plan(ts, interval, plan),
        0 <= a1 < plan.len(),
        0 <= m1 < plan[a1].members@.len(),
        0 <= a2 < plan.len(),
        0 <= m2 < plan[a2].members@.len(),
        plan[a1].members@[m1] == plan[a2].members@[m2],
    ensures
        a1 == a2,
        m1 == m2,
{
    let x = plan[a1].members@[m1];
    assert(plan[a2].members@[m2] < ts.len());
    assert(plan[a1].timestamp == bucket_of(ts[x as int] as int, interval));
    if a1 < a2 {
        assert(plan[a1].timestamp < plan[a2].timestamp);
    }
    if a2 < a1 {
        assert(plan[a2].timestamp < plan[a1].timestamp);
    }
    assert(in_time_order(ts, plan[a1].members@));
    if m1 < m2 {
        assert(time_before(ts, plan[a1].members@[m1] as int, plan[a1].members@[m2] as int));
    }
    if m2 < m1 {
        assert(time_before(ts, plan[a1].members@[m2] as int, plan[a1].members@[m1] as int));
    }
}

/// The first position of a bucket is its earliest entry and the last is its
/// latest: every other position of the bucket comes after the first and before
/// the last in stable time order.
pub proof fn lemma_bucket_ends(ts: Seq<i64>, interval: int, plan: Seq<Bucket>, a: int, m: int)
    requires
        is_bucket_plan(ts, interval, plan),
        0 <= a < plan.len(),
        0 <= m < plan[a].members@.len(),
    ensures
        ({
            let s = plan[a].members@;
            &&& m == 0 || time_before(ts, s[0] as int, s[m] as int)
            &&& m == s.len() - 1 || time_before(ts, s[m] as int, s[s.len() - 1] as int)
            &&& ts[s[0] as int] <= ts[s[m] as int] <= ts[s[s.len() - 1] as int]
        }),
{
    let s = plan[a].members@;
    assert(in_time_order(ts, s));
    if m > 0 {
        assert(time_before(ts, s[0] as int, s[m] as int));
    }
    if m < s.len() - 1 {
        assert(time_before(ts, s[m] as int, s[s.len() - 1] as int));
    }
}

/// The bucket starts of a plan, as a series of timestamps.
pub open spec fn start_series(plan: Seq<Bucket>) -> Seq<i64> {
    Seq::new(plan.len(), |a: int| plan[a].timestamp)
}

/// Candle of candles: bucketing the starts of a `fine` plan into a `coarse`
/// interval that is a multiple of `fine` gives the buckets of the `coarse`
/// plan of the original series, and a position is in a `coarse` bucket
/// exactly when the `fine` bucket that holds it is.
pub proof fn lemma_resample_of_plan(
    ts: Seq<i64>,
    fine: int,
    coarse: int,
    fine_plan: Seq<Bucket>,
    resampled: Seq<Bucket>,
    direct: Seq<Bucket>,
)
    requires
        fine > 0,
        coarse > 0,
        coarse % fine == 0,
        fine_plan.len() <= usize::MAX,
        is_bucket_plan(ts, fine, fine_plan),
        is_bucket_plan(start_series(fine_plan), coarse, resampled),
        is_bucket_plan(ts, coarse, direct),
    ensures
        resampled.len() == direct.len(),
        forall|c: int| 0 <= c < resampled.len() ==> #[trigger] resampled[c].timestamp == direct[c].timestamp,
        forall|c: int, a: int, m: int|
            0 <= c < direct.len() && 0 <= a < fine_plan.len() && 0 <= m < fine_plan[a].members@.len()
                ==> (#[trigger] direct[c].members@.contains(#[trigger] fine_plan[a].members@[m])
                <==> resampled[c].members@.contains(a as usize)),
{
    let t = start_series(fine_plan);
    let s1 = plan_starts(resampled);
    let s2 = plan_starts(direct);
    let lt_int = |x: int, y: int| x < y;
    assert forall|b: int| s1.contains(b) <==> s2.contains(b) by {
        lemma_plan_starts(t, coarse, resampled, b);
        lemma_plan_starts(ts, coarse, direct, b);
        if s1.contains(b) {
            let c = choose|c: int| 0 <= c < s1.len() && s1[c] == b;
            assert(resampled[c].timestamp == b);
            let a = choose|a: int| 0 <= a < t.len() && bucket_of(t[a] as int, coarse) == b;
            assert(fine_plan[a].members@.len() > 0);
            let x = fine_plan[a].members@[0];
            assert(x < ts.len() && bucket_of(ts[x as int] as int, fine) == fine_plan[a].timestamp);
            lemma_rebucket_coarser(ts[x as int] as int, fine, coarse);
            assert(bucket_of(ts[x as int] as int, coarse) == b);
            let d = choose|d: int| 0 <= d < direct.len() && direct[d].timestamp == b;
            assert(s2[d] == b);
        }
        if s2.contains(b) {
            let c = choose|c: int| 0 <= c < s2.len() && s2[c] == b;
            assert(direct[c].timestamp == b);
            let x = choose|x: int| 0 <= x < ts.len() && bucket_of(ts[x] as int, coarse) == b;
            assert(plan_holds(fine_plan, x));
            let (a, m) = choose|a: int, m: int|
                0 <= a < fine_plan.len() && 0 <= m < fine_plan[a].members@.len()
                    && #[trigger] fine_plan[a].members@[m] == x;
            assert(bucket_of(ts[x] as int, fine) == fine_plan[a].timestamp);
            lemma_rebucket_coarser(ts[x] as int, fine, coarse);
            assert(bucket_of(t[a] as int, coarse) == b);
            let d = choose|d: int| 0 <= d < resampled.len() && resampled[d].timestamp == b;
            assert(s1[d] == b);
        }
    }
    assert forall|c: int, d: int| 0 <= c < d < s1.len() implies lt_int(#[trigger] s1[c], #[trigger] s1[d]) by {
        assert(resampled[c].timestamp < resampled[d].timestamp);
    }
    assert forall|c: int, d: int| 0 <= c < d < s2.len() implies lt_int(#[trigger] s2[c], #[trigger] s2[d]) by {
        assert(direct[c].timestamp < direct[d].timestamp);
    }
    lemma_sorted_same_elements(s1, s2, lt_int);
    assert(resampled.len() == s1.len() && s1.len() == s2.len() && s2.len() == direct.len());
    assert forall|c: int| 0 <= c < resampled.len() implies #[trigger] resampled[c].timestamp == direct[c].timestamp by {
        assert(s1[c] == s2[c]);
    }
    assert forall|c: int, a: int, m: int|
        0 <= c < direct.len() && 0 <= a < fine_plan.len() && 0 <= m < fine_plan[a].members@.len()
            implies (#[trigger] direct[c].members@.contains(#[trigger] fine_plan[a].members@[m])
            <==> resampled[c].members@.contains(a as usize)) by {
        assert(s1[c] == s2[c]);
        let x = fine_plan[a].members@[m];
        assert(x < ts.len() && bucket_of(ts[x as int] as int, fine) == fine_plan[a].timestamp);
        lemma_rebucket_coarser(ts[x as int] as int, fine, coarse);
        lemma_plan_members(ts, coarse, direct, c, x);
        lemma_plan_members(t, coarse, resampled, c, a as usize);
        assert(t[a] == fine_plan[a].timestamp);
    }
}

/// Distinct bucket starts are at least one interval apart.
pub proof fn lemma_starts_apart(t1: int, t2: int, interval: int)
    requires
        interval > 0,
        bucket_of(t1, interval) < bucket_of(t2, interval),
    ensures
        bucket_of(t1, interval) + interval <= bucket_of(t2, interval),
{
    let q1 = t1 / interval;
    let q2 = t2 / interval;
    assert(q1 * interval + interval <= q2 * interval) by (nonlinear_arith)
        requires
            q1 * interval < q2 * interval,
            interval > 0,
    {
        if q1 >= q2 {
            assert(q1 * interval >= q2 * interval);
        }
        assert((q1 + 1) * interval <= q2 * interval);
    }
}

/// Every entry of a `fine` bucket that starts earlier comes strictly earlier
/// in time than every entry of a `fine` bucket that starts later.
proof fn lemma_earlier_bucket_earlier_entries(
    ts: Seq<i64>,
    fine: int,
    fine_plan: Seq<Bucket>,
    a0: int,
    m0: int,
    a1: int,
    m1: int,
)
    requires
        fine > 0,
        is_bucket_plan(ts, fine, fine_plan),
        0 <= a0 < fine_plan.len(),
        0 <= a1 < fine_plan.len(),
        0 <= m0 < fine_plan[a0].members@.len(),
        0 <= m1 < fine_plan[a1].members@.len(),
        fine_plan[a0].timestamp < fine_plan[a1].timestamp,
    ensures
        ts[fine_plan[a0].members@[m0] as int] < ts[fine_plan[a1].members@[m1] as int],
{
    let y = fine_plan[a0].members@[m0];
    let x = fine_plan[a1].members@[m1];
    assert(y < ts.len() && bucket_of(ts[y as int] as int, fine) == fine_plan[a0].timestamp);
    assert(x < ts.len() && bucket_of(ts[x as int] as int, fine) == fine_plan[a1].timestamp);
    lemma_bucket_bounds(ts[y as int] as int, fine);
    lemma_bucket_bounds(ts[x as int] as int, fine);
    lemma_starts_apart(ts[y as int] as int, ts[x as int] as int, fine);
}

/// Re-bucketing at the same interval: the bucket starts of a plan, bucketed
/// again at the same interval, give one bucket per start, at that start,
/// holding just that start.
pub proof fn lemma_rebucket_same_interval(
    ts: Seq<i64>,
    interval: int,
    plan: Seq<Bucket>,
    again: Seq<Bucket>,
)
    requires
        interval > 0,
        plan.len() <= usize::MAX,
        is_bucket_plan(ts, interval, plan),
        is_bucket_plan(start_series(plan), interval, again),
    ensures
        again.len() == plan.len(),
        forall|c: int| 0 <= c < again.len() ==> #[trigger] again[c].timestamp == plan[c].timestamp,
        forall|c: int| 0 <= c < again.len() ==> #[trigger] again[c].members@ == seq![c as usize],
{
    assert(interval % interval == 0) by {
        vstd::arithmetic::div_mod::lemma_mod_self_0(interval);
    }
    lemma_resample_of_plan(ts, interval, interval, plan, again, plan);
    let t = start_series(plan);
    assert forall|c: int| 0 <= c < again.len() implies #[trigger] again[c].members@ == seq![c as usize] by {
        let s = again[c].members@;
        let one = seq![c as usize];
        let lt = |x: usize, y: usize| time_before(t, x as int, y as int);
        assert forall|a: usize| s.contains(a) <==> one.contains(a) by {
            lemma_plan_members(t, interval, again, c, a);
            if s.contains(a) {
                assert(plan[a as int].members@.len() > 0);
                let x = plan[a as int].members@[0];
                assert(again[c].members@.contains(a as usize));
                assert(plan[c].members@.contains(x));
                let m = choose|m: int| 0 <= m < plan[c].members@.len() && plan[c].members@[m] == x;
                lemma_plan_holds_each_once(ts, interval, plan, a as int, 0, c, m);
                assert(one[0] == a);
            }
            if one.contains(a) {
                assert(a == c as usize);
                assert(plan[c].members@.len() > 0);
                let x = plan[c].members@[0];
                assert(plan[c].members@.contains(x));
                assert(again[c].members@.contains(c as usize));
            }
        }
        assert forall|p: int, q: int| 0 <= p < q < s.len() implies lt(#[trigger] s[p], #[trigger] s[q]) by {
            assert(time_before(t, s[p] as int, s[q] as int));
        }
        lemma_sorted_same_elements(s, one, lt);
    }
}

/// Candle of candles, at the ends: in a `coarse` bucket, the first `fine`
/// bucket opens with the coarse bucket's earliest entry and the last `fine`
/// bucket closes with its latest.
pub proof fn lemma_resample_ends(
    ts: Seq<i64>,
    fine: int,
    coarse: int,
    fine_plan: Seq<Bucket>,
    resampled: Seq<Bucket>,
    direct: Seq<Bucket>,
    c: int,
)
    requires
        fine > 0,
        coarse > 0,
        coarse % fine == 0,
        fine_plan.len() <= usize::MAX,
        is_bucket_plan(ts, fine, fine_plan),
        is_bucket_plan(start_series(fine_plan), coarse, resampled),
        is_bucket_plan(ts, coarse, direct),
        0 <= c < direct.len(),
    ensures
        ({
            let groups = resampled[c].members@;
            let entries = direct[c].members@;
            let opening = fine_plan[groups[0] as int].members@;
            let closing = fine_plan[groups[groups.len() - 1] as int].members@;
            &&& opening[0] == entries[0]
            &&& closing[closing.len() - 1] == entries[entries.len() - 1]
        }),
{
    lemma_resample_of_plan(ts, fine, coarse, fine_plan, resampled, direct);
    let t = start_series(fine_plan);
    let groups = resampled[c].members@;
    let entries = direct[c].members@;
    assert(groups.len() > 0 && entries.len() > 0);
    assert(in_time_order(t, groups));
    assert(in_time_order(ts, entries));
    // The fine bucket of the earliest entry is the first group.
    let x = entries[0];
    assert(x < ts.len());
    assert(plan_holds(fine_plan, x as int));
    let (a, m) = choose|a: int, m: int|
        0 <= a < fine_plan.len() && 0 <= m < fine_plan[a].members@.len()
            && #[trigger] fine_plan[a].members@[m] == x as int;
    assert(direct[c].members@.contains(fine_plan[a].members@[m]));
    assert(groups.contains(a as usize));
    let g0 = groups[0];
    assert(g0 < t.len());
    if g0 as int != a {
        let p = choose|p: int| 0 <= p < groups.len() && groups[p] == a as usize;
        assert(time_before(t, g0 as int, a));
        if t[g0 as int] == t[a] {
            if (g0 as int) < a {
                assert(fine_plan[g0 as int].timestamp < fine_plan[a].timestamp);
            }
        }
        assert(fine_plan[g0 as int].members@.len() > 0);
        lemma_earlier_bucket_earlier_entries(ts, fine, fine_plan, g0 as int, 0, a, m);
        let y = fine_plan[g0 as int].members@[0];
        assert(direct[c].members@.contains(fine_plan[g0 as int].members@[0]));
        let q = choose|q: int| 0 <= q < entries.len() && entries[q] == y;
        if q > 0 {
            assert(time_before(ts, entries[0] as int, entries[q] as int));
        }
        assert(false);
    }
    let opening = fine_plan[g0 as int].members@;
    assert(in_time_order(ts, opening));
    let z = opening[0];
    assert(direct[c].members@.contains(fine_plan[g0 as int].members@[0]));
    let qz = choose|qz: int| 0 <= qz < entries.len() && entries[qz] == z;
    if m > 0 {
        assert(time_before(ts, z as int, x as int));
        if qz > 0 {
            assert(time_before(ts, x as int, z as int));
        }
    }
    // The fine bucket of the latest entry is the last group.
    let xl = entries[entries.len() - 1];
    assert(xl < ts.len());
    assert(plan_holds(fine_plan, xl as int));
    let (al, ml) = choose|al: int, ml: int|
        0 <= al < fine_plan.len() && 0 <= ml < fine_plan[al].members@.len()
            && #[trigger] fine_plan[al].members@[ml] == xl as int;
    assert(direct[c].members@.contains(fine_plan[al].members@[ml]));
    assert(groups.contains(al as usize));
    let gl = groups[groups.len() - 1];
    assert(gl < t.len());
    if gl as int != al {
        let p = choose|p: int| 0 <= p < groups.len() && groups[p] == al as usize;
        assert(time_before(t, al, gl as int));
        if t[gl as int] == t[al] {
            if al < gl as int {
                assert(fine_plan[al].timestamp < fine_plan[gl as int].timestamp);
            }
        }
        let closing_len = fine_plan[gl as int].members@.len();
        assert(closing_len > 0);
        lemma_earlier_bucket_earlier_entries(ts, fine, fine_plan, al, ml, gl as int, 0);
        let y = fine_plan[gl as int].members@[0];
        assert(direct[c].members@.contains(fine_plan[gl as int].members@[0]));
        let q = choose|q: int| 0 <= q < entries.len() && entries[q] == y;
        if q < entries.len() - 1 {
            assert(time_before(ts, entries[q] as int, entries[entries.len() - 1] as int));
        }
        assert(false);
    }
    let closing = fine_plan[gl as int].members@;
    assert(in_time_order(ts, closing));
    let zl = closing[closing.len() - 1];
    assert(direct[c].members@.contains(fine_plan[gl as int].members@[closing.len() - 1]));
    let qzl = choose|qzl: int| 0 <= qzl < entries.len() && entries[qzl] == zl;
    if ml < closing.len() - 1 {
        assert(time_before(ts, xl as int, zl as int));
        if qzl < entries.len() - 1 {
            assert(time_before(ts, zl as int, xl as int));
        }
    }
}

} // verus!
