use ohlcv_tools::buckets::{bucket_plan, bucket_start, buckets_fit, Bucket};
use ohlcv_tools::order::time_order;

fn shape(plan: &[Bucket]) -> Vec<(i64, Vec<usize>)> {
    plan.iter().map(|b| (b.timestamp, b.members.clone())).collect()
}

#[test]
fn bucket_start_rounds_down_to_interval() {
    assert_eq!(bucket_start(0, 60), 0);
    assert_eq!(bucket_start(10, 60), 0);
    assert_eq!(bucket_start(59, 60), 0);
    assert_eq!(bucket_start(60, 60), 60);
    assert_eq!(bucket_start(65, 60), 60);
    assert_eq!(bucket_start(130, 60), 120);
}

#[test]
fn bucket_start_of_negative_timestamp_rounds_toward_minus_infinity() {
    assert_eq!(bucket_start(-1, 60), -60);
    assert_eq!(bucket_start(-60, 60), -60);
    assert_eq!(bucket_start(-61, 60), -120);
}

#[test]
fn time_order_is_stable_by_timestamp() {
    assert_eq!(time_order(&[]), Vec::<usize>::new());
    assert_eq!(time_order(&[20, 0, 10]), vec![1, 2, 0]);
    assert_eq!(time_order(&[5, 5, 5]), vec![0, 1, 2]);
    assert_eq!(time_order(&[3, 1, 3, 1, 2]), vec![1, 3, 4, 0, 2]);
}

#[test]
fn plan_of_empty_series_is_empty() {
    assert!(bucket_plan(&[], 60).is_empty());
}

#[test]
fn plan_with_non_positive_interval_is_empty() {
    assert!(bucket_plan(&[0], 0).is_empty());
    assert!(bucket_plan(&[0], -60).is_empty());
}

#[test]
fn plan_of_single_timestamp_is_one_bucket() {
    assert_eq!(shape(&bucket_plan(&[10], 60)), vec![(0, vec![0])]);
}

#[test]
fn plan_puts_one_interval_in_one_bucket() {
    assert_eq!(shape(&bucket_plan(&[0, 10, 20, 30], 60)), vec![(0, vec![0, 1, 2, 3])]);
}

#[test]
fn plan_spans_several_buckets() {
    let plan = bucket_plan(&[0, 65, 130], 60);
    assert_eq!(shape(&plan), vec![(0, vec![0]), (60, vec![1]), (120, vec![2])]);
}

#[test]
fn plan_of_unsorted_input_is_in_time_order() {
    // earliest timestamp (position 1) opens, latest (position 0) closes
    let plan = bucket_plan(&[20, 0, 10], 60);
    assert_eq!(shape(&plan), vec![(0, vec![1, 2, 0])]);
}

#[test]
fn plan_keeps_ties_in_input_order() {
    let plan = bucket_plan(&[7, 3, 7, 3], 60);
    assert_eq!(shape(&plan), vec![(0, vec![1, 3, 0, 2])]);
}

#[test]
fn plan_of_minute_candles_into_five_minutes() {
    let plan = bucket_plan(&[0, 60, 120, 180], 300);
    assert_eq!(shape(&plan), vec![(0, vec![0, 1, 2, 3])]);
    let plan = bucket_plan(&[0, 300, 600], 300);
    assert_eq!(shape(&plan), vec![(0, vec![0]), (300, vec![1]), (600, vec![2])]);
    let plan = bucket_plan(&[120, 0, 60], 300);
    assert_eq!(shape(&plan), vec![(0, vec![1, 2, 0])]);
}

#[test]
fn plan_with_smaller_interval_keeps_entries_apart() {
    let plan = bucket_plan(&[0, 60], 30);
    assert_eq!(shape(&plan), vec![(0, vec![0]), (60, vec![1])]);
}

#[test]
fn plan_handles_negative_timestamps() {
    let plan = bucket_plan(&[-1, -60, -61, 0], 60);
    assert_eq!(shape(&plan), vec![(-120, vec![2]), (-60, vec![1, 0]), (0, vec![3])]);
}

#[test]
fn plan_does_not_depend_on_input_order_beyond_ties() {
    // ts2[j] = ts[p[j]] with p = [1, 2, 0]
    let ts = [20, 0, 70];
    let ts2 = [0, 70, 20];
    let p = [1usize, 2, 0];
    let plan = bucket_plan(&ts, 60);
    let plan2 = bucket_plan(&ts2, 60);
    assert_eq!(plan.len(), plan2.len());
    for (b, b2) in plan.iter().zip(plan2.iter()) {
        assert_eq!(b.timestamp, b2.timestamp);
        let relabelled: Vec<usize> = b2.members.iter().map(|&j| p[j]).collect();
        assert_eq!(b.members, relabelled);
    }
    assert_eq!(shape(&plan), vec![(0, vec![1, 0]), (60, vec![2])]);
}

#[test]
fn rebucketing_into_a_multiple_matches_direct_bucketing() {
    for t in [-3601i64, -1, 0, 59, 61, 299, 300, 3599, 123_456] {
        assert_eq!(bucket_start(bucket_start(t, 60), 300), bucket_start(t, 300));
        assert_eq!(bucket_start(bucket_start(t, 60), 3600), bucket_start(t, 3600));
    }
}

#[test]
fn buckets_fit_detects_overflowing_bucket_start() {
    assert!(buckets_fit(&[0, 65, -1], 60));
    assert!(buckets_fit(&[i64::MIN], 1));
    assert!(buckets_fit(&[i64::MIN], 2));
    assert!(!buckets_fit(&[0, i64::MIN], 7));
    assert!(buckets_fit(&[i64::MIN], 0));
    assert!(buckets_fit(&[i64::MAX], 7));
}

#[test]
fn resampling_fine_bucket_starts_matches_direct_coarse_plan() {
    let ts = [0i64, 10, 65, 130, 190, 310];
    let fine = bucket_plan(&ts, 60);
    let starts: Vec<i64> = fine.iter().map(|b| b.timestamp).collect();
    assert_eq!(starts, vec![0, 60, 120, 180, 300]);
    let resampled = bucket_plan(&starts, 300);
    let direct = bucket_plan(&ts, 300);
    assert_eq!(shape(&resampled), vec![(0, vec![0, 1, 2, 3]), (300, vec![4])]);
    assert_eq!(shape(&direct), vec![(0, vec![0, 1, 2, 3, 4]), (300, vec![5])]);
    for (c, d) in direct.iter().enumerate() {
        assert_eq!(resampled[c].timestamp, d.timestamp);
        for (a, f) in fine.iter().enumerate() {
            for x in &f.members {
                assert_eq!(d.members.contains(x), resampled[c].members.contains(&a));
            }
        }
    }
}

#[test]
fn bucket_opens_with_earliest_and_closes_with_latest() {
    let ts = [30i64, 5, 50, 5, 20];
    let plan = bucket_plan(&ts, 60);
    assert_eq!(plan.len(), 1);
    let members = &plan[0].members;
    let first = ts[members[0]];
    let last = ts[*members.last().unwrap()];
    assert_eq!((first, last), (5, 50));
    assert_eq!(members, &vec![1, 3, 4, 0, 2]);
    for &m in members {
        assert!(first <= ts[m] && ts[m] <= last);
    }
}

#[test]
fn each_position_is_held_exactly_once() {
    let ts = [100i64, -5, 3600, 59, 61, 60, -61, 7200, 0];
    let plan = bucket_plan(&ts, 60);
    let mut seen = vec![0usize; ts.len()];
    for b in &plan {
        for &m in &b.members {
            seen[m] += 1;
            assert_eq!(bucket_start(ts[m], 60), b.timestamp);
        }
    }
    assert!(seen.iter().all(|&count| count == 1));
    let starts: Vec<i64> = plan.iter().map(|b| b.timestamp).collect();
    assert_eq!(starts, vec![-120, -60, 0, 60, 3600, 7200]);
}

#[test]
fn plan_is_determined_by_the_timestamps() {
    let ts = [61i64, 3, 60, 3, 125, -4];
    assert_eq!(shape(&bucket_plan(&ts, 60)), shape(&bucket_plan(&ts.to_vec(), 60)));
    assert_eq!(
        shape(&bucket_plan(&ts, 60)),
        vec![(-60, vec![5]), (0, vec![1, 3]), (60, vec![2, 0]), (120, vec![4])]
    );
}

#[test]
fn plan_at_the_edges_of_i64() {
    let plan = bucket_plan(&[i64::MAX, i64::MIN], 1);
    assert_eq!(shape(&plan), vec![(i64::MIN, vec![1]), (i64::MAX, vec![0])]);
    let plan = bucket_plan(&[i64::MIN, i64::MIN + 1], 2);
    assert_eq!(shape(&plan), vec![(i64::MIN, vec![0, 1])]);
    let plan = bucket_plan(&[i64::MAX], i64::MAX);
    assert_eq!(shape(&plan), vec![(i64::MAX, vec![0])]);
}

#[test]
fn rebucketing_starts_at_the_same_interval_keeps_each_bucket() {
    let ts = [125i64, -4, 61, 3, 60, 3];
    let plan = bucket_plan(&ts, 60);
    let starts: Vec<i64> = plan.iter().map(|b| b.timestamp).collect();
    let again = bucket_plan(&starts, 60);
    assert_eq!(again.len(), plan.len());
    for (c, b) in again.iter().enumerate() {
        assert_eq!(b.timestamp, plan[c].timestamp);
        assert_eq!(b.members, vec![c]);
    }
}

#[test]
fn coarse_bucket_opens_and_closes_with_its_fine_buckets() {
    let ts = [250i64, 10, 65, 5, 299, 130, 310, 301];
    let fine = bucket_plan(&ts, 60);
    let starts: Vec<i64> = fine.iter().map(|b| b.timestamp).collect();
    let resampled = bucket_plan(&starts, 300);
    let direct = bucket_plan(&ts, 300);
    for (c, d) in direct.iter().enumerate() {
        let groups = &resampled[c].members;
        let opening = &fine[groups[0]].members;
        let closing = &fine[*groups.last().unwrap()].members;
        assert_eq!(opening[0], d.members[0]);
        assert_eq!(closing.last(), d.members.last());
    }
    assert_eq!(shape(&direct), vec![(0, vec![3, 1, 2, 5, 0, 4]), (300, vec![7, 6])]);
}
