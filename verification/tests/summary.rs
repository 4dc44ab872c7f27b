use ohlcv_tools::summary::summary_positions;

fn positions(len: usize) -> Option<(usize, usize, usize, usize)> {
    summary_positions(len).map(|p| (p.min, p.max, p.median_low, p.median_high))
}

#[test]
fn empty_series_has_no_summary() {
    assert_eq!(positions(0), None);
}

#[test]
fn odd_length_median_is_the_middle_entry() {
    assert_eq!(positions(1), Some((0, 0, 0, 0)));
    assert_eq!(positions(3), Some((0, 2, 1, 1)));
    assert_eq!(positions(5), Some((0, 4, 2, 2)));
}

#[test]
fn even_length_median_reads_the_middle_two() {
    assert_eq!(positions(2), Some((0, 1, 0, 1)));
    assert_eq!(positions(4), Some((0, 3, 1, 2)));
}

#[test]
fn median_positions_are_symmetric() {
    for len in 1..50usize {
        let (_, _, lo, hi) = positions(len).unwrap();
        assert_eq!(lo + hi, len - 1);
    }
}
