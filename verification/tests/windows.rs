use ohlcv_tools::windows::sliding_windows;

#[test]
fn windows_of_too_short_series_are_empty() {
    assert_eq!(sliding_windows(2, 3), Vec::<(usize, usize)>::new());
    assert_eq!(sliding_windows(0, 2), Vec::<(usize, usize)>::new());
    assert_eq!(sliding_windows(1, 2), Vec::<(usize, usize)>::new());
}

#[test]
fn windows_of_zero_width_are_empty() {
    assert_eq!(sliding_windows(4, 0), Vec::<(usize, usize)>::new());
}

#[test]
fn windows_slide_one_step_at_a_time() {
    assert_eq!(sliding_windows(4, 2), vec![(0, 2), (1, 3), (2, 4)]);
    assert_eq!(sliding_windows(3, 1), vec![(0, 1), (1, 2), (2, 3)]);
}

#[test]
fn window_as_long_as_series_is_one_window() {
    assert_eq!(sliding_windows(3, 3), vec![(0, 3)]);
}

#[test]
fn consecutive_pairs_for_returns() {
    assert_eq!(sliding_windows(3, 2), vec![(0, 2), (1, 3)]);
}
