use fj_contracting::statistics::Histogram;

#[test]
fn histogram_from_history() {
    // In the history, 0 did not occur, 1 occured once, 2 occured three times, ...
    let history = vec![2, 2, 8, 1, 3, 3, 3, 6, 2, 5, 5];
    let histogram = Histogram::from_nonempty_usize_history_vec(history, 5);
    assert_eq!(histogram.display_line(), "min: 1, max: 8, total: 40, outlier_count: 2");
    assert_eq!(*histogram.distribution(), vec![0, 1, 3, 3, 0, 2]);
    assert_eq!(histogram.threshold(), 5);
}

#[test]
fn histogram_counts_and_outliers_cover_history() {
    let history = vec![0, 7, 7, 1, 0, 9];
    let histogram = Histogram::from_nonempty_usize_history_vec(history.clone(), 3);
    let counted: usize = histogram.distribution().iter().sum();
    assert_eq!(counted, 3);
    assert_eq!(histogram.display_line(), "min: 0, max: 9, total: 24, outlier_count: 3");
    assert_eq!(counted + 3, history.len());
}

#[test]
fn histogram_single_entry_threshold_zero() {
    let histogram = Histogram::from_nonempty_usize_history_vec(vec![0], 0);
    assert_eq!(*histogram.distribution(), vec![1]);
    assert_eq!(histogram.display_line(), "min: 0, max: 0, total: 0, outlier_count: 0");
}

#[test]
fn histogram_debug_line() {
    let history = vec![2, 2, 8, 1, 3, 3, 3, 6, 2, 5, 5];
    let histogram = Histogram::from_nonempty_usize_history_vec(history, 5);
    assert_eq!(
        histogram.debug_line(),
        "min: 1, max: 8, total 40, outlier_count: 2, distribution [0, 1, 3, 3, 0, 2]"
    );
    let single = Histogram::from_nonempty_usize_history_vec(vec![3], 0);
    assert_eq!(single.debug_line(), "min: 3, max: 3, total 3, outlier_count: 1, distribution [0]");
    assert_eq!(single.distribution().len(), single.threshold() + 1);
}
