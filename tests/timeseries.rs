use pmrs::ocel::{BuilderObject, Ocel};
use pmrs::timeseries::{
    auto_timediff_binning, manual_timediff_binning, remove_bin_gaps, time_bins, BinMethod,
};

#[test]
fn test_timebins() {
    let millis: Vec<i64> = vec![0, 1000, 2000, 3000, 10000];
    assert_eq!(vec![0, 2, 4, 6, 20], time_bins(millis.clone(), 500));
    assert_eq!(vec![0, 0, 1, 1, 5], time_bins(millis.clone(), 2000));
    assert_eq!(vec![0, 0, 0, 0, 1], time_bins(millis, 10000));
}

#[test]
fn test_remove_bin_gaps() {
    let millis: Vec<i64> = vec![0, 1000, 2000, 3000, 10000];
    assert_eq!(vec![0, 1, 2, 3, 4], remove_bin_gaps(time_bins(millis.clone(), 500)));
    assert_eq!(vec![0, 0, 1, 1, 2], remove_bin_gaps(time_bins(millis, 2000)));
}

#[test]
fn time_bins_round_toward_zero() {
    let millis: Vec<i64> = vec![1000, 0, -1500, 2500];
    assert_eq!(vec![0, -1, -2, 1], time_bins(millis.clone(), 1000));
    assert_eq!(vec![0, 1, 2, -1], time_bins(millis, -1000));
}

#[test]
fn remove_bin_gaps_single_and_repeated() {
    assert_eq!(vec![0], remove_bin_gaps(vec![7]));
    assert_eq!(vec![0, 0, 0], remove_bin_gaps(vec![3, 3, 3]));
    assert_eq!(vec![0, 1, 2, 3], remove_bin_gaps(vec![5, 1, 5, 1]));
}

fn three_event_log() -> Ocel {
    let mut log = Ocel::new();
    log.add_event("e0", 0, "place order", vec![BuilderObject("order".to_string(), "o1".to_string()), BuilderObject("item".to_string(), "i1".to_string())]);
    log.add_event("e1", 3_600_000, "pick item", vec![BuilderObject("item".to_string(), "i1".to_string()), BuilderObject("item".to_string(), "i2".to_string())]);
    log.add_event("e2", 7_200_000, "send package", vec![BuilderObject("item".to_string(), "i2".to_string()), BuilderObject("package".to_string(), "p1".to_string())]);
    log
}

#[test]
fn test_auto_timediff_binning() {
    let log = three_event_log();
    assert_eq!(vec![0, 1, 3], auto_timediff_binning(&log)); // 2 hours divided into 3
}

#[test]
fn test_manual_timediff_binning() {
    let log = three_event_log();

    assert_eq!(vec![0, 1, 2], manual_timediff_binning(&log, 3600000)); // 1 hour
    assert_eq!(vec![0, 2, 4], manual_timediff_binning(&log, 1800000)); // 0.5 hour
}

#[test]
fn bin_method_dispatch() {
    let log = three_event_log();
    assert_eq!(vec![0, 1, 3], BinMethod::EqualTime.execute(&log, None));
    assert_eq!(vec![0, 0, 1], BinMethod::EqualTimeDiff.execute(&log, Some(7_200_000)));
    assert!(BinMethod::EqualTimeDiff.execute(&log, None).is_empty());
}

#[test]
fn time_bins_at_the_ends_of_i64() {
    assert_eq!(vec![0, i64::MIN], time_bins(vec![0, i64::MIN], 1));
    assert_eq!(vec![0, 1], time_bins(vec![0, i64::MIN], i64::MIN));
    assert_eq!(vec![0, 0, 1], time_bins(vec![0, i64::MAX, i64::MIN], i64::MIN));
}
