use smag::datastore::DataStore;
use smag::SCALE;

fn store(num_series: usize, capacity: usize) -> DataStore {
    DataStore::new(num_series, capacity, String::new())
}

// Once a series has received at least `capacity` samples, the window keeps
// spanning exactly `capacity` and both bounds advance together.
#[test]
fn test_window_slides_when_full() {
    let mut ds = store(1, 3);
    assert_eq!(ds.x_axis_bounds(), [0, 3]);
    for x in 0..3u64 {
        ds.update(0, x, Some(1));
        assert_eq!(ds.x_axis_bounds(), [0, 3]);
    }
    ds.update(0, 3, Some(1));
    assert_eq!(ds.x_axis_bounds(), [1, 4]);
    ds.update(0, 4, Some(1));
    assert_eq!(ds.x_axis_bounds(), [2, 5]);
}

#[test]
fn test_x_axis_bounds_union_over_series() {
    let mut ds = store(2, 2);
    for x in 0..4u64 {
        ds.update(0, x, Some(1));
    }
    // Series 0 window is [2, 4]; series 1 never filled, so it is [0, 2].
    assert_eq!(ds.x_axis_bounds(), [0, 4]);
}

// Statistics skip missing samples: [5, missing, 7, missing, 9] reports
// min 5, max 9, and the 95th percentile over {5, 7, 9} alone.
#[test]
fn test_stats_exclude_missing() {
    let mut ds = store(1, 10);
    ds.update(0, 0, Some(5));
    ds.update(0, 1, None);
    ds.update(0, 2, Some(7));
    ds.update(0, 3, None);
    ds.update(0, 4, Some(9));
    let st = ds.stats(0).unwrap();
    assert_eq!(st.min, 5);
    assert_eq!(st.max, 9);
    assert_eq!(st.p95, 9);
}

#[test]
fn test_stats_no_data() {
    let mut ds = store(1, 4);
    assert!(ds.stats(0).is_none());
    ds.update(0, 0, None);
    ds.update(0, 1, None);
    assert!(ds.stats(0).is_none());
}

#[test]
fn test_stats_p95_rank() {
    let mut ds = store(1, 100);
    for x in 0..20u64 {
        ds.update(0, x, Some(x as i64 + 1));
    }
    // 20 values 1..=20: the nearest-rank 95th percentile is the 19th.
    let st = ds.stats(0).unwrap();
    assert_eq!(st.min, 1);
    assert_eq!(st.max, 20);
    assert_eq!(st.p95, 19);
}

#[test]
fn test_last_value() {
    let mut ds = store(1, 3);
    assert_eq!(ds.last(0), 0);
    ds.update(0, 0, Some(42));
    assert_eq!(ds.last(0), 42);
    ds.update(0, 1, None);
    // A missing newest sample reads as zero.
    assert_eq!(ds.last(0), 0);
    ds.update(0, 2, Some(-7));
    assert_eq!(ds.last(0), -7);
}

#[test]
fn test_y_axis_bounds_over_store() {
    let mut ds = store(1, 10);
    for x in 0..10u64 {
        ds.update(0, x, Some((x as i64) * SCALE));
    }
    // Values 0..9 units on a 20-row chart.
    let (bounds, ticks) = ds.y_axis_bounds(20);
    assert!(bounds[0] <= 0);
    assert!(bounds[1] >= 9 * SCALE);
    assert!(ticks >= 2);
}

#[test]
fn test_y_axis_labels_whole_units() {
    let ds = store(1, 4);
    let labels = ds.y_axis_labels([0, 10 * SCALE], 3);
    assert_eq!(labels, vec!["0 ", "5 ", "10 "]);
}

#[test]
fn test_y_axis_labels_with_unit_and_fractions() {
    let ds = DataStore::new(1, 4, "MB".to_string());
    // Increment of half a unit: one decimal place.
    let labels = ds.y_axis_labels([0, SCALE], 3);
    assert_eq!(labels, vec!["0.0 MB ", "0.5 MB ", "1.0 MB "]);
}

#[test]
fn test_y_axis_labels_negative_values() {
    let ds = store(1, 4);
    let labels = ds.y_axis_labels([-2 * SCALE, 2 * SCALE], 3);
    assert_eq!(labels, vec!["-2 ", "0 ", "2 "]);
}
