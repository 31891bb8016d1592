use smag::axis::{nice_axis, snap_increment};
use smag::SCALE;

// A raw increment candidate of 0.0043 units snaps to 0.005 units.
#[test]
fn test_snap_small_candidate() {
    assert_eq!(snap_increment(4300), 5000);
}

// A raw increment candidate of 37 units snaps to 50 units.
#[test]
fn test_snap_thirty_seven() {
    assert_eq!(snap_increment(37 * SCALE), 50 * SCALE);
}

#[test]
fn test_snap_decade_neighbours() {
    // 1.5 lies above the log midpoint 1.4678: snaps up to 2.
    assert_eq!(snap_increment(1500000), 2000000);
    // 1.4 lies below it: snaps down to 1.
    assert_eq!(snap_increment(1400000), 1000000);
    // 3.2 lies above the midpoint 3.1623: snaps up to 5.
    assert_eq!(snap_increment(3200000), 5 * SCALE);
    // 6.9 lies above the midpoint 6.8129: snaps up to 10.
    assert_eq!(snap_increment(6900000), 10 * SCALE);
    // Tiny candidates snap to the finest representable increment.
    assert_eq!(snap_increment(0), 1);
    assert_eq!(snap_increment(1), 1);
}

#[test]
fn test_nice_axis_simple_range() {
    // Data 0..10 units on a 20-row chart: increment 5, bounds [0, 10], 3 ticks.
    let (bounds, ticks) = nice_axis(0, 10 * SCALE, 20);
    assert_eq!(bounds, [0, 10 * SCALE]);
    assert_eq!(ticks, 3);
}

// When ticks would sit closer than 30% of the seven-row target, the layout
// collapses to exactly the two rounded end ticks.
#[test]
fn test_tight_tick_collapse() {
    let (bounds, ticks) = nice_axis(0, 10 * SCALE, 5);
    assert_eq!(bounds, [0, 10 * SCALE]);
    assert_eq!(ticks, 2);
}

#[test]
fn test_nice_axis_encloses_data() {
    let cases: Vec<(i64, i64, i32)> = vec![
        (-3 * SCALE, 7 * SCALE, 30),
        (250000, 260000, 40),
        (0, 0, 25),
        (-5 * SCALE, -1 * SCALE, 18),
    ];
    for (lo, hi, h) in cases {
        let (bounds, ticks) = nice_axis(lo, hi, h);
        assert!(bounds[0] <= lo);
        assert!(bounds[1] >= hi);
        assert!(bounds[0] < bounds[1]);
        assert!(ticks >= 2);
    }
}

#[test]
fn test_nice_axis_zero_range_fallback() {
    // All samples equal: the fallback range of two units still yields a
    // usable axis around the data.
    let (bounds, ticks) = nice_axis(4 * SCALE, 4 * SCALE, 20);
    assert!(bounds[0] <= 4 * SCALE && 4 * SCALE <= bounds[1]);
    assert!(ticks >= 2);
}
