use smag::labels::{format_tick, tick_label};
use smag::SCALE;

#[test]
fn test_whole_unit_increment_no_decimals() {
    assert_eq!(format_tick(SCALE, 3 * SCALE), "3");
    assert_eq!(format_tick(5 * SCALE, 0), "0");
    assert_eq!(format_tick(2 * SCALE, -3 * SCALE), "-3");
}

#[test]
fn test_rounding_half_away_from_zero() {
    assert_eq!(format_tick(SCALE, 1_500_000), "2");
    assert_eq!(format_tick(SCALE, 1_400_000), "1");
    assert_eq!(format_tick(SCALE, -1_500_000), "-2");
}

#[test]
fn test_precision_follows_increment() {
    // Increment 0.5: one decimal place.
    assert_eq!(format_tick(500_000, 2_500_000), "2.5");
    // Increment 0.05: two decimal places.
    assert_eq!(format_tick(50_000, 2_550_000), "2.55");
    // Increment 0.001: three decimal places, zero-padded.
    assert_eq!(format_tick(1_000, 2_050_000), "2.050");
}

#[test]
fn test_suffix_forms() {
    assert_eq!(tick_label(SCALE, 4 * SCALE, ""), "4 ");
    assert_eq!(tick_label(SCALE, 4 * SCALE, "MB"), "4 MB ");
}
