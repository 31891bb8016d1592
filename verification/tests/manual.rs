use smag::datastore::DataStore;
use smag::manual::{parse_manual_range, RangeError};
use smag::SCALE;

// "10,5" has its minimum at or above its maximum and is rejected.
#[test]
fn test_min_not_below_max_rejected() {
    assert_eq!(parse_manual_range("10,5", 20), Err(RangeError::MinNotBelowMax));
    assert_eq!(parse_manual_range("5,5", 20), Err(RangeError::MinNotBelowMax));
}

// "0,100,25" yields exactly 5 ticks at 0, 25, 50, 75, 100.
#[test]
fn test_explicit_increment_five_ticks() {
    let m = parse_manual_range("0,100,25", 20).unwrap();
    assert_eq!(m.min, 0);
    assert_eq!(m.max, 100 * SCALE);
    assert_eq!(m.increment, 25 * SCALE);
    assert_eq!(m.ticks, 5);
    let ds = DataStore::new(1, 4, String::new());
    let labels = ds.y_axis_labels([m.min, m.max], m.ticks as i32);
    assert_eq!(labels, vec!["0 ", "25 ", "50 ", "75 ", "100 "]);
}

#[test]
fn test_field_count_errors() {
    assert_eq!(parse_manual_range("5", 20), Err(RangeError::FieldCount));
    assert_eq!(parse_manual_range("", 20), Err(RangeError::FieldCount));
    assert_eq!(parse_manual_range("1,2,3,4", 20), Err(RangeError::FieldCount));
}

#[test]
fn test_number_errors() {
    assert_eq!(parse_manual_range("a,b", 20), Err(RangeError::Number));
    assert_eq!(parse_manual_range("1,", 20), Err(RangeError::Number));
    assert_eq!(parse_manual_range("1,2,x", 20), Err(RangeError::Number));
    assert_eq!(parse_manual_range("1e3,2", 20), Err(RangeError::Number));
    // Beyond the fixed-point range.
    assert_eq!(parse_manual_range("0,99999999999", 20), Err(RangeError::Number));
}

#[test]
fn test_increment_errors() {
    assert_eq!(parse_manual_range("0,100,0", 20), Err(RangeError::Increment));
    assert_eq!(parse_manual_range("0,100,-5", 20), Err(RangeError::Increment));
}

#[test]
fn test_decimal_fields() {
    let m = parse_manual_range("-0.5,2.25", 20).unwrap();
    assert_eq!(m.min, -500000);
    assert_eq!(m.max, 2250000);
}

#[test]
fn test_default_increment_from_height() {
    // Range 100 units on a 20-row chart: about one tick per six rows.
    let m = parse_manual_range("0,100", 20).unwrap();
    assert_eq!(m.increment, (100 * SCALE * 6) / 19);
    assert_eq!(m.ticks, 4);
}

#[test]
fn test_increment_clamped_to_range() {
    // An increment wider than the range collapses to the range: two ticks.
    let m = parse_manual_range("0,10,500", 20).unwrap();
    assert_eq!(m.increment, 10 * SCALE);
    assert_eq!(m.ticks, 2);
}

#[test]
fn test_error_messages() {
    assert_eq!(
        RangeError::FieldCount.message(),
        "expected 'min,max' or 'min,max,increment'"
    );
    assert_eq!(RangeError::MinNotBelowMax.message(), "min must be less than max");
}
