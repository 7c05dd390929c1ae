use srtresync::drift::DriftError;
use srtresync::drift::DriftParameters;
use srtresync::drift::apply_drift;
use srtresync::drift::calculate_drift;
use srtresync::timestamp::Timestamp;

fn apply_ms(p: &DriftParameters, t: i32) -> i32 {
    apply_drift(p, Timestamp::new(t))
        .expect("corrected value should stay in range")
        .total_milliseconds
}

#[test]
fn zero_slope_is_purely_additive() {
    let p = DriftParameters::new(0, 1, 5_000);
    for t in [-10_000, -1, 0, 1, 12_345, 2_000_000_000] {
        assert_eq!(apply_ms(&p, t), t + 5_000);
    }
}

#[test]
fn fixed_offset_doubles_the_timestamp() {
    let p = DriftParameters::fixed_offset(1_000);
    assert_eq!(apply_ms(&p, 10_000), 21_000);
    assert_eq!(apply_ms(&p, 12_000), 25_000);
    assert_eq!(apply_ms(&p, 0), 1_000);
}

#[test]
fn fitted_line_passes_through_both_anchors() {
    let b1 = Timestamp::new(10_000);
    let a1 = Timestamp::new(11_000);
    let b2 = Timestamp::new(20_000);
    let a2 = Timestamp::new(13_000);
    let p = calculate_drift((&b1, &a1), (&b2, &a2)).expect("anchors differ");
    // Over the common denominator: slope * before_i + intercept == delta_i.
    assert_eq!(p.slope_num * 10_000 + p.intercept_num, 1_000 * p.slope_den);
    assert_eq!(p.slope_num * 20_000 + p.intercept_num, -7_000 * p.slope_den);
    // Applying the correction maps each anchor's before to its after.
    assert_eq!(apply_ms(&p, 10_000), 11_000);
    assert_eq!(apply_ms(&p, 20_000), 13_000);
}

#[test]
fn fitted_parameters_are_the_documented_ratios() {
    let b1 = Timestamp::new(10_000);
    let a1 = Timestamp::new(11_000);
    let b2 = Timestamp::new(20_000);
    let a2 = Timestamp::new(13_000);
    let p = calculate_drift((&b1, &a1), (&b2, &a2)).expect("anchors differ");
    assert_eq!(p.slope_den, -10_000);
    assert_eq!(p.slope_num, 8_000);
    assert_eq!(p.intercept_num, -90_000_000);
}

#[test]
fn equal_before_times_are_degenerate() {
    let b = Timestamp::new(10_000);
    let a1 = Timestamp::new(11_000);
    let a2 = Timestamp::new(12_000);
    let r = calculate_drift((&b, &a1), (&b, &a2));
    assert_eq!(r, Err(DriftError::DegenerateAnchors));
}

#[test]
fn out_of_range_correction_is_refused() {
    let p = DriftParameters::fixed_offset(2_000_000_000);
    assert!(apply_drift(&p, Timestamp::new(2_000_000_000)).is_none());
}

#[test]
fn offset_truncates_toward_zero() {
    // slope 1/3, intercept 0: offset(10) = 3, offset(-10) = -3.
    let p = DriftParameters::new(1, 3, 0);
    assert_eq!(apply_ms(&p, 10), 13);
    assert_eq!(apply_ms(&p, -10), -13);
}
