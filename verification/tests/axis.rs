use chart_axis::axis::{compose, get_axis, Scale};
use chart_axis::labels::{AxisError, LabelSet};

#[test]
fn five_hundred_pixels_for_zero_to_hundred() {
    let a = compose(0, 100, 0, 500, 50).unwrap();
    assert_eq!(a.target_label_count, 10);
    assert_eq!(a.labels, LabelSet { first: 0, step: 1000, count: 11, exponent: -2 });
    assert_eq!(a.precision, 0);
    // 500 pixels over an effective range of 10000 * 10^-2
    assert_eq!(a.scale, Scale { pixels: 500, span: 10_000, exponent: -2 });
    let per_unit = a.scale.pixels as f64 / (a.scale.span as f64 / 100.0);
    assert_eq!(per_unit, 500.0 / (100.0 - 0.0));
}

#[test]
fn labels_beyond_the_data_widen_the_scale() {
    // data 17..93, three labels fit: 0, 50, 100
    let a = compose(17, 93, 0, 160, 40).unwrap();
    assert_eq!(a.target_label_count, 4);
    assert_eq!(a.labels, LabelSet { first: 0, step: 5000, count: 3, exponent: -2 });
    assert_eq!(a.scale, Scale { pixels: 160, span: 10_000, exponent: -2 });
    assert_eq!(a.precision, 0);
}

#[test]
fn precision_follows_the_labels() {
    let a = compose(1, 10, 0, 200, 40).unwrap();
    assert_eq!(a.target_label_count, 5);
    assert_eq!(a.labels, LabelSet { first: 0, step: 2500, count: 5, exponent: -3 });
    assert_eq!(a.precision, 1);
}

#[test]
fn narrow_space_still_aims_at_one_label() {
    let a = compose(0, 100, 0, 30, 50).unwrap();
    assert_eq!(a.target_label_count, 1);
    assert_eq!(a.labels.count, 5);
    assert_eq!(a.scale, Scale { pixels: 30, span: 10_000, exponent: -2 });
}

#[test]
fn single_value_axis() {
    let a = compose(5, 5, 0, 500, 50).unwrap();
    assert_eq!(a.labels, LabelSet { first: 4, step: 1, count: 3, exponent: 0 });
    assert_eq!(a.scale, Scale { pixels: 500, span: 2, exponent: 0 });
}

#[test]
fn no_space_is_refused() {
    assert_eq!(compose(0, 100, 0, 0, 50), Err(AxisError::NoSpace));
    assert_eq!(compose(0, 100, 0, 500, 0), Err(AxisError::NoSpace));
}

#[test]
fn bad_data_are_refused() {
    assert_eq!(compose(100, 0, 0, 500, 50), Err(AxisError::InvertedRange));
    assert_eq!(compose(0, 100, 0, 500_000, 1), Err(AxisError::OutOfRange));
    assert_eq!(compose(0, 1_000_000_000, 0, 500, 50), Err(AxisError::OutOfRange));
}

#[test]
fn axis_labels_cover_the_data() {
    let (labels, precision) = get_axis(1, 10, 0, 5).unwrap();
    assert_eq!(labels, LabelSet { first: 0, step: 2500, count: 5, exponent: -3 });
    assert_eq!(precision, 1);
    let (labels, precision) = get_axis(0, 1, 0, 5).unwrap();
    assert_eq!(labels, LabelSet { first: 0, step: 2500, count: 5, exponent: -4 });
    assert_eq!(precision, 2);
    assert_eq!(get_axis(1, 10, 0, 0), Err(AxisError::NoLabels));
    assert_eq!(get_axis(10, 1, 0, 5), Err(AxisError::InvertedRange));
}
