use chart_axis::candidate::Grid;
use chart_axis::labels::{generate_labels, AxisError, LabelSet};
use chart_axis::policy::LabelRange;
use chart_axis::search::search;

fn as_floats(labels: &LabelSet) -> Vec<f64> {
    let mut out = Vec::new();
    for m in labels.mantissas() {
        let v = if labels.exponent >= 0 {
            m as f64 * 10f64.powi(labels.exponent)
        } else {
            m as f64 / 10f64.powi(-labels.exponent)
        };
        out.push(v);
    }
    out
}

#[test]
fn test_wilkinson_extended() {
    let labels = generate_labels(1, 10, 0, 5, LabelRange::Any).unwrap();
    assert_eq!(as_floats(&labels), vec![0.0, 2.5, 5.0, 7.5, 10.0]);
}

#[test]
fn one_to_ten_in_exact_form() {
    let labels = generate_labels(1, 10, 0, 5, LabelRange::Any).unwrap();
    assert_eq!(labels, LabelSet { first: 0, step: 2500, count: 5, exponent: -3 });
}

#[test]
fn included_labels_cover_the_data() {
    let labels = generate_labels(17, 93, 0, 4, LabelRange::Included).unwrap();
    assert_eq!(as_floats(&labels), vec![0.0, 50.0, 100.0]);
    let labels = generate_labels(3, 1_000_003, 0, 20, LabelRange::Included).unwrap();
    assert_eq!(labels, LabelSet { first: 0, step: 50_000, count: 22, exponent: 0 });
    assert!(labels.first() <= 3);
    assert!(labels.last() >= 1_000_003);
}

#[test]
fn excluded_labels_stay_within_the_data() {
    let labels = generate_labels(1, 10, 0, 5, LabelRange::Excluded).unwrap();
    assert_eq!(as_floats(&labels), vec![2.0, 4.0, 6.0, 8.0, 10.0]);
    let labels = generate_labels(17, 93, 0, 4, LabelRange::Excluded).unwrap();
    assert_eq!(as_floats(&labels), vec![20.0, 40.0, 60.0, 80.0]);
}

#[test]
fn labels_ascend_in_even_steps() {
    for (lo, hi, m) in [(1i64, 10i64, 5u32), (-37, 1234, 7), (0, 1, 1000), (-50, 50, 5), (0, 7, 1)] {
        for policy in [LabelRange::Any, LabelRange::Included, LabelRange::Excluded] {
            let labels = generate_labels(lo, hi, 0, m, policy).unwrap();
            let v = labels.mantissas();
            assert!(v.len() >= 1);
            for i in 1..v.len() {
                assert!(v[i - 1] < v[i]);
                assert_eq!(v[i] - v[i - 1], labels.step);
            }
        }
    }
}

#[test]
fn policies_hold_across_exponents() {
    for (lo, hi, m) in [(1i64, 10i64, 5u32), (-37, 1234, 7), (17, 93, 4), (-50, 50, 5), (0, 7, 1)] {
        for e in [-3i32, 0, 4] {
            let inc = generate_labels(lo, hi, e, m, LabelRange::Included).unwrap();
            let f = 10i64.pow((e - inc.exponent) as u32);
            assert!(inc.first() <= lo * f && inc.last() >= hi * f);
            let exc = generate_labels(lo, hi, e, m, LabelRange::Excluded).unwrap();
            let f = 10i64.pow((e - exc.exponent) as u32);
            assert!(exc.first() >= lo * f && exc.last() <= hi * f);
        }
    }
}

#[test]
fn equal_inputs_give_equal_labels() {
    let a = generate_labels(-37, 1234, -1, 7, LabelRange::Any).unwrap();
    let b = generate_labels(-37, 1234, -1, 7, LabelRange::Any).unwrap();
    assert_eq!(a, b);
    assert_eq!(a, LabelSet { first: 0, step: 2000, count: 7, exponent: -2 });
}

#[test]
fn single_value_gets_its_neighbours() {
    let labels = generate_labels(5, 5, 0, 5, LabelRange::Any).unwrap();
    assert_eq!(as_floats(&labels), vec![4.0, 5.0, 6.0]);
    let labels = generate_labels(5, 5, -1, 5, LabelRange::Included).unwrap();
    assert_eq!(as_floats(&labels), vec![0.4, 0.5, 0.6]);
}

#[test]
fn single_value_alone_where_labels_stay_inside() {
    let labels = generate_labels(5, 5, 0, 5, LabelRange::Excluded).unwrap();
    assert_eq!(labels, LabelSet { first: 5, step: 1, count: 1, exponent: 0 });
    assert_eq!(labels.len(), 1);
}

#[test]
fn single_label_target_falls_back_to_five() {
    let labels = generate_labels(0, 100, 0, 1, LabelRange::Any).unwrap();
    assert_eq!(labels, LabelSet { first: 0, step: 2500, count: 5, exponent: -2 });
    assert_eq!(as_floats(&labels), vec![0.0, 25.0, 50.0, 75.0, 100.0]);
}

#[test]
fn small_ranges_get_fine_labels() {
    let labels = generate_labels(0, 1, 0, 5, LabelRange::Any).unwrap();
    assert_eq!(as_floats(&labels), vec![0.0, 0.25, 0.5, 0.75, 1.0]);
    assert_eq!(labels.exponent, -4);
}

#[test]
fn labels_follow_the_exponent_of_the_data() {
    let a = generate_labels(1, 10, 0, 5, LabelRange::Any).unwrap();
    let b = generate_labels(1, 10, 7, 5, LabelRange::Any).unwrap();
    assert_eq!(a.first, b.first);
    assert_eq!(a.step, b.step);
    assert_eq!(a.count, b.count);
    assert_eq!(a.exponent + 7, b.exponent);
}

#[test]
fn symmetric_data_get_a_label_at_zero() {
    let labels = generate_labels(-50, 50, 0, 5, LabelRange::Any).unwrap();
    assert_eq!(as_floats(&labels), vec![-50.0, -25.0, 0.0, 25.0, 50.0]);
}

#[test]
fn largest_inputs_are_handled() {
    let labels = generate_labels(0, 100_000_000, 0, 1000, LabelRange::Any).unwrap();
    assert_eq!(labels, LabelSet { first: 0, step: 100_000, count: 1001, exponent: 0 });
    let labels =
        generate_labels(-999_999_999_000, -999_999_998_000, 3, 6, LabelRange::Any).unwrap();
    assert_eq!(labels, LabelSet { first: -9_999_999_990_000, step: 2000, count: 6, exponent: 2 });
}

#[test]
fn zero_target_is_refused() {
    assert_eq!(generate_labels(1, 10, 0, 0, LabelRange::Any), Err(AxisError::NoLabels));
    assert_eq!(generate_labels(10, 1, 0, 0, LabelRange::Any), Err(AxisError::NoLabels));
}

#[test]
fn inverted_range_is_refused() {
    assert_eq!(generate_labels(10, 1, 0, 5, LabelRange::Any), Err(AxisError::InvertedRange));
}

#[test]
fn oversized_inputs_are_refused() {
    let e = Err(AxisError::OutOfRange);
    assert_eq!(generate_labels(0, 1_000_000_000_000, 0, 5, LabelRange::Any), e);
    assert_eq!(generate_labels(-1_000_000_000_000, 0, 0, 5, LabelRange::Any), e);
    assert_eq!(generate_labels(0, 100_000_001, 0, 5, LabelRange::Any), e);
    assert_eq!(generate_labels(0, 10, 0, 1001, LabelRange::Any), e);
    assert_eq!(generate_labels(0, 10, i32::MIN, 5, LabelRange::Any), e);
    assert!(generate_labels(0, 100_000_000, -2_000_000_000, 1000, LabelRange::Any).is_ok());
}

#[test]
fn label_set_hands_out_its_labels() {
    let labels = LabelSet { first: -5, step: 3, count: 4, exponent: -1 };
    assert_eq!(labels.len(), 4);
    assert_eq!(labels.first(), -5);
    assert_eq!(labels.get(2), 1);
    assert_eq!(labels.last(), 4);
    assert_eq!(labels.mantissas(), vec![-5, -2, 1, 4]);
    let values = labels.values();
    assert_eq!(values.len(), 4);
    assert_eq!(values[3].mantissa, 4);
    assert_eq!(values[3].exponent, -1);
}

#[test]
fn search_reports_the_best_candidate() {
    let g = Grid { dmin: 1000, dmax: 10_000, target: 5, inclusion: LabelRange::Any };
    let f = search(&g).unwrap();
    assert_eq!((f.j, f.qpos, f.k, f.t, f.start), (1, 3, 5, 2, 0));
    assert_eq!((f.lmin, f.step), (0, 2500));
    // 20 * score = 27 - 200 * (1000^2) / 9000^2 - 10
    assert_eq!(f.score.whole, 27);
    assert_eq!(f.score.cover, 200 * 1000 * 1000);
    assert_eq!(f.score.hi, f.score.lo);
}

#[test]
fn search_prefers_the_earlier_of_equal_candidates() {
    // On 0..100 with a target of two, the labels 0 and 100 are reached with
    // the first nice number and cannot be beaten.
    let g = Grid { dmin: 0, dmax: 1000, target: 2, inclusion: LabelRange::Any };
    let f = search(&g).unwrap();
    assert_eq!((f.j, f.qpos, f.k, f.t, f.start), (1, 0, 2, 2, 0));
    assert_eq!((f.lmin, f.step), (0, 1000));
}

#[test]
fn finer_units_give_the_same_labels() {
    let coarse = as_floats(&generate_labels(1, 10, 0, 5, LabelRange::Any).unwrap());
    for (digits, scale) in [(1i32, 10i64), (2, 100), (3, 1000), (4, 10_000), (6, 1_000_000)] {
        let fine = generate_labels(scale, 10 * scale, -digits, 5, LabelRange::Any).unwrap();
        assert_eq!(as_floats(&fine), coarse);
    }
    let fine = generate_labels(10_000, 100_000, -4, 5, LabelRange::Any).unwrap();
    assert_eq!(fine, LabelSet { first: 0, step: 25_000, count: 5, exponent: -4 });
}

#[test]
fn refined_grid_has_the_same_best() {
    let g = Grid { dmin: 1000, dmax: 10_000, target: 5, inclusion: LabelRange::Excluded };
    let h = Grid { dmin: 10_000, dmax: 100_000, target: 5, inclusion: LabelRange::Excluded };
    let a = search(&g).unwrap();
    let b = search(&h).unwrap();
    assert_eq!((a.j, a.qpos, a.k, a.t + 1, a.start), (b.j, b.qpos, b.k, b.t, b.start));
    assert_eq!((10 * a.lmin, 10 * a.step), (b.lmin, b.step));
    assert_eq!((a.lmin, a.step, a.k), (2000, 2000, 5));
}
