use chart_axis::numeric::{div_ceil, div_floor};
use chart_axis::policy::LabelRange;
use chart_axis::score::{
    coverage, coverage_max, density, density_max, floored_mod, nice_tenths, score, simplicity,
    simplicity_max, Ratio, Score,
};

#[test]
fn division_rounds_toward_either_infinity() {
    assert_eq!(div_floor(7, 2), 3);
    assert_eq!(div_floor(-7, 2), -4);
    assert_eq!(div_floor(-8, 2), -4);
    assert_eq!(div_floor(0, 5), 0);
    assert_eq!(div_ceil(7, 2), 4);
    assert_eq!(div_ceil(-7, 2), -3);
    assert_eq!(div_ceil(8, 2), 4);
    assert_eq!(div_ceil(-1, 5), 0);
}

#[test]
fn floored_mod_is_never_negative() {
    assert_eq!(floored_mod(7, 3), 1);
    assert_eq!(floored_mod(-7, 3), 2);
    assert_eq!(floored_mod(-9, 3), 0);
    assert_eq!(floored_mod(0, 3), 0);
}

#[test]
fn nice_numbers_in_order_of_preference() {
    let q: Vec<i128> = (0..6).map(nice_tenths).collect();
    assert_eq!(q, vec![10, 50, 20, 25, 40, 30]);
}

#[test]
fn simplicity_in_fifths() {
    // 1 - 3/5 + 1 - 1 = 2/5
    assert_eq!(simplicity(3, 1, 0, 10_000, 2500), 2);
    // zero is in range but not on a label: 1 - 0/5 + 0 - 1 = 0
    assert_eq!(simplicity(0, 1, -5, 15, 10), 0);
    // zero is out of range: 1 - 2/5 + 0 - 2 = -7/5
    assert_eq!(simplicity(2, 2, 20, 60, 20), -7);
    assert_eq!(simplicity_max(3, 1), 2);
    assert_eq!(simplicity_max(0, 13), -55);
}

#[test]
fn coverage_loss_counts_both_ends() {
    assert_eq!(coverage(1, 10, 0, 10), 2);
    assert_eq!(coverage(1, 10, 2, 8), 10);
    assert_eq!(coverage(1, 10, 1, 10), 0);
    assert_eq!(coverage_max(1, 10, 12), 9);
    assert_eq!(coverage_max(1, 10, 9), 0);
    assert_eq!(coverage_max(1, 10, 5), 0);
}

#[test]
fn density_ratio_is_at_least_one() {
    let g = density(2500, 5, 1000, 10_000, 0, 10_000);
    assert_eq!((g.hi, g.lo), (10_000, 10_000));
    let g = density(2, 4, 1, 10, 2, 8);
    assert_eq!((g.hi, g.lo), (9, 6));
    let g = density(5, 4, 1, 10, 0, 10);
    assert_eq!((g.hi, g.lo), (15, 10));
    let g = density_max(7, 5);
    assert_eq!((g.hi, g.lo), (6, 4));
    let g = density_max(3, 5);
    assert_eq!((g.hi, g.lo), (4, 4));
}

#[test]
fn score_weighs_the_criteria() {
    let s = score(2, 2, Ratio { hi: 3, lo: 2 });
    assert_eq!((s.whole, s.cover, s.hi, s.lo), (27, 200, 3, 2));
}

#[test]
fn scores_compare_by_value() {
    // over a range of width 10: 27 - 200/100 - 15 = 10 and 20 - 0 - 10 = 10
    let a = Score { whole: 27, cover: 200, hi: 3, lo: 2 };
    let b = Score { whole: 20, cover: 0, hi: 7, lo: 7 };
    let c = Score { whole: 20, cover: 1, hi: 7, lo: 7 };
    assert!(!a.exceeds(&b, 100));
    assert!(!b.exceeds(&a, 100));
    assert!(a.exceeds(&c, 100));
    assert!(!c.exceeds(&a, 100));
    let floor = Score::floor();
    assert_eq!((floor.whole, floor.cover, floor.hi, floor.lo), (-30, 0, 1, 1));
    assert!(a.exceeds(&floor, 100));
    assert!(!floor.exceeds(&floor, 100));
}

#[test]
fn policies_judge_the_outermost_labels() {
    assert!(LabelRange::Any.accepts(1, 10, 5, 6));
    assert!(LabelRange::Any.accepts(1, 10, -5, 60));
    assert!(LabelRange::Included.accepts(1, 10, 0, 10));
    assert!(LabelRange::Included.accepts(1, 10, 1, 10));
    assert!(!LabelRange::Included.accepts(1, 10, 2, 12));
    assert!(!LabelRange::Included.accepts(1, 10, 0, 9));
    assert!(LabelRange::Excluded.accepts(1, 10, 2, 10));
    assert!(LabelRange::Excluded.accepts(1, 10, 1, 10));
    assert!(!LabelRange::Excluded.accepts(1, 10, 0, 10));
    assert!(!LabelRange::Excluded.accepts(1, 10, 2, 11));
}
