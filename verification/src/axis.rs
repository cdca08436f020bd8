//! An axis as a chart draws it: labels, the precision to print them with,
//! and the number of pixels per unit of data.

use crate::labels::{generate_labels, generated, refinement, AxisError, LabelSet};
use crate::numeric::{lemma_pow10_monotone, pow10, ten_to};
use crate::policy::LabelRange;
use crate::precision::{get_precision_of_set, Decimal};
use crate::score::lemma_product_bound;
use vstd::prelude::*;

verus! {

/// The ratio `pixels / (span * 10^exponent)`: how many pixels one unit of
/// data takes.
#[derive(Clone, Copy, Debug, PartialEq, Eq, Structural)]
pub struct Scale {
    pub pixels: u32,
    pub span: i64,
    pub exponent: i32,
}

/// What `compose` returns.
#[derive(Clone, Copy, Debug, PartialEq, Eq, Structural)]
pub struct AxisResult {
    pub labels: LabelSet,
    pub precision: u32,
    pub scale: Scale,
    pub target_label_count: u32,
}

/// The number of labels to aim at: as many as fit with the given spacing,
/// and at least one.
pub open spec fn target_for(available_pixels: int, min_label_spacing_px: int) -> int {
    if available_pixels / min_label_spacing_px >= 1 {
        available_pixels / min_label_spacing_px
    } else {
        1
    }
}

/// The width that data and labels cover together, in units of the labels.
pub open spec fn effective_span(dmin: int, dmax: int, exponent: int, ls: LabelSet) -> int {
    let lo = dmin * refinement(exponent, ls);
    let hi = dmax * refinement(exponent, ls);
    (if hi >= ls.last_mantissa() {
        hi
    } else {
        ls.last_mantissa()
    }) - (if lo <= ls@[0] {
        lo
    } else {
        ls@[0]
    })
}

/// The `i`-th label of `ls` as a decimal.
pub open spec fn label_at(ls: LabelSet, i: int) -> Decimal {
    Decimal { mantissa: ls@[i] as i64, exponent: ls.exponent }
}

/// Whether `digits` is the greatest precision of any label of `ls`.
pub open spec fn shared_precision(ls: LabelSet, digits: int) -> bool {
    &&& forall|i: int| 0 <= i < ls@.len() ==> (#[trigger] label_at(ls, i)).precision() <= digits
    &&& exists|i: int| 0 <= i < ls@.len() && digits == (#[trigger] label_at(ls, i)).precision()
}

/// Chooses labels that cover the data from `min_value` to `max_value`, both
/// times ten to the `exponent`, and the precision to print them all with.
pub fn get_axis(min_value: i64, max_value: i64, exponent: i32, max_labels: u32) -> (r: Result<
    (LabelSet, u32),
    AxisError,
>)
    ensures
        match r {
            Ok((labels, precision)) => generated(
                min_value as int,
                max_value as int,
                exponent as int,
                max_labels as int,
                LabelRange::Included,
                Ok(labels),
            ) && shared_precision(labels, precision as int),
            Err(e) => generated(
                min_value as int,
                max_value as int,
                exponent as int,
                max_labels as int,
                LabelRange::Included,
                Err(e),
            ),
        },
{
    let labels: LabelSet = match generate_labels(
        min_value,
        max_value,
        exponent,
        max_labels,
        LabelRange::Included,
    ) {
        Ok(ls) => ls,
        Err(e) => {
            return Err(e);
        },
    };
    let values: Vec<Decimal> = labels.values();
    let precision: u32 = get_precision_of_set(&values);
    proof {
        assert forall|i: int| 0 <= i < labels@.len() implies (#[trigger] label_at(
            labels,
            i,
        )).precision() <= precision by {
            assert(label_at(labels, i) == values@[i]);
        }
        let w = choose|i: int|
            0 <= i < values@.len() && precision == (#[trigger] values@[i]).precision();
        assert(label_at(labels, w) == values@[w]);
    }
    Ok((labels, precision))
}

/// Lays out an axis for data from `data_min` to `data_max`, both times ten
/// to the `exponent`, on `available_pixels` pixels where labels need
/// `min_label_spacing_px` pixels each.
///
/// The labels cover the data, so the effective range that the scale divides
/// the pixels by is that of the labels.
pub fn compose(
    data_min: i64,
    data_max: i64,
    exponent: i32,
    available_pixels: u32,
    min_label_spacing_px: u32,
) -> (r: Result<AxisResult, AxisError>)
    ensures
        match r {
            Ok(a) => {
                &&& available_pixels >= 1
                &&& min_label_spacing_px >= 1
                &&& a.target_label_count == target_for(
                    available_pixels as int,
                    min_label_spacing_px as int,
                )
                &&& generated(
                    data_min as int,
                    data_max as int,
                    exponent as int,
                    a.target_label_count as int,
                    LabelRange::Included,
                    Ok(a.labels),
                )
                &&& shared_precision(a.labels, a.precision as int)
                &&& a.scale.pixels == available_pixels
                &&& a.scale.span == effective_span(
                    data_min as int,
                    data_max as int,
                    exponent as int,
                    a.labels,
                )
                &&& a.scale.span == a.labels.last_mantissa() - a.labels@[0]
                &&& a.scale.span >= 1
                &&& a.scale.exponent == a.labels.exponent
            },
            Err(AxisError::NoSpace) => available_pixels == 0 || min_label_spacing_px == 0,
            Err(e) => available_pixels >= 1 && min_label_spacing_px >= 1 && generated(
                data_min as int,
                data_max as int,
                exponent as int,
                target_for(available_pixels as int, min_label_spacing_px as int),
                LabelRange::Included,
                Err(e),
            ),
        },
{
    if available_pixels == 0 || min_label_spacing_px == 0 {
        return Err(AxisError::NoSpace);
    }
    let fit: u32 = available_pixels / min_label_spacing_px;
    let target: u32 = if fit >= 1 {
        fit
    } else {
        1
    };
    let (labels, precision) = match get_axis(data_min, data_max, exponent, target) {
        Ok(found) => found,
        Err(e) => {
            return Err(e);
        },
    };
    let finer: i32 = exponent - labels.exponent;
    let factor: i128 = ten_to(finer as u32);
    proof {
        lemma_pow10_monotone(finer as nat, 6);
        reveal_with_fuel(pow10, 8);
        assert(pow10(6) == 1_000_000);
        lemma_product_bound(data_min as int, factor as int, 999_999_999_000, 1_000_000);
        lemma_product_bound(data_max as int, factor as int, 999_999_999_000, 1_000_000);
        assert(factor == refinement(exponent as int, labels));
        assert(labels@[0] == labels.first + 0 * labels.step);
    }
    let lo: i128 = (data_min as i128) * factor;
    let hi: i128 = (data_max as i128) * factor;
    let first: i128 = labels.first() as i128;
    let last: i128 = labels.last() as i128;
    let effective_min: i128 = if lo <= first {
        lo
    } else {
        first
    };
    let effective_max: i128 = if hi >= last {
        hi
    } else {
        last
    };
    let span: i128 = effective_max - effective_min;
    proof {
        assert(span == last - first);
        if data_min < data_max {
            assert(data_min * factor < data_max * factor) by (nonlinear_arith)
                requires
                    data_min < data_max,
                    factor >= 1,
            ;
        } else {
            assert((labels.count - 1) * labels.step == 2) by (nonlinear_arith)
                requires
                    labels.count == 3,
                    labels.step == 1,
            ;
        }
        assert(1 <= span <= 2_000_000_000_000_000_000);
    }
    Ok(
        AxisResult {
            labels,
            precision,
            scale: Scale { pixels: available_pixels, span: span as i64, exponent: labels.exponent },
            target_label_count: target,
        },
    )
}

} // verus!
