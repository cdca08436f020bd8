//! Label sets and the function that produces them.
//!
//! Numbers are decimals: an integer mantissa times a power of ten.  The data
//! range is given by two mantissas at a common exponent; the labels come back
//! as an arithmetic progression of mantissas at an exponent of their own,
//! never larger than that of the data.

use crate::candidate::{
    lemma_reject_wide, resolution, Candidate, Grid, RANGE_CAP, TARGET_CAP,
};
use crate::numeric::{lemma_pow10_monotone, pow10};
use crate::policy::LabelRange;
use crate::precision::Decimal;
use crate::score::lemma_product_bound;
use crate::search::{lemma_sizes, search};
use vstd::prelude::*;

verus! {

/// Largest magnitude of a data mantissa.
pub const MANTISSA_CAP: i64 = 999_999_999_000;

/// Largest magnitude of a label mantissa.
pub const LABEL_CAP: i64 = 1_000_000_000_000_000_000;

/// Most decimal digits by which the labels are finer than the data.
pub const SHIFT_CAP: i32 = 6;

/// Smallest exponent of the data.
pub const EXPONENT_MIN: i32 = -2_000_000_000;

/// Why no labels were produced.
#[derive(Clone, Copy, Debug, PartialEq, Eq, Structural)]
pub enum AxisError {
    /// The target label count is zero.
    NoLabels,
    /// A mantissa, the width of the range, the target or the exponent lies
    /// beyond what the exact arithmetic holds.
    OutOfRange,
    /// The data minimum lies above the data maximum.
    InvertedRange,
    /// There are no pixels to draw on, or labels need no space at all.
    NoSpace,
}

/// Labels `first, first + step, ..`, `count` of them, each times ten to the
/// `exponent`.
#[derive(Clone, Copy, Debug, PartialEq, Eq, Structural)]
pub struct LabelSet {
    pub first: i64,
    pub step: i64,
    pub count: u32,
    pub exponent: i32,
}

impl View for LabelSet {
    type V = Seq<int>;

    /// The mantissas of the labels, in order.
    open spec fn view(&self) -> Seq<int> {
        Seq::new(self.count as nat, |i: int| self.first + i * self.step)
    }
}

/// Whether a sequence is not empty, strictly ascending and evenly spaced.
pub open spec fn ascending_uniform(s: Seq<int>) -> bool {
    &&& s.len() >= 1
    &&& forall|i: int, j: int| 0 <= i < j < s.len() ==> s[i] < s[j]
    &&& forall|i: int| 0 < i < s.len() ==> #[trigger] s[i] - s[i - 1] == s[1] - s[0]
}

impl LabelSet {
    /// At least one label, a positive step, and mantissas within the cap.
    pub open spec fn wf(self) -> bool {
        &&& self.count >= 1
        &&& self.step >= 1
        &&& -LABEL_CAP <= self.first
        &&& self.first + (self.count - 1) * self.step <= LABEL_CAP
    }

    /// The mantissa of the last label.
    pub open spec fn last_mantissa(self) -> int {
        self.first + (self.count - 1) * self.step
    }

    /// The number of labels.
    pub fn len(&self) -> (n: usize)
        ensures
            n == self@.len(),
            n == self.count,
    {
        self.count as usize
    }

    /// The mantissa of the `i`-th label.
    pub fn get(&self, i: u32) -> (v: i64)
        requires
            self.wf(),
            i < self.count,
        ensures
            v == self@[i as int],
    {
        proof {
            assert(i * self.step <= (self.count - 1) * self.step) by (nonlinear_arith)
                requires
                    0 <= i <= self.count - 1,
                    self.step >= 1,
            ;
            assert(i * self.step >= 0) by (nonlinear_arith)
                requires
                    0 <= i,
                    self.step >= 1,
            ;
            lemma_product_bound(i as int, self.step as int, u32::MAX as int, i64::MAX as int);
        }
        let wide: i128 = (self.first as i128) + (i as i128) * (self.step as i128);
        wide as i64
    }

    /// The mantissa of the first label.
    pub fn first(&self) -> (v: i64)
        requires
            self.wf(),
        ensures
            v == self@[0],
    {
        self.first
    }

    /// The mantissa of the last label.
    pub fn last(&self) -> (v: i64)
        requires
            self.wf(),
        ensures
            v == self@[self.count - 1],
            v == self.last_mantissa(),
    {
        self.get(self.count - 1)
    }

    /// The mantissas of all labels, in order.
    pub fn mantissas(&self) -> (v: Vec<i64>)
        requires
            self.wf(),
        ensures
            v@.len() == self@.len(),
            forall|i: int| 0 <= i < v@.len() ==> v@[i] == self@[i],
    {
        let mut v: Vec<i64> = Vec::new();
        let mut i: u32 = 0;
        while i < self.count
            invariant
                self.wf(),
                i <= self.count,
                v@.len() == i,
                forall|n: int| 0 <= n < i ==> v@[n] == self@[n],
            decreases self.count - i,
        {
            let x: i64 = self.get(i);
            v.push(x);
            i = i + 1;
        }
        v
    }

    /// All labels as decimals, in order.
    pub fn values(&self) -> (v: Vec<Decimal>)
        requires
            self.wf(),
        ensures
            v@.len() == self@.len(),
            forall|i: int|
                0 <= i < v@.len() ==> (#[trigger] v@[i]).mantissa == self@[i] && v@[i].exponent
                    == self.exponent,
    {
        let mut v: Vec<Decimal> = Vec::new();
        let mut i: u32 = 0;
        while i < self.count
            invariant
                self.wf(),
                i <= self.count,
                v@.len() == i,
                forall|n: int|
                    0 <= n < i ==> (#[trigger] v@[n]).mantissa == self@[n] && v@[n].exponent
                        == self.exponent,
            decreases self.count - i,
        {
            let x: i64 = self.get(i);
            v.push(Decimal { mantissa: x, exponent: self.exponent });
            i = i + 1;
        }
        v
    }

    /// The number of labels is the number of steps from the first label to
    /// the last, and one.
    pub proof fn lemma_count(self)
        requires
            self.wf(),
        ensures
            self.count == (self.last_mantissa() - self.first) / (self.step as int) + 1,
            self@.len() == self.count,
            self@[0] == self.first,
            self@[self.count - 1] == self.last_mantissa(),
    {
        vstd::arithmetic::div_mod::lemma_div_multiples_vanish(
            self.count - 1,
            self.step as int,
        );
        assert((self.count - 1) * self.step == self.step * (self.count - 1))
            by (nonlinear_arith);
    }

    /// Every well-formed label set is not empty, strictly ascending and
    /// evenly spaced.
    pub proof fn lemma_ascending_uniform(self)
        requires
            self.wf(),
        ensures
            ascending_uniform(self@),
    {
        let s = self@;
        assert forall|i: int, j: int| 0 <= i < j < s.len() implies s[i] < s[j] by {
            assert(i * self.step < j * self.step) by (nonlinear_arith)
                requires
                    i < j,
                    self.step >= 1,
            ;
        }
        assert forall|i: int| 0 < i < s.len() implies #[trigger] s[i] - s[i - 1] == s[1] - s[0] by {
            assert(i * self.step - (i - 1) * self.step == self.step) by (nonlinear_arith);
            assert(1 * self.step - 0 * self.step == self.step) by (nonlinear_arith);
        }
    }
}

/// The number of decimal digits by which a range of width `r` is refined to
/// reach the width `need`.
pub open spec fn working_shift(r: int, need: int) -> nat
    decreases
            (if r < need {
                need - r
            } else {
                0
            }),
{
    if r >= need || r <= 0 {
        0
    } else {
        1 + working_shift(10 * r, need)
    }
}

/// The data that `generate_labels` accepts, whatever their order.
pub open spec fn in_domain(dmin: int, dmax: int, exponent: int, max_labels: int) -> bool {
    &&& -MANTISSA_CAP <= dmin <= MANTISSA_CAP
    &&& -MANTISSA_CAP <= dmax <= MANTISSA_CAP
    &&& dmax - dmin <= RANGE_CAP
    &&& max_labels <= TARGET_CAP
    &&& exponent >= EXPONENT_MIN
}

/// The grid on which a proper range is searched: the data, `shift` decimal
/// digits finer.
pub open spec fn grid_of(dmin: int, dmax: int, shift: nat, m: int, inclusion: LabelRange) -> Grid {
    Grid {
        dmin: (dmin * pow10(shift)) as i128,
        dmax: (dmax * pow10(shift)) as i128,
        target: m as u32,
        inclusion,
    }
}

/// The labels of a range that is a single value `v`: that value alone where
/// labels must stay within the data, else the value and its two neighbours.
pub open spec fn degenerate(v: int, exponent: int, inclusion: LabelRange) -> LabelSet {
    if inclusion == LabelRange::Excluded {
        LabelSet { first: v as i64, step: 1, count: 1, exponent: exponent as i32 }
    } else {
        LabelSet { first: (v - 1) as i64, step: 1, count: 3, exponent: exponent as i32 }
    }
}

/// Five labels from the data minimum to the data maximum.
pub open spec fn fallback(dmin: int, dmax: int, exponent: int) -> LabelSet {
    LabelSet {
        first: (100 * dmin) as i64,
        step: (25 * (dmax - dmin)) as i64,
        count: 5,
        exponent: (exponent - 2) as i32,
    }
}

/// The labels of a candidate found on a grid of the given exponent.
pub open spec fn of_candidate(c: Candidate, exponent: int) -> LabelSet {
    LabelSet {
        first: c.lmin() as i64,
        step: c.step() as i64,
        count: c.k as u32,
        exponent: exponent as i32,
    }
}

/// Whether `ls` is the labelling of the data `dmin..=dmax` times ten to the
/// `exponent` for a target of `m` labels: the labels of the best candidate on
/// the working grid; five even labels where that grid has no candidate or the
/// target is a single label; and the degenerate labels where the range is a
/// single value.
pub open spec fn labelling(
    dmin: int,
    dmax: int,
    exponent: int,
    m: int,
    inclusion: LabelRange,
    ls: LabelSet,
) -> bool {
    if dmin == dmax {
        ls == degenerate(dmin, exponent, inclusion)
    } else {
        let shift = working_shift(dmax - dmin, resolution(m));
        let g = grid_of(dmin, dmax, shift, m, inclusion);
        if m >= 2 && exists|c: Candidate| g.is_candidate(c) {
            exists|b: Candidate| #[trigger] g.is_best(b) && ls == of_candidate(b, exponent - shift)
        } else {
            ls == fallback(dmin, dmax, exponent)
        }
    }
}

/// The factor between one unit of the data and one unit of the labels.
pub open spec fn refinement(exponent: int, ls: LabelSet) -> int {
    pow10((exponent - ls.exponent) as nat)
}

/// What `generate_labels` returns for given arguments.
///
/// It fails exactly on a target of zero, on data beyond the domain, and on
/// an inverted range, in this order of precedence.  Otherwise the labels are
/// the labelling of the data: well formed, hence ascending in even steps; at
/// most `SHIFT_CAP` digits finer than the data; and placed as the inclusion
/// policy demands.
pub open spec fn generated(
    dmin: int,
    dmax: int,
    exponent: int,
    max_labels: int,
    inclusion: LabelRange,
    r: Result<LabelSet, AxisError>,
) -> bool {
    match r {
        Ok(ls) => {
            &&& max_labels >= 1
            &&& in_domain(dmin, dmax, exponent, max_labels)
            &&& dmin <= dmax
            &&& ls.wf()
            &&& ascending_uniform(ls@)
            &&& labelling(dmin, dmax, exponent, max_labels, inclusion, ls)
            &&& exponent - SHIFT_CAP <= ls.exponent <= exponent
            &&& inclusion.admits(
                dmin * refinement(exponent, ls),
                dmax * refinement(exponent, ls),
                ls@[0],
                ls.last_mantissa(),
            )
        },
        Err(AxisError::NoLabels) => max_labels == 0,
        Err(AxisError::OutOfRange) => max_labels >= 1 && !in_domain(
            dmin,
            dmax,
            exponent,
            max_labels,
        ),
        Err(AxisError::InvertedRange) => max_labels >= 1 && in_domain(
            dmin,
            dmax,
            exponent,
            max_labels,
        ) && dmin > dmax,
        Err(AxisError::NoSpace) => false,
    }
}

/// At most one candidate is the best of a grid.
pub proof fn lemma_best_unique(g: Grid, a: Candidate, b: Candidate)
    requires
        g.is_best(a),
        g.is_best(b),
    ensures
        a == b,
{
    assert(g.settled(a, b));
    assert(g.settled(b, a));
}

/// The labelling of given data is unique: equal inputs give equal labels.
pub proof fn lemma_labelling_unique(
    dmin: int,
    dmax: int,
    exponent: int,
    m: int,
    inclusion: LabelRange,
    x: LabelSet,
    y: LabelSet,
)
    requires
        labelling(dmin, dmax, exponent, m, inclusion, x),
        labelling(dmin, dmax, exponent, m, inclusion, y),
    ensures
        x == y,
{
    if dmin != dmax {
        let shift = working_shift(dmax - dmin, resolution(m));
        let g = grid_of(dmin, dmax, shift, m, inclusion);
        if m >= 2 && exists|c: Candidate| g.is_candidate(c) {
            let a = choose|b: Candidate| #[trigger]
                g.is_best(b) && x == of_candidate(b, exponent - shift);
            let b = choose|b: Candidate| #[trigger]
                g.is_best(b) && y == of_candidate(b, exponent - shift);
            lemma_best_unique(g, a, b);
        }
    }
}

/// Refining a range by one digit at a time reaches the resolution after
/// `working_shift` digits.
proof fn lemma_shift_step(r: int, need: int)
    requires
        1 <= r < need,
    ensures
        working_shift(r, need) == 1 + working_shift(10 * r, need),
{
}

/// Chooses tick labels for the data range from `dmin` to `dmax`, both times
/// ten to the `exponent`, aiming at `max_labels` labels.
///
/// The labels are those of the best candidate of the extended Wilkinson
/// search, carried out on a grid fine enough for every step that can score
/// above minus two.  Where the search accepts nothing, or a single label is
/// asked for, five even labels from minimum to maximum are returned; a range
/// that is a single value gets that value, with its two neighbours unless the
/// labels must stay within the data.
pub fn generate_labels(
    dmin: i64,
    dmax: i64,
    exponent: i32,
    max_labels: u32,
    label_inclusion: LabelRange,
) -> (r: Result<LabelSet, AxisError>)
    ensures
        generated(
            dmin as int,
            dmax as int,
            exponent as int,
            max_labels as int,
            label_inclusion,
            r,
        ),
{
    if max_labels == 0 {
        return Err(AxisError::NoLabels);
    }
    if dmin < -MANTISSA_CAP || dmin > MANTISSA_CAP || dmax < -MANTISSA_CAP || dmax > MANTISSA_CAP
        || max_labels > TARGET_CAP || exponent < EXPONENT_MIN {
        return Err(AxisError::OutOfRange);
    }
    if dmax - dmin > 100_000_000 {
        return Err(AxisError::OutOfRange);
    }
    if dmin > dmax {
        return Err(AxisError::InvertedRange);
    }
    if dmin == dmax {
        let ls = match label_inclusion {
            LabelRange::Excluded => LabelSet { first: dmin, step: 1, count: 1, exponent },
            _ => LabelSet { first: dmin - 1, step: 1, count: 3, exponent },
        };
        proof {
            assert((ls.count - 1) * ls.step == ls.count - 1) by (nonlinear_arith)
                requires
                    ls.step == 1,
            ;
            ls.lemma_ascending_uniform();
            assert(pow10(0) == 1);
            assert(dmin * 1 == dmin) by (nonlinear_arith);
            assert(ls@[0] == ls.first + 0 * ls.step);
        }
        return Ok(ls);
    }
    let range: i128 = (dmax - dmin) as i128;
    let need: i128 = 65 * (7 * (max_labels as i128) - 5) + 1;
    let mut shift: u32 = 0;
    let mut scale: i128 = 1;
    let mut width: i128 = range;
    proof {
        reveal_with_fuel(pow10, 8);
        assert(pow10(6) == 1_000_000);
        assert(range * 1 == range) by (nonlinear_arith);
    }
    while width < need
        invariant
            1 <= range <= 100_000_000,
            need == resolution(max_labels as int),
            need <= 454_676,
            scale == pow10(shift as nat),
            1 <= scale <= 1_000_000,
            shift <= 6,
            width == range * scale,
            1 <= width <= 100_000_000,
            pow10(6) == 1_000_000,
            working_shift(range as int, need as int) == shift + working_shift(
                width as int,
                need as int,
            ),
        decreases
                (if width < need {
                    need - width
                } else {
                    0
                }),
    {
        proof {
            lemma_shift_step(width as int, need as int);
            assert(scale <= width) by (nonlinear_arith)
                requires
                    width == range * scale,
                    range >= 1,
                    scale >= 1,
            ;
            if shift >= 6 {
                lemma_pow10_monotone(6, shift as nat);
            }
            lemma_pow10_monotone((shift + 1) as nat, 6);
            assert(range * (scale * 10) == (range * scale) * 10) by (nonlinear_arith);
        }
        width = width * 10;
        scale = scale * 10;
        shift = shift + 1;
    }
    proof {
        lemma_product_bound(dmin as int, scale as int, 999_999_999_000, 1_000_000);
        lemma_product_bound(dmax as int, scale as int, 999_999_999_000, 1_000_000);
        assert(dmax * scale - dmin * scale == (dmax - dmin) * scale) by (nonlinear_arith);
    }
    let g = Grid {
        dmin: (dmin as i128) * scale,
        dmax: (dmax as i128) * scale,
        target: max_labels,
        inclusion: label_inclusion,
    };
    assert(g == grid_of(
        dmin as int,
        dmax as int,
        shift as nat,
        max_labels as int,
        label_inclusion,
    ));
    if max_labels >= 2 {
        match search(&g) {
            Some(f) => {
                proof {
                    let c = f.candidate();
                    if c.span() >= 2 * g.range() {
                        lemma_reject_wide(g, c);
                    }
                    lemma_sizes(g, c);
                    crate::candidate::lemma_shape(c);
                }
                let ls = LabelSet {
                    first: f.lmin as i64,
                    step: f.step as i64,
                    count: f.k,
                    exponent: exponent - (shift as i32),
                };
                proof {
                    let c = f.candidate();
                    assert(ls == of_candidate(c, exponent - shift));
                    assert(g.is_candidate(c));
                    assert(g.is_best(c));
                    ls.lemma_ascending_uniform();
                    assert(ls@[0] == ls.first + 0 * ls.step);
                }
                return Ok(ls);
            },
            None => {},
        }
    }
    let ls = LabelSet {
        first: 100 * dmin,
        step: 25 * (dmax - dmin),
        count: 5,
        exponent: exponent - 2,
    };
    proof {
        assert((ls.count - 1) * ls.step == 4 * ls.step) by (nonlinear_arith)
            requires
                ls.count == 5,
        ;
        ls.lemma_ascending_uniform();
        reveal_with_fuel(pow10, 3);
        let f = refinement(exponent as int, ls);
        assert(f == 100);
        assert(dmin * f == 100 * dmin && dmax * f == 100 * dmax) by (nonlinear_arith)
            requires
                f == 100,
        ;
        assert(ls.last_mantissa() == 100 * dmax);
        assert(ls@[0] == ls.first + 0 * ls.step);
    }
    Ok(ls)
}

} // verus!
