//! The four criteria by which a labelling is judged, and their weighted sum.
//!
//! Every quantity is kept exact.  The weights 0.2, 0.25, 0.5 and 0.05 are
//! counted in twentieths, so that twenty times a weighted score has the shape
//! `whole - cover / r^2 - 10 * hi / lo`, where `r` is the width of the data
//! range: `cover / r^2` is what coverage loses, `hi / lo` what density loses,
//! and `whole` collects the rest.  A [`Score`] stores the four integers of
//! that shape, and two scores over the same range are compared by
//! cross-multiplication.

use crate::numeric::{div_floor, floor_div};
use vstd::prelude::*;

verus! {

/// Weight of coverage, 0.2, in twentieths.
pub const W_COVERAGE: i64 = 4;

/// Weight of simplicity, 0.25, in twentieths.
pub const W_SIMPLICITY: i64 = 5;

/// Weight of density, 0.5, in twentieths.
pub const W_DENSITY: i64 = 10;

/// Weight of legibility, 0.05, in twentieths.
pub const W_LEGIBILITY: i64 = 1;

/// Legibility of every labelling: no orientation or overlap is modelled.
pub const LEGIBILITY: i64 = 1;

/// How many nice step multipliers there are.
pub const NICE_COUNT: u64 = 6;

/// Largest magnitude of `Score::whole` that `Score::exceeds` accepts.
pub const WHOLE_CAP: i64 = 40;

/// Largest `Score::cover` that `Score::exceeds` accepts.
pub const COVER_CAP: i128 = 64_000_000_000_000_000_000;

/// Largest coverage loss that `score` accepts.
pub const LOSS_CAP: i128 = 640_000_000_000_000_000;

/// Largest `Score::lo` that `Score::exceeds` accepts.
pub const LO_CAP: i128 = 700_000_000;

/// Largest `Score::hi` that `Score::exceeds` accepts.
pub const HI_CAP: i128 = 200_000_000_000;

/// Largest squared range width that `Score::exceeds` accepts.
pub const R2_CAP: i128 = 10_000_000_000_000_000;

/// Largest magnitude of any coordinate handed to `coverage` and `density`.
pub const COORD_CAP: i128 = 1_000_000_000_000_000_000;

/// The nice step multipliers 1, 5, 2, 2.5, 4, 3 in order of preference,
/// each multiplied by ten.
pub open spec fn nice(qpos: int) -> int {
    if qpos == 0 {
        10
    } else if qpos == 1 {
        50
    } else if qpos == 2 {
        20
    } else if qpos == 3 {
        25
    } else if qpos == 4 {
        40
    } else {
        30
    }
}

/// Five times the simplicity `1 - qpos / 5 + v - j`, where `v` is 1 when zero
/// is one of the labels and 0 otherwise.
pub open spec fn simplicity_fifths(qpos: int, j: int, zero_labelled: bool) -> int {
    5 - qpos + (if zero_labelled {
        5int
    } else {
        0int
    }) - 5 * j
}

/// Whether zero is one of the labels `lmin, lmin + lstep, ..` up to `lmax`.
pub open spec fn labels_zero(lmin: int, lmax: int, lstep: int) -> bool {
    lmin % lstep == 0 && lmin <= 0 <= lmax
}

/// Twice the sum of the squared overshoots at both ends.  Coverage is
/// `1 - 25 * coverage_loss / r^2` with `r = dmax - dmin`.
pub open spec fn coverage_loss(dmin: int, dmax: int, lmin: int, lmax: int) -> int {
    2 * ((dmax - lmax) * (dmax - lmax) + (dmin - lmin) * (dmin - lmin))
}

/// The least `coverage_loss` of any labels that span `span`.
pub open spec fn coverage_loss_min(dmin: int, dmax: int, span: int) -> int {
    if span > dmax - dmin {
        (span - (dmax - dmin)) * (span - (dmax - dmin))
    } else {
        0
    }
}

/// The width that labels and data cover together.
pub open spec fn joint_extent(dmin: int, dmax: int, lmin: int, lmax: int) -> int {
    (if lmax >= dmax {
        lmax
    } else {
        dmax
    }) - (if lmin <= dmin {
        lmin
    } else {
        dmin
    })
}

/// A ratio `hi / lo` that is at least one.  Density is `2 - hi / lo`.
#[derive(Clone, Copy, Debug)]
pub struct Ratio {
    pub hi: i128,
    pub lo: i128,
}

/// The larger of the label density `1 / lstep` over the target density
/// `(m - 1) / joint_extent` and its inverse.
pub open spec fn density_ratio(lstep: int, m: int, dmin: int, dmax: int, lmin: int, lmax: int) -> (
    int,
    int,
) {
    let extent = joint_extent(dmin, dmax, lmin, lmax);
    let wanted = (m - 1) * lstep;
    if extent >= wanted {
        (extent, wanted)
    } else {
        (wanted, extent)
    }
}

/// The least `density_ratio` of any `k` labels for a target of `m`.
pub open spec fn density_ratio_min(k: int, m: int) -> (int, int) {
    if k >= m {
        (k - 1, m - 1)
    } else {
        (m - 1, m - 1)
    }
}

/// Twenty times a weighted score: `whole - cover / r^2 - 10 * hi / lo`, where
/// `r` is the width of the data range the score was computed for.
pub struct Value {
    pub whole: int,
    pub cover: int,
    pub hi: int,
    pub lo: int,
}

impl Value {
    /// The value times `r2 * lo`, for squared range width `r2`.
    pub open spec fn key(self, r2: int) -> int {
        (self.whole * r2 - self.cover) * self.lo - W_DENSITY * r2 * self.hi
    }

    /// Whether this value is strictly below `other`.
    pub open spec fn lt(self, other: Value, r2: int) -> bool {
        self.key(r2) * other.lo < other.key(r2) * self.lo
    }

    /// Whether this value is at most `other`.
    pub open spec fn le(self, other: Value, r2: int) -> bool {
        self.key(r2) * other.lo <= other.key(r2) * self.lo
    }

    /// Whether both values are the same number.
    pub open spec fn same(self, other: Value, r2: int) -> bool {
        self.key(r2) * other.lo == other.key(r2) * self.lo
    }

    /// Whether the ratio is a positive fraction not below one and the
    /// coverage term is not negative.
    pub open spec fn proper(self) -> bool {
        1 <= self.lo <= self.hi && 0 <= self.cover
    }
}

/// The value minus two, below which no labelling is accepted.
pub open spec fn floor_value() -> Value {
    Value { whole: -30, cover: 0, hi: 1, lo: 1 }
}

/// Twenty times the weighted sum of the four criteria: coverage
/// `1 - 25 * loss / r^2`, simplicity `simplicity / 5`, density
/// `2 - ratio.0 / ratio.1` and constant legibility.  The loss is weighted by
/// `25 * W_COVERAGE`, which is a hundred.
pub open spec fn weighted(loss: int, simplicity: int, ratio: (int, int)) -> Value {
    Value {
        whole: W_COVERAGE + W_SIMPLICITY * simplicity / 5 + W_DENSITY * 2 + W_LEGIBILITY
            * LEGIBILITY,
        cover: 100 * loss,
        hi: ratio.0,
        lo: ratio.1,
    }
}

/// A weighted score in machine integers.
#[derive(Clone, Copy, Debug)]
pub struct Score {
    pub whole: i64,
    pub cover: i128,
    pub hi: i128,
    pub lo: i128,
}

impl View for Score {
    type V = Value;

    open spec fn view(&self) -> Value {
        Value {
            whole: self.whole as int,
            cover: self.cover as int,
            hi: self.hi as int,
            lo: self.lo as int,
        }
    }
}

impl Score {
    /// Whether the score is small enough for `exceeds` to compare it.
    pub open spec fn fits(self) -> bool {
        &&& -WHOLE_CAP <= self.whole <= WHOLE_CAP
        &&& 0 <= self.cover <= COVER_CAP
        &&& 1 <= self.lo <= LO_CAP
        &&& self.lo <= self.hi <= HI_CAP
    }

    /// The score below which no labelling is accepted: minus two.
    pub fn floor() -> (s: Score)
        ensures
            s@ == floor_value(),
            s.fits(),
    {
        Score { whole: -30, cover: 0, hi: 1, lo: 1 }
    }

    fn scaled(&self, r2: i128) -> (k: i128)
        requires
            self.fits(),
            1 <= r2 <= R2_CAP,
        ensures
            k == self@.key(r2 as int),
            -70_000_000_000_000_000_000_000_000_000 <= k <= 70_000_000_000_000_000_000_000_000_000,
    {
        proof {
            lemma_product_bound(self.whole as int, r2 as int, 40, 10_000_000_000_000_000);
        }
        let inner: i128 = (self.whole as i128) * r2 - self.cover;
        proof {
            lemma_product_bound(inner as int, self.lo as int, 64_400_000_000_000_000_000, 700_000_000);
            lemma_product_bound(10 * r2 as int, self.hi as int, 100_000_000_000_000_000, 200_000_000_000);
        }
        inner * self.lo - 10 * r2 * self.hi
    }

    /// Decides whether this score is strictly above `other`.
    pub fn exceeds(&self, other: &Score, r2: i128) -> (b: bool)
        requires
            self.fits(),
            other.fits(),
            1 <= r2 <= R2_CAP,
        ensures
            b == other@.lt(self@, r2 as int),
    {
        let mine: i128 = self.scaled(r2);
        let theirs: i128 = other.scaled(r2);
        proof {
            lemma_product_bound(
                mine as int,
                other.lo as int,
                70_000_000_000_000_000_000_000_000_000,
                700_000_000,
            );
            lemma_product_bound(
                theirs as int,
                self.lo as int,
                70_000_000_000_000_000_000_000_000_000,
                700_000_000,
            );
        }
        theirs * self.lo < mine * other.lo
    }
}

/// A product is bounded by the product of its factors' bounds.
pub proof fn lemma_product_bound(a: int, b: int, ca: int, cb: int)
    by (nonlinear_arith)
    requires
        -ca <= a <= ca,
        -cb <= b <= cb,
    ensures
        -(ca * cb) <= a * b <= ca * cb,
{
}

/// Fractions with positive denominators are ordered transitively.
pub proof fn lemma_fraction_chain(n1: int, d1: int, n2: int, d2: int, n3: int, d3: int)
    requires
        d1 > 0,
        d2 > 0,
        d3 > 0,
        n1 * d2 <= n2 * d1,
        n2 * d3 <= n3 * d2,
    ensures
        n1 * d3 <= n3 * d1,
        n1 * d2 < n2 * d1 ==> n1 * d3 < n3 * d1,
        n2 * d3 < n3 * d2 ==> n1 * d3 < n3 * d1,
{
    assert((n1 * d2) * d3 <= (n2 * d1) * d3) by (nonlinear_arith)
        requires
            n1 * d2 <= n2 * d1,
            d3 > 0,
    ;
    assert((n2 * d3) * d1 <= (n3 * d2) * d1) by (nonlinear_arith)
        requires
            n2 * d3 <= n3 * d2,
            d1 > 0,
    ;
    assert((n2 * d1) * d3 == (n2 * d3) * d1) by (nonlinear_arith);
    assert((n1 * d2) * d3 == (n1 * d3) * d2) by (nonlinear_arith);
    assert((n3 * d2) * d1 == (n3 * d1) * d2) by (nonlinear_arith);
    assert((n1 * d3) * d2 <= (n3 * d1) * d2);
    assert(n1 * d3 <= n3 * d1) by (nonlinear_arith)
        requires
            (n1 * d3) * d2 <= (n3 * d1) * d2,
            d2 > 0,
    ;
    if n1 * d2 < n2 * d1 {
        assert((n1 * d2) * d3 < (n2 * d1) * d3) by (nonlinear_arith)
            requires
                n1 * d2 < n2 * d1,
                d3 > 0,
        ;
        assert(n1 * d3 < n3 * d1) by (nonlinear_arith)
            requires
                (n1 * d3) * d2 < (n3 * d1) * d2,
                d2 > 0,
        ;
    }
    if n2 * d3 < n3 * d2 {
        assert((n2 * d3) * d1 < (n3 * d2) * d1) by (nonlinear_arith)
            requires
                n2 * d3 < n3 * d2,
                d1 > 0,
        ;
        assert(n1 * d3 < n3 * d1) by (nonlinear_arith)
            requires
                (n1 * d3) * d2 < (n3 * d1) * d2,
                d2 > 0,
        ;
    }
}

/// The order of scores is transitive, and strict as soon as one link is.
pub proof fn lemma_score_chain(a: Value, b: Value, c: Value, r2: int)
    requires
        a.lo > 0,
        b.lo > 0,
        c.lo > 0,
        a.le(b, r2),
        b.le(c, r2),
    ensures
        a.le(c, r2),
        a.lt(b, r2) ==> a.lt(c, r2),
        b.lt(c, r2) ==> a.lt(c, r2),
{
    lemma_fraction_chain(a.key(r2), a.lo, b.key(r2), b.lo, c.key(r2), c.lo);
}

/// A score that is no better in any criterion is no better in total.
pub proof fn lemma_score_dominated(a: Value, b: Value, r2: int)
    requires
        r2 >= 0,
        a.lo > 0,
        b.lo > 0,
        a.whole <= b.whole,
        a.cover >= b.cover,
        a.hi * b.lo >= b.hi * a.lo,
    ensures
        a.le(b, r2),
{
    let aw = a.whole;
    let bw = b.whole;
    let ac = a.cover;
    let bc = b.cover;
    let ah = a.hi;
    let bh = b.hi;
    let al = a.lo;
    let bl = b.lo;
    let xa = aw * r2 - ac;
    let xb = bw * r2 - bc;
    let ya = 10 * r2 * ah;
    let yb = 10 * r2 * bh;
    assert((xb * bl - yb) * al == xb * (al * bl) - yb * al) by (nonlinear_arith);
    assert((xa * al - ya) * bl == xa * (al * bl) - ya * bl) by (nonlinear_arith);
    assert(xb * (al * bl) - xa * (al * bl) == (xb - xa) * (al * bl)) by (nonlinear_arith);
    assert(xb - xa == (bw - aw) * r2 + (ac - bc)) by (nonlinear_arith)
        requires
            xa == aw * r2 - ac,
            xb == bw * r2 - bc,
    ;
    assert(ya * bl - yb * al == 10 * r2 * (ah * bl - bh * al)) by (nonlinear_arith)
        requires
            ya == 10 * r2 * ah,
            yb == 10 * r2 * bh,
    ;
    assert(((bw - aw) * r2 + (ac - bc)) * (al * bl) >= 0) by (nonlinear_arith)
        requires
            bw - aw >= 0,
            r2 >= 0,
            ac - bc >= 0,
            al > 0,
            bl > 0,
    ;
    assert(10 * r2 * (ah * bl - bh * al) >= 0) by (nonlinear_arith)
        requires
            r2 >= 0,
            ah * bl - bh * al >= 0,
    ;
}

/// The `qpos`-th nice step multiplier, times ten.
pub fn nice_tenths(qpos: u64) -> (q: i128)
    requires
        qpos < NICE_COUNT,
    ensures
        q == nice(qpos as int),
{
    if qpos == 0 {
        10
    } else if qpos == 1 {
        50
    } else if qpos == 2 {
        20
    } else if qpos == 3 {
        25
    } else if qpos == 4 {
        40
    } else {
        30
    }
}

/// The remainder of `a` by positive `n` that is never negative.
pub fn floored_mod(a: i128, n: i128) -> (r: i128)
    requires
        n > 0,
        -COORD_CAP <= a <= COORD_CAP,
        n <= COORD_CAP,
    ensures
        r == a as int % n as int,
        0 <= r < n,
{
    let q: i128 = div_floor(a, n);
    proof {
        crate::numeric::lemma_floor_div_bounds(a as int, n as int);
        vstd::arithmetic::div_mod::lemma_fundamental_div_mod(a as int, n as int);
        assert(n as int * (a as int / n as int) == (a as int / n as int) * n as int)
            by (nonlinear_arith);
        assert(q as int == floor_div(a as int, n as int));
    }
    a - n * q
}

/// Five times the simplicity of labels `lmin..=lmax` in steps of `lstep`, made
/// with the `qpos`-th nice number and looseness `j`.
pub fn simplicity(qpos: u64, j: u64, lmin: i128, lmax: i128, lstep: i128) -> (s: i64)
    requires
        qpos < NICE_COUNT,
        j <= 1_000_000,
        0 < lstep <= COORD_CAP,
        -COORD_CAP <= lmin <= COORD_CAP,
    ensures
        s == simplicity_fifths(qpos as int, j as int, labels_zero(lmin as int, lmax as int, lstep as int)),
{
    let on_tick: bool = floored_mod(lmin, lstep) == 0;
    let v: i64 = if on_tick && lmin <= 0 && lmax >= 0 {
        5
    } else {
        0
    };
    5 - (qpos as i64) + v - 5 * (j as i64)
}

/// Five times the greatest simplicity of any labels made with the `qpos`-th
/// nice number and looseness `j`.
pub fn simplicity_max(qpos: u64, j: u64) -> (s: i64)
    requires
        qpos < NICE_COUNT,
        j <= 1_000_000,
    ensures
        s == simplicity_fifths(qpos as int, j as int, true),
{
    5 - (qpos as i64) + 5 - 5 * (j as i64)
}

/// The coverage loss of labels `lmin..=lmax` on data `dmin..=dmax`.
pub fn coverage(dmin: i128, dmax: i128, lmin: i128, lmax: i128) -> (loss: i128)
    requires
        -COORD_CAP <= dmin <= COORD_CAP,
        -COORD_CAP <= dmax <= COORD_CAP,
        -COORD_CAP <= lmin <= COORD_CAP,
        -COORD_CAP <= lmax <= COORD_CAP,
    ensures
        loss == coverage_loss(dmin as int, dmax as int, lmin as int, lmax as int),
        loss >= 0,
{
    let over: i128 = dmax - lmax;
    let under: i128 = dmin - lmin;
    proof {
        lemma_product_bound(over as int, over as int, 2 * COORD_CAP as int, 2 * COORD_CAP as int);
        lemma_product_bound(under as int, under as int, 2 * COORD_CAP as int, 2 * COORD_CAP as int);
        assert(over * over >= 0) by (nonlinear_arith);
        assert(under * under >= 0) by (nonlinear_arith);
    }
    2 * (over * over + under * under)
}

/// The least coverage loss of any labels spanning `span` on data `dmin..=dmax`.
pub fn coverage_max(dmin: i128, dmax: i128, span: i128) -> (loss: i128)
    requires
        -COORD_CAP <= dmin <= dmax <= COORD_CAP,
        0 <= span <= COORD_CAP,
    ensures
        loss == coverage_loss_min(dmin as int, dmax as int, span as int),
        loss >= 0,
{
    let range: i128 = dmax - dmin;
    if span > range {
        let excess: i128 = span - range;
        proof {
            lemma_product_bound(excess as int, excess as int, COORD_CAP as int, COORD_CAP as int);
            assert(excess * excess >= 0) by (nonlinear_arith);
        }
        excess * excess
    } else {
        0
    }
}

/// The density ratio of labels `lmin..=lmax` in steps of `lstep` on data
/// `dmin..=dmax`, for a target of `m` labels.
pub fn density(lstep: i128, m: u32, dmin: i128, dmax: i128, lmin: i128, lmax: i128) -> (g: Ratio)
    requires
        0 <= lstep <= COORD_CAP,
        m >= 1,
        -COORD_CAP <= dmin <= COORD_CAP,
        -COORD_CAP <= dmax <= COORD_CAP,
        -COORD_CAP <= lmin <= COORD_CAP,
        -COORD_CAP <= lmax <= COORD_CAP,
    ensures
        (g.hi as int, g.lo as int) == density_ratio(
            lstep as int,
            m as int,
            dmin as int,
            dmax as int,
            lmin as int,
            lmax as int,
        ),
{
    let top: i128 = if lmax >= dmax {
        lmax
    } else {
        dmax
    };
    let bottom: i128 = if lmin <= dmin {
        lmin
    } else {
        dmin
    };
    let extent: i128 = top - bottom;
    proof {
        lemma_product_bound((m - 1) as int, lstep as int, u32::MAX as int, COORD_CAP as int);
    }
    let wanted: i128 = ((m - 1) as i128) * lstep;
    if extent >= wanted {
        Ratio { hi: extent, lo: wanted }
    } else {
        Ratio { hi: wanted, lo: extent }
    }
}

/// The least density ratio of any `k` labels for a target of `m`.
pub fn density_max(k: u32, m: u32) -> (g: Ratio)
    requires
        k >= 1,
        m >= 1,
    ensures
        (g.hi as int, g.lo as int) == density_ratio_min(k as int, m as int),
{
    if k >= m {
        Ratio { hi: (k - 1) as i128, lo: (m - 1) as i128 }
    } else {
        Ratio { hi: (m - 1) as i128, lo: (m - 1) as i128 }
    }
}

/// The weighted score of a coverage loss `c`, a simplicity `s` in fifths and a
/// density ratio `g`; legibility is constant.
pub fn score(c: i128, s: i64, g: Ratio) -> (total: Score)
    requires
        0 <= c <= LOSS_CAP,
        -1_000_000 <= s <= 1_000_000,
    ensures
        total@ == weighted(c as int, s as int, (g.hi as int, g.lo as int)),
{
    Score {
        whole: W_COVERAGE + s + 2 * W_DENSITY + W_LEGIBILITY * LEGIBILITY,
        cover: 100 * c,
        hi: g.hi,
        lo: g.lo,
    }
}

} // verus!
