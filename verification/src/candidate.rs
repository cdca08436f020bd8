//! What the search ranges over: labellings on an integer grid, their scores,
//! and upper bounds on those scores that hold for whole families at once.
//!
//! A candidate is named by a looseness `j`, the position `qpos` of a nice
//! number, a label count `k`, a decimal exponent `t` and a start offset.  Its
//! labels are `start * unit, start * unit + step, ..` with
//! `unit = nice(qpos) * 10^t` and `step = j * unit`; `nice` already carries a
//! factor of ten, so one grid unit is a tenth of the finest nice number.

use crate::numeric::{
    ceil_div, floor_div, lemma_pow10_grows, lemma_pow10_monotone, pow10,
};
use crate::policy::LabelRange;
use crate::score::{
    coverage_loss, coverage_loss_min, density_ratio, density_ratio_min, floor_value,
    labels_zero, lemma_score_chain, lemma_score_dominated, nice, simplicity_fifths, weighted,
    Value,
};
use vstd::prelude::*;

verus! {

/// Largest magnitude of a grid coordinate.
pub const POS_CAP: i128 = 999_999_999_000_000_000;

/// Largest width of the data range, in grid units.
pub const RANGE_CAP: i128 = 100_000_000;

/// Largest target label count.
pub const TARGET_CAP: u32 = 1000;

/// No labelling looser than this scores above minus two.
pub const LOOSENESS_CAP: u64 = 13;

/// The width, in grid units, from which on every step that a candidate for a
/// target of `m` labels can have is a whole number of units.
pub open spec fn resolution(m: int) -> int {
    65 * (7 * m - 5) + 1
}

/// A labelling problem whose data bounds are integers.
#[derive(Clone, Copy, Debug)]
pub struct Grid {
    /// The data minimum, in grid units.
    pub dmin: i128,
    /// The data maximum, in grid units.
    pub dmax: i128,
    /// The number of labels aimed at.
    pub target: u32,
    /// How the labels must sit relative to the data.
    pub inclusion: LabelRange,
}

impl Grid {
    /// Width of the data range.
    pub open spec fn range(self) -> int {
        self.dmax - self.dmin
    }

    /// Square of the width of the data range.
    pub open spec fn r2(self) -> int {
        self.range() * self.range()
    }

    /// The problems that `search` accepts: a non-empty range within the caps
    /// and a target of at least two labels.
    pub open spec fn wf(self) -> bool {
        &&& -POS_CAP <= self.dmin
        &&& self.dmin < self.dmax
        &&& self.dmax <= POS_CAP
        &&& self.range() <= RANGE_CAP
        &&& 2 <= self.target <= TARGET_CAP
    }

    /// No labelling with more labels than this scores above minus two.
    pub open spec fn count_cap(self) -> int {
        7 * self.target - 6
    }
}

/// One labelling of the grid.
pub struct Candidate {
    /// The looseness: every `j`-th multiple of the unit is a label.
    pub j: int,
    /// The position of the nice number in the order of preference.
    pub qpos: int,
    /// The number of labels.
    pub k: int,
    /// The decimal exponent of the unit.
    pub t: int,
    /// The first label, in units.
    pub start: int,
}

/// The distance between adjacent start offsets: `nice(qpos) * 10^t`.
pub open spec fn unit_of(qpos: int, t: int) -> int {
    nice(qpos) * pow10(t as nat)
}

/// The distance between adjacent labels: `j * nice(qpos) * 10^t`.
pub open spec fn step_of(j: int, qpos: int, t: int) -> int {
    j * unit_of(qpos, t)
}

/// The distance between the first and the last of `k` labels.
pub open spec fn span_of(j: int, qpos: int, k: int, t: int) -> int {
    (k - 1) * step_of(j, qpos, t)
}

impl Candidate {
    /// The distance between adjacent start offsets.
    pub open spec fn unit(self) -> int {
        unit_of(self.qpos, self.t)
    }

    /// The distance between adjacent labels.
    pub open spec fn step(self) -> int {
        step_of(self.j, self.qpos, self.t)
    }

    /// The distance between the first label and the last.
    pub open spec fn span(self) -> int {
        span_of(self.j, self.qpos, self.k, self.t)
    }

    /// The first label.
    pub open spec fn lmin(self) -> int {
        self.start * self.unit()
    }

    /// The last label.
    pub open spec fn lmax(self) -> int {
        self.lmin() + self.span()
    }

    /// The index ranges that every candidate respects.
    pub open spec fn shaped(self) -> bool {
        &&& 1 <= self.j
        &&& 0 <= self.qpos < 6
        &&& 2 <= self.k
        &&& 0 <= self.t
    }

    /// Whether this candidate comes before `other` when the first `level`
    /// of the five indices are compared in order.
    pub open spec fn before(self, other: Candidate, level: int) -> bool {
        self.j < other.j || (self.j == other.j && level >= 2 && (self.qpos < other.qpos || (
        self.qpos == other.qpos && level >= 3 && (self.k < other.k || (self.k == other.k && level
            >= 4 && (self.t < other.t || (self.t == other.t && level >= 5 && self.start
            < other.start)))))))
    }

    /// Whether the search visits this candidate before `other`.
    pub open spec fn precedes(self, other: Candidate) -> bool {
        self.before(other, 5)
    }
}

impl Grid {
    /// Whether steps at exponent `t` are coarse enough to be tried: `k + 1`
    /// of them reach across the data.
    pub open spec fn fine(self, j: int, qpos: int, k: int, t: int) -> bool {
        (k + 1) * step_of(j, qpos, t) >= self.range()
    }

    /// The first start offset tried.
    pub open spec fn min_start(self, j: int, qpos: int, k: int, t: int) -> int {
        (floor_div(self.dmax as int, step_of(j, qpos, t)) - (k - 1)) * j
    }

    /// The last start offset tried.
    pub open spec fn max_start(self, j: int, qpos: int, t: int) -> int {
        ceil_div(self.dmin as int, step_of(j, qpos, t)) * j
    }

    /// Whether any start offset is tried at exponent `t`.
    pub open spec fn room(self, j: int, qpos: int, k: int, t: int) -> bool {
        self.min_start(j, qpos, k, t) <= self.max_start(j, qpos, t)
    }

    /// Whether the exponents are tried as far as that of `c`: every smaller
    /// exponent that is coarse enough had room for a start.
    pub open spec fn reachable(self, c: Candidate) -> bool {
        forall|u: int|
            0 <= u < c.t && #[trigger] self.fine(c.j, c.qpos, c.k, u) ==> self.room(
                c.j,
                c.qpos,
                c.k,
                u,
            )
    }

    /// The weighted score of `c`.
    pub open spec fn value_of(self, c: Candidate) -> Value {
        weighted(
            coverage_loss(self.dmin as int, self.dmax as int, c.lmin(), c.lmax()),
            simplicity_fifths(c.qpos, c.j, labels_zero(c.lmin(), c.lmax(), c.step())),
            density_ratio(
                c.step(),
                self.target as int,
                self.dmin as int,
                self.dmax as int,
                c.lmin(),
                c.lmax(),
            ),
        )
    }

    /// The labellings among which the search chooses: those it visits, that
    /// the inclusion policy admits, and that score above minus two.
    pub open spec fn is_candidate(self, c: Candidate) -> bool {
        &&& c.shaped()
        &&& self.fine(c.j, c.qpos, c.k, c.t)
        &&& self.reachable(c)
        &&& self.min_start(c.j, c.qpos, c.k, c.t) <= c.start <= self.max_start(c.j, c.qpos, c.t)
        &&& self.inclusion.admits(self.dmin as int, self.dmax as int, c.lmin(), c.lmax())
        &&& floor_value().lt(self.value_of(c), self.r2())
    }

    /// Whether `d` loses against `b`: it scores lower, or the same without
    /// being visited earlier.
    pub open spec fn settled(self, d: Candidate, b: Candidate) -> bool {
        self.value_of(d).lt(self.value_of(b), self.r2()) || (self.value_of(d).same(
            self.value_of(b),
            self.r2(),
        ) && (d == b || b.precedes(d)))
    }

    /// Whether `b` is the candidate of greatest score and, among those, the
    /// one visited first.
    pub open spec fn is_best(self, b: Candidate) -> bool {
        &&& self.is_candidate(b)
        &&& forall|d: Candidate| #[trigger] self.is_candidate(d) ==> self.settled(d, b)
    }

    /// An upper bound on the score of every candidate made with looseness
    /// `j` and the `qpos`-th nice number.
    pub open spec fn bound_q(self, j: int, qpos: int) -> Value {
        weighted(0, simplicity_fifths(qpos, j, true), (1, 1))
    }

    /// An upper bound on the score of every such candidate of `k` labels.
    pub open spec fn bound_k(self, j: int, qpos: int, k: int) -> Value {
        weighted(0, simplicity_fifths(qpos, j, true), density_ratio_min(k, self.target as int))
    }

    /// An upper bound on the score of every such candidate spanning `span`.
    pub open spec fn bound_z(self, j: int, qpos: int, k: int, span: int) -> Value {
        weighted(
            coverage_loss_min(self.dmin as int, self.dmax as int, span),
            simplicity_fifths(qpos, j, true),
            density_ratio_min(k, self.target as int),
        )
    }
}

/// Sizes of a well-shaped candidate.
pub proof fn lemma_shape(c: Candidate)
    requires
        c.shaped(),
    ensures
        c.unit() >= 10,
        c.unit() >= 10 * pow10(c.t as nat),
        c.step() >= c.unit(),
        c.step() == c.j * c.unit(),
        c.span() >= c.step(),
        c.lmax() - c.lmin() == (c.k - 1) * c.step(),
{
    lemma_pow10_grows(c.t as nat);
    let p = pow10(c.t as nat);
    let n = nice(c.qpos);
    assert(n * p >= 10 * p) by (nonlinear_arith)
        requires
            n >= 10,
            p >= 1,
    ;
    let u = c.unit();
    assert(c.j * u >= u) by (nonlinear_arith)
        requires
            c.j >= 1,
            u >= 0,
    ;
    let s = c.step();
    assert((c.k - 1) * s >= s) by (nonlinear_arith)
        requires
            c.k - 1 >= 1,
            s >= 0,
    ;
}

/// Steps grow with the exponent, tenfold for each unit of it.
pub proof fn lemma_step_monotone(j: int, qpos: int, t: int, u: int)
    requires
        1 <= j,
        0 <= qpos < 6,
        0 <= t <= u,
    ensures
        step_of(j, qpos, t) <= step_of(j, qpos, u),
        t < u ==> 10 * step_of(j, qpos, t) <= step_of(j, qpos, u),
        step_of(j, qpos, t + 1) == 10 * step_of(j, qpos, t),
        unit_of(qpos, t + 1) == 10 * unit_of(qpos, t),
        step_of(j, qpos, t) >= 10,
{
    lemma_pow10_monotone(t as nat, u as nat);
    lemma_pow10_grows(t as nat);
    let a = pow10(t as nat);
    let b = pow10(u as nat);
    let n = nice(qpos);
    assert(pow10((t + 1) as nat) == 10 * a);
    assert(j * (n * (10 * a)) == 10 * (j * (n * a))) by (nonlinear_arith);
    assert(n * (10 * a) == 10 * (n * a)) by (nonlinear_arith);
    assert(j * (n * a) <= j * (n * b)) by (nonlinear_arith)
        requires
            a <= b,
            j >= 1,
            n >= 10,
    ;
    if t < u {
        assert(10 * (j * (n * a)) <= j * (n * b)) by (nonlinear_arith)
            requires
                10 * a <= b,
                j >= 1,
                n >= 10,
        ;
    }
    assert(j * (n * a) >= 10) by (nonlinear_arith)
        requires
            a >= 1,
            j >= 1,
            n >= 10,
    ;
}

/// Spans grow with the exponent.
pub proof fn lemma_span_monotone(j: int, qpos: int, k: int, t: int, u: int)
    requires
        1 <= j,
        0 <= qpos < 6,
        2 <= k,
        0 <= t <= u,
    ensures
        span_of(j, qpos, k, t) <= span_of(j, qpos, k, u),
{
    lemma_step_monotone(j, qpos, t, u);
    let a = step_of(j, qpos, t);
    let b = step_of(j, qpos, u);
    assert((k - 1) * a <= (k - 1) * b) by (nonlinear_arith)
        requires
            a <= b,
            k - 1 >= 0,
    ;
}

/// Labels that overshoot the data by a given total lose at least the
/// coverage of labels that overshoot evenly.
pub proof fn lemma_coverage_floor(dmin: int, dmax: int, lmin: int, lmax: int)
    ensures
        coverage_loss(dmin, dmax, lmin, lmax) >= coverage_loss_min(dmin, dmax, lmax - lmin),
        coverage_loss(dmin, dmax, lmin, lmax) >= 0,
        coverage_loss_min(dmin, dmax, lmax - lmin) >= 0,
{
    let a = dmax - lmax;
    let b = dmin - lmin;
    assert(2 * (a * a + b * b) - (b - a) * (b - a) == (a + b) * (a + b)) by (nonlinear_arith);
    assert((a + b) * (a + b) >= 0) by (nonlinear_arith);
    assert((b - a) * (b - a) >= 0) by (nonlinear_arith);
    assert(b - a == (lmax - lmin) - (dmax - dmin));
}

/// The density ratio of `k` labels is a proper fraction and no smaller than
/// the least ratio for that count.
pub proof fn lemma_density_floor(
    step: int,
    m: int,
    k: int,
    dmin: int,
    dmax: int,
    lmin: int,
    lmax: int,
)
    requires
        m >= 2,
        k >= 2,
        step >= 1,
        lmax - lmin == (k - 1) * step,
        dmin < dmax,
    ensures
        ({
            let g = density_ratio(step, m, dmin, dmax, lmin, lmax);
            let b = density_ratio_min(k, m);
            &&& 1 <= g.1 <= g.0
            &&& 1 <= b.1 <= b.0
            &&& g.0 * b.1 >= b.0 * g.1
        }),
{
    let g = density_ratio(step, m, dmin, dmax, lmin, lmax);
    let b = density_ratio_min(k, m);
    let wanted = (m - 1) * step;
    let extent = crate::score::joint_extent(dmin, dmax, lmin, lmax);
    assert(wanted >= 1) by (nonlinear_arith)
        requires
            wanted == (m - 1) * step,
            m - 1 >= 1,
            step >= 1,
    ;
    assert((k - 1) * step >= 1) by (nonlinear_arith)
        requires
            k - 1 >= 1,
            step >= 1,
    ;
    assert(extent >= lmax - lmin);
    assert(extent >= dmax - dmin);
    let hi = g.0;
    let lo = g.1;
    if k >= m {
        assert(hi * (m - 1) >= ((k - 1) * step) * (m - 1)) by (nonlinear_arith)
            requires
                hi >= (k - 1) * step,
                m - 1 >= 0,
        ;
        assert(((k - 1) * step) * (m - 1) == (k - 1) * wanted) by (nonlinear_arith)
            requires
                wanted == (m - 1) * step,
        ;
        assert((k - 1) * wanted >= (k - 1) * lo) by (nonlinear_arith)
            requires
                wanted >= lo,
                k - 1 >= 0,
        ;
    } else {
        assert(hi * (m - 1) >= (m - 1) * lo) by (nonlinear_arith)
            requires
                hi >= lo,
                m - 1 >= 0,
        ;
    }
}

/// The score of a candidate is a proper value and lies at or below each of
/// the three bounds of its family.
pub proof fn lemma_bounded(g: Grid, c: Candidate)
    requires
        g.wf(),
        c.shaped(),
    ensures
        g.value_of(c).proper(),
        g.bound_z(c.j, c.qpos, c.k, c.span()).proper(),
        g.bound_k(c.j, c.qpos, c.k).proper(),
        g.bound_q(c.j, c.qpos).proper(),
        g.value_of(c).le(g.bound_z(c.j, c.qpos, c.k, c.span()), g.r2()),
        g.value_of(c).le(g.bound_k(c.j, c.qpos, c.k), g.r2()),
        g.value_of(c).le(g.bound_q(c.j, c.qpos), g.r2()),
{
    lemma_shape(c);
    let r2 = g.r2();
    assert(r2 >= 0) by (nonlinear_arith)
        requires
            r2 == g.range() * g.range(),
    ;
    lemma_coverage_floor(g.dmin as int, g.dmax as int, c.lmin(), c.lmax());
    lemma_density_floor(
        c.step(),
        g.target as int,
        c.k,
        g.dmin as int,
        g.dmax as int,
        c.lmin(),
        c.lmax(),
    );
    let v = g.value_of(c);
    let bz = g.bound_z(c.j, c.qpos, c.k, c.span());
    let bk = g.bound_k(c.j, c.qpos, c.k);
    let bq = g.bound_q(c.j, c.qpos);
    assert(c.lmax() - c.lmin() == c.span());
    lemma_score_dominated(v, bz, r2);
    lemma_score_dominated(bz, bk, r2);
    assert(bk.hi * 1 >= 1 * bk.lo);
    lemma_score_dominated(bk, bq, r2);
    lemma_score_chain(v, bz, bk, r2);
    lemma_score_chain(v, bk, bq, r2);
}

/// The bound `bound_q` does not grow along the order of the search.
pub proof fn lemma_bound_q_monotone(g: Grid, j: int, qpos: int, j2: int, qpos2: int)
    requires
        g.wf(),
        0 <= qpos < 6,
        0 <= qpos2 < 6,
        j < j2 || (j == j2 && qpos <= qpos2),
    ensures
        g.bound_q(j2, qpos2).le(g.bound_q(j, qpos), g.r2()),
{
    let r2 = g.r2();
    assert(r2 >= 0) by (nonlinear_arith)
        requires
            r2 == g.range() * g.range(),
    ;
    lemma_score_dominated(g.bound_q(j2, qpos2), g.bound_q(j, qpos), r2);
}

/// The bound `bound_k` does not grow with the label count.
pub proof fn lemma_bound_k_monotone(g: Grid, j: int, qpos: int, k: int, k2: int)
    requires
        g.wf(),
        2 <= k <= k2,
    ensures
        g.bound_k(j, qpos, k2).le(g.bound_k(j, qpos, k), g.r2()),
        g.bound_k(j, qpos, k).proper(),
        g.bound_k(j, qpos, k2).proper(),
{
    let r2 = g.r2();
    assert(r2 >= 0) by (nonlinear_arith)
        requires
            r2 == g.range() * g.range(),
    ;
    let a = g.bound_k(j, qpos, k2);
    let b = g.bound_k(j, qpos, k);
    assert(a.hi * b.lo >= b.hi * a.lo) by (nonlinear_arith)
        requires
            a.hi >= b.hi,
            a.lo == b.lo,
            b.lo >= 0,
    ;
    lemma_score_dominated(a, b, r2);
}

/// The bound `bound_z` does not grow with the span.
pub proof fn lemma_bound_z_monotone(g: Grid, j: int, qpos: int, k: int, span: int, span2: int)
    requires
        g.wf(),
        2 <= k,
        0 <= span <= span2,
    ensures
        g.bound_z(j, qpos, k, span2).le(g.bound_z(j, qpos, k, span), g.r2()),
        g.bound_z(j, qpos, k, span).proper(),
        g.bound_z(j, qpos, k, span2).proper(),
{
    let r2 = g.r2();
    assert(r2 >= 0) by (nonlinear_arith)
        requires
            r2 == g.range() * g.range(),
    ;
    let a = g.bound_z(j, qpos, k, span2);
    let b = g.bound_z(j, qpos, k, span);
    let r = g.range();
    assert(a.cover >= b.cover && b.cover >= 0) by {
        let e = span - r;
        let e2 = span2 - r;
        assert(e * e >= 0) by (nonlinear_arith);
        assert(e2 * e2 >= 0) by (nonlinear_arith);
        if span > r {
            assert(e2 * e2 >= e * e) by (nonlinear_arith)
                requires
                    0 <= e <= e2,
            ;
        }
    }
    assert(a.hi * b.lo >= b.hi * a.lo);
    lemma_score_dominated(a, b, r2);
}

/// A value lies below minus two as soon as its coverage term alone, or its
/// density term alone, outweighs everything that could be gained.
pub proof fn lemma_below_floor(v: Value, r2: int)
    requires
        r2 > 0,
        v.proper(),
        (v.whole + 30) * r2 < v.cover || (v.whole + 40) * v.lo < 10 * v.hi,
    ensures
        v.lt(floor_value(), r2),
{
    let f = floor_value();
    let w = v.whole;
    let c = v.cover;
    let hi = v.hi;
    let lo = v.lo;
    let gap = v.key(r2) + 40 * r2 * lo;
    if (w + 30) * r2 < c {
        assert(gap == ((w + 30) * r2 - c) * lo + 10 * r2 * (lo - hi)) by (nonlinear_arith)
            requires
                gap == (w * r2 - c) * lo - 10 * r2 * hi + 40 * r2 * lo,
        ;
        assert(((w + 30) * r2 - c) * lo < 0) by (nonlinear_arith)
            requires
                (w + 30) * r2 - c < 0,
                lo >= 1,
        ;
        assert(10 * r2 * (lo - hi) <= 0) by (nonlinear_arith)
            requires
                r2 > 0,
                lo <= hi,
        ;
    } else {
        assert(gap == r2 * ((w + 40) * lo - 10 * hi) - c * lo) by (nonlinear_arith)
            requires
                gap == (w * r2 - c) * lo - 10 * r2 * hi + 40 * r2 * lo,
        ;
        assert(r2 * ((w + 40) * lo - 10 * hi) < 0) by (nonlinear_arith)
            requires
                r2 > 0,
                (w + 40) * lo - 10 * hi < 0,
        ;
        assert(c * lo >= 0) by (nonlinear_arith)
            requires
                c >= 0,
                lo >= 1,
        ;
    }
    assert(gap < 0);
    assert(f.key(r2) * lo == -(40 * r2 * lo)) by (nonlinear_arith)
        requires
            f.key(r2) == (-30 * r2 - 0) * 1 - 10 * r2 * 1,
    ;
    assert(v.key(r2) * f.lo == v.key(r2));
}

/// No candidate is looser than `LOOSENESS_CAP`.
pub proof fn lemma_reject_loose(g: Grid, d: Candidate)
    requires
        g.wf(),
        d.shaped(),
        d.j > LOOSENESS_CAP,
    ensures
        g.value_of(d).lt(floor_value(), g.r2()),
{
    lemma_bounded(g, d);
    let r2 = g.r2();
    let r = g.range();
    assert(r2 > 0) by (nonlinear_arith)
        requires
            r2 == r * r,
            r >= 1,
    ;
    let b = g.bound_q(d.j, d.qpos);
    assert((b.whole + 30) * r2 < 0) by (nonlinear_arith)
        requires
            b.whole + 30 < 0,
            r2 > 0,
    ;
    lemma_below_floor(b, r2);
    lemma_score_chain(g.value_of(d), b, floor_value(), r2);
}

/// No candidate has more labels than `count_cap`.
pub proof fn lemma_reject_many(g: Grid, d: Candidate)
    requires
        g.wf(),
        d.shaped(),
        d.k > g.count_cap(),
    ensures
        g.value_of(d).lt(floor_value(), g.r2()),
{
    lemma_bounded(g, d);
    let r2 = g.r2();
    let r = g.range();
    assert(r2 > 0) by (nonlinear_arith)
        requires
            r2 == r * r,
            r >= 1,
    ;
    let b = g.bound_k(d.j, d.qpos, d.k);
    let m = g.target as int;
    assert((b.whole + 40) * (m - 1) <= 70 * (m - 1)) by (nonlinear_arith)
        requires
            b.whole + 40 <= 70,
            m - 1 >= 0,
    ;
    lemma_below_floor(b, r2);
    lemma_score_chain(g.value_of(d), b, floor_value(), r2);
}

/// No candidate spans twice the data range or more.
pub proof fn lemma_reject_wide(g: Grid, d: Candidate)
    requires
        g.wf(),
        d.shaped(),
        d.span() >= 2 * g.range(),
    ensures
        g.value_of(d).lt(floor_value(), g.r2()),
{
    lemma_bounded(g, d);
    let r2 = g.r2();
    let r = g.range();
    assert(r2 > 0) by (nonlinear_arith)
        requires
            r2 == r * r,
            r >= 1,
    ;
    let b = g.bound_z(d.j, d.qpos, d.k, d.span());
    let e = d.span() - r;
    assert(e * e >= r * r) by (nonlinear_arith)
        requires
            e >= r,
            r >= 1,
    ;
    assert((b.whole + 30) * r2 <= 60 * r2) by (nonlinear_arith)
        requires
            b.whole + 30 <= 60,
            r2 > 0,
    ;
    lemma_below_floor(b, r2);
    lemma_score_chain(g.value_of(d), b, floor_value(), r2);
}

/// Where the labels of a candidate lie, given that its start offset is one
/// of those tried.
pub proof fn lemma_start_window(g: Grid, c: Candidate)
    requires
        g.wf(),
        c.shaped(),
        g.min_start(c.j, c.qpos, c.k, c.t) <= c.start <= g.max_start(c.j, c.qpos, c.t),
    ensures
        g.dmax - c.step() - c.span() < c.lmin() < g.dmin + c.step(),
        g.min_start(c.j, c.qpos, c.k, c.t) * c.unit() == floor_div(g.dmax as int, c.step())
            * c.step() - c.span(),
        g.max_start(c.j, c.qpos, c.t) * c.unit() == ceil_div(g.dmin as int, c.step()) * c.step(),
{
    lemma_shape(c);
    let u = c.unit();
    let s = c.step();
    let f = floor_div(g.dmax as int, s);
    let e = ceil_div(g.dmin as int, s);
    crate::numeric::lemma_floor_div_bounds(g.dmax as int, s);
    crate::numeric::lemma_ceil_div_bounds(g.dmin as int, s);
    let lo = g.min_start(c.j, c.qpos, c.k, c.t);
    let hi = g.max_start(c.j, c.qpos, c.t);
    assert(lo * u == f * s - (c.k - 1) * s) by (nonlinear_arith)
        requires
            lo == (f - (c.k - 1)) * c.j,
            s == c.j * u,
    ;
    assert(hi * u == e * s) by (nonlinear_arith)
        requires
            hi == e * c.j,
            s == c.j * u,
    ;
    assert(lo * u <= c.start * u <= hi * u) by (nonlinear_arith)
        requires
            lo <= c.start <= hi,
            u >= 0,
    ;
}

} // verus!
