//! The pruned search for the best labelling of a grid.
//!
//! The search visits candidates in the order of looseness, nice number,
//! label count, exponent and start offset.  It keeps the best one found and
//! skips every family whose upper bound lies below it, so that what it
//! returns is the best of all candidates, visited or not.
//!
//! Every loop is bounded: the looseness by `LOOSENESS_CAP`, the nice numbers
//! by their count, the label count by `Grid::count_cap`, the exponents by
//! spans below twice the data range, and the starts by `Grid::min_start` and
//! `Grid::max_start`.  Beyond these bounds no labelling scores above minus
//! two, so none is lost.

use crate::candidate::{
    lemma_bound_k_monotone, lemma_bound_q_monotone, lemma_bound_z_monotone, lemma_bounded,
    lemma_reject_loose, lemma_reject_many, lemma_reject_wide, lemma_shape, lemma_span_monotone,
    lemma_start_window, lemma_step_monotone, span_of, step_of, unit_of, Candidate, Grid,
    LOOSENESS_CAP,
};
use crate::numeric::{div_ceil, div_floor, lemma_div_size, lemma_pow10_grows, pow10};
use crate::score::{
    coverage, coverage_max, density, density_max, floor_value, lemma_product_bound,
    lemma_score_chain, nice_tenths, score, simplicity, simplicity_max, Ratio, Score, Value,
    NICE_COUNT,
};
use vstd::prelude::*;

verus! {

/// A candidate as the search reports it: its five indices, its first label,
/// its step and its score.
#[derive(Clone, Copy, Debug)]
pub struct Found {
    pub j: u64,
    pub qpos: u64,
    pub k: u32,
    pub t: u64,
    pub start: i128,
    pub lmin: i128,
    pub step: i128,
    pub score: Score,
}

impl Found {
    /// The candidate that this record names.
    pub open spec fn candidate(self) -> Candidate {
        Candidate {
            j: self.j as int,
            qpos: self.qpos as int,
            k: self.k as int,
            t: self.t as int,
            start: self.start as int,
        }
    }

    /// Whether the record names a candidate of `g` and describes it truly.
    pub open spec fn matches(self, g: Grid) -> bool {
        &&& g.is_candidate(self.candidate())
        &&& self.lmin == self.candidate().lmin()
        &&& self.step == self.candidate().step()
        &&& self.score@ == g.value_of(self.candidate())
        &&& self.score.fits()
    }
}

/// The score to beat: that of the best candidate so far, or minus two.
pub open spec fn best_value(best: Option<Found>) -> Value {
    match best {
        Some(f) => f.score@,
        None => floor_value(),
    }
}

/// Whether `best` is the best of the candidates that come before `cur` at
/// the given level.
pub open spec fn done(g: Grid, best: Option<Found>, cur: Candidate, level: int) -> bool {
    &&& best matches Some(f) ==> (f.matches(g) && f.candidate().before(cur, level))
    &&& forall|d: Candidate| #[trigger]
        g.is_candidate(d) && d.before(cur, level) ==> best is Some && g.settled(
            d,
            best.unwrap().candidate(),
        )
}

/// Whether `best` is the best of all candidates.
pub open spec fn complete(g: Grid, best: Option<Found>) -> bool {
    match best {
        Some(f) => f.matches(g) && g.is_best(f.candidate()),
        None => forall|d: Candidate| !#[trigger] g.is_candidate(d),
    }
}

/// A candidate whose score lies at or below a bound that the best so far
/// exceeds cannot change the outcome.
proof fn lemma_skip(g: Grid, best: Option<Found>, d: Candidate, bound: Value)
    requires
        g.wf(),
        best matches Some(f) ==> f.matches(g),
        g.is_candidate(d),
        bound.lo > 0,
        g.value_of(d).le(bound, g.r2()),
        bound.lt(best_value(best), g.r2()),
    ensures
        best is Some,
        g.settled(d, best.unwrap().candidate()),
{
    lemma_bounded(g, d);
    lemma_score_chain(g.value_of(d), bound, best_value(best), g.r2());
}

/// What visiting one candidate does to the record of the best.
proof fn lemma_visit(g: Grid, best: Option<Found>, next: Option<Found>, c: Candidate, take: bool)
    requires
        g.wf(),
        done(g, best, c, 5),
        c.shaped(),
        g.fine(c.j, c.qpos, c.k, c.t),
        g.reachable(c),
        g.min_start(c.j, c.qpos, c.k, c.t) <= c.start <= g.max_start(c.j, c.qpos, c.t),
        take == (g.inclusion.admits(g.dmin as int, g.dmax as int, c.lmin(), c.lmax())
            && best_value(best).lt(g.value_of(c), g.r2())),
        take ==> (next matches Some(f) && f.candidate() == c && f.lmin == c.lmin() && f.step
            == c.step() && f.score@ == g.value_of(c) && f.score.fits()),
        !take ==> next == best,
    ensures
        done(g, next, Candidate { start: c.start + 1, ..c }, 5),
{
    let r2 = g.r2();
    let after = Candidate { start: c.start + 1, ..c };
    lemma_bounded(g, c);
    if take {
        if best is Some {
            let b = best.unwrap().candidate();
            lemma_bounded(g, b);
            lemma_score_chain(floor_value(), g.value_of(b), g.value_of(c), r2);
        }
        assert(g.is_candidate(c));
        assert forall|d: Candidate| #[trigger]
            g.is_candidate(d) && d.before(after, 5) implies g.settled(d, c) by {
            if d.before(c, 5) {
                let b = best.unwrap().candidate();
                lemma_bounded(g, d);
                lemma_bounded(g, b);
                lemma_score_chain(g.value_of(d), g.value_of(b), g.value_of(c), r2);
            } else {
                assert(d == c);
            }
        }
    } else {
        assert forall|d: Candidate| #[trigger]
            g.is_candidate(d) && d.before(after, 5) implies best is Some && g.settled(
            d,
            best.unwrap().candidate(),
        ) by {
            if !d.before(c, 5) {
                assert(d == c);
            }
        }
    }
}

/// The numbers that describe a visited candidate are small enough for the
/// machine arithmetic of the scores.
pub proof fn lemma_sizes(g: Grid, c: Candidate)
    requires
        g.wf(),
        c.shaped(),
        c.span() < 2 * g.range(),
        g.min_start(c.j, c.qpos, c.k, c.t) <= c.start <= g.max_start(c.j, c.qpos, c.t),
    ensures
        g.dmax - 4 * g.range() < c.lmin() < g.dmin + 2 * g.range(),
        g.dmax - 2 * g.range() < c.lmax() < g.dmin + 4 * g.range(),
        10 <= c.unit() <= c.step() <= c.span(),
        crate::score::coverage_loss(g.dmin as int, g.dmax as int, c.lmin(), c.lmax())
            < 640_000_000_000_000_000,
        1 <= g.value_of(c).lo <= 700_000_000,
        g.value_of(c).lo <= g.value_of(c).hi <= 200_000_000_000,
        0 <= g.value_of(c).cover,
{
    lemma_shape(c);
    lemma_start_window(g, c);
    lemma_bounded(g, c);
    let r = g.range();
    let a = g.dmax - c.lmax();
    let b = g.dmin - c.lmin();
    assert(a * a < 160_000_000_000_000_000) by (nonlinear_arith)
        requires
            -400_000_000 < a < 400_000_000,
    ;
    assert(b * b < 160_000_000_000_000_000) by (nonlinear_arith)
        requires
            -400_000_000 < b < 400_000_000,
    ;
    let m = g.target as int;
    let s = c.step();
    assert((m - 1) * s <= 999 * 200_000_000) by (nonlinear_arith)
        requires
            0 <= m - 1 <= 999,
            0 <= s <= 200_000_000,
    ;
}

/// Visits every start offset of one exponent.
fn scan_starts(
    g: &Grid,
    j: u64,
    qpos: u64,
    k: u32,
    t: u64,
    unit: i128,
    min_start: i128,
    max_start: i128,
    best: Option<Found>,
) -> (out: Option<Found>)
    requires
        g.wf(),
        1 <= j <= LOOSENESS_CAP,
        qpos < NICE_COUNT,
        2 <= k <= g.count_cap(),
        unit == unit_of(qpos as int, t as int),
        span_of(j as int, qpos as int, k as int, t as int) < 2 * g.range(),
        g.fine(j as int, qpos as int, k as int, t as int),
        forall|u: int|
            0 <= u < t && #[trigger] g.fine(j as int, qpos as int, k as int, u) ==> g.room(
                j as int,
                qpos as int,
                k as int,
                u,
            ),
        min_start == g.min_start(j as int, qpos as int, k as int, t as int),
        max_start == g.max_start(j as int, qpos as int, t as int),
        min_start <= max_start <= 20_000_000_000_000_000_000,
        done(
            *g,
            best,
            Candidate { j: j as int, qpos: qpos as int, k: k as int, t: t as int, start: 0 },
            4,
        ),
    ensures
        done(
            *g,
            out,
            Candidate { j: j as int, qpos: qpos as int, k: k as int, t: t + 1, start: 0 },
            4,
        ),
{
    let ghost first = Candidate {
        j: j as int,
        qpos: qpos as int,
        k: k as int,
        t: t as int,
        start: min_start as int,
    };
    let ghost last = Candidate { start: max_start as int, ..first };
    proof {
        lemma_sizes(*g, first);
        lemma_sizes(*g, last);
        lemma_start_window(*g, first);
        lemma_product_bound(g.range(), g.range(), 100_000_000, 100_000_000);
        assert(g.range() * g.range() >= 1) by (nonlinear_arith)
            requires
                g.range() >= 1,
        ;
    }
    let range: i128 = g.dmax - g.dmin;
    let r2: i128 = range * range;
    let step: i128 = (j as i128) * unit;
    let span: i128 = ((k - 1) as i128) * step;
    let mut best = best;
    let mut start: i128 = min_start;
    let mut lmin: i128 = min_start * unit;
    while start <= max_start
        invariant
            g.wf(),
            1 <= j <= LOOSENESS_CAP,
            qpos < NICE_COUNT,
            2 <= k <= g.count_cap(),
            unit == unit_of(qpos as int, t as int),
            step == step_of(j as int, qpos as int, t as int),
            span == span_of(j as int, qpos as int, k as int, t as int),
            span < 2 * g.range(),
            10 <= unit <= step <= span,
            range == g.range(),
            r2 == g.r2(),
            1 <= r2 <= 10_000_000_000_000_000,
            g.fine(j as int, qpos as int, k as int, t as int),
            forall|u: int|
                0 <= u < t && #[trigger] g.fine(j as int, qpos as int, k as int, u) ==> g.room(
                    j as int,
                    qpos as int,
                    k as int,
                    u,
                ),
            min_start == g.min_start(j as int, qpos as int, k as int, t as int),
            max_start == g.max_start(j as int, qpos as int, t as int),
            min_start <= start <= max_start + 1,
            max_start <= 20_000_000_000_000_000_000,
            max_start * unit < g.dmin + 2 * g.range(),
            lmin == start * unit,
            done(
                *g,
                best,
                Candidate {
                    j: j as int,
                    qpos: qpos as int,
                    k: k as int,
                    t: t as int,
                    start: start as int,
                },
                5,
            ),
        decreases max_start + 1 - start,
    {
        let ghost c = Candidate {
            j: j as int,
            qpos: qpos as int,
            k: k as int,
            t: t as int,
            start: start as int,
        };
        proof {
            lemma_sizes(*g, c);
        }
        let lmax: i128 = lmin + span;
        let c_loss: i128 = coverage(g.dmin, g.dmax, lmin, lmax);
        let s: i64 = simplicity(qpos, j, lmin, lmax, step);
        let dens: Ratio = density(step, g.target, g.dmin, g.dmax, lmin, lmax);
        let total: Score = score(c_loss, s, dens);
        assert(total@ == g.value_of(c));
        assert(total.fits());
        let bar: Score = match best {
            Some(f) => f.score,
            None => Score::floor(),
        };
        let take: bool = g.inclusion.accepts(g.dmin, g.dmax, lmin, lmax) && total.exceeds(
            &bar,
            r2,
        );
        let ghost before = best;
        if take {
            best = Some(Found { j, qpos, k, t, start, lmin, step, score: total });
        }
        proof {
            lemma_visit(*g, before, best, c, take);
            assert((start + 1) * unit == start * unit + unit) by (nonlinear_arith);
        }
        start = start + 1;
        lmin = lmin + unit;
    }
    best
}

/// The cursor at the start of what the search visits for the given indices.
pub open spec fn cursor(j: int, qpos: int, k: int, t: int) -> Candidate {
    Candidate { j, qpos, k, t, start: 0 }
}

/// Exponents too fine to be tried hold no candidates.
proof fn lemma_enter_steps(g: Grid, best: Option<Found>, j: int, qpos: int, k: int, t: int)
    requires
        done(g, best, cursor(j, qpos, k, 0), 3),
        forall|u: int| 0 <= u < t ==> !#[trigger] g.fine(j, qpos, k, u),
    ensures
        done(g, best, cursor(j, qpos, k, t), 4),
{
    assert forall|d: Candidate| #[trigger]
        g.is_candidate(d) && d.before(cursor(j, qpos, k, t), 4) implies d.before(
        cursor(j, qpos, k, 0),
        3,
    ) by {
        if !d.before(cursor(j, qpos, k, 0), 3) {
            assert(g.fine(j, qpos, k, d.t));
        }
    }
}

/// Once the bound of an exponent lies below the best, so do the scores of
/// all candidates of that and of every larger exponent.
proof fn lemma_prune_steps(
    g: Grid,
    best: Option<Found>,
    j: int,
    qpos: int,
    k: int,
    t: int,
    bound: Value,
)
    requires
        g.wf(),
        1 <= j,
        0 <= qpos < 6,
        2 <= k,
        0 <= t,
        done(g, best, cursor(j, qpos, k, t), 4),
        bound == g.bound_z(j, qpos, k, span_of(j, qpos, k, t)),
        bound.lt(best_value(best), g.r2()),
    ensures
        done(g, best, cursor(j, qpos, k + 1, 0), 3),
{
    let r2 = g.r2();
    assert forall|d: Candidate| #[trigger]
        g.is_candidate(d) && d.before(cursor(j, qpos, k + 1, 0), 3) implies best is Some
        && g.settled(d, best.unwrap().candidate()) by {
        if !d.before(cursor(j, qpos, k, t), 4) {
            lemma_bounded(g, d);
            lemma_span_monotone(j, qpos, k, t, d.t);
            lemma_span_monotone(j, qpos, k, 0, t);
            lemma_shape(cursor(j, qpos, k, 0));
            lemma_bound_z_monotone(g, j, qpos, k, span_of(j, qpos, k, t), d.span());
            lemma_score_chain(g.value_of(d), g.bound_z(j, qpos, k, d.span()), bound, r2);
            lemma_skip(g, best, d, bound);
        }
    }
}

/// An exponent that is coarse enough but leaves no room for a start ends
/// the count it belongs to.
proof fn lemma_stop_no_room(g: Grid, best: Option<Found>, j: int, qpos: int, k: int, t: int)
    requires
        g.wf(),
        0 <= t,
        done(g, best, cursor(j, qpos, k, t), 4),
        g.fine(j, qpos, k, t),
        !g.room(j, qpos, k, t),
    ensures
        done(g, best, cursor(j, qpos, k + 1, 0), 3),
{
    assert forall|d: Candidate| #[trigger]
        g.is_candidate(d) && d.before(cursor(j, qpos, k + 1, 0), 3) implies d.before(
        cursor(j, qpos, k, t),
        4,
    ) by {
        if !d.before(cursor(j, qpos, k, t), 4) {
            if d.t > t {
                assert(g.fine(d.j, d.qpos, d.k, t));
            }
        }
    }
}

/// An exponent at which the labels span twice the data or more ends the
/// count it belongs to.
proof fn lemma_stop_wide(g: Grid, best: Option<Found>, j: int, qpos: int, k: int, t: int)
    requires
        g.wf(),
        1 <= j,
        0 <= qpos < 6,
        2 <= k,
        0 <= t,
        done(g, best, cursor(j, qpos, k, t), 4),
        span_of(j, qpos, k, t) >= 2 * g.range(),
    ensures
        done(g, best, cursor(j, qpos, k + 1, 0), 3),
{
    assert forall|d: Candidate| #[trigger]
        g.is_candidate(d) && d.before(cursor(j, qpos, k + 1, 0), 3) implies d.before(
        cursor(j, qpos, k, t),
        4,
    ) by {
        if !d.before(cursor(j, qpos, k, t), 4) {
            lemma_span_monotone(j, qpos, k, t, d.t);
            lemma_reject_wide(g, d);
        }
    }
}

/// What holds of the next exponent once one exponent has been visited.
proof fn lemma_next_step(g: Grid, j: int, qpos: int, k: int, t: int)
    requires
        g.wf(),
        1 <= j,
        0 <= qpos < 6,
        2 <= k,
        0 <= t,
        g.fine(j, qpos, k, t),
    ensures
        g.fine(j, qpos, k, t + 1),
        unit_of(qpos, t + 1) == 10 * unit_of(qpos, t),
        span_of(j, qpos, k, t + 1) == 10 * span_of(j, qpos, k, t),
        t + 1 < unit_of(qpos, t + 1),
{
    lemma_step_monotone(j, qpos, t, t + 1);
    let s = step_of(j, qpos, t);
    assert((k + 1) * (10 * s) >= (k + 1) * s) by (nonlinear_arith)
        requires
            k >= 0,
            s >= 0,
    ;
    assert((k - 1) * (10 * s) == 10 * ((k - 1) * s)) by (nonlinear_arith);
    lemma_shape(cursor(j, qpos, k, t + 1));
    lemma_pow10_grows((t + 1) as nat);
}

/// Visits every exponent of one label count.
fn scan_steps(g: &Grid, j: u64, qpos: u64, k: u32, best: Option<Found>) -> (out: Option<Found>)
    requires
        g.wf(),
        1 <= j <= LOOSENESS_CAP,
        qpos < NICE_COUNT,
        2 <= k <= g.count_cap(),
        done(*g, best, cursor(j as int, qpos as int, k as int, 0), 3),
    ensures
        done(*g, out, cursor(j as int, qpos as int, k + 1, 0), 3),
{
    let range: i128 = g.dmax - g.dmin;
    proof {
        lemma_product_bound(g.range(), g.range(), 100_000_000, 100_000_000);
        assert(g.range() * g.range() >= 1) by (nonlinear_arith)
            requires
                g.range() >= 1,
        ;
    }
    let r2: i128 = range * range;
    proof {
        lemma_product_bound(k + 1, j as int, 7000, 13);
    }
    let reach: i128 = ((k + 1) as i128) * (j as i128);
    let mut t: u64 = 0;
    let mut unit: i128 = nice_tenths(qpos);
    proof {
        assert(pow10(0) == 1);
        assert(unit * 1 == unit);
        lemma_product_bound(reach as int, unit as int, 100_000, 50);
        assert(reach >= 1) by (nonlinear_arith)
            requires
                reach == (k + 1) * j,
                k + 1 >= 1,
                j >= 1,
        ;
    }
    let mut tried: i128 = reach * unit;
    while tried < range
        invariant
            tried == reach * unit,
            g.wf(),
            1 <= j <= LOOSENESS_CAP,
            qpos < NICE_COUNT,
            2 <= k <= g.count_cap(),
            range == g.range(),
            reach == (k + 1) * j,
            1 <= reach <= 100_000,
            unit == unit_of(qpos as int, t as int),
            10 <= unit <= 1_000_000_000,
            t < unit,
            forall|u: int| 0 <= u < t ==> !#[trigger] g.fine(j as int, qpos as int, k as int, u),
        decreases
                (if tried < range {
                    range - tried
                } else {
                    0
                }),
    {
        proof {
            assert((k + 1) * step_of(j as int, qpos as int, t as int) == reach * unit)
                by (nonlinear_arith)
                requires
                    reach == (k + 1) * j,
                    step_of(j as int, qpos as int, t as int) == j * unit,
            ;
            assert(unit < range) by (nonlinear_arith)
                requires
                    reach * unit < range,
                    reach >= 1,
                    unit >= 0,
            ;
            assert(reach * unit >= 1) by (nonlinear_arith)
                requires
                    reach >= 1,
                    unit >= 1,
            ;
            lemma_step_monotone(j as int, qpos as int, t as int, t as int);
            lemma_shape(cursor(j as int, qpos as int, k as int, t + 1));
            lemma_pow10_grows((t + 1) as nat);
            assert(reach * (unit * 10) > reach * unit) by (nonlinear_arith)
                requires
                    reach >= 1,
                    unit >= 1,
            ;
            assert(reach * (unit * 10) == (reach * unit) * 10) by (nonlinear_arith);
        }
        unit = unit * 10;
        t = t + 1;
        tried = tried * 10;
    }
    let sm: i64 = simplicity_max(qpos, j);
    let dm: Ratio = density_max(k, g.target);
    let mut best = best;
    let mut open: bool = true;
    proof {
        lemma_product_bound(j as int, unit as int, 13, 1_000_000_000);
        lemma_product_bound((k - 1) as int, j * unit, 7000, 13_000_000_000);
        assert((k + 1) * step_of(j as int, qpos as int, t as int) == reach * unit)
            by (nonlinear_arith)
            requires
                reach == (k + 1) * j,
                step_of(j as int, qpos as int, t as int) == j * unit,
        ;
        lemma_enter_steps(*g, best, j as int, qpos as int, k as int, t as int);
        lemma_shape(cursor(j as int, qpos as int, k as int, t as int));
    }
    let mut span: i128 = ((k - 1) as i128) * ((j as i128) * unit);
    while open && span < 2 * range
        invariant
            g.wf(),
            1 <= j <= LOOSENESS_CAP,
            qpos < NICE_COUNT,
            2 <= k <= g.count_cap(),
            range == g.range(),
            r2 == g.r2(),
            1 <= r2 <= 10_000_000_000_000_000,
            sm == crate::score::simplicity_fifths(qpos as int, j as int, true),
            (dm.hi as int, dm.lo as int) == crate::score::density_ratio_min(
                k as int,
                g.target as int,
            ),
            unit == unit_of(qpos as int, t as int),
            span == span_of(j as int, qpos as int, k as int, t as int),
            10 <= unit <= span,
            t < unit,
            open ==> g.fine(j as int, qpos as int, k as int, t as int),
            open ==> forall|u: int|
                0 <= u < t && #[trigger] g.fine(j as int, qpos as int, k as int, u) ==> g.room(
                    j as int,
                    qpos as int,
                    k as int,
                    u,
                ),
            open ==> done(*g, best, cursor(j as int, qpos as int, k as int, t as int), 4),
            !open ==> done(*g, best, cursor(j as int, qpos as int, k + 1, 0), 3),
        decreases
                (if !open {
                    0
                } else if span < 2 * range {
                    2 * range - span + 1
                } else {
                    1
                }),
    {
        proof {
            lemma_shape(cursor(j as int, qpos as int, k as int, t as int));
        }
        let step: i128 = (j as i128) * unit;
        let cm: i128 = coverage_max(g.dmin, g.dmax, span);
        proof {
            let e = span - range;
            if span > range {
                assert(e * e <= 10_000_000_000_000_000) by (nonlinear_arith)
                    requires
                        0 <= e <= 100_000_000,
                ;
            }
        }
        let bound: Score = score(cm, sm, dm);
        let bar: Score = match best {
            Some(f) => f.score,
            None => Score::floor(),
        };
        if bar.exceeds(&bound, r2) {
            proof {
                lemma_prune_steps(*g, best, j as int, qpos as int, k as int, t as int, bound@);
            }
            open = false;
        } else {
            proof {
                lemma_div_size(g.dmax as int, step as int, 999_999_999_000_000_000);
                lemma_div_size(g.dmin as int, step as int, 999_999_999_000_000_000);
            }
            let floor: i128 = div_floor(g.dmax, step);
            let ceil: i128 = div_ceil(g.dmin, step);
            proof {
                lemma_product_bound(
                    floor - (k - 1),
                    j as int,
                    1_000_000_000_000_000_000,
                    13,
                );
                lemma_product_bound(ceil as int, j as int, 1_000_000_000_000_000_000, 13);
            }
            let lo: i128 = (floor - ((k - 1) as i128)) * (j as i128);
            let hi: i128 = ceil * (j as i128);
            if lo > hi {
                proof {
                    lemma_stop_no_room(*g, best, j as int, qpos as int, k as int, t as int);
                }
                open = false;
            } else {
                best = scan_starts(g, j, qpos, k, t, unit, lo, hi, best);
                proof {
                    lemma_next_step(*g, j as int, qpos as int, k as int, t as int);
                }
                unit = unit * 10;
                t = t + 1;
                span = span * 10;
            }
        }
    }
    proof {
        if open {
            lemma_stop_wide(*g, best, j as int, qpos as int, k as int, t as int);
        }
    }
    best
}

/// Once the bound of a label count lies below the best, so do the scores
/// of all candidates of that and of every larger count.
proof fn lemma_prune_counts(g: Grid, best: Option<Found>, j: int, qpos: int, k: int, bound: Value)
    requires
        g.wf(),
        2 <= k,
        done(g, best, cursor(j, qpos, k, 0), 3),
        bound == g.bound_k(j, qpos, k),
        bound.lt(best_value(best), g.r2()),
    ensures
        done(g, best, cursor(j, qpos + 1, 0, 0), 2),
{
    let r2 = g.r2();
    assert forall|d: Candidate| #[trigger]
        g.is_candidate(d) && d.before(cursor(j, qpos + 1, 0, 0), 2) implies best is Some
        && g.settled(d, best.unwrap().candidate()) by {
        if !d.before(cursor(j, qpos, k, 0), 3) {
            lemma_bounded(g, d);
            lemma_bound_k_monotone(g, j, qpos, k, d.k);
            lemma_score_chain(g.value_of(d), g.bound_k(j, qpos, d.k), bound, r2);
            lemma_skip(g, best, d, bound);
        }
    }
}

/// Counts beyond the cap hold no candidates.
proof fn lemma_stop_many(g: Grid, best: Option<Found>, j: int, qpos: int, k: int)
    requires
        g.wf(),
        k > g.count_cap(),
        done(g, best, cursor(j, qpos, k, 0), 3),
    ensures
        done(g, best, cursor(j, qpos + 1, 0, 0), 2),
{
    assert forall|d: Candidate| #[trigger]
        g.is_candidate(d) && d.before(cursor(j, qpos + 1, 0, 0), 2) implies d.before(
        cursor(j, qpos, k, 0),
        3,
    ) by {
        if !d.before(cursor(j, qpos, k, 0), 3) {
            lemma_reject_many(g, d);
        }
    }
}

/// Visits every label count of one nice number.
fn scan_counts(g: &Grid, j: u64, qpos: u64, best: Option<Found>) -> (out: Option<Found>)
    requires
        g.wf(),
        1 <= j <= LOOSENESS_CAP,
        qpos < NICE_COUNT,
        done(*g, best, cursor(j as int, qpos as int, 0, 0), 2),
    ensures
        done(*g, out, cursor(j as int, qpos + 1, 0, 0), 2),
{
    let range: i128 = g.dmax - g.dmin;
    proof {
        lemma_product_bound(g.range(), g.range(), 100_000_000, 100_000_000);
        assert(g.range() * g.range() >= 1) by (nonlinear_arith)
            requires
                g.range() >= 1,
        ;
    }
    let r2: i128 = range * range;
    let last: u32 = 7 * g.target - 6;
    let sm: i64 = simplicity_max(qpos, j);
    let mut best = best;
    let mut open: bool = true;
    let mut k: u32 = 2;
    while open && k <= last
        invariant
            g.wf(),
            1 <= j <= LOOSENESS_CAP,
            qpos < NICE_COUNT,
            r2 == g.r2(),
            1 <= r2 <= 10_000_000_000_000_000,
            last == g.count_cap(),
            sm == crate::score::simplicity_fifths(qpos as int, j as int, true),
            2 <= k <= last + 1,
            open ==> done(*g, best, cursor(j as int, qpos as int, k as int, 0), 3),
            !open ==> done(*g, best, cursor(j as int, qpos + 1, 0, 0), 2),
        decreases
                (if open {
                    last + 2 - k
                } else {
                    0
                }),
    {
        let dm: Ratio = density_max(k, g.target);
        let bound: Score = score(0, sm, dm);
        let bar: Score = match best {
            Some(f) => f.score,
            None => Score::floor(),
        };
        if bar.exceeds(&bound, r2) {
            proof {
                lemma_prune_counts(*g, best, j as int, qpos as int, k as int, bound@);
            }
            open = false;
        } else {
            best = scan_steps(g, j, qpos, k, best);
            k = k + 1;
        }
    }
    proof {
        if open {
            lemma_stop_many(*g, best, j as int, qpos as int, k as int);
        }
    }
    best
}

/// Once the bound of a nice number lies below the best, the best so far is
/// the best of all.
proof fn lemma_prune_nice(g: Grid, best: Option<Found>, j: int, qpos: int, bound: Value)
    requires
        g.wf(),
        0 <= qpos < 6,
        done(g, best, cursor(j, qpos, 0, 0), 2),
        bound == g.bound_q(j, qpos),
        bound.lt(best_value(best), g.r2()),
    ensures
        complete(g, best),
{
    let r2 = g.r2();
    assert forall|d: Candidate| #[trigger] g.is_candidate(d) implies best is Some && g.settled(
        d,
        best.unwrap().candidate(),
    ) by {
        if !d.before(cursor(j, qpos, 0, 0), 2) {
            lemma_bounded(g, d);
            lemma_bound_q_monotone(g, j, qpos, d.j, d.qpos);
            lemma_score_chain(g.value_of(d), g.bound_q(d.j, d.qpos), bound, r2);
            lemma_skip(g, best, d, bound);
        }
    }
}

/// Beyond the greatest looseness there are no candidates.
proof fn lemma_stop_loose(g: Grid, best: Option<Found>, j: int)
    requires
        g.wf(),
        j > LOOSENESS_CAP,
        done(g, best, cursor(j, 0, 0, 0), 2),
    ensures
        complete(g, best),
{
    assert forall|d: Candidate| #[trigger] g.is_candidate(d) implies d.before(
        cursor(j, 0, 0, 0),
        2,
    ) by {
        if !d.before(cursor(j, 0, 0, 0), 2) {
            lemma_reject_loose(g, d);
        }
    }
}

/// Finds the best candidate of `g`: the one of greatest score above minus
/// two and, among equals, the one that comes first in the order of
/// looseness, nice number, label count, exponent and start.  Returns `None`
/// exactly when `g` has no candidate.
pub fn search(g: &Grid) -> (out: Option<Found>)
    requires
        g.wf(),
    ensures
        complete(*g, out),
{
    let range: i128 = g.dmax - g.dmin;
    proof {
        lemma_product_bound(g.range(), g.range(), 100_000_000, 100_000_000);
        assert(g.range() * g.range() >= 1) by (nonlinear_arith)
            requires
                g.range() >= 1,
        ;
    }
    let r2: i128 = range * range;
    let mut best: Option<Found> = None;
    let mut open: bool = true;
    let mut j: u64 = 1;
    let mut qpos: u64 = 0;
    while open && j <= LOOSENESS_CAP
        invariant
            g.wf(),
            r2 == g.r2(),
            1 <= r2 <= 10_000_000_000_000_000,
            1 <= j <= LOOSENESS_CAP + 1,
            qpos < NICE_COUNT,
            j > LOOSENESS_CAP ==> qpos == 0,
            open ==> done(*g, best, cursor(j as int, qpos as int, 0, 0), 2),
            !open ==> complete(*g, best),
        decreases
                (if open {
                    (LOOSENESS_CAP + 2 - j) * NICE_COUNT - qpos
                } else {
                    0
                }),
    {
        let sm: i64 = simplicity_max(qpos, j);
        let bound: Score = score(0, sm, Ratio { hi: 1, lo: 1 });
        let bar: Score = match best {
            Some(f) => f.score,
            None => Score::floor(),
        };
        if bar.exceeds(&bound, r2) {
            proof {
                lemma_prune_nice(*g, best, j as int, qpos as int, bound@);
            }
            open = false;
        } else {
            best = scan_counts(g, j, qpos, best);
            if qpos + 1 < NICE_COUNT {
                qpos = qpos + 1;
            } else {
                proof {
                    let here = cursor(j as int, qpos + 1, 0, 0);
                    let there = cursor(j + 1, 0, 0, 0);
                    assert forall|d: Candidate| #[trigger]
                        g.is_candidate(d) && d.before(there, 2) implies d.before(here, 2) by {}
                }
                qpos = 0;
                j = j + 1;
            }
        }
    }
    proof {
        if open {
            lemma_stop_loose(*g, best, j as int);
        }
    }
    best
}

} // verus!
