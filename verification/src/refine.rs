//! Why the grid on which labels are searched is fine enough: on a grid whose
//! range is at least `resolution` wide, a tenfold refinement brings no new
//! candidate and changes no score, so the best labelling stays the same.

use crate::candidate::{
    lemma_reject_loose, lemma_reject_many, lemma_shape, lemma_step_monotone, resolution, step_of,
    Candidate, Grid, LOOSENESS_CAP,
};
use crate::numeric::{ceil_div, floor_div, pow10};
use crate::score::{floor_value, Value};
use vstd::arithmetic::div_mod::{
    lemma_fundamental_div_mod, lemma_fundamental_div_mod_converse, lemma_mod_bound,
};
use vstd::prelude::*;

verus! {

/// The grid `g` with units a tenth as large.
pub open spec fn refined(g: Grid) -> Grid {
    Grid { dmin: (10 * g.dmin) as i128, dmax: (10 * g.dmax) as i128, ..g }
}

/// The same labels as `c`, named on a grid with units a tenth as large.
pub open spec fn lifted(c: Candidate) -> Candidate {
    Candidate { t: c.t + 1, ..c }
}

/// The same labels as `c`, named on a grid with units ten times as large.
pub open spec fn lowered(c: Candidate) -> Candidate {
    Candidate { t: c.t - 1, ..c }
}

/// Whether `big` is the value `small` as it reads after a tenfold
/// refinement of the grid.
pub open spec fn rescaled(small: Value, big: Value) -> bool {
    &&& big.whole == small.whole
    &&& big.cover == 100 * small.cover
    &&& big.hi == 10 * small.hi
    &&& big.lo == 10 * small.lo
}

/// Multiplying dividend and divisor by ten changes neither quotient, and
/// multiplies the remainder by ten.
pub proof fn lemma_div_tenfold(x: int, d: int)
    requires
        d > 0,
    ensures
        floor_div(10 * x, 10 * d) == floor_div(x, d),
        ceil_div(10 * x, 10 * d) == ceil_div(x, d),
        (10 * x) % (10 * d) == 10 * (x % d),
{
    lemma_fundamental_div_mod(x, d);
    lemma_mod_bound(x, d);
    let q = x / d;
    let r = x % d;
    assert(10 * x == q * (10 * d) + 10 * r) by (nonlinear_arith)
        requires
            x == d * q + r,
    ;
    lemma_fundamental_div_mod_converse(10 * x, 10 * d, q, 10 * r);
    lemma_fundamental_div_mod(-x, d);
    lemma_mod_bound(-x, d);
    let q2 = (-x) / d;
    let r2 = (-x) % d;
    assert(-(10 * x) == q2 * (10 * d) + 10 * r2) by (nonlinear_arith)
        requires
            -x == d * q2 + r2,
    ;
    lemma_fundamental_div_mod_converse(-(10 * x), 10 * d, q2, 10 * r2);
}

/// Rescaling both of two values keeps their order, as long as the range is
/// rescaled with them.
pub proof fn lemma_rescaled_order(a: Value, b: Value, a10: Value, b10: Value, r2: int)
    requires
        rescaled(a, a10),
        rescaled(b, b10),
    ensures
        a10.lt(b10, 100 * r2) == a.lt(b, r2),
        a10.same(b10, 100 * r2) == a.same(b, r2),
        floor_value().lt(a10, 100 * r2) == floor_value().lt(a, r2),
{
    let ka = a.key(r2);
    let kb = b.key(r2);
    assert(a10.key(100 * r2) == 1000 * ka) by (nonlinear_arith)
        requires
            rescaled(a, a10),
            ka == (a.whole * r2 - a.cover) * a.lo - 10 * r2 * a.hi,
            a10.key(100 * r2) == (a10.whole * (100 * r2) - a10.cover) * a10.lo - 10 * (100 * r2)
                * a10.hi,
    ;
    assert(b10.key(100 * r2) == 1000 * kb) by (nonlinear_arith)
        requires
            rescaled(b, b10),
            kb == (b.whole * r2 - b.cover) * b.lo - 10 * r2 * b.hi,
            b10.key(100 * r2) == (b10.whole * (100 * r2) - b10.cover) * b10.lo - 10 * (100 * r2)
                * b10.hi,
    ;
    assert((1000 * ka) * (10 * b.lo) == 10000 * (ka * b.lo)) by (nonlinear_arith);
    assert((1000 * kb) * (10 * a.lo) == 10000 * (kb * a.lo)) by (nonlinear_arith);
    let f = floor_value();
    assert(f.key(r2) == -40 * r2) by (nonlinear_arith)
        requires
            f.key(r2) == (-30 * r2 - 0) * 1 - 10 * r2 * 1,
    ;
    assert(f.key(100 * r2) == -4000 * r2) by (nonlinear_arith)
        requires
            f.key(100 * r2) == (-30 * (100 * r2) - 0) * 1 - 10 * (100 * r2) * 1,
    ;
    assert((-4000 * r2) * (10 * a.lo) == 1000 * ((-40 * r2) * a.lo)) by (nonlinear_arith);
    assert((1000 * ka) * 1 == 1000 * (ka * 1)) by (nonlinear_arith);
}

/// After a tenfold refinement the lifted candidate has the same labels,
/// ten times as large in the new units, and is tried for the same starts.
pub proof fn lemma_lifted_geometry(g: Grid, c: Candidate)
    requires
        g.wf(),
        c.shaped(),
    ensures
        refined(g).dmin == 10 * g.dmin,
        refined(g).dmax == 10 * g.dmax,
        refined(g).range() == 10 * g.range(),
        refined(g).r2() == 100 * g.r2(),
        lifted(c).unit() == 10 * c.unit(),
        lifted(c).step() == 10 * c.step(),
        lifted(c).span() == 10 * c.span(),
        lifted(c).lmin() == 10 * c.lmin(),
        lifted(c).lmax() == 10 * c.lmax(),
        refined(g).fine(c.j, c.qpos, c.k, c.t + 1) == g.fine(c.j, c.qpos, c.k, c.t),
        refined(g).min_start(c.j, c.qpos, c.k, c.t + 1) == g.min_start(c.j, c.qpos, c.k, c.t),
        refined(g).max_start(c.j, c.qpos, c.t + 1) == g.max_start(c.j, c.qpos, c.t),
        refined(g).room(c.j, c.qpos, c.k, c.t + 1) == g.room(c.j, c.qpos, c.k, c.t),
{
    lemma_shape(c);
    lemma_step_monotone(c.j, c.qpos, c.t, c.t + 1);
    let r = g.range();
    assert((10 * r) * (10 * r) == 100 * (r * r)) by (nonlinear_arith);
    let s = c.step();
    let u = c.unit();
    assert((c.k - 1) * (10 * s) == 10 * ((c.k - 1) * s)) by (nonlinear_arith);
    assert(c.start * (10 * u) == 10 * (c.start * u)) by (nonlinear_arith);
    assert((c.k + 1) * (10 * s) == 10 * ((c.k + 1) * s)) by (nonlinear_arith);
    lemma_div_tenfold(g.dmax as int, s);
    lemma_div_tenfold(g.dmin as int, s);
}

/// After a tenfold refinement the lifted candidate has the same score.
pub proof fn lemma_lifted_value(g: Grid, c: Candidate)
    requires
        g.wf(),
        c.shaped(),
    ensures
        rescaled(g.value_of(c), refined(g).value_of(lifted(c))),
{
    lemma_lifted_geometry(g, c);
    lemma_shape(c);
    let a = g.dmax - c.lmax();
    let b = g.dmin - c.lmin();
    assert(2 * ((10 * a) * (10 * a) + (10 * b) * (10 * b)) == 100 * (2 * (a * a + b * b)))
        by (nonlinear_arith);
    let m = g.target as int;
    let s = c.step();
    assert((m - 1) * (10 * s) == 10 * ((m - 1) * s)) by (nonlinear_arith);
    lemma_div_tenfold(c.lmin(), s);
}

/// On a grid that is fine enough, no step without a factor of ten is coarse
/// enough to be tried after a refinement.
pub proof fn lemma_origin_too_fine(g: Grid, j: int, qpos: int, k: int)
    requires
        g.wf(),
        g.range() >= resolution(g.target as int),
        1 <= j <= LOOSENESS_CAP,
        0 <= qpos < 6,
        2 <= k <= g.count_cap(),
    ensures
        !refined(g).fine(j, qpos, k, 0),
{
    assert(pow10(0) == 1);
    let n = crate::score::nice(qpos);
    let m = g.target as int;
    assert(step_of(j, qpos, 0) == j * n) by (nonlinear_arith)
        requires
            step_of(j, qpos, 0) == j * (n * 1),
    ;
    assert((k + 1) * (j * n) <= (7 * m - 5) * 650) by (nonlinear_arith)
        requires
            0 <= k + 1 <= 7 * m - 5,
            1 <= j <= 13,
            10 <= n <= 50,
    ;
}

/// After a tenfold refinement the exponents are tried as far as the lifted
/// candidate exactly if they were tried as far as the candidate before.
pub proof fn lemma_lifted_reachable(g: Grid, c: Candidate)
    requires
        g.wf(),
        g.range() >= resolution(g.target as int),
        c.shaped(),
        c.j <= LOOSENESS_CAP,
        c.k <= g.count_cap(),
    ensures
        refined(g).reachable(lifted(c)) == g.reachable(c),
{
    let h = refined(g);
    if g.reachable(c) {
        assert forall|u: int|
            0 <= u < c.t + 1 && #[trigger] h.fine(c.j, c.qpos, c.k, u) implies h.room(
            c.j,
            c.qpos,
            c.k,
            u,
        ) by {
            if u == 0 {
                lemma_origin_too_fine(g, c.j, c.qpos, c.k);
            } else {
                lemma_lifted_geometry(g, Candidate { t: u - 1, ..c });
                assert(g.fine(c.j, c.qpos, c.k, u - 1));
            }
        }
    }
    if h.reachable(lifted(c)) {
        assert forall|u: int|
            0 <= u < c.t && #[trigger] g.fine(c.j, c.qpos, c.k, u) implies g.room(
            c.j,
            c.qpos,
            c.k,
            u,
        ) by {
            lemma_lifted_geometry(g, Candidate { t: u, ..c });
            let up = lifted(c);
            assert(0 <= u + 1 < up.t);
            assert(h.fine(up.j, up.qpos, up.k, u + 1));
            assert(h.room(up.j, up.qpos, up.k, u + 1));
        }
    }
}

/// On a grid that is fine enough, the candidates of the refined grid are
/// the candidates of the grid, lifted.
pub proof fn lemma_refined_candidates(g: Grid, c: Candidate)
    requires
        g.wf(),
        refined(g).wf(),
        g.range() >= resolution(g.target as int),
    ensures
        g.is_candidate(c) ==> refined(g).is_candidate(lifted(c)),
        refined(g).is_candidate(c) ==> c.t >= 1 && g.is_candidate(lowered(c)),
{
    let h = refined(g);
    if g.is_candidate(c) {
        if c.j > LOOSENESS_CAP {
            lemma_reject_loose(g, c);
        }
        if c.k > g.count_cap() {
            lemma_reject_many(g, c);
        }
        lemma_lifted_geometry(g, c);
        lemma_lifted_value(g, c);
        lemma_lifted_reachable(g, c);
        lemma_rescaled_order(
            g.value_of(c),
            g.value_of(c),
            h.value_of(lifted(c)),
            h.value_of(lifted(c)),
            g.r2(),
        );
    }
    if h.is_candidate(c) {
        if c.j > LOOSENESS_CAP {
            lemma_reject_loose(h, c);
        }
        if c.k > h.count_cap() {
            lemma_reject_many(h, c);
        }
        if c.t == 0 {
            lemma_origin_too_fine(g, c.j, c.qpos, c.k);
        }
        let d = lowered(c);
        assert(lifted(d) == c);
        lemma_lifted_geometry(g, d);
        lemma_lifted_value(g, d);
        lemma_lifted_reachable(g, d);
        lemma_rescaled_order(g.value_of(d), g.value_of(d), h.value_of(c), h.value_of(c), g.r2());
    }
}

/// On a grid that is fine enough, refining the grid tenfold changes nothing:
/// the best candidate of the refined grid is the best candidate of the grid,
/// lifted, with the same labels; and where one grid has no candidate, the
/// other has none.
pub proof fn lemma_refinement_keeps_best(g: Grid, b: Candidate)
    requires
        g.wf(),
        refined(g).wf(),
        g.range() >= resolution(g.target as int),
    ensures
        g.is_best(b) ==> refined(g).is_best(lifted(b)),
        refined(g).is_best(b) ==> b.t >= 1 && g.is_best(lowered(b)),
        g.is_candidate(b) ==> lifted(b).lmin() == 10 * b.lmin() && lifted(b).step() == 10
            * b.step() && lifted(b).k == b.k,
        (exists|c: Candidate| g.is_candidate(c)) <==> (exists|c: Candidate|
            refined(g).is_candidate(c)),
{
    let h = refined(g);
    if g.is_candidate(b) {
        lemma_lifted_geometry(g, b);
    }
    if g.is_best(b) {
        lemma_refined_candidates(g, b);
        assert forall|d: Candidate| #[trigger] h.is_candidate(d) implies h.settled(
            d,
            lifted(b),
        ) by {
            lemma_refined_candidates(g, d);
            let e = lowered(d);
            assert(lifted(e) == d);
            assert(g.settled(e, b));
            lemma_lifted_value(g, e);
            lemma_lifted_value(g, b);
            lemma_rescaled_order(
                g.value_of(e),
                g.value_of(b),
                h.value_of(d),
                h.value_of(lifted(b)),
                g.r2(),
            );
            lemma_lifted_geometry(g, b);
        }
    }
    if h.is_best(b) {
        lemma_refined_candidates(g, b);
        let a = lowered(b);
        assert(lifted(a) == b);
        assert forall|d: Candidate| #[trigger] g.is_candidate(d) implies g.settled(d, a) by {
            lemma_refined_candidates(g, d);
            assert(h.settled(lifted(d), b));
            lemma_lifted_value(g, d);
            lemma_lifted_value(g, a);
            lemma_rescaled_order(
                g.value_of(d),
                g.value_of(a),
                h.value_of(lifted(d)),
                h.value_of(b),
                g.r2(),
            );
            lemma_lifted_geometry(g, a);
        }
    }
    if exists|c: Candidate| g.is_candidate(c) {
        let c = choose|c: Candidate| g.is_candidate(c);
        lemma_refined_candidates(g, c);
        assert(h.is_candidate(lifted(c)));
    }
    if exists|c: Candidate| h.is_candidate(c) {
        let c = choose|c: Candidate| h.is_candidate(c);
        lemma_refined_candidates(g, c);
        assert(g.is_candidate(lowered(c)));
    }
}

} // verus!
