use vstd::prelude::*;
use vstd::arithmetic::div_mod::lemma_div_of0;
use crate::SCALE;
use crate::fixed::{lemma_scale_trunc_bound, scale_div, scale_trunc, ComplexPoint};
use crate::geometry::COORD_LIMIT;

verus! {

/// A point escapes once its squared magnitude exceeds 4.0; in squared
/// fixed-point units that is 4 * SCALE * SCALE.
pub const ESCAPE_THRESHOLD: i64 = 4 * SCALE * SCALE;

/// Real part of z^2 + c in fixed point.
pub open spec fn step_re(zr: int, zi: int, cr: int) -> int {
    scale_trunc(zr * zr - zi * zi) + cr
}

/// Imaginary part of z^2 + c in fixed point.
pub open spec fn step_im(zr: int, zi: int, ci: int) -> int {
    scale_trunc(2 * (zr * zi)) + ci
}

/// The n-th value of the quadratic recurrence z := z^2 + c started at 0,
/// as a (re, im) pair of fixed-point units.
pub open spec fn z_at(c: (int, int), n: nat) -> (int, int)
    decreases n,
{
    if n == 0 {
        (0int, 0int)
    } else {
        let z = z_at(c, (n - 1) as nat);
        (step_re(z.0, z.1, c.0), step_im(z.0, z.1, c.1))
    }
}

/// Squared magnitude, in squared units.
pub open spec fn norm_sqr(z: (int, int)) -> int {
    z.0 * z.0 + z.1 * z.1
}

/// The iteration escapes at the 0-based step `i` when the value after i + 1
/// updates has left the circle of radius 2.
pub open spec fn escapes_at(c: (int, int), i: nat) -> bool {
    norm_sqr(z_at(c, i + 1)) > ESCAPE_THRESHOLD
}

/// The first step in [i, limit) at which the iteration escapes, if any.
pub open spec fn first_escape_from(c: (int, int), i: nat, limit: nat) -> Option<nat>
    decreases limit - i,
{
    if i >= limit {
        None
    } else if escapes_at(c, i) {
        Some(i)
    } else {
        first_escape_from(c, i + 1, limit)
    }
}

/// The escape step of `c` under at most `limit` updates: the number of
/// completed updates survived before divergence was detected, or nothing if
/// the point never leaves the circle of radius 2 within the bound.
pub open spec fn escape_spec(c: (int, int), limit: nat) -> Option<nat> {
    first_escape_from(c, 0, limit)
}

impl ComplexPoint {
    /// The coordinates as a mathematical (re, im) pair of units.
    pub open spec fn ints(self) -> (int, int) {
        (self.re.units as int, self.im.units as int)
    }
}

/// Coordinates small enough for the iteration's intermediates to fit i64.
pub open spec fn bounded_point(c: ComplexPoint) -> bool {
    &&& -COORD_LIMIT <= c.re.units <= COORD_LIMIT
    &&& -COORD_LIMIT <= c.im.units <= COORD_LIMIT
}

/// Runs the escape-time iteration for one point: repeatedly replaces z by
/// z^2 + c, at most `limit` times, and reports the 0-based index of the
/// update that first pushed |z|^2 over 4.0, or None if none did.
pub fn escape_time(c: ComplexPoint, limit: usize) -> (r: Option<usize>)
    requires
        bounded_point(c),
    ensures
        match r {
            Some(i) => Some(i as nat) == escape_spec(c.ints(), limit as nat) && i < limit,
            None => escape_spec(c.ints(), limit as nat) is None,
        },
{
    let mut zr: i64 = 0;
    let mut zi: i64 = 0;
    let mut i: usize = 0;
    while i < limit
        invariant
            bounded_point(c),
            i <= limit,
            (zr as int, zi as int) == z_at(c.ints(), i as nat),
            (zr as int) * (zr as int) + (zi as int) * (zi as int) <= ESCAPE_THRESHOLD,
            first_escape_from(c.ints(), 0, limit as nat) == first_escape_from(
                c.ints(),
                i as nat,
                limit as nat,
            ),
        decreases limit - i,
    {
        proof {
            assert(-2 * SCALE <= zr <= 2 * SCALE && -2 * SCALE <= zi <= 2 * SCALE)
                by (nonlinear_arith)
                requires
                    (zr as int) * (zr as int) + (zi as int) * (zi as int) <= 4 * (SCALE as int)
                        * (SCALE as int),
            ;
            assert(0 <= (zr as int) * (zr as int) <= 4 * (SCALE as int) * (SCALE as int) && 0 <= (
            zi as int) * (zi as int) <= 4 * (SCALE as int) * (SCALE as int)) by (nonlinear_arith)
                requires
                    -2 * SCALE <= zr <= 2 * SCALE,
                    -2 * SCALE <= zi <= 2 * SCALE,
            ;
        }
        proof {
            assert(-4 * (SCALE as int) * (SCALE as int) <= (zr as int) * (zi as int) <= 4 * (
            SCALE as int) * (SCALE as int)) by (nonlinear_arith)
                requires
                    -2 * SCALE <= zr <= 2 * SCALE,
                    -2 * SCALE <= zi <= 2 * SCALE,
            ;
        }
        let rr: i64 = zr * zr;
        let ii: i64 = zi * zi;
        let cross: i64 = zr * zi;
        proof {
            lemma_scale_trunc_bound(rr - ii, 4 * (SCALE as int) * (SCALE as int));
            lemma_scale_trunc_bound(2 * (cross as int), 8 * (SCALE as int) * (SCALE as int));
        }
        let new_re: i64 = scale_div(rr - ii) + c.re.units;
        let new_im: i64 = scale_div(2 * cross) + c.im.units;
        zr = new_re;
        zi = new_im;
        proof {
            assert((zr as int, zi as int) == z_at(c.ints(), (i + 1) as nat));
            assert(0 <= (zr as int) * (zr as int) <= 144 * (SCALE as int) * (SCALE as int) && 0
                <= (zi as int) * (zi as int) <= 256 * (SCALE as int) * (SCALE as int))
                by (nonlinear_arith)
                requires
                    -12 * SCALE <= zr <= 12 * SCALE,
                    -16 * SCALE <= zi <= 16 * SCALE,
            ;
        }
        let nr: i64 = zr * zr;
        let ni: i64 = zi * zi;
        if nr + ni > ESCAPE_THRESHOLD {
            assert(escapes_at(c.ints(), i as nat));
            return Some(i);
        }
        i = i + 1;
    }
    None
}

/// Law: the origin never escapes; z stays exactly at 0 forever.
pub proof fn lemma_origin_fixed(c: (int, int), n: nat)
    requires
        c.0 == 0,
        c.1 == 0,
    ensures
        z_at(c, n) == (0int, 0int),
    decreases n,
{
    lemma_div_of0(SCALE as int);
    if n > 0 {
        lemma_origin_fixed(c, (n - 1) as nat);
    }
}

proof fn lemma_origin_from(c: (int, int), i: nat, limit: nat)
    requires
        c.0 == 0,
        c.1 == 0,
    ensures
        first_escape_from(c, i, limit) is None,
    decreases limit - i,
{
    if i < limit {
        lemma_origin_fixed(c, i + 1);
        lemma_origin_from(c, i + 1, limit);
    }
}

/// Law: for c = 0 + 0i the evaluator reports no escape, whatever the
/// positive bound: the origin belongs to the set.
pub proof fn lemma_escape_origin(c: (int, int), limit: nat)
    requires
        c.0 == 0,
        c.1 == 0,
    ensures
        escape_spec(c, limit) is None,
{
    lemma_origin_from(c, 0, limit);
}

/// Law: a point already outside the circle of radius 2 escapes on the very
/// first update, so the reported step is 0.
pub proof fn lemma_escape_immediate(c: (int, int), limit: nat)
    requires
        norm_sqr(c) > ESCAPE_THRESHOLD,
        limit >= 1,
    ensures
        escape_spec(c, limit) == Some(0nat),
{
    lemma_div_of0(SCALE as int);
    assert(z_at(c, 0) == (0int, 0int));
    assert(z_at(c, 1) == c);
}

/// Law: a reported escape step always lies within [i, limit), and the
/// iteration does escape there.
pub proof fn lemma_escape_below_limit(c: (int, int), i: nat, j: nat, limit: nat)
    requires
        first_escape_from(c, i, limit) == Some(j),
    ensures
        i <= j < limit,
        escapes_at(c, j),
    decreases limit - i,
{
    if i < limit && !escapes_at(c, i) {
        lemma_escape_below_limit(c, i + 1, j, limit);
    }
}

/// Law: the reported escape step is the first one: the iteration does not
/// escape at any earlier step.
pub proof fn lemma_escape_minimal(c: (int, int), i: nat, j: nat, k: nat, limit: nat)
    requires
        first_escape_from(c, i, limit) == Some(j),
        i <= k < j,
    ensures
        !escapes_at(c, k),
    decreases limit - i,
{
    lemma_escape_below_limit(c, i, j, limit);
    if i < k {
        lemma_escape_minimal(c, i + 1, j, k, limit);
    }
}

/// Law: when no escape is reported, no step below the bound escapes.
pub proof fn lemma_no_escape(c: (int, int), i: nat, k: nat, limit: nat)
    requires
        first_escape_from(c, i, limit) is None,
        i <= k < limit,
    ensures
        !escapes_at(c, k),
    decreases limit - i,
{
    if i < k {
        lemma_no_escape(c, i + 1, k, limit);
    }
}

} // verus!
