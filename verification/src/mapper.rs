//! The map from a value on an axis interval to a cell index.

use vstd::prelude::*;
use vstd::arithmetic::div_mod::*;
use crate::error::CanvasError;
use crate::error::Fault;
use crate::error::value_message;
use crate::ratio::Frac;
use crate::ratio::Ratio;
use crate::ratio::Wide;
use crate::ratio::round_div;
use crate::ratio::lemma_product_fits;

verus! {

/// The index, among `width` cells, of the value `x` on the interval from `lo` to `hi`:
/// `(width - 1) * (x - lo) / (hi - lo)` rounded to the nearest integer, a half going up.
pub open spec fn cell_index(x: Frac, lo: Frac, hi: Frac, width: int) -> int {
    round_div((width - 1) * (x.above(lo) * hi.den), hi.above(lo) * x.den)
}

/// `m * a / b` rounded to the nearest integer, a half going up, computed without ever
/// forming the product `m * a`.
pub fn mul_div_round(m: u64, a: u128, b: u128) -> (k: u64)
    requires
        0 < b,
        a <= b,
    ensures
        k == round_div(m * a, b as int),
        k <= m,
{
    // `q * b + r` is the part of `m * a` summed so far; `tq * b + tr` is `a` times the
    // weight of the lowest bit of `rest`.
    let mut q: u64 = 0;
    let mut r: u128 = 0;
    let mut tq: u64 = 0;
    let mut tr: u128 = a;
    if a == b {
        tq = 1;
        tr = 0;
    }
    let mut rest: u64 = m;
    while rest > 0
        invariant
            0 < b,
            a <= b,
            r < b,
            tr < b,
            q * b + r + rest * (tq * b + tr) == m * a,
        decreases rest,
    {
        let ghost term: int = tq * b + tr;
        let ghost sum: int = q * b + r;
        let odd: bool = rest % 2 == 1;
        let half: u64 = rest / 2;
        proof {
            assert(rest * term == 2 * (half * term) + (if odd { term } else { 0 }))
                by (nonlinear_arith)
                requires
                    rest == 2 * half + (if odd { 1int } else { 0int }),
            ;
            assert(m * a <= m * b) by (nonlinear_arith)
                requires
                    a <= b,
                    0 <= m,
            ;
            assert(half * term >= 0) by (nonlinear_arith)
                requires
                    half >= 0,
                    term >= 0,
            ;
        }
        rest = half;
        if odd {
            proof {
                // The new sum is at most `m * a`, so its quotient is at most `m`.
                assert(sum + term <= m * b);
                assert(q + tq + 1 <= m || (q + tq <= m && r + tr < b)) by (nonlinear_arith)
                    requires
                        q * b + r + (tq * b + tr) <= m * b,
                        0 <= r,
                        0 <= tr,
                        0 < b,
                ;
                assert((q + tq + 1) * b == q * b + tq * b + b) by (nonlinear_arith);
                assert((q + tq) * b == q * b + tq * b) by (nonlinear_arith);
            }
            if r >= b - tr {
                r = r - (b - tr);
                q = q + tq + 1;
            } else {
                r = r + tr;
                q = q + tq;
            }
        }
        assert(q * b + r == sum + (if odd { term } else { 0 }));
        if rest > 0 {
            proof {
                assert(half * term >= term) by (nonlinear_arith)
                    requires
                        half >= 1,
                        term >= 0,
                ;
                assert(2 * tq + 1 <= m || (2 * tq <= m && tr + tr < b)) by (nonlinear_arith)
                    requires
                        2 * (tq * b + tr) <= m * b,
                        0 <= tr,
                        0 < b,
                ;
                assert((2 * tq + 1) * b == 2 * (tq * b) + b) by (nonlinear_arith);
                assert((2 * tq) * b == 2 * (tq * b)) by (nonlinear_arith);
                assert(half * (2 * term) == 2 * (half * term)) by (nonlinear_arith);
            }
            if tr >= b - tr {
                tr = tr - (b - tr);
                tq = 2 * tq + 1;
            } else {
                tr = tr + tr;
                tq = 2 * tq;
            }
            assert(tq * b + tr == 2 * term);
        } else {
            assert(half * (tq * b + tr) == 0) by (nonlinear_arith)
                requires
                    half == 0,
            ;
            assert(half * term == 0) by (nonlinear_arith)
                requires
                    half == 0,
            ;
        }
    }
    proof {
        assert(rest * (tq * b + tr) == 0) by (nonlinear_arith)
            requires
                rest == 0,
        ;
        assert(m * a <= m * b) by (nonlinear_arith)
            requires
                a <= b,
                0 <= m,
        ;
        assert(q < m || (q <= m && r == 0)) by (nonlinear_arith)
            requires
                q * b + r <= m * b,
                0 <= r,
                0 < b,
        ;
        lemma_round_div_parts(q as int, r as int, b as int);
    }
    if r >= b - r {
        q + 1
    } else {
        q
    }
}

/// Rounding `(q * b + r) / b` with `0 <= r < b` gives `q`, or `q + 1` from the half on.
pub proof fn lemma_round_div_parts(q: int, r: int, b: int)
    requires
        0 <= r < b,
    ensures
        round_div(q * b + r, b) == if 2 * r >= b {
            q + 1
        } else {
            q
        },
{
    let x = 2 * (q * b + r) + b;
    if 2 * r >= b {
        assert(x == (2 * b) * (q + 1) + (2 * r - b)) by (nonlinear_arith)
            requires
                x == 2 * (q * b + r) + b,
        ;
        lemma_fundamental_div_mod_converse(x, 2 * b, q + 1, 2 * r - b);
    } else {
        assert(x == (2 * b) * q + (2 * r + b)) by (nonlinear_arith)
            requires
                x == 2 * (q * b + r) + b,
        ;
        lemma_fundamental_div_mod_converse(x, 2 * b, q, 2 * r + b);
    }
}

/// The cell, among `width`, of the value `x` on the axis interval from `x_min` to
/// `x_max`. A value outside the interval is reported as out of range.
pub fn get_cell(x: Ratio, x_min: Ratio, x_max: Ratio, width: usize) -> (r: Result<
    usize,
    CanvasError,
>)
    requires
        x.wf(),
        x_min.wf(),
        x_max.wf(),
        x_min@.lt(x_max@),
        width >= 1,
    ensures
        r is Ok <==> x_min@.le(x@) && x@.le(x_max@),
        r matches Ok(c) ==> c == cell_index(x@, x_min@, x_max@, width as int) && c < width,
        r matches Err(e) ==> e.reports(Fault::Value { x: x@, lo: x_min@, hi: x_max@ }),
{
    if x.lt(x_min) || x_max.lt(x) {
        return Err(
            CanvasError::OutOfRange(value_message(Wide::from_ratio(x), x_min, x_max)),
        );
    }
    proof {
        lemma_product_fits(x.num as int, x_min.den as int);
        lemma_product_fits(x_min.num as int, x.den as int);
        lemma_product_fits(x_max.num as int, x_min.den as int);
        lemma_product_fits(x_min.num as int, x_max.den as int);
    }
    let rise: i128 = (x.num as i128) * (x_min.den as i128) - (x_min.num as i128) * (x.den as i128);
    let run: i128 = (x_max.num as i128) * (x_min.den as i128) - (x_min.num as i128) * (
    x_max.den as i128);
    proof {
        assert(rise * x_max.den < 0x1_0000_0000_0000_0000_0000_0000_0000_0000) by (nonlinear_arith)
            requires
                0 <= rise < 0x1_0000_0000_0000_0000_0000_0000,
                0 <= x_max.den < 0x1_0000_0000,
        ;
        assert(run * x.den < 0x1_0000_0000_0000_0000_0000_0000_0000_0000) by (nonlinear_arith)
            requires
                0 <= run < 0x1_0000_0000_0000_0000_0000_0000,
                0 <= x.den < 0x1_0000_0000,
        ;
        assert(run * x.den > 0) by (nonlinear_arith)
            requires
                0 < run,
                0 < x.den,
        ;
        lemma_share_at_most_one(x@, x_min@, x_max@);
    }
    let a: u128 = (rise as u128) * (x_max.den as u128);
    let b: u128 = (run as u128) * (x.den as u128);
    let k: u64 = mul_div_round((width - 1) as u64, a, b);
    Ok(k as usize)
}

/// For `x <= hi`, the share of the interval that lies below `x` is at most all of it.
pub proof fn lemma_share_at_most_one(x: Frac, lo: Frac, hi: Frac)
    requires
        x.wf(),
        lo.wf(),
        hi.wf(),
        x.le(hi),
    ensures
        x.above(lo) * hi.den <= hi.above(lo) * x.den,
{
    assert(x.above(lo) * hi.den <= hi.above(lo) * x.den) by (nonlinear_arith)
        requires
            x.num * hi.den <= hi.num * x.den,
            lo.den > 0,
            x.above(lo) == x.num * lo.den - lo.num * x.den,
            hi.above(lo) == hi.num * lo.den - lo.num * hi.den,
    ;
}

/// The point that lies `step` parts of `steps` along the way from `lo` to `hi`:
/// `lo + step * (hi - lo) / steps`.
pub open spec fn abscissa(lo: Frac, hi: Frac, step: int, steps: int) -> Frac {
    Frac {
        num: lo.num * hi.den * steps + step * hi.above(lo),
        den: hi.den * lo.den * steps,
    }
}

/// Quotients are ordered as the fractions they round down.
pub proof fn lemma_quotient_ordered(p1: int, q1: int, p2: int, q2: int)
    requires
        q1 > 0,
        q2 > 0,
        p1 * q2 <= p2 * q1,
    ensures
        p1 / q1 <= p2 / q2,
{
    let k1 = p1 / q1;
    let k2 = p2 / q2;
    lemma_fundamental_div_mod(p1, q1);
    lemma_fundamental_div_mod(p2, q2);
    if k2 < k1 {
        assert(p2 < (k2 + 1) * q2) by (nonlinear_arith)
            requires
                p2 == q2 * k2 + p2 % q2,
                p2 % q2 < q2,
        ;
        assert((k2 + 1) * q2 <= k1 * q2) by (nonlinear_arith)
            requires
                k2 + 1 <= k1,
                q2 > 0,
        ;
        assert(p2 * q1 < (k1 * q2) * q1) by (nonlinear_arith)
            requires
                p2 < k1 * q2,
                q1 > 0,
        ;
        assert((k1 * q1) * q2 <= p1 * q2) by (nonlinear_arith)
            requires
                p1 == q1 * k1 + p1 % q1,
                0 <= p1 % q1,
                q2 > 0,
        ;
        assert((k1 * q2) * q1 == (k1 * q1) * q2) by (nonlinear_arith);
        assert(false);
    }
}

/// A value inside the interval maps to one of the `width` cells.
pub proof fn lemma_cell_index_bounds(x: Frac, lo: Frac, hi: Frac, width: int)
    requires
        x.wf(),
        lo.wf(),
        hi.wf(),
        lo.lt(hi),
        lo.le(x),
        x.le(hi),
        width >= 1,
    ensures
        0 <= cell_index(x, lo, hi, width) <= width - 1,
{
    let m = width - 1;
    let a = x.above(lo) * hi.den;
    let b = hi.above(lo) * x.den;
    lemma_share_at_most_one(x, lo, hi);
    assert(a >= 0) by (nonlinear_arith)
        requires
            a == x.above(lo) * hi.den,
            x.above(lo) >= 0,
            hi.den > 0,
    ;
    assert(b > 0) by (nonlinear_arith)
        requires
            b == hi.above(lo) * x.den,
            hi.above(lo) > 0,
            x.den > 0,
    ;
    assert(0 <= m * a <= m * b) by (nonlinear_arith)
        requires
            0 <= a <= b,
            0 <= m,
    ;
    lemma_div_pos_is_pos(2 * (m * a) + b, 2 * b);
    lemma_div_is_ordered(2 * (m * a) + b, 2 * (m * b) + b, 2 * b);
    lemma_round_div_parts(m, 0, b);
    assert(m * b + 0 == m * b);
}

/// The map is monotonic: of two values, the larger one never lands in an earlier cell.
pub proof fn lemma_cell_index_monotonic(x1: Frac, x2: Frac, lo: Frac, hi: Frac, width: int)
    requires
        x1.wf(),
        x2.wf(),
        lo.wf(),
        hi.wf(),
        lo.lt(hi),
        x1.le(x2),
        width >= 1,
    ensures
        cell_index(x1, lo, hi, width) <= cell_index(x2, lo, hi, width),
{
    let m = width - 1;
    let run = hi.above(lo);
    let r1 = x1.above(lo);
    let r2 = x2.above(lo);
    let a1 = r1 * hi.den;
    let b1 = run * x1.den;
    let a2 = r2 * hi.den;
    let b2 = run * x2.den;
    assert(r1 * x2.den <= r2 * x1.den) by (nonlinear_arith)
        requires
            x1.num * x2.den <= x2.num * x1.den,
            lo.den > 0,
            r1 == x1.num * lo.den - lo.num * x1.den,
            r2 == x2.num * lo.den - lo.num * x2.den,
    ;
    let scale = hi.den * run;
    assert(scale > 0) by (nonlinear_arith)
        requires
            scale == hi.den * run,
            hi.den > 0,
            run > 0,
    ;
    assert(a1 * b2 == (r1 * x2.den) * scale) by (nonlinear_arith)
        requires
            a1 == r1 * hi.den,
            b2 == run * x2.den,
            scale == hi.den * run,
    ;
    assert(a2 * b1 == (r2 * x1.den) * scale) by (nonlinear_arith)
        requires
            a2 == r2 * hi.den,
            b1 == run * x1.den,
            scale == hi.den * run,
    ;
    assert(a1 * b2 <= a2 * b1) by (nonlinear_arith)
        requires
            a1 * b2 == (r1 * x2.den) * scale,
            a2 * b1 == (r2 * x1.den) * scale,
            r1 * x2.den <= r2 * x1.den,
            scale > 0,
    ;
    assert(b1 > 0 && b2 > 0) by (nonlinear_arith)
        requires
            b1 == run * x1.den,
            b2 == run * x2.den,
            run > 0,
            x1.den > 0,
            x2.den > 0,
    ;
    assert((2 * (m * a1) + b1) * (2 * b2) <= (2 * (m * a2) + b2) * (2 * b1)) by (nonlinear_arith)
        requires
            a1 * b2 <= a2 * b1,
            m >= 0,
    ;
    lemma_quotient_ordered(2 * (m * a1) + b1, 2 * b1, 2 * (m * a2) + b2, 2 * b2);
}

/// The point `step` parts of `steps` along the interval lies inside it, and its cell
/// among `width` is `(width - 1) * step / steps` rounded.
pub proof fn lemma_abscissa_cell(lo: Frac, hi: Frac, step: int, steps: int, width: int)
    requires
        lo.wf(),
        hi.wf(),
        lo.lt(hi),
        0 <= step <= steps,
        steps >= 1,
        width >= 1,
    ensures
        abscissa(lo, hi, step, steps).wf(),
        lo.le(abscissa(lo, hi, step, steps)),
        abscissa(lo, hi, step, steps).le(hi),
        cell_index(abscissa(lo, hi, step, steps), lo, hi, width) == round_div(
            (width - 1) * step,
            steps,
        ),
{
    let x = abscissa(lo, hi, step, steps);
    let m = width - 1;
    let run = hi.above(lo);
    let unit = run * lo.den * hi.den;
    assert(unit > 0) by (nonlinear_arith)
        requires
            unit == run * lo.den * hi.den,
            run > 0,
            lo.den > 0,
            hi.den > 0,
    ;
    assert(x.den > 0) by (nonlinear_arith)
        requires
            x.den == hi.den * lo.den * steps,
            steps >= 1,
            lo.den > 0,
            hi.den > 0,
    ;
    let rise = x.above(lo);
    let (ln, ld, hd) = (lo.num, lo.den, hi.den);
    assert(rise == (ln * hd * steps + step * run) * ld - ln * (hd * ld * steps));
    assert(rise == (step * run) * ld) by (nonlinear_arith)
        requires
            rise == (ln * hd * steps + step * run) * ld - ln * (hd * ld * steps),
    ;
    assert(rise * hd == step * unit) by (nonlinear_arith)
        requires
            rise == (step * run) * ld,
            unit == run * ld * hd,
    ;
    assert(run * x.den == steps * unit) by (nonlinear_arith)
        requires
            x.den == hi.den * lo.den * steps,
            unit == run * lo.den * hi.den,
    ;
    assert(x.above(lo) * hi.den >= 0 && x.above(lo) * hi.den <= run * x.den) by (nonlinear_arith)
        requires
            x.above(lo) * hi.den == step * unit,
            run * x.den == steps * unit,
            0 <= step <= steps,
            unit > 0,
    ;
    assert(lo.le(x)) by (nonlinear_arith)
        requires
            x.above(lo) * hi.den >= 0,
            hi.den > 0,
            x.above(lo) == x.num * lo.den - lo.num * x.den,
    ;
    assert(x.le(hi)) by (nonlinear_arith)
        requires
            x.above(lo) * hi.den <= run * x.den,
            lo.den > 0,
            x.above(lo) == x.num * lo.den - lo.num * x.den,
            run == hi.num * lo.den - lo.num * hi.den,
    ;
    let top = 2 * (m * step) + steps;
    assert(2 * (m * (step * unit)) + steps * unit == unit * top) by (nonlinear_arith)
        requires
            top == 2 * (m * step) + steps,
    ;
    assert(2 * (steps * unit) == unit * (2 * steps)) by (nonlinear_arith);
    assert(top >= 0) by (nonlinear_arith)
        requires
            top == 2 * (m * step) + steps,
            m >= 0,
            step >= 0,
            steps >= 1,
    ;
    lemma_div_multiples_vanish_quotient(unit, top, 2 * steps);
}

/// The map is onto: of two cells or more, each is the cell of a point of the
/// interval, the one that lies as many parts along it as the cell stands behind the
/// first.
pub proof fn lemma_cell_index_onto(lo: Frac, hi: Frac, cell: int, width: int)
    requires
        lo.wf(),
        hi.wf(),
        lo.lt(hi),
        width >= 2,
        0 <= cell <= width - 1,
    ensures
        lo.le(abscissa(lo, hi, cell, width - 1)),
        abscissa(lo, hi, cell, width - 1).le(hi),
        cell_index(abscissa(lo, hi, cell, width - 1), lo, hi, width) == cell,
{
    lemma_abscissa_cell(lo, hi, cell, width - 1, width);
    assert((width - 1) * cell == cell * (width - 1) + 0) by (nonlinear_arith);
    lemma_round_div_parts(cell, 0, width - 1);
}

} // verus!
