//! The arithmetic behind an animation's memory budget: rounding never makes the
//! scaled frames exceed it.
//!
//! One rounding enlarges a number by at most one part in 2^53. Errors are
//! therefore bounded by factors of (2^53 + 1) / 2^53, and the long literals below
//! are powers of these two numbers, some of them multiplied by a power of two
//! from the fixed-point units.

use crate::rounding::{
    budgeted_side, fitted_side, integer_root, is_root, root_is_unique, rounded, rounded_quotient,
    rounded_root, rounding_is_nearest, scaled_length, spacing, spacing_grows, TWO_36, TWO_64,
    TWO_89, TWO_90,
};
use vstd::prelude::*;

verus! {

/// Rounding enlarges a number by at most one part in 2^53.
proof fn rounding_error(n: nat)
    ensures
        rounded(n) * 0x20_0000_0000_0000int <= n * 0x20_0000_0000_0001int,
        2 * rounded(n) >= n,
{
    rounding_is_nearest(n);
    spacing_grows(n, 1);
    let u = spacing(n, 1);
    if u == 1 {
        assert(n % 1 == 0);
        assert(n / 1 == n);
        assert(rounded(n) == n);
    }
}

/// Rounding lessens a number by at most one part in 2^53.
proof fn rounding_loss(n: nat)
    ensures
        n * 0x1f_ffff_ffff_ffffint <= rounded(n) * 0x20_0000_0000_0000int,
{
    rounding_is_nearest(n);
    spacing_grows(n, 1);
    let u = spacing(n, 1);
    if u == 1 {
        assert(n % 1 == 0);
        assert(n / 1 == n);
        assert(rounded(n) == n);
    }
}

/// A rounded quotient exceeds the exact one by at most two roundings.
proof fn quotient_error(a: nat, b: nat)
    requires
        0 < a,
        0 < b <= 0xffff_ffff,
    ensures
        (rounded_quotient(a, b) * b) * 0x400_0000_0000_0000_0000_0000_0000int <= a * 0x10_0000_0000_0001_0000_0000_0000_0400_0000_0000_0000_0000_0000int,
{
    let x = a * TWO_89 as nat;
    let whole = x / b;
    let rest: nat = if x % b == 0 {
        0
    } else {
        1
    };
    let n = 2 * whole + rest;
    rounding_error(n);
    vstd::arithmetic::div_mod::lemma_fundamental_div_mod(x as int, b as int);
    assert(n * b <= 2 * x + b) by (nonlinear_arith)
        requires
            n == 2 * whole + rest,
            rest <= 1,
            b * whole <= x,
    ;
    let q = rounded(n);
    assert((q * b) * 0x20_0000_0000_0000int <= (n * b) * 0x20_0000_0000_0001int) by (nonlinear_arith)
        requires
            q * 0x20_0000_0000_0000int <= n * 0x20_0000_0000_0001int,
            b >= 0,
    ;
}

/// A rounded square root exceeds the exact one by at most three roundings.
proof fn root_error(q: nat, r: nat)
    requires
        is_root(q * TWO_36 as nat, r),
        r > 0x20_0000_0000_0000int,
    ensures
        (rounded_root(q) * rounded_root(q)) * 0x8000_0000_0000_0000_0000_0000_0000_0000_0000_0000int <= q * 0x20_0000_0000_0003_0000_0000_0000_1800_0000_0000_0040_0000_0000int,
{
    let n = q * TWO_36 as nat;
    root_is_unique(n, r, integer_root(n));
    let rest: nat = if r * r == n {
        0
    } else {
        1
    };
    let m = 2 * r + rest;
    let s = rounded(m);
    rounding_error(m);
    assert((m * m) * 0x20_0000_0000_0000int <= n * 0x80_0000_0000_0004int) by (nonlinear_arith)
        requires
            m == 2 * r + rest,
            rest <= 1,
            r * r <= n,
            r > 0x20_0000_0000_0000int,
    ;
    assert((s * s) * 0x400_0000_0000_0000_0000_0000_0000int <= (m * m) * 0x400_0000_0000_0040_0000_0000_0001int) by (nonlinear_arith)
        requires
            s * 0x20_0000_0000_0000int <= m * 0x20_0000_0000_0001int,
            s >= 0,
            m >= 0,
    ;
}

/// The budgeted side, squared, exceeds its share of the budget by at most seven
/// roundings.
proof fn budgeted_side_error(longest: nat, budget: nat, area: nat)
    requires
        0x4_0000 <= budget < area <= 0xffff_ffff,
    ensures
        ({
            let side = budgeted_side(longest, budget, area);
            ((side * side) * area) * 0x8_0000_0000_0000_0000_0000_0000_0000_0000_0000_0000_0000_0000_0000_0000_0000_0000_0000_0000_0000_0000_0000_0000_0000int <= ((longest * longest) * budget) * 0x8_0000_0000_0001_c000_0000_0000_2a00_0000_0000_0230_0000_0000_0011_8000_0000_0000_5400_0000_0000_00e0_0000_0000_0001int
        }),
{
    let q = rounded_quotient(budget, area);
    quotient_error(budget, area);
    quotient_is_large(budget, area);
    let r = root_exists(q * TWO_36 as nat);
    assert(r > 0x20_0000_0000_0000int) by (nonlinear_arith)
        requires
            q * TWO_36 < (r + 1) * (r + 1),
            q >= 0x400_0000_0000_0000_0000int,
            TWO_36 == 0x10_0000_0000int,
    ;
    root_error(q, r);
    let s = rounded_root(q);
    let ls = longest * s;
    rounding_error(ls);
    let side = rounded(ls) / TWO_64 as nat;
    assert(side * TWO_64 <= rounded(ls));
    let s2 = s * s;
    let side2 = side * side;
    let long2 = longest * longest;
    assert((s2 * area) * 0x8000_0000_0000_0000_0000_0000_0000_0000_0000_0000int <= (q * area) * 0x20_0000_0000_0003_0000_0000_0000_1800_0000_0000_0040_0000_0000int) by (nonlinear_arith)
        requires
            s2 * 0x8000_0000_0000_0000_0000_0000_0000_0000_0000_0000int <= q * 0x20_0000_0000_0003_0000_0000_0000_1800_0000_0000_0040_0000_0000int,
    ;
    assert((s2 * area) * 0x200_0000_0000_0000_0000_0000_0000_0000_0000_0000_0000_0000_0000_0000_0000_0000_0000int <= budget * 0x200_0000_0000_0050_0000_0000_0005_0000_0000_0000_2800_0000_0000_00a0_0000_0000_0001_0000_0000_0000_0000_0000_0000_0000_0000int);
    assert(side2 * 0x400_0000_0000_0000_0000_0000_0000_0000_0000_0000_0000_0000_0000_0000_0000int <= (ls * ls) * 0x400_0000_0000_0040_0000_0000_0001int) by (nonlinear_arith)
        requires
            side * 0x20_0000_0000_0000_0000_0000_0000_0000int <= ls * 0x20_0000_0000_0001int,
            side2 == side * side,
    ;
    assert(ls * ls == long2 * s2) by (nonlinear_arith)
        requires
            ls == longest * s,
            long2 == longest * longest,
            s2 == s * s,
    ;
    assert((side2 * area) * 0x400_0000_0000_0000_0000_0000_0000_0000_0000_0000_0000_0000_0000_0000_0000int <= (long2 * (s2 * area)) * 0x400_0000_0000_0040_0000_0000_0001int) by (nonlinear_arith)
        requires
            side2 * 0x400_0000_0000_0000_0000_0000_0000_0000_0000_0000_0000_0000_0000_0000_0000int <= (long2 * s2) * 0x400_0000_0000_0040_0000_0000_0001int,
    ;
    assert((long2 * (s2 * area)) * 0x200_0000_0000_0000_0000_0000_0000_0000_0000_0000_0000_0000_0000_0000_0000_0000_0000int <= (long2 * budget) * 0x200_0000_0000_0050_0000_0000_0005_0000_0000_0000_2800_0000_0000_00a0_0000_0000_0001_0000_0000_0000_0000_0000_0000_0000_0000int) by (nonlinear_arith)
        requires
            (s2 * area) * 0x200_0000_0000_0000_0000_0000_0000_0000_0000_0000_0000_0000_0000_0000_0000_0000_0000int <= budget * 0x200_0000_0000_0050_0000_0000_0005_0000_0000_0000_2800_0000_0000_00a0_0000_0000_0001_0000_0000_0000_0000_0000_0000_0000_0000int,
    ;
}

/// A quotient of at least 2^-14 is not rounded to a small number.
proof fn quotient_is_large(a: nat, b: nat)
    requires
        0x4_0000 <= a,
        0 < b <= 0xffff_ffff,
    ensures
        rounded_quotient(a, b) >= 0x400_0000_0000_0000_0000int,
{
    let x = a * TWO_89 as nat;
    let whole = x / b;
    assert(whole >= 0x800_0000_0000_0000_0000int) by (nonlinear_arith)
        requires
            x == a * TWO_89,
            a >= 0x4_0000,
            0 < b <= 0xffff_ffff,
            whole == x / b,
            TWO_89 == 0x200_0000_0000_0000_0000_0000int,
    ;
    rounding_error(2 * whole);
    rounding_error(2 * whole + 1);
}

/// Every number has an integer square root.
proof fn root_exists(n: nat) -> (r: nat)
    ensures
        is_root(n, r),
    decreases n,
{
    if n == 0 {
        assert(is_root(0, 0)) by (nonlinear_arith);
        0
    } else {
        let r = root_exists((n - 1) as nat);
        if (r + 1) * (r + 1) <= n {
            let s = r + 1;
            assert(n < (s + 1) * (s + 1)) by (nonlinear_arith)
                requires
                    n - 1 < s * s,
                    s >= 0,
            ;
            s
        } else {
            r
        }
    }
}

/// A scaled length exceeds its share by at most three roundings.
proof fn fitted_side_error(len: nat, limit: nat, longest: nat)
    requires
        0 < limit < longest <= 0xffff_ffff,
    ensures
        ({
            let n = scaled_length(len, rounded_quotient(limit, longest), TWO_90 as nat);
            (n * longest) * 0x8000_0000_0000_0000_0000_0000_0000_0000_0000_0000int <= (len * limit) * 0x8000_0000_0000_0c00_0000_0000_0060_0000_0000_0001int
        }),
{
    let q = rounded_quotient(limit, longest);
    quotient_error(limit, longest);
    rounding_error(len * q);
    let lq = len * q;
    let n = rounded(lq) / TWO_90 as nat;
    assert(n * TWO_90 <= rounded(lq));
    assert(n * 0x8000_0000_0000_0000_0000_0000_0000_0000_0000int <= lq * 0x20_0000_0000_0001int);
    assert((n * longest) * 0x8000_0000_0000_0000_0000_0000_0000_0000_0000int <= (len * (q * longest)) * 0x20_0000_0000_0001int) by (nonlinear_arith)
        requires
            n * 0x8000_0000_0000_0000_0000_0000_0000_0000_0000int <= lq * 0x20_0000_0000_0001int,
            lq == len * q,
    ;
    assert((len * (q * longest)) * 0x400_0000_0000_0000_0000_0000_0000int <= (len * limit) * 0x10_0000_0000_0001_0000_0000_0000_0400_0000_0000_0000_0000_0000int) by (nonlinear_arith)
        requires
            (q * longest) * 0x400_0000_0000_0000_0000_0000_0000int <= limit * 0x10_0000_0000_0001_0000_0000_0000_0400_0000_0000_0000_0000_0000int,
    ;
}

/// A scaled length, rounded down, falls short of its share by at most one and a
/// fraction.
proof fn fitted_side_loss(len: nat, limit: nat, longest: nat)
    requires
        0 < limit < longest <= 0xffff_ffff,
    ensures
        ({
            let n = scaled_length(len, rounded_quotient(limit, longest), TWO_90 as nat);
            (len * limit) * 0x10_0000int <= ((n + 1) * longest) * 0x10_0000int + len
        }),
{
    let x = limit * TWO_89 as nat;
    let whole = x / longest;
    let rest: nat = if x % longest == 0 {
        0
    } else {
        1
    };
    let m = 2 * whole + rest;
    vstd::arithmetic::div_mod::lemma_fundamental_div_mod(x as int, longest as int);
    vstd::arithmetic::div_mod::lemma_mod_bound(x as int, longest as int);
    assert(m * longest + longest >= 2 * x) by (nonlinear_arith)
        requires
            m == 2 * whole + rest,
            x == longest * whole + x % longest,
            0 <= x % longest < longest,
            rest == (if x % longest == 0 {
                0nat
            } else {
                1nat
            }),
    ;
    let q = rounded_quotient(limit, longest);
    rounding_loss(m);
    assert((m * longest) * 0x1f_ffff_ffff_ffffint <= (q * longest) * 0x20_0000_0000_0000int) by (nonlinear_arith)
        requires
            m * 0x1f_ffff_ffff_ffffint <= q * 0x20_0000_0000_0000int,
            longest >= 0,
    ;
    let ql = q * longest;
    assert(limit * 0x7fff_ffff_ffff_fc00_0000_0000_0000_0000_0000int <= ql * 0x20_0000_0000_0000int
        + longest * 0x20_0000_0000_0000int);
    let lq = len * q;
    rounding_loss(lq);
    let n = rounded(lq) / TWO_90 as nat;
    assert(rounded(lq) < (n + 1) * TWO_90);
    assert(lq * 0x1f_ffff_ffff_ffffint <= (n + 1) * 0x8000_0000_0000_0000_0000_0000_0000_0000_0000int);
    assert((len * ql) * 0x1f_ffff_ffff_ffffint <= ((n + 1) * longest)
        * 0x8000_0000_0000_0000_0000_0000_0000_0000_0000int) by (nonlinear_arith)
        requires
            lq * 0x1f_ffff_ffff_ffffint <= (n + 1)
                * 0x8000_0000_0000_0000_0000_0000_0000_0000_0000int,
            lq == len * q,
            ql == q * longest,
            longest >= 0,
    ;
    assert((len * limit) * 0x7fff_ffff_ffff_fc00_0000_0000_0000_0000_0000int <= (len * ql)
        * 0x20_0000_0000_0000int + (len * longest) * 0x20_0000_0000_0000int) by (nonlinear_arith)
        requires
            limit * 0x7fff_ffff_ffff_fc00_0000_0000_0000_0000_0000int <= ql
                * 0x20_0000_0000_0000int + longest * 0x20_0000_0000_0000int,
            len >= 0,
    ;
    assert(len * limit <= len * 0xffff_ffffint && len * longest <= len * 0xffff_ffffint) by (nonlinear_arith)
        requires
            limit <= 0xffff_ffff,
            longest <= 0xffff_ffff,
            len >= 0,
    ;
}

/// One side's half of [`scaling_keeps_aspect`].
proof fn aspect_is_not_exceeded(w: nat, h: nat, limit: nat, longest: nat)
    requires
        0 < limit < longest <= 0xffff_ffff,
        w <= longest,
        h <= longest,
    ensures
        fitted_side(w, limit, longest) * h <= fitted_side(h, limit, longest) * w + w + h,
{
    let q = rounded_quotient(limit, longest);
    let aw = scaled_length(w, q, TWO_90 as nat);
    let ah = scaled_length(h, q, TWO_90 as nat);
    let nw = fitted_side(w, limit, longest);
    let nh = fitted_side(h, limit, longest);
    fitted_side_error(w, limit, longest);
    fitted_side_loss(h, limit, longest);
    if aw < 1 {
        assert(nw * h == h) by (nonlinear_arith)
            requires
                nw == 1,
        ;
        assert(nh * w >= 0) by (nonlinear_arith);
    } else {
        let wl = w * limit;
        assert(nw * longest <= aw * longest) by (nonlinear_arith)
            requires
                nw <= aw,
        ;
        assert(wl <= w * 0xffff_ffffint) by (nonlinear_arith)
            requires
                wl == w * limit,
                limit <= 0xffff_ffff,
        ;
        assert((nw * longest) * 0x10_0000int <= wl * 0x10_0000int + 2 * w);
        let hl = h * limit;
        assert(hl * 0x10_0000int <= ((nh + 1) * longest) * 0x10_0000int + h) by {
            if nh >= ah {
                assert((ah + 1) * longest <= (nh + 1) * longest) by (nonlinear_arith)
                    requires
                        ah <= nh,
                ;
            } else {
                assert(hl <= (nh + 1) * longest) by (nonlinear_arith)
                    requires
                        hl == h * limit,
                        h <= longest,
                        nh == limit,
                ;
            }
        }
        assert((nw * h * longest) * 0x10_0000int <= ((nh + 1) * w * longest) * 0x10_0000int + 3 * (w
            * h)) by (nonlinear_arith)
            requires
                (nw * longest) * 0x10_0000int <= wl * 0x10_0000int + 2 * w,
                hl * 0x10_0000int <= ((nh + 1) * longest) * 0x10_0000int + h,
                wl == w * limit,
                hl == h * limit,
                w >= 0,
                h >= 0,
        ;
        assert(w * h <= longest * h) by (nonlinear_arith)
            requires
                w <= longest,
        ;
        assert(nw * h <= (nh + 1) * w + h) by (nonlinear_arith)
            requires
                (nw * h * longest) * 0x10_0000int <= ((nh + 1) * w * longest) * 0x10_0000int + 3 * (
                longest * h),
                longest > 0,
                h >= 0,
        ;
        assert((nh + 1) * w == nh * w + w) by (nonlinear_arith);
    }
}

/// Scaling keeps the aspect ratio, up to the rounding of each side to a whole
/// number of pixels.
pub proof fn scaling_keeps_aspect(w: nat, h: nat, limit: nat, longest: nat)
    requires
        0 < limit < longest <= 0xffff_ffff,
        w <= longest,
        h <= longest,
    ensures
        fitted_side(w, limit, longest) * h <= fitted_side(h, limit, longest) * w + w + h,
        fitted_side(h, limit, longest) * w <= fitted_side(w, limit, longest) * h + w + h,
{
    aspect_is_not_exceeded(w, h, limit, longest);
    aspect_is_not_exceeded(h, w, limit, longest);
}

/// Scaling never lengthens a side, but for an empty one, which becomes one pixel.
pub proof fn fitted_side_shrinks(len: nat, limit: nat, longest: nat)
    requires
        0 < limit < longest <= 0xffff_ffff,
        len <= longest,
    ensures
        len > 0 ==> fitted_side(len, limit, longest) <= len,
        len == 0 ==> fitted_side(len, limit, longest) == 1,
{
    fitted_side_error(len, limit, longest);
    let n = scaled_length(len, rounded_quotient(limit, longest), TWO_90 as nat);
    if n > len {
        let p = len * longest;
        assert(n * longest >= p + longest) by (nonlinear_arith)
            requires
                n >= len + 1,
                p == len * longest,
        ;
        assert(len * limit <= p - len) by (nonlinear_arith)
            requires
                limit + 1 <= longest,
                p == len * longest,
        ;
        assert(p <= 0xffff_ffff * longest) by (nonlinear_arith)
            requires
                len <= 0xffff_ffff,
                p == len * longest,
        ;
    }
}

/// What is cut to the budgeted side, or shorter, fits the budget: both sides as
/// they come out of scaling, multiplied.
pub proof fn scaled_sides_fit_budget(long: nat, short: nat, budget: nat, side: nat)
    requires
        0x4_0000 <= budget <= 0x400_0000,
        0 < side < long <= 0xffff,
        short <= long,
        side == 1 || side <= budgeted_side(long, budget, long * short),
    ensures
        fitted_side(long, side, long) * fitted_side(short, side, long) <= budget,
{
    let n = scaled_length(short, rounded_quotient(side, long), TWO_90 as nat);
    let w = fitted_side(long, side, long);
    let h = fitted_side(short, side, long);
    assert(long * short <= 0xffff * 0xffff) by (nonlinear_arith)
        requires
            long <= 0xffff,
            short <= long,
    ;
    assert(w <= side && h <= side);
    if n <= 1 || side == 1 {
        assert(w * h <= side) by (nonlinear_arith)
            requires
                w <= side,
                h <= 1,
        ;
    } else {
        fitted_side_error(short, side, long);
        assert(w * h <= side * n) by (nonlinear_arith)
            requires
                w <= side,
                h <= n,
        ;
        let area = long * short;
        if area <= budget {
            assert(side * n <= area) by {
                assert(n <= short) by (nonlinear_arith)
                    requires
                        (n * long) * 0x8000_0000_0000_0000_0000_0000_0000_0000_0000_0000int <= (short * side) * 0x8000_0000_0000_0c00_0000_0000_0060_0000_0000_0001int,
                        side + 1 <= long,
                        0 < long <= 0xffff,
                        0 <= short <= long,
                ;
                assert(side * n <= long * short) by (nonlinear_arith)
                    requires
                        side <= long,
                        n <= short,
                ;
            }
        } else {
            budgeted_side_error(long, budget, area);
            let top = budgeted_side(long, budget, area);
            product_fits_budget(long, short, budget, side, top, n);
        }
    }
}

/// The bounds of [`budgeted_side_error`] and [`fitted_side_error`] together.
proof fn product_fits_budget(
    long: nat,
    short: nat,
    budget: nat,
    side: nat,
    top: nat,
    n: nat,
)
    requires
        long > 0,
        side <= top,
        budget <= 0x400_0000,
        ((top * top) * (long * short)) * 0x8_0000_0000_0000_0000_0000_0000_0000_0000_0000_0000_0000_0000_0000_0000_0000_0000_0000_0000_0000_0000_0000_0000_0000int <= ((long * long) * budget) * 0x8_0000_0000_0001_c000_0000_0000_2a00_0000_0000_0230_0000_0000_0011_8000_0000_0000_5400_0000_0000_00e0_0000_0000_0001int,
        (n * long) * 0x8000_0000_0000_0000_0000_0000_0000_0000_0000_0000int <= (short * side) * 0x8000_0000_0000_0c00_0000_0000_0060_0000_0000_0001int,
    ensures
        side * n <= budget,
{
    let top2 = top * top;
    assert((top2 * short) * 0x8_0000_0000_0000_0000_0000_0000_0000_0000_0000_0000_0000_0000_0000_0000_0000_0000_0000_0000_0000_0000_0000_0000_0000int <= (long * budget) * 0x8_0000_0000_0001_c000_0000_0000_2a00_0000_0000_0230_0000_0000_0011_8000_0000_0000_5400_0000_0000_00e0_0000_0000_0001int) by (nonlinear_arith)
        requires
            (top2 * (long * short)) * 0x8_0000_0000_0000_0000_0000_0000_0000_0000_0000_0000_0000_0000_0000_0000_0000_0000_0000_0000_0000_0000_0000_0000_0000int <= ((long * long) * budget) * 0x8_0000_0000_0001_c000_0000_0000_2a00_0000_0000_0230_0000_0000_0011_8000_0000_0000_5400_0000_0000_00e0_0000_0000_0001int,
            long > 0,
    ;
    assert((side * n * long) * 0x8000_0000_0000_0000_0000_0000_0000_0000_0000_0000int <= (short * (side * side)) * 0x8000_0000_0000_0c00_0000_0000_0060_0000_0000_0001int) by (nonlinear_arith)
        requires
            (n * long) * 0x8000_0000_0000_0000_0000_0000_0000_0000_0000_0000int <= (short * side) * 0x8000_0000_0000_0c00_0000_0000_0060_0000_0000_0001int,
            side >= 0,
    ;
    assert(short * (side * side) <= top2 * short) by (nonlinear_arith)
        requires
            0 <= side <= top,
            top2 == top * top,
            short >= 0,
    ;
    assert((side * n * long) * 0x4_0000_0000_0000_0000_0000_0000_0000_0000_0000_0000_0000_0000_0000_0000_0000_0000_0000_0000_0000_0000_0000_0000_0000_0000_0000_0000_0000_0000_0000_0000_0000_0000_0000int <= (long * budget) * 0x4_0000_0000_0001_4000_0000_0000_2d00_0000_0000_03c0_0000_0000_0034_8000_0000_0001_f800_0000_0000_0d20_0000_0000_003c_0000_0000_0000_b400_0000_0000_0140_0000_0000_0001int);
    assert((side * n) * 0x4_0000_0000_0000_0000_0000_0000_0000_0000_0000_0000_0000_0000_0000_0000_0000_0000_0000_0000_0000_0000_0000_0000_0000_0000_0000_0000_0000_0000_0000_0000_0000_0000_0000int <= budget * 0x4_0000_0000_0001_4000_0000_0000_2d00_0000_0000_03c0_0000_0000_0034_8000_0000_0001_f800_0000_0000_0d20_0000_0000_003c_0000_0000_0000_b400_0000_0000_0140_0000_0000_0001int) by (nonlinear_arith)
        requires
            (side * n * long) * 0x4_0000_0000_0000_0000_0000_0000_0000_0000_0000_0000_0000_0000_0000_0000_0000_0000_0000_0000_0000_0000_0000_0000_0000_0000_0000_0000_0000_0000_0000_0000_0000_0000_0000int <= (long * budget) * 0x4_0000_0000_0001_4000_0000_0000_2d00_0000_0000_03c0_0000_0000_0034_8000_0000_0001_f800_0000_0000_0d20_0000_0000_003c_0000_0000_0000_b400_0000_0000_0140_0000_0000_0001int,
            long > 0,
    ;
}

/// Where the budgeted side does not shorten the sides, the area fits the budget.
pub proof fn unscaled_area_fits_budget(long: nat, budget: nat, area: nat)
    requires
        0x4_0000 <= budget <= 0x400_0000,
        0 < long,
        area <= 0xffff_ffff,
        long <= budgeted_side(long, budget, area),
    ensures
        area <= budget,
{
    if area > budget {
        budgeted_side_error(long, budget, area);
        let top = budgeted_side(long, budget, area);
        assert(area * 0x8_0000_0000_0000_0000_0000_0000_0000_0000_0000_0000_0000_0000_0000_0000_0000_0000_0000_0000_0000_0000_0000_0000_0000int <= budget * 0x8_0000_0000_0001_c000_0000_0000_2a00_0000_0000_0230_0000_0000_0011_8000_0000_0000_5400_0000_0000_00e0_0000_0000_0001int) by (nonlinear_arith)
            requires
                ((top * top) * area) * 0x8_0000_0000_0000_0000_0000_0000_0000_0000_0000_0000_0000_0000_0000_0000_0000_0000_0000_0000_0000_0000_0000_0000_0000int <= ((long * long) * budget) * 0x8_0000_0000_0001_c000_0000_0000_2a00_0000_0000_0230_0000_0000_0011_8000_0000_0000_5400_0000_0000_00e0_0000_0000_0001int,
                0 < long <= top,
        ;
    }
}

/// The longest side is scaled to its limit, or just below it.
pub proof fn longest_side_meets_limit(limit: nat, longest: nat)
    requires
        0 < limit < longest <= 0xffff_ffff,
    ensures
        limit - 1 <= fitted_side(longest, limit, longest) <= limit,
{
    fitted_side_loss(longest, limit, longest);
    let n = scaled_length(longest, rounded_quotient(limit, longest), TWO_90 as nat);
    if n + 1 < limit {
        assert((n + 1) * longest + longest <= longest * limit) by (nonlinear_arith)
            requires
                n + 2 <= limit,
                longest > 0,
        ;
    }
}

/// Frames are scaled down no further than their budget asks for, up to one pixel and
/// one part in a thousand.
pub proof fn budget_is_used(longest: nat, budget: nat, area: nat)
    requires
        0x4_0000 <= budget < area <= 0xffff_ffff,
    ensures
        ({
            let side = budgeted_side(longest, budget, area);
            ((longest * longest) * budget) * 1023 <= (((side + 1) * (side + 1)) * area) * 1024
        }),
{
    let x = budget * TWO_89 as nat;
    let whole = x / area;
    let rest: nat = if x % area == 0 {
        0
    } else {
        1
    };
    let m = 2 * whole + rest;
    vstd::arithmetic::div_mod::lemma_fundamental_div_mod(x as int, area as int);
    vstd::arithmetic::div_mod::lemma_mod_bound(x as int, area as int);
    assert(m * area + area >= 2 * x) by (nonlinear_arith)
        requires
            m == 2 * whole + rest,
            x == area * whole + x % area,
            0 <= x % area < area,
            rest == (if x % area == 0 {
                0nat
            } else {
                1nat
            }),
    ;
    let q = rounded_quotient(budget, area);
    rounding_loss(m);
    quotient_is_large(budget, area);
    // q * area is at least budget * 2^90, less one part in 2^13.
    assert((q * area) * 8192 >= (budget * TWO_90) * 8191) by (nonlinear_arith)
        requires
            m * 0x1f_ffff_ffff_ffffint <= q * 0x20_0000_0000_0000int,
            m * area + area >= 2 * x,
            x == budget * TWO_89,
            2 * TWO_89 == TWO_90,
            TWO_90 == 0x400_0000_0000_0000_0000_0000,
            budget >= 0x4_0000,
            0 < area <= 0xffff_ffff,
    ;
    let n = q * TWO_36 as nat;
    let r = root_exists(n);
    root_is_unique(n, r, integer_root(n));
    let odd: nat = if r * r == n {
        0
    } else {
        1
    };
    let k = 2 * r + odd;
    let s = rounded(k);
    rounding_loss(k);
    assert(r > 0x20_0000_0000_0000int) by (nonlinear_arith)
        requires
            q * TWO_36 < (r + 1) * (r + 1),
            q >= 0x400_0000_0000_0000_0000int,
            TWO_36 == 0x10_0000_0000int,
    ;
    // s is at least 2 * sqrt(n), less one part in 2^13.
    assert(s * 8192 >= (k + 1) * 8191) by {
        assert(k >= 0x20_0000_0000_0000int);
    }
    assert((k + 1) * (k + 1) >= 4 * n) by (nonlinear_arith)
        requires
            k == 2 * r + odd,
            odd == (if r * r == n {
                0nat
            } else {
                1nat
            }),
            r * r <= n < (r + 1) * (r + 1),
    ;
    let ls = longest * s;
    rounding_loss(ls);
    let side = rounded(ls) / TWO_64 as nat;
    assert(rounded(ls) < (side + 1) * TWO_64);
    assert((side + 1) * TWO_64 * 8192 >= ls * 8191) by {
        assert(rounded(ls) * 0x20_0000_0000_0000int >= ls * 0x1f_ffff_ffff_ffffint);
    }
    let k1 = k + 1;
    let side1 = side + 1;
    // side1 * 2^64 is at least longest * k1, less two parts in 2^13.
    assert(side1 * TWO_64 * 4096 >= (longest * k1) * 4095) by (nonlinear_arith)
        requires
            side1 * TWO_64 * 8192 >= ls * 8191,
            ls == longest * s,
            s * 8192 >= k1 * 8191,
            longest >= 0,
    ;
    let a = side1 * TWO_64;
    let b = longest * k1;
    assert((a * a) * 2048 >= (b * b) * 2047) by (nonlinear_arith)
        requires
            a * 4096 >= b * 4095,
            a >= 0,
            b >= 0,
    ;
    let long2 = longest * longest;
    let side2 = side1 * side1;
    assert(a * a == side2 * (TWO_64 * TWO_64)) by (nonlinear_arith)
        requires
            a == side1 * TWO_64,
            side2 == side1 * side1,
    ;
    assert(b * b == long2 * (k1 * k1)) by (nonlinear_arith)
        requires
            b == longest * k1,
            long2 == longest * longest,
    ;
    assert(long2 * (k1 * k1) >= long2 * (4 * n)) by (nonlinear_arith)
        requires
            k1 * k1 >= 4 * n,
            long2 >= 0,
    ;
    assert(side2 * (TWO_64 * TWO_64) == side2 * 0x1_0000_0000_0000_0000_0000_0000_0000_0000int);
    assert(long2 * (4 * n) == (long2 * q) * 0x40_0000_0000int) by (nonlinear_arith)
        requires
            n == q * 0x10_0000_0000int,
    ;
    assert((long2 * q) * area * 8192 >= (long2 * budget) * 0x400_0000_0000_0000_0000_0000int * 8191)
        by (nonlinear_arith)
        requires
            (q * area) * 8192 >= (budget * TWO_90) * 8191,
            TWO_90 == 0x400_0000_0000_0000_0000_0000,
            long2 >= 0,
    ;
    let lq = long2 * q;
    assert(side2 * 0x1_0000_0000_0000_0000_0000_0000_0000_0000int * 2048 >= lq * 0x40_0000_0000int
        * 2047);
    assert((side2 * area) * 0x1_0000_0000_0000_0000_0000_0000_0000_0000int * 2048 >= (lq * area)
        * 0x40_0000_0000int * 2047) by (nonlinear_arith)
        requires
            side2 * 0x1_0000_0000_0000_0000_0000_0000_0000_0000int * 2048 >= lq * 0x40_0000_0000int
                * 2047,
            area >= 0,
    ;
}

/// A side shrinks in proportion to the longest one: it is at most two millionths of a pixel
/// longer than the exact proportion, unless it is a single pixel, and no more than that and
/// one pixel shorter, unless it is at the limit.
pub proof fn sides_shrink_in_proportion(len: nat, limit: nat, longest: nat)
    requires
        0 < limit < longest <= 0xffff_ffff,
        len <= longest,
    ensures
        ({
            let n = fitted_side(len, limit, longest);
            &&& 1 <= n <= limit
            &&& n > 1 ==> (n * longest) * 0x10_0000 <= (len * limit) * 0x10_0000 + 2 * len
            &&& n < limit ==> (len * limit) * 0x10_0000 <= ((n + 1) * longest) * 0x10_0000 + 2 * len
        }),
{
    fitted_side_error(len, limit, longest);
    fitted_side_loss(len, limit, longest);
    let m = scaled_length(len, rounded_quotient(limit, longest), TWO_90 as nat);
    let n = fitted_side(len, limit, longest);
    assert(len * limit <= len * 0xffff_ffff) by (nonlinear_arith)
        requires
            limit <= 0xffff_ffff,
    ;
    if n > 1 {
        assert(n * longest <= m * longest) by (nonlinear_arith)
            requires
                n <= m,
        ;
    }
    if n < limit {
        assert((m + 1) * longest <= (n + 1) * longest) by (nonlinear_arith)
            requires
                m <= n,
        ;
    }
}

} // verus!
