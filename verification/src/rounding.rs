//! Sizes that follow binary floating-point arithmetic with 53 significant bits,
//! computed exactly with integers in fixed-point units.

use vstd::prelude::*;

verus! {

/// Two to the power of 53: a significand is smaller than this.
pub const SIGNIFICANDS: u128 = 0x20_0000_0000_0000;

/// Two to the power of 36, 64, 89 and 90.
pub const TWO_36: u128 = 0x10_0000_0000;

pub const TWO_64: u128 = 0x1_0000_0000_0000_0000;

pub const TWO_89: u128 = 0x200_0000_0000_0000_0000_0000;

pub const TWO_90: u128 = 0x400_0000_0000_0000_0000_0000;

/// The spacing of representable numbers around `n`, at least `u`: the smallest
/// doubling of `u` of which `n` holds fewer than 2^53.
pub open spec fn spacing(n: nat, u: nat) -> nat
    decreases n - u,
{
    if u == 0 || n / u < SIGNIFICANDS {
        u
    } else {
        proof {
            assert(2 * u <= n) by (nonlinear_arith)
                requires
                    u > 0,
                    n / u >= 0x20_0000_0000_0000,
            ;
        }
        spacing(n, 2 * u)
    }
}

/// `n` rounded to 53 significant bits: to the nearest multiple of the spacing,
/// and halfway to the even one.
pub open spec fn rounded(n: nat) -> nat {
    let u = spacing(n, 1);
    let q = n / u;
    let r = n % u;
    if 2 * r > u || (2 * r == u && q % 2 == 1) {
        (q + 1) * u
    } else {
        q * u
    }
}

/// The quotient `a / b`, rounded to 53 significant bits, in units of 2^-90; for
/// `0 < a < b < 2^32`. The last bit before rounding stands for the whole rest of
/// the division.
pub open spec fn rounded_quotient(a: nat, b: nat) -> nat {
    let x = a * TWO_89 as nat;
    rounded(
        2 * (x / b) + if x % b == 0 {
            0nat
        } else {
            1nat
        },
    )
}

/// Whether `r` is the integer part of the square root of `n`.
pub open spec fn is_root(n: nat, r: nat) -> bool {
    r * r <= n < (r + 1) * (r + 1)
}

pub open spec fn integer_root(n: nat) -> nat {
    choose|r: nat| is_root(n, r)
}

/// The square root of `q`, given in units of 2^-90, rounded to 53 significant
/// bits, in units of 2^-64; for a `q` below one and not smaller than 2^-18.
pub open spec fn rounded_root(q: nat) -> nat {
    let n = q * TWO_36 as nat;
    let r = integer_root(n);
    rounded(
        2 * r + if r * r == n {
            0nat
        } else {
            1nat
        },
    )
}

/// `len * scale`, rounded to 53 significant bits and then down to an integer;
/// `scale` is given in units of one part in `unit`.
pub open spec fn scaled_length(len: nat, scale: nat, unit: nat) -> nat {
    rounded(len * scale) / unit
}

/// Rounding moves a number by at most half the spacing, onto a multiple of it.
pub proof fn rounding_is_nearest(n: nat)
    ensures
        spacing(n, 1) > 0,
        rounded(n) % spacing(n, 1) == 0,
        2 * rounded(n) <= 2 * n + spacing(n, 1),
        2 * n <= 2 * rounded(n) + spacing(n, 1),
{
    spacing_grows(n, 1);
    let u = spacing(n, 1);
    let q = n / u;
    let r = n % u;
    vstd::arithmetic::div_mod::lemma_fundamental_div_mod(n as int, u as int);
    assert(r < u) by (nonlinear_arith)
        requires
            u > 0,
            r == n % u,
    ;
    assert(u * q == q * u) by (nonlinear_arith);
    assert((q + 1) * u == q * u + u) by (nonlinear_arith);
    vstd::arithmetic::div_mod::lemma_mod_multiples_basic(q as int, u as int);
    vstd::arithmetic::div_mod::lemma_mod_multiples_basic((q + 1) as int, u as int);
}

/// Where the spacing is not the least one, the number holds at least 2^52 of it.
pub proof fn spacing_grows(n: nat, u: nat)
    requires
        u > 0,
    ensures
        spacing(n, u) >= u,
        n / spacing(n, u) < SIGNIFICANDS,
        spacing(n, u) == u || spacing(n, u) * 0x10_0000_0000_0000 <= n,
    decreases n - u,
{
    if n / u >= SIGNIFICANDS {
        assert(2 * u <= n && u * 0x20_0000_0000_0000 <= n) by (nonlinear_arith)
            requires
                u > 0,
                n / u >= 0x20_0000_0000_0000,
        ;
        spacing_grows(n, 2 * u);
    }
}

/// There is only one integer square root.
pub proof fn root_is_unique(n: nat, r: nat, s: nat)
    requires
        is_root(n, r),
        is_root(n, s),
    ensures
        r == s,
{
    if r < s {
        assert((r + 1) * (r + 1) <= s * s) by (nonlinear_arith)
            requires
                r + 1 <= s,
        ;
    } else if s < r {
        assert((s + 1) * (s + 1) <= r * r) by (nonlinear_arith)
            requires
                s + 1 <= r,
        ;
    }
}

/// Round to 53 significant bits.
fn round53(n: u128) -> (r: u128)
    requires
        n <= 0x4000_0000_0000_0000_0000_0000_0000_0000,
    ensures
        r == rounded(n as nat),
        r <= 2 * n,
{
    let mut u: u128 = 1;
    while n / u >= SIGNIFICANDS
        invariant
            u > 0,
            n <= 0x4000_0000_0000_0000_0000_0000_0000_0000,
            u == 1 || u <= n,
            spacing(n as nat, 1) == spacing(n as nat, u as nat),
        decreases n - u,
    {
        assert(2 * u <= n) by (nonlinear_arith)
            requires
                u > 0,
                n / u >= 0x20_0000_0000_0000,
        ;
        u = 2 * u;
    }
    let q: u128 = n / u;
    let r: u128 = n % u;
    proof {
        rounding_is_nearest(n as nat);
        vstd::arithmetic::div_mod::lemma_fundamental_div_mod(n as int, u as int);
        assert(u * q == q * u) by (nonlinear_arith);
        assert((q + 1) * u == q * u + u) by (nonlinear_arith);
        if n == 0 {
            assert(q == 0 && r == 0) by (nonlinear_arith)
                requires
                    u > 0,
                    n == 0,
                    q == n / u,
                    r == n % u,
            ;
        }
    }
    if 2 * r > u || (2 * r == u && q % 2 == 1) {
        (q + 1) * u
    } else {
        q * u
    }
}

/// The rounded quotient `a / b` in units of 2^-90.
fn quotient(a: u32, b: u32) -> (r: u128)
    requires
        0 < a < b,
    ensures
        r == rounded_quotient(a as nat, b as nat),
        r <= 2 * TWO_90,
{
    let x: u128 = a as u128 * TWO_89;
    let d: u128 = b as u128;
    let whole: u128 = x / d;
    assert(whole < TWO_89) by (nonlinear_arith)
        requires
            x == a * 0x200_0000_0000_0000_0000_0000,
            0 < a < d,
            whole == x / d,
            TWO_89 == 0x200_0000_0000_0000_0000_0000,
    ;
    let rest: u128 = if x % d == 0 {
        0
    } else {
        1
    };
    round53(2 * whole + rest)
}

/// The integer part of the square root of `n`.
fn root(n: u128) -> (r: u128)
    requires
        n < 0x4000_0000_0000_0000_0000_0000_0000_0000,
    ensures
        is_root(n as nat, r as nat),
        r == integer_root(n as nat),
        r < TWO_64,
{
    let mut lo: u128 = 0;
    let mut hi: u128 = 0x8000_0000_0000_0000;
    while hi - lo > 1
        invariant
            lo < hi <= 0x8000_0000_0000_0000,
            lo * lo <= n < hi * hi,
        decreases hi - lo,
    {
        let mid: u128 = lo + (hi - lo) / 2;
        assert(0 <= mid * mid <= 0x4000_0000_0000_0000_0000_0000_0000_0000) by (nonlinear_arith)
            requires
                mid <= 0x8000_0000_0000_0000,
        ;
        if mid * mid <= n {
            lo = mid;
        } else {
            hi = mid;
        }
    }
    assert(hi == lo + 1);
    assert(is_root(n as nat, lo as nat));
    proof {
        root_is_unique(n as nat, lo as nat, integer_root(n as nat));
    }
    lo
}

/// The rounded square root of `q`, given in units of 2^-90, in units of 2^-64.
fn square_root(q: u128) -> (r: u128)
    requires
        q < TWO_90,
    ensures
        r == rounded_root(q as nat),
        r <= 4 * TWO_64 + 2,
{
    let n: u128 = q * TWO_36;
    let whole: u128 = root(n);
    assert(whole * whole < TWO_64 * TWO_64) by (nonlinear_arith)
        requires
            whole < TWO_64,
    ;
    let rest: u128 = if whole * whole == n {
        0
    } else {
        1
    };
    round53(2 * whole + rest)
}

/// One side of an image that is scaled down so that its longest side, `longest`,
/// fits `limit`.
pub open spec fn fitted_side(len: nat, limit: nat, longest: nat) -> nat {
    let n = scaled_length(len, rounded_quotient(limit, longest), TWO_90 as nat);
    if n < 1 {
        1
    } else if n > limit {
        limit
    } else {
        n
    }
}

pub fn fit_side(len: u32, limit: u32, longest: u32) -> (r: u32)
    requires
        0 < limit < longest,
        len <= longest,
    ensures
        r == fitted_side(len as nat, limit as nat, longest as nat),
        1 <= r <= limit,
{
    let scale: u128 = quotient(limit, longest);
    let product: u128 = {
        assert(len * scale <= 0x1_0000_0000 * (2 * TWO_90)) by (nonlinear_arith)
            requires
                len <= 0xffff_ffff,
                scale <= 2 * TWO_90,
        ;
        len as u128 * scale
    };
    let n: u128 = round53(product) / TWO_90;
    if n < 1 {
        1
    } else if n > limit as u128 {
        limit
    } else {
        n as u32
    }
}

/// The longest side of an animation's frames, scaled down by the square root of
/// `budget / area` where the area exceeds the budget.
pub open spec fn budgeted_side(longest: nat, budget: nat, area: nat) -> nat {
    if area <= budget {
        longest
    } else {
        scaled_length(longest, rounded_root(rounded_quotient(budget, area)), TWO_64 as nat)
    }
}

/// A quotient below one is rounded to a number below one.
proof fn quotient_below_one(a: nat, b: nat)
    requires
        0 < a < b <= 0xffff_ffff,
    ensures
        rounded_quotient(a, b) < TWO_90,
{
    let x = a * TWO_89 as nat;
    let whole = x / b;
    let rest: nat = if x % b == 0 {
        0
    } else {
        1
    };
    let n = 2 * whole + rest;
    // a / b is at most one less than a part in b, and b is below 2^32.
    assert(whole * 0x1_0000_0000 + TWO_89 <= TWO_89 * 0x1_0000_0000) by (nonlinear_arith)
        requires
            x == a * TWO_89 as nat,
            0 < a < b <= 0xffff_ffff,
            whole == x / b,
            TWO_89 == 0x200_0000_0000_0000_0000_0000,
    ;
    spacing_grows(n, 1);
    rounding_is_nearest(n);
    let u = spacing(n, 1);
    if u > 1 {
        assert(u * 0x10_0000_0000_0000 <= n);
        assert(u <= 0x40_0000_0000) by (nonlinear_arith)
            requires
                u * 0x10_0000_0000_0000 <= n,
                n <= 0x400_0000_0000_0000_0000_0000,
        ;
    }
    assert(rounded(n) < TWO_90);
}

pub fn budget_side(longest: u32, budget: u32, area: u32) -> (r: u32)
    requires
        budget > 0,
        longest <= 0xffff,
    ensures
        r == budgeted_side(longest as nat, budget as nat, area as nat),
{
    if area <= budget {
        return longest;
    }
    let ratio: u128 = quotient(budget, area);
    proof {
        quotient_below_one(budget as nat, area as nat);
    }
    let scale: u128 = square_root(ratio);
    assert(longest * scale <= 0x1_0000 * (4 * TWO_64 + 2)) by (nonlinear_arith)
        requires
            longest <= 0xffff,
            scale <= 4 * TWO_64 + 2,
    ;
    let n: u128 = round53(longest as u128 * scale) / TWO_64;
    n as u32
}

} // verus!
