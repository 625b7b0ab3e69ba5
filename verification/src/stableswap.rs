//! The low-slippage curve for two assets of equal value.
//!
//! For reserves `x`, `y` and amplification `a` the curve is
//! `4a(x + y) + D = 4aD + D^3 / (4xy)`. `D` is the total the pool would
//! hold if both sides had the same price. Neither `D` nor a reserve has a
//! closed form, so both are found by Newton's method with a fixed number
//! of steps. The steps are taken in exact arithmetic on amounts scaled by
//! [`UNIT`], and the result is rounded to the nearest whole amount.
use crate::u256::{limit, U256};
use crate::wide::Wide;
use vstd::arithmetic::div_mod::{lemma_fundamental_div_mod, lemma_fundamental_div_mod_converse};
use vstd::prelude::*;

verus! {

/// Newton steps taken to find `D`.
pub const D_NM_MAX_ITERS: u64 = 8;

/// Newton steps taken to find a reserve once the search had to be restarted
/// at the floor.
pub const DY_NM_MAX_ITERS: u64 = 8;

/// Newton steps taken to find a reserve when the search stays above the floor.
pub const DY_NM_EXP_ITERS: u64 = 4;

/// The amplification of the pools of this crate.
pub const STABLESWAP_AMP_COEFFICIENT: u64 = 5;

/// The solver works on amounts multiplied by `UNIT`, that is with 16 binary
/// places behind the point.
pub const UNIT: u64 = 65536;

/// The curve's residual at the candidate `d`, multiplied by `p = 4xy`, for
/// `s = x + y`. It is zero where `d` is the curve's `D`, positive below it
/// and negative above.
pub open spec fn d_residual(s: int, p: int, a: int, d: int) -> int {
    p * (4 * a * (s - d) + d) - d * d * d
}

/// `n / m` rounded up, for `m > 0`.
pub open spec fn ceil_div(n: int, m: int) -> int {
    (n + m - 1) / m
}

/// One Newton step for `D` from the candidate `d`, rounded up.
pub open spec fn d_step(s: int, p: int, a: int, d: int) -> int {
    ceil_div(2 * (d * d * d) + 4 * a * (s * p), (4 * a - 1) * p + 3 * (d * d))
}

/// The candidate for `D` after `k` Newton steps from `s`.
pub open spec fn d_iterate(s: int, p: int, a: int, k: nat) -> int
    decreases k,
{
    if k == 0 {
        s
    } else {
        d_step(s, p, a, d_iterate(s, p, a, (k - 1) as nat))
    }
}

/// A scaled amount rounded to the nearest whole amount, halves upwards.
pub open spec fn round_unit(v: int) -> int {
    (v + 32768) / 65536
}

/// What [`calc_d`] returns.
pub open spec fn spec_calc_d(x: u64, y: u64, a: u64) -> Option<u64> {
    if x == 0 || y == 0 {
        Some(0u64)
    } else {
        let s = (x + y) * 65536;
        let p = 4 * ((x * 65536) * (y * 65536));
        let d = round_unit(d_iterate(s, p, a as int, 8));
        if d > u64::MAX {
            None
        } else {
            Some(d as u64)
        }
    }
}

/// One Newton step for the reserve `y` that balances the reserve `x` on
/// the curve of `d`, rounded down: `y - f(y) / f'(y)` for
/// `f(y) = 4a(x + y - d) + d - d^3 / (4xy)`, written as one fraction over
/// `16axy^2 + d^3`.
pub open spec fn y_step(x: int, d: int, a: int, y: int) -> int {
    (y * (2 * (d * d * d) + 16 * (a * (x * d)) * y - 4 * (x * (4 * (a * x) + d)) * y)) / (16 * (a
        * x) * y * y + d * d * d)
}

/// The state of the search for a reserve.
pub struct DyState {
    /// The candidate reserve, scaled.
    pub y: int,
    /// Whether a step fell below the floor and was put back on it.
    pub restarted: bool,
    /// How far the last step moved the candidate, before it was put back.
    pub last_move: int,
}

/// The state after one more step.
pub open spec fn dy_next(x: int, d: int, a: int, y_min: int, st: DyState) -> DyState {
    let raw = y_step(x, d, a, st.y);
    DyState {
        y: if raw < y_min {
            y_min
        } else {
            raw
        },
        restarted: st.restarted || raw < y_min,
        last_move: st.y - raw,
    }
}

/// The state after the first `k` rounds. A round past the fourth takes a
/// step only if the search was restarted at the floor.
pub open spec fn dy_run(x: int, d: int, a: int, y_min: int, y0: int, k: nat) -> DyState
    decreases k,
{
    if k == 0 {
        DyState { y: y0, restarted: false, last_move: 0 }
    } else {
        let prev = dy_run(x, d, a, y_min, y0, (k - 1) as nat);
        if k > 4 && !prev.restarted {
            prev
        } else {
            dy_next(x, d, a, y_min, prev)
        }
    }
}

/// What [`calc_dy`] returns.
pub open spec fn spec_calc_dy(x: u64, y: u64, a: u64, d: u64, dx: u64) -> Option<u64> {
    if dx >= x {
        None
    } else if (d == 0 && a == 0) || (y == 0 && dx == 0) {
        Some(0u64)
    } else {
        let st = dy_run(
            (x - dx) * 65536,
            d * 65536,
            a as int,
            (y + 1) * 65536,
            (y + dx) * 65536,
            8,
        );
        if st.last_move > 65536 || st.last_move < -65536 {
            None
        } else if st.y > u64::MAX * 65536 {
            None
        } else {
            Some(round_unit(st.y - y * 65536) as u64)
        }
    }
}

/// `10^n`.
pub open spec fn pow10(n: nat) -> nat
    decreases n,
{
    if n == 0 {
        1
    } else {
        10 * pow10((n - 1) as nat)
    }
}

/// What [`get_token_decs_fac`] returns.
pub open spec fn spec_token_decs_fac(base_decimals: u8, quote_decimals: u8) -> Option<(u64, u64)> {
    if base_decimals > quote_decimals {
        let f = pow10((base_decimals - quote_decimals) as nat);
        if f > u64::MAX {
            None
        } else {
            Some((1u64, f as u64))
        }
    } else {
        let f = pow10((quote_decimals - base_decimals) as nat);
        if f > u64::MAX {
            None
        } else {
            Some((f as u64, 1u64))
        }
    }
}

/// What [`normalize_decimals`] returns.
pub open spec fn spec_normalize_decimals(
    coin_amount: u64,
    coin_decimals: u8,
    pc_amount: u64,
    pc_decimals: u8,
) -> Option<(u64, u64)> {
    match spec_token_decs_fac(coin_decimals, pc_decimals) {
        None => None,
        Some((coin_fac, pc_fac)) => if coin_amount * coin_fac > u64::MAX || pc_amount * pc_fac
            > u64::MAX {
            None
        } else {
            Some(((coin_amount * coin_fac) as u64, (pc_amount * pc_fac) as u64))
        },
    }
}

/// The share tokens due for a deposit that moves the balanced value of the
/// pool from `d_0` to `d_1`.
pub open spec fn spec_lp_for_growth(lp_mint_supply: u64, d_0: u64, d_1: u64) -> Option<u64> {
    if lp_mint_supply == 0 {
        Some(d_1)
    } else if d_1 < d_0 {
        None
    } else if d_0 == 0 {
        None
    } else if lp_mint_supply * (d_1 - d_0) / (d_0 as int) > u64::MAX {
        None
    } else {
        Some((lp_mint_supply * (d_1 - d_0) / (d_0 as int)) as u64)
    }
}

/// What [`calculate_stableswap_lp_minted`] returns.
pub open spec fn spec_stableswap_lp_minted(
    lp_mint_supply: u64,
    reserve_base_amount: u64,
    reserve_quote_amount: u64,
    deposit_base_amount: u64,
    deposit_quote_amount: u64,
    base_decimals: u8,
    quote_decimals: u8,
) -> Option<u64> {
    match (
        spec_normalize_decimals(
            reserve_base_amount,
            base_decimals,
            reserve_quote_amount,
            quote_decimals,
        ),
        spec_normalize_decimals(
            deposit_base_amount,
            base_decimals,
            deposit_quote_amount,
            quote_decimals,
        ),
    ) {
        (Some((rb, rq)), Some((db, dq))) => if rb + db > u64::MAX || rq + dq > u64::MAX {
            None
        } else {
            match (
                spec_calc_d(rb, rq, STABLESWAP_AMP_COEFFICIENT),
                spec_calc_d((rb + db) as u64, (rq + dq) as u64, STABLESWAP_AMP_COEFFICIENT),
            ) {
                (Some(d_0), Some(d_1)) => spec_lp_for_growth(lp_mint_supply, d_0, d_1),
                _ => None,
            }
        },
        _ => None,
    }
}

proof fn lemma_residual_monomials(s: int, p: int, a: int, d: int)
    by (nonlinear_arith)
    ensures
        d_residual(s, p, a, d) == 4 * (a * (s * p)) - 4 * (a * (p * d)) + p * d - d * d * d,
{
}

proof fn lemma_step_numerator(s: int, p: int, a: int, d: int)
    by (nonlinear_arith)
    ensures
        2 * (d * d * d) + 4 * a * (s * p) == 2 * (d * d * d) + 4 * (a * (s * p)),
{
}

proof fn lemma_step_denominator_times(p: int, a: int, d: int, q: int)
    by (nonlinear_arith)
    ensures
        ((4 * a - 1) * p + 3 * (d * d)) * q == 4 * (a * (p * q)) - p * q + 3 * ((d * d) * q),
{
}

proof fn lemma_cube_gap(q: int, d: int)
    by (nonlinear_arith)
    ensures
        (q - d) * (q - d) * (q + 2 * d) == q * q * q - 3 * ((d * d) * q) + 2 * (d * d * d),
        (d * d) * d == d * d * d,
{
}

proof fn lemma_cube_gap_sign(q: int, d: int)
    by (nonlinear_arith)
    requires
        q >= 0,
        d >= 0,
    ensures
        (q - d) * (q - d) * (q + 2 * d) >= 0,
{
}

proof fn lemma_scale_product(x: int, y: int, c: int)
    by (nonlinear_arith)
    ensures
        (x * c) * (y * c) == (c * c) * (x * y),
{
}

proof fn lemma_scale_monomials(s: int, p: int, a: int, f: int, c: int)
    by (nonlinear_arith)
    ensures
        a * ((s * c) * ((c * c) * p)) == (c * c * c) * (a * (s * p)),
        a * (((c * c) * p) * (f * c)) == (c * c * c) * (a * (p * f)),
        ((c * c) * p) * (f * c) == (c * c * c) * (p * f),
        (f * c) * (f * c) * (f * c) == (c * c * c) * (f * f * f),
{
}

proof fn lemma_ceil_div(n: int, m: int)
    requires
        m > 0,
    ensures
        ceil_div(n, m) * m >= n,
        (ceil_div(n, m) - 1) * m < n,
{
    let q = ceil_div(n, m);
    lemma_fundamental_div_mod(n + m - 1, m);
    assert(m * q + (n + m - 1) % m == n + m - 1);
    assert(q * m == m * q) by (nonlinear_arith);
    assert((q - 1) * m == q * m - m) by (nonlinear_arith);
}

/// The step for `D` is Newton's: with `f(d)` the residual, whose slope is
/// `-((4a - 1)p + 3d^2)`, the fraction that [`d_step`] rounds is
/// `d - f(d) / f'(d)`.
pub proof fn lemma_d_step_is_newton(s: int, p: int, a: int, d: int)
    ensures
        2 * (d * d * d) + 4 * a * (s * p) == d * ((4 * a - 1) * p + 3 * (d * d)) + d_residual(
            s,
            p,
            a,
            d,
        ),
{
    lemma_residual_monomials(s, p, a, d);
    lemma_step_numerator(s, p, a, d);
    lemma_step_denominator_times(p, a, d, d);
    lemma_cube_gap(d, d);
    assert(d * ((4 * a - 1) * p + 3 * (d * d)) == ((4 * a - 1) * p + 3 * (d * d)) * d)
        by (nonlinear_arith);
}

/// The step for a reserve is Newton's: with
/// `f(y) = 4a(x + y - d) + d - d^3 / (4xy)`, both `f` and its slope taken
/// times `4xy^2`, the fraction that [`y_step`] rounds is `y - f(y) / f'(y)`.
pub proof fn lemma_y_step_is_newton(x: int, d: int, a: int, y: int)
    ensures
        y * (2 * (d * d * d) + 16 * (a * (x * d)) * y - 4 * (x * (4 * (a * x) + d)) * y) == y * (16
            * (a * x) * y * y + d * d * d) - (4 * (x * (y * y)) * (4 * a * (x + y - d) + d) - d * d
            * d * y),
{
    let d3 = d * d * d;
    let axd = a * (x * d);
    let ax = a * x;
    let yy = y * y;
    // left side, monomial by monomial
    assert(y * (2 * d3 + 16 * axd * y - 4 * (x * (4 * ax + d)) * y) == 2 * (d3 * y) + 16 * (axd
        * yy) - 16 * ((x * ax) * yy) - 4 * ((x * d) * yy)) by (nonlinear_arith)
        requires
            yy == y * y,
    ;
    // right side
    assert(y * (16 * ax * y * y + d3) == 16 * (ax * (yy * y)) + d3 * y) by (nonlinear_arith)
        requires
            yy == y * y,
    ;
    let t = x * yy;
    let w = x + y - d;
    assert(4 * t * (4 * a * w + d) == 16 * (a * (t * w)) + 4 * (t * d)) by (nonlinear_arith);
    assert(t * w == t * x + t * y - t * d) by (nonlinear_arith)
        requires
            w == x + y - d,
    ;
    assert(a * (t * x + t * y - t * d) == a * (t * x) + a * (t * y) - a * (t * d))
        by (nonlinear_arith);
    assert(a * (t * x) == (x * ax) * yy) by (nonlinear_arith)
        requires
            t == x * yy,
            ax == a * x,
    ;
    assert(a * (t * y) == ax * (yy * y)) by (nonlinear_arith)
        requires
            t == x * yy,
            ax == a * x,
    ;
    assert(a * (t * d) == axd * yy) by (nonlinear_arith)
        requires
            t == x * yy,
            axd == a * (x * d),
    ;
    assert(t * d == (x * d) * yy) by (nonlinear_arith)
        requires
            t == x * yy,
    ;
}

/// A Newton step from a candidate at or above `D` does not rise, and does
/// not fall below `D`.
pub proof fn lemma_d_step(s: int, p: int, a: int, d: int)
    requires
        s >= 0,
        p > 0,
        a >= 0,
        d > 0,
        d_residual(s, p, a, d) <= 0,
    ensures
        (4 * a - 1) * p + 3 * (d * d) > 0,
        1 <= d_step(s, p, a, d) <= d,
        d_residual(s, p, a, d_step(s, p, a, d)) <= 0,
{
    let m = (4 * a - 1) * p + 3 * (d * d);
    let n = 2 * (d * d * d) + 4 * a * (s * p);
    let q = d_step(s, p, a, d);
    lemma_residual_monomials(s, p, a, d);
    lemma_step_numerator(s, p, a, d);
    lemma_step_denominator_times(p, a, d, d);
    lemma_cube_gap(d, d);
    assert(d * d > 0) by (nonlinear_arith)
        requires
            d > 0,
    ;
    assert(d * d * d > 0) by (nonlinear_arith)
        requires
            d > 0,
    ;
    assert(a * (s * p) >= 0) by (nonlinear_arith)
        requires
            a >= 0,
            s >= 0,
            p > 0,
    ;
    assert(n - m * d == d_residual(s, p, a, d));
    assert(n >= 1);
    assert(m * d >= 1);
    assert(m > 0) by (nonlinear_arith)
        requires
            m * d >= 1,
            d > 0,
    ;
    lemma_ceil_div(n, m);
    assert(q * m >= n);
    assert((q - 1) * m < n);
    assert(q >= 1) by (nonlinear_arith)
        requires
            q * m >= n,
            n >= 1,
            m > 0,
    ;
    assert(q <= d) by (nonlinear_arith)
        requires
            (q - 1) * m < n,
            n <= m * d,
            m > 0,
    ;
    lemma_residual_monomials(s, p, a, q);
    lemma_step_denominator_times(p, a, d, q);
    lemma_cube_gap(q, d);
    lemma_cube_gap_sign(q, d);
    assert(m * q == q * m) by (nonlinear_arith);
    assert(d_residual(s, p, a, q) == n - m * q - (q - d) * (q - d) * (q + 2 * d));
}

/// Every candidate of the search for `D` lies between `D` and `s`, and
/// the candidates do not rise.
pub proof fn lemma_d_iterate(s: int, p: int, a: int, k: nat)
    requires
        s > 0,
        p > 0,
        a >= 0,
        p <= s * s,
    ensures
        1 <= d_iterate(s, p, a, k) <= s,
        d_residual(s, p, a, d_iterate(s, p, a, k)) <= 0,
        k > 0 ==> d_iterate(s, p, a, k) <= d_iterate(s, p, a, (k - 1) as nat),
    decreases k,
{
    if k == 0 {
        assert(d_residual(s, p, a, s) == s * (p - s * s)) by (nonlinear_arith)
            requires
                d_residual(s, p, a, s) == p * (4 * a * (s - s) + s) - s * s * s,
        ;
        assert(s * (p - s * s) <= 0) by (nonlinear_arith)
            requires
                s > 0,
                p <= s * s,
        ;
    } else {
        lemma_d_iterate(s, p, a, (k - 1) as nat);
        lemma_d_step(s, p, a, d_iterate(s, p, a, (k - 1) as nat));
    }
}

/// Once a step leaves the candidate where it is, all later steps do.
pub proof fn lemma_d_settled(s: int, p: int, a: int, k: nat, j: nat)
    requires
        j >= k,
        d_iterate(s, p, a, k + 1) == d_iterate(s, p, a, k),
    ensures
        d_iterate(s, p, a, j) == d_iterate(s, p, a, k),
    decreases j,
{
    if j > k {
        lemma_d_settled(s, p, a, k, (j - 1) as nat);
    }
}

/// Above a candidate `lo >= 1` whose residual is not positive, the residual
/// is negative.
proof fn lemma_residual_falls(s: int, p: int, a: int, lo: int, hi: int)
    requires
        p > 0,
        a >= 0,
        1 <= lo < hi,
        d_residual(s, p, a, lo) <= 0,
    ensures
        d_residual(s, p, a, hi) < 0,
{
    lemma_residual_monomials(s, p, a, lo);
    lemma_residual_monomials(s, p, a, hi);
    let g = hi - lo;
    // a * (p * hi) == a * (p * lo) + a * (p * g), p * hi == p * lo + p * g
    assert(p * hi == p * lo + p * g) by (nonlinear_arith)
        requires
            g == hi - lo,
    ;
    assert(a * (p * hi) == a * (p * lo) + a * (p * g)) by (nonlinear_arith)
        requires
            p * hi == p * lo + p * g,
    ;
    assert(p * g > 0) by (nonlinear_arith)
        requires
            p > 0,
            g > 0,
    ;
    assert(a * (p * g) >= 0) by (nonlinear_arith)
        requires
            a >= 0,
            p * g > 0,
    ;
    // hi^3 - lo^3 >= g * lo * lo + (the rest, which is positive)
    assert(hi * hi * hi - lo * lo * lo >= 3 * ((lo * lo) * g) + g) by (nonlinear_arith)
        requires
            hi == lo + g,
            g >= 1,
            lo >= 1,
    ;
    if a >= 1 {
        assert(4 * (a * (p * g)) >= 4 * (p * g)) by (nonlinear_arith)
            requires
                a >= 1,
                p * g > 0,
        ;
        assert((lo * lo) * g >= 0) by (nonlinear_arith)
            requires
                g >= 1,
        ;
    } else {
        assert(a * (s * p) == 0 && a * (p * lo) == 0 && a * (p * g) == 0) by (nonlinear_arith)
            requires
                a == 0,
        ;
        // p * lo <= lo^3, so p <= lo * lo
        assert(p <= lo * lo) by (nonlinear_arith)
            requires
                p * lo - lo * lo * lo <= 0,
                lo >= 1,
        ;
        assert(p * g <= (lo * lo) * g) by (nonlinear_arith)
            requires
                p <= lo * lo,
                g >= 1,
        ;
    }
}

/// No candidate of the search for `D` lies below an amount at which the
/// curve's residual is not negative.
pub proof fn lemma_d_iterate_floor(s: int, p: int, a: int, k: nat, floor: int)
    requires
        s > 0,
        p > 0,
        a >= 0,
        p <= s * s,
        floor >= 0,
        d_residual(s, p, a, floor) >= 0,
    ensures
        d_iterate(s, p, a, k) >= floor,
{
    let d = d_iterate(s, p, a, k);
    lemma_d_iterate(s, p, a, k);
    if d < floor {
        // The residual falls strictly from `d` to `floor`.
        lemma_residual_falls(s, p, a, d, floor);
    }
}

/// For reserves `x, y > 0`: `calc_d` stays at or below `x + y`, and at or
/// above every whole amount `floor` at which the curve's residual is not
/// negative, that is every `floor` at or below the curve's `D`. It fails
/// only where `x + y` does not fit.
pub proof fn lemma_calc_d_bounds(x: u64, y: u64, a: u64, floor: int)
    requires
        x > 0,
        y > 0,
        0 <= floor <= x + y,
        d_residual(x + y, 4 * (x * y), a as int, floor) >= 0,
    ensures
        match spec_calc_d(x, y, a) {
            Some(d) => floor <= d <= x + y,
            None => x + y > u64::MAX,
        },
{
    let u: int = 65536;
    let s = (x + y) * u;
    let p = 4 * ((x * u) * (y * u));
    lemma_scaled_reserves(x as int, y as int);
    let s0 = x + y;
    let p0 = 4 * (x * y);
    lemma_scale_product(x as int, y as int, u);
    assert((u * u) * (4 * (x * y)) == 4 * ((u * u) * (x * y))) by (nonlinear_arith);
    assert(p == (u * u) * p0);
    lemma_residual_monomials(s, p, a as int, floor * u);
    lemma_residual_monomials(s0, p0, a as int, floor);
    lemma_scale_monomials(s0, p0, a as int, floor, u);
    assert(d_residual(s, p, a as int, floor * u) == (u * u * u) * d_residual(
        s0,
        p0,
        a as int,
        floor,
    )) by (nonlinear_arith)
        requires
            d_residual(s, p, a as int, floor * u) == 4 * ((u * u * u) * (a * (s0 * p0))) - 4 * ((u
                * u * u) * (a * (p0 * floor))) + (u * u * u) * (p0 * floor) - (u * u * u) * (floor
                * floor * floor),
            d_residual(s0, p0, a as int, floor) == 4 * (a * (s0 * p0)) - 4 * (a * (p0 * floor))
                + p0 * floor - floor * floor * floor,
    ;
    assert((u * u * u) * d_residual(s0, p0, a as int, floor) >= 0) by (nonlinear_arith)
        requires
            u == 65536,
            d_residual(s0, p0, a as int, floor) >= 0,
    ;
    lemma_d_iterate(s, p, a as int, 8);
    lemma_d_iterate_floor(s, p, a as int, 8, floor * u);
}

/// Within one percent: where the curve's `D` is at least 99 hundredths of
/// `x + y`, rounded up to a whole amount, so is what `calc_d` returns, and
/// it does not exceed `x + y`.
pub proof fn lemma_calc_d_near_sum(x: u64, y: u64, a: u64)
    requires
        x > 0,
        y > 0,
        x + y <= u64::MAX,
        d_residual(x + y, 4 * (x * y), a as int, (99 * (x + y) + 99) / 100) >= 0,
    ensures
        spec_calc_d(x, y, a) is Some,
        100 * spec_calc_d(x, y, a).unwrap() >= 99 * (x + y),
        spec_calc_d(x, y, a).unwrap() <= x + y,
{
    lemma_calc_d_bounds(x, y, a, (99 * (x + y) + 99) / 100);
}

/// A pool with something on both sides is worth something.
pub proof fn lemma_calc_d_positive(x: u64, y: u64, a: u64)
    requires
        x > 0,
        y > 0,
        spec_calc_d(x, y, a) is Some,
    ensures
        1 <= spec_calc_d(x, y, a).unwrap() <= x + y,
{
    let s = x + y;
    let p = 4 * (x * y);
    assert(p >= 4) by (nonlinear_arith)
        requires
            p == 4 * (x * y),
            x >= 1,
            y >= 1,
    ;
    assert(p * (4 * a * (s - 1) + 1) >= 4) by (nonlinear_arith)
        requires
            p >= 4,
            a >= 0,
            s >= 2,
    ;
    lemma_calc_d_bounds(x, y, a, 1);
}

/// The balanced value does not depend on which reserve is named first: a
/// trade and the trade back, which takes from the other side, are priced on
/// one curve.
pub proof fn lemma_calc_d_symmetric(x: u64, y: u64, a: u64)
    ensures
        spec_calc_d(x, y, a) == spec_calc_d(y, x, a),
{
    assert((x * 65536) * (y * 65536) == (y * 65536) * (x * 65536)) by (nonlinear_arith);
}

/// A pool with equal reserves is worth exactly their sum.
pub proof fn lemma_calc_d_balanced(x: u64, a: u64)
    requires
        x > 0,
        2 * x <= u64::MAX,
    ensures
        spec_calc_d(x, x, a) == Some((2 * x) as u64),
{
    let s = x + x;
    assert(d_residual(s, 4 * (x * x), a as int, s) == 0) by (nonlinear_arith)
        requires
            s == x + x,
            d_residual(s, 4 * (x * x), a as int, s) == (4 * (x * x)) * (4 * a * (s - s) + s) - s
                * s * s,
    ;
    lemma_calc_d_bounds(x, x, a, s);
}

proof fn lemma_scaled_reserves(x: int, y: int)
    requires
        x > 0,
        y > 0,
    ensures
        (x + y) * 65536 > 0,
        4 * ((x * 65536) * (y * 65536)) > 0,
        4 * ((x * 65536) * (y * 65536)) <= ((x + y) * 65536) * ((x + y) * 65536),
{
    let xs = x * 65536;
    let ys = y * 65536;
    assert(xs * ys > 0) by (nonlinear_arith)
        requires
            xs > 0,
            ys > 0,
    ;
    assert(4 * (xs * ys) <= (xs + ys) * (xs + ys)) by (nonlinear_arith);
}

proof fn lemma_pow10_grows(i: nat, n: nat)
    requires
        i <= n,
    ensures
        pow10(i) <= pow10(n),
        pow10(i) >= 1,
    decreases n,
{
    if i < n {
        lemma_pow10_grows(i, (n - 1) as nat);
    } else if n > 0 {
        lemma_pow10_grows((i - 1) as nat, (n - 1) as nat);
    }
}

/// Once a search past its fourth round has not been restarted, it rests.
proof fn lemma_dy_rests(x: int, d: int, a: int, y_min: int, y0: int, k: nat, j: nat)
    requires
        4 <= k <= j,
        !dy_run(x, d, a, y_min, y0, k).restarted,
    ensures
        dy_run(x, d, a, y_min, y0, j) == dy_run(x, d, a, y_min, y0, k),
    decreases j,
{
    if j > k {
        lemma_dy_rests(x, d, a, y_min, y0, k, (j - 1) as nat);
    }
}

proof fn lemma_negative_quotient(n: int, m: int)
    requires
        n < 0,
        m > 0,
    ensures
        n / m < 0,
{
    lemma_fundamental_div_mod(n, m);
    assert(n / m < 0) by (nonlinear_arith)
        requires
            n == m * (n / m) + n % m,
            0 <= n % m,
            n < 0,
            m > 0,
    ;
}

/// Once a step leaves the candidate and the restart where they are, all
/// later rounds do.
proof fn lemma_dy_settled(x: int, d: int, a: int, y_min: int, y0: int, k: nat, j: nat)
    requires
        j > k,
        !(k + 1 > 4 && !dy_run(x, d, a, y_min, y0, k).restarted),
        dy_run(x, d, a, y_min, y0, k + 1).y == dy_run(x, d, a, y_min, y0, k).y,
        dy_run(x, d, a, y_min, y0, k + 1).restarted == dy_run(x, d, a, y_min, y0, k).restarted,
    ensures
        dy_run(x, d, a, y_min, y0, j) == dy_run(x, d, a, y_min, y0, k + 1),
    decreases j,
{
    if j > k + 1 {
        lemma_dy_settled(x, d, a, y_min, y0, k, (j - 1) as nat);
    }
}

/// After its first round a search stands at or above its floor.
proof fn lemma_dy_above_floor(x: int, d: int, a: int, y_min: int, y0: int, k: nat)
    requires
        k >= 1,
    ensures
        dy_run(x, d, a, y_min, y0, k).y >= y_min,
    decreases k,
{
    if k > 1 {
        lemma_dy_above_floor(x, d, a, y_min, y0, (k - 1) as nat);
    }
}

/// What `calc_dy` finds on a curve, from a start, is at least one: no
/// amount is priced at nothing.
pub proof fn lemma_calc_dy_at_least_one(x: u64, y: u64, a: u64, d: u64, dx: u64)
    requires
        !(d == 0 && a == 0),
        !(y == 0 && dx == 0),
        spec_calc_dy(x, y, a, d, dx) is Some,
    ensures
        spec_calc_dy(x, y, a, d, dx).unwrap() >= 1,
{
    lemma_dy_above_floor(
        (x - dx) * 65536,
        d * 65536,
        a as int,
        (y + 1) * 65536,
        (y + dx) * 65536,
        8,
    );
}

/// `10^n`, or `None` where it does not fit.
fn checked_pow10(n: u8) -> (r: Option<u64>)
    ensures
        match r {
            Some(v) => v as nat == pow10(n as nat),
            None => pow10(n as nat) > u64::MAX,
        },
{
    let mut acc: u64 = 1;
    let mut i: u8 = 0;
    while i < n
        invariant
            i <= n,
            acc as nat == pow10(i as nat),
        decreases n - i,
    {
        match acc.checked_mul(10) {
            Some(v) => {
                acc = v;
            },
            None => {
                proof {
                    lemma_pow10_grows((i + 1) as nat, n as nat);
                }
                return None;
            },
        }
        i += 1;
    }
    Some(acc)
}

/// The factors that bring base and quote amounts to the same number of
/// decimals: the side with fewer decimals is multiplied by a power of ten,
/// the other by one. `None` where that power does not fit.
pub fn get_token_decs_fac(base_decimals: u8, quote_decimals: u8) -> (r: Option<(u64, u64)>)
    ensures
        r == spec_token_decs_fac(base_decimals, quote_decimals),
{
    if base_decimals > quote_decimals {
        match checked_pow10(base_decimals - quote_decimals) {
            Some(f) => Some((1, f)),
            None => None,
        }
    } else {
        match checked_pow10(quote_decimals - base_decimals) {
            Some(f) => Some((f, 1)),
            None => None,
        }
    }
}

/// Both amounts at the same number of decimals, or `None` where one of
/// them does not fit.
pub fn normalize_decimals(
    coin_amount: u64,
    coin_decimals: u8,
    pc_amount: u64,
    pc_decimals: u8,
) -> (r: Option<(u64, u64)>)
    ensures
        r == spec_normalize_decimals(coin_amount, coin_decimals, pc_amount, pc_decimals),
{
    match get_token_decs_fac(coin_decimals, pc_decimals) {
        None => None,
        Some((coin_fac, pc_fac)) => match (
            coin_amount.checked_mul(coin_fac),
            pc_amount.checked_mul(pc_fac),
        ) {
            (Some(coin), Some(pc)) => Some((coin, pc)),
            _ => None,
        },
    }
}

/// One Newton step for `D`.
fn newton_d_step(
    c_n: &Wide,
    c_m: &Wide,
    p: &Wide,
    d: &Wide,
    Ghost(s): Ghost<int>,
    Ghost(a): Ghost<int>,
) -> (r: Wide)
    requires
        s >= 0,
        a >= 0,
        p@ > 0,
        d@ > 0,
        d_residual(s, p@ as int, a, d@ as int) <= 0,
        c_n@ == 4 * (a * (s * p@)),
        c_m@ == 4 * (a * p@),
    ensures
        r@ == d_step(s, p@ as int, a, d@ as int),
{
    let d2 = d.mul(d);
    let d3 = d2.mul(d);
    let n = d3.mul_small(2).add(c_n);
    let t = d2.mul_small(3).add(c_m);
    proof {
        lemma_d_step(s, p@ as int, a, d@ as int);
        lemma_step_numerator(s, p@ as int, a, d@ as int);
        assert((4 * a - 1) * p@ == 4 * (a * p@) - p@) by (nonlinear_arith);
    }
    match t.checked_sub(p) {
        Some(m) => {
            let (q, rem) = n.div_rem(&m);
            proof {
                lemma_fundamental_div_mod(n@ as int, m@ as int);
                if rem@ == 0 {
                    assert(n@ + m@ - 1 == q@ * m@ + (m@ - 1)) by (nonlinear_arith)
                        requires
                            n@ == m@ * q@ + rem@,
                            rem@ == 0,
                    ;
                    lemma_fundamental_div_mod_converse(
                        n@ + m@ - 1,
                        m@ as int,
                        q@ as int,
                        m@ - 1,
                    );
                } else {
                    assert(n@ + m@ - 1 == (q@ + 1) * m@ + (rem@ - 1)) by (nonlinear_arith)
                        requires
                            n@ == m@ * q@ + rem@,
                    ;
                    lemma_fundamental_div_mod_converse(
                        n@ + m@ - 1,
                        m@ as int,
                        (q@ + 1) as int,
                        rem@ - 1,
                    );
                }
            }
            if rem.is_zero() {
                q
            } else {
                q.add(&Wide::from_u64(1))
            }
        },
        None => {
            proof {
                assert(false);
            }
            Wide::zero()
        },
    }
}

/// [`calc_d`] on numbers of any size.
fn calc_d_wide(x: u64, y: u64, a: u64) -> (r: Option<u64>)
    ensures
        r == spec_calc_d(x, y, a),
{
    if x == 0 || y == 0 {
        return Some(0);
    }
    let xs = Wide::from_u64(x).mul_small(UNIT);
    let ys = Wide::from_u64(y).mul_small(UNIT);
    let s = xs.add(&ys);
    let p = xs.mul(&ys).mul_small(4);
    let c_m = p.mul_small(a).mul_small(4);
    let c_n = s.mul(&p).mul_small(a).mul_small(4);
    let mut d = s.duplicate();
    let mut k: u64 = 0;
    proof {
        lemma_scaled_reserves(x as int, y as int);
        assert(c_m@ == 4 * (a as int * p@)) by (nonlinear_arith)
            requires
                c_m@ == (p@ * a as nat) * 4,
        ;
        assert(c_n@ == 4 * (a as int * (s@ * p@))) by (nonlinear_arith)
            requires
                c_n@ == ((s@ * p@) * a as nat) * 4,
        ;
        lemma_d_iterate(s@ as int, p@ as int, a as int, 0);
    }
    while k < D_NM_MAX_ITERS
        invariant_except_break
            k <= 8,
            d@ == d_iterate(s@ as int, p@ as int, a as int, k as nat),
        invariant
            s@ == (x + y) * 65536,
            p@ == 4 * ((x * 65536) * (y * 65536)),
            s@ > 0,
            p@ > 0,
            p@ <= s@ * s@,
            c_n@ == 4 * (a as int * (s@ * p@)),
            c_m@ == 4 * (a as int * p@),
        ensures
            d@ == d_iterate(s@ as int, p@ as int, a as int, 8),
        decreases 8 - k,
    {
        proof {
            lemma_d_iterate(s@ as int, p@ as int, a as int, k as nat);
        }
        let next = newton_d_step(&c_n, &c_m, &p, &d, Ghost(s@ as int), Ghost(a as int));
        if d.le(&next) {
            proof {
                lemma_d_iterate(s@ as int, p@ as int, a as int, (k + 1) as nat);
                lemma_d_settled(s@ as int, p@ as int, a as int, k as nat, 8);
            }
            break ;
        }
        d = next;
        k += 1;
    }
    let (rounded, _) = d.add(&Wide::from_u64(UNIT / 2)).div_rem(&Wide::from_u64(UNIT));
    rounded.to_u64()
}

/// One Newton step for a reserve; `None` where the step leads below zero.
fn newton_y_step(
    two_d3: &Wide,
    d3: &Wide,
    k_den: &Wide,
    k_pos: &Wide,
    k_neg: &Wide,
    y: &Wide,
    Ghost(x): Ghost<int>,
    Ghost(d): Ghost<int>,
    Ghost(a): Ghost<int>,
) -> (r: Option<Wide>)
    requires
        x > 0,
        d >= 0,
        a >= 0,
        d > 0 || a > 0,
        y@ > 0,
        d3@ == d * d * d,
        two_d3@ == 2 * (d * d * d),
        k_den@ == 16 * (a * x),
        k_pos@ == 16 * (a * (x * d)),
        k_neg@ == 4 * (x * (4 * (a * x) + d)),
    ensures
        match r {
            Some(q) => q@ == y_step(x, d, a, y@ as int),
            None => y_step(x, d, a, y@ as int) < 0,
        },
{
    let pos = two_d3.add(&k_pos.mul(y));
    let neg = k_neg.mul(y);
    let den = k_den.mul(y).mul(y).add(d3);
    proof {
        assert(den@ > 0) by (nonlinear_arith)
            requires
                den@ == (16 * (a * x)) * y@ * y@ + d * d * d,
                x > 0,
                d >= 0,
                a >= 0,
                d > 0 || a > 0,
                y@ > 0,
        ;
    }
    match pos.checked_sub(&neg) {
        Some(gap) => {
            let num = y.mul(&gap);
            let (q, _) = num.div_rem(&den);
            proof {
                assert(gap@ == 2 * (d * d * d) + 16 * (a * (x * d)) * y@ - 4 * (x * (4 * (a * x)
                    + d)) * y@);
            }
            Some(q)
        },
        None => {
            proof {
                let gap = 2 * (d * d * d) + 16 * (a * (x * d)) * y@ - 4 * (x * (4 * (a * x) + d))
                    * y@;
                assert(gap < 0);
                assert(y@ * gap < 0) by (nonlinear_arith)
                    requires
                        y@ > 0,
                        gap < 0,
                ;
                lemma_negative_quotient(y@ * gap, den@ as int);
            }
            None
        },
    }
}

/// [`calc_dy`] on numbers of any size.
fn calc_dy_wide(x: u64, y: u64, a: u64, d: u64, dx: u64) -> (r: Option<u64>)
    ensures
        r == spec_calc_dy(x, y, a, d, dx),
{
    if dx >= x {
        return None;
    }
    if (d == 0 && a == 0) || (y == 0 && dx == 0) {
        return Some(0);
    }
    let unit = Wide::from_u64(UNIT);
    let xs = Wide::from_u64(x - dx).mul_small(UNIT);
    let ds = Wide::from_u64(d).mul_small(UNIT);
    let ys = Wide::from_u64(y).mul_small(UNIT);
    let y_min = ys.add(&unit);
    let mut m = Wide::from_u64(y).add(&Wide::from_u64(dx)).mul_small(UNIT);
    let d3 = ds.mul(&ds).mul(&ds);
    let two_d3 = d3.mul_small(2);
    let ax = xs.mul_small(a);
    let k_den = ax.mul_small(16);
    let k_pos = ax.mul(&ds).mul_small(16);
    let k_neg = ax.mul_small(4).add(&ds).mul(&xs).mul_small(4);
    let ghost gx: int = (x - dx) * 65536;
    let ghost gd: int = d * 65536;
    let ghost ga: int = a as int;
    let ghost gmin: int = (y + 1) * 65536;
    let ghost g0: int = (y + dx) * 65536;
    proof {
        assert(k_den@ == 16 * (ga * gx)) by (nonlinear_arith)
            requires
                k_den@ == (gx * ga) * 16,
        ;
        assert(k_pos@ == 16 * (ga * (gx * gd))) by (nonlinear_arith)
            requires
                k_pos@ == ((gx * ga) * gd) * 16,
        ;
        assert(k_neg@ == 4 * (gx * (4 * (ga * gx) + gd))) by (nonlinear_arith)
            requires
                k_neg@ == ((((gx * ga) * 4) + gd) * gx) * 4,
        ;
    }
    let mut restarted = false;
    let mut exceeded = false;
    let mut i: u64 = 0;
    while i < DY_NM_MAX_ITERS
        invariant_except_break
            i <= 8,
            m@ == dy_run(gx, gd, ga, gmin, g0, i as nat).y,
            restarted == dy_run(gx, gd, ga, gmin, g0, i as nat).restarted,
            exceeded == (dy_run(gx, gd, ga, gmin, g0, i as nat).last_move > 65536 || dy_run(
                gx,
                gd,
                ga,
                gmin,
                g0,
                i as nat,
            ).last_move < -65536),
            m@ >= 65536,
            i >= 1 ==> m@ >= gmin,
        invariant
            gx == (x - dx) * 65536,
            gd == d * 65536,
            ga == a as int,
            gmin == (y + 1) * 65536,
            g0 == (y + dx) * 65536,
            gx > 0,
            gd > 0 || ga > 0,
            y_min@ == gmin,
            unit@ == 65536,
            d3@ == gd * gd * gd,
            two_d3@ == 2 * (gd * gd * gd),
            k_den@ == 16 * (ga * gx),
            k_pos@ == 16 * (ga * (gx * gd)),
            k_neg@ == 4 * (gx * (4 * (ga * gx) + gd)),
        ensures
            m@ == dy_run(gx, gd, ga, gmin, g0, 8).y,
            exceeded == (dy_run(gx, gd, ga, gmin, g0, 8).last_move > 65536 || dy_run(
                gx,
                gd,
                ga,
                gmin,
                g0,
                8,
            ).last_move < -65536),
            m@ >= gmin,
        decreases 8 - i,
    {
        if !restarted && i >= DY_NM_EXP_ITERS {
            proof {
                lemma_dy_rests(gx, gd, ga, gmin, g0, i as nat, 8);
            }
            break ;
        }
        let raw = newton_y_step(
            &two_d3,
            &d3,
            &k_den,
            &k_pos,
            &k_neg,
            &m,
            Ghost(gx),
            Ghost(gd),
            Ghost(ga),
        );
        match raw {
            Some(q) => {
                let far = match m.checked_sub(&q) {
                    Some(down) => !down.le(&unit),
                    None => match q.checked_sub(&m) {
                        Some(up) => !up.le(&unit),
                        None => true,
                    },
                };
                exceeded = far;
                if y_min.le(&q) {
                    m = q;
                } else {
                    m = y_min.duplicate();
                    restarted = true;
                }
            },
            None => {
                exceeded = true;
                m = y_min.duplicate();
                restarted = true;
            },
        }
        i += 1;
    }
    if exceeded {
        return None;
    }
    let bound = Wide::from_u64(u64::MAX).mul_small(UNIT);
    if !m.le(&bound) {
        return None;
    }
    match m.checked_sub(&ys) {
        Some(gap) => {
            let (rounded, _) = gap.add(&Wide::from_u64(UNIT / 2)).div_rem(&unit);
            rounded.to_u64()
        },
        None => {
            proof {
                assert(false);
            }
            None
        },
    }
}

proof fn lemma_word_times_word(l: u64, m: u64)
    by (nonlinear_arith)
    ensures
        l * m <= 0xFFFF_FFFF_FFFF_FFFE_0000_0000_0000_0001,
{
}

/// Whether every number on the way of one Newton step for `D` from the
/// candidate `d` is below `2^256`: the denominator before `p` is taken off
/// it, and the numerator with the denominator less one added for rounding
/// up.
pub open spec fn d_step_fits(s: int, p: int, a: int, d: int) -> bool {
    &&& 3 * (d * d) + 4 * (a * p) < limit()
    &&& 2 * (d * d * d) + 4 * (a * (s * p)) + ((4 * a - 1) * p + 3 * (d * d)) - 1 < limit()
}

/// A product of two bounded numbers is bounded by the product of the
/// bounds.
proof fn lemma_product_bound(v: int, m: int, bv: int, bm: int)
    by (nonlinear_arith)
    requires
        0 <= v <= bv,
        0 <= m <= bm,
    ensures
        0 <= v * m <= bv * bm,
{
}

/// A step that fits from a candidate fits from every smaller one.
proof fn lemma_d_step_fits_below(s: int, p: int, a: int, lo: int, hi: int)
    requires
        0 <= lo <= hi,
        d_step_fits(s, p, a, hi),
    ensures
        d_step_fits(s, p, a, lo),
{
    lemma_product_bound(lo, lo, hi, hi);
    lemma_product_bound(lo * lo, lo, hi * hi, hi);
}

/// One Newton step for `D` on numbers below `2^256`: the step where every
/// number on the way is below `2^256`, and `None` where one is not.
fn narrow_d_step(c_n: &U256, c_m: &U256, p: &U256, d: u64, Ghost(s): Ghost<int>, Ghost(a): Ghost<
    int,
>) -> (r: Option<u64>)
    requires
        s >= 0,
        a >= 0,
        p@ > 0,
        d > 0,
        d_residual(s, p@ as int, a, d as int) <= 0,
        c_n@ == 4 * (a * (s * p@)),
        c_m@ == 4 * (a * p@),
    ensures
        r matches Some(q) ==> q == d_step(s, p@ as int, a, d as int),
        r is Some <==> d_step_fits(s, p@ as int, a, d as int),
{
    proof {
        lemma_word_times_word(d, d);
        lemma_d_step(s, p@ as int, a, d as int);
        lemma_step_numerator(s, p@ as int, a, d as int);
        assert((4 * a - 1) * p@ == 4 * (a * p@) - p@) by (nonlinear_arith);
        lemma_product_bound(
            d * d,
            d as int,
            0xFFFF_FFFF_FFFF_FFFE_0000_0000_0000_0001,
            0xFFFF_FFFF_FFFF_FFFF,
        );
    }
    let d2 = U256::from_u128(d as u128 * d as u128);
    let d3 = d2.checked_mul_small(d)?;
    let n = d3.checked_mul_small(2)?.checked_add(c_n)?;
    let before = d2.checked_mul_small(3)?.checked_add(c_m)?;
    let m = before.checked_sub(p)?;
    let up = m.checked_sub(&U256::from_u64(1))?;
    let total = n.checked_add(&up)?;
    proof {
        before.lemma_below_limit();
        total.lemma_below_limit();
        assert(m@ == (4 * a - 1) * p@ + 3 * (d * d));
        assert(total@ == 2 * (d * d * d) + 4 * a * (s * p@) + m@ - 1);
        assert(total@ as int / m@ as int == d_step(s, p@ as int, a, d as int));
    }
    total.quotient(&m)
}

/// Whether `calc_d` can be computed on numbers below `2^256`: the scaled
/// sum of the reserves fits a word, and the first step, which is from the
/// largest candidate, fits.
pub open spec fn calc_d_fits(x: u64, y: u64, a: u64) -> bool {
    let s = (x + y) * 65536;
    let p = 4 * ((x * 65536) * (y * 65536));
    s <= u64::MAX && d_step_fits(s, p, a as int, s)
}

/// Pools of common size are computed on numbers below `2^256`: reserves
/// that sum to less than `2^48` under an amplification below `2^32`.
pub proof fn lemma_calc_d_fits_common(x: u64, y: u64, a: u64)
    requires
        x > 0,
        y > 0,
        x + y <= 0xFFFF_FFFF_FFFF,
        a <= 0xFFFF_FFFF,
    ensures
        calc_d_fits(x, y, a),
{
    let s: int = (x + y) * 65536;
    let xs: int = x * 65536;
    let ys: int = y * 65536;
    let p: int = 4 * (xs * ys);
    let w: int = 0x1_0000_0000_0000_0000;
    let w2: int = 0x1_0000_0000_0000_0000_0000_0000_0000_0000int;
    lemma_product_bound(xs, ys, w, w);
    lemma_product_bound(a as int, p, 0x1_0000_0000, 4 * w2);
    lemma_product_bound(s, p, w, 4 * w2);
    lemma_product_bound(a as int, s * p, 0x1_0000_0000, w * (4 * w2));
    lemma_product_bound(s, s, w, w);
    lemma_product_bound(s * s, s, w2, w);
    assert((4 * a - 1) * p == 4 * (a * p) - p) by (nonlinear_arith);
}

/// [`calc_d`] on numbers below `2^256`: its result where every number on
/// the way is below `2^256`, and the outer `None` where one is not.
fn calc_d_narrow(x: u64, y: u64, a: u64) -> (r: Option<Option<u64>>)
    requires
        x > 0,
        y > 0,
    ensures
        r matches Some(v) ==> v == spec_calc_d(x, y, a),
        r is Some <==> calc_d_fits(x, y, a),
{
    let xs = x.checked_mul(UNIT)?;
    let ys = y.checked_mul(UNIT)?;
    let s = xs.checked_add(ys)?;
    let ghost gp: int = 4 * ((x * 65536) * (y * 65536));
    proof {
        lemma_word_times_word(xs, ys);
        lemma_scaled_reserves(x as int, y as int);
        // what the first step needs is what the constants need
        lemma_product_bound(1, 1, s as int, s as int);
        assert(s * gp >= gp) by (nonlinear_arith)
            requires
                s >= 1,
                gp >= 0,
        ;
        assert(a * (s * gp) >= a * gp) by (nonlinear_arith)
            requires
                s * gp >= gp,
                a >= 0,
        ;
        assert((4 * a - 1) * gp == 4 * (a * gp) - gp) by (nonlinear_arith);
        assert(a * gp >= 0) by (nonlinear_arith)
            requires
                a >= 0,
                gp >= 0,
        ;
        assert(gp * a == a * gp && (gp * s) * a == a * (s * gp)) by (nonlinear_arith);
        lemma_product_bound(
            gp,
            s as int,
            0x4_0000_0000_0000_0000_0000_0000_0000_0000int,
            0xFFFF_FFFF_FFFF_FFFF,
        );
        assert(s * s * s >= 1) by (nonlinear_arith)
            requires
                s >= 1,
        ;
    }
    let p = U256::from_u128(xs as u128 * ys as u128).checked_mul_small(4)?;
    let c_m = p.checked_mul_small(a)?.checked_mul_small(4)?;
    let c_n = p.checked_mul_small(s)?.checked_mul_small(a)?.checked_mul_small(4)?;
    let mut d: u64 = s;
    let mut k: u64 = 0;
    proof {
        assert(c_m@ == 4 * (a as int * p@)) by (nonlinear_arith)
            requires
                c_m@ == (p@ * a as nat) * 4,
        ;
        assert(c_n@ == 4 * (a as int * (s as int * p@))) by (nonlinear_arith)
            requires
                c_n@ == ((p@ * s as nat) * a as nat) * 4,
        ;
    }
    while k < D_NM_MAX_ITERS
        invariant_except_break
            k <= 8,
            d == d_iterate(s as int, p@ as int, a as int, k as nat),
        invariant
            s == (x + y) * 65536,
            p@ == 4 * ((x * 65536) * (y * 65536)),
            s > 0,
            p@ > 0,
            p@ <= s * s,
            c_n@ == 4 * (a as int * (s as int * p@)),
            c_m@ == 4 * (a as int * p@),
            k > 0 ==> calc_d_fits(x, y, a),
        ensures
            d == d_iterate(s as int, p@ as int, a as int, 8),
            d <= u64::MAX,
            calc_d_fits(x, y, a),
        decreases 8 - k,
    {
        proof {
            lemma_d_iterate(s as int, p@ as int, a as int, k as nat);
            if calc_d_fits(x, y, a) {
                lemma_d_step_fits_below(s as int, p@ as int, a as int, d as int, s as int);
            }
        }
        let next = narrow_d_step(&c_n, &c_m, &p, d, Ghost(s as int), Ghost(a as int))?;
        if next == d {
            proof {
                lemma_d_settled(s as int, p@ as int, a as int, k as nat, 8);
            }
            break ;
        }
        d = next;
        k += 1;
    }
    let rounded: u128 = (d as u128 + (UNIT / 2) as u128) / (UNIT as u128);
    assert(rounded == (d + 32768) / 65536);
    Some(Some(rounded as u64))
}

/// The balanced value `D` of a pool with reserves `x` and `y` under the
/// amplification `a`: eight Newton steps from `x + y`, rounded to the
/// nearest whole amount. A pool with an empty side is worth nothing.
/// `None` where the result does not fit.
///
/// The amounts are taken as of equal value unit for unit: bring them to
/// the same number of decimals first.
pub fn calc_d(x: u64, y: u64, a: u64) -> (r: Option<u64>)
    ensures
        r == spec_calc_d(x, y, a),
        r matches Some(d) ==> d <= x + y,
        r matches Some(d) ==> (x > 0 && y > 0 ==> d >= 1),
{
    if x == 0 || y == 0 {
        return Some(0);
    }
    proof {
        if spec_calc_d(x, y, a) is Some {
            lemma_calc_d_positive(x, y, a);
        }
    }
    match calc_d_narrow(x, y, a) {
        Some(r) => r,
        None => calc_d_wide(x, y, a),
    }
}

/// Whether every number on the way of one Newton step for a reserve from
/// the candidate `y` is below `2^256`, and the step itself fits a word
/// unless it leads below zero: the part of the numerator that is added, the
/// part that is taken off, the denominator, the numerator.
pub open spec fn y_step_fits(x: int, d: int, a: int, y: int) -> bool {
    let pos = 2 * (d * d * d) + 16 * (a * (x * d)) * y;
    let neg = 4 * (x * (4 * (a * x) + d)) * y;
    let den = 16 * (a * x) * y * y + d * d * d;
    &&& pos < limit()
    &&& neg < limit()
    &&& den < limit()
    &&& pos >= neg ==> y * (pos - neg) < limit() && y_step(x, d, a, y) <= u64::MAX
}

/// One Newton step for a reserve on numbers below `2^256`: the step where
/// every number on the way is below `2^256` and the step fits a word, with
/// the inner `None` where the step leads below zero; the outer `None` where
/// a number does not fit.
fn narrow_y_step(
    two_d3: &U256,
    d3: &U256,
    k_den: &U256,
    k_pos: &U256,
    k_neg: &U256,
    y: u64,
    Ghost(x): Ghost<int>,
    Ghost(d): Ghost<int>,
    Ghost(a): Ghost<int>,
) -> (r: Option<Option<u64>>)
    requires
        x > 0,
        d >= 0,
        a >= 0,
        d > 0 || a > 0,
        y > 0,
        d3@ == d * d * d,
        two_d3@ == 2 * (d * d * d),
        k_den@ == 16 * (a * x),
        k_pos@ == 16 * (a * (x * d)),
        k_neg@ == 4 * (x * (4 * (a * x) + d)),
    ensures
        match r {
            Some(Some(q)) => q == y_step(x, d, a, y as int),
            Some(None) => y_step(x, d, a, y as int) < 0,
            None => true,
        },
        r is Some <==> y_step_fits(x, d, a, y as int),
{
    proof {
        // a product with `y >= 1` is no smaller than what is multiplied
        assert(16 * (a * x) * y * y >= 16 * (a * x) * y >= 0) by (nonlinear_arith)
            requires
                a >= 0,
                x > 0,
                y >= 1,
        ;
        assert(16 * (a * (x * d)) * y >= 0) by (nonlinear_arith)
            requires
                a >= 0,
                x > 0,
                d >= 0,
                y >= 1,
        ;
        assert(d * d * d >= 0) by (nonlinear_arith)
            requires
                d >= 0,
        ;
    }
    let pos = two_d3.checked_add(&k_pos.checked_mul_small(y)?)?;
    let neg = k_neg.checked_mul_small(y)?;
    let den = k_den.checked_mul_small(y)?.checked_mul_small(y)?.checked_add(d3)?;
    proof {
        pos.lemma_below_limit();
        neg.lemma_below_limit();
        den.lemma_below_limit();
        assert(den@ > 0) by (nonlinear_arith)
            requires
                den@ == (16 * (a * x)) * y * y + d * d * d,
                x > 0,
                d >= 0,
                a >= 0,
                d > 0 || a > 0,
                y > 0,
        ;
    }
    match pos.checked_sub(&neg) {
        Some(gap) => {
            proof {
                assert(gap@ == 2 * (d * d * d) + 16 * (a * (x * d)) * y - 4 * (x * (4 * (a * x)
                    + d)) * y);
                assert(gap@ * y as nat == y * gap@) by (nonlinear_arith);
            }
            let num = gap.checked_mul_small(y)?;
            proof {
                num.lemma_below_limit();
                assert(num@ as int / den@ as int == y_step(x, d, a, y as int));
            }
            match num.quotient(&den) {
                Some(q) => Some(Some(q)),
                None => None,
            }
        },
        None => {
            proof {
                let gap = 2 * (d * d * d) + 16 * (a * (x * d)) * y - 4 * (x * (4 * (a * x) + d))
                    * y;
                assert(gap < 0);
                assert(y * gap < 0) by (nonlinear_arith)
                    requires
                        y > 0,
                        gap < 0,
                ;
                lemma_negative_quotient(y * gap, den@ as int);
            }
            Some(None)
        },
    }
}

/// A quotient is at most `k` where the numerator is at most `k` times the
/// denominator.
proof fn lemma_quotient_at_most(n: int, m: int, k: int)
    requires
        m > 0,
        n <= k * m,
    ensures
        n / m <= k,
{
    lemma_fundamental_div_mod(n, m);
    assert(n / m <= k) by (nonlinear_arith)
        requires
            n == m * (n / m) + n % m,
            0 <= n % m,
            n <= k * m,
            m > 0,
    ;
}

/// A step for a reserve at most doubles the candidate and adds `d`.
proof fn lemma_y_step_bound(x: int, d: int, a: int, y: int)
    requires
        x > 0,
        d >= 0,
        a >= 0,
        d > 0 || a > 0,
        y > 0,
    ensures
        y_step(x, d, a, y) <= 2 * y + d,
{
    let d3 = d * d * d;
    let kp = 16 * (a * (x * d));
    let kn = 4 * (x * (4 * (a * x) + d));
    let kd = 16 * (a * x);
    let den = kd * y * y + d3;
    let num = y * (2 * d3 + kp * y - kn * y);
    assert(d3 >= 0 && (d > 0 ==> d3 > 0)) by (nonlinear_arith)
        requires
            d3 == d * d * d,
            d >= 0,
    ;
    assert(a > 0 ==> kd > 0) by (nonlinear_arith)
        requires
            kd == 16 * (a * x),
            x > 0,
    ;
    assert(kd >= 0 && kp >= 0 && kn >= 0 && kp == kd * d) by (nonlinear_arith)
        requires
            kp == 16 * (a * (x * d)),
            kn == 4 * (x * (4 * (a * x) + d)),
            kd == 16 * (a * x),
            a >= 0,
            x > 0,
            d >= 0,
    ;
    assert(den > 0) by (nonlinear_arith)
        requires
            den == kd * y * y + d3,
            kd >= 0,
            d3 >= 0,
            kd > 0 || d3 > 0,
            y > 0,
    ;
    // num <= y * (2 d^3 + kp y) <= (2 y + d) * den
    let yy = y * y;
    assert(num <= 2 * (y * d3) + kp * yy) by (nonlinear_arith)
        requires
            num == y * (2 * d3 + kp * y - kn * y),
            yy == y * y,
            kn >= 0,
            y > 0,
    ;
    let core = kd * yy;
    assert(den == core + d3) by (nonlinear_arith)
        requires
            den == kd * y * y + d3,
            yy == y * y,
            core == kd * yy,
    ;
    assert((2 * y + d) * den == 2 * (y * den) + d * den) by (nonlinear_arith);
    assert(y * den == y * core + y * d3) by (nonlinear_arith)
        requires
            den == core + d3,
    ;
    assert(d * den == d * core + d * d3) by (nonlinear_arith)
        requires
            den == core + d3,
    ;
    assert(y * core == kd * (yy * y)) by (nonlinear_arith)
        requires
            core == kd * yy,
    ;
    assert(d * core == (kd * d) * yy) by (nonlinear_arith)
        requires
            core == kd * yy,
    ;
    assert((2 * y + d) * den == 2 * (kd * (yy * y)) + 2 * (y * d3) + (kd * d) * yy + d * d3);
    assert(kd * (yy * y) >= 0 && d * d3 >= 0) by (nonlinear_arith)
        requires
            kd >= 0,
            yy == y * y,
            y > 0,
            d >= 0,
            d3 >= 0,
    ;
    lemma_quotient_at_most(num, den, 2 * y + d);
}

/// Whether round `k` of a search takes a step: each of the first four
/// does, a later one only once the search was restarted.
pub open spec fn dy_round_steps(x: int, d: int, a: int, y_min: int, y0: int, k: nat) -> bool {
    k < 4 || dy_run(x, d, a, y_min, y0, k).restarted
}

/// Whether every step that the first `k` rounds of a search take fits.
pub open spec fn dy_rounds_fit(x: int, d: int, a: int, y_min: int, y0: int, k: nat) -> bool
    decreases k,
{
    if k == 0 {
        true
    } else {
        let j = (k - 1) as nat;
        dy_rounds_fit(x, d, a, y_min, y0, j) && (dy_round_steps(x, d, a, y_min, y0, j)
            ==> y_step_fits(x, d, a, dy_run(x, d, a, y_min, y0, j).y))
    }
}

/// Whether `calc_dy` can be computed on numbers below `2^256`: the scaled
/// reserves, the scaled `d`, the floor and the start fit a word, and so
/// does every step that the search takes.
pub open spec fn calc_dy_fits(x: u64, y: u64, a: u64, d: u64, dx: u64) -> bool {
    &&& (x - dx) * 65536 <= u64::MAX
    &&& d * 65536 <= u64::MAX
    &&& (y + 1) * 65536 <= u64::MAX
    &&& (y + dx) * 65536 <= u64::MAX
    &&& dy_rounds_fit(
        (x - dx) * 65536,
        d * 65536,
        a as int,
        (y + 1) * 65536,
        (y + dx) * 65536,
        8,
    )
}

/// Rounds that fit up to `k` fit up to every `j <= k`.
proof fn lemma_dy_rounds_fit_before(x: int, d: int, a: int, y_min: int, y0: int, j: nat, k: nat)
    requires
        j <= k,
        dy_rounds_fit(x, d, a, y_min, y0, k),
    ensures
        dy_rounds_fit(x, d, a, y_min, y0, j),
    decreases k,
{
    if j < k {
        lemma_dy_rounds_fit_before(x, d, a, y_min, y0, j, (k - 1) as nat);
    }
}

/// Once a search past its fourth round has not been restarted, no later
/// round takes a step, so nothing more has to fit.
proof fn lemma_dy_rests_fit(x: int, d: int, a: int, y_min: int, y0: int, k: nat, j: nat)
    requires
        4 <= k <= j,
        !dy_run(x, d, a, y_min, y0, k).restarted,
        dy_rounds_fit(x, d, a, y_min, y0, k),
    ensures
        dy_rounds_fit(x, d, a, y_min, y0, j),
    decreases j,
{
    if j > k {
        lemma_dy_rests_fit(x, d, a, y_min, y0, k, (j - 1) as nat);
        lemma_dy_rests(x, d, a, y_min, y0, k, (j - 1) as nat);
    }
}

/// Once a step leaves the candidate and the restart where they are, every
/// later step is from the same candidate, so it fits as that step did.
proof fn lemma_dy_settled_fit(x: int, d: int, a: int, y_min: int, y0: int, k: nat, j: nat)
    requires
        j > k,
        !(k + 1 > 4 && !dy_run(x, d, a, y_min, y0, k).restarted),
        dy_run(x, d, a, y_min, y0, k + 1).y == dy_run(x, d, a, y_min, y0, k).y,
        dy_run(x, d, a, y_min, y0, k + 1).restarted == dy_run(x, d, a, y_min, y0, k).restarted,
        dy_rounds_fit(x, d, a, y_min, y0, k + 1),
    ensures
        dy_rounds_fit(x, d, a, y_min, y0, j),
    decreases j,
{
    if j > k + 1 {
        lemma_dy_settled_fit(x, d, a, y_min, y0, k, (j - 1) as nat);
        lemma_dy_settled(x, d, a, y_min, y0, k, (j - 1) as nat);
    }
}

/// `c` doubled `k` times.
pub open spec fn doubled(k: nat, c: int) -> int
    decreases k,
{
    if k == 0 {
        c
    } else {
        2 * doubled((k - 1) as nat, c)
    }
}

/// Eight doublings are a factor of 256.
proof fn lemma_doubled(k: nat, c: int)
    requires
        c >= 0,
        k <= 8,
    ensures
        c <= doubled(k, c) <= 256 * c,
{
    reveal_with_fuel(doubled, 9);
}

/// A search never leaves the range between its floor or start and what
/// doubling its start, its floor and `d` in every round comes to.
proof fn lemma_dy_run_bound(x: int, d: int, a: int, y_min: int, y0: int, k: nat)
    requires
        x > 0,
        d >= 0,
        a >= 0,
        d > 0 || a > 0,
        y0 > 0,
        y_min > 0,
        k <= 8,
    ensures
        0 < dy_run(x, d, a, y_min, y0, k).y,
        dy_run(x, d, a, y_min, y0, k).y + d <= doubled(k, y0 + 2 * d + y_min),
    decreases k,
{
    let c = y0 + 2 * d + y_min;
    if k > 0 {
        let j = (k - 1) as nat;
        lemma_dy_run_bound(x, d, a, y_min, y0, j);
        lemma_doubled(j, c);
        lemma_y_step_bound(x, d, a, dy_run(x, d, a, y_min, y0, j).y);
    }
}

/// A step from a candidate below `2^60` fits, for a reserve and a `d`
/// below `2^50` under an amplification below `2^16`.
proof fn lemma_y_step_fits_common(x: int, d: int, a: int, y: int)
    requires
        0 < x < 0x4_0000_0000_0000,
        0 <= d < 0x4_0000_0000_0000,
        0 <= a < 0x1_0000,
        d > 0 || a > 0,
        0 < y < 0x1000_0000_0000_0000,
    ensures
        y_step_fits(x, d, a, y),
{
    let bx: int = 0x4_0000_0000_0000;
    let by: int = 0x1000_0000_0000_0000;
    lemma_product_bound(d, d, bx, bx);
    lemma_product_bound(d * d, d, bx * bx, bx);
    lemma_product_bound(x, d, bx, bx);
    lemma_product_bound(a, x * d, 0x1_0000, bx * bx);
    lemma_product_bound(16 * (a * (x * d)), y, 16 * (0x1_0000 * (bx * bx)), by);
    lemma_product_bound(a, x, 0x1_0000, bx);
    lemma_product_bound(x, 4 * (a * x) + d, bx, 4 * (0x1_0000 * bx) + bx);
    lemma_product_bound(
        4 * (x * (4 * (a * x) + d)),
        y,
        4 * (bx * (4 * (0x1_0000 * bx) + bx)),
        by,
    );
    lemma_product_bound(16 * (a * x), y, 16 * (0x1_0000 * bx), by);
    lemma_product_bound(16 * (a * x) * y, y, 16 * (0x1_0000 * bx) * by, by);
    let pos = 2 * (d * d * d) + 16 * (a * (x * d)) * y;
    let neg = 4 * (x * (4 * (a * x) + d)) * y;
    if pos >= neg {
        lemma_product_bound(y, pos - neg, by, 2 * (bx * bx * bx) + 16 * (0x1_0000 * (bx * bx)) * by);
        lemma_y_step_bound(x, d, a, y);
    }
}

/// Every step of a search fits where each step from a candidate that the
/// search can reach does.
proof fn lemma_dy_rounds_fit_common(x: int, d: int, a: int, y_min: int, y0: int, k: nat)
    requires
        0 < x < 0x4_0000_0000_0000,
        0 <= d < 0x4_0000_0000_0000,
        0 <= a < 0x1_0000,
        d > 0 || a > 0,
        0 < y0 < 0x4_0000_0000_0000,
        0 < y_min <= 0x4_0000_0000_0000,
        k <= 8,
    ensures
        dy_rounds_fit(x, d, a, y_min, y0, k),
    decreases k,
{
    if k > 0 {
        let j = (k - 1) as nat;
        lemma_dy_rounds_fit_common(x, d, a, y_min, y0, j);
        lemma_dy_run_bound(x, d, a, y_min, y0, j);
        lemma_doubled(j, y0 + 2 * d + y_min);
        lemma_y_step_fits_common(x, d, a, dy_run(x, d, a, y_min, y0, j).y);
    }
}

/// Trades of common size are computed on numbers below `2^256`: reserves
/// and a `d` below `2^34` under an amplification below `2^16`.
pub proof fn lemma_calc_dy_fits_common(x: u64, y: u64, a: u64, d: u64, dx: u64)
    requires
        dx < x,
        !((d == 0 && a == 0) || (y == 0 && dx == 0)),
        x < 0x4_0000_0000,
        d < 0x4_0000_0000,
        y + dx < 0x4_0000_0000,
        a < 0x1_0000,
    ensures
        calc_dy_fits(x, y, a, d, dx),
{
    lemma_dy_rounds_fit_common(
        (x - dx) * 65536,
        d * 65536,
        a as int,
        (y + 1) * 65536,
        (y + dx) * 65536,
        8,
    );
}

/// [`calc_dy`] on numbers below `2^256`: its result where every number on
/// the way is below `2^256`, and the outer `None` where one is not.
fn calc_dy_narrow(x: u64, y: u64, a: u64, d: u64, dx: u64) -> (r: Option<Option<u64>>)
    requires
        dx < x,
        !((d == 0 && a == 0) || (y == 0 && dx == 0)),
    ensures
        r matches Some(v) ==> v == spec_calc_dy(x, y, a, d, dx),
        r is Some <==> calc_dy_fits(x, y, a, d, dx),
{
    let xs: u64 = (x - dx).checked_mul(UNIT)?;
    let ds: u64 = d.checked_mul(UNIT)?;
    let ys: u64 = y.checked_mul(UNIT)?;
    let y_min: u64 = ys.checked_add(UNIT)?;
    let mut m: u64 = y.checked_add(dx)?.checked_mul(UNIT)?;
    proof {
        lemma_word_times_word(ds, ds);
        lemma_word_times_word(a, xs);
        let word: int = 0xFFFF_FFFF_FFFF_FFFF;
        let pair: int = 0xFFFF_FFFF_FFFF_FFFE_0000_0000_0000_0001;
        // every constant of the search is below 2^200
        lemma_product_bound(ds * ds, ds as int, pair, word);
        lemma_product_bound(a * xs, ds as int, pair, word);
        lemma_product_bound((a * xs) * 4 + ds, xs as int, 4 * pair + word, word);
    }
    let d3 = U256::from_u128(ds as u128 * ds as u128).checked_mul_small(ds)?;
    let two_d3 = d3.checked_mul_small(2)?;
    let ax = U256::from_u128(a as u128 * xs as u128);
    let k_den = ax.checked_mul_small(16)?;
    let k_pos = ax.checked_mul_small(ds)?.checked_mul_small(16)?;
    let k_neg = ax.checked_mul_small(4)?.checked_add(&U256::from_u64(ds))?.checked_mul_small(
        xs,
    )?.checked_mul_small(4)?;
    let ghost gx: int = (x - dx) * 65536;
    let ghost gd: int = d * 65536;
    let ghost ga: int = a as int;
    let ghost gmin: int = (y + 1) * 65536;
    let ghost g0: int = (y + dx) * 65536;
    proof {
        assert(k_den@ == 16 * (ga * gx)) by (nonlinear_arith)
            requires
                k_den@ == (ga * gx) * 16,
        ;
        assert(k_pos@ == 16 * (ga * (gx * gd))) by (nonlinear_arith)
            requires
                k_pos@ == ((ga * gx) * gd) * 16,
        ;
        assert(k_neg@ == 4 * (gx * (4 * (ga * gx) + gd))) by (nonlinear_arith)
            requires
                k_neg@ == ((((ga * gx) * 4) + gd) * gx) * 4,
        ;
    }
    let mut restarted = false;
    let mut exceeded = false;
    let mut i: u64 = 0;
    while i < DY_NM_MAX_ITERS
        invariant_except_break
            i <= 8,
            m == dy_run(gx, gd, ga, gmin, g0, i as nat).y,
            restarted == dy_run(gx, gd, ga, gmin, g0, i as nat).restarted,
            exceeded == (dy_run(gx, gd, ga, gmin, g0, i as nat).last_move > 65536 || dy_run(
                gx,
                gd,
                ga,
                gmin,
                g0,
                i as nat,
            ).last_move < -65536),
            m >= 65536,
            i >= 1 ==> m >= gmin,
            dy_rounds_fit(gx, gd, ga, gmin, g0, i as nat),
        invariant
            gx == (x - dx) * 65536,
            gd == d * 65536,
            ga == a as int,
            gmin == (y + 1) * 65536,
            g0 == (y + dx) * 65536,
            gx > 0,
            gd > 0 || ga > 0,
            y_min == gmin,
            d3@ == gd * gd * gd,
            two_d3@ == 2 * (gd * gd * gd),
            k_den@ == 16 * (ga * gx),
            k_pos@ == 16 * (ga * (gx * gd)),
            k_neg@ == 4 * (gx * (4 * (ga * gx) + gd)),
        ensures
            m == dy_run(gx, gd, ga, gmin, g0, 8).y,
            exceeded == (dy_run(gx, gd, ga, gmin, g0, 8).last_move > 65536 || dy_run(
                gx,
                gd,
                ga,
                gmin,
                g0,
                8,
            ).last_move < -65536),
            m >= gmin,
            dy_rounds_fit(gx, gd, ga, gmin, g0, 8),
        decreases 8 - i,
    {
        if !restarted && i >= DY_NM_EXP_ITERS {
            proof {
                lemma_dy_rests(gx, gd, ga, gmin, g0, i as nat, 8);
                lemma_dy_rests_fit(gx, gd, ga, gmin, g0, i as nat, 8);
            }
            break ;
        }
        let before = m;
        let restarted_before = restarted;
        proof {
            if dy_rounds_fit(gx, gd, ga, gmin, g0, 8) {
                lemma_dy_rounds_fit_before(gx, gd, ga, gmin, g0, (i + 1) as nat, 8);
            }
        }
        let raw = narrow_y_step(
            &two_d3,
            &d3,
            &k_den,
            &k_pos,
            &k_neg,
            m,
            Ghost(gx),
            Ghost(gd),
            Ghost(ga),
        )?;
        match raw {
            Some(q) => {
                exceeded = if q <= m {
                    m - q > UNIT
                } else {
                    q - m > UNIT
                };
                if y_min <= q {
                    m = q;
                } else {
                    m = y_min;
                    restarted = true;
                }
            },
            None => {
                exceeded = true;
                m = y_min;
                restarted = true;
            },
        }
        i += 1;
        if m == before && restarted == restarted_before {
            proof {
                lemma_dy_settled(gx, gd, ga, gmin, g0, (i - 1) as nat, 8);
                lemma_dy_settled_fit(gx, gd, ga, gmin, g0, (i - 1) as nat, 8);
            }
            break ;
        }
    }
    if exceeded {
        return Some(None);
    }
    let rounded: u128 = ((m - ys) as u128 + (UNIT / 2) as u128) / (UNIT as u128);
    Some(Some(rounded as u64))
}

/// The amount `dy` to add to the reserve `y` when `dx` leaves the reserve
/// `x`, so that the pool stays on the curve of `d`: Newton steps from
/// `y + dx`, four of them, or eight once a step fell below `y + 1` and the
/// search was restarted there.
///
/// `None` where `dx >= x`, where the last step still moved the candidate
/// by more than one whole amount, or where the reserve found does not fit.
/// A caller that gets `None` cannot size the trade. Without a curve
/// (`d == 0` and `a == 0`) and without anything to start from (`y == 0`
/// and `dx == 0`) the answer is zero.
///
/// The amounts are taken as of equal value unit for unit: bring them to
/// the same number of decimals first.
pub fn calc_dy(x: u64, y: u64, a: u64, d: u64, dx: u64) -> (r: Option<u64>)
    ensures
        r == spec_calc_dy(x, y, a, d, dx),
        dx >= x ==> r is None,
        r matches Some(dy) ==> (dy == 0 <==> (d == 0 && a == 0) || (y == 0 && dx == 0)),
{
    if dx >= x {
        return None;
    }
    if (d == 0 && a == 0) || (y == 0 && dx == 0) {
        return Some(0);
    }
    proof {
        if spec_calc_dy(x, y, a, d, dx) is Some {
            lemma_calc_dy_at_least_one(x, y, a, d, dx);
        }
    }
    match calc_dy_narrow(x, y, a, d, dx) {
        Some(r) => r,
        None => calc_dy_wide(x, y, a, d, dx),
    }
}

/// The share tokens for a deposit that moves the balanced value of the pool
/// from `d_0` to `d_1`: `d_1` itself into an empty supply, whatever `d_0`;
/// else the supply times the growth `(d_1 - d_0) / d_0`, rounded down.
/// `None` where a supply is in place and the value fell, where it stands
/// against no value, or where the result does not fit.
pub fn lp_for_growth(lp_mint_supply: u64, d_0: u64, d_1: u64) -> (r: Option<u64>)
    ensures
        r == spec_lp_for_growth(lp_mint_supply, d_0, d_1),
{
    if lp_mint_supply == 0 {
        return Some(d_1);
    }
    if d_1 < d_0 {
        return None;
    }
    if d_0 == 0 {
        return None;
    }
    let growth: u64 = d_1 - d_0;
    assert(lp_mint_supply as u128 * growth as u128 <= u128::MAX) by (nonlinear_arith)
        requires
            lp_mint_supply <= u64::MAX,
            growth <= u64::MAX,
    ;
    let minted: u128 = (lp_mint_supply as u128 * growth as u128) / (d_0 as u128);
    if minted > u64::MAX as u128 {
        None
    } else {
        Some(minted as u64)
    }
}

/// The share tokens to mint for a deposit into a pool on the low-slippage
/// curve: the supply grows as the balanced value of the reserves does, both
/// taken at equal decimals; the first deposit mints the balanced value
/// itself. `None` where an amount does not fit on the way.
pub fn calculate_stableswap_lp_minted(
    lp_mint_supply: u64,
    reserve_base_amount: u64,
    reserve_quote_amount: u64,
    deposit_base_amount: u64,
    deposit_quote_amount: u64,
    base_decimals: u8,
    quote_decimals: u8,
) -> (r: Option<u64>)
    ensures
        r == spec_stableswap_lp_minted(
            lp_mint_supply,
            reserve_base_amount,
            reserve_quote_amount,
            deposit_base_amount,
            deposit_quote_amount,
            base_decimals,
            quote_decimals,
        ),
{
    let reserve = normalize_decimals(
        reserve_base_amount,
        base_decimals,
        reserve_quote_amount,
        quote_decimals,
    );
    let deposit = normalize_decimals(
        deposit_base_amount,
        base_decimals,
        deposit_quote_amount,
        quote_decimals,
    );
    match (reserve, deposit) {
        (Some((rb, rq)), Some((db, dq))) => match (rb.checked_add(db), rq.checked_add(dq)) {
            (Some(base), Some(quote)) => match (
                calc_d(rb, rq, STABLESWAP_AMP_COEFFICIENT),
                calc_d(base, quote, STABLESWAP_AMP_COEFFICIENT),
            ) {
                (Some(d_0), Some(d_1)) => lp_for_growth(lp_mint_supply, d_0, d_1),
                _ => None,
            },
            _ => None,
        },
        _ => None,
    }
}

} // verus!
