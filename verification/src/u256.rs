//! Natural numbers below `2^256`, held in four machine words.
//!
//! For pools of common size every number the curve solver meets fits 256
//! bits. `U256` computes on them without allocating. Each operation that
//! could leave the range says so by returning `None`.
use vstd::arithmetic::div_mod::{lemma_fundamental_div_mod, lemma_fundamental_div_mod_converse};
use vstd::arithmetic::power2::{lemma2_to64, lemma2_to64_rest, lemma_pow2_adds, lemma_pow2_pos, pow2};
use vstd::bits::{lemma_u64_low_bits_mask_is_mod, lemma_u64_shl_is_mul, lemma_u64_shr_is_div, low_bits_mask};
use vstd::std_specs::bits::{axiom_u64_leading_zeros, u64_leading_zeros};
use vstd::prelude::*;

verus! {

/// `2^256`, the first number that a `U256` cannot hold.
pub open spec fn limit() -> nat {
    0x1_0000_0000_0000_0000_0000_0000_0000_0000_0000_0000_0000_0000_0000_0000_0000_0000nat
}

/// The number written by four 64-bit limbs, lowest first.
pub open spec fn limbs4(l0: u64, l1: u64, l2: u64, l3: u64) -> nat {
    (l0 as nat + l1 as nat * 0x1_0000_0000_0000_0000 + l2 as nat
        * 0x1_0000_0000_0000_0000_0000_0000_0000_0000 + l3 as nat
        * 0x1_0000_0000_0000_0000_0000_0000_0000_0000_0000_0000_0000_0000nat) as nat
}

/// A natural number below `2^256`.
#[derive(Clone, Copy)]
pub struct U256 {
    l0: u64,
    l1: u64,
    l2: u64,
    l3: u64,
}

impl View for U256 {
    type V = nat;

    closed spec fn view(&self) -> nat {
        limbs4(self.l0, self.l1, self.l2, self.l3)
    }
}

proof fn lemma_word_product(l: u64, m: u64)
    by (nonlinear_arith)
    ensures
        l * m <= 0xFFFF_FFFF_FFFF_FFFE_0000_0000_0000_0001,
{
}

/// Shifting a word up by `sh` keeps its low `64 - sh` bits, moved up; the
/// bits of the word below that move in are its high `sh` bits.
proof fn lemma_shift_parts(a: u64, b: u64, sh: u64)
    requires
        0 < sh < 64,
    ensures
        (a << sh) == (a as nat % pow2((64 - sh) as nat)) * pow2(sh as nat),
        (b >> ((64 - sh) as u64)) == b as nat / pow2((64 - sh) as nat),
        ((a << sh) | (b >> ((64 - sh) as u64))) == (a << sh) + (b >> ((64 - sh) as u64)),
        pow2(sh as nat) * pow2((64 - sh) as nat) == 0x1_0000_0000_0000_0000,
{
    let k: u64 = (64 - sh) as u64;
    let p = pow2(sh as nat);
    let m = pow2(k as nat);
    lemma_pow2_adds(sh as nat, k as nat);
    lemma2_to64();
    lemma2_to64_rest();
    lemma_pow2_pos(sh as nat);
    lemma_pow2_pos(k as nat);
    assert(p * m == 0x1_0000_0000_0000_0000);
    lemma_u64_shr_is_div(b, k);
    // the mask of the low k bits
    let mask: u64 = u64::MAX >> sh;
    lemma_u64_shr_is_div(u64::MAX, sh);
    assert(mask as nat == m - 1) by {
        assert(0xFFFF_FFFF_FFFF_FFFF == p * (m - 1) + (p - 1)) by (nonlinear_arith)
            requires
                p * m == 0x1_0000_0000_0000_0000,
        ;
        vstd::arithmetic::div_mod::lemma_fundamental_div_mod_converse(
            0xFFFF_FFFF_FFFF_FFFF,
            p as int,
            m - 1,
            p - 1,
        );
    }
    assert(mask as nat == low_bits_mask(k as nat));
    lemma_u64_low_bits_mask_is_mod(a, k as nat);
    let lo: u64 = a & mask;
    assert(lo as nat == a as nat % m);
    assert(a << sh == lo << sh) by (bit_vector)
        requires
            lo == a & (0xFFFF_FFFF_FFFF_FFFFu64 >> sh),
            0 < sh < 64,
    ;
    assert(lo * p <= u64::MAX) by (nonlinear_arith)
        requires
            lo <= m - 1,
            p * m == 0x1_0000_0000_0000_0000,
            p >= 1,
    ;
    lemma_u64_shl_is_mul(lo, sh);
    assert(((a << sh) | (b >> k)) == (a << sh) + (b >> k)) by (bit_vector)
        requires
            0 < sh < 64,
            k == 64 - sh,
    ;
}

/// The weight of limb `i`: `2^(64 i)`.
pub open spec fn weight(i: nat) -> nat
    decreases i,
{
    if i == 0 {
        1
    } else {
        0x1_0000_0000_0000_0000 * weight((i - 1) as nat)
    }
}

/// Limb `i` of the number `v`: `(v / 2^(64 i)) mod 2^64`.
pub open spec fn word_of(v: nat, i: nat) -> nat {
    (v / weight(i)) % 0x1_0000_0000_0000_0000
}

/// The first weights, written out.
proof fn lemma_weights()
    ensures
        weight(0) == 1,
        weight(1) == 0x1_0000_0000_0000_0000,
        weight(2) == 0x1_0000_0000_0000_0000_0000_0000_0000_0000nat,
        weight(3) == 0x1_0000_0000_0000_0000_0000_0000_0000_0000_0000_0000_0000_0000nat,
        weight(4) == limit(),
        weight(5) == 0x1_0000_0000_0000_0000 * limit(),
{
    reveal_with_fuel(weight, 6);
}

/// Weights grow with the limb.
proof fn lemma_weight_grows(i: nat, j: nat)
    requires
        i <= j,
    ensures
        1 <= weight(i) <= weight(j),
    decreases j,
{
    if j > 0 {
        if i < j {
            lemma_weight_grows(i, (j - 1) as nat);
        } else {
            lemma_weight_grows((i - 1) as nat, (j - 1) as nat);
        }
        assert(0x1_0000_0000_0000_0000 * weight((j - 1) as nat) >= weight((j - 1) as nat))
            by (nonlinear_arith)
            requires
                weight((j - 1) as nat) >= 1,
        ;
        if i == j {
        } else {
        }
    }
}

/// The digit of five at place `i`, zero further up.
pub open spec fn digit_of(d0: nat, d1: nat, d2: nat, d3: nat, d4: nat, i: nat) -> nat {
    if i == 0 {
        d0
    } else if i == 1 {
        d1
    } else if i == 2 {
        d2
    } else if i == 3 {
        d3
    } else if i == 4 {
        d4
    } else {
        0
    }
}

/// A number written in five limbs has those limbs, and none above them.
proof fn lemma_digits(v: nat, d0: nat, d1: nat, d2: nat, d3: nat, d4: nat, i: nat)
    requires
        d0 < 0x1_0000_0000_0000_0000,
        d1 < 0x1_0000_0000_0000_0000,
        d2 < 0x1_0000_0000_0000_0000,
        d3 < 0x1_0000_0000_0000_0000,
        d4 < 0x1_0000_0000_0000_0000,
        v == d0 + d1 * 0x1_0000_0000_0000_0000 + d2 * 0x1_0000_0000_0000_0000_0000_0000_0000_0000nat
            + d3 * 0x1_0000_0000_0000_0000_0000_0000_0000_0000_0000_0000_0000_0000nat + d4
            * limit(),
    ensures
        word_of(v, i) == digit_of(d0, d1, d2, d3, d4, i),
{
    lemma_weights();
    let b: int = 0x1_0000_0000_0000_0000;
    let b2: int = 0x1_0000_0000_0000_0000_0000_0000_0000_0000int;
    let b3: int = 0x1_0000_0000_0000_0000_0000_0000_0000_0000_0000_0000_0000_0000int;
    if i == 0 {
        let hi = d1 + d2 * b + d3 * b2 + d4 * b3;
        vstd::arithmetic::div_mod::lemma_div_basics(v as int);
        lemma_fundamental_div_mod_converse(v as int, b, hi as int, d0 as int);
    } else if i == 1 {
        let hi = d2 + d3 * b + d4 * b2;
        lemma_fundamental_div_mod_converse(v as int, b, d1 + hi * b, d0 as int);
        lemma_fundamental_div_mod_converse(d1 + hi * b, b, hi, d1 as int);
    } else if i == 2 {
        let hi = d3 + d4 * b;
        lemma_fundamental_div_mod_converse(v as int, b2, d2 + hi * b, d0 + d1 * b);
        lemma_fundamental_div_mod_converse(d2 + hi * b, b, hi, d2 as int);
    } else if i == 3 {
        lemma_fundamental_div_mod_converse(v as int, b3, d3 + d4 * b, d0 + d1 * b + d2 * b2);
        lemma_fundamental_div_mod_converse(d3 + d4 * b, b, d4 as int, d3 as int);
    } else if i == 4 {
        lemma_fundamental_div_mod_converse(
            v as int,
            limit() as int,
            d4 as int,
            d0 + d1 * b + d2 * b2 + d3 * b3,
        );
        lemma_fundamental_div_mod_converse(d4 as int, b, 0, d4 as int);
    } else {
        lemma_weight_grows(5, i);
        vstd::arithmetic::div_mod::lemma_basic_div(v as int, weight(i) as int);
    }
}

/// A word times `p`, for `2^64 = p * m`: the high part `l / m` moves into
/// the limb above, the low part `l mod m` stays, times `p`.
proof fn lemma_word_shifted(l: nat, p: nat, m: nat)
    requires
        l < 0x1_0000_0000_0000_0000,
        p * m == 0x1_0000_0000_0000_0000,
        p >= 1,
        m >= 1,
    ensures
        l * p == (l / m) * 0x1_0000_0000_0000_0000 + (l % m) * p,
        l / m < p,
        (l % m) * p + p <= 0x1_0000_0000_0000_0000,
{
    lemma_fundamental_div_mod(l as int, m as int);
    let hi = l / m;
    let lo = l % m;
    assert(l * p == hi * (p * m) + lo * p) by (nonlinear_arith)
        requires
            l == m * hi + lo,
    ;
    assert(hi < p) by (nonlinear_arith)
        requires
            l == m * hi + lo,
            l < p * m,
            m >= 1,
    ;
    assert(lo * p + p <= p * m) by (nonlinear_arith)
        requires
            lo < m,
            p >= 1,
    ;
}

/// `x` times the weight of limb `t`, with the weight written out.
proof fn lemma_times_weight(x: int, t: nat)
    requires
        t <= 3,
    ensures
        t == 0 ==> x * weight(t) == x,
        t == 1 ==> x * weight(t) == x * 0x1_0000_0000_0000_0000,
        t == 2 ==> x * weight(t) == x * 0x1_0000_0000_0000_0000_0000_0000_0000_0000int,
        t == 3 ==> x * weight(t) == x
            * 0x1_0000_0000_0000_0000_0000_0000_0000_0000_0000_0000_0000_0000int,
{
    lemma_weights();
    let w = weight(t);
    if t == 0 {
        assert(x * w == x) by (nonlinear_arith)
            requires
                w == 1,
        ;
    } else if t == 1 {
        assert(x * w == x * 0x1_0000_0000_0000_0000) by (nonlinear_arith)
            requires
                w == 0x1_0000_0000_0000_0000,
        ;
    } else if t == 2 {
        assert(x * w == x * 0x1_0000_0000_0000_0000_0000_0000_0000_0000int) by (nonlinear_arith)
            requires
                w == 0x1_0000_0000_0000_0000_0000_0000_0000_0000int,
        ;
    } else {
        assert(x * w == x * 0x1_0000_0000_0000_0000_0000_0000_0000_0000_0000_0000_0000_0000int)
            by (nonlinear_arith)
            requires
                w == 0x1_0000_0000_0000_0000_0000_0000_0000_0000_0000_0000_0000_0000int,
        ;
    }
}

/// A number whose limbs above `t` are zero lies between its limb `t` times
/// the weight of `t` and that limb and one times the weight.
proof fn lemma_leading_limb(v: int, d0: int, d1: int, d2: int, d3: int, d4: int, t: nat)
    requires
        0 <= d0 < 0x1_0000_0000_0000_0000,
        0 <= d1 < 0x1_0000_0000_0000_0000,
        0 <= d2 < 0x1_0000_0000_0000_0000,
        0 <= d3 < 0x1_0000_0000_0000_0000,
        d4 == 0,
        v == d0 + d1 * 0x1_0000_0000_0000_0000 + d2 * 0x1_0000_0000_0000_0000_0000_0000_0000_0000int
            + d3 * 0x1_0000_0000_0000_0000_0000_0000_0000_0000_0000_0000_0000_0000int,
        t <= 3,
        t < 1 ==> d1 == 0,
        t < 2 ==> d2 == 0,
        t < 3 ==> d3 == 0,
    ensures
        digit_of(d0 as nat, d1 as nat, d2 as nat, d3 as nat, 0, t) * weight(t) <= v,
        v < (digit_of(d0 as nat, d1 as nat, d2 as nat, d3 as nat, 0, t) + 1) * weight(t),
{
    let d = digit_of(d0 as nat, d1 as nat, d2 as nat, d3 as nat, 0, t) as int;
    lemma_times_weight(d, t);
    lemma_times_weight(d + 1, t);
}

/// A number of five limbs is at least what its limbs `t` and `t + 1`
/// write, and at least the weight two limbs above `t` if a limb from there
/// on is not zero.
proof fn lemma_leading_pair(v: int, d0: int, d1: int, d2: int, d3: int, d4: int, t: nat)
    requires
        0 <= d0,
        0 <= d1,
        0 <= d2,
        0 <= d3,
        0 <= d4,
        v == d0 + d1 * 0x1_0000_0000_0000_0000 + d2 * 0x1_0000_0000_0000_0000_0000_0000_0000_0000int
            + d3 * 0x1_0000_0000_0000_0000_0000_0000_0000_0000_0000_0000_0000_0000int + d4
            * limit(),
        t <= 3,
    ensures
        (digit_of(d0 as nat, d1 as nat, d2 as nat, d3 as nat, d4 as nat, t + 1)
            * 0x1_0000_0000_0000_0000 + digit_of(
            d0 as nat,
            d1 as nat,
            d2 as nat,
            d3 as nat,
            d4 as nat,
            t,
        )) * weight(t) <= v,
        ((t == 0 && d2 >= 1) || (t <= 1 && d3 >= 1) || (t <= 2 && d4 >= 1))
            ==> 0x1_0000_0000_0000_0000_0000_0000_0000_0000int * weight(t) <= v,
{
    let pair = digit_of(d0 as nat, d1 as nat, d2 as nat, d3 as nat, d4 as nat, t + 1)
        * 0x1_0000_0000_0000_0000 + digit_of(
        d0 as nat,
        d1 as nat,
        d2 as nat,
        d3 as nat,
        d4 as nat,
        t,
    );
    lemma_times_weight(pair as int, t);
    lemma_times_weight(0x1_0000_0000_0000_0000_0000_0000_0000_0000int, t);
}

/// A word shifted up by the number of its leading zeros has its highest
/// bit set, and loses none.
proof fn lemma_normalized(top: u64)
    requires
        top != 0,
    ensures
        0 <= u64_leading_zeros(top) < 64,
        top as nat / pow2((64 - u64_leading_zeros(top)) as nat) == 0,
        top as nat * pow2(u64_leading_zeros(top) as nat) >= 0x8000_0000_0000_0000,
{
    axiom_u64_leading_zeros(top);
    let lz = u64_leading_zeros(top) as u64;
    lemma2_to64();
    lemma2_to64_rest();
    lemma_pow2_pos(lz as nat);
    if lz == 0 {
        vstd::arithmetic::div_mod::lemma_basic_div(top as int, pow2(64) as int);
        let bit = top >> 63u64;
        assert(bit & 1 != 0 ==> top >= 0x8000_0000_0000_0000) by (bit_vector)
            requires
                bit == top >> 63u64,
        ;
        assert(top * pow2(0) == top) by (nonlinear_arith)
            requires
                pow2(0) == 1,
        ;
    } else {
        let k: u64 = (64 - lz) as u64;
        lemma_u64_shr_is_div(top, k);
        let j: u64 = (63 - lz) as u64;
        lemma_u64_shr_is_div(top, j);
        let bit = top >> j;
        assert(bit & 1 != 0 ==> bit >= 1) by (bit_vector);
        // top / 2^j >= 1, so top >= 2^j, and 2^j * 2^lz = 2^63
        lemma_pow2_pos(j as nat);
        lemma_fundamental_div_mod(top as int, pow2(j as nat) as int);
        assert(top >= pow2(j as nat)) by (nonlinear_arith)
            requires
                top == pow2(j as nat) * (top as nat / pow2(j as nat)) + top as nat % pow2(j as nat),
                top as nat / pow2(j as nat) >= 1,
                pow2(j as nat) >= 1,
        ;
        lemma_pow2_adds(j as nat, lz as nat);
        assert(top * pow2(lz as nat) >= pow2(j as nat) * pow2(lz as nat)) by (nonlinear_arith)
            requires
                top >= pow2(j as nat),
                pow2(lz as nat) >= 1,
        ;
    }
}

/// A number whose limbs above `t + 1` are zero is below what its limbs `t`
/// and `t + 1` write and one, times the weight of `t`.
proof fn lemma_pair_above(v: int, d0: int, d1: int, d2: int, d3: int, d4: int, t: nat)
    requires
        0 <= d0 < 0x1_0000_0000_0000_0000,
        0 <= d1 < 0x1_0000_0000_0000_0000,
        0 <= d2 < 0x1_0000_0000_0000_0000,
        0 <= d3 < 0x1_0000_0000_0000_0000,
        0 <= d4 < 0x1_0000_0000_0000_0000,
        v == d0 + d1 * 0x1_0000_0000_0000_0000 + d2 * 0x1_0000_0000_0000_0000_0000_0000_0000_0000int
            + d3 * 0x1_0000_0000_0000_0000_0000_0000_0000_0000_0000_0000_0000_0000int + d4
            * limit(),
        t <= 3,
        t < 1 ==> d2 == 0,
        t < 2 ==> d3 == 0,
        t < 3 ==> d4 == 0,
    ensures
        v < (digit_of(d0 as nat, d1 as nat, d2 as nat, d3 as nat, d4 as nat, t + 1)
            * 0x1_0000_0000_0000_0000 + digit_of(
            d0 as nat,
            d1 as nat,
            d2 as nat,
            d3 as nat,
            d4 as nat,
            t,
        ) + 1) * weight(t),
{
    let pair = digit_of(d0 as nat, d1 as nat, d2 as nat, d3 as nat, d4 as nat, t + 1)
        * 0x1_0000_0000_0000_0000 + digit_of(
        d0 as nat,
        d1 as nat,
        d2 as nat,
        d3 as nat,
        d4 as nat,
        t,
    );
    lemma_times_weight((pair + 1) as int, t);
}

/// A guess from leading limbs is close: with the leading limb of `den`
/// normalized, the quotient is at most four above the leading two limbs of
/// `num` over the leading limb of `den` and one.
proof fn lemma_guess_close(num: int, den: int, p: int, w: int, lead: int, part: int)
    requires
        p >= 1,
        w >= 1,
        den > 0,
        num >= 0,
        0x8000_0000_0000_0000 <= lead,
        0 <= part < 0x1_0000_0000_0000_0000_0000_0000_0000_0000int,
        lead * w <= den * p,
        num * p < (part + 1) * w,
    ensures
        num / den <= part / (lead + 1) + 4,
{
    let q = num / den;
    let g = part / (lead + 1);
    lemma_fundamental_div_mod(num, den);
    lemma_fundamental_div_mod(part, lead + 1);
    assert(q >= 0) by (nonlinear_arith)
        requires
            num == den * q + num % den,
            num % den < den,
            num >= 0,
            den > 0,
    ;
    assert(q * den <= num) by (nonlinear_arith)
        requires
            num == den * q + num % den,
            0 <= num % den,
    ;
    assert((q * lead) * w <= (q * den) * p) by (nonlinear_arith)
        requires
            lead * w <= den * p,
            q >= 0,
    ;
    assert((q * den) * p <= num * p) by (nonlinear_arith)
        requires
            q * den <= num,
            p >= 1,
    ;
    assert(q * lead < part + 1) by (nonlinear_arith)
        requires
            (q * lead) * w < (part + 1) * w,
            w >= 1,
    ;
    assert(part < (g + 1) * (lead + 1)) by (nonlinear_arith)
        requires
            part == (lead + 1) * g + part % (lead + 1),
            part % (lead + 1) < lead + 1,
    ;
    assert(g >= 0) by (nonlinear_arith)
        requires
            part == (lead + 1) * g + part % (lead + 1),
            part % (lead + 1) < lead + 1,
            part >= 0,
            lead >= 0,
    ;
    assert(g * (lead + 1) <= part) by (nonlinear_arith)
        requires
            part == (lead + 1) * g + part % (lead + 1),
            0 <= part % (lead + 1),
    ;
    assert(g < 0x2_0000_0000_0000_0000) by (nonlinear_arith)
        requires
            g * (lead + 1) <= part,
            part < 0x1_0000_0000_0000_0000_0000_0000_0000_0000int,
            lead >= 0x8000_0000_0000_0000,
            g >= 0,
    ;
    assert(q <= g + 4) by (nonlinear_arith)
        requires
            q * lead <= part,
            part < (g + 1) * (lead + 1),
            0 <= g < 0x2_0000_0000_0000_0000,
            lead >= 0x8000_0000_0000_0000,
    ;
}

/// A guess `g` with `g * (lead + 1) <= part` is not above `num / den`,
/// where `lead` and `part` are what `den` and `num`, both times `p`, hold
/// above the weight `w`.
proof fn lemma_guess_below(num: int, den: int, p: int, w: int, lead: int, part: int, g: int)
    requires
        p >= 1,
        w >= 1,
        0 <= den,
        0 <= g,
        0 <= lead,
        den * p < (lead + 1) * w,
        part * w <= num * p,
        g * (lead + 1) <= part,
    ensures
        g * den <= num,
{
    assert((g * den) * p <= (g * (lead + 1)) * w) by (nonlinear_arith)
        requires
            den * p < (lead + 1) * w,
            g >= 0,
    ;
    assert((g * (lead + 1)) * w <= part * w) by (nonlinear_arith)
        requires
            g * (lead + 1) <= part,
            w >= 1,
    ;
    assert(g * den <= num) by (nonlinear_arith)
        requires
            (g * den) * p <= num * p,
            p >= 1,
    ;
}

proof fn lemma_quotient_at_least(n: int, d: int, q: int)
    requires
        d > 0,
        n >= d * q,
    ensures
        n / d >= q,
{
    lemma_fundamental_div_mod(n, d);
    assert(n / d >= q) by (nonlinear_arith)
        requires
            n == d * (n / d) + n % d,
            n % d < d,
            n >= d * q,
            d > 0,
    ;
}

impl U256 {
    /// Every `U256` is below `2^256`.
    pub proof fn lemma_below_limit(&self)
        ensures
            self@ < limit(),
    {
    }

    /// The number `v`.
    pub fn from_u64(v: u64) -> (r: U256)
        ensures
            r@ == v,
    {
        U256 { l0: v, l1: 0, l2: 0, l3: 0 }
    }

    /// The number `v`.
    pub fn from_u128(v: u128) -> (r: U256)
        ensures
            r@ == v,
    {
        U256 {
            l0: (v % 0x1_0000_0000_0000_0000) as u64,
            l1: (v / 0x1_0000_0000_0000_0000) as u64,
            l2: 0,
            l3: 0,
        }
    }

    /// The number as a `u64`, or `None` where it does not fit.
    pub fn to_u64(&self) -> (r: Option<u64>)
        ensures
            match r {
                Some(v) => v as nat == self@,
                None => self@ > u64::MAX,
            },
    {
        if self.l1 == 0 && self.l2 == 0 && self.l3 == 0 {
            Some(self.l0)
        } else {
            None
        }
    }

    /// Whether `self <= other`.
    pub fn le(&self, other: &U256) -> (r: bool)
        ensures
            r == (self@ <= other@),
    {
        if self.l3 != other.l3 {
            self.l3 < other.l3
        } else if self.l2 != other.l2 {
            self.l2 < other.l2
        } else if self.l1 != other.l1 {
            self.l1 < other.l1
        } else {
            self.l0 <= other.l0
        }
    }

    /// The sum, or `None` where it reaches `2^256`.
    pub fn checked_add(&self, other: &U256) -> (r: Option<U256>)
        ensures
            match r {
                Some(v) => v@ == self@ + other@,
                None => self@ + other@ >= limit(),
            },
    {
        let t0: u128 = self.l0 as u128 + other.l0 as u128;
        let t1: u128 = self.l1 as u128 + other.l1 as u128 + t0 / 0x1_0000_0000_0000_0000;
        let t2: u128 = self.l2 as u128 + other.l2 as u128 + t1 / 0x1_0000_0000_0000_0000;
        let t3: u128 = self.l3 as u128 + other.l3 as u128 + t2 / 0x1_0000_0000_0000_0000;
        if t3 / 0x1_0000_0000_0000_0000 != 0 {
            None
        } else {
            Some(
                U256 {
                    l0: (t0 % 0x1_0000_0000_0000_0000) as u64,
                    l1: (t1 % 0x1_0000_0000_0000_0000) as u64,
                    l2: (t2 % 0x1_0000_0000_0000_0000) as u64,
                    l3: (t3 % 0x1_0000_0000_0000_0000) as u64,
                },
            )
        }
    }

    /// The difference `self - other`, or `None` where `other` is the larger.
    #[verifier::rlimit(40)]
    pub fn checked_sub(&self, other: &U256) -> (r: Option<U256>)
        ensures
            match r {
                Some(v) => v@ + other@ == self@,
                None => self@ < other@,
            },
    {
        if !other.le(self) {
            return None;
        }
        let b: u128 = 0x1_0000_0000_0000_0000;
        let t0: u128 = b + self.l0 as u128 - other.l0 as u128;
        let t1: u128 = b + self.l1 as u128 - other.l1 as u128 - (1 - t0 / b);
        let t2: u128 = b + self.l2 as u128 - other.l2 as u128 - (1 - t1 / b);
        let t3: u128 = b + self.l3 as u128 - other.l3 as u128 - (1 - t2 / b);
        Some(
            U256 {
                l0: (t0 % b) as u64,
                l1: (t1 % b) as u64,
                l2: (t2 % b) as u64,
                l3: (t3 % b) as u64,
            },
        )
    }

    /// The product with one machine word, or `None` where it reaches `2^256`.
    pub fn checked_mul_small(&self, m: u64) -> (r: Option<U256>)
        ensures
            match r {
                Some(v) => v@ == self@ * m as nat,
                None => self@ * m as nat >= limit(),
            },
    {
        let b: u128 = 0x1_0000_0000_0000_0000;
        proof {
            lemma_word_product(self.l0, m);
            lemma_word_product(self.l1, m);
            lemma_word_product(self.l2, m);
            lemma_word_product(self.l3, m);
        }
        let t0: u128 = self.l0 as u128 * m as u128;
        let t1: u128 = self.l1 as u128 * m as u128 + t0 / b;
        let t2: u128 = self.l2 as u128 * m as u128 + t1 / b;
        let t3: u128 = self.l3 as u128 * m as u128 + t2 / b;
        proof {
            let m = m as nat;
            let (l0, l1, l2, l3) = (self.l0 as nat, self.l1 as nat, self.l2 as nat, self.l3 as nat);
            assert((l0 + l1 * 0x1_0000_0000_0000_0000 + l2
                * 0x1_0000_0000_0000_0000_0000_0000_0000_0000nat + l3
                * 0x1_0000_0000_0000_0000_0000_0000_0000_0000_0000_0000_0000_0000nat) * m == l0 * m + (
            l1 * m) * 0x1_0000_0000_0000_0000 + (l2 * m)
                * 0x1_0000_0000_0000_0000_0000_0000_0000_0000nat + (l3 * m)
                * 0x1_0000_0000_0000_0000_0000_0000_0000_0000_0000_0000_0000_0000nat)
                by (nonlinear_arith);
        }
        if t3 / b != 0 {
            None
        } else {
            Some(
                U256 {
                    l0: (t0 % b) as u64,
                    l1: (t1 % b) as u64,
                    l2: (t2 % b) as u64,
                    l3: (t3 % b) as u64,
                },
            )
        }
    }

    /// Limb `i` as the number is held; zero above the fourth.
    closed spec fn limb_at(&self, i: nat) -> nat {
        digit_of(self.l0 as nat, self.l1 as nat, self.l2 as nat, self.l3 as nat, 0, i)
    }

    /// Limb `i` of the number times `2^sh`, from the limbs as they are
    /// held: the low `64 - sh` bits of limb `i`, moved up, and the high `sh`
    /// bits of the limb below.
    closed spec fn shifted_word(&self, i: nat, sh: nat) -> nat {
        if sh == 0 {
            self.limb_at(i)
        } else {
            (self.limb_at(i) % pow2((64 - sh) as nat)) * pow2(sh) + (if i == 0 {
                0
            } else {
                self.limb_at((i - 1) as nat) / pow2((64 - sh) as nat)
            })
        }
    }

    /// The number times `2^sh` is written by its five shifted limbs.
    proof fn lemma_shifted_words(&self, sh: nat)
        requires
            sh < 64,
        ensures
            self@ * pow2(sh) == self.shifted_word(0, sh) + self.shifted_word(1, sh)
                * 0x1_0000_0000_0000_0000 + self.shifted_word(2, sh)
                * 0x1_0000_0000_0000_0000_0000_0000_0000_0000nat + self.shifted_word(3, sh)
                * 0x1_0000_0000_0000_0000_0000_0000_0000_0000_0000_0000_0000_0000nat
                + self.shifted_word(4, sh) * limit(),
            self.shifted_word(0, sh) < 0x1_0000_0000_0000_0000,
            self.shifted_word(1, sh) < 0x1_0000_0000_0000_0000,
            self.shifted_word(2, sh) < 0x1_0000_0000_0000_0000,
            self.shifted_word(3, sh) < 0x1_0000_0000_0000_0000,
            self.shifted_word(4, sh) < 0x1_0000_0000_0000_0000,
            pow2(sh) >= 1,
    {
        lemma2_to64();
        lemma_pow2_pos(sh);
        let (l0, l1, l2, l3) = (self.l0 as nat, self.l1 as nat, self.l2 as nat, self.l3 as nat);
        assert(self.limb_at(0) == l0 && self.limb_at(1) == l1 && self.limb_at(2) == l2
            && self.limb_at(3) == l3 && self.limb_at(4) == 0);
        if sh == 0 {
            assert(self@ * pow2(sh) == self@) by (nonlinear_arith)
                requires
                    pow2(sh) == 1,
            ;
        } else {
            let p = pow2(sh);
            let m = pow2((64 - sh) as nat);
            lemma_pow2_adds(sh, (64 - sh) as nat);
            lemma2_to64_rest();
            lemma_pow2_pos((64 - sh) as nat);
            lemma_word_shifted(l0, p, m);
            lemma_word_shifted(l1, p, m);
            lemma_word_shifted(l2, p, m);
            lemma_word_shifted(l3, p, m);
            vstd::arithmetic::div_mod::lemma_small_mod(0, m);
            assert((0nat % m) * p == 0) by (nonlinear_arith)
                requires
                    0nat % m == 0,
            ;
            assert(self.shifted_word(0, sh) == (l0 % m) * p);
            assert(self.shifted_word(1, sh) == (l1 % m) * p + l0 / m);
            assert(self.shifted_word(2, sh) == (l2 % m) * p + l1 / m);
            assert(self.shifted_word(3, sh) == (l3 % m) * p + l2 / m);
            assert(self.shifted_word(4, sh) == l3 / m);
            assert((l0 + l1 * 0x1_0000_0000_0000_0000 + l2
                * 0x1_0000_0000_0000_0000_0000_0000_0000_0000nat + l3
                * 0x1_0000_0000_0000_0000_0000_0000_0000_0000_0000_0000_0000_0000nat) * p == l0 * p
                + (l1 * p) * 0x1_0000_0000_0000_0000 + (l2 * p)
                * 0x1_0000_0000_0000_0000_0000_0000_0000_0000nat + (l3 * p)
                * 0x1_0000_0000_0000_0000_0000_0000_0000_0000_0000_0000_0000_0000nat)
                by (nonlinear_arith);
        }
    }

    /// Limb `i` of the number, `(self / 2^(64 i)) mod 2^64`: one of the
    /// four limbs held, lowest first, and zero above them.
    fn limb(&self, i: usize) -> (r: u64)
        ensures
            r as nat == word_of(self@, i as nat),
            r as nat == self.limb_at(i as nat),
    {
        proof {
            lemma_digits(
                self@,
                self.l0 as nat,
                self.l1 as nat,
                self.l2 as nat,
                self.l3 as nat,
                0,
                i as nat,
            );
        }
        if i == 0 {
            self.l0
        } else if i == 1 {
            self.l1
        } else if i == 2 {
            self.l2
        } else if i == 3 {
            self.l3
        } else {
            0
        }
    }

    /// Limb `i` of `self * 2^sh`, for `sh < 64`; with any other `sh`,
    /// limb `i` of `self`.
    fn shifted_limb(&self, i: usize, sh: u32) -> (r: u64)
        ensures
            r as nat == word_of(
                self@ * pow2(
                    if sh < 64 {
                        sh as nat
                    } else {
                        0
                    },
                ),
                i as nat,
            ),
            r as nat == self.shifted_word(
                i as nat,
                if sh < 64 {
                    sh as nat
                } else {
                    0
                },
            ),
    {
        let ghost eff: nat = if sh < 64 {
            sh as nat
        } else {
            0
        };
        proof {
            self.lemma_shifted_words(eff);
            lemma_digits(
                self@ * pow2(eff),
                self.shifted_word(0, eff),
                self.shifted_word(1, eff),
                self.shifted_word(2, eff),
                self.shifted_word(3, eff),
                self.shifted_word(4, eff),
                i as nat,
            );
            if eff > 0 && i >= 5 {
                lemma_pow2_pos((64 - eff) as nat);
                vstd::arithmetic::div_mod::lemma_basic_div(0, pow2((64 - eff) as nat) as int);
                vstd::arithmetic::div_mod::lemma_small_mod(0, pow2((64 - eff) as nat));
                assert((0nat % pow2((64 - eff) as nat)) * pow2(eff) == 0) by (nonlinear_arith)
                    requires
                        0nat % pow2((64 - eff) as nat) == 0,
                ;
            }
        }
        if sh == 0 || sh >= 64 {
            self.limb(i)
        } else if i == 0 {
            let by: u64 = sh as u64;
            proof {
                lemma_shift_parts(self.l0, 0, by);
            }
            self.l0 << by
        } else {
            let by: u64 = sh as u64;
            let here = self.limb(i);
            let below = self.limb((i - 1) as usize);
            proof {
                lemma_shift_parts(here, below, by);
            }
            (here << by) | (below >> (64 - by))
        }
    }

    /// Where limb `t` is the highest that is not zero and `e` is the number
    /// of its leading zeros, the number times `2^e` has nothing above limb
    /// `t`, and its limb `t` has the highest bit set.
    proof fn lemma_normalized_word(&self, t: nat, top: u64)
        requires
            t <= 3,
            t < 3 ==> self.l3 == 0,
            t < 2 ==> self.l2 == 0,
            t < 1 ==> self.l1 == 0,
            self.limb_at(t) == top,
            top != 0,
        ensures
            0 <= u64_leading_zeros(top) < 64,
            self.shifted_word(t + 1, u64_leading_zeros(top) as nat) == 0,
            self.shifted_word(t, u64_leading_zeros(top) as nat) >= 0x8000_0000_0000_0000,
            self.shifted_word(t, u64_leading_zeros(top) as nat) * weight(t) <= self@ * pow2(
                u64_leading_zeros(top) as nat,
            ),
    {
        lemma_normalized(top);
        let e = u64_leading_zeros(top) as nat;
        let p = pow2(e);
        lemma2_to64();
        lemma_pow2_pos(e);
        assert(self.limb_at(t + 1) == 0);
        if e > 0 {
            let m = pow2((64 - e) as nat);
            lemma_pow2_pos((64 - e) as nat);
            vstd::arithmetic::div_mod::lemma_basic_div(0, m as int);
            vstd::arithmetic::div_mod::lemma_small_mod(0, m);
            assert((0nat % m) * p == 0) by (nonlinear_arith)
                requires
                    0nat % m == 0,
            ;
            lemma_fundamental_div_mod(top as int, m as int);
            let q = top as nat / m;
            assert(m * q == 0) by (nonlinear_arith)
                requires
                    q == 0,
            ;
            assert(top as nat % m == top);
            assert(self.shifted_word(t, e) >= top * p);
        } else {
            assert(top * p == top) by (nonlinear_arith)
                requires
                    p == 1,
            ;
        }
        self.lemma_shifted_words(e);
        lemma_leading_pair(
            (self@ * p) as int,
            self.shifted_word(0, e) as int,
            self.shifted_word(1, e) as int,
            self.shifted_word(2, e) as int,
            self.shifted_word(3, e) as int,
            self.shifted_word(4, e) as int,
            t,
        );
        let lead = self.shifted_word(t, e) as int;
        let pair = self.shifted_word(t + 1, e) * 0x1_0000_0000_0000_0000 + self.shifted_word(t, e);
        assert(pair == lead);
    }

    /// Where the limbs of the number above `t` are zero and stay so when
    /// the number is taken times `2^e`, the product is below its limb `t` and
    /// one, times the weight of `t`.
    proof fn lemma_leading_word(&self, t: nat, e: nat)
        requires
            e < 64,
            t <= 3,
            t < 3 ==> self.l3 == 0,
            t < 2 ==> self.l2 == 0,
            t < 1 ==> self.l1 == 0,
            self.shifted_word(t + 1, e) == 0,
        ensures
            self@ * pow2(e) < (self.shifted_word(t, e) + 1) * weight(t),
            pow2(e) >= 1,
            weight(t) >= 1,
    {
        self.lemma_shifted_words(e);
        lemma_weight_grows(0, t);
        if e > 0 {
            let m = pow2((64 - e) as nat);
            lemma_pow2_pos((64 - e) as nat);
            vstd::arithmetic::div_mod::lemma_basic_div(0, m as int);
            vstd::arithmetic::div_mod::lemma_small_mod(0, m);
            assert((0nat % m) * pow2(e) == 0) by (nonlinear_arith)
                requires
                    0nat % m == 0,
            ;
        }
        assert(t < 3 ==> self.shifted_word(4, e) == 0);
        assert(t < 2 ==> self.shifted_word(3, e) == 0);
        assert(t < 1 ==> self.shifted_word(2, e) == 0);
        lemma_leading_limb(
            (self@ * pow2(e)) as int,
            self.shifted_word(0, e) as int,
            self.shifted_word(1, e) as int,
            self.shifted_word(2, e) as int,
            self.shifted_word(3, e) as int,
            0,
            t,
        );
    }

    /// The number times `2^e` is at least what its limbs `t` and `t + 1`
    /// write, and at least the weight two limbs above `t` where limb `far`
    /// from there on is not zero.
    proof fn lemma_leading_words(&self, t: nat, e: nat, far: nat)
        requires
            e < 64,
            t <= 3,
        ensures
            (self.shifted_word(t + 1, e) * 0x1_0000_0000_0000_0000 + self.shifted_word(t, e))
                * weight(t) <= self@ * pow2(e),
            t + 2 <= far <= 4 && self.shifted_word(far, e) >= 1
                ==> 0x1_0000_0000_0000_0000_0000_0000_0000_0000int * weight(t) <= self@ * pow2(e),
    {
        self.lemma_shifted_words(e);
        lemma_leading_pair(
            (self@ * pow2(e)) as int,
            self.shifted_word(0, e) as int,
            self.shifted_word(1, e) as int,
            self.shifted_word(2, e) as int,
            self.shifted_word(3, e) as int,
            self.shifted_word(4, e) as int,
            t,
        );
    }

    /// Where the limbs of the number times `2^e` above `t + 1` are zero,
    /// the product is below what its limbs `t` and `t + 1` write and one,
    /// times the weight of `t`.
    proof fn lemma_leading_words_above(&self, t: nat, e: nat)
        requires
            e < 64,
            t <= 3,
            forall|j: nat| t + 2 <= j <= 4 ==> self.shifted_word(j, e) == 0,
        ensures
            self@ * pow2(e) < (self.shifted_word(t + 1, e) * 0x1_0000_0000_0000_0000
                + self.shifted_word(t, e) + 1) * weight(t),
    {
        self.lemma_shifted_words(e);
        assert(t < 1 ==> self.shifted_word(2, e) == 0);
        assert(t < 2 ==> self.shifted_word(3, e) == 0);
        assert(t < 3 ==> self.shifted_word(4, e) == 0);
        lemma_pair_above(
            (self@ * pow2(e)) as int,
            self.shifted_word(0, e) as int,
            self.shifted_word(1, e) as int,
            self.shifted_word(2, e) as int,
            self.shifted_word(3, e) as int,
            self.shifted_word(4, e) as int,
            t,
        );
    }

    /// A first guess at `self / den` from the leading bits of both: the
    /// leading two limbs of `self` over the leading limb of `den` and one,
    /// both counted from where the leading bit of `den` stands, and the
    /// largest word where that is larger. The guess is never above the
    /// quotient, and where the quotient fits a word it is at most four below
    /// it; [`U256::quotient`] makes up what it lacks.
    fn guess_quotient(&self, den: &U256) -> (r: u64)
        ensures
            den@ > 0 ==> r as nat * den@ <= self@,
            den@ > 0 && self@ / den@ <= u64::MAX ==> self@ / den@ <= r + 4,
    {
        let t: usize = if den.l3 != 0 {
            3
        } else if den.l2 != 0 {
            2
        } else if den.l1 != 0 {
            1
        } else {
            0
        };
        let top = den.limb(t);
        if top == 0 {
            return 0;
        }
        let sh: u32 = top.leading_zeros();
        proof {
            den.lemma_normalized_word(t as nat, top);
        }
        if sh >= 64 {
            return 0;
        }
        if den.shifted_limb((t + 1) as usize, sh) != 0 {
            return 0;
        }
        let lead: u64 = den.shifted_limb(t, sh);
        let ghost p = pow2(sh as nat);
        let ghost w = weight(t as nat);
        proof {
            den.lemma_leading_word(t as nat, sh as nat);
        }
        let mut above: usize = t + 2;
        while above <= 4
            invariant
                t + 2 <= above <= 5,
                t <= 3,
                sh < 64,
                p == pow2(sh as nat),
                w == weight(t as nat),
                p >= 1,
                w >= 1,
                den@ > 0,
                den@ * p < (lead + 1) * w,
                forall|j: nat| t + 2 <= j < above ==> self.shifted_word(j, sh as nat) == 0,
            decreases 5 - above,
        {
            if self.shifted_limb(above, sh) != 0 {
                proof {
                    // `self * p` reaches two limbs above `w`, `den * p` stays below one:
                    // the quotient does not fit a word
                    let b: int = 0x1_0000_0000_0000_0000;
                    self.lemma_leading_words(t as nat, sh as nat, above as nat);
                    assert((lead + 1) * w <= b * w) by (nonlinear_arith)
                        requires
                            lead + 1 <= b,
                            w >= 1,
                    ;
                    lemma_guess_below(
                        self@ as int,
                        den@ as int,
                        p as int,
                        w as int,
                        b - 1,
                        0x1_0000_0000_0000_0000_0000_0000_0000_0000int,
                        u64::MAX as int,
                    );
                    lemma_guess_below(
                        self@ as int,
                        den@ as int,
                        p as int,
                        w as int,
                        b - 1,
                        0x1_0000_0000_0000_0000_0000_0000_0000_0000int,
                        b,
                    );
                    assert(self@ >= den@ * b) by (nonlinear_arith)
                        requires
                            b * den@ <= self@,
                    ;
                    lemma_quotient_at_least(self@ as int, den@ as int, b);
                }
                return u64::MAX;
            }
            above += 1;
        }
        let high: u64 = self.shifted_limb((t + 1) as usize, sh);
        let low: u64 = self.shifted_limb(t, sh);
        let part: u128 = high as u128 * 0x1_0000_0000_0000_0000 + low as u128;
        let guess: u128 = part / (lead as u128 + 1);
        let r: u64 = if guess > u64::MAX as u128 {
            u64::MAX
        } else {
            guess as u64
        };
        proof {
            self.lemma_leading_words(t as nat, sh as nat, 0);
            self.lemma_leading_words_above(t as nat, sh as nat);
            lemma_fundamental_div_mod(part as int, lead + 1);
            assert(guess * (lead + 1) <= part) by (nonlinear_arith)
                requires
                    part == (lead + 1) * guess + part as int % (lead + 1),
                    0 <= part as int % (lead + 1),
            ;
            assert(r * (lead + 1) <= guess * (lead + 1)) by (nonlinear_arith)
                requires
                    r <= guess,
                    lead >= 0,
            ;
            lemma_guess_below(
                self@ as int,
                den@ as int,
                p as int,
                w as int,
                lead as int,
                part as int,
                r as int,
            );
            lemma_guess_below(
                self@ as int,
                den@ as int,
                p as int,
                w as int,
                lead as int,
                part as int,
                guess as int,
            );
            assert(self@ >= den@ * guess) by (nonlinear_arith)
                requires
                    guess * den@ <= self@,
            ;
            lemma_quotient_at_least(self@ as int, den@ as int, guess as int);
            lemma_guess_close(
                self@ as int,
                den@ as int,
                p as int,
                w as int,
                lead as int,
                part as int,
            );
        }
        r
    }

    /// The quotient `self / den`, or `None` where it does not fit a `u64`.
    pub fn quotient(&self, den: &U256) -> (r: Option<u64>)
        requires
            den@ > 0,
        ensures
            match r {
                Some(q) => q as nat == self@ / den@,
                None => self@ / den@ > u64::MAX,
            },
    {
        let mut q: u64 = self.guess_quotient(den);
        let mut rem: U256 = *self;
        let mut found = false;
        proof {
            assert(den@ * 0 == 0) by (nonlinear_arith);
        }
        while !found
            invariant
                found ==> rem@ + den@ * q as nat == self@,
            decreases q + (if found { 0int } else { 1int }),
        {
            match den.checked_mul_small(q) {
                Some(prod) => match self.checked_sub(&prod) {
                    Some(left) => {
                        rem = left;
                        found = true;
                    },
                    None => {
                        assert(q > 0) by (nonlinear_arith)
                            requires
                                prod@ == den@ * q as nat,
                                self@ < prod@,
                        ;
                        q = q - 1;
                    },
                },
                None => {
                    assert(q > 0) by (nonlinear_arith)
                        requires
                            den@ * q as nat > 0,
                    ;
                    q = q - 1;
                },
            }
        }
        while den.le(&rem)
            invariant
                den@ > 0,
                rem@ + den@ * q as nat == self@,
            decreases rem@,
        {
            if q == u64::MAX {
                proof {
                    assert(self@ >= den@ * (q as nat + 1)) by (nonlinear_arith)
                        requires
                            rem@ + den@ * q as nat == self@,
                            rem@ >= den@,
                    ;
                    lemma_quotient_at_least(self@ as int, den@ as int, q as int + 1);
                }
                return None;
            }
            match rem.checked_sub(den) {
                Some(left) => {
                    proof {
                        assert(left@ + den@ * (q as nat + 1) == rem@ + den@ * q as nat)
                            by (nonlinear_arith)
                            requires
                                left@ + den@ == rem@,
                        ;
                    }
                    rem = left;
                    q = q + 1;
                },
                None => {
                    proof {
                        assert(false);
                    }
                },
            }
        }
        proof {
            assert(self@ == q as nat * den@ + rem@) by (nonlinear_arith)
                requires
                    rem@ + den@ * q as nat == self@,
            ;
            lemma_fundamental_div_mod_converse(self@ as int, den@ as int, q as int, rem@ as int);
        }
        Some(q)
    }
}

} // verus!
