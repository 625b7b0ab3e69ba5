//! Natural numbers of unbounded size, held as 64-bit limbs.
//!
//! The curve solver multiplies several 64-bit amounts together before it
//! divides; the products do not fit a machine word. `Wide` carries them
//! exactly. Every operation states its result over the mathematical value
//! `self@`.
use vstd::arithmetic::div_mod::lemma_fundamental_div_mod_converse;
use vstd::arithmetic::power2::{lemma2_to64, lemma_pow2_unfold, pow2};
use vstd::prelude::*;

verus! {

/// The radix of one limb, `2^64`.
pub open spec fn radix() -> nat {
    0x1_0000_0000_0000_0000
}

/// `radix()` raised to the power `n`.
pub open spec fn radix_pow(n: nat) -> nat
    decreases n,
{
    if n == 0 {
        1
    } else {
        radix() * radix_pow((n - 1) as nat)
    }
}

/// The limb at position `i`, zero past the end.
pub open spec fn limb_at(s: Seq<u64>, i: nat) -> nat {
    if i < s.len() {
        s[i as int] as nat
    } else {
        0
    }
}

/// The number written by the `n` lowest limbs of `s`.
pub open spec fn prefix_value(s: Seq<u64>, n: nat) -> nat
    decreases n,
{
    if n == 0 {
        0
    } else {
        prefix_value(s, (n - 1) as nat) + limb_at(s, (n - 1) as nat) * radix_pow((n - 1) as nat)
    }
}

/// The number written by all limbs of `s`, lowest limb first.
pub open spec fn limbs_value(s: Seq<u64>) -> nat {
    prefix_value(s, s.len())
}

/// The number written by the limbs from position `i` upwards, read as if
/// limb `i` were the lowest.
pub open spec fn top_value(s: Seq<u64>, i: nat) -> nat
    decreases s.len() - i,
{
    if i >= s.len() {
        0
    } else {
        s[i as int] as nat + radix() * top_value(s, i + 1)
    }
}

pub proof fn lemma_radix_pow_positive(n: nat)
    ensures
        radix_pow(n) >= 1,
    decreases n,
{
    if n > 0 {
        lemma_radix_pow_positive((n - 1) as nat);
        assert(radix() * radix_pow((n - 1) as nat) >= 1) by (nonlinear_arith)
            requires
                radix() >= 1,
                radix_pow((n - 1) as nat) >= 1,
        ;
    }
}

proof fn lemma_prefix_agrees(s: Seq<u64>, t: Seq<u64>, n: nat)
    requires
        forall|i: nat| i < n ==> limb_at(s, i) == limb_at(t, i),
    ensures
        prefix_value(s, n) == prefix_value(t, n),
    decreases n,
{
    if n > 0 {
        lemma_prefix_agrees(s, t, (n - 1) as nat);
        assert(limb_at(s, (n - 1) as nat) == limb_at(t, (n - 1) as nat));
    }
}

proof fn lemma_prefix_beyond(s: Seq<u64>, n: nat)
    requires
        n >= s.len(),
    ensures
        prefix_value(s, n) == limbs_value(s),
    decreases n,
{
    if n > s.len() {
        lemma_prefix_beyond(s, (n - 1) as nat);
        assert(limb_at(s, (n - 1) as nat) * radix_pow((n - 1) as nat) == 0) by (nonlinear_arith)
            requires
                limb_at(s, (n - 1) as nat) == 0,
        ;
    }
}

proof fn lemma_push(s: Seq<u64>, l: u64)
    ensures
        limbs_value(s.push(l)) == limbs_value(s) + l as nat * radix_pow(s.len()),
{
    let t = s.push(l);
    assert forall|i: nat| i < s.len() implies limb_at(s, i) == limb_at(t, i) by {
        assert(t[i as int] == s[i as int]);
    }
    lemma_prefix_agrees(s, t, s.len());
    assert(limb_at(t, s.len()) == l as nat);
    assert(t.len() == s.len() + 1);
}

proof fn lemma_prefix_bound(s: Seq<u64>, n: nat)
    ensures
        prefix_value(s, n) < radix_pow(n),
    decreases n,
{
    if n > 0 {
        let m = (n - 1) as nat;
        lemma_prefix_bound(s, m);
        lemma_radix_pow_positive(m);
        assert(prefix_value(s, m) + limb_at(s, m) * radix_pow(m) < radix() * radix_pow(m))
            by (nonlinear_arith)
            requires
                prefix_value(s, m) < radix_pow(m),
                limb_at(s, m) + 1 <= radix(),
        ;
    }
}

proof fn lemma_split(s: Seq<u64>, i: nat)
    requires
        i <= s.len(),
    ensures
        limbs_value(s) == prefix_value(s, i) + radix_pow(i) * top_value(s, i),
    decreases s.len() - i,
{
    if i == s.len() {
        assert(radix_pow(i) * top_value(s, i) == 0) by (nonlinear_arith)
            requires
                top_value(s, i) == 0,
        ;
    } else {
        lemma_split(s, i + 1);
        let p = radix_pow(i);
        let t = top_value(s, i + 1);
        let l = s[i as int] as nat;
        assert(radix_pow(i + 1) == radix() * p);
        assert(l * p + (radix() * p) * t == p * (l + radix() * t)) by (nonlinear_arith);
    }
}

proof fn lemma_top_is_value(s: Seq<u64>)
    ensures
        top_value(s, 0) == limbs_value(s),
{
    lemma_split(s, 0);
    assert(radix_pow(0) * top_value(s, 0) == top_value(s, 0)) by (nonlinear_arith)
        requires
            radix_pow(0) == 1,
    ;
}

proof fn lemma_top_shifted(s: Seq<u64>, l: u64, i: nat)
    ensures
        top_value(seq![l] + s, i + 1) == top_value(s, i),
    decreases s.len() - i,
{
    let t = seq![l] + s;
    if i < s.len() {
        lemma_top_shifted(s, l, i + 1);
        assert(t[(i + 1) as int] == s[i as int]);
    }
}

proof fn lemma_push_low(s: Seq<u64>, l: u64)
    ensures
        limbs_value(seq![l] + s) == l as nat + radix() * limbs_value(s),
{
    let t = seq![l] + s;
    lemma_top_is_value(t);
    lemma_top_is_value(s);
    lemma_top_shifted(s, l, 0);
    assert(t[0] == l);
}

proof fn lemma_high_zero(s: Seq<u64>, n: nat, k: nat)
    requires
        k <= n,
        forall|j: nat| k <= j < n ==> limb_at(s, j) == 0,
    ensures
        prefix_value(s, n) == prefix_value(s, k),
    decreases n,
{
    if n > k {
        lemma_high_zero(s, (n - 1) as nat, k);
        assert(limb_at(s, (n - 1) as nat) * radix_pow((n - 1) as nat) == 0) by (nonlinear_arith)
            requires
                limb_at(s, (n - 1) as nat) == 0,
        ;
    }
}

proof fn lemma_limb_lower_bound(s: Seq<u64>, n: nat, k: nat)
    requires
        1 <= k < n,
        limb_at(s, k) >= 1,
    ensures
        prefix_value(s, n) >= radix(),
    decreases n,
{
    if n - 1 > k {
        lemma_limb_lower_bound(s, (n - 1) as nat, k);
    } else {
        lemma_radix_pow_positive((k - 1) as nat);
        assert(radix_pow(k) == radix() * radix_pow((k - 1) as nat));
        assert(limb_at(s, k) * (radix() * radix_pow((k - 1) as nat)) >= radix())
            by (nonlinear_arith)
            requires
                limb_at(s, k) >= 1,
                radix_pow((k - 1) as nat) >= 1,
                radix() >= 1,
        ;
    }
}

/// A natural number of any size.
pub struct Wide {
    limbs: Vec<u64>,
}

impl View for Wide {
    type V = nat;

    closed spec fn view(&self) -> nat {
        limbs_value(self.limbs@)
    }
}

impl Wide {
    /// The number zero.
    pub fn zero() -> (r: Wide)
        ensures
            r@ == 0,
    {
        Wide { limbs: Vec::new() }
    }

    /// The number `v`.
    pub fn from_u64(v: u64) -> (r: Wide)
        ensures
            r@ == v,
    {
        let mut limbs: Vec<u64> = Vec::new();
        proof {
            lemma_push(limbs@, v);
            assert(v as nat * radix_pow(0) == v as nat) by (nonlinear_arith)
                requires
                    radix_pow(0) == 1,
            ;
        }
        limbs.push(v);
        Wide { limbs }
    }

    /// The number `v`.
    pub fn from_u128(v: u128) -> (r: Wide)
        ensures
            r@ == v,
    {
        let lo: u64 = (v % 0x1_0000_0000_0000_0000) as u64;
        let hi: u64 = (v / 0x1_0000_0000_0000_0000) as u64;
        let low = Wide::from_u64(hi);
        low.push_low(lo)
    }

    /// `self * 2^64 + l`: the limbs move up by one place and `l` becomes
    /// the lowest.
    pub fn push_low(&self, l: u64) -> (r: Wide)
        ensures
            r@ == l as nat + radix() * self@,
    {
        let mut out: Vec<u64> = Vec::new();
        out.push(l);
        let mut i: usize = 0;
        while i < self.limbs.len()
            invariant
                i <= self.limbs.len(),
                out@ == seq![l] + self.limbs@.take(i as int),
            decreases self.limbs.len() - i,
        {
            out.push(self.limbs[i]);
            i += 1;
            assert(out@ =~= seq![l] + self.limbs@.take(i as int));
        }
        proof {
            assert(self.limbs@.take(i as int) =~= self.limbs@);
            lemma_push_low(self.limbs@, l);
        }
        Wide { limbs: out }
    }

    /// The sum of two numbers.
    pub fn add(&self, other: &Wide) -> (r: Wide)
        ensures
            r@ == self@ + other@,
    {
        let n = if self.limbs.len() > other.limbs.len() {
            self.limbs.len()
        } else {
            other.limbs.len()
        };
        let mut out: Vec<u64> = Vec::new();
        let mut carry: u64 = 0;
        let mut i: usize = 0;
        proof {
            assert(carry as nat * radix_pow(0) == 0) by (nonlinear_arith)
                requires
                    carry == 0,
            ;
        }
        while i < n
            invariant
                i <= n,
                n >= self.limbs.len(),
                n >= other.limbs.len(),
                out@.len() == i,
                carry <= 1,
                limbs_value(out@) + carry as nat * radix_pow(i as nat) == prefix_value(
                    self.limbs@,
                    i as nat,
                ) + prefix_value(other.limbs@, i as nat),
            decreases n - i,
        {
            let a: u64 = if i < self.limbs.len() {
                self.limbs[i]
            } else {
                0
            };
            let b: u64 = if i < other.limbs.len() {
                other.limbs[i]
            } else {
                0
            };
            let sum: u128 = a as u128 + b as u128 + carry as u128;
            let lo: u64 = (sum % 0x1_0000_0000_0000_0000) as u64;
            let hi: u64 = (sum / 0x1_0000_0000_0000_0000) as u64;
            proof {
                lemma_push(out@, lo);
                let p = radix_pow(i as nat);
                assert(radix_pow((i + 1) as nat) == radix() * p);
                assert(a as nat == limb_at(self.limbs@, i as nat));
                assert(b as nat == limb_at(other.limbs@, i as nat));
                assert(lo as nat * p + hi as nat * (radix() * p) == carry as nat * p + a as nat * p
                    + b as nat * p) by (nonlinear_arith)
                    requires
                        lo as nat + hi as nat * radix() == a as nat + b as nat + carry as nat,
                ;
            }
            out.push(lo);
            carry = hi;
            i += 1;
        }
        proof {
            lemma_push(out@, carry);
            lemma_prefix_beyond(self.limbs@, n as nat);
            lemma_prefix_beyond(other.limbs@, n as nat);
        }
        out.push(carry);
        Wide { limbs: out }
    }

    /// The difference `self - other`, or `None` where `other` is the larger.
    pub fn checked_sub(&self, other: &Wide) -> (r: Option<Wide>)
        ensures
            match r {
                Some(d) => d@ + other@ == self@,
                None => self@ < other@,
            },
    {
        let n = if self.limbs.len() > other.limbs.len() {
            self.limbs.len()
        } else {
            other.limbs.len()
        };
        let mut out: Vec<u64> = Vec::new();
        let mut borrow: u64 = 0;
        let mut i: usize = 0;
        proof {
            assert(borrow as nat * radix_pow(0) == 0) by (nonlinear_arith)
                requires
                    borrow == 0,
            ;
        }
        while i < n
            invariant
                i <= n,
                n >= self.limbs.len(),
                n >= other.limbs.len(),
                out@.len() == i,
                borrow <= 1,
                limbs_value(out@) + prefix_value(other.limbs@, i as nat) == prefix_value(
                    self.limbs@,
                    i as nat,
                ) + borrow as nat * radix_pow(i as nat),
            decreases n - i,
        {
            let a: u64 = if i < self.limbs.len() {
                self.limbs[i]
            } else {
                0
            };
            let b: u64 = if i < other.limbs.len() {
                other.limbs[i]
            } else {
                0
            };
            let t: u128 = 0x1_0000_0000_0000_0000u128 + a as u128 - b as u128 - borrow as u128;
            let lo: u64 = (t % 0x1_0000_0000_0000_0000) as u64;
            let next: u64 = 1 - (t / 0x1_0000_0000_0000_0000) as u64;
            proof {
                lemma_push(out@, lo);
                let p = radix_pow(i as nat);
                assert(radix_pow((i + 1) as nat) == radix() * p);
                assert(a as nat == limb_at(self.limbs@, i as nat));
                assert(b as nat == limb_at(other.limbs@, i as nat));
                assert(lo as nat * p + b as nat * p + borrow as nat * p == a as nat * p
                    + next as nat * (radix() * p)) by (nonlinear_arith)
                    requires
                        lo as nat + b as nat + borrow as nat == a as nat + next as nat * radix(),
                ;
            }
            out.push(lo);
            borrow = next;
            i += 1;
        }
        proof {
            lemma_prefix_beyond(self.limbs@, n as nat);
            lemma_prefix_beyond(other.limbs@, n as nat);
            lemma_prefix_bound(out@, n as nat);
            assert(borrow as nat * radix_pow(n as nat) == if borrow == 0 {
                0
            } else {
                radix_pow(n as nat)
            }) by (nonlinear_arith)
                requires
                    borrow <= 1,
            ;
        }
        if borrow == 0 {
            Some(Wide { limbs: out })
        } else {
            None
        }
    }

    /// Whether `self <= other`.
    pub fn le(&self, other: &Wide) -> (r: bool)
        ensures
            r == (self@ <= other@),
    {
        other.checked_sub(self).is_some()
    }

    /// Whether the number is zero.
    pub fn is_zero(&self) -> (r: bool)
        ensures
            r == (self@ == 0),
    {
        self.le(&Wide::zero())
    }

    /// A second copy of the number.
    pub fn duplicate(&self) -> (r: Wide)
        ensures
            r@ == self@,
    {
        self.add(&Wide::zero()).trimmed()
    }

    /// The product of `self` and one limb.
    pub fn mul_small(&self, m: u64) -> (r: Wide)
        ensures
            r@ == self@ * m as nat,
    {
        let mut out: Vec<u64> = Vec::new();
        let mut carry: u64 = 0;
        let mut i: usize = 0;
        proof {
            assert(carry as nat * radix_pow(0) == 0) by (nonlinear_arith)
                requires
                    carry == 0,
            ;
            assert(prefix_value(self.limbs@, 0) * m as nat == 0) by (nonlinear_arith)
                requires
                    prefix_value(self.limbs@, 0) == 0,
            ;
        }
        while i < self.limbs.len()
            invariant
                i <= self.limbs.len(),
                out@.len() == i,
                limbs_value(out@) + carry as nat * radix_pow(i as nat) == prefix_value(
                    self.limbs@,
                    i as nat,
                ) * m as nat,
            decreases self.limbs.len() - i,
        {
            let a: u64 = self.limbs[i];
            assert(a as u128 * m as u128 + carry as u128 <= u128::MAX) by (nonlinear_arith)
                requires
                    a <= u64::MAX,
                    m <= u64::MAX,
                    carry <= u64::MAX,
            ;
            let t: u128 = a as u128 * m as u128 + carry as u128;
            let lo: u64 = (t % 0x1_0000_0000_0000_0000) as u64;
            let hi: u64 = (t / 0x1_0000_0000_0000_0000) as u64;
            proof {
                lemma_push(out@, lo);
                let p = radix_pow(i as nat);
                assert(radix_pow((i + 1) as nat) == radix() * p);
                assert(a as nat == limb_at(self.limbs@, i as nat));
                let pre = prefix_value(self.limbs@, i as nat);
                assert(lo as nat * p + hi as nat * (radix() * p) + pre * m as nat == (pre + a as nat
                    * p) * m as nat + carry as nat * p) by (nonlinear_arith)
                    requires
                        lo as nat + hi as nat * radix() == a as nat * m as nat + carry as nat,
                ;
            }
            out.push(lo);
            carry = hi;
            i += 1;
        }
        proof {
            lemma_push(out@, carry);
        }
        out.push(carry);
        Wide { limbs: out }
    }

    /// The product of two numbers.
    pub fn mul(&self, other: &Wide) -> (r: Wide)
        ensures
            r@ == self@ * other@,
    {
        let mut acc = Wide::zero();
        let mut j: usize = other.limbs.len();
        proof {
            assert(self@ * top_value(other.limbs@, j as nat) == 0) by (nonlinear_arith)
                requires
                    top_value(other.limbs@, j as nat) == 0,
            ;
        }
        while j > 0
            invariant
                j <= other.limbs.len(),
                acc@ == self@ * top_value(other.limbs@, j as nat),
            decreases j,
        {
            j -= 1;
            let part = self.mul_small(other.limbs[j]);
            let shifted = acc.push_low(0);
            proof {
                let t = top_value(other.limbs@, (j + 1) as nat);
                let l = other.limbs@[j as int] as nat;
                assert(radix() * (self@ * t) + self@ * l == self@ * (l + radix() * t))
                    by (nonlinear_arith);
            }
            acc = shifted.add(&part);
        }
        proof {
            lemma_top_is_value(other.limbs@);
        }
        acc.trimmed()
    }

    /// The number of limbs that the number is held in.
    pub closed spec fn limb_count(&self) -> nat {
        self.limbs@.len()
    }

    /// Whether the number is held without a leading zero limb: in no limb
    /// at all, or with a highest limb that is not zero.
    pub closed spec fn is_trimmed(&self) -> bool {
        self.limbs@.len() == 0 || self.limbs@.last() != 0
    }

    /// The same number without leading zero limbs: held in as few limbs as
    /// write it, and in no more than before.
    pub fn trimmed(self) -> (r: Wide)
        ensures
            r@ == self@,
            r.is_trimmed(),
            r.limb_count() <= self.limb_count(),
    {
        let mut limbs = self.limbs;
        while limbs.len() > 0 && limbs[limbs.len() - 1] == 0
            invariant
                limbs_value(limbs@) == self@,
                limbs@.len() <= self.limbs@.len(),
            decreases limbs.len(),
        {
            proof {
                let s = limbs@;
                let t = s.drop_last();
                assert forall|i: nat| i < t.len() implies limb_at(s, i) == limb_at(t, i) by {
                    assert(t[i as int] == s[i as int]);
                }
                lemma_prefix_agrees(s, t, t.len());
                assert(limb_at(s, t.len()) * radix_pow(t.len()) == 0) by (nonlinear_arith)
                    requires
                        limb_at(s, t.len()) == 0,
                ;
            }
            limbs.pop();
        }
        Wide { limbs }
    }

    /// Quotient and remainder of the division of `self` by `d`.
    pub fn div_rem(&self, d: &Wide) -> (r: (Wide, Wide))
        requires
            d@ > 0,
        ensures
            r.0@ == self@ / d@,
            r.1@ == self@ % d@,
    {
        let mut q = Wide::zero();
        let mut rem = Wide::zero();
        let mut i: usize = self.limbs.len();
        proof {
            assert(q@ * d@ == 0) by (nonlinear_arith)
                requires
                    q@ == 0,
            ;
        }
        while i > 0
            invariant
                i <= self.limbs.len(),
                d@ > 0,
                rem@ < d@,
                top_value(self.limbs@, i as nat) == q@ * d@ + rem@,
            decreases i,
        {
            i -= 1;
            let limb = self.limbs[i];
            let cur = rem.push_low(limb);
            let (digit, rest) = Wide::quotient_limb(&cur, d, Ghost(rem@));
            let next = q.push_low(digit);
            proof {
                assert((digit as nat + radix() * q@) * d@ + rest@ == limb as nat + radix() * (q@
                    * d@ + rem@)) by (nonlinear_arith)
                    requires
                        limb as nat + radix() * rem@ == digit as nat * d@ + rest@,
                ;
            }
            q = next;
            rem = rest;
        }
        proof {
            lemma_top_is_value(self.limbs@);
            lemma_fundamental_div_mod_converse(self@ as int, d@ as int, q@ as int, rem@ as int);
        }
        (q.trimmed(), rem.trimmed())
    }

    /// One limb of a quotient: the dividend `cur` is below `d * 2^64`.
    fn quotient_limb(cur: &Wide, d: &Wide, Ghost(high): Ghost<nat>) -> (r: (u64, Wide))
        requires
            d@ > 0,
            high < d@,
            cur@ < radix() * high + radix(),
        ensures
            cur@ == r.0 as nat * d@ + r.1@,
            r.1@ < d@,
    {
        let mut digit: u64 = 0;
        let mut span: u128 = 0x1_0000_0000_0000_0000;
        let ghost mut k: nat = 64;
        let mut rest = cur.duplicate();
        proof {
            lemma2_to64();
            assert(cur@ < radix() * d@) by (nonlinear_arith)
                requires
                    cur@ < radix() * high + radix(),
                    high + 1 <= d@,
            ;
            assert(digit as nat * d@ == 0) by (nonlinear_arith)
                requires
                    digit == 0,
            ;
            assert((digit as nat + span as nat) * d@ == radix() * d@) by (nonlinear_arith)
                requires
                    digit == 0,
                    span as nat == radix(),
            ;
        }
        while span > 1
            invariant
                d@ > 0,
                span as nat == pow2(k),
                1 <= span <= 0x1_0000_0000_0000_0000,
                digit as nat + span as nat <= 0x1_0000_0000_0000_0000,
                digit as nat * d@ + rest@ == cur@,
                cur@ < (digit as nat + span as nat) * d@,
            decreases span,
        {
            proof {
                if k == 0 {
                    lemma2_to64();
                }
                lemma_pow2_unfold(k);
            }
            let half: u128 = span / 2;
            let step: u64 = half as u64;
            let part = d.mul_small(step);
            match rest.checked_sub(&part) {
                Some(v) => {
                    proof {
                        assert((digit as nat + step as nat) * d@ + v@ == digit as nat * d@ + rest@)
                            by (nonlinear_arith)
                            requires
                                v@ + d@ * step as nat == rest@,
                        ;
                        assert(cur@ < (digit as nat + step as nat + half as nat) * d@);
                    }
                    digit = digit + step;
                    rest = v;
                },
                None => {
                    proof {
                        assert(cur@ < (digit as nat + half as nat) * d@) by (nonlinear_arith)
                            requires
                                digit as nat * d@ + rest@ == cur@,
                                rest@ < d@ * step as nat,
                                step as nat == half as nat,
                        ;
                    }
                },
            }
            span = half;
            proof {
                k = (k - 1) as nat;
            }
        }
        proof {
            assert(rest@ < d@) by (nonlinear_arith)
                requires
                    digit as nat * d@ + rest@ == cur@,
                    cur@ < (digit as nat + 1) * d@,
            ;
        }
        (digit, rest)
    }

    /// The number as a `u64`, or `None` where it does not fit.
    pub fn to_u64(&self) -> (r: Option<u64>)
        ensures
            match r {
                Some(v) => v as nat == self@,
                None => self@ > u64::MAX,
            },
    {
        let n = self.limbs.len();
        if n == 0 {
            return Some(0);
        }
        let mut i: usize = 1;
        while i < n
            invariant
                1 <= i <= n,
                n == self.limbs.len(),
                forall|j: nat| 1 <= j < i ==> limb_at(self.limbs@, j) == 0,
            decreases n - i,
        {
            if self.limbs[i] != 0 {
                proof {
                    lemma_limb_lower_bound(self.limbs@, n as nat, i as nat);
                }
                return None;
            }
            i += 1;
        }
        proof {
            lemma_high_zero(self.limbs@, n as nat, 1);
            assert(limb_at(self.limbs@, 0) * radix_pow(0) == limb_at(self.limbs@, 0))
                by (nonlinear_arith)
                requires
                    radix_pow(0) == 1,
            ;
            assert(prefix_value(self.limbs@, 1) == prefix_value(self.limbs@, 0) + limb_at(
                self.limbs@,
                0,
            ) * radix_pow(0));
        }
        Some(self.limbs[0])
    }
}

} // verus!
