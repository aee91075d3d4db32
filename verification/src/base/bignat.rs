//! Natural numbers of unbounded size.
//!
//! Counting mine placements quickly leaves the range of every machine integer,
//! so the solver counts with `BigNat`: a little-endian vector of 64-bit limbs
//! whose view is the natural number it stands for.

use vstd::prelude::*;
use vstd::arithmetic::div_mod::lemma_fundamental_div_mod_converse;
use vstd::arithmetic::div_mod::lemma_fundamental_div_mod;
use crate::base::encode_decode::text::{digit, digits};

verus! {

/// The limb base, `2^64`.
spec fn base() -> nat {
    0x1_0000_0000_0000_0000
}

/// `base()` raised to `n`.
spec fn base_pow(n: nat) -> nat
    decreases n,
{
    if n == 0 {
        1
    } else {
        base() * base_pow((n - 1) as nat)
    }
}

/// Limb `i` of `s`, reading zero past the end.
spec fn limb_at(s: Seq<u64>, i: int) -> nat {
    if 0 <= i < s.len() {
        s[i] as nat
    } else {
        0
    }
}

/// The number formed by the lowest `n` limbs of `s`.
spec fn prefix_value(s: Seq<u64>, n: nat) -> nat
    decreases n,
{
    if n == 0 {
        0
    } else {
        prefix_value(s, (n - 1) as nat) + limb_at(s, n - 1) * base_pow((n - 1) as nat)
    }
}

/// The number that the limbs `s` stand for.
spec fn limbs_value(s: Seq<u64>) -> nat {
    prefix_value(s, s.len())
}

proof fn lemma_base_pow_positive(n: nat)
    ensures
        base_pow(n) > 0,
    decreases n,
{
    if n > 0 {
        lemma_base_pow_positive((n - 1) as nat);
        assert(base() * base_pow((n - 1) as nat) > 0) by (nonlinear_arith)
            requires
                base() > 0,
                base_pow((n - 1) as nat) > 0,
        ;
    }
}

/// Prefixes depend only on the limbs they cover.
proof fn lemma_prefix_agree(s1: Seq<u64>, s2: Seq<u64>, n: nat)
    requires
        forall|j: int| 0 <= j < n ==> limb_at(s1, j) == limb_at(s2, j),
    ensures
        prefix_value(s1, n) == prefix_value(s2, n),
    decreases n,
{
    if n > 0 {
        lemma_prefix_agree(s1, s2, (n - 1) as nat);
    }
}

/// Limbs past the end add nothing.
proof fn lemma_prefix_beyond(s: Seq<u64>, n: nat)
    requires
        n >= s.len(),
    ensures
        prefix_value(s, n) == limbs_value(s),
    decreases n,
{
    if n > s.len() {
        lemma_prefix_beyond(s, (n - 1) as nat);
        assert(limb_at(s, n - 1) * base_pow((n - 1) as nat) == 0) by (nonlinear_arith)
            requires
                limb_at(s, n - 1) == 0,
        ;
    }
}

/// A prefix of `n` limbs is below `base()^n`.
proof fn lemma_prefix_bound(s: Seq<u64>, n: nat)
    ensures
        prefix_value(s, n) < base_pow(n),
    decreases n,
{
    if n > 0 {
        lemma_prefix_bound(s, (n - 1) as nat);
        let w = base_pow((n - 1) as nat);
        let x = limb_at(s, n - 1);
        assert(prefix_value(s, (n - 1) as nat) + x * w < base() * w) by (nonlinear_arith)
            requires
                prefix_value(s, (n - 1) as nat) < w,
                x + 1 <= base(),
        ;
    }
}

/// Appending a limb adds it at the weight of its position.
proof fn lemma_push(s: Seq<u64>, x: u64)
    ensures
        limbs_value(s.push(x)) == limbs_value(s) + x * base_pow(s.len()),
{
    let t = s.push(x);
    assert forall|j: int| 0 <= j < s.len() implies limb_at(t, j) == limb_at(s, j) by {}
    lemma_prefix_agree(t, s, s.len());
    assert(limb_at(t, s.len() as int) == x);
}

/// Overwriting limb `k` changes a covering prefix by the difference at weight `k`.
proof fn lemma_update(s: Seq<u64>, k: int, x: u64, n: nat)
    requires
        0 <= k < s.len(),
        k < n,
    ensures
        prefix_value(s.update(k, x), n) + s[k] * base_pow(k as nat) == prefix_value(s, n) + x
            * base_pow(k as nat),
    decreases n,
{
    let t = s.update(k, x);
    if n - 1 == k {
        assert forall|j: int| 0 <= j < k implies limb_at(t, j) == limb_at(s, j) by {}
        lemma_prefix_agree(t, s, k as nat);
    } else {
        lemma_update(s, k, x, (n - 1) as nat);
        assert(limb_at(t, n - 1) == limb_at(s, n - 1));
    }
}

/// Putting a zero limb in front multiplies by the base.
proof fn lemma_shift(s: Seq<u64>, n: nat)
    ensures
        prefix_value(seq![0u64] + s, n + 1) == base() * prefix_value(s, n),
    decreases n,
{
    let t = seq![0u64] + s;
    if n == 0 {
        assert(limb_at(t, 0) == 0);
        assert(prefix_value(t, 0) == 0);
        assert(prefix_value(t, 1) == prefix_value(t, 0) + limb_at(t, 0) * base_pow(0));
    } else {
        lemma_shift(s, (n - 1) as nat);
        assert(limb_at(t, n as int) == limb_at(s, n - 1)) by {
            if n - 1 < s.len() {
                assert(t[n as int] == s[n - 1]);
            }
        }
        let w = base_pow((n - 1) as nat);
        let x = limb_at(s, n - 1);
        let p = prefix_value(s, (n - 1) as nat);
        assert(base_pow(n) == base() * w);
        assert(base() * p + x * (base() * w) == base() * (p + x * w)) by (nonlinear_arith);
    }
}

/// A natural number of any size.
#[derive(Debug)]
pub struct BigNat {
    limbs: Vec<u64>,
}

impl View for BigNat {
    type V = nat;

    /// The number itself.
    closed spec fn view(&self) -> nat {
        limbs_value(self.limbs@)
    }
}

impl Clone for BigNat {
    fn clone(&self) -> (r: Self)
        ensures
            r@ == self@,
    {
        let limbs = self.limbs.clone();
        assert(limbs@ =~= self.limbs@);
        BigNat { limbs }
    }
}

impl BigNat {
    /// The number zero.
    pub fn zero() -> (r: Self)
        ensures
            r@ == 0,
    {
        BigNat { limbs: Vec::new() }
    }

    /// The number `x`.
    pub fn from_u64(x: u64) -> (r: Self)
        ensures
            r@ == x,
    {
        let mut limbs: Vec<u64> = Vec::new();
        proof {
            lemma_push(limbs@, x);
            assert(x * base_pow(0) == x) by (nonlinear_arith)
                requires
                    base_pow(0) == 1,
            ;
        }
        limbs.push(x);
        BigNat { limbs }
    }

    /// The number `x`.
    pub fn from_usize(x: usize) -> (r: Self)
        ensures
            r@ == x,
    {
        Self::from_u64(x as u64)
    }

    /// Limb `i`, reading zero past the end.
    fn limb(&self, i: usize) -> (r: u64)
        ensures
            r == limb_at(self.limbs@, i as int),
    {
        if i < self.limbs.len() {
            self.limbs[i]
        } else {
            0
        }
    }

    /// `self < other`.
    pub fn lt(&self, other: &Self) -> (r: bool)
        ensures
            r == (self@ < other@),
    {
        let la = self.limbs.len();
        let lb = other.limbs.len();
        let n = if la > lb {
            la
        } else {
            lb
        };
        let mut below = false;
        let mut above = false;
        let mut i: usize = 0;
        while i < n
            invariant
                i <= n,
                n >= la,
                n >= lb,
                la == self.limbs@.len(),
                lb == other.limbs@.len(),
                !(below && above),
                below == (prefix_value(self.limbs@, i as nat) < prefix_value(
                    other.limbs@,
                    i as nat,
                )),
                above == (prefix_value(self.limbs@, i as nat) > prefix_value(
                    other.limbs@,
                    i as nat,
                )),
            decreases n - i,
        {
            let x = self.limb(i);
            let y = other.limb(i);
            proof {
                let w = base_pow(i as nat);
                let pa = prefix_value(self.limbs@, i as nat);
                let pb = prefix_value(other.limbs@, i as nat);
                lemma_prefix_bound(self.limbs@, i as nat);
                lemma_prefix_bound(other.limbs@, i as nat);
                if x < y {
                    assert(pa + x * w < pb + y * w) by (nonlinear_arith)
                        requires
                            pa < w,
                            x + 1 <= y,
                    ;
                } else if x > y {
                    assert(pa + x * w > pb + y * w) by (nonlinear_arith)
                        requires
                            pb < w,
                            y + 1 <= x,
                    ;
                }
            }
            if x < y {
                below = true;
                above = false;
            } else if x > y {
                below = false;
                above = true;
            }
            i += 1;
        }
        proof {
            lemma_prefix_beyond(self.limbs@, n as nat);
            lemma_prefix_beyond(other.limbs@, n as nat);
        }
        below
    }

    /// `self <= other`.
    pub fn le(&self, other: &Self) -> (r: bool)
        ensures
            r == (self@ <= other@),
    {
        !other.lt(self)
    }

    /// `self` and `other` stand for the same number.
    pub fn same(&self, other: &Self) -> (r: bool)
        ensures
            r == (self@ == other@),
    {
        !self.lt(other) && !other.lt(self)
    }

    /// `self` is the number zero.
    pub fn is_zero(&self) -> (r: bool)
        ensures
            r == (self@ == 0),
    {
        let z = Self::zero();
        !z.lt(self)
    }

    /// The sum of `self` and `other`.
    pub fn add(&self, other: &Self) -> (r: Self)
        ensures
            r@ == self@ + other@,
    {
        let la = self.limbs.len();
        let lb = other.limbs.len();
        let n = if la > lb {
            la
        } else {
            lb
        };
        let mut limbs: Vec<u64> = Vec::new();
        let mut carry: u64 = 0;
        let mut i: usize = 0;
        while i < n
            invariant
                i <= n,
                limbs@.len() == i,
                carry <= 1,
                limbs_value(limbs@) + carry * base_pow(i as nat) == prefix_value(
                    self.limbs@,
                    i as nat,
                ) + prefix_value(other.limbs@, i as nat),
            decreases n - i,
        {
            let x = self.limb(i);
            let y = other.limb(i);
            let t: u128 = x as u128 + y as u128 + carry as u128;
            let lo: u64 = (t % 0x1_0000_0000_0000_0000u128) as u64;
            let hi: u64 = (t / 0x1_0000_0000_0000_0000u128) as u64;
            proof {
                let w = base_pow(i as nat);
                lemma_push(limbs@, lo);
                assert(base_pow((i + 1) as nat) == base() * w);
                assert(t == lo + hi * base());
                assert(lo * w + hi * (base() * w) == (x + y + carry) * w) by (nonlinear_arith)
                    requires
                        x + y + carry == lo + hi * base(),
                ;
                assert((x + y + carry) * w == x * w + y * w + carry * w) by (nonlinear_arith);
            }
            limbs.push(lo);
            carry = hi;
            i += 1;
        }
        proof {
            lemma_prefix_beyond(self.limbs@, n as nat);
            lemma_prefix_beyond(other.limbs@, n as nat);
            lemma_push(limbs@, carry);
        }
        limbs.push(carry);
        BigNat { limbs }
    }

    /// The difference of `self` and `other`, where `other` is not the larger.
    pub fn sub(&self, other: &Self) -> (r: Self)
        requires
            other@ <= self@,
        ensures
            r@ == self@ - other@,
    {
        let la = self.limbs.len();
        let lb = other.limbs.len();
        let n = if la > lb {
            la
        } else {
            lb
        };
        let mut limbs: Vec<u64> = Vec::new();
        let mut borrow: u64 = 0;
        let mut i: usize = 0;
        while i < n
            invariant
                i <= n,
                limbs@.len() == i,
                borrow <= 1,
                limbs_value(limbs@) + prefix_value(other.limbs@, i as nat) == prefix_value(
                    self.limbs@,
                    i as nat,
                ) + borrow * base_pow(i as nat),
            decreases n - i,
        {
            let x = self.limb(i);
            let y = other.limb(i);
            let need: u128 = y as u128 + borrow as u128;
            let lo: u64;
            let next: u64;
            if x as u128 >= need {
                lo = (x as u128 - need) as u64;
                next = 0;
            } else {
                lo = (x as u128 + 0x1_0000_0000_0000_0000u128 - need) as u64;
                next = 1;
            }
            proof {
                let w = base_pow(i as nat);
                lemma_push(limbs@, lo);
                assert(base_pow((i + 1) as nat) == base() * w);
                assert(lo + y + borrow == x + next * base());
                assert(lo * w + y * w + borrow * w == x * w + next * (base() * w))
                    by (nonlinear_arith)
                    requires
                        lo + y + borrow == x + next * base(),
                ;
            }
            limbs.push(lo);
            borrow = next;
            i += 1;
        }
        proof {
            lemma_prefix_beyond(self.limbs@, n as nat);
            lemma_prefix_beyond(other.limbs@, n as nat);
            lemma_prefix_bound(limbs@, n as nat);
            if borrow == 1 {
                assert(borrow * base_pow(n as nat) == base_pow(n as nat)) by (nonlinear_arith)
                    requires
                        borrow == 1,
                ;
            } else {
                assert(borrow * base_pow(n as nat) == 0) by (nonlinear_arith)
                    requires
                        borrow == 0,
                ;
            }
        }
        BigNat { limbs }
    }

    /// The product of `self` and the machine word `m`.
    pub fn mul_small(&self, m: u64) -> (r: Self)
        ensures
            r@ == self@ * m,
    {
        let n = self.limbs.len();
        let mut limbs: Vec<u64> = Vec::new();
        let mut carry: u64 = 0;
        let mut i: usize = 0;
        proof {
            assert(prefix_value(self.limbs@, 0) * m == 0) by (nonlinear_arith)
                requires
                    prefix_value(self.limbs@, 0) == 0,
            ;
            assert(carry * base_pow(0) == 0) by (nonlinear_arith)
                requires
                    carry == 0,
            ;
        }
        while i < n
            invariant
                i <= n,
                n == self.limbs@.len(),
                limbs@.len() == i,
                limbs_value(limbs@) + carry * base_pow(i as nat) == prefix_value(
                    self.limbs@,
                    i as nat,
                ) * m,
            decreases n - i,
        {
            let x = self.limbs[i];
            assert(x * m <= 0xffff_ffff_ffff_ffff * 0xffff_ffff_ffff_ffff) by (nonlinear_arith)
                requires
                    0 <= x <= 0xffff_ffff_ffff_ffff,
                    0 <= m <= 0xffff_ffff_ffff_ffff,
            ;
            let t: u128 = x as u128 * m as u128 + carry as u128;
            let lo: u64 = (t % 0x1_0000_0000_0000_0000u128) as u64;
            let hi: u64 = (t / 0x1_0000_0000_0000_0000u128) as u64;
            proof {
                let w = base_pow(i as nat);
                let p = prefix_value(self.limbs@, i as nat);
                lemma_push(limbs@, lo);
                assert(base_pow((i + 1) as nat) == base() * w);
                assert(t == lo + hi * base());
                assert(lo * w + hi * (base() * w) == (x * m) * w + carry * w) by (nonlinear_arith)
                    requires
                        x * m + carry == lo + hi * base(),
                ;
                assert((p + x * w) * m == p * m + (x * m) * w) by (nonlinear_arith);
            }
            limbs.push(lo);
            carry = hi;
            i += 1;
        }
        proof {
            lemma_push(limbs@, carry);
        }
        limbs.push(carry);
        BigNat { limbs }
    }

    /// Quotient and remainder of `self` by the machine word `d`.
    pub fn div_small(&self, d: u64) -> (r: (Self, u64))
        requires
            d > 0,
        ensures
            r.0@ == self@ / (d as nat),
            r.1 == self@ % (d as nat),
    {
        let n = self.limbs.len();
        let mut limbs: Vec<u64> = vec![0u64; n];
        let mut rem: u64 = 0;
        let mut i: usize = n;
        proof {
            assert forall|j: int| 0 <= j < n implies limb_at(limbs@, j) == limb_at(
                Seq::<u64>::empty(),
                j,
            ) by {}
            lemma_prefix_agree(limbs@, Seq::<u64>::empty(), n as nat);
            lemma_prefix_beyond(Seq::<u64>::empty(), n as nat);
            assert(rem * base_pow(n as nat) == 0) by (nonlinear_arith)
                requires
                    rem == 0,
            ;
            assert(limbs_value(limbs@) * d == 0) by (nonlinear_arith)
                requires
                    limbs_value(limbs@) == 0,
            ;
        }
        while i > 0
            invariant
                i <= n,
                n == self.limbs@.len(),
                limbs@.len() == n,
                d > 0,
                rem < d,
                forall|j: int| 0 <= j < i ==> limbs@[j] == 0,
                limbs_value(self.limbs@) == limbs_value(limbs@) * d + rem * base_pow(i as nat)
                    + prefix_value(self.limbs@, i as nat),
            decreases i,
        {
            let x = self.limbs[i - 1];
            assert(rem * 0x1_0000_0000_0000_0000 + x < d * 0x1_0000_0000_0000_0000)
                by (nonlinear_arith)
                requires
                    rem + 1 <= d,
                    x < 0x1_0000_0000_0000_0000,
            ;
            let cur: u128 = rem as u128 * 0x1_0000_0000_0000_0000u128 + x as u128;
            let dd: u128 = d as u128;
            proof {
                lemma_fundamental_div_mod(cur as int, dd as int);
                assert((cur as int) / (dd as int) < 0x1_0000_0000_0000_0000) by (nonlinear_arith)
                    requires
                        cur < dd * 0x1_0000_0000_0000_0000,
                        dd > 0,
                        cur == dd * ((cur as int) / (dd as int)) + (cur as int) % (dd as int),
                        0 <= (cur as int) % (dd as int) < dd,
                ;
            }
            let q: u64 = (cur / dd) as u64;
            let next: u64 = (cur % dd) as u64;
            proof {
                let k = (i - 1) as nat;
                let w = base_pow(k);
                let old_limbs = limbs@;
                lemma_update(old_limbs, i - 1, q, n as nat);
                assert(base_pow(i as nat) == base() * w);
                assert(old_limbs[i - 1] * w == 0) by (nonlinear_arith)
                    requires
                        old_limbs[i - 1] == 0,
                ;
                let pq = limbs_value(old_limbs);
                let pa = prefix_value(self.limbs@, k);
                assert((pq + q * w) * d + next * w + pa == pq * d + rem * (base() * w) + (pa + x
                    * w)) by (nonlinear_arith)
                    requires
                        rem * base() + x == d * q + next,
                ;
            }
            limbs.set(i - 1, q);
            rem = next;
            i -= 1;
        }
        proof {
            assert(rem * base_pow(0) == rem) by (nonlinear_arith)
                requires
                    base_pow(0) == 1,
            ;
            lemma_fundamental_div_mod_converse(
                limbs_value(self.limbs@) as int,
                d as int,
                limbs_value(limbs@) as int,
                rem as int,
            );
        }
        (BigNat { limbs }, rem)
    }

    /// The product of `self` and `other`.
    pub fn mul(&self, other: &Self) -> (r: Self)
        ensures
            r@ == self@ * other@,
    {
        let n = other.limbs.len();
        let mut acc = Self::zero();
        let mut i: usize = n;
        proof {
            assert(acc@ * base_pow(n as nat) == 0) by (nonlinear_arith)
                requires
                    acc@ == 0,
            ;
            assert(self@ * 0 == 0) by (nonlinear_arith);
        }
        while i > 0
            invariant
                i <= n,
                n == other.limbs@.len(),
                acc@ * base_pow(i as nat) + self@ * prefix_value(other.limbs@, i as nat) == self@
                    * other@,
            decreases i,
        {
            let y = other.limbs[i - 1];
            let part = self.mul_small(y);
            let mut shifted: Vec<u64> = Vec::new();
            shifted.push(0u64);
            let mut high = acc.limbs;
            proof {
                lemma_shift(high@, high@.len());
                assert(shifted@ + high@ =~= seq![0u64] + high@);
            }
            shifted.append(&mut high);
            let moved = BigNat { limbs: shifted };
            let ghost before = acc@;
            acc = moved.add(&part);
            proof {
                let k = (i - 1) as nat;
                let w = base_pow(k);
                let p = prefix_value(other.limbs@, k);
                let a = self@;
                assert(base_pow(i as nat) == base() * w);
                assert((base() * before + a * y) * w + a * p == before * (base() * w) + a * (p + y
                    * w)) by (nonlinear_arith);
            }
            i -= 1;
        }
        proof {
            assert(acc@ * base_pow(0) == acc@) by (nonlinear_arith)
                requires
                    base_pow(0) == 1,
            ;
            assert(self@ * prefix_value(other.limbs@, 0) == 0) by (nonlinear_arith)
                requires
                    prefix_value(other.limbs@, 0) == 0,
            ;
        }
        acc
    }
}

impl BigNat {
    /// The number as a machine word, where it fits into one.
    pub fn to_u64(&self) -> (r: Option<u64>)
        ensures
            r == if self@ <= u64::MAX {
                Some(self@ as u64)
            } else {
                None
            },
    {
        let n = self.limbs.len();
        let mut i: usize = n;
        proof {
            lemma_prefix_beyond(self.limbs@, n as nat);
        }
        while i > 1
            invariant
                i <= n,
                i >= 1 || n == 0,
                n == self.limbs@.len(),
                prefix_value(self.limbs@, i as nat) == limbs_value(self.limbs@),
            decreases i,
        {
            if self.limbs[i - 1] != 0 {
                proof {
                    let w = base_pow((i - 1) as nat);
                    lemma_base_pow_positive((i - 2) as nat);
                    assert(w == base() * base_pow((i - 2) as nat));
                    assert(self.limbs@[i - 1] * w >= base()) by (nonlinear_arith)
                        requires
                            self.limbs@[i - 1] >= 1,
                            w == base() * base_pow((i - 2) as nat),
                            base_pow((i - 2) as nat) >= 1,
                            base() > 0,
                    ;
                }
                return None;
            }
            proof {
                assert(limb_at(self.limbs@, i - 1) * base_pow((i - 1) as nat) == 0)
                    by (nonlinear_arith)
                    requires
                        limb_at(self.limbs@, i - 1) == 0,
                ;
            }
            i -= 1;
        }
        if n == 0 {
            Some(0)
        } else {
            proof {
                assert(i == 1);
                assert(prefix_value(self.limbs@, 0) == 0);
                assert(prefix_value(self.limbs@, 1) == prefix_value(self.limbs@, 0) + limb_at(
                    self.limbs@,
                    0,
                ) * base_pow(0));
                assert(limb_at(self.limbs@, 0) * base_pow(0) == limb_at(self.limbs@, 0))
                    by (nonlinear_arith)
                    requires
                        base_pow(0) == 1,
                ;
            }
            Some(self.limbs[0])
        }
    }

    /// The decimal digits of the number, without leading zeros.
    pub fn to_decimal(&self) -> (r: Vec<char>)
        ensures
            r@ == digits(self@),
        decreases self@,
    {
        let ten = Self::from_u64(10);
        if self.lt(&ten) {
            let low = match self.to_u64() {
                Some(low) => low,
                None => 0,
            };
            let mut out: Vec<char> = Vec::new();
            out.push(digit(low as u8));
            assert(out@ =~= digits(self@));
            out
        } else {
            let (rest, last) = self.div_small(10);
            let mut out = rest.to_decimal();
            out.push(digit(last as u8));
            out
        }
    }
}

} // verus!
