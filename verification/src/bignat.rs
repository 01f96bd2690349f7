use vstd::prelude::*;

use vstd::arithmetic::power::pow;

verus! {

// Arbitrary-precision natural numbers, used to compare products and
// sums of machine-word fractions exactly.  A number is a little-endian
// sequence of 64-bit limbs; trailing zero limbs are allowed.

/// The radix of one limb.
pub open spec fn base() -> int {
    0x1_0000_0000_0000_0000
}

/// The natural number denoted by a little-endian limb sequence.
pub open spec fn nat_of(s: Seq<u64>) -> int
    decreases s.len(),
{
    if s.len() == 0 {
        0
    } else {
        s[0] + base() * nat_of(s.drop_first())
    }
}

/// An arbitrary-precision natural number.
pub struct BigNat {
    pub limbs: Vec<u64>,
}

impl BigNat {
    /// The number denoted.
    pub open spec fn value(&self) -> int {
        nat_of(self.limbs@)
    }
}

pub proof fn lemma_nat_of_nonneg(s: Seq<u64>)
    ensures
        nat_of(s) >= 0,
    decreases s.len(),
{
    if s.len() > 0 {
        lemma_nat_of_nonneg(s.drop_first());
    }
}

/// Appending a limb adds its value scaled by the current width.
pub proof fn lemma_nat_of_push(s: Seq<u64>, x: u64)
    ensures
        nat_of(s.push(x)) == nat_of(s) + pow(base(), s.len()) * x,
    decreases s.len(),
{
    if s.len() == 0 {
        assert(s.push(x).len() == 1);
        assert(s.push(x)[0] == x);
        assert(s.push(x).drop_first() =~= Seq::<u64>::empty());
        assert(nat_of(Seq::<u64>::empty()) == 0);
        assert(pow(base(), 0) == 1) by {
            vstd::arithmetic::power::lemma_pow0(base());
        }
        assert(nat_of(s.push(x)) == x + base() * 0);
        assert(nat_of(s) == 0);
    } else {
        let t = s.drop_first();
        assert(s.push(x).drop_first() =~= t.push(x));
        lemma_nat_of_push(t, x);
        assert(nat_of(s.push(x)) == s[0] + base() * (nat_of(t) + pow(base(), t.len()) * x));
        assert(pow(base(), s.len()) == base() * pow(base(), t.len())) by {
            vstd::arithmetic::power::lemma_pow_adds(base(), 1, t.len());
            vstd::arithmetic::power::lemma_pow1(base());
        }
        assert(base() * (nat_of(t) + pow(base(), t.len()) * x) == base() * nat_of(t) + (base()
            * pow(base(), t.len())) * x) by (nonlinear_arith);
        assert(nat_of(s.push(x)) == nat_of(s) + pow(base(), s.len()) * x);
    }
}

/// A number splits at any position into its low and high limbs.
pub proof fn lemma_nat_of_split(s: Seq<u64>, p: int)
    requires
        0 <= p <= s.len(),
    ensures
        nat_of(s) == nat_of(s.take(p)) + pow(base(), p as nat) * nat_of(s.skip(p)),
    decreases p,
{
    if p == 0 {
        assert(s.take(0) =~= Seq::<u64>::empty());
        assert(s.skip(0) =~= s);
        assert(pow(base(), 0) == 1) by {
            vstd::arithmetic::power::lemma_pow0(base());
        }
    } else {
        let t = s.drop_first();
        assert(s.take(p).drop_first() =~= t.take(p - 1));
        assert(s.skip(p) =~= t.skip(p - 1));
        assert(s.take(p).len() == p);
        assert(s.take(p)[0] == s[0]);
        lemma_nat_of_split(t, p - 1);
        assert(nat_of(s.take(p)) == s[0] + base() * nat_of(t.take(p - 1)));
        assert(nat_of(s) == s[0] + base() * nat_of(t));
        assert(pow(base(), p as nat) == base() * pow(base(), (p - 1) as nat)) by {
            vstd::arithmetic::power::lemma_pow_adds(base(), 1, (p - 1) as nat);
            vstd::arithmetic::power::lemma_pow1(base());
        }
        assert(base() * (nat_of(t.take(p - 1)) + pow(base(), (p - 1) as nat) * nat_of(t.skip(p - 1)))
            == base() * nat_of(t.take(p - 1)) + (base() * pow(base(), (p - 1) as nat)) * nat_of(
            t.skip(p - 1),
        )) by (nonlinear_arith);
    }
}

/// A number of `n` limbs is below `base()^n`.
pub proof fn lemma_nat_of_bound(s: Seq<u64>)
    ensures
        0 <= nat_of(s) < pow(base(), s.len()),
    decreases s.len(),
{
    if s.len() == 0 {
        assert(pow(base(), 0) == 1) by {
            vstd::arithmetic::power::lemma_pow0(base());
        }
    } else {
        let t = s.drop_first();
        lemma_nat_of_bound(t);
        assert(pow(base(), s.len()) == base() * pow(base(), t.len())) by {
            vstd::arithmetic::power::lemma_pow_adds(base(), 1, t.len());
            vstd::arithmetic::power::lemma_pow1(base());
        }
        assert(s[0] + base() * nat_of(t) < base() * pow(base(), t.len())) by (nonlinear_arith)
            requires
                0 <= nat_of(t) < pow(base(), t.len()),
                0 <= s[0] < base(),
        ;
    }
}

/// The value of the limbs of `s` taken up to `i`, the whole of `s` if
/// `i` reaches past its end.
pub open spec fn val_take(s: Seq<u64>, i: int) -> int {
    if i <= s.len() {
        nat_of(s.take(i))
    } else {
        nat_of(s)
    }
}

/// The limb of `s` at `i`, zero past the end.
pub open spec fn limb_at(s: Seq<u64>, i: int) -> u64 {
    if 0 <= i < s.len() {
        s[i]
    } else {
        0
    }
}

proof fn lemma_val_take_step(s: Seq<u64>, i: int)
    requires
        0 <= i,
    ensures
        val_take(s, i + 1) == val_take(s, i) + pow(base(), i as nat) * limb_at(s, i),
{
    if i < s.len() {
        assert(s.take(i + 1) =~= s.take(i).push(s[i]));
        assert(s.take(i).len() == i);
        lemma_nat_of_push(s.take(i), s[i]);
    } else {
        if i == s.len() {
            assert(s.take(i) =~= s);
        }
        assert(pow(base(), i as nat) * 0 == 0);
    }
}

proof fn lemma_val_take_full(s: Seq<u64>, i: int)
    requires
        i >= s.len(),
    ensures
        val_take(s, i) == nat_of(s),
{
    if i == s.len() {
        assert(s.take(i) =~= s);
    }
}

fn limb_get(v: &Vec<u64>, i: usize) -> (r: u64)
    ensures
        r == limb_at(v@, i as int),
{
    if i < v.len() {
        v[i]
    } else {
        0
    }
}

impl BigNat {
    /// The number with a single limb.
    pub fn from_u64(x: u64) -> (r: BigNat)
        ensures
            r.value() == x,
    {
        let mut limbs: Vec<u64> = Vec::new();
        limbs.push(x);
        proof {
            assert(limbs@.drop_first() =~= Seq::<u64>::empty());
            assert(nat_of(Seq::<u64>::empty()) == 0);
            assert(nat_of(limbs@) == x + base() * 0);
        }
        BigNat { limbs }
    }

    /// The sum of two numbers.
    pub fn add(&self, other: &BigNat) -> (r: BigNat)
        ensures
            r.value() == self.value() + other.value(),
    {
        let na = self.limbs.len();
        let nb = other.limbs.len();
        let n = if na > nb {
            na
        } else {
            nb
        };
        let mut out: Vec<u64> = Vec::new();
        let mut carry: u64 = 0;
        let mut i: usize = 0;
        proof {
            assert(self.limbs@.take(0) =~= Seq::<u64>::empty());
            assert(other.limbs@.take(0) =~= Seq::<u64>::empty());
            assert(out@ =~= Seq::<u64>::empty());
            assert(pow(base(), 0) == 1) by {
                vstd::arithmetic::power::lemma_pow0(base());
            }
        }
        while i < n
            invariant
                i <= n,
                n == if self.limbs@.len() > other.limbs@.len() {
                    self.limbs@.len()
                } else {
                    other.limbs@.len()
                },
                out@.len() == i,
                carry <= 1,
                nat_of(out@) + pow(base(), i as nat) * carry == val_take(self.limbs@, i as int)
                    + val_take(other.limbs@, i as int),
            decreases n - i,
        {
            let a = limb_get(&self.limbs, i);
            let b = limb_get(&other.limbs, i);
            let s: u128 = a as u128 + b as u128 + carry as u128;
            let low: u64 = (s % 0x1_0000_0000_0000_0000u128) as u64;
            let hi: u64 = (s / 0x1_0000_0000_0000_0000u128) as u64;
            proof {
                assert(s == low + base() * hi);
                assert(hi <= 1);
                lemma_nat_of_push(out@, low);
                lemma_val_take_step(self.limbs@, i as int);
                lemma_val_take_step(other.limbs@, i as int);
                let p = pow(base(), i as nat);
                assert(p > 0) by {
                    vstd::arithmetic::power::lemma_pow_positive(base(), i as nat);
                }
                assert(pow(base(), (i + 1) as nat) == p * base()) by {
                    vstd::arithmetic::power::lemma_pow_adds(base(), i as nat, 1);
                    vstd::arithmetic::power::lemma_pow1(base());
                }
                assert(p * low + (p * base()) * hi == p * a + p * b + p * carry)
                    by (nonlinear_arith)
                    requires
                        a + b + carry == low + base() * hi,
                ;
            }
            out.push(low);
            carry = hi;
            i += 1;
        }
        proof {
            assert(self.limbs@.take(self.limbs@.len() as int) =~= self.limbs@);
            assert(other.limbs@.take(other.limbs@.len() as int) =~= other.limbs@);
            assert(val_take(self.limbs@, n as int) == self.value());
            assert(val_take(other.limbs@, n as int) == other.value());
        }
        if carry > 0 {
            proof {
                lemma_nat_of_push(out@, carry);
            }
            out.push(carry);
        }
        BigNat { limbs: out }
    }

    /// The product of a number and a 64-bit multiplier.
    pub fn mul_small(&self, m: u64) -> (r: BigNat)
        ensures
            r.value() == self.value() * m,
    {
        let n = self.limbs.len();
        let mut out: Vec<u64> = Vec::new();
        let mut carry: u64 = 0;
        let mut i: usize = 0;
        proof {
            assert(self.limbs@.take(0) =~= Seq::<u64>::empty());
            assert(out@ =~= Seq::<u64>::empty());
            assert(pow(base(), 0) == 1) by {
                vstd::arithmetic::power::lemma_pow0(base());
            }
        }
        while i < n
            invariant
                i <= n,
                n == self.limbs@.len(),
                out@.len() == i,
                nat_of(out@) + pow(base(), i as nat) * carry == nat_of(self.limbs@.take(i as int))
                    * m,
            decreases n - i,
        {
            let a = self.limbs[i];
            proof {
                assert((a as int) * (m as int) <= 0xffff_ffff_ffff_ffff
                    * 0xffff_ffff_ffff_ffff) by (nonlinear_arith)
                    requires
                        0 <= a <= 0xffff_ffff_ffff_ffff,
                        0 <= m <= 0xffff_ffff_ffff_ffff,
                ;
            }
            let s: u128 = (a as u128) * (m as u128) + carry as u128;
            let low: u64 = (s % 0x1_0000_0000_0000_0000u128) as u64;
            let hi: u64 = (s / 0x1_0000_0000_0000_0000u128) as u64;
            proof {
                assert(s == low + base() * hi);
                lemma_nat_of_push(out@, low);
                let p = pow(base(), i as nat);
                assert(p > 0) by {
                    vstd::arithmetic::power::lemma_pow_positive(base(), i as nat);
                }
                assert(pow(base(), (i + 1) as nat) == p * base()) by {
                    vstd::arithmetic::power::lemma_pow_adds(base(), i as nat, 1);
                    vstd::arithmetic::power::lemma_pow1(base());
                }
                assert(self.limbs@.take(i + 1) =~= self.limbs@.take(i as int).push(
                    self.limbs@[i as int],
                ));
                lemma_nat_of_push(self.limbs@.take(i as int), self.limbs@[i as int]);
                let t = nat_of(self.limbs@.take(i as int));
                assert((t + p * a) * m == t * m + p * (a * m)) by (nonlinear_arith);
                assert(p * low + (p * base()) * hi == p * (a * m) + p * carry)
                    by (nonlinear_arith)
                    requires
                        a * m + carry == low + base() * hi,
                ;
            }
            out.push(low);
            carry = hi;
            i += 1;
        }
        proof {
            assert(self.limbs@.take(n as int) =~= self.limbs@);
        }
        if carry > 0 {
            proof {
                lemma_nat_of_push(out@, carry);
            }
            out.push(carry);
        }
        BigNat { limbs: out }
    }

    /// The product of a number and a 128-bit multiplier.
    pub fn mul_u128(&self, m: u128) -> (r: BigNat)
        ensures
            r.value() == self.value() * m,
    {
        let low: u64 = (m % 0x1_0000_0000_0000_0000u128) as u64;
        let hi: u64 = (m / 0x1_0000_0000_0000_0000u128) as u64;
        let lo_part = self.mul_small(low);
        let hi_part = self.mul_small(hi).shift_limb();
        let r = lo_part.add(&hi_part);
        proof {
            assert(m == low + base() * hi);
            assert(self.value() * low + (self.value() * hi) * base() == self.value() * (low + base()
                * hi)) by (nonlinear_arith);
        }
        r
    }

    /// The number shifted up by one limb, that is, multiplied by the
    /// radix.
    pub fn shift_limb(&self) -> (r: BigNat)
        ensures
            r.value() == self.value() * base(),
    {
        let mut limbs: Vec<u64> = Vec::new();
        limbs.push(0);
        let mut i: usize = 0;
        proof {
            assert(limbs@.drop_first() =~= Seq::<u64>::empty());
            assert(limbs@ =~= Seq::<u64>::empty().push(0u64));
            assert(self.limbs@.take(0) =~= Seq::<u64>::empty());
        }
        while i < self.limbs.len()
            invariant
                i <= self.limbs@.len(),
                limbs@.len() == i + 1,
                limbs@[0] == 0,
                nat_of(limbs@) == base() * nat_of(self.limbs@.take(i as int)),
                limbs@.drop_first() =~= self.limbs@.take(i as int),
            decreases self.limbs@.len() - i,
        {
            let x = self.limbs[i];
            proof {
                assert(limbs@.push(x).drop_first() =~= self.limbs@.take(i as int).push(x));
                assert(self.limbs@.take(i + 1) =~= self.limbs@.take(i as int).push(x));
            }
            limbs.push(x);
            i += 1;
        }
        proof {
            assert(self.limbs@.take(self.limbs@.len() as int) =~= self.limbs@);
            assert(base() * nat_of(self.limbs@) == nat_of(self.limbs@) * base());
        }
        BigNat { limbs }
    }

    /// Is this number strictly smaller than `other`?
    pub fn lt(&self, other: &BigNat) -> (r: bool)
        ensures
            r == (self.value() < other.value()),
    {
        let na = self.limbs.len();
        let nb = other.limbs.len();
        let n = if na > nb {
            na
        } else {
            nb
        };
        let mut i: usize = n;
        proof {
            lemma_cmp_suffix(self.limbs@, other.limbs@, n as int);
        }
        while i > 0
            invariant
                i <= n,
                n == if self.limbs@.len() > other.limbs@.len() {
                    self.limbs@.len()
                } else {
                    other.limbs@.len()
                },
                high_val(self.limbs@, i as int) == high_val(other.limbs@, i as int),
            decreases i,
        {
            let a = limb_get(&self.limbs, i - 1);
            let b = limb_get(&other.limbs, i - 1);
            proof {
                lemma_high_val_step(self.limbs@, i - 1);
                lemma_high_val_step(other.limbs@, i - 1);
                lemma_cmp_decide(self.limbs@, other.limbs@, i - 1);
            }
            if a < b {
                return true;
            }
            if a > b {
                return false;
            }
            i -= 1;
        }
        proof {
            lemma_high_val_zero(self.limbs@);
            lemma_high_val_zero(other.limbs@);
        }
        false
    }

    /// Does this number denote the same value as `other`?
    pub fn eq_value(&self, other: &BigNat) -> (r: bool)
        ensures
            r == (self.value() == other.value()),
    {
        let na = self.limbs.len();
        let nb = other.limbs.len();
        let n = if na > nb {
            na
        } else {
            nb
        };
        let mut i: usize = n;
        proof {
            lemma_cmp_suffix(self.limbs@, other.limbs@, n as int);
        }
        while i > 0
            invariant
                i <= n,
                n == if self.limbs@.len() > other.limbs@.len() {
                    self.limbs@.len()
                } else {
                    other.limbs@.len()
                },
                high_val(self.limbs@, i as int) == high_val(other.limbs@, i as int),
            decreases i,
        {
            let a = limb_get(&self.limbs, i - 1);
            let b = limb_get(&other.limbs, i - 1);
            proof {
                lemma_high_val_step(self.limbs@, i - 1);
                lemma_high_val_step(other.limbs@, i - 1);
                lemma_cmp_decide(self.limbs@, other.limbs@, i - 1);
            }
            if a != b {
                return false;
            }
            i -= 1;
        }
        proof {
            lemma_high_val_zero(self.limbs@);
            lemma_high_val_zero(other.limbs@);
        }
        true
    }
}

/// The value held by the limbs of `s` at positions `i` and above.
pub open spec fn high_val(s: Seq<u64>, i: int) -> int {
    if i <= s.len() {
        if i <= 0 {
            nat_of(s)
        } else {
            nat_of(s.skip(i))
        }
    } else {
        0
    }
}

proof fn lemma_high_val_zero(s: Seq<u64>)
    ensures
        high_val(s, 0) == nat_of(s),
{
}

proof fn lemma_high_val_step(s: Seq<u64>, i: int)
    requires
        0 <= i,
    ensures
        high_val(s, i) == limb_at(s, i) + base() * high_val(s, i + 1),
{
    if i < s.len() {
        let t = s.skip(i);
        assert(t.len() > 0);
        assert(t[0] == s[i]);
        assert(t.drop_first() =~= s.skip(i + 1));
        if i == 0 {
            assert(s.skip(0) =~= s);
        }
    } else {
        if i == s.len() {
            assert(s.skip(i) =~= Seq::<u64>::empty());
        }
    }
}

/// Past the width of both numbers the high parts agree.
proof fn lemma_cmp_suffix(a: Seq<u64>, b: Seq<u64>, n: int)
    requires
        a.len() <= n,
        b.len() <= n,
    ensures
        high_val(a, n) == high_val(b, n),
{
    if n == a.len() {
        assert(a.skip(n) =~= Seq::<u64>::empty());
    }
    if n == b.len() {
        assert(b.skip(n) =~= Seq::<u64>::empty());
    }
}

/// If the high parts above `i + 1` agree, the limbs at `i` decide the
/// order unless they are equal.
proof fn lemma_cmp_decide(a: Seq<u64>, b: Seq<u64>, i: int)
    requires
        0 <= i,
        high_val(a, i + 1) == high_val(b, i + 1),
    ensures
        limb_at(a, i) < limb_at(b, i) ==> nat_of(a) < nat_of(b),
        limb_at(a, i) > limb_at(b, i) ==> nat_of(a) > nat_of(b),
{
    lemma_high_val_step(a, i);
    lemma_high_val_step(b, i);
    if limb_at(a, i) != limb_at(b, i) {
        // the high parts at i differ by at least 1, which outweighs
        // any difference in the low parts
        let la = if i <= a.len() {
            nat_of(a.take(i))
        } else {
            nat_of(a)
        };
        let lb = if i <= b.len() {
            nat_of(b.take(i))
        } else {
            nat_of(b)
        };
        if i <= a.len() {
            lemma_nat_of_split(a, i);
            lemma_nat_of_bound(a.take(i));
            assert(a.take(i).len() == i);
        } else {
            lemma_nat_of_bound(a);
            assert(pow(base(), a.len() as nat) <= pow(base(), i as nat)) by {
                vstd::arithmetic::power::lemma_pow_increases(
                    0x1_0000_0000_0000_0000 as nat,
                    a.len(),
                    i as nat,
                );
            }
            assert(high_val(a, i) == 0);
        }
        if i <= b.len() {
            lemma_nat_of_split(b, i);
            lemma_nat_of_bound(b.take(i));
            assert(b.take(i).len() == i);
        } else {
            lemma_nat_of_bound(b);
            assert(pow(base(), b.len() as nat) <= pow(base(), i as nat)) by {
                vstd::arithmetic::power::lemma_pow_increases(
                    0x1_0000_0000_0000_0000 as nat,
                    b.len(),
                    i as nat,
                );
            }
            assert(high_val(b, i) == 0);
        }
        let p = pow(base(), i as nat);
        assert(p > 0) by {
            vstd::arithmetic::power::lemma_pow_positive(base(), i as nat);
        }
        if i == 0 {
            assert(a.take(0) =~= Seq::<u64>::empty());
            assert(b.take(0) =~= Seq::<u64>::empty());
            assert(nat_of(Seq::<u64>::empty()) == 0);
            assert(pow(base(), 0) == 1) by {
                vstd::arithmetic::power::lemma_pow0(base());
            }
            assert(1 * high_val(a, 0) == high_val(a, 0));
            assert(1 * high_val(b, 0) == high_val(b, 0));
        }
        assert(nat_of(a) == la + p * high_val(a, i));
        assert(nat_of(b) == lb + p * high_val(b, i));
        lemma_nat_of_nonneg(a);
        lemma_nat_of_nonneg(b);
        assert(high_val(a, i) < high_val(b, i) ==> la + p * high_val(a, i) < lb + p * high_val(
            b,
            i,
        )) by (nonlinear_arith)
            requires
                0 <= la < p,
                0 <= lb < p,
        ;
        assert(high_val(a, i) > high_val(b, i) ==> la + p * high_val(a, i) > lb + p * high_val(
            b,
            i,
        )) by (nonlinear_arith)
            requires
                0 <= la < p,
                0 <= lb < p,
        ;
        assert(high_val(a, i) == limb_at(a, i) + base() * high_val(a, i + 1));
        assert(high_val(b, i) == limb_at(b, i) + base() * high_val(b, i + 1));
    }
}

impl BigNat {
    /// A copy of the number.
    pub fn duplicate(&self) -> (r: BigNat)
        ensures
            r.value() == self.value(),
    {
        let mut limbs: Vec<u64> = Vec::new();
        let mut i: usize = 0;
        while i < self.limbs.len()
            invariant
                i <= self.limbs@.len(),
                limbs@ == self.limbs@.take(i as int),
            decreases self.limbs@.len() - i,
        {
            proof {
                assert(self.limbs@.take(i + 1) =~= self.limbs@.take(i as int).push(
                    self.limbs@[i as int],
                ));
            }
            limbs.push(self.limbs[i]);
            i += 1;
        }
        proof {
            assert(self.limbs@.take(self.limbs@.len() as int) =~= self.limbs@);
        }
        BigNat { limbs }
    }

    /// The number shifted up by `k` limbs.
    pub fn shift_limbs(&self, k: usize) -> (r: BigNat)
        ensures
            r.value() == self.value() * pow(base(), k as nat),
    {
        let mut acc = self.duplicate();
        let mut i: usize = 0;
        proof {
            assert(pow(base(), 0) == 1) by {
                vstd::arithmetic::power::lemma_pow0(base());
            }
        }
        while i < k
            invariant
                i <= k,
                acc.value() == self.value() * pow(base(), i as nat),
            decreases k - i,
        {
            acc = acc.shift_limb();
            proof {
                assert(pow(base(), (i + 1) as nat) == pow(base(), i as nat) * base()) by {
                    vstd::arithmetic::power::lemma_pow_adds(base(), i as nat, 1);
                    vstd::arithmetic::power::lemma_pow1(base());
                }
                assert((self.value() * pow(base(), i as nat)) * base() == self.value() * (pow(
                    base(),
                    i as nat,
                ) * base())) by (nonlinear_arith);
            }
            i += 1;
        }
        acc
    }

    /// The product of two numbers.
    pub fn mul(&self, other: &BigNat) -> (r: BigNat)
        ensures
            r.value() == self.value() * other.value(),
    {
        let mut acc = BigNat::from_u64(0);
        let mut i: usize = 0;
        proof {
            assert(other.limbs@.take(0) =~= Seq::<u64>::empty());
            assert(self.value() * 0 == 0) by (nonlinear_arith);
        }
        while i < other.limbs.len()
            invariant
                i <= other.limbs@.len(),
                acc.value() == self.value() * nat_of(other.limbs@.take(i as int)),
            decreases other.limbs@.len() - i,
        {
            let part = self.mul_small(other.limbs[i]).shift_limbs(i);
            acc = acc.add(&part);
            proof {
                assert(other.limbs@.take(i + 1) =~= other.limbs@.take(i as int).push(
                    other.limbs@[i as int],
                ));
                lemma_nat_of_push(other.limbs@.take(i as int), other.limbs@[i as int]);
                assert(other.limbs@.take(i as int).len() == i);
                let t = nat_of(other.limbs@.take(i as int));
                let l = other.limbs@[i as int] as int;
                let p = pow(base(), i as nat);
                assert((self.value() * l) * p == self.value() * (l * p)) by (nonlinear_arith);
                assert(self.value() * t + self.value() * (p * l) == self.value() * (t + p * l))
                    by (nonlinear_arith);
            }
            i += 1;
        }
        proof {
            assert(other.limbs@.take(other.limbs@.len() as int) =~= other.limbs@);
        }
        acc
    }

    /// The difference of two numbers; the subtrahend must not exceed
    /// the minuend.
    #[verifier::rlimit(50)]
    pub fn sub(&self, other: &BigNat) -> (r: BigNat)
        requires
            other.value() <= self.value(),
        ensures
            r.value() == self.value() - other.value(),
    {
        let n = self.limbs.len();
        let mut out: Vec<u64> = Vec::new();
        let mut borrow: u64 = 0;
        let mut i: usize = 0;
        proof {
            assert(self.limbs@.take(0) =~= Seq::<u64>::empty());
            assert(pow(base(), 0) == 1) by {
                vstd::arithmetic::power::lemma_pow0(base());
            }
            lemma_nat_of_bound(other.limbs@);
            lemma_nat_of_bound(self.limbs@);
        }
        while i < n
            invariant
                i <= n,
                n == self.limbs@.len(),
                out@.len() == i,
                borrow <= 1,
                nat_of(out@) == val_take(self.limbs@, i as int) - val_take(
                    other.limbs@,
                    i as int,
                ) + borrow * pow(base(), i as nat),
                other.value() <= self.value(),
            decreases n - i,
        {
            let a = limb_get(&self.limbs, i);
            let b = limb_get(&other.limbs, i);
            let s: u128 = (a as u128) + 0x1_0000_0000_0000_0000u128 - (b as u128) - (
            borrow as u128);
            let low: u64 = (s % 0x1_0000_0000_0000_0000u128) as u64;
            let nb: u64 = if s < 0x1_0000_0000_0000_0000u128 {
                1
            } else {
                0
            };
            proof {
                assert(a + base() - b - borrow == low + base() * (1 - nb));
                lemma_nat_of_push(out@, low);
                lemma_val_take_step(self.limbs@, i as int);
                lemma_val_take_step(other.limbs@, i as int);
                let p = pow(base(), i as nat);
                assert(p > 0) by {
                    vstd::arithmetic::power::lemma_pow_positive(base(), i as nat);
                }
                assert(pow(base(), (i + 1) as nat) == p * base()) by {
                    vstd::arithmetic::power::lemma_pow_adds(base(), i as nat, 1);
                    vstd::arithmetic::power::lemma_pow1(base());
                }
                assert(p * low == p * a - p * b - p * borrow + (p * base()) * nb)
                    by (nonlinear_arith)
                    requires
                        a + base() - b - borrow == low + base() * (1 - nb),
                ;
                assert(nb * (p * base()) == (p * base()) * nb) by (nonlinear_arith);
                assert(borrow * p == p * borrow) by (nonlinear_arith);
                assert(pow(base(), out@.len() as nat) == p);
                assert(nat_of(out@.push(low)) == nat_of(out@) + p * low);
                assert(nat_of(out@.push(low)) == val_take(self.limbs@, i + 1) - val_take(
                    other.limbs@,
                    i + 1,
                ) + nb * pow(base(), (i + 1) as nat));
            }
            out.push(low);
            borrow = nb;
            i += 1;
        }
        proof {
            lemma_val_take_full(self.limbs@, n as int);
            assert(val_take(self.limbs@, n as int) == self.value());
            if other.limbs@.len() <= n {
                lemma_val_take_full(other.limbs@, n as int);
                assert(val_take(other.limbs@, n as int) == other.value());
            } else {
                lemma_nat_of_split(other.limbs@, n as int);
                lemma_nat_of_nonneg(other.limbs@.skip(n as int));
                assert(pow(base(), n as nat) > 0) by {
                    vstd::arithmetic::power::lemma_pow_positive(base(), n as nat);
                }
                if nat_of(other.limbs@.skip(n as int)) > 0 {
                    assert(pow(base(), n as nat) * nat_of(other.limbs@.skip(n as int)) >= pow(
                        base(),
                        n as nat,
                    )) by (nonlinear_arith)
                        requires
                            pow(base(), n as nat) > 0,
                            nat_of(other.limbs@.skip(n as int)) >= 1,
                    ;
                    lemma_nat_of_bound(self.limbs@);
                    lemma_nat_of_nonneg(other.limbs@.take(n as int));
                    assert(false);
                }
                assert(val_take(other.limbs@, n as int) == other.value());
            }
            if borrow == 1 {
                lemma_nat_of_bound(out@);
                assert(false);
            }
        }
        BigNat { limbs: out }
    }

    /// Does the number denote zero?
    pub fn is_zero(&self) -> (r: bool)
        ensures
            r == (self.value() == 0),
    {
        let mut i: usize = 0;
        while i < self.limbs.len()
            invariant
                i <= self.limbs@.len(),
                nat_of(self.limbs@.take(i as int)) == 0,
            decreases self.limbs@.len() - i,
        {
            proof {
                assert(self.limbs@.take(i + 1) =~= self.limbs@.take(i as int).push(
                    self.limbs@[i as int],
                ));
                lemma_nat_of_push(self.limbs@.take(i as int), self.limbs@[i as int]);
                assert(self.limbs@.take(i as int).len() == i);
                assert(pow(base(), i as nat) > 0) by {
                    vstd::arithmetic::power::lemma_pow_positive(base(), i as nat);
                }
            }
            if self.limbs[i] != 0 {
                proof {
                    assert(pow(base(), i as nat) * self.limbs@[i as int] >= pow(
                        base(),
                        i as nat,
                    )) by (nonlinear_arith)
                        requires
                            pow(base(), i as nat) > 0,
                            self.limbs@[i as int] >= 1,
                    ;
                    lemma_nat_of_split(self.limbs@, i + 1);
                    lemma_nat_of_nonneg(self.limbs@.skip(i + 1));
                    assert(pow(base(), (i + 1) as nat) > 0) by {
                        vstd::arithmetic::power::lemma_pow_positive(base(), (i + 1) as nat);
                    }
                    assert(pow(base(), (i + 1) as nat) * nat_of(self.limbs@.skip(i + 1)) >= 0)
                        by (nonlinear_arith)
                        requires
                            pow(base(), (i + 1) as nat) > 0,
                            nat_of(self.limbs@.skip(i + 1)) >= 0,
                    ;
                }
                return false;
            }
            proof {
                assert(self.limbs@[i as int] == 0);
                assert(pow(base(), i as nat) * (self.limbs@[i as int] as int) == 0)
                    by (nonlinear_arith)
                    requires
                        self.limbs@[i as int] == 0,
                ;
            }
            i += 1;
        }
        proof {
            assert(self.limbs@.take(self.limbs@.len() as int) =~= self.limbs@);
        }
        true
    }
}

} // verus!
