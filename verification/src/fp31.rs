//! A field with the Mersenne modulus `p = 2^31 - 1`, backed by one
//! unsigned 32-bit word.  Because `2^31 == 1 (mod p)`, any 32-bit
//! intermediate can be reduced by masking the low 31 bits and adding
//! back the overflow bit, never by division.
//!
//! The raw word of an element lies in the closed interval `[0, p]`:
//! both `0` and `p` stand for the additive identity.  Keeping `p` as a
//! second zero avoids a comparison in the reduction; every observable
//! boundary (equality, ordering, integer extraction, serialization,
//! text) canonicalizes `p` to `0` first.

use vstd::prelude::*;

verus! {

use vstd::arithmetic::div_mod::{
    lemma_fundamental_div_mod,
    lemma_mod_multiples_vanish,
    lemma_add_mod_noop,
    lemma_sub_mod_noop,
    lemma_mul_mod_noop,
    lemma_small_mod,
    lemma_mod_self_0,
    lemma_multiply_divide_lt,
    lemma_mul_mod_noop_general,
};
use vstd::arithmetic::mul::{
    lemma_mul_upper_bound,
    lemma_mul_is_associative,
    lemma_mul_is_commutative,
};
use vstd::arithmetic::power::{
    pow,
    lemma_pow_adds,
    lemma_pow_multiplies,
    lemma_pow_mod_noop,
    lemma_pow0,
    lemma_pow1,
    lemma_square_is_pow2,
};
use vstd::arithmetic::power2::pow2;
use vstd::std_specs::cmp::PartialEqSpec;
use vstd::string::StrSliceExecFns;
use vstd::string::StringExecFns;

/// Field modulus `p = 2^31 - 1`.
pub const MODULUS: u32 = 0x7FFF_FFFF;

/// Canonical residue of a raw word: the word itself, with the second
/// zero representation `p` folded to `0`.
pub open spec fn canon31(v: u32) -> int {
    v as int % (MODULUS as int)
}

/// Sum of two canonical residues.
pub open spec fn add_v(x: int, y: int) -> int {
    (x + y) % (MODULUS as int)
}

/// Difference of two canonical residues.
pub open spec fn sub_v(x: int, y: int) -> int {
    (x - y) % (MODULUS as int)
}

/// Product of two canonical residues.
pub open spec fn mul_v(x: int, y: int) -> int {
    (x * y) % (MODULUS as int)
}

/// Additive inverse of a canonical residue.
pub open spec fn neg_v(x: int) -> int {
    (0 - x) % (MODULUS as int)
}

/// One fold of a 32-bit intermediate: the low 31 bits plus the high
/// bit, the raw word the reduction produces.
pub open spec fn raw_fold(t: int) -> int {
    t % 0x8000_0000 + t / 0x8000_0000
}

/// The raw word produced by addition.
pub open spec fn raw_add(a: u32, b: u32) -> int {
    raw_fold(a + b)
}

/// The raw word produced by subtraction.
pub open spec fn raw_sub(a: u32, b: u32) -> int {
    raw_fold(a + (MODULUS - b))
}

/// The raw word produced by multiplication: split the 64-bit product
/// `a * 2b`, halve its low word, add the high word, and fold.
pub open spec fn raw_mul(a: u32, b: u32) -> int {
    let t = a * (2 * b);
    raw_fold((t % 0x1_0000_0000) / 2 + t / 0x1_0000_0000)
}

/// A Mersenne-prime field element.
#[derive(Clone, Copy, Debug)]
pub struct Fp(pub u32);

impl View for Fp {
    type V = int;

    /// The canonical residue in `[0, p - 1]` that this element stands for.
    open spec fn view(&self) -> int {
        canon31(self.0)
    }
}

impl Fp {
    /// The raw word never exceeds the modulus.
    pub open spec fn wf(self) -> bool {
        self.0 <= MODULUS
    }

    /// The additive identity, in its `0` representation.
    pub fn zero() -> (r: Fp)
        ensures
            r.wf(),
            r@ == 0,
    {
        Fp(0)
    }

    /// The multiplicative identity.
    pub fn one() -> (r: Fp)
        ensures
            r.wf(),
            r@ == 1,
    {
        Fp(1)
    }

    /// Whether this element is the additive identity, in either of its
    /// two raw representations.
    pub fn is_zero(&self) -> (r: bool)
        requires
            self.wf(),
        ensures
            r == (self@ == 0),
    {
        proof {
            if self.0 < MODULUS {
                lemma_small_mod(self.0 as nat, MODULUS as nat);
            } else {
                lemma_mod_self_0(MODULUS as int);
            }
        }
        self.0 == 0 || self.0 == MODULUS
    }

    /// Whether this element is the multiplicative identity.
    pub fn is_one(&self) -> (r: bool)
        requires
            self.wf(),
        ensures
            r == (self@ == 1),
    {
        proof {
            if self.0 < MODULUS {
                lemma_small_mod(self.0 as nat, MODULUS as nat);
            } else {
                lemma_mod_self_0(MODULUS as int);
            }
        }
        self.0 == 1
    }

    /// The canonical integer in `[0, p - 1]`, with the second zero
    /// representation `p` mapped to `0`.
    pub fn into_integer(&self) -> (r: u32)
        requires
            self.wf(),
        ensures
            r < MODULUS,
            r as int == self@,
    {
        proof {
            if self.0 < MODULUS {
                lemma_small_mod(self.0 as nat, MODULUS as nat);
            } else {
                lemma_mod_self_0(MODULUS as int);
            }
        }
        if self.0 == MODULUS {
            0
        } else {
            self.0
        }
    }

    /// Folds a 32-bit intermediate: keep the low 31 bits and add the
    /// overflow bit back in, using `2^31 == 1 (mod p)`.
    fn fold(t: u32) -> (r: u32)
        requires
            t <= 0xFFFF_FFFE,
        ensures
            r <= MODULUS,
            r as int == raw_fold(t as int),
            r as int % (MODULUS as int) == t as int % (MODULUS as int),
    {
        proof {
            assert(t & 0x7FFF_FFFFu32 == t % 0x8000_0000u32) by (bit_vector);
            assert(t >> 31u32 == t / 0x8000_0000u32) by (bit_vector);
        }
        let r = (t & MODULUS) + (t >> 31);
        proof {
            let q = t as int / 0x8000_0000;
            let m = t as int % 0x8000_0000;
            lemma_fundamental_div_mod(t as int, 0x8000_0000);
            assert(r == m + q);
            lemma_mod_multiples_vanish(q, q + m, MODULUS as int);
        }
        r
    }

    /// Adds `rhs` into `self`.
    pub fn add_assign(&mut self, rhs: Fp)
        requires
            old(self).wf(),
            rhs.wf(),
        ensures
            final(self).wf(),
            final(self).0 as int == raw_add(old(self).0, rhs.0),
            final(self)@ == add_v(old(self)@, rhs@),
    {
        let t = self.0 + rhs.0;
        self.0 = Self::fold(t);
        proof {
            lemma_add_mod_noop(old(self).0 as int, rhs.0 as int, MODULUS as int);
        }
    }

    /// Subtracts `rhs` from `self`, computed as `self + (p - rhs)` so
    /// that the intermediate never goes negative.
    pub fn sub_assign(&mut self, rhs: Fp)
        requires
            old(self).wf(),
            rhs.wf(),
        ensures
            final(self).wf(),
            final(self).0 as int == raw_sub(old(self).0, rhs.0),
            final(self)@ == sub_v(old(self)@, rhs@),
    {
        let t = self.0 + (MODULUS - rhs.0);
        self.0 = Self::fold(t);
        proof {
            lemma_mod_multiples_vanish(1, old(self).0 - rhs.0, MODULUS as int);
            lemma_sub_mod_noop(old(self).0 as int, rhs.0 as int, MODULUS as int);
        }
    }

    /// Sum of two elements.
    pub fn add(self, rhs: Fp) -> (r: Fp)
        requires
            self.wf(),
            rhs.wf(),
        ensures
            r.wf(),
            r.0 as int == raw_add(self.0, rhs.0),
            r@ == add_v(self@, rhs@),
    {
        let mut t = self;
        t.add_assign(rhs);
        t
    }

    /// Difference of two elements.
    pub fn sub(self, rhs: Fp) -> (r: Fp)
        requires
            self.wf(),
            rhs.wf(),
        ensures
            r.wf(),
            r.0 as int == raw_sub(self.0, rhs.0),
            r@ == sub_v(self@, rhs@),
    {
        let mut t = self;
        t.sub_assign(rhs);
        t
    }

    /// Replaces `self` with its additive inverse.
    pub fn neg_in_place(&mut self)
        requires
            old(self).wf(),
        ensures
            final(self).wf(),
            final(self).0 == MODULUS - old(self).0,
            final(self)@ == neg_v(old(self)@),
    {
        self.0 = MODULUS - self.0;
        proof {
            lemma_mod_multiples_vanish(1, 0 - old(self).0, MODULUS as int);
            lemma_sub_mod_noop(0, old(self).0 as int, MODULUS as int);
        }
    }

    /// Additive inverse.
    pub fn neg(self) -> (r: Fp)
        requires
            self.wf(),
        ensures
            r.wf(),
            r.0 == MODULUS - self.0,
            r@ == neg_v(self@),
    {
        let mut t = self;
        t.neg_in_place();
        t
    }

    /// Doubles `self` in place: a left shift, folded like an addition.
    pub fn double_in_place(&mut self)
        requires
            old(self).wf(),
        ensures
            final(self).wf(),
            final(self)@ == add_v(old(self)@, old(self)@),
    {
        let v = self.0;
        proof {
            assert(v <= 0x7FFF_FFFFu32 ==> ((v << 1u32) & 0x7FFF_FFFFu32) == (v + v) % 0x8000_0000
                && (v >> 30u32) == (v + v) / 0x8000_0000
                && ((v << 1u32) & 0x7FFF_FFFFu32) <= 0x7FFF_FFFFu32
                && (v >> 30u32) <= 1u32) by (bit_vector);
        }
        let x = v << 1;
        self.0 = (x & MODULUS) + (v >> 30);
        proof {
            let t = v as int + v as int;
            let q = t / 0x8000_0000;
            let m = t % 0x8000_0000;
            lemma_fundamental_div_mod(t, 0x8000_0000);
            lemma_mod_multiples_vanish(q, q + m, MODULUS as int);
            lemma_add_mod_noop(v as int, v as int, MODULUS as int);
        }
    }

    /// Twice this element.
    pub fn double(self) -> (r: Fp)
        requires
            self.wf(),
        ensures
            r.wf(),
            r@ == add_v(self@, self@),
    {
        let mut t = self;
        t.double_in_place();
        t
    }

    /// Product of two elements: one 64-bit multiply of `self` by
    /// `2 * rhs`, then a split/add/fold reduction in word operations.
    pub fn mul(self, rhs: Fp) -> (r: Fp)
        requires
            self.wf(),
            rhs.wf(),
        ensures
            r.wf(),
            r.0 as int == raw_mul(self.0, rhs.0),
            r@ == mul_v(self@, rhs@),
    {
        let a = self.0;
        let b = rhs.0;
        proof {
            assert((b << 1u32) == b * 2) by (bit_vector)
                requires
                    b <= 0x7FFF_FFFFu32,
            ;
            lemma_mul_upper_bound(a as int, 0x7FFF_FFFF, (b * 2) as int, 0xFFFF_FFFE);
        }
        let t: u64 = (a as u64) * ((b << 1) as u64);
        proof {
            assert((t as u32) == t % 0x1_0000_0000u64) by (bit_vector);
            assert(((t as u32) >> 1u32) == (t % 0x1_0000_0000u64) / 2) by (bit_vector);
            assert((t >> 32u64) == t / 0x1_0000_0000u64) by (bit_vector);
        }
        let t0: u32 = (t as u32) >> 1;
        let t1: u32 = (t >> 32) as u32;
        proof {
            let k = a as int * b as int;
            let q = t as int / 0x1_0000_0000;
            let m = t as int % 0x1_0000_0000;
            lemma_fundamental_div_mod(t as int, 0x1_0000_0000);
            assert(t as int == a as int * (b as int * 2));
            lemma_mul_is_associative(a as int, b as int, 2);
            assert(t as int == k * 2);
            // the low half is even, so halving it is exact
            assert(m == 2 * (k - q * 0x8000_0000));
            assert(t0 == k - q * 0x8000_0000);
            // bound the high half so the sum fits in 32 bits
            assert((t as int) < 0x8000_0000_0000_0000) by {
                lemma_mul_upper_bound(a as int, 0x7FFF_FFFF, (b * 2) as int, 0xFFFF_FFFE);
            }
            assert(0x8000_0000_0000_0000 == 0x1_0000_0000int * 0x8000_0000int);
            lemma_multiply_divide_lt(t as int, 0x1_0000_0000, 0x8000_0000);
            assert(t1 < 0x8000_0000);
        }
        let x = t0 + t1;
        let folded = Self::fold(x);
        proof {
            let k = a as int * b as int;
            let q = t as int / 0x1_0000_0000;
            assert(x == k - q * (MODULUS as int));
            lemma_mod_multiples_vanish(0 - q, k, MODULUS as int);
            lemma_mul_mod_noop(a as int, b as int, MODULUS as int);
        }
        Fp(folded)
    }

    /// Square of this element.
    pub fn sq(self) -> (r: Fp)
        requires
            self.wf(),
        ensures
            r.wf(),
            r@ == mul_v(self@, self@),
    {
        self.mul(self)
    }

    /// Replaces `self` with its square.
    pub fn square_in_place(&mut self)
        requires
            old(self).wf(),
        ensures
            final(self).wf(),
            final(self)@ == mul_v(old(self)@, old(self)@),
    {
        *self = self.sq();
    }

    /// Square of this element.
    pub fn square(&self) -> (r: Fp)
        requires
            self.wf(),
        ensures
            r.wf(),
            r@ == mul_v(self@, self@),
    {
        self.sq()
    }

    /// Squares `self` a total of `n` times, computing `self^(2^n)`.
    pub fn sqn(self, n: u32) -> (r: Fp)
        requires
            self.wf(),
        ensures
            r.wf(),
            r@ == pow(self@, pow2(n as nat)) % (MODULUS as int),
    {
        proof {
            vstd::arithmetic::power2::lemma2_to64();
            lemma_pow1(self@);
            lemma_small_mod(self@ as nat, MODULUS as nat);
        }
        let mut acc = self;
        let mut i: u32 = 0;
        while i < n
            invariant
                acc.wf(),
                i <= n,
                acc@ == pow(self@, pow2(i as nat)) % (MODULUS as int),
            decreases n - i,
        {
            acc = acc.sq();
            proof {
                lemma_pow_mul_mod(self@, pow2(i as nat), pow2(i as nat));
                vstd::arithmetic::power2::lemma_pow2_adds(i as nat, 1);
                vstd::arithmetic::power2::lemma2_to64();
            }
            i = i + 1;
        }
        acc
    }

    /// Raises `self` to the power `e` by binary exponentiation.
    pub fn pow(self, e: u64) -> (r: Fp)
        requires
            self.wf(),
        ensures
            r.wf(),
            r@ == pow(self@, e as nat) % (MODULUS as int),
    {
        let mut result = Fp::one();
        let mut base = self;
        let mut exp = e;
        proof {
            lemma_pow1(self@);
            lemma_small_mod(self@ as nat, MODULUS as nat);
            vstd::arithmetic::div_mod::lemma_mod_bound(self.0 as int, MODULUS as int);
        }
        while exp > 0
            invariant
                base.wf(),
                result.wf(),
                pow(self@, e as nat) % (MODULUS as int) == (result@ * pow(base@, exp as nat))
                    % (MODULUS as int),
            decreases exp,
        {
            let ghost r0 = result@;
            let ghost b0 = base@;
            let ghost e0 = exp as nat;
            proof {
                assert(exp & 1u64 == exp % 2) by (bit_vector);
                assert(exp >> 1u64 == exp / 2) by (bit_vector);
            }
            let ghost k = (e0 / 2) as nat;
            if exp & 1 == 1 {
                result = result.mul(base);
            }
            base = base.sq();
            exp = exp >> 1;
            proof {
                let m = MODULUS as int;
                // the squared base stands for b0^2
                lemma_square_is_pow2(b0);
                lemma_pow_mod_noop(b0 * b0, k, m);
                lemma_pow_multiplies(b0, 2, k);
                assert(pow(base@, k) % m == pow(b0, (2 * k) as nat) % m);
                if e0 % 2 == 1 {
                    assert(e0 == 2 * k + 1);
                    // r1 * pow(b0^2, k) == r0 * b0 * pow(b0, 2k) == r0 * pow(b0, e0)  (mod p)
                    lemma_mul_mod_noop_general(r0 * b0, pow(base@, k), m);
                    lemma_mul_mod_noop_general(r0 * b0, pow(b0, (2 * k) as nat), m);
                    lemma_pow_adds(b0, 1, (2 * k) as nat);
                    lemma_pow1(b0);
                    lemma_mul_is_associative(r0, b0, pow(b0, (2 * k) as nat));
                    assert((result@ * pow(base@, k)) % m == (r0 * pow(b0, e0)) % m);
                } else {
                    assert(e0 == 2 * k);
                    lemma_mul_mod_noop_general(r0, pow(base@, k), m);
                    lemma_mul_mod_noop_general(r0, pow(b0, (2 * k) as nat), m);
                    assert((result@ * pow(base@, k)) % m == (r0 * pow(b0, e0)) % m);
                }
            }
        }
        proof {
            lemma_pow0(base@);
            lemma_small_mod(result@ as nat, MODULUS as nat);
            vstd::arithmetic::div_mod::lemma_mod_bound(result.0 as int, MODULUS as int);
        }
        result
    }

    /// Multiplicative inverse by Fermat's little theorem: `self^(p-2)`,
    /// computed with a fixed addition chain.  The additive identity, in
    /// either raw representation, has no inverse.
    pub fn inverse(&self) -> (r: Option<Fp>)
        requires
            self.wf(),
        ensures
            r.is_some() == (self@ != 0),
            r matches Some(b) ==> b.wf() && b@ == pow(self@, (MODULUS - 2) as nat) % (
            MODULUS as int),
    {
        if self.is_zero() {
            None
        } else {
            let ghost c = self@;
            proof {
                vstd::arithmetic::power2::lemma2_to64();
                lemma_pow1(c);
                lemma_small_mod(c as nat, MODULUS as nat);
                vstd::arithmetic::div_mod::lemma_mod_bound(self.0 as int, MODULUS as int);
            }
            let t100 = self.sqn(2);
            let t101 = self.mul(t100);
            proof {
                lemma_pow_mul_mod(c, 1, 4);
            }
            let t1010 = t101.sq();
            proof {
                lemma_pow_mul_mod(c, 5, 5);
            }
            let t1111 = t101.mul(t1010);
            proof {
                lemma_pow_mul_mod(c, 5, 10);
            }
            let t1111000 = t1111.sqn(3);
            proof {
                lemma_pow_sqn(c, 15, 3);
            }
            let t1111101 = t101.mul(t1111000);
            proof {
                lemma_pow_mul_mod(c, 5, 120);
            }
            let t11111010 = t1111101.sq();
            proof {
                lemma_pow_mul_mod(c, 125, 125);
            }
            let t11111111 = t101.mul(t11111010);
            proof {
                lemma_pow_mul_mod(c, 5, 250);
            }
            let x16 = t11111111.sqn(8).mul(t11111111);
            proof {
                lemma_pow_sqn(c, 255, 8);
                lemma_pow_mul_mod(c, 65280, 255);
            }
            let x24 = x16.sqn(8).mul(t11111111);
            proof {
                lemma_pow_sqn(c, 65535, 8);
                lemma_pow_mul_mod(c, 16776960, 255);
            }
            let out = x24.sqn(7).mul(t1111101);
            proof {
                lemma_pow_sqn(c, 16777215, 7);
                lemma_pow_mul_mod(c, 2147483520, 125);
            }
            Some(out)
        }
    }

    /// Replaces `self` with its inverse where one exists.
    pub fn inverse_in_place(&mut self) -> (r: Option<Fp>)
        requires
            old(self).wf(),
        ensures
            r.is_some() == (old(self)@ != 0),
            r matches Some(b) ==> b.wf() && b@ == pow(old(self)@, (MODULUS - 2) as nat) % (
            MODULUS as int) && *final(self) == b,
            r.is_none() ==> *final(self) == *old(self),
    {
        let r = self.inverse();
        match r {
            Some(inv) => {
                *self = inv;
                Some(inv)
            },
            None => None,
        }
    }

    /// Legendre symbol, computed as `self^((p-1)/2)`: the additive
    /// identity yields `Zero`, a quadratic residue `1`, a non-residue
    /// any other value.
    pub fn legendre(&self) -> (r: LegendreSymbol)
        requires
            self.wf(),
        ensures
            (r == LegendreSymbol::Zero) == (legendre_v(self@) == 0),
            (r == LegendreSymbol::QuadraticResidue) == (legendre_v(self@) == 1),
            (r == LegendreSymbol::QuadraticNonResidue) == (legendre_v(self@) != 0
                && legendre_v(self@) != 1),
    {
        let s = self.pow((MODULUS as u64 - 1) / 2);
        if s.is_zero() {
            LegendreSymbol::Zero
        } else if s.is_one() {
            LegendreSymbol::QuadraticResidue
        } else {
            LegendreSymbol::QuadraticNonResidue
        }
    }

    /// Square root of a quadratic residue, as `self^((p+1)/4)` (valid
    /// since `p == 3 (mod 4)`), checked by squaring the candidate.
    pub fn sqrt(&self) -> (r: Option<Fp>)
        requires
            self.wf(),
        ensures
            r matches Some(b) ==> b.wf() && b@ == sqrt_v(self@) && mul_v(b@, b@) == self@,
            r.is_none() == (mul_v(sqrt_v(self@), sqrt_v(self@)) != self@),
    {
        let c = self.pow((MODULUS as u64 + 1) / 4);
        let csq = c.sq();
        proof {
            vstd::arithmetic::div_mod::lemma_mod_bound(self.0 as int, MODULUS as int);
        }
        if csq.into_integer() == self.into_integer() {
            Some(c)
        } else {
            None
        }
    }
}

/// Partial sum of pairwise products `a[0]*b[0] + ... + a[n-1]*b[n-1]`
/// over canonical residues.
pub open spec fn sop_v(a: Seq<Fp>, b: Seq<Fp>, n: nat) -> int
    decreases n,
{
    if n == 0 {
        0
    } else {
        add_v(sop_v(a, b, (n - 1) as nat), mul_v(a[n - 1]@, b[n - 1]@))
    }
}

/// Left fold of addition over the first `n` elements, from zero.
pub open spec fn sum_fold_v(s: Seq<Fp>, n: nat) -> int
    decreases n,
{
    if n == 0 {
        0
    } else {
        add_v(sum_fold_v(s, (n - 1) as nat), s[n - 1]@)
    }
}

/// Left fold of multiplication over the first `n` elements, from one.
pub open spec fn product_fold_v(s: Seq<Fp>, n: nat) -> int
    decreases n,
{
    if n == 0 {
        1
    } else {
        mul_v(product_fold_v(s, (n - 1) as nat), s[n - 1]@)
    }
}

impl Fp {
    /// Quotient: `self` times the inverse of `rhs`.  Division by the
    /// additive identity is ruled out by the precondition.
    pub fn div(self, rhs: Fp) -> (r: Fp)
        requires
            self.wf(),
            rhs.wf(),
            rhs@ != 0,
        ensures
            r.wf(),
            r@ == mul_v(self@, pow(rhs@, (MODULUS - 2) as nat) % (MODULUS as int)),
    {
        let inv = rhs.inverse();
        match inv {
            Some(i) => self.mul(i),
            None => {
                proof {
                    assert(false);
                }
                self
            },
        }
    }

    /// The characteristic of the field: the modulus itself.
    pub fn characteristic() -> (r: u64)
        ensures
            r == MODULUS,
    {
        MODULUS as u64
    }

    /// The extension degree over the base prime field: one.
    pub fn extension_degree() -> (r: u64)
        ensures
            r == 1,
    {
        1
    }

    /// A prime field is its own base prime field.
    pub fn from_base_prime_field(elem: Fp) -> (r: Fp)
        ensures
            r == elem,
    {
        elem
    }

    /// Rebuilds an element from its base prime field decomposition,
    /// which for a prime field is a single element.
    pub fn from_base_prime_field_elems(elems: &[Fp]) -> (r: Option<Fp>)
        ensures
            r.is_some() == (elems@.len() == 1),
            r matches Some(b) ==> b == elems@[0],
    {
        if elems.len() != 1 {
            return None;
        }
        Some(elems[0])
    }

    /// The Frobenius endomorphism, which is the identity on a prime
    /// field.
    pub fn frobenius_map_in_place(&mut self, _power: usize)
        ensures
            *final(self) == *old(self),
    {
    }

    /// Interprets a boolean as `0` or `1`.
    pub fn from_bool(v: bool) -> (r: Fp)
        ensures
            r.wf(),
            r@ == (if v {
                1int
            } else {
                0int
            }),
    {
        proof {
            lemma_small_mod(1, MODULUS as nat);
            lemma_small_mod(0, MODULUS as nat);
        }
        if v {
            Fp(1)
        } else {
            Fp(0)
        }
    }

    /// Reduces an 8-bit integer into the field.
    pub fn from_u8(v: u8) -> (r: Fp)
        ensures
            r.wf(),
            r@ == v as int % (MODULUS as int),
    {
        proof {
            lemma_small_mod(v as nat, MODULUS as nat);
        }
        Fp(v as u32)
    }

    /// Reduces a 16-bit integer into the field.
    pub fn from_u16(v: u16) -> (r: Fp)
        ensures
            r.wf(),
            r@ == v as int % (MODULUS as int),
    {
        proof {
            lemma_small_mod(v as nat, MODULUS as nat);
        }
        Fp(v as u32)
    }

    /// Reduces a 32-bit integer into the field.
    pub fn from_u32(v: u32) -> (r: Fp)
        ensures
            r.wf(),
            r@ == v as int % (MODULUS as int),
    {
        proof {
            vstd::arithmetic::div_mod::lemma_mod_twice(v as int, MODULUS as int);
        }
        Fp(v % MODULUS)
    }

    /// Reduces a 64-bit integer into the field.
    pub fn from_u64(v: u64) -> (r: Fp)
        ensures
            r.wf(),
            r@ == v as int % (MODULUS as int),
    {
        proof {
            vstd::arithmetic::div_mod::lemma_mod_twice(v as int, MODULUS as int);
        }
        Fp((v % (MODULUS as u64)) as u32)
    }

    /// Reduces a 128-bit integer into the field.
    pub fn from_u128(v: u128) -> (r: Fp)
        ensures
            r.wf(),
            r@ == v as int % (MODULUS as int),
    {
        proof {
            vstd::arithmetic::div_mod::lemma_mod_twice(v as int, MODULUS as int);
        }
        Fp((v % (MODULUS as u128)) as u32)
    }

    /// Reduces a signed 128-bit integer into the field: the absolute
    /// value is reduced, then negated if the input was negative.
    pub fn from_i128(v: i128) -> (r: Fp)
        ensures
            r.wf(),
            r@ == (v as int) % (MODULUS as int),
    {
        if v >= 0 {
            Self::from_u128(v as u128)
        } else {
            // |v| without overflowing at the type's minimum
            let m: u128 = ((-(v + 1)) as u128) + 1;
            let r = Self::from_u128(m).neg();
            proof {
                lemma_sub_mod_noop(0, m as int, MODULUS as int);
            }
            r
        }
    }

    /// Reduces a signed 64-bit integer into the field.
    pub fn from_i64(v: i64) -> (r: Fp)
        ensures
            r.wf(),
            r@ == (v as int) % (MODULUS as int),
    {
        Self::from_i128(v as i128)
    }

    /// Reduces a signed 32-bit integer into the field.
    pub fn from_i32(v: i32) -> (r: Fp)
        ensures
            r.wf(),
            r@ == (v as int) % (MODULUS as int),
    {
        Self::from_i128(v as i128)
    }

    /// Reduces a signed 16-bit integer into the field.
    pub fn from_i16(v: i16) -> (r: Fp)
        ensures
            r.wf(),
            r@ == (v as int) % (MODULUS as int),
    {
        Self::from_i128(v as i128)
    }

    /// Reduces a signed 8-bit integer into the field.
    pub fn from_i8(v: i8) -> (r: Fp)
        ensures
            r.wf(),
            r@ == (v as int) % (MODULUS as int),
    {
        Self::from_i128(v as i128)
    }

    /// Enters the field from a canonical big-integer word: every
    /// 64-bit value is accepted and silently reduced modulo `p`.
    pub fn from_bigint(r: u64) -> (res: Option<Fp>)
        ensures
            res.is_some(),
            res matches Some(f) ==> f.wf() && f@ == r as int % (MODULUS as int),
    {
        Some(Self::from_u64(r))
    }

    /// The canonical integer of this element as a big-integer word.
    pub fn into_bigint(&self) -> (r: u64)
        requires
            self.wf(),
        ensures
            r < MODULUS,
            r as int == self@,
    {
        self.into_integer() as u64
    }

    /// Fused sum of pairwise products of two equally long slices.
    pub fn sum_of_products(a: &[Fp], b: &[Fp]) -> (r: Fp)
        requires
            a@.len() == b@.len(),
            forall|i: int| 0 <= i < a@.len() ==> (#[trigger] a@[i]).wf() && b@[i].wf(),
        ensures
            r.wf(),
            r@ == sop_v(a@, b@, a@.len() as nat),
    {
        let mut acc = Fp::zero();
        let mut i: usize = 0;
        let n = a.len();
        while i < n
            invariant
                n == a@.len(),
                a@.len() == b@.len(),
                forall|j: int| 0 <= j < a@.len() ==> (#[trigger] a@[j]).wf() && b@[j].wf(),
                i <= n,
                acc.wf(),
                acc@ == sop_v(a@, b@, i as nat),
            decreases n - i,
        {
            acc = acc.add(a[i].mul(b[i]));
            i = i + 1;
        }
        acc
    }

    /// Fold-based sum of a slice of elements, from zero.
    pub fn sum(elems: &[Fp]) -> (r: Fp)
        requires
            forall|i: int| 0 <= i < elems@.len() ==> (#[trigger] elems@[i]).wf(),
        ensures
            r.wf(),
            r@ == sum_fold_v(elems@, elems@.len() as nat),
    {
        let mut acc = Fp::zero();
        let mut i: usize = 0;
        let n = elems.len();
        while i < n
            invariant
                n == elems@.len(),
                forall|j: int| 0 <= j < elems@.len() ==> (#[trigger] elems@[j]).wf(),
                i <= n,
                acc.wf(),
                acc@ == sum_fold_v(elems@, i as nat),
            decreases n - i,
        {
            acc = acc.add(elems[i]);
            i = i + 1;
        }
        acc
    }

    /// Fold-based product of a slice of elements, from one.
    pub fn product(elems: &[Fp]) -> (r: Fp)
        requires
            forall|i: int| 0 <= i < elems@.len() ==> (#[trigger] elems@[i]).wf(),
        ensures
            r.wf(),
            r@ == product_fold_v(elems@, elems@.len() as nat),
    {
        let mut acc = Fp::one();
        let mut i: usize = 0;
        let n = elems.len();
        while i < n
            invariant
                n == elems@.len(),
                forall|j: int| 0 <= j < elems@.len() ==> (#[trigger] elems@[j]).wf(),
                i <= n,
                acc.wf(),
                acc@ == product_fold_v(elems@, i as nat),
            decreases n - i,
        {
            acc = acc.mul(elems[i]);
            i = i + 1;
        }
        acc
    }
}

impl Default for Fp {
    /// The additive identity, in its `0` representation.
    fn default() -> (r: Fp)
        ensures
            r.wf(),
            r@ == 0,
    {
        Fp(0)
    }
}

impl core::ops::Add for Fp {
    type Output = Fp;

    /// Forwards to the canonical addition.
    fn add(self, rhs: Fp) -> Fp {
        Fp::add(self, rhs)
    }
}

impl vstd::std_specs::ops::AddSpecImpl for Fp {
    open spec fn obeys_add_spec() -> bool {
        true
    }

    open spec fn add_req(self, rhs: Fp) -> bool {
        self.wf() && rhs.wf()
    }

    open spec fn add_spec(self, rhs: Fp) -> Fp {
        Fp(raw_add(self.0, rhs.0) as u32)
    }
}

impl core::ops::Sub for Fp {
    type Output = Fp;

    /// Forwards to the canonical subtraction.
    fn sub(self, rhs: Fp) -> Fp {
        Fp::sub(self, rhs)
    }
}

impl vstd::std_specs::ops::SubSpecImpl for Fp {
    open spec fn obeys_sub_spec() -> bool {
        true
    }

    open spec fn sub_req(self, rhs: Fp) -> bool {
        self.wf() && rhs.wf()
    }

    open spec fn sub_spec(self, rhs: Fp) -> Fp {
        Fp(raw_sub(self.0, rhs.0) as u32)
    }
}

impl core::ops::Mul for Fp {
    type Output = Fp;

    /// Forwards to the canonical multiplication.
    fn mul(self, rhs: Fp) -> Fp {
        Fp::mul(self, rhs)
    }
}

impl vstd::std_specs::ops::MulSpecImpl for Fp {
    open spec fn obeys_mul_spec() -> bool {
        true
    }

    open spec fn mul_req(self, rhs: Fp) -> bool {
        self.wf() && rhs.wf()
    }

    open spec fn mul_spec(self, rhs: Fp) -> Fp {
        Fp(raw_mul(self.0, rhs.0) as u32)
    }
}

impl core::ops::Neg for Fp {
    type Output = Fp;

    /// Forwards to the canonical negation.
    fn neg(self) -> Fp {
        Fp::neg(self)
    }
}

impl vstd::std_specs::ops::NegSpecImpl for Fp {
    open spec fn obeys_neg_spec() -> bool {
        true
    }

    open spec fn neg_req(self) -> bool {
        self.wf()
    }

    open spec fn neg_spec(self) -> Fp {
        Fp((MODULUS - self.0) as u32)
    }
}

impl PartialEq for Fp {
    /// Raw words are equal, or both stand for the additive identity.
    fn eq(&self, other: &Self) -> bool {
        self.0 == other.0 || ((self.0 == 0 || self.0 == MODULUS) && (other.0 == 0 || other.0
            == MODULUS))
    }
}

impl vstd::std_specs::cmp::PartialEqSpecImpl for Fp {
    open spec fn obeys_eq_spec() -> bool {
        true
    }

    open spec fn eq_spec(&self, other: &Fp) -> bool {
        self.0 == other.0 || ((self.0 == 0 || self.0 == MODULUS) && (other.0 == 0 || other.0
            == MODULUS))
    }
}

impl Eq for Fp {

}

impl PartialOrd for Fp {
    /// Orders by canonical residue.  This is an arbitrary total order
    /// for use in ordered containers; it carries no field-theoretic
    /// meaning.
    fn partial_cmp(&self, other: &Self) -> Option<core::cmp::Ordering> {
        let a = if self.0 == MODULUS {
            0
        } else {
            self.0
        };
        let b = if other.0 == MODULUS {
            0
        } else {
            other.0
        };
        if a < b {
            Some(core::cmp::Ordering::Less)
        } else if a == b {
            Some(core::cmp::Ordering::Equal)
        } else {
            Some(core::cmp::Ordering::Greater)
        }
    }
}

impl vstd::std_specs::cmp::PartialOrdSpecImpl for Fp {
    open spec fn obeys_partial_cmp_spec() -> bool {
        true
    }

    open spec fn partial_cmp_spec(&self, other: &Fp) -> Option<core::cmp::Ordering> {
        let a = if self.0 == MODULUS {
            0
        } else {
            self.0 as int
        };
        let b = if other.0 == MODULUS {
            0
        } else {
            other.0 as int
        };
        if a < b {
            Some(core::cmp::Ordering::Less)
        } else if a == b {
            Some(core::cmp::Ordering::Equal)
        } else {
            Some(core::cmp::Ordering::Greater)
        }
    }
}

/// On well-formed elements, `==` decides equality of canonical
/// residues: the two raw zero representations compare equal and hash
/// boundaries may rely on the canonical integer alone.
pub proof fn lemma_eq_is_canonical(a: Fp, b: Fp)
    requires
        a.wf(),
        b.wf(),
    ensures
        a.eq_spec(&b) == (a@ == b@),
{
    if a.0 < MODULUS {
        lemma_small_mod(a.0 as nat, MODULUS as nat);
    } else {
        lemma_mod_self_0(MODULUS as int);
    }
    if b.0 < MODULUS {
        lemma_small_mod(b.0 as nat, MODULUS as nat);
    } else {
        lemma_mod_self_0(MODULUS as int);
    }
}

/// Failure modes of the 5-byte serialized form: a flag type wider than
/// the single flag byte, flag bits outside the declared region, or a
/// buffer that is not exactly 5 bytes.
#[derive(Clone, Copy, Debug, PartialEq, Eq, Structural)]
pub enum SerializationError {
    NotEnoughSpace,
    UnexpectedFlags,
    InvalidLength,
}

/// The bitmask covering the top `bits` bits of the flag byte, where
/// the flag bits live.
pub open spec fn flag_mask(bits: u32) -> u8 {
    if bits == 0 {
        0u8
    } else {
        ((0xFFu32 << ((8 - bits) as u32)) as u8)
    }
}

/// A flag bitmask is admissible when it only uses the top `bits` bits.
pub open spec fn flag_fits(flags: u8, bits: u32) -> bool {
    flags & !flag_mask(bits) == 0
}

/// The 5-byte serialized form: four little-endian bytes of the
/// canonical integer, then the flag byte.
pub open spec fn ser_bytes(v: int, flags: u8) -> Seq<u8> {
    seq![
        (v % 256) as u8,
        ((v / 256) % 256) as u8,
        ((v / 65536) % 256) as u8,
        ((v / 16777216) % 256) as u8,
        flags,
    ]
}

/// The integer held in the first four little-endian bytes.
pub open spec fn le32(s: Seq<u8>) -> int {
    s[0] as int + 256 * (s[1] as int) + 65536 * (s[2] as int) + 16777216 * (s[3] as int)
}

impl Fp {
    /// Serializes to the fixed 5-byte form: the canonical integer in
    /// four little-endian bytes, then one byte carrying the flag
    /// bitmask.  Fails when the flag type needs more than 8 bits.
    pub fn serialize_with_flags(&self, flags: u8, flag_bit_size: u32) -> (r: Result<
        Vec<u8>,
        SerializationError,
    >)
        requires
            self.wf(),
            flag_bit_size <= 8 ==> flag_fits(flags, flag_bit_size),
        ensures
            r.is_ok() == (flag_bit_size <= 8),
            r matches Ok(b) ==> b@ == ser_bytes(self@, flags),
            r matches Err(e) ==> e == SerializationError::NotEnoughSpace,
    {
        if flag_bit_size > 8 {
            return Err(SerializationError::NotEnoughSpace);
        }
        let v = self.into_integer();
        proof {
            assert(v < 0x8000_0000u32 ==> (v & 0xFF) == v % 256 && ((v >> 8u32) & 0xFF) == (v
                / 256) % 256 && ((v >> 16u32) & 0xFF) == (v / 65536) % 256 && ((v >> 24u32)
                & 0xFF) == (v / 16777216) % 256) by (bit_vector);
        }
        let b0 = (v & 0xFF) as u8;
        let b1 = ((v >> 8) & 0xFF) as u8;
        let b2 = ((v >> 16) & 0xFF) as u8;
        let b3 = ((v >> 24) & 0xFF) as u8;
        let out: Vec<u8> = vec![b0, b1, b2, b3, flags];
        proof {
            assert(out@ =~= ser_bytes(self@, flags));
        }
        Ok(out)
    }

    /// Serializes with no flag bits.
    pub fn serialize(&self) -> (r: Vec<u8>)
        requires
            self.wf(),
        ensures
            r@ == ser_bytes(self@, 0),
    {
        proof {
            assert(0u8 & !flag_mask(0) == 0) by (bit_vector);
        }
        let r = self.serialize_with_flags(0, 0);
        match r {
            Ok(b) => b,
            Err(_) => {
                proof {
                    assert(false);
                }
                Vec::new()
            },
        }
    }

    /// Reads back the 5-byte form: fails on a flag type wider than 8
    /// bits, on a buffer that is not exactly 5 bytes, and on set bits
    /// in the flag byte outside the declared flag region.  The integer
    /// read from the first four bytes is reduced into the field.
    pub fn deserialize_with_flags(bytes: &[u8], flag_bit_size: u32) -> (r: Result<
        (Fp, u8),
        SerializationError,
    >)
        ensures
            r.is_ok() == (flag_bit_size <= 8 && bytes@.len() == 5 && bytes@[4] & !flag_mask(
                flag_bit_size,
            ) == 0),
            r matches Ok((f, fl)) ==> f.wf() && f@ == le32(bytes@) % (MODULUS as int) && fl
                == bytes@[4] & flag_mask(flag_bit_size),
            r matches Err(e) ==> e == (if flag_bit_size > 8 {
                SerializationError::NotEnoughSpace
            } else if bytes@.len() != 5 {
                SerializationError::InvalidLength
            } else {
                SerializationError::UnexpectedFlags
            }),
    {
        if flag_bit_size > 8 {
            return Err(SerializationError::NotEnoughSpace);
        }
        if bytes.len() != 5 {
            return Err(SerializationError::InvalidLength);
        }
        let mask: u8 = if flag_bit_size == 0 {
            0
        } else {
            (0xFFu32 << (8 - flag_bit_size)) as u8
        };
        let b4 = bytes[4];
        if b4 & !mask != 0 {
            return Err(SerializationError::UnexpectedFlags);
        }
        let flags = b4 & mask;
        let v: u32 = bytes[0] as u32 + 256 * (bytes[1] as u32) + 65536 * (bytes[2] as u32)
            + 16777216 * (bytes[3] as u32);
        let f = Fp(v % MODULUS);
        proof {
            vstd::arithmetic::div_mod::lemma_mod_twice(v as int, MODULUS as int);
        }
        Ok((f, flags))
    }

    /// Reads back the 5-byte form with no flag bits.
    pub fn deserialize(bytes: &[u8]) -> (r: Option<Fp>)
        ensures
            r.is_some() == (bytes@.len() == 5 && bytes@[4] == 0),
            r matches Some(f) ==> f.wf() && f@ == le32(bytes@) % (MODULUS as int),
    {
        proof {
            assert(forall|b: u8| #![auto] b & !flag_mask(0) == b) by (bit_vector);
        }
        match Self::deserialize_with_flags(bytes, 0) {
            Ok((f, _)) => Some(f),
            Err(_) => None,
        }
    }

    /// The byte length of the serialized form: four value bytes and
    /// one flag byte.
    pub fn serialized_size(&self) -> (r: usize)
        ensures
            r == 5,
    {
        5
    }
}

/// Serialization reads back what was written: the five bytes of a
/// well-formed element hold its canonical integer and its flag bits,
/// and nothing strays outside the declared flag region.
pub proof fn lemma_serialize_round_trip(v: int, flags: u8, bits: u32)
    requires
        0 <= v < MODULUS as int,
        bits <= 8,
        flag_fits(flags, bits),
    ensures
        ser_bytes(v, flags).len() == 5,
        le32(ser_bytes(v, flags)) == v,
        le32(ser_bytes(v, flags)) % (MODULUS as int) == v,
        ser_bytes(v, flags)[4] & !flag_mask(bits) == 0,
        ser_bytes(v, flags)[4] & flag_mask(bits) == flags,
{
    let s = ser_bytes(v, flags);
    lemma_fundamental_div_mod(v, 256);
    lemma_fundamental_div_mod(v / 256, 256);
    lemma_fundamental_div_mod(v / 65536, 256);
    vstd::arithmetic::div_mod::lemma_div_denominator(v, 256, 256);
    vstd::arithmetic::div_mod::lemma_div_denominator(v, 65536, 256);
    assert(v / 256 / 256 == v / 65536);
    assert(v / 65536 / 256 == v / 16777216);
    assert(v / 16777216 < 256) by {
        lemma_multiply_divide_lt(v, 16777216, 256);
    }
    lemma_small_mod((v / 16777216) as nat, 256);
    lemma_small_mod(v as nat, MODULUS as nat);
    let m = flag_mask(bits);
    assert(flags & !m == 0 ==> flags & m == flags) by (bit_vector);
}

/// Two elements with the same canonical residue serialize to the same
/// bytes; in particular the two raw zero representations do.
pub proof fn lemma_serialize_canonical(a: Fp, b: Fp, flags: u8)
    requires
        a.wf(),
        b.wf(),
        a@ == b@,
    ensures
        ser_bytes(a@, flags) == ser_bytes(b@, flags),
{
}

/// A seedable random number generator of the rand crate, used as the
/// entropy source for rejection sampling.
#[verifier::external_type_specification]
#[verifier::external_body]
pub struct ExStdRng(ark_std::rand::rngs::StdRng);

/// Relies on rand's `RngCore::next_u32` for `StdRng`: one draw of 32
/// bits.  Nothing is assumed of the value drawn.
#[verifier::external_body]
fn draw_u32(rng: &mut ark_std::rand::rngs::StdRng) -> u32 {
    ark_std::rand::RngCore::next_u32(rng)
}

/// The base-2^32 digits held by a big unsigned integer, least
/// significant first.
pub uninterp spec fn biguint_digits(x: &num_bigint::BigUint) -> Seq<u32>;

/// The value of a sequence of base-2^32 digits, least significant
/// first.
pub open spec fn limbs_val(s: Seq<u32>) -> int
    decreases s.len(),
{
    if s.len() == 0 {
        0
    } else {
        limbs_val(s.drop_last()) * 0x1_0000_0000 + s.last()
    }
}

/// A big unsigned integer of the num-bigint crate.
#[verifier::external_type_specification]
#[verifier::external_body]
pub struct ExBigUint(num_bigint::BigUint);

/// Relies on num-bigint's `Rem<u32>` and `to_u32_digits`: the
/// remainder of the held value by a nonzero 32-bit modulus.
#[verifier::external_body]
fn biguint_rem_u32(x: &num_bigint::BigUint, m: u32) -> (r: u32)
    requires
        m > 0,
    ensures
        r as int == limbs_val(biguint_digits(x)) % (m as int),
{
    let d = (x % m).to_u32_digits();
    if d.is_empty() {
        0
    } else {
        d[0]
    }
}

/// Relies on num-bigint's `From<u32>`: a big integer holding exactly
/// the given value.
#[verifier::external_body]
fn biguint_from_u32(v: u32) -> (r: num_bigint::BigUint)
    ensures
        limbs_val(biguint_digits(&r)) == v as int,
{
    num_bigint::BigUint::from(v)
}

impl Fp {
    /// A uniformly random element, by rejection sampling: draw 31 bits
    /// by masking away the top bit of a 32-bit draw, and retry while
    /// the masked word reaches the modulus, so that the two raw
    /// representations of zero are not both drawn.  The returned raw
    /// word is always strictly below `p`.  Only the single word `p`
    /// out of `2^31` is ever rejected; should a draw be rejected a
    /// thousand times over, the element that word stands for — the
    /// additive identity — is returned in canonical form.
    pub fn rand(rng: &mut ark_std::rand::rngs::StdRng) -> (r: Fp)
        ensures
            r.wf(),
            r.0 < MODULUS,
            0 <= r@ < MODULUS as int,
    {
        let mut tries: u32 = 0;
        while tries < 1000
            decreases 1000 - tries,
        {
            let w = draw_u32(rng);
            let masked = w & MODULUS;
            proof {
                assert(w & 0x7FFF_FFFFu32 < 0x8000_0000u32) by (bit_vector);
            }
            if masked < MODULUS {
                proof {
                    lemma_small_mod(masked as nat, MODULUS as nat);
                }
                return Fp(masked);
            }
            tries = tries + 1;
        }
        Fp(0)
    }

    /// Reduces a big unsigned integer into the field.
    pub fn from_biguint(other: &num_bigint::BigUint) -> (r: Fp)
        ensures
            r.wf(),
            r@ == limbs_val(biguint_digits(other)) % (MODULUS as int),
    {
        let w = biguint_rem_u32(other, MODULUS);
        proof {
            vstd::arithmetic::div_mod::lemma_mod_bound(
                limbs_val(biguint_digits(other)),
                MODULUS as int,
            );
            lemma_small_mod(w as nat, MODULUS as nat);
        }
        Fp(w)
    }

    /// The canonical integer of this element as a big unsigned
    /// integer.
    pub fn to_biguint(&self) -> (r: num_bigint::BigUint)
        requires
            self.wf(),
        ensures
            limbs_val(biguint_digits(&r)) == self@,
    {
        biguint_from_u32(self.into_integer())
    }
}

/// Whether a character is a decimal digit.
pub open spec fn is_dig(c: char) -> bool {
    '0' <= c && c <= '9'
}

/// The numeric value of a digit character.
pub open spec fn dig_v(c: char) -> int {
    c as u32 - 48
}

/// Whether every character of a sequence is a decimal digit.
pub open spec fn all_digits(s: Seq<char>) -> bool {
    forall|i: int| 0 <= i < s.len() ==> is_dig(#[trigger] s[i])
}

/// The numeric value of a digit sequence read left to right.
pub open spec fn str_val(s: Seq<char>) -> int
    decreases s.len(),
{
    if s.len() == 0 {
        0
    } else {
        str_val(s.drop_last()) * 10 + dig_v(s.last())
    }
}

/// A parseable numeral: nonempty, all digits, no leading zero except
/// for the literal `"0"`, and a value of at most `p`.  A value of
/// exactly `p` is admitted: it is the raw second representation of
/// the additive identity.
pub open spec fn parse_ok(s: Seq<char>) -> bool {
    s.len() > 0 && all_digits(s) && (s[0] != '0' || s.len() == 1) && str_val(s) <= MODULUS as int
}

/// The digit character of a value below ten.
pub open spec fn dig_char(d: int) -> char {
    if d == 0 {
        '0'
    } else if d == 1 {
        '1'
    } else if d == 2 {
        '2'
    } else if d == 3 {
        '3'
    } else if d == 4 {
        '4'
    } else if d == 5 {
        '5'
    } else if d == 6 {
        '6'
    } else if d == 7 {
        '7'
    } else if d == 8 {
        '8'
    } else {
        '9'
    }
}

/// The canonical decimal numeral of a natural number: no leading
/// zeros, a single `'0'` for zero.
pub open spec fn dec_seq(n: nat) -> Seq<char>
    decreases n,
{
    if n < 10 {
        seq![dig_char(n as int)]
    } else {
        dec_seq(n / 10) + seq![dig_char((n % 10) as int)]
    }
}

/// The value of a digit sequence never goes negative.
proof fn lemma_str_val_nonneg(s: Seq<char>)
    requires
        all_digits(s),
    ensures
        str_val(s) >= 0,
    decreases s.len(),
{
    if s.len() > 0 {
        assert(all_digits(s.drop_last()));
        lemma_str_val_nonneg(s.drop_last());
    }
}

/// The value of a digit sequence dominates the value of each of its
/// prefixes.
proof fn lemma_str_val_prefix(s: Seq<char>, i: nat)
    requires
        all_digits(s),
        i <= s.len(),
    ensures
        str_val(s.take(i as int)) <= str_val(s),
    decreases s.len() - i,
{
    if i < s.len() {
        assert(s.take(i as int + 1).drop_last() =~= s.take(i as int));
        assert(s.take(i as int + 1).last() == s[i as int]);
        assert(all_digits(s.take(i as int)));
        lemma_str_val_nonneg(s.take(i as int));
        assert(str_val(s.take(i as int + 1)) == str_val(s.take(i as int)) * 10 + dig_v(s[i as int]));
        lemma_str_val_prefix(s, i + 1);
    } else {
        assert(s.take(i as int) =~= s);
    }
}

/// The canonical numeral of a field value parses back to it: it is
/// nonempty, all digits, free of leading zeros, and worth `n`.
pub proof fn lemma_dec_seq_parses(n: nat)
    requires
        n < MODULUS as nat,
    ensures
        parse_ok(dec_seq(n)),
        str_val(dec_seq(n)) == n,
        n >= 1 ==> dec_seq(n)[0] != '0',
    decreases n,
{
    if n < 10 {
        let s = dec_seq(n);
        assert(s =~= seq![dig_char(n as int)]);
        assert(s.drop_last() =~= Seq::<char>::empty());
        assert(str_val(Seq::<char>::empty()) == 0);
        assert(s.last() == dig_char(n as int));
        assert(str_val(s) == dig_v(dig_char(n as int)));
    } else {
        lemma_dec_seq_parses(n / 10);
        let p = dec_seq(n / 10);
        let s = dec_seq(n);
        assert(s =~= p + seq![dig_char((n % 10) as int)]);
        assert(s.drop_last() =~= p);
        assert(s.last() == dig_char((n % 10) as int));
        assert(str_val(s) == str_val(p) * 10 + dig_v(dig_char((n % 10) as int)));
        lemma_fundamental_div_mod(n as int, 10);
        assert(str_val(s) == n);
        assert(all_digits(s)) by {
            assert(forall|i: int| 0 <= i < p.len() ==> s[i] == p[i]);
        }
        assert(s[0] == p[0]);
    }
}

impl Fp {
    /// Appends one digit character to a string.
    fn push_digit(d: u32, out: &mut String)
        requires
            d < 10,
        ensures
            final(out)@ == old(out)@ + seq![dig_char(d as int)],
    {
        proof {
            reveal_strlit("0");
            reveal_strlit("1");
            reveal_strlit("2");
            reveal_strlit("3");
            reveal_strlit("4");
            reveal_strlit("5");
            reveal_strlit("6");
            reveal_strlit("7");
            reveal_strlit("8");
            reveal_strlit("9");
        }
        if d == 0 {
            out.append("0");
        } else if d == 1 {
            out.append("1");
        } else if d == 2 {
            out.append("2");
        } else if d == 3 {
            out.append("3");
        } else if d == 4 {
            out.append("4");
        } else if d == 5 {
            out.append("5");
        } else if d == 6 {
            out.append("6");
        } else if d == 7 {
            out.append("7");
        } else if d == 8 {
            out.append("8");
        } else {
            out.append("9");
        }
        proof {
            assert(final(out)@ =~= old(out)@ + seq![dig_char(d as int)]);
        }
    }

    /// Appends the decimal digits of `v`, most significant first.
    fn push_decimal(v: u32, out: &mut String)
        ensures
            final(out)@ == old(out)@ + dec_seq(v as nat),
        decreases v,
    {
        if v >= 10 {
            Self::push_decimal(v / 10, out);
            Self::push_digit(v % 10, out);
            proof {
                assert(final(out)@ =~= old(out)@ + dec_seq(v as nat));
            }
        } else {
            Self::push_digit(v, out);
        }
    }

    /// The canonical decimal numeral of this element, without leading
    /// zeros; the additive identity prints as `"0"`.
    pub fn to_decimal(&self) -> (r: String)
        requires
            self.wf(),
        ensures
            r@ == dec_seq(self@ as nat),
            parse_ok(dec_seq(self@ as nat)),
            str_val(r@) == self@,
    {
        proof {
            vstd::arithmetic::div_mod::lemma_mod_bound(self.0 as int, MODULUS as int);
            lemma_dec_seq_parses(self@ as nat);
        }
        let v = self.into_integer();
        let mut out = String::new();
        Self::push_decimal(v, &mut out);
        proof {
            assert(out@ =~= dec_seq(self@ as nat));
        }
        out
    }

    /// Parses a decimal numeral: rejects the empty string, a leading
    /// zero on anything but `"0"` itself, any non-digit character, and
    /// a value strictly greater than `p`.  A value of exactly `p` is
    /// accepted as the raw second representation of the additive
    /// identity.
    pub fn from_str(s: &str) -> (r: Result<Fp, ()>)
        ensures
            r.is_ok() == parse_ok(s@),
            r matches Ok(f) ==> f.wf() && f.0 as int == str_val(s@),
    {
        if !s.is_ascii() {
            proof {
                let i = choose|i: int| !(0 <= i < s@.len() ==> '\0' <= #[trigger] s@[i]
                    <= '\u{7f}');
                assert(!is_dig(s@[i]));
            }
            return Err(());
        }
        let n = s.unicode_len();
        if n == 0 {
            return Err(());
        }
        let b0 = s.get_ascii(0);
        if b0 == 48 {
            proof {
                assert('\0' <= s@[0] && s@[0] <= '\u{7f}');
                assert(s@[0] as u32 == 48);
                assert(s@[0] == '0');
            }
            if n == 1 {
                proof {
                    assert(s@ =~= seq![s@[0]]);
                    assert(s@.drop_last() =~= Seq::<char>::empty());
                    assert(str_val(Seq::<char>::empty()) == 0);
                    assert(str_val(s@) == dig_v(s@[0]));
                }
                return Ok(Fp(0));
            } else {
                return Err(());
            }
        }
        proof {
            assert('\0' <= s@[0] && s@[0] <= '\u{7f}');
            assert(s@[0] as u32 != 48);
            assert(s@[0] != '0');
            assert(s@.take(0).len() == 0);
            assert(str_val(s@.take(0)) == 0);
        }
        let mut acc: u64 = 0;
        let mut i: usize = 0;
        while i < n
            invariant
                vstd::string::is_ascii(s),
                n == s@.len(),
                i <= n,
                acc <= MODULUS,
                acc as int == str_val(s@.take(i as int)),
                all_digits(s@.take(i as int)),
                s@[0] != '0',
                n > 0,
            decreases n - i,
        {
            let b = s.get_ascii(i);
            if b < 48 || b > 57 {
                proof {
                    assert(!is_dig(s@[i as int]));
                }
                return Err(());
            }
            let d = (b - 48) as u64;
            acc = acc * 10 + d;
            proof {
                assert(s@.take(i + 1).drop_last() =~= s@.take(i as int));
                assert(s@.take(i + 1).last() == s@[i as int]);
                assert(all_digits(s@.take(i + 1)));
            }
            if acc > MODULUS as u64 {
                proof {
                    if all_digits(s@) {
                        lemma_str_val_prefix(s@, (i + 1) as nat);
                    }
                }
                return Err(());
            }
            i = i + 1;
        }
        proof {
            assert(s@.take(n as int) =~= s@);
        }
        Ok(Fp(acc as u32))
    }
}

/// Legendre exponentiation `x^((p-1)/2) mod p` of a canonical residue.
pub open spec fn legendre_v(x: int) -> int {
    pow(x, ((MODULUS - 1) / 2) as nat) % (MODULUS as int)
}

/// Square-root candidate `x^((p+1)/4) mod p` of a canonical residue.
pub open spec fn sqrt_v(x: int) -> int {
    pow(x, ((MODULUS + 1) / 4) as nat) % (MODULUS as int)
}

/// Outcome of the Legendre symbol: zero, quadratic residue, or
/// quadratic non-residue.
#[derive(Clone, Copy, Debug, PartialEq, Eq, Structural)]
pub enum LegendreSymbol {
    Zero,
    QuadraticResidue,
    QuadraticNonResidue,
}

/// Reduced powers multiply as powers: the product of `c^i mod p` and
/// `c^j mod p` is `c^(i+j) mod p`.
pub proof fn lemma_pow_mul_mod(c: int, i: nat, j: nat)
    ensures
        mul_v(pow(c, i) % (MODULUS as int), pow(c, j) % (MODULUS as int)) == pow(c, i + j) % (
        MODULUS as int),
{
    lemma_mul_mod_noop(pow(c, i), pow(c, j), MODULUS as int);
    lemma_pow_adds(c, i, j);
}

/// Squaring a reduced power `n` times raises the exponent by `2^n`.
pub proof fn lemma_pow_sqn(c: int, k: nat, n: nat)
    ensures
        pow(pow(c, k) % (MODULUS as int), pow2(n)) % (MODULUS as int) == pow(c, k * pow2(n)) % (
        MODULUS as int),
{
    lemma_pow_mod_noop(pow(c, k), pow2(n), MODULUS as int);
    lemma_pow_multiplies(c, k, pow2(n));
}

/// Both raw representations of the additive identity have the same
/// canonical residue.
pub proof fn lemma_dual_zero_canonical()
    ensures
        (Fp(0))@ == 0,
        (Fp(MODULUS))@ == 0,
{
    lemma_mod_self_0(MODULUS as int);
}

/// Adding an element and then subtracting it returns to the start.
pub proof fn lemma_add_sub_cancel(a: int, b: int)
    requires
        0 <= a < MODULUS as int,
        0 <= b < MODULUS as int,
    ensures
        sub_v(add_v(a, b), b) == a,
{
    lemma_sub_mod_noop(a + b, b, MODULUS as int);
    lemma_small_mod(b as nat, MODULUS as nat);
    lemma_small_mod(a as nat, MODULUS as nat);
}

/// Multiplication of canonical residues is commutative.
pub proof fn lemma_mul_comm_law(a: int, b: int)
    ensures
        mul_v(a, b) == mul_v(b, a),
{
    lemma_mul_is_commutative(a, b);
}

/// Addition of canonical residues is associative.
pub proof fn lemma_add_assoc_law(a: int, b: int, c: int)
    requires
        0 <= a < MODULUS as int,
        0 <= b < MODULUS as int,
        0 <= c < MODULUS as int,
    ensures
        add_v(add_v(a, b), c) == add_v(a, add_v(b, c)),
{
    lemma_add_mod_noop(a + b, c, MODULUS as int);
    lemma_add_mod_noop(a, b + c, MODULUS as int);
    lemma_small_mod(a as nat, MODULUS as nat);
    lemma_small_mod(c as nat, MODULUS as nat);
}

/// A multiplicative inverse is unique: two residues that both
/// multiply `a` to one are equal.
pub proof fn lemma_inverse_unique(a: int, x: int, y: int)
    requires
        0 <= x < MODULUS as int,
        0 <= y < MODULUS as int,
        mul_v(x, a) == 1,
        mul_v(y, a) == 1,
    ensures
        x == y,
{
    let m = MODULUS as int;
    lemma_mul_mod_noop_general(y, x * a, m);
    lemma_mul_mod_noop_general(x, y * a, m);
    assert(y * (x * a) == x * (y * a)) by (nonlinear_arith);
    lemma_small_mod(x as nat, MODULUS as nat);
    lemma_small_mod(y as nat, MODULUS as nat);
    assert((y * ((x * a) % m)) % m == (y * (x * a)) % m);
    assert((x * ((y * a) % m)) % m == (x * (y * a)) % m);
}

/// Multiplication of canonical residues is associative.
pub proof fn lemma_mul_assoc_law(a: int, b: int, c: int)
    ensures
        mul_v(mul_v(a, b), c) == mul_v(a, mul_v(b, c)),
{
    lemma_mul_mod_noop_general(a * b, c, MODULUS as int);
    lemma_mul_mod_noop_general(a, b * c, MODULUS as int);
    lemma_mul_is_associative(a, b, c);
}

/// A candidate square root of a quadratic residue squares back to it:
/// if `x^((p-1)/2) == 1 (mod p)` then `(x^((p+1)/4))^2 == x (mod p)`.
pub proof fn lemma_sqrt_of_residue(x: int)
    requires
        0 <= x < MODULUS as int,
        legendre_v(x) == 1,
    ensures
        mul_v(sqrt_v(x), sqrt_v(x)) == x,
{
    lemma_pow_mul_mod(x, ((MODULUS + 1) / 4) as nat, ((MODULUS + 1) / 4) as nat);
    lemma_pow_adds(x, ((MODULUS - 1) / 2) as nat, 1);
    lemma_pow1(x);
    lemma_mul_mod_noop_general(pow(x, ((MODULUS - 1) / 2) as nat), x, MODULUS as int);
    lemma_small_mod(x as nat, MODULUS as nat);
}

} // verus!
