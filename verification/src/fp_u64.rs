//! A field with the modulus `p = 2^64 - 2^32 + 1`, backed by one
//! unsigned 64-bit word held in Montgomery form: a word `v` stands for
//! the residue `v * 2^-64 mod p`.  The special shape of the modulus
//! gives a Montgomery reduction out of shifts, masks and carries alone.

use vstd::prelude::*;

verus! {

use vstd::arithmetic::div_mod::{
    lemma_fundamental_div_mod,
    lemma_mod_multiples_vanish,
    lemma_add_mod_noop,
    lemma_sub_mod_noop,
    lemma_mul_mod_noop,
    lemma_mul_mod_noop_general,
    lemma_small_mod,
    lemma_mod_bound,
    lemma_multiply_divide_lt,
};
use vstd::arithmetic::mul::{
    lemma_mul_upper_bound,
    lemma_mul_is_associative,
    lemma_mul_is_commutative,
    lemma_mul_is_distributive_add,
};
use vstd::arithmetic::power::{
    pow,
    lemma_pow_adds,
    lemma_pow_multiplies,
    lemma_pow_mod_noop,
    lemma_pow0,
    lemma_pow1,
};
use vstd::arithmetic::power2::pow2;

/// Field modulus `p = 2^64 - 2^32 + 1`.
pub const MODULUS: u64 = 18446744069414584321;

/// `R^2 mod p` for the Montgomery radix `R = 2^64`, used to enter the
/// Montgomery domain.  Because `2^96 == -1 (mod p)`, the radix
/// satisfies `R^3 == 1 (mod p)`, so this same constant also equals
/// `R^-1 mod p` and converts a Montgomery word back to its residue.
pub const R2: u64 = 18446744065119617025;

/// Canonical residue of a Montgomery word: `v * R^-1 mod p`, written
/// through `R2 == R^-1 (mod p)`.
pub open spec fn val64(v: u64) -> int {
    (v as int * R2 as int) % (MODULUS as int)
}

/// Sum of two canonical residues.
pub open spec fn add_v(x: int, y: int) -> int {
    (x + y) % (MODULUS as int)
}

/// Difference of two canonical residues.
pub open spec fn sub_v(x: int, y: int) -> int {
    (x - y) % (MODULUS as int)
}

/// Product of two canonical residues.
pub open spec fn mul_v(x: int, y: int) -> int {
    (x * y) % (MODULUS as int)
}

/// A Montgomery-domain field element.
#[derive(Clone, Copy, Debug, PartialEq, Eq, Structural)]
pub struct Fp(pub u64);

impl View for Fp {
    type V = int;

    /// The canonical residue in `[0, p - 1]` that this element stands for.
    open spec fn view(&self) -> int {
        val64(self.0)
    }
}

impl Fp {
    /// The raw word stays strictly below the modulus.
    pub open spec fn wf(self) -> bool {
        self.0 < MODULUS
    }
}

/// The radix and its inverse cancel: `R * R2 == 1 (mod p)`.
proof fn lemma_r_r2()
    ensures
        (0x1_0000_0000_0000_0000 * (R2 as int)) % (MODULUS as int) == 1,
{
    assert((0x1_0000_0000_0000_0000u128 * 18446744065119617025u128) % 18446744069414584321
        == 1) by (bit_vector);
}

/// Multiplying two sides of a congruence by the same factor keeps it.
proof fn lemma_mod_mul_cong(x: int, y: int, z: int, m: int)
    requires
        m > 0,
        x % m == y % m,
    ensures
        (x * z) % m == (y * z) % m,
{
    lemma_mul_mod_noop_general(x, z, m);
    lemma_mul_mod_noop_general(y, z, m);
}

/// A factor of `R * R2` drops out of a product modulo `p`.
proof fn lemma_drop_r_r2(t: int)
    ensures
        (t * (0x1_0000_0000_0000_0000 * (R2 as int))) % (MODULUS as int) == t % (MODULUS as int),
{
    let m = MODULUS as int;
    let rr2 = 0x1_0000_0000_0000_0000 * (R2 as int);
    lemma_r_r2();
    lemma_mul_mod_noop_general(t, rr2, m);
    assert((t * (rr2 % m)) % m == (t * rr2) % m);
    assert(t * 1 == t);
}

/// From `r * R == v (mod p)` and `r < p`, the word `r` is exactly the
/// residue `v * R^-1 mod p`.
proof fn lemma_mont_word(r: u64, v: int)
    requires
        r < MODULUS,
        (r as int * 0x1_0000_0000_0000_0000) % (MODULUS as int) == v % (MODULUS as int),
    ensures
        r as int == (v * (R2 as int)) % (MODULUS as int),
{
    let m = MODULUS as int;
    let rr: int = 0x1_0000_0000_0000_0000;
    lemma_mod_mul_cong(r as int * rr, v, R2 as int, m);
    lemma_mul_is_associative(r as int, rr, R2 as int);
    lemma_drop_r_r2(r as int);
    assert((r as int * rr * (R2 as int)) % m == (r as int * (rr * (R2 as int))) % m);
    lemma_small_mod(r as nat, MODULUS as nat);
}

/// If a word times `R` is congruent to a product of two words, its
/// residue is the product of their residues.
proof fn lemma_mont_mul_val(a: u64, b: u64, r: u64)
    requires
        r < MODULUS,
        (r as int * 0x1_0000_0000_0000_0000) % (MODULUS as int) == (a as int * b as int) % (
        MODULUS as int),
    ensures
        val64(r) == (val64(a) * val64(b)) % (MODULUS as int),
{
    let m = MODULUS as int;
    let r2 = R2 as int;
    let ai = a as int;
    let bi = b as int;
    lemma_mont_word(r, ai * bi);
    // r == (a*b*R2) % m; multiply the congruence a*b*R2 == r by R2 once more
    lemma_mul_mod_noop_general(ai * bi, r2, m);
    // val64(r) == (((a*b*R2) % m) * R2) % m == (a*b*R2*R2) % m
    lemma_mul_mod_noop_general(ai * bi * r2, r2, m);
    // regroup a*b*R2*R2 as (a*R2)*(b*R2)
    assert(ai * bi * r2 * r2 == (ai * r2) * (bi * r2)) by (nonlinear_arith);
    // and reduce each factor
    lemma_mul_mod_noop(ai * r2, bi * r2, m);
}

/// A congruence `r == x + y (mod p)` on raw words gives the sum of the
/// residues.
proof fn lemma_mont_add_val(x: u64, y: u64, r: u64)
    requires
        (r as int) % (MODULUS as int) == (x as int + y as int) % (MODULUS as int),
    ensures
        val64(r) == (val64(x) + val64(y)) % (MODULUS as int),
{
    let m = MODULUS as int;
    let r2 = R2 as int;
    lemma_mod_mul_cong(r as int, x as int + y as int, r2, m);
    lemma_mul_is_distributive_add((x as int + y as int), r2, r2);
    assert((x as int + y as int) * r2 == x as int * r2 + y as int * r2) by (nonlinear_arith);
    lemma_add_mod_noop(x as int * r2, y as int * r2, m);
}

/// A congruence `r == x - y (mod p)` on raw words gives the difference
/// of the residues.
proof fn lemma_mont_sub_val(x: u64, y: u64, r: u64)
    requires
        (r as int) % (MODULUS as int) == (x as int - y as int) % (MODULUS as int),
    ensures
        val64(r) == (val64(x) - val64(y)) % (MODULUS as int),
{
    let m = MODULUS as int;
    let r2 = R2 as int;
    lemma_mod_mul_cong(r as int, x as int - y as int, r2, m);
    assert((x as int - y as int) * r2 == x as int * r2 - y as int * r2) by (nonlinear_arith);
    lemma_sub_mod_noop(x as int * r2, y as int * r2, m);
}

/// Distinct reduced words have distinct residues: the residue map is
/// injective on `[0, p)`.
pub proof fn lemma_val_injective(a: u64, b: u64)
    requires
        a < MODULUS,
        b < MODULUS,
        val64(a) == val64(b),
    ensures
        a == b,
{
    let m = MODULUS as int;
    let rr: int = 0x1_0000_0000_0000_0000;
    lemma_mod_mul_cong(a as int * (R2 as int), b as int * (R2 as int), rr, m);
    lemma_mul_is_associative(a as int, R2 as int, rr);
    lemma_mul_is_associative(b as int, R2 as int, rr);
    lemma_mul_is_commutative(R2 as int, rr);
    lemma_drop_r_r2(a as int);
    lemma_drop_r_r2(b as int);
    lemma_small_mod(a as nat, MODULUS as nat);
    lemma_small_mod(b as nat, MODULUS as nat);
}

/// A reduced word is the additive identity exactly when its residue is.
pub proof fn lemma_val_zero(v: u64)
    requires
        v < MODULUS,
    ensures
        (val64(v) == 0) == (v == 0),
{
    if v == 0 {
        assert(0int * (R2 as int) == 0);
    } else {
        if val64(v) == 0 {
            assert(val64(0) == 0) by {
                assert(0int * (R2 as int) == 0);
            }
            lemma_val_injective(v, 0);
        }
    }
}

/// Montgomery reduction specialized to `p = 2^64 - 2^32 + 1`: maps a
/// double-width value `x < p * 2^64` to the word `x * R^-1 mod p`,
/// using only shifts, adds and carry corrections.
pub fn mont_red(x: u128) -> (r: u64)
    requires
        (x as int) < (MODULUS as int) * 0x1_0000_0000_0000_0000,
    ensures
        r < MODULUS,
        (r as int * 0x1_0000_0000_0000_0000) % (MODULUS as int) == (x as int) % (MODULUS as int),
{
    let xl = x as u64;
    let xh = (x >> 64) as u64;
    proof {
        assert(x as u64 == x % 0x1_0000_0000_0000_0000u128) by (bit_vector);
        assert(x >> 64u128 == x / 0x1_0000_0000_0000_0000u128) by (bit_vector);
        assert((x / 0x1_0000_0000_0000_0000u128) as u64 == x / 0x1_0000_0000_0000_0000u128)
            by (bit_vector);
        lemma_fundamental_div_mod(x as int, 0x1_0000_0000_0000_0000);
    }
    let xls = xl << 32;
    let wide = (xl as u128) + (xls as u128);
    let a = wide as u64;
    let e = (wide >> 64) as u64;
    proof {
        assert((xl << 32u64) == (xl % 0x1_0000_0000u64) * 0x1_0000_0000) by (bit_vector);
        let w = xl as int + xls as int;
        assert(wide as int == w);
        assert(wide as u64 == wide % 0x1_0000_0000_0000_0000u128) by (bit_vector);
        assert(wide >> 64u128 == wide / 0x1_0000_0000_0000_0000u128) by (bit_vector);
        assert((wide / 0x1_0000_0000_0000_0000u128) as u64 == wide
            / 0x1_0000_0000_0000_0000u128) by (bit_vector)
            requires
                wide < 0x2_0000_0000_0000_0000u128,
        ;
        lemma_fundamental_div_mod(w, 0x1_0000_0000_0000_0000);
        // the low 32 bits of `a` are those of `xl`: the sum only added
        // a multiple of 2^32, and truncating at 2^64 keeps residues mod 2^32
        vstd::arithmetic::div_mod::lemma_mod_mod(w, 0x1_0000_0000, 0x1_0000_0000);
        lemma_mod_multiples_vanish(xl as int % 0x1_0000_0000, xl as int, 0x1_0000_0000);
        assert(a as int % 0x1_0000_0000 == xl as int % 0x1_0000_0000);
    }
    let au = a >> 32;
    proof {
        assert(a >> 32u64 == a / 0x1_0000_0000u64) by (bit_vector);
        lemma_fundamental_div_mod(a as int, 0x1_0000_0000);
        let l = a as int % 0x1_0000_0000;
        // no underflow in b = a - au - e
        assert(au as int * 0x1_0000_0000 >= au as int * 1) by (nonlinear_arith)
            requires
                au >= 0,
        ;
        if e == 1 {
            assert(xl as int + (xl as int % 0x1_0000_0000) * 0x1_0000_0000 >=
                0x1_0000_0000_0000_0000);
            assert((xl as int % 0x1_0000_0000) * 0x1_0000_0000 > 0);
            assert(xl as int % 0x1_0000_0000 >= 1) by (nonlinear_arith)
                requires
                    (xl as int % 0x1_0000_0000) * 0x1_0000_0000 > 0,
            ;
        }
    }
    let b = a - au - e;
    proof {
        let m = MODULUS as int;
        let rr: int = 0x1_0000_0000_0000_0000;
        let l = a as int % 0x1_0000_0000;
        let u = au as int;
        // b's closed form, and the key identity  xl + b * R == a * p
        assert(b as int == u * 0x1_0000_0000 + l - u - e);
        assert(xl as int == u * 0x1_0000_0000 + l - l * 0x1_0000_0000 + e as int * rr);
        assert(xl as int + b as int * rr == a as int * m) by (nonlinear_arith)
            requires
                b as int == u * 0x1_0000_0000 + l - u - e as int,
                xl as int == u * 0x1_0000_0000 + l - l * 0x1_0000_0000 + e as int * rr,
                a as int == u * 0x1_0000_0000 + l,
                m == 0x1_0000_0000_0000_0000 - 0x1_0000_0000 + 1,
                rr == 0x1_0000_0000_0000_0000,
        ;
        // bound b <= 2^64 - 2^32
        assert(u * 0x1_0000_0000 <= 0xFFFF_FFFF * 0x1_0000_0000) by (nonlinear_arith)
            requires
                0 <= u <= 0xFFFF_FFFF,
        ;
    }
    let c = xh < b;
    let r0 = xh.wrapping_sub(b);
    let adj: u64 = if c {
        0xFFFF_FFFF
    } else {
        0
    };
    let r = r0.wrapping_sub(adj);
    proof {
        let m = MODULUS as int;
        let rr: int = 0x1_0000_0000_0000_0000;
        let ci: int = if c {
            1
        } else {
            0
        };
        // r == xh - b + c * p exactly
        assert(r as int == xh as int - b as int + ci * m);
        // r * R == x + (c * R - a) * p, so r * R == x (mod p)
        assert(r as int * rr == x as int + (ci * rr - a as int) * m) by (nonlinear_arith)
            requires
                r as int == xh as int - b as int + ci * m,
                xl as int + b as int * rr == a as int * m,
                x as int == (xh as int) * rr + xl as int,
        ;
        lemma_mod_multiples_vanish(ci * rr - a as int, x as int, m);
        lemma_mul_is_commutative(ci * rr - a as int, m);
        // range: with no borrow, xh < p because x < p * R
        if !c {
            lemma_multiply_divide_lt(x as int, rr, m);
        }
    }
    r
}

/// Multiplies two Montgomery words through one reduction.
fn mmul(a: u64, b: u64) -> (r: u64)
    requires
        a < MODULUS,
        b < MODULUS,
    ensures
        r < MODULUS,
        val64(r) == mul_v(val64(a), val64(b)),
{
    proof {
        lemma_mul_upper_bound(a as int, (MODULUS as int) - 1, b as int, (MODULUS as int) - 1);
        assert(((MODULUS as int) - 1) * ((MODULUS as int) - 1) < (MODULUS as int)
            * 0x1_0000_0000_0000_0000) by (nonlinear_arith)
            requires
                0 < (MODULUS as int) < 0x1_0000_0000_0000_0000,
        ;
    }
    let r = mont_red((a as u128) * (b as u128));
    proof {
        lemma_mont_mul_val(a, b, r);
    }
    r
}

/// Enters the Montgomery domain: multiplies a canonical value by `R^2`
/// and reduces, so the returned word stands for `value mod p`.
pub fn into_mont(value: u64) -> (r: Fp)
    ensures
        r.wf(),
        r@ == value as int % (MODULUS as int),
{
    proof {
        lemma_mul_upper_bound(value as int, 0xFFFF_FFFF_FFFF_FFFF, R2 as int, (MODULUS as int) - 1);
        assert(0xFFFF_FFFF_FFFF_FFFFint * ((MODULUS as int) - 1) < (MODULUS as int)
            * 0x1_0000_0000_0000_0000) by (nonlinear_arith)
            requires
                MODULUS == 18446744069414584321u64,
        ;
    }
    let w = mont_red((value as u128) * (R2 as u128));
    proof {
        let m = MODULUS as int;
        let r2 = R2 as int;
        let vi = value as int;
        lemma_mont_word(w, vi * r2);
        // w == (value * R2 * R2) % m, so val64(w) == (value * R2^3) % m == value % m
        lemma_mul_is_associative(vi, r2, r2);
        lemma_mul_mod_noop_general(vi * r2 * r2, r2, m);
        assert(val64(w) == (vi * r2 * r2 * r2) % m);
        lemma_r2_cubed();
        assert(vi * r2 * r2 * r2 == vi * (r2 * r2 * r2)) by (nonlinear_arith);
        lemma_mul_mod_noop_general(vi, r2 * r2 * r2, m);
        assert(vi * 1 == vi);
    }
    Fp(w)
}

/// Squares `base` a fixed number `N` of times in the Montgomery
/// domain, then multiplies by `tail`: computes `base^(2^N) * tail`.
pub fn exp_acc<const N: usize>(base: u64, tail: u64) -> (r: u64)
    requires
        base < MODULUS,
        tail < MODULUS,
    ensures
        r < MODULUS,
        val64(r) == (pow(val64(base), pow2(N as nat)) * val64(tail)) % (MODULUS as int),
{
    proof {
        vstd::arithmetic::power2::lemma2_to64();
        lemma_pow1(val64(base));
        lemma_mod_bound(base as int * (R2 as int), MODULUS as int);
        lemma_small_mod(val64(base) as nat, MODULUS as nat);
    }
    let mut result = base;
    let mut i: usize = 0;
    while i < N
        invariant
            result < MODULUS,
            base < MODULUS,
            i <= N,
            val64(result) == pow(val64(base), pow2(i as nat)) % (MODULUS as int),
        decreases N - i,
    {
        result = mmul(result, result);
        proof {
            lemma_pow_mul_mod(val64(base), pow2(i as nat), pow2(i as nat));
            vstd::arithmetic::power2::lemma_pow2_adds(i as nat, 1);
            vstd::arithmetic::power2::lemma2_to64();
        }
        i = i + 1;
    }
    let r = mmul(result, tail);
    proof {
        let m = MODULUS as int;
        lemma_mod_bound(tail as int * (R2 as int), m);
        lemma_mul_mod_noop_general(pow(val64(base), pow2(N as nat)), val64(tail), m);
    }
    r
}

/// The engine's compile-time configuration: the modulus and its
/// derived constants, with the arithmetic kernels as associated
/// functions over Montgomery words.
pub struct FpParams;

impl FpParams {
    /// The additive identity.
    pub fn zero() -> (r: Fp)
        ensures
            r.wf(),
            r@ == 0,
    {
        proof {
            assert(0int * (R2 as int) == 0);
        }
        Fp(0)
    }

    /// The multiplicative identity.
    pub fn one() -> (r: Fp)
        ensures
            r.wf(),
            r@ == 1,
    {
        let r = into_mont(1);
        proof {
            lemma_small_mod(1, MODULUS as nat);
        }
        r
    }

    /// The multiplicative generator of the field, `7`.
    pub fn generator() -> (r: Fp)
        ensures
            r.wf(),
            r@ == 7,
    {
        let r = into_mont(7);
        proof {
            lemma_small_mod(7, MODULUS as nat);
        }
        r
    }

    /// The two-adicity of `p - 1`: the largest `k` with `2^k | p - 1`.
    pub fn two_adicity() -> (r: u32)
        ensures
            r == 32,
    {
        32
    }

    /// A principal `2^32`-th root of unity.
    pub fn two_adic_root_of_unity() -> (r: Fp)
        ensures
            r.wf(),
            r@ == 1753635133440165772,
    {
        let r = into_mont(1753635133440165772);
        proof {
            lemma_small_mod(1753635133440165772, MODULUS as nat);
        }
        r
    }

    /// Adds `b` into `a`, computed as `a - (p - b)` with a carry-derived
    /// wraparound correction instead of a comparison against `p`.
    pub fn add_assign(a: &mut Fp, b: &Fp)
        requires
            old(a).wf(),
            b.wf(),
        ensures
            final(a).wf(),
            final(a).0 as int == (old(a).0 + b.0) % (MODULUS as int),
            final(a)@ == add_v(old(a)@, b@),
    {
        let d = MODULUS - b.0;
        let c1 = a.0 < d;
        let x1 = a.0.wrapping_sub(d);
        let adj: u64 = if c1 {
            0xFFFF_FFFF
        } else {
            0
        };
        a.0 = x1.wrapping_sub(adj);
        proof {
            let m = MODULUS as int;
            let s = old(a).0 + b.0;
            if c1 {
                lemma_small_mod(s as nat, MODULUS as nat);
            } else {
                vstd::arithmetic::div_mod::lemma_mod_sub_multiples_vanish(s, m);
                lemma_small_mod((s - m) as nat, MODULUS as nat);
            }
            lemma_mont_add_val(old(a).0, b.0, a.0);
        }
    }

    /// Subtracts `b` from `a` with the same wraparound correction.
    pub fn sub_assign(a: &mut Fp, b: &Fp)
        requires
            old(a).wf(),
            b.wf(),
        ensures
            final(a).wf(),
            final(a).0 as int == (old(a).0 - b.0) % (MODULUS as int),
            final(a)@ == sub_v(old(a)@, b@),
    {
        let c1 = a.0 < b.0;
        let x1 = a.0.wrapping_sub(b.0);
        let adj: u64 = if c1 {
            0xFFFF_FFFF
        } else {
            0
        };
        a.0 = x1.wrapping_sub(adj);
        proof {
            let m = MODULUS as int;
            let s = old(a).0 - b.0;
            if c1 {
                lemma_mod_multiples_vanish(1, s, m);
                lemma_small_mod((s + m) as nat, MODULUS as nat);
            } else {
                lemma_small_mod(s as nat, MODULUS as nat);
            }
            lemma_mont_sub_val(old(a).0, b.0, a.0);
        }
    }

    /// Doubles `a` in place: a left shift, with at most one subtraction
    /// of the modulus to restore the invariant.
    pub fn double_in_place(a: &mut Fp)
        requires
            old(a).wf(),
        ensures
            final(a).wf(),
            final(a).0 as int == (2 * old(a).0) % (MODULUS as int),
            final(a)@ == add_v(old(a)@, old(a)@),
    {
        let v = a.0;
        proof {
            assert(v >> 63u64 == v / 0x8000_0000_0000_0000) by (bit_vector);
            assert((v << 1u64) == (v + v) % 0x1_0000_0000_0000_0000) by (bit_vector);
            assert(v >> 63u64 == (v + v) / 0x1_0000_0000_0000_0000) by (bit_vector);
        }
        let over = v >> 63;
        let x = v << 1;
        let r0 = x.wrapping_sub(MODULUS * over);
        let r = if r0 >= MODULUS {
            r0 - MODULUS
        } else {
            r0
        };
        a.0 = r;
        proof {
            let m = MODULUS as int;
            let t = 2 * old(a).0;
            if over == 1 {
                vstd::arithmetic::div_mod::lemma_mod_sub_multiples_vanish(t, m);
                lemma_small_mod((t - m) as nat, MODULUS as nat);
            } else {
                if r0 >= MODULUS {
                    vstd::arithmetic::div_mod::lemma_mod_sub_multiples_vanish(t, m);
                    lemma_small_mod((t - m) as nat, MODULUS as nat);
                } else {
                    lemma_small_mod(t as nat, MODULUS as nat);
                }
            }
            lemma_mont_add_val(old(a).0, old(a).0, a.0);
        }
    }

    /// Multiplies `b` into `a` through one Montgomery reduction of the
    /// 128-bit product.
    pub fn mul_assign(a: &mut Fp, b: &Fp)
        requires
            old(a).wf(),
            b.wf(),
        ensures
            final(a).wf(),
            final(a)@ == mul_v(old(a)@, b@),
    {
        a.0 = mmul(a.0, b.0);
    }

    /// Squares `a` in place.
    pub fn square_in_place(a: &mut Fp)
        requires
            old(a).wf(),
        ensures
            final(a).wf(),
            final(a)@ == mul_v(old(a)@, old(a)@),
    {
        a.0 = mmul(a.0, a.0);
    }

    /// Fused sum of pairwise products of two equally long slices.
    pub fn sum_of_products(a: &[Fp], b: &[Fp]) -> (r: Fp)
        requires
            a@.len() == b@.len(),
            forall|i: int| 0 <= i < a@.len() ==> (#[trigger] a@[i]).wf() && b@[i].wf(),
        ensures
            r.wf(),
            r@ == sop_v(a@, b@, a@.len() as nat),
    {
        let mut acc = Self::zero();
        let mut i: usize = 0;
        let n = a.len();
        while i < n
            invariant
                n == a@.len(),
                a@.len() == b@.len(),
                forall|j: int| 0 <= j < a@.len() ==> (#[trigger] a@[j]).wf() && b@[j].wf(),
                i <= n,
                acc.wf(),
                acc@ == sop_v(a@, b@, i as nat),
            decreases n - i,
        {
            let mut t = a[i];
            Self::mul_assign(&mut t, &b[i]);
            Self::add_assign(&mut acc, &t);
            i = i + 1;
        }
        acc
    }

    /// Raises `a` to the power `e` by binary exponentiation.
    pub fn pow(a: Fp, e: u64) -> (r: Fp)
        requires
            a.wf(),
        ensures
            r.wf(),
            r@ == pow(a@, e as nat) % (MODULUS as int),
    {
        let mut result = Self::one();
        let mut base = a;
        let mut exp = e;
        proof {
            lemma_pow1(a@);
            lemma_mod_bound(a.0 as int * (R2 as int), MODULUS as int);
            lemma_small_mod(a@ as nat, MODULUS as nat);
        }
        while exp > 0
            invariant
                base.wf(),
                result.wf(),
                pow(a@, e as nat) % (MODULUS as int) == (result@ * pow(base@, exp as nat)) % (
                MODULUS as int),
            decreases exp,
        {
            let ghost r0 = result@;
            let ghost b0 = base@;
            let ghost e0 = exp as nat;
            proof {
                assert(exp & 1u64 == exp % 2) by (bit_vector);
                assert(exp >> 1u64 == exp / 2) by (bit_vector);
            }
            let ghost k = (e0 / 2) as nat;
            if exp & 1 == 1 {
                result = Fp(mmul(result.0, base.0));
            }
            base = Fp(mmul(base.0, base.0));
            exp = exp >> 1;
            proof {
                let m = MODULUS as int;
                vstd::arithmetic::power::lemma_square_is_pow2(b0);
                lemma_pow_mod_noop(b0 * b0, k, m);
                lemma_pow_multiplies(b0, 2, k);
                assert(pow(base@, k) % m == pow(b0, (2 * k) as nat) % m);
                if e0 % 2 == 1 {
                    assert(e0 == 2 * k + 1);
                    lemma_mul_mod_noop_general(r0 * b0, pow(base@, k), m);
                    lemma_mul_mod_noop_general(r0 * b0, pow(b0, (2 * k) as nat), m);
                    lemma_pow_adds(b0, 1, (2 * k) as nat);
                    lemma_pow1(b0);
                    lemma_mul_is_associative(r0, b0, pow(b0, (2 * k) as nat));
                    assert((result@ * pow(base@, k)) % m == (r0 * pow(b0, e0)) % m);
                } else {
                    assert(e0 == 2 * k);
                    lemma_mul_mod_noop_general(r0, pow(base@, k), m);
                    lemma_mul_mod_noop_general(r0, pow(b0, (2 * k) as nat), m);
                    assert((result@ * pow(base@, k)) % m == (r0 * pow(b0, e0)) % m);
                }
            }
        }
        proof {
            lemma_pow0(base@);
            lemma_small_mod(result@ as nat, MODULUS as nat);
            lemma_mod_bound(result.0 as int * (R2 as int), MODULUS as int);
        }
        result
    }

    /// Multiplicative inverse by Fermat's little theorem: `a^(p-2)`,
    /// computed with a fixed addition chain of 72 reduction steps.
    /// The additive identity has no inverse.
    pub fn inverse(a: &Fp) -> (r: Option<Fp>)
        requires
            a.wf(),
        ensures
            r.is_some() == (a@ != 0),
            r matches Some(b) ==> b.wf() && b@ == pow(a@, (MODULUS - 2) as nat) % (MODULUS as int),
    {
        proof {
            lemma_val_zero(a.0);
        }
        if a.0 == 0 {
            None
        } else {
            let ghost c = a@;
            proof {
                vstd::arithmetic::power2::lemma2_to64();
                lemma_pow1(c);
                lemma_mod_bound(a.0 as int * (R2 as int), MODULUS as int);
                lemma_small_mod(c as nat, MODULUS as nat);
            }
            // t2 = a^3
            let s1 = mmul(a.0, a.0);
            proof {
                lemma_pow_mul_mod(c, 1, 1);
            }
            let t2 = mmul(s1, a.0);
            proof {
                lemma_pow_mul_mod(c, 2, 1);
            }
            // t3 = a^7
            let s2 = mmul(t2, t2);
            proof {
                lemma_pow_mul_mod(c, 3, 3);
            }
            let t3 = mmul(s2, a.0);
            proof {
                lemma_pow_mul_mod(c, 6, 1);
            }
            // t6 = a^63
            let t6 = exp_acc::<3>(t3, t3);
            proof {
                lemma_exp_acc_val(c, 7, 7, 3);
            }
            // t12 = a^4095
            let t12 = exp_acc::<6>(t6, t6);
            proof {
                lemma_exp_acc_val(c, 63, 63, 6);
            }
            // t24 = a^(2^24 - 1)
            let t24 = exp_acc::<12>(t12, t12);
            proof {
                lemma_exp_acc_val(c, 4095, 4095, 12);
            }
            // t30 = a^(2^30 - 1)
            let t30 = exp_acc::<6>(t24, t6);
            proof {
                lemma_exp_acc_val(c, 16777215, 63, 6);
            }
            // t31 = a^(2^31 - 1)
            let s3 = mmul(t30, t30);
            proof {
                lemma_pow_mul_mod(c, 1073741823, 1073741823);
            }
            let t31 = mmul(s3, a.0);
            proof {
                lemma_pow_mul_mod(c, 2147483646, 1);
            }
            // t63 = a^(2^63 - 2^31 - 1)
            let t63 = exp_acc::<32>(t31, t31);
            proof {
                lemma_exp_acc_val(c, 2147483647, 2147483647, 32);
            }
            // out = a^(p - 2)
            let s4 = mmul(t63, t63);
            proof {
                lemma_pow_mul_mod(c, 9223372034707292159, 9223372034707292159);
            }
            let out = mmul(s4, a.0);
            proof {
                lemma_pow_mul_mod(c, 18446744069414584318, 1);
            }
            Some(Fp(out))
        }
    }

    /// Enters the field from a canonical integer: values in `[0, p)`
    /// are accepted into the Montgomery domain, anything else yields
    /// no value.
    pub fn from_bigint(other: u64) -> (r: Option<Fp>)
        ensures
            r.is_some() == (other < MODULUS),
            r matches Some(f) ==> f.wf() && f@ == other as int,
    {
        if other == 0 {
            Some(Self::zero())
        } else if other < MODULUS {
            let f = into_mont(other);
            proof {
                lemma_small_mod(other as nat, MODULUS as nat);
            }
            Some(f)
        } else {
            None
        }
    }

    /// Leaves the Montgomery domain: returns the canonical integer in
    /// `[0, p)` that `other` stands for.
    pub fn into_bigint(other: Fp) -> (r: u64)
        ensures
            r as int == other@,
            r < MODULUS,
    {
        proof {
            assert(((other.0 as u128) as int) < (MODULUS as int) * 0x1_0000_0000_0000_0000)
                by (nonlinear_arith)
                requires
                    (other.0 as int) < 0x1_0000_0000_0000_0000,
                    MODULUS == 18446744069414584321u64,
            ;
        }
        let r = mont_red(other.0 as u128);
        proof {
            lemma_mont_word(r, other.0 as int);
        }
        r
    }
}

/// Partial sum of pairwise products `a[0]*b[0] + ... + a[n-1]*b[n-1]`
/// over canonical residues.
pub open spec fn sop_v(a: Seq<Fp>, b: Seq<Fp>, n: nat) -> int
    decreases n,
{
    if n == 0 {
        0
    } else {
        add_v(sop_v(a, b, (n - 1) as nat), mul_v(a[n - 1]@, b[n - 1]@))
    }
}

/// Adding an element and then subtracting it returns to the start.
pub proof fn lemma_add_sub_cancel(a: int, b: int)
    requires
        0 <= a < MODULUS as int,
        0 <= b < MODULUS as int,
    ensures
        sub_v(add_v(a, b), b) == a,
{
    lemma_sub_mod_noop(a + b, b, MODULUS as int);
    lemma_small_mod(b as nat, MODULUS as nat);
    lemma_small_mod(a as nat, MODULUS as nat);
}

/// Multiplication of canonical residues is commutative.
pub proof fn lemma_mul_comm_law(a: int, b: int)
    ensures
        mul_v(a, b) == mul_v(b, a),
{
    lemma_mul_is_commutative(a, b);
}

/// Addition of canonical residues is associative.
pub proof fn lemma_add_assoc_law(a: int, b: int, c: int)
    requires
        0 <= a < MODULUS as int,
        0 <= b < MODULUS as int,
        0 <= c < MODULUS as int,
    ensures
        add_v(add_v(a, b), c) == add_v(a, add_v(b, c)),
{
    lemma_add_mod_noop(a + b, c, MODULUS as int);
    lemma_add_mod_noop(a, b + c, MODULUS as int);
    lemma_small_mod(a as nat, MODULUS as nat);
    lemma_small_mod(c as nat, MODULUS as nat);
}

/// A multiplicative inverse is unique: two residues that both
/// multiply `a` to one are equal.
pub proof fn lemma_inverse_unique(a: int, x: int, y: int)
    requires
        0 <= x < MODULUS as int,
        0 <= y < MODULUS as int,
        mul_v(x, a) == 1,
        mul_v(y, a) == 1,
    ensures
        x == y,
{
    let m = MODULUS as int;
    lemma_mul_mod_noop_general(y, x * a, m);
    lemma_mul_mod_noop_general(x, y * a, m);
    assert(y * (x * a) == x * (y * a)) by (nonlinear_arith);
    lemma_small_mod(x as nat, MODULUS as nat);
    lemma_small_mod(y as nat, MODULUS as nat);
    assert((y * ((x * a) % m)) % m == (y * (x * a)) % m);
    assert((x * ((y * a) % m)) % m == (x * (y * a)) % m);
}

/// Multiplication of canonical residues is associative.
pub proof fn lemma_mul_assoc_law(a: int, b: int, c: int)
    ensures
        mul_v(mul_v(a, b), c) == mul_v(a, mul_v(b, c)),
{
    lemma_mul_mod_noop_general(a * b, c, MODULUS as int);
    lemma_mul_mod_noop_general(a, b * c, MODULUS as int);
    lemma_mul_is_associative(a, b, c);
}

/// On well-formed elements, equality of the raw Montgomery words
/// decides equality of the residues they stand for.
pub proof fn lemma_eq_is_canonical(a: Fp, b: Fp)
    requires
        a.wf(),
        b.wf(),
    ensures
        (a == b) == (a@ == b@),
{
    if a@ == b@ {
        lemma_val_injective(a.0, b.0);
    }
}

/// Reduced powers multiply as powers: the product of `c^i mod p` and
/// `c^j mod p` is `c^(i+j) mod p`.
pub proof fn lemma_pow_mul_mod(c: int, i: nat, j: nat)
    ensures
        mul_v(pow(c, i) % (MODULUS as int), pow(c, j) % (MODULUS as int)) == pow(c, i + j) % (
        MODULUS as int),
{
    lemma_mul_mod_noop(pow(c, i), pow(c, j), MODULUS as int);
    lemma_pow_adds(c, i, j);
}

/// Squaring a reduced power `n` times raises the exponent by `2^n`.
pub proof fn lemma_pow_sqn(c: int, k: nat, n: nat)
    ensures
        pow(pow(c, k) % (MODULUS as int), pow2(n)) % (MODULUS as int) == pow(c, k * pow2(n)) % (
        MODULUS as int),
{
    lemma_pow_mod_noop(pow(c, k), pow2(n), MODULUS as int);
    lemma_pow_multiplies(c, k, pow2(n));
}

/// Repeated squaring of a reduced power followed by one multiplication
/// accumulates the exponent `k * 2^n + j`.
pub proof fn lemma_exp_acc_val(c: int, k: nat, j: nat, n: nat)
    ensures
        (pow(pow(c, k) % (MODULUS as int), pow2(n)) * (pow(c, j) % (MODULUS as int))) % (
        MODULUS as int) == pow(c, k * pow2(n) + j) % (MODULUS as int),
{
    let m = MODULUS as int;
    lemma_pow_sqn(c, k, n);
    lemma_mul_mod_noop_general(pow(pow(c, k) % m, pow2(n)), pow(c, j) % m, m);
    lemma_pow_mul_mod(c, k * pow2(n), j);
}

/// The cube of `R2` is the identity modulo `p`: `R2 == R^-1` and the
/// radix satisfies `R^3 == 1 (mod p)`.
proof fn lemma_r2_cubed()
    ensures
        ((R2 as int) * (R2 as int) * (R2 as int)) % (MODULUS as int) == 1,
{
    let m = MODULUS as int;
    let r2 = R2 as int;
    assert((18446744065119617025u128 * 18446744065119617025u128) % 18446744069414584321
        == 4294967295) by (bit_vector);
    assert((4294967295u128 * 18446744065119617025u128) % 18446744069414584321 == 1)
        by (bit_vector);
    assert((r2 * r2) % m == 4294967295);
    lemma_mul_mod_noop_general(r2 * r2, r2, m);
    assert(((r2 * r2) % m * r2) % m == (r2 * r2 * r2) % m);
}

} // verus!
