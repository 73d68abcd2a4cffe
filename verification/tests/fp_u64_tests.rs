use ark_ff_optimized::fp_u64::{exp_acc, into_mont, mont_red, Fp, FpParams, MODULUS};

fn from_int(v: u64) -> Fp {
    FpParams::from_bigint(v).unwrap()
}

fn value(a: Fp) -> u64 {
    FpParams::into_bigint(a)
}

#[test]
fn montgomery_concrete_add_mul() {
    // (p - 1) + 5 wraps to 4
    let mut a = from_int(MODULUS - 1);
    let b = from_int(5);
    FpParams::add_assign(&mut a, &b);
    assert_eq!(value(a), 4);
    // (p - 1)^2 == 1
    let mut c = from_int(MODULUS - 1);
    let d = c;
    FpParams::mul_assign(&mut c, &d);
    assert_eq!(value(c), 1);
    // 2^32 * 2^32 == 2^64 mod p == 2^32 - 1
    let mut e = from_int(1u64 << 32);
    let f = e;
    FpParams::mul_assign(&mut e, &f);
    assert_eq!(value(e), 4294967295);
}

#[test]
fn mont_add_sub_cancel() {
    let cases = [0u64, 1, 5, 4294967295, MODULUS - 2, MODULUS - 1];
    for &x in cases.iter() {
        for &y in cases.iter() {
            let mut a = from_int(x);
            let b = from_int(y);
            FpParams::add_assign(&mut a, &b);
            FpParams::sub_assign(&mut a, &b);
            assert_eq!(value(a), x);
        }
    }
}

#[test]
fn mul_commutes() {
    let x = from_int(1234567890123456789);
    let y = from_int(987654321098765432);
    let mut a = x;
    FpParams::mul_assign(&mut a, &y);
    let mut b = y;
    FpParams::mul_assign(&mut b, &x);
    assert_eq!(value(a), value(b));
}

#[test]
fn mont_double_and_square_agree() {
    for &x in [0u64, 1, 2, 1u64 << 62, 1u64 << 63, MODULUS - 1, MODULUS / 2, MODULUS / 2 + 1]
        .iter()
    {
        let a = from_int(x);
        let mut d = a;
        FpParams::double_in_place(&mut d);
        let mut s = a;
        FpParams::add_assign(&mut s, &a);
        assert_eq!(value(d), value(s));
        let mut sq = a;
        FpParams::square_in_place(&mut sq);
        let mut m = a;
        FpParams::mul_assign(&mut m, &a);
        assert_eq!(value(sq), value(m));
    }
}

#[test]
fn mont_inverse_multiplies_to_one() {
    for &x in [1u64, 2, 3, 123456789, MODULUS - 1].iter() {
        let a = from_int(x);
        let inv = FpParams::inverse(&a).unwrap();
        let mut prod = a;
        FpParams::mul_assign(&mut prod, &inv);
        assert_eq!(value(prod), 1);
    }
    // the known power: 123456789^(p-2)
    let inv = FpParams::inverse(&from_int(123456789)).unwrap();
    assert_eq!(value(inv), 2348054723721534454);
}

#[test]
fn mont_inverse_of_zero_is_none() {
    assert!(FpParams::inverse(&FpParams::zero()).is_none());
}

#[test]
fn bigint_round_trip() {
    for &x in [0u64, 1, 7, 4294967295, MODULUS - 1].iter() {
        assert_eq!(value(from_int(x)), x);
    }
    assert!(FpParams::from_bigint(MODULUS).is_none());
    assert!(FpParams::from_bigint(u64::MAX).is_none());
}

#[test]
fn constants_have_their_canonical_values() {
    assert_eq!(value(FpParams::zero()), 0);
    assert_eq!(value(FpParams::one()), 1);
    assert_eq!(value(FpParams::generator()), 7);
    assert_eq!(FpParams::two_adicity(), 32);
    assert_eq!(value(FpParams::two_adic_root_of_unity()), 1753635133440165772);
}

#[test]
fn root_of_unity_has_order_two_to_the_32() {
    // omega^(2^31) == p - 1 and omega^(2^32) == 1
    let mut w = FpParams::two_adic_root_of_unity();
    for _ in 0..31 {
        FpParams::square_in_place(&mut w);
    }
    assert_eq!(value(w), MODULUS - 1);
    FpParams::square_in_place(&mut w);
    assert_eq!(value(w), 1);
}

#[test]
fn pow_matches_known_values() {
    let g = FpParams::generator();
    assert_eq!(value(FpParams::pow(g, 0)), 1);
    assert_eq!(value(FpParams::pow(g, 1)), 7);
    assert_eq!(value(FpParams::pow(g, 5)), 16807);
}

#[test]
fn reduction_kernels_compute_residues() {
    assert_eq!(mont_red(0), 0);
    // mont_red(R) == 1: the radix cancels
    let r_mod_p = 4294967295u64; // 2^64 mod p
    let one = FpParams::one();
    assert_eq!(one.0, r_mod_p);
    assert_eq!(mont_red(one.0 as u128), 1);
    // exp_acc squares N times then multiplies: 2^(2^3) * 1 == 256
    let two = into_mont(2);
    let one_w = FpParams::one();
    let w = exp_acc::<3>(two.0, one_w.0);
    assert_eq!(value(Fp(w)), 256);
}

#[test]
fn sum_of_products_matches_manual() {
    let xs = [from_int(2), from_int(3), from_int(MODULUS - 1)];
    let ys = [from_int(10), from_int(20), from_int(2)];
    let sop = FpParams::sum_of_products(&xs, &ys);
    // 20 + 60 + 2*(p-1) == 80 + 2p - 2 == 78 mod p
    assert_eq!(value(sop), 78);
}

#[test]
fn raw_equality_is_canonical_equality() {
    let a = from_int(42);
    let b = from_int(42);
    assert_eq!(a, b);
    assert_eq!(a.0, b.0);
    assert!(from_int(1) != from_int(2));
}
