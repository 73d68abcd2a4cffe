use ark_ff_optimized::fp31::{Fp, LegendreSymbol, SerializationError, MODULUS};
use ark_std::rand::SeedableRng;

#[test]
fn mersenne_concrete_add_mul() {
    // a = p - 1, b = 3: a + b wraps to 2, a * b is p - 3
    let a = Fp::from_u32(2147483646);
    let b = Fp::from_u32(3);
    assert_eq!(a.add(b).into_integer(), 2);
    assert_eq!(a.mul(b).into_integer(), 2147483644);
}

#[test]
fn add_sub_cancel() {
    let cases = [0u32, 1, 2, 7, 1000, 2147483645, 2147483646];
    for &x in cases.iter() {
        for &y in cases.iter() {
            let a = Fp::from_u32(x);
            let b = Fp::from_u32(y);
            assert_eq!(a.add(b).sub(b).into_integer(), a.into_integer());
        }
    }
}

#[test]
fn mul_commutes_and_associates() {
    let a = Fp::from_u32(123456789);
    let b = Fp::from_u32(987654321);
    let c = Fp::from_u32(555555555);
    assert_eq!(a.mul(b).into_integer(), b.mul(a).into_integer());
    assert_eq!(a.mul(b).mul(c).into_integer(), a.mul(b.mul(c)).into_integer());
    assert_eq!(a.add(b).add(c).into_integer(), a.add(b.add(c)).into_integer());
}

#[test]
fn double_and_square_agree_with_add_and_mul() {
    for &x in [0u32, 1, 2, 1073741824, 2147483646, 2147483647].iter() {
        let a = Fp(x);
        assert_eq!(a.double().into_integer(), a.add(a).into_integer());
        assert_eq!(a.square().into_integer(), a.mul(a).into_integer());
    }
}

#[test]
fn inverse_multiplies_to_one() {
    for &x in [1u32, 2, 3, 12345, 2147483646].iter() {
        let a = Fp::from_u32(x);
        let inv = a.inverse().unwrap();
        assert_eq!(a.mul(inv).into_integer(), 1);
    }
}

#[test]
fn inverse_of_zero_is_none() {
    assert!(Fp(0).inverse().is_none());
    // the second raw representation of zero has no inverse either
    assert!(Fp(2147483647).inverse().is_none());
}

#[test]
fn dual_zero_is_canonicalized() {
    let z0 = Fp(0);
    let zp = Fp(2147483647);
    assert!(z0 == zp);
    assert_eq!(z0.into_integer(), zp.into_integer());
    assert_eq!(z0.serialize(), zp.serialize());
    assert_eq!(z0.to_decimal(), zp.to_decimal());
    assert!(z0.is_zero() && zp.is_zero());
}

#[test]
fn ordering_is_canonical() {
    // raw p orders as zero, below one
    assert!(Fp(2147483647) < Fp(1));
    assert!(Fp(1) < Fp(2));
    assert!(!(Fp(2147483647) < Fp(0)));
}

#[test]
fn serialize_round_trip() {
    for &x in [0u32, 1, 255, 65536, 2147483646].iter() {
        let a = Fp::from_u32(x);
        let bytes = a.serialize();
        assert_eq!(bytes.len(), 5);
        let back = Fp::deserialize(&bytes).unwrap();
        assert!(back == a);
    }
}

#[test]
fn serialize_round_trip_with_flags() {
    let a = Fp::from_u32(77777);
    // two flag bits, both set: bitmask 0b1100_0000
    let bytes = a.serialize_with_flags(0b1100_0000, 2).unwrap();
    let (back, flags) = Fp::deserialize_with_flags(&bytes, 2).unwrap();
    assert!(back == a);
    assert_eq!(flags, 0b1100_0000);
}

#[test]
fn serialize_rejects_wide_flags() {
    let a = Fp::from_u32(5);
    assert_eq!(
        a.serialize_with_flags(0, 9).unwrap_err(),
        SerializationError::NotEnoughSpace
    );
    assert_eq!(
        Fp::deserialize_with_flags(&[0u8; 5], 9).unwrap_err(),
        SerializationError::NotEnoughSpace
    );
}

#[test]
fn deserialize_rejects_bad_input() {
    assert_eq!(
        Fp::deserialize_with_flags(&[0u8; 4], 0).unwrap_err(),
        SerializationError::InvalidLength
    );
    // a set bit in the flag byte outside the declared flag region
    assert_eq!(
        Fp::deserialize_with_flags(&[1, 0, 0, 0, 0b0010_0000], 2).unwrap_err(),
        SerializationError::UnexpectedFlags
    );
    assert_eq!(
        Fp::deserialize_with_flags(&[1, 0, 0, 0, 1], 0).unwrap_err(),
        SerializationError::UnexpectedFlags
    );
}

#[test]
fn serialized_bytes_are_little_endian() {
    let a = Fp::from_u32(0x01020304);
    let bytes = a.serialize();
    assert_eq!(bytes, vec![0x04, 0x03, 0x02, 0x01, 0x00]);
}

#[test]
fn parse_accepts_canonical_numerals() {
    assert_eq!(Fp::from_str("0").unwrap().into_integer(), 0);
    assert_eq!(Fp::from_str("1").unwrap().into_integer(), 1);
    assert_eq!(Fp::from_str("123456789").unwrap().into_integer(), 123456789);
    assert_eq!(Fp::from_str("2147483646").unwrap().into_integer(), 2147483646);
    // the value p itself is admitted as the raw second zero
    let z = Fp::from_str("2147483647").unwrap();
    assert!(z.is_zero());
}

#[test]
fn parse_rejects_malformed_numerals() {
    assert!(Fp::from_str("").is_err());
    assert!(Fp::from_str("007").is_err());
    assert!(Fp::from_str("01").is_err());
    assert!(Fp::from_str("2147483648").is_err());
    assert!(Fp::from_str("99999999999").is_err());
    assert!(Fp::from_str("12a4").is_err());
    assert!(Fp::from_str("-5").is_err());
    assert!(Fp::from_str("１２").is_err());
}

#[test]
fn text_round_trip() {
    for &x in [0u32, 1, 10, 100, 1000000007, 2147483646].iter() {
        let a = Fp::from_u32(x);
        let s = a.to_decimal();
        let back = Fp::from_str(&s).unwrap();
        assert!(back == a);
    }
    assert_eq!(Fp::from_u32(0).to_decimal(), "0");
    assert_eq!(Fp::from_u32(120).to_decimal(), "120");
}

#[test]
fn legendre_classifies() {
    assert_eq!(Fp::from_u32(0).legendre(), LegendreSymbol::Zero);
    assert_eq!(Fp(2147483647).legendre(), LegendreSymbol::Zero);
    // 9 = 3^2 is a residue
    assert_eq!(Fp::from_u32(9).legendre(), LegendreSymbol::QuadraticResidue);
    // 3 generates the multiplicative group, so it is a non-residue
    assert_eq!(
        Fp::from_u32(3).legendre(),
        LegendreSymbol::QuadraticNonResidue
    );
}

#[test]
fn sqrt_of_residue_squares_back() {
    let nine = Fp::from_u32(9);
    let root = nine.sqrt().unwrap();
    assert_eq!(root.into_integer(), 2147483644);
    assert!(root.sq() == nine);
    let four = Fp::from_u32(4);
    let r4 = four.sqrt().unwrap();
    assert!(r4.sq() == four);
    // a non-residue has no root
    assert!(Fp::from_u32(3).sqrt().is_none());
}

#[test]
fn sampling_stays_below_the_modulus() {
    let mut rng = ark_std::rand::rngs::StdRng::seed_from_u64(42);
    for _ in 0..1000 {
        let a = Fp::rand(&mut rng);
        assert!(a.0 < MODULUS);
        assert!(a.into_integer() < MODULUS);
    }
}

#[test]
fn conversions_reduce_modulo_p() {
    assert_eq!(Fp::from_bool(true).into_integer(), 1);
    assert_eq!(Fp::from_bool(false).into_integer(), 0);
    assert_eq!(Fp::from_u8(255).into_integer(), 255);
    assert_eq!(Fp::from_u16(65535).into_integer(), 65535);
    assert_eq!(Fp::from_u32(2147483647).into_integer(), 0);
    assert_eq!(Fp::from_u64(1u64 << 33).into_integer(), 4);
    assert_eq!(
        Fp::from_u128(12345678901234567890u128).into_integer(),
        1103650286
    );
    assert_eq!(Fp::from_i8(-1).into_integer(), 2147483646);
    assert_eq!(Fp::from_i16(-2).into_integer(), 2147483645);
    assert_eq!(Fp::from_i32(-2147483648).into_integer(), 2147483646);
    assert_eq!(Fp::from_i64(5).into_integer(), 5);
    assert_eq!(Fp::from_i128(i128::MIN).into_integer(), 2147483639);
}

#[test]
fn division_multiplies_by_the_inverse() {
    let a = Fp::from_u32(10);
    let b = Fp::from_u32(5);
    let q = a.div(b);
    assert_eq!(q.mul(b).into_integer(), 10);
    assert_eq!(a.mul(b).div(b).into_integer(), 10);
}

#[test]
fn sums_and_products_fold() {
    let xs = [Fp::from_u32(1), Fp::from_u32(2), Fp::from_u32(3)];
    assert_eq!(Fp::sum(&xs).into_integer(), 6);
    assert_eq!(Fp::product(&xs).into_integer(), 6);
    assert_eq!(Fp::sum(&[]).into_integer(), 0);
    assert_eq!(Fp::product(&[]).into_integer(), 1);
    let ys = [Fp::from_u32(4), Fp::from_u32(5), Fp::from_u32(6)];
    let sop = Fp::sum_of_products(&xs, &ys);
    assert_eq!(sop.into_integer(), 4 + 10 + 18);
    // the fused form agrees with multiply-then-sum
    let manual = xs[0].mul(ys[0]).add(xs[1].mul(ys[1])).add(xs[2].mul(ys[2]));
    assert!(sop == manual);
}

#[test]
fn biguint_conversions_reduce() {
    // p + 5 reduces to 5
    let big = num_bigint::BigUint::from(2147483652u64);
    assert_eq!(Fp::from_biguint(&big).into_integer(), 5);
    let a = Fp::from_u32(424242);
    let back = Fp::from_biguint(&a.to_biguint());
    assert!(back == a);
}

#[test]
fn pow_matches_repeated_multiplication() {
    let a = Fp::from_u32(3);
    assert_eq!(a.pow(0).into_integer(), 1);
    assert_eq!(a.pow(1).into_integer(), 3);
    assert_eq!(a.pow(10).into_integer(), 59049);
    assert_eq!(a.sqn(3).into_integer(), 6561);
}

#[test]
fn operator_sugar_matches_methods() {
    let a = Fp::from_u32(2147483646);
    let b = Fp::from_u32(3);
    assert!((a + b) == a.add(b));
    assert_eq!((a + b).into_integer(), 2);
    assert!((a - b) == a.sub(b));
    assert!((a * b) == a.mul(b));
    assert_eq!((-b).into_integer(), 2147483644);
    assert!((a + b - b) == a);
}

#[test]
fn bigint_words_round_trip() {
    let a = Fp::from_bigint(u64::from(u32::MAX)).unwrap();
    assert_eq!(a.into_bigint(), u64::from(u32::MAX) % 2147483647);
    for &x in [0u64, 1, 2147483646].iter() {
        assert_eq!(Fp::from_bigint(x).unwrap().into_bigint(), x);
    }
}

#[test]
fn small_field_trait_surface() {
    assert_eq!(Fp::characteristic(), 2147483647);
    assert_eq!(Fp::extension_degree(), 1);
    let a = Fp::from_u32(7);
    assert!(Fp::from_base_prime_field(a) == a);
    assert!(Fp::from_base_prime_field_elems(&[a]).unwrap() == a);
    assert!(Fp::from_base_prime_field_elems(&[a, a]).is_none());
    let mut b = a;
    b.frobenius_map_in_place(3);
    assert!(b == a);
    let mut c = a;
    let inv = c.inverse_in_place().unwrap();
    assert!(c == inv);
    assert_eq!(c.mul(a).into_integer(), 1);
}
