use metamint::crypto::ecdsa::{clock_add, clock_div, clock_mul, clock_sub, secp256k1, EllipticCurve};
use metamint::utils::bignum::{ArithError, Int512, Uint256, Uint512, Zero};
use metamint::utils::limbs::{bn_raw_cmp, hi, item_or_zero, lo, mul_u64_carry};

#[test]
fn test_field_add_identity() {
    let p = *secp256k1().modulo();
    let a = Uint256::from_raw([0xaa7f067e28fef8ac, 0xaa2f64be71462131, 0x42fd096d2f1f7fd9, 0x8ff2b776aaf6d919]);

    // a + 0 = a (mod p)
    assert_eq!(clock_add(&a, &Uint256::zero(), &p), a);
    // a - a = 0 (mod p)
    assert_eq!(clock_sub(&a, &a, &p), Uint256::zero());
}

#[test]
fn test_unsigned_div_round_trip() {
    // a = b * c exactly, so (a / b) * b = a
    let b = Uint256::from_raw([0x9facd3f3eeff0071, 0, 0, 0]);
    let c = Uint256::from_raw([0x0b1fd4f71b3fb1ab, 0xe89d6c29e9ef895d, 0, 0]);
    let a = b.mul(c);

    assert_eq!(a.div(b).unwrap(), c);
    assert_eq!(a.div(b).unwrap().mul(b), a);
}

#[test]
fn test_field_div_round_trip() {
    // clock_mul(clock_div(a, b, p), b, p) = a for b coprime to the prime p
    let p = *secp256k1().modulo();
    let a = Uint256::from_raw([0xaa7f067e28fef8ac, 0xaa2f64be71462131, 0x42fd096d2f1f7fd9, 0x8ff2b776aaf6d919]);
    let b = Uint256::from_raw([0x388fa11ff621a970, 0xfa2f68914d0aa833, 0xbb49f7f81c221151, 0x9075b4ee4d4788ca]);

    let d = clock_div(&a, &b, &p).unwrap();
    assert_eq!(clock_mul(&d, &b, &p), a);
}

#[test]
fn test_width_round_trip() {
    // widening to 512 bits and narrowing back keeps the value
    let a = Uint256::from_raw([0xff98fdf13ceff45f, 0xf3bcc7f3f272feed, 0xff235feebdaedaaa, 0x7ffff3f6f1f600df]);
    let w = Uint512::from(a);
    assert_eq!(Uint256::from_uint512(w).unwrap(), a);

    let small = Uint256::from(12345u64);
    assert_eq!(Uint256::from_uint512(Uint512::from(small)).unwrap(), small);
}

#[test]
fn test_overflow_wraparound() {
    // max + 1 = 0; max + 2 = 1; 0 - 1 = max
    assert_eq!(Uint256::max().add(Uint256::from(1)), Uint256::zero());
    assert_eq!(Uint256::max().add(Uint256::from(2)), Uint256::from(1));
    assert_eq!(Uint256::zero().sub(Uint256::from(1)), Uint256::max());

    assert_eq!(Uint512::max().add(Uint512::from(1)), Uint512::zero());
    assert_eq!(Uint512::max().add(Uint512::from(2)), Uint512::from(1));
    assert_eq!(Uint512::zero().sub(Uint512::from(1)), Uint512::max());
}

#[test]
fn test_generator_on_curve() {
    // the generator satisfies y^2 = x^3 + 7 (mod p)
    let curve = secp256k1();
    let g = curve.gen_point();
    let checked = curve.try_create_point(*g.x(), *g.y());
    assert_eq!(checked.unwrap(), g);

    // a coordinate off the curve is rejected
    let bad = curve.try_create_point(*g.x(), Uint256::from(5u64));
    assert!(bad.is_none());
}

#[test]
fn test_divide_by_zero_fails() {
    let p = *secp256k1().modulo();
    let a = Uint256::from(5u64);

    assert_eq!(a.div(Uint256::zero()), Err(ArithError::DivideByZero));
    assert_eq!(a.div_u64(0), Err(ArithError::DivideByZero));
    assert_eq!(Uint512::from(5u64).div(Uint512::zero()), Err(ArithError::DivideByZero));
    assert_eq!(Uint512::from(5u64).div_u64(0), Err(ArithError::DivideByZero));
    assert_eq!(
        Int512::from(5u64).div(Int512::zero()),
        Err(ArithError::DivideByZero)
    );
    assert_eq!(clock_div(&a, &Uint256::zero(), &p), Err(ArithError::DivideByZero));
}

#[test]
fn test_no_modular_inverse() {
    // modulus 9 and divisor 3 share the factor 3
    let p = Uint256::from(9u64);
    let a = Uint256::from(1u64);
    let b = Uint256::from(3u64);
    assert_eq!(clock_div(&a, &b, &p), Err(ArithError::NoModularInverse));

    // with a coprime divisor the inverse exists: 2 * 5 = 10 = 1 (mod 9)
    let d = clock_div(&a, &Uint256::from(2u64), &p).unwrap();
    assert_eq!(d, Uint256::from(5u64));
}

#[test]
fn test_degenerate_geometry() {
    let curve = secp256k1();
    let g = curve.gen_point();

    // adding a point to itself shares the x-coordinate
    assert_eq!(g.add(g), Err(ArithError::DegenerateGeometry));

    // a zero scalar has no representable multiple
    assert_eq!(g.mul(Uint256::zero()), Err(ArithError::DegenerateGeometry));
}

#[test]
fn test_double_vertical_tangent() {
    // on y^2 = x^3 over the field of 7, the point (0, 0) has 2y = 0
    let curve = EllipticCurve {
        modulo: Uint256::from(7u64),
        a: Uint256::zero(),
        b: Uint256::zero(),
        gen_x: Uint256::zero(),
        gen_y: Uint256::zero(),
    };
    let point = curve.create_point(Uint256::zero(), Uint256::zero());
    assert_eq!(point.double(), Err(ArithError::DivideByZero));
}

#[test]
fn test_from_str_unsupported() {
    assert_eq!(Uint256::from_str("42"), Err(ArithError::UnsupportedOperation));
    assert_eq!(Uint512::from_str("42"), Err(ArithError::UnsupportedOperation));
}

#[test]
fn test_scalar_mul_small() {
    // 2G by scalar multiplication matches doubling
    let curve = secp256k1();
    let g = curve.gen_point();
    assert_eq!(g.mul(Uint256::from(1u64)).unwrap(), g);
    assert_eq!(g.mul(Uint256::from(2u64)).unwrap(), g.double().unwrap());

    // 3G = 2G + G
    let g2 = g.double().unwrap();
    assert_eq!(g.mul(Uint256::from(3u64)).unwrap(), g2.add(g).unwrap());

    // 4G = double(2G)
    assert_eq!(g.mul(Uint256::from(4u64)).unwrap(), g2.double().unwrap());
}

#[test]
fn test_mul_u64_carry() {
    let cases: [(u64, u64); 5] = [
        (0, 0),
        (1, u64::max_value()),
        (u64::max_value(), u64::max_value()),
        (0xdeadbeefcafebabe, 0x123456789abcdef0),
        (0x8000000000000000, 2),
    ];
    for (a, b) in cases {
        let (low, carry) = mul_u64_carry(a, b);
        let expected = (a as u128) * (b as u128);
        assert_eq!((low as u128) + ((carry as u128) << 64), expected);
    }
}

#[test]
fn test_lo_hi() {
    assert_eq!(lo(0xdeadbeefcafebabe), 0xcafebabe);
    assert_eq!(hi(0xdeadbeefcafebabe), 0xdeadbeef);
    assert_eq!(lo(7), 7);
    assert_eq!(hi(7), 0);
}

#[test]
fn test_item_or_zero() {
    let limbs: [u64; 3] = [5, 6, 7];
    assert_eq!(item_or_zero(&limbs, 0), 5);
    assert_eq!(item_or_zero(&limbs, 2), 7);
    assert_eq!(item_or_zero(&limbs, 3), 0);
}

#[test]
fn test_bn_raw_cmp() {
    let a: [u64; 2] = [1, 2];
    let b: [u64; 3] = [1, 2, 0];
    let c: [u64; 3] = [0, 2, 1];

    assert_eq!(bn_raw_cmp(&a, &b), std::cmp::Ordering::Equal);
    assert_eq!(bn_raw_cmp(&a, &c), std::cmp::Ordering::Less);
    assert_eq!(bn_raw_cmp(&c, &a), std::cmp::Ordering::Greater);
}

#[test]
fn test_int512_div_signs() {
    // truncation toward zero, sign by the rule of signs
    assert_eq!(
        Int512::from(10i64).div(Int512::from(-3i64)).unwrap(),
        Int512::from(-3i64)
    );
    assert_eq!(
        Int512::from(-10i64).div(Int512::from(-3i64)).unwrap(),
        Int512::from(3i64)
    );
    assert_eq!(
        Int512::from(-10i64).div(Int512::from(3i64)).unwrap(),
        Int512::from(-3i64)
    );
}

#[test]
fn test_to_hex() {
    assert_eq!(
        Uint256::from(0x1234abcdu64).to_hex(),
        format!("0x{}000000001234abcd", "0".repeat(48))
    );
    assert_eq!(Uint256::zero().to_hex(), format!("0x{}", "0".repeat(64)));
    assert_eq!(
        secp256k1().modulo().to_hex(),
        "0xfffffffffffffffffffffffffffffffffffffffffffffffffffffffefffffc2f"
    );
    assert_eq!(
        Uint512::from(0xdeadbeefu64).to_hex(),
        format!("0x{}00000000deadbeef", "0".repeat(112))
    );
}

#[test]
fn test_default_is_zero() {
    assert_eq!(Uint256::default(), Uint256::zero());
    assert_eq!(Uint512::default(), Uint512::zero());
}

#[test]
fn test_point_to_hex() {
    let curve = secp256k1();
    let p = curve.create_point(Uint256::from(1u64), Uint256::from(2u64));
    assert_eq!(
        p.to_hex(),
        format!("(0x{}1, 0x{}2)", "0".repeat(63), "0".repeat(63))
    );

    let g = curve.gen_point();
    assert_eq!(
        g.to_hex(),
        format!("({}, {})", g.x().to_hex(), g.y().to_hex())
    );
}

#[test]
fn test_int512_neg_magnitude() {
    let x = Int512::from(42i64);
    assert_eq!(x.neg(), Int512::from(-42i64));
    assert_eq!(x.neg().magnitude(), Uint512::from(42u64));
    assert!(x.positive());
    assert!(x.neg().negative());

    // negated zero still equals zero
    assert_eq!(Int512::zero().neg(), Int512::zero());
}
