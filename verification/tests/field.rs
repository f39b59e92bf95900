use sumcheck_arguments::field::{same_scalars, Scalar};

const ORDER_LIMBS: [u64; 4] = [0x5812631a5cf5d3ed, 0x14def9dea2f79cd6, 0, 0x1000000000000000];

fn from_limbs(limbs: [u64; 4]) -> Scalar {
    Scalar::from_limbs(limbs).unwrap()
}

#[test]
fn limbs_round_trip() {
    let limbs = [7, 8, 9, 10];
    assert_eq!(from_limbs(limbs).to_limbs(), limbs);
    assert_eq!(Scalar::from_u64(77).to_limbs(), [77, 0, 0, 0]);
    assert_eq!(Scalar::zero().to_limbs(), [0, 0, 0, 0]);
    assert_eq!(Scalar::one().to_limbs(), [1, 0, 0, 0]);
}

#[test]
fn limbs_at_and_above_the_order_are_refused() {
    assert!(Scalar::from_limbs(ORDER_LIMBS).is_none());
    assert!(Scalar::from_limbs([0, 0, 0, 0x1000000000000001]).is_none());
    assert!(Scalar::from_limbs([0, 0, 1, 0x1000000000000000]).is_none());
    assert!(Scalar::from_limbs([0, 0x14def9dea2f79cd7, 0, 0x1000000000000000]).is_none());
    assert!(Scalar::from_limbs([u64::MAX; 4]).is_none());
    let below = [ORDER_LIMBS[0] - 1, ORDER_LIMBS[1], ORDER_LIMBS[2], ORDER_LIMBS[3]];
    assert!(Scalar::from_limbs(below).is_some());
    assert!(Scalar::from_limbs([u64::MAX, u64::MAX, u64::MAX, 0x0fffffffffffffff]).is_some());
}

#[test]
fn addition_wraps_at_the_order() {
    let a = Scalar::from_u64(5);
    let b = Scalar::from_u64(9);
    assert_eq!(a.add(&b), Scalar::from_u64(14));
    let top = from_limbs([ORDER_LIMBS[0] - 1, ORDER_LIMBS[1], 0, ORDER_LIMBS[3]]);
    assert_eq!(top.add(&Scalar::one()), Scalar::zero());
    assert_eq!(top.add(&b), Scalar::from_u64(8));
    assert_eq!(
        Scalar::from_u64(u64::MAX).add(&Scalar::one()).to_limbs(),
        [0, 1, 0, 0]
    );
}

#[test]
fn subtraction_wraps_below_zero() {
    let a = Scalar::from_u64(5);
    let b = Scalar::from_u64(9);
    assert_eq!(b.sub(&a), Scalar::from_u64(4));
    assert_eq!(
        a.sub(&b).to_limbs(),
        [ORDER_LIMBS[0] - 4, ORDER_LIMBS[1], 0, ORDER_LIMBS[3]]
    );
    assert_eq!(a.sub(&a), Scalar::zero());
}

#[test]
fn negation_is_the_order_minus_the_value() {
    assert_eq!(
        Scalar::one().neg().to_limbs(),
        [0x5812631a5cf5d3ec, 0x14def9dea2f79cd6, 0, 0x1000000000000000]
    );
    assert_eq!(Scalar::zero().neg(), Scalar::zero());
    let a = Scalar::from_u64(123456);
    assert_eq!(a.neg().add(&a), Scalar::zero());
}

#[test]
fn multiplication_reduces() {
    assert_eq!(
        Scalar::from_u64(6).mul(&Scalar::from_u64(7)),
        Scalar::from_u64(42)
    );
    assert_eq!(
        Scalar::from_u64(12345678901234567890)
            .mul(&Scalar::from_u64(9876543210987654321))
            .to_limbs(),
        [0x1d8f42cf7165332, 0x5bbb5edc654c105d, 0, 0]
    );
    assert_eq!(
        Scalar::from_u64(u64::MAX).mul(&Scalar::from_u64(u64::MAX)).to_limbs(),
        [1, 0xfffffffffffffffe, 0, 0]
    );
    // (-1) * (-1) = 1
    let minus_one = Scalar::one().neg();
    assert_eq!(minus_one.mul(&minus_one), Scalar::one());
    assert_eq!(Scalar::from_u64(99).mul(&Scalar::zero()), Scalar::zero());
}

#[test]
fn inverse_of_small_numbers() {
    assert!(Scalar::zero().inverse().is_none());
    assert_eq!(Scalar::one().inverse(), Some(Scalar::one()));
    assert_eq!(
        Scalar::from_u64(2).inverse().unwrap().to_limbs(),
        [0x2c09318d2e7ae9f7, 0xa6f7cef517bce6b, 0, 0x800000000000000]
    );
    assert_eq!(
        Scalar::from_u64(3).inverse().unwrap().to_limbs(),
        [0x900c4211934e8d49, 0xb894a6946ca51339, 0xaaaaaaaaaaaaaaaa, 0xaaaaaaaaaaaaaaa]
    );
    for v in [2u64, 3, 5, 1 << 40, u64::MAX] {
        let x = Scalar::from_u64(v);
        assert_eq!(x.mul(&x.inverse().unwrap()), Scalar::one());
    }
}

#[test]
fn encoding_is_little_endian() {
    let mut expected = vec![0u8; 32];
    expected[0] = 1;
    assert_eq!(Scalar::one().to_bytes(), expected);
    let x = from_limbs([0x0807060504030201, 0x100f0e0d0c0b0a09, 0x1817161514131211, 0x0f1f1e1d1c1b1a19]);
    let bytes = x.to_bytes();
    assert_eq!(bytes.len(), 32);
    for i in 0..31 {
        assert_eq!(bytes[i], i as u8 + 1);
    }
    assert_eq!(bytes[31], 0x0f);
}

#[test]
fn bytes_are_read_little_endian_and_reduced() {
    assert_eq!(Scalar::from_le_bytes_mod_order(&[]), Scalar::zero());
    assert_eq!(Scalar::from_le_bytes_mod_order(&[42]), Scalar::from_u64(42));
    assert_eq!(
        Scalar::from_le_bytes_mod_order(&[0x34, 0x12]),
        Scalar::from_u64(0x1234)
    );
    assert_eq!(
        Scalar::from_le_bytes_mod_order(&[0xff; 64]).to_limbs(),
        [0xa40611e3449c0f00, 0xd00e1ba768859347, 0xceec73d217f5be65, 0x399411b7c309a3d]
    );
    let mut two_to_256 = vec![0u8; 33];
    two_to_256[32] = 1;
    assert_eq!(
        Scalar::from_le_bytes_mod_order(&two_to_256).to_limbs(),
        [0xd6ec31748d98951d, 0xc6ef5bf4737dcf70, 0xfffffffffffffffe, 0xfffffffffffffff]
    );
    let counting: Vec<u8> = (0..64).collect();
    assert_eq!(
        Scalar::from_le_bytes_mod_order(&counting).to_limbs(),
        [0xa0372df082623c7a, 0xcce628540db62350, 0x7a932112c3d46159, 0x572d0e474b5e0da]
    );
    // the order itself reads as zero
    let mut order = Vec::new();
    for limb in ORDER_LIMBS {
        order.extend_from_slice(&limb.to_le_bytes());
    }
    assert_eq!(Scalar::from_le_bytes_mod_order(&order), Scalar::zero());
}

#[test]
fn encoding_and_reading_round_trip() {
    let x = Scalar::from_u64(987654321).mul(&Scalar::from_u64(u64::MAX));
    assert_eq!(Scalar::from_le_bytes_mod_order(&x.to_bytes()), x);
}

#[test]
fn small_values_are_told_apart() {
    assert_eq!(Scalar::from_u64(17).as_u64(), Some(17));
    assert_eq!(Scalar::from_u64(u64::MAX).as_u64(), Some(u64::MAX));
    assert_eq!(from_limbs([0, 1, 0, 0]).as_u64(), None);
    assert_eq!(Scalar::one().neg().as_u64(), None);
    assert!(Scalar::zero().is_zero());
    assert!(!Scalar::one().is_zero());
    assert!(!from_limbs([0, 0, 0, 1]).is_zero());
}

#[test]
fn equality_is_by_value() {
    let a = Scalar::from_u64(10).sub(&Scalar::from_u64(3));
    assert!(a.equals(&Scalar::from_u64(7)));
    assert!(!a.equals(&Scalar::from_u64(8)));
    assert!(same_scalars(&[a, a], &[Scalar::from_u64(7), Scalar::from_u64(7)]));
    assert!(!same_scalars(&[a, a], &[Scalar::from_u64(7)]));
    assert!(!same_scalars(&[a, a], &[Scalar::from_u64(7), Scalar::from_u64(6)]));
    assert!(same_scalars(&[], &[]));
}
