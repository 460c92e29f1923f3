use news_bayes::bignum::BigNat;

#[test]
fn from_u64_and_zero() {
    assert!(BigNat::from_u64(0).is_zero());
    assert!(!BigNat::from_u64(1).is_zero());
}

#[test]
fn times_crosses_limb_boundary() {
    let a = BigNat::from_u64(u64::MAX).times(2);
    let b = BigNat::from_u64(u64::MAX).times(2);
    let c = BigNat::from_u64(u64::MAX);
    assert!(!a.lt(&b));
    assert!(!b.lt(&a));
    assert!(c.lt(&a));
    assert!(!a.lt(&c));
}

#[test]
fn times_zero_is_zero() {
    assert!(BigNat::from_u64(u64::MAX).times(u64::MAX).times(0).is_zero());
}

#[test]
fn lt_compares_exact_products() {
    // 3 * 5 * 7 = 105 against 104 and 106, built limb by limb.
    let p = BigNat::from_u64(3).times(5).times(7);
    assert!(BigNat::from_u64(104).lt(&p));
    assert!(p.lt(&BigNat::from_u64(106)));
    assert!(!p.lt(&BigNat::from_u64(105)));
    assert!(!BigNat::from_u64(105).lt(&p));
}
