use think_bayes::frac::Frac;
use think_bayes::utils::{odds, probability, probability2};
use think_bayes::Error;

#[test]
fn frac_new_reduces() {
    let f = Frac::new(4, 8);
    assert_eq!(f.num(), 1);
    assert_eq!(f.den(), 2);
}

#[test]
fn frac_add_exact() {
    let a = Frac::new(1, 6);
    let b = Frac::new(1, 3);
    assert_eq!(a.checked_add(&b).unwrap(), Frac::new(1, 2));
}

#[test]
fn frac_add_overflow() {
    let a = Frac::new(u64::MAX, 1);
    let b = Frac::new(1, 2);
    assert!(a.checked_add(&b).is_none());
}

#[test]
fn frac_mul_exact() {
    let a = Frac::new(2, 3);
    let b = Frac::new(3, 4);
    assert_eq!(a.checked_mul(&b).unwrap(), Frac::new(1, 2));
}

#[test]
fn frac_div_exact() {
    let a = Frac::new(1, 2);
    let b = Frac::new(1, 4);
    assert_eq!(a.checked_div(&b).unwrap(), Frac::from_u64(2));
    assert!(a.checked_div(&Frac::zero()).is_none());
}

#[test]
fn frac_order() {
    let a = Frac::new(1, 3);
    let b = Frac::new(2, 5);
    assert!(a.lt(&b));
    assert!(a.le(&b));
    assert!(b.le(&b));
    assert!(!b.lt(&b));
    assert!(!b.le(&a));
}

#[test]
fn frac_zero_one() {
    assert!(Frac::zero().is_zero());
    assert!(!Frac::one().is_zero());
    assert_eq!(Frac::one(), Frac::new(7, 7));
}

#[test]
fn frac_insert_then_scale() {
    // a mass inserted at zero, incremented by a and scaled by b is exactly a*b
    let a = Frac::new(1, 3);
    let b = Frac::new(3, 5);
    let m = Frac::zero().checked_add(&a).unwrap().checked_mul(&b).unwrap();
    assert_eq!(m, Frac::new(1, 5));
}

#[test]
fn odds_to_big() {
    assert_eq!(odds(&Frac::from_u64(2)), Err(Error::Range));
}

#[test]
fn odds_to_just_big() {
    assert_eq!(odds(&Frac::one()), Err(Error::Domain));
}

#[test]
fn odds_in_the_mid() {
    assert_eq!(odds(&Frac::new(1, 2)).unwrap(), Frac::one());
}

#[test]
fn odds_in_the_mid2() {
    assert_eq!(odds(&Frac::new(1, 4)).unwrap(), Frac::new(1, 3));
}

#[test]
fn probability_in_the_mid() {
    assert_eq!(probability(&Frac::new(1, 2)).unwrap(), Frac::new(1, 3));
}

#[test]
fn probability_in_the_mid2() {
    assert_eq!(probability(&Frac::new(1, 4)).unwrap(), Frac::new(1, 5));
}

#[test]
fn probability_overflow() {
    assert_eq!(probability(&Frac::new(u64::MAX, 1)), Err(Error::Overflow));
}

#[test]
fn probability2_in_the_mid() {
    assert_eq!(probability2(1, 2).unwrap(), Frac::new(1, 3));
}

#[test]
fn probability2_in_the_mid2() {
    assert_eq!(probability2(1, 4).unwrap(), Frac::new(1, 5));
}

#[test]
fn probability2_undefined() {
    assert_eq!(probability2(0, 0), Err(Error::Domain));
}

#[test]
fn odds_probability_roundtrip() {
    let cases = [
        Frac::zero(),
        Frac::new(1, 4),
        Frac::new(1, 2),
        Frac::new(3, 4),
        Frac::new(99, 100),
        Frac::new(123, 1000),
    ];
    for p in cases.iter() {
        let o = odds(p).unwrap();
        assert_eq!(probability(&o).unwrap(), *p);
    }
}
