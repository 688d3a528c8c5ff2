use simplex::scalar::Scalar;

fn whole(n: i64) -> Scalar {
    Scalar::from_integer(n)
}

#[test]
fn fractions_are_kept_in_lowest_terms() {
    let half = Scalar::new(2, 4);
    assert_eq!(half.numerator(), 1);
    assert_eq!(half.denominator(), 2);
    assert_eq!(half, Scalar::new(1, 2));
    assert_eq!(Scalar::new(3, -6), Scalar::new(-1, 2));
    assert_eq!(Scalar::new(0, 5), Scalar::zero());
    assert_eq!(Scalar::new(7, 1), whole(7));
}

#[test]
fn zero_denominator_is_undefined() {
    let nothing = Scalar::new(5, 0);
    assert!(!nothing.is_defined());
    assert_eq!(nothing, Scalar::undefined());
    assert_eq!(nothing.numerator(), 0);
    assert_eq!(nothing.denominator(), 0);
}

#[test]
fn exact_arithmetic() {
    let third = Scalar::new(1, 3);
    let sixth = Scalar::new(1, 6);
    assert_eq!(third.add(&sixth), Scalar::new(1, 2));
    assert_eq!(third.sub(&sixth), sixth);
    assert_eq!(third.mul(&sixth), Scalar::new(1, 18));
    assert_eq!(third.div(&sixth), whole(2));
    assert_eq!(third.neg(), Scalar::new(-1, 3));
    assert_eq!(whole(30).div(&whole(-4)), Scalar::new(-15, 2));
}

#[test]
fn division_by_zero_is_undefined() {
    assert!(!whole(1).div(&Scalar::zero()).is_defined());
    assert!(!Scalar::zero().div(&Scalar::zero()).is_defined());
}

#[test]
fn undefined_is_handed_on() {
    let nothing = Scalar::undefined();
    assert!(!nothing.add(&whole(1)).is_defined());
    assert!(!whole(1).sub(&nothing).is_defined());
    assert!(!nothing.mul(&Scalar::zero()).is_defined());
    assert!(!whole(1).div(&nothing).is_defined());
    assert!(!nothing.neg().is_defined());
}

#[test]
fn results_beyond_the_limit_are_undefined() {
    let greatest = whole(i64::MAX);
    assert!(greatest.is_defined());
    assert!(!greatest.add(&whole(1)).is_defined());
    assert!(!greatest.mul(&whole(2)).is_defined());
    assert!(!Scalar::new(1, i64::MAX).div(&whole(2)).is_defined());
    assert!(!whole(i64::MIN).is_defined());
    assert_eq!(greatest.neg().numerator(), -i64::MAX);
    assert_eq!(greatest.sub(&greatest), Scalar::zero());
    // the parts of the exact result are reduced before they are measured
    let wide = Scalar::new(i64::MAX, 2);
    assert_eq!(wide.mul(&whole(2)), greatest);
}

#[test]
fn signs_and_kinds() {
    assert!(whole(3).is_positive());
    assert!(!whole(3).is_negative());
    assert!(whole(-3).is_negative());
    assert!(Scalar::zero().is_zero());
    assert!(!Scalar::zero().is_positive());
    assert!(!Scalar::undefined().is_zero());
    assert!(!Scalar::undefined().is_positive());
    assert!(!Scalar::undefined().is_negative());
    assert!(whole(3).is_integer());
    assert!(!Scalar::new(3, 2).is_integer());
    assert!(!Scalar::undefined().is_integer());
    assert_eq!(whole(-3).magnitude(), whole(3));
    assert_eq!(Scalar::new(3, 2).magnitude(), Scalar::new(3, 2));
}

#[test]
fn order_of_values() {
    assert!(Scalar::new(1, 3).lt(&Scalar::new(1, 2)));
    assert!(!Scalar::new(1, 2).lt(&Scalar::new(1, 2)));
    assert!(whole(-200).lt(&whole(-100)));
    assert!(!Scalar::undefined().lt(&whole(1)));
    assert!(!whole(1).lt(&Scalar::undefined()));
    assert!(Scalar::undefined().ranks_below(&whole(-5)));
    assert!(!whole(-5).ranks_below(&Scalar::undefined()));
    assert!(!Scalar::undefined().ranks_below(&Scalar::undefined()));
    assert!(whole(1).ranks_below(&whole(2)));
    assert!(!whole(2).ranks_below(&whole(2)));
}

#[test]
fn values_as_text() {
    assert_eq!(whole(25).to_string(), "25");
    assert_eq!(whole(-8).to_string(), "-8");
    assert_eq!(Scalar::zero().to_string(), "0");
    assert_eq!(Scalar::new(5, 2).to_string(), "5/2");
    assert_eq!(Scalar::new(-1, 3).to_string(), "-1/3");
    assert_eq!(Scalar::undefined().to_string(), "NaN");
    assert_eq!(whole(i64::MAX).to_string(), "9223372036854775807");
}

#[test]
fn sum_and_difference_cancel() {
    let a = Scalar::new(7, 12);
    let b = Scalar::new(-5, 18);
    assert_eq!(a.add(&b).sub(&b), a);
    assert_eq!(a.mul(&whole(2)).div(&whole(2)), a);
    assert_eq!(a.neg().neg(), a);
}
