use symalg::gcd::{gcd_of, magnitude};
use symalg::rational::Rational;

#[test]
fn new_reduces_to_lowest_terms() {
    let r = Rational::new(2, 4);
    assert_eq!(r.numer(), 1);
    assert_eq!(r.denom(), 2);
    assert_eq!(Rational::new(6, 3), Rational::from_integer(2));
}

#[test]
fn new_keeps_the_denominator_positive() {
    let r = Rational::new(3, -6);
    assert_eq!(r.numer(), -1);
    assert_eq!(r.denom(), 2);
    assert_eq!(Rational::new(-3, -6), Rational::new(1, 2));
}

#[test]
fn new_of_zero_numerator_is_zero() {
    assert_eq!(Rational::new(0, 7), Rational::zero());
    assert_eq!(Rational::new(0, -7), Rational::zero());
}

#[test]
fn from_integer_has_denominator_one() {
    let r = Rational::from_integer(-5);
    assert_eq!(r.numer(), -5);
    assert_eq!(r.denom(), 1);
}

#[test]
fn zero_and_one_are_recognised() {
    assert!(Rational::zero().is_zero());
    assert!(!Rational::one().is_zero());
    assert!(Rational::one().is_one());
    assert!(!Rational::zero().is_one());
    assert!(!Rational::new(1, 2).is_one());
    assert!(Rational::from_integer(-1).is_minus_one());
    assert!(!Rational::one().is_minus_one());
}

#[test]
fn plus_adds_over_the_least_common_denominator() {
    assert_eq!(Rational::new(1, 2).plus(Rational::new(1, 3)), Rational::new(5, 6));
    assert_eq!(Rational::new(1, 6).plus(Rational::new(1, 3)), Rational::new(1, 2));
    assert_eq!(Rational::new(1, 4).plus(Rational::new(-1, 4)), Rational::zero());
    assert_eq!(Rational::new(3, 4) + Rational::new(1, 4), Rational::one());
}

#[test]
fn times_multiplies_and_reduces() {
    assert_eq!(Rational::new(2, 3).times(Rational::new(3, 4)), Rational::new(1, 2));
    assert_eq!(Rational::new(-2, 3).times(Rational::new(3, 2)), Rational::from_integer(-1));
    assert_eq!(Rational::new(5, 7).times(Rational::zero()), Rational::zero());
    assert_eq!(Rational::new(2, 3) * Rational::from_integer(3), Rational::from_integer(2));
}

#[test]
fn times_cancels_before_it_multiplies() {
    let big = Rational::new(i32::MAX, 2);
    assert_eq!(big.times(Rational::new(2, i32::MAX)), Rational::one());
}

#[test]
fn recip_swaps_and_keeps_the_sign_on_top() {
    assert_eq!(Rational::new(2, 3).recip(), Rational::new(3, 2));
    let r = Rational::new(-2, 3).recip();
    assert_eq!(r.numer(), -3);
    assert_eq!(r.denom(), 2);
    assert_eq!(Rational::from_integer(4).recip(), Rational::new(1, 4));
}

#[test]
fn to_string_omits_a_denominator_of_one() {
    assert_eq!(Rational::new(3, 4).to_string(), "3/4");
    assert_eq!(Rational::from_integer(5).to_string(), "5");
    assert_eq!(Rational::new(-7, 2).to_string(), "-7/2");
    assert_eq!(Rational::from_integer(-12).to_string(), "-12");
    assert_eq!(Rational::zero().to_string(), "0");
}

#[test]
fn gcd_of_small_numbers() {
    assert_eq!(gcd_of(12, 18), 6);
    assert_eq!(gcd_of(18, 12), 6);
    assert_eq!(gcd_of(7, 13), 1);
    assert_eq!(gcd_of(0, 5), 5);
    assert_eq!(gcd_of(5, 0), 5);
    assert_eq!(gcd_of(0, 0), 0);
    assert_eq!(gcd_of(2147483648, 6), 2);
}

#[test]
fn magnitude_covers_the_least_integer() {
    assert_eq!(magnitude(5), 5);
    assert_eq!(magnitude(-5), 5);
    assert_eq!(magnitude(0), 0);
    assert_eq!(magnitude(i32::MIN), 2147483648);
}

#[test]
fn checked_plus_is_none_beyond_32_bits() {
    let big = Rational::from_integer(i32::MAX);
    assert_eq!(big.checked_plus(Rational::one()), None);
    assert!(!big.sum_defined(Rational::one()));
    assert_eq!(big.checked_plus(Rational::from_integer(-1)), Some(Rational::from_integer(i32::MAX - 1)));
    assert_eq!(Rational::new(1, 65536).checked_plus(Rational::new(1, 65537)), None);
    assert_eq!(
        Rational::new(1, 65536).checked_plus(Rational::new(1, 65536)),
        Some(Rational::new(1, 32768))
    );
    assert_eq!(Rational::new(1, 2).checked_plus(Rational::new(1, 3)), Some(Rational::new(5, 6)));
    assert_eq!(
        Rational::from_integer(i32::MIN).checked_plus(Rational::zero()),
        Some(Rational::from_integer(i32::MIN))
    );
}

#[test]
fn checked_times_is_none_beyond_32_bits() {
    let big = Rational::from_integer(65536);
    assert_eq!(big.checked_times(big), None);
    assert!(!big.product_defined(big));
    assert_eq!(big.checked_times(Rational::new(1, 65536)), Some(Rational::one()));
    assert_eq!(Rational::new(1, 65536).checked_times(Rational::new(1, 65536)), None);
    assert_eq!(Rational::from_integer(i32::MIN).checked_times(Rational::from_integer(-1)), None);
    assert_eq!(
        Rational::from_integer(i32::MIN).checked_times(Rational::one()),
        Some(Rational::from_integer(i32::MIN))
    );
    assert_eq!(
        Rational::from_integer(-32768).checked_times(Rational::from_integer(65536)),
        Some(Rational::from_integer(i32::MIN))
    );
    assert_eq!(Rational::from_integer(32768).checked_times(Rational::from_integer(65536)), None);
}

#[test]
fn checked_recip_is_none_for_zero_and_the_least_numerator() {
    assert_eq!(Rational::zero().checked_recip(), None);
    assert_eq!(Rational::from_integer(i32::MIN).checked_recip(), None);
    assert_eq!(Rational::new(-2, 3).checked_recip(), Some(Rational::new(-3, 2)));
}

#[test]
fn well_formed_means_lowest_terms_and_positive_denominator() {
    assert!(Rational::new(1, 2).is_well_formed());
    assert!(Rational::from_integer(i32::MIN).is_well_formed());
    assert!(Rational::zero().is_well_formed());
    assert!(!Rational { numer: 2, denom: 4 }.is_well_formed());
    assert!(!Rational { numer: 1, denom: 0 }.is_well_formed());
    assert!(!Rational { numer: 1, denom: -2 }.is_well_formed());
    assert!(!Rational { numer: 0, denom: 2 }.is_well_formed());
}
