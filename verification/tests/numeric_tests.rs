use keypad_calc::error::CalcError;
use keypad_calc::numeric::{exponent_checked, factorial_checked, trim_decimal};

#[test]
fn factorials() {
    assert_eq!(factorial_checked(0), Ok(1));
    assert_eq!(factorial_checked(5), Ok(120));
    assert_eq!(factorial_checked(20), Ok(2432902008176640000));
    assert_eq!(factorial_checked(21), Err(CalcError::Overflow));
    assert_eq!(factorial_checked(i64::MAX), Err(CalcError::Overflow));
    assert_eq!(factorial_checked(-1), Err(CalcError::NegFact));
}

#[test]
fn exponents() {
    assert_eq!(exponent_checked(0), Ok(0));
    assert_eq!(exponent_checked(12), Ok(12));
    assert_eq!(exponent_checked(13), Err(CalcError::ExpTooLarge));
    assert_eq!(exponent_checked(-2), Err(CalcError::NegExp));
}

#[test]
fn trimming() {
    assert_eq!(trim_decimal("2.500000"), "2.5");
    assert_eq!(trim_decimal("3.000000"), "3");
    assert_eq!(trim_decimal("-1.250000"), "-1.25");
    assert_eq!(trim_decimal("0.000000"), "0");
    assert_eq!(trim_decimal("100"), "100");
    assert_eq!(trim_decimal("0.000000001"), "0.000000001");
    assert_eq!(trim_decimal(""), "");
}

#[test]
fn trimming_twice_changes_nothing() {
    for s in ["2.500000", "10.0", "7.", "0.050"] {
        let once = trim_decimal(s);
        assert_eq!(trim_decimal(&once), once);
    }
}
