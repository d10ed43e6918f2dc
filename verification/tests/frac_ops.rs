use contour::frac::{gcd_u128, norm128, Frac};

fn q(num: i64, den: i64) -> Frac {
    Frac { num, den }
}

#[test]
fn gcd_of_small_numbers() {
    assert_eq!(gcd_u128(12, 18), 6);
    assert_eq!(gcd_u128(0, 7), 7);
    assert_eq!(gcd_u128(7, 0), 7);
    assert_eq!(gcd_u128(1, 1), 1);
}

#[test]
fn norm_reduces_and_fixes_sign() {
    assert_eq!(norm128(2, 4), Some(q(1, 2)));
    assert_eq!(norm128(-2, 4), Some(q(-1, 2)));
    assert_eq!(norm128(2, -4), Some(q(-1, 2)));
    assert_eq!(norm128(-2, -4), Some(q(1, 2)));
    assert_eq!(norm128(0, 5), Some(q(0, 1)));
}

#[test]
fn addition_is_exact_and_reduced() {
    let r = q(1, 2).checked_add(q(1, 3)).unwrap();
    assert_eq!(r, q(5, 6));
    let r2 = q(1, 4).checked_add(q(1, 4)).unwrap();
    assert_eq!(r2, q(1, 2));
}

#[test]
fn multiplication_is_exact_and_reduced() {
    let r = q(2, 4).checked_mul(q(2, 1)).unwrap();
    assert_eq!(r, q(1, 1));
    let r2 = q(3, 5).checked_mul(q(5, 3)).unwrap();
    assert_eq!(r2, q(1, 1));
}

#[test]
fn subtraction_and_division_are_exact() {
    let r = q(1, 2).checked_sub(q(3, 4)).unwrap();
    assert_eq!(r, q(-1, 4));
    let d = q(1, 2).checked_div(q(3, 4)).unwrap();
    assert_eq!(d, q(2, 3));
}

#[test]
fn comparisons_follow_values() {
    assert!(q(1, 3).lt(q(1, 2)));
    assert!(!q(1, 2).lt(q(1, 2)));
    assert!(q(1, 2).le(q(2, 4)));
    assert!(q(1, 2).eq_val(q(2, 4)));
    assert!(!q(1, 2).eq_val(q(2, 5)));
}

#[test]
fn from_half_is_reduced() {
    assert_eq!(Frac::from_half(4), q(2, 1));
    assert_eq!(Frac::from_half(5), q(5, 2));
    assert_eq!(Frac::from_half(0), q(0, 1));
}
