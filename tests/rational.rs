use linear_programming::rational::{FractionError, Rational};

fn frac(p: i32, q: i32) -> Rational {
    Rational::new(p, q).unwrap()
}

fn parts(r: Rational) -> (i32, i32) {
    (r.numerator(), r.denominator())
}

#[test]
fn simplify_test() {
    let mut q = frac(9, 18);
    assert_eq!(parts(q), (9, 18));
    q.simplify();
    assert_eq!(parts(q), (1, 2));
    assert!(q == frac(1, 2));
}

#[test]
fn simplify_twice_changes_nothing() {
    for (p, q) in [(9, 18), (-12, 8), (7, -21), (0, 5), (-4, -8), (i32::MIN, 2), (13, 1)] {
        let mut once = frac(p, q);
        once.simplify();
        let mut twice = once;
        twice.simplify();
        assert_eq!(parts(once), parts(twice));
    }
}

#[test]
fn simplify_keeps_signs_and_zero() {
    let mut a = frac(-4, -8);
    a.simplify();
    assert_eq!(parts(a), (-1, -2));
    let mut b = frac(0, 5);
    b.simplify();
    assert_eq!(parts(b), (0, 1));
    let mut c = frac(6, -4);
    c.simplify();
    assert_eq!(parts(c), (3, -2));
}

#[test]
fn operations() {
    let q1 = frac(1, 6);
    let q2 = frac(1, 2);
    assert_eq!(parts(q1.checked_add(&q2).unwrap()), (2, 3));
    assert_eq!(parts(q1.checked_sub(&q2).unwrap()), (-1, 3));
    assert_eq!(parts(q1.checked_mul(&q2).unwrap()), (1, 12));
    assert!(q1.checked_add(&q2).unwrap() == frac(2, 3));
    assert!(q1.checked_sub(&q2).unwrap() == frac(-1, 3));
    assert!(q1.checked_mul(&q2).unwrap() == frac(1, 12));
}

#[test]
fn comparisons() {
    let q1 = frac(1, 6);
    let q2 = frac(1, 2);
    assert!(q2 > q1);
    assert!(q1 < q2);
    let q1 = frac(1, 6);
    let q2 = frac(9, 54);
    assert!(q2 == q1);
}

#[test]
fn comparisons_with_negative_denominators() {
    assert!(frac(1, -2) < frac(1, 3));
    assert!(frac(-1, -2) > frac(1, 3));
    assert!(frac(2, -4) == frac(-1, 2));
}

#[test]
fn zero_denominator_is_refused() {
    assert_eq!(Rational::new(3, 0).unwrap_err(), FractionError::InvalidFraction);
}

#[test]
fn division() {
    let q = frac(1, 6).checked_div(&frac(1, 2)).unwrap();
    assert_eq!(parts(q), (1, 3));
    let q = frac(3, 4).checked_div(&frac(-3, 8)).unwrap();
    assert_eq!(parts(q), (2, -1));
}

#[test]
fn division_by_near_zero_is_undefined() {
    let x = frac(5, 7);
    assert_eq!(x.checked_div(&frac(0, 3)).unwrap_err(), FractionError::UndefinedDivision);
    assert_eq!(x.checked_div(&frac(1, 20000)).unwrap_err(), FractionError::UndefinedDivision);
    assert_eq!(x.checked_div(&frac(-1, 10001)).unwrap_err(), FractionError::UndefinedDivision);
    assert!(x.checked_div(&frac(1, 9999)).is_ok());
}

#[test]
fn equality_is_not_transitive_near_the_tolerance() {
    let a = frac(0, 1);
    let b = frac(1, 15000);
    let c = frac(2, 15000);
    assert!(a == b);
    assert!(b == c);
    assert!(a != c);
    assert!(c > a);
}

#[test]
fn overflow_is_reported() {
    let big = Rational::from_integer(i32::MAX);
    assert!(big.checked_add(&Rational::from_integer(1)).is_none());
    assert!(big.checked_mul(&Rational::from_integer(2)).is_none());
    assert!(Rational::from_integer(i32::MIN).checked_sub(&Rational::from_integer(1)).is_none());
    assert_eq!(
        big.checked_div(&frac(1, 2)).unwrap_err(),
        FractionError::Overflow
    );
    let r = big.checked_add(&Rational::from_integer(-1)).unwrap();
    assert_eq!(parts(r), (i32::MAX - 1, 1));
}

#[test]
fn arithmetic_reduces_large_intermediates() {
    let a = frac(1, 65536);
    let b = frac(65536, 3);
    assert_eq!(parts(a.checked_mul(&b).unwrap()), (1, 3));
}
