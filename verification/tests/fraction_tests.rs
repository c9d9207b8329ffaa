use pyinrs::Fraction;
use pyinrs::ParseFractionError;

#[test]
fn ratios_are_reduced_and_normalised() {
    let h = Fraction::from_ratio(2, 4);
    assert_eq!(h.numerator(), 1);
    assert_eq!(h.denominator(), 2);
    let n = Fraction::from_ratio(1, -2);
    assert_eq!(n.numerator(), -1);
    assert_eq!(n.denominator(), 2);
    let z = Fraction::from_ratio(0, 9);
    assert_eq!(z, Fraction::new());
    assert_eq!(Fraction::from_integer(-7).numerator(), -7);
}

#[test]
fn fraction_arithmetic() {
    let a = Fraction::from_ratio(1, 2);
    let b = Fraction::from_ratio(1, 3);
    assert_eq!(a.add(&b), Fraction::from_ratio(5, 6));
    assert_eq!(a.sub(&b), Fraction::from_ratio(1, 6));
    assert_eq!(a.mul(&b), Fraction::from_ratio(1, 6));
    assert_eq!(a.div(&b), Fraction::from_ratio(3, 2));
    assert_eq!(a.neg(), Fraction::from_ratio(-1, 2));
    assert_eq!(a.abs(), a);
    assert_eq!(a.neg().abs(), a);
}

#[test]
fn fraction_remainder() {
    // 7/2 mod 3/2 leaves 1/2
    let a = Fraction::from_ratio(7, 2);
    let b = Fraction::from_ratio(3, 2);
    assert_eq!(a.rem(&b), Fraction::from_ratio(1, 2));
    // the remainder keeps the dividend's sign
    assert_eq!(a.neg().rem(&b), Fraction::from_ratio(-1, 2));
}

#[test]
fn fraction_comparison() {
    let a = Fraction::from_ratio(1, 2);
    let b = Fraction::from_ratio(2, 3);
    assert_eq!(a.cmp(&b), core::cmp::Ordering::Less);
    assert_eq!(b.cmp(&a), core::cmp::Ordering::Greater);
    assert_eq!(a.cmp(&Fraction::from_ratio(3, 6)), core::cmp::Ordering::Equal);
    assert_eq!(
        Fraction::from_ratio(-1, 2).cmp(&Fraction::from_ratio(1, 3)),
        core::cmp::Ordering::Less
    );
}

#[test]
fn fraction_gcd_and_lcm() {
    let a = Fraction::from_ratio(1, 2);
    let b = Fraction::from_ratio(1, 3);
    // gcd(1/2, 1/3) == 1/6 and lcm(1/2, 1/3) == 1
    assert_eq!(Fraction::gcd(a, b), Fraction::from_ratio(1, 6));
    assert_eq!(Fraction::lcm(a, b), Fraction::from_integer(1));
    assert_eq!(Fraction::lcm(Fraction::new(), b), Fraction::new());
    let c = Fraction::from_ratio(4, 3);
    let d = Fraction::from_ratio(2, 9);
    // gcd(4/3, 2/9) == 2/9, lcm == 4/3
    assert_eq!(Fraction::gcd(c, d), Fraction::from_ratio(2, 9));
    assert_eq!(Fraction::lcm(c, d), Fraction::from_ratio(4, 3));
}

#[test]
fn fraction_parsing() {
    assert_eq!(Fraction::from_str("3/4"), Ok(Fraction::from_ratio(3, 4)));
    assert_eq!(Fraction::from_str(" -6/8 "), Ok(Fraction::from_ratio(-3, 4)));
    assert_eq!(Fraction::from_str("5"), Ok(Fraction::from_integer(5)));
    assert_eq!(Fraction::from_str("2/-4"), Ok(Fraction::from_ratio(-1, 2)));
    assert_eq!(Fraction::from_str("1/0"), Err(ParseFractionError));
    assert_eq!(Fraction::from_str(""), Err(ParseFractionError));
    assert_eq!(Fraction::from_str("a/b"), Err(ParseFractionError));
    assert_eq!(Fraction::from_str("1/2/3"), Err(ParseFractionError));
}
