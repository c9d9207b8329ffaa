use pyinrs::{ArithError, Int, ParseIntError};

fn big(s: &str) -> Int {
    Int::from_str(s).unwrap()
}

#[test]
fn parse_and_format_round_trip() {
    for s in [
        "0",
        "1",
        "-1",
        "42",
        "-123456789012345678901234567890",
        "1000000000000000000",
        "999999999999999999",
        "18446744073709551617",
    ] {
        let x = big(s);
        assert_eq!(x.to_string(), s);
        assert_eq!(Int::from_str(&x.to_string()).unwrap(), x);
    }
}

#[test]
fn parse_accepts_signs_and_leading_zeros() {
    assert_eq!(big("+42"), big("42"));
    assert_eq!(big("-0"), Int::new());
    assert_eq!(big("007"), Int::from_i64(7));
}

#[test]
fn parse_rejects_malformed_literals() {
    for s in ["", "+", "-", "12a", " 12", "12 ", "1.5", "--3", "0x10"] {
        assert_eq!(Int::from_str(s), Err(ParseIntError));
    }
}

#[test]
fn big_addition_scenario() {
    let a = big("18446744073709551617");
    let sum = a.add(&a);
    assert_eq!(sum.to_string(), "36893488147419103234");
}

#[test]
fn addition_and_subtraction_carry() {
    let a = big("999999999999999999");
    let one = Int::from_i64(1);
    assert_eq!(a.add(&one).to_string(), "1000000000000000000");
    assert_eq!(big("1000000000000000000").sub(&one), a);
    assert_eq!(big("5").sub(&big("8")), Int::from_i64(-3));
    assert_eq!(big("-5").add(&big("5")), Int::new());
}

#[test]
fn multiplication_schoolbook() {
    assert_eq!(
        big("123456789012345678901234567890").mul(&big("987654321098765432109876543210")).to_string(),
        "121932631137021795226185032733622923332237463801111263526900"
    );
    assert_eq!(big("-4").mul(&big("5")), Int::from_i64(-20));
    assert_eq!(big("-4").mul(&big("-5")), Int::from_i64(20));
    assert_eq!(big("0").mul(&big("12345")), Int::new());
}

#[test]
fn divmod_sign_scenarios() {
    let cases = [
        ("-5", "-2", "2", "-1"),
        ("-5", "2", "-2", "-1"),
        ("5", "-2", "-2", "1"),
        ("5", "2", "2", "1"),
    ];
    for (a, b, q, r) in cases {
        let (qq, rr) = big(a).divmod(&big(b)).unwrap();
        assert_eq!(qq, big(q));
        assert_eq!(rr, big(r));
    }
}

#[test]
fn divmod_invariant_holds() {
    let a = big("123456789012345678901234567890123");
    let b = big("-97531");
    let (q, r) = a.divmod(&b).unwrap();
    assert_eq!(q.mul(&b).add(&r), a);
    let zero = Int::new();
    assert!(r.le(&zero) == a.le(&zero) || r == zero);
}

#[test]
fn divmod_by_zero_is_refused() {
    assert_eq!(big("7").divmod(&Int::new()), Err(ArithError::DivideByZero));
    assert_eq!(big("7").div(&Int::new()), Err(ArithError::DivideByZero));
    assert_eq!(big("7").rem(&Int::new()), Err(ArithError::DivideByZero));
}

#[test]
fn divmod_small_dividend() {
    let (q, r) = big("3").divmod(&big("10")).unwrap();
    assert_eq!(q, Int::new());
    assert_eq!(r, big("3"));
}

#[test]
fn factorial_of_factorial_scenario() {
    let f = Int::from_i64(5).factorial().unwrap().factorial().unwrap();
    assert_eq!(
        f.to_string(),
        "6689502913449127057588118054090372586752746333138029810295671352301633557244962989366874165271984981308157637893214090552534408589408121859898481114389650005964960521256960000000000000000000000000000"
    );
}

#[test]
fn factorial_basics_and_domain() {
    assert_eq!(Int::new().factorial().unwrap(), Int::from_i64(1));
    assert_eq!(Int::from_i64(5).factorial().unwrap(), Int::from_i64(120));
    assert_eq!(Int::from_i64(-1).factorial(), Err(ArithError::Domain));
}

#[test]
fn mersenne_prime_boundary() {
    assert!(big("2147483647").is_prime());
}

#[test]
fn primality_small_cases() {
    assert!(!Int::new().is_prime());
    assert!(!Int::from_i64(1).is_prime());
    assert!(Int::from_i64(2).is_prime());
    assert!(Int::from_i64(3).is_prime());
    assert!(!Int::from_i64(4).is_prime());
    assert!(Int::from_i64(97).is_prime());
    assert!(!Int::from_i64(91).is_prime());
    assert!(!Int::from_i64(-7).is_prime());
}

#[test]
fn next_prime_from_zero() {
    assert_eq!(Int::new().next_prime(), Int::from_i64(2));
}

#[test]
fn next_prime_steps() {
    assert_eq!(Int::from_i64(2).next_prime(), Int::from_i64(3));
    assert_eq!(Int::from_i64(3).next_prime(), Int::from_i64(5));
    assert_eq!(Int::from_i64(89).next_prime(), Int::from_i64(97));
}

#[test]
fn sqrt_window() {
    assert_eq!(Int::sqrt(&Int::new()).unwrap(), Int::new());
    assert_eq!(Int::sqrt(&Int::from_i64(99)).unwrap(), Int::from_i64(9));
    assert_eq!(Int::sqrt(&big("100000000000000000000")).unwrap(), big("10000000000"));
    let n = big("123456789123456789");
    let s = Int::sqrt(&n).unwrap();
    let s1 = s.add(&Int::from_i64(1));
    assert!(s.mul(&s).le(&n));
    assert!(n.lt(&s1.mul(&s1)));
    assert_eq!(Int::sqrt(&Int::from_i64(-1)), Err(ArithError::Domain));
}

#[test]
fn pow_basics() {
    let two = Int::from_i64(2);
    assert_eq!(
        Int::pow(&two, &Int::from_i64(100)).unwrap().to_string(),
        "1267650600228229401496703205376"
    );
    assert_eq!(Int::pow(&big("-2"), &big("3")).unwrap(), Int::from_i64(-8));
    assert_eq!(Int::pow(&big("5"), &big("0")).unwrap(), Int::from_i64(1));
    assert_eq!(Int::pow(&big("5"), &big("-2")).unwrap(), Int::new());
    assert_eq!(Int::pow(&big("1"), &big("-5")).unwrap(), Int::from_i64(1));
    assert_eq!(Int::pow(&big("-1"), &big("-5")).unwrap(), Int::from_i64(-1));
    assert_eq!(Int::pow(&Int::new(), &big("-1")), Err(ArithError::Domain));
}

#[test]
fn pow_mod_matches_pow() {
    let b = Int::from_i64(3);
    let e = Int::from_i64(100);
    let m = Int::from_i64(7);
    let direct = Int::pow(&b, &e).unwrap().rem(&m).unwrap();
    let fast = Int::pow_mod(&b, &e, &m).unwrap();
    assert_eq!(fast, direct);
    assert_eq!(fast, Int::from_i64(4));
    let neg = Int::pow_mod(&big("-3"), &big("3"), &big("5")).unwrap();
    assert_eq!(neg, Int::pow(&big("-3"), &big("3")).unwrap().rem(&big("5")).unwrap());
}

#[test]
fn log_rounds_down() {
    assert_eq!(Int::log(&big("1000"), &big("10")).unwrap(), Int::from_i64(3));
    assert_eq!(Int::log(&big("999"), &big("10")).unwrap(), Int::from_i64(2));
    assert_eq!(Int::log(&big("1"), &big("2")).unwrap(), Int::new());
    assert_eq!(Int::log(&big("1024"), &big("2")).unwrap(), Int::from_i64(10));
    assert_eq!(Int::log(&Int::new(), &big("10")), Err(ArithError::Domain));
    assert_eq!(Int::log(&big("8"), &big("1")), Err(ArithError::Domain));
}

#[test]
fn gcd_and_lcm() {
    assert_eq!(Int::gcd(&big("12"), &big("18")), Int::from_i64(6));
    assert_eq!(Int::gcd(&big("-12"), &big("18")), Int::from_i64(6));
    assert_eq!(Int::gcd(&big("7"), &Int::new()), Int::from_i64(7));
    assert_eq!(Int::gcd(&Int::new(), &Int::new()), Int::new());
    assert_eq!(
        Int::gcd(&big("12345678901234567890"), &big("987654321098765432")),
        Int::from_i64(2)
    );
    assert_eq!(Int::lcm(&big("4"), &big("6")), Int::from_i64(12));
    assert_eq!(Int::lcm(&big("4"), &Int::new()), Int::new());
    // the product of gcd and lcm gives back the product's magnitude
    let a = big("-36");
    let b = big("90");
    let g = Int::gcd(&a, &b);
    let l = Int::lcm(&a, &b);
    assert_eq!(g.mul(&l), a.mul(&b).abs());
}

#[test]
fn fibonacci_fast_doubling() {
    let expect = [0i64, 1, 1, 2, 3, 5, 8, 13, 21, 34, 55];
    for (i, v) in expect.iter().enumerate() {
        assert_eq!(Int::fibonacci(&Int::from_i64(i as i64)), Int::from_i64(*v));
    }
    assert_eq!(
        Int::fibonacci(&Int::from_i64(100)).to_string(),
        "354224848179261915075"
    );
    // the recurrence on concrete values
    let f12 = Int::fibonacci(&Int::from_i64(12));
    let f11 = Int::fibonacci(&Int::from_i64(11));
    let f10 = Int::fibonacci(&Int::from_i64(10));
    assert_eq!(f12, f11.add(&f10));
}

#[test]
fn ackermann_small_levels() {
    let a = |m: i64, n: i64| Int::ackermann(&Int::from_i64(m), &Int::from_i64(n));
    assert_eq!(a(0, 5), Int::from_i64(6));
    assert_eq!(a(1, 5), Int::from_i64(7));
    assert_eq!(a(2, 5), Int::from_i64(13));
    assert_eq!(a(3, 3), Int::from_i64(61));
    assert_eq!(a(4, 0), Int::from_i64(13));
}

#[test]
fn hyperoperation_levels() {
    let h = |n: i64, a: i64, b: i64| {
        Int::hyperoperation(&Int::from_i64(n), &Int::from_i64(a), &Int::from_i64(b))
    };
    assert_eq!(h(0, 9, 9), Int::from_i64(10));
    assert_eq!(h(1, 2, 3), Int::from_i64(5));
    assert_eq!(h(2, 2, 3), Int::from_i64(6));
    assert_eq!(h(3, 2, 3), Int::from_i64(8));
    assert_eq!(h(4, 2, 3), Int::from_i64(16));
    assert_eq!(h(4, 3, 2), Int::from_i64(27));
    assert_eq!(h(7, 0, 4), Int::from_i64(1));
    assert_eq!(h(7, 0, 5), Int::new());
    assert_eq!(h(9, 1, 9), Int::from_i64(1));
    assert_eq!(h(9, 9, 1), Int::from_i64(9));
    assert_eq!(h(9, 2, 2), Int::from_i64(4));
}

#[test]
fn queries_and_in_place_steps() {
    let mut x = Int::from_i64(-1);
    assert!(x.is_negative() && x.is_odd() && !x.is_even());
    x.inc();
    assert!(x.is_zero() && x.is_even());
    x.inc();
    assert!(x.is_positive() && x.is_odd());
    x.dec();
    x.dec();
    assert_eq!(x, Int::from_i64(-1));
    let mut y = big("999999999999999999");
    y.inc();
    assert_eq!(y, big("1000000000000000000"));
}

#[test]
fn digits_counts_decimal_places() {
    assert_eq!(Int::new().digits(), 0);
    assert_eq!(Int::from_i64(7).digits(), 1);
    assert_eq!(big("-12345").digits(), 5);
    assert_eq!(big("1000000000000000000").digits(), 19);
}

#[test]
fn conversion_to_primitive() {
    assert_eq!(big("-123456789012345678901234").to_number(), -123456789012345678901234i128);
    assert_eq!(Int::from_i128(170141183460469231731687303715884105727).to_string(),
        "170141183460469231731687303715884105727");
    assert_eq!(Int::from_i128(i128::MIN).to_string(),
        "-170141183460469231731687303715884105728");
}

#[test]
fn comparisons_are_total() {
    let values = ["-100000000000000000000", "-3", "0", "2", "99999999999999999999"];
    for (i, a) in values.iter().enumerate() {
        for (j, b) in values.iter().enumerate() {
            assert_eq!(big(a).lt(&big(b)), i < j);
            assert_eq!(big(a).le(&big(b)), i <= j);
            assert_eq!(big(a) == big(b), i == j);
        }
    }
}

#[test]
fn absolute_value_and_negation() {
    assert_eq!(big("-5").abs(), big("5"));
    assert_eq!(big("5").abs(), big("5"));
    assert_eq!(Int::new().abs(), Int::new());
    assert_eq!(big("5").neg(), big("-5"));
    assert_eq!(Int::new().neg(), Int::new());
}

#[test]
fn random_has_requested_digit_count() {
    for digits in [1usize, 2, 17, 18, 19, 40] {
        let r = Int::random(digits);
        assert!(r.is_positive());
        assert_eq!(r.to_string().len(), digits);
    }
}
