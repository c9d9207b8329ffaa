//! Fraction provides rational arithmetic over fixed-width integers, with the
//! representation kept reduced and the denominator kept positive.

use vstd::prelude::*;
use vstd::math::abs;
use crate::arith::{gcd_nat, divides, lemma_gcd_divides, lemma_gcd_pos};
use crate::detail;
use crate::fmt::{digit_of, all_digits, digits_value, parse_value};
use crate::strtype::{first_match_idx, is_match_at, trim_chars, lemma_first_match_found,
    lemma_first_match_none};
use crate::strutil::str_chars_vec;

verus! {

broadcast use vstd::arithmetic::mul::group_mul_basics;

/// A common divisor of two naturals divides their greatest common divisor.
proof fn lemma_gcd_greatest(a: nat, b: nat, c: int)
    requires
        c > 0,
        divides(c, a as int),
        divides(c, b as int),
    ensures
        divides(c, gcd_nat(a, b) as int),
    decreases b,
{
    if b == 0 {
    } else {
        let k1 = choose|k: int| a as int == #[trigger] (c * k);
        let k2 = choose|k: int| b as int == #[trigger] (c * k);
        vstd::arithmetic::div_mod::lemma_fundamental_div_mod(a as int, b as int);
        let q = (a as int) / (b as int);
        assert((a % b) as int == c * (k1 - k2 * q)) by (nonlinear_arith)
            requires
                a as int == (b as int) * q + (a % b),
                a as int == c * k1,
                b as int == c * k2;
        lemma_gcd_greatest(b, a % b, c);
    }
}

/// A positive divisor of a positive number is no larger than it.
proof fn lemma_divides_le(c: int, n: int)
    requires
        c > 0,
        n > 0,
        divides(c, n),
    ensures
        c <= n,
{
    let k = choose|k: int| n == #[trigger] (c * k);
    assert(c <= n) by (nonlinear_arith)
        requires n == c * k, c > 0, n > 0;
}

/// Dividing two numbers by their gcd leaves them coprime.
proof fn lemma_reduced_coprime(a: nat, b: nat)
    requires
        a != 0 || b != 0,
    ensures
        gcd_nat((a as int / (gcd_nat(a, b) as int)) as nat,
            (b as int / (gcd_nat(a, b) as int)) as nat) == 1,
{
    let g = gcd_nat(a, b) as int;
    lemma_gcd_pos(a, b);
    lemma_gcd_divides(a, b);
    let ka = choose|k: int| a as int == #[trigger] (g * k);
    let kb = choose|k: int| b as int == #[trigger] (g * k);
    assert(a as int == ka * g + 0) by (nonlinear_arith)
        requires a as int == g * ka;
    assert(b as int == kb * g + 0) by (nonlinear_arith)
        requires b as int == g * kb;
    vstd::arithmetic::div_mod::lemma_fundamental_div_mod_converse_div(a as int, g, ka, 0);
    vstd::arithmetic::div_mod::lemma_fundamental_div_mod_converse_div(b as int, g, kb, 0);
    assert(ka >= 0) by (nonlinear_arith)
        requires a as int == g * ka, g > 0, a >= 0;
    assert(kb >= 0) by (nonlinear_arith)
        requires b as int == g * kb, g > 0, b >= 0;
    let d = gcd_nat(ka as nat, kb as nat) as int;
    assert(ka != 0 || kb != 0) by (nonlinear_arith)
        requires a as int == g * ka, b as int == g * kb, a != 0 || b != 0;
    lemma_gcd_pos(ka as nat, kb as nat);
    if d != 1 {
        lemma_gcd_divides(ka as nat, kb as nat);
        let ma = choose|k: int| ka == #[trigger] (d * k);
        let mb = choose|k: int| kb == #[trigger] (d * k);
        assert(a as int == (d * g) * ma) by (nonlinear_arith)
            requires a as int == g * ka, ka == d * ma;
        assert(b as int == (d * g) * mb) by (nonlinear_arith)
            requires b as int == g * kb, kb == d * mb;
        assert(d * g > 0) by (nonlinear_arith)
            requires d > 0, g > 0;
        lemma_gcd_greatest(a, b, d * g);
        lemma_divides_le(d * g, g);
        assert(false) by (nonlinear_arith)
            requires d * g <= g, d >= 2, g > 0;
    }
}

/// The gcd of anything with one is one.
proof fn lemma_gcd_one(a: nat)
    ensures
        gcd_nat(a, 1) == 1,
{
    vstd::arithmetic::div_mod::lemma_fundamental_div_mod(a as int, 1);
    assert(a % 1 == 0);
    assert(gcd_nat(a, 1) == gcd_nat(1, 0));
}

/// The error returned when a string is not a fraction literal.
#[derive(Debug, Clone, Copy, PartialEq, Eq, Structural)]
pub struct ParseFractionError;

/// Fraction provides support for rational number arithmetic; the value is a
/// reduced numerator over a positive denominator.
#[derive(Debug, Clone, Copy, PartialEq, Eq, Structural, Hash)]
pub struct Fraction {
    num: i128,
    den: i128,
}

impl View for Fraction {
    type V = (int, int);

    closed spec fn view(&self) -> (int, int) {
        (self.num as int, self.den as int)
    }
}

impl Fraction {
    /// The representation invariant: positive denominator, fully reduced.
    pub open spec fn wf(&self) -> bool {
        &&& self@.1 >= 1
        &&& gcd_nat(abs(self@.0), self@.1 as nat) == 1
    }

    /// The pair `(n, d)` denotes the same rational as self.
    pub open spec fn represents(&self, n: int, d: int) -> bool {
        self@.0 * d == n * self@.1
    }

    /// Construct a new zero fraction.
    pub fn new() -> (r: Self)
        ensures
            r.wf(),
            r@ == (0int, 1int),
    {
        proof {
            lemma_gcd_one(0);
        }
        Fraction { num: 0, den: 1 }
    }

    /// Construct the fraction denoting a whole number.
    pub fn from_integer(value: i128) -> (r: Self)
        ensures
            r.wf(),
            r@ == (value as int, 1int),
    {
        proof {
            lemma_gcd_one(abs(value as int));
        }
        Fraction { num: value, den: 1 }
    }

    /// Construct the reduced fraction `num / den`; the denominator must not
    /// be zero.
    pub fn from_ratio(num: i128, den: i128) -> (r: Self)
        requires
            den != 0,
            num != i128::MIN,
            den != i128::MIN,
        ensures
            r.wf(),
            r.represents(num as int, den as int),
    {
        let (mut n, mut d) = (num, den);
        if d < 0 {
            n = -n;
            d = -d;
        }
        let na = if n < 0 {
            -n
        } else {
            n
        };
        let g = detail::gcd(na, d);
        proof {
            lemma_gcd_pos(na as nat, d as nat);
            lemma_gcd_divides(na as nat, d as nat);
            let ka0 = choose|k: int| na as int == #[trigger] ((g as int) * k);
            let kd0 = choose|k: int| d as int == #[trigger] ((g as int) * k);
            assert(na as int == ka0 * (g as int) + 0) by (nonlinear_arith)
                requires na as int == (g as int) * ka0;
            assert(d as int == kd0 * (g as int) + 0) by (nonlinear_arith)
                requires d as int == (g as int) * kd0;
            vstd::arithmetic::div_mod::lemma_fundamental_div_mod_converse_div(
                na as int, g as int, ka0, 0);
            vstd::arithmetic::div_mod::lemma_fundamental_div_mod_converse_div(
                d as int, g as int, kd0, 0);
            lemma_reduced_coprime(na as nat, d as nat);
            assert(d as int / (g as int) >= 1) by (nonlinear_arith)
                requires d as int == (g as int) * (d as int / (g as int)), d >= 1, g >= 1;
        }
        let q = na / g;
        let rd = d / g;
        let rn = if n < 0 {
            -q
        } else {
            q
        };
        proof {
            // the reduced pair still denotes num / den
            let gi = g as int;
            let ka = na as int / gi;
            let kd = d as int / gi;
            assert(abs(rn as int) == ka);
            assert((rn as int) * (d as int) == (n as int) * (rd as int)) by (nonlinear_arith)
                requires
                    na as int == gi * ka,
                    d as int == gi * kd,
                    rd as int == kd,
                    (n >= 0 ==> rn as int == ka && n as int == na as int),
                    (n < 0 ==> rn as int == -ka && n as int == -(na as int));
            if den < 0 {
                assert((rn as int) * (den as int) == (num as int) * (rd as int))
                    by (nonlinear_arith)
                    requires
                        (rn as int) * (d as int) == (n as int) * (rd as int),
                        d as int == -(den as int),
                        n as int == -(num as int);
            }
        }
        Fraction { num: rn, den: rd }
    }

    /// Return the absolute value of the fraction.
    pub fn abs(&self) -> (r: Self)
        requires
            self.wf(),
            self@.0 != i128::MIN as int,
        ensures
            r.wf(),
            r@.0 == abs(self@.0),
            r@.1 == self@.1,
    {
        let num = if self.num < 0 {
            -self.num
        } else {
            self.num
        };
        Fraction { num, den: self.den }
    }

    /// Get the numerator of self.
    pub fn numerator(&self) -> (r: i128)
        ensures
            r == self@.0,
    {
        self.num
    }

    /// Get the denominator of self.
    pub fn denominator(&self) -> (r: i128)
        ensures
            r == self@.1,
    {
        self.den
    }

    /// Return the negation of self.
    pub fn neg(&self) -> (r: Self)
        requires
            self.wf(),
            self@.0 != i128::MIN as int,
        ensures
            r.wf(),
            r@.0 == -self@.0,
            r@.1 == self@.1,
    {
        proof {
            assert(abs(-self@.0) == abs(self@.0));
        }
        Fraction { num: -self.num, den: self.den }
    }

    /// Compare two fractions by value.
    pub fn cmp(&self, other: &Self) -> (r: core::cmp::Ordering)
        requires
            self.wf(),
            other.wf(),
            -(i128::MAX as int) <= self@.0 * other@.1 <= i128::MAX as int,
            -(i128::MAX as int) <= other@.0 * self@.1 <= i128::MAX as int,
        ensures
            r is Less <==> self@.0 * other@.1 < other@.0 * self@.1,
            r is Greater <==> self@.0 * other@.1 > other@.0 * self@.1,
            r is Equal <==> self@.0 * other@.1 == other@.0 * self@.1,
    {
        let p1 = self.num * other.den;
        let p2 = other.num * self.den;
        if p1 < p2 {
            core::cmp::Ordering::Less
        } else if p1 > p2 {
            core::cmp::Ordering::Greater
        } else {
            core::cmp::Ordering::Equal
        }
    }

    /// Add two fractions.
    pub fn add(&self, rhs: &Self) -> (r: Self)
        requires
            self.wf(),
            rhs.wf(),
            -(i128::MAX as int) <= self@.0 * rhs@.1 <= i128::MAX as int,
            -(i128::MAX as int) <= self@.1 * rhs@.0 <= i128::MAX as int,
            -(i128::MAX as int) <= self@.0 * rhs@.1 + self@.1 * rhs@.0 <= i128::MAX as int,
            self@.1 * rhs@.1 <= i128::MAX as int,
        ensures
            r.wf(),
            r.represents(self@.0 * rhs@.1 + self@.1 * rhs@.0, self@.1 * rhs@.1),
    {
        proof {
            assert(self@.1 * rhs@.1 >= 1) by (nonlinear_arith)
                requires self@.1 >= 1, rhs@.1 >= 1;
        }
        Fraction::from_ratio(self.num * rhs.den + self.den * rhs.num, self.den * rhs.den)
    }

    /// Subtract `rhs` from self.
    pub fn sub(&self, rhs: &Self) -> (r: Self)
        requires
            self.wf(),
            rhs.wf(),
            -(i128::MAX as int) <= self@.0 * rhs@.1 <= i128::MAX as int,
            -(i128::MAX as int) <= self@.1 * rhs@.0 <= i128::MAX as int,
            -(i128::MAX as int) <= self@.0 * rhs@.1 - self@.1 * rhs@.0 <= i128::MAX as int,
            self@.1 * rhs@.1 <= i128::MAX as int,
        ensures
            r.wf(),
            r.represents(self@.0 * rhs@.1 - self@.1 * rhs@.0, self@.1 * rhs@.1),
    {
        proof {
            assert(self@.1 * rhs@.1 >= 1) by (nonlinear_arith)
                requires self@.1 >= 1, rhs@.1 >= 1;
        }
        Fraction::from_ratio(self.num * rhs.den - self.den * rhs.num, self.den * rhs.den)
    }

    /// Multiply two fractions.
    pub fn mul(&self, rhs: &Self) -> (r: Self)
        requires
            self.wf(),
            rhs.wf(),
            -(i128::MAX as int) <= self@.0 * rhs@.0 <= i128::MAX as int,
            self@.1 * rhs@.1 <= i128::MAX as int,
        ensures
            r.wf(),
            r.represents(self@.0 * rhs@.0, self@.1 * rhs@.1),
    {
        proof {
            assert(self@.1 * rhs@.1 >= 1) by (nonlinear_arith)
                requires self@.1 >= 1, rhs@.1 >= 1;
        }
        Fraction::from_ratio(self.num * rhs.num, self.den * rhs.den)
    }

    /// Divide self by `rhs`, whose value must not be zero.
    pub fn div(&self, rhs: &Self) -> (r: Self)
        requires
            self.wf(),
            rhs.wf(),
            rhs@.0 != 0,
            -(i128::MAX as int) <= self@.0 * rhs@.1 <= i128::MAX as int,
            -(i128::MAX as int) <= self@.1 * rhs@.0 <= i128::MAX as int,
        ensures
            r.wf(),
            r.represents(self@.0 * rhs@.1, self@.1 * rhs@.0),
    {
        proof {
            assert(self@.1 * rhs@.0 != 0) by (nonlinear_arith)
                requires self@.1 >= 1, rhs@.0 != 0;
        }
        Fraction::from_ratio(self.num * rhs.den, self.den * rhs.num)
    }

    /// The remainder of self divided by `rhs`, whose value must not be zero.
    pub fn rem(&self, rhs: &Self) -> (r: Self)
        requires
            self.wf(),
            rhs.wf(),
            rhs@.0 != 0,
            -(i128::MAX as int) <= self@.0 * rhs@.1 <= i128::MAX as int,
            -(i128::MAX as int) <= rhs@.0 * self@.1 <= i128::MAX as int,
            self@.1 * rhs@.1 <= i128::MAX as int,
        ensures
            r.wf(),
            r.represents(crate::arith::tmod(self@.0 * rhs@.1, rhs@.0 * self@.1),
                self@.1 * rhs@.1),
    {
        proof {
            assert(self@.1 * rhs@.1 >= 1) by (nonlinear_arith)
                requires self@.1 >= 1, rhs@.1 >= 1;
            assert(rhs@.0 * self@.1 != 0) by (nonlinear_arith)
                requires self@.1 >= 1, rhs@.0 != 0;
            crate::arith::lemma_tdiv_tmod(self@.0 * rhs@.1, rhs@.0 * self@.1);
        }
        let p1 = self.num * rhs.den;
        let p2 = rhs.num * self.den;
        let a1 = if p1 < 0 {
            -p1
        } else {
            p1
        };
        let a2 = if p2 < 0 {
            -p2
        } else {
            p2
        };
        let m_abs = a1 % a2;
        let m = if p1 < 0 {
            -m_abs
        } else {
            m_abs
        };
        proof {
            let t = crate::arith::tmod(p1 as int, p2 as int);
            assert(abs(t) == abs(p1 as int) % abs(p2 as int));
            assert(m as int == t);
        }
        Fraction::from_ratio(m, self.den * rhs.den)
    }

    /// Calculate the greatest common divisor of two fractions: the gcd of
    /// the cross numerators over the common denominator.
    pub fn gcd(a: Self, b: Self) -> (r: Self)
        requires
            a.wf(),
            b.wf(),
            -(i128::MAX as int) <= a@.0 * b@.1 <= i128::MAX as int,
            -(i128::MAX as int) <= b@.0 * a@.1 <= i128::MAX as int,
            a@.1 * b@.1 <= i128::MAX as int,
        ensures
            r.wf(),
            r.represents(gcd_nat(abs(a@.0 * b@.1), abs(b@.0 * a@.1)) as int, a@.1 * b@.1),
    {
        let p1 = a.num * b.den;
        let p2 = b.num * a.den;
        let g = detail::gcd(
            if p1 < 0 {
                -p1
            } else {
                p1
            },
            if p2 < 0 {
                -p2
            } else {
                p2
            },
        );
        proof {
            assert(a@.1 * b@.1 >= 1) by (nonlinear_arith)
                requires a@.1 >= 1, b@.1 >= 1;
        }
        Fraction::from_ratio(g, a.den * b.den)
    }

    /// Calculate the least common multiple of two fractions: zero if either
    /// is zero, else the product of the numerators over the gcd of the cross
    /// numerators.
    pub fn lcm(a: Self, b: Self) -> (r: Self)
        requires
            a.wf(),
            b.wf(),
            -(i128::MAX as int) <= a@.0 * b@.1 <= i128::MAX as int,
            -(i128::MAX as int) <= b@.0 * a@.1 <= i128::MAX as int,
            -(i128::MAX as int) <= a@.0 * b@.0 <= i128::MAX as int,
        ensures
            r.wf(),
            a@.0 == 0 || b@.0 == 0 ==> r@ == (0int, 1int),
            a@.0 != 0 && b@.0 != 0 ==> r.represents(abs(a@.0 * b@.0) as int,
                gcd_nat(abs(a@.0 * b@.1), abs(b@.0 * a@.1)) as int),
    {
        if a.num == 0 || b.num == 0 {
            proof {
                assert(a@.0 * b@.0 == 0) by (nonlinear_arith)
                    requires a@.0 == 0 || b@.0 == 0;
            }
            return Fraction::new();
        }
        let p1 = a.num * b.den;
        let p2 = b.num * a.den;
        proof {
            assert(p1 != 0) by (nonlinear_arith)
                requires a@.0 != 0, b@.1 >= 1, p1 as int == a@.0 * b@.1;
        }
        let g = detail::gcd(
            if p1 < 0 {
                -p1
            } else {
                p1
            },
            if p2 < 0 {
                -p2
            } else {
                p2
            },
        );
        let prod = a.num * b.num;
        let pa = if prod < 0 {
            -prod
        } else {
            prod
        };
        proof {
            crate::arith::lemma_gcd_pos(abs(a@.0 * b@.1), abs(b@.0 * a@.1));
        }
        Fraction::from_ratio(pa, g)
    }
}


/// A digit string denotes a non-negative number, and prefixes denote no more
/// than the whole.
proof fn lemma_digits_value_monotone(t: Seq<char>, j: int)
    requires
        all_digits(t),
        0 <= j <= t.len(),
    ensures
        digits_value(t) >= digits_value(t.take(j)) >= 0,
    decreases t.len() - j,
{
    if j == t.len() {
        assert(t.take(j) =~= t);
        lemma_digits_value_nonneg(t);
    } else {
        lemma_digits_value_monotone(t, j + 1);
        assert(t.take(j + 1).drop_last() =~= t.take(j));
        assert(digit_of(t.take(j + 1).last()) >= 0) by {
            assert(t.take(j + 1).last() == t[j]);
        }
        lemma_digits_value_nonneg(t.take(j));
        assert(digits_value(t.take(j + 1)) >= digits_value(t.take(j))) by (nonlinear_arith)
            requires
                digits_value(t.take(j + 1)) == digits_value(t.take(j)) * 10 + digit_of(t.take(
                    j + 1).last()),
                digit_of(t.take(j + 1).last()) >= 0,
                digits_value(t.take(j)) >= 0;
    }
}

/// A digit string denotes a non-negative number.
proof fn lemma_digits_value_nonneg(t: Seq<char>)
    requires
        all_digits(t),
    ensures
        digits_value(t) >= 0,
    decreases t.len(),
{
    if t.len() > 0 {
        assert(all_digits(t.drop_last()));
        lemma_digits_value_nonneg(t.drop_last());
        assert(digit_of(t.last()) >= 0);
        assert(digits_value(t.drop_last()) * 10 >= 0) by (nonlinear_arith)
            requires digits_value(t.drop_last()) >= 0;
    }
}

/// Parse a decimal integer literal from a character range into a fixed-width
/// value; values beyond the symmetric 128-bit range are refused.
fn parse_i128_range(cs: &Vec<char>, from: usize, to: usize) -> (r: Option<i128>)
    requires
        from <= to <= cs@.len(),
    ensures
        ({
            let t = cs@.subrange(from as int, to as int);
            match r {
                Some(x) => parse_value(t) == Some(x as int) && -(i128::MAX as int) <= x,
                None => parse_value(t) is None || (parse_value(t) matches Some(v)
                    && !(-(i128::MAX as int) <= v <= i128::MAX as int)),
            }
        }),
{
    let ghost t = cs@.subrange(from as int, to as int);
    let mut i = from;
    let mut negative = false;
    if i < to && (cs[i] == '-' || cs[i] == '+') {
        negative = cs[i] == '-';
        i = i + 1;
    }
    if i >= to {
        // empty string or a bare sign
        return None;
    }
    let ghost ds = if t.len() > 0 && (t[0] == '-' || t[0] == '+') {
        t.skip(1)
    } else {
        t
    };
    proof {
        if t[0] == '-' || t[0] == '+' {
            assert(ds =~= cs@.subrange(from + 1, to as int));
        } else {
            assert(ds =~= cs@.subrange(from as int, to as int));
        }
    }
    let start = i;
    let mut acc: i128 = 0;
    while i < to
        invariant
            start <= i <= to <= cs@.len(),
            from <= start,
            start == from || start == from + 1,
            ds =~= cs@.subrange(start as int, to as int),
            acc >= 0,
            all_digits(ds.take(i - start)),
            acc as int == digits_value(ds.take(i - start)),
        decreases to - i,
    {
        let c = cs[i];
        let d = match crate::fmt::char_digit_exec(c) {
            Some(d) => d,
            None => {
                proof {
                    assert(ds[i - start] == cs@[i as int]);
                    assert(digit_of(ds[i - start]) < 0);
                    assert(!all_digits(ds));
                }
                return None;
            },
        };
        if acc > (i128::MAX - d as i128) / 10 {
            proof {
                // the prefix already exceeds the representable range, and
                // longer digit strings only denote more
                let pre = ds.take(i - start + 1);
                assert(pre.drop_last() =~= ds.take(i - start));
                assert(pre.last() == ds[i - start]);
                assert(digits_value(pre) == acc * 10 + d);
                assert(acc * 10 + d > i128::MAX as int) by (nonlinear_arith)
                    requires
                        acc > (i128::MAX as int - d) / 10,
                        i128::MAX as int == 10 * ((i128::MAX as int - d) / 10) + (
                            i128::MAX as int - d) % 10 + d,
                        0 <= (i128::MAX as int - d) % 10 < 10,
                        0 <= d <= 9;
                if all_digits(ds) {
                    lemma_digits_value_monotone(ds, i - start + 1);
                    assert(digits_value(ds) > i128::MAX as int);
                }
            }
            return None;
        }
        proof {
            vstd::arithmetic::div_mod::lemma_fundamental_div_mod(i128::MAX as int - d, 10);
            let pre = ds.take(i - start + 1);
            assert(pre.drop_last() =~= ds.take(i - start));
            assert(pre.last() == ds[i - start]);
            assert(ds[i - start] == cs@[i as int]);
            assert(acc * 10 + d <= i128::MAX as int) by (nonlinear_arith)
                requires
                    acc <= (i128::MAX as int - d) / 10,
                    i128::MAX as int - d == 10 * ((i128::MAX as int - d) / 10) + (
                        i128::MAX as int - d) % 10,
                    0 <= (i128::MAX as int - d) % 10,
                    acc >= 0,
                    0 <= d <= 9;
        }
        acc = acc * 10 + d as i128;
        i = i + 1;
    }
    proof {
        assert(ds.take(to - start) =~= ds);
        vstd::arithmetic::div_mod::lemma_fundamental_div_mod(i128::MAX as int, 1);
    }
    if negative {
        Some(-acc)
    } else {
        Some(acc)
    }
}

impl Fraction {
    /// Parse a fraction literal: an integer, or a numerator and denominator
    /// joined by a slash, with surrounding whitespace ignored.
    pub fn from_str(s: &str) -> (r: Result<Fraction, ParseFractionError>)
        requires
            s@.len() < usize::MAX,
        ensures
            ({
                let t = trim_chars(s@);
                let k = first_match_idx(t, seq!['/']);
                if k == -1 {
                    match r {
                        Ok(f) => f.wf() && (parse_value(t) matches Some(v) && f.represents(v, 1)
                            && -(i128::MAX as int) <= v <= i128::MAX as int),
                        Err(e) => parse_value(t) is None || (parse_value(t) matches Some(v)
                            && !(-(i128::MAX as int) <= v <= i128::MAX as int)),
                    }
                } else {
                    let np = parse_value(t.take(k));
                    let dp = parse_value(t.skip(k + 1));
                    match r {
                        Ok(f) => f.wf() && (np matches Some(nv) && dp matches Some(dv)
                            && dv != 0 && f.represents(nv, dv)
                            && -(i128::MAX as int) <= nv <= i128::MAX as int
                            && -(i128::MAX as int) <= dv <= i128::MAX as int),
                        Err(e) => np is None || dp is None || (np matches Some(nv)
                            && !(-(i128::MAX as int) <= nv <= i128::MAX as int)) || (
                            dp matches Some(dv) && (dv == 0 || !(-(i128::MAX as int) <= dv
                            <= i128::MAX as int))),
                    }
                }
            }),
    {
        let stripped = crate::strtype::Str::from_str(s).strip();
        let cs = str_chars_vec(stripped.as_str());
        let ghost t = trim_chars(s@);
        let n = cs.len();
        // find the first slash, if any
        let mut k: usize = 0;
        let mut found = false;
        while k < n && !found
            invariant
                k <= n,
                n == cs@.len(),
                cs@ == t,
                found ==> k < n && t[k as int] == '/',
                forall|j: int| 0 <= j < k ==> t[j] != '/',
            decreases n - k + (if found { 0int } else { 1int }),
        {
            if cs[k] == '/' {
                found = true;
            } else {
                k = k + 1;
            }
        }
        proof {
            if found {
                assert(t.subrange(k as int, k as int + 1) =~= seq!['/']);
                assert(is_match_at(t, seq!['/'], k as int));
                assert forall|j: int| 0 <= j < k implies !is_match_at(t, seq!['/'], j) by {
                    if is_match_at(t, seq!['/'], j) {
                        assert(t.subrange(j, j + 1)[0] == t[j]);
                    }
                }
                lemma_first_match_found(t, seq!['/'], k as int);
            } else {
                assert forall|j: int| !is_match_at(t, seq!['/'], j) by {
                    if is_match_at(t, seq!['/'], j) {
                        assert(t.subrange(j, j + 1)[0] == t[j]);
                    }
                }
                lemma_first_match_none(t, seq!['/']);
            }
        }
        if !found {
            proof {
                assert(cs@.subrange(0, n as int) =~= t);
            }
            match parse_i128_range(&cs, 0, n) {
                Some(v) => {
                    return Ok(Fraction::from_integer(v));
                },
                None => {
                    return Err(ParseFractionError);
                },
            }
        }
        proof {
            assert(cs@.subrange(0, k as int) =~= t.take(k as int));
            assert(cs@.subrange(k + 1, n as int) =~= t.skip(k + 1));
        }
        let nv = match parse_i128_range(&cs, 0, k) {
            Some(v) => v,
            None => {
                return Err(ParseFractionError);
            },
        };
        let dv = match parse_i128_range(&cs, k + 1, n) {
            Some(v) => v,
            None => {
                return Err(ParseFractionError);
            },
        };
        if dv == 0 {
            return Err(ParseFractionError);
        }
        Ok(Fraction::from_ratio(nv, dv))
    }
}

} // verus!
