//! Mathematical specification functions shared by the whole crate:
//! truncating division and remainder, greatest common divisor, powers of ten,
//! decimal digit counts, factorial and Fibonacci numbers.

use vstd::prelude::*;
use vstd::arithmetic::div_mod::lemma_fundamental_div_mod;
use vstd::arithmetic::power::pow;
use vstd::math::abs;

verus! {

/// Quotient of division truncated toward zero, the convention used by `Int::divmod`.
pub open spec fn tdiv(a: int, b: int) -> int {
    if (a >= 0) == (b >= 0) {
        abs(a) as int / abs(b) as int
    } else {
        -(abs(a) as int / abs(b) as int)
    }
}

/// Remainder of division truncated toward zero: it carries the sign of the dividend.
pub open spec fn tmod(a: int, b: int) -> int {
    a - tdiv(a, b) * b
}

/// The fundamental facts about truncating division: the division identity,
/// the remainder bound, and the sign of the remainder.
pub proof fn lemma_tdiv_tmod(a: int, b: int)
    requires
        b != 0,
    ensures
        a == tdiv(a, b) * b + tmod(a, b),
        abs(tmod(a, b)) < abs(b),
        a >= 0 ==> tmod(a, b) >= 0,
        a <= 0 ==> tmod(a, b) <= 0,
        abs(tdiv(a, b)) == abs(a) / abs(b),
        abs(tmod(a, b)) == abs(a) % abs(b),
{
    let x = abs(a) as int;
    let y = abs(b) as int;
    lemma_fundamental_div_mod(x, y);
    assert(x == y * (x / y) + x % y);
    assert(0 <= x % y < y);
    assert(x / y >= 0) by (nonlinear_arith)
        requires x >= 0 && y > 0 && x == y * (x / y) + x % y && 0 <= x % y < y;
    if (a >= 0) == (b >= 0) {
        if a >= 0 {
            assert(a == tdiv(a, b) * b + (x % y)) by (nonlinear_arith)
                requires a == x && b == y && tdiv(a, b) == x / y && x == y * (x / y) + x % y;
        } else {
            assert(a == tdiv(a, b) * b + -(x % y)) by (nonlinear_arith)
                requires a == -x && b == -y && tdiv(a, b) == x / y && x == y * (x / y) + x % y;
        }
    } else {
        if a >= 0 {
            assert(a == tdiv(a, b) * b + (x % y)) by (nonlinear_arith)
                requires a == x && b == -y && tdiv(a, b) == -(x / y) && x == y * (x / y) + x % y;
        } else {
            assert(a == tdiv(a, b) * b + -(x % y)) by (nonlinear_arith)
                requires a == -x && b == y && tdiv(a, b) == -(x / y) && x == y * (x / y) + x % y;
        }
    }
}

/// A quotient and remainder that satisfy the division identity, the remainder
/// bound and the sign rule are exactly `tdiv` and `tmod`: truncating division
/// is uniquely determined by those three properties.
pub proof fn lemma_divmod_unique(a: int, b: int, q: int, r: int)
    requires
        b != 0,
        a == q * b + r,
        abs(r) < abs(b),
        a >= 0 ==> r >= 0,
        a <= 0 ==> r <= 0,
    ensures
        q == tdiv(a, b),
        r == tmod(a, b),
{
    lemma_tdiv_tmod(a, b);
    let q2 = tdiv(a, b);
    let r2 = tmod(a, b);
    assert(abs(r - r2) < abs(b));
    assert((q2 - q) * b == r - r2) by (nonlinear_arith)
        requires a == q * b + r && a == q2 * b + r2;
    if q != q2 {
        assert(abs((q2 - q) * b) >= abs(b)) by (nonlinear_arith)
            requires q2 - q != 0 && b != 0;
        assert(false);
    }
}

/// Greatest common divisor of two natural numbers by the Euclidean recursion.
pub open spec fn gcd_nat(a: nat, b: nat) -> nat
    decreases b,
{
    if b == 0 {
        a
    } else {
        gcd_nat(b, a % b)
    }
}

/// `d` divides `n`.
pub open spec fn divides(d: int, n: int) -> bool {
    exists|k: int| n == #[trigger] (d * k)
}

/// The gcd of two naturals divides both of them.
pub proof fn lemma_gcd_divides(a: nat, b: nat)
    ensures
        divides(gcd_nat(a, b) as int, a as int),
        divides(gcd_nat(a, b) as int, b as int),
    decreases b,
{
    if b == 0 {
        assert(a as int == (a as int) * 1);
        assert(0int == (a as int) * 0);
    } else {
        lemma_gcd_divides(b, a % b);
        let g = gcd_nat(b, a % b) as int;
        let k1 = choose|k: int| b as int == #[trigger] (g * k);
        let k2 = choose|k: int| (a % b) as int == #[trigger] (g * k);
        lemma_fundamental_div_mod(a as int, b as int);
        assert(a as int == (b as int) * ((a as int) / (b as int)) + (a % b));
        let q = (a as int) / (b as int);
        assert(a as int == g * (k1 * q + k2)) by (nonlinear_arith)
            requires
                a as int == (b as int) * q + (a % b),
                b as int == g * k1,
                (a % b) as int == g * k2;
    }
}

/// The gcd of two naturals, not both zero, is positive.
pub proof fn lemma_gcd_pos(a: nat, b: nat)
    requires
        a != 0 || b != 0,
    ensures
        gcd_nat(a, b) > 0,
    decreases b,
{
    if b != 0 {
        lemma_gcd_pos(b, a % b);
    }
}

/// The number of decimal digits of a natural number; zero is given one digit.
pub open spec fn num_digits(n: nat) -> nat
    decreases n,
{
    if n < 10 {
        1
    } else {
        1 + num_digits(n / 10)
    }
}

/// `num_digits` is characterised by the enclosing powers of ten.
pub proof fn lemma_num_digits_bounds(n: nat)
    ensures
        pow(10, (num_digits(n) - 1) as nat) <= n || n == 0,
        n < pow(10, num_digits(n)),
        n == 0 ==> num_digits(n) == 1,
    decreases n,
{
    vstd::arithmetic::power::lemma_pow0(10);
    vstd::arithmetic::power::lemma_pow1(10);
    if n < 10 {
    } else {
        lemma_num_digits_bounds(n / 10);
        let d = num_digits(n / 10);
        lemma_fundamental_div_mod(n as int, 10);
        assert(n as int == 10 * ((n as int) / 10) + n % 10);
        assert(pow(10, (d + 1 - 1) as nat) == 10 * pow(10, (d - 1) as nat)) by {
            vstd::arithmetic::power::lemma_pow_adds(10, 1, (d - 1) as nat);
            vstd::arithmetic::power::lemma_pow1(10);
        }
        assert(pow(10, d + 1) == 10 * pow(10, d)) by {
            vstd::arithmetic::power::lemma_pow_adds(10, 1, d);
            vstd::arithmetic::power::lemma_pow1(10);
        }
        assert(n < pow(10, d + 1)) by (nonlinear_arith)
            requires
                (n as int) / 10 < pow(10, d),
                pow(10, d + 1) == 10 * pow(10, d),
                n as int == 10 * ((n as int) / 10) + n % 10,
                0 <= n % 10 < 10;
        assert(pow(10, d) <= n) by (nonlinear_arith)
            requires
                pow(10, (d - 1) as nat) <= (n as int) / 10,
                pow(10, d) == 10 * pow(10, (d - 1) as nat),
                n as int == 10 * ((n as int) / 10) + n % 10,
                0 <= n % 10;
    }
}

/// A number with its decimal digits in a given half-open power-of-ten window
/// has exactly that many digits.
pub proof fn lemma_num_digits_unique(n: nat, d: nat)
    requires
        d >= 1,
        pow(10, (d - 1) as nat) <= n,
        n < pow(10, d),
    ensures
        num_digits(n) == d,
{
    lemma_num_digits_bounds(n);
    let e = num_digits(n);
    assert(pow(10, (d - 1) as nat) >= 1) by {
        vstd::arithmetic::power::lemma_pow_positive(10, (d - 1) as nat);
    }
    if e < d {
        vstd::arithmetic::power::lemma_pow_increases(10, e, (d - 1) as nat);
        assert(false);
    }
    if e > d {
        vstd::arithmetic::power::lemma_pow_increases(10, d, (e - 1) as nat);
        assert(false);
    }
}

/// The factorial function.
pub open spec fn fact(n: nat) -> nat
    decreases n,
{
    if n == 0 {
        1
    } else {
        n * fact((n - 1) as nat)
    }
}

/// The Fibonacci sequence: 0, 1, 1, 2, 3, 5, ...
pub open spec fn fib(n: nat) -> nat
    decreases n,
{
    if n == 0 {
        0
    } else if n == 1 {
        1
    } else {
        fib((n - 1) as nat) + fib((n - 2) as nat)
    }
}


/// `x` and `y` are congruent modulo `m`.
pub open spec fn congruent(x: int, y: int, m: int) -> bool {
    divides(m, x - y)
}

pub proof fn lemma_cong_trans(x: int, y: int, z: int, m: int)
    requires
        congruent(x, y, m),
        congruent(y, z, m),
    ensures
        congruent(x, z, m),
{
    let k1 = choose|k: int| x - y == #[trigger] (m * k);
    let k2 = choose|k: int| y - z == #[trigger] (m * k);
    assert(x - z == m * (k1 + k2)) by (nonlinear_arith)
        requires x - y == m * k1, y - z == m * k2;
}

/// Congruence is preserved by multiplication.
pub proof fn lemma_cong_mul(x1: int, y1: int, x2: int, y2: int, m: int)
    requires
        congruent(x1, x2, m),
        congruent(y1, y2, m),
    ensures
        congruent(x1 * y1, x2 * y2, m),
{
    let k1 = choose|k: int| x1 - x2 == #[trigger] (m * k);
    let k2 = choose|k: int| y1 - y2 == #[trigger] (m * k);
    assert(x1 * y1 - x2 * y2 == m * (k1 * y1 + x2 * k2)) by (nonlinear_arith)
        requires x1 - x2 == m * k1, y1 - y2 == m * k2;
}

/// The truncating remainder is congruent to its dividend.
pub proof fn lemma_tmod_is_cong(z: int, m: int)
    requires
        m != 0,
    ensures
        congruent(tmod(z, m), z, m),
{
    assert(tmod(z, m) - z == m * (-tdiv(z, m))) by (nonlinear_arith)
        requires tmod(z, m) == z - tdiv(z, m) * m;
}

/// A value in the remainder range that is congruent to `y` and carries a
/// compatible sign is exactly the truncating remainder of `y`.
pub proof fn lemma_cong_unique(x: int, y: int, m: int)
    requires
        m != 0,
        congruent(x, y, m),
        abs(x) < abs(m),
        x == 0 || (x > 0 <==> y > 0),
    ensures
        x == tmod(y, m),
{
    lemma_tdiv_tmod(y, m);
    let t = tmod(y, m);
    lemma_tmod_is_cong(y, m);
    let k1 = choose|k: int| x - y == #[trigger] (m * k);
    let k2 = choose|k: int| t - y == #[trigger] (m * k);
    assert(x - t == m * (k1 - k2)) by (nonlinear_arith)
        requires x - y == m * k1, t - y == m * k2;
    let d = k1 - k2;
    assert(abs(x - t) < 2 * abs(m));
    if d != 0 {
        assert(abs(m * d) >= abs(m)) by (nonlinear_arith)
            requires m != 0, d != 0;
        if y > 0 {
            assert(x >= 0 && t >= 0);
            assert(abs(x - t) < abs(m));
            assert(abs(m * d) < abs(m));
            assert(false) by (nonlinear_arith)
                requires abs(m * d) >= abs(m), abs(m * d) < abs(m);
        } else if y < 0 {
            assert(x <= 0 && t <= 0);
            assert(abs(x - t) < abs(m));
            assert(abs(m * d) < abs(m));
            assert(false) by (nonlinear_arith)
                requires abs(m * d) >= abs(m), abs(m * d) < abs(m);
        } else {
            assert(t == 0);
            assert(x == m * d);
            assert(false) by (nonlinear_arith)
                requires x == m * d, d != 0, m != 0, abs(x) < abs(m);
        }
    }
}

} // verus!
