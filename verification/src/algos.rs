//! Derived numeric algorithms on `Int`: integer square root, logarithm,
//! greatest common divisor and least common multiple, factorial, and
//! primality testing.

use vstd::prelude::*;
use vstd::math::abs;
use vstd::arithmetic::power::pow;
use crate::arith::{tmod, gcd_nat, fact, fib, divides, congruent, lemma_tdiv_tmod,
    lemma_gcd_divides, lemma_gcd_pos, lemma_cong_trans, lemma_cong_mul, lemma_tmod_is_cong,
    lemma_cong_unique};
use crate::bigint::{Int, ArithError};
use crate::chunks::BASE;

verus! {

broadcast use vstd::arithmetic::mul::group_mul_basics;

/// `v` is a prime number: at least two, with no divisor strictly between
/// one and itself.
pub open spec fn is_prime_spec(v: int) -> bool {
    v >= 2 && forall|d: int| 2 <= d < v ==> #[trigger] (v % d) != 0
}

impl Int {
    /// Return the square root of integer `n`, the largest `r` with `r*r <= n`.
    /// A negative argument is refused.
    pub fn sqrt(n: &Self) -> (r: Result<Self, ArithError>)
        requires
            n.wf(),
        ensures
            r is Err <==> n@ < 0,
            r is Err ==> r == Err::<Self, ArithError>(ArithError::Domain),
            r matches Ok(s) ==> {
                &&& s.wf()
                &&& s@ >= 0
                &&& s@ * s@ <= n@
                &&& n@ < (s@ + 1) * (s@ + 1)
            },
    {
        if n.is_negative() {
            return Err(ArithError::Domain);
        }
        let one = Int::from_i64(1);
        let two = Int::from_i64(2);
        let mut lo = Int::new();
        let mut hi = n.clone();
        let mut res = Int::new();
        proof {
            assert(n@ < (n@ + 1) * (n@ + 1)) by (nonlinear_arith)
                requires n@ >= 0;
        }
        while lo.le(&hi)
            invariant
                lo.wf(),
                hi.wf(),
                res.wf(),
                n.wf(),
                one.wf() && one@ == 1,
                two.wf() && two@ == 2,
                n@ >= 0,
                0 <= lo@,
                lo@ <= hi@ + 1,
                hi@ <= n@,
                res@ >= 0,
                lo@ == res@ + 1 || (lo@ == 0 && res@ == 0),
                res@ * res@ <= n@,
                n@ < (hi@ + 1) * (hi@ + 1),
            decreases hi@ - lo@ + 1,
        {
            let diff = hi.sub(&lo);
            let half = match diff.div(&two) {
                Ok(h) => h,
                Err(_) => {
                    proof {
                        assert(false);
                    }
                    Int::new()
                },
            };
            proof {
                lemma_tdiv_tmod(diff@, 2);
            }
            let mid = lo.add(&half);
            let sq = mid.mul(&mid);
            proof {
                assert(lo@ <= mid@ <= hi@);
            }
            if sq.le(n) {
                res = mid.clone();
                lo = mid.add(&one);
            } else {
                hi = mid.sub(&one);
                proof {
                    assert(n@ < (hi@ + 1) * (hi@ + 1));
                }
            }
        }
        proof {
            assert(lo@ == hi@ + 1);
            if lo@ == 0 && res@ == 0 {
                assert(hi@ == -1);
                assert(n@ < (hi@ + 1) * (hi@ + 1));
                assert(false);
            }
            assert(n@ < (res@ + 1) * (res@ + 1));
        }
        Ok(res)
    }

    /// Return the logarithm of `n` in base `base`, rounded down.  Arguments
    /// with `n <= 0` or `base < 2` are outside the domain.
    pub fn log(n: &Self, base: &Self) -> (r: Result<Self, ArithError>)
        requires
            n.wf(),
            base.wf(),
        ensures
            r is Err <==> (n@ <= 0 || base@ < 2),
            r is Err ==> r == Err::<Self, ArithError>(ArithError::Domain),
            r matches Ok(l) ==> {
                &&& l.wf()
                &&& l@ >= 0
                &&& pow(base@, l@ as nat) <= n@
                &&& n@ < pow(base@, (l@ + 1) as nat)
            },
    {
        let two = Int::from_i64(2);
        if !n.is_positive() || base.lt(&two) {
            return Err(ArithError::Domain);
        }
        let mut num = match n.div(base) {
            Ok(q) => q,
            Err(_) => {
                proof {
                    assert(false);
                }
                Int::new()
            },
        };
        let mut res = Int::new();
        proof {
            lemma_tdiv_tmod(n@, base@);
            vstd::arithmetic::power::lemma_pow0(base@);
            vstd::arithmetic::power::lemma_pow1(base@);
            assert(num@ == n@ / base@) by {
                assert(abs(n@) == n@ && abs(base@) == base@);
            }
        }
        while !num.is_zero()
            invariant
                num.wf(),
                res.wf(),
                n.wf(),
                base.wf(),
                n@ >= 1,
                base@ >= 2,
                res@ >= 0,
                num@ >= 0,
                num@ == n@ / pow(base@, (res@ + 1) as nat),
                pow(base@, res@ as nat) <= n@,
                pow(base@, (res@ + 1) as nat) >= 1,
            decreases num@,
        {
            let ghost numv = num@;
            let ghost resv = res@;
            let ghost p1 = pow(base@, (res@ + 1) as nat);
            res.inc();
            let next = match num.div(base) {
                Ok(q) => q,
                Err(_) => {
                    proof {
                        assert(false);
                    }
                    Int::new()
                },
            };
            num = next;
            proof {
                lemma_tdiv_tmod(numv, base@);
                vstd::arithmetic::div_mod::lemma_fundamental_div_mod(numv, base@);
                assert(num@ == numv / base@) by {
                    assert(abs(numv) == numv && abs(base@) == base@);
                }
                vstd::arithmetic::div_mod::lemma_fundamental_div_mod(n@, p1);
                // the old quotient was at least one, so base^(res+1) fits in n
                assert(pow(base@, (resv + 1) as nat) <= n@) by (nonlinear_arith)
                    requires
                        n@ == p1 * (n@ / p1) + n@ % p1,
                        0 <= n@ % p1 < p1,
                        n@ / p1 == numv,
                        numv >= 1,
                        p1 == pow(base@, (resv + 1) as nat),
                        p1 >= 1;
                // (n / base^(res+1)) / base == n / base^(res+2)
                vstd::arithmetic::div_mod::lemma_div_denominator(n@, p1, base@);
                assert(pow(base@, (resv + 2) as nat) == p1 * base@) by {
                    vstd::arithmetic::power::lemma_pow1(base@);
                    vstd::arithmetic::power::lemma_pow_adds(base@, (resv + 1) as nat, 1);
                }
                assert(num@ == n@ / pow(base@, (res@ + 1) as nat));
                assert(pow(base@, (res@ + 1) as nat) >= 1) by {
                    vstd::arithmetic::power::lemma_pow_positive(base@, (res@ + 1) as nat);
                }
                assert(num@ < numv) by (nonlinear_arith)
                    requires
                        numv == base@ * (numv / base@) + numv % base@,
                        0 <= numv % base@ < base@,
                        num@ == numv / base@,
                        base@ >= 2,
                        numv >= 1,
                        num@ >= 0;
            }
        }
        proof {
            let p1 = pow(base@, (res@ + 1) as nat);
            vstd::arithmetic::div_mod::lemma_fundamental_div_mod(n@, p1);
            assert(n@ < p1) by (nonlinear_arith)
                requires
                    n@ == p1 * (n@ / p1) + n@ % p1,
                    0 <= n@ % p1 < p1,
                    n@ / p1 == 0;
        }
        Ok(res)
    }

    /// Calculate the greatest common divisor of two integers, on their
    /// absolute values by the Euclidean algorithm.
    pub fn gcd(a: &Self, b: &Self) -> (r: Self)
        requires
            a.wf(),
            b.wf(),
        ensures
            r.wf(),
            r@ == gcd_nat(abs(a@), abs(b@)),
    {
        let mut x = a.abs();
        let mut y = b.abs();
        while !y.is_zero()
            invariant
                x.wf(),
                y.wf(),
                x@ >= 0,
                y@ >= 0,
                gcd_nat(x@ as nat, y@ as nat) == gcd_nat(abs(a@), abs(b@)),
            decreases y@,
        {
            let ghost xv = x@;
            let ghost yv = y@;
            let t = match x.rem(&y) {
                Ok(m) => m,
                Err(_) => {
                    proof {
                        assert(false);
                    }
                    Int::new()
                },
            };
            x = y;
            y = t;
            proof {
                lemma_tdiv_tmod(xv, yv);
                assert(y@ == xv % yv) by {
                    assert(abs(xv) == xv && abs(yv) == yv);
                    assert(tmod(xv, yv) >= 0);
                }
                assert(gcd_nat(xv as nat, yv as nat) == gcd_nat(yv as nat, (xv % yv) as nat));
            }
        }
        x
    }

    /// Calculate the least common multiple of two integers: zero if either is
    /// zero, else `|a*b| / gcd(a, b)`.
    pub fn lcm(a: &Self, b: &Self) -> (r: Self)
        requires
            a.wf(),
            b.wf(),
        ensures
            r.wf(),
            a@ == 0 || b@ == 0 ==> r@ == 0,
            a@ != 0 && b@ != 0 ==> r@ == abs(a@ * b@) as int / (gcd_nat(abs(a@), abs(b@)) as int),
    {
        if a.is_zero() || b.is_zero() {
            return Int::new();
        }
        let g = Int::gcd(a, b);
        let prod = a.mul(b).abs();
        proof {
            lemma_gcd_pos(abs(a@), abs(b@));
        }
        let r = match prod.div(&g) {
            Ok(q) => q,
            Err(_) => {
                proof {
                    assert(false);
                }
                Int::new()
            },
        };
        proof {
            lemma_tdiv_tmod(prod@, g@);
            assert(r@ == prod@ / g@) by {
                assert(abs(prod@) == prod@ && abs(g@) == g@);
            }
        }
        r
    }

    /// Return the factorial of self.  Negative arguments, and arguments of
    /// more than one chunk, are outside the domain.
    pub fn factorial(&self) -> (r: Result<Self, ArithError>)
        requires
            self.wf(),
        ensures
            r is Err <==> (self@ < 0 || self@ >= BASE),
            r is Err ==> r == Err::<Self, ArithError>(ArithError::Domain),
            r matches Ok(f) ==> f.wf() && f@ == fact(self@ as nat),
    {
        if self.is_negative() {
            return Err(ArithError::Domain);
        }
        let bound = Int::from_i64(BASE as i64);
        if !self.lt(&bound) {
            return Err(ArithError::Domain);
        }
        let n = self.to_number() as u64;
        let mut res = Int::from_i64(1);
        let mut i: u64 = 0;
        while i < n
            invariant
                res.wf(),
                i <= n,
                n == self@,
                res@ == fact(i as nat),
            decreases n - i,
        {
            i = i + 1;
            let f = Int::from_i128(i as i128);
            let next = res.mul(&f);
            proof {
                assert(fact(i as nat) == (i as nat) * fact((i - 1) as nat));
                assert(next@ == (i as int) * res@) by (nonlinear_arith)
                    requires next@ == res@ * (i as int);
            }
            res = next;
        }
        Ok(res)
    }
}


/// A power of one is one.
proof fn lemma_pow_one_base(e: nat)
    ensures
        pow(1, e) == 1,
    decreases e,
{
    reveal(pow);
    if e > 0 {
        lemma_pow_one_base((e - 1) as nat);
    }
}

/// A power of minus one alternates with the parity of the exponent.
proof fn lemma_pow_neg_one(e: nat)
    ensures
        pow(-1, e) == if e % 2 == 0 { 1int } else { -1int },
    decreases e,
{
    reveal(pow);
    if e > 0 {
        lemma_pow_neg_one((e - 1) as nat);
        vstd::arithmetic::div_mod::lemma_fundamental_div_mod(e as int, 2);
        vstd::arithmetic::div_mod::lemma_fundamental_div_mod(e as int - 1, 2);
    }
}

/// The value that `pow` denotes, extended to negative exponents as the
/// integer part of the rational power: zero unless the base is a unit.
pub open spec fn pow_val(b: int, e: int) -> int {
    if e >= 0 {
        pow(b, e as nat)
    } else if b == 1 {
        1
    } else if b == -1 {
        if e % 2 == 0 {
            1
        } else {
            -1
        }
    } else {
        0
    }
}

/// One doubling-and-conquer step of the Fibonacci pair transformation.
pub open spec fn fpair_step(p: int, q: int, a: int, b: int) -> (int, int) {
    (b * q + a * q + a * p, b * p + a * q)
}

/// The pair transformation applied `n` times.
pub open spec fn fpair_iter(p: int, q: int, a: int, b: int, n: nat) -> (int, int)
    decreases n,
{
    if n == 0 {
        (a, b)
    } else {
        let s = fpair_step(p, q, a, b);
        fpair_iter(p, q, s.0, s.1, (n - 1) as nat)
    }
}

/// Applying the transformation `2k` times equals applying its square `k` times.
proof fn lemma_fpair_double(p: int, q: int, a: int, b: int, k: nat)
    ensures
        fpair_iter(p, q, a, b, 2 * k) == fpair_iter(
            p * p + q * q, 2 * (p * q) + q * q, a, b, k),
    decreases k,
{
    let bp = p * p + q * q;
    let bq = 2 * (p * q) + q * q;
    if k == 0 {
    } else {
        let s1 = fpair_step(p, q, a, b);
        let s2 = fpair_step(p, q, s1.0, s1.1);
        let sd = fpair_step(bp, bq, a, b);
        let a1 = b * q + a * q + a * p;
        let b1 = b * p + a * q;
        assert(s1.0 == a1 && s1.1 == b1);
        let a2 = b1 * q + a1 * q + a1 * p;
        let b2 = b1 * p + a1 * q;
        assert(s2.0 == a2 && s2.1 == b2);
        let ad = b * bq + a * bq + a * bp;
        let bd = b * bp + a * bq;
        assert(sd.0 == ad && sd.1 == bd);
        // expand every product into a fixed set of degree-three monomials
        assert((b * p + a * q) * p == b * (p * p) + a * (p * q)) by (nonlinear_arith);
        assert((b * p + a * q) * q == b * (p * q) + a * (q * q)) by (nonlinear_arith);
        assert((b * q + a * q + a * p) * q == b * (q * q) + a * (q * q) + a * (p * q))
            by (nonlinear_arith);
        assert((b * q + a * q + a * p) * p == b * (p * q) + a * (p * q) + a * (p * p))
            by (nonlinear_arith);
        assert(b * (p * p + q * q) == b * (p * p) + b * (q * q)) by (nonlinear_arith);
        assert(a * (2 * (p * q) + q * q) == a * (p * q) + a * (p * q) + a * (q * q))
            by (nonlinear_arith);
        assert(b * (2 * (p * q) + q * q) == b * (p * q) + b * (p * q) + b * (q * q))
            by (nonlinear_arith);
        assert(a * (p * p + q * q) == a * (p * p) + a * (q * q)) by (nonlinear_arith);
        assert(b2 == bd);
        assert(a2 == ad);
        assert(s2 == sd);
        assert(fpair_iter(p, q, a, b, 2 * k) == fpair_iter(p, q, s1.0, s1.1, (2 * k - 1) as nat));
        assert(fpair_iter(p, q, s1.0, s1.1, (2 * k - 1) as nat) == fpair_iter(
            p, q, s2.0, s2.1, (2 * k - 2) as nat));
        lemma_fpair_double(p, q, s2.0, s2.1, (k - 1) as nat);
        assert(fpair_iter(bp, bq, a, b, k) == fpair_iter(bp, bq, sd.0, sd.1, (k - 1) as nat));
    }
}

/// Iterating the basic transformation advances a pair of adjacent Fibonacci
/// numbers by `n` positions.
proof fn lemma_fpair_fib(n: nat, k: nat)
    ensures
        fpair_iter(0, 1, fib(k + 1) as int, fib(k) as int, n) == (
            fib(n + k + 1) as int, fib(n + k) as int),
    decreases n,
{
    if n > 0 {
        let s = fpair_step(0, 1, fib(k + 1) as int, fib(k) as int);
        assert(s.0 == fib(k) + fib(k + 1) && s.1 == fib(k + 1));
        assert(fib(k + 2) == fib(k + 1) + fib(k));
        lemma_fpair_fib((n - 1) as nat, k + 1);
    }
}

impl Int {
    /// Return `base ** exp`.  A negative exponent on a non-unit base gives
    /// zero; a negative exponent on a zero base is outside the domain.
    pub fn pow(base: &Self, exp: &Self) -> (r: Result<Self, ArithError>)
        requires
            base.wf(),
            exp.wf(),
        ensures
            r is Err <==> (base@ == 0 && exp@ < 0),
            r is Err ==> r == Err::<Self, ArithError>(ArithError::Domain),
            r matches Ok(p) ==> p.wf() && p@ == pow_val(base@, exp@),
    {
        let one = Int::from_i64(1);
        let two = Int::from_i64(2);
        // a base of magnitude one only ever yields 1 or -1
        let babs = base.abs();
        let unit = match babs.cmp(&one) {
            core::cmp::Ordering::Equal => true,
            _ => false,
        };
        if unit {
            proof {
                if exp@ >= 0 {
                    if base@ == 1 {
                        lemma_pow_one_base(exp@ as nat);
                    } else {
                        lemma_pow_neg_one(exp@ as nat);
                    }
                }
            }
            if base.is_negative() && exp.is_odd() {
                return Ok(Int::from_i64(-1));
            }
            return Ok(one);
        }
        if exp.is_negative() {
            if base.is_zero() {
                return Err(ArithError::Domain);
            }
            return Ok(Int::new());
        }
        let ghost b0 = base@;
        let ghost e0 = exp@;
        let mut num = base.clone();
        let mut e = exp.clone();
        let mut res = one;
        while !e.is_zero()
            invariant
                num.wf(),
                e.wf(),
                res.wf(),
                e@ >= 0,
                res@ * pow(num@, e@ as nat) == pow(b0, e0 as nat),
            decreases e@,
        {
            let ghost ev = e@;
            let ghost numv = num@;
            let ghost resv = res@;
            let odd = e.is_odd();
            if odd {
                let r2 = res.mul(&num);
                res = r2;
            }
            let n2 = num.mul(&num);
            num = n2;
            let enext = match e.div(&two) {
                Ok(q) => q,
                Err(_) => {
                    proof {
                        assert(false);
                    }
                    Int::new()
                },
            };
            e = enext;
            proof {
                lemma_tdiv_tmod(ev, 2);
                vstd::arithmetic::div_mod::lemma_fundamental_div_mod(ev, 2);
                assert(e@ == ev / 2) by {
                    assert(abs(ev) == ev);
                }
                let k = e@ as nat;
                assert(pow(numv, 2) == numv * numv) by {
                    vstd::arithmetic::power::lemma_pow1(numv);
                    vstd::arithmetic::power::lemma_pow_adds(numv, 1, 1);
                }
                vstd::arithmetic::power::lemma_pow_multiplies(numv, 2, k);
                assert(pow(num@, k) == pow(numv, 2 * k)) by {
                    assert(num@ == numv * numv);
                }
                if odd {
                    assert(ev == 2 * k + 1);
                    assert(pow(numv, ev as nat) == numv * pow(numv, (ev - 1) as nat)) by {
                        reveal(pow);
                    }
                    assert((ev - 1) as nat == 2 * k);
                    assert(res@ * pow(num@, k) == pow(b0, e0 as nat)) by (nonlinear_arith)
                        requires
                            res@ == resv * numv,
                            pow(num@, k) == pow(numv, 2 * k),
                            pow(numv, ev as nat) == numv * pow(numv, 2 * k),
                            resv * pow(numv, ev as nat) == pow(b0, e0 as nat);
                } else {
                    assert(ev == 2 * k);
                    assert(res@ * pow(num@, k) == pow(b0, e0 as nat)) by (nonlinear_arith)
                        requires
                            res@ == resv,
                            pow(num@, k) == pow(numv, 2 * k),
                            ev == 2 * k,
                            pow(numv, ev as nat) == pow(numv, 2 * k),
                            resv * pow(numv, ev as nat) == pow(b0, e0 as nat);
                }
            }
        }
        proof {
            vstd::arithmetic::power::lemma_pow0(num@);
        }
        Ok(res)
    }

    /// Calculate the `n`th term of the Fibonacci sequence by the fast
    /// doubling method: 0, 1, 1, 2, 3, 5, ...
    pub fn fibonacci(n: &Self) -> (r: Self)
        requires
            n.wf(),
            n@ >= 0,
        ensures
            r.wf(),
            r@ == fib(n@ as nat),
    {
        let two = Int::from_i64(2);
        let mut a = Int::from_i64(1);
        let mut b = Int::new();
        let mut p = Int::new();
        let mut q = Int::from_i64(1);
        let mut cnt = n.clone();
        proof {
            lemma_fpair_fib(n@ as nat, 0);
            assert(fpair_iter(0, 1, 1, 0, n@ as nat).1 == fib(n@ as nat));
        }
        while !cnt.is_zero()
            invariant
                a.wf(),
                b.wf(),
                p.wf(),
                q.wf(),
                cnt.wf(),
                two.wf() && two@ == 2,
                cnt@ >= 0,
                n.wf(),
                n@ >= 0,
                fpair_iter(p@, q@, a@, b@, cnt@ as nat).1 == fib(n@ as nat),
            decreases cnt@,
        {
            let ghost cv = cnt@;
            if cnt.is_even() {
                let pp = p.mul(&p).add(&q.mul(&q));
                let qq = p.mul(&q).mul(&two).add(&q.mul(&q));
                proof {
                    lemma_tdiv_tmod(cv, 2);
                    vstd::arithmetic::div_mod::lemma_fundamental_div_mod(cv, 2);
                    let k = (cv / 2) as nat;
                    assert(cv as nat == 2 * k);
                    lemma_fpair_double(p@, q@, a@, b@, k);
                    assert(qq@ == 2 * (p@ * q@) + q@ * q@) by (nonlinear_arith)
                        requires qq@ == p@ * q@ * 2 + q@ * q@;
                }
                p = pp;
                q = qq;
                let cnext = match cnt.div(&two) {
                    Ok(c) => c,
                    Err(_) => {
                        proof {
                            assert(false);
                        }
                        Int::new()
                    },
                };
                cnt = cnext;
                proof {
                    lemma_tdiv_tmod(cv, 2);
                    vstd::arithmetic::div_mod::lemma_fundamental_div_mod(cv, 2);
                    assert(cnt@ == cv / 2) by {
                        assert(abs(cv) == cv);
                    }
                }
            } else {
                let aa = b.mul(&q).add(&a.mul(&p.add(&q)));
                let bb = b.mul(&p).add(&a.mul(&q));
                proof {
                    let st = fpair_step(p@, q@, a@, b@);
                    let st0 = b@ * q@ + a@ * q@ + a@ * p@;
                    assert(st.0 == st0);
                    assert(aa@ == st0) by (nonlinear_arith)
                        requires aa@ == b@ * q@ + a@ * (p@ + q@), st0 == b@ * q@ + a@ * q@ + a@ * p@;
                    assert(bb@ == st.1);
                    assert(fpair_iter(p@, q@, a@, b@, cv as nat) == fpair_iter(
                        p@, q@, st.0, st.1, (cv - 1) as nat));
                }
                a = aa;
                b = bb;
                let cnext = cnt.sub(&Int::from_i64(1));
                cnt = cnext;
            }
        }
        b
    }

    /// Determine whether the integer is a prime number, by trial division of
    /// odd candidates up to the square root.
    pub fn is_prime(&self) -> (r: bool)
        requires
            self.wf(),
        ensures
            r == is_prime_spec(self@),
    {
        let one = Int::from_i64(1);
        let two = Int::from_i64(2);
        let three = Int::from_i64(3);
        if self.le(&one) {
            return false;
        }
        let is2 = match self.cmp(&two) {
            core::cmp::Ordering::Equal => true,
            _ => false,
        };
        let is3 = match self.cmp(&three) {
            core::cmp::Ordering::Equal => true,
            _ => false,
        };
        if is2 || is3 {
            proof {
                assert forall|d: int| 2 <= d < self@ implies #[trigger] (self@ % d) != 0 by {
                    assert(d == 2 && self@ == 3 ==> self@ % d == 1);
                }
            }
            return true;
        }
        if self.is_even() {
            proof {
                assert(self@ % 2 == 0 && 2 <= 2 < self@);
            }
            return false;
        }
        let v = self;
        let s = match Int::sqrt(self) {
            Ok(s) => s,
            Err(_) => {
                proof {
                    assert(false);
                }
                Int::new()
            },
        };
        let mut c = three;
        while c.le(&s)
            invariant
                c.wf(),
                s.wf(),
                self.wf(),
                self@ >= 5,
                self@ % 2 != 0,
                c@ >= 3,
                c@ % 2 != 0,
                s@ >= 0,
                s@ * s@ <= self@,
                self@ < (s@ + 1) * (s@ + 1),
                forall|d: int| 3 <= d < c@ && d % 2 != 0 ==> #[trigger] (self@ % d) != 0,
            decreases s@ + 2 - c@,
        {
            let ghost cv = c@;
            let m = match self.rem(&c) {
                Ok(m) => m,
                Err(_) => {
                    proof {
                        assert(false);
                    }
                    Int::new()
                },
            };
            if m.is_zero() {
                proof {
                    lemma_tdiv_tmod(self@, cv);
                    assert(self@ % cv == 0) by {
                        assert(abs(self@) == self@ && abs(cv) == cv);
                        assert(tmod(self@, cv) >= 0);
                    }
                    // c <= s < self, so c is a genuine divisor strictly inside
                    assert(cv < self@) by (nonlinear_arith)
                        requires
                            s@ * s@ <= self@,
                            self@ >= 5,
                            cv <= s@,
                            cv >= 3,
                            s@ >= 0;
                }
                return false;
            }
            let cnext = c.add(&two);
            proof {
                lemma_tdiv_tmod(self@, cv);
                assert(tmod(self@, cv) != 0);
                assert(self@ % cv != 0) by {
                    assert(abs(self@) == self@ && abs(cv) == cv);
                    assert(tmod(self@, cv) >= 0);
                }
                assert((cv + 2) % 2 == cv % 2) by (nonlinear_arith);
                assert forall|d: int| 3 <= d < cv + 2 && d % 2 != 0 implies #[trigger] (self@
                    % d) != 0 by {
                    if d < cv {
                    } else if d == cv {
                    } else {
                        assert(d == cv + 1);
                        assert(cv % 2 != 0);
                        vstd::arithmetic::div_mod::lemma_fundamental_div_mod(cv, 2);
                        vstd::arithmetic::div_mod::lemma_fundamental_div_mod(cv + 1, 2);
                        assert(d % 2 == 0);
                        assert(false);
                    }
                }
            }
            c = cnext;
        }
        proof {
            lemma_no_small_factors(self@, s@, c@);
        }
        true
    }

    /// Calculate the smallest prime strictly greater than self.
    pub fn next_prime(&self) -> (r: Self)
        requires
            self.wf(),
        ensures
            r.wf(),
            is_prime_spec(r@),
            r@ > self@,
            forall|x: int| self@ < x < r@ ==> !is_prime_spec(x),
    {
        let two = Int::from_i64(2);
        if self.lt(&two) {
            proof {
                assert(is_prime_spec(2)) by {
                    assert(forall|d: int| 2 <= d < 2 ==> #[trigger] (2int % d) != 0);
                }
            }
            return two;
        }
        // step down to an odd starting point so that stepping by two covers
        // every odd candidate above self
        let mut cur = self.clone();
        if cur.is_even() {
            let c2 = cur.sub(&Int::from_i64(1));
            cur = c2;
        }
        // a prime above self exists, which bounds the search
        let ghost pb = lemma_prime_above(self@ as nat);
        proof {
            lemma_odd_prime(pb);
        }
        loop
            invariant
                cur.wf(),
                self.wf(),
                self@ >= 2,
                cur@ % 2 != 0,
                self@ - 1 <= cur@,
                forall|x: int| self@ < x <= cur@ ==> !is_prime_spec(x),
                two.wf() && two@ == 2,
                is_prime_spec(pb),
                pb > self@,
                pb % 2 != 0,
                cur@ < pb,
            decreases pb - cur@,
        {
            let ghost cv = cur@;
            let cand = cur.add(&two);
            let prime = cand.is_prime();
            proof {
                assert((cv + 2) % 2 == cv % 2) by (nonlinear_arith);
                assert forall|x: int| self@ < x <= cv + 2 && x != cv + 2 implies !is_prime_spec(
                    x) by {
                    if x <= cv {
                    } else {
                        assert(x == cv + 1);
                        vstd::arithmetic::div_mod::lemma_fundamental_div_mod(cv, 2);
                        vstd::arithmetic::div_mod::lemma_fundamental_div_mod(cv + 1, 2);
                        assert(x % 2 == 0);
                        if is_prime_spec(x) {
                            assert(x > self@ >= 2);
                            assert(x % 2 == 0 && 2 <= 2 < x);
                            assert(false);
                        }
                    }
                }
            }
            if prime {
                return cand;
            }
            proof {
                // the candidate and the bounding prime are both odd, so the
                // step of two cannot jump over the bound
                vstd::arithmetic::div_mod::lemma_fundamental_div_mod(cv, 2);
                vstd::arithmetic::div_mod::lemma_fundamental_div_mod(pb, 2);
                assert(cand@ != pb);
                assert(cand@ < pb) by (nonlinear_arith)
                    requires
                        cand@ == cv + 2,
                        cv < pb,
                        cand@ != pb,
                        cv == 2 * (cv / 2) + cv % 2,
                        pb == 2 * (pb / 2) + pb % 2,
                        cv % 2 == 1,
                        pb % 2 == 1,
                        0 <= cv % 2 < 2,
                        0 <= pb % 2 < 2;
            }
            cur = cand;
        }
    }
}

/// A number with no odd divisor up to its square root, itself odd and at
/// least five, has no proper divisor at all.
proof fn lemma_no_small_factors(v: int, s: int, c: int)
    requires
        v >= 5,
        v % 2 != 0,
        s >= 0,
        s * s <= v,
        v < (s + 1) * (s + 1),
        c > s,
        forall|d: int| 3 <= d < c && d % 2 != 0 ==> #[trigger] (v % d) != 0,
    ensures
        is_prime_spec(v),
{
    assert forall|d: int| 2 <= d < v implies #[trigger] (v % d) != 0 by {
        if v % d == 0 {
            vstd::arithmetic::div_mod::lemma_fundamental_div_mod(v, d);
            let e = v / d;
            assert(v == d * e);
            assert(e >= 2) by (nonlinear_arith)
                requires v == d * e, 2 <= d < v, v >= 5;
            assert(e < v) by (nonlinear_arith)
                requires v == d * e, 2 <= d, e >= 2, v >= 5;
            // v is odd, so neither factor can be even
            if d % 2 == 0 {
                vstd::arithmetic::div_mod::lemma_fundamental_div_mod(d, 2);
                let h = d / 2;
                assert(v == 2 * (h * e)) by (nonlinear_arith)
                    requires v == d * e, d == 2 * h;
                vstd::arithmetic::div_mod::lemma_mod_multiples_basic(h * e, 2);
                assert(v % 2 == 0) by {
                    assert((h * e) * 2 == 2 * (h * e)) by (nonlinear_arith);
                }
                assert(false);
            }
            if e % 2 == 0 {
                vstd::arithmetic::div_mod::lemma_fundamental_div_mod(e, 2);
                let h = e / 2;
                assert(v == 2 * (h * d)) by (nonlinear_arith)
                    requires v == d * e, e == 2 * h;
                vstd::arithmetic::div_mod::lemma_mod_multiples_basic(h * d, 2);
                assert(v % 2 == 0) by {
                    assert((h * d) * 2 == 2 * (h * d)) by (nonlinear_arith);
                }
                assert(false);
            }
            // one of the two factors is at most the square root
            if d > s && e > s {
                assert(v >= (s + 1) * (s + 1)) by (nonlinear_arith)
                    requires v == d * e, d >= s + 1, e >= s + 1, s >= 0;
                assert(false);
            }
            if d <= s {
                assert(3 <= d < c && d % 2 != 0) by {
                    assert(d != 2 && d >= 2);
                }
                assert(v % d != 0);
                assert(false);
            }
            // otherwise the cofactor is small and odd
            assert(e <= s);
            assert(3 <= e < c && e % 2 != 0) by {
                assert(e != 2 && e >= 2);
            }
            assert(v % e != 0);
            vstd::arithmetic::div_mod::lemma_mod_multiples_basic(d, e);
            assert(v % e == 0) by {
                assert(d * e == e * d) by (nonlinear_arith);
            }
            assert(false);
        }
    }
}


/// The factorial is at least one.
proof fn lemma_fact_pos(n: nat)
    ensures
        fact(n) >= 1,
    decreases n,
{
    if n > 0 {
        lemma_fact_pos((n - 1) as nat);
        assert(fact(n) == n * fact((n - 1) as nat));
        assert(n * fact((n - 1) as nat) >= 1) by (nonlinear_arith)
            requires n >= 1, fact((n - 1) as nat) >= 1;
    }
}

/// Every number from one up to `n` divides `n` factorial.
proof fn lemma_divides_fact(k: int, n: nat)
    requires
        1 <= k <= n,
    ensures
        divides(k, fact(n) as int),
    decreases n,
{
    if k == n {
        assert(fact(n) == n * fact((n - 1) as nat));
        assert(fact(n) as int == k * (fact((n - 1) as nat) as int));
    } else {
        lemma_divides_fact(k, (n - 1) as nat);
        let t = choose|t: int| fact((n - 1) as nat) as int == #[trigger] (k * t);
        assert(fact(n) == n * fact((n - 1) as nat));
        assert(fact(n) as int == k * (n * t)) by (nonlinear_arith)
            requires
                fact((n - 1) as nat) as int == k * t,
                fact(n) as int == n * (fact((n - 1) as nat) as int);
    }
}

/// Every number of at least two has a prime divisor.
proof fn lemma_prime_factor(m: int) -> (p: int)
    requires
        m >= 2,
    ensures
        is_prime_spec(p),
        divides(p, m),
        2 <= p <= m,
    decreases m,
{
    if is_prime_spec(m) {
        assert(m == m * 1);
        m
    } else {
        let d = choose|d: int| 2 <= d < m && #[trigger] (m % d) == 0;
        vstd::arithmetic::div_mod::lemma_fundamental_div_mod(m, d);
        assert(m == d * (m / d));
        let p = lemma_prime_factor(d);
        let a = choose|a: int| d == #[trigger] (p * a);
        assert(m == p * (a * (m / d))) by (nonlinear_arith)
            requires m == d * (m / d), d == p * a;
        p
    }
}

/// Above every number there is a prime: the smallest prime factor of
/// `n! + 1` exceeds `n`.
proof fn lemma_prime_above(n: nat) -> (p: int)
    ensures
        is_prime_spec(p),
        p > n,
{
    lemma_fact_pos(n);
    let m = fact(n) as int + 1;
    let p = lemma_prime_factor(m);
    if p <= n {
        lemma_divides_fact(p, n);
        let s = choose|s: int| fact(n) as int == #[trigger] (p * s);
        let t = choose|t: int| m == #[trigger] (p * t);
        assert(1 == p * (t - s)) by (nonlinear_arith)
            requires m == p * t, fact(n) as int == p * s, m == fact(n) + 1;
        assert(false) by (nonlinear_arith)
            requires 1 == p * (t - s), p >= 2;
    }
    p
}

/// A prime above two is odd.
proof fn lemma_odd_prime(p: int)
    requires
        is_prime_spec(p),
        p > 2,
    ensures
        p % 2 != 0,
{
    if p % 2 == 0 {
        assert(2 <= 2 < p && p % 2 == 0);
    }
}


/// The value returned by `Int::pow_mod`: the remainder of the power, with a
/// unit base or a non-positive exponent never touching the modulus.
pub open spec fn pow_mod_val(b: int, e: int, m: int) -> int {
    if b == 1 {
        1
    } else if b == -1 {
        if e % 2 == 0 {
            1
        } else {
            -1
        }
    } else if e < 0 {
        0
    } else if e == 0 {
        1
    } else {
        tmod(pow(b, e as nat), m)
    }
}

impl Int {
    /// Return `(base ** exp) % module` without forming the full power:
    /// every intermediate product is reduced modulo `module`.
    pub fn pow_mod(base: &Self, exp: &Self, module: &Self) -> (r: Result<Self, ArithError>)
        requires
            base.wf(),
            exp.wf(),
            module.wf(),
        ensures
            r is Err <==> (base@ != 1 && base@ != -1 && ((exp@ < 0 && base@ == 0) || (exp@ > 0
                && module@ == 0))),
            (base@ != 1 && base@ != -1 && exp@ < 0 && base@ == 0) ==> r == Err::<Self,
                ArithError>(ArithError::Domain),
            (base@ != 1 && base@ != -1 && exp@ > 0 && module@ == 0) ==> r == Err::<Self,
                ArithError>(ArithError::DivideByZero),
            r matches Ok(p) ==> p.wf() && p@ == pow_mod_val(base@, exp@, module@),
    {
        let one = Int::from_i64(1);
        let two = Int::from_i64(2);
        let babs = base.abs();
        let unit = match babs.cmp(&one) {
            core::cmp::Ordering::Equal => true,
            _ => false,
        };
        if unit {
            if base.is_negative() && exp.is_odd() {
                return Ok(Int::from_i64(-1));
            }
            return Ok(one);
        }
        if exp.is_negative() {
            if base.is_zero() {
                return Err(ArithError::Domain);
            }
            return Ok(Int::new());
        }
        if exp.is_zero() {
            return Ok(one);
        }
        if module.is_zero() {
            return Err(ArithError::DivideByZero);
        }
        let ghost b0 = base@;
        let ghost e0 = exp@;
        let ghost m0 = module@;
        let mut num = base.clone();
        let mut e = exp.clone();
        let mut res = one;
        let ghost mut done: nat = 0;
        let ghost mut tp: nat = 1;
        proof {
            vstd::arithmetic::power::lemma_pow0(b0);
            vstd::arithmetic::power::lemma_pow1(b0);
            assert(res@ - pow(b0, 0) == m0 * 0);
            assert(num@ - pow(b0, 1) == m0 * 0);
        }
        while !e.is_zero()
            invariant
                num.wf(),
                e.wf(),
                res.wf(),
                module.wf(),
                module@ == m0,
                m0 != 0,
                e@ >= 0,
                e0 > 0,
                tp >= 1,
                e0 == done + e@ * tp,
                congruent(res@, pow(b0, done), m0),
                pow(b0, done) > 0 ==> res@ >= 0,
                pow(b0, done) < 0 ==> res@ <= 0,
                pow(b0, done) == 0 ==> res@ == 0,
                done == 0 ==> res@ == 1,
                done > 0 ==> abs(res@) < abs(m0),
                congruent(num@, pow(b0, tp), m0),
                pow(b0, tp) > 0 ==> num@ >= 0,
                pow(b0, tp) < 0 ==> num@ <= 0,
                pow(b0, tp) == 0 ==> num@ == 0,
            decreases e@,
        {
            let ghost ev = e@;
            let ghost numv = num@;
            let ghost resv = res@;
            let ghost donev = done;
            let ghost tpv = tp;
            let odd = e.is_odd();
            if odd {
                let prod = res.mul(&num);
                let rm = match prod.rem(module) {
                    Ok(m) => m,
                    Err(_) => {
                        proof {
                            assert(false);
                        }
                        Int::new()
                    },
                };
                res = rm;
                proof {
                    done = donev + tpv;
                    lemma_cong_mul(resv, numv, pow(b0, donev), pow(b0, tpv), m0);
                    vstd::arithmetic::power::lemma_pow_adds(b0, donev, tpv);
                    lemma_tmod_is_cong(prod@, m0);
                    lemma_cong_trans(res@, prod@, pow(b0, done), m0);
                    lemma_tdiv_tmod(prod@, m0);
                    // sign of the product matches the sign of the power
                    assert((pow(b0, done) > 0 ==> prod@ >= 0) && (pow(b0, done) < 0 ==> prod@
                        <= 0) && (pow(b0, done) == 0 ==> prod@ == 0)) by (nonlinear_arith)
                        requires
                            prod@ == resv * numv,
                            pow(b0, done) == pow(b0, donev) * pow(b0, tpv),
                            pow(b0, donev) > 0 ==> resv >= 0,
                            pow(b0, donev) < 0 ==> resv <= 0,
                            pow(b0, donev) == 0 ==> resv == 0,
                            pow(b0, tpv) > 0 ==> numv >= 0,
                            pow(b0, tpv) < 0 ==> numv <= 0,
                            pow(b0, tpv) == 0 ==> numv == 0;
                    assert(prod@ == 0 ==> res@ == 0);
                }
            }
            let nsq = num.mul(&num);
            let nr = match nsq.rem(module) {
                Ok(m) => m,
                Err(_) => {
                    proof {
                        assert(false);
                    }
                    Int::new()
                },
            };
            num = nr;
            let enext = match e.div(&two) {
                Ok(q) => q,
                Err(_) => {
                    proof {
                        assert(false);
                    }
                    Int::new()
                },
            };
            e = enext;
            proof {
                tp = 2 * tpv;
                lemma_cong_mul(numv, numv, pow(b0, tpv), pow(b0, tpv), m0);
                vstd::arithmetic::power::lemma_pow_adds(b0, tpv, tpv);
                lemma_tmod_is_cong(nsq@, m0);
                lemma_cong_trans(num@, nsq@, pow(b0, tp), m0);
                lemma_tdiv_tmod(nsq@, m0);
                assert(nsq@ >= 0) by (nonlinear_arith)
                    requires nsq@ == numv * numv;
                assert(num@ >= 0);
                if pow(b0, tpv) == 0 {
                    // a zero power forces a zero operand, and squares of zero stay zero
                    assert(numv == 0);
                    assert(nsq@ == 0) by (nonlinear_arith)
                        requires nsq@ == numv * numv, numv == 0;
                    assert(num@ == 0);
                    assert(pow(b0, tp) == 0) by (nonlinear_arith)
                        requires pow(b0, tp) == pow(b0, tpv) * pow(b0, tpv), pow(b0, tpv) == 0;
                } else {
                    assert(pow(b0, tp) > 0) by (nonlinear_arith)
                        requires pow(b0, tp) == pow(b0, tpv) * pow(b0, tpv), pow(b0, tpv) != 0;
                }
                // the exponent accounting stays balanced
                lemma_tdiv_tmod(ev, 2);
                vstd::arithmetic::div_mod::lemma_fundamental_div_mod(ev, 2);
                assert(e@ == ev / 2) by {
                    assert(abs(ev) == ev);
                }
                if odd {
                    assert(ev % 2 == 1);
                    assert(e0 == done + e@ * tp) by (nonlinear_arith)
                        requires
                            e0 == donev + ev * tpv,
                            done == donev + tpv,
                            tp == 2 * tpv,
                            ev == 2 * (ev / 2) + 1,
                            e@ == ev / 2;
                } else {
                    assert(ev % 2 == 0);
                    assert(e0 == done + e@ * tp) by (nonlinear_arith)
                        requires
                            e0 == donev + ev * tpv,
                            done == donev,
                            tp == 2 * tpv,
                            ev == 2 * (ev / 2),
                            e@ == ev / 2;
                }
            }
        }
        proof {
            assert(e0 == done) by (nonlinear_arith)
                requires e0 == done + e@ * tp, e@ == 0;
            assert(done > 0);
            if res@ != 0 {
                assert(res@ > 0 <==> pow(b0, e0 as nat) > 0);
            }
            lemma_cong_unique(res@, pow(b0, e0 as nat), m0);
        }
        Ok(res)
    }
}


/// The Ackermann function.
pub open spec fn ack(m: nat, n: nat) -> nat
    decreases m, n,
{
    if m == 0 {
        n + 1
    } else if n == 0 {
        ack((m - 1) as nat, 1)
    } else {
        ack((m - 1) as nat, ack(m, (n - 1) as nat))
    }
}

proof fn lemma_ack1(n: nat)
    ensures
        ack(1, n) == n + 2,
    decreases n,
{
    if n == 0 {
        assert(ack(0, 1) == 2);
    } else {
        lemma_ack1((n - 1) as nat);
        assert(ack(1, n) == ack(0, ack(1, (n - 1) as nat)));
        assert(ack(0, (n + 1) as nat) == n + 2);
    }
}

proof fn lemma_ack2(n: nat)
    ensures
        ack(2, n) == 2 * n + 3,
    decreases n,
{
    if n == 0 {
        lemma_ack1(1);
    } else {
        lemma_ack2((n - 1) as nat);
        lemma_ack1(ack(2, (n - 1) as nat));
    }
}

proof fn lemma_ack3(n: nat)
    ensures
        ack(3, n) + 3 == pow(2, n + 3),
    decreases n,
{
    if n == 0 {
        lemma_ack2(1);
        assert(pow(2, 3) == 8) by {
            vstd::arithmetic::power::lemma_pow1(2);
            vstd::arithmetic::power::lemma_pow_adds(2, 1, 1);
            vstd::arithmetic::power::lemma_pow_adds(2, 1, 2);
        }
    } else {
        lemma_ack3((n - 1) as nat);
        lemma_ack2(ack(3, (n - 1) as nat));
        assert(pow(2, n + 3) == 2 * pow(2, (n + 2) as nat)) by {
            vstd::arithmetic::power::lemma_pow1(2);
            vstd::arithmetic::power::lemma_pow_adds(2, 1, (n + 2) as nat);
        }
    }
}

/// The hyperoperation sequence: successor, addition, multiplication,
/// exponentiation, and beyond.
pub open spec fn hyper(n: nat, a: nat, b: nat) -> nat
    decreases n, b,
{
    if n == 0 {
        b + 1
    } else if n == 1 {
        a + b
    } else if n == 2 {
        a * b
    } else if b == 0 {
        1
    } else {
        hyper((n - 1) as nat, a, hyper(n, a, (b - 1) as nat))
    }
}

proof fn lemma_hyper3(a: nat, b: nat)
    ensures
        hyper(3, a, b) == pow(a as int, b),
    decreases b,
{
    reveal(pow);
    if b == 0 {
    } else {
        lemma_hyper3(a, (b - 1) as nat);
        assert(hyper(3, a, b) == hyper(2, a, hyper(3, a, (b - 1) as nat)));
        assert(hyper(2, a, hyper(3, a, (b - 1) as nat)) == a * hyper(3, a, (b - 1) as nat));
        assert(pow(a as int, b) == a as int * pow(a as int, (b - 1) as nat));
    }
}

proof fn lemma_hyper_b1(n: nat, a: nat)
    requires
        n >= 3,
    ensures
        hyper(n, a, 1) == a,
    decreases n,
{
    if n == 3 {
        lemma_hyper3(a, 1);
        vstd::arithmetic::power::lemma_pow1(a as int);
    } else {
        assert(hyper(n, a, 0) == 1);
        lemma_hyper_b1((n - 1) as nat, a);
    }
}

proof fn lemma_hyper_a1(n: nat, b: nat)
    requires
        n >= 3,
    ensures
        hyper(n, 1, b) == 1,
    decreases n, b,
{
    if n == 3 {
        lemma_hyper3(1, b);
        lemma_pow_one_base(b);
    } else if b == 0 {
    } else {
        lemma_hyper_a1(n, (b - 1) as nat);
        lemma_hyper_a1((n - 1) as nat, 1);
    }
}

proof fn lemma_hyper_01(m: nat)
    requires
        m >= 3,
    ensures
        hyper(m, 0, 1) == 0,
    decreases m,
{
    if m == 3 {
        lemma_hyper3(0, 1);
        vstd::arithmetic::power::lemma_pow1(0);
    } else {
        assert(hyper(m, 0, 0) == 1);
        lemma_hyper_01((m - 1) as nat);
    }
}

proof fn lemma_hyper_a0(n: nat, b: nat)
    requires
        n >= 4,
    ensures
        hyper(n, 0, b) == if b % 2 == 0 { 1nat } else { 0nat },
    decreases b,
{
    if b == 0 {
    } else {
        lemma_hyper_a0(n, (b - 1) as nat);
        vstd::arithmetic::div_mod::lemma_fundamental_div_mod(b as int, 2);
        vstd::arithmetic::div_mod::lemma_fundamental_div_mod(b as int - 1, 2);
        if (b - 1) % 2 == 0 {
            lemma_hyper_01((n - 1) as nat);
        } else {
            assert(hyper((n - 1) as nat, 0, 0) == 1);
        }
    }
}

proof fn lemma_hyper_22(n: nat)
    requires
        n >= 3,
    ensures
        hyper(n, 2, 2) == 4,
    decreases n,
{
    if n == 3 {
        lemma_hyper3(2, 2);
        assert(pow(2, 2) == 4) by {
            vstd::arithmetic::power::lemma_pow1(2);
            vstd::arithmetic::power::lemma_pow_adds(2, 1, 1);
        }
    } else {
        lemma_hyper_b1(n, 2);
        lemma_hyper_22((n - 1) as nat);
    }
}

impl Int {
    /// True when the two integers denote the same value.
    fn same(&self, other: &Self) -> (r: bool)
        requires
            self.wf(),
            other.wf(),
        ensures
            r <==> self@ == other@,
    {
        match self.cmp(other) {
            core::cmp::Ordering::Equal => true,
            _ => false,
        }
    }

    /// The Ackermann function, with the first levels computed in closed form
    /// and the general recursion above them.  It grows violently: supply
    /// arguments with care.
    pub fn ackermann(m: &Self, n: &Self) -> (r: Self)
        requires
            m.wf(),
            n.wf(),
            m@ >= 0,
            n@ >= 0,
        ensures
            r.wf(),
            r@ == ack(m@ as nat, n@ as nat),
        decreases m@, n@,
    {
        let one = Int::from_i64(1);
        let two = Int::from_i64(2);
        let three = Int::from_i64(3);
        if m.is_zero() {
            return n.add(&one);
        }
        if m.same(&one) {
            proof {
                lemma_ack1(n@ as nat);
            }
            return n.add(&two);
        }
        if m.same(&two) {
            proof {
                lemma_ack2(n@ as nat);
            }
            return n.mul(&two).add(&three);
        }
        if m.same(&three) {
            proof {
                lemma_ack3(n@ as nat);
            }
            let e = n.add(&three);
            let p = match Int::pow(&two, &e) {
                Ok(p) => p,
                Err(_) => {
                    proof {
                        assert(false);
                    }
                    Int::new()
                },
            };
            return p.sub(&three);
        }
        let mm = m.sub(&one);
        if n.is_zero() {
            Self::ackermann(&mm, &one)
        } else {
            let inner = Self::ackermann(m, &n.sub(&one));
            Self::ackermann(&mm, &inner)
        }
    }

    /// The hyperoperation sequence: level 0 is the successor, then addition,
    /// multiplication, exponentiation, tetration, and so on.  It grows
    /// violently: supply arguments with care.
    pub fn hyperoperation(n: &Self, a: &Self, b: &Self) -> (r: Self)
        requires
            n.wf(),
            a.wf(),
            b.wf(),
            n@ >= 0,
            a@ >= 0,
            b@ >= 0,
        ensures
            r.wf(),
            r@ == hyper(n@ as nat, a@ as nat, b@ as nat),
        decreases n@, b@,
    {
        let one = Int::from_i64(1);
        let two = Int::from_i64(2);
        let three = Int::from_i64(3);
        if three.lt(n) {
            // closed forms for the degenerate arguments of the higher levels
            if a.is_zero() {
                if b.is_even() {
                    proof {
                        lemma_hyper_a0(n@ as nat, b@ as nat);
                    }
                    return one;
                }
                proof {
                    lemma_hyper_a0(n@ as nat, b@ as nat);
                }
                return Int::new();
            }
            if a.same(&one) || b.is_zero() {
                proof {
                    if a@ == 1 {
                        lemma_hyper_a1(n@ as nat, b@ as nat);
                    }
                }
                return one;
            }
            if b.same(&one) {
                proof {
                    lemma_hyper_b1(n@ as nat, a@ as nat);
                }
                return a.clone();
            }
            if a.same(&two) && b.same(&two) {
                proof {
                    lemma_hyper_22(n@ as nat);
                }
                return Int::from_i64(4);
            }
            let inner = Self::hyperoperation(n, a, &b.sub(&one));
            return Self::hyperoperation(&n.sub(&one), a, &inner);
        }
        if n.is_zero() {
            return b.add(&one);
        }
        if n.same(&one) {
            return a.add(b);
        }
        if n.same(&two) {
            return a.mul(b);
        }
        proof {
            lemma_hyper3(a@ as nat, b@ as nat);
        }
        match Int::pow(a, b) {
            Ok(p) => p,
            Err(_) => {
                proof {
                    assert(false);
                }
                Int::new()
            },
        }
    }
}


/// The greatest common divisor with zero is the other argument's absolute
/// value, and the gcd of zero with zero is zero.
pub proof fn lemma_gcd_with_zero(a: int)
    ensures
        gcd_nat(abs(a), 0) == abs(a),
        gcd_nat(0, 0) == 0,
{
}

/// The least common multiple and the greatest common divisor multiply back
/// to the absolute value of the product, for nonzero arguments.
pub proof fn lemma_lcm_gcd(a: int, b: int)
    requires
        a != 0,
        b != 0,
    ensures
        (abs(a * b) as int / (gcd_nat(abs(a), abs(b)) as int)) * (gcd_nat(abs(a), abs(b)) as int)
            == abs(a * b),
{
    let g = gcd_nat(abs(a), abs(b)) as int;
    crate::arith::lemma_gcd_pos(abs(a), abs(b));
    lemma_gcd_divides(abs(a), abs(b));
    let k = choose|k: int| abs(a) as int == #[trigger] (g * k);
    assert(abs(a * b) == abs(a) * abs(b)) by (nonlinear_arith);
    assert(abs(a * b) as int == g * (k * (abs(b) as int))) by (nonlinear_arith)
        requires abs(a) as int == g * k, abs(a * b) == abs(a) * abs(b);
    vstd::arithmetic::div_mod::lemma_fundamental_div_mod_converse_div(
        abs(a * b) as int, g, k * (abs(b) as int), 0);
    assert((abs(a * b) as int / g) * g == abs(a * b)) by (nonlinear_arith)
        requires abs(a * b) as int / g == k * (abs(b) as int),
            abs(a * b) as int == g * (k * (abs(b) as int));
}

/// Reducing the power modulo `m` agrees with taking the full power and then
/// the remainder, whenever the modulus has magnitude at least two.
pub proof fn lemma_pow_mod_matches_pow(b: int, e: int, m: int)
    requires
        e >= 0,
        abs(m) >= 2,
    ensures
        pow_mod_val(b, e, m) == tmod(pow(b, e as nat), m),
{
    if b == 1 {
        lemma_pow_one_base(e as nat);
        assert(1 - 1 == m * 0);
        lemma_cong_unique(1, pow(b, e as nat), m);
    } else if b == -1 {
        lemma_pow_neg_one(e as nat);
        if e % 2 == 0 {
            assert(1 - 1 == m * 0);
            lemma_cong_unique(1, pow(b, e as nat), m);
        } else {
            assert(-1 - -1 == m * 0);
            lemma_cong_unique(-1, pow(b, e as nat), m);
        }
    } else if e == 0 {
        vstd::arithmetic::power::lemma_pow0(b);
        assert(1 - 1 == m * 0);
        lemma_cong_unique(1, pow(b, e as nat), m);
    }
}

/// The Fibonacci recurrence: every term from the second onward is the sum of
/// the two before it.
pub proof fn lemma_fibonacci_recurrence(n: nat)
    requires
        n >= 2,
    ensures
        fib(n) == fib((n - 1) as nat) + fib((n - 2) as nat),
{
}

} // verus!
