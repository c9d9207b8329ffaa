//! The arbitrary-precision signed integer: a tri-state sign joined to a
//! chunked magnitude, with the four basic operators and combined
//! quotient/remainder division.

use vstd::prelude::*;
use vstd::std_specs::cmp::PartialEqSpec;
use vstd::math::abs;
use vstd::arithmetic::power::{pow, lemma_pow_positive};
use crate::arith::{tdiv, tmod, lemma_tdiv_tmod, lemma_divmod_unique};
use crate::chunks::{
    BASE, all_below_base, trimmed, val, mag_add, mag_sub, mag_cmp, mag_mul,
    small_div_chunks, small_mul_chunks, trim_chunks, lemma_val_nonneg, lemma_val_lower,
    lemma_val_upper, lemma_val_push, lemma_le_val_le_len, lemma_val_skip_one,
    lemma_val_injective, lemma_val_zero_empty, lemma_val_split,
};
use crate::arith::num_digits;

verus! {

broadcast use vstd::arithmetic::mul::group_mul_basics;

/// Sign of an [`Int`]: kept separate from the magnitude, and forced to `Zero`
/// exactly when the magnitude is empty.
#[derive(Debug, Clone, Copy, PartialEq, Eq, Hash, Structural)]
pub enum Sign {
    Negative,
    Zero,
    Positive,
}

/// Why an arithmetic operation was refused.
#[derive(Debug, Clone, Copy, PartialEq, Eq, Hash, Structural)]
pub enum ArithError {
    /// Division or modulo by zero.
    DivideByZero,
    /// An argument outside the mathematical domain of the operation.
    Domain,
}

/// An arbitrary-precision signed integer in sign-magnitude form.
///
/// The magnitude is a little-endian sequence of base-`10^18` chunks with no
/// trailing zero; the sign is `Zero` exactly when the magnitude is empty.
#[derive(Debug, Hash)]
pub struct Int {
    sign: Sign,
    chunks: Vec<u64>,
}

impl View for Int {
    type V = int;

    closed spec fn view(&self) -> int {
        match self.sign {
            Sign::Zero => 0,
            Sign::Positive => val(self.chunks@),
            Sign::Negative => -val(self.chunks@),
        }
    }
}

impl Int {
    /// The representation invariant: every chunk is a base digit, there is no
    /// trailing zero chunk, and the sign is `Zero` exactly for the empty magnitude.
    pub closed spec fn wf(&self) -> bool {
        &&& all_below_base(self.chunks@)
        &&& trimmed(self.chunks@)
        &&& (self.sign is Zero <==> self.chunks@.len() == 0)
    }

    proof fn lemma_sign(&self)
        requires
            self.wf(),
        ensures
            self@ == 0 <==> self.sign is Zero,
            self@ > 0 <==> self.sign is Positive,
            self@ < 0 <==> self.sign is Negative,
            abs(self@) == val(self.chunks@),
    {
        lemma_val_nonneg(self.chunks@);
        if self.chunks@.len() > 0 {
            lemma_val_lower(self.chunks@);
            lemma_pow_positive(BASE as int, (self.chunks@.len() - 1) as nat);
        }
    }

    /// Assemble an `Int` from a well-formed magnitude and a requested sign;
    /// an empty magnitude always yields zero.
    fn mk(negative: bool, chunks: Vec<u64>) -> (r: Int)
        requires
            all_below_base(chunks@),
            trimmed(chunks@),
        ensures
            r.wf(),
            r@ == if negative {
                -val(chunks@)
            } else {
                val(chunks@)
            },
    {
        if chunks.len() == 0 {
            Int { sign: Sign::Zero, chunks }
        } else if negative {
            Int { sign: Sign::Negative, chunks }
        } else {
            Int { sign: Sign::Positive, chunks }
        }
    }

    /// Construct a new zero integer.
    pub fn new() -> (r: Self)
        ensures
            r.wf(),
            r@ == 0,
    {
        Int { sign: Sign::Zero, chunks: Vec::new() }
    }

    /// Construct the integer denoting a 128-bit signed value.
    pub fn from_i128(n: i128) -> (r: Self)
        ensures
            r.wf(),
            r@ == n,
    {
        let mut m: u128 = if n >= 0 {
            n as u128
        } else if n == i128::MIN {
            (i128::MAX as u128) + 1
        } else {
            (-n) as u128
        };
        let ghost m0 = m;
        let mut chunks: Vec<u64> = Vec::new();
        proof {
            vstd::arithmetic::power::lemma_pow0(BASE as int);
        }
        while m > 0
            invariant
                val(chunks@) + m * pow(BASE as int, chunks@.len() as nat) == m0,
                all_below_base(chunks@),
            decreases m,
        {
            let ghost mp = m;
            let ghost cp = chunks@;
            let d = (m % BASE as u128) as u64;
            m = m / BASE as u128;
            chunks.push(d);
            proof {
                let p = pow(BASE as int, cp.len() as nat);
                lemma_pow_positive(BASE as int, cp.len() as nat);
                lemma_val_push(cp, d);
                assert(pow(BASE as int, (cp.len() + 1) as nat) == BASE * p) by {
                    vstd::arithmetic::power::lemma_pow1(BASE as int);
                    vstd::arithmetic::power::lemma_pow_adds(BASE as int, 1, cp.len() as nat);
                }
                vstd::arithmetic::div_mod::lemma_fundamental_div_mod(mp as int, BASE as int);
                assert(val(cp) + d * p + m * (BASE * p) == val(cp) + mp * p) by (nonlinear_arith)
                    requires mp as int == (BASE as int) * (m as int) + d;
                assert(m < mp) by (nonlinear_arith)
                    requires mp as int == (BASE as int) * (m as int) + d, 0 <= d, mp > 0, BASE > 1,
                        m >= 0;
            }
        }
        trim_chunks(&mut chunks);
        proof {
            if n >= 0 {
                assert(m0 == abs(n as int));
            } else {
                assert(m0 == abs(n as int));
            }
        }
        let r = Int::mk(n < 0, chunks);
        proof {
            if n >= 0 {
                assert(r@ == n);
            }
        }
        r
    }

    /// Construct the integer denoting a 64-bit signed value.
    pub fn from_i64(n: i64) -> (r: Self)
        ensures
            r.wf(),
            r@ == n,
    {
        Int::from_i128(n as i128)
    }

    /// Determine whether the integer is zero quickly.
    pub fn is_zero(&self) -> (r: bool)
        requires
            self.wf(),
        ensures
            r <==> self@ == 0,
    {
        proof {
            self.lemma_sign();
        }
        match self.sign {
            Sign::Zero => true,
            _ => false,
        }
    }

    /// Determine whether the integer is positive quickly.
    pub fn is_positive(&self) -> (r: bool)
        requires
            self.wf(),
        ensures
            r <==> self@ > 0,
    {
        proof {
            self.lemma_sign();
        }
        match self.sign {
            Sign::Positive => true,
            _ => false,
        }
    }

    /// Determine whether the integer is negative quickly.
    pub fn is_negative(&self) -> (r: bool)
        requires
            self.wf(),
        ensures
            r <==> self@ < 0,
    {
        proof {
            self.lemma_sign();
        }
        match self.sign {
            Sign::Negative => true,
            _ => false,
        }
    }

    /// Determine whether the integer is even quickly.
    pub fn is_even(&self) -> (r: bool)
        requires
            self.wf(),
        ensures
            r <==> self@ % 2 == 0,
    {
        proof {
            self.lemma_parity();
        }
        if self.chunks.len() == 0 {
            true
        } else {
            self.chunks[0] % 2 == 0
        }
    }

    /// Determine whether the integer is odd quickly.
    pub fn is_odd(&self) -> (r: bool)
        requires
            self.wf(),
        ensures
            r <==> self@ % 2 != 0,
    {
        proof {
            self.lemma_parity();
        }
        if self.chunks.len() == 0 {
            false
        } else {
            self.chunks[0] % 2 == 1
        }
    }

    proof fn lemma_parity(&self)
        requires
            self.wf(),
        ensures
            self.chunks@.len() == 0 ==> self@ % 2 == 0,
            self.chunks@.len() > 0 ==> (self@ % 2 == 0 <==> self.chunks@[0] % 2 == 0),
    {
        if self.chunks@.len() > 0 {
            let s = self.chunks@;
            lemma_val_skip_one(s);
            lemma_val_nonneg(s.skip(1));
            let c = s[0] as int;
            let rest = val(s.skip(1));
            assert(val(s) % 2 == c % 2) by (nonlinear_arith)
                requires val(s) == c + (BASE as int) * rest, 0 <= c, rest >= 0;
            if self.sign is Negative {
                assert((-val(s)) % 2 == (2 - val(s) % 2) % 2) by (nonlinear_arith)
                    requires val(s) >= 0;
            }
        }
    }

    /// Return the absolute value of self.
    pub fn abs(&self) -> (r: Self)
        requires
            self.wf(),
        ensures
            r.wf(),
            r@ == abs(self@),
    {
        proof {
            self.lemma_sign();
        }
        let sign = match self.sign {
            Sign::Negative => Sign::Positive,
            Sign::Zero => Sign::Zero,
            Sign::Positive => Sign::Positive,
        };
        Int { sign, chunks: self.chunks.clone() }
    }

    /// Return the negation of self.
    pub fn neg(&self) -> (r: Self)
        requires
            self.wf(),
        ensures
            r.wf(),
            r@ == -self@,
    {
        let sign = match self.sign {
            Sign::Negative => Sign::Positive,
            Sign::Zero => Sign::Zero,
            Sign::Positive => Sign::Negative,
        };
        Int { sign, chunks: self.chunks.clone() }
    }

    /// Compare two integers: sign first, then magnitude.
    pub fn cmp(&self, other: &Self) -> (r: core::cmp::Ordering)
        requires
            self.wf(),
            other.wf(),
        ensures
            r is Less <==> self@ < other@,
            r is Greater <==> self@ > other@,
            r is Equal <==> self@ == other@,
    {
        proof {
            self.lemma_sign();
            other.lemma_sign();
        }
        match (self.sign, other.sign) {
            (Sign::Negative, Sign::Negative) => mag_cmp(&other.chunks, &self.chunks),
            (Sign::Negative, _) => core::cmp::Ordering::Less,
            (Sign::Zero, Sign::Negative) => core::cmp::Ordering::Greater,
            (Sign::Zero, Sign::Zero) => core::cmp::Ordering::Equal,
            (Sign::Zero, Sign::Positive) => core::cmp::Ordering::Less,
            (Sign::Positive, Sign::Positive) => mag_cmp(&self.chunks, &other.chunks),
            (Sign::Positive, _) => core::cmp::Ordering::Greater,
        }
    }

    /// True when self is at most `other`.
    pub fn le(&self, other: &Self) -> (r: bool)
        requires
            self.wf(),
            other.wf(),
        ensures
            r <==> self@ <= other@,
    {
        match self.cmp(other) {
            core::cmp::Ordering::Greater => false,
            _ => true,
        }
    }

    /// True when self is strictly less than `other`.
    pub fn lt(&self, other: &Self) -> (r: bool)
        requires
            self.wf(),
            other.wf(),
        ensures
            r <==> self@ < other@,
    {
        match self.cmp(other) {
            core::cmp::Ordering::Less => true,
            _ => false,
        }
    }

    /// Add two integers.
    pub fn add(&self, rhs: &Self) -> (r: Self)
        requires
            self.wf(),
            rhs.wf(),
        ensures
            r.wf(),
            r@ == self@ + rhs@,
    {
        proof {
            self.lemma_sign();
            rhs.lemma_sign();
        }
        match (self.sign, rhs.sign) {
            (Sign::Zero, _) => rhs.clone(),
            (_, Sign::Zero) => self.clone(),
            (a, b) => {
                let same = match (a, b) {
                    (Sign::Negative, Sign::Negative) => true,
                    (Sign::Positive, Sign::Positive) => true,
                    _ => false,
                };
                if same {
                    let mag = mag_add(&self.chunks, &rhs.chunks);
                    Int::mk(match a { Sign::Negative => true, _ => false }, mag)
                } else {
                    // opposite signs: subtract the smaller magnitude from the larger
                    match mag_cmp(&self.chunks, &rhs.chunks) {
                        core::cmp::Ordering::Equal => Int::new(),
                        core::cmp::Ordering::Greater => {
                            proof {
                                lemma_le_val_le_len(self.chunks@, rhs.chunks@);
                            }
                            let mag = mag_sub(&self.chunks, &rhs.chunks);
                            Int::mk(match a { Sign::Negative => true, _ => false }, mag)
                        },
                        core::cmp::Ordering::Less => {
                            proof {
                                lemma_le_val_le_len(rhs.chunks@, self.chunks@);
                            }
                            let mag = mag_sub(&rhs.chunks, &self.chunks);
                            Int::mk(match b { Sign::Negative => true, _ => false }, mag)
                        },
                    }
                }
            },
        }
    }

    /// Subtract `rhs` from self.
    pub fn sub(&self, rhs: &Self) -> (r: Self)
        requires
            self.wf(),
            rhs.wf(),
        ensures
            r.wf(),
            r@ == self@ - rhs@,
    {
        self.add(&rhs.neg())
    }

    /// Multiply two integers by the schoolbook method.
    pub fn mul(&self, rhs: &Self) -> (r: Self)
        requires
            self.wf(),
            rhs.wf(),
        ensures
            r.wf(),
            r@ == self@ * rhs@,
    {
        proof {
            self.lemma_sign();
            rhs.lemma_sign();
        }
        let negative = match (self.sign, rhs.sign) {
            (Sign::Negative, Sign::Positive) => true,
            (Sign::Positive, Sign::Negative) => true,
            _ => false,
        };
        let mag = mag_mul(&self.chunks, &rhs.chunks);
        let r = Int::mk(negative, mag);
        proof {
            let va = val(self.chunks@);
            let vb = val(rhs.chunks@);
            assert(val(mag@) == va * vb);
            if self.sign is Negative && rhs.sign is Negative {
                assert((-va) * (-vb) == va * vb) by (nonlinear_arith);
            }
            if self.sign is Negative && rhs.sign is Positive {
                assert((-va) * vb == -(va * vb)) by (nonlinear_arith);
            }
            if self.sign is Positive && rhs.sign is Negative {
                assert(va * (-vb) == -(va * vb)) by (nonlinear_arith);
            }
            if self.sign is Zero || rhs.sign is Zero {
                assert(self@ * rhs@ == 0) by (nonlinear_arith)
                    requires self@ == 0 || rhs@ == 0;
            }
        }
        r
    }
}


impl Int {
    /// Compare two magnitudes, true when `val(x) <= val(y)`.
    fn mag_le(x: &Vec<u64>, y: &Vec<u64>) -> (r: bool)
        requires
            all_below_base(x@),
            all_below_base(y@),
            trimmed(x@),
            trimmed(y@),
        ensures
            r <==> val(x@) <= val(y@),
    {
        match mag_cmp(x, y) {
            core::cmp::Ordering::Greater => false,
            _ => true,
        }
    }

    /// Return the quotient and remainder simultaneously, so that
    /// `self == quotient * rhs + remainder` with the remainder carrying the
    /// sign of the dividend (truncating division).  A zero divisor is refused.
    pub fn divmod(&self, rhs: &Self) -> (r: Result<(Self, Self), ArithError>)
        requires
            self.wf(),
            rhs.wf(),
        ensures
            r is Err <==> rhs@ == 0,
            r is Err ==> r == Err::<(Self, Self), ArithError>(ArithError::DivideByZero),
            r matches Ok(p) ==> {
                &&& p.0.wf() && p.1.wf()
                &&& p.0@ == tdiv(self@, rhs@)
                &&& p.1@ == tmod(self@, rhs@)
                &&& self@ == p.0@ * rhs@ + p.1@
                &&& abs(p.1@) < abs(rhs@)
                &&& self@ >= 0 ==> p.1@ >= 0
                &&& self@ <= 0 ==> p.1@ <= 0
            },
    {
        proof {
            self.lemma_sign();
            rhs.lemma_sign();
        }
        if rhs.is_zero() {
            return Err(ArithError::DivideByZero);
        }
        let ghost av = val(self.chunks@);
        let ghost bv = val(rhs.chunks@);
        proof {
            lemma_val_nonneg(self.chunks@);
            lemma_val_lower(rhs.chunks@);
            lemma_pow_positive(BASE as int, (rhs.chunks@.len() - 1) as nat);
            assert(bv >= 1);
        }
        let mut a = self.chunks.clone();
        let qm: Vec<u64>;
        let rm: Vec<u64>;
        if rhs.chunks.len() == 1 {
            // single-chunk divisor: one linear pass over the dividend
            let d = rhs.chunks[0];
            proof {
                let s = rhs.chunks@;
                assert(s.last() == s[0]);
                assert(s.drop_last() =~= Seq::<u64>::empty());
                vstd::arithmetic::power::lemma_pow0(BASE as int);
                let pz = pow(BASE as int, 0);
                assert(val(Seq::<u64>::empty()) == 0);
                assert(val(s.drop_last()) == 0);
                assert(val(s) == 0 + (d as int) * pz);
                assert(val(s) == d) by (nonlinear_arith)
                    requires val(s) == 0 + (d as int) * pz, pz == 1;
            }
            let rr = small_div_chunks(&mut a, d);
            let mut rv: Vec<u64> = Vec::new();
            if rr > 0 {
                let ghost rv0 = rv@;
                rv.push(rr);
                proof {
                    lemma_val_push(rv0, rr);
                    vstd::arithmetic::power::lemma_pow0(BASE as int);
                }
            }
            proof {
                assert(val(rv@) == rr);
                vstd::arithmetic::div_mod::lemma_fundamental_div_mod(av, d as int);
                assert(av == val(a@) * bv + val(rv@)) by (nonlinear_arith)
                    requires
                        av == (d as int) * (av / (d as int)) + av % (d as int),
                        val(a@) == av / (d as int),
                        val(rv@) == av % (d as int),
                        bv == d;
            }
            qm = a;
            rm = rv;
        } else {
            // doubling/halving long division
            let mut b = rhs.chunks.clone();
            let mut t: Vec<u64> = Vec::new();
            t.push(1);
            let mut q: Vec<u64> = Vec::new();
            let ghost mut e: nat = 0;
            proof {
                vstd::arithmetic::power::lemma_pow0(BASE as int);
                vstd::arithmetic::power::lemma_pow0(2);
                lemma_val_push(Seq::<u64>::empty(), 1);
                assert(val(t@) == 1);
            }
            // double the divisor until it exceeds the dividend
            while Int::mag_le(&b, &a)
                invariant
                    all_below_base(a@),
                    trimmed(a@),
                    all_below_base(b@),
                    trimmed(b@),
                    all_below_base(t@),
                    trimmed(t@),
                    val(a@) == av,
                    bv >= 1,
                    val(t@) == pow(2, e),
                    val(b@) == bv * val(t@),
                decreases (if val(b@) <= av { av + 1 - val(b@) } else { 0 }),
            {
                proof {
                    lemma_pow_positive(2, e);
                    assert(val(b@) >= 1) by (nonlinear_arith)
                        requires val(b@) == bv * val(t@), bv >= 1, val(t@) >= 1;
                }
                let ghost bprev = val(b@);
                let ghost tprev = val(t@);
                small_mul_chunks(&mut b, 2);
                small_mul_chunks(&mut t, 2);
                proof {
                    e = e + 1;
                    vstd::arithmetic::power::lemma_pow1(2);
                    vstd::arithmetic::power::lemma_pow_adds(2, (e - 1) as nat, 1);
                    assert(val(t@) == pow(2, e)) by (nonlinear_arith)
                        requires
                            val(t@) == tprev * 2,
                            tprev == pow(2, (e - 1) as nat),
                            pow(2, e) == pow(2, (e - 1) as nat) * pow(2, 1),
                            pow(2, 1) == 2;
                    assert(val(b@) == bv * val(t@)) by (nonlinear_arith)
                        requires val(b@) == bprev * 2, bprev == bv * tprev, val(t@) == tprev * 2;
                }
            }
            proof {
                lemma_pow_positive(2, e);
                assert(av < val(b@));
                assert(av < 2 * (bv * val(t@))) by (nonlinear_arith)
                    requires av < bv * val(t@), bv >= 1, val(t@) >= 1;
            }
            // halve back down, accumulating quotient contributions
            while t.len() > 0
                invariant
                    all_below_base(a@),
                    trimmed(a@),
                    all_below_base(b@),
                    trimmed(b@),
                    all_below_base(t@),
                    trimmed(t@),
                    all_below_base(q@),
                    trimmed(q@),
                    bv >= 1,
                    av == val(q@) * bv + val(a@),
                    t@.len() > 0 ==> val(t@) == pow(2, e) && val(b@) == bv * val(t@)
                        && val(a@) < 2 * (bv * val(t@)),
                    t@.len() == 0 ==> val(a@) < bv,
                decreases val(t@),
            {
                proof {
                    lemma_pow_positive(2, e);
                    lemma_val_nonneg(t@);
                    lemma_val_lower(t@);
                    lemma_pow_positive(BASE as int, (t@.len() - 1) as nat);
                }
                let ghost tv = val(t@);
                let ghost bvv = val(b@);
                let ghost qv = val(q@);
                let ghost avv = val(a@);
                let do_sub = Int::mag_le(&b, &a);
                if do_sub {
                    proof {
                        lemma_le_val_le_len(a@, b@);
                    }
                    let a2 = mag_sub(&a, &b);
                    a = a2;
                    let q2 = mag_add(&q, &t);
                    q = q2;
                    proof {
                        assert(av == val(q@) * bv + val(a@)) by (nonlinear_arith)
                            requires
                                av == qv * bv + avv,
                                val(q@) == qv + tv,
                                val(a@) == avv - bvv,
                                bvv == bv * tv;
                    }
                }
                let ghost avm = val(a@);
                let ghost qvm = val(q@);
                let _rb = small_div_chunks(&mut b, 2);
                let _rt = small_div_chunks(&mut t, 2);
                proof {
                    lemma_val_nonneg(a@);
                    vstd::arithmetic::div_mod::lemma_fundamental_div_mod(tv, 2);
                    vstd::arithmetic::div_mod::lemma_fundamental_div_mod(bvv, 2);
                    // the remainder after a possible subtraction is below b
                    assert(avm < bvv) by (nonlinear_arith)
                        requires
                            avv < 2 * (bv * tv),
                            bvv == bv * tv,
                            avm == if avv >= bvv { avv - bvv } else { avv },
                    ;
                    if e == 0 {
                        assert(tv == 1);
                        assert(val(t@) == 0);
                        lemma_val_zero_empty(t@);
                        assert(avm < bv) by (nonlinear_arith)
                            requires avm < bvv, bvv == bv * tv, tv == 1;
                    } else {
                        let e2 = (e - 1) as nat;
                        vstd::arithmetic::power::lemma_pow1(2);
                        vstd::arithmetic::power::lemma_pow_adds(2, e2, 1);
                        lemma_pow_positive(2, e2);
                        assert(tv == 2 * pow(2, e2)) by (nonlinear_arith)
                            requires tv == pow(2, e2) * pow(2, 1), pow(2, 1) == 2;
                        vstd::arithmetic::div_mod::lemma_fundamental_div_mod_converse_div(
                            tv, 2, pow(2, e2), 0);
                        assert(val(t@) == pow(2, e2));
                        assert(bvv == 2 * (bv * pow(2, e2))) by (nonlinear_arith)
                            requires bvv == bv * tv, tv == 2 * pow(2, e2);
                        vstd::arithmetic::div_mod::lemma_fundamental_div_mod_converse_div(
                            bvv, 2, bv * pow(2, e2), 0);
                        assert(val(b@) == bv * pow(2, e2));
                        e = e2;
                        assert(val(a@) < 2 * (bv * val(t@))) by (nonlinear_arith)
                            requires
                                val(a@) == avm,
                                avm < bvv,
                                bvv == 2 * (bv * pow(2, e2)),
                                val(t@) == pow(2, e2),
                                val(b@) == bv * pow(2, e2);
                        if t@.len() == 0 {
                            assert(val(t@) == 0);
                            assert(false);
                        }
                    }
                }
            }
            qm = q;
            rm = a;
        }
        proof {
            assert(av == val(qm@) * bv + val(rm@));
            assert(0 <= val(rm@) < bv) by {
                lemma_val_nonneg(rm@);
            }
        }
        let qneg = match (self.sign, rhs.sign) {
            (Sign::Negative, Sign::Positive) => true,
            (Sign::Positive, Sign::Negative) => true,
            _ => false,
        };
        let rneg = match self.sign {
            Sign::Negative => true,
            _ => false,
        };
        let q = Int::mk(qneg, qm);
        let m = Int::mk(rneg, rm);
        proof {
            let vq = val(qm@);
            let vm = val(rm@);
            lemma_val_nonneg(qm@);
            lemma_val_nonneg(rm@);
            if self.sign is Positive && rhs.sign is Positive {
                assert(self@ == q@ * rhs@ + m@) by (nonlinear_arith)
                    requires av == vq * bv + vm, self@ == av, rhs@ == bv, q@ == vq, m@ == vm;
            }
            if self.sign is Positive && rhs.sign is Negative {
                assert(self@ == q@ * rhs@ + m@) by (nonlinear_arith)
                    requires av == vq * bv + vm, self@ == av, rhs@ == -bv, q@ == -vq, m@ == vm;
            }
            if self.sign is Negative && rhs.sign is Positive {
                assert(self@ == q@ * rhs@ + m@) by (nonlinear_arith)
                    requires av == vq * bv + vm, self@ == -av, rhs@ == bv, q@ == -vq, m@ == -vm;
            }
            if self.sign is Negative && rhs.sign is Negative {
                assert(self@ == q@ * rhs@ + m@) by (nonlinear_arith)
                    requires av == vq * bv + vm, self@ == -av, rhs@ == -bv, q@ == vq, m@ == -vm;
            }
            if self.sign is Zero {
                assert(av == 0);
                assert(vq == 0 && vm == 0) by (nonlinear_arith)
                    requires av == vq * bv + vm, av == 0, vq >= 0, vm >= 0, bv >= 1;
                assert(self@ == q@ * rhs@ + m@) by (nonlinear_arith)
                    requires self@ == 0, q@ == 0, m@ == 0;
            }
            lemma_val_nonneg(qm@);
            lemma_divmod_unique(self@, rhs@, q@, m@);
        }
        Ok((q, m))
    }

    /// Return the quotient of truncating division.
    pub fn div(&self, rhs: &Self) -> (r: Result<Self, ArithError>)
        requires
            self.wf(),
            rhs.wf(),
        ensures
            r is Err <==> rhs@ == 0,
            r is Err ==> r == Err::<Self, ArithError>(ArithError::DivideByZero),
            r matches Ok(q) ==> q.wf() && q@ == tdiv(self@, rhs@),
    {
        match self.divmod(rhs) {
            Ok(p) => Ok(p.0),
            Err(x) => Err(x),
        }
    }

    /// Return the remainder of truncating division; it carries the dividend's sign.
    pub fn rem(&self, rhs: &Self) -> (r: Result<Self, ArithError>)
        requires
            self.wf(),
            rhs.wf(),
        ensures
            r is Err <==> rhs@ == 0,
            r is Err ==> r == Err::<Self, ArithError>(ArithError::DivideByZero),
            r matches Ok(m) ==> m.wf() && m@ == tmod(self@, rhs@),
    {
        match self.divmod(rhs) {
            Ok(p) => Ok(p.1),
            Err(x) => Err(x),
        }
    }

    /// Increase the value by 1 quickly.
    pub fn inc(&mut self)
        requires
            old(self).wf(),
        ensures
            final(self).wf(),
            final(self)@ == old(self)@ + 1,
    {
        let one = Int::from_i64(1);
        let r = self.add(&one);
        *self = r;
    }

    /// Decrease the value by 1 quickly.
    pub fn dec(&mut self)
        requires
            old(self).wf(),
        ensures
            final(self).wf(),
            final(self)@ == old(self)@ - 1,
    {
        let one = Int::from_i64(1);
        let r = self.sub(&one);
        *self = r;
    }

    /// Attempt to convert this integer to a primitive 128-bit value;
    /// the value must fit.
    pub fn to_number(&self) -> (r: i128)
        requires
            self.wf(),
            -(i128::MAX as int) <= self@ <= i128::MAX as int,
        ensures
            r as int == self@,
    {
        proof {
            self.lemma_sign();
        }
        let ghost s = self.chunks@;
        let mut m: u128 = 0;
        let mut i: usize = self.chunks.len();
        proof {
            assert(s.skip(i as int) =~= Seq::<u64>::empty());
            lemma_val_nonneg(s);
        }
        while i > 0
            invariant
                i <= s.len(),
                s == self.chunks@,
                self.wf(),
                m as int == val(s.skip(i as int)),
                val(s) <= i128::MAX as int,
            decreases i,
        {
            i = i - 1;
            proof {
                lemma_val_skip_one(s.skip(i as int));
                assert(s.skip(i as int).skip(1) =~= s.skip(i + 1));
                lemma_val_split(s, i as int);
                lemma_val_nonneg(s.take(i as int));
                lemma_val_nonneg(s.skip(i as int));
                lemma_pow_positive(BASE as int, i as nat);
                assert(val(s.skip(i as int)) <= val(s)) by (nonlinear_arith)
                    requires
                        val(s) == val(s.take(i as int)) + val(s.skip(i as int)) * pow(
                            BASE as int, i as nat),
                        val(s.take(i as int)) >= 0,
                        pow(BASE as int, i as nat) >= 1,
                        val(s.skip(i as int)) >= 0;
                assert((m as int) * (BASE as int) + s[i as int] == val(s.skip(i as int)))
                    by (nonlinear_arith)
                    requires val(s.skip(i as int)) == s[i as int] + (BASE as int) * (m as int);
            }
            m = m * (BASE as u128) + self.chunks[i] as u128;
        }
        proof {
            assert(s.skip(0) =~= s);
        }
        match self.sign {
            Sign::Negative => -(m as i128),
            _ => m as i128,
        }
    }
}

impl Clone for Int {
    /// Clone preserves the denoted value and well-formedness.
    fn clone(&self) -> (r: Self)
        ensures
            r@ == self@,
            r.wf() <==> self.wf(),
    {
        Int { sign: self.sign, chunks: self.chunks.clone() }
    }
}

impl PartialEq for Int {
    /// Two integers are equal when sign and magnitude agree chunk for chunk.
    fn eq(&self, other: &Self) -> (r: bool)
    {
        let sign_eq = match (self.sign, other.sign) {
            (Sign::Negative, Sign::Negative) => true,
            (Sign::Zero, Sign::Zero) => true,
            (Sign::Positive, Sign::Positive) => true,
            _ => false,
        };
        if !sign_eq {
            return false;
        }
        if self.chunks.len() != other.chunks.len() {
            return false;
        }
        let mut i: usize = 0;
        while i < self.chunks.len()
            invariant
                i <= self.chunks@.len(),
                self.chunks@.len() == other.chunks@.len(),
                forall|j: int| 0 <= j < i ==> self.chunks@[j] == other.chunks@[j],
            decreases self.chunks@.len() - i,
        {
            if self.chunks[i] != other.chunks[i] {
                return false;
            }
            i = i + 1;
        }
        proof {
            assert(self.chunks@ =~= other.chunks@);
        }
        true
    }
}

impl vstd::std_specs::cmp::PartialEqSpecImpl for Int {
    open spec fn obeys_eq_spec() -> bool {
        true
    }

    closed spec fn eq_spec(&self, other: &Self) -> bool {
        self.sign == other.sign && self.chunks@ == other.chunks@
    }
}

impl Eq for Int {}

/// For well-formed integers, structural equality coincides with equality of
/// the denoted values: the representation is canonical.
pub proof fn lemma_int_eq_is_value_eq(a: &Int, b: &Int)
    requires
        a.wf(),
        b.wf(),
    ensures
        a.eq_spec(b) <==> a@ == b@,
{
    a.lemma_sign();
    b.lemma_sign();
    if a.eq_spec(b) {
        assert(a@ == b@);
    } else {
        if a@ == b@ {
            assert(abs(a@) == abs(b@));
            lemma_val_injective(a.chunks@, b.chunks@);
            assert(a.sign == b.sign);
            assert(false);
        }
    }
}


/// The internal radix is the eighteenth power of ten.
proof fn lemma_base_is_pow10()
    ensures
        BASE as int == pow(10, 18),
        pow(10, 20) == BASE as int * 100,
{
    vstd::arithmetic::power::lemma_pow1(10);
    vstd::arithmetic::power::lemma_pow_adds(10, 1, 1);
    vstd::arithmetic::power::lemma_pow_adds(10, 2, 2);
    vstd::arithmetic::power::lemma_pow_adds(10, 4, 4);
    vstd::arithmetic::power::lemma_pow_adds(10, 8, 8);
    vstd::arithmetic::power::lemma_pow_adds(10, 16, 2);
    vstd::arithmetic::power::lemma_pow_adds(10, 18, 2);
    assert(pow(10, 2) == 100) by (nonlinear_arith)
        requires pow(10, 2) == pow(10, 1) * pow(10, 1), pow(10, 1) == 10;
    assert(pow(10, 4) == 10000) by (nonlinear_arith)
        requires pow(10, 4) == pow(10, 2) * pow(10, 2), pow(10, 2) == 100;
    assert(pow(10, 8) == 100000000) by (nonlinear_arith)
        requires pow(10, 8) == pow(10, 4) * pow(10, 4), pow(10, 4) == 10000;
    assert(pow(10, 16) == 10000000000000000) by (nonlinear_arith)
        requires pow(10, 16) == pow(10, 8) * pow(10, 8), pow(10, 8) == 100000000;
    assert(pow(10, 18) == 1000000000000000000) by (nonlinear_arith)
        requires pow(10, 18) == pow(10, 16) * pow(10, 2), pow(10, 16) == 10000000000000000,
            pow(10, 2) == 100;
    assert(pow(10, 20) == pow(10, 18) * 100);
}

/// A 64-bit value has at most twenty decimal digits.
proof fn lemma_num_digits_u64(x: u64)
    ensures
        crate::arith::num_digits(x as nat) <= 20,
{
    crate::arith::lemma_num_digits_bounds(x as nat);
    let d = crate::arith::num_digits(x as nat);
    lemma_base_is_pow10();
    if d > 20 {
        vstd::arithmetic::power::lemma_pow_increases(10, 20, (d - 1) as nat);
        assert(false);
    }
}

/// The decimal digit count of a chunked magnitude: eighteen digits for every
/// full chunk, plus the digits of the leading chunk.
proof fn lemma_chunk_digit_count(s: Seq<u64>)
    requires
        all_below_base(s),
        s.len() > 0,
        s.last() != 0,
    ensures
        crate::arith::num_digits(val(s) as nat) == 18 * (s.len() - 1) + crate::arith::num_digits(
            s.last() as nat),
{
    let l = s.len() as int;
    let top = s.last() as nat;
    let d = crate::arith::num_digits(top);
    crate::arith::lemma_num_digits_bounds(top);
    lemma_base_is_pow10();
    lemma_val_nonneg(s.drop_last());
    assert(all_below_base(s.drop_last()));
    lemma_val_upper(s.drop_last());
    let p = pow(BASE as int, (l - 1) as nat);
    lemma_pow_positive(BASE as int, (l - 1) as nat);
    vstd::arithmetic::power::lemma_pow_multiplies(10, 18, (l - 1) as nat);
    assert(p == pow(10, (18 * (l - 1)) as nat));
    // lower bound: top * BASE^(l-1) alone reaches the digit window
    vstd::arithmetic::power::lemma_pow_adds(10, (d - 1) as nat, (18 * (l - 1)) as nat);
    assert(val(s) >= pow(10, (d - 1 + 18 * (l - 1)) as nat)) by (nonlinear_arith)
        requires
            val(s) == val(s.drop_last()) + (top as int) * p,
            val(s.drop_last()) >= 0,
            top >= pow(10, (d - 1) as nat),
            p >= 1,
            pow(10, (d - 1 + 18 * (l - 1)) as nat) == pow(10, (d - 1) as nat) * p;
    // upper bound: the drop keeps the value under the next window
    vstd::arithmetic::power::lemma_pow_adds(10, d, (18 * (l - 1)) as nat);
    assert(val(s) < pow(10, (d + 18 * (l - 1)) as nat)) by (nonlinear_arith)
        requires
            val(s) == val(s.drop_last()) + (top as int) * p,
            val(s.drop_last()) < p,
            top < pow(10, d),
            (top as int) + 1 <= pow(10, d),
            p >= 1,
            pow(10, (d + 18 * (l - 1)) as nat) == pow(10, d) * p;
    crate::arith::lemma_num_digits_unique(val(s) as nat, (18 * (l - 1) + d) as nat);
}

/// The number of decimal digits of a 64-bit value.
fn u64_digit_count(x: u64) -> (r: u32)
    ensures
        r == crate::arith::num_digits(x as nat),
        1 <= r <= 20,
{
    let mut cur = x;
    let mut c: u32 = 1;
    proof {
        lemma_num_digits_u64(x);
    }
    while cur >= 10
        invariant
            c >= 1,
            crate::arith::num_digits(x as nat) == crate::arith::num_digits(cur as nat) + c - 1,
            crate::arith::num_digits(cur as nat) + c - 1 <= 20,
        decreases cur,
    {
        proof {
            vstd::arithmetic::div_mod::lemma_fundamental_div_mod(cur as int, 10);
        }
        cur = cur / 10;
        c = c + 1;
    }
    c
}

impl Int {
    /// Count the number of decimal digits of the integer; zero has none.
    /// The bound on the value keeps the count within its 32-bit result.
    pub fn digits(&self) -> (r: u32)
        requires
            self.wf(),
            abs(self@) < pow(10, 1_000_000_000),
        ensures
            self@ == 0 ==> r == 0,
            self@ != 0 ==> r == crate::arith::num_digits(abs(self@)),
    {
        proof {
            self.lemma_sign();
        }
        if self.is_zero() {
            return 0;
        }
        let l = self.chunks.len();
        let top = self.chunks[l - 1];
        let d = u64_digit_count(top);
        proof {
            lemma_chunk_digit_count(self.chunks@);
            // the value bound limits the chunk count
            lemma_val_lower(self.chunks@);
            lemma_base_is_pow10();
            vstd::arithmetic::power::lemma_pow_multiplies(10, 18, (l - 1) as nat);
            if 18 * (l - 1) >= 1_000_000_000 {
                vstd::arithmetic::power::lemma_pow_increases(10, 1_000_000_000,
                    (18 * (l - 1)) as nat);
                assert(false);
            }
        }
        (l as u32 - 1) * 18 + d
    }

    /// Relies on `rand::random_range`: a uniform sample within the given
    /// inclusive range, which panics only when the range is empty.
    #[verifier::external_body]
    fn sample_uniform(lo: u64, hi: u64) -> (r: u64)
        requires
            lo <= hi,
        ensures
            lo <= r <= hi,
    {
        rand::random_range(lo..=hi)
    }

    /// The tenth powers of a chunk's digit range.
    fn pow10_u64(e: u32) -> (r: u64)
        requires
            e <= 18,
        ensures
            r == pow(10, e as nat),
            r >= 1,
    {
        let mut r: u64 = 1;
        let mut i: u32 = 0;
        proof {
            vstd::arithmetic::power::lemma_pow0(10);
        }
        while i < e
            invariant
                i <= e <= 18,
                r == pow(10, i as nat),
                r >= 1,
                r <= 1_000_000_000_000_000_000,
            decreases e - i,
        {
            proof {
                vstd::arithmetic::power::lemma_pow1(10);
                vstd::arithmetic::power::lemma_pow_adds(10, i as nat, 1);
                lemma_base_is_pow10();
                vstd::arithmetic::power::lemma_pow_increases(10, (i + 1) as nat, 18);
            }
            r = r * 10;
            i = i + 1;
        }
        r
    }

    /// Generate a random integer with exactly `digits` decimal digits: every
    /// chunk below the top is sampled over the full chunk range, and the top
    /// chunk over the range that gives the requested count.
    pub fn random(digits: usize) -> (r: Self)
        requires
            digits >= 1,
            digits < usize::MAX,
        ensures
            r.wf(),
            r@ >= 1,
            crate::arith::num_digits(r@ as nat) == digits,
    {
        let low_chunks = (digits - 1) / 18;
        let mut chunks: Vec<u64> = Vec::new();
        let mut i: usize = 0;
        while i < low_chunks
            invariant
                i <= low_chunks,
                chunks@.len() == i,
                all_below_base(chunks@),
            decreases low_chunks - i,
        {
            let c = Int::sample_uniform(0, BASE - 1);
            chunks.push(c);
            i = i + 1;
        }
        // the most significant chunk carries the remaining digit count
        let n = (digits - 1) % 18 + 1;
        proof {
            assert((digits - 1) % 18 < 18);
            assert(1 <= n <= 18);
        }
        let lo = Int::pow10_u64(n as u32 - 1);
        let hi = Int::pow10_u64(n as u32);
        proof {
            vstd::arithmetic::power::lemma_pow_strictly_increases(10, (n - 1) as nat, n as nat);
        }
        let top = Int::sample_uniform(lo, hi - 1);
        let ghost pre = chunks@;
        chunks.push(top);
        proof {
            lemma_base_is_pow10();
            vstd::arithmetic::power::lemma_pow_increases(10, n as nat, 18);
            assert(top < BASE);
            assert(all_below_base(chunks@)) by {
                assert(forall|j: int| 0 <= j < pre.len() ==> chunks@[j] == pre[j]);
            }
            assert(chunks@.last() == top);
            assert(top >= 1) by {
                vstd::arithmetic::power::lemma_pow_positive(10, (n - 1) as nat);
            }
            lemma_chunk_digit_count(chunks@);
            crate::arith::lemma_num_digits_unique(top as nat, n as nat);
            vstd::arithmetic::div_mod::lemma_fundamental_div_mod(digits as int - 1, 18);
            assert(18 * (chunks@.len() - 1) + n == digits);
            lemma_val_lower(chunks@);
            lemma_pow_positive(BASE as int, (chunks@.len() - 1) as nat);
        }
        Int { sign: Sign::Positive, chunks }
    }
}

} // verus!
