//! Decimal wraps a rational value; its own arithmetic is the fraction's.

use vstd::prelude::*;
use vstd::math::abs;
use crate::fraction::Fraction;

verus! {

/// The error returned when a string is not a decimal literal.
#[derive(Debug, Clone, Copy, PartialEq, Eq, Structural)]
pub struct ParseDecimalError;

/// Decimal provides decimal arithmetic backed by an exact rational value.
#[derive(Debug, Clone, Copy, PartialEq, Eq, Structural, Hash)]
pub struct Decimal {
    value: Fraction,
}

impl View for Decimal {
    type V = (int, int);

    closed spec fn view(&self) -> (int, int) {
        self.value@
    }
}

impl Decimal {
    /// The representation invariant of the underlying fraction.
    pub open spec fn wf(&self) -> bool {
        self@.1 >= 1 && crate::arith::gcd_nat(abs(self@.0), self@.1 as nat) == 1
    }

    /// Construct a new zero decimal.
    pub fn new() -> (r: Self)
        ensures
            r.wf(),
            r@ == (0int, 1int),
    {
        Decimal { value: Fraction::new() }
    }

    /// Construct a decimal from its exact fraction.
    pub fn from_fraction(value: Fraction) -> (r: Self)
        requires
            value.wf(),
        ensures
            r.wf(),
            r@ == value@,
    {
        Decimal { value }
    }

    /// Convert to the exact fraction.
    pub fn as_fraction(&self) -> (r: Fraction)
        requires
            self.wf(),
        ensures
            r.wf(),
            r@ == self@,
    {
        self.value
    }

    /// Return the absolute value.
    pub fn abs(&self) -> (r: Self)
        requires
            self.wf(),
            self@.0 != i128::MIN as int,
        ensures
            r.wf(),
            r@.0 == abs(self@.0),
            r@.1 == self@.1,
    {
        Decimal { value: self.value.abs() }
    }
}


/// The remainder sequence of the decimal expansion of `a / b`: the truncating
/// remainder of `a`, then of ten times the previous remainder, and so on.
pub open spec fn rem_after(a: int, b: int, k: nat) -> int
    recommends
        b != 0,
    decreases k,
{
    if k == 0 {
        crate::arith::tmod(a, b)
    } else {
        crate::arith::tmod(rem_after(a, b, (k - 1) as nat) * 10, b)
    }
}

/// A sequence of distinct values drawn from a bounded integer window cannot
/// be longer than the window.
proof fn lemma_distinct_bounded(s: Seq<i128>, lo: int, hi: int)
    requires
        s.no_duplicates(),
        forall|i: int| 0 <= i < s.len() ==> lo <= #[trigger] s[i] < hi,
        lo <= hi,
    ensures
        s.len() <= hi - lo,
{
    let m = s.map_values(|x: i128| x as int);
    assert(m.no_duplicates()) by {
        assert forall|i: int, j: int| 0 <= i < j < m.len() implies m[i] != m[j] by {
            assert(s[i] != s[j]);
        }
    }
    m.unique_seq_to_set();
    vstd::set_lib::lemma_int_range(lo, hi);
    assert(m.to_set().subset_of(vstd::set_lib::set_int_range(lo, hi))) by {
        assert forall|x: int| m.to_set().contains(x) implies vstd::set_lib::set_int_range(
            lo, hi).contains(x) by {
            let i = choose|i: int| 0 <= i < m.len() && m[i] == x;
            assert(lo <= s[i] < hi);
        }
    }
    vstd::set_lib::lemma_len_subset(m.to_set(), vstd::set_lib::set_int_range(lo, hi));
}

/// The truncating remainder of `x` by `b`, on primitive values.
fn tmod_exec(x: i128, b: i128) -> (r: i128)
    requires
        b != 0,
        -(i128::MAX as int) <= x <= i128::MAX as int,
        -(i128::MAX as int) <= b <= i128::MAX as int,
    ensures
        r == crate::arith::tmod(x as int, b as int),
        -(i128::MAX as int) <= r <= i128::MAX as int,
{
    proof {
        crate::arith::lemma_tdiv_tmod(x as int, b as int);
    }
    let xa = if x < 0 {
        -x
    } else {
        x
    };
    let ba = if b < 0 {
        -b
    } else {
        b
    };
    let m = xa % ba;
    if x < 0 {
        -m
    } else {
        m
    }
}

impl Decimal {
    /// For a numerator `a` and denominator `b`, find where the decimal
    /// expansion starts to repeat: the start index and the length of the
    /// cycle of the remainder sequence, or `None` when the expansion
    /// terminates.
    pub fn find_cyclic(a: i128, b: i128) -> (r: Option<(usize, usize)>)
        requires
            b != 0,
            -(i128::MAX as int) <= a <= i128::MAX as int,
            abs(b as int) <= (i128::MAX / 10) as int,
        ensures
            r matches Some(p) ==> {
                &&& p.1 >= 1
                &&& rem_after(a as int, b as int, (p.0 + p.1) as nat) == rem_after(a as int,
                    b as int, p.0 as nat)
                &&& forall|i: int, j: int|
                    #![trigger rem_after(a as int, b as int, i as nat), rem_after(a as int, b as int, j as nat)]
                    0 <= i < j < p.0 + p.1 ==> rem_after(a as int, b as int, i as nat)
                        != rem_after(a as int, b as int, j as nat)
                &&& forall|k: int| 0 <= k < p.0 + p.1 ==> #[trigger] rem_after(a as int,
                    b as int, k as nat) != 0
            },
            r is None ==> exists|k: nat| #[trigger] rem_after(a as int, b as int, k) == 0,
    {
        let ghost ai = a as int;
        let ghost bi = b as int;
        let ghost ba = abs(bi) as int;
        let mut rems: Vec<i128> = Vec::new();
        let mut rem = tmod_exec(a, b);
        proof {
            crate::arith::lemma_tdiv_tmod(ai, bi);
        }
        while rem != 0
            invariant
                b != 0,
                bi == b as int,
                ai == a as int,
                ba == abs(bi) as int,
                ba <= (i128::MAX / 10) as int,
                rem as int == rem_after(ai, bi, rems@.len() as nat),
                abs(rem as int) < ba,
                rems@.no_duplicates(),
                forall|k: int| 0 <= k < rems@.len() ==> rems@[k] == rem_after(ai, bi, k as nat),
                forall|k: int| 0 <= k < rems@.len() ==> rems@[k] != 0,
                rems@.len() <= 2 * ba,
            decreases 2 * ba - rems@.len(),
        {
            // look for the remainder among those already seen
            let n = rems.len();
            let mut p: usize = 0;
            while p < n
                invariant
                    p <= n,
                    n == rems@.len(),
                    forall|k: int| 0 <= k < p ==> rems@[k] != rem,
                decreases n - p,
            {
                if rems[p] == rem {
                    proof {
                        assert(rems@[p as int] == rem_after(ai, bi, p as nat));
                        assert(rem as int == rem_after(ai, bi, n as nat));
                        assert forall|i: int, j: int|
                            #![trigger rem_after(ai, bi, i as nat), rem_after(ai, bi, j as nat)]
                            0 <= i < j < n implies rem_after(ai, bi, i as nat) != rem_after(
                            ai, bi, j as nat) by {
                            assert(rems@[i] == rem_after(ai, bi, i as nat));
                            assert(rems@[j] == rem_after(ai, bi, j as nat));
                        }
                        assert forall|k: int| 0 <= k < n implies #[trigger] rem_after(ai, bi,
                            k as nat) != 0 by {
                            assert(rems@[k] == rem_after(ai, bi, k as nat));
                        }
                    }
                    return Some((p, n - p));
                }
                p = p + 1;
            }
            let ghost prev = rems@;
            rems.push(rem);
            proof {
                assert(rems@.drop_last() =~= prev);
                assert(rems@.no_duplicates()) by {
                    assert forall|i: int, j: int| 0 <= i < j < rems@.len() implies rems@[i]
                        != rems@[j] by {
                        if j < rems@.len() - 1 {
                        } else {
                            assert(rems@[j] == rem);
                            assert(prev[i] != rem);
                        }
                    }
                }
                // distinct nonzero remainders all lie strictly inside the
                // divisor's window, which bounds how many there can be
                assert forall|k: int| 0 <= k < rems@.len() implies -ba + 1 <= (
                    #[trigger] rems@[k]) as int && (rems@[k] as int) < ba by {
                    if k < rems@.len() - 1 {
                        assert(rems@[k] == prev[k]);
                        crate::arith::lemma_tdiv_tmod(rem_after(ai, bi, (k - 1) as nat) * 10,
                            bi);
                        assert(abs(rems@[k] as int) < ba) by {
                            if k == 0 {
                                crate::arith::lemma_tdiv_tmod(ai, bi);
                            }
                        }
                    } else {
                        assert(abs(rem as int) < ba);
                    }
                }
                lemma_distinct_bounded(rems@, -ba + 1, ba);
                assert(rems@.len() <= 2 * ba - 1);
            }
            let next = tmod_exec(rem * 10, b);
            proof {
                assert(next as int == rem_after(ai, bi, rems@.len() as nat));
                crate::arith::lemma_tdiv_tmod(rem as int * 10, bi);
            }
            rem = next;
        }
        proof {
            assert(rem_after(ai, bi, rems@.len() as nat) == 0);
        }
        None
    }
}

} // verus!
