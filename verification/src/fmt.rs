//! Decimal text conversion for `Int`: the canonical formatter, the strict
//! parser, and the round-trip law connecting them.

use vstd::prelude::*;
use vstd::string::StrSliceExecFns;
use crate::bigint::{Int, Sign};
use crate::strutil::chars_to_string;

verus! {

broadcast use vstd::arithmetic::mul::group_mul_basics;

/// The character for one decimal digit.
pub open spec fn digit_char(d: int) -> char {
    if d == 0 {
        '0'
    } else if d == 1 {
        '1'
    } else if d == 2 {
        '2'
    } else if d == 3 {
        '3'
    } else if d == 4 {
        '4'
    } else if d == 5 {
        '5'
    } else if d == 6 {
        '6'
    } else if d == 7 {
        '7'
    } else if d == 8 {
        '8'
    } else {
        '9'
    }
}

/// The value of a decimal digit character, or -1 for any other character.
pub open spec fn digit_of(c: char) -> int {
    if c == '0' {
        0
    } else if c == '1' {
        1
    } else if c == '2' {
        2
    } else if c == '3' {
        3
    } else if c == '4' {
        4
    } else if c == '5' {
        5
    } else if c == '6' {
        6
    } else if c == '7' {
        7
    } else if c == '8' {
        8
    } else if c == '9' {
        9
    } else {
        -1
    }
}

/// The canonical decimal digit string of a natural number, most significant first.
pub open spec fn dec_digits(n: nat) -> Seq<char>
    decreases n,
{
    if n < 10 {
        seq![digit_char(n as int)]
    } else {
        dec_digits(n / 10).push(digit_char((n % 10) as int))
    }
}

/// The canonical decimal text of an integer: a minus sign for negative
/// values, then the digits of the magnitude without leading zeros.
pub open spec fn int_chars(v: int) -> Seq<char> {
    if v < 0 {
        seq!['-'].add(dec_digits((-v) as nat))
    } else {
        dec_digits(v as nat)
    }
}

/// Every character of the sequence is a decimal digit.
pub open spec fn all_digits(s: Seq<char>) -> bool {
    forall|i: int| 0 <= i < s.len() ==> digit_of(#[trigger] s[i]) >= 0
}

/// The number denoted by a sequence of decimal digit characters.
pub open spec fn digits_value(s: Seq<char>) -> int
    decreases s.len(),
{
    if s.len() == 0 {
        0
    } else {
        digits_value(s.drop_last()) * 10 + digit_of(s.last())
    }
}

/// What a decimal integer literal denotes: an optional sign followed by one
/// or more digits, or nothing if the text is not a literal.
pub open spec fn parse_value(s: Seq<char>) -> Option<int> {
    let signed = s.len() > 0 && (s[0] == '-' || s[0] == '+');
    let ds = if signed {
        s.skip(1)
    } else {
        s
    };
    if ds.len() >= 1 && all_digits(ds) {
        if signed && s[0] == '-' {
            Some(-digits_value(ds))
        } else {
            Some(digits_value(ds))
        }
    } else {
        None
    }
}

/// The digit string of `n` is non-empty, consists of digits, and denotes `n`.
pub proof fn lemma_dec_digits(n: nat)
    ensures
        dec_digits(n).len() >= 1,
        all_digits(dec_digits(n)),
        digits_value(dec_digits(n)) == n,
    decreases n,
{
    if n < 10 {
        let s = dec_digits(n);
        assert(s =~= seq![digit_char(n as int)]);
        assert(s.drop_last() =~= Seq::<char>::empty());
        assert(digits_value(Seq::<char>::empty()) == 0);
        assert(s.last() == digit_char(n as int));
        assert(digit_of(digit_char(n as int)) == n);
        assert(digits_value(s) == 0 * 10 + digit_of(s.last()));
    } else {
        lemma_dec_digits(n / 10);
        let s = dec_digits(n);
        let p = dec_digits(n / 10);
        assert(s.drop_last() =~= p);
        assert(digit_of(digit_char((n % 10) as int)) == n % 10);
        vstd::arithmetic::div_mod::lemma_fundamental_div_mod(n as int, 10);
        assert(digits_value(s) == (n / 10) * 10 + n % 10);
        assert((n / 10) * 10 + n % 10 == n) by (nonlinear_arith)
            requires n as int == 10 * (n as int / 10) + n as int % 10;
        assert(all_digits(s)) by {
            assert(forall|i: int| 0 <= i < p.len() ==> digit_of(#[trigger] s[i]) >= 0);
            assert(digit_of(s[s.len() - 1]) >= 0);
        }
    }
}

/// Parsing the canonical text of any integer gives that integer back:
/// the formatter and the parser are mutually inverse.
pub proof fn lemma_parse_int_chars(v: int)
    ensures
        parse_value(int_chars(v)) == Some(v),
{
    if v < 0 {
        let d = dec_digits((-v) as nat);
        lemma_dec_digits((-v) as nat);
        let s = seq!['-'].add(d);
        assert(s[0] == '-');
        assert(s.skip(1) =~= d);
    } else {
        let s = dec_digits(v as nat);
        lemma_dec_digits(v as nat);
        assert(digit_of(s[0]) >= 0);
        assert(s[0] != '-' && s[0] != '+');
    }
}

/// The error returned when a string is not a decimal integer literal.
#[derive(Debug, Clone, Copy, PartialEq, Eq, Structural)]
pub struct ParseIntError;

impl Int {
    /// Format self as its canonical decimal string: `"0"` for zero, otherwise
    /// an optional `-` followed by the digits without leading zeros.
    pub fn to_string(&self) -> (r: String)
        requires
            self.wf(),
        ensures
            r@ == int_chars(self@),
    {
        let ghost v = self@;
        if self.is_zero() {
            let r = "0".to_owned();
            proof {
                reveal_strlit("0");
                assert(r@ =~= seq!['0']);
                assert(int_chars(0) =~= seq!['0']);
            }
            return r;
        }
        let negative = self.is_negative();
        let mut m = self.abs();
        let ghost av = m@;
        let ten = Int::from_i64(10);
        // collect the digits of the magnitude, least significant first
        let mut rev: Vec<char> = Vec::new();
        while !m.is_zero()
            invariant
                m.wf(),
                m@ >= 0,
                av >= 1,
                m@ > 0 ==> dec_digits(av as nat) =~= dec_digits(m@ as nat).add(rev@.reverse()),
                m@ == 0 ==> dec_digits(av as nat) =~= rev@.reverse(),
                ten.wf(),
                ten@ == 10,
            decreases m@,
        {
            let ghost mv = m@;
            let ghost rv = rev@;
            let pair = match m.divmod(&ten) {
                Ok(p) => p,
                Err(_) => {
                    proof {
                        assert(false);
                    }
                    (Int::new(), Int::new())
                },
            };
            proof {
                crate::arith::lemma_tdiv_tmod(mv, 10);
            }
            let digit = pair.1.to_number() as u64;
            m = pair.0;
            let c = digit_char_exec(digit);
            rev.push(c);
            proof {
                crate::arith::lemma_tdiv_tmod(mv, 10);
                assert(m@ == mv / 10 && digit == mv % 10) by {
                    assert(crate::arith::tdiv(mv, 10) == mv / 10);
                    assert(crate::arith::tmod(mv, 10) == mv % 10);
                }
                assert(rev@ =~= rv.push(c));
                assert(rev@.reverse() =~= seq![c].add(rv.reverse()));
                if m@ > 0 {
                    assert(mv >= 10) by {
                        vstd::arithmetic::div_mod::lemma_fundamental_div_mod(mv, 10);
                    }
                    assert(dec_digits(mv as nat) =~= dec_digits(m@ as nat).push(c));
                    assert(dec_digits(av as nat) =~= dec_digits(m@ as nat).add(rev@.reverse()));
                } else {
                    assert(mv < 10) by {
                        vstd::arithmetic::div_mod::lemma_fundamental_div_mod(mv, 10);
                    }
                    assert(dec_digits(mv as nat) =~= seq![c]);
                    assert(dec_digits(av as nat) =~= rev@.reverse());
                }
            }
        }
        // assemble: optional sign, then the digits most significant first
        let mut out: Vec<char> = Vec::new();
        if negative {
            out.push('-');
        }
        let ghost prefix = out@;
        let n = rev.len();
        let mut k: usize = 0;
        while k < n
            invariant
                k <= n,
                n == rev@.len(),
                out@ =~= prefix.add(rev@.reverse().take(k as int)),
            decreases n - k,
        {
            let ghost outp = out@;
            out.push(rev[n - 1 - k]);
            proof {
                assert(rev@.reverse()[k as int] == rev@[n - 1 - k]);
                assert(rev@.reverse().take(k + 1) =~= rev@.reverse().take(k as int).push(
                    rev@.reverse()[k as int]));
                assert(out@ =~= prefix.add(rev@.reverse().take(k + 1)));
            }
            k = k + 1;
        }
        proof {
            assert(rev@.reverse().take(n as int) =~= rev@.reverse());
            assert(out@ =~= prefix.add(rev@.reverse()));
            if negative {
                assert(out@ =~= int_chars(v));
            } else {
                assert(out@ =~= int_chars(v));
            }
        }
        chars_to_string(&out)
    }

    /// Parse a decimal integer literal: an optional `+` or `-` sign followed
    /// by one or more digits, with nothing else accepted.
    pub fn from_str(s: &str) -> (r: Result<Int, ParseIntError>)
        ensures
            parse_value(s@) matches Some(v) ==> r matches Ok(i) && i.wf() && i@ == v,
            r is Err <==> parse_value(s@) is None,
            r is Err ==> r == Err::<Int, ParseIntError>(ParseIntError),
    {
        let n = s.unicode_len();
        let mut start: usize = 0;
        let mut negative = false;
        if n > 0 {
            let c0 = s.get_char(0);
            if c0 == '-' {
                negative = true;
                start = 1;
            } else if c0 == '+' {
                start = 1;
            }
        }
        if start >= n {
            // empty string or a bare sign
            return Err(ParseIntError);
        }
        let ghost ds = if start == 1 {
            s@.skip(1)
        } else {
            s@
        };
        let ten = Int::from_i64(10);
        let mut acc = Int::new();
        let mut i: usize = start;
        while i < n
            invariant
                start <= i <= n,
                n == s@.len(),
                start == 0 || start == 1,
                start == 1 ==> s@.len() > 0 && (s@[0] == '-' || s@[0] == '+'),
                start == 0 ==> s@.len() == 0 || (s@[0] != '-' && s@[0] != '+'),
                ds == if start == 1 { s@.skip(1) } else { s@ },
                acc.wf(),
                acc@ == digits_value(s@.subrange(start as int, i as int)),
                all_digits(s@.subrange(start as int, i as int)),
                acc@ >= 0,
                ten.wf(),
                ten@ == 10,
            decreases n - i,
        {
            let c = s.get_char(i);
            let d = match char_digit_exec(c) {
                Some(d) => d,
                None => {
                    proof {
                        assert(ds[i - start] == s@[i as int]);
                        assert(digit_of(ds[i - start]) < 0);
                        assert(!all_digits(ds));
                    }
                    return Err(ParseIntError);
                },
            };
            let ghost accv = acc@;
            let dint = Int::from_i64(d as i64);
            acc = acc.mul(&ten).add(&dint);
            proof {
                let sub1 = s@.subrange(start as int, i + 1);
                let sub0 = s@.subrange(start as int, i as int);
                assert(sub1.drop_last() =~= sub0);
                assert(sub1.last() == s@[i as int]);
                assert(acc@ == digits_value(sub1));
                assert(digits_value(sub0) >= 0 && digit_of(s@[i as int]) >= 0);
            }
            i = i + 1;
        }
        proof {
            assert(s@.subrange(start as int, n as int) =~= ds);
            assert(ds.len() >= 1);
            assert(all_digits(ds));
            assert(acc@ == digits_value(ds));
        }
        if negative {
            let r = acc.neg();
            return Ok(r);
        }
        Ok(acc)
    }
}

/// The character for one digit value.
fn digit_char_exec(d: u64) -> (c: char)
    requires
        d < 10,
    ensures
        c == digit_char(d as int),
{
    match d {
        0 => '0',
        1 => '1',
        2 => '2',
        3 => '3',
        4 => '4',
        5 => '5',
        6 => '6',
        7 => '7',
        8 => '8',
        _ => '9',
    }
}

/// The digit value of a character, or `None` if it is not a decimal digit.
pub(crate) fn char_digit_exec(c: char) -> (r: Option<u64>)
    ensures
        r is Some <==> digit_of(c) >= 0,
        r matches Some(d) ==> d == digit_of(c),
{
    match c {
        '0' => Some(0),
        '1' => Some(1),
        '2' => Some(2),
        '3' => Some(3),
        '4' => Some(4),
        '5' => Some(5),
        '6' => Some(6),
        '7' => Some(7),
        '8' => Some(8),
        '9' => Some(9),
        _ => None,
    }
}

} // verus!
