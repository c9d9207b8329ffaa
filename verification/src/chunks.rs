//! The chunked magnitude representation underlying `Int`: a little-endian
//! sequence of base-`BASE` digits ("chunks"), its mathematical value, and the
//! verified carry/borrow arithmetic on it.

use vstd::prelude::*;
use vstd::pervasive::VecAdditionalExecFns;
use vstd::arithmetic::power::{pow, lemma_pow_positive, lemma_pow_adds, lemma_pow1};
use vstd::arithmetic::div_mod::{lemma_fundamental_div_mod, lemma_fundamental_div_mod_converse_div, lemma_fundamental_div_mod_converse_mod};

verus! {

broadcast use vstd::arithmetic::mul::group_mul_basics;

/// The internal radix: the largest power of ten whose square, plus a carry,
/// still fits the 128-bit accumulator used during multiplication.
pub const BASE: u64 = 1_000_000_000_000_000_000;

/// Decimal digits carried by one chunk.
pub const DIGITS_PER_CHUNK: u32 = 18;

/// Every chunk is a valid base-`BASE` digit.
pub open spec fn all_below_base(s: Seq<u64>) -> bool {
    forall|i: int| 0 <= i < s.len() ==> s[i] < BASE
}

/// No trailing (most significant) zero chunk.
pub open spec fn trimmed(s: Seq<u64>) -> bool {
    s.len() > 0 ==> s.last() != 0
}

/// The number denoted by a little-endian chunk sequence.
pub open spec fn val(s: Seq<u64>) -> int
    decreases s.len(),
{
    if s.len() == 0 {
        0
    } else {
        val(s.drop_last()) + s.last() * pow(BASE as int, (s.len() - 1) as nat)
    }
}

pub proof fn lemma_val_nonneg(s: Seq<u64>)
    ensures
        val(s) >= 0,
    decreases s.len(),
{
    if s.len() > 0 {
        lemma_val_nonneg(s.drop_last());
        lemma_pow_positive(BASE as int, (s.len() - 1) as nat);
        assert(s.last() * pow(BASE as int, (s.len() - 1) as nat) >= 0) by (nonlinear_arith)
            requires s.last() >= 0 && pow(BASE as int, (s.len() - 1) as nat) > 0;
    }
}

/// Appending one chunk adds its place value.
pub proof fn lemma_val_push(s: Seq<u64>, x: u64)
    ensures
        val(s.push(x)) == val(s) + x * pow(BASE as int, s.len()),
{
    assert(s.push(x).drop_last() =~= s);
}

/// The value of a one-longer prefix.
pub proof fn lemma_val_take_succ(s: Seq<u64>, i: int)
    requires
        0 <= i < s.len(),
    ensures
        val(s.take(i + 1)) == val(s.take(i)) + s[i] * pow(BASE as int, i as nat),
{
    assert(s.take(i + 1).drop_last() =~= s.take(i));
}

/// A chunk sequence below `BASE` everywhere denotes less than `BASE^len`.
pub proof fn lemma_val_upper(s: Seq<u64>)
    requires
        all_below_base(s),
    ensures
        val(s) < pow(BASE as int, s.len() as nat),
    decreases s.len(),
{
    lemma_pow_positive(BASE as int, s.len() as nat);
    if s.len() > 0 {
        assert(all_below_base(s.drop_last()));
        lemma_val_upper(s.drop_last());
        let p = pow(BASE as int, (s.len() - 1) as nat);
        lemma_pow_positive(BASE as int, (s.len() - 1) as nat);
        assert(pow(BASE as int, s.len() as nat) == BASE * p) by {
            lemma_pow1(BASE as int);
            lemma_pow_adds(BASE as int, 1, (s.len() - 1) as nat);
        }
        assert(val(s.drop_last()) + s.last() * p < BASE * p) by (nonlinear_arith)
            requires val(s.drop_last()) < p && s.last() < BASE && p > 0;
    }
}

/// A trimmed, non-empty chunk sequence denotes at least `BASE^(len-1)`.
pub proof fn lemma_val_lower(s: Seq<u64>)
    requires
        s.len() > 0,
        s.last() != 0,
    ensures
        val(s) >= pow(BASE as int, (s.len() - 1) as nat),
{
    lemma_val_nonneg(s.drop_last());
    let p = pow(BASE as int, (s.len() - 1) as nat);
    lemma_pow_positive(BASE as int, (s.len() - 1) as nat);
    assert(s.last() * p >= p) by (nonlinear_arith)
        requires s.last() >= 1 && p > 0;
}

/// Splitting a chunk sequence splits its value at the matching place.
pub proof fn lemma_val_split(s: Seq<u64>, k: int)
    requires
        0 <= k <= s.len(),
    ensures
        val(s) == val(s.take(k)) + val(s.skip(k)) * pow(BASE as int, k as nat),
    decreases s.len() - k,
{
    if k == s.len() {
        assert(s.take(k) =~= s);
        assert(s.skip(k) =~= Seq::<u64>::empty());
    } else {
        lemma_val_split(s, k + 1);
        lemma_val_take_succ(s, k);
        let p = pow(BASE as int, k as nat);
        let hi = s.skip(k);
        assert(hi.len() > 0);
        // val(s.skip(k)) == s[k] + BASE * val(s.skip(k + 1))
        assert(s.skip(k + 1) =~= hi.skip(1));
        lemma_val_skip_one(hi);
        assert(pow(BASE as int, (k + 1) as nat) == BASE * p) by {
            lemma_pow1(BASE as int);
            lemma_pow_adds(BASE as int, 1, k as nat);
        }
        assert(val(s.take(k)) + s[k] * p + val(hi.skip(1)) * (BASE * p)
            == val(s.take(k)) + (s[k] + BASE * val(hi.skip(1))) * p) by (nonlinear_arith);
        assert(hi[0] == s[k]);
    }
}

/// Peeling the least significant chunk divides the value by `BASE`.
pub proof fn lemma_val_skip_one(s: Seq<u64>)
    requires
        s.len() > 0,
    ensures
        val(s) == s[0] + BASE * val(s.skip(1)),
    decreases s.len(),
{
    vstd::arithmetic::power::lemma_pow0(BASE as int);
    if s.len() == 1 {
        assert(s.drop_last() =~= Seq::<u64>::empty());
        assert(s.skip(1) =~= Seq::<u64>::empty());
    } else {
        lemma_val_skip_one(s.drop_last());
        assert(s.drop_last()[0] == s[0]);
        assert(s.skip(1).drop_last() =~= s.drop_last().skip(1));
        let n = s.len();
        let p = pow(BASE as int, (n - 2) as nat);
        assert(pow(BASE as int, (n - 1) as nat) == BASE * p) by {
            lemma_pow1(BASE as int);
            lemma_pow_adds(BASE as int, 1, (n - 2) as nat);
        }
        assert(val(s.skip(1)) == val(s.drop_last().skip(1)) + s.last() * p);
        assert(s[0] + BASE * (val(s.drop_last().skip(1)) + s.last() * p)
            == s[0] + BASE * val(s.drop_last().skip(1)) + s.last() * (BASE * p)) by (nonlinear_arith);
    }
}

/// Prepending a zero chunk multiplies the value by `BASE`.
pub proof fn lemma_val_prepend_zero(s: Seq<u64>)
    ensures
        val(seq![0u64].add(s)) == BASE * val(s),
{
    let t = seq![0u64].add(s);
    lemma_val_skip_one(t);
    assert(t.skip(1) =~= s);
}

/// Two well-formed chunk sequences with the same value are identical:
/// the representation of a magnitude is canonical.
pub proof fn lemma_val_injective(a: Seq<u64>, b: Seq<u64>)
    requires
        all_below_base(a),
        all_below_base(b),
        trimmed(a),
        trimmed(b),
        val(a) == val(b),
    ensures
        a =~= b,
    decreases a.len(),
{
    lemma_val_nonneg(a);
    if a.len() == 0 || b.len() == 0 {
        if a.len() > 0 {
            lemma_val_lower(a);
            lemma_pow_positive(BASE as int, (a.len() - 1) as nat);
        }
        if b.len() > 0 {
            lemma_val_lower(b);
            lemma_pow_positive(BASE as int, (b.len() - 1) as nat);
        }
        assert(a.len() == 0 && b.len() == 0);
        assert(a =~= b);
    } else {
        lemma_val_skip_one(a);
        lemma_val_skip_one(b);
        lemma_val_nonneg(a.skip(1));
        lemma_val_nonneg(b.skip(1));
        assert(val(a) == val(a.skip(1)) * (BASE as int) + a[0]);
        assert(val(b) == val(b.skip(1)) * (BASE as int) + b[0]);
        lemma_fundamental_div_mod_converse_div(val(a), BASE as int, val(a.skip(1)), a[0] as int);
        lemma_fundamental_div_mod_converse_mod(val(a), BASE as int, val(a.skip(1)), a[0] as int);
        lemma_fundamental_div_mod_converse_div(val(b), BASE as int, val(b.skip(1)), b[0] as int);
        lemma_fundamental_div_mod_converse_mod(val(b), BASE as int, val(b.skip(1)), b[0] as int);
        assert(a[0] == b[0]);
        assert(val(a.skip(1)) == val(b.skip(1)));
        assert(trimmed(a.skip(1)) && trimmed(b.skip(1))) by {
            if a.len() > 1 {
                assert(a.skip(1).last() == a.last());
            }
            if b.len() > 1 {
                assert(b.skip(1).last() == b.last());
            }
        }
        assert(all_below_base(a.skip(1)) && all_below_base(b.skip(1)));
        lemma_val_injective(a.skip(1), b.skip(1));
        assert(a.skip(1) =~= b.skip(1));
        assert(a.len() == b.len());
        assert forall|i: int| 0 <= i < a.len() implies a[i] == b[i] by {
            if i > 0 {
                assert(a[i] == a.skip(1)[i - 1]);
                assert(b[i] == b.skip(1)[i - 1]);
            }
        }
        assert(a =~= b);
    }
}

/// A trimmed chunk sequence denoting zero is empty.
pub proof fn lemma_val_zero_empty(s: Seq<u64>)
    requires
        trimmed(s),
        val(s) == 0,
    ensures
        s.len() == 0,
{
    if s.len() > 0 {
        lemma_val_lower(s);
        lemma_pow_positive(BASE as int, (s.len() - 1) as nat);
    }
}

/// Prefix of a padded operand: the value of the first `i` chunks, where
/// reading past the end sees zeros.
pub open spec fn val_upto(s: Seq<u64>, i: int) -> int {
    if i <= s.len() {
        val(s.take(i))
    } else {
        val(s)
    }
}

proof fn lemma_val_upto_succ(s: Seq<u64>, i: int)
    requires
        0 <= i,
    ensures
        val_upto(s, i + 1) == val_upto(s, i)
            + (if i < s.len() { s[i] as int } else { 0 }) * pow(BASE as int, i as nat),
{
    if i < s.len() {
        lemma_val_take_succ(s, i);
    } else {
        if i == s.len() {
            assert(s.take(i) =~= s);
        }
    }
}

proof fn lemma_val_upto_all(s: Seq<u64>, i: int)
    requires
        i >= s.len(),
    ensures
        val_upto(s, i) == val(s),
{
    if i == s.len() {
        assert(s.take(i) =~= s);
    }
}

/// Remove trailing zero chunks; the value is unchanged and the result is trimmed.
pub fn trim_chunks(v: &mut Vec<u64>)
    ensures
        val(final(v)@) == val(old(v)@),
        trimmed(final(v)@),
        final(v)@.len() <= old(v)@.len(),
        forall|j: int| 0 <= j < final(v)@.len() ==> final(v)@[j] == old(v)@[j],
        all_below_base(old(v)@) ==> all_below_base(final(v)@),
{
    while v.len() > 0 && v[v.len() - 1] == 0
        invariant
            v@.len() <= old(v)@.len(),
            forall|j: int| 0 <= j < v@.len() ==> v@[j] == old(v)@[j],
            val(v@) == val(old(v)@),
        decreases v@.len(),
    {
        let ghost prev = v@;
        v.pop();
        proof {
            assert(v@ =~= prev.drop_last());
        }
    }
    proof {
        if all_below_base(old(v)@) {
            assert forall|j: int| 0 <= j < v@.len() implies v@[j] < BASE by {
                assert(v@[j] == old(v)@[j]);
            }
        }
    }
}

/// Chunkwise addition of two magnitudes with carry propagation.
pub fn mag_add(a: &Vec<u64>, b: &Vec<u64>) -> (r: Vec<u64>)
    requires
        all_below_base(a@),
        all_below_base(b@),
    ensures
        val(r@) == val(a@) + val(b@),
        all_below_base(r@),
        trimmed(r@),
{
    let n = if a.len() > b.len() { a.len() } else { b.len() };
    let mut r: Vec<u64> = Vec::new();
    let mut carry: u64 = 0;
    let mut i: usize = 0;
    while i < n
        invariant
            i <= n,
            n == if a@.len() > b@.len() { a@.len() } else { b@.len() },
            all_below_base(a@),
            all_below_base(b@),
            carry <= 1,
            r@.len() == i,
            all_below_base(r@),
            val(r@) + carry * pow(BASE as int, i as nat)
                == val_upto(a@, i as int) + val_upto(b@, i as int),
        decreases n - i,
    {
        let x = if i < a.len() { a[i] } else { 0 };
        let y = if i < b.len() { b[i] } else { 0 };
        let mut s = x + y + carry;
        let ghost old_carry = carry;
        if s >= BASE {
            s = s - BASE;
            carry = 1;
        } else {
            carry = 0;
        }
        let ghost r0 = r@;
        r.push(s);
        proof {
            let p = pow(BASE as int, i as nat);
            lemma_pow_positive(BASE as int, i as nat);
            lemma_val_push(r0, s);
            lemma_val_upto_succ(a@, i as int);
            lemma_val_upto_succ(b@, i as int);
            assert(pow(BASE as int, (i + 1) as nat) == BASE * p) by {
                lemma_pow1(BASE as int);
                lemma_pow_adds(BASE as int, 1, i as nat);
            }
            let xv: int = if i < a@.len() { a@[i as int] as int } else { 0 };
            let yv: int = if i < b@.len() { b@[i as int] as int } else { 0 };
            assert(s + carry * BASE == xv + yv + old_carry);
            assert(val(r0) + s * p + carry * (BASE * p)
                == val(r0) + old_carry * p + xv * p + yv * p) by (nonlinear_arith)
                requires s + carry * BASE == xv + yv + old_carry;
        }
        i = i + 1;
    }
    proof {
        lemma_val_upto_all(a@, i as int);
        lemma_val_upto_all(b@, i as int);
    }
    if carry == 1 {
        let ghost r0 = r@;
        r.push(1);
        proof {
            lemma_val_push(r0, 1);
        }
    }
    trim_chunks(&mut r);
    r
}

/// Chunkwise subtraction `a - b` of magnitudes with borrow propagation;
/// the subtrahend must not exceed the minuend.
pub fn mag_sub(a: &Vec<u64>, b: &Vec<u64>) -> (r: Vec<u64>)
    requires
        all_below_base(a@),
        all_below_base(b@),
        b@.len() <= a@.len(),
        val(b@) <= val(a@),
    ensures
        val(r@) == val(a@) - val(b@),
        all_below_base(r@),
        trimmed(r@),
{
    let n = a.len();
    let mut r: Vec<u64> = Vec::new();
    let mut borrow: u64 = 0;
    let mut i: usize = 0;
    while i < n
        invariant
            i <= n,
            n == a@.len(),
            b@.len() <= a@.len(),
            all_below_base(a@),
            all_below_base(b@),
            borrow <= 1,
            r@.len() == i,
            all_below_base(r@),
            val(r@) - borrow * pow(BASE as int, i as nat)
                == val(a@.take(i as int)) - val_upto(b@, i as int),
        decreases n - i,
    {
        let x = a[i];
        let y = if i < b.len() { b[i] } else { 0 };
        let ghost old_borrow = borrow;
        let d: u64;
        if x >= y + borrow {
            d = x - y - borrow;
            borrow = 0;
        } else {
            d = x + BASE - y - borrow;
            borrow = 1;
        }
        let ghost r0 = r@;
        r.push(d);
        proof {
            let p = pow(BASE as int, i as nat);
            lemma_pow_positive(BASE as int, i as nat);
            lemma_val_push(r0, d);
            lemma_val_take_succ(a@, i as int);
            lemma_val_upto_succ(b@, i as int);
            assert(pow(BASE as int, (i + 1) as nat) == BASE * p) by {
                lemma_pow1(BASE as int);
                lemma_pow_adds(BASE as int, 1, i as nat);
            }
            let yv: int = if i < b@.len() { b@[i as int] as int } else { 0 };
            assert(d - borrow * BASE == x - yv - old_borrow);
            assert(val(r0) + d * p - borrow * (BASE * p)
                == val(r0) - old_borrow * p + x * p - yv * p) by (nonlinear_arith)
                requires d - borrow * BASE == x - yv - old_borrow;
        }
        i = i + 1;
    }
    proof {
        assert(i == n);
        assert(a@.take(n as int) =~= a@);
        assert(val(a@.take(n as int)) == val(a@));
        lemma_val_upto_all(b@, n as int);
        assert(val_upto(b@, n as int) == val(b@));
        assert(val(b@) <= val(a@));
        lemma_val_upper(r@);
        assert(r@.len() == n);
        let ghost vr = val(r@);
        let ghost pn = pow(BASE as int, n as nat);
        let ghost va = val(a@);
        let ghost vb = val(b@);
        assert(vr < pn);
        assert(vr - borrow * pn == va - vb);
        assert(borrow == 0 && vr == va - vb) by (nonlinear_arith)
            requires
                vr - borrow * pn == va - vb,
                vb <= va,
                vr < pn,
                borrow <= 1;
        assert(val(r@) == val(a@) - val(b@));
    }
    trim_chunks(&mut r);
    r
}

/// If one well-formed magnitude is no larger than another, it has no more chunks.
pub proof fn lemma_le_val_le_len(a: Seq<u64>, b: Seq<u64>)
    requires
        all_below_base(a),
        trimmed(b),
        val(b) <= val(a),
    ensures
        b.len() <= a.len(),
{
    if b.len() > a.len() {
        lemma_val_lower(b);
        lemma_val_upper(a);
        lemma_pow_positive(BASE as int, a.len() as nat);
        vstd::arithmetic::power::lemma_pow_increases(BASE as nat, a.len() as nat, (b.len() - 1) as nat);
    }
}

/// When two equal-length sequences agree strictly above position `i` and
/// differ at `i`, the one with the larger chunk denotes the larger value.
proof fn lemma_val_cmp_at(a: Seq<u64>, b: Seq<u64>, i: int)
    requires
        a.len() == b.len(),
        all_below_base(a),
        all_below_base(b),
        0 <= i < a.len(),
        forall|j: int| i < j < a.len() ==> a[j] == b[j],
        a[i] > b[i],
    ensures
        val(a) > val(b),
{
    lemma_val_split(a, i + 1);
    lemma_val_split(b, i + 1);
    assert(a.skip(i + 1) =~= b.skip(i + 1));
    lemma_val_take_succ(a, i);
    lemma_val_take_succ(b, i);
    let p = pow(BASE as int, i as nat);
    lemma_pow_positive(BASE as int, i as nat);
    assert(all_below_base(b.take(i)));
    lemma_val_upper(b.take(i));
    lemma_val_nonneg(a.take(i));
    assert(val(a.take(i)) + a[i] * p > val(b.take(i)) + b[i] * p) by (nonlinear_arith)
        requires
            val(a.take(i)) >= 0,
            val(b.take(i)) < p,
            a[i] >= b[i] + 1,
            p > 0;
}

/// Compare two trimmed magnitudes: by length first, then chunkwise from the
/// most significant end.
pub fn mag_cmp(a: &Vec<u64>, b: &Vec<u64>) -> (r: core::cmp::Ordering)
    requires
        all_below_base(a@),
        all_below_base(b@),
        trimmed(a@),
        trimmed(b@),
    ensures
        r is Less <==> val(a@) < val(b@),
        r is Greater <==> val(a@) > val(b@),
        r is Equal <==> val(a@) == val(b@),
{
    if a.len() != b.len() {
        proof {
            if a@.len() > b@.len() {
                lemma_val_lower(a@);
                lemma_val_upper(b@);
                vstd::arithmetic::power::lemma_pow_increases(BASE as nat, b@.len() as nat, (a@.len() - 1) as nat);
            } else {
                lemma_val_lower(b@);
                lemma_val_upper(a@);
                vstd::arithmetic::power::lemma_pow_increases(BASE as nat, a@.len() as nat, (b@.len() - 1) as nat);
            }
        }
        return if a.len() > b.len() {
            core::cmp::Ordering::Greater
        } else {
            core::cmp::Ordering::Less
        };
    }
    let mut i: usize = a.len();
    while i > 0
        invariant
            i <= a@.len(),
            a@.len() == b@.len(),
            all_below_base(a@),
            all_below_base(b@),
            forall|j: int| i <= j < a@.len() ==> a@[j] == b@[j],
        decreases i,
    {
        i = i - 1;
        if a[i] > b[i] {
            proof {
                lemma_val_cmp_at(a@, b@, i as int);
            }
            return core::cmp::Ordering::Greater;
        }
        if a[i] < b[i] {
            proof {
                lemma_val_cmp_at(b@, a@, i as int);
            }
            return core::cmp::Ordering::Less;
        }
    }
    proof {
        assert(a@ =~= b@);
    }
    core::cmp::Ordering::Equal
}

/// Multiply a magnitude in place by a single chunk value.
pub fn small_mul_chunks(v: &mut Vec<u64>, n: u64)
    requires
        all_below_base(old(v)@),
        n < BASE,
    ensures
        val(final(v)@) == val(old(v)@) * n,
        all_below_base(final(v)@),
        trimmed(final(v)@),
{
    let mut carry: u64 = 0;
    let mut i: usize = 0;
    let len = v.len();
    while i < len
        invariant
            i <= len,
            len == v@.len(),
            v@.len() == old(v)@.len(),
            all_below_base(old(v)@),
            n < BASE,
            carry < BASE,
            forall|j: int| i <= j < v@.len() ==> v@[j] == old(v)@[j],
            forall|j: int| 0 <= j < i ==> v@[j] < BASE,
            val(v@.take(i as int)) + carry * pow(BASE as int, i as nat)
                == val(old(v)@.take(i as int)) * n,
        decreases len - i,
    {
        let ghost v0 = v@;
        let ghost old_carry = carry;
        proof {
            assert(v@[i as int] == old(v)@[i as int]);
            assert((v@[i as int] as u128) * (n as u128)
                <= 999999999999999998000000000000000001u128) by (nonlinear_arith)
                requires v@[i as int] < BASE, n < BASE;
        }
        let t: u128 = v[i] as u128 * n as u128 + carry as u128;
        proof {
            lemma_fundamental_div_mod(t as int, BASE as int);
            assert((t / BASE as u128) < (BASE as u128)) by (nonlinear_arith)
                requires
                    t <= 999999999999999999000000000000000000u128,
                    t as int == (BASE as int) * ((t as int) / (BASE as int)) + (t as int) % (BASE as int),
                    0 <= (t as int) % (BASE as int) < (BASE as int);
        }
        let lo = (t % BASE as u128) as u64;
        let hi = (t / BASE as u128) as u64;
        v.set(i, lo);
        carry = hi;
        proof {
            let p = pow(BASE as int, i as nat);
            lemma_pow_positive(BASE as int, i as nat);
            lemma_val_take_succ(v@, i as int);
            lemma_val_take_succ(old(v)@, i as int);
            assert(v@.take(i as int) =~= v0.take(i as int));
            assert(pow(BASE as int, (i + 1) as nat) == BASE * p) by {
                lemma_pow1(BASE as int);
                lemma_pow_adds(BASE as int, 1, i as nat);
            }
            let x = old(v)@[i as int] as int;
            let ot = val(old(v)@.take(i as int));
            let vt = val(v0.take(i as int));
            assert(lo as int + (BASE as int) * (hi as int) == t as int);
            assert(t as int == x * n + old_carry);
            assert(vt + lo * p + hi * (BASE * p) == ot * n + x * n * p) by (nonlinear_arith)
                requires
                    lo + (BASE as int) * hi == x * n + old_carry,
                    vt + old_carry * p == ot * n;
            assert(ot * n + x * n * p == (ot + x * p) * n) by (nonlinear_arith);
        }
        i = i + 1;
    }
    proof {
        assert(v@.take(len as int) =~= v@);
        assert(old(v)@.take(len as int) =~= old(v)@);
    }
    let ghost v1 = v@;
    v.push(carry);
    proof {
        lemma_val_push(v1, carry);
    }
    trim_chunks(v);
}

/// Divide a magnitude in place by a single chunk value; the remainder is returned.
pub fn small_div_chunks(v: &mut Vec<u64>, n: u64) -> (r: u64)
    requires
        all_below_base(old(v)@),
        1 <= n < BASE,
    ensures
        val(final(v)@) == val(old(v)@) / (n as int),
        r as int == val(old(v)@) % (n as int),
        r < n,
        all_below_base(final(v)@),
        trimmed(final(v)@),
{
    let mut r: u64 = 0;
    let mut i: usize = v.len();
    while i > 0
        invariant
            i <= v@.len(),
            v@.len() == old(v)@.len(),
            all_below_base(old(v)@),
            1 <= n < BASE,
            r < n,
            forall|j: int| 0 <= j < i ==> v@[j] == old(v)@[j],
            forall|j: int| i <= j < v@.len() ==> v@[j] < BASE,
            val(old(v)@.skip(i as int)) == val(v@.skip(i as int)) * n + r,
        decreases i,
    {
        i = i - 1;
        let ghost v0 = v@;
        let ghost old_r = r;
        proof {
            assert(v@[i as int] == old(v)@[i as int]);
            assert((r as u128) * (BASE as u128)
                <= 999999999999999999000000000000000000u128) by (nonlinear_arith)
                requires r < BASE;
        }
        let t: u128 = r as u128 * BASE as u128 + v[i] as u128;
        proof {
            lemma_fundamental_div_mod(t as int, n as int);
            assert(t <= ((n as u128) - 1) * (BASE as u128) + (BASE as u128 - 1)) by (nonlinear_arith)
                requires
                    t == (old_r as u128) * (BASE as u128) + (v0[i as int] as u128),
                    old_r < n,
                    n >= 1,
                    v0[i as int] < BASE;
            assert((t / n as u128) < (BASE as u128)) by (nonlinear_arith)
                requires
                    t <= ((n as u128) - 1) * (BASE as u128) + (BASE as u128 - 1),
                    t as int == (n as int) * ((t as int) / (n as int)) + (t as int) % (n as int),
                    0 <= (t as int) % (n as int) < (n as int),
                    n >= 1;
        }
        let q = (t / n as u128) as u64;
        r = (t % n as u128) as u64;
        v.set(i, q);
        proof {
            lemma_val_skip_one(old(v)@.skip(i as int));
            lemma_val_skip_one(v@.skip(i as int));
            assert(old(v)@.skip(i as int).skip(1) =~= old(v)@.skip(i + 1));
            assert(v@.skip(i as int).skip(1) =~= v0.skip(i + 1));
            let x = old(v)@[i as int] as int;
            let os = val(old(v)@.skip(i as int));
            let os1 = val(old(v)@.skip(i + 1));
            let vs1 = val(v0.skip(i + 1));
            assert(q as int == (t as int) / (n as int));
            assert(r as int == (t as int) % (n as int));
            assert(q as int * (n as int) + r as int == t as int) by (nonlinear_arith)
                requires
                    q as int == (t as int) / (n as int),
                    r as int == (t as int) % (n as int),
                    t as int == (n as int) * ((t as int) / (n as int)) + (t as int) % (n as int);
            assert(t as int == old_r * BASE + x);
            assert(os == (q + BASE * vs1) * n + r) by (nonlinear_arith)
                requires
                    os == x + BASE * os1,
                    os1 == vs1 * n + old_r,
                    q * n + r == old_r * BASE + x;
            assert(val(v@.skip(i as int)) == q + BASE * vs1);
        }
    }
    proof {
        assert(v@.skip(0) =~= v@);
        assert(old(v)@.skip(0) =~= old(v)@);
        lemma_val_nonneg(v@);
        lemma_fundamental_div_mod_converse_div(val(old(v)@), n as int, val(v@), r as int);
        lemma_fundamental_div_mod_converse_mod(val(old(v)@), n as int, val(v@), r as int);
    }
    trim_chunks(v);
    r
}

/// Schoolbook multiplication of two magnitudes: one row per chunk of the
/// multiplier, each row shifted to its place and accumulated.
pub fn mag_mul(a: &Vec<u64>, b: &Vec<u64>) -> (r: Vec<u64>)
    requires
        all_below_base(a@),
        all_below_base(b@),
    ensures
        val(r@) == val(a@) * val(b@),
        all_below_base(r@),
        trimmed(r@),
{
    let mut acc: Vec<u64> = Vec::new();
    let mut j: usize = 0;
    proof {
        vstd::arithmetic::power::lemma_pow0(BASE as int);
    }
    while j < b.len()
        invariant
            j <= b@.len(),
            all_below_base(a@),
            all_below_base(b@),
            all_below_base(acc@),
            trimmed(acc@),
            val(acc@) == val(a@) * val(b@.take(j as int)),
        decreases b@.len() - j,
    {
        let mut part = a.clone();
        small_mul_chunks(&mut part, b[j]);
        // shift the row into place: j zero chunks below
        let mut k: usize = 0;
        while k < j
            invariant
                k <= j,
                all_below_base(part@),
                val(part@) == val(a@) * b@[j as int] * pow(BASE as int, k as nat),
            decreases j - k,
        {
            let ghost p0 = part@;
            part.insert(0, 0);
            proof {
                assert(part@ =~= seq![0u64].add(p0));
                lemma_val_prepend_zero(p0);
                lemma_pow_positive(BASE as int, k as nat);
                assert(pow(BASE as int, (k + 1) as nat) == BASE * pow(BASE as int, k as nat)) by {
                    lemma_pow1(BASE as int);
                    lemma_pow_adds(BASE as int, 1, k as nat);
                }
                assert(BASE * (val(a@) * b@[j as int] * pow(BASE as int, k as nat))
                    == val(a@) * b@[j as int] * (BASE * pow(BASE as int, k as nat))) by (nonlinear_arith);
            }
            k = k + 1;
        }
        let ghost acc0 = acc@;
        acc = mag_add(&acc, &part);
        proof {
            lemma_val_take_succ(b@, j as int);
            let p = pow(BASE as int, j as nat);
            assert(val(a@) * val(b@.take(j as int)) + val(a@) * b@[j as int] * p
                == val(a@) * (val(b@.take(j as int)) + b@[j as int] * p)) by (nonlinear_arith);
        }
        j = j + 1;
    }
    proof {
        assert(b@.take(b@.len() as int) =~= b@);
    }
    acc
}

} // verus!
