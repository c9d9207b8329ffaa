//! Str is an immutable sequence of characters with Python-flavoured helpers.
//! Contracts speak about the character sequence of the text.

use vstd::prelude::*;
use vstd::string::StrSliceExecFns;
use crate::bigint::Int;
use crate::fmt::parse_value;
use crate::list::List;
use crate::strutil::{chars_to_string, str_chars_vec, to_lower_string, to_upper_string, lower_of,
    upper_of};

verus! {

/// The pattern `p` occurs in `s` at position `i`.
pub open spec fn is_match_at(s: Seq<char>, p: Seq<char>, i: int) -> bool {
    0 <= i && i + p.len() <= s.len() && s.subrange(i, i + p.len() as int) == p
}

/// The number of non-overlapping occurrences of a non-empty pattern,
/// counted greedily from the left.
pub open spec fn count_occurrences(s: Seq<char>, p: Seq<char>) -> nat
    recommends
        p.len() >= 1,
    decreases s.len(),
    when p.len() >= 1
{
    if s.len() < p.len() {
        0
    } else if is_match_at(s, p, 0) {
        1 + count_occurrences(s.skip(p.len() as int), p)
    } else {
        count_occurrences(s.skip(1), p)
    }
}

/// The text with every occurrence of a non-empty pattern replaced, greedily
/// from the left.
pub open spec fn replace_all(s: Seq<char>, o: Seq<char>, n: Seq<char>) -> Seq<char>
    recommends
        o.len() >= 1,
    decreases s.len(),
    when o.len() >= 1
{
    if s.len() < o.len() {
        s
    } else if is_match_at(s, o, 0) {
        n.add(replace_all(s.skip(o.len() as int), o, n))
    } else {
        seq![s[0]].add(replace_all(s.skip(1), o, n))
    }
}

/// The characters of `s` each followed by `n`, used below the leading copy
/// of `n` in `interleave`.
pub open spec fn inter_tail(s: Seq<char>, n: Seq<char>) -> Seq<char>
    decreases s.len(),
{
    if s.len() == 0 {
        Seq::empty()
    } else {
        seq![s[0]].add(n).add(inter_tail(s.skip(1), n))
    }
}

/// The text interleaved with `n` at every character boundary, the meaning of
/// replacing an empty pattern.
pub open spec fn interleave(s: Seq<char>, n: Seq<char>) -> Seq<char> {
    n.add(inter_tail(s, n))
}

/// An ASCII whitespace character.
pub open spec fn is_space(c: char) -> bool {
    c == ' ' || c == '\t' || c == '\n' || c == '\r'
}

/// The text with leading whitespace removed.
pub open spec fn trim_front(s: Seq<char>) -> Seq<char>
    decreases s.len(),
{
    if s.len() > 0 && is_space(s[0]) {
        trim_front(s.skip(1))
    } else {
        s
    }
}

/// The text with trailing whitespace removed.
pub open spec fn trim_back(s: Seq<char>) -> Seq<char>
    decreases s.len(),
{
    if s.len() > 0 && is_space(s.last()) {
        trim_back(s.drop_last())
    } else {
        s
    }
}

/// The text with whitespace removed from both ends.
pub open spec fn trim_chars(s: Seq<char>) -> Seq<char> {
    trim_back(trim_front(s))
}

/// The pieces joined with a separator between consecutive pieces.
pub open spec fn joined(pieces: Seq<Str>, sep: Seq<char>) -> Seq<char>
    decreases pieces.len(),
{
    if pieces.len() == 0 {
        Seq::empty()
    } else if pieces.len() == 1 {
        pieces[0]@
    } else {
        pieces[0]@.add(sep).add(joined(pieces.skip(1), sep))
    }
}

/// Appending one more piece extends the join by a separator and the piece.
proof fn lemma_joined_snoc(pieces: Seq<Str>, x: Str, sep: Seq<char>)
    ensures
        pieces.len() == 0 ==> joined(pieces.push(x), sep) == x@,
        pieces.len() > 0 ==> joined(pieces.push(x), sep) == joined(pieces, sep).add(sep).add(x@),
    decreases pieces.len(),
{
    let e = pieces.push(x);
    if pieces.len() == 0 {
        assert(e[0] == x);
    } else {
        lemma_joined_snoc(pieces.skip(1), x, sep);
        assert(e.skip(1) =~= pieces.skip(1).push(x));
        if pieces.len() == 1 {
            assert(joined(e, sep) == e[0]@.add(sep).add(joined(e.skip(1), sep)));
            assert(joined(pieces.skip(1).push(x), sep) == x@);
            assert(joined(pieces, sep) == pieces[0]@);
            assert(joined(e, sep) =~= joined(pieces, sep).add(sep).add(x@));
        } else {
            assert(joined(e, sep) == e[0]@.add(sep).add(joined(e.skip(1), sep)));
            assert(joined(pieces.skip(1).push(x), sep) == joined(pieces.skip(1), sep).add(
                sep).add(x@));
            assert(joined(e, sep) =~= joined(pieces, sep).add(sep).add(x@));
        }
    }
}

/// Whether the pattern occurs at position `i` of the character vector.
fn match_at(hay: &Vec<char>, pat: &Vec<char>, i: usize) -> (r: bool)
    requires
        i <= hay@.len(),
    ensures
        r == is_match_at(hay@, pat@, i as int),
{
    if hay.len() - i < pat.len() {
        return false;
    }
    let n = pat.len();
    let mut j: usize = 0;
    while j < n
        invariant
            j <= n,
            n == pat@.len(),
            i + n <= hay@.len(),
            forall|k: int| 0 <= k < j ==> hay@[i + k] == pat@[k],
        decreases n - j,
    {
        if hay[i + j] != pat[j] {
            proof {
                assert(hay@.subrange(i as int, i + n) [j as int] == hay@[i + j]);
            }
            return false;
        }
        j = j + 1;
    }
    proof {
        assert(hay@.subrange(i as int, i + n) =~= pat@);
    }
    true
}

/// Str is an immutable sequence of characters.
#[derive(Debug, Clone, PartialEq, Eq, Hash)]
pub struct Str {
    data: String,
}

impl View for Str {
    type V = Seq<char>;

    closed spec fn view(&self) -> Seq<char> {
        self.data@
    }
}

impl Str {
    /// Construct an empty string.
    pub fn new() -> (r: Self)
        ensures
            r@ == Seq::<char>::empty(),
    {
        Str { data: String::new() }
    }

    /// Construct a string from borrowed text.
    pub fn from_str(s: &str) -> (r: Self)
        ensures
            r@ == s@,
    {
        Str { data: s.to_owned() }
    }

    /// Return the length of the string, in characters.
    pub fn len(&self) -> (r: i32)
        requires
            self@.len() <= i32::MAX,
        ensures
            r == self@.len(),
    {
        self.data.as_str().unicode_len() as i32
    }

    /// Return `true` if the string is empty.
    pub fn is_empty(&self) -> (r: bool)
        ensures
            r == (self@.len() == 0),
    {
        self.data.as_str().is_empty()
    }

    /// Extract a string slice containing the entire string.
    pub fn as_str(&self) -> (r: &str)
        ensures
            r@ == self@,
    {
        self.data.as_str()
    }

    /// Return the characters of the string, in order.
    pub fn chars(&self) -> (r: Vec<char>)
        ensures
            r@ == self@,
    {
        str_chars_vec(self.data.as_str())
    }

    /// Extract the character at `index`, which may be negative to count from
    /// the back; out-of-range positions give `None`.
    pub fn char_at(&self, index: i32) -> (r: Option<char>)
        requires
            self@.len() <= i32::MAX,
        ensures
            ({
                let pos = if index < 0 {
                    index + self@.len()
                } else {
                    index as int
                };
                r == if 0 <= pos < self@.len() {
                    Some(self@[pos])
                } else {
                    None::<char>
                }
            }),
    {
        let cs = self.chars();
        let n = cs.len();
        if index >= 0 {
            if (index as usize) < n {
                Some(cs[index as usize])
            } else {
                None
            }
        } else {
            let shifted = index + n as i32;
            if shifted >= 0 {
                Some(cs[shifted as usize])
            } else {
                None
            }
        }
    }

    /// Return the character position of the first occurrence of the pattern.
    pub fn find(&self, pattern: &str) -> (r: Option<usize>)
        requires
            self@.len() < usize::MAX,
        ensures
            r matches Some(i) ==> is_match_at(self@, pattern@, i as int) && forall|j: int|
                0 <= j < i ==> !is_match_at(self@, pattern@, j),
            r is None ==> forall|j: int| !is_match_at(self@, pattern@, j),
    {
        let hay = self.chars();
        let pat = str_chars_vec(pattern);
        let n = hay.len();
        let mut i: usize = 0;
        while i <= n
            invariant
                i <= n + 1,
                n == hay@.len(),
                hay@ == self@,
                pat@ == pattern@,
                forall|j: int| 0 <= j < i ==> !is_match_at(self@, pattern@, j),
            decreases n + 1 - i,
        {
            if match_at(&hay, &pat, i) {
                return Some(i);
            }
            i = i + 1;
        }
        proof {
            assert forall|j: int| !is_match_at(self@, pattern@, j) by {
                if 0 <= j <= n {
                } else {
                }
            }
        }
        None
    }

    /// Return `true` if the pattern occurs somewhere in the string.
    pub fn contains(&self, pattern: &str) -> (r: bool)
        requires
            self@.len() < usize::MAX,
        ensures
            r == exists|j: int| is_match_at(self@, pattern@, j),
    {
        match self.find(pattern) {
            Some(i) => {
                proof {
                    assert(is_match_at(self@, pattern@, i as int));
                }
                true
            },
            None => false,
        }
    }

    /// Count the non-overlapping occurrences of the pattern, greedily from
    /// the left; the empty pattern matches at every boundary.
    pub fn count(&self, pattern: &str) -> (r: usize)
        requires
            self@.len() < usize::MAX,
        ensures
            pattern@.len() == 0 ==> r == self@.len() + 1,
            pattern@.len() >= 1 ==> r == count_occurrences(self@, pattern@),
    {
        let hay = self.chars();
        let pat = str_chars_vec(pattern);
        if pat.len() == 0 {
            return hay.len() + 1;
        }
        let n = hay.len();
        let plen = pat.len();
        let mut cnt: usize = 0;
        let mut pos: usize = 0;
        proof {
            assert(self@.skip(0) =~= self@);
        }
        while pos <= n && n - pos >= plen
            invariant
                pos <= n,
                n == hay@.len(),
                plen == pat@.len(),
                plen >= 1,
                hay@ == self@,
                pat@ == pattern@,
                cnt <= pos,
                cnt + count_occurrences(self@.skip(pos as int), pattern@) == count_occurrences(
                    self@, pattern@),
            decreases n - pos,
    {
            let ghost rest = self@.skip(pos as int);
            if match_at(&hay, &pat, pos) {
                proof {
                    assert(rest.subrange(0, plen as int) =~= self@.subrange(pos as int,
                        pos + plen));
                    assert(is_match_at(rest, pattern@, 0));
                    assert(rest.skip(plen as int) =~= self@.skip(pos + plen));
                }
                cnt = cnt + 1;
                pos = pos + plen;
            } else {
                proof {
                    if is_match_at(rest, pattern@, 0) {
                        assert(rest.subrange(0, plen as int) =~= self@.subrange(pos as int,
                            pos + plen));
                        assert(false);
                    }
                    assert(rest.skip(1) =~= self@.skip(pos + 1));
                }
                pos = pos + 1;
            }
        }
        proof {
            assert(count_occurrences(self@.skip(pos as int), pattern@) == 0);
        }
        cnt
    }

    /// Return `true` if the string starts with the given pattern.
    pub fn starts_with(&self, pattern: &str) -> (r: bool)
        ensures
            r == (pattern@.len() <= self@.len() && self@.subrange(0, pattern@.len() as int)
                == pattern@),
    {
        let hay = self.chars();
        let pat = str_chars_vec(pattern);
        let r = match_at(&hay, &pat, 0);
        proof {
            assert(is_match_at(self@, pattern@, 0) == (pattern@.len() <= self@.len()
                && self@.subrange(0, pattern@.len() as int) == pattern@));
        }
        r
    }

    /// Return `true` if the string ends with the given pattern.
    pub fn ends_with(&self, pattern: &str) -> (r: bool)
        ensures
            r == (pattern@.len() <= self@.len() && self@.subrange(
                self@.len() - pattern@.len(), self@.len() as int) == pattern@),
    {
        let hay = self.chars();
        let pat = str_chars_vec(pattern);
        if pat.len() > hay.len() {
            return false;
        }
        let start = hay.len() - pat.len();
        let r = match_at(&hay, &pat, start);
        r
    }

    /// Convert the string, ignoring surrounding whitespace, to an `Int`.
    pub fn to_integer(&self) -> (r: Option<Int>)
        requires
            self@.len() < usize::MAX,
        ensures
            parse_value(trim_chars(self@)) matches Some(v) ==> r matches Some(i) && i.wf()
                && i@ == v,
            r is None <==> parse_value(trim_chars(self@)) is None,
    {
        let t = self.strip();
        match Int::from_str(t.as_str()) {
            Ok(i) => Some(i),
            Err(_) => None,
        }
    }

    /// Return the lowercase equivalent of the string.
    pub fn lower(&self) -> (r: Self)
        ensures
            r@ == lower_of(self@),
    {
        Str { data: to_lower_string(self.data.as_str()) }
    }

    /// Return the uppercase equivalent of the string.
    pub fn upper(&self) -> (r: Self)
        ensures
            r@ == upper_of(self@),
    {
        Str { data: to_upper_string(self.data.as_str()) }
    }

    /// Replace every occurrence of a pattern, greedily from the left; an
    /// empty pattern interleaves the replacement at every boundary.
    pub fn replace(&self, old_str: &str, new_str: &str) -> (r: Self)
        requires
            self@.len() < usize::MAX,
        ensures
            old_str@.len() == 0 ==> r@ == interleave(self@, new_str@),
            old_str@.len() >= 1 ==> r@ == replace_all(self@, old_str@, new_str@),
    {
        let hay = self.chars();
        let pat = str_chars_vec(old_str);
        let sub = str_chars_vec(new_str);
        let n = hay.len();
        let mut out: Vec<char> = Vec::new();
        if pat.len() == 0 {
            let mut i: usize = 0;
            append_chars(&mut out, &sub);
            proof {
                assert(self@.skip(0) =~= self@);
            }
            while i < n
                invariant
                    i <= n,
                    n == hay@.len(),
                    hay@ == self@,
                    sub@ == new_str@,
                    interleave(self@, new_str@) == out@.add(inter_tail(self@.skip(i as int),
                        new_str@)),
                decreases n - i,
            {
                let ghost rest = self@.skip(i as int);
                out.push(hay[i]);
                append_chars(&mut out, &sub);
                proof {
                    assert(rest[0] == self@[i as int]);
                    assert(rest.skip(1) =~= self@.skip(i + 1));
                    assert(inter_tail(rest, new_str@) == seq![rest[0]].add(new_str@).add(
                        inter_tail(rest.skip(1), new_str@)));
                    assert(interleave(self@, new_str@) =~= out@.add(inter_tail(self@.skip(
                        i + 1), new_str@)));
                }
                i = i + 1;
            }
            proof {
                assert(self@.skip(n as int) =~= Seq::<char>::empty());
                assert(interleave(self@, new_str@) =~= out@);
            }
            return Str { data: chars_to_string(&out) };
        }
        let plen = pat.len();
        let mut pos: usize = 0;
        proof {
            assert(self@.skip(0) =~= self@);
        }
        while pos <= n && n - pos >= plen
            invariant
                pos <= n,
                n == hay@.len(),
                plen == pat@.len(),
                plen >= 1,
                hay@ == self@,
                pat@ == old_str@,
                sub@ == new_str@,
                replace_all(self@, old_str@, new_str@) == out@.add(replace_all(self@.skip(
                    pos as int), old_str@, new_str@)),
            decreases n - pos,
        {
            let ghost rest = self@.skip(pos as int);
            if match_at(&hay, &pat, pos) {
                proof {
                    assert(rest.subrange(0, plen as int) =~= self@.subrange(pos as int,
                        pos + plen));
                    assert(is_match_at(rest, old_str@, 0));
                    assert(rest.skip(plen as int) =~= self@.skip(pos + plen));
                }
                append_chars(&mut out, &sub);
                proof {
                    assert(replace_all(self@, old_str@, new_str@) =~= out@.add(replace_all(
                        self@.skip(pos + plen), old_str@, new_str@)));
                }
                pos = pos + plen;
            } else {
                proof {
                    if is_match_at(rest, old_str@, 0) {
                        assert(rest.subrange(0, plen as int) =~= self@.subrange(pos as int,
                            pos + plen));
                        assert(false);
                    }
                    assert(rest.skip(1) =~= self@.skip(pos + 1));
                    assert(rest[0] == self@[pos as int]);
                }
                out.push(hay[pos]);
                proof {
                    assert(replace_all(self@, old_str@, new_str@) =~= out@.add(replace_all(
                        self@.skip(pos + 1), old_str@, new_str@)));
                }
                pos = pos + 1;
            }
        }
        proof {
            assert(replace_all(self@.skip(pos as int), old_str@, new_str@) == self@.skip(
                pos as int));
        }
        let ghost out0 = out@;
        let mut k: usize = pos;
        while k < n
            invariant
                pos <= k <= n,
                n == hay@.len(),
                hay@ == self@,
                out@ =~= out0.add(self@.subrange(pos as int, k as int)),
            decreases n - k,
        {
            out.push(hay[k]);
            proof {
                assert(out@ =~= out0.add(self@.subrange(pos as int, k + 1)));
            }
            k = k + 1;
        }
        proof {
            assert(self@.subrange(pos as int, n as int) =~= self@.skip(pos as int));
        }
        Str { data: chars_to_string(&out) }
    }

    /// Return the string with leading and trailing whitespace removed.
    pub fn strip(&self) -> (r: Self)
        requires
            self@.len() < usize::MAX,
        ensures
            r@ == trim_chars(self@),
    {
        let cs = self.chars();
        let n = cs.len();
        let mut a: usize = 0;
        proof {
            assert(self@.skip(0) =~= self@);
        }
        while a < n && is_space_exec(cs[a])
            invariant
                a <= n,
                n == cs@.len(),
                cs@ == self@,
                trim_front(self@) == trim_front(self@.skip(a as int)),
            decreases n - a,
        {
            proof {
                let rest = self@.skip(a as int);
                assert(rest[0] == self@[a as int]);
                assert(rest.skip(1) =~= self@.skip(a + 1));
            }
            a = a + 1;
        }
        proof {
            let rest = self@.skip(a as int);
            if a < n {
                assert(rest[0] == self@[a as int]);
                assert(!is_space(rest[0]));
            } else {
                assert(rest =~= Seq::<char>::empty());
            }
            assert(trim_front(self@) == self@.skip(a as int));
        }
        let mut b: usize = n - a;
        proof {
            assert(self@.skip(a as int).take((n - a) as int) =~= self@.skip(a as int));
        }
        while b > 0 && is_space_exec(cs[a + b - 1])
            invariant
                b <= n - a,
                n == cs@.len(),
                cs@ == self@,
                trim_front(self@) == self@.skip(a as int),
                trim_back(self@.skip(a as int)) == trim_back(self@.skip(a as int).take(b as int)),
            decreases b,
        {
            proof {
                let cur = self@.skip(a as int).take(b as int);
                assert(cur.last() == self@[a + b - 1]);
                assert(cur.drop_last() =~= self@.skip(a as int).take(b - 1));
            }
            b = b - 1;
        }
        proof {
            let cur = self@.skip(a as int).take(b as int);
            if b > 0 {
                assert(cur.last() == self@[a + b - 1]);
                assert(!is_space(cur.last()));
            } else {
                assert(cur =~= Seq::<char>::empty());
            }
            assert(trim_back(self@.skip(a as int)) == cur);
        }
        let mut out: Vec<char> = Vec::new();
        let mut k: usize = 0;
        while k < b
            invariant
                k <= b,
                b <= n - a,
                n == cs@.len(),
                cs@ == self@,
                out@ =~= self@.skip(a as int).take(b as int).take(k as int),
            decreases b - k,
        {
            out.push(cs[a + k]);
            proof {
                assert(out@ =~= self@.skip(a as int).take(b as int).take(k + 1));
            }
            k = k + 1;
        }
        proof {
            assert(self@.skip(a as int).take(b as int).take(b as int) =~= self@.skip(
                a as int).take(b as int));
        }
        Str { data: chars_to_string(&out) }
    }

    /// Return the concatenation of the strings in `str_list`, with self
    /// between consecutive pieces.
    pub fn join(&self, str_list: &List<Str>) -> (r: Self)
        ensures
            r@ == joined(str_list@, self@),
    {
        let pieces = str_list.iter();
        let n = pieces.len();
        let mut out: Vec<char> = Vec::new();
        let mut i: usize = 0;
        while i < n
            invariant
                i <= n,
                n == pieces@.len(),
                pieces@ == str_list@,
                out@ == joined(str_list@.take(i as int), self@),
            decreases n - i,
        {
            if i > 0 {
                let sep = self.chars();
                append_chars(&mut out, &sep);
            }
            let piece = str_chars_vec(pieces[i].as_str());
            append_chars(&mut out, &piece);
            proof {
                assert(str_list@.take(i + 1) =~= str_list@.take(i as int).push(str_list@[
                    i as int]));
                lemma_joined_snoc(str_list@.take(i as int), str_list@[i as int], self@);
                if i == 0 {
                    assert(out@ =~= joined(str_list@.take(i + 1), self@));
                } else {
                    assert(out@ =~= joined(str_list@.take(i + 1), self@));
                }
            }
            i = i + 1;
        }
        proof {
            assert(str_list@.take(n as int) =~= str_list@);
        }
        Str { data: chars_to_string(&out) }
    }
}

/// Whether the character is ASCII whitespace.
fn is_space_exec(c: char) -> (r: bool)
    ensures
        r == is_space(c),
{
    c == ' ' || c == '\t' || c == '\n' || c == '\r'
}

/// Append all characters of `src` to `dst`.
fn append_chars(dst: &mut Vec<char>, src: &Vec<char>)
    ensures
        final(dst)@ == old(dst)@.add(src@),
{
    let n = src.len();
    let mut i: usize = 0;
    while i < n
        invariant
            i <= n,
            n == src@.len(),
            dst@ =~= old(dst)@.add(src@.take(i as int)),
        decreases n - i,
    {
        dst.push(src[i]);
        proof {
            assert(dst@ =~= old(dst)@.add(src@.take(i + 1)));
        }
        i = i + 1;
    }
    proof {
        assert(src@.take(n as int) =~= src@);
    }
}


/// The position of the first occurrence of a non-empty pattern, or -1.
pub open spec fn first_match_idx(s: Seq<char>, p: Seq<char>) -> int
    recommends
        p.len() >= 1,
    decreases s.len(),
    when p.len() >= 1
{
    if s.len() < p.len() {
        -1
    } else if is_match_at(s, p, 0) {
        0
    } else {
        let r = first_match_idx(s.skip(1), p);
        if r == -1 {
            -1
        } else {
            r + 1
        }
    }
}

/// A match preceded by no earlier match is the first match.
pub(crate) proof fn lemma_first_match_found(s: Seq<char>, p: Seq<char>, m: int)
    requires
        p.len() >= 1,
        is_match_at(s, p, m),
        forall|j: int| 0 <= j < m ==> !is_match_at(s, p, j),
    ensures
        first_match_idx(s, p) == m,
    decreases m,
{
    if m == 0 {
    } else {
        assert(!is_match_at(s, p, 0));
        let t = s.skip(1);
        assert(t.subrange(m - 1, m - 1 + p.len()) =~= s.subrange(m, m + p.len()));
        assert(is_match_at(t, p, m - 1));
        assert forall|j: int| 0 <= j < m - 1 implies !is_match_at(t, p, j) by {
            if is_match_at(t, p, j) {
                assert(t.subrange(j, j + p.len()) =~= s.subrange(j + 1, j + 1 + p.len()));
                assert(is_match_at(s, p, j + 1));
            }
        }
        lemma_first_match_found(t, p, m - 1);
    }
}

/// Without any match there is no first match.
pub(crate) proof fn lemma_first_match_none(s: Seq<char>, p: Seq<char>)
    requires
        p.len() >= 1,
        forall|j: int| !is_match_at(s, p, j),
    ensures
        first_match_idx(s, p) == -1,
    decreases s.len(),
{
    if s.len() < p.len() {
    } else {
        let t = s.skip(1);
        assert forall|j: int| !is_match_at(t, p, j) by {
            if is_match_at(t, p, j) {
                assert(t.subrange(j, j + p.len()) =~= s.subrange(j + 1, j + 1 + p.len()));
                assert(is_match_at(s, p, j + 1));
            }
        }
        lemma_first_match_none(t, p);
        assert(!is_match_at(s, p, 0));
    }
}

#[via_fn]
proof fn split_parts_decreases(s: Seq<char>, p: Seq<char>) {
    let m = first_match_idx(s, p);
    if m != -1 {
        lemma_first_match_bounds(s, p);
    }
}

/// A first match lies within the text.
proof fn lemma_first_match_bounds(s: Seq<char>, p: Seq<char>)
    requires
        p.len() >= 1,
        first_match_idx(s, p) != -1,
    ensures
        0 <= first_match_idx(s, p),
        first_match_idx(s, p) + p.len() <= s.len(),
    decreases s.len(),
{
    if s.len() < p.len() {
    } else if is_match_at(s, p, 0) {
    } else {
        lemma_first_match_bounds(s.skip(1), p);
    }
}

/// The pieces of the text split at every occurrence of a non-empty pattern.
pub open spec fn split_parts(s: Seq<char>, p: Seq<char>) -> Seq<Seq<char>>
    recommends
        p.len() >= 1,
    decreases s.len(),
    when p.len() >= 1
    via split_parts_decreases
{
    let m = first_match_idx(s, p);
    if m == -1 {
        seq![s]
    } else {
        seq![s.take(m)].add(split_parts(s.skip(m + p.len() as int), p))
    }
}

/// The splitting of the text at an empty pattern: a piece at every boundary,
/// so an empty piece, each character alone, and a final empty piece.
pub open spec fn split_empty(s: Seq<char>) -> Seq<Seq<char>> {
    Seq::new(s.len() + 2, |i: int| if i == 0 || i == s.len() + 1 {
        Seq::empty()
    } else {
        seq![s[i - 1]]
    })
}

/// The string views of `pieces` are exactly `parts`.
pub open spec fn pieces_are<'a>(pieces: Seq<Str>, parts: Seq<Seq<char>>) -> bool {
    pieces.len() == parts.len() && forall|i: int| #![trigger pieces[i]] 0 <= i < pieces.len()
        ==> pieces[i]@ == parts[i]
}

impl Str {
    /// Build a string from a slice of the character vector.
    fn from_chars_range(cs: &Vec<char>, from: usize, to: usize) -> (r: Str)
        requires
            from <= to <= cs@.len(),
        ensures
            r@ == cs@.subrange(from as int, to as int),
    {
        let mut out: Vec<char> = Vec::new();
        let mut k: usize = from;
        while k < to
            invariant
                from <= k <= to <= cs@.len(),
                out@ =~= cs@.subrange(from as int, k as int),
            decreases to - k,
        {
            out.push(cs[k]);
            proof {
                assert(out@ =~= cs@.subrange(from as int, k + 1));
            }
            k = k + 1;
        }
        Str { data: chars_to_string(&out) }
    }

    /// Split the string at every occurrence of `separator`; the empty
    /// separator splits at every character boundary.
    pub fn split(&self, separator: &str) -> (r: List<Str>)
        requires
            self@.len() < usize::MAX,
            self@.len() + 2 < i32::MAX,
        ensures
            separator@.len() >= 1 ==> pieces_are(r@, split_parts(self@, separator@)),
            separator@.len() == 0 ==> pieces_are(r@, split_empty(self@)),
    {
        let hay = self.chars();
        let pat = str_chars_vec(separator);
        let n = hay.len();
        let mut out: List<Str> = List::new();
        if pat.len() == 0 {
            out.push(Str::new());
            let mut i: usize = 0;
            while i < n
                invariant
                    i <= n,
                    n == hay@.len(),
                    hay@ == self@,
                    n + 2 < i32::MAX,
                    out@.len() == i + 1,
                    out@[0]@ == Seq::<char>::empty(),
                    forall|k: int| 1 <= k <= i ==> (#[trigger] out@[k])@ == seq![self@[k - 1]],
                decreases n - i,
            {
                let piece = Str::from_chars_range(&hay, i, i + 1);
                proof {
                    assert(self@.subrange(i as int, i + 1) =~= seq![self@[i as int]]);
                }
                out.push(piece);
                i = i + 1;
            }
            out.push(Str::new());
            proof {
                assert(pieces_are(out@, split_empty(self@))) by {
                    assert forall|k: int| 0 <= k < out@.len() implies (#[trigger] out@[k])@
                        == split_empty(self@)[k] by {
                        if k == 0 || k == self@.len() + 1 {
                        } else {
                            assert(out@[k]@ == seq![self@[k - 1]]);
                        }
                    }
                }
            }
            return out;
        }
        let plen = pat.len();
        let ghost ps = separator@;
        let mut start: usize = 0;
        let mut pos: usize = 0;
        let ghost mut done: Seq<Seq<char>> = Seq::empty();
        proof {
            assert(self@.skip(0) =~= self@);
            assert(Seq::<Seq<char>>::empty().add(split_parts(self@.skip(0), ps))
                =~= split_parts(self@, ps));
        }
        while pos <= n && n - pos >= plen
            invariant
                start <= pos <= n,
                n == hay@.len(),
                plen == pat@.len(),
                plen >= 1,
                hay@ == self@,
                pat@ == ps,
                ps == separator@,
                n + 2 < i32::MAX,
                out@.len() <= start + 1,
                pieces_are(out@, done),
                split_parts(self@, ps) == done.add(split_parts(self@.skip(start as int), ps)),
                forall|j: int| start <= j < pos ==> !is_match_at(self@, ps, j),
            decreases n - pos,
        {
            if match_at(&hay, &pat, pos) {
                let piece = Str::from_chars_range(&hay, start, pos);
                out.push(piece);
                proof {
                    let rest = self@.skip(start as int);
                    assert(rest.subrange(pos - start, pos - start + plen) =~= self@.subrange(
                        pos as int, pos + plen));
                    assert(is_match_at(rest, ps, pos - start));
                    assert forall|j: int| 0 <= j < pos - start implies !is_match_at(rest, ps,
                        j) by {
                        if is_match_at(rest, ps, j) {
                            assert(rest.subrange(j, j + plen) =~= self@.subrange(start + j,
                                start + j + plen));
                            assert(is_match_at(self@, ps, start + j));
                        }
                    }
                    lemma_first_match_found(rest, ps, pos - start);
                    assert(rest.take(pos - start) =~= self@.subrange(start as int, pos as int));
                    assert(rest.skip(pos - start + plen) =~= self@.skip(pos + plen));
                    assert(split_parts(rest, ps) == seq![self@.subrange(start as int,
                        pos as int)].add(split_parts(self@.skip(pos + plen), ps)));
                    done = done.push(self@.subrange(start as int, pos as int));
                    assert(split_parts(self@, ps) =~= done.add(split_parts(self@.skip(
                        pos + plen), ps)));
                    assert(pieces_are(out@, done));
                }
                start = pos + plen;
                pos = start;
            } else {
                pos = pos + 1;
            }
        }
        let last = Str::from_chars_range(&hay, start, n);
        out.push(last);
        proof {
            let rest = self@.skip(start as int);
            assert forall|j: int| !is_match_at(rest, ps, j) by {
                if is_match_at(rest, ps, j) {
                    assert(0 <= j && j + plen <= rest.len());
                    assert(rest.subrange(j, j + plen) =~= self@.subrange(start + j, start + j
                        + plen));
                    assert(is_match_at(self@, ps, start + j));
                    assert(start + j < pos);
                }
            }
            lemma_first_match_none(rest, ps);
            assert(split_parts(rest, ps) == seq![rest]);
            assert(self@.subrange(start as int, n as int) =~= rest);
            done = done.push(rest);
            assert(split_parts(self@, ps) =~= done);
            assert(pieces_are(out@, done));
        }
        out
    }
}

} // verus!
