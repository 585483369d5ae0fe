//! Character-level text utilities shared by the parsers.
//!
//! Text is processed as `Vec<char>` with half-open index ranges, so every
//! function here is specified over `Seq<char>` sub-ranges.

use vstd::prelude::*;

verus! {

/// Unicode `White_Space` property, the set `char::is_whitespace` accepts.
pub open spec fn is_ws(c: char) -> bool {
    ||| (c as u32) >= 0x09 && (c as u32) <= 0x0d
    ||| c == ' '
    ||| (c as u32) == 0x85
    ||| (c as u32) == 0xa0
    ||| (c as u32) == 0x1680
    ||| (c as u32) >= 0x2000 && (c as u32) <= 0x200a
    ||| (c as u32) == 0x2028
    ||| (c as u32) == 0x2029
    ||| (c as u32) == 0x202f
    ||| (c as u32) == 0x205f
    ||| (c as u32) == 0x3000
}

/// Leading whitespace removed.
pub open spec fn ltrim(s: Seq<char>) -> Seq<char>
    decreases s.len(),
{
    if s.len() > 0 && is_ws(s[0]) {
        ltrim(s.drop_first())
    } else {
        s
    }
}

/// Trailing whitespace removed.
pub open spec fn rtrim(s: Seq<char>) -> Seq<char>
    decreases s.len(),
{
    if s.len() > 0 && is_ws(s.last()) {
        rtrim(s.drop_last())
    } else {
        s
    }
}

/// `str::trim`: whitespace removed from both ends.
pub open spec fn trim(s: Seq<char>) -> Seq<char> {
    rtrim(ltrim(s))
}

/// First index at or after `i` where `pat` occurs in `hay`.
pub open spec fn find_from(hay: Seq<char>, pat: Seq<char>, i: nat) -> Option<nat>
    decreases hay.len() + 1 - i,
{
    if i + pat.len() > hay.len() {
        None
    } else if hay.subrange(i as int, (i + pat.len()) as int) == pat {
        Some(i)
    } else {
        find_from(hay, pat, i + 1)
    }
}

/// `str::find` for a string pattern, counted in characters.
pub open spec fn find_spec(hay: Seq<char>, pat: Seq<char>) -> Option<nat> {
    find_from(hay, pat, 0)
}

/// First index of `c` in `s`.
pub open spec fn first_index(s: Seq<char>, c: char) -> Option<nat>
    decreases s.len(),
{
    if s.len() == 0 {
        None
    } else if s[0] == c {
        Some(0)
    } else {
        match first_index(s.drop_first(), c) {
            Some(i) => Some(i + 1),
            None => None,
        }
    }
}

/// Last index of `c` in `s`.
pub open spec fn last_index(s: Seq<char>, c: char) -> Option<nat>
    decreases s.len(),
{
    if s.len() == 0 {
        None
    } else if s.last() == c {
        Some((s.len() - 1) as nat)
    } else {
        last_index(s.drop_last(), c)
    }
}

/// `str::replace` of the two-character pattern `[a, b]` by `[b]`.
pub open spec fn unescape_pair(s: Seq<char>, a: char, b: char) -> Seq<char>
    decreases s.len(),
{
    if s.len() < 2 {
        s
    } else if s[0] == a && s[1] == b {
        seq![b] + unescape_pair(s.skip(2), a, b)
    } else {
        seq![s[0]] + unescape_pair(s.drop_first(), a, b)
    }
}

/// The decimal digit character of `d < 10`.
pub open spec fn digit_char(d: nat) -> char {
    if d == 0 { '0' }
    else if d == 1 { '1' }
    else if d == 2 { '2' }
    else if d == 3 { '3' }
    else if d == 4 { '4' }
    else if d == 5 { '5' }
    else if d == 6 { '6' }
    else if d == 7 { '7' }
    else if d == 8 { '8' }
    else { '9' }
}

/// Decimal rendering of a natural number, as `usize`'s `Display` writes it.
pub open spec fn decimal(n: nat) -> Seq<char>
    decreases n,
{
    if n < 10 {
        seq![digit_char(n)]
    } else {
        decimal(n / 10) + seq![digit_char(n % 10)]
    }
}

/// What `{:?}` writes for a string: quoted, with Rust's debug escapes.
pub uninterp spec fn debug_text(s: Seq<char>) -> Seq<char>;

/// Renders `s` with `{:?}`.
///
/// Trusted: calls `format!("{:?}")` on a `str`; the contract says only that
/// the result is the named debug rendering of the argument.
#[verifier::external_body]
pub(crate) fn debug_string(s: &str) -> (r: String)
    ensures
        r@ == debug_text(s@),
{
    format!("{s:?}")
}

/// Collects the characters `v[lo..hi]` into a `String`.
///
/// Trusted: calls `FromIterator<char>` for `String`, which keeps the
/// characters in order.
#[verifier::external_body]
pub(crate) fn string_from_chars(v: &[char], lo: usize, hi: usize) -> (r: String)
    requires
        lo <= hi <= v@.len(),
    ensures
        r@ == v@.subrange(lo as int, hi as int),
{
    v[lo..hi].iter().collect()
}

/// The characters of `s`.
pub fn chars_of(s: &str) -> (v: Vec<char>)
    ensures
        v@ == s@,
{
    let mut v: Vec<char> = Vec::new();
    for c in it: s.chars()
        invariant
            v@ == it.seq().take(it.index() as int),
            it.seq() == s@,
    {
        v.push(c);
    }
    v
}

/// `s` as an owned string.
pub fn owned(s: &str) -> (r: String)
    ensures
        r@ == s@,
{
    s.to_owned()
}

/// `a` followed by `b`.
pub fn concat(a: &str, b: &str) -> (r: String)
    ensures
        r@ == a@ + b@,
{
    let mut r = String::from_str(a);
    r.append(b);
    r
}

/// `a`, `b` and `c` in order.
pub fn concat3(a: &str, b: &str, c: &str) -> (r: String)
    ensures
        r@ == a@ + b@ + c@,
{
    let mut r = String::from_str(a);
    r.append(b);
    r.append(c);
    r
}

/// Whether two strings hold the same characters.
pub fn str_eq(a: &str, b: &str) -> (r: bool)
    ensures
        r == (a@ == b@),
{
    let va = chars_of(a);
    let vb = chars_of(b);
    if va.len() != vb.len() {
        return false;
    }
    let mut i: usize = 0;
    while i < va.len()
        invariant
            va@ == a@,
            vb@ == b@,
            va.len() == vb.len(),
            i <= va.len(),
            forall|j: int| 0 <= j < i ==> va@[j] == vb@[j],
        decreases va.len() - i,
    {
        if va[i] != vb[i] {
            return false;
        }
        i = i + 1;
    }
    assert(va@ =~= vb@);
    true
}

/// Whether `c` is Unicode whitespace.
pub fn is_ws_char(c: char) -> (r: bool)
    ensures
        r == is_ws(c),
{
    let u = c as u32;
    (u >= 0x09 && u <= 0x0d) || c == ' ' || u == 0x85 || u == 0xa0 || u == 0x1680 || (u >= 0x2000
        && u <= 0x200a) || u == 0x2028 || u == 0x2029 || u == 0x202f || u == 0x205f || u == 0x3000
}

proof fn lemma_ltrim_skip(s: Seq<char>, k: int)
    requires
        0 <= k <= s.len(),
        forall|j: int| 0 <= j < k ==> is_ws(#[trigger] s[j]),
    ensures
        ltrim(s) == ltrim(s.skip(k)),
    decreases k,
{
    if k > 0 {
        assert(s.skip(1) =~= s.drop_first());
        lemma_ltrim_skip(s.drop_first(), k - 1);
        assert(s.drop_first().skip(k - 1) =~= s.skip(k));
    } else {
        assert(s.skip(0) =~= s);
    }
}

proof fn lemma_rtrim_take(s: Seq<char>, k: int)
    requires
        0 <= k <= s.len(),
        forall|j: int| k <= j < s.len() ==> is_ws(#[trigger] s[j]),
    ensures
        rtrim(s) == rtrim(s.take(k)),
    decreases s.len() - k,
{
    if k < s.len() {
        assert(s.take(s.len() - 1) =~= s.drop_last());
        lemma_rtrim_take(s.drop_last(), k);
        assert(s.drop_last().take(k) =~= s.take(k));
    } else {
        assert(s.take(k) =~= s);
    }
}

/// The range of `v[lo..hi]` left after trimming whitespace from both ends.
pub fn trim_range(v: &[char], lo: usize, hi: usize) -> (r: (usize, usize))
    requires
        lo <= hi <= v@.len(),
    ensures
        lo <= r.0 <= r.1 <= hi,
        v@.subrange(r.0 as int, r.1 as int) == trim(v@.subrange(lo as int, hi as int)),
{
    let ghost s = v@.subrange(lo as int, hi as int);
    let mut a = lo;
    while a < hi && is_ws_char(v[a])
        invariant
            lo <= a <= hi <= v@.len(),
            s == v@.subrange(lo as int, hi as int),
            forall|j: int| lo <= j < a ==> is_ws(#[trigger] v@[j]),
        decreases hi - a,
    {
        a = a + 1;
    }
    proof {
        assert forall|j: int| 0 <= j < a - lo implies is_ws(#[trigger] s[j]) by {
            assert(s[j] == v@[lo + j]);
        }
        lemma_ltrim_skip(s, a - lo);
        assert(s.skip(a - lo) =~= v@.subrange(a as int, hi as int));
        let t = v@.subrange(a as int, hi as int);
        if t.len() > 0 {
            assert(t[0] == v@[a as int]);
        }
        assert(ltrim(t) == t);
    }
    let mut b = hi;
    while b > a && is_ws_char(v[b - 1])
        invariant
            lo <= a <= b <= hi <= v@.len(),
            forall|j: int| b <= j < hi ==> is_ws(#[trigger] v@[j]),
        decreases b - a,
    {
        b = b - 1;
    }
    proof {
        let t = v@.subrange(a as int, hi as int);
        assert forall|j: int| b - a <= j < t.len() implies is_ws(#[trigger] t[j]) by {
            assert(t[j] == v@[a + j]);
        }
        lemma_rtrim_take(t, b - a);
        assert(t.take(b - a) =~= v@.subrange(a as int, b as int));
        let u = v@.subrange(a as int, b as int);
        if u.len() > 0 {
            assert(u.last() == v@[b - 1]);
        }
        assert(rtrim(u) == u);
    }
    (a, b)
}

/// The first occurrence of `pat` in `v[lo..hi]`, relative to `lo`.
pub fn find_in(v: &[char], lo: usize, hi: usize, pat: &[char]) -> (r: Option<usize>)
    requires
        lo <= hi <= v@.len(),
    ensures
        r matches Some(i) ==> find_spec(v@.subrange(lo as int, hi as int), pat@) == Some(i as nat),
        r is None ==> find_spec(v@.subrange(lo as int, hi as int), pat@) is None,
{
    let ghost hay = v@.subrange(lo as int, hi as int);
    let n = hi - lo;
    let m = pat.len();
    if m == 0 {
        assert(hay.subrange(0, 0) =~= pat@);
        return Some(0);
    }
    let mut i: usize = 0;
    while m <= n - i
        invariant
            i <= n,
            m >= 1,
            lo <= hi <= v@.len(),
            n == hi - lo,
            m == pat@.len(),
            hay == v@.subrange(lo as int, hi as int),
            find_spec(hay, pat@) == find_from(hay, pat@, i as nat),
        decreases n - i,
    {
        let mut k: usize = 0;
        let mut same = true;
        while k < m
            invariant
                0 <= k <= m,
                i + m <= n,
                lo <= hi <= v@.len(),
                n == hi - lo,
                m == pat@.len(),
                hay == v@.subrange(lo as int, hi as int),
                same ==> forall|j: int| 0 <= j < k ==> hay[i + j] == pat@[j],
                !same ==> hay.subrange(i as int, i + m) != pat@,
            decreases m - k,
        {
            if same && v[lo + i + k] != pat[k] {
                same = false;
                assert(hay.subrange(i as int, i + m)[k as int] == hay[i + k]);
            }
            k = k + 1;
        }
        if same {
            assert(hay.subrange(i as int, i + m) =~= pat@);
            return Some(i);
        }
        i = i + 1;
    }
    None
}

pub proof fn lemma_find_from_bound(hay: Seq<char>, pat: Seq<char>, i: nat)
    ensures
        find_from(hay, pat, i) matches Some(j) ==> i <= j && j + pat.len() <= hay.len()
            && hay.subrange(j as int, (j + pat.len()) as int) == pat,
    decreases hay.len() + 1 - i,
{
    if i + pat.len() <= hay.len() && hay.subrange(i as int, (i + pat.len()) as int) != pat {
        lemma_find_from_bound(hay, pat, i + 1);
    }
}

/// A match found by [`find_spec`] lies inside the haystack.
pub proof fn lemma_find_bound(hay: Seq<char>, pat: Seq<char>)
    ensures
        find_spec(hay, pat) matches Some(j) ==> j + pat.len() <= hay.len()
            && hay.subrange(j as int, (j + pat.len()) as int) == pat,
{
    lemma_find_from_bound(hay, pat, 0);
}

/// The first index of `c` in `v[lo..hi]`, relative to `lo`.
pub fn index_of(v: &[char], lo: usize, hi: usize, c: char) -> (r: Option<usize>)
    requires
        lo <= hi <= v@.len(),
    ensures
        r matches Some(i) ==> first_index(v@.subrange(lo as int, hi as int), c) == Some(i as nat)
            && lo + i < hi,
        r is None ==> first_index(v@.subrange(lo as int, hi as int), c) is None,
    decreases hi - lo,
{
    if lo == hi {
        return None;
    }
    let ghost s = v@.subrange(lo as int, hi as int);
    assert(s.drop_first() =~= v@.subrange(lo + 1, hi as int));
    if v[lo] == c {
        Some(0)
    } else {
        match index_of(v, lo + 1, hi, c) {
            Some(i) => Some(i + 1),
            None => None,
        }
    }
}

/// The last index of `c` in `v[lo..hi]`, relative to `lo`.
pub fn last_index_of(v: &[char], lo: usize, hi: usize, c: char) -> (r: Option<usize>)
    requires
        lo <= hi <= v@.len(),
    ensures
        r matches Some(i) ==> last_index(v@.subrange(lo as int, hi as int), c) == Some(i as nat)
            && lo + i < hi,
        r is None ==> last_index(v@.subrange(lo as int, hi as int), c) is None,
    decreases hi - lo,
{
    if lo == hi {
        return None;
    }
    let ghost s = v@.subrange(lo as int, hi as int);
    assert(s.drop_last() =~= v@.subrange(lo as int, hi - 1));
    if v[hi - 1] == c {
        Some(hi - 1 - lo)
    } else {
        last_index_of(v, lo, hi - 1, c)
    }
}

/// `v[lo..hi]` with every `a b` pair replaced by `b`.
pub fn unescape_pair_in(v: &[char], lo: usize, hi: usize, a: char, b: char) -> (r: Vec<char>)
    requires
        lo <= hi <= v@.len(),
    ensures
        r@ == unescape_pair(v@.subrange(lo as int, hi as int), a, b),
{
    let ghost s = v@.subrange(lo as int, hi as int);
    let mut out: Vec<char> = Vec::new();
    let mut i = lo;
    while i < hi
        invariant
            lo <= i <= hi <= v@.len(),
            s == v@.subrange(lo as int, hi as int),
            out@ + unescape_pair(v@.subrange(i as int, hi as int), a, b) == unescape_pair(s, a, b),
        decreases hi - i,
    {
        let ghost t = v@.subrange(i as int, hi as int);
        if i + 1 < hi && v[i] == a && v[i + 1] == b {
            out.push(b);
            proof {
                assert(t[0] == v@[i as int] && t[1] == v@[i + 1]);
                assert(t.skip(2) =~= v@.subrange(i + 2, hi as int));
                assert(out@ + unescape_pair(t.skip(2), a, b) =~= out@.drop_last() + (seq![b]
                    + unescape_pair(t.skip(2), a, b)));
            }
            i = i + 2;
        } else {
            out.push(v[i]);
            proof {
                assert(t[0] == v@[i as int]);
                if t.len() >= 2 {
                    assert(t[1] == v@[i + 1]);
                }
                assert(t.drop_first() =~= v@.subrange(i + 1, hi as int));
                if t.len() < 2 {
                    assert(t =~= seq![v@[i as int]]);
                    assert(unescape_pair(t.drop_first(), a, b) == t.drop_first());
                }
                assert(out@ + unescape_pair(t.drop_first(), a, b) =~= out@.drop_last() + (seq![
                    v@[i as int],
                ] + unescape_pair(t.drop_first(), a, b)));
            }
            i = i + 1;
        }
    }
    proof {
        assert(v@.subrange(hi as int, hi as int) =~= Seq::<char>::empty());
        assert(out@ + Seq::<char>::empty() =~= out@);
    }
    out
}

/// Decimal digits of `n`.
pub fn decimal_chars(n: u64) -> (r: Vec<char>)
    ensures
        r@ == decimal(n as nat),
    decreases n,
{
    let d = n % 10;
    let c = if d == 0 { '0' } else if d == 1 { '1' } else if d == 2 { '2' } else if d == 3 { '3' }
    else if d == 4 { '4' } else if d == 5 { '5' } else if d == 6 { '6' } else if d == 7 { '7' }
    else if d == 8 { '8' } else { '9' };
    if n < 10 {
        let mut r = Vec::new();
        r.push(c);
        assert(r@ =~= seq![digit_char(n as nat)]);
        r
    } else {
        let mut r = decimal_chars(n / 10);
        r.push(c);
        assert(r@ =~= decimal((n / 10) as nat) + seq![digit_char((n % 10) as nat)]);
        r
    }
}

/// Decimal rendering of `n` as a `String`.
pub fn decimal_string(n: u64) -> (r: String)
    ensures
        r@ == decimal(n as nat),
{
    let v = decimal_chars(n);
    string_from_chars(v.as_slice(), 0, v.len())
}

} // verus!
