//! The LiquidAI LFM in-band tool-call grammar:
//! `<|tool_call_start|>[fn(k=v, ...), ...]<|tool_call_end|>`, with
//! Python-style literal argument values.
//!
//! Every parser here is specified by a spec function over `Seq<char>`; errors
//! are the message texts a `KernelError::NormalizerFailed` carries.

use vstd::prelude::*;

use crate::json::{
    canonical_number_text, int_number, lemma_array_model, lemma_object_model, models, number_text,
    obj_insert, obj_lookup, object_find, object_insert, pair_models, Json, JsonNum, JsonNumber,
    JsonValue,
};
use crate::text::{
    concat, debug_string, debug_text, find_in, find_spec, first_index, index_of, is_ws,
    last_index, last_index_of, ltrim, rtrim, string_from_chars, trim, trim_range, unescape_pair,
    unescape_pair_in,
};

verus! {

// ── Top-level splitting ─────────────────────────────────────────────────────

/// Scanner state: bracket depth, inside single / double quotes, and whether
/// the next character is escaped.
pub struct Scan {
    pub depth: nat,
    pub in_sq: bool,
    pub in_dq: bool,
    pub esc: bool,
}

pub open spec fn scan_init() -> Scan {
    Scan { depth: 0, in_sq: false, in_dq: false, esc: false }
}

/// One scanner step over `c`: the next state, and whether `c` is a
/// top-level occurrence of `delim`.
pub open spec fn scan_step(st: Scan, c: char, delim: char) -> (Scan, bool) {
    if st.esc {
        (Scan { esc: false, ..st }, false)
    } else if c == '\\' && (st.in_sq || st.in_dq) {
        (Scan { esc: true, ..st }, false)
    } else if st.in_sq {
        (if c == '\'' { Scan { in_sq: false, ..st } } else { st }, false)
    } else if st.in_dq {
        (if c == '"' { Scan { in_dq: false, ..st } } else { st }, false)
    } else if c == '\'' {
        (Scan { in_sq: true, ..st }, false)
    } else if c == '"' {
        (Scan { in_dq: true, ..st }, false)
    } else if c == '(' || c == '[' || c == '{' {
        (Scan { depth: st.depth + 1, ..st }, false)
    } else if c == ')' || c == ']' || c == '}' {
        (Scan { depth: if st.depth > 0 { (st.depth - 1) as nat } else { 0 }, ..st }, false)
    } else if c == delim && st.depth == 0 {
        (st, true)
    } else {
        (st, false)
    }
}

/// Piece ranges of `s` between top-level delimiters, from position `k`.
pub open spec fn split_acc(
    s: Seq<char>,
    delim: char,
    k: nat,
    st: Scan,
    start: nat,
    acc: Seq<(nat, nat)>,
) -> Seq<(nat, nat)>
    decreases s.len() - k,
{
    if k >= s.len() {
        acc.push((start, s.len()))
    } else {
        let (st2, d) = scan_step(st, s[k as int], delim);
        if d {
            split_acc(s, delim, k + 1, st2, k + 1, acc.push((start, k)))
        } else {
            split_acc(s, delim, k + 1, st2, start, acc)
        }
    }
}

/// The ranges of the pieces of `s` between top-level occurrences of `delim`
/// (outside brackets and quotes), empty pieces at the edges included.
pub open spec fn split_ranges(s: Seq<char>, delim: char) -> Seq<(nat, nat)> {
    split_acc(s, delim, 0, scan_init(), 0, seq![])
}

/// The pieces themselves.
pub open spec fn split_pieces(s: Seq<char>, delim: char) -> Seq<Seq<char>> {
    let r = split_ranges(s, delim);
    Seq::new(r.len(), |i: int| s.subrange(r[i].0 as int, r[i].1 as int))
}

/// The first top-level occurrence of `delim` at or after `k`.
pub open spec fn first_split_from(s: Seq<char>, delim: char, k: nat, st: Scan) -> Option<nat>
    decreases s.len() - k,
{
    if k >= s.len() {
        None
    } else {
        let (st2, d) = scan_step(st, s[k as int], delim);
        if d {
            Some(k)
        } else {
            first_split_from(s, delim, k + 1, st2)
        }
    }
}

/// The first top-level occurrence of `delim` in `s`.
pub open spec fn first_split(s: Seq<char>, delim: char) -> Option<nat> {
    first_split_from(s, delim, 0, scan_init())
}

pub open spec fn ranges_within(r: Seq<(nat, nat)>, n: nat) -> bool {
    forall|i: int| 0 <= i < r.len() ==> (#[trigger] r[i]).0 <= r[i].1 <= n
}

pub proof fn lemma_split_acc_bounds(
    s: Seq<char>,
    delim: char,
    k: nat,
    st: Scan,
    start: nat,
    acc: Seq<(nat, nat)>,
)
    requires
        start <= k <= s.len(),
        ranges_within(acc, s.len()),
    ensures
        ranges_within(split_acc(s, delim, k, st, start, acc), s.len()),
        split_acc(s, delim, k, st, start, acc).len() > acc.len(),
    decreases s.len() - k,
{
    if k < s.len() {
        let (st2, d) = scan_step(st, s[k as int], delim);
        if d {
            let acc2 = acc.push((start, k));
            assert(ranges_within(acc2, s.len())) by {
                assert forall|i: int| 0 <= i < acc2.len() implies (#[trigger] acc2[i]).0 <= acc2[i].1
                    <= s.len() by {
                    if i < acc.len() {
                        assert(acc2[i] == acc[i]);
                    }
                }
            }
            lemma_split_acc_bounds(s, delim, k + 1, st2, k + 1, acc2);
        } else {
            lemma_split_acc_bounds(s, delim, k + 1, st2, start, acc);
        }
    } else {
        let acc2 = acc.push((start, s.len()));
        assert forall|i: int| 0 <= i < acc2.len() implies (#[trigger] acc2[i]).0 <= acc2[i].1
            <= s.len() by {
            if i < acc.len() {
                assert(acc2[i] == acc[i]);
            }
        }
    }
}

pub proof fn lemma_split_bounds(s: Seq<char>, delim: char)
    ensures
        ranges_within(split_ranges(s, delim), s.len()),
        split_pieces(s, delim).len() == split_ranges(s, delim).len(),
        forall|i: int|
            0 <= i < split_pieces(s, delim).len() ==> (#[trigger] split_pieces(s, delim)[i]).len()
                <= s.len(),
{
    lemma_split_acc_bounds(s, delim, 0, scan_init(), 0, seq![]);
    let r = split_ranges(s, delim);
    assert forall|i: int| 0 <= i < split_pieces(s, delim).len() implies (#[trigger] split_pieces(
        s,
        delim,
    )[i]).len() <= s.len() by {
        assert(r[i].0 <= r[i].1 <= s.len());
    }
}

pub proof fn lemma_first_split_bound(s: Seq<char>, delim: char, k: nat, st: Scan)
    ensures
        first_split_from(s, delim, k, st) matches Some(j) ==> k <= j < s.len(),
    decreases s.len() - k,
{
    if k < s.len() {
        let (st2, d) = scan_step(st, s[k as int], delim);
        if !d {
            lemma_first_split_bound(s, delim, k + 1, st2);
        }
    }
}

/// The number of top-level occurrences of `delim` at or after `k`.
pub open spec fn split_count_from(s: Seq<char>, delim: char, k: nat, st: Scan) -> nat
    decreases s.len() - k,
{
    if k >= s.len() {
        0
    } else {
        let (st2, d) = scan_step(st, s[k as int], delim);
        (if d { 1nat } else { 0nat }) + split_count_from(s, delim, k + 1, st2)
    }
}

/// The number of top-level occurrences of `delim` in `s`.
pub open spec fn split_count(s: Seq<char>, delim: char) -> nat {
    split_count_from(s, delim, 0, scan_init())
}

/// The pieces joined back together with `delim` between them.
pub open spec fn join_with(p: Seq<Seq<char>>, delim: char) -> Seq<char>
    decreases p.len(),
{
    if p.len() == 0 {
        Seq::empty()
    } else if p.len() == 1 {
        p[0]
    } else {
        join_with(p.drop_last(), delim) + seq![delim] + p.last()
    }
}

/// The pieces of `s` that the ranges `r` pick out.
pub open spec fn pieces_of(s: Seq<char>, r: Seq<(nat, nat)>) -> Seq<Seq<char>> {
    Seq::new(r.len(), |i: int| s.subrange(r[i].0 as int, r[i].1 as int))
}

proof fn lemma_split_acc_join(s: Seq<char>, delim: char, k: nat, st: Scan, start: nat, acc: Seq<(nat, nat)>)
    requires
        start <= k <= s.len(),
        acc.len() == 0 ==> start == 0,
        acc.len() > 0 ==> join_with(pieces_of(s, acc), delim) + seq![delim] == s.subrange(0, start as int),
    ensures
        join_with(pieces_of(s, split_acc(s, delim, k, st, start, acc)), delim) == s,
        split_acc(s, delim, k, st, start, acc).len() == acc.len() + 1 + split_count_from(s, delim, k, st),
        split_acc(s, delim, k, st, start, acc)[acc.len() as int] == (match first_split_from(s, delim, k, st) {
            Some(j) => (start, j),
            None => (start, s.len()),
        }),
        forall|i: int| 0 <= i < acc.len() ==> split_acc(s, delim, k, st, start, acc)[i] == acc[i],
    decreases s.len() - k,
{
    if k < s.len() {
        let (st2, d) = scan_step(st, s[k as int], delim);
        if d {
            assert(s[k as int] == delim);
            let acc2 = acc.push((start, k));
            assert(pieces_of(s, acc2) =~= pieces_of(s, acc).push(s.subrange(start as int, k as int)));
            if acc.len() == 0 {
                assert(pieces_of(s, acc2) =~= seq![s.subrange(0, k as int)]);
            } else {
                let p2 = pieces_of(s, acc2);
                assert(p2.drop_last() =~= pieces_of(s, acc));
                assert(s.subrange(0, k as int) =~= s.subrange(0, start as int) + s.subrange(start as int, k as int));
            }
            assert(join_with(pieces_of(s, acc2), delim) == s.subrange(0, k as int));
            assert(s.subrange(0, k as int) + seq![delim] =~= s.subrange(0, k + 1 as int));
            lemma_split_acc_join(s, delim, k + 1, st2, k + 1, acc2);
            let out = split_acc(s, delim, k + 1, st2, k + 1, acc2);
            assert(out[acc.len() as int] == acc2[acc.len() as int]);
            assert forall|i: int| 0 <= i < acc.len() implies out[i] == acc[i] by {
                assert(out[i] == acc2[i]);
            }
        } else {
            lemma_split_acc_join(s, delim, k + 1, st2, start, acc);
        }
    } else {
        let acc2 = acc.push((start, s.len()));
        assert forall|i: int| 0 <= i < acc.len() implies acc2[i] == acc[i] by {}
        assert(pieces_of(s, acc2) =~= pieces_of(s, acc).push(s.subrange(start as int, s.len() as int)));
        if acc.len() == 0 {
            assert(pieces_of(s, acc2) =~= seq![s.subrange(0, s.len() as int)]);
            assert(s.subrange(0, s.len() as int) =~= s);
        } else {
            let p2 = pieces_of(s, acc2);
            assert(p2.drop_last() =~= pieces_of(s, acc));
            assert(s =~= s.subrange(0, start as int) + s.subrange(start as int, s.len() as int));
        }
    }
}

proof fn lemma_first_split_delim(s: Seq<char>, delim: char, k: nat, st: Scan)
    ensures
        first_split_from(s, delim, k, st) matches Some(j) ==> k <= j < s.len() && s[j as int] == delim,
        first_split_from(s, delim, k, st) is None <==> split_count_from(s, delim, k, st) == 0,
    decreases s.len() - k,
{
    if k < s.len() {
        let (st2, d) = scan_step(st, s[k as int], delim);
        if !d {
            lemma_first_split_delim(s, delim, k + 1, st2);
        }
    }
}

/// The literals `None` and `null` read as JSON null, and `True` / `False`
/// as the booleans, whatever whitespace surrounds them.
pub proof fn law_lfm_literals(s: Seq<char>)
    ensures
        trim(s) == seq!['N', 'o', 'n', 'e'] ==> lfm_value(s) == Ok::<Json, Seq<char>>(Json::Null),
        trim(s) == seq!['n', 'u', 'l', 'l'] ==> lfm_value(s) == Ok::<Json, Seq<char>>(Json::Null),
        trim(s) == seq!['T', 'r', 'u', 'e'] ==> lfm_value(s) == Ok::<Json, Seq<char>>(Json::Bool(true)),
        trim(s) == seq!['F', 'a', 'l', 's', 'e'] ==> lfm_value(s) == Ok::<Json, Seq<char>>(Json::Bool(false)),
{
    let t = trim(s);
    if t == seq!['N', 'o', 'n', 'e'] || t == seq!['n', 'u', 'l', 'l'] || t == seq!['T', 'r', 'u', 'e'] || t == seq![
        'F',
        'a',
        'l',
        's',
        'e',
    ] {
        assert(!wrapped(t, '\'', '\''));
        assert(t[0] != '\'' && t[0] != '"');
        assert(!wrapped(t, '"', '"'));
    }
}

/// Splitting at top level and joining the pieces back with the delimiter
/// gives the text again, and there is one more piece than there are
/// top-level delimiters (empty pieces at the edges included).
pub proof fn law_split_join(s: Seq<char>, delim: char)
    ensures
        join_with(split_pieces(s, delim), delim) == s,
        split_pieces(s, delim).len() == 1 + split_count(s, delim),
{
    lemma_split_acc_join(s, delim, 0, scan_init(), 0, seq![]);
    assert(split_pieces(s, delim) =~= pieces_of(s, split_ranges(s, delim)));
}

/// The first top-level delimiter ends the first piece: there is none
/// exactly when the text is one piece, and where there is one it is the
/// delimiter character and the first piece is the text before it.
pub proof fn law_first_split(s: Seq<char>, delim: char)
    ensures
        first_split(s, delim) is None <==> split_pieces(s, delim).len() == 1,
        first_split(s, delim) matches Some(i) ==> i < s.len() && s[i as int] == delim
            && split_pieces(s, delim)[0] == s.take(i as int),
{
    lemma_split_acc_join(s, delim, 0, scan_init(), 0, seq![]);
    lemma_first_split_delim(s, delim, 0, scan_init());
    let r = split_ranges(s, delim);
    assert(split_pieces(s, delim)[0] == s.subrange(r[0].0 as int, r[0].1 as int));
    if let Some(i) = first_split(s, delim) {
        assert(s.subrange(0, i as int) =~= s.take(i as int));
    }
}

pub proof fn lemma_ltrim_len(s: Seq<char>)
    ensures
        ltrim(s).len() <= s.len(),
        ltrim(s) == s.skip(s.len() - ltrim(s).len()),
    decreases s.len(),
{
    if s.len() > 0 && is_ws(s[0]) {
        lemma_ltrim_len(s.drop_first());
        assert(s.drop_first().skip(s.drop_first().len() - ltrim(s.drop_first()).len()) =~= s.skip(
            s.len() - ltrim(s).len(),
        ));
    } else {
        assert(s.skip(0) =~= s);
    }
}

pub proof fn lemma_rtrim_len(s: Seq<char>)
    ensures
        rtrim(s).len() <= s.len(),
        rtrim(s) == s.take(rtrim(s).len() as int),
    decreases s.len(),
{
    if s.len() > 0 && is_ws(s.last()) {
        lemma_rtrim_len(s.drop_last());
        assert(s.drop_last().take(rtrim(s.drop_last()).len() as int) =~= s.take(
            rtrim(s).len() as int,
        ));
    } else {
        assert(s.take(s.len() as int) =~= s);
    }
}

pub proof fn lemma_trim_len(s: Seq<char>)
    ensures
        trim(s).len() <= s.len(),
{
    lemma_ltrim_len(s);
    lemma_rtrim_len(ltrim(s));
}

// ── Messages ────────────────────────────────────────────────────────────────

pub open spec fn msg_unterminated_sq() -> Seq<char> {
    "LFM: unterminated single-quoted string"@
}

pub open spec fn msg_unterminated_dq() -> Seq<char> {
    "LFM: unterminated double-quoted string"@
}

pub open spec fn msg_unterminated_list() -> Seq<char> {
    "LFM: unterminated list literal"@
}

pub open spec fn msg_unterminated_object() -> Seq<char> {
    "LFM: unterminated object literal"@
}

pub open spec fn msg_nonfinite(t: Seq<char>) -> Seq<char> {
    "LFM: non-finite float in argument: "@ + debug_text(t)
}

pub open spec fn msg_entry_no_colon(e: Seq<char>) -> Seq<char> {
    "LFM: object entry without ':': "@ + debug_text(e)
}

pub open spec fn msg_dup_key(k: Seq<char>) -> Seq<char> {
    "LFM: duplicate object key: "@ + k
}

pub open spec fn msg_key_not_string(raw: Seq<char>) -> Seq<char> {
    "LFM: object key must be a string: "@ + debug_text(raw)
}

pub open spec fn msg_kwarg_no_eq(p: Seq<char>) -> Seq<char> {
    "LFM: kwarg without '=': "@ + debug_text(p)
}

pub open spec fn msg_empty_kwarg() -> Seq<char> {
    "LFM: empty kwarg name"@
}

pub open spec fn msg_dup_kwarg(k: Seq<char>) -> Seq<char> {
    "LFM: duplicate kwarg: "@ + k
}

pub open spec fn msg_invalid(kind: Seq<char>, v: Seq<char>) -> Seq<char> {
    "invalid "@ + kind + ": "@ + debug_text(v)
}

pub open spec fn msg_expected_paren(expr: Seq<char>) -> Seq<char> {
    "LFM: expected '(' in call: "@ + debug_text(expr)
}

pub open spec fn msg_empty_tool_name() -> Seq<char> {
    "LFM: empty tool name in call expression"@
}

pub open spec fn msg_missing_close(expr: Seq<char>) -> Seq<char> {
    "LFM: missing closing ')' in: "@ + debug_text(expr)
}

pub open spec fn msg_trailing(t: Seq<char>) -> Seq<char> {
    "LFM: trailing content after call expression: "@ + debug_text(t)
}

pub open spec fn msg_unclosed() -> Seq<char> {
    "LFM: unclosed <|tool_call_start|> marker"@
}

// ── Numbers ─────────────────────────────────────────────────────────────────

pub open spec fn is_digit(c: char) -> bool {
    '0' <= c && c <= '9'
}

pub open spec fn digit_value(c: char) -> nat {
    ((c as u32) - ('0' as u32)) as nat
}

/// The value of a string of decimal digits.
pub open spec fn digits_value(d: Seq<char>) -> nat
    decreases d.len(),
{
    if d.len() == 0 {
        0
    } else {
        digits_value(d.drop_last()) * 10 + digit_value(d.last())
    }
}

pub open spec fn all_digits(d: Seq<char>) -> bool {
    forall|i: int| 0 <= i < d.len() ==> is_digit(#[trigger] d[i])
}

/// `i64`'s `FromStr`: an optional sign, then at least one digit, in range.
pub open spec fn parse_i64(t: Seq<char>) -> Option<int> {
    let neg = t.len() > 0 && t[0] == '-';
    let signed = t.len() > 0 && (t[0] == '-' || t[0] == '+');
    let d = if signed { t.drop_first() } else { t };
    if d.len() == 0 || !all_digits(d) {
        None
    } else {
        let n = if neg { -(digits_value(d) as int) } else { digits_value(d) as int };
        if i64::MIN <= n <= i64::MAX {
            Some(n)
        } else {
            None
        }
    }
}

/// Number of consecutive digits in `s` from `i`.
pub open spec fn digit_run(s: Seq<char>, i: nat) -> nat
    decreases s.len() - i,
{
    if i < s.len() && is_digit(s[i as int]) {
        1 + digit_run(s, i + 1)
    } else {
        0
    }
}

/// Leading zeros removed from a digit string, keeping at least one digit.
pub open spec fn strip_zeros(d: Seq<char>) -> Seq<char>
    decreases d.len(),
{
    if d.len() == 0 {
        seq!['0']
    } else if d.len() > 1 && d[0] == '0' {
        strip_zeros(d.drop_first())
    } else {
        d
    }
}

pub open spec fn lower(c: char) -> char {
    if 'A' <= c && c <= 'Z' {
        ((c as u32) + 32) as char
    } else {
        c
    }
}

pub open spec fn eq_ignore_case(s: Seq<char>, w: Seq<char>) -> bool {
    s.len() == w.len() && forall|i: int| 0 <= i < s.len() ==> lower(#[trigger] s[i]) == w[i]
}

/// How `f64`'s `FromStr` classifies a text.
pub enum FloatClass {
    /// Not a float literal.
    NotFloat,
    /// An infinity or NaN literal.
    NonFinite,
    /// A finite literal, with the equivalent JSON number literal.
    Finite(Seq<char>),
}

/// Classifies `t` by the grammar of `f64`'s `FromStr`:
/// `[+-]? (inf | infinity | nan | Number)`, case-insensitive words, where
/// `Number ::= (Digit+ | Digit+ '.' Digit* | Digit* '.' Digit+) ([eE] [+-]? Digit+)?`.
/// A finite literal is rewritten as a JSON number with a fraction, which
/// denotes the same decimal value.
pub open spec fn float_class(t: Seq<char>) -> FloatClass {
    let neg = t.len() > 0 && t[0] == '-';
    let signed = t.len() > 0 && (t[0] == '-' || t[0] == '+');
    let b = if signed { t.drop_first() } else { t };
    if nonfinite_word(b) {
        FloatClass::NonFinite
    } else {
        float_number(b, neg)
    }
}

/// `inf`, `infinity` or `nan`, in any case.
pub open spec fn nonfinite_word(b: Seq<char>) -> bool {
    eq_ignore_case(b, seq!['i', 'n', 'f']) || eq_ignore_case(
        b,
        seq!['i', 'n', 'f', 'i', 'n', 'i', 't', 'y'],
    ) || eq_ignore_case(b, seq!['n', 'a', 'n'])
}

/// The JSON mantissa: sign, integer digits without leading zeros, and a
/// fraction (`0` when the literal has none).
pub open spec fn float_mantissa(b: Seq<char>, neg: bool, n1: nat, n2: nat) -> Seq<char> {
    (if neg { seq!['-'] } else { seq![] }) + strip_zeros(b.take(n1 as int)) + seq!['.'] + (if n2 > 0 {
        b.subrange((n1 + 1) as int, (n1 + 1 + n2) as int)
    } else {
        seq!['0']
    })
}

/// The `Number` production on an unsigned body `b`.
pub open spec fn float_number(b: Seq<char>, neg: bool) -> FloatClass {
    let n1 = digit_run(b, 0);
    let has_dot = n1 < b.len() && b[n1 as int] == '.';
    let n2 = if has_dot { digit_run(b, n1 + 1) } else { 0 };
    let j = if has_dot { n1 + 1 + n2 } else { n1 };
    if n1 + n2 == 0 {
        FloatClass::NotFloat
    } else if j == b.len() {
        FloatClass::Finite(float_mantissa(b, neg, n1, n2))
    } else {
        float_exponent(b, j, float_mantissa(b, neg, n1, n2))
    }
}

/// The optional exponent from position `j` of `b`, after mantissa `m`.
pub open spec fn float_exponent(b: Seq<char>, j: nat, m: Seq<char>) -> FloatClass {
    if j < b.len() && (b[j as int] == 'e' || b[j as int] == 'E') {
        let k = j + 1;
        let k2 = if k < b.len() && (b[k as int] == '+' || b[k as int] == '-') { k + 1 } else { k };
        let n3 = digit_run(b, k2);
        if n3 > 0 && k2 + n3 == b.len() {
            FloatClass::Finite(m + seq!['e'] + b.skip(k as int))
        } else {
            FloatClass::NotFloat
        }
    } else {
        FloatClass::NotFloat
    }
}

// ── Values ──────────────────────────────────────────────────────────────────

/// `str::strip_prefix(open)` then `strip_suffix(close)` succeeds.
pub open spec fn wrapped(t: Seq<char>, open: char, close: char) -> bool {
    t.len() >= 2 && t[0] == open && t.last() == close
}

pub open spec fn inner(t: Seq<char>) -> Seq<char> {
    t.subrange(1, t.len() - 1)
}

/// The escapes `\'` and `\"` undone, in that order.
pub open spec fn unquote(t: Seq<char>) -> Seq<char> {
    unescape_pair(unescape_pair(inner(t), '\\', '\''), '\\', '"')
}

/// A Python literal token as a JSON value: quoted strings, `True` / `False`,
/// `None` / `null`, lists, dicts, integers, floats, and otherwise the bare
/// text as a string.
pub open spec fn lfm_value(s: Seq<char>) -> Result<Json, Seq<char>>
    decreases s.len(), 1nat, 0nat,
{
    let t = trim(s);
    if t.len() == 0 {
        Ok(Json::Str(seq![]))
    } else if wrapped(t, '\'', '\'') {
        Ok(Json::Str(unquote(t)))
    } else if t[0] == '\'' {
        Err(msg_unterminated_sq())
    } else if wrapped(t, '"', '"') {
        Ok(Json::Str(unquote(t)))
    } else if t[0] == '"' {
        Err(msg_unterminated_dq())
    } else if t == seq!['T', 'r', 'u', 'e'] {
        Ok(Json::Bool(true))
    } else if t == seq!['F', 'a', 'l', 's', 'e'] {
        Ok(Json::Bool(false))
    } else if t == seq!['N', 'o', 'n', 'e'] || t == seq!['n', 'u', 'l', 'l'] {
        Ok(Json::Null)
    } else if wrapped(t, '[', ']') {
        let body = trim(inner(t));
        proof {
            lemma_trim_len(s);
            lemma_trim_len(inner(t));
        }
        if body.len() == 0 {
            Ok(Json::Arr(seq![]))
        } else {
            lfm_items(split_pieces(body, ','), 0, s.len(), seq![])
        }
    } else if t[0] == '[' {
        Err(msg_unterminated_list())
    } else if wrapped(t, '{', '}') {
        let body = trim(inner(t));
        proof {
            lemma_trim_len(s);
            lemma_trim_len(inner(t));
        }
        if body.len() == 0 {
            Ok(Json::Obj(seq![]))
        } else {
            lfm_entries(split_pieces(body, ','), 0, s.len(), seq![])
        }
    } else if t[0] == '{' {
        Err(msg_unterminated_object())
    } else if parse_i64(t) is Some {
        Ok(Json::Num(int_number(parse_i64(t)->0)))
    } else {
        match float_class(t) {
            FloatClass::Finite(lit) => match number_text(lit) {
                Some(x) => Ok(Json::Num(JsonNum::Float(x))),
                None => Err(msg_nonfinite(t)),
            },
            FloatClass::NonFinite => Err(msg_nonfinite(t)),
            FloatClass::NotFloat => Ok(Json::Str(t)),
        }
    }
}

/// The non-blank pieces of a list body parsed as values, from piece `i`.
pub open spec fn lfm_items(pieces: Seq<Seq<char>>, i: nat, bound: nat, acc: Seq<Json>) -> Result<
    Json,
    Seq<char>,
>
    decreases bound, 0nat, pieces.len() - i,
{
    if i >= pieces.len() {
        Ok(Json::Arr(acc))
    } else if trim(pieces[i as int]).len() == 0 {
        lfm_items(pieces, i + 1, bound, acc)
    } else if pieces[i as int].len() < bound {
        proof {
            lemma_trim_len(pieces[i as int]);
        }
        match lfm_value(trim(pieces[i as int])) {
            Ok(v) => lfm_items(pieces, i + 1, bound, acc.push(v)),
            Err(m) => Err(m),
        }
    } else {
        Err(seq![])
    }
}

/// The non-blank `key: value` pieces of a dict body, from piece `i`.
pub open spec fn lfm_entries(
    pieces: Seq<Seq<char>>,
    i: nat,
    bound: nat,
    acc: Seq<(Seq<char>, Json)>,
) -> Result<Json, Seq<char>>
    decreases bound, 0nat, pieces.len() - i,
{
    if i >= pieces.len() {
        Ok(Json::Obj(acc))
    } else {
        let e = trim(pieces[i as int]);
        if e.len() == 0 {
            lfm_entries(pieces, i + 1, bound, acc)
        } else if pieces[i as int].len() < bound {
            proof {
                lemma_trim_len(pieces[i as int]);
                lemma_first_split_bound(e, ':', 0, scan_init());
            }
            match first_split(e, ':') {
                None => Err(msg_entry_no_colon(e)),
                Some(k) => {
                    let key_raw = trim(e.take(k as int));
                    let val_raw = trim(e.skip((k + 1) as int));
                    proof {
                        lemma_trim_len(e.take(k as int));
                        lemma_trim_len(e.skip((k + 1) as int));
                    }
                    match lfm_value(key_raw) {
                        Err(m) => Err(m),
                        Ok(Json::Str(key)) => if obj_lookup(acc, key) is Some {
                            Err(msg_dup_key(key))
                        } else {
                            match lfm_value(val_raw) {
                                Err(m) => Err(m),
                                Ok(v) => lfm_entries(pieces, i + 1, bound, obj_insert(acc, key, v)),
                            }
                        },
                        Ok(_) => Err(msg_key_not_string(key_raw)),
                    }
                },
            }
        } else {
            Err(seq![])
        }
    }
}

// ── Calls ───────────────────────────────────────────────────────────────────

pub open spec fn ident_char(c: char) -> bool {
    ('a' <= c && c <= 'z') || ('A' <= c && c <= 'Z') || ('0' <= c && c <= '9') || c == '_' || c
        == '-' || c == '.'
}

/// Every character is ASCII alphanumeric, `_`, `-` or `.`.
pub open spec fn ident_ok(v: Seq<char>) -> bool {
    forall|i: int| 0 <= i < v.len() ==> ident_char(#[trigger] v[i])
}

/// The non-blank `key=value` pieces of a call's argument list, from piece `i`.
pub open spec fn lfm_kwarg_pairs(pieces: Seq<Seq<char>>, i: nat, acc: Seq<(Seq<char>, Json)>) -> Result<
    Json,
    Seq<char>,
>
    decreases pieces.len() - i,
{
    if i >= pieces.len() {
        Ok(Json::Obj(acc))
    } else {
        let p = trim(pieces[i as int]);
        if p.len() == 0 {
            lfm_kwarg_pairs(pieces, i + 1, acc)
        } else {
            match first_index(p, '=') {
                None => Err(msg_kwarg_no_eq(p)),
                Some(k) => {
                    let key = trim(p.take(k as int));
                    if key.len() == 0 {
                        Err(msg_empty_kwarg())
                    } else if !ident_ok(key) {
                        Err(msg_invalid("kwarg name"@, key))
                    } else if obj_lookup(acc, key) is Some {
                        Err(msg_dup_kwarg(key))
                    } else {
                        match lfm_value(trim(p.skip((k + 1) as int))) {
                            Err(m) => Err(m),
                            Ok(v) => lfm_kwarg_pairs(pieces, i + 1, obj_insert(acc, key, v)),
                        }
                    }
                },
            }
        }
    }
}

/// A call's argument list as a JSON object.
pub open spec fn lfm_kwargs(s: Seq<char>) -> Result<Json, Seq<char>> {
    let t = trim(s);
    if t.len() == 0 {
        Ok(Json::Obj(seq![]))
    } else {
        lfm_kwarg_pairs(split_pieces(t, ','), 0, seq![])
    }
}

/// One `name(k=v, ...)` call: its name and arguments.
pub open spec fn lfm_call(expr: Seq<char>) -> Result<(Seq<char>, Json), Seq<char>> {
    match first_index(expr, '(') {
        None => Err(msg_expected_paren(expr)),
        Some(k) => {
            let name = trim(expr.take(k as int));
            let rest = expr.skip((k + 1) as int);
            if name.len() == 0 {
                Err(msg_empty_tool_name())
            } else if !ident_ok(name) {
                Err(msg_invalid("tool name"@, name))
            } else {
                match last_index(rest, ')') {
                    None => Err(msg_missing_close(expr)),
                    Some(j) => {
                        let trailing = rest.skip((j + 1) as int);
                        if trim(trailing).len() > 0 {
                            Err(msg_trailing(trailing))
                        } else {
                            match lfm_kwargs(rest.take(j as int)) {
                                Err(m) => Err(m),
                                Ok(args) => Ok((name, args)),
                            }
                        }
                    },
                }
            }
        },
    }
}

/// The non-blank call pieces of a block, from piece `i`.
pub open spec fn lfm_calls(pieces: Seq<Seq<char>>, i: nat, acc: Seq<(Seq<char>, Json)>) -> Result<
    Seq<(Seq<char>, Json)>,
    Seq<char>,
>
    decreases pieces.len() - i,
{
    if i >= pieces.len() {
        Ok(acc)
    } else if trim(pieces[i as int]).len() == 0 {
        lfm_calls(pieces, i + 1, acc)
    } else {
        match lfm_call(trim(pieces[i as int])) {
            Err(m) => Err(m),
            Ok(c) => lfm_calls(pieces, i + 1, acc.push(c)),
        }
    }
}

/// The body of one marker block: `[call, ...]`, brackets optional.
pub open spec fn lfm_block(block: Seq<char>) -> Result<Seq<(Seq<char>, Json)>, Seq<char>> {
    let t = trim(block);
    let body = if wrapped(t, '[', ']') { inner(t) } else { t };
    lfm_calls(split_pieces(body, ','), 0, seq![])
}

pub open spec fn lfm_start() -> Seq<char> {
    "<|tool_call_start|>"@
}

pub open spec fn lfm_end() -> Seq<char> {
    "<|tool_call_end|>"@
}

/// All marker blocks of `rem`, in order, appended to `acc`.
pub open spec fn lfm_normalize_from(rem: Seq<char>, acc: Seq<(Seq<char>, Json)>) -> Result<
    Seq<(Seq<char>, Json)>,
    Seq<char>,
>
    decreases rem.len(),
{
    match find_spec(rem, lfm_start()) {
        None => Ok(acc),
        Some(b) => {
            let after = rem.skip((b + lfm_start().len()) as int);
            match find_spec(after, lfm_end()) {
                None => Err(msg_unclosed()),
                Some(e) => {
                    let rest = after.skip((e + lfm_end().len()) as int);
                    match lfm_block(after.take(e as int)) {
                        Err(m) => Err(m),
                        Ok(calls) => if rest.len() < rem.len() {
                            lfm_normalize_from(rest, acc + calls)
                        } else {
                            Ok(acc + calls)
                        },
                    }
                },
            }
        },
    }
}

/// The tool calls of a model output, in order.
pub open spec fn lfm_normalize(raw: Seq<char>) -> Result<Seq<(Seq<char>, Json)>, Seq<char>> {
    lfm_normalize_from(raw, seq![])
}

// ── Executable parsers ──────────────────────────────────────────────────────

/// Executable scanner state.
pub struct ScanExec {
    pub depth: usize,
    pub in_sq: bool,
    pub in_dq: bool,
    pub esc: bool,
}

impl View for ScanExec {
    type V = Scan;

    open spec fn view(&self) -> Scan {
        Scan { depth: self.depth as nat, in_sq: self.in_sq, in_dq: self.in_dq, esc: self.esc }
    }
}

fn scan_new() -> (r: ScanExec)
    ensures
        r@ == scan_init(),
{
    ScanExec { depth: 0, in_sq: false, in_dq: false, esc: false }
}

fn scan_step_exec(st: &mut ScanExec, c: char, delim: char) -> (d: bool)
    requires
        old(st).depth < usize::MAX,
    ensures
        (final(st)@, d) == scan_step(old(st)@, c, delim),
        final(st).depth <= old(st).depth + 1,
{
    if st.esc {
        st.esc = false;
        false
    } else if c == '\\' && (st.in_sq || st.in_dq) {
        st.esc = true;
        false
    } else if st.in_sq {
        if c == '\'' {
            st.in_sq = false;
        }
        false
    } else if st.in_dq {
        if c == '"' {
            st.in_dq = false;
        }
        false
    } else if c == '\'' {
        st.in_sq = true;
        false
    } else if c == '"' {
        st.in_dq = true;
        false
    } else if c == '(' || c == '[' || c == '{' {
        st.depth = st.depth + 1;
        false
    } else if c == ')' || c == ']' || c == '}' {
        if st.depth > 0 {
            st.depth = st.depth - 1;
        }
        false
    } else if c == delim && st.depth == 0 {
        true
    } else {
        false
    }
}

/// Absolute ranges `v[a..b]` matching the spec ranges of `v[lo..hi]`.
pub open spec fn ranges_match(out: Seq<(usize, usize)>, spec_r: Seq<(nat, nat)>, lo: nat) -> bool {
    &&& out.len() == spec_r.len()
    &&& forall|i: int|
        0 <= i < out.len() ==> (#[trigger] out[i]).0 == lo + spec_r[i].0 && out[i].1 == lo
            + spec_r[i].1
}

/// The top-level pieces of `v[lo..hi]` split at `delim`, as absolute ranges.
pub fn split_ranges_in(v: &[char], lo: usize, hi: usize, delim: char) -> (out: Vec<(usize, usize)>)
    requires
        lo <= hi <= v@.len(),
    ensures
        ranges_match(out@, split_ranges(v@.subrange(lo as int, hi as int), delim), lo as nat),
        forall|i: int| 0 <= i < out@.len() ==> lo <= (#[trigger] out@[i]).0 <= out@[i].1 <= hi,
        forall|i: int|
            0 <= i < out@.len() ==> v@.subrange((#[trigger] out@[i]).0 as int, out@[i].1 as int)
                == split_pieces(v@.subrange(lo as int, hi as int), delim)[i],
{
    let ghost s = v@.subrange(lo as int, hi as int);
    let mut st = scan_new();
    let mut start = lo;
    let mut out: Vec<(usize, usize)> = Vec::new();
    let ghost mut acc: Seq<(nat, nat)> = seq![];
    let mut k = lo;
    while k < hi
        invariant
            lo <= start <= k <= hi <= v@.len(),
            s == v@.subrange(lo as int, hi as int),
            st.depth <= k - lo,
            split_ranges(s, delim) == split_acc(
                s,
                delim,
                (k - lo) as nat,
                st@,
                (start - lo) as nat,
                acc,
            ),
            ranges_match(out@, acc, lo as nat),
            forall|i: int| 0 <= i < out@.len() ==> lo <= (#[trigger] out@[i]).0 <= out@[i].1 <= k,
        decreases hi - k,
    {
        let c = v[k];
        assert(s[(k - lo) as int] == c);
        let d = scan_step_exec(&mut st, c, delim);
        if d {
            out.push((start, k));
            proof {
                acc = acc.push(((start - lo) as nat, (k - lo) as nat));
            }
            start = k + 1;
        }
        k = k + 1;
    }
    out.push((start, hi));
    proof {
        acc = acc.push(((start - lo) as nat, (hi - lo) as nat));
        let r = split_ranges(s, delim);
        assert(r == acc);
        lemma_split_bounds(s, delim);
        assert forall|i: int|
            0 <= i < out@.len() implies v@.subrange((#[trigger] out@[i]).0 as int, out@[i].1 as int)
            == split_pieces(s, delim)[i] by {
            assert(v@.subrange(out@[i].0 as int, out@[i].1 as int) =~= s.subrange(
                r[i].0 as int,
                r[i].1 as int,
            ));
        }
    }
    out
}

/// The first top-level occurrence of `delim` in `v[lo..hi]`, relative to `lo`.
pub fn split_index_in(v: &[char], lo: usize, hi: usize, delim: char) -> (r: Option<usize>)
    requires
        lo <= hi <= v@.len(),
    ensures
        match first_split(v@.subrange(lo as int, hi as int), delim) {
            Some(j) => r == Some(j as usize) && lo + j < hi,
            None => r is None,
        },
{
    let ghost s = v@.subrange(lo as int, hi as int);
    let mut st = scan_new();
    let mut k = lo;
    while k < hi
        invariant
            lo <= k <= hi <= v@.len(),
            s == v@.subrange(lo as int, hi as int),
            st.depth <= k - lo,
            first_split(s, delim) == first_split_from(s, delim, (k - lo) as nat, st@),
        decreases hi - k,
    {
        let c = v[k];
        assert(s[(k - lo) as int] == c);
        if scan_step_exec(&mut st, c, delim) {
            return Some(k - lo);
        }
        k = k + 1;
    }
    None
}

/// Splits `s` at top-level occurrences of `delim` (outside brackets,
/// parentheses, braces and quotes), keeping empty pieces at the edges.
pub fn split_top_level(s: &str, delim: char) -> (r: Vec<String>)
    ensures
        r@.len() == split_pieces(s@, delim).len(),
        forall|i: int| 0 <= i < r@.len() ==> (#[trigger] r@[i])@ == split_pieces(s@, delim)[i],
{
    let v = crate::text::chars_of(s);
    let ranges = split_ranges_in(v.as_slice(), 0, v.len(), delim);
    assert(v@.subrange(0, v@.len() as int) =~= s@);
    let mut out: Vec<String> = Vec::new();
    let mut i: usize = 0;
    while i < ranges.len()
        invariant
            i <= ranges@.len(),
            out@.len() == i,
            v@ == s@,
            v@.subrange(0, v@.len() as int) == s@,
            ranges@.len() == split_pieces(s@, delim).len(),
            forall|j: int| 0 <= j < ranges@.len() ==> 0 <= (#[trigger] ranges@[j]).0 <= ranges@[j].1 <= v@.len(),
            forall|j: int|
                0 <= j < ranges@.len() ==> v@.subrange((#[trigger] ranges@[j]).0 as int, ranges@[j].1 as int)
                    == split_pieces(s@, delim)[j],
            forall|j: int| 0 <= j < i ==> (#[trigger] out@[j])@ == split_pieces(s@, delim)[j],
        decreases ranges@.len() - i,
    {
        let (a, b) = ranges[i];
        out.push(string_from_chars(v.as_slice(), a, b));
        i = i + 1;
    }
    proof {
        lemma_split_bounds(s@, delim);
    }
    out
}

proof fn lemma_digits_take(d: Seq<char>, i: int)
    requires
        0 <= i < d.len(),
    ensures
        digits_value(d.take(i + 1)) == digits_value(d.take(i)) * 10 + digit_value(d[i]),
{
    assert(d.take(i + 1).drop_last() =~= d.take(i));
}

proof fn lemma_digits_mono(d: Seq<char>, i: int)
    requires
        0 <= i <= d.len(),
    ensures
        digits_value(d.take(i)) <= digits_value(d),
    decreases d.len() - i,
{
    if i < d.len() {
        lemma_digits_take(d, i);
        lemma_digits_mono(d, i + 1);
    } else {
        assert(d.take(i) =~= d);
    }
}

/// `i64`'s `FromStr` on `v[lo..hi]`.
pub fn parse_i64_in(v: &[char], lo: usize, hi: usize) -> (r: Option<i64>)
    requires
        lo <= hi <= v@.len(),
    ensures
        match parse_i64(v@.subrange(lo as int, hi as int)) {
            Some(n) => r == Some(n as i64),
            None => r is None,
        },
{
    let ghost t = v@.subrange(lo as int, hi as int);
    let neg = lo < hi && v[lo] == '-';
    let signed = lo < hi && (v[lo] == '-' || v[lo] == '+');
    let a = if signed { lo + 1 } else { lo };
    let ghost d = v@.subrange(a as int, hi as int);
    proof {
        if lo < hi {
            assert(t[0] == v@[lo as int]);
        }
        if signed {
            assert(t.drop_first() =~= d);
        } else {
            assert(t =~= d);
        }
    }
    if a == hi {
        return None;
    }
    let limit: u64 = if neg { 0x8000_0000_0000_0000u64 } else { 0x7fff_ffff_ffff_ffffu64 };
    let mut acc: u64 = 0;
    let mut over = false;
    let mut k = a;
    assert(d.take(0) =~= Seq::<char>::empty());
    while k < hi
        invariant
            lo <= a <= k <= hi <= v@.len(),
            d == v@.subrange(a as int, hi as int),
            forall|j: int| 0 <= j < k - a ==> is_digit(#[trigger] d[j]),
            !over ==> acc as nat == digits_value(d.take((k - a) as int)),
            over ==> digits_value(d.take((k - a) as int)) > limit,
            acc <= limit,
            limit == (if neg { 0x8000_0000_0000_0000u64 } else { 0x7fff_ffff_ffff_ffffu64 }),
            d == (if t.len() > 0 && (t[0] == '-' || t[0] == '+') { t.drop_first() } else { t }),
            neg == (t.len() > 0 && t[0] == '-'),
            t == v@.subrange(lo as int, hi as int),
        decreases hi - k,
    {
        let c = v[k];
        assert(d[(k - a) as int] == c);
        if !('0' <= c && c <= '9') {
            assert(!is_digit(d[(k - a) as int]));
            assert(!all_digits(d));
            return None;
        }
        assert((c as u32) - ('0' as u32) <= 9);
        proof {
            lemma_digits_take(d, (k - a) as int);
        }
        let dig = ((c as u32) - ('0' as u32)) as u64;
        if !over {
            if acc <= (limit - dig) / 10 {
                assert(acc * 10 + dig <= limit) by (nonlinear_arith)
                    requires
                        acc <= (limit - dig) / 10,
                        dig <= 9,
                        dig <= limit,
                ;
                acc = acc * 10 + dig;
            } else {
                assert(acc * 10 + dig > limit) by (nonlinear_arith)
                    requires
                        acc > (limit - dig) / 10,
                        dig <= 9,
                        dig <= limit,
                ;
                over = true;
            }
        } else {
            assert(digits_value(d.take((k - a) as int)) * 10 + dig >= digits_value(
                d.take((k - a) as int),
            )) by (nonlinear_arith);
        }
        k = k + 1;
    }
    assert(d.take((k - a) as int) =~= d);
    assert(all_digits(d));
    if over {
        return None;
    }
    if neg {
        if acc == 0x8000_0000_0000_0000u64 {
            Some(i64::MIN)
        } else {
            Some(-(acc as i64))
        }
    } else {
        Some(acc as i64)
    }
}

/// The length of the digit run of `v[lo..hi]` starting at absolute `i`.
fn digit_run_in(v: &[char], lo: usize, hi: usize, i: usize) -> (r: usize)
    requires
        lo <= i <= hi <= v@.len(),
    ensures
        r as nat == digit_run(v@.subrange(lo as int, hi as int), (i - lo) as nat),
        i + r <= hi,
    decreases hi - i,
{
    if i < hi && '0' <= v[i] && v[i] <= '9' {
        assert(v@.subrange(lo as int, hi as int)[(i - lo) as int] == v@[i as int]);
        1 + digit_run_in(v, lo, hi, i + 1)
    } else {
        proof {
            if i < hi {
                assert(v@.subrange(lo as int, hi as int)[(i - lo) as int] == v@[i as int]);
            }
        }
        0
    }
}

fn lower_exec(c: char) -> (r: char)
    ensures
        r == lower(c),
{
    if 'A' <= c && c <= 'Z' {
        ((c as u8) + 32) as char
    } else {
        c
    }
}

fn eq_ignore_case_in(v: &[char], lo: usize, hi: usize, w: &[char]) -> (r: bool)
    requires
        lo <= hi <= v@.len(),
    ensures
        r == eq_ignore_case(v@.subrange(lo as int, hi as int), w@),
{
    let ghost s = v@.subrange(lo as int, hi as int);
    if hi - lo != w.len() {
        return false;
    }
    let mut i: usize = 0;
    while i < w.len()
        invariant
            i <= w@.len(),
            hi - lo == w@.len(),
            lo <= hi <= v@.len(),
            s == v@.subrange(lo as int, hi as int),
            forall|j: int| 0 <= j < i ==> lower(#[trigger] s[j]) == w@[j],
        decreases w@.len() - i,
    {
        assert(s[i as int] == v@[lo + i]);
        if lower_exec(v[lo + i]) != w[i] {
            return false;
        }
        i = i + 1;
    }
    true
}

fn strip_zeros_in(v: &[char], lo: usize, hi: usize) -> (r: Vec<char>)
    requires
        lo <= hi <= v@.len(),
    ensures
        r@ == strip_zeros(v@.subrange(lo as int, hi as int)),
    decreases hi - lo,
{
    if lo == hi {
        let mut r = Vec::new();
        r.push('0');
        assert(r@ =~= seq!['0']);
        r
    } else if hi - lo > 1 && v[lo] == '0' {
        assert(v@.subrange(lo as int, hi as int).drop_first() =~= v@.subrange(lo + 1, hi as int));
        strip_zeros_in(v, lo + 1, hi)
    } else {
        let mut r = Vec::new();
        let mut i = lo;
        while i < hi
            invariant
                lo <= i <= hi <= v@.len(),
                r@ == v@.subrange(lo as int, i as int),
            decreases hi - i,
        {
            r.push(v[i]);
            assert(r@ =~= v@.subrange(lo as int, (i + 1) as int));
            i = i + 1;
        }
        r
    }
}

fn append_range(out: &mut Vec<char>, v: &[char], lo: usize, hi: usize)
    requires
        lo <= hi <= v@.len(),
    ensures
        final(out)@ == old(out)@ + v@.subrange(lo as int, hi as int),
{
    let ghost start = out@;
    let mut i = lo;
    while i < hi
        invariant
            lo <= i <= hi <= v@.len(),
            out@ == start + v@.subrange(lo as int, i as int),
        decreases hi - i,
    {
        out.push(v[i]);
        assert(out@ =~= start + v@.subrange(lo as int, (i + 1) as int));
        i = i + 1;
    }
}

/// Executable counterpart of [`FloatClass`].
pub enum FloatClassExec {
    NotFloat,
    NonFinite,
    Finite(Vec<char>),
}

proof fn lemma_digit_run_bound(s: Seq<char>, i: nat)
    ensures
        i <= s.len() ==> i + digit_run(s, i) <= s.len(),
        digit_run(s, i) > 0 ==> i < s.len(),
    decreases s.len() - i,
{
    if i < s.len() && is_digit(s[i as int]) {
        lemma_digit_run_bound(s, i + 1);
    }
}

/// The JSON mantissa of a float literal whose body is `v[a..hi]`.
fn mantissa_in(v: &[char], a: usize, hi: usize, neg: bool, n1: usize, n2: usize) -> (r: Vec<char>)
    requires
        a <= hi <= v@.len(),
        a + n1 <= hi,
        n2 > 0 ==> a + n1 + 1 + n2 <= hi,
    ensures
        r@ == float_mantissa(v@.subrange(a as int, hi as int), neg, n1 as nat, n2 as nat),
{
    let ghost b = v@.subrange(a as int, hi as int);
    let mut lit: Vec<char> = Vec::new();
    if neg {
        lit.push('-');
    }
    let ghost sign = lit@;
    assert(sign == (if neg { seq!['-'] } else { seq![] }));
    let z = strip_zeros_in(v, a, a + n1);
    let mut k: usize = 0;
    while k < z.len()
        invariant
            k <= z@.len(),
            lit@ == sign + z@.take(k as int),
        decreases z@.len() - k,
    {
        lit.push(z[k]);
        assert(lit@ =~= sign + z@.take((k + 1) as int));
        k = k + 1;
    }
    lit.push('.');
    let ghost before = lit@;
    if n2 > 0 {
        append_range(&mut lit, v, a + n1 + 1, a + n1 + 1 + n2);
        assert(b.subrange((n1 + 1) as int, (n1 + 1 + n2) as int) =~= v@.subrange(
            (a + n1 + 1) as int,
            (a + n1 + 1 + n2) as int,
        ));
    } else {
        lit.push('0');
    }
    proof {
        assert(z@.take(z@.len() as int) =~= z@);
        assert(b.take(n1 as int) =~= v@.subrange(a as int, (a + n1) as int));
        assert(lit@ =~= float_mantissa(b, neg, n1 as nat, n2 as nat));
    }
    lit
}

/// The exponent part of a float literal body `v[a..hi]` from absolute `j`.
fn float_exponent_in(v: &[char], a: usize, hi: usize, j: usize, m: Vec<char>) -> (r: FloatClassExec)
    requires
        a <= j <= hi <= v@.len(),
    ensures
        match float_exponent(v@.subrange(a as int, hi as int), (j - a) as nat, m@) {
            FloatClass::NotFloat => r is NotFloat,
            FloatClass::NonFinite => r is NonFinite,
            FloatClass::Finite(lit) => r matches FloatClassExec::Finite(x) && x@ == lit,
        },
{
    let ghost b = v@.subrange(a as int, hi as int);
    if j < hi && (v[j] == 'e' || v[j] == 'E') {
        assert(b[(j - a) as int] == v@[j as int]);
        let k1 = j + 1;
        let k2 = if k1 < hi && (v[k1] == '+' || v[k1] == '-') { k1 + 1 } else { k1 };
        proof {
            if k1 < hi {
                assert(b[(k1 - a) as int] == v@[k1 as int]);
            }
        }
        let n3 = digit_run_in(v, a, hi, k2);
        if n3 > 0 && k2 + n3 == hi {
            let mut lit = m;
            let ghost before = lit@;
            lit.push('e');
            append_range(&mut lit, v, k1, hi);
            assert(b.skip((k1 - a) as int) =~= v@.subrange(k1 as int, hi as int));
            assert(lit@ =~= before + seq!['e'] + b.skip((k1 - a) as int));
            FloatClassExec::Finite(lit)
        } else {
            FloatClassExec::NotFloat
        }
    } else {
        proof {
            if j < hi {
                assert(b[(j - a) as int] == v@[j as int]);
            }
        }
        FloatClassExec::NotFloat
    }
}

/// The `Number` production on the body `v[a..hi]`.
fn float_number_in(v: &[char], a: usize, hi: usize, neg: bool) -> (r: FloatClassExec)
    requires
        a <= hi <= v@.len(),
    ensures
        match float_number(v@.subrange(a as int, hi as int), neg) {
            FloatClass::NotFloat => r is NotFloat,
            FloatClass::NonFinite => r is NonFinite,
            FloatClass::Finite(lit) => r matches FloatClassExec::Finite(x) && x@ == lit,
        },
{
    let ghost b = v@.subrange(a as int, hi as int);
    let n1 = digit_run_in(v, a, hi, a);
    let i = a + n1;
    let has_dot = i < hi && v[i] == '.';
    proof {
        if i < hi {
            assert(b[n1 as int] == v@[i as int]);
        }
    }
    let n2 = if has_dot { digit_run_in(v, a, hi, i + 1) } else { 0 };
    let j = if has_dot { i + 1 + n2 } else { i };
    if n1 + n2 == 0 {
        return FloatClassExec::NotFloat;
    }
    let lit = mantissa_in(v, a, hi, neg, n1, n2);
    if j == hi {
        FloatClassExec::Finite(lit)
    } else {
        float_exponent_in(v, a, hi, j, lit)
    }
}

/// Classifies `v[lo..hi]` as `f64`'s `FromStr` would.
pub fn float_class_in(v: &[char], lo: usize, hi: usize) -> (r: FloatClassExec)
    requires
        lo <= hi <= v@.len(),
    ensures
        match float_class(v@.subrange(lo as int, hi as int)) {
            FloatClass::NotFloat => r is NotFloat,
            FloatClass::NonFinite => r is NonFinite,
            FloatClass::Finite(lit) => r matches FloatClassExec::Finite(x) && x@ == lit,
        },
{
    let ghost t = v@.subrange(lo as int, hi as int);
    let neg = lo < hi && v[lo] == '-';
    let signed = lo < hi && (v[lo] == '-' || v[lo] == '+');
    let a = if signed { lo + 1 } else { lo };
    let ghost b = v@.subrange(a as int, hi as int);
    proof {
        if lo < hi {
            assert(t[0] == v@[lo as int]);
        }
        if signed {
            assert(t.drop_first() =~= b);
        } else {
            assert(t =~= b);
        }
    }
    let w_inf = ['i', 'n', 'f'];
    let w_infinity = ['i', 'n', 'f', 'i', 'n', 'i', 't', 'y'];
    let w_nan = ['n', 'a', 'n'];
    assert(w_inf@ =~= seq!['i', 'n', 'f']);
    assert(w_infinity@ =~= seq!['i', 'n', 'f', 'i', 'n', 'i', 't', 'y']);
    assert(w_nan@ =~= seq!['n', 'a', 'n']);
    if eq_ignore_case_in(v, a, hi, &w_inf) || eq_ignore_case_in(v, a, hi, &w_infinity)
        || eq_ignore_case_in(v, a, hi, &w_nan) {
        return FloatClassExec::NonFinite;
    }
    float_number_in(v, a, hi, neg)
}

/// `r` is the executable form of the spec result `spec_r`.
pub open spec fn value_result(r: Result<JsonValue, String>, spec_r: Result<Json, Seq<char>>) -> bool {
    match r {
        Ok(x) => spec_r == Ok::<Json, Seq<char>>(x@),
        Err(m) => spec_r == Err::<Json, Seq<char>>(m@),
    }
}

/// `r` is the executable form of the spec call list `spec_r`.
pub open spec fn calls_result(
    r: Result<Vec<(String, JsonValue)>, String>,
    spec_r: Result<Seq<(Seq<char>, Json)>, Seq<char>>,
) -> bool {
    match r {
        Ok(x) => spec_r == Ok::<Seq<(Seq<char>, Json)>, Seq<char>>(pair_models(x@)),
        Err(m) => spec_r == Err::<Seq<(Seq<char>, Json)>, Seq<char>>(m@),
    }
}

fn range_is(v: &[char], a: usize, b: usize, w: &[char]) -> (r: bool)
    requires
        a <= b <= v@.len(),
    ensures
        r == (v@.subrange(a as int, b as int) == w@),
{
    let ghost s = v@.subrange(a as int, b as int);
    if b - a != w.len() {
        return false;
    }
    let mut i: usize = 0;
    while i < w.len()
        invariant
            i <= w@.len(),
            b - a == w@.len(),
            a <= b <= v@.len(),
            s == v@.subrange(a as int, b as int),
            forall|j: int| 0 <= j < i ==> s[j] == w@[j],
        decreases w@.len() - i,
    {
        assert(s[i as int] == v@[a + i]);
        if v[a + i] != w[i] {
            return false;
        }
        i = i + 1;
    }
    assert(s =~= w@);
    true
}

/// `{:?}` of `v[a..b]`.
fn debug_range(v: &[char], a: usize, b: usize) -> (r: String)
    requires
        a <= b <= v@.len(),
    ensures
        r@ == debug_text(v@.subrange(a as int, b as int)),
{
    let t = string_from_chars(v, a, b);
    debug_string(t.as_str())
}

/// `prefix` followed by `{:?}` of `v[a..b]`.
fn message_with_debug(prefix: &str, v: &[char], a: usize, b: usize) -> (r: String)
    requires
        a <= b <= v@.len(),
    ensures
        r@ == prefix@ + debug_text(v@.subrange(a as int, b as int)),
{
    let d = debug_range(v, a, b);
    concat(prefix, d.as_str())
}

fn invalid_message(kind: &str, v: &[char], a: usize, b: usize) -> (r: String)
    requires
        a <= b <= v@.len(),
    ensures
        r@ == msg_invalid(kind@, v@.subrange(a as int, b as int)),
{
    let d = debug_range(v, a, b);
    let head = crate::text::concat3("invalid ", kind, ": ");
    concat(head.as_str(), d.as_str())
}

/// Whether `v[a..b]` is a valid identifier.
fn ident_ok_in(v: &[char], a: usize, b: usize) -> (r: bool)
    requires
        a <= b <= v@.len(),
    ensures
        r == ident_ok(v@.subrange(a as int, b as int)),
{
    let ghost s = v@.subrange(a as int, b as int);
    let mut i = a;
    while i < b
        invariant
            a <= i <= b <= v@.len(),
            s == v@.subrange(a as int, b as int),
            forall|j: int| 0 <= j < i - a ==> ident_char(#[trigger] s[j]),
        decreases b - i,
    {
        let c = v[i];
        assert(s[(i - a) as int] == c);
        if !(('a' <= c && c <= 'z') || ('A' <= c && c <= 'Z') || ('0' <= c && c <= '9') || c == '_'
            || c == '-' || c == '.') {
            return false;
        }
        i = i + 1;
    }
    true
}

fn unquote_in(v: &[char], a: usize, b: usize) -> (r: String)
    requires
        a + 2 <= b <= v@.len(),
    ensures
        r@ == unquote(v@.subrange(a as int, b as int)),
{
    assert(inner(v@.subrange(a as int, b as int)) =~= v@.subrange(a + 1, b - 1));
    let w1 = unescape_pair_in(v, a + 1, b - 1, '\\', '\'');
    let w2 = unescape_pair_in(w1.as_slice(), 0, w1.len(), '\\', '"');
    assert(w1@.subrange(0, w1@.len() as int) =~= w1@);
    let r = string_from_chars(w2.as_slice(), 0, w2.len());
    assert(w2@.subrange(0, w2@.len() as int) =~= w2@);
    r
}

/// A float literal `v[a..b]` with JSON mantissa `lit`.
fn float_value(v: &[char], a: usize, b: usize, lit: Vec<char>) -> (r: Result<JsonValue, String>)
    requires
        a <= b <= v@.len(),
    ensures
        match number_text(lit@) {
            Some(x) => r matches Ok(j) && j@ == Json::Num(JsonNum::Float(x)),
            None => r matches Err(m) && m@ == msg_nonfinite(v@.subrange(a as int, b as int)),
        },
{
    let text = string_from_chars(lit.as_slice(), 0, lit.len());
    assert(lit@.subrange(0, lit@.len() as int) =~= lit@);
    match canonical_number_text(text.as_str()) {
        Some(x) => Ok(JsonValue::Number(JsonNumber::Float(x))),
        None => Err(message_with_debug("LFM: non-finite float in argument: ", v, a, b)),
    }
}

/// A Python literal token `v[lo..hi]` as a JSON value.
pub fn parse_value_in(v: &[char], lo: usize, hi: usize) -> (r: Result<JsonValue, String>)
    requires
        lo <= hi <= v@.len(),
    ensures
        value_result(r, lfm_value(v@.subrange(lo as int, hi as int))),
    decreases hi - lo, 1int,
{
    let ghost s = v@.subrange(lo as int, hi as int);
    let (a, b) = trim_range(v, lo, hi);
    let ghost t = v@.subrange(a as int, b as int);
    assert(t == trim(s));
    if a == b {
        return Ok(JsonValue::String(String::new()));
    }
    let first = v[a];
    let last = v[b - 1];
    assert(t[0] == first && t.last() == last);
    if b - a >= 2 && first == '\'' && last == '\'' {
        return Ok(JsonValue::String(unquote_in(v, a, b)));
    }
    if first == '\'' {
        return Err(String::from_str("LFM: unterminated single-quoted string"));
    }
    if b - a >= 2 && first == '"' && last == '"' {
        return Ok(JsonValue::String(unquote_in(v, a, b)));
    }
    if first == '"' {
        return Err(String::from_str("LFM: unterminated double-quoted string"));
    }
    let w_true = ['T', 'r', 'u', 'e'];
    let w_false = ['F', 'a', 'l', 's', 'e'];
    let w_none = ['N', 'o', 'n', 'e'];
    let w_null = ['n', 'u', 'l', 'l'];
    assert(w_true@ =~= seq!['T', 'r', 'u', 'e']);
    assert(w_false@ =~= seq!['F', 'a', 'l', 's', 'e']);
    assert(w_none@ =~= seq!['N', 'o', 'n', 'e']);
    assert(w_null@ =~= seq!['n', 'u', 'l', 'l']);
    if range_is(v, a, b, &w_true) {
        return Ok(JsonValue::Bool(true));
    }
    if range_is(v, a, b, &w_false) {
        return Ok(JsonValue::Bool(false));
    }
    if range_is(v, a, b, &w_none) || range_is(v, a, b, &w_null) {
        return Ok(JsonValue::Null);
    }
    if b - a >= 2 && first == '[' && last == ']' {
        let (c, d) = trim_range(v, a + 1, b - 1);
        assert(inner(t) =~= v@.subrange(a + 1, b - 1));
        if c == d {
            let items: Vec<JsonValue> = Vec::new();
            proof {
                lemma_array_model(items);
                assert(models(items@) =~= Seq::<Json>::empty());
            }
            return Ok(JsonValue::Array(items));
        }
        return parse_items_in(v, c, d, hi - lo);
    }
    if first == '[' {
        return Err(String::from_str("LFM: unterminated list literal"));
    }
    if b - a >= 2 && first == '{' && last == '}' {
        let (c, d) = trim_range(v, a + 1, b - 1);
        assert(inner(t) =~= v@.subrange(a + 1, b - 1));
        if c == d {
            return Ok(JsonValue::empty_object());
        }
        return parse_entries_in(v, c, d, hi - lo);
    }
    if first == '{' {
        return Err(String::from_str("LFM: unterminated object literal"));
    }
    match parse_i64_in(v, a, b) {
        Some(n) => {
            return Ok(JsonValue::from_i64(n));
        },
        None => {},
    }
    match float_class_in(v, a, b) {
        FloatClassExec::Finite(lit) => float_value(v, a, b, lit),
        FloatClassExec::NonFinite => Err(
            message_with_debug("LFM: non-finite float in argument: ", v, a, b),
        ),
        FloatClassExec::NotFloat => Ok(JsonValue::String(string_from_chars(v, a, b))),
    }
}

/// The non-blank pieces of the list body `v[c..d]` parsed as values.
fn parse_items_in(v: &[char], c: usize, d: usize, bound: usize) -> (r: Result<JsonValue, String>)
    requires
        c <= d <= v@.len(),
        d - c < bound,
    ensures
        value_result(r, lfm_items(split_pieces(v@.subrange(c as int, d as int), ','), 0, bound as nat, seq![])),
    decreases bound, 0int,
{
    let ghost body = v@.subrange(c as int, d as int);
    let ghost pieces = split_pieces(body, ',');
    let ranges = split_ranges_in(v, c, d, ',');
    proof {
        lemma_split_bounds(body, ',');
    }
    let mut items: Vec<JsonValue> = Vec::new();
    let mut i: usize = 0;
    assert(models(items@) =~= Seq::<Json>::empty());
    while i < ranges.len()
        invariant
            c <= d <= v@.len(),
            d - c < bound,
            body == v@.subrange(c as int, d as int),
            pieces == split_pieces(body, ','),
            ranges@.len() == pieces.len(),
            i <= ranges@.len(),
            forall|j: int| 0 <= j < ranges@.len() ==> c <= (#[trigger] ranges@[j]).0 <= ranges@[j].1 <= d,
            forall|j: int|
                0 <= j < ranges@.len() ==> v@.subrange((#[trigger] ranges@[j]).0 as int, ranges@[j].1 as int)
                    == pieces[j],
            lfm_items(pieces, 0, bound as nat, seq![]) == lfm_items(pieces, i as nat, bound as nat, models(items@)),
        decreases ranges@.len() - i,
    {
        let (p, q) = ranges[i];
        let (p2, q2) = trim_range(v, p, q);
        if p2 == q2 {
            i = i + 1;
            continue;
        }
        match parse_value_in(v, p2, q2) {
            Ok(x) => {
                let ghost before = models(items@);
                items.push(x);
                assert(models(items@) =~= before.push(x@));
            },
            Err(m) => {
                return Err(m);
            },
        }
        i = i + 1;
    }
    proof {
        lemma_array_model(items);
    }
    Ok(JsonValue::Array(items))
}

/// The non-blank `key: value` pieces of the dict body `v[c..d]`.
fn parse_entries_in(v: &[char], c: usize, d: usize, bound: usize) -> (r: Result<JsonValue, String>)
    requires
        c <= d <= v@.len(),
        d - c < bound,
    ensures
        value_result(r, lfm_entries(split_pieces(v@.subrange(c as int, d as int), ','), 0, bound as nat, seq![])),
    decreases bound, 0int,
{
    let ghost body = v@.subrange(c as int, d as int);
    let ghost pieces = split_pieces(body, ',');
    let ranges = split_ranges_in(v, c, d, ',');
    proof {
        lemma_split_bounds(body, ',');
    }
    let mut pairs: Vec<(String, JsonValue)> = Vec::new();
    let mut i: usize = 0;
    assert(pair_models(pairs@) =~= Seq::<(Seq<char>, Json)>::empty());
    while i < ranges.len()
        invariant
            c <= d <= v@.len(),
            d - c < bound,
            body == v@.subrange(c as int, d as int),
            pieces == split_pieces(body, ','),
            ranges@.len() == pieces.len(),
            i <= ranges@.len(),
            forall|j: int| 0 <= j < ranges@.len() ==> c <= (#[trigger] ranges@[j]).0 <= ranges@[j].1 <= d,
            forall|j: int|
                0 <= j < ranges@.len() ==> v@.subrange((#[trigger] ranges@[j]).0 as int, ranges@[j].1 as int)
                    == pieces[j],
            lfm_entries(pieces, 0, bound as nat, seq![]) == lfm_entries(pieces, i as nat, bound as nat, pair_models(pairs@)),
        decreases ranges@.len() - i,
    {
        let (p, q) = ranges[i];
        let (p2, q2) = trim_range(v, p, q);
        let ghost e = v@.subrange(p2 as int, q2 as int);
        if p2 == q2 {
            i = i + 1;
            continue;
        }
        let k = match split_index_in(v, p2, q2, ':') {
            Some(k) => k,
            None => {
                return Err(message_with_debug("LFM: object entry without ':': ", v, p2, q2));
            },
        };
        let (k0, k1) = trim_range(v, p2, p2 + k);
        let (w0, w1) = trim_range(v, p2 + k + 1, q2);
        assert(e.take(k as int) =~= v@.subrange(p2 as int, (p2 + k) as int));
        assert(e.skip(k + 1) =~= v@.subrange((p2 + k + 1) as int, q2 as int));
        let key_value = parse_value_in(v, k0, k1);
        let key = match key_value {
            Ok(JsonValue::String(key)) => key,
            Ok(_) => {
                return Err(message_with_debug("LFM: object key must be a string: ", v, k0, k1));
            },
            Err(m) => {
                return Err(m);
            },
        };
        if object_find(&pairs, key.as_str()).is_some() {
            return Err(concat("LFM: duplicate object key: ", key.as_str()));
        }
        match parse_value_in(v, w0, w1) {
            Ok(x) => {
                object_insert(&mut pairs, key, x);
            },
            Err(m) => {
                return Err(m);
            },
        }
        i = i + 1;
    }
    proof {
        lemma_object_model(pairs);
    }
    Ok(JsonValue::Object(pairs))
}

/// A call's argument list `v[lo..hi]` as a JSON object.
pub fn parse_kwargs_in(v: &[char], lo: usize, hi: usize) -> (r: Result<JsonValue, String>)
    requires
        lo <= hi <= v@.len(),
    ensures
        value_result(r, lfm_kwargs(v@.subrange(lo as int, hi as int))),
{
    let (a, b) = trim_range(v, lo, hi);
    if a == b {
        return Ok(JsonValue::empty_object());
    }
    let ghost body = v@.subrange(a as int, b as int);
    let ghost pieces = split_pieces(body, ',');
    let ranges = split_ranges_in(v, a, b, ',');
    proof {
        lemma_split_bounds(body, ',');
    }
    let mut pairs: Vec<(String, JsonValue)> = Vec::new();
    let mut i: usize = 0;
    assert(pair_models(pairs@) =~= Seq::<(Seq<char>, Json)>::empty());
    while i < ranges.len()
        invariant
            a <= b <= v@.len(),
            body == v@.subrange(a as int, b as int),
            pieces == split_pieces(body, ','),
            ranges@.len() == pieces.len(),
            i <= ranges@.len(),
            forall|j: int| 0 <= j < ranges@.len() ==> a <= (#[trigger] ranges@[j]).0 <= ranges@[j].1 <= b,
            forall|j: int|
                0 <= j < ranges@.len() ==> v@.subrange((#[trigger] ranges@[j]).0 as int, ranges@[j].1 as int)
                    == pieces[j],
            lfm_kwarg_pairs(pieces, 0, seq![]) == lfm_kwarg_pairs(pieces, i as nat, pair_models(pairs@)),
            lo <= hi <= v@.len(),
            lfm_kwargs(v@.subrange(lo as int, hi as int)) == lfm_kwarg_pairs(pieces, 0, seq![]),
        decreases ranges@.len() - i,
    {
        let (p, q) = ranges[i];
        let (p2, q2) = trim_range(v, p, q);
        let ghost pt = v@.subrange(p2 as int, q2 as int);
        if p2 == q2 {
            i = i + 1;
            continue;
        }
        let k = match index_of(v, p2, q2, '=') {
            Some(k) => k,
            None => {
                return Err(message_with_debug("LFM: kwarg without '=': ", v, p2, q2));
            },
        };
        assert(pt.take(k as int) =~= v@.subrange(p2 as int, (p2 + k) as int));
        assert(pt.skip(k + 1) =~= v@.subrange((p2 + k + 1) as int, q2 as int));
        let (k0, k1) = trim_range(v, p2, p2 + k);
        if k0 == k1 {
            return Err(String::from_str("LFM: empty kwarg name"));
        }
        if !ident_ok_in(v, k0, k1) {
            return Err(invalid_message("kwarg name", v, k0, k1));
        }
        let key = string_from_chars(v, k0, k1);
        if object_find(&pairs, key.as_str()).is_some() {
            return Err(concat("LFM: duplicate kwarg: ", key.as_str()));
        }
        let (w0, w1) = trim_range(v, p2 + k + 1, q2);
        match parse_value_in(v, w0, w1) {
            Ok(x) => {
                object_insert(&mut pairs, key, x);
            },
            Err(m) => {
                return Err(m);
            },
        }
        i = i + 1;
    }
    proof {
        lemma_object_model(pairs);
    }
    Ok(JsonValue::Object(pairs))
}

/// One `name(k=v, ...)` call `v[lo..hi]`: its name and arguments.
pub fn parse_call_in(v: &[char], lo: usize, hi: usize) -> (r: Result<(String, JsonValue), String>)
    requires
        lo <= hi <= v@.len(),
    ensures
        match r {
            Ok(c) => lfm_call(v@.subrange(lo as int, hi as int)) == Ok::<(Seq<char>, Json), Seq<char>>((c.0@, c.1@)),
            Err(m) => lfm_call(v@.subrange(lo as int, hi as int)) == Err::<(Seq<char>, Json), Seq<char>>(m@),
        },
{
    let ghost expr = v@.subrange(lo as int, hi as int);
    let k = match index_of(v, lo, hi, '(') {
        Some(k) => k,
        None => {
            return Err(message_with_debug("LFM: expected '(' in call: ", v, lo, hi));
        },
    };
    assert(expr.take(k as int) =~= v@.subrange(lo as int, (lo + k) as int));
    assert(expr.skip(k + 1) =~= v@.subrange((lo + k + 1) as int, hi as int));
    let ghost rest = expr.skip(k + 1);
    let (n0, n1) = trim_range(v, lo, lo + k);
    if n0 == n1 {
        return Err(String::from_str("LFM: empty tool name in call expression"));
    }
    if !ident_ok_in(v, n0, n1) {
        return Err(invalid_message("tool name", v, n0, n1));
    }
    let rs = lo + k + 1;
    let j = match last_index_of(v, rs, hi, ')') {
        Some(j) => j,
        None => {
            return Err(message_with_debug("LFM: missing closing ')' in: ", v, lo, hi));
        },
    };
    assert(rest.skip(j + 1) =~= v@.subrange((rs + j + 1) as int, hi as int));
    assert(rest.take(j as int) =~= v@.subrange(rs as int, (rs + j) as int));
    let (t0, t1) = trim_range(v, rs + j + 1, hi);
    if t0 < t1 {
        return Err(message_with_debug("LFM: trailing content after call expression: ", v, rs + j + 1, hi));
    }
    let name = string_from_chars(v, n0, n1);
    match parse_kwargs_in(v, rs, rs + j) {
        Ok(args) => Ok((name, args)),
        Err(m) => Err(m),
    }
}

/// The calls of one marker block `v[lo..hi]`.
pub fn parse_block_in(v: &[char], lo: usize, hi: usize) -> (r: Result<Vec<(String, JsonValue)>, String>)
    requires
        lo <= hi <= v@.len(),
    ensures
        calls_result(r, lfm_block(v@.subrange(lo as int, hi as int))),
{
    let (a0, b0) = trim_range(v, lo, hi);
    let ghost t = v@.subrange(a0 as int, b0 as int);
    let (a, b) = if b0 - a0 >= 2 && v[a0] == '[' && v[b0 - 1] == ']' {
        assert(inner(t) =~= v@.subrange(a0 + 1, b0 - 1));
        (a0 + 1, b0 - 1)
    } else {
        (a0, b0)
    };
    proof {
        if b0 - a0 >= 2 {
            assert(t[0] == v@[a0 as int] && t.last() == v@[b0 - 1]);
        }
    }
    let ghost body = v@.subrange(a as int, b as int);
    let ghost pieces = split_pieces(body, ',');
    let ranges = split_ranges_in(v, a, b, ',');
    proof {
        lemma_split_bounds(body, ',');
    }
    let mut calls: Vec<(String, JsonValue)> = Vec::new();
    let mut i: usize = 0;
    assert(pair_models(calls@) =~= Seq::<(Seq<char>, Json)>::empty());
    while i < ranges.len()
        invariant
            a <= b <= v@.len(),
            body == v@.subrange(a as int, b as int),
            pieces == split_pieces(body, ','),
            ranges@.len() == pieces.len(),
            i <= ranges@.len(),
            forall|j: int| 0 <= j < ranges@.len() ==> a <= (#[trigger] ranges@[j]).0 <= ranges@[j].1 <= b,
            forall|j: int|
                0 <= j < ranges@.len() ==> v@.subrange((#[trigger] ranges@[j]).0 as int, ranges@[j].1 as int)
                    == pieces[j],
            lfm_calls(pieces, 0, seq![]) == lfm_calls(pieces, i as nat, pair_models(calls@)),
            lo <= hi <= v@.len(),
            lfm_block(v@.subrange(lo as int, hi as int)) == lfm_calls(pieces, 0, seq![]),
        decreases ranges@.len() - i,
    {
        let (p, q) = ranges[i];
        let (p2, q2) = trim_range(v, p, q);
        if p2 == q2 {
            i = i + 1;
            continue;
        }
        match parse_call_in(v, p2, q2) {
            Ok(c) => {
                let ghost before = pair_models(calls@);
                let ghost cm = (c.0@, c.1@);
                calls.push(c);
                assert(pair_models(calls@) =~= before.push(cm));
            },
            Err(m) => {
                return Err(m);
            },
        }
        i = i + 1;
    }
    Ok(calls)
}

/// The tool calls in the marker blocks of `raw`, in order.
pub fn normalize_lfm(raw: &str) -> (r: Result<Vec<(String, JsonValue)>, String>)
    ensures
        calls_result(r, lfm_normalize(raw@)),
{
    let v = crate::text::chars_of(raw);
    let start = crate::text::chars_of("<|tool_call_start|>");
    let end = crate::text::chars_of("<|tool_call_end|>");
    proof {
        reveal_strlit("<|tool_call_start|>");
        reveal_strlit("<|tool_call_end|>");
    }
    assert(start@.len() == 19 && end@.len() == 17);
    let n = v.len();
    let mut pos: usize = 0;
    let mut calls: Vec<(String, JsonValue)> = Vec::new();
    assert(pair_models(calls@) =~= Seq::<(Seq<char>, Json)>::empty());
    assert(v@.subrange(0, n as int) =~= raw@);
    while pos < n
        invariant
            pos <= n == v@.len(),
            start@ == lfm_start(),
            end@ == lfm_end(),
            start@.len() == 19,
            end@.len() == 17,
            lfm_normalize(raw@) == lfm_normalize_from(v@.subrange(pos as int, n as int), pair_models(calls@)),
        decreases n - pos,
    {
        let ghost rem = v@.subrange(pos as int, n as int);
        let b = match find_in(v.as_slice(), pos, n, start.as_slice()) {
            Some(b) => b,
            None => {
                return Ok(calls);
            },
        };
        proof { crate::text::lemma_find_bound(rem, start@); }
        let after = pos + b + 19;
        assert(rem.skip((b + 19) as int) =~= v@.subrange(after as int, n as int));
        let e = match find_in(v.as_slice(), after, n, end.as_slice()) {
            Some(e) => e,
            None => {
                return Err(String::from_str("LFM: unclosed <|tool_call_start|> marker"));
            },
        };
        let ghost aft = v@.subrange(after as int, n as int);
        proof { crate::text::lemma_find_bound(aft, end@); }
        assert(aft.take(e as int) =~= v@.subrange(after as int, (after + e) as int));
        assert(aft.skip((e + 17) as int) =~= v@.subrange((after + e + 17) as int, n as int));
        match parse_block_in(v.as_slice(), after, after + e) {
            Ok(block_calls) => {
                let ghost before = pair_models(calls@);
                let mut bc = block_calls;
                calls.append(&mut bc);
                assert(pair_models(calls@) =~= before + pair_models(block_calls@));
            },
            Err(m) => {
                return Err(m);
            },
        }
        pos = after + e + 17;
    }
    proof {
        assert(v@.subrange(pos as int, n as int) =~= Seq::<char>::empty());
        assert(find_spec(Seq::<char>::empty(), lfm_start()) is None) by {
            assert(crate::text::find_from(Seq::<char>::empty(), lfm_start(), 0) is None);
        }
    }
    Ok(calls)
}

/// Whether `raw` contains the start marker.
pub fn find_lfm_start(raw: &str) -> (r: bool)
    ensures
        r == (find_spec(raw@, lfm_start()) is Some),
{
    let v = crate::text::chars_of(raw);
    let start = crate::text::chars_of("<|tool_call_start|>");
    assert(v@.subrange(0, v@.len() as int) =~= raw@);
    find_in(v.as_slice(), 0, v.len(), start.as_slice()).is_some()
}

} // verus!
