//! Bounding large tool results before they enter a model turn: JSON Pointer
//! redaction, per-string and per-array limits, a total byte budget, and the
//! continuation tokens that describe what was omitted.

use vstd::prelude::*;

use crate::text::{concat, concat3, decimal, str_eq};

verus! {

/// A tool's I/O contract: its registry name, a description, and
/// JSON-Schema fragments for its arguments and result.
#[derive(Debug, Clone, PartialEq)]
pub struct ToolSchema {
    pub name: String,
    pub description: String,
    pub args_schema: crate::json::JsonValue,
    pub result_schema: crate::json::JsonValue,
}

/// Reason an individual payload segment was omitted from a tool result envelope.
#[derive(Debug, Clone, Copy, PartialEq, Eq, Structural)]
pub enum ToolResultOmissionReason {
    /// A string exceeded `max_string_chars`.
    StringChars,
    /// An array exceeded `max_array_items` or the total byte budget.
    ArrayItems,
    /// An object field or scalar exceeded `max_total_bytes`.
    TotalBytes,
}

/// The snake-case name a reason is serialised under.
pub open spec fn reason_name(r: ToolResultOmissionReason) -> Seq<char> {
    match r {
        ToolResultOmissionReason::StringChars => "string_chars"@,
        ToolResultOmissionReason::ArrayItems => "array_items"@,
        ToolResultOmissionReason::TotalBytes => "total_bytes"@,
    }
}

impl ToolResultOmissionReason {
    /// The snake-case name this reason is serialised under.
    pub fn name(&self) -> (r: &'static str)
        ensures
            r@ == reason_name(*self),
    {
        proof {
            reveal_strlit("string_chars");
            reveal_strlit("array_items");
            reveal_strlit("total_bytes");
        }
        match self {
            ToolResultOmissionReason::StringChars => "string_chars",
            ToolResultOmissionReason::ArrayItems => "array_items",
            ToolResultOmissionReason::TotalBytes => "total_bytes",
        }
    }
}

/// One JSON Pointer redaction rule.
#[derive(Debug, Clone, PartialEq, Eq)]
pub struct RedactionRule {
    /// Canonical JSON Pointer to redact, for example `/secret/token`.
    pub pointer: String,
    /// Replacement string for this pointer; the policy default when `None`.
    pub replacement: Option<String>,
}

/// JSON Pointer redaction policy for tool results.
#[derive(Debug, Clone, PartialEq, Eq)]
pub struct RedactionPolicy {
    /// Pointers redacted before size bounding.
    pub deny: Vec<RedactionRule>,
    /// Optional allow-list. Values outside these pointers are redacted while
    /// ancestor containers are retained so allowed descendants can survive.
    pub allow: Option<Vec<String>>,
    /// Default replacement used when a rule does not specify one.
    pub default_replacement: String,
}

/// A rule as plain values: its pointer and its replacement.
pub open spec fn rule_model(r: RedactionRule) -> (Seq<char>, Option<Seq<char>>) {
    (r.pointer@, match r.replacement { Some(s) => Some(s@), None => None })
}

/// The rules of a deny-list as plain values.
pub open spec fn rule_models(rules: Seq<RedactionRule>) -> Seq<(Seq<char>, Option<Seq<char>>)> {
    Seq::new(rules.len(), |i: int| rule_model(rules[i]))
}

/// Index of the first rule for `pointer`.
pub open spec fn first_rule(rules: Seq<(Seq<char>, Option<Seq<char>>)>, pointer: Seq<char>) -> Option<nat>
    decreases rules.len(),
{
    if rules.len() == 0 {
        None
    } else if rules[0].0 == pointer {
        Some(0)
    } else {
        match first_rule(rules.drop_first(), pointer) {
            Some(i) => Some(i + 1),
            None => None,
        }
    }
}

/// The placeholder replacement of a fresh policy.
pub open spec fn default_placeholder() -> Seq<char> {
    "[redacted]"@
}

/// Whether `pointer` lies strictly below `ancestor`.
pub open spec fn is_descendant(pointer: Seq<char>, ancestor: Seq<char>) -> bool {
    if ancestor.len() == 0 {
        pointer.len() != 0
    } else {
        let prefix = ancestor.push('/');
        prefix.len() <= pointer.len() && pointer.take(prefix.len() as int) == prefix
    }
}

/// Whether `pointer` is `allowed`, below it, or above it.
pub open spec fn pointer_matches(pointer: Seq<char>, allowed: Seq<char>) -> bool {
    pointer == allowed || is_descendant(pointer, allowed) || is_descendant(allowed, pointer)
}

/// The replacement a policy gives the value at `pointer`, `None` when the
/// value is kept: the first deny rule for the pointer decides; otherwise,
/// under an allow-list, a pointer that matches no allowed pointer is
/// replaced by the default.
pub open spec fn replacement_spec(p: RedactionPolicy, pointer: Seq<char>) -> Option<Seq<char>> {
    let rules = rule_models(p.deny@);
    match first_rule(rules, pointer) {
        Some(i) => match rules[i as int].1 {
            Some(s) => Some(s),
            None => Some(p.default_replacement@),
        },
        None => match p.allow {
            None => None,
            Some(a) => if exists|j: int| 0 <= j < a@.len() && pointer_matches(pointer, #[trigger] a@[j]@) {
                None
            } else {
                Some(p.default_replacement@)
            },
        },
    }
}

/// Whether `pointer` starts with `prefix`.
fn starts_with(pointer: &Vec<char>, prefix: &Vec<char>) -> (r: bool)
    ensures
        r == (prefix@.len() <= pointer@.len() && pointer@.take(prefix@.len() as int) == prefix@),
{
    if prefix.len() > pointer.len() {
        return false;
    }
    let mut i: usize = 0;
    while i < prefix.len()
        invariant
            prefix@.len() <= pointer@.len(),
            i <= prefix@.len(),
            forall|j: int| 0 <= j < i ==> pointer@[j] == prefix@[j],
        decreases prefix@.len() - i,
    {
        if pointer[i] != prefix[i] {
            return false;
        }
        i = i + 1;
    }
    assert(pointer@.take(prefix@.len() as int) =~= prefix@);
    true
}

/// Whether `pointer` lies strictly below `ancestor`.
fn descendant_of(pointer: &str, ancestor: &str) -> (r: bool)
    ensures
        r == is_descendant(pointer@, ancestor@),
{
    let a = crate::text::chars_of(ancestor);
    let p = crate::text::chars_of(pointer);
    if a.len() == 0 {
        return p.len() != 0;
    }
    let mut prefix = a;
    prefix.push('/');
    starts_with(&p, &prefix)
}

/// Whether `pointer` is `allowed`, below it, or above it.
fn matches_allowed(pointer: &str, allowed: &str) -> (r: bool)
    ensures
        r == pointer_matches(pointer@, allowed@),
{
    str_eq(pointer, allowed) || descendant_of(pointer, allowed) || descendant_of(allowed, pointer)
}

fn copy_opt(o: &Option<String>) -> (r: Option<String>)
    ensures
        r == *o,
{
    crate::trace::copy_opt_string(o)
}

impl RedactionPolicy {
    /// A deny-list policy over `pointers`, with the `"[redacted]"` default.
    pub fn deny_pointers(pointers: &[&str]) -> (r: RedactionPolicy)
        ensures
            rule_models(r.deny@) == Seq::new(pointers@.len(), |i: int| (pointers@[i]@, None::<Seq<char>>)),
            r.allow is None,
            r.default_replacement@ == default_placeholder(),
    {
        let mut deny: Vec<RedactionRule> = Vec::new();
        let mut i: usize = 0;
        while i < pointers.len()
            invariant
                i <= pointers@.len(),
                deny@.len() == i,
                rule_models(deny@) == Seq::new(i as nat, |k: int| (pointers@[k]@, None::<Seq<char>>)),
            decreases pointers@.len() - i,
        {
            let ghost before = deny@;
            deny.push(RedactionRule { pointer: crate::text::owned(pointers[i]), replacement: None });
            proof {
                assert forall|k: int| 0 <= k < i + 1 implies #[trigger] rule_models(deny@)[k] == (pointers@[k]@, None::<Seq<char>>) by {
                    if k < i {
                        assert(deny@[k] == before[k]);
                        assert(rule_models(before)[k] == rule_model(before[k]));
                    }
                }
            }
            i = i + 1;
            assert(rule_models(deny@) =~= Seq::new(i as nat, |k: int| (pointers@[k]@, None::<Seq<char>>)));
        }
        proof {
            reveal_strlit("[redacted]");
        }
        RedactionPolicy { deny, allow: None, default_replacement: String::from_str("[redacted]") }
    }

    /// An allow-list policy over `pointers`, with the `"[redacted]"` default.
    pub fn allow_pointers(pointers: &[&str]) -> (r: RedactionPolicy)
        ensures
            r.deny@.len() == 0,
            r.allow matches Some(a) && a@.len() == pointers@.len()
                && forall|i: int| 0 <= i < a@.len() ==> (#[trigger] a@[i])@ == pointers@[i]@,
            r.default_replacement@ == default_placeholder(),
    {
        let mut allow: Vec<String> = Vec::new();
        let mut i: usize = 0;
        while i < pointers.len()
            invariant
                i <= pointers@.len(),
                allow@.len() == i,
                forall|k: int| 0 <= k < i ==> (#[trigger] allow@[k])@ == pointers@[k]@,
            decreases pointers@.len() - i,
        {
            allow.push(crate::text::owned(pointers[i]));
            i = i + 1;
        }
        proof {
            reveal_strlit("[redacted]");
        }
        RedactionPolicy { deny: Vec::new(), allow: Some(allow), default_replacement: String::from_str("[redacted]") }
    }

    /// Sets the default replacement string.
    pub fn with_default_replacement(self, replacement: &str) -> (r: RedactionPolicy)
        ensures
            r.deny == self.deny,
            r.allow == self.allow,
            r.default_replacement@ == replacement@,
    {
        RedactionPolicy { deny: self.deny, allow: self.allow, default_replacement: crate::text::owned(replacement) }
    }

    /// Sets the replacement for one deny-list pointer: the first rule for the
    /// pointer gets it, or a new rule is added at the end.
    pub fn with_replacement(self, pointer: &str, replacement: &str) -> (r: RedactionPolicy)
        ensures
            r.allow == self.allow,
            r.default_replacement == self.default_replacement,
            rule_models(r.deny@) == match first_rule(rule_models(self.deny@), pointer@) {
                Some(i) => rule_models(self.deny@).update(i as int, (pointer@, Some(replacement@))),
                None => rule_models(self.deny@).push((pointer@, Some(replacement@))),
            },
    {
        let mut deny = self.deny;
        let ghost rules = rule_models(deny@);
        let mut i: usize = 0;
        while i < deny.len()
            invariant
                i <= deny@.len(),
                rules == rule_models(deny@),
                rules == rule_models(self.deny@),
                forall|k: int| 0 <= k < i ==> (#[trigger] rules[k]).0 != pointer@,
            decreases deny@.len() - i,
        {
            if str_eq(deny[i].pointer.as_str(), pointer) {
                proof {
                    lemma_first_rule_at(rules, pointer@, i as nat);
                }
                let p = deny[i].pointer.clone();
                deny.set(i, RedactionRule { pointer: p, replacement: Some(crate::text::owned(replacement)) });
                assert(rule_models(deny@) =~= rules.update(i as int, (pointer@, Some(replacement@))));
                return RedactionPolicy { deny, allow: self.allow, default_replacement: self.default_replacement };
            }
            i = i + 1;
        }
        proof {
            lemma_first_rule_none(rules, pointer@);
        }
        deny.push(RedactionRule { pointer: crate::text::owned(pointer), replacement: Some(crate::text::owned(replacement)) });
        assert(rule_models(deny@) =~= rules.push((pointer@, Some(replacement@))));
        RedactionPolicy { deny, allow: self.allow, default_replacement: self.default_replacement }
    }

    /// The replacement this policy gives the value at `pointer`, `None` when
    /// the value is kept.
    pub fn replacement_for(&self, pointer: &str) -> (r: Option<String>)
        ensures
            match replacement_spec(*self, pointer@) {
                Some(s) => r matches Some(x) && x@ == s,
                None => r is None,
            },
    {
        let ghost rules = rule_models(self.deny@);
        let mut i: usize = 0;
        while i < self.deny.len()
            invariant
                i <= self.deny@.len(),
                rules == rule_models(self.deny@),
                forall|k: int| 0 <= k < i ==> (#[trigger] rules[k]).0 != pointer@,
            decreases self.deny@.len() - i,
        {
            if str_eq(self.deny[i].pointer.as_str(), pointer) {
                proof {
                    lemma_first_rule_at(rules, pointer@, i as nat);
                }
                return match &self.deny[i].replacement {
                    Some(s) => Some(s.clone()),
                    None => Some(self.default_replacement.clone()),
                };
            }
            i = i + 1;
        }
        proof {
            lemma_first_rule_none(rules, pointer@);
        }
        match &self.allow {
            None => None,
            Some(allow) => {
                if any_allowed(allow, pointer) {
                    None
                } else {
                    Some(self.default_replacement.clone())
                }
            },
        }
    }
}

/// Whether some allowed pointer matches `pointer`.
fn any_allowed(allow: &Vec<String>, pointer: &str) -> (r: bool)
    ensures
        r == exists|j: int| 0 <= j < allow@.len() && pointer_matches(pointer@, #[trigger] allow@[j]@),
{
    let mut j: usize = 0;
    while j < allow.len()
        invariant
            j <= allow@.len(),
            forall|k: int| 0 <= k < j ==> !pointer_matches(pointer@, #[trigger] allow@[k]@),
        decreases allow@.len() - j,
    {
        if matches_allowed(pointer, allow[j].as_str()) {
            assert(pointer_matches(pointer@, allow@[j as int]@));
            return true;
        }
        j = j + 1;
    }
    false
}

proof fn lemma_first_rule_at(rules: Seq<(Seq<char>, Option<Seq<char>>)>, p: Seq<char>, i: nat)
    requires
        i < rules.len(),
        rules[i as int].0 == p,
        forall|k: int| 0 <= k < i ==> (#[trigger] rules[k]).0 != p,
    ensures
        first_rule(rules, p) == Some(i),
    decreases i,
{
    if i > 0 {
        assert(rules[0].0 != p);
        lemma_first_rule_at(rules.drop_first(), p, (i - 1) as nat);
    }
}

proof fn lemma_first_rule_none(rules: Seq<(Seq<char>, Option<Seq<char>>)>, p: Seq<char>)
    requires
        forall|k: int| 0 <= k < rules.len() ==> (#[trigger] rules[k]).0 != p,
    ensures
        first_rule(rules, p) is None,
    decreases rules.len(),
{
    if rules.len() > 0 {
        assert(rules[0].0 != p);
        assert forall|k: int| 0 <= k < rules.drop_first().len() implies (#[trigger] rules.drop_first()[k]).0 != p by {
            assert(rules.drop_first()[k] == rules[k + 1]);
        }
        lemma_first_rule_none(rules.drop_first(), p);
    }
}


/// A pointer segment with `~` written `~0` and `/` written `~1`.
pub open spec fn escape_segment(s: Seq<char>) -> Seq<char>
    decreases s.len(),
{
    if s.len() == 0 {
        Seq::empty()
    } else {
        let head = if s[0] == '~' {
            seq!['~', '0']
        } else if s[0] == '/' {
            seq!['~', '1']
        } else {
            seq![s[0]]
        };
        head + escape_segment(s.drop_first())
    }
}

/// The JSON Pointer of member or element `child` below `parent`.
pub open spec fn child_pointer_spec(parent: Seq<char>, child: Seq<char>) -> Seq<char> {
    if parent.len() == 0 {
        seq!['/'] + escape_segment(child)
    } else {
        parent + seq!['/'] + escape_segment(child)
    }
}

proof fn lemma_escape_push(s: Seq<char>, c: char)
    ensures
        escape_segment(s.push(c)) == escape_segment(s) + escape_segment(seq![c]),
    decreases s.len(),
{
    if s.len() == 0 {
        assert(s.push(c) =~= seq![c]);
        assert(escape_segment(s) =~= Seq::<char>::empty());
        assert(Seq::<char>::empty() + escape_segment(seq![c]) =~= escape_segment(seq![c]));
    } else {
        assert(s.push(c).drop_first() =~= s.drop_first().push(c));
        lemma_escape_push(s.drop_first(), c);
        assert(escape_segment(seq![c]).len() >= 0);
        let head = if s[0] == '~' {
            seq!['~', '0']
        } else if s[0] == '/' {
            seq!['~', '1']
        } else {
            seq![s[0]]
        };
        assert(escape_segment(s.push(c)) == head + escape_segment(s.drop_first().push(c)));
        assert(head + (escape_segment(s.drop_first()) + escape_segment(seq![c])) =~= (head + escape_segment(s.drop_first())) + escape_segment(seq![c]));
    }
}

/// Escapes one JSON Pointer segment.
fn escape_pointer_segment(segment: &str) -> (r: Vec<char>)
    ensures
        r@ == escape_segment(segment@),
{
    let v = crate::text::chars_of(segment);
    let mut out: Vec<char> = Vec::new();
    let mut i: usize = 0;
    while i < v.len()
        invariant
            v@ == segment@,
            i <= v@.len(),
            out@ == escape_segment(v@.take(i as int)),
        decreases v@.len() - i,
    {
        let c = v[i];
        if c == '~' {
            out.push('~');
            out.push('0');
        } else if c == '/' {
            out.push('~');
            out.push('1');
        } else {
            out.push(c);
        }
        proof {
            assert(v@.take(i + 1) =~= v@.take(i as int).push(c));
            lemma_escape_push(v@.take(i as int), c);
            assert(seq![c].drop_first() =~= Seq::<char>::empty());
            assert(escape_segment(Seq::<char>::empty()) =~= Seq::<char>::empty());
        }
        i = i + 1;
        assert(out@ =~= escape_segment(v@.take(i as int)));
    }
    assert(v@.take(v@.len() as int) =~= v@);
    out
}

/// The JSON Pointer of member or element `child` below `parent`.
pub(crate) fn child_pointer(parent: &str, child: &str) -> (r: String)
    ensures
        r@ == child_pointer_spec(parent@, child@),
{
    let escaped = escape_pointer_segment(child);
    let mut out = crate::text::chars_of(parent);
    out.push('/');
    let mut i: usize = 0;
    let ghost base = out@;
    while i < escaped.len()
        invariant
            i <= escaped@.len(),
            out@ == base + escaped@.take(i as int),
        decreases escaped@.len() - i,
    {
        out.push(escaped[i]);
        i = i + 1;
        assert(out@ =~= base + escaped@.take(i as int));
    }
    assert(escaped@.take(escaped@.len() as int) =~= escaped@);
    proof {
        if parent@.len() == 0 {
            assert(base =~= seq!['/']);
        }
    }
    crate::text::string_from_chars(out.as_slice(), 0, out.len())
}

/// The lowercase hexadecimal digit of `n < 16`.
pub open spec fn hex_digit(n: u8) -> char {
    if n < 10 {
        ((n + 48) as u8) as char
    } else {
        ((n + 87) as u8) as char
    }
}

/// Two lowercase hexadecimal digits per byte.
pub open spec fn hex_encode(b: Seq<u8>) -> Seq<char>
    decreases b.len(),
{
    if b.len() == 0 {
        Seq::empty()
    } else {
        seq![hex_digit(b[0] / 16), hex_digit(b[0] % 16)] + hex_encode(b.drop_first())
    }
}

/// The value of a hexadecimal digit of either case.
pub open spec fn hex_value_spec(c: char) -> Option<u8> {
    if '0' <= c && c <= '9' {
        Some((c as u32 - 48) as u8)
    } else if 'a' <= c && c <= 'f' {
        Some((c as u32 - 87) as u8)
    } else if 'A' <= c && c <= 'F' {
        Some((c as u32 - 55) as u8)
    } else {
        None
    }
}

/// The bytes of a hexadecimal text read two digits at a time; `None` for an
/// odd number of digits or a character that is no digit.
pub open spec fn hex_decode(s: Seq<char>) -> Option<Seq<u8>>
    decreases s.len(),
{
    if s.len() == 0 {
        Some(Seq::empty())
    } else if s.len() == 1 {
        None
    } else {
        match (hex_value_spec(s[0]), hex_value_spec(s[1])) {
            (Some(h), Some(l)) => match hex_decode(s.skip(2)) {
                Some(rest) => Some(seq![(h * 16 + l) as u8] + rest),
                None => None,
            },
            _ => None,
        }
    }
}

/// Decoding the hexadecimal rendering of bytes gives the bytes back.
pub proof fn law_hex_roundtrip(b: Seq<u8>)
    ensures
        hex_decode(hex_encode(b)) == Some(b),
    decreases b.len(),
{
    if b.len() > 0 {
        let x = b[0];
        let e = hex_encode(b);
        assert(e.skip(2) =~= hex_encode(b.drop_first()));
        law_hex_roundtrip(b.drop_first());
        let h = x / 16;
        let l = x % 16;
        assert(hex_value_spec(hex_digit(h)) == Some(h)) by {
            assert(h < 16);
        }
        assert(hex_value_spec(hex_digit(l)) == Some(l)) by {
            assert(l < 16);
        }
        assert((h * 16 + l) as u8 == x);
        assert(seq![x] + b.drop_first() =~= b);
    }
}

/// The value of a hexadecimal digit of either case.
fn hex_value(c: char) -> (r: Option<u8>)
    ensures
        r == hex_value_spec(c),
{
    if '0' <= c && c <= '9' {
        Some((c as u32 - 48) as u8)
    } else if 'a' <= c && c <= 'f' {
        Some((c as u32 - 87) as u8)
    } else if 'A' <= c && c <= 'F' {
        Some((c as u32 - 55) as u8)
    } else {
        None
    }
}

fn hex_digit_exec(n: u8) -> (r: char)
    requires
        n < 16,
    ensures
        r == hex_digit(n),
{
    if n < 10 {
        ((n + 48) as u8) as char
    } else {
        ((n + 87) as u8) as char
    }
}

/// Two lowercase hexadecimal digits per byte.
fn encode_hex(bytes: &[u8]) -> (r: Vec<char>)
    ensures
        r@ == hex_encode(bytes@),
{
    let mut out: Vec<char> = Vec::new();
    let mut i: usize = 0;
    assert(bytes@.skip(0) =~= bytes@);
    assert(out@ + hex_encode(bytes@) =~= hex_encode(bytes@));
    while i < bytes.len()
        invariant
            i <= bytes@.len(),
            out@ + hex_encode(bytes@.skip(i as int)) == hex_encode(bytes@),
        decreases bytes@.len() - i,
    {
        let b = bytes[i];
        out.push(hex_digit_exec(b / 16));
        out.push(hex_digit_exec(b % 16));
        proof {
            let t = bytes@.skip(i as int);
            assert(t[0] == b);
            assert(t.drop_first() =~= bytes@.skip(i + 1));
        }
        i = i + 1;
        assert(out@ + hex_encode(bytes@.skip(i as int)) =~= hex_encode(bytes@));
    }
    assert(bytes@.skip(0) =~= bytes@);
    assert(hex_encode(bytes@.skip(i as int)) =~= Seq::<char>::empty());
    out
}

/// Reads a hexadecimal text two digits at a time.
fn decode_hex(input: &[char]) -> (r: Option<Vec<u8>>)
    ensures
        match hex_decode(input@) {
            Some(b) => r matches Some(v) && v@ == b,
            None => r is None,
        },
{
    let mut out: Vec<u8> = Vec::new();
    let mut i: usize = 0;
    assert(input@.skip(0) =~= input@);
    while i < input.len()
        invariant
            i <= input@.len(),
            hex_decode(input@) == match hex_decode(input@.skip(i as int)) {
                Some(rest) => Some(out@ + rest),
                None => None::<Seq<u8>>,
            },
        decreases input@.len() - i,
    {
        let ghost t = input@.skip(i as int);
        if i + 1 >= input.len() {
            assert(t.len() == 1);
            return None;
        }
        let hi = hex_value(input[i]);
        let lo = hex_value(input[i + 1]);
        assert(t[0] == input@[i as int] && t[1] == input@[i + 1]);
        match (hi, lo) {
            (Some(h), Some(l)) => {
                let byte = h * 16 + l;
                out.push(byte);
                assert(t.skip(2) =~= input@.skip(i + 2));
                proof {
                    match hex_decode(t.skip(2)) {
                        Some(rest) => {
                            assert(out@ + rest =~= out@.drop_last() + (seq![byte] + rest));
                        },
                        None => {},
                    }
                }
                i = i + 2;
            },
            _ => {
                return None;
            },
        }
    }
    assert(input@.skip(i as int) =~= Seq::<char>::empty());
    assert(out@ + Seq::<u8>::empty() =~= out@);
    Some(out)
}

/// One omitted payload segment and its opaque continuation token.
#[derive(Debug, PartialEq, Eq)]
pub struct OmittedSegment {
    /// JSON Pointer to the omitted segment in the original payload.
    pub pointer: String,
    /// Machine-readable omission reason.
    pub reason: ToolResultOmissionReason,
    /// Opaque continuation token for callers that can page the original result.
    pub page_token: String,
}

impl Clone for OmittedSegment {
    fn clone(&self) -> (r: OmittedSegment)
        ensures
            r == *self,
    {
        OmittedSegment { pointer: self.pointer.clone(), reason: self.reason, page_token: self.page_token.clone() }
    }
}

/// Decoded continuation token metadata for a bounded tool result segment.
#[derive(Debug, PartialEq, Eq)]
pub struct ToolResultPageToken {
    /// JSON Pointer to the omitted segment in the original payload.
    pub pointer: String,
    /// Machine-readable omission reason.
    pub reason: ToolResultOmissionReason,
    /// Limit that caused the omission.
    pub limit: usize,
}

impl Clone for ToolResultPageToken {
    fn clone(&self) -> (r: ToolResultPageToken)
        ensures
            r == *self,
    {
        ToolResultPageToken { pointer: self.pointer.clone(), reason: self.reason, limit: self.limit }
    }
}

/// A page token's metadata as object members, in the order `pointer`,
/// `reason`, `limit`.
pub open spec fn token_members(
    pointer: Seq<char>,
    reason: ToolResultOmissionReason,
    limit: usize,
) -> Seq<(Seq<char>, crate::json::Json)> {
    seq![
        ("pointer"@, crate::json::Json::Str(pointer)),
        ("reason"@, crate::json::Json::Str(reason_name(reason))),
        ("limit"@, crate::json::Json::Num(crate::json::JsonNum::PosInt(limit as u64))),
    ]
}

/// The JSON text of a page token's metadata: its members written in order,
/// each key and value as `serde_json` writes them.
pub open spec fn token_json(pointer: Seq<char>, reason: ToolResultOmissionReason, limit: usize) -> Seq<char> {
    crate::json::object_text(token_members(pointer, reason, limit))
}

/// The page token of an omission: `v1:` and the hexadecimal UTF-8 bytes of
/// its metadata JSON.
pub open spec fn page_token_spec(pointer: Seq<char>, reason: ToolResultOmissionReason, limit: usize) -> Seq<char> {
    "v1:"@ + hex_encode(vstd::utf8::encode_utf8(token_json(pointer, reason, limit)))
}

/// The page token of an omission.
pub(crate) fn page_token(pointer: &str, reason: ToolResultOmissionReason, limit: usize) -> (r: String)
    ensures
        r@ == page_token_spec(pointer@, reason, limit),
{
    let key_pointer = crate::json::to_json_text(&crate::json::JsonValue::String(crate::text::owned("pointer")));
    let key_reason = crate::json::to_json_text(&crate::json::JsonValue::String(crate::text::owned("reason")));
    let key_limit = crate::json::to_json_text(&crate::json::JsonValue::String(crate::text::owned("limit")));
    let value_pointer = crate::json::to_json_text(&crate::json::JsonValue::String(crate::text::owned(pointer)));
    let value_reason = crate::json::to_json_text(&crate::json::JsonValue::String(crate::text::owned(reason.name())));
    let value_limit = crate::json::to_json_text(
        &crate::json::JsonValue::Number(crate::json::JsonNumber::PosInt(limit as u64)),
    );
    let first = concat3(key_pointer.as_str(), ":", value_pointer.as_str());
    let second = concat3(key_reason.as_str(), ":", value_reason.as_str());
    let third = concat3(key_limit.as_str(), ":", value_limit.as_str());
    let head = concat3("{", first.as_str(), ",");
    let mid = concat3(head.as_str(), second.as_str(), ",");
    let text = concat3(mid.as_str(), third.as_str(), "}");
    proof {
        reveal_strlit("{");
        reveal_strlit(",");
        reveal_strlit(":");
        reveal_strlit("}");
        let m = token_members(pointer@, reason, limit);
        assert(m.drop_last().drop_last() =~= seq![m[0]]);
        assert(crate::json::members_text(m.drop_last()) == crate::json::members_text(m.drop_last().drop_last()) + ","@
            + crate::json::member_text(m[1].0, m[1].1));
        assert(text@ =~= token_json(pointer@, reason, limit));
    }
    let bytes = text.as_str().as_bytes();
    let hex = encode_hex(bytes);
    let hex_text = crate::text::string_from_chars(hex.as_slice(), 0, hex.len());
    proof {
        reveal_strlit("v1:");
        assert(hex@.subrange(0, hex@.len() as int) =~= hex@);
    }
    concat("v1:", hex_text.as_str())
}

/// `String::from_utf8`.
///
/// Trusted: `std` documents that it returns the string of the bytes when
/// they are valid UTF-8 and an error otherwise; the contract says so over
/// `vstd`'s UTF-8 model.
#[verifier::external_body]
fn string_from_utf8(bytes: Vec<u8>) -> (r: Option<String>)
    ensures
        match r {
            Some(s) => vstd::utf8::valid_utf8(bytes@) && s@ == vstd::utf8::decode_utf8(bytes@),
            None => !vstd::utf8::valid_utf8(bytes@),
        },
{
    String::from_utf8(bytes).ok()
}

/// The reason serialised under `name`.
pub open spec fn reason_named(name: Seq<char>) -> Option<ToolResultOmissionReason> {
    if name == "string_chars"@ {
        Some(ToolResultOmissionReason::StringChars)
    } else if name == "array_items"@ {
        Some(ToolResultOmissionReason::ArrayItems)
    } else if name == "total_bytes"@ {
        Some(ToolResultOmissionReason::TotalBytes)
    } else {
        None
    }
}

/// The reason a JSON value deserialises to: its name as a string, or an
/// object whose one member is the name with `null`.
pub open spec fn json_reason(j: crate::json::Json) -> Option<ToolResultOmissionReason> {
    match j {
        crate::json::Json::Str(n) => reason_named(n),
        crate::json::Json::Obj(m) => if m.len() == 1 && m[0].1 == crate::json::Json::Null {
            reason_named(m[0].0)
        } else {
            None
        },
        _ => None,
    }
}

/// The `usize` a JSON value deserialises to: a non-negative integer that fits.
pub open spec fn json_limit(j: crate::json::Json) -> Option<usize> {
    match j {
        crate::json::Json::Num(crate::json::JsonNum::PosInt(u)) => if u <= usize::MAX {
            Some(u as usize)
        } else {
            None
        },
        _ => None,
    }
}

/// The page-token fields of three JSON values.
pub open spec fn token_parts(
    p: Option<crate::json::Json>,
    r: Option<crate::json::Json>,
    l: Option<crate::json::Json>,
) -> Option<(Seq<char>, ToolResultOmissionReason, usize)> {
    match (p, r, l) {
        (Some(crate::json::Json::Str(ps)), Some(rj), Some(lj)) => match (json_reason(rj), json_limit(lj)) {
            (Some(rr), Some(ll)) => Some((ps, rr, ll)),
            _ => None,
        },
        _ => None,
    }
}

/// The page-token metadata a JSON value deserialises to: an object with the
/// three members (others ignored), or an array of the three values in order.
pub open spec fn token_fields(j: crate::json::Json) -> Option<(Seq<char>, ToolResultOmissionReason, usize)> {
    match j {
        crate::json::Json::Obj(m) => token_parts(
            crate::json::obj_lookup(m, "pointer"@),
            crate::json::obj_lookup(m, "reason"@),
            crate::json::obj_lookup(m, "limit"@),
        ),
        crate::json::Json::Arr(a) => if a.len() == 3 {
            token_parts(Some(a[0]), Some(a[1]), Some(a[2]))
        } else {
            None
        },
        _ => None,
    }
}

/// What decoding a page token gives: strip `v1:`, read the hexadecimal
/// bytes, read them as UTF-8, parse the JSON, and read the three fields.
pub open spec fn decode_token_spec(token: Seq<char>) -> Option<(Seq<char>, ToolResultOmissionReason, usize)> {
    if token.len() < 3 || token.take(3) != "v1:"@ {
        None
    } else {
        match hex_decode(token.skip(3)) {
            None => None,
            Some(b) => if !vstd::utf8::valid_utf8(b) {
                None
            } else {
                match crate::json::parsed_json(vstd::utf8::decode_utf8(b)) {
                    None => None,
                    Some(j) => token_fields(j),
                }
            },
        }
    }
}

/// The reason a JSON value deserialises to.
fn reason_from_json(v: &crate::json::JsonValue) -> (r: Option<ToolResultOmissionReason>)
    ensures
        r == json_reason(v@),
{
    proof {
        reveal_strlit("string_chars");
        reveal_strlit("array_items");
        reveal_strlit("total_bytes");
    }
    let name: &str = match v {
        crate::json::JsonValue::String(s) => s.as_str(),
        crate::json::JsonValue::Object(pairs) => {
            proof {
                crate::json::lemma_object_model(*pairs);
            }
            if pairs.len() == 1 && pairs[0].1.is_null() {
                pairs[0].0.as_str()
            } else {
                return None;
            }
        },
        _ => {
            return None;
        },
    };
    if str_eq(name, "string_chars") {
        Some(ToolResultOmissionReason::StringChars)
    } else if str_eq(name, "array_items") {
        Some(ToolResultOmissionReason::ArrayItems)
    } else if str_eq(name, "total_bytes") {
        Some(ToolResultOmissionReason::TotalBytes)
    } else {
        None
    }
}

/// The `usize` a JSON value deserialises to.
fn limit_from_json(v: &crate::json::JsonValue) -> (r: Option<usize>)
    ensures
        r == json_limit(v@),
{
    match v {
        crate::json::JsonValue::Number(crate::json::JsonNumber::PosInt(u)) => {
            if *u <= usize::MAX as u64 {
                Some(*u as usize)
            } else {
                None
            }
        },
        _ => None,
    }
}

/// The page-token fields of three JSON values.
fn token_from_parts(
    p: Option<&crate::json::JsonValue>,
    r: Option<&crate::json::JsonValue>,
    l: Option<&crate::json::JsonValue>,
) -> (out: Option<ToolResultPageToken>)
    ensures
        match token_parts(
            match p { Some(x) => Some(x@), None => None },
            match r { Some(x) => Some(x@), None => None },
            match l { Some(x) => Some(x@), None => None },
        ) {
            Some((ps, rr, ll)) => out matches Some(t) && t.pointer@ == ps && t.reason == rr && t.limit == ll,
            None => out is None,
        },
{
    match (p, r, l) {
        (Some(crate::json::JsonValue::String(ps)), Some(rj), Some(lj)) => match (reason_from_json(rj), limit_from_json(lj)) {
            (Some(rr), Some(ll)) => Some(ToolResultPageToken { pointer: ps.clone(), reason: rr, limit: ll }),
            _ => None,
        },
        _ => None,
    }
}

/// Decodes a page token produced by this library.
pub fn decode_tool_result_page_token(token: &str) -> (r: Option<ToolResultPageToken>)
    ensures
        match decode_token_spec(token@) {
            Some((p, reason, limit)) => r matches Some(t) && t.pointer@ == p && t.reason == reason && t.limit == limit,
            None => r is None,
        },
        forall|p: Seq<char>, reason: ToolResultOmissionReason, limit: usize|
            #[trigger] page_token_spec(p, reason, limit) == token@ ==> (r matches Some(t) && t.pointer@ == p
                && t.reason == reason && t.limit == limit),
{
    proof {
        assert forall|p: Seq<char>, reason: ToolResultOmissionReason, limit: usize|
            #[trigger] page_token_spec(p, reason, limit) == token@ implies ({
            let bytes = vstd::utf8::encode_utf8(token_json(p, reason, limit));
            &&& token@.len() >= 3
            &&& token@.take(3) == "v1:"@
            &&& hex_decode(token@.skip(3)) == Some(bytes)
            &&& vstd::utf8::valid_utf8(bytes)
            &&& vstd::utf8::decode_utf8(bytes) == token_json(p, reason, limit)
        }) by {
            lemma_token_text(p, reason, limit);
        }
    }
    proof {
        reveal_strlit("v1:");
        reveal_strlit("pointer");
        reveal_strlit("reason");
        reveal_strlit("limit");
    }
    let v = crate::text::chars_of(token);
    if v.len() < 3 || v[0] != 'v' || v[1] != '1' || v[2] != ':' {
        proof {
            if v@.len() >= 3 {
                assert(v@.take(3) != "v1:"@) by {
                    assert("v1:"@[0] == 'v' && "v1:"@[1] == '1' && "v1:"@[2] == ':');
                    if v@.take(3) == "v1:"@ {
                        assert(v@.take(3)[0] == v@[0]);
                        assert(v@.take(3)[1] == v@[1]);
                        assert(v@.take(3)[2] == v@[2]);
                    }
                }
            }
        }
        return None;
    }
    assert(v@.take(3) =~= "v1:"@);
    let rest = crate::text::string_from_chars(v.as_slice(), 3, v.len());
    let rest_chars = crate::text::chars_of(rest.as_str());
    assert(rest_chars@ =~= token@.skip(3));
    let bytes = match decode_hex(rest_chars.as_slice()) {
        Some(b) => b,
        None => {
            return None;
        },
    };
    let text = match string_from_utf8(bytes) {
        Some(t) => t,
        None => {
            return None;
        },
    };
    let parsed = crate::json::parse_json(text.as_str());
    proof {
        assert forall|p: Seq<char>, reason: ToolResultOmissionReason, limit: usize|
            #[trigger] page_token_spec(p, reason, limit) == token@ implies (parsed matches Ok(j)
                && token_fields(j@) == Some((p, reason, limit))) by {
            let m = token_members(p, reason, limit);
            assert(text@ == crate::json::object_text(m));
            assert forall|i: int| 0 <= i < m.len() implies crate::json::reads_back(#[trigger] m[i].1) by {}
            lemma_token_fields(p, reason, limit);
        }
    }
    let json = match parsed {
        Ok(j) => j,
        Err(_) => {
            return None;
        },
    };
    match &json {
        crate::json::JsonValue::Object(_) => token_from_parts(json.get("pointer"), json.get("reason"), json.get("limit")),
        crate::json::JsonValue::Array(items) => {
            proof {
                crate::json::lemma_array_model(*items);
            }
            if items.len() == 3 {
                token_from_parts(Some(&items[0]), Some(&items[1]), Some(&items[2]))
            } else {
                None
            }
        },
        _ => None,
    }
}

/// The token of an omission carries, after `v1:`, the hexadecimal UTF-8
/// bytes of its metadata text.
proof fn lemma_token_text(pointer: Seq<char>, reason: ToolResultOmissionReason, limit: usize)
    ensures
        ({
            let token = page_token_spec(pointer, reason, limit);
            let bytes = vstd::utf8::encode_utf8(token_json(pointer, reason, limit));
            &&& token.len() >= 3
            &&& token.take(3) == "v1:"@
            &&& hex_decode(token.skip(3)) == Some(bytes)
            &&& vstd::utf8::valid_utf8(bytes)
            &&& vstd::utf8::decode_utf8(bytes) == token_json(pointer, reason, limit)
        }),
{
    reveal_strlit("v1:");
    let text = token_json(pointer, reason, limit);
    let bytes = vstd::utf8::encode_utf8(text);
    let token = page_token_spec(pointer, reason, limit);
    assert(token.take(3) =~= "v1:"@);
    assert(token.skip(3) =~= hex_encode(bytes));
    law_hex_roundtrip(bytes);
    vstd::utf8::encode_utf8_valid_utf8(text);
    vstd::utf8::encode_utf8_decode_utf8(text);
}

/// The metadata object, read back into a `serde_json::Map`, holds the
/// pointer, reason and limit it was written from.
proof fn lemma_token_fields(pointer: Seq<char>, reason: ToolResultOmissionReason, limit: usize)
    ensures
        token_fields(
            crate::json::Json::Obj(crate::json::insert_members(token_members(pointer, reason, limit), 0, Seq::empty())),
        ) == Some((pointer, reason, limit)),
{
    reveal_strlit("pointer");
    reveal_strlit("reason");
    reveal_strlit("limit");
    reveal_strlit("string_chars");
    reveal_strlit("array_items");
    reveal_strlit("total_bytes");
    let m = token_members(pointer, reason, limit);
    let e = Seq::<(Seq<char>, crate::json::Json)>::empty();
    let a0 = crate::json::obj_insert(e, m[0].0, m[0].1);
    assert(a0 == seq![m[0]]);
    let a1 = crate::json::obj_insert(a0, m[1].0, m[1].1);
    assert("pointer"@ != "reason"@) by {
        assert("pointer"@[0] != "reason"@[0]);
    }
    assert(!crate::json::seq_lt("reason"@, "pointer"@));
    assert(crate::json::obj_insert(a0.drop_first(), m[1].0, m[1].1) == seq![m[1]]);
    assert(a1 =~= seq![m[0], m[1]]);
    let a2 = crate::json::obj_insert(a1, m[2].0, m[2].1);
    assert("pointer"@ != "limit"@) by {
        assert("pointer"@[0] != "limit"@[0]);
    }
    assert(crate::json::seq_lt("limit"@, "pointer"@));
    assert(a2 =~= seq![m[2], m[0], m[1]]);
    assert(crate::json::insert_members(m, 3, a2) == a2);
    assert(crate::json::insert_members(m, 2, a1) == a2);
    assert(crate::json::insert_members(m, 1, a0) == a2);
    assert(crate::json::insert_members(m, 0, e) == a2);
    assert("limit"@ != "reason"@) by {
        assert("limit"@[0] != "reason"@[0]);
    }
    assert(crate::json::obj_lookup(a2, "pointer"@) == Some(m[0].1)) by {
        assert(a2[0].0 == "limit"@);
        assert(a2.drop_first() =~= seq![m[0], m[1]]);
        assert(crate::json::obj_lookup(a2.drop_first(), "pointer"@) == Some(m[0].1));
    }
    assert(crate::json::obj_lookup(a2, "reason"@) == Some(m[1].1)) by {
        let t1 = a2.drop_first();
        let t2 = t1.drop_first();
        assert(t1 =~= seq![m[0], m[1]]);
        assert(t2 =~= seq![m[1]]);
        assert(t2[0].0 == "reason"@);
        assert(crate::json::obj_lookup(t2, "reason"@) == Some(m[1].1));
        assert(t1[0].0 == "pointer"@);
        assert(crate::json::obj_lookup(t1, "reason"@) == Some(m[1].1));
        assert(a2[0].0 == "limit"@);
    }
    assert("array_items"@.len() != "string_chars"@.len());
    assert("total_bytes"@.len() != "string_chars"@.len());
    assert("total_bytes"@[0] != "array_items"@[0]);
    assert(reason_named(reason_name(reason)) == Some(reason));
}
} // verus!
