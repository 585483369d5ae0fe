//! [`ToolResultEnvelope`]: a tool result bounded for a model turn.
//!
//! Bounding runs in two passes. The first walks the payload: a value whose
//! pointer the redaction policy covers is replaced; a longer string keeps its
//! first `max_string_chars` characters; a longer array keeps its first
//! `max_array_items` items. The second pass enforces `max_total_bytes` on the
//! serialised payload: members, items or characters of the top-level value
//! are kept in order while the serialised value still fits. Every omission
//! is recorded with a continuation token.

use vstd::prelude::*;

use crate::json::{lemma_array_model, lemma_object_model, models, pair_models, Json, JsonValue};
use crate::text::decimal;
use crate::tool::{
    child_pointer_spec, page_token_spec, replacement_spec, OmittedSegment, RedactionPolicy,
    ToolResultOmissionReason,
};

verus! {

/// Limits for bounding large tool results.
#[derive(Debug, Clone, PartialEq, Eq)]
pub struct ToolResultEnvelopeConfig {
    /// Maximum characters retained for any string value.
    pub max_string_chars: usize,
    /// Maximum items retained for any array value.
    pub max_array_items: usize,
    /// Maximum serialized bytes retained for the entire bounded payload.
    pub max_total_bytes: usize,
    /// Optional redaction policy applied before size bounding.
    pub redaction: Option<RedactionPolicy>,
}

impl Default for ToolResultEnvelopeConfig {
    fn default() -> (r: ToolResultEnvelopeConfig)
        ensures
            r.max_string_chars == 4000,
            r.max_array_items == 64,
            r.max_total_bytes == 256000,
            r.redaction is None,
    {
        ToolResultEnvelopeConfig { max_string_chars: 4000, max_array_items: 64, max_total_bytes: 256000, redaction: None }
    }
}

impl ToolResultEnvelopeConfig {
    /// A config with a string character limit and otherwise default limits.
    pub fn new(max_string_chars: usize) -> (r: ToolResultEnvelopeConfig)
        ensures
            r.max_string_chars == max_string_chars,
            r.max_array_items == 64,
            r.max_total_bytes == 256000,
            r.redaction is None,
    {
        ToolResultEnvelopeConfig { max_string_chars, max_array_items: 64, max_total_bytes: 256000, redaction: None }
    }

    /// Sets the maximum retained array items.
    pub fn with_max_array_items(self, max_array_items: usize) -> (r: ToolResultEnvelopeConfig)
        ensures
            r == (ToolResultEnvelopeConfig { max_array_items, ..self }),
    {
        ToolResultEnvelopeConfig { max_array_items, ..self }
    }

    /// Sets the maximum serialized bytes retained for the whole payload.
    pub fn with_max_total_bytes(self, max_total_bytes: usize) -> (r: ToolResultEnvelopeConfig)
        ensures
            r == (ToolResultEnvelopeConfig { max_total_bytes, ..self }),
    {
        ToolResultEnvelopeConfig { max_total_bytes, ..self }
    }

    /// Sets the redaction policy applied before truncation and total bounding.
    pub fn with_redaction_policy(self, redaction: RedactionPolicy) -> (r: ToolResultEnvelopeConfig)
        ensures
            r == (ToolResultEnvelopeConfig { redaction: Some(redaction), ..self }),
    {
        ToolResultEnvelopeConfig { redaction: Some(redaction), ..self }
    }
}

/// The running account of a bounding pass: counts of what was omitted or
/// redacted, and each omission as (pointer, reason, limit), in order.
pub struct Tally {
    pub chars: usize,
    pub items: usize,
    pub values: usize,
    pub redacted: usize,
    pub segments: Seq<(Seq<char>, ToolResultOmissionReason, usize)>,
}

/// Nothing omitted yet.
pub open spec fn empty_tally() -> Tally {
    Tally { chars: 0, items: 0, values: 0, redacted: 0, segments: Seq::empty() }
}

/// `t` with one more omission recorded.
pub open spec fn record(t: Tally, pointer: Seq<char>, reason: ToolResultOmissionReason, limit: usize) -> Tally {
    Tally { segments: t.segments.push((pointer, reason, limit)), ..t }
}

/// A string bounded to `max_string_chars` characters.
pub open spec fn bound_string_spec(text: Seq<char>, cfg: ToolResultEnvelopeConfig, t: Tally, pointer: Seq<char>) -> (Json, Tally) {
    let max = cfg.max_string_chars;
    if text.len() <= max {
        (Json::Str(text), t)
    } else {
        let t1 = Tally { chars: t.chars.saturating_add((text.len() - max) as usize), ..t };
        (Json::Str(text.take(max as int)), record(t1, pointer, ToolResultOmissionReason::StringChars, max))
    }
}

/// The first pass on the value at `pointer`: redaction, then the string and
/// array limits, recursively.
pub open spec fn bound_value_spec(v: Json, cfg: ToolResultEnvelopeConfig, t: Tally, pointer: Seq<char>) -> (Json, Tally)
    decreases v, 0nat,
{
    let redacted = match cfg.redaction {
        Some(p) => replacement_spec(p, pointer),
        None => None,
    };
    match redacted {
        Some(rep) => (Json::Str(rep), Tally { redacted: t.redacted.saturating_add(1), ..t }),
        None => match v {
            Json::Str(s) => bound_string_spec(s, cfg, t, pointer),
            Json::Arr(items) => {
                let max = cfg.max_array_items;
                let t1 = if items.len() > max {
                    record(
                        Tally { items: t.items.saturating_add((items.len() - max) as usize), ..t },
                        pointer,
                        ToolResultOmissionReason::ArrayItems,
                        max,
                    )
                } else {
                    t
                };
                let n = if items.len() > max { max as nat } else { items.len() };
                bound_items_spec(items, cfg, t1, pointer, 0, n, Seq::empty())
            },
            Json::Obj(m) => bound_members_spec(m, cfg, t, pointer, 0, Seq::empty()),
            _ => (v, t),
        },
    }
}

/// The first pass on items `i..n` of an array, `acc` the items bounded so far.
pub open spec fn bound_items_spec(
    items: Seq<Json>,
    cfg: ToolResultEnvelopeConfig,
    t: Tally,
    pointer: Seq<char>,
    i: nat,
    n: nat,
    acc: Seq<Json>,
) -> (Json, Tally)
    decreases items, n - i,
{
    if i >= n || i >= items.len() {
        (Json::Arr(acc), t)
    } else {
        let (x, t2) = bound_value_spec(items[i as int], cfg, t, child_pointer_spec(pointer, decimal(i)));
        bound_items_spec(items, cfg, t2, pointer, i + 1, n, acc.push(x))
    }
}

/// The first pass on members `i..` of an object, `acc` the members bounded so far.
pub open spec fn bound_members_spec(
    m: Seq<(Seq<char>, Json)>,
    cfg: ToolResultEnvelopeConfig,
    t: Tally,
    pointer: Seq<char>,
    i: nat,
    acc: Seq<(Seq<char>, Json)>,
) -> (Json, Tally)
    decreases m, m.len() - i,
{
    if i >= m.len() {
        (Json::Obj(acc), t)
    } else {
        proof {
            assert(decreases_to!(m => m[i as int]));
            assert(decreases_to!(m[i as int] => m[i as int].1));
        }
        let (x, t2) = bound_value_spec(m[i as int].1, cfg, t, child_pointer_spec(pointer, m[i as int].0));
        bound_members_spec(m, cfg, t2, pointer, i + 1, acc.push((m[i as int].0, x)))
    }
}

/// The bookkeeping of a bounding pass.
struct EnvelopeState {
    omitted_chars: usize,
    omitted_items: usize,
    omitted_values: usize,
    redacted_values: usize,
    omitted_segments: Vec<OmittedSegment>,
    page_token: Option<String>,
}

/// The segment recorded for an omission.
pub open spec fn segment_of(s: (Seq<char>, ToolResultOmissionReason, usize), seg: OmittedSegment) -> bool {
    &&& seg.pointer@ == s.0
    &&& seg.reason == s.1
    &&& seg.page_token@ == page_token_spec(s.0, s.1, s.2)
}

/// The token of the first omission, if any.
pub open spec fn first_token(t: Tally, token: Option<String>) -> bool {
    if t.segments.len() == 0 {
        token is None
    } else {
        token matches Some(x) && x@ == page_token_spec(t.segments[0].0, t.segments[0].1, t.segments[0].2)
    }
}

spec fn holds(st: EnvelopeState, t: Tally) -> bool {
    &&& st.omitted_chars == t.chars
    &&& st.omitted_items == t.items
    &&& st.omitted_values == t.values
    &&& st.redacted_values == t.redacted
    &&& st.omitted_segments@.len() == t.segments.len()
    &&& forall|k: int| 0 <= k < t.segments.len() ==> segment_of(t.segments[k], #[trigger] st.omitted_segments@[k])
    &&& first_token(t, st.page_token)
}

impl EnvelopeState {
    fn new() -> (r: EnvelopeState)
        ensures
            holds(r, empty_tally()),
    {
        EnvelopeState {
            omitted_chars: 0,
            omitted_items: 0,
            omitted_values: 0,
            redacted_values: 0,
            omitted_segments: Vec::new(),
            page_token: None,
        }
    }

    fn record_omission(&mut self, pointer: &str, reason: ToolResultOmissionReason, limit: usize, Ghost(t): Ghost<Tally>)
        requires
            holds(*old(self), t),
        ensures
            holds(*final(self), record(t, pointer@, reason, limit)),
    {
        let token = crate::tool::page_token(pointer, reason, limit);
        if self.page_token.is_none() {
            self.page_token = Some(token.clone());
        }
        self.omitted_segments.push(OmittedSegment { pointer: crate::text::owned(pointer), reason, page_token: token });
        proof {
            let t2 = record(t, pointer@, reason, limit);
            assert forall|k: int| 0 <= k < t2.segments.len() implies segment_of(t2.segments[k], #[trigger] self.omitted_segments@[k]) by {
                if k < t.segments.len() {
                    assert(t2.segments[k] == t.segments[k]);
                }
            }
        }
    }
}


/// The first pass on a string.
fn bound_string(text: &str, cfg: &ToolResultEnvelopeConfig, st: &mut EnvelopeState, pointer: &str, Ghost(t): Ghost<Tally>) -> (r: JsonValue)
    requires
        holds(*old(st), t),
    ensures
        r@ == bound_string_spec(text@, *cfg, t, pointer@).0,
        holds(*final(st), bound_string_spec(text@, *cfg, t, pointer@).1),
{
    let v = crate::text::chars_of(text);
    let total = v.len();
    let max = cfg.max_string_chars;
    if total <= max {
        return JsonValue::String(crate::text::owned(text));
    }
    st.omitted_chars = st.omitted_chars.saturating_add(total - max);
    let ghost t1 = Tally { chars: t.chars.saturating_add((total - max) as usize), ..t };
    st.record_omission(pointer, ToolResultOmissionReason::StringChars, max, Ghost(t1));
    let kept = crate::text::string_from_chars(v.as_slice(), 0, max);
    assert(v@.subrange(0, max as int) =~= text@.take(max as int));
    JsonValue::String(kept)
}

/// The first pass on the value at `pointer`.
fn bound_value(v: &JsonValue, cfg: &ToolResultEnvelopeConfig, st: &mut EnvelopeState, pointer: &str, Ghost(t): Ghost<Tally>) -> (r: JsonValue)
    requires
        holds(*old(st), t),
    ensures
        r@ == bound_value_spec(v@, *cfg, t, pointer@).0,
        holds(*final(st), bound_value_spec(v@, *cfg, t, pointer@).1),
    decreases v,
{
    if let Some(policy) = &cfg.redaction {
        if let Some(replacement) = policy.replacement_for(pointer) {
            st.redacted_values = st.redacted_values.saturating_add(1);
            return JsonValue::String(replacement);
        }
    }
    match v {
        JsonValue::String(s) => bound_string(s.as_str(), cfg, st, pointer, Ghost(t)),
        JsonValue::Array(items) => {
            proof {
                lemma_array_model(*items);
            }
            let ghost ms = models(items@);
            let max = cfg.max_array_items;
            let len = items.len();
            let ghost t1 = if items@.len() > max {
                record(
                    Tally { items: t.items.saturating_add((items@.len() - max) as usize), ..t },
                    pointer@,
                    ToolResultOmissionReason::ArrayItems,
                    max,
                )
            } else {
                t
            };
            if len > max {
                st.omitted_items = st.omitted_items.saturating_add(len - max);
                let ghost tc = Tally { items: t.items.saturating_add((len - max) as usize), ..t };
                st.record_omission(pointer, ToolResultOmissionReason::ArrayItems, max, Ghost(tc));
            }
            let n = if len > max { max } else { len };
            let mut out: Vec<JsonValue> = Vec::new();
            let mut i: usize = 0;
            let ghost mut tc = t1;
            assert(models(out@) =~= Seq::<Json>::empty());
            while i < n
                invariant
                    i <= n,
                    n <= items@.len(),
                    ms == models(items@),
                    *v == JsonValue::Array(*items),
                    holds(*st, tc),
                    bound_items_spec(ms, *cfg, tc, pointer@, i as nat, n as nat, models(out@))
                        == bound_items_spec(ms, *cfg, t1, pointer@, 0, n as nat, Seq::empty()),
                decreases n - i,
            {
                assert(decreases_to!(*v => (*v)->Array_0));
                assert(decreases_to!(*items => items@));
                assert(decreases_to!(items@ => items@[i as int]));
                let idx = crate::text::decimal_string(i as u64);
                let child = crate::tool::child_pointer(pointer, idx.as_str());
                let ghost before = out@;
                let x = bound_value(&items[i], cfg, st, child.as_str(), Ghost(tc));
                proof {
                    tc = bound_value_spec(ms[i as int], *cfg, tc, child@).1;
                }
                out.push(x);
                assert(models(out@) =~= models(before).push(x@));
                i = i + 1;
            }
            proof {
                lemma_array_model(out);
            }
            JsonValue::Array(out)
        },
        JsonValue::Object(pairs) => {
            proof {
                lemma_object_model(*pairs);
            }
            let ghost pm = pair_models(pairs@);
            let mut out: Vec<(String, JsonValue)> = Vec::new();
            let mut i: usize = 0;
            let ghost mut tc = t;
            assert(pair_models(out@) =~= Seq::<(Seq<char>, Json)>::empty());
            while i < pairs.len()
                invariant
                    i <= pairs@.len(),
                    pm == pair_models(pairs@),
                    *v == JsonValue::Object(*pairs),
                    holds(*st, tc),
                    bound_members_spec(pm, *cfg, tc, pointer@, i as nat, pair_models(out@))
                        == bound_members_spec(pm, *cfg, t, pointer@, 0, Seq::empty()),
                decreases pairs@.len() - i,
            {
                assert(decreases_to!(*v => (*v)->Object_0));
                assert(decreases_to!(*pairs => pairs@));
                assert(decreases_to!(pairs@ => pairs@[i as int]));
                assert(decreases_to!(pairs@[i as int] => pairs@[i as int].1));
                let child = crate::tool::child_pointer(pointer, pairs[i].0.as_str());
                let ghost before = out@;
                let x = bound_value(&pairs[i].1, cfg, st, child.as_str(), Ghost(tc));
                proof {
                    tc = bound_value_spec(pm[i as int].1, *cfg, tc, child@).1;
                }
                let key = pairs[i].0.clone();
                out.push((key, x));
                assert(pair_models(out@) =~= pair_models(before).push((pm[i as int].0, x@)));
                i = i + 1;
            }
            proof {
                lemma_object_model(out);
            }
            JsonValue::Object(out)
        },
        JsonValue::Null => JsonValue::Null,
        JsonValue::Bool(b) => JsonValue::Bool(*b),
        JsonValue::Number(n) => JsonValue::Number(n.copy()),
    }
}

/// The length in bytes of a value's compact JSON text, as `str::len`
/// reports it.
pub open spec fn serialized_size(v: Json) -> usize {
    vstd::utf8::encode_utf8(crate::json::json_text(v)).len() as usize
}

/// The length in bytes of a value's compact JSON text.
fn serialized_len(v: &JsonValue) -> (r: usize)
    ensures
        r == serialized_size(v@),
{
    let text = crate::json::to_json_text(v);
    crate::json::utf8_len(text.as_str())
}

/// The total pass on members `i..` of the top-level object: a member is
/// kept while the object of the kept members and it still fits.
pub open spec fn total_members_spec(
    m: Seq<(Seq<char>, Json)>,
    cfg: ToolResultEnvelopeConfig,
    t: Tally,
    pointer: Seq<char>,
    i: nat,
    kept: Seq<(Seq<char>, Json)>,
) -> (Json, Tally)
    decreases m.len() - i,
{
    if i >= m.len() {
        (Json::Obj(kept), t)
    } else {
        let candidate = kept.push(m[i as int]);
        if serialized_size(Json::Obj(candidate)) <= cfg.max_total_bytes {
            total_members_spec(m, cfg, t, pointer, i + 1, candidate)
        } else {
            let t1 = record(
                Tally { values: t.values.saturating_add(1), ..t },
                child_pointer_spec(pointer, m[i as int].0),
                ToolResultOmissionReason::TotalBytes,
                cfg.max_total_bytes,
            );
            total_members_spec(m, cfg, t1, pointer, i + 1, kept)
        }
    }
}

/// The total pass on items `i..` of the top-level array: an item is kept
/// while the array of the kept items and it still fits.
pub open spec fn total_items_spec(
    a: Seq<Json>,
    cfg: ToolResultEnvelopeConfig,
    t: Tally,
    pointer: Seq<char>,
    i: nat,
    kept: Seq<Json>,
) -> (Json, Tally)
    decreases a.len() - i,
{
    if i >= a.len() {
        (Json::Arr(kept), t)
    } else {
        let candidate = kept.push(a[i as int]);
        if serialized_size(Json::Arr(candidate)) <= cfg.max_total_bytes {
            total_items_spec(a, cfg, t, pointer, i + 1, candidate)
        } else {
            let t1 = record(
                Tally { items: t.items.saturating_add(1), ..t },
                child_pointer_spec(pointer, decimal(i)),
                ToolResultOmissionReason::ArrayItems,
                cfg.max_total_bytes,
            );
            total_items_spec(a, cfg, t1, pointer, i + 1, kept)
        }
    }
}

/// The total pass on characters `i..` of the top-level string: a character
/// is kept while the string of the kept characters and it still fits.
pub open spec fn total_chars_spec(s: Seq<char>, cfg: ToolResultEnvelopeConfig, t: Tally, i: nat, kept: Seq<char>) -> (Seq<char>, Tally)
    decreases s.len() - i,
{
    if i >= s.len() {
        (kept, t)
    } else {
        let candidate = kept.push(s[i as int]);
        if serialized_size(Json::Str(candidate)) <= cfg.max_total_bytes {
            total_chars_spec(s, cfg, t, i + 1, candidate)
        } else {
            total_chars_spec(s, cfg, Tally { chars: t.chars.saturating_add(1), ..t }, i + 1, kept)
        }
    }
}

/// The total pass on the top-level value at `pointer`.
pub open spec fn bound_total_spec(v: Json, cfg: ToolResultEnvelopeConfig, t: Tally, pointer: Seq<char>) -> (Json, Tally) {
    let max = cfg.max_total_bytes;
    if serialized_size(v) <= max {
        (v, t)
    } else {
        match v {
            Json::Obj(m) => total_members_spec(m, cfg, t, pointer, 0, Seq::empty()),
            Json::Arr(a) => total_items_spec(a, cfg, t, pointer, 0, Seq::empty()),
            Json::Str(s) => {
                let (kept, t1) = total_chars_spec(s, cfg, t, 0, Seq::empty());
                if kept.len() < s.len() {
                    (Json::Str(kept), record(t1, pointer, ToolResultOmissionReason::TotalBytes, max))
                } else {
                    (Json::Str(kept), t1)
                }
            },
            _ => (v, record(Tally { values: t.values.saturating_add(1), ..t }, pointer, ToolResultOmissionReason::TotalBytes, max)),
        }
    }
}

/// The total pass on the top-level object.
fn total_members(
    pairs: &Vec<(String, JsonValue)>,
    cfg: &ToolResultEnvelopeConfig,
    st: &mut EnvelopeState,
    pointer: &str,
    Ghost(t): Ghost<Tally>,
) -> (r: JsonValue)
    requires
        holds(*old(st), t),
    ensures
        r@ == total_members_spec(pair_models(pairs@), *cfg, t, pointer@, 0, Seq::empty()).0,
        holds(*final(st), total_members_spec(pair_models(pairs@), *cfg, t, pointer@, 0, Seq::empty()).1),
{
    let ghost pm = pair_models(pairs@);
    let mut kept: Vec<(String, JsonValue)> = Vec::new();
    let mut i: usize = 0;
    let ghost mut tc = t;
    assert(pair_models(kept@) =~= Seq::<(Seq<char>, Json)>::empty());
    while i < pairs.len()
        invariant
            i <= pairs@.len(),
            pm == pair_models(pairs@),
            holds(*st, tc),
            total_members_spec(pm, *cfg, tc, pointer@, i as nat, pair_models(kept@))
                == total_members_spec(pm, *cfg, t, pointer@, 0, Seq::empty()),
        decreases pairs@.len() - i,
    {
        let mut candidate: Vec<(String, JsonValue)> = Vec::new();
        let mut j: usize = 0;
        while j < kept.len()
            invariant
                j <= kept@.len(),
                pair_models(candidate@) == pair_models(kept@).take(j as int),
            decreases kept@.len() - j,
        {
            let ghost before = candidate@;
            candidate.push((kept[j].0.clone(), kept[j].1.deep_clone()));
            assert(pair_models(candidate@) =~= pair_models(before).push(pair_models(kept@)[j as int]));
            assert(pair_models(kept@).take(j + 1) =~= pair_models(kept@).take(j as int).push(pair_models(kept@)[j as int]));
            j = j + 1;
        }
        assert(pair_models(kept@).take(kept@.len() as int) =~= pair_models(kept@));
        let ghost before = candidate@;
        candidate.push((pairs[i].0.clone(), pairs[i].1.deep_clone()));
        assert(pair_models(candidate@) =~= pair_models(kept@).push(pm[i as int]));
        let cand_value = JsonValue::Object(candidate);
        proof {
            lemma_object_model(candidate);
        }
        if serialized_len(&cand_value) <= cfg.max_total_bytes {
            kept = match cand_value {
                JsonValue::Object(c) => c,
                _ => {
                    proof {
                        assert(false);
                    }
                    Vec::new()
                },
            };
        } else {
            st.omitted_values = st.omitted_values.saturating_add(1);
            let child = crate::tool::child_pointer(pointer, pairs[i].0.as_str());
            let ghost t1 = Tally { values: tc.values.saturating_add(1), ..tc };
            st.record_omission(child.as_str(), ToolResultOmissionReason::TotalBytes, cfg.max_total_bytes, Ghost(t1));
            proof {
                tc = record(t1, child@, ToolResultOmissionReason::TotalBytes, cfg.max_total_bytes);
            }
        }
        i = i + 1;
    }
    proof {
        lemma_object_model(kept);
    }
    JsonValue::Object(kept)
}

/// The total pass on the top-level array.
fn total_items(items: &Vec<JsonValue>, cfg: &ToolResultEnvelopeConfig, st: &mut EnvelopeState, pointer: &str, Ghost(t): Ghost<Tally>) -> (r: JsonValue)
    requires
        holds(*old(st), t),
    ensures
        r@ == total_items_spec(models(items@), *cfg, t, pointer@, 0, Seq::empty()).0,
        holds(*final(st), total_items_spec(models(items@), *cfg, t, pointer@, 0, Seq::empty()).1),
{
    let ghost ms = models(items@);
    let mut kept: Vec<JsonValue> = Vec::new();
    let mut i: usize = 0;
    let ghost mut tc = t;
    assert(models(kept@) =~= Seq::<Json>::empty());
    while i < items.len()
        invariant
            i <= items@.len(),
            ms == models(items@),
            holds(*st, tc),
            total_items_spec(ms, *cfg, tc, pointer@, i as nat, models(kept@))
                == total_items_spec(ms, *cfg, t, pointer@, 0, Seq::empty()),
        decreases items@.len() - i,
    {
        let mut candidate: Vec<JsonValue> = Vec::new();
        let mut j: usize = 0;
        while j < kept.len()
            invariant
                j <= kept@.len(),
                models(candidate@) == models(kept@).take(j as int),
            decreases kept@.len() - j,
        {
            let ghost before = candidate@;
            candidate.push(kept[j].deep_clone());
            assert(models(candidate@) =~= models(before).push(models(kept@)[j as int]));
            assert(models(kept@).take(j + 1) =~= models(kept@).take(j as int).push(models(kept@)[j as int]));
            j = j + 1;
        }
        assert(models(kept@).take(kept@.len() as int) =~= models(kept@));
        candidate.push(items[i].deep_clone());
        assert(models(candidate@) =~= models(kept@).push(ms[i as int]));
        let cand_value = JsonValue::Array(candidate);
        proof {
            lemma_array_model(candidate);
        }
        if serialized_len(&cand_value) <= cfg.max_total_bytes {
            kept = match cand_value {
                JsonValue::Array(c) => c,
                _ => {
                    proof {
                        assert(false);
                    }
                    Vec::new()
                },
            };
        } else {
            st.omitted_items = st.omitted_items.saturating_add(1);
            let idx = crate::text::decimal_string(i as u64);
            let child = crate::tool::child_pointer(pointer, idx.as_str());
            let ghost t1 = Tally { items: tc.items.saturating_add(1), ..tc };
            st.record_omission(child.as_str(), ToolResultOmissionReason::ArrayItems, cfg.max_total_bytes, Ghost(t1));
            proof {
                tc = record(t1, child@, ToolResultOmissionReason::ArrayItems, cfg.max_total_bytes);
            }
        }
        i = i + 1;
    }
    proof {
        lemma_array_model(kept);
    }
    JsonValue::Array(kept)
}

/// The total pass on the top-level string.
fn total_string(text: &str, cfg: &ToolResultEnvelopeConfig, st: &mut EnvelopeState, pointer: &str, Ghost(t): Ghost<Tally>) -> (r: JsonValue)
    requires
        holds(*old(st), t),
    ensures
        ({
            let (kept, t1) = total_chars_spec(text@, *cfg, t, 0, Seq::empty());
            &&& r@ == Json::Str(kept)
            &&& holds(*final(st), if kept.len() < text@.len() {
                record(t1, pointer@, ToolResultOmissionReason::TotalBytes, cfg.max_total_bytes)
            } else {
                t1
            })
        }),
{
    let v = crate::text::chars_of(text);
    let mut kept: Vec<char> = Vec::new();
    let mut i: usize = 0;
    let ghost mut tc = t;
    while i < v.len()
        invariant
            i <= v@.len(),
            v@ == text@,
            kept@.len() <= i,
            holds(*st, tc),
            total_chars_spec(v@, *cfg, tc, i as nat, kept@) == total_chars_spec(v@, *cfg, t, 0, Seq::empty()),
        decreases v@.len() - i,
    {
        let mut cand = kept.clone();
        cand.push(v[i]);
        let cand_text = crate::text::string_from_chars(cand.as_slice(), 0, cand.len());
        assert(cand@.subrange(0, cand@.len() as int) =~= kept@.push(v@[i as int]));
        let cand_value = JsonValue::String(cand_text);
        if serialized_len(&cand_value) <= cfg.max_total_bytes {
            kept = cand;
        } else {
            st.omitted_chars = st.omitted_chars.saturating_add(1);
            proof {
                tc = Tally { chars: tc.chars.saturating_add(1), ..tc };
            }
        }
        i = i + 1;
    }
    let ghost res = total_chars_spec(v@, *cfg, tc, i as nat, kept@);
    assert(res == (kept@, tc));
    if kept.len() < v.len() {
        st.record_omission(pointer, ToolResultOmissionReason::TotalBytes, cfg.max_total_bytes, Ghost(tc));
    }
    let out = crate::text::string_from_chars(kept.as_slice(), 0, kept.len());
    assert(kept@.subrange(0, kept@.len() as int) =~= kept@);
    JsonValue::String(out)
}

/// The total pass on the top-level value at `pointer`.
fn bound_total_bytes(v: JsonValue, cfg: &ToolResultEnvelopeConfig, st: &mut EnvelopeState, pointer: &str, Ghost(t): Ghost<Tally>) -> (r: JsonValue)
    requires
        holds(*old(st), t),
    ensures
        r@ == bound_total_spec(v@, *cfg, t, pointer@).0,
        holds(*final(st), bound_total_spec(v@, *cfg, t, pointer@).1),
{
    if serialized_len(&v) <= cfg.max_total_bytes {
        return v;
    }
    match &v {
        JsonValue::Object(pairs) => {
            proof {
                lemma_object_model(*pairs);
            }
            total_members(pairs, cfg, st, pointer, Ghost(t))
        },
        JsonValue::Array(items) => {
            proof {
                lemma_array_model(*items);
            }
            total_items(items, cfg, st, pointer, Ghost(t))
        },
        JsonValue::String(s) => total_string(s.as_str(), cfg, st, pointer, Ghost(t)),
        _ => {
            st.omitted_values = st.omitted_values.saturating_add(1);
            let ghost t1 = Tally { values: t.values.saturating_add(1), ..t };
            st.record_omission(pointer, ToolResultOmissionReason::TotalBytes, cfg.max_total_bytes, Ghost(t1));
            v
        },
    }
}

/// Tool result plus deterministic truncation metadata.
#[derive(Debug, PartialEq)]
pub struct ToolResultEnvelope {
    /// Possibly bounded result payload.
    pub payload: JsonValue,
    /// Whether any value was truncated or omitted.
    pub truncated: bool,
    /// Total string characters omitted while bounding the payload.
    pub omitted_chars: usize,
    /// Total array items omitted while bounding the payload.
    pub omitted_items: usize,
    /// Total whole values omitted while enforcing the total byte budget.
    pub omitted_values: usize,
    /// Total values replaced by the redaction policy.
    pub redacted_values: usize,
    /// Every omitted segment recorded during bounding.
    pub omitted_segments: Vec<OmittedSegment>,
    /// Follow-up token describing the first omitted segment.
    pub page_token: Option<String>,
}

/// Both passes on a payload, from an empty tally at the root pointer `""`.
pub open spec fn bound_spec(payload: Json, cfg: ToolResultEnvelopeConfig) -> (Json, Tally) {
    let (first, t1) = bound_value_spec(payload, cfg, empty_tally(), Seq::empty());
    bound_total_spec(first, cfg, t1, Seq::empty())
}

/// `e` reports payload `j` and the omissions of `t`: `truncated` exactly
/// when a character, item or value was omitted, each omission as a segment
/// with its token, and the first segment's token as the page token.
pub open spec fn envelope_of(e: ToolResultEnvelope, j: Json, t: Tally) -> bool {
    &&& e.payload@ == j
    &&& e.truncated == (t.chars > 0 || t.items > 0 || t.values > 0)
    &&& e.omitted_chars == t.chars
    &&& e.omitted_items == t.items
    &&& e.omitted_values == t.values
    &&& e.redacted_values == t.redacted
    &&& e.omitted_segments@.len() == t.segments.len()
    &&& forall|k: int| 0 <= k < t.segments.len() ==> segment_of(t.segments[k], #[trigger] e.omitted_segments@[k])
    &&& first_token(t, e.page_token)
}

/// The default limits.
pub open spec fn default_config() -> ToolResultEnvelopeConfig {
    ToolResultEnvelopeConfig { max_string_chars: 4000, max_array_items: 64, max_total_bytes: 256000, redaction: None }
}

impl ToolResultEnvelope {
    /// Bounds `payload` according to `config` and reports what was omitted.
    pub fn bound(payload: JsonValue, config: &ToolResultEnvelopeConfig) -> (r: ToolResultEnvelope)
        ensures
            envelope_of(r, bound_spec(payload@, *config).0, bound_spec(payload@, *config).1),
    {
        let mut st = EnvelopeState::new();
        let first = bound_value(&payload, config, &mut st, "", Ghost(empty_tally()));
        let ghost t1 = bound_value_spec(payload@, *config, empty_tally(), ""@).1;
        proof {
            reveal_strlit("");
            assert(""@ =~= Seq::<char>::empty());
        }
        let bounded = bound_total_bytes(first, config, &mut st, "", Ghost(t1));
        ToolResultEnvelope {
            payload: bounded,
            truncated: st.omitted_chars > 0 || st.omitted_items > 0 || st.omitted_values > 0,
            omitted_chars: st.omitted_chars,
            omitted_items: st.omitted_items,
            omitted_values: st.omitted_values,
            redacted_values: st.redacted_values,
            omitted_segments: st.omitted_segments,
            page_token: st.page_token,
        }
    }
}

/// Bounds `payload` with the default limits.
pub fn bound_tool_result(payload: JsonValue) -> (r: ToolResultEnvelope)
    ensures
        envelope_of(r, bound_spec(payload@, default_config()).0, bound_spec(payload@, default_config()).1),
{
    let config = ToolResultEnvelopeConfig::default();
    ToolResultEnvelope::bound(payload, &config)
}

/// Every string of `v` within `max_string_chars` and every array within
/// `max_array_items`.
pub open spec fn within_limits(v: Json, cfg: ToolResultEnvelopeConfig) -> bool
    decreases v, 0nat,
{
    match v {
        Json::Str(s) => s.len() <= cfg.max_string_chars,
        Json::Arr(a) => a.len() <= cfg.max_array_items && items_within_limits(a, cfg, 0),
        Json::Obj(m) => members_within_limits(m, cfg, 0),
        _ => true,
    }
}

/// Items `i..` of an array within the limits.
pub open spec fn items_within_limits(a: Seq<Json>, cfg: ToolResultEnvelopeConfig, i: nat) -> bool
    decreases a, a.len() - i,
{
    if i >= a.len() {
        true
    } else {
        within_limits(a[i as int], cfg) && items_within_limits(a, cfg, i + 1)
    }
}

/// Members `i..` of an object within the limits.
pub open spec fn members_within_limits(m: Seq<(Seq<char>, Json)>, cfg: ToolResultEnvelopeConfig, i: nat) -> bool
    decreases m, m.len() - i,
{
    if i >= m.len() {
        true
    } else {
        proof {
            assert(decreases_to!(m => m[i as int]));
            assert(decreases_to!(m[i as int] => m[i as int].1));
        }
        within_limits(m[i as int].1, cfg) && members_within_limits(m, cfg, i + 1)
    }
}

proof fn lemma_within_limits_kept(v: Json, cfg: ToolResultEnvelopeConfig, t: Tally, pointer: Seq<char>)
    requires
        cfg.redaction is None,
        within_limits(v, cfg),
    ensures
        bound_value_spec(v, cfg, t, pointer) == (v, t),
    decreases v, 0nat,
{
    match v {
        Json::Str(s) => {
            assert(s.take(s.len() as int) =~= s);
        },
        Json::Arr(a) => {
            assert(a.take(0) =~= Seq::<Json>::empty());
            lemma_items_kept(a, cfg, t, pointer, 0, Seq::empty());
        },
        Json::Obj(m) => {
            assert(m.take(0) =~= Seq::<(Seq<char>, Json)>::empty());
            lemma_members_kept(m, cfg, t, pointer, 0, Seq::empty());
        },
        _ => {},
    }
}

proof fn lemma_items_kept(a: Seq<Json>, cfg: ToolResultEnvelopeConfig, t: Tally, pointer: Seq<char>, i: nat, acc: Seq<Json>)
    requires
        cfg.redaction is None,
        a.len() <= cfg.max_array_items,
        i <= a.len(),
        items_within_limits(a, cfg, i),
        acc == a.take(i as int),
    ensures
        bound_items_spec(a, cfg, t, pointer, i, a.len(), acc) == (Json::Arr(a), t),
    decreases a, a.len() - i,
{
    if i >= a.len() {
        assert(acc =~= a);
    } else {
        lemma_within_limits_kept(a[i as int], cfg, t, child_pointer_spec(pointer, decimal(i)));
        assert(a.take((i + 1) as int) =~= acc.push(a[i as int]));
        lemma_items_kept(a, cfg, t, pointer, i + 1, acc.push(a[i as int]));
    }
}

proof fn lemma_members_kept(
    m: Seq<(Seq<char>, Json)>,
    cfg: ToolResultEnvelopeConfig,
    t: Tally,
    pointer: Seq<char>,
    i: nat,
    acc: Seq<(Seq<char>, Json)>,
)
    requires
        cfg.redaction is None,
        i <= m.len(),
        members_within_limits(m, cfg, i),
        acc == m.take(i as int),
    ensures
        bound_members_spec(m, cfg, t, pointer, i, acc) == (Json::Obj(m), t),
    decreases m, m.len() - i,
{
    if i >= m.len() {
        assert(acc =~= m);
    } else {
        assert(decreases_to!(m => m[i as int]));
        assert(decreases_to!(m[i as int] => m[i as int].1));
        lemma_within_limits_kept(m[i as int].1, cfg, t, child_pointer_spec(pointer, m[i as int].0));
        assert(m.take((i + 1) as int) =~= acc.push((m[i as int].0, m[i as int].1)));
        lemma_members_kept(m, cfg, t, pointer, i + 1, acc.push((m[i as int].0, m[i as int].1)));
    }
}

/// A payload within every limit, under no redaction policy, passes through
/// bounding unchanged, with nothing omitted or redacted.
pub proof fn law_small_payload_unchanged(payload: Json, cfg: ToolResultEnvelopeConfig)
    requires
        cfg.redaction is None,
        within_limits(payload, cfg),
        serialized_size(payload) <= cfg.max_total_bytes,
    ensures
        bound_spec(payload, cfg) == (payload, empty_tally()),
{
    lemma_within_limits_kept(payload, cfg, empty_tally(), Seq::empty());
}

/// A value the redaction policy covers is replaced as a whole by its
/// replacement string, before any limit applies to it, and counted once.
pub proof fn law_redaction_replaces_value(v: Json, cfg: ToolResultEnvelopeConfig, t: Tally, pointer: Seq<char>)
    requires
        cfg.redaction matches Some(p) && replacement_spec(p, pointer) is Some,
    ensures
        bound_value_spec(v, cfg, t, pointer).0 == Json::Str(replacement_spec(cfg.redaction->0, pointer)->0),
        bound_value_spec(v, cfg, t, pointer).1 == (Tally { redacted: t.redacted.saturating_add(1), ..t }),
{
}

/// Whether `v` is a scalar or an empty string, array or object.
pub open spec fn empty_or_scalar(v: Json) -> bool {
    match v {
        Json::Str(s) => s.len() == 0,
        Json::Arr(a) => a.len() == 0,
        Json::Obj(m) => m.len() == 0,
        _ => true,
    }
}

proof fn lemma_total_members_fit(
    m: Seq<(Seq<char>, Json)>,
    cfg: ToolResultEnvelopeConfig,
    t: Tally,
    pointer: Seq<char>,
    i: nat,
    kept: Seq<(Seq<char>, Json)>,
)
    requires
        kept.len() == 0 || serialized_size(Json::Obj(kept)) <= cfg.max_total_bytes,
    ensures
        ({
            let r = total_members_spec(m, cfg, t, pointer, i, kept).0;
            empty_or_scalar(r) || serialized_size(r) <= cfg.max_total_bytes
        }),
    decreases m.len() - i,
{
    if i < m.len() {
        let candidate = kept.push(m[i as int]);
        if serialized_size(Json::Obj(candidate)) <= cfg.max_total_bytes {
            lemma_total_members_fit(m, cfg, t, pointer, i + 1, candidate);
        } else {
            let t1 = record(
                Tally { values: t.values.saturating_add(1), ..t },
                child_pointer_spec(pointer, m[i as int].0),
                ToolResultOmissionReason::TotalBytes,
                cfg.max_total_bytes,
            );
            lemma_total_members_fit(m, cfg, t1, pointer, i + 1, kept);
        }
    }
}

proof fn lemma_total_items_fit(a: Seq<Json>, cfg: ToolResultEnvelopeConfig, t: Tally, pointer: Seq<char>, i: nat, kept: Seq<Json>)
    requires
        kept.len() == 0 || serialized_size(Json::Arr(kept)) <= cfg.max_total_bytes,
    ensures
        ({
            let r = total_items_spec(a, cfg, t, pointer, i, kept).0;
            empty_or_scalar(r) || serialized_size(r) <= cfg.max_total_bytes
        }),
    decreases a.len() - i,
{
    if i < a.len() {
        let candidate = kept.push(a[i as int]);
        if serialized_size(Json::Arr(candidate)) <= cfg.max_total_bytes {
            lemma_total_items_fit(a, cfg, t, pointer, i + 1, candidate);
        } else {
            let t1 = record(
                Tally { items: t.items.saturating_add(1), ..t },
                child_pointer_spec(pointer, decimal(i)),
                ToolResultOmissionReason::ArrayItems,
                cfg.max_total_bytes,
            );
            lemma_total_items_fit(a, cfg, t1, pointer, i + 1, kept);
        }
    }
}

proof fn lemma_total_chars_fit(s: Seq<char>, cfg: ToolResultEnvelopeConfig, t: Tally, i: nat, kept: Seq<char>)
    requires
        kept.len() == 0 || serialized_size(Json::Str(kept)) <= cfg.max_total_bytes,
    ensures
        ({
            let r = total_chars_spec(s, cfg, t, i, kept).0;
            r.len() == 0 || serialized_size(Json::Str(r)) <= cfg.max_total_bytes
        }),
    decreases s.len() - i,
{
    if i < s.len() {
        let candidate = kept.push(s[i as int]);
        if serialized_size(Json::Str(candidate)) <= cfg.max_total_bytes {
            lemma_total_chars_fit(s, cfg, t, i + 1, candidate);
        } else {
            lemma_total_chars_fit(s, cfg, Tally { chars: t.chars.saturating_add(1), ..t }, i + 1, kept);
        }
    }
}

/// After the total pass the payload's JSON text fits `max_total_bytes`,
/// unless it is a scalar (kept whole, and recorded as omitted) or an empty
/// string, array or object (nothing of it fit).
pub proof fn law_total_budget(v: Json, cfg: ToolResultEnvelopeConfig, t: Tally, pointer: Seq<char>)
    ensures
        ({
            let r = bound_total_spec(v, cfg, t, pointer).0;
            empty_or_scalar(r) || serialized_size(r) <= cfg.max_total_bytes
        }),
{
    if serialized_size(v) > cfg.max_total_bytes {
        match v {
            Json::Obj(m) => lemma_total_members_fit(m, cfg, t, pointer, 0, Seq::empty()),
            Json::Arr(a) => lemma_total_items_fit(a, cfg, t, pointer, 0, Seq::empty()),
            Json::Str(s) => lemma_total_chars_fit(s, cfg, t, 0, Seq::empty()),
            _ => {},
        }
    }
}
} // verus!
