//! Tool-call normalizers: raw model output (LFM in-band markers) and
//! structured provider JSON (OpenAI Responses `function_call` items, Chat
//! Completions `tool_calls`) become [`ToolInvocation`]s.

use vstd::prelude::*;

use crate::json::{
    lemma_object_model, pair_models, parse_json, parsed_json, json_parse_error, Json, JsonValue,
};
use crate::lfm::{
    find_lfm_start, ident_ok, lfm_normalize, lfm_start, msg_invalid, normalize_lfm,
};
use crate::registry::KernelError;
use crate::text::{concat, find_spec, str_eq, trim, trim_range};

pub use crate::lfm::split_top_level;

verus! {

/// A structured tool invocation extracted from raw model output.
#[derive(Debug, PartialEq)]
pub struct ToolInvocation {
    /// Registry name of the tool to invoke.
    pub name: String,
    /// JSON object of arguments to pass to the tool.
    pub args: JsonValue,
}

impl View for ToolInvocation {
    type V = (Seq<char>, Json);

    open spec fn view(&self) -> (Seq<char>, Json) {
        (self.name@, self.args@)
    }
}

impl Clone for ToolInvocation {
    fn clone(&self) -> (r: ToolInvocation)
        ensures
            r@ == self@,
    {
        ToolInvocation { name: self.name.clone(), args: self.args.deep_clone() }
    }
}

/// Views of a sequence of invocations.
pub open spec fn inv_models(s: Seq<ToolInvocation>) -> Seq<(Seq<char>, Json)> {
    Seq::new(s.len(), |i: int| s[i]@)
}

/// `r` is the executable form of the spec call list `spec_r`, its error a
/// [`KernelError::NormalizerFailed`].
pub open spec fn invocations_result(
    r: Result<Vec<ToolInvocation>, KernelError>,
    spec_r: Result<Seq<(Seq<char>, Json)>, Seq<char>>,
) -> bool {
    match r {
        Ok(x) => spec_r == Ok::<Seq<(Seq<char>, Json)>, Seq<char>>(inv_models(x@)),
        Err(KernelError::NormalizerFailed(m)) => spec_r == Err::<Seq<(Seq<char>, Json)>, Seq<char>>(m@),
        Err(_) => false,
    }
}

/// What [`validate_identifier`] decides: `Ok` or the error message.
pub open spec fn identifier_check(kind: Seq<char>, value: Seq<char>) -> Result<(), Seq<char>> {
    if ident_ok(value) {
        Ok(())
    } else {
        Err(msg_invalid(kind, value))
    }
}

/// Validates a model-emitted identifier: every character ASCII
/// alphanumeric, `_`, `-` or `.`.
pub fn validate_identifier(kind: &str, value: &str) -> (r: Result<(), KernelError>)
    ensures
        match identifier_check(kind@, value@) {
            Ok(()) => r is Ok,
            Err(m) => r matches Err(KernelError::NormalizerFailed(x)) && x@ == m,
        },
{
    let v = crate::text::chars_of(value);
    let mut i: usize = 0;
    while i < v.len()
        invariant
            v@ == value@,
            i <= v@.len(),
            forall|j: int| 0 <= j < i ==> crate::lfm::ident_char(#[trigger] v@[j]),
        decreases v@.len() - i,
    {
        let c = v[i];
        if !(('a' <= c && c <= 'z') || ('A' <= c && c <= 'Z') || ('0' <= c && c <= '9') || c == '_'
            || c == '-' || c == '.') {
            let d = crate::text::debug_string(value);
            let head = crate::text::concat3("invalid ", kind, ": ");
            return Err(KernelError::NormalizerFailed(concat(head.as_str(), d.as_str())));
        }
        i = i + 1;
    }
    Ok(())
}

/// What [`ToolInvocation::new`] decides for a name and arguments.
pub open spec fn invocation_new(name: Seq<char>, args: Json) -> Result<(Seq<char>, Json), Seq<char>> {
    if trim(name).len() == 0 {
        Err("empty tool name in structured tool call"@)
    } else {
        match identifier_check("tool name"@, name) {
            Ok(()) => Ok((name, args)),
            Err(m) => Err(m),
        }
    }
}

impl ToolInvocation {
    /// Builds a validated invocation from a tool name and JSON arguments.
    pub fn new(name: &str, args: JsonValue) -> (r: Result<ToolInvocation, KernelError>)
        ensures
            match invocation_new(name@, args@) {
                Ok(c) => r matches Ok(inv) && inv@ == c,
                Err(m) => r matches Err(KernelError::NormalizerFailed(x)) && x@ == m,
            },
    {
        let v = crate::text::chars_of(name);
        let (a, b) = trim_range(v.as_slice(), 0, v.len());
        assert(v@.subrange(0, v@.len() as int) =~= name@);
        if a == b {
            return Err(KernelError::NormalizerFailed(String::from_str("empty tool name in structured tool call")));
        }
        match validate_identifier("tool name", name) {
            Ok(()) => Ok(ToolInvocation { name: name.to_owned(), args }),
            Err(e) => Err(e),
        }
    }

    /// A copy of this invocation.
    pub fn copy(&self) -> (r: ToolInvocation)
        ensures
            r@ == self@,
    {
        ToolInvocation { name: self.name.clone(), args: self.args.deep_clone() }
    }
}

/// Result of dispatching one normalized [`ToolInvocation`].
#[derive(Debug, PartialEq)]
pub struct ToolInvocationResult {
    /// The normalized invocation that was dispatched.
    pub invocation: ToolInvocation,
    /// The JSON result returned by the invoked tool.
    pub output: JsonValue,
}

impl Clone for ToolInvocationResult {
    fn clone(&self) -> (r: ToolInvocationResult)
        ensures
            r.invocation@ == self.invocation@,
            r.output@ == self.output@,
    {
        ToolInvocationResult { invocation: self.invocation.copy(), output: self.output.deep_clone() }
    }
}

/// Decision a dispatch hook returns before a tool invocation runs.
#[derive(Debug, PartialEq)]
pub enum ToolDispatchAction {
    /// Invoke the tool normally.
    Continue,
    /// Do not invoke the tool; record `output` as the invocation result.
    Skip {
        /// Synthetic output to record as the invocation result.
        output: JsonValue,
        /// Optional human-readable reason the tool body was not invoked.
        reason: Option<String>,
    },
    /// Stop dispatching and report [`KernelError::ToolDispatchTerminated`].
    Terminate { reason: String },
}

impl Clone for ToolDispatchAction {
    fn clone(&self) -> (r: ToolDispatchAction)
        ensures
            match (*self, r) {
                (ToolDispatchAction::Continue, ToolDispatchAction::Continue) => true,
                (ToolDispatchAction::Skip { output: o1, reason: r1 }, ToolDispatchAction::Skip { output: o2, reason: r2 }) =>
                    o1@ == o2@ && r1 == r2,
                (ToolDispatchAction::Terminate { reason: r1 }, ToolDispatchAction::Terminate { reason: r2 }) => r1 == r2,
                _ => false,
            },
    {
        match self {
            ToolDispatchAction::Continue => ToolDispatchAction::Continue,
            ToolDispatchAction::Skip { output, reason } => ToolDispatchAction::Skip {
                output: output.deep_clone(),
                reason: crate::trace::copy_opt_string(reason),
            },
            ToolDispatchAction::Terminate { reason } => ToolDispatchAction::Terminate { reason: reason.clone() },
        }
    }
}

/// Outcome recorded for one dispatched [`ToolInvocation`].
#[derive(Debug, PartialEq)]
pub enum ToolInvocationOutcome {
    /// The tool body ran and produced the result.
    Completed,
    /// A hook supplied a synthetic skip result instead of invoking the tool.
    Skipped {
        /// Optional human-readable reason the tool body was not invoked.
        reason: Option<String>,
    },
}

impl Clone for ToolInvocationOutcome {
    fn clone(&self) -> (r: ToolInvocationOutcome)
        ensures
            r == *self,
    {
        match self {
            ToolInvocationOutcome::Completed => ToolInvocationOutcome::Completed,
            ToolInvocationOutcome::Skipped { reason } =>
                ToolInvocationOutcome::Skipped { reason: crate::trace::copy_opt_string(reason) },
        }
    }
}

/// Converts parsed `(name, args)` pairs into invocations.
fn into_invocations(calls: Vec<(String, JsonValue)>) -> (r: Vec<ToolInvocation>)
    ensures
        inv_models(r@) == pair_models(calls@),
{
    let ghost all = calls@;
    let mut out: Vec<ToolInvocation> = Vec::new();
    for c in it: calls.into_iter()
        invariant
            it.seq() == all,
            out@.len() == it.index(),
            forall|j: int| 0 <= j < it.index() ==> (#[trigger] out@[j])@ == (all[j].0@, all[j].1@),
    {
        let (name, args) = c;
        out.push(ToolInvocation { name, args });
    }
    assert(inv_models(out@) =~= pair_models(all));
    out
}

/// Normalizes raw model text into structured tool invocations.
///
/// `normalize` returns an empty list when `raw` holds no marker this
/// normalizer recognises; `is_applicable` is true whenever `normalize` would
/// return a non-empty list.
pub trait ToolCallNormalizer {
    /// Parses `raw` into zero or more tool invocations.
    fn normalize(&self, raw: &str) -> Result<Vec<ToolInvocation>, KernelError>;

    /// Whether `raw` contains markers this normalizer handles.
    fn is_applicable(&self, raw: &str) -> bool;
}

/// Normalizer for LiquidAI LFM models, which emit tool intent in-band as
/// `<|tool_call_start|>[fn(k=v), ...]<|tool_call_end|>`.
#[derive(Debug, Clone, Copy, Default)]
pub struct LfmNormalizer;

impl ToolCallNormalizer for LfmNormalizer {
    fn normalize(&self, raw: &str) -> (r: Result<Vec<ToolInvocation>, KernelError>)
        ensures
            invocations_result(r, lfm_normalize(raw@)),
    {
        match normalize_lfm(raw) {
            Ok(calls) => Ok(into_invocations(calls)),
            Err(m) => Err(KernelError::NormalizerFailed(m)),
        }
    }

    fn is_applicable(&self, raw: &str) -> (r: bool)
        ensures
            r == (find_spec(raw@, lfm_start()) is Some),
    {
        find_lfm_start(raw)
    }
}

/// Law: text without a start marker normalizes to no invocations, and
/// whenever normalizing yields an invocation the text is applicable.
pub proof fn law_lfm_applicable_covers_normalize(raw: Seq<char>)
    ensures
        find_spec(raw, lfm_start()) is None ==> lfm_normalize(raw) == Ok::<
            Seq<(Seq<char>, Json)>,
            Seq<char>,
        >(seq![]),
        (lfm_normalize(raw) matches Ok(calls) && calls.len() > 0) ==> find_spec(raw, lfm_start()) is Some,
{
}

// ── Structured provider JSON ────────────────────────────────────────────────

/// Index of the first member with key `k`.
pub open spec fn member_index(p: Seq<(String, JsonValue)>, k: Seq<char>) -> Option<nat>
    decreases p.len(),
{
    if p.len() == 0 {
        None
    } else if p[0].0@ == k {
        Some(0)
    } else {
        match member_index(p.drop_first(), k) {
            Some(i) => Some(i + 1),
            None => None,
        }
    }
}

pub proof fn lemma_member_index(p: Seq<(String, JsonValue)>, k: Seq<char>)
    ensures
        member_index(p, k) matches Some(i) ==> i < p.len() && p[i as int].0@ == k,
        member_index(p, k) is None ==> forall|j: int| 0 <= j < p.len() ==> (#[trigger] p[j]).0@ != k,
    decreases p.len(),
{
    if p.len() > 0 && p[0].0@ != k {
        lemma_member_index(p.drop_first(), k);
        assert forall|j: int| 0 <= j < p.len() && member_index(p, k) is None implies (#[trigger] p[j]).0@ != k by {
            if j > 0 {
                assert(p[j] == p.drop_first()[j - 1]);
            }
        }
    }
}

/// `Value::get(k)`: the member `k` of an object, `None` otherwise.
pub open spec fn member(v: JsonValue, k: Seq<char>) -> Option<JsonValue> {
    match v {
        JsonValue::Object(p) => match member_index(p@, k) {
            Some(i) => if i < p@.len() {
                Some(p@[i as int].1)
            } else {
                None
            },
            None => None,
        },
        _ => None,
    }
}

pub proof fn lemma_member_decreases(v: JsonValue, k: Seq<char>)
    ensures
        member(v, k) matches Some(x) ==> decreases_to!(v => x),
{
    if let JsonValue::Object(p) = v {
        lemma_member_index(p@, k);
        if let Some(i) = member_index(p@, k) {
            assert(decreases_to!(v => v->Object_0));
            assert(decreases_to!(p => p@));
            assert(decreases_to!(p@ => p@[i as int]));
            assert(decreases_to!(p@[i as int] => p@[i as int].1));
        }
    }
}

/// The member `key` of `v`.
fn get_member<'a>(v: &'a JsonValue, key: &str) -> (r: Option<&'a JsonValue>)
    ensures
        match member(*v, key@) {
            Some(x) => r matches Some(y) && *y == x,
            None => r is None,
        },
{
    match v {
        JsonValue::Object(pairs) => {
            let ghost p = pairs@;
            let mut i: usize = 0;
            assert(p.skip(0) =~= p);
            while i < pairs.len()
                invariant
                    i <= pairs@.len(),
                    p == pairs@,
                    *v == JsonValue::Object(*pairs),
                    member_index(p, key@) == (match member_index(p.skip(i as int), key@) {
                        Some(j) => Some((j + i) as nat),
                        None => None::<nat>,
                    }),
                decreases pairs@.len() - i,
            {
                let ghost q = p.skip(i as int);
                assert(q[0] == p[i as int]);
                if str_eq(pairs[i].0.as_str(), key) {
                    assert(member_index(q, key@) == Some(0nat));
                    proof {
                        lemma_member_index(p, key@);
                    }
                    return Some(&pairs[i].1);
                }
                assert(q.drop_first() =~= p.skip(i + 1));
                i = i + 1;
            }
            assert(p.skip(i as int).len() == 0);
            None
        },
        _ => None,
    }
}

pub open spec fn one_call(r: Result<(Seq<char>, Json), Seq<char>>) -> Result<Seq<(Seq<char>, Json)>, Seq<char>> {
    match r {
        Ok(c) => Ok(seq![c]),
        Err(m) => Err(m),
    }
}

pub open spec fn is_str(v: Option<JsonValue>, s: Seq<char>) -> bool {
    v matches Some(JsonValue::String(t)) && t@ == s
}

/// `required_string_field`: the string member `field`, or the error message.
pub open spec fn required_string(obj: JsonValue, field: Seq<char>, context: Seq<char>) -> Result<Seq<char>, Seq<char>> {
    match member(obj, field) {
        Some(JsonValue::String(s)) => Ok(s@),
        _ => Err(context + " missing `"@ + field + "` string"@),
    }
}

/// `parse_standard_arguments`: JSON-encoded string arguments are parsed, a
/// blank string or `null` means no arguments, any other value is taken as is.
pub open spec fn standard_args(a: JsonValue) -> Result<Json, Seq<char>> {
    match a {
        JsonValue::String(raw) => {
            let t = trim(raw@);
            if t.len() == 0 {
                Ok(Json::Obj(seq![]))
            } else {
                match parsed_json(t) {
                    Some(j) => Ok(j),
                    None => Err("failed to parse standard tool-call arguments JSON: "@ + json_parse_error(t)),
                }
            }
        },
        JsonValue::Null => Ok(Json::Obj(seq![])),
        other => Ok(other@),
    }
}

/// The `arguments` member of a call object, no arguments when absent.
pub open spec fn call_args(obj: JsonValue) -> Result<Json, Seq<char>> {
    match member(obj, "arguments"@) {
        None => Ok(Json::Obj(seq![])),
        Some(a) => standard_args(a),
    }
}

/// A named call with arguments from `obj`, validated like [`ToolInvocation::new`].
pub open spec fn named_call(obj: JsonValue, context: Seq<char>) -> Result<(Seq<char>, Json), Seq<char>> {
    match required_string(obj, "name"@, context) {
        Err(m) => Err(m),
        Ok(name) => match call_args(obj) {
            Err(m) => Err(m),
            Ok(args) => invocation_new(name, args),
        },
    }
}

/// An OpenAI Responses `function_call` output item.
pub open spec fn is_function_call(v: JsonValue) -> bool {
    v is Object && is_str(member(v, "type"@), "function_call"@)
}

pub open spec fn responses_item(x: JsonValue) -> Result<Seq<(Seq<char>, Json)>, Seq<char>> {
    if is_function_call(x) {
        one_call(named_call(x, "OpenAI Responses function_call"@))
    } else {
        Ok(seq![])
    }
}

/// The calls of output items `items[i..]`, appended to `acc`.
pub open spec fn responses_items(items: Seq<JsonValue>, i: nat, acc: Seq<(Seq<char>, Json)>) -> Result<
    Seq<(Seq<char>, Json)>,
    Seq<char>,
>
    decreases items.len() - i,
{
    if i >= items.len() {
        Ok(acc)
    } else {
        match responses_item(items[i as int]) {
            Err(m) => Err(m),
            Ok(c) => responses_items(items, i + 1, acc + c),
        }
    }
}

/// The call lists of two results, concatenated; the first error wins.
pub open spec fn then_calls(
    a: Result<Seq<(Seq<char>, Json)>, Seq<char>>,
    b: Result<Seq<(Seq<char>, Json)>, Seq<char>>,
) -> Result<Seq<(Seq<char>, Json)>, Seq<char>> {
    match a {
        Err(m) => Err(m),
        Ok(x) => match b {
            Err(m) => Err(m),
            Ok(y) => Ok(x + y),
        },
    }
}

proof fn lemma_responses_items_acc(items: Seq<JsonValue>, i: nat, acc: Seq<(Seq<char>, Json)>)
    requires
        i <= items.len(),
    ensures
        responses_items(items, i, acc) == then_calls(Ok(acc), responses_items(items, i, seq![])),
    decreases items.len() - i,
{
    if i < items.len() {
        match responses_item(items[i as int]) {
            Err(m) => {},
            Ok(c) => {
                lemma_responses_items_acc(items, i + 1, acc + c);
                lemma_responses_items_acc(items, i + 1, seq![] + c);
                assert(seq![] + c =~= c);
                match responses_items(items, i + 1, seq![]) {
                    Ok(y) => {
                        assert(acc + c + y =~= acc + (c + y));
                    },
                    Err(_) => {},
                }
            },
        }
    } else {
        assert(acc + seq![] =~= acc);
    }
}

proof fn lemma_responses_items_split(a: Seq<JsonValue>, b: Seq<JsonValue>, i: nat, acc: Seq<(Seq<char>, Json)>)
    requires
        i <= a.len(),
    ensures
        responses_items(a + b, i, acc) == then_calls(responses_items(a, i, acc), responses_items(b, 0, seq![])),
    decreases a.len() - i,
{
    if i < a.len() {
        assert((a + b)[i as int] == a[i as int]);
        match responses_item(a[i as int]) {
            Err(m) => {},
            Ok(c) => {
                lemma_responses_items_split(a, b, i + 1, acc + c);
            },
        }
    } else {
        lemma_responses_items_acc(b, 0, acc);
        lemma_responses_items_shift(a, b, acc);
    }
}

proof fn lemma_responses_items_shift(a: Seq<JsonValue>, b: Seq<JsonValue>, acc: Seq<(Seq<char>, Json)>)
    ensures
        responses_items(a + b, a.len(), acc) == responses_items(b, 0, acc),
{
    lemma_shift_from(a, b, 0, acc);
}

proof fn lemma_shift_from(a: Seq<JsonValue>, b: Seq<JsonValue>, j: nat, acc: Seq<(Seq<char>, Json)>)
    requires
        j <= b.len(),
    ensures
        responses_items(a + b, a.len() + j, acc) == responses_items(b, j, acc),
    decreases b.len() - j,
{
    if j < b.len() {
        assert((a + b)[(a.len() + j) as int] == b[j as int]);
        match responses_item(b[j as int]) {
            Err(m) => {},
            Ok(c) => {
                lemma_shift_from(a, b, j + 1, acc + c);
            },
        }
    }
}

/// The calls of a Responses output list: each item's calls in order, the
/// first failing item's error otherwise. Reading the concatenation of two
/// lists gives the first list's calls followed by the second's, and a list
/// of one item gives that item's calls, so every `function_call` item
/// contributes its invocation.
pub proof fn law_responses_items_concat(a: Seq<JsonValue>, b: Seq<JsonValue>, x: JsonValue)
    ensures
        responses_items(a + b, 0, seq![]) == then_calls(responses_items(a, 0, seq![]), responses_items(b, 0, seq![])),
        responses_items(seq![x], 0, seq![]) == then_calls(responses_item(x), Ok(seq![])),
{
    lemma_responses_items_split(a, b, 0, seq![]);
    let one = seq![x];
    assert(one[0] == x);
    match responses_item(x) {
        Err(m) => {},
        Ok(c) => {
            assert(responses_items(one, 1, seq![] + c) == Ok::<Seq<(Seq<char>, Json)>, Seq<char>>(seq![] + c));
            assert(seq![] + c =~= c);
            assert(c + seq![] =~= c);
        },
    }
}

pub open spec fn responses_output(o: JsonValue) -> Result<Seq<(Seq<char>, Json)>, Seq<char>> {
    match o {
        JsonValue::Array(items) => responses_items(items@, 0, seq![]),
        _ => responses_item(o),
    }
}

/// What `normalize_openai_responses` gives for a value.
pub open spec fn responses_spec(v: JsonValue) -> Result<Seq<(Seq<char>, Json)>, Seq<char>> {
    match v {
        JsonValue::Object(_) => match member(v, "output"@) {
            Some(o) => responses_output(o),
            None => responses_item(v),
        },
        JsonValue::Array(items) => responses_items(items@, 0, seq![]),
        _ => Ok(seq![]),
    }
}

/// A Chat Completions tool call object.
pub open spec fn chat_call(obj: JsonValue) -> Result<(Seq<char>, Json), Seq<char>> {
    match member(obj, "function"@) {
        Some(f) => if f is Object {
            named_call(f, "OpenAI Chat Completions function"@)
        } else {
            Err("OpenAI Chat Completions tool call missing function object"@)
        },
        None => Err("OpenAI Chat Completions tool call missing function object"@),
    }
}

/// The calls of a `tool_calls` array `items[i..]`, appended to `acc`.
pub open spec fn chat_items(items: Seq<JsonValue>, i: nat, acc: Seq<(Seq<char>, Json)>) -> Result<
    Seq<(Seq<char>, Json)>,
    Seq<char>,
>
    decreases items.len() - i,
{
    if i >= items.len() {
        Ok(acc)
    } else {
        let x = items[i as int];
        if !(x is Object) {
            Err("OpenAI Chat Completions tool call must be an object"@)
        } else if member(x, "function"@) is None {
            Err("OpenAI Chat Completions tool call missing function payload"@)
        } else {
            match chat_call(x) {
                Err(m) => Err(m),
                Ok(c) => chat_items(items, i + 1, acc.push(c)),
            }
        }
    }
}

proof fn lemma_chat_items_acc(items: Seq<JsonValue>, i: nat, acc: Seq<(Seq<char>, Json)>)
    requires
        i <= items.len(),
    ensures
        chat_items(items, i, acc) == then_calls(Ok(acc), chat_items(items, i, seq![])),
    decreases items.len() - i,
{
    if i < items.len() {
        let x = items[i as int];
        if x is Object && member(x, "function"@) is Some {
            match chat_call(x) {
                Err(m) => {},
                Ok(c) => {
                    lemma_chat_items_acc(items, i + 1, acc.push(c));
                    lemma_chat_items_acc(items, i + 1, seq![].push(c));
                    match chat_items(items, i + 1, seq![]) {
                        Ok(y) => {
                            assert(acc.push(c) + y =~= acc + (seq![].push(c) + y));
                        },
                        Err(_) => {},
                    }
                },
            }
        }
    } else {
        assert(acc + seq![] =~= acc);
    }
}

proof fn lemma_chat_shift_from(a: Seq<JsonValue>, b: Seq<JsonValue>, j: nat, acc: Seq<(Seq<char>, Json)>)
    requires
        j <= b.len(),
    ensures
        chat_items(a + b, a.len() + j, acc) == chat_items(b, j, acc),
    decreases b.len() - j,
{
    if j < b.len() {
        assert((a + b)[(a.len() + j) as int] == b[j as int]);
        let x = b[j as int];
        if x is Object && member(x, "function"@) is Some {
            match chat_call(x) {
                Err(m) => {},
                Ok(c) => {
                    lemma_chat_shift_from(a, b, j + 1, acc.push(c));
                },
            }
        }
    }
}

proof fn lemma_chat_items_split(a: Seq<JsonValue>, b: Seq<JsonValue>, i: nat, acc: Seq<(Seq<char>, Json)>)
    requires
        i <= a.len(),
    ensures
        chat_items(a + b, i, acc) == then_calls(chat_items(a, i, acc), chat_items(b, 0, seq![])),
    decreases a.len() - i,
{
    if i < a.len() {
        assert((a + b)[i as int] == a[i as int]);
        let x = a[i as int];
        if x is Object && member(x, "function"@) is Some {
            match chat_call(x) {
                Err(m) => {},
                Ok(c) => {
                    lemma_chat_items_split(a, b, i + 1, acc.push(c));
                },
            }
        }
    } else {
        lemma_chat_items_acc(b, 0, acc);
        lemma_chat_shift_from(a, b, 0, acc);
    }
}

/// Reading the concatenation of two Chat Completions `tool_calls` lists
/// gives the first list's calls followed by the second's (the first error
/// otherwise), so every tool call of the list contributes its invocation.
pub proof fn law_chat_items_concat(a: Seq<JsonValue>, b: Seq<JsonValue>)
    ensures
        chat_items(a + b, 0, seq![]) == then_calls(chat_items(a, 0, seq![]), chat_items(b, 0, seq![])),
{
    lemma_chat_items_split(a, b, 0, seq![]);
}

pub open spec fn chat_tool_calls(t: JsonValue) -> Result<Seq<(Seq<char>, Json)>, Seq<char>> {
    match t {
        JsonValue::Array(items) => chat_items(items@, 0, seq![]),
        JsonValue::Object(_) => if member(t, "function"@) is Some {
            one_call(chat_call(t))
        } else {
            Ok(seq![])
        },
        _ => Ok(seq![]),
    }
}

/// What `normalize_openai_chat_completions` gives for a value.
pub open spec fn chat_spec(v: JsonValue) -> Result<Seq<(Seq<char>, Json)>, Seq<char>>
    decreases v, 0int,
{
    match v {
        JsonValue::Object(_) => if member(v, "choices"@) is Some {
            let c = member(v, "choices"@)->0;
            proof {
                lemma_member_decreases(v, "choices"@);
            }
            match c {
                JsonValue::Array(items) => {
                    proof {
                        assert(decreases_to!(c => c->Array_0));
                        assert(decreases_to!(items => items@));
                    }
                    chat_choices(items@, 0, seq![])
                },
                _ => Err("OpenAI Chat Completions choices must be an array"@),
            }
        } else if member(v, "tool_calls"@) is Some {
            chat_tool_calls(member(v, "tool_calls"@)->0)
        } else if member(v, "function"@) is Some {
            one_call(chat_call(v))
        } else {
            Ok(seq![])
        },
        JsonValue::Array(items) => chat_items(items@, 0, seq![]),
        _ => Ok(seq![]),
    }
}

/// The calls of the messages of `choices[i..]`, appended to `acc`.
pub open spec fn chat_choices(choices: Seq<JsonValue>, i: nat, acc: Seq<(Seq<char>, Json)>) -> Result<
    Seq<(Seq<char>, Json)>,
    Seq<char>,
>
    decreases choices, choices.len() - i,
{
    if i >= choices.len() {
        Ok(acc)
    } else {
        match member(choices[i as int], "message"@) {
            None => chat_choices(choices, i + 1, acc),
            Some(m) => {
                proof {
                    lemma_member_decreases(choices[i as int], "message"@);
                    assert(decreases_to!(choices => choices[i as int]));
                }
                match chat_spec(m) {
                    Err(e) => Err(e),
                    Ok(cs) => chat_choices(choices, i + 1, acc + cs),
                }
            },
        }
    }
}

/// What `StructuredToolCallNormalizer::normalize` gives: Responses calls,
/// then Chat Completions calls.
pub open spec fn structured_spec(v: JsonValue) -> Result<Seq<(Seq<char>, Json)>, Seq<char>> {
    match responses_spec(v) {
        Err(m) => Err(m),
        Ok(a) => match chat_spec(v) {
            Err(m) => Err(m),
            Ok(b) => Ok(a + b),
        },
    }
}

/// `r` matches the spec call list `spec_r`, with a plain message as error.
pub open spec fn calls_match(
    r: Result<Vec<ToolInvocation>, String>,
    spec_r: Result<Seq<(Seq<char>, Json)>, Seq<char>>,
) -> bool {
    match r {
        Ok(x) => spec_r == Ok::<Seq<(Seq<char>, Json)>, Seq<char>>(inv_models(x@)),
        Err(m) => spec_r == Err::<Seq<(Seq<char>, Json)>, Seq<char>>(m@),
    }
}

fn required_string_field(obj: &JsonValue, field: &str, context: &str) -> (r: Result<String, String>)
    ensures
        match required_string(*obj, field@, context@) {
            Ok(s) => r matches Ok(x) && x@ == s,
            Err(m) => r matches Err(x) && x@ == m,
        },
{
    match get_member(obj, field) {
        Some(JsonValue::String(s)) => Ok(s.clone()),
        _ => {
            let tail = concat(field, "` string");
            let mid = concat(" missing `", tail.as_str());
            let r = concat(context, mid.as_str());
            assert(r@ =~= context@ + " missing `"@ + field@ + "` string"@);
            Err(r)
        },
    }
}

fn standard_arguments(a: &JsonValue) -> (r: Result<JsonValue, String>)
    ensures
        match standard_args(*a) {
            Ok(j) => r matches Ok(x) && x@ == j,
            Err(m) => r matches Err(x) && x@ == m,
        },
{
    match a {
        JsonValue::String(raw) => {
            let v = crate::text::chars_of(raw.as_str());
            let (x, y) = trim_range(v.as_slice(), 0, v.len());
            assert(v@.subrange(0, v@.len() as int) =~= raw@);
            if x == y {
                return Ok(JsonValue::empty_object());
            }
            let t = crate::text::string_from_chars(v.as_slice(), x, y);
            match parse_json(t.as_str()) {
                Ok(j) => Ok(j),
                Err(e) => Err(concat("failed to parse standard tool-call arguments JSON: ", e.as_str())),
            }
        },
        JsonValue::Null => Ok(JsonValue::empty_object()),
        other => Ok(other.deep_clone()),
    }
}

fn call_arguments(obj: &JsonValue) -> (r: Result<JsonValue, String>)
    ensures
        match call_args(*obj) {
            Ok(j) => r matches Ok(x) && x@ == j,
            Err(m) => r matches Err(x) && x@ == m,
        },
{
    match get_member(obj, "arguments") {
        None => Ok(JsonValue::empty_object()),
        Some(a) => standard_arguments(a),
    }
}

fn named_call_exec(obj: &JsonValue, context: &str) -> (r: Result<ToolInvocation, String>)
    ensures
        match named_call(*obj, context@) {
            Ok(c) => r matches Ok(x) && x@ == c,
            Err(m) => r matches Err(x) && x@ == m,
        },
{
    let name = match required_string_field(obj, "name", context) {
        Ok(n) => n,
        Err(m) => {
            return Err(m);
        },
    };
    let args = match call_arguments(obj) {
        Ok(a) => a,
        Err(m) => {
            return Err(m);
        },
    };
    match ToolInvocation::new(name.as_str(), args) {
        Ok(inv) => Ok(inv),
        Err(KernelError::NormalizerFailed(m)) => Err(m),
        Err(_) => Err(String::new()),
    }
}

fn single(inv: ToolInvocation) -> (r: Vec<ToolInvocation>)
    ensures
        inv_models(r@) == seq![inv@],
{
    let mut r = Vec::new();
    r.push(inv);
    assert(inv_models(r@) =~= seq![inv@]);
    r
}

fn is_function_call_exec(v: &JsonValue) -> (r: bool)
    ensures
        r == is_function_call(*v),
{
    match v {
        JsonValue::Object(_) => match get_member(v, "type") {
            Some(JsonValue::String(t)) => str_eq(t.as_str(), "function_call"),
            _ => false,
        },
        _ => false,
    }
}

fn responses_item_exec(x: &JsonValue) -> (r: Result<Vec<ToolInvocation>, String>)
    ensures
        calls_match(r, responses_item(*x)),
{
    if is_function_call_exec(x) {
        match named_call_exec(x, "OpenAI Responses function_call") {
            Ok(inv) => Ok(single(inv)),
            Err(m) => Err(m),
        }
    } else {
        let r: Vec<ToolInvocation> = Vec::new();
        assert(inv_models(r@) =~= Seq::<(Seq<char>, Json)>::empty());
        Ok(r)
    }
}

fn append_invocations(acc: &mut Vec<ToolInvocation>, more: Vec<ToolInvocation>)
    ensures
        inv_models(final(acc)@) == inv_models(old(acc)@) + inv_models(more@),
{
    let ghost before = acc@;
    let mut m = more;
    acc.append(&mut m);
    assert(inv_models(acc@) =~= inv_models(before) + inv_models(more@));
}

fn responses_items_exec(items: &Vec<JsonValue>) -> (r: Result<Vec<ToolInvocation>, String>)
    ensures
        calls_match(r, responses_items(items@, 0, seq![])),
{
    let mut acc: Vec<ToolInvocation> = Vec::new();
    let mut i: usize = 0;
    assert(inv_models(acc@) =~= Seq::<(Seq<char>, Json)>::empty());
    while i < items.len()
        invariant
            i <= items@.len(),
            responses_items(items@, 0, seq![]) == responses_items(items@, i as nat, inv_models(acc@)),
        decreases items@.len() - i,
    {
        match responses_item_exec(&items[i]) {
            Ok(c) => append_invocations(&mut acc, c),
            Err(m) => {
                return Err(m);
            },
        }
        i = i + 1;
    }
    Ok(acc)
}

fn responses_exec(v: &JsonValue) -> (r: Result<Vec<ToolInvocation>, String>)
    ensures
        calls_match(r, responses_spec(*v)),
{
    match v {
        JsonValue::Object(_) => match get_member(v, "output") {
            Some(o) => match o {
                JsonValue::Array(items) => responses_items_exec(items),
                _ => responses_item_exec(o),
            },
            None => responses_item_exec(v),
        },
        JsonValue::Array(items) => responses_items_exec(items),
        _ => {
            let r: Vec<ToolInvocation> = Vec::new();
            assert(inv_models(r@) =~= Seq::<(Seq<char>, Json)>::empty());
            Ok(r)
        },
    }
}

fn chat_call_exec(obj: &JsonValue) -> (r: Result<ToolInvocation, String>)
    ensures
        match chat_call(*obj) {
            Ok(c) => r matches Ok(x) && x@ == c,
            Err(m) => r matches Err(x) && x@ == m,
        },
{
    match get_member(obj, "function") {
        Some(f) => match f {
            JsonValue::Object(_) => named_call_exec(f, "OpenAI Chat Completions function"),
            _ => Err(String::from_str("OpenAI Chat Completions tool call missing function object")),
        },
        None => Err(String::from_str("OpenAI Chat Completions tool call missing function object")),
    }
}

fn chat_items_exec(items: &Vec<JsonValue>) -> (r: Result<Vec<ToolInvocation>, String>)
    ensures
        calls_match(r, chat_items(items@, 0, seq![])),
{
    let mut acc: Vec<ToolInvocation> = Vec::new();
    let mut i: usize = 0;
    assert(inv_models(acc@) =~= Seq::<(Seq<char>, Json)>::empty());
    while i < items.len()
        invariant
            i <= items@.len(),
            chat_items(items@, 0, seq![]) == chat_items(items@, i as nat, inv_models(acc@)),
        decreases items@.len() - i,
    {
        let x = &items[i];
        match x {
            JsonValue::Object(_) => {},
            _ => {
                return Err(String::from_str("OpenAI Chat Completions tool call must be an object"));
            },
        }
        if get_member(x, "function").is_none() {
            return Err(String::from_str("OpenAI Chat Completions tool call missing function payload"));
        }
        match chat_call_exec(x) {
            Ok(inv) => {
                let ghost before = inv_models(acc@);
                let ghost c = inv@;
                acc.push(inv);
                assert(inv_models(acc@) =~= before.push(c));
            },
            Err(m) => {
                return Err(m);
            },
        }
        i = i + 1;
    }
    Ok(acc)
}

fn chat_tool_calls_exec(t: &JsonValue) -> (r: Result<Vec<ToolInvocation>, String>)
    ensures
        calls_match(r, chat_tool_calls(*t)),
{
    match t {
        JsonValue::Array(items) => chat_items_exec(items),
        JsonValue::Object(_) => if get_member(t, "function").is_some() {
            match chat_call_exec(t) {
                Ok(inv) => Ok(single(inv)),
                Err(m) => Err(m),
            }
        } else {
            let r: Vec<ToolInvocation> = Vec::new();
            assert(inv_models(r@) =~= Seq::<(Seq<char>, Json)>::empty());
            Ok(r)
        },
        _ => {
            let r: Vec<ToolInvocation> = Vec::new();
            assert(inv_models(r@) =~= Seq::<(Seq<char>, Json)>::empty());
            Ok(r)
        },
    }
}

fn chat_exec(v: &JsonValue) -> (r: Result<Vec<ToolInvocation>, String>)
    ensures
        calls_match(r, chat_spec(*v)),
    decreases *v, 0int,
{
    match v {
        JsonValue::Object(_) => {
            match get_member(v, "choices") {
                Some(c) => {
                    proof {
                        lemma_member_decreases(*v, "choices"@);
                    }
                    match c {
                        JsonValue::Array(items) => {
                            proof {
                                assert(decreases_to!(*c => (*c)->Array_0));
                                assert(decreases_to!(*items => items@));
                            }
                            return chat_choices_exec(items);
                        },
                        _ => {
                            return Err(String::from_str("OpenAI Chat Completions choices must be an array"));
                        },
                    }
                },
                None => {},
            }
            match get_member(v, "tool_calls") {
                Some(t) => {
                    return chat_tool_calls_exec(t);
                },
                None => {},
            }
            if get_member(v, "function").is_some() {
                match chat_call_exec(v) {
                    Ok(inv) => Ok(single(inv)),
                    Err(m) => Err(m),
                }
            } else {
                let r: Vec<ToolInvocation> = Vec::new();
                assert(inv_models(r@) =~= Seq::<(Seq<char>, Json)>::empty());
                Ok(r)
            }
        },
        JsonValue::Array(items) => chat_items_exec(items),
        _ => {
            let r: Vec<ToolInvocation> = Vec::new();
            assert(inv_models(r@) =~= Seq::<(Seq<char>, Json)>::empty());
            Ok(r)
        },
    }
}

fn chat_choices_exec(choices: &Vec<JsonValue>) -> (r: Result<Vec<ToolInvocation>, String>)
    ensures
        calls_match(r, chat_choices(choices@, 0, seq![])),
    decreases choices@, 1int,
{
    let mut acc: Vec<ToolInvocation> = Vec::new();
    let mut i: usize = 0;
    assert(inv_models(acc@) =~= Seq::<(Seq<char>, Json)>::empty());
    while i < choices.len()
        invariant
            i <= choices@.len(),
            chat_choices(choices@, 0, seq![]) == chat_choices(choices@, i as nat, inv_models(acc@)),
        decreases choices@.len() - i,
    {
        match get_member(&choices[i], "message") {
            None => {},
            Some(m) => {
                proof {
                    lemma_member_decreases(choices@[i as int], "message"@);
                    assert(decreases_to!(choices@ => choices@[i as int]));
                }
                match chat_exec(m) {
                    Ok(cs) => append_invocations(&mut acc, cs),
                    Err(e) => {
                        return Err(e);
                    },
                }
            },
        }
        i = i + 1;
    }
    Ok(acc)
}

fn normalizer_error(r: Result<Vec<ToolInvocation>, String>) -> (out: Result<Vec<ToolInvocation>, KernelError>)
    ensures
        match r {
            Ok(x) => out matches Ok(y) && y@ == x@,
            Err(m) => out matches Err(KernelError::NormalizerFailed(y)) && y@ == m@,
        },
{
    match r {
        Ok(x) => Ok(x),
        Err(m) => Err(KernelError::NormalizerFailed(m)),
    }
}

/// Normalizer for structured tool-call JSON returned by provider APIs:
/// OpenAI Responses `function_call` items (alone, in an `output` array, or in
/// a full response) and Chat Completions `tool_calls` (alone, in a message,
/// or in a full response with `choices`).
#[derive(Debug, Clone, Copy, Default)]
pub struct StructuredToolCallNormalizer;

impl StructuredToolCallNormalizer {
    /// Parses OpenAI Responses API `function_call` output items from a full
    /// response object, an `output` array, or a single output item.
    pub fn normalize_openai_responses(value: &JsonValue) -> (r: Result<Vec<ToolInvocation>, KernelError>)
        ensures
            invocations_result(r, responses_spec(*value)),
    {
        normalizer_error(responses_exec(value))
    }

    /// Parses OpenAI Chat Completions `tool_calls` from a full response, a
    /// message object, a `tool_calls` array, or a single tool call object.
    pub fn normalize_openai_chat_completions(value: &JsonValue) -> (r: Result<Vec<ToolInvocation>, KernelError>)
        ensures
            invocations_result(r, chat_spec(*value)),
    {
        normalizer_error(chat_exec(value))
    }

    /// Parses every supported structured standard: Responses calls first,
    /// then Chat Completions calls.
    pub fn normalize(value: &JsonValue) -> (r: Result<Vec<ToolInvocation>, KernelError>)
        ensures
            invocations_result(r, structured_spec(*value)),
    {
        let mut a = match responses_exec(value) {
            Ok(a) => a,
            Err(m) => {
                return Err(KernelError::NormalizerFailed(m));
            },
        };
        match chat_exec(value) {
            Ok(b) => {
                append_invocations(&mut a, b);
                Ok(a)
            },
            Err(m) => Err(KernelError::NormalizerFailed(m)),
        }
    }
}

} // verus!
