//! Reliability primitives for tool dispatch loops: retry classification,
//! invocation fingerprints, history repair, and stuck-loop detection.

use vstd::prelude::*;

use std::collections::hash_map::DefaultHasher;
use std::collections::HashMap;
use std::hash::Hasher;
use vstd::std_specs::hash::DefaultHasherAdditionalSpecFns;

use crate::json::{
    keys_sorted, lemma_array_model, lemma_object_model, lemma_seq_lt_irrefl, lemma_seq_lt_total, lemma_seq_lt_trans,
    models, obj_insert, object_insert, pair_models, seq_lt, Json, JsonValue,
};
use crate::normalizer::{ToolDispatchAction, ToolInvocation, ToolInvocationResult};
use crate::registry::{error_text, KernelError};

verus! {

/// Whether an errored tool invocation may be retried.
#[derive(Debug, Clone, Copy, PartialEq, Eq, Hash, Structural)]
pub enum RetryClass {
    /// Retry is allowed; the failure is likely environmental.
    Transient,
    /// Retry is forbidden; the failure is intrinsic to the inputs or policy.
    Permanent,
}

/// Classifies a [`KernelError`] as transient or permanent.
pub trait RetryClassifier {
    /// The retry class this classifier gives `error`.
    spec fn verdict(&self, error: KernelError) -> RetryClass;

    /// The retry class for `error`.
    fn classify(&self, error: &KernelError) -> (r: RetryClass)
        ensures
            r == self.verdict(*error);
}

/// Retry class of an error under the standard classification: a failed
/// tool or skill may be retried, every other error may not.
pub open spec fn default_class(e: KernelError) -> RetryClass {
    match e {
        KernelError::ToolFailed(_) => RetryClass::Transient,
        KernelError::SkillFailed(_) => RetryClass::Transient,
        _ => RetryClass::Permanent,
    }
}

/// Under the default classification only a failed tool or skill may be
/// retried: every other error (an unknown or unauthorised tool, a missing
/// skill, an invalid argument, a parse, policy, budget or JSON error) is
/// permanent.
pub proof fn law_default_class_transient_only_for_failures(e: KernelError)
    ensures
        (default_class(e) == RetryClass::Transient) <==> (e is ToolFailed || e is SkillFailed),
        (default_class(e) == RetryClass::Permanent) <==> !(e is ToolFailed || e is SkillFailed),
        e is Serde ==> default_class(e) == RetryClass::Permanent,
{
}

/// Default classifier covering every [`KernelError`] variant.
#[derive(Debug, Clone, Copy, Default)]
pub struct DefaultRetryClassifier;

impl RetryClassifier for DefaultRetryClassifier {
    open spec fn verdict(&self, error: KernelError) -> RetryClass {
        default_class(error)
    }

    fn classify(&self, error: &KernelError) -> (r: RetryClass) {
        match error {
            KernelError::ToolFailed(_) | KernelError::SkillFailed(_) => RetryClass::Transient,
            KernelError::ToolNotFound(_)
            | KernelError::ToolNotAuthorised(_)
            | KernelError::SkillNotFound(_)
            | KernelError::ToolNotApplicable(_)
            | KernelError::InvalidArgument(_)
            | KernelError::NormalizerFailed(_)
            | KernelError::ToolDispatchTerminated(_)
            | KernelError::BudgetFailed(_)
            | KernelError::Serde(_) => RetryClass::Permanent,
        }
    }
}

/// Stable content hash of a [`ToolInvocation`].
#[derive(Debug, Clone, Copy, PartialEq, Eq, Hash, Structural)]
pub struct ToolCallFingerprint(pub u64);

/// The bytes `str`'s `Hash` feeds a hasher: the UTF-8 bytes, then `0xff`.
pub open spec fn str_hash_writes(s: Seq<char>) -> Seq<Seq<u8>> {
    seq![vstd::utf8::encode_utf8(s), seq![0xffu8]]
}

/// The canonical form of a value: every object's members re-inserted, in
/// order, into an empty `serde_json::Map` (so sorted by key, a repeated key
/// keeping its last value), arrays and scalars as they are.
pub open spec fn canonical(v: Json) -> Json
    decreases v, 0nat,
{
    match v {
        Json::Arr(items) => canonical_items(items, 0, Seq::empty()),
        Json::Obj(m) => canonical_members(m, 0, Seq::empty()),
        _ => v,
    }
}

/// The canonical array of items `i..` of `items`, after `acc`.
pub open spec fn canonical_items(items: Seq<Json>, i: nat, acc: Seq<Json>) -> Json
    decreases items, items.len() - i,
{
    if i >= items.len() {
        Json::Arr(acc)
    } else {
        canonical_items(items, i + 1, acc.push(canonical(items[i as int])))
    }
}

/// The canonical object of members `i..` of `m` inserted into `acc`.
pub open spec fn canonical_members(m: Seq<(Seq<char>, Json)>, i: nat, acc: Seq<(Seq<char>, Json)>) -> Json
    decreases m, m.len() - i,
{
    if i >= m.len() {
        Json::Obj(acc)
    } else {
        proof {
            assert(decreases_to!(m => m[i as int]));
            assert(decreases_to!(m[i as int] => m[i as int].1));
        }
        canonical_members(m, i + 1, obj_insert(acc, m[i as int].0, canonical(m[i as int].1)))
    }
}

/// The fingerprint of an invocation: `DefaultHasher` fed the tool name and
/// then the compact JSON text of the canonical arguments, each as `str`
/// hashes.
#[verifier::opaque]
pub open spec fn fingerprint_spec(name: Seq<char>, args: Json) -> u64 {
    DefaultHasher::spec_finish(str_hash_writes(name) + str_hash_writes(crate::json::json_text(canonical(args))))
}

/// The canonical form of `v` (see [`canonical`]).
fn canonicalize_value(v: &JsonValue) -> (r: JsonValue)
    ensures
        r@ == canonical(v@),
    decreases v,
{
    match v {
        JsonValue::Array(items) => {
            proof {
                lemma_array_model(*items);
            }
            let ghost ms = models(items@);
            let mut out: Vec<JsonValue> = Vec::new();
            let mut i: usize = 0;
            assert(models(out@) =~= Seq::<Json>::empty());
            while i < items.len()
                invariant
                    i <= items@.len(),
                    ms == models(items@),
                    *v == JsonValue::Array(*items),
                    canonical_items(ms, i as nat, models(out@)) == canonical_items(ms, 0, Seq::empty()),
                decreases items@.len() - i,
            {
                assert(decreases_to!(*v => (*v)->Array_0));
                assert(decreases_to!(*items => items@));
                assert(decreases_to!(items@ => items@[i as int]));
                let ghost before = out@;
                let x = canonicalize_value(&items[i]);
                out.push(x);
                assert(models(out@) =~= models(before).push(x@));
                i = i + 1;
            }
            proof {
                lemma_array_model(out);
            }
            JsonValue::Array(out)
        },
        JsonValue::Object(pairs) => {
            proof {
                lemma_object_model(*pairs);
            }
            let ghost pm = pair_models(pairs@);
            let mut out: Vec<(String, JsonValue)> = Vec::new();
            let mut i: usize = 0;
            assert(pair_models(out@) =~= Seq::<(Seq<char>, Json)>::empty());
            while i < pairs.len()
                invariant
                    i <= pairs@.len(),
                    pm == pair_models(pairs@),
                    *v == JsonValue::Object(*pairs),
                    canonical_members(pm, i as nat, pair_models(out@)) == canonical_members(pm, 0, Seq::empty()),
                decreases pairs@.len() - i,
            {
                assert(decreases_to!(*v => (*v)->Object_0));
                assert(decreases_to!(*pairs => pairs@));
                assert(decreases_to!(pairs@ => pairs@[i as int]));
                assert(decreases_to!(pairs@[i as int] => pairs@[i as int].1));
                let x = canonicalize_value(&pairs[i].1);
                object_insert(&mut out, pairs[i].0.clone(), x);
                i = i + 1;
            }
            proof {
                lemma_object_model(out);
            }
            JsonValue::Object(out)
        },
        _ => v.deep_clone(),
    }
}

/// Feeds `s` to `h` the way `str`'s `Hash` does.
fn hash_str(h: &mut DefaultHasher, s: &str)
    ensures
        final(h)@ == old(h)@ + str_hash_writes(s@),
{
    let bytes = s.as_bytes();
    assert(bytes@ == vstd::utf8::encode_utf8(s@));
    h.write(bytes);
    let tail: Vec<u8> = vec![0xffu8];
    assert(tail@ == seq![0xffu8]);
    h.write(tail.as_slice());
    assert(h@ =~= old(h)@ + str_hash_writes(s@));
}

impl ToolInvocation {
    /// A fingerprint over the tool name and the canonical (compact, keys
    /// sorted) JSON text of the arguments.
    pub fn fingerprint(&self) -> (r: ToolCallFingerprint)
        ensures
            r.0 == fingerprint_spec(self.name@, self.args@),
    {
        let mut h = DefaultHasher::new();
        hash_str(&mut h, self.name.as_str());
        let canonical_args = canonicalize_value(&self.args);
        let text = crate::json::to_json_text(&canonical_args);
        hash_str(&mut h, text.as_str());
        assert(h@ =~= str_hash_writes(self.name@) + str_hash_writes(crate::json::json_text(canonical(self.args@))));
        proof {
            reveal(fingerprint_spec);
        }
        ToolCallFingerprint(h.finish())
    }
}


/// A dispatch hook that cuts off repeated identical tool calls: once one
/// fingerprint has been requested more than `max_identical_calls` times,
/// every further request of it terminates dispatch.
pub struct StuckLoopHook {
    max_identical_calls: usize,
    counts: HashMap<u64, usize>,
}

/// The termination reason for an invocation named `name` requested `count` times.
pub open spec fn stuck_reason(name: Seq<char>, count: usize) -> Seq<char> {
    "stuck loop detected: `"@ + name + "` has been called "@ + crate::text::decimal(count as nat) + " times"@
}

impl StuckLoopHook {
    /// How many times each fingerprint has been requested.
    pub closed spec fn counts(&self) -> Map<u64, usize> {
        self.counts@
    }

    /// The number of identical calls allowed.
    pub closed spec fn limit(&self) -> usize {
        self.max_identical_calls
    }

    /// A hook that terminates dispatch when a fingerprint is requested more
    /// than `max_identical_calls` times.
    pub fn new(max_identical_calls: usize) -> (r: StuckLoopHook)
        ensures
            r.limit() == max_identical_calls,
            r.counts() == Map::<u64, usize>::empty(),
    {
        StuckLoopHook { max_identical_calls, counts: HashMap::new() }
    }

    /// Counts one more request of `invocation`'s fingerprint and decides:
    /// `Terminate` once the count exceeds the limit, `Continue` before.
    pub fn before_invocation(&mut self, invocation: &ToolInvocation) -> (r: ToolDispatchAction)
        ensures
            ({
                let fp = fingerprint_spec(invocation.name@, invocation.args@);
                let prev: usize = if old(self).counts().contains_key(fp) { old(self).counts()[fp] } else { 0 };
                let count = prev.saturating_add(1);
                &&& final(self).limit() == old(self).limit()
                &&& final(self).counts() == old(self).counts().insert(fp, count)
                &&& if count > old(self).limit() {
                    r matches ToolDispatchAction::Terminate { reason } && reason@ == stuck_reason(invocation.name@, count)
                } else {
                    r is Continue
                }
            }),
    {
        broadcast use vstd::std_specs::hash::group_hash_axioms;
        let fp = invocation.fingerprint().0;
        let prev: usize = match self.counts.get(&fp) {
            Some(c) => *c,
            None => 0,
        };
        let count = prev.saturating_add(1);
        self.counts.insert(fp, count);
        if count > self.max_identical_calls {
            let digits = crate::text::decimal_string(count as u64);
            let head = crate::text::concat3("stuck loop detected: `", invocation.name.as_str(), "` has been called ");
            let reason = crate::text::concat3(head.as_str(), digits.as_str(), " times");
            ToolDispatchAction::Terminate { reason }
        } else {
            ToolDispatchAction::Continue
        }
    }
}

/// One entry in a tool-call history fed back to the model.
#[derive(Debug, PartialEq)]
pub enum HistoryEntry {
    /// The invocation completed and produced `output`.
    Completed {
        /// The invocation that ran.
        invocation: ToolInvocation,
        /// The JSON result the tool returned.
        output: JsonValue,
    },
    /// The invocation failed; `class` is the retry verdict and `message`
    /// the error's rendering.
    Failed {
        /// The invocation that failed.
        invocation: ToolInvocation,
        /// Retry verdict from a [`RetryClassifier`].
        class: RetryClass,
        /// The rendering of the underlying [`KernelError`].
        message: String,
    },
}

/// A history entry as plain values.
pub enum HistoryView {
    Completed { name: Seq<char>, args: Json, output: Json },
    Failed { name: Seq<char>, args: Json, class: RetryClass, message: Seq<char> },
}

impl View for HistoryEntry {
    type V = HistoryView;

    open spec fn view(&self) -> HistoryView {
        match self {
            HistoryEntry::Completed { invocation, output } => HistoryView::Completed {
                name: invocation.name@,
                args: invocation.args@,
                output: output@,
            },
            HistoryEntry::Failed { invocation, class, message } => HistoryView::Failed {
                name: invocation.name@,
                args: invocation.args@,
                class: *class,
                message: message@,
            },
        }
    }
}

/// Views of a sequence of entries.
pub open spec fn history_views(s: Seq<HistoryEntry>) -> Seq<HistoryView> {
    Seq::new(s.len(), |i: int| s[i]@)
}

/// The fingerprint of an entry's invocation.
pub open spec fn entry_fp(v: HistoryView) -> u64 {
    match v {
        HistoryView::Completed { name, args, .. } => fingerprint_spec(name, args),
        HistoryView::Failed { name, args, .. } => fingerprint_spec(name, args),
    }
}

impl Clone for HistoryEntry {
    fn clone(&self) -> (r: HistoryEntry)
        ensures
            r@ == self@,
    {
        match self {
            HistoryEntry::Completed { invocation, output } => HistoryEntry::Completed {
                invocation: invocation.copy(),
                output: output.deep_clone(),
            },
            HistoryEntry::Failed { invocation, class, message } => HistoryEntry::Failed {
                invocation: invocation.copy(),
                class: *class,
                message: message.clone(),
            },
        }
    }
}

impl HistoryEntry {
    /// The fingerprint of this entry's invocation.
    pub fn fingerprint(&self) -> (r: ToolCallFingerprint)
        ensures
            r.0 == entry_fp(self@),
    {
        match self {
            HistoryEntry::Completed { invocation, .. } => invocation.fingerprint(),
            HistoryEntry::Failed { invocation, .. } => invocation.fingerprint(),
        }
    }

    /// A `Completed` entry for a dispatch result.
    pub fn completed(result: ToolInvocationResult) -> (r: HistoryEntry)
        ensures
            r == (HistoryEntry::Completed { invocation: result.invocation, output: result.output }),
    {
        HistoryEntry::Completed { invocation: result.invocation, output: result.output }
    }

    /// A `Failed` entry for `error`, classified by `classifier`, its message
    /// the error's rendering.
    pub fn failed<C: RetryClassifier>(invocation: ToolInvocation, error: &KernelError, classifier: &C) -> (r: HistoryEntry)
        ensures
            r matches HistoryEntry::Failed { invocation: i, class, message } && i == invocation
                && class == classifier.verdict(*error)
                && (error_text(*error) matches Some(t) ==> message@ == t),
    {
        let class = classifier.classify(error);
        HistoryEntry::Failed { invocation, class, message: error.message() }
    }
}

/// Index of the first `Completed` entry with fingerprint `fp`.
pub open spec fn first_completed(s: Seq<HistoryView>, fp: u64) -> Option<nat>
    decreases s.len(),
{
    if s.len() == 0 {
        None
    } else if s[0] is Completed && entry_fp(s[0]) == fp {
        Some(0)
    } else {
        match first_completed(s.drop_first(), fp) {
            Some(i) => Some(i + 1),
            None => None,
        }
    }
}

/// Index of the last entry with fingerprint `fp`.
pub open spec fn last_with(s: Seq<HistoryView>, fp: u64) -> Option<nat>
    decreases s.len(),
{
    if s.len() == 0 {
        None
    } else if entry_fp(s.last()) == fp {
        Some((s.len() - 1) as nat)
    } else {
        last_with(s.drop_last(), fp)
    }
}

/// The entry kept for fingerprint `fp`: its first completion, or else its
/// last failure.
pub open spec fn pick(s: Seq<HistoryView>, fp: u64) -> nat {
    match first_completed(s, fp) {
        Some(i) => i,
        None => match last_with(s, fp) {
            Some(i) => i,
            None => 0,
        },
    }
}

/// Whether entry `i` is the first with its fingerprint.
pub open spec fn is_first(s: Seq<HistoryView>, i: int) -> bool {
    forall|j: int| 0 <= j < i ==> entry_fp(#[trigger] s[j]) != entry_fp(s[i])
}

/// The repaired history of entries `i..`: one entry per fingerprint, at the
/// fingerprint's first occurrence.
pub open spec fn repair_from(s: Seq<HistoryView>, i: nat) -> Seq<HistoryView>
    decreases s.len() - i,
{
    if i >= s.len() {
        Seq::empty()
    } else {
        let head = if is_first(s, i as int) {
            seq![s[pick(s, entry_fp(s[i as int])) as int]]
        } else {
            Seq::empty()
        };
        head + repair_from(s, i + 1)
    }
}

/// The repaired history: grouped by fingerprint in first-occurrence order,
/// each group's first completion kept, or its last failure when it has none.
pub open spec fn repair_spec(s: Seq<HistoryView>) -> Seq<HistoryView> {
    repair_from(s, 0)
}

proof fn lemma_first_completed(s: Seq<HistoryView>, fp: u64)
    ensures
        first_completed(s, fp) matches Some(i) ==> i < s.len() && s[i as int] is Completed && entry_fp(s[i as int]) == fp
            && forall|j: int| 0 <= j < i ==> !(#[trigger] s[j] is Completed && entry_fp(s[j]) == fp),
        first_completed(s, fp) is None ==> forall|j: int| 0 <= j < s.len() ==> !(#[trigger] s[j] is Completed && entry_fp(s[j]) == fp),
    decreases s.len(),
{
    if s.len() > 0 {
        lemma_first_completed(s.drop_first(), fp);
        assert forall|j: int| 1 <= j < s.len() implies #[trigger] s[j] == s.drop_first()[j - 1] by {}
    }
}

proof fn lemma_last_with(s: Seq<HistoryView>, fp: u64)
    ensures
        last_with(s, fp) matches Some(i) ==> i < s.len() && entry_fp(s[i as int]) == fp
            && forall|j: int| i < j < s.len() ==> entry_fp(#[trigger] s[j]) != fp,
        last_with(s, fp) is None ==> forall|j: int| 0 <= j < s.len() ==> entry_fp(#[trigger] s[j]) != fp,
    decreases s.len(),
{
    if s.len() > 0 {
        lemma_last_with(s.drop_last(), fp);
        assert forall|j: int| 0 <= j < s.len() - 1 implies #[trigger] s[j] == s.drop_last()[j] by {}
    }
}

proof fn lemma_pick(s: Seq<HistoryView>, k: int)
    requires
        0 <= k < s.len(),
    ensures
        pick(s, entry_fp(s[k])) < s.len(),
        entry_fp(s[pick(s, entry_fp(s[k])) as int]) == entry_fp(s[k]),
{
    lemma_first_completed(s, entry_fp(s[k]));
    lemma_last_with(s, entry_fp(s[k]));
}

/// Coalesces a tool-call history: one entry per fingerprint, in the order
/// of each fingerprint's first occurrence; the first completion of a
/// fingerprint is kept, or, when it never completed, its last failure.
pub fn repair_history(entries: &[HistoryEntry]) -> (r: Vec<HistoryEntry>)
    ensures
        history_views(r@) == repair_spec(history_views(entries@)),
{
    let ghost v = history_views(entries@);
    let n = entries.len();
    let mut fps: Vec<u64> = Vec::new();
    let mut k: usize = 0;
    while k < n
        invariant
            n == entries@.len(),
            v == history_views(entries@),
            k <= n,
            fps@.len() == k,
            forall|j: int| 0 <= j < k ==> fps@[j] == entry_fp(#[trigger] v[j]),
        decreases n - k,
    {
        fps.push(entries[k].fingerprint().0);
        k = k + 1;
    }
    let mut out: Vec<HistoryEntry> = Vec::new();
    let mut i: usize = 0;
    assert(history_views(out@) + repair_from(v, 0) =~= repair_spec(v));
    while i < n
        invariant
            n == entries@.len(),
            v == history_views(entries@),
            i <= n,
            fps@.len() == n,
            forall|j: int| 0 <= j < n ==> fps@[j] == entry_fp(#[trigger] v[j]),
            history_views(out@) + repair_from(v, i as nat) == repair_spec(v),
        decreases n - i,
    {
        let fp = fps[i];
        let mut first = true;
        let mut j: usize = 0;
        while j < i
            invariant
                i < n,
                j <= i,
                fps@.len() == n,
                fp == fps@[i as int],
                first == forall|m: int| 0 <= m < j ==> fps@[m] != fp,
            decreases i - j,
        {
            if fps[j] == fp {
                first = false;
            }
            j = j + 1;
        }
        assert(first == is_first(v, i as int)) by {
            if first {
                assert forall|m: int| 0 <= m < i implies entry_fp(#[trigger] v[m]) != entry_fp(v[i as int]) by {
                    assert(fps@[m] != fp);
                }
            } else {
                let m = choose|m: int| 0 <= m < i && fps@[m] == fp;
                assert(entry_fp(v[m]) == entry_fp(v[i as int]));
            }
        }
        let ghost before = history_views(out@);
        if first {
            let mut chosen: usize = n;
            let mut c: usize = 0;
            while c < n
                invariant
                    c <= n,
                    n == entries@.len(),
                    v == history_views(entries@),
                    fps@.len() == n,
                    forall|q: int| 0 <= q < n ==> fps@[q] == entry_fp(#[trigger] v[q]),
                    chosen <= n,
                    i < n,
                    fp == entry_fp(v[i as int]),
                    chosen == n ==> forall|q: int| 0 <= q < c ==> !(#[trigger] v[q] is Completed && entry_fp(v[q]) == fp),
                    chosen < n ==> first_completed(v, fp) == Some(chosen as nat),
                decreases n - c,
            {
                if chosen == n && fps[c] == fp {
                    if let HistoryEntry::Completed { .. } = &entries[c] {
                        proof {
                            lemma_first_completed(v, fp);
                            assert(v[c as int] is Completed);
                            if first_completed(v, fp) is None {
                                assert(false);
                            } else {
                                let f = first_completed(v, fp)->0;
                                if f < c {
                                    assert(false);
                                } else if f > c {
                                    assert(v[c as int] is Completed && entry_fp(v[c as int]) == fp);
                                }
                            }
                        }
                        chosen = c;
                    }
                }
                c = c + 1;
            }
            if chosen == n {
                proof {
                    lemma_first_completed(v, fp);
                    if first_completed(v, fp) is Some {
                        let f = first_completed(v, fp)->0;
                        assert(v[f as int] is Completed && entry_fp(v[f as int]) == fp);
                    }
                }
                assert(first_completed(v, fp) is None);
                let mut b: usize = n;
                while b > 0 && fps[b - 1] != fp
                    invariant
                        b <= n,
                        i < n,
                        fp == entry_fp(v[i as int]),
                        fps@.len() == n,
                        forall|q: int| 0 <= q < n ==> fps@[q] == entry_fp(#[trigger] v[q]),
                        forall|q: int| b <= q < n ==> entry_fp(#[trigger] v[q]) != fp,
                    decreases b,
                {
                    b = b - 1;
                }
                proof {
                    lemma_last_with(v, fp);
                    assert(b > 0) by {
                        assert(entry_fp(v[i as int]) == fp);
                    }
                    let l = last_with(v, fp);
                    if l is None {
                        assert(entry_fp(v[i as int]) == fp);
                    } else {
                        let li = l->0;
                        if li > b - 1 {
                            assert(entry_fp(v[li as int]) != fp);
                        } else if li < b - 1 {
                            assert(entry_fp(v[b - 1]) == fp);
                        }
                    }
                    assert(last_with(v, fp) == Some((b - 1) as nat));
                }
                chosen = b - 1;
            }
            assert(chosen as nat == pick(v, entry_fp(v[i as int])));
            out.push(entries[chosen].clone());
        }
        proof {
            assert(history_views(out@) =~= before + (if is_first(v, i as int) {
                seq![v[pick(v, entry_fp(v[i as int])) as int]]
            } else {
                Seq::empty()
            }));
        }
        i = i + 1;
    }
    assert(repair_from(v, n as nat) =~= Seq::<HistoryView>::empty());
    assert(history_views(out@) =~= history_views(out@) + Seq::<HistoryView>::empty());
    out
}

/// Whether no two entries share a fingerprint.
pub open spec fn distinct_fps(s: Seq<HistoryView>) -> bool {
    forall|a: int, b: int| 0 <= a < b < s.len() ==> entry_fp(#[trigger] s[a]) != entry_fp(#[trigger] s[b])
}

/// Some entry from `i` on is the first with fingerprint `fp`.
spec fn first_fp_from(s: Seq<HistoryView>, i: nat, fp: u64) -> bool {
    exists|k: int| i <= k < s.len() && is_first(s, k) && entry_fp(s[k]) == fp
}

/// Every entry of `r` has the fingerprint of a first entry of `s` from `i` on.
spec fn from_firsts(s: Seq<HistoryView>, i: nat, r: Seq<HistoryView>) -> bool {
    forall|a: int| 0 <= a < r.len() ==> #[trigger] first_fp_from(s, i, entry_fp(r[a]))
}

proof fn lemma_first_fp_from_widen(s: Seq<HistoryView>, i: nat, fp: u64)
    requires
        first_fp_from(s, i + 1, fp),
    ensures
        first_fp_from(s, i, fp),
{
    let k = choose|k: int| i + 1 <= k < s.len() && is_first(s, k) && entry_fp(s[k]) == fp;
    assert(i <= k < s.len() && is_first(s, k) && entry_fp(s[k]) == fp);
}

proof fn lemma_repair_from_fps(s: Seq<HistoryView>, i: nat)
    ensures
        distinct_fps(repair_from(s, i)),
        from_firsts(s, i, repair_from(s, i)),
    decreases s.len() - i,
{
    let r = repair_from(s, i);
    if i < s.len() {
        lemma_repair_from_fps(s, i + 1);
        let tail = repair_from(s, i + 1);
        if is_first(s, i as int) {
            lemma_pick(s, i as int);
            let h = s[pick(s, entry_fp(s[i as int])) as int];
            assert(r == seq![h] + tail);
            assert forall|a: int| 0 <= a < r.len() implies #[trigger] first_fp_from(s, i, entry_fp(r[a])) by {
                if a == 0 {
                    assert(entry_fp(r[0]) == entry_fp(s[i as int]));
                    assert(i <= i < s.len() && is_first(s, i as int));
                } else {
                    assert(r[a] == tail[a - 1]);
                    assert(first_fp_from(s, i + 1, entry_fp(tail[a - 1])));
                    lemma_first_fp_from_widen(s, i, entry_fp(tail[a - 1]));
                }
            }
            assert forall|a: int, b: int| 0 <= a < b < r.len() implies entry_fp(#[trigger] r[a]) != entry_fp(#[trigger] r[b]) by {
                assert(r[b] == tail[b - 1]);
                if a == 0 {
                    assert(first_fp_from(s, i + 1, entry_fp(tail[b - 1])));
                    let k = choose|k: int| i + 1 <= k < s.len() && is_first(s, k) && entry_fp(s[k]) == entry_fp(tail[b - 1]);
                    assert(entry_fp(s[i as int]) != entry_fp(s[k]));
                } else {
                    assert(r[a] == tail[a - 1]);
                }
            }
        } else {
            assert(r =~= tail);
            assert forall|a: int| 0 <= a < r.len() implies #[trigger] first_fp_from(s, i, entry_fp(r[a])) by {
                assert(first_fp_from(s, i + 1, entry_fp(tail[a])));
                lemma_first_fp_from_widen(s, i, entry_fp(tail[a]));
            }
        }
    } else {
        assert(r.len() == 0);
    }
}

proof fn lemma_repair_distinct(t: Seq<HistoryView>, i: nat)
    requires
        distinct_fps(t),
        i <= t.len(),
    ensures
        repair_from(t, i) == t.skip(i as int),
    decreases t.len() - i,
{
    if i < t.len() {
        lemma_repair_distinct(t, i + 1);
        let fp = entry_fp(t[i as int]);
        assert(is_first(t, i as int));
        lemma_first_completed(t, fp);
        lemma_last_with(t, fp);
        if t[i as int] is Completed {
            let f = first_completed(t, fp)->0;
            if f != i {
                assert(entry_fp(t[f as int]) == fp);
            }
        } else {
            if first_completed(t, fp) is Some {
                let f = first_completed(t, fp)->0;
                assert(entry_fp(t[f as int]) == fp);
                assert(f != i);
            }
            let l = last_with(t, fp)->0;
            if l != i {
                assert(entry_fp(t[l as int]) == fp);
            }
        }
        assert(pick(t, fp) == i);
        assert(t.skip(i as int) =~= seq![t[i as int]] + t.skip((i + 1) as int));
    } else {
        assert(t.skip(i as int) =~= Seq::<HistoryView>::empty());
    }
}

/// Repairing a repaired history changes nothing.
pub proof fn law_repair_idempotent(s: Seq<HistoryView>)
    ensures
        repair_spec(repair_spec(s)) == repair_spec(s),
{
    lemma_repair_from_fps(s, 0);
    lemma_repair_distinct(repair_spec(s), 0);
    assert(repair_spec(s).skip(0) =~= repair_spec(s));
}

/// A repaired history holds one entry per fingerprint.
pub proof fn law_repair_one_per_fingerprint(s: Seq<HistoryView>)
    ensures
        distinct_fps(repair_spec(s)),
{
    lemma_repair_from_fps(s, 0);
}
/// No key occurs twice among the members.
pub open spec fn keys_distinct(p: Seq<(Seq<char>, Json)>) -> bool {
    forall|i: int, j: int| 0 <= i < j < p.len() ==> #[trigger] p[i].0 != #[trigger] p[j].0
}

/// Inserting into members sorted by key keeps them sorted, and gives the
/// new member plus the old ones of other keys.
proof fn lemma_obj_insert(p: Seq<(Seq<char>, Json)>, k: Seq<char>, v: Json)
    requires
        keys_sorted(p),
    ensures
        keys_sorted(obj_insert(p, k, v)),
        forall|x: (Seq<char>, Json)|
            #![trigger obj_insert(p, k, v).contains(x)]
            obj_insert(p, k, v).contains(x) <==> (x == (k, v) || (p.contains(x) && x.0 != k)),
    decreases p.len(),
{
    let r = obj_insert(p, k, v);
    if p.len() == 0 {
        assert forall|x: (Seq<char>, Json)| r.contains(x) <==> (x == (k, v) || (p.contains(x) && x.0 != k)) by {
            if r.contains(x) {
                assert(r[0] == x);
            }
            if x == (k, v) {
                assert(r[0] == x);
            }
        }
    } else {
        let rest = p.drop_first();
        assert(keys_sorted(rest)) by {
            assert forall|i: int, j: int| 0 <= i < j < rest.len() implies seq_lt(#[trigger] rest[i].0, #[trigger] rest[j].0) by {
                assert(rest[i] == p[i + 1] && rest[j] == p[j + 1]);
            }
        }
        assert forall|j: int| 0 <= j < rest.len() implies seq_lt(p[0].0, (#[trigger] rest[j]).0) by {
            assert(rest[j] == p[j + 1]);
        }
        if p[0].0 == k {
            assert(r =~= seq![(k, v)] + rest);
            assert forall|x: (Seq<char>, Json)| r.contains(x) <==> (x == (k, v) || (p.contains(x) && x.0 != k)) by {
                if r.contains(x) {
                    let i = choose|i: int| 0 <= i < r.len() && r[i] == x;
                    if i > 0 {
                        assert(x == rest[i - 1] && x == p[i]);
                        lemma_seq_lt_irrefl(p[0].0, rest[i - 1].0);
                    }
                }
                if p.contains(x) && x.0 != k {
                    let i = choose|i: int| 0 <= i < p.len() && p[i] == x;
                    assert(i > 0);
                    assert(r[i] == x);
                }
                if x == (k, v) {
                    assert(r[0] == x);
                }
            }
        } else if seq_lt(k, p[0].0) {
            assert(r =~= seq![(k, v)] + p);
            assert forall|x: (Seq<char>, Json)| r.contains(x) <==> (x == (k, v) || (p.contains(x) && x.0 != k)) by {
                if r.contains(x) {
                    let i = choose|i: int| 0 <= i < r.len() && r[i] == x;
                    if i > 0 {
                        assert(x == p[i - 1]);
                        if i > 1 {
                            lemma_seq_lt_trans(k, p[0].0, p[i - 1].0);
                        }
                        lemma_seq_lt_irrefl(k, p[i - 1].0);
                    }
                }
                if p.contains(x) && x.0 != k {
                    let i = choose|i: int| 0 <= i < p.len() && p[i] == x;
                    assert(r[i + 1] == x);
                }
                if x == (k, v) {
                    assert(r[0] == x);
                }
            }
            assert forall|i: int, j: int| 0 <= i < j < r.len() implies seq_lt(#[trigger] r[i].0, #[trigger] r[j].0) by {
                if i == 0 {
                    if j > 1 {
                        lemma_seq_lt_trans(k, p[0].0, p[j - 1].0);
                    }
                } else {
                    assert(r[i] == p[i - 1] && r[j] == p[j - 1]);
                }
            }
        } else {
            lemma_seq_lt_total(k, p[0].0);
            lemma_obj_insert(rest, k, v);
            let ins = obj_insert(rest, k, v);
            assert(r =~= seq![p[0]] + ins);
            assert forall|x: (Seq<char>, Json)| r.contains(x) <==> (x == (k, v) || (p.contains(x) && x.0 != k)) by {
                if r.contains(x) {
                    let i = choose|i: int| 0 <= i < r.len() && r[i] == x;
                    if i > 0 {
                        assert(ins[i - 1] == x);
                        assert(ins.contains(x));
                        if rest.contains(x) {
                            let j = choose|j: int| 0 <= j < rest.len() && rest[j] == x;
                            assert(p[j + 1] == x);
                        }
                    } else {
                        assert(p[0] == x);
                    }
                }
                if p.contains(x) && x.0 != k {
                    let i = choose|i: int| 0 <= i < p.len() && p[i] == x;
                    if i > 0 {
                        assert(rest[i - 1] == x);
                        assert(ins.contains(x));
                        let j = choose|j: int| 0 <= j < ins.len() && ins[j] == x;
                        assert(r[j + 1] == x);
                    } else {
                        assert(r[0] == x);
                    }
                }
                if x == (k, v) {
                    assert(ins.contains(x));
                    let j = choose|j: int| 0 <= j < ins.len() && ins[j] == x;
                    assert(r[j + 1] == x);
                }
            }
            assert forall|i: int, j: int| 0 <= i < j < r.len() implies seq_lt(#[trigger] r[i].0, #[trigger] r[j].0) by {
                if i == 0 {
                    assert(r[j] == ins[j - 1]);
                    assert(ins.contains(ins[j - 1]));
                    if rest.contains(ins[j - 1]) {
                        let m = choose|m: int| 0 <= m < rest.len() && rest[m] == ins[j - 1];
                    }
                } else {
                    assert(r[i] == ins[i - 1] && r[j] == ins[j - 1]);
                }
            }
        }
    }
}

/// What re-inserting members `i..` of `m` into `acc` gives, for members of
/// distinct keys: sorted members, holding the canonical form of each of
/// them, and the members of `acc` whose key none of them has.
proof fn lemma_canonical_members(m: Seq<(Seq<char>, Json)>, i: nat, acc: Seq<(Seq<char>, Json)>)
    requires
        i <= m.len(),
        keys_distinct(m),
        keys_sorted(acc),
    ensures
        canonical_members(m, i, acc) is Obj,
        keys_sorted(canonical_members(m, i, acc)->Obj_0),
        forall|x: (Seq<char>, Json)|
            #![trigger canonical_members(m, i, acc)->Obj_0.contains(x)]
            canonical_members(m, i, acc)->Obj_0.contains(x) <==> (
            (acc.contains(x) && forall|j: int| i <= j < m.len() ==> (#[trigger] m[j]).0 != x.0)
            || exists|j: int| i <= j < m.len() && x == ((#[trigger] m[j]).0, canonical(m[j].1))),
    decreases m.len() - i,
{
    if i < m.len() {
        let k = m[i as int].0;
        let c = canonical(m[i as int].1);
        let acc2 = obj_insert(acc, k, c);
        lemma_obj_insert(acc, k, c);
        lemma_canonical_members(m, i + 1, acc2);
        let f = canonical_members(m, i, acc)->Obj_0;
        assert(f == canonical_members(m, i + 1, acc2)->Obj_0);
        assert forall|x: (Seq<char>, Json)| f.contains(x) <==> (
            (acc.contains(x) && forall|j: int| i <= j < m.len() ==> (#[trigger] m[j]).0 != x.0)
            || exists|j: int| i <= j < m.len() && x == ((#[trigger] m[j]).0, canonical(m[j].1))) by {
            if x == (k, c) {
                assert forall|j: int| i + 1 <= j < m.len() implies (#[trigger] m[j]).0 != x.0 by {
                    assert(m[i as int].0 != m[j].0);
                }
                assert(acc2.contains(x));
                assert(x == (m[i as int].0, canonical(m[i as int].1)));
            } else {
                if exists|j: int| i <= j < m.len() && x == ((#[trigger] m[j]).0, canonical(m[j].1)) {
                    let j = choose|j: int| i <= j < m.len() && x == ((#[trigger] m[j]).0, canonical(m[j].1));
                    assert(j != i);
                }
                if exists|j: int| i + 1 <= j < m.len() && x == ((#[trigger] m[j]).0, canonical(m[j].1)) {
                    let j = choose|j: int| i + 1 <= j < m.len() && x == ((#[trigger] m[j]).0, canonical(m[j].1));
                    assert(i <= j);
                }
                if acc.contains(x) && forall|j: int| i <= j < m.len() ==> (#[trigger] m[j]).0 != x.0 {
                    assert(m[i as int].0 != x.0);
                }
                if acc2.contains(x) && forall|j: int| i + 1 <= j < m.len() ==> (#[trigger] m[j]).0 != x.0 {
                    assert(x.0 != k);
                    assert forall|j: int| i <= j < m.len() implies (#[trigger] m[j]).0 != x.0 by {
                        if j == i {
                        }
                    }
                }
            }
        }
    }
}

/// Members sorted by key are fixed by the set of members they hold.
proof fn lemma_sorted_members_unique(a: Seq<(Seq<char>, Json)>, b: Seq<(Seq<char>, Json)>)
    requires
        keys_sorted(a),
        keys_sorted(b),
        forall|x: (Seq<char>, Json)| a.contains(x) <==> b.contains(x),
    ensures
        a == b,
    decreases a.len(),
{
    if a.len() == 0 {
        if b.len() > 0 {
            assert(b.contains(b[0]));
        }
        assert(a =~= b);
    } else {
        assert(a.contains(a[0]));
        assert(b.len() > 0);
        assert(b.contains(b[0]));
        let j = choose|j: int| 0 <= j < b.len() && b[j] == a[0];
        let i = choose|i: int| 0 <= i < a.len() && a[i] == b[0];
        if j > 0 {
            assert(seq_lt(b[0].0, b[j].0));
            if i > 0 {
                assert(seq_lt(a[0].0, a[i].0));
                lemma_seq_lt_trans(a[0].0, b[0].0, a[0].0);
                lemma_seq_lt_irrefl(a[0].0, a[0].0);
            } else {
                lemma_seq_lt_irrefl(b[0].0, b[j].0);
            }
        }
        assert(a[0] == b[0]);
        let a1 = a.drop_first();
        let b1 = b.drop_first();
        assert(keys_sorted(a1)) by {
            assert forall|p: int, q: int| 0 <= p < q < a1.len() implies seq_lt(#[trigger] a1[p].0, #[trigger] a1[q].0) by {
                assert(a1[p] == a[p + 1] && a1[q] == a[q + 1]);
            }
        }
        assert(keys_sorted(b1)) by {
            assert forall|p: int, q: int| 0 <= p < q < b1.len() implies seq_lt(#[trigger] b1[p].0, #[trigger] b1[q].0) by {
                assert(b1[p] == b[p + 1] && b1[q] == b[q + 1]);
            }
        }
        assert forall|x: (Seq<char>, Json)| a1.contains(x) <==> b1.contains(x) by {
            if a1.contains(x) {
                let p = choose|p: int| 0 <= p < a1.len() && a1[p] == x;
                assert(a[p + 1] == x);
                assert(b.contains(x));
                let q = choose|q: int| 0 <= q < b.len() && b[q] == x;
                if q == 0 {
                    lemma_seq_lt_irrefl(a[0].0, a[p + 1].0);
                }
                assert(b1[q - 1] == x);
            }
            if b1.contains(x) {
                let q = choose|q: int| 0 <= q < b1.len() && b1[q] == x;
                assert(b[q + 1] == x);
                assert(a.contains(x));
                let p = choose|p: int| 0 <= p < a.len() && a[p] == x;
                if p == 0 {
                    lemma_seq_lt_irrefl(b[0].0, b[q + 1].0);
                }
                assert(a1[p - 1] == x);
            }
        }
        lemma_sorted_members_unique(a1, b1);
        assert(a =~= seq![a[0]] + a1);
        assert(b =~= seq![b[0]] + b1);
    }
}

/// `a` and `b` are the same value up to the order of object members, at any
/// depth: arrays item by item, objects (each without a repeated key) with
/// the same keys holding such values, scalars equal.
#[verifier::opaque]
pub open spec fn same_but_order(a: Json, b: Json) -> bool
    decreases a,
{
    match (a, b) {
        (Json::Arr(x), Json::Arr(y)) => x.len() == y.len() && forall|i: int|
            0 <= i < x.len() ==> same_but_order(#[trigger] x[i], y[i]),
        (Json::Obj(p), Json::Obj(q)) => {
            &&& keys_distinct(p)
            &&& keys_distinct(q)
            &&& forall|i: int|
                0 <= i < p.len() ==> exists|j: int|
                    0 <= j < q.len() && q[j].0 == (#[trigger] p[i]).0 && same_but_order(p[i].1, #[trigger] q[j].1)
            &&& forall|j: int| 0 <= j < q.len() ==> exists|i: int| 0 <= i < p.len() && p[i].0 == (#[trigger] q[j]).0
        },
        _ => a == b,
    }
}

proof fn lemma_canonical_items(x: Seq<Json>, i: nat, acc: Seq<Json>)
    requires
        i <= x.len(),
    ensures
        canonical_items(x, i, acc) == Json::Arr(acc + Seq::new((x.len() - i) as nat, |k: int| canonical(x[i + k]))),
    decreases x.len() - i,
{
    if i < x.len() {
        lemma_canonical_items(x, i + 1, acc.push(canonical(x[i as int])));
        assert(acc.push(canonical(x[i as int])) + Seq::new((x.len() - (i + 1)) as nat, |k: int| canonical(x[i + 1 + k]))
            =~= acc + Seq::new((x.len() - i) as nat, |k: int| canonical(x[i + k])));
    } else {
        assert(acc + Seq::new((x.len() - i) as nat, |k: int| canonical(x[i + k])) =~= acc);
    }
}

/// Values that differ only in the order of object members have one
/// canonical form.
proof fn lemma_same_but_order_canonical(a: Json, b: Json)
    requires
        same_but_order(a, b),
    ensures
        canonical(a) == canonical(b),
    decreases a, 2nat,
{
    reveal(same_but_order);
    match (a, b) {
        (Json::Arr(x), Json::Arr(y)) => lemma_same_items_canonical(a, x, y),
        (Json::Obj(p), Json::Obj(q)) => lemma_same_members_canonical(a, p, q),
        _ => {},
    }
}

proof fn lemma_same_items_canonical(a: Json, x: Seq<Json>, y: Seq<Json>)
    requires
        a == Json::Arr(x),
        same_but_order(a, Json::Arr(y)),
    ensures
        canonical(a) == canonical(Json::Arr(y)),
    decreases a, 1nat,
{
    reveal(same_but_order);
    assert forall|i: int| 0 <= i < x.len() implies canonical(x[i]) == canonical(y[i]) by {
        assert(same_but_order(x[i], y[i]));
        assert(decreases_to!(a => x));
        assert(decreases_to!(x => x[i]));
        lemma_same_but_order_canonical(x[i], y[i]);
    }
    lemma_canonical_items(x, 0, Seq::empty());
    lemma_canonical_items(y, 0, Seq::empty());
    assert(Seq::<Json>::empty() + Seq::new(x.len(), |k: int| canonical(x[0 + k])) =~= Seq::<Json>::empty()
        + Seq::new(y.len(), |k: int| canonical(y[0 + k])));
}

/// Every member of `p` has a member of `q` with its key and its canonical value.
proof fn lemma_members_covered(a: Json, p: Seq<(Seq<char>, Json)>, q: Seq<(Seq<char>, Json)>)
    requires
        a == Json::Obj(p),
        same_but_order(a, Json::Obj(q)),
    ensures
        forall|i: int|
            0 <= i < p.len() ==> exists|j: int|
                0 <= j < q.len() && q[j].0 == (#[trigger] p[i]).0 && canonical(q[j].1) == canonical(p[i].1),
    decreases a, 0nat,
{
    reveal(same_but_order);
    assert forall|i: int| 0 <= i < p.len() implies exists|j: int|
        0 <= j < q.len() && q[j].0 == (#[trigger] p[i]).0 && canonical(q[j].1) == canonical(p[i].1) by {
        let j = choose|j: int|
            0 <= j < q.len() && q[j].0 == (#[trigger] p[i]).0 && same_but_order(p[i].1, #[trigger] q[j].1);
        assert(decreases_to!(a => p));
        assert(decreases_to!(p => p[i]));
        assert(decreases_to!(p[i] => p[i].1));
        lemma_same_but_order_canonical(p[i].1, q[j].1);
    }
}

/// Every member of `q` has a member of `p` with its key and its canonical value.
proof fn lemma_members_covered_back(a: Json, p: Seq<(Seq<char>, Json)>, q: Seq<(Seq<char>, Json)>)
    requires
        a == Json::Obj(p),
        same_but_order(a, Json::Obj(q)),
    ensures
        forall|j: int|
            0 <= j < q.len() ==> exists|i: int|
                0 <= i < p.len() && p[i].0 == (#[trigger] q[j]).0 && canonical(p[i].1) == canonical(q[j].1),
    decreases a, 0nat,
{
    reveal(same_but_order);
    assert forall|j: int| 0 <= j < q.len() implies exists|i: int|
        0 <= i < p.len() && p[i].0 == (#[trigger] q[j]).0 && canonical(p[i].1) == canonical(q[j].1) by {
        let i = choose|i: int| 0 <= i < p.len() && p[i].0 == (#[trigger] q[j]).0;
        let j2 = choose|j2: int|
            0 <= j2 < q.len() && q[j2].0 == (#[trigger] p[i]).0 && same_but_order(p[i].1, #[trigger] q[j2].1);
        if j2 < j {
            assert(q[j2].0 != q[j].0);
        } else if j < j2 {
            assert(q[j].0 != q[j2].0);
        }
        assert(decreases_to!(a => p));
        assert(decreases_to!(p => p[i]));
        assert(decreases_to!(p[i] => p[i].1));
        lemma_same_but_order_canonical(p[i].1, q[j].1);
    }
}

proof fn lemma_same_members_canonical(a: Json, p: Seq<(Seq<char>, Json)>, q: Seq<(Seq<char>, Json)>)
    requires
        a == Json::Obj(p),
        same_but_order(a, Json::Obj(q)),
    ensures
        canonical(a) == canonical(Json::Obj(q)),
    decreases a, 1nat,
{
    assert(keys_distinct(p) && keys_distinct(q)) by {
        reveal(same_but_order);
    }
    lemma_members_covered(a, p, q);
    lemma_members_covered_back(a, p, q);
    lemma_covered_members_canonical(p, q);
}

/// Objects without repeated keys whose members match key for key with equal
/// canonical values have one canonical form.
proof fn lemma_covered_members_canonical(p: Seq<(Seq<char>, Json)>, q: Seq<(Seq<char>, Json)>)
    requires
        keys_distinct(p),
        keys_distinct(q),
        forall|i: int|
            0 <= i < p.len() ==> exists|j: int|
                0 <= j < q.len() && q[j].0 == (#[trigger] p[i]).0 && canonical(q[j].1) == canonical(p[i].1),
        forall|j: int|
            0 <= j < q.len() ==> exists|i: int|
                0 <= i < p.len() && p[i].0 == (#[trigger] q[j]).0 && canonical(p[i].1) == canonical(q[j].1),
    ensures
        canonical(Json::Obj(p)) == canonical(Json::Obj(q)),
{
    let e = Seq::<(Seq<char>, Json)>::empty();
    lemma_canonical_members(p, 0, e);
    lemma_canonical_members(q, 0, e);
    let cp = canonical_members(p, 0, e)->Obj_0;
    let cq = canonical_members(q, 0, e)->Obj_0;
    assert forall|x: (Seq<char>, Json)| cp.contains(x) implies cq.contains(x) by {
        let i = choose|i: int| 0 <= i < p.len() && x == ((#[trigger] p[i]).0, canonical(p[i].1));
        let j = choose|j: int| 0 <= j < q.len() && q[j].0 == (#[trigger] p[i]).0 && canonical(q[j].1) == canonical(p[i].1);
        assert(x == (q[j].0, canonical(q[j].1)));
    }
    assert forall|x: (Seq<char>, Json)| cq.contains(x) implies cp.contains(x) by {
        let j = choose|j: int| 0 <= j < q.len() && x == ((#[trigger] q[j]).0, canonical(q[j].1));
        let i = choose|i: int| 0 <= i < p.len() && p[i].0 == (#[trigger] q[j]).0 && canonical(p[i].1) == canonical(q[j].1);
        assert(x == (p[i].0, canonical(p[i].1)));
    }
    lemma_sorted_members_unique(cp, cq);
}

/// Two invocations of one tool whose arguments differ only in the order of
/// object members, at any depth, have the same fingerprint.
pub proof fn law_fingerprint_member_order(name: Seq<char>, a: Json, b: Json)
    requires
        same_but_order(a, b),
    ensures
        fingerprint_spec(name, a) == fingerprint_spec(name, b),
{
    lemma_same_but_order_canonical(a, b);
    reveal(fingerprint_spec);
}
} // verus!
