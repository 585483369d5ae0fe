//! Retry classification, fingerprints, history repair, stuck-loop detection.

use std::hash::{Hash, Hasher};

use rig_compose::json::{JsonNumber, JsonValue};
use rig_compose::normalizer::{ToolDispatchAction, ToolInvocation, ToolInvocationResult};
use rig_compose::registry::KernelError;
use rig_compose::reliability::{
    repair_history, DefaultRetryClassifier, HistoryEntry, RetryClass, RetryClassifier, StuckLoopHook,
};

/// The kernel value for a `serde_json` value.
fn from_serde(v: &serde_json::Value) -> JsonValue {
    match v {
        serde_json::Value::Null => JsonValue::Null,
        serde_json::Value::Bool(b) => JsonValue::Bool(*b),
        serde_json::Value::Number(n) => JsonValue::Number(match (n.as_u64(), n.as_i64()) {
            (Some(u), _) => JsonNumber::PosInt(u),
            (None, Some(i)) => JsonNumber::NegInt(i),
            (None, None) => JsonNumber::Float(n.to_string()),
        }),
        serde_json::Value::String(s) => JsonValue::String(s.clone()),
        serde_json::Value::Array(a) => JsonValue::Array(a.iter().map(from_serde).collect()),
        serde_json::Value::Object(m) => JsonValue::Object(m.iter().map(|(k, x)| (k.clone(), from_serde(x))).collect()),
    }
}

fn j(text: &str) -> JsonValue {
    from_serde(&serde_json::from_str(text).unwrap())
}

fn inv(name: &str, args: &str) -> ToolInvocation {
    ToolInvocation::new(name, j(args)).unwrap()
}

#[test]
fn default_classifier_marks_tool_failed_transient() {
    let c = DefaultRetryClassifier;
    assert_eq!(c.classify(&KernelError::ToolFailed("boom".into())), RetryClass::Transient);
    assert_eq!(c.classify(&KernelError::SkillFailed("boom".into())), RetryClass::Transient);
}

#[test]
fn default_classifier_marks_policy_errors_permanent() {
    let c = DefaultRetryClassifier;
    for err in [
        KernelError::ToolNotFound("x".into()),
        KernelError::ToolNotAuthorised("x".into()),
        KernelError::SkillNotFound("x".into()),
        KernelError::ToolNotApplicable("x".into()),
        KernelError::InvalidArgument("x".into()),
        KernelError::NormalizerFailed("x".into()),
        KernelError::ToolDispatchTerminated("x".into()),
        KernelError::BudgetFailed("x".into()),
    ] {
        assert_eq!(c.classify(&err), RetryClass::Permanent, "{err:?}");
    }
}

#[test]
fn fingerprint_is_stable_for_same_invocation() {
    let a = inv("search", r#"{"q": "rig", "limit": 5}"#);
    let b = inv("search", r#"{"q": "rig", "limit": 5}"#);
    assert_eq!(a.fingerprint(), b.fingerprint());
}

fn s(text: &str) -> JsonValue {
    JsonValue::String(text.to_string())
}

fn member(key: &str, value: JsonValue) -> (String, JsonValue) {
    (key.to_string(), value)
}

#[test]
fn fingerprint_ignores_member_order_of_built_objects() {
    let a = JsonValue::Object(vec![
        member("q", s("rig")),
        member("opts", JsonValue::Object(vec![member("z", JsonValue::Bool(true)), member("a", JsonValue::Null)])),
    ]);
    let b = JsonValue::Object(vec![
        member("opts", JsonValue::Object(vec![member("a", JsonValue::Null), member("z", JsonValue::Bool(true))])),
        member("q", s("rig")),
    ]);
    let fa = ToolInvocation::new("search", a).unwrap().fingerprint();
    let fb = ToolInvocation::new("search", b).unwrap().fingerprint();
    assert_eq!(fa, fb);
    assert_eq!(fa, inv("search", r#"{"opts": {"a": null, "z": true}, "q": "rig"}"#).fingerprint());
}

#[test]
fn fingerprint_keeps_the_last_value_of_a_repeated_key() {
    let repeated = JsonValue::Object(vec![member("q", s("old")), member("q", s("new"))]);
    let f = ToolInvocation::new("search", repeated).unwrap().fingerprint();
    assert_eq!(f, inv("search", r#"{"q": "new"}"#).fingerprint());
    assert_ne!(f, inv("search", r#"{"q": "old"}"#).fingerprint());
}

#[test]
fn fingerprint_hashes_name_then_canonical_text() {
    let mut h = std::collections::hash_map::DefaultHasher::new();
    "search".hash(&mut h);
    r#"{"limit":5,"q":"rig"}"#.hash(&mut h);
    let expected = h.finish();
    let b = JsonValue::Object(vec![member("q", s("rig")), member("limit", JsonValue::Number(JsonNumber::PosInt(5)))]);
    assert_eq!(ToolInvocation::new("search", b).unwrap().fingerprint().0, expected);
}

#[test]
fn fingerprint_is_order_independent_for_object_args() {
    let a = inv("search", r#"{"q": "rig", "limit": 5}"#);
    let b = inv("search", r#"{"limit": 5, "q": "rig"}"#);
    assert_eq!(a.fingerprint(), b.fingerprint());
}

#[test]
fn fingerprint_differs_when_args_differ() {
    let a = inv("search", r#"{"q": "rig"}"#);
    let b = inv("search", r#"{"q": "tokio"}"#);
    assert_ne!(a.fingerprint(), b.fingerprint());
}

#[test]
fn fingerprint_differs_when_tool_name_differs() {
    let a = inv("search", r#"{"q": "rig"}"#);
    let b = inv("lookup", r#"{"q": "rig"}"#);
    assert_ne!(a.fingerprint(), b.fingerprint());
}

#[test]
fn fingerprint_matches_a_direct_default_hasher() {
    let a = inv("search", r#"{"q": "rig"}"#);
    let mut h = std::collections::hash_map::DefaultHasher::new();
    "search".to_string().hash(&mut h);
    r#"{"q":"rig"}"#.to_string().hash(&mut h);
    assert_eq!(a.fingerprint().0, h.finish());
}

#[test]
fn repair_keeps_first_completion_after_retries() {
    let i = inv("search", r#"{"q": "rig"}"#);
    let history = vec![
        HistoryEntry::Failed { invocation: i.clone(), class: RetryClass::Transient, message: "timeout".into() },
        HistoryEntry::Completed { invocation: i.clone(), output: j(r#"{"hits": 1}"#) },
        HistoryEntry::Completed { invocation: i, output: j(r#"{"hits": 99}"#) },
    ];
    let repaired = repair_history(&history);
    assert_eq!(repaired.len(), 1);
    match &repaired[0] {
        HistoryEntry::Completed { output, .. } => assert_eq!(output, &j(r#"{"hits": 1}"#)),
        other => panic!("expected Completed, got {other:?}"),
    }
}

#[test]
fn repair_keeps_last_failure_when_no_completion() {
    let i = inv("search", r#"{"q": "rig"}"#);
    let history = vec![
        HistoryEntry::Failed { invocation: i.clone(), class: RetryClass::Transient, message: "first".into() },
        HistoryEntry::Failed { invocation: i, class: RetryClass::Permanent, message: "last".into() },
    ];
    let repaired = repair_history(&history);
    assert_eq!(repaired.len(), 1);
    match &repaired[0] {
        HistoryEntry::Failed { message, class, .. } => {
            assert_eq!(message, "last");
            assert_eq!(*class, RetryClass::Permanent);
        }
        other => panic!("expected Failed, got {other:?}"),
    }
}

#[test]
fn repair_preserves_first_occurrence_order_across_fingerprints() {
    let a = inv("a", r#"{"k": 1}"#);
    let b = inv("b", r#"{"k": 2}"#);
    let history = vec![
        HistoryEntry::Completed { invocation: a.clone(), output: j("null") },
        HistoryEntry::Completed { invocation: b.clone(), output: j("null") },
        HistoryEntry::Completed { invocation: a, output: j(r#""ignored""#) },
    ];
    let repaired = repair_history(&history);
    assert_eq!(repaired.len(), 2);
    assert_eq!(repaired[0].fingerprint(), inv("a", r#"{"k": 1}"#).fingerprint());
    assert_eq!(repaired[1].fingerprint(), inv("b", r#"{"k": 2}"#).fingerprint());
}

#[test]
fn repair_is_idempotent() {
    let i = inv("search", r#"{"q": "rig"}"#);
    let history = vec![
        HistoryEntry::Failed { invocation: i.clone(), class: RetryClass::Transient, message: "x".into() },
        HistoryEntry::Completed { invocation: i, output: j(r#"{"ok": true}"#) },
    ];
    let once = repair_history(&history);
    let twice = repair_history(&once);
    assert_eq!(once, twice);
}

#[test]
fn repair_on_empty_history_returns_empty() {
    assert!(repair_history(&[]).is_empty());
}

#[test]
fn history_entry_failed_helper_records_classifier_verdict() {
    let entry = HistoryEntry::failed(
        inv("search", r#"{"q": "rig"}"#),
        &KernelError::ToolFailed("flake".into()),
        &DefaultRetryClassifier,
    );
    match entry {
        HistoryEntry::Failed { class, message, .. } => {
            assert_eq!(class, RetryClass::Transient);
            assert!(message.contains("flake"));
        }
        other => panic!("expected Failed, got {other:?}"),
    }
}

#[test]
fn history_entry_completed_keeps_the_result() {
    let result = ToolInvocationResult { invocation: inv("echo", "{}"), output: j("[1]") };
    match HistoryEntry::completed(result) {
        HistoryEntry::Completed { invocation, output } => {
            assert_eq!(invocation.name, "echo");
            assert_eq!(output, j("[1]"));
        }
        other => panic!("expected Completed, got {other:?}"),
    }
}

#[test]
fn stuck_loop_terminates_after_threshold() {
    let mut hook = StuckLoopHook::new(2);
    let i = inv("search", r#"{"q": "rig"}"#);
    assert!(matches!(hook.before_invocation(&i), ToolDispatchAction::Continue));
    assert!(matches!(hook.before_invocation(&i), ToolDispatchAction::Continue));
    match hook.before_invocation(&i) {
        ToolDispatchAction::Terminate { reason } => {
            assert!(reason.contains("stuck loop detected"));
            assert!(reason.contains("3 times"));
            assert_eq!(reason, "stuck loop detected: `search` has been called 3 times");
        }
        other => panic!("expected Terminate, got {other:?}"),
    }
}

#[test]
fn stuck_loop_tracks_multiple_distinct_tools() {
    let mut hook = StuckLoopHook::new(1);
    let i1 = inv("search", r#"{"q": "1"}"#);
    let i2 = inv("search", r#"{"q": "2"}"#);
    assert!(matches!(hook.before_invocation(&i1), ToolDispatchAction::Continue));
    assert!(matches!(hook.before_invocation(&i2), ToolDispatchAction::Continue));
    assert!(matches!(hook.before_invocation(&i1), ToolDispatchAction::Terminate { .. }));
    assert!(matches!(hook.before_invocation(&i2), ToolDispatchAction::Terminate { .. }));
}
