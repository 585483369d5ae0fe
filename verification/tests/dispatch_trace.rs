//! The dispatch loop's decisions and the trace they record, driven with
//! scripted hook and tool replies.

use rig_compose::dispatch::{bound_invocation_results, DispatchRequest, ToolDispatcher};
use rig_compose::envelope::ToolResultEnvelopeConfig;
use rig_compose::json::{JsonNumber, JsonValue};
use rig_compose::normalizer::{ToolDispatchAction, ToolInvocation, ToolInvocationOutcome, ToolInvocationResult};
use rig_compose::registry::KernelError;
use rig_compose::trace::{DispatchTrace, DispatchTraceEvent, TracedAction, TracedOutcome};

/// The kernel value for a `serde_json` value.
fn from_serde(v: &serde_json::Value) -> JsonValue {
    match v {
        serde_json::Value::Null => JsonValue::Null,
        serde_json::Value::Bool(b) => JsonValue::Bool(*b),
        serde_json::Value::Number(n) => JsonValue::Number(match (n.as_u64(), n.as_i64()) {
            (Some(u), _) => JsonNumber::PosInt(u),
            (None, Some(i)) => JsonNumber::NegInt(i),
            (None, None) => JsonNumber::Float(n.to_string()),
        }),
        serde_json::Value::String(s) => JsonValue::String(s.clone()),
        serde_json::Value::Array(a) => JsonValue::Array(a.iter().map(from_serde).collect()),
        serde_json::Value::Object(m) => JsonValue::Object(m.iter().map(|(k, x)| (k.clone(), from_serde(x))).collect()),
    }
}

fn j(text: &str) -> JsonValue {
    from_serde(&serde_json::from_str(text).unwrap())
}

fn echo_invocation() -> ToolInvocation {
    ToolInvocation::new("echo", j(r#"{"v": 1}"#)).unwrap()
}

type BeforeHook = fn(&ToolInvocation) -> Result<ToolDispatchAction, KernelError>;

fn reserving(_: &ToolInvocation) -> Result<ToolDispatchAction, KernelError> {
    Ok(ToolDispatchAction::Continue)
}

fn skipping(_: &ToolInvocation) -> Result<ToolDispatchAction, KernelError> {
    Ok(ToolDispatchAction::Skip { output: j(r#"{"skipped": true}"#), reason: Some("policy".to_string()) })
}

fn terminating(_: &ToolInvocation) -> Result<ToolDispatchAction, KernelError> {
    Ok(ToolDispatchAction::Terminate { reason: "limit hit".to_string() })
}

fn erroring(_: &ToolInvocation) -> Result<ToolDispatchAction, KernelError> {
    Err(KernelError::BudgetFailed("nope".into()))
}

/// Runs the dispatch loop with `hooks`, an echoing tool (or a failing one),
/// and records which hooks were told about errors and outcomes.
fn run(
    invocations: Vec<ToolInvocation>,
    hooks: &[BeforeHook],
    tool_fails: bool,
) -> (Result<Vec<ToolInvocationResult>, KernelError>, DispatchTrace, Vec<String>) {
    let mut d = ToolDispatcher::new(invocations, hooks.len());
    let mut calls = Vec::new();
    loop {
        match d.request() {
            DispatchRequest::Before { invocation_index, hook_index } => {
                let reply = hooks[hook_index](d.invocation(invocation_index));
                calls.push(format!("before:{invocation_index}:{hook_index}"));
                d.before_replied(reply);
            }
            DispatchRequest::Invoke { invocation_index } => {
                calls.push(format!("tool:{invocation_index}"));
                let args = d.invocation(invocation_index).args.clone();
                if tool_fails {
                    d.tool_replied(Err(KernelError::ToolFailed("down".into())));
                } else {
                    d.tool_replied(Ok(args));
                }
            }
            DispatchRequest::Cleanup { invocation_index, hook_index } => {
                calls.push(format!("cleanup:{invocation_index}:{hook_index}:{}", d.pending_error().message()));
                d.cleanup_replied(Ok(()));
            }
            DispatchRequest::After { invocation_index, hook_index } => {
                let (result, outcome) = d.pending_result();
                let tag = match outcome {
                    ToolInvocationOutcome::Completed => "completed".to_string(),
                    ToolInvocationOutcome::Skipped { reason } => format!("skipped:{}", reason.clone().unwrap_or_default()),
                };
                calls.push(format!("after:{invocation_index}:{hook_index}:{}:{tag}", result.invocation.name));
                d.after_replied(Ok(()));
            }
            DispatchRequest::Finished => break,
        }
    }
    let (result, trace) = d.finish();
    (result, trace, calls)
}

#[test]
fn trace_records_continue_then_completed() {
    let (results, trace, _) = run(vec![echo_invocation()], &[reserving], false);
    assert_eq!(results.unwrap().len(), 1);
    assert_eq!(
        trace.events(),
        vec![
            DispatchTraceEvent::HookBefore { invocation_index: 0, hook_index: 0, decision: TracedAction::Continue },
            DispatchTraceEvent::HookAfter { invocation_index: 0, hook_index: 0 },
            DispatchTraceEvent::InvocationOutcome { invocation_index: 0, outcome: TracedOutcome::Completed },
        ],
    );
}

#[test]
fn trace_records_skip_with_reason() {
    let (results, trace, _) = run(vec![echo_invocation()], &[skipping], false);
    let results = results.unwrap();
    assert_eq!(results.len(), 1);
    assert_eq!(results[0].output, j(r#"{"skipped": true}"#));
    let events = trace.events();
    assert!(events.contains(&DispatchTraceEvent::HookBefore {
        invocation_index: 0,
        hook_index: 0,
        decision: TracedAction::Skip { reason: Some("policy".to_string()) },
    }));
    assert!(events.contains(&DispatchTraceEvent::InvocationOutcome {
        invocation_index: 0,
        outcome: TracedOutcome::Skipped { reason: Some("policy".to_string()) },
    }));
}

#[test]
fn trace_records_terminate_emits_failure_and_no_completion() {
    let (result, trace, calls) = run(vec![echo_invocation()], &[terminating], false);
    let err = result.unwrap_err();
    assert!(matches!(err, KernelError::ToolDispatchTerminated(_)));
    assert!(!calls.iter().any(|c| c.starts_with("tool:")));
    let events = trace.events();
    assert!(events.iter().any(|e| matches!(
        e,
        DispatchTraceEvent::HookBefore { decision: TracedAction::Terminate { .. }, .. }
    )));
    assert!(events.iter().any(|e| matches!(e, DispatchTraceEvent::HookCleanup { invocation_index: 0, hook_index: 0 })));
    assert!(events.iter().any(|e| matches!(
        e,
        DispatchTraceEvent::InvocationOutcome { outcome: TracedOutcome::Terminated { reason }, .. } if reason == "limit hit"
    )));
}

#[test]
fn trace_records_hook_before_error_with_cleanup_subset() {
    let (result, trace, _) = run(vec![echo_invocation()], &[reserving, erroring], false);
    let err = result.unwrap_err();
    assert!(matches!(err, KernelError::BudgetFailed(_)));
    let events = trace.events();
    assert!(events.iter().any(|e| matches!(
        e,
        DispatchTraceEvent::HookBefore { hook_index: 0, decision: TracedAction::Continue, .. }
    )));
    assert!(events.iter().any(|e| matches!(
        e,
        DispatchTraceEvent::HookBeforeError { invocation_index: 0, hook_index: 1, .. }
    )));
    let cleanups: Vec<_> = events
        .iter()
        .filter_map(|e| match e {
            DispatchTraceEvent::HookCleanup { hook_index, .. } => Some(*hook_index),
            _ => None,
        })
        .collect();
    assert_eq!(cleanups, vec![0]);
    assert!(events.iter().any(|e| matches!(
        e,
        DispatchTraceEvent::InvocationOutcome { outcome: TracedOutcome::Failed { .. }, .. }
    )));
}

#[test]
fn dispatch_runs_invocations_in_order_without_hooks() {
    let a = ToolInvocation::new("a", j(r#"{"n": 1}"#)).unwrap();
    let b = ToolInvocation::new("b", j(r#"{"n": 2}"#)).unwrap();
    let (result, trace, calls) = run(vec![a, b], &[], false);
    let results = result.unwrap();
    assert_eq!(results.len(), 2);
    assert_eq!(results[0].invocation.name, "a");
    assert_eq!(results[1].output, j(r#"{"n": 2}"#));
    assert_eq!(calls, vec!["tool:0", "tool:1"]);
    assert_eq!(trace.len(), 2);
}

#[test]
fn tool_error_notifies_every_hook_and_fails() {
    let (result, trace, calls) = run(vec![echo_invocation()], &[reserving, reserving], true);
    assert!(matches!(result, Err(KernelError::ToolFailed(_))));
    assert_eq!(
        calls,
        vec![
            "before:0:0",
            "before:0:1",
            "tool:0",
            "cleanup:0:0:tool invocation failed: down",
            "cleanup:0:1:tool invocation failed: down",
        ]
    );
    assert_eq!(
        trace.events().last(),
        Some(&DispatchTraceEvent::InvocationOutcome {
            invocation_index: 0,
            outcome: TracedOutcome::Failed { message: "tool invocation failed: down".to_string() },
        })
    );
}

#[test]
fn skip_runs_after_hooks_with_skipped_outcome() {
    let (_, _, calls) = run(vec![echo_invocation()], &[skipping, reserving], false);
    assert_eq!(calls, vec!["before:0:0", "after:0:0:echo:skipped:policy", "after:0:1:echo:skipped:policy"]);
}

#[test]
fn empty_dispatch_finishes_at_once() {
    let d = ToolDispatcher::new(Vec::new(), 3);
    assert_eq!(d.request(), DispatchRequest::Finished);
    let (result, trace) = d.finish();
    assert!(result.unwrap().is_empty());
    assert!(trace.is_empty());
}

#[test]
fn bounded_results_keep_invocations_and_bound_outputs() {
    let results = vec![ToolInvocationResult { invocation: echo_invocation(), output: j(r#"{"blob": "abcdef"}"#) }];
    let bounded = bound_invocation_results(results, &ToolResultEnvelopeConfig::new(2));
    assert_eq!(bounded.len(), 1);
    assert_eq!(bounded[0].invocation.name, "echo");
    assert_eq!(bounded[0].envelope.payload, j(r#"{"blob": "ab"}"#));
    assert!(bounded[0].envelope.truncated);
}

#[test]
fn traced_action_projects_dispatch_actions() {
    assert_eq!(TracedAction::from(&ToolDispatchAction::Continue), TracedAction::Continue);
    assert_eq!(
        TracedAction::from(&ToolDispatchAction::Skip { output: j("1"), reason: None }),
        TracedAction::Skip { reason: None }
    );
    assert_eq!(
        TracedAction::from(&ToolDispatchAction::Terminate { reason: "r".into() }),
        TracedAction::Terminate { reason: "r".into() }
    );
}
