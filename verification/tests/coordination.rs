//! Signal routing, the agent step's skill chain, manifest materialisation,
//! and registry catalog decisions.

use rig_compose::agent::{concludes, NextAction, SkillChain, StepRequest};
use rig_compose::context::Signal;
use rig_compose::coordinator::{route_target, RoutingRule};
use rig_compose::json::{JsonNumber, JsonValue};
use rig_compose::manifest::{
    delegate_stub_output, plan_materialization, DelegateKind, DelegateSpec, MaterializeError, MaterializedTool,
    ToolSpec,
};
use rig_compose::registry::{is_authorised, skill_lookup, sort_catalog, tool_lookup, KernelError, SkillDescriptor};
use rig_compose::tool::ToolSchema;

/// The kernel value for a `serde_json` value.
fn from_serde(v: &serde_json::Value) -> JsonValue {
    match v {
        serde_json::Value::Null => JsonValue::Null,
        serde_json::Value::Bool(b) => JsonValue::Bool(*b),
        serde_json::Value::Number(n) => JsonValue::Number(match (n.as_u64(), n.as_i64()) {
            (Some(u), _) => JsonNumber::PosInt(u),
            (None, Some(i)) => JsonNumber::NegInt(i),
            (None, None) => JsonNumber::Float(n.to_string()),
        }),
        serde_json::Value::String(s) => JsonValue::String(s.clone()),
        serde_json::Value::Array(a) => JsonValue::Array(a.iter().map(from_serde).collect()),
        serde_json::Value::Object(m) => JsonValue::Object(m.iter().map(|(k, x)| (k.clone(), from_serde(x))).collect()),
    }
}

fn j(text: &str) -> JsonValue {
    from_serde(&serde_json::from_str(text).unwrap())
}

fn signals(names: &[&str]) -> Vec<Signal> {
    names.iter().map(|n| Signal::new(n)).collect()
}

fn rules() -> Vec<RoutingRule> {
    vec![RoutingRule::new("recon", &["fanout.high"]), RoutingRule::new("credential", &["auth.failure.burst"])]
}

#[test]
fn routes_to_first_matching_specialist() {
    let specialists = vec!["recon".to_string(), "credential".to_string()];
    let target = route_target(&rules(), &specialists, &signals(&["fanout.high"]), &None);
    assert_eq!(target.as_deref(), Some("recon"));
    let target = route_target(&rules(), &specialists, &signals(&["auth.failure.burst"]), &None);
    assert_eq!(target.as_deref(), Some("credential"));
}

#[test]
fn falls_back_when_no_rule_matches() {
    let specialists = vec!["general".to_string()];
    let rules = vec![RoutingRule::new("nope", &["never.fires"])];
    let target = route_target(&rules, &specialists, &signals(&["fanout.high"]), &Some("general".to_string()));
    assert_eq!(target.as_deref(), Some("general"));
}

#[test]
fn unmatched_with_no_fallback_is_noop() {
    let target = route_target(&[], &[], &signals(&["anything"]), &None);
    assert_eq!(target, None);
}

#[test]
fn rule_for_unregistered_agent_is_passed_over() {
    let specialists = vec!["credential".to_string()];
    let both = signals(&["fanout.high", "auth.failure.burst"]);
    assert_eq!(route_target(&rules(), &specialists, &both, &None).as_deref(), Some("credential"));
    assert!(rules()[0].matches(&both));
}

#[test]
fn skill_chain_skips_after_conclusion() {
    let mut chain = SkillChain::new(vec!["a".into(), "b".into(), "c".into()], true);
    assert_eq!(chain.request(), StepRequest::Applies { index: 0 });
    chain.applies_replied(true);
    assert_eq!(chain.request(), StepRequest::Execute { index: 0 });
    chain.executed(concludes(&[NextAction::Conclude]));
    assert_eq!(chain.request(), StepRequest::Skip { index: 1 });
    chain.skip_acknowledged();
    assert_eq!(chain.request(), StepRequest::Skip { index: 2 });
    chain.skip_acknowledged();
    assert_eq!(chain.request(), StepRequest::Finished);
    let (run, skipped, concluded) = chain.finish();
    assert_eq!(run, vec!["a"]);
    assert_eq!(skipped, vec!["b", "c"]);
    assert!(concluded);
}

#[test]
fn skill_chain_without_short_circuit_keeps_asking() {
    let mut chain = SkillChain::new(vec!["a".into(), "b".into()], false);
    chain.applies_replied(true);
    chain.executed(true);
    assert_eq!(chain.request(), StepRequest::Applies { index: 1 });
    chain.applies_replied(false);
    let (run, skipped, concluded) = chain.finish();
    assert_eq!(run, vec!["a"]);
    assert_eq!(skipped, vec!["b"]);
    assert!(concluded);
}

#[test]
fn next_actions_conclude_only_on_conclude_or_discard() {
    assert!(!concludes(&[NextAction::RunSkill("x".into()), NextAction::InvokeTool { tool: "t".into(), args: j("{}") }]));
    assert!(concludes(&[NextAction::RunSkill("x".into()), NextAction::Discard]));
    assert!(!concludes(&[]));
}

fn delegate(name: &str, kind: DelegateKind, agent: Option<&str>) -> DelegateSpec {
    DelegateSpec {
        name: name.into(),
        description: "child".into(),
        kind,
        agent: agent.map(|a| a.to_string()),
        manifest: None,
    }
}

#[test]
fn executor_key_defaults_to_name() {
    assert_eq!(delegate("child_agent", DelegateKind::Stub, None).executor_key(), "child_agent");
    assert_eq!(delegate("local_child", DelegateKind::InProcess, Some("child")).executor_key(), "child");
    assert_eq!(DelegateKind::default(), DelegateKind::Stub);
}

#[test]
fn missing_host_tool_is_an_error() {
    let tools = vec![ToolSpec::Local { name: "missing".into() }];
    let result = plan_materialization(&tools, &[false], &[], &[]);
    assert!(matches!(result, Err(MaterializeError::MissingHostTool(ref n)) if n == "missing"));
}

#[test]
fn missing_in_process_delegate_executor_is_an_error() {
    let result = plan_materialization(&[], &[], &[delegate("child_agent", DelegateKind::InProcess, Some("child"))], &[false]);
    assert!(matches!(result, Err(MaterializeError::MissingDelegateExecutor(ref n)) if n == "child"));
}

#[test]
fn plan_lists_local_tools_then_delegates() {
    let tools = vec![ToolSpec::Local { name: "a".into() }];
    let delegates = vec![delegate("d0", DelegateKind::Stub, None), delegate("d1", DelegateKind::InProcess, None)];
    let plan = plan_materialization(&tools, &[true], &delegates, &[false, true]).unwrap();
    assert_eq!(
        plan,
        vec![MaterializedTool::Local { index: 0 }, MaterializedTool::Stub { index: 0 }, MaterializedTool::Delegate { index: 1 }]
    );
}

#[test]
fn materializes_delegate_stub() {
    let out = delegate_stub_output("child_agent", j(r#"{"x": 1}"#));
    assert_eq!(out.get("status"), Some(&j(r#""delegate_unwired""#)));
    assert_eq!(out.get("delegate"), Some(&j(r#""child_agent""#)));
    assert_eq!(out.get("args"), Some(&j(r#"{"x": 1}"#)));
}

fn schema(name: &str) -> ToolSchema {
    ToolSchema { name: name.into(), description: "echo".into(), args_schema: j("{}"), result_schema: j("{}") }
}

#[test]
fn tool_registry_descriptors_are_sorted_and_scoped() {
    let sorted = sort_catalog(vec![schema("zeta.tool"), schema("alpha.tool"), schema("middle.tool")]);
    let names: Vec<_> = sorted.into_iter().map(|s| s.name).collect();
    assert_eq!(names, vec!["alpha.tool", "middle.tool", "zeta.tool"]);
    let allowed = Some(vec!["zeta.tool".to_string(), "alpha.tool".to_string()]);
    let visible: Vec<_> = vec![schema("zeta.tool"), schema("alpha.tool"), schema("middle.tool")]
        .into_iter()
        .filter(|s| is_authorised(&allowed, &s.name))
        .collect();
    let scoped_names: Vec<_> = sort_catalog(visible).into_iter().map(|s| s.name).collect();
    assert_eq!(scoped_names, vec!["alpha.tool", "zeta.tool"]);
}

#[test]
fn skill_registry_descriptors_are_sorted() {
    let descriptors = sort_catalog(vec![
        SkillDescriptor { id: "zeta.skill".into(), description: "last".into() },
        SkillDescriptor { id: "alpha.skill".into(), description: "first".into() },
    ]);
    assert_eq!(descriptors.len(), 2);
    assert_eq!(descriptors[0].id, "alpha.skill");
    assert_eq!(descriptors[0].description, "first");
    assert_eq!(descriptors[1].id, "zeta.skill");
    assert_eq!(descriptors[1].description, "last");
}

#[test]
fn tool_lookup_refuses_unauthorised_before_missing() {
    let allowed = Some(vec!["a".to_string()]);
    assert!(tool_lookup(&allowed, "a", true).is_ok());
    match tool_lookup(&allowed, "b", true) {
        Err(KernelError::ToolNotAuthorised(name)) => assert_eq!(name, "b"),
        other => panic!("expected ToolNotAuthorised, got {other:?}"),
    }
    match tool_lookup(&None, "missing", false) {
        Err(KernelError::ToolNotFound(name)) => assert_eq!(name, "missing"),
        other => panic!("expected ToolNotFound, got {other:?}"),
    }
    match skill_lookup("s", false) {
        Err(KernelError::SkillNotFound(name)) => assert_eq!(name, "s"),
        other => panic!("expected SkillNotFound, got {other:?}"),
    }
}

#[test]
fn kernel_error_messages_render_like_display() {
    assert_eq!(KernelError::ToolNotFound("x".into()).message(), "tool `x` not found in registry");
    assert_eq!(KernelError::ToolNotAuthorised("x".into()).message(), "tool `x` is not authorised for this agent");
    assert_eq!(KernelError::BudgetFailed("b".into()).message(), "budget failed: b");
}
