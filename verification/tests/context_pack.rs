//! Context items and the packer.

use rig_compose::context::{ContextItem, ContextOmissionReason, ContextPack, ContextPackConfig, ContextSourceKind};
use rig_compose::normalizer::ToolInvocationResult;
use rig_compose::json::{JsonNumber, JsonValue};
use rig_compose::normalizer::ToolInvocation;

/// The kernel value for a `serde_json` value.
fn from_serde(v: &serde_json::Value) -> JsonValue {
    match v {
        serde_json::Value::Null => JsonValue::Null,
        serde_json::Value::Bool(b) => JsonValue::Bool(*b),
        serde_json::Value::Number(n) => JsonValue::Number(match (n.as_u64(), n.as_i64()) {
            (Some(u), _) => JsonNumber::PosInt(u),
            (None, Some(i)) => JsonNumber::NegInt(i),
            (None, None) => JsonNumber::Float(n.to_string()),
        }),
        serde_json::Value::String(s) => JsonValue::String(s.clone()),
        serde_json::Value::Array(a) => JsonValue::Array(a.iter().map(from_serde).collect()),
        serde_json::Value::Object(m) => JsonValue::Object(m.iter().map(|(k, x)| (k.clone(), from_serde(x))).collect()),
    }
}

fn j(text: &str) -> JsonValue {
    from_serde(&serde_json::from_str(text).unwrap())
}
/// The `serde_json` value for a kernel value.
fn to_serde(v: &JsonValue) -> serde_json::Value {
    match v {
        JsonValue::Null => serde_json::Value::Null,
        JsonValue::Bool(b) => serde_json::Value::Bool(*b),
        JsonValue::Number(JsonNumber::PosInt(u)) => serde_json::Value::from(*u),
        JsonValue::Number(JsonNumber::NegInt(i)) => serde_json::Value::from(*i),
        JsonValue::Number(JsonNumber::Float(t)) => serde_json::from_str(t).unwrap(),
        JsonValue::String(s) => serde_json::Value::String(s.clone()),
        JsonValue::Array(a) => serde_json::Value::Array(a.iter().map(to_serde).collect()),
        JsonValue::Object(m) => serde_json::Value::Object(m.iter().map(|(k, x)| (k.clone(), to_serde(x))).collect()),
    }
}

fn to_json_text(v: &JsonValue) -> String {
    to_serde(v).to_string()
}

#[test]
fn context_item_defaults_estimated_chars_and_preserves_metadata() {
    let item = ContextItem::new(ContextSourceKind::Memory, "memory/card/1", "alice lives in Berlin")
        .with_rank(2)
        .with_score_bits(7.5f64.to_bits())
        .with_provenance(j(r#"{"frame_id": 42, "uri": "memory://alice"}"#))
        .with_metadata(j(r#"{"entity": "alice", "slot": "location"}"#));

    assert_eq!(item.source, ContextSourceKind::Memory);
    assert_eq!(item.source_id, "memory/card/1");
    assert_eq!(item.rank, 2);
    assert_eq!(f64::from_bits(item.score_bits), 7.5);
    assert_eq!(item.estimated_chars, item.text.chars().count());
    assert_eq!(item.provenance.get("frame_id"), Some(&j("42")));
    assert_eq!(item.metadata.get("slot"), Some(&j(r#""location""#)));
}

fn fixture(rank: usize, text: &str) -> ContextItem {
    ContextItem::new(ContextSourceKind::Memory, &format!("fixture-{rank}"), text).with_rank(rank)
}

#[test]
fn context_pack_sorts_by_rank_before_packing() {
    let pack = ContextPack::pack(
        vec![fixture(2, "third"), fixture(0, "first"), fixture(1, "second")],
        ContextPackConfig::new(100),
    );
    assert_eq!(pack.render_text(), "first\nsecond\nthird");
    assert_eq!(pack.selected.iter().map(|item| item.rank).collect::<Vec<_>>(), vec![0, 1, 2]);
}

#[test]
fn context_pack_records_over_budget_omissions() {
    let pack = ContextPack::pack(vec![fixture(0, "too long")], ContextPackConfig::new(3));
    assert!(pack.selected.is_empty());
    assert_eq!(pack.omitted.len(), 1);
    assert_eq!(pack.omitted.first().map(|omitted| &omitted.reason), Some(&ContextOmissionReason::OverBudget));
    assert!(pack.render_text().is_empty());
}

#[test]
fn context_pack_records_max_item_omissions() {
    let pack = ContextPack::pack(vec![fixture(0, "first"), fixture(1, "second")], ContextPackConfig::new(100).with_max_items(1));
    assert_eq!(pack.selected.len(), 1);
    assert_eq!(pack.omitted.len(), 1);
    assert_eq!(pack.omitted.first().map(|omitted| &omitted.reason), Some(&ContextOmissionReason::MaxItems));
}

#[test]
fn context_pack_accounts_for_separator_budget() {
    let config = ContextPackConfig::new("alpha".len() + " | ".len() + "bravo".len()).with_separator(" | ");
    let pack = ContextPack::pack(vec![fixture(0, "alpha"), fixture(1, "bravo")], config);
    assert_eq!(pack.render_text(), "alpha | bravo");
    assert_eq!(pack.total_estimated_chars, "alpha | bravo".chars().count());
}

#[test]
fn context_pack_reserves_non_context_budget() {
    let pack = ContextPack::pack(vec![fixture(0, "alpha")], ContextPackConfig::new(10).with_reserve_chars(5));
    assert_eq!(pack.selected.len(), 1);
    assert_eq!(pack.total_estimated_chars, "alpha".chars().count());
}

#[test]
fn context_pack_saturates_when_reserve_exceeds_budget() {
    let pack = ContextPack::pack(vec![fixture(0, "alpha")], ContextPackConfig::new(4).with_reserve_chars(40));
    assert!(pack.selected.is_empty());
    assert_eq!(pack.omitted.len(), 1);
    assert_eq!(pack.omitted.first().map(|omitted| &omitted.reason), Some(&ContextOmissionReason::OverBudget));
}

fn tool_result(name: &str, output: JsonValue) -> ToolInvocationResult {
    let invocation = ToolInvocation::new(name, j("{}")).expect("tool name is a valid identifier in tests");
    ToolInvocationResult { invocation, output }
}

fn tool_context_item(rank: usize, result: &ToolInvocationResult) -> ContextItem {
    let text = to_json_text(&result.output);
    let provenance_text = format!(
        r#"{{"tool": {}, "args": {}}}"#,
        to_json_text(&JsonValue::String(result.invocation.name.clone())),
        to_json_text(&result.invocation.args)
    );
    ContextItem::new(ContextSourceKind::ToolResult, &format!("tool/{}/{rank}", result.invocation.name), &text)
        .with_rank(rank)
        .with_provenance(j(&provenance_text))
}

fn resource_item(rank: usize, uri: &str, text: &str) -> ContextItem {
    let provenance_text = format!(r#"{{"uri": {}}}"#, to_json_text(&JsonValue::String(uri.to_string())));
    ContextItem::new(ContextSourceKind::Resource, uri, text).with_rank(rank).with_provenance(j(&provenance_text))
}

#[test]
fn context_pack_packs_tool_invocation_results() {
    let weather = tool_result("get_weather", j(r#"{ "city": "Berlin", "tempC": 12 }"#));
    let calendar = tool_result("list_events", j(r#"{ "today": ["standup", "design review"] }"#));
    let pack = ContextPack::pack(
        vec![tool_context_item(1, &calendar), tool_context_item(0, &weather)],
        ContextPackConfig::new(1_000),
    );
    assert_eq!(pack.selected.len(), 2);
    assert_eq!(pack.selected[0].source, ContextSourceKind::ToolResult);
    assert_eq!(pack.selected[0].rank, 0);
    assert_eq!(pack.selected[1].rank, 1);
    assert!(pack.render_text().contains("Berlin"));
    assert!(pack.render_text().contains("standup"));
    assert_eq!(pack.selected[0].provenance.get("tool"), Some(&j(r#""get_weather""#)));
}

#[test]
fn context_pack_records_tool_result_over_budget_omissions() {
    let bulky = tool_result("dump_state", j(&format!(r#"{{ "blob": "{}" }}"#, "x".repeat(64))));
    let pack = ContextPack::pack(vec![tool_context_item(0, &bulky)], ContextPackConfig::new(8));
    assert!(pack.selected.is_empty());
    assert_eq!(pack.omitted.first().map(|omitted| &omitted.reason), Some(&ContextOmissionReason::OverBudget));
}

#[test]
fn context_pack_mixes_memory_tool_and_resource_sources() {
    let weather = tool_result("get_weather", j(r#"{ "city": "Berlin" }"#));
    let pack = ContextPack::pack(
        vec![
            fixture(2, "memory: alice prefers afternoon meetings"),
            resource_item(0, "policy://meetings", "policy: keep meetings under 30m"),
            tool_context_item(1, &weather),
        ],
        ContextPackConfig::new(1_000),
    );
    let kinds: Vec<_> = pack.selected.iter().map(|item| item.source.clone()).collect();
    assert_eq!(kinds, vec![ContextSourceKind::Resource, ContextSourceKind::ToolResult, ContextSourceKind::Memory]);
    assert!(pack.omitted.is_empty());
}

#[test]
fn context_pack_max_items_applies_uniformly_across_sources() {
    let weather = tool_result("get_weather", j(r#"{ "city": "Berlin" }"#));
    let pack = ContextPack::pack(
        vec![resource_item(0, "doc://intro", "resource one"), tool_context_item(1, &weather), fixture(2, "memory item")],
        ContextPackConfig::new(1_000).with_max_items(2),
    );
    assert_eq!(pack.selected.len(), 2);
    assert_eq!(pack.omitted.len(), 1);
    let omitted = pack.omitted.first().expect("one omitted item");
    assert_eq!(omitted.reason, ContextOmissionReason::MaxItems);
    assert_eq!(omitted.item.source, ContextSourceKind::Memory);
}

#[test]
fn equal_ranks_keep_their_input_order() {
    let pack = ContextPack::pack(
        vec![fixture(1, "b"), fixture(0, "a"), fixture(1, "c"), fixture(0, "d")],
        ContextPackConfig::new(100),
    );
    assert_eq!(pack.render_text(), "a\nd\nb\nc");
}

#[test]
fn estimated_chars_larger_than_text_counts() {
    let item = fixture(0, "abc").with_estimated_chars(50);
    let pack = ContextPack::pack(vec![item], ContextPackConfig::new(10));
    assert!(pack.selected.is_empty());
    assert_eq!(pack.omitted[0].reason, ContextOmissionReason::OverBudget);
}

#[test]
fn context_budget_subtracts_the_reserve() {
    assert_eq!(ContextPackConfig::new(100).with_reserve_chars(30).context_budget(), 70);
    assert_eq!(ContextPackConfig::new(10).with_reserve_chars(30).context_budget(), 0);
}
