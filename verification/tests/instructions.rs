//! Instructions builders and the manifest conversion.

use rig_compose::instructions::{Instructions, InstructionsSpec};
use rig_compose::json::{JsonNumber, JsonValue};

/// The kernel value for a `serde_json` value.
fn from_serde(v: &serde_json::Value) -> JsonValue {
    match v {
        serde_json::Value::Null => JsonValue::Null,
        serde_json::Value::Bool(b) => JsonValue::Bool(*b),
        serde_json::Value::Number(n) => JsonValue::Number(match (n.as_u64(), n.as_i64()) {
            (Some(u), _) => JsonNumber::PosInt(u),
            (None, Some(i)) => JsonNumber::NegInt(i),
            (None, None) => JsonNumber::Float(n.to_string()),
        }),
        serde_json::Value::String(s) => JsonValue::String(s.clone()),
        serde_json::Value::Array(a) => JsonValue::Array(a.iter().map(from_serde).collect()),
        serde_json::Value::Object(m) => JsonValue::Object(m.iter().map(|(k, x)| (k.clone(), from_serde(x))).collect()),
    }
}

fn j(text: &str) -> JsonValue {
    from_serde(&serde_json::from_str(text).unwrap())
}

#[test]
fn builder_chains() {
    let i = Instructions::new("you are a detector")
        .with_response_schema(j(r#"{"type": "object"}"#))
        .with_example("hi", "hello")
        .with_metadata(j(r#"{"model": "x"}"#));
    assert_eq!(i.system_prompt, "you are a detector");
    assert!(i.response_schema.is_some());
    assert_eq!(i.examples.len(), 1);
    assert_eq!(i.metadata.get("model").and_then(|v| v.as_str()), Some("x"));
}

#[test]
fn new_instructions_are_bare() {
    let i = Instructions::new("p");
    assert_eq!(i.system_prompt, "p");
    assert!(i.response_schema.is_none());
    assert!(i.examples.is_empty());
    assert!(i.metadata.is_null());
}

#[test]
fn examples_keep_their_order() {
    let i = Instructions::new("x").with_example("a", "b").with_example("c", "d");
    assert_eq!(i.examples, vec![("a".to_string(), "b".to_string()), ("c".to_string(), "d".to_string())]);
}

#[test]
fn spec_converts_with_examples_and_metadata() {
    let spec = InstructionsSpec {
        system_prompt: "sys".to_string(),
        response_schema: Some(j(r#"{"type": "string"}"#)),
        examples: vec![["u1".to_string(), "a1".to_string()], ["u2".to_string(), "a2".to_string()]],
        metadata: j(r#"{"k": "v"}"#),
    };
    let i = Instructions::from(spec);
    assert_eq!(i.system_prompt, "sys");
    assert_eq!(i.response_schema, Some(j(r#"{"type": "string"}"#)));
    assert_eq!(i.examples, vec![("u1".to_string(), "a1".to_string()), ("u2".to_string(), "a2".to_string())]);
    assert_eq!(i.metadata.get("k").and_then(|v| v.as_str()), Some("v"));
}

#[test]
fn spec_with_null_metadata_converts_to_null() {
    let spec = InstructionsSpec {
        system_prompt: "s".to_string(),
        response_schema: None,
        examples: Vec::new(),
        metadata: JsonValue::Null,
    };
    let i = Instructions::from(spec);
    assert!(i.response_schema.is_none());
    assert!(i.examples.is_empty());
    assert!(i.metadata.is_null());
}
