//! Bounding tool results: redaction, string and array limits, the total
//! byte budget, and continuation tokens.

use rig_compose::envelope::{bound_tool_result, ToolResultEnvelope, ToolResultEnvelopeConfig};
use rig_compose::json::{JsonNumber, JsonValue};
use rig_compose::tool::{decode_tool_result_page_token, RedactionPolicy, ToolResultOmissionReason, ToolResultPageToken};

/// The kernel value for a `serde_json` value.
fn from_serde(v: &serde_json::Value) -> JsonValue {
    match v {
        serde_json::Value::Null => JsonValue::Null,
        serde_json::Value::Bool(b) => JsonValue::Bool(*b),
        serde_json::Value::Number(n) => JsonValue::Number(match (n.as_u64(), n.as_i64()) {
            (Some(u), _) => JsonNumber::PosInt(u),
            (None, Some(i)) => JsonNumber::NegInt(i),
            (None, None) => JsonNumber::Float(n.to_string()),
        }),
        serde_json::Value::String(s) => JsonValue::String(s.clone()),
        serde_json::Value::Array(a) => JsonValue::Array(a.iter().map(from_serde).collect()),
        serde_json::Value::Object(m) => JsonValue::Object(m.iter().map(|(k, x)| (k.clone(), from_serde(x))).collect()),
    }
}

fn j(text: &str) -> JsonValue {
    from_serde(&serde_json::from_str(text).unwrap())
}

#[test]
fn tool_result_envelope_bounds_large_strings() {
    let envelope = ToolResultEnvelope::bound(j(r#"{"body": "abcdef"}"#), &ToolResultEnvelopeConfig::new(3));
    assert_eq!(envelope.payload, j(r#"{"body": "abc"}"#));
    assert!(envelope.truncated);
    assert_eq!(envelope.omitted_chars, 3);
    assert_eq!(
        decode_tool_result_page_token(envelope.page_token.as_deref().unwrap()),
        Some(ToolResultPageToken {
            pointer: "/body".to_string(),
            reason: ToolResultOmissionReason::StringChars,
            limit: 3,
        })
    );
    assert_eq!(envelope.omitted_segments.len(), 1);
    assert!(envelope.omitted_segments.iter().any(|segment| segment.pointer == "/body"));
}

#[test]
fn tool_result_envelope_bounds_arrays() {
    let envelope = ToolResultEnvelope::bound(
        j(r#"{"rows": [1, 2, 3, 4]}"#),
        &ToolResultEnvelopeConfig::new(100).with_max_array_items(2),
    );
    assert_eq!(envelope.payload, j(r#"{"rows": [1, 2]}"#));
    assert!(envelope.truncated);
    assert_eq!(envelope.omitted_items, 2);
    assert_eq!(
        decode_tool_result_page_token(envelope.page_token.as_deref().unwrap()),
        Some(ToolResultPageToken {
            pointer: "/rows".to_string(),
            reason: ToolResultOmissionReason::ArrayItems,
            limit: 2,
        })
    );
    assert_eq!(envelope.omitted_segments.len(), 1);
    assert!(envelope.omitted_segments.iter().any(|segment| segment.pointer == "/rows"));
}

#[test]
fn tool_result_envelope_leaves_small_payloads_unchanged() {
    let payload = j(r#"{"ok": true, "rows": ["a"]}"#);
    let envelope = ToolResultEnvelope::bound(payload.clone(), &ToolResultEnvelopeConfig::new(100).with_max_array_items(10));
    assert_eq!(envelope.payload, payload);
    assert!(!envelope.truncated);
    assert_eq!(envelope.omitted_chars, 0);
    assert_eq!(envelope.omitted_items, 0);
    assert_eq!(envelope.page_token, None);
}

#[test]
fn tool_result_envelope_redacts_before_truncation() {
    let config = ToolResultEnvelopeConfig::new(4)
        .with_redaction_policy(RedactionPolicy::deny_pointers(&["/secret"]).with_replacement("/secret", "safe"));
    let envelope = ToolResultEnvelope::bound(j(r#"{"public": "abcdef", "secret": "should-not-leak"}"#), &config);
    assert_eq!(envelope.payload, j(r#"{"public": "abcd", "secret": "safe"}"#));
    assert_eq!(envelope.redacted_values, 1);
    assert_eq!(envelope.omitted_chars, 2);
    assert_eq!(
        decode_tool_result_page_token(envelope.page_token.as_deref().unwrap()),
        Some(ToolResultPageToken {
            pointer: "/public".to_string(),
            reason: ToolResultOmissionReason::StringChars,
            limit: 4,
        })
    );
}

#[test]
fn tool_result_envelope_total_budget_drops_fields_with_path_tokens() {
    let config = ToolResultEnvelopeConfig::new(100).with_max_total_bytes(24);
    let envelope = ToolResultEnvelope::bound(j(r#"{"a": "small", "b": "also-small", "c": "extra"}"#), &config);
    assert!(envelope.truncated);
    assert!(envelope.omitted_values > 0);
    assert!(envelope.payload.get("a").is_some());
    assert!(envelope.omitted_segments.iter().any(|segment| {
        segment.reason == ToolResultOmissionReason::TotalBytes
            && decode_tool_result_page_token(&segment.page_token)
                .is_some_and(|token| token.reason == ToolResultOmissionReason::TotalBytes && token.limit == 24)
    }));
}

#[test]
fn omitted_segments_disambiguate_two_oversized_fields() {
    let config = ToolResultEnvelopeConfig::new(3);
    let envelope = ToolResultEnvelope::bound(j(r#"{"left": "abcdef", "right": "ghijkl"}"#), &config);
    let tokens: Vec<&str> = envelope.omitted_segments.iter().map(|segment| segment.page_token.as_str()).collect();
    assert_eq!(tokens.len(), 2);
    assert_ne!(tokens[0], tokens[1]);
    assert!(tokens
        .iter()
        .any(|token| decode_tool_result_page_token(token).is_some_and(|decoded| decoded.pointer == "/left")));
    assert!(tokens
        .iter()
        .any(|token| decode_tool_result_page_token(token).is_some_and(|decoded| decoded.pointer == "/right")));
}

#[test]
fn redaction_runs_before_size_bounding() {
    let config = ToolResultEnvelopeConfig::new(6).with_redaction_policy(
        RedactionPolicy::deny_pointers(&["/credentials/token"]).with_default_replacement("[secret]"),
    );
    let envelope = ToolResultEnvelope::bound(
        j(r#"{"credentials": {"token": "very-sensitive-token"}, "body": "abcdefghi"}"#),
        &config,
    );
    let credentials = envelope.payload.get("credentials").unwrap();
    assert_eq!(credentials.get("token"), Some(&j(r#""[secret]""#)));
    assert_eq!(envelope.redacted_values, 1);
    assert_eq!(envelope.payload.get("body"), Some(&j(r#""abcdef""#)));
    assert!(!envelope.omitted_segments.iter().any(|segment| segment.pointer == "/credentials/token"));
}

#[test]
fn total_payload_budget_omits_later_fields() {
    let config = ToolResultEnvelopeConfig::new(100).with_max_total_bytes(32);
    let envelope =
        ToolResultEnvelope::bound(j(r#"{"first": "kept", "second": "kept-too", "third": "omitted"}"#), &config);
    assert!(envelope.truncated);
    assert!(envelope.omitted_values > 0);
    assert!(envelope.omitted_segments.iter().any(|segment| {
        segment.reason == ToolResultOmissionReason::TotalBytes
            && decode_tool_result_page_token(&segment.page_token)
                .is_some_and(|decoded| decoded.reason == ToolResultOmissionReason::TotalBytes && decoded.limit == 32)
    }));
}

#[test]
fn page_token_has_the_documented_shape() {
    let envelope = ToolResultEnvelope::bound(j(r#"{"body": "abcdef"}"#), &ToolResultEnvelopeConfig::new(3));
    let token = envelope.page_token.unwrap();
    let hex = token.strip_prefix("v1:").unwrap();
    let bytes: Vec<u8> = (0..hex.len() / 2).map(|i| u8::from_str_radix(&hex[2 * i..2 * i + 2], 16).unwrap()).collect();
    assert_eq!(String::from_utf8(bytes).unwrap(), r#"{"pointer":"/body","reason":"string_chars","limit":3}"#);
}

#[test]
fn decode_rejects_malformed_tokens() {
    assert_eq!(decode_tool_result_page_token("v2:00"), None);
    assert_eq!(decode_tool_result_page_token("v1:7"), None);
    assert_eq!(decode_tool_result_page_token("v1:zz"), None);
    assert_eq!(decode_tool_result_page_token("v1:7b7d"), None);
    let upper = "v1:".to_string()
        + &r#"{"pointer":"/x","reason":"array_items","limit":5}"#
            .bytes()
            .map(|b| format!("{b:02X}"))
            .collect::<String>();
    assert_eq!(
        decode_tool_result_page_token(&upper),
        Some(ToolResultPageToken { pointer: "/x".to_string(), reason: ToolResultOmissionReason::ArrayItems, limit: 5 })
    );
}

#[test]
fn allow_list_redacts_values_outside_allowed_pointers() {
    let config = ToolResultEnvelopeConfig::new(100).with_redaction_policy(RedactionPolicy::allow_pointers(&["/keep"]));
    let envelope = ToolResultEnvelope::bound(j(r#"{"keep": {"inner": 1}, "drop": "secret"}"#), &config);
    assert_eq!(envelope.payload, j(r#"{"keep": {"inner": 1}, "drop": "[redacted]"}"#));
    assert_eq!(envelope.redacted_values, 1);
}

#[test]
fn pointers_escape_tilde_and_slash() {
    let envelope = ToolResultEnvelope::bound(j(r#"{"a/b~c": "abcdef"}"#), &ToolResultEnvelopeConfig::new(2));
    assert_eq!(envelope.omitted_segments[0].pointer, "/a~1b~0c");
}

#[test]
fn nested_arrays_get_index_pointers() {
    let envelope = ToolResultEnvelope::bound(j(r#"{"rows": ["abc", "defgh"]}"#), &ToolResultEnvelopeConfig::new(3));
    assert_eq!(envelope.payload, j(r#"{"rows": ["abc", "def"]}"#));
    assert_eq!(envelope.omitted_segments.len(), 1);
    assert_eq!(envelope.omitted_segments[0].pointer, "/rows/1");
}

#[test]
fn total_budget_truncates_a_top_level_string() {
    let config = ToolResultEnvelopeConfig::new(100).with_max_total_bytes(5);
    let envelope = ToolResultEnvelope::bound(j(r#""abcdefgh""#), &config);
    assert_eq!(envelope.payload, j(r#""abc""#));
    assert_eq!(envelope.omitted_chars, 5);
    assert_eq!(envelope.omitted_segments.len(), 1);
    assert_eq!(envelope.omitted_segments[0].pointer, "");
}

#[test]
fn total_budget_keeps_an_oversized_scalar_and_records_it() {
    let config = ToolResultEnvelopeConfig::new(100).with_max_total_bytes(2);
    let envelope = ToolResultEnvelope::bound(j("12345"), &config);
    assert_eq!(envelope.payload, j("12345"));
    assert_eq!(envelope.omitted_values, 1);
    assert!(envelope.truncated);
}

#[test]
fn default_bounding_passes_small_values() {
    let envelope = bound_tool_result(j(r#"{"sum": 42}"#));
    assert_eq!(envelope.payload, j(r#"{"sum": 42}"#));
    assert!(!envelope.truncated);
}

#[test]
fn total_budget_drops_array_items_as_array_items() {
    let config = ToolResultEnvelopeConfig::new(100).with_max_total_bytes(10);
    let envelope = ToolResultEnvelope::bound(j(r#"["aaaa", "bbbb", "cccc"]"#), &config);
    assert_eq!(envelope.payload, j(r#"["aaaa"]"#));
    assert_eq!(envelope.omitted_items, 2);
    let pointers: Vec<&str> = envelope.omitted_segments.iter().map(|s| s.pointer.as_str()).collect();
    assert_eq!(pointers, vec!["/1", "/2"]);
    assert!(envelope.omitted_segments.iter().all(|s| s.reason == ToolResultOmissionReason::ArrayItems));
    assert_eq!(
        decode_tool_result_page_token(envelope.page_token.as_deref().unwrap()),
        Some(ToolResultPageToken { pointer: "/1".to_string(), reason: ToolResultOmissionReason::ArrayItems, limit: 10 })
    );
}

#[test]
fn page_token_round_trips_a_pointer_that_needs_escaping() {
    let envelope = ToolResultEnvelope::bound(j(r#"{"q\"u\u00e9/~": "abcdef"}"#), &ToolResultEnvelopeConfig::new(3));
    let segment = &envelope.omitted_segments[0];
    assert_eq!(
        decode_tool_result_page_token(&segment.page_token),
        Some(ToolResultPageToken {
            pointer: segment.pointer.clone(),
            reason: ToolResultOmissionReason::StringChars,
            limit: 3
        })
    );
    assert_eq!(segment.pointer, "/q\"u\u{e9}~1~0");
}
