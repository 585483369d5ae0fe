//! Tool-call normalization: LFM in-band markers and structured provider JSON.

use rig_compose::json::{JsonNumber, JsonValue};
use rig_compose::normalizer::{
    split_top_level, LfmNormalizer, StructuredToolCallNormalizer, ToolCallNormalizer,
};
use rig_compose::registry::KernelError;

/// The kernel value for a `serde_json` value.
fn from_serde(v: &serde_json::Value) -> JsonValue {
    match v {
        serde_json::Value::Null => JsonValue::Null,
        serde_json::Value::Bool(b) => JsonValue::Bool(*b),
        serde_json::Value::Number(n) => JsonValue::Number(match (n.as_u64(), n.as_i64()) {
            (Some(u), _) => JsonNumber::PosInt(u),
            (None, Some(i)) => JsonNumber::NegInt(i),
            (None, None) => JsonNumber::Float(n.to_string()),
        }),
        serde_json::Value::String(s) => JsonValue::String(s.clone()),
        serde_json::Value::Array(a) => JsonValue::Array(a.iter().map(from_serde).collect()),
        serde_json::Value::Object(m) => JsonValue::Object(m.iter().map(|(k, x)| (k.clone(), from_serde(x))).collect()),
    }
}

fn j(text: &str) -> JsonValue {
    from_serde(&serde_json::from_str(text).unwrap())
}

fn float_member(v: &JsonValue, key: &str) -> f64 {
    match v.get(key) {
        Some(JsonValue::Number(JsonNumber::Float(t))) => t.parse::<f64>().unwrap(),
        other => panic!("expected a float, got {other:?}"),
    }
}

#[test]
fn not_applicable_for_plain_text() {
    assert!(!LfmNormalizer.is_applicable("hello world"));
}

#[test]
fn applicable_when_start_marker_present() {
    assert!(LfmNormalizer.is_applicable("<|tool_call_start|>[get_weather(city='Berlin')]<|tool_call_end|>"));
}

#[test]
fn plain_text_returns_empty() {
    let calls = LfmNormalizer.normalize("The weather in Berlin is sunny.").unwrap();
    assert!(calls.is_empty());
}

#[test]
fn single_call_string_arg() {
    let raw = "<|tool_call_start|>[get_weather(city='Berlin')]<|tool_call_end|>";
    let calls = LfmNormalizer.normalize(raw).unwrap();
    assert_eq!(calls.len(), 1);
    assert_eq!(calls[0].name, "get_weather");
    assert_eq!(calls[0].args, j(r#"{"city": "Berlin"}"#));
}

#[test]
fn single_call_multiple_args() {
    let raw = "<|tool_call_start|>[search(query='rust async', limit=10)]<|tool_call_end|>";
    let calls = LfmNormalizer.normalize(raw).unwrap();
    assert_eq!(calls.len(), 1);
    assert_eq!(calls[0].name, "search");
    assert_eq!(calls[0].args, j(r#"{"query": "rust async", "limit": 10}"#));
}

#[test]
fn single_call_no_args() {
    let raw = "<|tool_call_start|>[list_tools()]<|tool_call_end|>";
    let calls = LfmNormalizer.normalize(raw).unwrap();
    assert_eq!(calls.len(), 1);
    assert_eq!(calls[0].name, "list_tools");
    assert_eq!(calls[0].args, j("{}"));
}

#[test]
fn multiple_calls_in_one_block() {
    let raw = "<|tool_call_start|>[get_weather(city='Berlin'), get_time(zone='UTC')]<|tool_call_end|>";
    let calls = LfmNormalizer.normalize(raw).unwrap();
    assert_eq!(calls.len(), 2);
    assert_eq!(calls[0].name, "get_weather");
    assert_eq!(calls[0].args, j(r#"{"city": "Berlin"}"#));
    assert_eq!(calls[1].name, "get_time");
    assert_eq!(calls[1].args, j(r#"{"zone": "UTC"}"#));
}

#[test]
fn multiple_blocks_in_one_message() {
    let raw = "<|tool_call_start|>[step_one(x=1)]<|tool_call_end|> some text <|tool_call_start|>[step_two(y=2)]<|tool_call_end|>";
    let calls = LfmNormalizer.normalize(raw).unwrap();
    assert_eq!(calls.len(), 2);
    assert_eq!(calls[0].name, "step_one");
    assert_eq!(calls[1].name, "step_two");
}

#[test]
fn block_without_brackets_is_parsed() {
    let raw = "<|tool_call_start|>ping(target='8.8.8.8')<|tool_call_end|>";
    let calls = LfmNormalizer.normalize(raw).unwrap();
    assert_eq!(calls.len(), 1);
    assert_eq!(calls[0].name, "ping");
    assert_eq!(calls[0].args, j(r#"{"target": "8.8.8.8"}"#));
}

#[test]
fn integer_arg() {
    let raw = "<|tool_call_start|>[set_limit(n=42)]<|tool_call_end|>";
    let calls = LfmNormalizer.normalize(raw).unwrap();
    assert_eq!(calls[0].args, j(r#"{"n": 42}"#));
}

#[test]
fn float_arg() {
    let raw = "<|tool_call_start|>[set_temp(t=0.7)]<|tool_call_end|>";
    let calls = LfmNormalizer.normalize(raw).unwrap();
    assert_eq!(float_member(&calls[0].args, "t"), 0.7);
}

#[test]
fn boolean_args() {
    let raw = "<|tool_call_start|>[configure(verbose=True, strict=False)]<|tool_call_end|>";
    let calls = LfmNormalizer.normalize(raw).unwrap();
    assert_eq!(calls[0].args, j(r#"{"verbose": true, "strict": false}"#));
}

#[test]
fn null_args() {
    let raw = "<|tool_call_start|>[reset(ctx=None)]<|tool_call_end|>";
    let calls = LfmNormalizer.normalize(raw).unwrap();
    assert_eq!(calls[0].args, j(r#"{"ctx": null}"#));
}

#[test]
fn double_quoted_string_arg() {
    let raw = r#"<|tool_call_start|>[greet(name="world")]<|tool_call_end|>"#;
    let calls = LfmNormalizer.normalize(raw).unwrap();
    assert_eq!(calls[0].args, j(r#"{"name": "world"}"#));
}

#[test]
fn nested_list_and_object_args() {
    let raw = "<|tool_call_start|>[plan(items=['a,b', 'c'], meta={'city': 'Berlin', 'coords': [52.52, 13.405], 'active': True})]<|tool_call_end|>";
    let calls = LfmNormalizer.normalize(raw).unwrap();
    assert_eq!(calls.len(), 1);
    assert_eq!(
        calls[0].args,
        j(r#"{"items": ["a,b", "c"], "meta": {"city": "Berlin", "coords": [52.52, 13.405], "active": true}}"#)
    );
}

#[test]
fn openai_responses_function_call_item() {
    let value = j(r#"{
        "type": "function_call",
        "id": "fc_123",
        "call_id": "call_123",
        "name": "get_weather",
        "arguments": "{\"city\":\"Berlin\"}",
        "status": "completed"
    }"#);
    let calls = StructuredToolCallNormalizer::normalize_openai_responses(&value).unwrap();
    assert_eq!(calls.len(), 1);
    assert_eq!(calls[0].name, "get_weather");
    assert_eq!(calls[0].args, j(r#"{"city": "Berlin"}"#));
}

#[test]
fn openai_responses_full_response() {
    let value = j(r#"{
        "id": "resp_123",
        "output": [
            { "type": "message", "content": [] },
            {
                "type": "function_call",
                "id": "fc_123",
                "call_id": "call_123",
                "name": "search.docs",
                "arguments": {"query": "tool calls"},
                "status": "completed"
            }
        ]
    }"#);
    let calls = StructuredToolCallNormalizer::normalize_openai_responses(&value).unwrap();
    assert_eq!(calls.len(), 1);
    assert_eq!(calls[0].name, "search.docs");
    assert_eq!(calls[0].args, j(r#"{"query": "tool calls"}"#));
}

#[test]
fn openai_chat_completions_tool_calls() {
    let value = j(r#"{
        "choices": [{
            "message": {
                "role": "assistant",
                "content": null,
                "tool_calls": [{
                    "id": "call_123",
                    "type": "function",
                    "function": {
                        "name": "get_weather",
                        "arguments": "{\"city\":\"Berlin\"}"
                    }
                }]
            }
        }]
    }"#);
    let calls = StructuredToolCallNormalizer::normalize_openai_chat_completions(&value).unwrap();
    assert_eq!(calls.len(), 1);
    assert_eq!(calls[0].name, "get_weather");
    assert_eq!(calls[0].args, j(r#"{"city": "Berlin"}"#));
}

#[test]
fn structured_normalizer_aggregates_supported_shapes() {
    let responses_value = j(r#"{"output": [{"type": "function_call", "name": "first", "arguments": "{}"}]}"#);
    let chat_value = j(r#"{"tool_calls": [{"function": {"name": "second", "arguments": {"ok": true}}}]}"#);
    let responses_calls = StructuredToolCallNormalizer::normalize(&responses_value).unwrap();
    let chat_calls = StructuredToolCallNormalizer::normalize(&chat_value).unwrap();
    assert_eq!(responses_calls[0].name, "first");
    assert_eq!(chat_calls[0].name, "second");
    assert_eq!(chat_calls[0].args, j(r#"{"ok": true}"#));
}

#[test]
fn unclosed_marker_returns_error() {
    let raw = "<|tool_call_start|>[get_weather(city='Berlin')]";
    let msg = LfmNormalizer.normalize(raw).unwrap_err().message();
    assert!(msg.contains("unclosed"), "expected 'unclosed' in: {msg}");
}

#[test]
fn missing_paren_returns_error() {
    let raw = "<|tool_call_start|>[not_a_call]<|tool_call_end|>";
    let msg = LfmNormalizer.normalize(raw).unwrap_err().message();
    assert!(msg.contains("expected '('"), "got: {msg}");
}

#[test]
fn kwarg_without_equals_returns_error() {
    let raw = "<|tool_call_start|>[fn(badarg)]<|tool_call_end|>";
    let msg = LfmNormalizer.normalize(raw).unwrap_err().message();
    assert!(msg.contains("kwarg without '='"), "got: {msg}");
}

#[test]
fn invalid_tool_name_returns_error() {
    let raw = "<|tool_call_start|>[bad/name(arg=1)]<|tool_call_end|>";
    let msg = LfmNormalizer.normalize(raw).unwrap_err().message();
    assert!(msg.contains("invalid tool name"), "got: {msg}");
}

#[test]
fn empty_kwarg_name_returns_error() {
    let raw = "<|tool_call_start|>[fn(=1)]<|tool_call_end|>";
    let msg = LfmNormalizer.normalize(raw).unwrap_err().message();
    assert!(msg.contains("empty kwarg name"), "got: {msg}");
}

#[test]
fn duplicate_kwarg_returns_error() {
    let raw = "<|tool_call_start|>[fn(city='Berlin', city='Paris')]<|tool_call_end|>";
    let msg = LfmNormalizer.normalize(raw).unwrap_err().message();
    assert!(msg.contains("duplicate kwarg"), "got: {msg}");
}

#[test]
fn malformed_standard_arguments_return_error() {
    let value = j(r#"{"type": "function_call", "name": "bad_args", "arguments": "{not json}"}"#);
    let msg = StructuredToolCallNormalizer::normalize_openai_responses(&value).unwrap_err().message();
    assert!(msg.contains("arguments JSON"), "got: {msg}");
}

#[test]
fn trailing_call_content_returns_error() {
    let raw = "<|tool_call_start|>[fn(arg=1) extra]<|tool_call_end|>";
    let msg = LfmNormalizer.normalize(raw).unwrap_err().message();
    assert!(msg.contains("trailing content"), "got: {msg}");
}

#[test]
fn unterminated_nested_literal_returns_error() {
    let raw = "<|tool_call_start|>[fn(items=['a', 'b')]<|tool_call_end|>";
    let msg = LfmNormalizer.normalize(raw).unwrap_err().message();
    assert!(msg.contains("unterminated list"), "got: {msg}");
}

#[test]
fn split_respects_parens() {
    let parts = split_top_level("fn(a, b), fn2(c)", ',');
    assert_eq!(parts, vec!["fn(a, b)", " fn2(c)"]);
}

#[test]
fn split_respects_single_quotes() {
    let parts = split_top_level("a='x,y', b=2", ',');
    assert_eq!(parts, vec!["a='x,y'", " b=2"]);
}

#[test]
fn split_respects_nested_arrays_and_objects() {
    let parts = split_top_level("a=[1, 2], b={'x': 'y,z'}, c=3", ',');
    assert_eq!(parts, vec!["a=[1, 2]", " b={'x': 'y,z'}", " c=3"]);
}

#[test]
fn full_llm_response_with_preamble_and_postamble() {
    let raw = "I'll look up the weather for you.\n<|tool_call_start|>[get_weather(city='Berlin', units='metric')]<|tool_call_end|>\nLet me know if you need anything else.";
    let calls = LfmNormalizer.normalize(raw).unwrap();
    assert_eq!(calls.len(), 1);
    assert_eq!(calls[0].name, "get_weather");
    assert_eq!(calls[0].args, j(r#"{"city": "Berlin", "units": "metric"}"#));
}

#[test]
fn chained_tool_calls_two_separate_blocks() {
    let raw = "<|tool_call_start|>[fetch_url(url='https://example.com')]<|tool_call_end|>\n<|tool_call_start|>[parse_html(selector='h1')]<|tool_call_end|>";
    let calls = LfmNormalizer.normalize(raw).unwrap();
    assert_eq!(calls.len(), 2);
    assert_eq!(calls[0].name, "fetch_url");
    assert_eq!(calls[1].name, "parse_html");
}

#[test]
fn parallel_tool_calls_in_one_block() {
    let raw = "<|tool_call_start|>[search(q='rust'), search(q='tokio')]<|tool_call_end|>";
    let calls = LfmNormalizer.normalize(raw).unwrap();
    assert_eq!(calls.len(), 2);
    assert_eq!(calls[0].args, j(r#"{"q": "rust"}"#));
    assert_eq!(calls[1].args, j(r#"{"q": "tokio"}"#));
}

#[test]
fn no_tool_call_in_response() {
    let raw = "The answer to your question is 42. No tools are needed.";
    let calls = LfmNormalizer.normalize(raw).unwrap();
    assert!(calls.is_empty());
}

#[test]
fn mixed_arg_types() {
    let raw = "<|tool_call_start|>[configure(name='agent', limit=100, ratio=0.5, debug=True, ctx=None)]<|tool_call_end|>";
    let calls = LfmNormalizer.normalize(raw).unwrap();
    assert_eq!(calls.len(), 1);
    let args = &calls[0].args;
    assert_eq!(args.get("name"), Some(&j(r#""agent""#)));
    assert_eq!(args.get("limit"), Some(&j("100")));
    assert_eq!(float_member(args, "ratio"), 0.5_f64);
    assert_eq!(args.get("debug"), Some(&j("true")));
    assert_eq!(args.get("ctx"), Some(&j("null")));
}

#[test]
fn string_with_comma_in_value() {
    let raw = "<|tool_call_start|>[translate(text='hello, world', lang='es')]<|tool_call_end|>";
    let calls = LfmNormalizer.normalize(raw).unwrap();
    assert_eq!(calls.len(), 1);
    assert_eq!(calls[0].args.get("text"), Some(&j(r#""hello, world""#)));
    assert_eq!(calls[0].args.get("lang"), Some(&j(r#""es""#)));
}

#[test]
fn negative_integer_arg() {
    let raw = "<|tool_call_start|>[offset(n=-5)]<|tool_call_end|>";
    let calls = LfmNormalizer.normalize(raw).unwrap();
    assert_eq!(calls[0].args.get("n"), Some(&j("-5")));
}

#[test]
fn normalizer_nested_list_and_object_args() {
    let raw = "<|tool_call_start|>[plan(items=['a,b', 'c'], meta={'city': 'Berlin', 'coords': [52.52, 13.405], 'active': True})]<|tool_call_end|>";
    let calls = LfmNormalizer.normalize(raw).unwrap();
    assert_eq!(calls.len(), 1);
    assert_eq!(
        calls[0].args,
        j(r#"{"items": ["a,b", "c"], "meta": {"city": "Berlin", "coords": [52.52, 13.405], "active": true}}"#)
    );
}

#[test]
fn openai_responses_output_normalizes_to_invocation() {
    let value = j(r#"{
        "id": "resp_123",
        "output": [{
            "type": "function_call",
            "id": "fc_123",
            "call_id": "call_123",
            "name": "get_weather",
            "arguments": "{\"city\":\"Berlin\"}",
            "status": "completed"
        }]
    }"#);
    let calls = StructuredToolCallNormalizer::normalize_openai_responses(&value).unwrap();
    assert_eq!(calls.len(), 1);
    assert_eq!(calls[0].name, "get_weather");
    assert_eq!(calls[0].args, j(r#"{"city": "Berlin"}"#));
}

#[test]
fn openai_chat_completions_tool_calls_normalize_to_invocation() {
    let value = j(r#"{
        "choices": [{
            "message": {
                "role": "assistant",
                "content": null,
                "tool_calls": [{
                    "id": "call_123",
                    "type": "function",
                    "function": {"name": "get_weather", "arguments": {"city": "Berlin"}}
                }]
            }
        }]
    }"#);
    let calls = StructuredToolCallNormalizer::normalize_openai_chat_completions(&value).unwrap();
    assert_eq!(calls.len(), 1);
    assert_eq!(calls[0].name, "get_weather");
    assert_eq!(calls[0].args, j(r#"{"city": "Berlin"}"#));
}

#[test]
fn unsupported_structured_payload_returns_empty() {
    let value = j(r#"{"output": [{"type": "message", "content": []}]}"#);
    let calls = StructuredToolCallNormalizer::normalize(&value).unwrap();
    assert!(calls.is_empty());
}

#[test]
fn unclosed_start_marker_is_an_error() {
    let raw = "<|tool_call_start|>[get_weather(city='Berlin')]";
    let err = LfmNormalizer.normalize(raw).unwrap_err();
    assert!(matches!(err, KernelError::NormalizerFailed(_)), "expected NormalizerFailed, got: {err:?}");
}

#[test]
fn error_message_mentions_unclosed() {
    let raw = "<|tool_call_start|>[incomplete(";
    let msg = LfmNormalizer.normalize(raw).unwrap_err().message();
    assert!(msg.contains("unclosed"), "got: {msg}");
}

#[test]
fn kwarg_without_equals_is_an_error() {
    let raw = "<|tool_call_start|>[fn(positional_only)]<|tool_call_end|>";
    let err = LfmNormalizer.normalize(raw).unwrap_err();
    assert!(matches!(err, KernelError::NormalizerFailed(_)), "expected NormalizerFailed, got: {err:?}");
}

#[test]
fn malformed_identifiers_are_errors() {
    let raw = "<|tool_call_start|>[bad/name(arg=1)]<|tool_call_end|>";
    let err = LfmNormalizer.normalize(raw).unwrap_err();
    assert!(matches!(err, KernelError::NormalizerFailed(_)), "expected NormalizerFailed, got: {err:?}");
    assert!(err.message().contains("invalid tool name"));
}

#[test]
fn duplicate_kwargs_are_errors() {
    let raw = "<|tool_call_start|>[fn(city='Berlin', city='Paris')]<|tool_call_end|>";
    let err = LfmNormalizer.normalize(raw).unwrap_err();
    assert!(matches!(err, KernelError::NormalizerFailed(_)), "expected NormalizerFailed, got: {err:?}");
    assert!(err.message().contains("duplicate kwarg"));
}

#[test]
fn is_applicable_matches_exactly_when_marker_present() {
    assert!(LfmNormalizer.is_applicable("<|tool_call_start|>[fn()]<|tool_call_end|>"));
    assert!(!LfmNormalizer.is_applicable("plain prose with no markers"));
    assert!(!LfmNormalizer.is_applicable("<|tool_call_end|> only end marker"));
}

#[test]
fn tool_invocation_new_rejects_empty_and_invalid_names() {
    let empty = rig_compose::normalizer::ToolInvocation::new("  ", j("{}")).unwrap_err();
    assert_eq!(empty.message(), "tool-call normalizer failed: empty tool name in structured tool call");
    let bad = rig_compose::normalizer::ToolInvocation::new("a b", j("{}")).unwrap_err();
    assert!(matches!(bad, KernelError::NormalizerFailed(_)));
    assert!(rig_compose::normalizer::ToolInvocation::new("ok.name-1_x", j("{}")).is_ok());
}

#[test]
fn split_pieces_join_back_to_the_text() {
    let text = ",a,(b,c),'x,y',,";
    let parts = split_top_level(text, ',');
    assert_eq!(parts, vec!["", "a", "(b,c)", "'x,y'", "", ""]);
    assert_eq!(parts.join(","), text);
    let top_level_commas = 5;
    assert_eq!(parts.len(), 1 + top_level_commas);
}
