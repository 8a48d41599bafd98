use otlpcat::json::{to_json_string, JsonNumber, JsonValue};
use otlpcat::otlp::{
    EventJson, ExportTraceServiceRequest, KeyValue, Resource, ResourceSpans, Scope, ScopeSpans,
    Span, StatusJson,
};
use otlpcat::render::{
    build_forest, decode_id_to_hex, flatten, forest_is_finite, format_any_value,
    format_attributes, format_duration_nanos, hex_of_decoded, parse_nanos, render_trace_tree,
    span_kind_label, status_code_label, FlatSpan,
};

fn s(text: &str) -> JsonValue {
    JsonValue::String(text.to_string())
}

fn n(v: u64) -> JsonValue {
    JsonValue::Number(JsonNumber::Unsigned(v))
}

fn obj(members: Vec<(&str, JsonValue)>) -> JsonValue {
    JsonValue::Object(members.into_iter().map(|(k, v)| (k.to_string(), v)).collect())
}

/// A JSON value read by serde_json, as the library holds it.
fn from_serde(v: &serde_json::Value) -> JsonValue {
    match v {
        serde_json::Value::Null => JsonValue::Null,
        serde_json::Value::Bool(b) => JsonValue::Bool(*b),
        serde_json::Value::Number(num) => match num.as_u64() {
            Some(u) => JsonValue::Number(JsonNumber::Unsigned(u)),
            None => JsonValue::Number(JsonNumber::Other(
                serde_json::Value::Number(num.clone()).to_string(),
            )),
        },
        serde_json::Value::String(t) => JsonValue::String(t.clone()),
        serde_json::Value::Array(items) => JsonValue::Array(items.iter().map(from_serde).collect()),
        serde_json::Value::Object(map) => {
            JsonValue::Object(map.iter().map(|(k, v)| (k.clone(), from_serde(v))).collect())
        }
    }
}

fn field<'a>(v: &'a serde_json::Value, key: &str) -> Option<&'a serde_json::Value> {
    v.get(key).filter(|x| !x.is_null())
}

fn text_field(v: &serde_json::Value, key: &str) -> String {
    field(v, key).and_then(|x| x.as_str()).unwrap_or("").to_string()
}

fn key_values(v: &serde_json::Value, key: &str) -> Vec<KeyValue> {
    field(v, key)
        .and_then(|x| x.as_array())
        .map(|items| {
            items
                .iter()
                .map(|kv| KeyValue {
                    key: text_field(kv, "key"),
                    value: field(kv, "value").map(from_serde),
                })
                .collect()
        })
        .unwrap_or_default()
}

fn list<'a>(v: &'a serde_json::Value, key: &str) -> Vec<&'a serde_json::Value> {
    field(v, key).and_then(|x| x.as_array()).map(|a| a.iter().collect()).unwrap_or_default()
}

/// An OTLP export document from its JSON text, with the same defaults
/// as the command line's reader.
fn doc(json: &str) -> ExportTraceServiceRequest {
    let v: serde_json::Value = serde_json::from_str(json).unwrap();
    ExportTraceServiceRequest {
        resource_spans: list(&v, "resourceSpans")
            .into_iter()
            .map(|rs| ResourceSpans {
                resource: field(rs, "resource").map(|r| Resource { attributes: key_values(r, "attributes") }),
                scope_spans: list(rs, "scopeSpans")
                    .into_iter()
                    .map(|ss| ScopeSpans {
                        scope: field(ss, "scope").map(|sc| Scope { name: text_field(sc, "name") }),
                        spans: list(ss, "spans")
                            .into_iter()
                            .map(|sp| Span {
                                trace_id: from_serde(&sp["traceId"]),
                                span_id: from_serde(&sp["spanId"]),
                                parent_span_id: field(sp, "parentSpanId").map(from_serde),
                                name: text_field(sp, "name"),
                                kind: field(sp, "kind").map(from_serde),
                                start_time_unix_nano: from_serde(&sp["startTimeUnixNano"]),
                                end_time_unix_nano: field(sp, "endTimeUnixNano").map(from_serde),
                                attributes: key_values(sp, "attributes"),
                                status: field(sp, "status").map(|st| StatusJson {
                                    code: field(st, "code").map(from_serde),
                                    message: field(st, "message")
                                        .and_then(|m| m.as_str())
                                        .map(str::to_string),
                                }),
                                events: list(sp, "events")
                                    .into_iter()
                                    .map(|ev| EventJson {
                                        time_unix_nano: field(ev, "timeUnixNano").map(from_serde),
                                        name: text_field(ev, "name"),
                                        attributes: key_values(ev, "attributes"),
                                    })
                                    .collect(),
                            })
                            .collect(),
                    })
                    .collect(),
            })
            .collect(),
    }
}

fn flat(trace_id: &str, span_id: &str, parent: Option<&str>, name: &str, kind: &'static str) -> FlatSpan {
    FlatSpan {
        service_name: None,
        scope_name: String::new(),
        trace_id: trace_id.into(),
        span_id: span_id.into(),
        parent_span_id: parent.map(|p| p.to_string()),
        name: name.into(),
        kind,
        start_nanos: 0,
        end_nanos: None,
        attributes: vec![],
        status_code: "UNSET",
        status_message: None,
        events: vec![],
    }
}

#[test]
fn decode_id_to_hex_accepts_lowercase_hex() {
    assert_eq!(decode_id_to_hex(&s("aabbcc")), Some("aabbcc".to_string()));
}

#[test]
fn decode_id_to_hex_lowercases_uppercase_hex() {
    assert_eq!(decode_id_to_hex(&s("AABBCC")), Some("aabbcc".to_string()));
}

#[test]
fn decode_id_to_hex_falls_back_to_base64() {
    // base64 of bytes [0xAA, 0xBB, 0xCC] is "qrvM"
    assert_eq!(decode_id_to_hex(&s("qrvM")), Some("aabbcc".to_string()));
}

#[test]
fn decode_id_to_hex_returns_none_for_empty_string() {
    assert_eq!(decode_id_to_hex(&s("")), None);
}

#[test]
fn parse_nanos_accepts_string_form() {
    assert_eq!(parse_nanos(&s("1234567890")), Some(1_234_567_890));
}

#[test]
fn parse_nanos_accepts_number_form() {
    assert_eq!(parse_nanos(&n(1_234_567_890u64)), Some(1_234_567_890));
}

#[test]
fn span_kind_label_handles_string_and_numeric_forms() {
    assert_eq!(span_kind_label(Some(&s("SPAN_KIND_CLIENT"))), "CLIENT");
    assert_eq!(span_kind_label(Some(&n(3))), "CLIENT");
    assert_eq!(span_kind_label(None), "UNSPECIFIED");
}

#[test]
fn status_code_label_handles_string_and_numeric_forms() {
    assert_eq!(status_code_label(Some(&s("STATUS_CODE_ERROR"))), "ERROR");
    assert_eq!(status_code_label(Some(&n(2))), "ERROR");
    assert_eq!(status_code_label(None), "UNSET");
}

#[test]
fn format_any_value_renders_string_and_int() {
    assert_eq!(format_any_value(&obj(vec![("stringValue", s("hello"))])), "hello");
    assert_eq!(format_any_value(&obj(vec![("intValue", s("200"))])), "200");
}

#[test]
fn format_any_value_renders_nested_array() {
    let v = obj(vec![(
        "arrayValue",
        obj(vec![(
            "values",
            JsonValue::Array(vec![obj(vec![("stringValue", s("a"))]), obj(vec![("intValue", s("1"))])]),
        )]),
    )]);
    assert_eq!(format_any_value(&v), "[a, 1]");
}

#[test]
fn format_duration_nanos_scales_units_correctly() {
    assert_eq!(format_duration_nanos(500), "500ns");
    assert_eq!(format_duration_nanos(1_500), "1.50µs");
    assert_eq!(format_duration_nanos(2_500_000), "2.50ms");
    assert_eq!(format_duration_nanos(1_500_000_000), "1.500s");
}

#[test]
fn flatten_extracts_service_name_from_resource_attributes() {
    let json = r#"{"resourceSpans":[{
        "resource": {"attributes": [{"key": "service.name", "value": {"stringValue": "checkout"}}]},
        "scopeSpans": [{"scope": {"name": "mytracer"}, "spans": [{
            "traceId": "aabb", "spanId": "1122", "name": "op",
            "startTimeUnixNano": "100", "endTimeUnixNano": "200"
        }]}]
    }]}"#;
    let d = doc(json);
    let flat = flatten(&d);
    assert_eq!(flat.len(), 1);
    assert_eq!(flat[0].service_name.as_deref(), Some("checkout"));
    assert_eq!(flat[0].scope_name, "mytracer");
    assert_eq!(flat[0].duration_nanos(), Some(100));
}

#[test]
fn build_forest_nests_children_under_matching_parent_span_id() {
    let spans = vec![
        FlatSpan {
            service_name: None,
            scope_name: String::new(),
            trace_id: "t1".into(),
            span_id: "root".into(),
            parent_span_id: None,
            name: "root-op".into(),
            kind: "SERVER",
            start_nanos: 0,
            end_nanos: Some(100),
            attributes: vec![],
            status_code: "UNSET",
            status_message: None,
            events: vec![],
        },
        FlatSpan {
            service_name: None,
            scope_name: String::new(),
            trace_id: "t1".into(),
            span_id: "child".into(),
            parent_span_id: Some("root".into()),
            name: "child-op".into(),
            kind: "CLIENT",
            start_nanos: 10,
            end_nanos: Some(50),
            attributes: vec![],
            status_code: "UNSET",
            status_message: None,
            events: vec![],
        },
    ];
    assert!(forest_is_finite(&spans));
    let forest = build_forest(&spans);
    assert_eq!(forest.len(), 1);
    let (trace_id, roots) = &forest[0];
    assert_eq!(trace_id, "t1");
    assert_eq!(roots.len(), 1);
    assert_eq!(roots[0].span.name, "root-op");
    assert_eq!(roots[0].children.len(), 1);
    assert_eq!(roots[0].children[0].span.name, "child-op");
}

#[test]
fn build_forest_treats_span_with_missing_parent_as_root() {
    let spans = vec![FlatSpan {
        service_name: None,
        scope_name: String::new(),
        trace_id: "t1".into(),
        span_id: "orphan".into(),
        parent_span_id: Some("does-not-exist".into()),
        name: "orphan-op".into(),
        kind: "INTERNAL",
        start_nanos: 0,
        end_nanos: None,
        attributes: vec![],
        status_code: "UNSET",
        status_message: None,
        events: vec![],
    }];
    assert!(forest_is_finite(&spans));
    let forest = build_forest(&spans);
    assert_eq!(forest[0].1.len(), 1);
    assert_eq!(forest[0].1[0].span.name, "orphan-op");
}

#[test]
fn build_forest_groups_multiple_traces_separately() {
    let make_span = |trace_id: &str, span_id: &str| FlatSpan {
        service_name: None,
        scope_name: String::new(),
        trace_id: trace_id.into(),
        span_id: span_id.into(),
        parent_span_id: None,
        name: "op".into(),
        kind: "INTERNAL",
        start_nanos: 0,
        end_nanos: None,
        attributes: vec![],
        status_code: "UNSET",
        status_message: None,
        events: vec![],
    };
    let spans = vec![make_span("t1", "a"), make_span("t2", "b")];
    assert!(forest_is_finite(&spans));
    let forest = build_forest(&spans);
    assert_eq!(forest.len(), 2);
}

#[test]
fn render_trace_tree_shows_nesting_duration_and_status() {
    let json = r#"{"resourceSpans":[{
        "resource": {"attributes": [{"key": "service.name", "value": {"stringValue": "checkout-service"}}]},
        "scopeSpans": [{"scope": {"name": "otlpcat.livetest"}, "spans": [
            {
                "traceId": "e8f9450dcbd4e6288fb17942f5cfa8c8",
                "spanId": "859", "name": "handle-checkout", "kind": "SPAN_KIND_SERVER",
                "startTimeUnixNano": "1000000000", "endTimeUnixNano": "1010000000"
            },
            {
                "traceId": "e8f9450dcbd4e6288fb17942f5cfa8c8",
                "spanId": "abc", "parentSpanId": "859", "name": "db-insert-order", "kind": "SPAN_KIND_CLIENT",
                "startTimeUnixNano": "1005000000", "endTimeUnixNano": "1005140000",
                "status": {"code": "STATUS_CODE_ERROR", "message": "connection timeout"}
            }
        ]}]
    }]}"#;
    let d = doc(json);
    let flat = flatten(&d);
    assert!(forest_is_finite(&flat));
    let rendered = render_trace_tree(&flat);

    assert!(rendered.contains("Trace e8f9450dcbd4e6288fb17942f5cfa8c8"));
    assert!(rendered.contains("handle-checkout [SERVER] service=checkout-service (10.00ms)"));
    assert!(rendered.contains("db-insert-order [CLIENT] service=checkout-service (140.00µs)"));
    assert!(rendered.contains("STATUS=ERROR: connection timeout"));
    // Child must be indented under the parent (nested block, not a second root).
    let parent_line = rendered.lines().find(|l| l.contains("handle-checkout")).unwrap();
    let child_line = rendered.lines().find(|l| l.contains("db-insert-order")).unwrap();
    assert!(!parent_line.starts_with(' '));
    assert!(
        child_line.starts_with("   ") || child_line.starts_with("├") || child_line.starts_with("└")
    );
}

#[test]
fn render_trace_tree_marks_unfinished_spans_without_end_time() {
    let spans = vec![FlatSpan {
        service_name: None,
        scope_name: String::new(),
        trace_id: "t1".into(),
        span_id: "a".into(),
        parent_span_id: None,
        name: "still-running".into(),
        kind: "INTERNAL",
        start_nanos: 0,
        end_nanos: None,
        attributes: vec![],
        status_code: "UNSET",
        status_message: None,
        events: vec![],
    }];
    assert!(forest_is_finite(&spans));
    let rendered = render_trace_tree(&spans);
    assert!(rendered.contains("(unfinished)"));
}
