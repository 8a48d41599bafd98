use otlpcat::json::{to_json_string, JsonNumber, JsonValue};
use otlpcat::otlp::{EventJson, ExportTraceServiceRequest, KeyValue, Resource, ResourceSpans, Scope, ScopeSpans, Span, StatusJson};
use otlpcat::render::{
    build_forest, decode_id_to_hex, flatten, forest_is_finite, format_any_value,
    format_attributes, format_duration_nanos, hex_of_decoded, parse_nanos, render_trace_tree,
    span_kind_label, status_code_label, FlatEvent, FlatSpan, flatten_event, service_name_of,
};
use otlpcat::report::{keep_error_traces, keep_trace, report, select_trace, Report};
use otlpcat::text::parse_u64;

fn st(text: &str) -> JsonValue {
    JsonValue::String(text.to_string())
}

fn num(v: u64) -> JsonValue {
    JsonValue::Number(JsonNumber::Unsigned(v))
}

fn object(members: Vec<(&str, JsonValue)>) -> JsonValue {
    JsonValue::Object(members.into_iter().map(|(k, v)| (k.to_string(), v)).collect())
}

fn convert(v: &serde_json::Value) -> JsonValue {
    match v {
        serde_json::Value::Null => JsonValue::Null,
        serde_json::Value::Bool(b) => JsonValue::Bool(*b),
        serde_json::Value::Number(n) => match n.as_u64() {
            Some(u) => JsonValue::Number(JsonNumber::Unsigned(u)),
            None => JsonValue::Number(JsonNumber::Other(serde_json::Value::Number(n.clone()).to_string())),
        },
        serde_json::Value::String(t) => JsonValue::String(t.clone()),
        serde_json::Value::Array(items) => JsonValue::Array(items.iter().map(convert).collect()),
        serde_json::Value::Object(map) => {
            JsonValue::Object(map.iter().map(|(k, v)| (k.clone(), convert(v))).collect())
        }
    }
}

fn span_of(trace: &str, id: &str, parent: Option<&str>, name: &str) -> FlatSpan {
    FlatSpan {
        service_name: Some("svc".to_string()),
        scope_name: String::new(),
        trace_id: trace.into(),
        span_id: id.into(),
        parent_span_id: parent.map(|p| p.to_string()),
        name: name.into(),
        kind: "INTERNAL",
        start_nanos: 1_000,
        end_nanos: Some(3_000),
        attributes: vec![],
        status_code: "UNSET",
        status_message: None,
        events: vec![],
    }
}

fn kv(key: &str, value: Option<JsonValue>) -> KeyValue {
    KeyValue { key: key.to_string(), value }
}

// ---- durations: the integer account of the float formatting ----

fn float_text(n: u64) -> String {
    if n < 1_000 {
        format!("{n}ns")
    } else if n < 1_000_000 {
        format!("{:.2}µs", n as f64 / 1_000.0)
    } else if n < 1_000_000_000 {
        format!("{:.2}ms", n as f64 / 1_000_000.0)
    } else {
        format!("{:.3}s", n as f64 / 1_000_000_000.0)
    }
}

#[test]
fn duration_matches_float_formatting_on_every_small_value() {
    for n in 0..200_000u64 {
        assert_eq!(format_duration_nanos(n), float_text(n), "n = {n}");
    }
}

#[test]
fn duration_matches_float_formatting_on_ties_and_edges() {
    let mut values = vec![
        999, 1_000, 1_005, 1_015, 1_125, 1_135, 2_345, 999_994, 999_995, 999_999, 1_000_000,
        1_005_000, 1_125_000, 999_995_000, 999_999_999, 1_000_000_000, 1_000_500_000,
        1_001_500_000, 9_007_199_254_740_992, 9_007_199_254_740_993, 18_446_744_073_709_551_615,
        18_446_744_073_709_551_000, 12_345_678_901_234_567, u64::MAX / 3, u64::MAX / 7,
    ];
    let mut x: u64 = 0x9E37_79B9_7F4A_7C15;
    for _ in 0..20_000 {
        x ^= x << 13;
        x ^= x >> 7;
        x ^= x << 17;
        values.push(x);
        values.push(x % 1_000_000_000);
        values.push(x % 10_000_000_000_000);
    }
    for n in values {
        assert_eq!(format_duration_nanos(n), float_text(n), "n = {n}");
    }
}

#[test]
fn duration_rounds_exact_ties_to_even() {
    // 1125/1000 = 1.125 exactly: the tie goes to the even digit.
    assert_eq!(format_duration_nanos(1_125), "1.12µs");
    assert_eq!(format_duration_nanos(1_375), "1.38µs");
    assert_eq!(format_duration_nanos(10_000_000), "10.00ms");
    assert_eq!(format_duration_nanos(140_000), "140.00µs");
    assert_eq!(format_duration_nanos(0), "0ns");
}

// ---- decimal parsing, as str::parse::<u64> ----

#[test]
fn parse_u64_agrees_with_std() {
    let cases = [
        "", "+", "-", "0", "+0", "-0", "007", "42", "+42", "-42", " 1", "1 ", "1a", "a1",
        "18446744073709551615", "18446744073709551616", "99999999999999999999", "١٢",
        "+-1", "++1", "1_000",
    ];
    for c in cases {
        assert_eq!(parse_u64(c), c.parse::<u64>().ok(), "input {c:?}");
    }
}

#[test]
fn parse_nanos_rejects_other_shapes() {
    assert_eq!(parse_nanos(&st("12x")), None);
    assert_eq!(parse_nanos(&JsonValue::Number(JsonNumber::Other("-5".into()))), None);
    assert_eq!(parse_nanos(&JsonValue::Null), None);
    assert_eq!(parse_nanos(&st("+17")), Some(17));
}

// ---- JSON text, as serde_json prints it ----

#[test]
fn json_text_matches_serde_json() {
    let docs = [
        r#"null"#,
        r#"true"#,
        r#"[1,-2,3.5,1e100,"x"]"#,
        r#""quote\" back\\ slash/ tab\t nl\n cr\r bs\b ff\f nul\u0000 us\u001f del\u007f é 😀""#,
        r#"{"b":1,"a":[true,false,null],"c":{"d":"e"}}"#,
        r#"{"intValue":-7,"doubleValue":0.1}"#,
        r#"[]"#,
        r#"{}"#,
    ];
    for d in docs {
        let v: serde_json::Value = serde_json::from_str(d).unwrap();
        assert_eq!(to_json_string(&convert(&v)), v.to_string(), "doc {d}");
    }
}

// ---- ids ----

#[test]
fn decode_id_rejects_non_strings_and_bad_base64() {
    assert_eq!(decode_id_to_hex(&num(5)), None);
    assert_eq!(decode_id_to_hex(&JsonValue::Null), None);
    // odd-length hex is read as base64, which "abc" is not (unpadded)
    assert_eq!(decode_id_to_hex(&st("abc")), None);
    assert_eq!(decode_id_to_hex(&st("!!!!")), None);
    // even-length hex digits are read as hex before base64 is tried
    assert_eq!(decode_id_to_hex(&st("AAAA")), Some("aaaa".to_string()));
    assert_eq!(decode_id_to_hex(&st("AAA=")), Some("0000".to_string()));
    assert_eq!(decode_id_to_hex(&st("e8flAxvU5iiPsXlC9c+oyA==")), Some("7bc7e5031bd4e6288fb17942f5cfa8c8".to_string()));
    assert_eq!(decode_id_to_hex(&st("0A1b")), Some("0a1b".to_string()));
}

#[test]
fn hex_of_decoded_handles_each_outcome() {
    assert_eq!(hex_of_decoded(None), None);
    assert_eq!(hex_of_decoded(Some(vec![])), None);
    assert_eq!(hex_of_decoded(Some(vec![0x0f, 0xa0, 0xff])), Some("0fa0ff".to_string()));
}

#[test]
fn decoded_ids_decode_to_themselves() {
    for raw in ["qrvM", "AABBCC", "e8flAxvU5iiPsXlC9c+oyA==", "00ff"] {
        let once = decode_id_to_hex(&st(raw)).unwrap();
        assert_eq!(decode_id_to_hex(&st(&once)), Some(once.clone()));
        assert!(once.chars().all(|c| c.is_ascii_hexdigit() && !c.is_ascii_uppercase()));
        assert_eq!(once.len() % 2, 0);
    }
}

// ---- enum labels ----

#[test]
fn span_kind_forms_agree() {
    let names = ["INTERNAL", "SERVER", "CLIENT", "PRODUCER", "CONSUMER"];
    for (i, name) in names.iter().enumerate() {
        let code = (i + 1) as u64;
        assert_eq!(span_kind_label(Some(&num(code))), *name);
        assert_eq!(span_kind_label(Some(&st(name))), *name);
        assert_eq!(span_kind_label(Some(&st(&format!("SPAN_KIND_{name}")))), *name);
    }
    assert_eq!(span_kind_label(Some(&num(0))), "UNSPECIFIED");
    assert_eq!(span_kind_label(Some(&num(6))), "UNSPECIFIED");
    assert_eq!(span_kind_label(Some(&st("SPAN_KIND_SPAN_KIND_SERVER"))), "UNSPECIFIED");
    assert_eq!(span_kind_label(Some(&st("server"))), "UNSPECIFIED");
    assert_eq!(span_kind_label(Some(&JsonValue::Bool(true))), "UNSPECIFIED");
}

#[test]
fn status_code_forms_agree() {
    assert_eq!(status_code_label(Some(&num(1))), "OK");
    assert_eq!(status_code_label(Some(&st("OK"))), "OK");
    assert_eq!(status_code_label(Some(&st("STATUS_CODE_OK"))), "OK");
    assert_eq!(status_code_label(Some(&st("ERROR"))), "ERROR");
    assert_eq!(status_code_label(Some(&num(0))), "UNSET");
    assert_eq!(status_code_label(Some(&st("STATUS_CODE_UNSET"))), "UNSET");
    assert_eq!(status_code_label(Some(&JsonValue::Number(JsonNumber::Other("2.0".into())))), "UNSET");
}

// ---- attribute values ----

#[test]
fn format_any_value_renders_every_kind() {
    assert_eq!(format_any_value(&object(vec![("doubleValue", JsonValue::Number(JsonNumber::Other("1.5".into())))])), "1.5");
    assert_eq!(format_any_value(&object(vec![("boolValue", JsonValue::Bool(false))])), "false");
    assert_eq!(format_any_value(&object(vec![("intValue", num(42))])), "42");
    assert_eq!(format_any_value(&object(vec![("bytesValue", st("aGVsbG8="))])), "<8 bytes base64>");
    assert_eq!(format_any_value(&object(vec![("bytesValue", st("é"))])), "<2 bytes base64>");
    let kvlist = object(vec![(
        "kvlistValue",
        object(vec![(
            "values",
            JsonValue::Array(vec![
                object(vec![("key", st("a")), ("value", object(vec![("intValue", st("1"))]))]),
                object(vec![("key", num(3))]),
                object(vec![("key", st("b"))]),
            ]),
        )]),
    )]);
    assert_eq!(format_any_value(&kvlist), "{a=1, b=}");
    assert_eq!(format_any_value(&object(vec![])), "null");
    assert_eq!(format_any_value(&st("plain")), "\"plain\"");
    assert_eq!(format_any_value(&object(vec![("stringValue", num(1)), ("intValue", st("9"))])), "9");
    assert_eq!(format_any_value(&object(vec![("doubleValue", st("x"))])), "\"x\"");
}

#[test]
fn format_attributes_keeps_keys_and_order() {
    let attrs = vec![kv("k1", Some(object(vec![("stringValue", st("v"))]))), kv("k2", None)];
    assert_eq!(
        format_attributes(&attrs),
        vec![("k1".to_string(), "v".to_string()), ("k2".to_string(), String::new())]
    );
}

// ---- flattening ----

fn sample_doc() -> ExportTraceServiceRequest {
    let span = |tid: JsonValue, sid: &str, parent: Option<&str>, name: &str| Span {
        trace_id: tid,
        span_id: st(sid),
        parent_span_id: parent.map(st),
        name: name.into(),
        kind: Some(num(2)),
        start_time_unix_nano: st("1000"),
        end_time_unix_nano: Some(num(4500)),
        attributes: vec![kv("http.method", Some(object(vec![("stringValue", st("GET"))])))],
        status: Some(StatusJson { code: Some(st("STATUS_CODE_ERROR")), message: Some("boom".into()) }),
        events: vec![EventJson {
            time_unix_nano: Some(st("2000")),
            name: "exception".into(),
            attributes: vec![kv("exception.type", Some(object(vec![("stringValue", st("E"))])))],
        }],
    };
    ExportTraceServiceRequest {
        resource_spans: vec![
            ResourceSpans {
                resource: Some(Resource {
                    attributes: vec![
                        kv("host", Some(object(vec![("stringValue", st("h"))]))),
                        kv("service.name", Some(object(vec![("stringValue", st("api"))]))),
                    ],
                }),
                scope_spans: vec![ScopeSpans {
                    scope: Some(Scope { name: "lib".into() }),
                    spans: vec![span(st("aa"), "01", None, "root"), span(st("aa"), "02", Some("01"), "child")],
                }],
            },
            ResourceSpans {
                resource: None,
                scope_spans: vec![
                    ScopeSpans { scope: None, spans: vec![span(num(7), "03", None, "odd")] },
                    ScopeSpans { scope: Some(Scope { name: "s2".into() }), spans: vec![] },
                ],
            },
        ],
    }
}

#[test]
fn flatten_normalizes_every_field() {
    let flat = flatten(&sample_doc());
    assert_eq!(flat.len(), 3);
    assert_eq!(flat[0].service_name.as_deref(), Some("api"));
    assert_eq!(flat[0].scope_name, "lib");
    assert_eq!(flat[0].trace_id, "aa");
    assert_eq!(flat[1].parent_span_id.as_deref(), Some("01"));
    assert_eq!(flat[0].kind, "SERVER");
    assert_eq!(flat[0].start_nanos, 1000);
    assert_eq!(flat[0].end_nanos, Some(4500));
    assert_eq!(flat[0].status_code, "ERROR");
    assert_eq!(flat[0].status_message.as_deref(), Some("boom"));
    assert_eq!(flat[0].attributes, vec![("http.method".to_string(), "GET".to_string())]);
    assert_eq!(flat[0].events.len(), 1);
    assert_eq!(flat[0].events[0].time_nanos, Some(2000));
    assert_eq!(flat[2].service_name, None);
    assert_eq!(flat[2].scope_name, "");
    assert_eq!(flat[2].trace_id, "?");
    assert_eq!(flat[0].duration_nanos(), Some(3500));
}

#[test]
fn duration_saturates_when_end_precedes_start() {
    let mut s = span_of("t", "a", None, "x");
    s.start_nanos = 10;
    s.end_nanos = Some(4);
    assert_eq!(s.duration_nanos(), Some(0));
    s.end_nanos = None;
    assert_eq!(s.duration_nanos(), None);
}

// ---- forest and rendering ----

#[test]
fn render_shows_connectors_attributes_and_events() {
    let flat = flatten(&sample_doc());
    assert!(forest_is_finite(&flat));
    let out = render_trace_tree(&flat);
    let expected = "Trace ?\n\
└─ odd [SERVER] service=- (3.50µs)\n\
\x20  STATUS=ERROR: boom\n\
\x20  attrs: http.method=GET\n\
\x20  event +1.00µs exception  exception.type=E\n\
\n\
Trace aa\n\
└─ root [SERVER] service=api (3.50µs)\n\
\x20  STATUS=ERROR: boom\n\
\x20  attrs: http.method=GET\n\
\x20  event +1.00µs exception  exception.type=E\n\
\x20  └─ child [SERVER] service=api (3.50µs)\n\
\x20     STATUS=ERROR: boom\n\
\x20     attrs: http.method=GET\n\
\x20     event +1.00µs exception  exception.type=E\n\
\n";
    assert_eq!(out, expected);
}

#[test]
fn render_draws_siblings_with_continuing_connectors() {
    let mut spans = vec![
        span_of("t", "r", None, "root"),
        span_of("t", "c1", Some("r"), "first"),
        span_of("t", "c2", Some("r"), "second"),
        span_of("t", "g", Some("c1"), "grand"),
    ];
    spans[1].events.push(FlatEvent { name: "tick".into(), time_nanos: None, attributes: vec![] });
    assert!(forest_is_finite(&spans));
    let out = render_trace_tree(&spans);
    let expected = "Trace t\n\
└─ root [INTERNAL] service=svc (2.00µs)\n\
\x20  ├─ first [INTERNAL] service=svc (2.00µs)\n\
\x20  │  event +? tick\n\
\x20  │  └─ grand [INTERNAL] service=svc (2.00µs)\n\
\x20  └─ second [INTERNAL] service=svc (2.00µs)\n\
\n";
    assert_eq!(out, expected);
}

#[test]
fn forest_with_a_returning_id_is_not_finite() {
    // the child carries the root's own id, so descending never ends
    let spans = vec![span_of("t", "x", None, "root"), span_of("t", "x", Some("x"), "again")];
    assert!(!forest_is_finite(&spans));
    // a loop that no root reaches is dropped, not followed
    let spans = vec![span_of("t", "a", Some("b"), "a"), span_of("t", "b", Some("a"), "b")];
    assert!(forest_is_finite(&spans));
    assert_eq!(build_forest(&spans)[0].1.len(), 0);
    assert_eq!(render_trace_tree(&spans), "Trace t\n\n");
}

#[test]
fn an_empty_parent_id_makes_a_root() {
    let spans = vec![span_of("t", "", None, "blank-id"), span_of("t", "c", Some(""), "blank-parent")];
    assert!(forest_is_finite(&spans));
    let forest = build_forest(&spans);
    assert_eq!(forest[0].1.len(), 2);
    assert_eq!(forest[0].1[0].children.len(), 0);
    assert_eq!(forest[0].1[1].span.name, "blank-parent");
}

#[test]
fn a_chain_as_deep_as_the_trace_is_finite() {
    // every span one level below the last: the deepest tree a trace can have
    let ids = ["s0", "s1", "s2", "s3", "s4", "s5"];
    let mut spans = vec![span_of("t", ids[0], None, "n0")];
    for k in 1..ids.len() {
        spans.push(span_of("t", ids[k], Some(ids[k - 1]), &format!("n{k}")));
    }
    assert!(forest_is_finite(&spans));
    let forest = build_forest(&spans);
    let mut node = &forest[0].1[0];
    let mut depth = 1;
    while let Some(child) = node.children.first() {
        node = child;
        depth += 1;
    }
    assert_eq!(depth, ids.len());
    // closing the chain back onto its root makes it endless
    spans.push(span_of("t", "s0", Some("s5"), "back"));
    assert!(!forest_is_finite(&spans));
}

#[test]
fn traces_are_sorted_and_kept_apart() {
    let spans = vec![
        span_of("t2", "a", None, "a"),
        span_of("t1", "b", None, "b"),
        span_of("t2", "c", Some("a"), "c"),
        span_of("t1", "d", Some("a"), "d"),
    ];
    assert!(forest_is_finite(&spans));
    let forest = build_forest(&spans);
    assert_eq!(forest.len(), 2);
    assert_eq!(forest[0].0, "t1");
    assert_eq!(forest[1].0, "t2");
    // "d" names "a" as parent, but "a" is in the other trace: it is a root of t1
    assert_eq!(forest[0].1.len(), 2);
    assert_eq!(forest[1].1.len(), 1);
    assert_eq!(forest[1].1[0].children[0].span.name, "c");
}

// ---- command-line selections ----

#[test]
fn report_covers_each_outcome() {
    assert!(matches!(report(vec![], None, false), Report::NoSpans));
    let spans = || {
        let mut v = vec![span_of("aa", "1", None, "ok"), span_of("bb", "2", None, "bad")];
        v[1].status_code = "ERROR";
        v
    };
    assert!(matches!(report(spans(), Some("cc"), false), Report::NoSpansForTrace));
    assert!(matches!(report(spans(), Some("AA"), true), Report::NoErrorTraces));
    match report(spans(), Some("BB"), true) {
        Report::Rendered(text) => assert!(text.starts_with("Trace bb\n")),
        other => panic!("unexpected {other:?}"),
    }
    match report(spans(), None, false) {
        Report::Rendered(text) => assert!(text.contains("Trace aa") && text.contains("Trace bb")),
        other => panic!("unexpected {other:?}"),
    }
    let endless = vec![span_of("t", "x", None, "root"), span_of("t", "x", Some("x"), "again")];
    assert!(matches!(report(endless, None, false), Report::EndlessTree));
}

#[test]
fn trace_selection_lowercases_the_requested_id() {
    let spans = vec![span_of("ab", "1", None, "x"), span_of("cd", "2", None, "y"), span_of("ab", "3", None, "z")];
    let kept = select_trace(spans, "AB");
    assert_eq!(kept.len(), 2);
    assert_eq!(kept[1].name, "z");
    let spans = vec![span_of("ab", "1", None, "x")];
    assert_eq!(keep_trace(spans, "AB").len(), 0);
}

#[test]
fn errors_only_keeps_whole_traces() {
    let mut spans = vec![
        span_of("t1", "1", None, "a"),
        span_of("t2", "2", None, "b"),
        span_of("t1", "3", None, "c"),
    ];
    spans[2].status_code = "ERROR";
    let kept = keep_error_traces(spans);
    assert_eq!(kept.len(), 2);
    assert_eq!(kept[0].name, "a");
    assert_eq!(kept[1].name, "c");
}

#[test]
fn service_name_is_the_first_service_name_attribute() {
    let resource = Resource {
        attributes: vec![
            kv("host", Some(object(vec![("stringValue", st("h1"))]))),
            kv("service.name", Some(object(vec![("stringValue", st("first"))]))),
            kv("service.name", Some(object(vec![("stringValue", st("second"))]))),
        ],
    };
    assert_eq!(service_name_of(&Some(resource)), Some("first".to_string()));
    let odd = Resource {
        attributes: vec![
            kv("service.name", Some(object(vec![("intValue", st("3"))]))),
            kv("service.name", Some(object(vec![("stringValue", st("later"))]))),
        ],
    };
    assert_eq!(service_name_of(&Some(odd)), None);
    assert_eq!(service_name_of(&None), None);
}

#[test]
fn events_are_flattened_field_by_field() {
    let event = EventJson {
        time_unix_nano: Some(st("1500")),
        name: "exception".to_string(),
        attributes: vec![kv("exception.type", Some(object(vec![("stringValue", st("E"))])))],
    };
    let flat = flatten_event(&event);
    assert_eq!(flat.name, "exception");
    assert_eq!(flat.time_nanos, Some(1500));
    assert_eq!(flat.attributes, vec![("exception.type".to_string(), "E".to_string())]);
    let bare = EventJson { time_unix_nano: Some(st("soon")), name: String::new(), attributes: vec![] };
    assert_eq!(flatten_event(&bare).time_nanos, None);
}

#[test]
fn durations_show_fixed_decimals_at_each_scale() {
    assert_eq!(format_duration_nanos(999), "999ns");
    assert_eq!(format_duration_nanos(1_000), "1.00µs");
    assert_eq!(format_duration_nanos(1_000_000), "1.00ms");
    assert_eq!(format_duration_nanos(1_000_000_000), "1.000s");
}

fn count_nodes(nodes: &[otlpcat::render::TreeNode<'_>], names: &mut Vec<String>) {
    for n in nodes {
        names.push(n.span.name.clone());
        count_nodes(&n.children, names);
    }
}

#[test]
fn with_distinct_ids_and_no_loops_each_span_appears_once() {
    let spans = vec![
        span_of("t", "c", Some("b"), "c"),
        span_of("t", "a", None, "a"),
        span_of("t", "b", Some("a"), "b"),
        span_of("t", "d", Some("a"), "d"),
        span_of("t", "e", Some("elsewhere"), "e"),
        span_of("u", "f", Some(""), "f"),
    ];
    assert!(forest_is_finite(&spans));
    let forest = build_forest(&spans);
    let mut names = Vec::new();
    for (_, roots) in &forest {
        count_nodes(roots, &mut names);
    }
    names.sort();
    assert_eq!(names, vec!["a", "b", "c", "d", "e", "f"]);
    let out = render_trace_tree(&spans);
    // every line below a heading starts with the child prefix of that heading
    assert!(out.contains("├─ a [INTERNAL] service=svc (2.00µs)\n│  ├─ b"));
}

#[test]
fn microseconds_and_milliseconds_round_to_the_nearest_hundredth() {
    for (nanos, scale, unit) in [(1_005u64, 1_000u64, "µs"), (1_015, 1_000, "µs"), (999_999, 1_000, "µs"),
        (2_505_000, 1_000_000, "ms"), (123_456_789, 1_000_000, "ms"), (999_999_999, 1_000_000, "ms")]
    {
        let text = format_duration_nanos(nanos);
        let digits = text.strip_suffix(unit).unwrap().replace('.', "");
        let hundredths: u64 = digits.parse().unwrap();
        let miss = (hundredths * scale) as i128 - 100 * nanos as i128;
        assert!(2 * miss.abs() <= scale as i128, "{nanos} -> {text}");
    }
}
