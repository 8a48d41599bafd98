//! The OTLP trace export document (an `ExportTraceServiceRequest`), as
//! read leniently: ids, enums and timestamps are kept as the JSON values
//! they were written as, since real producers disagree on their
//! encoding (hex or base64 ids, string or numeric enums, string or
//! numeric timestamps), and are normalized in `render`.

use vstd::prelude::*;
use crate::json::JsonValue;

verus! {

#[derive(Debug)]
pub struct ExportTraceServiceRequest {
    pub resource_spans: Vec<ResourceSpans>,
}

#[derive(Debug)]
pub struct ResourceSpans {
    pub resource: Option<Resource>,
    pub scope_spans: Vec<ScopeSpans>,
}

#[derive(Debug)]
pub struct Resource {
    pub attributes: Vec<KeyValue>,
}

#[derive(Debug)]
pub struct ScopeSpans {
    pub scope: Option<Scope>,
    pub spans: Vec<Span>,
}

#[derive(Debug)]
pub struct Scope {
    pub name: String,
}

#[derive(Debug)]
pub struct KeyValue {
    pub key: String,
    pub value: Option<JsonValue>,
}

#[derive(Debug)]
pub struct Span {
    pub trace_id: JsonValue,
    pub span_id: JsonValue,
    pub parent_span_id: Option<JsonValue>,
    pub name: String,
    pub kind: Option<JsonValue>,
    pub start_time_unix_nano: JsonValue,
    pub end_time_unix_nano: Option<JsonValue>,
    pub attributes: Vec<KeyValue>,
    pub status: Option<StatusJson>,
    pub events: Vec<EventJson>,
}

#[derive(Debug)]
pub struct StatusJson {
    pub code: Option<JsonValue>,
    pub message: Option<String>,
}

#[derive(Debug)]
pub struct EventJson {
    pub time_unix_nano: Option<JsonValue>,
    pub name: String,
    pub attributes: Vec<KeyValue>,
}

impl Default for Scope {
    fn default() -> (r: Scope)
        ensures
            r.name@ == Seq::<char>::empty(),
    {
        Scope { name: String::new() }
    }
}

} // verus!
