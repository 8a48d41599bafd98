//! Normalization, formatting and tree building: from the lenient
//! [`crate::otlp`] document to a flat span list, a span forest, and the
//! rendered text.

use vstd::prelude::*;
use vstd::string::*;
use base64::Engine;
use crate::json::{JsonValue, JsonNumber, json_text, json_str, json_get, get, member_index, lemma_member_index, find_member, to_json_string};
use crate::otlp::{KeyValue, EventJson, Resource, Span, ScopeSpans, Scope, ExportTraceServiceRequest, ResourceSpans};
use crate::text::{lex_lt, lemma_lex_irreflexive, lemma_lex_total, string_lt, join, join_strings, views, push_char, push_decimal, push_zero_padded, decimal, hex_char, hex_digit, str_eq, spec_parse_u64, parse_u64};
use crate::rounding::{fixed_text, decimal_units, nearest_double_int, ten_pow_exec, decimal_units_exec, nearest_double_int_exec, lemma_two_pow_values};

verus! {

// ---------------------------------------------------------------------
// Ids
// ---------------------------------------------------------------------

/// What base64's `STANDARD` engine decodes `text` to (`None` where it
/// rejects the text).
pub uninterp spec fn base64_standard_decode(text: Seq<char>) -> Option<Seq<u8>>;

/// base64's `engine::general_purpose::STANDARD.decode` (standard
/// alphabet, canonical padding required), with its error dropped: the
/// bytes it decodes `text` to, or `None` where it rejects `text`.
#[verifier::external_body]
fn decode_base64_standard(text: &str) -> (r: Option<Vec<u8>>)
    ensures
        match r {
            Some(bytes) => base64_standard_decode(text@) == Some(bytes@),
            None => base64_standard_decode(text@) is None,
        },
{
    base64::engine::general_purpose::STANDARD.decode(text).ok()
}

pub open spec fn is_hex_digit(c: char) -> bool {
    ('0' <= c && c <= '9') || ('a' <= c && c <= 'f') || ('A' <= c && c <= 'F')
}

/// A non-empty, even-length run of hexadecimal digits.
pub open spec fn is_hex_id(s: Seq<char>) -> bool {
    &&& s.len() > 0
    &&& s.len() % 2 == 0
    &&& forall|i: int| 0 <= i < s.len() ==> is_hex_digit(#[trigger] s[i])
}

pub open spec fn ascii_lower(c: char) -> char {
    if 'A' <= c && c <= 'Z' {
        ((c as u32) + 32) as char
    } else {
        c
    }
}

pub open spec fn lowercase_ascii(s: Seq<char>) -> Seq<char> {
    s.map_values(|c: char| ascii_lower(c))
}

/// Two lowercase hexadecimal digits per byte.
pub open spec fn hex_of_bytes(b: Seq<u8>) -> Seq<char>
    decreases b.len(),
{
    if b.len() == 0 {
        Seq::empty()
    } else {
        hex_of_bytes(b.drop_last()) + seq![
            hex_char((b.last() / 16) as nat),
            hex_char((b.last() % 16) as nat),
        ]
    }
}

/// The bytes inside an optional vector.
pub open spec fn bytes_view(decoded: Option<Vec<u8>>) -> Option<Seq<u8>> {
    match decoded {
        Some(b) => Some(b@),
        None => None,
    }
}

/// The id that decoded bytes give: their hex, unless there are none.
pub open spec fn spec_hex_of_decoded(decoded: Option<Seq<u8>>) -> Option<Seq<char>> {
    match decoded {
        Some(b) => if b.len() == 0 {
            None
        } else {
            Some(hex_of_bytes(b))
        },
        None => None,
    }
}

/// An id field as lowercase hex: a hex string is kept (lowercased),
/// any other string is read as base64 of the raw id bytes.
pub open spec fn spec_decode_id_to_hex(value: JsonValue) -> Option<Seq<char>> {
    match value {
        JsonValue::String(s) => if is_hex_id(s@) {
            Some(lowercase_ascii(s@))
        } else {
            spec_hex_of_decoded(base64_standard_decode(s@))
        },
        _ => None,
    }
}

fn is_hex_id_exec(s: &str) -> (r: bool)
    ensures
        r == is_hex_id(s@),
{
    let len = s.unicode_len();
    if len == 0 || len % 2 != 0 {
        return false;
    }
    for c in it: s.chars()
        invariant
            it.seq() == s@,
            len == s@.len(),
            len > 0 && len % 2 == 0,
            forall|j: int| 0 <= j < it.index() ==> is_hex_digit(#[trigger] s@[j]),
    {
        let ghost i = it.index();
        assert(s@[i as int] == c);
        if !(('0' <= c && c <= '9') || ('a' <= c && c <= 'f') || ('A' <= c && c <= 'F')) {
            assert(!is_hex_digit(s@[i as int]));
            return false;
        }
    }
    true
}

fn lower_char(c: char) -> (r: char)
    ensures
        r == ascii_lower(c),
{
    if 'A' <= c && c <= 'Z' {
        let b: u8 = ((c as u32) + 32) as u8;
        b as char
    } else {
        c
    }
}

fn lowercase_ascii_exec(s: &str) -> (r: String)
    ensures
        r@ == lowercase_ascii(s@),
{
    let mut out = String::new();
    for c in it: s.chars()
        invariant
            it.seq() == s@,
            out@ == lowercase_ascii(s@.take(it.index() as int)),
    {
        let ghost i = it.index();
        push_char(&mut out, lower_char(c));
        assert(lowercase_ascii(s@.take(i + 1)) =~= lowercase_ascii(s@.take(i as int)).push(
            ascii_lower(c),
        ));
    }
    assert(s@.take(s@.len() as int) =~= s@);
    out
}

/// The id that bytes decoded from base64 give: lowercase hex, two
/// digits per byte; `None` for a failed decode or no bytes at all.
pub fn hex_of_decoded(decoded: Option<Vec<u8>>) -> (r: Option<String>)
    ensures
        match r {
            Some(h) => spec_hex_of_decoded(bytes_view(decoded)) == Some(h@),
            None => spec_hex_of_decoded(bytes_view(decoded)) is None,
        },
{
    match decoded {
        None => None,
        Some(bytes) => {
            if bytes.len() == 0 {
                return None;
            }
            let mut out = String::new();
            let mut i: usize = 0;
            while i < bytes.len()
                invariant
                    i <= bytes@.len(),
                    out@ == hex_of_bytes(bytes@.take(i as int)),
                decreases bytes.len() - i,
            {
                let b = bytes[i];
                push_char(&mut out, hex_digit(b / 16));
                push_char(&mut out, hex_digit(b % 16));
                assert(bytes@.take(i + 1).drop_last() =~= bytes@.take(i as int));
                assert(out@ =~= hex_of_bytes(bytes@.take(i + 1)));
                i = i + 1;
            }
            assert(bytes@.take(bytes@.len() as int) =~= bytes@);
            Some(out)
        },
    }
}

/// Decodes an OTLP id field (`traceId`/`spanId`/`parentSpanId`) to
/// lowercase hex. Producers disagree on the wire form: the OTLP/HTTP
/// JSON convention is hex, but a generic protobuf-JSON encoder emits
/// standard base64 of the id bytes. Accepts either.
pub fn decode_id_to_hex(value: &JsonValue) -> (r: Option<String>)
    ensures
        match r {
            Some(h) => spec_decode_id_to_hex(*value) == Some(h@),
            None => spec_decode_id_to_hex(*value) is None,
        },
{
    match value {
        JsonValue::String(s) => {
            if is_hex_id_exec(s.as_str()) {
                return Some(lowercase_ascii_exec(s.as_str()));
            }
            let decoded = decode_base64_standard(s.as_str());
            proof {
                assert(bytes_view(decoded) == base64_standard_decode(s@));
            }
            hex_of_decoded(decoded)
        },
        _ => None,
    }
}

// ---------------------------------------------------------------------
// Timestamps and enums
// ---------------------------------------------------------------------

/// A nanosecond timestamp: the JSON string form (protobuf JSON writes
/// 64-bit integers as strings) or a bare unsigned JSON number.
pub open spec fn spec_parse_nanos(value: JsonValue) -> Option<u64> {
    match value {
        JsonValue::String(s) => spec_parse_u64(s@),
        JsonValue::Number(JsonNumber::Unsigned(n)) => Some(n),
        _ => None,
    }
}

/// Parses a nanosecond timestamp field, accepting both the string form
/// and a bare JSON number.
pub fn parse_nanos(value: &JsonValue) -> (r: Option<u64>)
    ensures
        r == spec_parse_nanos(*value),
{
    match value {
        JsonValue::String(s) => parse_u64(s.as_str()),
        JsonValue::Number(JsonNumber::Unsigned(n)) => Some(*n),
        _ => None,
    }
}

/// The value behind an optional reference.
pub open spec fn opt_value(value: Option<&JsonValue>) -> Option<JsonValue> {
    match value {
        Some(v) => Some(*v),
        None => None,
    }
}

/// `s` without the leading `prefix`, if it starts with it.
pub open spec fn strip_prefix(s: Seq<char>, prefix: Seq<char>) -> Seq<char> {
    if prefix.len() <= s.len() && s.take(prefix.len() as int) == prefix {
        s.skip(prefix.len() as int)
    } else {
        s
    }
}

fn strip_prefix_exec<'a>(s: &'a str, prefix: &str) -> (r: &'a str)
    ensures
        r@ == strip_prefix(s@, prefix@),
{
    let n = s.unicode_len();
    let k = prefix.unicode_len();
    if k <= n && str_eq(s.substring_char(0, k), prefix) {
        s.substring_char(k, n)
    } else {
        proof {
            if k <= n {
                assert(s@.subrange(0, k as int) =~= s@.take(k as int));
            }
        }
        s
    }
}

pub open spec fn kind_name_label(name: Seq<char>) -> Seq<char> {
    if name == "INTERNAL"@ {
        "INTERNAL"@
    } else if name == "SERVER"@ {
        "SERVER"@
    } else if name == "CLIENT"@ {
        "CLIENT"@
    } else if name == "PRODUCER"@ {
        "PRODUCER"@
    } else if name == "CONSUMER"@ {
        "CONSUMER"@
    } else {
        "UNSPECIFIED"@
    }
}

pub open spec fn kind_code_label(code: u64) -> Seq<char> {
    if code == 1 {
        "INTERNAL"@
    } else if code == 2 {
        "SERVER"@
    } else if code == 3 {
        "CLIENT"@
    } else if code == 4 {
        "PRODUCER"@
    } else if code == 5 {
        "CONSUMER"@
    } else {
        "UNSPECIFIED"@
    }
}

/// A span kind given by name (with or without the `SPAN_KIND_` prefix)
/// or by its numeric code.
pub open spec fn spec_span_kind_label(value: Option<JsonValue>) -> Seq<char> {
    match value {
        None => "UNSPECIFIED"@,
        Some(JsonValue::String(s)) => kind_name_label(strip_prefix(s@, "SPAN_KIND_"@)),
        Some(JsonValue::Number(JsonNumber::Unsigned(n))) => kind_code_label(n),
        Some(_) => "UNSPECIFIED"@,
    }
}

pub fn span_kind_label(value: Option<&JsonValue>) -> (r: &'static str)
    ensures
        r@ == spec_span_kind_label(opt_value(value)),
{
    match value {
        None => "UNSPECIFIED",
        Some(JsonValue::String(s)) => {
            let name = strip_prefix_exec(s.as_str(), "SPAN_KIND_");
            if str_eq(name, "INTERNAL") {
                "INTERNAL"
            } else if str_eq(name, "SERVER") {
                "SERVER"
            } else if str_eq(name, "CLIENT") {
                "CLIENT"
            } else if str_eq(name, "PRODUCER") {
                "PRODUCER"
            } else if str_eq(name, "CONSUMER") {
                "CONSUMER"
            } else {
                "UNSPECIFIED"
            }
        },
        Some(JsonValue::Number(JsonNumber::Unsigned(n))) => {
            if *n == 1 {
                "INTERNAL"
            } else if *n == 2 {
                "SERVER"
            } else if *n == 3 {
                "CLIENT"
            } else if *n == 4 {
                "PRODUCER"
            } else if *n == 5 {
                "CONSUMER"
            } else {
                "UNSPECIFIED"
            }
        },
        Some(_) => "UNSPECIFIED",
    }
}

pub open spec fn status_name_label(name: Seq<char>) -> Seq<char> {
    if name == "OK"@ {
        "OK"@
    } else if name == "ERROR"@ {
        "ERROR"@
    } else {
        "UNSET"@
    }
}

pub open spec fn status_code_label_of(code: u64) -> Seq<char> {
    if code == 1 {
        "OK"@
    } else if code == 2 {
        "ERROR"@
    } else {
        "UNSET"@
    }
}

/// A status code given by name (with or without the `STATUS_CODE_`
/// prefix) or by its numeric code.
pub open spec fn spec_status_code_label(value: Option<JsonValue>) -> Seq<char> {
    match value {
        None => "UNSET"@,
        Some(JsonValue::String(s)) => status_name_label(strip_prefix(s@, "STATUS_CODE_"@)),
        Some(JsonValue::Number(JsonNumber::Unsigned(n))) => status_code_label_of(n),
        Some(_) => "UNSET"@,
    }
}

pub fn status_code_label(value: Option<&JsonValue>) -> (r: &'static str)
    ensures
        r@ == spec_status_code_label(opt_value(value)),
{
    match value {
        None => "UNSET",
        Some(JsonValue::String(s)) => {
            let name = strip_prefix_exec(s.as_str(), "STATUS_CODE_");
            if str_eq(name, "OK") {
                "OK"
            } else if str_eq(name, "ERROR") {
                "ERROR"
            } else {
                "UNSET"
            }
        },
        Some(JsonValue::Number(JsonNumber::Unsigned(n))) => {
            if *n == 1 {
                "OK"
            } else if *n == 2 {
                "ERROR"
            } else {
                "UNSET"
            }
        },
        Some(_) => "UNSET",
    }
}

// ---------------------------------------------------------------------
// Durations
// ---------------------------------------------------------------------

/// A nanosecond duration in human scale: nanoseconds below 1µs,
/// microseconds (2 decimals) below 1ms, milliseconds (2 decimals) below
/// 1s, seconds (3 decimals) otherwise. The scaled value is the double
/// nearest to the exact quotient (for seconds, of the double nearest to
/// `nanos`), printed with its exact decimal value rounded half to even.
pub open spec fn spec_format_duration_nanos(nanos: nat) -> Seq<char> {
    if nanos < 1_000 {
        decimal(nanos) + "ns"@
    } else if nanos < 1_000_000 {
        fixed_text(decimal_units(nanos, 1_000, 2), 2) + "µs"@
    } else if nanos < 1_000_000_000 {
        fixed_text(decimal_units(nanos, 1_000_000, 2), 2) + "ms"@
    } else {
        fixed_text(decimal_units(nearest_double_int(nanos), 1_000_000_000, 3), 3) + "s"@
    }
}

fn push_fixed(out: &mut String, units: u64, d: u32)
    requires
        d <= 3,
    ensures
        final(out)@ == old(out)@ + fixed_text(units as nat, d as nat),
{
    let tp = ten_pow_exec(d) as u64;
    push_decimal(out, units / tp);
    push_char(out, '.');
    push_zero_padded(out, units % tp, d as u64);
    assert(final(out)@ =~= old(out)@ + fixed_text(units as nat, d as nat));
}

/// Formats a nanosecond duration as a human-scaled string: ns below 1µs,
/// µs below 1ms, ms below 1s, seconds with 3 decimals otherwise.
pub fn format_duration_nanos(nanos: u64) -> (r: String)
    ensures
        r@ == spec_format_duration_nanos(nanos as nat),
{
    let mut out = String::new();
    if nanos < 1_000 {
        push_decimal(&mut out, nanos);
        out.append("ns");
    } else if nanos < 1_000_000 {
        proof {
            lemma_two_pow_values();
            assert((nanos as nat) / 1000 < 1000) by (nonlinear_arith)
                requires
                    nanos < 1_000_000,
            ;
        }
        let units = decimal_units_exec(nanos as u128, 1_000, 2);
        push_fixed(&mut out, units, 2);
        out.append("µs");
    } else if nanos < 1_000_000_000 {
        proof {
            lemma_two_pow_values();
            assert((nanos as nat) / 1_000_000 < 1000) by (nonlinear_arith)
                requires
                    nanos < 1_000_000_000,
            ;
        }
        let units = decimal_units_exec(nanos as u128, 1_000_000, 2);
        push_fixed(&mut out, units, 2);
        out.append("ms");
    } else {
        let a = nearest_double_int_exec(nanos);
        proof {
            lemma_two_pow_values();
            assert(a / 1_000_000_000 < 9007199254740992) by (nonlinear_arith)
                requires
                    a <= 18446744073709551615 + 2048,
            ;
        }
        let units = decimal_units_exec(a, 1_000_000_000, 3);
        push_fixed(&mut out, units, 3);
        out.append("s");
    }
    proof {
        assert(out@ =~= spec_format_duration_nanos(nanos as nat));
    }
    out
}

// ---------------------------------------------------------------------
// Attribute values
// ---------------------------------------------------------------------

/// The string member `key` of an object's members.
pub open spec fn member_str(members: Seq<(String, JsonValue)>, key: Seq<char>) -> Option<Seq<char>> {
    match member_index(members, key) {
        Some(i) => json_str(members[i].1),
        None => None,
    }
}

/// The array under `key` → `values` (as in `{"arrayValue": {"values": [..]}}`).
pub open spec fn list_values(members: Seq<(String, JsonValue)>, key: Seq<char>) -> Option<Seq<JsonValue>> {
    match member_index(members, key) {
        Some(i) => match members[i].1 {
            JsonValue::Object(inner) => match member_index(inner@, "values"@) {
                Some(j) => match inner@[j].1 {
                    JsonValue::Array(items) => Some(items@),
                    _ => None,
                },
                None => None,
            },
            _ => None,
        },
        None => None,
    }
}

pub proof fn lemma_list_values_decreases(v: JsonValue, key: Seq<char>)
    requires
        v is Object,
    ensures
        list_values(v->Object_0@, key) matches Some(items) ==> decreases_to!(v => items),
{
    let members = v->Object_0;
    lemma_member_index(members@, key);
    if let Some(i) = member_index(members@, key) {
        let m = members@[i].1;
        if let JsonValue::Object(inner) = m {
            lemma_member_index(inner@, "values"@);
            if let Some(j) = member_index(inner@, "values"@) {
                let w = inner@[j].1;
                if let JsonValue::Array(items) = w {
                    assert(decreases_to!(v => v->Object_0));
                    assert(decreases_to!(members => members@));
                    assert(decreases_to!(members@ => members@[i]));
                    assert(decreases_to!(members@[i] => members@[i].1));
                    assert(decreases_to!(m => m->Object_0));
                    assert(decreases_to!(inner => inner@));
                    assert(decreases_to!(inner@ => inner@[j]));
                    assert(decreases_to!(inner@[j] => inner@[j].1));
                    assert(decreases_to!(w => w->Array_0));
                    assert(decreases_to!(items => items@));
                }
            }
        }
    }
}

pub proof fn lemma_member_decreases(v: JsonValue, key: Seq<char>)
    requires
        v is Object,
    ensures
        member_index(v->Object_0@, key) matches Some(i) ==> decreases_to!(v => v->Object_0@[i].1),
{
    let members = v->Object_0;
    lemma_member_index(members@, key);
    if let Some(i) = member_index(members@, key) {
        assert(decreases_to!(v => v->Object_0));
        assert(decreases_to!(members => members@));
        assert(decreases_to!(members@ => members@[i]));
        assert(decreases_to!(members@[i] => members@[i].1));
    }
}

/// The length `str::len` reports: the UTF-8 byte count, as a `usize`.
pub open spec fn str_byte_len(s: Seq<char>) -> nat {
    (vstd::utf8::encode_utf8(s).len() as usize) as nat
}

/// `intValue`: a string as it is, anything else as its JSON text.
pub open spec fn int_value_text(v: JsonValue) -> Seq<char> {
    match v {
        JsonValue::String(s) => s@,
        _ => json_text(v),
    }
}

/// An OTLP `AnyValue` object (`{"stringValue": "..."}` etc.) as compact,
/// human-readable text; anything but an object as its JSON text.
pub open spec fn spec_format_any_value(value: JsonValue) -> Seq<char>
    decreases value,
{
    match value {
        JsonValue::Object(members) => {
            let ms = members@;
            if let Some(s) = member_str(ms, "stringValue"@) {
                s
            } else if let Some(i) = member_index(ms, "intValue"@) {
                int_value_text(ms[i].1)
            } else if let Some(i) = member_index(ms, "doubleValue"@) {
                json_text(ms[i].1)
            } else if let Some(i) = member_index(ms, "boolValue"@) {
                json_text(ms[i].1)
            } else if let Some(s) = member_str(ms, "bytesValue"@) {
                "<"@ + decimal(str_byte_len(s)) + " bytes base64>"@
            } else if let Some(items) = list_values(ms, "arrayValue"@) {
                proof {
                    lemma_list_values_decreases(value, "arrayValue"@);
                }
                "["@ + join(format_items(items), ", "@) + "]"@
            } else if let Some(items) = list_values(ms, "kvlistValue"@) {
                proof {
                    lemma_list_values_decreases(value, "kvlistValue"@);
                }
                "{"@ + join(format_kv_items(items), ", "@) + "}"@
            } else {
                "null"@
            }
        },
        _ => json_text(value),
    }
}

/// Each item formatted.
pub open spec fn format_items(items: Seq<JsonValue>) -> Seq<Seq<char>>
    decreases items,
{
    if items.len() == 0 {
        Seq::empty()
    } else {
        format_items(items.drop_last()).push(spec_format_any_value(items.last()))
    }
}

/// `key=value` for each entry with a string `key`; the value formatted,
/// or empty where there is none.
pub open spec fn format_kv_items(items: Seq<JsonValue>) -> Seq<Seq<char>>
    decreases items,
{
    if items.len() == 0 {
        Seq::empty()
    } else {
        let rest = format_kv_items(items.drop_last());
        let kv = items.last();
        match kv {
            JsonValue::Object(members) => match member_str(members@, "key"@) {
                Some(k) => {
                    let val = match member_index(members@, "value"@) {
                        Some(i) => {
                            proof {
                                lemma_member_decreases(kv, "value"@);
                            }
                            spec_format_any_value(members@[i].1)
                        },
                        None => Seq::empty(),
                    };
                    rest.push(k + "="@ + val)
                },
                None => rest,
            },
            _ => rest,
        }
    }
}

fn find_list<'a>(members: &'a Vec<(String, JsonValue)>, key: &str) -> (r: Option<&'a Vec<JsonValue>>)
    ensures
        match r {
            Some(items) => list_values(members@, key@) == Some(items@),
            None => list_values(members@, key@) is None,
        },
{
    match find_member(members, key) {
        Some(i) => {
            proof {
                lemma_member_index(members@, key@);
            }
            match &members[i].1 {
                JsonValue::Object(inner) => match find_member(inner, "values") {
                    Some(j) => {
                        proof {
                            lemma_member_index(inner@, "values"@);
                        }
                        match &inner[j].1 {
                            JsonValue::Array(items) => Some(items),
                            _ => None,
                        }
                    },
                    None => None,
                },
                _ => None,
            }
        },
        None => None,
    }
}

proof fn lemma_format_items_take(items: Seq<JsonValue>, k: int)
    requires
        0 <= k < items.len(),
    ensures
        format_items(items.take(k + 1)) == format_items(items.take(k)).push(
            spec_format_any_value(items[k]),
        ),
        format_kv_items(items.take(k + 1)) == ({
            let rest = format_kv_items(items.take(k));
            let kv = items[k];
            match kv {
                JsonValue::Object(members) => match member_str(members@, "key"@) {
                    Some(key) => {
                        let val = match member_index(members@, "value"@) {
                            Some(i) => spec_format_any_value(members@[i].1),
                            None => Seq::empty(),
                        };
                        rest.push(key + "="@ + val)
                    },
                    None => rest,
                },
                _ => rest,
            }
        }),
{
    assert(items.take(k + 1).drop_last() =~= items.take(k));
}

/// Renders one OTLP `AnyValue` JSON object (`{"stringValue": "..."}`
/// etc.) into a compact, human-readable string.
pub fn format_any_value(value: &JsonValue) -> (r: String)
    ensures
        r@ == spec_format_any_value(*value),
    decreases value,
{
    let members = match value {
        JsonValue::Object(members) => members,
        _ => {
            return to_json_string(value);
        },
    };
    let ghost ms = members@;
    proof {
        lemma_member_index(ms, "stringValue"@);
        lemma_member_index(ms, "intValue"@);
        lemma_member_index(ms, "doubleValue"@);
        lemma_member_index(ms, "boolValue"@);
        lemma_member_index(ms, "bytesValue"@);
    }
    if let Some(i) = find_member(members, "stringValue") {
        if let JsonValue::String(s) = &members[i].1 {
            return s.clone();
        }
    }
    if let Some(i) = find_member(members, "intValue") {
        return match &members[i].1 {
            JsonValue::String(s) => s.clone(),
            other => to_json_string(other),
        };
    }
    if let Some(i) = find_member(members, "doubleValue") {
        return to_json_string(&members[i].1);
    }
    if let Some(i) = find_member(members, "boolValue") {
        return to_json_string(&members[i].1);
    }
    if let Some(i) = find_member(members, "bytesValue") {
        if let JsonValue::String(s) = &members[i].1 {
            let st = s.as_str();
            let n = st.len();
            let mut out = String::new();
            out.append("<");
            push_decimal(&mut out, n as u64);
            out.append(" bytes base64>");
            proof {
                assert(out@ =~= spec_format_any_value(*value));
            }
            return out;
        }
    }
    if let Some(items) = find_list(members, "arrayValue") {
        proof {
            lemma_list_values_decreases(*value, "arrayValue"@);
        }
        let mut parts: Vec<String> = Vec::new();
        let mut k: usize = 0;
        while k < items.len()
            invariant
                k <= items@.len(),
                decreases_to!(*value => items@),
                views(parts@) == format_items(items@.take(k as int)),
            decreases items.len() - k,
        {
            proof {
                lemma_format_items_take(items@, k as int);
                assert(decreases_to!(items@ => items@[k as int]));
            }
            let part = format_any_value(&items[k]);
            parts.push(part);
            proof {
                assert(views(parts@) =~= format_items(items@.take(k + 1)));
            }
            k = k + 1;
        }
        proof {
            assert(items@.take(items@.len() as int) =~= items@);
        }
        let mut out = String::new();
        out.append("[");
        let joined = join_strings(&parts, ", ");
        out.append(joined.as_str());
        out.append("]");
        proof {
            assert(out@ =~= spec_format_any_value(*value));
        }
        return out;
    }
    if let Some(items) = find_list(members, "kvlistValue") {
        proof {
            lemma_list_values_decreases(*value, "kvlistValue"@);
        }
        let mut parts: Vec<String> = Vec::new();
        let mut k: usize = 0;
        while k < items.len()
            invariant
                k <= items@.len(),
                decreases_to!(*value => items@),
                views(parts@) == format_kv_items(items@.take(k as int)),
            decreases items.len() - k,
        {
            proof {
                lemma_format_items_take(items@, k as int);
                assert(decreases_to!(items@ => items@[k as int]));
            }
            if let JsonValue::Object(m) = &items[k] {
                proof {
                    lemma_member_index(m@, "key"@);
                    lemma_member_index(m@, "value"@);
                }
                if let Some(ki) = find_member(m, "key") {
                    if let JsonValue::String(key) = &m[ki].1 {
                        let mut part = key.clone();
                        part.append("=");
                        if let Some(vi) = find_member(m, "value") {
                            proof {
                                lemma_member_decreases(items@[k as int], "value"@);
                            }
                            let val = format_any_value(&m[vi].1);
                            part.append(val.as_str());
                        }
                        parts.push(part);
                    }
                }
            }
            proof {
                assert(views(parts@) =~= format_kv_items(items@.take(k + 1)));
            }
            k = k + 1;
        }
        proof {
            assert(items@.take(items@.len() as int) =~= items@);
        }
        let mut out = String::new();
        out.append("{");
        let joined = join_strings(&parts, ", ");
        out.append(joined.as_str());
        out.append("}");
        proof {
            assert(out@ =~= spec_format_any_value(*value));
        }
        return out;
    }
    let out = String::from_str("null");
    proof {
        assert(out@ =~= spec_format_any_value(*value));
    }
    out
}

/// Each attribute's key and its value formatted (empty where it has none).
pub open spec fn spec_format_attributes(attrs: Seq<KeyValue>) -> Seq<(Seq<char>, Seq<char>)> {
    attrs.map_values(
        |kv: KeyValue|
            (
                kv.key@,
                match kv.value {
                    Some(v) => spec_format_any_value(v),
                    None => Seq::empty(),
                },
            ),
    )
}

/// The characters of each key and value.
pub open spec fn attrs_view(attrs: Seq<(String, String)>) -> Seq<(Seq<char>, Seq<char>)> {
    attrs.map_values(|p: (String, String)| (p.0@, p.1@))
}

pub fn format_attributes(attrs: &[KeyValue]) -> (r: Vec<(String, String)>)
    ensures
        attrs_view(r@) == spec_format_attributes(attrs@),
{
    let mut out: Vec<(String, String)> = Vec::new();
    let mut i: usize = 0;
    while i < attrs.len()
        invariant
            i <= attrs@.len(),
            attrs_view(out@) == spec_format_attributes(attrs@.take(i as int)),
        decreases attrs.len() - i,
    {
        let kv = &attrs[i];
        let rendered = match &kv.value {
            Some(v) => format_any_value(v),
            None => String::new(),
        };
        let ghost old_out = out@;
        let key = kv.key.clone();
        proof {
            assert(spec_format_attributes(attrs@.take(i + 1)) =~= spec_format_attributes(
                attrs@.take(i as int),
            ).push((key@, rendered@)));
        }
        out.push((key, rendered));
        proof {
            assert(attrs_view(out@) =~= attrs_view(old_out).push((key@, rendered@)));
        }
        i = i + 1;
    }
    proof {
        assert(attrs@.take(attrs@.len() as int) =~= attrs@);
    }
    out
}

// ---------------------------------------------------------------------
// Flat spans
// ---------------------------------------------------------------------

#[derive(Debug, Clone)]
pub struct FlatEvent {
    pub name: String,
    pub time_nanos: Option<u64>,
    pub attributes: Vec<(String, String)>,
}

#[derive(Debug, Clone)]
pub struct FlatSpan {
    pub service_name: Option<String>,
    pub scope_name: String,
    pub trace_id: String,
    pub span_id: String,
    pub parent_span_id: Option<String>,
    pub name: String,
    pub kind: &'static str,
    pub start_nanos: u64,
    pub end_nanos: Option<u64>,
    pub attributes: Vec<(String, String)>,
    pub status_code: &'static str,
    pub status_message: Option<String>,
    pub events: Vec<FlatEvent>,
}

/// A flat event, by the characters of its strings.
pub struct FlatEventView {
    pub name: Seq<char>,
    pub time_nanos: Option<u64>,
    pub attributes: Seq<(Seq<char>, Seq<char>)>,
}

/// A flat span, by the characters of its strings.
pub struct FlatSpanView {
    pub service_name: Option<Seq<char>>,
    pub scope_name: Seq<char>,
    pub trace_id: Seq<char>,
    pub span_id: Seq<char>,
    pub parent_span_id: Option<Seq<char>>,
    pub name: Seq<char>,
    pub kind: Seq<char>,
    pub start_nanos: u64,
    pub end_nanos: Option<u64>,
    pub attributes: Seq<(Seq<char>, Seq<char>)>,
    pub status_code: Seq<char>,
    pub status_message: Option<Seq<char>>,
    pub events: Seq<FlatEventView>,
}

pub open spec fn opt_str_view(s: Option<String>) -> Option<Seq<char>> {
    match s {
        Some(s) => Some(s@),
        None => None,
    }
}

impl View for FlatEvent {
    type V = FlatEventView;

    open spec fn view(&self) -> FlatEventView {
        FlatEventView {
            name: self.name@,
            time_nanos: self.time_nanos,
            attributes: attrs_view(self.attributes@),
        }
    }
}

pub open spec fn events_view(events: Seq<FlatEvent>) -> Seq<FlatEventView> {
    events.map_values(|e: FlatEvent| e@)
}

impl View for FlatSpan {
    type V = FlatSpanView;

    open spec fn view(&self) -> FlatSpanView {
        FlatSpanView {
            service_name: opt_str_view(self.service_name),
            scope_name: self.scope_name@,
            trace_id: self.trace_id@,
            span_id: self.span_id@,
            parent_span_id: opt_str_view(self.parent_span_id),
            name: self.name@,
            kind: self.kind@,
            start_nanos: self.start_nanos,
            end_nanos: self.end_nanos,
            attributes: attrs_view(self.attributes@),
            status_code: self.status_code@,
            status_message: opt_str_view(self.status_message),
            events: events_view(self.events@),
        }
    }
}

pub open spec fn spans_view(spans: Seq<FlatSpan>) -> Seq<FlatSpanView> {
    spans.map_values(|s: FlatSpan| s@)
}

/// `end - start`, saturating at zero; `None` for a span without an end.
pub open spec fn spec_duration_nanos(start: u64, end: Option<u64>) -> Option<u64> {
    match end {
        Some(e) => Some(if e >= start { (e - start) as u64 } else { 0u64 }),
        None => None,
    }
}

impl FlatSpan {
    pub fn duration_nanos(&self) -> (r: Option<u64>)
        ensures
            r == spec_duration_nanos(self.start_nanos, self.end_nanos),
    {
        match self.end_nanos {
            Some(end) => Some(end.saturating_sub(self.start_nanos)),
            None => None,
        }
    }
}

fn clone_opt_string(s: &Option<String>) -> (r: Option<String>)
    ensures
        opt_str_view(r) == opt_str_view(*s),
{
    match s {
        Some(v) => Some(v.clone()),
        None => None,
    }
}

/// The index of the first attribute named `key`.
pub open spec fn attr_index(attrs: Seq<KeyValue>, key: Seq<char>) -> Option<int>
    decreases attrs.len(),
{
    if attrs.len() == 0 {
        None
    } else {
        match attr_index(attrs.drop_last(), key) {
            Some(i) => Some(i),
            None => if attrs.last().key@ == key {
                Some(attrs.len() - 1)
            } else {
                None
            },
        }
    }
}

pub proof fn lemma_attr_index(attrs: Seq<KeyValue>, key: Seq<char>)
    ensures
        attr_index(attrs, key) matches Some(i) ==> 0 <= i < attrs.len() && attrs[i].key@ == key
            && forall|j: int| 0 <= j < i ==> attrs[j].key@ != key,
        attr_index(attrs, key) is None ==> forall|j: int|
            0 <= j < attrs.len() ==> attrs[j].key@ != key,
    decreases attrs.len(),
{
    if attrs.len() > 0 {
        let init = attrs.drop_last();
        lemma_attr_index(init, key);
        assert forall|j: int| 0 <= j < init.len() implies init[j] == attrs[j] by {}
    }
}

/// The `service.name` resource attribute: the first attribute with that
/// key, when its value is `{"stringValue": ...}`.
pub open spec fn spec_service_name_of(resource: Option<Resource>) -> Option<Seq<char>> {
    match resource {
        None => None,
        Some(r) => match attr_index(r.attributes@, "service.name"@) {
            Some(i) => match r.attributes@[i].value {
                Some(v) => match json_get(v, "stringValue"@) {
                    Some(x) => json_str(x),
                    None => None,
                },
                None => None,
            },
            None => None,
        },
    }
}

/// The service name of a resource: the first `service.name` attribute's
/// `stringValue`, if it has one.
pub fn service_name_of(resource: &Option<Resource>) -> (r: Option<String>)
    ensures
        opt_str_view(r) == spec_service_name_of(*resource),
{
    let res = match resource {
        Some(res) => res,
        None => {
            return None;
        },
    };
    let key = String::from_str("service.name");
    let mut i: usize = 0;
    proof {
        lemma_attr_index(res.attributes@, "service.name"@);
    }
    while i < res.attributes.len()
        invariant
            i <= res.attributes@.len(),
            *resource == Some(*res),
            key@ == "service.name"@,
            forall|j: int| 0 <= j < i ==> res.attributes@[j].key@ != "service.name"@,
        decreases res.attributes.len() - i,
    {
        if res.attributes[i].key == key {
            proof {
                lemma_attr_index(res.attributes@, "service.name"@);
                if let Some(x) = attr_index(res.attributes@, "service.name"@) {
                    assert(x == i);
                } else {
                    assert(res.attributes@[i as int].key@ == "service.name"@);
                }
            }
            assert(attr_index(res.attributes@, "service.name"@) == Some(i as int));
            return match &res.attributes[i].value {
                Some(v) => match get(v, "stringValue") {
                    Some(x) => match x {
                        JsonValue::String(s) => {
                            let c = s.clone();
                            assert(json_str(*x) == Some(c@));
                            Some(c)
                        },
                        _ => None,
                    },
                    None => None,
                },
                None => None,
            };
        }
        i = i + 1;
    }
    None
}

pub open spec fn spec_flatten_event(event: EventJson) -> FlatEventView {
    FlatEventView {
        name: event.name@,
        time_nanos: match event.time_unix_nano {
            Some(t) => spec_parse_nanos(t),
            None => None,
        },
        attributes: spec_format_attributes(event.attributes@),
    }
}

/// One event, normalized: its name, its time, its attributes as text.
pub fn flatten_event(event: &EventJson) -> (r: FlatEvent)
    ensures
        r@ == spec_flatten_event(*event),
{
    FlatEvent {
        name: event.name.clone(),
        time_nanos: match &event.time_unix_nano {
            Some(t) => parse_nanos(t),
            None => None,
        },
        attributes: format_attributes(event.attributes.as_slice()),
    }
}

/// An id decoded, or `?` where it cannot be.
pub open spec fn id_or_placeholder(value: JsonValue) -> Seq<char> {
    match spec_decode_id_to_hex(value) {
        Some(h) => h,
        None => "?"@,
    }
}

/// One span, normalized, with its resource's service name and its scope's name.
pub open spec fn spec_flat_span(service: Option<Seq<char>>, scope: Seq<char>, span: Span) -> FlatSpanView {
    FlatSpanView {
        service_name: service,
        scope_name: scope,
        trace_id: id_or_placeholder(span.trace_id),
        span_id: id_or_placeholder(span.span_id),
        parent_span_id: match span.parent_span_id {
            Some(p) => spec_decode_id_to_hex(p),
            None => None,
        },
        name: span.name@,
        kind: spec_span_kind_label(span.kind),
        start_nanos: match spec_parse_nanos(span.start_time_unix_nano) {
            Some(n) => n,
            None => 0,
        },
        end_nanos: match span.end_time_unix_nano {
            Some(e) => spec_parse_nanos(e),
            None => None,
        },
        attributes: spec_format_attributes(span.attributes@),
        status_code: spec_status_code_label(
            match span.status {
                Some(st) => st.code,
                None => None,
            },
        ),
        status_message: match span.status {
            Some(st) => opt_str_view(st.message),
            None => None,
        },
        events: span.events@.map_values(|e: EventJson| spec_flatten_event(e)),
    }
}

pub open spec fn scope_name_of(scope: Option<Scope>) -> Seq<char> {
    match scope {
        Some(s) => s.name@,
        None => Seq::empty(),
    }
}

pub open spec fn spec_flatten_scope(service: Option<Seq<char>>, ss: ScopeSpans) -> Seq<FlatSpanView> {
    ss.spans@.map_values(|sp: Span| spec_flat_span(service, scope_name_of(ss.scope), sp))
}

pub open spec fn spec_flatten_scopes(service: Option<Seq<char>>, scopes: Seq<ScopeSpans>) -> Seq<FlatSpanView>
    decreases scopes.len(),
{
    if scopes.len() == 0 {
        Seq::empty()
    } else {
        spec_flatten_scopes(service, scopes.drop_last()) + spec_flatten_scope(service, scopes.last())
    }
}

pub open spec fn spec_flatten_resources(resources: Seq<ResourceSpans>) -> Seq<FlatSpanView>
    decreases resources.len(),
{
    if resources.len() == 0 {
        Seq::empty()
    } else {
        let rs = resources.last();
        spec_flatten_resources(resources.drop_last()) + spec_flatten_scopes(
            spec_service_name_of(rs.resource),
            rs.scope_spans@,
        )
    }
}

/// Every span of the document, in document order, normalized.
pub open spec fn spec_flatten(doc: ExportTraceServiceRequest) -> Seq<FlatSpanView> {
    spec_flatten_resources(doc.resource_spans@)
}

fn flat_span(service_name: &Option<String>, scope_name: &String, span: &Span) -> (r: FlatSpan)
    ensures
        r@ == spec_flat_span(opt_str_view(*service_name), scope_name@, *span),
{
    let mut events: Vec<FlatEvent> = Vec::new();
    let mut e: usize = 0;
    while e < span.events.len()
        invariant
            e <= span.events@.len(),
            events_view(events@) == span.events@.take(e as int).map_values(
                |ev: EventJson| spec_flatten_event(ev),
            ),
        decreases span.events.len() - e,
    {
        let ghost old_events = events@;
        let fe = flatten_event(&span.events[e]);
        events.push(fe);
        proof {
            assert(events_view(events@) =~= events_view(old_events).push(fe@));
            assert(span.events@.take(e + 1).map_values(|ev: EventJson| spec_flatten_event(ev))
                =~= span.events@.take(e as int).map_values(
                |ev: EventJson| spec_flatten_event(ev),
            ).push(spec_flatten_event(span.events@[e as int])));
        }
        e = e + 1;
    }
    proof {
        assert(span.events@.take(span.events@.len() as int) =~= span.events@);
    }
    let trace_id = match decode_id_to_hex(&span.trace_id) {
        Some(h) => h,
        None => String::from_str("?"),
    };
    let span_id = match decode_id_to_hex(&span.span_id) {
        Some(h) => h,
        None => String::from_str("?"),
    };
    let parent_span_id = match &span.parent_span_id {
        Some(p) => decode_id_to_hex(p),
        None => None,
    };
    let start_nanos = match parse_nanos(&span.start_time_unix_nano) {
        Some(n) => n,
        None => 0,
    };
    let end_nanos = match &span.end_time_unix_nano {
        Some(t) => parse_nanos(t),
        None => None,
    };
    let status_code = match &span.status {
        Some(st) => status_code_label(st.code.as_ref()),
        None => status_code_label(None),
    };
    let status_message = match &span.status {
        Some(st) => clone_opt_string(&st.message),
        None => None,
    };
    let r = FlatSpan {
        service_name: clone_opt_string(service_name),
        scope_name: scope_name.clone(),
        trace_id,
        span_id,
        parent_span_id,
        name: span.name.clone(),
        kind: span_kind_label(span.kind.as_ref()),
        start_nanos,
        end_nanos,
        attributes: format_attributes(span.attributes.as_slice()),
        status_code,
        status_message,
        events,
    };
    proof {
        assert(r@.events =~= spec_flat_span(opt_str_view(*service_name), scope_name@, *span).events);
    }
    r
}

/// Walks the full nested resourceSpans → scopeSpans → spans structure
/// and produces one flat, fully-normalized list — resource/scope
/// context attached to each span rather than left implicit in nesting.
pub fn flatten(doc: &ExportTraceServiceRequest) -> (r: Vec<FlatSpan>)
    ensures
        spans_view(r@) == spec_flatten(*doc),
{
    let mut out: Vec<FlatSpan> = Vec::new();
    let mut i: usize = 0;
    while i < doc.resource_spans.len()
        invariant
            i <= doc.resource_spans@.len(),
            spans_view(out@) == spec_flatten_resources(doc.resource_spans@.take(i as int)),
        decreases doc.resource_spans.len() - i,
    {
        let rs = &doc.resource_spans[i];
        let service_name = service_name_of(&rs.resource);
        let ghost before = spans_view(out@);
        let mut j: usize = 0;
        while j < rs.scope_spans.len()
            invariant
                j <= rs.scope_spans@.len(),
                spans_view(out@) == before + spec_flatten_scopes(
                    opt_str_view(service_name),
                    rs.scope_spans@.take(j as int),
                ),
            decreases rs.scope_spans.len() - j,
        {
            let ss = &rs.scope_spans[j];
            let scope_name = match &ss.scope {
                Some(s) => s.name.clone(),
                None => String::new(),
            };
            let ghost mid = spans_view(out@);
            let mut k: usize = 0;
            while k < ss.spans.len()
                invariant
                    k <= ss.spans@.len(),
                    scope_name@ == scope_name_of(ss.scope),
                    spans_view(out@) == mid + ss.spans@.take(k as int).map_values(
                        |sp: Span| spec_flat_span(opt_str_view(service_name), scope_name@, sp),
                    ),
                decreases ss.spans.len() - k,
            {
                let f = flat_span(&service_name, &scope_name, &ss.spans[k]);
                let ghost old_out = out@;
                out.push(f);
                proof {
                    assert(spans_view(out@) =~= spans_view(old_out).push(f@));
                    assert(ss.spans@.take(k + 1).map_values(
                        |sp: Span| spec_flat_span(opt_str_view(service_name), scope_name@, sp),
                    ) =~= ss.spans@.take(k as int).map_values(
                        |sp: Span| spec_flat_span(opt_str_view(service_name), scope_name@, sp),
                    ).push(spec_flat_span(opt_str_view(service_name), scope_name@, ss.spans@[k as int])));
                    assert(spans_view(out@) =~= mid + ss.spans@.take(k + 1).map_values(
                        |sp: Span| spec_flat_span(opt_str_view(service_name), scope_name@, sp),
                    ));
                }
                k = k + 1;
            }
            proof {
                assert(ss.spans@.take(ss.spans@.len() as int) =~= ss.spans@);
                assert(rs.scope_spans@.take(j + 1).drop_last() =~= rs.scope_spans@.take(j as int));
                assert(spans_view(out@) =~= before + spec_flatten_scopes(
                    opt_str_view(service_name),
                    rs.scope_spans@.take(j + 1),
                ));
            }
            j = j + 1;
        }
        proof {
            assert(rs.scope_spans@.take(rs.scope_spans@.len() as int) =~= rs.scope_spans@);
            assert(doc.resource_spans@.take(i + 1).drop_last() =~= doc.resource_spans@.take(i as int));
            assert(spans_view(out@) =~= spec_flatten_resources(doc.resource_spans@.take(i + 1)));
        }
        i = i + 1;
    }
    proof {
        assert(doc.resource_spans@.take(doc.resource_spans@.len() as int) =~= doc.resource_spans@);
    }
    out
}

// ---------------------------------------------------------------------
// The span forest
// ---------------------------------------------------------------------

pub struct TreeNode<'a> {
    pub span: &'a FlatSpan,
    pub children: Vec<TreeNode<'a>>,
}

/// Whether `s` names a parent id that is not empty and is the id of some
/// span of `spans`.
pub open spec fn has_parent_in(spans: Seq<FlatSpan>, s: FlatSpan) -> bool {
    match s.parent_span_id {
        Some(p) => p@.len() > 0 && exists|j: int| 0 <= j < spans.len() && #[trigger] spans[j].span_id@ == p@,
        None => false,
    }
}

/// Whether `s` hangs under `parent` (`None`: at the top) among `spans`:
/// at the top go the spans whose parent id is absent, empty, or not among
/// `spans`; under a non-empty id go the spans that name it as parent.
pub open spec fn is_child_of(spans: Seq<FlatSpan>, s: FlatSpan, parent: Option<Seq<char>>) -> bool {
    match parent {
        None => !has_parent_in(spans, s),
        Some(pid) => match s.parent_span_id {
            Some(p) => p@ == pid && pid.len() > 0,
            None => false,
        },
    }
}

/// The spans of `cands` that hang under `parent` among `spans`, in order.
pub open spec fn select_children(spans: Seq<FlatSpan>, cands: Seq<FlatSpan>, parent: Option<Seq<char>>) -> Seq<FlatSpan>
    decreases cands.len(),
{
    if cands.len() == 0 {
        Seq::empty()
    } else {
        let rest = select_children(spans, cands.drop_last(), parent);
        if is_child_of(spans, cands.last(), parent) {
            rest.push(cands.last())
        } else {
            rest
        }
    }
}

/// The spans that hang under `parent`, in order.
pub open spec fn children_spans(spans: Seq<FlatSpan>, parent: Option<Seq<char>>) -> Seq<FlatSpan> {
    select_children(spans, spans, parent)
}

/// Descending from `parent` through child links ends within `fuel` levels.
pub open spec fn tree_finite(spans: Seq<FlatSpan>, parent: Option<Seq<char>>, fuel: nat) -> bool
    decreases fuel, 0nat,
{
    fuel > 0 && all_finite(spans, children_spans(spans, parent), (fuel - 1) as nat)
}

/// Descending from each of `cs` ends within `fuel` levels.
pub open spec fn all_finite(spans: Seq<FlatSpan>, cs: Seq<FlatSpan>, fuel: nat) -> bool
    decreases fuel, cs.len(),
{
    cs.len() == 0 || (all_finite(spans, cs.drop_last(), fuel) && tree_finite(
        spans,
        Some(cs.last().span_id@),
        fuel,
    ))
}

/// `nodes` are the spans under `parent`, in order, each with its own
/// children below it, down to the bottom (within `fuel` levels).
pub open spec fn forest_matches(nodes: Seq<TreeNode>, spans: Seq<FlatSpan>, parent: Option<Seq<char>>, fuel: nat) -> bool
    decreases fuel, 0nat,
{
    fuel > 0 && nodes_match(nodes, children_spans(spans, parent), spans, (fuel - 1) as nat)
}

/// `nodes` are the spans `cs`, in order, each with its own children
/// below it (within `fuel` levels).
pub open spec fn nodes_match(nodes: Seq<TreeNode>, cs: Seq<FlatSpan>, spans: Seq<FlatSpan>, fuel: nat) -> bool
    decreases fuel, cs.len(),
{
    &&& nodes.len() == cs.len()
    &&& (cs.len() == 0 || {
        &&& nodes_match(nodes.drop_last(), cs.drop_last(), spans, fuel)
        &&& *nodes.last().span == cs.last()
        &&& forest_matches(nodes.last().children@, spans, Some(cs.last().span_id@), fuel)
    })
}

pub proof fn lemma_all_finite_at(spans: Seq<FlatSpan>, cs: Seq<FlatSpan>, fuel: nat, k: int)
    requires
        all_finite(spans, cs, fuel),
        0 <= k < cs.len(),
    ensures
        tree_finite(spans, Some(cs[k].span_id@), fuel),
    decreases cs.len(),
{
    if k < cs.len() - 1 {
        lemma_all_finite_at(spans, cs.drop_last(), fuel, k);
    }
}

/// The spans at the given indices.
pub open spec fn pick(spans: Seq<FlatSpan>, members: Seq<usize>) -> Seq<FlatSpan> {
    members.map_values(|k: usize| spans[k as int])
}

proof fn lemma_select_children_push(spans: Seq<FlatSpan>, cands: Seq<FlatSpan>, parent: Option<Seq<char>>, i: int)
    requires
        0 <= i < cands.len(),
    ensures
        select_children(spans, cands.take(i + 1), parent) == if is_child_of(spans, cands[i], parent) {
            select_children(spans, cands.take(i), parent).push(cands[i])
        } else {
            select_children(spans, cands.take(i), parent)
        },
{
    assert(cands.take(i + 1).drop_last() =~= cands.take(i));
}

/// When `cands[i]` is selected, it sits at position `|select(cands[..i])|`
/// of the full selection.
proof fn lemma_select_children_in(spans: Seq<FlatSpan>, cands: Seq<FlatSpan>, parent: Option<Seq<char>>, i: int)
    requires
        0 <= i < cands.len(),
        is_child_of(spans, cands[i], parent),
    ensures
        select_children(spans, cands.take(i), parent).len() < select_children(spans, cands, parent).len(),
        select_children(spans, cands, parent)[select_children(spans, cands.take(i), parent).len() as int]
            == cands[i],
    decreases cands.len(),
{
    if i == cands.len() - 1 {
        assert(cands.take(i) =~= cands.drop_last());
    } else {
        lemma_select_children_in(spans, cands.drop_last(), parent, i);
        assert(cands.drop_last().take(i) =~= cands.take(i));
    }
}

fn has_parent_in_exec(spans: &[FlatSpan], members: &Vec<usize>, p: &String) -> (r: bool)
    requires
        forall|j: int| 0 <= j < members@.len() ==> members@[j] < spans@.len(),
    ensures
        r == exists|j: int|
            0 <= j < pick(spans@, members@).len() && #[trigger] pick(spans@, members@)[j].span_id@
                == p@,
{
    let ghost ts = pick(spans@, members@);
    let mut j: usize = 0;
    while j < members.len()
        invariant
            j <= members@.len(),
            ts == pick(spans@, members@),
            forall|i: int| 0 <= i < members@.len() ==> members@[i] < spans@.len(),
            forall|i: int| 0 <= i < j ==> ts[i].span_id@ != p@,
        decreases members.len() - j,
    {
        if spans[members[j]].span_id == *p {
            assert(ts[j as int].span_id@ == p@);
            return true;
        }
        j = j + 1;
    }
    false
}

fn is_child_exec(spans: &[FlatSpan], members: &Vec<usize>, s: &FlatSpan, parent: Option<&String>) -> (r: bool)
    requires
        forall|j: int| 0 <= j < members@.len() ==> members@[j] < spans@.len(),
    ensures
        r == is_child_of(pick(spans@, members@), *s, opt_str_view(opt_string(parent))),
{
    match parent {
        None => match &s.parent_span_id {
            None => true,
            Some(p) => p.as_str().is_empty() || !has_parent_in_exec(spans, members, p),
        },
        Some(pid) => match &s.parent_span_id {
            Some(p) => *p == *pid && !pid.as_str().is_empty(),
            None => false,
        },
    }
}

/// The string behind an optional reference.
pub open spec fn opt_string(s: Option<&String>) -> Option<String> {
    match s {
        Some(x) => Some(*x),
        None => None,
    }
}

/// The forest of the member spans under `parent`. Recursion ends when
/// `fuel` runs out, which `tree_finite` rules out.
fn children_of<'a>(
    spans: &'a [FlatSpan],
    members: &Vec<usize>,
    parent: Option<&String>,
    Ghost(fuel): Ghost<nat>,
) -> (r: Vec<TreeNode<'a>>)
    requires
        forall|j: int| 0 <= j < members@.len() ==> members@[j] < spans@.len(),
        tree_finite(pick(spans@, members@), opt_str_view(opt_string(parent)), fuel),
    ensures
        forest_matches(r@, pick(spans@, members@), opt_str_view(opt_string(parent)), fuel),
    decreases fuel,
{
    let ghost ts = pick(spans@, members@);
    let ghost pv = opt_str_view(opt_string(parent));
    let mut out: Vec<TreeNode<'a>> = Vec::new();
    let mut i: usize = 0;
    while i < members.len()
        invariant
            i <= members@.len(),
            ts == pick(spans@, members@),
            pv == opt_str_view(opt_string(parent)),
            forall|j: int| 0 <= j < members@.len() ==> members@[j] < spans@.len(),
            tree_finite(ts, pv, fuel),
            fuel > 0,
            nodes_match(out@, select_children(ts, ts.take(i as int), pv), ts, (fuel - 1) as nat),
        decreases members.len() - i,
    {
        proof {
            lemma_select_children_push(ts, ts, pv, i as int);
        }
        let s: &'a FlatSpan = &spans[members[i]];
        assert(*s == ts[i as int]);
        if is_child_exec(spans, members, s, parent) {
            proof {
                lemma_select_children_in(ts, ts, pv, i as int);
                lemma_all_finite_at(
                    ts,
                    children_spans(ts, pv),
                    (fuel - 1) as nat,
                    select_children(ts, ts.take(i as int), pv).len() as int,
                );
                assert(opt_str_view(opt_string(Some(&s.span_id))) == Some(ts[i as int].span_id@));
            }
            let kids = children_of(spans, members, Some(&s.span_id), Ghost((fuel - 1) as nat));
            let ghost old_out = out@;
            out.push(TreeNode { span: s, children: kids });
            proof {
                let sel = select_children(ts, ts.take(i + 1), pv);
                assert(sel == select_children(ts, ts.take(i as int), pv).push(ts[i as int]));
                assert(out@.drop_last() =~= old_out);
                assert(sel.drop_last() =~= select_children(ts, ts.take(i as int), pv));
            }
        }
        i = i + 1;
    }
    proof {
        assert(ts.take(members@.len() as int) =~= ts);
    }
    out
}

/// `t` inserted into `ids` in front of the first id it sorts before,
/// unless it is there already.
pub open spec fn insert_sorted(ids: Seq<Seq<char>>, t: Seq<char>) -> Seq<Seq<char>>
    decreases ids.len(),
{
    if ids.len() == 0 {
        seq![t]
    } else if ids[0] == t {
        ids
    } else if lex_lt(t, ids[0]) {
        seq![t] + ids
    } else {
        seq![ids[0]] + insert_sorted(ids.drop_first(), t)
    }
}

/// The distinct trace ids of `spans`, in sorted order.
pub open spec fn sorted_trace_ids(spans: Seq<FlatSpan>) -> Seq<Seq<char>>
    decreases spans.len(),
{
    if spans.len() == 0 {
        Seq::empty()
    } else {
        insert_sorted(sorted_trace_ids(spans.drop_last()), spans.last().trace_id@)
    }
}

/// The spans of trace `t`, in order.
pub open spec fn trace_members(spans: Seq<FlatSpan>, t: Seq<char>) -> Seq<FlatSpan>
    decreases spans.len(),
{
    if spans.len() == 0 {
        Seq::empty()
    } else {
        let rest = trace_members(spans.drop_last(), t);
        if spans.last().trace_id@ == t {
            rest.push(spans.last())
        } else {
            rest
        }
    }
}

/// `roots` is the forest of trace `t`: its spans, each under its parent.
pub open spec fn trace_forest(roots: Seq<TreeNode>, spans: Seq<FlatSpan>, t: Seq<char>) -> bool {
    let ts = trace_members(spans, t);
    forest_matches(roots, ts, None, (ts.len() + 1) as nat)
}

/// `groups` are the traces `ids`, in order, each with its forest.
pub open spec fn groups_match(groups: Seq<(String, Vec<TreeNode>)>, spans: Seq<FlatSpan>, ids: Seq<Seq<char>>) -> bool
    decreases ids.len(),
{
    &&& groups.len() == ids.len()
    &&& (ids.len() == 0 || {
        &&& groups_match(groups.drop_last(), spans, ids.drop_last())
        &&& groups.last().0@ == ids.last()
        &&& trace_forest(groups.last().1@, spans, ids.last())
    })
}

/// Within every trace, descending from the roots through child links
/// ends (the tree of each trace is finite).
pub open spec fn forest_finite(spans: Seq<FlatSpan>) -> bool {
    let ids = sorted_trace_ids(spans);
    forall|k: int|
        0 <= k < ids.len() ==> #[trigger] tree_finite(
            trace_members(spans, ids[k]),
            None,
            (trace_members(spans, ids[k]).len() + 1) as nat,
        )
}

proof fn lemma_insert_sorted_skip(ids: Seq<Seq<char>>, t: Seq<char>, p: int)
    requires
        0 <= p <= ids.len(),
        forall|j: int| 0 <= j < p ==> lex_lt(#[trigger] ids[j], t),
    ensures
        insert_sorted(ids, t) == ids.take(p) + insert_sorted(ids.skip(p), t),
    decreases p,
{
    if p == 0 {
        assert(ids.skip(0) =~= ids);
        assert(ids.take(0) =~= Seq::<Seq<char>>::empty());
    } else {
        lemma_lex_irreflexive(t);
        lemma_lex_total(ids[0], t);
        assert(ids[0] != t);
        assert(!lex_lt(t, ids[0]));
        let rest = ids.drop_first();
        assert forall|j: int| 0 <= j < p - 1 implies lex_lt(#[trigger] rest[j], t) by {
            assert(rest[j] == ids[j + 1]);
        }
        lemma_insert_sorted_skip(rest, t, p - 1);
        assert(rest.skip(p - 1) =~= ids.skip(p));
        assert(ids.take(p) =~= seq![ids[0]] + rest.take(p - 1));
    }
}

fn insert_sorted_exec(ids: &mut Vec<String>, t: String)
    ensures
        views(final(ids)@) == insert_sorted(views(old(ids)@), t@),
{
    let ghost v = views(ids@);
    let mut p: usize = 0;
    while p < ids.len() && string_lt(&ids[p], &t)
        invariant
            p <= ids@.len(),
            v == views(ids@),
            forall|j: int| 0 <= j < p ==> lex_lt(#[trigger] v[j], t@),
        decreases ids.len() - p,
    {
        p = p + 1;
    }
    proof {
        lemma_insert_sorted_skip(v, t@, p as int);
    }
    if p < ids.len() && ids[p] == t {
        proof {
            assert(v.skip(p as int)[0] == t@);
            assert(v.take(p as int) + v.skip(p as int) =~= v);
        }
        return;
    }
    proof {
        if p < ids.len() {
            lemma_lex_total(v[p as int], t@);
            assert(v.skip(p as int)[0] == v[p as int]);
        } else {
            assert(v.skip(p as int) =~= Seq::<Seq<char>>::empty());
        }
    }
    let ghost tv = t@;
    ids.insert(p, t);
    proof {
        assert(views(ids@) =~= v.take(p as int) + insert_sorted(v.skip(p as int), tv));
    }
}

/// The distinct trace ids, sorted: each id is inserted in place, since
/// vstd specifies no `sort` or `dedup` for a `Vec<String>`.
fn sorted_trace_ids_exec(spans: &[FlatSpan]) -> (ids: Vec<String>)
    ensures
        views(ids@) == sorted_trace_ids(spans@),
{
    let mut ids: Vec<String> = Vec::new();
    let mut k: usize = 0;
    while k < spans.len()
        invariant
            k <= spans@.len(),
            views(ids@) == sorted_trace_ids(spans@.take(k as int)),
        decreases spans.len() - k,
    {
        proof {
            assert(spans@.take(k + 1).drop_last() =~= spans@.take(k as int));
        }
        insert_sorted_exec(&mut ids, spans[k].trace_id.clone());
        k = k + 1;
    }
    proof {
        assert(spans@.take(spans@.len() as int) =~= spans@);
    }
    ids
}

/// The indices of the spans of trace `t`, in order.
fn trace_member_indices(spans: &[FlatSpan], t: &String) -> (members: Vec<usize>)
    ensures
        forall|j: int| 0 <= j < members@.len() ==> members@[j] < spans@.len(),
        pick(spans@, members@) == trace_members(spans@, t@),
{
    let mut members: Vec<usize> = Vec::new();
    let mut k: usize = 0;
    while k < spans.len()
        invariant
            k <= spans@.len(),
            forall|j: int| 0 <= j < members@.len() ==> members@[j] < spans@.len(),
            pick(spans@, members@) == trace_members(spans@.take(k as int), t@),
        decreases spans.len() - k,
    {
        proof {
            assert(spans@.take(k + 1).drop_last() =~= spans@.take(k as int));
        }
        if spans[k].trace_id == *t {
            members.push(k);
            proof {
                assert(pick(spans@, members@) =~= trace_members(spans@.take(k + 1), t@));
            }
        }
        k = k + 1;
    }
    proof {
        assert(spans@.take(spans@.len() as int) =~= spans@);
    }
    members
}

/// The roots of one trace, given by the indices of its spans, each with
/// its children below it.
pub fn build_tree_for_trace<'a>(spans: &'a [FlatSpan], members: &Vec<usize>) -> (r: Vec<TreeNode<'a>>)
    requires
        forall|j: int| 0 <= j < members@.len() ==> members@[j] < spans@.len(),
        tree_finite(pick(spans@, members@), None, (members@.len() + 1) as nat),
    ensures
        forest_matches(r@, pick(spans@, members@), None, (members@.len() + 1) as nat),
{
    assert(opt_str_view(opt_string(None)) == None::<Seq<char>>);
    children_of(spans, members, None, Ghost((members.len() + 1) as nat))
}

/// Groups flat spans by trace id, then within each trace links each
/// span under its parent by span id. A span whose parent id is absent,
/// empty, or not found among the spans of its trace (e.g. the parent
/// lives in a different service's export) becomes a root — a normal
/// case for a single-service capture of a distributed trace, not an
/// error. Traces come in sorted order of their ids.
pub fn build_forest(spans: &[FlatSpan]) -> (r: Vec<(String, Vec<TreeNode<'_>>)>)
    requires
        forest_finite(spans@),
    ensures
        groups_match(r@, spans@, sorted_trace_ids(spans@)),
{
    let ids = sorted_trace_ids_exec(spans);
    let ghost all_ids = sorted_trace_ids(spans@);
    let mut out: Vec<(String, Vec<TreeNode<'_>>)> = Vec::new();
    let mut i: usize = 0;
    while i < ids.len()
        invariant
            i <= ids@.len(),
            views(ids@) == all_ids,
            all_ids == sorted_trace_ids(spans@),
            forest_finite(spans@),
            groups_match(out@, spans@, all_ids.take(i as int)),
        decreases ids.len() - i,
    {
        let t = &ids[i];
        assert(t@ == all_ids[i as int]);
        let members = trace_member_indices(spans, t);
        proof {
            let ts = trace_members(spans@, t@);
            assert(tree_finite(ts, None, (ts.len() + 1) as nat));
            assert(opt_str_view(opt_string(None)) == None::<Seq<char>>);
        }
        let roots = build_tree_for_trace(spans, &members);
        proof {
            assert(trace_forest(roots@, spans@, t@));
        }
        let ghost old_out = out@;
        let tc = t.clone();
        out.push((tc, roots));
        proof {
            assert(out@.drop_last() =~= old_out);
            assert(all_ids.take(i + 1).drop_last() =~= all_ids.take(i as int));
        }
        i = i + 1;
    }
    proof {
        assert(all_ids.take(all_ids.len() as int) =~= all_ids);
    }
    out
}

// ---------------------------------------------------------------------
// Rendering
// ---------------------------------------------------------------------

pub open spec fn connector(is_last: bool) -> Seq<char> {
    if is_last {
        "└─ "@
    } else {
        "├─ "@
    }
}

/// The prefix of the lines below a span.
pub open spec fn child_prefix(prefix: Seq<char>, is_last: bool) -> Seq<char> {
    prefix + if is_last {
        "   "@
    } else {
        "│  "@
    }
}

pub open spec fn duration_text(s: FlatSpanView) -> Seq<char> {
    match spec_duration_nanos(s.start_nanos, s.end_nanos) {
        Some(d) => spec_format_duration_nanos(d as nat),
        None => "unfinished"@,
    }
}

pub open spec fn service_text(service: Option<Seq<char>>) -> Seq<char> {
    match service {
        Some(n) => n,
        None => "-"@,
    }
}

/// `key=value` for each attribute.
pub open spec fn kv_texts(attrs: Seq<(Seq<char>, Seq<char>)>) -> Seq<Seq<char>> {
    attrs.map_values(|p: (Seq<char>, Seq<char>)| p.0 + "="@ + p.1)
}

/// `name [KIND] service=... (duration)`.
pub open spec fn heading_line(s: FlatSpanView, prefix: Seq<char>, is_last: bool) -> Seq<char> {
    prefix + connector(is_last) + s.name + " ["@ + s.kind + "] service="@ + service_text(
        s.service_name,
    ) + " ("@ + duration_text(s) + ")\n"@
}

/// `STATUS=ERROR[: message]` for a span whose status is ERROR.
pub open spec fn status_line(s: FlatSpanView, cp: Seq<char>) -> Seq<char> {
    if s.status_code == "ERROR"@ {
        cp + "STATUS=ERROR"@ + match s.status_message {
            Some(m) => ": "@ + m,
            None => Seq::empty(),
        } + "\n"@
    } else {
        Seq::empty()
    }
}

/// `attrs: k=v, ...` for a span with attributes.
pub open spec fn attrs_line(s: FlatSpanView, cp: Seq<char>) -> Seq<char> {
    if s.attributes.len() > 0 {
        cp + "attrs: "@ + join(kv_texts(s.attributes), ", "@) + "\n"@
    } else {
        Seq::empty()
    }
}

/// The event's time from the span's start, or `?` without a time.
pub open spec fn event_offset_text(e: FlatEventView, start: u64) -> Seq<char> {
    match e.time_nanos {
        Some(t) => spec_format_duration_nanos((if t >= start { t - start } else { 0 }) as nat),
        None => "?"@,
    }
}

/// `event +offset name[  k=v, ...]`.
pub open spec fn event_line(e: FlatEventView, start: u64, cp: Seq<char>) -> Seq<char> {
    cp + "event +"@ + event_offset_text(e, start) + " "@ + e.name + if e.attributes.len() == 0 {
        Seq::<char>::empty()
    } else {
        "  "@ + join(kv_texts(e.attributes), ", "@)
    } + "\n"@
}

pub open spec fn events_lines(events: Seq<FlatEventView>, start: u64, cp: Seq<char>) -> Seq<char>
    decreases events.len(),
{
    if events.len() == 0 {
        Seq::empty()
    } else {
        events_lines(events.drop_last(), start, cp) + event_line(events.last(), start, cp)
    }
}

/// The lines of one span, without those of its children.
pub open spec fn span_block(s: FlatSpanView, prefix: Seq<char>, is_last: bool) -> Seq<char> {
    let cp = child_prefix(prefix, is_last);
    heading_line(s, prefix, is_last) + status_line(s, cp) + attrs_line(s, cp) + events_lines(
        s.events,
        s.start_nanos,
        cp,
    )
}

/// A node's lines and, below them, its children's.
pub open spec fn render_tree_node(node: TreeNode, prefix: Seq<char>, is_last: bool) -> Seq<char>
    decreases node,
{
    span_block(node.span@, prefix, is_last) + render_tree_nodes(
        node.children@,
        child_prefix(prefix, is_last),
    )
}

/// Sibling nodes: all but the last drawn as continuing.
pub open spec fn render_tree_nodes(nodes: Seq<TreeNode>, prefix: Seq<char>) -> Seq<char>
    decreases nodes,
{
    if nodes.len() == 0 {
        Seq::empty()
    } else {
        render_tree_nodes_nonlast(nodes.drop_last(), prefix) + render_tree_node(
            nodes.last(),
            prefix,
            true,
        )
    }
}

pub open spec fn render_tree_nodes_nonlast(nodes: Seq<TreeNode>, prefix: Seq<char>) -> Seq<char>
    decreases nodes,
{
    if nodes.len() == 0 {
        Seq::empty()
    } else {
        render_tree_nodes_nonlast(nodes.drop_last(), prefix) + render_tree_node(
            nodes.last(),
            prefix,
            false,
        )
    }
}

/// The lines of span `s` and, below them (within `fuel` levels), of the
/// spans under it.
pub open spec fn render_span(spans: Seq<FlatSpan>, s: FlatSpan, prefix: Seq<char>, is_last: bool, fuel: nat) -> Seq<char>
    decreases fuel, 0nat,
{
    span_block(s@, prefix, is_last) + if fuel == 0 {
        Seq::<char>::empty()
    } else {
        render_span_list(
            spans,
            children_spans(spans, Some(s.span_id@)),
            child_prefix(prefix, is_last),
            (fuel - 1) as nat,
        )
    }
}

pub open spec fn render_span_list(spans: Seq<FlatSpan>, cs: Seq<FlatSpan>, prefix: Seq<char>, fuel: nat) -> Seq<char>
    decreases fuel, cs.len(),
{
    if cs.len() == 0 {
        Seq::empty()
    } else {
        render_span_list_nonlast(spans, cs.drop_last(), prefix, fuel) + render_span(
            spans,
            cs.last(),
            prefix,
            true,
            fuel,
        )
    }
}

pub open spec fn render_span_list_nonlast(spans: Seq<FlatSpan>, cs: Seq<FlatSpan>, prefix: Seq<char>, fuel: nat) -> Seq<char>
    decreases fuel, cs.len(),
{
    if cs.len() == 0 {
        Seq::empty()
    } else {
        render_span_list_nonlast(spans, cs.drop_last(), prefix, fuel) + render_span(
            spans,
            cs.last(),
            prefix,
            false,
            fuel,
        )
    }
}

/// One trace: its heading, its forest, and a blank line.
pub open spec fn trace_block(spans: Seq<FlatSpan>, t: Seq<char>) -> Seq<char> {
    let ts = trace_members(spans, t);
    "Trace "@ + t + "\n"@ + render_span_list(ts, children_spans(ts, None), Seq::empty(), ts.len())
        + "\n"@
}

pub open spec fn render_traces(spans: Seq<FlatSpan>, ids: Seq<Seq<char>>) -> Seq<char>
    decreases ids.len(),
{
    if ids.len() == 0 {
        Seq::empty()
    } else {
        render_traces(spans, ids.drop_last()) + trace_block(spans, ids.last())
    }
}

/// Every trace of `spans`, in sorted order of trace id.
pub open spec fn spec_render_trace_tree(spans: Seq<FlatSpan>) -> Seq<char> {
    render_traces(spans, sorted_trace_ids(spans))
}

/// A tree built from spans renders as the spans do.
pub proof fn lemma_render_matches(nodes: Seq<TreeNode>, cs: Seq<FlatSpan>, spans: Seq<FlatSpan>, fuel: nat, prefix: Seq<char>)
    requires
        nodes_match(nodes, cs, spans, fuel),
    ensures
        render_tree_nodes(nodes, prefix) == render_span_list(spans, cs, prefix, fuel),
        render_tree_nodes_nonlast(nodes, prefix) == render_span_list_nonlast(spans, cs, prefix, fuel),
    decreases fuel, cs.len(),
{
    if cs.len() > 0 {
        lemma_render_matches(nodes.drop_last(), cs.drop_last(), spans, fuel, prefix);
        lemma_render_node_matches(nodes.last(), cs.last(), spans, fuel, prefix, true);
        lemma_render_node_matches(nodes.last(), cs.last(), spans, fuel, prefix, false);
    }
}

pub proof fn lemma_render_node_matches(node: TreeNode, s: FlatSpan, spans: Seq<FlatSpan>, fuel: nat, prefix: Seq<char>, is_last: bool)
    requires
        *node.span == s,
        forest_matches(node.children@, spans, Some(s.span_id@), fuel),
    ensures
        render_tree_node(node, prefix, is_last) == render_span(spans, s, prefix, is_last, fuel),
    decreases fuel, 0nat,
{
    lemma_render_matches(
        node.children@,
        children_spans(spans, Some(s.span_id@)),
        spans,
        (fuel - 1) as nat,
        child_prefix(prefix, is_last),
    );
}

pub proof fn lemma_groups_match_at(groups: Seq<(String, Vec<TreeNode>)>, spans: Seq<FlatSpan>, ids: Seq<Seq<char>>, k: int)
    requires
        groups_match(groups, spans, ids),
        0 <= k < ids.len(),
    ensures
        groups.len() == ids.len(),
        groups[k].0@ == ids[k],
        trace_forest(groups[k].1@, spans, ids[k]),
    decreases ids.len(),
{
    if k < ids.len() - 1 {
        lemma_groups_match_at(groups.drop_last(), spans, ids.drop_last(), k);
    }
}

fn push_kv_texts(out: &mut String, attrs: &Vec<(String, String)>)
    ensures
        final(out)@ == old(out)@ + join(kv_texts(attrs_view(attrs@)), ", "@),
{
    let mut parts: Vec<String> = Vec::new();
    let mut i: usize = 0;
    while i < attrs.len()
        invariant
            i <= attrs@.len(),
            views(parts@) == kv_texts(attrs_view(attrs@.take(i as int))),
        decreases attrs.len() - i,
    {
        let mut part = attrs[i].0.clone();
        part.append("=");
        part.append(attrs[i].1.as_str());
        let ghost old_parts = parts@;
        parts.push(part);
        proof {
            assert(views(parts@) =~= views(old_parts).push(part@));
            assert(kv_texts(attrs_view(attrs@.take(i + 1))) =~= kv_texts(attrs_view(attrs@.take(i as int))).push(part@));
        }
        i = i + 1;
    }
    proof {
        assert(attrs@.take(attrs@.len() as int) =~= attrs@);
    }
    let joined = join_strings(&parts, ", ");
    out.append(joined.as_str());
}

fn push_duration_or(out: &mut String, d: Option<u64>, missing: &str)
    ensures
        final(out)@ == old(out)@ + match d {
            Some(n) => spec_format_duration_nanos(n as nat),
            None => missing@,
        },
{
    match d {
        Some(n) => {
            let t = format_duration_nanos(n);
            out.append(t.as_str());
        },
        None => {
            out.append(missing);
        },
    }
}

fn push_heading(out: &mut String, span: &FlatSpan, prefix: &str, is_last: bool)
    ensures
        final(out)@ == old(out)@ + heading_line(span@, prefix@, is_last),
{
    out.append(prefix);
    out.append(if is_last { "└─ " } else { "├─ " });
    out.append(span.name.as_str());
    out.append(" [");
    out.append(span.kind);
    out.append("] service=");
    match &span.service_name {
        Some(svc) => out.append(svc.as_str()),
        None => out.append("-"),
    }
    out.append(" (");
    push_duration_or(out, span.duration_nanos(), "unfinished");
    out.append(")\n");
    assert(final(out)@ =~= old(out)@ + heading_line(span@, prefix@, is_last));
}

fn push_status_line(out: &mut String, span: &FlatSpan, cp: &str)
    ensures
        final(out)@ == old(out)@ + status_line(span@, cp@),
{
    if str_eq(span.status_code, "ERROR") {
        out.append(cp);
        out.append("STATUS=ERROR");
        match &span.status_message {
            Some(m) => {
                out.append(": ");
                out.append(m.as_str());
            },
            None => {},
        }
        out.append("\n");
    }
    assert(final(out)@ =~= old(out)@ + status_line(span@, cp@));
}

fn push_attrs_line(out: &mut String, span: &FlatSpan, cp: &str)
    ensures
        final(out)@ == old(out)@ + attrs_line(span@, cp@),
{
    if span.attributes.len() > 0 {
        out.append(cp);
        out.append("attrs: ");
        push_kv_texts(out, &span.attributes);
        out.append("\n");
    }
    assert(final(out)@ =~= old(out)@ + attrs_line(span@, cp@));
}

fn push_event_line(out: &mut String, ev: &FlatEvent, start: u64, cp: &str)
    ensures
        final(out)@ == old(out)@ + event_line(ev@, start, cp@),
{
    out.append(cp);
    out.append("event +");
    let rel = match ev.time_nanos {
        Some(t) => Some(t.saturating_sub(start)),
        None => None,
    };
    push_duration_or(out, rel, "?");
    out.append(" ");
    out.append(ev.name.as_str());
    if ev.attributes.len() > 0 {
        out.append("  ");
        push_kv_texts(out, &ev.attributes);
    }
    out.append("\n");
    assert(final(out)@ =~= old(out)@ + event_line(ev@, start, cp@));
}

fn push_span_block(out: &mut String, span: &FlatSpan, prefix: &str, is_last: bool) -> (cp: String)
    ensures
        final(out)@ == old(out)@ + span_block(span@, prefix@, is_last),
        cp@ == child_prefix(prefix@, is_last),
{
    let ghost start = out@;
    push_heading(out, span, prefix, is_last);
    let mut cp = String::from_str(prefix);
    cp.append(if is_last { "   " } else { "│  " });
    push_status_line(out, span, cp.as_str());
    push_attrs_line(out, span, cp.as_str());
    let ghost after_attrs = out@;
    let mut e: usize = 0;
    while e < span.events.len()
        invariant
            e <= span.events@.len(),
            out@ == after_attrs + events_lines(
                events_view(span.events@.take(e as int)),
                span.start_nanos,
                cp@,
            ),
        decreases span.events.len() - e,
    {
        let ev = &span.events[e];
        push_event_line(out, ev, span.start_nanos, cp.as_str());
        proof {
            let evs = events_view(span.events@.take(e + 1));
            assert(evs.drop_last() =~= events_view(span.events@.take(e as int)));
            assert(evs.last() == ev@);
        }
        e = e + 1;
    }
    proof {
        assert(span.events@.take(span.events@.len() as int) =~= span.events@);
        assert(out@ =~= start + span_block(span@, prefix@, is_last));
    }
    cp
}

/// Appends a node's lines to `out`: its heading under `prefix`, its
/// status, attributes and events, then its children one level deeper.
pub fn render_node(node: &TreeNode, prefix: &str, is_last: bool, out: &mut String)
    ensures
        final(out)@ == old(out)@ + render_tree_node(*node, prefix@, is_last),
    decreases node,
{
    let ghost start = out@;
    let cp = push_span_block(out, node.span, prefix, is_last);
    let ghost after_block = out@;
    let n = node.children.len();
    let mut i: usize = 0;
    while i < n
        invariant
            n == node.children@.len(),
            i <= n,
            cp@ == child_prefix(prefix@, is_last),
            i < n ==> out@ == after_block + render_tree_nodes_nonlast(
                node.children@.take(i as int),
                cp@,
            ),
            i == n ==> out@ == after_block + render_tree_nodes(node.children@, cp@),
        decreases n - i,
    {
        let ghost cs = node.children@;
        proof {
            assert(decreases_to!(*node => node.children));
            assert(decreases_to!(node.children => node.children@));
            assert(decreases_to!(node.children@ => node.children@[i as int]));
            assert(cs.take(i + 1).drop_last() =~= cs.take(i as int));
            assert(cs.take(i + 1).last() == cs[i as int]);
        }
        render_node(&node.children[i], cp.as_str(), i == n - 1, out);
        proof {
            if i + 1 == n {
                assert(cs.take(i + 1) =~= cs);
            }
        }
        i = i + 1;
    }
    proof {
        if n == 0 {
            assert(render_tree_nodes(node.children@, cp@) =~= Seq::<char>::empty());
        }
        assert(out@ =~= start + render_tree_node(*node, prefix@, is_last));
    }
}

/// Renders every trace in `spans` as a human-readable indented tree:
/// one heading per trace id, spans nested under their parent with
/// `tree`-style box-drawing connectors, duration, status, attributes,
/// and events.
pub fn render_trace_tree(spans: &[FlatSpan]) -> (r: String)
    requires
        forest_finite(spans@),
    ensures
        r@ == spec_render_trace_tree(spans@),
{
    let forest = build_forest(spans);
    let ghost ids = sorted_trace_ids(spans@);
    proof {
        reveal_strlit("");
    }
    let mut out = String::new();
    let mut i: usize = 0;
    proof {
        if ids.len() > 0 {
            lemma_groups_match_at(forest@, spans@, ids, 0);
        } else {
            assert(forest@.len() == 0);
        }
    }
    while i < forest.len()
        invariant
            i <= forest@.len(),
            forest@.len() == ids.len(),
            ids == sorted_trace_ids(spans@),
            groups_match(forest@, spans@, ids),
            out@ == render_traces(spans@, ids.take(i as int)),
        decreases forest.len() - i,
    {
        proof {
            lemma_groups_match_at(forest@, spans@, ids, i as int);
        }
        let ghost t = ids[i as int];
        let ghost ts = trace_members(spans@, t);
        let ghost before = out@;
        let group = &forest[i];
        out.append("Trace ");
        out.append(group.0.as_str());
        out.append("\n");
        let roots = &group.1;
        let n = roots.len();
        proof {
            reveal_strlit("");
        }
        let ghost after_heading = out@;
        let mut k: usize = 0;
        while k < n
            invariant
                n == roots@.len(),
                k <= n,
                ""@ == Seq::<char>::empty(),
                k < n ==> out@ == after_heading + render_tree_nodes_nonlast(
                    roots@.take(k as int),
                    Seq::empty(),
                ),
                k == n ==> out@ == after_heading + render_tree_nodes(roots@, Seq::empty()),
            decreases n - k,
        {
            let ghost cs = roots@;
            proof {
                assert(cs.take(k + 1).drop_last() =~= cs.take(k as int));
                assert(cs.take(k + 1).last() == cs[k as int]);
            }
            render_node(&roots[k], "", k == n - 1, &mut out);
            proof {
                if k + 1 == n {
                    assert(cs.take(k + 1) =~= cs);
                }
            }
            k = k + 1;
        }
        out.append("\n");
        proof {
            if n == 0 {
                assert(render_tree_nodes(roots@, Seq::empty()) =~= Seq::<char>::empty());
            }
            lemma_render_matches(
                roots@,
                children_spans(ts, None),
                ts,
                ts.len(),
                Seq::empty(),
            );
            assert(ids.take(i + 1).drop_last() =~= ids.take(i as int));
            assert(out@ =~= render_traces(spans@, ids.take(i + 1)));
        }
        i = i + 1;
    }
    proof {
        assert(ids.take(ids.len() as int) =~= ids);
    }
    out
}

// ---------------------------------------------------------------------
// Checking that the forest is finite
// ---------------------------------------------------------------------

proof fn lemma_all_finite_push(spans: Seq<FlatSpan>, cs: Seq<FlatSpan>, x: FlatSpan, fuel: nat)
    ensures
        all_finite(spans, cs.push(x), fuel) == (all_finite(spans, cs, fuel) && tree_finite(
            spans,
            Some(x.span_id@),
            fuel,
        )),
{
    assert(cs.push(x).drop_last() =~= cs);
}

/// All spans under `parent` end within `fuel` levels, stated span by span.
proof fn lemma_all_finite_iff(spans: Seq<FlatSpan>, cands: Seq<FlatSpan>, parent: Option<Seq<char>>, fuel: nat)
    ensures
        all_finite(spans, select_children(spans, cands, parent), fuel) <==> forall|j: int|
            0 <= j < cands.len() && is_child_of(spans, cands[j], parent) ==> #[trigger] tree_finite(
                spans,
                Some(cands[j].span_id@),
                fuel,
            ),
    decreases cands.len(),
{
    if cands.len() > 0 {
        let init = cands.drop_last();
        lemma_all_finite_iff(spans, init, parent, fuel);
        let sel = select_children(spans, init, parent);
        if is_child_of(spans, cands.last(), parent) {
            lemma_all_finite_push(spans, sel, cands.last(), fuel);
        }
        assert forall|j: int| 0 <= j < init.len() implies init[j] == cands[j] by {}
        if all_finite(spans, select_children(spans, cands, parent), fuel) {
            assert forall|j: int|
                0 <= j < cands.len() && is_child_of(spans, cands[j], parent) implies #[trigger] tree_finite(
                spans,
                Some(cands[j].span_id@),
                fuel,
            ) by {
                if j < init.len() {
                    assert(init[j] == cands[j]);
                }
            }
        } else {
            if all_finite(spans, sel, fuel) {
                assert(is_child_of(spans, cands.last(), parent));
                assert(!tree_finite(spans, Some(cands[cands.len() - 1].span_id@), fuel));
            } else {
                let j = choose|j: int|
                    0 <= j < init.len() && is_child_of(spans, init[j], parent) && !#[trigger] tree_finite(
                        spans,
                        Some(init[j].span_id@),
                        fuel,
                    );
                assert(init[j] == cands[j]);
                assert(!tree_finite(spans, Some(cands[j].span_id@), fuel));
            }
        }
    }
}

/// `row[i]` tells whether descending from member `i` ends within `level` levels.
pub open spec fn level_row(spans: Seq<FlatSpan>, row: Seq<bool>, level: nat) -> bool {
    &&& row.len() == spans.len()
    &&& forall|i: int|
        0 <= i < spans.len() ==> row[i] == #[trigger] tree_finite(spans, Some(spans[i].span_id@), level)
}

proof fn lemma_tree_finite_unfold(spans: Seq<FlatSpan>, x: Seq<char>, fuel: nat)
    ensures
        tree_finite(spans, Some(x), fuel + 1) <==> forall|j: int|
            0 <= j < spans.len() && is_child_of(spans, spans[j], Some(x)) ==> #[trigger] tree_finite(
                spans,
                Some(spans[j].span_id@),
                fuel,
            ),
{
    lemma_all_finite_iff(spans, spans, Some(x), fuel);
}

/// A row that stays the same from one level to the next stays the same
/// at every later level.
proof fn lemma_level_row_stable(spans: Seq<FlatSpan>, row: Seq<bool>, level: nat, later: nat)
    requires
        level_row(spans, row, level),
        level_row(spans, row, level + 1),
        level <= later,
    ensures
        level_row(spans, row, later),
    decreases later - level,
{
    if later > level + 1 {
        lemma_level_row_stable(spans, row, level, (later - 1) as nat);
        assert forall|i: int| 0 <= i < spans.len() implies row[i] == #[trigger] tree_finite(
            spans,
            Some(spans[i].span_id@),
            later,
        ) by {
            let x = spans[i].span_id@;
            let prev = (later - 1) as nat;
            lemma_tree_finite_unfold(spans, x, prev);
            lemma_tree_finite_unfold(spans, x, level);
            assert(prev + 1 == later);
            assert(row[i] == tree_finite(spans, Some(x), level + 1));
            let a = forall|j: int|
                0 <= j < spans.len() && is_child_of(spans, spans[j], Some(x)) ==> #[trigger] tree_finite(
                    spans,
                    Some(spans[j].span_id@),
                    prev,
                );
            let b = forall|j: int|
                0 <= j < spans.len() && is_child_of(spans, spans[j], Some(x)) ==> #[trigger] tree_finite(
                    spans,
                    Some(spans[j].span_id@),
                    level,
                );
            assert(a == b) by {
                assert forall|j: int|
                    #![trigger tree_finite(spans, Some(spans[j].span_id@), prev)]
                    #![trigger tree_finite(spans, Some(spans[j].span_id@), level)]
                    0 <= j < spans.len() implies tree_finite(
                    spans,
                    Some(spans[j].span_id@),
                    prev,
                ) == tree_finite(spans, Some(spans[j].span_id@), level) by {
                    assert(row[j] == tree_finite(spans, Some(spans[j].span_id@), prev));
                    assert(row[j] == tree_finite(spans, Some(spans[j].span_id@), level));
                }
            }
        }
    }
}

fn next_row(spans: &[FlatSpan], members: &Vec<usize>, row: &Vec<bool>, Ghost(level): Ghost<nat>) -> (next: Vec<bool>)
    requires
        forall|j: int| 0 <= j < members@.len() ==> members@[j] < spans@.len(),
        level_row(pick(spans@, members@), row@, level),
    ensures
        level_row(pick(spans@, members@), next@, level + 1),
{
    let ghost ts = pick(spans@, members@);
    let m = members.len();
    let mut next: Vec<bool> = Vec::new();
    let mut i: usize = 0;
    while i < m
        invariant
            m == members@.len(),
            ts == pick(spans@, members@),
            forall|j: int| 0 <= j < members@.len() ==> members@[j] < spans@.len(),
            level_row(ts, row@, level),
            i <= m,
            next@.len() == i,
            forall|k: int|
                0 <= k < i ==> next@[k] == #[trigger] tree_finite(ts, Some(ts[k].span_id@), level + 1),
        decreases m - i,
    {
        let id = &spans[members[i]].span_id;
        let mut ok = true;
        let mut j: usize = 0;
        while j < m
            invariant
                m == members@.len(),
                ts == pick(spans@, members@),
                forall|q: int| 0 <= q < members@.len() ==> members@[q] < spans@.len(),
                level_row(ts, row@, level),
                j <= m,
                ok == forall|q: int|
                    0 <= q < j && is_child_of(ts, ts[q], Some(id@)) ==> #[trigger] tree_finite(
                        ts,
                        Some(ts[q].span_id@),
                        level,
                    ),
            decreases m - j,
        {
            if is_child_exec(spans, members, &spans[members[j]], Some(id)) && !row[j] {
                proof {
                    assert(!tree_finite(ts, Some(ts[j as int].span_id@), level));
                }
                ok = false;
            }
            proof {
                if ok {
                    assert forall|q: int|
                        0 <= q < j + 1 && is_child_of(ts, ts[q], Some(id@)) implies #[trigger] tree_finite(
                        ts,
                        Some(ts[q].span_id@),
                        level,
                    ) by {
                        if q == j {
                            assert(row@[q] == tree_finite(ts, Some(ts[q].span_id@), level));
                        }
                    }
                }
            }
            j = j + 1;
        }
        proof {
            lemma_tree_finite_unfold(ts, id@, level);
            assert(id@ == ts[i as int].span_id@);
        }
        next.push(ok);
        i = i + 1;
    }
    next
}

/// Whether descending from the roots of the member spans ends within
/// `m + 1` levels (`m` the number of members).
fn trace_is_finite(spans: &[FlatSpan], members: &Vec<usize>) -> (r: bool)
    requires
        forall|j: int| 0 <= j < members@.len() ==> members@[j] < spans@.len(),
    ensures
        r == tree_finite(pick(spans@, members@), None, (members@.len() + 1) as nat),
{
    let ghost ts = pick(spans@, members@);
    let m = members.len();
    let mut row: Vec<bool> = Vec::new();
    let mut i: usize = 0;
    while i < m
        invariant
            m == members@.len(),
            i <= m,
            row@.len() == i,
            forall|k: int| 0 <= k < i ==> !#[trigger] row@[k],
        decreases m - i,
    {
        row.push(false);
        i = i + 1;
    }
    proof {
        assert forall|k: int| 0 <= k < ts.len() implies row@[k] == #[trigger] tree_finite(
            ts,
            Some(ts[k].span_id@),
            0,
        ) by {}
    }
    let mut level: usize = 0;
    let mut stable = false;
    while level < m && !stable
        invariant
            m == members@.len(),
            ts == pick(spans@, members@),
            forall|j: int| 0 <= j < members@.len() ==> members@[j] < spans@.len(),
            level <= m,
            level_row(ts, row@, level as nat),
            stable ==> level_row(ts, row@, (level + 1) as nat),
        decreases m - level + (if stable { 0int } else { 1int }),
    {
        let next = next_row(spans, members, &row, Ghost(level as nat));
        let mut same = true;
        let mut k: usize = 0;
        while k < m
            invariant
                m == members@.len(),
                row@.len() == m,
                next@.len() == m,
                k <= m,
                same == forall|q: int| 0 <= q < k ==> row@[q] == next@[q],
            decreases m - k,
        {
            if row[k] != next[k] {
                same = false;
            }
            k = k + 1;
        }
        if same {
            proof {
                assert(row@ =~= next@);
            }
            stable = true;
        } else {
            row = next;
            level = level + 1;
        }
    }
    proof {
        if stable {
            lemma_level_row_stable(ts, row@, level as nat, m as nat);
        }
        lemma_all_finite_iff(ts, ts, None, m as nat);
    }
    let mut all = true;
    let mut j: usize = 0;
    while j < m
        invariant
            m == members@.len(),
            ts == pick(spans@, members@),
            forall|q: int| 0 <= q < members@.len() ==> members@[q] < spans@.len(),
            level_row(ts, row@, m as nat),
            j <= m,
            all == forall|q: int|
                0 <= q < j && is_child_of(ts, ts[q], None) ==> #[trigger] tree_finite(
                    ts,
                    Some(ts[q].span_id@),
                    m as nat,
                ),
        decreases m - j,
    {
        if is_child_exec(spans, members, &spans[members[j]], None) && !row[j] {
            proof {
                assert(!tree_finite(ts, Some(ts[j as int].span_id@), m as nat));
            }
            all = false;
        }
        proof {
            if all {
                assert forall|q: int|
                    0 <= q < j + 1 && is_child_of(ts, ts[q], None) implies #[trigger] tree_finite(
                    ts,
                    Some(ts[q].span_id@),
                    m as nat,
                ) by {
                    if q == j {
                        assert(row@[q] == tree_finite(ts, Some(ts[q].span_id@), m as nat));
                    }
                }
            }
        }
        j = j + 1;
    }
    proof {
        assert(opt_str_view(opt_string(None)) == None::<Seq<char>>);
    }
    all
}

/// Whether every trace's tree of spans is finite, as `build_forest` and
/// `render_trace_tree` need: false exactly where following child links
/// from the roots of some trace comes back to an id it passed through.
pub fn forest_is_finite(spans: &[FlatSpan]) -> (r: bool)
    ensures
        r == forest_finite(spans@),
{
    let ids = sorted_trace_ids_exec(spans);
    let ghost all_ids = sorted_trace_ids(spans@);
    let mut i: usize = 0;
    while i < ids.len()
        invariant
            views(ids@) == all_ids,
            all_ids == sorted_trace_ids(spans@),
            i <= ids@.len(),
            forall|k: int|
                0 <= k < i ==> #[trigger] tree_finite(
                    trace_members(spans@, all_ids[k]),
                    None,
                    (trace_members(spans@, all_ids[k]).len() + 1) as nat,
                ),
        decreases ids.len() - i,
    {
        let members = trace_member_indices(spans, &ids[i]);
        assert(ids@[i as int]@ == all_ids[i as int]);
        if !trace_is_finite(spans, &members) {
            return false;
        }
        i = i + 1;
    }
    true
}

} // verus!
