//! Properties of the library as a whole, each stated over the spec
//! functions that the operations' contracts use.

use vstd::prelude::*;
use crate::json::{JsonValue, JsonNumber, json_str};
use crate::text::{decimal, digit_char, digits_value, is_digit, unsigned_digits, spec_parse_u64, hex_char, lex_lt, lemma_lex_transitive, lemma_lex_total, lemma_lex_irreflexive};
use crate::otlp::{ExportTraceServiceRequest, ResourceSpans, ScopeSpans};
use crate::render::{
    FlatSpan, is_hex_digit, is_hex_id, ascii_lower, lowercase_ascii, hex_of_bytes,
    spec_decode_id_to_hex, spec_hex_of_decoded, base64_standard_decode, spec_parse_nanos,
    strip_prefix, kind_name_label, kind_code_label, spec_span_kind_label, status_name_label,
    status_code_label_of, spec_status_code_label, spec_flatten, spec_flatten_resources,
    spec_flatten_scopes, spec_flatten_scope, insert_sorted, sorted_trace_ids, trace_members,
    children_spans, select_children, is_child_of, tree_finite, all_finite,
    forest_finite, lemma_all_finite_at, spec_flat_span, groups_match, trace_forest,
};
use crate::render::{
    TreeNode, FlatEventView, FlatSpanView, heading_line, status_line, attrs_line, event_line, events_lines,
    span_block, render_tree_node, render_tree_nodes, render_tree_nodes_nonlast, child_prefix,
};
use crate::render::spec_format_duration_nanos;
use crate::rounding::{
    fixed_text, ten_pow, decimal_units, nearest_double_int, div_round_even, two_pow, sig_shift, double_sig,
    lemma_two_pow_values, lemma_two_pow_add, lemma_two_pow_mono, lemma_floor_log2_below,
};
use crate::text::zero_padded;
use crate::report::{error_trace_spans, trace_has_error, spec_report, unicode_lowercase, Report};
use crate::render::{spec_format_any_value, duration_text, spec_render_trace_tree};
use crate::json::lemma_member_index;

verus! {

// ---------------------------------------------------------------------
// Ids
// ---------------------------------------------------------------------

proof fn lemma_hex_of_bytes(b: Seq<u8>)
    ensures
        hex_of_bytes(b).len() == 2 * b.len(),
        forall|i: int|
            0 <= i < hex_of_bytes(b).len() ==> is_hex_digit(#[trigger] hex_of_bytes(b)[i])
                && ascii_lower(hex_of_bytes(b)[i]) == hex_of_bytes(b)[i],
    decreases b.len(),
{
    if b.len() > 0 {
        lemma_hex_of_bytes(b.drop_last());
        let h = hex_of_bytes(b);
        let init = hex_of_bytes(b.drop_last());
        assert forall|i: int| 0 <= i < h.len() implies is_hex_digit(#[trigger] h[i]) && ascii_lower(
            h[i],
        ) == h[i] by {
            if i < init.len() {
                assert(h[i] == init[i]);
            } else {
                let d: nat = if i == init.len() {
                    (b.last() / 16) as nat
                } else {
                    (b.last() % 16) as nat
                };
                assert(h[i] == hex_char(d));
                assert(d < 16);
            }
        }
    }
}

proof fn lemma_lowercase_hex_id(s: Seq<char>)
    requires
        is_hex_id(s),
    ensures
        is_hex_id(lowercase_ascii(s)),
        lowercase_ascii(lowercase_ascii(s)) == lowercase_ascii(s),
{
    let l = lowercase_ascii(s);
    assert forall|i: int| 0 <= i < l.len() implies is_hex_digit(#[trigger] l[i]) by {
        assert(is_hex_digit(s[i]));
    }
    assert(lowercase_ascii(l) =~= l);
}

/// Ids are always shown as lowercase hexadecimal, two digits per byte:
/// a decoded id is a non-empty, even-length run of lowercase hex digits,
/// and decoding it again gives it back unchanged.
pub proof fn law_decoded_ids_are_stable_lowercase_hex(value: JsonValue, again: JsonValue)
    requires
        spec_decode_id_to_hex(value) is Some,
        json_str(again) == spec_decode_id_to_hex(value),
    ensures
        is_hex_id(spec_decode_id_to_hex(value)->0),
        lowercase_ascii(spec_decode_id_to_hex(value)->0) == spec_decode_id_to_hex(value)->0,
        spec_decode_id_to_hex(again) == spec_decode_id_to_hex(value),
{
    lemma_decoded_is_lowercase_hex(value);
    lemma_lowercase_hex_id(spec_decode_id_to_hex(value)->0);
}

proof fn lemma_decoded_is_lowercase_hex(value: JsonValue)
    requires
        spec_decode_id_to_hex(value) is Some,
    ensures
        is_hex_id(spec_decode_id_to_hex(value)->0),
        lowercase_ascii(spec_decode_id_to_hex(value)->0) == spec_decode_id_to_hex(value)->0,
{
    let h = spec_decode_id_to_hex(value)->0;
    if let JsonValue::String(s) = value {
        if is_hex_id(s@) {
            lemma_lowercase_hex_id(s@);
        } else {
            let b = base64_standard_decode(s@)->0;
            lemma_hex_of_bytes(b);
            assert(h == hex_of_bytes(b));
            assert(lowercase_ascii(h) =~= h);
        }
    }
}

/// The lowercase hex digit of `d` (below 16).
pub open spec fn hex_digit_of(d: u8) -> char {
    if d < 10 {
        ((48 + d) as u32) as char
    } else {
        ((87 + d) as u32) as char
    }
}

proof fn lemma_hex_of_bytes_at(b: Seq<u8>)
    ensures
        hex_of_bytes(b).len() == 2 * b.len(),
        forall|i: int|
            0 <= i < b.len() ==> hex_of_bytes(b)[2 * i] == hex_digit_of((#[trigger] b[i]) / 16)
                && hex_of_bytes(b)[2 * i + 1] == hex_digit_of(b[i] % 16),
    decreases b.len(),
{
    if b.len() > 0 {
        let init = b.drop_last();
        lemma_hex_of_bytes_at(init);
        let h = hex_of_bytes(b);
        assert forall|i: int| 0 <= i < b.len() implies h[2 * i] == hex_digit_of((#[trigger] b[i]) / 16)
            && h[2 * i + 1] == hex_digit_of(b[i] % 16) by {
            if i < init.len() {
                assert(init[i] == b[i]);
                assert(h[2 * i] == hex_of_bytes(init)[2 * i]);
                assert(h[2 * i + 1] == hex_of_bytes(init)[2 * i + 1]);
            } else {
                let x = b.last();
                assert(h[2 * i] == hex_char((x / 16) as nat));
                assert(h[2 * i + 1] == hex_char((x % 16) as nat));
            }
        }
    }
}

/// How an id is read. Anything but a string has no id. A non-empty,
/// even-length string of hex digits is the id itself, with `A`-`F`
/// lowered. Other strings are read as base64 of the raw id bytes: no
/// bytes (or text base64 rejects) give no id, and bytes `b` give two
/// lowercase hex digits per byte, high half first.
#[verifier::spinoff_prover]
pub proof fn law_id_forms(value: JsonValue)
    ensures
        !(value is String) ==> spec_decode_id_to_hex(value) is None,
        value matches JsonValue::String(s) ==> ({
            let t = s@;
            let all_hex = t.len() > 0 && t.len() % 2 == 0 && forall|i: int|
                0 <= i < t.len() ==> ('0' <= #[trigger] t[i] <= '9' || 'a' <= t[i] <= 'f' || 'A' <= t[i] <= 'F');
            &&& all_hex ==> (spec_decode_id_to_hex(value) matches Some(h) && h.len() == t.len() && forall|i: int|
                0 <= i < t.len() ==> #[trigger] h[i] == if 'A' <= t[i] <= 'F' {
                    ((t[i] as u32) + 32) as char
                } else {
                    t[i]
                })
            &&& !all_hex ==> match base64_standard_decode(t) {
                None => spec_decode_id_to_hex(value) is None,
                Some(b) => if b.len() == 0 {
                    spec_decode_id_to_hex(value) is None
                } else {
                    (spec_decode_id_to_hex(value) matches Some(h) && h.len() == 2 * b.len() && forall|i: int|
                        0 <= i < b.len() ==> h[2 * i] == hex_digit_of((#[trigger] b[i]) / 16) && h[2 * i + 1]
                            == hex_digit_of(b[i] % 16))
                },
            }
        }),
{
    if let JsonValue::String(s) = value {
        let t = s@;
        if !is_hex_id(t) {
            if let Some(b) = base64_standard_decode(t) {
                lemma_hex_of_bytes_at(b);
            }
        }
    }
}

// ---------------------------------------------------------------------
// Enum labels
// ---------------------------------------------------------------------

proof fn lemma_strip_prefix_of_concat(p: Seq<char>, x: Seq<char>)
    ensures
        strip_prefix(p + x, p) == x,
{
    assert((p + x).take(p.len() as int) =~= p);
    assert((p + x).skip(p.len() as int) =~= x);
}

proof fn lemma_strip_prefix_short(s: Seq<char>, p: Seq<char>)
    requires
        s.len() < p.len(),
    ensures
        strip_prefix(s, p) == s,
{
}

/// A span kind reads the same by name, by name with its `SPAN_KIND_`
/// prefix, and by numeric code.
pub proof fn law_span_kind_forms_agree(code: u64, bare: JsonValue, prefixed: JsonValue)
    requires
        1 <= code <= 5,
        json_str(bare) == Some(kind_code_label(code)),
        json_str(prefixed) == Some("SPAN_KIND_"@ + kind_code_label(code)),
    ensures
        spec_span_kind_label(Some(bare)) == kind_code_label(code),
        spec_span_kind_label(Some(prefixed)) == kind_code_label(code),
        spec_span_kind_label(Some(JsonValue::Number(JsonNumber::Unsigned(code)))) == kind_code_label(
            code,
        ),
{
    reveal_strlit("SPAN_KIND_");
    reveal_strlit("INTERNAL");
    reveal_strlit("SERVER");
    reveal_strlit("CLIENT");
    reveal_strlit("PRODUCER");
    reveal_strlit("CONSUMER");
    let name = kind_code_label(code);
    lemma_strip_prefix_of_concat("SPAN_KIND_"@, name);
    lemma_strip_prefix_short(name, "SPAN_KIND_"@);
    assert(kind_name_label(name) == name);
}

/// A status code reads the same by name, by name with its
/// `STATUS_CODE_` prefix, and by numeric code.
pub proof fn law_status_code_forms_agree(code: u64, bare: JsonValue, prefixed: JsonValue)
    requires
        1 <= code <= 2,
        json_str(bare) == Some(status_code_label_of(code)),
        json_str(prefixed) == Some("STATUS_CODE_"@ + status_code_label_of(code)),
    ensures
        spec_status_code_label(Some(bare)) == status_code_label_of(code),
        spec_status_code_label(Some(prefixed)) == status_code_label_of(code),
        spec_status_code_label(Some(JsonValue::Number(JsonNumber::Unsigned(code))))
            == status_code_label_of(code),
{
    reveal_strlit("STATUS_CODE_");
    reveal_strlit("OK");
    reveal_strlit("ERROR");
    let name = status_code_label_of(code);
    lemma_strip_prefix_of_concat("STATUS_CODE_"@, name);
    lemma_strip_prefix_short(name, "STATUS_CODE_"@);
    assert(status_name_label(name) == name);
}

// ---------------------------------------------------------------------
// Timestamps
// ---------------------------------------------------------------------

proof fn lemma_decimal_digits(n: nat)
    ensures
        decimal(n).len() > 0,
        forall|i: int| 0 <= i < decimal(n).len() ==> is_digit(#[trigger] decimal(n)[i]),
        digits_value(decimal(n)) == n,
    decreases n,
{
    let k = n % 10;
    assert(digit_char(k) as nat == '0' as nat + k);
    if n < 10 {
        let d = decimal(n);
        assert(d.drop_last() =~= Seq::<char>::empty());
        assert(d.last() == digit_char(k));
        assert(digits_value(d.drop_last()) == 0);
        assert(digits_value(d) == k);
    } else {
        lemma_decimal_digits(n / 10);
        let d = decimal(n);
        let init = decimal(n / 10);
        assert(d.drop_last() =~= init);
        assert(d.last() == digit_char(k));
        assert(digits_value(d) == digits_value(init) * 10 + k);
        assert forall|i: int| 0 <= i < d.len() implies is_digit(#[trigger] d[i]) by {
            if i < init.len() {
                assert(d[i] == init[i]);
            }
        }
    }
}

/// A timestamp reads the same in its string form and as a bare number:
/// parsing the decimal text of `n` gives `n`.
pub proof fn law_nanos_forms_agree(n: u64, text: JsonValue)
    requires
        json_str(text) == Some(decimal(n as nat)),
    ensures
        spec_parse_nanos(text) == Some(n),
        spec_parse_nanos(JsonValue::Number(JsonNumber::Unsigned(n))) == Some(n),
{
    let d = decimal(n as nat);
    lemma_decimal_digits(n as nat);
    assert(is_digit(d[0]));
    assert(unsigned_digits(d) == d);
    assert(spec_parse_u64(d) == Some(n));
}

/// `t` is a decimal number with exactly `d` digits after its point.
pub open spec fn fixed_form(t: Seq<char>, d: nat) -> bool {
    &&& t.len() > d + 1
    &&& t[t.len() - d - 1] == '.'
    &&& forall|i: int| 0 <= i < t.len() && i != t.len() - d - 1 ==> is_digit(#[trigger] t[i])
}

proof fn lemma_decimal_len(n: nat, d: nat)
    requires
        d >= 1,
        n < ten_pow(d),
    ensures
        decimal(n).len() <= d,
    decreases n,
{
    if n >= 10 {
        let e = (d - 1) as nat;
        assert(ten_pow(d) == 10 * ten_pow(e));
        if e == 0 {
            assert(ten_pow(e) == 1);
        }
        assert(n / 10 < ten_pow(e)) by (nonlinear_arith)
            requires
                n < 10 * ten_pow(e),
        ;
        lemma_decimal_len(n / 10, e);
    }
}

proof fn lemma_fixed_form(units: nat, d: nat)
    requires
        d >= 1,
    ensures
        fixed_form(fixed_text(units, d), d),
{
    let p = ten_pow(d);
    lemma_ten_pow_pos(d);
    let ip = decimal(units / p);
    let fr = units % p;
    lemma_decimal_digits(units / p);
    lemma_decimal_digits(fr);
    lemma_decimal_len(fr, d);
    let dz = decimal(fr);
    let z = zero_padded(fr, d);
    assert(z.len() == d);
    assert forall|i: int| 0 <= i < z.len() implies is_digit(#[trigger] z[i]) by {
        if dz.len() < d {
            let pad = (d - dz.len()) as nat;
            if i < pad {
                assert(z[i] == '0');
            } else {
                assert(z[i] == dz[i - pad]);
            }
        }
    }
    let t = fixed_text(units, d);
    assert(t =~= ip + seq!['.'] + z);
    assert forall|i: int| 0 <= i < t.len() && i != t.len() - d - 1 implies is_digit(#[trigger] t[i]) by {
        if i < ip.len() {
            assert(t[i] == ip[i]);
        } else {
            assert(t[i] == z[i - ip.len() - 1]);
        }
    }
}

proof fn lemma_ten_pow_pos(d: nat)
    ensures
        ten_pow(d) >= 1,
    decreases d,
{
    if d > 0 {
        lemma_ten_pow_pos((d - 1) as nat);
    }
}

/// Durations are human-scaled: whole nanoseconds below 1µs; below 1ms
/// microseconds and below 1s milliseconds, each with exactly two
/// decimals; seconds with exactly three decimals otherwise.
pub proof fn law_durations_scale_units(nanos: nat)
    ensures
        nanos < 1_000 ==> spec_format_duration_nanos(nanos) == decimal(nanos) + "ns"@,
        1_000 <= nanos < 1_000_000 ==> {
            let t = spec_format_duration_nanos(nanos);
            &&& t.len() > 2
            &&& t.subrange(t.len() - 2, t.len() as int) == "µs"@
            &&& fixed_form(t.subrange(0, t.len() - 2), 2)
        },
        1_000_000 <= nanos < 1_000_000_000 ==> {
            let t = spec_format_duration_nanos(nanos);
            &&& t.len() > 2
            &&& t.subrange(t.len() - 2, t.len() as int) == "ms"@
            &&& fixed_form(t.subrange(0, t.len() - 2), 2)
        },
        1_000_000_000 <= nanos ==> {
            let t = spec_format_duration_nanos(nanos);
            &&& t.len() > 1
            &&& t.subrange(t.len() - 1, t.len() as int) == "s"@
            &&& fixed_form(t.subrange(0, t.len() - 1), 3)
        },
{
    reveal_strlit("µs");
    reveal_strlit("ms");
    reveal_strlit("s");
    let t = spec_format_duration_nanos(nanos);
    if 1_000 <= nanos < 1_000_000 {
        let f = fixed_text(decimal_units(nanos, 1_000, 2), 2);
        lemma_fixed_form(decimal_units(nanos, 1_000, 2), 2);
        assert(t.subrange(0, t.len() - 2) =~= f);
        assert(t.subrange(t.len() - 2, t.len() as int) =~= "µs"@);
    } else if 1_000_000 <= nanos < 1_000_000_000 {
        let f = fixed_text(decimal_units(nanos, 1_000_000, 2), 2);
        lemma_fixed_form(decimal_units(nanos, 1_000_000, 2), 2);
        assert(t.subrange(0, t.len() - 2) =~= f);
        assert(t.subrange(t.len() - 2, t.len() as int) =~= "ms"@);
    } else if 1_000_000_000 <= nanos {
        let u = decimal_units(nearest_double_int(nanos), 1_000_000_000, 3);
        let f = fixed_text(u, 3);
        lemma_fixed_form(u, 3);
        assert(t.subrange(0, t.len() - 1) =~= f);
        assert(t.subrange(t.len() - 1, t.len() as int) =~= "s"@);
    }
}

/// Rounding to the nearest integer misses by at most half a unit.
proof fn lemma_div_round_even_close(num: nat, den: nat)
    requires
        den > 0,
    ensures
        2 * (div_round_even(num, den) * den - num) <= den,
        2 * (num - div_round_even(num, den) * den) <= den,
{
    let q = num / den;
    let r = num % den;
    assert(num == den * q + r && 0 <= r < den) by (nonlinear_arith)
        requires
            den > 0,
            q == num / den,
            r == num % den,
    ;
    let u = div_round_even(num, den);
    if u == q + 1 {
        assert(u * den == den * q + den) by (nonlinear_arith)
            requires
                u == q + 1,
        ;
    } else {
        assert(u * den == den * q) by (nonlinear_arith)
            requires
                u == q,
        ;
    }
}

/// For a quotient `p / q` in `[1, 1000)`, the binary shift of its double
/// is at least 24 bits.
proof fn lemma_shift_large(p: nat, q: nat)
    requires
        q > 0,
        q <= p,
        p < 1000 * q,
    ensures
        two_pow(sig_shift(p, q)) >= 16777216,
{
    let m = p / q;
    assert(1 <= m < 1000) by (nonlinear_arith)
        requires
            q > 0,
            q <= p,
            p < 1000 * q,
            m == p / q,
    ;
    lemma_two_pow_values();
    lemma_two_pow_add(12, 12);
    lemma_two_pow_mono(10, 12);
    assert(two_pow(10) == 1024) by {
        reveal_with_fuel(two_pow, 11);
    }
    lemma_floor_log2_below(m, 10);
    lemma_two_pow_mono(24, sig_shift(p, q));
}

/// The µs or ms value printed for `p` nanoseconds at `q` nanoseconds per
/// unit (1000 or 1000000), counted in hundredths, is within half a
/// hundredth of `p / q`.
#[verifier::spinoff_prover]
proof fn lemma_hundredths_close(p: nat, q: nat)
    requires
        q == 1_000 || q == 1_000_000,
        q <= p,
        p < 1000 * q,
    ensures
        2 * (decimal_units(p, q, 2) * q - 100 * p) <= q,
        2 * (100 * p - decimal_units(p, q, 2) * q) <= q,
{
    let sh = two_pow(sig_shift(p, q));
    lemma_shift_large(p, q);
    let ps = p * sh;
    let d = double_sig(p, q);
    lemma_div_round_even_close(ps, q);
    assert(ten_pow(2) == 100) by {
        reveal_with_fuel(ten_pow, 3);
    }
    let u = decimal_units(p, q, 2);
    lemma_div_round_even_close(d * 100, sh);
    // a = u*sh - 100 d, b = d q - p sh; (u q - 100 p) sh = a q + 100 b
    let e: int = u * q - 100 * p;
    assert(e * sh == (u * sh - 100 * d) * q + 100 * (d * q - p * sh)) by (nonlinear_arith)
        requires
            e == u * q - 100 * p,
            ps == p * sh,
    ;
    let a: int = u * sh - 100 * d;
    let b: int = d * q - ps;
    assert(2 * a <= sh && -sh <= 2 * a);
    assert(2 * b <= q && -q <= 2 * b);
    assert(2 * (e * sh) <= sh * q + 100 * q && -(sh * q + 100 * q) <= 2 * (e * sh)) by (nonlinear_arith)
        requires
            e * sh == a * q + 100 * b,
            2 * a <= sh,
            -sh <= 2 * a,
            2 * b <= q,
            -q <= 2 * b,
            q > 0,
    ;
    // e is a multiple of 100, as is q / 2: a miss beyond q / 2 would be by
    // at least 100, more than the double's own error allows
    let k: int = if q == 1_000 { 10 * u - p } else { 10_000 * u - p };
    assert(e == 100 * k);
    let h: int = (q / 200) as int;
    assert(q == 200 * h);
    if 2 * e > q {
        assert(k >= h + 1);
        assert(2 * (e * sh) >= (q + 200) * sh) by (nonlinear_arith)
            requires
                e == 100 * k,
                k >= h + 1,
                q == 200 * h,
                sh >= 0,
        ;
        assert(200 * sh > 100 * q);
        assert(false) by (nonlinear_arith)
            requires
                2 * (e * sh) >= (q + 200) * sh,
                2 * (e * sh) <= sh * q + 100 * q,
                200 * sh > 100 * q,
        ;
    }
    if 2 * e < -q {
        assert(k <= -h - 1);
        assert(2 * (e * sh) <= -(q + 200) * sh) by (nonlinear_arith)
            requires
                e == 100 * k,
                k <= -h - 1,
                q == 200 * h,
                sh >= 0,
        ;
        assert(200 * sh > 100 * q);
        assert(false) by (nonlinear_arith)
            requires
                2 * (e * sh) <= -(q + 200) * sh,
                -(sh * q + 100 * q) <= 2 * (e * sh),
                200 * sh > 100 * q,
        ;
    }
}

/// For whole seconds below 2^53 ns, the binary shift of the quotient's
/// double is at least 29 bits.
proof fn lemma_shift_for_seconds(p: nat)
    requires
        1_000_000_000 <= p < 9007199254740992,
    ensures
        two_pow(sig_shift(p, 1_000_000_000)) >= 536870912,
{
    let q: nat = 1_000_000_000;
    let m = p / q;
    assert(1 <= m < 16777216) by (nonlinear_arith)
        requires
            q == 1_000_000_000,
            q <= p,
            p < 9007199254740992,
            m == p / q,
    ;
    lemma_two_pow_values();
    lemma_two_pow_add(12, 12);
    lemma_two_pow_add(24, 5);
    assert(two_pow(5) == 32) by {
        reveal_with_fuel(two_pow, 6);
    }
    lemma_floor_log2_below(m, 24);
    lemma_two_pow_mono(29, sig_shift(p, q));
}

/// The seconds printed for `p` nanoseconds (below 2^53), counted in
/// thousandths, are within half a thousandth of `p / 10^9`.
#[verifier::spinoff_prover]
proof fn lemma_thousandths_close(p: nat)
    requires
        1_000_000_000 <= p < 9007199254740992,
    ensures
        2 * (decimal_units(p, 1_000_000_000, 3) * 1_000_000_000 - 1000 * p) <= 1_000_000_000,
        2 * (1000 * p - decimal_units(p, 1_000_000_000, 3) * 1_000_000_000) <= 1_000_000_000,
{
    let q: nat = 1_000_000_000;
    let sh = two_pow(sig_shift(p, q));
    lemma_shift_for_seconds(p);
    let ps = p * sh;
    let d = double_sig(p, q);
    lemma_div_round_even_close(ps, q);
    assert(ten_pow(3) == 1000) by {
        reveal_with_fuel(ten_pow, 4);
    }
    let u = decimal_units(p, q, 3);
    lemma_div_round_even_close(d * 1000, sh);
    let e: int = u * q - 1000 * p;
    assert(e * sh == (u * sh - 1000 * d) * q + 1000 * (d * q - p * sh)) by (nonlinear_arith)
        requires
            e == u * q - 1000 * p,
            ps == p * sh,
    ;
    let a: int = u * sh - 1000 * d;
    let b: int = d * q - ps;
    assert(2 * a <= sh && -sh <= 2 * a);
    assert(2 * b <= q && -q <= 2 * b);
    assert(2 * (e * sh) <= sh * q + 1000 * q && -(sh * q + 1000 * q) <= 2 * (e * sh)) by (nonlinear_arith)
        requires
            e * sh == a * q + 1000 * b,
            2 * a <= sh,
            -sh <= 2 * a,
            2 * b <= q,
            -q <= 2 * b,
            q > 0,
    ;
    let k: int = 1_000_000 * u - p;
    assert(e == 1000 * k);
    let h: int = 500_000;
    if 2 * e > q {
        assert(k >= h + 1);
        assert(false) by (nonlinear_arith)
            requires
                e == 1000 * k,
                k >= h + 1,
                h == 500_000,
                q == 1_000_000_000,
                2 * (e * sh) <= sh * q + 1000 * q,
                sh >= 536870912,
        ;
    }
    if 2 * e < -q {
        assert(k <= -h - 1);
        assert(false) by (nonlinear_arith)
            requires
                e == 1000 * k,
                k <= -h - 1,
                h == 500_000,
                q == 1_000_000_000,
                -(sh * q + 1000 * q) <= 2 * (e * sh),
                sh >= 536870912,
        ;
    }
}

/// Seconds are rounded to the nearest thousandth, not cut off: for
/// durations from 1s up to 2^53 ns (about 104 days), the printed value
/// `u / 1000` (the text is `u` thousandths with three decimals) lies
/// within half a thousandth of `nanos / 10^9`.
pub proof fn law_seconds_round_to_nearest_thousandth(nanos: nat)
    requires
        1_000_000_000 <= nanos < 9007199254740992,
    ensures
        ({
            let u = decimal_units(nanos, 1_000_000_000, 3);
            &&& spec_format_duration_nanos(nanos) == fixed_text(u, 3) + "s"@
            &&& 2 * (u * 1_000_000_000 - 1000 * nanos) <= 1_000_000_000
            &&& 2 * (1000 * nanos - u * 1_000_000_000) <= 1_000_000_000
        }),
{
    lemma_two_pow_values();
    assert(nearest_double_int(nanos) == nanos);
    lemma_thousandths_close(nanos);
}

/// Microseconds and milliseconds are rounded to the nearest hundredth,
/// not cut off: the printed value `u / 100` (the text is `u` hundredths
/// with two decimals) lies within half a hundredth of `nanos / scale`.
pub proof fn law_durations_round_to_nearest_hundredth(nanos: nat)
    requires
        1_000 <= nanos < 1_000_000_000,
    ensures
        ({
            let scale: nat = if nanos < 1_000_000 { 1_000 } else { 1_000_000 };
            let unit = if nanos < 1_000_000 { "µs"@ } else { "ms"@ };
            let u = decimal_units(nanos, scale, 2);
            &&& spec_format_duration_nanos(nanos) == fixed_text(u, 2) + unit
            &&& 2 * (u * scale - 100 * nanos) <= scale
            &&& 2 * (100 * nanos - u * scale) <= scale
        }),
{
    if nanos < 1_000_000 {
        lemma_hundredths_close(nanos, 1_000);
    } else {
        lemma_hundredths_close(nanos, 1_000_000);
    }
}

/// How a timestamp is read: a plain number as is; a string only when,
/// after an optional leading `+`, it is one or more ASCII digits (so any
/// other character, or nothing but `+`, gives no time); any other JSON
/// value gives no time.
pub proof fn law_timestamp_forms(v: JsonValue)
    ensures
        v matches JsonValue::Number(JsonNumber::Unsigned(n)) ==> spec_parse_nanos(v) == Some(n),
        !(v is String) && !(v matches JsonValue::Number(JsonNumber::Unsigned(_))) ==> spec_parse_nanos(v) is None,
        v matches JsonValue::String(s) ==> ({
            let t = s@;
            (t.len() == 0 || t == seq!['+'] || exists|i: int|
                0 <= i < t.len() && !('0' <= #[trigger] t[i] <= '9') && !(i == 0 && t[i] == '+'))
                ==> spec_parse_nanos(v) is None
        }),
{
    if let JsonValue::String(s) = v {
        let t = s@;
        let d = unsigned_digits(t);
        if t.len() > 0 && t != seq!['+'] {
            if exists|i: int| 0 <= i < t.len() && !('0' <= #[trigger] t[i] <= '9') && !(i == 0 && t[i] == '+') {
                let i = choose|i: int| 0 <= i < t.len() && !('0' <= #[trigger] t[i] <= '9') && !(i == 0 && t[i] == '+');
                if t[0] == '+' {
                    assert(d[i - 1] == t[i]);
                    assert(!is_digit(d[i - 1]));
                } else {
                    assert(d[i] == t[i]);
                    assert(!is_digit(d[i]));
                }
            }
        } else if t == seq!['+'] {
            assert(d.len() == 0);
        }
    }
}

/// A span's duration is its end minus its start, or 0 when the end is
/// before the start; a span without an end has none.
pub proof fn law_duration_saturates(start: u64, end: Option<u64>)
    ensures
        end is None ==> crate::render::spec_duration_nanos(start, end) is None,
        end matches Some(e) ==> crate::render::spec_duration_nanos(start, end) == Some(
            if e >= start { (e - start) as u64 } else { 0u64 },
        ),
{
}

/// The service name is the first `service.name` attribute of the
/// resource, when its value is an object whose first `stringValue` is a
/// string; no resource, or no such attribute, gives none, and later
/// `service.name` attributes are never consulted.
#[verifier::spinoff_prover]
pub proof fn law_service_name(resource: Option<crate::otlp::Resource>, i: int, j: int)
    ensures
        resource is None ==> crate::render::spec_service_name_of(resource) is None,
        resource matches Some(r) ==> ({
            let attrs = r.attributes@;
            &&& (forall|k: int| 0 <= k < attrs.len() ==> (#[trigger] attrs[k]).key@ != "service.name"@)
                ==> crate::render::spec_service_name_of(resource) is None
            &&& (0 <= i < attrs.len() && attrs[i].key@ == "service.name"@ && (forall|k: int|
                0 <= k < i ==> (#[trigger] attrs[k]).key@ != "service.name"@)) ==> (attrs[i].value matches Some(
                JsonValue::Object(ms),
            ) ==> (first_key_at(ms@, "stringValue"@, j) ==> (ms@[j].1 matches JsonValue::String(x)
                ==> crate::render::spec_service_name_of(resource) == Some(x@))))
            &&& (0 <= i < attrs.len() && attrs[i].key@ == "service.name"@ && (forall|k: int|
                0 <= k < i ==> (#[trigger] attrs[k]).key@ != "service.name"@)) ==> (attrs[i].value is None
                ==> crate::render::spec_service_name_of(resource) is None)
        }),
{
    if let Some(r) = resource {
        let attrs = r.attributes@;
        crate::render::lemma_attr_index(attrs, "service.name"@);
        if 0 <= i < attrs.len() && attrs[i].key@ == "service.name"@ && (forall|k: int|
            0 <= k < i ==> (#[trigger] attrs[k]).key@ != "service.name"@) {
            match crate::render::attr_index(attrs, "service.name"@) {
                Some(q) => {
                    if q < i {
                        assert(attrs[q].key@ != "service.name"@);
                    } else if q > i {
                        assert(attrs[i].key@ != "service.name"@);
                    }
                },
                None => {
                    assert(attrs[i].key@ != "service.name"@);
                },
            }
            if let Some(JsonValue::Object(ms)) = attrs[i].value {
                if first_key_at(ms@, "stringValue"@, j) {
                    lemma_first_key(ms@, "stringValue"@, j);
                }
            }
        }
        if let Some(q) = crate::render::attr_index(attrs, "service.name"@) {
            assert(attrs[q].key@ == "service.name"@);
        }
    }
}

/// Attributes are shown one for one, in order: each keeps its key, and
/// its value is the text of its `AnyValue`, or empty where it has none.
pub proof fn law_attributes_one_for_one(attrs: Seq<crate::otlp::KeyValue>)
    ensures
        crate::render::spec_format_attributes(attrs).len() == attrs.len(),
        forall|i: int|
            0 <= i < attrs.len() ==> (#[trigger] crate::render::spec_format_attributes(attrs)[i]).0 == attrs[i].key@
                && (attrs[i].value is None ==> crate::render::spec_format_attributes(attrs)[i].1
                == Seq::<char>::empty()) && (attrs[i].value matches Some(v)
                ==> crate::render::spec_format_attributes(attrs)[i].1 == spec_format_any_value(v)),
{
}

/// The compact JSON text of a plain value: `null`, `true`, `false`, an
/// unsigned integer in decimal, and a string between double quotes with
/// `"` and `\` escaped by a backslash, the usual control characters as
/// `\b \t \n \f \r`, other control characters as `\u00XX`, and every
/// other character as itself.
pub proof fn law_json_text_of_plain_values(v: JsonValue)
    ensures
        v is Null ==> crate::json::json_text(v) == "null"@,
        v matches JsonValue::Bool(b) ==> crate::json::json_text(v) == if b { "true"@ } else { "false"@ },
        v matches JsonValue::Number(JsonNumber::Unsigned(n)) ==> crate::json::json_text(v) == decimal(n as nat),
        v matches JsonValue::String(s) ==> crate::json::json_text(v) == seq!['"'] + concat_lines(
            s@.map_values(|c: char| shown_in_json(c)),
        ) + seq!['"'],
{
    if let JsonValue::String(s) = v {
        lemma_escaped(s@);
    }
}

/// How one character is written inside a JSON string.
pub open spec fn shown_in_json(c: char) -> Seq<char> {
    if c == '"' || c == '\\' {
        seq!['\\', c]
    } else if c == '\u{8}' {
        seq!['\\', 'b']
    } else if c == '\t' {
        seq!['\\', 't']
    } else if c == '\n' {
        seq!['\\', 'n']
    } else if c == '\u{c}' {
        seq!['\\', 'f']
    } else if c == '\r' {
        seq!['\\', 'r']
    } else if (c as u32) < 32 {
        seq!['\\', 'u', '0', '0', if (c as u32) < 16 { '0' } else { '1' }, hex_digit_of(((c as u32) % 16) as u8)]
    } else {
        seq![c]
    }
}

proof fn lemma_escaped(s: Seq<char>)
    ensures
        crate::json::escaped(s) == concat_lines(s.map_values(|c: char| shown_in_json(c))),
    decreases s.len(),
{
    let m = s.map_values(|c: char| shown_in_json(c));
    if s.len() > 0 {
        lemma_escaped(s.drop_last());
        assert(m.drop_last() =~= s.drop_last().map_values(|c: char| shown_in_json(c)));
        let c = s.last();
        if (c as u32) < 32 && c != '\u{8}' && c != '\t' && c != '\n' && c != '\u{c}' && c != '\r' {
            let hi = ((c as u32) / 16) as nat;
            assert(hi == 0 || hi == 1);
            assert(hex_char(hi) == if (c as u32) < 16 { '0' } else { '1' });
        }
        assert(crate::json::escape_char(c) =~= shown_in_json(c));
    } else {
        assert(m =~= Seq::<Seq<char>>::empty());
    }
}

/// Joining puts the separator between consecutive parts and nowhere
/// else: the first part as it is, every later part after one separator.
pub proof fn law_join_separates(parts: Seq<Seq<char>>, sep: Seq<char>)
    ensures
        crate::text::join(parts, sep) == concat_lines(
            Seq::new(parts.len(), |i: int| if i == 0 { parts[0] } else { sep + parts[i] }),
        ),
    decreases parts.len(),
{
    let m = Seq::new(parts.len(), |i: int| if i == 0 { parts[0] } else { sep + parts[i] });
    if parts.len() == 0 {
        assert(m =~= Seq::<Seq<char>>::empty());
    } else if parts.len() == 1 {
        assert(m.drop_last() =~= Seq::<Seq<char>>::empty());
        assert(concat_lines(m.drop_last()) =~= Seq::<char>::empty());
        assert(concat_lines(m) =~= parts[0]);
    } else {
        let init = parts.drop_last();
        law_join_separates(init, sep);
        assert(m.drop_last() =~= Seq::new(init.len(), |i: int| if i == 0 { init[0] } else { sep + init[i] }));
        assert(m.last() == sep + parts.last());
        assert(crate::text::join(parts, sep) =~= crate::text::join(init, sep) + (sep + parts.last()));
    }
}

/// A number in decimal: its digits, most significant first, with no
/// leading zero; reading them back gives the number.
pub proof fn law_decimal_digits(n: nat)
    ensures
        decimal(n).len() > 0,
        n > 0 ==> decimal(n)[0] != '0',
        forall|i: int| 0 <= i < decimal(n).len() ==> '0' <= #[trigger] decimal(n)[i] <= '9',
        decimal(n).last() == ((48 + n % 10) as u32) as char,
        n >= 10 ==> decimal(n).drop_last() == decimal(n / 10),
        digits_value(decimal(n)) == n,
    decreases n,
{
    lemma_decimal_digits(n);
    if n >= 10 {
        law_decimal_digits(n / 10);
        assert(decimal(n)[0] == decimal(n / 10)[0]);
        assert(decimal(n).drop_last() =~= decimal(n / 10));
    }
    assert forall|i: int| 0 <= i < decimal(n).len() implies '0' <= #[trigger] decimal(n)[i] <= '9' by {
        assert(is_digit(decimal(n)[i]));
    }
}

// ---------------------------------------------------------------------
// Flattening
// ---------------------------------------------------------------------

pub open spec fn scopes_span_count(scopes: Seq<ScopeSpans>) -> nat
    decreases scopes.len(),
{
    if scopes.len() == 0 {
        0
    } else {
        scopes_span_count(scopes.drop_last()) + scopes.last().spans@.len()
    }
}

pub open spec fn resources_span_count(resources: Seq<ResourceSpans>) -> nat
    decreases resources.len(),
{
    if resources.len() == 0 {
        0
    } else {
        resources_span_count(resources.drop_last()) + scopes_span_count(
            resources.last().scope_spans@,
        )
    }
}

proof fn lemma_flatten_scopes_len(service: Option<Seq<char>>, scopes: Seq<ScopeSpans>)
    ensures
        spec_flatten_scopes(service, scopes).len() == scopes_span_count(scopes),
    decreases scopes.len(),
{
    if scopes.len() > 0 {
        lemma_flatten_scopes_len(service, scopes.drop_last());
    }
}

proof fn lemma_flatten_resources_len(resources: Seq<ResourceSpans>)
    ensures
        spec_flatten_resources(resources).len() == resources_span_count(resources),
    decreases resources.len(),
{
    if resources.len() > 0 {
        lemma_flatten_resources_len(resources.drop_last());
        let rs = resources.last();
        lemma_flatten_scopes_len(crate::render::spec_service_name_of(rs.resource), rs.scope_spans@);
    }
}

/// Flattening keeps every span of the document: one flat span per span.
pub proof fn law_flatten_keeps_every_span(doc: ExportTraceServiceRequest)
    ensures
        spec_flatten(doc).len() == resources_span_count(doc.resource_spans@),
{
    lemma_flatten_resources_len(doc.resource_spans@);
}

proof fn lemma_scopes_at(service: Option<Seq<char>>, scopes: Seq<ScopeSpans>, b: int, c: int)
    requires
        0 <= b < scopes.len(),
        0 <= c < scopes[b].spans@.len(),
    ensures
        scopes_span_count(scopes.take(b)) + c < spec_flatten_scopes(service, scopes).len(),
        spec_flatten_scopes(service, scopes)[scopes_span_count(scopes.take(b)) + c] == spec_flat_span(
            service,
            crate::render::scope_name_of(scopes[b].scope),
            scopes[b].spans@[c],
        ),
    decreases scopes.len(),
{
    let init = scopes.drop_last();
    lemma_flatten_scopes_len(service, init);
    lemma_flatten_scopes_len(service, scopes);
    if b == scopes.len() - 1 {
        assert(scopes.take(b) =~= init);
    } else {
        lemma_scopes_at(service, init, b, c);
        assert(init.take(b) =~= scopes.take(b));
        assert(init[b] == scopes[b]);
    }
}

proof fn lemma_resources_at(resources: Seq<ResourceSpans>, a: int, b: int, c: int)
    requires
        0 <= a < resources.len(),
        0 <= b < resources[a].scope_spans@.len(),
        0 <= c < resources[a].scope_spans@[b].spans@.len(),
    ensures
        resources_span_count(resources.take(a)) + scopes_span_count(resources[a].scope_spans@.take(b)) + c
            < spec_flatten_resources(resources).len(),
        spec_flatten_resources(resources)[resources_span_count(resources.take(a)) + scopes_span_count(
            resources[a].scope_spans@.take(b),
        ) + c] == spec_flat_span(
            crate::render::spec_service_name_of(resources[a].resource),
            crate::render::scope_name_of(resources[a].scope_spans@[b].scope),
            resources[a].scope_spans@[b].spans@[c],
        ),
    decreases resources.len(),
{
    let init = resources.drop_last();
    lemma_flatten_resources_len(init);
    lemma_flatten_resources_len(resources);
    if a == resources.len() - 1 {
        assert(resources.take(a) =~= init);
        let rs = resources.last();
        lemma_scopes_at(crate::render::spec_service_name_of(rs.resource), rs.scope_spans@, b, c);
    } else {
        lemma_resources_at(init, a, b, c);
        assert(init.take(a) =~= resources.take(a));
        assert(init[a] == resources[a]);
    }
}

/// Flattening keeps document order and normalizes each span where it
/// stands: the `c`th span of the `b`th scope of the `a`th resource comes
/// after every span of the earlier resources and scopes, and is that
/// span normalized with its resource's service name and its scope's name.
pub proof fn law_flatten_in_document_order(doc: ExportTraceServiceRequest, a: int, b: int, c: int)
    requires
        0 <= a < doc.resource_spans@.len(),
        0 <= b < doc.resource_spans@[a].scope_spans@.len(),
        0 <= c < doc.resource_spans@[a].scope_spans@[b].spans@.len(),
    ensures
        ({
            let rs = doc.resource_spans@;
            let k = resources_span_count(rs.take(a)) + scopes_span_count(rs[a].scope_spans@.take(b)) + c;
            &&& k < spec_flatten(doc).len()
            &&& spec_flatten(doc)[k] == spec_flat_span(
                crate::render::spec_service_name_of(rs[a].resource),
                crate::render::scope_name_of(rs[a].scope_spans@[b].scope),
                rs[a].scope_spans@[b].spans@[c],
            )
        }),
{
    lemma_resources_at(doc.resource_spans@, a, b, c);
}

/// An id as shown: `?`, or a non-empty, even-length run of lowercase
/// hex digits.
pub open spec fn shown_as_hex(id: Seq<char>) -> bool {
    id == "?"@ || (is_hex_id(id) && lowercase_ascii(id) == id)
}

/// The ids of a flat span are shown as hex.
pub open spec fn ids_shown_as_hex(r: FlatSpanView) -> bool {
    &&& shown_as_hex(r.trace_id)
    &&& shown_as_hex(r.span_id)
    &&& (r.parent_span_id matches Some(p) ==> is_hex_id(p) && lowercase_ascii(p) == p)
}

proof fn lemma_flat_span_ids(service: Option<Seq<char>>, scope: Seq<char>, span: crate::otlp::Span)
    ensures
        ids_shown_as_hex(spec_flat_span(service, scope, span)),
{
    if spec_decode_id_to_hex(span.trace_id) is Some {
        lemma_decoded_is_lowercase_hex(span.trace_id);
    }
    if spec_decode_id_to_hex(span.span_id) is Some {
        lemma_decoded_is_lowercase_hex(span.span_id);
    }
    if let Some(p) = span.parent_span_id {
        if spec_decode_id_to_hex(p) is Some {
            lemma_decoded_is_lowercase_hex(p);
        }
    }
}

proof fn lemma_all_ids_add(a: Seq<FlatSpanView>, b: Seq<FlatSpanView>)
    requires
        forall|k: int| 0 <= k < a.len() ==> ids_shown_as_hex(#[trigger] a[k]),
        forall|k: int| 0 <= k < b.len() ==> ids_shown_as_hex(#[trigger] b[k]),
    ensures
        forall|k: int| 0 <= k < (a + b).len() ==> ids_shown_as_hex(#[trigger] (a + b)[k]),
{
    assert forall|k: int| 0 <= k < (a + b).len() implies ids_shown_as_hex(#[trigger] (a + b)[k]) by {
        if k < a.len() {
            assert((a + b)[k] == a[k]);
        } else {
            assert((a + b)[k] == b[k - a.len()]);
        }
    }
}

proof fn lemma_scopes_ids(service: Option<Seq<char>>, scopes: Seq<ScopeSpans>)
    ensures
        forall|k: int|
            0 <= k < spec_flatten_scopes(service, scopes).len() ==> ids_shown_as_hex(
                #[trigger] spec_flatten_scopes(service, scopes)[k],
            ),
    decreases scopes.len(),
{
    if scopes.len() > 0 {
        lemma_scopes_ids(service, scopes.drop_last());
        let ss = scopes.last();
        let one = spec_flatten_scope(service, ss);
        assert forall|k: int| 0 <= k < one.len() implies ids_shown_as_hex(#[trigger] one[k]) by {
            lemma_flat_span_ids(service, crate::render::scope_name_of(ss.scope), ss.spans@[k]);
        }
        lemma_all_ids_add(spec_flatten_scopes(service, scopes.drop_last()), one);
    }
}

proof fn lemma_resources_ids(resources: Seq<ResourceSpans>)
    ensures
        forall|k: int|
            0 <= k < spec_flatten_resources(resources).len() ==> ids_shown_as_hex(
                #[trigger] spec_flatten_resources(resources)[k],
            ),
    decreases resources.len(),
{
    if resources.len() > 0 {
        lemma_resources_ids(resources.drop_last());
        let rs = resources.last();
        let service = crate::render::spec_service_name_of(rs.resource);
        lemma_scopes_ids(service, rs.scope_spans@);
        lemma_all_ids_add(
            spec_flatten_resources(resources.drop_last()),
            spec_flatten_scopes(service, rs.scope_spans@),
        );
    }
}

/// Ids are always shown as hex, whichever form they came in: every
/// flattened span's trace and span id is `?` or lowercase hex, and its
/// parent id, where there is one, is lowercase hex.
pub proof fn law_flattened_ids_are_hex(doc: ExportTraceServiceRequest)
    ensures
        forall|k: int| 0 <= k < spec_flatten(doc).len() ==> ids_shown_as_hex(#[trigger] spec_flatten(doc)[k]),
{
    lemma_resources_ids(doc.resource_spans@);
}

// ---------------------------------------------------------------------
// Grouping by trace
// ---------------------------------------------------------------------

pub open spec fn strictly_sorted(ids: Seq<Seq<char>>) -> bool {
    forall|i: int, j: int| 0 <= i < j < ids.len() ==> lex_lt(#[trigger] ids[i], #[trigger] ids[j])
}

#[verifier::spinoff_prover]
proof fn lemma_insert_sorted(ids: Seq<Seq<char>>, t: Seq<char>)
    requires
        strictly_sorted(ids),
    ensures
        strictly_sorted(insert_sorted(ids, t)),
        forall|x: Seq<char>| #[trigger] insert_sorted(ids, t).contains(x) <==> (ids.contains(x) || x == t),
    decreases ids.len(),
{
    let r = insert_sorted(ids, t);
    if ids.len() == 0 {
        assert(r[0] == t);
    } else if ids[0] == t {
        assert(ids.contains(t));
    } else if lex_lt(t, ids[0]) {
        assert forall|i: int, j: int| 0 <= i < j < r.len() implies lex_lt(#[trigger] r[i], #[trigger] r[j]) by {
            if i == 0 {
                assert(r[j] == ids[j - 1]);
                if j - 1 > 0 {
                    lemma_lex_transitive(t, ids[0], ids[j - 1]);
                }
            } else {
                assert(r[i] == ids[i - 1] && r[j] == ids[j - 1]);
            }
        }
        assert forall|x: Seq<char>| #[trigger] r.contains(x) <==> (ids.contains(x) || x == t) by {
            if ids.contains(x) {
                let k = choose|k: int| 0 <= k < ids.len() && ids[k] == x;
                assert(r[k + 1] == x);
            }
            if x == t {
                assert(r[0] == t);
            }
            if r.contains(x) {
                let k = choose|k: int| 0 <= k < r.len() && r[k] == x;
                if k > 0 {
                    assert(ids[k - 1] == x);
                }
            }
        }
    } else {
        let rest = ids.drop_first();
        assert forall|i: int, j: int| 0 <= i < j < rest.len() implies lex_lt(#[trigger] rest[i], #[trigger] rest[j]) by {
            assert(rest[i] == ids[i + 1] && rest[j] == ids[j + 1]);
        }
        lemma_insert_sorted(rest, t);
        let tail = insert_sorted(rest, t);
        lemma_lex_total(ids[0], t);
        assert forall|i: int, j: int| 0 <= i < j < r.len() implies lex_lt(#[trigger] r[i], #[trigger] r[j]) by {
            if i == 0 {
                assert(r[j] == tail[j - 1]);
                assert(tail.contains(tail[j - 1]));
                if tail[j - 1] != t {
                    assert(rest.contains(tail[j - 1]));
                    let k = choose|k: int| 0 <= k < rest.len() && rest[k] == tail[j - 1];
                    assert(ids[k + 1] == rest[k]);
                }
            } else {
                assert(r[i] == tail[i - 1] && r[j] == tail[j - 1]);
            }
        }
        assert forall|x: Seq<char>| #[trigger] r.contains(x) <==> (ids.contains(x) || x == t) by {
            if ids.contains(x) {
                let k = choose|k: int| 0 <= k < ids.len() && ids[k] == x;
                if k == 0 {
                    assert(r[0] == x);
                } else {
                    assert(rest[k - 1] == x);
                    assert(tail.contains(x));
                    let q = choose|q: int| 0 <= q < tail.len() && tail[q] == x;
                    assert(r[q + 1] == x);
                }
            }
            if x == t {
                assert(tail.contains(t));
                let q = choose|q: int| 0 <= q < tail.len() && tail[q] == t;
                assert(r[q + 1] == t);
            }
            if r.contains(x) {
                let k = choose|k: int| 0 <= k < r.len() && r[k] == x;
                if k > 0 {
                    assert(tail[k - 1] == x);
                    assert(tail.contains(x));
                    if x != t {
                        assert(rest.contains(x));
                        let q = choose|q: int| 0 <= q < rest.len() && rest[q] == x;
                        assert(ids[q + 1] == x);
                    }
                } else {
                    assert(ids[0] == x);
                }
            }
        }
    }
}

/// `a` and `b` agree up to `i`, where `a` has the smaller character.
pub open spec fn first_smaller_at(a: Seq<char>, b: Seq<char>, i: int) -> bool {
    0 <= i < a.len() && i < b.len() && a.take(i) == b.take(i) && a[i] < b[i]
}

/// Trace ids are ordered character by character: `a` comes before `b`
/// exactly when `a` is a proper prefix of `b`, or at the first place
/// where they differ `a` has the smaller character.
#[verifier::spinoff_prover]
pub proof fn law_trace_id_order(a: Seq<char>, b: Seq<char>)
    ensures
        lex_lt(a, b) <==> (a.len() < b.len() && a == b.take(a.len() as int)) || exists|i: int|
            #[trigger] first_smaller_at(a, b, i),
    decreases a.len(),
{
    if a.len() == 0 {
        assert(a =~= b.take(0));
    } else if b.len() == 0 {
    } else if a[0] != b[0] {
        if a[0] < b[0] {
            assert(a.take(0) =~= b.take(0));
            assert(first_smaller_at(a, b, 0));
        }
        if exists|i: int| #[trigger] first_smaller_at(a, b, i) {
            let i = choose|i: int| #[trigger] first_smaller_at(a, b, i);
            if i > 0 {
                assert(a.take(i)[0] == b.take(i)[0]);
            }
        }
        if a.len() < b.len() && a == b.take(a.len() as int) {
            assert(a[0] == b.take(a.len() as int)[0]);
        }
    } else {
        let a1 = a.drop_first();
        let b1 = b.drop_first();
        law_trace_id_order(a1, b1);
        // prefixes
        if a.len() < b.len() && a == b.take(a.len() as int) {
            assert(a1 =~= b1.take(a1.len() as int));
        }
        if a1.len() < b1.len() && a1 == b1.take(a1.len() as int) {
            assert forall|k: int| 0 <= k < a.len() implies a[k] == b.take(a.len() as int)[k] by {
                if k > 0 {
                    assert(a[k] == a1[k - 1]);
                    assert(a1[k - 1] == b1.take(a1.len() as int)[k - 1]);
                }
            }
            assert(a =~= b.take(a.len() as int));
        }
        // first difference
        if exists|i: int| #[trigger] first_smaller_at(a, b, i) {
            let i = choose|i: int| #[trigger] first_smaller_at(a, b, i);
            assert(i > 0);
            assert(a1.take(i - 1) =~= a.take(i).drop_first());
            assert(b1.take(i - 1) =~= b.take(i).drop_first());
            assert(first_smaller_at(a1, b1, i - 1));
        }
        if exists|i: int| #[trigger] first_smaller_at(a1, b1, i) {
            let i = choose|i: int| #[trigger] first_smaller_at(a1, b1, i);
            assert(a.take(i + 1) =~= seq![a[0]] + a1.take(i));
            assert(b.take(i + 1) =~= seq![b[0]] + b1.take(i));
            assert(first_smaller_at(a, b, i + 1));
        }
    }
}

/// Traces come in strictly increasing order of trace id, once each, and
/// they are exactly the trace ids of the spans.
pub proof fn law_trace_ids_sorted_and_complete(spans: Seq<FlatSpan>)
    ensures
        strictly_sorted(sorted_trace_ids(spans)),
        forall|x: Seq<char>|
            #[trigger] sorted_trace_ids(spans).contains(x) <==> exists|i: int|
                0 <= i < spans.len() && #[trigger] spans[i].trace_id@ == x,
    decreases spans.len(),
{
    if spans.len() > 0 {
        let init = spans.drop_last();
        law_trace_ids_sorted_and_complete(init);
        lemma_insert_sorted(sorted_trace_ids(init), spans.last().trace_id@);
        assert forall|x: Seq<char>|
            #[trigger] sorted_trace_ids(spans).contains(x) <==> exists|i: int|
                0 <= i < spans.len() && #[trigger] spans[i].trace_id@ == x by {
            if sorted_trace_ids(init).contains(x) {
                let i = choose|i: int| 0 <= i < init.len() && #[trigger] init[i].trace_id@ == x;
                assert(spans[i].trace_id@ == x);
            }
            if exists|i: int| 0 <= i < spans.len() && #[trigger] spans[i].trace_id@ == x {
                let i = choose|i: int| 0 <= i < spans.len() && #[trigger] spans[i].trace_id@ == x;
                if i < init.len() {
                    assert(init[i].trace_id@ == x);
                }
            }
        }
    } else {
        assert(sorted_trace_ids(spans) =~= Seq::<Seq<char>>::empty());
    }
}

proof fn lemma_groups_match_ids(groups: Seq<(String, Vec<TreeNode>)>, spans: Seq<FlatSpan>, ids: Seq<Seq<char>>)
    requires
        groups_match(groups, spans, ids),
    ensures
        groups.len() == ids.len(),
        forall|k: int| 0 <= k < ids.len() ==> (#[trigger] groups[k]).0@ == ids[k] && trace_forest(
            groups[k].1@,
            spans,
            ids[k],
        ),
    decreases ids.len(),
{
    if ids.len() > 0 {
        lemma_groups_match_ids(groups.drop_last(), spans, ids.drop_last());
        assert forall|k: int| 0 <= k < ids.len() implies (#[trigger] groups[k]).0@ == ids[k] && trace_forest(
            groups[k].1@,
            spans,
            ids[k],
        ) by {
            if k < ids.len() - 1 {
                assert(groups.drop_last()[k] == groups[k]);
                assert(ids.drop_last()[k] == ids[k]);
            }
        }
    }
}

/// Some group of `groups` is trace `x`.
pub open spec fn names_a_group(groups: Seq<(String, Vec<TreeNode>)>, x: Seq<char>) -> bool {
    exists|k: int| 0 <= k < groups.len() && #[trigger] groups[k].0@ == x
}

/// Some span of `spans` belongs to trace `x`.
pub open spec fn has_trace_id(spans: Seq<FlatSpan>, x: Seq<char>) -> bool {
    exists|i: int| 0 <= i < spans.len() && #[trigger] spans[i].trace_id@ == x
}

/// The forest groups its trees by trace: one group per trace id of the
/// spans, no other, in strictly increasing order of id, each holding the
/// forest of the spans of that trace. No spans, no groups.
pub proof fn law_forest_groups_by_trace(groups: Seq<(String, Vec<TreeNode>)>, spans: Seq<FlatSpan>)
    requires
        groups_match(groups, spans, sorted_trace_ids(spans)),
    ensures
        forall|i: int, j: int| 0 <= i < j < groups.len() ==> lex_lt(#[trigger] groups[i].0@, #[trigger] groups[j].0@),
        forall|x: Seq<char>| #[trigger] names_a_group(groups, x) <==> has_trace_id(spans, x),
        forall|k: int| 0 <= k < groups.len() ==> trace_forest(#[trigger] groups[k].1@, spans, groups[k].0@),
        spans.len() == 0 ==> groups.len() == 0,
{
    let ids = sorted_trace_ids(spans);
    lemma_groups_match_ids(groups, spans, ids);
    law_trace_ids_sorted_and_complete(spans);
    assert forall|i: int, j: int| 0 <= i < j < groups.len() implies lex_lt(#[trigger] groups[i].0@, #[trigger] groups[j].0@) by {
        assert(lex_lt(ids[i], ids[j]));
    }
    assert forall|x: Seq<char>| #[trigger] names_a_group(groups, x) <==> has_trace_id(spans, x) by {
        if exists|k: int| 0 <= k < groups.len() && #[trigger] groups[k].0@ == x {
            let k = choose|k: int| 0 <= k < groups.len() && #[trigger] groups[k].0@ == x;
            assert(ids[k] == x);
            assert(ids.contains(x));
        }
        if exists|i: int| 0 <= i < spans.len() && #[trigger] spans[i].trace_id@ == x {
            assert(ids.contains(x));
            let k = choose|k: int| 0 <= k < ids.len() && ids[k] == x;
            assert(groups[k].0@ == x);
        }
    }
    assert forall|k: int| 0 <= k < groups.len() implies trace_forest(#[trigger] groups[k].1@, spans, groups[k].0@) by {
        assert(groups[k].0@ == ids[k]);
    }
    if spans.len() == 0 {
        assert(ids =~= Seq::<Seq<char>>::empty());
    }
}

/// The spans grouped under a trace are exactly the spans with that
/// trace id, in order: traces are kept separate.
pub proof fn law_trace_members(spans: Seq<FlatSpan>, t: Seq<char>)
    ensures
        forall|k: int|
            0 <= k < trace_members(spans, t).len() ==> (#[trigger] trace_members(spans, t)[k]).trace_id@
                == t,
        forall|i: int|
            0 <= i < spans.len() && #[trigger] spans[i].trace_id@ == t ==> trace_members(
                spans,
                t,
            ).contains(spans[i]),
    decreases spans.len(),
{
    if spans.len() > 0 {
        let init = spans.drop_last();
        law_trace_members(init, t);
        let ts = trace_members(spans, t);
        let ti = trace_members(init, t);
        assert forall|k: int| 0 <= k < ts.len() implies (#[trigger] ts[k]).trace_id@ == t by {
            if k < ti.len() {
                assert(ts[k] == ti[k]);
            }
        }
        assert forall|i: int|
            0 <= i < spans.len() && #[trigger] spans[i].trace_id@ == t implies ts.contains(spans[i]) by {
            if i < init.len() {
                assert(init[i] == spans[i]);
                assert(ti.contains(spans[i]));
                let q = choose|q: int| 0 <= q < ti.len() && ti[q] == spans[i];
                assert(ts[q] == spans[i]);
            } else {
                assert(ts[ts.len() - 1] == spans[i]);
            }
        }
    }
}

proof fn lemma_selected(spans: Seq<FlatSpan>, cands: Seq<FlatSpan>, parent: Option<Seq<char>>, i: int)
    requires
        0 <= i < cands.len(),
        is_child_of(spans, cands[i], parent),
    ensures
        select_children(spans, cands, parent).contains(cands[i]),
    decreases cands.len(),
{
    if i < cands.len() - 1 {
        let init = cands.drop_last();
        lemma_selected(spans, init, parent, i);
        let si = select_children(spans, init, parent);
        let q = choose|q: int| 0 <= q < si.len() && si[q] == cands[i];
        assert(select_children(spans, cands, parent)[q] == cands[i]);
    } else {
        let sel = select_children(spans, cands, parent);
        assert(sel[sel.len() - 1] == cands[i]);
    }
}

/// A span whose parent id is absent, empty, or not the id of any span of
/// its trace (normal for a single-service capture of a distributed
/// trace), is a root of its trace, not an error.
pub proof fn law_orphans_become_roots(spans: Seq<FlatSpan>, t: Seq<char>, i: int)
    requires
        0 <= i < trace_members(spans, t).len(),
        match trace_members(spans, t)[i].parent_span_id {
            None => true,
            Some(p) => p@.len() == 0 || forall|j: int|
                0 <= j < trace_members(spans, t).len() ==> (#[trigger] trace_members(spans, t)[j]).span_id@
                    != p@,
        },
    ensures
        children_spans(trace_members(spans, t), None).contains(trace_members(spans, t)[i]),
{
    let ts = trace_members(spans, t);
    lemma_selected(ts, ts, None, i);
}

/// Within a trace, a span that names a non-empty parent id hangs under
/// that id: it is among the children listed below every span with that id.
pub proof fn law_spans_hang_under_their_parent(spans: Seq<FlatSpan>, t: Seq<char>, i: int, p: Seq<char>)
    requires
        0 <= i < trace_members(spans, t).len(),
        p.len() > 0,
        trace_members(spans, t)[i].parent_span_id matches Some(q) && q@ == p,
    ensures
        children_spans(trace_members(spans, t), Some(p)).contains(trace_members(spans, t)[i]),
{
    let ts = trace_members(spans, t);
    lemma_selected(ts, ts, Some(p), i);
}

/// Which spans of a trace are listed where: at the top exactly those
/// whose parent id is absent, empty, or the id of no span of the trace;
/// under a non-empty id exactly those naming it as parent; under the
/// empty id none.
pub proof fn law_children_exactly(ts: Seq<FlatSpan>, x: FlatSpan, p: Seq<char>)
    requires
        ts.contains(x),
    ensures
        children_spans(ts, None).contains(x) <==> match x.parent_span_id {
            None => true,
            Some(q) => q@.len() == 0 || forall|j: int| 0 <= j < ts.len() ==> (#[trigger] ts[j]).span_id@ != q@,
        },
        children_spans(ts, Some(p)).contains(x) <==> (p.len() > 0 && (x.parent_span_id matches Some(q) && q@ == p)),
{
    let k = choose|k: int| 0 <= k < ts.len() && ts[k] == x;
    if children_spans(ts, None).contains(x) {
        lemma_selected_from(ts, ts, None, x);
    }
    if is_child_of(ts, x, None) {
        lemma_selected(ts, ts, None, k);
    }
    if children_spans(ts, Some(p)).contains(x) {
        lemma_selected_from(ts, ts, Some(p), x);
    }
    if is_child_of(ts, x, Some(p)) {
        lemma_selected(ts, ts, Some(p), k);
    }
}

proof fn lemma_select_is_filter(spans: Seq<FlatSpan>, cands: Seq<FlatSpan>, parent: Option<Seq<char>>)
    ensures
        select_children(spans, cands, parent) == cands.filter(|s: FlatSpan| is_child_of(spans, s, parent)),
    decreases cands.len(),
{
    reveal_with_fuel(Seq::filter, 2);
    if cands.len() > 0 {
        lemma_select_is_filter(spans, cands.drop_last(), parent);
    }
}

proof fn lemma_members_is_filter(spans: Seq<FlatSpan>, t: Seq<char>)
    ensures
        trace_members(spans, t) == spans.filter(|s: FlatSpan| s.trace_id@ == t),
    decreases spans.len(),
{
    reveal_with_fuel(Seq::filter, 2);
    if spans.len() > 0 {
        lemma_members_is_filter(spans.drop_last(), t);
    }
}

proof fn lemma_errors_is_filter(spans: Seq<FlatSpan>, cands: Seq<FlatSpan>)
    ensures
        error_trace_spans(spans, cands) == cands.filter(|s: FlatSpan| some_error_span(spans, s.trace_id@)),
    decreases cands.len(),
{
    reveal_with_fuel(Seq::filter, 2);
    if cands.len() > 0 {
        lemma_errors_is_filter(spans, cands.drop_last());
        lemma_trace_has_error_iff(spans, cands.last().trace_id@);
    }
}

/// Every selection keeps the spans it keeps in their input order, each
/// once, and drops the others: the spans of a trace, the spans of traces
/// holding an ERROR span, and the children listed under a parent.
pub proof fn law_selections_keep_order(spans: Seq<FlatSpan>, t: Seq<char>, parent: Option<Seq<char>>)
    ensures
        trace_members(spans, t) == spans.filter(|s: FlatSpan| s.trace_id@ == t),
        error_trace_spans(spans, spans) == spans.filter(|s: FlatSpan| some_error_span(spans, s.trace_id@)),
        children_spans(spans, parent) == spans.filter(|s: FlatSpan| is_child_of(spans, s, parent)),
{
    lemma_members_is_filter(spans, t);
    lemma_errors_is_filter(spans, spans);
    lemma_select_is_filter(spans, spans, parent);
}

// ---------------------------------------------------------------------
// Finiteness of the forest
// ---------------------------------------------------------------------

proof fn lemma_all_finite_more_fuel(spans: Seq<FlatSpan>, cs: Seq<FlatSpan>, fuel: nat)
    requires
        all_finite(spans, cs, fuel),
    ensures
        all_finite(spans, cs, fuel + 1),
    decreases fuel, cs.len() + 1,
{
    if cs.len() > 0 {
        lemma_all_finite_more_fuel(spans, cs.drop_last(), fuel);
        law_more_levels_never_hurt(spans, Some(cs.last().span_id@), fuel);
    }
}

/// A tree that ends within some number of levels ends within any larger
/// number: the bound in `forest_finite` only needs to be large enough.
pub proof fn law_more_levels_never_hurt(spans: Seq<FlatSpan>, parent: Option<Seq<char>>, fuel: nat)
    requires
        tree_finite(spans, parent, fuel),
    ensures
        tree_finite(spans, parent, fuel + 1),
    decreases fuel, 0nat,
{
    lemma_all_finite_more_fuel(spans, children_spans(spans, parent), (fuel - 1) as nat);
}

proof fn lemma_no_parents_no_children(spans: Seq<FlatSpan>, cands: Seq<FlatSpan>, x: Seq<char>)
    requires
        forall|i: int| 0 <= i < cands.len() ==> (#[trigger] cands[i]).parent_span_id is None,
    ensures
        select_children(spans, cands, Some(x)).len() == 0,
    decreases cands.len(),
{
    if cands.len() > 0 {
        let init = cands.drop_last();
        assert forall|i: int| 0 <= i < init.len() implies (#[trigger] init[i]).parent_span_id is None by {
            assert(init[i] == cands[i]);
        }
        lemma_no_parents_no_children(spans, init, x);
        assert(cands.last() == cands[cands.len() - 1]);
    }
}

proof fn lemma_leaves_finite(spans: Seq<FlatSpan>, cs: Seq<FlatSpan>, fuel: nat)
    requires
        fuel >= 1,
        forall|i: int| 0 <= i < spans.len() ==> (#[trigger] spans[i]).parent_span_id is None,
    ensures
        all_finite(spans, cs, fuel),
    decreases cs.len(),
{
    if cs.len() > 0 {
        lemma_leaves_finite(spans, cs.drop_last(), fuel);
        let x = cs.last().span_id@;
        lemma_no_parents_no_children(spans, spans, x);
        assert(children_spans(spans, Some(x)) =~= Seq::<FlatSpan>::empty());
        assert(all_finite(spans, children_spans(spans, Some(x)), (fuel - 1) as nat));
        assert(tree_finite(spans, Some(x), fuel));
    }
}

proof fn lemma_trace_members_no_parents(spans: Seq<FlatSpan>, t: Seq<char>)
    requires
        forall|i: int| 0 <= i < spans.len() ==> (#[trigger] spans[i]).parent_span_id is None,
    ensures
        forall|i: int|
            0 <= i < trace_members(spans, t).len() ==> (#[trigger] trace_members(spans, t)[i]).parent_span_id is None,
    decreases spans.len(),
{
    if spans.len() > 0 {
        let init = spans.drop_last();
        assert forall|i: int| 0 <= i < init.len() implies (#[trigger] init[i]).parent_span_id is None by {
            assert(init[i] == spans[i]);
        }
        lemma_trace_members_no_parents(init, t);
        let ts = trace_members(spans, t);
        let ti = trace_members(init, t);
        assert forall|i: int| 0 <= i < ts.len() implies (#[trigger] ts[i]).parent_span_id is None by {
            if i < ti.len() {
                assert(ts[i] == ti[i]);
            } else {
                assert(ts[i] == spans[spans.len() - 1]);
            }
        }
    }
}

/// Spans that name no parent always form a finite forest (every span is
/// a root with no children), so they can always be rendered.
pub proof fn law_spans_without_parents_render(spans: Seq<FlatSpan>)
    requires
        forall|i: int| 0 <= i < spans.len() ==> (#[trigger] spans[i]).parent_span_id is None,
    ensures
        forest_finite(spans),
{
    let ids = sorted_trace_ids(spans);
    assert forall|k: int| 0 <= k < ids.len() implies #[trigger] tree_finite(
        trace_members(spans, ids[k]),
        None,
        (trace_members(spans, ids[k]).len() + 1) as nat,
    ) by {
        let ts = trace_members(spans, ids[k]);
        lemma_trace_members_no_parents(spans, ids[k]);
        if ts.len() == 0 {
            assert(children_spans(ts, None) =~= Seq::<FlatSpan>::empty()) by {
                assert(ts =~= Seq::<FlatSpan>::empty());
            }
        } else {
            lemma_leaves_finite(ts, children_spans(ts, None), ts.len());
        }
    }
}

/// The parent that the `i`th span of a descent `cs` from `parent` hangs
/// under.
pub open spec fn link_parent(parent: Option<Seq<char>>, cs: Seq<FlatSpan>, i: int) -> Option<Seq<char>> {
    if i == 0 {
        parent
    } else {
        Some(cs[i - 1].span_id@)
    }
}

/// `cs` is a descent through child links from `parent`: the first span
/// hangs under `parent`, each next one under the span before it.
pub open spec fn is_descent(spans: Seq<FlatSpan>, parent: Option<Seq<char>>, cs: Seq<FlatSpan>) -> bool {
    forall|i: int|
        0 <= i < cs.len() ==> children_spans(spans, link_parent(parent, cs, i)).contains(#[trigger] cs[i])
}

proof fn lemma_selected_from(spans: Seq<FlatSpan>, cands: Seq<FlatSpan>, parent: Option<Seq<char>>, x: FlatSpan)
    requires
        select_children(spans, cands, parent).contains(x),
    ensures
        cands.contains(x),
        is_child_of(spans, x, parent),
    decreases cands.len(),
{
    let init = cands.drop_last();
    let si = select_children(spans, init, parent);
    let sel = select_children(spans, cands, parent);
    let q = choose|q: int| 0 <= q < sel.len() && sel[q] == x;
    if q < si.len() {
        assert(si[q] == x);
        lemma_selected_from(spans, init, parent, x);
        let k = choose|k: int| 0 <= k < init.len() && init[k] == x;
        assert(cands[k] == x);
    } else {
        assert(cands[cands.len() - 1] == x);
    }
}

/// A descent at least `fuel` long means the tree does not end within
/// `fuel` levels.
proof fn lemma_descent_blocks(spans: Seq<FlatSpan>, parent: Option<Seq<char>>, cs: Seq<FlatSpan>, fuel: nat)
    requires
        is_descent(spans, parent, cs),
        fuel <= cs.len(),
    ensures
        !tree_finite(spans, parent, fuel),
    decreases fuel,
{
    if fuel > 0 {
        let c = cs[0];
        let tail = cs.drop_first();
        assert(link_parent(parent, cs, 0) == parent);
        assert(children_spans(spans, parent).contains(c));
        assert forall|i: int| 0 <= i < tail.len() implies children_spans(
            spans,
            link_parent(Some(c.span_id@), tail, i),
        ).contains(#[trigger] tail[i]) by {
            assert(tail[i] == cs[i + 1]);
            assert(link_parent(Some(c.span_id@), tail, i) == link_parent(parent, cs, i + 1));
        }
        lemma_descent_blocks(spans, Some(c.span_id@), tail, (fuel - 1) as nat);
        if tree_finite(spans, parent, fuel) {
            let ch = children_spans(spans, parent);
            let k = choose|k: int| 0 <= k < ch.len() && ch[k] == c;
            lemma_all_finite_at(spans, ch, (fuel - 1) as nat, k);
        }
    }
}

/// When not every span of `cs` ends within `fuel` levels, one of them
/// does not.
proof fn lemma_all_finite_fails_at(spans: Seq<FlatSpan>, cs: Seq<FlatSpan>, fuel: nat) -> (k: int)
    requires
        !all_finite(spans, cs, fuel),
    ensures
        0 <= k < cs.len(),
        !tree_finite(spans, Some(cs[k].span_id@), fuel),
    decreases cs.len(),
{
    if !tree_finite(spans, Some(cs.last().span_id@), fuel) {
        (cs.len() - 1) as int
    } else {
        let k = lemma_all_finite_fails_at(spans, cs.drop_last(), fuel);
        assert(cs.drop_last()[k] == cs[k]);
        k
    }
}

/// A tree that does not end within `fuel` levels has a descent `fuel`
/// long.
proof fn lemma_descent_of_endless(spans: Seq<FlatSpan>, parent: Option<Seq<char>>, fuel: nat) -> (cs: Seq<FlatSpan>)
    requires
        !tree_finite(spans, parent, fuel),
    ensures
        is_descent(spans, parent, cs),
        cs.len() == fuel,
    decreases fuel,
{
    if fuel == 0 {
        Seq::empty()
    } else {
        let ch = children_spans(spans, parent);
        let k = lemma_all_finite_fails_at(spans, ch, (fuel - 1) as nat);
        let c = ch[k];
        let rest = lemma_descent_of_endless(spans, Some(c.span_id@), (fuel - 1) as nat);
        let cs = seq![c] + rest;
        assert forall|i: int| 0 <= i < cs.len() implies children_spans(
            spans,
            link_parent(parent, cs, i),
        ).contains(#[trigger] cs[i]) by {
            if i == 0 {
                assert(cs[0] == ch[k]);
            } else {
                assert(cs[i] == rest[i - 1]);
                assert(link_parent(parent, cs, i) == link_parent(Some(c.span_id@), rest, i - 1));
            }
        }
        cs
    }
}

/// Repeating the part of a descent after its `i`th span, which has the
/// id of the last span, gives a longer descent.
#[verifier::spinoff_prover]
proof fn lemma_extend_descent(spans: Seq<FlatSpan>, parent: Option<Seq<char>>, cs: Seq<FlatSpan>, i: int)
    requires
        is_descent(spans, parent, cs),
        0 <= i < cs.len() - 1,
        cs[i].span_id@ == cs.last().span_id@,
    ensures
        is_descent(spans, parent, cs + cs.subrange(i + 1, cs.len() as int)),
{
    let n = cs.len() as int;
    let ext = cs + cs.subrange(i + 1, n);
    assert forall|q: int| 0 <= q < ext.len() implies children_spans(
        spans,
        link_parent(parent, ext, q),
    ).contains(#[trigger] ext[q]) by {
        if q < n {
            let c = cs[q];
            assert(children_spans(spans, link_parent(parent, cs, q)).contains(c));
            assert(ext[q] == c);
            if q > 0 {
                assert(ext[q - 1] == cs[q - 1]);
            }
            assert(link_parent(parent, ext, q) == link_parent(parent, cs, q));
        } else {
            let r = q - n;
            let c = cs[i + 1 + r];
            assert(children_spans(spans, link_parent(parent, cs, i + 1 + r)).contains(c));
            assert(link_parent(parent, cs, i + 1 + r) == Some(cs[i + r].span_id@));
            assert(ext[q] == c);
            if r == 0 {
                assert(ext[q - 1] == cs[n - 1]);
            } else {
                assert(ext[q - 1] == cs[i + r]);
            }
            assert(link_parent(parent, ext, q) == Some(cs[i + r].span_id@));
        }
    }
}

/// A descent whose last span has the id of an earlier one goes on for
/// ever: repeating the part after the earlier one makes it as long as
/// wanted.
#[verifier::spinoff_prover]
#[verifier::rlimit(40)]
proof fn lemma_pump(spans: Seq<FlatSpan>, parent: Option<Seq<char>>, cs: Seq<FlatSpan>, i: int, m: nat) -> (long: Seq<FlatSpan>)
    requires
        is_descent(spans, parent, cs),
        0 <= i < cs.len() - 1,
        cs[i].span_id@ == cs.last().span_id@,
    ensures
        is_descent(spans, parent, long),
        long.len() >= m,
    decreases if m > cs.len() { m - cs.len() } else { 0 },
{
    if m <= cs.len() {
        cs
    } else {
        let ext = cs + cs.subrange(i + 1, cs.len() as int);
        lemma_extend_descent(spans, parent, cs, i);
        assert(ext[i] == cs[i]);
        assert(ext.last() == cs.last());
        assert(ext.len() > cs.len());
        lemma_pump(spans, parent, ext, i, m)
    }
}

/// More spans in a descent than in `spans` means some span comes twice.
#[verifier::spinoff_prover]
proof fn lemma_repeat_in_descent(spans: Seq<FlatSpan>, parent: Option<Seq<char>>, cs: Seq<FlatSpan>) -> (ij: (int, int))
    requires
        is_descent(spans, parent, cs),
        cs.len() > spans.len(),
    ensures
        0 <= ij.0 < ij.1 < cs.len(),
        cs[ij.0] == cs[ij.1],
{
    broadcast use vstd::seq_lib::seq_to_set_is_finite;
    assert(cs.to_set().subset_of(spans.to_set())) by {
        assert forall|x: FlatSpan| cs.to_set().contains(x) implies spans.to_set().contains(x) by {
            let q = choose|q: int| 0 <= q < cs.len() && cs[q] == x;
            lemma_selected_from(spans, spans, link_parent(parent, cs, q), cs[q]);
        }
    }
    vstd::set_lib::lemma_len_subset(cs.to_set(), spans.to_set());
    spans.lemma_cardinality_of_set();
    if cs.no_duplicates() {
        cs.unique_seq_to_set();
        assert(false);
    }
    let (a, b) = choose|a: int, b: int| 0 <= a < cs.len() && 0 <= b < cs.len() && a != b && cs[a] == cs[b];
    if a < b {
        (a, b)
    } else {
        (b, a)
    }
}

/// If descending from `parent` ends at all, it ends within one level
/// more than there are spans: a longer descent passes some span twice
/// and from there goes round for ever. So the bound that
/// `forest_finite` allows each trace is never too small.
pub proof fn law_finite_trees_end_within_their_size(spans: Seq<FlatSpan>, parent: Option<Seq<char>>, fuel: nat)
    requires
        tree_finite(spans, parent, fuel),
    ensures
        tree_finite(spans, parent, (spans.len() + 1) as nat),
{
    let bound = (spans.len() + 1) as nat;
    if !tree_finite(spans, parent, bound) {
        let cs = lemma_descent_of_endless(spans, parent, bound);
        let (i, j) = lemma_repeat_in_descent(spans, parent, cs);
        let pre = cs.take(j + 1);
        assert forall|q: int| 0 <= q < pre.len() implies children_spans(
            spans,
            link_parent(parent, pre, q),
        ).contains(#[trigger] pre[q]) by {
            assert(pre[q] == cs[q]);
            if q > 0 {
                assert(pre[q - 1] == cs[q - 1]);
            }
            assert(link_parent(parent, pre, q) == link_parent(parent, cs, q));
        }
        assert(pre[i] == cs[i] && pre.last() == cs[j]);
        let long = lemma_pump(spans, parent, pre, i, fuel);
        lemma_descent_blocks(spans, parent, long, fuel);
    }
}

/// Descending from `parent` ends within some number of levels.
pub open spec fn ends_at_all(spans: Seq<FlatSpan>, parent: Option<Seq<char>>) -> bool {
    exists|fuel: nat| #[trigger] tree_finite(spans, parent, fuel)
}

/// A trace's tree is reported endless exactly when its walk from the
/// roots ends within no number of levels at all.
pub proof fn law_endless_means_no_bound(spans: Seq<FlatSpan>)
    ensures
        forest_finite(spans) <==> forall|k: int|
            0 <= k < sorted_trace_ids(spans).len() ==> #[trigger] ends_at_all(
                trace_members(spans, sorted_trace_ids(spans)[k]),
                None,
            ),
{
    let ids = sorted_trace_ids(spans);
    if forest_finite(spans) {
        assert forall|k: int| 0 <= k < ids.len() implies #[trigger] ends_at_all(
            trace_members(spans, ids[k]),
            None,
        ) by {
            assert(tree_finite(
                trace_members(spans, ids[k]),
                None,
                (trace_members(spans, ids[k]).len() + 1) as nat,
            ));
        }
    }
    if forall|k: int| 0 <= k < ids.len() ==> #[trigger] ends_at_all(trace_members(spans, ids[k]), None) {
        assert forall|k: int| 0 <= k < ids.len() implies #[trigger] tree_finite(
            trace_members(spans, ids[k]),
            None,
            (trace_members(spans, ids[k]).len() + 1) as nat,
        ) by {
            assert(ends_at_all(trace_members(spans, ids[k]), None));
            let fuel = choose|fuel: nat| #[trigger] tree_finite(trace_members(spans, ids[k]), None, fuel);
            law_finite_trees_end_within_their_size(trace_members(spans, ids[k]), None, fuel);
        }
    }
}

/// `child` names the (non-empty) id of `parent` as its parent id.
pub open spec fn names_parent(child: FlatSpan, parent: FlatSpan) -> bool {
    child.parent_span_id matches Some(p) && p@.len() > 0 && p@ == parent.span_id@
}

/// `ps` is a line of spans of `spans`, each naming the one before it as
/// its parent.
pub open spec fn is_parent_line(spans: Seq<FlatSpan>, ps: Seq<FlatSpan>) -> bool {
    &&& forall|i: int| 0 <= i < ps.len() ==> spans.contains(#[trigger] ps[i])
    &&& forall|i: int| 0 <= i < ps.len() - 1 ==> names_parent(#[trigger] ps[i + 1], ps[i])
}

/// Following parent links among `spans` never comes back to a span it
/// has passed.
pub open spec fn links_acyclic(spans: Seq<FlatSpan>) -> bool {
    forall|ps: Seq<FlatSpan>| #[trigger] is_parent_line(spans, ps) ==> ps.no_duplicates()
}

/// No two spans of `spans` share a span id.
pub open spec fn ids_distinct(spans: Seq<FlatSpan>) -> bool {
    forall|i: int, j: int|
        0 <= i < spans.len() && 0 <= j < spans.len() && i != j ==> #[trigger] spans[i].span_id@
            != #[trigger] spans[j].span_id@
}

/// A descent is a line of parent links.
proof fn lemma_descent_is_parent_line(spans: Seq<FlatSpan>, parent: Option<Seq<char>>, cs: Seq<FlatSpan>)
    requires
        is_descent(spans, parent, cs),
    ensures
        is_parent_line(spans, cs),
{
    assert forall|i: int| 0 <= i < cs.len() implies spans.contains(#[trigger] cs[i]) by {
        lemma_selected_from(spans, spans, link_parent(parent, cs, i), cs[i]);
    }
    assert forall|i: int| 0 <= i < cs.len() - 1 implies names_parent(#[trigger] cs[i + 1], cs[i]) by {
        assert(children_spans(spans, link_parent(parent, cs, i + 1)).contains(cs[i + 1]));
        lemma_selected_from(spans, spans, link_parent(parent, cs, i + 1), cs[i + 1]);
    }
}

proof fn lemma_acyclic_tree_finite(spans: Seq<FlatSpan>, parent: Option<Seq<char>>)
    requires
        links_acyclic(spans),
    ensures
        tree_finite(spans, parent, (spans.len() + 1) as nat),
{
    let bound = (spans.len() + 1) as nat;
    if !tree_finite(spans, parent, bound) {
        let cs = lemma_descent_of_endless(spans, parent, bound);
        lemma_descent_is_parent_line(spans, parent, cs);
        assert(cs.no_duplicates());
        let (i, j) = lemma_repeat_in_descent(spans, parent, cs);
        assert(cs[i] == cs[j]);
    }
}

/// When following parent links within each trace never comes back to a
/// span it has passed, every trace's tree ends: the spans can always be
/// rendered.
pub proof fn law_acyclic_links_render(spans: Seq<FlatSpan>)
    requires
        forall|k: int|
            0 <= k < sorted_trace_ids(spans).len() ==> #[trigger] links_acyclic(
                trace_members(spans, sorted_trace_ids(spans)[k]),
            ),
    ensures
        forest_finite(spans),
{
    let ids = sorted_trace_ids(spans);
    assert forall|k: int| 0 <= k < ids.len() implies #[trigger] tree_finite(
        trace_members(spans, ids[k]),
        None,
        (trace_members(spans, ids[k]).len() + 1) as nat,
    ) by {
        assert(links_acyclic(trace_members(spans, ids[k])));
        lemma_acyclic_tree_finite(trace_members(spans, ids[k]), None);
    }
}

proof fn lemma_parent_line_len(spans: Seq<FlatSpan>, ps: Seq<FlatSpan>)
    requires
        links_acyclic(spans),
        is_parent_line(spans, ps),
    ensures
        ps.len() <= spans.len(),
{
    broadcast use vstd::seq_lib::seq_to_set_is_finite;
    assert(ps.no_duplicates());
    ps.unique_seq_to_set();
    assert(ps.to_set().subset_of(spans.to_set())) by {
        assert forall|x: FlatSpan| ps.to_set().contains(x) implies spans.to_set().contains(x) by {
            let q = choose|q: int| 0 <= q < ps.len() && ps[q] == x;
            assert(spans.contains(ps[q]));
        }
    }
    vstd::set_lib::lemma_len_subset(ps.to_set(), spans.to_set());
    spans.lemma_cardinality_of_set();
}

/// `x`, found at some index of `spans`, hangs under `parent`.
proof fn lemma_child_listed(spans: Seq<FlatSpan>, x: FlatSpan, parent: Option<Seq<char>>)
    requires
        spans.contains(x),
        is_child_of(spans, x, parent),
    ensures
        children_spans(spans, parent).contains(x),
{
    let j = choose|j: int| 0 <= j < spans.len() && spans[j] == x;
    lemma_selected(spans, spans, parent, j);
}

/// Climbing parent links from the top of `line` reaches a root; the
/// spans passed on the way, top down, form a descent from the roots.
#[verifier::spinoff_prover]
proof fn lemma_climb(spans: Seq<FlatSpan>, line: Seq<FlatSpan>) -> (cs: Seq<FlatSpan>)
    requires
        links_acyclic(spans),
        line.len() > 0,
        is_parent_line(spans, line),
    ensures
        is_descent(spans, None, cs),
        cs.len() > 0,
        cs.last() == line.last(),
    decreases spans.len() - line.len(),
{
    lemma_parent_line_len(spans, line);
    let top = line[0];
    if is_child_of(spans, top, None) {
        assert forall|i: int| 0 <= i < line.len() implies children_spans(
            spans,
            link_parent(None, line, i),
        ).contains(#[trigger] line[i]) by {
            assert(spans.contains(line[i]));
            if i == 0 {
                lemma_child_listed(spans, line[i], None);
            } else {
                assert(names_parent(line[(i - 1) + 1], line[i - 1]));
                lemma_child_listed(spans, line[i], Some(line[i - 1].span_id@));
            }
        }
        line
    } else {
        let p = top.parent_span_id->0;
        let j = choose|j: int| 0 <= j < spans.len() && #[trigger] spans[j].span_id@ == p@;
        let up = seq![spans[j]] + line;
        assert forall|i: int| 0 <= i < up.len() implies spans.contains(#[trigger] up[i]) by {
            if i == 0 {
                assert(spans[j] == up[0]);
            } else {
                assert(up[i] == line[i - 1]);
                assert(spans.contains(line[i - 1]));
            }
        }
        assert forall|i: int| 0 <= i < up.len() - 1 implies names_parent(#[trigger] up[i + 1], up[i]) by {
            if i > 0 {
                assert(up[i + 1] == line[i] && up[i] == line[i - 1]);
                assert(names_parent(line[(i - 1) + 1], line[i - 1]));
            }
        }
        lemma_parent_line_len(spans, up);
        let cs = lemma_climb(spans, up);
        assert(up.last() == line.last());
        cs
    }
}

/// Two spans of `spans` with one id are one span when ids are distinct.
proof fn lemma_same_id_same_span(spans: Seq<FlatSpan>, a: FlatSpan, b: FlatSpan)
    requires
        ids_distinct(spans),
        spans.contains(a),
        spans.contains(b),
        a.span_id@ == b.span_id@,
    ensures
        a == b,
{
    let i = choose|i: int| 0 <= i < spans.len() && spans[i] == a;
    let j = choose|j: int| 0 <= j < spans.len() && spans[j] == b;
    if i != j {
        assert(spans[i].span_id@ != spans[j].span_id@);
    }
}

/// With distinct ids, two descents from the roots that end at one span
/// are the same descent.
#[verifier::spinoff_prover]
#[verifier::rlimit(40)]
proof fn lemma_descents_agree(spans: Seq<FlatSpan>, cs: Seq<FlatSpan>, ds: Seq<FlatSpan>)
    requires
        ids_distinct(spans),
        is_descent(spans, None, cs),
        is_descent(spans, None, ds),
        cs.len() > 0,
        ds.len() > 0,
        cs.last() == ds.last(),
    ensures
        cs == ds,
    decreases cs.len() + ds.len(),
{
    lemma_descent_is_parent_line(spans, None, cs);
    lemma_descent_is_parent_line(spans, None, ds);
    let n = cs.len() as int;
    let m = ds.len() as int;
    let x = cs.last();
    if n == 1 && m == 1 {
        assert(cs =~= ds);
    } else if n == 1 || m == 1 {
        // the longer one names a parent of `x` that is among `spans`, so
        // `x` is no root, yet the shorter one starts with it
        let (one, more) = if n == 1 { (cs, ds) } else { (ds, cs) };
        let k = more.len() - 1;
        assert(names_parent(more[(k - 1) + 1], more[k - 1]));
        assert(spans.contains(more[k - 1]));
        let q = choose|q: int| 0 <= q < spans.len() && spans[q] == more[k - 1];
        assert(spans[q].span_id@ == x.parent_span_id->0@);
        assert(children_spans(spans, link_parent(None, one, 0)).contains(one[0]));
        lemma_selected_from(spans, spans, None, one[0]);
        assert(false);
    } else {
        assert(names_parent(cs[(n - 2) + 1], cs[n - 2]));
        assert(names_parent(ds[(m - 2) + 1], ds[m - 2]));
        assert(spans.contains(cs[n - 2]) && spans.contains(ds[m - 2]));
        lemma_same_id_same_span(spans, cs[n - 2], ds[m - 2]);
        let cp = cs.drop_last();
        let dp = ds.drop_last();
        assert forall|i: int| 0 <= i < cp.len() implies children_spans(
            spans,
            link_parent(None, cp, i),
        ).contains(#[trigger] cp[i]) by {
            assert(cp[i] == cs[i]);
            if i > 0 {
                assert(cp[i - 1] == cs[i - 1]);
            }
            assert(link_parent(None, cp, i) == link_parent(None, cs, i));
        }
        assert forall|i: int| 0 <= i < dp.len() implies children_spans(
            spans,
            link_parent(None, dp, i),
        ).contains(#[trigger] dp[i]) by {
            assert(dp[i] == ds[i]);
            if i > 0 {
                assert(dp[i - 1] == ds[i - 1]);
            }
            assert(link_parent(None, dp, i) == link_parent(None, ds, i));
        }
        lemma_descents_agree(spans, cp, dp);
        assert(cs =~= cp.push(x));
        assert(ds =~= dp.push(x));
    }
}

/// With distinct span ids and parent links that never loop, each span of
/// a trace appears in its tree exactly once: exactly one descent from the
/// roots (one node of the forest) ends at it.
pub proof fn law_each_span_appears_once(spans: Seq<FlatSpan>, x: FlatSpan)
    requires
        ids_distinct(spans),
        links_acyclic(spans),
        spans.contains(x),
    ensures
        exists|cs: Seq<FlatSpan>|
            #[trigger] is_descent(spans, None, cs) && cs.len() > 0 && cs.last() == x,
        forall|cs: Seq<FlatSpan>, ds: Seq<FlatSpan>|
            #[trigger] is_descent(spans, None, cs) && #[trigger] is_descent(spans, None, ds)
                && cs.len() > 0 && ds.len() > 0 && cs.last() == x && ds.last() == x ==> cs == ds,
{
    let line = seq![x];
    assert(line[0] == x);
    let cs = lemma_climb(spans, line);
    assert(is_descent(spans, None, cs));
    assert forall|cs: Seq<FlatSpan>, ds: Seq<FlatSpan>|
        #[trigger] is_descent(spans, None, cs) && #[trigger] is_descent(spans, None, ds) && cs.len() > 0
            && ds.len() > 0 && cs.last() == x && ds.last() == x implies cs == ds by {
        lemma_descents_agree(spans, cs, ds);
    }
}

// ---------------------------------------------------------------------
// Rendering
// ---------------------------------------------------------------------

/// The lines `ls` written one after another.
pub open spec fn concat_lines(ls: Seq<Seq<char>>) -> Seq<char>
    decreases ls.len(),
{
    if ls.len() == 0 {
        Seq::empty()
    } else {
        concat_lines(ls.drop_last()) + ls.last()
    }
}

/// `line` begins with `prefix` and ends with a newline.
pub open spec fn is_line_under(line: Seq<char>, prefix: Seq<char>) -> bool {
    &&& prefix.len() < line.len()
    &&& line.subrange(0, prefix.len() as int) == prefix
    &&& line.last() == '\n'
}

/// Each of `ls` begins with `prefix` and ends with a newline.
pub open spec fn lines_under(ls: Seq<Seq<char>>, prefix: Seq<char>) -> bool {
    forall|i: int| 0 <= i < ls.len() ==> is_line_under(#[trigger] ls[i], prefix)
}

proof fn lemma_concat_lines_add(a: Seq<Seq<char>>, b: Seq<Seq<char>>)
    ensures
        concat_lines(a + b) == concat_lines(a) + concat_lines(b),
    decreases b.len(),
{
    if b.len() == 0 {
        assert(a + b =~= a);
    } else {
        lemma_concat_lines_add(a, b.drop_last());
        assert((a + b).drop_last() =~= a + b.drop_last());
    }
}

proof fn lemma_lines_under_add(a: Seq<Seq<char>>, b: Seq<Seq<char>>, prefix: Seq<char>)
    requires
        lines_under(a, prefix),
        lines_under(b, prefix),
    ensures
        lines_under(a + b, prefix),
{
    assert forall|i: int| 0 <= i < (a + b).len() implies is_line_under(#[trigger] (a + b)[i], prefix) by {
        if i < a.len() {
            assert((a + b)[i] == a[i]);
        } else {
            assert((a + b)[i] == b[i - a.len()]);
        }
    }
}

/// Lines under a longer prefix are lines under `prefix` too.
proof fn lemma_lines_under_shorter(ls: Seq<Seq<char>>, prefix: Seq<char>, more: Seq<char>)
    requires
        lines_under(ls, prefix + more),
    ensures
        lines_under(ls, prefix),
{
    assert forall|i: int| 0 <= i < ls.len() implies is_line_under(#[trigger] ls[i], prefix) by {
        let l = ls[i];
        assert(l.subrange(0, (prefix + more).len() as int) == prefix + more);
        assert(l.subrange(0, prefix.len() as int) =~= (prefix + more).subrange(0, prefix.len() as int));
        assert((prefix + more).subrange(0, prefix.len() as int) =~= prefix);
    }
}

proof fn lemma_line(prefix: Seq<char>, mid: Seq<char>)
    ensures
        is_line_under(prefix + mid + "\n"@, prefix),
{
    reveal_strlit("\n");
    let l = prefix + mid + "\n"@;
    assert(l.subrange(0, prefix.len() as int) =~= prefix);
    assert(l.last() == "\n"@[0]);
}

/// The line of one event is a line under `cp`.
proof fn lemma_event_line(e: FlatEventView, start: u64, cp: Seq<char>)
    ensures
        is_line_under(event_line(e, start, cp), cp),
{
    let mid = "event +"@ + crate::render::event_offset_text(e, start) + " "@ + e.name + if e.attributes.len() == 0 {
        Seq::<char>::empty()
    } else {
        "  "@ + crate::text::join(crate::render::kv_texts(e.attributes), ", "@)
    };
    assert(event_line(e, start, cp) =~= cp + mid + "\n"@);
    lemma_line(cp, mid);
}

/// The lines of the events, one per event.
proof fn lemma_events_lines(events: Seq<FlatEventView>, start: u64, cp: Seq<char>) -> (ls: Seq<Seq<char>>)
    ensures
        lines_under(ls, cp),
        events_lines(events, start, cp) == concat_lines(ls),
    decreases events.len(),
{
    if events.len() == 0 {
        Seq::empty()
    } else {
        let init = lemma_events_lines(events.drop_last(), start, cp);
        lemma_event_line(events.last(), start, cp);
        let ls = init.push(event_line(events.last(), start, cp));
        assert(ls.drop_last() =~= init);
        assert forall|i: int| 0 <= i < ls.len() implies is_line_under(#[trigger] ls[i], cp) by {
            if i < init.len() {
                assert(ls[i] == init[i]);
            }
        }
        ls
    }
}

/// A line that is present only sometimes: no line, or that one line.
proof fn lemma_optional_line(text: Seq<char>, cp: Seq<char>) -> (ls: Seq<Seq<char>>)
    requires
        text.len() == 0 || is_line_under(text, cp),
    ensures
        lines_under(ls, cp),
        text == concat_lines(ls),
{
    if text.len() == 0 {
        assert(text =~= Seq::<char>::empty());
        Seq::empty()
    } else {
        let ls = seq![text];
        assert(ls.drop_last() =~= Seq::<Seq<char>>::empty());
        assert(concat_lines(ls.drop_last()) == Seq::<char>::empty());
        assert(ls.last() == text);
        assert(concat_lines(ls) =~= text);
        ls
    }
}

/// The lines of a span below its heading: status, attributes, events.
proof fn lemma_block_lines(s: FlatSpanView, prefix: Seq<char>, is_last: bool) -> (ls: Seq<Seq<char>>)
    ensures
        lines_under(ls, child_prefix(prefix, is_last)),
        span_block(s, prefix, is_last) == heading_line(s, prefix, is_last) + concat_lines(ls),
{
    let cp = child_prefix(prefix, is_last);
    let st = status_line(s, cp);
    if st.len() > 0 {
        let mid = "STATUS=ERROR"@ + match s.status_message {
            Some(m) => ": "@ + m,
            None => Seq::<char>::empty(),
        };
        assert(st =~= cp + mid + "\n"@);
        lemma_line(cp, mid);
    }
    let at = attrs_line(s, cp);
    if at.len() > 0 {
        let mid = "attrs: "@ + crate::text::join(crate::render::kv_texts(s.attributes), ", "@);
        assert(at =~= cp + mid + "\n"@);
        lemma_line(cp, mid);
    }
    let a = lemma_optional_line(st, cp);
    let b = lemma_optional_line(at, cp);
    let c = lemma_events_lines(s.events, s.start_nanos, cp);
    lemma_lines_under_add(a, b, cp);
    lemma_lines_under_add(a + b, c, cp);
    lemma_concat_lines_add(a, b);
    lemma_concat_lines_add(a + b, c);
    let ls = a + b + c;
    assert(span_block(s, prefix, is_last) =~= heading_line(s, prefix, is_last) + concat_lines(ls));
    ls
}

/// The lines of a node, its heading included, all under `prefix`.
proof fn lemma_node_all_lines(node: TreeNode, prefix: Seq<char>, is_last: bool) -> (ls: Seq<Seq<char>>)
    ensures
        lines_under(ls, prefix),
        render_tree_node(node, prefix, is_last) == concat_lines(ls),
    decreases node, 1nat,
{
    let rest = law_lines_below_a_heading(node, prefix, is_last);
    let h = heading_line(node.span@, prefix, is_last);
    let mid = crate::render::connector(is_last) + node.span@.name + " ["@ + node.span@.kind + "] service="@
        + crate::render::service_text(node.span@.service_name) + " ("@ + crate::render::duration_text(
        node.span@,
    ) + ")"@;
    reveal_strlit(")\n");
    reveal_strlit(")");
    reveal_strlit("\n");
    assert(h =~= prefix + mid + "\n"@);
    lemma_line(prefix, mid);
    let cp = child_prefix(prefix, is_last);
    assert(prefix + cp.subrange(prefix.len() as int, cp.len() as int) =~= cp);
    lemma_lines_under_shorter(rest, prefix, cp.subrange(prefix.len() as int, cp.len() as int));
    let one = seq![h];
    assert(lines_under(one, prefix)) by {
        assert forall|i: int| 0 <= i < one.len() implies is_line_under(#[trigger] one[i], prefix) by {
            assert(one[i] == h);
        }
    }
    lemma_lines_under_add(one, rest, prefix);
    lemma_concat_lines_add(one, rest);
    assert(one.drop_last() =~= Seq::<Seq<char>>::empty());
    assert(concat_lines(one.drop_last()) == Seq::<char>::empty());
    assert(one.last() == h);
    assert(concat_lines(one) =~= h);
    one + rest
}

proof fn lemma_nodes_lines(nodes: Seq<TreeNode>, prefix: Seq<char>, last_too: bool) -> (ls: Seq<Seq<char>>)
    ensures
        lines_under(ls, prefix),
        last_too ==> render_tree_nodes(nodes, prefix) == concat_lines(ls),
        !last_too ==> render_tree_nodes_nonlast(nodes, prefix) == concat_lines(ls),
    decreases nodes, 0nat,
{
    if nodes.len() == 0 {
        Seq::empty()
    } else {
        let init = lemma_nodes_lines(nodes.drop_last(), prefix, false);
        assert(decreases_to!(nodes => nodes[nodes.len() - 1]));
        let tail = lemma_node_all_lines(nodes.last(), prefix, last_too);
        lemma_lines_under_add(init, tail, prefix);
        lemma_concat_lines_add(init, tail);
        init + tail
    }
}

/// Below a span's heading line, every line a node writes (its status,
/// attributes and events, and every line of the nodes under it) begins
/// with the child prefix and ends with a newline.
pub proof fn law_lines_below_a_heading(node: TreeNode, prefix: Seq<char>, is_last: bool) -> (ls: Seq<Seq<char>>)
    ensures
        lines_under(ls, child_prefix(prefix, is_last)),
        render_tree_node(node, prefix, is_last) == heading_line(node.span@, prefix, is_last) + concat_lines(ls),
    decreases node, 0nat,
{
    let cp = child_prefix(prefix, is_last);
    let a = lemma_block_lines(node.span@, prefix, is_last);
    assert(decreases_to!(node => node.children@));
    let b = lemma_nodes_lines(node.children@, cp, true);
    lemma_lines_under_add(a, b, cp);
    lemma_concat_lines_add(a, b);
    let ls = a + b;
    assert(render_tree_node(node, prefix, is_last) =~= heading_line(node.span@, prefix, is_last)
        + concat_lines(ls));
    ls
}

/// A span without an end time is shown as unfinished: at its place in
/// the flattened list it has no end, and its duration reads `unfinished`.
/// One whose end is a plain number `n` ends at `n`.
pub proof fn law_spans_without_end_stay_unfinished(doc: ExportTraceServiceRequest, a: int, b: int, c: int)
    requires
        0 <= a < doc.resource_spans@.len(),
        0 <= b < doc.resource_spans@[a].scope_spans@.len(),
        0 <= c < doc.resource_spans@[a].scope_spans@[b].spans@.len(),
    ensures
        ({
            let rs = doc.resource_spans@;
            let span = rs[a].scope_spans@[b].spans@[c];
            let k = resources_span_count(rs.take(a)) + scopes_span_count(rs[a].scope_spans@.take(b)) + c;
            &&& k < spec_flatten(doc).len()
            &&& span.end_time_unix_nano is None ==> spec_flatten(doc)[k].end_nanos is None && duration_text(
                spec_flatten(doc)[k],
            ) == "unfinished"@
            &&& span.end_time_unix_nano matches Some(JsonValue::Number(JsonNumber::Unsigned(n)))
                ==> spec_flatten(doc)[k].end_nanos == Some(n)
        }),
{
    lemma_resources_at(doc.resource_spans@, a, b, c);
}

/// A span whose status is ERROR shows it on the line right below its
/// heading, `STATUS=ERROR`, with `: message` only where there is a
/// message; a span with another status, no attributes and no events
/// writes its heading and nothing more.
pub proof fn law_error_status_is_shown(s: FlatSpanView, prefix: Seq<char>, is_last: bool)
    ensures
        s.status_code == "ERROR"@ ==> ({
            let h = heading_line(s, prefix, is_last);
            let line = child_prefix(prefix, is_last) + "STATUS=ERROR"@ + match s.status_message {
                Some(m) => ": "@ + m,
                None => Seq::<char>::empty(),
            } + "\n"@;
            &&& h.len() + line.len() <= span_block(s, prefix, is_last).len()
            &&& span_block(s, prefix, is_last).subrange(0, (h.len() + line.len()) as int) == h + line
        }),
        s.status_code != "ERROR"@ && s.attributes.len() == 0 && s.events.len() == 0 ==> span_block(
            s,
            prefix,
            is_last,
        ) == heading_line(s, prefix, is_last),
{
    let h = heading_line(s, prefix, is_last);
    let b = span_block(s, prefix, is_last);
    if s.status_code == "ERROR"@ {
        let cp = child_prefix(prefix, is_last);
        let line = cp + "STATUS=ERROR"@ + match s.status_message {
            Some(m) => ": "@ + m,
            None => Seq::<char>::empty(),
        } + "\n"@;
        let rest = attrs_line(s, cp) + events_lines(s.events, s.start_nanos, cp);
        assert(b =~= h + line + rest);
        assert(b.subrange(0, (h.len() + line.len()) as int) =~= h + line);
    } else if s.attributes.len() == 0 && s.events.len() == 0 {
        assert(b =~= h);
    }
}

/// `key` is the key of `ms[i]` and of no earlier member.
pub open spec fn first_key_at(ms: Seq<(String, JsonValue)>, key: Seq<char>, i: int) -> bool {
    &&& 0 <= i < ms.len()
    &&& ms[i].0@ == key
    &&& forall|j: int| 0 <= j < i ==> (#[trigger] ms[j]).0@ != key
}

/// No member of `ms` has key `key`.
pub open spec fn no_key(ms: Seq<(String, JsonValue)>, key: Seq<char>) -> bool {
    forall|j: int| 0 <= j < ms.len() ==> (#[trigger] ms[j]).0@ != key
}

proof fn lemma_first_key(ms: Seq<(String, JsonValue)>, key: Seq<char>, i: int)
    requires
        first_key_at(ms, key, i),
    ensures
        crate::json::member_index(ms, key) == Some(i),
{
    lemma_member_index(ms, key);
    match crate::json::member_index(ms, key) {
        Some(k) => {
            if k < i {
                assert(ms[k].0@ != key);
            } else if k > i {
                assert(ms[i].0@ != key);
            }
        },
        None => {
            assert(ms[i].0@ != key);
        },
    }
}

proof fn lemma_no_key(ms: Seq<(String, JsonValue)>, key: Seq<char>)
    requires
        no_key(ms, key),
    ensures
        crate::json::member_index(ms, key) is None,
{
    lemma_member_index(ms, key);
    if let Some(k) = crate::json::member_index(ms, key) {
        assert(ms[k].0@ != key);
    }
}

/// The scalar forms of an OTLP `AnyValue`: a `stringValue` string shows
/// as the string itself; with no `stringValue`, an `intValue` shows as
/// its string or, given as a number, in decimal; with neither of those
/// nor a `doubleValue`, a `boolValue` shows as `true` or `false`.
#[verifier::spinoff_prover]
pub proof fn law_any_value_scalars(value: JsonValue, i: int)
    requires
        value is Object,
    ensures
        ({
            let ms = value->Object_0@;
            &&& first_key_at(ms, "stringValue"@, i) && ms[i].1 is String ==> spec_format_any_value(value)
                == ms[i].1->String_0@
            &&& no_key(ms, "stringValue"@) && first_key_at(ms, "intValue"@, i) && ms[i].1 is String
                ==> spec_format_any_value(value) == ms[i].1->String_0@
            &&& no_key(ms, "stringValue"@) && first_key_at(ms, "intValue"@, i) ==> (ms[i].1 matches JsonValue::Number(
                JsonNumber::Unsigned(n),
            ) ==> spec_format_any_value(value) == decimal(n as nat))
            &&& no_key(ms, "stringValue"@) && no_key(ms, "intValue"@) && no_key(ms, "doubleValue"@)
                && first_key_at(ms, "boolValue"@, i) ==> (ms[i].1 matches JsonValue::Bool(b)
                ==> spec_format_any_value(value) == if b { "true"@ } else { "false"@ })
        }),
{
    let ms = value->Object_0@;
    if first_key_at(ms, "stringValue"@, i) {
        lemma_first_key(ms, "stringValue"@, i);
    }
    if no_key(ms, "stringValue"@) {
        lemma_no_key(ms, "stringValue"@);
        if first_key_at(ms, "intValue"@, i) {
            lemma_first_key(ms, "intValue"@, i);
        }
        if no_key(ms, "intValue"@) && no_key(ms, "doubleValue"@) {
            lemma_no_key(ms, "intValue"@);
            lemma_no_key(ms, "doubleValue"@);
            if first_key_at(ms, "boolValue"@, i) {
                lemma_first_key(ms, "boolValue"@, i);
            }
        }
    }
}

proof fn lemma_format_items_map(items: Seq<JsonValue>)
    ensures
        crate::render::format_items(items) == items.map_values(|v: JsonValue| spec_format_any_value(v)),
    decreases items.len(),
{
    if items.len() > 0 {
        lemma_format_items_map(items.drop_last());
        assert(items.map_values(|v: JsonValue| spec_format_any_value(v)).drop_last() =~= items.drop_last().map_values(
            |v: JsonValue| spec_format_any_value(v),
        ));
    } else {
        assert(items.map_values(|v: JsonValue| spec_format_any_value(v)) =~= Seq::<Seq<char>>::empty());
    }
}

/// The other forms of an OTLP `AnyValue`, with none of `stringValue`,
/// `intValue`, `doubleValue` and `boolValue` present: a `bytesValue`
/// string shows as `<n bytes base64>` with `n` its length in UTF-8
/// bytes; with no `bytesValue` either, an `arrayValue` whose `values` is
/// a list shows as its items, each formatted, between brackets and
/// separated by `, `; an object with none of the seven keys shows as
/// `null`; and anything but an object shows as its JSON text.
#[verifier::spinoff_prover]
pub proof fn law_any_value_other_forms(value: JsonValue, i: int, j: int)
    ensures
        !(value is Object) ==> spec_format_any_value(value) == crate::json::json_text(value),
        value matches JsonValue::Object(members) ==> ({
            let ms = members@;
            let no_scalars = no_key(ms, "stringValue"@) && no_key(ms, "intValue"@) && no_key(ms, "doubleValue"@)
                && no_key(ms, "boolValue"@);
            &&& (no_scalars && first_key_at(ms, "bytesValue"@, i)) ==> (ms[i].1 matches JsonValue::String(x)
                ==> spec_format_any_value(value) == "<"@ + decimal(crate::render::str_byte_len(x@))
                + " bytes base64>"@)
            &&& (no_scalars && no_key(ms, "bytesValue"@) && first_key_at(ms, "arrayValue"@, i)) ==> (
            ms[i].1 matches JsonValue::Object(inner) ==> (first_key_at(inner@, "values"@, j) ==> (
            inner@[j].1 matches JsonValue::Array(items) ==> spec_format_any_value(value) == "["@
                + crate::text::join(items@.map_values(|v: JsonValue| spec_format_any_value(v)), ", "@)
                + "]"@)))
            &&& (no_scalars && no_key(ms, "bytesValue"@) && no_key(ms, "arrayValue"@) && no_key(ms, "kvlistValue"@))
                ==> spec_format_any_value(value) == "null"@
        }),
{
    if let JsonValue::Object(members) = value {
        let ms = members@;
        if no_key(ms, "stringValue"@) && no_key(ms, "intValue"@) && no_key(ms, "doubleValue"@) && no_key(ms, "boolValue"@) {
            lemma_no_key(ms, "stringValue"@);
            lemma_no_key(ms, "intValue"@);
            lemma_no_key(ms, "doubleValue"@);
            lemma_no_key(ms, "boolValue"@);
            if first_key_at(ms, "bytesValue"@, i) {
                lemma_first_key(ms, "bytesValue"@, i);
            }
            if no_key(ms, "bytesValue"@) {
                lemma_no_key(ms, "bytesValue"@);
                if first_key_at(ms, "arrayValue"@, i) {
                    lemma_first_key(ms, "arrayValue"@, i);
                    if let JsonValue::Object(inner) = ms[i].1 {
                        if first_key_at(inner@, "values"@, j) {
                            lemma_first_key(inner@, "values"@, j);
                            if let JsonValue::Array(items) = inner@[j].1 {
                                lemma_format_items_map(items@);
                            }
                        }
                    }
                }
                if no_key(ms, "arrayValue"@) && no_key(ms, "kvlistValue"@) {
                    lemma_no_key(ms, "arrayValue"@);
                    lemma_no_key(ms, "kvlistValue"@);
                }
            }
        }
    }
}

/// What is rendered is exactly the selection the command line asks for:
/// with `--trace t`, only the spans of trace `lowercase(t)`; with
/// `--errors-only`, of those only the traces holding an ERROR span;
/// rendered whatever the other option is.
pub proof fn law_report_renders_the_selection(spans: Seq<FlatSpan>, trace: Option<Seq<char>>, errors_only: bool, r: Report)
    requires
        spec_report(spans, trace, errors_only, r),
    ensures
        ({
            let picked = match trace {
                Some(t) => trace_members(spans, unicode_lowercase(t)),
                None => spans,
            };
            let kept = if errors_only {
                error_trace_spans(picked, picked)
            } else {
                picked
            };
            r matches Report::Rendered(text) ==> text@ == spec_render_trace_tree(kept)
        }),
{
}

/// The span kind labels, by number and by name: 1 to 5 are INTERNAL,
/// SERVER, CLIENT, PRODUCER, CONSUMER, with or without the `SPAN_KIND_`
/// prefix on the name; no kind, any other number or name, and any other
/// JSON value are UNSPECIFIED.
pub proof fn law_kind_labels(v: JsonValue)
    ensures
        spec_span_kind_label(None) == "UNSPECIFIED"@,
        v matches JsonValue::Number(JsonNumber::Unsigned(n)) ==> spec_span_kind_label(Some(v)) == (
        if n == 1 {
            "INTERNAL"@
        } else if n == 2 {
            "SERVER"@
        } else if n == 3 {
            "CLIENT"@
        } else if n == 4 {
            "PRODUCER"@
        } else if n == 5 {
            "CONSUMER"@
        } else {
            "UNSPECIFIED"@
        }),
        json_str(v) == Some("INTERNAL"@) || json_str(v) == Some("SPAN_KIND_INTERNAL"@) ==> spec_span_kind_label(Some(v)) == "INTERNAL"@,
        json_str(v) == Some("SERVER"@) || json_str(v) == Some("SPAN_KIND_SERVER"@) ==> spec_span_kind_label(Some(v)) == "SERVER"@,
        json_str(v) == Some("CLIENT"@) || json_str(v) == Some("SPAN_KIND_CLIENT"@) ==> spec_span_kind_label(Some(v)) == "CLIENT"@,
        json_str(v) == Some("PRODUCER"@) || json_str(v) == Some("SPAN_KIND_PRODUCER"@) ==> spec_span_kind_label(Some(v)) == "PRODUCER"@,
        json_str(v) == Some("CONSUMER"@) || json_str(v) == Some("SPAN_KIND_CONSUMER"@) ==> spec_span_kind_label(Some(v)) == "CONSUMER"@,
        !(v is String) && !(v matches JsonValue::Number(JsonNumber::Unsigned(_))) ==> spec_span_kind_label(Some(v)) == "UNSPECIFIED"@,
{
    reveal_strlit("SPAN_KIND_");
    reveal_strlit("INTERNAL");
    reveal_strlit("SERVER");
    reveal_strlit("CLIENT");
    reveal_strlit("PRODUCER");
    reveal_strlit("CONSUMER");
    reveal_strlit("SPAN_KIND_INTERNAL");
    reveal_strlit("SPAN_KIND_SERVER");
    reveal_strlit("SPAN_KIND_CLIENT");
    reveal_strlit("SPAN_KIND_PRODUCER");
    reveal_strlit("SPAN_KIND_CONSUMER");
    if let JsonValue::String(s) = v {
        let t = s@;
        let names = seq!["INTERNAL"@, "SERVER"@, "CLIENT"@, "PRODUCER"@, "CONSUMER"@];
        assert forall|k: int| 0 <= k < 5 implies {
            let nm = #[trigger] names[k];
            (t == nm || t == "SPAN_KIND_"@ + nm) ==> kind_name_label(strip_prefix(t, "SPAN_KIND_"@)) == nm
        } by {
            let nm = names[k];
            if t == "SPAN_KIND_"@ + nm {
                lemma_strip_prefix_of_concat("SPAN_KIND_"@, nm);
            } else if t == nm {
                lemma_strip_prefix_short(nm, "SPAN_KIND_"@);
            }
        }
        assert("SPAN_KIND_INTERNAL"@ =~= "SPAN_KIND_"@ + "INTERNAL"@);
        assert("SPAN_KIND_SERVER"@ =~= "SPAN_KIND_"@ + "SERVER"@);
        assert("SPAN_KIND_CLIENT"@ =~= "SPAN_KIND_"@ + "CLIENT"@);
        assert("SPAN_KIND_PRODUCER"@ =~= "SPAN_KIND_"@ + "PRODUCER"@);
        assert("SPAN_KIND_CONSUMER"@ =~= "SPAN_KIND_"@ + "CONSUMER"@);
        assert(names[0] == "INTERNAL"@ && names[1] == "SERVER"@ && names[2] == "CLIENT"@);
        assert(names[3] == "PRODUCER"@ && names[4] == "CONSUMER"@);
    }
}

/// The status labels, by number and by name: 1 is OK and 2 is ERROR,
/// with or without the `STATUS_CODE_` prefix on the name; no code, any
/// other number or name, and any other JSON value are UNSET.
pub proof fn law_status_labels(v: JsonValue)
    ensures
        spec_status_code_label(None) == "UNSET"@,
        v matches JsonValue::Number(JsonNumber::Unsigned(n)) ==> spec_status_code_label(Some(v)) == (
        if n == 1 {
            "OK"@
        } else if n == 2 {
            "ERROR"@
        } else {
            "UNSET"@
        }),
        json_str(v) == Some("OK"@) || json_str(v) == Some("STATUS_CODE_OK"@) ==> spec_status_code_label(Some(v)) == "OK"@,
        json_str(v) == Some("ERROR"@) || json_str(v) == Some("STATUS_CODE_ERROR"@) ==> spec_status_code_label(Some(v)) == "ERROR"@,
        !(v is String) && !(v matches JsonValue::Number(JsonNumber::Unsigned(_))) ==> spec_status_code_label(Some(v)) == "UNSET"@,
{
    reveal_strlit("STATUS_CODE_");
    reveal_strlit("OK");
    reveal_strlit("ERROR");
    reveal_strlit("STATUS_CODE_OK");
    reveal_strlit("STATUS_CODE_ERROR");
    if let JsonValue::String(s) = v {
        let t = s@;
        assert("STATUS_CODE_OK"@ =~= "STATUS_CODE_"@ + "OK"@);
        assert("STATUS_CODE_ERROR"@ =~= "STATUS_CODE_"@ + "ERROR"@);
        if t == "STATUS_CODE_OK"@ {
            lemma_strip_prefix_of_concat("STATUS_CODE_"@, "OK"@);
        } else if t == "STATUS_CODE_ERROR"@ {
            lemma_strip_prefix_of_concat("STATUS_CODE_"@, "ERROR"@);
        } else if t == "OK"@ {
            lemma_strip_prefix_short("OK"@, "STATUS_CODE_"@);
        } else if t == "ERROR"@ {
            lemma_strip_prefix_short("ERROR"@, "STATUS_CODE_"@);
        }
    }
}

/// What each flattened span holds of the span it comes from, at its
/// place in document order: its name; its scope's name (empty without a
/// scope) and no service where the resource is missing; its ids (a hex id
/// lowercased, `?` for an id that is not a string, no parent where none
/// is named); its start (a plain number as is, 0 when it is neither a
/// string nor a number); UNSPECIFIED and UNSET where kind and status are
/// missing; its status message; and one attribute and one event for each
/// of its own, keys and event names kept.
#[verifier::spinoff_prover]
pub proof fn law_flattened_span_fields(doc: ExportTraceServiceRequest, a: int, b: int, c: int)
    requires
        0 <= a < doc.resource_spans@.len(),
        0 <= b < doc.resource_spans@[a].scope_spans@.len(),
        0 <= c < doc.resource_spans@[a].scope_spans@[b].spans@.len(),
    ensures
        ({
            let rs = doc.resource_spans@;
            let ss = rs[a].scope_spans@[b];
            let span = ss.spans@[c];
            let k = resources_span_count(rs.take(a)) + scopes_span_count(rs[a].scope_spans@.take(b)) + c;
            let f = spec_flatten(doc)[k];
            &&& k < spec_flatten(doc).len()
            &&& f.name == span.name@
            &&& (ss.scope matches Some(sc) ==> f.scope_name == sc.name@)
            &&& (ss.scope is None ==> f.scope_name == Seq::<char>::empty())
            &&& (rs[a].resource is None ==> f.service_name is None)
            &&& (span.trace_id matches JsonValue::String(t) ==> (is_hex_id(t@) ==> f.trace_id == lowercase_ascii(t@)))
            &&& (!(span.trace_id is String) ==> f.trace_id == "?"@)
            &&& (span.span_id matches JsonValue::String(t) ==> (is_hex_id(t@) ==> f.span_id == lowercase_ascii(t@)))
            &&& (!(span.span_id is String) ==> f.span_id == "?"@)
            &&& (span.parent_span_id is None ==> f.parent_span_id is None)
            &&& (span.start_time_unix_nano matches JsonValue::Number(JsonNumber::Unsigned(n)) ==> f.start_nanos == n)
            &&& (!(span.start_time_unix_nano is String) && !(span.start_time_unix_nano is Number) ==> f.start_nanos == 0)
            &&& (span.kind is None ==> f.kind == "UNSPECIFIED"@)
            &&& (span.status is None ==> f.status_code == "UNSET"@ && f.status_message is None)
            &&& (span.status matches Some(st) ==> f.status_message == crate::render::opt_str_view(st.message))
            &&& f.attributes.len() == span.attributes@.len()
            &&& (forall|i: int| 0 <= i < f.attributes.len() ==> (#[trigger] f.attributes[i]).0 == span.attributes@[i].key@)
            &&& f.events.len() == span.events@.len()
            &&& (forall|i: int| 0 <= i < f.events.len() ==> (#[trigger] f.events[i]).name == span.events@[i].name@)
        }),
{
    lemma_resources_at(doc.resource_spans@, a, b, c);
    reveal_strlit("?");
}

/// The text of a duration from `start` to `end`, or `unfinished`.
pub open spec fn shown_duration(start: u64, end: Option<u64>) -> Seq<char> {
    match end {
        None => "unfinished"@,
        Some(e) => spec_format_duration_nanos(if e >= start { (e - start) as nat } else { 0 }),
    }
}

/// One event's line under `cp`: its time from the span's start (`?`
/// without a time, never negative), its name, its attributes.
pub open spec fn shown_event(e: FlatEventView, start: u64, cp: Seq<char>) -> Seq<char> {
    cp + "event +"@ + match e.time_nanos {
        None => "?"@,
        Some(t) => spec_format_duration_nanos(if t >= start { (t - start) as nat } else { 0 }),
    } + " "@ + e.name + (if e.attributes.len() == 0 {
        Seq::<char>::empty()
    } else {
        "  "@ + crate::text::join(e.attributes.map_values(|p: (Seq<char>, Seq<char>)| p.0 + "="@ + p.1), ", "@)
    }) + "\n"@
}

proof fn lemma_events_shown(events: Seq<FlatEventView>, start: u64, cp: Seq<char>)
    ensures
        events_lines(events, start, cp) == concat_lines(
            events.map_values(|e: FlatEventView| shown_event(e, start, cp)),
        ),
    decreases events.len(),
{
    let m = events.map_values(|e: FlatEventView| shown_event(e, start, cp));
    if events.len() > 0 {
        lemma_events_shown(events.drop_last(), start, cp);
        assert(m.drop_last() =~= events.drop_last().map_values(|e: FlatEventView| shown_event(e, start, cp)));
        let e = events.last();
        assert(crate::render::kv_texts(e.attributes) =~= e.attributes.map_values(
            |p: (Seq<char>, Seq<char>)| p.0 + "="@ + p.1,
        ));
        assert(event_line(e, start, cp) =~= shown_event(e, start, cp));
        assert(m.last() == shown_event(e, start, cp));
    } else {
        assert(m =~= Seq::<Seq<char>>::empty());
    }
}

/// How a span is written: its heading (connector `└─ ` for the last
/// sibling, `├─ ` otherwise; name, kind, service or `-`, duration or
/// `unfinished`); below it, one level deeper (`   ` after a last
/// sibling, `│  ` otherwise), the status line of an ERROR span, the
/// attributes as `attrs: k=v, ...` where there are any, and one line per
/// event, in order.
pub proof fn law_span_block_text(s: FlatSpanView, prefix: Seq<char>, is_last: bool)
    ensures
        heading_line(s, prefix, is_last) == prefix + (if is_last { "└─ "@ } else { "├─ "@ }) + s.name
            + " ["@ + s.kind + "] service="@ + (match s.service_name {
            Some(n) => n,
            None => "-"@,
        }) + " ("@ + shown_duration(s.start_nanos, s.end_nanos) + ")\n"@,
        child_prefix(prefix, is_last) == prefix + (if is_last { "   "@ } else { "│  "@ }),
        ({
            let cp = child_prefix(prefix, is_last);
            span_block(s, prefix, is_last) == heading_line(s, prefix, is_last) + (if s.status_code == "ERROR"@ {
                cp + "STATUS=ERROR"@ + match s.status_message {
                    Some(m) => ": "@ + m,
                    None => Seq::<char>::empty(),
                } + "\n"@
            } else {
                Seq::<char>::empty()
            }) + (if s.attributes.len() > 0 {
                cp + "attrs: "@ + crate::text::join(
                    s.attributes.map_values(|p: (Seq<char>, Seq<char>)| p.0 + "="@ + p.1),
                    ", "@,
                ) + "\n"@
            } else {
                Seq::<char>::empty()
            }) + concat_lines(s.events.map_values(|e: FlatEventView| shown_event(e, s.start_nanos, cp)))
        }),
{
    let cp = child_prefix(prefix, is_last);
    lemma_events_shown(s.events, s.start_nanos, cp);
    assert(crate::render::kv_texts(s.attributes) =~= s.attributes.map_values(
        |p: (Seq<char>, Seq<char>)| p.0 + "="@ + p.1,
    ));
    assert(crate::render::duration_text(s) == shown_duration(s.start_nanos, s.end_nanos));
}

proof fn lemma_nonlast_all(nodes: Seq<TreeNode>, prefix: Seq<char>)
    ensures
        render_tree_nodes_nonlast(nodes, prefix) == concat_lines(
            Seq::new(nodes.len(), |i: int| render_tree_node(nodes[i], prefix, false)),
        ),
    decreases nodes.len(),
{
    let m = Seq::new(nodes.len(), |i: int| render_tree_node(nodes[i], prefix, false));
    if nodes.len() > 0 {
        lemma_nonlast_all(nodes.drop_last(), prefix);
        assert(m.drop_last() =~= Seq::new(
            nodes.drop_last().len(),
            |i: int| render_tree_node(nodes.drop_last()[i], prefix, false),
        ));
    } else {
        assert(m =~= Seq::<Seq<char>>::empty());
    }
}

proof fn lemma_nodes_match_at(nodes: Seq<TreeNode>, cs: Seq<FlatSpan>, spans: Seq<FlatSpan>, fuel: nat, i: int)
    requires
        crate::render::nodes_match(nodes, cs, spans, fuel),
        0 <= i < cs.len(),
    ensures
        nodes.len() == cs.len(),
        *nodes[i].span == cs[i],
        crate::render::forest_matches(nodes[i].children@, spans, Some(cs[i].span_id@), fuel),
    decreases cs.len(),
{
    if i < cs.len() - 1 {
        lemma_nodes_match_at(nodes.drop_last(), cs.drop_last(), spans, fuel, i);
        assert(nodes.drop_last()[i] == nodes[i]);
        assert(cs.drop_last()[i] == cs[i]);
    }
}

/// A built forest under `parent` is the list of spans hanging there, in
/// order, one node each, and below each node, the forest of the spans
/// hanging under its id, one level further down.
pub proof fn law_forest_nodes_are_the_children(nodes: Seq<TreeNode>, spans: Seq<FlatSpan>, parent: Option<Seq<char>>, fuel: nat, i: int)
    requires
        crate::render::forest_matches(nodes, spans, parent, fuel),
    ensures
        nodes.len() == children_spans(spans, parent).len(),
        0 <= i < nodes.len() ==> *nodes[i].span == children_spans(spans, parent)[i] && crate::render::forest_matches(
            nodes[i].children@,
            spans,
            Some(nodes[i].span.span_id@),
            (fuel - 1) as nat,
        ),
{
    let cs = children_spans(spans, parent);
    if 0 <= i < nodes.len() {
        lemma_nodes_match_at(nodes, cs, spans, (fuel - 1) as nat, i);
    }
}

/// Siblings are written in order, each with its own lines and those of
/// the nodes under it; only the last is drawn as the last (`└─ `), the
/// others as continuing (`├─ `).
pub proof fn law_siblings_in_order(nodes: Seq<TreeNode>, prefix: Seq<char>)
    ensures
        render_tree_nodes(nodes, prefix) == concat_lines(
            Seq::new(nodes.len(), |i: int| render_tree_node(nodes[i], prefix, i == nodes.len() - 1)),
        ),
{
    let m = Seq::new(nodes.len(), |i: int| render_tree_node(nodes[i], prefix, i == nodes.len() - 1));
    if nodes.len() > 0 {
        lemma_nonlast_all(nodes.drop_last(), prefix);
        assert(m.drop_last() =~= Seq::new(
            nodes.drop_last().len(),
            |i: int| render_tree_node(nodes.drop_last()[i], prefix, false),
        ));
    } else {
        assert(m =~= Seq::<Seq<char>>::empty());
    }
}

/// A node is written as its own block followed by its children, one
/// level deeper.
pub proof fn law_node_then_children(node: TreeNode, prefix: Seq<char>, is_last: bool)
    ensures
        render_tree_node(node, prefix, is_last) == span_block(node.span@, prefix, is_last) + render_tree_nodes(
            node.children@,
            prefix + (if is_last { "   "@ } else { "│  "@ }),
        ),
{
}

proof fn lemma_traces_text(spans: Seq<FlatSpan>, ids: Seq<Seq<char>>)
    ensures
        crate::render::render_traces(spans, ids) == concat_lines(
            ids.map_values(|t: Seq<char>| "Trace "@ + t + "\n"@ + crate::render::render_span_list(
                trace_members(spans, t),
                children_spans(trace_members(spans, t), None),
                Seq::empty(),
                trace_members(spans, t).len(),
            ) + "\n"@),
        ),
    decreases ids.len(),
{
    let m = ids.map_values(|t: Seq<char>| "Trace "@ + t + "\n"@ + crate::render::render_span_list(
        trace_members(spans, t),
        children_spans(trace_members(spans, t), None),
        Seq::empty(),
        trace_members(spans, t).len(),
    ) + "\n"@);
    if ids.len() > 0 {
        lemma_traces_text(spans, ids.drop_last());
        assert(m.drop_last() =~= ids.drop_last().map_values(|t: Seq<char>| "Trace "@ + t + "\n"@
            + crate::render::render_span_list(
            trace_members(spans, t),
            children_spans(trace_members(spans, t), None),
            Seq::empty(),
            trace_members(spans, t).len(),
        ) + "\n"@));
    } else {
        assert(m =~= Seq::<Seq<char>>::empty());
    }
}

/// The output is one block per trace, in increasing order of trace id:
/// `Trace <id>`, the trace's roots with the spans under them (the roots
/// drawn under no prefix), and a blank line. No spans, no output.
pub proof fn law_one_block_per_trace(spans: Seq<FlatSpan>)
    ensures
        spec_render_trace_tree(spans) == concat_lines(
            sorted_trace_ids(spans).map_values(|t: Seq<char>| "Trace "@ + t + "\n"@
                + crate::render::render_span_list(
                trace_members(spans, t),
                children_spans(trace_members(spans, t), None),
                Seq::empty(),
                trace_members(spans, t).len(),
            ) + "\n"@),
        ),
        spans.len() == 0 ==> spec_render_trace_tree(spans) == Seq::<char>::empty(),
{
    lemma_traces_text(spans, sorted_trace_ids(spans));
    if spans.len() == 0 {
        assert(sorted_trace_ids(spans) =~= Seq::<Seq<char>>::empty());
    }
}

/// Span `s` is one that `--trace` (when given) selects.
pub open spec fn selected_by(s: FlatSpan, trace: Option<Seq<char>>) -> bool {
    match trace {
        Some(t) => s.trace_id@ == unicode_lowercase(t),
        None => true,
    }
}

/// `--trace` is given and no span belongs to the trace it names.
pub open spec fn trace_absent(spans: Seq<FlatSpan>, trace: Option<Seq<char>>) -> bool {
    trace is Some && forall|i: int| 0 <= i < spans.len() ==> !selected_by(#[trigger] spans[i], trace)
}

proof fn lemma_members_in(spans: Seq<FlatSpan>, t: Seq<char>, x: FlatSpan)
    ensures
        trace_members(spans, t).contains(x) <==> spans.contains(x) && x.trace_id@ == t,
    decreases spans.len(),
{
    if spans.len() > 0 {
        let init = spans.drop_last();
        lemma_members_in(init, t, x);
        let ts = trace_members(spans, t);
        let ti = trace_members(init, t);
        if ts.contains(x) {
            let q = choose|q: int| 0 <= q < ts.len() && ts[q] == x;
            if q < ti.len() {
                assert(ti[q] == x);
                let k = choose|k: int| 0 <= k < init.len() && init[k] == x;
                assert(spans[k] == x);
            } else {
                assert(spans[spans.len() - 1] == x);
            }
        }
        if spans.contains(x) && x.trace_id@ == t {
            let k = choose|k: int| 0 <= k < spans.len() && spans[k] == x;
            if k < init.len() {
                assert(init[k] == x);
                let q = choose|q: int| 0 <= q < ti.len() && ti[q] == x;
                assert(ts[q] == x);
            } else {
                assert(ts[ts.len() - 1] == x);
            }
        }
    } else {
        assert(!spans.contains(x));
    }
}

/// The spans that `--trace` keeps: all of them, or those of the trace.
proof fn lemma_picked(spans: Seq<FlatSpan>, trace: Option<Seq<char>>, x: FlatSpan)
    ensures
        crate::report::after_trace(spans, trace).contains(x) <==> spans.contains(x) && selected_by(x, trace),
{
    if let Some(t) = trace {
        lemma_members_in(spans, unicode_lowercase(t), x);
    }
}

proof fn lemma_empty_iff_none(p: Seq<FlatSpan>, spans: Seq<FlatSpan>, trace: Option<Seq<char>>)
    requires
        forall|x: FlatSpan| #[trigger] p.contains(x) <==> spans.contains(x) && selected_by(x, trace),
    ensures
        p.len() == 0 <==> forall|i: int| 0 <= i < spans.len() ==> !selected_by(#[trigger] spans[i], trace),
{
    if p.len() > 0 {
        assert(p.contains(p[0]));
        let k = choose|k: int| 0 <= k < spans.len() && spans[k] == p[0];
        assert(selected_by(spans[k], trace));
    }
    if exists|i: int| 0 <= i < spans.len() && selected_by(#[trigger] spans[i], trace) {
        let i = choose|i: int| 0 <= i < spans.len() && selected_by(#[trigger] spans[i], trace);
        assert(spans.contains(spans[i]));
        assert(p.contains(spans[i]));
    }
}

proof fn lemma_errors_empty(p: Seq<FlatSpan>)
    ensures
        error_trace_spans(p, p).len() == 0 <==> forall|j: int|
            0 <= j < p.len() ==> (#[trigger] p[j]).status_code@ != "ERROR"@,
{
    let r = error_trace_spans(p, p);
    if r.len() > 0 {
        law_errors_only_keeps_whole_traces(p, p, r[0]);
        assert(r.contains(r[0]));
        let j = choose|j: int| 0 <= j < p.len() && (#[trigger] p[j]).trace_id@ == r[0].trace_id@ && p[j].status_code@ == "ERROR"@;
        assert(p[j].status_code@ == "ERROR"@);
    }
    if exists|j: int| 0 <= j < p.len() && (#[trigger] p[j]).status_code@ == "ERROR"@ {
        let j = choose|j: int| 0 <= j < p.len() && (#[trigger] p[j]).status_code@ == "ERROR"@;
        law_errors_only_keeps_whole_traces(p, p, p[j]);
        assert(p.contains(p[j]));
        assert(some_error_span(p, p[j].trace_id@));
        assert(r.contains(p[j]));
    }
}

/// Which outcome a run has: no spans exactly when the document holds
/// none; nothing for the trace exactly when `--trace` names a trace that
/// no span belongs to; no error traces exactly when, with
/// `--errors-only`, no selected span has status ERROR; otherwise the
/// trees are rendered, or found endless.
#[verifier::spinoff_prover]
pub proof fn law_report_outcomes(spans: Seq<FlatSpan>, trace: Option<Seq<char>>, errors_only: bool, r: Report)
    requires
        spec_report(spans, trace, errors_only, r),
    ensures
        r is NoSpans <==> spans.len() == 0,
        r is NoSpansForTrace <==> spans.len() > 0 && trace_absent(spans, trace),
        r is NoErrorTraces <==> spans.len() > 0 && !trace_absent(spans, trace) && errors_only && forall|i: int|
            0 <= i < spans.len() && selected_by(#[trigger] spans[i], trace) ==> spans[i].status_code@ != "ERROR"@,
        spans.len() > 0 && !trace_absent(spans, trace) && !(r is NoErrorTraces) ==> r is EndlessTree || r is Rendered,
{
    let picked = crate::report::after_trace(spans, trace);
    assert forall|x: FlatSpan| #[trigger] picked.contains(x) <==> spans.contains(x) && selected_by(x, trace) by {
        lemma_picked(spans, trace, x);
    }
    lemma_empty_iff_none(picked, spans, trace);
    lemma_errors_empty(picked);
    if trace is Some {
        assert(trace_absent(spans, trace) <==> picked.len() == 0);
    }
    let none_error = forall|i: int|
        0 <= i < spans.len() && selected_by(#[trigger] spans[i], trace) ==> spans[i].status_code@ != "ERROR"@;
    assert(none_error <==> forall|j: int| 0 <= j < picked.len() ==> (#[trigger] picked[j]).status_code@ != "ERROR"@) by {
        if none_error {
            assert forall|j: int| 0 <= j < picked.len() implies (#[trigger] picked[j]).status_code@ != "ERROR"@ by {
                assert(picked.contains(picked[j]));
                let k = choose|k: int| 0 <= k < spans.len() && spans[k] == picked[j];
                assert(selected_by(spans[k], trace));
            }
        }
        if forall|j: int| 0 <= j < picked.len() ==> (#[trigger] picked[j]).status_code@ != "ERROR"@ {
            assert forall|i: int| 0 <= i < spans.len() && selected_by(#[trigger] spans[i], trace) implies spans[i].status_code@
                != "ERROR"@ by {
                assert(spans.contains(spans[i]));
                assert(picked.contains(spans[i]));
                let q = choose|q: int| 0 <= q < picked.len() && picked[q] == spans[i];
                assert(picked[q].status_code@ != "ERROR"@);
            }
        }
    }
}

// ---------------------------------------------------------------------
// Selections
// ---------------------------------------------------------------------

/// Some span of `spans`, wherever it stands, belongs to trace `t` and has
/// status ERROR.
pub open spec fn some_error_span(spans: Seq<FlatSpan>, t: Seq<char>) -> bool {
    exists|j: int| 0 <= j < spans.len() && (#[trigger] spans[j]).trace_id@ == t && spans[j].status_code@ == "ERROR"@
}

proof fn lemma_trace_has_error_iff(spans: Seq<FlatSpan>, t: Seq<char>)
    ensures
        trace_has_error(spans, t) <==> some_error_span(spans, t),
{
    if trace_has_error(spans, t) {
        let j = choose|j: int| 0 <= j < spans.len() && #[trigger] spans[j].status_code@ == "ERROR"@ && spans[j].trace_id@ == t;
        assert(spans[j].trace_id@ == t && spans[j].status_code@ == "ERROR"@);
    }
    if some_error_span(spans, t) {
        let j = choose|j: int| 0 <= j < spans.len() && (#[trigger] spans[j]).trace_id@ == t && spans[j].status_code@ == "ERROR"@;
        assert(spans[j].status_code@ == "ERROR"@ && spans[j].trace_id@ == t);
    }
}

/// `--errors-only` keeps whole traces: a span is kept exactly when some
/// span of its trace, anywhere in the list, has status ERROR.
pub proof fn law_errors_only_keeps_whole_traces(spans: Seq<FlatSpan>, cands: Seq<FlatSpan>, x: FlatSpan)
    ensures
        error_trace_spans(spans, cands).contains(x) <==> (cands.contains(x) && some_error_span(
            spans,
            x.trace_id@,
        )),
{
    lemma_trace_has_error_iff(spans, x.trace_id@);
    lemma_error_trace_spans(spans, cands, x);
}

proof fn lemma_error_trace_spans(spans: Seq<FlatSpan>, cands: Seq<FlatSpan>, x: FlatSpan)
    ensures
        error_trace_spans(spans, cands).contains(x) <==> (cands.contains(x) && trace_has_error(
            spans,
            x.trace_id@,
        )),
    decreases cands.len(),
{
    if cands.len() > 0 {
        let init = cands.drop_last();
        lemma_error_trace_spans(spans, init, x);
        let r = error_trace_spans(spans, cands);
        let ri = error_trace_spans(spans, init);
        if ri.contains(x) {
            let q = choose|q: int| 0 <= q < ri.len() && ri[q] == x;
            assert(r[q] == x);
            let k = choose|k: int| 0 <= k < init.len() && init[k] == x;
            assert(cands[k] == x);
        }
        if r.contains(x) && !ri.contains(x) {
            let q = choose|q: int| 0 <= q < r.len() && r[q] == x;
            if q < ri.len() {
                assert(ri[q] == x);
            }
            assert(x == cands.last());
            assert(cands[cands.len() - 1] == x);
        }
        if cands.contains(x) && trace_has_error(spans, x.trace_id@) {
            let k = choose|k: int| 0 <= k < cands.len() && cands[k] == x;
            if k < init.len() {
                assert(init[k] == x);
            } else {
                assert(r[r.len() - 1] == x);
            }
        }
    }
}

} // verus!
