//! A JSON value as the library reads it, and its compact JSON text.

use vstd::prelude::*;
use vstd::string::*;
use crate::text::{push_char, decimal, push_decimal, join, lemma_join_push, hex_char, hex_digit, str_eq};

verus! {

/// A JSON number: an unsigned integer, or any other number (negative
/// or fractional), held by the JSON text that serde_json prints for it.
#[derive(Debug)]
pub enum JsonNumber {
    Unsigned(u64),
    Other(String),
}

/// A JSON value. An object holds its members in document order; a key
/// is looked up at its first occurrence.
#[derive(Debug)]
pub enum JsonValue {
    Null,
    Bool(bool),
    Number(JsonNumber),
    String(String),
    Array(Vec<JsonValue>),
    Object(Vec<(String, JsonValue)>),
}

/// How one character appears inside a JSON string literal.
pub open spec fn escape_char(c: char) -> Seq<char> {
    if c == '"' {
        seq!['\\', '"']
    } else if c == '\\' {
        seq!['\\', '\\']
    } else if c == '\u{8}' {
        seq!['\\', 'b']
    } else if c == '\t' {
        seq!['\\', 't']
    } else if c == '\n' {
        seq!['\\', 'n']
    } else if c == '\u{c}' {
        seq!['\\', 'f']
    } else if c == '\r' {
        seq!['\\', 'r']
    } else if (c as u32) < 0x20 {
        seq!['\\', 'u', '0', '0', hex_char(((c as u32) / 16) as nat), hex_char(((c as u32) % 16) as nat)]
    } else {
        seq![c]
    }
}

pub open spec fn escaped(s: Seq<char>) -> Seq<char>
    decreases s.len(),
{
    if s.len() == 0 {
        Seq::empty()
    } else {
        escaped(s.drop_last()) + escape_char(s.last())
    }
}

/// A JSON string literal for `s`.
pub open spec fn quoted(s: Seq<char>) -> Seq<char> {
    seq!['"'] + escaped(s) + seq!['"']
}

/// The compact JSON text of a value (what serde_json's `Value::to_string` prints:
/// keywords, integers in decimal, other numbers as serde_json gave their text,
/// strings with the escapes of `escape_char`, no spaces). The value is the
/// library's own type, not a `serde_json::Value`, so its text is written here.
pub open spec fn json_text(v: JsonValue) -> Seq<char>
    decreases v,
{
    match v {
        JsonValue::Null => "null"@,
        JsonValue::Bool(b) => if b { "true"@ } else { "false"@ },
        JsonValue::Number(JsonNumber::Unsigned(n)) => decimal(n as nat),
        JsonValue::Number(JsonNumber::Other(t)) => t@,
        JsonValue::String(s) => quoted(s@),
        JsonValue::Array(items) => seq!['['] + join(items_texts(items@), seq![',']) + seq![']'],
        JsonValue::Object(members) => seq!['{'] + join(members_texts(members@), seq![',']) + seq![
            '}',
        ],
    }
}

pub open spec fn items_texts(items: Seq<JsonValue>) -> Seq<Seq<char>>
    decreases items,
{
    if items.len() == 0 {
        Seq::empty()
    } else {
        items_texts(items.drop_last()).push(json_text(items.last()))
    }
}

pub open spec fn member_text(m: (String, JsonValue)) -> Seq<char>
    decreases m,
{
    quoted(m.0@) + seq![':'] + json_text(m.1)
}

pub open spec fn members_texts(members: Seq<(String, JsonValue)>) -> Seq<Seq<char>>
    decreases members,
{
    if members.len() == 0 {
        Seq::empty()
    } else {
        members_texts(members.drop_last()).push(member_text(members.last()))
    }
}

/// The index of the first member named `key`.
pub open spec fn member_index(members: Seq<(String, JsonValue)>, key: Seq<char>) -> Option<int>
    decreases members.len(),
{
    if members.len() == 0 {
        None
    } else {
        match member_index(members.drop_last(), key) {
            Some(i) => Some(i),
            None => if members.last().0@ == key {
                Some(members.len() - 1)
            } else {
                None
            },
        }
    }
}

pub proof fn lemma_member_index(members: Seq<(String, JsonValue)>, key: Seq<char>)
    ensures
        member_index(members, key) matches Some(i) ==> 0 <= i < members.len() && members[i].0@
            == key && forall|j: int| 0 <= j < i ==> members[j].0@ != key,
        member_index(members, key) is None ==> forall|j: int|
            0 <= j < members.len() ==> members[j].0@ != key,
    decreases members.len(),
{
    if members.len() > 0 {
        let init = members.drop_last();
        lemma_member_index(init, key);
        assert forall|j: int| 0 <= j < init.len() implies init[j] == members[j] by {}
    }
}

/// `v[key]` as serde_json's `Value::get` gives it: the member of an object.
pub open spec fn json_get(v: JsonValue, key: Seq<char>) -> Option<JsonValue> {
    match v {
        JsonValue::Object(members) => match member_index(members@, key) {
            Some(i) => Some(members@[i].1),
            None => None,
        },
        _ => None,
    }
}

/// The string inside `v`, if it is a string.
pub open spec fn json_str(v: JsonValue) -> Option<Seq<char>> {
    match v {
        JsonValue::String(s) => Some(s@),
        _ => None,
    }
}

/// Finds the first member named `key`.
pub fn find_member(members: &Vec<(String, JsonValue)>, key: &str) -> (r: Option<usize>)
    ensures
        match r {
            Some(i) => member_index(members@, key@) == Some(i as int),
            None => member_index(members@, key@) is None,
        },
{
    let k = String::from_str(key);
    let mut i: usize = 0;
    proof {
        lemma_member_index(members@, key@);
    }
    while i < members.len()
        invariant
            i <= members@.len(),
            k@ == key@,
            forall|j: int| 0 <= j < i ==> members@[j].0@ != key@,
        decreases members.len() - i,
    {
        if members[i].0 == k {
            proof {
                lemma_member_index(members@, key@);
                if let Some(x) = member_index(members@, key@) {
                    assert(x == i);
                } else {
                    assert(members@[i as int].0@ == key@);
                }
            }
            return Some(i);
        }
        i = i + 1;
    }
    proof {
        lemma_member_index(members@, key@);
    }
    None
}

/// `v[key]`: the first member of an object named `key`.
pub fn get<'a>(v: &'a JsonValue, key: &str) -> (r: Option<&'a JsonValue>)
    ensures
        match r {
            Some(x) => json_get(*v, key@) == Some(*x),
            None => json_get(*v, key@) is None,
        },
{
    match v {
        JsonValue::Object(members) => match find_member(members, key) {
            Some(i) => {
                proof {
                    lemma_member_index(members@, key@);
                }
                Some(&members[i].1)
            },
            None => None,
        },
        _ => None,
    }
}

fn push_escaped_char(out: &mut String, c: char)
    ensures
        final(out)@ == old(out)@ + escape_char(c),
{
    if c == '"' {
        out.append("\\\"");
    } else if c == '\\' {
        out.append("\\\\");
    } else if c == '\u{8}' {
        out.append("\\b");
    } else if c == '\t' {
        out.append("\\t");
    } else if c == '\n' {
        out.append("\\n");
    } else if c == '\u{c}' {
        out.append("\\f");
    } else if c == '\r' {
        out.append("\\r");
    } else if (c as u32) < 0x20 {
        let code = c as u32;
        out.append("\\u00");
        push_char(out, hex_digit((code / 16) as u8));
        push_char(out, hex_digit((code % 16) as u8));
    } else {
        push_char(out, c);
    }
    proof {
        reveal_strlit("\\\"");
        reveal_strlit("\\\\");
        reveal_strlit("\\b");
        reveal_strlit("\\t");
        reveal_strlit("\\n");
        reveal_strlit("\\f");
        reveal_strlit("\\r");
        reveal_strlit("\\u00");
        assert(final(out)@ =~= old(out)@ + escape_char(c));
    }
}

/// Appends the JSON string literal for `s`.
pub fn push_quoted(out: &mut String, s: &str)
    ensures
        final(out)@ == old(out)@ + quoted(s@),
{
    let ghost start = out@;
    push_char(out, '"');
    for c in it: s.chars()
        invariant
            it.seq() == s@,
            out@ == start + seq!['"'] + escaped(it.seq().take(it.index() as int)),
    {
        let ghost i = it.index();
        push_escaped_char(out, c);
        proof {
            assert(it.seq().take(i + 1).drop_last() =~= it.seq().take(i as int));
            assert(out@ =~= start + seq!['"'] + escaped(it.seq().take(i + 1)));
        }
    }
    push_char(out, '"');
    proof {
        assert(s@.take(s@.len() as int) =~= s@);
        assert(final(out)@ =~= start + quoted(s@));
    }
}

proof fn lemma_items_texts_take(items: Seq<JsonValue>, i: int)
    requires
        0 <= i < items.len(),
    ensures
        items_texts(items.take(i + 1)) == items_texts(items.take(i)).push(json_text(items[i])),
{
    assert(items.take(i + 1).drop_last() =~= items.take(i));
}

proof fn lemma_members_texts_take(members: Seq<(String, JsonValue)>, i: int)
    requires
        0 <= i < members.len(),
    ensures
        members_texts(members.take(i + 1)) == members_texts(members.take(i)).push(
            member_text(members[i]),
        ),
{
    assert(members.take(i + 1).drop_last() =~= members.take(i));
}

pub proof fn lemma_items_texts_len(items: Seq<JsonValue>)
    ensures
        items_texts(items).len() == items.len(),
    decreases items.len(),
{
    if items.len() > 0 {
        lemma_items_texts_len(items.drop_last());
    }
}

pub proof fn lemma_members_texts_len(members: Seq<(String, JsonValue)>)
    ensures
        members_texts(members).len() == members.len(),
    decreases members.len(),
{
    if members.len() > 0 {
        lemma_members_texts_len(members.drop_last());
    }
}

/// Appends the compact JSON text of `v`.
pub fn push_json_text(out: &mut String, v: &JsonValue)
    ensures
        final(out)@ == old(out)@ + json_text(*v),
    decreases v,
{
    let ghost start = out@;
    match v {
        JsonValue::Null => {
            out.append("null");
        },
        JsonValue::Bool(b) => {
            if *b {
                out.append("true");
            } else {
                out.append("false");
            }
        },
        JsonValue::Number(JsonNumber::Unsigned(n)) => {
            push_decimal(out, *n);
        },
        JsonValue::Number(JsonNumber::Other(t)) => {
            out.append(t.as_str());
        },
        JsonValue::String(s) => {
            push_quoted(out, s.as_str());
        },
        JsonValue::Array(items) => {
            push_char(out, '[');
            let mut i: usize = 0;
            while i < items.len()
                invariant
                    *v == JsonValue::Array(*items),
                    i <= items@.len(),
                    out@ == start + seq!['['] + join(items_texts(items@.take(i as int)), seq![',']),
                decreases items.len() - i,
            {
                proof {
                    lemma_items_texts_take(items@, i as int);
                    lemma_items_texts_len(items@.take(i as int));
                    lemma_join_push(
                        items_texts(items@.take(i as int)),
                        seq![','],
                        json_text(items@[i as int]),
                    );
                }
                if i > 0 {
                    push_char(out, ',');
                }
                proof {
                    assert(decreases_to!(*v => (*v)->Array_0));
                    assert((*v)->Array_0 == *items);
                    assert(decreases_to!(items => items@));
                    assert(decreases_to!(items@ => items@[i as int]));
                }
                push_json_text(out, &items[i]);
                proof {
                    assert(out@ =~= start + seq!['['] + join(
                        items_texts(items@.take(i + 1)),
                        seq![','],
                    ));
                }
                i = i + 1;
            }
            push_char(out, ']');
            proof {
                assert(items@.take(items@.len() as int) =~= items@);
            }
        },
        JsonValue::Object(members) => {
            push_char(out, '{');
            let mut i: usize = 0;
            while i < members.len()
                invariant
                    *v == JsonValue::Object(*members),
                    i <= members@.len(),
                    out@ == start + seq!['{'] + join(
                        members_texts(members@.take(i as int)),
                        seq![','],
                    ),
                decreases members.len() - i,
            {
                proof {
                    lemma_members_texts_take(members@, i as int);
                    lemma_members_texts_len(members@.take(i as int));
                    lemma_join_push(
                        members_texts(members@.take(i as int)),
                        seq![','],
                        member_text(members@[i as int]),
                    );
                }
                if i > 0 {
                    push_char(out, ',');
                }
                push_quoted(out, members[i].0.as_str());
                push_char(out, ':');
                proof {
                    assert(decreases_to!(*v => (*v)->Object_0));
                    assert((*v)->Object_0 == *members);
                    assert(decreases_to!(members => members@));
                    assert(decreases_to!(members@ => members@[i as int]));
                    assert(decreases_to!(members@[i as int] => members@[i as int].1));
                }
                push_json_text(out, &members[i].1);
                proof {
                    assert(out@ =~= start + seq!['{'] + join(
                        members_texts(members@.take(i + 1)),
                        seq![','],
                    ));
                }
                i = i + 1;
            }
            push_char(out, '}');
            proof {
                assert(members@.take(members@.len() as int) =~= members@);
            }
        },
    }
    proof {
        assert(final(out)@ =~= start + json_text(*v));
    }
}

/// The compact JSON text of `v`.
pub fn to_json_string(v: &JsonValue) -> (r: String)
    ensures
        r@ == json_text(*v),
{
    let mut out = String::new();
    push_json_text(&mut out, v);
    proof {
        assert(out@ =~= json_text(*v));
    }
    out
}

} // verus!
