//! A model of the JSON values that difficulty tables are read from, lookups into
//! it, and its compact JSON text.
use crate::digest::{hex_digit, hex_digit_exec};
use crate::text::{chars_eq, chars_to_string, str_to_chars};
use vstd::prelude::*;

verus! {

/// A JSON value. Numbers are held as the text that represents them; an object's
/// members are held in order (a parsed object lists each key once, in key order).
pub enum JsonValue {
    Null,
    Bool(bool),
    Number(String),
    Str(String),
    Array(Vec<JsonValue>),
    Object(Vec<(String, JsonValue)>),
}

// ---------------------------------------------------------------------
// Specification

/// The value of the first member named `key`.
pub open spec fn member_lookup(m: Seq<(String, JsonValue)>, key: Seq<char>) -> Option<JsonValue>
    decreases m.len(),
{
    if m.len() == 0 {
        None
    } else if m[0].0@ == key {
        Some(m[0].1)
    } else {
        member_lookup(m.drop_first(), key)
    }
}

/// `Value::get` with a string key: the member of an object, `None` for other values.
pub open spec fn json_get(v: JsonValue, key: Seq<char>) -> Option<JsonValue> {
    match v {
        JsonValue::Object(m) => member_lookup(m@, key),
        _ => None,
    }
}

/// `Value::as_str`.
pub open spec fn json_str(v: JsonValue) -> Option<Seq<char>> {
    match v {
        JsonValue::Str(s) => Some(s@),
        _ => None,
    }
}

/// `Value::as_array`.
pub open spec fn json_items(v: JsonValue) -> Option<Seq<JsonValue>> {
    match v {
        JsonValue::Array(a) => Some(a@),
        _ => None,
    }
}

/// The JSON escape of one character inside a string.
pub open spec fn escape_char(c: char) -> Seq<char> {
    if c == '"' {
        seq!['\\', '"']
    } else if c == '\\' {
        seq!['\\', '\\']
    } else if c == '\x08' {
        seq!['\\', 'b']
    } else if c == '\t' {
        seq!['\\', 't']
    } else if c == '\n' {
        seq!['\\', 'n']
    } else if c == '\x0C' {
        seq!['\\', 'f']
    } else if c == '\r' {
        seq!['\\', 'r']
    } else if (c as u32) < 0x20 {
        seq!['\\', 'u', '0', '0', hex_digit(((c as u32) / 16) as u8), hex_digit(((c as u32) % 16) as u8)]
    } else {
        seq![c]
    }
}

pub open spec fn escape_str(s: Seq<char>) -> Seq<char>
    decreases s.len(),
{
    if s.len() == 0 {
        seq![]
    } else {
        escape_str(s.drop_last()) + escape_char(s.last())
    }
}

/// A JSON string literal.
pub open spec fn quoted(s: Seq<char>) -> Seq<char> {
    seq!['"'] + escape_str(s) + seq!['"']
}

/// The compact JSON text of a value (`serde_json::to_string`).
pub open spec fn json_text(v: JsonValue) -> Seq<char>
    decreases v,
{
    match v {
        JsonValue::Null => seq!['n', 'u', 'l', 'l'],
        JsonValue::Bool(b) => if b {
            seq!['t', 'r', 'u', 'e']
        } else {
            seq!['f', 'a', 'l', 's', 'e']
        },
        JsonValue::Number(n) => n@,
        JsonValue::Str(s) => quoted(s@),
        JsonValue::Array(a) => seq!['['] + items_text(a@) + seq![']'],
        JsonValue::Object(m) => seq!['{'] + members_text(m@) + seq!['}'],
    }
}

/// The comma-separated texts of array items.
pub open spec fn items_text(s: Seq<JsonValue>) -> Seq<char>
    decreases s,
{
    if s.len() == 0 {
        seq![]
    } else if s.len() == 1 {
        json_text(s[0])
    } else {
        items_text(s.drop_last()) + seq![','] + json_text(s.last())
    }
}

/// The comma-separated `"key":value` texts of object members.
pub open spec fn members_text(m: Seq<(String, JsonValue)>) -> Seq<char>
    decreases m,
{
    if m.len() == 0 {
        seq![]
    } else if m.len() == 1 {
        quoted(m[0].0@) + seq![':'] + json_text(m[0].1)
    } else {
        members_text(m.drop_last()) + seq![','] + quoted(m.last().0@) + seq![':'] + json_text(
            m.last().1,
        )
    }
}

// ---------------------------------------------------------------------
// Implementation

/// `Value::get` with a string key.
pub fn json_get_exec<'a>(v: &'a JsonValue, key: &str) -> (r: Option<&'a JsonValue>)
    ensures
        match r {
            Some(x) => json_get(*v, key@) == Some(*x),
            None => json_get(*v, key@) is None,
        },
{
    match v {
        JsonValue::Object(m) => {
            let mut i: usize = 0;
            let k = str_to_chars(key);
            assert(m@.skip(0) =~= m@);
            while i < m.len()
                invariant
                    *v is Object,
                    *m == v->Object_0,
                    k@ == key@,
                    i <= m@.len(),
                    member_lookup(m@, key@) == member_lookup(m@.skip(i as int), key@),
                decreases m@.len() - i,
            {
                assert(m@.skip(i as int)[0] == m@[i as int]);
                assert(m@.skip(i as int).drop_first() =~= m@.skip(i + 1));
                if chars_eq(&str_to_chars(m[i].0.as_str()), &k) {
                    assert(m@.skip(i as int)[0].0@ == key@);
                    assert(member_lookup(m@.skip(i as int), key@) == Some(m@[i as int].1));
                    assert(json_get(*v, key@) == member_lookup(m@, key@));
                    return Some(&m[i].1);
                }
                i += 1;
            }
            None
        },
        _ => None,
    }
}

/// `Value::as_str`.
pub fn json_as_str(v: &JsonValue) -> (r: Option<&String>)
    ensures
        match r {
            Some(s) => json_str(*v) == Some(s@),
            None => json_str(*v) is None,
        },
{
    match v {
        JsonValue::Str(s) => Some(s),
        _ => None,
    }
}

/// `Value::as_array`.
pub fn json_as_array(v: &JsonValue) -> (r: Option<&Vec<JsonValue>>)
    ensures
        match r {
            Some(a) => json_items(*v) == Some(a@),
            None => json_items(*v) is None,
        },
{
    match v {
        JsonValue::Array(a) => Some(a),
        _ => None,
    }
}

fn push_str_chars(out: &mut Vec<char>, s: &str)
    ensures
        final(out)@ == old(out)@ + s@,
{
    let v = str_to_chars(s);
    let mut i: usize = 0;
    let ghost base = out@;
    while i < v.len()
        invariant
            i <= v.len(),
            out@ == base + v@.take(i as int),
        decreases v.len() - i,
    {
        out.push(v[i]);
        i += 1;
        assert(out@ =~= base + v@.take(i as int));
    }
    assert(v@.take(v.len() as int) =~= v@);
}

fn write_escaped_char(out: &mut Vec<char>, c: char)
    ensures
        final(out)@ == old(out)@ + escape_char(c),
{
    let ghost base = out@;
    if c == '"' {
        out.push('\\');
        out.push('"');
    } else if c == '\\' {
        out.push('\\');
        out.push('\\');
    } else if c == '\x08' {
        out.push('\\');
        out.push('b');
    } else if c == '\t' {
        out.push('\\');
        out.push('t');
    } else if c == '\n' {
        out.push('\\');
        out.push('n');
    } else if c == '\x0C' {
        out.push('\\');
        out.push('f');
    } else if c == '\r' {
        out.push('\\');
        out.push('r');
    } else if (c as u32) < 0x20 {
        let b = (c as u32) as u8;
        out.push('\\');
        out.push('u');
        out.push('0');
        out.push('0');
        out.push(hex_digit_exec(b / 16));
        out.push(hex_digit_exec(b % 16));
        assert(b / 16 == ((c as u32) / 16) as u8);
        assert(b % 16 == ((c as u32) % 16) as u8);
    } else {
        out.push(c);
    }
    assert(out@ =~= base + escape_char(c));
}

fn write_quoted(out: &mut Vec<char>, s: &String)
    ensures
        final(out)@ == old(out)@ + quoted(s@),
{
    let ghost base = out@;
    let v = str_to_chars(s.as_str());
    out.push('"');
    let mut i: usize = 0;
    while i < v.len()
        invariant
            i <= v.len(),
            out@ == base + seq!['"'] + escape_str(v@.take(i as int)),
        decreases v.len() - i,
    {
        assert(v@.take(i + 1).drop_last() =~= v@.take(i as int));
        write_escaped_char(out, v[i]);
        i += 1;
        assert(out@ =~= base + seq!['"'] + escape_str(v@.take(i as int)));
    }
    assert(v@.take(v.len() as int) =~= v@);
    out.push('"');
    assert(out@ =~= base + quoted(s@));
}

/// Appends the compact JSON text of `v`.
pub fn write_json(v: &JsonValue, out: &mut Vec<char>)
    ensures
        final(out)@ == old(out)@ + json_text(*v),
    decreases v,
{
    let ghost base = out@;
    match v {
        JsonValue::Null => {
            push_str_chars(out, "null");
            proof {
                reveal_strlit("null");
            }
            assert(out@ =~= base + json_text(*v));
        },
        JsonValue::Bool(b) => {
            if *b {
                push_str_chars(out, "true");
                proof {
                    reveal_strlit("true");
                }
            } else {
                push_str_chars(out, "false");
                proof {
                    reveal_strlit("false");
                }
            }
            assert(out@ =~= base + json_text(*v));
        },
        JsonValue::Number(n) => {
            push_str_chars(out, n.as_str());
        },
        JsonValue::Str(s) => {
            write_quoted(out, s);
        },
        JsonValue::Array(a) => {
            out.push('[');
            let mut i: usize = 0;
            while i < a.len()
                invariant
                    *v is Array,
                    *a == v->Array_0,
                    i <= a@.len(),
                    out@ == base + seq!['['] + items_text(a@.take(i as int)),
                decreases a@.len() - i,
            {
                assert(a@.take(i + 1).drop_last() =~= a@.take(i as int));
                if i > 0 {
                    out.push(',');
                }
                proof {
                    assert(*v is Array);
                    assert(*a == v->Array_0);
                    assert(decreases_to!(*v => v->Array_0));
                    assert(decreases_to!(v->Array_0 => (v->Array_0)@));
                    assert(decreases_to!((v->Array_0)@ => (v->Array_0)@[i as int]));
                }
                write_json(&a[i], out);
                i += 1;
                assert(out@ =~= base + seq!['['] + items_text(a@.take(i as int)));
            }
            assert(a@.take(a@.len() as int) =~= a@);
            out.push(']');
            assert(out@ =~= base + json_text(*v));
        },
        JsonValue::Object(m) => {
            out.push('{');
            let mut i: usize = 0;
            while i < m.len()
                invariant
                    *v is Object,
                    *m == v->Object_0,
                    i <= m@.len(),
                    out@ == base + seq!['{'] + members_text(m@.take(i as int)),
                decreases m@.len() - i,
            {
                assert(m@.take(i + 1).drop_last() =~= m@.take(i as int));
                if i > 0 {
                    out.push(',');
                }
                write_quoted(out, &m[i].0);
                out.push(':');
                proof {
                    assert(*v is Object);
                    assert(*m == v->Object_0);
                    assert(decreases_to!(*v => v->Object_0));
                    assert(decreases_to!(v->Object_0 => (v->Object_0)@));
                    assert(decreases_to!((v->Object_0)@ => (v->Object_0)@[i as int]));
                    assert(decreases_to!((v->Object_0)@[i as int] => (v->Object_0)@[i as int].1));
                }
                write_json(&m[i].1, out);
                i += 1;
                assert(out@ =~= base + seq!['{'] + members_text(m@.take(i as int)));
            }
            assert(m@.take(m@.len() as int) =~= m@);
            out.push('}');
            assert(out@ =~= base + json_text(*v));
        },
    }
}

/// `serde_json::to_string` of the value: its compact JSON text.
pub fn to_raw_json(v: &JsonValue) -> (r: String)
    ensures
        r@ == json_text(*v),
{
    let mut out: Vec<char> = Vec::new();
    write_json(v, &mut out);
    assert(out@ =~= json_text(*v));
    chars_to_string(&out)
}

}
