//! Compact JSON text, and that reading it gives back what was written.

use vstd::prelude::*;
use crate::json::array_at;
use crate::json::char_at;
use crate::json::document;
use crate::json::escape_at;
use crate::json::hex4;
use crate::json::hex_value;
use crate::json::is_ws;
use crate::json::items_at;
use crate::json::items_view;
use crate::json::lemma_array_view;
use crate::json::lemma_object_view;
use crate::json::lemma_skip_ws;
use crate::json::lookup;
use crate::json::number_at;
use crate::json::member_at;
use crate::json::members_at;
use crate::json::members_view;
use crate::json::object_at;
use crate::json::skip_ws;
use crate::json::string_at;
use crate::json::string_body;
use crate::json::value_at;
use crate::json::Json;
use crate::json::Value;
use crate::number::at;
use crate::number::ends_number;
use crate::number::is_digit;
use crate::number::is_number;
use crate::number::lemma_scan_alone;
use crate::number::lemma_scan_more;
use crate::number::scan;
use crate::strings::chars_of;

verus! {

/// The hexadecimal digit that counts `d`.
pub open spec fn hex_char(d: int) -> char {
    if d < 10 {
        (48 + d) as char
    } else {
        (87 + d) as char
    }
}

/// A character as it is written inside a string.
pub open spec fn escape_char(c: char) -> Seq<char> {
    if c == '\\' {
        seq!['\\', '\\']
    } else if c == '"' {
        seq!['\\', '"']
    } else if c == '\n' {
        seq!['\\', 'n']
    } else if c == '\r' {
        seq!['\\', 'r']
    } else if c == '\t' {
        seq!['\\', 't']
    } else if c <= '\u{1f}' {
        seq!['\\', 'u', '0', '0', hex_char(c as int / 16), hex_char(c as int % 16)]
    } else {
        seq![c]
    }
}

/// A text as it is written inside a string.
pub open spec fn escaped(s: Seq<char>) -> Seq<char>
    decreases s.len(),
{
    if s.len() == 0 {
        Seq::empty()
    } else {
        escape_char(s[0]) + escaped(s.skip(1))
    }
}

/// A string in quotes.
pub open spec fn quoted(s: Seq<char>) -> Seq<char> {
    seq!['"'] + escaped(s) + seq!['"']
}

/// The compact text of a value.
pub open spec fn value_text(v: Value) -> Seq<char>
    decreases v,
{
    match v {
        Value::Null => "null"@,
        Value::Bool(b) => if b {
            "true"@
        } else {
            "false"@
        },
        Value::Num(t) => t,
        Value::Str(t) => quoted(t),
        Value::Arr(items) => seq!['['] + items_text(items) + seq![']'],
        Value::Obj(m) => seq!['{'] + members_text(m) + seq!['}'],
    }
}

/// Items with commas between them.
pub open spec fn items_text(items: Seq<Value>) -> Seq<char>
    decreases items,
{
    if items.len() == 0 {
        Seq::empty()
    } else if items.len() == 1 {
        value_text(items[0])
    } else {
        value_text(items[0]) + seq![','] + items_text(items.skip(1))
    }
}

/// Members with commas between them.
pub open spec fn members_text(m: Seq<(Seq<char>, Value)>) -> Seq<char>
    decreases m,
{
    if m.len() == 0 {
        Seq::empty()
    } else if m.len() == 1 {
        quoted(m[0].0) + seq![':'] + value_text(m[0].1)
    } else {
        quoted(m[0].0) + seq![':'] + value_text(m[0].1) + seq![','] + members_text(m.skip(1))
    }
}

/// The text of a number that a document may hold.
pub open spec fn number_text(t: Seq<char>) -> bool {
    is_number(t) && (t[0] == '-' || is_digit(t[0]))
}

/// Every number in the value is one that a document may hold.
pub open spec fn printable(v: Value) -> bool
    decreases v,
{
    match v {
        Value::Num(t) => number_text(t),
        Value::Arr(items) => printable_items(items),
        Value::Obj(m) => printable_members(m),
        _ => true,
    }
}

pub open spec fn printable_items(items: Seq<Value>) -> bool
    decreases items,
{
    items.len() > 0 ==> printable(items[0]) && printable_items(items.skip(1))
}

pub open spec fn printable_members(m: Seq<(Seq<char>, Value)>) -> bool
    decreases m,
{
    m.len() > 0 ==> printable(m[0].1) && printable_members(m.skip(1))
}

/// An escaped character is read back, whatever follows it.
proof fn lemma_escape_char(c: char, rest: Seq<char>)
    ensures
        char_at(escape_char(c) + rest) == Some((c, escape_char(c).len() as int)),
        !at(escape_char(c) + rest, 0, '"'),
        (escape_char(c) + rest).skip(escape_char(c).len() as int) == rest,
{
    let e = escape_char(c);
    let s = e + rest;
    assert(s.skip(e.len() as int) == rest);
    if e[0] == '\\' {
        let t = s.skip(1);
        assert(t[0] == e[1]);
        if e.len() == 6 {
            let h = t.skip(1);
            assert(h[0] == e[2]);
            assert(h[1] == e[3]);
            assert(h[2] == e[4]);
            assert(h[3] == e[5]);
            let n = c as int;
            assert(n / 16 <= 1);
            assert(hex_value(hex_char(n / 16)) == Some(n / 16));
            assert(hex_value(hex_char(n % 16)) == Some(n % 16));
            assert(hex4(h) == Some(n));
        }
    }
}

/// A string is read back, whatever follows it.
proof fn lemma_string_body(t: Seq<char>, rest: Seq<char>)
    ensures
        string_body(escaped(t) + seq!['"'] + rest) == Some((t, rest)),
    decreases t.len(),
{
    let s = escaped(t) + seq!['"'] + rest;
    if t.len() == 0 {
        assert(s[0] == '"');
        assert(s.skip(1) == rest);
        assert(t == Seq::<char>::empty());
    } else {
        let u = escaped(t.skip(1)) + seq!['"'] + rest;
        lemma_string_body(t.skip(1), rest);
        assert(s == escape_char(t[0]) + u);
        lemma_escape_char(t[0], u);
        assert(seq![t[0]] + t.skip(1) == t);
    }
}

/// A string in quotes is read back, whatever follows it.
pub proof fn lemma_quoted(t: Seq<char>, rest: Seq<char>)
    ensures
        string_at(quoted(t) + rest) == Some((t, rest)),
        at(quoted(t) + rest, 0, '"'),
{
    let s = quoted(t) + rest;
    assert(s[0] == '"');
    assert(s.skip(1) == escaped(t) + seq!['"'] + rest);
    lemma_string_body(t, rest);
}

/// What may follow a value.
pub open spec fn ends_value(s: Seq<char>) -> bool {
    s.len() > 0 ==> s[0] == ',' || s[0] == ']' || s[0] == '}'
}

proof fn lemma_no_ws(s: Seq<char>)
    requires
        s.len() > 0 ==> !is_ws(s[0]),
    ensures
        skip_ws(s) == s,
{
    lemma_skip_ws(s);
}

/// The first character of a value.
proof fn lemma_first(v: Value)
    requires
        printable(v),
    ensures
        value_text(v).len() > 0,
        !is_ws(value_text(v)[0]),
        value_text(v)[0] != ']',
        match v {
            Value::Null => value_text(v)[0] == 'n',
            Value::Bool(true) => value_text(v)[0] == 't',
            Value::Bool(false) => value_text(v)[0] == 'f',
            Value::Num(t) => t[0] == '-' || is_digit(t[0]),
            Value::Str(_) => value_text(v)[0] == '"',
            Value::Arr(_) => value_text(v)[0] == '[',
            Value::Obj(_) => value_text(v)[0] == '{',
        },
{
    reveal_strlit("null");
    reveal_strlit("true");
    reveal_strlit("false");
}

/// The text of any value is read back as that value, whatever follows it that
/// may follow a value.
pub proof fn lemma_value_read_back(v: Value, rest: Seq<char>)
    requires
        printable(v),
        ends_value(rest),
    ensures
        value_at(value_text(v) + rest) == Some((v, rest)),
    decreases v, 0int,
{
    let w = value_text(v);
    let s = w + rest;
    lemma_first(v);
    assert(s[0] == w[0]);
    lemma_no_ws(s);
    match v {
        Value::Num(t) => {
            assert(ends_number(rest));
            lemma_scan_more(t, rest);
            assert(s.take(t.len() as int) == t);
            assert(s.skip(t.len() as int) == rest);
        },
        Value::Str(t) => {
            lemma_quoted(t, rest);
        },
        Value::Arr(items) => {
            lemma_array_read_back(items, rest);
        },
        Value::Obj(m) => {
            lemma_object_read_back(m, rest);
        },
        _ => {
            reveal_strlit("null");
            reveal_strlit("true");
            reveal_strlit("false");
            assert(s.skip(w.len() as int) == rest);
            assert(w.is_prefix_of(s));
        },
    }
}

proof fn lemma_array_read_back(items: Seq<Value>, rest: Seq<char>)
    requires
        printable_items(items),
    ensures
        array_at(value_text(Value::Arr(items)) + rest) == Some((Value::Arr(items), rest)),
    decreases items, 2int,
{
    let s = value_text(Value::Arr(items)) + rest;
    let u = items_text(items) + seq![']'] + rest;
    assert(s[0] == '[');
    assert(s.skip(1) == u);
    if items.len() == 0 {
        assert(u[0] == ']');
        assert(u.skip(1) == rest);
        lemma_no_ws(u);
        assert(items == Seq::<Value>::empty());
    } else {
        lemma_first(items[0]);
        assert(u[0] == value_text(items[0])[0]);
        lemma_no_ws(u);
        lemma_items_read_back(items, rest);
    }
}

proof fn lemma_items_read_back(items: Seq<Value>, rest: Seq<char>)
    requires
        printable_items(items),
        items.len() > 0,
    ensures
        items_at(items_text(items) + seq![']'] + rest) == Some((items, rest)),
    decreases items, 1int,
{
    let s = items_text(items) + seq![']'] + rest;
    let w = value_text(items[0]);
    if items.len() == 1 {
        let r = seq![']'] + rest;
        assert(s == w + r);
        lemma_value_read_back(items[0], r);
        lemma_no_ws(r);
        assert(r.skip(1) == rest);
        assert(seq![items[0]] == items);
    } else {
        let more = items_text(items.skip(1)) + seq![']'] + rest;
        let r = seq![','] + more;
        assert(s == w + r);
        lemma_value_read_back(items[0], r);
        lemma_no_ws(r);
        assert(r.skip(1) == more);
        lemma_items_read_back(items.skip(1), rest);
        assert(seq![items[0]] + items.skip(1) == items);
    }
}

proof fn lemma_object_read_back(m: Seq<(Seq<char>, Value)>, rest: Seq<char>)
    requires
        printable_members(m),
    ensures
        object_at(value_text(Value::Obj(m)) + rest) == Some((Value::Obj(m), rest)),
    decreases m, 2int,
{
    let s = value_text(Value::Obj(m)) + rest;
    let u = members_text(m) + seq!['}'] + rest;
    assert(s[0] == '{');
    assert(s.skip(1) == u);
    if m.len() == 0 {
        assert(u[0] == '}');
        assert(u.skip(1) == rest);
        lemma_no_ws(u);
        assert(m == Seq::<(Seq<char>, Value)>::empty());
    } else {
        assert(u[0] == '"');
        lemma_no_ws(u);
        lemma_members_read_back(m, rest);
    }
}

proof fn lemma_member_read_back(kv: (Seq<char>, Value), r: Seq<char>)
    requires
        printable(kv.1),
        ends_value(r),
    ensures
        member_at(quoted(kv.0) + seq![':'] + value_text(kv.1) + r) == Some((kv, r)),
    decreases kv, 1int,
{
    let s = quoted(kv.0) + seq![':'] + value_text(kv.1) + r;
    let c = seq![':'] + (value_text(kv.1) + r);
    assert(s == quoted(kv.0) + c);
    lemma_quoted(kv.0, c);
    lemma_no_ws(s);
    lemma_no_ws(c);
    assert(c.skip(1) == value_text(kv.1) + r);
    lemma_value_read_back(kv.1, r);
}

proof fn lemma_members_read_back(m: Seq<(Seq<char>, Value)>, rest: Seq<char>)
    requires
        printable_members(m),
        m.len() > 0,
    ensures
        members_at(members_text(m) + seq!['}'] + rest) == Some((m, rest)),
    decreases m, 1int,
{
    let s = members_text(m) + seq!['}'] + rest;
    let w = quoted(m[0].0) + seq![':'] + value_text(m[0].1);
    if m.len() == 1 {
        let r = seq!['}'] + rest;
        assert(s == w + r);
        lemma_member_read_back(m[0], r);
        lemma_no_ws(r);
        assert(r.skip(1) == rest);
        assert(seq![m[0]] == m);
    } else {
        let more = members_text(m.skip(1)) + seq!['}'] + rest;
        let r = seq![','] + more;
        assert(s == w + r);
        lemma_member_read_back(m[0], r);
        lemma_no_ws(r);
        assert(r.skip(1) == more);
        lemma_members_read_back(m.skip(1), rest);
        assert(seq![m[0]] + m.skip(1) == m);
    }
}

/// A document that holds just the text of a value says that value.
pub proof fn lemma_document_read_back(v: Value)
    requires
        printable(v),
    ensures
        document(value_text(v)) == Some(v),
{
    assert(value_text(v) + Seq::<char>::empty() == value_text(v));
    lemma_value_read_back(v, Seq::empty());
}

/// The hexadecimal digit that counts `d`.
fn hex_digit_char(d: u8) -> (c: char)
    requires
        d < 16,
    ensures
        c == hex_char(d as int),
{
    if d < 10 {
        (48 + d) as char
    } else {
        (87 + d) as char
    }
}

/// Appends a character as it is written inside a string.
fn push_escaped(out: &mut String, c: char)
    ensures
        final(out)@ == old(out)@ + escape_char(c),
{
    let ghost w = out@;
    if c == '\\' {
        out.push('\\');
        out.push('\\');
    } else if c == '"' {
        out.push('\\');
        out.push('"');
    } else if c == '\n' {
        out.push('\\');
        out.push('n');
    } else if c == '\r' {
        out.push('\\');
        out.push('r');
    } else if c == '\t' {
        out.push('\\');
        out.push('t');
    } else if c <= '\u{1f}' {
        let n: u8 = c as u8;
        out.push('\\');
        out.push('u');
        out.push('0');
        out.push('0');
        out.push(hex_digit_char(n / 16));
        out.push(hex_digit_char(n % 16));
    } else {
        out.push(c);
    }
    assert(out@ == w + escape_char(c));
}

/// The text as it is written inside a JSON string.
pub fn escape(s: &str) -> (out: String)
    ensures
        out@ == escaped(s@),
{
    let b = chars_of(s);
    let mut out = String::new();
    let mut i: usize = 0;
    proof {
        assert(b@.skip(0) == b@);
        assert(out@ + escaped(b@) == escaped(b@));
    }
    while i < b.len()
        invariant
            i <= b@.len(),
            b@ == s@,
            out@ + escaped(b@.skip(i as int)) == escaped(s@),
        decreases b@.len() - i,
    {
        let ghost before = out@;
        push_escaped(&mut out, b[i]);
        proof {
            let t = b@.skip(i as int);
            assert(t.skip(1) == b@.skip(i + 1));
            assert(before + (escape_char(t[0]) + escaped(t.skip(1))) == before + escape_char(t[0])
                + escaped(t.skip(1)));
        }
        i = i + 1;
    }
    assert(out@ + Seq::<char>::empty() == out@);
    out
}

/// Appends a string in quotes.
fn push_quoted(out: &mut String, s: &str)
    ensures
        final(out)@ == old(out)@ + quoted(s@),
{
    let ghost w = out@;
    let e = escape(s);
    out.push('"');
    out.append(e.as_str());
    out.push('"');
    assert(out@ == w + quoted(s@));
}

/// Appends the compact text of a value.
pub fn push_value(out: &mut String, v: &Json)
    ensures
        final(out)@ == old(out)@ + value_text(v@),
    decreases *v,
{
    let ghost w = out@;
    match v {
        Json::Null => out.append("null"),
        Json::Bool(b) => if *b {
            out.append("true")
        } else {
            out.append("false")
        },
        Json::Num(t) => out.append(t.as_str()),
        Json::Str(t) => push_quoted(out, t.as_str()),
        Json::Arr(items) => {
            let ghost m = items_view(items@);
            proof {
                lemma_array_view(*items);
            }
            out.push('[');
            let mut i: usize = 0;
            assert(m.skip(0) == m);
            assert(out@ + items_text(m) == w + seq!['['] + items_text(m));
            while i < items.len()
                invariant
                    i <= items@.len(),
                    m == items_view(items@),
                    v is Arr,
                    v->Arr_0 == *items,
                    out@ + items_text(m.skip(i as int)) == w + seq!['['] + items_text(m),
                decreases items@.len() - i,
            {
                let ghost before = out@;
                let ghost t = m.skip(i as int);
                assert(t[0] == items@[i as int]@);
                assert(t.skip(1) == m.skip(i + 1));
                assert(decreases_to!(*v => v->Arr_0));
                assert(decreases_to!(*items => items@[i as int]));
                push_value(out, &items[i]);
                if i + 1 < items.len() {
                    out.push(',');
                    assert(before + (value_text(t[0]) + seq![','] + items_text(t.skip(1))) == out@
                        + items_text(t.skip(1)));
                } else {
                    assert(out@ + items_text(t.skip(1)) == before + value_text(t[0]));
                }
                i = i + 1;
            }
            assert(out@ + items_text(m.skip(i as int)) == out@);
            out.push(']');
            assert(out@ == w + value_text(v@));
        },
        Json::Obj(pairs) => {
            let ghost m = members_view(pairs@);
            proof {
                lemma_object_view(*pairs);
            }
            out.push('{');
            let mut i: usize = 0;
            assert(m.skip(0) == m);
            assert(out@ + members_text(m) == w + seq!['{'] + members_text(m));
            while i < pairs.len()
                invariant
                    i <= pairs@.len(),
                    m == members_view(pairs@),
                    v is Obj,
                    v->Obj_0 == *pairs,
                    out@ + members_text(m.skip(i as int)) == w + seq!['{'] + members_text(m),
                decreases pairs@.len() - i,
            {
                let ghost before = out@;
                let ghost t = m.skip(i as int);
                assert(t[0] == (pairs@[i as int].0@, pairs@[i as int].1@));
                assert(t.skip(1) == m.skip(i + 1));
                push_quoted(out, pairs[i].0.as_str());
                out.push(':');
                assert(decreases_to!(*v => v->Obj_0));
                assert(decreases_to!(*pairs => pairs@[i as int]));
                assert(decreases_to!(pairs@[i as int] => pairs@[i as int].1));
                push_value(out, &pairs[i].1);
                let ghost one = quoted(t[0].0) + seq![':'] + value_text(t[0].1);
                assert(out@ == before + one);
                if i + 1 < pairs.len() {
                    out.push(',');
                    assert(before + (one + seq![','] + members_text(t.skip(1))) == out@
                        + members_text(t.skip(1)));
                } else {
                    assert(out@ + members_text(t.skip(1)) == out@);
                }
                i = i + 1;
            }
            assert(out@ + members_text(m.skip(i as int)) == out@);
            out.push('}');
            assert(out@ == w + value_text(v@));
        },
    }
}

/// A new line, indented by `n` characters.
pub open spec fn new_line(n: nat) -> Seq<char> {
    seq!['\n'] + Seq::new(n, |i: int| ' ')
}

/// The text of a value with each member of an object on a line of its own; the
/// lines of the object are indented by `n` characters.
pub open spec fn pretty_text(v: Value, n: nat) -> Seq<char>
    decreases v,
{
    match v {
        Value::Obj(m) => if m.len() == 0 {
            value_text(v)
        } else {
            seq!['{'] + new_line(n + 2) + pretty_members(m, n + 2) + new_line(n) + seq!['}']
        },
        _ => value_text(v),
    }
}

/// One member: its key, a colon, a space and its value.
pub open spec fn pretty_member(kv: (Seq<char>, Value), n: nat) -> Seq<char>
    decreases kv,
{
    quoted(kv.0) + seq![':', ' '] + pretty_text(kv.1, n)
}

/// Members on lines of their own, with commas between them.
pub open spec fn pretty_members(m: Seq<(Seq<char>, Value)>, n: nat) -> Seq<char>
    decreases m,
{
    if m.len() == 0 {
        Seq::empty()
    } else if m.len() == 1 {
        pretty_member(m[0], n)
    } else {
        pretty_member(m[0], n) + seq![','] + new_line(n) + pretty_members(m.skip(1), n)
    }
}

/// White space is skipped.
proof fn lemma_skip_all(ws: Seq<char>, rest: Seq<char>)
    requires
        forall|i: int| 0 <= i < ws.len() ==> is_ws(#[trigger] ws[i]),
    ensures
        skip_ws(ws + rest) == skip_ws(rest),
    decreases ws.len(),
{
    let s = ws + rest;
    if ws.len() == 0 {
        assert(s == rest);
    } else {
        assert(s[0] == ws[0]);
        let t = ws.skip(1);
        assert forall|i: int| 0 <= i < t.len() implies is_ws(#[trigger] t[i]) by {
            assert(t[i] == ws[i + 1]);
        }
        assert(s.skip(1) == t + rest);
        lemma_skip_all(t, rest);
    }
}

/// White space in front of a value changes nothing.
proof fn lemma_value_after_ws(ws: Seq<char>, rest: Seq<char>)
    requires
        forall|i: int| 0 <= i < ws.len() ==> is_ws(#[trigger] ws[i]),
    ensures
        value_at(ws + rest) == value_at(rest),
{
    lemma_skip_all(ws, rest);
    lemma_skip_ws(rest);
    lemma_skip_ws(ws + rest);
    let t = skip_ws(rest);
}

/// What may follow a value that stands on lines of its own.
pub open spec fn ends_line(s: Seq<char>) -> bool {
    s.len() > 0 ==> s[0] == ',' || s[0] == '\n'
}

proof fn lemma_value_read_back_line(v: Value, rest: Seq<char>)
    requires
        printable(v),
        ends_line(rest),
        !(v is Arr) && !(v is Obj),
    ensures
        value_at(value_text(v) + rest) == Some((v, rest)),
{
    let w = value_text(v);
    let s = w + rest;
    lemma_first(v);
    assert(s[0] == w[0]);
    lemma_no_ws(s);
    match v {
        Value::Num(t) => {
            assert(ends_number(rest));
            lemma_scan_more(t, rest);
            assert(s.take(t.len() as int) == t);
            assert(s.skip(t.len() as int) == rest);
        },
        Value::Str(t) => {
            lemma_quoted(t, rest);
        },
        _ => {
            reveal_strlit("null");
            reveal_strlit("true");
            reveal_strlit("false");
            assert(s.skip(w.len() as int) == rest);
            assert(w.is_prefix_of(s));
        },
    }
}

/// The text of any value, an object's members on lines of their own, is read
/// back as that value.
pub proof fn lemma_pretty_read_back(v: Value, n: nat, rest: Seq<char>)
    requires
        printable(v),
        ends_line(rest),
    ensures
        value_at(pretty_text(v, n) + rest) == Some((v, rest)),
        pretty_text(v, n).len() > 0,
        !is_ws(pretty_text(v, n)[0]),
    decreases v, 0int,
{
    let s = pretty_text(v, n) + rest;
    lemma_first(v);
    match v {
        Value::Obj(m) => {
            assert(s[0] == '{');
            lemma_no_ws(s);
            if m.len() == 0 {
                lemma_object_read_back(m, rest);
            } else {
                let close = new_line(n) + (seq!['}'] + rest);
                let inner = pretty_members(m, n + 2) + close;
                assert(s.skip(1) == new_line(n + 2) + inner);
                lemma_skip_all(new_line(n + 2), inner);
                assert(inner[0] == '"');
                lemma_no_ws(inner);
                lemma_pretty_members(m, n + 2, n, rest);
            }
        },
        Value::Arr(items) => {
            lemma_no_ws(s);
            lemma_array_read_back(items, rest);
            assert(s[0] == '[');
        },
        _ => {
            lemma_value_read_back_line(v, rest);
        },
    }
}

proof fn lemma_pretty_members(m: Seq<(Seq<char>, Value)>, n: nat, outer: nat, rest: Seq<char>)
    requires
        printable_members(m),
        m.len() > 0,
    ensures
        members_at(pretty_members(m, n) + (new_line(outer) + (seq!['}'] + rest))) == Some(
            (m, rest),
        ),
        pretty_members(m, n).len() > 0,
        pretty_members(m, n)[0] == '"',
    decreases m, 1int,
{
    let close = new_line(outer) + (seq!['}'] + rest);
    let s = pretty_members(m, n) + close;
    if m.len() == 1 {
        assert(s == pretty_member(m[0], n) + close);
        assert(close[0] == '\n');
        lemma_pretty_member(m[0], n, close);
        let r = seq!['}'] + rest;
        lemma_skip_all(new_line(outer), r);
        lemma_no_ws(r);
        assert(r.skip(1) == rest);
        assert(seq![m[0]] == m);
    } else {
        let next = pretty_members(m.skip(1), n) + close;
        let r = seq![','] + (new_line(n) + next);
        assert(s == pretty_member(m[0], n) + r);
        lemma_pretty_member(m[0], n, r);
        lemma_no_ws(r);
        assert(r.skip(1) == new_line(n) + next);
        lemma_pretty_members(m.skip(1), n, outer, rest);
        lemma_members_after_ws(new_line(n), next);
        assert(seq![m[0]] + m.skip(1) == m);
    }
}

/// White space in front of members changes nothing.
proof fn lemma_members_after_ws(ws: Seq<char>, rest: Seq<char>)
    requires
        forall|i: int| 0 <= i < ws.len() ==> is_ws(#[trigger] ws[i]),
        members_at(rest) is Some,
    ensures
        members_at(ws + rest) == members_at(rest),
{
    lemma_skip_all(ws, rest);
    let s = ws + rest;
    let (k, r) = string_at(skip_ws(rest))->Some_0;
    let r1 = skip_ws(r);
    assert(member_at(s) == member_at(rest));
}

proof fn lemma_pretty_member(kv: (Seq<char>, Value), n: nat, r: Seq<char>)
    requires
        printable(kv.1),
        ends_line(r),
    ensures
        member_at(pretty_member(kv, n) + r) == Some((kv, r)),
        pretty_member(kv, n).len() > 0,
        pretty_member(kv, n)[0] == '"',
    decreases kv, 1int,
{
    let s = pretty_member(kv, n) + r;
    let t = pretty_text(kv.1, n) + r;
    let sp = seq![' '] + t;
    let c = seq![':'] + sp;
    assert(s == quoted(kv.0) + c);
    lemma_quoted(kv.0, c);
    lemma_no_ws(s);
    lemma_no_ws(c);
    assert(c.skip(1) == sp);
    lemma_pretty_read_back(kv.1, n, r);
    lemma_value_after_ws(seq![' '], t);
}

/// Appends a new line, indented by `n` characters.
fn push_new_line(out: &mut String, n: usize)
    ensures
        final(out)@ == old(out)@ + new_line(n as nat),
{
    let ghost w = out@;
    out.push('\n');
    let mut i: usize = 0;
    assert(out@ == w + new_line(0));
    while i < n
        invariant
            i <= n,
            out@ == w + new_line(i as nat),
        decreases n - i,
    {
        out.push(' ');
        i = i + 1;
        assert(out@ == w + new_line(i as nat));
    }
}

/// Appends the text of a value, each member of an object on a line of its own.
pub fn push_pretty(out: &mut String, v: &Json, n: usize)
    requires
        n + 2 * depth(*v) <= usize::MAX,
    ensures
        final(out)@ == old(out)@ + pretty_text(v@, n as nat),
    decreases *v,
{
    let ghost w = out@;
    match v {
        Json::Obj(pairs) => {
            let ghost m = members_view(pairs@);
            proof {
                lemma_object_view(*pairs);
            }
            if pairs.len() == 0 {
                push_value(out, v);
                return;
            }
            proof {
                lemma_depth(*pairs, 0);
            }
            out.push('{');
            push_new_line(out, n + 2);
            let ghost k = (n + 2) as nat;
            let ghost open = w + (seq!['{'] + new_line(k));
            let mut i: usize = 0;
            assert(m.skip(0) == m);
            assert(out@ + pretty_members(m, k) == open + pretty_members(m, k));
            while i < pairs.len()
                invariant
                    i <= pairs@.len(),
                    m == members_view(pairs@),
                    k == n + 2,
                    n + 2 * depth(*v) <= usize::MAX,
                    v is Obj,
                    v->Obj_0 == *pairs,
                    out@ + pretty_members(m.skip(i as int), k) == open + pretty_members(m, k),
                decreases pairs@.len() - i,
            {
                let ghost before = out@;
                let ghost t = m.skip(i as int);
                assert(t[0] == (pairs@[i as int].0@, pairs@[i as int].1@));
                assert(t.skip(1) == m.skip(i + 1));
                push_quoted(out, pairs[i].0.as_str());
                out.push(':');
                out.push(' ');
                assert(decreases_to!(*v => v->Obj_0));
                assert(decreases_to!(*pairs => pairs@[i as int]));
                assert(decreases_to!(pairs@[i as int] => pairs@[i as int].1));
                proof {
                    lemma_depth(*pairs, i as int);
                }
                push_pretty(out, &pairs[i].1, n + 2);
                let ghost one = pretty_member(t[0], k);
                assert(out@ == before + one);
                if i + 1 < pairs.len() {
                    out.push(',');
                    push_new_line(out, n + 2);
                    assert(before + (one + seq![','] + new_line(k) + pretty_members(t.skip(1), k))
                        == out@ + pretty_members(t.skip(1), k));
                } else {
                    assert(out@ + pretty_members(t.skip(1), k) == out@);
                }
                i = i + 1;
            }
            assert(out@ + pretty_members(m.skip(i as int), k) == out@);
            push_new_line(out, n);
            out.push('}');
            assert(out@ == w + pretty_text(v@, n as nat));
        },
        _ => push_value(out, v),
    }
}

/// How deep objects are nested.
pub open spec fn depth(v: Json) -> nat
    decreases v,
{
    match v {
        Json::Obj(pairs) => 1 + deepest(pairs@),
        _ => 0,
    }
}

/// How deep objects are nested in the members.
pub open spec fn deepest(m: Seq<(String, Json)>) -> nat
    decreases m,
{
    if m.len() == 0 {
        0
    } else {
        let a = depth(m[0].1);
        let b = deepest(m.skip(1));
        if a > b {
            a
        } else {
            b
        }
    }
}

proof fn lemma_deepest(m: Seq<(String, Json)>, i: int)
    requires
        0 <= i < m.len(),
    ensures
        depth(m[i].1) <= deepest(m),
    decreases m.len(),
{
    if i > 0 {
        assert(m.skip(1)[i - 1] == m[i]);
        lemma_deepest(m.skip(1), i - 1);
    }
}

proof fn lemma_depth(pairs: Vec<(String, Json)>, i: int)
    requires
        0 <= i < pairs@.len(),
    ensures
        depth(pairs@[i].1) + 1 <= depth(Json::Obj(pairs)),
{
    lemma_deepest(pairs@, i);
}

/// Whatever was read can be written.
proof fn lemma_read_is_printable(s: Seq<char>)
    ensures
        value_at(s) matches Some((v, _)) ==> printable(v),
    decreases s.len(), 2int,
{
    let t = skip_ws(s);
    lemma_skip_ws(s);
    if t.len() > 0 {
        if t[0] == '{' {
            lemma_object_printable(t);
        } else if t[0] == '[' {
            lemma_array_printable(t);
        } else if t[0] == '-' || is_digit(t[0]) {
            lemma_scan_alone(t);
            if number_at(t) is Some {
                let u = t.take(scan(t).len);
                assert(u.len() > 0);
                assert(u[0] == t[0]);
            }
        }
    }
}

proof fn lemma_object_printable(s: Seq<char>)
    ensures
        object_at(s) matches Some((v, _)) ==> printable(v),
    decreases s.len(), 1int,
{
    let u = skip_ws(s.skip(1));
    if at(s, 0, '{') && u.len() < s.len() && !at(u, 0, '}') {
        lemma_members_printable(u);
    }
}

proof fn lemma_array_printable(s: Seq<char>)
    ensures
        array_at(s) matches Some((v, _)) ==> printable(v),
    decreases s.len(), 1int,
{
    let u = skip_ws(s.skip(1));
    if at(s, 0, '[') && u.len() < s.len() && !at(u, 0, ']') {
        lemma_items_printable(u);
    }
}

proof fn lemma_members_printable(s: Seq<char>)
    ensures
        members_at(s) matches Some((m, _)) ==> printable_members(m),
    decreases s.len(), 4int,
{
    if let Some((k, r)) = string_at(skip_ws(s)) {
        let r1 = skip_ws(r);
        if at(r1, 0, ':') && r1.len() <= s.len() {
            lemma_read_is_printable(r1.skip(1));
        }
    }
    if let Some((kv, r)) = member_at(s) {
        let r1 = skip_ws(r);
        let one = seq![kv];
        let none = Seq::<(Seq<char>, Value)>::empty();
        assert(one.skip(1) == none);
        assert(printable_members(none));
        assert(printable_members(one));
        if at(r1, 0, ',') && r1.len() <= s.len() {
            lemma_members_printable(r1.skip(1));
            if let Some((m, rest)) = members_at(r1.skip(1)) {
                assert((one + m).skip(1) == m);
                assert((one + m)[0] == kv);
                assert(printable_members(one + m));
            }
        }
    }
}

proof fn lemma_items_printable(s: Seq<char>)
    ensures
        items_at(s) matches Some((m, _)) ==> printable_items(m),
    decreases s.len(), 4int,
{
    lemma_read_is_printable(s);
    if let Some((v, r)) = value_at(s) {
        let r1 = skip_ws(r);
        let one = seq![v];
        let none = Seq::<Value>::empty();
        assert(one.skip(1) == none);
        assert(printable_items(none));
        assert(printable_items(one));
        if at(r1, 0, ',') && r1.len() <= s.len() {
            lemma_items_printable(r1.skip(1));
            if let Some((m, rest)) = items_at(r1.skip(1)) {
                assert((one + m).skip(1) == m);
                assert((one + m)[0] == v);
                assert(printable_items(one + m));
            }
        }
    }
}

/// What a document says is said by its compact text too, and every number in
/// it is one that a document may hold.
pub proof fn rewritten_document_says_the_same(s: Seq<char>)
    requires
        document(s) is Some,
    ensures
        printable(document(s)->Some_0),
        document(value_text(document(s)->Some_0)) == document(s),
{
    lemma_read_is_printable(s);
    lemma_document_read_back(document(s)->Some_0);
}

/// Spaces, tabs, line feeds and carriage returns may stand in front of a
/// document, and say nothing.
pub proof fn white_space_says_nothing(ws: Seq<char>, s: Seq<char>)
    requires
        forall|i: int|
            0 <= i < ws.len() ==> #[trigger] ws[i] == ' ' || ws[i] == '\t' || ws[i] == '\n'
                || ws[i] == '\r',
    ensures
        skip_ws(ws + s) == skip_ws(s),
        value_at(ws + s) == value_at(s),
        document(ws + s) == document(s),
{
    assert forall|i: int| 0 <= i < ws.len() implies is_ws(#[trigger] ws[i]) by {}
    lemma_skip_all(ws, s);
    lemma_value_after_ws(ws, s);
}

/// No other character is passed over.
pub proof fn nothing_else_is_white_space(s: Seq<char>)
    requires
        s.len() > 0,
        s[0] != ' ' && s[0] != '\t' && s[0] != '\n' && s[0] != '\r',
    ensures
        skip_ws(s) == s,
{
}

/// A document is one value: where anything but white space follows it, there is
/// no document.
pub proof fn a_document_is_one_value(s: Seq<char>)
    ensures
        document(s) is Some ==> value_at(s) is Some && document(s)->Some_0 == value_at(s)->Some_0.0,
        value_at(s) matches Some((v, rest)) ==> (rest.len() == 0 ==> document(s) == Some(v)),
        value_at(s) matches Some((v, rest)) ==> (rest.len() > 0 && rest[0] != ' ' && rest[0] != '\t'
            && rest[0] != '\n' && rest[0] != '\r' ==> document(s) is None),
{
}

/// The digits of a hexadecimal number count from zero to fifteen, in small or in
/// capital letters, and each weighs sixteen times the one behind it.
pub proof fn hexadecimal_numbers_are_positional(a: int, b: int, c: int, d: int, rest: Seq<char>)
    requires
        0 <= a < 16,
        0 <= b < 16,
        0 <= c < 16,
        0 <= d < 16,
    ensures
        a < 10 ==> hex_value((48 + a) as char) == Some(a),
        a >= 10 ==> hex_value((65 + a - 10) as char) == Some(a),
        a >= 10 ==> hex_value((97 + a - 10) as char) == Some(a),
        hex4(seq![hex_char(a), hex_char(b), hex_char(c), hex_char(d)] + rest) == Some(
            ((a * 16 + b) * 16 + c) * 16 + d,
        ),
{
    let s = seq![hex_char(a), hex_char(b), hex_char(c), hex_char(d)] + rest;
    assert(s[0] == hex_char(a) && s[1] == hex_char(b) && s[2] == hex_char(c) && s[3] == hex_char(d));
}

/// The short escapes, and what each stands for.
pub proof fn short_escapes(rest: Seq<char>)
    ensures
        char_at(seq!['\\', '"'] + rest) == Some(('"', 2int)),
        char_at(seq!['\\', '\\'] + rest) == Some(('\\', 2int)),
        char_at(seq!['\\', '/'] + rest) == Some(('/', 2int)),
        char_at(seq!['\\', 'b'] + rest) == Some(('\u{8}', 2int)),
        char_at(seq!['\\', 'f'] + rest) == Some(('\u{c}', 2int)),
        char_at(seq!['\\', 'n'] + rest) == Some(('\n', 2int)),
        char_at(seq!['\\', 'r'] + rest) == Some(('\r', 2int)),
        char_at(seq!['\\', 't'] + rest) == Some(('\t', 2int)),
{
    assert((seq!['\\', '"'] + rest).skip(1) == seq!['"'] + rest);
    assert((seq!['\\', '\\'] + rest).skip(1) == seq!['\\'] + rest);
    assert((seq!['\\', '/'] + rest).skip(1) == seq!['/'] + rest);
    assert((seq!['\\', 'b'] + rest).skip(1) == seq!['b'] + rest);
    assert((seq!['\\', 'f'] + rest).skip(1) == seq!['f'] + rest);
    assert((seq!['\\', 'n'] + rest).skip(1) == seq!['n'] + rest);
    assert((seq!['\\', 'r'] + rest).skip(1) == seq!['r'] + rest);
    assert((seq!['\\', 't'] + rest).skip(1) == seq!['t'] + rest);
}

/// A character stands for itself, and is written as itself, unless it is a quote,
/// a backslash or a control character. A control character may not stand in a
/// string.
pub proof fn plain_characters_stand_for_themselves(c: char, rest: Seq<char>)
    ensures
        c >= ' ' && c != '"' && c != '\\' ==> char_at(seq![c] + rest) == Some((c, 1int)),
        c >= ' ' && c != '"' && c != '\\' ==> escape_char(c) == seq![c],
        c < ' ' ==> char_at(seq![c] + rest) is None,
        c < ' ' || c == '"' || c == '\\' ==> escape_char(c).len() > 1 && escape_char(c)[0] == '\\',
{
    assert((seq![c] + rest)[0] == c);
}

/// A character of the basic plane may be written by its number, and one beyond it
/// as the pair of its two surrogates.
pub proof fn characters_may_be_written_by_number(c: char, h: Seq<char>, l: Seq<char>, rest: Seq<char>)
    requires
        h.len() == 4,
        l.len() == 4,
    ensures
        c < '\u{10000}' && hex4(h) == Some(c as int) ==> char_at(seq!['\\', 'u'] + h + rest) == Some(
            (c, 6int),
        ),
        c >= '\u{10000}' && hex4(h) == Some(0xD800 + (c as int - 0x10000) / 1024) && hex4(l) == Some(
            0xDC00 + (c as int - 0x10000) % 1024,
        ) ==> char_at(seq!['\\', 'u'] + h + seq!['\\', 'u'] + l + rest) == Some((c, 12int)),
{
    let s = seq!['\\', 'u'] + h + rest;
    assert(s.skip(1)[0] == 'u');
    let t = s.skip(1).skip(1);
    assert(t[0] == h[0] && t[1] == h[1] && t[2] == h[2] && t[3] == h[3]);
    assert(hex4(t) == hex4(h));
    let p = seq!['\\', 'u'] + h + seq!['\\', 'u'] + l + rest;
    let q = p.skip(1);
    assert(q[0] == 'u' && q[5] == '\\' && q[6] == 'u');
    let t1 = q.skip(1);
    assert(t1[0] == h[0] && t1[1] == h[1] && t1[2] == h[2] && t1[3] == h[3]);
    assert(hex4(t1) == hex4(h));
    let t2 = q.skip(7);
    assert(t2[0] == l[0] && t2[1] == l[1] && t2[2] == l[2] && t2[3] == l[3]);
    assert(hex4(t2) == hex4(l));
    if c >= '\u{10000}' {
        let k = c as int - 0x10000;
        assert(1024 * (k / 1024) + k % 1024 == k);
        assert(0 <= k < 0x100000);
        assert(0 <= k / 1024 < 1024);
    }
}

/// Half of a pair of surrogates is no character.
pub proof fn lone_surrogates_are_refused(h: Seq<char>, rest: Seq<char>)
    requires
        h.len() == 4,
        hex4(h) matches Some(n) && 0xD800 <= n < 0xE000,
        rest.len() == 0 || rest[0] != '\\',
    ensures
        char_at(seq!['\\', 'u'] + h + rest) is None,
{
    let s = (seq!['\\', 'u'] + h + rest).skip(1);
    assert(s[0] == 'u');
    let t = s.skip(1);
    assert(t[0] == h[0] && t[1] == h[1] && t[2] == h[2] && t[3] == h[3]);
    assert(hex4(t) == hex4(h));
    assert(rest.len() > 0 ==> s[5] == rest[0]);
    assert(escape_at(s) is None);
}

/// A member is found by its key, the first where several have it; where no member
/// has the key, nothing is found.
pub proof fn the_first_member_of_a_key_is_found(m: Seq<(Seq<char>, Value)>, key: Seq<char>, i: int)
    requires
        0 <= i <= m.len(),
        forall|j: int| 0 <= j < i ==> (#[trigger] m[j]).0 != key,
        i < m.len() ==> m[i].0 == key,
    ensures
        i < m.len() ==> lookup(m, key) == Some(m[i].1),
        i == m.len() ==> lookup(m, key) is None,
    decreases i,
{
    if i > 0 {
        let t = m.skip(1);
        assert(m[0].0 != key);
        assert forall|j: int| 0 <= j < i - 1 implies (#[trigger] t[j]).0 != key by {
            assert(t[j] == m[j + 1]);
        }
        if i < m.len() {
            assert(t[i - 1] == m[i]);
        }
        the_first_member_of_a_key_is_found(t, key, i - 1);
    }
}

} // verus!
