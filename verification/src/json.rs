//! JSON values that resources carry, and their compact text.

use vstd::prelude::*;
use crate::text::{decimal, push_bytes, push_char, push_decimal, push_str};

verus! {

/// A JSON value. `Raw` holds JSON text that is already encoded (content read
/// from the manifest), carried through unchanged.
#[derive(Debug)]
pub enum JsonValue {
    Null,
    Bool(bool),
    Int(i64),
    String(String),
    Array(Vec<JsonValue>),
    Object(Vec<(String, JsonValue)>),
    Raw(String),
}

/// A lowercase hexadecimal digit for a value below 16.
pub open spec fn lower_hex(v: nat) -> char {
    if v < 10 { (('0' as nat) + v) as char } else { (('a' as nat) + (v - 10)) as char }
}

/// How `serde_json` writes one character inside a string literal: `"` and
/// `\` escaped with a backslash, the usual short escapes for backspace, tab,
/// newline, form feed and carriage return, any other control character
/// below U+0020 as `\u00XX` (lowercase hex), and everything else as itself.
pub open spec fn escape_char(c: char) -> Seq<char> {
    if c == '"' {
        seq!['\\', '"']
    } else if c == '\\' {
        seq!['\\', '\\']
    } else if c == '\u{8}' {
        seq!['\\', 'b']
    } else if c == '\t' {
        seq!['\\', 't']
    } else if c == '\n' {
        seq!['\\', 'n']
    } else if c == '\u{c}' {
        seq!['\\', 'f']
    } else if c == '\r' {
        seq!['\\', 'r']
    } else if (c as nat) < 0x20 {
        seq!['\\', 'u', '0', '0', lower_hex((c as nat) / 16), lower_hex((c as nat) % 16)]
    } else {
        seq![c]
    }
}

/// The characters of `s`, each escaped.
pub open spec fn escaped(s: Seq<char>) -> Seq<char>
    decreases s.len(),
{
    if s.len() == 0 {
        seq![]
    } else {
        escaped(s.drop_last()) + escape_char(s.last())
    }
}

/// The JSON string literal `serde_json` writes for `s`: quotes around the
/// escaped characters.
pub open spec fn json_quote(s: Seq<char>) -> Seq<char> {
    seq!['"'] + escaped(s) + seq!['"']
}

/// The value of a hexadecimal digit (either case), if `c` is one.
pub open spec fn hex_value(c: char) -> Option<nat> {
    if ('0' as nat) <= (c as nat) <= ('9' as nat) {
        Some((c as nat - '0' as nat) as nat)
    } else if ('a' as nat) <= (c as nat) <= ('f' as nat) {
        Some((c as nat - 'a' as nat + 10) as nat)
    } else if ('A' as nat) <= (c as nat) <= ('F' as nat) {
        Some((c as nat - 'A' as nat + 10) as nat)
    } else {
        None
    }
}

/// `c` in front of a decoded text, where decoding succeeded.
pub open spec fn prepend_char(c: char, r: Option<Seq<char>>) -> Option<Seq<char>> {
    match r {
        Some(x) => Some(seq![c] + x),
        None => None,
    }
}

/// The characters that the body of a JSON string literal (the text between
/// its quotes) stands for, as RFC 8259 reads it: any character but a quote,
/// a backslash or a control character stands for itself; `\"`, `\\`, `\/`,
/// `\b`, `\f`, `\n`, `\r`, `\t` for the usual characters; `\uXXXX` for the
/// code point XXXX outside the surrogate range. `None` for text that is not
/// such a body (this reading does not pair surrogate escapes).
pub open spec fn json_unescape(t: Seq<char>) -> Option<Seq<char>>
    decreases t.len(),
{
    if t.len() == 0 {
        Some(seq![])
    } else if t[0] == '"' || (t[0] as nat) < 0x20 {
        None
    } else if t[0] != '\\' {
        prepend_char(t[0], json_unescape(t.skip(1)))
    } else if t.len() < 2 {
        None
    } else if t[1] == '"' {
        prepend_char('"', json_unescape(t.skip(2)))
    } else if t[1] == '\\' {
        prepend_char('\\', json_unescape(t.skip(2)))
    } else if t[1] == '/' {
        prepend_char('/', json_unescape(t.skip(2)))
    } else if t[1] == 'b' {
        prepend_char('\u{8}', json_unescape(t.skip(2)))
    } else if t[1] == 'f' {
        prepend_char('\u{c}', json_unescape(t.skip(2)))
    } else if t[1] == 'n' {
        prepend_char('\n', json_unescape(t.skip(2)))
    } else if t[1] == 'r' {
        prepend_char('\r', json_unescape(t.skip(2)))
    } else if t[1] == 't' {
        prepend_char('\t', json_unescape(t.skip(2)))
    } else if t[1] == 'u' && t.len() >= 6 && hex_value(t[2]) is Some && hex_value(t[3]) is Some
        && hex_value(t[4]) is Some && hex_value(t[5]) is Some {
        let v = 4096 * hex_value(t[2]).unwrap() + 256 * hex_value(t[3]).unwrap() + 16 * hex_value(t[4]).unwrap()
            + hex_value(t[5]).unwrap();
        if 0xD800 <= v <= 0xDFFF {
            None
        } else {
            prepend_char(v as char, json_unescape(t.skip(6)))
        }
    } else {
        None
    }
}

proof fn lemma_hex_digit(v: nat)
    requires
        v < 16,
    ensures
        hex_value(lower_hex(v)) == Some(v),
{
}

proof fn lemma_unescape_char(c: char, t: Seq<char>)
    ensures
        json_unescape(escape_char(c) + t) == prepend_char(c, json_unescape(t)),
{
    let x = escape_char(c) + t;
    let n = escape_char(c).len() as int;
    assert(x.skip(n) =~= t);
    assert(x[0] == escape_char(c)[0]);
    if n >= 2 {
        assert(x[1] == escape_char(c)[1]);
    }
    if c != '"' && c != '\\' && c != '\u{8}' && c != '\t' && c != '\n' && c != '\u{c}' && c != '\r'
        && (c as nat) < 0x20 {
        let hi = (c as nat) / 16;
        let lo = (c as nat) % 16;
        lemma_hex_digit(hi);
        lemma_hex_digit(lo);
        assert(x[2] == '0' && x[3] == '0' && x[4] == lower_hex(hi) && x[5] == lower_hex(lo));
        assert(4096 * 0 + 256 * 0 + 16 * hi + lo == c as nat);
    }
}

/// Prepending `s` to a decoded text, where decoding succeeded.
pub open spec fn prepend_all(s: Seq<char>, r: Option<Seq<char>>) -> Option<Seq<char>> {
    match r {
        Some(x) => Some(s + x),
        None => None,
    }
}

proof fn lemma_unescape_escaped(s: Seq<char>, t: Seq<char>)
    ensures
        json_unescape(escaped(s) + t) == prepend_all(s, json_unescape(t)),
    decreases s.len(),
{
    if s.len() == 0 {
        assert(escaped(s) + t =~= t);
        if let Some(x) = json_unescape(t) {
            assert(s + x =~= x);
        }
    } else {
        let s0 = s.drop_last();
        let l = s.last();
        assert(escaped(s) + t =~= escaped(s0) + (escape_char(l) + t));
        lemma_unescape_escaped(s0, escape_char(l) + t);
        lemma_unescape_char(l, t);
        if let Some(x) = json_unescape(t) {
            assert(s0 + (seq![l] + x) =~= s + x);
        }
    }
}

/// JSON string quoting round-trips: the literal written for `s` is a quote,
/// a body that reads back (RFC 8259) as exactly `s`, and a quote.
pub proof fn lemma_json_quote_round_trip(s: Seq<char>)
    ensures
        json_quote(s).len() >= 2,
        json_quote(s)[0] == '"',
        json_quote(s).last() == '"',
        json_unescape(json_quote(s).subrange(1, json_quote(s).len() - 1)) == Some(s),
{
    let q = json_quote(s);
    assert(q.subrange(1, q.len() - 1) =~= escaped(s) + Seq::<char>::empty());
    lemma_unescape_escaped(s, Seq::<char>::empty());
    assert(s + Seq::<char>::empty() =~= s);
}

fn lower_hex_exec(v: u32) -> (c: char)
    requires
        v < 16,
    ensures
        c == lower_hex(v as nat),
{
    if v < 10 {
        let b: u8 = 48 + v as u8;
        b as char
    } else {
        let b: u8 = 87 + v as u8;
        b as char
    }
}

fn push_escaped(out: &mut String, c: char)
    ensures
        final(out)@ == old(out)@ + escape_char(c),
{
    if c == '"' {
        push_str(out, "\\\"");
        proof { reveal_strlit("\\\""); }
    } else if c == '\\' {
        push_str(out, "\\\\");
        proof { reveal_strlit("\\\\"); }
    } else if c == '\u{8}' {
        push_str(out, "\\b");
        proof { reveal_strlit("\\b"); }
    } else if c == '\t' {
        push_str(out, "\\t");
        proof { reveal_strlit("\\t"); }
    } else if c == '\n' {
        push_str(out, "\\n");
        proof { reveal_strlit("\\n"); }
    } else if c == '\u{c}' {
        push_str(out, "\\f");
        proof { reveal_strlit("\\f"); }
    } else if c == '\r' {
        push_str(out, "\\r");
        proof { reveal_strlit("\\r"); }
    } else if (c as u32) < 0x20 {
        push_str(out, "\\u00");
        proof { reveal_strlit("\\u00"); }
        let v = c as u32;
        push_char(out, lower_hex_exec(v / 16));
        push_char(out, lower_hex_exec(v % 16));
    } else {
        push_char(out, c);
    }
    proof {
        assert(out@ =~= old(out)@ + escape_char(c));
    }
}

/// Writes `s` as a JSON string literal, as `serde_json` does.
fn quote_string(s: &str) -> (q: String)
    ensures
        q@ == json_quote(s@),
{
    broadcast use vstd::string::axiom_spec_iter;
    let mut q = String::new();
    push_char(&mut q, '"');
    for c in it: s.chars()
        invariant
            it.seq() == s@,
            q@ == seq!['"'] + escaped(it.seq().take(it.index())),
    {
        proof {
            let t = it.seq().take(it.index() + 1);
            assert(t.drop_last() =~= it.seq().take(it.index()));
            assert(t.last() == c);
        }
        push_escaped(&mut q, c);
    }
    push_char(&mut q, '"');
    proof {
        assert(s@.take(s@.len() as int) =~= s@);
    }
    q
}

/// The mathematical model of a JSON value.
pub enum JsonSpec {
    Null,
    Bool(bool),
    Int(int),
    Str(Seq<char>),
    Array(Seq<JsonSpec>),
    Object(Seq<(Seq<char>, JsonSpec)>),
    Raw(Seq<char>),
}

/// The model of an executable JSON value.
pub open spec fn json_model(v: JsonValue) -> JsonSpec
    decreases v,
{
    match v {
        JsonValue::Null => JsonSpec::Null,
        JsonValue::Bool(b) => JsonSpec::Bool(b),
        JsonValue::Int(i) => JsonSpec::Int(i as int),
        JsonValue::String(s) => JsonSpec::Str(s@),
        JsonValue::Array(items) => JsonSpec::Array(json_models(items@)),
        JsonValue::Object(entries) => JsonSpec::Object(entry_models(entries@)),
        JsonValue::Raw(t) => JsonSpec::Raw(t@),
    }
}

/// The models of a sequence of values.
pub open spec fn json_models(items: Seq<JsonValue>) -> Seq<JsonSpec>
    decreases items,
{
    if items.len() == 0 {
        seq![]
    } else {
        json_models(items.drop_last()).push(json_model(items.last()))
    }
}

/// The models of a sequence of object entries.
pub open spec fn entry_models(entries: Seq<(String, JsonValue)>) -> Seq<(Seq<char>, JsonSpec)>
    decreases entries,
{
    if entries.len() == 0 {
        seq![]
    } else {
        entry_models(entries.drop_last()).push((entries.last().0@, json_model(entries.last().1)))
    }
}

impl View for JsonValue {
    type V = JsonSpec;

    open spec fn view(&self) -> JsonSpec {
        json_model(*self)
    }
}

/// Compact JSON text of `v`: no whitespace, object entries in the order they
/// are held. For objects whose keys are unique and ascending (as every object
/// this library builds), it is the text `serde_json` writes for the same value.
pub open spec fn json_text(v: JsonSpec) -> Seq<char>
    decreases v,
{
    match v {
        JsonSpec::Null => "null"@,
        JsonSpec::Bool(b) => if b { "true"@ } else { "false"@ },
        JsonSpec::Int(i) => decimal(i),
        JsonSpec::Str(s) => json_quote(s),
        JsonSpec::Array(items) => seq!['['] + items_text(items) + seq![']'],
        JsonSpec::Object(entries) => seq!['{'] + entries_text(entries) + seq!['}'],
        JsonSpec::Raw(t) => t,
    }
}

/// The texts of `items` joined by commas.
pub open spec fn items_text(items: Seq<JsonSpec>) -> Seq<char>
    decreases items,
{
    if items.len() == 0 {
        seq![]
    } else if items.len() == 1 {
        json_text(items[0])
    } else {
        items_text(items.drop_last()) + seq![','] + json_text(items.last())
    }
}

/// The `"key":value` texts of `entries` joined by commas.
pub open spec fn entries_text(entries: Seq<(Seq<char>, JsonSpec)>) -> Seq<char>
    decreases entries,
{
    if entries.len() == 0 {
        seq![]
    } else if entries.len() == 1 {
        json_quote(entries[0].0) + seq![':'] + json_text(entries[0].1)
    } else {
        entries_text(entries.drop_last()) + seq![','] + json_quote(entries.last().0) + seq![':']
            + json_text(entries.last().1)
    }
}

proof fn lemma_models_push(items: Seq<JsonValue>, i: int)
    requires
        0 <= i < items.len(),
    ensures
        json_models(items.take(i + 1)) == json_models(items.take(i)).push(json_model(items[i])),
        json_models(items.take(i)).len() == i,
    decreases i,
{
    assert(items.take(i + 1).drop_last() =~= items.take(i));
    if i > 0 {
        lemma_models_push(items, i - 1);
    }
}

proof fn lemma_entry_models_push(entries: Seq<(String, JsonValue)>, i: int)
    requires
        0 <= i < entries.len(),
    ensures
        entry_models(entries.take(i + 1)) == entry_models(entries.take(i)).push((entries[i].0@, json_model(entries[i].1))),
        entry_models(entries.take(i)).len() == i,
    decreases i,
{
    assert(entries.take(i + 1).drop_last() =~= entries.take(i));
    if i > 0 {
        lemma_entry_models_push(entries, i - 1);
    }
}

/// Appends the compact JSON text of `v` to `out`.
pub fn write_json(out: &mut String, v: &JsonValue)
    ensures
        final(out)@ == old(out)@ + json_text(v@),
    decreases v,
{
    match v {
        JsonValue::Null => push_str(out, "null"),
        JsonValue::Bool(b) => if *b { push_str(out, "true") } else { push_str(out, "false") },
        JsonValue::Int(i) => push_decimal(out, *i),
        JsonValue::String(s) => {
            let q = quote_string(s.as_str());
            push_str(out, q.as_str());
        },
        JsonValue::Raw(t) => push_str(out, t.as_str()),
        JsonValue::Array(items) => {
            let ghost start = out@;
            push_char(out, '[');
            let mut i: usize = 0;
            while i < items.len()
                invariant
                    i <= items@.len(),
                    *v == JsonValue::Array(*items),
                    out@ == start + seq!['['] + items_text(json_models(items@.take(i as int))),
                decreases items@.len() - i,
            {
                if i > 0 {
                    push_char(out, ',');
                }
                proof {
                    assert(decreases_to!(*v => v->Array_0));
                    assert(decreases_to!(*items => items@));
                    assert(decreases_to!(items@ => items@[i as int]));
                    assert(decreases_to!(*v => items@[i as int]));
                }
                proof {
                    lemma_models_push(items@, i as int);
                    let m = json_models(items@.take(i as int));
                    assert(m.push(json_model(items@[i as int])).drop_last() =~= m);
                }
                write_json(out, &items[i]);
                i = i + 1;
            }
            push_char(out, ']');
            proof {
                assert(items@.take(items@.len() as int) =~= items@);
            }
        },
        JsonValue::Object(entries) => {
            let ghost start = out@;
            push_char(out, '{');
            let mut i: usize = 0;
            while i < entries.len()
                invariant
                    i <= entries@.len(),
                    *v == JsonValue::Object(*entries),
                    out@ == start + seq!['{'] + entries_text(entry_models(entries@.take(i as int))),
                decreases entries@.len() - i,
            {
                if i > 0 {
                    push_char(out, ',');
                }
                let q = quote_string(entries[i].0.as_str());
                push_str(out, q.as_str());
                push_char(out, ':');
                proof {
                    assert(decreases_to!(*v => v->Object_0));
                    assert(decreases_to!(*entries => entries@));
                    assert(decreases_to!(entries@ => entries@[i as int]));
                    assert(decreases_to!(entries@[i as int] => entries@[i as int].1));
                    assert(decreases_to!(*v => entries@[i as int].1));
                }
                proof {
                    lemma_entry_models_push(entries@, i as int);
                    let m = entry_models(entries@.take(i as int));
                    assert(m.push((entries@[i as int].0@, json_model(entries@[i as int].1))).drop_last() =~= m);
                }
                write_json(out, &entries[i].1);
                i = i + 1;
            }
            push_char(out, '}');
            proof {
                assert(entries@.take(entries@.len() as int) =~= entries@);
            }
        },
    }
}

/// The UTF-8 bytes of the compact JSON text of `v`.
pub open spec fn json_bytes(v: JsonSpec) -> Seq<u8> {
    vstd::utf8::encode_utf8(json_text(v))
}

/// The compact JSON text of `v`, as UTF-8 bytes.
pub fn json_to_bytes(v: &JsonValue) -> (bytes: Vec<u8>)
    ensures
        bytes@ == json_bytes(v@),
{
    let mut text = String::new();
    write_json(&mut text, v);
    let mut bytes: Vec<u8> = Vec::new();
    push_bytes(&mut bytes, text.as_str().as_bytes());
    bytes
}

// ---------------------------------------------------------------------------
// Key order.

/// `a` sorts before or equal to `b` bytewise (the order of `String` keys).
pub open spec fn bytes_le(a: Seq<u8>, b: Seq<u8>) -> bool {
    ||| (a.len() <= b.len() && a == b.take(a.len() as int))
    ||| exists|i: int| 0 <= i < a.len() && i < b.len() && a.take(i) == b.take(i) && a[i] < b[i]
}

/// Object keys are ordered by their UTF-8 bytes.
pub open spec fn key_le(a: Seq<char>, b: Seq<char>) -> bool {
    bytes_le(vstd::utf8::encode_utf8(a), vstd::utf8::encode_utf8(b))
}

/// `x` inserted into `sorted` after every entry whose key is not larger.
pub open spec fn insert_by_key(sorted: Seq<(Seq<char>, JsonSpec)>, x: (Seq<char>, JsonSpec)) -> Seq<(Seq<char>, JsonSpec)>
    decreases sorted.len(),
{
    if sorted.len() == 0 || key_le(sorted.last().0, x.0) {
        sorted.push(x)
    } else {
        insert_by_key(sorted.drop_last(), x).push(sorted.last())
    }
}

/// The entries stably sorted by key.
pub open spec fn sort_keys(entries: Seq<(Seq<char>, JsonSpec)>) -> Seq<(Seq<char>, JsonSpec)>
    decreases entries.len(),
{
    if entries.len() == 0 {
        seq![]
    } else {
        insert_by_key(sort_keys(entries.drop_last()), entries.last())
    }
}

/// Object keys never decrease along the entries.
pub open spec fn keys_ascending(entries: Seq<(Seq<char>, JsonSpec)>) -> bool {
    forall|i: int, j: int| 0 <= i < j < entries.len() ==> key_le(entries[i].0, entries[j].0)
}

/// The first position below both lengths, from `k` on, where `a` and `b`
/// differ, or the shorter length if they agree up to it.
proof fn lemma_first_difference(a: Seq<u8>, b: Seq<u8>, k: int) -> (i: int)
    requires
        0 <= k <= a.len(),
        k <= b.len(),
        a.take(k) == b.take(k),
    ensures
        k <= i <= a.len(),
        i <= b.len(),
        a.take(i) == b.take(i),
        i < a.len() && i < b.len() ==> a[i] != b[i],
        i == a.len() || i == b.len() || a[i] != b[i],
    decreases a.len() - k,
{
    if k == a.len() || k == b.len() || a[k] != b[k] {
        k
    } else {
        assert(a.take(k + 1) =~= a.take(k).push(a[k]));
        assert(b.take(k + 1) =~= b.take(k).push(b[k]));
        lemma_first_difference(a, b, k + 1)
    }
}

proof fn lemma_bytes_le_total(a: Seq<u8>, b: Seq<u8>)
    ensures
        bytes_le(a, b) || bytes_le(b, a),
{
    assert(a.take(0) =~= b.take(0));
    let i = lemma_first_difference(a, b, 0);
    if i == a.len() && i <= b.len() {
        assert(a.take(i) =~= a);
    } else if i == b.len() {
        assert(b.take(i) =~= b);
    } else if a[i] < b[i] {
        assert(bytes_le(a, b));
    } else {
        assert(b.take(i) == a.take(i) && b[i] < a[i]);
        assert(bytes_le(b, a));
    }
}

proof fn lemma_take_agree(a: Seq<u8>, b: Seq<u8>, i: int, j: int)
    requires
        0 <= j <= i <= a.len(),
        i <= b.len(),
        a.take(i) == b.take(i),
    ensures
        a.take(j) == b.take(j),
        forall|k: int| 0 <= k < i ==> a[k] == b[k],
{
    assert forall|k: int| 0 <= k < i implies a[k] == b[k] by {
        assert(a.take(i)[k] == a[k]);
        assert(b.take(i)[k] == b[k]);
    }
    assert(a.take(j) =~= b.take(j));
}

proof fn lemma_bytes_le_trans(a: Seq<u8>, b: Seq<u8>, c: Seq<u8>)
    requires
        bytes_le(a, b),
        bytes_le(b, c),
    ensures
        bytes_le(a, c),
{
    let ab_prefix = a.len() <= b.len() && a == b.take(a.len() as int);
    let bc_prefix = b.len() <= c.len() && b == c.take(b.len() as int);
    if ab_prefix && bc_prefix {
        assert(a =~= c.take(a.len() as int));
    } else if ab_prefix {
        let j = choose|j: int| 0 <= j < b.len() && j < c.len() && b.take(j) == c.take(j) && b[j] < c[j];
        if a.len() <= j {
            lemma_take_agree(b, c, j, a.len() as int);
            assert(a =~= b.take(a.len() as int));
            assert(a =~= c.take(a.len() as int));
        } else {
            assert(a.take(a.len() as int) =~= a);
            lemma_take_agree(a, b, a.len() as int, j);
            assert(a.take(j) == c.take(j) && a[j] < c[j]);
        }
    } else if bc_prefix {
        let i = choose|i: int| 0 <= i < a.len() && i < b.len() && a.take(i) == b.take(i) && a[i] < b[i];
        assert(b.take(b.len() as int) =~= b);
        lemma_take_agree(b, c, b.len() as int, i);
        assert(a.take(i) == c.take(i) && a[i] < c[i]);
    } else {
        let i = choose|i: int| 0 <= i < a.len() && i < b.len() && a.take(i) == b.take(i) && a[i] < b[i];
        let j = choose|j: int| 0 <= j < b.len() && j < c.len() && b.take(j) == c.take(j) && b[j] < c[j];
        if i < j {
            lemma_take_agree(b, c, j, i);
            assert(a.take(i) == c.take(i) && a[i] < c[i]);
        } else if j < i {
            lemma_take_agree(a, b, i, j);
            assert(a.take(j) == c.take(j) && a[j] < c[j]);
        } else {
            assert(a.take(i) == c.take(i) && a[i] < c[i]);
        }
    }
}

proof fn lemma_insert_by_key(sorted: Seq<(Seq<char>, JsonSpec)>, x: (Seq<char>, JsonSpec))
    requires
        keys_ascending(sorted),
    ensures
        keys_ascending(insert_by_key(sorted, x)),
        insert_by_key(sorted, x).to_multiset() == sorted.to_multiset().insert(x),
        insert_by_key(sorted, x).len() == sorted.len() + 1,
    decreases sorted.len(),
{
    broadcast use vstd::seq_lib::group_to_multiset_ensures;
    if sorted.len() == 0 || key_le(sorted.last().0, x.0) {
        assert forall|i: int, j: int| 0 <= i < j < sorted.len() + 1 implies key_le(#[trigger] sorted.push(x)[i].0, #[trigger] sorted.push(x)[j].0) by {
            if j == sorted.len() {
                if i < sorted.len() - 1 {
                    assert(key_le(sorted[i].0, sorted[sorted.len() - 1].0));
                    lemma_bytes_le_trans(vstd::utf8::encode_utf8(sorted[i].0),
                        vstd::utf8::encode_utf8(sorted.last().0), vstd::utf8::encode_utf8(x.0));
                }
            }
        }
    } else {
        let init = sorted.drop_last();
        let last = sorted.last();
        lemma_insert_by_key(init, x);
        let r = insert_by_key(init, x);
        assert(sorted =~= init.push(last));
        lemma_bytes_le_total(vstd::utf8::encode_utf8(last.0), vstd::utf8::encode_utf8(x.0));
        assert forall|k: int| 0 <= k < r.len() implies key_le(#[trigger] r[k].0, last.0) by {
            assert(r.to_multiset().count(r[k]) > 0);
            if r[k] != x {
                assert(init.to_multiset().count(r[k]) > 0);
                assert(init.contains(r[k]));
                let m = choose|m: int| 0 <= m < init.len() && init[m] == r[k];
                assert(sorted[m] == init[m]);
                assert(key_le(sorted[m].0, sorted[sorted.len() - 1].0));
            }
        }
        assert forall|i: int, j: int| 0 <= i < j < r.len() + 1 implies key_le(#[trigger] r.push(last)[i].0, #[trigger] r.push(last)[j].0) by {
            if j == r.len() {
                assert(key_le(r[i].0, last.0));
            } else {
                assert(key_le(r[i].0, r[j].0));
            }
        }
    }
}

/// Sorting entries by key gives keys in ascending order and the same entries.
pub proof fn lemma_sort_keys(entries: Seq<(Seq<char>, JsonSpec)>)
    ensures
        keys_ascending(sort_keys(entries)),
        sort_keys(entries).to_multiset() == entries.to_multiset(),
        sort_keys(entries).len() == entries.len(),
    decreases entries.len(),
{
    broadcast use vstd::seq_lib::group_to_multiset_ensures;
    if entries.len() > 0 {
        lemma_sort_keys(entries.drop_last());
        lemma_insert_by_key(sort_keys(entries.drop_last()), entries.last());
        assert(entries =~= entries.drop_last().push(entries.last()));
    }
}

fn key_le_exec(a: &str, b: &str) -> (le: bool)
    ensures
        le == key_le(a@, b@),
{
    let ab = a.as_bytes();
    let bb = b.as_bytes();
    let ghost x = ab@;
    let ghost y = bb@;
    let mut i: usize = 0;
    while i < ab.len() && i < bb.len() && ab[i] == bb[i]
        invariant
            i <= x.len(),
            i <= y.len(),
            x == ab@,
            y == bb@,
            x.take(i as int) == y.take(i as int),
        decreases x.len() - i,
    {
        proof {
            assert(x.take(i + 1) =~= x.take(i as int).push(x[i as int]));
            assert(y.take(i + 1) =~= y.take(i as int).push(y[i as int]));
        }
        i = i + 1;
    }
    if i == ab.len() {
        proof {
            assert(x.take(i as int) =~= x);
        }
        true
    } else if i == bb.len() {
        proof {
            assert forall|j: int| 0 <= j < x.len() && j < y.len() && x.take(j) == y.take(j) implies !(x[j] < y[j]) by {
                assert(x.take(i as int)[j] == y.take(i as int)[j]);
            }
        }
        false
    } else {
        let lt = ab[i] < bb[i];
        proof {
            if lt {
                assert(0 <= i < x.len() && i < y.len() && x.take(i as int) == y.take(i as int) && x[i as int] < y[i as int]);
            } else {
                assert(x[i as int] != y[i as int]);
                if x.len() <= y.len() && x == y.take(x.len() as int) {
                    assert(y.take(x.len() as int)[i as int] == y[i as int]);
                }
                assert forall|j: int| 0 <= j < x.len() && j < y.len() && x.take(j) == y.take(j) implies !(x[j] < y[j]) by {
                    if j < i {
                        assert(x.take(i as int)[j] == y.take(i as int)[j]);
                    } else if j > i {
                        assert(x.take(j)[i as int] == y.take(j)[i as int]);
                    }
                }
            }
        }
        lt
    }
}

/// The models of `entries`, position by position.
pub open spec fn entries_map(entries: Seq<(String, JsonValue)>) -> Seq<(Seq<char>, JsonSpec)> {
    Seq::new(entries.len(), |i: int| (entries[i].0@, entries[i].1@))
}

pub proof fn lemma_entry_models_map(entries: Seq<(String, JsonValue)>)
    ensures
        entry_models(entries) == entries_map(entries),
    decreases entries.len(),
{
    if entries.len() > 0 {
        lemma_entry_models_map(entries.drop_last());
        assert(entry_models(entries) =~= entries_map(entries));
    } else {
        assert(entry_models(entries) =~= entries_map(entries));
    }
}

proof fn lemma_insert_key_at(sorted: Seq<(Seq<char>, JsonSpec)>, x: (Seq<char>, JsonSpec), p: int)
    requires
        0 <= p <= sorted.len(),
        forall|k: int| p <= k < sorted.len() ==> !key_le(#[trigger] sorted[k].0, x.0),
        p > 0 ==> key_le(sorted[p - 1].0, x.0),
    ensures
        insert_by_key(sorted, x) == sorted.take(p).push(x) + sorted.skip(p),
    decreases sorted.len(),
{
    if p == sorted.len() {
        assert(sorted.take(p) =~= sorted);
        assert(sorted.take(p).push(x) + sorted.skip(p) =~= sorted.push(x));
    } else {
        let init = sorted.drop_last();
        assert(!key_le(sorted[sorted.len() - 1].0, x.0));
        lemma_insert_key_at(init, x, p);
        assert(init.take(p) =~= sorted.take(p));
        assert(sorted.take(p).push(x) + sorted.skip(p) =~= (init.take(p).push(x) + init.skip(p)).push(sorted.last()));
    }
}

/// Sorts object entries stably by key, as `serde_json` orders an object's keys.
pub fn sort_entries(entries: Vec<(String, JsonValue)>) -> (sorted: Vec<(String, JsonValue)>)
    ensures
        entry_models(sorted@) == sort_keys(entry_models(entries@)),
        keys_ascending(entry_models(sorted@)),
        entry_models(sorted@).to_multiset() == entry_models(entries@).to_multiset(),
{
    proof {
        lemma_sort_keys(entry_models(entries@));
    }
    let ghost original = entries@;
    proof {
        lemma_entry_models_map(original);
    }
    let mut rest = entries;
    let mut out: Vec<(String, JsonValue)> = Vec::new();
    let ghost mut i: int = 0;
    while rest.len() > 0
        invariant
            0 <= i <= original.len(),
            rest@ == original.skip(i),
            entries_map(out@) == sort_keys(entries_map(original).take(i)),
        decreases rest@.len(),
    {
        let x = rest.remove(0);
        let ghost xm = (x.0@, x.1@);
        let mut p: usize = out.len();
        while p > 0 && !key_le_exec(out[p - 1].0.as_str(), x.0.as_str())
            invariant
                p <= out@.len(),
                xm.0 == x.0@,
                forall|k: int| p <= k < out@.len() ==> !key_le(#[trigger] entries_map(out@)[k].0, xm.0),
            decreases p,
        {
            p = p - 1;
        }
        proof {
            lemma_insert_key_at(entries_map(out@), xm, p as int);
            let em = entries_map(original);
            assert(em.take(i + 1).drop_last() =~= em.take(i));
            assert(em.take(i + 1).last() == xm);
            assert(original.skip(i + 1) =~= original.skip(i).drop_first());
        }
        let ghost before = out@;
        out.insert(p, x);
        proof {
            assert(entries_map(out@) =~= entries_map(before).take(p as int).push(xm) + entries_map(before).skip(p as int));
            i = i + 1;
        }
    }
    proof {
        assert(entries_map(original).take(i) =~= entries_map(original));
        lemma_entry_models_map(out@);
    }
    out
}

/// The models of `items`, position by position.
pub open spec fn items_map(items: Seq<JsonValue>) -> Seq<JsonSpec> {
    Seq::new(items.len(), |i: int| items[i]@)
}

pub proof fn lemma_models_map(items: Seq<JsonValue>)
    ensures
        json_models(items) == items_map(items),
    decreases items.len(),
{
    if items.len() > 0 {
        lemma_models_map(items.drop_last());
    }
    assert(json_models(items) =~= items_map(items));
}

impl JsonValue {
    /// A copy of this value.
    pub fn deep_clone(&self) -> (copy: JsonValue)
        ensures
            copy@ == self@,
        decreases self,
    {
        match self {
            JsonValue::Null => JsonValue::Null,
            JsonValue::Bool(b) => JsonValue::Bool(*b),
            JsonValue::Int(i) => JsonValue::Int(*i),
            JsonValue::String(s) => JsonValue::String(s.clone()),
            JsonValue::Raw(t) => JsonValue::Raw(t.clone()),
            JsonValue::Array(items) => {
                let mut out: Vec<JsonValue> = Vec::new();
                let mut i: usize = 0;
                while i < items.len()
                    invariant
                        i <= items@.len(),
                        *self == JsonValue::Array(*items),
                        items_map(out@) == items_map(items@).take(i as int),
                    decreases items@.len() - i,
                {
                    proof {
                        assert(decreases_to!(*self => self->Array_0));
                        assert(decreases_to!(*items => items@));
                        assert(decreases_to!(items@ => items@[i as int]));
                    }
                    let c = items[i].deep_clone();
                    let ghost before = out@;
                    out.push(c);
                    i = i + 1;
                    proof {
                        assert(items_map(out@) =~= items_map(before).push(c@));
                        assert(items_map(out@) =~= items_map(items@).take(i as int));
                    }
                }
                proof {
                    lemma_models_map(out@);
                    lemma_models_map(items@);
                    assert(items_map(items@).take(i as int) =~= items_map(items@));
                }
                JsonValue::Array(out)
            },
            JsonValue::Object(entries) => {
                let mut out: Vec<(String, JsonValue)> = Vec::new();
                let mut i: usize = 0;
                while i < entries.len()
                    invariant
                        i <= entries@.len(),
                        *self == JsonValue::Object(*entries),
                        entries_map(out@) == entries_map(entries@).take(i as int),
                    decreases entries@.len() - i,
                {
                    proof {
                        assert(decreases_to!(*self => self->Object_0));
                        assert(decreases_to!(*entries => entries@));
                        assert(decreases_to!(entries@ => entries@[i as int]));
                        assert(decreases_to!(entries@[i as int] => entries@[i as int].1));
                    }
                    let c = entries[i].1.deep_clone();
                    let k = entries[i].0.clone();
                    let ghost before = out@;
                    let ghost item = (k@, c@);
                    out.push((k, c));
                    i = i + 1;
                    proof {
                        assert(entries_map(out@) =~= entries_map(before).push(item));
                        assert(entries_map(out@) =~= entries_map(entries@).take(i as int));
                    }
                }
                proof {
                    lemma_entry_models_map(out@);
                    lemma_entry_models_map(entries@);
                    assert(entries_map(entries@).take(i as int) =~= entries_map(entries@));
                }
                JsonValue::Object(out)
            },
        }
    }
}

} // verus!
