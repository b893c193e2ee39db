//! A JSON value as the library holds it, and the operations on JSON objects
//! that the settings logic uses.
use vstd::prelude::*;

use crate::text::{push_str, str_less, str_lt};
use zed_extension_api::serde_json::Value;

verus! {

/// A JSON document. Objects hold their entries in the order of their keys,
/// as the map of the JSON library this extension receives its settings from
/// keeps them (that map holds only that library's own values, so an object
/// here is a vector of entries kept in key order); a number holds the text it
/// is written as.
#[derive(Debug, PartialEq)]
pub enum JsonValue {
    Null,
    Bool(bool),
    Number(String),
    Str(String),
    Array(Vec<JsonValue>),
    Object(Vec<(String, JsonValue)>),
}

/// The mathematical model of a JSON document.
pub enum Json {
    Null,
    Bool(bool),
    Number(Seq<char>),
    Str(Seq<char>),
    Array(Seq<Json>),
    Object(Seq<(Seq<char>, Json)>),
}

pub open spec fn json_view(v: JsonValue) -> Json
    decreases v,
{
    match v {
        JsonValue::Null => Json::Null,
        JsonValue::Bool(b) => Json::Bool(b),
        JsonValue::Number(n) => Json::Number(n@),
        JsonValue::Str(s) => Json::Str(s@),
        JsonValue::Array(items) => Json::Array(items_view(items@)),
        JsonValue::Object(es) => Json::Object(entries_view(es@)),
    }
}

pub open spec fn items_view(items: Seq<JsonValue>) -> Seq<Json>
    decreases items,
{
    if items.len() == 0 {
        Seq::empty()
    } else {
        seq![json_view(items[0])] + items_view(items.drop_first())
    }
}

pub open spec fn entries_view(es: Seq<(String, JsonValue)>) -> Seq<(Seq<char>, Json)>
    decreases es,
{
    if es.len() == 0 {
        Seq::empty()
    } else {
        seq![(es[0].0@, json_view(es[0].1))] + entries_view(es.drop_first())
    }
}

/// A key and its value in a JSON object, by their models.
pub type Entry = (Seq<char>, Json);

impl View for JsonValue {
    type V = Json;

    open spec fn view(&self) -> Json {
        json_view(*self)
    }
}


pub proof fn lemma_items_view(items: Seq<JsonValue>)
    ensures
        items_view(items).len() == items.len(),
        forall|i: int| 0 <= i < items.len() ==> #[trigger] items_view(items)[i] == items[i]@,
    decreases items.len(),
{
    if items.len() > 0 {
        lemma_items_view(items.drop_first());
        assert forall|i: int| 0 <= i < items.len() implies #[trigger] items_view(items)[i]
            == items[i]@ by {
            if i > 0 {
                assert(items.drop_first()[i - 1] == items[i]);
            }
        }
    }
}

pub proof fn lemma_entries_view(es: Seq<(String, JsonValue)>)
    ensures
        entries_view(es).len() == es.len(),
        forall|i: int|
            0 <= i < es.len() ==> #[trigger] entries_view(es)[i] == (es[i].0@, es[i].1@),
    decreases es.len(),
{
    if es.len() > 0 {
        lemma_entries_view(es.drop_first());
        assert forall|i: int| 0 <= i < es.len() implies #[trigger] entries_view(es)[i] == (
            es[i].0@,
            es[i].1@,
        ) by {
            if i > 0 {
                assert(es.drop_first()[i - 1] == es[i]);
            }
        }
    }
}

/// Two entry lists with the same keys and values, position by position, have
/// the same model.
pub proof fn lemma_entries_view_ext(a: Seq<(String, JsonValue)>, b: Seq<Entry>)
    requires
        a.len() == b.len(),
        forall|i: int| 0 <= i < a.len() ==> (#[trigger] a[i]).0@ == b[i].0 && a[i].1@ == b[i].1,
    ensures
        entries_view(a) == b,
{
    lemma_entries_view(a);
    assert(entries_view(a) =~= b);
}

// ---------------------------------------------------------------------------
// Objects: lookup and insertion by key
// ---------------------------------------------------------------------------

/// The position of the first entry with key `k`.
pub open spec fn find_key(es: Seq<Entry>, k: Seq<char>) -> Option<int>
    decreases es.len(),
{
    if es.len() == 0 {
        None
    } else if es[0].0 == k {
        Some(0)
    } else {
        match find_key(es.drop_first(), k) {
            Some(i) => Some(i + 1),
            None => None,
        }
    }
}

/// The value stored under `k` (`Map::get`).
pub open spec fn obj_get(es: Seq<Entry>, k: Seq<char>) -> Option<Json> {
    match find_key(es, k) {
        Some(i) => Some(es[i].1),
        None => None,
    }
}

/// The object with the value under `k` replaced by `v`, where there is one
/// (a write through `Map::get_mut`).
pub open spec fn obj_update(es: Seq<Entry>, k: Seq<char>, v: Json) -> Seq<Entry> {
    match find_key(es, k) {
        Some(i) => es.update(i, (es[i].0, v)),
        None => es,
    }
}

/// The object with `k` bound to `v` (`Map::insert`): an entry with key `k`
/// gets the new value, or a new entry goes before the first key that sorts
/// after `k`.
pub open spec fn obj_insert(es: Seq<Entry>, k: Seq<char>, v: Json) -> Seq<Entry>
    decreases es.len(),
{
    if es.len() == 0 {
        seq![(k, v)]
    } else if es[0].0 == k {
        seq![(k, v)] + es.drop_first()
    } else if str_lt(k, es[0].0) {
        seq![(k, v)] + es
    } else {
        seq![es[0]] + obj_insert(es.drop_first(), k, v)
    }
}

/// Keys strictly increasing: the shape of every object the settings arrive in.
pub open spec fn keys_sorted(es: Seq<Entry>) -> bool {
    forall|i: int, j: int| 0 <= i < j < es.len() ==> str_lt(#[trigger] es[i].0, #[trigger] es[j].0)
}

pub proof fn lemma_find_key(es: Seq<Entry>, k: Seq<char>)
    ensures
        find_key(es, k) matches Some(i) ==> 0 <= i < es.len() && es[i].0 == k && forall|j: int|
            0 <= j < i ==> (#[trigger] es[j]).0 != k,
        find_key(es, k) is None ==> forall|j: int| 0 <= j < es.len() ==> (#[trigger] es[j]).0 != k,
    decreases es.len(),
{
    if es.len() > 0 {
        lemma_find_key(es.drop_first(), k);
        assert forall|j: int| 1 <= j < es.len() implies es[j] == es.drop_first()[j - 1] by {}
    }
}

/// The first position where `es` holds key `k` is determined by that fact.
pub proof fn lemma_find_key_at(es: Seq<Entry>, k: Seq<char>, i: int)
    requires
        0 <= i < es.len(),
        es[i].0 == k,
        forall|j: int| 0 <= j < i ==> (#[trigger] es[j]).0 != k,
    ensures
        find_key(es, k) == Some(i),
{
    lemma_find_key(es, k);
    match find_key(es, k) {
        Some(m) => {
            if m < i {
                assert(es[m].0 != k);
            } else if m > i {
                assert(es[i].0 != k);
            }
        },
        None => {
            assert(es[i].0 != k);
        },
    }
}

/// Insertion past a prefix of keys that are neither `k` nor after it.
pub proof fn lemma_obj_insert_skip(es: Seq<Entry>, k: Seq<char>, v: Json, i: int)
    requires
        0 <= i <= es.len(),
        forall|j: int| 0 <= j < i ==> (#[trigger] es[j]).0 != k && !str_lt(k, es[j].0),
    ensures
        obj_insert(es, k, v) == es.take(i) + obj_insert(es.skip(i), k, v),
    decreases i,
{
    if i > 0 {
        let t = es.drop_first();
        assert forall|j: int| 0 <= j < i - 1 implies (#[trigger] t[j]).0 != k && !str_lt(
            k,
            t[j].0,
        ) by {
            assert(t[j] == es[j + 1]);
        }
        lemma_obj_insert_skip(t, k, v, i - 1);
        assert(es[0].0 != k && !str_lt(k, es[0].0));
        assert(t.skip(i - 1) =~= es.skip(i));
        assert(es.take(i) =~= seq![es[0]] + t.take(i - 1));
    } else {
        assert(es.skip(0) =~= es);
    }
}

// ---------------------------------------------------------------------------
// Executable operations on objects
// ---------------------------------------------------------------------------

/// The position of the entry with key `k` (the first one).
pub fn object_find(es: &Vec<(String, JsonValue)>, k: &str) -> (found: Option<usize>)
    ensures
        found matches Some(i) ==> find_key(entries_view(es@), k@) == Some(i as int),
        found is None ==> find_key(entries_view(es@), k@) is None,
{
    let key = k.to_owned();
    let ghost e = entries_view(es@);
    proof {
        lemma_entries_view(es@);
        lemma_find_key(e, k@);
    }
    let mut i: usize = 0;
    while i < es.len()
        invariant
            i <= es@.len(),
            e == entries_view(es@),
            e.len() == es@.len(),
            key@ == k@,
            forall|j: int| 0 <= j < i ==> (#[trigger] e[j]).0 != k@,
            forall|j: int| 0 <= j < es@.len() ==> #[trigger] e[j] == (es@[j].0@, es@[j].1@),
        decreases es@.len() - i,
    {
        if es[i].0 == key {
            proof {
                lemma_find_key_at(e, k@, i as int);
            }
            return Some(i);
        }
        i = i + 1;
    }
    proof {
        lemma_find_key(e, k@);
        match find_key(e, k@) {
            Some(m) => {
                assert(e[m].0 != k@);
            },
            None => {},
        }
    }
    None
}

/// `Map::get`.
pub fn object_get<'a>(es: &'a Vec<(String, JsonValue)>, k: &str) -> (got: Option<&'a JsonValue>)
    ensures
        got matches Some(x) ==> obj_get(entries_view(es@), k@) == Some(x@),
        got is None ==> obj_get(entries_view(es@), k@) is None,
{
    proof {
        lemma_entries_view(es@);
        lemma_find_key(entries_view(es@), k@);
    }
    match object_find(es, k) {
        Some(i) => Some(&es[i].1),
        None => None,
    }
}

/// `Map::insert`, where the displaced value is dropped.
pub fn object_insert(es: &mut Vec<(String, JsonValue)>, k: String, v: JsonValue)
    ensures
        entries_view(final(es)@) == obj_insert(entries_view(old(es)@), k@, v@),
{
    let ghost e = entries_view(es@);
    proof {
        lemma_entries_view(es@);
    }
    let mut i: usize = 0;
    while i < es.len()
        invariant
            i <= es@.len(),
            e == entries_view(es@),
            e == entries_view(old(es)@),
            e.len() == es@.len(),
            forall|j: int| 0 <= j < es@.len() ==> #[trigger] e[j] == (es@[j].0@, es@[j].1@),
            forall|j: int| 0 <= j < i ==> (#[trigger] e[j]).0 != k@ && !str_lt(k@, e[j].0),
        decreases es@.len() - i,
    {
        if es[i].0 == k {
            proof {
                lemma_obj_insert_skip(e, k@, v@, i as int);
                assert(e.skip(i as int)[0] == e[i as int]);
                assert(obj_insert(e.skip(i as int), k@, v@) == seq![(k@, v@)] + e.skip(
                    i as int,
                ).drop_first());
            }
            let ghost vv = v@;
            let ghost kk = k@;
            es.remove(i);
            es.insert(i, (k, v));
            proof {
                lemma_entries_view_ext(
                    es@,
                    e.take(i as int) + (seq![(kk, vv)] + e.skip(i as int).drop_first()),
                );
            }
            return ;
        }
        if str_less(k.as_str(), es[i].0.as_str()) {
            proof {
                lemma_obj_insert_skip(e, k@, v@, i as int);
                assert(e.skip(i as int)[0] == e[i as int]);
                assert(e[i as int].0 != k@);
                assert(obj_insert(e.skip(i as int), k@, v@) == seq![(k@, v@)] + e.skip(
                    i as int,
                ));
            }
            let ghost vv = v@;
            let ghost kk = k@;
            es.insert(i, (k, v));
            proof {
                lemma_entries_view_ext(es@, e.take(i as int) + (seq![(kk, vv)] + e.skip(i as int)));
            }
            return ;
        }
        i = i + 1;
    }
    proof {
        lemma_obj_insert_skip(e, k@, v@, i as int);
    }
    let ghost vv = v@;
    let ghost kk = k@;
    es.push((k, v));
    proof {
        assert(e.skip(i as int) =~= Seq::<Entry>::empty());
        lemma_entries_view_ext(es@, e.take(i as int) + seq![(kk, vv)]);
    }
}

/// The models of an optional document.
pub open spec fn option_view(o: Option<JsonValue>) -> Option<Json> {
    match o {
        Some(v) => Some(v@),
        None => None,
    }
}

// ---------------------------------------------------------------------------
// Compact JSON text, as serde_json's `Display` writes a document
// ---------------------------------------------------------------------------

/// How serde_json writes the character `c` inside a string literal: `"`,
/// `\` and the control characters are escaped, everything else is kept.
pub open spec fn escaped_char(c: char) -> Seq<char> {
    let n = c as u32;
    if c == '"' {
        seq!['\\', '"']
    } else if c == '\\' {
        seq!['\\', '\\']
    } else if n == 0x08 {
        seq!['\\', 'b']
    } else if n == 0x09 {
        seq!['\\', 't']
    } else if n == 0x0a {
        seq!['\\', 'n']
    } else if n == 0x0c {
        seq!['\\', 'f']
    } else if n == 0x0d {
        seq!['\\', 'r']
    } else if n < 0x20 {
        seq!['\\', 'u', '0', '0', hex_digit(n / 16), hex_digit(n % 16)]
    } else {
        seq![c]
    }
}

/// The lower-case hexadecimal digit of `d` (below 16).
pub open spec fn hex_digit(d: u32) -> char {
    if d == 0 { '0' } else if d == 1 { '1' } else if d == 2 { '2' } else if d == 3 { '3' }
    else if d == 4 { '4' } else if d == 5 { '5' } else if d == 6 { '6' } else if d == 7 { '7' }
    else if d == 8 { '8' } else if d == 9 { '9' } else if d == 10 { 'a' } else if d == 11 { 'b' }
    else if d == 12 { 'c' } else if d == 13 { 'd' } else if d == 14 { 'e' } else { 'f' }
}

/// The characters of `s`, each written as `escaped_char` writes it.
pub open spec fn escaped(s: Seq<char>) -> Seq<char>
    decreases s.len(),
{
    if s.len() == 0 {
        Seq::empty()
    } else {
        escaped(s.drop_last()) + escaped_char(s.last())
    }
}

/// `s` as a JSON string literal.
pub open spec fn json_string_literal(s: Seq<char>) -> Seq<char> {
    seq!['"'] + escaped(s) + seq!['"']
}

/// `serde_json::to_string` on a `str`: the string between double quotes, with
/// `"` and `\` escaped by a backslash, backspace, tab, line feed, form feed
/// and carriage return as `\b`, `\t`, `\n`, `\f`, `\r`, the other control
/// characters below U+0020 as `\u00` and two lower-case hex digits, and every
/// other character as it is. Serialising a `str` into a `Vec` does not fail.
#[verifier::external_body]
fn quote_json_string(s: &str) -> (quoted: String)
    ensures
        quoted@ == json_string_literal(s@),
{
    match zed_extension_api::serde_json::to_string(s) {
        Ok(text) => text,
        Err(_) => String::new(),
    }
}

/// The compact JSON text of `j`: no whitespace, entries in their order.
pub open spec fn json_text(j: Json) -> Seq<char>
    decreases j, 0nat,
{
    match j {
        Json::Null => "null"@,
        Json::Bool(b) => if b { "true"@ } else { "false"@ },
        Json::Number(n) => n,
        Json::Str(s) => json_string_literal(s),
        Json::Array(items) => seq!['['] + items_text(items) + seq![']'],
        Json::Object(es) => seq!['{'] + entries_text(es) + seq!['}'],
    }
}

/// The texts of `items` separated by commas.
pub open spec fn items_text(items: Seq<Json>) -> Seq<char>
    decreases items, 1nat,
{
    if items.len() == 0 {
        Seq::empty()
    } else if items.len() == 1 {
        json_text(items[0])
    } else {
        items_text(items.drop_last()) + seq![','] + json_text(items.last())
    }
}

/// The entries `"key":value` separated by commas.
pub open spec fn entries_text(es: Seq<Entry>) -> Seq<char>
    decreases es, 1nat,
{
    if es.len() == 0 {
        Seq::empty()
    } else if es.len() == 1 {
        json_string_literal(es[0].0) + seq![':'] + json_text(es[0].1)
    } else {
        entries_text(es.drop_last()) + seq![','] + json_string_literal(es.last().0) + seq![':']
            + json_text(es.last().1)
    }
}

/// Appends the compact JSON text of `v` to `out`.
pub fn write_json(v: &JsonValue, out: &mut Vec<char>)
    ensures
        final(out)@ == old(out)@ + json_text(v@),
    decreases *v,
{
    let ghost start = out@;
    match v {
        JsonValue::Null => push_str(out, "null"),
        JsonValue::Bool(b) => {
            if *b {
                push_str(out, "true");
            } else {
                push_str(out, "false");
            }
        },
        JsonValue::Number(n) => push_str(out, n.as_str()),
        JsonValue::Str(s) => {
            let quoted = quote_json_string(s.as_str());
            push_str(out, quoted.as_str());
        },
        JsonValue::Array(items) => {
            let ghost js = items_view(items@);
            proof {
                lemma_items_view(items@);
                assert(js.take(0) =~= Seq::<Json>::empty());
            }
            out.push('[');
            let mut i: usize = 0;
            while i < items.len()
                invariant
                    i <= items@.len(),
                    *v == JsonValue::Array(*items),
                    js == items_view(items@),
                    js.len() == items@.len(),
                    forall|j: int| 0 <= j < items@.len() ==> #[trigger] js[j] == items@[j]@,
                    out@ == start + seq!['['] + items_text(js.take(i as int)),
                decreases items@.len() - i,
            {
                proof {
                    assert(decreases_to!(*v => v->Array_0));
                    assert(decreases_to!(v->Array_0 => items@));
                    assert(decreases_to!(items@ => items@[i as int]));
                    assert(js.take(i + 1).drop_last() =~= js.take(i as int));
                    assert(js.take(i + 1).last() == js[i as int]);
                }
                if i > 0 {
                    out.push(',');
                }
                write_json(&items[i], out);
                i = i + 1;
                proof {
                    assert(out@ =~= start + seq!['['] + items_text(js.take(i as int)));
                }
            }
            out.push(']');
            proof {
                assert(js.take(js.len() as int) =~= js);
                assert(out@ =~= start + json_text(v@));
            }
        },
        JsonValue::Object(es) => {
            let ghost jes = entries_view(es@);
            proof {
                lemma_entries_view(es@);
                assert(jes.take(0) =~= Seq::<Entry>::empty());
            }
            out.push('{');
            let mut i: usize = 0;
            while i < es.len()
                invariant
                    i <= es@.len(),
                    *v == JsonValue::Object(*es),
                    jes == entries_view(es@),
                    jes.len() == es@.len(),
                    forall|j: int|
                        0 <= j < es@.len() ==> #[trigger] jes[j] == (es@[j].0@, es@[j].1@),
                    out@ == start + seq!['{'] + entries_text(jes.take(i as int)),
                decreases es@.len() - i,
            {
                proof {
                    assert(decreases_to!(*v => v->Object_0));
                    assert(decreases_to!(v->Object_0 => es@));
                    assert(decreases_to!(es@ => es@[i as int]));
                    assert(decreases_to!(es@[i as int] => es@[i as int].1));
                    assert(jes.take(i + 1).drop_last() =~= jes.take(i as int));
                    assert(jes.take(i + 1).last() == jes[i as int]);
                }
                if i > 0 {
                    out.push(',');
                }
                let quoted = quote_json_string(es[i].0.as_str());
                push_str(out, quoted.as_str());
                out.push(':');
                write_json(&es[i].1, out);
                i = i + 1;
                proof {
                    assert(out@ =~= start + seq!['{'] + entries_text(jes.take(i as int)));
                }
            }
            out.push('}');
            proof {
                assert(jes.take(jes.len() as int) =~= jes);
                assert(out@ =~= start + json_text(v@));
            }
        },
    }
}

/// The entries `es` inserted one after the other into `t`.
pub open spec fn insert_all(t: Seq<Entry>, es: Seq<Entry>) -> Seq<Entry>
    decreases es.len(),
{
    if es.len() == 0 {
        t
    } else {
        insert_all(obj_insert(t, es[0].0, es[0].1), es.drop_first())
    }
}

impl JsonValue {
    /// The object holding `entries`, inserted in order as a JSON map collects
    /// them: a later entry of the same key replaces an earlier one, and the
    /// keys come out in order.
    pub fn object_from_entries(entries: Vec<(String, JsonValue)>) -> (object: JsonValue)
        ensures
            object@ == Json::Object(insert_all(Seq::empty(), entries_view(entries@))),
    {
        let ghost e = entries_view(entries@);
        proof {
            lemma_entries_view(entries@);
            assert(e.skip(0) =~= e);
        }
        let mut out: Vec<(String, JsonValue)> = Vec::new();
        proof {
            assert(entries_view(out@) =~= Seq::<Entry>::empty());
        }
        for entry in it: entries
            invariant
                it.seq() == entries@,
                e == entries_view(entries@),
                e.len() == entries@.len(),
                forall|j: int|
                    0 <= j < entries@.len() ==> #[trigger] e[j] == (entries@[j].0@, entries@[j].1@),
                insert_all(Seq::empty(), e) == insert_all(
                    entries_view(out@),
                    e.skip(it.index() as int),
                ),
        {
            let ghost idx = it.index() as int;
            proof {
                assert(e.skip(idx).drop_first() =~= e.skip(idx + 1));
                assert(e.skip(idx)[0] == e[idx]);
                assert(entry == entries@[idx]);
            }
            let (key, value) = entry;
            object_insert(&mut out, key, value);
        }
        proof {
            assert(e.skip(e.len() as int) =~= Seq::<Entry>::empty());
        }
        JsonValue::Object(out)
    }
}

// ---------------------------------------------------------------------------
// Laws of objects
// ---------------------------------------------------------------------------

/// No key occurs twice.
pub open spec fn keys_unique(es: Seq<Entry>) -> bool {
    forall|i: int, j: int| 0 <= i < j < es.len() ==> #[trigger] es[i].0 != #[trigger] es[j].0
}

/// Lookup only looks at the keys.
pub proof fn lemma_find_key_same_keys(a: Seq<Entry>, b: Seq<Entry>, k: Seq<char>)
    requires
        a.len() == b.len(),
        forall|i: int| 0 <= i < a.len() ==> (#[trigger] a[i]).0 == b[i].0,
    ensures
        find_key(a, k) == find_key(b, k),
    decreases a.len(),
{
    if a.len() > 0 {
        assert forall|i: int| 0 <= i < a.len() - 1 implies (#[trigger] a.drop_first()[i]).0
            == b.drop_first()[i].0 by {
            assert(a.drop_first()[i] == a[i + 1]);
            assert(b.drop_first()[i] == b[i + 1]);
        }
        lemma_find_key_same_keys(a.drop_first(), b.drop_first(), k);
    }
}

/// Lookup looks at the first entry, then at the rest.
pub proof fn lemma_obj_get_unfold(es: Seq<Entry>, k: Seq<char>)
    ensures
        obj_get(es, k) == if es.len() == 0 {
            None
        } else if es[0].0 == k {
            Some(es[0].1)
        } else {
            obj_get(es.drop_first(), k)
        },
{
    if es.len() > 0 && es[0].0 != k {
        lemma_find_key(es.drop_first(), k);
        match find_key(es.drop_first(), k) {
            Some(i) => {
                assert(es.drop_first()[i] == es[i + 1]);
            },
            None => {},
        }
    }
}

/// Reading an object after `Map::insert` gives the value written under that
/// key, and what was there before under every other key.
pub proof fn law_get_after_insert(es: Seq<Entry>, k: Seq<char>, v: Json, other: Seq<char>)
    ensures
        obj_get(obj_insert(es, k, v), k) == Some(v),
        other != k ==> obj_get(obj_insert(es, k, v), other) == obj_get(es, other),
    decreases es.len(),
{
    let r = obj_insert(es, k, v);
    lemma_obj_get_unfold(r, k);
    lemma_obj_get_unfold(r, other);
    lemma_obj_get_unfold(es, other);
    if es.len() > 0 {
        if es[0].0 == k {
            assert(r.drop_first() =~= es.drop_first());
            lemma_obj_get_unfold(es.drop_first(), other);
        } else if str_lt(k, es[0].0) {
            assert(r.drop_first() =~= es);
        } else {
            law_get_after_insert(es.drop_first(), k, v, other);
            assert(r.drop_first() =~= obj_insert(es.drop_first(), k, v));
        }
    }
}

/// Reading an object after a write through `Map::get_mut` gives the value
/// written, where the key was there, and leaves every other key as it was.
pub proof fn law_get_after_update(es: Seq<Entry>, k: Seq<char>, v: Json, other: Seq<char>)
    ensures
        obj_get(es, k) is Some ==> obj_get(obj_update(es, k, v), k) == Some(v),
        obj_get(es, k) is None ==> obj_update(es, k, v) == es,
        other != k ==> obj_get(obj_update(es, k, v), other) == obj_get(es, other),
{
    lemma_find_key(es, k);
    match find_key(es, k) {
        Some(i) => {
            let r = es.update(i, (es[i].0, v));
            lemma_find_key_same_keys(r, es, k);
            lemma_find_key_same_keys(r, es, other);
            lemma_find_key(es, other);
        },
        None => {},
    }
}

/// Inserting into an object whose keys are in order keeps them in order.
pub proof fn law_insert_keeps_keys_sorted(es: Seq<Entry>, k: Seq<char>, v: Json)
    requires
        keys_sorted(es),
    ensures
        keys_sorted(obj_insert(es, k, v)),
    decreases es.len(),
{
    if es.len() > 0 {
        let r = obj_insert(es, k, v);
        let t = es.drop_first();
        assert(keys_sorted(t)) by {
            assert forall|i: int, j: int| 0 <= i < j < t.len() implies str_lt(
                #[trigger] t[i].0,
                #[trigger] t[j].0,
            ) by {
                assert(t[i] == es[i + 1]);
                assert(t[j] == es[j + 1]);
            }
        }
        if es[0].0 == k {
            assert forall|i: int, j: int| 0 <= i < j < r.len() implies str_lt(
                #[trigger] r[i].0,
                #[trigger] r[j].0,
            ) by {
                assert(r[i].0 == es[i].0);
                assert(r[j].0 == es[j].0);
            }
        } else if str_lt(k, es[0].0) {
            assert forall|i: int, j: int| 0 <= i < j < r.len() implies str_lt(
                #[trigger] r[i].0,
                #[trigger] r[j].0,
            ) by {
                if i == 0 {
                    assert(r[j] == es[j - 1]);
                    if j - 1 > 0 {
                        crate::text::lemma_str_lt_transitive(k, es[0].0, es[j - 1].0);
                    }
                } else {
                    assert(r[i] == es[i - 1]);
                    assert(r[j] == es[j - 1]);
                }
            }
        } else {
            law_insert_keeps_keys_sorted(t, k, v);
            let rt = obj_insert(t, k, v);
            assert(r == seq![es[0]] + rt);
            crate::text::lemma_str_lt_total(k, es[0].0);
            // every key of the inserted tail sorts after the first key
            assert forall|j: int| 0 <= j < rt.len() implies str_lt(es[0].0, #[trigger] rt[j].0) by {
                lemma_insert_keys(t, k, v, j);
                if rt[j].0 != k {
                    let m = choose|m: int| 0 <= m < t.len() && t[m].0 == rt[j].0;
                    assert(t[m] == es[m + 1]);
                }
            }
            assert forall|i: int, j: int| 0 <= i < j < r.len() implies str_lt(
                #[trigger] r[i].0,
                #[trigger] r[j].0,
            ) by {
                if i == 0 {
                    assert(r[j] == rt[j - 1]);
                } else {
                    assert(r[i] == rt[i - 1]);
                    assert(r[j] == rt[j - 1]);
                }
            }
        }
    }
}

/// Every key after insertion is the inserted key or one that was there.
pub proof fn lemma_insert_keys(es: Seq<Entry>, k: Seq<char>, v: Json, j: int)
    requires
        0 <= j < obj_insert(es, k, v).len(),
    ensures
        obj_insert(es, k, v)[j].0 == k || exists|m: int| 0 <= m < es.len() && es[m].0 == obj_insert(
            es,
            k,
            v,
        )[j].0,
    decreases es.len(),
{
    let r = obj_insert(es, k, v);
    if es.len() > 0 {
        if es[0].0 == k {
            if j > 0 {
                assert(r[j] == es[j]);
            }
        } else if str_lt(k, es[0].0) {
            if j > 0 {
                assert(r[j] == es[j - 1]);
            }
        } else {
            if j == 0 {
                assert(r[0] == es[0]);
            } else {
                lemma_insert_keys(es.drop_first(), k, v, j - 1);
                let rt = obj_insert(es.drop_first(), k, v);
                assert(r[j] == rt[j - 1]);
                if rt[j - 1].0 != k {
                    let m = choose|m: int|
                        0 <= m < es.drop_first().len() && es.drop_first()[m].0 == rt[j - 1].0;
                    assert(es[m + 1] == es.drop_first()[m]);
                }
            }
        }
    }
}

// ---------------------------------------------------------------------------
// The shape every document keeps: object keys in order, at every depth
// ---------------------------------------------------------------------------

/// Every object in `j`, at every depth, has its keys strictly in order.
pub open spec fn json_wf(j: Json) -> bool
    decreases j, 0nat,
{
    match j {
        Json::Array(items) => items_wf(items),
        Json::Object(es) => keys_sorted(es) && entries_wf(es),
        _ => true,
    }
}

/// Every item is well formed.
pub open spec fn items_wf(items: Seq<Json>) -> bool
    decreases items, 1nat,
{
    if items.len() == 0 {
        true
    } else {
        json_wf(items[0]) && items_wf(items.drop_first())
    }
}

/// Every entry's value is well formed.
pub open spec fn entries_wf(es: Seq<Entry>) -> bool
    decreases es, 1nat,
{
    if es.len() == 0 {
        true
    } else {
        json_wf(es[0].1) && entries_wf(es.drop_first())
    }
}

pub proof fn lemma_entries_wf(es: Seq<Entry>)
    ensures
        entries_wf(es) <==> forall|i: int| 0 <= i < es.len() ==> json_wf(#[trigger] es[i].1),
    decreases es.len(),
{
    if es.len() > 0 {
        lemma_entries_wf(es.drop_first());
        if forall|i: int| 0 <= i < es.len() ==> json_wf(#[trigger] es[i].1) {
            assert forall|i: int| 0 <= i < es.drop_first().len() implies json_wf(
                #[trigger] es.drop_first()[i].1,
            ) by {
                assert(es.drop_first()[i] == es[i + 1]);
            }
        }
        if entries_wf(es) {
            assert forall|i: int| 0 <= i < es.len() implies json_wf(#[trigger] es[i].1) by {
                if i > 0 {
                    assert(es.drop_first()[i - 1] == es[i]);
                }
            }
        }
    }
}

/// Keys in order pairwise follow from keys in order next to each other.
pub proof fn lemma_keys_sorted_adjacent(es: Seq<Entry>)
    requires
        forall|i: int| 0 <= i < es.len() - 1 ==> str_lt(#[trigger] es[i].0, es[i + 1].0),
    ensures
        keys_sorted(es),
    decreases es.len(),
{
    if es.len() > 1 {
        let t = es.drop_first();
        assert forall|i: int| 0 <= i < t.len() - 1 implies str_lt(#[trigger] t[i].0, t[i + 1].0) by {
            assert(t[i] == es[i + 1]);
            assert(t[i + 1] == es[i + 2]);
        }
        lemma_keys_sorted_adjacent(t);
        assert forall|i: int, j: int| 0 <= i < j < es.len() implies str_lt(
            #[trigger] es[i].0,
            #[trigger] es[j].0,
        ) by {
            if i == 0 {
                if j == 1 {
                } else {
                    assert(t[0] == es[1]);
                    assert(t[j - 1] == es[j]);
                    crate::text::lemma_str_lt_transitive(es[0].0, es[1].0, es[j].0);
                }
            } else {
                assert(t[i - 1] == es[i]);
                assert(t[j - 1] == es[j]);
            }
        }
    }
}

/// Sorted keys are distinct.
pub proof fn lemma_sorted_keys_unique(es: Seq<Entry>)
    requires
        keys_sorted(es),
    ensures
        keys_unique(es),
{
    assert forall|i: int, j: int| 0 <= i < j < es.len() implies #[trigger] es[i].0
        != #[trigger] es[j].0 by {
        if es[i].0 == es[j].0 {
            crate::text::lemma_str_lt_irreflexive(es[i].0);
        }
    }
}

/// Inserting a well-formed value keeps an object well formed.
pub proof fn law_insert_keeps_wf(es: Seq<Entry>, k: Seq<char>, v: Json)
    requires
        keys_sorted(es),
        entries_wf(es),
        json_wf(v),
    ensures
        keys_sorted(obj_insert(es, k, v)),
        entries_wf(obj_insert(es, k, v)),
{
    law_insert_keeps_keys_sorted(es, k, v);
    lemma_entries_wf(es);
    let r = obj_insert(es, k, v);
    assert forall|j: int| 0 <= j < r.len() implies json_wf(#[trigger] r[j].1) by {
        lemma_insert_values(es, k, v, j);
    }
    lemma_entries_wf(r);
}

/// Every value after insertion is the inserted value or one that was there.
pub proof fn lemma_insert_values(es: Seq<Entry>, k: Seq<char>, v: Json, j: int)
    requires
        0 <= j < obj_insert(es, k, v).len(),
    ensures
        obj_insert(es, k, v)[j].1 == v || exists|m: int| 0 <= m < es.len() && es[m].1 == obj_insert(
            es,
            k,
            v,
        )[j].1,
    decreases es.len(),
{
    let r = obj_insert(es, k, v);
    if es.len() > 0 {
        if es[0].0 == k {
            if j > 0 {
                assert(r[j] == es[j]);
            }
        } else if str_lt(k, es[0].0) {
            if j > 0 {
                assert(r[j] == es[j - 1]);
            }
        } else {
            if j == 0 {
                assert(r[0] == es[0]);
            } else {
                lemma_insert_values(es.drop_first(), k, v, j - 1);
                let rt = obj_insert(es.drop_first(), k, v);
                assert(r[j] == rt[j - 1]);
                if rt[j - 1].1 != v {
                    let m = choose|m: int|
                        0 <= m < es.drop_first().len() && es.drop_first()[m].1 == rt[j - 1].1;
                    assert(es[m + 1] == es.drop_first()[m]);
                }
            }
        }
    }
}

/// Writing a well-formed value under a key keeps an object well formed.
pub proof fn law_update_keeps_wf(es: Seq<Entry>, k: Seq<char>, v: Json)
    requires
        keys_sorted(es),
        entries_wf(es),
        json_wf(v),
    ensures
        keys_sorted(obj_update(es, k, v)),
        entries_wf(obj_update(es, k, v)),
{
    lemma_entries_wf(es);
    let r = obj_update(es, k, v);
    lemma_find_key(es, k);
    assert forall|j: int| 0 <= j < r.len() implies json_wf(#[trigger] r[j].1) by {}
    lemma_entries_wf(r);
    assert forall|i: int, j: int| 0 <= i < j < r.len() implies str_lt(
        #[trigger] r[i].0,
        #[trigger] r[j].0,
    ) by {
        assert(r[i].0 == es[i].0);
        assert(r[j].0 == es[j].0);
    }
}

/// The value stored under a key of a well-formed object is well formed.
pub proof fn lemma_get_wf(es: Seq<Entry>, k: Seq<char>)
    requires
        entries_wf(es),
    ensures
        obj_get(es, k) matches Some(v) ==> json_wf(v),
{
    lemma_entries_wf(es);
    lemma_find_key(es, k);
}

/// The entries after the first of an object with keys in order still have
/// their keys in order, and none of them is the first key.
pub proof fn lemma_sorted_tail(es: Seq<Entry>)
    requires
        keys_sorted(es),
        es.len() > 0,
    ensures
        keys_sorted(es.drop_first()),
        obj_get(es.drop_first(), es[0].0) is None,
{
    let t = es.drop_first();
    assert forall|i: int, j: int| 0 <= i < j < t.len() implies str_lt(
        #[trigger] t[i].0,
        #[trigger] t[j].0,
    ) by {
        assert(t[i] == es[i + 1]);
        assert(t[j] == es[j + 1]);
    }
    lemma_find_key(t, es[0].0);
    if let Some(i) = find_key(t, es[0].0) {
        assert(t[i] == es[i + 1]);
        crate::text::lemma_str_lt_irreflexive(es[0].0);
    }
}

/// Two objects with their keys in order that give the same value under every
/// key are the same object.
pub proof fn lemma_sorted_entries_ext(a: Seq<Entry>, b: Seq<Entry>)
    requires
        keys_sorted(a),
        keys_sorted(b),
        forall|k: Seq<char>| #[trigger] obj_get(a, k) == obj_get(b, k),
    ensures
        a == b,
    decreases a.len() + b.len(),
{
    if a.len() == 0 && b.len() == 0 {
        assert(a =~= b);
    } else if a.len() == 0 {
        lemma_obj_get_unfold(b, b[0].0);
        assert(obj_get(a, b[0].0) is None);
    } else if b.len() == 0 {
        lemma_obj_get_unfold(a, a[0].0);
        assert(obj_get(b, a[0].0) is None);
    } else {
        let ka = a[0].0;
        let kb = b[0].0;
        lemma_obj_get_unfold(a, ka);
        lemma_obj_get_unfold(b, kb);
        if ka != kb {
            crate::text::lemma_str_lt_total(ka, kb);
            if str_lt(ka, kb) {
                assert(obj_get(b, ka) is Some);
                lemma_find_key(b, ka);
                let i = find_key(b, ka)->0;
                crate::text::lemma_str_lt_transitive(ka, kb, b[i].0);
                crate::text::lemma_str_lt_irreflexive(ka);
            } else {
                assert(obj_get(a, kb) is Some);
                lemma_find_key(a, kb);
                let i = find_key(a, kb)->0;
                crate::text::lemma_str_lt_transitive(kb, ka, a[i].0);
                crate::text::lemma_str_lt_irreflexive(kb);
            }
        }
        assert(a[0] == b[0]);
        let ta = a.drop_first();
        let tb = b.drop_first();
        lemma_sorted_tail(a);
        lemma_sorted_tail(b);
        assert forall|k: Seq<char>| #[trigger] obj_get(ta, k) == obj_get(tb, k) by {
            if k != ka {
                lemma_obj_get_unfold(a, k);
                lemma_obj_get_unfold(b, k);
            }
        }
        lemma_sorted_entries_ext(ta, tb);
        assert(a =~= seq![a[0]] + ta);
        assert(b =~= seq![b[0]] + tb);
    }
}

// ---------------------------------------------------------------------------
// Parsing JSON text
// ---------------------------------------------------------------------------

#[verifier::external_type_specification]
#[verifier::external_body]
pub struct ExSerdeValue(Value);

/// The document that serde_json's parser reads from `text`, where it reads one.
pub uninterp spec fn parsed_json(text: Seq<char>) -> Option<Json>;

/// The message of the error serde_json's parser reports for `text`.
pub uninterp spec fn json_parse_error(text: Seq<char>) -> Seq<char>;

/// The library's value for a serde_json value, entry for entry; a map's
/// entries come in its key order and a number as its text.
#[verifier::external_body]
fn json_value_of(v: &Value) -> JsonValue {
    match v {
        Value::Null => JsonValue::Null,
        Value::Bool(b) => JsonValue::Bool(*b),
        Value::Number(n) => JsonValue::Number(n.to_string()),
        Value::String(s) => JsonValue::Str(s.clone()),
        Value::Array(items) => JsonValue::Array(items.iter().map(json_value_of).collect()),
        Value::Object(map) => JsonValue::Object(
            map.iter().map(|(k, x)| (k.clone(), json_value_of(x))).collect(),
        ),
    }
}

/// `serde_json::from_str::<Value>` on `text`: the document it reads, or the
/// message of its error. The result depends on the text alone; the map of
/// serde_json here is a `BTreeMap`, which hands its entries out in the order
/// of their keys, each key once, so every object read is well formed.
#[verifier::external_body]
pub fn parse_json(text: &str) -> (parsed: Result<JsonValue, String>)
    ensures
        match parsed {
            Ok(v) => parsed_json(text@) == Some(v@) && json_wf(v@),
            Err(e) => parsed_json(text@) is None && e@ == json_parse_error(text@),
        },
{
    match zed_extension_api::serde_json::from_str::<Value>(text) {
        Ok(value) => Ok(json_value_of(&value)),
        Err(error) => Err(error.to_string()),
    }
}

} // verus!
