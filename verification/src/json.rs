//! A JSON document as the configuration logic reads it: navigation by
//! dotted keys, the text a value is reported as, and the listing of keys.

use vstd::prelude::*;
use crate::error::Error;
use crate::text::{from_chars, push_all, split_char, split_char_exec, to_chars, views};
use crate::quote::{json_quoted, quote_string};

verus! {

/// A JSON value. Numbers are held as the decimal text by which serde_json
/// writes them; the entries of an object keep the order in which the
/// object lists them.
#[derive(Debug)]
pub enum JsonValue {
    Null,
    Bool(bool),
    Number(String),
    Str(String),
    Array(Vec<JsonValue>),
    Object(Vec<(String, JsonValue)>),
}

/// The value of the first entry whose key is `key`.
pub open spec fn lookup(entries: Seq<(String, JsonValue)>, key: Seq<char>) -> Option<JsonValue>
    decreases entries.len(),
{
    if entries.len() == 0 {
        None
    } else if entries[0].0@ == key {
        Some(entries[0].1)
    } else {
        lookup(entries.drop_first(), key)
    }
}

/// The value reached from `v` by looking up each part in turn; `None` where
/// a part is missing or the value reached so far is not an object.
pub open spec fn navigate(v: JsonValue, parts: Seq<Seq<char>>) -> Option<JsonValue>
    decreases parts.len(),
{
    if parts.len() == 0 {
        Some(v)
    } else {
        match v {
            JsonValue::Object(entries) => match lookup(entries@, parts[0]) {
                Some(child) => navigate(child, parts.drop_first()),
                None => None,
            },
            _ => None,
        }
    }
}

/// The value that a dotted key names in `v`.
pub open spec fn query(v: JsonValue, key: Seq<char>) -> Option<JsonValue> {
    navigate(v, split_char(key, '.'))
}

/// The position of the first entry whose key is `key`.
pub fn find_entry(entries: &Vec<(String, JsonValue)>, key: &String) -> (r: Option<usize>)
    ensures
        match r {
            Some(j) => j < entries.len() && entries@[j as int].0@ == key@ && lookup(entries@, key@)
                == Some(entries@[j as int].1),
            None => lookup(entries@, key@) is None,
        },
{
    let mut j: usize = 0;
    assert(entries@.skip(0) == entries@);
    while j < entries.len()
        invariant
            j <= entries.len(),
            lookup(entries@, key@) == lookup(entries@.skip(j as int), key@),
        decreases entries.len() - j,
    {
        assert(entries@.skip(j as int)[0] == entries@[j as int]);
        assert(entries@.skip(j as int).drop_first() == entries@.skip(j + 1));
        if entries[j].0 == *key {
            return Some(j);
        }
        j = j + 1;
    }
    None
}

/// The value that the dotted key `key` names in `json`: the key is split at
/// each `.`, and each piece is looked up in the object reached so far.
pub fn query_key<'a>(json: &'a JsonValue, key: &str) -> (r: Option<&'a JsonValue>)
    ensures
        match r {
            Some(x) => query(*json, key@) == Some(*x),
            None => query(*json, key@) is None,
        },
{
    let chars = to_chars(key);
    let parts = split_char_exec(&chars, '.');
    let ghost ps = views(parts@);
    let mut current: &JsonValue = json;
    let mut i: usize = 0;
    assert(ps.skip(0) == ps);
    while i < parts.len()
        invariant
            i <= parts.len(),
            ps == views(parts@),
            ps == split_char(key@, '.'),
            navigate(*json, ps) == navigate(*current, ps.skip(i as int)),
        decreases parts.len() - i,
    {
        let ghost rest = ps.skip(i as int);
        assert(rest[0] == parts@[i as int]@);
        assert(rest.drop_first() == ps.skip(i + 1));
        match current {
            JsonValue::Object(entries) => match find_entry(entries, &parts[i]) {
                Some(j) => {
                    current = &entries[j].1;
                },
                None => {
                    return None;
                },
            },
            _ => {
                return None;
            },
        }
        i = i + 1;
    }
    Some(current)
}

/// The JSON text of `v` as serde_json writes it without whitespace.
pub open spec fn compact_text(v: JsonValue) -> Seq<char>
    decreases v,
{
    match v {
        JsonValue::Null => seq!['n', 'u', 'l', 'l'],
        JsonValue::Bool(b) => bool_text(b),
        JsonValue::Number(t) => t@,
        JsonValue::Str(s) => json_quoted(s@),
        JsonValue::Array(items) => seq!['['] + items_text(items@) + seq![']'],
        JsonValue::Object(entries) => seq!['{'] + entries_text(entries@) + seq!['}'],
    }
}

/// The texts of `items`, separated by commas.
pub open spec fn items_text(items: Seq<JsonValue>) -> Seq<char>
    decreases items,
{
    if items.len() == 0 {
        Seq::empty()
    } else if items.len() == 1 {
        compact_text(items[0])
    } else {
        items_text(items.subrange(0, items.len() - 1)) + seq![','] + compact_text(
            items[items.len() - 1],
        )
    }
}

/// The entries of an object as `"key":value`, separated by commas.
pub open spec fn entries_text(entries: Seq<(String, JsonValue)>) -> Seq<char>
    decreases entries,
{
    if entries.len() == 0 {
        Seq::empty()
    } else if entries.len() == 1 {
        json_quoted(entries[0].0@) + seq![':'] + compact_text(entries[0].1)
    } else {
        entries_text(entries.subrange(0, entries.len() - 1)) + seq![','] + json_quoted(
            entries[entries.len() - 1].0@,
        ) + seq![':'] + compact_text(entries[entries.len() - 1].1)
    }
}

/// `true` or `false`.
pub open spec fn bool_text(b: bool) -> Seq<char> {
    if b {
        seq!['t', 'r', 'u', 'e']
    } else {
        seq!['f', 'a', 'l', 's', 'e']
    }
}

/// The text under which a configuration value is reported: a string as it
/// is, any other value as its JSON text (`null`, `true`, `42`, `[1,2]`, ...).
pub open spec fn config_text(v: JsonValue) -> Seq<char> {
    match v {
        JsonValue::Str(s) => s@,
        _ => compact_text(v),
    }
}

/// Appends the JSON string literal of `s` to `out`.
fn push_quoted(out: &mut Vec<char>, s: &String) -> (r: Result<(), Error>)
    ensures
        r is Ok,
        final(out)@ == old(out)@ + json_quoted(s@),
{
    match quote_string(s.as_str()) {
        Ok(t) => {
            push_all(out, &to_chars(t.as_str()));
            Ok(())
        },
        Err(m) => Err(Error::Source(m)),
    }
}

/// The JSON text of `v` as serde_json writes it without whitespace.
pub fn compact_chars(v: &JsonValue) -> (r: Result<Vec<char>, Error>)
    ensures
        r matches Ok(t) && t@ == compact_text(*v),
    decreases v,
{
    let mut out: Vec<char> = Vec::new();
    match v {
        JsonValue::Null => {
            out.push('n');
            out.push('u');
            out.push('l');
            out.push('l');
        },
        JsonValue::Bool(b) => {
            if *b {
                out.push('t');
                out.push('r');
                out.push('u');
                out.push('e');
            } else {
                out.push('f');
                out.push('a');
                out.push('l');
                out.push('s');
                out.push('e');
            }
        },
        JsonValue::Number(t) => {
            out = to_chars(t.as_str());
        },
        JsonValue::Str(s) => {
            push_quoted(&mut out, s)?;
        },
        JsonValue::Array(items) => {
            out.push('[');
            let mut i: usize = 0;
            while i < items.len()
                invariant
                    i <= items.len(),
                    out@ == seq!['['] + items_text(items@.subrange(0, i as int)),
                    *v == JsonValue::Array(*items),
                decreases items.len() - i,
            {
                assert(items@.subrange(0, i + 1).subrange(0, i as int) == items@.subrange(
                    0,
                    i as int,
                ));
                if i > 0 {
                    out.push(',');
                }
                proof {
                    assert(decreases_to!(*v => (*v)->Array_0));
                    assert(decreases_to!(*items => items@));
                    assert(decreases_to!(items@ => items@[i as int]));
                }
                let t = compact_chars(&items[i])?;
                push_all(&mut out, &t);
                i = i + 1;
            }
            assert(items@.subrange(0, items.len() as int) == items@);
            out.push(']');
        },
        JsonValue::Object(entries) => {
            out.push('{');
            let mut i: usize = 0;
            while i < entries.len()
                invariant
                    i <= entries.len(),
                    out@ == seq!['{'] + entries_text(entries@.subrange(0, i as int)),
                    *v == JsonValue::Object(*entries),
                decreases entries.len() - i,
            {
                assert(entries@.subrange(0, i + 1).subrange(0, i as int) == entries@.subrange(
                    0,
                    i as int,
                ));
                if i > 0 {
                    out.push(',');
                }
                push_quoted(&mut out, &entries[i].0)?;
                out.push(':');
                proof {
                    assert(decreases_to!(*v => (*v)->Object_0));
                    assert(decreases_to!(*entries => entries@));
                    assert(decreases_to!(entries@ => entries@[i as int]));
                    assert(decreases_to!(entries@[i as int] => entries@[i as int].1));
                }
                let t = compact_chars(&entries[i].1)?;
                push_all(&mut out, &t);
                i = i + 1;
            }
            assert(entries@.subrange(0, entries.len() as int) == entries@);
            out.push('}');
        },
    }
    Ok(out)
}

/// The text under which a configuration value is reported.
pub fn value_text(v: &JsonValue) -> (r: Result<String, Error>)
    ensures
        r matches Ok(t) && t@ == config_text(*v),
{
    match v {
        JsonValue::Str(s) => Ok(s.clone()),
        _ => {
            let t = compact_chars(v)?;
            Ok(from_chars(&t))
        },
    }
}

/// The dotted key of `key` under `prefix`; at the top level, `key` itself.
pub open spec fn full_key(prefix: Seq<char>, key: Seq<char>) -> Seq<char> {
    if prefix.len() == 0 {
        key
    } else {
        prefix + seq!['.'] + key
    }
}

/// The keys that `v` lists under `prefix`: for an object, each entry's
/// dotted key followed by the keys of the entry's value; for any other
/// value, the prefix itself unless it is empty.
pub open spec fn json_keys(v: JsonValue, prefix: Seq<char>) -> Seq<Seq<char>>
    decreases v,
{
    match v {
        JsonValue::Object(entries) => entries_keys(entries@, prefix),
        _ => if prefix.len() == 0 {
            Seq::empty()
        } else {
            seq![prefix]
        },
    }
}

/// The keys that the entries of an object list under `prefix`, in order.
pub open spec fn entries_keys(entries: Seq<(String, JsonValue)>, prefix: Seq<char>) -> Seq<
    Seq<char>,
>
    decreases entries,
{
    if entries.len() == 0 {
        Seq::empty()
    } else {
        let full = full_key(prefix, entries[entries.len() - 1].0@);
        entries_keys(entries.subrange(0, entries.len() - 1), prefix) + seq![full] + json_keys(
            entries[entries.len() - 1].1,
            full,
        )
    }
}

/// `prefix.key`, or `key` where the prefix is empty.
fn join_key(prefix: &String, key: &String) -> (r: String)
    ensures
        r@ == full_key(prefix@, key@),
{
    if prefix.as_str().is_empty() {
        key.clone()
    } else {
        let mut r = prefix.clone();
        proof {
            reveal_strlit(".");
        }
        r.append(".");
        r.append(key.as_str());
        r
    }
}

/// Collects the keys of `value` in dotted notation under `prefix`.
pub fn collect_json_keys(value: &JsonValue, prefix: String) -> (keys: Vec<String>)
    ensures
        views(keys@) == json_keys(*value, prefix@),
    decreases value,
{
    let mut keys: Vec<String> = Vec::new();
    match value {
        JsonValue::Object(entries) => {
            let mut i: usize = 0;
            assert(views(keys@) =~= entries_keys(entries@.subrange(0, 0), prefix@));
            while i < entries.len()
                invariant
                    i <= entries.len(),
                    views(keys@) == entries_keys(entries@.subrange(0, i as int), prefix@),
                    *value == JsonValue::Object(*entries),
                decreases entries.len() - i,
            {
                assert(entries@.subrange(0, i + 1).subrange(0, i as int) == entries@.subrange(
                    0,
                    i as int,
                ));
                let full = join_key(&prefix, &entries[i].0);
                proof {
                    assert(decreases_to!(*value => (*value)->Object_0));
                    assert(decreases_to!(*entries => entries@));
                    assert(decreases_to!(entries@ => entries@[i as int]));
                    assert(decreases_to!(entries@[i as int] => entries@[i as int].1));
                }
                let ghost before = keys@;
                keys.push(full.clone());
                let mut sub = collect_json_keys(&entries[i].1, full);
                let ghost pushed = keys@;
                let ghost subv = sub@;
                keys.append(&mut sub);
                assert(views(pushed) =~= views(before).push(full@));
                assert(views(keys@) =~= views(pushed) + views(subv));
                i = i + 1;
            }
            assert(entries@.subrange(0, entries.len() as int) == entries@);
        },
        _ => {
            if !prefix.as_str().is_empty() {
                keys.push(prefix);
                assert(views(keys@) =~= seq![prefix@]);
            }
        },
    }
    keys
}

} // verus!

verus! {

/// Whether every object in `v`, at any depth, names each of its members
/// once, as the objects of serde_json do.
pub open spec fn distinct_keys(v: JsonValue) -> bool
    decreases v,
{
    match v {
        JsonValue::Array(items) => distinct_items(items@),
        JsonValue::Object(entries) => distinct_entries(entries@),
        _ => true,
    }
}

/// Whether every value of `items` meets `distinct_keys`.
pub open spec fn distinct_items(items: Seq<JsonValue>) -> bool
    decreases items,
{
    forall|i: int| 0 <= i < items.len() ==> distinct_keys(#[trigger] items[i])
}

/// Whether the entries of an object name distinct members, and their
/// values meet `distinct_keys`.
pub open spec fn distinct_entries(entries: Seq<(String, JsonValue)>) -> bool
    decreases entries,
{
    &&& forall|i: int, j: int|
        0 <= i < j < entries.len() ==> #[trigger] entries[i].0@ != #[trigger] entries[j].0@
    &&& forall|i: int| 0 <= i < entries.len() ==> distinct_keys(#[trigger] entries[i].1)
}

/// Whether every object in `v` names each of its members once.
pub fn has_distinct_keys(v: &JsonValue) -> (b: bool)
    ensures
        b == distinct_keys(*v),
    decreases v,
{
    match v {
        JsonValue::Array(items) => {
            let mut i: usize = 0;
            while i < items.len()
                invariant
                    i <= items.len(),
                    *v == JsonValue::Array(*items),
                    forall|j: int| 0 <= j < i ==> distinct_keys(#[trigger] items@[j]),
                decreases items.len() - i,
            {
                proof {
                    assert(decreases_to!(*v => (*v)->Array_0));
                    assert(decreases_to!(*items => items@));
                    assert(decreases_to!(items@ => items@[i as int]));
                }
                if !has_distinct_keys(&items[i]) {
                    return false;
                }
                i = i + 1;
            }
            true
        },
        JsonValue::Object(entries) => {
            let mut i: usize = 0;
            while i < entries.len()
                invariant
                    i <= entries.len(),
                    *v == JsonValue::Object(*entries),
                    forall|a: int, c: int|
                        0 <= a < c < entries.len() && a < i ==> #[trigger] entries@[a].0@
                            != #[trigger] entries@[c].0@,
                    forall|j: int| 0 <= j < i ==> distinct_keys(#[trigger] entries@[j].1),
                decreases entries.len() - i,
            {
                let mut j: usize = i + 1;
                while j < entries.len()
                    invariant
                        i < j <= entries.len(),
                        *v == JsonValue::Object(*entries),
                        forall|c: int| i < c < j ==> entries@[i as int].0@ != #[trigger] entries@[c].0@,
                    decreases entries.len() - j,
                {
                    if entries[i].0 == entries[j].0 {
                        assert(entries@[i as int].0@ == entries@[j as int].0@);
                        assert(!distinct_entries(entries@));
                        return false;
                    }
                    j = j + 1;
                }
                proof {
                    assert(decreases_to!(*v => (*v)->Object_0));
                    assert(decreases_to!(*entries => entries@));
                    assert(decreases_to!(entries@ => entries@[i as int]));
                    assert(decreases_to!(entries@[i as int] => entries@[i as int].1));
                }
                if !has_distinct_keys(&entries[i].1) {
                    return false;
                }
                i = i + 1;
            }
            true
        },
        _ => true,
    }
}

} // verus!
