//! Properties that relate several operations of the library.

use vstd::prelude::*;
use crate::config::{digit_value, is_digit, parse_int, scan_digits, FieldValue, IntErrorKind};
use crate::source::{nested_key_of, nested_keys_of, EnvSource};
use crate::json::{distinct_keys, entries_keys, full_key, json_keys, lookup, navigate, query, JsonValue};
use crate::text::{has_prefix, replace_char, replace_str, split_char};

verus! {

/// Replacing a character, read from the front: the first character's
/// replacement followed by the replacement of the rest.
proof fn lemma_replace_char_front(s: Seq<char>, c: char, rep: Seq<char>)
    requires
        s.len() > 0,
    ensures
        replace_char(s, c, rep) == (if s[0] == c {
            rep
        } else {
            seq![s[0]]
        }) + replace_char(s.drop_first(), c, rep),
    decreases s.len(),
{
    if s.len() == 1 {
        assert(s.drop_last() =~= Seq::<char>::empty());
        assert(s.drop_first() =~= Seq::<char>::empty());
        assert(replace_char(Seq::<char>::empty(), c, rep) =~= Seq::<char>::empty());
    } else {
        lemma_replace_char_front(s.drop_last(), c, rep);
        assert(s.drop_last().drop_first() =~= s.drop_first().drop_last());
        assert(s.drop_first().last() == s.last());
        assert(s.drop_last()[0] == s[0]);
        let h = if s[0] == c {
            rep
        } else {
            seq![s[0]]
        };
        let t = if s.last() == c {
            rep
        } else {
            seq![s.last()]
        };
        assert(replace_char(s, c, rep) == replace_char(s.drop_last(), c, rep) + t);
        assert(replace_char(s.drop_first(), c, rep) == replace_char(s.drop_first().drop_last(), c, rep) + t);
        assert(h + replace_char(s.drop_first().drop_last(), c, rep) + t =~= h + (replace_char(s.drop_first().drop_last(), c, rep) + t));
    }
}

/// Whether no character of `key`, other than `.`, occurs in `separator`.
pub open spec fn separable(key: Seq<char>, separator: Seq<char>) -> bool {
    forall|i: int| 0 <= i < key.len() && key[i] != '.' ==> !separator.contains(#[trigger] key[i])
}

proof fn lemma_unreplace_replace(k: Seq<char>, sep: Seq<char>)
    requires
        sep.len() > 0,
        separable(k, sep),
    ensures
        replace_str(replace_char(k, '.', sep), sep, seq!['.']) == k,
    decreases k.len(),
{
    if k.len() == 0 {
        assert(replace_char(k, '.', sep) =~= Seq::<char>::empty());
    } else {
        lemma_replace_char_front(k, '.', sep);
        let rest = replace_char(k.drop_first(), '.', sep);
        assert(separable(k.drop_first(), sep)) by {
            assert forall|i: int| 0 <= i < k.drop_first().len() && k.drop_first()[i] != '.'
                implies !sep.contains(#[trigger] k.drop_first()[i]) by {
                assert(k.drop_first()[i] == k[i + 1]);
            }
        }
        lemma_unreplace_replace(k.drop_first(), sep);
        let s = replace_char(k, '.', sep);
        if k[0] == '.' {
            assert(s == sep + rest);
            assert(s.take(sep.len() as int) =~= sep);
            assert(s.skip(sep.len() as int) =~= rest);
            assert(replace_str(s, sep, seq!['.']) == seq!['.'] + replace_str(rest, sep, seq!['.']));
            assert(seq!['.'] + k.drop_first() =~= k);
        } else {
            assert(s == seq![k[0]] + rest);
            assert(s[0] == k[0]);
            if sep.len() <= s.len() && s.take(sep.len() as int) == sep {
                assert(sep[0] == s.take(sep.len() as int)[0]);
                assert(sep.contains(k[0]));
                assert(false);
            }
            assert(s.drop_first() =~= rest);
            assert(seq![k[0]] + k.drop_first() =~= k);
        }
    }
}

#[verifier::spinoff_prover]
#[verifier::rlimit(40)]
proof fn lemma_replace_unreplace(x: Seq<char>, sep: Seq<char>)
    requires
        !x.contains('.'),
    ensures
        replace_char(replace_str(x, sep, seq!['.']), '.', sep) == x,
    decreases x.len(),
{
    let dot = seq!['.'];
    if sep.len() == 0 {
        if x.len() == 0 {
            lemma_replace_char_front(dot, '.', sep);
            assert(dot.drop_first() =~= Seq::<char>::empty());
            assert(replace_char(dot, '.', sep) =~= Seq::<char>::empty());
        } else {
            assert(!x.drop_first().contains('.')) by {
                if x.drop_first().contains('.') {
                    let i = choose|i: int| 0 <= i < x.drop_first().len() && x.drop_first()[i] == '.';
                    assert(x[i + 1] == '.');
                }
            }
            lemma_replace_unreplace(x.drop_first(), sep);
            let r = replace_str(x.drop_first(), sep, dot);
            let s = dot + seq![x[0]] + r;
            assert(replace_str(x, sep, dot) == s);
            assert(x[0] != '.') by {
                assert(x.contains(x[0]));
            }
            lemma_replace_char_front(s, '.', sep);
            assert(s.drop_first() =~= seq![x[0]] + r);
            lemma_replace_char_front(s.drop_first(), '.', sep);
            assert(s.drop_first().drop_first() =~= r);
            assert(replace_char(s, '.', sep) =~= sep + (seq![x[0]] + replace_char(r, '.', sep)));
            assert(seq![x[0]] + x.drop_first() =~= x);
        }
    } else if x.len() == 0 {
        assert(replace_char(Seq::<char>::empty(), '.', sep) =~= Seq::<char>::empty());
    } else if sep.len() <= x.len() && x.take(sep.len() as int) == sep {
        let rest = x.skip(sep.len() as int);
        assert(!rest.contains('.')) by {
            if rest.contains('.') {
                let i = choose|i: int| 0 <= i < rest.len() && rest[i] == '.';
                assert(x[i + sep.len()] == '.');
            }
        }
        lemma_replace_unreplace(rest, sep);
        let r = replace_str(rest, sep, dot);
        let s = dot + r;
        lemma_replace_char_front(s, '.', sep);
        assert(s.drop_first() =~= r);
        assert(replace_char(s, '.', sep) =~= sep + replace_char(r, '.', sep));
        assert(sep + rest =~= x);
    } else {
        assert(!x.drop_first().contains('.')) by {
            if x.drop_first().contains('.') {
                let i = choose|i: int| 0 <= i < x.drop_first().len() && x.drop_first()[i] == '.';
                assert(x[i + 1] == '.');
            }
        }
        lemma_replace_unreplace(x.drop_first(), sep);
        let r = replace_str(x.drop_first(), sep, dot);
        let s = seq![x[0]] + r;
        assert(x[0] != '.') by {
            assert(x.contains(x[0]));
        }
        lemma_replace_char_front(s, '.', sep);
        assert(s.drop_first() =~= r);
        assert(seq![x[0]] + x.drop_first() =~= x);
    }
}

/// A nested key that keys lists back from its environment variable: the
/// variable name under which an `EnvSource` looks up a nested key is read
/// back as the same nested key, where the separator is not empty and no
/// character of the key other than `.` occurs in the separator (such as
/// `database.host` under `__`).
pub proof fn lemma_env_key_round_trip(source: EnvSource, nested: Seq<char>)
    requires
        source.separator_view().len() > 0,
        separable(nested, source.separator_view()),
    ensures
        source.nested_key(source.env_key(nested)) == Some(nested),
{
    let sep = source.separator_view();
    lemma_unreplace_replace(nested, sep);
    let body = replace_char(nested, '.', sep);
    match source.prefix_view() {
        Some(p) => {
            let e = p + seq!['_'] + body;
            assert(e.take(p.len() + 1int) =~= p + seq!['_']);
            assert(has_prefix(e, p + seq!['_']));
            assert(e.skip(p.len() + 1int) =~= body);
        },
        None => {},
    }
}

/// An environment variable that an `EnvSource` lists as a nested key is
/// the variable under which the source looks that key up again, where the
/// variable name holds no `.` (such as `APP_database__host`).
pub proof fn lemma_nested_key_round_trip(source: EnvSource, env_key: Seq<char>)
    requires
        !env_key.contains('.'),
        source.nested_key(env_key) is Some,
    ensures
        source.env_key(source.nested_key(env_key)->0) == env_key,
{
    let sep = source.separator_view();
    match source.prefix_view() {
        Some(p) => {
            let rest = env_key.skip(p.len() + 1int);
            assert(!rest.contains('.')) by {
                if rest.contains('.') {
                    let i = choose|i: int| 0 <= i < rest.len() && rest[i] == '.';
                    assert(env_key[i + p.len() + 1] == '.');
                }
            }
            lemma_replace_unreplace(rest, sep);
            assert(env_key.take(p.len() + 1int) == p + seq!['_']);
            assert(p + seq!['_'] + rest =~= env_key);
        },
        None => {
            lemma_replace_unreplace(env_key, sep);
        },
    }
}

/// Whether a key can name a member of an object in dotted notation: it is
/// not empty and holds no `.`.
pub open spec fn plain_key(k: Seq<char>) -> bool {
    k.len() > 0 && !k.contains('.')
}

/// Whether every object in `v` has distinct keys that can be written in
/// dotted notation; serde_json's objects have distinct keys by nature.
pub open spec fn plain_keys(v: JsonValue) -> bool
    decreases v,
{
    match v {
        JsonValue::Object(entries) => plain_entries(entries@),
        _ => true,
    }
}

/// Whether the entries of an object have distinct keys that can be written
/// in dotted notation, and so do the objects within their values.
pub open spec fn plain_entries(entries: Seq<(String, JsonValue)>) -> bool
    decreases entries,
{
    &&& forall|i: int, j: int|
        0 <= i < j < entries.len() ==> #[trigger] entries[i].0@ != #[trigger] entries[j].0@
    &&& forall|i: int| 0 <= i < entries.len() ==> plain_key(#[trigger] entries[i].0@)
    &&& forall|i: int| 0 <= i < entries.len() ==> plain_keys(#[trigger] entries[i].1)
}

/// The parts joined by `.`.
pub open spec fn join_dots(parts: Seq<Seq<char>>) -> Seq<char>
    decreases parts.len(),
{
    if parts.len() == 0 {
        Seq::empty()
    } else if parts.len() == 1 {
        parts[0]
    } else {
        join_dots(parts.drop_last()) + seq!['.'] + parts.last()
    }
}

/// Whether every part is a plain key.
pub open spec fn plain_path(parts: Seq<Seq<char>>) -> bool {
    forall|i: int| 0 <= i < parts.len() ==> plain_key(#[trigger] parts[i])
}

proof fn lemma_split_no_dot(s: Seq<char>)
    requires
        !s.contains('.'),
    ensures
        split_char(s, '.') == seq![s],
    decreases s.len(),
{
    if s.len() == 0 {
        assert(s =~= Seq::<char>::empty());
    } else {
        assert(!s.drop_last().contains('.')) by {
            if s.drop_last().contains('.') {
                let i = choose|i: int| 0 <= i < s.drop_last().len() && s.drop_last()[i] == '.';
                assert(s[i] == '.');
            }
        }
        lemma_split_no_dot(s.drop_last());
        assert(s.last() != '.') by {
            assert(s.contains(s[s.len() - 1]));
        }
        assert(s.drop_last().push(s.last()) =~= s);
        assert(seq![s.drop_last()].update(0, s.drop_last().push(s.last())) =~= seq![s]);
    }
}

proof fn lemma_split_append(a: Seq<char>, k: Seq<char>)
    requires
        !k.contains('.'),
    ensures
        split_char(a + seq!['.'] + k, '.') == split_char(a, '.').push(k),
    decreases k.len(),
{
    let s = a + seq!['.'] + k;
    if k.len() == 0 {
        assert(s.drop_last() =~= a);
        assert(s.last() == '.');
        assert(k =~= Seq::<char>::empty());
    } else {
        assert(!k.drop_last().contains('.')) by {
            if k.drop_last().contains('.') {
                let i = choose|i: int| 0 <= i < k.drop_last().len() && k.drop_last()[i] == '.';
                assert(k[i] == '.');
            }
        }
        lemma_split_append(a, k.drop_last());
        assert(s.drop_last() =~= a + seq!['.'] + k.drop_last());
        assert(s.last() == k.last());
        assert(k.last() != '.') by {
            assert(k.contains(k[k.len() - 1]));
        }
        let init = split_char(a, '.').push(k.drop_last());
        assert(k.drop_last().push(k.last()) =~= k);
        assert(init.update(init.len() - 1, init.last().push(s.last())) =~= split_char(a, '.').push(k));
    }
}

proof fn lemma_join_nonempty(parts: Seq<Seq<char>>)
    requires
        parts.len() > 0,
        plain_path(parts),
    ensures
        join_dots(parts).len() > 0,
    decreases parts.len(),
{
    assert(plain_key(parts[0]));
    if parts.len() > 1 {
        assert(plain_key(parts[parts.len() - 1]));
    }
}

proof fn lemma_split_join(parts: Seq<Seq<char>>)
    requires
        parts.len() > 0,
        plain_path(parts),
    ensures
        split_char(join_dots(parts), '.') == parts,
    decreases parts.len(),
{
    assert(plain_key(parts[0]));
    if parts.len() == 1 {
        lemma_split_no_dot(parts[0]);
        assert(seq![parts[0]] =~= parts);
    } else {
        let init = parts.drop_last();
        assert(plain_path(init)) by {
            assert forall|i: int| 0 <= i < init.len() implies plain_key(#[trigger] init[i]) by {
                assert(init[i] == parts[i]);
            }
        }
        lemma_split_join(init);
        assert(plain_key(parts[parts.len() - 1]));
        lemma_split_append(join_dots(init), parts.last());
        assert(init.push(parts.last()) =~= parts);
    }
}

proof fn lemma_join_push(parts: Seq<Seq<char>>, k: Seq<char>)
    requires
        plain_path(parts),
    ensures
        full_key(join_dots(parts), k) == join_dots(parts.push(k)),
{
    assert(parts.push(k).drop_last() =~= parts);
    if parts.len() == 0 {
        assert(parts.push(k) =~= seq![k]);
    } else {
        lemma_join_nonempty(parts);
    }
}

proof fn lemma_navigate_push(root: JsonValue, parts: Seq<Seq<char>>, k: Seq<char>)
    ensures
        navigate(root, parts.push(k)) == match navigate(root, parts) {
            Some(v) => navigate(v, seq![k]),
            None => None,
        },
    decreases parts.len(),
{
    if parts.len() == 0 {
        assert(parts.push(k) =~= seq![k]);
    } else {
        assert(parts.push(k)[0] == parts[0]);
        assert(parts.push(k).drop_first() =~= parts.drop_first().push(k));
        match root {
            JsonValue::Object(entries) => match lookup(entries@, parts[0]) {
                Some(child) => {
                    lemma_navigate_push(child, parts.drop_first(), k);
                },
                None => {},
            },
            _ => {},
        }
    }
}

proof fn lemma_lookup_distinct(entries: Seq<(String, JsonValue)>, j: int)
    requires
        0 <= j < entries.len(),
        forall|i: int| 0 <= i < j ==> entries[i].0@ != entries[j].0@,
    ensures
        lookup(entries, entries[j].0@) == Some(entries[j].1),
    decreases j,
{
    if j > 0 {
        let rest = entries.drop_first();
        assert(rest[j - 1] == entries[j]);
        assert forall|i: int| 0 <= i < j - 1 implies #[trigger] rest[i].0@ != rest[j - 1].0@ by {
            assert(rest[i] == entries[i + 1]);
        }
        lemma_lookup_distinct(rest, j - 1);
        assert(entries[0].0@ != entries[j].0@);
    }
}

/// The keys that the first `n` entries of an object list under `prefix`;
/// for any other value, its keys under `prefix`.
pub open spec fn keys_part(v: JsonValue, prefix: Seq<char>, n: nat) -> Seq<Seq<char>> {
    match v {
        JsonValue::Object(entries) => entries_keys(entries@.subrange(0, n as int), prefix),
        _ => json_keys(v, prefix),
    }
}

proof fn lemma_entry_step(root: JsonValue, path: Seq<Seq<char>>, v: JsonValue, j: int)
    requires
        navigate(root, path) == Some(v),
        plain_keys(v),
        plain_path(path),
        v is Object,
        0 <= j < v->Object_0@.len(),
    ensures
        plain_path(path.push(v->Object_0@[j].0@)),
        plain_keys(v->Object_0@[j].1),
        navigate(root, path.push(v->Object_0@[j].0@)) == Some(v->Object_0@[j].1),
        full_key(join_dots(path), v->Object_0@[j].0@) == join_dots(path.push(v->Object_0@[j].0@)),
        query(root, join_dots(path.push(v->Object_0@[j].0@))) is Some,
{
    let es = v->Object_0@;
    let k = es[j].0@;
    let child = es[j].1;
    assert(plain_key(k));
    assert(plain_keys(child));
    let path2 = path.push(k);
    assert(plain_path(path2)) by {
        assert forall|i: int| 0 <= i < path2.len() implies plain_key(#[trigger] path2[i]) by {
            if i < path.len() {
                assert(path2[i] == path[i]);
            }
        }
    }
    lemma_join_push(path, k);
    lemma_navigate_push(root, path, k);
    assert forall|i: int| 0 <= i < j implies es[i].0@ != es[j].0@ by {
        assert(es[i].0@ != es[j].0@);
    }
    lemma_lookup_distinct(es, j);
    assert(navigate(child, Seq::<Seq<char>>::empty()) == Some(child));
    assert(seq![k].drop_first() =~= Seq::<Seq<char>>::empty());
    assert(navigate(root, path2) == Some(child));
    lemma_split_join(path2);
}

#[verifier::spinoff_prover]
#[verifier::rlimit(40)]
proof fn lemma_keys_resolve(root: JsonValue, path: Seq<Seq<char>>, v: JsonValue, n: nat, key: Seq<char>)
    requires
        navigate(root, path) == Some(v),
        plain_keys(v),
        plain_path(path),
        v is Object ==> n <= v->Object_0@.len(),
        keys_part(v, join_dots(path), n).contains(key),
    ensures
        query(root, key) is Some,
    decreases v, n,
{
    let prefix = join_dots(path);
    match v {
        JsonValue::Object(entries) => {
            let es = entries@;
            if n == 0 {
                assert(es.subrange(0, 0) =~= Seq::<(String, JsonValue)>::empty());
                assert(keys_part(v, prefix, n) =~= Seq::<Seq<char>>::empty());
                assert(false);
            }
            let f = es.subrange(0, n as int);
            let j: int = n - 1;
            assert(f.subrange(0, f.len() - 1) =~= es.subrange(0, j));
            assert(f[f.len() - 1] == es[j]);
            let k = es[j].0@;
            let child = es[j].1;
            let full = full_key(prefix, k);
            let first = entries_keys(es.subrange(0, j), prefix);
            let rest = json_keys(child, full);
            assert(keys_part(v, prefix, n) == first + seq![full] + rest);
            lemma_entry_step(root, path, v, j);
            let all = first + seq![full] + rest;
            let idx = choose|idx: int| 0 <= idx < all.len() && all[idx] == key;
            if idx < first.len() {
                assert(first[idx] == key);
                assert(keys_part(v, prefix, j as nat) == first);
                lemma_keys_resolve(root, path, v, j as nat, key);
            } else if idx == first.len() {
                assert(key == full);
            } else {
                assert(rest[idx - first.len() - 1] == key);
                assert(decreases_to!(v => v->Object_0));
                assert(decreases_to!(entries => entries@));
                assert(decreases_to!(es => es[j as int]));
                assert(decreases_to!(es[j as int] => es[j as int].1));
                let m: nat = match child {
                    JsonValue::Object(ce) => ce@.len(),
                    _ => 0,
                };
                match child {
                    JsonValue::Object(ce) => {
                        assert(ce@.subrange(0, m as int) =~= ce@);
                    },
                    _ => {},
                }
                assert(keys_part(child, join_dots(path.push(k)), m) == rest);
                lemma_keys_resolve(root, path.push(k), child, m, key);
            }
        },
        _ => {
            assert(keys_part(v, prefix, n) == json_keys(v, prefix));
            if prefix.len() == 0 {
                assert(json_keys(v, prefix) =~= Seq::<Seq<char>>::empty());
                assert(false);
            }
            assert(json_keys(v, prefix) == seq![prefix]);
            assert(key == prefix);
            assert(path.len() > 0);
            lemma_split_join(path);
        },
    }
}

/// Whether every member of every object reached from `v` through objects
/// has a name that can be written in dotted notation: not empty and without
/// `.`.
pub open spec fn dotted_names(v: JsonValue) -> bool
    decreases v,
{
    match v {
        JsonValue::Object(entries) => dotted_entries(entries@),
        _ => true,
    }
}

/// Whether the entries of an object have names that can be written in
/// dotted notation, and so do the objects within their values.
pub open spec fn dotted_entries(entries: Seq<(String, JsonValue)>) -> bool
    decreases entries,
{
    &&& forall|i: int| 0 <= i < entries.len() ==> plain_key(#[trigger] entries[i].0@)
    &&& forall|i: int| 0 <= i < entries.len() ==> dotted_names(#[trigger] entries[i].1)
}

proof fn lemma_plain_keys(v: JsonValue)
    requires
        distinct_keys(v),
        dotted_names(v),
    ensures
        plain_keys(v),
    decreases v,
{
    match v {
        JsonValue::Object(entries) => {
            assert forall|i: int| 0 <= i < entries@.len() implies plain_keys(#[trigger] entries@[i].1) by {
                assert(decreases_to!(v => v->Object_0));
                assert(decreases_to!(entries => entries@));
                assert(decreases_to!(entries@ => entries@[i]));
                assert(decreases_to!(entries@[i] => entries@[i].1));
                lemma_plain_keys(entries@[i].1);
            }
        },
        _ => {},
    }
}

/// Every key that a JSON document lists names a value of it: a key that
/// `DeserializerSource::keys` returns is found by `DeserializerSource::get`,
/// where each object names its members once (as serde_json's objects do)
/// and every member name is not empty and holds no `.`.
pub proof fn lemma_listed_keys_resolve(v: JsonValue, key: Seq<char>)
    requires
        distinct_keys(v),
        dotted_names(v),
        json_keys(v, Seq::empty()).contains(key),
    ensures
        query(v, key) is Some,
{
    lemma_plain_keys(v);
    let m: nat = match v {
        JsonValue::Object(e) => e@.len(),
        _ => 0,
    };
    match v {
        JsonValue::Object(e) => {
            assert(e@.subrange(0, m as int) =~= e@);
        },
        _ => {},
    }
    assert(join_dots(Seq::<Seq<char>>::empty()) == Seq::<char>::empty());
    assert(keys_part(v, Seq::empty(), m) == json_keys(v, Seq::empty()));
    lemma_keys_resolve(v, Seq::empty(), v, m, key);
}

/// A prefixed `EnvSource` lists only variables whose names start with its
/// prefix followed by `_`: every key that `nested_keys` gives is read from
/// such a name in the list, and is what that name stands for.
pub proof fn lemma_prefixed_keys_come_from_prefixed_names(
    source: EnvSource,
    names: Seq<Seq<char>>,
    key: Seq<char>,
)
    requires
        source.prefix_view() is Some,
        nested_keys_of(source.prefix_view(), source.separator_view(), names).contains(key),
    ensures
        exists|j: int|
            0 <= j < names.len() && has_prefix(
                #[trigger] names[j],
                source.prefix_view()->0 + seq!['_'],
            ) && source.nested_key(names[j]) == Some(key),
    decreases names.len(),
{
    let p = source.prefix_view();
    let sep = source.separator_view();
    if names.len() == 0 {
        assert(nested_keys_of(p, sep, names) =~= Seq::<Seq<char>>::empty());
        assert(false);
    }
    let init = nested_keys_of(p, sep, names.drop_last());
    let last = names[names.len() - 1];
    assert(names.last() == last);
    match nested_key_of(p, sep, last) {
        Some(k2) => {
            let all = init.push(k2);
            let idx = choose|idx: int| 0 <= idx < all.len() && all[idx] == key;
            if idx < init.len() {
                assert(init[idx] == key);
                assert(init.contains(key));
                lemma_prefixed_keys_come_from_prefixed_names(source, names.drop_last(), key);
                let j = choose|j: int|
                    0 <= j < names.drop_last().len() && has_prefix(
                        #[trigger] names.drop_last()[j],
                        p->0 + seq!['_'],
                    ) && source.nested_key(names.drop_last()[j]) == Some(key);
                assert(names.drop_last()[j] == names[j]);
            } else {
                assert(key == k2);
                assert(has_prefix(names[names.len() - 1], p->0 + seq!['_']));
            }
        },
        None => {
            lemma_prefixed_keys_come_from_prefixed_names(source, names.drop_last(), key);
            let j = choose|j: int|
                0 <= j < names.drop_last().len() && has_prefix(
                    #[trigger] names.drop_last()[j],
                    p->0 + seq!['_'],
                ) && source.nested_key(names.drop_last()[j]) == Some(key);
            assert(names.drop_last()[j] == names[j]);
        },
    }
}

proof fn lemma_listed_key_comes_from_a_name(source: EnvSource, names: Seq<Seq<char>>, key: Seq<char>)
    requires
        nested_keys_of(source.prefix_view(), source.separator_view(), names).contains(key),
    ensures
        exists|j: int| 0 <= j < names.len() && source.nested_key(#[trigger] names[j]) == Some(key),
    decreases names.len(),
{
    let p = source.prefix_view();
    let sep = source.separator_view();
    if names.len() == 0 {
        assert(nested_keys_of(p, sep, names) =~= Seq::<Seq<char>>::empty());
        assert(false);
    }
    let init = nested_keys_of(p, sep, names.drop_last());
    let last = names[names.len() - 1];
    assert(names.last() == last);
    match nested_key_of(p, sep, last) {
        Some(k2) => {
            let all = init.push(k2);
            let idx = choose|idx: int| 0 <= idx < all.len() && all[idx] == key;
            if idx < init.len() {
                assert(init[idx] == key);
                assert(init.contains(key));
                lemma_listed_key_comes_from_a_name(source, names.drop_last(), key);
                let j = choose|j: int|
                    0 <= j < names.drop_last().len() && source.nested_key(
                        #[trigger] names.drop_last()[j],
                    ) == Some(key);
                assert(names.drop_last()[j] == names[j]);
            } else {
                assert(key == k2);
                assert(source.nested_key(names[names.len() - 1]) == Some(key));
            }
        },
        None => {
            lemma_listed_key_comes_from_a_name(source, names.drop_last(), key);
            let j = choose|j: int|
                0 <= j < names.drop_last().len() && source.nested_key(
                    #[trigger] names.drop_last()[j],
                ) == Some(key);
            assert(names.drop_last()[j] == names[j]);
        },
    }
}

/// A key that an `EnvSource` lists reads a listed variable back: for every
/// key that `nested_keys` gives for a list of variable names without `.`,
/// the name under which `get` looks that key up is one of the names (so
/// `APP_database__host` is listed as `database.host`, which is looked up
/// as `APP_database__host`).
pub proof fn lemma_listed_keys_read_listed_names(source: EnvSource, names: Seq<Seq<char>>, key: Seq<char>)
    requires
        forall|j: int| 0 <= j < names.len() ==> !(#[trigger] names[j]).contains('.'),
        nested_keys_of(source.prefix_view(), source.separator_view(), names).contains(key),
    ensures
        names.contains(source.env_key(key)),
{
    lemma_listed_key_comes_from_a_name(source, names, key);
    let j = choose|j: int| 0 <= j < names.len() && source.nested_key(#[trigger] names[j]) == Some(key);
    lemma_nested_key_round_trip(source, names[j]);
    assert(names[j] == source.env_key(key));
}

} // verus!

verus! {

/// The decimal digit that stands for `d`, for `d < 10`.
pub open spec fn digit_char(d: nat) -> char {
    if d == 0 { '0' }
    else if d == 1 { '1' }
    else if d == 2 { '2' }
    else if d == 3 { '3' }
    else if d == 4 { '4' }
    else if d == 5 { '5' }
    else if d == 6 { '6' }
    else if d == 7 { '7' }
    else if d == 8 { '8' }
    else { '9' }
}

/// The decimal digits of `n`, most significant first, without leading
/// zeros (`0` is written `0`).
pub open spec fn digits_of(n: nat) -> Seq<char>
    decreases n,
{
    if n < 10 {
        seq![digit_char(n)]
    } else {
        digits_of(n / 10).push(digit_char(n % 10))
    }
}

/// The decimal text of `n` as `to_string` writes it: its digits, behind a
/// `-` where `n` is negative.
pub open spec fn decimal_text(n: int) -> Seq<char> {
    if n < 0 {
        seq!['-'] + digits_of((-n) as nat)
    } else {
        digits_of(n as nat)
    }
}

proof fn lemma_digits_start_with_a_digit(n: nat)
    ensures
        digits_of(n).len() > 0,
        is_digit(digits_of(n)[0]),
    decreases n,
{
    if n >= 10 {
        lemma_digits_start_with_a_digit(n / 10);
        assert(digits_of(n)[0] == digits_of(n / 10)[0]);
    }
}

proof fn lemma_digit_char(d: nat)
    requires
        d < 10,
    ensures
        is_digit(digit_char(d)),
        digit_value(digit_char(d)) == d,
{
}

#[verifier::spinoff_prover]
proof fn lemma_scan_digits_of(n: nat, negative: bool, min: int, max: int)
    requires
        min <= 0 <= max,
        negative ==> min <= -n,
        !negative ==> n <= max,
    ensures
        scan_digits(digits_of(n), negative, min, max) == Ok::<int, IntErrorKind>(
            if negative { -n } else { n as int },
        ),
    decreases n,
{
    let d = digits_of(n);
    if n < 10 {
        lemma_digit_char(n);
        assert(d.drop_last() =~= Seq::<char>::empty());
        assert(d.last() == digit_char(n));
        assert(scan_digits(d.drop_last(), negative, min, max) == Ok::<int, IntErrorKind>(0));
    } else {
        let q: nat = n / 10;
        let r: nat = n % 10;
        assert(n == q * 10 + r && r < 10 && q < n) by (nonlinear_arith)
            requires
                n >= 10,
                q == n / 10,
                r == n % 10,
        ;
        lemma_digit_char(r);
        lemma_scan_digits_of(q, negative, min, max);
        assert(d.drop_last() =~= digits_of(q));
        assert(d.last() == digit_char(r));
        let acc: int = if negative { -q } else { q as int };
        assert(scan_digits(d.drop_last(), negative, min, max) == Ok::<int, IntErrorKind>(acc));
        if negative {
            assert(acc * 10 - digit_value(d.last()) == -n);
        } else {
            assert(acc * 10 + digit_value(d.last()) == n);
        }
    }
}

/// The decimal text of every integer in `[min, max]` (with `min <= 0 <= max`)
/// is read back as that integer.
pub proof fn lemma_decimal_text_reads_back(n: int, min: int, max: int)
    requires
        min <= 0 <= max,
        min <= n <= max,
    ensures
        parse_int(decimal_text(n), min, max) == Ok::<int, IntErrorKind>(n),
{
    if n < 0 {
        let m = (-n) as nat;
        let t = decimal_text(n);
        lemma_digits_start_with_a_digit(m);
        lemma_scan_digits_of(m, true, min, max);
        assert(t.drop_first() =~= digits_of(m));
        assert(t[0] == '-');
    } else {
        lemma_digits_start_with_a_digit(n as nat);
        lemma_scan_digits_of(n as nat, false, min, max);
    }
}

/// A `String` field holds its text as it is: no text is refused, and the
/// text is read as exactly the string that holds the same characters.
pub proof fn lemma_text_reads_as_itself(text: Seq<char>, value: String)
    ensures
        <String as FieldValue>::refusal(text) is None,
        <String as FieldValue>::reads_as(text, value) <==> value@ == text,
{
}

/// Every `u8` is read from its decimal text, which is not refused.
pub proof fn lemma_u8_reads_its_decimal_text(n: u8)
    ensures
        <u8 as FieldValue>::refusal(decimal_text(n as int)) is None,
        <u8 as FieldValue>::reads_as(decimal_text(n as int), n),
{
    lemma_decimal_text_reads_back(n as int, 0, 0xff);
}

/// Every `u16` is read from its decimal text, which is not refused.
pub proof fn lemma_u16_reads_its_decimal_text(n: u16)
    ensures
        <u16 as FieldValue>::refusal(decimal_text(n as int)) is None,
        <u16 as FieldValue>::reads_as(decimal_text(n as int), n),
{
    lemma_decimal_text_reads_back(n as int, 0, 0xffff);
}

/// Every `u32` is read from its decimal text, which is not refused.
pub proof fn lemma_u32_reads_its_decimal_text(n: u32)
    ensures
        <u32 as FieldValue>::refusal(decimal_text(n as int)) is None,
        <u32 as FieldValue>::reads_as(decimal_text(n as int), n),
{
    lemma_decimal_text_reads_back(n as int, 0, 0xffff_ffff);
}

/// Every `u64` is read from its decimal text, which is not refused.
pub proof fn lemma_u64_reads_its_decimal_text(n: u64)
    ensures
        <u64 as FieldValue>::refusal(decimal_text(n as int)) is None,
        <u64 as FieldValue>::reads_as(decimal_text(n as int), n),
{
    lemma_decimal_text_reads_back(n as int, 0, 0xffff_ffff_ffff_ffff);
}

/// Every `usize` is read from its decimal text, which is not refused.
pub proof fn lemma_usize_reads_its_decimal_text(n: usize)
    ensures
        <usize as FieldValue>::refusal(decimal_text(n as int)) is None,
        <usize as FieldValue>::reads_as(decimal_text(n as int), n),
{
    lemma_decimal_text_reads_back(n as int, usize::MIN as int, usize::MAX as int);
}

/// Every `i8` is read from its decimal text, which is not refused.
pub proof fn lemma_i8_reads_its_decimal_text(n: i8)
    ensures
        <i8 as FieldValue>::refusal(decimal_text(n as int)) is None,
        <i8 as FieldValue>::reads_as(decimal_text(n as int), n),
{
    lemma_decimal_text_reads_back(n as int, -0x80, 0x7f);
}

/// Every `i16` is read from its decimal text, which is not refused.
pub proof fn lemma_i16_reads_its_decimal_text(n: i16)
    ensures
        <i16 as FieldValue>::refusal(decimal_text(n as int)) is None,
        <i16 as FieldValue>::reads_as(decimal_text(n as int), n),
{
    lemma_decimal_text_reads_back(n as int, -0x8000, 0x7fff);
}

/// Every `i32` is read from its decimal text, which is not refused.
pub proof fn lemma_i32_reads_its_decimal_text(n: i32)
    ensures
        <i32 as FieldValue>::refusal(decimal_text(n as int)) is None,
        <i32 as FieldValue>::reads_as(decimal_text(n as int), n),
{
    lemma_decimal_text_reads_back(n as int, -0x8000_0000, 0x7fff_ffff);
}

/// Every `i64` is read from its decimal text, which is not refused.
pub proof fn lemma_i64_reads_its_decimal_text(n: i64)
    ensures
        <i64 as FieldValue>::refusal(decimal_text(n as int)) is None,
        <i64 as FieldValue>::reads_as(decimal_text(n as int), n),
{
    lemma_decimal_text_reads_back(n as int, -0x8000_0000_0000_0000, 0x7fff_ffff_ffff_ffff);
}

/// Every `isize` is read from its decimal text, which is not refused.
pub proof fn lemma_isize_reads_its_decimal_text(n: isize)
    ensures
        <isize as FieldValue>::refusal(decimal_text(n as int)) is None,
        <isize as FieldValue>::reads_as(decimal_text(n as int), n),
{
    lemma_decimal_text_reads_back(n as int, isize::MIN as int, isize::MAX as int);
}

} // verus!

verus! {

/// `EnvSource::nested_keys` leaves out no variable of the source: for every
/// name in the list that the source reads as a nested key (whatever the
/// number of separators in it), that key is listed.
pub proof fn lemma_every_read_name_is_listed(source: EnvSource, names: Seq<Seq<char>>, j: int)
    requires
        0 <= j < names.len(),
        source.nested_key(names[j]) is Some,
    ensures
        nested_keys_of(source.prefix_view(), source.separator_view(), names).contains(
            source.nested_key(names[j])->0,
        ),
    decreases names.len(),
{
    let p = source.prefix_view();
    let sep = source.separator_view();
    let key = source.nested_key(names[j])->0;
    let init = nested_keys_of(p, sep, names.drop_last());
    if j == names.len() - 1 {
        assert(names.last() == names[j]);
        assert(init.push(key)[init.len() as int] == key);
    } else {
        assert(names.drop_last()[j] == names[j]);
        lemma_every_read_name_is_listed(source, names.drop_last(), j);
        let idx = choose|idx: int| 0 <= idx < init.len() && init[idx] == key;
        match nested_key_of(p, sep, names.last()) {
            Some(k) => {
                assert(init.push(k)[idx] == key);
            },
            None => {},
        }
    }
}

/// The keys that `EnvSource::nested_keys` lists for a list of names are
/// exactly the nested keys that the source reads from those names.
pub proof fn lemma_listed_keys_are_the_read_names(source: EnvSource, names: Seq<Seq<char>>, key: Seq<char>)
    ensures
        nested_keys_of(source.prefix_view(), source.separator_view(), names).contains(key) <==> exists|j: int|
            0 <= j < names.len() && source.nested_key(#[trigger] names[j]) == Some(key),
{
    if nested_keys_of(source.prefix_view(), source.separator_view(), names).contains(key) {
        lemma_listed_key_comes_from_a_name(source, names, key);
    }
    if exists|j: int| 0 <= j < names.len() && source.nested_key(#[trigger] names[j]) == Some(key) {
        let j = choose|j: int| 0 <= j < names.len() && source.nested_key(#[trigger] names[j]) == Some(key);
        lemma_every_read_name_is_listed(source, names, j);
    }
}

} // verus!

verus! {

/// Whether a variable name is one that `source` reads as a nested key.
pub open spec fn is_read_name(source: EnvSource) -> spec_fn(Seq<char>) -> bool {
    |n: Seq<char>| source.nested_key(n) is Some
}

/// The nested key that `source` reads from a variable name it reads.
pub open spec fn read_key(source: EnvSource) -> spec_fn(Seq<char>) -> Seq<char> {
    |n: Seq<char>| source.nested_key(n)->0
}

/// `EnvSource::nested_keys` lists, in the order of the names, one key for
/// each name that the source reads, and nothing else: the names that the
/// source reads, each replaced by the key it stands for.
pub proof fn lemma_nested_keys_follow_the_names(source: EnvSource, names: Seq<Seq<char>>)
    ensures
        nested_keys_of(source.prefix_view(), source.separator_view(), names) == names.filter(
            is_read_name(source),
        ).map_values(read_key(source)),
    decreases names.len(),
{
    reveal(Seq::filter);
    let p = source.prefix_view();
    let sep = source.separator_view();
    if names.len() == 0 {
        assert(names.filter(is_read_name(source)) =~= names);
        assert(names.filter(is_read_name(source)).map_values(read_key(source)) =~= Seq::<Seq<char>>::empty());
    } else {
        lemma_nested_keys_follow_the_names(source, names.drop_last());
        let sub = names.drop_last().filter(is_read_name(source));
        if is_read_name(source)(names.last()) {
            assert(sub.push(names.last()).map_values(read_key(source)) =~= sub.map_values(read_key(source)).push(
                read_key(source)(names.last()),
            ));
        }
    }
}

} // verus!

verus! {

proof fn lemma_lookup_finds_an_entry(entries: Seq<(String, JsonValue)>, k: Seq<char>)
    requires
        lookup(entries, k) is Some,
    ensures
        exists|j: int|
            0 <= j < entries.len() && (#[trigger] entries[j]).0@ == k && entries[j].1 == lookup(
                entries,
                k,
            )->0,
    decreases entries.len(),
{
    if entries[0].0@ != k {
        let rest = entries.drop_first();
        lemma_lookup_finds_an_entry(rest, k);
        let j = choose|j: int|
            0 <= j < rest.len() && (#[trigger] rest[j]).0@ == k && rest[j].1 == lookup(rest, k)->0;
        assert(entries[j + 1] == rest[j]);
    }
}

proof fn lemma_entries_keys_lists_entry(
    entries: Seq<(String, JsonValue)>,
    prefix: Seq<char>,
    j: int,
    x: Seq<char>,
)
    requires
        0 <= j < entries.len(),
        x == full_key(prefix, entries[j].0@) || json_keys(entries[j].1, full_key(prefix, entries[j].0@)).contains(x),
    ensures
        entries_keys(entries, prefix).contains(x),
    decreases entries.len(),
{
    let n = entries.len() - 1;
    let init = entries_keys(entries.subrange(0, n), prefix);
    let full = full_key(prefix, entries[n].0@);
    let sub = json_keys(entries[n].1, full);
    let all = init + seq![full] + sub;
    assert(entries_keys(entries, prefix) == all);
    if j == n {
        if x == full {
            assert(all[init.len() as int] == x);
        } else {
            let i = choose|i: int| 0 <= i < sub.len() && sub[i] == x;
            assert(all[init.len() + 1 + i] == x);
        }
    } else {
        assert(entries.subrange(0, n)[j] == entries[j]);
        lemma_entries_keys_lists_entry(entries.subrange(0, n), prefix, j, x);
        let i = choose|i: int| 0 <= i < init.len() && init[i] == x;
        assert(all[i] == x);
    }
}

proof fn lemma_plain_path_drop_last(parts: Seq<Seq<char>>)
    requires
        parts.len() > 0,
        plain_path(parts),
    ensures
        plain_path(parts.drop_last()),
{
    assert forall|i: int| 0 <= i < parts.drop_last().len() implies plain_key(#[trigger] parts.drop_last()[i]) by {
        assert(parts.drop_last()[i] == parts[i]);
    }
}

/// The member of an object `v` named `k` is listed under `prefix`, and so
/// is every key listed for its value under the member's own key.
proof fn lemma_member_listed(v: JsonValue, k: Seq<char>, prefix: Seq<char>, x: Seq<char>)
    requires
        navigate(v, seq![k]) is Some,
        x == full_key(prefix, k) || json_keys(navigate(v, seq![k])->0, full_key(prefix, k)).contains(x),
    ensures
        json_keys(v, prefix).contains(x),
{
    assert(seq![k][0] == k);
    assert(seq![k].drop_first() =~= Seq::<Seq<char>>::empty());
    match v {
        JsonValue::Object(entries) => {
            lemma_lookup_finds_an_entry(entries@, k);
            let j = choose|j: int|
                0 <= j < entries@.len() && (#[trigger] entries@[j]).0@ == k && entries@[j].1 == lookup(
                    entries@,
                    k,
                )->0;
            let child = lookup(entries@, k)->0;
            assert(navigate(child, seq![k].drop_first()) == Some(child));
            assert(navigate(v, seq![k]) == Some(child));
            lemma_entries_keys_lists_entry(entries@, prefix, j, x);
        },
        _ => {},
    }
}

proof fn lemma_listing_reaches(root: JsonValue, path: Seq<Seq<char>>, x: Seq<char>)
    requires
        plain_path(path),
        navigate(root, path) is Some,
        json_keys(navigate(root, path)->0, join_dots(path)).contains(x),
    ensures
        json_keys(root, Seq::empty()).contains(x),
    decreases path.len(),
{
    if path.len() == 0 {
        assert(join_dots(path) == Seq::<char>::empty());
    } else {
        let init = path.drop_last();
        let k = path.last();
        assert(init.push(k) =~= path);
        lemma_plain_path_drop_last(path);
        lemma_navigate_push(root, init, k);
        lemma_join_push(init, k);
        let w = navigate(root, init)->0;
        lemma_member_listed(w, k, join_dots(init), x);
        lemma_listing_reaches(root, init, x);
    }
}

/// `DeserializerSource::keys` leaves out no member: for every path of
/// member names (not empty, without `.`) that leads from the document to a
/// value, whatever that value is, the dotted key of the path is listed.
pub proof fn lemma_found_members_are_listed(root: JsonValue, path: Seq<Seq<char>>)
    requires
        path.len() > 0,
        plain_path(path),
        navigate(root, path) is Some,
    ensures
        json_keys(root, Seq::empty()).contains(join_dots(path)),
{
    let init = path.drop_last();
    let k = path.last();
    assert(init.push(k) =~= path);
    lemma_plain_path_drop_last(path);
    lemma_navigate_push(root, init, k);
    lemma_join_push(init, k);
    let w = navigate(root, init)->0;
    lemma_member_listed(w, k, join_dots(init), join_dots(path));
    lemma_listing_reaches(root, init, join_dots(path));
}

} // verus!
