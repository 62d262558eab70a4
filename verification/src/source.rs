//! Sources of configuration values: the `Source` trait, the translation of
//! nested keys to and from environment variable names, and the source that
//! serves a JSON document.

use vstd::prelude::*;
use crate::error::Result;
use crate::json::{
    collect_json_keys, config_text, distinct_keys, json_keys, navigate, query, query_key, value_text,
    JsonValue,
};
use crate::laws::{
    dotted_names, is_read_name, join_dots, lemma_found_members_are_listed, lemma_listed_keys_resolve,
    lemma_nested_keys_follow_the_names, plain_path, read_key,
};
use crate::text::{
    from_chars, has_prefix, push_all, replace_char, replace_char_exec, replace_str,
    replace_str_exec, starts_with, to_chars, views,
};

verus! {

/// Trait for querying configuration data from various sources.
///
/// Sources can be arbitrarily large (databases, file systems, remote APIs),
/// so they answer queries for single keys rather than loading all data at
/// once. A key path uses dot notation for nested values (`database.host`).
pub trait Source {
    /// The value stored under `key`, or `None` if this source has no such key.
    fn get(&self, key: &str) -> Result<Option<String>>;

    /// Whether this source holds a value under `key`: by default, what
    /// `presence` makes of this source's answer to `get(key)`.
    fn contains_key(&self, key: &str) -> (r: Result<bool>)
        default_ensures
            exists|found: Result<Option<String>>|
                #[trigger] call_ensures(Self::get, (self, key), found) && match found {
                    Ok(v) => r matches Ok(b) && b == v is Some,
                    Err(e) => r matches Err(e2) && e2 == e,
                },
    {
        presence(self.get(key))
    }

    /// All keys that this source can list; by default none, since listing
    /// may be expensive or impossible for large sources.
    fn keys(&self) -> (r: Result<Vec<String>>)
        default_ensures
            r matches Ok(ks) && ks@.len() == 0,
    {
        Ok(Vec::new())
    }
}

/// Whether a source's answer to `get` holds a value: `true` for a value,
/// `false` for none, and the source's error as it is.
pub fn presence(found: Result<Option<String>>) -> (r: Result<bool>)
    ensures
        match found {
            Ok(v) => r matches Ok(b) && b == v is Some,
            Err(e) => r matches Err(e2) && e2 == e,
        },
{
    match found {
        Ok(v) => Ok(v.is_some()),
        Err(e) => Err(e),
    }
}

/// The environment variable name under which a nested key is looked up:
/// each `.` becomes the separator, and a prefix, if any, is put in front
/// followed by `_`.
pub open spec fn env_key_of(prefix: Option<Seq<char>>, separator: Seq<char>, nested: Seq<char>) -> Seq<char> {
    let key = replace_char(nested, '.', separator);
    match prefix {
        Some(p) => p + seq!['_'] + key,
        None => key,
    }
}

/// The nested key that an environment variable name stands for, or `None`
/// where the name lacks the prefix followed by `_`: the prefix and its `_`
/// are removed, and each occurrence of the separator becomes `.`.
pub open spec fn nested_key_of(prefix: Option<Seq<char>>, separator: Seq<char>, env_key: Seq<char>) -> Option<Seq<char>> {
    match prefix {
        Some(p) => if has_prefix(env_key, p + seq!['_']) {
            Some(replace_str(env_key.skip(p.len() + 1int), separator, seq!['.']))
        } else {
            None
        },
        None => Some(replace_str(env_key, separator, seq!['.'])),
    }
}

/// The nested keys that a list of environment variable names stands for,
/// in order, leaving out the names that lack the prefix.
pub open spec fn nested_keys_of(prefix: Option<Seq<char>>, separator: Seq<char>, env_keys: Seq<Seq<char>>) -> Seq<Seq<char>>
    decreases env_keys.len(),
{
    if env_keys.len() == 0 {
        Seq::empty()
    } else {
        let init = nested_keys_of(prefix, separator, env_keys.drop_last());
        match nested_key_of(prefix, separator, env_keys.last()) {
            Some(k) => init.push(k),
            None => init,
        }
    }
}

/// Source settings for environment variables: an optional prefix that
/// every variable name of this source starts with (followed by `_`), and
/// the separator that stands for `.` in nested keys (by default `__`).
pub struct EnvSource {
    prefix: Option<String>,
    separator: String,
}

impl EnvSource {
    /// The prefix that this source's variable names start with.
    pub closed spec fn prefix_view(&self) -> Option<Seq<char>> {
        match self.prefix {
            Some(p) => Some(p@),
            None => None,
        }
    }

    /// The separator that stands for `.` in variable names.
    pub closed spec fn separator_view(&self) -> Seq<char> {
        self.separator@
    }

    /// The variable name under which this source looks up a nested key.
    pub open spec fn env_key(&self, nested: Seq<char>) -> Seq<char> {
        env_key_of(self.prefix_view(), self.separator_view(), nested)
    }

    /// The nested key that a variable name stands for in this source.
    pub open spec fn nested_key(&self, env_key: Seq<char>) -> Option<Seq<char>> {
        nested_key_of(self.prefix_view(), self.separator_view(), env_key)
    }

    /// A source that reads all environment variables.
    pub fn new() -> (r: Self)
        ensures
            r.prefix_view() is None,
            r.separator_view() == "__"@,
    {
        EnvSource { prefix: None, separator: String::from_str("__") }
    }

    /// A source that reads the variables whose names start with `prefix`
    /// followed by `_`.
    pub fn with_prefix(prefix: &str) -> (r: Self)
        ensures
            r.prefix_view() == Some(prefix@),
            r.separator_view() == "__"@,
    {
        EnvSource { prefix: Some(String::from_str(prefix)), separator: String::from_str("__") }
    }

    /// This source with `separator` standing for `.` in nested keys.
    pub fn separator(self, separator: &str) -> (r: Self)
        ensures
            r.prefix_view() == self.prefix_view(),
            r.separator_view() == separator@,
    {
        let mut s = self;
        s.separator = String::from_str(separator);
        s
    }

    /// The environment variable name under which `nested_key` is looked up.
    pub fn nested_key_to_env_key(&self, nested_key: &str) -> (r: String)
        ensures
            r@ == self.env_key(nested_key@),
    {
        let key = replace_char_exec(&to_chars(nested_key), '.', &to_chars(self.separator.as_str()));
        match &self.prefix {
            Some(p) => {
                let mut out = to_chars(p.as_str());
                out.push('_');
                push_all(&mut out, &key);
                from_chars(&out)
            },
            None => from_chars(&key),
        }
    }

    /// The nested key that the variable name `env_key` stands for, or `None`
    /// where the name is not one of this source's.
    pub fn env_key_to_nested_key(&self, env_key: &str) -> (r: Option<String>)
        ensures
            match r {
                Some(k) => self.nested_key(env_key@) == Some(k@),
                None => self.nested_key(env_key@) is None,
            },
    {
        let chars = to_chars(env_key);
        let sep = to_chars(self.separator.as_str());
        let mut dot: Vec<char> = Vec::new();
        dot.push('.');
        assert(dot@ =~= seq!['.']);
        match &self.prefix {
            Some(p) => {
                let mut head = to_chars(p.as_str());
                head.push('_');
                assert(head@ =~= p@ + seq!['_']);
                assert(self.prefix_view() == Some(p@));
                if !starts_with(&chars, &head) {
                    return None;
                }
                let mut rest: Vec<char> = Vec::new();
                let mut i: usize = head.len();
                while i < chars.len()
                    invariant
                        head.len() <= i <= chars.len(),
                        rest@ == chars@.subrange(head.len() as int, i as int),
                    decreases chars.len() - i,
                {
                    rest.push(chars[i]);
                    i = i + 1;
                }
                assert(rest@ == chars@.skip(head.len() as int));
                Some(from_chars(&replace_str_exec(&rest, &sep, &dot)))
            },
            None => {
                assert(self.prefix_view() is None);
                Some(from_chars(&replace_str_exec(&chars, &sep, &dot)))
            },
        }
    }

    /// The nested keys that the variable names `env_keys` stand for, in
    /// order, leaving out the names that are not this source's.
    pub fn nested_keys(&self, env_keys: &Vec<String>) -> (r: Vec<String>)
        ensures
            views(r@) == nested_keys_of(self.prefix_view(), self.separator_view(), views(env_keys@)),
            views(r@) == views(env_keys@).filter(is_read_name(*self)).map_values(read_key(*self)),
    {
        let mut out: Vec<String> = Vec::new();
        let mut i: usize = 0;
        while i < env_keys.len()
            invariant
                i <= env_keys.len(),
                views(out@) == nested_keys_of(
                    self.prefix_view(),
                    self.separator_view(),
                    views(env_keys@.subrange(0, i as int)),
                ),
            decreases env_keys.len() - i,
        {
            assert(views(env_keys@.subrange(0, i + 1)).drop_last() =~= views(
                env_keys@.subrange(0, i as int),
            ));
            assert(views(env_keys@.subrange(0, i + 1)).last() == env_keys@[i as int]@);
            let ghost before = out@;
            match self.env_key_to_nested_key(env_keys[i].as_str()) {
                Some(k) => {
                    out.push(k);
                    assert(views(out@) =~= views(before).push(k@));
                },
                None => {},
            }
            i = i + 1;
        }
        assert(env_keys@.subrange(0, env_keys.len() as int) == env_keys@);
        proof {
            lemma_nested_keys_follow_the_names(*self, views(env_keys@));
        }
        out
    }
}

impl Default for EnvSource {
    fn default() -> (r: Self)
        ensures
            r.prefix_view() is None,
            r.separator_view() == "__"@,
    {
        Self::new()
    }
}

/// Source that serves a JSON document, such as the serde serialization of
/// an application's data: a key names the value reached by looking up each
/// of its dotted parts in turn.
pub struct DeserializerSource {
    data: JsonValue,
}

impl DeserializerSource {
    /// The document that this source serves.
    pub closed spec fn data(&self) -> JsonValue {
        self.data
    }

    /// The document names each member of an object once, as the objects of
    /// serde_json do.
    #[verifier::type_invariant]
    spec fn well_formed(self) -> bool {
        distinct_keys(self.data)
    }

    /// A source that serves `data`, a document whose objects name each
    /// member once.
    pub fn new(data: JsonValue) -> (r: Self)
        requires
            distinct_keys(data),
        ensures
            r.data() == data,
    {
        DeserializerSource { data }
    }
}

impl Source for DeserializerSource {
    /// The text of the value that `key` names: a string as it is, any other
    /// value as its JSON text; `None` where the key names nothing.
    fn get(&self, key: &str) -> (r: Result<Option<String>>)
        ensures
            match query(self.data(), key@) {
                Some(v) => r matches Ok(Some(t)) && t@ == config_text(v),
                None => r matches Ok(None),
            },
    {
        match query_key(&self.data, key) {
            Some(v) => {
                let t = value_text(v)?;
                Ok(Some(t))
            },
            None => Ok(None),
        }
    }

    /// Whether `key` names a value of the document.
    fn contains_key(&self, key: &str) -> (r: Result<bool>)
        ensures
            r matches Ok(b) && b == query(self.data(), key@) is Some,
    {
        Ok(query_key(&self.data, key).is_some())
    }

    /// Every key of the document in dotted notation.
    ///
    /// Where every member name is not empty and holds no `.`, each listed
    /// key names a value of the document.
    fn keys(&self) -> (r: Result<Vec<String>>)
        ensures
            r matches Ok(ks) && views(ks@) == json_keys(self.data(), Seq::empty()),
            r matches Ok(ks) ==> (dotted_names(self.data()) ==> forall|k: Seq<char>|
                #[trigger] views(ks@).contains(k) ==> query(self.data(), k) is Some),
            r matches Ok(ks) ==> forall|path: Seq<Seq<char>>|
                path.len() > 0 && plain_path(path) && #[trigger] navigate(self.data(), path) is Some
                    ==> views(ks@).contains(join_dots(path)),
    {
        proof {
            use_type_invariant(self);
        }
        let ks = collect_json_keys(&self.data, String::new());
        assert forall|k: Seq<char>| dotted_names(self.data()) && #[trigger] views(ks@).contains(k) implies query(
            self.data(),
            k,
        ) is Some by {
            lemma_listed_keys_resolve(self.data(), k);
        }
        assert forall|path: Seq<Seq<char>>|
            path.len() > 0 && plain_path(path) && #[trigger] navigate(self.data(), path) is Some
                implies views(ks@).contains(join_dots(path)) by {
            lemma_found_members_are_listed(self.data(), path);
        }
        Ok(ks)
    }
}

} // verus!
