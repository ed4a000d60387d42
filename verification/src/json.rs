//! JSON documents as the app-server protocol carries them, read through
//! `serde_json`.
use vstd::prelude::*;

verus! {

/// A JSON value: numbers keep the text that `serde_json` prints for them, and
/// object members keep the order they are given in; a value read by
/// `serde_json` has its members sorted by key, as serde_json's map keeps them.
#[derive(Debug)]
pub enum JsonValue {
    Null,
    Bool(bool),
    Number(String),
    String(String),
    Array(Vec<JsonValue>),
    Object(Vec<(String, JsonValue)>),
}

/// The value that `serde_json::from_slice` reads from `bytes`, if they are a
/// JSON text.
pub uninterp spec fn parsed_json(bytes: Seq<u8>) -> Option<JsonValue>;

/// How `serde_json` writes the character `c` inside a JSON string: `"` and
/// `\` after a backslash, the five control characters that have one by their
/// short escape, every other control character below `0x20` as `\u00` and
/// two lower-case hexadecimal digits, and anything else as it is.
pub open spec fn json_escape(c: char) -> Seq<char> {
    if c == '"' {
        seq!['\\', '"']
    } else if c == '\\' {
        seq!['\\', '\\']
    } else if c == '\u{8}' {
        seq!['\\', 'b']
    } else if c == '\t' {
        seq!['\\', 't']
    } else if c == '\n' {
        seq!['\\', 'n']
    } else if c == '\u{c}' {
        seq!['\\', 'f']
    } else if c == '\r' {
        seq!['\\', 'r']
    } else if (c as int) < 0x20 {
        seq![
            '\\',
            'u',
            '0',
            '0',
            crate::text::digit_char(((c as int) / 16) as nat),
            crate::text::digit_char(((c as int) % 16) as nat),
        ]
    } else {
        seq![c]
    }
}

/// The characters of `s`, each as `serde_json` writes it inside a string.
pub open spec fn json_escaped(s: Seq<char>) -> Seq<char>
    decreases s.len(),
{
    if s.len() == 0 {
        Seq::empty()
    } else {
        json_escaped(s.drop_last()) + json_escape(s.last())
    }
}

/// The text that `serde_json::to_string` writes for the string `s`: `s`
/// between double quotes, each character escaped by [`json_escape`].
pub open spec fn quoted_json(s: Seq<char>) -> Seq<char> {
    seq!['"'] + json_escaped(s) + seq!['"']
}

/// Reads one JSON text with `serde_json::from_slice` into a [`JsonValue`]; the
/// result is the named [`parsed_json`] of the bytes, `None` where serde_json
/// reports an error. What JSON text is accepted, and what numbers print as, is
/// serde_json's and is not stated here.
#[verifier::external_body]
pub(crate) fn parse_json(bytes: &[u8]) -> (r: Option<JsonValue>)
    ensures
        r == parsed_json(bytes@),
{
    serde_json::from_slice::<serde_json::Value>(bytes).ok().map(from_serde)
}

/// Writes `s` as a JSON string with `serde_json::to_string`: `s` between
/// double quotes with the escapes of serde_json's table ([`quoted_json`]).
/// Serialising a string cannot fail.
#[verifier::external_body]
pub(crate) fn quote_json(s: &str) -> (r: String)
    ensures
        r@ == quoted_json(s@),
{
    serde_json::to_string(s).unwrap_or_default()
}

#[verifier::external_type_specification]
#[verifier::external_body]
pub struct ExSerdeValue(serde_json::Value);

/// Moves a `serde_json::Value` into the library's own tree, variant for
/// variant; numbers keep serde_json's text for them.
#[verifier::external_body]
fn from_serde(v: serde_json::Value) -> JsonValue {
    match v {
        serde_json::Value::Null => JsonValue::Null,
        serde_json::Value::Bool(b) => JsonValue::Bool(b),
        serde_json::Value::Number(n) => JsonValue::Number(n.to_string()),
        serde_json::Value::String(s) => JsonValue::String(s),
        serde_json::Value::Array(a) => JsonValue::Array(a.into_iter().map(from_serde).collect()),
        serde_json::Value::Object(o) => JsonValue::Object(
            o.into_iter().map(|(k, v)| (k, from_serde(v))).collect(),
        ),
    }
}

/// The value of the first member named `key` among `fields`.
pub open spec fn lookup(fields: Seq<(String, JsonValue)>, key: Seq<char>) -> Option<JsonValue>
    decreases fields.len(),
{
    if fields.len() == 0 {
        None
    } else if fields[0].0@ == key {
        Some(fields[0].1)
    } else {
        lookup(fields.drop_first(), key)
    }
}

/// The member `key` of an object; `None` for other values.
pub open spec fn json_get(v: JsonValue, key: Seq<char>) -> Option<JsonValue> {
    match v {
        JsonValue::Object(fields) => lookup(fields@, key),
        _ => None,
    }
}

/// Follows the member names `path` from `v`.
pub open spec fn json_path(v: JsonValue, path: Seq<Seq<char>>) -> Option<JsonValue>
    decreases path.len(),
{
    if path.len() == 0 {
        Some(v)
    } else {
        match json_get(v, path[0]) {
            Some(w) => json_path(w, path.drop_first()),
            None => None,
        }
    }
}

/// The text of a string value.
pub open spec fn json_str(v: Option<JsonValue>) -> Option<Seq<char>> {
    match v {
        Some(JsonValue::String(s)) => Some(s@),
        _ => None,
    }
}

impl JsonValue {
    /// The member `key` of an object; `None` for other values.
    pub fn get(&self, key: &str) -> (r: Option<&JsonValue>)
        ensures
            r is Some <==> json_get(*self, key@) is Some,
            r matches Some(v) ==> json_get(*self, key@) == Some(*v),
    {
        match self {
            JsonValue::Object(fields) => {
                let mut i: usize = 0;
                assert(fields@.skip(0) =~= fields@);
                while i < fields.len()
                    invariant
                        i <= fields@.len(),
                        json_get(*self, key@) == lookup(fields@, key@),
                        lookup(fields@, key@) == lookup(fields@.skip(i as int), key@),
                    decreases fields.len() - i,
                {
                    assert(fields@.skip(i as int).drop_first() =~= fields@.skip(i + 1));
                    assert(fields@.skip(i as int)[0] == fields@[i as int]);
                    if str_eq(fields[i].0.as_str(), key) {
                        return Some(&fields[i].1);
                    }
                    i = i + 1;
                }
                None
            },
            _ => None,
        }
    }
}

/// The member names of a path.
pub open spec fn path_view(path: Seq<&str>) -> Seq<Seq<char>> {
    path.map_values(|k: &str| k@)
}

impl JsonValue {
    /// The text of a string value.
    pub fn as_str(&self) -> (r: Option<&String>)
        ensures
            r is Some <==> json_str(Some(*self)) is Some,
            r matches Some(t) ==> json_str(Some(*self)) == Some(t@),
    {
        match self {
            JsonValue::String(t) => Some(t),
            _ => None,
        }
    }

    /// Follows the member names `path`.
    pub fn get_path(&self, path: &[&str]) -> (r: Option<&JsonValue>)
        ensures
            r is Some <==> json_path(*self, path_view(path@)) is Some,
            r matches Some(w) ==> json_path(*self, path_view(path@)) == Some(*w),
    {
        let mut cur: &JsonValue = self;
        let mut i: usize = 0;
        assert(path_view(path@).skip(0) =~= path_view(path@));
        while i < path.len()
            invariant
                i <= path@.len(),
                json_path(*self, path_view(path@)) == json_path(*cur, path_view(path@).skip(i as int)),
            decreases path.len() - i,
        {
            let ghost rest = path_view(path@).skip(i as int);
            assert(rest[0] == path@[i as int]@);
            assert(rest.drop_first() =~= path_view(path@).skip(i + 1));
            match cur.get(path[i]) {
                None => {
                    return None;
                },
                Some(w) => {
                    cur = w;
                },
            }
            i = i + 1;
        }
        Some(cur)
    }

    /// The text at the member names `path`, when it is a string.
    pub fn str_at(&self, path: &[&str]) -> (r: Option<&String>)
        ensures
            r is Some <==> json_str(json_path(*self, path_view(path@))) is Some,
            r matches Some(t) ==> json_str(json_path(*self, path_view(path@))) == Some(t@),
    {
        match self.get_path(path) {
            Some(w) => w.as_str(),
            None => None,
        }
    }

    /// Moves the member `key` out of an object.
    pub fn take_member(self, key: &str) -> (r: Option<JsonValue>)
        ensures
            r == json_get(self, key@),
    {
        match self {
            JsonValue::Object(mut fields) => {
                let ghost all = fields@;
                let mut i: usize = 0;
                assert(fields@.skip(0) =~= fields@);
                while i < fields.len()
                    invariant
                        fields@ == all,
                        json_get(self, key@) == lookup(all, key@),
                        i <= fields@.len(),
                        lookup(all, key@) == lookup(all.skip(i as int), key@),
                    decreases fields.len() - i,
                {
                    assert(all.skip(i as int).drop_first() =~= all.skip(i + 1));
                    assert(all.skip(i as int)[0] == all[i as int]);
                    if str_eq(fields[i].0.as_str(), key) {
                        let (_, value) = fields.remove(i);
                        return Some(value);
                    }
                    i = i + 1;
                }
                None
            },
            _ => None,
        }
    }
}

/// The items of an array value.
pub open spec fn json_array(v: Option<JsonValue>) -> Option<Seq<JsonValue>> {
    match v {
        Some(JsonValue::Array(items)) => Some(items@),
        _ => None,
    }
}

impl JsonValue {
    /// The items of an array value.
    pub fn as_array(&self) -> (r: Option<&Vec<JsonValue>>)
        ensures
            r is Some <==> json_array(Some(*self)) is Some,
            r matches Some(items) ==> json_array(Some(*self)) == Some(items@),
    {
        match self {
            JsonValue::Array(items) => Some(items),
            _ => None,
        }
    }

    /// Whether the value is `null`.
    pub fn is_null(&self) -> (r: bool)
        ensures
            r == (*self is Null),
    {
        match self {
            JsonValue::Null => true,
            _ => false,
        }
    }
}

/// Whether two strings hold the same characters.
pub fn str_eq(a: &str, b: &str) -> (r: bool)
    ensures
        r == (a@ == b@),
{
    a.to_owned() == b.to_owned()
}

} // verus!
