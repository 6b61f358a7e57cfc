//! An owned JSON value tree.
//!
//! The aggregator walks parsed JSON payloads generically, so it needs a value
//! type it can recurse over. Numbers keep their source text: none of the
//! protocol logic reads a number, it only carries them through.

use vstd::prelude::*;

verus! {

use vstd::string::StringSliceAdditionalSpecFns;

/// A JSON document: the object form keeps its members in document order.
pub enum JsonValue {
    Null,
    Bool(bool),
    /// The number's decimal source text.
    Num(String),
    Str(String),
    Arr(Vec<JsonValue>),
    Obj(Vec<(String, JsonValue)>),
}

/// The value of the first member named `key`, if any.
pub open spec fn spec_obj_get(entries: Seq<(String, JsonValue)>, key: Seq<char>) -> Option<JsonValue>
    decreases entries.len(),
{
    if entries.len() == 0 {
        None
    } else if entries[0].0@ == key {
        Some(entries[0].1)
    } else {
        spec_obj_get(entries.drop_first(), key)
    }
}

/// The member lookup as the walks use it: `None` unless the value is an object.
pub open spec fn spec_get(v: JsonValue, key: Seq<char>) -> Option<JsonValue> {
    match v {
        JsonValue::Obj(entries) => spec_obj_get(entries@, key),
        _ => None,
    }
}

/// The member's string content, if the member exists and is a string.
pub open spec fn spec_get_str(v: JsonValue, key: Seq<char>) -> Option<Seq<char>> {
    match spec_get(v, key) {
        Some(JsonValue::Str(s)) => Some(s@),
        _ => None,
    }
}

impl JsonValue {
    /// Look a member up by name; `None` unless `self` is an object with it.
    pub fn get(&self, key: &str) -> (r: Option<&JsonValue>)
        ensures
            match r {
                Some(v) => spec_get(*self, key@) == Some(*v),
                None => spec_get(*self, key@) is None,
            },
    {
        match self {
            JsonValue::Obj(entries) => {
                let n = entries.len();
                let mut i: usize = 0;
                assert(entries@.skip(0) =~= entries@);
                while i < n
                    invariant
                        i <= n,
                        n == entries@.len(),
                        spec_obj_get(entries@, key@) == spec_obj_get(entries@.skip(i as int), key@),
                    decreases n - i,
                {
                    assert(entries@.skip(i as int)[0] == entries@[i as int]);
                    if str_eq(entries[i].0.as_str(), key) {
                        assert(spec_obj_get(entries@.skip(i as int), key@) == Some(
                            entries@[i as int].1,
                        ));
                        return Some(&entries[i].1);
                    }
                    assert(entries@.skip(i as int).drop_first() =~= entries@.skip(i + 1));
                    i = i + 1;
                }
                assert(entries@.skip(n as int).len() == 0);
                None
            },
            _ => None,
        }
    }

    /// The string content, if `self` is a string value.
    pub fn as_str(&self) -> (r: Option<&String>)
        ensures
            match r {
                Some(s) => self matches JsonValue::Str(t) && t == *s,
                None => !(self matches JsonValue::Str(_)),
            },
    {
        match self {
            JsonValue::Str(s) => Some(s),
            _ => None,
        }
    }
}

#[verifier::external_type_specification]
#[verifier::external_body]
pub struct ExValue(serde_json::Value);

/// What lossy UTF-8 decoding makes of a byte sequence: the bytes of the
/// decoded text, with each ill-formed sequence replaced.
pub uninterp spec fn lossy_of(b: Seq<u8>) -> Seq<u8>;

/// What the JSON parser makes of a byte sequence: `None` where the bytes are
/// not one well-formed JSON document.
pub uninterp spec fn json_of(b: Seq<u8>) -> Option<JsonValue>;

/// Relies on `String::from_utf8_lossy`: ill-formed sequences are replaced with
/// U+FFFD, and bytes below 128 (ASCII, always well-formed) stay as they are.
#[verifier::external_body]
pub(crate) fn sanitize_utf8(b: &[u8]) -> (r: Vec<u8>)
    ensures
        r@ == lossy_of(b@),
        (forall|i: int| 0 <= i < b@.len() ==> b@[i] < 128) ==> r@ == b@,
{
    String::from_utf8_lossy(b).into_owned().into_bytes()
}

/// Relies on `serde_json::from_slice::<serde_json::Value>`: the outcome is a
/// function of the input bytes alone, `Err` exactly on input that is not one
/// well-formed JSON document.
#[verifier::external_body]
pub(crate) fn parse_json(b: &[u8]) -> (r: Option<JsonValue>)
    ensures
        r == json_of(b@),
{
    match serde_json::from_slice::<serde_json::Value>(b) {
        Ok(v) => Some(value_to_json(v)),
        Err(_) => None,
    }
}

/// Rebuilds a parsed `serde_json` tree as a [`JsonValue`]: one arm per
/// variant, fields moved over; numbers keep their displayed text, and object
/// members keep the parser's document order.
#[verifier::external_body]
fn value_to_json(v: serde_json::Value) -> JsonValue {
    match v {
        serde_json::Value::Null => JsonValue::Null,
        serde_json::Value::Bool(b) => JsonValue::Bool(b),
        serde_json::Value::Number(n) => JsonValue::Num(n.to_string()),
        serde_json::Value::String(s) => JsonValue::Str(s),
        serde_json::Value::Array(a) => JsonValue::Arr(
            a.into_iter().map(value_to_json).collect(),
        ),
        serde_json::Value::Object(m) => JsonValue::Obj(
            m.into_iter().map(|(k, w)| (k, value_to_json(w))).collect(),
        ),
    }
}

/// Relies on `String::push`: appends exactly the one character.
#[verifier::external_body]
pub(crate) fn push_char(s: &mut String, c: char)
    ensures
        final(s)@ == old(s)@.push(c),
{
    s.push(c);
}

/// Removes and returns the first member named `key`, handing the value over;
/// `None` unless `v` is an object with such a member.
pub fn take_member(v: JsonValue, key: &str) -> (r: Option<JsonValue>)
    ensures
        match r {
            Some(w) => spec_get(v, key@) == Some(w),
            None => spec_get(v, key@) is None,
        },
{
    match v {
        JsonValue::Obj(mut entries) => {
            let ghost entries_view = entries@;
            let n = entries.len();
            let mut i: usize = 0;
            assert(entries_view.skip(0) =~= entries_view);
            while i < n
                invariant
                    i <= n,
                    n == entries_view.len(),
                    entries@ == entries_view,
                    spec_obj_get(entries_view, key@) == spec_obj_get(
                        entries_view.skip(i as int),
                        key@,
                    ),
                decreases n - i,
            {
                assert(entries_view.skip(i as int)[0] == entries_view[i as int]);
                if str_eq(entries[i].0.as_str(), key) {
                    let pair = entries.remove(i);
                    return Some(pair.1);
                }
                assert(entries_view.skip(i as int).drop_first() =~= entries_view.skip(i + 1));
                i = i + 1;
            }
            assert(entries_view.skip(n as int).len() == 0);
            None
        },
        _ => None,
    }
}

/// Removes and returns the first element, handing it over; `None` unless `v`
/// is a non-empty array.
pub fn take_first_elem(v: JsonValue) -> (r: Option<JsonValue>)
    ensures
        match r {
            Some(w) => v matches JsonValue::Arr(items) && items@.len() > 0 && w == items@[0],
            None => !(v matches JsonValue::Arr(items) && items@.len() > 0),
        },
{
    match v {
        JsonValue::Arr(mut items) => {
            if items.len() > 0 {
                Some(items.remove(0))
            } else {
                None
            }
        },
        _ => None,
    }
}

/// Whether `p@` is a prefix of `s@`.
pub fn str_starts_with(s: &str, p: &str) -> (r: bool)
    ensures
        r == (s@.len() >= p@.len() && s@.take(p@.len() as int) == p@),
{
    let sn = s.unicode_len();
    let pn = p.unicode_len();
    if sn < pn {
        return false;
    }
    let mut i: usize = 0;
    while i < pn
        invariant
            i <= pn,
            pn == p@.len(),
            sn == s@.len(),
            pn <= sn,
            forall|j: int| 0 <= j < i ==> s@[j] == p@[j],
        decreases pn - i,
    {
        if s.get_char(i) != p.get_char(i) {
            assert(s@.take(pn as int)[i as int] != p@[i as int]);
            return false;
        }
        i = i + 1;
    }
    proof {
        assert(s@.take(pn as int) =~= p@);
    }
    true
}

/// Byte-for-byte slice equality.
pub fn bytes_eq(a: &[u8], b: &[u8]) -> (r: bool)
    ensures
        r == (a@ == b@),
{
    if a.len() != b.len() {
        assert(a@.len() != b@.len());
        return false;
    }
    let n = a.len();
    let mut i: usize = 0;
    while i < n
        invariant
            i <= n,
            n == a@.len() && n == b@.len(),
            forall|j: int| 0 <= j < i ==> a@[j] == b@[j],
        decreases n - i,
    {
        if a[i] != b[i] {
            return false;
        }
        i = i + 1;
    }
    proof {
        assert(a@ =~= b@);
    }
    true
}

/// String equality, decided on the UTF-8 encodings.
pub fn str_eq(a: &str, b: &str) -> (r: bool)
    ensures
        r == (a@ == b@),
{
    let r = bytes_eq(a.as_bytes(), b.as_bytes());
    proof {
        if a.spec_bytes() == b.spec_bytes() {
            vstd::utf8::encode_utf8_decode_utf8(a@);
            vstd::utf8::encode_utf8_decode_utf8(b@);
        }
    }
    r
}

} // verus!
