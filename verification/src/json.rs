//! The JSON projection: a bencoded value mapped onto a generic JSON-like
//! tree for display.
//!
//! The projection is lossy only in that byte strings (values and dictionary
//! keys) are read as UTF-8 text; a byte string that is not valid UTF-8 fails
//! with [`BencodeError::NonUtf8Payload`] — the chosen policy, since this tree
//! is display-only and hashing never goes through it. Integers become JSON
//! numbers, lists become arrays in order, dictionaries become objects (the
//! sorted key order is kept, though object key order carries no meaning).

use vstd::prelude::*;

use crate::torrent::utf8_decode;
use crate::value::BValue;
use crate::value::Bencode;
use crate::value::BencodeError;

verus! {

broadcast use vstd::std_specs::vec::group_vec_axioms;

/// A generic JSON-like tree, for display of decoded bencode.
#[derive(Debug, PartialEq, Eq)]
pub enum JsonValue {
    String(String),
    Number(i64),
    Array(Vec<JsonValue>),
    Object(Vec<(String, JsonValue)>),
}

/// The mathematical model of a [`JsonValue`] tree.
pub enum JValue {
    Str(Seq<char>),
    Num(int),
    Arr(Seq<JValue>),
    Obj(Seq<(Seq<char>, JValue)>),
}

/// The models of the elements of an array.
pub open spec fn jlist_view(l: Seq<JsonValue>) -> Seq<JValue>
    decreases l,
{
    Seq::new(l.len(), |i: int| if 0 <= i < l.len() { l[i]@ } else { JValue::Num(0) })
}

/// The models of the members of an object.
pub open spec fn jobj_view(es: Seq<(String, JsonValue)>) -> Seq<(Seq<char>, JValue)>
    decreases es,
{
    Seq::new(
        es.len(),
        |i: int|
            if 0 <= i < es.len() {
                (es[i].0@, es[i].1@)
            } else {
                (Seq::empty(), JValue::Num(0))
            },
    )
}

impl View for JsonValue {
    type V = JValue;

    open spec fn view(&self) -> JValue
        decreases self,
    {
        match self {
            JsonValue::String(s) => JValue::Str(s@),
            JsonValue::Number(n) => JValue::Num(*n as int),
            JsonValue::Array(l) => JValue::Arr(jlist_view(l@)),
            JsonValue::Object(es) => JValue::Obj(jobj_view(es@)),
        }
    }
}

/// Every byte string in the value — payloads and dictionary keys — is valid
/// UTF-8, so the JSON projection is defined.
pub open spec fn json_ok(v: BValue) -> bool
    decreases v,
{
    match v {
        BValue::Str(b) => utf8_decode(b) is Some,
        BValue::Int(_) => true,
        BValue::List(l) => forall|i: int| 0 <= i < l.len() ==> json_ok(#[trigger] l[i]),
        BValue::Dict(d) => forall|i: int|
            0 <= i < d.len() ==> utf8_decode(#[trigger] d[i].0) is Some && json_ok(d[i].1),
    }
}

/// The characters UTF-8 decoding assigns to `b`; meaningful only where the
/// decoding succeeds.
pub open spec fn utf8_chars(b: Seq<u8>) -> Seq<char> {
    match utf8_decode(b) {
        Some(cs) => cs,
        None => Seq::empty(),
    }
}

/// The JSON projection of a value: byte strings as UTF-8 text, integers as
/// numbers, lists as arrays in order, dictionaries as objects in the held
/// (sorted) key order. Meaningful where [`json_ok`] holds.
pub open spec fn json_of(v: BValue) -> JValue
    decreases v,
{
    match v {
        BValue::Str(b) => JValue::Str(utf8_chars(b)),
        BValue::Int(i) => JValue::Num(i),
        BValue::List(l) => JValue::Arr(
            Seq::new(l.len(), |i: int| if 0 <= i < l.len() { json_of(l[i]) } else { JValue::Num(0) }),
        ),
        BValue::Dict(d) => JValue::Obj(
            Seq::new(
                d.len(),
                |i: int|
                    if 0 <= i < d.len() {
                        (utf8_chars(d[i].0), json_of(d[i].1))
                    } else {
                        (Seq::empty(), JValue::Num(0))
                    },
            ),
        ),
    }
}

impl Bencode {
    /// Projects the value onto the JSON-like tree: `Ok` exactly when every
    /// byte string in the value is valid UTF-8, and then the projection of
    /// [`json_of`]; otherwise [`BencodeError::NonUtf8Payload`].
    #[verifier::loop_isolation(false)]
    pub fn to_json(&self) -> (r: Result<JsonValue, BencodeError>)
        ensures
            match r {
                Ok(j) => json_ok(self@) && j@ == json_of(self@),
                Err(e) => !json_ok(self@) && e == BencodeError::NonUtf8Payload,
            },
        decreases self,
    {
        match self {
            Bencode::String(s) => match crate::torrent::bytes_to_string(vstd::slice::slice_to_vec(s.as_slice())) {
                Some(text) => Ok(JsonValue::String(text)),
                None => Err(BencodeError::NonUtf8Payload),
            },
            Bencode::Integer(i) => Ok(JsonValue::Number(*i)),
            Bencode::List(l) => {
                let mut arr: Vec<JsonValue> = Vec::new();
                let mut i: usize = 0;
                while i < l.len()
                    invariant
                        i <= l@.len(),
                        arr@.len() == i,
                        forall|j: int| 0 <= j < i ==> json_ok(#[trigger] l@[j]@),
                        forall|j: int| 0 <= j < i ==> #[trigger] arr@[j]@ == json_of(l@[j]@),
                    decreases l@.len() - i,
                {
                    match l[i].to_json() {
                        Ok(j) => {
                            arr.push(j);
                        },
                        Err(e) => {
                            assert(!json_ok(self@)) by {
                                assert(crate::value::list_view(l@)[i as int] == l@[i as int]@);
                            }
                            return Err(e);
                        },
                    }
                    i = i + 1;
                }
                proof {
                    let lv = crate::value::list_view(l@);
                    assert(self@ == BValue::List(lv));
                    assert forall|k: int| 0 <= k < lv.len() implies json_ok(#[trigger] lv[k]) by {
                        assert(lv[k] == l@[k]@);
                        assert(json_ok(l@[k]@));
                    }
                    assert(json_ok(self@));
                    let jj = json_of(self@);
                    if let JValue::Arr(inner) = jj {
                        assert(inner.len() == lv.len());
                        assert forall|k: int| 0 <= k < lv.len() implies #[trigger] inner[k]
                            == jlist_view(arr@)[k] by {
                            assert(inner[k] == json_of(lv[k]));
                            assert(lv[k] == l@[k]@);
                            assert(arr@[k]@ == json_of(l@[k]@));
                        }
                        assert(inner =~= jlist_view(arr@));
                    }
                    assert(jj == JValue::Arr(jlist_view(arr@)));
                }
                Ok(JsonValue::Array(arr))
            },
            Bencode::Dictionary(d) => {
                let mut obj: Vec<(String, JsonValue)> = Vec::new();
                let mut i: usize = 0;
                while i < d.entries.len()
                    invariant
                        i <= d.entries@.len(),
                        obj@.len() == i,
                        forall|j: int|
                            0 <= j < i ==> utf8_decode(#[trigger] d.entries@[j].0@) is Some
                                && json_ok(d.entries@[j].1@),
                        forall|j: int|
                            0 <= j < i ==> (#[trigger] obj@[j]).0@ == utf8_chars(
                                d.entries@[j].0@,
                            ) && obj@[j].1@ == json_of(d.entries@[j].1@),
                    decreases d.entries@.len() - i,
                {
                    let key = match crate::torrent::bytes_to_string(vstd::slice::slice_to_vec(d.entries[i].0.as_slice())) {
                        Some(text) => text,
                        None => {
                            assert(!json_ok(self@)) by {
                                assert(crate::value::pairs_view(d.entries@)[i as int].0
                                    == d.entries@[i as int].0@);
                            }
                            return Err(BencodeError::NonUtf8Payload);
                        },
                    };
                    match d.entries[i].1.to_json() {
                        Ok(j) => {
                            obj.push((key, j));
                        },
                        Err(e) => {
                            assert(!json_ok(self@)) by {
                                assert(crate::value::pairs_view(d.entries@)[i as int].0
                                    == d.entries@[i as int].0@);
                                assert(crate::value::pairs_view(d.entries@)[i as int].1
                                    == d.entries@[i as int].1@);
                            }
                            return Err(e);
                        },
                    }
                    i = i + 1;
                }
                proof {
                    let pv = crate::value::pairs_view(d.entries@);
                    assert(self@ == BValue::Dict(pv));
                    assert forall|k: int|
                        0 <= k < pv.len() implies utf8_decode(#[trigger] pv[k].0) is Some
                        && json_ok(pv[k].1) by {
                        assert(pv[k] == (d.entries@[k].0@, d.entries@[k].1@));
                    }
                    assert(json_ok(self@));
                    let jj = json_of(self@);
                    if let JValue::Obj(inner) = jj {
                        assert(inner.len() == pv.len());
                        assert forall|k: int| 0 <= k < pv.len() implies #[trigger] inner[k]
                            == jobj_view(obj@)[k] by {
                            assert(inner[k] == (utf8_chars(pv[k].0), json_of(pv[k].1)));
                            assert(pv[k] == (d.entries@[k].0@, d.entries@[k].1@));
                            assert(obj@[k].0@ == utf8_chars(d.entries@[k].0@));
                            assert(obj@[k].1@ == json_of(d.entries@[k].1@));
                        }
                        assert(inner =~= jobj_view(obj@));
                    }
                    assert(jj == JValue::Obj(jobj_view(obj@)));
                }
                Ok(JsonValue::Object(obj))
            },
        }
    }
}

} // verus!
