//! A JSON document as the library reads it: the parts of a response body that the
//! response logic looks at, held as plain values.
use vstd::prelude::*;
use crate::text::{chars_eq, chars_of};

verus! {

/// A JSON value. Numbers are kept as far as the library reads them: non-negative integers
/// exactly; negative integers exactly; other numbers (fractions, exponents) only as such.
#[derive(Debug, PartialEq, Eq)]
pub enum Json {
    Null,
    Bool(bool),
    /// A non-negative integer that fits in `u64`.
    UInt(u64),
    /// A negative integer that fits in `i64`.
    NegInt(i64),
    /// Any other number.
    Float,
    Str(String),
    Array(Vec<Json>),
    /// An object's members in order; looking a name up finds its first member.
    Object(Vec<(String, Json)>),
}

/// The value of the first member named `key` among `fields`.
pub open spec fn lookup(fields: Seq<(String, Json)>, key: Seq<char>) -> Option<Json>
    decreases fields.len(),
{
    if fields.len() == 0 {
        None
    } else if fields[0].0@ == key {
        Some(fields[0].1)
    } else {
        lookup(fields.drop_first(), key)
    }
}

/// `Value::get(key)`: the member `key` of an object; nothing for other values.
pub open spec fn field(j: Json, key: Seq<char>) -> Option<Json> {
    match j {
        Json::Object(fields) => lookup(fields@, key),
        _ => None,
    }
}

/// `get(key)` on an optional value.
pub open spec fn field_of(j: Option<Json>, key: Seq<char>) -> Option<Json> {
    match j {
        Some(v) => field(v, key),
        None => None,
    }
}

/// `Value::as_str` on an optional value.
pub open spec fn str_of(j: Option<Json>) -> Option<Seq<char>> {
    match j {
        Some(Json::Str(s)) => Some(s@),
        _ => None,
    }
}

/// `Value::as_u64` on an optional value.
pub open spec fn u64_of(j: Option<Json>) -> Option<u64> {
    match j {
        Some(Json::UInt(n)) => Some(n),
        _ => None,
    }
}

impl Json {
    /// The member `key` of an object (`Value::get`); `None` for other values.
    pub fn get(&self, key: &str) -> (r: Option<&Json>)
        ensures
            match r {
                Some(v) => field(*self, key@) == Some(*v),
                None => field(*self, key@) is None,
            },
    {
        match self {
            Json::Object(fields) => {
                let k = chars_of(key);
                let mut i: usize = 0;
                assert(fields@.skip(0) =~= fields@);
                while i < fields.len()
                    invariant
                        i <= fields@.len(),
                        k@ == key@,
                        lookup(fields@, key@) == lookup(fields@.skip(i as int), key@),
                        field(*self, key@) == lookup(fields@, key@),
                    decreases fields.len() - i,
                {
                    let ghost rest = fields@.skip(i as int);
                    assert(rest[0] == fields@[i as int]);
                    let name = chars_of(fields[i].0.as_str());
                    if chars_eq(name.as_slice(), 0, name.len(), k.as_slice()) {
                        assert(name@.subrange(0, name@.len() as int) =~= name@);
                        assert(rest[0].0@ == key@);
                        assert(lookup(rest, key@) == Some(rest[0].1));
                        return Some(&fields[i].1);
                    }
                    assert(name@.subrange(0, name@.len() as int) =~= name@);
                    assert(rest.drop_first() =~= fields@.skip(i + 1));
                    i += 1;
                }
                assert(fields@.skip(i as int) =~= Seq::<(String, Json)>::empty());
                None
            },
            _ => None,
        }
    }

    /// The text of a string value (`Value::as_str`).
    pub fn as_str(&self) -> (r: Option<&str>)
        ensures
            match r {
                Some(s) => str_of(Some(*self)) == Some(s@),
                None => str_of(Some(*self)) is None,
            },
    {
        match self {
            Json::Str(s) => Some(s.as_str()),
            _ => None,
        }
    }

    /// The elements of an array (`Value::as_array`).
    pub fn as_array(&self) -> (r: Option<&Vec<Json>>)
        ensures
            match r {
                Some(v) => *self == Json::Array(*v),
                None => !(*self is Array),
            },
    {
        match self {
            Json::Array(v) => Some(v),
            _ => None,
        }
    }

    /// The value of a non-negative integer that fits in `u64` (`Value::as_u64`).
    pub fn as_u64(&self) -> (r: Option<u64>)
        ensures
            r == u64_of(Some(*self)),
    {
        match self {
            Json::UInt(n) => Some(*n),
            _ => None,
        }
    }
}

/// `get(key)` on an optional value.
pub fn get_field<'a>(j: Option<&'a Json>, key: &str) -> (r: Option<&'a Json>)
    ensures
        match r {
            Some(v) => field_of(
                match j {
                    Some(x) => Some(*x),
                    None => None,
                },
                key@,
            ) == Some(*v),
            None => field_of(
                match j {
                    Some(x) => Some(*x),
                    None => None,
                },
                key@,
            ) is None,
        },
{
    match j {
        Some(v) => v.get(key),
        None => None,
    }
}

} // verus!
