//! Built-in scalars beyond the language's own.

use crate::context::InputValueType;
use crate::text::{decimal_text, i64_to_string, int_text, u64_to_string};
use crate::value::Value;
use vstd::prelude::*;

verus! {

/// The ID scalar: read from a string or an integer, written as a string.
#[derive(Clone, PartialEq, Eq, PartialOrd, Ord, Hash, Debug)]
pub struct ID(pub String);

impl ID {
    /// The GraphQL name of the scalar.
    pub fn scalar_name() -> (r: &'static str)
        ensures
            r@ == "ID"@,
    {
        "ID"
    }

    /// An ID holding the characters of `s`.
    pub fn new(s: &str) -> (r: ID)
        ensures
            r.0@ == s@,
    {
        ID(String::from_str(s))
    }

    /// An ID holding the decimal text of `n`.
    pub fn from_usize(n: usize) -> (r: ID)
        ensures
            r.0@ == decimal_text(n as nat),
    {
        ID(u64_to_string(n as u64))
    }

    /// The characters of the ID.
    pub fn as_str(&self) -> (r: &str)
        ensures
            r@ == self.0@,
    {
        self.0.as_str()
    }

    /// Reads an ID from a string, or from an integer as its decimal text.
    pub fn parse(value: &Value) -> (r: Option<ID>)
        ensures
            match *value {
                Value::Int(n) => r matches Some(id) && id.0@ == int_text(n as int),
                Value::String(s) => r matches Some(id) && id.0@ == s@,
                _ => r is None,
            },
    {
        match value {
            Value::Int(n) => Some(ID(i64_to_string(*n))),
            Value::String(s) => Some(ID(s.clone())),
            _ => None,
        }
    }

    /// The value an ID is written out as: its text.
    pub fn to_value(&self) -> (r: Value)
        ensures
            r matches Value::String(s) && s@ == self.0@,
    {
        Value::String(self.0.clone())
    }
}

impl From<String> for ID {
    fn from(value: String) -> (r: ID) {
        ID(value)
    }
}

impl vstd::std_specs::convert::FromSpecImpl<String> for ID {
    open spec fn obeys_from_spec() -> bool {
        true
    }

    open spec fn from_spec(v: String) -> ID {
        ID(v)
    }
}

impl InputValueType for ID {
    type Repr = Seq<char>;

    open spec fn repr(x: ID) -> Seq<char> {
        x.0@
    }

    open spec fn parse_spec(v: Value) -> Option<Seq<char>> {
        match v {
            Value::Int(n) => Some(int_text(n as int)),
            Value::String(s) => Some(s@),
            _ => None,
        }
    }

    open spec fn type_name_spec() -> Seq<char> {
        "ID!"@
    }

    fn qualified_type_name() -> (r: String) {
        proof { reveal_strlit("ID!"); }
        String::from_str("ID!")
    }

    fn parse(value: &Value) -> (r: Option<ID>) {
        ID::parse(value)
    }
}

/// The UUID type of the `uuid` crate, carried through opaquely.
#[verifier::external_type_specification]
#[verifier::external_body]
pub struct ExUuid(uuid::Uuid);

/// A hexadecimal digit, in either case.
pub open spec fn is_hex(c: char) -> bool {
    ('0' <= c <= '9') || ('a' <= c <= 'f') || ('A' <= c <= 'F')
}

/// 32 hex digits in groups of 8, 4, 4, 4 and 12, separated by hyphens.
pub open spec fn uuid_hyphenated(t: Seq<char>) -> bool {
    t.len() == 36 && forall|k: int|
        0 <= k < 36 ==> if k == 8 || k == 13 || k == 18 || k == 23 {
            t[k] == '-'
        } else {
            is_hex(#[trigger] t[k])
        }
}

/// `urn:uuid:`, each letter in either case.
pub open spec fn urn_prefix(t: Seq<char>) -> bool {
    t.len() == 9 && forall|k: int| 0 <= k < 9 ==> #[trigger] t[k] == "urn:uuid:"@[k] || t[k] == "URN:UUID:"@[k]
}

/// A text in one of the forms of a UUID: 32 hex digits; the hyphenated form;
/// the hyphenated form in braces; or the hyphenated form after `urn:uuid:`.
pub open spec fn uuid_text_ok(s: Seq<char>) -> bool {
    ||| s.len() == 32 && forall|k: int| 0 <= k < 32 ==> is_hex(#[trigger] s[k])
    ||| uuid_hyphenated(s)
    ||| s.len() == 38 && s[0] == '{' && s[37] == '}' && uuid_hyphenated(s.subrange(1, 37))
    ||| s.len() == 45 && urn_prefix(s.subrange(0, 9)) && uuid_hyphenated(s.subrange(9, 45))
}

/// Relies on uuid::Uuid::parse_str: it succeeds exactly on the forms `try_parse`
/// accepts, read by length (32, 36, 38 braced, 45 with a `urn:uuid:` prefix).
#[verifier::external_body]
fn parse_uuid_str(s: &str) -> (r: Option<uuid::Uuid>)
    ensures
        r is Some <==> uuid_text_ok(s@),
{
    uuid::Uuid::parse_str(s).ok()
}

/// Reads a UUID from a string value.
pub fn parse_uuid(value: &Value) -> (r: Option<uuid::Uuid>)
    ensures
        r is Some <==> (value matches Value::String(s) && uuid_text_ok(s@)),
{
    match value {
        Value::String(s) => parse_uuid_str(s.as_str()),
        _ => None,
    }
}

impl InputValueType for uuid::Uuid {
    /// Only whether a text is a UUID is stated, not which one it is.
    type Repr = ();

    open spec fn repr(x: uuid::Uuid) -> () {
        ()
    }

    open spec fn parse_spec(v: Value) -> Option<()> {
        if v matches Value::String(s) && uuid_text_ok(s@) { Some(()) } else { None }
    }

    open spec fn type_name_spec() -> Seq<char> {
        "UUID!"@
    }

    fn qualified_type_name() -> (r: String) {
        proof { reveal_strlit("UUID!"); }
        String::from_str("UUID!")
    }

    fn parse(value: &Value) -> (r: Option<uuid::Uuid>) {
        parse_uuid(value)
    }
}

} // verus!
