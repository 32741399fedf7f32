//! How values become bytes and come back: as they are, or as canonical JSON.

use vstd::prelude::*;
use vstd::utf8::{decode_utf8, encode_utf8, valid_utf8};

use crate::codec::utf8_text;
use crate::json::{json_doc_of, json_text_of, parse_doc, render_doc};
use crate::types::Error;

verus! {

/// A way of turning a value into the bytes that are stored, and back.
pub trait Serializer: Sized {
    /// The bytes of `value`, or `None` if it cannot be serialized.
    spec fn encoded(&self, value: Seq<char>) -> Option<Seq<u8>>;

    /// The value of `data`, or `None` if it is none.
    spec fn decoded(&self, data: Seq<u8>) -> Option<Seq<char>>;

    fn serialize(&self, value: &str) -> (r: Result<Vec<u8>, Error>)
        ensures
            match self.encoded(value@) {
                Some(b) => r is Ok && r->Ok_0@ == b,
                None => r == Err::<Vec<u8>, Error>(Error::Serde),
            },
    ;

    fn deserialize(&self, data: &[u8]) -> (r: Result<String, Error>)
        ensures
            match self.decoded(data@) {
                Some(s) => r is Ok && r->Ok_0@ == s,
                None => r == Err::<String, Error>(Error::InvalidRecord),
            },
    ;

    fn box_clone(&self) -> (r: Self)
        ensures
            r == *self,
    ;
}

/// The text of UTF-8 bytes.
pub open spec fn utf8_decoded(data: Seq<u8>) -> Option<Seq<char>> {
    if valid_utf8(data) {
        Some(decode_utf8(data))
    } else {
        None
    }
}

fn text_of(data: &[u8]) -> (r: Result<String, Error>)
    ensures
        match utf8_decoded(data@) {
            Some(s) => r is Ok && r->Ok_0@ == s,
            None => r == Err::<String, Error>(Error::InvalidRecord),
        },
{
    match utf8_text(data) {
        Some(s) => Ok(s.to_owned()),
        None => Err(Error::InvalidRecord),
    }
}

/// Values are stored as their UTF-8 bytes.
#[derive(Clone, Copy, Debug, PartialEq, Eq, Structural)]
pub struct PlainSerializer;

impl Serializer for PlainSerializer {
    open spec fn encoded(&self, value: Seq<char>) -> Option<Seq<u8>> {
        Some(encode_utf8(value))
    }

    open spec fn decoded(&self, data: Seq<u8>) -> Option<Seq<char>> {
        utf8_decoded(data)
    }

    fn serialize(&self, value: &str) -> (r: Result<Vec<u8>, Error>) {
        Ok(vstd::slice::slice_to_vec(value.as_bytes()))
    }

    fn deserialize(&self, data: &[u8]) -> (r: Result<String, Error>) {
        text_of(data)
    }

    fn box_clone(&self) -> (r: Self) {
        PlainSerializer
    }
}

/// Values must be JSON and are stored as canonical JSON text.
#[derive(Clone, Copy, Debug, PartialEq, Eq, Structural)]
pub struct JsonSerializer;

/// The canonical text of a JSON text.
pub open spec fn canonical_json(value: Seq<char>) -> Option<Seq<char>> {
    match json_doc_of(value) {
        Some(d) => json_text_of(d),
        None => None,
    }
}

impl Serializer for JsonSerializer {
    open spec fn encoded(&self, value: Seq<char>) -> Option<Seq<u8>> {
        match canonical_json(value) {
            Some(t) => Some(encode_utf8(t)),
            None => None,
        }
    }

    open spec fn decoded(&self, data: Seq<u8>) -> Option<Seq<char>> {
        utf8_decoded(data)
    }

    fn serialize(&self, value: &str) -> (r: Result<Vec<u8>, Error>) {
        match parse_doc(value) {
            Some(doc) => match render_doc(&doc) {
                Some(text) => Ok(vstd::slice::slice_to_vec(text.as_str().as_bytes())),
                None => Err(Error::Serde),
            },
            None => Err(Error::Serde),
        }
    }

    fn deserialize(&self, data: &[u8]) -> (r: Result<String, Error>) {
        text_of(data)
    }

    fn box_clone(&self) -> (r: Self) {
        JsonSerializer
    }
}

/// What the plain serializer stores reads back as the value.
pub proof fn law_plain_round_trip(value: Seq<char>)
    ensures
        PlainSerializer.decoded(PlainSerializer.encoded(value)->Some_0) == Some(value),
{
    vstd::utf8::encode_utf8_valid_utf8(value);
    vstd::utf8::encode_utf8_decode_utf8(value);
}

/// What the JSON serializer stores reads back as the canonical text.
pub proof fn law_json_round_trip(value: Seq<char>)
    requires
        canonical_json(value) is Some,
    ensures
        JsonSerializer.decoded(JsonSerializer.encoded(value)->Some_0) == canonical_json(value),
{
    let t = canonical_json(value)->Some_0;
    vstd::utf8::encode_utf8_valid_utf8(t);
    vstd::utf8::encode_utf8_decode_utf8(t);
}

} // verus!
