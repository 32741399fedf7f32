//! The record codec: one log line per mutation.
//!
//! A line is `put<TAB>key<TAB>base64(value)<TAB>[expiry]` or `del<TAB>key`.

use base64::Engine;
use vstd::prelude::*;
use vstd::utf8::*;

use crate::bytes::{bytes_equal, has_byte, join, lemma_split_join, split, split_bytes, views};
use crate::decimal::{
    all_digits, decimal_digits, format_u64, is_digit, lemma_decimal_digits,
    lemma_parse_decimal_digits, parse_decimal, parse_u64,
};
use crate::types::Error;

verus! {

/// The byte between the fields of a record.
pub const TAB: u8 = 9;

/// The byte that ends a line.
pub const LF: u8 = 10;

/// The standard padded base64 text of `data`, as ASCII bytes.
pub uninterp spec fn base64_text(data: Seq<u8>) -> Seq<u8>;

/// The bytes that standard padded base64 `text` stands for, if it is valid.
pub uninterp spec fn base64_data(text: Seq<u8>) -> Option<Seq<u8>>;

/// A letter of the standard base64 alphabet, or the padding sign.
pub open spec fn is_base64_byte(b: u8) -> bool {
    (65 <= b <= 90) || (97 <= b <= 122) || (48 <= b <= 57) || b == 43 || b == 47 || b == 61
}

/// The longest input whose base64 text has a length within `usize`.
pub open spec fn base64_encodable(len: nat) -> bool {
    len / 3 * 4 + 4 <= usize::MAX
}

/// `base64::engine::general_purpose::STANDARD.encode`. Believed of it: the
/// result is the standard padded encoding, four letters for every three
/// bytes begun, made of alphabet letters and `=` only, and decodes back to
/// the input. Inputs whose encoded length would overflow `usize` make it
/// panic and are left out.
#[verifier::external_body]
pub(crate) fn base64_encode(data: &[u8]) -> (r: Vec<u8>)
    requires
        base64_encodable(data@.len()),
    ensures
        r@ == base64_text(data@),
        r@.len() == (data@.len() + 2) / 3 * 4,
        base64_data(r@) == Some(data@),
        forall|i: int| 0 <= i < r@.len() ==> is_base64_byte(#[trigger] r@[i]),
{
    base64::engine::general_purpose::STANDARD.encode(data).into_bytes()
}

/// `base64::engine::general_purpose::STANDARD.decode`. Believed of it: the
/// result depends on the text alone; invalid text gives `None`.
#[verifier::external_body]
pub(crate) fn base64_decode(text: &[u8]) -> (r: Option<Vec<u8>>)
    ensures
        match base64_data(text@) {
            Some(d) => r is Some && r->Some_0@ == d,
            None => r is None,
        },
{
    match base64::engine::general_purpose::STANDARD.decode(text) {
        Ok(data) => Some(data),
        Err(_) => None,
    }
}

/// `core::str::from_utf8`. Believed of it: it succeeds exactly on valid
/// UTF-8, and the text it gives has the input as its bytes.
#[verifier::external_body]
pub(crate) fn utf8_text(data: &[u8]) -> (r: Option<&str>)
    ensures
        r is Some <==> valid_utf8(data@),
        r matches Some(s) ==> s@ == decode_utf8(data@) && encode_utf8(s@) == data@,
{
    match core::str::from_utf8(data) {
        Ok(s) => Some(s),
        Err(_) => None,
    }
}

/// A mutation as it stands in the log.
#[derive(Clone, Debug)]
pub enum Record {
    /// `value` is the base64 text of the stored bytes.
    Put { key: Vec<u8>, value: Vec<u8>, expiry: Option<u64> },
    Del { key: Vec<u8> },
}

/// A record as a plain value.
pub enum RecordView {
    Put { key: Seq<u8>, value: Seq<u8>, expiry: Option<u64> },
    Del { key: Seq<u8> },
}

impl View for Record {
    type V = RecordView;

    open spec fn view(&self) -> RecordView {
        match self {
            Record::Put { key, value, expiry } => RecordView::Put {
                key: key@,
                value: value@,
                expiry: *expiry,
            },
            Record::Del { key } => RecordView::Del { key: key@ },
        }
    }
}

impl RecordView {
    /// The key of the record.
    pub open spec fn key(self) -> Seq<u8> {
        match self {
            RecordView::Put { key, .. } => key,
            RecordView::Del { key } => key,
        }
    }
}

/// The lead token `put`.
pub open spec fn put_token() -> Seq<u8> {
    seq![112u8, 117u8, 116u8]
}

/// The lead token `del`.
pub open spec fn del_token() -> Seq<u8> {
    seq![100u8, 101u8, 108u8]
}

/// A key is UTF-8 text without TAB or LF.
pub open spec fn valid_key(key: Seq<u8>) -> bool {
    !key.contains(TAB) && !key.contains(LF) && valid_utf8(key)
}

/// A field that can stand in a line: no TAB, no LF.
pub open spec fn plain_field(f: Seq<u8>) -> bool {
    !f.contains(TAB) && !f.contains(LF)
}

/// A record that a line can hold and give back.
pub open spec fn well_formed(r: RecordView) -> bool {
    match r {
        RecordView::Put { key, value, expiry } => valid_key(key) && plain_field(value),
        RecordView::Del { key } => valid_key(key),
    }
}

/// An expiry is over once the clock has reached it.
pub open spec fn expired(expiry: Option<u64>, now: u64) -> bool {
    expiry matches Some(e) && e <= now
}

/// The last field of a `put` line: the expiry in decimal, or nothing.
pub open spec fn expiry_text(expiry: Option<u64>) -> Seq<u8> {
    match expiry {
        Some(e) => decimal_digits(e as nat),
        None => Seq::<u8>::empty(),
    }
}

/// The line of a record, without the terminating LF.
pub open spec fn encode_record(r: RecordView) -> Seq<u8> {
    match r {
        RecordView::Put { key, value, expiry } => join(
            seq![put_token(), key, value, expiry_text(expiry)],
            TAB,
        ),
        RecordView::Del { key } => join(seq![del_token(), key], TAB),
    }
}

/// The record of a line, if the line is one: the lead token is `put` or
/// `del`; `put` has exactly three fields after it, the last empty or a
/// decimal number; `del` has exactly one; the key is valid.
pub open spec fn decode_record(line: Seq<u8>) -> Option<RecordView> {
    let f = split(line, TAB);
    if f.len() == 4 && f[0] == put_token() && valid_key(f[1]) && plain_field(f[2]) {
        if f[3].len() == 0 {
            Some(RecordView::Put { key: f[1], value: f[2], expiry: None })
        } else {
            match parse_decimal(f[3]) {
                Some(e) => Some(RecordView::Put { key: f[1], value: f[2], expiry: Some(e) }),
                None => None,
            }
        }
    } else if f.len() == 2 && f[0] == del_token() && valid_key(f[1]) {
        Some(RecordView::Del { key: f[1] })
    } else {
        None
    }
}

/// The lead tokens hold neither TAB nor LF, and differ.
pub proof fn lemma_tokens()
    ensures
        plain_field(put_token()),
        plain_field(del_token()),
        put_token() != del_token(),
{
    let p = put_token();
    let d = del_token();
    assert(p[0] == 112u8 && p[1] == 117u8 && p[2] == 116u8);
    assert(d[0] == 100u8 && d[1] == 101u8 && d[2] == 108u8);
}

/// Digits are neither TAB nor LF.
pub proof fn lemma_digits_plain(s: Seq<u8>)
    requires
        all_digits(s),
    ensures
        plain_field(s),
{
    if s.contains(TAB) {
        let j = choose|j: int| 0 <= j < s.len() && s[j] == TAB;
        assert(is_digit(s[j]));
    }
    if s.contains(LF) {
        let j = choose|j: int| 0 <= j < s.len() && s[j] == LF;
        assert(is_digit(s[j]));
    }
}

/// Base64 text holds neither TAB nor LF.
pub proof fn lemma_base64_plain(s: Seq<u8>)
    requires
        forall|i: int| 0 <= i < s.len() ==> is_base64_byte(#[trigger] s[i]),
    ensures
        plain_field(s),
{
    if s.contains(TAB) {
        let j = choose|j: int| 0 <= j < s.len() && s[j] == TAB;
        assert(is_base64_byte(s[j]));
    }
    if s.contains(LF) {
        let j = choose|j: int| 0 <= j < s.len() && s[j] == LF;
        assert(is_base64_byte(s[j]));
    }
}

/// The line of a well-formed record holds no LF.
pub proof fn lemma_encode_no_newline(r: RecordView)
    requires
        well_formed(r),
    ensures
        !encode_record(r).contains(LF),
{
    lemma_tokens();
    let line = encode_record(r);
    match r {
        RecordView::Put { key, value, expiry } => {
            let e = expiry_text(expiry);
            if expiry is Some {
                lemma_decimal_digits(expiry->Some_0 as nat);
                lemma_digits_plain(e);
            }
            let parts = seq![put_token(), key, value, e];
            reveal_with_fuel(join, 5);
            assert(parts.skip(1).skip(1).skip(1) =~= seq![e]);
            assert(parts.skip(1).skip(1) =~= seq![value, e]);
            assert(parts.skip(1) =~= seq![key, value, e]);
            assert(line =~= put_token() + seq![TAB] + (key + seq![TAB] + (value + seq![TAB] + e)));
            if line.contains(LF) {
                let j = choose|j: int| 0 <= j < line.len() && line[j] == LF;
                let a = put_token().len() as int;
                let b = a + 1 + key.len();
                let c = b + 1 + value.len();
                if j < a {
                    assert(put_token().contains(put_token()[j]));
                } else if j == a {
                } else if j < b {
                    assert(key.contains(key[j - a - 1]));
                } else if j == b {
                } else if j < c {
                    assert(value.contains(value[j - b - 1]));
                } else if j == c {
                } else {
                    assert(e.contains(e[j - c - 1]));
                }
            }
        },
        RecordView::Del { key } => {
            let parts = seq![del_token(), key];
            reveal_with_fuel(join, 3);
            assert(parts.skip(1) =~= seq![key]);
            assert(line =~= del_token() + seq![TAB] + key);
            if line.contains(LF) {
                let j = choose|j: int| 0 <= j < line.len() && line[j] == LF;
                let a = del_token().len() as int;
                if j < a {
                    assert(del_token().contains(del_token()[j]));
                } else if j == a {
                } else {
                    assert(key.contains(key[j - a - 1]));
                }
            }
        },
    }
}

/// Decoding the line of a well-formed record gives the record.
pub proof fn lemma_decode_encode(r: RecordView)
    requires
        well_formed(r),
    ensures
        decode_record(encode_record(r)) == Some(r),
{
    lemma_tokens();
    match r {
        RecordView::Put { key, value, expiry } => {
            let e = expiry_text(expiry);
            if expiry is Some {
                lemma_parse_decimal_digits(expiry->Some_0);
                lemma_digits_plain(e);
            }
            let parts = seq![put_token(), key, value, e];
            lemma_split_join(parts, TAB);
        },
        RecordView::Del { key } => {
            let parts = seq![del_token(), key];
            lemma_split_join(parts, TAB);
        },
    }
}

fn put_bytes() -> (r: Vec<u8>)
    ensures
        r@ == put_token(),
{
    let mut v: Vec<u8> = Vec::new();
    v.push(112u8);
    v.push(117u8);
    v.push(116u8);
    proof {
        assert(v@ =~= put_token());
    }
    v
}

fn del_bytes() -> (r: Vec<u8>)
    ensures
        r@ == del_token(),
{
    let mut v: Vec<u8> = Vec::new();
    v.push(100u8);
    v.push(101u8);
    v.push(108u8);
    proof {
        assert(v@ =~= del_token());
    }
    v
}

/// Whether `key` is UTF-8 text without TAB or LF.
pub fn is_valid_key(key: &[u8]) -> (r: bool)
    ensures
        r == valid_key(key@),
{
    !has_byte(key, TAB) && !has_byte(key, LF) && utf8_text(key).is_some()
}

/// Whether `f` holds neither TAB nor LF.
pub fn is_plain_field(f: &[u8]) -> (r: bool)
    ensures
        r == plain_field(f@),
{
    !has_byte(f, TAB) && !has_byte(f, LF)
}

/// The line of `record`, without the terminating LF.
pub fn encode(record: &Record) -> (r: Vec<u8>)
    ensures
        r@ == encode_record(record@),
{
    match record {
        Record::Put { key, value, expiry } => {
            let mut out = put_bytes();
            out.push(TAB);
            out.extend_from_slice(key.as_slice());
            out.push(TAB);
            out.extend_from_slice(value.as_slice());
            out.push(TAB);
            let ghost e = expiry_text(*expiry);
            match expiry {
                Some(ts) => {
                    let digits = format_u64(*ts);
                    out.extend_from_slice(digits.as_slice());
                },
                None => {},
            }
            proof {
                let parts = seq![put_token(), key@, value@, e];
                reveal_with_fuel(join, 5);
                assert(parts.skip(1).skip(1).skip(1) =~= seq![e]);
                assert(parts.skip(1).skip(1) =~= seq![value@, e]);
                assert(parts.skip(1) =~= seq![key@, value@, e]);
                assert(out@ =~= join(parts, TAB));
            }
            out
        },
        Record::Del { key } => {
            let mut out = del_bytes();
            out.push(TAB);
            out.extend_from_slice(key.as_slice());
            proof {
                let parts = seq![del_token(), key@];
                reveal_with_fuel(join, 3);
                assert(parts.skip(1) =~= seq![key@]);
                assert(out@ =~= join(parts, TAB));
            }
            out
        },
    }
}

/// The record that `line` holds, or `InvalidRecord`.
pub fn decode(line: &[u8]) -> (r: Result<Record, Error>)
    ensures
        match decode_record(line@) {
            Some(rv) => r is Ok && r->Ok_0@ == rv,
            None => r == Err::<Record, Error>(Error::InvalidRecord),
        },
{
    let mut fields = split_bytes(line, TAB);
    let ghost f = split(line@, TAB);
    let put = put_bytes();
    let del = del_bytes();
    proof {
        assert(forall|i: int| 0 <= i < fields@.len() ==> views(fields@)[i] == fields@[i]@);
    }
    if fields.len() == 4 && bytes_equal(fields[0].as_slice(), put.as_slice()) && is_valid_key(
        fields[1].as_slice(),
    ) && is_plain_field(fields[2].as_slice()) {
        let expiry = if fields[3].len() == 0 {
            None
        } else {
            match parse_u64(fields[3].as_slice()) {
                Some(e) => Some(e),
                None => {
                    return Err(Error::InvalidRecord);
                },
            }
        };
        let value = fields.remove(2);
        let key = fields.remove(1);
        Ok(Record::Put { key, value, expiry })
    } else if fields.len() == 2 && bytes_equal(fields[0].as_slice(), del.as_slice())
        && is_valid_key(fields[1].as_slice()) {
        let key = fields.remove(1);
        Ok(Record::Del { key })
    } else {
        Err(Error::InvalidRecord)
    }
}

} // verus!
