//! Document identifiers and their 24-digit hexadecimal text form.
use crate::models::DocumentId;
use vstd::prelude::*;

verus! {

/// Value of a hexadecimal digit (either case), or -1 for any other character.
pub open spec fn hex_digit_value(c: char) -> int {
    if '0' <= c && c <= '9' {
        c as int - '0' as int
    } else if 'a' <= c && c <= 'f' {
        c as int - 'a' as int + 10
    } else if 'A' <= c && c <= 'F' {
        c as int - 'A' as int + 10
    } else {
        -1
    }
}

/// The bytes that a 24-digit hexadecimal text denotes, two digits a byte,
/// or `None` for any other text.
pub open spec fn parse_document_id_spec(s: Seq<char>) -> Option<Seq<u8>> {
    if s.len() == 24 && forall|i: int| 0 <= i < 24 ==> hex_digit_value(#[trigger] s[i]) >= 0 {
        Some(Seq::new(12, |i: int| (hex_digit_value(s[2 * i]) * 16 + hex_digit_value(s[2 * i + 1])) as u8))
    } else {
        None
    }
}

/// Lowercase hexadecimal digit for a value below 16.
pub open spec fn lower_hex_digit(v: int) -> char {
    if v < 10 {
        (v + 48) as char
    } else {
        (v + 87) as char
    }
}

/// The 24 lowercase hexadecimal digits of the identifier's bytes.
pub open spec fn document_id_hex(bytes: Seq<u8>) -> Seq<char> {
    Seq::new(24, |i: int| if i % 2 == 0 { lower_hex_digit(bytes[i / 2] as int / 16) } else { lower_hex_digit(bytes[i / 2] as int % 16) })
}

/// Calls `bson::oid::ObjectId::to_hex` (through `mongodb::bson`) on an
/// identifier built from the bytes; it encodes them with `hex::encode`.
/// Claimed: the 24 lowercase hexadecimal digits of the bytes, two a byte,
/// the high digit first.
#[verifier::external_body]
pub(crate) fn document_id_text(id: DocumentId) -> (r: String)
    ensures
        r@ == document_id_hex(id.bytes@),
{
    mongodb::bson::oid::ObjectId::from_bytes(id.bytes).to_hex()
}

/// Calls `bson::oid::ObjectId::parse_str` (through `mongodb::bson`) and takes
/// the identifier's bytes. Claimed: `Some` exactly on 24 hexadecimal digits,
/// with the bytes that they spell, two digits a byte.
#[verifier::external_body]
pub(crate) fn parse_document_id(s: &str) -> (r: Option<DocumentId>)
    ensures
        match r {
            Some(id) => parse_document_id_spec(s@) == Some(id.bytes@),
            None => parse_document_id_spec(s@) is None,
        },
{
    match mongodb::bson::oid::ObjectId::parse_str(s) {
        Ok(oid) => Some(DocumentId { bytes: oid.bytes() }),
        Err(_) => None,
    }
}

} // verus!
