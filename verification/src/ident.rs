//! The UUID that goes into the generator's uuid-only identifier slot.
//!
//! A document identifier that is a UUID (optionally `urn:uuid:`-prefixed)
//! keeps its value; any other identifier is mapped to a name-based (v5) UUID
//! in a fixed namespace, so the same identifier always gives the same UUID.
//! UUIDs are handled as their 128-bit values.

use crate::text::{chars_of, starts_with, string_of, trim, trim_exec};
use vstd::prelude::*;

verus! {

/// The namespace of the name-based UUIDs made from identifiers.
pub const IDENTIFIER_NAMESPACE: u128 = 0x4c6f_6e67_656c_6963_4550_5542_4e61_6d65u128;

/// The value of a hexadecimal digit (either case).
pub open spec fn hex_digit(c: char) -> Option<nat> {
    if '0' <= c && c <= '9' {
        Some((c as nat - '0' as nat) as nat)
    } else if 'a' <= c && c <= 'f' {
        Some((c as nat - 'a' as nat + 10) as nat)
    } else if 'A' <= c && c <= 'F' {
        Some((c as nat - 'A' as nat + 10) as nat)
    } else {
        None
    }
}

/// The value of a string of hexadecimal digits, most significant first.
pub open spec fn hex_number(s: Seq<char>) -> Option<nat>
    decreases s.len(),
{
    if s.len() == 0 {
        Some(0)
    } else {
        match (hex_number(s.drop_last()), hex_digit(s.last())) {
            (Some(a), Some(d)) => Some(a * 16 + d),
            _ => None,
        }
    }
}

/// The value of a hyphenated UUID: 36 characters, hyphens at 8, 13, 18 and
/// 23, hexadecimal digits elsewhere.
pub open spec fn hyphenated_value(s: Seq<char>) -> Option<nat> {
    if s.len() == 36 && s[8] == '-' && s[13] == '-' && s[18] == '-' && s[23] == '-' {
        hex_number(
            s.subrange(0, 8) + s.subrange(9, 13) + s.subrange(14, 18) + s.subrange(19, 23)
                + s.subrange(24, 36),
        )
    } else {
        None
    }
}

/// An ASCII letter in lower case; any other character as it is.
pub open spec fn ascii_lower(c: char) -> char {
    if 'A' <= c && c <= 'Z' {
        ((c as u32) + 32) as char
    } else {
        c
    }
}

/// The value of the UUID written by `text`, in any of the forms the uuid
/// crate parses: 32 hexadecimal digits; hyphenated; hyphenated in braces;
/// hyphenated after `urn:uuid:` (in any case). `None` when it is none.
pub open spec fn uuid_text_value(text: Seq<char>) -> Option<u128> {
    let v = if text.len() == 32 {
        hex_number(text)
    } else if text.len() == 36 {
        hyphenated_value(text)
    } else if text.len() == 38 && text[0] == '{' && text[37] == '}' {
        hyphenated_value(text.subrange(1, 37))
    } else if text.len() == 45 && text.subrange(0, 9).map_values(|c: char| ascii_lower(c))
        == "urn:uuid:"@ {
        hyphenated_value(text.subrange(9, 45))
    } else {
        None
    };
    match v {
        Some(n) => Some(n as u128),
        None => None,
    }
}

/// The value of the name-based (SHA-1, version 5) UUID of `name` in the
/// namespace whose value is `namespace`.
pub uninterp spec fn uuid_v5_value(namespace: u128, name: Seq<u8>) -> u128;

/// `uuid::Uuid::parse_str`, the parsed UUID taken as its 128-bit value
/// (`Uuid::as_u128`): the big-endian value of its 32 hexadecimal digits,
/// as `uuid_text_value` states the accepted forms.
#[verifier::external_body]
fn parse_uuid(text: &str) -> (r: Option<u128>)
    ensures
        r == uuid_text_value(text@),
{
    uuid::Uuid::parse_str(text).ok().map(|u| u.as_u128())
}

/// `uuid::Uuid::new_v5` in the namespace `Uuid::from_u128(namespace)`, the
/// result taken as its 128-bit value.
#[verifier::external_body]
fn new_v5_uuid(namespace: u128, name: &[u8]) -> (r: u128)
    ensures
        r == uuid_v5_value(namespace, name@),
{
    uuid::Uuid::new_v5(&uuid::Uuid::from_u128(namespace), name).as_u128()
}

/// The identifier without a leading `urn:uuid:`.
pub open spec fn without_urn(identifier: Seq<char>) -> Seq<char> {
    if starts_with(identifier, "urn:uuid:"@) {
        identifier.subrange("urn:uuid:"@.len() as int, identifier.len() as int)
    } else {
        identifier
    }
}

/// The UUID value for a document identifier: the identifier itself when,
/// without a `urn:uuid:` prefix and trimmed, it is a UUID; else the v5 UUID
/// of its UTF-8 bytes in `IDENTIFIER_NAMESPACE`.
pub open spec fn uuid_for(identifier: Seq<char>) -> u128 {
    match uuid_text_value(trim(without_urn(identifier))) {
        Some(u) => u,
        None => uuid_v5_value(IDENTIFIER_NAMESPACE, vstd::utf8::encode_utf8(identifier)),
    }
}

/// The UUID value for a document identifier, as `uuid_for` says.
pub fn identifier_to_uuid(identifier: &str) -> (r: u128)
    ensures
        r == uuid_for(identifier@),
{
    let id = chars_of(identifier);
    let prefix = chars_of("urn:uuid:");
    let body = if crate::text::matches_at_exec(id.as_slice(), prefix.as_slice(), 0) {
        crate::text::slice_of(id.as_slice(), prefix.len(), id.len())
    } else {
        crate::text::slice_of(id.as_slice(), 0, id.len())
    };
    assert(body@ =~= without_urn(identifier@));
    let trimmed = trim_exec(body.as_slice());
    match parse_uuid(string_of(trimmed.as_slice()).as_str()) {
        Some(u) => u,
        None => new_v5_uuid(IDENTIFIER_NAMESPACE, identifier.as_bytes()),
    }
}

/// An identifier that is a UUID, with or without `urn:uuid:`, keeps its
/// value in the generator's identifier slot.
pub proof fn uuid_identifier_kept(identifier: Seq<char>, value: u128)
    requires
        uuid_text_value(trim(without_urn(identifier))) == Some(value),
    ensures
        uuid_for(identifier) == value,
{
}

} // verus!
