//! Text as a property list stores it: in UTF-8, or in UTF-16 code units.

use crate::error::{ParserError, ParserResult};
use vstd::prelude::*;
use vstd::utf8::{decode_utf8, valid_utf8};

verus! {

/// Whether a UTF-16 code unit is one half of a surrogate pair.
pub open spec fn is_surrogate(unit: u16) -> bool {
    0xD800 <= unit <= 0xDFFF
}

/// Whether two UTF-16 code units are a surrogate pair: a high surrogate, then a
/// low one.
pub open spec fn is_pair(first: u16, second: u16) -> bool {
    0xD800 <= first <= 0xDBFF && 0xDC00 <= second <= 0xDFFF
}

/// The character that a surrogate pair stands for.
pub open spec fn pair_char(first: u16, second: u16) -> char {
    (0x1_0000 + (first - 0xD800) * 0x400 + (second - 0xDC00)) as char
}

/// The characters that UTF-16 code units spell, or `None` where a surrogate
/// stands without its partner.
pub open spec fn utf16_decode(units: Seq<u16>) -> Option<Seq<char>>
    decreases units.len(),
{
    if units.len() == 0 {
        Some(Seq::empty())
    } else if !is_surrogate(units[0]) {
        match utf16_decode(units.skip(1)) {
            Some(rest) => Some(seq![units[0] as char] + rest),
            None => None,
        }
    } else if units.len() >= 2 && is_pair(units[0], units[1]) {
        match utf16_decode(units.skip(2)) {
            Some(rest) => Some(seq![pair_char(units[0], units[1])] + rest),
            None => None,
        }
    } else {
        None
    }
}

/// Calls `String::from_utf8`, which gives the string whose UTF-8 encoding the
/// bytes are, and fails where they are no UTF-8 encoding.
#[verifier::external_body]
fn string_from_utf8(bytes: Vec<u8>) -> (r: Result<String, std::string::FromUtf8Error>)
    ensures
        match r {
            Ok(string) => valid_utf8(bytes@) && string@ == decode_utf8(bytes@),
            Err(_) => !valid_utf8(bytes@),
        },
{
    String::from_utf8(bytes)
}

/// Calls `String::from_utf16`, which gives the string that the code units
/// spell, and fails where a surrogate stands without its partner.
#[verifier::external_body]
fn string_from_utf16(units: &Vec<u16>) -> (r: Result<String, std::string::FromUtf16Error>)
    ensures
        match r {
            Ok(string) => utf16_decode(units@) == Some(string@),
            Err(_) => utf16_decode(units@) is None,
        },
{
    String::from_utf16(units)
}

/// The text that `bytes` encode in UTF-8.
pub fn decode_ascii(bytes: Vec<u8>) -> (r: ParserResult<String>)
    ensures
        match r {
            Ok(string) => valid_utf8(bytes@) && string@ == decode_utf8(bytes@),
            Err(error) => !valid_utf8(bytes@) && error is InvalidData,
        },
{
    match string_from_utf8(bytes) {
        Ok(string) => Ok(string),
        Err(error) => Err(ParserError::from(error)),
    }
}

/// The text that `units` spell in UTF-16.
pub fn decode_utf16(units: &Vec<u16>) -> (r: ParserResult<String>)
    ensures
        match r {
            Ok(string) => utf16_decode(units@) == Some(string@),
            Err(error) => utf16_decode(units@) is None && error is InvalidData,
        },
{
    match string_from_utf16(units) {
        Ok(string) => Ok(string),
        Err(error) => Err(ParserError::from(error)),
    }
}

/// A surrogate that no partner follows spoils the text it stands in, whatever
/// comes before it.
pub proof fn lemma_unpaired_surrogate(units: Seq<u16>, at: int)
    requires
        0 <= at < units.len(),
        is_surrogate(units[at]),
        at + 1 == units.len() || !is_pair(units[at], units[at + 1]),
        at == 0 || !is_pair(units[at - 1], units[at]),
    ensures
        utf16_decode(units) is None,
    decreases at,
{
    if at == 0 {
    } else if !is_surrogate(units[0]) {
        let rest = units.skip(1);
        assert(rest[at - 1] == units[at]);
        if at + 1 < units.len() {
            assert(rest[at] == units[at + 1]);
        }
        if at - 1 > 0 {
            assert(rest[at - 2] == units[at - 1]);
        }
        lemma_unpaired_surrogate(rest, at - 1);
    } else if units.len() >= 2 && is_pair(units[0], units[1]) {
        // the pair takes two places, and `at` is neither of them
        assert(at >= 2);
        let rest = units.skip(2);
        assert(rest[at - 2] == units[at]);
        if at + 1 < units.len() {
            assert(rest[at - 1] == units[at + 1]);
        }
        if at - 2 > 0 {
            assert(rest[at - 3] == units[at - 1]);
        }
        lemma_unpaired_surrogate(rest, at - 2);
    }
}

} // verus!
