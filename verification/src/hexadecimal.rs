//! Bytes as hexadecimal text, read and written by the `hex` crate.

use hex::FromHex;
use hex::ToHex;
use vstd::prelude::*;
use vstd::string::*;

verus! {

/// The value of the hexadecimal digit with character code `c`, if it is one.
/// Letters count in either case.
pub open spec fn hex_digit_value(c: u8) -> Option<int> {
    if 48 <= c <= 57 {
        Some(c - 48)
    } else if 97 <= c <= 102 {
        Some(c - 87)
    } else if 65 <= c <= 70 {
        Some(c - 55)
    } else {
        None
    }
}

/// Whether the text with the bytes `s` is made of pairs of hexadecimal
/// digits.
pub open spec fn is_hex(s: Seq<u8>) -> bool {
    &&& s.len() % 2 == 0
    &&& forall|i: int| 0 <= i < s.len() ==> hex_digit_value(#[trigger] s[i]) is Some
}

/// The bytes that the pairs of digits in `s` stand for, the first digit of a
/// pair being the higher half.
pub open spec fn hex_decoded(s: Seq<u8>) -> Seq<u8> {
    Seq::new(
        s.len() / 2,
        |i: int| (hex_digit_value(s[2 * i])->0 * 16 + hex_digit_value(s[2 * i + 1])->0) as u8,
    )
}

/// What the `hex` crate says of a text, with the bytes `s`, that is not
/// hexadecimal.
pub uninterp spec fn hex_error_text(s: Seq<u8>) -> Seq<char>;

/// The lower-case hexadecimal digit for `d`, which is below 16.
pub open spec fn hex_digit(d: int) -> char {
    if d < 10 {
        ((48 + d) as u8) as char
    } else {
        ((87 + d) as u8) as char
    }
}

/// The bytes as lower-case hexadecimal text, two digits for each.
pub open spec fn hex_text(bytes: Seq<u8>) -> Seq<char> {
    Seq::new(
        2 * bytes.len(),
        |i: int|
            if i % 2 == 0 {
                hex_digit(bytes[i / 2] as int / 16)
            } else {
                hex_digit(bytes[i / 2] as int % 16)
            },
    )
}

/// Calls `FromHex::from_hex` of the `hex` crate for `Vec<u8>` and renders
/// its error as text. The crate reads the text's bytes in pairs: the result
/// is the decoded bytes exactly where the length is even and every byte is a
/// hexadecimal digit. The error of a text of odd length reads
/// `Odd number of digits`; any other error text is only named.
#[verifier::external_body]
pub(crate) fn decode_hex(s: &str) -> (r: Result<Vec<u8>, String>)
    ensures
        match r {
            Ok(bytes) => is_hex(s.spec_bytes()) && bytes@ == hex_decoded(s.spec_bytes()),
            Err(text) => !is_hex(s.spec_bytes()) && text@ == hex_error_text(s.spec_bytes()) && (
            s.spec_bytes().len() % 2 != 0 ==> text@ == "Odd number of digits"@),
        },
{
    Vec::<u8>::from_hex(s).map_err(|e| e.to_string())
}

/// Calls `ToHex::encode_hex` of the `hex` crate, which writes two lower-case
/// digits for each byte, the higher half first.
#[verifier::external_body]
pub(crate) fn encode_hex(bytes: &[u8]) -> (r: String)
    ensures
        r@ == hex_text(bytes@),
{
    bytes.encode_hex()
}

} // verus!
