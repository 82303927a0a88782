use vstd::prelude::*;
use sha1::Digest;
use crate::bencode::int_literal_of;
use crate::digits::{ascii_digits_of, is_digit, lemma_ascii_digits_of_canon, u64_digits};

verus! {

/// The characters that a sequence of ASCII bytes spells.
pub open spec fn ascii_chars_of(s: Seq<u8>) -> Seq<char> {
    Seq::new(s.len(), |i: int| s[i] as char)
}

/// ASCII bytes are valid UTF-8 and decode to themselves, character for
/// character.
pub proof fn lemma_ascii_bytes_utf8(s: Seq<u8>)
    requires
        forall|i: int| 0 <= i < s.len() ==> #[trigger] s[i] < 0x80,
    ensures
        vstd::utf8::valid_utf8(s),
        vstd::utf8::decode_utf8(s) == ascii_chars_of(s),
{
    let cs = ascii_chars_of(s);
    assert(vstd::utf8::is_ascii_chars(cs)) by {
        assert forall|i: int| 0 <= i < cs.len() implies '\0' <= #[trigger] cs[i] <= '\u{7f}' by {
            assert(s[i] < 0x80);
            assert(cs[i] == s[i] as char);
        }
    }
    vstd::utf8::is_ascii_chars_encode_utf8(cs);
    assert(vstd::utf8::encode_utf8(cs) =~= s) by {
        assert forall|i: int| 0 <= i < s.len() implies vstd::utf8::encode_utf8(cs)[i] == s[i] by {
            assert(cs[i] as u8 == vstd::utf8::encode_utf8(cs)[i]);
            assert(cs[i] == s[i] as char);
            assert(s[i] < 0x80);
        }
    }
    vstd::utf8::encode_utf8_valid_utf8(cs);
    vstd::utf8::encode_utf8_decode_utf8(cs);
}

/// Relies on String::from_utf8: it succeeds exactly on valid UTF-8 input and
/// yields the string those bytes spell.
#[verifier::external_body]
fn string_from_utf8_vec(v: Vec<u8>) -> (r: Option<String>)
    ensures
        r is Some <==> vstd::utf8::valid_utf8(v@),
        r matches Some(s) ==> s@ == vstd::utf8::decode_utf8(v@),
{
    match String::from_utf8(v) {
        Ok(s) => Some(s),
        Err(_) => None,
    }
}

/// Turns bytes into a string, or reports that they are not UTF-8.
pub fn byte_vector_to_utf8_string(byte_vector: Vec<u8>) -> (r: Result<String, Utf8Error>)
    ensures
        r is Ok <==> vstd::utf8::valid_utf8(byte_vector@),
        r matches Ok(s) ==> s@ == vstd::utf8::decode_utf8(byte_vector@),
{
    match string_from_utf8_vec(byte_vector) {
        Some(s) => Ok(s),
        None => Err(Utf8Error),
    }
}

/// The bytes were not valid UTF-8.
#[derive(Debug)]
pub struct Utf8Error;

/// The decimal rendering of a natural number, as characters.
pub open spec fn dec_chars_of(n: nat) -> Seq<char> {
    ascii_chars_of(ascii_digits_of(n))
}

/// The decimal rendering of an integer, as characters, with a leading minus
/// sign when negative.
pub open spec fn int_chars_of(n: int) -> Seq<char> {
    ascii_chars_of(int_literal_of(n))
}

pub proof fn lemma_digits_ascii(n: nat)
    ensures
        forall|i: int|
            0 <= i < ascii_digits_of(n).len() ==> #[trigger] ascii_digits_of(n)[i] < 0x80,
{
    lemma_ascii_digits_of_canon(n);
    assert forall|i: int| 0 <= i < ascii_digits_of(n).len() implies #[trigger] ascii_digits_of(
        n,
    )[i] < 0x80 by {
        assert(is_digit(ascii_digits_of(n)[i]));
    }
}

/// Renders a natural number in decimal.
pub fn decimal_string_u64(n: u64) -> (r: String)
    ensures
        r@ == dec_chars_of(n as nat),
{
    let digits = u64_digits(n);
    proof {
        lemma_digits_ascii(n as nat);
        lemma_ascii_bytes_utf8(digits@);
    }
    match string_from_utf8_vec(digits) {
        Some(s) => s,
        None => vstd::pervasive::unreached(),
    }
}

/// Renders a signed integer in decimal.
pub fn decimal_string_i64(n: i64) -> (r: String)
    ensures
        r@ == int_chars_of(n as int),
{
    let mut bytes: Vec<u8> = Vec::new();
    if n < 0 {
        bytes.push(0x2d);
        let mag: u64 = if n == i64::MIN {
            0x8000_0000_0000_0000
        } else {
            (-n) as u64
        };
        let digits = u64_digits(mag);
        bytes.extend_from_slice(digits.as_slice());
        proof {
            assert(mag as nat == (-(n as int)) as nat);
            assert(bytes@ =~= int_literal_of(n as int));
            lemma_digits_ascii(mag as nat);
            assert(forall|i: int| 0 <= i < bytes@.len() ==> #[trigger] bytes@[i] < 0x80);
        }
    } else {
        let digits = u64_digits(n as u64);
        bytes.extend_from_slice(digits.as_slice());
        proof {
            assert(bytes@ =~= int_literal_of(n as int));
            lemma_digits_ascii(n as nat);
            assert(forall|i: int| 0 <= i < bytes@.len() ==> #[trigger] bytes@[i] < 0x80);
        }
    }
    proof {
        lemma_ascii_bytes_utf8(bytes@);
    }
    match string_from_utf8_vec(bytes) {
        Some(s) => s,
        None => vstd::pervasive::unreached(),
    }
}

/// The SHA-1 digest of a byte sequence. What the digest is on given bytes is
/// left to the hash implementation; the contracts only carry it around.
pub uninterp spec fn sha1_of(data: Seq<u8>) -> Seq<u8>;

/// Relies on sha1::Sha1 through the Digest trait: the 20-byte SHA-1 digest
/// of the input, a function of the input bytes alone.
#[verifier::external_body]
pub fn sha1_digest(data: &[u8]) -> (r: Vec<u8>)
    ensures
        r@ == sha1_of(data@),
        r@.len() == 20,
{
    let mut hasher = sha1::Sha1::new();
    hasher.update(data);
    hasher.finalize().to_vec()
}

/// A lowercase hex digit for a value below 16.
pub open spec fn hex_digit_lower(n: u8) -> char {
    if n < 10 {
        ((n + 0x30) as u8) as char
    } else {
        ((n + 0x57) as u8) as char
    }
}

/// The lowercase hex spelling of bytes, two digits per byte, high nibble
/// first.
pub open spec fn hex_chars_of(bytes: Seq<u8>) -> Seq<char> {
    Seq::new(
        2 * bytes.len(),
        |i: int|
            if i % 2 == 0 {
                hex_digit_lower(bytes[i / 2] / 16)
            } else {
                hex_digit_lower(bytes[i / 2] % 16)
            },
    )
}

/// Relies on hex::encode: two lowercase hex digits per input byte, high
/// nibble first, in input order.
#[verifier::external_body]
fn hex_encode_bytes(data: &[u8]) -> (r: String)
    ensures
        r@ == hex_chars_of(data@),
{
    hex::encode(data)
}

/// The lowercase hex spelling of bytes, as a string.
pub fn bytes_to_hex(data: &[u8]) -> (r: String)
    ensures
        r@ == hex_chars_of(data@),
{
    hex_encode_bytes(data)
}

pub open spec fn is_hex_digit(c: char) -> bool {
    ('0' <= c && c <= '9') || ('a' <= c && c <= 'f') || ('A' <= c && c <= 'F')
}

/// The value of one hex digit.
pub open spec fn hex_digit_val(c: char) -> u8 {
    if '0' <= c && c <= '9' {
        ((c as u8) - 0x30) as u8
    } else if 'a' <= c && c <= 'f' {
        ((c as u8) - 0x57) as u8
    } else {
        ((c as u8) - 0x37) as u8
    }
}

/// An even-length string of hex digits, upper or lower case.
pub open spec fn is_hex_seq(s: Seq<char>) -> bool {
    s.len() % 2 == 0 && forall|i: int| 0 <= i < s.len() ==> is_hex_digit(#[trigger] s[i])
}

/// The bytes a hex string spells, high nibble first.
pub open spec fn hex_bytes_of(s: Seq<char>) -> Seq<u8> {
    Seq::new(
        (s.len() / 2) as nat,
        |i: int| (hex_digit_val(s[2 * i]) * 16 + hex_digit_val(s[2 * i + 1])) as u8,
    )
}

/// Relies on hex::decode: it accepts exactly even-length strings of hex
/// digits (either case) and pairs them high nibble first.
#[verifier::external_body]
fn hex_decode_string(s: &str) -> (r: Option<Vec<u8>>)
    ensures
        r is Some <==> is_hex_seq(s@),
        r matches Some(v) ==> v@ == hex_bytes_of(s@),
{
    match hex::decode(s) {
        Ok(v) => Some(v),
        Err(_) => None,
    }
}

/// Calculates the SHA-1 hash of the bytes and spells it in hex.
pub fn calculate_sha1_hash(data: Vec<u8>) -> (r: String)
    ensures
        r@ == hex_chars_of(sha1_of(data@)),
{
    let digest = sha1_digest(data.as_slice());
    bytes_to_hex(digest.as_slice())
}

/// Calculates the SHA-1 hash of the borrowed bytes and spells it in hex.
pub fn calculate_sha1_hash_with_ref(data: &Vec<u8>) -> (r: String)
    ensures
        r@ == hex_chars_of(sha1_of(data@)),
{
    let digest = sha1_digest(data.as_slice());
    bytes_to_hex(digest.as_slice())
}

/// Reads a hex string back into bytes. The input must spell whole bytes in
/// hex; `requires` excludes anything else, so this function never fails.
pub fn hex_to_byte_representation(data: &String) -> (r: Vec<u8>)
    requires
        is_hex_seq(data@),
    ensures
        r@ == hex_bytes_of(data@),
{
    match hex_decode_string(data.as_str()) {
        Some(v) => v,
        None => vstd::pervasive::unreached(),
    }
}

} // verus!
