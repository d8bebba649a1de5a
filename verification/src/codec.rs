//! Byte codecs and digests: the calls into the crates that compute them.

use base64::Engine;
use sha2::Digest;
use vstd::prelude::*;
use vstd::utf8::*;

verus! {

/// The SHA-256 digest of a byte sequence.
pub uninterp spec fn sha256(data: Seq<u8>) -> Seq<u8>;

/// `sha2::Sha256::digest`: the 32-byte digest, a function of the data alone.
#[verifier::external_body]
pub(crate) fn sha256_digest(data: &[u8]) -> (r: Vec<u8>)
    ensures
        r@ == sha256(data@),
        r@.len() == 32,
{
    sha2::Sha256::digest(data).to_vec()
}

/// The lower-case hexadecimal digit with value `v`.
pub open spec fn hex_digit(v: int) -> char {
    if v < 10 {
        (48 + v) as char
    } else {
        (87 + v) as char
    }
}

/// The bytes in hexadecimal, two lower-case digits each, high digit first.
pub open spec fn hex_text(data: Seq<u8>) -> Seq<char> {
    Seq::new(
        2 * data.len(),
        |i: int|
            if i % 2 == 0 {
                hex_digit(data[i / 2] as int / 16)
            } else {
                hex_digit(data[i / 2] as int % 16)
            },
    )
}

/// `hex::encode`: two lower-case digits per byte, high digit first.
#[verifier::external_body]
pub(crate) fn hex_encode(data: &[u8]) -> (r: String)
    ensures
        r@ == hex_text(data@),
{
    hex::encode(data)
}

/// Whether `c` is a hexadecimal digit of either case.
pub open spec fn is_hex_digit(c: char) -> bool {
    '0' <= c <= '9' || 'a' <= c <= 'f' || 'A' <= c <= 'F'
}

/// The value of a hexadecimal digit.
pub open spec fn hex_value(c: char) -> int {
    if '0' <= c <= '9' {
        c as int - 48
    } else if 'a' <= c <= 'f' {
        c as int - 87
    } else {
        c as int - 55
    }
}

/// Whether `s` is an even number of hexadecimal digits.
pub open spec fn is_hex_text(s: Seq<char>) -> bool {
    s.len() % 2 == 0 && forall|i: int| 0 <= i < s.len() ==> is_hex_digit(#[trigger] s[i])
}

/// The bytes that a hexadecimal text writes.
pub open spec fn hex_bytes(s: Seq<char>) -> Seq<u8> {
    Seq::new(
        s.len() / 2,
        |i: int| (16 * hex_value(s[2 * i]) + hex_value(s[2 * i + 1])) as u8,
    )
}

/// The message for a text that is not hexadecimal.
pub uninterp spec fn hex_error(s: Seq<char>) -> Seq<char>;

/// `hex::decode`: succeeds exactly on an even number of hexadecimal digits,
/// with the bytes they write; otherwise an error, here by its message.
#[verifier::external_body]
pub(crate) fn hex_decode(s: &str) -> (r: Result<Vec<u8>, String>)
    ensures
        r is Ok <==> is_hex_text(s@),
        r matches Ok(b) ==> b@ == hex_bytes(s@),
        r matches Err(m) ==> m@ == hex_error(s@),
{
    hex::decode(s).map_err(|e| e.to_string())
}

/// Decoding what was encoded gives the bytes again.
pub proof fn law_hex_round_trip(data: Seq<u8>)
    ensures
        is_hex_text(hex_text(data)),
        hex_bytes(hex_text(data)) == data,
{
    assert(hex_bytes(hex_text(data)) =~= data);
}

/// The CRC-32C checksum of a byte sequence.
pub uninterp spec fn crc32c_sum(data: Seq<u8>) -> u32;

/// `crc32c::crc32c`: the Castagnoli checksum, a function of the data alone.
#[verifier::external_body]
pub(crate) fn crc32c_of(data: &[u8]) -> (r: u32)
    ensures
        r == crc32c_sum(data@),
{
    crc32c::crc32c(data)
}

/// The base64 character with value `v` in the standard alphabet.
pub open spec fn base64_digit(v: int) -> char {
    if v < 26 {
        (65 + v) as char
    } else if v < 52 {
        (71 + v) as char
    } else if v < 62 {
        (v - 4) as char
    } else if v == 62 {
        '+'
    } else {
        '/'
    }
}

/// The standard base64 text of a byte sequence, padded.
pub open spec fn base64_text(d: Seq<u8>) -> Seq<char>
    decreases d.len(),
{
    if d.len() == 0 {
        Seq::empty()
    } else {
        let a = d[0] as int;
        let b = if d.len() > 1 {
            d[1] as int
        } else {
            0
        };
        let c = if d.len() > 2 {
            d[2] as int
        } else {
            0
        };
        seq![
            base64_digit(a / 4),
            base64_digit(a % 4 * 16 + b / 16),
            if d.len() > 1 {
                base64_digit(b % 16 * 4 + c / 64)
            } else {
                '='
            },
            if d.len() > 2 {
                base64_digit(c % 64)
            } else {
                '='
            },
        ] + if d.len() > 3 {
            base64_text(d.skip(3))
        } else {
            Seq::empty()
        }
    }
}

/// `base64::engine::general_purpose::STANDARD.encode`: the standard alphabet,
/// padded with `=` to a multiple of four characters.
#[verifier::external_body]
pub(crate) fn base64_encode(data: &[u8]) -> (r: String)
    ensures
        r@ == base64_text(data@),
{
    base64::engine::general_purpose::STANDARD.encode(data)
}

/// How one character is written inside a JSON string.
pub open spec fn json_char(c: char) -> Seq<char> {
    if c == '"' {
        seq!['\\', '"']
    } else if c == '\\' {
        seq!['\\', '\\']
    } else if c == '\u{8}' {
        seq!['\\', 'b']
    } else if c == '\u{9}' {
        seq!['\\', 't']
    } else if c == '\u{a}' {
        seq!['\\', 'n']
    } else if c == '\u{c}' {
        seq!['\\', 'f']
    } else if c == '\u{d}' {
        seq!['\\', 'r']
    } else if c <= '\u{1f}' {
        seq!['\\', 'u', '0', '0', hex_digit(c as int / 16), hex_digit(c as int % 16)]
    } else {
        seq![c]
    }
}

/// The characters of `s` as they are written inside a JSON string.
pub open spec fn json_escaped(s: Seq<char>) -> Seq<char>
    decreases s.len(),
{
    if s.len() == 0 {
        Seq::empty()
    } else {
        json_escaped(s.drop_last()) + json_char(s.last())
    }
}

/// `s` as a JSON string literal.
pub open spec fn json_string(s: Seq<char>) -> Seq<char> {
    seq!['"'] + json_escaped(s) + seq!['"']
}

/// `serde_json::Value` of a string, printed compactly: the JSON literal with
/// quotes, backslashes and control characters escaped and all else verbatim.
#[verifier::external_body]
pub(crate) fn json_quoted(s: &str) -> (r: String)
    ensures
        r@ == json_string(s@),
{
    serde_json::Value::from(s).to_string()
}

/// The hexadecimal text of the SHA-256 digest.
pub open spec fn sha256_hex_text(data: Seq<u8>) -> Seq<char> {
    hex_text(sha256(data))
}

/// The SHA-256 digest of `data` in hexadecimal.
pub fn sha256_hex(data: &[u8]) -> (r: String)
    ensures
        r@ == sha256_hex_text(data@),
        r@.len() == 64,
        is_hex_text(r@),
{
    let d = sha256_digest(data);
    proof {
        law_hex_round_trip(d@);
    }
    hex_encode(d.as_slice())
}

/// The four bytes of `v`, most significant first.
pub open spec fn big_endian(v: u32) -> Seq<u8> {
    seq![
        (v as int / 0x1000000) as u8,
        (v as int / 0x10000 % 0x100) as u8,
        (v as int / 0x100 % 0x100) as u8,
        (v as int % 0x100) as u8,
    ]
}

/// The CRC-32C of `data`, big-endian, in base64.
pub fn crc32c_base64(data: &[u8]) -> (r: String)
    ensures
        r@ == base64_text(big_endian(crc32c_sum(data@))),
{
    let v: u32 = crc32c_of(data);
    let mut bytes: Vec<u8> = Vec::new();
    bytes.push((v / 0x1000000) as u8);
    bytes.push((v / 0x10000 % 0x100) as u8);
    bytes.push((v / 0x100 % 0x100) as u8);
    bytes.push((v % 0x100) as u8);
    proof {
        assert(bytes@ =~= big_endian(v));
    }
    base64_encode(bytes.as_slice())
}

} // verus!
