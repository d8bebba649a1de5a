//! Random identifiers and readings of the clock.

use vstd::prelude::*;

use crate::codec::is_hex_digit;
use crate::text::{ascii_lower, is_digit};

verus! {

/// Whether `c` is a lower-case hexadecimal digit.
pub open spec fn is_lower_hex(c: char) -> bool {
    '0' <= c <= '9' || 'a' <= c <= 'f'
}

/// Whether `s` is a UUID in its canonical form: 36 characters, hyphens at 8,
/// 13, 18 and 23, lower-case hexadecimal digits elsewhere.
pub open spec fn is_uuid_text(s: Seq<char>) -> bool {
    &&& s.len() == 36
    &&& forall|i: int|
        0 <= i < 36 ==> if i == 8 || i == 13 || i == 18 || i == 23 {
            #[trigger] s[i] == '-'
        } else {
            is_lower_hex(s[i])
        }
}

/// Whether `s` is a random UUID in its canonical form: version 4, and the
/// variant that goes with it.
pub open spec fn is_random_uuid(s: Seq<char>) -> bool {
    &&& is_uuid_text(s)
    &&& s[14] == '4'
    &&& s[19] == '8' || s[19] == '9' || s[19] == 'a' || s[19] == 'b'
}

/// `uuid::Uuid::new_v4`, printed: a random UUID of version 4 in its canonical
/// form.
#[verifier::external_body]
pub(crate) fn new_uuid() -> (r: String)
    ensures
        is_random_uuid(r@),
{
    uuid::Uuid::new_v4().to_string()
}

/// Whether `s` is a UUID with its hyphens, in digits of either case.
pub open spec fn is_hyphenated(s: Seq<char>) -> bool {
    &&& s.len() == 36
    &&& forall|i: int|
        0 <= i < 36 ==> if i == 8 || i == 13 || i == 18 || i == 23 {
            #[trigger] s[i] == '-'
        } else {
            is_hex_digit(s[i])
        }
}

/// Whether `s` is a UUID in one of the forms in common use: bare digits, with
/// hyphens, with hyphens in braces, or as a URN.
pub open spec fn is_uuid_form(s: Seq<char>) -> bool {
    ||| s.len() == 32 && forall|i: int| 0 <= i < 32 ==> is_hex_digit(#[trigger] s[i])
    ||| is_hyphenated(s)
    ||| s.len() == 38 && s[0] == '{' && s[37] == '}' && is_hyphenated(s.subrange(1, 37))
    ||| s.len() == 45 && ascii_lower(s.take(9)) == "urn:uuid:"@ && is_hyphenated(s.skip(9))
}

/// `uuid::Uuid::parse_str`: succeeds exactly on 32 hexadecimal digits, on the
/// hyphenated form, on that form in braces, and on that form behind
/// `urn:uuid:` in letters of either case.
#[verifier::external_body]
pub(crate) fn reads_as_uuid(s: &str) -> (r: bool)
    ensures
        r == is_uuid_form(s@),
{
    uuid::Uuid::parse_str(s).is_ok()
}

/// `chrono::Utc::now`: the time in epoch milliseconds. Nothing is stated of a
/// reading of the clock.
#[verifier::external_body]
pub(crate) fn now_millis() -> (r: i64) {
    chrono::Utc::now().timestamp_millis()
}

/// Whether `s` is the text of a year: four digits, or a sign and more than
/// four.
pub open spec fn is_year_text(s: Seq<char>) -> bool {
    if s.len() == 4 {
        forall|i: int| 0 <= i < 4 ==> is_digit(#[trigger] s[i])
    } else {
        s.len() > 5 && s[0] == '+' && forall|i: int|
            1 <= i < s.len() ==> is_digit(#[trigger] s[i])
    }
}

/// Whether `s` has the form of a time stamp such as `2026-01-31T12:00:00Z`.
pub open spec fn is_stamp(s: Seq<char>) -> bool {
    let y = s.len() - 16;
    &&& y >= 4
    &&& is_year_text(s.take(y))
    &&& s[y] == '-' && is_digit(s[y + 1]) && is_digit(s[y + 2])
    &&& s[y + 3] == '-' && is_digit(s[y + 4]) && is_digit(s[y + 5])
    &&& s[y + 6] == 'T' && is_digit(s[y + 7]) && is_digit(s[y + 8])
    &&& s[y + 9] == ':' && is_digit(s[y + 10]) && is_digit(s[y + 11])
    &&& s[y + 12] == ':' && is_digit(s[y + 13]) && is_digit(s[y + 14])
    &&& s[y + 15] == 'Z'
}

/// `chrono::Utc::now`, printed with the format `%Y-%m-%dT%H:%M:%SZ`: the form
/// of the text, and nothing of the time that the clock gives. A year past 9999
/// is printed with a sign.
#[verifier::external_body]
pub(crate) fn now_stamp() -> (r: String)
    ensures
        is_stamp(r@),
{
    chrono::Utc::now().format("%Y-%m-%dT%H:%M:%SZ").to_string()
}

} // verus!
