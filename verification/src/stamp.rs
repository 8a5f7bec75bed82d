//! Freshly generated values that only outside crates can produce: the
//! generation timestamp and the per-entry identifier.

use vstd::prelude::*;

verus! {

/// Characters that an RFC 3339 timestamp is built from.
pub open spec fn is_timestamp_char(c: char) -> bool {
    ('0' <= c && c <= '9') || c == '-' || c == ':' || c == 'T' || c == '+' || c == '.' || c == 'Z'
}

/// Every character of `s` is one an RFC 3339 timestamp may contain.
pub open spec fn timestamp_chars(s: Seq<char>) -> bool {
    forall|i: int| 0 <= i < s.len() ==> is_timestamp_char(#[trigger] s[i])
}

/// Relies on chrono's `Utc::now` and `DateTime::to_rfc3339`: the current
/// time as an RFC 3339 string such as `1996-12-19T16:39:57+00:00`, built
/// only from digits, `-`, `:`, `T`, `+`, `.` and `Z`. The value itself
/// depends on the clock, so nothing more is claimed of it.
#[verifier::external_body]
pub(crate) fn now_utc_rfc3339() -> (r: String)
    ensures
        timestamp_chars(r@),
        r@.len() > 0,
{
    chrono::Utc::now().to_rfc3339()
}

/// A lowercase hexadecimal digit.
pub open spec fn is_lower_hex_char(c: char) -> bool {
    ('0' <= c && c <= '9') || ('a' <= c && c <= 'f')
}

/// The text of a hyphenated identifier: 36 characters, lowercase
/// hexadecimal, with hyphens at positions 8, 13, 18 and 23.
pub open spec fn uuid_text(s: Seq<char>) -> bool {
    &&& s.len() == 36
    &&& forall|i: int|
        0 <= i < 36 ==> if i == 8 || i == 13 || i == 18 || i == 23 {
            #[trigger] s[i] == '-'
        } else {
            is_lower_hex_char(s[i])
        }
}

/// Relies on uuid's `Uuid::now_v7` and its `Display` impl, which formats the
/// hyphenated lowercase hexadecimal form (36 characters, hyphens at 8, 13,
/// 18 and 23). The identifier draws on the clock and random bits, so nothing
/// more is claimed of it.
#[verifier::external_body]
pub(crate) fn fresh_entry_id() -> (r: String)
    ensures
        uuid_text(r@),
{
    uuid::Uuid::now_v7().to_string()
}

} // verus!
