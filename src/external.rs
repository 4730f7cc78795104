//! The calls this library makes into outside crates, each with the contract it relies on.
use vstd::prelude::*;
use vstd::utf8::{decode_utf8, valid_utf8};

verus! {

/// The standard, padded base64 text of the bytes `b`.
pub uninterp spec fn base64_of(b: Seq<u8>) -> Seq<char>;

/// Relies on base64's `encode` with the standard alphabet and padding.
#[verifier::external_body]
pub(crate) fn encode_base64(b: &Vec<u8>) -> (r: String)
    ensures
        r@ == base64_of(b@),
{
    base64::encode(b)
}

/// Above every instant chrono can represent: its dates end in the year 262143,
/// less than 10^16 milliseconds after the epoch.
pub const CLOCK_MAX_MILLIS: i64 = 10_000_000_000_000_000;

/// Relies on chrono's `Utc::now`, read as milliseconds since the epoch. The clock
/// moves, so only the range is stated: `now` refuses instants before the epoch,
/// and no date of chrono's lies beyond `CLOCK_MAX_MILLIS`.
#[verifier::external_body]
pub(crate) fn now_millis() -> (r: i64)
    ensures
        0 <= r <= CLOCK_MAX_MILLIS,
{
    chrono::Utc::now().timestamp_millis()
}

/// Relies on std's `String::from_utf8`: it succeeds exactly on valid UTF-8 and
/// keeps the text those bytes encode.
#[verifier::external_body]
pub(crate) fn string_from_utf8(b: Vec<u8>) -> (r: Option<String>)
    ensures
        r is Some <==> valid_utf8(b@),
        r is Some ==> r->0@ == decode_utf8(b@),
{
    String::from_utf8(b).ok()
}

} // verus!
