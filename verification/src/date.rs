//! Timestamps for changelog footers.
//!
//! A footer date is held as whole seconds since the Unix epoch, normalised to
//! UTC. Reading and writing the RFC 2822 textual form is done by chrono and
//! is therefore trusted: the two conversions are named by uninterpreted spec
//! functions, and the wrappers below relate the calls to those names.

use vstd::prelude::*;

verus! {

/// The UTC timestamp that chrono's `DateTime::parse_from_rfc2822` reads out
/// of `s`, if `s` is a well-formed RFC 2822 date; `None` otherwise. The
/// result depends on the characters of `s` alone.
pub uninterp spec fn rfc2822_ts(s: Seq<char>) -> Option<i64>;

/// The RFC 2822 rendering that chrono's `to_rfc2822` gives the UTC datetime
/// with timestamp `t`. The result depends on `t` alone.
pub uninterp spec fn rfc2822_str(t: i64) -> Seq<char>;

/// Timestamps whose UTC year is between 0000 and 9999: the range chrono's
/// `to_rfc2822` can render without panicking.
pub open spec fn ts_formattable(t: i64) -> bool {
    -62167219200i64 <= t && t <= 253402300799i64
}

/// Relies on chrono::DateTime::parse_from_rfc2822 (and `timestamp` on its
/// result) to read an RFC 2822 date as UTC epoch seconds.
#[verifier::external_body]
pub(crate) fn parse_rfc2822(s: &str) -> (r: Option<i64>)
    ensures
        r == rfc2822_ts(s@),
{
    match chrono::DateTime::parse_from_rfc2822(s) {
        Ok(dt) => Some(dt.timestamp()),
        Err(_) => None,
    }
}

/// Relies on chrono's `DateTime::from_timestamp` and `to_rfc2822`: a
/// formattable timestamp renders to a single RFC 2822 line, which holds no
/// newline.
#[verifier::external_body]
pub(crate) fn format_rfc2822(t: i64) -> (r: String)
    requires
        ts_formattable(t),
    ensures
        r@ == rfc2822_str(t),
        forall|i: int| 0 <= i < r@.len() ==> r@[i] != '\n',
{
    match chrono::DateTime::<chrono::Utc>::from_timestamp(t, 0) {
        Some(dt) => dt.to_rfc2822(),
        None => String::new(),
    }
}

/// Relies on chrono::Utc::now for the current time; nothing is promised of
/// the value.
#[verifier::external_body]
pub(crate) fn now_secs() -> i64 {
    chrono::Utc::now().timestamp()
}

} // verus!
