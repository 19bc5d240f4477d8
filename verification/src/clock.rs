//! The store's two contacts with time: reading the clock, and placing a
//! stored timestamp on the global timeline for ordering.

use vstd::prelude::*;

use chrono::{DateTime, Local};

verus! {

/// The instant an RFC 3339 text denotes -- seconds since the epoch and
/// the nanosecond within the second -- or nothing when the text does not
/// parse.  The parse is a function of the text alone.
pub uninterp spec fn rfc3339_instant(s: Seq<char>) -> Option<(int, int)>;

/// Relies on chrono's `DateTime::parse_from_rfc3339`,
/// `DateTime::timestamp` and `DateTime::timestamp_subsec_nanos`: parsing
/// RFC 3339 text and reading the parsed instant's place on the timeline
/// depend on the text alone.
#[verifier::external_body]
pub fn rfc3339_instant_of(s: &str) -> (r: Option<(i64, u32)>)
    ensures
        (match r {
            Some(p) => rfc3339_instant(s@) == Some((p.0 as int, p.1 as int)),
            None => rfc3339_instant(s@) is None,
        }),
{
    match DateTime::parse_from_rfc3339(s) {
        Ok(dt) => Some((dt.timestamp(), dt.timestamp_subsec_nanos())),
        Err(_) => None,
    }
}

/// Relies on chrono's `Local::now` and `DateTime::to_rfc3339`: the
/// current local time written as RFC 3339 text, which is never empty and
/// never holds a newline.
#[verifier::external_body]
pub fn now_rfc3339() -> (r: String)
    ensures
        r@.len() > 0,
        crate::text::seg_has_no_nl(r@),
{
    Local::now().to_rfc3339()
}

} // verus!
