//! Wall-clock timestamps.

use vstd::prelude::*;

verus! {

/// What `time` reads in an RFC 3339 timestamp: nanoseconds since the Unix epoch.
pub uninterp spec fn rfc3339_nanos(s: Seq<char>) -> Option<i128>;

/// Calls `time::OffsetDateTime::parse` with the RFC 3339 format, and
/// `unix_timestamp_nanos` on what it reads. What is a timestamp, and which
/// instant it names, is the crate's to say: the result depends on the text
/// alone.
#[verifier::external_body]
fn parse_rfc3339(s: &str) -> (r: Option<i128>)
    ensures
        r == rfc3339_nanos(s@),
{
    match time::OffsetDateTime::parse(s, &time::format_description::well_known::Rfc3339) {
        Ok(t) => Some(t.unix_timestamp_nanos()),
        Err(_) => None,
    }
}

/// Nanoseconds since the epoch, where they are not negative and fit.
pub open spec fn since_epoch(nanos: Option<i128>) -> Option<u64> {
    match nanos {
        Some(n) => if 0 <= n <= u64::MAX {
            Some(n as u64)
        } else {
            None
        },
        None => None,
    }
}

/// Nanoseconds since the epoch, where they are not negative and fit.
pub fn unix_ns(nanos: Option<i128>) -> (r: Option<u64>)
    ensures
        r == since_epoch(nanos),
{
    match nanos {
        Some(n) => if 0 <= n && n <= u64::MAX as i128 {
            Some(n as u64)
        } else {
            None
        },
        None => None,
    }
}

/// The instant that an RFC 3339 timestamp names, in nanoseconds since the
/// epoch.
pub fn rfc3339_unix_ns(s: &str) -> (r: Option<u64>)
    ensures
        r == since_epoch(rfc3339_nanos(s@)),
{
    unix_ns(parse_rfc3339(s))
}

} // verus!
