//! Instants of log headers, as read by the ISO 8601 crate.
use vstd::prelude::*;

verus! {

/// An instant in UTC: whole seconds since the Unix epoch and the nanoseconds past them.
#[derive(Clone, Copy, Debug, PartialEq, Eq, Structural)]
pub struct UtcTime {
    pub secs: i64,
    pub nanos: u32,
}

/// For bytes that open with an ISO 8601 date and time: how many bytes follow
/// them, and the instant they name in UTC when they name one.
pub uninterp spec fn iso_datetime_prefix(b: Seq<u8>) -> Option<(nat, Option<UtcTime>)>;

/// Relies on `iso8601::parsers::parse_datetime`, which reads a date and time
/// off the front of `b` and hands back the rest, and on the conversion of its
/// result into `chrono::DateTime<FixedOffset>` (`None` where the fields name
/// no instant), taken to UTC.
#[verifier::external_body]
pub(crate) fn parse_iso_datetime(b: &[u8]) -> (r: Option<(usize, Option<UtcTime>)>)
    ensures
        match r {
            Some(p) => iso_datetime_prefix(b@) == Some((p.0 as nat, p.1)) && p.0 <= b@.len(),
            None => iso_datetime_prefix(b@) is None,
        },
{
    match iso8601::parsers::parse_datetime(b) {
        Ok((rest, dt)) => {
            let fixed = chrono::DateTime::<chrono::FixedOffset>::try_from(dt).ok();
            let utc = fixed.map(|d| d.with_timezone(&chrono::Utc));
            Some((rest.len(), utc.map(|u| UtcTime { secs: u.timestamp(), nanos: u.timestamp_subsec_nanos() })))
        },
        Err(_) => None,
    }
}

} // verus!
