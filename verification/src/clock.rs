//! Points in time, recorded as seconds and nanoseconds since the Unix epoch.

use vstd::prelude::*;

verus! {

/// The instant a transaction or a statement was created.
#[derive(Clone, Copy, Debug, PartialEq)]
pub struct Timestamp {
    pub secs: i64,
    pub nanos: u32,
}

/// Relies on `std::time::SystemTime::now` and `SystemTime::duration_since`
/// for the wall-clock reading. Total on any clock value: a reading before
/// the Unix epoch comes back as negative seconds (to second precision),
/// and one too far ahead saturates. Nothing is assumed of the value, since
/// the clock may return anything.
#[verifier::external_body]
pub(crate) fn now_timestamp() -> Timestamp {
    match std::time::SystemTime::now().duration_since(std::time::UNIX_EPOCH) {
        Ok(d) => Timestamp {
            secs: i64::try_from(d.as_secs()).unwrap_or(i64::MAX),
            nanos: d.subsec_nanos(),
        },
        Err(e) => Timestamp {
            secs: -i64::try_from(e.duration().as_secs()).unwrap_or(i64::MAX),
            nanos: 0,
        },
    }
}

} // verus!
