//! Wall-clock access and the monotonic order-identifier source.

use vstd::prelude::*;

verus! {

/// Relies on `chrono::Utc::now` and `chrono::DateTime::timestamp_nanos_opt`:
/// the current wall-clock time as nanoseconds since the Unix epoch, with 0
/// standing in when the moment cannot be expressed in nanoseconds. The value
/// depends on the clock, so nothing is assumed of it: callers must hold for
/// every outcome.
#[verifier::external_body]
pub(crate) fn now_unix_nanos() -> i64 {
    chrono::Utc::now().timestamp_nanos_opt().unwrap_or(0)
}

/// Strictly increasing source of order identifiers. The wall clock seeds the
/// high bits (56 bits of truncated nanosecond time) and the low 8 bits leave
/// room for a burst sequence, but monotonicity never depends on the clock:
/// an identifier is always strictly greater than the one handed out before.
pub struct OrderIdSource {
    /// The most recently handed-out identifier; 0 before the first.
    pub last_id: u64,
}

impl OrderIdSource {
    pub fn new() -> (r: Self)
        ensures
            r.last_id == 0,
    {
        OrderIdSource { last_id: 0 }
    }

    /// Hand out the next identifier: strictly greater than every identifier
    /// handed out before, whatever the clock returned. `None` only when the
    /// 64-bit space is exhausted.
    pub fn next_id(&mut self) -> (r: Option<u64>)
        ensures
            old(self).last_id < u64::MAX ==> {
                &&& r == Some(final(self).last_id)
                &&& final(self).last_id > old(self).last_id
            },
            old(self).last_id == u64::MAX ==> {
                &&& r is None
                &&& final(self).last_id == old(self).last_id
            },
    {
        if self.last_id == u64::MAX {
            return None;
        }
        let now = now_unix_nanos();
        let now_nanos: u64 = if now < 0 {
            0
        } else {
            now as u64
        };
        let candidate: u64 = (now_nanos & 0x00FF_FFFF_FFFF_FFFF) << 8u64;
        let id: u64 = if candidate > self.last_id {
            candidate
        } else {
            self.last_id + 1
        };
        self.last_id = id;
        Some(id)
    }
}

} // verus!
