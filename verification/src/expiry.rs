use vstd::prelude::*;
use rand::Rng;
use crate::config::OffsetRange;
use crate::record::{CachedFile, RecordV};

verus! {

/// The instant at which a record expires, as an unbounded integer: the
/// explicit expiry when one was supplied, otherwise creation time plus the
/// base lifetime plus the record's random offset.
pub open spec fn expiry_val(r: RecordV, file_lifetime: u64) -> int {
    match r.expire_time {
        Some(e) => e as int,
        None => r.cached_time + file_lifetime + r.random,
    }
}

/// `expiry_val` clamped into `u64`, the value reported to callers that want
/// a timestamp.
pub open spec fn clamped_expiry(r: RecordV, file_lifetime: u64) -> u64 {
    let v = expiry_val(r, file_lifetime);
    if v < 0 {
        0
    } else if v > u64::MAX {
        u64::MAX
    } else {
        v as u64
    }
}

/// A record is expired once the current time has passed its expiry: strictly,
/// so a record whose expiry equals `now` is still valid.
pub open spec fn spec_is_expired(r: RecordV, file_lifetime: u64, now: u64) -> bool {
    expiry_val(r, file_lifetime) < now
}

/// Whether `cached_file` has expired at time `now` under the given base
/// lifetime.
pub fn is_expired(cached_file: &CachedFile, file_lifetime: u64, now: u64) -> (r: bool)
    ensures
        r == spec_is_expired(cached_file@, file_lifetime, now),
{
    let expiry: i128 = match cached_file.expire_time {
        Some(e) => e as i128,
        None => cached_file.cached_time as i128 + file_lifetime as i128
            + cached_file.random as i128,
    };
    expiry < now as i128
}

/// A record is valid at its expiry instant and one second before it, and
/// expired one second after it.  The reported timestamp needs no clamping
/// for any expiry with a second on either side of it.
pub proof fn lemma_expiry_boundaries(r: RecordV, file_lifetime: u64)
    requires
        1 <= expiry_val(r, file_lifetime) <= u64::MAX - 1,
    ensures
        clamped_expiry(r, file_lifetime) == expiry_val(r, file_lifetime),
        !spec_is_expired(r, file_lifetime, (clamped_expiry(r, file_lifetime) - 1) as u64),
        !spec_is_expired(r, file_lifetime, clamped_expiry(r, file_lifetime)),
        spec_is_expired(r, file_lifetime, (clamped_expiry(r, file_lifetime) + 1) as u64),
{
}

/// Relies on `std::time::SystemTime::now` and `duration_since`: whole
/// seconds since the Unix epoch by the system clock, and zero on a clock
/// reading before the epoch.  Nothing can be promised of a clock reading.
#[verifier::external_body]
pub fn get_now_unix_epoch() -> u64 {
    match std::time::SystemTime::now().duration_since(std::time::UNIX_EPOCH) {
        Ok(d) => d.as_secs(),
        Err(_) => 0,
    }
}

/// Relies on `rand::Rng::gen_range` on `rand::thread_rng`: a uniformly
/// distributed sample from a non-empty half-open range, always inside it.
#[verifier::external_body]
fn sample_half_open(start: i32, end: i32) -> (r: i32)
    requires
        start < end,
    ensures
        start <= r < end,
{
    rand::thread_rng().gen_range(start..end)
}

/// Draws the random lifetime offset for a new record: a sample from the
/// half-open interval `[range.start, range.end)`.
pub fn draw_jitter(range: &OffsetRange) -> (r: i32)
    requires
        range.start < range.end,
    ensures
        range.start <= r < range.end,
{
    sample_half_open(range.start, range.end)
}

}
