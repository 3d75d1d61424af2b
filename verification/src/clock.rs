//! The current time as RFC 3339 text, read from the system clock and written
//! by chrono.
use vstd::prelude::*;
use chrono::{DateTime, Utc};

verus! {

/// The last second chrono can represent: 262142-12-31T23:59:59 UTC, in
/// seconds since the Unix epoch.
pub open spec fn last_representable_second() -> int {
    8_210_266_876_799
}

/// What chrono's `to_rfc3339` writes for the UTC instant `secs` seconds and
/// `nanos` nanoseconds after the Unix epoch.
pub uninterp spec fn rfc3339_text(secs: i64, nanos: u32) -> Seq<char>;

/// Calls `SystemTime::UNIX_EPOCH.elapsed`, the time since the Unix epoch by
/// the system clock, as whole seconds and the nanoseconds beyond them, or
/// nothing when the clock reads before the epoch. Trusted: the nanoseconds
/// are below one billion, as the documentation of `Duration::subsec_nanos`
/// states. What the clock reads is not stated.
#[verifier::external_body]
fn clock_since_epoch() -> (r: Option<(u64, u32)>)
    ensures
        r matches Some(t) ==> t.1 < 1_000_000_000,
{
    match std::time::SystemTime::UNIX_EPOCH.elapsed() {
        Ok(d) => Some((d.as_secs(), d.subsec_nanos())),
        Err(_) => None,
    }
}

/// Calls chrono's `DateTime::<Utc>::from_timestamp` and, when it gives an
/// instant, its `to_rfc3339`. Trusted: the text is what chrono writes for
/// that instant (named [`rfc3339_text`]), and an instant exists for every
/// second from the epoch to the last representable second with fewer than a
/// billion nanoseconds, as chrono's source shows (`NaiveDate` reaches the end
/// of year 262142, and sub-second nanoseconds below one billion are always
/// accepted). What the text looks like is not stated.
#[verifier::external_body]
fn rfc3339_of_timestamp(secs: i64, nanos: u32) -> (r: Option<String>)
    ensures
        r matches Some(s) ==> s@ == rfc3339_text(secs, nanos),
        0 <= secs <= last_representable_second() && nanos < 1_000_000_000 ==> r is Some,
{
    match DateTime::<Utc>::from_timestamp(secs, nanos) {
        Some(t) => Some(t.to_rfc3339()),
        None => None,
    }
}

/// The RFC 3339 text chrono writes for a clock reading, given as the whole
/// seconds and nanoseconds since the Unix epoch: there is one exactly when
/// there is a reading, its seconds are at most the last second chrono can
/// represent and its nanoseconds are below one billion (which is where
/// chrono's `Utc::now` would stop instead).
pub fn rfc3339_at(since_epoch: Option<(u64, u32)>) -> (r: Option<String>)
    ensures
        r is Some <==> (since_epoch matches Some(t) && t.0 <= last_representable_second()
            && t.1 < 1_000_000_000),
        r matches Some(s) ==> (since_epoch matches Some(t) && s@ == rfc3339_text(t.0 as i64, t.1)),
{
    match since_epoch {
        Some((secs, nanos)) => {
            if secs <= 8_210_266_876_799u64 && nanos < 1_000_000_000 {
                let text = rfc3339_of_timestamp(secs as i64, nanos);
                match text {
                    Some(t) => Some(t),
                    None => {
                        proof {
                            assert(false);
                        }
                        None
                    },
                }
            } else {
                None
            }
        },
        None => None,
    }
}

/// The current time as chrono writes it in RFC 3339 form, or nothing when
/// the system clock reads before the Unix epoch or past the last second
/// chrono can represent.
pub fn time_rfc3339() -> (r: Option<String>)
    ensures
        r matches Some(s) ==> exists|secs: i64, nanos: u32|
            0 <= secs <= last_representable_second() && nanos < 1_000_000_000 && s@
                == rfc3339_text(secs, nanos),
{
    let reading = clock_since_epoch();
    let r = rfc3339_at(reading);
    proof {
        if r is Some {
            let t = reading->0;
            assert(0 <= t.0 as i64 <= last_representable_second());
            assert(r->0@ == rfc3339_text(t.0 as i64, t.1));
        }
    }
    r
}

} // verus!
