//! A tunnel that carries SOCKS5 connections inside numbered, base64-encoded shipments: the
//! client side (evergreen) batches the traffic of its SOCKS connections and the server side
//! (alzahra) opens the real connections and sends the answers back.
use vstd::prelude::*;

pub mod alzahra;
pub mod body;
pub mod chunked;
pub mod config;
pub mod fronter;
pub mod http1;
pub mod logger;
pub mod models;
pub mod numparse;
pub mod order;
pub mod ship;
pub mod shiper;
pub mod shipment;
pub mod socks;
pub mod socks_auth;
pub mod spring;
pub mod text;
pub mod tracker;
pub mod uid;
pub mod utils;
pub mod wire;

verus! {

/// `std::time::SystemTime`, carried through as an opaque value.
#[verifier::external_type_specification]
#[verifier::external_body]
pub struct ExSystemTime(std::time::SystemTime);

/// `std::time::SystemTimeError`, carried through as an opaque value.
#[verifier::external_type_specification]
#[verifier::external_body]
pub struct ExSystemTimeError(std::time::SystemTimeError);

/// `SystemTime::now`: the current time of the system clock; nothing is known of it.
#[verifier::external_body]
pub(crate) fn system_time_now() -> std::time::SystemTime {
    std::time::SystemTime::now()
}

/// `SystemTime::duration_since(UNIX_EPOCH)`: the time since the epoch, or an error when the
/// clock is set before it; nothing is known of either.
#[verifier::external_body]
pub(crate) fn since_unix_epoch(t: &std::time::SystemTime) -> Result<
    std::time::Duration,
    std::time::SystemTimeError,
> {
    t.duration_since(std::time::UNIX_EPOCH)
}

/// `Duration::as_secs`: the whole seconds of a duration; the duration is opaque, so nothing
/// is known of the result.
#[verifier::external_body]
pub(crate) fn duration_as_secs(d: &std::time::Duration) -> u64 {
    d.as_secs()
}

/// The seconds to report for a clock reading: the whole seconds since the Unix epoch when the
/// clock reads at or after it (`Some`), else 0.
pub fn secs_or_zero(since: Option<u64>) -> (r: u64)
    ensures
        r == match since {
            Some(s) => s,
            None => 0,
        },
{
    match since {
        Some(s) => s,
        None => 0,
    }
}

/// Seconds since the Unix epoch by the system clock, 0 when the clock is set before the epoch.
/// The clock's reading is not known to the proof; what is made of it is `secs_or_zero`.
pub fn sys_now() -> u64 {
    let t = system_time_now();
    let since = match since_unix_epoch(&t) {
        Ok(d) => Some(duration_as_secs(&d)),
        Err(_) => None,
    };
    secs_or_zero(since)
}

} // verus!
