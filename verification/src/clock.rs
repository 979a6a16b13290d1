//! The system clock, read as a side of the Unix epoch and a distance from
//! it in milliseconds.

use vstd::prelude::*;

verus! {

#[verifier::external_type_specification]
#[verifier::external_body]
pub struct ExSystemTime(std::time::SystemTime);

#[verifier::external_type_specification]
#[verifier::external_body]
pub struct ExSystemTimeError(std::time::SystemTimeError);

/// `SystemTime::now()`: the current time of the system clock.
///
/// The value depends on the clock; nothing is stated about it.
#[verifier::external_body]
fn system_now() -> (t: std::time::SystemTime) {
    std::time::SystemTime::now()
}

/// `SystemTime::duration_since(UNIX_EPOCH)`: the time elapsed since the
/// epoch, or an error holding how far before the epoch `t` lies.
///
/// Both depend on `t`, an opaque value here; nothing is stated about them.
#[verifier::external_body]
fn since_epoch(t: &std::time::SystemTime) -> (r: Result<core::time::Duration, std::time::SystemTimeError>) {
    t.duration_since(std::time::UNIX_EPOCH)
}

/// `SystemTimeError::duration()`: how far before the epoch the time lay.
///
/// The value depends on `e`, an opaque value here; nothing is stated
/// about it.
#[verifier::external_body]
fn error_duration(e: &std::time::SystemTimeError) -> (d: core::time::Duration) {
    e.duration()
}

/// `Duration::as_millis()`: the whole milliseconds in `d`.
///
/// The value depends on `d`, an opaque value here; nothing is stated
/// about it.
#[verifier::external_body]
fn duration_millis(d: &core::time::Duration) -> (ms: u128) {
    d.as_millis()
}

/// Reads the system clock: whether the time lies before the epoch, and its
/// distance from the epoch in milliseconds.
pub(crate) fn clock_millis() -> (r: (bool, u128)) {
    let now = system_now();
    match since_epoch(&now) {
        Ok(d) => (false, duration_millis(&d)),
        Err(e) => {
            let d = error_duration(&e);
            (true, duration_millis(&d))
        },
    }
}

} // verus!
