//! The clock.
use vstd::prelude::*;

verus! {

/// A time of the system's clock, as `std::time::SystemTime` holds it.
/// Nothing of it is seen here.
#[verifier::external_type_specification]
#[verifier::external_body]
pub struct ExSystemTime(std::time::SystemTime);

/// What `duration_since` gives for a time before the one it is measured
/// against. Nothing of it is seen here.
#[verifier::external_type_specification]
#[verifier::external_body]
pub struct ExSystemTimeError(std::time::SystemTimeError);

/// The time that the system's clock shows.
///
/// Calls `std::time::SystemTime::now`. Nothing is claimed of the time: two
/// calls may give any two times.
#[verifier::external_body]
fn clock_now() -> (r: std::time::SystemTime) {
    std::time::SystemTime::now()
}

/// The span from the epoch to `time`, or an error where `time` lies before
/// the epoch.
///
/// Calls `std::time::SystemTime::duration_since` with
/// `std::time::UNIX_EPOCH`. Nothing is claimed of the span, nor of when
/// the error comes.
#[verifier::external_body]
fn since_epoch(time: &std::time::SystemTime) -> (r: Result<
    core::time::Duration,
    std::time::SystemTimeError,
>) {
    time.duration_since(std::time::UNIX_EPOCH)
}

/// The whole milliseconds of `span`.
///
/// Calls `core::time::Duration::as_millis`. Nothing is claimed of the
/// number.
#[verifier::external_body]
fn millis_of(span: &core::time::Duration) -> (r: u128) {
    span.as_millis()
}

/// The low 32 bits of a number of milliseconds, read as a signed number.
pub fn clock_face(millis: u128) -> (r: i32)
    ensures
        r == millis as i32,
{
    #[verifier::truncate]
    (millis as i32)
}

/// The time in milliseconds as it falls into 32 bits; 0 where the clock
/// shows a time before the epoch.
pub fn get_time() -> (r: i32) {
    let now = clock_now();
    match since_epoch(&now) {
        Ok(span) => clock_face(millis_of(&span)),
        Err(_) => 0,
    }
}

} // verus!
