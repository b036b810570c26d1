//! Unique identifiers and the clock.

use vstd::prelude::*;
use rand::Rng;

use crate::eid::{hex16, ElementId};

verus! {

/// Appends `c` to `s` (`String::push`).
#[verifier::external_body]
pub(crate) fn push_char(s: &mut String, c: char)
    ensures
        final(s)@ == old(s)@.push(c),
{
    s.push(c)
}

/// A random 64-bit number from the thread-local generator of `rand`
/// (`rand::thread_rng().gen::<u64>()`); nothing is claimed of its value.
#[verifier::external_body]
fn random_u64() -> u64 {
    rand::thread_rng().gen::<u64>()
}

/// The current time by the system clock (`SystemTime::now`); nothing is claimed of it.
#[verifier::external_body]
pub(crate) fn system_now() -> std::time::SystemTime {
    std::time::SystemTime::now()
}

/// The time from the UNIX epoch to `t` (`SystemTime::duration_since`), `None`
/// when `t` is before the epoch (the error case of `duration_since`); nothing is
/// claimed of the duration, nor of which case occurs.
#[verifier::external_body]
fn since_epoch(t: &std::time::SystemTime) -> Option<std::time::Duration> {
    t.duration_since(std::time::UNIX_EPOCH).ok()
}

/// The whole nanoseconds of `d` (`Duration::as_nanos`); nothing is claimed of the value.
#[verifier::external_body]
fn duration_nanos(d: &std::time::Duration) -> u128 {
    d.as_nanos()
}

/// The whole milliseconds of `d` (`Duration::as_millis`); nothing is claimed of the value.
#[verifier::external_body]
fn duration_millis(d: &std::time::Duration) -> u128 {
    d.as_millis()
}

/// The identifier made of `nanos` nanoseconds since the UNIX epoch, truncated
/// to 64 bits, and the random number `random`, combined by exclusive or.
pub fn uid_from_parts(nanos: u128, random: u64) -> (r: u64)
    ensures
        r == (nanos as u64) ^ random,
{
    (nanos as u64) ^ random
}

/// A fresh 64-bit identifier: `uid_from_parts` of the nanoseconds since the
/// UNIX epoch by the system clock (0 when the clock is set before the epoch)
/// and a random number.
pub fn generate_uid() -> (r: u64) {
    let random_part = random_u64();
    let nanos: u128 = match since_epoch(&system_now()) {
        Some(since) => duration_nanos(&since),
        None => 0,
    };
    uid_from_parts(nanos, random_part)
}

/// A fresh identifier as 16 zero-padded lowercase hexadecimal digits.
pub fn generate_str_uid() -> (r: String)
    ensures
        exists|v: u64| r@ == hex16(v),
{
    let id = ElementId::with_u64(generate_uid());
    id.to_string()
}

/// `ms` milliseconds as `i64`, truncating as `as i64` does.
pub fn millis_to_i64(ms: u128) -> (r: i64)
    ensures
        r == ms as i64,
{
    ms as i64
}

/// Milliseconds since the UNIX epoch by the system clock, as `millis_to_i64`
/// gives them (0 when the clock is set before the epoch).
pub fn unix_now() -> (r: i64)
{
    match since_epoch(&system_now()) {
        Some(since) => millis_to_i64(duration_millis(&since)),
        None => 0,
    }
}

} // verus!
