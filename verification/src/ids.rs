//! Fresh ids, random codes and the clock: the outside calls behind them.

use rand::Rng;
use vstd::prelude::*;

verus! {

/// An ASCII letter or digit.
pub open spec fn is_alphanumeric(c: char) -> bool {
    ||| ('0' as u32) <= (c as u32) <= ('9' as u32)
    ||| ('a' as u32) <= (c as u32) <= ('z' as u32)
    ||| ('A' as u32) <= (c as u32) <= ('Z' as u32)
}

/// A character of the URL-safe id alphabet: letters, digits, `_` and `-`.
pub open spec fn is_url_safe(c: char) -> bool {
    is_alphanumeric(c) || c == '_' || c == '-'
}

/// Length of a fresh record id.
pub const ID_LEN: usize = 21;

/// A fresh random id for a stored record.
/// Trusted: `nanoid::format` with the crate's default generator and its
/// `SAFE` alphabet, which is what `nanoid!()` expands to. Its source pushes only
/// characters of the alphabet and returns once the id holds `size` of them
/// (all ASCII, so `size` characters). The id's value rests on chance.
#[verifier::external_body]
pub fn new_id() -> (id: String)
    ensures
        id@.len() == ID_LEN,
        forall|i: int| 0 <= i < id@.len() ==> is_url_safe(#[trigger] id@[i]),
{
    nanoid::format(nanoid::rngs::default, &nanoid::alphabet::SAFE, ID_LEN)
}

/// `len` random ASCII letters and digits from the thread-local generator.
/// Trusted: `rand` 0.8's `Alphanumeric` samples bytes from `A-Z`, `a-z` and
/// `0-9` only; `take(len)` keeps exactly `len` of them. Which letters come out
/// rests on chance and is left unsaid.
#[verifier::external_body]
pub fn random_alphanumeric(len: usize) -> (s: String)
    ensures
        s@.len() == len,
        forall|i: int| 0 <= i < s@.len() ==> is_alphanumeric(#[trigger] s@[i]),
{
    rand::thread_rng().sample_iter(&rand::distributions::Alphanumeric).take(len).map(char::from).collect()
}

/// A reading of the system clock.
#[verifier::external_type_specification]
#[verifier::external_body]
pub struct ExSystemTime(std::time::SystemTime);

/// The system clock's current reading.
/// Trusted: std's `SystemTime::now`, which reads the clock and does not
/// panic. Which time it reads rests on the clock and is left unsaid.
#[verifier::external_body]
fn system_time_now() -> std::time::SystemTime {
    std::time::SystemTime::now()
}

/// The whole seconds from the Unix epoch to `t`, or `None` when `t` is
/// earlier than the epoch.
/// Trusted: std's `SystemTime::duration_since(UNIX_EPOCH)`, which its
/// documentation says fails when `t` is earlier; the duration is converted
/// to its whole seconds by `Duration::as_secs`. Nothing here panics. The
/// reading is opaque to the library, so nothing is stated of the value.
#[verifier::external_body]
fn whole_seconds_since_epoch(t: std::time::SystemTime) -> Option<u64> {
    match t.duration_since(std::time::UNIX_EPOCH) {
        Ok(elapsed) => Some(elapsed.as_secs()),
        Err(_) => None,
    }
}

/// The current Unix time in whole seconds, or `None` when the system clock
/// reads a time before the Unix epoch.
pub fn unix_timestamp() -> (t: Option<u64>) {
    whole_seconds_since_epoch(system_time_now())
}

} // verus!
