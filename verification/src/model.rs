//! Instants as whole seconds of Unix time.

use vstd::prelude::*;

use crate::zone::MAX_UNIX;

verus! {

#[verifier::external_type_specification]
#[verifier::external_body]
pub struct ExSystemTime(std::time::SystemTime);

/// The system clock's reading, through `std::time::SystemTime::now`. Which time it reads is
/// left unsaid.
#[verifier::external_body]
fn system_now() -> (r: std::time::SystemTime) {
    std::time::SystemTime::now()
}

/// The whole seconds between 1970 and a clock reading, through
/// `SystemTime::duration_since(UNIX_EPOCH)`: `Ok` with the seconds after 1970 or, for a
/// reading before 1970, `Err` with the seconds before it (`SystemTimeError::duration`). A
/// `SystemTime` is opaque, so nothing is said of the number.
#[verifier::external_body]
fn seconds_from_epoch(t: std::time::SystemTime) -> (r: Result<u64, u64>) {
    match t.duration_since(std::time::UNIX_EPOCH) {
        Ok(d) => Ok(d.as_secs()),
        Err(e) => Err(e.duration().as_secs()),
    }
}

/// A point in time, in whole seconds since 1970-01-01 00:00:00 UTC.
#[derive(Debug, Clone, Copy, PartialEq, Eq, PartialOrd, Ord, Hash)]
pub struct Timestamp {
    secs: u64,
}

impl View for Timestamp {
    type V = u64;

    closed spec fn view(&self) -> u64 {
        self.secs
    }
}

impl Timestamp {
    pub fn new(secs: u64) -> (r: Timestamp)
        ensures
            r@ == secs,
    {
        Timestamp { secs }
    }

    pub fn as_u64(&self) -> (r: u64)
        ensures
            r == self@,
    {
        self.secs
    }

    /// The instant of a clock reading given as whole seconds after 1970 (`Ok`) or before it
    /// (`Err`): a reading before 1970 is taken as 0, and one past the last second that chrono
    /// represents as that second.
    pub fn from_clock(reading: Result<u64, u64>) -> (r: Timestamp)
        ensures
            r@ == match reading {
                Ok(s) => if s <= MAX_UNIX as u64 {
                    s
                } else {
                    MAX_UNIX as u64
                },
                Err(_) => 0,
            },
    {
        match reading {
            Ok(s) => {
                if s <= MAX_UNIX as u64 {
                    Timestamp { secs: s }
                } else {
                    Timestamp { secs: MAX_UNIX as u64 }
                }
            },
            Err(_) => Timestamp { secs: 0 },
        }
    }

    /// The current time, read from the system clock (see `from_clock`).
    pub fn now() -> (r: Timestamp)
        ensures
            r@ <= MAX_UNIX,
    {
        Timestamp::from_clock(seconds_from_epoch(system_now()))
    }
}

} // verus!
