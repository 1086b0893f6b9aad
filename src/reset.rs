//! The wait that a rate-limited response asks for: from now until the reset
//! instant that its header names.

use vstd::prelude::*;
use crate::opt_nat;

verus! {

/// An instant as seconds since the Unix epoch plus nanoseconds. During a
/// leap second the nanoseconds may reach past one second.
#[derive(Clone, Copy, Debug, PartialEq, Eq, Structural)]
pub struct Timestamp {
    pub secs: i64,
    pub nanos: u32,
}

impl Timestamp {
    /// The instant as nanoseconds since the Unix epoch.
    pub open spec fn total_nanos(self) -> int {
        self.secs * 1_000_000_000 + self.nanos
    }
}

/// The instant that an RFC 3339 text denotes, as seconds since the Unix
/// epoch and nanoseconds, or `None` when the text is not RFC 3339.
pub uninterp spec fn rfc3339_instant(text: Seq<char>) -> Option<(int, int)>;

/// Nanoseconds from `now` until `reset`: zero when `reset` has passed, and
/// capped at the largest `u64`.
pub open spec fn wait_between(now: int, reset: int) -> nat {
    if reset <= now {
        0
    } else if reset - now > u64::MAX {
        u64::MAX as nat
    } else {
        (reset - now) as nat
    }
}

/// The wait that a rate-limited response with reset header `header` asks
/// for at instant `now` (nanoseconds since the Unix epoch): `None` when the
/// header is absent or is not RFC 3339, else the time until the reset.
pub open spec fn reset_wait(header: Option<Seq<char>>, now: int) -> Option<nat> {
    match header {
        None => None,
        Some(text) => match rfc3339_instant(text) {
            None => None,
            Some((secs, nanos)) => Some(wait_between(now, secs * 1_000_000_000 + nanos)),
        },
    }
}

/// An optional text as an optional sequence of characters.
pub open spec fn opt_text(o: Option<&str>) -> Option<Seq<char>> {
    match o {
        Some(h) => Some(h@),
        None => None,
    }
}

/// Relies on chrono's `DateTime::parse_from_rfc3339`, read back through
/// `timestamp` and `timestamp_subsec_nanos`: the instant that the text
/// denotes, or `None` when chrono rejects the text.
#[verifier::external_body]
fn parse_rfc3339(text: &str) -> (r: Option<Timestamp>)
    ensures
        match r {
            Some(t) => rfc3339_instant(text@) == Some((t.secs as int, t.nanos as int)),
            None => rfc3339_instant(text@) is None,
        },
{
    match chrono::DateTime::parse_from_rfc3339(text) {
        Ok(d) => Some(Timestamp { secs: d.timestamp(), nanos: d.timestamp_subsec_nanos() }),
        Err(_) => None,
    }
}

/// Nanoseconds from `now` until `reset`, zero when `reset` has passed.
pub fn wait_until(now: &Timestamp, reset: &Timestamp) -> (r: u64)
    ensures
        r == wait_between(now.total_nanos(), reset.total_nanos()),
{
    let a: i128 = now.secs as i128 * 1_000_000_000i128 + now.nanos as i128;
    let b: i128 = reset.secs as i128 * 1_000_000_000i128 + reset.nanos as i128;
    if b <= a {
        0
    } else if b - a > u64::MAX as i128 {
        u64::MAX
    } else {
        (b - a) as u64
    }
}

/// The wait that a rate-limited response asks for at instant `now`:
/// `None` when the reset header is absent or not RFC 3339, in which case the
/// response is not retried.
pub fn wait_for_reset(header: Option<&str>, now: &Timestamp) -> (r: Option<u64>)
    ensures
        opt_nat(r) == reset_wait(opt_text(header), now.total_nanos()),
{
    match header {
        None => None,
        Some(text) => match parse_rfc3339(text) {
            None => None,
            Some(reset) => Some(wait_until(now, &reset)),
        },
    }
}

} // verus!
