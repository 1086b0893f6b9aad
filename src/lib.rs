//! A client-side request gateway for a rate-limited HTTP API.
//!
//! The gateway bounds how many requests are in flight at once (the burst
//! limit), returns capacity to its pool one slot at a time at a fixed pace
//! (the sustained rate), and decides after every attempt whether a request
//! is finished or must be sent again after a wait.

pub mod app;
pub mod backoff;
pub mod gateway;
pub mod io;
pub mod reset;
pub mod retry;

pub use gateway::Middleware;

use vstd::prelude::*;

verus! {

/// An optional machine integer as an optional natural number.
pub open spec fn opt_nat(o: Option<u64>) -> Option<nat> {
    match o {
        Some(v) => Some(v as nat),
        None => None,
    }
}

} // verus!
