//! Requests that the dashboard hands to its background worker.

use vstd::prelude::*;

verus! {

/// A piece of remote work for the background worker.
#[derive(Clone, Debug)]
pub enum IoEvent {
    UpdateAgent,
    UpdateContracts,
    UpdateFactions,
    AcceptContract(String),
    FulfillContract(String),
}

} // verus!
