//! Errors of a send or burn attempt.

use vstd::prelude::*;

verus! {

/// What can go wrong while a payment is assembled, delivered and recorded.
#[derive(Clone, Debug, PartialEq, Eq)]
pub enum Error {
    /// The outputs at hand do not reach the requested amount; holds the
    /// value that was available.
    NotEnoughFunds(u64),
    /// The node or the counterparty could not be reached or refused the
    /// request; holds what the transport reported.
    NodeCommunication(String),
    /// No key could be derived: the derivation indices are used up.
    KeyDerivation,
    /// The ledger store could not be read or written.
    LedgerIO,
    /// The destination is none of the supported kinds.
    Usage,
}

/// How a send attempt failed. `cause` is the failure that ended the attempt.
/// `rollback` holds the failure of the compensating ledger pass, if that
/// pass failed too; the change output of the attempt is then still recorded
/// in the store.
#[derive(Clone, Debug, PartialEq, Eq)]
pub struct SendFailure {
    pub cause: Error,
    pub rollback: Option<Error>,
}

} // verus!
