//! What can go wrong between a request to the node and the use of its
//! answer.

use vstd::prelude::*;

verus! {

/// Why a scan found nothing, or why the balances of a token are
/// unavailable.
#[derive(Clone, Copy, Debug, PartialEq, Eq, Structural)]
pub enum BalanceError {
    /// The request did not get through to the node, or the node did not
    /// answer it.
    Transport,
    /// An answer is not the hexadecimal value that was asked for, or the
    /// answers do not match the requests one to one.
    ParsingError,
    /// The pool has no supply, so a share of it is undefined.
    ZeroTotalSupply,
}

} // verus!
