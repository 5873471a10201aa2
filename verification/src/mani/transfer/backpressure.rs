//! The credit check that gates sending.

use vstd::prelude::*;

verus! {

/// What a sender waiting for credit does next.
#[derive(Debug, Clone, Copy, PartialEq, Eq, Structural)]
pub enum CreditWait {
    /// Credit is available: send.
    Granted,
    /// The bank was shut down: stop.
    ShutDown,
    /// No credit yet: wait for a notification and check again.
    Wait,
}

/// One check of the credit bank: a shutdown wins over available credit.
pub fn poll_credit(closed: bool, credits: usize) -> (res: CreditWait)
    ensures
        closed ==> res == CreditWait::ShutDown,
        !closed && credits > 0 ==> res == CreditWait::Granted,
        !closed && credits == 0 ==> res == CreditWait::Wait,
{
    if closed {
        CreditWait::ShutDown
    } else if credits > 0 {
        CreditWait::Granted
    } else {
        CreditWait::Wait
    }
}

} // verus!
