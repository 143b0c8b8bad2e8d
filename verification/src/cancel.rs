//! Deep cancellation: the decision a checkpoint inside a long
//! computation makes. Whether a cancellation token is armed for the
//! current computation, and whether it was cancelled, is state that the
//! caller holds (a per-thread slot armed for a scope); the checkpoint
//! turns that state into either "go on" or the [`Cancelled`] marker,
//! which the caller then unwinds with.
use vstd::prelude::*;

verus! {

/// The marker a cancelled computation stops with. Its private field
/// keeps it from being built anywhere but here, so a cancellation can't
/// be faked.
#[derive(Debug)]
pub struct Cancelled(());

/// The checkpoint: `armed` is the state of the token armed for the
/// current computation (`None` when none is armed, else whether it was
/// cancelled). An unarmed scope never cancels.
pub fn check_cancelled(armed: Option<bool>) -> (r: Result<(), Cancelled>)
    ensures
        r is Err <==> armed == Some(true),
{
    match armed {
        Some(true) => Err(Cancelled(())),
        _ => Ok(()),
    }
}

} // verus!
