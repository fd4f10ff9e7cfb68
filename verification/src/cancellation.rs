use std::sync::atomic::{AtomicBool, Ordering};
use std::sync::Arc;
use vstd::prelude::*;

verus! {

/// `Arc::clone`: another handle on the same allocation.
#[verifier::external_body]
fn clone_flag(state: &Arc<AtomicBool>) -> (r: Arc<AtomicBool>)
    ensures
        r == *state,
{
    Arc::clone(state)
}

/// A flag shared between the host and a running guest; once set, the guest
/// stops at its next cancellation check.
#[derive(Debug, Clone)]
pub struct CancellationToken {
    state: Arc<AtomicBool>,
}

impl CancellationToken {
    /// The shared flag this token reads and writes.
    pub closed spec fn shared_state(&self) -> Arc<AtomicBool> {
        self.state
    }

    /// A token that is not cancelled and shares its flag with nobody.
    pub fn new() -> (token: CancellationToken) {
        CancellationToken { state: Arc::new(AtomicBool::new(false)) }
    }

    /// Sets the shared flag.
    pub fn cancel(&self) {
        self.state.store(true, Ordering::SeqCst);
    }

    /// Reads the shared flag.
    pub fn is_cancelled(&self) -> (cancelled: bool) {
        self.state.load(Ordering::SeqCst)
    }

    /// Another token over the same shared flag.
    pub fn share(&self) -> (token: CancellationToken)
        ensures
            token.shared_state() == self.shared_state(),
    {
        CancellationToken { state: clone_flag(&self.state) }
    }

    /// A token over an existing shared flag.
    pub fn from_shared(state: Arc<AtomicBool>) -> (token: CancellationToken)
        ensures
            token.shared_state() == state,
    {
        CancellationToken { state }
    }
}

impl Default for CancellationToken {
    fn default() -> (token: CancellationToken) {
        CancellationToken::new()
    }
}

} // verus!
