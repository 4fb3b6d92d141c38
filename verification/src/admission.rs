//! The single-writer admission for administrative calls. A write must
//! acquire it before touching the code table and release it after the swap;
//! a second concurrent writer is not queued but told at once that the
//! manager is busy.
use vstd::prelude::*;

verus! {

/// Exclusive, non-blocking admission: at most one holder, and an attempt
/// while held fails immediately instead of waiting.
pub struct AdminGate {
    held: bool,
}

impl AdminGate {
    /// Whether a writer holds the admission.
    pub closed spec fn is_held(&self) -> bool {
        self.held
    }

    /// A fresh admission, held by nobody.
    pub fn new() -> (r: AdminGate)
        ensures
            !r.is_held(),
    {
        AdminGate { held: false }
    }

    /// Try to take the admission: succeeds exactly when no writer holds
    /// it, and never waits.
    pub fn try_acquire(&mut self) -> (r: bool)
        ensures
            r <==> !old(self).is_held(),
            final(self).is_held(),
    {
        if self.held {
            false
        } else {
            self.held = true;
            true
        }
    }

    /// Give the admission back.
    pub fn release(&mut self)
        ensures
            !final(self).is_held(),
    {
        self.held = false;
    }
}

} // verus!
