//! A binary semaphore: a single-permit blocking gate.
//!
//! Its state is a single `available` flag. `wait` consumes an available
//! permit; `signal` restores it. A `signal` that arrives before any `wait`
//! is never lost: the permit stays available until some `wait` consumes it.
//!
//! This library models that state's transitions; blocking is the
//! caller's concern. A caller that may find no permit available polls
//! [`try_wait`] (under its own lock and condition variable) until the
//! permit is obtained, which is exactly the classical
//! "`while !available { block }; available = false`" loop.

use vstd::prelude::*;

verus! {

/// A single-slot gate: one permit, either available or held.
pub struct BinarySemaphore {
    available: bool,
}

impl BinarySemaphore {
    /// Whether the permit is currently available.
    pub closed spec fn spec_available(self) -> bool {
        self.available
    }

    /// Creates a gate, with the permit initially available or not, as the
    /// caller chooses.
    pub fn new(available: bool) -> (s: BinarySemaphore)
        ensures
            s.spec_available() == available,
    {
        BinarySemaphore { available }
    }

    /// Consumes the permit if it is available; reports whether it did.
    ///
    /// A blocked `wait` is this operation retried until it succeeds.
    pub fn try_wait(&mut self) -> (acquired: bool)
        ensures
            acquired == old(self).spec_available(),
            !final(self).spec_available(),
    {
        let was = self.available;
        self.available = false;
        was
    }

    /// Reads the flag without consuming the permit.
    pub fn available(&self) -> (r: bool)
        ensures
            r == self.spec_available(),
    {
        self.available
    }
}

/// Consumes the permit: the caller passes.
///
/// The permit must be available; a caller that may find it taken
/// retries [`BinarySemaphore::try_wait`] instead, blocking in between.
pub fn wait(semaphore: &mut BinarySemaphore)
    requires
        old(semaphore).spec_available(),
    ensures
        !final(semaphore).spec_available(),
{
    semaphore.available = false;
}

/// Restores the permit for one waiter, present or future.
pub fn signal(semaphore: &mut BinarySemaphore)
    ensures
        final(semaphore).spec_available(),
{
    semaphore.available = true;
}

} // verus!
