//! The admission gate that caps how many handle-consuming operations run at
//! once. The limiter never fails: a unit that finds no free slot stays
//! suspended (its work is deferred) until one is released.

use vstd::prelude::*;

verus! {

/// A bounded counter of handle slots. `active` can never exceed `capacity`:
/// `try_acquire` refuses a slot whenever all are taken, and every method
/// keeps the invariant. `peak` records the largest number of slots ever held
/// at once, so a scan can report how much concurrency it actually used.
pub struct ResourceLimiter {
    capacity: usize,
    active: usize,
    peak: usize,
}

impl ResourceLimiter {
    /// The slots ever configured.
    pub closed spec fn capacity(self) -> nat {
        self.capacity as nat
    }

    /// The slots currently held.
    pub closed spec fn active(self) -> nat {
        self.active as nat
    }

    /// The most slots ever held at once.
    pub closed spec fn peak(self) -> nat {
        self.peak as nat
    }

    /// Never more slots held, nor ever observed held, than exist.
    pub closed spec fn inv(self) -> bool {
        self.active <= self.capacity && self.active <= self.peak && self.peak <= self.capacity
    }

    /// A limiter with `capacity` free slots and none held.
    pub fn new(capacity: usize) -> (r: ResourceLimiter)
        ensures
            r.inv(),
            r.capacity() == capacity,
            r.active() == 0,
            r.peak() == 0,
    {
        ResourceLimiter { capacity, active: 0, peak: 0 }
    }

    /// Take one slot when one is free; refuse, changing nothing, when all
    /// are taken. Succeeds exactly when a slot is free.
    pub fn try_acquire(&mut self) -> (ok: bool)
        requires
            old(self).inv(),
        ensures
            final(self).inv(),
            final(self).capacity() == old(self).capacity(),
            ok <==> old(self).active() < old(self).capacity(),
            ok ==> final(self).active() == old(self).active() + 1,
            ok ==> final(self).peak() == if final(self).active() > old(self).peak() {
                final(self).active()
            } else {
                old(self).peak()
            },
            !ok ==> *final(self) == *old(self),
    {
        if self.active < self.capacity {
            self.active = self.active + 1;
            if self.active > self.peak {
                self.peak = self.active;
            }
            true
        } else {
            false
        }
    }

    /// Return one held slot.
    pub fn release(&mut self)
        requires
            old(self).inv(),
            old(self).active() >= 1,
        ensures
            final(self).inv(),
            final(self).capacity() == old(self).capacity(),
            final(self).active() == old(self).active() - 1,
            final(self).peak() == old(self).peak(),
    {
        self.active = self.active - 1;
    }

    /// The most slots ever held at once: never more than the capacity.
    pub fn peak_held(&self) -> (n: usize)
        requires
            self.inv(),
        ensures
            n == self.peak(),
            n <= self.capacity(),
    {
        self.peak
    }
}

/// At every instant, the slots held never exceed the capacity, nor did they
/// ever: the invariant every limiter method preserves says no less.
pub proof fn lemma_limiter_never_exceeds_capacity(l: ResourceLimiter)
    requires
        l.inv(),
    ensures
        l.active() <= l.capacity(),
        l.peak() <= l.capacity(),
{
}

} // verus!
