use vstd::prelude::*;

verus! {

/// The allowance of extra workers that one build shares across all its
/// levels. A worker may start only by taking one unit, and gives it back when
/// it ends, so at every moment the workers alive number `cap - free`.
pub struct Budget {
    cap: usize,
    free: usize,
}

impl Budget {
    /// The allowance the build started with.
    pub closed spec fn cap(&self) -> nat {
        self.cap as nat
    }

    /// The units not taken at this moment.
    pub closed spec fn free(&self) -> nat {
        self.free as nat
    }

    /// Workers alive at this moment.
    pub open spec fn live(&self) -> int {
        self.cap() - self.free()
    }

    /// Never more free units than the allowance, so never a negative count
    /// of live workers.
    pub open spec fn wf(&self) -> bool {
        self.free() <= self.cap()
    }

    /// An allowance of `cap` extra workers, none of them started.
    pub fn new(cap: usize) -> (r: Budget)
        ensures
            r.wf(),
            r.cap() == cap,
            r.free() == cap,
            r.live() == 0,
    {
        Budget { cap, free: cap }
    }

    /// Takes one unit if any is free: `true` means a worker may start, `false`
    /// that the entry is to be built by the caller itself.
    pub fn try_acquire(&mut self) -> (r: bool)
        requires
            old(self).wf(),
        ensures
            final(self).wf(),
            final(self).cap() == old(self).cap(),
            r == (old(self).free() > 0),
            r ==> final(self).free() == old(self).free() - 1,
            !r ==> final(self).free() == old(self).free(),
            0 <= final(self).live() <= final(self).cap(),
    {
        if self.free > 0 {
            self.free = self.free - 1;
            true
        } else {
            false
        }
    }

    /// Gives back the unit of a worker that has ended.
    pub fn release(&mut self)
        requires
            old(self).wf(),
            old(self).live() > 0,
        ensures
            final(self).wf(),
            final(self).cap() == old(self).cap(),
            final(self).free() == old(self).free() + 1,
            0 <= final(self).live() <= final(self).cap(),
    {
        self.free = self.free + 1;
    }

    /// Workers alive at this moment.
    pub fn in_use(&self) -> (r: usize)
        requires
            self.wf(),
        ensures
            r == self.live(),
            r <= self.cap(),
    {
        self.cap - self.free
    }
}

} // verus!
