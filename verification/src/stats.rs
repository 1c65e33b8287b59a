use vstd::prelude::*;

verus! {

/// Runtime metrics for a shared stream: the number of consumer handles that
/// are still active (neither dropped nor run to the end of the stream).
///
/// There is one count per shared stream, owned by its hub; it is read through
/// the hub and never copied out.
#[derive(Debug)]
pub struct Stats {
    active_clones: u64,
}

impl Stats {
    /// The count, as a mathematical value.
    pub closed spec fn count(self) -> u64 {
        self.active_clones
    }

    /// A fresh count of one: the handle that created the stream.
    pub(crate) fn new() -> (s: Self)
        ensures
            s.count() == 1,
    {
        Stats { active_clones: 1 }
    }

    /// Adds one to the count, wrapping around at `u64::MAX` as an atomic
    /// `fetch_add` does.
    pub(crate) fn increment(&mut self)
        ensures
            final(self).count() == (if old(self).count() == u64::MAX { 0 } else { old(self).count() + 1 }),
    {
        self.active_clones = self.active_clones.wrapping_add(1);
    }

    /// Subtracts one from the count, wrapping around at zero as an atomic
    /// `fetch_sub` does.
    pub(crate) fn decrement(&mut self)
        ensures
            final(self).count() == (if old(self).count() == 0 { u64::MAX } else { (old(self).count() - 1) as u64 }),
    {
        self.active_clones = self.active_clones.wrapping_sub(1);
    }

    /// Returns the number of active clones, including the handle the count was
    /// obtained from; `1` means there are no other clones.
    pub fn active_clones(&self) -> (n: u64)
        ensures
            n == self.count(),
    {
        self.active_clones
    }
}

} // verus!
