//! A count of work that is queued, which bounds the memory it holds.
use vstd::prelude::*;

verus! {

/// A counting semaphore's count. At least one thing can always be queued, and never more than the
/// limit is.
#[derive(Debug)]
pub struct Inflight {
    limit: usize,
    count: usize,
}

impl Inflight {
    pub closed spec fn limit(&self) -> usize {
        self.limit
    }

    pub closed spec fn count(&self) -> usize {
        self.count
    }

    #[verifier::type_invariant]
    spec fn bounded(self) -> bool {
        self.limit >= 1 && self.count <= self.limit
    }

    pub fn new(limit: usize) -> (inflight: Self)
        ensures
            inflight.limit() == if limit == 0 {
                1
            } else {
                limit
            },
            inflight.count() == 0,
    {
        Inflight {
            limit: if limit == 0 {
                1
            } else {
                limit
            },
            count: 0,
        }
    }

    /// Takes a place if one is free. To wait for one, try again after a release.
    pub fn try_acquire(&mut self) -> (acquired: bool)
        ensures
            final(self).limit() == old(self).limit(),
            1 <= final(self).limit(),
            final(self).count() <= final(self).limit(),
            acquired == (old(self).count() < old(self).limit()),
            final(self).count() == if acquired {
                old(self).count() + 1
            } else {
                old(self).count() as int
            },
    {
        proof {
            use_type_invariant(&*self);
        }
        if self.count >= self.limit {
            return false;
        }
        self.count = self.count + 1;
        true
    }

    /// Gives a place back that was taken.
    pub fn release(&mut self)
        requires
            old(self).count() > 0,
        ensures
            final(self).limit() == old(self).limit(),
            final(self).count() == old(self).count() - 1,
    {
        proof {
            use_type_invariant(&*self);
        }
        self.count = self.count - 1;
    }
}

} // verus!
