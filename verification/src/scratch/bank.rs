//! A fixed set of scratch pools of one element type, one per role.

use crate::scratch::aligned_vec::capacity_fits;
use crate::scratch::element::ScratchElement;
use crate::scratch::pool::{MAX_POOL_SLOTS, ScratchPool};
use vstd::prelude::*;

verus! {

/// `N` independent scratch pools for one element type, selected by a
/// compile-time index, so several roles of one workload keep their own
/// buffers.
pub struct ScratchBank<T: ScratchElement, const N: usize> {
    pools: Vec<ScratchPool<T>>,
}

impl<T: ScratchElement, const N: usize> ScratchBank<T, N> {
    /// There is one pool per index.
    #[verifier::type_invariant]
    spec fn inv(self) -> bool {
        self.pools@.len() == N
    }

    /// Creates a bank of `N` empty pools.
    pub fn new() -> Self {
        let mut pools: Vec<ScratchPool<T>> = Vec::with_capacity(N);
        let mut i: usize = 0;
        while i < N
            invariant
                i <= N,
                pools@.len() == i,
            decreases N - i,
        {
            pools.push(ScratchPool::new());
            i = i + 1;
        }
        ScratchBank { pools }
    }

    /// Runs `f` on a scratch slice of exactly `n` elements from pool
    /// `INDEX`, as [`ScratchPool::with_scratch`] does.
    pub fn with_scratch<const INDEX: usize, R>(&self, n: usize, f: impl FnOnce(&mut [T]) -> R) -> (r: R)
        requires
            INDEX < N,
            capacity_fits::<T>(n as nat),
            forall|s: &mut [T]| s@.len() == n ==> f.requires((s,)),
        ensures
            exists|s: &mut [T]| s@.len() == n && f.ensures((s,), r),
    {
        proof {
            use_type_invariant(self);
        }
        self.pools[INDEX].with_scratch(n, f)
    }

    /// Gives back every pool's slot storage, as [`ScratchPool::release`]
    /// does, and returns the total bytes given back; or `None`, freeing
    /// nothing in any pool, while any pool has a live borrow.
    pub fn release(&self) -> Option<usize> {
        proof {
            use_type_invariant(self);
        }
        let mut i: usize = 0;
        while i < self.pools.len()
            invariant
                i <= self.pools@.len(),
            decreases self.pools@.len() - i,
        {
            if self.pools[i].borrow_depth() != 0 {
                return None;
            }
            i = i + 1;
        }
        let mut freed: usize = 0;
        let mut j: usize = 0;
        while j < self.pools.len()
            invariant
                j <= self.pools@.len(),
            decreases self.pools@.len() - j,
        {
            if let Some(bytes) = self.pools[j].release() {
                freed = match freed.checked_add(bytes) {
                    Some(t) => t,
                    None => usize::MAX,
                };
            }
            j = j + 1;
        }
        Some(freed)
    }

    /// Capacity of the first slot of pool `INDEX`, readable at any time.
    pub fn capacity<const INDEX: usize>(&self) -> (c: usize)
        requires
            INDEX < N,
        ensures
            capacity_fits::<T>(c as nat),
    {
        proof {
            use_type_invariant(self);
        }
        self.pools[INDEX].capacity()
    }

    /// Current borrow depth of pool `INDEX`.
    pub fn borrow_depth<const INDEX: usize>(&self) -> (d: u8)
        requires
            INDEX < N,
        ensures
            d <= MAX_POOL_SLOTS,
    {
        proof {
            use_type_invariant(self);
        }
        self.pools[INDEX].borrow_depth()
    }
}

impl<T: ScratchElement, const N: usize> Default for ScratchBank<T, N> {
    fn default() -> Self {
        Self::new()
    }
}

} // verus!
