//! Element types admitted into scratch buffers.

use vstd::prelude::*;

verus! {

/// Default alignment for scratch buffers (64 bytes = one AVX-512 cache line).
pub const DEFAULT_SCRATCH_ALIGN: usize = 64;

/// Marker implemented for exactly the types that are [`ScratchElement`]s.
pub trait ScratchElementSealed {}

impl<T: Copy + Default> ScratchElementSealed for T {}

/// Element types that scratch buffers manage: plain copyable values with a
/// default, which is the value a freshly exposed scratch element holds.
pub trait ScratchElement: ScratchElementSealed + Copy + Default {
    /// Alignment in bytes required for SIMD operations on this element type.
    const ALIGN_BYTES: usize;
}

impl<T: Copy + Default> ScratchElement for T {
    const ALIGN_BYTES: usize = DEFAULT_SCRATCH_ALIGN;
}

/// `x` is a value `T::default()` may return: what a freshly exposed scratch
/// element holds.
pub open spec fn is_fresh<T: Default>(x: T) -> bool {
    call_ensures(T::default, (), x)
}

/// Default alignment constant for external consumers.
pub fn default_align() -> (align: usize)
    ensures
        align == DEFAULT_SCRATCH_ALIGN,
{
    DEFAULT_SCRATCH_ALIGN
}

} // verus!
