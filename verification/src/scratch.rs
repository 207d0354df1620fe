//! Aligned scratch buffers for numerical workloads: a heap buffer that grows
//! on demand, a fixed-capacity inline buffer, and pools that hand out reusable
//! aligned slices.

pub mod aligned_buf;
pub mod aligned_vec;
pub mod bank;
pub mod element;
pub mod order;
pub mod pool;

pub use aligned_buf::AlignedBuf;
pub use aligned_vec::{AlignedVec, Drain, IntoIter};
pub use bank::ScratchBank;
pub use pool::{MAX_POOL_SLOTS, ScratchPool};
pub use element::{DEFAULT_SCRATCH_ALIGN, ScratchElement, ScratchElementSealed, default_align};
