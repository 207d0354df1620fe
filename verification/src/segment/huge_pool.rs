//! Retained huge mappings, bucketed by size class within each NUMA node.

use crate::segment::stack::{
    SegmentRef, SegmentStack, lemma_total_size_push, lemma_total_size_remove, total_size,
};
use crate::align::saturating_mul;
use crate::segment::numa::{NUMA_BUCKETS, bucket_from_usize, spec_numa_bucket, visit_bucket};
use vstd::prelude::*;

verus! {

/// Largest huge-block size the cache retains (16 MiB).
pub const MAX_CACHED_HUGE_SIZE: usize = 16777216;

/// Bounded maximum number of huge blocks cached per size bucket.
pub const MAX_CACHED_HUGE_BLOCKS: usize = 1024;

/// Per-bucket retained-byte budget (256 MiB).
pub const MAX_CACHED_HUGE_BYTES_PER_BUCKET: usize = 268435456;

/// Number of ordered bands within one logarithmic size bucket.
pub const HUGE_BUCKET_BANDS: usize = 2;

/// Per-band retained-byte budget: the two bands split the bucket budget.
pub const MAX_CACHED_HUGE_BYTES_PER_BAND: usize = 134217728;

/// Number of live size buckets: the bucket of [`MAX_CACHED_HUGE_SIZE`] plus one.
pub const HUGE_SIZE_BUCKETS: usize = 11;

/// Upward-scan over-provision cap factor for cache pops.
pub const HUGE_POP_FIT_CAP: usize = 4;

/// Size below or at which every block shares bucket 0 (16 KiB).
pub const HUGE_BUCKET0_LIMIT: usize = 16384;

/// Log2-ceil size class: sizes up to 16 KiB are class 0, and class `b + 1`
/// holds the sizes whose halving (rounded up) falls in class `b`; so class
/// `b` covers `(2^(b+13), 2^(b+14)]` bytes.
pub open spec fn size_class(size: nat) -> nat
    decreases size,
{
    if size <= HUGE_BUCKET0_LIMIT {
        0
    } else {
        1 + size_class((size - size / 2) as nat)
    }
}

/// Smallest size whose class is `b + 1`, minus one: class `b` is the range
/// `(class_floor(b), 2 * class_floor(b)]` for every `b >= 1`.
pub open spec fn class_floor(b: nat) -> nat {
    vstd::arithmetic::power2::pow2(b + 13)
}

/// Unclamped log2-ceil bucket index of `size`.
pub fn log2_ceil_bucket_index(size: usize) -> (b: usize)
    ensures
        b == size_class(size as nat),
{
    let mut s = size;
    let mut b: usize = 0;
    while s > HUGE_BUCKET0_LIMIT
        invariant
            size_class(size as nat) == b + size_class(s as nat),
            b + s <= size,
        decreases s,
    {
        s = s - s / 2;
        b = b + 1;
    }
    b
}


/// Size classes partition the sizes above 16 KiB into power-of-two ranges:
/// class `b >= 1` is exactly `(2^(b+13), 2^(b+14)]`.
pub proof fn lemma_size_class_bounds(size: nat)
    requires
        size > HUGE_BUCKET0_LIMIT,
    ensures
        size_class(size) >= 1,
        class_floor(size_class(size)) < size <= 2 * class_floor(size_class(size)),
    decreases size,
{
    let half = (size - size / 2) as nat;
    vstd::arithmetic::power2::lemma_pow2_unfold(14);
    vstd::arithmetic::power2::lemma_pow2_unfold(15);
    if half <= HUGE_BUCKET0_LIMIT {
        vstd::arithmetic::power2::lemma2_to64();
        assert(size_class(half) == 0);
    } else {
        lemma_size_class_bounds(half);
        let b = size_class(half);
        vstd::arithmetic::power2::lemma_pow2_unfold(b + 14);
        vstd::arithmetic::power2::lemma_pow2_unfold(b + 13);
    }
}

/// Classes grow with the size they describe.
pub proof fn lemma_size_class_monotone(a: nat, b: nat)
    requires
        a <= b,
    ensures
        size_class(a) <= size_class(b),
    decreases b,
{
    if b <= HUGE_BUCKET0_LIMIT {
    } else if a <= HUGE_BUCKET0_LIMIT {
    } else {
        lemma_size_class_monotone((a - a / 2) as nat, (b - b / 2) as nat);
    }
}

/// The largest cacheable size lands in the last live bucket, so exactly
/// `HUGE_SIZE_BUCKETS` buckets are reachable by admitted blocks.
pub proof fn lemma_bucket_count_matches_max_cached_size()
    ensures
        size_class(MAX_CACHED_HUGE_SIZE as nat) + 1 == HUGE_SIZE_BUCKETS,
{
    assert(size_class(16384) == 0);
    assert(size_class(32768) == 1);
    assert(size_class(65536) == 2);
    assert(size_class(131072) == 3);
    assert(size_class(262144) == 4);
    assert(size_class(524288) == 5);
    assert(size_class(1048576) == 6);
    assert(size_class(2097152) == 7);
    assert(size_class(4194304) == 8);
    assert(size_class(8388608) == 9);
    assert(size_class(16777216) == 10);
}

/// Bucket of `size`, clamped to the live bucket range.
pub fn huge_bucket_index(size: usize) -> (b: usize)
    ensures
        b == bucket_of(size as nat),
        b < HUGE_SIZE_BUCKETS,
{
    let idx = log2_ceil_bucket_index(size);
    if idx >= HUGE_SIZE_BUCKETS {
        HUGE_SIZE_BUCKETS - 1
    } else {
        idx
    }
}

/// Clamped bucket of a size.
pub open spec fn bucket_of(size: nat) -> nat {
    if size_class(size) >= HUGE_SIZE_BUCKETS {
        (HUGE_SIZE_BUCKETS - 1) as nat
    } else {
        size_class(size)
    }
}

/// Ordered half of a logarithmic bucket.
#[derive(Clone, Copy, Debug, PartialEq, Eq, Structural)]
pub enum HugeBucketBand {
    /// The lower half of the bucket, up to its midpoint.
    Lower,
    /// The upper half of the bucket, above its midpoint.
    Upper,
}

impl HugeBucketBand {
    /// Position of the band within a bucket.
    pub fn index(self) -> (i: usize)
        ensures
            i == self.spec_index(),
    {
        match self {
            HugeBucketBand::Lower => 0,
            HugeBucketBand::Upper => 1,
        }
    }

    /// Position of the band within a bucket.
    pub open spec fn spec_index(self) -> nat {
        match self {
            HugeBucketBand::Lower => 0,
            HugeBucketBand::Upper => 1,
        }
    }
}

/// Midpoint of bucket `b`: its exclusive lower bound plus half of it.
pub open spec fn bucket_midpoint(b: nat) -> nat {
    class_floor(b) + class_floor(b) / 2
}

/// Band a block of `size` bytes belongs to within bucket `b`.
pub open spec fn band_of(size: nat, b: nat) -> HugeBucketBand {
    if size > bucket_midpoint(b) {
        HugeBucketBand::Upper
    } else {
        HugeBucketBand::Lower
    }
}

/// Exclusive lower bound `2^(b+13)` of bucket `b`, for a live bucket.
pub fn bucket_lower_bound(b: usize) -> (r: usize)
    requires
        b < HUGE_SIZE_BUCKETS,
    ensures
        r == class_floor(b as nat),
        8192 <= r <= 8388608,
{
    proof {
        vstd::bits::lemma_usize_pow2_no_overflow((b + 13) as nat);
        vstd::bits::lemma_usize_shl_is_mul(1, (b + 13) as usize);
        lemma_class_floor_bounded(b as nat);
    }
    1usize << ((b + 13) as usize)
}

/// Selects the ordered half of bucket `bucket_idx` for `size`: the lower band
/// ends at the bucket midpoint.
pub fn huge_bucket_band(size: usize, bucket_idx: usize) -> (band: HugeBucketBand)
    requires
        bucket_idx < HUGE_SIZE_BUCKETS,
    ensures
        band == band_of(size as nat, bucket_idx as nat),
{
    let lower_bound = bucket_lower_bound(bucket_idx);
    let midpoint = lower_bound + lower_bound / 2;
    if size > midpoint {
        HugeBucketBand::Upper
    } else {
        HugeBucketBand::Lower
    }
}

/// Block-count cap of bucket `idx`: the per-bucket byte budget divided by
/// the bucket's largest block, never above [`MAX_CACHED_HUGE_BLOCKS`].
pub fn bucket_block_cap(idx: usize) -> (cap: usize)
    requires
        idx < HUGE_SIZE_BUCKETS,
    ensures
        cap == spec_bucket_block_cap(idx as nat),
        1 <= cap <= MAX_CACHED_HUGE_BLOCKS,
        cap * (2 * class_floor(idx as nat)) <= MAX_CACHED_HUGE_BYTES_PER_BUCKET,
{
    let max_block = 2 * bucket_lower_bound(idx);
    let by_budget = MAX_CACHED_HUGE_BYTES_PER_BUCKET / max_block;
    proof {
        lemma_class_floor_bounded(idx as nat);
        vstd::arithmetic::div_mod::lemma_fundamental_div_mod(
            MAX_CACHED_HUGE_BYTES_PER_BUCKET as int,
            max_block as int,
        );
        vstd::arithmetic::div_mod::lemma_mod_pos_bound(
            MAX_CACHED_HUGE_BYTES_PER_BUCKET as int,
            max_block as int,
        );
        let x = MAX_CACHED_HUGE_BYTES_PER_BUCKET as int;
        let d = max_block as int;
        assert(x / d >= 1 && (x / d) * d <= x) by (nonlinear_arith)
            requires
                x >= d,
                d > 0,
        ;
    }
    if by_budget < MAX_CACHED_HUGE_BLOCKS {
        by_budget
    } else {
        proof {
            vstd::arithmetic::mul::lemma_mul_inequality(
                MAX_CACHED_HUGE_BLOCKS as int,
                by_budget as int,
                max_block as int,
            );
        }
        MAX_CACHED_HUGE_BLOCKS
    }
}

/// Block-count cap of bucket `idx`.
pub open spec fn spec_bucket_block_cap(idx: nat) -> nat {
    let by_budget = MAX_CACHED_HUGE_BYTES_PER_BUCKET as nat / (2 * class_floor(idx));
    if by_budget < MAX_CACHED_HUGE_BLOCKS {
        by_budget
    } else {
        MAX_CACHED_HUGE_BLOCKS as nat
    }
}

proof fn lemma_class_floor_bounded(b: nat)
    requires
        b < HUGE_SIZE_BUCKETS,
    ensures
        8192 <= class_floor(b) <= 8388608,
        2 * class_floor(b) <= MAX_CACHED_HUGE_BYTES_PER_BUCKET,
{
    vstd::arithmetic::power2::lemma_pow2_pos(b + 13);
    if b > 0 {
        vstd::arithmetic::power2::lemma_pow2_strictly_increases(13, b + 13);
    }
    vstd::arithmetic::power2::lemma2_to64();
    if b + 13 < 23 {
        vstd::arithmetic::power2::lemma_pow2_strictly_increases(b + 13, 23);
    }
}


/// A block of `block_size` bytes belongs to band `band` of bucket `b`, and the
/// cache would admit its size.
pub open spec fn fits_slot(block_size: nat, b: nat, band: HugeBucketBand) -> bool {
    &&& block_size <= MAX_CACHED_HUGE_SIZE
    &&& bucket_of(block_size) == b
    &&& band_of(block_size, b) == band
}

/// Every block of `s` belongs to band `band` of bucket `b`.
pub open spec fn all_fit_slot(s: Seq<SegmentRef>, b: nat, band: HugeBucketBand) -> bool {
    forall|i: int| 0 <= i < s.len() ==> fits_slot(#[trigger] s[i].block_size as nat, b, band)
}

/// A size bucket of cached huge blocks: one stack per ordered band, each with
/// the byte total it retains.
pub struct NodeHugeBucket {
    lower: SegmentStack,
    upper: SegmentStack,
    lower_bytes: usize,
    upper_bytes: usize,
}

impl NodeHugeBucket {
    /// Blocks retained in `band`, bottom first (the last one is the head).
    pub closed spec fn band(&self, band: HugeBucketBand) -> Seq<SegmentRef> {
        match band {
            HugeBucketBand::Lower => self.lower@,
            HugeBucketBand::Upper => self.upper@,
        }
    }

    /// Number of blocks in both bands.
    pub open spec fn spec_count(&self) -> nat {
        self.band(HugeBucketBand::Lower).len() + self.band(HugeBucketBand::Upper).len()
    }

    /// Bytes retained in both bands.
    pub open spec fn spec_bytes(&self) -> nat {
        total_size(self.band(HugeBucketBand::Lower)) + total_size(
            self.band(HugeBucketBand::Upper),
        )
    }

    /// The bucket holds only blocks of bucket `b` in their own band, within
    /// the per-band byte budget and the per-bucket block cap, and its byte
    /// counters match its contents.
    pub closed spec fn wf(&self, b: nat) -> bool {
        &&& self.lower_bytes == total_size(self.lower@)
        &&& self.upper_bytes == total_size(self.upper@)
        &&& self.lower_bytes <= MAX_CACHED_HUGE_BYTES_PER_BAND
        &&& self.upper_bytes <= MAX_CACHED_HUGE_BYTES_PER_BAND
        &&& self.lower@.len() + self.upper@.len() <= MAX_CACHED_HUGE_BLOCKS
        &&& all_fit_slot(self.lower@, b, HugeBucketBand::Lower)
        &&& all_fit_slot(self.upper@, b, HugeBucketBand::Upper)
    }

    /// Each band's byte total is within the band budget.
    pub proof fn lemma_wf_bounds(&self, b: nat)
        requires
            self.wf(b),
        ensures
            total_size(self.band(HugeBucketBand::Lower)) <= MAX_CACHED_HUGE_BYTES_PER_BAND,
            total_size(self.band(HugeBucketBand::Upper)) <= MAX_CACHED_HUGE_BYTES_PER_BAND,
            self.spec_count() <= MAX_CACHED_HUGE_BLOCKS,
            all_fit_slot(self.band(HugeBucketBand::Lower), b, HugeBucketBand::Lower),
            all_fit_slot(self.band(HugeBucketBand::Upper), b, HugeBucketBand::Upper),
    {
    }

    /// Creates an empty bucket.
    pub fn new() -> (bucket: NodeHugeBucket)
        ensures
            forall|b: nat| bucket.wf(b),
            bucket.band(HugeBucketBand::Lower) == Seq::<SegmentRef>::empty(),
            bucket.band(HugeBucketBand::Upper) == Seq::<SegmentRef>::empty(),
    {
        NodeHugeBucket {
            lower: SegmentStack::new(),
            upper: SegmentStack::new(),
            lower_bytes: 0,
            upper_bytes: 0,
        }
    }

    /// Number of blocks retained in both bands.
    pub fn count(&self) -> (n: usize)
        requires
            exists|b: nat| self.wf(b),
        ensures
            n == self.spec_count(),
    {
        self.lower.len() + self.upper.len()
    }

    /// Bytes retained in `band`.
    pub fn retained_bytes(&self, band: HugeBucketBand) -> (n: usize)
        requires
            exists|b: nat| self.wf(b),
        ensures
            n == total_size(self.band(band)),
    {
        match band {
            HugeBucketBand::Lower => self.lower_bytes,
            HugeBucketBand::Upper => self.upper_bytes,
        }
    }

    /// Pushes `segment` onto the stack of `band`; it becomes that band's head.
    pub(crate) fn push(&mut self, segment: SegmentRef, band: HugeBucketBand, Ghost(b): Ghost<nat>)
        requires
            old(self).wf(b),
            fits_slot(segment.block_size as nat, b, band),
            total_size(old(self).band(band)) + segment.block_size
                <= MAX_CACHED_HUGE_BYTES_PER_BAND,
            old(self).spec_count() < MAX_CACHED_HUGE_BLOCKS,
        ensures
            final(self).wf(b),
            final(self).band(band) == old(self).band(band).push(segment),
            final(self).band(other_band(band)) == old(self).band(other_band(band)),
    {
        proof {
            lemma_total_size_push(self.band(band), segment);
        }
        match band {
            HugeBucketBand::Lower => {
                self.lower.push(segment);
                self.lower_bytes = self.lower_bytes + segment.block_size;
            },
            HugeBucketBand::Upper => {
                self.upper.push(segment);
                self.upper_bytes = self.upper_bytes + segment.block_size;
            },
        }
    }

    /// Pops the head block of `band`, if any.
    pub(crate) fn pop_head(&mut self, band: HugeBucketBand, Ghost(b): Ghost<nat>) -> (r: Option<
        SegmentRef,
    >)
        requires
            old(self).wf(b),
        ensures
            final(self).wf(b),
            final(self).band(other_band(band)) == old(self).band(other_band(band)),
            old(self).band(band).len() == 0 ==> r is None && final(self).band(band) == old(
                self,
            ).band(band),
            old(self).band(band).len() > 0 ==> r == Some(old(self).band(band).last())
                && final(self).band(band) == old(self).band(band).drop_last(),
    {
        let ghost s = self.band(band);
        match band {
            HugeBucketBand::Lower => {
                let r = self.lower.pop();
                if let Some(seg) = r {
                    proof {
                        lemma_total_size_push(s.drop_last(), seg);
                        assert(s.drop_last().push(seg) =~= s);
                    }
                    self.lower_bytes = self.lower_bytes - seg.block_size;
                }
                r
            },
            HugeBucketBand::Upper => {
                let r = self.upper.pop();
                if let Some(seg) = r {
                    proof {
                        lemma_total_size_push(s.drop_last(), seg);
                        assert(s.drop_last().push(seg) =~= s);
                    }
                    self.upper_bytes = self.upper_bytes - seg.block_size;
                }
                r
            },
        }
    }
}

/// The other band of a bucket.
pub open spec fn other_band(band: HugeBucketBand) -> HugeBucketBand {
    match band {
        HugeBucketBand::Lower => HugeBucketBand::Upper,
        HugeBucketBand::Upper => HugeBucketBand::Lower,
    }
}


/// Index of the topmost block of `s` (the one nearest the head) that holds at
/// least `size` bytes, or -1 when none does.
pub open spec fn fit_index(s: Seq<SegmentRef>, size: nat) -> int
    decreases s.len(),
{
    if s.len() == 0 {
        -1
    } else if s.last().block_size >= size {
        s.len() - 1
    } else {
        fit_index(s.drop_last(), size)
    }
}

/// `fit_index` names a fitting block with no fitting block above it.
pub proof fn lemma_fit_index(s: Seq<SegmentRef>, size: nat)
    ensures
        -1 <= fit_index(s, size) < s.len(),
        fit_index(s, size) >= 0 ==> s[fit_index(s, size)].block_size >= size,
        forall|j: int| fit_index(s, size) < j < s.len() ==> s[j].block_size < size,
    decreases s.len(),
{
    if s.len() > 0 && s.last().block_size < size {
        lemma_fit_index(s.drop_last(), size);
        assert(forall|j: int| 0 <= j < s.len() - 1 ==> s.drop_last()[j] == s[j]);
    }
}

/// Blocks above a fitting block do not change which block is topmost-fitting
/// when none of them fits.
proof fn lemma_fit_index_skips_rejects(a: Seq<SegmentRef>, r: Seq<SegmentRef>, size: nat)
    requires
        forall|j: int| 0 <= j < r.len() ==> r[j].block_size < size,
    ensures
        fit_index(a + r, size) == fit_index(a, size),
    decreases r.len(),
{
    if r.len() > 0 {
        assert((a + r).drop_last() =~= a + r.drop_last());
        assert((a + r).last() == r.last());
        lemma_fit_index_skips_rejects(a, r.drop_last(), size);
    } else {
        assert(a + r =~= a);
    }
}

impl NodeHugeBucket {
    /// Splices `chain` back on top of `band`: `chain[0]` becomes the head and
    /// the chain's order is kept.
    pub(crate) fn push_chain(
        &mut self,
        band: HugeBucketBand,
        chain: Vec<SegmentRef>,
        bytes: usize,
        Ghost(b): Ghost<nat>,
    )
        requires
            old(self).wf(b),
            bytes == total_size(chain@),
            all_fit_slot(chain@, b, band),
            total_size(old(self).band(band)) + bytes <= MAX_CACHED_HUGE_BYTES_PER_BAND,
            old(self).spec_count() + chain@.len() <= MAX_CACHED_HUGE_BLOCKS,
        ensures
            final(self).wf(b),
            final(self).band(band) == old(self).band(band) + chain@.reverse(),
            final(self).band(other_band(band)) == old(self).band(other_band(band)),
    {
        proof {
            crate::segment::stack::lemma_total_size_concat(self.band(band), chain@.reverse());
            lemma_total_size_reverse(chain@);
            assert forall|i: int| 0 <= i < chain@.reverse().len() implies fits_slot(
                #[trigger] chain@.reverse()[i].block_size as nat,
                b,
                band,
            ) by {
                assert(chain@.reverse()[i] == chain@[chain@.len() - 1 - i]);
            }
        }
        match band {
            HugeBucketBand::Lower => {
                self.lower.push_chain(chain);
                self.lower_bytes = self.lower_bytes + bytes;
            },
            HugeBucketBand::Upper => {
                self.upper.push_chain(chain);
                self.upper_bytes = self.upper_bytes + bytes;
            },
        }
    }

    /// Removes the topmost block of `band` that holds at least `size` bytes,
    /// walking past undersized heads; the walked-past blocks are restored in
    /// the order they had, so the band loses exactly the returned block.
    #[verifier::spinoff_prover]
    #[verifier::rlimit(60)]
    pub(crate) fn pop_fitting_from_exact_bucket(
        &mut self,
        size: usize,
        band: HugeBucketBand,
        Ghost(b): Ghost<nat>,
    ) -> (r: Option<SegmentRef>)
        requires
            old(self).wf(b),
        ensures
            final(self).wf(b),
            final(self).band(other_band(band)) == old(self).band(other_band(band)),
            ({
                let s = old(self).band(band);
                let i = fit_index(s, size as nat);
                &&& i < 0 ==> r is None && final(self).band(band) == s
                &&& i >= 0 ==> r == Some(s[i]) && final(self).band(band) == s.remove(i)
            }),
    {
        let ghost s = self.band(band);
        let mut rejected: Vec<SegmentRef> = Vec::new();
        let mut rejected_bytes: usize = 0;
        let mut fit: Option<SegmentRef> = None;
        proof {
            self.lemma_wf_bounds(b);
        }
        loop
            invariant_except_break
                fit is None,
            invariant
                self.wf(b),
                self.band(other_band(band)) == old(self).band(other_band(band)),
                s == old(self).band(band),
                fit is None ==> s == self.band(band) + rejected@.reverse(),
                fit is Some ==> s == self.band(band).push(fit.unwrap()) + rejected@.reverse(),
                fit is Some ==> fit.unwrap().block_size >= size,
                forall|j: int| 0 <= j < rejected@.len() ==> #[trigger] rejected@[j].block_size < size,
                rejected_bytes == total_size(rejected@),
                all_fit_slot(rejected@, b, band),
                total_size(s) <= MAX_CACHED_HUGE_BYTES_PER_BAND,
                s.len() + old(self).band(other_band(band)).len() <= MAX_CACHED_HUGE_BLOCKS,
            ensures
                fit is None ==> self.band(band).len() == 0,
            decreases self.band(band).len(),
        {
            let ghost before = self.band(band);
            let head = self.pop_head(band, Ghost(b));
            match head {
                None => {
                    break ;
                },
                Some(segment) => {
                    if segment.block_size >= size {
                        fit = Some(segment);
                        break ;
                    }
                    proof {
                        assert(self.band(band).push(segment) =~= before);
                        lemma_total_size_push(rejected@, segment);
                        assert(self.band(band).push(segment) + rejected@.reverse() =~= self.band(
                            band,
                        ) + rejected@.push(segment).reverse());
                        crate::segment::stack::lemma_total_size_concat(
                            self.band(band).push(segment),
                            rejected@.reverse(),
                        );
                        lemma_total_size_reverse(rejected@);
                        crate::segment::stack::lemma_total_size_concat(
                            self.band(band),
                            rejected@.push(segment).reverse(),
                        );
                        lemma_total_size_reverse(rejected@.push(segment));
                        assert(all_fit_slot(s, b, band));
                        assert(s[self.band(band).len() as int] == segment);
                    }
                    rejected_bytes = rejected_bytes + segment.block_size;
                    rejected.push(segment);
                },
            }
        }
        proof {
            assert(forall|j: int|
                0 <= j < rejected@.reverse().len() ==> #[trigger] rejected@.reverse()[j].block_size
                    < size) by {
                assert forall|j: int| 0 <= j < rejected@.reverse().len() implies #[trigger] rejected@.reverse()[j].block_size < size by {
                    assert(rejected@.reverse()[j] == rejected@[rejected@.len() - 1 - j]);
                }
            }
            if fit is Some {
                let a = self.band(band).push(fit.unwrap());
                lemma_fit_index_skips_rejects(a, rejected@.reverse(), size as nat);
                assert(a.drop_last() =~= self.band(band));
                assert(s.remove(self.band(band).len() as int) =~= self.band(band) + rejected@.reverse());
                crate::segment::stack::lemma_total_size_concat(a, rejected@.reverse());
                lemma_total_size_push(self.band(band), fit.unwrap());
                crate::segment::stack::lemma_total_size_concat(self.band(band), rejected@.reverse());
            } else {
                lemma_fit_index_skips_rejects(self.band(band), rejected@.reverse(), size as nat);
                assert(self.band(band) + rejected@.reverse() =~= rejected@.reverse());
            }
            lemma_total_size_reverse(rejected@);
        }
        if rejected.len() > 0 {
            self.push_chain(band, rejected, rejected_bytes, Ghost(b));
        } else {
            proof {
                assert(rejected@.reverse() =~= Seq::<SegmentRef>::empty());
            }
        }
        fit
    }
}

/// Reversing a sequence keeps its total size.
pub proof fn lemma_total_size_reverse(s: Seq<SegmentRef>)
    ensures
        total_size(s.reverse()) == total_size(s),
    decreases s.len(),
{
    if s.len() > 0 {
        lemma_total_size_reverse(s.drop_last());
        assert(s.reverse() =~= seq![s.last()] + s.drop_last().reverse());
        crate::segment::stack::lemma_total_size_concat(seq![s.last()], s.drop_last().reverse());
        crate::segment::stack::lemma_total_size_single(s.last());
    } else {
        assert(s.reverse() =~= s);
    }
}


/// Blocks retained across a sequence of buckets.
pub open spec fn sum_count(bs: Seq<NodeHugeBucket>) -> nat
    decreases bs.len(),
{
    if bs.len() == 0 {
        0
    } else {
        sum_count(bs.drop_last()) + bs.last().spec_count()
    }
}

/// Bytes retained across a sequence of buckets.
pub open spec fn sum_bytes(bs: Seq<NodeHugeBucket>) -> nat
    decreases bs.len(),
{
    if bs.len() == 0 {
        0
    } else {
        sum_bytes(bs.drop_last()) + bs.last().spec_bytes()
    }
}

/// Replacing one bucket changes the sums by that bucket's difference.
proof fn lemma_sums_update(bs: Seq<NodeHugeBucket>, i: int, x: NodeHugeBucket)
    requires
        0 <= i < bs.len(),
    ensures
        sum_count(bs.update(i, x)) + bs[i].spec_count() == sum_count(bs) + x.spec_count(),
        sum_bytes(bs.update(i, x)) + bs[i].spec_bytes() == sum_bytes(bs) + x.spec_bytes(),
    decreases bs.len(),
{
    if i < bs.len() - 1 {
        lemma_sums_update(bs.drop_last(), i, x);
        assert(bs.update(i, x).drop_last() =~= bs.drop_last().update(i, x));
    } else {
        assert(bs.update(i, x).drop_last() =~= bs.drop_last());
    }
}

/// Sums are bounded by the per-bucket caps.
proof fn lemma_sums_bounded(bs: Seq<NodeHugeBucket>)
    requires
        forall|b: int| 0 <= b < bs.len() ==> (#[trigger] bs[b]).wf(b as nat),
    ensures
        sum_count(bs) <= bs.len() * MAX_CACHED_HUGE_BLOCKS,
        sum_bytes(bs) <= bs.len() * (2 * MAX_CACHED_HUGE_BYTES_PER_BAND),
    decreases bs.len(),
{
    if bs.len() > 0 {
        let last = bs.len() - 1;
        assert(forall|b: int| 0 <= b < bs.drop_last().len() ==> bs.drop_last()[b] == bs[b]);
        lemma_sums_bounded(bs.drop_last());
        bs[last].lemma_wf_bounds(last as nat);
        let n = bs.len() as int;
        assert((n - 1) * (MAX_CACHED_HUGE_BLOCKS as int) + MAX_CACHED_HUGE_BLOCKS == n
            * MAX_CACHED_HUGE_BLOCKS) by (nonlinear_arith);
        assert((n - 1) * (2 * MAX_CACHED_HUGE_BYTES_PER_BAND as int) + 2
            * MAX_CACHED_HUGE_BYTES_PER_BAND == n * (2 * MAX_CACHED_HUGE_BYTES_PER_BAND)) by (nonlinear_arith);
    }
}

/// The cached huge blocks of one NUMA node: one bucket per size class, and
/// the node's block and byte totals.
pub struct NodeHugePool {
    buckets: Vec<NodeHugeBucket>,
    total_count: usize,
    total_bytes: usize,
}

impl NodeHugePool {
    /// Blocks retained in band `band` of bucket `b`, bottom first.
    pub closed spec fn band(&self, b: nat, band: HugeBucketBand) -> Seq<SegmentRef> {
        self.buckets@[b as int].band(band)
    }

    /// Every retained block of the node in detach order, lowest bucket first.
    pub closed spec fn spec_chain(&self) -> Seq<SegmentRef> {
        buckets_chain(self.buckets@)
    }

    /// Blocks retained on this node.
    pub closed spec fn spec_total_count(&self) -> nat {
        sum_count(self.buckets@)
    }

    /// Bytes retained on this node.
    pub closed spec fn spec_total_bytes(&self) -> nat {
        sum_bytes(self.buckets@)
    }

    /// Every bucket is well formed for its own index and the totals match.
    pub closed spec fn wf(&self) -> bool {
        &&& self.buckets@.len() == HUGE_SIZE_BUCKETS
        &&& forall|b: int| 0 <= b < HUGE_SIZE_BUCKETS ==> (#[trigger] self.buckets@[b]).wf(b as nat)
        &&& self.total_count == sum_count(self.buckets@)
        &&& self.total_bytes == sum_bytes(self.buckets@)
    }

    /// Creates an empty node pool.
    pub fn new() -> (pool: NodeHugePool)
        ensures
            pool.wf(),
            pool.spec_total_count() == 0,
            pool.spec_total_bytes() == 0,
            forall|b: nat, k: HugeBucketBand|
                b < HUGE_SIZE_BUCKETS ==> #[trigger] pool.band(b, k) == Seq::<SegmentRef>::empty(),
    {
        let mut buckets: Vec<NodeHugeBucket> = Vec::new();
        let mut i: usize = 0;
        while i < HUGE_SIZE_BUCKETS
            invariant
                i <= HUGE_SIZE_BUCKETS,
                buckets@.len() == i,
                forall|b: int| 0 <= b < i ==> (#[trigger] buckets@[b]).wf(b as nat),
                forall|b: int, k: HugeBucketBand| 0 <= b < i ==> #[trigger] buckets@[b].band(k)
                    == Seq::<SegmentRef>::empty(),
                sum_count(buckets@) == 0,
                sum_bytes(buckets@) == 0,
            decreases HUGE_SIZE_BUCKETS - i,
        {
            let bucket = NodeHugeBucket::new();
            proof {
                assert(buckets@.push(bucket).drop_last() =~= buckets@);
                assert(total_size(Seq::<SegmentRef>::empty()) == 0);
            }
            buckets.push(bucket);
            i = i + 1;
        }
        NodeHugePool { buckets, total_count: 0, total_bytes: 0 }
    }
}


/// The node would admit a block of `size` bytes into its bucket and band:
/// the size is cacheable, the bucket is below its block cap, and the band's
/// byte budget has room for the block.
pub open spec fn node_admits(node: NodeHugePool, size: nat) -> bool {
    let b = bucket_of(size);
    let k = band_of(size, b);
    &&& size <= MAX_CACHED_HUGE_SIZE
    &&& node.band(b, HugeBucketBand::Lower).len() + node.band(b, HugeBucketBand::Upper).len()
        < MAX_CACHED_HUGE_BLOCKS
    &&& size + total_size(node.band(b, k)) <= MAX_CACHED_HUGE_BYTES_PER_BAND
}

/// Bucket `b` may serve a request of `size` bytes whose own bucket is
/// `start`: it is that bucket, or a higher one whose smallest possible block
/// stays under `HUGE_POP_FIT_CAP` times the request.
pub open spec fn bucket_within_cap(b: nat, start: nat, size: nat) -> bool {
    b == start || (start < b && class_floor(b) < size * HUGE_POP_FIT_CAP)
}

/// Which block of bucket `b` a request of `size` bytes takes, as a band and
/// an index into it. In the request's own bucket (`start`) it is the topmost
/// block holding at least `size` bytes, looked for in the lower band first
/// when the request sits in the lower band; in a higher bucket it is the head
/// of the lower band, else the head of the upper band.
pub open spec fn bucket_pick(
    lower: Seq<SegmentRef>,
    upper: Seq<SegmentRef>,
    b: nat,
    start: nat,
    size: nat,
) -> Option<(HugeBucketBand, int)> {
    if b == start {
        if band_of(size, start) == HugeBucketBand::Lower && fit_index(lower, size) >= 0 {
            Some((HugeBucketBand::Lower, fit_index(lower, size)))
        } else if fit_index(upper, size) >= 0 {
            Some((HugeBucketBand::Upper, fit_index(upper, size)))
        } else {
            None
        }
    } else if lower.len() > 0 {
        Some((HugeBucketBand::Lower, lower.len() - 1))
    } else if upper.len() > 0 {
        Some((HugeBucketBand::Upper, upper.len() - 1))
    } else {
        None
    }
}

/// The bucket, band and index a request of `size` bytes takes from `node`,
/// scanning buckets upward from `from` and stopping at the first bucket the
/// over-provision cap excludes.
pub open spec fn node_pick(node: NodeHugePool, from: nat, start: nat, size: nat) -> Option<
    (nat, HugeBucketBand, int),
>
    decreases HUGE_SIZE_BUCKETS - from,
{
    if from >= HUGE_SIZE_BUCKETS || !bucket_within_cap(from, start, size) {
        None
    } else {
        match bucket_pick(
            node.band(from, HugeBucketBand::Lower),
            node.band(from, HugeBucketBand::Upper),
            from,
            start,
            size,
        ) {
            Some((k, i)) => Some((from, k, i)),
            None => node_pick(node, from + 1, start, size),
        }
    }
}

/// `a` and `c` hold the same blocks in every bucket and band, except possibly
/// band `k` of bucket `b`.
pub open spec fn same_bands_except(a: NodeHugePool, c: NodeHugePool, b: nat, k: HugeBucketBand) -> bool {
    forall|b2: nat, k2: HugeBucketBand|
        b2 < HUGE_SIZE_BUCKETS && (b2 != b || k2 != k) ==> #[trigger] a.band(b2, k2) == c.band(b2, k2)
}

/// `a` and `c` hold the same blocks in every bucket and band.
pub open spec fn same_bands(a: NodeHugePool, c: NodeHugePool) -> bool {
    forall|b2: nat, k2: HugeBucketBand|
        b2 < HUGE_SIZE_BUCKETS ==> #[trigger] a.band(b2, k2) == c.band(b2, k2)
}

impl NodeHugePool {
    /// Blocks retained on this node.
    pub fn total_count(&self) -> (n: usize)
        requires
            self.wf(),
        ensures
            n == self.spec_total_count(),
    {
        self.total_count
    }

    /// Bytes retained on this node.
    pub fn total_bytes(&self) -> (n: usize)
        requires
            self.wf(),
        ensures
            n == self.spec_total_bytes(),
    {
        self.total_bytes
    }

    /// Caches `segment` in its size bucket and band if the node admits it.
    pub(crate) fn try_push(&mut self, segment: SegmentRef) -> (pushed: bool)
        requires
            old(self).wf(),
        ensures
            final(self).wf(),
            pushed == node_admits(*old(self), segment.block_size as nat),
            pushed ==> ({
                let b = bucket_of(segment.block_size as nat);
                let k = band_of(segment.block_size as nat, b);
                &&& final(self).band(b, k) == old(self).band(b, k).push(segment)
                &&& same_bands_except(*final(self), *old(self), b, k)
                &&& final(self).spec_total_count() == old(self).spec_total_count() + 1
                &&& final(self).spec_total_bytes() == old(self).spec_total_bytes()
                    + segment.block_size
            }),
            !pushed ==> same_bands(*final(self), *old(self)) && final(self).spec_total_count()
                == old(self).spec_total_count() && final(self).spec_total_bytes() == old(
                self,
            ).spec_total_bytes(),
    {
        let size = segment.block_size;
        if size > MAX_CACHED_HUGE_SIZE {
            return false;
        }
        let bucket_idx = huge_bucket_index(size);
        let band = huge_bucket_band(size, bucket_idx);
        let ghost b = bucket_idx as nat;
        proof {
            assert(self.buckets@[bucket_idx as int].wf(b));
            self.buckets@[bucket_idx as int].lemma_wf_bounds(b);
        }
        let retained_bytes = self.buckets[bucket_idx].retained_bytes(band);
        let count = self.buckets[bucket_idx].count();
        if count >= MAX_CACHED_HUGE_BLOCKS || size > MAX_CACHED_HUGE_BYTES_PER_BAND
            - retained_bytes {
            return false;
        }
        proof {
            lemma_sums_bounded(self.buckets@);
            if band == HugeBucketBand::Lower {
                assert(other_band(band) == HugeBucketBand::Upper);
            }
        }
        let ghost old_buckets = self.buckets@;
        self.buckets[bucket_idx].push(segment, band, Ghost(b));
        proof {
            lemma_sums_update(old_buckets, bucket_idx as int, self.buckets@[bucket_idx as int]);
            lemma_total_size_push(old_buckets[bucket_idx as int].band(band), segment);
            assert(self.buckets@ == old_buckets.update(bucket_idx as int, self.buckets@[bucket_idx as int]));
        }
        self.total_count = self.total_count + 1;
        self.total_bytes = self.total_bytes + size;
        true
    }
}


/// An empty node pool picks nothing.
proof fn lemma_node_pick_empty(node: NodeHugePool, from: nat, start: nat, size: nat)
    requires
        forall|b: nat, k: HugeBucketBand|
            b < HUGE_SIZE_BUCKETS ==> (#[trigger] node.band(b, k)).len() == 0,
    ensures
        node_pick(node, from, start, size) is None,
    decreases HUGE_SIZE_BUCKETS - from,
{
    if from < HUGE_SIZE_BUCKETS && bucket_within_cap(from, start, size) {
        assert(node.band(from, HugeBucketBand::Lower).len() == 0);
        assert(node.band(from, HugeBucketBand::Upper).len() == 0);
        assert(fit_index(node.band(from, HugeBucketBand::Lower), size) == -1);
        assert(fit_index(node.band(from, HugeBucketBand::Upper), size) == -1);
        lemma_node_pick_empty(node, from + 1, start, size);
    }
}

/// A node whose sum of block counts is zero has only empty bands.
proof fn lemma_zero_count_empty(bs: Seq<NodeHugeBucket>)
    requires
        sum_count(bs) == 0,
    ensures
        forall|b: int, k: HugeBucketBand|
            0 <= b < bs.len() ==> (#[trigger] bs[b].band(k)).len() == 0,
    decreases bs.len(),
{
    if bs.len() > 0 {
        lemma_zero_count_empty(bs.drop_last());
        assert forall|b: int, k: HugeBucketBand| 0 <= b < bs.len() implies (#[trigger] bs[b].band(
            k,
        )).len() == 0 by {
            if b < bs.len() - 1 {
                assert(bs.drop_last()[b] == bs[b]);
            } else {
                assert(bs.last().band(k).len() == 0);
            }
        }
    }
}

impl NodeHugeBucket {
    /// Takes the block `bucket_pick` names in this bucket (index `b`) for a
    /// request of `size` bytes whose own bucket is `start` and whose band
    /// there is `requested_band`.
    pub(crate) fn take_pick(
        &mut self,
        size: usize,
        b: usize,
        start: usize,
        requested_band: HugeBucketBand,
    ) -> (r: Option<SegmentRef>)
        requires
            old(self).wf(b as nat),
            b < HUGE_SIZE_BUCKETS,
            start <= b,
            requested_band == band_of(size as nat, start as nat),
        ensures
            final(self).wf(b as nat),
            match bucket_pick(
                old(self).band(HugeBucketBand::Lower),
                old(self).band(HugeBucketBand::Upper),
                b as nat,
                start as nat,
                size as nat,
            ) {
                None => {
                    &&& r is None
                    &&& final(self).band(HugeBucketBand::Lower) == old(self).band(HugeBucketBand::Lower)
                    &&& final(self).band(HugeBucketBand::Upper) == old(self).band(HugeBucketBand::Upper)
                },
                Some((k, i)) => {
                    &&& 0 <= i < old(self).band(k).len()
                    &&& r == Some(old(self).band(k)[i])
                    &&& final(self).band(k) == old(self).band(k).remove(i)
                    &&& final(self).band(other_band(k)) == old(self).band(other_band(k))
                },
            },
    {
        let ghost gb = b as nat;
        proof {
            lemma_fit_index(self.band(HugeBucketBand::Lower), size as nat);
            lemma_fit_index(self.band(HugeBucketBand::Upper), size as nat);
        }
        if b == start {
            match requested_band {
                HugeBucketBand::Lower => {
                    let lower = self.pop_fitting_from_exact_bucket(
                        size,
                        HugeBucketBand::Lower,
                        Ghost(gb),
                    );
                    match lower {
                        Some(segment) => Some(segment),
                        None => self.pop_fitting_from_exact_bucket(
                            size,
                            HugeBucketBand::Upper,
                            Ghost(gb),
                        ),
                    }
                },
                HugeBucketBand::Upper => self.pop_fitting_from_exact_bucket(
                    size,
                    HugeBucketBand::Upper,
                    Ghost(gb),
                ),
            }
        } else {
            let ghost lower = self.band(HugeBucketBand::Lower);
            match self.pop_head(HugeBucketBand::Lower, Ghost(gb)) {
                Some(segment) => {
                    proof {
                        assert(lower.drop_last() =~= lower.remove(lower.len() - 1));
                    }
                    Some(segment)
                },
                None => {
                    let ghost upper = self.band(HugeBucketBand::Upper);
                    let r = self.pop_head(HugeBucketBand::Upper, Ghost(gb));
                    proof {
                        if upper.len() > 0 {
                            assert(upper.drop_last() =~= upper.remove(upper.len() - 1));
                        }
                    }
                    r
                },
            }
        }
    }
}

proof fn lemma_same_bands_except_then_same(
    a: NodeHugePool,
    c: NodeHugePool,
    d: NodeHugePool,
    b: nat,
    k: HugeBucketBand,
)
    requires
        same_bands_except(a, c, b, k),
        same_bands(c, d),
    ensures
        same_bands_except(a, d, b, k),
{
    assert forall|b2: nat, k2: HugeBucketBand|
        b2 < HUGE_SIZE_BUCKETS && (b2 != b || k2 != k) implies #[trigger] a.band(b2, k2) == d.band(
        b2,
        k2,
    ) by {
        assert(a.band(b2, k2) == c.band(b2, k2));
        assert(c.band(b2, k2) == d.band(b2, k2));
    }
}

proof fn lemma_same_bands_trans(a: NodeHugePool, c: NodeHugePool, d: NodeHugePool)
    requires
        same_bands(a, c),
        same_bands(c, d),
    ensures
        same_bands(a, d),
{
    assert forall|b2: nat, k2: HugeBucketBand| b2 < HUGE_SIZE_BUCKETS implies #[trigger] a.band(
        b2,
        k2,
    ) == d.band(b2, k2) by {
        assert(a.band(b2, k2) == c.band(b2, k2));
        assert(c.band(b2, k2) == d.band(b2, k2));
    }
}

impl NodeHugePool {
    /// Takes the block `bucket_pick` names in bucket `b` for a request of
    /// `size` bytes whose own bucket is `start`, keeping the node totals.
    #[verifier::rlimit(30)]
    fn take_at(&mut self, b: usize, size: usize, start: usize, requested_band: HugeBucketBand) -> (r:
        Option<SegmentRef>)
        requires
            old(self).wf(),
            b < HUGE_SIZE_BUCKETS,
            start <= b,
            requested_band == band_of(size as nat, start as nat),
        ensures
            final(self).wf(),
            match bucket_pick(
                old(self).band(b as nat, HugeBucketBand::Lower),
                old(self).band(b as nat, HugeBucketBand::Upper),
                b as nat,
                start as nat,
                size as nat,
            ) {
                None => {
                    &&& r is None
                    &&& same_bands(*final(self), *old(self))
                    &&& final(self).spec_total_count() == old(self).spec_total_count()
                    &&& final(self).spec_total_bytes() == old(self).spec_total_bytes()
                },
                Some((k, i)) => {
                    &&& 0 <= i < old(self).band(b as nat, k).len()
                    &&& r == Some(old(self).band(b as nat, k)[i])
                    &&& final(self).band(b as nat, k) == old(self).band(b as nat, k).remove(i)
                    &&& same_bands_except(*final(self), *old(self), b as nat, k)
                    &&& final(self).spec_total_count() + 1 == old(self).spec_total_count()
                    &&& final(self).spec_total_bytes() + old(self).band(b as nat, k)[i].block_size
                        == old(self).spec_total_bytes()
                },
            },
    {
        let ghost gb = b as nat;
        let ghost before = *self;
        proof {
            assert(self.buckets@[b as int].wf(gb));
        }
        let popped = self.buckets[b].take_pick(size, b, start, requested_band);
        proof {
            lemma_sums_update(before.buckets@, b as int, self.buckets@[b as int]);
            assert(self.buckets@ =~= before.buckets@.update(b as int, self.buckets@[b as int]));
            assert forall|b2: nat, k2: HugeBucketBand|
                b2 < HUGE_SIZE_BUCKETS && b2 != gb implies #[trigger] self.band(b2, k2) == before.band(
                b2,
                k2,
            ) by {
                assert(self.buckets@[b2 as int] == before.buckets@[b2 as int]);
            }
            let pick = bucket_pick(
                before.band(gb, HugeBucketBand::Lower),
                before.band(gb, HugeBucketBand::Upper),
                gb,
                start as nat,
                size as nat,
            );
            match pick {
                None => {
                    assert forall|b2: nat, k2: HugeBucketBand| b2 < HUGE_SIZE_BUCKETS implies #[trigger] self.band(
                        b2,
                        k2,
                    ) == before.band(b2, k2) by {
                        if b2 == gb {
                            if k2 == HugeBucketBand::Lower {
                            } else {
                            }
                        }
                    }
                },
                Some((k, i)) => {
                    lemma_total_size_remove(before.band(gb, k), i);
                    assert forall|b2: nat, k2: HugeBucketBand|
                        b2 < HUGE_SIZE_BUCKETS && (b2 != gb || k2 != k) implies #[trigger] self.band(
                        b2,
                        k2,
                    ) == before.band(b2, k2) by {
                        if b2 == gb {
                            if k == HugeBucketBand::Lower {
                                assert(k2 == HugeBucketBand::Upper);
                            } else {
                                assert(k2 == HugeBucketBand::Lower);
                            }
                        }
                    }
                },
            }
        }
        match popped {
            Some(segment) => {
                self.total_count = self.total_count - 1;
                self.total_bytes = self.total_bytes - segment.block_size;
                Some(segment)
            },
            None => None,
        }
    }

    /// Takes the block that `node_pick` names for a request of `size` bytes
    /// whose own bucket is `start`, or reports a miss.
    pub(crate) fn pop_from_node(&mut self, size: usize, start: usize) -> (r: Option<SegmentRef>)
        requires
            old(self).wf(),
            start == bucket_of(size as nat),
        ensures
            final(self).wf(),
            match node_pick(*old(self), start as nat, start as nat, size as nat) {
                None => {
                    &&& r is None
                    &&& same_bands(*final(self), *old(self))
                    &&& final(self).spec_total_count() == old(self).spec_total_count()
                    &&& final(self).spec_total_bytes() == old(self).spec_total_bytes()
                },
                Some((b, k, i)) => {
                    &&& 0 <= i < old(self).band(b, k).len()
                    &&& r == Some(old(self).band(b, k)[i])
                    &&& final(self).band(b, k) == old(self).band(b, k).remove(i)
                    &&& same_bands_except(*final(self), *old(self), b, k)
                    &&& final(self).spec_total_count() + 1 == old(self).spec_total_count()
                    &&& final(self).spec_total_bytes() + old(self).band(b, k)[i].block_size
                        == old(self).spec_total_bytes()
                },
            },
    {
        if self.total_count == 0 {
            proof {
                lemma_zero_count_empty(self.buckets@);
                lemma_node_pick_empty(*self, start as nat, start as nat, size as nat);
            }
            return None;
        }
        let requested_band = huge_bucket_band(size, start);
        let cap_limit = saturating_mul(size, HUGE_POP_FIT_CAP);
        let mut b = start;
        while b < HUGE_SIZE_BUCKETS
            invariant
                self.wf(),
                start == bucket_of(size as nat),
                start < HUGE_SIZE_BUCKETS,
                start <= b,
                requested_band == band_of(size as nat, start as nat),
                cap_limit == (if size * HUGE_POP_FIT_CAP > usize::MAX {
                    usize::MAX as int
                } else {
                    size * HUGE_POP_FIT_CAP
                }),
                same_bands(*self, *old(self)),
                self.spec_total_count() == old(self).spec_total_count(),
                self.spec_total_bytes() == old(self).spec_total_bytes(),
                node_pick(*old(self), start as nat, start as nat, size as nat) == node_pick(
                    *old(self),
                    b as nat,
                    start as nat,
                    size as nat,
                ),
            ensures
                node_pick(*old(self), b as nat, start as nat, size as nat) is None,
                same_bands(*self, *old(self)),
                self.spec_total_count() == old(self).spec_total_count(),
                self.spec_total_bytes() == old(self).spec_total_bytes(),
            decreases HUGE_SIZE_BUCKETS - b,
        {
            if b > start && bucket_lower_bound(b) >= cap_limit {
                proof {
                    lemma_class_floor_bounded(b as nat);
                    assert(!bucket_within_cap(b as nat, start as nat, size as nat));
                }
                break;
            }
            let ghost gb = b as nat;
            let ghost before = *self;
            proof {
                if b > start {
                    lemma_class_floor_bounded(gb);
                }
                assert(bucket_within_cap(gb, start as nat, size as nat));
                assert(before.band(gb, HugeBucketBand::Lower) == old(self).band(gb, HugeBucketBand::Lower));
                assert(before.band(gb, HugeBucketBand::Upper) == old(self).band(gb, HugeBucketBand::Upper));
            }
            let popped = self.take_at(b, size, start, requested_band);
            match popped {
                Some(segment) => {
                    proof {
                        let (k0, i0) = bucket_pick(
                            before.band(gb, HugeBucketBand::Lower),
                            before.band(gb, HugeBucketBand::Upper),
                            gb,
                            start as nat,
                            size as nat,
                        ).unwrap();
                        assert(node_pick(*old(self), gb, start as nat, size as nat) == Some((gb, k0, i0)));
                        assert(before.band(gb, k0) == old(self).band(gb, k0));
                        lemma_same_bands_except_then_same(*self, before, *old(self), gb, k0);
                    }
                    return Some(segment);
                },
                None => {
                    proof {
                        lemma_same_bands_trans(*self, before, *old(self));
                    }
                },
            }
            b = b + 1;
        }
        None
    }
}


/// Blocks of one bucket in detach order: the lower band's chain head first,
/// then the upper band's chain head first.
pub open spec fn bucket_chain(bucket: NodeHugeBucket) -> Seq<SegmentRef> {
    bucket.band(HugeBucketBand::Lower).reverse() + bucket.band(HugeBucketBand::Upper).reverse()
}

/// Blocks of a run of buckets in detach order, lowest bucket first.
pub open spec fn buckets_chain(bs: Seq<NodeHugeBucket>) -> Seq<SegmentRef>
    decreases bs.len(),
{
    if bs.len() == 0 {
        Seq::empty()
    } else {
        buckets_chain(bs.drop_last()) + bucket_chain(bs.last())
    }
}

impl NodeHugeBucket {
    /// Detaches both bands, returning their blocks in detach order and the
    /// bytes they held; the bucket is left empty.
    pub(crate) fn take_all(&mut self, Ghost(b): Ghost<nat>) -> (r: (Vec<SegmentRef>, usize))
        requires
            old(self).wf(b),
        ensures
            final(self).wf(b),
            final(self).band(HugeBucketBand::Lower) == Seq::<SegmentRef>::empty(),
            final(self).band(HugeBucketBand::Upper) == Seq::<SegmentRef>::empty(),
            r.0@ == bucket_chain(*old(self)),
            r.1 == old(self).spec_bytes(),
    {
        let mut chain = self.lower.take_all();
        let upper = self.upper.take_all();
        let mut i: usize = 0;
        let ghost first = chain@;
        while i < upper.len()
            invariant
                i <= upper@.len(),
                chain@ == first + upper@.subrange(0, i as int),
            decreases upper@.len() - i,
        {
            chain.push(upper[i]);
            i = i + 1;
            assert(upper@.subrange(0, i as int) =~= upper@.subrange(0, i - 1).push(upper@[i - 1]));
        }
        assert(upper@.subrange(0, upper@.len() as int) =~= upper@);
        let bytes = self.lower_bytes + self.upper_bytes;
        self.lower_bytes = 0;
        self.upper_bytes = 0;
        proof {
            assert(total_size(Seq::<SegmentRef>::empty()) == 0);
        }
        (chain, bytes)
    }
}

impl NodeHugePool {
    /// Detaches every retained block of the node, lowest bucket first, and
    /// leaves the node empty.
    pub(crate) fn take_all(&mut self) -> (blocks: Vec<SegmentRef>)
        requires
            old(self).wf(),
        ensures
            final(self).wf(),
            final(self).spec_total_count() == 0,
            final(self).spec_total_bytes() == 0,
            forall|b: nat, k: HugeBucketBand|
                b < HUGE_SIZE_BUCKETS ==> #[trigger] final(self).band(b, k) == Seq::<
                    SegmentRef,
                >::empty(),
            blocks@ == old(self).spec_chain(),
    {
        let mut blocks: Vec<SegmentRef> = Vec::new();
        let mut b: usize = 0;
        let ghost orig = self.buckets@;
        while b < HUGE_SIZE_BUCKETS
            invariant
                b <= HUGE_SIZE_BUCKETS,
                self.buckets@.len() == HUGE_SIZE_BUCKETS,
                orig.len() == HUGE_SIZE_BUCKETS,
                forall|j: int| 0 <= j < HUGE_SIZE_BUCKETS ==> (#[trigger] self.buckets@[j]).wf(j as nat),
                forall|j: int| b <= j < HUGE_SIZE_BUCKETS ==> #[trigger] self.buckets@[j] == orig[j],
                forall|j: int, k: HugeBucketBand|
                    0 <= j < b ==> (#[trigger] self.buckets@[j].band(k)) == Seq::<SegmentRef>::empty(),
                blocks@ == buckets_chain(orig.subrange(0, b as int)),
                forall|j: int| 0 <= j < HUGE_SIZE_BUCKETS ==> (#[trigger] orig[j]).wf(j as nat),
            decreases HUGE_SIZE_BUCKETS - b,
        {
            let ghost gb = b as nat;
            let (chain, _bytes) = self.buckets[b].take_all(Ghost(gb));
            let mut i: usize = 0;
            let ghost first = blocks@;
            while i < chain.len()
                invariant
                    i <= chain@.len(),
                    blocks@ == first + chain@.subrange(0, i as int),
                decreases chain@.len() - i,
            {
                blocks.push(chain[i]);
                i = i + 1;
                assert(chain@.subrange(0, i as int) =~= chain@.subrange(0, i - 1).push(chain@[i - 1]));
            }
            assert(chain@.subrange(0, chain@.len() as int) =~= chain@);
            assert(orig.subrange(0, b + 1).drop_last() =~= orig.subrange(0, b as int));
            b = b + 1;
        }
        assert(orig.subrange(0, HUGE_SIZE_BUCKETS as int) =~= orig);
        proof {
            lemma_sums_of_empty(self.buckets@);
        }
        self.total_count = 0;
        self.total_bytes = 0;
        blocks
    }
}

/// Buckets whose bands are all empty sum to nothing.
proof fn lemma_sums_of_empty(bs: Seq<NodeHugeBucket>)
    requires
        forall|j: int, k: HugeBucketBand|
            0 <= j < bs.len() ==> (#[trigger] bs[j].band(k)) == Seq::<SegmentRef>::empty(),
    ensures
        sum_count(bs) == 0,
        sum_bytes(bs) == 0,
    decreases bs.len(),
{
    if bs.len() > 0 {
        assert forall|j: int, k: HugeBucketBand| 0 <= j < bs.drop_last().len() implies (
        #[trigger] bs.drop_last()[j].band(k)) == Seq::<SegmentRef>::empty() by {
            assert(bs.drop_last()[j] == bs[j]);
        }
        lemma_sums_of_empty(bs.drop_last());
        assert(bs.last().band(HugeBucketBand::Lower) == Seq::<SegmentRef>::empty());
        assert(bs.last().band(HugeBucketBand::Upper) == Seq::<SegmentRef>::empty());
        assert(total_size(Seq::<SegmentRef>::empty()) == 0);
    }
}


/// A block `node_pick` names holds at least the requested bytes, and when it
/// comes from a bucket above the request's own it is less than
/// `2 * HUGE_POP_FIT_CAP` times the request.
pub proof fn lemma_node_pick_fits(node: NodeHugePool, from: nat, start: nat, size: nat)
    requires
        node.wf(),
        start == bucket_of(size),
        start <= from,
    ensures
        node_pick(node, from, start, size) matches Some((b, k, i)) ==> {
            &&& b < HUGE_SIZE_BUCKETS
            &&& 0 <= i < node.band(b, k).len()
            &&& node.band(b, k)[i].block_size >= size
            &&& (b == start || node.band(b, k)[i].block_size < 2 * HUGE_POP_FIT_CAP * size)
        },
    decreases HUGE_SIZE_BUCKETS - from,
{
    if from < HUGE_SIZE_BUCKETS && bucket_within_cap(from, start, size) {
        let lower = node.band(from, HugeBucketBand::Lower);
        let upper = node.band(from, HugeBucketBand::Upper);
        assert(node.buckets@[from as int].wf(from));
        node.buckets@[from as int].lemma_wf_bounds(from);
        lemma_fit_index(lower, size);
        lemma_fit_index(upper, size);
        match bucket_pick(lower, upper, from, start, size) {
            Some((k, i)) => {
                if from != start {
                    let s = node.band(from, k);
                    let block = s[i].block_size as nat;
                    assert(fits_slot(block, from, k));
                    lemma_higher_bucket_block_fits(block, size, from, start);
                }
            },
            None => {
                lemma_node_pick_fits(node, from + 1, start, size);
            },
        }
    }
}

/// A block filed in bucket `b` above the request's own bucket `start`, with
/// `b` within the fit cap, holds at least `size` bytes and less than
/// `2 * HUGE_POP_FIT_CAP * size`.
proof fn lemma_higher_bucket_block_fits(block: nat, size: nat, b: nat, start: nat)
    requires
        block <= MAX_CACHED_HUGE_SIZE,
        bucket_of(block) == b,
        start == bucket_of(size),
        start < b,
        b < HUGE_SIZE_BUCKETS,
        class_floor(b) < size * HUGE_POP_FIT_CAP,
    ensures
        block >= size,
        block < 2 * HUGE_POP_FIT_CAP * size,
{
    if block < size {
        lemma_size_class_monotone(block, size);
    }
    lemma_bucket_count_matches_max_cached_size();
    lemma_size_class_monotone(block, MAX_CACHED_HUGE_SIZE as nat);
    assert(size_class(block) == b);
    if block <= HUGE_BUCKET0_LIMIT {
        assert(size_class(block) == 0);
    }
    lemma_size_class_bounds(block);
    assert(block <= 2 * class_floor(b));
    assert(class_floor(b) < size * 4);
    assert(block < 8 * size);
    assert(2 * HUGE_POP_FIT_CAP * size == 8 * size);
}

/// Where a pop for `size` bytes starting at NUMA bucket `start_node` lands:
/// the first node in visiting order (the start node, then the others with
/// wrap-around) for which `node_pick` names a block, with that block.
pub open spec fn pool_pick(pool: GlobalHugePool, size: nat, start_node: nat, offset: nat) -> Option<
    (nat, nat, HugeBucketBand, int),
>
    decreases NUMA_BUCKETS - offset,
{
    if offset >= NUMA_BUCKETS {
        None
    } else {
        let n = visit_bucket(start_node, offset);
        match node_pick(pool.node(n), bucket_of(size), bucket_of(size), size) {
            Some((b, k, i)) => Some((n, b, k, i)),
            None => pool_pick(pool, size, start_node, offset + 1),
        }
    }
}

/// A NUMA-aware pool of free huge blocks: one node pool per NUMA bucket.
pub struct GlobalHugePool {
    nodes: Vec<NodeHugePool>,
}

/// Blocks retained across a sequence of node pools.
pub open spec fn nodes_count(ns: Seq<NodeHugePool>) -> nat
    decreases ns.len(),
{
    if ns.len() == 0 {
        0
    } else {
        nodes_count(ns.drop_last()) + ns.last().spec_total_count()
    }
}

/// Bytes retained across a sequence of node pools.
pub open spec fn nodes_bytes(ns: Seq<NodeHugePool>) -> nat
    decreases ns.len(),
{
    if ns.len() == 0 {
        0
    } else {
        nodes_bytes(ns.drop_last()) + ns.last().spec_total_bytes()
    }
}

/// Blocks of a sequence of node pools in detach order, lowest node first.
pub open spec fn nodes_chain(ns: Seq<NodeHugePool>) -> Seq<SegmentRef>
    decreases ns.len(),
{
    if ns.len() == 0 {
        Seq::empty()
    } else {
        nodes_chain(ns.drop_last()) + ns.last().spec_chain()
    }
}

proof fn lemma_nodes_update(ns: Seq<NodeHugePool>, i: int, x: NodeHugePool)
    requires
        0 <= i < ns.len(),
    ensures
        nodes_count(ns.update(i, x)) + ns[i].spec_total_count() == nodes_count(ns)
            + x.spec_total_count(),
        nodes_bytes(ns.update(i, x)) + ns[i].spec_total_bytes() == nodes_bytes(ns)
            + x.spec_total_bytes(),
    decreases ns.len(),
{
    if i < ns.len() - 1 {
        lemma_nodes_update(ns.drop_last(), i, x);
        assert(ns.update(i, x).drop_last() =~= ns.drop_last().update(i, x));
    } else {
        assert(ns.update(i, x).drop_last() =~= ns.drop_last());
    }
}

impl GlobalHugePool {
    /// Bounded maximum number of huge blocks cached per size bucket.
    pub const MAX_CACHED_HUGE_BLOCKS: usize = 1024;

    /// Largest huge-block size the cache retains (16 MiB).
    pub const MAX_CACHED_HUGE_SIZE: usize = 16777216;

    /// Per-bucket retained-byte budget (256 MiB).
    pub const MAX_CACHED_HUGE_BYTES_PER_BUCKET: usize = 268435456;

    /// The pool of NUMA bucket `n`.
    pub closed spec fn node(&self, n: nat) -> NodeHugePool {
        self.nodes@[n as int]
    }

    /// Blocks retained in band `k` of bucket `b` on NUMA bucket `n`, bottom first.
    pub open spec fn slot(&self, n: nat, b: nat, k: HugeBucketBand) -> Seq<SegmentRef> {
        self.node(n).band(b, k)
    }

    /// One well-formed node pool per NUMA bucket.
    pub closed spec fn wf(&self) -> bool {
        &&& self.nodes@.len() == NUMA_BUCKETS
        &&& forall|n: int| 0 <= n < NUMA_BUCKETS ==> (#[trigger] self.nodes@[n]).wf()
    }

    /// Blocks retained across all nodes.
    pub closed spec fn spec_retained_blocks(&self) -> nat {
        nodes_count(self.nodes@)
    }

    /// Bytes retained across all nodes.
    pub closed spec fn spec_retained_bytes(&self) -> nat {
        nodes_bytes(self.nodes@)
    }

    /// Every retained block in detach order: node by node, bucket by bucket,
    /// lower band before upper band, each band head first.
    pub closed spec fn spec_chain(&self) -> Seq<SegmentRef> {
        nodes_chain(self.nodes@)
    }

    /// Creates an empty pool with one node pool per NUMA bucket.
    pub fn new() -> (pool: GlobalHugePool)
        ensures
            pool.wf(),
            pool.spec_retained_blocks() == 0,
            pool.spec_retained_bytes() == 0,
            forall|n: nat, b: nat, k: HugeBucketBand|
                n < NUMA_BUCKETS && b < HUGE_SIZE_BUCKETS ==> #[trigger] pool.slot(n, b, k)
                    == Seq::<SegmentRef>::empty(),
    {
        let mut nodes: Vec<NodeHugePool> = Vec::new();
        let mut i: usize = 0;
        while i < NUMA_BUCKETS
            invariant
                i <= NUMA_BUCKETS,
                nodes@.len() == i,
                forall|n: int| 0 <= n < i ==> (#[trigger] nodes@[n]).wf(),
                forall|n: int, b: nat, k: HugeBucketBand|
                    0 <= n < i && b < HUGE_SIZE_BUCKETS ==> #[trigger] nodes@[n].band(b, k)
                        == Seq::<SegmentRef>::empty(),
                nodes_count(nodes@) == 0,
                nodes_bytes(nodes@) == 0,
            decreases NUMA_BUCKETS - i,
        {
            let node = NodeHugePool::new();
            proof {
                assert(nodes@.push(node).drop_last() =~= nodes@);
            }
            nodes.push(node);
            i = i + 1;
        }
        GlobalHugePool { nodes }
    }
}


/// `a` and `c` hold the same blocks in every slot except possibly band `k`
/// of bucket `b` on NUMA bucket `n`.
pub open spec fn same_slots_except(
    a: GlobalHugePool,
    c: GlobalHugePool,
    n: nat,
    b: nat,
    k: HugeBucketBand,
) -> bool {
    forall|n2: nat, b2: nat, k2: HugeBucketBand|
        n2 < NUMA_BUCKETS && b2 < HUGE_SIZE_BUCKETS && (n2 != n || b2 != b || k2 != k)
            ==> #[trigger] a.slot(n2, b2, k2) == c.slot(n2, b2, k2)
}

/// `a` and `c` hold the same blocks in every slot.
pub open spec fn same_slots(a: GlobalHugePool, c: GlobalHugePool) -> bool {
    forall|n2: nat, b2: nat, k2: HugeBucketBand|
        n2 < NUMA_BUCKETS && b2 < HUGE_SIZE_BUCKETS ==> #[trigger] a.slot(n2, b2, k2) == c.slot(
            n2,
            b2,
            k2,
        )
}

/// The pool admits a block of `size` bytes pushed from NUMA node `numa_node`:
/// its size is cacheable and its node's bucket and band have room.
pub open spec fn pool_admits(pool: GlobalHugePool, size: nat, numa_node: nat) -> bool {
    node_admits(pool.node(spec_numa_bucket(numa_node)), size)
}

impl GlobalHugePool {
    /// Caches a free huge block if its bucket has room, returning whether it
    /// was cached; a refused block stays with the caller.
    ///
    /// The block goes to the node pool of `numa_node`'s bucket, into the size
    /// bucket and band of its `block_size`, where it becomes that band's head.
    pub fn try_push(&mut self, segment: SegmentRef, numa_node: usize) -> (pushed: bool)
        requires
            old(self).wf(),
            numa_node <= u32::MAX,
        ensures
            final(self).wf(),
            pushed == pool_admits(*old(self), segment.block_size as nat, numa_node as nat),
            pushed ==> ({
                let n = spec_numa_bucket(numa_node as nat);
                let b = bucket_of(segment.block_size as nat);
                let k = band_of(segment.block_size as nat, b);
                &&& final(self).slot(n, b, k) == old(self).slot(n, b, k).push(segment)
                &&& same_slots_except(*final(self), *old(self), n, b, k)
                &&& final(self).spec_retained_blocks() == old(self).spec_retained_blocks() + 1
                &&& final(self).spec_retained_bytes() == old(self).spec_retained_bytes()
                    + segment.block_size
            }),
            !pushed ==> same_slots(*final(self), *old(self)) && final(self).spec_retained_blocks()
                == old(self).spec_retained_blocks() && final(self).spec_retained_bytes() == old(
                self,
            ).spec_retained_bytes(),
    {
        let node = bucket_from_usize(numa_node);
        let ghost before = self.nodes@;
        proof {
            assert(self.nodes@[node as int].wf());
        }
        let pushed = self.nodes[node].try_push(segment);
        proof {
            lemma_nodes_update(before, node as int, self.nodes@[node as int]);
            assert(self.nodes@ =~= before.update(node as int, self.nodes@[node as int]));
            let b = bucket_of(segment.block_size as nat);
            let k = band_of(segment.block_size as nat, b);
            assert forall|n2: nat, b2: nat, k2: HugeBucketBand|
                n2 < NUMA_BUCKETS && b2 < HUGE_SIZE_BUCKETS && (n2 != node || b2 != b || k2 != k) implies #[trigger] self.slot(n2, b2, k2) == old(self).slot(n2, b2, k2) by {
                if n2 != node {
                    assert(self.nodes@[n2 as int] == before[n2 as int]);
                }
            }
        }
        pushed
    }

    /// Takes a cached block holding at least `size` bytes, preferring the
    /// node pool of `numa_node`'s bucket and stealing from the others in
    /// wrap-around order on a miss.
    ///
    /// Within a node the request's own size bucket is searched first (its
    /// topmost fitting block, walking past undersized heads, which stay
    /// cached in their order); higher buckets serve their head block only
    /// while their smallest possible block stays under `HUGE_POP_FIT_CAP`
    /// times the request, so a hit from a higher bucket is less than
    /// `2 * HUGE_POP_FIT_CAP` times the request.
    pub fn pop(&mut self, size: usize, numa_node: usize) -> (r: Option<SegmentRef>)
        requires
            old(self).wf(),
            numa_node <= u32::MAX,
        ensures
            final(self).wf(),
            match pool_pick(*old(self), size as nat, spec_numa_bucket(numa_node as nat), 0) {
                None => {
                    &&& r is None
                    &&& same_slots(*final(self), *old(self))
                    &&& final(self).spec_retained_blocks() == old(self).spec_retained_blocks()
                    &&& final(self).spec_retained_bytes() == old(self).spec_retained_bytes()
                },
                Some((n, b, k, i)) => {
                    &&& r == Some(old(self).slot(n, b, k)[i])
                    &&& final(self).slot(n, b, k) == old(self).slot(n, b, k).remove(i)
                    &&& same_slots_except(*final(self), *old(self), n, b, k)
                    &&& final(self).spec_retained_blocks() + 1 == old(self).spec_retained_blocks()
                    &&& final(self).spec_retained_bytes() + old(self).slot(n, b, k)[i].block_size
                        == old(self).spec_retained_bytes()
                },
            },
            r matches Some(block) ==> block.block_size >= size && (bucket_of(block.block_size as nat)
                == bucket_of(size as nat) || block.block_size < 2 * HUGE_POP_FIT_CAP * size),
    {
        let start_node = bucket_from_usize(numa_node);
        let bucket_idx = huge_bucket_index(size);
        let mut offset: usize = 0;
        while offset < NUMA_BUCKETS
            invariant
                self.wf(),
                old(self).wf(),
                start_node == spec_numa_bucket(numa_node as nat),
                start_node < NUMA_BUCKETS,
                bucket_idx == bucket_of(size as nat),
                offset <= NUMA_BUCKETS,
                same_slots(*self, *old(self)),
                self.spec_retained_blocks() == old(self).spec_retained_blocks(),
                self.spec_retained_bytes() == old(self).spec_retained_bytes(),
                pool_pick(*old(self), size as nat, start_node as nat, 0) == pool_pick(
                    *old(self),
                    size as nat,
                    start_node as nat,
                    offset as nat,
                ),
            decreases NUMA_BUCKETS - offset,
        {
            let node = (start_node + offset) % NUMA_BUCKETS;
            let ghost before = *self;
            proof {
                assert(self.nodes@[node as int].wf());
                assert(same_bands(self.node(node as nat), old(self).node(node as nat))) by {
                    assert forall|b2: nat, k2: HugeBucketBand| b2 < HUGE_SIZE_BUCKETS implies #[trigger] self.node(node as nat).band(b2, k2) == old(self).node(node as nat).band(b2, k2) by {
                        assert(self.slot(node as nat, b2, k2) == old(self).slot(node as nat, b2, k2));
                    }
                }
                lemma_node_pick_same_bands(self.node(node as nat), old(self).node(node as nat), bucket_idx as nat, bucket_idx as nat, size as nat);
                assert(old(self).nodes@[node as int].wf());
                lemma_node_pick_fits(old(self).node(node as nat), bucket_idx as nat, bucket_idx as nat, size as nat);
            }
            let popped = self.nodes[node].pop_from_node(size, bucket_idx);
            proof {
                lemma_nodes_update(before.nodes@, node as int, self.nodes@[node as int]);
                assert(self.nodes@ =~= before.nodes@.update(node as int, self.nodes@[node as int]));
                assert forall|n2: nat, b2: nat, k2: HugeBucketBand|
                    n2 < NUMA_BUCKETS && b2 < HUGE_SIZE_BUCKETS && n2 != node implies #[trigger] self.slot(n2, b2, k2) == before.slot(n2, b2, k2) by {
                    assert(self.nodes@[n2 as int] == before.nodes@[n2 as int]);
                }
            }
            match popped {
                Some(segment) => {
                    proof {
                        let (b0, k0, i0) = node_pick(before.node(node as nat), bucket_idx as nat, bucket_idx as nat, size as nat).unwrap();
                        assert(pool_pick(*old(self), size as nat, start_node as nat, offset as nat) == Some((node as nat, b0, k0, i0)));
                        assert forall|n2: nat, b2: nat, k2: HugeBucketBand|
                            n2 < NUMA_BUCKETS && b2 < HUGE_SIZE_BUCKETS && (n2 != node || b2 != b0 || k2 != k0) implies #[trigger] self.slot(n2, b2, k2) == old(self).slot(n2, b2, k2) by {
                            assert(before.slot(n2, b2, k2) == old(self).slot(n2, b2, k2));
                            if n2 == node {
                                assert(self.node(node as nat).band(b2, k2) == before.node(node as nat).band(b2, k2));
                            }
                        }
                        assert(before.slot(node as nat, b0, k0) == old(self).slot(node as nat, b0, k0));
                    }
                    return Some(segment);
                },
                None => {
                    proof {
                        assert forall|n2: nat, b2: nat, k2: HugeBucketBand|
                            n2 < NUMA_BUCKETS && b2 < HUGE_SIZE_BUCKETS implies #[trigger] self.slot(n2, b2, k2) == old(self).slot(n2, b2, k2) by {
                            assert(before.slot(n2, b2, k2) == old(self).slot(n2, b2, k2));
                            if n2 == node {
                                assert(self.node(node as nat).band(b2, k2) == before.node(node as nat).band(b2, k2));
                            }
                        }
                    }
                },
            }
            offset = offset + 1;
        }
        None
    }
}

/// `node_pick` depends only on the blocks in the node's bands.
proof fn lemma_node_pick_same_bands(a: NodeHugePool, c: NodeHugePool, from: nat, start: nat, size: nat)
    requires
        same_bands(a, c),
    ensures
        node_pick(a, from, start, size) == node_pick(c, from, start, size),
    decreases HUGE_SIZE_BUCKETS - from,
{
    if from < HUGE_SIZE_BUCKETS && bucket_within_cap(from, start, size) {
        assert(a.band(from, HugeBucketBand::Lower) == c.band(from, HugeBucketBand::Lower));
        assert(a.band(from, HugeBucketBand::Upper) == c.band(from, HugeBucketBand::Upper));
        lemma_node_pick_same_bands(a, c, from + 1, start, size);
    }
}


impl NodeHugePool {
    proof fn lemma_totals_bounded(&self)
        requires
            self.wf(),
        ensures
            self.spec_total_count() <= HUGE_SIZE_BUCKETS * MAX_CACHED_HUGE_BLOCKS,
            self.spec_total_bytes() <= HUGE_SIZE_BUCKETS * (2 * MAX_CACHED_HUGE_BYTES_PER_BAND),
    {
        lemma_sums_bounded(self.buckets@);
    }
}

impl GlobalHugePool {
    /// Number of huge blocks retained across all NUMA nodes.
    pub fn retained_blocks(&self) -> (n: usize)
        requires
            self.wf(),
        ensures
            n == self.spec_retained_blocks(),
    {
        let mut total: usize = 0;
        let mut i: usize = 0;
        while i < NUMA_BUCKETS
            invariant
                self.wf(),
                i <= NUMA_BUCKETS,
                total == nodes_count(self.nodes@.subrange(0, i as int)),
                total <= i * 11264,
            decreases NUMA_BUCKETS - i,
        {
            proof {
                assert(self.nodes@[i as int].wf());
                self.nodes@[i as int].lemma_totals_bounded();
                assert(HUGE_SIZE_BUCKETS * MAX_CACHED_HUGE_BLOCKS == 11264);
                assert(self.nodes@.subrange(0, i + 1).drop_last() =~= self.nodes@.subrange(0, i as int));
            }
            total = total + self.nodes[i].total_count();
            i = i + 1;
        }
        assert(self.nodes@.subrange(0, NUMA_BUCKETS as int) =~= self.nodes@);
        total
    }

    /// Bytes of huge blocks retained across all NUMA nodes, saturating at
    /// `usize::MAX` on targets whose word cannot hold the sum.
    pub fn retained_bytes(&self) -> (n: usize)
        requires
            self.wf(),
        ensures
            n == (if self.spec_retained_bytes() > usize::MAX {
                usize::MAX as nat
            } else {
                self.spec_retained_bytes()
            }),
    {
        let mut total: usize = 0;
        let mut i: usize = 0;
        while i < NUMA_BUCKETS
            invariant
                self.wf(),
                i <= NUMA_BUCKETS,
                total == (if nodes_bytes(self.nodes@.subrange(0, i as int)) > usize::MAX {
                    usize::MAX as nat
                } else {
                    nodes_bytes(self.nodes@.subrange(0, i as int))
                }),
            decreases NUMA_BUCKETS - i,
        {
            proof {
                assert(self.nodes@[i as int].wf());
                assert(self.nodes@.subrange(0, i + 1).drop_last() =~= self.nodes@.subrange(0, i as int));
            }
            total = total.saturating_add(self.nodes[i].total_bytes());
            i = i + 1;
        }
        assert(self.nodes@.subrange(0, NUMA_BUCKETS as int) =~= self.nodes@);
        total
    }

    /// Detaches every retained block, node by node and bucket by bucket, and
    /// leaves the pool empty; the caller releases the returned blocks.
    pub fn purge(&mut self) -> (blocks: Vec<SegmentRef>)
        requires
            old(self).wf(),
        ensures
            final(self).wf(),
            blocks@ == old(self).spec_chain(),
            final(self).spec_retained_blocks() == 0,
            final(self).spec_retained_bytes() == 0,
            forall|n: nat, b: nat, k: HugeBucketBand|
                n < NUMA_BUCKETS && b < HUGE_SIZE_BUCKETS ==> #[trigger] final(self).slot(n, b, k)
                    == Seq::<SegmentRef>::empty(),
    {
        let mut blocks: Vec<SegmentRef> = Vec::new();
        let mut n: usize = 0;
        let ghost orig = self.nodes@;
        while n < NUMA_BUCKETS
            invariant
                n <= NUMA_BUCKETS,
                self.nodes@.len() == NUMA_BUCKETS,
                orig.len() == NUMA_BUCKETS,
                forall|j: int| 0 <= j < NUMA_BUCKETS ==> (#[trigger] self.nodes@[j]).wf(),
                forall|j: int| n <= j < NUMA_BUCKETS ==> #[trigger] self.nodes@[j] == orig[j],
                forall|j: int|
                    0 <= j < n ==> (#[trigger] self.nodes@[j]).spec_total_count() == 0
                        && self.nodes@[j].spec_total_bytes() == 0,
                forall|j: int, b: nat, k: HugeBucketBand|
                    0 <= j < n && b < HUGE_SIZE_BUCKETS ==> (#[trigger] self.nodes@[j].band(b, k))
                        == Seq::<SegmentRef>::empty(),
                blocks@ == nodes_chain(orig.subrange(0, n as int)),
            decreases NUMA_BUCKETS - n,
        {
            let chain = self.nodes[n].take_all();
            let mut i: usize = 0;
            let ghost first = blocks@;
            while i < chain.len()
                invariant
                    i <= chain@.len(),
                    blocks@ == first + chain@.subrange(0, i as int),
                decreases chain@.len() - i,
            {
                blocks.push(chain[i]);
                i = i + 1;
                assert(chain@.subrange(0, i as int) =~= chain@.subrange(0, i - 1).push(chain@[i - 1]));
            }
            assert(chain@.subrange(0, chain@.len() as int) =~= chain@);
            assert(orig.subrange(0, n + 1).drop_last() =~= orig.subrange(0, n as int));
            n = n + 1;
        }
        assert(orig.subrange(0, NUMA_BUCKETS as int) =~= orig);
        proof {
            lemma_nodes_empty(self.nodes@);
        }
        blocks
    }
}

proof fn lemma_nodes_empty(ns: Seq<NodeHugePool>)
    requires
        forall|j: int|
            0 <= j < ns.len() ==> (#[trigger] ns[j]).spec_total_count() == 0
                && ns[j].spec_total_bytes() == 0,
    ensures
        nodes_count(ns) == 0,
        nodes_bytes(ns) == 0,
    decreases ns.len(),
{
    if ns.len() > 0 {
        assert forall|j: int| 0 <= j < ns.drop_last().len() implies (#[trigger] ns.drop_last()[j]).spec_total_count() == 0 && ns.drop_last()[j].spec_total_bytes() == 0 by {
            assert(ns.drop_last()[j] == ns[j]);
        }
        lemma_nodes_empty(ns.drop_last());
        assert(ns.last() == ns[ns.len() - 1]);
    }
}

} // verus!

verus! {

/// The huge-block cache never exceeds its budgets: in every well-formed
/// pool, each size bucket of each NUMA node holds at most
/// `MAX_CACHED_HUGE_BLOCKS` blocks and at most
/// `MAX_CACHED_HUGE_BYTES_PER_BUCKET` bytes, and every block it holds is
/// no larger than `MAX_CACHED_HUGE_SIZE` and sits in its own bucket and band.
pub proof fn law_huge_cache_respects_its_budgets(pool: GlobalHugePool, n: nat, b: nat)
    requires
        pool.wf(),
        n < NUMA_BUCKETS,
        b < HUGE_SIZE_BUCKETS,
    ensures
        pool.slot(n, b, HugeBucketBand::Lower).len() + pool.slot(n, b, HugeBucketBand::Upper).len()
            <= MAX_CACHED_HUGE_BLOCKS,
        total_size(pool.slot(n, b, HugeBucketBand::Lower)) + total_size(
            pool.slot(n, b, HugeBucketBand::Upper),
        ) <= MAX_CACHED_HUGE_BYTES_PER_BUCKET,
        all_fit_slot(pool.slot(n, b, HugeBucketBand::Lower), b, HugeBucketBand::Lower),
        all_fit_slot(pool.slot(n, b, HugeBucketBand::Upper), b, HugeBucketBand::Upper),
{
    let node = pool.nodes@[n as int];
    assert(node.wf());
    let bucket = node.buckets@[b as int];
    assert(bucket.wf(b));
    bucket.lemma_wf_bounds(b);
}

} // verus!

verus! {

/// A bucket's totals are those of its detach-order chain.
proof fn lemma_bucket_totals(bucket: NodeHugeBucket)
    ensures
        bucket.spec_bytes() == total_size(bucket_chain(bucket)),
        bucket.spec_count() == bucket_chain(bucket).len(),
{
    let lo = bucket.band(HugeBucketBand::Lower);
    let up = bucket.band(HugeBucketBand::Upper);
    lemma_total_size_reverse(lo);
    lemma_total_size_reverse(up);
    crate::segment::stack::lemma_total_size_concat(lo.reverse(), up.reverse());
}

/// A run of buckets' totals are those of its chain.
proof fn lemma_buckets_totals(bs: Seq<NodeHugeBucket>)
    ensures
        sum_bytes(bs) == total_size(buckets_chain(bs)),
        sum_count(bs) == buckets_chain(bs).len(),
    decreases bs.len(),
{
    if bs.len() > 0 {
        lemma_buckets_totals(bs.drop_last());
        lemma_bucket_totals(bs.last());
        crate::segment::stack::lemma_total_size_concat(
            buckets_chain(bs.drop_last()),
            bucket_chain(bs.last()),
        );
    }
}

/// A run of node pools' totals are those of its chain.
proof fn lemma_nodes_totals(ns: Seq<NodeHugePool>)
    ensures
        nodes_bytes(ns) == total_size(nodes_chain(ns)),
        nodes_count(ns) == nodes_chain(ns).len(),
    decreases ns.len(),
{
    if ns.len() > 0 {
        lemma_nodes_totals(ns.drop_last());
        lemma_buckets_totals(ns.last().buckets@);
        crate::segment::stack::lemma_total_size_concat(
            nodes_chain(ns.drop_last()),
            ns.last().spec_chain(),
        );
    }
}

/// The cache's retained totals are those of the blocks it holds: the
/// retained bytes are the sum of the sizes of all cached blocks, and the
/// retained block count is their number.
pub proof fn law_retained_totals_are_the_cached_blocks(pool: GlobalHugePool)
    ensures
        pool.spec_retained_bytes() == total_size(pool.spec_chain()),
        pool.spec_retained_blocks() == pool.spec_chain().len(),
{
    lemma_nodes_totals(pool.nodes@);
}


/// Within every bucket of every node the lower band holds only blocks of at
/// most the bucket's midpoint, and the upper band only blocks above it.
pub proof fn law_bands_split_at_midpoint(pool: GlobalHugePool, n: nat, b: nat, i: int)
    requires
        pool.wf(),
        n < NUMA_BUCKETS,
        b < HUGE_SIZE_BUCKETS,
    ensures
        0 <= i < pool.slot(n, b, HugeBucketBand::Lower).len() ==> pool.slot(
            n,
            b,
            HugeBucketBand::Lower,
        )[i].block_size <= bucket_midpoint(b),
        0 <= i < pool.slot(n, b, HugeBucketBand::Upper).len() ==> pool.slot(
            n,
            b,
            HugeBucketBand::Upper,
        )[i].block_size > bucket_midpoint(b),
{
    assert(pool.nodes@[n as int].wf());
    assert(pool.node(n).buckets@[b as int].wf(b));
    pool.node(n).buckets@[b as int].lemma_wf_bounds(b);
    if 0 <= i < pool.slot(n, b, HugeBucketBand::Lower).len() {
        assert(fits_slot(pool.slot(n, b, HugeBucketBand::Lower)[i].block_size as nat, b, HugeBucketBand::Lower));
    }
    if 0 <= i < pool.slot(n, b, HugeBucketBand::Upper).len() {
        assert(fits_slot(pool.slot(n, b, HugeBucketBand::Upper)[i].block_size as nat, b, HugeBucketBand::Upper));
    }
}

/// A node whose bucket for `size` holds a block of at least `size` bytes
/// serves the request.
proof fn lemma_node_pick_complete(node: NodeHugePool, size: nat, k: HugeBucketBand, i: int)
    requires
        node.wf(),
        0 <= i < node.band(bucket_of(size), k).len(),
        node.band(bucket_of(size), k)[i].block_size >= size,
    ensures
        node_pick(node, bucket_of(size), bucket_of(size), size) is Some,
{
    let s = bucket_of(size);
    assert(s < HUGE_SIZE_BUCKETS);
    let lower = node.band(s, HugeBucketBand::Lower);
    let upper = node.band(s, HugeBucketBand::Upper);
    assert(node.buckets@[s as int].wf(s));
    node.buckets@[s as int].lemma_wf_bounds(s);
    lemma_fit_index(lower, size);
    lemma_fit_index(upper, size);
    match k {
        HugeBucketBand::Lower => {
            assert(fits_slot(lower[i].block_size as nat, s, HugeBucketBand::Lower));
            assert(fit_index(lower, size) >= i);
            assert(band_of(size, s) == HugeBucketBand::Lower);
        },
        HugeBucketBand::Upper => {
            assert(fit_index(upper, size) >= i);
        },
    }
}

/// A pop visiting nodes from offset `offset` on reaches every node it has
/// not yet passed, and so lands somewhere when one of those can serve it.
proof fn lemma_pool_pick_reaches(pool: GlobalHugePool, size: nat, start: nat, offset: nat, o: nat)
    requires
        offset <= o < NUMA_BUCKETS,
        node_pick(pool.node(visit_bucket(start, o)), bucket_of(size), bucket_of(size), size) is Some,
    ensures
        pool_pick(pool, size, start, offset) is Some,
    decreases o - offset,
{
    if offset < o {
        lemma_pool_pick_reaches(pool, size, start, offset + 1, o);
    }
}

/// A pop is never refused while any node holds, in the request's own size
/// bucket, a block of at least the requested size: whichever band that
/// block was filed in, the search of its bucket finds a fitting block.
pub proof fn law_pop_finds_a_fitting_block_in_its_bucket(
    pool: GlobalHugePool,
    size: nat,
    start_node: nat,
    n: nat,
    k: HugeBucketBand,
    i: int,
)
    requires
        pool.wf(),
        start_node < NUMA_BUCKETS,
        n < NUMA_BUCKETS,
        0 <= i < pool.slot(n, bucket_of(size), k).len(),
        pool.slot(n, bucket_of(size), k)[i].block_size >= size,
    ensures
        pool_pick(pool, size, start_node, 0) is Some,
{
    assert(pool.nodes@[n as int].wf());
    lemma_node_pick_complete(pool.node(n), size, k, i);
    let o: nat = ((n + NUMA_BUCKETS - start_node) % (NUMA_BUCKETS as int)) as nat;
    assert(visit_bucket(start_node, o) == n);
    lemma_pool_pick_reaches(pool, size, start_node, 0, o);
}

} // verus!
