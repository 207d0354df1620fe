//! Layout of large and huge allocations: how big a mapping a request needs,
//! where the segment header, the back-pointer slot and the user block sit in
//! it, and the header checks a release performs.

use crate::align::{
    align_up_bits, checked_align_up, is_pow2, is_power_of_two, lemma_align_up_is_round_up,
};
use crate::segment::huge_pool::{
    GlobalHugePool, band_of, bucket_of, pool_admits, pool_pick, same_slots, same_slots_except,
};
use crate::segment::numa::{NUMA_BUCKETS, spec_numa_bucket};
use crate::segment::segment_pool::{
    AcquiredSegment, GlobalSegmentPool, allocate_segment_from_pools, deallocate_segment, steal_pick,
};
use crate::segment::stack::SegmentRef;
use crate::segment::stats::SegmentRelease;
use vstd::prelude::*;

verus! {

/// Sizes that shape every large or huge mapping.
#[derive(Clone, Copy, Debug, PartialEq, Eq, Structural)]
pub struct ArenaGeometry {
    /// Size of one page.
    pub page_size: usize,
    /// Alignment of a segment header inside its mapping.
    pub segment_align: usize,
    /// Largest mapping a request may need.
    pub max_alloc_size: usize,
}

/// Size in bytes of the back-pointer slot in front of a user block.
pub open spec fn pointer_bytes() -> nat {
    vstd::layout::size_of::<usize>()
}

impl ArenaGeometry {
    /// Pages and segment alignment are powers of two, a page holds a whole
    /// number of back-pointer slots, and a segment alignment spans at least a
    /// page.
    pub open spec fn wf(&self) -> bool {
        &&& is_pow2(self.page_size)
        &&& is_pow2(self.segment_align)
        &&& self.page_size <= self.segment_align
        &&& pointer_bytes() > 0
        &&& self.page_size as int % pointer_bytes() as int == 0
    }
}

/// The mapping size a request of `size` bytes aligned to `align` needs:
/// the block, a segment alignment's worth of slack for placing the header,
/// and a page (or the alignment, when larger) for the header and the
/// back-pointer slot.
pub open spec fn mapping_size_for(size: nat, align: nat, geometry: ArenaGeometry) -> nat {
    size + geometry.segment_align as nat + if align >= geometry.page_size {
        align
    } else {
        geometry.page_size as nat
    }
}

/// A large or huge request can be served only with a non-zero size and a
/// power-of-two alignment of at most one segment, so that rounding a block
/// address down to a segment boundary still finds its header.
pub open spec fn valid_request(size: nat, align: nat, geometry: ArenaGeometry) -> bool {
    &&& size > 0
    &&& align <= geometry.segment_align
    &&& is_pow2(align as usize)
}

/// Whether a large or huge request of `size` bytes aligned to `align` is
/// one the arena serves.
pub fn is_valid_alloc_request(size: usize, align: usize, geometry: &ArenaGeometry) -> (ok: bool)
    ensures
        ok == valid_request(size as nat, align as nat, *geometry),
{
    size != 0 && align <= geometry.segment_align && is_power_of_two(align)
}

/// Mapping size and alignment for a large or huge request: `None` when the
/// request is invalid, or when the mapping size overflows or exceeds the
/// geometry's maximum.
pub fn derive_large_or_huge_layout(size: usize, align: usize, geometry: &ArenaGeometry) -> (r: Option<
    (usize, usize),
>)
    ensures
        r == (if valid_request(size as nat, align as nat, *geometry) && mapping_size_for(
            size as nat,
            align as nat,
            *geometry,
        ) <= geometry.max_alloc_size {
            Some((mapping_size_for(size as nat, align as nat, *geometry) as usize, align))
        } else {
            None::<(usize, usize)>
        }),
{
    if !is_valid_alloc_request(size, align, geometry) {
        return None;
    }
    let extra = if align >= geometry.page_size {
        align
    } else {
        geometry.page_size
    };
    let with_header = match size.checked_add(geometry.segment_align) {
        Some(v) => v,
        None => return None,
    };
    let total = match with_header.checked_add(extra) {
        Some(v) => v,
        None => return None,
    };
    if total <= geometry.max_alloc_size {
        Some((total, align))
    } else {
        None
    }
}

/// Addresses inside one large or huge mapping.
#[derive(Clone, Copy, Debug, PartialEq, Eq, Structural)]
pub struct SegmentLayout {
    /// First byte of the user block.
    pub user_addr: usize,
    /// The segment header: the mapping's first segment-aligned address.
    pub segment_addr: usize,
    /// The back-pointer slot just below the user block.
    pub metadata_addr: usize,
    /// First page boundary at or after the end of the user block.
    pub tail_slack_start: usize,
    /// One past the mapping's last byte.
    pub mapping_end: usize,
}

/// Smallest multiple of `align` not below `x` (for non-zero `align`).
pub open spec fn round_up(x: nat, align: nat) -> nat {
    if x % align == 0 {
        x
    } else {
        (x - x % align + align) as nat
    }
}

} // verus!

verus! {

/// Of two powers of two, the larger is a multiple of the smaller.
pub proof fn lemma_pow2_divides(x: usize, y: usize)
    requires
        is_pow2(x),
        is_pow2(y),
        x <= y,
    ensures
        y as int % x as int == 0,
{
    let i = choose|k: usize| k < usize::BITS && x == (1usize << k);
    let j = choose|k: usize| k < usize::BITS && y == (1usize << k);
    vstd::bits::lemma_usize_pow2_no_overflow(i as nat);
    vstd::bits::lemma_usize_pow2_no_overflow(j as nat);
    vstd::bits::lemma_usize_shl_is_mul(1, i);
    vstd::bits::lemma_usize_shl_is_mul(1, j);
    let pi = vstd::arithmetic::power2::pow2(i as nat);
    let pj = vstd::arithmetic::power2::pow2(j as nat);
    assert(x == pi && y == pj);
    if i > j {
        vstd::arithmetic::power2::lemma_pow2_strictly_increases(j as nat, i as nat);
    }
    assert(i <= j);
    vstd::arithmetic::power2::lemma_pow2_adds(i as nat, (j - i) as nat);
    assert((i + (j - i)) as nat == j as nat);
    let q = vstd::arithmetic::power2::pow2((j - i) as nat);
    assert(pj == pi * q);
    vstd::arithmetic::div_mod::lemma_mod_multiples_basic(q as int, pi as int);
    assert(pi * q == q * pi) by (nonlinear_arith);
}

/// For a power of two, rounding up with the bit mask agrees with the
/// arithmetic rounding.
pub proof fn lemma_align_up_bits_is_round_up(x: usize, align: usize)
    requires
        is_pow2(align),
        x + (align - 1) <= usize::MAX,
    ensures
        align_up_bits(x, align) == round_up(x as nat, align as nat),
        round_up(x as nat, align as nat) % align as nat == 0,
        x <= round_up(x as nat, align as nat) < x + align,
{
    lemma_align_up_is_round_up(x, align);
    let r = align_up_bits(x, align) as int;
    let a = align as int;
    assert(a > 0) by {
        let k = choose|k: usize| k < usize::BITS && align == (1usize << k);
        vstd::bits::lemma_usize_pow2_no_overflow(k as nat);
        vstd::bits::lemma_usize_shl_is_mul(1, k);
        vstd::arithmetic::power2::lemma_pow2_pos(k as nat);
    }
    let m = x as int % a;
    vstd::arithmetic::div_mod::lemma_fundamental_div_mod(x as int, a);
    vstd::arithmetic::div_mod::lemma_mod_pos_bound(x as int, a);
    vstd::arithmetic::div_mod::lemma_fundamental_div_mod(r, a);
    let q = x as int / a;
    let qr = r / a;
    assert(r == a * qr);
    assert(x == a * q + m);
    if m == 0 {
        assert(qr == q) by (nonlinear_arith)
            requires
                x <= r < x + a,
                r == a * qr,
                x == a * q,
                a > 0,
        ;
    } else {
        assert(qr == q + 1) by (nonlinear_arith)
            requires
                x <= r < x + a,
                r == a * qr,
                x == a * q + m,
                0 < m < a,
                a > 0,
        ;
        vstd::arithmetic::div_mod::lemma_mod_multiples_basic(q + 1, a);
        assert(a * (q + 1) == (q + 1) * a) by (nonlinear_arith);
        assert(a * (q + 1) == a * q + a) by (nonlinear_arith);
    }
}

} // verus!

verus! {

/// A multiple of a multiple of `b` is a multiple of `b`.
pub proof fn lemma_divides_trans(x: int, a: int, b: int)
    requires
        a > 0,
        b > 0,
        x % a == 0,
        a % b == 0,
    ensures
        x % b == 0,
{
    vstd::arithmetic::div_mod::lemma_fundamental_div_mod(x, a);
    vstd::arithmetic::div_mod::lemma_fundamental_div_mod(a, b);
    let qa = x / a;
    let qb = a / b;
    assert(x == b * (qb * qa)) by (nonlinear_arith)
        requires
            x == a * qa,
            a == b * qb,
    ;
    vstd::arithmetic::div_mod::lemma_mod_multiples_basic(qb * qa, b);
    assert(b * (qb * qa) == (qb * qa) * b) by (nonlinear_arith);
}

/// A positive power of two is positive and a whole number of units it is a
/// multiple of.
proof fn lemma_pow2_pos_usize(x: usize)
    requires
        is_pow2(x),
    ensures
        x > 0,
{
    let k = choose|k: usize| k < usize::BITS && x == (1usize << k);
    vstd::bits::lemma_usize_pow2_no_overflow(k as nat);
    vstd::bits::lemma_usize_shl_is_mul(1, k);
    vstd::arithmetic::power2::lemma_pow2_pos(k as nat);
}

/// The larger of `a` and `b`.
pub open spec fn max_nat(a: nat, b: nat) -> nat {
    if a >= b {
        a
    } else {
        b
    }
}

/// Where the header and the user block go in a mapping at `raw`: the header
/// at the first segment-aligned address, the user block at the first
/// `alignment`-aligned address at least a page past the header.
proof fn lemma_placement(raw: usize, alignment: usize, g: ArenaGeometry)
    requires
        g.wf(),
        is_pow2(alignment),
        raw + (g.segment_align - 1) <= usize::MAX,
        round_up(raw as nat, g.segment_align as nat) + g.page_size <= usize::MAX,
        round_up(raw as nat, g.segment_align as nat) + g.page_size + (alignment - 1) <= usize::MAX,
    ensures
        ({
            let s = round_up(raw as nat, g.segment_align as nat);
            let u = round_up(s + g.page_size as nat, alignment as nat);
            &&& s % g.segment_align as nat == 0
            &&& raw <= s < raw + g.segment_align
            &&& u % alignment as nat == 0
            &&& u as int % pointer_bytes() as int == 0
            &&& s + g.page_size <= u
            &&& u <= s + max_nat(alignment as nat, g.page_size as nat)
            &&& g.page_size >= pointer_bytes()
        }),
{
    let sa = g.segment_align;
    let p = g.page_size;
    let a = alignment;
    lemma_pow2_pos_usize(sa);
    lemma_pow2_pos_usize(p);
    lemma_pow2_pos_usize(a);
    lemma_align_up_bits_is_round_up(raw, sa);
    let s = round_up(raw as nat, sa as nat);
    let pe = (s + p) as usize;
    lemma_align_up_bits_is_round_up(pe, a);
    let u = round_up(pe as nat, a as nat);
    lemma_pow2_divides(p, sa);
    lemma_divides_trans(s as int, sa as int, p as int);
    vstd::arithmetic::div_mod::lemma_mod_adds(s as int, p as int, p as int);
    vstd::arithmetic::div_mod::lemma_mod_self_0(p as int);
    assert(pe as int % p as int == 0);
    if p < pointer_bytes() {
        vstd::arithmetic::div_mod::lemma_small_mod(p as nat, pointer_bytes());
    }
    if a <= p {
        lemma_pow2_divides(a, p);
        lemma_divides_trans(pe as int, p as int, a as int);
        assert(u == pe);
        lemma_divides_trans(u as int, p as int, pointer_bytes() as int);
    } else {
        lemma_pow2_divides(p, a);
        lemma_divides_trans(u as int, a as int, p as int);
        lemma_divides_trans(u as int, p as int, pointer_bytes() as int);
        let d = u - pe;
        vstd::arithmetic::div_mod::lemma_sub_mod_noop(u as int, pe as int, p as int);
        vstd::arithmetic::div_mod::lemma_small_mod(0nat, p as nat);
        assert(d % p as int == 0);
        vstd::arithmetic::div_mod::lemma_fundamental_div_mod(d, p as int);
        vstd::arithmetic::div_mod::lemma_fundamental_div_mod(a as int, p as int);
        let t = d / p as int;
        let c = a as int / p as int;
        assert(d <= a - p) by (nonlinear_arith)
            requires
                d == p * t,
                a == p * c,
                0 <= d < a,
                p > 0,
        ;
    }
}

} // verus!

verus! {

/// The layout of a mapping of `total` bytes at `raw` for a block of `size`
/// bytes aligned to `alignment`, or `None` when an address does not fit in
/// a machine word.
pub open spec fn layout_of(raw: nat, total: nat, alignment: nat, size: nat, g: ArenaGeometry) -> Option<
    SegmentLayout,
> {
    let sa = g.segment_align as nat;
    let p = g.page_size as nat;
    let s = round_up(raw, sa);
    let u = round_up(s + p, alignment);
    if raw + (sa - 1) > usize::MAX || s + p > usize::MAX || s + p + (alignment - 1) > usize::MAX
        || u + size > usize::MAX || raw + total > usize::MAX || u + size + (p - 1) > usize::MAX {
        None
    } else {
        Some(
            SegmentLayout {
                user_addr: u as usize,
                segment_addr: s as usize,
                metadata_addr: (u - pointer_bytes()) as usize,
                tail_slack_start: round_up(u + size, p) as usize,
                mapping_end: (raw + total) as usize,
            },
        )
    }
}

/// Size in bytes of the back-pointer slot.
fn slot_bytes() -> (n: usize)
    ensures
        n == pointer_bytes(),
{
    core::mem::size_of::<usize>()
}

/// Lays out a mapping of `total` bytes at `raw` for a user block of `size`
/// bytes aligned to `alignment`: the segment header at the first
/// segment-aligned address, a page reserved after it, the user block at the
/// first `alignment`-aligned address past that page, its back-pointer slot
/// just below it, and the tail slack from the first page boundary after the
/// block to the mapping's end. `None` when an address overflows.
pub fn init_segment_layout(
    raw: usize,
    total: usize,
    alignment: usize,
    size: usize,
    geometry: &ArenaGeometry,
) -> (r: Option<SegmentLayout>)
    requires
        geometry.wf(),
        is_pow2(alignment),
    ensures
        r == layout_of(raw as nat, total as nat, alignment as nat, size as nat, *geometry),
        r matches Some(l) ==> {
            &&& l.segment_addr as int % geometry.segment_align as int == 0
            &&& raw <= l.segment_addr < raw + geometry.segment_align
            &&& l.user_addr as int % alignment as int == 0
            &&& l.user_addr as int % pointer_bytes() as int == 0
            &&& l.segment_addr + geometry.page_size <= l.user_addr
            &&& l.user_addr <= l.segment_addr + max_nat(alignment as nat, geometry.page_size as nat)
            &&& l.segment_addr <= l.metadata_addr
            &&& l.metadata_addr + pointer_bytes() == l.user_addr
            &&& l.tail_slack_start as int % geometry.page_size as int == 0
            &&& l.user_addr + size <= l.tail_slack_start < l.user_addr + size + geometry.page_size
            &&& total >= mapping_size_for(size as nat, alignment as nat, *geometry)
                ==> l.user_addr + size <= l.mapping_end
        },
{
    let ghost sa = geometry.segment_align as nat;
    let ghost p = geometry.page_size as nat;
    proof {
        lemma_pow2_pos_usize(geometry.segment_align);
        lemma_pow2_pos_usize(geometry.page_size);
        lemma_pow2_pos_usize(alignment);
    }
    let segment_addr = match checked_align_up(raw, geometry.segment_align) {
        Some(a) => a,
        None => return None,
    };
    proof {
        lemma_align_up_bits_is_round_up(raw, geometry.segment_align);
    }
    let prefix_end = match segment_addr.checked_add(geometry.page_size) {
        Some(e) => e,
        None => return None,
    };
    let user_addr = match checked_align_up(prefix_end, alignment) {
        Some(u) => u,
        None => return None,
    };
    proof {
        lemma_align_up_bits_is_round_up(prefix_end, alignment);
        lemma_placement(raw, alignment, *geometry);
    }
    let metadata_addr = user_addr - slot_bytes();
    let payload_end = match user_addr.checked_add(size) {
        Some(e) => e,
        None => return None,
    };
    let mapping_end = match raw.checked_add(total) {
        Some(e) => e,
        None => return None,
    };
    let tail_slack_start = match checked_align_up(payload_end, geometry.page_size) {
        Some(t) => t,
        None => return None,
    };
    proof {
        lemma_align_up_bits_is_round_up(payload_end, geometry.page_size);
    }
    Some(
        SegmentLayout {
            user_addr,
            segment_addr,
            metadata_addr,
            tail_slack_start,
            mapping_end,
        },
    )
}

} // verus!

verus! {

/// Whether a back-pointer read from a user block's slot can name a segment
/// header: non-null and segment-aligned.
pub fn metadata_pointer_is_sound(segment_addr: usize, geometry: &ArenaGeometry) -> (ok: bool)
    requires
        geometry.wf(),
    ensures
        ok == (segment_addr != 0 && segment_addr as int % geometry.segment_align as int == 0),
{
    proof {
        lemma_pow2_pos_usize(geometry.segment_align);
    }
    let mask = geometry.segment_align - 1;
    proof {
        let sa = geometry.segment_align;
        let k = choose|k: usize| k < usize::BITS && sa == (1usize << k);
        vstd::bits::lemma_usize_pow2_no_overflow(k as nat);
        vstd::bits::lemma_usize_shl_is_mul(1, k);
        vstd::bits::lemma_usize_low_bits_mask_is_mod(segment_addr, k as nat);
        assert(mask == vstd::bits::low_bits_mask(k as nat));
    }
    segment_addr != 0 && segment_addr & mask == 0
}

/// Whether a segment header at `segment_addr` and the mapping base it
/// records are consistent: a non-null base at most one segment alignment
/// below the header.
pub fn segment_header_is_sound(segment_addr: usize, raw_alloc: usize, geometry: &ArenaGeometry) -> (ok:
    bool)
    ensures
        ok == (raw_alloc != 0 && raw_alloc <= segment_addr && segment_addr - raw_alloc
            < geometry.segment_align),
{
    !(raw_alloc == 0 || segment_addr < raw_alloc || segment_addr - raw_alloc >= geometry.segment_align)
}

/// What a large or huge allocation lays out, its release accepts: the
/// header a layout places passes the header check against the mapping base,
/// and its address, read back from the slot, passes the back-pointer check.
pub proof fn law_layout_passes_release_checks(
    raw: nat,
    total: nat,
    alignment: nat,
    size: nat,
    g: ArenaGeometry,
)
    requires
        g.wf(),
        alignment <= usize::MAX,
        is_pow2(alignment as usize),
        raw != 0,
        layout_of(raw, total, alignment, size, g) is Some,
    ensures
        ({
            let l = layout_of(raw, total, alignment, size, g)->0;
            &&& raw <= l.segment_addr < raw + g.segment_align
            &&& l.segment_addr != 0
            &&& l.segment_addr as int % g.segment_align as int == 0
        }),
{
    let raw_u = raw as usize;
    lemma_pow2_pos_usize(g.segment_align);
    lemma_align_up_bits_is_round_up(raw_u, g.segment_align);
}

} // verus!

verus! {

/// Why the release of a large or huge block was refused: its segment
/// metadata is corrupt, and the block cannot be traced to a mapping.
#[derive(Clone, Copy, Debug, PartialEq, Eq, Structural)]
pub enum CorruptSegment {
    /// The back-pointer read from the block's slot is null or not
    /// segment-aligned.
    MetadataPointer,
    /// The segment header's mapping base is null, above the header, or more
    /// than one segment alignment below it.
    Header,
}

/// Releases the large or huge block whose segment header sits at
/// `segment.addr`; `from_slot` tells whether that address was read back
/// from the block's back-pointer slot. A huge block (non-zero block size)
/// goes into the huge-block cache when it admits it (`Ok(true)`), else its
/// mapping goes to `release_mapping` and the outcome is returned. Any other
/// segment goes back as [`deallocate_segment`] does (`Ok(true)`). A null
/// header address releases nothing (`Ok(false)`); corrupt metadata releases
/// nothing and is reported.
///
/// [`deallocate_segment`]: crate::segment::segment_pool::deallocate_segment
pub fn deallocate_large_or_huge<R: Fn(SegmentRef) -> bool, S: Fn(SegmentRef) -> SegmentRelease>(
    huge: &mut GlobalHugePool,
    pool: &mut GlobalSegmentPool,
    segment: SegmentRef,
    from_slot: bool,
    geometry: &ArenaGeometry,
    max_retained: usize,
    release_mapping: &R,
    release_segment: &S,
) -> (r: Result<bool, CorruptSegment>)
    requires
        geometry.wf(),
        old(huge).wf(),
        release_mapping.requires((segment,)),
        release_segment.requires((segment,)),
    ensures
        final(huge).wf(),
        ({
            let metadata_ok = segment.addr != 0 && segment.addr as int % geometry.segment_align as int
                == 0;
            let header_ok = segment.raw_alloc != 0 && segment.raw_alloc <= segment.addr
                && segment.addr - segment.raw_alloc < geometry.segment_align;
            let node = segment.numa_node as nat;
            let admitted = pool_admits(*old(huge), segment.block_size as nat, node);
            &&& segment.addr == 0 && !from_slot ==> r == Ok::<bool, CorruptSegment>(false)
            &&& from_slot && !metadata_ok ==> r == Err::<bool, CorruptSegment>(
                CorruptSegment::MetadataPointer,
            )
            &&& (segment.addr != 0 || from_slot) && (!from_slot || metadata_ok) && !header_ok ==> r
                == Err::<bool, CorruptSegment>(CorruptSegment::Header)
            &&& r is Err || (segment.addr == 0 && !from_slot) ==> *final(huge) == *old(huge)
                && *final(pool) == *old(pool)
            &&& r == Ok::<bool, CorruptSegment>(true) && segment.block_size > 0 && admitted ==> {
                let n = spec_numa_bucket(node);
                let b = bucket_of(segment.block_size as nat);
                let k = band_of(segment.block_size as nat, b);
                &&& final(huge).slot(n, b, k) == old(huge).slot(n, b, k).push(segment)
                &&& same_slots_except(*final(huge), *old(huge), n, b, k)
            }
            &&& r is Ok && segment.addr != 0 && header_ok && segment.block_size > 0 ==> {
                &&& *final(pool) == *old(pool)
                &&& !admitted ==> same_slots(*final(huge), *old(huge)) && release_mapping.ensures(
                    (segment,),
                    r->Ok_0,
                )
                &&& admitted ==> r == Ok::<bool, CorruptSegment>(true)
            }
            &&& r is Ok && segment.addr != 0 && header_ok && segment.block_size == 0 ==> {
                let b = spec_numa_bucket(node);
                let before = old(pool).node(b).segments();
                &&& r == Ok::<bool, CorruptSegment>(true)
                &&& *final(huge) == *old(huge)
                &&& final(pool).same_nodes_except(old(pool), b)
                &&& final(pool).node(b).same_counters(&old(pool).node(b))
                &&& before.len() < max_retained ==> final(pool).node(b).segments() == before.push(
                    segment,
                )
                &&& before.len() >= max_retained ==> {
                    ||| final(pool).node(b).segments() == before && release_segment.ensures(
                        (segment,),
                        SegmentRelease::Released,
                    )
                    ||| final(pool).node(b).segments() == before.push(segment)
                        && release_segment.ensures((segment,), SegmentRelease::RetainedAfterFailure)
                }
            }
            &&& segment.addr != 0 && (!from_slot || metadata_ok) && header_ok ==> r is Ok
        }),
{
    if segment.addr == 0 && !from_slot {
        return Ok(false);
    }
    if from_slot && !metadata_pointer_is_sound(segment.addr, geometry) {
        return Err(CorruptSegment::MetadataPointer);
    }
    if !segment_header_is_sound(segment.addr, segment.raw_alloc, geometry) {
        return Err(CorruptSegment::Header);
    }
    if segment.block_size > 0 {
        if huge.try_push(segment, segment.numa_node as usize) {
            return Ok(true);
        }
        return Ok(release_mapping(segment));
    }
    let _ = deallocate_segment(pool, segment, max_retained, release_segment);
    Ok(true)
}

} // verus!

verus! {

/// What serving a request of `size` bytes aligned to `alignment` from the
/// mapping of `block` bytes at `raw` did and gave: when the mapping can be
/// laid out, `init_header` wrote the header and back-pointer of that layout
/// (with `fresh` telling a fresh mapping from a cached one), a fresh
/// mapping's slack went to `decommit` when `decommit_slack` asks for it, and
/// the result is the layout's user block; otherwise the mapping went to
/// `release_mapping` and the result is 0.
pub open spec fn served_from_mapping<
    I: Fn(SegmentLayout, usize, usize, bool),
    R: Fn(usize, usize) -> bool,
    D: Fn(usize, usize, usize, usize),
>(
    init_header: I,
    release_mapping: R,
    decommit: D,
    raw: usize,
    block: usize,
    fresh: bool,
    decommit_slack: bool,
    alignment: nat,
    size: nat,
    g: ArenaGeometry,
    user: usize,
) -> bool {
    match layout_of(raw as nat, block as nat, alignment, size, g) {
        Some(l) => {
            &&& user == l.user_addr
            &&& init_header.ensures((l, raw, block, fresh), ())
            &&& fresh && decommit_slack ==> decommit.ensures(
                (raw, l.segment_addr, l.tail_slack_start, l.mapping_end),
                (),
            )
        },
        None => {
            &&& user == 0
            &&& release_mapping.ensures((raw, block), true) || release_mapping.ensures(
                (raw, block),
                false,
            )
        },
    }
}

/// Serves a large or huge request of `size` bytes aligned to `align` for a
/// thread on NUMA node `numa_node` and returns the user block's address, or
/// 0 when it cannot. The mapping comes from the huge-block cache when that
/// holds a fitting block, else from `allocate_mapping`, which returns the
/// new mapping's base or 0. `init_header` writes the segment header and the
/// back-pointer of the computed layout (its last flag tells a fresh mapping
/// from a cached one); a mapping that cannot be laid out goes to
/// `release_mapping`; with `decommit_slack`, a fresh mapping's unused head
/// and tail go to `decommit`.
pub fn allocate_large_or_huge<
    A: Fn(usize) -> usize,
    I: Fn(SegmentLayout, usize, usize, bool),
    R: Fn(usize, usize) -> bool,
    D: Fn(usize, usize, usize, usize),
>(
    huge: &mut GlobalHugePool,
    size: usize,
    align: usize,
    decommit_slack: bool,
    numa_node: u32,
    geometry: &ArenaGeometry,
    allocate_mapping: &A,
    init_header: &I,
    release_mapping: &R,
    decommit: &D,
) -> (user: usize)
    requires
        geometry.wf(),
        old(huge).wf(),
        forall|n: usize| allocate_mapping.requires((n,)),
        forall|l: SegmentLayout, raw: usize, block: usize, fresh: bool|
            init_header.requires((l, raw, block, fresh)),
        forall|raw: usize, block: usize| release_mapping.requires((raw, block)),
        forall|a: usize, b: usize, c: usize, d: usize| decommit.requires((a, b, c, d)),
    ensures
        final(huge).wf(),
        !valid_request(size as nat, align as nat, *geometry) || mapping_size_for(
            size as nat,
            align as nat,
            *geometry,
        ) > geometry.max_alloc_size ==> user == 0 && *final(huge) == *old(huge),
        valid_request(size as nat, align as nat, *geometry) && mapping_size_for(
            size as nat,
            align as nat,
            *geometry,
        ) <= geometry.max_alloc_size ==> ({
            let total = mapping_size_for(size as nat, align as nat, *geometry);
            match pool_pick(*old(huge), total, spec_numa_bucket(numa_node as nat), 0) {
                Some((n, b, k, i)) => {
                    let block = old(huge).slot(n, b, k)[i];
                    &&& final(huge).slot(n, b, k) == old(huge).slot(n, b, k).remove(i)
                    &&& same_slots_except(*final(huge), *old(huge), n, b, k)
                    &&& served_from_mapping(
                        *init_header,
                        *release_mapping,
                        *decommit,
                        block.raw_alloc,
                        block.block_size,
                        false,
                        decommit_slack,
                        align as nat,
                        size as nat,
                        *geometry,
                        user,
                    )
                },
                None => {
                    &&& same_slots(*final(huge), *old(huge))
                    &&& exists|raw: usize|
                        #[trigger] allocate_mapping.ensures((total as usize,), raw) && if raw
                            == 0 {
                            user == 0
                        } else {
                            served_from_mapping(
                                *init_header,
                                *release_mapping,
                                *decommit,
                                raw,
                                total as usize,
                                true,
                                decommit_slack,
                                align as nat,
                                size as nat,
                                *geometry,
                                user,
                            )
                        }
                },
            }
        }),
        user != 0 ==> user as int % align as int == 0,
        user != 0 ==> exists|raw: usize, block: usize|
            #[trigger] layout_of(raw as nat, block as nat, align as nat, size as nat, *geometry)
                == Some(SegmentLayout {
                user_addr: user,
                ..layout_of(raw as nat, block as nat, align as nat, size as nat, *geometry)->0
            }) && user + size <= raw + block,
{
    let (total, alignment) = match derive_large_or_huge_layout(size, align, geometry) {
        Some(v) => v,
        None => return 0,
    };
    let cached = huge.pop(total, numa_node as usize);
    let fresh = cached.is_none();
    let (raw, block) = match cached {
        Some(segment) => (segment.raw_alloc, segment.block_size),
        None => {
            let raw = allocate_mapping(total);
            if raw == 0 {
                return 0;
            }
            (raw, total)
        },
    };
    proof {
        assert(block >= total);
    }
    let layout = match init_segment_layout(raw, block, alignment, size, geometry) {
        Some(l) => l,
        None => {
            let released = release_mapping(raw, block);
            proof {
                assert(release_mapping.ensures((raw, block), released));
            }
            return 0;
        },
    };
    init_header(layout, raw, block, fresh);
    if fresh && decommit_slack {
        decommit(raw, layout.segment_addr, layout.tail_slack_start, layout.mapping_end);
    }
    proof {
        assert(layout_of(raw as nat, block as nat, align as nat, size as nat, *geometry) == Some(
            layout,
        ));
    }
    layout.user_addr
}

} // verus!

verus! {

/// Where a fresh segment sits in its mapping: the header at the first
/// segment-aligned address of a mapping at `raw`, and the slack before it
/// and after the segment's `segment_size` bytes up to the mapping's end
/// (`mapping_size` bytes from `raw`).
#[derive(Clone, Copy, Debug, PartialEq, Eq, Structural)]
pub struct SegmentPlacement {
    /// The segment header's address.
    pub segment_addr: usize,
    /// Bytes of slack between the mapping's base and the header.
    pub head_slack: usize,
    /// First byte after the segment.
    pub tail_slack_start: usize,
    /// One past the mapping's last byte.
    pub mapping_end: usize,
}

/// Places a segment of `segment_size` bytes in a fresh mapping of
/// `mapping_size` bytes at `raw`; `None` when an address overflows.
pub fn place_segment(raw: usize, segment_size: usize, mapping_size: usize, geometry: &ArenaGeometry) -> (r:
    Option<SegmentPlacement>)
    requires
        geometry.wf(),
    ensures
        ({
            let s = round_up(raw as nat, geometry.segment_align as nat);
            let overflows = raw + (geometry.segment_align - 1) > usize::MAX || s + segment_size
                > usize::MAX || raw + mapping_size > usize::MAX;
            &&& r is None <==> overflows
            &&& !overflows ==> r == Some(
                SegmentPlacement {
                    segment_addr: s as usize,
                    head_slack: (s - raw) as usize,
                    tail_slack_start: (s + segment_size) as usize,
                    mapping_end: (raw + mapping_size) as usize,
                },
            )
        }),
        r matches Some(p) ==> {
            &&& p.segment_addr as int % geometry.segment_align as int == 0
            &&& p.head_slack < geometry.segment_align
            &&& p.segment_addr == raw + p.head_slack
        },
{
    proof {
        lemma_pow2_pos_usize(geometry.segment_align);
    }
    let segment_addr = match checked_align_up(raw, geometry.segment_align) {
        Some(a) => a,
        None => return None,
    };
    proof {
        lemma_align_up_bits_is_round_up(raw, geometry.segment_align);
    }
    let tail_slack_start = match segment_addr.checked_add(segment_size) {
        Some(t) => t,
        None => return None,
    };
    let mapping_end = match raw.checked_add(mapping_size) {
        Some(e) => e,
        None => return None,
    };
    Some(
        SegmentPlacement {
            segment_addr,
            head_slack: segment_addr - raw,
            tail_slack_start,
            mapping_end,
        },
    )
}

/// The segment a fresh mapping at `raw` gives: none when the backend gave
/// no mapping (`raw` 0) or an address of the placement overflows, else one
/// whose header sits at the first segment-aligned address of the mapping.
pub open spec fn fresh_segment(
    raw: usize,
    segment_size: usize,
    mapping_size: usize,
    numa_node: u32,
    g: ArenaGeometry,
) -> Option<SegmentRef> {
    let s = round_up(raw as nat, g.segment_align as nat);
    if raw == 0 || raw + (g.segment_align - 1) > usize::MAX || s + segment_size > usize::MAX
        || raw + mapping_size > usize::MAX {
        None
    } else {
        Some(SegmentRef { addr: s as usize, raw_alloc: raw, block_size: 0, numa_node })
    }
}

/// What taking a fresh segment from the mapping at `raw` did and gave, `r`
/// being the segment handed out: no mapping (`raw` 0) gives none; a mapping
/// that cannot be laid out went to `release_mapping` and gives none;
/// otherwise `init_header` wrote the header of the segment [`fresh_segment`]
/// places, with `supports_decommit` its non-empty head slack and tail slack
/// went to `decommit`, and that segment is handed out.
pub open spec fn fresh_segment_taken<
    I: Fn(SegmentRef),
    R: Fn(usize, usize) -> bool,
    D: Fn(usize, usize),
>(
    init_header: I,
    release_mapping: R,
    decommit: D,
    raw: usize,
    segment_size: usize,
    mapping_size: usize,
    numa_node: u32,
    supports_decommit: bool,
    g: ArenaGeometry,
    r: Option<SegmentRef>,
) -> bool {
    if raw == 0 {
        r is None
    } else {
        match fresh_segment(raw, segment_size, mapping_size, numa_node, g) {
            Some(s) => {
                let tail = s.addr + segment_size;
                let end = raw + mapping_size;
                &&& r == Some(s)
                &&& init_header.ensures((s,), ())
                &&& supports_decommit && raw < s.addr ==> decommit.ensures(
                    (raw, (s.addr - raw) as usize),
                    (),
                )
                &&& supports_decommit && tail < end ==> decommit.ensures(
                    (tail as usize, (end - tail) as usize),
                    (),
                )
            },
            None => {
                &&& r is None
                &&& release_mapping.ensures((raw, mapping_size), true) || release_mapping.ensures(
                    (raw, mapping_size),
                    false,
                )
            },
        }
    }
}

/// The empty segment an acquisition handed out, if it handed one out.
pub open spec fn acquired_free(r: Option<AcquiredSegment>) -> Option<SegmentRef> {
    match r {
        Some(AcquiredSegment::Free(s)) => Some(s),
        _ => None,
    }
}

/// Maps a fresh segment for a thread on NUMA node `numa_node`: a mapping of
/// `mapping_size` bytes from `allocate_mapping` (base, or 0 on failure),
/// laid out by [`place_segment`] and initialized by `init_header`; a mapping
/// that cannot be laid out goes to `release_mapping`. With
/// `supports_decommit`, the mapping's head slack and, when not empty, its
/// tail slack go to `decommit` (address and length).
fn map_fresh_segment<
    A: Fn(usize) -> usize,
    I: Fn(SegmentRef),
    R: Fn(usize, usize) -> bool,
    D: Fn(usize, usize),
>(
    numa_node: u32,
    segment_size: usize,
    mapping_size: usize,
    supports_decommit: bool,
    geometry: &ArenaGeometry,
    allocate_mapping: &A,
    init_header: &I,
    release_mapping: &R,
    decommit: &D,
) -> (r: Option<SegmentRef>)
    requires
        geometry.wf(),
        forall|n: usize| allocate_mapping.requires((n,)),
        forall|s: SegmentRef| init_header.requires((s,)),
        forall|raw: usize, n: usize| release_mapping.requires((raw, n)),
        forall|a: usize, n: usize| decommit.requires((a, n)),
    ensures
        exists|raw: usize|
            #[trigger] allocate_mapping.ensures((mapping_size,), raw) && fresh_segment_taken(
                *init_header,
                *release_mapping,
                *decommit,
                raw,
                segment_size,
                mapping_size,
                numa_node,
                supports_decommit,
                *geometry,
                r,
            ),
        r matches Some(s) ==> {
            &&& s.addr as int % geometry.segment_align as int == 0
            &&& s.raw_alloc <= s.addr < s.raw_alloc + geometry.segment_align
        },
{
    let raw = allocate_mapping(mapping_size);
    if raw == 0 {
        return None;
    }
    let placement = match place_segment(raw, segment_size, mapping_size, geometry) {
        Some(p) => p,
        None => {
            let released = release_mapping(raw, mapping_size);
            proof {
                assert(release_mapping.ensures((raw, mapping_size), released));
            }
            return None;
        },
    };
    let segment = SegmentRef {
        addr: placement.segment_addr,
        raw_alloc: raw,
        block_size: 0,
        numa_node,
    };
    init_header(segment);
    if supports_decommit {
        if placement.head_slack > 0 {
            decommit(raw, placement.head_slack);
        }
        if placement.tail_slack_start < placement.mapping_end {
            decommit(placement.tail_slack_start, placement.mapping_end - placement.tail_slack_start);
        }
    }
    Some(segment)
}

/// Takes an empty segment for a thread on NUMA node `numa_node`: from the
/// free pool, re-initialized by `init_header`, else a fresh mapping as
/// [`map_fresh_segment`] makes it. Orphaned segments, which still hold live
/// blocks, are never handed out here. `None` when no segment can be had.
pub fn allocate_segment<
    A: Fn(usize) -> usize,
    I: Fn(SegmentRef),
    R: Fn(usize, usize) -> bool,
    D: Fn(usize, usize),
>(
    free: &mut GlobalSegmentPool,
    numa_node: u32,
    segment_size: usize,
    mapping_size: usize,
    supports_decommit: bool,
    geometry: &ArenaGeometry,
    allocate_mapping: &A,
    init_header: &I,
    release_mapping: &R,
    decommit: &D,
) -> (r: Option<SegmentRef>)
    requires
        geometry.wf(),
        forall|n: usize| allocate_mapping.requires((n,)),
        forall|s: SegmentRef| init_header.requires((s,)),
        forall|raw: usize, n: usize| release_mapping.requires((raw, n)),
        forall|a: usize, n: usize| decommit.requires((a, n)),
    ensures
        match steal_pick(*old(free), spec_numa_bucket(numa_node as nat), 0) {
            Some(n) => r == Some(old(free).node(n).segments().last())
                && final(free).node(n).segments() == old(free).node(n).segments().drop_last()
                && final(free).node(n).same_counters(&old(free).node(n))
                && final(free).same_nodes_except(old(free), n)
                && init_header.ensures((old(free).node(n).segments().last(),), ()),
            None => {
                &&& final(free).same_nodes_except(old(free), NUMA_BUCKETS as nat)
                &&& exists|raw: usize|
                    #[trigger] allocate_mapping.ensures((mapping_size,), raw) && fresh_segment_taken(
                        *init_header,
                        *release_mapping,
                        *decommit,
                        raw,
                        segment_size,
                        mapping_size,
                        numa_node,
                        supports_decommit,
                        *geometry,
                        r,
                    )
            },
        },
{
    if let Some(segment) = free.pop(numa_node) {
        init_header(segment);
        return Some(segment);
    }
    map_fresh_segment(
        numa_node,
        segment_size,
        mapping_size,
        supports_decommit,
        geometry,
        allocate_mapping,
        init_header,
        release_mapping,
        decommit,
    )
}

/// Takes a segment for a thread on NUMA node `numa_node`, orphans included:
/// from the free pool, re-initialized by `init_header`, as
/// [`AcquiredSegment::Free`]; else from the orphan pool, as it is, as
/// [`AcquiredSegment::Orphan`]; else a fresh mapping as
/// [`map_fresh_segment`] makes it, as [`AcquiredSegment::Free`]. `None`
/// when no segment can be had.
pub fn acquire_segment<
    A: Fn(usize) -> usize,
    I: Fn(SegmentRef),
    R: Fn(usize, usize) -> bool,
    D: Fn(usize, usize),
>(
    free: &mut GlobalSegmentPool,
    orphans: &mut GlobalSegmentPool,
    numa_node: u32,
    segment_size: usize,
    mapping_size: usize,
    supports_decommit: bool,
    geometry: &ArenaGeometry,
    allocate_mapping: &A,
    init_header: &I,
    release_mapping: &R,
    decommit: &D,
) -> (r: Option<AcquiredSegment>)
    requires
        geometry.wf(),
        forall|n: usize| allocate_mapping.requires((n,)),
        forall|s: SegmentRef| init_header.requires((s,)),
        forall|raw: usize, n: usize| release_mapping.requires((raw, n)),
        forall|a: usize, n: usize| decommit.requires((a, n)),
    ensures
        match steal_pick(*old(free), spec_numa_bucket(numa_node as nat), 0) {
            Some(n) => r == Some(AcquiredSegment::Free(old(free).node(n).segments().last()))
                && final(free).node(n).segments() == old(free).node(n).segments().drop_last()
                && final(free).node(n).same_counters(&old(free).node(n))
                && final(free).same_nodes_except(old(free), n)
                && *final(orphans) == *old(orphans)
                && init_header.ensures((old(free).node(n).segments().last(),), ()),
            None => match steal_pick(*old(orphans), spec_numa_bucket(numa_node as nat), 0) {
                Some(n) => r == Some(AcquiredSegment::Orphan(old(orphans).node(n).segments().last()))
                    && final(orphans).node(n).segments() == old(orphans).node(n).segments().drop_last()
                    && final(orphans).node(n).same_counters(&old(orphans).node(n))
                    && final(orphans).same_nodes_except(old(orphans), n)
                    && final(free).same_nodes_except(old(free), NUMA_BUCKETS as nat),
                None => {
                    &&& !(r matches Some(AcquiredSegment::Orphan(_)))
                    &&& final(free).same_nodes_except(old(free), NUMA_BUCKETS as nat)
                    &&& final(orphans).same_nodes_except(old(orphans), NUMA_BUCKETS as nat)
                    &&& exists|raw: usize|
                        #[trigger] allocate_mapping.ensures((mapping_size,), raw)
                            && fresh_segment_taken(
                            *init_header,
                            *release_mapping,
                            *decommit,
                            raw,
                            segment_size,
                            mapping_size,
                            numa_node,
                            supports_decommit,
                            *geometry,
                            acquired_free(r),
                        )
                },
            },
        },
{
    match allocate_segment_from_pools(free, orphans, numa_node) {
        Some(AcquiredSegment::Free(segment)) => {
            init_header(segment);
            Some(AcquiredSegment::Free(segment))
        },
        Some(AcquiredSegment::Orphan(segment)) => Some(AcquiredSegment::Orphan(segment)),
        None => match map_fresh_segment(
            numa_node,
            segment_size,
            mapping_size,
            supports_decommit,
            geometry,
            allocate_mapping,
            init_header,
            release_mapping,
            decommit,
        ) {
            Some(segment) => Some(AcquiredSegment::Free(segment)),
            None => None,
        },
    }
}

} // verus!
