//! Aligned, growable scratch vector whose newly grown range holds fresh
//! default values, so a reused buffer never exposes stale data.

use crate::align::saturating_mul;
use crate::scratch::element::{DEFAULT_SCRATCH_ALIGN, ScratchElement, is_fresh};
use vstd::prelude::*;
use vstd::std_specs::cmp::PartialEqSpec;
use vstd::std_specs::iter::IteratorSpec;
use vstd::std_specs::cmp::PartialOrdIs;
use vstd::std_specs::cmp::PartialOrdSpec;

verus! {

/// Byte budget of one buffer: its elements plus the alignment padding must
/// stay within the largest object size the platform allows.
pub open spec fn capacity_fits<T>(capacity: nat) -> bool {
    &&& capacity <= usize::MAX
    &&& capacity * vstd::layout::size_of::<T>() + DEFAULT_SCRATCH_ALIGN <= isize::MAX
}

/// Capacity a buffer of capacity `cap` holding `len` elements has after `n`
/// single pushes, each growing it as [`AlignedVec::push`] does when full.
pub open spec fn capacity_after_pushes<T>(cap: nat, len: nat, n: nat) -> nat
    decreases n,
{
    if n == 0 {
        cap
    } else {
        let c = capacity_after_pushes::<T>(cap, len, (n - 1) as nat);
        let before = len + n - 1;
        if before + 1 > c {
            grown_capacity::<T>(c, (before + 1) as nat)
        } else {
            c
        }
    }
}

/// Pushes that stay within the capacity never grow it.
proof fn lemma_pushes_within_capacity<T>(cap: nat, len: nat, n: nat)
    requires
        len + n <= cap,
    ensures
        capacity_after_pushes::<T>(cap, len, n) == cap,
    decreases n,
{
    if n > 0 {
        lemma_pushes_within_capacity::<T>(cap, len, (n - 1) as nat);
    }
}

/// Capacity an `ensure_len(min_len)` leaves behind when `min_len` exceeds the
/// current capacity `cap`: the larger of `min_len` and twice `cap` (saturating),
/// or exactly `min_len` when twice `cap` would not fit the byte budget.
pub open spec fn grown_capacity<T>(cap: nat, min_len: nat) -> nat {
    let doubled: nat = if cap * 2 > usize::MAX { usize::MAX as nat } else { cap * 2 };
    let target: nat = if min_len >= doubled { min_len } else { doubled };
    if capacity_fits::<T>(target) { target } else { min_len }
}

/// A smaller buffer fits the byte budget whenever a larger one does.
pub proof fn lemma_capacity_fits_monotone<T>(small: nat, large: nat)
    requires
        small <= large,
        capacity_fits::<T>(large),
    ensures
        capacity_fits::<T>(small),
{
    let size = vstd::layout::size_of::<T>();
    assert(small * size <= large * size) by (nonlinear_arith)
        requires
            small <= large,
    ;
}

/// Address of the first element of `v`'s buffer.
///
/// Trusted: calls `Vec::as_ptr` and converts the pointer to an address. The
/// claim is only what std guarantees of a `Vec`'s buffer pointer, allocated
/// or dangling: it is non-null and aligned for `T`. Where the allocator puts
/// the buffer beyond that is not claimed.
#[verifier::external_body]
fn vec_address<T>(v: &Vec<T>) -> (addr: usize)
    ensures
        addr != 0,
        addr as nat % vstd::layout::align_of::<T>() == 0,
{
    v.as_ptr() as usize
}

/// Mutable view of `v[start..end]`.
///
/// Trusted: indexes `v` by the range `start..end` (`IndexMut` on `Vec`),
/// which the standard library documents as the subslice of those elements,
/// writes through which land in `v`; the range is in bounds, so it does
/// not panic.
#[verifier::external_body]
fn vec_window_mut<T>(v: &mut Vec<T>, start: usize, end: usize) -> (s: &mut [T])
    requires
        start <= end <= old(v)@.len(),
    ensures
        s@ == old(v)@.subrange(start as int, end as int),
        final(s)@.len() == end - start,
        final(v)@ == old(v)@.subrange(0, start as int) + final(s)@ + old(v)@.subrange(
            end as int,
            old(v)@.len() as int,
        ),
    no_unwind
{
    &mut v[start..end]
}

/// Size in bytes of one `T`.
fn elem_size<T>() -> (n: usize)
    ensures
        n == vstd::layout::size_of::<T>(),
{
    core::mem::size_of::<T>()
}

/// Padding elements reserved in front of a buffer of `size`-byte elements:
/// as many as fit in 64 bytes, none for zero-sized elements or elements of
/// 64 bytes or more.
pub open spec fn padding_for(size: nat) -> nat {
    if size == 0 || size >= DEFAULT_SCRATCH_ALIGN {
        0
    } else {
        DEFAULT_SCRATCH_ALIGN as nat / size
    }
}

/// Elements to skip from address `addr` to reach the next 64-byte boundary:
/// the distance to it in `size`-byte elements when the distance is a whole
/// number of elements, at most `pad`; otherwise (and at a boundary) none.
pub open spec fn aligning_offset(addr: nat, size: nat, pad: nat) -> nat {
    let need = (DEFAULT_SCRATCH_ALIGN as nat - addr % DEFAULT_SCRATCH_ALIGN as nat) as nat;
    if addr % DEFAULT_SCRATCH_ALIGN as nat == 0 || size == 0 {
        0
    } else if need % size == 0 && need / size <= pad {
        need / size
    } else {
        0
    }
}

/// Whether a buffer of `size`-byte elements placed at address `addr` can
/// start an element on a 64-byte boundary within its padding: `addr` is on
/// one, or the distance to the next one is a whole number of elements.
pub open spec fn placement_alignable(addr: nat, size: nat) -> bool {
    ||| addr % DEFAULT_SCRATCH_ALIGN as nat == 0
    ||| size > 0 && ((DEFAULT_SCRATCH_ALIGN as nat - addr % DEFAULT_SCRATCH_ALIGN as nat) as nat)
        % size == 0
}

/// Element types laid out for SIMD scratch use: a size that is a power of
/// two up to 64 bytes, and an alignment equal to the size.
pub open spec fn simd_layout<T>() -> bool {
    let size = vstd::layout::size_of::<T>();
    &&& size == 1 || size == 2 || size == 4 || size == 8 || size == 16 || size == 32 || size == 64
    &&& vstd::layout::align_of::<T>() == size
}

/// `addr` taken modulo the machine word, as address arithmetic wraps.
pub open spec fn word_address(addr: nat) -> usize {
    if addr > usize::MAX {
        (addr - usize::MAX - 1) as usize
    } else {
        addr as usize
    }
}

/// Elements whose size is a power of two up to 64 bytes, placed at an
/// address that is a multiple of their size, can always be aligned.
pub proof fn law_power_of_two_elements_align(addr: nat, size: nat)
    requires
        size == 1 || size == 2 || size == 4 || size == 8 || size == 16 || size == 32 || size
            == 64,
        addr % size == 0,
    ensures
        placement_alignable(addr, size),
{
    let r = addr % 64;
    vstd::arithmetic::div_mod::lemma_fundamental_div_mod(addr as int, 64);
    vstd::arithmetic::div_mod::lemma_fundamental_div_mod(addr as int, size as int);
    assert((64 - r) % (size as int) == 0) by (nonlinear_arith)
        requires
            size == 1 || size == 2 || size == 4 || size == 8 || size == 16 || size == 32 || size
                == 64,
            addr == 64 * (addr as int / 64) + r,
            0 <= r < 64,
            addr == size * (addr as int / size as int) + 0,
    ;
}

/// When the placement allows it, the offset chosen for the padding window
/// lands the first element on a 64-byte boundary.
proof fn lemma_alignable_offset(addr: usize, size: nat, offset: nat)
    requires
        offset == aligning_offset(addr as nat, size, padding_for(size)),
        offset == 0 || (addr + offset * size) % (DEFAULT_SCRATCH_ALIGN as int) == 0,
        placement_alignable(addr as nat, size),
    ensures
        (addr + offset * size) % (DEFAULT_SCRATCH_ALIGN as int) == 0,
{
    if addr % 64 != 0 {
        let need = (64 - addr % 64) as nat;
        assert(0 < need < 64);
        assert(need % size == 0);
        if size >= 64 {
            vstd::arithmetic::div_mod::lemma_small_mod(need, size);
            assert(false);
        }
        assert(padding_for(size) == 64nat / size);
        vstd::arithmetic::div_mod::lemma_div_is_ordered(need as int, 64, size as int);
        vstd::arithmetic::div_mod::lemma_fundamental_div_mod(need as int, size as int);
        assert(need / size >= 1) by (nonlinear_arith)
            requires
                need == size * (need / size) + need % size,
                need % size == 0,
                need > 0,
                size > 0,
        ;
        assert(offset == need / size);
    }
}

/// Padding elements reserved in front of a buffer so that some element in
/// the padding window starts on a 64-byte boundary.
fn pad_elems<T>() -> (pad: usize)
    ensures
        pad == padding_for(vstd::layout::size_of::<T>() as nat),
        pad * vstd::layout::size_of::<T>() <= DEFAULT_SCRATCH_ALIGN,
        pad <= DEFAULT_SCRATCH_ALIGN,
        vstd::layout::size_of::<T>() == 0 ==> pad == 0,
{
    let size = elem_size::<T>();
    if size == 0 || size >= DEFAULT_SCRATCH_ALIGN {
        0
    } else {
        proof {
            vstd::arithmetic::div_mod::lemma_fundamental_div_mod(64, size as int);
            assert((64int / size as int) * size <= 64 && 64int / size as int <= 64) by (nonlinear_arith)
                requires
                    64int == size * (64int / size as int) + 64int % size as int,
                    0 <= 64int % size as int,
                    size >= 1,
            ;
        }
        DEFAULT_SCRATCH_ALIGN / size
    }
}

/// Number of `size`-byte elements to skip from address `addr` to reach a
/// 64-byte boundary, if that is a whole number of elements within `pad`;
/// otherwise 0.
pub fn align_offset(addr: usize, size: usize, pad: usize) -> (offset: usize)
    ensures
        offset == aligning_offset(addr as nat, size as nat, pad as nat),
        offset <= pad,
        offset == 0 || (addr + offset * size) % (DEFAULT_SCRATCH_ALIGN as int) == 0,
        addr % DEFAULT_SCRATCH_ALIGN == 0 ==> offset == 0,
{
    let rem = addr % DEFAULT_SCRATCH_ALIGN;
    if rem == 0 || size == 0 {
        return 0;
    }
    let need = DEFAULT_SCRATCH_ALIGN - rem;
    if need % size == 0 && need / size <= pad {
        proof {
            vstd::arithmetic::div_mod::lemma_fundamental_div_mod(need as int, size as int);
            assert((need / size) * size == need) by (nonlinear_arith)
                requires
                    need == size * (need / size) + need % size,
                    need % size == 0,
            ;
            vstd::arithmetic::div_mod::lemma_fundamental_div_mod(addr as int, 64);
            vstd::arithmetic::div_mod::lemma_mod_multiples_vanish(addr as int / 64 + 1, 0, 64);
            assert(addr + need == 64 * (addr as int / 64 + 1));
            vstd::arithmetic::div_mod::lemma_mod_multiples_basic(addr as int / 64 + 1, 64);
        }
        need / size
    } else {
        0
    }
}

/// A growable buffer whose elements start on a 64-byte boundary, for SIMD
/// operations: always for element types with a [`simd_layout`], and for
/// others whenever the allocator's address allows it.
///
/// The abstract view is the initialized prefix: the elements the buffer
/// holds, in order. Capacity is tracked separately; growth follows a
/// doubling policy and newly exposed elements hold a fresh default value.
pub struct AlignedVec<T: ScratchElement> {
    storage: Vec<T>,
    base: usize,
    offset: usize,
    len: usize,
    capacity: usize,
}

impl<T: ScratchElement> View for AlignedVec<T> {
    type V = Seq<T>;

    closed spec fn view(&self) -> Seq<T> {
        self.storage@.subrange(self.offset as int, self.offset + self.len)
    }
}

impl<T: ScratchElement> AlignedVec<T> {
    /// The storage window always covers the capacity, the length never
    /// exceeds the capacity, and the capacity fits the byte budget.
    #[verifier::type_invariant]
    spec fn inv(self) -> bool {
        &&& self.offset + self.capacity <= self.storage@.len()
        &&& self.storage@.len() <= usize::MAX
        &&& self.len <= self.capacity
        &&& capacity_fits::<T>(self.capacity as nat)
        &&& self.offset * vstd::layout::size_of::<T>() <= DEFAULT_SCRATCH_ALIGN
        &&& self.base as nat % vstd::layout::align_of::<T>() == 0
        &&& self.base != 0
        &&& self.capacity > 0 && placement_alignable(
            self.base as nat,
            vstd::layout::size_of::<T>() as nat,
        ) ==> (self.base + self.offset * vstd::layout::size_of::<T>()) % (
        DEFAULT_SCRATCH_ALIGN as int) == 0
    }

    /// Address of the storage the buffer was last allocated at.
    pub closed spec fn spec_base(&self) -> usize {
        self.base
    }

    /// Elements of padding in front of the first element in that storage.
    pub closed spec fn spec_offset(&self) -> usize {
        self.offset
    }

    /// Address of the first element: the storage address plus the padding.
    pub open spec fn spec_start(&self) -> usize {
        word_address(
            self.spec_base() as nat + self.spec_offset() as nat * vstd::layout::size_of::<T>(),
        )
    }

    /// Whether `other` keeps the storage of `self`: the same address and
    /// padding, so the first element stays where it was.
    pub open spec fn same_placement(&self, other: &Self) -> bool {
        &&& self.spec_base() == other.spec_base()
        &&& self.spec_offset() == other.spec_offset()
    }

    /// Elements the buffer can hold before it must grow.
    pub closed spec fn spec_capacity(&self) -> nat {
        self.capacity as nat
    }

    /// Creates an empty buffer with zero capacity and no allocation.
    pub fn dangling() -> (v: Self)
        ensures
            v@ == Seq::<T>::empty(),
            v.spec_capacity() == 0,
    {
        let storage: Vec<T> = Vec::new();
        let base = vec_address(&storage);
        AlignedVec { storage, base, offset: 0, len: 0, capacity: 0 }
    }

    /// Allocates storage for `capacity` elements plus alignment padding,
    /// filled with `zero`, and the offset of the aligned window in it.
    fn fresh_storage(capacity: usize, zero: T) -> (r: (Vec<T>, usize, usize))
        requires
            capacity_fits::<T>(capacity as nat),
        ensures
            r.1 + capacity <= r.0@.len(),
            r.0@.len() <= usize::MAX,
            r.1 * vstd::layout::size_of::<T>() <= DEFAULT_SCRATCH_ALIGN,
            r.2 != 0,
            r.2 as nat % vstd::layout::align_of::<T>() == 0,
            placement_alignable(r.2 as nat, vstd::layout::size_of::<T>() as nat) ==> (r.2 + r.1
                * vstd::layout::size_of::<T>()) % (DEFAULT_SCRATCH_ALIGN as int) == 0,
    {
        let pad = pad_elems::<T>();
        let size = elem_size::<T>();
        proof {
            if size > 0 {
                assert(capacity <= capacity * size) by (nonlinear_arith)
                    requires
                        size > 0,
                ;
            }
        }
        let total = capacity + pad;
        let mut storage: Vec<T> = Vec::with_capacity(total);
        while storage.len() < total
            invariant
                storage@.len() <= total,
            decreases total - storage@.len(),
        {
            storage.push(zero);
        }
        let addr = vec_address(&storage);
        let offset = align_offset(addr, size, pad);
        proof {
            assert(offset * size <= pad * size) by (nonlinear_arith)
                requires
                    offset <= pad,
            ;
            if placement_alignable(addr as nat, size as nat) {
                lemma_alignable_offset(addr, size as nat, offset as nat);
            }
        }
        (storage, offset, addr)
    }

    /// Creates an empty buffer able to hold `capacity` elements.
    pub fn with_capacity(capacity: usize) -> (v: Self)
        requires
            capacity_fits::<T>(capacity as nat),
        ensures
            v@ == Seq::<T>::empty(),
            v.spec_capacity() == capacity,
    {
        if capacity == 0 {
            return Self::dangling();
        }
        let (storage, offset, base) = Self::fresh_storage(capacity, T::default());
        let v = AlignedVec { storage, base, offset, len: 0, capacity };
        assert(v@ =~= Seq::<T>::empty());
        v
    }

    /// Number of elements held.
    pub fn len(&self) -> (n: usize)
        ensures
            n == self@.len(),
    {
        proof {
            use_type_invariant(self);
        }
        self.len
    }

    /// Whether no element is held.
    pub fn is_empty(&self) -> (b: bool)
        ensures
            b == (self@.len() == 0),
    {
        proof {
            use_type_invariant(self);
        }
        self.len == 0
    }

    /// Elements the buffer can hold before it must grow; never below `len()`.
    pub fn capacity(&self) -> (n: usize)
        ensures
            n == self.spec_capacity(),
            n >= self@.len(),
            capacity_fits::<T>(n as nat),
    {
        proof {
            use_type_invariant(self);
        }
        self.capacity
    }

    /// The held elements as a slice.
    pub fn as_slice(&self) -> (s: &[T])
        ensures
            s@ == self@,
    {
        proof {
            use_type_invariant(self);
        }
        let all = self.storage.as_slice();
        &all[self.offset..self.offset + self.len]
    }

    /// The held elements as a mutable slice; writes through it update the
    /// buffer's elements in place.
    pub fn as_mut_slice(&mut self) -> (s: &mut [T])
        ensures
            s@ == old(self)@,
            final(s)@.len() == old(self)@.len(),
            final(self)@ == final(s)@,
            final(self).spec_capacity() == old(self).spec_capacity(),
            final(self).same_placement(old(self)),
    {
        proof {
            use_type_invariant(&*self);
        }
        let start = self.offset;
        let end = self.offset + self.len;
        let ghost old_storage = self.storage@;
        let s = vec_window_mut(&mut self.storage, start, end);
        proof {
            assert((old_storage.subrange(0, start as int) + final(s)@ + old_storage.subrange(
                end as int,
                old_storage.len() as int,
            )).subrange(start as int, end as int) =~= final(s)@);
        }
        s
    }

    /// Address of the first element: the storage address plus the padding.
    /// It is a multiple of 64 whenever the buffer holds storage and either
    /// the element type has a [`simd_layout`] or the allocator's placement
    /// otherwise allows it (see [`placement_alignable`]).
    pub fn as_ptr(&self) -> (p: usize)
        ensures
            p == self.spec_start(),
            self.spec_offset() == 0 ==> p == self.spec_base() && p != 0,
            self.spec_capacity() > 0 && placement_alignable(
                self.spec_base() as nat,
                vstd::layout::size_of::<T>() as nat,
            ) ==> p % DEFAULT_SCRATCH_ALIGN == 0,
            self.spec_capacity() > 0 && simd_layout::<T>() ==> p % DEFAULT_SCRATCH_ALIGN == 0,
    {
        proof {
            use_type_invariant(self);
            if simd_layout::<T>() {
                law_power_of_two_elements_align(
                    self.base as nat,
                    vstd::layout::size_of::<T>() as nat,
                );
            }
        }
        let step = self.offset * elem_size::<T>();
        let p = self.base.wrapping_add(step);
        proof {
            if self.base + step > usize::MAX {
                assert(p == self.base + step - usize::MAX - 1);
                assert((usize::MAX + 1) % 64 == 0) by {
                    assert(usize::MAX as int == 0xffff_ffffint || usize::MAX as int
                        == 0xffff_ffff_ffff_ffffint);
                }
            }
        }
        p
    }

    /// Address of the first element; the same as [`Self::as_ptr`].
    pub fn as_mut_ptr(&mut self) -> (p: usize)
        ensures
            p == old(self).spec_start(),
            old(self).spec_offset() == 0 ==> p == old(self).spec_base() && p != 0,
            old(self).spec_capacity() > 0 && placement_alignable(
                old(self).spec_base() as nat,
                vstd::layout::size_of::<T>() as nat,
            ) ==> p % DEFAULT_SCRATCH_ALIGN == 0,
            old(self).spec_capacity() > 0 && simd_layout::<T>() ==> p % DEFAULT_SCRATCH_ALIGN == 0,
            *final(self) == *old(self),
    {
        self.as_ptr()
    }

    /// Moves the held elements into fresh storage of exactly `new_capacity`
    /// elements.
    fn grow_to(&mut self, new_capacity: usize)
        requires
            new_capacity >= old(self)@.len(),
            capacity_fits::<T>(new_capacity as nat),
        ensures
            final(self)@ == old(self)@,
            final(self).spec_capacity() == new_capacity,
    {
        proof {
            use_type_invariant(&*self);
        }
        let (mut storage, offset, base) = Self::fresh_storage(new_capacity, T::default());
        let ghost held = self@;
        let mut i: usize = 0;
        while i < self.len
            invariant
                i <= self.len,
                self.len <= new_capacity,
                held.len() == self.len,
                offset + new_capacity <= storage@.len(),
                self.offset + self.len <= self.storage@.len(),
                storage@.len() <= usize::MAX,
                self.storage@.len() <= usize::MAX,
                held == self.storage@.subrange(self.offset as int, self.offset + self.len),
                forall|j: int| 0 <= j < i ==> #[trigger] storage@[offset + j] == held[j],
            decreases self.len - i,
        {
            storage[offset + i] = self.storage[self.offset + i];
            i = i + 1;
        }
        let len = self.len;
        let ghost new_storage = storage@;
        *self = AlignedVec { storage, base, offset, len, capacity: new_capacity };
        proof {
            assert(self.storage@ == new_storage);
            assert forall|j: int| 0 <= j < len implies #[trigger] self@[j] == held[j] by {
                assert(self@[j] == new_storage[offset + j]);
            }
            assert(self@ =~= held);
        }
    }

    /// Whether a buffer of `capacity` elements fits the byte budget: its
    /// elements and the alignment padding stay within the largest object
    /// size the platform allows.
    pub fn fits(capacity: usize) -> (ok: bool)
        ensures
            ok == capacity_fits::<T>(capacity as nat),
    {
        let size = elem_size::<T>();
        let limit: usize = (isize::MAX as usize) - DEFAULT_SCRATCH_ALIGN;
        let ok = size == 0 || capacity <= limit / size;
        proof {
            if size > 0 {
                vstd::arithmetic::div_mod::lemma_fundamental_div_mod(limit as int, size as int);
                if capacity <= limit / size {
                    assert(capacity * size <= (limit / size) * size) by (nonlinear_arith)
                        requires
                            capacity <= limit / size,
                            size > 0,
                    ;
                } else {
                    assert(capacity * size > limit) by (nonlinear_arith)
                        requires
                            capacity > limit / size,
                            size > 0,
                            limit == size * (limit / size) + limit % size,
                            limit % size < size,
                    ;
                }
            }
            assert(limit + DEFAULT_SCRATCH_ALIGN == isize::MAX);
            if size == 0 {
                assert(capacity * size == 0);
            }
        }
        ok
    }

    /// Capacity `ensure_len(min_len)` grows to when `min_len` exceeds the
    /// current capacity.
    fn growth_target(&self, min_len: usize) -> (cap: usize)
        requires
            capacity_fits::<T>(min_len as nat),
        ensures
            cap == grown_capacity::<T>(self.spec_capacity(), min_len as nat),
    {
        let doubled = saturating_mul(self.capacity, 2);
        let target = if min_len >= doubled { min_len } else { doubled };
        let fits = Self::fits(target);
        proof {
            let d: nat = if self.capacity * 2 > usize::MAX {
                usize::MAX as nat
            } else {
                (self.capacity * 2) as nat
            };
            assert(doubled == d);
        }
        if fits {
            target
        } else {
            min_len
        }
    }
}


impl<T: ScratchElement> AlignedVec<T> {
    /// All capacity slots, held elements first.
    closed spec fn slots(&self) -> Seq<T> {
        self.storage@.subrange(self.offset as int, self.offset + self.capacity)
    }

    /// The view is the held prefix of the slots.
    proof fn lemma_view_is_prefix(&self)
        requires
            self.offset + self.capacity <= self.storage@.len(),
            self.len <= self.capacity,
        ensures
            self@ == self.slots().subrange(0, self.len as int),
            self.slots().len() == self.capacity,
    {
        assert(self@ =~= self.slots().subrange(0, self.len as int));
    }

    /// Overwrites slot `i`.
    fn write_slot(&mut self, i: usize, x: T)
        requires
            i < old(self).spec_capacity(),
        ensures
            final(self).slots() == old(self).slots().update(i as int, x),
            final(self).len == old(self).len,
            final(self).capacity == old(self).capacity,
            final(self).offset == old(self).offset,
            final(self).base == old(self).base,
            final(self).offset + final(self).capacity <= final(self).storage@.len(),
            final(self).len <= final(self).capacity,
    {
        proof {
            use_type_invariant(&*self);
        }
        let pos = self.offset + i;
        self.storage[pos] = x;
        proof {
            assert(self.slots() =~= old(self).slots().update(i as int, x));
        }
    }

    /// Reads slot `i`.
    fn read_slot(&self, i: usize) -> (x: T)
        requires
            i < self.spec_capacity(),
        ensures
            x == self.slots()[i as int],
    {
        proof {
            use_type_invariant(self);
        }
        self.storage[self.offset + i]
    }

    /// Sets the number of held elements, keeping every slot.
    fn set_len(&mut self, n: usize)
        requires
            n <= old(self).spec_capacity(),
        ensures
            final(self).slots() == old(self).slots(),
            final(self).len == n,
            final(self).capacity == old(self).capacity,
            final(self).offset + final(self).capacity <= final(self).storage@.len(),
            final(self)@ == old(self).slots().subrange(0, n as int),
            final(self).same_placement(old(self)),
    {
        proof {
            use_type_invariant(&*self);
        }
        self.len = n;
        proof {
            self.lemma_view_is_prefix();
        }
    }

    /// Grows the buffer to hold at least `min_len` elements. Only grows,
    /// never shrinks; elements already held keep their values and every
    /// newly exposed element holds a fresh default value.
    ///
    /// When `min_len` exceeds the capacity, the capacity becomes
    /// [`grown_capacity`]: at least double the old capacity, so repeated
    /// growth is amortized.
    pub fn ensure_len(&mut self, min_len: usize)
        requires
            capacity_fits::<T>(min_len as nat),
        ensures
            min_len <= old(self)@.len() ==> final(self)@ == old(self)@,
            min_len > old(self)@.len() ==> {
                &&& final(self)@.len() == min_len
                &&& final(self)@.subrange(0, old(self)@.len() as int) == old(self)@
                &&& forall|i: int|
                    old(self)@.len() <= i < min_len ==> is_fresh(#[trigger] final(self)@[i])
            },
            min_len > old(self).spec_capacity() ==> final(self).spec_capacity()
                == grown_capacity::<T>(old(self).spec_capacity(), min_len as nat),
            min_len <= old(self).spec_capacity() ==> final(self).spec_capacity() == old(self).spec_capacity(),
            min_len <= old(self).spec_capacity() ==> final(self).same_placement(old(self)),
    {
        proof {
            use_type_invariant(&*self);
            self.lemma_view_is_prefix();
        }
        if min_len <= self.len {
            return;
        }
        if min_len > self.capacity {
            let cap = self.growth_target(min_len);
            self.grow_to(cap);
        }
        proof {
            use_type_invariant(&*self);
            self.lemma_view_is_prefix();
        }
        let zero = T::default();
        let start = self.len;
        let ghost held = self@;
        let mut i: usize = start;
        while i < min_len
            invariant
                start == held.len(),
                start <= i <= min_len,
                min_len <= self.capacity,
                self.len == start,
                self.offset + self.capacity <= self.storage@.len(),
                self.len <= self.capacity,
                self.slots().subrange(0, start as int) == held,
                forall|j: int| start <= j < i ==> #[trigger] self.slots()[j] == zero,
                is_fresh(zero),
                min_len <= old(self).capacity ==> self.base == old(self).base && self.offset
                    == old(self).offset,
                self.capacity == if min_len > old(self).capacity {
                    grown_capacity::<T>(old(self).capacity as nat, min_len as nat)
                } else {
                    old(self).capacity as nat
                },
            decreases min_len - i,
        {
            let ghost before = self.slots();
            self.write_slot(i, zero);
            proof {
                assert(self.slots().subrange(0, start as int) =~= before.subrange(0, start as int));
            }
            i = i + 1;
        }
        self.set_len(min_len);
        proof {
            assert(self@.subrange(0, start as int) =~= held);
        }
    }
}


impl<T: ScratchElement> AlignedVec<T> {
    /// Grows the capacity so that `additional` more elements fit, following
    /// the doubling policy; the held elements are untouched.
    fn reserve(&mut self, additional: usize)
        requires
            capacity_fits::<T>((old(self)@.len() + additional) as nat),
        ensures
            final(self)@ == old(self)@,
            final(self).spec_capacity() >= old(self)@.len() + additional,
            old(self)@.len() + additional > old(self).spec_capacity() ==> final(self).spec_capacity()
                == grown_capacity::<T>(
                old(self).spec_capacity(),
                (old(self)@.len() + additional) as nat,
            ),
            old(self)@.len() + additional <= old(self).spec_capacity() ==> final(self).spec_capacity() == old(self).spec_capacity(),
    {
        proof {
            use_type_invariant(&*self);
            self.lemma_view_is_prefix();
        }
        let needed = self.len + additional;
        if needed > self.capacity {
            let cap = self.growth_target(needed);
            self.grow_to(cap);
        }
    }

    /// Creates a buffer of exactly `len` fresh default elements, with
    /// capacity `len`.
    pub fn zeroed(len: usize) -> (v: Self)
        requires
            capacity_fits::<T>(len as nat),
        ensures
            v@.len() == len,
            forall|i: int| 0 <= i < len ==> is_fresh(#[trigger] v@[i]),
            v.spec_capacity() == len,
    {
        let mut v = Self::with_capacity(len);
        v.ensure_len(len);
        v
    }

    /// Creates a buffer of exactly `len` elements, every one equal to
    /// `value`, with capacity `len`.
    pub fn filled(len: usize, value: T) -> (v: Self)
        requires
            capacity_fits::<T>(len as nat),
        ensures
            v@ == Seq::new(len as nat, |i: int| value),
            v.spec_capacity() == len,
    {
        let mut v = Self::with_capacity(len);
        v.resize(len, value);
        v
    }

    /// Creates a buffer holding a copy of `slice`, with capacity `slice.len()`.
    pub fn from_slice(slice: &[T]) -> (v: Self)
        requires
            capacity_fits::<T>(slice@.len()),
        ensures
            v@ == slice@,
            v.spec_capacity() == slice@.len(),
    {
        let mut v = Self::with_capacity(slice.len());
        v.extend_from_slice(slice);
        v
    }

    /// Appends one element, growing the capacity by the doubling policy when
    /// the buffer is full.
    pub fn push(&mut self, value: T)
        requires
            capacity_fits::<T>((old(self)@.len() + 1) as nat),
        ensures
            final(self)@ == old(self)@.push(value),
            old(self)@.len() + 1 > old(self).spec_capacity() ==> final(self).spec_capacity()
                == grown_capacity::<T>(old(self).spec_capacity(), (old(self)@.len() + 1) as nat),
            old(self)@.len() + 1 <= old(self).spec_capacity() ==> final(self).spec_capacity()
                == old(self).spec_capacity(),
    {
        self.reserve(1);
        proof {
            use_type_invariant(&*self);
            self.lemma_view_is_prefix();
        }
        let n = self.len;
        self.write_slot(n, value);
        self.set_len(n + 1);
        proof {
            assert(self@ =~= old(self)@.push(value));
        }
    }

    /// Appends every element of `slice`, in order.
    pub fn extend_from_slice(&mut self, slice: &[T])
        requires
            capacity_fits::<T>((old(self)@.len() + slice@.len()) as nat),
        ensures
            final(self)@ == old(self)@ + slice@,
            old(self)@.len() + slice@.len() > old(self).spec_capacity() ==> final(self).spec_capacity() == grown_capacity::<T>(
                old(self).spec_capacity(),
                (old(self)@.len() + slice@.len()) as nat,
            ),
            old(self)@.len() + slice@.len() <= old(self).spec_capacity() ==> final(self).spec_capacity() == old(self).spec_capacity(),
    {
        proof {
            use_type_invariant(&*self);
        }
        if slice.len() == 0 {
            proof {
                assert(old(self)@ + slice@ =~= old(self)@);
            }
            return;
        }
        self.reserve(slice.len());
        proof {
            use_type_invariant(&*self);
            self.lemma_view_is_prefix();
        }
        let start = self.len;
        let mut i: usize = 0;
        while i < slice.len()
            invariant
                i <= slice@.len(),
                start == old(self)@.len(),
                self.len == start,
                start + slice@.len() <= self.capacity,
                self.offset + self.capacity <= self.storage@.len(),
                self.len <= self.capacity,
                self.slots().subrange(0, start as int) == old(self)@,
                forall|j: int| 0 <= j < i ==> #[trigger] self.slots()[start + j] == slice@[j],
                self.capacity >= old(self)@.len() + slice@.len(),
                old(self)@.len() + slice@.len() > old(self).spec_capacity() ==> self.capacity
                    == grown_capacity::<T>(
                    old(self).spec_capacity(),
                    (old(self)@.len() + slice@.len()) as nat,
                ),
                old(self)@.len() + slice@.len() <= old(self).spec_capacity() ==> self.capacity
                    == old(self).spec_capacity(),
            decreases slice@.len() - i,
        {
            let ghost before = self.slots();
            self.write_slot(start + i, slice[i]);
            proof {
                assert(self.slots().subrange(0, start as int) =~= before.subrange(0, start as int));
            }
            i = i + 1;
        }
        let ghost filled = self.slots();
        self.set_len(start + slice.len());
        proof {
            assert forall|j: int| 0 <= j < start + slice@.len() implies #[trigger] self@[j] == (old(self)@ + slice@)[j] by {
                if j < start {
                    assert(filled.subrange(0, start as int)[j] == filled[j]);
                } else {
                    assert(filled[start + (j - start)] == slice@[j - start]);
                }
            }
            assert(self@ =~= old(self)@ + slice@);
        }
    }

    /// Sets the length to `new_len`: new elements are copies of `value`;
    /// shrinking drops the tail and keeps the capacity.
    pub fn resize(&mut self, new_len: usize, value: T)
        requires
            capacity_fits::<T>(new_len as nat),
        ensures
            new_len <= old(self)@.len() ==> final(self)@ == old(self)@.subrange(0, new_len as int),
            new_len > old(self)@.len() ==> final(self)@ == old(self)@ + Seq::new(
                (new_len - old(self)@.len()) as nat,
                |i: int| value,
            ),
            new_len > old(self).spec_capacity() ==> final(self).spec_capacity()
                == grown_capacity::<T>(old(self).spec_capacity(), new_len as nat),
            new_len <= old(self).spec_capacity() ==> final(self).spec_capacity() == old(self).spec_capacity(),
    {
        proof {
            use_type_invariant(&*self);
            self.lemma_view_is_prefix();
        }
        if new_len <= self.len {
            self.set_len(new_len);
            proof {
                assert(self@ =~= old(self)@.subrange(0, new_len as int));
            }
            return;
        }
        let additional = new_len - self.len;
        self.reserve(additional);
        proof {
            use_type_invariant(&*self);
            self.lemma_view_is_prefix();
        }
        let start = self.len;
        let mut i: usize = start;
        while i < new_len
            invariant
                start == old(self)@.len(),
                start <= i <= new_len,
                self.len == start,
                new_len <= self.capacity,
                self.offset + self.capacity <= self.storage@.len(),
                self.len <= self.capacity,
                self.slots().subrange(0, start as int) == old(self)@,
                forall|j: int| start <= j < i ==> #[trigger] self.slots()[j] == value,
                new_len > old(self).spec_capacity() ==> self.capacity == grown_capacity::<T>(
                    old(self).spec_capacity(),
                    new_len as nat,
                ),
                new_len <= old(self).spec_capacity() ==> self.capacity == old(self).spec_capacity(),
            decreases new_len - i,
        {
            let ghost before = self.slots();
            self.write_slot(i, value);
            proof {
                assert(self.slots().subrange(0, start as int) =~= before.subrange(0, start as int));
            }
            i = i + 1;
        }
        self.set_len(new_len);
        proof {
            assert(self@ =~= old(self)@ + Seq::new((new_len - old(self)@.len()) as nat, |i: int| value));
        }
    }

    /// Removes every element, keeping the capacity for reuse.
    pub fn clear(&mut self)
        ensures
            final(self)@ == Seq::<T>::empty(),
            final(self).spec_capacity() == old(self).spec_capacity(),
            final(self).same_placement(old(self)),
    {
        self.set_len(0);
        proof {
            assert(self@ =~= Seq::<T>::empty());
        }
    }

    /// Shortens the buffer to `new_len` elements; no-op when `new_len` is not
    /// below the length. The capacity is kept.
    pub fn truncate(&mut self, new_len: usize)
        ensures
            new_len < old(self)@.len() ==> final(self)@ == old(self)@.subrange(0, new_len as int),
            new_len >= old(self)@.len() ==> final(self)@ == old(self)@,
            final(self).spec_capacity() == old(self).spec_capacity(),
    {
        proof {
            use_type_invariant(&*self);
            self.lemma_view_is_prefix();
        }
        if new_len < self.len {
            self.set_len(new_len);
            proof {
                assert(self@ =~= old(self)@.subrange(0, new_len as int));
            }
        }
    }

    /// Removes and returns the last element, or `None` if empty.
    pub fn pop(&mut self) -> (r: Option<T>)
        ensures
            old(self)@.len() == 0 ==> r is None && final(self)@ == old(self)@,
            old(self)@.len() > 0 ==> r == Some(old(self)@.last()) && final(self)@ == old(self)@.drop_last(),
            final(self).spec_capacity() == old(self).spec_capacity(),
    {
        proof {
            use_type_invariant(&*self);
            self.lemma_view_is_prefix();
        }
        if self.len == 0 {
            return None;
        }
        let n = self.len - 1;
        let x = self.read_slot(n);
        self.set_len(n);
        proof {
            assert(self@ =~= old(self)@.drop_last());
        }
        Some(x)
    }
}

} // verus!

verus! {

impl<T: ScratchElement> AlignedVec<T> {
    /// Creates a buffer of `len` elements where element `i` is what `f(i)`
    /// returns, calling `f` on `0, 1, .., len - 1` in order.
    pub fn from_fn<F: FnMut(usize) -> T>(len: usize, f: F) -> (v: Self)
        requires
            capacity_fits::<T>(len as nat),
            forall|i: usize| i < len ==> f.requires((i,)),
        ensures
            v@.len() == len,
            forall|i: int| 0 <= i < len ==> f.ensures((i as usize,), #[trigger] v@[i]),
            v.spec_capacity() == len,
    {
        let ghost f0 = f;
        let mut f = f;
        let mut v = Self::with_capacity(len);
        let mut i: usize = 0;
        while i < len
            invariant
                f == f0,
                i <= len,
                v@.len() == i,
                v.spec_capacity() == len,
                capacity_fits::<T>(len as nat),
                forall|k: usize| k < len ==> f.requires((k,)),
                forall|k: int| 0 <= k < i ==> f.ensures((k as usize,), #[trigger] v@[k]),
            decreases len - i,
        {
            let x = f(i);
            proof {
                lemma_capacity_fits_monotone::<T>((i + 1) as nat, len as nat);
            }
            v.push(x);
            i = i + 1;
        }
        v
    }
}

} // verus!

verus! {

impl<T: ScratchElement> AlignedVec<T> {
    /// Removes and returns the element at `index`, moving the last element
    /// into its place; element order is not preserved.
    pub fn swap_remove(&mut self, index: usize) -> (r: T)
        requires
            index < old(self)@.len(),
        ensures
            r == old(self)@[index as int],
            final(self)@ == old(self)@.update(index as int, old(self)@.last()).drop_last(),
            final(self).spec_capacity() == old(self).spec_capacity(),
    {
        proof {
            use_type_invariant(&*self);
            self.lemma_view_is_prefix();
        }
        let last_index = self.len - 1;
        let last = self.read_slot(last_index);
        let removed = self.read_slot(index);
        if index != last_index {
            self.write_slot(index, last);
        }
        let ghost written = self.slots();
        self.set_len(last_index);
        proof {
            assert(self@ =~= old(self)@.update(index as int, old(self)@.last()).drop_last()) by {
                assert forall|j: int| 0 <= j < last_index implies #[trigger] self@[j] == old(self)@.update(index as int, old(self)@.last())[j] by {
                    assert(self@[j] == written[j]);
                }
            }
        }
        removed
    }

    /// Removes and returns the element at `index`, shifting every later
    /// element one place left; order is preserved.
    pub fn remove(&mut self, index: usize) -> (r: T)
        requires
            index < old(self)@.len(),
        ensures
            r == old(self)@[index as int],
            final(self)@ == old(self)@.remove(index as int),
            final(self).spec_capacity() == old(self).spec_capacity(),
    {
        proof {
            use_type_invariant(&*self);
            self.lemma_view_is_prefix();
        }
        let ghost held = self@;
        let len = self.len;
        let removed = self.read_slot(index);
        let mut k: usize = index;
        while k + 1 < len
            invariant
                index <= k < len,
                len == held.len(),
                len == self.len,
                self.capacity == old(self).capacity,
                self.offset + self.capacity <= self.storage@.len(),
                self.len <= self.capacity,
                forall|j: int| 0 <= j < index ==> #[trigger] self.slots()[j] == held[j],
                forall|j: int| index <= j < k ==> #[trigger] self.slots()[j] == held[j + 1],
                forall|j: int| k <= j < len ==> #[trigger] self.slots()[j] == held[j],
            decreases len - k,
        {
            let next = self.read_slot(k + 1);
            self.write_slot(k, next);
            k = k + 1;
        }
        let ghost shifted = self.slots();
        self.set_len(len - 1);
        proof {
            assert forall|j: int| 0 <= j < len - 1 implies #[trigger] self@[j] == held.remove(
                index as int,
            )[j] by {
                assert(self@[j] == shifted[j]);
            }
            assert(self@ =~= held.remove(index as int));
        }
        removed
    }

    /// Inserts `value` at `index`, shifting every later element one place
    /// right; grows by the doubling policy when full.
    pub fn insert(&mut self, index: usize, value: T)
        requires
            index <= old(self)@.len(),
            capacity_fits::<T>((old(self)@.len() + 1) as nat),
        ensures
            final(self)@ == old(self)@.insert(index as int, value),
            old(self)@.len() + 1 > old(self).spec_capacity() ==> final(self).spec_capacity()
                == grown_capacity::<T>(old(self).spec_capacity(), (old(self)@.len() + 1) as nat),
            old(self)@.len() + 1 <= old(self).spec_capacity() ==> final(self).spec_capacity()
                == old(self).spec_capacity(),
    {
        self.reserve(1);
        proof {
            use_type_invariant(&*self);
            self.lemma_view_is_prefix();
        }
        let ghost held = self@;
        let ghost cap = self.capacity;
        let len = self.len;
        let mut k: usize = len;
        while k > index
            invariant
                index <= k <= len,
                len == held.len(),
                len == self.len,
                len < self.capacity,
                self.capacity == cap,
                self.offset + self.capacity <= self.storage@.len(),
                self.len <= self.capacity,
                forall|j: int| 0 <= j < k ==> #[trigger] self.slots()[j] == held[j],
                forall|j: int| k < j <= len ==> #[trigger] self.slots()[j] == held[j - 1],
            decreases k,
        {
            let prev = self.read_slot(k - 1);
            self.write_slot(k, prev);
            k = k - 1;
        }
        self.write_slot(index, value);
        let ghost shifted = self.slots();
        self.set_len(len + 1);
        proof {
            assert forall|j: int| 0 <= j <= len implies #[trigger] self@[j] == held.insert(
                index as int,
                value,
            )[j] by {
                assert(self@[j] == shifted[j]);
            }
            assert(self@ =~= held.insert(index as int, value));
        }
    }

    /// Overwrites every held element with `value`; the length and capacity
    /// are unchanged.
    pub fn fill(&mut self, value: T)
        ensures
            final(self)@ == Seq::new(old(self)@.len(), |i: int| value),
            final(self).spec_capacity() == old(self).spec_capacity(),
    {
        proof {
            use_type_invariant(&*self);
            self.lemma_view_is_prefix();
        }
        let len = self.len;
        let mut i: usize = 0;
        while i < len
            invariant
                i <= len,
                len == self.len,
                self.capacity == old(self).capacity,
                self.offset + self.capacity <= self.storage@.len(),
                self.len <= self.capacity,
                forall|j: int| 0 <= j < i ==> #[trigger] self.slots()[j] == value,
            decreases len - i,
        {
            self.write_slot(i, value);
            i = i + 1;
        }
        let ghost written = self.slots();
        self.set_len(len);
        proof {
            assert forall|j: int| 0 <= j < len implies #[trigger] self@[j] == value by {
                assert(self@[j] == written[j]);
            }
            assert(self@ =~= Seq::new(old(self)@.len(), |i: int| value));
        }
    }

    /// Sets the length to `min_len` and makes every element equal to `value`.
    pub fn resize_fill(&mut self, min_len: usize, value: T)
        requires
            capacity_fits::<T>(min_len as nat),
        ensures
            final(self)@ == Seq::new(min_len as nat, |i: int| value),
            min_len > old(self).spec_capacity() ==> final(self).spec_capacity()
                == grown_capacity::<T>(old(self).spec_capacity(), min_len as nat),
            min_len <= old(self).spec_capacity() ==> final(self).spec_capacity() == old(self).spec_capacity(),
    {
        self.resize(min_len, value);
        self.fill(value);
    }

    /// Moves every element of `other` onto the end of `self`, leaving
    /// `other` empty with its capacity kept.
    pub fn append(&mut self, other: &mut Self)
        requires
            capacity_fits::<T>((old(self)@.len() + old(other)@.len()) as nat),
        ensures
            final(self)@ == old(self)@ + old(other)@,
            final(other)@ == Seq::<T>::empty(),
            final(other).spec_capacity() == old(other).spec_capacity(),
            old(self)@.len() + old(other)@.len() > old(self).spec_capacity() ==> final(self).spec_capacity() == grown_capacity::<T>(
                old(self).spec_capacity(),
                (old(self)@.len() + old(other)@.len()) as nat,
            ),
            old(self)@.len() + old(other)@.len() <= old(self).spec_capacity() ==> final(self).spec_capacity() == old(self).spec_capacity(),
    {
        if !other.is_empty() {
            self.extend_from_slice(other.as_slice());
            other.clear();
        } else {
            proof {
                use_type_invariant(&*self);
                assert(old(self)@ + old(other)@ =~= old(self)@);
            }
        }
    }

    /// Splits off the elements from `at` on into a new buffer of exactly
    /// that many elements; `self` keeps the first `at` and its capacity.
    pub fn split_off(&mut self, at: usize) -> (tail: Self)
        requires
            at <= old(self)@.len(),
        ensures
            tail@ == old(self)@.subrange(at as int, old(self)@.len() as int),
            tail.spec_capacity() == old(self)@.len() - at,
            final(self)@ == old(self)@.subrange(0, at as int),
            final(self).spec_capacity() == old(self).spec_capacity(),
    {
        proof {
            use_type_invariant(&*self);
            self.lemma_view_is_prefix();
            lemma_capacity_fits_monotone::<T>((self.len - at) as nat, self.capacity as nat);
        }
        let all = self.as_slice();
        let tail = Self::from_slice(&all[at..all.len()]);
        self.truncate(at);
        tail
    }

    /// Reduces the capacity to `max(len(), min_capacity)` when it is larger;
    /// the held elements are kept. A target of zero drops the allocation.
    pub fn shrink_to(&mut self, min_capacity: usize)
        ensures
            final(self)@ == old(self)@,
            final(self).spec_capacity() == if old(self).spec_capacity() <= shrink_target(
                old(self)@.len(),
                min_capacity as nat,
            ) {
                old(self).spec_capacity()
            } else {
                shrink_target(old(self)@.len(), min_capacity as nat)
            },
    {
        proof {
            use_type_invariant(&*self);
        }
        let target = if self.len >= min_capacity {
            self.len
        } else {
            min_capacity
        };
        if self.capacity <= target {
            return;
        }
        if target == 0 {
            *self = Self::dangling();
            proof {
                assert(self@ =~= old(self)@);
            }
            return;
        }
        proof {
            lemma_capacity_fits_monotone::<T>(target as nat, self.capacity as nat);
        }
        self.grow_to(target);
    }

    /// Reduces the capacity to the length; an empty buffer drops its
    /// allocation.
    pub fn shrink_to_fit(&mut self)
        ensures
            final(self)@ == old(self)@,
            final(self).spec_capacity() == old(self)@.len(),
    {
        proof {
            use_type_invariant(&*self);
        }
        self.shrink_to(0);
    }

    /// Consumes the buffer and returns its elements as a `Vec`.
    pub fn into_vec(self) -> (v: Vec<T>)
        ensures
            v@ == self@,
    {
        self.copy_to_vec()
    }

    /// A `Vec` holding a copy of the held elements.
    fn copy_to_vec(&self) -> (v: Vec<T>)
        ensures
            v@ == self@,
    {
        let s = self.as_slice();
        let mut v: Vec<T> = Vec::with_capacity(s.len());
        let mut i: usize = 0;
        while i < s.len()
            invariant
                i <= s@.len(),
                v@ == s@.subrange(0, i as int),
            decreases s@.len() - i,
        {
            v.push(s[i]);
            proof {
                assert(v@ =~= s@.subrange(0, i + 1));
            }
            i = i + 1;
        }
        proof {
            assert(s@.subrange(0, s@.len() as int) =~= s@);
        }
        v
    }
}

/// The element of `s` at position `i`.
pub open spec fn elem_at<T>(s: Seq<T>, i: usize) -> T {
    s[i as int]
}

/// The element of `s` just before position `i`.
pub open spec fn elem_before<T>(s: Seq<T>, i: usize) -> T {
    s[i - 1]
}

/// The element before position `next` is the one at `next - 1`.
pub proof fn lemma_elem_next<T>(s: Seq<T>, at: usize, next: usize)
    requires
        next == at + 1,
    ensures
        elem_before(s, next) == elem_at(s, at),
{
}

/// The capacity `shrink_to(min_capacity)` aims for: never below the length.
pub open spec fn shrink_target(len: nat, min_capacity: nat) -> nat {
    if len >= min_capacity {
        len
    } else {
        min_capacity
    }
}

} // verus!

verus! {

/// The elements of `s` whose flag in `keep` is set, in order.
pub open spec fn kept<T>(s: Seq<T>, keep: Seq<bool>) -> Seq<T>
    decreases s.len(),
{
    if s.len() == 0 {
        Seq::empty()
    } else {
        let rest = kept(s.drop_last(), keep.take(s.len() - 1));
        if keep[s.len() - 1] {
            rest.push(s.last())
        } else {
            rest
        }
    }
}

/// `s` with each run of consecutive duplicates collapsed to its first
/// element: an element is dropped when `same(element, last kept element)`.
pub open spec fn dedup_by_spec<T>(s: Seq<T>, same: spec_fn(T, T) -> bool) -> Seq<T>
    decreases s.len(),
{
    if s.len() == 0 {
        Seq::empty()
    } else {
        let d = dedup_by_spec(s.drop_last(), same);
        if d.len() > 0 && same(s.last(), d.last()) {
            d
        } else {
            d.push(s.last())
        }
    }
}

/// Two elements count as duplicates under `key` when the keys it returns
/// for them compare equal.
pub open spec fn same_key<T, K: PartialEq, F: FnMut(&T) -> K>(key: F, a: T, b: T) -> bool {
    exists|ka: K, kb: K|
        #![trigger key.ensures((&a,), ka), key.ensures((&b,), kb)]
        key.ensures((&a,), ka) && key.ensures((&b,), kb) && ka.eq_spec(&kb)
}

/// `key` returns one value for each argument.
pub open spec fn key_is_function<T, K, F: FnMut(&T) -> K>(key: F) -> bool {
    forall|x: &T, k1: K, k2: K|
        #![trigger key.ensures((x,), k1), key.ensures((x,), k2)]
        key.ensures((x,), k1) && key.ensures((x,), k2) ==> k1 == k2
}

proof fn lemma_kept_len<T>(s: Seq<T>, keep: Seq<bool>)
    ensures
        kept(s, keep).len() <= s.len(),
    decreases s.len(),
{
    if s.len() > 0 {
        lemma_kept_len(s.drop_last(), keep.take(s.len() - 1));
    }
}

proof fn lemma_kept_step<T>(s: Seq<T>, keep: Seq<bool>, i: int)
    requires
        0 <= i < s.len(),
        i < keep.len(),
    ensures
        kept(s.take(i + 1), keep.take(i + 1)) == if keep[i] {
            kept(s.take(i), keep.take(i)).push(s[i])
        } else {
            kept(s.take(i), keep.take(i))
        },
{
    assert(s.take(i + 1).drop_last() =~= s.take(i));
    assert(keep.take(i + 1).take(i) =~= keep.take(i));
}

proof fn lemma_dedup_len<T>(s: Seq<T>, same: spec_fn(T, T) -> bool)
    ensures
        dedup_by_spec(s, same).len() <= s.len(),
        s.len() > 0 ==> dedup_by_spec(s, same).len() > 0,
    decreases s.len(),
{
    if s.len() > 0 {
        lemma_dedup_len(s.drop_last(), same);
    }
}

impl<T: ScratchElement> AlignedVec<T> {
    /// Keeps only the elements for which `predicate` returns `true`, in
    /// their order; the capacity is unchanged. `predicate` is called once
    /// per element, front to back.
    pub fn retain<F: FnMut(&T) -> bool>(&mut self, predicate: F)
        requires
            forall|i: int| 0 <= i < old(self)@.len() ==> predicate.requires((&old(self)@[i],)),
        ensures
            exists|keep: Seq<bool>|
                {
                    &&& keep.len() == old(self)@.len()
                    &&& forall|i: int|
                        0 <= i < old(self)@.len() ==> predicate.ensures(
                            (&old(self)@[i],),
                            #[trigger] keep[i],
                        )
                    &&& final(self)@ == kept(old(self)@, keep)
                },
            final(self).spec_capacity() == old(self).spec_capacity(),
    {
        proof {
            use_type_invariant(&*self);
            self.lemma_view_is_prefix();
        }
        let ghost held = self@;
        let ghost p0 = predicate;
        let mut predicate = predicate;
        let ghost mut keep: Seq<bool> = Seq::empty();
        let len = self.len;
        let mut write: usize = 0;
        let mut read: usize = 0;
        while read < len
            invariant
                predicate == p0,
                write <= read <= len,
                len == held.len(),
                len == self.len,
                keep.len() == read,
                self.capacity == old(self).capacity,
                self.offset + self.capacity <= self.storage@.len(),
                self.len <= self.capacity,
                forall|i: int| 0 <= i < held.len() ==> p0.requires((&held[i],)),
                forall|i: int| 0 <= i < read ==> p0.ensures((&held[i],), #[trigger] keep[i]),
                self.slots().subrange(0, write as int) == kept(held.take(read as int), keep),
                forall|j: int| read <= j < len ==> #[trigger] self.slots()[j] == held[j],
            decreases len - read,
        {
            let elem = self.read_slot(read);
            let take = predicate(&elem);
            proof {
                lemma_kept_step(held, keep.push(take), read as int);
                assert(keep.push(take).take(read as int) =~= keep);
                assert(keep.push(take).take(read + 1) =~= keep.push(take));
            }
            if take {
                let ghost before = self.slots();
                self.write_slot(write, elem);
                proof {
                    assert(self.slots().subrange(0, write + 1) =~= before.subrange(
                        0,
                        write as int,
                    ).push(elem));
                }
                write = write + 1;
            }
            proof {
                keep = keep.push(take);
            }
            read = read + 1;
        }
        let ghost compacted = self.slots();
        self.set_len(write);
        proof {
            assert(held.take(len as int) =~= held);
            assert(keep.take(len as int) =~= keep);
            assert(self@ =~= compacted.subrange(0, write as int));
            assert(kept(held, keep) == kept(held.take(len as int), keep.take(len as int)));
        }
    }
}

} // verus!

verus! {

impl<T: ScratchElement> AlignedVec<T> {
    /// Collapses each run of consecutive equal elements to its first
    /// element, comparing every element with the last one kept; the
    /// capacity is unchanged. Sort first to deduplicate globally.
    pub fn dedup(&mut self)
        where
            T: PartialEq,
        ensures
            T::obeys_eq_spec() ==> final(self)@ == dedup_by_spec(
                old(self)@,
                |a: T, b: T| a.eq_spec(&b),
            ),
            final(self)@.len() <= old(self)@.len(),
            final(self).spec_capacity() == old(self).spec_capacity(),
    {
        proof {
            use_type_invariant(&*self);
            self.lemma_view_is_prefix();
        }
        let ghost held = self@;
        let ghost same = |a: T, b: T| a.eq_spec(&b);
        let len = self.len;
        if len < 2 {
            proof {
                if len == 1 {
                    assert(held.drop_last() =~= Seq::<T>::empty());
                    assert(dedup_by_spec(held.drop_last(), same) == Seq::<T>::empty());
                    assert(dedup_by_spec(held, same) =~= held);
                } else {
                    assert(held =~= Seq::<T>::empty());
                }
            }
            return;
        }
        let mut write: usize = 1;
        let mut read: usize = 1;
        proof {
            assert(held.take(1).drop_last() =~= Seq::<T>::empty());
            assert(dedup_by_spec(held.take(1).drop_last(), same) == Seq::<T>::empty());
            assert(dedup_by_spec(held.take(1), same) =~= seq![held[0]]);
            assert(self.slots()[0] == held[0]);
            assert(self.slots().subrange(0, 1) =~= dedup_by_spec(held.take(1), same));
        }
        while read < len
            invariant
                1 <= write <= read <= len,
                len == held.len(),
                len == self.len,
                self.capacity == old(self).capacity,
                self.offset + self.capacity <= self.storage@.len(),
                self.len <= self.capacity,
                T::obeys_eq_spec() ==> self.slots().subrange(0, write as int) == dedup_by_spec(
                    held.take(read as int),
                    same,
                ),
                forall|j: int| read <= j < len ==> #[trigger] self.slots()[j] == held[j],
                same == (|a: T, b: T| a.eq_spec(&b)),
            decreases len - read,
        {
            let elem = self.read_slot(read);
            let prev = self.read_slot(write - 1);
            let differs = elem != prev;
            proof {
                assert(held.take(read + 1).drop_last() =~= held.take(read as int));
            }
            if differs {
                let ghost before = self.slots();
                self.write_slot(write, elem);
                proof {
                    assert(self.slots().subrange(0, write + 1) =~= before.subrange(
                        0,
                        write as int,
                    ).push(elem));
                }
                write = write + 1;
            }
            read = read + 1;
        }
        let ghost compacted = self.slots();
        self.set_len(write);
        proof {
            assert(held.take(len as int) =~= held);
            assert(self@ =~= compacted.subrange(0, write as int));
        }
    }

    /// Collapses each run of consecutive elements whose keys compare equal
    /// to its first element, comparing every element's key with the key of
    /// the last one kept; the capacity is unchanged.
    pub fn dedup_by_key<K: PartialEq, F: FnMut(&T) -> K>(&mut self, key: F)
        requires
            forall|x: &T| key.requires((x,)),
        ensures
            K::obeys_eq_spec() && key_is_function(key) ==> final(self)@ == dedup_by_spec(
                old(self)@,
                |a: T, b: T| same_key(key, a, b),
            ),
            final(self)@.len() <= old(self)@.len(),
            final(self).spec_capacity() == old(self).spec_capacity(),
    {
        proof {
            use_type_invariant(&*self);
            self.lemma_view_is_prefix();
        }
        let ghost held = self@;
        let ghost k0 = key;
        let ghost same = |a: T, b: T| same_key(k0, a, b);
        let mut key = key;
        let len = self.len;
        if len < 2 {
            proof {
                if len == 1 {
                    assert(held.drop_last() =~= Seq::<T>::empty());
                    assert(dedup_by_spec(held.drop_last(), same) == Seq::<T>::empty());
                    assert(dedup_by_spec(held, same) =~= held);
                } else {
                    assert(held =~= Seq::<T>::empty());
                }
            }
            return;
        }
        let mut write: usize = 1;
        let mut read: usize = 1;
        proof {
            assert(held.take(1).drop_last() =~= Seq::<T>::empty());
            assert(dedup_by_spec(held.take(1).drop_last(), same) == Seq::<T>::empty());
            assert(dedup_by_spec(held.take(1), same) =~= seq![held[0]]);
            assert(self.slots()[0] == held[0]);
            assert(self.slots().subrange(0, 1) =~= dedup_by_spec(held.take(1), same));
        }
        while read < len
            invariant
                key == k0,
                forall|x: &T| k0.requires((x,)),
                1 <= write <= read <= len,
                len == held.len(),
                len == self.len,
                self.capacity == old(self).capacity,
                self.offset + self.capacity <= self.storage@.len(),
                self.len <= self.capacity,
                K::obeys_eq_spec() && key_is_function(k0) ==> self.slots().subrange(0, write as int)
                    == dedup_by_spec(held.take(read as int), same),
                forall|j: int| read <= j < len ==> #[trigger] self.slots()[j] == held[j],
                same == (|a: T, b: T| same_key(k0, a, b)),
            decreases len - read,
        {
            let elem = self.read_slot(read);
            let prev = self.read_slot(write - 1);
            let ka = key(&elem);
            let kb = key(&prev);
            let differs = ka != kb;
            proof {
                assert(held.take(read + 1).drop_last() =~= held.take(read as int));
                if K::obeys_eq_spec() && key_is_function(k0) {
                    if same_key(k0, elem, prev) {
                        let (xa, xb) = choose|xa: K, xb: K|
                            k0.ensures((&elem,), xa) && k0.ensures((&prev,), xb) && xa.eq_spec(&xb);
                        assert(xa == ka && xb == kb);
                    }
                    assert(differs == !same(elem, prev));
                }
            }
            if differs {
                let ghost before = self.slots();
                self.write_slot(write, elem);
                proof {
                    assert(self.slots().subrange(0, write + 1) =~= before.subrange(
                        0,
                        write as int,
                    ).push(elem));
                }
                write = write + 1;
            }
            read = read + 1;
        }
        let ghost compacted = self.slots();
        self.set_len(write);
        proof {
            assert(held.take(len as int) =~= held);
            assert(self@ =~= compacted.subrange(0, write as int));
        }
    }
}

} // verus!

verus! {

/// The iterator [`AlignedVec::drain`] returns: it owns the removed elements
/// and yields them in order, from either end.
pub type Drain<T> = std::vec::IntoIter<T>;

/// The iterator [`AlignedVec::into_iter`] returns: it owns the elements and
/// yields them in order, from either end.
pub type IntoIter<T> = std::vec::IntoIter<T>;

/// The by-value iterator of an [`AlignedVec`], under its longer name.
pub type AlignedVecIntoIter<T> = IntoIter<T>;

impl<T: ScratchElement> AlignedVec<T> {
    /// Removes the elements in `start..end` and returns an iterator over
    /// them; later elements shift left to close the gap. The removal is
    /// complete when this returns, whether or not the iterator is consumed.
    pub fn drain(&mut self, start: usize, end: usize) -> (d: Drain<T>)
        requires
            start <= end <= old(self)@.len(),
        ensures
            IteratorSpec::remaining(&d) == old(self)@.subrange(start as int, end as int),
            final(self)@ == old(self)@.subrange(0, start as int) + old(self)@.subrange(
                end as int,
                old(self)@.len() as int,
            ),
            final(self).spec_capacity() == old(self).spec_capacity(),
    {
        proof {
            use_type_invariant(&*self);
            self.lemma_view_is_prefix();
        }
        let ghost held = self@;
        let len = self.len;
        let mut removed: Vec<T> = Vec::with_capacity(end - start);
        let mut i: usize = start;
        while i < end
            invariant
                start <= i <= end <= len,
                len == held.len(),
                len == self.len,
                self.capacity == old(self).capacity,
                self.offset + self.capacity <= self.storage@.len(),
                self.len <= self.capacity,
                held == self.slots().subrange(0, len as int),
                removed@ == held.subrange(start as int, i as int),
            decreases end - i,
        {
            let x = self.read_slot(i);
            removed.push(x);
            proof {
                assert(removed@ =~= held.subrange(start as int, i + 1));
            }
            i = i + 1;
        }
        let gap = end - start;
        let mut k: usize = start;
        while k + gap < len
            invariant
                start <= k <= len,
                gap == end - start,
                k + gap <= len,
                len == held.len(),
                len == self.len,
                self.capacity == old(self).capacity,
                self.offset + self.capacity <= self.storage@.len(),
                self.len <= self.capacity,
                forall|j: int| 0 <= j < start ==> #[trigger] self.slots()[j] == held[j],
                forall|j: int| start <= j < k ==> #[trigger] self.slots()[j] == held[j + gap],
                forall|j: int| k + gap <= j < len ==> #[trigger] self.slots()[j] == held[j],
            decreases len - k,
        {
            let x = self.read_slot(k + gap);
            self.write_slot(k, x);
            k = k + 1;
        }
        let ghost shifted = self.slots();
        self.set_len(len - gap);
        proof {
            let expect = held.subrange(0, start as int) + held.subrange(end as int, len as int);
            assert forall|j: int| 0 <= j < len - gap implies #[trigger] self@[j] == expect[j] by {
                assert(self@[j] == shifted[j]);
            }
            assert(self@ =~= expect);
        }
        removed.into_iter()
    }

    /// Consumes the buffer and returns an iterator over its elements.
    pub fn into_iter(self) -> (it: IntoIter<T>)
        ensures
            IteratorSpec::remaining(&it) == self@,
    {
        self.into_vec().into_iter()
    }

    /// Appends every element of `items`, in order, pushing them one by one:
    /// the capacity grows as [`Self::push`] grows it, and stays as it is
    /// when the elements fit.
    pub fn extend_from_iter(&mut self, items: Vec<T>)
        requires
            capacity_fits::<T>((old(self)@.len() + items@.len()) as nat),
        ensures
            final(self)@ == old(self)@ + items@,
            final(self).spec_capacity() == capacity_after_pushes::<T>(
                old(self).spec_capacity(),
                old(self)@.len(),
                items@.len(),
            ),
            old(self)@.len() + items@.len() <= old(self).spec_capacity()
                ==> final(self).spec_capacity() == old(self).spec_capacity(),
    {
        let ghost cap0 = self.spec_capacity();
        let ghost len0 = self@.len();
        let ghost start = self@;
        let mut i: usize = 0;
        while i < items.len()
            invariant
                i <= items@.len(),
                self@ == start + items@.subrange(0, i as int),
                self.spec_capacity() == capacity_after_pushes::<T>(cap0, len0, i as nat),
                capacity_fits::<T>((len0 + items@.len()) as nat),
                len0 == start.len(),
            decreases items@.len() - i,
        {
            proof {
                lemma_capacity_fits_monotone::<T>((self@.len() + 1) as nat, (len0 + items@.len()) as nat);
            }
            self.push(items[i]);
            i = i + 1;
            proof {
                assert(items@.subrange(0, i as int) =~= items@.subrange(0, i - 1).push(items@[i - 1]));
            }
        }
        proof {
            assert(items@.subrange(0, items@.len() as int) =~= items@);
            if len0 + items@.len() <= cap0 {
                lemma_pushes_within_capacity::<T>(cap0, len0, items@.len());
            }
        }
    }

    /// The held elements as a slice.
    pub fn as_ref(&self) -> (s: &[T])
        ensures
            s@ == self@,
    {
        self.as_slice()
    }

    /// The held elements as a slice.
    pub fn borrow(&self) -> (s: &[T])
        ensures
            s@ == self@,
    {
        self.as_slice()
    }
}

} // verus!

verus! {

/// Whether `s` begins with `prefix`, compared element by element.
pub open spec fn seq_starts_with<T: PartialEq>(s: Seq<T>, prefix: Seq<T>) -> bool {
    &&& prefix.len() <= s.len()
    &&& forall|i: int| 0 <= i < prefix.len() ==> #[trigger] s[i].eq_spec(&prefix[i])
}

/// Whether `s` ends with `suffix`, compared element by element.
pub open spec fn seq_ends_with<T: PartialEq>(s: Seq<T>, suffix: Seq<T>) -> bool {
    &&& suffix.len() <= s.len()
    &&& forall|i: int|
        0 <= i < suffix.len() ==> #[trigger] s[s.len() - suffix.len() + i].eq_spec(&suffix[i])
}

/// Whether each element of `s` is at most the next one.
pub open spec fn seq_is_sorted<T: PartialOrd>(s: Seq<T>) -> bool {
    forall|i: int| 0 <= i < s.len() - 1 ==> #[trigger] le_at(s, i)
}

/// Whether the element at `i` is at most the one after it.
pub open spec fn le_at<T: PartialOrd>(s: Seq<T>, i: int) -> bool {
    s[i].is_le(&s[i + 1])
}

/// `s` rotated left by `mid`: the element at `mid` comes first.
pub open spec fn rotated_left<T>(s: Seq<T>, mid: int) -> Seq<T> {
    s.subrange(mid, s.len() as int) + s.subrange(0, mid)
}

impl<T: ScratchElement> AlignedVec<T> {
    /// Whether some held element equals `value`.
    pub fn contains(&self, value: &T) -> (b: bool)
        where
            T: PartialEq,
        ensures
            T::obeys_eq_spec() ==> (b <==> exists|i: int|
                0 <= i < self@.len() && #[trigger] self@[i].eq_spec(value)),
    {
        match self.position(value) {
            Some(_) => true,
            None => false,
        }
    }

    /// Index of the first held element equal to `value`, if any.
    pub fn position(&self, value: &T) -> (r: Option<usize>)
        where
            T: PartialEq,
        ensures
            T::obeys_eq_spec() ==> match r {
                Some(i) => i < self@.len() && self@[i as int].eq_spec(value) && forall|j: int|
                    0 <= j < i ==> !(#[trigger] self@[j].eq_spec(value)),
                None => forall|j: int| 0 <= j < self@.len() ==> !(#[trigger] self@[j].eq_spec(value)),
            },
    {
        let s = self.as_slice();
        let mut i: usize = 0;
        while i < s.len()
            invariant
                i <= s@.len(),
                s@ == self@,
                T::obeys_eq_spec() ==> forall|j: int| 0 <= j < i ==> !(#[trigger] s@[j].eq_spec(value)),
            decreases s@.len() - i,
        {
            if s[i] == *value {
                return Some(i);
            }
            i = i + 1;
        }
        None
    }

    /// Whether every element is at most the next one.
    pub fn is_sorted(&self) -> (b: bool)
        where
            T: PartialOrd,
        ensures
            T::obeys_partial_cmp_spec() ==> (b <==> seq_is_sorted(self@)),
    {
        let s = self.as_slice();
        let mut i: usize = 1;
        while i < s.len()
            invariant
                1 <= i,
                i <= s@.len() || s@.len() == 0,
                s@ == self@,
                T::obeys_partial_cmp_spec() ==> forall|j: int|
                    0 <= j < i - 1 && j < s@.len() - 1 ==> #[trigger] le_at(s@, j),
            decreases s@.len() - i,
        {
            if !(s[i - 1] <= s[i]) {
                proof {
                    if T::obeys_partial_cmp_spec() {
                        assert(!le_at(s@, i - 1));
                    }
                }
                return false;
            }
            i = i + 1;
        }
        true
    }

    /// Whether the held elements begin with `prefix`.
    pub fn starts_with(&self, prefix: &[T]) -> (b: bool)
        where
            T: PartialEq,
        ensures
            b ==> prefix@.len() <= self@.len(),
            T::obeys_eq_spec() ==> (b <==> seq_starts_with(self@, prefix@)),
    {
        let s = self.as_slice();
        if prefix.len() > s.len() {
            return false;
        }
        let mut i: usize = 0;
        while i < prefix.len()
            invariant
                i <= prefix@.len() <= s@.len(),
                s@ == self@,
                T::obeys_eq_spec() ==> forall|j: int| 0 <= j < i ==> #[trigger] s@[j].eq_spec(&prefix@[j]),
            decreases prefix@.len() - i,
        {
            if !(s[i] == prefix[i]) {
                return false;
            }
            i = i + 1;
        }
        true
    }

    /// Whether the held elements end with `suffix`.
    pub fn ends_with(&self, suffix: &[T]) -> (b: bool)
        where
            T: PartialEq,
        ensures
            b ==> suffix@.len() <= self@.len(),
            T::obeys_eq_spec() ==> (b <==> seq_ends_with(self@, suffix@)),
    {
        let s = self.as_slice();
        if suffix.len() > s.len() {
            return false;
        }
        let total = s.len();
        let base = total - suffix.len();
        let mut i: usize = 0;
        while i < suffix.len()
            invariant
                i <= suffix@.len() <= s@.len(),
                base == s@.len() - suffix@.len(),
                base + suffix@.len() == s@.len(),
                s@.len() <= usize::MAX,
                s@ == self@,
                T::obeys_eq_spec() ==> forall|j: int|
                    0 <= j < i ==> #[trigger] s@[base + j].eq_spec(&suffix@[j]),
            decreases suffix@.len() - i,
        {
            if !(s[base + i] == suffix[i]) {
                return false;
            }
            i = i + 1;
        }
        true
    }

    /// The held elements after `prefix`, or `None` when they do not begin
    /// with it.
    pub fn strip_prefix(&self, prefix: &[T]) -> (r: Option<&[T]>)
        where
            T: PartialEq,
        ensures
            T::obeys_eq_spec() ==> match r {
                Some(rest) => seq_starts_with(self@, prefix@) && rest@ == self@.subrange(
                    prefix@.len() as int,
                    self@.len() as int,
                ),
                None => !seq_starts_with(self@, prefix@),
            },
    {
        if self.starts_with(prefix) {
            let s = self.as_slice();
            Some(&s[prefix.len()..s.len()])
        } else {
            None
        }
    }

    /// The held elements before `suffix`, or `None` when they do not end
    /// with it.
    pub fn strip_suffix(&self, suffix: &[T]) -> (r: Option<&[T]>)
        where
            T: PartialEq,
        ensures
            T::obeys_eq_spec() ==> match r {
                Some(rest) => seq_ends_with(self@, suffix@) && rest@ == self@.subrange(
                    0,
                    self@.len() - suffix@.len(),
                ),
                None => !seq_ends_with(self@, suffix@),
            },
    {
        if self.ends_with(suffix) {
            let s = self.as_slice();
            Some(&s[0..s.len() - suffix.len()])
        } else {
            None
        }
    }

    /// Exchanges the elements at `i` and `j`.
    pub fn swap(&mut self, i: usize, j: usize)
        requires
            i < old(self)@.len(),
            j < old(self)@.len(),
        ensures
            final(self)@ == old(self)@.update(i as int, old(self)@[j as int]).update(
                j as int,
                old(self)@[i as int],
            ),
            final(self).spec_capacity() == old(self).spec_capacity(),
    {
        proof {
            use_type_invariant(&*self);
            self.lemma_view_is_prefix();
        }
        let len = self.len;
        let a = self.read_slot(i);
        let b = self.read_slot(j);
        self.write_slot(i, b);
        self.write_slot(j, a);
        let ghost written = self.slots();
        self.set_len(len);
        proof {
            let expect = old(self)@.update(i as int, b).update(j as int, a);
            assert forall|k: int| 0 <= k < len implies #[trigger] self@[k] == expect[k] by {
                assert(self@[k] == written[k]);
            }
            assert(self@ =~= expect);
        }
    }

    /// Reverses the order of the held elements.
    pub fn reverse_inplace(&mut self)
        ensures
            final(self)@ == old(self)@.reverse(),
            final(self).spec_capacity() == old(self).spec_capacity(),
    {
        proof {
            use_type_invariant(&*self);
            self.lemma_view_is_prefix();
        }
        let ghost held = self@;
        let len = self.len;
        let mut i: usize = 0;
        while i < len / 2
            invariant
                i <= len / 2,
                len == held.len(),
                len == self.len,
                self.capacity == old(self).capacity,
                self.offset + self.capacity <= self.storage@.len(),
                self.len <= self.capacity,
                forall|k: int| 0 <= k < i ==> #[trigger] self.slots()[k] == held[len - 1 - k],
                forall|k: int| len - i <= k < len ==> #[trigger] self.slots()[k] == held[len - 1 - k],
                forall|k: int| i <= k < len - i ==> #[trigger] self.slots()[k] == held[k],
            decreases len / 2 - i,
        {
            let a = self.read_slot(i);
            let b = self.read_slot(len - 1 - i);
            self.write_slot(i, b);
            self.write_slot(len - 1 - i, a);
            i = i + 1;
        }
        let ghost written = self.slots();
        self.set_len(len);
        proof {
            assert forall|k: int| 0 <= k < len implies #[trigger] self@[k] == held.reverse()[k] by {
                assert(self@[k] == written[k]);
            }
            assert(self@ =~= held.reverse());
        }
    }

    /// Rotates the held elements left by `mid`: the element at `mid`
    /// becomes the first.
    pub fn rotate_left(&mut self, mid: usize)
        requires
            mid <= old(self)@.len(),
        ensures
            final(self)@ == rotated_left(old(self)@, mid as int),
            final(self).spec_capacity() == old(self).spec_capacity(),
    {
        proof {
            use_type_invariant(&*self);
            self.lemma_view_is_prefix();
        }
        let ghost held = self@;
        let len = self.len;
        let copy = self.copy_to_vec();
        let mut i: usize = 0;
        while i < len
            invariant
                i <= len,
                len == held.len(),
                len == self.len,
                copy@ == held,
                mid <= len,
                self.capacity == old(self).capacity,
                self.offset + self.capacity <= self.storage@.len(),
                self.len <= self.capacity,
                forall|k: int| 0 <= k < i ==> #[trigger] self.slots()[k] == rotated_left(held, mid as int)[k],
            decreases len - i,
        {
            let src = if i < len - mid {
                i + mid
            } else {
                i - (len - mid)
            };
            self.write_slot(i, copy[src]);
            i = i + 1;
        }
        let ghost written = self.slots();
        self.set_len(len);
        proof {
            let expect = rotated_left(held, mid as int);
            assert forall|k: int| 0 <= k < len implies #[trigger] self@[k] == expect[k] by {
                assert(self@[k] == written[k]);
            }
            assert(self@ =~= expect);
        }
    }

    /// Rotates the held elements right by `k`: the last `k` elements move to
    /// the front.
    pub fn rotate_right(&mut self, k: usize)
        requires
            k <= old(self)@.len(),
        ensures
            final(self)@ == rotated_left(old(self)@, old(self)@.len() - k),
            final(self).spec_capacity() == old(self).spec_capacity(),
    {
        proof {
            use_type_invariant(&*self);
        }
        let mid = self.len - k;
        self.rotate_left(mid);
    }
}

} // verus!

verus! {

impl<T: ScratchElement> AlignedVec<T> {
    /// The first element, or `None` when empty.
    pub fn first(&self) -> (r: Option<&T>)
        ensures
            self@.len() == 0 ==> r is None,
            self@.len() > 0 ==> r == Some(&self@[0]),
    {
        self.as_slice().first()
    }

    /// The last element, or `None` when empty.
    pub fn last(&self) -> (r: Option<&T>)
        ensures
            self@.len() == 0 ==> r is None,
            self@.len() > 0 ==> r == Some(&self@.last()),
    {
        self.as_slice().last()
    }

    /// The first element, writable, or `None` when empty.
    pub fn first_mut(&mut self) -> (r: Option<&mut T>)
        ensures
            old(self)@.len() == 0 ==> r is None && final(self)@ == old(self)@,
            old(self)@.len() > 0 ==> r is Some && *r->0 == old(self)@[0] && final(self)@ == old(
                self)@.update(0, *final(r->0)),
    {
        let s = self.as_mut_slice();
        s.first_mut()
    }

    /// The last element, writable, or `None` when empty.
    pub fn last_mut(&mut self) -> (r: Option<&mut T>)
        ensures
            old(self)@.len() == 0 ==> r is None && final(self)@ == old(self)@,
            old(self)@.len() > 0 ==> r is Some && *r->0 == old(self)@.last() && final(self)@ == old(
                self)@.update(old(self)@.len() - 1, *final(r->0)),
    {
        let s = self.as_mut_slice();
        s.last_mut()
    }

    /// The held elements split into those before `mid` and those from it on.
    pub fn split_at(&self, mid: usize) -> (r: (&[T], &[T]))
        requires
            mid <= self@.len(),
        ensures
            r.0@ == self@.subrange(0, mid as int),
            r.1@ == self@.subrange(mid as int, self@.len() as int),
    {
        self.as_slice().split_at(mid)
    }

    /// The held elements split, writable, into those before `mid` and those
    /// from it on.
    pub fn split_at_mut(&mut self, mid: usize) -> (r: (&mut [T], &mut [T]))
        requires
            mid <= old(self)@.len(),
        ensures
            r.0@ == old(self)@.subrange(0, mid as int),
            r.1@ == old(self)@.subrange(mid as int, old(self)@.len() as int),
            final(self)@ == final(r.0)@ + final(r.1)@,
    {
        let s = self.as_mut_slice();
        s.split_at_mut(mid)
    }

    /// Every run of `size` consecutive elements, in order of its start.
    pub fn windows_iter(&self, size: usize) -> (w: Vec<&[T]>)
        requires
            size > 0,
        ensures
            w@.len() == if self@.len() >= size { self@.len() - size + 1 } else { 0 },
            forall|i: int|
                0 <= i < w@.len() ==> (#[trigger] w@[i])@ == self@.subrange(i, i + size),
    {
        let s = self.as_slice();
        let mut w: Vec<&[T]> = Vec::new();
        if s.len() < size {
            return w;
        }
        let count = s.len() - size + 1;
        let mut i: usize = 0;
        while i < count
            invariant
                i <= count,
                s@.len() <= usize::MAX,
                count == s@.len() - size + 1,
                s@ == self@,
                w@.len() == i,
                forall|k: int| 0 <= k < i ==> (#[trigger] w@[k])@ == self@.subrange(k, k + size),
            decreases count - i,
        {
            w.push(&s[i..i + size]);
            i = i + 1;
        }
        w
    }

    /// The held elements in consecutive pieces of `chunk_size`, in order;
    /// the last piece is shorter when the length is not a multiple.
    pub fn chunks_iter(&self, chunk_size: usize) -> (c: Vec<&[T]>)
        requires
            chunk_size > 0,
        ensures
            c@.len() == (self@.len() + chunk_size - 1) / chunk_size as int,
            forall|i: int|
                0 <= i < c@.len() ==> (#[trigger] c@[i])@ == self@.subrange(
                    i * chunk_size,
                    if (i + 1) * chunk_size <= self@.len() {
                        (i + 1) * chunk_size
                    } else {
                        self@.len() as int
                    },
                ),
    {
        self.pieces(chunk_size, false)
    }

    /// The held elements in consecutive pieces of exactly `chunk_size`, in
    /// order; the elements after the last whole piece are left out.
    pub fn chunks_exact(&self, chunk_size: usize) -> (c: Vec<&[T]>)
        requires
            chunk_size > 0,
        ensures
            c@.len() == self@.len() as int / chunk_size as int,
            forall|i: int|
                0 <= i < c@.len() ==> (#[trigger] c@[i])@ == self@.subrange(
                    i * chunk_size,
                    (i + 1) * chunk_size,
                ),
    {
        let c = self.pieces(chunk_size, true);
        proof {
            let l = self@.len() as int;
            let z = chunk_size as int;
            assert forall|i: int| 0 <= i < c@.len() implies (#[trigger] c@[i])@ == self@.subrange(
                i * chunk_size,
                (i + 1) * chunk_size,
            ) by {
                vstd::arithmetic::div_mod::lemma_fundamental_div_mod(l, z);
                assert((i + 1) * z <= (l / z) * z) by (nonlinear_arith)
                    requires
                        i + 1 <= l / z,
                        z > 0,
                ;
                assert((l / z) * z <= l) by (nonlinear_arith)
                    requires
                        l == z * (l / z) + l % z,
                        l % z >= 0,
                ;
            }
        }
        c
    }

    /// Consecutive pieces of `size` elements; with `exact`, a shorter final
    /// piece is left out.
    fn pieces(&self, size: usize, exact: bool) -> (c: Vec<&[T]>)
        requires
            size > 0,
        ensures
            c@.len() == if exact {
                self@.len() as int / size as int
            } else {
                (self@.len() + size - 1) / size as int
            },
            forall|i: int|
                0 <= i < c@.len() ==> (#[trigger] c@[i])@ == self@.subrange(
                    i * size,
                    if (i + 1) * size <= self@.len() {
                        (i + 1) * size
                    } else {
                        self@.len() as int
                    },
                ),
    {
        let s = self.as_slice();
        let len = s.len();
        let mut c: Vec<&[T]> = Vec::new();
        let mut start: usize = 0;
        proof {
            assert(0 * size == 0) by (nonlinear_arith);
        }
        while len - start >= size
            invariant
                size > 0,
                s@ == self@,
                len == s@.len(),
                start <= len,
                start == c@.len() * size,
                forall|i: int|
                    0 <= i < c@.len() ==> (#[trigger] c@[i])@ == self@.subrange(
                        i * size,
                        (i + 1) * size,
                    ),
            decreases len - start,
        {
            proof {
                assert((c@.len() + 1) * size == c@.len() * size + size) by (nonlinear_arith);
            }
            c.push(&s[start..start + size]);
            start = start + size;
        }
        let ghost before_tail = c@;
        let ghost full = c@.len() as int;
        if !exact && start < len {
            proof {
                assert((full + 1) * size == full * size + size) by (nonlinear_arith);
            }
            c.push(&s[start..len]);
        }
        proof {
            let n = full;
            let l = len as int;
            let z = size as int;
            assert(n * z <= l && l - n * z < z);
            assert forall|i: int| 0 <= i < c@.len() implies (#[trigger] c@[i])@ == self@.subrange(
                i * size,
                if (i + 1) * size <= self@.len() {
                    (i + 1) * size
                } else {
                    self@.len() as int
                },
            ) by {
                if i < n {
                    assert((i + 1) * z <= n * z) by (nonlinear_arith)
                        requires
                            i + 1 <= n,
                            z > 0,
                    ;
                    assert(c@[i] == before_tail[i]);
                } else {
                    assert((n + 1) * z == n * z + z) by (nonlinear_arith);
                    assert(i * z == n * z);
                }
            }
            if exact {
                assert(n == l / z) by (nonlinear_arith)
                    requires
                        n * z <= l,
                        l - n * z < z,
                        z > 0,
                ;
            } else if start < len {
                assert(n + 1 == (l + z - 1) / z) by (nonlinear_arith)
                    requires
                        n * z < l,
                        l - n * z < z,
                        z > 0,
                ;
            } else {
                assert(n == (l + z - 1) / z) by (nonlinear_arith)
                    requires
                        n * z == l,
                        z > 0,
                ;
            }
        }
        c
    }
}

} // verus!

verus! {

/// The end of piece `i` when `len` elements are cut into pieces of `size`:
/// a whole piece further on, or the end of the elements for a shorter last
/// piece.
pub open spec fn piece_end(i: int, size: int, len: int) -> int {
    if (i + 1) * size <= len {
        (i + 1) * size
    } else {
        len
    }
}

/// Cuts `s` into consecutive writable pieces of `size` elements; with
/// `exact`, a shorter final piece is left out. What is written through the
/// pieces is what `s` holds afterwards; elements in no piece keep their
/// values.
fn pieces_mut<T>(s: &mut [T], size: usize, exact: bool) -> (c: Vec<&mut [T]>)
    requires
        size > 0,
    ensures
        c@.len() == if exact {
            old(s)@.len() as int / size as int
        } else {
            (old(s)@.len() + size - 1) / size as int
        },
        forall|i: int|
            #![trigger c@[i]]
            0 <= i < c@.len() ==> c@[i]@ == old(s)@.subrange(
                i * size,
                piece_end(i, size as int, old(s)@.len() as int),
            ),
        final(s)@ == Seq::new(c@.len(), |i: int| final(c@[i])@).flatten() + old(s)@.subrange(
            if exact {
                c@.len() * size
            } else {
                old(s)@.len() as int
            },
            old(s)@.len() as int,
        ),
{
    let ghost s0 = s@;
    let len = s.len();
    let mut c: Vec<&mut [T]> = Vec::new();
    let mut start: usize = 0;
    let mut rest = s;
    proof {
        assert(0 * size == 0) by (nonlinear_arith);
        assert(rest@ =~= s0.subrange(0, len as int));
        assert(Seq::new(c@.len(), |i: int| final(c@[i])@) =~= Seq::<Seq<T>>::empty());
        assert(Seq::<Seq<T>>::empty().flatten() =~= Seq::<T>::empty());
    }
    while rest.len() >= size
        invariant
            size > 0,
            len == s0.len(),
            start <= len,
            start == c@.len() * size,
            rest@ == s0.subrange(start as int, len as int),
            forall|i: int|
                #![trigger c@[i]]
                0 <= i < c@.len() ==> c@[i]@ == s0.subrange(i * size, (i + 1) * size),
            final(s)@ == Seq::new(c@.len(), |i: int| final(c@[i])@).flatten() + final(rest)@,
        decreases len - start,
    {
        let ghost fr = final(rest)@;
        let ghost before = c@;
        let (head, tail) = rest.split_at_mut(size);
        proof {
            assert((c@.len() + 1) * size == c@.len() * size + size) by (nonlinear_arith);
            assert(fr == final(head)@ + final(tail)@);
        }
        let ghost h = head;
        let ghost t = tail;
        c.push(head);
        rest = tail;
        start = start + size;
        proof {
            assert(c@.subrange(0, before.len() as int) == before);
            assert(c@.last()@ == h@);
            assert(final(c@.last())@ == final(h)@);
            assert(final(rest)@ == final(t)@);
            lemma_pushed_piece(before, c@, h, t, rest);
            assert forall|i: int|
                #![trigger c@[i]]
                0 <= i < c@.len() implies c@[i]@ == s0.subrange(i * size, (i + 1) * size) by {
                if i < before.len() {
                    assert(c@[i] == before[i]);
                }
            }
        }
    }
    let ghost full = c@;
    let ghost n = c@.len() as int;
    let ghost left = rest@.len();
    if !exact && rest.len() > 0 {
        let ghost fr = final(rest)@;
        let ghost r = rest;
        proof {
            assert((n + 1) * size == n * size + size) by (nonlinear_arith);
        }
        c.push(rest);
        proof {
            assert(c@.subrange(0, n) == full);
            assert(c@.last()@ == r@);
            assert(final(c@.last())@ == fr);
            let old_fin = Seq::new(full.len(), |i: int| final(full[i])@);
            let new_fin = Seq::new(c@.len(), |i: int| final(c@[i])@);
            assert(new_fin =~= old_fin.push(fr)) by {
                assert forall|i: int| 0 <= i < full.len() implies new_fin[i] == old_fin[i] by {
                    assert(c@[i] == full[i]);
                }
            }
            old_fin.lemma_flatten_push(fr);
        }
    }
    proof {
        let l = len as int;
        let z = size as int;
        assert(n * z <= l && l - n * z < z);
        assert forall|i: int|
            #![trigger c@[i]]
            0 <= i < c@.len() implies c@[i]@ == s0.subrange(i * size, piece_end(i, z, l)) by {
            if i < n {
                assert((i + 1) * z <= n * z) by (nonlinear_arith)
                    requires
                        i + 1 <= n,
                        z > 0,
                ;
                assert(c@[i] == full[i]);
            } else {
                assert((n + 1) * z == n * z + z) by (nonlinear_arith);
                assert(i * z == n * z);
            }
        }
        if exact || left == 0 {
            assert(n == l / z) by (nonlinear_arith)
                requires
                    n * z <= l,
                    l - n * z < z,
                    z > 0,
            ;
        }
        if exact {
        } else if left > 0 {
            assert(n + 1 == (l + z - 1) / z) by (nonlinear_arith)
                requires
                    n * z < l,
                    l - n * z < z,
                    z > 0,
            ;
            assert(s0.subrange(l, l) =~= Seq::<T>::empty());
        } else {
            assert(n * z == l);
            assert(n == (l + z - 1) / z) by (nonlinear_arith)
                requires
                    n * z == l,
                    z > 0,
            ;
        }
    }
    c
}

/// After a piece `h` is cut off the front of the remainder and pushed, the
/// pieces' final contents followed by the new remainder's are what the old
/// pieces' and remainder's were.
proof fn lemma_pushed_piece<T>(
    before: Seq<&mut [T]>,
    after: Seq<&mut [T]>,
    h: &mut [T],
    t: &mut [T],
    rest: &mut [T],
)
    requires
        after.len() == before.len() + 1,
        after.subrange(0, before.len() as int) == before,
        after.last()@ == h@,
        final(after.last())@ == final(h)@,
        final(rest)@ == final(t)@,
    ensures
        Seq::new(after.len(), |i: int| final(after[i])@).flatten() + final(rest)@ == Seq::new(
            before.len(),
            |i: int| final(before[i])@,
        ).flatten() + (final(h)@ + final(t)@),
{
    let old_fin = Seq::new(before.len(), |i: int| final(before[i])@);
    let new_fin = Seq::new(after.len(), |i: int| final(after[i])@);
    assert(new_fin =~= old_fin.push(final(h)@)) by {
        assert forall|i: int| 0 <= i < before.len() implies new_fin[i] == old_fin[i] by {
            assert(after[i] == after.subrange(0, before.len() as int)[i]);
        }
    }
    old_fin.lemma_flatten_push(final(h)@);
    assert(new_fin.flatten() + final(rest)@ =~= old_fin.flatten() + (final(h)@ + final(t)@));
}

impl<T: ScratchElement> AlignedVec<T> {
    /// The held elements in consecutive writable pieces of `chunk_size`, in
    /// order; the last piece is shorter when the length is not a multiple.
    /// What is written through the pieces is what the buffer holds
    /// afterwards.
    pub fn chunks_mut(&mut self, chunk_size: usize) -> (c: Vec<&mut [T]>)
        requires
            chunk_size > 0,
        ensures
            c@.len() == (old(self)@.len() + chunk_size - 1) / chunk_size as int,
            forall|i: int|
                #![trigger c@[i]]
                0 <= i < c@.len() ==> c@[i]@ == old(self)@.subrange(
                    i * chunk_size,
                    piece_end(i, chunk_size as int, old(self)@.len() as int),
                ),
            final(self)@ == Seq::new(c@.len(), |i: int| final(c@[i])@).flatten(),
            final(self).spec_capacity() == old(self).spec_capacity(),
    {
        let s = self.as_mut_slice();
        let c = pieces_mut(s, chunk_size, false);
        proof {
            let l = old(self)@.len() as int;
            assert(old(self)@.subrange(l, l) =~= Seq::<T>::empty());
        }
        c
    }

    /// The held elements in consecutive writable pieces of exactly
    /// `chunk_size`, in order; the elements after the last whole piece are
    /// left out and keep their values.
    pub fn chunks_exact_mut(&mut self, chunk_size: usize) -> (c: Vec<&mut [T]>)
        requires
            chunk_size > 0,
        ensures
            c@.len() == old(self)@.len() as int / chunk_size as int,
            forall|i: int|
                #![trigger c@[i]]
                0 <= i < c@.len() ==> c@[i]@ == old(self)@.subrange(
                    i * chunk_size,
                    (i + 1) * chunk_size,
                ),
            final(self)@ == Seq::new(c@.len(), |i: int| final(c@[i])@).flatten() + old(
                self,
            )@.subrange(c@.len() * chunk_size, old(self)@.len() as int),
            final(self).spec_capacity() == old(self).spec_capacity(),
    {
        let s = self.as_mut_slice();
        let c = pieces_mut(s, chunk_size, true);
        proof {
            let l = old(self)@.len() as int;
            let z = chunk_size as int;
            assert forall|i: int|
                #![trigger c@[i]]
                0 <= i < c@.len() implies c@[i]@ == old(self)@.subrange(
                i * chunk_size,
                (i + 1) * chunk_size,
            ) by {
                vstd::arithmetic::div_mod::lemma_fundamental_div_mod(l, z);
                assert((i + 1) * z <= (l / z) * z) by (nonlinear_arith)
                    requires
                        i + 1 <= l / z,
                        z > 0,
                ;
                assert((l / z) * z <= l) by (nonlinear_arith)
                    requires
                        l == z * (l / z) + l % z,
                        l % z >= 0,
                ;
            }
        }
        c
    }
}

} // verus!

verus! {

impl<T: ScratchElement> Default for AlignedVec<T> {
    fn default() -> (v: Self)
        ensures
            v@ == Seq::<T>::empty(),
            v.spec_capacity() == 0,
    {
        Self::dangling()
    }
}

impl<T: ScratchElement> Clone for AlignedVec<T> {
    fn clone(&self) -> (c: Self)
        ensures
            c@ == self@,
            c.spec_capacity() == self@.len(),
    {
        proof {
            use_type_invariant(self);
            lemma_capacity_fits_monotone::<T>(self.len as nat, self.capacity as nat);
        }
        Self::from_slice(self.as_slice())
    }
}

impl<T: ScratchElement> core::ops::Deref for AlignedVec<T> {
    type Target = [T];

    fn deref(&self) -> (s: &[T])
        ensures
            s@ == self@,
    {
        self.as_slice()
    }
}

impl<T: ScratchElement + PartialEq> PartialEq for AlignedVec<T> {
    fn eq(&self, other: &Self) -> (r: bool) {
        let a = self.as_slice();
        let b = other.as_slice();
        if a.len() != b.len() {
            return false;
        }
        let mut i: usize = 0;
        while i < a.len()
            invariant
                i <= a@.len(),
                a@.len() == b@.len(),
                a@ == self@,
                b@ == other@,
                T::obeys_eq_spec() ==> forall|j: int| 0 <= j < i ==> #[trigger] a@[j].eq_spec(&b@[j]),
            decreases a@.len() - i,
        {
            if !(a[i] == b[i]) {
                return false;
            }
            i = i + 1;
        }
        true
    }
}

impl<T: ScratchElement + PartialEq> vstd::std_specs::cmp::PartialEqSpecImpl for AlignedVec<T> {
    open spec fn obeys_eq_spec() -> bool {
        T::obeys_eq_spec()
    }

    open spec fn eq_spec(&self, other: &Self) -> bool {
        &&& self@.len() == other@.len()
        &&& forall|i: int| 0 <= i < self@.len() ==> #[trigger] self@[i].eq_spec(&other@[i])
    }
}

} // verus!

verus! {

/// `pop` after `push(x)` returns `x` and leaves the elements as they were.
pub proof fn law_push_then_pop<T>(s: Seq<T>, x: T)
    ensures
        s.push(x).len() > 0,
        s.push(x).last() == x,
        s.push(x).drop_last() == s,
{
    assert(s.push(x).drop_last() =~= s);
}

/// `remove(i)` after `insert(i, x)` returns `x` and leaves the elements as
/// they were.
pub proof fn law_insert_then_remove<T>(s: Seq<T>, i: int, x: T)
    requires
        0 <= i <= s.len(),
    ensures
        s.insert(i, x)[i] == x,
        s.insert(i, x).remove(i) == s,
{
    assert(s.insert(i, x).remove(i) =~= s);
}

/// `append` of what `split_off(at)` returned restores the elements.
pub proof fn law_split_off_then_append<T>(s: Seq<T>, at: int)
    requires
        0 <= at <= s.len(),
    ensures
        s.subrange(0, at) + s.subrange(at, s.len() as int) == s,
{
    assert(s.subrange(0, at) + s.subrange(at, s.len() as int) =~= s);
}

/// What `drain(start, end)` yields, put back between what it leaves on
/// either side, is the sequence drained: no element is lost or repeated.
pub proof fn law_drain_partitions<T>(s: Seq<T>, start: int, end: int)
    requires
        0 <= start <= end <= s.len(),
    ensures
        s.subrange(0, start) + s.subrange(start, end) + s.subrange(end, s.len() as int) == s,
        (s.subrange(0, start) + s.subrange(end, s.len() as int)).len() + (end - start) == s.len(),
{
    assert(s.subrange(0, start) + s.subrange(start, end) + s.subrange(end, s.len() as int) =~= s);
}

/// `rotate_right(k)` undoes `rotate_left(k)`.
pub proof fn law_rotate_left_then_right<T>(s: Seq<T>, mid: int)
    requires
        0 <= mid <= s.len(),
    ensures
        rotated_left(rotated_left(s, mid), s.len() - mid) == s,
{
    let r = rotated_left(s, mid);
    assert(r.len() == s.len());
    assert(rotated_left(r, s.len() - mid) =~= s);
}

/// Reversing twice restores the elements.
pub proof fn law_reverse_twice<T>(s: Seq<T>)
    ensures
        s.reverse().reverse() == s,
{
    assert(s.reverse().reverse() =~= s);
}

/// Swapping the same two positions twice restores the elements.
pub proof fn law_swap_twice<T>(s: Seq<T>, i: int, j: int)
    requires
        0 <= i < s.len(),
        0 <= j < s.len(),
    ensures
        ({
            let once = s.update(i, s[j]).update(j, s[i]);
            once.update(i, once[j]).update(j, once[i])
        }) == s,
{
    let once = s.update(i, s[j]).update(j, s[i]);
    assert(once.update(i, once[j]).update(j, once[i]) =~= s);
}

/// Growth covers the request and, when doubling fits the budget, at least
/// doubles a non-empty capacity, so `n` pushes cost amortized O(1) copies.
pub proof fn law_growth_at_least_doubles<T>(cap: nat, min_len: nat)
    requires
        min_len > cap,
        capacity_fits::<T>(min_len),
    ensures
        grown_capacity::<T>(cap, min_len) >= min_len,
        capacity_fits::<T>(grown_capacity::<T>(cap, min_len)),
        cap * 2 <= usize::MAX && capacity_fits::<T>(cap * 2) ==> grown_capacity::<T>(cap, min_len)
            >= cap * 2,
{
}

/// Shrinking never drops below the length: the elements always fit.
pub proof fn law_shrink_keeps_elements(len: nat, capacity: nat, min_capacity: nat)
    requires
        len <= capacity,
    ensures
        len <= (if capacity <= shrink_target(len, min_capacity) {
            capacity
        } else {
            shrink_target(len, min_capacity)
        }),
        (if capacity <= shrink_target(len, min_capacity) {
            capacity
        } else {
            shrink_target(len, min_capacity)
        }) <= capacity,
{
}

/// After deduplication no element is a duplicate of the one before it.
pub proof fn law_dedup_leaves_no_adjacent_duplicates<T>(s: Seq<T>, same: spec_fn(T, T) -> bool)
    ensures
        forall|i: int|
            0 <= i < dedup_by_spec(s, same).len() - 1 ==> !same(
                #[trigger] dedup_by_spec(s, same)[i + 1],
                dedup_by_spec(s, same)[i],
            ),
    decreases s.len(),
{
    if s.len() > 0 {
        let rest = s.drop_last();
        law_dedup_leaves_no_adjacent_duplicates(rest, same);
        let d = dedup_by_spec(rest, same);
        if !(d.len() > 0 && same(s.last(), d.last())) {
            assert forall|i: int|
                0 <= i < d.push(s.last()).len() - 1 implies !same(
                #[trigger] d.push(s.last())[i + 1],
                d.push(s.last())[i],
            ) by {
                if i + 1 < d.len() {
                    assert(d.push(s.last())[i + 1] == d[i + 1]);
                    assert(d.push(s.last())[i] == d[i]);
                }
            }
        }
    }
}

/// Deduplication keeps the first element and every element it keeps comes
/// from the input, in order.
pub proof fn law_dedup_keeps_first<T>(s: Seq<T>, same: spec_fn(T, T) -> bool)
    requires
        s.len() > 0,
    ensures
        dedup_by_spec(s, same).len() > 0,
        dedup_by_spec(s, same)[0] == s[0],
    decreases s.len(),
{
    lemma_dedup_len(s, same);
    if s.len() == 1 {
        assert(s.drop_last() =~= Seq::<T>::empty());
        assert(dedup_by_spec(s.drop_last(), same) == Seq::<T>::empty());
    } else {
        law_dedup_keeps_first(s.drop_last(), same);
    }
}

} // verus!
