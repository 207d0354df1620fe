//! Pool of reusable aligned scratch buffers for nested, short-lived use.

use crate::scratch::aligned_vec::{AlignedVec, capacity_fits, grown_capacity, shrink_target};
use crate::scratch::element::{ScratchElement, is_fresh};
use vstd::cell::invcell::InvCell;
use vstd::predicate::Predicate;
use vstd::prelude::*;

verus! {

/// Maximum number of nested borrows a pool serves from its own slots.
pub const MAX_POOL_SLOTS: usize = 4;

/// A cell whose contents may be any value.
pub struct AnyValue;

impl<V> Predicate<V> for AnyValue {
    open spec fn predicate(&self, v: V) -> bool {
        true
    }
}

/// A cell holding a nesting depth, which never exceeds [`MAX_POOL_SLOTS`].
pub struct DepthBound;

impl Predicate<u8> for DepthBound {
    open spec fn predicate(&self, v: u8) -> bool {
        v <= MAX_POOL_SLOTS
    }
}

/// A cell holding an element count of `T` that fits one buffer's byte
/// budget.
pub struct WithinBudget<T>(pub core::marker::PhantomData<T>);

impl<T> Predicate<usize> for WithinBudget<T> {
    open spec fn predicate(&self, v: usize) -> bool {
        capacity_fits::<T>(v as nat)
    }
}

/// The predicate of the cells that hold element counts of `T`.
pub open spec fn within_budget<T>() -> WithinBudget<T> {
    WithinBudget(core::marker::PhantomData)
}

/// Bytes held by `capacity` elements of `elem_size` bytes, saturating at
/// `usize::MAX`.
pub open spec fn capacity_bytes(capacity: nat, elem_size: nat) -> nat {
    if capacity * elem_size > usize::MAX {
        usize::MAX as nat
    } else {
        capacity * elem_size
    }
}

/// The sum of `capacity_bytes` over `capacities`, each addition saturating
/// at `usize::MAX`.
pub open spec fn total_bytes(capacities: Seq<usize>, elem_size: nat) -> nat
    decreases capacities.len(),
{
    if capacities.len() == 0 {
        0
    } else {
        let rest = total_bytes(capacities.drop_last(), elem_size);
        let add = rest + capacity_bytes(capacities.last() as nat, elem_size);
        if add > usize::MAX {
            usize::MAX as nat
        } else {
            add
        }
    }
}

/// The capacity a slot keeps when the pool is released: nothing without a
/// provision, otherwise at most the larger of its length and its provision.
pub open spec fn reclaimed_capacity(capacity: nat, len: nat, provision: nat) -> nat {
    if provision == 0 {
        0
    } else if capacity > provision {
        if capacity <= shrink_target(len, provision) {
            capacity
        } else {
            shrink_target(len, provision)
        }
    } else {
        capacity
    }
}

/// `capacity_bytes` computed without overflow.
pub fn saturating_capacity_bytes(capacity: usize, elem_size: usize) -> (b: usize)
    ensures
        b == capacity_bytes(capacity as nat, elem_size as nat),
{
    match capacity.checked_mul(elem_size) {
        Some(p) => p,
        None => usize::MAX,
    }
}

/// Sum of the byte sizes of slots with the given capacities, saturating.
pub fn sum_capacity_bytes(capacities: &[usize], elem_size: usize) -> (b: usize)
    ensures
        b == total_bytes(capacities@, elem_size as nat),
{
    let mut total: usize = 0;
    let mut i: usize = 0;
    while i < capacities.len()
        invariant
            i <= capacities@.len(),
            total == total_bytes(capacities@.take(i as int), elem_size as nat),
        decreases capacities@.len() - i,
    {
        proof {
            assert(capacities@.take(i + 1).drop_last() =~= capacities@.take(i as int));
        }
        let bytes = saturating_capacity_bytes(capacities[i], elem_size);
        total = match total.checked_add(bytes) {
            Some(s) => s,
            None => usize::MAX,
        };
        i = i + 1;
    }
    proof {
        assert(capacities@.take(capacities@.len() as int) =~= capacities@);
    }
    total
}

/// Gives back the storage of an idle slot above its provision and returns
/// the number of bytes given back: a slot without a provision is emptied
/// and loses its allocation; a slot above its provision shrinks to the
/// larger of its length and the provision.
pub fn release_slot<T: ScratchElement>(vec: &mut AlignedVec<T>, provision: usize) -> (freed: usize)
    ensures
        final(vec).spec_capacity() == reclaimed_capacity(
            old(vec).spec_capacity(),
            old(vec)@.len(),
            provision as nat,
        ),
        provision == 0 ==> final(vec)@ == Seq::<T>::empty(),
        provision > 0 ==> final(vec)@ == old(vec)@,
        freed == capacity_bytes(
            (old(vec).spec_capacity() - final(vec).spec_capacity()) as nat,
            vstd::layout::size_of::<T>() as nat,
        ),
{
    let size = core::mem::size_of::<T>();
    let before = vec.capacity();
    if provision == 0 {
        *vec = AlignedVec::dangling();
    } else if before > provision {
        vec.shrink_to(provision);
    }
    let after = vec.capacity();
    saturating_capacity_bytes(before - after, size)
}

/// The provision a slot has after a request of `n` elements: the larger of
/// the one it had and `n` when the request is recorded, else unchanged.
pub open spec fn recorded_provision(provision: nat, n: nat, record: bool) -> nat {
    if record && n > provision {
        n
    } else {
        provision
    }
}

/// Readies the buffer of a slot for a borrow of `n` elements, whose slot
/// has capacity mirror `mirror` and provision `provision`; returns the new
/// mirror and provision.
///
/// A buffer holding fewer than `n` elements grows to `n` as
/// [`AlignedVec::ensure_len`] does (held elements keep their values, new
/// ones start fresh, and a full buffer grows to [`grown_capacity`]), and
/// the mirror becomes its capacity; otherwise buffer and mirror stay as
/// they are. A recorded request raises the provision to `n` when it was
/// smaller.
///
/// [`grown_capacity`]: crate::scratch::aligned_vec::grown_capacity
pub fn prepare_slot<T: ScratchElement>(
    vec: &mut AlignedVec<T>,
    mirror: usize,
    provision: usize,
    n: usize,
    record: bool,
) -> (r: (usize, usize))
    requires
        capacity_fits::<T>(n as nat),
        capacity_fits::<T>(mirror as nat),
        capacity_fits::<T>(provision as nat),
    ensures
        n <= old(vec)@.len() ==> *final(vec) == *old(vec) && r.0 == mirror,
        n > old(vec)@.len() ==> {
            &&& final(vec)@.len() == n
            &&& final(vec)@.subrange(0, old(vec)@.len() as int) == old(vec)@
            &&& forall|i: int|
                old(vec)@.len() <= i < n ==> is_fresh(#[trigger] final(vec)@[i])
            &&& final(vec).spec_capacity() == if n > old(vec).spec_capacity() {
                grown_capacity::<T>(old(vec).spec_capacity(), n as nat)
            } else {
                old(vec).spec_capacity()
            }
            &&& n <= old(vec).spec_capacity() ==> final(vec).same_placement(old(vec))
            &&& r.0 == final(vec).spec_capacity()
        },
        final(vec)@.len() >= n,
        final(vec).spec_capacity() >= final(vec)@.len(),
        r.1 == recorded_provision(provision as nat, n as nat, record),
        capacity_fits::<T>(r.0 as nat),
        capacity_fits::<T>(r.1 as nat),
{
    let new_provision = if record && n > provision {
        n
    } else {
        provision
    };
    let grows = n > vec.len();
    if grows {
        vec.ensure_len(n);
    }
    let capacity = vec.capacity();
    if grows {
        (capacity, new_provision)
    } else {
        (mirror, new_provision)
    }
}

/// Readies the buffer of a slot, whose capacity mirror is `mirror`, to
/// hold at least `min_capacity` elements; returns the new mirror. A buffer
/// with less capacity grows to `min_capacity` elements as
/// [`AlignedVec::ensure_len`] does and the mirror becomes its capacity;
/// otherwise buffer and mirror stay as they are.
pub fn prewarm_slot<T: ScratchElement>(vec: &mut AlignedVec<T>, mirror: usize, min_capacity: usize) -> (m: usize)
    requires
        capacity_fits::<T>(min_capacity as nat),
        capacity_fits::<T>(mirror as nat),
    ensures
        old(vec).spec_capacity() >= min_capacity ==> *final(vec) == *old(vec) && m == mirror,
        old(vec).spec_capacity() < min_capacity ==> {
            &&& final(vec)@.len() == min_capacity
            &&& final(vec)@.subrange(0, old(vec)@.len() as int) == old(vec)@
            &&& forall|i: int|
                old(vec)@.len() <= i < min_capacity ==> is_fresh(#[trigger] final(vec)@[i])
            &&& final(vec).spec_capacity() == grown_capacity::<T>(
                old(vec).spec_capacity(),
                min_capacity as nat,
            )
            &&& m == final(vec).spec_capacity()
        },
        capacity_fits::<T>(m as nat),
{
    if vec.capacity() < min_capacity {
        vec.ensure_len(min_capacity);
        vec.capacity()
    } else {
        mirror
    }
}

/// Runs `f` on the first `n` elements of `vec` and returns what it returns.
/// Writes through the slice land in those elements; the elements behind
/// them, the capacity and the placement stay as they were.
pub fn lend_front<T: ScratchElement, R, F: FnOnce(&mut [T]) -> R>(
    vec: &mut AlignedVec<T>,
    n: usize,
    f: F,
) -> (r: R)
    requires
        n <= old(vec)@.len(),
        forall|s: &mut [T]| s@.len() == n ==> f.requires((s,)),
    ensures
        exists|s: &mut [T]| s@ == old(vec)@.subrange(0, n as int) && f.ensures((s,), r),
        final(vec)@.len() == old(vec)@.len(),
        final(vec)@.subrange(n as int, old(vec)@.len() as int) == old(vec)@.subrange(
            n as int,
            old(vec)@.len() as int,
        ),
        final(vec).spec_capacity() == old(vec).spec_capacity(),
        final(vec).same_placement(old(vec)),
{
    let all = vec.as_mut_slice();
    let (head, rest) = all.split_at_mut(n);
    f(head)
}

} // verus!

verus! {

/// What readying a slot's buffer `old` for a borrow of `n` elements leaves
/// in `new`, as [`prepare_slot`] does it.
pub open spec fn slot_prepared<T: ScratchElement>(old: AlignedVec<T>, new: AlignedVec<T>, n: nat) -> bool {
    &&& n <= old@.len() ==> new == old
    &&& n > old@.len() ==> {
        &&& new@.len() == n
        &&& new@.subrange(0, old@.len() as int) == old@
        &&& forall|i: int| old@.len() <= i < n ==> is_fresh(#[trigger] new@[i])
        &&& new.spec_capacity() == if n > old.spec_capacity() {
            grown_capacity::<T>(old.spec_capacity(), n)
        } else {
            old.spec_capacity()
        }
        &&& n <= old.spec_capacity() ==> new.same_placement(&old)
    }
    &&& new@.len() >= n
    &&& new.spec_capacity() >= new@.len()
}

/// The state of a scratch pool as plain data: the nesting depth of live
/// borrows, and per slot its buffer, its provision and the mirror of its
/// capacity. A slot lent to a live borrow holds an empty placeholder while
/// its mirror keeps reporting the lent buffer's capacity.
pub struct PoolState<T: ScratchElement> {
    depth: u8,
    slots: Vec<AlignedVec<T>>,
    provisions: Vec<usize>,
    mirrors: Vec<usize>,
}

impl<T: ScratchElement> PoolState<T> {
    /// One entry per slot; the depth never exceeds the slot count; the
    /// provisions and mirrors are element counts within the byte budget.
    pub closed spec fn wf(&self) -> bool {
        &&& self.depth <= MAX_POOL_SLOTS
        &&& self.slots@.len() == MAX_POOL_SLOTS
        &&& self.provisions@.len() == MAX_POOL_SLOTS
        &&& self.mirrors@.len() == MAX_POOL_SLOTS
        &&& forall|i: int|
            0 <= i < MAX_POOL_SLOTS ==> capacity_fits::<T>(#[trigger] self.provisions@[i] as nat)
        &&& forall|i: int| 0 <= i < MAX_POOL_SLOTS ==> capacity_fits::<T>(#[trigger] self.mirrors@[i] as nat)
    }

    /// Nesting depth of live borrows.
    pub closed spec fn spec_depth(&self) -> nat {
        self.depth as nat
    }

    /// Buffer of slot `i`.
    pub closed spec fn slot(&self, i: nat) -> AlignedVec<T> {
        self.slots@[i as int]
    }

    /// Provision of slot `i`: the largest recorded request at its depth.
    pub closed spec fn provision(&self, i: nat) -> nat {
        self.provisions@[i as int] as nat
    }

    /// Capacity mirror of slot `i`.
    pub closed spec fn mirror(&self, i: nat) -> nat {
        self.mirrors@[i as int] as nat
    }

    /// The capacity mirrors of all slots, in slot order.
    pub closed spec fn mirror_seq(&self) -> Seq<usize> {
        self.mirrors@
    }

    /// Whether `other` has the same buffer, provision and mirror in every
    /// slot but `except`.
    pub open spec fn same_slots_except(&self, other: &Self, except: nat) -> bool {
        forall|j: nat|
            j < MAX_POOL_SLOTS && j != except ==> {
                &&& #[trigger] self.slot(j) == other.slot(j)
                &&& self.provision(j) == other.provision(j)
                &&& self.mirror(j) == other.mirror(j)
            }
    }
}

/// What beginning a borrow of `n` elements (recorded when `record`) does,
/// taking `before` to `after` and returning `r`. Below the slot count, the
/// slot of the current depth is readied as [`slot_prepared`] says and taken
/// out, leaving an empty placeholder; its mirror follows a grown buffer; a
/// recorded request raises its provision; the depth goes up by one. At the
/// slot count nothing changes and no slot is given.
pub open spec fn borrow_begun<T: ScratchElement>(
    before: PoolState<T>,
    after: PoolState<T>,
    n: nat,
    record: bool,
    r: Option<(usize, AlignedVec<T>)>,
) -> bool {
    if before.spec_depth() >= MAX_POOL_SLOTS {
        r is None && after == before
    } else {
        match r {
            Some((idx, v)) => {
                &&& idx == before.spec_depth()
                &&& after.spec_depth() == idx + 1
                &&& slot_prepared(before.slot(idx as nat), v, n)
                &&& after.mirror(idx as nat) == if n > before.slot(idx as nat)@.len() {
                    v.spec_capacity()
                } else {
                    before.mirror(idx as nat)
                }
                &&& after.provision(idx as nat) == recorded_provision(
                    before.provision(idx as nat),
                    n,
                    record,
                )
                &&& after.slot(idx as nat)@ == Seq::<T>::empty()
                &&& after.slot(idx as nat).spec_capacity() == 0
                &&& after.same_slots_except(&before, idx as nat)
            },
            None => false,
        }
    }
}

/// What ending a borrow of slot `idx` does: the buffer `v` goes back into
/// the slot, its mirror shows the buffer's capacity, and the depth returns
/// to `idx`, the depth the borrow began at.
pub open spec fn borrow_ended<T: ScratchElement>(
    before: PoolState<T>,
    after: PoolState<T>,
    idx: nat,
    v: AlignedVec<T>,
) -> bool {
    &&& after.slot(idx) == v
    &&& after.spec_depth() == idx
    &&& after.provision(idx) == before.provision(idx)
    &&& after.mirror(idx) == v.spec_capacity()
    &&& after.same_slots_except(&before, idx)
}

/// Bytes each slot gave back between `before` and `after`.
pub open spec fn slot_shrinkage<T: ScratchElement>(before: PoolState<T>, after: PoolState<T>) -> Seq<
    usize,
> {
    Seq::new(
        MAX_POOL_SLOTS as nat,
        |i: int|
            (before.slot(i as nat).spec_capacity() - after.slot(i as nat).spec_capacity()) as usize,
    )
}

/// What a release does: refused (`None`, nothing changes) while a borrow is
/// live; otherwise every slot is reclaimed as [`release_slot`] does, its
/// mirror follows, and the bytes given back by all slots are returned.
pub open spec fn pool_released<T: ScratchElement>(
    before: PoolState<T>,
    after: PoolState<T>,
    r: Option<usize>,
) -> bool {
    if before.spec_depth() != 0 {
        r is None && after == before
    } else {
        &&& r == Some(
            total_bytes(slot_shrinkage(before, after), vstd::layout::size_of::<T>() as nat) as usize,
        )
        &&& after.spec_depth() == 0
        &&& forall|i: nat|
            i < MAX_POOL_SLOTS ==> {
                &&& (#[trigger] after.slot(i)).spec_capacity() == reclaimed_capacity(
                    before.slot(i).spec_capacity(),
                    before.slot(i)@.len(),
                    before.provision(i),
                )
                &&& before.provision(i) == 0 ==> after.slot(i)@ == Seq::<T>::empty()
                &&& before.provision(i) > 0 ==> after.slot(i)@ == before.slot(i)@
                &&& after.mirror(i) == after.slot(i).spec_capacity()
                &&& after.provision(i) == before.provision(i)
            }
    }
}

/// What prewarming to `min` elements does: nothing while a borrow is live;
/// otherwise slot 0 grows as [`prewarm_slot`] says when its capacity is
/// below `min`, and its mirror follows.
pub open spec fn pool_prewarmed<T: ScratchElement>(
    before: PoolState<T>,
    after: PoolState<T>,
    min: nat,
) -> bool {
    if before.spec_depth() != 0 {
        after == before
    } else {
        &&& after.spec_depth() == 0
        &&& after.same_slots_except(&before, 0)
        &&& after.provision(0) == before.provision(0)
        &&& before.slot(0).spec_capacity() >= min ==> after.slot(0) == before.slot(0)
            && after.mirror(0) == before.mirror(0)
        &&& before.slot(0).spec_capacity() < min ==> {
            &&& after.slot(0)@.len() == min
            &&& after.slot(0)@.subrange(0, before.slot(0)@.len() as int) == before.slot(0)@
            &&& after.slot(0).spec_capacity() == grown_capacity::<T>(
                before.slot(0).spec_capacity(),
                min,
            )
            &&& after.mirror(0) == after.slot(0).spec_capacity()
        }
    }
}

impl<T: ScratchElement> PoolState<T> {
    /// A state with no live borrow whose slots hold no storage and no
    /// provision.
    pub fn new() -> (st: Self)
        ensures
            st.wf(),
            st.spec_depth() == 0,
            forall|i: nat|
                i < MAX_POOL_SLOTS ==> (#[trigger] st.slot(i))@ == Seq::<T>::empty()
                    && st.slot(i).spec_capacity() == 0 && st.provision(i) == 0 && st.mirror(i) == 0,
    {
        Self::with_slot_capacity(0)
    }

    /// A state with no live borrow whose every slot holds an empty buffer
    /// of `capacity` elements and no provision.
    pub fn with_slot_capacity(capacity: usize) -> (st: Self)
        requires
            capacity_fits::<T>(capacity as nat),
        ensures
            st.wf(),
            st.spec_depth() == 0,
            forall|i: nat|
                i < MAX_POOL_SLOTS ==> (#[trigger] st.slot(i))@ == Seq::<T>::empty()
                    && st.slot(i).spec_capacity() == capacity && st.provision(i) == 0
                    && st.mirror(i) == capacity,
    {
        let mut slots: Vec<AlignedVec<T>> = Vec::with_capacity(MAX_POOL_SLOTS);
        let mut provisions: Vec<usize> = Vec::with_capacity(MAX_POOL_SLOTS);
        let mut mirrors: Vec<usize> = Vec::with_capacity(MAX_POOL_SLOTS);
        let mut i: usize = 0;
        while i < MAX_POOL_SLOTS
            invariant
                i <= MAX_POOL_SLOTS,
                capacity_fits::<T>(capacity as nat),
                slots@.len() == i,
                provisions@.len() == i,
                mirrors@.len() == i,
                forall|j: int|
                    0 <= j < i ==> (#[trigger] slots@[j])@ == Seq::<T>::empty()
                        && slots@[j].spec_capacity() == capacity,
                forall|j: int| 0 <= j < i ==> #[trigger] provisions@[j] == 0,
                forall|j: int| 0 <= j < i ==> #[trigger] mirrors@[j] == capacity,
            decreases MAX_POOL_SLOTS - i,
        {
            let v = if capacity == 0 {
                AlignedVec::dangling()
            } else {
                AlignedVec::with_capacity(capacity)
            };
            slots.push(v);
            provisions.push(0);
            mirrors.push(capacity);
            i = i + 1;
        }
        let st = PoolState { depth: 0, slots, provisions, mirrors };
        proof {
            assert(capacity_fits::<T>(0));
            assert forall|i: int| 0 <= i < MAX_POOL_SLOTS implies capacity_fits::<T>(
                #[trigger] st.provisions@[i] as nat,
            ) by {
                assert(st.provisions@[i] == 0);
            }
        }
        st
    }

    /// Nesting depth of live borrows.
    pub fn borrow_depth(&self) -> (d: u8)
        requires
            self.wf(),
        ensures
            d == self.spec_depth(),
            d <= MAX_POOL_SLOTS,
    {
        self.depth
    }

    /// Capacity mirror of slot `idx`, or 0 when there is no such slot.
    pub fn slot_capacity(&self, idx: usize) -> (c: usize)
        requires
            self.wf(),
        ensures
            idx < MAX_POOL_SLOTS ==> c == self.mirror(idx as nat),
            idx >= MAX_POOL_SLOTS ==> c == 0,
            capacity_fits::<T>(c as nat),
    {
        if idx < MAX_POOL_SLOTS {
            self.mirrors[idx]
        } else {
            0
        }
    }

    /// Whether a new borrow would be served from a slot.
    pub fn is_available(&self) -> (b: bool)
        ensures
            b == (self.spec_depth() < MAX_POOL_SLOTS),
    {
        (self.depth as usize) < MAX_POOL_SLOTS
    }

    /// Sum of the byte sizes of the slots' capacity mirrors, saturating.
    pub fn total_capacity_bytes(&self) -> (b: usize)
        requires
            self.wf(),
        ensures
            b == total_bytes(self.mirror_seq(), vstd::layout::size_of::<T>() as nat),
            self.mirror_seq().len() == MAX_POOL_SLOTS,
            forall|i: int|
                0 <= i < MAX_POOL_SLOTS ==> capacity_fits::<T>(#[trigger] self.mirror_seq()[i] as nat)
                    && self.mirror_seq()[i] == self.mirror(i as nat),
    {
        sum_capacity_bytes(self.mirrors.as_slice(), core::mem::size_of::<T>())
    }

    /// Begins a borrow of `n` elements, as [`borrow_begun`] says: returns
    /// the slot index and its readied buffer, or `None` when every slot is
    /// lent.
    pub fn begin_borrow(&mut self, n: usize, record: bool) -> (r: Option<(usize, AlignedVec<T>)>)
        requires
            old(self).wf(),
            capacity_fits::<T>(n as nat),
        ensures
            final(self).wf(),
            borrow_begun(*old(self), *final(self), n as nat, record, r),
    {
        let depth = self.depth;
        if (depth as usize) >= MAX_POOL_SLOTS {
            return None;
        }
        let idx = depth as usize;
        let mut vec = AlignedVec::dangling();
        self.slots.set_and_swap(idx, &mut vec);
        let (mirror, provision) = prepare_slot(
            &mut vec,
            self.mirrors[idx],
            self.provisions[idx],
            n,
            record,
        );
        self.mirrors.set(idx, mirror);
        self.provisions.set(idx, provision);
        self.depth = depth + 1;
        proof {
            assert forall|j: nat| j < MAX_POOL_SLOTS && j != idx implies {
                &&& #[trigger] self.slot(j) == old(self).slot(j)
                &&& self.provision(j) == old(self).provision(j)
                &&& self.mirror(j) == old(self).mirror(j)
            } by {}
        }
        Some((idx, vec))
    }

    /// Ends the borrow of slot `idx`, as [`borrow_ended`] says: the buffer
    /// `vec` goes back and the depth returns to `idx`.
    pub fn end_borrow(&mut self, idx: usize, vec: AlignedVec<T>)
        requires
            old(self).wf(),
            idx < MAX_POOL_SLOTS,
        ensures
            final(self).wf(),
            borrow_ended(*old(self), *final(self), idx as nat, vec),
    {
        let capacity = vec.capacity();
        self.slots.set(idx, vec);
        self.mirrors.set(idx, capacity);
        self.depth = idx as u8;
        proof {
            assert forall|j: nat| j < MAX_POOL_SLOTS && j != idx implies {
                &&& #[trigger] self.slot(j) == old(self).slot(j)
                &&& self.provision(j) == old(self).provision(j)
                &&& self.mirror(j) == old(self).mirror(j)
            } by {}
        }
    }

    /// Releases idle slot storage, as [`pool_released`] says.
    pub fn release(&mut self) -> (r: Option<usize>)
        requires
            old(self).wf(),
        ensures
            final(self).wf(),
            pool_released(*old(self), *final(self), r),
    {
        if self.depth != 0 {
            return None;
        }
        let size = core::mem::size_of::<T>();
        let mut freed: usize = 0;
        let ghost mut diffs: Seq<usize> = Seq::empty();
        let mut idx: usize = 0;
        while idx < MAX_POOL_SLOTS
            invariant
                old(self).wf(),
                idx <= MAX_POOL_SLOTS,
                size == vstd::layout::size_of::<T>(),
                self.depth == 0,
                self.slots@.len() == MAX_POOL_SLOTS,
                self.provisions@ == old(self).provisions@,
                self.mirrors@.len() == MAX_POOL_SLOTS,
                forall|i: int|
                    0 <= i < MAX_POOL_SLOTS ==> capacity_fits::<T>(#[trigger] self.mirrors@[i] as nat),
                diffs.len() == idx,
                freed == total_bytes(diffs, size as nat),
                forall|j: nat|
                    j < idx ==> {
                        &&& (#[trigger] self.slot(j)).spec_capacity() == reclaimed_capacity(
                            old(self).slot(j).spec_capacity(),
                            old(self).slot(j)@.len(),
                            old(self).provision(j),
                        )
                        &&& old(self).provision(j) == 0 ==> self.slot(j)@ == Seq::<T>::empty()
                        &&& old(self).provision(j) > 0 ==> self.slot(j)@ == old(self).slot(j)@
                        &&& self.mirror(j) == self.slot(j).spec_capacity()
                        &&& diffs[j as int] == (old(self).slot(j).spec_capacity()
                            - self.slot(j).spec_capacity()) as usize
                        &&& self.slot(j).spec_capacity() <= old(self).slot(j).spec_capacity()
                    },
                forall|j: nat|
                    idx <= j < MAX_POOL_SLOTS ==> #[trigger] self.slot(j) == old(self).slot(j),
            decreases MAX_POOL_SLOTS - idx,
        {
            let provision = self.provisions[idx];
            let ghost pre = *self;
            let ghost pre_diffs = diffs;
            proof {
                assert(self.slot(idx as nat) == old(self).slot(idx as nat));
            }
            let mut vec = AlignedVec::dangling();
            self.slots.set_and_swap(idx, &mut vec);
            let ghost taken = vec;
            let held = vec.capacity();
            let bytes = release_slot(&mut vec, provision);
            let cap = vec.capacity();
            proof {
                assert(taken == old(self).slot(idx as nat));
            }
            self.slots.set(idx, vec);
            self.mirrors.set(idx, cap);
            proof {
                let d = (held - cap) as usize;
                assert(diffs.push(d).drop_last() =~= diffs);
                assert(diffs.push(d).last() == d);
                diffs = diffs.push(d);
                assert forall|j: nat| idx + 1 <= j < MAX_POOL_SLOTS implies #[trigger] self.slot(j)
                    == old(self).slot(j) by {
                    assert(self.slot(j) == pre.slot(j));
                }
                assert forall|j: nat| j < idx + 1 implies {
                    &&& (#[trigger] self.slot(j)).spec_capacity() == reclaimed_capacity(
                        old(self).slot(j).spec_capacity(),
                        old(self).slot(j)@.len(),
                        old(self).provision(j),
                    )
                    &&& old(self).provision(j) == 0 ==> self.slot(j)@ == Seq::<T>::empty()
                    &&& old(self).provision(j) > 0 ==> self.slot(j)@ == old(self).slot(j)@
                    &&& self.mirror(j) == self.slot(j).spec_capacity()
                    &&& diffs[j as int] == (old(self).slot(j).spec_capacity()
                        - self.slot(j).spec_capacity()) as usize
                    &&& self.slot(j).spec_capacity() <= old(self).slot(j).spec_capacity()
                } by {
                    if j < idx {
                        assert(self.slot(j) == pre.slot(j));
                        assert(self.mirror(j) == pre.mirror(j));
                        assert(diffs[j as int] == pre_diffs[j as int]);
                    }
                }
            }
            freed = match freed.checked_add(bytes) {
                Some(t) => t,
                None => usize::MAX,
            };
            idx = idx + 1;
        }
        proof {
            assert(diffs =~= slot_shrinkage(*old(self), *self));
        }
        Some(freed)
    }

    /// Clears every slot's provision; nothing else changes.
    pub fn reset(&mut self)
        requires
            old(self).wf(),
        ensures
            final(self).wf(),
            final(self).spec_depth() == old(self).spec_depth(),
            forall|i: nat|
                i < MAX_POOL_SLOTS ==> (#[trigger] final(self).slot(i)) == old(self).slot(i)
                    && final(self).mirror(i) == old(self).mirror(i) && final(self).provision(i) == 0,
    {
        let mut idx: usize = 0;
        while idx < MAX_POOL_SLOTS
            invariant
                old(self).wf(),
                idx <= MAX_POOL_SLOTS,
                self.depth == old(self).depth,
                self.slots@ == old(self).slots@,
                self.mirrors@ == old(self).mirrors@,
                self.provisions@.len() == MAX_POOL_SLOTS,
                forall|j: int| 0 <= j < idx ==> #[trigger] self.provisions@[j] == 0,
                forall|j: int| 0 <= j < MAX_POOL_SLOTS ==> capacity_fits::<T>(#[trigger] self.provisions@[j] as nat),
            decreases MAX_POOL_SLOTS - idx,
        {
            self.provisions.set(idx, 0);
            idx = idx + 1;
        }
    }

    /// Grows slot 0 to hold at least `min_capacity` elements, as
    /// [`pool_prewarmed`] says.
    pub fn prewarm(&mut self, min_capacity: usize)
        requires
            old(self).wf(),
            capacity_fits::<T>(min_capacity as nat),
        ensures
            final(self).wf(),
            pool_prewarmed(*old(self), *final(self), min_capacity as nat),
    {
        if self.depth != 0 {
            return;
        }
        let mut vec = AlignedVec::dangling();
        self.slots.set_and_swap(0, &mut vec);
        let mirror = prewarm_slot(&mut vec, self.mirrors[0], min_capacity);
        self.slots.set(0, vec);
        self.mirrors.set(0, mirror);
        proof {
            assert forall|j: nat| j < MAX_POOL_SLOTS && j != 0 implies {
                &&& #[trigger] self.slot(j) == old(self).slot(j)
                &&& self.provision(j) == old(self).provision(j)
                &&& self.mirror(j) == old(self).mirror(j)
            } by {}
        }
    }

    /// Drops every slot's storage and zeroes its mirror; does nothing while
    /// a borrow is live. Provisions are kept.
    pub fn shrink_all_slots(&mut self)
        requires
            old(self).wf(),
        ensures
            final(self).wf(),
            old(self).spec_depth() != 0 ==> *final(self) == *old(self),
            old(self).spec_depth() == 0 ==> final(self).spec_depth() == 0 && forall|i: nat|
                i < MAX_POOL_SLOTS ==> (#[trigger] final(self).slot(i))@ == Seq::<T>::empty()
                    && final(self).slot(i).spec_capacity() == 0 && final(self).mirror(i) == 0
                    && final(self).provision(i) == old(self).provision(i),
    {
        if self.depth != 0 {
            return;
        }
        let mut idx: usize = 0;
        while idx < MAX_POOL_SLOTS
            invariant
                old(self).wf(),
                idx <= MAX_POOL_SLOTS,
                self.depth == 0,
                self.provisions@ == old(self).provisions@,
                self.slots@.len() == MAX_POOL_SLOTS,
                self.mirrors@.len() == MAX_POOL_SLOTS,
                forall|j: int|
                    0 <= j < idx ==> (#[trigger] self.slots@[j])@ == Seq::<T>::empty()
                        && self.slots@[j].spec_capacity() == 0,
                forall|j: int| 0 <= j < idx ==> #[trigger] self.mirrors@[j] == 0,
                forall|j: int| 0 <= j < MAX_POOL_SLOTS ==> capacity_fits::<T>(#[trigger] self.mirrors@[j] as nat),
            decreases MAX_POOL_SLOTS - idx,
        {
            self.slots.set(idx, AlignedVec::dangling());
            self.mirrors.set(idx, 0);
            idx = idx + 1;
        }
    }
}

} // verus!

verus! {

/// A pool of reusable, aligned scratch buffers for one element type, meant
/// for one thread at a time.
///
/// Each nesting level of [`ScratchPool::with_scratch`] gets its own slot;
/// deeper nesting than [`MAX_POOL_SLOTS`] is served by a temporary buffer.
/// Every slot's capacity is mirrored outside the slot, so it can be read
/// while the slot is lent out. The pool's state is a [`PoolState`], whose
/// operations carry the pool's rules; the pool takes the state out of its
/// cell for each operation and puts it back, also before running a
/// borrower, so nested borrows find it.
pub struct ScratchPool<T: ScratchElement> {
    state: InvCell<Option<PoolState<T>>, WellFormedState>,
}

/// A cell holding a pool state, which is well formed whenever present.
pub struct WellFormedState;

impl<T: ScratchElement> Predicate<Option<PoolState<T>>> for WellFormedState {
    open spec fn predicate(&self, v: Option<PoolState<T>>) -> bool {
        match v {
            Some(st) => st.wf(),
            None => true,
        }
    }
}

/// A cell that may hold any value, starting with `v`.
fn any_cell<V>(v: V) -> InvCell<V, AnyValue> {
    InvCell::new(v, Ghost(AnyValue))
}

/// A cell holding an element count of `T`, starting with `v`, that only
/// ever holds counts within the byte budget.
fn budget_cell<T>(v: usize) -> InvCell<usize, WithinBudget<T>>
    requires
        capacity_fits::<T>(v as nat),
{
    InvCell::new(v, Ghost(within_budget::<T>()))
}

/// A depth cell, starting at 0.
fn depth_cell() -> InvCell<u8, DepthBound> {
    InvCell::new(0, Ghost(DepthBound))
}

impl<T: ScratchElement> ScratchPool<T> {
    /// Creates a pool whose slots hold no storage.
    pub fn new() -> Self {
        ScratchPool { state: InvCell::new(Some(PoolState::new()), Ghost(WellFormedState)) }
    }

    /// Takes the state out of its cell; an empty cell, which no operation
    /// leaves behind, gives a fresh state.
    fn take(&self) -> (st: PoolState<T>)
        ensures
            st.wf(),
    {
        match self.state.replace(None) {
            Some(st) => st,
            None => PoolState::new(),
        }
    }

    /// Puts the state back into its cell.
    fn put(&self, st: PoolState<T>)
        requires
            st.wf(),
    {
        self.state.set(Some(st));
    }
}

} // verus!

verus! {

impl<T: ScratchElement> ScratchPool<T> {
    /// Runs `f` on a scratch slice of exactly `n` elements and returns what
    /// it returns.
    ///
    /// At nesting depth below [`MAX_POOL_SLOTS`] the slice is the front of
    /// that depth's slot, grown first when it holds fewer than `n` elements
    /// (grown elements start fresh; reused ones keep what the last borrow
    /// left). Deeper, it is a fresh temporary buffer.
    pub fn with_scratch<R, F: FnOnce(&mut [T]) -> R>(&self, n: usize, f: F) -> (r: R)
        requires
            capacity_fits::<T>(n as nat),
            forall|s: &mut [T]| s@.len() == n ==> f.requires((s,)),
        ensures
            exists|s: &mut [T]| s@.len() == n && f.ensures((s,), r),
    {
        self.borrow_slot(n, f, false)
    }

    /// Like [`Self::with_scratch`], and records `n` as a request at this
    /// depth: the largest request seen at a depth is that slot's provision,
    /// which [`Self::release`] keeps.
    pub fn with_scratch_bounded<R, F: FnOnce(&mut [T]) -> R>(&self, n: usize, f: F) -> (r: R)
        requires
            capacity_fits::<T>(n as nat),
            forall|s: &mut [T]| s@.len() == n ==> f.requires((s,)),
        ensures
            exists|s: &mut [T]| s@.len() == n && f.ensures((s,), r),
    {
        self.borrow_slot(n, f, true)
    }

    /// Serves a borrow: [`PoolState::begin_borrow`] picks and readies the
    /// slot of the current depth, the state goes back to its cell while
    /// `f` runs on the slot's front, and [`PoolState::end_borrow`] returns
    /// the slot and the depth.
    fn borrow_slot<R, F: FnOnce(&mut [T]) -> R>(&self, n: usize, f: F, record: bool) -> (r: R)
        requires
            capacity_fits::<T>(n as nat),
            forall|s: &mut [T]| s@.len() == n ==> f.requires((s,)),
        ensures
            exists|s: &mut [T]| s@.len() == n && f.ensures((s,), r),
    {
        let mut st = self.take();
        let plan = st.begin_borrow(n, record);
        self.put(st);
        match plan {
            Some((idx, slot)) => {
                let mut vec = slot;
                let r = lend_front(&mut vec, n, f);
                let mut st = self.take();
                st.end_borrow(idx, vec);
                self.put(st);
                r
            },
            None => {
                let mut owned = AlignedVec::with_capacity(n);
                owned.ensure_len(n);
                f(owned.as_mut_slice())
            },
        }
    }
}

} // verus!

verus! {

impl<T: ScratchElement> ScratchPool<T> {
    /// Creates a pool whose every slot is allocated for `capacity` elements
    /// up front.
    pub fn with_slot_capacity(capacity: usize) -> Self
        requires
            capacity_fits::<T>(capacity as nat),
    {
        ScratchPool {
            state: InvCell::new(Some(PoolState::with_slot_capacity(capacity)), Ghost(WellFormedState)),
        }
    }

    /// Gives back every idle slot's storage above its provision and returns
    /// the bytes given back, or `None`, freeing nothing, while any borrow is
    /// live, as [`PoolState::release`] does. A slot without a provision
    /// loses its allocation entirely.
    pub fn release(&self) -> (freed: Option<usize>) {
        let mut st = self.take();
        let freed = st.release();
        self.put(st);
        freed
    }

    /// Clears every recorded provision, so a later [`Self::release`] gives
    /// back every idle slot entirely.
    pub fn reset(&self) {
        let mut st = self.take();
        st.reset();
        self.put(st);
    }

    /// Current nesting depth of live borrows; 0 when none is live.
    pub fn borrow_depth(&self) -> (d: u8)
        ensures
            d <= MAX_POOL_SLOTS,
    {
        let st = self.take();
        let d = st.borrow_depth();
        self.put(st);
        d
    }

    /// Capacity of the first slot, readable at any time, also from inside a
    /// live borrow of that slot.
    pub fn capacity(&self) -> (c: usize)
        ensures
            capacity_fits::<T>(c as nat),
    {
        self.slot_capacity(0)
    }

    /// Grows the first slot to hold at least `min_capacity` elements; does
    /// nothing while a borrow is live. See [`PoolState::prewarm`].
    pub fn prewarm(&self, min_capacity: usize)
        requires
            capacity_fits::<T>(min_capacity as nat),
    {
        let mut st = self.take();
        st.prewarm(min_capacity);
        self.put(st);
    }

    /// Total bytes of all slots' capacities, each product and the sum
    /// saturating at `usize::MAX`.
    pub fn total_capacity_bytes(&self) -> (b: usize)
        ensures
            exists|caps: Seq<usize>|
                {
                    &&& caps.len() == MAX_POOL_SLOTS
                    &&& forall|i: int| 0 <= i < MAX_POOL_SLOTS ==> capacity_fits::<T>(#[trigger] caps[i] as nat)
                    &&& b == total_bytes(caps, vstd::layout::size_of::<T>() as nat)
                },
    {
        let st = self.take();
        let b = st.total_capacity_bytes();
        proof {
            let caps = st.mirror_seq();
            assert(forall|i: int| 0 <= i < MAX_POOL_SLOTS ==> capacity_fits::<T>(#[trigger] caps[i] as nat));
        }
        self.put(st);
        b
    }

    /// Drops every slot's storage; does nothing while a borrow is live.
    pub fn shrink_all_slots(&self) {
        let mut st = self.take();
        st.shrink_all_slots();
        self.put(st);
    }

    /// Whether a new borrow would be served from a slot.
    pub fn is_available(&self) -> bool {
        let st = self.take();
        let b = st.is_available();
        self.put(st);
        b
    }

    /// Capacity of slot `idx`, or 0 when there is no such slot; readable at
    /// any time.
    pub fn slot_capacity(&self, idx: usize) -> (c: usize)
        ensures
            idx >= MAX_POOL_SLOTS ==> c == 0,
            capacity_fits::<T>(c as nat),
    {
        let st = self.take();
        let c = st.slot_capacity(idx);
        self.put(st);
        c
    }
}

impl<T: ScratchElement> Default for ScratchPool<T> {
    fn default() -> Self {
        Self::new()
    }
}

} // verus!

verus! {

/// A borrow below the slot count is always served from a slot, and from
/// the slot of its own depth: nested borrows, each one level deeper, get
/// distinct slots. At the slot count no slot is given.
pub proof fn law_borrow_takes_the_slot_of_its_depth<T: ScratchElement>(
    before: PoolState<T>,
    after: PoolState<T>,
    n: nat,
    record: bool,
    r: Option<(usize, AlignedVec<T>)>,
)
    requires
        borrow_begun(before, after, n, record, r),
    ensures
        before.spec_depth() < MAX_POOL_SLOTS ==> (r matches Some((idx, v)) && idx
            == before.spec_depth() && after.spec_depth() == before.spec_depth() + 1),
        before.spec_depth() >= MAX_POOL_SLOTS ==> r is None,
{
}

/// A borrow of `n` elements, begun and then ended with the buffer `lent`
/// that lending left (same length and capacity as the readied one), leaves
/// the slot of its depth holding `lent`, able to hold at least `n` elements
/// and with its mirror reporting that capacity; the depth is back where it
/// was; a recorded request leaves the slot's provision at least `n`, and
/// every other slot is as it was.
pub proof fn law_borrow_keeps_its_slot_for_reuse<T: ScratchElement>(
    s0: PoolState<T>,
    s1: PoolState<T>,
    s2: PoolState<T>,
    n: nat,
    record: bool,
    idx: usize,
    readied: AlignedVec<T>,
    lent: AlignedVec<T>,
)
    requires
        borrow_begun(s0, s1, n, record, Some((idx, readied))),
        lent@.len() == readied@.len(),
        lent.spec_capacity() == readied.spec_capacity(),
        borrow_ended(s1, s2, idx as nat, lent),
    ensures
        idx == s0.spec_depth(),
        s2.spec_depth() == s0.spec_depth(),
        s2.slot(idx as nat) == lent,
        s2.slot(idx as nat).spec_capacity() >= n,
        s2.slot(idx as nat)@.len() >= n,
        s2.mirror(idx as nat) == s2.slot(idx as nat).spec_capacity(),
        record ==> s2.provision(idx as nat) >= n && s2.provision(idx as nat) >= s0.provision(
            idx as nat,
        ),
        !record ==> s2.provision(idx as nat) == s0.provision(idx as nat),
        s2.same_slots_except(&s0, idx as nat),
{
    assert forall|j: nat| j < MAX_POOL_SLOTS && j != idx implies {
        &&& #[trigger] s2.slot(j) == s0.slot(j)
        &&& s2.provision(j) == s0.provision(j)
        &&& s2.mirror(j) == s0.mirror(j)
    } by {
        assert(s2.slot(j) == s1.slot(j));
        assert(s1.slot(j) == s0.slot(j));
    }
}

/// A release with no live borrow and no recorded provision gives back
/// every slot entirely: each slot ends empty with no storage and a zero
/// mirror, and the bytes returned are those of all the slots' capacities.
pub proof fn law_release_frees_every_unprovisioned_slot<T: ScratchElement>(
    before: PoolState<T>,
    after: PoolState<T>,
    r: Option<usize>,
)
    requires
        pool_released(before, after, r),
        before.spec_depth() == 0,
        forall|i: nat| i < MAX_POOL_SLOTS ==> #[trigger] before.provision(i) == 0,
    ensures
        forall|i: nat|
            i < MAX_POOL_SLOTS ==> (#[trigger] after.slot(i)).spec_capacity() == 0 && after.slot(i)@
                == Seq::<T>::empty() && after.mirror(i) == 0,
        r == Some(
            total_bytes(
                Seq::new(
                    MAX_POOL_SLOTS as nat,
                    |i: int| before.slot(i as nat).spec_capacity() as usize,
                ),
                vstd::layout::size_of::<T>() as nat,
            ) as usize,
        ),
{
    assert forall|i: nat| i < MAX_POOL_SLOTS implies (#[trigger] after.slot(i)).spec_capacity() == 0
        && after.slot(i)@ == Seq::<T>::empty() && after.mirror(i) == 0 by {
        assert(before.provision(i) == 0);
        assert(after.slot(i).spec_capacity() == 0);
        assert(after.slot(i)@ == Seq::<T>::empty());
        assert(after.mirror(i) == 0);
    }
    assert(slot_shrinkage(before, after) =~= Seq::new(
        MAX_POOL_SLOTS as nat,
        |i: int| before.slot(i as nat).spec_capacity() as usize,
    )) by {
        assert forall|i: int| 0 <= i < MAX_POOL_SLOTS implies slot_shrinkage(before, after)[i]
            == before.slot(i as nat).spec_capacity() as usize by {
            assert(after.slot(i as nat).spec_capacity() == 0);
        }
    }
}

/// Prewarming with no live borrow leaves slot 0 able to hold at least the
/// requested number of elements, never with less capacity than before; a
/// mirror that reported slot 0's capacity still does.
pub proof fn law_prewarm_reaches_its_target<T: ScratchElement>(
    before: PoolState<T>,
    after: PoolState<T>,
    min: nat,
)
    requires
        pool_prewarmed(before, after, min),
        before.spec_depth() == 0,
    ensures
        after.slot(0).spec_capacity() >= min,
        after.slot(0).spec_capacity() >= before.slot(0).spec_capacity(),
        before.mirror(0) == before.slot(0).spec_capacity() ==> after.mirror(0)
            == after.slot(0).spec_capacity(),
        after.spec_depth() == 0,
{
}

} // verus!
