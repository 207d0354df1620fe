//! A small cache of whole huge mappings kept for reuse by later huge
//! allocations of a similar size.

use vstd::prelude::*;

verus! {

/// Number of mappings the cache holds at most.
pub const HUGE_MAPPING_SLOTS: usize = 8;

/// Address value that marks a slot as being filled.
pub const FILLING_MARK: usize = 1;

/// One cache slot: a mapping's address and size, or address 0 when free.
#[derive(Clone, Copy, Debug, PartialEq, Eq, Structural)]
pub struct HugeSlot {
    /// Base address of the cached mapping; 0 when the slot is free.
    pub addr: usize,
    /// Size of the cached mapping in bytes.
    pub size: usize,
}

/// Whether `slot` holds a mapping that serves a request of `requested`
/// bytes: at least that large and at most twice as large.
pub open spec fn serves(slot: HugeSlot, requested: nat) -> bool {
    &&& slot.addr != 0
    &&& slot.addr != FILLING_MARK
    &&& slot.size >= requested
    &&& slot.size <= 2 * requested
}

/// The first slot from `from` on that serves `requested`.
pub open spec fn first_serving(slots: Seq<HugeSlot>, requested: nat, from: int) -> Option<int>
    decreases slots.len() - from,
{
    if from < 0 || from >= slots.len() {
        None
    } else if serves(slots[from], requested) {
        Some(from)
    } else {
        first_serving(slots, requested, from + 1)
    }
}

/// The first free slot from `from` on.
pub open spec fn first_free(slots: Seq<HugeSlot>, from: int) -> Option<int>
    decreases slots.len() - from,
{
    if from < 0 || from >= slots.len() {
        None
    } else if slots[from].addr == 0 {
        Some(from)
    } else {
        first_free(slots, from + 1)
    }
}

/// A bounded cache of huge mappings, each by address and size.
pub struct HugeMappingPool {
    slots: [HugeSlot; HUGE_MAPPING_SLOTS],
}

impl View for HugeMappingPool {
    type V = Seq<HugeSlot>;

    closed spec fn view(&self) -> Seq<HugeSlot> {
        self.slots@
    }
}

impl HugeMappingPool {
    /// Creates a cache with every slot free.
    pub fn new() -> (p: Self)
        ensures
            p@.len() == HUGE_MAPPING_SLOTS,
            forall|i: int| 0 <= i < HUGE_MAPPING_SLOTS ==> #[trigger] p@[i] == (HugeSlot { addr: 0, size: 0 }),
    {
        HugeMappingPool { slots: [HugeSlot { addr: 0, size: 0 }; HUGE_MAPPING_SLOTS] }
    }

    /// Claims the first cached mapping of at least `requested_size` and at
    /// most twice that many bytes, freeing its slot, and returns its address
    /// and size; `None`, changing nothing, when no slot serves the request.
    pub fn try_pop(&mut self, requested_size: usize) -> (r: Option<(usize, usize)>)
        ensures
            final(self)@.len() == old(self)@.len(),
            match first_serving(old(self)@, requested_size as nat, 0) {
                None => r is None && final(self)@ == old(self)@,
                Some(k) => {
                    &&& r == Some((old(self)@[k].addr, old(self)@[k].size))
                    &&& final(self)@ == old(self)@.update(k, HugeSlot { addr: 0, size: 0 })
                },
            },
    {
        let mut i: usize = 0;
        while i < HUGE_MAPPING_SLOTS
            invariant
                i <= HUGE_MAPPING_SLOTS,
                self@ == old(self)@,
                self@.len() == HUGE_MAPPING_SLOTS,
                first_serving(old(self)@, requested_size as nat, 0) == first_serving(
                    old(self)@,
                    requested_size as nat,
                    i as int,
                ),
            decreases HUGE_MAPPING_SLOTS - i,
        {
            let slot = self.slots[i];
            if slot.addr != 0 && slot.addr != FILLING_MARK && slot.size >= requested_size
                && slot.size - requested_size <= requested_size {
                self.slots[i] = HugeSlot { addr: 0, size: 0 };
                proof {
                    assert(self@ =~= old(self)@.update(i as int, HugeSlot { addr: 0, size: 0 }));
                }
                return Some((slot.addr, slot.size));
            }
            i = i + 1;
        }
        None
    }

    /// Stores a mapping of `size` bytes at `addr` in the first free slot and
    /// returns `true`; `false`, changing nothing, when every slot is taken.
    pub fn try_push(&mut self, addr: usize, size: usize) -> (stored: bool)
        ensures
            final(self)@.len() == old(self)@.len(),
            match first_free(old(self)@, 0) {
                None => !stored && final(self)@ == old(self)@,
                Some(k) => stored && final(self)@ == old(self)@.update(k, HugeSlot { addr, size }),
            },
    {
        let mut i: usize = 0;
        while i < HUGE_MAPPING_SLOTS
            invariant
                i <= HUGE_MAPPING_SLOTS,
                self@ == old(self)@,
                self@.len() == HUGE_MAPPING_SLOTS,
                first_free(old(self)@, 0) == first_free(old(self)@, i as int),
            decreases HUGE_MAPPING_SLOTS - i,
        {
            if self.slots[i].addr == 0 {
                self.slots[i] = HugeSlot { addr, size };
                proof {
                    assert(self@ =~= old(self)@.update(i as int, HugeSlot { addr, size }));
                }
                return true;
            }
            i = i + 1;
        }
        false
    }
}

} // verus!

verus! {

/// The slot `try_pop` claims serves the request, and no slot before it
/// does.
pub proof fn law_claimed_slot_serves(slots: Seq<HugeSlot>, requested: nat, from: int)
    requires
        0 <= from,
    ensures
        first_serving(slots, requested, from) matches Some(k) ==> {
            &&& from <= k < slots.len()
            &&& serves(slots[k], requested)
            &&& forall|j: int| from <= j < k ==> !serves(#[trigger] slots[j], requested)
        },
        first_serving(slots, requested, from) is None ==> forall|j: int|
            from <= j < slots.len() ==> !serves(#[trigger] slots[j], requested),
    decreases slots.len() - from,
{
    if from < slots.len() && !serves(slots[from], requested) {
        law_claimed_slot_serves(slots, requested, from + 1);
    }
}

/// A mapping cached into a pool with every slot free is served back to a
/// request for its own size.
pub proof fn law_cached_mapping_comes_back(addr: usize, size: usize)
    requires
        addr != 0,
        addr != FILLING_MARK,
    ensures
        ({
            let free = Seq::new(HUGE_MAPPING_SLOTS as nat, |i: int| HugeSlot { addr: 0, size: 0 });
            &&& first_free(free, 0) == Some(0int)
            &&& first_serving(free.update(0, HugeSlot { addr, size }), size as nat, 0) == Some(0int)
        }),
{
    let free = Seq::new(HUGE_MAPPING_SLOTS as nat, |i: int| HugeSlot { addr: 0, size: 0 });
    assert(free[0].addr == 0);
    let s = free.update(0, HugeSlot { addr, size });
    assert(s[0] == HugeSlot { addr, size });
    assert(serves(s[0], size as nat));
}

} // verus!
