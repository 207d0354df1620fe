//! The retained-segment stack shared by the huge-block cache and the segment
//! pool, and the handle that names one retained segment.

use vstd::prelude::*;

verus! {

/// A retained segment, by the values the caches read from its header.
#[derive(Clone, Copy, Debug, PartialEq, Eq, Structural)]
pub struct SegmentRef {
    /// Address of the segment header; identifies the segment.
    pub addr: usize,
    /// Base address of the backend mapping that holds the segment.
    pub raw_alloc: usize,
    /// Page-0 block size: the whole mapping size for a huge block.
    pub block_size: usize,
    /// NUMA node the segment was mapped on.
    pub numa_node: u32,
}

impl SegmentRef {
    /// A huge block of `block_size` bytes whose header sits at the start of
    /// its own mapping at `addr`, mapped on NUMA node 0.
    pub fn huge(addr: usize, block_size: usize) -> (s: SegmentRef)
        ensures
            s == (SegmentRef { addr, raw_alloc: addr, block_size, numa_node: 0 }),
    {
        SegmentRef { addr, raw_alloc: addr, block_size, numa_node: 0 }
    }
}

/// Sum of the block sizes of `s`.
pub open spec fn total_size(s: Seq<SegmentRef>) -> nat
    decreases s.len(),
{
    if s.len() == 0 {
        0
    } else {
        total_size(s.drop_last()) + s.last().block_size as nat
    }
}

/// Appending a block adds its size to the total.
pub proof fn lemma_total_size_push(s: Seq<SegmentRef>, x: SegmentRef)
    ensures
        total_size(s.push(x)) == total_size(s) + x.block_size,
{
    assert(s.push(x).drop_last() =~= s);
}

/// The total of a concatenation is the sum of the totals.
pub proof fn lemma_total_size_concat(a: Seq<SegmentRef>, b: Seq<SegmentRef>)
    ensures
        total_size(a + b) == total_size(a) + total_size(b),
    decreases b.len(),
{
    if b.len() == 0 {
        assert(a + b =~= a);
    } else {
        lemma_total_size_concat(a, b.drop_last());
        assert((a + b).drop_last() =~= a + b.drop_last());
    }
}

/// A single block's total is its size.
pub proof fn lemma_total_size_single(x: SegmentRef)
    ensures
        total_size(seq![x]) == x.block_size,
{
    assert(seq![x].drop_last() =~= Seq::<SegmentRef>::empty());
    assert(total_size(Seq::<SegmentRef>::empty()) == 0);
    assert(seq![x].last() == x);
}

/// Removing one block subtracts its size from the total.
pub proof fn lemma_total_size_remove(s: Seq<SegmentRef>, i: int)
    requires
        0 <= i < s.len(),
    ensures
        total_size(s.remove(i)) + s[i].block_size == total_size(s),
{
    let pre = s.subrange(0, i);
    let post = s.subrange(i + 1, s.len() as int);
    assert(s =~= pre + seq![s[i]] + post);
    assert(s.remove(i) =~= pre + post);
    lemma_total_size_concat(pre + seq![s[i]], post);
    lemma_total_size_concat(pre, seq![s[i]]);
    lemma_total_size_concat(pre, post);
    lemma_total_size_single(s[i]);
}

/// A LIFO stack of retained segments with its length.
///
/// The abstract view lists the segments bottom first: the last element is
/// the head that the next `pop` returns.
pub struct SegmentStack {
    items: Vec<SegmentRef>,
}

impl View for SegmentStack {
    type V = Seq<SegmentRef>;

    closed spec fn view(&self) -> Seq<SegmentRef> {
        self.items@
    }
}

impl SegmentStack {
    /// Creates an empty stack.
    pub fn new() -> (s: SegmentStack)
        ensures
            s@ == Seq::<SegmentRef>::empty(),
    {
        SegmentStack { items: Vec::new() }
    }

    /// Number of segments on the stack.
    pub fn len(&self) -> (n: usize)
        ensures
            n == self@.len(),
    {
        self.items.len()
    }

    /// Pushes `segment`; it becomes the head.
    pub fn push(&mut self, segment: SegmentRef)
        ensures
            final(self)@ == old(self)@.push(segment),
    {
        self.items.push(segment);
    }

    /// Splices a chain on top of the stack in one step: `chain[0]` becomes
    /// the head, the chain's later elements follow it, and the segments that
    /// were on the stack come after the chain's last element.
    pub fn push_chain(&mut self, chain: Vec<SegmentRef>)
        ensures
            final(self)@ == old(self)@ + chain@.reverse(),
    {
        let mut i = chain.len();
        while i > 0
            invariant
                i <= chain@.len(),
                self@ == old(self)@ + chain@.subrange(i as int, chain@.len() as int).reverse(),
            decreases i,
        {
            i = i - 1;
            self.items.push(chain[i]);
            assert(chain@.subrange(i as int, chain@.len() as int).reverse() =~= chain@.subrange(
                i + 1,
                chain@.len() as int,
            ).reverse().push(chain@[i as int]));
        }
        assert(chain@.subrange(0, chain@.len() as int) =~= chain@);
    }

    /// Pops the head segment, or `None` when the stack is empty.
    pub fn pop(&mut self) -> (r: Option<SegmentRef>)
        ensures
            old(self)@.len() == 0 ==> r is None && final(self)@ == old(self)@,
            old(self)@.len() > 0 ==> r == Some(old(self)@.last()) && final(self)@
                == old(self)@.drop_last(),
    {
        self.items.pop()
    }

    /// Detaches the whole chain, head first, leaving the stack empty.
    pub fn take_all(&mut self) -> (chain: Vec<SegmentRef>)
        ensures
            chain@ == old(self)@.reverse(),
            final(self)@ == Seq::<SegmentRef>::empty(),
    {
        let mut chain: Vec<SegmentRef> = Vec::new();
        while self.items.len() > 0
            invariant
                old(self)@ == self@ + chain@.reverse(),
            decreases self@.len(),
        {
            let s = self.items.pop().unwrap();
            chain.push(s);
        }
        assert(old(self)@.reverse() =~= chain@.reverse().reverse());
        chain
    }
}

} // verus!
