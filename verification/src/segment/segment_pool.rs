//! Pools of free segments kept for reuse: one LIFO stack per NUMA bucket,
//! with counters of what purges and resets gave back to the system.

use crate::segment::huge_pool::{GlobalHugePool, HugeBucketBand, HUGE_SIZE_BUCKETS};
use crate::segment::numa::{NUMA_BUCKETS, bucket_from_u32, spec_numa_bucket, visit_bucket};
use crate::segment::stack::{SegmentRef, SegmentStack};
use crate::segment::stats::SegmentRelease;
use vstd::multiset::Multiset;
use vstd::prelude::*;

verus! {

/// `a + b`, or `usize::MAX` when the sum does not fit.
pub open spec fn sat_add(a: nat, b: nat) -> nat {
    if a + b > usize::MAX {
        usize::MAX as nat
    } else {
        a + b
    }
}

/// `a + b` wrapped to a machine word, as a counter that wraps does.
pub open spec fn wrap_add(a: usize, b: usize) -> usize {
    if a + b > usize::MAX {
        (a + b - usize::MAX - 1) as usize
    } else {
        (a + b) as usize
    }
}

/// The free segments of one NUMA bucket, most recently pushed on top, and
/// counters of the purges and resets that swept it.
pub struct NodeSegmentPool {
    stack: SegmentStack,
    purged: usize,
    purge_calls: usize,
    reset_segments: usize,
    reset_calls: usize,
}

impl NodeSegmentPool {
    /// The free segments, bottom first: the last one is the next `pop`.
    pub closed spec fn segments(&self) -> Seq<SegmentRef> {
        self.stack@
    }

    /// Segments that purges gave back to the system.
    pub closed spec fn spec_purged(&self) -> usize {
        self.purged
    }

    /// Purges recorded.
    pub closed spec fn spec_purge_calls(&self) -> usize {
        self.purge_calls
    }

    /// Segments whose pages resets gave back.
    pub closed spec fn spec_reset_segments(&self) -> usize {
        self.reset_segments
    }

    /// Resets recorded.
    pub closed spec fn spec_reset_calls(&self) -> usize {
        self.reset_calls
    }

    /// Whether `other` holds the same counters.
    pub open spec fn same_counters(&self, other: &NodeSegmentPool) -> bool {
        &&& self.spec_purged() == other.spec_purged()
        &&& self.spec_purge_calls() == other.spec_purge_calls()
        &&& self.spec_reset_segments() == other.spec_reset_segments()
        &&& self.spec_reset_calls() == other.spec_reset_calls()
    }

    /// Creates an empty pool with zeroed counters.
    pub fn new() -> (p: Self)
        ensures
            p.segments() == Seq::<SegmentRef>::empty(),
            p.spec_purged() == 0,
            p.spec_purge_calls() == 0,
            p.spec_reset_segments() == 0,
            p.spec_reset_calls() == 0,
    {
        NodeSegmentPool {
            stack: SegmentStack::new(),
            purged: 0,
            purge_calls: 0,
            reset_segments: 0,
            reset_calls: 0,
        }
    }

    /// Pushes `segment` with no retention limit.
    pub fn push_unbounded(&mut self, segment: SegmentRef)
        ensures
            final(self).segments() == old(self).segments().push(segment),
            final(self).same_counters(old(self)),
    {
        self.stack.push(segment);
    }

    /// Pushes `segment` when fewer than `max_retained` segments are held and
    /// returns whether it did; otherwise the pool is unchanged.
    pub fn try_push_retained(&mut self, segment: SegmentRef, max_retained: usize) -> (pushed: bool)
        ensures
            pushed == (old(self).segments().len() < max_retained),
            pushed ==> final(self).segments() == old(self).segments().push(segment),
            !pushed ==> final(self).segments() == old(self).segments(),
            final(self).same_counters(old(self)),
    {
        if self.stack.len() >= max_retained {
            return false;
        }
        self.stack.push(segment);
        true
    }

    /// Detaches every held segment at once, most recently pushed first.
    pub fn take_all(&mut self) -> (chain: Vec<SegmentRef>)
        ensures
            chain@ == old(self).segments().reverse(),
            final(self).segments() == Seq::<SegmentRef>::empty(),
            final(self).same_counters(old(self)),
    {
        self.stack.take_all()
    }

    /// Pops the most recently pushed segment, or `None` when empty.
    pub fn pop(&mut self) -> (r: Option<SegmentRef>)
        ensures
            old(self).segments().len() == 0 ==> r is None && final(self).segments() == old(
                self).segments(),
            old(self).segments().len() > 0 ==> r == Some(old(self).segments().last())
                && final(self).segments() == old(self).segments().drop_last(),
            final(self).same_counters(old(self)),
    {
        self.stack.pop()
    }

    /// Number of held segments.
    pub fn retained_count(&self) -> (n: usize)
        ensures
            n == self.segments().len(),
    {
        self.stack.len()
    }

    /// Segments that purges gave back.
    pub fn purged_count(&self) -> (n: usize)
        ensures
            n == self.spec_purged(),
    {
        self.purged
    }

    /// Purges recorded.
    pub fn purge_call_count(&self) -> (n: usize)
        ensures
            n == self.spec_purge_calls(),
    {
        self.purge_calls
    }

    /// Segments whose pages resets gave back.
    pub fn reset_segments_count(&self) -> (n: usize)
        ensures
            n == self.spec_reset_segments(),
    {
        self.reset_segments
    }

    /// Resets recorded.
    pub fn reset_call_count(&self) -> (n: usize)
        ensures
            n == self.spec_reset_calls(),
    {
        self.reset_calls
    }

    /// Records one purge that gave back `count` segments; the counters wrap.
    pub fn record_purge(&mut self, count: usize)
        ensures
            final(self).segments() == old(self).segments(),
            final(self).spec_purge_calls() == wrap_add(old(self).spec_purge_calls(), 1),
            final(self).spec_purged() == wrap_add(old(self).spec_purged(), count),
            final(self).spec_reset_segments() == old(self).spec_reset_segments(),
            final(self).spec_reset_calls() == old(self).spec_reset_calls(),
    {
        self.purge_calls = self.purge_calls.wrapping_add(1);
        self.purged = self.purged.wrapping_add(count);
    }

    /// Records one reset that gave back the pages of `count` segments; the
    /// counters wrap.
    pub fn record_reset(&mut self, count: usize)
        ensures
            final(self).segments() == old(self).segments(),
            final(self).spec_reset_calls() == wrap_add(old(self).spec_reset_calls(), 1),
            final(self).spec_reset_segments() == wrap_add(old(self).spec_reset_segments(), count),
            final(self).spec_purged() == old(self).spec_purged(),
            final(self).spec_purge_calls() == old(self).spec_purge_calls(),
    {
        self.reset_calls = self.reset_calls.wrapping_add(1);
        self.reset_segments = self.reset_segments.wrapping_add(count);
    }
}

} // verus!

verus! {

/// Which counter of a node pool a total is taken over.
pub enum PoolCounter {
    Retained,
    Purged,
    PurgeCalls,
    ResetSegments,
    ResetCalls,
}

/// The value of counter `which` of `node`.
pub open spec fn node_counter(node: NodeSegmentPool, which: PoolCounter) -> nat {
    match which {
        PoolCounter::Retained => node.segments().len(),
        PoolCounter::Purged => node.spec_purged() as nat,
        PoolCounter::PurgeCalls => node.spec_purge_calls() as nat,
        PoolCounter::ResetSegments => node.spec_reset_segments() as nat,
        PoolCounter::ResetCalls => node.spec_reset_calls() as nat,
    }
}

fn read_counter(node: &NodeSegmentPool, which: &PoolCounter) -> (n: usize)
    ensures
        n == node_counter(*node, *which),
{
    match which {
        PoolCounter::Retained => node.retained_count(),
        PoolCounter::Purged => node.purged_count(),
        PoolCounter::PurgeCalls => node.purge_call_count(),
        PoolCounter::ResetSegments => node.reset_segments_count(),
        PoolCounter::ResetCalls => node.reset_call_count(),
    }
}

/// A NUMA-aware pool of free segments: one node pool per NUMA bucket.
pub struct GlobalSegmentPool {
    nodes: Vec<NodeSegmentPool>,
}

/// The sum of counter `which` over the first `k` node pools, each addition
/// saturating at `usize::MAX`.
pub open spec fn counter_total(pool: GlobalSegmentPool, which: PoolCounter, k: nat) -> nat
    decreases k,
{
    if k == 0 {
        0
    } else {
        sat_add(
            counter_total(pool, which, (k - 1) as nat),
            node_counter(pool.node((k - 1) as nat), which),
        )
    }
}

/// A running total over the first `j` node pools never exceeds the total
/// over the first `k >= j`, nor is any of those pools' counters above it.
proof fn lemma_counter_total_bounds(pool: GlobalSegmentPool, which: PoolCounter, j: nat, k: nat)
    requires
        j <= k,
    ensures
        counter_total(pool, which, j) <= counter_total(pool, which, k),
        j < k && node_counter(pool.node(j), which) <= usize::MAX ==> node_counter(
            pool.node(j),
            which,
        ) <= counter_total(pool, which, k),
    decreases k,
{
    if j < k {
        lemma_counter_total_bounds(pool, which, j, (k - 1) as nat);
        if j + 1 < k {
            lemma_counter_total_bounds(pool, which, j + 1, (k - 1) as nat);
        }
    }
}

/// Raising one node pool's counter by `d` raises the total by `d`, while
/// the total stays within a machine word.
proof fn lemma_counter_total_bump(
    a: GlobalSegmentPool,
    b: GlobalSegmentPool,
    which: PoolCounter,
    e: nat,
    d: nat,
    k: nat,
)
    requires
        e < NUMA_BUCKETS,
        k <= NUMA_BUCKETS,
        forall|m: nat|
            m < NUMA_BUCKETS && m != e ==> node_counter(#[trigger] b.node(m), which)
                == node_counter(a.node(m), which),
        node_counter(b.node(e), which) == node_counter(a.node(e), which) + d,
        counter_total(a, which, NUMA_BUCKETS as nat) + d <= usize::MAX,
    ensures
        counter_total(b, which, k) == counter_total(a, which, k) + if e < k {
            d
        } else {
            0
        },
    decreases k,
{
    if k > 0 {
        let j = (k - 1) as nat;
        lemma_counter_total_bump(a, b, which, e, d, j);
        lemma_counter_total_bounds(a, which, k, NUMA_BUCKETS as nat);
        if d > 0 {
            assert(counter_total(a, which, j) + node_counter(a.node(j), which) <= usize::MAX);
        } else {
            assert(node_counter(b.node(j), which) == node_counter(a.node(j), which));
        }
    }
}

/// The node pool a pop starting at bucket `start` takes from: the first, in
/// visiting order from offset `offset` on, that holds a segment.
pub open spec fn steal_pick(pool: GlobalSegmentPool, start: nat, offset: nat) -> Option<nat>
    decreases NUMA_BUCKETS - offset,
{
    if offset >= NUMA_BUCKETS {
        None
    } else {
        let n = visit_bucket(start, offset);
        if pool.node(n).segments().len() > 0 {
            Some(n)
        } else {
            steal_pick(pool, start, offset + 1)
        }
    }
}

/// What a pop starting at bucket `start` does, taking `before` to `after`
/// and returning `r`: it takes the top segment of the pool `steal_pick`
/// names and leaves every other pool as it was, or returns `None` and
/// changes nothing when every pool is empty.
pub open spec fn pop_outcome(
    before: GlobalSegmentPool,
    after: GlobalSegmentPool,
    r: Option<SegmentRef>,
    start: nat,
) -> bool {
    match steal_pick(before, start, 0) {
        None => r is None && after.same_nodes_except(&before, NUMA_BUCKETS as nat),
        Some(n) => {
            &&& r == Some(before.node(n).segments().last())
            &&& after.node(n).segments() == before.node(n).segments().drop_last()
            &&& after.node(n).same_counters(&before.node(n))
            &&& after.same_nodes_except(&before, n)
        },
    }
}

/// Consecutive local misses after which a thread reads its NUMA node
/// afresh; the count runs from 0 up to this value.
pub const REFRESH_AFTER_MISSES: u32 = 31;

/// Whether a local miss, with `misses` misses counted before it, reads the
/// NUMA node afresh.
pub open spec fn refresh_due(misses: u32) -> bool {
    misses >= REFRESH_AFTER_MISSES
}

/// The miss count after one more local miss: back to 0 when the node is
/// read afresh, else one more.
pub open spec fn misses_after_miss(misses: u32) -> u32 {
    if refresh_due(misses) {
        0
    } else {
        (misses + 1) as u32
    }
}

/// Counts one local miss on top of `misses`: returns whether the NUMA node
/// is to be read afresh now, and the new count.
pub fn miss_refreshes(misses: u32) -> (r: (bool, u32))
    ensures
        r.0 == refresh_due(misses),
        r.1 == misses_after_miss(misses),
{
    if misses >= REFRESH_AFTER_MISSES {
        (true, 0)
    } else {
        (false, misses + 1)
    }
}

/// The segments held by node pools `0..k`, counted with multiplicity.
pub open spec fn contents_upto(pool: GlobalSegmentPool, k: nat) -> Multiset<SegmentRef>
    decreases k,
{
    if k == 0 {
        Multiset::empty()
    } else {
        contents_upto(pool, (k - 1) as nat).add(pool.node((k - 1) as nat).segments().to_multiset())
    }
}

/// Every segment the pool holds, across all node pools, counted with
/// multiplicity.
pub open spec fn pool_contents(pool: GlobalSegmentPool) -> Multiset<SegmentRef> {
    contents_upto(pool, NUMA_BUCKETS as nat)
}

/// Pools that agree on nodes `0..k` hold the same segments there.
proof fn lemma_contents_frame(a: GlobalSegmentPool, b: GlobalSegmentPool, k: nat)
    requires
        forall|m: nat| m < k ==> (#[trigger] a.node(m)).segments() == b.node(m).segments(),
    ensures
        contents_upto(a, k) == contents_upto(b, k),
    decreases k,
{
    if k > 0 {
        lemma_contents_frame(a, b, (k - 1) as nat);
        assert(a.node((k - 1) as nat).segments() == b.node((k - 1) as nat).segments());
    }
}

/// Pools that agree on nodes `0..k` but `e` differ there by what node `e`
/// holds.
proof fn lemma_contents_update(a: GlobalSegmentPool, b: GlobalSegmentPool, e: nat, k: nat)
    requires
        e < k,
        forall|m: nat| m < k && m != e ==> (#[trigger] a.node(m)).segments() == b.node(m).segments(),
    ensures
        contents_upto(a, k).add(b.node(e).segments().to_multiset()) =~= contents_upto(b, k).add(
            a.node(e).segments().to_multiset(),
        ),
    decreases k,
{
    broadcast use vstd::multiset::group_multiset_axioms;

    let ae = a.node(e).segments().to_multiset();
    let be = b.node(e).segments().to_multiset();
    let al = a.node((k - 1) as nat).segments().to_multiset();
    let bl = b.node((k - 1) as nat).segments().to_multiset();
    if e < k - 1 {
        lemma_contents_update(a, b, e, (k - 1) as nat);
        assert(a.node((k - 1) as nat).segments() == b.node((k - 1) as nat).segments());
        let ca = contents_upto(a, (k - 1) as nat);
        let cb = contents_upto(b, (k - 1) as nat);
        assert forall|x: SegmentRef| #[trigger] contents_upto(a, k).add(be).count(x)
            == contents_upto(b, k).add(ae).count(x) by {
            assert(ca.add(be).count(x) == cb.add(ae).count(x));
        }
    } else {
        lemma_contents_frame(a, b, (k - 1) as nat);
    }
}

/// Nodes `0..k` hold nothing exactly when none of them holds a segment.
proof fn lemma_contents_empty(pool: GlobalSegmentPool, k: nat)
    ensures
        contents_upto(pool, k).len() == 0 <==> forall|m: nat|
            m < k ==> (#[trigger] pool.node(m)).segments().len() == 0,
    decreases k,
{
    broadcast use vstd::multiset::group_multiset_axioms;
    broadcast use vstd::seq_lib::group_to_multiset_ensures;

    if k > 0 {
        lemma_contents_empty(pool, (k - 1) as nat);
        let last = pool.node((k - 1) as nat).segments();
        assert(last.to_multiset().len() == last.len());
        if contents_upto(pool, k).len() == 0 {
            assert forall|m: nat| m < k implies (#[trigger] pool.node(m)).segments().len() == 0 by {
                if m < k - 1 {
                    assert(contents_upto(pool, (k - 1) as nat).len() == 0);
                }
            }
        }
    }
}

/// A pop that finds nothing from offset `o` on passed only empty nodes.
proof fn lemma_steal_pick_none(pool: GlobalSegmentPool, start: nat, o: nat)
    requires
        steal_pick(pool, start, o) is None,
    ensures
        forall|off: nat|
            o <= off < NUMA_BUCKETS ==> (#[trigger] pool.node(visit_bucket(start, off))).segments().len()
                == 0,
    decreases NUMA_BUCKETS - o,
{
    if o < NUMA_BUCKETS {
        lemma_steal_pick_none(pool, start, o + 1);
    }
}

/// A pop finds nothing exactly when the pool holds nothing, and otherwise
/// takes from a node that holds a segment.
proof fn lemma_steal_pick_finds(pool: GlobalSegmentPool, start: nat, o: nat)
    requires
        start < NUMA_BUCKETS,
    ensures
        o == 0 ==> (steal_pick(pool, start, o) is None <==> pool_contents(pool).len() == 0),
        steal_pick(pool, start, o) matches Some(n) ==> n < NUMA_BUCKETS
            && pool.node(n).segments().len() > 0,
    decreases NUMA_BUCKETS - o,
{
    if o < NUMA_BUCKETS {
        lemma_steal_pick_finds(pool, start, o + 1);
    }
    lemma_contents_empty(pool, NUMA_BUCKETS as nat);
    if o == 0 && steal_pick(pool, start, 0) is None {
        lemma_steal_pick_none(pool, start, 0);
        assert forall|m: nat| m < NUMA_BUCKETS implies (#[trigger] pool.node(m)).segments().len()
            == 0 by {
            let off = ((m + NUMA_BUCKETS - start) % (NUMA_BUCKETS as int)) as nat;
            assert(visit_bucket(start, off) == m);
        }
    }
}

/// What a pop leaves, in terms of everything the pool holds.
proof fn lemma_pop_contents(before: GlobalSegmentPool, after: GlobalSegmentPool, n: nat)
    requires
        n < NUMA_BUCKETS,
        before.node(n).segments().len() > 0,
        after.node(n).segments() == before.node(n).segments().drop_last(),
        after.same_nodes_except(&before, n),
    ensures
        pool_contents(before) =~= pool_contents(after).insert(before.node(n).segments().last()),
{
    broadcast use vstd::multiset::group_multiset_axioms;
    broadcast use vstd::seq_lib::group_to_multiset_ensures;

    let segs = before.node(n).segments();
    assert(segs =~= segs.drop_last().push(segs.last()));
    let bn = segs.to_multiset();
    let an = after.node(n).segments().to_multiset();
    assert(bn =~= an.insert(segs.last()));
    lemma_contents_update(before, after, n, NUMA_BUCKETS as nat);
    let cb = pool_contents(before);
    let ca = pool_contents(after);
    assert forall|x: SegmentRef| #[trigger] cb.count(x) == ca.insert(segs.last()).count(x) by {
        assert(cb.add(an).count(x) == ca.add(bn).count(x));
    }
}

/// What a push leaves, in terms of everything the pool holds.
proof fn lemma_push_contents(before: GlobalSegmentPool, after: GlobalSegmentPool, n: nat, s: SegmentRef)
    requires
        n < NUMA_BUCKETS,
        after.node(n).segments() == before.node(n).segments().push(s),
        after.same_nodes_except(&before, n),
    ensures
        pool_contents(after) =~= pool_contents(before).insert(s),
{
    broadcast use vstd::multiset::group_multiset_axioms;
    broadcast use vstd::seq_lib::group_to_multiset_ensures;

    lemma_contents_update(after, before, n, NUMA_BUCKETS as nat);
    let an = after.node(n).segments().to_multiset();
    let bn = before.node(n).segments().to_multiset();
    assert(an =~= bn.insert(s));
    let ca = pool_contents(after);
    let cb = pool_contents(before);
    assert forall|x: SegmentRef| #[trigger] ca.count(x) == cb.insert(s).count(x) by {
        assert(ca.add(bn).count(x) == cb.add(an).count(x));
    }
}

/// Draining a pool gives back everything it held, each segment exactly as
/// often as it was held: when each of a run of pops took the segment
/// `taken[i]` from the state `states[i]`, leaving `states[i + 1]`, as
/// [`GlobalSegmentPool::pop`] states, and the run ended on a pool that holds
/// nothing, the segments taken are exactly what the first state held.
pub proof fn law_drain_yields_each_segment_once(
    states: Seq<GlobalSegmentPool>,
    taken: Seq<SegmentRef>,
)
    requires
        states.len() == taken.len() + 1,
        forall|i: int|
            0 <= i < taken.len() ==> pool_contents(#[trigger] states[i]) == pool_contents(
                states[i + 1],
            ).insert(taken[i]),
        pool_contents(states.last()).len() == 0,
    ensures
        pool_contents(states[0]) == taken.to_multiset(),
    decreases taken.len(),
{
    broadcast use vstd::multiset::group_multiset_axioms;
    broadcast use vstd::seq_lib::group_to_multiset_ensures;

    if taken.len() == 0 {
        assert(pool_contents(states[0]) =~= Multiset::empty());
    } else {
        let rest_states = states.drop_first();
        let rest_taken = taken.drop_first();
        assert forall|i: int| 0 <= i < rest_taken.len() implies pool_contents(
            #[trigger] rest_states[i],
        ) == pool_contents(rest_states[i + 1]).insert(rest_taken[i]) by {
            assert(rest_states[i] == states[i + 1]);
            assert(rest_states[i + 1] == states[i + 2]);
            assert(rest_taken[i] == taken[i + 1]);
        }
        assert(rest_states.last() == states.last());
        law_drain_yields_each_segment_once(rest_states, rest_taken);
        assert(taken =~= seq![taken[0]] + rest_taken);
        vstd::seq_lib::lemma_multiset_commutative(seq![taken[0]], rest_taken);
        assert(seq![taken[0]].to_multiset() =~= Multiset::empty().insert(taken[0])) by {
            assert(seq![taken[0]] =~= Seq::<SegmentRef>::empty().push(taken[0]));
        }
        assert(pool_contents(states[0]) =~= taken.to_multiset());
    }
}

impl GlobalSegmentPool {
    /// There is one node pool per NUMA bucket.
    #[verifier::type_invariant]
    spec fn inv(self) -> bool {
        self.nodes@.len() == NUMA_BUCKETS
    }

    /// The node pool of bucket `n`.
    pub closed spec fn node(&self, n: nat) -> NodeSegmentPool {
        self.nodes@[n as int]
    }

    /// Whether `other` holds the same segments and counters in every bucket
    /// but `except`.
    pub open spec fn same_nodes_except(&self, other: &GlobalSegmentPool, except: nat) -> bool {
        forall|n: nat|
            n < NUMA_BUCKETS && n != except ==> {
                &&& (#[trigger] self.node(n)).segments() == other.node(n).segments()
                &&& self.node(n).same_counters(&other.node(n))
            }
    }

    /// Creates a pool with an empty node pool per NUMA bucket.
    pub fn new() -> (p: Self)
        ensures
            forall|n: nat|
                n < NUMA_BUCKETS ==> (#[trigger] p.node(n)).segments() == Seq::<SegmentRef>::empty()
                    && p.node(n).spec_purged() == 0 && p.node(n).spec_purge_calls() == 0
                    && p.node(n).spec_reset_segments() == 0 && p.node(n).spec_reset_calls() == 0,
    {
        let mut nodes: Vec<NodeSegmentPool> = Vec::with_capacity(NUMA_BUCKETS);
        let mut i: usize = 0;
        while i < NUMA_BUCKETS
            invariant
                i <= NUMA_BUCKETS,
                nodes@.len() == i,
                forall|n: int|
                    0 <= n < i ==> (#[trigger] nodes@[n]).segments() == Seq::<SegmentRef>::empty()
                        && nodes@[n].spec_purged() == 0 && nodes@[n].spec_purge_calls() == 0
                        && nodes@[n].spec_reset_segments() == 0 && nodes@[n].spec_reset_calls() == 0,
            decreases NUMA_BUCKETS - i,
        {
            nodes.push(NodeSegmentPool::new());
            i = i + 1;
        }
        GlobalSegmentPool { nodes }
    }

    /// Pushes `segment` onto the pool of its NUMA node's bucket, with no
    /// retention limit.
    pub fn push_unbounded(&mut self, segment: SegmentRef)
        ensures
            final(self).node(spec_numa_bucket(segment.numa_node as nat)).segments() == old(
                self).node(spec_numa_bucket(segment.numa_node as nat)).segments().push(segment),
            final(self).node(spec_numa_bucket(segment.numa_node as nat)).same_counters(
                &old(self).node(spec_numa_bucket(segment.numa_node as nat)),
            ),
            final(self).same_nodes_except(old(self), spec_numa_bucket(segment.numa_node as nat)),
            pool_contents(*final(self)) == pool_contents(*old(self)).insert(segment),
    {
        proof {
            use_type_invariant(&*self);
        }
        let b = bucket_from_u32(segment.numa_node);
        let ghost before = *self;
        self.nodes[b].push_unbounded(segment);
        proof {
            assert(self.node(b as nat) == self.nodes@[b as int]);
            assert(before.node(b as nat) == before.nodes@[b as int]);
            assert forall|m: nat| m < NUMA_BUCKETS && m != b implies {
                &&& (#[trigger] self.node(m)).segments() == before.node(m).segments()
                &&& self.node(m).same_counters(&before.node(m))
            } by {
                assert(self.nodes@[m as int] == before.nodes@[m as int]);
            }
            lemma_push_contents(before, *self, b as nat, segment);
        }
    }

    /// Pushes `segment` onto the pool of its NUMA node's bucket when that
    /// pool holds fewer than `max_retained` segments, and returns whether it
    /// did.
    pub fn try_push_retained(&mut self, segment: SegmentRef, max_retained: usize) -> (pushed: bool)
        ensures
            pushed == (old(self).node(spec_numa_bucket(segment.numa_node as nat)).segments().len()
                < max_retained),
            pushed ==> final(self).node(spec_numa_bucket(segment.numa_node as nat)).segments()
                == old(self).node(spec_numa_bucket(segment.numa_node as nat)).segments().push(
                segment,
            ),
            !pushed ==> final(self).node(spec_numa_bucket(segment.numa_node as nat)).segments()
                == old(self).node(spec_numa_bucket(segment.numa_node as nat)).segments(),
            final(self).node(spec_numa_bucket(segment.numa_node as nat)).same_counters(
                &old(self).node(spec_numa_bucket(segment.numa_node as nat)),
            ),
            final(self).same_nodes_except(old(self), spec_numa_bucket(segment.numa_node as nat)),
    {
        proof {
            use_type_invariant(&*self);
        }
        let b = bucket_from_u32(segment.numa_node);
        self.nodes[b].try_push_retained(segment, max_retained)
    }

    /// Pops a segment for a thread on NUMA node `numa_node`: from its own
    /// bucket's pool when that holds one, else from the first other bucket in
    /// wrap-around order that does; `None` when every pool is empty.
    pub fn pop(&mut self, numa_node: u32) -> (r: Option<SegmentRef>)
        ensures
            pop_outcome(*old(self), *final(self), r, spec_numa_bucket(numa_node as nat)),
            r matches Some(s) ==> pool_contents(*old(self)) == pool_contents(*final(self)).insert(
                s,
            ),
            r is None <==> pool_contents(*old(self)).len() == 0,
            r is None ==> pool_contents(*final(self)) == pool_contents(*old(self)),
    {
        proof {
            use_type_invariant(&*self);
            lemma_steal_pick_finds(*old(self), spec_numa_bucket(numa_node as nat), 0);
        }
        let start = bucket_from_u32(numa_node);
        let mut offset: usize = 0;
        while offset < NUMA_BUCKETS
            invariant
                self.nodes@.len() == NUMA_BUCKETS,
                start == spec_numa_bucket(numa_node as nat),
                start < NUMA_BUCKETS,
                offset <= NUMA_BUCKETS,
                self.same_nodes_except(old(self), NUMA_BUCKETS as nat),
                steal_pick(*old(self), start as nat, 0) == steal_pick(
                    *old(self),
                    start as nat,
                    offset as nat,
                ),
            decreases NUMA_BUCKETS - offset,
        {
            let n = (start + offset) % NUMA_BUCKETS;
            proof {
                assert(n == visit_bucket(start as nat, offset as nat));
                assert(self.node(n as nat).segments() == old(self).node(n as nat).segments());
            }
            let ghost before = *self;
            let popped = self.nodes[n].pop();
            match popped {
                Some(s) => {
                    proof {
                        assert(steal_pick(*old(self), start as nat, offset as nat) == Some(
                            n as nat,
                        ));
                        assert forall|m: nat| m < NUMA_BUCKETS && m != n implies {
                            &&& (#[trigger] self.node(m)).segments() == old(self).node(m).segments()
                            &&& self.node(m).same_counters(&old(self).node(m))
                        } by {
                            assert(self.node(m) == before.node(m));
                        }
                        lemma_pop_contents(*old(self), *self, n as nat);
                    }
                    return Some(s);
                },
                None => {
                    proof {
                        assert forall|m: nat| m < NUMA_BUCKETS implies {
                            &&& (#[trigger] self.node(m)).segments() == old(self).node(m).segments()
                            &&& self.node(m).same_counters(&old(self).node(m))
                        } by {
                            if m != n {
                                assert(self.node(m) == before.node(m));
                            }
                        }
                    }
                },
            }
            offset = offset + 1;
        }
        proof {
            lemma_contents_frame(*self, *old(self), NUMA_BUCKETS as nat);
        }
        None
    }

    /// Pops a segment for a thread that believes it runs on NUMA node
    /// `numa_node`. A hit in that node's own bucket leaves `misses` alone.
    /// On a miss, `misses` counts it, and every `REFRESH_AFTER_MISSES + 1`th
    /// consecutive miss reads the node afresh with `refresh_numa_node`; the
    /// pop then starts from the fresh node's bucket (which it tries first),
    /// else from `numa_node`'s, stealing in wrap-around order.
    pub fn pop_refreshing<F: Fn() -> u32>(
        &mut self,
        numa_node: u32,
        misses: &mut u32,
        refresh_numa_node: &F,
    ) -> (r: Option<SegmentRef>)
        requires
            refresh_numa_node.requires(()),
        ensures
            old(self).node(spec_numa_bucket(numa_node as nat)).segments().len() > 0 ==> {
                &&& pop_outcome(*old(self), *final(self), r, spec_numa_bucket(numa_node as nat))
                &&& *final(misses) == *old(misses)
            },
            old(self).node(spec_numa_bucket(numa_node as nat)).segments().len() == 0 ==> {
                &&& *final(misses) == misses_after_miss(*old(misses))
                &&& !refresh_due(*old(misses)) ==> pop_outcome(
                    *old(self),
                    *final(self),
                    r,
                    spec_numa_bucket(numa_node as nat),
                )
                &&& refresh_due(*old(misses)) ==> exists|fresh: u32|
                    #![trigger spec_numa_bucket(fresh as nat)]
                    refresh_numa_node.ensures((), fresh) && pop_outcome(
                        *old(self),
                        *final(self),
                        r,
                        spec_numa_bucket(fresh as nat),
                    )
            },
            r matches Some(s) ==> pool_contents(*old(self)) == pool_contents(*final(self)).insert(
                s,
            ),
            r is None <==> pool_contents(*old(self)).len() == 0,
            r is None ==> pool_contents(*final(self)) == pool_contents(*old(self)),
    {
        proof {
            use_type_invariant(&*self);
        }
        let local = bucket_from_u32(numa_node);
        if self.nodes[local].retained_count() > 0 {
            return self.pop(numa_node);
        }
        let (refresh, next) = miss_refreshes(*misses);
        *misses = next;
        if refresh {
            let fresh = refresh_numa_node();
            self.pop(fresh)
        } else {
            self.pop(numa_node)
        }
    }

    /// Total of counter `which` over all node pools, saturating.
    fn total(&self, which: PoolCounter) -> (t: usize)
        ensures
            t == counter_total(*self, which, NUMA_BUCKETS as nat),
    {
        proof {
            use_type_invariant(self);
        }
        let mut t: usize = 0;
        let mut i: usize = 0;
        while i < NUMA_BUCKETS
            invariant
                i <= NUMA_BUCKETS,
                self.nodes@.len() == NUMA_BUCKETS,
                t == counter_total(*self, which, i as nat),
            decreases NUMA_BUCKETS - i,
        {
            let c = read_counter(&self.nodes[i], &which);
            t = match t.checked_add(c) {
                Some(s) => s,
                None => usize::MAX,
            };
            i = i + 1;
        }
        t
    }

    /// Segments held across all node pools, saturating.
    pub fn retained_count(&self) -> (n: usize)
        ensures
            n == counter_total(*self, PoolCounter::Retained, NUMA_BUCKETS as nat),
    {
        self.total(PoolCounter::Retained)
    }

    /// Segments purges gave back, across all node pools, saturating.
    pub fn purged_count(&self) -> (n: usize)
        ensures
            n == counter_total(*self, PoolCounter::Purged, NUMA_BUCKETS as nat),
    {
        self.total(PoolCounter::Purged)
    }

    /// Purges recorded across all node pools, saturating.
    pub fn purge_call_count(&self) -> (n: usize)
        ensures
            n == counter_total(*self, PoolCounter::PurgeCalls, NUMA_BUCKETS as nat),
    {
        self.total(PoolCounter::PurgeCalls)
    }

    /// Segments whose pages resets gave back, across all node pools,
    /// saturating.
    pub fn reset_segments_count(&self) -> (n: usize)
        ensures
            n == counter_total(*self, PoolCounter::ResetSegments, NUMA_BUCKETS as nat),
    {
        self.total(PoolCounter::ResetSegments)
    }

    /// Resets recorded across all node pools, saturating.
    pub fn reset_call_count(&self) -> (n: usize)
        ensures
            n == counter_total(*self, PoolCounter::ResetCalls, NUMA_BUCKETS as nat),
    {
        self.total(PoolCounter::ResetCalls)
    }
}

} // verus!

verus! {

/// The smaller of `a` and `b`.
pub open spec fn min_nat(a: nat, b: nat) -> nat {
    if a <= b {
        a
    } else {
        b
    }
}

/// What a purge sweep of one node leaves, given the chain it detached (most
/// recent first), the `w` segments it kept warm, and the index `f` of the
/// first segment whose release failed (the chain's length when none did):
/// `release` reported every segment from `w` to `f` released and the one at
/// `f` retained, and the node holds the kept segments and those from `f` on,
/// pushed back in chain order.
pub open spec fn purge_outcome<F: Fn(SegmentRef) -> SegmentRelease>(
    release: F,
    chain: Seq<SegmentRef>,
    w: nat,
    f: int,
    after: Seq<SegmentRef>,
) -> bool {
    &&& w <= f <= chain.len()
    &&& forall|i: int| w <= i < f ==> release.ensures((#[trigger] chain[i],), SegmentRelease::Released)
    &&& f < chain.len() ==> release.ensures((chain[f],), SegmentRelease::RetainedAfterFailure)
    &&& after == chain.subrange(0, w as int) + chain.subrange(f, chain.len() as int)
}

impl NodeSegmentPool {
    /// Detaches every held segment and walks them most recent first: the
    /// first `keep` go straight back; each later one is handed to `release`
    /// until one release fails, when that segment and all not yet visited go
    /// back unreleased. Returns how many were kept warm and how many were
    /// released; the counters are unchanged.
    pub fn purge_sweep<F: Fn(SegmentRef) -> SegmentRelease>(&mut self, keep: usize, release: &F) -> (r: (
        usize,
        usize,
    ))
        requires
            forall|s: SegmentRef| release.requires((s,)),
        ensures
            r.0 == min_nat(keep as nat, old(self).segments().len()),
            purge_outcome(
                *release,
                old(self).segments().reverse(),
                r.0 as nat,
                r.0 + r.1,
                final(self).segments(),
            ),
            final(self).same_counters(old(self)),
    {
        let chain = self.take_all();
        let ghost c = chain@;
        let n = chain.len();
        let mut i: usize = 0;
        while i < n && i < keep
            invariant
                c == chain@,
                n == c.len(),
                i <= n,
                i <= keep,
                self.segments() == c.subrange(0, i as int),
                self.same_counters(old(self)),
            decreases n - i,
        {
            self.push_unbounded(chain[i]);
            proof {
                assert(c.subrange(0, i + 1) =~= c.subrange(0, i as int).push(c[i as int]));
            }
            i = i + 1;
        }
        let kept = i;
        let mut purged: usize = 0;
        let mut failed = false;
        while i < n && !failed
            invariant
                c == chain@,
                n == c.len(),
                kept <= i <= n,
                kept == min_nat(keep as nat, n as nat),
                forall|s: SegmentRef| release.requires((s,)),
                !failed ==> purged == i - kept,
                !failed ==> forall|j: int| kept <= j < i ==> release.ensures((#[trigger] c[j],), SegmentRelease::Released),
                !failed ==> self.segments() == c.subrange(0, kept as int),
                failed ==> purge_outcome(*release, c, kept as nat, purged + kept, self.segments()),
                failed ==> purged + kept <= n,
                self.same_counters(old(self)),
            decreases n - i, if failed { 0int } else { 1int },
        {
            let seg = chain[i];
            let outcome = release(seg);
            match outcome {
                SegmentRelease::Released => {
                    purged = purged + 1;
                    i = i + 1;
                },
                SegmentRelease::RetainedAfterFailure => {
                    let ghost f = i as int;
                    let mut j: usize = i;
                    while j < n
                        invariant
                            c == chain@,
                            n == c.len(),
                            f <= j <= n,
                            kept as int <= f,
                            self.segments() == c.subrange(0, kept as int) + c.subrange(f, j as int),
                            self.same_counters(old(self)),
                        decreases n - j,
                    {
                        self.push_unbounded(chain[j]);
                        proof {
                            assert(c.subrange(f, j + 1) =~= c.subrange(f, j as int).push(c[j as int]));
                        }
                        j = j + 1;
                    }
                    failed = true;
                    proof {
                        assert(purge_outcome(*release, c, kept as nat, f, self.segments()));
                    }
                    i = n;
                },
            }
        }
        proof {
            if !failed {
                assert(c.subrange(n as int, n as int) =~= Seq::<SegmentRef>::empty());
                assert(self.segments() =~= c.subrange(0, kept as int) + c.subrange(n as int, n as int));
                assert(purge_outcome(*release, c, kept as nat, n as int, self.segments()));
            }
            assert(purge_outcome(*release, c, kept as nat, (purged + kept) as int, self.segments()));
            assert(c == old(self).segments().reverse());
            assert(purge_outcome(
                *release,
                old(self).segments().reverse(),
                kept as nat,
                (purged + kept) as int,
                self.segments(),
            ));
        }
        (kept, purged)
    }
}

} // verus!

verus! {

/// Number of `true` entries in `s`.
pub open spec fn count_true(s: Seq<bool>) -> nat
    decreases s.len(),
{
    if s.len() == 0 {
        0
    } else {
        count_true(s.drop_last()) + if s.last() {
            1nat
        } else {
            0nat
        }
    }
}

/// The user pages of a segment whose header sits at `addr`: the
/// `segment_size - page_size` bytes after its header page, as a start
/// address and a length; `None` when that start is past the address space.
pub open spec fn user_pages(addr: usize, page_size: usize, segment_size: usize) -> Option<
    (usize, usize),
> {
    if addr + page_size <= usize::MAX {
        Some(((addr + page_size) as usize, (segment_size - page_size) as usize))
    } else {
        None
    }
}

/// A reset never touches a segment's header page: the user pages of the
/// segment at `addr` start right after that page and end with the segment.
pub proof fn law_reset_spares_the_header(addr: usize, page_size: usize, segment_size: usize)
    requires
        page_size <= segment_size,
    ensures
        user_pages(addr, page_size, segment_size) matches Some((start, len)) ==> start == addr
            + page_size && start + len == addr + segment_size,
{
}

/// The user pages of the segment at `addr`, as [`user_pages`] gives them.
pub fn segment_user_pages(addr: usize, page_size: usize, segment_size: usize) -> (r: Option<
    (usize, usize),
>)
    requires
        page_size <= segment_size,
    ensures
        r == user_pages(addr, page_size, segment_size),
{
    match addr.checked_add(page_size) {
        Some(start) => Some((start, segment_size - page_size)),
        None => None,
    }
}

/// `outcomes[i]` is what resetting the user pages of `chain[i]` gave, for
/// every segment of the chain: what `reset` reported for those pages, or
/// `false` for a segment whose user pages lie past the address space, which
/// is not reset.
pub open spec fn reset_outcomes<F: Fn(usize, usize) -> bool>(
    reset: F,
    chain: Seq<SegmentRef>,
    outcomes: Seq<bool>,
    page_size: usize,
    segment_size: usize,
) -> bool {
    &&& outcomes.len() == chain.len()
    &&& forall|i: int|
        0 <= i < chain.len() ==> match user_pages(
            (#[trigger] chain[i]).addr,
            page_size,
            segment_size,
        ) {
            Some(pages) => reset.ensures(pages, outcomes[i]),
            None => !outcomes[i],
        }
}

impl NodeSegmentPool {
    /// Detaches every held segment, hands the user pages of each (see
    /// [`user_pages`]) to `reset`, most recent first, and pushes each back;
    /// returns how many resets succeeded. The node ends up holding the same
    /// segments in reverse order; the counters are unchanged.
    pub fn reset_sweep<F: Fn(usize, usize) -> bool>(
        &mut self,
        page_size: usize,
        segment_size: usize,
        reset: &F,
    ) -> (count: usize)
        requires
            page_size <= segment_size,
            forall|start: usize, len: usize| reset.requires((start, len)),
        ensures
            final(self).segments() == old(self).segments().reverse(),
            exists|outcomes: Seq<bool>|
                reset_outcomes(
                    *reset,
                    old(self).segments().reverse(),
                    outcomes,
                    page_size,
                    segment_size,
                ) && count == count_true(outcomes),
            final(self).same_counters(old(self)),
    {
        let chain = self.take_all();
        let ghost c = chain@;
        let ghost mut outcomes: Seq<bool> = Seq::empty();
        let n = chain.len();
        let mut count: usize = 0;
        let mut i: usize = 0;
        while i < n
            invariant
                c == chain@,
                n == c.len(),
                i <= n,
                outcomes.len() == i,
                page_size <= segment_size,
                forall|start: usize, len: usize| reset.requires((start, len)),
                forall|j: int|
                    0 <= j < i ==> match user_pages((#[trigger] c[j]).addr, page_size, segment_size) {
                        Some(pages) => reset.ensures(pages, outcomes[j]),
                        None => !outcomes[j],
                    },
                count == count_true(outcomes),
                count <= i,
                self.segments() == c.subrange(0, i as int),
                self.same_counters(old(self)),
            decreases n - i,
        {
            let seg = chain[i];
            let ok = match segment_user_pages(seg.addr, page_size, segment_size) {
                Some((start, len)) => reset(start, len),
                None => false,
            };
            proof {
                assert(outcomes.push(ok).drop_last() =~= outcomes);
                outcomes = outcomes.push(ok);
                assert(c.subrange(0, i + 1) =~= c.subrange(0, i as int).push(c[i as int]));
            }
            if ok {
                count = count + 1;
            }
            self.push_unbounded(seg);
            i = i + 1;
        }
        proof {
            assert(c.subrange(0, n as int) =~= c);
            assert(reset_outcomes(*reset, c, outcomes, page_size, segment_size));
        }
        count
    }
}

} // verus!

verus! {

/// Warm segments the purge sweeps of nodes `0..n` keep, sharing a budget of
/// `warm` in node order.
pub open spec fn warm_before(pool: GlobalSegmentPool, warm: nat, n: nat) -> nat
    decreases n,
{
    if n == 0 {
        0
    } else {
        let k = warm_before(pool, warm, (n - 1) as nat);
        k + min_nat(
            if k >= warm {
                0
            } else {
                (warm - k) as nat
            },
            pool.node((n - 1) as nat).segments().len(),
        )
    }
}

/// Warm segments the purge sweep of node `n` keeps: what is left of the
/// budget, at most all the node holds.
pub open spec fn warm_share(pool: GlobalSegmentPool, warm: nat, n: nat) -> nat {
    let k = warm_before(pool, warm, n);
    min_nat(
        if k >= warm {
            0
        } else {
            (warm - k) as nat
        },
        pool.node(n).segments().len(),
    )
}

/// Segments a purge took out of nodes `0..n` for good, summed saturating.
pub open spec fn purged_upto(before: GlobalSegmentPool, after: GlobalSegmentPool, n: nat) -> nat
    decreases n,
{
    if n == 0 {
        0
    } else {
        sat_add(
            purged_upto(before, after, (n - 1) as nat),
            (before.node((n - 1) as nat).segments().len() - after.node(
                (n - 1) as nat,
            ).segments().len()) as nat,
        )
    }
}

proof fn lemma_warm_before_bounded(pool: GlobalSegmentPool, warm: nat, n: nat)
    ensures
        warm_before(pool, warm, n) <= warm,
    decreases n,
{
    if n > 0 {
        lemma_warm_before_bounded(pool, warm, (n - 1) as nat);
    }
}

/// What purging `before` with a shared budget of `warm` segments kept warm
/// leaves in `after`, having released `purged` segments (summed
/// saturating): each node as [`purge_outcome`] describes its sweep, and one
/// purge of `purged` recorded on the bucket of NUMA node `numa_node`, the
/// other counters unchanged.
pub open spec fn purged_with_warm<F: Fn(SegmentRef) -> SegmentRelease>(
    release: F,
    before: GlobalSegmentPool,
    after: GlobalSegmentPool,
    warm: nat,
    numa_node: u32,
    purged: usize,
) -> bool {
    let b = spec_numa_bucket(numa_node as nat);
    &&& forall|n: nat|
        n < NUMA_BUCKETS ==> purge_outcome(
            release,
            before.node(n).segments().reverse(),
            warm_share(before, warm, n),
            warm_share(before, warm, n) + before.node(n).segments().len() - (
            #[trigger] after.node(n)).segments().len(),
            after.node(n).segments(),
        )
    &&& purged == purged_upto(before, after, NUMA_BUCKETS as nat)
    &&& forall|n: nat|
        n < NUMA_BUCKETS && n != b ==> (#[trigger] after.node(n)).same_counters(&before.node(n))
    &&& after.node(b).spec_purge_calls() == wrap_add(before.node(b).spec_purge_calls(), 1)
    &&& after.node(b).spec_purged() == wrap_add(before.node(b).spec_purged(), purged)
    &&& after.node(b).spec_reset_segments() == before.node(b).spec_reset_segments()
    &&& after.node(b).spec_reset_calls() == before.node(b).spec_reset_calls()
}

impl GlobalSegmentPool {
    /// Sweeps every node in order, as [`NodeSegmentPool::purge_sweep`] does,
    /// with a shared budget of `warm` segments kept warm, then records one
    /// purge of the released segments on the bucket of NUMA node
    /// `numa_node`. Returns the number released (saturating).
    pub(crate) fn sweep_with_warm<F: Fn(SegmentRef) -> SegmentRelease>(
        &mut self,
        warm: usize,
        numa_node: u32,
        release: &F,
    ) -> (purged: usize)
        requires
            forall|s: SegmentRef| release.requires((s,)),
        ensures
            purged_with_warm(*release, *old(self), *final(self), warm as nat, numa_node, purged),
    {
        proof {
            use_type_invariant(&*self);
        }
        let ghost start = *self;
        let mut kept: usize = 0;
        let mut purged: usize = 0;
        let mut n: usize = 0;
        while n < NUMA_BUCKETS
            invariant
                self.nodes@.len() == NUMA_BUCKETS,
                n <= NUMA_BUCKETS,
                start == *old(self),
                forall|s: SegmentRef| release.requires((s,)),
                kept == warm_before(start, warm as nat, n as nat),
                kept <= warm,
                purged == purged_upto(start, *self, n as nat),
                forall|m: nat|
                    m < n ==> purge_outcome(
                        *release,
                        start.node(m).segments().reverse(),
                        warm_share(start, warm as nat, m),
                        warm_share(start, warm as nat, m) + start.node(m).segments().len()
                            - (#[trigger] self.node(m)).segments().len(),
                        self.node(m).segments(),
                    ),
                forall|m: nat|
                    n <= m < NUMA_BUCKETS ==> (#[trigger] self.node(m)).segments() == start.node(
                        m,
                    ).segments(),
                forall|m: nat| m < NUMA_BUCKETS ==> (#[trigger] self.node(m)).same_counters(&start.node(m)),
            decreases NUMA_BUCKETS - n,
        {
            let ghost before = *self;
            let budget = warm - kept;
            proof {
                assert(before.node(n as nat) == before.nodes@[n as int]);
            }
            let (k, p) = self.nodes[n].purge_sweep(budget, release);
            proof {
                let c = start.node(n as nat).segments().reverse();
                let len = start.node(n as nat).segments().len();
                assert(before.node(n as nat).segments() == start.node(n as nat).segments());
                assert(self.node(n as nat) == self.nodes@[n as int]);
                assert(purge_outcome(*release, c, k as nat, k + p, self.node(n as nat).segments()));
                assert(self.node(n as nat).segments().len() == k + (len - (k + p)));
                assert(k == warm_share(start, warm as nat, n as nat));
                assert(warm_before(start, warm as nat, (n + 1) as nat) == kept + k);
                assert forall|m: nat| m < NUMA_BUCKETS && m != n implies #[trigger] self.node(m)
                    == before.node(m) by {
                    assert(self.nodes@[m as int] == before.nodes@[m as int]);
                }
                lemma_purged_upto_frame(start, before, *self, n as nat);
                lemma_warm_before_bounded(start, warm as nat, (n + 1) as nat);
                assert forall|m: nat| m < n + 1 implies purge_outcome(
                    *release,
                    start.node(m).segments().reverse(),
                    warm_share(start, warm as nat, m),
                    warm_share(start, warm as nat, m) + start.node(m).segments().len()
                        - (#[trigger] self.node(m)).segments().len(),
                    self.node(m).segments(),
                ) by {
                    if m < n {
                        assert(self.node(m) == before.node(m));
                    }
                }
            }
            kept = kept + k;
            purged = match purged.checked_add(p) {
                Some(t) => t,
                None => usize::MAX,
            };
            n = n + 1;
        }
        let ghost swept = *self;
        let b = bucket_from_u32(numa_node);
        proof {
            assert(swept.node(b as nat) == swept.nodes@[b as int]);
        }
        self.nodes[b].record_purge(purged);
        proof {
            assert forall|m: nat| m < NUMA_BUCKETS && m != b implies #[trigger] self.node(m) == swept.node(m) by {
                assert(self.nodes@[m as int] == swept.nodes@[m as int]);
            }
            assert(self.node(b as nat) == self.nodes@[b as int]);
            assert forall|m: nat| m < NUMA_BUCKETS implies (#[trigger] self.node(m)).segments() == swept.node(m).segments() by {
                if m != b {
                    assert(self.node(m) == swept.node(m));
                }
            }
            lemma_purged_upto_frame(start, swept, *self, NUMA_BUCKETS as nat);
            assert forall|m: nat| m < NUMA_BUCKETS implies purge_outcome(
                *release,
                start.node(m).segments().reverse(),
                warm_share(start, warm as nat, m),
                warm_share(start, warm as nat, m) + start.node(m).segments().len()
                    - (#[trigger] self.node(m)).segments().len(),
                self.node(m).segments(),
            ) by {
                assert(self.node(m).segments() == swept.node(m).segments());
                assert(purge_outcome(
                    *release,
                    start.node(m).segments().reverse(),
                    warm_share(start, warm as nat, m),
                    warm_share(start, warm as nat, m) + start.node(m).segments().len()
                        - swept.node(m).segments().len(),
                    swept.node(m).segments(),
                ));
            }
        }
        purged
    }
}

/// `purged_upto` only reads the lengths of the nodes it sums.
proof fn lemma_purged_upto_frame(
    before: GlobalSegmentPool,
    a: GlobalSegmentPool,
    c: GlobalSegmentPool,
    n: nat,
)
    requires
        forall|m: nat| m < n ==> (#[trigger] a.node(m)).segments().len() == c.node(m).segments().len(),
    ensures
        purged_upto(before, a, n) == purged_upto(before, c, n),
    decreases n,
{
    if n > 0 {
        lemma_purged_upto_frame(before, a, c, (n - 1) as nat);
    }
}

} // verus!

verus! {

/// Sum of `count_true` over the first `n` outcome sequences, saturating.
pub open spec fn true_total(outcomes: Seq<Seq<bool>>, n: nat) -> nat
    decreases n,
{
    if n == 0 {
        0
    } else {
        sat_add(true_total(outcomes, (n - 1) as nat), count_true(outcomes[n - 1]))
    }
}

proof fn lemma_true_total_prefix(a: Seq<Seq<bool>>, b: Seq<Seq<bool>>, n: nat)
    requires
        n <= a.len(),
        n <= b.len(),
        forall|i: int| 0 <= i < n ==> a[i] == b[i],
    ensures
        true_total(a, n) == true_total(b, n),
    decreases n,
{
    if n > 0 {
        lemma_true_total_prefix(a, b, (n - 1) as nat);
    }
}

/// Drops the physical backing of every retained free segment without
/// taking it out of the pool: hands the user pages of each held segment
/// (see [`user_pages`]) to `reset`, node by node, and pushes each back, then
/// records one reset of the successful ones on the bucket of NUMA node
/// `numa_node`; returns that count (saturating). Without
/// `supports_page_reset` no segment is touched and a reset of zero is
/// recorded.
pub fn reset_segment_pool<F: Fn(usize, usize) -> bool>(
    pool: &mut GlobalSegmentPool,
    supports_page_reset: bool,
    page_size: usize,
    segment_size: usize,
    numa_node: u32,
    reset: &F,
) -> (count: usize)
    requires
        page_size <= segment_size,
        forall|start: usize, len: usize| reset.requires((start, len)),
    ensures
        !supports_page_reset ==> count == 0,
        forall|n: nat|
            n < NUMA_BUCKETS ==> (#[trigger] final(pool).node(n)).segments() == if supports_page_reset {
                old(pool).node(n).segments().reverse()
            } else {
                old(pool).node(n).segments()
            },
        supports_page_reset ==> exists|outcomes: Seq<Seq<bool>>|
            {
                &&& outcomes.len() == NUMA_BUCKETS
                &&& forall|n: int|
                    0 <= n < NUMA_BUCKETS ==> reset_outcomes(
                        *reset,
                        old(pool).node(n as nat).segments().reverse(),
                        #[trigger] outcomes[n],
                        page_size,
                        segment_size,
                    )
                &&& count == true_total(outcomes, NUMA_BUCKETS as nat)
            },
        forall|n: nat|
            n < NUMA_BUCKETS && n != spec_numa_bucket(numa_node as nat) ==> (
            #[trigger] final(pool).node(n)).same_counters(&old(pool).node(n)),
        final(pool).node(spec_numa_bucket(numa_node as nat)).spec_reset_calls() == wrap_add(
            old(pool).node(spec_numa_bucket(numa_node as nat)).spec_reset_calls(),
            1,
        ),
        final(pool).node(spec_numa_bucket(numa_node as nat)).spec_reset_segments() == wrap_add(
            old(pool).node(spec_numa_bucket(numa_node as nat)).spec_reset_segments(),
            count,
        ),
        final(pool).node(spec_numa_bucket(numa_node as nat)).spec_purged() == old(pool).node(
            spec_numa_bucket(numa_node as nat),
        ).spec_purged(),
        final(pool).node(spec_numa_bucket(numa_node as nat)).spec_purge_calls()
            == old(pool).node(spec_numa_bucket(numa_node as nat)).spec_purge_calls(),
        counter_total(*old(pool), PoolCounter::ResetCalls, NUMA_BUCKETS as nat) < usize::MAX
            ==> counter_total(*final(pool), PoolCounter::ResetCalls, NUMA_BUCKETS as nat)
            == counter_total(*old(pool), PoolCounter::ResetCalls, NUMA_BUCKETS as nat) + 1,
        counter_total(*old(pool), PoolCounter::ResetSegments, NUMA_BUCKETS as nat) + count
            <= usize::MAX ==> counter_total(
            *final(pool),
            PoolCounter::ResetSegments,
            NUMA_BUCKETS as nat,
        ) == counter_total(*old(pool), PoolCounter::ResetSegments, NUMA_BUCKETS as nat) + count,
{
    proof {
        use_type_invariant(&*pool);
    }
    let ghost start = *pool;
    let mut count: usize = 0;
    let ghost mut outcomes: Seq<Seq<bool>> = Seq::empty();
    if supports_page_reset {
        let mut n: usize = 0;
        while n < NUMA_BUCKETS
            invariant
                pool.nodes@.len() == NUMA_BUCKETS,
                n <= NUMA_BUCKETS,
                start == *old(pool),
                page_size <= segment_size,
                forall|start: usize, len: usize| reset.requires((start, len)),
                outcomes.len() == n,
                forall|m: int|
                    0 <= m < n ==> reset_outcomes(
                        *reset,
                        start.node(m as nat).segments().reverse(),
                        #[trigger] outcomes[m],
                        page_size,
                        segment_size,
                    ),
                count == true_total(outcomes, n as nat),
                forall|m: nat|
                    m < n ==> (#[trigger] pool.node(m)).segments() == start.node(
                        m,
                    ).segments().reverse(),
                forall|m: nat|
                    n <= m < NUMA_BUCKETS ==> (#[trigger] pool.node(m)).segments()
                        == start.node(m).segments(),
                forall|m: nat|
                    m < NUMA_BUCKETS ==> (#[trigger] pool.node(m)).same_counters(&start.node(m)),
            decreases NUMA_BUCKETS - n,
        {
            let ghost before = *pool;
            proof {
                assert(before.node(n as nat) == before.nodes@[n as int]);
            }
            let c = pool.nodes[n].reset_sweep(page_size, segment_size, reset);
            proof {
                assert(pool.node(n as nat) == pool.nodes@[n as int]);
                let o = choose|o: Seq<bool>|
                    reset_outcomes(*reset, before.node(n as nat).segments().reverse(), o, page_size, segment_size) && c
                        == count_true(o);
                lemma_true_total_prefix(outcomes, outcomes.push(o), n as nat);
                outcomes = outcomes.push(o);
                assert forall|m: nat| m < NUMA_BUCKETS && m != n implies #[trigger] pool.node(m)
                    == before.node(m) by {
                    assert(pool.nodes@[m as int] == before.nodes@[m as int]);
                }
            }
            count = match count.checked_add(c) {
                Some(t) => t,
                None => usize::MAX,
            };
            n = n + 1;
        }
    }
    let ghost swept = *pool;
    let b = bucket_from_u32(numa_node);
    proof {
        assert(swept.node(b as nat) == swept.nodes@[b as int]);
    }
    pool.nodes[b].record_reset(count);
    proof {
        assert forall|m: nat| m < NUMA_BUCKETS && m != b implies #[trigger] pool.node(m) == swept.node(m) by {
            assert(pool.nodes@[m as int] == swept.nodes@[m as int]);
        }
        assert(pool.node(b as nat) == pool.nodes@[b as int]);
        assert forall|m: nat| m < NUMA_BUCKETS implies (#[trigger] pool.node(m)).segments() == swept.node(m).segments() by {
            if m != b {
                assert(pool.node(m) == swept.node(m));
            }
        }
        let o = *old(pool);
        let f = *pool;
        lemma_counter_total_bounds(o, PoolCounter::ResetCalls, b as nat, NUMA_BUCKETS as nat);
        lemma_counter_total_bounds(o, PoolCounter::ResetSegments, b as nat, NUMA_BUCKETS as nat);
        if counter_total(o, PoolCounter::ResetCalls, NUMA_BUCKETS as nat) < usize::MAX {
            lemma_counter_total_bump(o, f, PoolCounter::ResetCalls, b as nat, 1, NUMA_BUCKETS as nat);
        }
        if counter_total(o, PoolCounter::ResetSegments, NUMA_BUCKETS as nat) + count <= usize::MAX {
            lemma_counter_total_bump(
                o,
                f,
                PoolCounter::ResetSegments,
                b as nat,
                count as nat,
                NUMA_BUCKETS as nat,
            );
        }
    }
    count
}

} // verus!

verus! {

/// A purge sweep loses no segment: the segments it released and those the
/// node holds afterwards are together exactly the segments it held before.
pub proof fn law_purge_conserves_segments<F: Fn(SegmentRef) -> SegmentRelease>(
    release: F,
    chain: Seq<SegmentRef>,
    w: nat,
    f: int,
    after: Seq<SegmentRef>,
)
    requires
        purge_outcome(release, chain, w, f, after),
    ensures
        after.to_multiset().add(chain.subrange(w as int, f).to_multiset()) == chain.to_multiset(),
        after.len() + (f - w) == chain.len(),
{
    let a = chain.subrange(0, w as int);
    let m = chain.subrange(w as int, f);
    let z = chain.subrange(f, chain.len() as int);
    assert(chain =~= a + m + z);
    vstd::seq_lib::lemma_multiset_commutative(a, m);
    vstd::seq_lib::lemma_multiset_commutative(a + m, z);
    vstd::seq_lib::lemma_multiset_commutative(a, z);
    assert(after =~= a + z);
    assert((a + m).to_multiset() == a.to_multiset().add(m.to_multiset()));
    assert(chain.to_multiset() == (a + m).to_multiset().add(z.to_multiset()));
    assert(after.to_multiset() == a.to_multiset().add(z.to_multiset()));
}

/// Segments held by node pools `0..k`, counted plainly.
pub open spec fn held_upto(pool: GlobalSegmentPool, k: nat) -> nat
    decreases k,
{
    if k == 0 {
        0
    } else {
        held_upto(pool, (k - 1) as nat) + pool.node((k - 1) as nat).segments().len()
    }
}

/// The retained-count total is the plain count while that fits a word.
proof fn lemma_retained_total_is_held(pool: GlobalSegmentPool, k: nat)
    requires
        held_upto(pool, k) <= usize::MAX,
    ensures
        counter_total(pool, PoolCounter::Retained, k) == held_upto(pool, k),
    decreases k,
{
    if k > 0 {
        lemma_retained_total_is_held(pool, (k - 1) as nat);
    }
}

/// A purge whose releases all succeed leaves in nodes `0..k` exactly the
/// warm share of each, which adds up to the budget's use so far.
proof fn lemma_warm_kept_upto<F: Fn(SegmentRef) -> SegmentRelease>(
    release: F,
    before: GlobalSegmentPool,
    after: GlobalSegmentPool,
    warm: nat,
    numa_node: u32,
    purged: usize,
    k: nat,
)
    requires
        k <= NUMA_BUCKETS,
        purged_with_warm(release, before, after, warm, numa_node, purged),
        forall|s: SegmentRef| !release.ensures((s,), SegmentRelease::RetainedAfterFailure),
    ensures
        held_upto(after, k) == warm_before(before, warm, k),
        warm_before(before, warm, k) == min_nat(warm, held_upto(before, k)),
    decreases k,
{
    if k > 0 {
        let n = (k - 1) as nat;
        lemma_warm_kept_upto(release, before, after, warm, numa_node, purged, n);
        let chain = before.node(n).segments().reverse();
        let w = warm_share(before, warm, n);
        let f = w + before.node(n).segments().len() - after.node(n).segments().len();
        assert(purge_outcome(release, chain, w, f, after.node(n).segments()));
        if f < chain.len() {
            assert(release.ensures((chain[f],), SegmentRelease::RetainedAfterFailure));
        }
        assert(after.node(n).segments().len() == w);
        assert(warm_before(before, warm, k) == warm_before(before, warm, n) + w);
    }
}

/// The warm budget of a purge is shared by all nodes: when every release
/// succeeds, the pool keeps exactly `min(warm, segments held before)`
/// segments in total, however they are spread over the nodes, and the
/// retained count reports that number.
pub proof fn law_purge_keeps_the_warm_budget_in_total<F: Fn(SegmentRef) -> SegmentRelease>(
    release: F,
    before: GlobalSegmentPool,
    after: GlobalSegmentPool,
    warm: nat,
    numa_node: u32,
    purged: usize,
)
    requires
        purged_with_warm(release, before, after, warm, numa_node, purged),
        forall|s: SegmentRef| !release.ensures((s,), SegmentRelease::RetainedAfterFailure),
    ensures
        held_upto(after, NUMA_BUCKETS as nat) == min_nat(warm, held_upto(before, NUMA_BUCKETS as nat)),
        held_upto(before, NUMA_BUCKETS as nat) <= usize::MAX ==> counter_total(
            after,
            PoolCounter::Retained,
            NUMA_BUCKETS as nat,
        ) == min_nat(warm, counter_total(before, PoolCounter::Retained, NUMA_BUCKETS as nat)),
{
    lemma_warm_kept_upto(release, before, after, warm, numa_node, purged, NUMA_BUCKETS as nat);
    if held_upto(before, NUMA_BUCKETS as nat) <= usize::MAX {
        lemma_retained_total_is_held(before, NUMA_BUCKETS as nat);
        lemma_retained_total_is_held(after, NUMA_BUCKETS as nat);
    }
}

/// A reset sweep keeps every segment: the node holds the same segments,
/// only in the opposite order.
pub proof fn law_reset_keeps_segments(before: Seq<SegmentRef>)
    ensures
        before.reverse().to_multiset() == before.to_multiset(),
        before.reverse().len() == before.len(),
{
    before.lemma_reverse_to_multiset();
}

/// A bounded push never takes a node above the retention cap: if the node
/// held at most `max_retained` segments, it still does afterwards.
pub proof fn law_retention_cap_holds(before: Seq<SegmentRef>, segment: SegmentRef, max_retained: nat)
    requires
        before.len() <= max_retained,
    ensures
        (if before.len() < max_retained {
            before.push(segment)
        } else {
            before
        }).len() <= max_retained,
{
}

} // verus!

verus! {

/// A segment taken for a thread, by what it holds.
#[derive(Clone, Copy, Debug, PartialEq, Eq, Structural)]
pub enum AcquiredSegment {
    /// An empty segment: one from the free pool or a fresh mapping.
    Free(SegmentRef),
    /// An orphaned segment, taken over with its live blocks as they are.
    Orphan(SegmentRef),
}

/// Takes a segment for a thread on NUMA node `numa_node` from the pools:
/// from the free pool when it holds one, else from the orphan pool; `None`
/// when both are empty, and then a fresh mapping is needed.
pub fn allocate_segment_from_pools(
    free: &mut GlobalSegmentPool,
    orphans: &mut GlobalSegmentPool,
    numa_node: u32,
) -> (r: Option<AcquiredSegment>)
    ensures
        steal_pick(*old(free), spec_numa_bucket(numa_node as nat), 0) is Some ==> *final(orphans)
            == *old(orphans),
        steal_pick(*old(free), spec_numa_bucket(numa_node as nat), 0) is None
            ==> final(free).same_nodes_except(old(free), NUMA_BUCKETS as nat),
        match steal_pick(*old(free), spec_numa_bucket(numa_node as nat), 0) {
            Some(n) => r == Some(AcquiredSegment::Free(old(free).node(n).segments().last()))
                && final(free).node(n).segments() == old(free).node(n).segments().drop_last()
                && final(free).node(n).same_counters(&old(free).node(n))
                && final(free).same_nodes_except(old(free), n),
            None => match steal_pick(*old(orphans), spec_numa_bucket(numa_node as nat), 0) {
                Some(n) => r == Some(AcquiredSegment::Orphan(old(orphans).node(n).segments().last()))
                    && final(orphans).node(n).segments() == old(orphans).node(n).segments().drop_last()
                    && final(orphans).node(n).same_counters(&old(orphans).node(n))
                    && final(orphans).same_nodes_except(old(orphans), n),
                None => r is None && final(orphans).same_nodes_except(
                    old(orphans),
                    NUMA_BUCKETS as nat,
                ),
            },
        },
{
    if let Some(s) = free.pop(numa_node) {
        return Some(AcquiredSegment::Free(s));
    }
    match orphans.pop(numa_node) {
        Some(s) => Some(AcquiredSegment::Orphan(s)),
        None => None,
    }
}

/// Gives a segment that no longer holds live blocks back: into its node's
/// pool when that holds fewer than `max_retained` segments (returns
/// `None`), otherwise to `release`, whose outcome is returned; a failed
/// release keeps the segment in the pool regardless of the cap.
pub fn deallocate_segment<F: Fn(SegmentRef) -> SegmentRelease>(
    pool: &mut GlobalSegmentPool,
    segment: SegmentRef,
    max_retained: usize,
    release: &F,
) -> (r: Option<SegmentRelease>)
    requires
        release.requires((segment,)),
    ensures
        ({
            let b = spec_numa_bucket(segment.numa_node as nat);
            &&& r is None <==> old(pool).node(b).segments().len() < max_retained
            &&& r matches Some(o) ==> release.ensures((segment,), o)
            &&& final(pool).node(b).segments() == if r == Some(SegmentRelease::Released) {
                old(pool).node(b).segments()
            } else {
                old(pool).node(b).segments().push(segment)
            }
            &&& final(pool).node(b).same_counters(&old(pool).node(b))
            &&& final(pool).same_nodes_except(old(pool), b)
        }),
{
    if pool.try_push_retained(segment, max_retained) {
        return None;
    }
    let outcome = release(segment);
    match outcome {
        SegmentRelease::Released => {},
        SegmentRelease::RetainedAfterFailure => {
            pool.push_unbounded(segment);
        },
    }
    Some(outcome)
}

} // verus!

verus! {

/// Asks the backend to release the `mapping_size`-byte mapping that holds
/// `segment`: `deallocate` gets the mapping's base and size, and its answer
/// is the outcome.
pub fn release_segment_mapping<F: Fn(usize, usize) -> bool>(
    segment: SegmentRef,
    mapping_size: usize,
    deallocate: &F,
) -> (r: SegmentRelease)
    requires
        deallocate.requires((segment.raw_alloc, mapping_size)),
    ensures
        deallocate.ensures((segment.raw_alloc, mapping_size), r == SegmentRelease::Released),
{
    if deallocate(segment.raw_alloc, mapping_size) {
        SegmentRelease::Released
    } else {
        SegmentRelease::RetainedAfterFailure
    }
}

/// Gives a segment back without ever keeping it past the retention cap:
/// into its node's pool when that holds fewer than `max_retained` segments,
/// otherwise to `release`. Returns whether the segment was taken, pooled or
/// released; on `false` the release failed, the pool is as it was and the
/// caller still owns the segment.
pub fn try_deallocate_segment<F: Fn(SegmentRef) -> SegmentRelease>(
    pool: &mut GlobalSegmentPool,
    segment: SegmentRef,
    max_retained: usize,
    release: &F,
) -> (taken: bool)
    requires
        release.requires((segment,)),
    ensures
        ({
            let b = spec_numa_bucket(segment.numa_node as nat);
            let fits = old(pool).node(b).segments().len() < max_retained;
            &&& final(pool).node(b).same_counters(&old(pool).node(b))
            &&& final(pool).same_nodes_except(old(pool), b)
            &&& fits ==> taken && final(pool).node(b).segments() == old(pool).node(b).segments().push(
                segment,
            )
            &&& !fits ==> final(pool).node(b).segments() == old(pool).node(b).segments()
                && release.ensures(
                (segment,),
                if taken {
                    SegmentRelease::Released
                } else {
                    SegmentRelease::RetainedAfterFailure
                },
            )
        }),
{
    if pool.try_push_retained(segment, max_retained) {
        return true;
    }
    match release(segment) {
        SegmentRelease::Released => true,
        SegmentRelease::RetainedAfterFailure => pool.try_push_retained(segment, max_retained),
    }
}

/// Every huge block of `blocks` was handed to `release_huge`.
pub open spec fn all_released<H: Fn(SegmentRef) -> bool>(
    release_huge: H,
    blocks: Seq<SegmentRef>,
) -> bool {
    forall|i: int|
        0 <= i < blocks.len() ==> release_huge.ensures((#[trigger] blocks[i],), true)
            || release_huge.ensures((blocks[i],), false)
}

/// Purges the segment pool and the huge-block cache: sweeps `pool` as
/// [`purged_with_warm`] describes, keeping up to `warm_threshold` segments
/// committed across all nodes and handing the rest to `release`, then
/// empties `huge`, handing each cached block to `release_huge` (whose
/// answer is not used). Returns the number of segments released.
pub fn purge_segment_pool_with_warm<
    F: Fn(SegmentRef) -> SegmentRelease,
    H: Fn(SegmentRef) -> bool,
>(
    pool: &mut GlobalSegmentPool,
    huge: &mut GlobalHugePool,
    warm_threshold: usize,
    numa_node: u32,
    release: &F,
    release_huge: &H,
) -> (purged: usize)
    requires
        old(huge).wf(),
        forall|s: SegmentRef| release.requires((s,)),
        forall|s: SegmentRef| release_huge.requires((s,)),
    ensures
        purged_with_warm(
            *release,
            *old(pool),
            *final(pool),
            warm_threshold as nat,
            numa_node,
            purged,
        ),
        final(huge).wf(),
        final(huge).spec_retained_blocks() == 0,
        final(huge).spec_retained_bytes() == 0,
        forall|n: nat, b: nat, k: HugeBucketBand|
            n < NUMA_BUCKETS && b < HUGE_SIZE_BUCKETS ==> #[trigger] final(huge).slot(n, b, k)
                == Seq::<SegmentRef>::empty(),
        all_released(*release_huge, old(huge).spec_chain()),
{
    let purged = pool.sweep_with_warm(warm_threshold, numa_node, release);
    let blocks = huge.purge();
    let mut i: usize = 0;
    while i < blocks.len()
        invariant
            i <= blocks@.len(),
            forall|s: SegmentRef| release_huge.requires((s,)),
            forall|j: int|
                0 <= j < i ==> release_huge.ensures((#[trigger] blocks@[j],), true)
                    || release_huge.ensures((blocks@[j],), false),
        decreases blocks@.len() - i,
    {
        let _released = release_huge(blocks[i]);
        i = i + 1;
    }
    proof {
        assert forall|j: int| 0 <= j < old(huge).spec_chain().len() implies release_huge.ensures(
            (#[trigger] old(huge).spec_chain()[j],),
            true,
        ) || release_huge.ensures((old(huge).spec_chain()[j],), false) by {
            assert(blocks@[j] == old(huge).spec_chain()[j]);
        }
    }
    purged
}

/// Purges the segment pool and the huge-block cache as
/// [`purge_segment_pool_with_warm`] does with no segment kept warm: every
/// held segment goes to `release` until a release fails on its node.
pub fn purge_segment_pool<F: Fn(SegmentRef) -> SegmentRelease, H: Fn(SegmentRef) -> bool>(
    pool: &mut GlobalSegmentPool,
    huge: &mut GlobalHugePool,
    numa_node: u32,
    release: &F,
    release_huge: &H,
) -> (purged: usize)
    requires
        old(huge).wf(),
        forall|s: SegmentRef| release.requires((s,)),
        forall|s: SegmentRef| release_huge.requires((s,)),
    ensures
        purged_with_warm(*release, *old(pool), *final(pool), 0, numa_node, purged),
        final(huge).wf(),
        final(huge).spec_retained_blocks() == 0,
        final(huge).spec_retained_bytes() == 0,
        forall|n: nat, b: nat, k: HugeBucketBand|
            n < NUMA_BUCKETS && b < HUGE_SIZE_BUCKETS ==> #[trigger] final(huge).slot(n, b, k)
                == Seq::<SegmentRef>::empty(),
        all_released(*release_huge, old(huge).spec_chain()),
{
    purge_segment_pool_with_warm(pool, huge, 0, numa_node, release, release_huge)
}

} // verus!

verus! {

/// The three pools one memory backend owns: free segments, orphaned
/// segments and cached huge blocks.
pub struct BackendPools {
    /// Free segments kept for reuse.
    pub segment: GlobalSegmentPool,
    /// Segments whose owning thread exited while blocks were still live.
    pub orphan: GlobalSegmentPool,
    /// Cached huge blocks.
    pub huge: GlobalHugePool,
}

impl BackendPools {
    /// Creates a bundle of three empty pools.
    pub fn new() -> (p: Self)
        ensures
            forall|n: nat|
                n < NUMA_BUCKETS ==> (#[trigger] p.segment.node(n)).segments() == Seq::<
                    SegmentRef,
                >::empty() && p.segment.node(n).spec_purged() == 0
                    && p.segment.node(n).spec_purge_calls() == 0
                    && p.segment.node(n).spec_reset_segments() == 0
                    && p.segment.node(n).spec_reset_calls() == 0,
            forall|n: nat|
                n < NUMA_BUCKETS ==> (#[trigger] p.orphan.node(n)).segments() == Seq::<
                    SegmentRef,
                >::empty() && p.orphan.node(n).spec_purged() == 0
                    && p.orphan.node(n).spec_purge_calls() == 0
                    && p.orphan.node(n).spec_reset_segments() == 0
                    && p.orphan.node(n).spec_reset_calls() == 0,
            forall|n: nat, b: nat, k: HugeBucketBand|
                n < NUMA_BUCKETS && b < HUGE_SIZE_BUCKETS ==> #[trigger] p.huge.slot(n, b, k)
                    == Seq::<SegmentRef>::empty(),
            p.huge.wf(),
            p.huge.spec_retained_blocks() == 0,
            p.huge.spec_retained_bytes() == 0,
    {
        BackendPools {
            segment: GlobalSegmentPool::new(),
            orphan: GlobalSegmentPool::new(),
            huge: GlobalHugePool::new(),
        }
    }
}

} // verus!
