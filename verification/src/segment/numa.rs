//! NUMA node buckets: which per-node sub-pool a node uses, and the order in
//! which a miss on the local node visits the others.

use vstd::prelude::*;

verus! {

/// Number of per-node sub-pools every NUMA-aware pool keeps.
pub const NUMA_BUCKETS: usize = 16;

/// Sub-pool that NUMA node `node` maps to: nodes wrap around the buckets.
pub open spec fn spec_numa_bucket(node: nat) -> nat {
    node % (NUMA_BUCKETS as nat)
}

/// Sub-pool index for NUMA node `node`.
pub fn bucket_from_u32(node: u32) -> (b: usize)
    ensures
        b == spec_numa_bucket(node as nat),
        b < NUMA_BUCKETS,
{
    (node % 16) as usize
}

/// Sub-pool index for a NUMA node given as a machine word; the node must be a
/// 32-bit node identifier.
pub fn bucket_from_usize(node: usize) -> (b: usize)
    requires
        node <= u32::MAX,
    ensures
        b == spec_numa_bucket(node as nat),
        b < NUMA_BUCKETS,
{
    bucket_from_u32(node as u32)
}

/// The `offset`-th bucket visited from `start`: the start bucket itself at
/// offset 0, then its successors with wrap-around.
pub open spec fn visit_bucket(start: nat, offset: nat) -> nat {
    (start + offset) % (NUMA_BUCKETS as nat)
}

/// `pop_from_node` gave nothing for the buckets visited from `start` at
/// offsets `1..k`.
pub open spec fn declined_before<T, F: FnMut(usize) -> Option<T>>(
    pop_from_node: F,
    start: nat,
    k: nat,
) -> bool {
    forall|j: nat|
        1 <= j < k ==> pop_from_node.ensures(
            (#[trigger] visit_bucket(start, j) as usize,),
            None::<T>,
        )
}

/// Asks `pop_from_node` for a value from every bucket but the one NUMA node
/// `start_node` maps to, in wrap-around order after it, and returns the
/// first value given; `None` when every bucket gave nothing.
pub fn steal_from<T, F: FnMut(usize) -> Option<T>>(start_node: usize, pop_from_node: F) -> (r:
    Option<T>)
    requires
        forall|n: usize| pop_from_node.requires((n,)),
    ensures
        ({
            let start = (start_node % NUMA_BUCKETS) as nat;
            match r {
                Some(v) => exists|k: nat|
                    1 <= k < NUMA_BUCKETS && declined_before(pop_from_node, start, k)
                        && pop_from_node.ensures(
                        (#[trigger] visit_bucket(start, k) as usize,),
                        Some(v),
                    ),
                None => declined_before(pop_from_node, start, NUMA_BUCKETS as nat),
            }
        }),
{
    let ghost f0 = pop_from_node;
    let mut pop_from_node = pop_from_node;
    let start = start_node % NUMA_BUCKETS;
    let ghost st = start as nat;
    let mut offset: usize = 1;
    let mut found: Option<T> = None;
    let ghost mut hit: nat = 0;
    while offset < NUMA_BUCKETS
        invariant_except_break
            found is None,
        invariant
            pop_from_node == f0,
            forall|n: usize| f0.requires((n,)),
            1 <= offset <= NUMA_BUCKETS,
            start < NUMA_BUCKETS,
            st == start,
            declined_before(f0, st, offset as nat),
        ensures
            match found {
                Some(v) => 1 <= hit < NUMA_BUCKETS && declined_before(f0, st, hit) && f0.ensures(
                    (visit_bucket(st, hit) as usize,),
                    Some(v),
                ),
                None => offset == NUMA_BUCKETS,
            },
        decreases NUMA_BUCKETS - offset,
    {
        let node = (start + offset) % NUMA_BUCKETS;
        proof {
            assert(node == visit_bucket(st, offset as nat));
        }
        let popped = pop_from_node(node);
        match popped {
            Some(v) => {
                proof {
                    hit = offset as nat;
                }
                found = Some(v);
                break;
            },
            None => {
                proof {
                    assert forall|j: nat| 1 <= j < offset + 1 implies f0.ensures(
                        (#[trigger] visit_bucket(st, j) as usize,),
                        None::<T>,
                    ) by {
                        if j < offset {
                            assert(declined_before(f0, st, offset as nat));
                        }
                    }
                }
                offset = offset + 1;
            },
        }
    }
    found
}

/// A steal visits every bucket exactly once over the offsets
/// `0..NUMA_BUCKETS`: distinct offsets reach distinct buckets.
pub proof fn law_visit_order_is_a_permutation(start: nat, a: nat, b: nat)
    requires
        start < NUMA_BUCKETS,
        a < NUMA_BUCKETS,
        b < NUMA_BUCKETS,
        a != b,
    ensures
        visit_bucket(start, a) != visit_bucket(start, b),
        visit_bucket(start, a) < NUMA_BUCKETS,
{
}

} // verus!

verus! {

/// Node mask selecting NUMA node `numa_node` in a 64-bit mask: the node
/// number wraps modulo 64, as a wrapping shift does.
pub fn numa_nodemask(numa_node: u32) -> (mask: u64)
    ensures
        mask == 1u64 << (numa_node % 64),
{
    1u64 << (numa_node % 64)
}

} // verus!
