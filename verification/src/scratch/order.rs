//! Searching and sorting the elements of an [`AlignedVec`] by their order.

use crate::scratch::aligned_vec::{
    AlignedVec, elem_at, elem_before, key_is_function, lemma_elem_next,
};
use crate::scratch::element::ScratchElement;
use core::cmp::Ordering;
use vstd::prelude::*;
use vstd::laws_cmp::obeys_cmp;
use vstd::std_specs::cmp::OrdSpec;

verus! {

/// Every element of `s` is at most every later one.
pub open spec fn sorted_by_order<T: Ord>(s: Seq<T>) -> bool {
    forall|i: int, j: int|
        0 <= i < j < s.len() ==> #[trigger] s[i].cmp_spec(&s[j]) != Ordering::Greater
}

/// Sorts `s` ascending with `<[T]>::sort_unstable`.
///
/// Trusted: the standard library documents that the call permutes the
/// slice into ascending order when `T`'s ordering is a total order (here:
/// when `T` obeys vstd's ordering laws), and that it may panic otherwise,
/// which `requires` rules out.
#[verifier::external_body]
fn slice_sort_unstable<T: Ord>(s: &mut [T])
    requires
        obeys_cmp::<T>(),
    ensures
        final(s)@.to_multiset() == old(s)@.to_multiset(),
        sorted_by_order(final(s)@),
{
    s.sort_unstable();
}

/// `compare` orders the values of `T` totally: it gives one answer for a
/// pair, the opposite answer for the swapped pair, and its answers below
/// `Greater` chain.
pub open spec fn comparator_is_total<T, F: FnMut(&T, &T) -> Ordering>(compare: F) -> bool {
    &&& forall|a: T, b: T, o1: Ordering, o2: Ordering|
        #![trigger compare.ensures((&a, &b), o1), compare.ensures((&a, &b), o2)]
        compare.ensures((&a, &b), o1) && compare.ensures((&a, &b), o2) ==> o1 == o2
    &&& forall|a: T, b: T, o1: Ordering, o2: Ordering|
        #![trigger compare.ensures((&a, &b), o1), compare.ensures((&b, &a), o2)]
        compare.ensures((&a, &b), o1) && compare.ensures((&b, &a), o2) ==> {
            &&& (o1 == Ordering::Less <==> o2 == Ordering::Greater)
            &&& (o1 == Ordering::Equal <==> o2 == Ordering::Equal)
        }
    &&& forall|a: T, b: T, c: T, o1: Ordering, o2: Ordering, o3: Ordering|
        #![trigger compare.ensures((&a, &b), o1), compare.ensures((&b, &c), o2), compare.ensures((&a, &c), o3)]
        compare.ensures((&a, &b), o1) && compare.ensures((&b, &c), o2) && compare.ensures(
            (&a, &c),
            o3,
        ) && o1 != Ordering::Greater && o2 != Ordering::Greater ==> o3 != Ordering::Greater
}

/// `compare` puts no element of `s` after a later one.
pub open spec fn sorted_by_comparator<T, F: FnMut(&T, &T) -> Ordering>(s: Seq<T>, compare: F) -> bool {
    forall|i: int, j: int, o: Ordering|
        0 <= i < j < s.len() && #[trigger] compare.ensures((&s[i], &s[j]), o) ==> o
            != Ordering::Greater
}

/// The keys `key` gives the elements of `s` ascend.
pub open spec fn sorted_by_key_order<T, K: Ord, F: FnMut(&T) -> K>(s: Seq<T>, key: F) -> bool {
    forall|i: int, j: int, ki: K, kj: K|
        #![trigger key.ensures((&s[i],), ki), key.ensures((&s[j],), kj)]
        0 <= i < j < s.len() && key.ensures((&s[i],), ki) && key.ensures((&s[j],), kj)
            ==> ki.cmp_spec(&kj) != Ordering::Greater
}

/// Sorts `s` with `<[T]>::sort_unstable_by` and the comparator `compare`.
///
/// Trusted: the standard library documents that the call permutes the
/// slice so that `compare` finds it ordered when `compare` is a total
/// order, and that it may panic otherwise, which `requires` rules out.
#[verifier::external_body]
fn slice_sort_unstable_by<T, F: FnMut(&T, &T) -> Ordering>(s: &mut [T], compare: F)
    requires
        forall|a: &T, b: &T| compare.requires((a, b)),
        comparator_is_total(compare),
    ensures
        final(s)@.to_multiset() == old(s)@.to_multiset(),
        sorted_by_comparator(final(s)@, compare),
{
    s.sort_unstable_by(compare);
}

/// Sorts `s` with `<[T]>::sort_unstable_by_key` and the key function `key`.
///
/// Trusted: the standard library documents that the call permutes the
/// slice so that the keys ascend, for a key type whose ordering is total
/// (here: one that obeys vstd's ordering laws), and that it may panic when
/// the comparisons it makes disagree, which a key function that gives one
/// key per element rules out.
#[verifier::external_body]
fn slice_sort_unstable_by_key<T, K: Ord, F: FnMut(&T) -> K>(s: &mut [T], key: F)
    requires
        obeys_cmp::<K>(),
        forall|x: &T| key.requires((x,)),
        key_is_function(key),
    ensures
        final(s)@.to_multiset() == old(s)@.to_multiset(),
        sorted_by_key_order(final(s)@, key),
{
    s.sort_unstable_by_key(key);
}

impl<T: ScratchElement> AlignedVec<T> {
    /// Sorts the held elements with the comparator `compare`, which must be
    /// a total order; elements it finds equal may be reordered.
    pub fn sort_unstable_by<F: FnMut(&T, &T) -> Ordering>(&mut self, compare: F)
        requires
            forall|a: &T, b: &T| compare.requires((a, b)),
            comparator_is_total(compare),
        ensures
            final(self)@.to_multiset() == old(self)@.to_multiset(),
            sorted_by_comparator(final(self)@, compare),
            final(self).spec_capacity() == old(self).spec_capacity(),
    {
        let s = self.as_mut_slice();
        slice_sort_unstable_by(s, compare);
    }

    /// Sorts the held elements by the keys `key` gives them, ascending;
    /// elements with equal keys may be reordered.
    pub fn sort_unstable_by_key<K: Ord, F: FnMut(&T) -> K>(&mut self, key: F)
        requires
            obeys_cmp::<K>(),
            forall|x: &T| key.requires((x,)),
            key_is_function(key),
        ensures
            final(self)@.to_multiset() == old(self)@.to_multiset(),
            sorted_by_key_order(final(self)@, key),
            final(self).spec_capacity() == old(self).spec_capacity(),
    {
        let s = self.as_mut_slice();
        slice_sort_unstable_by_key(s, key);
    }

    /// Sorts the held elements ascending; equal elements may be reordered.
    pub fn sort_unstable_inplace(&mut self)
        where
            T: Ord,
        requires
            obeys_cmp::<T>(),
        ensures
            final(self)@.to_multiset() == old(self)@.to_multiset(),
            sorted_by_order(final(self)@),
            final(self).spec_capacity() == old(self).spec_capacity(),
    {
        let s = self.as_mut_slice();
        slice_sort_unstable(s);
    }

    /// Binary search for `value`: `Ok(i)` for a position holding an element
    /// equal to it, else `Err(i)` for the position between an element below
    /// it and one above it. On sorted elements `Err(i)` means that no element
    /// equals `value` and `i` is where it can be inserted keeping the order.
    pub fn binary_search(&self, value: &T) -> (r: Result<usize, usize>)
        where
            T: Ord,
        ensures
            T::obeys_cmp_spec() ==> match r {
                Ok(i) => i < self@.len() && elem_at(self@, i).cmp_spec(value) == Ordering::Equal,
                Err(i) => i <= self@.len() && (i > 0 ==> elem_before(self@, i).cmp_spec(value)
                    == Ordering::Less) && (i < self@.len() ==> elem_at(self@, i).cmp_spec(value)
                    == Ordering::Greater),
            },
    {
        let s = self.as_slice();
        let mut lo: usize = 0;
        let mut hi: usize = s.len();
        while lo < hi
            invariant
                lo <= hi <= s@.len(),
                s@ == self@,
                T::obeys_cmp_spec() ==> (lo > 0 ==> elem_before(s@, lo).cmp_spec(value)
                    == Ordering::Less),
                T::obeys_cmp_spec() ==> (hi < s@.len() ==> elem_at(s@, hi).cmp_spec(value)
                    == Ordering::Greater),
            decreases hi - lo,
        {
            let mid = lo + (hi - lo) / 2;
            match s[mid].cmp(value) {
                Ordering::Less => {
                    lo = mid + 1;
                    proof {
                        lemma_elem_next(s@, mid, lo);
                    }
                },
                Ordering::Greater => {
                    hi = mid;
                },
                Ordering::Equal => {
                    return Ok(mid);
                },
            }
        }
        Err(lo)
    }

    /// Binary search with a probe `f` that tells, for an element, whether
    /// it lies below (`Less`), at (`Equal`) or above (`Greater`) the target.
    pub fn binary_search_by<F: FnMut(&T) -> Ordering>(&self, f: F) -> (r: Result<usize, usize>)
        requires
            forall|x: &T| f.requires((x,)),
        ensures
            match r {
                Ok(i) => i < self@.len() && f.ensures((&elem_at(self@, i),), Ordering::Equal),
                Err(i) => i <= self@.len() && (i > 0 ==> f.ensures(
                    (&elem_before(self@, i),),
                    Ordering::Less,
                )) && (i < self@.len() ==> f.ensures((&elem_at(self@, i),), Ordering::Greater)),
            },
    {
        let ghost f0 = f;
        let mut f = f;
        let s = self.as_slice();
        let mut lo: usize = 0;
        let mut hi: usize = s.len();
        let mut found: Option<usize> = None;
        while lo < hi
            invariant_except_break
                found is None,
            invariant
                f == f0,
                forall|x: &T| f0.requires((x,)),
                lo <= hi <= s@.len(),
                s@ == self@,
                lo > 0 ==> f0.ensures((&elem_before(s@, lo),), Ordering::Less),
                hi < s@.len() ==> f0.ensures((&elem_at(s@, hi),), Ordering::Greater),
            ensures
                match found {
                    Some(i) => i < s@.len() && f0.ensures((&elem_at(s@, i),), Ordering::Equal),
                    None => lo == hi,
                },
            decreases hi - lo,
        {
            let mid = lo + (hi - lo) / 2;
            let o = f(&s[mid]);
            match o {
                Ordering::Less => {
                    lo = mid + 1;
                    proof {
                        lemma_elem_next(s@, mid, lo);
                    }
                },
                Ordering::Greater => {
                    hi = mid;
                },
                Ordering::Equal => {
                    found = Some(mid);
                    break;
                },
            }
        }
        match found {
            Some(i) => Ok(i),
            None => Err(lo),
        }
    }

    /// Binary search for the key `b` among the keys `f` gives the elements.
    pub fn binary_search_by_key<K: Ord, F: FnMut(&T) -> K>(&self, b: &K, f: F) -> (r: Result<
        usize,
        usize,
    >)
        requires
            forall|x: &T| f.requires((x,)),
        ensures
            K::obeys_cmp_spec() ==> match r {
                Ok(i) => i < self@.len() && exists|k: K|
                    #[trigger] f.ensures((&elem_at(self@, i),), k) && k.cmp_spec(b) == Ordering::Equal,
                Err(i) => i <= self@.len() && (i > 0 ==> exists|k: K|
                    #[trigger] f.ensures((&elem_before(self@, i),), k) && k.cmp_spec(b)
                        == Ordering::Less) && (i < self@.len() ==> exists|k: K|
                    #[trigger] f.ensures((&elem_at(self@, i),), k) && k.cmp_spec(b)
                        == Ordering::Greater),
            },
    {
        let ghost f0 = f;
        let mut f = f;
        let s = self.as_slice();
        let mut lo: usize = 0;
        let mut hi: usize = s.len();
        let mut found: Option<usize> = None;
        let ghost mut witness: Option<K> = None;
        while lo < hi
            invariant_except_break
                found is None,
            invariant
                f == f0,
                forall|x: &T| f0.requires((x,)),
                lo <= hi <= s@.len(),
                s@ == self@,
                K::obeys_cmp_spec() ==> (lo > 0 ==> exists|k: K|
                    #[trigger] f0.ensures((&elem_before(s@, lo),), k) && k.cmp_spec(b)
                        == Ordering::Less),
                K::obeys_cmp_spec() ==> (hi < s@.len() ==> exists|k: K|
                    #[trigger] f0.ensures((&elem_at(s@, hi),), k) && k.cmp_spec(b)
                        == Ordering::Greater),
            ensures
                match found {
                    Some(i) => i < s@.len() && witness is Some && f0.ensures(
                        (&elem_at(s@, i),),
                        witness->0,
                    ) && (K::obeys_cmp_spec() ==> witness->0.cmp_spec(b) == Ordering::Equal),
                    None => lo == hi,
                },
            decreases hi - lo,
        {
            let mid = lo + (hi - lo) / 2;
            let key = f(&s[mid]);
            let o = key.cmp(b);
            proof {
                assert(f0.ensures((&elem_at(s@, mid),), key));
            }
            match o {
                Ordering::Less => {
                    lo = mid + 1;
                    proof {
                        lemma_elem_next(s@, mid, lo);
                    }
                },
                Ordering::Greater => {
                    hi = mid;
                },
                Ordering::Equal => {
                    proof {
                        witness = Some(key);
                        assert(K::obeys_cmp_spec() ==> key.cmp_spec(b) == Ordering::Equal);
                    }
                    found = Some(mid);
                    break;
                },
            }
        }
        proof {
            if found is Some && K::obeys_cmp_spec() {
                assert(f0.ensures((&elem_at(s@, found->0),), witness->0));
            }
        }
        match found {
            Some(i) => Ok(i),
            None => Err(lo),
        }
    }
}

} // verus!

