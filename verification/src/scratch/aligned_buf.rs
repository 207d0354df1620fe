//! Fixed-capacity inline scratch buffer: up to `N` elements stored in the
//! struct itself, with no heap allocation.

use crate::scratch::element::{ScratchElement, is_fresh};
use vstd::prelude::*;
use vstd::std_specs::cmp::PartialEqSpec;

verus! {

/// Address of the first slot of `a`.
///
/// Trusted: calls `<[T; N]>::as_ptr` and converts the pointer to an
/// address. The claim is only what std guarantees of a reference and of the
/// pointer taken from it: non-null and aligned for `T`. Where `a` sits
/// beyond that is not claimed.
#[verifier::external_body]
fn array_address<T, const N: usize>(a: &[T; N]) -> (addr: usize)
    ensures
        addr != 0,
        addr as nat % vstd::layout::align_of::<T>() == 0,
{
    a.as_ptr() as usize
}

/// Mutable view of the first `len` slots of `a`.
///
/// Trusted: indexes `a` by the range `..len` (`IndexMut` on arrays), which
/// the standard library documents as the subslice of those slots, writes
/// through which land in `a`; the index is in bounds, so it does not
/// panic.
#[verifier::external_body]
fn array_prefix_mut<T, const N: usize>(a: &mut [T; N], len: usize) -> (s: &mut [T])
    requires
        len <= N,
    ensures
        s@ == old(a)@.subrange(0, len as int),
        final(s)@.len() == len,
        final(a)@ == final(s)@ + old(a)@.subrange(len as int, N as int),
    no_unwind
{
    &mut a[..len]
}

/// A buffer holding up to `N` elements inline, with no heap allocation.
///
/// The abstract view is the sequence of held elements, at most `N` long.
#[derive(Copy, Debug)]
pub struct AlignedBuf<T: ScratchElement, const N: usize> {
    data: [T; N],
    len: usize,
}

impl<T: ScratchElement, const N: usize> View for AlignedBuf<T, N> {
    type V = Seq<T>;

    closed spec fn view(&self) -> Seq<T> {
        self.data@.subrange(0, self.len as int)
    }
}

impl<T: ScratchElement, const N: usize> AlignedBuf<T, N> {
    /// The length never exceeds the inline capacity.
    #[verifier::type_invariant]
    spec fn inv(self) -> bool {
        self.len <= N
    }

    /// Creates an empty buffer.
    pub fn new() -> (b: Self)
        ensures
            b@ == Seq::<T>::empty(),
    {
        let b = AlignedBuf { data: [T::default(); N], len: 0 };
        assert(b@ =~= Seq::<T>::empty());
        b
    }

    /// Creates a full buffer holding `N` copies of `value`.
    pub fn filled(value: T) -> (b: Self)
        ensures
            b@ == Seq::new(N as nat, |i: int| value),
    {
        let b = AlignedBuf { data: [value; N], len: N };
        assert(b@ =~= Seq::new(N as nat, |i: int| value));
        b
    }

    /// Creates a full buffer holding the elements of `arr`.
    pub fn from_array(arr: [T; N]) -> (b: Self)
        ensures
            b@ == arr@,
    {
        let b = AlignedBuf { data: arr, len: N };
        assert(b@ =~= arr@);
        b
    }

    /// Creates a buffer holding the first `min(slice.len(), N)` elements of
    /// `slice`; the rest are left out.
    pub fn from_slice_truncating(slice: &[T]) -> (b: Self)
        ensures
            b@ == slice@.subrange(0, if slice@.len() <= N { slice@.len() as int } else { N as int }),
    {
        let n = if slice.len() <= N {
            slice.len()
        } else {
            N
        };
        let mut data = [T::default(); N];
        let mut i: usize = 0;
        while i < n
            invariant
                i <= n <= N,
                n <= slice@.len(),
                data@.len() == N,
                forall|j: int| 0 <= j < i ==> #[trigger] data@[j] == slice@[j],
            decreases n - i,
        {
            data[i] = slice[i];
            i = i + 1;
        }
        let b = AlignedBuf { data, len: n };
        assert(b@ =~= slice@.subrange(0, n as int));
        b
    }

    /// Maximum number of elements: always `N`.
    pub fn capacity(&self) -> (n: usize)
        ensures
            n == N,
    {
        N
    }

    /// Number of held elements.
    pub fn len(&self) -> (n: usize)
        ensures
            n == self@.len(),
    {
        proof {
            use_type_invariant(self);
        }
        self.len
    }

    /// Whether no element is held.
    pub fn is_empty(&self) -> (b: bool)
        ensures
            b == (self@.len() == 0),
    {
        proof {
            use_type_invariant(self);
        }
        self.len == 0
    }

    /// Whether all `N` slots are held, so no push fits.
    pub fn is_full(&self) -> (b: bool)
        ensures
            b == (self@.len() == N),
    {
        proof {
            use_type_invariant(self);
        }
        self.len == N
    }

    /// Number of free slots.
    pub fn remaining(&self) -> (n: usize)
        ensures
            n == N - self@.len(),
    {
        proof {
            use_type_invariant(self);
        }
        N - self.len
    }

    /// Appends `value`; the buffer must not be full.
    pub fn push(&mut self, value: T)
        requires
            old(self)@.len() < N,
        ensures
            final(self)@ == old(self)@.push(value),
    {
        proof {
            use_type_invariant(&*self);
        }
        let pushed = self.try_push(value);
        assert(pushed);
    }

    /// Appends `value` when a slot is free and returns whether it did; a
    /// full buffer is left unchanged.
    pub fn try_push(&mut self, value: T) -> (pushed: bool)
        ensures
            pushed == (old(self)@.len() < N),
            pushed ==> final(self)@ == old(self)@.push(value),
            !pushed ==> final(self)@ == old(self)@,
    {
        proof {
            use_type_invariant(&*self);
        }
        if self.len < N {
            let n = self.len;
            self.data[n] = value;
            self.len = n + 1;
            assert(self@ =~= old(self)@.push(value));
            true
        } else {
            false
        }
    }

    /// Removes and returns the last element, or `None` when empty.
    pub fn pop(&mut self) -> (r: Option<T>)
        ensures
            old(self)@.len() == 0 ==> r is None && final(self)@ == old(self)@,
            old(self)@.len() > 0 ==> r == Some(old(self)@.last()) && final(self)@ == old(
                self)@.drop_last(),
    {
        proof {
            use_type_invariant(&*self);
        }
        if self.len == 0 {
            return None;
        }
        let n = self.len - 1;
        self.len = n;
        assert(self@ =~= old(self)@.drop_last());
        Some(self.data[n])
    }

    /// Removes every element.
    pub fn clear(&mut self)
        ensures
            final(self)@ == Seq::<T>::empty(),
    {
        self.len = 0;
        assert(self@ =~= Seq::<T>::empty());
    }

    /// Shortens to `new_len` elements; no-op when `new_len` is not below the
    /// length.
    pub fn truncate(&mut self, new_len: usize)
        ensures
            new_len < old(self)@.len() ==> final(self)@ == old(self)@.subrange(0, new_len as int),
            new_len >= old(self)@.len() ==> final(self)@ == old(self)@,
    {
        proof {
            use_type_invariant(&*self);
        }
        if new_len < self.len {
            self.len = new_len;
            assert(self@ =~= old(self)@.subrange(0, new_len as int));
        }
    }

    /// Resets every held element to the fresh default value; the length is
    /// unchanged.
    pub fn zero_fill(&mut self)
        ensures
            final(self)@.len() == old(self)@.len(),
            forall|i: int| 0 <= i < old(self)@.len() ==> is_fresh(#[trigger] final(self)@[i]),
    {
        proof {
            use_type_invariant(&*self);
        }
        let len = self.len;
        let mut i: usize = 0;
        while i < len
            invariant
                i <= len <= N,
                len == self.len,
                self.data@.len() == N,
                forall|j: int| 0 <= j < i ==> is_fresh(#[trigger] self.data@[j]),
            decreases len - i,
        {
            self.data[i] = T::default();
            i = i + 1;
        }
    }

    /// The held elements as a slice.
    pub fn as_slice(&self) -> (s: &[T])
        ensures
            s@ == self@,
    {
        proof {
            use_type_invariant(self);
        }
        let all = self.data.as_slice();
        &all[0..self.len]
    }

    /// The held elements as a mutable slice; writes through it update them.
    pub fn as_mut_slice(&mut self) -> (s: &mut [T])
        ensures
            s@ == old(self)@,
            final(self)@ == final(s)@,
    {
        proof {
            use_type_invariant(&*self);
        }
        let len = self.len;
        let s = array_prefix_mut(&mut self.data, len);
        proof {
            assert((final(s)@ + old(self).data@.subrange(len as int, N as int)).subrange(
                0,
                len as int,
            ) =~= final(s)@);
        }
        s
    }

    /// Address of the first slot: non-null and aligned for `T`.
    pub fn as_ptr(&self) -> (p: usize)
        ensures
            p != 0,
            p as nat % vstd::layout::align_of::<T>() == 0,
    {
        array_address(&self.data)
    }

    /// Address of the first slot, as [`Self::as_ptr`]; the buffer is left
    /// as it is.
    pub fn as_mut_ptr(&mut self) -> (p: usize)
        ensures
            p != 0,
            p as nat % vstd::layout::align_of::<T>() == 0,
            *final(self) == *old(self),
    {
        array_address(&self.data)
    }

    /// The held elements as an array; the buffer must be full.
    pub fn into_array(self) -> (arr: [T; N])
        requires
            self@.len() == N,
        ensures
            arr@ == self@,
    {
        proof {
            use_type_invariant(&self);
            assert(self.data@.subrange(0, N as int) =~= self.data@);
        }
        self.data
    }
}

impl<T: ScratchElement, const N: usize> Clone for AlignedBuf<T, N> {
    fn clone(&self) -> (c: Self)
        ensures
            c == *self,
    {
        *self
    }
}

impl<T: ScratchElement, const N: usize> Default for AlignedBuf<T, N> {
    fn default() -> (b: Self)
        ensures
            b@ == Seq::<T>::empty(),
    {
        Self::new()
    }
}

impl<T: ScratchElement, const N: usize> core::ops::Deref for AlignedBuf<T, N> {
    type Target = [T];

    fn deref(&self) -> (s: &[T])
        ensures
            s@ == self@,
    {
        self.as_slice()
    }
}

impl<T: ScratchElement + PartialEq, const N: usize> PartialEq for AlignedBuf<T, N> {
    fn eq(&self, other: &Self) -> (r: bool) {
        let a = self.as_slice();
        let b = other.as_slice();
        if a.len() != b.len() {
            return false;
        }
        let mut i: usize = 0;
        while i < a.len()
            invariant
                i <= a@.len(),
                a@.len() == b@.len(),
                a@ == self@,
                b@ == other@,
                T::obeys_eq_spec() ==> forall|j: int| 0 <= j < i ==> #[trigger] a@[j].eq_spec(&b@[j]),
            decreases a@.len() - i,
        {
            if !(a[i] == b[i]) {
                return false;
            }
            i = i + 1;
        }
        true
    }
}

impl<T: ScratchElement + PartialEq, const N: usize> vstd::std_specs::cmp::PartialEqSpecImpl for AlignedBuf<T, N> {
    open spec fn obeys_eq_spec() -> bool {
        T::obeys_eq_spec()
    }

    open spec fn eq_spec(&self, other: &Self) -> bool {
        &&& self@.len() == other@.len()
        &&& forall|i: int| 0 <= i < self@.len() ==> #[trigger] self@[i].eq_spec(&other@[i])
    }
}

} // verus!
