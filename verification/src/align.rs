//! Alignment arithmetic shared by segment and large-allocation layout.

use vstd::prelude::*;

verus! {

/// `align` is a power of two that fits in a machine word.
pub open spec fn is_pow2(align: usize) -> bool {
    exists|k: usize| k < usize::BITS && align == (1usize << k)
}

/// Whether `x` is a power of two, by trying each bit position in turn.
pub fn is_power_of_two(x: usize) -> (r: bool)
    ensures
        r == is_pow2(x),
{
    let mut k: usize = 0;
    while k < usize::BITS as usize
        invariant
            k <= usize::BITS,
            forall|j: usize| j < k ==> x != (1usize << j),
        decreases usize::BITS - k,
    {
        if x == (1usize << k) {
            return true;
        }
        k = k + 1;
    }
    false
}

/// The value `checked_align_up` computes when `addr + align - 1` does not overflow.
pub open spec fn align_up_bits(addr: usize, align: usize) -> usize {
    ((addr + (align - 1)) as usize) & !((align - 1) as usize)
}

/// Rounds `addr` up to the next multiple of `align`, or `None` when the
/// rounding overflows the address space.
///
/// `align == 0` is treated as "no alignment" and returns `addr` unchanged.
/// For a non-zero `align` the result is `(addr + align - 1) & !(align - 1)`,
/// which is the least multiple of `align` not below `addr` whenever `align`
/// is a power of two (see [`lemma_align_up_is_round_up`]).
pub fn checked_align_up(addr: usize, align: usize) -> (r: Option<usize>)
    ensures
        align == 0 ==> r == Some(addr),
        align != 0 ==> (r is None <==> addr + (align - 1) > usize::MAX),
        align != 0 && r is Some ==> r == Some(align_up_bits(addr, align)),
{
    if align == 0 {
        return Some(addr);
    }
    let offset = align - 1;
    match addr.checked_add(offset) {
        Some(sum) => Some(sum & !offset),
        None => None,
    }
}

/// `a * b`, or `usize::MAX` when the product does not fit.
pub fn saturating_mul(a: usize, b: usize) -> (r: usize)
    ensures
        r == (if a * b > usize::MAX { usize::MAX as int } else { a * b }),
{
    match a.checked_mul(b) {
        Some(p) => p,
        None => usize::MAX,
    }
}

/// For a power-of-two `align`, an aligned-up address is the least multiple
/// of `align` that is not below `addr`.
pub proof fn lemma_align_up_is_round_up(addr: usize, align: usize)
    requires
        is_pow2(align),
        addr + (align - 1) <= usize::MAX,
    ensures
        align_up_bits(addr, align) as int % (align as int) == 0,
        addr <= align_up_bits(addr, align) < addr + align,
{
    let k = choose|k: usize| k < usize::BITS && align == (1usize << k);
    let s = (addr + (align - 1)) as usize;
    let m = (align - 1) as usize;
    let q = s >> k;
    assert(s & !m == (q << k)) by (bit_vector)
        requires
            k < usize::BITS,
            align == (1usize << k),
            m == (align - 1) as usize,
            q == s >> k,
    ;
    vstd::bits::lemma_usize_pow2_no_overflow(k as nat);
    vstd::bits::lemma_usize_shl_is_mul(1, k);
    vstd::bits::lemma_usize_shr_is_div(s, k);
    let p = vstd::arithmetic::power2::pow2(k as nat) as int;
    assert(align as int == p);
    assert(q as int == s as int / p);
    vstd::arithmetic::div_mod::lemma_fundamental_div_mod(s as int, p);
    assert(q as int * p <= s) by {
        vstd::arithmetic::div_mod::lemma_mod_pos_bound(s as int, p);
    }
    vstd::bits::lemma_usize_shl_is_mul(q, k);
    assert(q << k == q as int * p);
    vstd::arithmetic::div_mod::lemma_mod_multiples_basic(q as int, p);
    vstd::arithmetic::div_mod::lemma_mod_pos_bound(s as int, p);
}

} // verus!
