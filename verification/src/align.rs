//! Alignment helpers on addresses and sizes.
use vstd::prelude::*;

verus! {

/// `size & mask`.
pub open spec fn spec_align(size: usize, mask: usize) -> usize {
    size & mask
}

/// Whether `address` has none of the bits of `align_size - 1` set.
pub open spec fn spec_is_align(address: usize, align_size: usize) -> bool {
    address & ((align_size - 1) as usize) == 0
}

/// `address` rounded down to a multiple of `align_size` (bitwise form).
pub open spec fn spec_align_down(address: usize, align_size: usize) -> usize {
    if spec_is_align(address, align_size) {
        address
    } else {
        address & !((align_size - 1) as usize)
    }
}

/// `address` rounded up to a multiple of `align_size` (bitwise form), as an integer.
pub open spec fn spec_align_up(address: usize, align_size: usize) -> int {
    if spec_is_align(address, align_size) {
        address as int
    } else {
        (address & !((align_size - 1) as usize)) + align_size
    }
}

/// Masks `size` with `mask`.
pub fn align(size: usize, mask: usize) -> (r: usize)
    ensures
        r == spec_align(size, mask),
{
    size & mask
}

/// Whether `address` is a multiple of the power of two `align_size`.
pub fn is_align(address: usize, align_size: usize) -> (r: bool)
    requires
        align_size > 0,
    ensures
        r == spec_is_align(address, align_size),
{
    (address & (align_size - 1)) == 0
}

/// Rounds `address` down to a multiple of `align_size`.
pub fn align_down(address: usize, align_size: usize) -> (r: usize)
    requires
        align_size > 0,
    ensures
        r == spec_align_down(address, align_size),
        r <= address,
{
    proof {
        let m = (align_size - 1) as usize;
        assert(address & !m <= address) by (bit_vector);
    }
    if is_align(address, align_size) {
        address
    } else {
        align(address, !(align_size - 1))
    }
}

/// Rounds `address` up to a multiple of `align_size`.
pub fn align_up(address: usize, align_size: usize) -> (r: usize)
    requires
        align_size > 0,
        spec_align_up(address, align_size) <= usize::MAX,
    ensures
        r == spec_align_up(address, align_size),
{
    if is_align(address, align_size) {
        address
    } else {
        align(address, !(align_size - 1)) + align_size
    }
}

/// For a power of two `a == 2^k`, the bitwise forms are the arithmetic ones.
pub proof fn lemma_align_pow2(x: usize, k: nat)
    requires
        k < usize::BITS,
    ensures
        ({
            let a = vstd::arithmetic::power2::pow2(k) as usize;
            &&& a > 0
            &&& a as nat == vstd::arithmetic::power2::pow2(k)
            &&& spec_is_align(x, a) == (x % a == 0)
            &&& spec_align_down(x, a) == x - x % a
            &&& spec_align_up(x, a) == if x % a == 0 { x as int } else { x - x % a + a }
        }),
{
    vstd::bits::lemma_usize_pow2_no_overflow(k);
    let a = vstd::arithmetic::power2::pow2(k) as usize;
    let m = (a - 1) as usize;
    assert(m == vstd::bits::low_bits_mask(k) as usize);
    vstd::bits::lemma_usize_low_bits_mask_is_mod(x, k);
    assert(x & m == x % a);
    assert(x & !m == x - (x & m)) by (bit_vector);
}

/// Rounding to multiples of `a` gives multiples of `a`.
pub proof fn lemma_round_mod(x: int, a: int)
    requires
        a > 0,
    ensures
        (x - x % a) % a == 0,
        (x - x % a + a) % a == 0,
{
    vstd::arithmetic::div_mod::lemma_fundamental_div_mod(x, a);
    vstd::arithmetic::div_mod::lemma_mod_multiples_basic(x / a, a);
    vstd::arithmetic::div_mod::lemma_mod_multiples_basic(x / a + 1, a);
    assert((x / a + 1) * a == (x / a) * a + a) by (nonlinear_arith);
    assert(a * (x / a) == (x / a) * a) by (nonlinear_arith);
}

/// The distance between two multiples of `m` is a multiple of `m`.
pub proof fn lemma_sub_multiples(a: int, b: int, m: int)
    requires
        m > 0,
        a % m == 0,
        b % m == 0,
    ensures
        (a - b) % m == 0,
        (a - b) / m * m == a - b,
{
    vstd::arithmetic::div_mod::lemma_fundamental_div_mod(a, m);
    vstd::arithmetic::div_mod::lemma_fundamental_div_mod(b, m);
    let d = a / m - b / m;
    assert(a - b == d * m) by (nonlinear_arith)
        requires a == m * (a / m), b == m * (b / m), d == a / m - b / m;
    vstd::arithmetic::div_mod::lemma_mod_multiples_basic(d, m);
    vstd::arithmetic::div_mod::lemma_div_multiples_vanish(d, m);
    assert(d * m == m * d) by (nonlinear_arith);
}

/// For a power of two `a`, the bitwise forms are the arithmetic ones.
pub proof fn lemma_align_exp2(x: usize, a: usize)
    requires
        crate::bintree::index::is_pow2(a as nat),
    ensures
        a > 0,
        spec_is_align(x, a) == (x % a == 0),
        spec_align_down(x, a) == x - x % a,
        spec_align_up(x, a) == if x % a == 0 { x as int } else { x - x % a + a },
        spec_align_down(x, a) % a == 0,
        spec_align_up(x, a) % (a as int) == 0,
{
    lemma_round_mod(x as int, a as int);
    let k = crate::bintree::index::log2(a as nat);
    crate::bintree::index::lemma_is_pow2_exp2(a as nat);
    crate::bintree::index::lemma_exp2_pow2(k);
    if k >= usize::BITS {
        crate::bintree::index::lemma_exp2_mono(usize::BITS as nat, k);
        crate::bintree::index::lemma_exp2_pow2(usize::BITS as nat);
        vstd::arithmetic::power2::lemma2_to64();
        assert(false);
    }
    lemma_align_pow2(x, k);
}

} // verus!
