//! The allocator family and the address arithmetic it shares.
//!
//! Addresses are plain `usize` values. An allocator here decides where blocks
//! go; it never reads or writes the bytes it hands out, so its bookkeeping
//! lives beside the heap instead of inside it.

use vstd::prelude::*;
use vstd::arithmetic::div_mod::lemma_fundamental_div_mod_converse;
use vstd::arithmetic::power2::{
    lemma2_to64, lemma2_to64_rest, lemma_pow2_adds, lemma_pow2_strictly_increases,
    pow2,
};
use vstd::bits::{lemma_u64_low_bits_mask_is_mod, low_bits_mask};
use vstd::layout::unsigned_int_max_values;

pub mod bump;
pub mod layout;
pub mod linked_list;
pub mod fixed_size;

verus! {

/// First address of the kernel heap.
pub const HEAP_START: u64 = 0x_4444_4444_0000;

/// Length of the kernel heap in bytes: 100 KiB.
pub const HEAP_SIZE: u64 = 100 * 1_024;

/// The bytes of a page of virtual memory.
pub const PAGE_SIZE: u64 = 4096;

/// The address at which the page that holds `addr` starts.
pub open spec fn page_start_spec(addr: u64) -> u64 {
    (addr - addr % PAGE_SIZE) as u64
}

/// The address at which the page that holds `addr` starts.
#[verifier::when_used_as_spec(page_start_spec)]
pub fn page_start(addr: u64) -> (start: u64)
    ensures
        start == page_start_spec(addr),
        start % PAGE_SIZE == 0,
        start <= addr < start + PAGE_SIZE,
{
    addr - addr % PAGE_SIZE
}

/// The pages that a heap of `heap_size` bytes from `heap_start` lies on:
/// where the first and the last of them start. All pages between the two
/// belong to the heap as well.
pub fn heap_page_range(heap_start: u64, heap_size: u64) -> (range: (u64, u64))
    requires
        heap_size > 0,
        heap_start + heap_size - 1 <= u64::MAX,
    ensures
        range.0 == page_start(heap_start),
        range.1 == page_start((heap_start + heap_size - 1) as u64),
        range.0 <= range.1,
        (range.1 - range.0) % (PAGE_SIZE as int) == 0,
{
    let heap_end = heap_start + (heap_size - 1);
    let first = page_start(heap_start);
    let last = page_start(heap_end);
    (first, last)
}

/// Whether `n` is a power of two: exactly one bit of it is set.
pub open spec fn is_power_of_two(n: usize) -> bool {
    n != 0 && n & ((n - 1) as usize) == 0
}

/// The least multiple of `align` that is not below `addr`.
pub open spec fn align_up_spec(addr: int, align: int) -> int {
    if addr % align == 0 {
        addr
    } else {
        addr + align - addr % align
    }
}

/// Whether the byte ranges `[a, a + a_len)` and `[b, b + b_len)` lie apart,
/// one wholly before the other.
pub open spec fn ranges_disjoint(a: int, a_len: int, b: int, b_len: int) -> bool {
    a + a_len <= b || b + b_len <= a
}

proof fn lemma_one_bit_values(n: u64)
    by (bit_vector)
    requires
        n != 0 && n & ((n - 1) as u64) == 0,
    ensures
        n == 0x1 || n == 0x2 || n == 0x4 || n == 0x8 || n == 0x10 || n == 0x20 || n == 0x40 || n
            == 0x80 || n == 0x100 || n == 0x200 || n == 0x400 || n == 0x800 || n == 0x1000 || n
            == 0x2000 || n == 0x4000 || n == 0x8000 || n == 0x10000 || n == 0x20000 || n == 0x40000
            || n == 0x80000 || n == 0x100000 || n == 0x200000 || n == 0x400000 || n == 0x800000 || n
            == 0x1000000 || n == 0x2000000 || n == 0x4000000 || n == 0x8000000 || n == 0x10000000
            || n == 0x20000000 || n == 0x40000000 || n == 0x80000000 || n == 0x100000000 || n
            == 0x200000000 || n == 0x400000000 || n == 0x800000000 || n == 0x1000000000 || n
            == 0x2000000000 || n == 0x4000000000 || n == 0x8000000000 || n == 0x10000000000 || n
            == 0x20000000000 || n == 0x40000000000 || n == 0x80000000000 || n == 0x100000000000
            || n == 0x200000000000 || n == 0x400000000000 || n == 0x800000000000 || n
            == 0x1000000000000 || n == 0x2000000000000 || n == 0x4000000000000 || n
            == 0x8000000000000 || n == 0x10000000000000 || n == 0x20000000000000 || n
            == 0x40000000000000 || n == 0x80000000000000 || n == 0x100000000000000 || n
            == 0x200000000000000 || n == 0x400000000000000 || n == 0x800000000000000 || n
            == 0x1000000000000000 || n == 0x2000000000000000 || n == 0x4000000000000000 || n
            == 0x8000000000000000,
{
}

/// A power of two is two raised to some exponent below 64.
pub proof fn lemma_power_of_two_exponent(n: usize) -> (k: nat)
    requires
        is_power_of_two(n),
    ensures
        k < 64,
        pow2(k) == n,
{
    let m = n as u64;
    assert(m != 0 && m & ((m - 1) as u64) == 0);
    lemma_one_bit_values(m);
    lemma2_to64();
    lemma2_to64_rest();
    let k = choose|k: nat| k < 64 && pow2(k) == n;
    k
}

/// What `align_up_spec` yields is a multiple of `align`, lies less than
/// `align` above `addr`, and no multiple of `align` lies between the two.
pub proof fn lemma_align_up_spec(addr: int, align: int)
    requires
        0 <= addr,
        0 < align,
    ensures
        align_up_spec(addr, align) % align == 0,
        addr <= align_up_spec(addr, align) < addr + align,
        forall|m: int| addr <= m && #[trigger] (m % align) == 0 ==> align_up_spec(addr, align) <= m,
{
    let r = addr % align;
    let q = addr / align;
    assert(addr == q * align + r && 0 <= r < align) by (nonlinear_arith)
        requires
            0 < align,
            r == addr % align,
            q == addr / align,
    ;
    if r != 0 {
        assert(addr + align - r == (q + 1) * align + 0) by (nonlinear_arith)
            requires
                addr == q * align + r,
        ;
        lemma_fundamental_div_mod_converse(addr + align - r, align, q + 1, 0);
    }
    assert forall|m: int| addr <= m && #[trigger] (m % align) == 0 implies align_up_spec(
        addr,
        align,
    ) <= m by {
        let p = m / align;
        assert(m == p * align && (p <= q ==> p * align <= q * align) && (p >= q + 1 ==> p * align
            >= q * align + align)) by (nonlinear_arith)
            requires
                0 < align,
                m % align == 0,
                p == m / align,
        ;
    }
}

/// Of two powers of two the smaller divides the larger, so it divides every
/// multiple of the larger.
pub proof fn lemma_power_of_two_divides(addr: usize, small: usize, large: usize)
    requires
        is_power_of_two(small),
        is_power_of_two(large),
        small <= large,
        addr % large == 0,
    ensures
        addr % small == 0,
{
    lemma_mask_is_remainder(addr, small);
    lemma_mask_is_remainder(addr, large);
    let a = addr;
    let s = small;
    let l = large;
    assert(a & ((s - 1) as usize) == 0) by (bit_vector)
        requires
            s != 0 && s & ((s - 1) as usize) == 0,
            l != 0 && l & ((l - 1) as usize) == 0,
            s <= l,
            a & ((l - 1) as usize) == 0,
    ;
}

/// Masking with a power of two less one gives the remainder.
pub proof fn lemma_mask_is_remainder(x: usize, align: usize)
    requires
        is_power_of_two(align),
    ensures
        x & ((align - 1) as usize) == x % align,
{
    let k = lemma_power_of_two_exponent(align);
    assert(low_bits_mask(k) == align - 1);
    lemma_u64_low_bits_mask_is_mod(x as u64, k);
    assert((x as u64) & ((align - 1) as u64) == (x & ((align - 1) as usize)) as u64);
}

/// Align the given address `addr` upwards to alignment `align`.
pub fn align_up(addr: usize, align: usize) -> (aligned: usize)
    requires
        is_power_of_two(align),
        addr + align - 1 <= usize::MAX,
    ensures
        aligned == align_up_spec(addr as int, align as int),
{
    let mask = align - 1;
    let top = addr + mask;
    proof {
        assert(top & !mask == top - (top & mask)) by (bit_vector);
        lemma_mask_is_remainder(top, align);
        let r = addr as int % align as int;
        let q = addr as int / align as int;
        assert(addr == q * align + r && 0 <= r < align) by (nonlinear_arith)
            requires
                0 < align,
                r == addr as int % align as int,
                q == addr as int / align as int,
        ;
        if r == 0 {
            lemma_fundamental_div_mod_converse(top as int, align as int, q, align - 1);
        } else {
            assert(top == (q + 1) * align + (r - 1)) by (nonlinear_arith)
                requires
                    top == addr + align - 1,
                    addr == q * align + r,
            ;
            lemma_fundamental_div_mod_converse(top as int, align as int, q + 1, r - 1);
        }
    }
    top & !mask
}

/// As `align_up`, but `None` where the aligned address does not fit in a
/// `usize`.
pub fn checked_align_up(addr: usize, align: usize) -> (aligned: Option<usize>)
    requires
        is_power_of_two(align),
    ensures
        match aligned {
            Some(a) => a == align_up_spec(addr as int, align as int),
            None => align_up_spec(addr as int, align as int) > usize::MAX,
        },
{
    if addr <= usize::MAX - (align - 1) {
        Some(align_up(addr, align))
    } else {
        proof {
            lemma_align_up_overflows(addr, align);
        }
        None
    }
}

/// The size of the address space is a multiple of every power of two in it.
proof fn lemma_power_of_two_divides_address_space(align: usize)
    requires
        is_power_of_two(align),
    ensures
        (usize::MAX + 1) % (align as int) == 0,
{
    let k = lemma_power_of_two_exponent(align);
    unsigned_int_max_values();
    let bits = usize::BITS as nat;
    if k > bits {
        lemma_pow2_strictly_increases(bits, k);
    }
    let rest = (bits - k) as nat;
    lemma_pow2_adds(rest, k);
    assert(rest + k == bits);
    assert(usize::MAX + 1 == pow2(rest) * align + 0);
    lemma_fundamental_div_mod_converse(usize::MAX + 1, align as int, pow2(rest) as int, 0);
}

/// Below a multiple `bound` of `align`, rounding `addr` up stays below
/// `bound` exactly when `addr` lies at least `align` below it.
pub proof fn lemma_align_up_below_multiple(addr: int, align: int, bound: int)
    requires
        0 <= addr,
        0 < align,
        bound % align == 0,
    ensures
        align_up_spec(addr, align) < bound <==> addr <= bound - align,
{
    lemma_align_up_spec(addr, align);
    let up = align_up_spec(addr, align);
    let p = up / align;
    let t = bound / align;
    assert(up == p * align && bound == t * align && (p <= t - 1 ==> p * align <= t * align - align)
        && (p >= t ==> p * align >= t * align) && bound - align == (t - 1) * align + 0)
        by (nonlinear_arith)
        requires
            0 < align,
            up % align == 0,
            bound % align == 0,
            p == up / align,
            t == bound / align,
    ;
    lemma_fundamental_div_mod_converse(bound - align, align, t - 1, 0);
    assert((bound - align) % align == 0);
}

/// An address within `align - 1` of the top of the address space has no
/// aligned address at or above it.
proof fn lemma_align_up_overflows(addr: usize, align: usize)
    requires
        is_power_of_two(align),
        addr + align - 1 > usize::MAX,
    ensures
        align_up_spec(addr as int, align as int) > usize::MAX,
{
    lemma_power_of_two_divides_address_space(align);
    lemma_align_up_below_multiple(addr as int, align as int, usize::MAX + 1);
}

} // verus!
