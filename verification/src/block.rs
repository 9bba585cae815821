//! Layout of a used block inside an arena.
//!
//! A block starts on a word boundary with a one-word header that holds the
//! block's size with the `SIZE_USED` bit set. The payload follows at the
//! first address that meets the requested alignment: behind the header for
//! an alignment of less than a granule, and behind the header and one more
//! word for an alignment of a granule or more. That word, the one before
//! the payload, holds the header's address, so that the header can be found
//! again from the payload.

use vstd::prelude::*;
use crate::arena::Arena;
use crate::support::{align_up_spec, is_power_of_two, lemma_align_up};

verus! {

/// The unit of allocation: what a request needs is rounded up to a
/// multiple of it, and no block and no hole is smaller.
pub const GRANULARITY: usize = 16;

/// Alignment of the bookkeeping records kept inside an arena.
pub const HOLE_ALIGN: usize = 8;

/// Bytes taken by the header of a used block.
pub const USED_HDR_SIZE: usize = 8;

/// Flag in a header's size word that marks the block as used.
pub const SIZE_USED: usize = 1;

/// Address of the payload of a block at `block` for alignment `align`.
pub open spec fn payload_addr(block: int, align: int) -> int {
    if align < 16 {
        align_up_spec(block + 8, align)
    } else {
        align_up_spec(block + 16, align)
    }
}

/// Bytes that a block at `block` takes to hold `size` bytes aligned to
/// `align`: header, padding and payload, rounded up to whole granules.
pub open spec fn block_size(block: int, size: int, align: int) -> int {
    align_up_spec(payload_addr(block, align) - block + size, 16)
}

/// A power of two from 16 up is a multiple of 16.
pub proof fn lemma_pow2_multiple_of_16(a: int)
    requires
        is_power_of_two(a),
        a >= 16,
    ensures
        a % 16 == 0,
{
    reveal_with_fuel(is_power_of_two, 5);
}

/// A power of two below 16 is 1, 2, 4 or 8.
pub proof fn lemma_pow2_below_16(a: int)
    requires
        is_power_of_two(a),
        a < 16,
    ensures
        a == 1 || a == 2 || a == 4 || a == 8,
{
    reveal_with_fuel(is_power_of_two, 5);
}

/// A multiple of a multiple of 16 is a multiple of 16.
pub proof fn lemma_multiple_of_16(x: int, a: int)
    requires
        a > 0,
        a % 16 == 0,
        x % a == 0,
    ensures
        x % 16 == 0,
{
    vstd::arithmetic::div_mod::lemma_fundamental_div_mod(x, a);
    vstd::arithmetic::div_mod::lemma_fundamental_div_mod(a, 16);
    let q = x / a;
    let r = a / 16;
    assert(x == 16 * (r * q)) by (nonlinear_arith)
        requires
            x == a * q,
            a == 16 * r,
    ;
    vstd::arithmetic::div_mod::lemma_mod_multiples_basic(r * q, 16);
    assert(16 * (r * q) == (r * q) * 16);
}

/// 16 is twice 8: a multiple of 16 is a multiple of 8.
pub proof fn lemma_granule_is_words(x: int)
    requires
        x % 16 == 0,
    ensures
        x % 8 == 0,
{
}

/// Where the payload of a block lies: right behind the header for an
/// alignment of one word, and on the next boundary of the alignment, with
/// room for the back-pointer, for an alignment of a granule or more.
pub proof fn lemma_payload_addr(block: int, align: int)
    requires
        block >= 0,
        block % 8 == 0,
        is_power_of_two(align),
        align >= 8,
    ensures
        align == 8 ==> payload_addr(block, align) == block + 8,
        align >= 16 ==> payload_addr(block, align) >= block + 16 && payload_addr(block, align) % 16
            == 0,
        payload_addr(block, align) % 8 == 0,
        payload_addr(block, align) % align == 0,
        block + 8 <= payload_addr(block, align) < block + 16 + align,
{
    if align >= 16 {
        lemma_align_up(block + 16, align);
        lemma_pow2_multiple_of_16(align);
        lemma_multiple_of_16(payload_addr(block, align), align);
        lemma_granule_is_words(payload_addr(block, align));
    } else {
        lemma_align_up(block + 8, align);
        lemma_pow2_below_16(align);
        assert((block + 8) % 8 == 0);
    }
}

/// Behind a header on a granule boundary the payload lies at the first
/// boundary of the alignment behind the header, whatever the alignment:
/// for an alignment of a granule or more no such boundary lies in the word
/// behind the header, which is left to the back-pointer.
pub proof fn lemma_payload_on_granule(block: int, align: int)
    requires
        block >= 0,
        block % 16 == 0,
        is_power_of_two(align),
        align >= 8,
    ensures
        payload_addr(block, align) == align_up_spec(block + 8, align),
{
    if align >= 16 {
        let near = align_up_spec(block + 8, align);
        let far = align_up_spec(block + 16, align);
        lemma_align_up(block + 8, align);
        lemma_align_up(block + 16, align);
        lemma_pow2_multiple_of_16(align);
        lemma_multiple_of_16(near, align);
        assert(near >= block + 16) by {
            lemma_granule_gap(block, near);
        }
        lemma_same_multiple(near, far, align);
    }
}

/// A granule boundary above another lies a granule above it at least.
pub proof fn lemma_granule_gap(a: int, b: int)
    requires
        a % 16 == 0,
        b % 16 == 0,
        a < b,
    ensures
        a + 16 <= b,
{
}

/// Two multiples of `align` less than `align` apart are one.
pub proof fn lemma_same_multiple(x: int, y: int, align: int)
    requires
        align > 0,
        x % align == 0,
        y % align == 0,
        x - y < align,
        y - x < align,
    ensures
        x == y,
{
    vstd::arithmetic::div_mod::lemma_fundamental_div_mod(x, align);
    vstd::arithmetic::div_mod::lemma_fundamental_div_mod(y, align);
    let p = x / align;
    let q = y / align;
    assert(x == align * p);
    assert(y == align * q);
    if p > q {
        assert(align * p - align * q >= align) by (nonlinear_arith)
            requires
                p > q,
                align > 0,
        ;
    } else if q > p {
        assert(align * q - align * p >= align) by (nonlinear_arith)
            requires
                q > p,
                align > 0,
        ;
    }
}

/// The header address of the used block whose payload is at `ptr` and was
/// allocated with alignment `align`.
pub fn used_block_hdr_for_allocation(arena: &Arena, ptr: usize, align: usize) -> (hdr: usize)
    requires
        arena.wf(),
        ptr >= 8,
        align >= GRANULARITY ==> arena.contains(ptr - 8),
    ensures
        hdr == if align >= GRANULARITY {
            arena.at(ptr - 8)
        } else {
            (ptr - 8) as usize
        },
{
    if align >= GRANULARITY {
        arena.read(ptr - USED_HDR_SIZE)
    } else {
        ptr - USED_HDR_SIZE
    }
}

/// The header address of the used block whose payload is at `ptr`, whatever
/// alignment it was allocated with. The word before the payload is either
/// the header itself, which has the `SIZE_USED` bit set, or the back-pointer
/// to the header, which is a granule address and has it clear.
pub fn used_block_hdr_for_allocation_unknown_align(arena: &Arena, ptr: usize) -> (hdr: usize)
    requires
        arena.wf(),
        ptr >= 8,
        arena.contains(ptr - 8),
    ensures
        hdr == if arena.at(ptr - 8) % 2 == 1 {
            (ptr - 8) as usize
        } else {
            arena.at(ptr - 8)
        },
{
    let word: usize = arena.read(ptr - USED_HDR_SIZE);
    if word % 2 == SIZE_USED {
        ptr - USED_HDR_SIZE
    } else {
        word
    }
}

} // verus!
