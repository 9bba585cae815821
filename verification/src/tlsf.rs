//! A two-level segregated fit allocator.
//!
//! The pool is a row of blocks, each with a header of two words: the size
//! of the block with the `SIZE_USED` bit, and the address of the block
//! before it. The block behind a block lies at its address plus its size:
//! the headers chain the blocks in both directions. Free blocks are kept
//! in lists by size class; a request is served from the lowest class that
//! is sure to fit and holds a block, and a block that is freed merges with
//! its free neighbours.

use vstd::prelude::*;
use crate::arena::Arena;
use crate::block::{lemma_multiple_of_16, lemma_pow2_below_16, lemma_pow2_multiple_of_16};
use crate::layout::{valid_layout, Layout};
use crate::support::{
    align_down_size, align_down_spec, align_up_spec, checked_align_up, is_power_of_two,
    lemma_align_down, lemma_align_up,
};
use crate::tlsf_chain::{coalesced, lemma_alloc_coalesced, lemma_free_coalesced, lemma_grow_coalesced};
use crate::tlsf_lists::{listed, FreeLists};
use crate::tlsf_map::{has_key, lemma_key_unique, map_ceil, map_floor, CLASSES, MIN_SIZE};

verus! {

/// The unit of allocation: block addresses and block sizes are multiples of it.
pub const TLSF_GRANULARITY: usize = 32;

/// Bytes taken by the header of a block.
pub const TLSF_HDR_SIZE: usize = 16;

/// A block of the pool.
pub struct Blk {
    /// Address of the header.
    pub addr: usize,
    /// Bytes of the block, header included.
    pub size: usize,
    /// The block is in use.
    pub used: bool,
    /// Address that the caller received, where the block is in use.
    pub payload: usize,
    /// Alignment that the block was allocated with, where it is in use.
    pub align: usize,
}

/// Address of the payload of a block at `addr` for alignment `align`.
pub open spec fn payload_at(addr: int, align: int) -> int {
    align_up_spec(addr + 16, align)
}

/// Bytes that a block at `addr` takes to hold `size` bytes aligned to
/// `align`: header, padding and payload, rounded up to whole granules.
pub open spec fn needed_size(addr: int, size: int, align: int) -> int {
    align_up_spec(payload_at(addr, align) - addr + size, 32)
}

/// The size that is searched for to serve `size` bytes aligned to `align`
/// wherever the block lies: header, the longest padding and payload,
/// rounded up to whole granules.
pub open spec fn search_size(size: int, align: int) -> int {
    align_up_spec(
        size + (if align > 16 {
            align
        } else {
            16
        }),
        32,
    )
}

/// The block is well-formed: it lies on granule boundaries, and where it
/// is in use its payload is where its alignment puts it.
pub open spec fn blk_ok(b: Blk) -> bool {
    &&& b.addr % 32 == 0
    &&& b.size % 32 == 0
    &&& b.size >= 32
    &&& b.addr > 0
    &&& b.used ==> is_power_of_two(b.align as int) && b.payload == payload_at(
        b.addr as int,
        b.align as int,
    ) && b.payload < b.addr + b.size
}

/// The blocks tile `[start, end)`: the first lies at `start`, each lies
/// behind the one before it, and the last ends at `end`.
#[verifier::opaque]
pub open spec fn chain_wf(b: Seq<Blk>, start: int, end: int) -> bool {
    &&& start <= end <= usize::MAX
    &&& b.len() == 0 ==> start == end
    &&& b.len() > 0 ==> b[0].addr == start && b.last().addr + b.last().size == end
    &&& forall|i: int| 0 <= i < b.len() ==> #[trigger] blk_ok(b[i])
    &&& forall|i: int| 0 <= i && i + 1 < b.len() ==> #[trigger] link_ok(b, i)
}

/// The block behind the block at index `i` lies where that block ends.
pub open spec fn link_ok(b: Seq<Blk>, i: int) -> bool {
    b[i].addr + b[i].size == b[i + 1].addr
}

/// The free block after it was put to use with `taken` bytes for a payload
/// at `payload`: the used block and, where bytes are left, a free block
/// behind it.
pub open spec fn chain_after_alloc(b: Seq<Blk>, i: int, taken: int, payload: int, align: int) -> Seq<
    Blk,
> {
    let used = Blk {
        addr: b[i].addr,
        size: taken as usize,
        used: true,
        payload: payload as usize,
        align: align as usize,
    };
    if taken == b[i].size {
        b.update(i, used)
    } else {
        b.update(i, used).insert(
            i + 1,
            Blk {
                addr: (b[i].addr + taken) as usize,
                size: (b[i].size - taken) as usize,
                used: false,
                payload: 0,
                align: 0,
            },
        )
    }
}

/// The block at index `i` as a free block.
pub open spec fn free_blk(b: Seq<Blk>, i: int) -> Blk {
    Blk { addr: b[i].addr, size: b[i].size, used: false, payload: 0, align: 0 }
}

/// The block at index `i` merged with the block behind it.
pub open spec fn chain_merged(b: Seq<Blk>, i: int) -> Seq<Blk> {
    b.update(
        i,
        Blk {
            addr: b[i].addr,
            size: (b[i].size + b[i + 1].size) as usize,
            used: false,
            payload: 0,
            align: 0,
        },
    ).remove(i + 1)
}

/// The blocks after the block at index `i` was freed: it is free, and it
/// is merged with the block behind it and with the block before it, where
/// they are free.
pub open spec fn chain_after_free(b: Seq<Blk>, i: int) -> Seq<Blk> {
    let b1 = b.update(i, free_blk(b, i));
    let b2 = if i + 1 < b.len() && !b[i + 1].used {
        chain_merged(b1, i)
    } else {
        b1
    };
    if i > 0 && !b[i - 1].used {
        chain_merged(b2, i - 1)
    } else {
        b2
    }
}

/// Total size of the used blocks.
#[verifier::opaque]
pub open spec fn used_total(b: Seq<Blk>) -> int
    decreases b.len(),
{
    if b.len() == 0 {
        0
    } else {
        used_total(b.drop_last()) + if b.last().used {
            b.last().size as int
        } else {
            0
        }
    }
}

/// Bytes of a block that count as used.
pub open spec fn used_part(x: Blk) -> int {
    if x.used {
        x.size as int
    } else {
        0
    }
}

/// A block that enters the chain adds its used bytes to the total.
pub proof fn lemma_used_total_insert(b: Seq<Blk>, k: int, x: Blk)
    requires
        0 <= k <= b.len(),
    ensures
        used_total(b.insert(k, x)) == used_total(b) + used_part(x),
    decreases b.len() - k,
{
    reveal(used_total);
    let t = b.insert(k, x);
    if k == b.len() {
        assert(t.drop_last() =~= b);
    } else {
        assert(t.drop_last() =~= b.drop_last().insert(k, x));
        assert(t.last() == b.last());
        lemma_used_total_insert(b.drop_last(), k, x);
    }
}

/// A block that leaves the chain takes its used bytes from the total.
pub proof fn lemma_used_total_remove(b: Seq<Blk>, k: int)
    requires
        0 <= k < b.len(),
    ensures
        used_total(b.remove(k)) == used_total(b) - used_part(b[k]),
{
    let t = b.remove(k);
    assert(t.insert(k, b[k]) =~= b);
    lemma_used_total_insert(t, k, b[k]);
}

/// A block that changes changes the total by the difference of its used
/// bytes.
pub proof fn lemma_used_total_update(b: Seq<Blk>, k: int, x: Blk)
    requires
        0 <= k < b.len(),
    ensures
        used_total(b.update(k, x)) == used_total(b) - used_part(b[k]) + used_part(x),
{
    let t = b.remove(k);
    assert(t.insert(k, x) =~= b.update(k, x));
    lemma_used_total_remove(b, k);
    lemma_used_total_insert(t, k, x);
}

/// The used bytes are no more than the pool holds.
pub proof fn lemma_used_total_bound(b: Seq<Blk>, start: int, end: int)
    requires
        chain_wf(b, start, end),
    ensures
        0 <= used_total(b) <= end - start,
    decreases b.len(),
{
    reveal(used_total);
    reveal(chain_wf);
    if b.len() > 0 {
        let t = b.drop_last();
        let last = b.last();
        assert(blk_ok(b[b.len() - 1]));
        lemma_chain_sorted(b, start, end, 0, b.len() - 1);
        assert(blk_ok(b[0]));
        if t.len() > 0 {
            assert(t.last() == b[b.len() - 2]);
            assert(link_ok(b, b.len() - 2));
            assert(t[0] == b[0]);
        }
        assert(chain_wf(t, start, last.addr as int)) by {
            assert forall|i: int| 0 <= i < t.len() implies #[trigger] blk_ok(t[i]) by {
                assert(t[i] == b[i]);
                assert(blk_ok(b[i]));
            }
            assert forall|i: int| 0 <= i && i + 1 < t.len() implies #[trigger] link_ok(t, i) by {
                assert(link_ok(b, i));
            }
            if t.len() == 0 {
                assert(b[0] == last);
            }
        }
        lemma_used_total_bound(t, start, last.addr as int);
    }
}

/// What `chain_wf` says of the block at index `i` and of its neighbours.
pub proof fn lemma_chain_at(b: Seq<Blk>, start: int, end: int, i: int)
    requires
        chain_wf(b, start, end),
        0 <= i < b.len(),
    ensures
        blk_ok(b[i]),
        start <= b[i].addr,
        b[i].addr + b[i].size <= end,
        start % 32 == 0,
        end % 32 == 0,
        0 < start,
        end <= usize::MAX,
        i == 0 <==> b[i].addr == start,
        i + 1 == b.len() <==> b[i].addr + b[i].size == end,
        i + 1 < b.len() ==> b[i + 1].addr == b[i].addr + b[i].size,
        i > 0 ==> b[i - 1].addr + b[i - 1].size == b[i].addr,
{
    lemma_chain_sorted(b, start, end, 0, i);
    lemma_chain_sorted(b, start, end, i, b.len() - 1);
    reveal(chain_wf);
    assert(blk_ok(b[i]));
    assert(blk_ok(b[0]));
    assert(blk_ok(b[b.len() - 1]));
    if i + 1 < b.len() {
        assert(link_ok(b, i));
        assert(blk_ok(b[i + 1]));
    }
    if i > 0 {
        assert(link_ok(b, i - 1));
        assert(blk_ok(b[i - 1]));
    }
}

/// Blocks lie in the order of their indices.
pub proof fn lemma_chain_sorted(b: Seq<Blk>, start: int, end: int, i: int, j: int)
    requires
        chain_wf(b, start, end),
        0 <= i <= j < b.len(),
    ensures
        i < j ==> b[i].addr + b[i].size <= b[j].addr,
        i == j ==> b[i].addr == b[j].addr,
    decreases j - i,
{
    reveal(chain_wf);
    if i < j {
        lemma_chain_sorted(b, start, end, i, j - 1);
        assert(link_ok(b, j - 1));
        assert(blk_ok(b[j - 1]));
        assert(blk_ok(b[i]));
    }
}

/// Two blocks of a chain with one address are one block.
pub proof fn lemma_chain_unique(b: Seq<Blk>, start: int, end: int, i: int, j: int)
    requires
        chain_wf(b, start, end),
        0 <= i < b.len(),
        0 <= j < b.len(),
        b[i].addr == b[j].addr,
    ensures
        i == j,
{
    reveal(chain_wf);
    assert(blk_ok(b[i]));
    assert(blk_ok(b[j]));
    if i < j {
        lemma_chain_sorted(b, start, end, i, j);
    } else if j < i {
        lemma_chain_sorted(b, start, end, j, i);
    }
}

/// The members of the free lists are free blocks of the chain, each in
/// the list of the class of its size.
#[verifier::opaque]
pub open spec fn members_ok(b: Seq<Blk>, m: Map<usize, int>) -> bool {
    forall|a: usize| #[trigger]
        m.contains_key(a) ==> exists|i: int|
            0 <= i < b.len() && (#[trigger] b[i]).addr == a && !b[i].used && has_key(
                b[i].size as int,
                m[a],
            )
}

/// Every free block of the chain but those at the addresses of `but` is a
/// member of the free lists.
#[verifier::opaque]
pub open spec fn all_listed(b: Seq<Blk>, m: Map<usize, int>, but: Set<usize>) -> bool {
    forall|i: int|
        0 <= i < b.len() && !(#[trigger] b[i]).used && !but.contains(b[i].addr) ==> m.contains_key(
            b[i].addr,
        )
}

/// The block of a member of the free lists.
pub proof fn lemma_member(b: Seq<Blk>, m: Map<usize, int>, a: usize) -> (i: int)
    requires
        members_ok(b, m),
        m.contains_key(a),
    ensures
        0 <= i < b.len(),
        b[i].addr == a,
        !b[i].used,
        has_key(b[i].size as int, m[a]),
{
    reveal(members_ok);
    choose|i: int| 0 <= i < b.len() && (#[trigger] b[i]).addr == a && !b[i].used && has_key(
        b[i].size as int,
        m[a],
    )
}

/// The block is a block of the chain.
pub open spec fn has_blk(b: Seq<Blk>, x: Blk) -> bool {
    exists|k: int| 0 <= k < b.len() && #[trigger] b[k] == x
}

/// A chain that changes at blocks that are no members keeps its members:
/// every block of `b` at the address of a member is a block of `b2`.
pub proof fn lemma_members_kept(b: Seq<Blk>, b2: Seq<Blk>, m: Map<usize, int>)
    requires
        members_ok(b, m),
        forall|i: int| 0 <= i < b.len() && m.contains_key(b[i].addr) ==> #[trigger] has_blk(b2, b[i]),
    ensures
        members_ok(b2, m),
{
    reveal(members_ok);
    assert forall|a: usize| #[trigger] m.contains_key(a) implies exists|i: int|
        0 <= i < b2.len() && (#[trigger] b2[i]).addr == a && !b2[i].used && has_key(
            b2[i].size as int,
            m[a],
        ) by {
        let i = lemma_member(b, m, a);
        assert(has_blk(b2, b[i]));
        let j = choose|j: int| 0 <= j < b2.len() && #[trigger] b2[j] == b[i];
        assert(b2[j].addr == a);
    }
}

/// The word that the header of the block holds: its size, with the lowest
/// bit set where the block is in use.
pub open spec fn hdr_word(x: Blk) -> int {
    x.size + if x.used {
        1int
    } else {
        0int
    }
}

/// The address of the block before the block at index `i`; 0 before the
/// first block.
pub open spec fn prev_addr(b: Seq<Blk>, i: int) -> int {
    if i > 0 {
        b[i - 1].addr as int
    } else {
        0
    }
}

/// The header of the block at index `i` is in place, and so is the
/// back-pointer to it where the block is in use and has one.
pub open spec fn blk_recorded(arena: Arena, b: Seq<Blk>, i: int) -> bool {
    &&& arena.at(b[i].addr as int) == hdr_word(b[i])
    &&& arena.at(b[i].addr + 8) == prev_addr(b, i)
    &&& b[i].used && b[i].align >= 32 ==> arena.at(b[i].payload - 8) == b[i].addr
}

/// The headers of the chain are in place.
#[verifier::opaque]
pub open spec fn chain_recorded(arena: Arena, b: Seq<Blk>) -> bool {
    forall|i: int| 0 <= i < b.len() ==> #[trigger] blk_recorded(arena, b, i)
}

/// No word of the arena outside `[lo, hi)` and other than the one at `w`
/// differs between `before` and `after`.
pub open spec fn changed_in(after: Arena, before: Arena, lo: int, hi: int, w: int) -> bool {
    &&& after.base() == before.base()
    &&& after.limit() == before.limit()
    &&& forall|x: int|
        before.contains(x) && !(lo <= x < hi) && x != w ==> after.at(x) == before.at(x)
}

/// The words of the header of a block of the pool are words of the arena.
pub proof fn lemma_blk_contained(arena: Arena, b: Seq<Blk>, start: int, end: int, i: int)
    requires
        arena.wf(),
        arena.base() == start,
        arena.limit() == end,
        chain_wf(b, start, end),
        0 <= i < b.len(),
    ensures
        arena.contains(b[i].addr as int),
        arena.contains(b[i].addr + 8),
        arena.contains(b[i].addr + 16),
        arena.contains(b[i].addr + 24),
        b[i].addr >= 32,
{
    lemma_chain_at(b, start, end, i);
    lemma_granule_words(arena, b[i].addr as int, b[i].size as int);
}

/// The first four words of a range of granules in the arena are words of
/// the arena.
pub proof fn lemma_granule_words(arena: Arena, addr: int, size: int)
    requires
        arena.base() <= addr,
        addr + size <= arena.limit(),
        addr % 32 == 0,
        size >= 32,
    ensures
        arena.contains(addr),
        arena.contains(addr + 8),
        arena.contains(addr + 16),
        arena.contains(addr + 24),
{
}

/// The word before the payload of a used block of the pool is a word of
/// the arena, inside the block and behind its header.
#[verifier::rlimit(50)]
pub proof fn lemma_used_contained(arena: Arena, b: Seq<Blk>, start: int, end: int, i: int)
    requires
        arena.wf(),
        arena.base() == start,
        arena.limit() == end,
        chain_wf(b, start, end),
        0 <= i < b.len(),
        b[i].used,
    ensures
        arena.contains(b[i].payload - 8),
        b[i].addr + 16 <= b[i].payload < b[i].addr + b[i].size,
        b[i].align >= 32 ==> b[i].addr + 32 <= b[i].payload,
        b[i].align < 32 ==> b[i].addr + 16 == b[i].payload,
{
    lemma_chain_at(b, start, end, i);
    lemma_payload_at(b[i].addr as int, b[i].align as int);
    lemma_word_inside(arena, b[i].addr as int, b[i].size as int, b[i].payload - 8);
}

/// A word boundary inside a range of the arena is a word of the arena.
pub proof fn lemma_word_inside(arena: Arena, addr: int, size: int, x: int)
    requires
        arena.base() <= addr,
        addr + size <= arena.limit(),
        addr <= x,
        x + 8 <= addr + size,
        x % 8 == 0,
    ensures
        arena.contains(x),
{
}

/// A power of two below 32 is 1, 2, 4, 8 or 16.
pub proof fn lemma_pow2_below_32(a: int)
    requires
        is_power_of_two(a),
        a < 32,
    ensures
        a == 1 || a == 2 || a == 4 || a == 8 || a == 16,
{
    reveal_with_fuel(is_power_of_two, 6);
}

/// The payload of a block that is aligned to 16 bytes or less lies right
/// behind the header.
pub proof fn lemma_payload_small(addr: int, align: int)
    requires
        addr >= 0,
        addr % 32 == 0,
        align == 1 || align == 2 || align == 4 || align == 8 || align == 16,
    ensures
        payload_at(addr, align) == addr + 16,
{
    if align == 1 {
        assert((addr + 16) % 1 == 0);
    } else if align == 2 {
        assert((addr + 16) % 2 == 0);
    } else if align == 4 {
        assert((addr + 16) % 4 == 0);
    } else if align == 8 {
        assert((addr + 16) % 8 == 0);
    } else {
        assert((addr + 16) % 16 == 0);
    }
    lemma_align_up(addr + 16, align);
}

/// The payload of a block that is aligned to a granule or more lies on a
/// granule boundary behind the first granule of the block, the alignment
/// behind the block at most.
pub proof fn lemma_payload_large(addr: int, align: int)
    requires
        addr >= 0,
        addr % 32 == 0,
        is_power_of_two(align),
        align >= 32,
    ensures
        payload_at(addr, align) >= addr + 32,
        payload_at(addr, align) % 32 == 0,
        payload_at(addr, align) % align == 0,
        payload_at(addr, align) - addr <= align,
{
    lemma_align_up(addr + 16, align);
    lemma_pow2_multiple_of_32(align);
    lemma_multiple_of_32(payload_at(addr, align), align);
    let d = payload_at(addr, align) - addr;
    assert(d % 32 == 0);
    assert(align % 32 == 0);
    assert(16 <= d < 16 + align);
}

/// Where the payload of a block lies: right behind the header for an
/// alignment of 16 bytes or less, and on the next boundary of the
/// alignment, with room for the back-pointer, for an alignment of a
/// granule or more.
pub proof fn lemma_payload_at(addr: int, align: int)
    requires
        addr >= 0,
        addr % 32 == 0,
        is_power_of_two(align),
    ensures
        align < 32 ==> payload_at(addr, align) == addr + 16,
        align >= 32 ==> payload_at(addr, align) >= addr + 32 && payload_at(addr, align) % 32 == 0,
        payload_at(addr, align) % 8 == 0,
        payload_at(addr, align) % align == 0,
        addr + 16 <= payload_at(addr, align),
        payload_at(addr, align) - addr <= if align > 16 {
            align
        } else {
            16
        },
{
    if align >= 32 {
        lemma_payload_large(addr, align);
    } else {
        lemma_pow2_below_32(align);
        lemma_payload_small(addr, align);
        lemma_align_up(addr + 16, align);
    }
}

/// A power of two from 32 up is a multiple of 32.
pub proof fn lemma_pow2_multiple_of_32(a: int)
    requires
        is_power_of_two(a),
        a >= 32,
    ensures
        a % 32 == 0,
{
    reveal_with_fuel(is_power_of_two, 6);
}

/// A multiple of a multiple of 32 is a multiple of 32.
pub proof fn lemma_multiple_of_32(x: int, a: int)
    requires
        a > 0,
        a % 32 == 0,
        x % a == 0,
    ensures
        x % 32 == 0,
{
    vstd::arithmetic::div_mod::lemma_fundamental_div_mod(x, a);
    vstd::arithmetic::div_mod::lemma_fundamental_div_mod(a, 32);
    let q = x / a;
    let r = a / 32;
    assert(x == 32 * (r * q)) by (nonlinear_arith)
        requires
            x == a * q,
            a == 32 * r,
    ;
    vstd::arithmetic::div_mod::lemma_mod_multiples_basic(r * q, 32);
    assert(32 * (r * q) == (r * q) * 32);
}

/// The block that serves a request is no larger than the size that was
/// searched for.
pub proof fn lemma_needed_size(addr: int, size: int, align: int)
    requires
        addr >= 0,
        addr % 32 == 0,
        size >= 0,
        is_power_of_two(align),
    ensures
        32 <= needed_size(addr, size, align) <= search_size(size, align),
        needed_size(addr, size, align) % 32 == 0,
        payload_at(addr, align) + size <= addr + needed_size(addr, size, align),
        search_size(size, align) % 32 == 0,
{
    lemma_payload_at(addr, align);
    let over = payload_at(addr, align) - addr;
    let most = if align > 16 {
        align
    } else {
        16
    };
    lemma_align_up(over + size, 32);
    lemma_align_up(size + most, 32);
    lemma_align_up_monotone(over + size, size + most);
}

/// Rounding up to granules keeps the order of two numbers.
pub proof fn lemma_align_up_monotone(a: int, b: int)
    requires
        0 <= a <= b,
    ensures
        align_up_spec(a, 32) <= align_up_spec(b, 32),
{
    lemma_align_up(a, 32);
    lemma_align_up(b, 32);
}

/// Sums and differences of granule boundaries are granule boundaries.
pub proof fn lemma_granule_sum(a: int, t: int)
    requires
        a % 32 == 0,
        t % 32 == 0,
    ensures
        (a + t) % 32 == 0,
        (a - t) % 32 == 0,
{
}

/// After a free block was put to use the block at index `j` of the new
/// chain is well-formed, and it ends where the block behind it lies.
#[verifier::rlimit(50)]
pub proof fn lemma_alloc_chain_at(
    b: Seq<Blk>,
    start: int,
    end: int,
    i: int,
    taken: int,
    payload: int,
    align: int,
    j: int,
)
    requires
        chain_wf(b, start, end),
        0 <= i < b.len(),
        !b[i].used,
        32 <= taken <= b[i].size,
        taken % 32 == 0,
        is_power_of_two(align),
        payload == payload_at(b[i].addr as int, align),
        payload < b[i].addr + taken,
        align <= usize::MAX,
        0 <= j < chain_after_alloc(b, i, taken, payload, align).len(),
    ensures
        blk_ok(chain_after_alloc(b, i, taken, payload, align)[j]),
        j + 1 < chain_after_alloc(b, i, taken, payload, align).len() ==> link_ok(
            chain_after_alloc(b, i, taken, payload, align),
            j,
        ),
{
    lemma_chain_at(b, start, end, i);
    lemma_payload_at(b[i].addr as int, align);
    lemma_granule_sum(b[i].addr as int, taken);
    lemma_granule_sum(b[i].size as int, taken);
    let b2 = chain_after_alloc(b, i, taken, payload, align);
    let split = taken != b[i].size;
    assert(align > 0) by {
        reveal_with_fuel(is_power_of_two, 1);
    }
    let used = Blk {
        addr: b[i].addr,
        size: taken as usize,
        used: true,
        payload: payload as usize,
        align: align as usize,
    };
    let j0 = if split && j > i {
        j - 1
    } else {
        j
    };
    lemma_chain_at(b, start, end, j0);
    if j == i {
        assert(b2[i] == used);
        if split {
            assert(b2[i + 1].addr == b[i].addr + taken);
        } else if i + 1 < b.len() {
            assert(b2[i + 1] == b[i + 1]);
        }
    } else if split && j == i + 1 {
        assert(b2[j].addr == b[i].addr + taken);
        assert(b2[j].size == b[i].size - taken);
        assert(!b2[j].used);
        if j + 1 < b2.len() {
            assert(b2[j + 1] == b[i + 1]);
        }
    } else {
        assert(b2[j] == b[j0]);
        if j + 1 < b2.len() {
            if j + 1 == i {
                assert(b2[j + 1] == used);
            } else {
                assert(b2[j + 1] == b[j0 + 1]);
            }
        }
    }
}

/// A free block that is put to use leaves a chain.
pub proof fn lemma_alloc_chain(
    b: Seq<Blk>,
    start: int,
    end: int,
    i: int,
    taken: int,
    payload: int,
    align: int,
)
    requires
        chain_wf(b, start, end),
        0 <= i < b.len(),
        !b[i].used,
        32 <= taken <= b[i].size,
        taken % 32 == 0,
        is_power_of_two(align),
        payload == payload_at(b[i].addr as int, align),
        payload < b[i].addr + taken,
        align <= usize::MAX,
    ensures
        chain_wf(chain_after_alloc(b, i, taken, payload, align), start, end),
{
    let b2 = chain_after_alloc(b, i, taken, payload, align);
    assert forall|j: int| 0 <= j < b2.len() implies #[trigger] blk_ok(b2[j]) by {
        lemma_alloc_chain_at(b, start, end, i, taken, payload, align, j);
    }
    assert forall|j: int| 0 <= j && j + 1 < b2.len() implies #[trigger] link_ok(b2, j) by {
        lemma_alloc_chain_at(b, start, end, i, taken, payload, align, j);
    }
    lemma_alloc_chain_at(b, start, end, i, taken, payload, align, 0);
    lemma_alloc_chain_at(b, start, end, i, taken, payload, align, b2.len() - 1);
    lemma_chain_at(b, start, end, 0);
    lemma_chain_at(b, start, end, b.len() - 1);
    lemma_chain_at(b, start, end, i);
    assert(b2[0].addr == start);
    assert(b2.last().addr + b2.last().size == end) by {
        let split = taken != b[i].size;
        if i == b.len() - 1 {
            if split {
                assert(b2.last().addr == b[i].addr + taken);
                assert(b2.last().size == b[i].size - taken);
            } else {
                assert(b2.last().addr == b[i].addr);
                assert(b2.last().size == taken);
            }
        } else {
            assert(b2.last() == b.last());
        }
    }
    reveal(chain_wf);
}

/// A free block that is put to use adds its size to the used bytes, and
/// the blocks beside it are blocks of the new chain.
pub proof fn lemma_alloc_pure(
    b: Seq<Blk>,
    start: int,
    end: int,
    i: int,
    taken: int,
    payload: int,
    align: int,
)
    requires
        chain_wf(b, start, end),
        0 <= i < b.len(),
        !b[i].used,
        32 <= taken <= b[i].size,
        taken % 32 == 0,
        is_power_of_two(align),
        payload == payload_at(b[i].addr as int, align),
        payload < b[i].addr + taken,
        align <= usize::MAX,
    ensures
        chain_wf(chain_after_alloc(b, i, taken, payload, align), start, end),
        used_total(chain_after_alloc(b, i, taken, payload, align)) == used_total(b) + taken,
        forall|j: int|
            0 <= j < b.len() && j != i ==> #[trigger] has_blk(
                chain_after_alloc(b, i, taken, payload, align),
                b[j],
            ),
{
    lemma_alloc_chain(b, start, end, i, taken, payload, align);
    lemma_chain_at(b, start, end, i);
    let b2 = chain_after_alloc(b, i, taken, payload, align);
    let used = Blk {
        addr: b[i].addr,
        size: taken as usize,
        used: true,
        payload: payload as usize,
        align: align as usize,
    };
    let split = taken != b[i].size;
    let b1 = b.update(i, used);
    lemma_used_total_update(b, i, used);
    if split {
        lemma_used_total_insert(b1, i + 1, b2[i + 1]);
    }
    assert forall|j: int| 0 <= j < b.len() && j != i implies #[trigger] has_blk(b2, b[j]) by {
        let k = if split && j > i {
            j + 1
        } else {
            j
        };
        assert(b2[k] == b[j]);
    }
}

/// A block that is marked as free leaves a chain; the blocks beside it
/// stay, and the used bytes shrink by its size.
pub proof fn lemma_flag_pure(b: Seq<Blk>, start: int, end: int, i: int)
    requires
        chain_wf(b, start, end),
        0 <= i < b.len(),
        b[i].used,
    ensures
        chain_wf(b.update(i, free_blk(b, i)), start, end),
        used_total(b.update(i, free_blk(b, i))) == used_total(b) - b[i].size,
{
    let b2 = b.update(i, free_blk(b, i));
    lemma_used_total_update(b, i, free_blk(b, i));
    reveal(chain_wf);
    assert forall|j: int| 0 <= j < b2.len() implies #[trigger] blk_ok(b2[j]) by {
        assert(blk_ok(b[j]));
    }
    assert forall|j: int| 0 <= j && j + 1 < b2.len() implies #[trigger] link_ok(b2, j) by {
        assert(link_ok(b, j));
    }
}

/// Two free blocks that are merged leave a chain.
pub proof fn lemma_merge_chain(b: Seq<Blk>, start: int, end: int, i: int)
    requires
        chain_wf(b, start, end),
        0 <= i,
        i + 1 < b.len(),
        !b[i].used,
        !b[i + 1].used,
    ensures
        chain_wf(chain_merged(b, i), start, end),
        b[i].size + b[i + 1].size <= usize::MAX,
{
    lemma_chain_at(b, start, end, i);
    lemma_chain_at(b, start, end, i + 1);
    let b2 = chain_merged(b, i);
    reveal(chain_wf);
    assert forall|j: int| 0 <= j < b2.len() implies #[trigger] blk_ok(b2[j]) by {
        let j0 = if j > i {
            j + 1
        } else {
            j
        };
        assert(blk_ok(b[j0]));
    }
    assert forall|j: int| 0 <= j && j + 1 < b2.len() implies #[trigger] link_ok(b2, j) by {
        let j0 = if j > i {
            j + 1
        } else {
            j
        };
        assert(link_ok(b, j0));
        if j == i {
            assert(link_ok(b, i + 1));
        }
    }
    if b2.len() > 0 {
        assert(b2[b2.len() - 1] == if i + 2 == b.len() {
            b2[i]
        } else {
            b[b.len() - 1]
        });
    }
}

/// Two free blocks that are merged keep the used bytes, and the other
/// blocks are blocks of the new chain.
pub proof fn lemma_merge_pure(b: Seq<Blk>, start: int, end: int, i: int)
    requires
        chain_wf(b, start, end),
        0 <= i,
        i + 1 < b.len(),
        !b[i].used,
        !b[i + 1].used,
    ensures
        chain_wf(chain_merged(b, i), start, end),
        used_total(chain_merged(b, i)) == used_total(b),
        b[i].size + b[i + 1].size <= usize::MAX,
        forall|j: int|
            0 <= j < b.len() && j != i && j != i + 1 ==> #[trigger] has_blk(chain_merged(b, i), b[j]),
{
    lemma_merge_chain(b, start, end, i);
    let m = Blk {
        addr: b[i].addr,
        size: (b[i].size + b[i + 1].size) as usize,
        used: false,
        payload: 0,
        align: 0,
    };
    let b1 = b.update(i, m);
    let b2 = chain_merged(b, i);
    lemma_used_total_update(b, i, m);
    lemma_used_total_remove(b1, i + 1);
    assert forall|j: int| 0 <= j < b.len() && j != i && j != i + 1 implies #[trigger] has_blk(
        b2,
        b[j],
    ) by {
        let k = if j > i {
            j - 1
        } else {
            j
        };
        assert(b2[k] == b[j]);
    }
}

/// A member that leaves the free lists leaves the other members as they
/// are, and is one free block more that is no member.
pub proof fn lemma_unlist(b: Seq<Blk>, m: Map<usize, int>, a: usize, but: Set<usize>)
    requires
        members_ok(b, m),
        all_listed(b, m, but),
    ensures
        members_ok(b, m.remove(a)),
        all_listed(b, m.remove(a), but.insert(a)),
{
    reveal(members_ok);
    reveal(all_listed);
    let m2 = m.remove(a);
    assert forall|x: usize| #[trigger] m2.contains_key(x) implies exists|i: int|
        0 <= i < b.len() && (#[trigger] b[i]).addr == x && !b[i].used && has_key(
            b[i].size as int,
            m2[x],
        ) by {
        assert(m.contains_key(x));
    }
}

/// A free block that enters the free lists in the class of its size is a
/// member like the others.
pub proof fn lemma_list(b: Seq<Blk>, m: Map<usize, int>, i: int, key: int, but: Set<usize>)
    requires
        members_ok(b, m),
        all_listed(b, m, but),
        0 <= i < b.len(),
        !b[i].used,
        has_key(b[i].size as int, key),
    ensures
        members_ok(b, m.insert(b[i].addr, key)),
        all_listed(b, m.insert(b[i].addr, key), but.remove(b[i].addr)),
{
    reveal(members_ok);
    reveal(all_listed);
    let m2 = m.insert(b[i].addr, key);
    assert forall|x: usize| #[trigger] m2.contains_key(x) implies exists|j: int|
        0 <= j < b.len() && (#[trigger] b[j]).addr == x && !b[j].used && has_key(
            b[j].size as int,
            m2[x],
        ) by {
        if x == b[i].addr {
            assert(b[i].addr == x);
        } else {
            assert(m.contains_key(x));
        }
    }
}

/// After a free block that is no member was put to use, the members are
/// as they were, and what is left of the block is the one free block that
/// is no member.
pub proof fn lemma_alloc_listed(
    b: Seq<Blk>,
    start: int,
    end: int,
    m: Map<usize, int>,
    i: int,
    taken: int,
    payload: int,
    align: int,
)
    requires
        chain_wf(b, start, end),
        0 <= i < b.len(),
        !b[i].used,
        32 <= taken <= b[i].size,
        taken % 32 == 0,
        is_power_of_two(align),
        payload == payload_at(b[i].addr as int, align),
        payload < b[i].addr + taken,
        align <= usize::MAX,
        members_ok(b, m),
        !m.contains_key(b[i].addr),
        all_listed(b, m, set![b[i].addr]),
    ensures
        members_ok(chain_after_alloc(b, i, taken, payload, align), m),
        all_listed(
            chain_after_alloc(b, i, taken, payload, align),
            m,
            if taken != b[i].size {
                set![(b[i].addr + taken) as usize]
            } else {
                Set::<usize>::empty()
            },
        ),
{
    let b2 = chain_after_alloc(b, i, taken, payload, align);
    lemma_alloc_pure(b, start, end, i, taken, payload, align);
    assert forall|j: int| 0 <= j < b.len() && m.contains_key(b[j].addr) implies #[trigger] has_blk(
        b2,
        b[j],
    ) by {
        assert(j != i);
    }
    lemma_members_kept(b, b2, m);
    reveal(all_listed);
    let split = taken != b[i].size;
    let but = if taken != b[i].size {
        set![(b[i].addr + taken) as usize]
    } else {
        Set::<usize>::empty()
    };
    assert forall|j: int|
        0 <= j < b2.len() && !(#[trigger] b2[j]).used && !but.contains(b2[j].addr) implies m.contains_key(
        b2[j].addr,
    ) by {
        let j0 = if split && j > i {
            j - 1
        } else {
            j
        };
        if j == i {
        } else if split && j == i + 1 {
        } else {
            assert(b2[j] == b[j0]);
            lemma_chain_unique_ne(b, start, end, i, j0);
        }
    }
}

/// Two blocks of a chain at two indices have two addresses.
pub proof fn lemma_chain_unique_ne(b: Seq<Blk>, start: int, end: int, i: int, j: int)
    requires
        chain_wf(b, start, end),
        0 <= i < b.len(),
        0 <= j < b.len(),
        i != j,
    ensures
        b[i].addr != b[j].addr,
{
    if b[i].addr == b[j].addr {
        lemma_chain_unique(b, start, end, i, j);
    }
}

/// After a used block was marked as free, the members are as they were,
/// and the block is the one free block that is no member.
pub proof fn lemma_flag_listed(b: Seq<Blk>, start: int, end: int, m: Map<usize, int>, i: int)
    requires
        chain_wf(b, start, end),
        0 <= i < b.len(),
        b[i].used,
        members_ok(b, m),
        all_listed(b, m, Set::<usize>::empty()),
    ensures
        members_ok(b.update(i, free_blk(b, i)), m),
        all_listed(b.update(i, free_blk(b, i)), m, set![b[i].addr]),
        !m.contains_key(b[i].addr),
{
    let b2 = b.update(i, free_blk(b, i));
    if m.contains_key(b[i].addr) {
        let j = lemma_member(b, m, b[i].addr);
        lemma_chain_unique(b, start, end, i, j);
    }
    assert forall|j: int| 0 <= j < b.len() && m.contains_key(b[j].addr) implies #[trigger] has_blk(
        b2,
        b[j],
    ) by {
        lemma_chain_unique_ne(b, start, end, i, j);
        assert(b2[j] == b[j]);
    }
    lemma_members_kept(b, b2, m);
    reveal(all_listed);
    assert forall|j: int|
        0 <= j < b2.len() && !(#[trigger] b2[j]).used && !set![b[i].addr].contains(
            b2[j].addr,
        ) implies m.contains_key(b2[j].addr) by {
        if j != i {
            assert(b2[j] == b[j]);
        }
    }
}

/// After two free blocks that are no members were merged, the members are
/// as they were, and the merged block is the one free block that is no
/// member.
pub proof fn lemma_merge_listed(b: Seq<Blk>, start: int, end: int, m: Map<usize, int>, i: int)
    requires
        chain_wf(b, start, end),
        0 <= i,
        i + 1 < b.len(),
        !b[i].used,
        !b[i + 1].used,
        members_ok(b, m),
        !m.contains_key(b[i].addr),
        !m.contains_key(b[i + 1].addr),
        all_listed(b, m, set![b[i].addr, b[i + 1].addr]),
    ensures
        members_ok(chain_merged(b, i), m),
        all_listed(chain_merged(b, i), m, set![b[i].addr]),
{
    let b2 = chain_merged(b, i);
    lemma_merge_pure(b, start, end, i);
    assert forall|j: int| 0 <= j < b.len() && m.contains_key(b[j].addr) implies #[trigger] has_blk(
        b2,
        b[j],
    ) by {
        assert(j != i && j != i + 1);
    }
    lemma_members_kept(b, b2, m);
    reveal(all_listed);
    assert forall|j: int|
        0 <= j < b2.len() && !(#[trigger] b2[j]).used && !set![b[i].addr].contains(
            b2[j].addr,
        ) implies m.contains_key(b2[j].addr) by {
        let j0 = if j > i {
            j + 1
        } else {
            j
        };
        if j != i {
            assert(b2[j] == b[j0]);
            lemma_chain_unique_ne(b, start, end, i, j0);
            lemma_chain_unique_ne(b, start, end, i + 1, j0);
        }
    }
}

/// The arena after the free block at index `i` was put to use: the header
/// and the back-pointer of the used block are in place, what is left is
/// recorded behind it, the block behind points back to what is left, and
/// no word outside the block and that pointer has changed.
pub open spec fn alloc_from(
    after: Arena,
    before: Arena,
    b: Seq<Blk>,
    i: int,
    taken: int,
    payload: int,
    align: int,
) -> bool {
    let x = b[i];
    let split = taken != x.size;
    let rest = x.addr + taken;
    &&& after.at(x.addr as int) == taken + 1
    &&& after.at(x.addr + 8) == prev_addr(b, i)
    &&& align >= 32 ==> after.at(payload - 8) == x.addr
    &&& split ==> after.at(rest) == x.size - taken && after.at(rest + 8) == x.addr
    &&& split && i + 1 < b.len() ==> after.at(b[i + 1].addr + 8) == rest
    &&& changed_in(
        after,
        before,
        x.addr as int,
        x.addr + x.size,
        if split && i + 1 < b.len() {
            b[i + 1].addr + 8
        } else {
            0
        },
    )
}

/// A block beside a range of the arena that changes keeps its header and
/// its back-pointer.
pub proof fn lemma_blk_kept(
    after: Arena,
    before: Arena,
    b: Seq<Blk>,
    start: int,
    end: int,
    j: int,
    lo: int,
    hi: int,
    w: int,
)
    requires
        before.wf(),
        before.base() == start,
        before.limit() == end,
        chain_wf(b, start, end),
        0 <= j < b.len(),
        blk_recorded(before, b, j),
        changed_in(after, before, lo, hi, w),
        hi <= b[j].addr || b[j].addr + b[j].size <= lo,
        w != b[j].addr,
        !(b[j].addr + 16 <= w < b[j].addr + b[j].size),
    ensures
        after.at(b[j].addr as int) == hdr_word(b[j]),
        w != b[j].addr + 8 ==> after.at(b[j].addr + 8) == prev_addr(b, j),
        b[j].used && b[j].align >= 32 ==> after.at(b[j].payload - 8) == b[j].addr,
{
    lemma_blk_contained(before, b, start, end, j);
    lemma_chain_at(b, start, end, j);
    let x = b[j].addr as int;
    assert(after.at(x) == before.at(x));
    if w != x + 8 {
        assert(after.at(x + 8) == before.at(x + 8));
    }
    if b[j].used && b[j].align >= 32 {
        lemma_used_contained(before, b, start, end, j);
        let y = b[j].payload - 8;
        assert(after.at(y) == before.at(y));
    }
}

/// After a block was put to use the block at index `j` of the new chain
/// is recorded.
pub proof fn lemma_alloc_recorded_at(
    after: Arena,
    before: Arena,
    b: Seq<Blk>,
    start: int,
    end: int,
    i: int,
    taken: int,
    payload: int,
    align: int,
    j: int,
)
    requires
        before.wf(),
        before.base() == start,
        before.limit() == end,
        chain_wf(b, start, end),
        chain_recorded(before, b),
        0 <= i < b.len(),
        !b[i].used,
        32 <= taken <= b[i].size,
        taken % 32 == 0,
        is_power_of_two(align),
        payload == payload_at(b[i].addr as int, align),
        payload < b[i].addr + taken,
        align <= usize::MAX,
        alloc_from(after, before, b, i, taken, payload, align),
        0 <= j < chain_after_alloc(b, i, taken, payload, align).len(),
    ensures
        blk_recorded(after, chain_after_alloc(b, i, taken, payload, align), j),
{
    let b2 = chain_after_alloc(b, i, taken, payload, align);
    let split = taken != b[i].size;
    let x = b[i];
    lemma_chain_at(b, start, end, i);
    lemma_payload_at(x.addr as int, align);
    assert(align > 0) by {
        reveal_with_fuel(is_power_of_two, 1);
    }
    let w = if split && i + 1 < b.len() {
        b[i + 1].addr + 8
    } else {
        0
    };
    let used = Blk {
        addr: x.addr,
        size: taken as usize,
        used: true,
        payload: payload as usize,
        align: align as usize,
    };
    let b1 = b.update(i, used);
    if j == i {
        assert(b2[i] == used);
        if i > 0 {
            assert(b2[i - 1] == b[i - 1]);
        }
        assert(prev_addr(b2, i) == prev_addr(b, i));
    } else if split && j == i + 1 {
        assert(b2[i] == used);
        assert(b2[i + 1].addr == x.addr + taken);
        assert(b2[i + 1].size == x.size - taken);
        assert(!b2[i + 1].used);
        assert(prev_addr(b2, j) == x.addr);
    } else {
        let j0 = if split && j > i {
            j - 1
        } else {
            j
        };
        assert(b2[j] == b[j0]);
        assert(blk_recorded(before, b, j0)) by {
            reveal(chain_recorded);
        }
        lemma_chain_at(b, start, end, j0);
        if i + 1 < b.len() {
            lemma_chain_at(b, start, end, i + 1);
        }
        if j0 < i {
            lemma_chain_sorted(b, start, end, j0, i);
            assert(prev_addr(b2, j) == prev_addr(b, j0));
        } else {
            lemma_chain_sorted(b, start, end, i, j0);
            if j0 == i + 1 {
                assert(prev_addr(b2, j) == if split {
                    x.addr + taken
                } else {
                    x.addr as int
                });
            } else {
                lemma_chain_sorted(b, start, end, i + 1, j0);
                assert(prev_addr(b2, j) == prev_addr(b, j0));
            }
        }
        lemma_blk_kept(after, before, b, start, end, j0, x.addr as int, x.addr + x.size, w);
    }
}

/// After a block was put to use the new chain is recorded.
pub proof fn lemma_alloc_recorded(
    after: Arena,
    before: Arena,
    b: Seq<Blk>,
    start: int,
    end: int,
    i: int,
    taken: int,
    payload: int,
    align: int,
)
    requires
        before.wf(),
        before.base() == start,
        before.limit() == end,
        chain_wf(b, start, end),
        chain_recorded(before, b),
        0 <= i < b.len(),
        !b[i].used,
        32 <= taken <= b[i].size,
        taken % 32 == 0,
        is_power_of_two(align),
        payload == payload_at(b[i].addr as int, align),
        payload < b[i].addr + taken,
        align <= usize::MAX,
        alloc_from(after, before, b, i, taken, payload, align),
    ensures
        chain_recorded(after, chain_after_alloc(b, i, taken, payload, align)),
{
    let b2 = chain_after_alloc(b, i, taken, payload, align);
    assert forall|j: int| 0 <= j < b2.len() implies #[trigger] blk_recorded(after, b2, j) by {
        lemma_alloc_recorded_at(after, before, b, start, end, i, taken, payload, align, j);
    }
    reveal(chain_recorded);
}

/// The arena after the header of the block at index `i` was set to say
/// that the block is free.
pub open spec fn flag_from(after: Arena, before: Arena, b: Seq<Blk>, i: int) -> bool {
    &&& after.at(b[i].addr as int) == b[i].size
    &&& changed_in(after, before, b[i].addr as int, b[i].addr + 8, 0)
}

/// After a block was marked as free the new chain is recorded.
pub proof fn lemma_flag_recorded(
    after: Arena,
    before: Arena,
    b: Seq<Blk>,
    start: int,
    end: int,
    i: int,
)
    requires
        before.wf(),
        before.base() == start,
        before.limit() == end,
        chain_wf(b, start, end),
        chain_recorded(before, b),
        0 <= i < b.len(),
        flag_from(after, before, b, i),
    ensures
        chain_recorded(after, b.update(i, free_blk(b, i))),
{
    let b2 = b.update(i, free_blk(b, i));
    assert forall|j: int| 0 <= j < b2.len() implies #[trigger] blk_recorded(after, b2, j) by {
        assert(blk_recorded(before, b, j)) by {
            reveal(chain_recorded);
        }
        lemma_chain_at(b, start, end, j);
        lemma_chain_at(b, start, end, i);
        lemma_blk_contained(before, b, start, end, j);
        assert(prev_addr(b2, j) == prev_addr(b, j));
        if j < i {
            lemma_chain_sorted(b, start, end, j, i);
            lemma_blk_kept(after, before, b, start, end, j, b[i].addr as int, b[i].addr + 8, 0);
        } else if j > i {
            lemma_chain_sorted(b, start, end, i, j);
            lemma_blk_kept(after, before, b, start, end, j, b[i].addr as int, b[i].addr + 8, 0);
        } else {
            let y = b[i].addr + 8;
            assert(after.at(y) == before.at(y));
        }
    }
    reveal(chain_recorded);
}

/// The arena after the block at index `i` took over the block behind it.
pub open spec fn merge_from(after: Arena, before: Arena, b: Seq<Blk>, i: int) -> bool {
    &&& after.at(b[i].addr as int) == b[i].size + b[i + 1].size
    &&& i + 2 < b.len() ==> after.at(b[i + 2].addr + 8) == b[i].addr
    &&& changed_in(
        after,
        before,
        b[i].addr as int,
        b[i].addr + 8,
        if i + 2 < b.len() {
            b[i + 2].addr + 8
        } else {
            0
        },
    )
}

/// After two free blocks were merged the block at index `j` of the new
/// chain is recorded.
pub proof fn lemma_merge_recorded_at(
    after: Arena,
    before: Arena,
    b: Seq<Blk>,
    start: int,
    end: int,
    i: int,
    j: int,
)
    requires
        before.wf(),
        before.base() == start,
        before.limit() == end,
        chain_wf(b, start, end),
        chain_recorded(before, b),
        0 <= i,
        i + 1 < b.len(),
        !b[i].used,
        !b[i + 1].used,
        merge_from(after, before, b, i),
        0 <= j < b.len() - 1,
    ensures
        blk_recorded(after, chain_merged(b, i), j),
{
    let b2 = chain_merged(b, i);
    lemma_chain_at(b, start, end, i);
    lemma_chain_at(b, start, end, i + 1);
    let j0 = if j > i {
        j + 1
    } else {
        j
    };
    assert(blk_recorded(before, b, j0)) by {
        reveal(chain_recorded);
    }
    assert(blk_recorded(before, b, i)) by {
        reveal(chain_recorded);
    }
    lemma_chain_at(b, start, end, j0);
    lemma_blk_contained(before, b, start, end, j0);
    lemma_blk_contained(before, b, start, end, i);
    if i + 2 < b.len() {
        lemma_chain_at(b, start, end, i + 2);
    }
    let w = if i + 2 < b.len() {
        b[i + 2].addr + 8
    } else {
        0
    };
    if j == i {
        assert(prev_addr(b2, i) == prev_addr(b, i));
        let y = b[i].addr + 8;
        assert(after.at(y) == before.at(y));
    } else {
        assert(b2[j] == b[j0]);
        if j0 < i {
            lemma_chain_sorted(b, start, end, j0, i);
            assert(prev_addr(b2, j) == prev_addr(b, j0));
        } else {
            lemma_chain_sorted(b, start, end, i + 1, j0);
            lemma_chain_sorted(b, start, end, i, j0);
            if j0 == i + 2 {
                assert(prev_addr(b2, j) == b[i].addr);
            } else {
                lemma_chain_sorted(b, start, end, i + 2, j0);
                assert(prev_addr(b2, j) == prev_addr(b, j0));
            }
        }
        lemma_blk_kept(after, before, b, start, end, j0, b[i].addr as int, b[i].addr + 8, w);
    }
}

/// After two free blocks were merged the new chain is recorded.
pub proof fn lemma_merge_recorded(
    after: Arena,
    before: Arena,
    b: Seq<Blk>,
    start: int,
    end: int,
    i: int,
)
    requires
        before.wf(),
        before.base() == start,
        before.limit() == end,
        chain_wf(b, start, end),
        chain_recorded(before, b),
        0 <= i,
        i + 1 < b.len(),
        !b[i].used,
        !b[i + 1].used,
        merge_from(after, before, b, i),
    ensures
        chain_recorded(after, chain_merged(b, i)),
{
    let b2 = chain_merged(b, i);
    assert forall|j: int| 0 <= j < b2.len() implies #[trigger] blk_recorded(after, b2, j) by {
        lemma_merge_recorded_at(after, before, b, start, end, i, j);
    }
    reveal(chain_recorded);
}

/// The lowest key from `from` on whose list holds a block.
pub open spec fn lowest_class(v: Seq<Seq<usize>>, from: int) -> Option<int>
    decreases CLASSES - from,
{
    if from < 0 || from >= CLASSES {
        None
    } else if v[from].len() > 0 {
        Some(from)
    } else {
        lowest_class(v, from + 1)
    }
}

/// The lowest key is the key before which every list is empty.
pub proof fn lemma_lowest_class(v: Seq<Seq<usize>>, from: int, found: Option<int>)
    requires
        0 <= from,
        match found {
            Some(key) => from <= key < CLASSES && v[key].len() > 0 && forall|c: int|
                from <= c < key ==> v[c].len() == 0,
            None => forall|c: int| from <= c < CLASSES ==> v[c].len() == 0,
        },
    ensures
        lowest_class(v, from) == found,
    decreases CLASSES - from,
{
    if from < CLASSES {
        if v[from].len() == 0 {
            lemma_lowest_class(v, from + 1, found);
        }
    }
}

/// The index of the block at `addr`.
pub open spec fn index_of(b: Seq<Blk>, addr: int) -> int {
    choose|i: int| 0 <= i < b.len() && (#[trigger] b[i]).addr == addr
}

/// The index of the block whose payload is at `ptr`.
pub open spec fn index_of_payload(b: Seq<Blk>, ptr: int) -> int {
    choose|i: int| 0 <= i < b.len() && (#[trigger] b[i]).used && b[i].payload == ptr
}

/// The lowest key that is found lies from `from` on, and its list holds a
/// block.
pub proof fn lemma_lowest_class_found(v: Seq<Seq<usize>>, from: int)
    ensures
        lowest_class(v, from) matches Some(key) ==> from <= key < CLASSES && v[key].len() > 0,
    decreases CLASSES - from,
{
    if 0 <= from < CLASSES && v[from].len() == 0 {
        lemma_lowest_class_found(v, from + 1);
    }
}

/// A chain without a used block has no used bytes.
pub proof fn lemma_used_total_none(b: Seq<Blk>)
    requires
        forall|i: int| 0 <= i < b.len() ==> !(#[trigger] b[i]).used,
    ensures
        used_total(b) == 0,
    decreases b.len(),
{
    reveal(used_total);
    if b.len() > 0 {
        assert(!b[b.len() - 1].used);
        let t = b.drop_last();
        assert forall|i: int| 0 <= i < t.len() implies !(#[trigger] t[i]).used by {
            assert(t[i] == b[i]);
        }
        lemma_used_total_none(t);
    }
}

/// A free block and the used blocks together are no more than the pool.
pub proof fn lemma_free_bound(b: Seq<Blk>, start: int, end: int, i: int)
    requires
        chain_wf(b, start, end),
        0 <= i < b.len(),
        !b[i].used,
    ensures
        used_total(b) + b[i].size <= end - start,
{
    lemma_chain_at(b, start, end, i);
    assert(is_power_of_two(1)) by {
        reveal(is_power_of_two);
    }
    lemma_payload_at(b[i].addr as int, 1);
    let p = payload_at(b[i].addr as int, 1);
    lemma_alloc_pure(b, start, end, i, b[i].size as int, p, 1);
    lemma_used_total_bound(chain_after_alloc(b, i, b[i].size as int, p, 1), start, end);
}

/// `addr` is the address of a word of the payload of a used block of the
/// chain.
pub open spec fn word_in_payload(b: Seq<Blk>, addr: int) -> bool {
    exists|i: int|
        0 <= i < b.len() && (#[trigger] b[i]).used && b[i].payload <= addr && addr + 8 <= b[i].addr
            + b[i].size && addr % 8 == 0
}

/// The used block whose payload holds the word at `addr`.
pub open spec fn payload_owner(b: Seq<Blk>, addr: int) -> int {
    choose|i: int|
        0 <= i < b.len() && (#[trigger] b[i]).used && b[i].payload <= addr && addr + 8 <= b[i].addr
            + b[i].size && addr % 8 == 0
}

/// A word of a payload is a word of the arena that lies in no free block
/// and is no word of a header.
pub proof fn lemma_payload_not_header(arena: Arena, b: Seq<Blk>, start: int, end: int, a: int, j: int)
    requires
        arena.wf(),
        arena.base() == start,
        arena.limit() == end,
        chain_wf(b, start, end),
        word_in_payload(b, a),
        0 <= j < b.len(),
    ensures
        arena.contains(a),
        a != b[j].addr,
        a != b[j].addr + 8,
        !b[j].used ==> !(b[j].addr <= a < b[j].addr + b[j].size),
        j != payload_owner(b, a) ==> !(b[j].addr <= a < b[j].addr + b[j].size),
{
    let q = payload_owner(b, a);
    lemma_chain_at(b, start, end, q);
    lemma_chain_at(b, start, end, j);
    lemma_used_contained(arena, b, start, end, q);
    lemma_word_inside(arena, b[q].addr as int, b[q].size as int, a);
    if j < q {
        lemma_chain_sorted(b, start, end, j, q);
    } else if q < j {
        lemma_chain_sorted(b, start, end, q, j);
    }
}

/// A two-level segregated fit allocator over one pool.
pub struct Tlsf {
    arena: Arena,
    start: usize,
    end: usize,
    lists: FreeLists,
    allocated: usize,
    maximum: usize,
    blocks: Ghost<Seq<Blk>>,
}

impl Tlsf {
    /// The blocks of the pool, in address order.
    pub closed spec fn blocks(&self) -> Seq<Blk> {
        self.blocks@
    }

    /// The free lists, by the key of their class.
    pub closed spec fn free_lists(&self) -> Seq<Seq<usize>> {
        self.lists@
    }

    /// Bytes of the pool.
    pub closed spec fn spec_total(&self) -> int {
        self.end - self.start
    }

    /// Bytes in used blocks.
    pub closed spec fn spec_allocated(&self) -> usize {
        self.allocated
    }

    /// The most bytes that were ever in used blocks at one time.
    pub closed spec fn spec_maximum(&self) -> usize {
        self.maximum
    }

    /// Lowest address of the pool.
    pub closed spec fn spec_start(&self) -> usize {
        self.start
    }

    /// The pool is a recorded chain of blocks, and the free lists hold the
    /// free blocks of the chain but those at the addresses of `but`.
    spec fn inv(&self, but: Set<usize>) -> bool {
        &&& self.arena.wf()
        &&& self.arena.base() == self.start
        &&& self.arena.limit() == self.end
        &&& chain_wf(self.blocks@, self.start as int, self.end as int)
        &&& chain_recorded(self.arena, self.blocks@)
        &&& self.lists.wf()
        &&& members_ok(self.blocks@, self.lists.members())
        &&& all_listed(self.blocks@, self.lists.members(), but)
    }

    /// The allocator is consistent: the headers in the pool chain its
    /// blocks in both directions, every free block is in the free list of
    /// the class of its size and in no other, a class has its bit set
    /// where its list holds a block, and the counters agree with the used
    /// blocks.
    pub closed spec fn wf(&self) -> bool {
        &&& self.inv(Set::<usize>::empty())
        &&& self.allocated == used_total(self.blocks@)
        &&& self.allocated <= self.maximum
        &&& self.maximum <= self.end - self.start
    }

    /// An allocator without a pool.
    pub fn new() -> (t: Tlsf)
        ensures
            t.wf(),
            t.blocks() == Seq::<Blk>::empty(),
            t.spec_total() == 0,
            t.spec_allocated() == 0,
            t.spec_maximum() == 0,
    {
        let t = Tlsf {
            arena: Arena::new(0, 0),
            start: 0,
            end: 0,
            lists: FreeLists::new(),
            allocated: 0,
            maximum: 0,
            blocks: Ghost(Seq::empty()),
        };
        proof {
            reveal(chain_wf);
            reveal(chain_recorded);
            reveal(members_ok);
            reveal(all_listed);
            reveal(used_total);
        }
        t
    }

    /// What `insert_free_block_ptr` asks of the memory that it is given: a
    /// start that is not null, an end within the address space, and room
    /// for one granule at least.
    pub open spec fn pool_ok(start_addr: int, size: int) -> bool {
        &&& start_addr > 0
        &&& start_addr + size <= usize::MAX
        &&& align_up_spec(start_addr, 32) + 32 <= start_addr + size
    }

    /// Gives the allocator its pool: the memory of `size` bytes at
    /// `start_addr`, in whole granules, as one free block.
    #[verifier::rlimit(50)]
    pub fn insert_free_block_ptr(&mut self, start_addr: usize, size: usize)
        requires
            old(self).wf(),
            old(self).spec_total() == 0,
            Self::pool_ok(start_addr as int, size as int),
        ensures
            final(self).wf(),
            final(self).spec_start() == align_up_spec(start_addr as int, 32),
            final(self).spec_total() == align_down_spec(
                start_addr + size - final(self).spec_start(),
                32,
            ),
            final(self).blocks() == seq![
                Blk {
                    addr: final(self).spec_start(),
                    size: final(self).spec_total() as usize,
                    used: false,
                    payload: 0,
                    align: 0,
                },
            ],
            final(self).spec_allocated() == 0,
            final(self).spec_maximum() == old(self).spec_maximum(),
    {
        proof {
            lemma_align_up(start_addr as int, 32);
            assert(self.maximum == 0);
        }
        let start: usize = match checked_align_up(start_addr, TLSF_GRANULARITY) {
            Some(a) => a,
            None => start_addr,
        };
        let len: usize = align_down_size(size - (start - start_addr), TLSF_GRANULARITY);
        proof {
            lemma_align_down(size - (start - start_addr), 32);
        }
        let mut arena = Arena::new(start, len);
        arena.write(start, len);
        arena.write(start + 8, 0);
        let key = map_floor(len);
        let ghost blk = Blk { addr: start, size: len, used: false, payload: 0, align: 0 };
        let ghost one = Seq::<Blk>::empty().push(blk);
        let mut lists = FreeLists::new();
        lists.insert(key, start);
        self.arena = arena;
        self.start = start;
        self.end = start + len;
        self.lists = lists;
        self.allocated = 0;
        proof {
            self.blocks@ = one;
            assert(one =~= seq![blk]);
            assert(chain_wf(one, start as int, start + len)) by {
                reveal(chain_wf);
            }
            assert(chain_recorded(self.arena, one)) by {
                reveal(chain_recorded);
                assert(blk_recorded(self.arena, one, 0));
            }
            assert(members_ok(one, self.lists.members())) by {
                reveal(members_ok);
                assert(one[0].addr == start);
            }
            assert(all_listed(one, self.lists.members(), Set::<usize>::empty())) by {
                reveal(all_listed);
            }
            lemma_used_total_insert(Seq::<Blk>::empty(), 0, blk);
            assert(one =~= Seq::<Blk>::empty().insert(0, blk));
            assert(used_total(Seq::<Blk>::empty()) == 0) by {
                reveal(used_total);
            }
        }
    }

    /// The index of the block that serves a request for `size` bytes
    /// aligned to `align`: the block that the lowest class gives out that
    /// holds no block too small and has a block. None where the request is
    /// for no bytes, the search size has no class, or no such class has a
    /// block.
    pub open spec fn choice(&self, size: int, align: int) -> Option<int> {
        let need = search_size(size, align);
        if need > usize::MAX || size == 0 {
            None
        } else {
            match lowest_class(self.free_lists(), crate::tlsf_map::ceil_key(need)) {
                Some(key) => Some(index_of(self.blocks(), self.free_lists()[key].last() as int)),
                None => None,
            }
        }
    }

    /// Allocates a block for `layout`.
    ///
    /// The block is taken from the lowest class whose blocks are all large
    /// enough and which holds a block. What the request does not need of
    /// the block goes back to the free lists as a block of its own. The
    /// address of the payload is returned; none where no class has a block,
    /// and then nothing has changed.
    pub fn allocate(&mut self, layout: &Layout) -> (r: Option<usize>)
        requires
            old(self).wf(),
        ensures
            final(self).wf(),
            final(self).spec_total() == old(self).spec_total(),
            final(self).spec_start() == old(self).spec_start(),
            forall|a: int| #[trigger]
                old(self).in_payload(a) ==> final(self).word(a) == old(self).word(a),
            match r {
                Some(ptr) => {
                    let i = old(self).choice(layout.spec_size() as int, layout.spec_align() as int)->0;
                    let x = old(self).blocks()[i];
                    let taken = needed_size(
                        x.addr as int,
                        layout.spec_size() as int,
                        layout.spec_align() as int,
                    );
                    &&& old(self).choice(layout.spec_size() as int, layout.spec_align() as int) is Some
                    &&& 0 <= i < old(self).blocks().len()
                    &&& !x.used
                    &&& taken <= x.size
                    &&& ptr == payload_at(x.addr as int, layout.spec_align() as int)
                    &&& ptr as int % layout.spec_align() as int == 0
                    &&& final(self).blocks() == chain_after_alloc(
                        old(self).blocks(),
                        i,
                        taken,
                        ptr as int,
                        layout.spec_align() as int,
                    )
                    &&& final(self).spec_allocated() == old(self).spec_allocated() + taken
                    &&& final(self).spec_maximum() == if final(self).spec_allocated() > old(
                        self,
                    ).spec_maximum() {
                        final(self).spec_allocated()
                    } else {
                        old(self).spec_maximum()
                    }
                },
                None => {
                    &&& old(self).choice(layout.spec_size() as int, layout.spec_align() as int) is None
                    &&& *final(self) == *old(self)
                },
            },
    {
        let size: usize = layout.size();
        let align: usize = layout.align();
        let (addr, key) = match self.select(size, align) {
            Some(found) => found,
            None => {
                return None;
            },
        };
        assert(size > 0);
        let ghost b = self.blocks@;
        let ghost m = self.lists.members();
        let ghost i = lemma_member(b, m, addr);
        let ghost st = self.start as int;
        let ghost en = self.end as int;
        proof {
            lemma_chain_at(b, st, en, i);
            assert(index_of(b, addr as int) == i) by {
                let j = index_of(b, addr as int);
                lemma_chain_unique(b, st, en, i, j);
            }
            lemma_needed_size(addr as int, size as int, align as int);
            lemma_unlist(b, m, addr, Set::<usize>::empty());
            assert(Set::<usize>::empty().insert(addr) =~= set![addr]);
        }
        self.lists.remove(key, addr);
        let ghost mid = *self;
        let (payload, _) = self.occupy(addr, size, align, Ghost(i));
        proof {
            assert forall|a: int| #[trigger] old(self).in_payload(a) implies self.word(a) == old(
                self,
            ).word(a) by {
                assert(mid.in_payload(a));
            }
        }
        Some(payload)
    }

    /// Puts the free block at `addr`, which is in no list, to use for
    /// `size` bytes aligned to `align`: writes its headers, puts what is
    /// left of it into the free lists, and counts its bytes. Returns the
    /// address of the payload and the size of the used block.
    fn occupy(&mut self, addr: usize, size: usize, align: usize, Ghost(i): Ghost<int>) -> (r: (
        usize,
        usize,
    ))
        requires
            old(self).inv(set![addr]),
            !old(self).lists.members().contains_key(addr),
            old(self).allocated == used_total(old(self).blocks@),
            old(self).allocated <= old(self).maximum,
            old(self).maximum <= old(self).end - old(self).start,
            0 <= i < old(self).blocks@.len(),
            !old(self).blocks@[i].used,
            addr == old(self).blocks@[i].addr,
            size > 0,
            is_power_of_two(align as int),
            needed_size(addr as int, size as int, align as int) <= old(self).blocks@[i].size,
        ensures
            final(self).wf(),
            final(self).start == old(self).start,
            final(self).end == old(self).end,
            r.0 == payload_at(addr as int, align as int),
            r.1 == needed_size(addr as int, size as int, align as int),
            r.0 as int % align as int == 0,
            final(self).blocks@ == chain_after_alloc(
                old(self).blocks@,
                i,
                r.1 as int,
                r.0 as int,
                align as int,
            ),
            final(self).allocated == old(self).allocated + r.1,
            final(self).maximum == if final(self).allocated > old(self).maximum {
                final(self).allocated
            } else {
                old(self).maximum
            },
            forall|a: int| #[trigger]
                old(self).in_payload(a) ==> final(self).word(a) == old(self).word(a),
            forall|a: int|
                r.0 <= a && a + 8 <= addr + r.1 && a % 8 == 0 ==> #[trigger] final(self).word(a) == old(
                    self,
                ).word(a),
    {
        let ghost b = self.blocks@;
        let ghost st = self.start as int;
        let ghost en = self.end as int;
        proof {
            lemma_chain_at(b, st, en, i);
            lemma_blk_contained(self.arena, b, st, en, i);
            assert(blk_recorded(self.arena, b, i)) by {
                reveal(chain_recorded);
            }
            lemma_needed_size(addr as int, size as int, align as int);
            lemma_payload_at(addr as int, align as int);
        }
        let bs: usize = self.arena.read(addr);
        let (payload, taken) = place(addr, size, align, bs);
        self.occupy_at(addr, payload, taken, align >= TLSF_GRANULARITY, Ghost(align as int), Ghost(i));
        (payload, taken)
    }

    /// Puts the free block at `addr`, which is in no list, to use as a
    /// block of `taken` bytes with its payload at `payload`: writes its
    /// headers, puts what is left of it into the free lists, and counts its
    /// bytes. The back-pointer before the payload is written where
    /// `write_pad` says so; else it is in place already.
    #[verifier::spinoff_prover]
    #[verifier::rlimit(50)]
    fn occupy_at(
        &mut self,
        addr: usize,
        payload: usize,
        taken: usize,
        write_pad: bool,
        Ghost(align): Ghost<int>,
        Ghost(i): Ghost<int>,
    )
        requires
            old(self).inv(set![addr]),
            !old(self).lists.members().contains_key(addr),
            old(self).allocated == used_total(old(self).blocks@),
            old(self).allocated <= old(self).maximum,
            old(self).maximum <= old(self).end - old(self).start,
            0 <= i < old(self).blocks@.len(),
            !old(self).blocks@[i].used,
            addr == old(self).blocks@[i].addr,
            is_power_of_two(align),
            align <= usize::MAX,
            payload == payload_at(addr as int, align),
            payload < addr + taken,
            32 <= taken <= old(self).blocks@[i].size,
            taken % 32 == 0,
            align >= 32 ==> write_pad || old(self).arena.at(payload - 8) == addr,
            write_pad ==> align >= 32,
        ensures
            final(self).wf(),
            final(self).start == old(self).start,
            final(self).end == old(self).end,
            final(self).blocks@ == chain_after_alloc(old(self).blocks@, i, taken as int, payload as int, align),
            final(self).allocated == old(self).allocated + taken,
            final(self).maximum == if final(self).allocated > old(self).maximum {
                final(self).allocated
            } else {
                old(self).maximum
            },
            forall|a: int| #[trigger]
                old(self).in_payload(a) ==> final(self).word(a) == old(self).word(a),
            forall|a: int|
                payload <= a && a + 8 <= addr + taken && a % 8 == 0 ==> #[trigger] final(self).word(a)
                    == old(self).word(a),
    {
        let ghost b = self.blocks@;
        let ghost st = self.start as int;
        let ghost en = self.end as int;
        proof {
            lemma_chain_at(b, st, en, i);
            lemma_blk_contained(self.arena, b, st, en, i);
            assert(blk_recorded(self.arena, b, i)) by {
                reveal(chain_recorded);
            }
            lemma_payload_at(addr as int, align);
        }
        let bs: usize = self.arena.read(addr);
        let ghost before = self.arena;
        proof {
            lemma_word_inside(self.arena, addr as int, bs as int, payload - 8);
            if bs != taken {
                lemma_granule_words(self.arena, addr + taken, bs - taken);
            }
            if i + 1 < b.len() {
                lemma_blk_contained(self.arena, b, st, en, i + 1);
            }
        }
        carve(&mut self.arena, addr, bs, taken, payload, write_pad, self.end);
        proof {
            lemma_carve_keeps_words(self.arena, before, b, st, en, i, payload as int, taken as int);
        }
        let ghost b2 = chain_after_alloc(b, i, taken as int, payload as int, align);
        let ghost m1 = self.lists.members();
        proof {
            self.blocks@ = b2;
            assert(alloc_from(self.arena, before, b, i, taken as int, payload as int, align));
            lemma_alloc_pure(b, st, en, i, taken as int, payload as int, align);
            lemma_alloc_recorded(
                self.arena,
                before,
                b,
                st,
                en,
                i,
                taken as int,
                payload as int,
                align,
            );
            lemma_alloc_listed(b, st, en, m1, i, taken as int, payload as int, align);
            lemma_used_total_bound(b2, st, en);
        }
        if bs != taken {
            let rest: usize = addr + taken;
            let rest_key = map_floor(bs - taken);
            proof {
                assert(b2[i + 1].addr == rest);
                if m1.contains_key(rest) {
                    let j = lemma_member(b, m1, rest);
                    if j < i {
                        lemma_chain_sorted(b, st, en, j, i);
                    } else if j > i {
                        lemma_chain_sorted(b, st, en, i, j);
                    }
                }
                lemma_list(b2, m1, i + 1, rest_key as int, set![rest]);
                assert(set![rest].remove(rest) =~= Set::<usize>::empty());
            }
            self.lists.insert(rest_key, rest);
        }
        self.allocated = self.allocated + taken;
        if self.allocated > self.maximum {
            self.maximum = self.allocated;
        }
    }

    /// Searches the free lists for a block that serves a request for
    /// `size` bytes aligned to `align`; returns the address of the block
    /// and the key of its class.
    fn select(&self, size: usize, align: usize) -> (r: Option<(usize, usize)>)
        requires
            self.wf(),
            is_power_of_two(align as int),
        ensures
            match r {
                Some((addr, key)) => {
                    &&& size > 0
                    &&& self.choice(size as int, align as int) == Some(index_of(self.blocks@, addr as int))
                    &&& key < CLASSES
                    &&& self.lists.members().contains_key(addr)
                    &&& self.lists.members()[addr] == key
                    &&& forall|s: int|
                        s >= 32 && has_key(s, key as int) ==> s >= search_size(size as int, align as int)
                },
                None => self.choice(size as int, align as int) is None,
            },
    {
        if size == 0 {
            return None;
        }
        let most: usize = if align > 16 {
            align
        } else {
            16
        };
        proof {
            lemma_align_up(size + most, 32);
        }
        let sum: usize = match size.checked_add(most) {
            Some(v) => v,
            None => {
                return None;
            },
        };
        let need: usize = match checked_align_up(sum, TLSF_GRANULARITY) {
            Some(v) => v,
            None => {
                return None;
            },
        };
        let from: usize = map_ceil(need);
        let found = self.lists.find(from);
        proof {
            lemma_lowest_class(
                self.lists@,
                from as int,
                match found {
                    Some(k) => Some(k as int),
                    None => None,
                },
            );
        }
        let key: usize = match found {
            Some(k) => k,
            None => {
                return None;
            },
        };
        let addr: usize = self.lists.head(key);
        Some((addr, key))
    }

    /// The word of the pool at `addr`.
    pub closed spec fn word(&self, addr: int) -> usize {
        self.arena.at(addr)
    }

    /// `addr` is the address of a word of the payload of a used block.
    pub open spec fn in_payload(&self, addr: int) -> bool {
        word_in_payload(self.blocks(), addr)
    }

    /// Bytes of the pool.
    pub fn total(&self) -> (r: usize)
        requires
            self.wf(),
        ensures
            r == self.spec_total(),
    {
        proof {
            reveal(chain_wf);
        }
        self.end - self.start
    }

    /// Bytes in used blocks.
    pub fn allocated(&self) -> (r: usize)
        ensures
            r == self.spec_allocated(),
    {
        self.allocated
    }

    /// The most bytes that were ever in used blocks at one time.
    pub fn maximum(&self) -> (r: usize)
        ensures
            r == self.spec_maximum(),
    {
        self.maximum
    }
}

/// Where the payload of a block at `addr` lies and how many bytes of the
/// block a request for `size` bytes aligned to `align` takes.
fn place(addr: usize, size: usize, align: usize, bs: usize) -> (r: (usize, usize))
    requires
        addr % 32 == 0,
        size > 0,
        is_power_of_two(align as int),
        needed_size(addr as int, size as int, align as int) <= bs,
        addr + bs <= usize::MAX,
    ensures
        r.0 == payload_at(addr as int, align as int),
        r.1 == needed_size(addr as int, size as int, align as int),
        addr + 16 <= r.0,
        r.0 < addr + r.1,
        r.0 % 8 == 0,
        r.1 % 32 == 0,
        32 <= r.1 <= bs,
        align >= 32 ==> addr + 32 <= r.0,
{
    proof {
        lemma_needed_size(addr as int, size as int, align as int);
        lemma_payload_at(addr as int, align as int);
        lemma_align_up(payload_at(addr as int, align as int) - addr + size, 32);
        reveal_with_fuel(is_power_of_two, 1);
    }
    let payload: usize = match checked_align_up(addr + TLSF_HDR_SIZE, align) {
        Some(p) => p,
        None => addr,
    };
    let taken: usize = match checked_align_up(payload - addr + size, TLSF_GRANULARITY) {
        Some(t) => t,
        None => bs,
    };
    (payload, taken)
}

/// Writes the headers of a block that is put to use: the header of the
/// used block of `taken` bytes at `addr` and the back-pointer before its
/// payload; where the block had `bs` bytes and more than were taken, the
/// header of the free block that is left, and the pointer back to it in
/// the block behind.
fn carve(
    arena: &mut Arena,
    addr: usize,
    bs: usize,
    taken: usize,
    payload: usize,
    write_pad: bool,
    end: usize,
)
    requires
        old(arena).wf(),
        old(arena).limit() == end,
        end <= usize::MAX,
        addr > 0,
        old(arena).contains(addr as int),
        old(arena).contains(payload - 8),
        addr + 16 <= payload,
        write_pad ==> addr + 32 <= payload,
        payload < addr + taken,
        32 <= taken <= bs,
        addr + bs <= end,
        bs != taken ==> taken + 32 <= bs && old(arena).contains(addr + taken) && old(arena).contains(
            addr + taken + 8,
        ),
        addr + bs < end ==> old(arena).contains(addr + bs + 8),
    ensures
        final(arena).wf(),
        final(arena).at(addr as int) == taken + 1,
        final(arena).at(addr + 8) == old(arena).at(addr + 8),
        write_pad ==> final(arena).at(payload - 8) == addr,
        !write_pad && addr + 24 <= payload ==> final(arena).at(payload - 8) == old(arena).at(payload - 8),
        bs != taken ==> final(arena).at(addr + taken) == bs - taken && final(arena).at(addr + taken + 8)
            == addr,
        bs != taken && addr + bs < end ==> final(arena).at(addr + bs + 8) == addr + taken,
        changed_in(
            *final(arena),
            *old(arena),
            addr as int,
            addr + bs,
            if bs != taken && addr + bs < end {
                addr + bs + 8
            } else {
                0
            },
        ),
        forall|x: int|
            old(arena).contains(x) && payload <= x && x + 8 <= addr + taken ==> final(arena).at(x) == old(
                arena,
            ).at(x),
{
    if bs != taken {
        // split: what is left becomes a free block behind the used one
        let rest: usize = addr + taken;
        arena.write(rest, bs - taken);
        arena.write(rest + 8, addr);
        if addr + bs < end {
            arena.write(addr + bs + 8, rest);
        }
    }
    arena.write(addr, taken + 1);
    if write_pad {
        arena.write(payload - 8, addr);
    }
}

/// The words of the payloads of the used blocks, and the words of a free
/// block that become the payload of a used block, are as they were where
/// the headers of the free block and the pointer of the block behind it
/// change only.
proof fn lemma_carve_keeps_words(
    after: Arena,
    before: Arena,
    b: Seq<Blk>,
    start: int,
    end: int,
    i: int,
    payload: int,
    taken: int,
)
    requires
        before.wf(),
        before.base() == start,
        before.limit() == end,
        chain_wf(b, start, end),
        0 <= i < b.len(),
        !b[i].used,
        b[i].addr + 16 <= payload,
        taken <= b[i].size,
        changed_in(
            after,
            before,
            b[i].addr as int,
            b[i].addr + b[i].size,
            if b[i].size != taken && i + 1 < b.len() {
                b[i + 1].addr + 8
            } else {
                0
            },
        ),
        forall|x: int|
            before.contains(x) && payload <= x && x + 8 <= b[i].addr + taken ==> after.at(x)
                == before.at(x),
    ensures
        forall|a: int| #[trigger] word_in_payload(b, a) ==> after.at(a) == before.at(a),
        forall|a: int|
            payload <= a && a + 8 <= b[i].addr + taken && a % 8 == 0 ==> #[trigger] after.at(a)
                == before.at(a),
{
    lemma_chain_at(b, start, end, i);
    assert forall|a: int| #[trigger] word_in_payload(b, a) implies after.at(a) == before.at(a) by {
        lemma_payload_not_header(before, b, start, end, a, i);
        if i + 1 < b.len() {
            lemma_payload_not_header(before, b, start, end, a, i + 1);
        }
    }
    assert forall|a: int| payload <= a && a + 8 <= b[i].addr + taken && a % 8 == 0 implies #[trigger] after.at(
        a,
    ) == before.at(a) by {
        lemma_word_inside(before, b[i].addr as int, b[i].size as int, a);
    }
}

impl Tlsf {
    /// `ptr` is the payload of a used block.
    pub open spec fn is_payload(&self, ptr: usize) -> bool {
        exists|i: int|
            0 <= i < self.blocks().len() && (#[trigger] self.blocks()[i]).used && self.blocks()[i].payload
                == ptr
    }

    /// The index of the used block whose payload is at `ptr`.
    pub open spec fn payload_index(&self, ptr: usize) -> int {
        index_of_payload(self.blocks(), ptr as int)
    }

    /// The state after the used block at index `i` was freed. The words of
    /// the payloads of the other used blocks are as they were.
    pub open spec fn freed(&self, before: &Tlsf, i: int) -> bool {
        &&& self.blocks() == chain_after_free(before.blocks(), i)
        &&& forall|a: int| #[trigger]
            before.in_payload(a) && payload_owner(before.blocks(), a) != i ==> self.word(a)
                == before.word(a)
        &&& self.spec_allocated() == before.spec_allocated() - before.blocks()[i].size
        &&& self.spec_maximum() == before.spec_maximum()
        &&& self.spec_total() == before.spec_total()
        &&& self.spec_start() == before.spec_start()
    }

    /// The counter of used bytes is the total size of the used blocks; it
    /// is no more than the highest value that it ever had, and that is no
    /// more than the pool holds.
    pub proof fn lemma_counters(&self)
        requires
            self.wf(),
        ensures
            self.spec_allocated() == used_total(self.blocks()),
            self.spec_allocated() <= self.spec_maximum(),
            self.spec_maximum() <= self.spec_total(),
    {
    }

    /// The bit of every class.
    pub closed spec fn class_bits(&self) -> Seq<bool> {
        self.lists.sl_bits()
    }

    /// The bit of every first level.
    pub closed spec fn level_bits(&self) -> Seq<bool> {
        self.lists.fl_bits()
    }

    /// A free block is in the free list of the class of its size and in no
    /// other list, and the bits of that class and of its first level are
    /// set.
    pub proof fn lemma_class_membership(&self, i: int)
        requires
            self.wf(),
            0 <= i < self.blocks().len(),
            !self.blocks()[i].used,
        ensures
            ({
                let key = crate::tlsf_map::key_spec(self.blocks()[i].size as int);
                let addr = self.blocks()[i].addr;
                &&& 0 <= key < CLASSES
                &&& listed(self.free_lists()[key], addr)
                &&& forall|c: int|
                    0 <= c < CLASSES && c != key ==> !listed(#[trigger] self.free_lists()[c], addr)
                &&& self.class_bits()[key]
                &&& self.level_bits()[key / 64]
            }),
    {
        let b = self.blocks@;
        let m = self.lists.members();
        let addr = b[i].addr;
        assert(m.contains_key(addr)) by {
            reveal(all_listed);
        }
        let j = lemma_member(b, m, addr);
        lemma_chain_unique(b, self.start as int, self.end as int, i, j);
        let key = m[addr];
        lemma_chain_at(b, self.start as int, self.end as int, i);
        crate::tlsf_map::lemma_has_key(b[i].size as int);
        lemma_key_unique(b[i].size as int, key, crate::tlsf_map::key_spec(b[i].size as int));
        assert forall|c: int| 0 <= c < CLASSES && c != key implies !listed(
            #[trigger] self.free_lists()[c],
            addr,
        ) by {
            if listed(self.free_lists()[c], addr) {
                let k = choose|k: int|
                    0 <= k < self.free_lists()[c].len() && #[trigger] self.free_lists()[c][k] == addr;
                assert(m[self.lists@[c][k]] == c);
            }
        }
        let k = choose|k: int| 0 <= k < self.lists@[key].len() && #[trigger] self.lists@[key][k] == addr;
        assert(self.lists@[key].len() > 0);
        assert(self.lists.sl_bits()[key]);
        let f = key / 64;
        assert(self.lists.sl_bits()[f * 64 + (key - f * 64)]);
        assert(crate::tlsf_lists::row_set(self.lists.sl_bits(), f));
    }

    /// Every address in a free list is that of a free block of the chain,
    /// and the size of that block is of the class of the list. Returns the
    /// index of the block.
    pub proof fn lemma_listed_is_free(&self, c: int, k: int) -> (i: int)
        requires
            self.wf(),
            0 <= c < CLASSES,
            0 <= k < self.free_lists()[c].len(),
        ensures
            0 <= i < self.blocks().len(),
            self.blocks()[i].addr == self.free_lists()[c][k],
            !self.blocks()[i].used,
            crate::tlsf_map::key_spec(self.blocks()[i].size as int) == c,
    {
        let b = self.blocks@;
        let m = self.lists.members();
        let addr = self.lists@[c][k];
        assert(m.contains_key(addr) && m[addr] == c);
        let i = lemma_member(b, m, addr);
        lemma_chain_at(b, self.start as int, self.end as int, i);
        crate::tlsf_map::lemma_has_key(b[i].size as int);
        lemma_key_unique(b[i].size as int, c, crate::tlsf_map::key_spec(b[i].size as int));
        i
    }

    /// A used block is in no free list.
    pub proof fn lemma_used_unlisted(&self, i: int, c: int)
        requires
            self.wf(),
            0 <= i < self.blocks().len(),
            self.blocks()[i].used,
            0 <= c < CLASSES,
        ensures
            !listed(self.free_lists()[c], self.blocks()[i].addr),
    {
        let addr = self.blocks()[i].addr;
        if listed(self.free_lists()[c], addr) {
            let k = choose|k: int|
                0 <= k < self.free_lists()[c].len() && #[trigger] self.free_lists()[c][k] == addr;
            let j = self.lemma_listed_is_free(c, k);
            lemma_chain_unique(self.blocks@, self.start as int, self.end as int, i, j);
        }
    }

    /// The bit of a class is set where the list of the class holds a block,
    /// and nowhere else; the bit of a first level is set where the bit of
    /// one of its classes is, and nowhere else.
    pub proof fn lemma_bitmaps(&self)
        requires
            self.wf(),
        ensures
            forall|c: int|
                0 <= c < CLASSES ==> #[trigger] self.class_bits()[c] == (self.free_lists()[c].len() > 0),
            forall|f: int|
                0 <= f < crate::tlsf_map::FLLEN ==> #[trigger] self.level_bits()[f] == crate::tlsf_lists::row_set(
                    self.class_bits(),
                    f,
                ),
    {
    }

    /// A payload belongs to one used block: the used block at index `i` is
    /// the one that `payload_index` gives for its payload.
    pub proof fn lemma_payload_index(&self, i: int)
        requires
            self.wf(),
            0 <= i < self.blocks().len(),
            self.blocks()[i].used,
        ensures
            self.is_payload(self.blocks()[i].payload),
            self.payload_index(self.blocks()[i].payload) == i,
    {
        let ptr = self.blocks()[i].payload;
        let j = index_of_payload(self.blocks(), ptr as int);
        self.lemma_payload_unique(i, j);
    }

    /// Where every block was freed, whatever the order, no byte is
    /// allocated.
    pub proof fn lemma_all_free(&self)
        requires
            self.wf(),
            forall|i: int| 0 <= i < self.blocks().len() ==> !(#[trigger] self.blocks()[i]).used,
        ensures
            self.spec_allocated() == 0,
    {
        let b = self.blocks@;
        assert forall|i: int| 0 <= i < b.len() implies !(#[trigger] b[i]).used by {
            assert(!self.blocks()[i].used);
        }
        lemma_used_total_none(b);
    }

    /// A request for more bytes than are free finds no block: it is
    /// refused, and nothing changes.
    pub proof fn lemma_no_room(&self, size: int, align: int)
        requires
            self.wf(),
            is_power_of_two(align),
            size > self.spec_total() - self.spec_allocated(),
        ensures
            self.choice(size, align) is None,
    {
        let need = search_size(size, align);
        let b = self.blocks@;
        let st = self.start as int;
        let en = self.end as int;
        lemma_used_total_bound(b, st, en);
        crate::support::lemma_pow2_positive(align);
        lemma_align_up(
            size + (if align > 16 {
                align
            } else {
                16
            }),
            32,
        );
        if need <= usize::MAX && size != 0 {
            let from = crate::tlsf_map::ceil_key(need);
            let v = self.lists@;
            lemma_lowest_class_found(v, from);
            if let Some(key) = lowest_class(v, from) {
                let a = v[key].last();
                assert(v[key][v[key].len() - 1] == a);
                let m = self.lists.members();
                let i = lemma_member(b, m, a);
                lemma_chain_at(b, st, en, i);
                crate::tlsf_map::lemma_ceil_key(need, b[i].size as int, key);
                lemma_free_bound(b, st, en, i);
            }
        }
    }

    /// Two used blocks with one payload are one block.
    proof fn lemma_payload_unique(&self, i: int, j: int)
        requires
            self.wf(),
            0 <= i < self.blocks@.len(),
            0 <= j < self.blocks@.len(),
            self.blocks@[i].used,
            self.blocks@[j].used,
            self.blocks@[i].payload == self.blocks@[j].payload,
        ensures
            i == j,
    {
        let b = self.blocks@;
        let st = self.start as int;
        let en = self.end as int;
        lemma_used_contained(self.arena, b, st, en, i);
        lemma_used_contained(self.arena, b, st, en, j);
        if i < j {
            lemma_chain_sorted(b, st, en, i, j);
        } else if j < i {
            lemma_chain_sorted(b, st, en, j, i);
        }
    }

    /// Marks the used block at `hdr` as free.
    fn mark_free(&mut self, hdr: usize, Ghost(i): Ghost<int>) -> (size: usize)
        requires
            old(self).wf(),
            0 <= i < old(self).blocks@.len(),
            old(self).blocks@[i].used,
            hdr == old(self).blocks@[i].addr,
        ensures
            final(self).inv(set![hdr]),
            !final(self).lists.members().contains_key(hdr),
            final(self).blocks@ == old(self).blocks@.update(i, free_blk(old(self).blocks@, i)),
            size == old(self).blocks@[i].size,
            used_total(final(self).blocks@) == used_total(old(self).blocks@) - size,
            final(self).start == old(self).start,
            final(self).end == old(self).end,
            final(self).allocated == old(self).allocated,
            final(self).maximum == old(self).maximum,
            forall|a: int| #[trigger]
                old(self).in_payload(a) ==> final(self).word(a) == old(self).word(a),
            forall|a: int|
                hdr + 16 <= a && a + 8 <= hdr + size && a % 8 == 0 ==> #[trigger] final(self).word(a)
                    == old(self).word(a),
    {
        let ghost b = self.blocks@;
        let ghost st = self.start as int;
        let ghost en = self.end as int;
        let ghost before = self.arena;
        proof {
            lemma_chain_at(b, st, en, i);
            lemma_blk_contained(self.arena, b, st, en, i);
            assert(blk_recorded(self.arena, b, i)) by {
                reveal(chain_recorded);
            }
            assert forall|a: int|
                hdr + 16 <= a && a + 8 <= hdr + b[i].size && a % 8 == 0 implies before.contains(a) by {
                lemma_word_inside(before, b[i].addr as int, b[i].size as int, a);
            }
        }
        let size: usize = self.arena.read(hdr) - 1;
        self.arena.write(hdr, size);
        proof {
            assert forall|a: int| #[trigger] old(self).in_payload(a) implies self.arena.at(a)
                == before.at(a) by {
                lemma_payload_not_header(before, b, st, en, a, i);
            }
            self.blocks@ = b.update(i, free_blk(b, i));
            assert(flag_from(self.arena, before, b, i));
            lemma_flag_pure(b, st, en, i);
            lemma_flag_recorded(self.arena, before, b, st, en, i);
            lemma_flag_listed(b, st, en, self.lists.members(), i);
        }
        size
    }

    /// Merges the free block at `addr`, which is in no list, with the
    /// block behind it, where that block is free.
    fn merge_next(&mut self, addr: usize, Ghost(i): Ghost<int>)
        requires
            old(self).inv(set![addr]),
            !old(self).lists.members().contains_key(addr),
            0 <= i < old(self).blocks@.len(),
            !old(self).blocks@[i].used,
            addr == old(self).blocks@[i].addr,
        ensures
            final(self).inv(set![addr]),
            !final(self).lists.members().contains_key(addr),
            final(self).blocks@ == if i + 1 < old(self).blocks@.len() && !old(self).blocks@[i
                + 1].used {
                chain_merged(old(self).blocks@, i)
            } else {
                old(self).blocks@
            },
            used_total(final(self).blocks@) == used_total(old(self).blocks@),
            final(self).blocks@[i].addr == addr,
            !final(self).blocks@[i].used,
            0 <= i < final(self).blocks@.len(),
            forall|j: int| 0 <= j < i ==> final(self).blocks@[j] == old(self).blocks@[j],
            forall|a: int|
                old(self).blocks@[i].addr + 16 <= a && a + 8 <= old(self).blocks@[i].addr + old(
                    self,
                ).blocks@[i].size && a % 8 == 0 ==> #[trigger] final(self).word(a) == old(self).word(a),
            final(self).allocated == old(self).allocated,
            final(self).start == old(self).start,
            final(self).end == old(self).end,
            final(self).allocated == old(self).allocated,
            final(self).maximum == old(self).maximum,
            forall|a: int| #[trigger]
                old(self).in_payload(a) ==> final(self).word(a) == old(self).word(a),
    {
        let ghost b = self.blocks@;
        let ghost m = self.lists.members();
        let ghost st = self.start as int;
        let ghost en = self.end as int;
        proof {
            lemma_chain_at(b, st, en, i);
            lemma_blk_contained(self.arena, b, st, en, i);
            assert(blk_recorded(self.arena, b, i)) by {
                reveal(chain_recorded);
            }
        }
        let size: usize = self.arena.read(addr);
        let next: usize = addr + size;
        if next < self.end {
            proof {
                lemma_chain_at(b, st, en, i + 1);
                lemma_blk_contained(self.arena, b, st, en, i + 1);
                assert(blk_recorded(self.arena, b, i + 1)) by {
                    reveal(chain_recorded);
                }
            }
            let word: usize = self.arena.read(next);
            if word % 2 == 0 {
                // the block behind is free: it leaves its list and joins
                // this block
                let key = map_floor(word);
                proof {
                    assert(m.contains_key(next)) by {
                        reveal(all_listed);
                        assert(!b[i + 1].used);
                    }
                    let j = lemma_member(b, m, next);
                    lemma_chain_unique(b, st, en, j, i + 1);
                    lemma_key_unique(word as int, key as int, m[next]);
                    lemma_unlist(b, m, next, set![addr]);
                    assert(set![addr].insert(next) =~= set![addr, next]);
                    lemma_merge_pure(b, st, en, i);
                    if i + 2 < b.len() {
                        lemma_chain_at(b, st, en, i + 2);
                        lemma_blk_contained(self.arena, b, st, en, i + 2);
                    }
                }
                self.lists.remove(key, next);
                let ghost before = self.arena;
                let total: usize = size + word;
                self.arena.write(addr, total);
                if addr + total < self.end {
                    self.arena.write(addr + total + 8, addr);
                }
                proof {
                    assert forall|a: int| #[trigger] old(self).in_payload(a) implies self.arena.at(a)
                        == before.at(a) by {
                        lemma_payload_not_header(before, b, st, en, a, i);
                        if i + 2 < b.len() {
                            lemma_payload_not_header(before, b, st, en, a, i + 2);
                        }
                    }
                    assert forall|a: int|
                        b[i].addr + 16 <= a && a + 8 <= b[i].addr + b[i].size && a % 8
                            == 0 implies self.arena.at(a) == before.at(a) by {
                        lemma_word_inside(before, b[i].addr as int, b[i].size as int, a);
                    }
                    self.blocks@ = chain_merged(b, i);
                    assert(merge_from(self.arena, before, b, i));
                    lemma_merge_recorded(self.arena, before, b, st, en, i);
                    lemma_merge_listed(b, st, en, self.lists.members(), i);
                }
            }
        }
    }

    /// Merges the free block at `addr`, which is in no list, with the
    /// block before it, where that block is free. Returns the address of
    /// the block that holds the bytes of the block in the end.
    fn merge_prev(&mut self, addr: usize, Ghost(i): Ghost<int>) -> (r: usize)
        requires
            old(self).inv(set![addr]),
            !old(self).lists.members().contains_key(addr),
            0 <= i < old(self).blocks@.len(),
            !old(self).blocks@[i].used,
            addr == old(self).blocks@[i].addr,
        ensures
            final(self).inv(set![r]),
            !final(self).lists.members().contains_key(r),
            final(self).blocks@ == if i > 0 && !old(self).blocks@[i - 1].used {
                chain_merged(old(self).blocks@, i - 1)
            } else {
                old(self).blocks@
            },
            used_total(final(self).blocks@) == used_total(old(self).blocks@),
            ({
                let k = if i > 0 && !old(self).blocks@[i - 1].used {
                    i - 1
                } else {
                    i
                };
                0 <= k < final(self).blocks@.len() && final(self).blocks@[k].addr == r
                    && !final(self).blocks@[k].used
            }),
            final(self).start == old(self).start,
            final(self).end == old(self).end,
            final(self).allocated == old(self).allocated,
            final(self).maximum == old(self).maximum,
            forall|a: int| #[trigger]
                old(self).in_payload(a) ==> final(self).word(a) == old(self).word(a),
    {
        let ghost b = self.blocks@;
        let ghost m = self.lists.members();
        let ghost st = self.start as int;
        let ghost en = self.end as int;
        proof {
            lemma_chain_at(b, st, en, i);
            lemma_blk_contained(self.arena, b, st, en, i);
            assert(blk_recorded(self.arena, b, i)) by {
                reveal(chain_recorded);
            }
        }
        proof {
            if i > 0 {
                lemma_chain_at(b, st, en, i - 1);
            }
        }
        let size: usize = self.arena.read(addr);
        let prev: usize = self.arena.read(addr + 8);
        if prev != 0 {
            proof {
                lemma_chain_at(b, st, en, i - 1);
                lemma_blk_contained(self.arena, b, st, en, i - 1);
                assert(blk_recorded(self.arena, b, i - 1)) by {
                    reveal(chain_recorded);
                }
            }
            let word: usize = self.arena.read(prev);
            if word % 2 == 0 {
                // the block before is free: it leaves its list and takes
                // this block in
                let key = map_floor(word);
                proof {
                    assert(m.contains_key(prev)) by {
                        reveal(all_listed);
                        assert(!b[i - 1].used);
                    }
                    let j = lemma_member(b, m, prev);
                    lemma_chain_unique(b, st, en, j, i - 1);
                    lemma_key_unique(word as int, key as int, m[prev]);
                    lemma_unlist(b, m, prev, set![addr]);
                    assert(set![addr].insert(prev) =~= set![prev, addr]);
                    lemma_merge_pure(b, st, en, i - 1);
                    if i + 1 < b.len() {
                        lemma_chain_at(b, st, en, i + 1);
                        lemma_blk_contained(self.arena, b, st, en, i + 1);
                    }
                }
                self.lists.remove(key, prev);
                let ghost before = self.arena;
                let total: usize = word + size;
                self.arena.write(prev, total);
                if prev + total < self.end {
                    self.arena.write(prev + total + 8, prev);
                }
                proof {
                    assert forall|a: int| #[trigger] old(self).in_payload(a) implies self.arena.at(a)
                        == before.at(a) by {
                        lemma_payload_not_header(before, b, st, en, a, i - 1);
                        if i + 1 < b.len() {
                            lemma_payload_not_header(before, b, st, en, a, i + 1);
                        }
                    }
                    self.blocks@ = chain_merged(b, i - 1);
                    assert(merge_from(self.arena, before, b, i - 1));
                    lemma_merge_recorded(self.arena, before, b, st, en, i - 1);
                    lemma_merge_listed(b, st, en, self.lists.members(), i - 1);
                }
                return prev;
            }
        }
        addr
    }

    /// Puts the free block at `addr`, which is in no list, into the list
    /// of the class of its size.
    fn relist(&mut self, addr: usize, Ghost(i): Ghost<int>)
        requires
            old(self).inv(set![addr]),
            !old(self).lists.members().contains_key(addr),
            0 <= i < old(self).blocks@.len(),
            !old(self).blocks@[i].used,
            addr == old(self).blocks@[i].addr,
        ensures
            final(self).inv(Set::<usize>::empty()),
            final(self).blocks@ == old(self).blocks@,
            final(self).arena == old(self).arena,
            final(self).start == old(self).start,
            final(self).end == old(self).end,
            final(self).allocated == old(self).allocated,
            final(self).maximum == old(self).maximum,
    {
        let ghost b = self.blocks@;
        let ghost st = self.start as int;
        let ghost en = self.end as int;
        proof {
            lemma_chain_at(b, st, en, i);
            lemma_blk_contained(self.arena, b, st, en, i);
            assert(blk_recorded(self.arena, b, i)) by {
                reveal(chain_recorded);
            }
        }
        let size: usize = self.arena.read(addr);
        let key = map_floor(size);
        proof {
            lemma_list(b, self.lists.members(), i, key as int, set![addr]);
            assert(set![addr].remove(addr) =~= Set::<usize>::empty());
        }
        self.lists.insert(key, addr);
    }

    /// Frees the used block with its header at `hdr`: marks it as free,
    /// merges it with its free neighbours and puts what comes of it into
    /// the free lists.
    fn release(&mut self, hdr: usize, Ghost(i): Ghost<int>) -> (size: usize)
        requires
            old(self).wf(),
            0 <= i < old(self).blocks@.len(),
            old(self).blocks@[i].used,
            hdr == old(self).blocks@[i].addr,
        ensures
            final(self).wf(),
            size == old(self).blocks@[i].size,
            final(self).freed(old(self), i),
    {
        let ghost b = self.blocks@;
        proof {
            lemma_used_total_bound(b, self.start as int, self.end as int);
        }
        let size = self.mark_free(hdr, Ghost(i));
        let ghost s1 = *self;
        proof {
            lemma_used_total_bound(self.blocks@, self.start as int, self.end as int);
        }
        self.merge_next(hdr, Ghost(i));
        let ghost s2 = *self;
        let ghost b2 = self.blocks@;
        proof {
            if i > 0 {
                assert(b2[i - 1] == b[i - 1]);
            }
        }
        let addr = self.merge_prev(hdr, Ghost(i));
        let ghost k = if i > 0 && !b[i - 1].used {
            i - 1
        } else {
            i
        };
        let ghost s3 = *self;
        self.relist(addr, Ghost(k));
        self.allocated = self.allocated - size;
        proof {
            assert forall|a: int| #[trigger]
                old(self).in_payload(a) && payload_owner(b, a) != i implies self.word(a) == old(
                self,
            ).word(a) by {
                let q = payload_owner(b, a);
                // the block that holds the word is a used block of every
                // chain on the way
                let b1 = s1.blocks@;
                assert(b[q].used && b[q].payload <= a && a + 8 <= b[q].addr + b[q].size && a % 8 == 0);
                assert(b1[q] == b[q]);
                assert(word_in_payload(b1, a));
                assert(s1.in_payload(a));
                assert(s1.word(a) == old(self).word(a));
                let q2 = if q > i && b2.len() < b1.len() {
                    q - 1
                } else {
                    q
                };
                assert(b2[q2] == b1[q]);
                assert(word_in_payload(b2, a));
                assert(s2.in_payload(a));
                assert(s2.word(a) == s1.word(a));
                assert(s3.word(a) == s2.word(a));
                assert(self.word(a) == s3.word(a));
            }
        }
        size
    }

    /// Frees the block whose payload is at `ptr` and which was allocated
    /// with alignment `align`. The block merges with the free blocks
    /// before and behind it.
    pub fn deallocate(&mut self, ptr: usize, align: usize)
        requires
            old(self).wf(),
            old(self).is_payload(ptr),
            (old(self).blocks()[old(self).payload_index(ptr)].align >= 32) == (align >= 32),
        ensures
            final(self).wf(),
            final(self).freed(old(self), old(self).payload_index(ptr)),
    {
        let ghost i = self.payload_index(ptr);
        let ghost b = self.blocks@;
        proof {
            lemma_chain_at(b, self.start as int, self.end as int, i);
            lemma_used_contained(self.arena, b, self.start as int, self.end as int, i);
            assert(blk_recorded(self.arena, b, i)) by {
                reveal(chain_recorded);
            }
        }
        let hdr: usize = if align >= TLSF_GRANULARITY {
            self.arena.read(ptr - 8)
        } else {
            ptr - TLSF_HDR_SIZE
        };
        let _ = self.release(hdr, Ghost(i));
    }

    /// Frees the block whose payload is at `ptr`, whatever alignment it
    /// was allocated with: the header is found from the word before the
    /// payload, which is the back-pointer to the header, or is the pointer
    /// of the header to the block before, which ends before the payload.
    pub fn deallocate_unknown_align(&mut self, ptr: usize)
        requires
            old(self).wf(),
            old(self).is_payload(ptr),
        ensures
            final(self).wf(),
            final(self).freed(old(self), old(self).payload_index(ptr)),
    {
        let ghost i = self.payload_index(ptr);
        let hdr = self.header_of(ptr);
        let _ = self.release(hdr, Ghost(i));
    }

    /// The address of the header of the used block whose payload is at
    /// `ptr`.
    fn header_of(&self, ptr: usize) -> (hdr: usize)
        requires
            self.wf(),
            self.is_payload(ptr),
        ensures
            hdr == self.blocks@[self.payload_index(ptr)].addr,
    {
        let ghost i = self.payload_index(ptr);
        let ghost b = self.blocks@;
        let ghost st = self.start as int;
        let ghost en = self.end as int;
        proof {
            lemma_chain_at(b, st, en, i);
            lemma_used_contained(self.arena, b, st, en, i);
            lemma_blk_contained(self.arena, b, st, en, i);
            assert(blk_recorded(self.arena, b, i)) by {
                reveal(chain_recorded);
            }
            if i > 0 && b[i].align < 32 {
                lemma_chain_at(b, st, en, i - 1);
                lemma_blk_contained(self.arena, b, st, en, i - 1);
                assert(blk_recorded(self.arena, b, i - 1)) by {
                    reveal(chain_recorded);
                }
            }
        }
        let word: usize = self.arena.read(ptr - 8);
        if word != 0 {
            // the word names a block: this block, which holds the payload,
            // or the block before, which ends before it
            let size: usize = self.arena.read(word);
            let size: usize = size - size % 2;
            if ptr - word <= size {
                return word;
            }
        }
        ptr - TLSF_HDR_SIZE
    }
}

/// A block keeps its record where a word of the payload of a used block
/// changes.
pub proof fn lemma_payload_write(
    after: Arena,
    before: Arena,
    b: Seq<Blk>,
    start: int,
    end: int,
    i: int,
    w: int,
)
    requires
        before.wf(),
        before.base() == start,
        before.limit() == end,
        chain_wf(b, start, end),
        chain_recorded(before, b),
        0 <= i < b.len(),
        b[i].used,
        b[i].payload <= w,
        w + 8 <= b[i].addr + b[i].size,
        changed_in(after, before, w, w + 8, 0),
    ensures
        chain_recorded(after, b),
{
    assert forall|j: int| 0 <= j < b.len() implies #[trigger] blk_recorded(after, b, j) by {
        assert(blk_recorded(before, b, j)) by {
            reveal(chain_recorded);
        }
        lemma_chain_at(b, start, end, i);
        lemma_chain_at(b, start, end, j);
        lemma_used_contained(before, b, start, end, i);
        lemma_blk_contained(before, b, start, end, j);
        if j < i {
            lemma_chain_sorted(b, start, end, j, i);
            lemma_blk_kept(after, before, b, start, end, j, w, w + 8, 0);
        } else if j > i {
            lemma_chain_sorted(b, start, end, i, j);
            lemma_blk_kept(after, before, b, start, end, j, w, w + 8, 0);
        } else {
            let x = b[i].addr as int;
            assert(after.at(x) == before.at(x));
            assert(after.at(x + 8) == before.at(x + 8));
            let y = b[i].payload - 8;
            assert(after.at(y) == before.at(y));
        }
    }
    reveal(chain_recorded);
}

impl Tlsf {
    /// Reads the word of a payload at `addr`.
    pub fn read_payload(&self, addr: usize) -> (v: usize)
        requires
            self.wf(),
            self.in_payload(addr as int),
        ensures
            v == self.word(addr as int),
    {
        proof {
            lemma_payload_not_header(
                self.arena,
                self.blocks@,
                self.start as int,
                self.end as int,
                addr as int,
                0,
            );
        }
        self.arena.read(addr)
    }

    /// Writes the word of a payload at `addr`. The blocks stay as they
    /// are, and so does every other word of a payload.
    pub fn write_payload(&mut self, addr: usize, v: usize)
        requires
            old(self).wf(),
            old(self).in_payload(addr as int),
        ensures
            final(self).wf(),
            final(self).blocks() == old(self).blocks(),
            final(self).free_lists() == old(self).free_lists(),
            final(self).spec_allocated() == old(self).spec_allocated(),
            final(self).spec_maximum() == old(self).spec_maximum(),
            final(self).spec_total() == old(self).spec_total(),
            final(self).spec_start() == old(self).spec_start(),
            final(self).word(addr as int) == v,
            forall|a: int| #[trigger]
                old(self).in_payload(a) && a != addr ==> final(self).word(a) == old(self).word(a),
    {
        let ghost i = payload_owner(self.blocks@, addr as int);
        let ghost b = self.blocks@;
        let ghost st = self.start as int;
        let ghost en = self.end as int;
        let ghost before = self.arena;
        proof {
            lemma_chain_at(b, st, en, i);
            lemma_used_contained(self.arena, b, st, en, i);
            lemma_word_inside(self.arena, b[i].addr as int, b[i].size as int, addr as int);
        }
        self.arena.write(addr, v);
        proof {
            lemma_payload_write(self.arena, before, b, st, en, i, addr as int);
            assert forall|a: int| #[trigger] old(self).in_payload(a) && a != addr implies self.word(a)
                == old(self).word(a) by {
                lemma_payload_not_header(before, b, st, en, a, 0);
            }
        }
    }
}

/// The blocks after the used block at index `i` grew to `need` bytes by
/// taking bytes of the free block behind it; what is left of that block
/// stays a free block.
pub open spec fn chain_after_grow(b: Seq<Blk>, i: int, need: int) -> Seq<Blk> {
    chain_after_alloc(
        chain_merged(b.update(i, free_blk(b, i)), i),
        i,
        need,
        b[i].payload as int,
        b[i].align as int,
    )
}

/// The used block at index `i` can grow to `need` bytes where it is: the
/// block behind it is free and the two hold `need` bytes together.
pub open spec fn can_grow(b: Seq<Blk>, i: int, need: int) -> bool {
    i + 1 < b.len() && !b[i + 1].used && need <= b[i].size + b[i + 1].size
}

impl Tlsf {
    /// A word of the payload of the used block at index `q` is a word of a
    /// payload, and the block is the one that holds it.
    proof fn lemma_in_payload(&self, q: int, a: int)
        requires
            self.inv(Set::<usize>::empty()),
            0 <= q < self.blocks@.len(),
            self.blocks@[q].used,
            self.blocks@[q].payload <= a,
            a + 8 <= self.blocks@[q].addr + self.blocks@[q].size,
            a % 8 == 0,
        ensures
            self.in_payload(a),
            payload_owner(self.blocks@, a) == q,
    {
        let b = self.blocks@;
        assert(word_in_payload(b, a));
        let o = payload_owner(b, a);
        if o != q {
            lemma_payload_not_header(self.arena, b, self.start as int, self.end as int, a, q);
            lemma_used_contained(self.arena, b, self.start as int, self.end as int, q);
        }
    }

    /// What `resize` returns and leaves behind for the used block at index
    /// `i`, a new size and a new alignment.
    pub open spec fn resized(
        &self,
        before: &Tlsf,
        i: int,
        new_size: int,
        new_align: int,
        r: Option<usize>,
    ) -> bool {
        let b = before.blocks();
        let x = b[i];
        let need = needed_size(x.addr as int, new_size, x.align as int);
        if new_size <= x.addr + x.size - x.payload {
            // the block is large enough
            r == Some(x.payload) && *self == *before
        } else if can_grow(b, i, need) {
            // the block grows where it is
            &&& r == Some(x.payload)
            &&& self.blocks() == chain_after_grow(b, i, need)
            &&& self.spec_allocated() == before.spec_allocated() - x.size + need
            &&& forall|a: int| #[trigger] before.in_payload(a) ==> self.word(a) == before.word(a)
        } else {
            match before.choice(new_size, new_align) {
                // no other block is to be had
                None => r is None && *self == *before,
                // the payload moves to a new block
                Some(c) => {
                    let taken = needed_size(b[c].addr as int, new_size, new_align);
                    let p = payload_at(b[c].addr as int, new_align);
                    let moved = chain_after_alloc(b, c, taken, p, new_align);
                    &&& r == Some(p as usize)
                    &&& p != x.payload
                    &&& self.blocks() == chain_after_free(moved, index_of_payload(moved, x.payload as int))
                    &&& forall|a: int|
                        x.payload <= a && a + 8 <= x.addr + x.size && a % 8 == 0 ==> self.word(
                            a - x.payload + p,
                        ) == #[trigger] before.word(a)
                    &&& forall|a: int| #[trigger]
                        before.in_payload(a) && payload_owner(b, a) != i ==> self.word(a)
                            == before.word(a)
                },
            }
        }
    }

    /// Grows the used block at `hdr` to `need` bytes by taking bytes of the
    /// free block behind it.
    fn grow(&mut self, hdr: usize, ptr: usize, need: usize, Ghost(i): Ghost<int>)
        requires
            old(self).wf(),
            0 <= i < old(self).blocks@.len(),
            old(self).blocks@[i].used,
            hdr == old(self).blocks@[i].addr,
            ptr == old(self).blocks@[i].payload,
            can_grow(old(self).blocks@, i, need as int),
            need > old(self).blocks@[i].size,
            need % 32 == 0,
        ensures
            final(self).wf(),
            final(self).start == old(self).start,
            final(self).end == old(self).end,
            final(self).blocks@ == chain_after_grow(old(self).blocks@, i, need as int),
            final(self).allocated == old(self).allocated - old(self).blocks@[i].size + need,
            forall|a: int| #[trigger]
                old(self).in_payload(a) ==> final(self).word(a) == old(self).word(a),
    {
        let ghost b = self.blocks@;
        let ghost st = self.start as int;
        let ghost en = self.end as int;
        let ghost x = b[i];
        proof {
            lemma_chain_at(b, st, en, i);
            lemma_chain_at(b, st, en, i + 1);
            lemma_used_contained(self.arena, b, st, en, i);
            assert(blk_recorded(self.arena, b, i)) by {
                reveal(chain_recorded);
            }
            lemma_used_total_bound(b, st, en);
        }
        let size = self.mark_free(hdr, Ghost(i));
        let ghost s0 = *self;
        let ghost b1 = self.blocks@;
        proof {
            lemma_used_total_bound(b1, st, en);
            assert(b1[i + 1] == b[i + 1]);
        }
        self.allocated = self.allocated - size;
        let ghost s1 = *self;
        self.merge_next(hdr, Ghost(i));
        let ghost s2 = *self;
        let ghost b2 = self.blocks@;
        proof {
            assert(b2 == chain_merged(b1, i));
            assert(b2[i].size == x.size + b[i + 1].size);
            if x.align >= 32 {
                let pad = ptr - 8;
                assert(s0.word(pad) == old(self).word(pad));
                assert(s1.word(pad) == s0.word(pad));
                assert(s2.word(pad) == s1.word(pad));
            }
            lemma_used_total_bound(b2, st, en);
        }
        self.occupy_at(hdr, ptr, need, false, Ghost(x.align as int), Ghost(i));
        proof {
            assert forall|a: int| #[trigger] old(self).in_payload(a) implies self.word(a) == old(
                self,
            ).word(a) by {
                let q = payload_owner(b, a);
                assert(b[q].used && b[q].payload <= a && a + 8 <= b[q].addr + b[q].size && a % 8 == 0);
                assert(s0.word(a) == old(self).word(a));
                assert(s1.word(a) == s0.word(a));
                if q == i {
                    assert(s2.word(a) == s1.word(a));
                    assert(self.word(a) == s2.word(a));
                } else {
                    assert(b1[q] == b[q]);
                    assert(word_in_payload(b1, a));
                    assert(s1.in_payload(a));
                    assert(s2.word(a) == s1.word(a));
                    lemma_chain_unique_ne(b, st, en, q, i + 1);
                    let q2 = if q > i {
                        q - 1
                    } else {
                        q
                    };
                    assert(b2[q2] == b1[q]);
                    assert(word_in_payload(b2, a));
                    assert(s2.in_payload(a));
                    assert(self.word(a) == s2.word(a));
                }
            }
        }
    }

    /// Changes the size of the used block at `hdr`, whose payload is at
    /// `ptr`, to the size of `new_layout`.
    fn resize(&mut self, hdr: usize, ptr: usize, new_layout: &Layout, Ghost(i): Ghost<int>) -> (r:
        Option<usize>)
        requires
            old(self).wf(),
            0 <= i < old(self).blocks@.len(),
            old(self).blocks@[i].used,
            hdr == old(self).blocks@[i].addr,
            ptr == old(self).blocks@[i].payload,
        ensures
            final(self).wf(),
            final(self).spec_total() == old(self).spec_total(),
            final(self).spec_start() == old(self).spec_start(),
            final(self).resized(
                old(self),
                i,
                new_layout.spec_size() as int,
                new_layout.spec_align() as int,
                r,
            ),
    {
        let ghost b = self.blocks@;
        let ghost st = self.start as int;
        let ghost en = self.end as int;
        let ghost x = b[i];
        proof {
            lemma_chain_at(b, st, en, i);
            lemma_used_contained(self.arena, b, st, en, i);
            lemma_blk_contained(self.arena, b, st, en, i);
            assert(blk_recorded(self.arena, b, i)) by {
                reveal(chain_recorded);
            }
            lemma_align_up(ptr - hdr + new_layout.spec_size(), 32);
        }
        let new_size: usize = new_layout.size();
        let size: usize = self.arena.read(hdr) - 1;
        let usable: usize = hdr + size - ptr;
        if new_size <= usable {
            return Some(ptr);
        }
        // Grow the block where it is, if the block behind it is free and
        // large enough.
        let next: usize = hdr + size;
        if next < self.end {
            proof {
                lemma_chain_at(b, st, en, i + 1);
                lemma_blk_contained(self.arena, b, st, en, i + 1);
                assert(blk_recorded(self.arena, b, i + 1)) by {
                    reveal(chain_recorded);
                }
            }
            let word: usize = self.arena.read(next);
            if word % 2 == 0 {
                let need: Option<usize> = match (ptr - hdr).checked_add(new_size) {
                    Some(v) => checked_align_up(v, TLSF_GRANULARITY),
                    None => None,
                };
                if let Some(need) = need {
                    if need - size <= word {
                        self.grow(hdr, ptr, need, Ghost(i));
                        return Some(ptr);
                    }
                }
            }
        }
        self.move_block(hdr, ptr, usable, new_layout, Ghost(i))
    }

    /// Copies `words` words from `src`, in the payload of the used block
    /// at index `si`, to `dst`, in the payload of the used block at index
    /// `di`.
    fn copy_words(
        &mut self,
        src: usize,
        dst: usize,
        words: usize,
        Ghost(si): Ghost<int>,
        Ghost(di): Ghost<int>,
    )
        requires
            old(self).wf(),
            0 <= si < old(self).blocks@.len(),
            0 <= di < old(self).blocks@.len(),
            si != di,
            old(self).blocks@[si].used,
            old(self).blocks@[di].used,
            old(self).blocks@[si].payload <= src,
            src + 8 * words <= old(self).blocks@[si].addr + old(self).blocks@[si].size,
            old(self).blocks@[di].payload <= dst,
            dst + 8 * words <= old(self).blocks@[di].addr + old(self).blocks@[di].size,
            src % 8 == 0,
            dst % 8 == 0,
        ensures
            final(self).wf(),
            final(self).blocks@ == old(self).blocks@,
            final(self).start == old(self).start,
            final(self).end == old(self).end,
            final(self).allocated == old(self).allocated,
            final(self).maximum == old(self).maximum,
            forall|a: int|
                src <= a && a < src + 8 * words && a % 8 == 0 ==> final(self).word(a - src + dst)
                    == #[trigger] old(self).word(a),
            forall|a: int| #[trigger]
                old(self).in_payload(a) && payload_owner(old(self).blocks@, a) != di ==> final(self).word(a) == old(self).word(a),
    {
        let ghost b = self.blocks@;
        proof {
            lemma_chain_at(b, self.start as int, self.end as int, si);
            lemma_chain_at(b, self.start as int, self.end as int, di);
        }
        let mut k: usize = 0;
        while k < words
            invariant
                k <= words,
                self.wf(),
                old(self).wf(),
                self.blocks@ == b,
                self.blocks@ == old(self).blocks@,
                self.start == old(self).start,
                self.end == old(self).end,
                self.allocated == old(self).allocated,
                self.maximum == old(self).maximum,
                0 <= si < b.len(),
                0 <= di < b.len(),
                si != di,
                b[si].used,
                b[di].used,
                b[si].payload <= src,
                src + 8 * words <= b[si].addr + b[si].size,
                b[di].payload <= dst,
                dst + 8 * words <= b[di].addr + b[di].size,
                b[si].addr + b[si].size <= usize::MAX,
                b[di].addr + b[di].size <= usize::MAX,
                src % 8 == 0,
                dst % 8 == 0,
                forall|a: int|
                    src <= a && a < src + 8 * k && a % 8 == 0 ==> self.word(a - src + dst)
                        == #[trigger] old(self).word(a),
                forall|a: int| #[trigger]
                    old(self).in_payload(a) && payload_owner(b, a) != di ==> self.word(a) == old(
                        self,
                    ).word(a),
            decreases words - k,
        {
            let ghost prev = *self;
            proof {
                self.lemma_in_payload(si, src + 8 * k);
                self.lemma_in_payload(di, dst + 8 * k);
                old(self).lemma_in_payload(si, src + 8 * k);
            }
            let v = self.read_payload(src + 8 * k);
            self.write_payload(dst + 8 * k, v);
            proof {
                let d = dst + 8 * k;
                assert forall|a: int| src <= a && a < src + 8 * (k + 1) && a % 8 == 0 implies self.word(
                    a - src + dst,
                ) == #[trigger] old(self).word(a) by {
                    if a < src + 8 * k {
                        prev.lemma_in_payload(di, a - src + dst);
                        assert(prev.word(a - src + dst) == old(self).word(a));
                    } else {
                        assert(a == src + 8 * k);
                    }
                }
                assert forall|a: int| #[trigger]
                    old(self).in_payload(a) && payload_owner(b, a) != di implies self.word(a) == old(
                    self,
                ).word(a) by {
                    assert(word_in_payload(prev.blocks(), a));
                    assert(prev.in_payload(a));
                    if a == d {
                        prev.lemma_in_payload(di, d as int);
                    }
                }
            }
            k += 1;
        }
    }

    /// Allocates a block for `new_layout` beside the used block at index
    /// `i`; returns the payload of the new block, its index and the index
    /// of the old block in the new chain.
    fn allocate_beside(&mut self, new_layout: &Layout, Ghost(i): Ghost<int>) -> (r: Option<
        (usize, Ghost<int>, Ghost<int>),
    >)
        requires
            old(self).wf(),
            0 <= i < old(self).blocks@.len(),
            old(self).blocks@[i].used,
        ensures
            final(self).wf(),
            final(self).start == old(self).start,
            final(self).end == old(self).end,
            forall|a: int| #[trigger]
                old(self).in_payload(a) ==> final(self).word(a) == old(self).word(a),
            match r {
                None => {
                    &&& old(self).choice(new_layout.spec_size() as int, new_layout.spec_align() as int)
                        is None
                    &&& *final(self) == *old(self)
                },
                Some((p, c, i2)) => {
                    let b = old(self).blocks@;
                    let taken = needed_size(
                        b[c@].addr as int,
                        new_layout.spec_size() as int,
                        new_layout.spec_align() as int,
                    );
                    &&& old(self).choice(new_layout.spec_size() as int, new_layout.spec_align() as int)
                        == Some(c@)
                    &&& 0 <= c@ < b.len()
                    &&& c@ != i
                    &&& !b[c@].used
                    &&& p == payload_at(b[c@].addr as int, new_layout.spec_align() as int)
                    &&& final(self).blocks@ == chain_after_alloc(
                        b,
                        c@,
                        taken,
                        p as int,
                        new_layout.spec_align() as int,
                    )
                    &&& i2@ == if taken != b[c@].size && i > c@ {
                        i + 1
                    } else {
                        i
                    }
                    &&& 0 <= i2@ < final(self).blocks@.len()
                    &&& 0 <= c@ < final(self).blocks@.len()
                    &&& i2@ != c@
                    &&& final(self).blocks@[i2@] == b[i]
                    &&& final(self).blocks@[c@].used
                    &&& final(self).blocks@[c@].payload == p
                    &&& final(self).blocks@[c@].addr + final(self).blocks@[c@].size - p
                        >= new_layout.spec_size()
                    &&& p != b[i].payload
                    &&& p % 8 == 0
                    &&& b[i].payload % 8 == 0
                },
            },
    {
        let ghost b = self.blocks@;
        let ghost st = self.start as int;
        let ghost en = self.end as int;
        proof {
            lemma_chain_at(b, st, en, i);
            lemma_used_contained(self.arena, b, st, en, i);
        }
        let new_ptr: usize = match self.allocate(new_layout) {
            Some(p) => p,
            None => {
                return None;
            },
        };
        let ghost c = old(self).choice(new_layout.spec_size() as int, new_layout.spec_align() as int)->0;
        let ghost taken = needed_size(
            b[c].addr as int,
            new_layout.spec_size() as int,
            new_layout.spec_align() as int,
        );
        let ghost b2 = self.blocks@;
        let ghost i2 = if taken != b[c].size && i > c {
            i + 1
        } else {
            i
        };
        proof {
            lemma_chain_at(b, st, en, c);
            assert(b2[c].used && b2[c].payload == new_ptr);
            assert(b2[i2] == b[i]);
            lemma_chain_at(b2, st, en, c);
            lemma_chain_at(b2, st, en, i2);
            lemma_used_contained(self.arena, b2, st, en, c);
            lemma_used_contained(self.arena, b2, st, en, i2);
            if c < i2 {
                lemma_chain_sorted(b2, st, en, c, i2);
            } else {
                lemma_chain_sorted(b2, st, en, i2, c);
            }
            lemma_needed_size(
                b[c].addr as int,
                new_layout.spec_size() as int,
                new_layout.spec_align() as int,
            );
        }
        Some((new_ptr, Ghost(c), Ghost(i2)))
    }

    /// Moves the payload of the used block at `hdr` to a new block for
    /// `new_layout`: allocates the block, copies the words of the payload,
    /// and frees the old block.
    #[verifier::spinoff_prover]
    #[verifier::rlimit(60)]
    fn move_block(
        &mut self,
        hdr: usize,
        ptr: usize,
        usable: usize,
        new_layout: &Layout,
        Ghost(i): Ghost<int>,
    ) -> (r: Option<usize>)
        requires
            old(self).wf(),
            0 <= i < old(self).blocks@.len(),
            old(self).blocks@[i].used,
            hdr == old(self).blocks@[i].addr,
            ptr == old(self).blocks@[i].payload,
            usable == hdr + old(self).blocks@[i].size - ptr,
            new_layout.spec_size() > usable,
        ensures
            final(self).wf(),
            final(self).spec_total() == old(self).spec_total(),
            final(self).spec_start() == old(self).spec_start(),
            match old(self).choice(new_layout.spec_size() as int, new_layout.spec_align() as int) {
                None => r is None && *final(self) == *old(self),
                Some(c) => {
                    let b = old(self).blocks@;
                    let x = b[i];
                    let taken = needed_size(
                        b[c].addr as int,
                        new_layout.spec_size() as int,
                        new_layout.spec_align() as int,
                    );
                    let p = payload_at(b[c].addr as int, new_layout.spec_align() as int);
                    let moved = chain_after_alloc(b, c, taken, p, new_layout.spec_align() as int);
                    &&& r == Some(p as usize)
                    &&& p != x.payload
                    &&& final(self).blocks() == chain_after_free(
                        moved,
                        index_of_payload(moved, x.payload as int),
                    )
                    &&& forall|a: int|
                        x.payload <= a && a + 8 <= x.addr + x.size && a % 8 == 0 ==> final(self).word(
                            a - x.payload + p,
                        ) == #[trigger] old(self).word(a)
                    &&& forall|a: int| #[trigger]
                        old(self).in_payload(a) && payload_owner(b, a) != i ==> final(self).word(a)
                            == old(self).word(a)
                },
            },
    {
        let ghost b = self.blocks@;
        let ghost st = self.start as int;
        let ghost en = self.end as int;
        let ghost x = b[i];
        proof {
            lemma_chain_at(b, st, en, i);
            lemma_used_contained(self.arena, b, st, en, i);
        }
        let (new_ptr, Ghost(c), Ghost(i2)) = match self.allocate_beside(new_layout, Ghost(i)) {
            Some(found) => found,
            None => {
                return None;
            },
        };
        let ghost mid = *self;
        let ghost taken = needed_size(
            b[c].addr as int,
            new_layout.spec_size() as int,
            new_layout.spec_align() as int,
        );
        let ghost b2 = self.blocks@;
        let words: usize = usable / 8;
        self.copy_words(ptr, new_ptr, words, Ghost(i2), Ghost(c));
        let ghost copied = *self;
        proof {
            self.lemma_in_payload(i2, ptr as int);
            assert(self.is_payload(ptr));
            self.lemma_payload_unique(i2, self.payload_index(ptr));
            assert(index_of_payload(b2, ptr as int) == i2);
        }
        let _ = self.release(hdr, Ghost(i2));
        proof {
            assert forall|a: int|
                x.payload <= a && a + 8 <= x.addr + x.size && a % 8 == 0 implies self.word(
                a - x.payload + new_ptr,
            ) == #[trigger] old(self).word(a) by {
                assert(a < ptr + 8 * words);
                old(self).lemma_in_payload(i, a);
                assert(mid.word(a) == old(self).word(a));
                assert(copied.word(a - ptr + new_ptr) == mid.word(a));
                copied.lemma_in_payload(c, a - ptr + new_ptr);
            }
            assert forall|a: int| #[trigger]
                old(self).in_payload(a) && payload_owner(b, a) != i implies self.word(a) == old(
                self,
            ).word(a) by {
                let q = payload_owner(b, a);
                assert(b[q].used && b[q].payload <= a && a + 8 <= b[q].addr + b[q].size && a % 8 == 0);
                lemma_chain_unique_ne(b, st, en, q, c);
                let q2 = if taken != b[c].size && q > c {
                    q + 1
                } else {
                    q
                };
                assert(b2[q2] == b[q]);
                mid.lemma_in_payload(q2, a);
                copied.lemma_in_payload(q2, a);
                assert(mid.word(a) == old(self).word(a));
                assert(copied.word(a) == mid.word(a));
            }
        }
        Some(new_ptr)
    }

    /// Changes the size of the block whose payload is at `ptr`, which was
    /// allocated with the alignment of `new_layout`, to the size of
    /// `new_layout`.
    ///
    /// The block stays as it is where it is large enough. Else it grows
    /// where it is, if the block behind it is free and the two are large
    /// enough. Else a new block is allocated, the words of the payload are
    /// copied to it, and the old block is freed. Returns the address of the
    /// payload; none where no block could be allocated, and then nothing
    /// has changed.
    pub fn reallocate(&mut self, ptr: usize, new_layout: &Layout) -> (r: Option<usize>)
        requires
            old(self).wf(),
            old(self).is_payload(ptr),
            (old(self).blocks()[old(self).payload_index(ptr)].align >= 32) == (new_layout.spec_align()
                >= 32),
        ensures
            final(self).wf(),
            final(self).spec_total() == old(self).spec_total(),
            final(self).resized(
                old(self),
                old(self).payload_index(ptr),
                new_layout.spec_size() as int,
                new_layout.spec_align() as int,
                r,
            ),
    {
        let ghost i = self.payload_index(ptr);
        let ghost b = self.blocks@;
        proof {
            lemma_chain_at(b, self.start as int, self.end as int, i);
            lemma_used_contained(self.arena, b, self.start as int, self.end as int, i);
            assert(blk_recorded(self.arena, b, i)) by {
                reveal(chain_recorded);
            }
        }
        let hdr: usize = if new_layout.align() >= TLSF_GRANULARITY {
            self.arena.read(ptr - 8)
        } else {
            ptr - TLSF_HDR_SIZE
        };
        self.resize(hdr, ptr, new_layout, Ghost(i))
    }

    /// Changes the size of the block whose payload is at `ptr`, whatever
    /// alignment it was allocated with, to `new_size` bytes. A new block,
    /// where one is needed, is aligned to 8 bytes. Returns none, and changes
    /// nothing, where `new_size` is no size of a layout.
    pub fn reallocate_unknown_align(&mut self, ptr: usize, new_size: usize) -> (r: Option<usize>)
        requires
            old(self).wf(),
            old(self).is_payload(ptr),
        ensures
            final(self).wf(),
            final(self).spec_total() == old(self).spec_total(),
            if valid_layout(new_size as int, 8) {
                final(self).resized(old(self), old(self).payload_index(ptr), new_size as int, 8, r)
            } else {
                r is None && *final(self) == *old(self)
            },
    {
        let new_layout = match Layout::from_size_align(new_size, 8) {
            Ok(l) => l,
            Err(_) => {
                return None;
            },
        };
        let ghost i = self.payload_index(ptr);
        let hdr = self.header_of(ptr);
        self.resize(hdr, ptr, &new_layout, Ghost(i))
    }

    /// The block that serves a request is a free block of the chain.
    pub proof fn lemma_choice(&self, size: int, align: int)
        requires
            self.wf(),
            self.choice(size, align) is Some,
        ensures
            0 <= self.choice(size, align)->0 < self.blocks().len(),
            !self.blocks()[self.choice(size, align)->0].used,
    {
        let v = self.lists@;
        let from = crate::tlsf_map::ceil_key(search_size(size, align));
        lemma_lowest_class_found(v, from);
        let key = lowest_class(v, from)->0;
        let a = v[key].last();
        assert(v[key][v[key].len() - 1] == a);
        let j = self.lemma_listed_is_free(key, v[key].len() - 1);
        let c = index_of(self.blocks@, a as int);
        lemma_chain_unique(self.blocks@, self.start as int, self.end as int, c, j);
    }

    /// A reallocation leaves no two free neighbours where there were none.
    pub proof fn lemma_resized_coalesced(
        &self,
        before: &Tlsf,
        i: int,
        new_size: int,
        new_align: int,
        r: Option<usize>,
    )
        requires
            before.wf(),
            0 <= i < before.blocks().len(),
            before.blocks()[i].used,
            self.resized(before, i, new_size, new_align, r),
            coalesced(before.blocks()),
        ensures
            coalesced(self.blocks()),
    {
        let b = before.blocks();
        let x = b[i];
        let need = needed_size(x.addr as int, new_size, x.align as int);
        if new_size <= x.addr + x.size - x.payload {
        } else if can_grow(b, i, need) {
            lemma_grow_coalesced(b, i, need);
        } else if let Some(c) = before.choice(new_size, new_align) {
            before.lemma_choice(new_size, new_align);
            let taken = needed_size(b[c].addr as int, new_size, new_align);
            let p = payload_at(b[c].addr as int, new_align);
            let moved = chain_after_alloc(b, c, taken, p, new_align);
            lemma_alloc_coalesced(b, c, taken, p, new_align);
            let at = if i < c || taken == b[c].size {
                i
            } else {
                i + 1
            };
            assert(moved[at] == x);
            let k = index_of_payload(moved, x.payload as int);
            lemma_free_coalesced(moved, k);
        }
    }

    /// An allocation keeps the used blocks: a payload of before is a
    /// payload afterwards, of the same block.
    pub proof fn lemma_alloc_keeps(
        &self,
        before: &Tlsf,
        i: int,
        taken: int,
        payload: int,
        align: int,
        p: usize,
    )
        requires
            before.wf(),
            self.wf(),
            0 <= i < before.blocks().len(),
            !before.blocks()[i].used,
            self.blocks() == chain_after_alloc(before.blocks(), i, taken, payload, align),
            before.is_payload(p),
        ensures
            self.is_payload(p),
            self.blocks()[self.payload_index(p)] == before.blocks()[before.payload_index(p)],
    {
        let b = before.blocks();
        let j = before.payload_index(p);
        let at = if j < i || taken == b[i].size {
            j
        } else {
            j + 1
        };
        assert(self.blocks()[at] == b[j]);
        self.lemma_payload_index(at);
    }

    /// Freeing a block keeps the other used blocks: a payload of before
    /// that is not the one freed is a payload afterwards, of the same
    /// block.
    pub proof fn lemma_free_keeps(&self, before: &Tlsf, i: int, p: usize)
        requires
            before.wf(),
            self.wf(),
            0 <= i < before.blocks().len(),
            before.blocks()[i].used,
            self.blocks() == chain_after_free(before.blocks(), i),
            before.is_payload(p),
            before.payload_index(p) != i,
        ensures
            self.is_payload(p),
            self.blocks()[self.payload_index(p)] == before.blocks()[before.payload_index(p)],
    {
        let b = before.blocks();
        let j = before.payload_index(p);
        let next_free = i + 1 < b.len() && !b[i + 1].used;
        let prev_free = i > 0 && !b[i - 1].used;
        let at = if j < i {
            j
        } else {
            j - (if next_free {
                1int
            } else {
                0int
            }) - (if prev_free {
                1int
            } else {
                0int
            })
        };
        assert(self.blocks()[at] == b[j]);
        self.lemma_payload_index(at);
    }

    /// Every block lies on granule boundaries and holds a granule at
    /// least.
    pub proof fn lemma_block_ok(&self, i: int)
        requires
            self.wf(),
            0 <= i < self.blocks().len(),
        ensures
            blk_ok(self.blocks()[i]),
    {
        lemma_chain_at(self.blocks@, self.start as int, self.end as int, i);
    }

    /// The payload of a used block lies inside the block, behind its
    /// header.
    pub proof fn lemma_payload_inside(&self, i: int)
        requires
            self.wf(),
            0 <= i < self.blocks().len(),
            self.blocks()[i].used,
        ensures
            self.blocks()[i].addr + 16 <= self.blocks()[i].payload < self.blocks()[i].addr
                + self.blocks()[i].size,
    {
        lemma_used_contained(self.arena, self.blocks@, self.start as int, self.end as int, i);
    }

    /// An address inside a free block is no payload.
    pub proof fn lemma_free_is_no_payload(&self, i: int, p: usize)
        requires
            self.wf(),
            0 <= i < self.blocks().len(),
            !self.blocks()[i].used,
            self.blocks()[i].addr <= p < self.blocks()[i].addr + self.blocks()[i].size,
        ensures
            !self.is_payload(p),
    {
        if self.is_payload(p) {
            let b = self.blocks@;
            let j = index_of_payload(b, p as int);
            lemma_used_contained(self.arena, b, self.start as int, self.end as int, j);
            if i < j {
                lemma_chain_sorted(b, self.start as int, self.end as int, i, j);
            } else {
                lemma_chain_sorted(b, self.start as int, self.end as int, j, i);
            }
        }
    }
}

} // verus!
