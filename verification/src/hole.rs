//! A first-fit allocator over a sorted list of holes.
//!
//! The free memory of the arena is a list of *holes* in address order. Each
//! hole is recorded in its own first two words: its size and the address of
//! the next hole. Allocation walks the list and carves a used block out of
//! the first hole that is large enough; deallocation puts the block back at
//! its place in the list and merges it with the holes it touches.

use vstd::prelude::*;
use crate::arena::Arena;
use crate::block::{
    block_size, lemma_granule_is_words, lemma_payload_addr, lemma_pow2_below_16, payload_addr,
    used_block_hdr_for_allocation, used_block_hdr_for_allocation_unknown_align, GRANULARITY,
    HOLE_ALIGN, SIZE_USED, USED_HDR_SIZE,
};
use crate::layout::{valid_layout, Layout, LayoutError};
use crate::support::{
    align_down_size, align_down_spec, align_up_spec, checked_align_up, is_power_of_two,
    lemma_align_down, lemma_align_up,
};

verus! {

/// Address and size of a hole.
#[derive(Clone, Copy, Debug, PartialEq, Eq)]
pub struct HoleInfo {
    pub addr: usize,
    pub size: usize,
}

/// A block that was handed out and not given back yet.
#[derive(Clone, Copy, Debug, PartialEq, Eq)]
pub struct UsedBlock {
    /// Address that the caller received.
    pub payload: usize,
    /// Address of the block's header.
    pub addr: usize,
    /// Bytes of the block, header and padding included.
    pub size: usize,
    /// Alignment that the block was allocated with.
    pub align: usize,
}

/// A hole as it is recorded: its size and the address of the hole after it.
#[derive(Clone, Copy, Debug, PartialEq, Eq)]
pub struct Hole {
    pub size: usize,
    pub next: Option<usize>,
}

/// A sorted list of holes, stored in the holes themselves.
pub struct HoleList {
    /// Dummy head: its `next` is the first hole.
    first: Hole,
    bottom: usize,
    top: usize,
    pending_extend: u8,
    allocated: usize,
    maximum: usize,
    arena: Arena,
    holes: Ghost<Seq<HoleInfo>>,
    used: Ghost<Seq<UsedBlock>>,
}

/// A position in the list: a hole and the hole before it.
#[derive(Clone, Copy)]
pub struct Cursor {
    /// Address of the hole before `hole`; 0 stands for the dummy head.
    prev: usize,
    hole: usize,
    top: usize,
    index: Ghost<int>,
}

/// The range of `size` bytes at `addr` lies on word boundaries inside
/// `[bottom, top)` and holds a granule at least; before it and behind it
/// lies nothing or room for a granule.
pub open spec fn range_ok(addr: int, size: int, bottom: int, top: int) -> bool {
    &&& addr % 8 == 0
    &&& size % 8 == 0
    &&& size >= 16
    &&& bottom <= addr
    &&& addr + size <= top
    &&& addr == bottom || bottom + 16 <= addr
    &&& addr + size == top || addr + size + 16 <= top
}

/// The hole lies on word boundaries inside `[bottom, top)` and holds a
/// granule at least; before it and behind it lies nothing or room for a
/// granule.
pub open spec fn hole_ok(h: HoleInfo, bottom: int, top: int) -> bool {
    range_ok(h.addr as int, h.size as int, bottom, top)
}

/// The holes are in address order and do not overlap. Two neighbours may
/// touch only where the first of them has an index in `[lo, hi)`; all other
/// holes have used memory between them.
pub open spec fn holes_ordered(s: Seq<HoleInfo>, lo: int, hi: int) -> bool {
    forall|i: int, j: int|
        0 <= i < j < s.len() ==> {
            &&& (#[trigger] s[i]).addr + s[i].size <= (#[trigger] s[j]).addr
            &&& (!(j == i + 1 && lo <= i < hi) ==> s[i].addr + s[i].size < s[j].addr)
        }
}

/// Two byte ranges have no byte in common.
pub open spec fn disjoint(a1: int, s1: int, a2: int, s2: int) -> bool {
    a1 + s1 <= a2 || a2 + s2 <= a1
}

/// The used block lies on word boundaries inside `[bottom, top)` as a hole
/// does, and its payload is where its alignment puts it.
pub open spec fn used_ok(u: UsedBlock, bottom: int, top: int) -> bool {
    &&& range_ok(u.addr as int, u.size as int, bottom, top)
    &&& is_power_of_two(u.align as int)
    &&& u.align >= 8
    &&& u.payload == payload_addr(u.addr as int, u.align as int)
    &&& u.payload < u.addr + u.size
}

/// Every hole of `s` lies in `[bottom, top)`, and the holes are ordered as
/// `holes_ordered` says.
#[verifier::opaque]
pub open spec fn holes_wf(s: Seq<HoleInfo>, bottom: int, top: int, lo: int, hi: int) -> bool {
    &&& forall|i: int| 0 <= i < s.len() ==> hole_ok(#[trigger] s[i], bottom, top)
    &&& holes_ordered(s, lo, hi)
}

/// No used block of `u` overlaps the range `[lo, hi)`.
#[verifier::opaque]
pub open spec fn clear(u: Seq<UsedBlock>, lo: int, hi: int) -> bool {
    forall|i: int|
        0 <= i < u.len() ==> disjoint((#[trigger] u[i]).addr as int, u[i].size as int, lo, hi - lo)
}

/// No hole of `s` overlaps the range `[lo, hi)`.
#[verifier::opaque]
pub open spec fn clear_of_holes(s: Seq<HoleInfo>, lo: int, hi: int) -> bool {
    forall|j: int|
        0 <= j < s.len() ==> disjoint((#[trigger] s[j]).addr as int, s[j].size as int, lo, hi - lo)
}

/// No used block of `u` overlaps a hole of `s`.
#[verifier::opaque]
pub open spec fn apart(s: Seq<HoleInfo>, u: Seq<UsedBlock>) -> bool {
    forall|i: int, j: int|
        0 <= i < u.len() && 0 <= j < s.len() ==> disjoint(
            (#[trigger] u[i]).addr as int,
            u[i].size as int,
            (#[trigger] s[j]).addr as int,
            s[j].size as int,
        )
}

/// Total size of the blocks in `s`.
#[verifier::opaque]
pub open spec fn used_bytes(s: Seq<UsedBlock>) -> int
    decreases s.len(),
{
    if s.len() == 0 {
        0
    } else {
        used_bytes(s.drop_last()) + s.last().size
    }
}

/// Total size of the holes in `s`.
#[verifier::opaque]
pub open spec fn hole_bytes(s: Seq<HoleInfo>) -> int
    decreases s.len(),
{
    if s.len() == 0 {
        0
    } else {
        hole_bytes(s.drop_last()) + s.last().size
    }
}

/// No blocks take no bytes, and neither do no holes.
pub proof fn lemma_bytes_empty()
    ensures
        used_bytes(Seq::<UsedBlock>::empty()) == 0,
        hole_bytes(Seq::<HoleInfo>::empty()) == 0,
{
    reveal(used_bytes);
    reveal(hole_bytes);
}

/// A block that enters the sequence adds its size to the total.
pub proof fn lemma_used_bytes_insert(s: Seq<UsedBlock>, k: int, x: UsedBlock)
    requires
        0 <= k <= s.len(),
    ensures
        used_bytes(s.insert(k, x)) == used_bytes(s) + x.size,
    decreases s.len() - k,
{
    reveal(used_bytes);
    let t = s.insert(k, x);
    if k == s.len() {
        assert(t.drop_last() =~= s);
    } else {
        assert(t.drop_last() =~= s.drop_last().insert(k, x));
        assert(t.last() == s.last());
        lemma_used_bytes_insert(s.drop_last(), k, x);
    }
}

/// A block that leaves the sequence takes its size from the total.
pub proof fn lemma_used_bytes_remove(s: Seq<UsedBlock>, k: int)
    requires
        0 <= k < s.len(),
    ensures
        used_bytes(s.remove(k)) == used_bytes(s) - s[k].size,
{
    let t = s.remove(k);
    assert(t.insert(k, s[k]) =~= s);
    lemma_used_bytes_insert(t, k, s[k]);
}

/// A hole that enters the sequence adds its size to the total.
pub proof fn lemma_hole_bytes_insert(s: Seq<HoleInfo>, k: int, x: HoleInfo)
    requires
        0 <= k <= s.len(),
    ensures
        hole_bytes(s.insert(k, x)) == hole_bytes(s) + x.size,
    decreases s.len() - k,
{
    reveal(hole_bytes);
    let t = s.insert(k, x);
    if k == s.len() {
        assert(t.drop_last() =~= s);
    } else {
        assert(t.drop_last() =~= s.drop_last().insert(k, x));
        assert(t.last() == s.last());
        lemma_hole_bytes_insert(s.drop_last(), k, x);
    }
}

/// A hole that leaves the sequence takes its size from the total.
pub proof fn lemma_hole_bytes_remove(s: Seq<HoleInfo>, k: int)
    requires
        0 <= k < s.len(),
    ensures
        hole_bytes(s.remove(k)) == hole_bytes(s) - s[k].size,
{
    let t = s.remove(k);
    assert(t.insert(k, s[k]) =~= s);
    lemma_hole_bytes_insert(t, k, s[k]);
}

/// A hole that changes its size changes the total by the difference.
pub proof fn lemma_hole_bytes_update(s: Seq<HoleInfo>, k: int, x: HoleInfo)
    requires
        0 <= k < s.len(),
    ensures
        hole_bytes(s.update(k, x)) == hole_bytes(s) - s[k].size + x.size,
{
    let t = s.remove(k);
    assert(t.insert(k, x) =~= s.update(k, x));
    lemma_hole_bytes_remove(s, k);
    lemma_hole_bytes_insert(t, k, x);
}

/// Holes take no less than no bytes.
pub proof fn lemma_hole_bytes_nonnegative(s: Seq<HoleInfo>)
    ensures
        hole_bytes(s) >= 0,
    decreases s.len(),
{
    reveal(hole_bytes);
    if s.len() > 0 {
        lemma_hole_bytes_nonnegative(s.drop_last());
    }
}

/// Used blocks take no less than no bytes.
pub proof fn lemma_used_bytes_nonnegative(s: Seq<UsedBlock>)
    ensures
        used_bytes(s) >= 0,
    decreases s.len(),
{
    reveal(used_bytes);
    if s.len() > 0 {
        lemma_used_bytes_nonnegative(s.drop_last());
    }
}

/// Address word that stands for an optional hole address.
pub open spec fn link_word(next: Option<usize>) -> usize {
    match next {
        Some(a) => a,
        None => 0,
    }
}

/// The link that the hole at index `i` of `s` holds.
pub open spec fn next_of(s: Seq<HoleInfo>, i: int) -> Option<usize> {
    if i + 1 < s.len() {
        Some(s[i + 1].addr)
    } else {
        None
    }
}

/// Address of the hole before index `i` of `s`; 0, which stands for the
/// dummy head, before the first hole.
pub open spec fn prev_of(s: Seq<HoleInfo>, i: int) -> usize {
    if i > 0 {
        s[i - 1].addr
    } else {
        0
    }
}

/// The first hole that can hold `size` bytes aligned to `align`, from index
/// `from` on.
pub open spec fn first_fit(s: Seq<HoleInfo>, size: int, align: int, from: int) -> Option<int>
    decreases s.len() - from,
{
    if from < 0 || from >= s.len() {
        None
    } else if block_size(s[from].addr as int, size, align) <= s[from].size {
        Some(from)
    } else {
        first_fit(s, size, align, from + 1)
    }
}

/// Bytes of the block that is carved from a hole of `hole_size` bytes for a
/// request that needs `needed` bytes: what the request needs where a
/// granule or more is left behind it, and else the whole hole.
pub open spec fn taken_size(hole_size: int, needed: int) -> int {
    if hole_size - needed >= 16 {
        needed
    } else {
        hole_size
    }
}

/// The holes after a block of `taken` bytes was carved from the front of
/// the hole at index `i`: the hole shrinks, or leaves the list when the
/// block takes all of it.
pub open spec fn holes_after_split(s: Seq<HoleInfo>, i: int, taken: int) -> Seq<HoleInfo> {
    if s[i].size == taken {
        s.remove(i)
    } else {
        s.update(i, HoleInfo { addr: (s[i].addr + taken) as usize, size: (s[i].size - taken) as usize })
    }
}

/// Number of holes of `s` that lie below `addr`.
pub open spec fn insert_index(s: Seq<HoleInfo>, addr: int) -> int
    decreases s.len(),
{
    if s.len() == 0 {
        0
    } else if s.last().addr < addr {
        s.len() as int
    } else {
        insert_index(s.drop_last(), addr)
    }
}

/// The hole at index `c` and the hole after it touch.
pub open spec fn touching(s: Seq<HoleInfo>, c: int) -> bool {
    0 <= c && c + 1 < s.len() && s[c].addr + s[c].size == s[c + 1].addr
}

/// The hole at index `c` merged with the hole after it, where the two touch.
pub open spec fn merge_at(s: Seq<HoleInfo>, c: int) -> Seq<HoleInfo> {
    if touching(s, c) {
        s.update(c, HoleInfo { addr: s[c].addr, size: (s[c].size + s[c + 1].size) as usize }).remove(
            c + 1,
        )
    } else {
        s
    }
}

/// The holes after `n` steps of merging from index `c` on: a step merges
/// the hole at the index with the hole after it where the two touch, and
/// goes on to the next index where they do not.
pub open spec fn merge_n(s: Seq<HoleInfo>, c: int, n: nat) -> Seq<HoleInfo>
    decreases n,
{
    if n == 0 || c < 0 || c + 1 >= s.len() {
        s
    } else if touching(s, c) {
        merge_n(merge_at(s, c), c, (n - 1) as nat)
    } else {
        merge_n(s, c + 1, (n - 1) as nat)
    }
}

/// The holes after the range `b` was freed: `b` enters the list at its
/// place in address order, then merges with the hole before it and with the
/// hole after it, where it touches them.
pub open spec fn holes_after_free(s: Seq<HoleInfo>, b: HoleInfo) -> Seq<HoleInfo> {
    let k = insert_index(s, b.addr as int);
    let s1 = s.insert(k, b);
    if k == 0 {
        merge_at(s1, 0)
    } else {
        let s2 = merge_at(s1, k - 1);
        if s2.len() < s1.len() {
            merge_at(s2, k - 1)
        } else {
            merge_at(s2, k)
        }
    }
}

/// What `holes_wf` says of the hole at index `i`.
proof fn lemma_wf_at(s: Seq<HoleInfo>, bottom: int, top: int, lo: int, hi: int, i: int)
    requires
        holes_wf(s, bottom, top, lo, hi),
        0 <= i < s.len(),
    ensures
        hole_ok(s[i], bottom, top),
{
    reveal(holes_wf);
}

/// What `holes_wf` says of the holes at indices `i < j`.
proof fn lemma_wf_pair(s: Seq<HoleInfo>, bottom: int, top: int, lo: int, hi: int, i: int, j: int)
    requires
        holes_wf(s, bottom, top, lo, hi),
        0 <= i < j < s.len(),
    ensures
        s[i].addr + s[i].size <= s[j].addr,
        !(j == i + 1 && lo <= i < hi) ==> s[i].addr + s[i].size < s[j].addr,
        hole_ok(s[i], bottom, top),
        hole_ok(s[j], bottom, top),
{
    reveal(holes_wf);
}

/// A hole is clear of used blocks.
proof fn lemma_clear_hole(s: Seq<HoleInfo>, u: Seq<UsedBlock>, j: int)
    requires
        apart(s, u),
        0 <= j < s.len(),
    ensures
        clear(u, s[j].addr as int, s[j].addr + s[j].size),
{
    reveal(clear);
    reveal(apart);
    assert forall|i: int| 0 <= i < u.len() implies disjoint(
        (#[trigger] u[i]).addr as int,
        u[i].size as int,
        s[j].addr as int,
        s[j].addr + s[j].size - s[j].addr,
    ) by {
        assert(disjoint(u[i].addr as int, u[i].size as int, s[j].addr as int, s[j].size as int));
    }
}

/// More than a word in whole words is a granule at least.
pub proof fn lemma_words_above(x: int)
    requires
        x % 8 == 0,
        x > 8,
    ensures
        x >= 16,
{
}

/// One word behind a word boundary lies a word boundary.
pub proof fn lemma_word_after(a: int)
    requires
        a % 8 == 0,
    ensures
        (a + 8) % 8 == 0,
{
}

/// One word before a word boundary lies a word boundary.
pub proof fn lemma_word_before(p: int)
    requires
        p % 8 == 0,
    ensures
        (p - 8) % 8 == 0,
{
}

/// The used blocks lie in `[bottom, top)` and do not overlap.
#[verifier::opaque]
pub open spec fn used_wf(u: Seq<UsedBlock>, bottom: int, top: int) -> bool {
    &&& forall|i: int| 0 <= i < u.len() ==> used_ok(#[trigger] u[i], bottom, top)
    &&& forall|i: int, j: int|
        0 <= i < j < u.len() ==> disjoint(
            (#[trigger] u[i]).addr as int,
            u[i].size as int,
            (#[trigger] u[j]).addr as int,
            u[j].size as int,
        )
}

/// What `used_wf` says of the block at index `i`.
proof fn lemma_used_at(u: Seq<UsedBlock>, bottom: int, top: int, i: int)
    requires
        used_wf(u, bottom, top),
        0 <= i < u.len(),
    ensures
        used_ok(u[i], bottom, top),
        u[i].payload % 8 == 0,
        u[i].addr + 8 <= u[i].payload,
        u[i].align >= 16 ==> u[i].addr + 16 <= u[i].payload,
        u[i].align < 16 ==> u[i].addr + 8 == u[i].payload,
{
    reveal(used_wf);
    assert(used_ok(u[i], bottom, top));
    lemma_payload_addr(u[i].addr as int, u[i].align as int);
    if u[i].align < 16 {
        lemma_pow2_below_16(u[i].align as int);
    }
}

/// Two used blocks with one payload are one block.
pub proof fn lemma_used_unique(u: Seq<UsedBlock>, bottom: int, top: int, i: int, j: int)
    requires
        used_wf(u, bottom, top),
        0 <= i < u.len(),
        0 <= j < u.len(),
        u[i].payload == u[j].payload,
    ensures
        i == j,
{
    lemma_used_at(u, bottom, top, i);
    lemma_used_at(u, bottom, top, j);
    reveal(used_wf);
    if i < j {
        assert(disjoint(u[i].addr as int, u[i].size as int, u[j].addr as int, u[j].size as int));
    } else if j < i {
        assert(disjoint(u[j].addr as int, u[j].size as int, u[i].addr as int, u[i].size as int));
    }
}

/// A split keeps the holes in order and apart from the used blocks, the
/// new block among them.
proof fn lemma_split_pure(
    s: Seq<HoleInfo>,
    u: Seq<UsedBlock>,
    c: int,
    b: UsedBlock,
    bottom: int,
    top: int,
)
    requires
        holes_wf(s, bottom, top, 0, 0),
        apart(s, u),
        used_wf(u, bottom, top),
        0 <= c < s.len(),
        b.addr == s[c].addr,
        16 <= b.size <= s[c].size,
        b.size % 8 == 0,
        b.size == s[c].size || b.size + 16 <= s[c].size,
        used_ok(b, bottom, top),
        0 <= bottom,
        top <= usize::MAX,
    ensures
        holes_wf(holes_after_split(s, c, b.size as int), bottom, top, 0, 0),
        apart(holes_after_split(s, c, b.size as int), u.push(b)),
        used_wf(u.push(b), bottom, top),
{
    reveal(holes_wf);
    reveal(apart);
    reveal(used_wf);
    let s2 = holes_after_split(s, c, b.size as int);
    let u2 = u.push(b);
    let whole = s[c].size == b.size;
    assert(hole_ok(s[c], bottom, top));
    assert forall|i: int| 0 <= i < s2.len() implies hole_ok(#[trigger] s2[i], bottom, top) by {
        let j = if whole && i >= c {
            i + 1
        } else {
            i
        };
        assert(hole_ok(s[j], bottom, top));
    }
    assert forall|i: int, j: int| 0 <= i < j < s2.len() implies (#[trigger] s2[i]).addr + s2[i].size
        < (#[trigger] s2[j]).addr by {
        let i0 = if whole && i >= c {
            i + 1
        } else {
            i
        };
        let j0 = if whole && j >= c {
            j + 1
        } else {
            j
        };
        assert(s[i0].addr + s[i0].size < s[j0].addr);
    }
    assert forall|i: int, j: int| 0 <= i < u2.len() && 0 <= j < s2.len() implies disjoint(
        (#[trigger] u2[i]).addr as int,
        u2[i].size as int,
        (#[trigger] s2[j]).addr as int,
        s2[j].size as int,
    ) by {
        let j0 = if whole && j >= c {
            j + 1
        } else {
            j
        };
        if i < u.len() {
            assert(disjoint(u[i].addr as int, u[i].size as int, s[j0].addr as int, s[j0].size as int));
        } else {
            if j0 < c {
                assert(s[j0].addr + s[j0].size < s[c].addr);
            } else if j0 > c {
                assert(s[c].addr + s[c].size < s[j0].addr);
            }
        }
    }
    assert forall|i: int| 0 <= i < u2.len() implies used_ok(#[trigger] u2[i], bottom, top) by {
        if i < u.len() {
            assert(used_ok(u[i], bottom, top));
        }
    }
    assert forall|i: int, j: int| 0 <= i < j < u2.len() implies disjoint(
        (#[trigger] u2[i]).addr as int,
        u2[i].size as int,
        (#[trigger] u2[j]).addr as int,
        u2[j].size as int,
    ) by {
        if j < u.len() {
            assert(disjoint(u[i].addr as int, u[i].size as int, u[j].addr as int, u[j].size as int));
        } else {
            assert(disjoint(u[i].addr as int, u[i].size as int, s[c].addr as int, s[c].size as int));
        }
    }
}

/// Where a range goes among sorted holes: behind the holes below it.
proof fn lemma_insert_index(s: Seq<HoleInfo>, bottom: int, top: int, k: int, addr: int)
    requires
        holes_wf(s, bottom, top, 0, 0),
        0 <= k <= s.len(),
        k > 0 ==> s[k - 1].addr < addr,
        k < s.len() ==> addr <= s[k].addr,
    ensures
        insert_index(s, addr) == k,
    decreases s.len(),
{
    reveal(holes_wf);
    if s.len() > 0 {
        let n = s.len() as int;
        if k == n {
        } else {
            let t = s.drop_last();
            assert(s[k].addr + s[k].size <= s[n - 1].addr || k == n - 1);
            assert(hole_ok(s[k], bottom, top));
            assert(holes_wf(t, bottom, top, 0, 0)) by {
                assert forall|i: int| 0 <= i < t.len() implies hole_ok(#[trigger] t[i], bottom, top) by {
                    assert(hole_ok(s[i], bottom, top));
                }
                assert forall|i: int, j: int| 0 <= i < j < t.len() implies (#[trigger] t[i]).addr
                    + t[i].size < (#[trigger] t[j]).addr by {
                    assert(s[i].addr + s[i].size < s[j].addr);
                }
            }
            lemma_insert_index(t, bottom, top, k, addr);
        }
    }
}

/// A hole that enters the list at its place keeps the holes in order; it
/// may touch the hole before it and the hole after it.
proof fn lemma_insert_pure(
    s: Seq<HoleInfo>,
    u: Seq<UsedBlock>,
    k: int,
    b: HoleInfo,
    bottom: int,
    top: int,
)
    requires
        holes_wf(s, bottom, top, 0, 0),
        apart(s, u),
        hole_ok(b, bottom, top),
        clear(u, b.addr as int, b.addr + b.size),
        clear_of_holes(s, b.addr as int, b.addr + b.size),
        0 <= k <= s.len(),
        k > 0 ==> s[k - 1].addr < b.addr,
        k < s.len() ==> b.addr < s[k].addr,
    ensures
        holes_wf(s.insert(k, b), bottom, top, k - 1, k + 1),
        apart(s.insert(k, b), u),
        insert_index(s, b.addr as int) == k,
        hole_bytes(s.insert(k, b)) == hole_bytes(s) + b.size,
{
    lemma_insert_index(s, bottom, top, k, b.addr as int);
    lemma_hole_bytes_insert(s, k, b);
    reveal(holes_wf);
    reveal(apart);
    reveal(clear);
    reveal(clear_of_holes);
    let s2 = s.insert(k, b);
    assert forall|i: int| 0 <= i < s2.len() implies hole_ok(#[trigger] s2[i], bottom, top) by {
        if i < k {
            assert(hole_ok(s[i], bottom, top));
        } else if i > k {
            assert(hole_ok(s[i - 1], bottom, top));
        }
    }
    if k > 0 {
        assert(disjoint(s[k - 1].addr as int, s[k - 1].size as int, b.addr as int, b.addr + b.size - b.addr));
        assert(hole_ok(s[k - 1], bottom, top));
    }
    if k < s.len() {
        assert(disjoint(s[k].addr as int, s[k].size as int, b.addr as int, b.addr + b.size - b.addr));
        assert(hole_ok(s[k], bottom, top));
    }
    assert forall|i: int, j: int| 0 <= i < j < s2.len() implies {
        &&& (#[trigger] s2[i]).addr + s2[i].size <= (#[trigger] s2[j]).addr
        &&& (!(j == i + 1 && k - 1 <= i < k + 1) ==> s2[i].addr + s2[i].size < s2[j].addr)
    } by {
        let i0 = if i > k {
            i - 1
        } else {
            i
        };
        let j0 = if j > k {
            j - 1
        } else {
            j
        };
        if i == k {
            // b against a hole behind it
            assert(j0 >= k);
            if j0 > k {
                assert(s[k].addr + s[k].size < s[j0].addr);
            }
        } else if j == k {
            // a hole before b against b
            assert(i0 <= k - 1);
            if i0 < k - 1 {
                assert(s[i0].addr + s[i0].size < s[k - 1].addr);
            }
        } else {
            assert(s[i0].addr + s[i0].size < s[j0].addr);
        }
    }
    assert forall|i: int, j: int| 0 <= i < u.len() && 0 <= j < s2.len() implies disjoint(
        (#[trigger] u[i]).addr as int,
        u[i].size as int,
        (#[trigger] s2[j]).addr as int,
        s2[j].size as int,
    ) by {
        if j < k {
            assert(disjoint(u[i].addr as int, u[i].size as int, s[j].addr as int, s[j].size as int));
        } else if j > k {
            assert(disjoint(
                u[i].addr as int,
                u[i].size as int,
                s[j - 1].addr as int,
                s[j - 1].size as int,
            ));
        } else {
            assert(disjoint(u[i].addr as int, u[i].size as int, b.addr as int, b.addr + b.size - b.addr));
        }
    }
}

/// Two holes that touch merge into one hole; the order of the holes stays,
/// and one pair of neighbours less may touch.
proof fn lemma_merge_pure(
    s: Seq<HoleInfo>,
    u: Seq<UsedBlock>,
    c: int,
    n: int,
    bottom: int,
    top: int,
)
    requires
        holes_wf(s, bottom, top, c, c + n),
        n >= 1,
        touching(s, c),
        apart(s, u),
        used_wf(u, bottom, top),
        0 <= bottom,
        top <= usize::MAX,
    ensures
        holes_wf(merge_at(s, c), bottom, top, c, c + n - 1),
        apart(merge_at(s, c), u),
        hole_bytes(merge_at(s, c)) == hole_bytes(s),
        s[c].size + s[c + 1].size <= usize::MAX,
{
    reveal(holes_wf);
    reveal(apart);
    assert(hole_ok(s[c], bottom, top));
    assert(hole_ok(s[c + 1], bottom, top));
    let m = HoleInfo { addr: s[c].addr, size: (s[c].size + s[c + 1].size) as usize };
    let s1 = s.update(c, m);
    let s2 = merge_at(s, c);
    assert(s2 == s1.remove(c + 1));
    lemma_hole_bytes_update(s, c, m);
    lemma_hole_bytes_remove(s1, c + 1);
    assert forall|i: int| 0 <= i < s2.len() implies hole_ok(#[trigger] s2[i], bottom, top) by {
        let j = if i > c {
            i + 1
        } else {
            i
        };
        assert(hole_ok(s[j], bottom, top));
    }
    assert forall|i: int, j: int| 0 <= i < j < s2.len() implies {
        &&& (#[trigger] s2[i]).addr + s2[i].size <= (#[trigger] s2[j]).addr
        &&& (!(j == i + 1 && c <= i < c + n - 1) ==> s2[i].addr + s2[i].size < s2[j].addr)
    } by {
        let i0 = if i > c {
            i + 1
        } else {
            i
        };
        let j0 = if j > c {
            j + 1
        } else {
            j
        };
        if i == c {
            assert(s[c + 1].addr + s[c + 1].size <= s[j0].addr);
            if !(j == i + 1 && c <= i < c + n - 1) {
                if j0 == c + 2 {
                    assert(n == 1);
                }
                assert(s[c + 1].addr + s[c + 1].size < s[j0].addr);
            }
        } else {
            assert(s[i0].addr + s[i0].size <= s[j0].addr);
            if j == c {
                assert(s[i0].addr + s[i0].size < s[c].addr);
            } else {
                assert(!(j0 == i0 + 1 && c <= i0 < c + n) ==> s[i0].addr + s[i0].size < s[j0].addr);
            }
        }
    }
    assert forall|i: int, j: int| 0 <= i < u.len() && 0 <= j < s2.len() implies disjoint(
        (#[trigger] u[i]).addr as int,
        u[i].size as int,
        (#[trigger] s2[j]).addr as int,
        s2[j].size as int,
    ) by {
        let j0 = if j > c {
            j + 1
        } else {
            j
        };
        assert(disjoint(u[i].addr as int, u[i].size as int, s[j0].addr as int, s[j0].size as int));
        if j == c {
            assert(used_ok(u[i], bottom, top)) by {
                reveal(used_wf);
            }
            assert(disjoint(
                u[i].addr as int,
                u[i].size as int,
                s[c + 1].addr as int,
                s[c + 1].size as int,
            ));
        }
    }
}

/// Two neighbours that do not touch need no leave to touch.
proof fn lemma_skip_pure(s: Seq<HoleInfo>, c: int, n: int, bottom: int, top: int)
    requires
        holes_wf(s, bottom, top, c, c + n),
        0 <= c,
        c + 1 < s.len(),
        !touching(s, c),
    ensures
        holes_wf(s, bottom, top, c + 1, c + n),
{
    reveal(holes_wf);
    assert forall|i: int, j: int| 0 <= i < j < s.len() implies {
        &&& (#[trigger] s[i]).addr + s[i].size <= (#[trigger] s[j]).addr
        &&& (!(j == i + 1 && c + 1 <= i < c + n) ==> s[i].addr + s[i].size < s[j].addr)
    } by {
        assert(s[c].addr + s[c].size <= s[c + 1].addr);
    }
}

/// Where no pair of neighbours is left that may touch, none touches.
proof fn lemma_done_pure(s: Seq<HoleInfo>, c: int, n: int, bottom: int, top: int)
    requires
        holes_wf(s, bottom, top, c, c + n),
        n <= 0 || c + 1 >= s.len(),
    ensures
        holes_wf(s, bottom, top, 0, 0),
{
    reveal(holes_wf);
}

/// A used block that is given back leaves a range that is clear of holes
/// and of the other used blocks.
proof fn lemma_release_pure(s: Seq<HoleInfo>, u: Seq<UsedBlock>, i: int, bottom: int, top: int)
    requires
        apart(s, u),
        used_wf(u, bottom, top),
        0 <= i < u.len(),
    ensures
        apart(s, u.remove(i)),
        used_wf(u.remove(i), bottom, top),
        clear(u.remove(i), u[i].addr as int, u[i].addr + u[i].size),
        clear_of_holes(s, u[i].addr as int, u[i].addr + u[i].size),
        hole_ok(HoleInfo { addr: u[i].addr, size: u[i].size }, bottom, top),
{
    reveal(apart);
    reveal(used_wf);
    reveal(clear);
    reveal(clear_of_holes);
    let u2 = u.remove(i);
    assert(used_ok(u[i], bottom, top));
    assert forall|a: int, j: int| 0 <= a < u2.len() && 0 <= j < s.len() implies disjoint(
        (#[trigger] u2[a]).addr as int,
        u2[a].size as int,
        (#[trigger] s[j]).addr as int,
        s[j].size as int,
    ) by {
        let a0 = if a >= i {
            a + 1
        } else {
            a
        };
        assert(disjoint(u[a0].addr as int, u[a0].size as int, s[j].addr as int, s[j].size as int));
    }
    assert forall|a: int| 0 <= a < u2.len() implies used_ok(#[trigger] u2[a], bottom, top) by {
        let a0 = if a >= i {
            a + 1
        } else {
            a
        };
        assert(used_ok(u[a0], bottom, top));
    }
    assert forall|a: int, b: int| 0 <= a < b < u2.len() implies disjoint(
        (#[trigger] u2[a]).addr as int,
        u2[a].size as int,
        (#[trigger] u2[b]).addr as int,
        u2[b].size as int,
    ) by {
        let a0 = if a >= i {
            a + 1
        } else {
            a
        };
        let b0 = if b >= i {
            b + 1
        } else {
            b
        };
        assert(disjoint(u[a0].addr as int, u[a0].size as int, u[b0].addr as int, u[b0].size as int));
    }
    assert forall|a: int| 0 <= a < u2.len() implies disjoint(
        (#[trigger] u2[a]).addr as int,
        u2[a].size as int,
        u[i].addr as int,
        u[i].addr + u[i].size - u[i].addr,
    ) by {
        let a0 = if a >= i {
            a + 1
        } else {
            a
        };
        if a0 < i {
            assert(disjoint(u[a0].addr as int, u[a0].size as int, u[i].addr as int, u[i].size as int));
        } else {
            assert(disjoint(u[i].addr as int, u[i].size as int, u[a0].addr as int, u[a0].size as int));
        }
    }
    assert forall|j: int| 0 <= j < s.len() implies disjoint(
        (#[trigger] s[j]).addr as int,
        s[j].size as int,
        u[i].addr as int,
        u[i].addr + u[i].size - u[i].addr,
    ) by {
        assert(disjoint(u[i].addr as int, u[i].size as int, s[j].addr as int, s[j].size as int));
    }
}

/// An arena that grows at its top keeps its holes and used blocks in
/// place; the range that it grows by is clear of them.
proof fn lemma_grow_pure(s: Seq<HoleInfo>, u: Seq<UsedBlock>, bottom: int, top: int, top2: int)
    requires
        holes_wf(s, bottom, top, 0, 0),
        used_wf(u, bottom, top),
        top == top2 || top + 16 <= top2,
    ensures
        holes_wf(s, bottom, top2, 0, 0),
        used_wf(u, bottom, top2),
        clear(u, top, top2),
        clear_of_holes(s, top, top2),
{
    reveal(holes_wf);
    reveal(used_wf);
    reveal(clear);
    reveal(clear_of_holes);
    assert forall|i: int| 0 <= i < s.len() implies hole_ok(#[trigger] s[i], bottom, top2) by {
        assert(hole_ok(s[i], bottom, top));
    }
    assert forall|i: int| 0 <= i < u.len() implies used_ok(#[trigger] u[i], bottom, top2) by {
        assert(used_ok(u[i], bottom, top));
    }
    assert forall|i: int| 0 <= i < u.len() implies disjoint(
        (#[trigger] u[i]).addr as int,
        u[i].size as int,
        top,
        top2 - top,
    ) by {
        assert(used_ok(u[i], bottom, top));
    }
    assert forall|j: int| 0 <= j < s.len() implies disjoint(
        (#[trigger] s[j]).addr as int,
        s[j].size as int,
        top,
        top2 - top,
    ) by {
        assert(hole_ok(s[j], bottom, top));
    }
}

/// One step of merging at the front, and two steps of merging from the
/// hole before a new hole, give the holes that `holes_after_free` names.
proof fn lemma_merge_steps(s: Seq<HoleInfo>, b: HoleInfo, k: int)
    requires
        0 <= k <= s.len(),
        k == insert_index(s, b.addr as int),
    ensures
        k == 0 ==> merge_n(s.insert(k, b), 0, 1) == holes_after_free(s, b),
        k > 0 ==> merge_n(s.insert(k, b), k - 1, 2) == holes_after_free(s, b),
{
    reveal_with_fuel(merge_n, 3);
    let s1 = s.insert(k, b);
    if k > 0 {
        let s2 = merge_at(s1, k - 1);
        if touching(s1, k - 1) {
            assert(s2.len() < s1.len());
        } else {
            assert(s2 == s1);
        }
    }
}

/// A block taken from a hole moves its bytes from the holes to the used
/// blocks.
pub proof fn lemma_split_sums(s: Seq<HoleInfo>, u: Seq<UsedBlock>, c: int, b: UsedBlock)
    requires
        0 <= c < s.len(),
        b.size <= s[c].size,
    ensures
        hole_bytes(holes_after_split(s, c, b.size as int)) == hole_bytes(s) - b.size,
        used_bytes(u.push(b)) == used_bytes(u) + b.size,
{
    if s[c].size == b.size {
        lemma_hole_bytes_remove(s, c);
    } else {
        lemma_hole_bytes_update(
            s,
            c,
            HoleInfo { addr: (s[c].addr + b.size) as usize, size: (s[c].size - b.size) as usize },
        );
    }
    assert(u.push(b) =~= u.insert(u.len() as int, b));
    lemma_used_bytes_insert(u, u.len() as int, b);
}

/// The words that a split touches lie in the arena: they lie on word
/// boundaries inside the hole that is split.
proof fn lemma_carve_addresses(arena: Arena, hole: int, hole_size: int, ptr: int, taken: int)
    requires
        arena.contains(hole),
        arena.contains(hole + hole_size - 8),
        hole % 8 == 0,
        hole_size % 8 == 0,
        taken % 8 == 0,
        ptr % 8 == 0,
        16 <= taken <= hole_size,
        taken != hole_size ==> taken + 16 <= hole_size,
        hole + 8 <= ptr < hole + taken,
    ensures
        arena.contains(hole + 8),
        arena.contains(ptr - 8),
        taken != hole_size ==> arena.contains(hole + taken) && arena.contains(hole + taken + 8),
{
}

/// No hole is larger than all the holes together.
pub proof fn lemma_hole_bytes_bound(s: Seq<HoleInfo>, i: int)
    requires
        0 <= i < s.len(),
    ensures
        s[i].size <= hole_bytes(s),
{
    lemma_hole_bytes_remove(s, i);
    lemma_hole_bytes_nonnegative(s.remove(i));
}

/// Where no hole from index `from` on is large enough, none is found.
pub proof fn lemma_first_fit_none(s: Seq<HoleInfo>, size: int, align: int, from: int)
    requires
        0 <= from,
        forall|i: int|
            from <= i < s.len() ==> block_size(s[i].addr as int, size, align) > (#[trigger] s[i]).size,
    ensures
        first_fit(s, size, align, from) is None,
    decreases s.len() - from,
{
    if from < s.len() {
        lemma_first_fit_none(s, size, align, from + 1);
    }
}

/// The hole at index `i` of `s` is recorded in its first two words.
spec fn hole_recorded(arena: Arena, s: Seq<HoleInfo>, i: int) -> bool {
    &&& arena.at(s[i].addr as int) == s[i].size
    &&& arena.at(s[i].addr + 8) == link_word(next_of(s, i))
}

/// The header of the used block, and its back-pointer where it has one, are
/// in place.
spec fn used_recorded(arena: Arena, u: UsedBlock) -> bool {
    &&& arena.at(u.addr as int) == u.size + 1
    &&& u.align >= 16 ==> arena.at(u.payload - 8) == u.addr
}

/// The list that starts at `first` is the sequence `s`, hole by hole.
#[verifier::opaque]
spec fn holes_recorded(first: Hole, arena: Arena, s: Seq<HoleInfo>) -> bool {
    &&& first.next == next_of(s, -1)
    &&& forall|i: int| 0 <= i < s.len() ==> #[trigger] hole_recorded(arena, s, i)
}

/// The headers of the used blocks of `u` are in place.
#[verifier::opaque]
spec fn all_used_recorded(arena: Arena, u: Seq<UsedBlock>) -> bool {
    forall|i: int| 0 <= i < u.len() ==> used_recorded(arena, #[trigger] u[i])
}

impl HoleList {
    /// The holes, in address order.
    pub closed spec fn holes(&self) -> Seq<HoleInfo> {
        self.holes@
    }

    /// The blocks that are in use, in the order in which they were handed out.
    pub closed spec fn allocations(&self) -> Seq<UsedBlock> {
        self.used@
    }

    /// Lowest address of the arena.
    pub closed spec fn spec_bottom(&self) -> usize {
        self.bottom
    }

    /// Address one past the arena.
    pub closed spec fn spec_top(&self) -> usize {
        self.top
    }

    /// Bytes given to `extend` that did not make up a granule yet.
    pub closed spec fn spec_pending(&self) -> usize {
        self.pending_extend as usize
    }

    /// Bytes in used blocks.
    pub closed spec fn spec_allocated(&self) -> usize {
        self.allocated
    }

    /// The most bytes that were ever in used blocks at one time.
    pub closed spec fn spec_maximum(&self) -> usize {
        self.maximum
    }

    /// The hole at index `i` is recorded in its first two words.
    spec fn hole_stored(&self, s: Seq<HoleInfo>, i: int) -> bool {
        hole_recorded(self.arena, s, i)
    }

    /// The header of the used block, and its back-pointer where it has one,
    /// are in place.
    spec fn used_stored(&self, u: UsedBlock) -> bool {
        used_recorded(self.arena, u)
    }

    /// The arena spans `[bottom, top)` from a granule boundary to a word
    /// boundary; an arena that is not empty holds a granule at least.
    spec fn geometry_ok(&self) -> bool {
        &&& self.arena.wf()
        &&& self.arena.base() == self.bottom
        &&& self.arena.limit() == self.top
        &&& self.bottom % 16 == 0
        &&& self.top % 8 == 0
        &&& self.bottom <= self.top
        &&& self.top > 0 ==> self.bottom > 0 && self.bottom + 16 <= self.top
        &&& self.pending_extend < 16
        &&& self.first.size == 0
    }

    /// The list in memory is the sequence `s`.
    spec fn holes_stored(&self, s: Seq<HoleInfo>) -> bool {
        holes_recorded(self.first, self.arena, s)
    }

    /// The headers of the used blocks of `u` are in memory.
    spec fn used_stored_all(&self, u: Seq<UsedBlock>) -> bool {
        all_used_recorded(self.arena, u)
    }

    /// The counters agree with the used blocks, and holes and used blocks
    /// together make up the arena.
    spec fn accounts_ok(&self) -> bool {
        &&& self.allocated == used_bytes(self.used@)
        &&& self.allocated + hole_bytes(self.holes@) == self.top - self.bottom
        &&& self.allocated <= self.maximum
    }

    /// Holes and used blocks are recorded and apart; neighbouring holes may
    /// touch as `holes_ordered` allows for `lo` and `hi`.
    spec fn core_inv(&self, lo: int, hi: int) -> bool {
        &&& self.geometry_ok()
        &&& holes_wf(self.holes@, self.bottom as int, self.top as int, lo, hi)
        &&& self.holes_stored(self.holes@)
        &&& apart(self.holes@, self.used@)
        &&& used_wf(self.used@, self.bottom as int, self.top as int)
        &&& self.used_stored_all(self.used@)
    }

    /// The list is consistent: the holes recorded in the arena are sorted by
    /// address with used memory between any two of them, the used blocks
    /// have their headers in place and overlap neither each other nor a
    /// hole, and the counters agree with the used blocks.
    pub closed spec fn wf(&self) -> bool {
        &&& self.core_inv(0, 0)
        &&& self.accounts_ok()
    }

    /// The range `b` lies in the arena, outside every hole and every used
    /// block.
    spec fn vacant(&self, b: HoleInfo) -> bool {
        &&& hole_ok(b, self.bottom as int, self.top as int)
        &&& clear(self.used@, b.addr as int, b.addr + b.size)
        &&& clear_of_holes(self.holes@, b.addr as int, b.addr + b.size)
    }

    /// The range `b` is vacant and recorded as a hole without a link.
    spec fn pending(&self, b: HoleInfo) -> bool {
        &&& self.vacant(b)
        &&& self.arena.at(b.addr as int) == b.size
        &&& self.arena.at(b.addr + 8) == 0
    }

    /// The size of the arena and the counters are as in `before`.
    spec fn same_scalars(&self, before: &HoleList) -> bool {
        &&& self.bottom == before.bottom
        &&& self.top == before.top
        &&& self.pending_extend == before.pending_extend
        &&& self.allocated == before.allocated
        &&& self.maximum == before.maximum
    }

    /// All but the arena and the head of the list is as in `before`.
    spec fn same_frame(&self, before: &HoleList) -> bool {
        &&& self.geometry_ok()
        &&& self.same_scalars(before)
        &&& self.holes == before.holes
        &&& self.used == before.used
    }

    /// No word of the arena outside `[lo, hi)` and other than the one at
    /// `w` differs from `before`.
    spec fn changed_at(&self, before: &HoleList, lo: int, hi: int, w: int) -> bool {
        forall|x: int|
            before.arena.contains(x) && !(lo <= x < hi) && x != w ==> self.arena.at(x)
                == before.arena.at(x)
    }

    /// The hole at index `i` lies in the arena and is recorded there.
    proof fn lemma_hole_stored(&self, lo: int, hi: int, i: int)
        requires
            holes_wf(self.holes@, self.bottom as int, self.top as int, lo, hi),
            self.holes_stored(self.holes@),
            0 <= i < self.holes@.len(),
        ensures
            hole_ok(self.holes@[i], self.bottom as int, self.top as int),
            self.arena.at(self.holes@[i].addr as int) == self.holes@[i].size,
            self.arena.at(self.holes@[i].addr + 8) == link_word(next_of(self.holes@, i)),
            self.first.next == next_of(self.holes@, -1),
    {
        reveal(holes_recorded);
        lemma_wf_at(self.holes@, self.bottom as int, self.top as int, lo, hi, i);
        assert(self.hole_stored(self.holes@, i));
    }

    /// The words of a hole that lies in the arena are words of the arena.
    proof fn lemma_hole_contained(&self, h: HoleInfo)
        requires
            self.geometry_ok(),
            hole_ok(h, self.bottom as int, self.top as int),
        ensures
            h.addr > 0,
            self.arena.contains(h.addr as int),
            self.arena.contains(h.addr + 8),
            self.arena.contains(h.addr + h.size - 8),
    {
    }

    /// What the invariant says of the hole at index `i`.
    proof fn lemma_hole(&self, lo: int, hi: int, i: int)
        requires
            self.geometry_ok(),
            holes_wf(self.holes@, self.bottom as int, self.top as int, lo, hi),
            self.holes_stored(self.holes@),
            0 <= i < self.holes@.len(),
        ensures
            hole_ok(self.holes@[i], self.bottom as int, self.top as int),
            self.holes@[i].addr > 0,
            self.arena.contains(self.holes@[i].addr as int),
            self.arena.contains(self.holes@[i].addr + 8),
            self.arena.contains(self.holes@[i].addr + self.holes@[i].size - 8),
            self.arena.at(self.holes@[i].addr as int) == self.holes@[i].size,
            self.arena.at(self.holes@[i].addr + 8) == link_word(next_of(self.holes@, i)),
            i + 1 < self.holes@.len() ==> self.holes@[i + 1].addr >= self.holes@[i].addr
                + self.holes@[i].size && hole_ok(
                self.holes@[i + 1],
                self.bottom as int,
                self.top as int,
            ) && self.holes@[i + 1].addr > 0,
            i > 0 ==> self.holes@[i - 1].addr + self.holes@[i - 1].size <= self.holes@[i].addr
                && hole_ok(self.holes@[i - 1], self.bottom as int, self.top as int)
                && self.arena.contains(self.holes@[i - 1].addr + 8) && self.holes@[i - 1].addr > 0,
            self.first.next == next_of(self.holes@, -1),
    {
        let s = self.holes@;
        self.lemma_hole_stored(lo, hi, i);
        self.lemma_hole_contained(s[i]);
        if i + 1 < s.len() {
            lemma_wf_pair(s, self.bottom as int, self.top as int, lo, hi, i, i + 1);
            self.lemma_hole_contained(s[i + 1]);
        }
        if i > 0 {
            lemma_wf_pair(s, self.bottom as int, self.top as int, lo, hi, i - 1, i);
            self.lemma_hole_contained(s[i - 1]);
        }
    }

    /// What the invariant says of the head of the list.
    proof fn lemma_first(&self)
        requires
            self.holes_stored(self.holes@),
        ensures
            self.first.next == next_of(self.holes@, -1),
    {
        reveal(holes_recorded);
    }

    /// What the invariant says of the used block at index `i`.
    proof fn lemma_used(&self, i: int)
        requires
            self.geometry_ok(),
            used_wf(self.used@, self.bottom as int, self.top as int),
            self.used_stored_all(self.used@),
            0 <= i < self.used@.len(),
        ensures
            used_ok(self.used@[i], self.bottom as int, self.top as int),
            self.arena.at(self.used@[i].addr as int) == self.used@[i].size + 1,
            self.used@[i].align >= 16 ==> self.arena.at(self.used@[i].payload - 8)
                == self.used@[i].addr,
            self.used@[i].addr > 0,
            self.arena.contains(self.used@[i].addr as int),
            self.arena.contains(self.used@[i].addr + 8),
            self.arena.contains(self.used@[i].payload - 8),
            self.used@[i].addr + 8 <= self.used@[i].payload,
            self.used@[i].align >= 16 ==> self.used@[i].addr + 16 <= self.used@[i].payload,
            self.used@[i].align < 16 ==> self.used@[i].addr + 8 == self.used@[i].payload,
    {
        let u = self.used@[i];
        lemma_used_at(self.used@, self.bottom as int, self.top as int, i);
        self.lemma_used_contained(u);
        assert(self.used_stored(u)) by {
            reveal(all_used_recorded);
        }
    }

    /// The header word and the word before the payload of a used block in
    /// the arena are words of the arena, inside the block.
    proof fn lemma_used_contained(&self, ub: UsedBlock)
        requires
            self.geometry_ok(),
            used_ok(ub, self.bottom as int, self.top as int),
        ensures
            ub.addr > 0,
            self.arena.contains(ub.addr as int),
            self.arena.contains(ub.addr + 8),
            self.arena.contains(ub.payload - 8),
            ub.addr <= ub.payload - 8 < ub.addr + ub.size,
            ub.addr + 8 <= ub.payload,
            ub.align >= 16 ==> ub.addr + 16 <= ub.payload,
            ub.align < 16 ==> ub.addr + 8 == ub.payload,
    {
        let a = ub.addr as int;
        let p = ub.payload as int;
        lemma_payload_addr(a, ub.align as int);
        if ub.align < 16 {
            lemma_pow2_below_16(ub.align as int);
        }
        lemma_word_after(a);
        lemma_word_before(p);
        assert(self.arena.base() <= a);
        assert(a + 16 <= self.arena.limit());
        assert(a + 8 <= p);
        assert(p - 8 + 8 <= self.arena.limit());
    }

    /// A used block stays recorded where the arena changes outside it only.
    proof fn lemma_used_kept_one(
        before: HoleList,
        after: HoleList,
        ub: UsedBlock,
        lo: int,
        hi: int,
        w: int,
    )
        requires
            before.arena.contains(ub.addr as int),
            before.arena.contains(ub.payload - 8),
            ub.addr <= ub.payload - 8 < ub.addr + ub.size,
            before.used_stored(ub),
            after.changed_at(&before, lo, hi, w),
            disjoint(ub.addr as int, ub.size as int, lo, hi - lo),
            w != ub.addr,
            w != ub.payload - 8,
        ensures
            after.used_stored(ub),
    {
        let x = ub.addr as int;
        assert(after.arena.at(x) == before.arena.at(x));
        let y = ub.payload - 8;
        assert(after.arena.at(y) == before.arena.at(y));
    }

    /// Used blocks stay recorded where the arena changes outside them only.
    proof fn lemma_used_kept(
        before: HoleList,
        after: HoleList,
        u: Seq<UsedBlock>,
        lo: int,
        hi: int,
        w: int,
        wlo: int,
        whi: int,
    )
        requires
            before.geometry_ok(),
            used_wf(u, before.bottom as int, before.top as int),
            before.used_stored_all(u),
            after.changed_at(&before, lo, hi, w),
            clear(u, lo, hi),
            !before.arena.contains(w) || (clear(u, wlo, whi) && wlo <= w < whi),
        ensures
            after.used_stored_all(u),
    {
        reveal(all_used_recorded);
        reveal(clear);
        assert forall|i: int| 0 <= i < u.len() implies after.used_stored(#[trigger] u[i]) by {
            lemma_used_at(u, before.bottom as int, before.top as int, i);
            before.lemma_used_contained(u[i]);
            assert(before.used_stored(u[i]));
            assert(disjoint(u[i].addr as int, u[i].size as int, lo, hi - lo));
            if before.arena.contains(w) {
                assert(disjoint(u[i].addr as int, u[i].size as int, wlo, whi - wlo));
            }
            Self::lemma_used_kept_one(before, after, u[i], lo, hi, w);
        }
    }

    /// A new used block that is recorded joins the used blocks that are.
    proof fn lemma_used_stored_push(&self, u: Seq<UsedBlock>, b: UsedBlock)
        requires
            self.used_stored_all(u),
            self.used_stored(b),
        ensures
            self.used_stored_all(u.push(b)),
    {
        reveal(all_used_recorded);
        let u2 = u.push(b);
        assert forall|i: int| 0 <= i < u2.len() implies self.used_stored(#[trigger] u2[i]) by {
            if i < u.len() {
                assert(self.used_stored(u[i]));
            }
        }
    }

    /// The used blocks that stay are recorded as they were.
    proof fn lemma_used_stored_remove(&self, u: Seq<UsedBlock>, k: int)
        requires
            self.used_stored_all(u),
            0 <= k < u.len(),
        ensures
            self.used_stored_all(u.remove(k)),
    {
        reveal(all_used_recorded);
        let u2 = u.remove(k);
        assert forall|i: int| 0 <= i < u2.len() implies self.used_stored(#[trigger] u2[i]) by {
            let j = if i >= k {
                i + 1
            } else {
                i
            };
            assert(self.used_stored(u[j]));
        }
    }

    /// Holes stay recorded where the arena changes outside them only.
    proof fn lemma_holes_kept(before: HoleList, after: HoleList, s: Seq<HoleInfo>, lo: int, hi: int)
        requires
            before.geometry_ok(),
            holes_wf(s, before.bottom as int, before.top as int, 0, 0),
            before.holes_stored(s),
            after.changed_at(&before, lo, hi, 0),
            after.first == before.first,
            clear_of_holes(s, lo, hi),
            before.bottom > 0 || before.top == 0,
        ensures
            after.holes_stored(s),
    {
        reveal(holes_recorded);
        reveal(clear_of_holes);
        assert forall|i: int| 0 <= i < s.len() implies #[trigger] hole_recorded(after.arena, s, i) by {
            lemma_wf_at(s, before.bottom as int, before.top as int, 0, 0, i);
            assert(before.hole_stored(s, i));
            assert(disjoint(s[i].addr as int, s[i].size as int, lo, hi - lo));
            before.lemma_hole_contained(s[i]);
            let x = s[i].addr as int;
            assert(after.arena.at(x) == before.arena.at(x));
            assert(after.arena.at(x + 8) == before.arena.at(x + 8));
        }
    }

    /// The arena of `self` is that of `before` after a block was carved from
    /// the hole at index `c`: the header and the back-pointer of the block
    /// are in place, what is left of the hole is recorded behind the block,
    /// the hole before links to what follows, and no word outside the hole
    /// and that link has changed.
    spec fn split_from(&self, before: &HoleList, c: int, b: UsedBlock) -> bool {
        let s = before.holes@;
        let h = s[c];
        let rest = (h.addr + b.size) as int;
        let link = if h.size == b.size {
            next_of(s, c)
        } else {
            Some(rest as usize)
        };
        &&& self.used_stored(b)
        &&& h.size != b.size ==> self.arena.at(rest) == h.size - b.size && self.arena.at(rest + 8)
            == link_word(next_of(s, c))
        &&& c > 0 ==> self.first == before.first && self.arena.at(s[c - 1].addr + 8) == link_word(link)
        &&& c == 0 ==> self.first == (Hole { size: 0, next: link })
        &&& self.changed_at(before, h.addr as int, h.addr + h.size, prev_of(s, c) + 8)
    }

    /// After a split the hole at index `i` is recorded.
    proof fn lemma_split_hole_stored(before: HoleList, after: HoleList, c: int, b: UsedBlock, i: int)
        requires
            before.geometry_ok(),
            holes_wf(before.holes@, before.bottom as int, before.top as int, 0, 0),
            before.holes_stored(before.holes@),
            0 <= c < before.holes@.len(),
            b.addr == before.holes@[c].addr,
            16 <= b.size <= before.holes@[c].size,
            after.split_from(&before, c, b),
            0 <= i < holes_after_split(before.holes@, c, b.size as int).len(),
        ensures
            after.hole_stored(holes_after_split(before.holes@, c, b.size as int), i),
    {
        let s = before.holes@;
        let s2 = holes_after_split(s, c, b.size as int);
        let whole = s[c].size == b.size;
        let j = if whole && i >= c {
            i + 1
        } else {
            i
        };
        let bot = before.bottom as int;
        let top = before.top as int;
        before.lemma_hole(0, 0, c);
        before.lemma_hole(0, 0, j);
        if j != c {
            assert(s2[i] == s[j]);
            let x = s[j].addr as int;
            if j < c {
                lemma_wf_pair(s, bot, top, 0, 0, j, c);
            } else {
                lemma_wf_pair(s, bot, top, 0, 0, c, j);
            }
            if c > 0 && j != c - 1 {
                if j < c - 1 {
                    lemma_wf_pair(s, bot, top, 0, 0, j, c - 1);
                } else {
                    lemma_wf_pair(s, bot, top, 0, 0, c - 1, j);
                }
            }
            assert(!(s[c].addr <= x < s[c].addr + s[c].size));
            assert(!(s[c].addr <= x + 8 < s[c].addr + s[c].size));
            assert(x != prev_of(s, c) + 8);
            assert(after.arena.at(x) == before.arena.at(x));
            if j == c - 1 {
                assert(next_of(s2, i) == if whole {
                    next_of(s, c)
                } else {
                    Some((s[c].addr + b.size) as usize)
                });
            } else {
                assert(next_of(s2, i) == next_of(s, j));
                if c > 0 {
                    if j < c - 1 {
                        lemma_wf_pair(s, bot, top, 0, 0, j, c - 1);
                    } else {
                        lemma_wf_pair(s, bot, top, 0, 0, c - 1, j);
                    }
                }
                assert(x + 8 != prev_of(s, c) + 8);
                assert(after.arena.at(x + 8) == before.arena.at(x + 8));
            }
        } else {
            assert(!whole);
            assert(next_of(s2, i) == next_of(s, c));
        }
    }

    /// After a split the holes are recorded.
    proof fn lemma_split_stored(before: HoleList, after: HoleList, c: int, b: UsedBlock)
        requires
            before.geometry_ok(),
            holes_wf(before.holes@, before.bottom as int, before.top as int, 0, 0),
            before.holes_stored(before.holes@),
            0 <= c < before.holes@.len(),
            b.addr == before.holes@[c].addr,
            16 <= b.size <= before.holes@[c].size,
            after.split_from(&before, c, b),
        ensures
            after.holes_stored(holes_after_split(before.holes@, c, b.size as int)),
    {
        let s = before.holes@;
        let s2 = holes_after_split(s, c, b.size as int);
        assert forall|i: int| 0 <= i < s2.len() implies #[trigger] hole_recorded(after.arena, s2, i) by {
            Self::lemma_split_hole_stored(before, after, c, b, i);
        }
        assert(after.first.next == next_of(s2, -1)) by {
            before.lemma_first();
            before.lemma_hole(0, 0, c);
        }
        reveal(holes_recorded);
    }

    /// The arena of `self` is that of `before` after the pending hole `b`
    /// was linked in at index `k`.
    spec fn insert_from(&self, before: &HoleList, k: int, b: HoleInfo) -> bool {
        let s = before.holes@;
        &&& self.arena.at(b.addr as int) == b.size
        &&& self.arena.at(b.addr + 8) == link_word(next_of(s, k - 1))
        &&& k > 0 ==> self.first == before.first && self.arena.at(s[k - 1].addr + 8) == b.addr
        &&& k == 0 ==> self.first == (Hole { size: 0, next: Some(b.addr) })
        &&& self.changed_at(before, b.addr as int, b.addr + b.size, prev_of(s, k) + 8)
    }

    /// After an insertion the hole at index `i` is recorded.
    proof fn lemma_insert_hole_stored(before: HoleList, after: HoleList, k: int, b: HoleInfo, i: int)
        requires
            before.geometry_ok(),
            holes_wf(before.holes@, before.bottom as int, before.top as int, 0, 0),
            before.holes_stored(before.holes@),
            hole_ok(b, before.bottom as int, before.top as int),
            clear_of_holes(before.holes@, b.addr as int, b.addr + b.size),
            0 <= k <= before.holes@.len(),
            after.insert_from(&before, k, b),
            0 <= i <= before.holes@.len(),
        ensures
            after.hole_stored(before.holes@.insert(k, b), i),
    {
        let s = before.holes@;
        let s2 = s.insert(k, b);
        let bot = before.bottom as int;
        let top = before.top as int;
        reveal(clear_of_holes);
        if i == k {
            assert(s2[i] == b);
            assert(next_of(s2, i) == next_of(s, k - 1));
        } else {
            let j = if i > k {
                i - 1
            } else {
                i
            };
            assert(s2[i] == s[j]);
            before.lemma_hole(0, 0, j);
            assert(disjoint(s[j].addr as int, s[j].size as int, b.addr as int, b.addr + b.size - b.addr));
            let x = s[j].addr as int;
            if k > 0 && j != k - 1 {
                if j < k - 1 {
                    lemma_wf_pair(s, bot, top, 0, 0, j, k - 1);
                } else {
                    lemma_wf_pair(s, bot, top, 0, 0, k - 1, j);
                }
            }
            assert(x != prev_of(s, k) + 8);
            assert(after.arena.at(x) == before.arena.at(x));
            if j == k - 1 {
                assert(next_of(s2, i) == Some(b.addr));
            } else {
                assert(next_of(s2, i) == next_of(s, j));
                if k > 0 {
                    if j < k - 1 {
                        lemma_wf_pair(s, bot, top, 0, 0, j, k - 1);
                    } else {
                        lemma_wf_pair(s, bot, top, 0, 0, k - 1, j);
                    }
                }
                assert(x + 8 != prev_of(s, k) + 8);
                assert(after.arena.at(x + 8) == before.arena.at(x + 8));
            }
        }
    }

    /// After an insertion the holes are recorded.
    proof fn lemma_insert_stored(before: HoleList, after: HoleList, k: int, b: HoleInfo)
        requires
            before.geometry_ok(),
            holes_wf(before.holes@, before.bottom as int, before.top as int, 0, 0),
            before.holes_stored(before.holes@),
            hole_ok(b, before.bottom as int, before.top as int),
            clear_of_holes(before.holes@, b.addr as int, b.addr + b.size),
            0 <= k <= before.holes@.len(),
            after.insert_from(&before, k, b),
        ensures
            after.holes_stored(before.holes@.insert(k, b)),
    {
        let s = before.holes@;
        let s2 = s.insert(k, b);
        assert forall|i: int| 0 <= i < s2.len() implies #[trigger] hole_recorded(after.arena, s2, i) by {
            Self::lemma_insert_hole_stored(before, after, k, b, i);
        }
        assert(after.first.next == next_of(s2, -1)) by {
            before.lemma_first();
            if k > 0 {
                assert(s2[0] == s[0]);
            } else {
                assert(s2[0] == b);
            }
        }
        reveal(holes_recorded);
    }

    /// The arena of `self` is that of `before` after the hole at index `c`
    /// took over the hole after it.
    spec fn merge_from(&self, before: &HoleList, c: int) -> bool {
        let s = before.holes@;
        &&& self.arena.at(s[c].addr as int) == s[c].size + s[c + 1].size
        &&& self.arena.at(s[c].addr + 8) == link_word(next_of(s, c + 1))
        &&& self.first == before.first
        &&& self.changed_at(before, s[c].addr as int, s[c].addr + s[c].size, s[c + 1].addr + 8)
    }

    /// After a merge the hole at index `i` is recorded.
    proof fn lemma_merge_hole_stored(before: HoleList, after: HoleList, c: int, n: int, i: int)
        requires
            before.geometry_ok(),
            holes_wf(before.holes@, before.bottom as int, before.top as int, c, c + n),
            before.holes_stored(before.holes@),
            touching(before.holes@, c),
            after.merge_from(&before, c),
            0 <= i < before.holes@.len() - 1,
        ensures
            after.hole_stored(merge_at(before.holes@, c), i),
    {
        let s = before.holes@;
        let s2 = merge_at(s, c);
        let bot = before.bottom as int;
        let top = before.top as int;
        let j = if i > c {
            i + 1
        } else {
            i
        };
        before.lemma_hole(c, c + n, c);
        before.lemma_hole(c, c + n, c + 1);
        before.lemma_hole(c, c + n, j);
        if i == c {
            assert(next_of(s2, c) == next_of(s, c + 1));
        } else {
            assert(s2[i] == s[j]);
            let x = s[j].addr as int;
            if j < c {
                lemma_wf_pair(s, bot, top, c, c + n, j, c);
                lemma_wf_pair(s, bot, top, c, c + n, j, c + 1);
            } else {
                lemma_wf_pair(s, bot, top, c, c + n, c, j);
                lemma_wf_pair(s, bot, top, c, c + n, c + 1, j);
            }
            assert(after.arena.at(x) == before.arena.at(x));
            assert(after.arena.at(x + 8) == before.arena.at(x + 8));
            if j == c - 1 {
                assert(next_of(s2, i) == Some(s[c].addr));
            } else {
                assert(next_of(s2, i) == next_of(s, j));
            }
        }
    }

    /// After a merge the holes are recorded.
    proof fn lemma_merge_stored(before: HoleList, after: HoleList, c: int, n: int)
        requires
            before.geometry_ok(),
            holes_wf(before.holes@, before.bottom as int, before.top as int, c, c + n),
            before.holes_stored(before.holes@),
            touching(before.holes@, c),
            after.merge_from(&before, c),
        ensures
            after.holes_stored(merge_at(before.holes@, c)),
    {
        let s = before.holes@;
        let s2 = merge_at(s, c);
        assert forall|i: int| 0 <= i < s2.len() implies #[trigger] hole_recorded(after.arena, s2, i) by {
            Self::lemma_merge_hole_stored(before, after, c, n, i);
        }
        assert(after.first.next == next_of(s2, -1)) by {
            before.lemma_first();
        }
        reveal(holes_recorded);
    }

    /// A list of one hole that spans the arena and is recorded at its
    /// bottom is consistent.
    proof fn lemma_one_hole(list: HoleList, h: HoleInfo)
        requires
            list.geometry_ok(),
            list.holes@ == Seq::<HoleInfo>::empty().push(h),
            list.used@ == Seq::<UsedBlock>::empty(),
            h.addr == list.bottom,
            h.addr + h.size == list.top,
            h.size >= 16,
            h.addr % 8 == 0,
            h.size % 8 == 0,
            list.first == (Hole { size: 0, next: Some(h.addr) }),
            list.arena.at(h.addr as int) == h.size,
            list.arena.at(h.addr + 8) == 0,
            list.allocated == 0,
            list.maximum == 0,
        ensures
            list.wf(),
            list.holes@ == seq![h],
    {
        let hs = list.holes@;
        lemma_bytes_empty();
        lemma_hole_bytes_insert(Seq::<HoleInfo>::empty(), 0, h);
        assert(hs =~= Seq::<HoleInfo>::empty().insert(0, h));
        assert(hs =~= seq![h]);
        assert(holes_wf(hs, list.bottom as int, list.top as int, 0, 0)) by {
            reveal(holes_wf);
        }
        assert(list.holes_stored(hs)) by {
            reveal(holes_recorded);
            assert(list.hole_stored(hs, 0));
        }
        assert(apart(hs, list.used@)) by {
            reveal(apart);
        }
        assert(used_wf(list.used@, list.bottom as int, list.top as int)) by {
            reveal(used_wf);
        }
        assert(list.used_stored_all(list.used@)) by {
            reveal(all_used_recorded);
        }
    }

    /// Creates an empty `HoleList`.
    pub fn empty() -> (list: HoleList)
        ensures
            list.wf(),
            list.holes() == Seq::<HoleInfo>::empty(),
            list.allocations() == Seq::<UsedBlock>::empty(),
            list.spec_bottom() == 0,
            list.spec_top() == 0,
            list.spec_pending() == 0,
            list.spec_allocated() == 0,
            list.spec_maximum() == 0,
    {
        let list = HoleList {
            first: Hole { size: 0, next: None },
            bottom: 0,
            top: 0,
            pending_extend: 0,
            allocated: 0,
            maximum: 0,
            arena: Arena::new(0, 0),
            holes: Ghost(Seq::empty()),
            used: Ghost(Seq::empty()),
        };
        proof {
            lemma_bytes_empty();
            reveal(holes_wf);
            reveal(holes_recorded);
            reveal(apart);
            reveal(used_wf);
            reveal(all_used_recorded);
        }
        list
    }

    /// What `new` asks of its arguments: a start that is not null, an end
    /// within the address space, and room for one granule at least.
    pub open spec fn new_ok(hole_addr: int, hole_size: int) -> bool {
        &&& hole_addr > 0
        &&& hole_addr + hole_size <= usize::MAX
        &&& align_up_spec(hole_addr, 16) + 16 <= hole_addr + hole_size
    }

    /// Where the hole of a new list lies: the first granule boundary from
    /// `hole_addr` on, the whole granules from there to the end of the
    /// memory given, and the bytes left over.
    fn new_bounds(hole_addr: usize, hole_size: usize) -> (r: (usize, usize, u8))
        requires
            Self::new_ok(hole_addr as int, hole_size as int),
        ensures
            r.0 == align_up_spec(hole_addr as int, 16),
            r.1 == align_down_spec(hole_addr + hole_size - r.0, 16),
            r.2 == hole_addr + hole_size - r.0 - r.1,
            r.0 % 16 == 0,
            r.1 % 16 == 0,
            r.0 > 0,
            r.1 >= 16,
            r.2 < 16,
            r.0 + r.1 + r.2 == hole_addr + hole_size,
    {
        proof {
            lemma_align_up(hole_addr as int, 16);
        }
        let aligned_hole_addr: usize = match checked_align_up(hole_addr, GRANULARITY) {
            Some(a) => a,
            None => hole_addr,
        };
        let requested_hole_size: usize = hole_size.saturating_sub(aligned_hole_addr - hole_addr);
        let aligned_hole_size: usize = align_down_size(requested_hole_size, GRANULARITY);
        proof {
            lemma_align_down(requested_hole_size as int, 16);
        }
        (aligned_hole_addr, aligned_hole_size, (requested_hole_size - aligned_hole_size) as u8)
    }

    /// Creates a `HoleList` that manages the memory of `hole_size` bytes at
    /// `hole_addr` as one hole.
    ///
    /// The hole starts at the first granule boundary from `hole_addr` on and
    /// holds whole granules. Bytes left over at the end are kept as pending
    /// until `extend` brings enough to make up a granule.
    pub fn new(hole_addr: usize, hole_size: usize) -> (list: HoleList)
        requires
            Self::new_ok(hole_addr as int, hole_size as int),
        ensures
            list.wf(),
            list.spec_bottom() == align_up_spec(hole_addr as int, 16),
            list.spec_top() == list.spec_bottom() + align_down_spec(
                hole_addr + hole_size - list.spec_bottom(),
                16,
            ),
            list.spec_pending() == hole_addr + hole_size - list.spec_top(),
            list.holes() == seq![
                HoleInfo {
                    addr: list.spec_bottom(),
                    size: (list.spec_top() - list.spec_bottom()) as usize,
                },
            ],
            list.allocations() == Seq::<UsedBlock>::empty(),
            list.spec_allocated() == 0,
            list.spec_maximum() == 0,
    {
        let (aligned_hole_addr, aligned_hole_size, pending) = Self::new_bounds(hole_addr, hole_size);
        Self::with_one_hole(aligned_hole_addr, aligned_hole_size, pending)
    }

    /// A list of one hole of `size` bytes at `bottom`.
    fn with_one_hole(bottom: usize, size: usize, pending: u8) -> (list: HoleList)
        requires
            bottom > 0,
            bottom % 16 == 0,
            size % 16 == 0,
            size >= 16,
            bottom + size <= usize::MAX,
            pending < 16,
        ensures
            list.wf(),
            list.bottom == bottom,
            list.top == bottom + size,
            list.pending_extend == pending,
            list.holes@ == seq![HoleInfo { addr: bottom, size }],
            list.used@ == Seq::<UsedBlock>::empty(),
            list.allocated == 0,
            list.maximum == 0,
    {
        let ghost h = HoleInfo { addr: bottom, size };
        let ghost one = Seq::<HoleInfo>::empty().push(h);
        proof {
            lemma_granule_is_words(bottom as int);
            lemma_granule_is_words(size as int);
            lemma_granule_is_words(bottom + size);
            lemma_word_after(bottom as int);
        }
        let arena = Arena::new(bottom, size);
        let mut list = HoleList {
            first: Hole { size: 0, next: Some(bottom) },
            bottom,
            top: bottom + size,
            pending_extend: pending,
            allocated: 0,
            maximum: 0,
            arena,
            holes: Ghost(one),
            used: Ghost(Seq::empty()),
        };
        assert(list.geometry_ok());
        assert(list.arena.contains(bottom as int));
        assert(list.arena.contains(bottom + 8));
        list.write_hole(bottom, Hole { size, next: None });
        proof {
            Self::lemma_one_hole(list, h);
        }
        list
    }

    /// The size that a request for `size` bytes is served with: a granule
    /// at least, in whole words.
    pub open spec fn aligned_size(size: int) -> int {
        align_up_spec(
            if size < 16 {
                16
            } else {
                size
            },
            8,
        )
    }

    /// The alignment that a request for alignment `align` is served with:
    /// a word at least.
    pub open spec fn aligned_align(align: int) -> int {
        if align < 8 {
            8
        } else {
            align
        }
    }

    /// Aligns the given layout for use with `HoleList`: the size grows to
    /// `min_size` at least and to whole words, the alignment to a word at
    /// least.
    pub fn align_layout(layout: &Layout) -> (r: Result<Layout, LayoutError>)
        ensures
            r is Ok <==> valid_layout(
                Self::aligned_size(layout.spec_size() as int),
                Self::aligned_align(layout.spec_align() as int),
            ),
            r matches Ok(l) ==> l.spec_size() == Self::aligned_size(layout.spec_size() as int)
                && l.spec_align() == Self::aligned_align(layout.spec_align() as int),
            Self::aligned_size(layout.spec_size() as int) >= 16,
            Self::aligned_size(layout.spec_size() as int) % 8 == 0,
    {
        let mut size: usize = layout.size();
        if size < Self::min_size() {
            size = Self::min_size();
        }
        let align: usize = if layout.align() < HOLE_ALIGN {
            HOLE_ALIGN
        } else {
            layout.align()
        };
        proof {
            crate::support::lemma_pow2_positive(layout.spec_align() as int);
            lemma_align_up(layout.spec_size() as int, layout.spec_align() as int);
            lemma_align_up(size as int, 8);
        }
        match checked_align_up(size, HOLE_ALIGN) {
            Some(size) => Layout::from_size_align(size, align),
            None => Err(LayoutError),
        }
    }

    /// Returns the minimal allocation size. Smaller allocations or
    /// deallocations are not allowed.
    pub fn min_size() -> (r: usize)
        ensures
            r == GRANULARITY,
    {
        GRANULARITY
    }

    /// Reads the hole recorded at `addr`.
    fn read_hole(&self, addr: usize) -> (h: Hole)
        requires
            self.geometry_ok(),
            self.arena.contains(addr as int),
            self.arena.contains(addr + 8),
        ensures
            h.size == self.arena.at(addr as int),
            link_word(h.next) == self.arena.at(addr + 8),
            h.next is Some ==> h.next->0 != 0,
    {
        let size: usize = self.arena.read(addr);
        let link: usize = self.arena.read(addr + 8);
        Hole { size, next: if link == 0 { None } else { Some(link) } }
    }

    /// Records `h` at `addr`.
    fn write_hole(&mut self, addr: usize, h: Hole)
        requires
            old(self).geometry_ok(),
            old(self).arena.contains(addr as int),
            old(self).arena.contains(addr + 8),
        ensures
            final(self).same_frame(old(self)),
            final(self).first == old(self).first,
            final(self).arena.at(addr as int) == h.size,
            final(self).arena.at(addr + 8) == link_word(h.next),
            forall|a: int|
                old(self).arena.contains(a) && a != addr && a != addr + 8 ==> final(self).arena.at(a)
                    == old(self).arena.at(a),
    {
        self.arena.write(addr, h.size);
        self.arena.write(
            addr + 8,
            match h.next {
                Some(a) => a,
                None => 0,
            },
        );
    }

    /// Sets the link of the hole at `prev`, or of the dummy head where
    /// `prev` is 0.
    fn set_next(&mut self, prev: usize, next: Option<usize>)
        requires
            old(self).geometry_ok(),
            prev != 0 ==> old(self).arena.contains(prev + 8),
        ensures
            final(self).same_frame(old(self)),
            prev != 0 ==> final(self).arena.at(prev + 8) == link_word(next) && final(self).first
                == old(self).first,
            prev == 0 ==> final(self).first == (Hole { size: 0, next }),
            forall|a: int|
                old(self).arena.contains(a) && !(prev != 0 && a == prev + 8) ==> final(self).arena.at(a)
                    == old(self).arena.at(a),
    {
        if prev == 0 {
            self.first.next = next;
        } else {
            self.arena.write(
                prev + 8,
                match next {
                    Some(a) => a,
                    None => 0,
                },
            );
        }
    }

    /// A cursor at the first hole, if there is one.
    pub fn cursor(&self) -> (c: Option<Cursor>)
        requires
            self.wf(),
        ensures
            c is Some <==> self.holes().len() > 0,
            c matches Some(cur) ==> cur.at(self, 0),
    {
        self.first_cursor()
    }

    /// A cursor at the first hole, if there is one, whichever neighbours
    /// touch.
    fn first_cursor(&self) -> (c: Option<Cursor>)
        requires
            self.holes_stored(self.holes@),
        ensures
            c is Some <==> self.holes@.len() > 0,
            c matches Some(cur) ==> cur.at(self, 0),
    {
        proof {
            self.lemma_first();
        }
        if let Some(hole) = self.first.next {
            Some(Cursor { hole, prev: 0, top: self.top, index: Ghost(0) })
        } else {
            None
        }
    }

    /// Turns the front of the hole at `hole` into a used block of
    /// `alloc_size` bytes with its payload at `alloc_ptr`, and links the
    /// hole before to what is left: to `back_padding`, which takes over the
    /// link of the old hole, or to the hole after.
    fn carve(
        &mut self,
        prev: usize,
        hole: usize,
        old_hole: Hole,
        alloc_ptr: usize,
        alloc_size: usize,
        align: usize,
        back_padding: Option<HoleInfo>,
    )
        requires
            old(self).geometry_ok(),
            old(self).arena.contains(hole as int),
            old(self).arena.contains(hole + 8),
            old(self).arena.contains(alloc_ptr - 8),
            old_hole.size != alloc_size ==> old(self).arena.contains(hole + alloc_size) && old(
                self,
            ).arena.contains(hole + alloc_size + 8),
            prev != 0 ==> old(self).arena.contains(prev + 8) && prev + 8 < hole,
            16 <= alloc_size <= old_hole.size,
            old_hole.size != alloc_size ==> alloc_size + 16 <= old_hole.size,
            hole + old_hole.size <= usize::MAX,
            hole + 8 <= alloc_ptr < hole + alloc_size,
            align >= 16 ==> hole + 16 <= alloc_ptr,
            back_padding == if old_hole.size == alloc_size {
                None::<HoleInfo>
            } else {
                Some(
                    HoleInfo {
                        addr: (hole + alloc_size) as usize,
                        size: (old_hole.size - alloc_size) as usize,
                    },
                )
            },
        ensures
            final(self).same_frame(old(self)),
            final(self).arena.at(hole as int) == alloc_size + 1,
            align >= 16 ==> final(self).arena.at(alloc_ptr - 8) == hole,
            back_padding matches Some(pad) ==> final(self).arena.at(pad.addr as int) == pad.size
                && final(self).arena.at(pad.addr + 8) == link_word(old_hole.next),
            ({
                let link = match back_padding {
                    Some(pad) => Some(pad.addr),
                    None => old_hole.next,
                };
                &&& prev != 0 ==> final(self).first == old(self).first && final(self).arena.at(prev + 8)
                    == link_word(link)
                &&& prev == 0 ==> final(self).first == (Hole { size: 0, next: link })
            }),
            final(self).changed_at(old(self), hole as int, hole + old_hole.size, prev + 8),
    {
        // Remove the current location from the previous node
        self.set_next(prev, None);
        // Take the next node out of our current node
        let maybe_next: Option<usize> = old_hole.next;
        self.arena.write(hole + 8, 0);

        match back_padding {
            None => {
                // No padding at all: connect the previous node to the next
                // node, if there was one
                self.set_next(prev, maybe_next);
            },
            Some(singlepad) => {
                // Replace the old node with the new single node, which
                // takes over the link of the old one
                self.write_hole(singlepad.addr, Hole { size: singlepad.size, next: maybe_next });
                self.set_next(prev, Some(singlepad.addr));
            },
        }

        // Turn the front of the hole into a used block
        self.arena.write(hole, alloc_size + SIZE_USED);
        // Place the back-pointer that leads from the payload to the header
        if align >= GRANULARITY {
            self.arena.write(alloc_ptr - USED_HDR_SIZE, hole);
        }
    }

    /// Searches the list for a big enough hole.
    ///
    /// The request is served from the first hole, in address order, that
    /// can hold it: `layout`, aligned as `align_layout` says, behind a block
    /// header. The payload address and the size of the block are returned.
    /// Where the layout cannot be aligned or no hole is big enough, the list
    /// stays as it is.
    pub fn allocate_first_fit(&mut self, layout: &Layout) -> (r: Result<(usize, usize), ()>)
        requires
            old(self).wf(),
        ensures
            final(self).wf(),
            final(self).spec_bottom() == old(self).spec_bottom(),
            final(self).spec_top() == old(self).spec_top(),
            final(self).spec_pending() == old(self).spec_pending(),
            ({
                let size = Self::aligned_size(layout.spec_size() as int);
                let align = Self::aligned_align(layout.spec_align() as int);
                let fit = if valid_layout(size, align) {
                    first_fit(old(self).holes(), size, align, 0)
                } else {
                    None
                };
                match r {
                    Ok((ptr, taken)) => {
                        &&& fit is Some
                        &&& ptr == payload_addr(old(self).holes()[fit->0].addr as int, align)
                        &&& taken == taken_size(
                            old(self).holes()[fit->0].size as int,
                            block_size(old(self).holes()[fit->0].addr as int, size, align),
                        )
                        &&& final(self).holes() == holes_after_split(
                            old(self).holes(),
                            fit->0,
                            taken as int,
                        )
                        &&& final(self).allocations() == old(self).allocations().push(
                            UsedBlock {
                                payload: ptr,
                                addr: old(self).holes()[fit->0].addr,
                                size: taken,
                                align: align as usize,
                            },
                        )
                        &&& final(self).spec_allocated() == old(self).spec_allocated() + taken
                        &&& final(self).spec_maximum() == if final(self).spec_allocated() > old(
                            self,
                        ).spec_maximum() {
                            final(self).spec_allocated()
                        } else {
                            old(self).spec_maximum()
                        }
                    },
                    Err(_) => {
                        &&& fit is None
                        &&& *final(self) == *old(self)
                    },
                }
            }),
    {
        let aligned_layout = match Self::align_layout(layout) {
            Ok(l) => l,
            Err(_) => {
                return Err(());
            },
        };
        let size: usize = aligned_layout.size();
        let align: usize = aligned_layout.align();
        let mut cursor = match self.cursor() {
            Some(c) => c,
            None => {
                return Err(());
            },
        };
        loop
            invariant
                self.wf(),
                *self == *old(self),
                cursor.at(self, cursor.index()),
                first_fit(self.holes@, size as int, align as int, 0) == first_fit(
                    self.holes@,
                    size as int,
                    align as int,
                    cursor.index(),
                ),
                is_power_of_two(align as int),
                align >= 8,
                size >= 16,
                size % 8 == 0,
                size == Self::aligned_size(layout.spec_size() as int),
                align == Self::aligned_align(layout.spec_align() as int),
                valid_layout(size as int, align as int),
            decreases self.holes@.len() - cursor.index(),
        {
            let ghost idx = cursor.index();
            let ghost hs = self.holes@;
            match cursor.split_current(self, size, align) {
                Ok((ptr, hole_size)) => {
                    assert(first_fit(hs, size as int, align as int, idx) == Some(idx));
                    return Ok((ptr, hole_size));
                },
                Err(curs) => {
                    assert(first_fit(hs, size as int, align as int, idx) == first_fit(
                        hs,
                        size as int,
                        align as int,
                        idx + 1,
                    ));
                    cursor = match curs.next(self, Ghost(0), Ghost(0)) {
                        Some(c) => c,
                        None => {
                            assert(first_fit(hs, size as int, align as int, idx + 1) is None);
                            return Err(());
                        },
                    };
                },
            }
        }
    }

    /// `ptr` is the payload of a used block that was allocated with
    /// alignment `align`.
    pub open spec fn is_allocated(&self, ptr: usize, align: usize) -> bool {
        exists|i: int|
            0 <= i < self.allocations().len() && (#[trigger] self.allocations()[i]).payload == ptr
                && self.allocations()[i].align == Self::aligned_align(align as int)
    }

    /// `ptr` is the payload of a used block.
    pub open spec fn is_payload(&self, ptr: usize) -> bool {
        exists|i: int|
            0 <= i < self.allocations().len() && (#[trigger] self.allocations()[i]).payload == ptr
    }

    /// Index of the used block whose payload is at `ptr`.
    pub open spec fn allocation_index(&self, ptr: usize) -> int {
        choose|i: int|
            0 <= i < self.allocations().len() && (#[trigger] self.allocations()[i]).payload == ptr
    }

    /// The state after the used block at index `i` was given back.
    pub open spec fn freed(&self, before: &HoleList, i: int) -> bool {
        let u = before.allocations()[i];
        &&& self.allocations() == before.allocations().remove(i)
        &&& self.holes() == holes_after_free(before.holes(), HoleInfo { addr: u.addr, size: u.size })
        &&& self.spec_allocated() == before.spec_allocated() - u.size
        &&& self.spec_maximum() == before.spec_maximum()
        &&& self.spec_bottom() == before.spec_bottom()
        &&& self.spec_top() == before.spec_top()
        &&& self.spec_pending() == before.spec_pending()
    }

    /// Gives back the used block with header at `hdr`, which is the block at
    /// index `i`.
    fn release(&mut self, hdr: usize, Ghost(i): Ghost<int>) -> (r: usize)
        requires
            old(self).wf(),
            0 <= i < old(self).used@.len(),
            hdr == old(self).used@[i].addr,
        ensures
            final(self).wf(),
            r == old(self).used@[i].size,
            final(self).freed(old(self), i),
    {
        let ghost s = self.holes@;
        let ghost u = self.used@;
        let ghost bot = self.bottom as int;
        let ghost top = self.top as int;
        proof {
            self.lemma_used(i);
        }
        let hole_size: usize = self.arena.read(hdr) - SIZE_USED;
        proof {
            lemma_release_pure(s, u, i, bot, top);
            self.lemma_used_stored_remove(u, i);
            lemma_used_bytes_remove(u, i);
            lemma_used_bytes_nonnegative(u.remove(i));
            self.used@ = u.remove(i);
        }
        self.allocated = self.allocated - hole_size;
        deallocate(self, hdr, hole_size);
        hole_size
    }

    /// Frees the allocation given by `ptr` and `layout`.
    ///
    /// The block goes back to the list at its place in address order and
    /// merges with the holes that it touches. `ptr` must be the payload of a
    /// used block that was allocated with the alignment of `layout`. The
    /// size of the block is returned.
    pub fn deallocate(&mut self, ptr: usize, layout: &Layout) -> (r: usize)
        requires
            old(self).wf(),
            old(self).is_allocated(ptr, layout.spec_align()),
        ensures
            final(self).wf(),
            r == old(self).allocations()[old(self).allocation_index(ptr)].size,
            final(self).freed(old(self), old(self).allocation_index(ptr)),
    {
        let ghost i = self.allocation_index(ptr);
        proof {
            let j = choose|j: int|
                0 <= j < self.used@.len() && (#[trigger] self.used@[j]).payload == ptr
                    && self.used@[j].align == Self::aligned_align(layout.spec_align() as int);
            lemma_used_unique(self.used@, self.bottom as int, self.top as int, i, j);
            self.lemma_used(i);
        }
        let old_block: usize = used_block_hdr_for_allocation(&self.arena, ptr, layout.align());
        self.release(old_block, Ghost(i))
    }

    /// Frees the allocation given by `ptr`, whatever alignment it was
    /// allocated with. `ptr` must be the payload of a used block. The size
    /// of the block is returned.
    pub fn deallocate_unknown_align(&mut self, ptr: usize) -> (r: usize)
        requires
            old(self).wf(),
            old(self).is_payload(ptr),
        ensures
            final(self).wf(),
            r == old(self).allocations()[old(self).allocation_index(ptr)].size,
            final(self).freed(old(self), old(self).allocation_index(ptr)),
    {
        let ghost i = self.allocation_index(ptr);
        proof {
            self.lemma_used(i);
        }
        let old_block: usize = used_block_hdr_for_allocation_unknown_align(&self.arena, ptr);
        self.release(old_block, Ghost(i))
    }

    /// Returns address and size of the first hole.
    pub fn first_hole(&self) -> (r: Option<(usize, usize)>)
        requires
            self.wf(),
        ensures
            r == if self.holes().len() > 0 {
                Some((self.holes()[0].addr, self.holes()[0].size))
            } else {
                None
            },
    {
        proof {
            self.lemma_first();
            if self.holes@.len() > 0 {
                self.lemma_hole(0, 0, 0);
            }
        }
        match self.first.next {
            Some(hole) => Some((hole, self.arena.read(hole))),
            None => None,
        }
    }

    /// Walks the list and returns the holes in the order of the walk.
    pub fn debug(&self) -> (v: Vec<HoleInfo>)
        requires
            self.wf(),
        ensures
            v@ == self.holes(),
    {
        let mut v: Vec<HoleInfo> = Vec::new();
        let mut cursor = match self.cursor() {
            Some(c) => c,
            None => {
                assert(v@ =~= self.holes@);
                return v;
            },
        };
        loop
            invariant
                self.wf(),
                cursor.at(self, cursor.index()),
                v@ == self.holes@.subrange(0, cursor.index()),
            decreases self.holes@.len() - cursor.index(),
        {
            let h = cursor.current(self, Ghost(0), Ghost(0));
            let ghost idx = cursor.index();
            v.push(HoleInfo { addr: cursor.hole, size: h.size });
            assert(v@ =~= self.holes@.subrange(0, idx + 1));
            cursor = match cursor.next(self, Ghost(0), Ghost(0)) {
                Some(c) => c,
                None => {
                    assert(v@ =~= self.holes@);
                    return v;
                },
            };
        }
    }

    /// The state after `extend(by)`: the bytes join those that are pending;
    /// where they make up a granule, the whole words among them become a
    /// hole at the old top, which merges with a hole that ends there.
    pub open spec fn extended(&self, before: &HoleList, by: usize) -> bool {
        let sum = before.spec_pending() + by;
        let grown = if sum < 16 {
            0
        } else {
            align_down_spec(sum, 8)
        };
        &&& self.spec_bottom() == before.spec_bottom()
        &&& self.spec_top() == before.spec_top() + grown
        &&& self.spec_pending() == sum - grown
        &&& self.allocations() == before.allocations()
        &&& self.spec_allocated() == before.spec_allocated()
        &&& self.spec_maximum() == before.spec_maximum()
        &&& self.holes() == if sum < 16 {
            before.holes()
        } else {
            holes_after_free(
                before.holes(),
                HoleInfo { addr: before.spec_top(), size: grown as usize },
            )
        }
    }

    /// Makes the arena longer by `by` bytes at its top.
    ///
    /// The arena grows by a granule at least and in whole words. Bytes that
    /// do not make up a granule, and bytes beyond whole words, are kept as
    /// pending and join the bytes of the next call.
    pub fn extend(&mut self, by: usize)
        requires
            old(self).wf(),
            old(self).spec_top() != 0,
            old(self).spec_top() + old(self).spec_pending() + by <= usize::MAX,
        ensures
            final(self).wf(),
            final(self).extended(old(self), by),
    {
        let top: usize = self.top;
        // join this extend request with any pending (but not yet acted on)
        // extension
        let extend_by: usize = self.pending_extend as usize + by;
        let minimum_extend: usize = Self::min_size();
        if extend_by < minimum_extend {
            self.pending_extend = extend_by as u8;
            return;
        }
        // only extend up to another valid boundary
        let new_hole_size: usize = align_down_size(extend_by, HOLE_ALIGN);
        let ghost s = self.holes@;
        let ghost u = self.used@;
        proof {
            lemma_align_down(extend_by as int, 8);
            lemma_words_above(new_hole_size as int);
        }
        self.arena.grow(new_hole_size);
        self.top = top + new_hole_size;
        proof {
            lemma_grow_pure(s, u, self.bottom as int, top as int, self.top as int);
            Self::lemma_grow_stored(*old(self), *self);
        }
        deallocate(self, top, new_hole_size);
        // save extra bytes given to extend that weren't aligned to the hole
        // size
        self.pending_extend = (extend_by - new_hole_size) as u8;
    }

    /// Holes and used blocks stay recorded where the arena grows.
    proof fn lemma_grow_stored(before: HoleList, after: HoleList)
        requires
            before.geometry_ok(),
            holes_wf(before.holes@, before.bottom as int, before.top as int, 0, 0),
            used_wf(before.used@, before.bottom as int, before.top as int),
            before.holes_stored(before.holes@),
            before.used_stored_all(before.used@),
            after.first == before.first,
            forall|a: int| before.arena.contains(a) ==> after.arena.at(a) == before.arena.at(a),
        ensures
            after.holes_stored(before.holes@),
            after.used_stored_all(before.used@),
    {
        let s = before.holes@;
        let u = before.used@;
        reveal(holes_recorded);
        reveal(all_used_recorded);
        assert forall|i: int| 0 <= i < s.len() implies #[trigger] hole_recorded(after.arena, s, i) by {
            before.lemma_hole(0, 0, i);
        }
        assert forall|i: int| 0 <= i < u.len() implies after.used_stored(#[trigger] u[i]) by {
            before.lemma_used(i);
        }
    }

    /// Lowest address of the arena.
    pub fn bottom(&self) -> (r: usize)
        ensures
            r == self.spec_bottom(),
    {
        self.bottom
    }

    /// Address one past the arena.
    pub fn top(&self) -> (r: usize)
        ensures
            r == self.spec_top(),
    {
        self.top
    }

    /// Bytes given to `extend` that did not make up a granule yet.
    pub fn pending_extend(&self) -> (r: usize)
        ensures
            r == self.spec_pending(),
    {
        self.pending_extend as usize
    }

    /// Bytes of the arena.
    pub fn total(&self) -> (r: usize)
        requires
            self.wf(),
        ensures
            r == self.spec_top() - self.spec_bottom(),
    {
        self.top - self.bottom
    }

    /// Bytes in used blocks.
    pub fn allocated(&self) -> (r: usize)
        ensures
            r == self.spec_allocated(),
    {
        self.allocated
    }

    /// The most bytes that were ever in used blocks at one time.
    pub fn maximum(&self) -> (r: usize)
        ensures
            r == self.spec_maximum(),
    {
        self.maximum
    }

    /// The holes of a consistent list lie in the arena on word boundaries
    /// and hold a granule at least; they are sorted by address, and no two
    /// of them touch: between any two holes lies used memory.
    pub proof fn lemma_holes_sorted(&self)
        requires
            self.wf(),
        ensures
            holes_ordered(self.holes(), 0, 0),
            forall|i: int|
                0 <= i < self.holes().len() ==> hole_ok(
                    #[trigger] self.holes()[i],
                    self.spec_bottom() as int,
                    self.spec_top() as int,
                ),
    {
        reveal(holes_wf);
    }

    /// The used blocks of a consistent list lie in the arena on word
    /// boundaries and hold a granule at least; the payload of each stands
    /// where its alignment puts it, inside the block. No two used blocks
    /// overlap, and no used block overlaps a hole.
    pub proof fn lemma_used_blocks(&self)
        requires
            self.wf(),
        ensures
            forall|i: int|
                0 <= i < self.allocations().len() ==> used_ok(
                    #[trigger] self.allocations()[i],
                    self.spec_bottom() as int,
                    self.spec_top() as int,
                ),
            forall|i: int, j: int|
                0 <= i < j < self.allocations().len() ==> disjoint(
                    (#[trigger] self.allocations()[i]).addr as int,
                    self.allocations()[i].size as int,
                    (#[trigger] self.allocations()[j]).addr as int,
                    self.allocations()[j].size as int,
                ),
            forall|i: int, j: int|
                0 <= i < self.allocations().len() && 0 <= j < self.holes().len() ==> disjoint(
                    (#[trigger] self.allocations()[i]).addr as int,
                    self.allocations()[i].size as int,
                    (#[trigger] self.holes()[j]).addr as int,
                    self.holes()[j].size as int,
                ),
    {
        reveal(used_wf);
        reveal(apart);
    }

    /// The counter of allocated bytes is the total size of the used blocks,
    /// which together with the holes make up the arena. Where every block
    /// was given back, whatever the order, the counter is 0 and the holes
    /// hold every byte of the arena.
    pub proof fn lemma_accounts(&self)
        requires
            self.wf(),
        ensures
            self.spec_allocated() == used_bytes(self.allocations()),
            self.spec_allocated() + hole_bytes(self.holes()) == self.spec_top() - self.spec_bottom(),
            self.spec_allocated() <= self.spec_maximum(),
            self.allocations().len() == 0 ==> self.spec_allocated() == 0 && hole_bytes(self.holes())
                == self.spec_top() - self.spec_bottom(),
    {
        if self.used@.len() == 0 {
            assert(self.used@ =~= Seq::<UsedBlock>::empty());
            lemma_bytes_empty();
        }
    }

    /// A payload belongs to one used block: the block at index `i` is the
    /// one that `allocation_index` gives for its payload.
    pub proof fn lemma_allocation_index(&self, i: int)
        requires
            self.wf(),
            0 <= i < self.allocations().len(),
        ensures
            self.is_payload(self.allocations()[i].payload),
            self.allocation_index(self.allocations()[i].payload) == i,
    {
        let ptr = self.allocations()[i].payload;
        let j = self.allocation_index(ptr);
        lemma_used_unique(self.used@, self.bottom as int, self.top as int, i, j);
    }

    /// A request for more bytes than the holes hold finds no hole: it is
    /// refused, and the list stays as it is.
    pub proof fn lemma_no_fit(&self, size: int, align: int)
        requires
            self.wf(),
            align > 0,
            size > self.spec_top() - self.spec_bottom() - self.spec_allocated(),
        ensures
            first_fit(self.holes(), size, align, 0) is None,
    {
        let s = self.holes@;
        assert forall|i: int| 0 <= i < s.len() implies block_size(s[i].addr as int, size, align)
            > (#[trigger] s[i]).size by {
            lemma_hole_bytes_bound(s, i);
            lemma_align_up(s[i].addr + 8, align);
            lemma_align_up(s[i].addr + 16, align);
            lemma_hole_bytes_nonnegative(s);
            lemma_align_up(payload_addr(s[i].addr as int, align) - s[i].addr + size, 16);
        }
        lemma_first_fit_none(s, size, align, 0);
    }

    /// A request for no bytes aligned to one byte is served as a request
    /// for a granule aligned to a word.
    pub proof fn lemma_zero_layout()
        ensures
            Self::aligned_size(0) == 16,
            Self::aligned_size(0) == Self::aligned_size(16),
            Self::aligned_align(1) == 8,
            Self::aligned_align(1) == Self::aligned_align(8),
    {
        lemma_align_up(16, 8);
    }

    /// Bytes that `extend` keeps as pending join those of the next call:
    /// an `extend` that brings less than a granule, followed by one that
    /// makes up a granule with it, gives what one `extend` by both amounts
    /// gives: one hole at the old top.
    pub proof fn lemma_extend_twice(before: HoleList, mid: HoleList, after: HoleList, by1: usize, by2: usize)
        requires
            before.spec_pending() + by1 < 16,
            by1 + by2 <= usize::MAX,
            mid.extended(&before, by1),
            after.extended(&mid, by2),
        ensures
            mid.spec_pending() == before.spec_pending() + by1,
            mid.holes() == before.holes(),
            mid.spec_top() == before.spec_top(),
            after.extended(&before, (by1 + by2) as usize),
    {
    }
}

impl Cursor {
    /// The cursor stands at index `i` of the holes of `list`.
    pub closed spec fn at(&self, list: &HoleList, i: int) -> bool {
        &&& self.index@ == i
        &&& 0 <= i < list.holes@.len()
        &&& self.hole == list.holes@[i].addr
        &&& self.prev == prev_of(list.holes@, i)
        &&& self.top == list.top
    }

    /// Index of the hole that the cursor stands at.
    pub closed spec fn index(&self) -> int {
        self.index@
    }

    /// The cursor at the hole after this one, if there is one.
    fn next(self, list: &HoleList, lo: Ghost<int>, hi: Ghost<int>) -> (r: Option<Cursor>)
        requires
            list.core_inv(lo@, hi@),
            self.at(list, self.index()),
        ensures
            r is Some <==> self.index() + 1 < list.holes@.len(),
            r matches Some(c) ==> c.at(list, self.index() + 1),
    {
        proof {
            list.lemma_hole(lo@, hi@, self.index@);
        }
        match list.read_hole(self.hole).next {
            Some(nhole) => Some(
                Cursor { prev: self.hole, hole: nhole, top: self.top, index: Ghost(self.index@ + 1) },
            ),
            None => None,
        }
    }

    /// The hole that the cursor stands at.
    fn current(&self, list: &HoleList, lo: Ghost<int>, hi: Ghost<int>) -> (h: Hole)
        requires
            list.core_inv(lo@, hi@),
            self.at(list, self.index()),
        ensures
            h.size == list.holes@[self.index()].size,
            h.next == next_of(list.holes@, self.index()),
    {
        proof {
            list.lemma_hole(lo@, hi@, self.index@);
        }
        list.read_hole(self.hole)
    }

    /// The hole before the one that the cursor stands at; the dummy head,
    /// of size 0, where the cursor stands at the first hole.
    fn previous(&self, list: &HoleList, lo: Ghost<int>, hi: Ghost<int>) -> (h: Hole)
        requires
            list.core_inv(lo@, hi@),
            self.at(list, self.index()),
        ensures
            h.size == if self.index() == 0 {
                0
            } else {
                list.holes@[self.index() - 1].size
            },
            h.next == Some(list.holes@[self.index()].addr),
    {
        proof {
            list.lemma_hole(lo@, hi@, self.index@);
            if self.index@ > 0 {
                list.lemma_hole(lo@, hi@, self.index@ - 1);
            }
        }
        if self.prev == 0 {
            list.first
        } else {
            list.read_hole(self.prev)
        }
    }

    /// Carves a used block for `size` bytes aligned to `align` from the
    /// front of the hole that the cursor stands at.
    ///
    /// On success the payload address and the size of the block are
    /// returned, and what is left of the hole stays in the list in its
    /// place. Where the hole is too small the cursor comes back and the list
    /// is as it was.
    #[verifier::rlimit(40)]
    fn split_current(self, list: &mut HoleList, size: usize, align: usize) -> (r: Result<
        (usize, usize),
        Cursor,
    >)
        requires
            old(list).wf(),
            self.at(old(list), self.index()),
            is_power_of_two(align as int),
            align >= 8,
            size >= 16,
            size % 8 == 0,
        ensures
            final(list).wf(),
            final(list).bottom == old(list).bottom,
            final(list).top == old(list).top,
            final(list).pending_extend == old(list).pending_extend,
            match r {
                Ok((ptr, taken)) => {
                    let h = old(list).holes@[self.index()];
                    &&& block_size(h.addr as int, size as int, align as int) <= h.size
                    &&& ptr == payload_addr(h.addr as int, align as int)
                    &&& taken == taken_size(
                        h.size as int,
                        block_size(h.addr as int, size as int, align as int),
                    )
                    &&& final(list).holes@ == holes_after_split(
                        old(list).holes@,
                        self.index(),
                        taken as int,
                    )
                    &&& final(list).used@ == old(list).used@.push(
                        UsedBlock { payload: ptr, addr: h.addr, size: taken, align },
                    )
                    &&& final(list).allocated == old(list).allocated + taken
                    &&& final(list).maximum == if final(list).allocated > old(list).maximum {
                        final(list).allocated
                    } else {
                        old(list).maximum
                    }
                },
                Err(c) => {
                    let h = old(list).holes@[self.index()];
                    &&& block_size(h.addr as int, size as int, align as int) > h.size
                    &&& c == self
                    &&& *final(list) == *old(list)
                },
            },
    {
        let ghost s = list.holes@;
        let ghost u = list.used@;
        let ghost c = self.index@;
        let ghost h = s[c];
        proof {
            list.lemma_hole(0, 0, c);
            lemma_payload_addr(h.addr as int, align as int);
        }
        let hole: Hole = list.read_hole(self.hole);
        let hole_size: usize = hole.size;

        // Decide the starting address of the payload: behind the header,
        // and behind the back-pointer where there is one
        let unaligned_ptr: usize = if align >= GRANULARITY {
            self.hole + USED_HDR_SIZE + USED_HDR_SIZE
        } else {
            self.hole + USED_HDR_SIZE
        };
        proof {
            lemma_align_up(unaligned_ptr as int, align as int);
        }
        let alloc_ptr: usize = match checked_align_up(unaligned_ptr, align) {
            Some(p) => p,
            None => {
                proof {
                    lemma_align_up(payload_addr(h.addr as int, align as int) - h.addr + size, 16);
                }
                return Err(self);
            },
        };

        // Calculate the overhead and the final block size of the used block
        // being created here
        let overhead: usize = alloc_ptr - self.hole;
        proof {
            lemma_align_up(overhead + size, 16);
        }
        let new_size: usize = match overhead.checked_add(size) {
            Some(v) => v,
            None => {
                return Err(self);
            },
        };
        let new_size: usize = match checked_align_up(new_size, GRANULARITY) {
            Some(v) => v,
            None => {
                return Err(self);
            },
        };
        if hole_size < new_size {
            return Err(self);
        }
        let mut alloc_size: usize = new_size;
        // The room behind the block
        let back_padding: Option<HoleInfo> = if hole_size == new_size {
            None
        } else {
            let back_padding_size: usize = hole_size - new_size;
            let back_padding_start: usize = self.hole + new_size;
            // A hole needs a granule
            if back_padding_size >= GRANULARITY {
                Some(HoleInfo { addr: back_padding_start, size: back_padding_size })
            } else {
                alloc_size = hole_size;
                None
            }
        };
        proof {
            lemma_granule_is_words(new_size as int);
            assert(alloc_size == taken_size(hole_size as int, new_size as int));
            lemma_carve_addresses(
                list.arena,
                self.hole as int,
                hole_size as int,
                alloc_ptr as int,
                alloc_size as int,
            );
        }
        list.carve(self.prev, self.hole, hole, alloc_ptr, alloc_size, align, back_padding);
        let ghost block = UsedBlock { payload: alloc_ptr, addr: self.hole, size: alloc_size, align };
        let ghost s2 = holes_after_split(s, c, alloc_size as int);
        let ghost u2 = u.push(block);
        proof {
            lemma_split_sums(s, u, c, block);
            lemma_hole_bytes_nonnegative(s2);
        }
        list.allocated = list.allocated + alloc_size;
        if list.allocated > list.maximum {
            list.maximum = list.allocated;
        }
        proof {
            list.holes@ = s2;
            list.used@ = u2;
            let bot = list.bottom as int;
            let top = list.top as int;
            assert(list.split_from(old(list), c, block));
            lemma_split_pure(s, u, c, block, bot, top);
            HoleList::lemma_split_stored(*old(list), *list, c, block);
            lemma_clear_hole(s, u, c);
            let ghost mut whi: int = 0;
            if c > 0 {
                lemma_clear_hole(s, u, c - 1);
                old(list).lemma_hole(0, 0, c - 1);
                whi = s[c - 1].addr + s[c - 1].size;
            } else {
                assert(!old(list).arena.contains(8));
            }
            HoleList::lemma_used_kept(
                *old(list),
                *list,
                u,
                h.addr as int,
                h.addr + h.size,
                prev_of(s, c) + 8,
                prev_of(s, c) as int,
                whi,
            );
            list.lemma_used_stored_push(u, block);
        }
        Ok((alloc_ptr, alloc_size))
    }

    /// Links the pending hole `b` in front of the first hole, where it lies
    /// below that hole. The cursor that comes back stands at the new hole.
    /// Where `b` lies above the first hole, the cursor comes back as it was
    /// and the list is as it was.
    fn try_insert_back(self, list: &mut HoleList, node: usize, bottom: usize, Ghost(b): Ghost<
        HoleInfo,
    >) -> (r: Result<Cursor, Cursor>)
        requires
            old(list).core_inv(0, 0),
            old(list).pending(b),
            node == b.addr,
            bottom == old(list).bottom,
            self.at(old(list), 0),
        ensures
            final(list).same_scalars(old(list)),
            final(list).used@ == old(list).used@,
            match r {
                Ok(c) => {
                    &&& insert_index(old(list).holes@, b.addr as int) == 0
                    &&& final(list).holes@ == old(list).holes@.insert(0, b)
                    &&& final(list).core_inv(0, 1)
                    &&& c.at(final(list), 0)
                    &&& hole_bytes(final(list).holes@) == hole_bytes(old(list).holes@) + b.size
                },
                Err(c) => {
                    &&& c == self
                    &&& *final(list) == *old(list)
                    &&& old(list).holes@[0].addr < b.addr
                },
            },
    {
        let ghost s = list.holes@;
        let ghost u = list.used@;
        let ghost bot = list.bottom as int;
        let ghost top = list.top as int;
        proof {
            list.lemma_hole(0, 0, 0);
            list.lemma_hole_contained(b);
            reveal(clear_of_holes);
            assert(disjoint(s[0].addr as int, s[0].size as int, b.addr as int, b.addr + b.size - b.addr));
        }
        // The new hole lies before the current one only where the current
        // is the first of the list
        if node < self.hole {
            let node: usize = check_merge_bottom(list, node, bottom);
            list.set_next(self.prev, Some(node));
            list.arena.write(node + 8, self.hole);
            proof {
                list.holes@ = s.insert(0, b);
                assert(list.insert_from(old(list), 0, b));
                lemma_insert_pure(s, u, 0, b, bot, top);
                HoleList::lemma_insert_stored(*old(list), *list, 0, b);
                assert(!old(list).arena.contains(8));
                HoleList::lemma_used_kept(
                    *old(list),
                    *list,
                    u,
                    b.addr as int,
                    b.addr + b.size,
                    8,
                    0,
                    0,
                );
                lemma_window(s.insert(0, b), bot, top, -1, 1, 0, 1);
            }
            Ok(Cursor { prev: self.prev, hole: node, top: self.top, index: Ghost(0) })
        } else {
            Err(self)
        }
    }

    /// Links the pending hole `b` in behind the hole that the cursor stands
    /// at, where it lies below the hole after that one or there is none.
    /// Where `b` lies above the hole after, the list is as it was.
    fn try_insert_after(&self, list: &mut HoleList, node: usize, Ghost(b): Ghost<HoleInfo>) -> (r:
        Result<(), ()>)
        requires
            old(list).core_inv(0, 0),
            old(list).pending(b),
            node == b.addr,
            self.at(old(list), self.index()),
            old(list).holes@[self.index()].addr < b.addr,
        ensures
            final(list).same_scalars(old(list)),
            final(list).used@ == old(list).used@,
            match r {
                Ok(_) => {
                    &&& insert_index(old(list).holes@, b.addr as int) == self.index() + 1
                    &&& final(list).holes@ == old(list).holes@.insert(self.index() + 1, b)
                    &&& final(list).core_inv(self.index(), self.index() + 2)
                    &&& self.at(final(list), self.index())
                    &&& hole_bytes(final(list).holes@) == hole_bytes(old(list).holes@) + b.size
                },
                Err(_) => {
                    &&& *final(list) == *old(list)
                    &&& self.index() + 1 < old(list).holes@.len()
                    &&& old(list).holes@[self.index() + 1].addr < b.addr
                },
            },
    {
        let ghost s = list.holes@;
        let ghost u = list.used@;
        let ghost c = self.index@;
        let ghost bot = list.bottom as int;
        let ghost top = list.top as int;
        proof {
            list.lemma_hole(0, 0, c);
            list.lemma_hole_contained(b);
            reveal(clear_of_holes);
            if c + 1 < s.len() {
                assert(disjoint(
                    s[c + 1].addr as int,
                    s[c + 1].size as int,
                    b.addr as int,
                    b.addr + b.size - b.addr,
                ));
            }
        }
        let current: Hole = list.read_hole(self.hole);
        // Where there is a next hole, the new one must end before it
        if let Some(next) = current.next {
            if node < next {
            } else {
                // The new hole does not lie between current and next
                return Err(());
            }
        }
        // There is no next hole, or the new one lies between the current
        // and the next: link it in behind the current.
        list.arena.write(self.hole + 8, node);
        list.arena.write(
            node + 8,
            match current.next {
                Some(a) => a,
                None => 0,
            },
        );
        proof {
            list.holes@ = s.insert(c + 1, b);
            assert(list.insert_from(old(list), c + 1, b));
            lemma_insert_pure(s, u, c + 1, b, bot, top);
            HoleList::lemma_insert_stored(*old(list), *list, c + 1, b);
            lemma_clear_hole(s, u, c);
            HoleList::lemma_used_kept(
                *old(list),
                *list,
                u,
                b.addr as int,
                b.addr + b.size,
                s[c].addr + 8,
                s[c].addr as int,
                s[c].addr + s[c].size,
            );
        }
        Ok(())
    }

    /// Merges the hole that the cursor stands at with the holes after it,
    /// in `max` steps at most: a step merges the hole with the one after it
    /// where the two touch, and goes on to the next hole where they do not.
    fn try_merge_next_n(self, list: &mut HoleList, max: usize)
        requires
            old(list).core_inv(self.index(), self.index() + max),
            self.at(old(list), self.index()),
        ensures
            final(list).core_inv(0, 0),
            final(list).holes@ == merge_n(old(list).holes@, self.index(), max as nat),
            final(list).same_scalars(old(list)),
            final(list).used@ == old(list).used@,
            hole_bytes(final(list).holes@) == hole_bytes(old(list).holes@),
    {
        let mut hole: usize = self.hole;
        let top: usize = self.top;
        let ghost mut cur: int = self.index@;
        let mut i: usize = 0;
        while i < max
            invariant
                i <= max,
                list.core_inv(cur, cur + (max - i)),
                0 <= cur < list.holes@.len(),
                hole == list.holes@[cur].addr,
                top == list.top,
                merge_n(list.holes@, cur, (max - i) as nat) == merge_n(
                    old(list).holes@,
                    self.index(),
                    max as nat,
                ),
                list.same_scalars(old(list)),
                list.used@ == old(list).used@,
                hole_bytes(list.holes@) == hole_bytes(old(list).holes@),
            decreases max - i,
        {
            let ghost s = list.holes@;
            let ghost u = list.used@;
            let ghost n = max - i;
            let ghost bot = list.bottom as int;
            let ghost tp = list.top as int;
            let ghost before = *list;
            proof {
                list.lemma_hole(cur, cur + n, cur);
            }
            let h: Hole = list.read_hole(hole);
            // Is there a next hole?
            let next: usize = match h.next {
                Some(next) => next,
                None => {
                    // Since there is no next node, we need to check whether
                    // the current hole should extend to the end
                    check_merge_top(list, hole, top);
                    proof {
                        lemma_done_pure(s, cur, n, bot, tp);
                    }
                    return;
                },
            };
            // Can we directly merge these? e.g. are they touching?
            let hole_sz: usize = h.size;
            let end: usize = hole + hole_sz;
            let touching: bool = end == next;
            if touching {
                proof {
                    list.lemma_hole(cur, cur + n, cur + 1);
                    lemma_merge_pure(s, u, cur, n, bot, tp);
                }
                let nh: Hole = list.read_hole(next);
                let next_sz: usize = nh.size;
                let next_next: Option<usize> = nh.next;
                list.arena.write(next + 8, 0);
                list.set_next(hole, next_next);
                list.arena.write(hole, hole_sz + next_sz);
                proof {
                    list.holes@ = merge_at(s, cur);
                    assert(list.merge_from(&before, cur));
                    HoleList::lemma_merge_stored(before, *list, cur, n);
                    lemma_clear_hole(s, u, cur);
                    lemma_clear_hole(s, u, cur + 1);
                    HoleList::lemma_used_kept(
                        before,
                        *list,
                        u,
                        s[cur].addr as int,
                        s[cur].addr + s[cur].size,
                        s[cur + 1].addr + 8,
                        s[cur + 1].addr as int,
                        s[cur + 1].addr + s[cur + 1].size,
                    );
                }
                // The next hole is merged in. The cursor stays: the hole
                // behind the merged one is the next now.
            } else {
                // The two do not touch: move to the next hole.
                proof {
                    lemma_skip_pure(s, cur, n, bot, tp);
                    cur = cur + 1;
                }
                hole = next;
            }
            i += 1;
        }
        proof {
            lemma_done_pure(list.holes@, cur, 0, list.bottom as int, list.top as int);
        }
    }
}

/// Records a hole of `size` bytes without a link at `addr`.
fn make_hole(list: &mut HoleList, addr: usize, size: usize) -> (node: usize)
    requires
        old(list).geometry_ok(),
        old(list).arena.contains(addr as int),
        old(list).arena.contains(addr + 8),
    ensures
        node == addr,
        final(list).same_frame(old(list)),
        final(list).first == old(list).first,
        final(list).arena.at(addr as int) == size,
        final(list).arena.at(addr + 8) == 0,
        forall|a: int|
            old(list).arena.contains(a) && a != addr && a != addr + 8 ==> final(list).arena.at(a)
                == old(list).arena.at(a),
{
    list.write_hole(addr, Hole { size, next: None });
    addr
}

/// Size of the hole of `size` bytes at `node` after it was held against
/// `top`: a hole that ends below `top` and leaves too little room for
/// another hole behind it reaches up to `top`; every other hole keeps its
/// size.
pub open spec fn size_against_top(node: int, size: int, top: int) -> int {
    if node + size < top && align_up_spec(node + size, 8) + 16 > top {
        top - node
    } else {
        size
    }
}

/// Start of the hole at `node` after it was held against `bottom`: a hole
/// that leaves too little room for another hole before it starts at
/// `bottom`.
pub open spec fn start_against_bottom(node: int, bottom: int) -> int {
    if node - bottom < 16 {
        bottom
    } else {
        node
    }
}

/// Sees whether the hole at `node` should reach up to `top`: where too
/// little room for another hole is left behind it, it takes that room.
///
/// Behind a hole of a list lies the top of the arena or a block, which
/// holds a granule at least: the room behind such a hole is none or enough,
/// and the list stays as it is.
#[verifier::spinoff_prover]
fn check_merge_top(list: &mut HoleList, node: usize, top: usize)
    requires
        old(list).arena.wf(),
        old(list).arena.contains(node as int),
        node + old(list).arena.at(node as int) <= usize::MAX,
    ensures
        final(list).arena.at(node as int) == size_against_top(
            node as int,
            old(list).arena.at(node as int) as int,
            top as int,
        ),
        forall|a: int|
            old(list).arena.contains(a) && a != node ==> final(list).arena.at(a) == old(list).arena.at(a),
        final(list).arena.wf(),
        final(list).arena.base() == old(list).arena.base(),
        final(list).arena.limit() == old(list).arena.limit(),
        final(list).first == old(list).first,
        final(list).same_scalars(old(list)),
        final(list).holes == old(list).holes,
        final(list).used == old(list).used,
        old(list).geometry_ok() && top == old(list).top && hole_ok(
            HoleInfo { addr: node, size: old(list).arena.at(node as int) },
            old(list).bottom as int,
            top as int,
        ) ==> *final(list) == *old(list),
{
    let node_sz: usize = list.arena.read(node);
    // If this is the last node, we need to see if we need to merge to the
    // end
    let end: usize = node + node_sz;
    if end < top {
        proof {
            lemma_align_up(end as int, 8);
            if list.geometry_ok() && top == list.top && hole_ok(
                HoleInfo { addr: node, size: node_sz },
                list.bottom as int,
                top as int,
            ) {
                lemma_room_behind(node as int, node_sz as int, top as int);
            }
        }
        let room_for_a_hole: bool = match checked_align_up(end, HOLE_ALIGN) {
            Some(aligned) => match aligned.checked_add(GRANULARITY) {
                Some(next_hole_end) => next_hole_end <= top,
                None => false,
            },
            None => false,
        };
        if !room_for_a_hole {
            let offset: usize = top - end;
            list.arena.write(node, node_sz + offset);
        }
    }
}

/// Sees whether the pending hole at `node` should start at `bottom`: where
/// too little room for another hole is left before it, it is recorded at
/// `bottom`, with that room and without a link. Returns where the hole
/// starts.
///
/// Before a hole of a list lies the bottom of the arena or a block, which
/// holds a granule at least: the room before such a hole is none or enough,
/// and a hole without a link stays as it is.
#[verifier::spinoff_prover]
fn check_merge_bottom(list: &mut HoleList, node: usize, bottom: usize) -> (r: usize)
    requires
        old(list).geometry_ok(),
        bottom <= node,
        old(list).arena.contains(node as int),
        node - bottom < 16 ==> {
            &&& old(list).arena.contains(bottom as int)
            &&& old(list).arena.contains(bottom + 8)
            &&& old(list).arena.at(node as int) + (node - bottom) <= usize::MAX
        },
    ensures
        r == start_against_bottom(node as int, bottom as int),
        final(list).same_frame(old(list)),
        final(list).first == old(list).first,
        node - bottom < 16 ==> {
            &&& final(list).arena.at(bottom as int) == old(list).arena.at(node as int) + (node
                - bottom)
            &&& final(list).arena.at(bottom + 8) == 0
        },
        forall|a: int|
            old(list).arena.contains(a) && !(node - bottom < 16 && (a == bottom || a == bottom + 8))
                ==> final(list).arena.at(a) == old(list).arena.at(a),
        bottom == old(list).bottom && old(list).arena.at(node + 8) == 0 && hole_ok(
            HoleInfo { addr: node, size: old(list).arena.at(node as int) },
            bottom as int,
            old(list).top as int,
        ) ==> {
            &&& r == node
            &&& forall|a: int|
                old(list).arena.contains(a) ==> final(list).arena.at(a) == old(list).arena.at(a)
        },
{
    proof {
        if bottom == list.bottom && hole_ok(
            HoleInfo { addr: node, size: list.arena.at(node as int) },
            bottom as int,
            list.top as int,
        ) {
            lemma_same_granule(bottom as int, node as int);
        }
    }
    if node - bottom < GRANULARITY {
        let offset: usize = node - bottom;
        let size: usize = list.arena.read(node) + offset;
        make_hole(list, bottom, size)
    } else {
        node
    }
}

/// Behind a hole that ends below the top of the arena, with a granule at
/// least behind it, there is room for a hole.
proof fn lemma_room_behind(node: int, size: int, top: int)
    requires
        node >= 0,
        size >= 0,
        (node + size) % 8 == 0,
        node + size == top || node + size + 16 <= top,
        node + size < top,
    ensures
        align_up_spec(node + size, 8) == node + size,
        node + size + 16 <= top,
{
    assert((node + size) % 8 == 0);
    lemma_align_up(node + size, 8);
}

/// Two addresses that are one or a granule apart, and less than a granule
/// apart, are one.
proof fn lemma_same_granule(a: int, b: int)
    requires
        a == b || a + 16 <= b,
    ensures
        b - a < 16 ==> a == b,
{
}

/// Holes that are ordered with leave to touch from `lo` to `hi` are ordered
/// with leave to touch from `lo2` to `hi2`, where no index from 0 on lies
/// in the first range and not in the second.
proof fn lemma_window(
    s: Seq<HoleInfo>,
    bottom: int,
    top: int,
    lo: int,
    hi: int,
    lo2: int,
    hi2: int,
)
    requires
        holes_wf(s, bottom, top, lo, hi),
        lo2 <= lo || lo2 <= 0,
        hi <= hi2,
    ensures
        holes_wf(s, bottom, top, lo2, hi2),
{
    reveal(holes_wf);
}

/// Frees the range of `size` bytes at `addr`: records it as a hole, walks
/// the list to the place of the hole in address order, links it in there
/// and merges it with the holes that it touches.
fn deallocate(list: &mut HoleList, addr: usize, size: usize)
    requires
        old(list).core_inv(0, 0),
        old(list).vacant(HoleInfo { addr, size }),
    ensures
        final(list).core_inv(0, 0),
        final(list).holes@ == holes_after_free(old(list).holes@, HoleInfo { addr, size }),
        final(list).used@ == old(list).used@,
        final(list).same_scalars(old(list)),
        hole_bytes(final(list).holes@) == hole_bytes(old(list).holes@) + size,
{
    let ghost b = HoleInfo { addr, size };
    let ghost s = list.holes@;
    let ghost u = list.used@;
    let ghost bot = list.bottom as int;
    let ghost top = list.top as int;
    proof {
        list.lemma_hole_contained(b);
    }
    // The block becomes a hole where it stands; it is merged with its
    // neighbours once its place in the list is found.
    let hole: usize = make_hole(list, addr, size);
    proof {
        assert(list.changed_at(old(list), addr as int, addr + size, 0));
        HoleList::lemma_holes_kept(*old(list), *list, s, addr as int, addr + size);
        HoleList::lemma_used_kept(*old(list), *list, u, addr as int, addr + size, 0, 0, 0);
    }
    let ghost mid = *list;
    // A cursor exists only where the list holds a hole
    let cursor = match list.first_cursor() {
        Some(cursor) => cursor,
        None => {
            // The list holds no hole: this one becomes the only hole, and
            // is stretched to the bottom or the top where it lies against
            // one.
            let bottom: usize = list.bottom;
            let top: usize = list.top;
            let hole: usize = check_merge_bottom(list, hole, bottom);
            check_merge_top(list, hole, top);
            list.set_next(0, Some(hole));
            proof {
                list.holes@ = s.insert(0, b);
                assert(list.insert_from(&mid, 0, b));
                lemma_insert_pure(s, u, 0, b, bot, top as int);
                HoleList::lemma_insert_stored(mid, *list, 0, b);
                assert(!mid.arena.contains(8));
                HoleList::lemma_used_kept(mid, *list, u, b.addr as int, b.addr + b.size, 8, 0, 0);
                lemma_window(s.insert(0, b), bot, top as int, -1, 1, 0, 1);
                lemma_done_pure(s.insert(0, b), 0, 1, bot, top as int);
                lemma_merge_steps(s, b, 0);
                reveal_with_fuel(merge_n, 2);
            }
            return;
        },
    };
    // Try the hole before the first one. Where that succeeds the cursor
    // stands on the new hole; else it stays on the first hole of the list.
    let bottom: usize = list.bottom;
    match cursor.try_insert_back(list, hole, bottom, Ghost(b)) {
        Ok(cursor) => {
            // The hole lies before every other: only the hole behind it
            // can touch it.
            proof {
                lemma_merge_steps(s, b, 0);
            }
            cursor.try_merge_next_n(list, 1);
        },
        Err(cursor) => {
            // The hole lies behind the first: walk to the hole before its
            // place.
            let mut cursor = cursor;
            loop
                invariant_except_break
                    *list == mid,
                    s == mid.holes@,
                    u == mid.used@,
                    list.core_inv(0, 0),
                    list.pending(b),
                    hole == b.addr,
                    cursor.at(list, cursor.index()),
                    list.holes@[cursor.index()].addr < b.addr,
                ensures
                    0 <= cursor.index() < s.len(),
                    insert_index(s, b.addr as int) == cursor.index() + 1,
                    list.holes@ == s.insert(cursor.index() + 1, b),
                    list.core_inv(cursor.index(), cursor.index() + 2),
                    cursor.at(list, cursor.index()),
                    hole_bytes(list.holes@) == hole_bytes(s) + b.size,
                    list.same_scalars(&mid),
                    list.used@ == u,
                decreases list.holes@.len() - cursor.index(),
            {
                match cursor.try_insert_after(list, hole, Ghost(b)) {
                    Ok(_) => {
                        break ;
                    },
                    Err(_) => {
                        cursor = match cursor.next(list, Ghost(0), Ghost(0)) {
                            Some(c) => c,
                            None => cursor,
                        };
                    },
                }
            }
            // The cursor stands on the hole before the new one: merge up
            // to twice, the hole before with the new one, and the new one
            // with the hole behind it.
            proof {
                lemma_merge_steps(s, b, cursor.index() + 1);
            }
            cursor.try_merge_next_n(list, 2);
        },
    }
}

} // verus!
