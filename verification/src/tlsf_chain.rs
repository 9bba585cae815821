//! Neighbouring free blocks of the two-level segregated fit allocator are
//! merged: of two blocks that lie side by side one at least is in use.
//! Every change that the allocator makes to its chain of blocks keeps it
//! that way.

use vstd::prelude::*;
use crate::tlsf::{can_grow, chain_after_alloc, chain_after_free, chain_after_grow, chain_merged, free_blk, Blk};

verus! {

/// Of the block at index `i` and the block behind it one at least is in
/// use.
pub open spec fn not_both_free(b: Seq<Blk>, i: int) -> bool {
    b[i].used || b[i + 1].used
}

/// No two neighbouring blocks are both free.
pub open spec fn coalesced(b: Seq<Blk>) -> bool {
    forall|i: int| 0 <= i && i + 1 < b.len() ==> #[trigger] not_both_free(b, i)
}

/// No two neighbouring blocks are both free, but for the block at index
/// `i` and the blocks beside it.
pub open spec fn coalesced_but(b: Seq<Blk>, i: int) -> bool {
    forall|j: int| 0 <= j && j + 1 < b.len() && j != i && j + 1 != i ==> #[trigger] not_both_free(b, j)
}

/// A chain without blocks, or with one block, has no neighbours.
pub proof fn lemma_short_chain(b: Seq<Blk>)
    requires
        b.len() <= 1,
    ensures
        coalesced(b),
{
}

/// Putting a block to use, with what is left of it as a free block behind
/// it, leaves no two free neighbours, where there were none apart from the
/// block itself and the block behind it is in use.
pub proof fn lemma_alloc_coalesced_at(b: Seq<Blk>, i: int, taken: int, payload: int, align: int)
    requires
        0 <= i < b.len(),
        coalesced_but(b, i),
        i + 1 < b.len() ==> b[i + 1].used,
    ensures
        coalesced(chain_after_alloc(b, i, taken, payload, align)),
{
    let c = chain_after_alloc(b, i, taken, payload, align);
    assert forall|j: int| 0 <= j && j + 1 < c.len() implies #[trigger] not_both_free(c, j) by {
        if taken == b[i].size {
            if j != i && j + 1 != i {
                assert(not_both_free(b, j));
            }
        } else {
            if j + 1 < i {
                assert(not_both_free(b, j));
            } else if j > i + 1 {
                assert(not_both_free(b, j - 1));
            }
        }
    }
}

/// An allocation leaves no two free neighbours where there were none.
pub proof fn lemma_alloc_coalesced(b: Seq<Blk>, i: int, taken: int, payload: int, align: int)
    requires
        0 <= i < b.len(),
        !b[i].used,
        coalesced(b),
    ensures
        coalesced(chain_after_alloc(b, i, taken, payload, align)),
{
    if i + 1 < b.len() {
        assert(not_both_free(b, i));
    }
    lemma_alloc_coalesced_at(b, i, taken, payload, align);
}

/// Freeing a block leaves no two free neighbours where there were none:
/// the block is merged with its free neighbours, and theirs are in use.
pub proof fn lemma_free_coalesced(b: Seq<Blk>, i: int)
    requires
        0 <= i < b.len(),
        b[i].used,
        coalesced(b),
    ensures
        coalesced(chain_after_free(b, i)),
{
    let c = chain_after_free(b, i);
    let next_free = i + 1 < b.len() && !b[i + 1].used;
    let prev_free = i > 0 && !b[i - 1].used;
    assert forall|j: int| 0 <= j && j + 1 < c.len() implies #[trigger] not_both_free(c, j) by {
        if next_free && prev_free {
            // the three blocks are one, at index i - 1
            if j + 1 < i - 1 {
                assert(not_both_free(b, j));
            } else if j + 1 == i - 1 {
                assert(not_both_free(b, j));
            } else if j == i - 1 {
                assert(not_both_free(b, i + 1));
            } else {
                assert(not_both_free(b, j + 2));
            }
        } else if next_free {
            // the block and the one behind it are one, at index i
            if j + 1 < i {
                assert(not_both_free(b, j));
            } else if j == i {
                assert(not_both_free(b, i + 1));
            } else if j > i {
                assert(not_both_free(b, j + 1));
            }
        } else if prev_free {
            // the block and the one before it are one, at index i - 1
            if j + 1 < i {
                assert(not_both_free(b, j));
            } else {
                assert(not_both_free(b, j + 1));
            }
        } else {
            if j != i && j + 1 != i {
                assert(not_both_free(b, j));
            }
        }
    }
}

/// A block that grows where it is leaves no two free neighbours where
/// there were none.
pub proof fn lemma_grow_coalesced(b: Seq<Blk>, i: int, need: int)
    requires
        0 <= i < b.len(),
        b[i].used,
        can_grow(b, i, need),
        coalesced(b),
    ensures
        coalesced(chain_after_grow(b, i, need)),
{
    let m = chain_merged(b.update(i, free_blk(b, i)), i);
    assert forall|j: int| 0 <= j && j + 1 < m.len() && j != i && j + 1 != i implies #[trigger] not_both_free(
        m,
        j,
    ) by {
        if j + 1 < i {
            assert(not_both_free(b, j));
        } else {
            assert(not_both_free(b, j + 1));
        }
    }
    if i + 1 < m.len() {
        assert(not_both_free(b, i + 1));
    }
    lemma_alloc_coalesced_at(m, i, need, b[i].payload as int, b[i].align as int);
}

} // verus!
