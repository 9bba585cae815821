//! The kernel heap: a two-level segregated fit allocator behind the calls
//! that the kernel makes.

use vstd::prelude::*;
use crate::layout::Layout;
use crate::support::{align_down_spec, align_up_spec, lemma_align_down, lemma_align_up};
use crate::tlsf::{chain_after_alloc, needed_size, payload_at, Blk, Tlsf};
use crate::tlsf_chain::{coalesced, lemma_alloc_coalesced, lemma_free_coalesced, lemma_short_chain};

verus! {

/// How much memory a heap holds and how much of it is in use.
#[derive(Clone, Copy, Debug, PartialEq, Eq)]
pub struct MemoryInfo {
    pub total: usize,
    pub used: usize,
    pub max_used: usize,
}

/// A two-level segregated fit heap.
pub struct Heap {
    heap: Tlsf,
}

impl Heap {
    /// The allocator of the heap.
    pub closed spec fn tlsf(&self) -> Tlsf {
        self.heap
    }

    /// The allocator of the heap is consistent, and no two free blocks of
    /// it lie side by side.
    pub open spec fn wf(&self) -> bool {
        &&& self.tlsf().wf()
        &&& coalesced(self.tlsf().blocks())
    }

    /// The used block with payload `p` of `before` is a used block of this
    /// heap, with the same payload.
    pub open spec fn keeps(&self, before: &Heap, p: usize) -> bool {
        &&& self.tlsf().is_payload(p)
        &&& self.tlsf().blocks()[self.tlsf().payload_index(p)] == before.tlsf().blocks()[before.tlsf().payload_index(
            p,
        )]
    }

    /// Create a new heap allocator that has no memory yet.
    pub fn new() -> (h: Self)
        ensures
            h.wf(),
            h.tlsf().spec_total() == 0,
            h.tlsf().spec_allocated() == 0,
            h.tlsf().spec_maximum() == 0,
    {
        let heap = Tlsf::new();
        proof {
            lemma_short_chain(heap.blocks());
        }
        Heap { heap }
    }

    /// Initializes the heap with the memory of `size` bytes at
    /// `start_addr`.
    pub fn init(&mut self, start_addr: usize, size: usize)
        requires
            old(self).wf(),
            old(self).tlsf().spec_total() == 0,
            Tlsf::pool_ok(start_addr as int, size as int),
        ensures
            final(self).wf(),
            final(self).tlsf().spec_start() == align_up_spec(start_addr as int, 32),
            final(self).tlsf().spec_total() == align_down_spec(
                start_addr + size - final(self).tlsf().spec_start(),
                32,
            ),
            final(self).tlsf().blocks() == seq![
                Blk {
                    addr: final(self).tlsf().spec_start(),
                    size: final(self).tlsf().spec_total() as usize,
                    used: false,
                    payload: 0,
                    align: 0,
                },
            ],
            final(self).tlsf().spec_allocated() == 0,
            final(self).tlsf().spec_maximum() == old(self).tlsf().spec_maximum(),
            0 < final(self).tlsf().spec_total() <= size,
    {
        self.heap.insert_free_block_ptr(start_addr, size);
        proof {
            lemma_short_chain(self.heap.blocks());
            lemma_align_down(start_addr + size - self.heap.spec_start(), 32);
            lemma_align_up(start_addr as int, 32);
        }
    }

    /// Try to allocate memory with the given layout.
    pub fn allocate(&mut self, layout: Layout) -> (r: Option<usize>)
        requires
            old(self).wf(),
        ensures
            final(self).wf(),
            final(self).tlsf().spec_total() == old(self).tlsf().spec_total(),
            r is Some <==> old(self).tlsf().choice(layout.spec_size() as int, layout.spec_align() as int)
                is Some,
            match r {
                Some(ptr) => {
                    let i = old(self).tlsf().choice(
                        layout.spec_size() as int,
                        layout.spec_align() as int,
                    )->0;
                    let x = old(self).tlsf().blocks()[i];
                    let taken = needed_size(
                        x.addr as int,
                        layout.spec_size() as int,
                        layout.spec_align() as int,
                    );
                    &&& ptr == payload_at(x.addr as int, layout.spec_align() as int)
                    &&& ptr as int % layout.spec_align() as int == 0
                    &&& final(self).tlsf().blocks() == chain_after_alloc(
                        old(self).tlsf().blocks(),
                        i,
                        taken,
                        ptr as int,
                        layout.spec_align() as int,
                    )
                    &&& final(self).tlsf().spec_allocated() == old(self).tlsf().spec_allocated() + taken
                    &&& final(self).tlsf().spec_maximum() == if final(self).tlsf().spec_allocated()
                        > old(self).tlsf().spec_maximum() {
                        final(self).tlsf().spec_allocated()
                    } else {
                        old(self).tlsf().spec_maximum()
                    }
                    &&& 0 <= i < old(self).tlsf().blocks().len()
                    &&& !x.used
                    &&& taken <= x.size
                    &&& !old(self).tlsf().is_payload(ptr)
                    &&& final(self).tlsf().is_payload(ptr)
                    &&& final(self).tlsf().payload_index(ptr) == i
                    &&& final(self).tlsf().blocks()[i].align == layout.spec_align()
                },
                None => final(self).tlsf() == old(self).tlsf(),
            },
            forall|a: int| #[trigger]
                old(self).tlsf().in_payload(a) ==> final(self).tlsf().word(a) == old(self).tlsf().word(
                    a,
                ),
            forall|p: usize| old(self).tlsf().is_payload(p) ==> #[trigger] final(self).keeps(old(self), p),
    {
        let align = layout.align();
        let r = self.heap.allocate(&layout);
        proof {
            if r is Some {
                let i = old(self).tlsf().choice(
                    layout.spec_size() as int,
                    layout.spec_align() as int,
                )->0;
                old(self).tlsf().lemma_block_ok(i);
                crate::tlsf::lemma_needed_size(
                    old(self).tlsf().blocks()[i].addr as int,
                    layout.spec_size() as int,
                    align as int,
                );
                assert forall|p: usize| old(self).tlsf().is_payload(p) implies #[trigger] self.keeps(
                    old(self),
                    p,
                ) by {
                    let i = old(self).tlsf().choice(
                        layout.spec_size() as int,
                        layout.spec_align() as int,
                    )->0;
                    self.heap.lemma_alloc_keeps(
                        &old(self).tlsf(),
                        i,
                        needed_size(
                            old(self).tlsf().blocks()[i].addr as int,
                            layout.spec_size() as int,
                            layout.spec_align() as int,
                        ),
                        r->0 as int,
                        layout.spec_align() as int,
                        p,
                    );
                }
                let i = old(self).tlsf().choice(
                    layout.spec_size() as int,
                    layout.spec_align() as int,
                )->0;
                assert(self.heap.blocks()[i].used);
                self.heap.lemma_payload_index(i);
                self.heap.lemma_payload_inside(i);
                old(self).tlsf().lemma_free_is_no_payload(i, r->0);
                lemma_alloc_coalesced(
                    old(self).tlsf().blocks(),
                    i,
                    needed_size(
                        old(self).tlsf().blocks()[i].addr as int,
                        layout.spec_size() as int,
                        layout.spec_align() as int,
                    ),
                    r->0 as int,
                    layout.spec_align() as int,
                );
            }
        }
        r
    }

    /// Deallocate the memory pointed by `ptr`, which was allocated with
    /// the given layout.
    pub fn dealloc(&mut self, ptr: usize, layout: Layout)
        requires
            old(self).wf(),
            old(self).tlsf().is_payload(ptr),
            (old(self).tlsf().blocks()[old(self).tlsf().payload_index(ptr)].align >= 32) == (
            layout.spec_align() >= 32),
        ensures
            final(self).wf(),
            final(self).tlsf().freed(&old(self).tlsf(), old(self).tlsf().payload_index(ptr)),
            forall|p: usize|
                old(self).tlsf().is_payload(p) && p != ptr ==> #[trigger] final(self).keeps(old(self), p),
    {
        self.heap.deallocate(ptr, layout.align());
        proof {
            assert forall|p: usize| old(self).tlsf().is_payload(p) && p != ptr implies #[trigger] self.keeps(
                old(self),
                p,
            ) by {
                self.heap.lemma_free_keeps(&old(self).tlsf(), old(self).tlsf().payload_index(ptr), p);
            }
            lemma_free_coalesced(old(self).tlsf().blocks(), old(self).tlsf().payload_index(ptr));
        }
    }

    /// Deallocate the memory pointed by `ptr`, whatever layout it was
    /// allocated with.
    pub fn deallocate_unknown_align(&mut self, ptr: usize)
        requires
            old(self).wf(),
            old(self).tlsf().is_payload(ptr),
        ensures
            final(self).wf(),
            final(self).tlsf().freed(&old(self).tlsf(), old(self).tlsf().payload_index(ptr)),
            forall|p: usize|
                old(self).tlsf().is_payload(p) && p != ptr ==> #[trigger] final(self).keeps(old(self), p),
    {
        self.heap.deallocate_unknown_align(ptr);
        proof {
            assert forall|p: usize| old(self).tlsf().is_payload(p) && p != ptr implies #[trigger] self.keeps(
                old(self),
                p,
            ) by {
                self.heap.lemma_free_keeps(&old(self).tlsf(), old(self).tlsf().payload_index(ptr), p);
            }
            lemma_free_coalesced(old(self).tlsf().blocks(), old(self).tlsf().payload_index(ptr));
        }
    }

    /// Reallocate the memory pointed by `ptr`, which was allocated with
    /// `layout`, to `new_size` bytes with the same alignment. Returns none,
    /// and changes nothing, where `new_size` and the alignment make no
    /// layout or no memory is to be had.
    pub fn realloc(&mut self, ptr: usize, layout: Layout, new_size: usize) -> (r: Option<usize>)
        requires
            old(self).wf(),
            old(self).tlsf().is_payload(ptr),
            (old(self).tlsf().blocks()[old(self).tlsf().payload_index(ptr)].align >= 32) == (
            layout.spec_align() >= 32),
        ensures
            final(self).wf(),
            final(self).tlsf().spec_total() == old(self).tlsf().spec_total(),
            if crate::layout::valid_layout(new_size as int, layout.spec_align() as int) {
                final(self).tlsf().resized(
                    &old(self).tlsf(),
                    old(self).tlsf().payload_index(ptr),
                    new_size as int,
                    layout.spec_align() as int,
                    r,
                )
            } else {
                r is None && final(self).tlsf() == old(self).tlsf()
            },
    {
        let new_layout = match Layout::from_size_align(new_size, layout.align()) {
            Ok(l) => l,
            Err(_) => {
                return None;
            },
        };
        let r = self.heap.reallocate(ptr, &new_layout);
        proof {
            self.heap.lemma_resized_coalesced(
                &old(self).tlsf(),
                old(self).tlsf().payload_index(ptr),
                new_size as int,
                layout.spec_align() as int,
                r,
            );
        }
        r
    }

    /// Reallocate the memory pointed by `ptr`, whatever layout it was
    /// allocated with, to `new_size` bytes.
    pub fn realloc_unknown_align(&mut self, ptr: usize, new_size: usize) -> (r: Option<usize>)
        requires
            old(self).wf(),
            old(self).tlsf().is_payload(ptr),
        ensures
            final(self).wf(),
            final(self).tlsf().spec_total() == old(self).tlsf().spec_total(),
            if crate::layout::valid_layout(new_size as int, 8) {
                final(self).tlsf().resized(
                    &old(self).tlsf(),
                    old(self).tlsf().payload_index(ptr),
                    new_size as int,
                    8,
                    r,
                )
            } else {
                r is None && final(self).tlsf() == old(self).tlsf()
            },
    {
        let r = self.heap.reallocate_unknown_align(ptr, new_size);
        proof {
            if crate::layout::valid_layout(new_size as int, 8) {
                self.heap.lemma_resized_coalesced(
                    &old(self).tlsf(),
                    old(self).tlsf().payload_index(ptr),
                    new_size as int,
                    8,
                    r,
                );
            }
        }
        r
    }

    /// Reads a word of the payload of a used block.
    pub fn read_word(&self, addr: usize) -> (v: usize)
        requires
            self.wf(),
            self.tlsf().in_payload(addr as int),
        ensures
            v == self.tlsf().word(addr as int),
    {
        self.heap.read_payload(addr)
    }

    /// Writes a word of the payload of a used block.
    pub fn write_word(&mut self, addr: usize, v: usize)
        requires
            old(self).wf(),
            old(self).tlsf().in_payload(addr as int),
        ensures
            final(self).wf(),
            final(self).tlsf().blocks() == old(self).tlsf().blocks(),
            final(self).tlsf().spec_allocated() == old(self).tlsf().spec_allocated(),
            final(self).tlsf().spec_total() == old(self).tlsf().spec_total(),
            final(self).tlsf().word(addr as int) == v,
            forall|a: int| #[trigger]
                old(self).tlsf().in_payload(a) && a != addr ==> final(self).tlsf().word(a) == old(
                    self,
                ).tlsf().word(a),
    {
        self.heap.write_payload(addr, v);
    }

    /// Retrieves various statistics about the current state of the
    /// heap's memory usage.
    pub fn memory_info(&self) -> (info: MemoryInfo)
        requires
            self.wf(),
        ensures
            info.total == self.tlsf().spec_total(),
            info.used == self.tlsf().spec_allocated(),
            info.max_used == self.tlsf().spec_maximum(),
            info.used <= info.max_used,
            info.max_used <= info.total,
    {
        proof {
            self.heap.lemma_counters();
        }
        MemoryInfo {
            total: self.heap.total(),
            used: self.heap.allocated(),
            max_used: self.heap.maximum(),
        }
    }
}

} // verus!
