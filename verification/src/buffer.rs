//! The memory that backs a heap, as a row of blocks.
//!
//! A buffer of `N` bytes is tiled by blocks: a header of four bytes, then
//! the payload whose size the header holds, then the next header, up to the
//! end of the buffer. Offsets of headers are handed out as
//! [`ValidatedOffset`]s by walking the blocks; they are the only way to
//! name a block.

use vstd::prelude::*;
use vstd::slice::slice_subrange;
use crate::entry::{Entry, State, MAX_ENTRY_SIZE};

verus! {

/// The size of a single block header.
pub const HEADER_SIZE: usize = 4;

/// An offset into the [`Buffer`] at which a block header lies.
#[derive(Clone, Copy, Debug, PartialEq, Eq)]
pub struct ValidatedOffset(usize);

/// The buffer memory backing the heap.
pub struct Buffer<const N: usize> {
    bytes: Vec<u8>,
}

/// An iterator over the blocks of a [`Buffer`], which yields the offsets of
/// their headers.
pub struct EntryIter<'buffer, const N: usize> {
    /// The memory to iterate over.
    buffer: &'buffer Buffer<N>,
    /// The current offset into the buffer.
    offset: usize,
}

/// The header that the bytes hold at `off`.
pub open spec fn entry_at(bytes: Seq<u8>, off: int) -> Entry {
    Entry::decode(bytes[off], bytes[off + 1], bytes[off + 2], bytes[off + 3])
}

/// The offset of the header behind the block at `off`.
pub open spec fn next_offset(bytes: Seq<u8>, off: int) -> int {
    off + 4 + entry_at(bytes, off).spec_size()
}

/// Stepping from header to header, starting at `from`, lands on `target`.
pub open spec fn walks(bytes: Seq<u8>, from: int, target: int) -> bool
    decreases target - from,
{
    if from == target {
        true
    } else if from < 0 || from > target || from + 4 > bytes.len() {
        false
    } else if next_offset(bytes, from) <= from || next_offset(bytes, from) > target {
        false
    } else {
        walks(bytes, next_offset(bytes, from), target)
    }
}

/// The first four bytes are 0: the buffer was made and not used yet.
pub open spec fn blank(bytes: Seq<u8>) -> bool {
    bytes.len() >= 4 && bytes[0] == 0 && bytes[1] == 0 && bytes[2] == 0 && bytes[3] == 0
}

/// The bytes with the header `e` at `off`.
pub open spec fn with_entry(bytes: Seq<u8>, off: int, e: Entry) -> Seq<u8> {
    bytes.update(off, e.encode()[0]).update(off + 1, e.encode()[1]).update(off + 2, e.encode()[2]).update(
        off + 3,
        e.encode()[3],
    )
}

/// The next offset lies behind the header.
pub proof fn lemma_next_offset(bytes: Seq<u8>, off: int)
    ensures
        next_offset(bytes, off) >= off + 4,
        (next_offset(bytes, off) - off) % 4 == 0,
{
    entry_at(bytes, off).lemma_size();
}

/// The header that was written at `off` is the header that is read there,
/// and the bytes beside it are as they were.
pub proof fn lemma_with_entry(bytes: Seq<u8>, off: int, e: Entry)
    requires
        0 <= off,
        off + 4 <= bytes.len(),
    ensures
        with_entry(bytes, off, e).len() == bytes.len(),
        entry_at(with_entry(bytes, off, e), off) == e,
        forall|i: int|
            0 <= i < bytes.len() && !(off <= i < off + 4) ==> with_entry(bytes, off, e)[i] == bytes[i],
{
    e.lemma_round_trip();
}

/// Two walks that meet make one walk.
pub proof fn lemma_walks_trans(bytes: Seq<u8>, a: int, b: int, c: int)
    requires
        walks(bytes, a, b),
        walks(bytes, b, c),
    ensures
        walks(bytes, a, c),
    decreases b - a,
{
    if a != b {
        lemma_walks_le(bytes, b, c);
        lemma_walks_trans(bytes, next_offset(bytes, a), b, c);
    }
}

/// A walk does not go back.
pub proof fn lemma_walks_le(bytes: Seq<u8>, a: int, b: int)
    requires
        walks(bytes, a, b),
    ensures
        a <= b,
{
}

/// A walk that passes an offset on its way goes on from there.
pub proof fn lemma_walks_split(bytes: Seq<u8>, a: int, b: int, c: int)
    requires
        walks(bytes, a, c),
        walks(bytes, a, b),
        b <= c,
    ensures
        walks(bytes, b, c),
    decreases b - a,
{
    if a != b {
        lemma_walks_split(bytes, next_offset(bytes, a), b, c);
    }
}

/// A walk sees the bytes between its start and its target only.
pub proof fn lemma_walks_frame(x: Seq<u8>, y: Seq<u8>, a: int, c: int)
    requires
        x.len() == y.len(),
        forall|i: int| a <= i < c && 0 <= i < x.len() ==> x[i] == y[i],
        walks(x, a, c),
    ensures
        walks(y, a, c),
    decreases c - a,
{
    if a != c {
        lemma_next_offset(x, a);
        lemma_next_offset(y, a);
        assert(a + 4 <= c);
        assert(entry_at(x, a) == entry_at(y, a));
        lemma_walks_frame(x, y, next_offset(x, a), c);
    }
}

impl ValidatedOffset {
    /// The offset in bytes.
    pub closed spec fn spec_value(&self) -> usize {
        self.0
    }

    /// The offset in bytes.
    pub fn value(&self) -> (r: usize)
        ensures
            r == self.spec_value(),
    {
        self.0
    }
}

impl<const N: usize> Buffer<N> {
    /// The bytes of the buffer.
    pub closed spec fn view(&self) -> Seq<u8> {
        self.bytes@
    }

    /// The buffer has `N` bytes in words of four, and is blank or tiled by
    /// blocks.
    pub open spec fn wf(&self) -> bool {
        &&& self@.len() == N
        &&& N >= 4
        &&& N % 4 == 0
        &&& N - 4 <= MAX_ENTRY_SIZE
        &&& blank(self@) || walks(self@, 0, N as int)
    }

    /// The buffer is tiled by blocks: the walk from header to header that
    /// starts at offset 0 lands on offset `N`.
    pub open spec fn tiled(&self) -> bool {
        &&& self.wf()
        &&& walks(self@, 0, N as int)
    }

    /// `offset` is the offset of a block of the buffer: the walk from
    /// header to header passes it.
    pub open spec fn is_entry(&self, offset: ValidatedOffset) -> bool {
        &&& walks(self@, 0, offset.spec_value() as int)
        &&& offset.spec_value() + 4 <= N
    }

    /// The header of the block at `offset`.
    pub open spec fn entry(&self, offset: ValidatedOffset) -> Entry {
        entry_at(self@, offset.spec_value() as int)
    }

    /// The block at an offset of a tiled buffer lies in the buffer, and the
    /// walk goes on from it to the end of the buffer.
    pub proof fn lemma_entry(&self, offset: ValidatedOffset)
        requires
            self.tiled(),
            self.is_entry(offset),
        ensures
            walks(self@, offset.spec_value() as int, N as int),
            walks(self@, next_offset(self@, offset.spec_value() as int), N as int),
            offset.spec_value() % 4 == 0,
            next_offset(self@, offset.spec_value() as int) <= N,
            next_offset(self@, offset.spec_value() as int) % 4 == 0,
            walks(self@, 0, next_offset(self@, offset.spec_value() as int)),
    {
        let off = offset.spec_value() as int;
        lemma_walks_split(self@, 0, off, N as int);
        lemma_next_offset(self@, off);
        lemma_walks_le(self@, next_offset(self@, off), N as int);
        lemma_walks_aligned(self@, 0, off);
        assert(walks(self@, off, next_offset(self@, off))) by {
            assert(walks(self@, next_offset(self@, off), next_offset(self@, off)));
        }
        lemma_walks_trans(self@, 0, off, next_offset(self@, off));
    }

    /// Bytes written to the payload of a block leave the buffer tiled:
    /// bytes that differ from the bytes of a tiled buffer in the payload of
    /// one block only are tiled by the same blocks.
    pub proof fn lemma_payload_keeps_tiling(&self, after: Seq<u8>, offset: ValidatedOffset)
        requires
            self.tiled(),
            self.is_entry(offset),
            after.len() == N,
            forall|i: int|
                0 <= i < N && !(offset.spec_value() + 4 <= i < next_offset(
                    self@,
                    offset.spec_value() as int,
                )) ==> after[i] == self@[i],
        ensures
            walks(after, 0, N as int),
            walks(after, 0, offset.spec_value() as int),
            entry_at(after, offset.spec_value() as int) == self.entry(offset),
    {
        let off = offset.spec_value() as int;
        let next = next_offset(self@, off);
        self.lemma_entry(offset);
        lemma_next_offset(self@, off);
        lemma_walks_frame(self@, after, 0, off);
        lemma_walks_frame(self@, after, next, N as int);
        assert(entry_at(after, off) == entry_at(self@, off));
        assert(walks(after, off, next)) by {
            assert(walks(after, next, next));
        }
        lemma_walks_trans(after, off, next, N as int);
        lemma_walks_trans(after, 0, off, N as int);
    }

    /// Create a new buffer.
    ///
    /// The first four bytes are zero; nothing is said of the others. The
    /// first use of the buffer makes these four bytes the header of a free
    /// block that spans the buffer: see [`Self::ensure_initialization`].
    pub fn new() -> (b: Self)
        requires
            N >= 4,
            N % 4 == 0,
            N - 4 <= MAX_ENTRY_SIZE,
        ensures
            b.wf(),
            blank(b@),
    {
        let mut bytes: Vec<u8> = Vec::new();
        let mut i: usize = 0;
        while i < N
            invariant
                i <= N,
                bytes@.len() == i,
                forall|j: int| 0 <= j < i ==> bytes@[j] == 0,
            decreases N - i,
        {
            bytes.push(0);
            i += 1;
        }
        Buffer { bytes }
    }

    /// Ensure, that the buffer is initialized: where its first four bytes
    /// are still zero, they become the header of a free block of `N - 4`
    /// bytes. A buffer that was initialized stays as it is.
    pub fn ensure_initialization(&mut self)
        requires
            old(self).wf(),
        ensures
            final(self).tiled(),
            final(self)@ == if blank(old(self)@) {
                with_entry(old(self)@, 0, Entry::decode(0, 0, 0, 0).with_size((N - 4) as int))
            } else {
                old(self)@
            },
            blank(old(self)@) ==> entry_at(final(self)@, 0).spec_state() == State::Free && entry_at(
                final(self)@,
                0,
            ).spec_size() == N - 4,
    {
        let not_yet_initialized = self.bytes[0] == 0 && self.bytes[1] == 0 && self.bytes[2] == 0
            && self.bytes[3] == 0;
        if not_yet_initialized {
            let remaining_size = N - HEADER_SIZE;
            let initial_entry = Entry::free(remaining_size);
            proof {
                Entry::lemma_zero();
                Entry::lemma_free_is(initial_entry, remaining_size as int);
            }
            self.set_at(0, initial_entry);
            proof {
                lemma_with_entry(old(self)@, 0, initial_entry);
                assert(walks(self@, N as int, N as int));
            }
        }
    }

    /// The header at `offset`.
    fn at(&self, offset: usize) -> (e: Entry)
        requires
            self@.len() == N,
            offset + 4 <= N,
        ensures
            e == entry_at(self@, offset as int),
    {
        Entry::from_raw(
            self.bytes[offset],
            self.bytes[offset + 1],
            self.bytes[offset + 2],
            self.bytes[offset + 3],
        )
    }

    /// Writes the header `e` at `offset`.
    fn set_at(&mut self, offset: usize, e: Entry)
        requires
            old(self)@.len() == N,
            offset + 4 <= N,
        ensures
            final(self)@ == with_entry(old(self)@, offset as int, e),
            final(self)@.len() == N,
    {
        let raw = e.as_raw();
        self.bytes[offset] = raw[0];
        self.bytes[offset + 1] = raw[1];
        self.bytes[offset + 2] = raw[2];
        self.bytes[offset + 3] = raw[3];
    }

    /// The header of the block at `offset`.
    pub fn get(&self, offset: ValidatedOffset) -> (e: Entry)
        requires
            self.wf(),
            self.is_entry(offset),
        ensures
            e == self.entry(offset),
    {
        self.at(offset.0)
    }

    /// Iterate over all entries and obtain the [`ValidatedOffset`]s.
    pub fn entries(&self) -> (it: EntryIter<'_, N>)
        requires
            self.tiled(),
        ensures
            it.wf(),
            it.spec_buffer() == self,
            it.spec_offset() == 0,
    {
        EntryIter::new(self)
    }

    /// Request the memory of an entry at a [`ValidatedOffset`]: the bytes
    /// of its payload.
    pub fn memory_of(&self, offset: ValidatedOffset) -> (m: &[u8])
        requires
            self.tiled(),
            self.is_entry(offset),
        ensures
            m@ == self@.subrange(
                offset.spec_value() + 4,
                next_offset(self@, offset.spec_value() as int),
            ),
    {
        proof {
            self.lemma_entry(offset);
        }
        let size = self.at(offset.0).size();
        let start = offset.0 + HEADER_SIZE;
        slice_subrange(self.bytes.as_slice(), start, start + size)
    }

    /// Request the mutable memory of an entry at a [`ValidatedOffset`]: the
    /// bytes of its payload. The bytes of the buffer beside the payload
    /// stay as they are.
    pub fn memory_of_mut(&mut self, offset: ValidatedOffset) -> (m: &mut [u8])
        requires
            old(self).tiled(),
            old(self).is_entry(offset),
        ensures
            m@ == old(self)@.subrange(
                offset.spec_value() + 4,
                next_offset(old(self)@, offset.spec_value() as int),
            ),
            final(m)@.len() == m@.len() ==> final(self)@ == old(self)@.subrange(
                0,
                offset.spec_value() + 4,
            ) + final(m)@ + old(self)@.subrange(
                next_offset(old(self)@, offset.spec_value() as int),
                N as int,
            ),
    {
        proof {
            self.lemma_entry(offset);
        }
        let size = self.at(offset.0).size();
        let start = offset.0 + HEADER_SIZE;
        let whole = self.bytes.as_mut_slice();
        let (_, rest) = whole.split_at_mut(start);
        let (m, _) = rest.split_at_mut(size);
        m
    }

    /// Query the following free entry, if there is such an entry: the
    /// header of the block behind the block at `offset`, where that block
    /// is free and is a block that the iterator yields.
    pub fn following_free_entry(&self, offset: ValidatedOffset) -> (r: Option<Entry>)
        requires
            self.tiled(),
            self.is_entry(offset),
        ensures
            r == ({
                let next = next_offset(self@, offset.spec_value() as int);
                if offset.spec_value() + 4 < N && next + 4 < N && entry_at(self@, next).spec_state()
                    == State::Free {
                    Some(entry_at(self@, next))
                } else {
                    None
                }
            }),
    {
        proof {
            self.lemma_entry(offset);
        }
        if offset.0 + HEADER_SIZE >= N {
            return None;
        }
        let next = offset.0 + self.at(offset.0).size() + HEADER_SIZE;
        if N - next <= HEADER_SIZE {
            return None;
        }
        let entry = self.at(next);
        match entry.state() {
            State::Free => Some(entry),
            State::Used => None,
        }
    }

    /// The bytes after the free block at `off` was marked as used with
    /// `size` bytes: where the block is larger than `size` by a header and
    /// a word of payload at least, it is split, and what is left behind
    /// the used block is a free block; else the used block keeps all of
    /// the bytes.
    pub open spec fn marked(bytes: Seq<u8>, off: int, size: int) -> Seq<u8> {
        let old_size = entry_at(bytes, off).spec_size();
        let free = Entry::decode(0, 0, 0, 0);
        if old_size - size >= 8 {
            with_entry(
                with_entry(bytes, off, free.with_size(size).as_used()),
                off + 4 + size,
                free.with_size(old_size - size - 4),
            )
        } else {
            with_entry(bytes, off, free.with_size(old_size).as_used())
        }
    }

    /// Mark the given `Entry` as used and try to split it up.
    ///
    /// The block at `offset`, which is free and holds `size` bytes at
    /// least, becomes a used block. Where it is large enough, it is split
    /// into the used block of `size` bytes and a free block that holds
    /// what is left but the header. Where it is not, the used block keeps
    /// its size. Offsets of blocks stay offsets of blocks.
    pub fn mark_as_used(&mut self, offset: ValidatedOffset, size: usize)
        requires
            old(self).tiled(),
            old(self).is_entry(offset),
            old(self).entry(offset).spec_state() == State::Free,
            old(self).entry(offset).spec_size() >= size,
            size % 4 == 0,
        ensures
            final(self).tiled(),
            final(self)@ == Self::marked(old(self)@, offset.spec_value() as int, size as int),
            final(self).entry(offset).spec_state() == State::Used,
            final(self).entry(offset).spec_size() == if old(self).entry(offset).spec_size() - size
                >= 8 {
                size as int
            } else {
                old(self).entry(offset).spec_size()
            },
            forall|o: ValidatedOffset| old(self).is_entry(o) ==> #[trigger] final(self).is_entry(o),
    {
        let ghost before = self@;
        let ghost off = offset.spec_value() as int;
        proof {
            self.lemma_entry(offset);
            Entry::lemma_zero();
        }
        let old_size = self.at(offset.0).size();
        let ghost next = off + 4 + old_size;
        if old_size - size >= HEADER_SIZE + 4 {
            let remaining_size = old_size - size - HEADER_SIZE;
            let used = Entry::used(size);
            let free = Entry::free(remaining_size);
            proof {
                Entry::lemma_used_is(used, size as int);
                Entry::lemma_free_is(free, remaining_size as int);
            }
            self.set_at(offset.0, used);
            let ghost mid = self@;
            self.set_at(offset.0 + size + HEADER_SIZE, free);
            proof {
                lemma_with_entry(before, off, used);
                lemma_with_entry(mid, off + 4 + size, free);
                assert(entry_at(self@, off) == used);
                assert(entry_at(self@, off + 4 + size) == free);
                assert(walks(self@, next, next));
                assert(walks(self@, off + 4 + size, next));
                assert(walks(self@, off, next));
            }
        } else {
            let used = Entry::used(old_size);
            proof {
                Entry::lemma_used_is(used, old_size as int);
            }
            self.set_at(offset.0, used);
            proof {
                lemma_with_entry(before, off, used);
                assert(entry_at(self@, off) == used);
                assert(walks(self@, next, next));
                assert(walks(self@, off, next));
            }
        }
        proof {
            lemma_walks_frame(before, self@, 0, off);
            lemma_walks_frame(before, self@, next, N as int);
            lemma_walks_trans(self@, off, next, N as int);
            lemma_walks_trans(self@, 0, off, N as int);
            assert forall|o: ValidatedOffset| old(self).is_entry(o) implies #[trigger] self.is_entry(
                o,
            ) by {
                let t = o.spec_value() as int;
                if t <= off {
                    lemma_walks_frame(before, self@, 0, t);
                } else {
                    lemma_walks_split(before, 0, off, t);
                    lemma_walks_frame(before, self@, next, t);
                    lemma_walks_trans(self@, off, next, t);
                    lemma_walks_trans(self@, 0, off, t);
                }
            }
        }
    }
}

/// A walk from an offset that is a multiple of 4 lands on multiples of 4.
pub proof fn lemma_walks_aligned(bytes: Seq<u8>, a: int, b: int)
    requires
        walks(bytes, a, b),
        a % 4 == 0,
    ensures
        b % 4 == 0,
    decreases b - a,
{
    if a != b {
        lemma_next_offset(bytes, a);
        lemma_walks_aligned(bytes, next_offset(bytes, a), b);
    }
}

impl<'buffer, const N: usize> EntryIter<'buffer, N> {
    /// The buffer that the iterator walks.
    pub closed spec fn spec_buffer(&self) -> &Buffer<N> {
        self.buffer
    }

    /// The offset that the iterator stands at.
    pub closed spec fn spec_offset(&self) -> usize {
        self.offset
    }

    /// The iterator stands at the offset of a block, or at the end of the
    /// buffer.
    pub open spec fn wf(&self) -> bool {
        &&& self.spec_buffer().tiled()
        &&& walks(self.spec_buffer()@, 0, self.spec_offset() as int)
        &&& self.spec_offset() <= N
    }

    /// Create an entry iterator over the given [`Buffer`].
    fn new(buffer: &'buffer Buffer<N>) -> (it: Self)
        requires
            buffer.tiled(),
        ensures
            it.wf(),
            it.spec_buffer() == buffer,
            it.spec_offset() == 0,
    {
        Self { buffer, offset: 0 }
    }

    /// Yields the offset that the iterator stands at and steps to the next
    /// block, while a header and a byte more lie before the end of the
    /// buffer.
    pub fn next(&mut self) -> (r: Option<ValidatedOffset>)
        requires
            old(self).wf(),
        ensures
            final(self).wf(),
            final(self).spec_buffer() == old(self).spec_buffer(),
            if old(self).spec_offset() + 4 < N {
                &&& r matches Some(o)
                &&& o.spec_value() == old(self).spec_offset()
                &&& old(self).spec_buffer().is_entry(o)
                &&& final(self).spec_offset() == next_offset(
                    old(self).spec_buffer()@,
                    old(self).spec_offset() as int,
                )
            } else {
                &&& r is None
                &&& final(self).spec_offset() == old(self).spec_offset()
            },
    {
        if N - self.offset > HEADER_SIZE {
            let offset = self.offset;
            proof {
                self.buffer.lemma_entry(ValidatedOffset(offset));
            }
            let entry = self.buffer.at(offset);
            self.offset = self.offset + entry.size() + HEADER_SIZE;
            Some(ValidatedOffset(offset))
        } else {
            None
        }
    }
}

} // verus!
