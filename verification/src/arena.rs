//! A word-addressed view of the contiguous region that an allocator manages.
//!
//! The allocators keep their bookkeeping inside the memory they hand out.
//! An [`Arena`] stands for that memory: a run of machine words reached by
//! byte address, every access checked against the region's bounds.

use vstd::prelude::*;

verus! {

/// Bytes per arena word.
pub const WORD: usize = 8;

/// A region of words starting at byte address `base`.
pub struct Arena {
    base: usize,
    words: Vec<usize>,
}

impl Arena {
    /// Address of the first byte of the region.
    pub closed spec fn base(&self) -> int {
        self.base as int
    }

    /// Address one past the last byte of the region.
    pub closed spec fn limit(&self) -> int {
        self.base + 8 * self.words.len()
    }

    /// The region starts on a word boundary and ends within the address space.
    pub closed spec fn wf(&self) -> bool {
        &&& self.base % 8 == 0
        &&& self.base + 8 * self.words.len() <= usize::MAX
    }

    /// `addr` is the address of a word of the region.
    pub open spec fn contains(&self, addr: int) -> bool {
        &&& self.base() <= addr
        &&& addr + 8 <= self.limit()
        &&& addr % 8 == 0
    }

    /// The word stored at `addr`.
    pub closed spec fn at(&self, addr: int) -> usize {
        self.words@[(addr - self.base) / 8]
    }

    /// A zero-filled region of `len` bytes at `base`.
    pub fn new(base: usize, len: usize) -> (a: Arena)
        requires
            base % 8 == 0,
            len % 8 == 0,
            base + len <= usize::MAX,
        ensures
            a.wf(),
            a.base() == base,
            a.limit() == base + len,
            forall|addr: int| a.contains(addr) ==> a.at(addr) == 0,
    {
        let n: usize = len / 8;
        let mut words: Vec<usize> = Vec::new();
        let mut i: usize = 0;
        while i < n
            invariant
                i <= n,
                words.len() == i,
                forall|k: int| 0 <= k < i ==> words@[k] == 0,
            decreases n - i,
        {
            words.push(0);
            i += 1;
        }
        Arena { base, words }
    }

    /// Lowest address of the region.
    pub fn start(&self) -> (r: usize)
        ensures
            r == self.base(),
    {
        self.base
    }

    /// Size of the region in bytes.
    pub fn len(&self) -> (r: usize)
        requires
            self.wf(),
        ensures
            r == self.limit() - self.base(),
    {
        self.words.len() * 8
    }

    /// Tells whether `addr` names a word of the region.
    pub fn holds(&self, addr: usize) -> (r: bool)
        requires
            self.wf(),
        ensures
            r == self.contains(addr as int),
    {
        addr >= self.base && addr % 8 == 0 && (addr - self.base) / 8 < self.words.len()
    }

    /// Reads the word at `addr`.
    pub fn read(&self, addr: usize) -> (v: usize)
        requires
            self.wf(),
            self.contains(addr as int),
        ensures
            v == self.at(addr as int),
    {
        self.words[(addr - self.base) / 8]
    }

    /// Stores `v` in the word at `addr`; every other word keeps its value.
    pub fn write(&mut self, addr: usize, v: usize)
        requires
            old(self).wf(),
            old(self).contains(addr as int),
        ensures
            final(self).wf(),
            final(self).base() == old(self).base(),
            final(self).limit() == old(self).limit(),
            final(self).at(addr as int) == v,
            forall|a: int| old(self).contains(a) && a != addr ==> final(self).at(a) == old(self).at(a),
    {
        let i: usize = (addr - self.base) / 8;
        self.words[i] = v;
        proof {
            assert forall|a: int| old(self).contains(a) && a != addr implies final(self).at(a)
                == old(self).at(a) by {
                assert((a - self.base) / 8 != i as int);
            }
        }
    }

    /// Appends `by` zero bytes to the region; the words already there keep
    /// their addresses and values.
    pub fn grow(&mut self, by: usize)
        requires
            old(self).wf(),
            by % 8 == 0,
            old(self).limit() + by <= usize::MAX,
        ensures
            final(self).wf(),
            final(self).base() == old(self).base(),
            final(self).limit() == old(self).limit() + by,
            forall|a: int| old(self).contains(a) ==> final(self).at(a) == old(self).at(a),
            forall|a: int|
                final(self).contains(a) && !old(self).contains(a) ==> final(self).at(a) == 0,
    {
        let n: usize = by / 8;
        let mut i: usize = 0;
        while i < n
            invariant
                i <= n,
                n == by / 8,
                by % 8 == 0,
                self.base == old(self).base,
                self.base % 8 == 0,
                old(self).base + 8 * old(self).words.len() + by <= usize::MAX,
                self.words.len() == old(self).words.len() + i,
                forall|k: int| 0 <= k < old(self).words.len() ==> self.words@[k] == old(self).words@[k],
                forall|k: int| old(self).words.len() <= k < self.words.len() ==> self.words@[k] == 0,
            decreases n - i,
        {
            self.words.push(0);
            i += 1;
        }
    }
}

} // verus!
