//! The header of a block: four bytes that hold the state of the block and
//! the size of its payload.

use vstd::prelude::*;

verus! {

/// Whether a block is free or in use.
#[derive(Clone, Copy, Debug, PartialEq, Eq, Structural)]
pub enum State {
    Free,
    Used,
}

/// The header of a block. The size is the size of the payload in bytes,
/// without the header; it is a multiple of 4.
#[derive(Clone, Copy, Debug, PartialEq, Eq, Structural)]
pub struct Entry {
    /// The size, with the lowest bit set where the block is used.
    raw: u32,
}

/// The largest size that a header can hold.
pub const MAX_ENTRY_SIZE: usize = 0xffff_fffc;

/// The number that the four bytes stand for, lowest byte first.
pub open spec fn word_of(b0: u8, b1: u8, b2: u8, b3: u8) -> int {
    b0 + 256 * b1 + 65536 * b2 + 16777216 * b3
}

impl Entry {
    /// The state of the block.
    pub closed spec fn spec_state(&self) -> State {
        if self.raw % 2 == 1 {
            State::Used
        } else {
            State::Free
        }
    }

    /// The size of the payload.
    pub closed spec fn spec_size(&self) -> int {
        self.raw - self.raw % 4
    }

    /// The header is one that `free` or `used` makes.
    pub closed spec fn wf(&self) -> bool {
        self.raw % 4 <= 1
    }

    /// The header that the four bytes hold.
    pub closed spec fn decode(b0: u8, b1: u8, b2: u8, b3: u8) -> Entry {
        Entry { raw: word_of(b0, b1, b2, b3) as u32 }
    }

    /// The four bytes that hold the header.
    pub closed spec fn encode(&self) -> Seq<u8> {
        seq![
            (self.raw % 256) as u8,
            ((self.raw / 256) % 256) as u8,
            ((self.raw / 65536) % 256) as u8,
            ((self.raw / 16777216) % 256) as u8,
        ]
    }

    /// The size of a header is a multiple of 4 and fits in 32 bits.
    pub proof fn lemma_size(&self)
        ensures
            self.spec_size() % 4 == 0,
            0 <= self.spec_size() <= MAX_ENTRY_SIZE,
    {
    }

    /// Four bytes that are 0 hold the header of a free block of size 0.
    pub proof fn lemma_zero()
        ensures
            Self::decode(0, 0, 0, 0).spec_state() == State::Free,
            Self::decode(0, 0, 0, 0).spec_size() == 0,
            Self::decode(0, 0, 0, 0).wf(),
    {
    }

    /// A header that is written and read again is the same header.
    pub proof fn lemma_round_trip(&self)
        ensures
            self.encode().len() == 4,
            Self::decode(self.encode()[0], self.encode()[1], self.encode()[2], self.encode()[3])
                == *self,
    {
        let r = self.raw as int;
        assert(r == r % 256 + 256 * ((r / 256) % 256) + 65536 * ((r / 65536) % 256) + 16777216 * ((r
            / 16777216) % 256));
    }

    /// The header with the size `size` and the state of this one.
    pub closed spec fn with_size(&self, size: int) -> Entry {
        Entry { raw: (size + self.raw % 2) as u32 }
    }

    /// The header of a used block with the size of this one.
    pub closed spec fn as_used(&self) -> Entry {
        Entry { raw: (self.raw - self.raw % 4 + 1) as u32 }
    }

    /// A header is known by its state and its size: the header that `free`
    /// makes is the header of a free block with that size.
    pub proof fn lemma_free_is(e: Entry, size: int)
        requires
            e.wf(),
            e.spec_state() == State::Free,
            e.spec_size() == size,
        ensures
            e == Self::decode(0, 0, 0, 0).with_size(size),
    {
    }

    /// A header is known by its state and its size: the header that `used`
    /// makes is the header of a used block with that size.
    pub proof fn lemma_used_is(e: Entry, size: int)
        requires
            e.wf(),
            e.spec_state() == State::Used,
            e.spec_size() == size,
            size % 4 == 0,
            0 <= size <= MAX_ENTRY_SIZE,
        ensures
            e == Self::decode(0, 0, 0, 0).with_size(size).as_used(),
    {
    }

    /// The header of a free block of `size` bytes.
    pub fn free(size: usize) -> (e: Entry)
        requires
            size % 4 == 0,
            size <= MAX_ENTRY_SIZE,
        ensures
            e.wf(),
            e.spec_state() == State::Free,
            e.spec_size() == size,
    {
        Entry { raw: size as u32 }
    }

    /// The header of a used block of `size` bytes.
    pub fn used(size: usize) -> (e: Entry)
        requires
            size % 4 == 0,
            size <= MAX_ENTRY_SIZE,
        ensures
            e.wf(),
            e.spec_state() == State::Used,
            e.spec_size() == size,
    {
        Entry { raw: size as u32 + 1 }
    }

    /// The state of the block.
    pub fn state(&self) -> (s: State)
        ensures
            s == self.spec_state(),
    {
        if self.raw % 2 == 1 {
            State::Used
        } else {
            State::Free
        }
    }

    /// The size of the payload.
    pub fn size(&self) -> (s: usize)
        ensures
            s == self.spec_size(),
    {
        (self.raw - self.raw % 4) as usize
    }

    /// The four bytes that hold the header, lowest byte first.
    pub fn as_raw(&self) -> (b: [u8; 4])
        ensures
            b@ == self.encode(),
    {
        let r = self.raw;
        let b = [(r % 256) as u8, ((r / 256) % 256) as u8, ((r / 65536) % 256) as u8, ((r / 16777216)
            % 256) as u8];
        proof {
            assert(b@ =~= self.encode());
        }
        b
    }

    /// The header that four bytes hold, lowest byte first.
    pub fn from_raw(b0: u8, b1: u8, b2: u8, b3: u8) -> (e: Entry)
        ensures
            e == Self::decode(b0, b1, b2, b3),
    {
        Entry { raw: b0 as u32 + 256 * (b1 as u32) + 65536 * (b2 as u32) + 16777216 * (b3 as u32) }
    }
}

} // verus!
