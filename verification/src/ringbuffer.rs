//! A bounded first-in first-out buffer of bytes over a fixed array.

use vstd::prelude::*;

verus! {

/// A ring of bytes: one side pushes at the tail, the other pops at the
/// head.
pub struct RingBuffer {
    buf: Vec<u8>,
    head: usize,
    len: usize,
    pushed: Ghost<Seq<u8>>,
    popped: Ghost<Seq<u8>>,
}

/// Position `x` in a ring of `cap` slots, for `x` below twice `cap`.
pub open spec fn wrap(x: int, cap: int) -> int {
    if x >= cap {
        x - cap
    } else {
        x
    }
}

impl RingBuffer {
    /// The bytes in the ring, oldest first.
    pub closed spec fn view(&self) -> Seq<u8> {
        Seq::new(self.len as nat, |i: int| self.buf@[wrap(self.head + i, self.buf@.len() as int)])
    }

    /// Number of bytes that the ring can hold.
    pub closed spec fn spec_capacity(&self) -> usize {
        self.buf@.len() as usize
    }

    /// Every byte that was ever pushed, oldest first.
    pub closed spec fn pushed(&self) -> Seq<u8> {
        self.pushed@
    }

    /// Every byte that was ever popped, oldest first.
    pub closed spec fn popped(&self) -> Seq<u8> {
        self.popped@
    }

    /// Number of bytes from the head that lie in one piece of the array.
    pub closed spec fn contiguous(&self) -> int {
        if self.head + self.len <= self.buf@.len() {
            self.len as int
        } else {
            self.buf@.len() - self.head
        }
    }

    /// Number of free slots from the tail that lie in one piece of the
    /// array.
    pub closed spec fn contiguous_free(&self) -> int {
        if self.head + self.len < self.buf@.len() {
            self.buf@.len() - self.head - self.len
        } else {
            self.buf@.len() - self.len
        }
    }

    /// The ring holds no more than its capacity, and what was pushed is
    /// what was popped followed by what the ring holds.
    pub closed spec fn wf(&self) -> bool {
        &&& 0 < self.buf@.len() <= usize::MAX
        &&& self.head < self.buf@.len()
        &&& self.len <= self.buf@.len()
        &&& self.pushed@ == self.popped@ + self@
    }

    /// What is in the ring is what was pushed and not popped yet, in the
    /// order in which it was pushed; so the number of bytes pushed less the
    /// number of bytes popped is the number of bytes in the ring, which is
    /// no more than the capacity.
    pub proof fn lemma_conservation(&self)
        requires
            self.wf(),
        ensures
            self.pushed() == self.popped() + self@,
            self.pushed().len() - self.popped().len() == self@.len(),
            self@.len() <= self.spec_capacity(),
            0 <= self.contiguous() <= self@.len(),
            self@.len() > 0 ==> self.contiguous() > 0,
            0 <= self.contiguous_free() <= self.spec_capacity() - self@.len(),
            self@.len() < self.spec_capacity() ==> self.contiguous_free() > 0,
    {
    }

    /// A ring of `size` slots, empty.
    pub fn new(size: usize) -> (r: Self)
        requires
            size > 0,
        ensures
            r.wf(),
            r@ == Seq::<u8>::empty(),
            r.spec_capacity() == size,
            r.pushed() == Seq::<u8>::empty(),
            r.popped() == Seq::<u8>::empty(),
    {
        let mut buf: Vec<u8> = Vec::new();
        let mut i: usize = 0;
        while i < size
            invariant
                i <= size,
                buf.len() == i,
            decreases size - i,
        {
            buf.push(0);
            i += 1;
        }
        let r = RingBuffer { buf, head: 0, len: 0, pushed: Ghost(Seq::empty()), popped: Ghost(Seq::empty()) };
        proof {
            assert(r@ =~= Seq::<u8>::empty());
            assert(r.pushed@ =~= r.popped@ + r@);
        }
        r
    }

    /// Number of bytes that the ring can hold.
    pub fn capacity(&self) -> (r: usize)
        ensures
            r == self.spec_capacity(),
    {
        self.buf.len()
    }

    /// Number of bytes in the ring.
    pub fn len(&self) -> (r: usize)
        ensures
            r == self@.len(),
    {
        self.len
    }

    /// Tells whether the ring holds no byte.
    pub fn is_empty(&self) -> (r: bool)
        ensures
            r == (self@.len() == 0),
    {
        self.len == 0
    }

    /// Tells whether the ring holds as many bytes as it can.
    pub fn is_full(&self) -> (r: bool)
        ensures
            r == (self@.len() == self.spec_capacity()),
    {
        self.len == self.buf.len()
    }

    /// Pushes a byte at the tail, where the ring is not full.
    pub fn push(&mut self, byte: u8) -> (r: bool)
        requires
            old(self).wf(),
        ensures
            final(self).wf(),
            final(self).spec_capacity() == old(self).spec_capacity(),
            final(self).popped() == old(self).popped(),
            r == (old(self)@.len() < old(self).spec_capacity()),
            final(self)@ == if r {
                old(self)@.push(byte)
            } else {
                old(self)@
            },
            final(self).pushed() == if r {
                old(self).pushed().push(byte)
            } else {
                old(self).pushed()
            },
    {
        let cap = self.buf.len();
        if self.len == cap {
            return false;
        }
        let tail: usize = if self.head >= cap - self.len {
            self.head - (cap - self.len)
        } else {
            self.head + self.len
        };
        self.buf[tail] = byte;
        self.len = self.len + 1;
        proof {
            self.pushed@ = self.pushed@.push(byte);
            assert(self@ =~= old(self)@.push(byte));
            assert(self.pushed@ =~= self.popped@ + self@);
        }
        true
    }

    /// Pops the byte at the head, where there is one.
    pub fn pop(&mut self) -> (r: Option<u8>)
        requires
            old(self).wf(),
        ensures
            final(self).wf(),
            final(self).spec_capacity() == old(self).spec_capacity(),
            final(self).pushed() == old(self).pushed(),
            r == if old(self)@.len() > 0 {
                Some(old(self)@[0])
            } else {
                None
            },
            final(self)@ == if old(self)@.len() > 0 {
                old(self)@.drop_first()
            } else {
                old(self)@
            },
            final(self).popped() == if old(self)@.len() > 0 {
                old(self).popped().push(old(self)@[0])
            } else {
                old(self).popped()
            },
    {
        if self.len == 0 {
            return None;
        }
        let byte = self.buf[self.head];
        let cap = self.buf.len();
        self.head = if self.head + 1 == cap {
            0
        } else {
            self.head + 1
        };
        self.len = self.len - 1;
        proof {
            self.popped@ = self.popped@.push(byte);
            assert(self@ =~= old(self)@.drop_first());
            assert(old(self)@ =~= seq![byte] + self@);
            assert(self.pushed@ =~= self.popped@ + self@);
        }
        Some(byte)
    }

    /// Pushes bytes of `data` from `from` on for as long as the ring has
    /// room, and returns how many it pushed.
    pub fn push_slice(&mut self, data: &[u8], from: usize) -> (n: usize)
        requires
            old(self).wf(),
            from <= data@.len(),
        ensures
            final(self).wf(),
            final(self).spec_capacity() == old(self).spec_capacity(),
            final(self).popped() == old(self).popped(),
            n == if data@.len() - from <= old(self).spec_capacity() - old(self)@.len() {
                data@.len() - from
            } else {
                old(self).spec_capacity() - old(self)@.len()
            },
            final(self)@ == old(self)@ + data@.subrange(from as int, from + n),
            final(self).pushed() == old(self).pushed() + data@.subrange(from as int, from + n),
    {
        let mut n: usize = 0;
        let total = data.len();
        proof {
            assert(data@.subrange(from as int, from as int) =~= Seq::<u8>::empty());
            assert(self@ =~= old(self)@ + data@.subrange(from as int, from as int));
            assert(self.pushed() =~= old(self).pushed() + data@.subrange(from as int, from as int));
        }
        while from + n < total && !self.is_full()
            invariant
                self.wf(),
                total == data@.len(),
                from + n <= data@.len(),
                self.spec_capacity() == old(self).spec_capacity(),
                self.popped() == old(self).popped(),
                self@ == old(self)@ + data@.subrange(from as int, from + n),
                self.pushed() == old(self).pushed() + data@.subrange(from as int, from + n),
            decreases data@.len() - from - n,
        {
            let ghost before = *self;
            let byte = data[from + n];
            let _ = self.push(byte);
            proof {
                assert(data@.subrange(from as int, from + n + 1) =~= data@.subrange(
                    from as int,
                    from + n,
                ).push(byte));
                assert(self@ =~= old(self)@ + data@.subrange(from as int, from + n + 1));
                assert(self.pushed() =~= old(self).pushed() + data@.subrange(
                    from as int,
                    from + n + 1,
                ));
                self.lemma_conservation();
            }
            n = n + 1;
        }
        proof {
            self.lemma_conservation();
            old(self).lemma_conservation();
        }
        n
    }

    /// Pops bytes into `out` from `from` on for as long as the ring holds
    /// bytes and `out` has room, and returns how many it popped.
    pub fn pop_slice(&mut self, out: &mut [u8], from: usize) -> (n: usize)
        requires
            old(self).wf(),
            from <= old(out)@.len(),
        ensures
            final(self).wf(),
            final(self).spec_capacity() == old(self).spec_capacity(),
            final(self).pushed() == old(self).pushed(),
            n == if old(out)@.len() - from <= old(self)@.len() {
                old(out)@.len() - from
            } else {
                old(self)@.len() as int
            },
            final(self)@ == old(self)@.subrange(n as int, old(self)@.len() as int),
            final(self).popped() == old(self).popped() + old(self)@.subrange(0, n as int),
            final(out)@.len() == old(out)@.len(),
            final(out)@.subrange(from as int, from + n) == old(self)@.subrange(0, n as int),
            forall|i: int|
                0 <= i < old(out)@.len() && !(from <= i < from + n) ==> final(out)@[i] == old(out)@[i],
    {
        let mut n: usize = 0;
        let total = out.len();
        proof {
            assert(old(self)@.subrange(0, 0) =~= Seq::<u8>::empty());
            assert(out@.subrange(from as int, from as int) =~= Seq::<u8>::empty());
            assert(self@ =~= old(self)@.subrange(0, old(self)@.len() as int));
            assert(self.popped() =~= old(self).popped() + old(self)@.subrange(0, 0));
        }
        while from + n < total && !self.is_empty()
            invariant
                self.wf(),
                total == old(out)@.len(),
                out@.len() == total,
                from + n <= total,
                n <= old(self)@.len(),
                self.spec_capacity() == old(self).spec_capacity(),
                self.pushed() == old(self).pushed(),
                self@ == old(self)@.subrange(n as int, old(self)@.len() as int),
                self.popped() == old(self).popped() + old(self)@.subrange(0, n as int),
                out@.subrange(from as int, from + n) == old(self)@.subrange(0, n as int),
                forall|i: int|
                    0 <= i < total && !(from <= i < from + n) ==> out@[i] == old(out)@[i],
            decreases total - from - n,
        {
            let ghost prev_out = out@;
            let byte = match self.pop() {
                Some(b) => b,
                None => 0,
            };
            out[from + n] = byte;
            proof {
                assert(self@ =~= old(self)@.subrange(n + 1, old(self)@.len() as int));
                assert(old(self)@.subrange(0, n + 1) =~= old(self)@.subrange(0, n as int).push(byte));
                assert(self.popped() =~= old(self).popped() + old(self)@.subrange(0, n + 1));
                assert(out@.subrange(from as int, from + n + 1) =~= prev_out.subrange(
                    from as int,
                    from + n,
                ).push(byte));
            }
            n = n + 1;
        }
        proof {
            assert(old(self)@.subrange(0, 0) =~= Seq::<u8>::empty());
        }
        n
    }

    /// A copy of the bytes from the head that lie in one piece of the
    /// array. The bytes stay in the ring.
    pub fn peek_contiguous(&self) -> (v: Vec<u8>)
        requires
            self.wf(),
        ensures
            v@ == self@.subrange(0, self.contiguous()),
            v@.len() == self.contiguous(),
    {
        let cap = self.buf.len();
        let k: usize = if self.len <= cap - self.head {
            self.len
        } else {
            cap - self.head
        };
        let mut v: Vec<u8> = Vec::new();
        let mut i: usize = 0;
        while i < k
            invariant
                self.wf(),
                i <= k,
                k == self.contiguous(),
                k <= self.len,
                self.head + k <= self.buf@.len(),
                v@ == self@.subrange(0, i as int),
            decreases k - i,
        {
            v.push(self.buf[self.head + i]);
            proof {
                assert(v@ =~= self@.subrange(0, i + 1));
            }
            i += 1;
        }
        v
    }

    /// Drops `n` bytes at the head.
    pub fn pop_done(&mut self, n: usize)
        requires
            old(self).wf(),
            n <= old(self)@.len(),
        ensures
            final(self).wf(),
            final(self).spec_capacity() == old(self).spec_capacity(),
            final(self).pushed() == old(self).pushed(),
            final(self)@ == old(self)@.subrange(n as int, old(self)@.len() as int),
            final(self).popped() == old(self).popped() + old(self)@.subrange(0, n as int),
    {
        let cap = self.buf.len();
        self.head = if self.head >= cap - n {
            self.head - (cap - n)
        } else {
            self.head + n
        };
        self.len = self.len - n;
        proof {
            self.popped@ = self.popped@ + old(self)@.subrange(0, n as int);
            assert(self@ =~= old(self)@.subrange(n as int, old(self)@.len() as int));
            assert(old(self)@ =~= old(self)@.subrange(0, n as int) + self@);
            assert(self.pushed@ =~= self.popped@ + self@);
        }
    }

    /// Number of free slots from the tail that lie in one piece of the
    /// array.
    pub fn free_contiguous(&self) -> (k: usize)
        requires
            self.wf(),
        ensures
            k == self.contiguous_free(),
    {
        let cap = self.buf.len();
        if self.len < cap - self.head {
            cap - self.head - self.len
        } else {
            cap - self.len
        }
    }

    /// Bytes that are pushed and then popped come out as they went in: a
    /// ring that holds `before` and takes `data` gives `before` followed by
    /// `data`, byte for byte.
    pub proof fn lemma_fifo(before: Seq<u8>, data: Seq<u8>)
        ensures
            (before + data).subrange(0, before.len() as int) == before,
            (before + data).subrange(before.len() as int, (before + data).len() as int) == data,
            before.len() == 0 ==> (before + data).subrange(0, data.len() as int) == data,
    {
        assert((before + data).subrange(0, before.len() as int) =~= before);
        assert((before + data).subrange(before.len() as int, (before + data).len() as int) =~= data);
        if before.len() == 0 {
            assert((before + data).subrange(0, data.len() as int) =~= data);
        }
    }
}

} // verus!
