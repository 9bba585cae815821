//! The segregated free lists of the two-level segregated fit allocator.
//!
//! Every class has a list with the addresses of the free blocks of the
//! class. Two bitmaps tell which lists hold a block: one bit for every
//! class, and one bit for every first level, which is set where a class of
//! that level has its bit set.

use vstd::prelude::*;
use crate::tlsf_map::{CLASSES, FLLEN, SLLEN};

verus! {

/// The free lists and their bitmaps.
pub struct FreeLists {
    lists: Vec<Vec<usize>>,
    sl_bitmap: Vec<bool>,
    fl_bitmap: Vec<bool>,
    members: Ghost<Map<usize, int>>,
}

/// The address is in the list.
pub open spec fn listed(list: Seq<usize>, addr: usize) -> bool {
    exists|k: int| 0 <= k < list.len() && #[trigger] list[k] == addr
}

/// A class of the first level `f` has its bit set.
pub open spec fn row_set(sl: Seq<bool>, f: int) -> bool {
    exists|s: int| 0 <= s < 64 && #[trigger] sl[f * 64 + s]
}

impl FreeLists {
    /// The lists, by the key of their class.
    pub closed spec fn view(&self) -> Seq<Seq<usize>> {
        Seq::new(self.lists@.len(), |c: int| self.lists@[c]@)
    }

    /// The class of every block that is in a list, by the address of the
    /// block.
    pub closed spec fn members(&self) -> Map<usize, int> {
        self.members@
    }

    /// The bit of every class.
    pub closed spec fn sl_bits(&self) -> Seq<bool> {
        self.sl_bitmap@
    }

    /// The bit of every first level.
    pub closed spec fn fl_bits(&self) -> Seq<bool> {
        self.fl_bitmap@
    }

    /// Every list holds the members of its class, each once; a class has
    /// its bit set where its list holds a block, and a first level has its
    /// bit set where one of its classes has.
    pub open spec fn wf(&self) -> bool {
        &&& self@.len() == CLASSES
        &&& self.sl_bits().len() == CLASSES
        &&& self.fl_bits().len() == FLLEN
        &&& forall|c: int, k: int|
            0 <= c < CLASSES && 0 <= k < self@[c].len() ==> self.members().contains_key(
                #[trigger] self@[c][k],
            ) && self.members()[self@[c][k]] == c
        &&& forall|a: usize| #[trigger]
            self.members().contains_key(a) ==> 0 <= self.members()[a] < CLASSES && listed(
                self@[self.members()[a]],
                a,
            )
        &&& forall|c: int, j: int, k: int|
            0 <= c < CLASSES && 0 <= j < k < self@[c].len() ==> #[trigger] self@[c][j]
                != #[trigger] self@[c][k]
        &&& forall|c: int| 0 <= c < CLASSES ==> #[trigger] self.sl_bits()[c] == (self@[c].len() > 0)
        &&& forall|f: int| 0 <= f < FLLEN ==> #[trigger] self.fl_bits()[f] == row_set(self.sl_bits(), f)
    }

    /// Lists without a block.
    pub fn new() -> (r: Self)
        ensures
            r.wf(),
            r.members() == Map::<usize, int>::empty(),
    {
        let mut lists: Vec<Vec<usize>> = Vec::new();
        let mut sl_bitmap: Vec<bool> = Vec::new();
        let mut fl_bitmap: Vec<bool> = Vec::new();
        let mut c: usize = 0;
        while c < CLASSES
            invariant
                c <= CLASSES,
                lists@.len() == c,
                sl_bitmap@.len() == c,
                forall|i: int| 0 <= i < c ==> (#[trigger] lists@[i])@.len() == 0,
                forall|i: int| 0 <= i < c ==> !#[trigger] sl_bitmap@[i],
            decreases CLASSES - c,
        {
            lists.push(Vec::new());
            sl_bitmap.push(false);
            c += 1;
        }
        let mut f: usize = 0;
        while f < FLLEN
            invariant
                f <= FLLEN,
                fl_bitmap@.len() == f,
                forall|i: int| 0 <= i < f ==> !#[trigger] fl_bitmap@[i],
            decreases FLLEN - f,
        {
            fl_bitmap.push(false);
            f += 1;
        }
        FreeLists { lists, sl_bitmap, fl_bitmap, members: Ghost(Map::empty()) }
    }

    /// Tells whether the list of the class holds no block.
    pub fn is_empty(&self, key: usize) -> (r: bool)
        requires
            self.wf(),
            key < CLASSES,
        ensures
            r == (self@[key as int].len() == 0),
    {
        self.lists[key].len() == 0
    }

    /// The block that the list of the class gives out next: the block
    /// that entered it last.
    pub fn head(&self, key: usize) -> (addr: usize)
        requires
            self.wf(),
            key < CLASSES,
            self@[key as int].len() > 0,
        ensures
            addr == self@[key as int].last(),
            self.members().contains_key(addr),
            self.members()[addr] == key,
    {
        let n = self.lists[key].len();
        self.lists[key][n - 1]
    }

    /// Puts a block that is in no list into the list of the class.
    pub fn insert(&mut self, key: usize, addr: usize)
        requires
            old(self).wf(),
            key < CLASSES,
            !old(self).members().contains_key(addr),
        ensures
            final(self).wf(),
            final(self).members() == old(self).members().insert(addr, key as int),
            final(self)@ == old(self)@.update(key as int, old(self)@[key as int].push(addr)),
    {
        self.lists[key].push(addr);
        self.sl_bitmap[key] = true;
        self.fl_bitmap[key / SLLEN] = true;
        proof {
            self.members@ = self.members@.insert(addr, key as int);
            let v = self@;
            let o = old(self)@;
            assert(v =~= o.update(key as int, o[key as int].push(addr)));
            assert forall|c: int, k: int| 0 <= c < CLASSES && 0 <= k < v[c].len() implies self.members().contains_key(
                #[trigger] v[c][k],
            ) && self.members()[v[c][k]] == c by {
                if c == key && k == o[c].len() {
                } else {
                    assert(v[c][k] == o[c][k]);
                }
            }
            assert forall|a: usize| #[trigger] self.members().contains_key(a) implies 0
                <= self.members()[a] < CLASSES && listed(v[self.members()[a]], a) by {
                if a == addr {
                    assert(v[key as int][o[key as int].len() as int] == addr);
                } else {
                    assert(old(self).members().contains_key(a));
                    let c = old(self).members()[a];
                    let k = choose|k: int| 0 <= k < o[c].len() && #[trigger] o[c][k] == a;
                    assert(v[c][k] == a);
                }
            }
            assert forall|c: int, j: int, k: int|
                0 <= c < CLASSES && 0 <= j < k < v[c].len() implies #[trigger] v[c][j]
                != #[trigger] v[c][k] by {
                if c == key && k == o[c].len() {
                    assert(v[c][j] == o[c][j]);
                } else {
                    assert(v[c][j] == o[c][j] && v[c][k] == o[c][k]);
                }
            }
            assert forall|f: int| 0 <= f < FLLEN implies #[trigger] self.fl_bits()[f] == row_set(
                self.sl_bits(),
                f,
            ) by {
                let kf = (key / SLLEN) as int;
                if f == kf {
                    assert(self.sl_bits()[kf * 64 + (key as int - kf * 64)]);
                } else {
                    if row_set(old(self).sl_bits(), f) {
                        let s = choose|s: int| 0 <= s < 64 && #[trigger] old(self).sl_bits()[f * 64 + s];
                        assert(self.sl_bits()[f * 64 + s]);
                    }
                    if row_set(self.sl_bits(), f) {
                        let s = choose|s: int| 0 <= s < 64 && #[trigger] self.sl_bits()[f * 64 + s];
                        assert(old(self).sl_bits()[f * 64 + s]);
                    }
                }
            }
        }
    }

    /// Recomputes the bit of a first level from the bits of its classes.
    fn refresh_row(&mut self, f: usize)
        requires
            f < FLLEN,
            old(self).sl_bitmap@.len() == CLASSES,
            old(self).fl_bitmap@.len() == FLLEN,
        ensures
            final(self).lists == old(self).lists,
            final(self).sl_bitmap == old(self).sl_bitmap,
            final(self).members == old(self).members,
            final(self).fl_bitmap@ == old(self).fl_bitmap@.update(
                f as int,
                row_set(old(self).sl_bitmap@, f as int),
            ),
    {
        let mut any = false;
        let mut s: usize = 0;
        while s < SLLEN
            invariant
                s <= SLLEN,
                f < FLLEN,
                self.sl_bitmap@.len() == CLASSES,
                self.sl_bitmap == old(self).sl_bitmap,
                self.fl_bitmap == old(self).fl_bitmap,
                self.lists == old(self).lists,
                self.members == old(self).members,
                any == exists|t: int| 0 <= t < s && #[trigger] self.sl_bitmap@[f * 64 + t],
            decreases SLLEN - s,
        {
            if self.sl_bitmap[f * SLLEN + s] {
                any = true;
            }
            s += 1;
        }
        self.fl_bitmap[f] = any;
    }

    /// Takes a block out of the list of its class.
    pub fn remove(&mut self, key: usize, addr: usize)
        requires
            old(self).wf(),
            key < CLASSES,
            old(self).members().contains_key(addr),
            old(self).members()[addr] == key,
        ensures
            final(self).wf(),
            final(self).members() == old(self).members().remove(addr),
    {
        let ghost o = self@;
        let n = self.lists[key].len();
        let mut k: usize = 0;
        while k < n && self.lists[key][k] != addr
            invariant
                k <= n,
                n == self@[key as int].len(),
                self.wf(),
                *self == *old(self),
                key < CLASSES,
                forall|j: int| 0 <= j < k ==> self@[key as int][j] != addr,
            decreases n - k,
        {
            k += 1;
        }
        proof {
            let w = choose|w: int| 0 <= w < o[key as int].len() && #[trigger] o[key as int][w] == addr;
            assert(k < n);
        }
        let _ = self.lists[key].remove(k);
        if self.lists[key].len() == 0 {
            self.sl_bitmap[key] = false;
            self.refresh_row(key / SLLEN);
        }
        proof {
            self.members@ = self.members@.remove(addr);
            let v = self@;
            assert(v =~= o.update(key as int, o[key as int].remove(k as int)));
            assert forall|c: int, i: int| 0 <= c < CLASSES && 0 <= i < v[c].len() implies self.members().contains_key(
                #[trigger] v[c][i],
            ) && self.members()[v[c][i]] == c by {
                if c == key {
                    let i0 = if i >= k {
                        i + 1
                    } else {
                        i
                    };
                    assert(v[c][i] == o[c][i0]);
                    assert(o[c][i0] != o[c][k as int]);
                } else {
                    assert(v[c][i] == o[c][i]);
                    assert(old(self).members()[o[c][i]] == c);
                }
            }
            assert forall|a: usize| #[trigger] self.members().contains_key(a) implies 0
                <= self.members()[a] < CLASSES && listed(v[self.members()[a]], a) by {
                assert(old(self).members().contains_key(a));
                let c = old(self).members()[a];
                let w = choose|w: int| 0 <= w < o[c].len() && #[trigger] o[c][w] == a;
                if c == key {
                    let w2 = if w > k {
                        w - 1
                    } else {
                        w
                    };
                    assert(v[c][w2] == a);
                } else {
                    assert(v[c][w] == a);
                }
            }
            assert forall|c: int, i: int, j: int|
                0 <= c < CLASSES && 0 <= i < j < v[c].len() implies #[trigger] v[c][i]
                != #[trigger] v[c][j] by {
                if c == key {
                    let i0 = if i >= k {
                        i + 1
                    } else {
                        i
                    };
                    let j0 = if j >= k {
                        j + 1
                    } else {
                        j
                    };
                    assert(o[c][i0] != o[c][j0]);
                } else {
                    assert(v[c][i] == o[c][i] && v[c][j] == o[c][j]);
                }
            }
            assert forall|f: int| 0 <= f < FLLEN implies #[trigger] self.fl_bits()[f] == row_set(
                self.sl_bits(),
                f,
            ) by {
                let kf = (key / SLLEN) as int;
                if f != kf {
                    if row_set(old(self).sl_bits(), f) {
                        let s = choose|s: int| 0 <= s < 64 && #[trigger] old(self).sl_bits()[f * 64 + s];
                        assert(self.sl_bits()[f * 64 + s]);
                    }
                    if row_set(self.sl_bits(), f) {
                        let s = choose|s: int| 0 <= s < 64 && #[trigger] self.sl_bits()[f * 64 + s];
                        assert(old(self).sl_bits()[f * 64 + s]);
                    }
                } else if v[key as int].len() > 0 {
                    assert(self.sl_bits() == old(self).sl_bits());
                }
            }
        }
    }

    /// The lowest key from `from` on whose list holds a block.
    pub fn find(&self, from: usize) -> (r: Option<usize>)
        requires
            self.wf(),
        ensures
            match r {
                Some(key) => {
                    &&& from <= key < CLASSES
                    &&& self@[key as int].len() > 0
                    &&& forall|c: int| from <= c < key ==> self@[c].len() == 0
                },
                None => forall|c: int| from <= c < CLASSES ==> self@[c].len() == 0,
            },
    {
        if from >= CLASSES {
            return None;
        }
        let fl = from / SLLEN;
        // the classes of the first level of `from`, from `from` on
        let mut key: usize = from;
        let row_end: usize = (fl + 1) * SLLEN;
        while key < row_end
            invariant
                from <= key <= row_end,
                row_end == (fl + 1) * 64,
                row_end <= CLASSES,
                self.wf(),
                forall|c: int| from <= c < key ==> self@[c].len() == 0,
            decreases row_end - key,
        {
            if self.sl_bitmap[key] {
                return Some(key);
            }
            key += 1;
        }
        // the first levels behind it
        let mut f: usize = fl + 1;
        while f < FLLEN
            invariant
                fl < f <= FLLEN,
                from < f * 64,
                self.wf(),
                forall|c: int| from <= c < f * 64 ==> self@[c].len() == 0,
            decreases FLLEN - f,
        {
            if self.fl_bitmap[f] {
                let mut s: usize = 0;
                while s < SLLEN
                    invariant
                        s <= SLLEN,
                        f < FLLEN,
                        from < f * 64,
                        self.wf(),
                        forall|c: int| from <= c < f * 64 + s ==> self@[c].len() == 0,
                    decreases SLLEN - s,
                {
                    if self.sl_bitmap[f * SLLEN + s] {
                        return Some(f * SLLEN + s);
                    }
                    s += 1;
                }
            } else {
                proof {
                    assert forall|c: int| f * 64 <= c < (f + 1) * 64 implies self@[c].len() == 0 by {
                        if self@[c].len() > 0 {
                            assert(self.sl_bits()[f * 64 + (c - f * 64)]);
                            assert(row_set(self.sl_bits(), f as int));
                        }
                    }
                }
            }
            f += 1;
        }
        None
    }
}

} // verus!
