//! An intrusive doubly-linked list with a lock on every node.
//!
//! Nodes live in a [`NodePool`] and are named by [`NodeRef`] handles. A node
//! holds the handles of its neighbours, a payload, and a version that counts
//! how often the node was inserted or detached. Every node has a
//! reader/writer lock. An operation that restructures the list takes the
//! write locks of all the nodes that it changes; where one of them is held,
//! it gives back those it has taken and reports that it was contended, and
//! its caller tries again.

use vstd::prelude::*;

verus! {

/// Handle of a node in a [`NodePool`].
#[derive(Clone, Copy, Debug, PartialEq, Eq, Hash)]
pub struct NodeRef {
    pub index: usize,
}

/// A node: links to its neighbours, a payload, a version.
pub struct IlistNode<T> {
    prev: Option<NodeRef>,
    next: Option<NodeRef>,
    // None on a sentinel node.
    object: Option<T>,
    // To avoid the ABA problem.
    version: u8,
}

impl<T: 'static> IlistNode<&'static T> {
    /// A detached node for a payload that lives as long as the program:
    /// the node refers to the payload and never releases it.
    pub fn const_new(object: &'static T) -> (r: Self)
        ensures
            r.state() == (NodeState { prev: None, next: None, version: 0 }),
            r.payload() == Some(object),
    {
        Self { version: 0, prev: None, next: None, object: Some(object) }
    }
}

/// A node with its lock.
struct Slot<T> {
    node: IlistNode<T>,
    writer: bool,
    readers: usize,
}

/// The nodes that handles refer to.
pub struct NodePool<T> {
    slots: Vec<Slot<T>>,
}

/// Links and version of a node.
pub struct NodeState {
    pub prev: Option<NodeRef>,
    pub next: Option<NodeRef>,
    pub version: u8,
}

/// The lock of a node.
pub struct LockState {
    /// The write lock is held.
    pub writer: bool,
    /// Number of read locks that are held.
    pub readers: usize,
}

/// How one attempt of an operation ended.
#[derive(Clone, Copy, Debug, PartialEq, Eq)]
pub enum Attempt {
    /// The operation ran; the flag is its result.
    Done(bool),
    /// A lock that the operation needs was held. Nothing has changed.
    Contended,
}

/// The version after `v`: versions count modulo 256.
pub open spec fn bump(v: u8) -> u8 {
    if v == 255 {
        0
    } else {
        (v + 1) as u8
    }
}

/// The node has no neighbours.
pub open spec fn detached(s: Seq<NodeState>, i: int) -> bool {
    s[i].prev is None && s[i].next is None
}

/// The write lock of the node can be taken.
pub open spec fn can_write(l: Seq<LockState>, i: int) -> bool {
    !l[i].writer && l[i].readers == 0
}

/// The write locks of the node and of its neighbours can be taken.
pub open spec fn around_free(s: Seq<NodeState>, l: Seq<LockState>, me: int) -> bool {
    &&& can_write(l, me)
    &&& s[me].prev matches Some(p) ==> can_write(l, p.spec_index() as int)
    &&& s[me].next matches Some(n) ==> can_write(l, n.spec_index() as int)
}

/// The write locks of the nodes `a` and `b` can be taken, and that of
/// `far`, where there is such a node.
pub open spec fn pair_free(l: Seq<LockState>, a: int, b: int, far: Option<NodeRef>) -> bool {
    &&& can_write(l, a)
    &&& can_write(l, b)
    &&& far matches Some(f) ==> can_write(l, f.spec_index() as int)
}

/// The handle names a node of the pool.
pub open spec fn valid(s: Seq<NodeState>, r: NodeRef) -> bool {
    r.spec_index() < s.len()
}

/// Links lead to nodes of the pool, no node links to itself, and links
/// come in pairs: where a node names another as its next, that one names
/// it as its previous, and the other way round.
pub open spec fn links_wf(s: Seq<NodeState>) -> bool {
    &&& s.len() <= usize::MAX
    &&& forall|i: int|
        0 <= i < s.len() ==> {
            &&& (#[trigger] s[i]).next matches Some(n) ==> n.spec_index() < s.len() && n.spec_index() != i
                && s[n.spec_index() as int].prev == Some(NodeRef { index: i as usize })
            &&& s[i].prev matches Some(p) ==> p.spec_index() < s.len() && p.spec_index() != i
                && s[p.spec_index() as int].next == Some(NodeRef { index: i as usize })
        }
}

/// The node with other links.
pub open spec fn with_links(n: NodeState, prev: Option<NodeRef>, next: Option<NodeRef>) -> NodeState {
    NodeState { prev, next, ..n }
}

/// The nodes after node `me` was detached: its neighbours link to each
/// other, it has no links left, and its version has moved on.
pub open spec fn detach_spec(s: Seq<NodeState>, me: int) -> Seq<NodeState> {
    let p = s[me].prev;
    let n = s[me].next;
    let s1 = match p {
        Some(pr) => s.update(
            pr.spec_index() as int,
            with_links(s[pr.spec_index() as int], s[pr.spec_index() as int].prev, n),
        ),
        None => s,
    };
    let s2 = match n {
        Some(nr) => s1.update(
            nr.spec_index() as int,
            with_links(s1[nr.spec_index() as int], p, s1[nr.spec_index() as int].next),
        ),
        None => s1,
    };
    s2.update(me, NodeState { prev: None, next: None, version: bump(s[me].version), ..s[me] })
}

/// The nodes after the detached node `me` was linked in behind `other`:
/// `me` stands between `other` and what was its next, and the version of
/// `me` has moved on.
pub open spec fn insert_after_spec(s: Seq<NodeState>, other: int, me: int) -> Seq<NodeState> {
    let n = s[other].next;
    let me_ref = NodeRef { index: me as usize };
    let s1 = s.update(other, with_links(s[other], s[other].prev, Some(me_ref)));
    let s2 = match n {
        Some(nr) => s1.update(
            nr.spec_index() as int,
            with_links(s1[nr.spec_index() as int], Some(me_ref), s1[nr.spec_index() as int].next),
        ),
        None => s1,
    };
    s2.update(
        me,
        NodeState {
            prev: Some(NodeRef { index: other as usize }),
            next: n,
            version: bump(s[me].version),
            ..s[me]
        },
    )
}

/// The nodes after the detached node `me` was linked in before `other`:
/// `me` stands between what was the previous of `other` and `other`, and
/// the version of `me` has moved on.
pub open spec fn insert_before_spec(s: Seq<NodeState>, other: int, me: int) -> Seq<NodeState> {
    let p = s[other].prev;
    let me_ref = NodeRef { index: me as usize };
    let s1 = s.update(other, with_links(s[other], Some(me_ref), s[other].next));
    let s2 = match p {
        Some(pr) => s1.update(
            pr.spec_index() as int,
            with_links(s1[pr.spec_index() as int], s1[pr.spec_index() as int].prev, Some(me_ref)),
        ),
        None => s1,
    };
    s2.update(
        me,
        NodeState {
            prev: p,
            next: Some(NodeRef { index: other as usize }),
            version: bump(s[me].version),
            ..s[me]
        },
    )
}

/// The expected version, where one is given, is the version of the node.
pub open spec fn version_ok(s: Seq<NodeState>, i: int, expected: Option<usize>) -> bool {
    expected matches Some(v) ==> v == s[i].version
}

/// A neighbour's lock stands in the way: it is held, or the neighbour is a
/// node whose lock the operation has taken already.
pub open spec fn blocked(l: Seq<LockState>, r: Option<NodeRef>, taken: Set<int>) -> bool {
    r matches Some(x) && (!can_write(l, x.spec_index() as int) || taken.contains(x.spec_index() as int))
}

/// How an attempt to detach `me` ends.
pub open spec fn detach_outcome(
    s: Seq<NodeState>,
    l: Seq<LockState>,
    expected: Option<usize>,
    me: int,
) -> Attempt {
    if !can_write(l, me) {
        Attempt::Contended
    } else if detached(s, me) || !version_ok(s, me, expected) {
        Attempt::Done(false)
    } else if blocked(l, s[me].prev, set![me]) || blocked(
        l,
        s[me].next,
        match s[me].prev {
            Some(p) => set![me, p.spec_index() as int],
            None => set![me],
        },
    ) {
        Attempt::Contended
    } else {
        Attempt::Done(true)
    }
}

/// How an attempt to link `me` in beside `other` ends, where `far` is the
/// neighbour of `other` on the side where `me` goes.
pub open spec fn insert_outcome(
    s: Seq<NodeState>,
    l: Seq<LockState>,
    expected: Option<usize>,
    other: int,
    me: int,
    far: Option<NodeRef>,
) -> Attempt {
    if !can_write(l, me) {
        Attempt::Contended
    } else if !detached(s, me) {
        Attempt::Done(false)
    } else if !can_write(l, other) || other == me {
        Attempt::Contended
    } else if !version_ok(s, other, expected) {
        Attempt::Done(false)
    } else if blocked(l, far, set![me, other]) {
        Attempt::Contended
    } else {
        Attempt::Done(true)
    }
}

impl NodeRef {
    /// Position of the node in its pool.
    pub open spec fn spec_index(&self) -> usize {
        self.index
    }

    /// Tells whether two handles name the same node.
    pub fn is(&self, other: &NodeRef) -> (r: bool)
        ensures
            r == (*self == *other),
    {
        self.index == other.index
    }
}

impl<T> IlistNode<T> {
    /// The links and the version of the node.
    pub closed spec fn state(&self) -> NodeState {
        NodeState { prev: self.prev, next: self.next, version: self.version }
    }

    /// The payload; none on a sentinel.
    pub closed spec fn payload(&self) -> Option<T> {
        self.object
    }

    /// The version of the node.
    pub fn version(&self) -> (r: usize)
        ensures
            r == self.state().version,
    {
        self.version as usize
    }

    /// Version is incremented if this node is inserted to or detached from
    /// a list.
    pub fn increment_version(&mut self) -> (r: &mut Self)
        ensures
            r.state() == (NodeState { version: bump(old(self).state().version), ..old(self).state() }),
            r.payload() == old(self).payload(),
            *final(self) == *final(r),
    {
        self.version = self.version.wrapping_add(1);
        self
    }

    /// A sentinel node: detached, without a payload.
    pub fn default() -> (r: Self)
        ensures
            r.state() == (NodeState { prev: None, next: None, version: 0 }),
            r.payload() is None,
    {
        Self { version: 0, prev: None, next: None, object: None }
    }

    /// A detached node that holds `object`.
    pub fn new(object: T) -> (r: Self)
        ensures
            r.state() == (NodeState { prev: None, next: None, version: 0 }),
            r.payload() == Some(object),
    {
        Self { version: 0, prev: None, next: None, object: Some(object) }
    }

    /// Tells whether the node has no neighbours.
    pub fn is_detached(&self) -> (r: bool)
        ensures
            r == (self.state().prev is None && self.state().next is None),
    {
        self.prev.is_none() && self.next.is_none()
    }

    /// The node after this one.
    pub fn next(&self) -> (r: Option<NodeRef>)
        ensures
            r == self.state().next,
    {
        self.next
    }

    /// The node before this one.
    pub fn prev(&self) -> (r: Option<NodeRef>)
        ensures
            r == self.state().prev,
    {
        self.prev
    }

    /// The payload; none on a sentinel.
    pub fn object(&self) -> (r: Option<&T>)
        ensures
            r == match self.payload() {
                Some(t) => Some(&t),
                None => None,
            },
    {
        self.object.as_ref()
    }
}

impl<T> NodePool<T> {
    /// Links, version and lock of every node.
    pub closed spec fn view(&self) -> Seq<NodeState> {
        Seq::new(
            self.slots@.len(),
            |i: int|
                NodeState {
                    prev: self.slots@[i].node.prev,
                    next: self.slots@[i].node.next,
                    version: self.slots@[i].node.version,
                },
        )
    }

    /// The lock of every node.
    pub closed spec fn locks(&self) -> Seq<LockState> {
        Seq::new(
            self.slots@.len(),
            |i: int| LockState { writer: self.slots@[i].writer, readers: self.slots@[i].readers },
        )
    }

    /// The payload of every node.
    pub closed spec fn payloads(&self) -> Seq<Option<T>> {
        Seq::new(self.slots@.len(), |i: int| self.slots@[i].node.object)
    }

    /// The links of the pool are consistent.
    pub open spec fn wf(&self) -> bool {
        links_wf(self@)
    }

    /// A pool without nodes.
    pub fn new() -> (pool: Self)
        ensures
            pool@.len() == 0,
            pool.locks().len() == 0,
            pool.wf(),
    {
        NodePool { slots: Vec::new() }
    }

    /// Number of nodes.
    pub fn len(&self) -> (r: usize)
        ensures
            r == self@.len(),
            r == self.locks().len(),
    {
        self.slots.len()
    }

    /// Puts a node into the pool, with its lock free, and returns its
    /// handle.
    pub fn insert(&mut self, node: IlistNode<T>) -> (r: NodeRef)
        requires
            old(self).wf(),
            detached(seq![node.state()], 0),
        ensures
            final(self).wf(),
            r.spec_index() == old(self)@.len(),
            final(self)@ == old(self)@.push(node.state()),
            final(self).locks() == old(self).locks().push(LockState { writer: false, readers: 0 }),
            final(self).payloads() == old(self).payloads().push(node.payload()),
    {
        let index = self.slots.len();
        self.slots.push(Slot { node, writer: false, readers: 0 });
        let count = self.slots.len();
        proof {
            assert(self@.len() == count);
            assert(self@ =~= old(self)@.push(node.state()));
            assert(self.locks() =~= old(self).locks().push(LockState { writer: false, readers: 0 }));
            assert(self.payloads() =~= old(self).payloads().push(node.payload()));
            assert forall|i: int| 0 <= i < self@.len() implies {
                &&& (#[trigger] self@[i]).next matches Some(n) ==> n.spec_index() < self@.len()
                    && n.spec_index() != i && self@[n.spec_index() as int].prev == Some(
                    NodeRef { index: i as usize },
                )
                &&& self@[i].prev matches Some(p) ==> p.spec_index() < self@.len() && p.spec_index() != i
                    && self@[p.spec_index() as int].next == Some(NodeRef { index: i as usize })
            } by {
                if i < old(self)@.len() {
                    assert(self@[i] == old(self)@[i]);
                }
            }
        }
        NodeRef { index }
    }

    /// Tells whether the handle names a node of this pool.
    pub fn contains(&self, r: NodeRef) -> (b: bool)
        ensures
            b == valid(self@, r),
    {
        r.index < self.slots.len()
    }

    /// The node that `r` names.
    pub fn get(&self, r: NodeRef) -> (node: &IlistNode<T>)
        requires
            valid(self@, r),
        ensures
            node.state().prev == self@[r.spec_index() as int].prev,
            node.state().next == self@[r.spec_index() as int].next,
            node.state().version == self@[r.spec_index() as int].version,
            node.payload() == self.payloads()[r.spec_index() as int],
    {
        &self.slots[r.index].node
    }

    /// Every node has a lock.
    pub proof fn lemma_locks_len(&self)
        ensures
            self.locks().len() == self@.len(),
            self.payloads().len() == self@.len(),
    {
    }

    /// Takes the write lock of the node, where no lock of the node is held.
    pub fn try_write(&mut self, r: NodeRef) -> (b: bool)
        requires
            valid(old(self)@, r),
        ensures
            b == can_write(old(self).locks(), r.spec_index() as int),
            final(self).payloads() == old(self).payloads(),
            final(self)@ == old(self)@,
            final(self).locks() == if b {
                old(self).locks().update(
                    r.spec_index() as int,
                    LockState { writer: true, readers: 0 },
                )
            } else {
                old(self).locks()
            },
    {
        if self.slots[r.index].writer || self.slots[r.index].readers != 0 {
            return false;
        }
        self.slots[r.index].writer = true;
        proof {
            assert(self@ =~= old(self)@);
            assert(self.locks() =~= old(self).locks().update(
                r.spec_index() as int,
                LockState { writer: true, readers: 0 },
            ));
            assert(self.payloads() =~= old(self).payloads());
        }
        true
    }

    /// Gives back the write lock of the node.
    pub fn unlock_write(&mut self, r: NodeRef)
        requires
            valid(old(self)@, r),
        ensures
            final(self).payloads() == old(self).payloads(),
            final(self)@ == old(self)@,
            final(self).locks() == old(self).locks().update(
                r.spec_index() as int,
                LockState { writer: false, ..old(self).locks()[r.spec_index() as int] },
            ),
    {
        self.slots[r.index].writer = false;
        proof {
            assert(self@ =~= old(self)@);
            assert(self.locks() =~= old(self).locks().update(
                r.spec_index() as int,
                LockState { writer: false, ..old(self).locks()[r.spec_index() as int] },
            ));
            assert(self.payloads() =~= old(self).payloads());
        }
    }

    /// Takes a read lock of the node, where its write lock is not held.
    pub fn try_read(&mut self, r: NodeRef) -> (b: bool)
        requires
            valid(old(self)@, r),
        ensures
            b == (!old(self).locks()[r.spec_index() as int].writer && old(self).locks()[r.spec_index() as int].readers
                < usize::MAX),
            final(self).payloads() == old(self).payloads(),
            final(self)@ == old(self)@,
            final(self).locks() == if b {
                old(self).locks().update(
                    r.spec_index() as int,
                    LockState {
                        readers: (old(self).locks()[r.spec_index() as int].readers + 1) as usize,
                        ..old(self).locks()[r.spec_index() as int]
                    },
                )
            } else {
                old(self).locks()
            },
    {
        if self.slots[r.index].writer || self.slots[r.index].readers == usize::MAX {
            return false;
        }
        self.slots[r.index].readers = self.slots[r.index].readers + 1;
        proof {
            assert(self@ =~= old(self)@);
            assert(self.locks() =~= old(self).locks().update(
                r.spec_index() as int,
                LockState {
                    readers: (old(self).locks()[r.spec_index() as int].readers + 1) as usize,
                    ..old(self).locks()[r.spec_index() as int]
                },
            ));
            assert(self.payloads() =~= old(self).payloads());
        }
        true
    }

    /// Gives back a read lock of the node.
    pub fn unlock_read(&mut self, r: NodeRef)
        requires
            valid(old(self)@, r),
            old(self).locks()[r.spec_index() as int].readers > 0,
        ensures
            final(self).payloads() == old(self).payloads(),
            final(self)@ == old(self)@,
            final(self).locks() == old(self).locks().update(
                r.spec_index() as int,
                LockState {
                    readers: (old(self).locks()[r.spec_index() as int].readers - 1) as usize,
                    ..old(self).locks()[r.spec_index() as int]
                },
            ),
    {
        self.slots[r.index].readers = self.slots[r.index].readers - 1;
        proof {
            assert(self@ =~= old(self)@);
            assert(self.locks() =~= old(self).locks().update(
                r.spec_index() as int,
                LockState {
                    readers: (old(self).locks()[r.spec_index() as int].readers - 1) as usize,
                    ..old(self).locks()[r.spec_index() as int]
                },
            ));
            assert(self.payloads() =~= old(self).payloads());
        }
    }

    /// Sets the links of the node.
    fn set_links(&mut self, r: NodeRef, prev: Option<NodeRef>, next: Option<NodeRef>)
        requires
            valid(old(self)@, r),
        ensures
            final(self).payloads() == old(self).payloads(),
            final(self).locks() == old(self).locks(),
            final(self)@ == old(self)@.update(
                r.spec_index() as int,
                with_links(old(self)@[r.spec_index() as int], prev, next),
            ),
    {
        self.slots[r.index].node.prev = prev;
        self.slots[r.index].node.next = next;
        proof {
            assert(self@ =~= old(self)@.update(
                r.spec_index() as int,
                with_links(old(self)@[r.spec_index() as int], prev, next),
            ));
            assert(self.locks() =~= old(self).locks());
            assert(self.payloads() =~= old(self).payloads());
        }
    }

    /// Moves the version of the node on.
    fn bump_version(&mut self, r: NodeRef)
        requires
            valid(old(self)@, r),
        ensures
            final(self).payloads() == old(self).payloads(),
            final(self).locks() == old(self).locks(),
            final(self)@ == old(self)@.update(
                r.spec_index() as int,
                NodeState {
                    version: bump(old(self)@[r.spec_index() as int].version),
                    ..old(self)@[r.spec_index() as int]
                },
            ),
    {
        let node = &mut self.slots[r.index].node;
        node.increment_version();
        proof {
            assert(self@ =~= old(self)@.update(
                r.spec_index() as int,
                NodeState {
                    version: bump(old(self)@[r.spec_index() as int].version),
                    ..old(self)@[r.spec_index() as int]
                },
            ));
            assert(self.locks() =~= old(self).locks());
            assert(self.payloads() =~= old(self).payloads());
        }
    }
}

/// How an attempt to remove the node behind a node ends.
#[derive(Clone, Copy, Debug, PartialEq, Eq)]
pub enum Removal {
    /// The node behind was detached; this is its handle.
    Removed(NodeRef),
    /// There is no node behind.
    Nothing,
    /// A lock that the operation needs was held. Nothing has changed.
    Contended,
}

/// How an attempt to remove the node behind `me` ends.
pub open spec fn remove_outcome(s: Seq<NodeState>, l: Seq<LockState>, me: int) -> Removal {
    if !can_write(l, me) {
        Removal::Contended
    } else {
        match s[me].next {
            None => Removal::Nothing,
            Some(n) => if !can_write(l, n.spec_index() as int) {
                Removal::Contended
            } else if detach_outcome(
                s,
                l,
                Some(s[n.spec_index() as int].version as usize),
                n.spec_index() as int,
            ) == Attempt::Done(true) {
                Removal::Removed(n)
            } else {
                Removal::Contended
            },
        }
    }
}

/// The neighbours of the node are two nodes, or it has one neighbour at
/// most: it is not one of two nodes that form a ring.
pub open spec fn not_in_pair(s: Seq<NodeState>, me: int) -> bool {
    s[me].prev is Some ==> s[me].prev != s[me].next
}

/// What consistent links say of the node at index `i`.
pub proof fn lemma_links_at(s: Seq<NodeState>, i: int)
    requires
        links_wf(s),
        0 <= i < s.len(),
    ensures
        s[i].next matches Some(n) ==> n.spec_index() < s.len() && n.spec_index() != i && s[n.spec_index() as int].prev
            == Some(NodeRef { index: i as usize }),
        s[i].prev matches Some(p) ==> p.spec_index() < s.len() && p.spec_index() != i && s[p.spec_index() as int].next
            == Some(NodeRef { index: i as usize }),
{
}

/// Detaching a node keeps the links consistent.
pub proof fn lemma_detach_wf(s: Seq<NodeState>, me: int)
    requires
        links_wf(s),
        0 <= me < s.len(),
        not_in_pair(s, me),
    ensures
        links_wf(detach_spec(s, me)),
        detach_spec(s, me).len() == s.len(),
{
    let t = detach_spec(s, me);
    let p = s[me].prev;
    let n = s[me].next;
    assert forall|i: int| 0 <= i < t.len() implies {
        &&& (#[trigger] t[i]).next matches Some(x) ==> x.spec_index() < t.len() && x.spec_index() != i
            && t[x.spec_index() as int].prev == Some(NodeRef { index: i as usize })
        &&& t[i].prev matches Some(x) ==> x.spec_index() < t.len() && x.spec_index() != i
            && t[x.spec_index() as int].next == Some(NodeRef { index: i as usize })
    } by {
        lemma_links_at(s, i);
        lemma_links_at(s, me);
    }
}

/// Linking a detached node in behind another keeps the links consistent.
pub proof fn lemma_insert_after_wf(s: Seq<NodeState>, other: int, me: int)
    requires
        links_wf(s),
        0 <= me < s.len(),
        0 <= other < s.len(),
        other != me,
        detached(s, me),
    ensures
        links_wf(insert_after_spec(s, other, me)),
        insert_after_spec(s, other, me).len() == s.len(),
{
    let t = insert_after_spec(s, other, me);
    let n = s[other].next;
    assert forall|i: int| 0 <= i < t.len() implies {
        &&& (#[trigger] t[i]).next matches Some(x) ==> x.spec_index() < t.len() && x.spec_index() != i
            && t[x.spec_index() as int].prev == Some(NodeRef { index: i as usize })
        &&& t[i].prev matches Some(x) ==> x.spec_index() < t.len() && x.spec_index() != i
            && t[x.spec_index() as int].next == Some(NodeRef { index: i as usize })
    } by {
        lemma_links_at(s, i);
        lemma_links_at(s, me);
        lemma_links_at(s, other);
    }
}

/// Linking a detached node in before another keeps the links consistent.
pub proof fn lemma_insert_before_wf(s: Seq<NodeState>, other: int, me: int)
    requires
        links_wf(s),
        0 <= me < s.len(),
        0 <= other < s.len(),
        other != me,
        detached(s, me),
    ensures
        links_wf(insert_before_spec(s, other, me)),
        insert_before_spec(s, other, me).len() == s.len(),
{
    let t = insert_before_spec(s, other, me);
    let p = s[other].prev;
    assert forall|i: int| 0 <= i < t.len() implies {
        &&& (#[trigger] t[i]).next matches Some(x) ==> x.spec_index() < t.len() && x.spec_index() != i
            && t[x.spec_index() as int].prev == Some(NodeRef { index: i as usize })
        &&& t[i].prev matches Some(x) ==> x.spec_index() < t.len() && x.spec_index() != i
            && t[x.spec_index() as int].next == Some(NodeRef { index: i as usize })
    } by {
        lemma_links_at(s, i);
        lemma_links_at(s, me);
        lemma_links_at(s, other);
    }
}

/// A node that is detached and linked in again behind the node that was
/// before it stands where it stood: every link of the list is as it was,
/// and the version of the node has moved on twice.
pub proof fn lemma_detach_insert_after(s: Seq<NodeState>, x: int, n: int)
    requires
        links_wf(s),
        0 <= n < s.len(),
        0 <= x < s.len(),
        s[n].prev == Some(NodeRef { index: x as usize }),
        not_in_pair(s, n),
    ensures
        insert_after_spec(detach_spec(s, n), x, n) == s.update(
            n,
            NodeState { version: bump(bump(s[n].version)), ..s[n] },
        ),
{
    let d = detach_spec(s, n);
    let t = insert_after_spec(d, x, n);
    lemma_links_at(s, n);
    lemma_links_at(s, x);
    let r = s.update(n, NodeState { version: bump(bump(s[n].version)), ..s[n] });
    assert(d[x].next == s[n].next);
    assert forall|i: int| 0 <= i < s.len() implies t[i] == r[i] by {
        lemma_links_at(s, i);
    }
    assert(t =~= r);
}

impl<T> IlistNode<T> {
    /// Unlinks `me` from `prev` and `next`, whose locks are held: the two
    /// link to each other, and `me` has no links left.
    fn do_detach(pool: &mut NodePool<T>, me: NodeRef, prev: Option<NodeRef>, next: Option<NodeRef>)
        requires
            valid(old(pool)@, me),
            prev == old(pool)@[me.spec_index() as int].prev,
            next == old(pool)@[me.spec_index() as int].next,
            links_wf(old(pool)@),
        ensures
            final(pool).payloads() == old(pool).payloads(),
            final(pool).locks() == old(pool).locks(),
            final(pool)@ == ({
                let s = old(pool)@;
                let s1 = match prev {
                    Some(pr) => s.update(
                        pr.spec_index() as int,
                        with_links(s[pr.spec_index() as int], s[pr.spec_index() as int].prev, next),
                    ),
                    None => s,
                };
                let s2 = match next {
                    Some(nr) => s1.update(
                        nr.spec_index() as int,
                        with_links(s1[nr.spec_index() as int], prev, s1[nr.spec_index() as int].next),
                    ),
                    None => s1,
                };
                s2.update(me.spec_index() as int, with_links(s[me.spec_index() as int], None, None))
            }),
    {
        let ghost s = pool@;
        proof {
            lemma_links_at(s, me.spec_index() as int);
        }
        if let Some(p) = prev {
            let pp = pool.get(p).prev();
            pool.set_links(p, pp, next);
        }
        if let Some(n) = next {
            let nn = pool.get(n).next();
            pool.set_links(n, prev, nn);
        }
        pool.set_links(me, None, None);
    }

    /// One attempt to detach `me`, where `my_version`, if given, is the
    /// version that `me` is expected to have.
    ///
    /// The attempt takes the write locks of `me` and of its neighbours and
    /// gives them back before it returns. It is contended where one of them
    /// is held. It fails, without a change, where `me` is detached or has
    /// another version than expected.
    pub fn try_versioned_detach(pool: &mut NodePool<T>, my_version: Option<usize>, me: NodeRef) -> (r:
        Attempt)
        requires
            old(pool).wf(),
            valid(old(pool)@, me),
        ensures
            r == detach_outcome(old(pool)@, old(pool).locks(), my_version, me.spec_index() as int),
            final(pool)@ == if r == Attempt::Done(true) {
                detach_spec(old(pool)@, me.spec_index() as int)
            } else {
                old(pool)@
            },
            final(pool).payloads() == old(pool).payloads(),
            final(pool).locks() == old(pool).locks(),
            final(pool).wf(),
    {
        let ghost s = pool@;
        let ghost m = me.spec_index() as int;
        proof {
            lemma_links_at(s, m);
            pool.lemma_locks_len();
        }
        if !pool.try_write(me) {
            return Attempt::Contended;
        }
        let detached_now = pool.get(me).is_detached();
        let version = pool.get(me).version();
        let prev = pool.get(me).prev();
        let next = pool.get(me).next();
        if detached_now {
            pool.unlock_write(me);
            assert(pool.locks() =~= old(pool).locks());
            return Attempt::Done(false);
        }
        if let Some(v) = my_version {
            if v != version {
                pool.unlock_write(me);
                assert(pool.locks() =~= old(pool).locks());
                return Attempt::Done(false);
            }
        }
        if let Some(p) = prev {
            if !pool.try_write(p) {
                pool.unlock_write(me);
                assert(pool.locks() =~= old(pool).locks());
                return Attempt::Contended;
            }
        }
        if let Some(n) = next {
            if !pool.try_write(n) {
                if let Some(p) = prev {
                    pool.unlock_write(p);
                }
                pool.unlock_write(me);
                assert(pool.locks() =~= old(pool).locks());
                return Attempt::Contended;
            }
        }
        // Now we have acquired all guards.
        let ghost locked = pool@;
        Self::do_detach(pool, me, prev, next);
        pool.bump_version(me);
        if let Some(n) = next {
            pool.unlock_write(n);
        }
        if let Some(p) = prev {
            pool.unlock_write(p);
        }
        pool.unlock_write(me);
        proof {
            assert(pool.locks() =~= old(pool).locks());
            assert(pool@ =~= detach_spec(s, m));
            lemma_detach_wf(s, m);
        }
        Attempt::Done(true)
    }

    /// Detaches `me`, where `my_version`, if given, is the version that
    /// `me` is expected to have. Returns whether `me` was detached: it is
    /// not where it is detached already or has another version.
    pub fn versioned_detach(pool: &mut NodePool<T>, my_version: Option<usize>, me: NodeRef) -> (r: bool)
        requires
            old(pool).wf(),
            valid(old(pool)@, me),
            around_free(old(pool)@, old(pool).locks(), me.spec_index() as int),
            not_in_pair(old(pool)@, me.spec_index() as int),
        ensures
            r == (!detached(old(pool)@, me.spec_index() as int) && version_ok(
                old(pool)@,
                me.spec_index() as int,
                my_version,
            )),
            final(pool)@ == if r {
                detach_spec(old(pool)@, me.spec_index() as int)
            } else {
                old(pool)@
            },
            final(pool).payloads() == old(pool).payloads(),
            final(pool).wf(),
            final(pool).locks() == old(pool).locks(),
    {
        proof {
            let s = pool@;
            lemma_links_at(s, me.spec_index() as int);
            pool.lemma_locks_len();
        }
        match Self::try_versioned_detach(pool, my_version, me) {
            Attempt::Done(b) => b,
            Attempt::Contended => false,
        }
    }

    /// Detaches `me`: unlinks it from its neighbours, which link to each
    /// other. Returns `false`, without a change, where `me` is detached
    /// already.
    pub fn detach(pool: &mut NodePool<T>, me: NodeRef) -> (r: bool)
        requires
            old(pool).wf(),
            valid(old(pool)@, me),
            around_free(old(pool)@, old(pool).locks(), me.spec_index() as int),
            not_in_pair(old(pool)@, me.spec_index() as int),
        ensures
            r == !detached(old(pool)@, me.spec_index() as int),
            final(pool)@ == if r {
                detach_spec(old(pool)@, me.spec_index() as int)
            } else {
                old(pool)@
            },
            final(pool).payloads() == old(pool).payloads(),
            final(pool).wf(),
            final(pool).locks() == old(pool).locks(),
    {
        Self::versioned_detach(pool, None, me)
    }

    /// One attempt to link `me` in before `other`, where `other_version`,
    /// if given, is the version that `other` is expected to have.
    ///
    /// The attempt takes the write locks of `me`, of `other` and of the
    /// node before `other` and gives them back before it returns. It is
    /// contended where one of them is held. It fails, without a change,
    /// where `me` is not detached or `other` has another version than
    /// expected.
    pub fn try_versioned_insert_before(
        pool: &mut NodePool<T>,
        other_version: Option<usize>,
        other: NodeRef,
        me: NodeRef,
    ) -> (r: Attempt)
        requires
            old(pool).wf(),
            valid(old(pool)@, me),
            valid(old(pool)@, other),
        ensures
            r == insert_outcome(
                old(pool)@,
                old(pool).locks(),
                other_version,
                other.spec_index() as int,
                me.spec_index() as int,
                old(pool)@[other.spec_index() as int].prev,
            ),
            final(pool)@ == if r == Attempt::Done(true) {
                insert_before_spec(old(pool)@, other.spec_index() as int, me.spec_index() as int)
            } else {
                old(pool)@
            },
            final(pool).payloads() == old(pool).payloads(),
            final(pool).locks() == old(pool).locks(),
            final(pool).wf(),
    {
        let ghost s = pool@;
        let ghost m = me.spec_index() as int;
        let ghost o = other.spec_index() as int;
        proof {
            lemma_links_at(s, m);
            lemma_links_at(s, o);
            pool.lemma_locks_len();
        }
        if !pool.try_write(me) {
            return Attempt::Contended;
        }
        if !pool.get(me).is_detached() {
            pool.unlock_write(me);
            assert(pool.locks() =~= old(pool).locks());
            return Attempt::Done(false);
        }
        if !pool.try_write(other) {
            pool.unlock_write(me);
            assert(pool.locks() =~= old(pool).locks());
            return Attempt::Contended;
        }
        let version = pool.get(other).version();
        if let Some(v) = other_version {
            if version != v {
                pool.unlock_write(other);
                pool.unlock_write(me);
                assert(pool.locks() =~= old(pool).locks());
                return Attempt::Done(false);
            }
        }
        let prev = pool.get(other).prev();
        if let Some(p) = prev {
            if !pool.try_write(p) {
                pool.unlock_write(other);
                pool.unlock_write(me);
                assert(pool.locks() =~= old(pool).locks());
                return Attempt::Contended;
            }
        }
        // Now we have acquired all guards.
        let other_next = pool.get(other).next();
        pool.set_links(other, Some(me), other_next);
        if let Some(p) = prev {
            let pp = pool.get(p).prev();
            pool.set_links(p, pp, Some(me));
        }
        pool.set_links(me, prev, Some(other));
        pool.bump_version(me);
        if let Some(p) = prev {
            pool.unlock_write(p);
        }
        pool.unlock_write(other);
        pool.unlock_write(me);
        proof {
            assert(pool.locks() =~= old(pool).locks());
            assert(pool@ =~= insert_before_spec(s, o, m));
            lemma_insert_before_wf(s, o, m);
        }
        Attempt::Done(true)
    }

    /// Links `me` in before `other`, where `other_version`, if given, is
    /// the version that `other` is expected to have. Returns whether `me`
    /// was linked in: it is not where it is not detached or `other` has
    /// another version.
    pub fn versioned_insert_before(
        pool: &mut NodePool<T>,
        other_version: Option<usize>,
        other: NodeRef,
        me: NodeRef,
    ) -> (r: bool)
        requires
            old(pool).wf(),
            valid(old(pool)@, me),
            valid(old(pool)@, other),
            other != me,
            pair_free(
                old(pool).locks(),
                me.spec_index() as int,
                other.spec_index() as int,
                old(pool)@[other.spec_index() as int].prev,
            ),
        ensures
            r == (detached(old(pool)@, me.spec_index() as int) && version_ok(
                old(pool)@,
                other.spec_index() as int,
                other_version,
            )),
            final(pool)@ == if r {
                insert_before_spec(old(pool)@, other.spec_index() as int, me.spec_index() as int)
            } else {
                old(pool)@
            },
            final(pool).payloads() == old(pool).payloads(),
            final(pool).wf(),
            final(pool).locks() == old(pool).locks(),
    {
        proof {
            let s = pool@;
            lemma_links_at(s, me.spec_index() as int);
            lemma_links_at(s, other.spec_index() as int);
            pool.lemma_locks_len();
        }
        match Self::try_versioned_insert_before(pool, other_version, other, me) {
            Attempt::Done(b) => b,
            Attempt::Contended => false,
        }
    }

    /// Links the detached node `me` in before `other`. Returns `false`,
    /// without a change, where `me` is not detached.
    pub fn insert_before(pool: &mut NodePool<T>, other: NodeRef, me: NodeRef) -> (r: bool)
        requires
            old(pool).wf(),
            valid(old(pool)@, me),
            valid(old(pool)@, other),
            other != me,
            pair_free(
                old(pool).locks(),
                me.spec_index() as int,
                other.spec_index() as int,
                old(pool)@[other.spec_index() as int].prev,
            ),
        ensures
            r == detached(old(pool)@, me.spec_index() as int),
            final(pool)@ == if r {
                insert_before_spec(old(pool)@, other.spec_index() as int, me.spec_index() as int)
            } else {
                old(pool)@
            },
            final(pool).payloads() == old(pool).payloads(),
            final(pool).wf(),
            final(pool).locks() == old(pool).locks(),
    {
        Self::versioned_insert_before(pool, None, other, me)
    }

    /// One attempt to link `me` in behind `other`, where `other_version`,
    /// if given, is the version that `other` is expected to have.
    ///
    /// The attempt takes the write locks of `me`, of `other` and of the
    /// node behind `other` and gives them back before it returns. It is
    /// contended where one of them is held. It fails, without a change,
    /// where `me` is not detached or `other` has another version than
    /// expected.
    pub fn try_versioned_insert_after(
        pool: &mut NodePool<T>,
        other_version: Option<usize>,
        other: NodeRef,
        me: NodeRef,
    ) -> (r: Attempt)
        requires
            old(pool).wf(),
            valid(old(pool)@, me),
            valid(old(pool)@, other),
        ensures
            r == insert_outcome(
                old(pool)@,
                old(pool).locks(),
                other_version,
                other.spec_index() as int,
                me.spec_index() as int,
                old(pool)@[other.spec_index() as int].next,
            ),
            final(pool)@ == if r == Attempt::Done(true) {
                insert_after_spec(old(pool)@, other.spec_index() as int, me.spec_index() as int)
            } else {
                old(pool)@
            },
            final(pool).payloads() == old(pool).payloads(),
            final(pool).locks() == old(pool).locks(),
            final(pool).wf(),
    {
        let ghost s = pool@;
        let ghost m = me.spec_index() as int;
        let ghost o = other.spec_index() as int;
        proof {
            lemma_links_at(s, m);
            lemma_links_at(s, o);
            pool.lemma_locks_len();
        }
        if !pool.try_write(me) {
            return Attempt::Contended;
        }
        if !pool.get(me).is_detached() {
            pool.unlock_write(me);
            assert(pool.locks() =~= old(pool).locks());
            return Attempt::Done(false);
        }
        if !pool.try_write(other) {
            pool.unlock_write(me);
            assert(pool.locks() =~= old(pool).locks());
            return Attempt::Contended;
        }
        let version = pool.get(other).version();
        if let Some(v) = other_version {
            if version != v {
                pool.unlock_write(other);
                pool.unlock_write(me);
                assert(pool.locks() =~= old(pool).locks());
                return Attempt::Done(false);
            }
        }
        let next = pool.get(other).next();
        if let Some(n) = next {
            if !pool.try_write(n) {
                pool.unlock_write(other);
                pool.unlock_write(me);
                assert(pool.locks() =~= old(pool).locks());
                return Attempt::Contended;
            }
        }
        // Now we have acquired all guards.
        let other_prev = pool.get(other).prev();
        pool.set_links(other, other_prev, Some(me));
        if let Some(n) = next {
            let nn = pool.get(n).next();
            pool.set_links(n, Some(me), nn);
        }
        pool.set_links(me, Some(other), next);
        pool.bump_version(me);
        if let Some(n) = next {
            pool.unlock_write(n);
        }
        pool.unlock_write(other);
        pool.unlock_write(me);
        proof {
            assert(pool.locks() =~= old(pool).locks());
            assert(pool@ =~= insert_after_spec(s, o, m));
            lemma_insert_after_wf(s, o, m);
        }
        Attempt::Done(true)
    }

    /// Links `me` in behind `other`, where `other_version`, if given, is
    /// the version that `other` is expected to have. Returns whether `me`
    /// was linked in: it is not where it is not detached or `other` has
    /// another version.
    pub fn versioned_insert_after(
        pool: &mut NodePool<T>,
        other_version: Option<usize>,
        other: NodeRef,
        me: NodeRef,
    ) -> (r: bool)
        requires
            old(pool).wf(),
            valid(old(pool)@, me),
            valid(old(pool)@, other),
            other != me,
            pair_free(
                old(pool).locks(),
                me.spec_index() as int,
                other.spec_index() as int,
                old(pool)@[other.spec_index() as int].next,
            ),
        ensures
            r == (detached(old(pool)@, me.spec_index() as int) && version_ok(
                old(pool)@,
                other.spec_index() as int,
                other_version,
            )),
            final(pool)@ == if r {
                insert_after_spec(old(pool)@, other.spec_index() as int, me.spec_index() as int)
            } else {
                old(pool)@
            },
            final(pool).payloads() == old(pool).payloads(),
            final(pool).wf(),
            final(pool).locks() == old(pool).locks(),
    {
        proof {
            let s = pool@;
            lemma_links_at(s, me.spec_index() as int);
            lemma_links_at(s, other.spec_index() as int);
            pool.lemma_locks_len();
        }
        match Self::try_versioned_insert_after(pool, other_version, other, me) {
            Attempt::Done(b) => b,
            Attempt::Contended => false,
        }
    }

    /// Links the detached node `me` in behind `other`. Returns `false`,
    /// without a change, where `me` is not detached.
    pub fn insert_after(pool: &mut NodePool<T>, other: NodeRef, me: NodeRef) -> (r: bool)
        requires
            old(pool).wf(),
            valid(old(pool)@, me),
            valid(old(pool)@, other),
            other != me,
            pair_free(
                old(pool).locks(),
                me.spec_index() as int,
                other.spec_index() as int,
                old(pool)@[other.spec_index() as int].next,
            ),
        ensures
            r == detached(old(pool)@, me.spec_index() as int),
            final(pool)@ == if r {
                insert_after_spec(old(pool)@, other.spec_index() as int, me.spec_index() as int)
            } else {
                old(pool)@
            },
            final(pool).payloads() == old(pool).payloads(),
            final(pool).wf(),
            final(pool).locks() == old(pool).locks(),
    {
        Self::versioned_insert_after(pool, None, other, me)
    }

    /// One attempt to detach the node behind `me`.
    ///
    /// The attempt reads the version of that node under the locks of both
    /// nodes, gives the locks back, and detaches the node if it still has
    /// that version. It is contended where a lock that it needs is held.
    pub fn try_remove_after(pool: &mut NodePool<T>, me: NodeRef) -> (r: Removal)
        requires
            old(pool).wf(),
            valid(old(pool)@, me),
        ensures
            r == remove_outcome(old(pool)@, old(pool).locks(), me.spec_index() as int),
            final(pool)@ == match r {
                Removal::Removed(n) => detach_spec(old(pool)@, n.spec_index() as int),
                _ => old(pool)@,
            },
            final(pool).payloads() == old(pool).payloads(),
            final(pool).locks() == old(pool).locks(),
            final(pool).wf(),
    {
        let ghost s = pool@;
        proof {
            lemma_links_at(s, me.spec_index() as int);
            pool.lemma_locks_len();
        }
        if !pool.try_write(me) {
            return Removal::Contended;
        }
        let next = match pool.get(me).next() {
            Some(n) => n,
            None => {
                pool.unlock_write(me);
                assert(pool.locks() =~= old(pool).locks());
                return Removal::Nothing;
            },
        };
        if !pool.try_write(next) {
            pool.unlock_write(me);
            assert(pool.locks() =~= old(pool).locks());
            return Removal::Contended;
        }
        let version = pool.get(next).version();
        pool.unlock_write(next);
        pool.unlock_write(me);
        assert(pool.locks() =~= old(pool).locks());
        match Self::try_versioned_detach(pool, Some(version), next) {
            Attempt::Done(true) => Removal::Removed(next),
            _ => Removal::Contended,
        }
    }

    /// Detaches the node behind `me` and returns it, if there is one.
    pub fn remove_after(pool: &mut NodePool<T>, me: NodeRef) -> (r: Option<NodeRef>)
        requires
            old(pool).wf(),
            valid(old(pool)@, me),
            can_write(old(pool).locks(), me.spec_index() as int),
            old(pool)@[me.spec_index() as int].next matches Some(n) ==> around_free(
                old(pool)@,
                old(pool).locks(),
                n.spec_index() as int,
            ),
            old(pool)@[me.spec_index() as int].next matches Some(n) ==> not_in_pair(
                old(pool)@,
                n.spec_index() as int,
            ),
        ensures
            r == old(pool)@[me.spec_index() as int].next,
            final(pool)@ == match r {
                Some(n) => detach_spec(old(pool)@, n.spec_index() as int),
                None => old(pool)@,
            },
            final(pool).payloads() == old(pool).payloads(),
            final(pool).wf(),
            final(pool).locks() == old(pool).locks(),
    {
        proof {
            let s = pool@;
            lemma_links_at(s, me.spec_index() as int);
            pool.lemma_locks_len();
        }
        match Self::try_remove_after(pool, me) {
            Removal::Removed(n) => Some(n),
            _ => None,
        }
    }
}

/// An iterator that holds the write lock of the head while it walks the
/// nodes behind it.
pub struct MutexIter {
    head: NodeRef,
    current: Option<NodeRef>,
}

impl MutexIter {
    /// The node whose write lock the iterator holds.
    pub closed spec fn spec_head(&self) -> NodeRef {
        self.head
    }

    /// The node that the iterator yields next.
    pub closed spec fn spec_current(&self) -> Option<NodeRef> {
        self.current
    }

    /// Takes the write lock of `head` and starts at the node behind it.
    pub fn new<T>(pool: &mut NodePool<T>, head: NodeRef) -> (it: MutexIter)
        requires
            old(pool).wf(),
            valid(old(pool)@, head),
            can_write(old(pool).locks(), head.spec_index() as int),
        ensures
            it.spec_head() == head,
            it.spec_current() == old(pool)@[head.spec_index() as int].next,
            final(pool)@ == old(pool)@,
            final(pool).payloads() == old(pool).payloads(),
            final(pool).locks() == old(pool).locks().update(
                head.spec_index() as int,
                LockState { writer: true, readers: 0 },
            ),
    {
        let _ = pool.try_write(head);
        let current = pool.get(head).next();
        MutexIter { head, current }
    }

    /// Yields the current node and moves on to the node behind it.
    pub fn next<T>(&mut self, pool: &NodePool<T>) -> (r: Option<NodeRef>)
        requires
            pool.wf(),
            old(self).spec_current() matches Some(c) ==> valid(pool@, c) && !pool.locks()[c.spec_index() as int].writer,
        ensures
            r == old(self).spec_current(),
            final(self).spec_head() == old(self).spec_head(),
            final(self).spec_current() == match r {
                Some(c) => pool@[c.spec_index() as int].next,
                None => None,
            },
            final(self).spec_current() matches Some(c) ==> valid(pool@, c),
    {
        let current = match self.current {
            Some(c) => c,
            None => {
                return None;
            },
        };
        proof {
            lemma_links_at(pool@, current.spec_index() as int);
        }
        self.current = pool.get(current).next();
        Some(current)
    }

    /// Gives the write lock of the head back.
    pub fn finish<T>(self, pool: &mut NodePool<T>)
        requires
            valid(old(pool)@, self.spec_head()),
        ensures
            final(pool)@ == old(pool)@,
            final(pool).payloads() == old(pool).payloads(),
            final(pool).locks() == old(pool).locks().update(
                self.spec_head().spec_index() as int,
                LockState { writer: false, ..old(pool).locks()[self.spec_head().spec_index() as int] },
            ),
    {
        pool.unlock_write(self.head);
    }
}

/// An iterator that yields nodes with their versions, and stops where the
/// node that it stands at was restructured since it was yielded.
pub struct VerIter {
    current: NodeRef,
    version: u8,
}

impl VerIter {
    /// The node that the iterator stands at.
    pub closed spec fn spec_current(&self) -> NodeRef {
        self.current
    }

    /// The version that the node had when the iterator came to it.
    pub closed spec fn spec_version(&self) -> u8 {
        self.version
    }

    /// An iterator that stands at `head`.
    pub fn new<T>(pool: &NodePool<T>, head: NodeRef) -> (it: VerIter)
        requires
            valid(pool@, head),
            !pool.locks()[head.spec_index() as int].writer,
        ensures
            it.spec_current() == head,
            it.spec_version() == pool@[head.spec_index() as int].version,
    {
        let version = pool.get(head).version() as u8;
        VerIter { version, current: head }
    }

    /// Moves on to the node behind the current one and yields it with its
    /// version. Yields nothing where the current node has another version
    /// than when the iterator came to it, or has no node behind it.
    pub fn next<T>(&mut self, pool: &NodePool<T>) -> (r: Option<(usize, NodeRef)>)
        requires
            pool.wf(),
            valid(pool@, old(self).spec_current()),
            !pool.locks()[old(self).spec_current().spec_index() as int].writer,
            pool@[old(self).spec_current().spec_index() as int].next matches Some(n)
                ==> !pool.locks()[n.spec_index() as int].writer,
        ensures
            ({
                let c = old(self).spec_current().spec_index() as int;
                if pool@[c].version != old(self).spec_version() {
                    r is None && *final(self) == *old(self)
                } else {
                    match pool@[c].next {
                        None => r is None && *final(self) == *old(self),
                        Some(n) => {
                            &&& r == Some((pool@[n.spec_index() as int].version as usize, n))
                            &&& final(self).spec_current() == n
                            &&& final(self).spec_version() == pool@[n.spec_index() as int].version
                            &&& valid(pool@, n)
                        },
                    }
                }
            }),
    {
        proof {
            lemma_links_at(pool@, self.current.spec_index() as int);
        }
        let node = pool.get(self.current);
        if node.version() != self.version as usize {
            return None;
        }
        let next = match node.next() {
            Some(n) => n,
            None => {
                return None;
            },
        };
        let version = pool.get(next).version();
        self.current = next;
        self.version = version as u8;
        Some((version, next))
    }
}

/// The node that `k` steps along the `next` links lead to from `from`.
pub open spec fn walk_next(s: Seq<NodeState>, from: NodeRef, k: nat) -> Option<NodeRef>
    decreases k,
{
    if k == 0 {
        Some(from)
    } else {
        match walk_next(s, from, (k - 1) as nat) {
            Some(x) => s[x.spec_index() as int].next,
            None => None,
        }
    }
}

/// The node that `k` steps along the `prev` links lead to from `from`.
pub open spec fn walk_prev(s: Seq<NodeState>, from: NodeRef, k: nat) -> Option<NodeRef>
    decreases k,
{
    if k == 0 {
        Some(from)
    } else {
        match walk_prev(s, from, (k - 1) as nat) {
            Some(x) => s[x.spec_index() as int].prev,
            None => None,
        }
    }
}

/// The nodes of `order` are linked into one chain, each once, from the
/// first, which has no previous, to the last, which has no next.
pub open spec fn chain(s: Seq<NodeState>, order: Seq<NodeRef>) -> bool {
    &&& forall|k: int| 0 <= k < order.len() ==> valid(s, #[trigger] order[k])
    &&& forall|k: int|
        0 <= k < order.len() ==> s[(#[trigger] order[k]).spec_index() as int].next == if k + 1
            < order.len() {
            Some(order[k + 1])
        } else {
            None
        }
    &&& forall|k: int|
        0 <= k < order.len() ==> s[(#[trigger] order[k]).spec_index() as int].prev == if k > 0 {
            Some(order[k - 1])
        } else {
            None
        }
    &&& forall|j: int, k: int| 0 <= j < k < order.len() ==> #[trigger] order[j] != #[trigger] order[k]
}

/// A walk along the `next` links of a chain visits its nodes in order.
pub proof fn lemma_walk_next(s: Seq<NodeState>, order: Seq<NodeRef>, k: nat)
    requires
        chain(s, order),
        order.len() > 0,
        k <= order.len(),
    ensures
        walk_next(s, order[0], k) == if k < order.len() {
            Some(order[k as int])
        } else {
            None
        },
    decreases k,
{
    if k > 0 {
        lemma_walk_next(s, order, (k - 1) as nat);
        let x = order[k - 1];
    }
}

/// A walk along the `prev` links of a chain visits its nodes in reverse
/// order.
pub proof fn lemma_walk_prev(s: Seq<NodeState>, order: Seq<NodeRef>, k: nat)
    requires
        chain(s, order),
        order.len() > 0,
        k <= order.len(),
    ensures
        walk_prev(s, order.last(), k) == if k < order.len() {
            Some(order[order.len() - 1 - k])
        } else {
            None
        },
    decreases k,
{
    if k > 0 {
        lemma_walk_prev(s, order, (k - 1) as nat);
        let x = order[order.len() - k];
    }
}

/// A detached node that is linked in before the last node of a chain is
/// the last but one node of the chain.
pub proof fn lemma_push_back_chain(s: Seq<NodeState>, o: Seq<NodeRef>, n: NodeRef)
    requires
        links_wf(s),
        chain(s, o),
        o.len() >= 2,
        valid(s, n),
        detached(s, n.spec_index() as int),
    ensures
        chain(
            insert_before_spec(s, o.last().spec_index() as int, n.spec_index() as int),
            o.insert(o.len() - 1, n),
        ),
        o.insert(o.len() - 1, n).len() == o.len() + 1,
        o.insert(o.len() - 1, n)[0] == o[0],
        o.insert(o.len() - 1, n).last() == o.last(),
{
    let last = o.len() - 1;
    let o2 = o.insert(last, n);
    let t = insert_before_spec(s, o.last().spec_index() as int, n.spec_index() as int);
    let tail = o[last];
    let before = o[last - 1];
    assert(s[tail.spec_index() as int].prev == Some(before));
    assert forall|k: int| 0 <= k < o.len() implies (#[trigger] o[k]) != n by {
        if k == 0 {
            assert(s[o[0].spec_index() as int].next == Some(o[1]));
        } else {
            assert(s[o[k].spec_index() as int].prev == Some(o[k - 1]));
        }
    }
    assert forall|k: int| 0 <= k < o2.len() implies valid(t, #[trigger] o2[k]) by {
        if k < last {
            assert(o2[k] == o[k]);
        } else if k > last {
            assert(o2[k] == o[k - 1]);
        }
    }
    assert forall|k: int| 0 <= k < o2.len() implies t[(#[trigger] o2[k]).spec_index() as int].next
        == if k + 1 < o2.len() {
        Some(o2[k + 1])
    } else {
        None
    } by {
        if k < last {
            assert(o2[k] == o[k]);
            assert(o[k] != o[last]);
            assert(o[k] != n);
            if k < last - 1 {
                assert(o[k] != o[last - 1]);
                assert(o2[k + 1] == o[k + 1]);
            }
        } else if k > last {
            assert(o2[k] == o[last]);
        }
    }
    assert forall|k: int| 0 <= k < o2.len() implies t[(#[trigger] o2[k]).spec_index() as int].prev
        == if k > 0 {
        Some(o2[k - 1])
    } else {
        None
    } by {
        if k < last {
            assert(o2[k] == o[k]);
            assert(o[k] != o[last]);
            assert(o[k] != n);
            if k < last - 1 {
                assert(o[k] != o[last - 1]);
            }
            if k > 0 {
                assert(o2[k - 1] == o[k - 1]);
            }
        } else if k > last {
            assert(o2[k] == o[last]);
        }
    }
    assert forall|j: int, k: int| 0 <= j < k < o2.len() implies #[trigger] o2[j] != #[trigger] o2[k] by {
        let j0 = if j > last {
            j - 1
        } else {
            j
        };
        let k0 = if k > last {
            k - 1
        } else {
            k
        };
        if j != last && k != last {
            assert(o[j0] != o[k0]);
        } else if j == last {
            assert(o[k0] != n);
        } else {
            assert(o[j0] != n);
        }
    }
}

/// The second node of a chain of three nodes or more can be detached, and
/// what is left is a chain.
pub proof fn lemma_pop_front_chain(s: Seq<NodeState>, o: Seq<NodeRef>)
    requires
        links_wf(s),
        chain(s, o),
        o.len() >= 3,
    ensures
        s[o[0].spec_index() as int].next == Some(o[1]),
        valid(s, o[1]),
        not_in_pair(s, o[1].spec_index() as int),
        chain(detach_spec(s, o[1].spec_index() as int), o.remove(1)),
        o.remove(1).len() == o.len() - 1,
        o.remove(1)[0] == o[0],
        o.remove(1).last() == o.last(),
{
    let o2 = o.remove(1);
    let t = detach_spec(s, o[1].spec_index() as int);
    assert(s[o[0].spec_index() as int].next == Some(o[1]));
    assert(s[o[1].spec_index() as int].prev == Some(o[0]));
    assert(s[o[1].spec_index() as int].next == Some(o[2]));
    assert(o[0] != o[2]);
    assert(o[0] != o[1]);
    assert(o[1] != o[2]);
    assert forall|k: int| 0 <= k < o2.len() implies valid(t, #[trigger] o2[k]) by {
        if k < 1 {
            assert(o2[k] == o[k]);
        } else {
            assert(o2[k] == o[k + 1]);
        }
    }
    assert forall|k: int| 0 <= k < o2.len() implies t[(#[trigger] o2[k]).spec_index() as int].next
        == if k + 1 < o2.len() {
        Some(o2[k + 1])
    } else {
        None
    } by {
        let k0 = if k >= 1 {
            k + 1
        } else {
            k
        };
        assert(o2[k] == o[k0]);
        assert(o[k0] != o[1]);
        if k0 != 0 {
            assert(o[k0] != o[0]);
        }
        if k0 != 2 {
            assert(o[k0] != o[2]);
        }
        if k + 1 < o2.len() {
            assert(o2[k + 1] == o[k + 2]);
        }
    }
    assert forall|k: int| 0 <= k < o2.len() implies t[(#[trigger] o2[k]).spec_index() as int].prev
        == if k > 0 {
        Some(o2[k - 1])
    } else {
        None
    } by {
        let k0 = if k >= 1 {
            k + 1
        } else {
            k
        };
        assert(o2[k] == o[k0]);
        assert(o[k0] != o[1]);
        if k0 != 0 {
            assert(o[k0] != o[0]);
        }
        if k0 != 2 {
            assert(o[k0] != o[2]);
        }
        if k > 1 {
            assert(o2[k - 1] == o[k0 - 1]);
        }
    }
    assert forall|j: int, k: int| 0 <= j < k < o2.len() implies #[trigger] o2[j] != #[trigger] o2[k] by {
        let j0 = if j >= 1 {
            j + 1
        } else {
            j
        };
        let k0 = if k >= 1 {
            k + 1
        } else {
            k
        };
        assert(o[j0] != o[k0]);
    }
}

/// Two chains of the same nodes that start at one node are one chain.
pub proof fn lemma_chain_unique(s: Seq<NodeState>, o1: Seq<NodeRef>, o2: Seq<NodeRef>)
    requires
        chain(s, o1),
        chain(s, o2),
        o1.len() > 0,
        o2.len() > 0,
        o1[0] == o2[0],
    ensures
        o1 == o2,
{
    if o1.len() < o2.len() {
        lemma_walk_next(s, o1, o1.len());
        lemma_walk_next(s, o2, o1.len());
    } else if o2.len() < o1.len() {
        lemma_walk_next(s, o1, o2.len());
        lemma_walk_next(s, o2, o2.len());
    }
    assert forall|k: int| 0 <= k < o1.len() implies o1[k] == o2[k] by {
        lemma_walk_next(s, o1, k as nat);
        lemma_walk_next(s, o2, k as nat);
    }
    assert(o1 =~= o2);
}

/// The nodes of `o` are a list between the sentinels `head` and `tail`:
/// one chain that starts at `head` and ends at `tail`.
pub open spec fn is_list(s: Seq<NodeState>, head: NodeRef, tail: NodeRef, o: Seq<NodeRef>) -> bool {
    &&& o.len() >= 2
    &&& o[0] == head
    &&& o.last() == tail
    &&& chain(s, o)
}

/// A list between two sentinel nodes.
pub struct Ilist {
    head: NodeRef,
    tail: NodeRef,
}

impl Ilist {
    /// The nodes of the list in `pool` from the head sentinel to the tail
    /// sentinel.
    pub open spec fn members<T>(&self, pool: &NodePool<T>) -> Seq<NodeRef> {
        choose|o: Seq<NodeRef>| is_list(pool@, self.spec_head(), self.spec_tail(), o)
    }

    /// The head sentinel.
    pub closed spec fn spec_head(&self) -> NodeRef {
        self.head
    }

    /// The tail sentinel.
    pub closed spec fn spec_tail(&self) -> NodeRef {
        self.tail
    }

    /// The links of `pool` are consistent, and they make one chain from
    /// the head sentinel to the tail sentinel.
    pub open spec fn wf<T>(&self, pool: &NodePool<T>) -> bool {
        &&& pool.wf()
        &&& exists|o: Seq<NodeRef>| is_list(pool@, self.spec_head(), self.spec_tail(), o)
    }

    /// The members of a list are the nodes of the chain between its
    /// sentinels, whichever way the chain was made: a chain from the head
    /// sentinel to the tail sentinel shows that the list is consistent, and
    /// its nodes are the members.
    pub proof fn lemma_members<T>(&self, pool: &NodePool<T>, o: Seq<NodeRef>)
        requires
            pool.wf(),
            is_list(pool@, self.spec_head(), self.spec_tail(), o),
        ensures
            self.wf(pool),
            self.members(pool) == o,
    {
        lemma_chain_unique(pool@, self.members(pool), o);
    }

    /// The members of a consistent list are a chain from the head sentinel
    /// to the tail sentinel.
    pub proof fn lemma_is_list<T>(&self, pool: &NodePool<T>)
        requires
            self.wf(pool),
        ensures
            is_list(pool@, self.spec_head(), self.spec_tail(), self.members(pool)),
    {
    }

    /// An empty list: two sentinels, the tail linked in behind the head.
    pub fn new<T>(pool: &mut NodePool<T>) -> (list: Ilist)
        requires
            old(pool).wf(),
            old(pool)@.len() + 2 <= usize::MAX,
        ensures
            list.wf(final(pool)),
            list.members(final(pool)) == seq![list.spec_head(), list.spec_tail()],
            list.spec_head().spec_index() == old(pool)@.len(),
            list.spec_tail().spec_index() == old(pool)@.len() + 1,
            final(pool)@.len() == old(pool)@.len() + 2,
            forall|i: int| 0 <= i < old(pool)@.len() ==> final(pool)@[i] == old(pool)@[i],
            final(pool).locks() == old(pool).locks().push(LockState { writer: false, readers: 0 }).push(
                LockState { writer: false, readers: 0 },
            ),
            final(pool).payloads() == old(pool).payloads().push(None).push(None),
    {
        let head = pool.insert(IlistNode::<T>::default());
        let tail = pool.insert(IlistNode::<T>::default());
        proof {
            pool.lemma_locks_len();
            old(pool).lemma_locks_len();
            assert(can_write(pool.locks(), head.spec_index() as int));
            assert(can_write(pool.locks(), tail.spec_index() as int));
        }
        let _ = IlistNode::<T>::insert_after(pool, head, tail);
        let ghost order = seq![head, tail];
        proof {
            let s = pool@;
            assert(order[0] == head && order[1] == tail);
            assert forall|k: int| 0 <= k < order.len() implies s[(#[trigger] order[k]).spec_index() as int].next
                == if k + 1 < order.len() {
                Some(order[k + 1])
            } else {
                None
            } by {}
            assert forall|k: int| 0 <= k < order.len() implies s[(#[trigger] order[k]).spec_index() as int].prev
                == if k > 0 {
                Some(order[k - 1])
            } else {
                None
            } by {}
        }
        let list = Ilist { head, tail };
        proof {
            list.lemma_members(pool, order);
        }
        list
    }

    /// The head sentinel.
    pub fn head(&self) -> (r: NodeRef)
        ensures
            r == self.spec_head(),
    {
        self.head
    }

    /// The tail sentinel.
    pub fn tail(&self) -> (r: NodeRef)
        ensures
            r == self.spec_tail(),
    {
        self.tail
    }

    /// Tells whether the list holds the two sentinels only.
    pub fn is_empty<T>(&self, pool: &NodePool<T>) -> (r: bool)
        requires
            self.wf(pool),
        ensures
            r == (self.members(pool).len() == 2),
    {
        proof {
            let o = self.members(pool);
            assert(o[0] == self.head);
            assert(o[1] == o[1]);
            if o.len() > 2 {
                assert(o[1] != o[o.len() - 1]);
            }
        }
        match pool.get(self.head).next() {
            Some(v) => v.is(&self.tail),
            None => false,
        }
    }

    /// Links the detached node `n` in before the tail sentinel. The list
    /// stays as it is where `n` is not detached.
    pub fn push_back<T>(&mut self, pool: &mut NodePool<T>, n: NodeRef)
        requires
            old(self).wf(old(pool)),
            valid(old(pool)@, n),
            pair_free(
                old(pool).locks(),
                n.spec_index() as int,
                old(self).spec_tail().spec_index() as int,
                old(pool)@[old(self).spec_tail().spec_index() as int].prev,
            ),
        ensures
            final(self).wf(final(pool)),
            final(self).spec_head() == old(self).spec_head(),
            final(self).spec_tail() == old(self).spec_tail(),
            final(pool).payloads() == old(pool).payloads(),
            final(pool).locks() == old(pool).locks(),
            if detached(old(pool)@, n.spec_index() as int) {
                &&& final(self).members(final(pool)) == old(self).members(old(pool)).insert(
                    old(self).members(old(pool)).len() - 1,
                    n,
                )
                &&& final(pool)@ == insert_before_spec(
                    old(pool)@,
                    old(self).spec_tail().spec_index() as int,
                    n.spec_index() as int,
                )
            } else {
                &&& final(self).members(final(pool)) == old(self).members(old(pool))
                &&& final(pool)@ == old(pool)@
            },
    {
        let ghost s = pool@;
        let ghost o = self.members(pool);
        if n.is(&self.tail) {
            proof {
                assert(o[o.len() - 1] == self.tail);
            }
            return;
        }
        let linked = IlistNode::<T>::insert_before(pool, self.tail, n);
        if linked {
            proof {
                lemma_push_back_chain(s, o, n);
                self.lemma_members(pool, o.insert(o.len() - 1, n));
            }
        }
    }

    /// Detaches the first node behind the head sentinel and returns it.
    /// Returns nothing where the list is empty: the sentinels stay.
    pub fn pop_front<T>(&mut self, pool: &mut NodePool<T>) -> (r: Option<NodeRef>)
        requires
            old(self).wf(old(pool)),
            can_write(old(pool).locks(), old(self).spec_head().spec_index() as int),
            old(self).members(old(pool)).len() > 2 ==> around_free(
                old(pool)@,
                old(pool).locks(),
                old(self).members(old(pool))[1].spec_index() as int,
            ),
        ensures
            final(self).wf(final(pool)),
            final(self).spec_head() == old(self).spec_head(),
            final(self).spec_tail() == old(self).spec_tail(),
            final(pool).payloads() == old(pool).payloads(),
            final(pool).locks() == old(pool).locks(),
            if old(self).members(old(pool)).len() == 2 {
                &&& r is None
                &&& final(self).members(final(pool)) == old(self).members(old(pool))
                &&& final(pool)@ == old(pool)@
            } else {
                &&& r == Some(old(self).members(old(pool))[1])
                &&& final(self).members(final(pool)) == old(self).members(old(pool)).remove(1)
                &&& final(pool)@ == detach_spec(
                    old(pool)@,
                    old(self).members(old(pool))[1].spec_index() as int,
                )
            },
    {
        if self.is_empty(pool) {
            return None;
        }
        let ghost s = pool@;
        let ghost o = self.members(pool);
        proof {
            assert(o[0] == self.head);
            lemma_pop_front_chain(s, o);
        }
        let r = IlistNode::<T>::remove_after(pool, self.head);
        proof {
            self.lemma_members(pool, o.remove(1));
        }
        r
    }

    /// From the head sentinel the `next` links lead through the members in
    /// order to the tail sentinel, and from the tail sentinel the `prev`
    /// links lead through the same members in reverse order to the head
    /// sentinel: either walk takes one step less than there are members,
    /// and ends behind the sentinel that it reaches.
    pub proof fn lemma_reachability<T>(&self, pool: &NodePool<T>)
        requires
            self.wf(pool),
        ensures
            forall|k: nat|
                k < self.members(pool).len() ==> #[trigger] walk_next(pool@, self.spec_head(), k) == Some(
                    self.members(pool)[k as int],
                ),
            forall|k: nat|
                k < self.members(pool).len() ==> #[trigger] walk_prev(pool@, self.spec_tail(), k) == Some(
                    self.members(pool)[self.members(pool).len() - 1 - k],
                ),
            walk_next(pool@, self.spec_head(), (self.members(pool).len() - 1) as nat) == Some(
                self.spec_tail(),
            ),
            walk_prev(pool@, self.spec_tail(), (self.members(pool).len() - 1) as nat) == Some(
                self.spec_head(),
            ),
            walk_next(pool@, self.spec_head(), self.members(pool).len()) is None,
            walk_prev(pool@, self.spec_tail(), self.members(pool).len()) is None,
    {
        let o = self.members(pool);
        assert forall|k: nat| k < o.len() implies #[trigger] walk_next(pool@, self.spec_head(), k)
            == Some(o[k as int]) by {
            lemma_walk_next(pool@, o, k);
        }
        assert forall|k: nat| k < o.len() implies #[trigger] walk_prev(pool@, self.spec_tail(), k)
            == Some(o[o.len() - 1 - k]) by {
            lemma_walk_prev(pool@, o, k);
        }
        lemma_walk_next(pool@, o, (o.len() - 1) as nat);
        lemma_walk_prev(pool@, o, (o.len() - 1) as nat);
        lemma_walk_next(pool@, o, o.len());
        lemma_walk_prev(pool@, o, o.len());
    }
}

} // verus!
