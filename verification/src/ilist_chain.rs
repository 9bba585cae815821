//! What many insertions leave of a list. Nodes that are linked in behind
//! the head, one after another and in whatever order their threads come
//! to it, all end up in the chain between the sentinels, each once.

use vstd::prelude::*;
use crate::ilist::{
    chain, detach_spec, detached, insert_after_spec, insert_before_spec, lemma_detach_wf,
    lemma_insert_after_wf, links_wf, not_in_pair, valid, Ilist, NodePool, NodeRef, NodeState,
};

verus! {

/// The nodes after every node of `nodes` was linked in behind `head`, the
/// first of them first.
pub open spec fn insert_all_after(s: Seq<NodeState>, head: int, nodes: Seq<NodeRef>) -> Seq<NodeState>
    decreases nodes.len(),
{
    if nodes.len() == 0 {
        s
    } else {
        insert_all_after(
            insert_after_spec(s, head, nodes[0].spec_index() as int),
            head,
            nodes.drop_first(),
        )
    }
}

/// The members of a chain after every node of `nodes` was linked in
/// behind its first member, the first of them first: the node that came
/// last stands next to the first member.
pub open spec fn pushed_front(order: Seq<NodeRef>, nodes: Seq<NodeRef>) -> Seq<NodeRef>
    decreases nodes.len(),
{
    if nodes.len() == 0 {
        order
    } else {
        pushed_front(order.insert(1, nodes[0]), nodes.drop_first())
    }
}

/// The handle is one of `nodes`.
pub open spec fn among(nodes: Seq<NodeRef>, n: NodeRef) -> bool {
    exists|k: int| 0 <= k < nodes.len() && #[trigger] nodes[k] == n
}

/// A detached node is no member of a chain of two nodes or more.
pub proof fn lemma_detached_outside(s: Seq<NodeState>, o: Seq<NodeRef>, n: NodeRef)
    requires
        chain(s, o),
        o.len() >= 2,
        detached(s, n.spec_index() as int),
    ensures
        !among(o, n),
{
    assert forall|k: int| 0 <= k < o.len() implies (#[trigger] o[k]) != n by {
        if k == 0 {
            assert(s[o[0].spec_index() as int].next == Some(o[1]));
        } else {
            assert(s[o[k].spec_index() as int].prev == Some(o[k - 1]));
        }
    }
}

/// A detached node that is linked in behind the first node of a chain is
/// the second node of the chain.
pub proof fn lemma_push_front_chain(s: Seq<NodeState>, o: Seq<NodeRef>, n: NodeRef)
    requires
        links_wf(s),
        chain(s, o),
        o.len() >= 2,
        valid(s, n),
        detached(s, n.spec_index() as int),
    ensures
        chain(insert_after_spec(s, o[0].spec_index() as int, n.spec_index() as int), o.insert(1, n)),
        links_wf(insert_after_spec(s, o[0].spec_index() as int, n.spec_index() as int)),
        insert_after_spec(s, o[0].spec_index() as int, n.spec_index() as int).len() == s.len(),
        o.insert(1, n).len() == o.len() + 1,
        o.insert(1, n)[0] == o[0],
        o.insert(1, n).last() == o.last(),
{
    let o2 = o.insert(1, n);
    let head = o[0];
    let second = o[1];
    let t = insert_after_spec(s, head.spec_index() as int, n.spec_index() as int);
    lemma_detached_outside(s, o, n);
    assert(o[0] != n);
    assert(o[1] != n);
    assert(valid(s, o[0]));
    assert(valid(s, o[1]));
    assert(o[0] != o[1]);
    lemma_insert_after_wf(s, head.spec_index() as int, n.spec_index() as int);
    assert(s[head.spec_index() as int].next == Some(second));
    assert(n == NodeRef { index: n.spec_index() });
    assert forall|k: int| 0 <= k < o2.len() implies valid(t, #[trigger] o2[k]) by {
        if k == 0 {
            assert(o2[k] == o[0]);
        } else if k > 1 {
            assert(o2[k] == o[k - 1]);
            assert(valid(s, o[k - 1]));
        }
    }
    assert forall|k: int| 0 <= k < o2.len() implies t[(#[trigger] o2[k]).spec_index() as int].next
        == if k + 1 < o2.len() {
        Some(o2[k + 1])
    } else {
        None
    } by {
        if k == 0 {
            assert(o2[0] == head);
        } else if k == 1 {
            assert(o2[2] == second);
        } else {
            assert(o2[k] == o[k - 1]);
            assert(o[k - 1] != n);
            assert(o[0] != o[k - 1]);
            assert(valid(s, o[k - 1]));
            assert(s[o[k - 1].spec_index() as int].next == if k < o.len() {
                Some(o[k])
            } else {
                None
            });
            if k + 1 < o2.len() {
                assert(o2[k + 1] == o[k]);
            }
        }
    }
    assert forall|k: int| 0 <= k < o2.len() implies t[(#[trigger] o2[k]).spec_index() as int].prev
        == if k > 0 {
        Some(o2[k - 1])
    } else {
        None
    } by {
        if k == 0 {
            assert(o2[0] == head);
            assert(s[o[0].spec_index() as int].prev is None);
        } else if k == 1 {
            assert(o2[0] == head);
        } else if k == 2 {
            assert(o2[2] == second);
            assert(o2[1] == n);
        } else {
            assert(o2[k] == o[k - 1]);
            assert(o2[k - 1] == o[k - 2]);
            assert(o[k - 1] != n);
            assert(o[0] != o[k - 1]);
            assert(o[1] != o[k - 1]);
            assert(valid(s, o[k - 1]));
            assert(s[o[k - 1].spec_index() as int].prev == Some(o[k - 2]));
        }
    }
    assert forall|j: int, k: int| 0 <= j < k < o2.len() implies #[trigger] o2[j] != #[trigger] o2[k] by {
        let j0 = if j > 1 {
            j - 1
        } else {
            j
        };
        let k0 = if k > 1 {
            k - 1
        } else {
            k
        };
        if j != 1 && k != 1 {
            assert(o[j0] != o[k0]);
        } else if j == 1 {
            assert(o[k0] != n);
        } else {
            assert(o[j0] != n);
        }
    }
}

/// Detached nodes, no two of them the same, that are linked in behind the
/// first node of a chain one after another are all in the chain
/// afterwards, each once, together with the nodes that were there: the
/// chain is longer by their number, and it starts and ends where it did.
pub proof fn lemma_insert_many(s: Seq<NodeState>, o: Seq<NodeRef>, nodes: Seq<NodeRef>)
    requires
        links_wf(s),
        chain(s, o),
        o.len() >= 2,
        forall|k: int|
            0 <= k < nodes.len() ==> valid(s, #[trigger] nodes[k]) && detached(
                s,
                nodes[k].spec_index() as int,
            ),
        forall|j: int, k: int| 0 <= j < k < nodes.len() ==> #[trigger] nodes[j] != #[trigger] nodes[k],
    ensures
        links_wf(insert_all_after(s, o[0].spec_index() as int, nodes)),
        chain(insert_all_after(s, o[0].spec_index() as int, nodes), pushed_front(o, nodes)),
        pushed_front(o, nodes).len() == o.len() + nodes.len(),
        pushed_front(o, nodes)[0] == o[0],
        pushed_front(o, nodes).last() == o.last(),
        forall|k: int| 0 <= k < nodes.len() ==> among(pushed_front(o, nodes), #[trigger] nodes[k]),
        forall|k: int| 0 <= k < o.len() ==> among(pushed_front(o, nodes), #[trigger] o[k]),
    decreases nodes.len(),
{
    if nodes.len() == 0 {
        assert forall|k: int| 0 <= k < o.len() implies among(pushed_front(o, nodes), #[trigger] o[k]) by {
            assert(pushed_front(o, nodes)[k] == o[k]);
        }
    } else {
        let n = nodes[0];
        let rest = nodes.drop_first();
        let head = o[0].spec_index() as int;
        let t = insert_after_spec(s, head, n.spec_index() as int);
        let o2 = o.insert(1, n);
        lemma_push_front_chain(s, o, n);
        lemma_detached_outside(s, o, n);
        assert(valid(s, o[0]) && valid(s, o[1]));
        assert(s[head].next == Some(o[1]));
        assert forall|k: int| 0 <= k < rest.len() implies valid(t, #[trigger] rest[k]) && detached(
            t,
            rest[k].spec_index() as int,
        ) by {
            let r = nodes[k + 1];
            assert(rest[k] == r);
            assert(valid(s, r) && detached(s, r.spec_index() as int));
            assert(nodes[0] != nodes[k + 1]);
            lemma_detached_outside(s, o, r);
            assert(o[0] != r);
            assert(o[1] != r);
        }
        assert forall|j: int, k: int| 0 <= j < k < rest.len() implies #[trigger] rest[j] != #[trigger] rest[k] by {
            assert(nodes[j + 1] != nodes[k + 1]);
        }
        lemma_insert_many(t, o2, rest);
        let all = pushed_front(o2, rest);
        assert(all == pushed_front(o, nodes));
        assert forall|k: int| 0 <= k < nodes.len() implies among(all, #[trigger] nodes[k]) by {
            if k == 0 {
                assert(o2[1] == n);
                assert(among(all, o2[1]));
            } else {
                assert(rest[k - 1] == nodes[k]);
                assert(among(all, rest[k - 1]));
            }
        }
        assert forall|k: int| 0 <= k < o.len() implies among(all, #[trigger] o[k]) by {
            if k == 0 {
                assert(o2[0] == o[0]);
                assert(among(all, o2[0]));
            } else {
                assert(o2[k + 1] == o[k]);
                assert(among(all, o2[k + 1]));
            }
        }
    }
}

/// A detached node that is linked in behind the node at index `k` of a
/// chain, which is not its last, stands at index `k + 1` of the chain.
pub proof fn lemma_insert_after_chain(s: Seq<NodeState>, o: Seq<NodeRef>, k: int, n: NodeRef)
    requires
        links_wf(s),
        chain(s, o),
        0 <= k,
        k + 1 < o.len(),
        valid(s, n),
        detached(s, n.spec_index() as int),
    ensures
        chain(insert_after_spec(s, o[k].spec_index() as int, n.spec_index() as int), o.insert(k + 1, n)),
        links_wf(insert_after_spec(s, o[k].spec_index() as int, n.spec_index() as int)),
        o.insert(k + 1, n).len() == o.len() + 1,
        o.insert(k + 1, n)[0] == o[0],
        o.insert(k + 1, n).last() == o.last(),
{
    let at = k + 1;
    let o2 = o.insert(at, n);
    let left = o[k];
    let right = o[k + 1];
    let t = insert_after_spec(s, left.spec_index() as int, n.spec_index() as int);
    lemma_detached_outside(s, o, n);
    assert(o[k] != n);
    assert(o[k + 1] != n);
    assert(valid(s, o[k]));
    assert(valid(s, o[k + 1]));
    assert(o[k] != o[k + 1]);
    lemma_insert_after_wf(s, left.spec_index() as int, n.spec_index() as int);
    assert(s[left.spec_index() as int].next == Some(right));
    assert(n == NodeRef { index: n.spec_index() });
    assert forall|j: int| 0 <= j < o.len() implies (#[trigger] o[j]) != n by {}
    assert forall|j: int| 0 <= j < o2.len() implies valid(t, #[trigger] o2[j]) by {
        if j < at {
            assert(o2[j] == o[j]);
            assert(valid(s, o[j]));
        } else if j > at {
            assert(o2[j] == o[j - 1]);
            assert(valid(s, o[j - 1]));
        }
    }
    assert forall|j: int| 0 <= j < o2.len() implies t[(#[trigger] o2[j]).spec_index() as int].next
        == if j + 1 < o2.len() {
        Some(o2[j + 1])
    } else {
        None
    } by {
        if j < k {
            assert(o2[j] == o[j]);
            assert(o[j] != n);
            assert(o[j] != o[k]);
            assert(o[j] != o[k + 1]);
            assert(valid(s, o[j]));
            assert(s[o[j].spec_index() as int].next == Some(o[j + 1]));
            assert(o2[j + 1] == o[j + 1]);
        } else if j == k {
            assert(o2[k] == left);
            assert(o2[k + 1] == n);
        } else if j == at {
            assert(o2[at + 1] == right);
        } else {
            assert(o2[j] == o[j - 1]);
            assert(o[j - 1] != n);
            assert(o[k] != o[j - 1]);
            assert(valid(s, o[j - 1]));
            assert(s[o[j - 1].spec_index() as int].next == if j < o.len() {
                Some(o[j])
            } else {
                None
            });
            if j + 1 < o2.len() {
                assert(o2[j + 1] == o[j]);
            }
        }
    }
    assert forall|j: int| 0 <= j < o2.len() implies t[(#[trigger] o2[j]).spec_index() as int].prev
        == if j > 0 {
        Some(o2[j - 1])
    } else {
        None
    } by {
        if j <= k {
            assert(o2[j] == o[j]);
            assert(o[j] != n);
            assert(o[j] != o[k + 1]);
            assert(valid(s, o[j]));
            assert(s[o[j].spec_index() as int].prev == if j > 0 {
                Some(o[j - 1])
            } else {
                None
            });
            if j > 0 {
                assert(o2[j - 1] == o[j - 1]);
            }
        } else if j == at {
            assert(o2[k] == left);
        } else if j == at + 1 {
            assert(o2[j] == right);
            assert(o2[at] == n);
        } else {
            assert(o2[j] == o[j - 1]);
            assert(o2[j - 1] == o[j - 2]);
            assert(o[j - 1] != n);
            assert(o[k] != o[j - 1]);
            assert(o[k + 1] != o[j - 1]);
            assert(valid(s, o[j - 1]));
            assert(s[o[j - 1].spec_index() as int].prev == Some(o[j - 2]));
        }
    }
    assert forall|i: int, j: int| 0 <= i < j < o2.len() implies #[trigger] o2[i] != #[trigger] o2[j] by {
        let i0 = if i > at {
            i - 1
        } else {
            i
        };
        let j0 = if j > at {
            j - 1
        } else {
            j
        };
        if i != at && j != at {
            assert(o[i0] != o[j0]);
        } else if i == at {
            assert(o[j0] != n);
        } else {
            assert(o[i0] != n);
        }
    }
}

/// Linking a detached node in before a node that has a previous node is
/// linking it in behind that previous node.
pub proof fn lemma_insert_before_is_after(s: Seq<NodeState>, o: Seq<NodeRef>, k: int, n: NodeRef)
    requires
        links_wf(s),
        chain(s, o),
        0 < k < o.len(),
        valid(s, n),
        detached(s, n.spec_index() as int),
    ensures
        insert_before_spec(s, o[k].spec_index() as int, n.spec_index() as int) == insert_after_spec(
            s,
            o[k - 1].spec_index() as int,
            n.spec_index() as int,
        ),
{
    lemma_detached_outside(s, o, n);
    assert(o[k] != n);
    assert(o[k - 1] != n);
    assert(o[k - 1] != o[k]);
    assert(valid(s, o[k]));
    assert(valid(s, o[k - 1]));
    assert(s[o[k].spec_index() as int].prev == Some(o[k - 1]));
    assert(s[o[k - 1].spec_index() as int].next == Some(o[k]));
    assert(o[k] == NodeRef { index: o[k].spec_index() });
    assert(o[k - 1] == NodeRef { index: o[k - 1].spec_index() });
    assert(insert_before_spec(s, o[k].spec_index() as int, n.spec_index() as int) =~= insert_after_spec(
        s,
        o[k - 1].spec_index() as int,
        n.spec_index() as int,
    ));
}

/// A node of a chain that is neither its first nor its last can be
/// detached, and what is left is a chain.
pub proof fn lemma_detach_chain(s: Seq<NodeState>, o: Seq<NodeRef>, k: int)
    requires
        links_wf(s),
        chain(s, o),
        0 < k,
        k + 1 < o.len(),
    ensures
        valid(s, o[k]),
        !detached(s, o[k].spec_index() as int),
        not_in_pair(s, o[k].spec_index() as int),
        chain(detach_spec(s, o[k].spec_index() as int), o.remove(k)),
        links_wf(detach_spec(s, o[k].spec_index() as int)),
        o.remove(k).len() == o.len() - 1,
        o.remove(k)[0] == o[0],
        o.remove(k).last() == o.last(),
{
    let o2 = o.remove(k);
    let me = o[k];
    let t = detach_spec(s, me.spec_index() as int);
    assert(valid(s, o[k - 1]) && valid(s, o[k]) && valid(s, o[k + 1]));
    assert(s[o[k - 1].spec_index() as int].next == Some(o[k]));
    assert(s[o[k].spec_index() as int].prev == Some(o[k - 1]));
    assert(s[o[k].spec_index() as int].next == Some(o[k + 1]));
    assert(s[o[k + 1].spec_index() as int].prev == Some(o[k]));
    assert(o[k - 1] != o[k + 1]);
    assert(o[k - 1] != o[k]);
    assert(o[k] != o[k + 1]);
    lemma_detach_wf(s, me.spec_index() as int);
    assert forall|j: int| 0 <= j < o2.len() implies valid(t, #[trigger] o2[j]) by {
        if j < k {
            assert(o2[j] == o[j]);
            assert(valid(s, o[j]));
        } else {
            assert(o2[j] == o[j + 1]);
            assert(valid(s, o[j + 1]));
        }
    }
    assert forall|j: int| 0 <= j < o2.len() implies t[(#[trigger] o2[j]).spec_index() as int].next
        == if j + 1 < o2.len() {
        Some(o2[j + 1])
    } else {
        None
    } by {
        let j0 = if j >= k {
            j + 1
        } else {
            j
        };
        assert(o2[j] == o[j0]);
        assert(valid(s, o[j0]));
        assert(o[j0] != o[k]);
        if j0 != k - 1 {
            assert(o[j0] != o[k - 1]);
        }
        if j0 != k + 1 {
            assert(o[j0] != o[k + 1]);
        }
        assert(s[o[j0].spec_index() as int].next == if j0 + 1 < o.len() {
            Some(o[j0 + 1])
        } else {
            None
        });
        if j + 1 < o2.len() {
            if j + 1 >= k {
                assert(o2[j + 1] == o[j + 2]);
            } else {
                assert(o2[j + 1] == o[j + 1]);
            }
        }
    }
    assert forall|j: int| 0 <= j < o2.len() implies t[(#[trigger] o2[j]).spec_index() as int].prev
        == if j > 0 {
        Some(o2[j - 1])
    } else {
        None
    } by {
        let j0 = if j >= k {
            j + 1
        } else {
            j
        };
        assert(o2[j] == o[j0]);
        assert(valid(s, o[j0]));
        assert(o[j0] != o[k]);
        if j0 != k - 1 {
            assert(o[j0] != o[k - 1]);
        }
        if j0 != k + 1 {
            assert(o[j0] != o[k + 1]);
        }
        assert(s[o[j0].spec_index() as int].prev == if j0 > 0 {
            Some(o[j0 - 1])
        } else {
            None
        });
        if j > 0 {
            if j - 1 >= k {
                assert(o2[j - 1] == o[j]);
            } else {
                assert(o2[j - 1] == o[j - 1]);
            }
        }
    }
    assert forall|i: int, j: int| 0 <= i < j < o2.len() implies #[trigger] o2[i] != #[trigger] o2[j] by {
        let i0 = if i >= k {
            i + 1
        } else {
            i
        };
        let j0 = if j >= k {
            j + 1
        } else {
            j
        };
        assert(o[i0] != o[j0]);
    }
}

impl Ilist {
    /// A list stays as it is where the pool changes at nodes that are no
    /// members of it only, or grows.
    pub proof fn lemma_untouched<T>(&self, before: &NodePool<T>, after: &NodePool<T>)
        requires
            self.wf(before),
            after.wf(),
            before@.len() <= after@.len(),
            forall|k: int|
                0 <= k < self.members(before).len() ==> after@[(#[trigger] self.members(
                    before,
                )[k]).spec_index() as int] == before@[self.members(before)[k].spec_index() as int],
        ensures
            self.wf(after),
            self.members(after) == self.members(before),
    {
        let o = self.members(before);
        assert forall|k: int| 0 <= k < o.len() implies valid(after@, #[trigger] o[k]) by {
            assert(valid(before@, o[k]));
        }
        assert(chain(after@, o));
        self.lemma_members(after, o);
    }

    /// A list stays a list where a detached node is linked in behind one
    /// of its members other than the tail sentinel: the node is the member
    /// behind that one.
    pub proof fn lemma_inserted_after<T>(&self, before: &NodePool<T>, after: &NodePool<T>, k: int, n: NodeRef)
        requires
            self.wf(before),
            0 <= k,
            k + 1 < self.members(before).len(),
            valid(before@, n),
            detached(before@, n.spec_index() as int),
            after@ == insert_after_spec(
                before@,
                self.members(before)[k].spec_index() as int,
                n.spec_index() as int,
            ),
        ensures
            self.wf(after),
            self.members(after) == self.members(before).insert(k + 1, n),
    {
        let o = self.members(before);
        lemma_insert_after_chain(before@, o, k, n);
        self.lemma_members(after, o.insert(k + 1, n));
    }

    /// A list stays a list where a detached node is linked in before one
    /// of its members other than the head sentinel: the node is the member
    /// before that one.
    pub proof fn lemma_inserted_before<T>(&self, before: &NodePool<T>, after: &NodePool<T>, k: int, n: NodeRef)
        requires
            self.wf(before),
            0 < k < self.members(before).len(),
            valid(before@, n),
            detached(before@, n.spec_index() as int),
            after@ == insert_before_spec(
                before@,
                self.members(before)[k].spec_index() as int,
                n.spec_index() as int,
            ),
        ensures
            self.wf(after),
            self.members(after) == self.members(before).insert(k, n),
    {
        let o = self.members(before);
        lemma_insert_before_is_after(before@, o, k, n);
        lemma_insert_after_chain(before@, o, k - 1, n);
        self.lemma_members(after, o.insert(k, n));
    }

    /// A list stays a list where one of its members other than the
    /// sentinels is detached: the member has left it.
    pub proof fn lemma_detached<T>(&self, before: &NodePool<T>, after: &NodePool<T>, k: int)
        requires
            self.wf(before),
            0 < k,
            k + 1 < self.members(before).len(),
            after@ == detach_spec(before@, self.members(before)[k].spec_index() as int),
        ensures
            self.wf(after),
            self.members(after) == self.members(before).remove(k),
    {
        let o = self.members(before);
        lemma_detach_chain(before@, o, k);
        self.lemma_members(after, o.remove(k));
    }
}

} // verus!
