use blueos_core::ilist::{Attempt, Ilist, IlistNode, MutexIter, NodePool, NodeRef, Removal, VerIter};

type Node = IlistNode<usize>;

fn payload(pool: &NodePool<usize>, r: NodeRef) -> usize {
    *pool.get(r).object().unwrap()
}

#[test]
fn insert_after_many() {
    let mut pool = NodePool::new();
    let head = pool.insert(Node::new(0));
    let mut prev = head;
    for i in 1..1024 {
        let next = pool.insert(Node::new(i));
        Node::insert_after(&mut pool, prev, next);
        let tmp = pool.get(prev).next().unwrap();
        prev = tmp;
    }
    let mut cursor = Some(head);
    let mut counter = 0;
    while cursor.is_some() {
        assert_eq!(counter, payload(&pool, cursor.unwrap()));
        counter += 1;
        let tmp = pool.get(cursor.unwrap()).next();
        cursor = tmp;
    }
}

#[test]
fn insert_before_many() {
    let mut pool = NodePool::new();
    let tail = pool.insert(Node::new(0));
    let mut me = tail;
    for i in 1..1024 {
        let prev = pool.insert(Node::new(i));
        Node::insert_before(&mut pool, me, prev);
        let tmp = pool.get(me).prev().unwrap();
        me = tmp;
    }
    let mut cursor = Some(tail);
    let mut counter = 0;
    while cursor.is_some() {
        assert_eq!(counter, payload(&pool, cursor.unwrap()));
        counter += 1;
        let tmp = pool.get(cursor.unwrap()).prev();
        cursor = tmp;
    }
}

#[test]
fn detach_me() {
    let mut pool = NodePool::new();
    let a = pool.insert(Node::new(0));
    let b = pool.insert(Node::new(1));
    let c = pool.insert(Node::new(2));
    Node::insert_after(&mut pool, b, c);
    assert!(pool.get(b).prev().is_none());
    assert!(pool.get(b).next().is_some());
    assert!(pool.get(c).prev().is_some());
    assert!(pool.get(c).next().is_none());
    // b is not detached, so this action should fail.
    assert!(!Node::insert_after(&mut pool, a, b));
    // a is detached, so this action should succeed.
    Node::insert_before(&mut pool, b, a);
    assert!(pool.get(a).next().is_some());
    assert!(pool.get(a).prev().is_none());
    assert_eq!(payload(&pool, pool.get(a).next().unwrap()), 1);
    assert_eq!(payload(&pool, pool.get(c).prev().unwrap()), 1);
    Node::detach(&mut pool, b);
    assert!(pool.get(b).is_detached());
    assert_eq!(payload(&pool, pool.get(a).next().unwrap()), 2);
    assert_eq!(payload(&pool, pool.get(c).prev().unwrap()), 0);
}

#[test]
fn insert_after_head_many_keeps_every_payload_once() {
    let mut pool = NodePool::new();
    let mut list = Ilist::new(&mut pool);
    let head = list.head();
    let n = 1024;
    for id in 0..n {
        let node = pool.insert(Node::new(id));
        assert!(Node::insert_after(&mut pool, head, node));
    }
    let mut seen = vec![false; n];
    let mut count = 0;
    let mut cursor = Some(head);
    while let Some(r) = cursor {
        count += 1;
        if let Some(id) = pool.get(r).object() {
            assert!(!seen[*id]);
            seen[*id] = true;
        }
        cursor = pool.get(r).next();
    }
    assert_eq!(count, n + 2);
    assert!(seen.iter().all(|s| *s));
    // the walk back from the tail sees as many nodes
    let mut back = 0;
    let mut cursor = Some(list.tail());
    while let Some(r) = cursor {
        back += 1;
        cursor = pool.get(r).prev();
    }
    assert_eq!(back, n + 2);
    assert!(!list.is_empty(&pool));
    let first = list.head();
    assert_eq!(pool.get(first).prev(), None);
}

#[test]
fn versioned_iterator_sees_a_detached_node() {
    let mut pool = NodePool::new();
    let mut list = Ilist::new(&mut pool);
    let x = pool.insert(Node::new(10));
    let y = pool.insert(Node::new(20));
    list.push_back(&mut pool, x);
    list.push_back(&mut pool, y);
    let mut it = VerIter::new(&pool, list.head());
    let (version, node) = it.next(&pool).unwrap();
    assert_eq!(node, x);
    assert_eq!(version, 1);
    // someone else detaches the node that was yielded
    assert!(Node::detach(&mut pool, x));
    // an operation with the version that was yielded fails
    assert!(!Node::versioned_detach(&mut pool, Some(version), x));
    let z = pool.insert(Node::new(30));
    assert!(!Node::versioned_insert_after(&mut pool, Some(version), x, z));
    assert!(!Node::versioned_insert_before(&mut pool, Some(version), x, z));
    // the iterator stops at the node
    assert_eq!(it.next(&pool), None);
    // the list is intact
    let head = list.head();
    assert_eq!(pool.get(head).next(), Some(y));
    assert_eq!(pool.get(y).prev(), Some(head));
    assert_eq!(pool.get(y).next(), Some(list.tail()));
    assert_eq!(pool.get(list.tail()).prev(), Some(y));
}

#[test]
fn version_counts_insertions_and_detachments_modulo_256() {
    let mut pool = NodePool::new();
    let a = pool.insert(Node::new(1));
    let b = pool.insert(Node::new(2));
    assert_eq!(pool.get(b).version(), 0);
    for round in 0..128 {
        assert_eq!(pool.get(b).version(), (2 * round) % 256);
        assert!(Node::insert_after(&mut pool, a, b));
        assert_eq!(pool.get(b).version(), (2 * round + 1) % 256);
        assert!(Node::detach(&mut pool, b));
    }
    assert_eq!(pool.get(b).version(), 0);
    assert_eq!(pool.get(a).version(), 0);
    let mut n = Node::new(7);
    n.increment_version().increment_version();
    assert_eq!(n.version(), 2);
}

#[test]
fn detach_is_idempotent() {
    let mut pool = NodePool::new();
    let a = pool.insert(Node::new(1));
    let b = pool.insert(Node::new(2));
    let c = pool.insert(Node::new(3));
    Node::insert_after(&mut pool, a, b);
    Node::insert_after(&mut pool, b, c);
    assert!(Node::detach(&mut pool, b));
    assert!(!Node::detach(&mut pool, b));
    assert_eq!(pool.get(a).next(), Some(c));
    assert_eq!(pool.get(c).prev(), Some(a));
    assert!(!Node::detach(&mut pool, b));
    assert_eq!(pool.get(b).version(), 2);
}

#[test]
fn detach_then_insert_after_previous_restores_the_list() {
    let mut pool = NodePool::new();
    let a = pool.insert(Node::new(1));
    let b = pool.insert(Node::new(2));
    let c = pool.insert(Node::new(3));
    Node::insert_after(&mut pool, a, b);
    Node::insert_after(&mut pool, b, c);
    let links = |pool: &NodePool<usize>| {
        [a, b, c].map(|r| (pool.get(r).prev(), pool.get(r).next()))
    };
    let before = links(&pool);
    assert!(Node::detach(&mut pool, b));
    assert!(Node::insert_after(&mut pool, a, b));
    assert_eq!(links(&pool), before);
    assert_eq!(pool.get(b).version(), 3);
}

#[test]
fn contended_attempts_change_nothing() {
    let mut pool = NodePool::new();
    let a = pool.insert(Node::new(1));
    let b = pool.insert(Node::new(2));
    let c = pool.insert(Node::new(3));
    Node::insert_after(&mut pool, a, b);
    Node::insert_after(&mut pool, b, c);
    // another party holds the write lock of c
    assert!(pool.try_write(c));
    assert!(!pool.try_write(c));
    assert!(!pool.try_read(c));
    assert_eq!(Node::try_versioned_detach(&mut pool, None, b), Attempt::Contended);
    assert_eq!(pool.get(a).next(), Some(b));
    assert_eq!(pool.get(b).next(), Some(c));
    assert_eq!(pool.get(b).version(), 1);
    let d = pool.insert(Node::new(4));
    assert_eq!(Node::try_versioned_insert_after(&mut pool, None, b, d), Attempt::Contended);
    assert_eq!(Node::try_versioned_insert_before(&mut pool, None, c, d), Attempt::Contended);
    assert_eq!(Node::try_remove_after(&mut pool, b), Removal::Contended);
    assert!(pool.get(d).is_detached());
    // the locks that the attempts took are free again
    assert!(pool.try_write(a));
    pool.unlock_write(a);
    assert!(pool.try_write(b));
    pool.unlock_write(b);
    pool.unlock_write(c);
    assert_eq!(Node::try_versioned_detach(&mut pool, None, b), Attempt::Done(true));
    assert_eq!(Node::try_versioned_detach(&mut pool, None, b), Attempt::Done(false));
    assert_eq!(Node::try_versioned_detach(&mut pool, Some(9), c), Attempt::Done(false));
    assert_eq!(Node::try_versioned_insert_after(&mut pool, None, d, d), Attempt::Contended);
    assert_eq!(Node::try_remove_after(&mut pool, a), Removal::Removed(c));
    assert_eq!(Node::try_remove_after(&mut pool, a), Removal::Nothing);
    // readers do not lock each other out, but they lock writers out
    assert!(pool.try_read(a));
    assert!(pool.try_read(a));
    assert!(!pool.try_write(a));
    pool.unlock_read(a);
    pool.unlock_read(a);
    assert!(pool.try_write(a));
}

#[test]
fn remove_after_detaches_the_next_node() {
    let mut pool = NodePool::new();
    let a = pool.insert(Node::new(1));
    let b = pool.insert(Node::new(2));
    let c = pool.insert(Node::new(3));
    Node::insert_after(&mut pool, a, b);
    Node::insert_after(&mut pool, b, c);
    assert_eq!(Node::remove_after(&mut pool, a), Some(b));
    assert!(pool.get(b).is_detached());
    assert_eq!(pool.get(a).next(), Some(c));
    assert_eq!(Node::remove_after(&mut pool, a), Some(c));
    assert_eq!(Node::remove_after(&mut pool, a), None);
    assert_eq!(pool.len(), 3);
    assert!(pool.contains(c));
    assert!(!pool.contains(NodeRef { index: 3 }));
    assert!(a.is(&a));
    assert!(!a.is(&b));
}

#[test]
fn list_push_back_and_pop_front() {
    let mut pool = NodePool::new();
    let mut list = Ilist::new(&mut pool);
    assert!(list.is_empty(&pool));
    assert_eq!(pool.get(list.head()).object(), None);
    assert_eq!(pool.get(list.head()).next(), Some(list.tail()));
    assert_eq!(list.pop_front(&mut pool), None);
    // the sentinels stay linked
    assert_eq!(pool.get(list.head()).next(), Some(list.tail()));
    let x = pool.insert(Node::new(1));
    let y = pool.insert(Node::new(2));
    list.push_back(&mut pool, x);
    list.push_back(&mut pool, y);
    // a node that is not detached is not pushed again
    list.push_back(&mut pool, x);
    let tail = list.tail();
    list.push_back(&mut pool, tail);
    assert!(!list.is_empty(&pool));
    assert_eq!(pool.get(list.tail()).prev(), Some(y));
    assert_eq!(list.pop_front(&mut pool), Some(x));
    assert_eq!(list.pop_front(&mut pool), Some(y));
    assert_eq!(list.pop_front(&mut pool), None);
    assert!(list.is_empty(&pool));
    let d = Node::default();
    assert!(d.is_detached());
    assert!(d.object().is_none());
    assert_eq!(d.version(), 0);
}

#[test]
fn locked_iterator_walks_behind_the_head() {
    let mut pool = NodePool::new();
    let mut list = Ilist::new(&mut pool);
    let x = pool.insert(Node::new(1));
    let y = pool.insert(Node::new(2));
    list.push_back(&mut pool, x);
    list.push_back(&mut pool, y);
    let head = list.head();
    let mut it = MutexIter::new(&mut pool, head);
    // the head is locked while the iterator lives
    assert!(!pool.try_write(head));
    assert_eq!(Node::try_versioned_detach(&mut pool, None, x), Attempt::Contended);
    assert_eq!(it.next(&pool), Some(x));
    assert_eq!(it.next(&pool), Some(y));
    assert_eq!(it.next(&pool), Some(list.tail()));
    assert_eq!(it.next(&pool), None);
    assert_eq!(it.next(&pool), None);
    it.finish(&mut pool);
    assert!(pool.try_write(head));
    pool.unlock_write(head);
    assert!(Node::detach(&mut pool, x));
}

#[test]
fn versioned_iterator_walks_the_list() {
    let mut pool = NodePool::new();
    let mut list = Ilist::new(&mut pool);
    let x = pool.insert(Node::new(1));
    list.push_back(&mut pool, x);
    let mut it = VerIter::new(&pool, list.head());
    assert_eq!(it.next(&pool), Some((1, x)));
    assert_eq!(it.next(&pool), Some((1, list.tail())));
    assert_eq!(it.next(&pool), None);
}

#[test]
fn new_list_has_two_sentinels_without_a_payload() {
    let mut pool: NodePool<usize> = NodePool::new();
    let before = pool.insert(Node::new(11));
    let list = Ilist::new(&mut pool);
    assert_eq!(pool.len(), 3);
    assert!(pool.get(list.head()).object().is_none());
    assert!(pool.get(list.tail()).object().is_none());
    assert_eq!(pool.get(list.head()).next(), Some(list.tail()));
    assert_eq!(pool.get(list.tail()).prev(), Some(list.head()));
    assert_eq!(pool.get(list.head()).prev(), None);
    assert_eq!(pool.get(list.tail()).next(), None);
    assert!(list.is_empty(&pool));
    // the node that was in the pool keeps its payload and stays detached
    assert_eq!(pool.get(before).object(), Some(&11));
    assert!(pool.get(before).is_detached());
    // the locks of the sentinels are free
    assert!(pool.try_write(list.head()));
    assert!(pool.try_write(list.tail()));
}

#[test]
fn a_lock_held_elsewhere_does_not_stand_in_the_way() {
    let mut pool = NodePool::new();
    let mut list = Ilist::new(&mut pool);
    let x = pool.insert(Node::new(1));
    let y = pool.insert(Node::new(2));
    let z = pool.insert(Node::new(3));
    list.push_back(&mut pool, x);
    list.push_back(&mut pool, y);
    list.push_back(&mut pool, z);
    // an iterator holds the head: what does not touch the head goes on
    let it = MutexIter::new(&mut pool, list.head());
    assert!(Node::detach(&mut pool, y));
    assert_eq!(pool.get(x).next(), Some(z));
    assert!(Node::insert_before(&mut pool, list.tail(), y));
    assert_eq!(pool.get(z).next(), Some(y));
    assert_eq!(Node::remove_after(&mut pool, x), Some(z));
    assert_eq!(pool.get(x).next(), Some(y));
    it.finish(&mut pool);
    assert_eq!(list.pop_front(&mut pool), Some(x));
}

static FIXED: usize = 77;

#[test]
fn node_for_a_payload_that_lives_as_long_as_the_program() {
    let node = IlistNode::const_new(&FIXED);
    assert!(node.is_detached());
    assert_eq!(node.version(), 0);
    assert_eq!(node.object(), Some(&&FIXED));
    let mut pool = NodePool::new();
    let list = Ilist::new(&mut pool);
    let r = pool.insert(node);
    assert!(IlistNode::insert_after(&mut pool, list.head(), r));
    assert_eq!(pool.get(r).object().map(|p| **p), Some(77));
}
