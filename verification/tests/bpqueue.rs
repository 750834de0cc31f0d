use mywheel_rs::bpqueue::{BPQueue, BPQueueIterator};
use mywheel_rs::dllist::{Arena, Dllink, Dllist};

#[test]
fn test_bpqueue1() {
    let mut arena: Arena<i32> = Arena::new();
    let mut bpq = BPQueue::new(&mut arena, -3, 3, 0);
    let a = Dllink::new(&mut arena, 0, 3);
    bpq.append(&mut arena, a, 0);
    assert_eq!(bpq.get_max(), 0);
    assert_eq!(bpq.is_empty(), false);
    bpq.set_key(&mut arena, a, 0);
    assert_eq!(arena.key[a.id], 4);
    bpq.popleft(&mut arena);
    assert_eq!(bpq.is_empty(), true);
    assert_eq!(bpq.get_max(), -4);
}

#[test]
fn test_bpqueue2() {
    let mut arena: Arena<i32> = Arena::new();
    let mut bpq = BPQueue::new(&mut arena, -3, 3, 0);
    let a = Dllink::new(&mut arena, 0, 3);
    bpq.appendleft_direct(&mut arena, a);
    assert_eq!(bpq.get_max(), 0);
    bpq.increase_key(&mut arena, a, 1);
    assert_eq!(bpq.get_max(), 1);
    bpq.decrease_key(&mut arena, a, 1);
    assert_eq!(bpq.get_max(), 0);

    bpq.decrease_key(&mut arena, a, 1);
    bpq.increase_key(&mut arena, a, 1);
    bpq.modify_key(&mut arena, a, 1);
    bpq.detach(&mut arena, a);
    assert_eq!(bpq.get_max(), -4);
    bpq.clear(&mut arena);
    assert_eq!(bpq.get_max(), -4);

    let c = Dllink::new(&mut arena, 3, 2);
    let mut waiting_list = Dllist::new(&mut arena, 99, 98);
    waiting_list.clear(&mut arena);
    waiting_list.append(&mut arena, c);
    assert!(!c.is_locked(&arena));
    // key update of a node parked outside the queue: an explicit hand-off,
    // detach from the waiting list, then append at the lowered key
    waiting_list.detach(&mut arena, c);
    bpq.append(&mut arena, c, -2);
    assert_eq!(bpq.is_empty(), false);
    assert_eq!(bpq.get_max(), -2);
    assert_eq!(waiting_list.is_empty(&arena), true);
}

#[test]
fn test_bpqueue3() {
    let mut arena: Arena<i32> = Arena::new();
    let mut bpq1 = BPQueue::new(&mut arena, -10, 10, 0);
    let mut bpq2 = BPQueue::new(&mut arena, -10, 10, 0);

    assert_eq!(bpq1.get_max(), -11);

    let d = Dllink::new(&mut arena, 0, 0);
    let e = Dllink::new(&mut arena, 0, 1);
    let f = Dllink::new(&mut arena, 0, 2);

    assert_eq!(arena.key[d.id], 0);

    bpq1.append(&mut arena, e, 3);
    bpq1.append(&mut arena, f, -10);
    bpq1.append(&mut arena, d, 5);

    let n1 = bpq1.popleft(&mut arena);
    bpq2.append(&mut arena, n1, -6);
    let n2 = bpq1.popleft(&mut arena);
    bpq2.append(&mut arena, n2, 3);
    let n3 = bpq1.popleft(&mut arena);
    bpq2.append(&mut arena, n3, 0);

    bpq2.modify_key(&mut arena, d, 15);
    bpq2.modify_key(&mut arena, d, -3);
    bpq2.detach(&mut arena, f);
    assert_eq!(bpq2.get_max(), 6);
    bpq1.clear(&mut arena);
}

#[test]
fn test_bpqueue4() {
    let mut arena: Arena<i32> = Arena::new();
    let mut bpq = BPQueue::new(&mut arena, -3, 3, 0);
    let a = Dllink::new(&mut arena, 0, 3);
    bpq.append(&mut arena, a, 0);
    bpq.modify_key(&mut arena, a, 0);
    assert_eq!(bpq.get_max(), 0);

    bpq.modify_key(&mut arena, a, -1);
    assert_eq!(bpq.get_max(), -1);

    a.lock(&mut arena);
    bpq.modify_key(&mut arena, a, 1);
    assert_eq!(bpq.get_max(), -1);

    let b = Dllink::new(&mut arena, 0, 8);
    bpq.append(&mut arena, b, -3);
    bpq.modify_key(&mut arena, b, 1);
    assert_eq!(bpq.get_max(), -1);
}

#[test]
fn test_single_append_pop_restores_key() {
    // queue over [a, b] = [-3, 3]: one node with key 2 comes back with key 2
    let mut arena: Arena<i32> = Arena::new();
    let mut bpq = BPQueue::new(&mut arena, -3, 3, 0);
    let a = Dllink::new(&mut arena, 0, 42);
    bpq.append(&mut arena, a, 2);
    assert_eq!(bpq.get_max(), 2);
    let r = bpq.popleft(&mut arena);
    assert_eq!(r.id, a.id);
    // internal key of the popped node plus the offset is the external key
    assert_eq!(arena.key[r.id] as i32 + (-3 - 1), 2);
    assert!(bpq.is_empty());
}

#[test]
fn test_increasing_keys_pop_descending() {
    let mut arena: Arena<i32> = Arena::new();
    let mut bpq = BPQueue::new(&mut arena, 0, 10, 0);
    let mut ids = Vec::new();
    for k in [2i32, 4, 6, 8, 10] {
        let n = Dllink::new(&mut arena, 0, k);
        ids.push(n.id);
        bpq.append(&mut arena, n, k);
    }
    let mut popped_keys = Vec::new();
    while !bpq.is_empty() {
        let r = bpq.popleft(&mut arena);
        popped_keys.push(arena.key[r.id] as i32 + (0 - 1));
    }
    assert_eq!(popped_keys, vec![10, 8, 6, 4, 2]);
}

#[test]
fn test_equal_keys_fifo_and_lifo() {
    let mut arena: Arena<i32> = Arena::new();
    // FIFO: append pops in insertion order
    let mut q1 = BPQueue::new(&mut arena, 0, 5, 0);
    let a1 = Dllink::new(&mut arena, 0, 1);
    let a2 = Dllink::new(&mut arena, 0, 2);
    q1.append(&mut arena, a1, 3);
    q1.append(&mut arena, a2, 3);
    assert_eq!(q1.popleft(&mut arena).id, a1.id);
    assert_eq!(q1.popleft(&mut arena).id, a2.id);
    // LIFO: appendleft pops in reverse order
    let mut q2 = BPQueue::new(&mut arena, 0, 5, 0);
    let b1 = Dllink::new(&mut arena, 0, 1);
    let b2 = Dllink::new(&mut arena, 0, 2);
    q2.appendleft(&mut arena, b1, 3);
    q2.appendleft(&mut arena, b2, 3);
    assert_eq!(q2.popleft(&mut arena).id, b2.id);
    assert_eq!(q2.popleft(&mut arena).id, b1.id);
}

#[test]
fn test_locked_node_keeps_max() {
    let mut arena: Arena<i32> = Arena::new();
    let mut bpq = BPQueue::new(&mut arena, -3, 3, 0);
    let a = Dllink::new(&mut arena, 0, 1);
    bpq.append(&mut arena, a, 1);
    let before = bpq.get_max();
    a.lock(&mut arena);
    bpq.modify_key(&mut arena, a, 2);
    assert_eq!(bpq.get_max(), before);
    bpq.modify_key(&mut arena, a, -2);
    assert_eq!(bpq.get_max(), before);
}

#[test]
fn test_key_shift_rewind_scenario() {
    // queue over [-3, 3]: offset -4, high 7
    let mut arena: Arena<i32> = Arena::new();
    let mut bpq = BPQueue::new(&mut arena, -3, 3, 0);
    let a = Dllink::new(&mut arena, 0, 0);
    bpq.append(&mut arena, a, 0);
    assert_eq!(arena.key[a.id], 4);
    assert_eq!(bpq.get_max(), 0);
    bpq.increase_key(&mut arena, a, 1);
    assert_eq!(arena.key[a.id], 5);
    assert_eq!(bpq.get_max(), 1);
    bpq.decrease_key(&mut arena, a, 1);
    assert_eq!(arena.key[a.id], 4);
    assert_eq!(bpq.get_max(), 0);
    bpq.detach(&mut arena, a);
    assert!(bpq.is_empty());
    assert_eq!(bpq.get_max(), -4);
}

#[test]
fn test_bpqueue_iterator_starts_at_max() {
    let mut arena: Arena<i32> = Arena::new();
    let mut bpq = BPQueue::new(&mut arena, -3, 3, 0);
    let a = Dllink::new(&mut arena, 0, 0);
    bpq.append(&mut arena, a, 2);
    let it = BPQueueIterator::new(&bpq);
    assert_eq!(it.curkey, 6);
    let it2 = bpq.iter_mut();
    assert_eq!(it2.curkey, 6);
}

#[test]
fn test_clear_then_reuse() {
    let mut arena: Arena<i32> = Arena::new();
    let mut bpq = BPQueue::new(&mut arena, -3, 3, 0);
    let a = Dllink::new(&mut arena, 0, 1);
    let b = Dllink::new(&mut arena, 0, 2);
    bpq.append(&mut arena, a, 1);
    bpq.append(&mut arena, b, 3);
    bpq.clear(&mut arena);
    assert!(bpq.is_empty());
    // cleared items are isolated again and can rejoin
    bpq.append(&mut arena, a, -1);
    assert_eq!(bpq.get_max(), -1);
}
