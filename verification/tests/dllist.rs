use mywheel_rs::dllist::{Arena, DllIterator, Dllink, Dllist};

#[test]
fn test_dllink() {
    let mut arena: Arena<i32> = Arena::new();
    let a = Dllink::new(&mut arena, 0, 3);
    let b = Dllink::new(&mut arena, 0, 0);
    a.clear(&mut arena);
    b.clear(&mut arena);
    assert!(a.is_empty(&arena));
    assert!(b.is_empty(&arena));
    assert_ne!(a.id, b.id);

    assert_eq!(arena.data[a.id], 3);
    assert_eq!(arena.data[b.id], 0);
    arena.data[a.id] = 5;
    arena.data[b.id] = 5;
    assert_ne!(a.id, b.id);
    assert_eq!(arena.next[a.id], arena.prev[a.id]);
    assert_eq!(arena.next[a.id], a.id);
    assert!(a.is_locked(&arena));
    a.lock(&mut arena);
    assert!(a.is_locked(&arena));
}

#[test]
fn test_dllist() {
    let mut arena: Arena<i32> = Arena::new();
    let mut a = Dllist::new(&mut arena, 0, 3);
    a.clear(&mut arena);
    assert!(a.is_empty(&arena));
    assert_eq!(arena.data[a.head.id], 3);
    assert_eq!(arena.next[a.head.id], arena.prev[a.head.id]);

    let b = Dllink::new(&mut arena, 0, 4);
    a.append(&mut arena, b);
    let c = a.pop(&mut arena);
    assert_eq!(c.id, b.id);
    assert!(a.is_empty(&arena));
    a.clear(&mut arena);
    assert!(a.is_empty(&arena));
    a.appendleft(&mut arena, b);
    assert!(!a.is_empty(&arena));
    a.clear(&mut arena);
    assert!(a.is_empty(&arena));
}

#[test]
fn test_dllist2() {
    let mut arena: Arena<i32> = Arena::new();
    let mut l1 = Dllist::new(&mut arena, 0, 99);
    let mut l2 = Dllist::new(&mut arena, 0, 99);
    let d = Dllink::new(&mut arena, 0, 1);
    let e = Dllink::new(&mut arena, 0, 2);
    let f = Dllink::new(&mut arena, 0, 3);

    l1.appendleft(&mut arena, e);
    assert!(!l1.is_empty(&arena));

    l1.appendleft(&mut arena, f);
    assert!(!l1.is_empty(&arena));
    l1.append(&mut arena, d);

    let p1 = l1.pop(&mut arena);
    l2.append(&mut arena, p1);
    let p2 = l1.popleft(&mut arena);
    l2.append(&mut arena, p2);
    assert!(!l1.is_empty(&arena));
    l1.detach(&mut arena, e);
    assert!(l1.is_empty(&arena));

    let mut count = 0;
    let mut it = l2.iter_mut(&arena);
    while let Some(_n) = it.next(&arena) {
        count += 1;
    }
    assert_eq!(count, 2);
}

#[test]
fn test_dll_iterator_order() {
    let mut arena: Arena<i32> = Arena::new();
    let mut l = Dllist::new(&mut arena, 0, 0);
    let n1 = Dllink::new(&mut arena, 0, 10);
    let n2 = Dllink::new(&mut arena, 0, 20);
    let n3 = Dllink::new(&mut arena, 0, 30);
    l.append(&mut arena, n1);
    l.append(&mut arena, n2);
    l.appendleft(&mut arena, n3);

    // front to back: n3, n1, n2
    let mut seen = Vec::new();
    let mut it = DllIterator::new(&l, &arena);
    while let Some(n) = it.next(&arena) {
        seen.push(arena.data[n.id]);
    }
    assert_eq!(seen, vec![30, 10, 20]);
}

#[test]
fn test_dllist_clear_isolates_members() {
    let mut arena: Arena<i32> = Arena::new();
    let mut l = Dllist::new(&mut arena, 0, 0);
    let n1 = Dllink::new(&mut arena, 0, 1);
    let n2 = Dllink::new(&mut arena, 0, 2);
    l.append(&mut arena, n1);
    l.append(&mut arena, n2);
    l.clear(&mut arena);
    assert!(l.is_empty(&arena));
    assert_eq!(arena.next[n1.id], n1.id);
    assert_eq!(arena.prev[n1.id], n1.id);
    assert_eq!(arena.next[n2.id], n2.id);
    // a cleared member can be appended again
    l.append(&mut arena, n1);
    assert!(!l.is_empty(&arena));
}

#[test]
fn test_dllist_push() {
    let mut arena: Arena<i32> = Arena::new();
    let mut l = Dllist::new(&mut arena, 0, 0);
    let n1 = l.push(&mut arena, 0, 7);
    let n2 = l.push(&mut arena, 0, 8);
    assert_eq!(arena.data[n1.id], 7);
    assert_eq!(arena.data[n2.id], 8);
    // LIFO: the last pushed node stands at the front
    let front = l.popleft(&mut arena);
    assert_eq!(front.id, n2.id);
    let back = l.pop(&mut arena);
    assert_eq!(back.id, n1.id);
    assert!(l.is_empty(&arena));
}
