use mywheel_rs::array_like::{RepeatArray, ShiftArray};
use mywheel_rs::lict::Lict;
use mywheel_rs::robin::Robin;

#[test]
fn test_repeat_array() {
    let arr: RepeatArray<i32> = RepeatArray::new(1, 10);
    assert_eq!(arr.len(), 10);
    assert_eq!(arr.get(4), 1);
    let mut it = arr.iter();
    while let Some(i) = it.next() {
        assert_eq!(i, 1);
    }
}

#[test]
fn test_shift_array() {
    let mut a = ShiftArray::new(vec![2, 3, 5, 7, 11]);
    a.set_start(5);
    assert_eq!(*a.get(6), 3);
    assert_eq!(a.len(), 5);
    a.set(6, 13);
    assert_eq!(*a.get(6), 13);
    let mut cnt = 5;
    let mut it = a.iter();
    while let Some(v) = it.next() {
        assert_eq!(v, *a.get(cnt));
        cnt += 1;
    }
    for (i, v) in a.items() {
        println!("{}: {}", i, v);
    }
}

#[test]
fn test_repeat_array2() {
    let repeat_array: RepeatArray<i32> = RepeatArray::new(1, 5);
    assert_eq!(repeat_array.value, 1);
    assert_eq!(repeat_array.size, 5);
    assert_eq!(repeat_array.get(0), 1);
    assert_eq!(repeat_array.get(1), 1);
    assert_eq!(repeat_array.get(2), 1);
    assert_eq!(repeat_array.get(3), 1);
    assert_eq!(repeat_array.get(4), 1);
    let mut it = repeat_array.iter();
    while let Some(i) = it.next() {
        assert_eq!(i, 1);
    }
}

#[test]
fn test_shift_array2() {
    let mut shift_array: ShiftArray<i32> = ShiftArray::new(vec![1, 2, 3, 4, 5]);
    shift_array.set_start(3);
    assert_eq!(*shift_array.get(6), 4);
    assert_eq!(*shift_array.get(7), 5);
    shift_array.set(6, 8);
    assert_eq!(*shift_array.get(6), 8);
    for (i, v) in shift_array.items() {
        assert_eq!(v, *shift_array.get(i));
    }
}

#[test]
fn test_shift_array_iter_from_low_start() {
    let mut a = ShiftArray::new(vec![4, 5, 6]);
    a.set_start(1);
    // the iterator starts at the backing position equal to the shift
    let mut seen = Vec::new();
    let mut it = a.iter();
    while let Some(v) = it.next() {
        seen.push(v);
    }
    assert_eq!(seen, vec![5, 6]);
}

#[test]
fn test_lict() {
    let a = Lict::new(vec![0; 8]);
    for (i, v) in a.items() {
        println!("{}: {}", i, v);
    }
    assert!(a.contains(3));
}

#[test]
fn test_lict2() {
    let mut a = Lict::new(vec![1, 4, 3, 6]);
    assert_eq!(a.get(2), Some(&3));
    assert!(a.contains(3));
    assert_eq!(a.len(), 4);
    assert_eq!(a.values(), vec![1, 4, 3, 6]);
    assert_eq!(a.items(), vec![(0, 1), (1, 4), (2, 3), (3, 6)]);
    a.set(2, 7);
    assert_eq!(a.get(2), Some(&7));
}

#[test]
fn test_lict_out_of_range() {
    let mut a = Lict::new(vec![1, 2]);
    assert_eq!(a.get(2), None);
    assert!(!a.contains(2));
    a.set(5, 9);
    assert_eq!(a.values(), vec![1, 2]);
    assert!(!a.is_empty());
    let empty: Lict<i32> = Lict::new(vec![]);
    assert!(empty.is_empty());
}

#[test]
fn test_robin() {
    let rr: Robin = Robin::new(6);
    let mut count = 0;
    let mut it = rr.exclude(2);
    while let Some(_i) = it.next() {
        count += 1;
    }
    assert_eq!(count, 5);
}

#[test]
fn test_robin_order() {
    let rr: Robin = Robin::new(5);
    let mut seen = Vec::new();
    let mut it = rr.exclude(3);
    while let Some(i) = it.next() {
        seen.push(i);
    }
    assert_eq!(seen, vec![4, 0, 1, 2]);
}
