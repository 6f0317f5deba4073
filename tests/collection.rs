use rust_in_action::collection::ToyVec;

#[test]
fn test_get() {
    let mut vec = ToyVec::<u8>::new();
    assert_eq!(vec.get(0), None);
    assert_eq!(vec.get(1), None);
    assert_eq!(vec.get(2), None);
    vec.push(1);
    assert_eq!(vec.get(0), Some(&1));
    assert_eq!(vec.get(1), None);
    assert_eq!(vec.get(2), None);
    vec.push(2);
    assert_eq!(vec.get(0), Some(&1));
    assert_eq!(vec.get(1), Some(&2));
    assert_eq!(vec.get(2), None);
}

#[test]
fn test_get_or() {
    let mut vec = ToyVec::<u8>::new();
    assert_eq!(vec.get(0), None);
    let a = 100;
    assert_eq!(vec.get_or(0, &a), &a);
    let b = 200;
    vec.push(b);
    assert_eq!(vec.get_or(0, &a), &b);
}

#[test]
fn test_pop() {
    let mut vec = ToyVec::<u8>::new();
    assert_eq!(vec.pop(), None);
    let a = 100;
    let b = 200;
    vec.push(a);
    vec.push(b);
    assert_eq!(vec.len(), 2);
    assert_eq!(vec.pop(), Some(b));
    assert_eq!(vec.len(), 1);
}

#[test]
fn test_for() {
    let mut vec = ToyVec::<u8>::new();
    vec.push(0);
    vec.push(1);
    vec.push(2);

    let mut expected = Vec::new();
    let mut items = vec.iter();
    while let Some(&e) = items.next() {
        expected.push(e);
    }
    assert_eq!(expected, vec![0, 1, 2]);
}

#[test]
fn room_doubles_when_full() {
    let mut vec = ToyVec::<u32>::with_capacity(2);
    assert_eq!(vec.capacity(), 2);
    vec.push(1);
    vec.push(2);
    assert_eq!(vec.capacity(), 2);
    vec.push(3);
    assert_eq!(vec.capacity(), 4);
    assert_eq!(vec.len(), 3);
    let mut empty = ToyVec::<u32>::new();
    assert_eq!(empty.capacity(), 0);
    empty.push(9);
    assert_eq!(empty.capacity(), 1);
    assert_eq!(empty.get(0), Some(&9));
}

#[test]
fn pop_keeps_room_and_order() {
    let mut vec = ToyVec::<u32>::new();
    for i in 0..5u32 {
        vec.push(i);
    }
    assert_eq!(vec.capacity(), 8);
    assert_eq!(vec.pop(), Some(4));
    assert_eq!(vec.pop(), Some(3));
    assert_eq!(vec.capacity(), 8);
    assert_eq!(vec.get_or(2, &99), &2);
    assert_eq!(vec.get_or(3, &99), &99);
}
