use linked_stack::List;

#[test]
fn basics() {
    let mut list = List::new();

    // Check empty list behaves right
    assert_eq!(list.pop(), None);

    // Populate list
    list.push(1);
    list.push(2);
    list.push(3);

    // Check normal removal
    assert_eq!(list.pop(), Some(3));
    assert_eq!(list.pop(), Some(2));

    // Push some more just to make sure nothing's corrupted
    list.push(4);
    list.push(5);

    // Check normal removal
    assert_eq!(list.pop(), Some(5));
    assert_eq!(list.pop(), Some(4));

    // Check exhaustion
    assert_eq!(list.pop(), Some(1));
    assert_eq!(list.pop(), None);
}

#[test]
fn pops_reverse_pushes() {
    let values = [7, -3, 0, i32::MAX, i32::MIN, 42];
    let mut list = List::new();
    for v in values {
        list.push(v);
    }
    for v in values.iter().rev() {
        assert_eq!(list.pop(), Some(*v));
    }
    assert_eq!(list.pop(), None);
}

#[test]
fn pop_on_empty_stays_empty() {
    let mut list = List::new();
    assert_eq!(list.pop(), None);
    assert_eq!(list.pop(), None);
    list.push(9);
    assert_eq!(list.pop(), Some(9));
    assert_eq!(list.pop(), None);
    assert_eq!(list.pop(), None);
}

#[test]
fn interleaved_leaves_most_recent_survivor_on_top() {
    // Five pushes, three pops: two values remain, 10 and 30.
    let mut list = List::new();
    list.push(10);
    list.push(20);
    assert_eq!(list.pop(), Some(20));
    list.push(30);
    list.push(40);
    list.push(50);
    assert_eq!(list.pop(), Some(50));
    assert_eq!(list.pop(), Some(40));
    assert_eq!(list.pop(), Some(30));
    assert_eq!(list.pop(), Some(10));
    assert_eq!(list.pop(), None);
}

#[test]
fn long_chain_drops_without_overflow() {
    let mut list = List::new();
    for i in 0..1_000_000 {
        list.push(i);
    }
    drop(list);
}

#[test]
fn long_chain_pops_in_order() {
    let mut list = List::new();
    for i in 0..10_000 {
        list.push(i);
    }
    for i in (0..10_000).rev() {
        assert_eq!(list.pop(), Some(i));
    }
    assert_eq!(list.pop(), None);
}

#[test]
fn push_after_exhaustion_matches_fresh() {
    let mut used = List::new();
    used.push(1);
    used.push(2);
    assert_eq!(used.pop(), Some(2));
    assert_eq!(used.pop(), Some(1));
    assert_eq!(used.pop(), None);

    let mut fresh = List::new();
    for v in [5, 6, 7] {
        used.push(v);
        fresh.push(v);
    }
    for _ in 0..4 {
        assert_eq!(used.pop(), fresh.pop());
    }
    assert_eq!(used.pop(), None);
}
