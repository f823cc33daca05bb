use linked_lists::fourth::List;

#[test]
fn fourth_basics() {
    let mut list = List::new();

    // Check empty list behaves right
    assert_eq!(list.pop_front(), None);

    // Populate list
    list.push_front(1);
    list.push_front(2);
    list.push_front(3);

    // Peek
    assert_eq!(&*list.peek_front().unwrap(), &3);

    // Check normal removal
    assert_eq!(list.pop_front(), Some(3));
    assert_eq!(list.pop_front(), Some(2));

    // Push some more just to make sure nothing's corrupted
    list.push_front(4);
    list.push_front(5);

    // Check normal removal
    assert_eq!(list.pop_front(), Some(5));
    assert_eq!(list.pop_front(), Some(4));

    // Check exhaustion
    assert_eq!(list.pop_front(), Some(1));
    assert_eq!(list.pop_front(), None);

    // -- back

    // Check empty list behaves right
    assert_eq!(list.pop_back(), None);

    // Populate list
    list.push_back(1);
    list.push_back(2);
    list.push_back(3);

    // Peek
    assert_eq!(&*list.peek_back().unwrap(), &3);

    // Check normal removal
    assert_eq!(list.pop_back(), Some(3));
    assert_eq!(list.pop_back(), Some(2));

    // Push some more just to make sure nothing's corrupted
    list.push_back(4);
    list.push_back(5);

    // Check normal removal
    assert_eq!(list.pop_back(), Some(5));
    assert_eq!(list.pop_back(), Some(4));

    // Check exhaustion
    assert_eq!(list.pop_back(), Some(1));
    assert_eq!(list.pop_back(), None);
}

#[test]
fn peek() {
    let mut list = List::new();
    assert!(list.peek_front().is_none());
    assert!(list.peek_back().is_none());
    assert!(list.peek_front_mut().is_none());
    assert!(list.peek_back_mut().is_none());

    list.push_front(1); list.push_front(2); list.push_front(3);

    assert_eq!(&*list.peek_front().unwrap(), &3);
    assert_eq!(&mut *list.peek_front_mut().unwrap(), &mut 3);
    assert_eq!(&*list.peek_back().unwrap(), &1);
    assert_eq!(&*list.peek_back_mut().unwrap(), &mut 1);
}

#[test]
fn front_pushes_pop_in_reverse() {
    let mut list = List::new();
    list.push_front('a');
    list.push_front('b');
    list.push_front('c');
    assert_eq!(list.pop_front(), Some('c'));
    assert_eq!(list.pop_front(), Some('b'));
    assert_eq!(list.pop_front(), Some('a'));
    assert_eq!(list.pop_front(), None);
}

#[test]
fn back_pushes_pop_from_front_in_order() {
    let mut list = List::new();
    list.push_back('a');
    list.push_back('b');
    list.push_back('c');
    assert_eq!(list.pop_front(), Some('a'));
    assert_eq!(list.pop_front(), Some('b'));
    assert_eq!(list.pop_front(), Some('c'));
    assert_eq!(list.pop_front(), None);
}

#[test]
fn front_pushes_pop_from_back_in_order() {
    let mut list = List::new();
    list.push_front(1);
    list.push_front(2);
    list.push_front(3);
    assert_eq!(list.pop_back(), Some(1));
    assert_eq!(list.pop_back(), Some(2));
    assert_eq!(list.pop_back(), Some(3));
    assert_eq!(list.pop_back(), None);
}

#[test]
fn mixed_ends_keep_order() {
    let mut list = List::new();
    list.push_back(2);
    list.push_front(1);
    list.push_back(3);
    list.push_front(0);
    assert_eq!(list.peek_front(), Some(&0));
    assert_eq!(list.peek_back(), Some(&3));
    // Take from the middle of the arena so that a node has to move slots.
    assert_eq!(list.pop_front(), Some(0));
    assert_eq!(list.pop_back(), Some(3));
    list.push_back(4);
    assert_eq!(list.pop_front(), Some(1));
    assert_eq!(list.pop_front(), Some(2));
    assert_eq!(list.pop_front(), Some(4));
    assert_eq!(list.pop_front(), None);
    assert_eq!(list.pop_back(), None);
}

#[test]
fn peek_then_pop_sees_same_element() {
    let mut list = List::new();
    list.push_back(10);
    list.push_back(20);
    let seen = *list.peek_front().unwrap();
    assert_eq!(list.pop_front(), Some(seen));
    let seen_back = *list.peek_back().unwrap();
    assert_eq!(list.pop_back(), Some(seen_back));
    assert_eq!(list.pop_front(), None);
}

#[test]
fn peeking_keeps_length() {
    let mut list = List::new();
    list.push_back(1);
    list.push_back(2);
    for _ in 0..3 {
        assert_eq!(list.peek_front(), Some(&1));
        assert_eq!(list.peek_back(), Some(&2));
    }
    assert_eq!(list.pop_front(), Some(1));
    assert_eq!(list.pop_front(), Some(2));
    assert_eq!(list.pop_front(), None);
}

#[test]
fn write_through_front_peek_is_popped() {
    let mut list = List::new();
    list.push_back(1);
    list.push_back(2);
    if let Some(e) = list.peek_front_mut() {
        *e = 42;
    }
    assert_eq!(list.pop_front(), Some(42));
    assert_eq!(list.pop_front(), Some(2));
}

#[test]
fn write_through_back_peek_is_popped() {
    let mut list = List::new();
    list.push_back(1);
    list.push_back(2);
    if let Some(e) = list.peek_back_mut() {
        *e += 5;
    }
    assert_eq!(list.pop_back(), Some(7));
    assert_eq!(list.pop_back(), Some(1));
}

#[test]
fn empty_deque_gives_nothing_at_either_end() {
    let mut list: List<u8> = List::new();
    assert_eq!(list.pop_front(), None);
    assert_eq!(list.pop_back(), None);
    assert!(list.peek_front().is_none());
    assert!(list.peek_back().is_none());
    assert!(list.peek_front_mut().is_none());
    assert!(list.peek_back_mut().is_none());
}

#[test]
fn single_element_is_both_ends() {
    let mut list = List::new();
    list.push_front(9);
    assert_eq!(list.peek_front(), Some(&9));
    assert_eq!(list.peek_back(), Some(&9));
    assert_eq!(list.pop_back(), Some(9));
    assert!(list.peek_front().is_none());
    assert_eq!(list.pop_front(), None);
}

#[test]
fn alternating_operations_stay_consistent() {
    let mut list = List::new();
    let mut model: std::collections::VecDeque<u32> = std::collections::VecDeque::new();
    let mut seed: u32 = 12345;
    for _ in 0..2000 {
        seed = seed.wrapping_mul(1103515245).wrapping_add(12345);
        let v = seed >> 16;
        match v % 6 {
            0 => { list.push_front(v); model.push_front(v); }
            1 => { list.push_back(v); model.push_back(v); }
            2 => assert_eq!(list.pop_front(), model.pop_front()),
            3 => assert_eq!(list.pop_back(), model.pop_back()),
            4 => assert_eq!(list.peek_front(), model.front()),
            _ => assert_eq!(list.peek_back(), model.back()),
        }
    }
    while let Some(x) = model.pop_front() {
        assert_eq!(list.pop_front(), Some(x));
    }
    assert_eq!(list.pop_front(), None);
}

#[test]
fn deque_teardown_of_long_list() {
    let mut list = List::new();
    for i in 0..100_000u32 {
        list.push_back(i);
    }
    drop(list);
}
