use node_containers::DoublyLinkedList;

#[test]
fn test_new_list_is_empty() {
    let list: DoublyLinkedList<i32> = DoublyLinkedList::new();
    assert!(list.is_empty());
    assert_eq!(list.size(), 0);
}

#[test]
fn test_push_front_increases_size() {
    let mut list = DoublyLinkedList::new();
    list.push_front(1);
    assert_eq!(list.size(), 1);
    assert!(!list.is_empty());

    list.push_front(2);
    assert_eq!(list.size(), 2);
}

#[test]
fn test_push_back_increases_size() {
    let mut list = DoublyLinkedList::new();
    list.push_back(1);
    assert_eq!(list.size(), 1);
    assert!(!list.is_empty());

    list.push_back(2);
    assert_eq!(list.size(), 2);
}

#[test]
fn test_pop_front_decreases_size() {
    let mut list = DoublyLinkedList::new();
    list.push_front(1);
    list.push_front(2);

    let value = list.pop_front();
    assert_eq!(value, Some(2));
    assert_eq!(list.size(), 1);

    let value = list.pop_front();
    assert_eq!(value, Some(1));
    assert_eq!(list.size(), 0);
    assert!(list.is_empty());
}

#[test]
fn test_pop_back_decreases_size() {
    let mut list = DoublyLinkedList::new();
    list.push_back(1);
    list.push_back(2);

    let value = list.pop_back();
    assert_eq!(value, Some(2));
    assert_eq!(list.size(), 1);

    let value = list.pop_back();
    assert_eq!(value, Some(1));
    assert_eq!(list.size(), 0);
    assert!(list.is_empty());
}

#[test]
fn doubly_linked_list_test_peek_front() {
    let mut list = DoublyLinkedList::new();
    assert_eq!(list.peek_front(), None);

    list.push_front(1);
    assert_eq!(list.peek_front(), Some(&1));

    list.push_front(2);
    assert_eq!(list.peek_front(), Some(&2));

    assert_eq!(list.size(), 2);
}

#[test]
fn doubly_linked_list_test_peek_back() {
    let mut list = DoublyLinkedList::new();
    assert_eq!(list.peek_back(), None);

    list.push_back(1);
    assert_eq!(list.peek_back(), Some(&1));

    list.push_back(2);
    assert_eq!(list.peek_back(), Some(&2));

    assert_eq!(list.size(), 2);
}

#[test]
fn doubly_linked_list_test_mixed_operations() {
    let mut list = DoublyLinkedList::new();

    list.push_front(2);
    list.push_back(3);
    list.push_front(1);

    assert_eq!(list.size(), 3);
    assert_eq!(list.peek_front(), Some(&1));
    assert_eq!(list.peek_back(), Some(&3));

    assert_eq!(list.pop_back(), Some(3));
    assert_eq!(list.pop_front(), Some(1));

    assert_eq!(list.size(), 1);
    assert_eq!(list.peek_front(), Some(&2));
    assert_eq!(list.peek_back(), Some(&2));

    assert_eq!(list.pop_front(), Some(2));
    assert!(list.is_empty());

    assert_eq!(list.pop_front(), None);
    assert_eq!(list.pop_back(), None);
    assert_eq!(list.peek_front(), None);
    assert_eq!(list.peek_back(), None);
}

#[test]
fn test_multiple_pops_when_empty() {
    let mut list = DoublyLinkedList::new();

    assert_eq!(list.pop_front(), None);
    assert_eq!(list.pop_front(), None);
    assert_eq!(list.pop_back(), None);
    assert_eq!(list.pop_back(), None);

    list.push_front(1);
    list.pop_front();

    assert_eq!(list.pop_front(), None);
    assert_eq!(list.pop_back(), None);
}

#[test]
fn doubly_linked_list_test_with_complex_types() {
    let mut list = DoublyLinkedList::new();

    list.push_back(String::from("Hello"));
    list.push_back(String::from("World"));

    assert_eq!(list.peek_front(), Some(&String::from("Hello")));
    assert_eq!(list.peek_back(), Some(&String::from("World")));

    assert_eq!(list.pop_front(), Some(String::from("Hello")));
    assert_eq!(list.pop_back(), Some(String::from("World")));
}

#[test]
fn test_ordering_is_preserved() {
    let mut list = DoublyLinkedList::new();

    for i in 0..5 {
        list.push_back(i);
    }

    for i in 0..5 {
        assert_eq!(list.pop_front(), Some(i));
    }

    for i in 0..5 {
        list.push_front(i);
    }

    for i in 0..5 {
        assert_eq!(list.pop_front(), Some(4 - i));
    }
}

#[test]
fn dll_scenario_three_pushes_then_pops() {
    let mut list = DoublyLinkedList::new();
    list.push_back(10);
    list.push_back(20);
    list.push_back(30);
    assert_eq!(list.size(), 3);
    assert_eq!(list.peek_front(), Some(&10));
    assert_eq!(list.peek_back(), Some(&30));

    assert_eq!(list.pop_front(), Some(10));
    assert_eq!(list.size(), 2);

    assert_eq!(list.pop_back(), Some(30));
    assert_eq!(list.size(), 1);
    assert_eq!(list.peek_front(), Some(&20));
    assert_eq!(list.peek_back(), Some(&20));
}

#[test]
fn dll_peeks_do_not_change_size_or_order() {
    let mut list = DoublyLinkedList::new();
    list.push_back(1);
    list.push_back(2);
    list.push_back(3);

    for _ in 0..3 {
        assert_eq!(list.peek_front(), Some(&1));
        assert_eq!(list.peek_back(), Some(&3));
        assert_eq!(list.size(), 3);
    }

    assert_eq!(list.pop_front(), Some(1));
    assert_eq!(list.pop_front(), Some(2));
    assert_eq!(list.pop_front(), Some(3));
}

#[test]
fn dll_freed_slots_are_reused() {
    let mut list = DoublyLinkedList::new();
    for i in 0..4 {
        list.push_back(i);
    }
    assert_eq!(list.pop_front(), Some(0));
    assert_eq!(list.pop_back(), Some(3));

    list.push_front(10);
    list.push_back(20);
    list.push_back(30);

    assert_eq!(list.size(), 5);
    assert_eq!(list.pop_front(), Some(10));
    assert_eq!(list.pop_front(), Some(1));
    assert_eq!(list.pop_front(), Some(2));
    assert_eq!(list.pop_front(), Some(20));
    assert_eq!(list.pop_front(), Some(30));
    assert!(list.is_empty());
}
