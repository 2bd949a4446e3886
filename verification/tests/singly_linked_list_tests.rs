use node_containers::SinglyLinkedList;

fn create_test_list<T: Clone>(values: &[T]) -> SinglyLinkedList<T> {
    let mut list = SinglyLinkedList::new();
    for value in values.iter().rev() {
        list.push_front(value.clone());
    }
    list
}

#[test]
fn test_new() {
    let list: SinglyLinkedList<i32> = SinglyLinkedList::new();
    assert!(list.is_empty());
    assert_eq!(list.size(), 0);
    assert!(list.peek_front().is_none());
}

#[test]
fn test_is_empty() {
    let mut list: SinglyLinkedList<i32> = SinglyLinkedList::new();
    assert!(list.is_empty());

    list.push_front(1);
    assert!(!list.is_empty());

    list.pop_front();
    assert!(list.is_empty());
}

#[test]
fn test_size() {
    let mut list = SinglyLinkedList::new();
    assert_eq!(list.size(), 0);

    list.push_front(1);
    assert_eq!(list.size(), 1);

    list.push_front(2);
    assert_eq!(list.size(), 2);

    list.pop_front();
    assert_eq!(list.size(), 1);

    list.pop_front();
    assert_eq!(list.size(), 0);
}

#[test]
fn test_push_front() {
    let mut list = SinglyLinkedList::new();

    list.push_front(1);
    assert_eq!(list.peek_front(), Some(&1));
    assert_eq!(list.size(), 1);

    list.push_front(2);
    assert_eq!(list.peek_front(), Some(&2));
    assert_eq!(list.size(), 2);

    let mut string_list = SinglyLinkedList::new();
    string_list.push_front(String::from("hello"));
    assert_eq!(string_list.peek_front(), Some(&String::from("hello")));

    string_list.push_front(String::from("world"));
    assert_eq!(string_list.peek_front(), Some(&String::from("world")));
}

#[test]
fn test_pop_front() {
    let mut list = create_test_list(&[1, 2, 3]);

    assert_eq!(list.pop_front(), Some(1));
    assert_eq!(list.size(), 2);
    assert_eq!(list.peek_front(), Some(&2));

    assert_eq!(list.pop_front(), Some(2));
    assert_eq!(list.size(), 1);
    assert_eq!(list.peek_front(), Some(&3));

    assert_eq!(list.pop_front(), Some(3));
    assert_eq!(list.size(), 0);
    assert_eq!(list.peek_front(), None);

    assert_eq!(list.pop_front(), None);
    assert_eq!(list.size(), 0);
}

#[test]
fn singly_linked_list_test_peek_front() {
    let mut list = SinglyLinkedList::new();
    assert_eq!(list.peek_front(), None);

    list.push_front(1);
    assert_eq!(list.peek_front(), Some(&1));

    list.push_front(2);
    assert_eq!(list.peek_front(), Some(&2));

    assert_eq!(list.peek_front(), Some(&2));
    assert_eq!(list.size(), 2);
}

#[test]
fn test_push_back() {
    let mut list = SinglyLinkedList::new();

    list.push_back(1);
    assert_eq!(list.peek_front(), Some(&1));
    assert_eq!(list.peek_back(), Some(&1));
    assert_eq!(list.size(), 1);

    list.push_back(2);
    assert_eq!(list.peek_front(), Some(&1));
    assert_eq!(list.peek_back(), Some(&2));
    assert_eq!(list.size(), 2);

    list.push_back(3);
    assert_eq!(list.peek_front(), Some(&1));
    assert_eq!(list.peek_back(), Some(&3));
    assert_eq!(list.size(), 3);

    let mut string_list = SinglyLinkedList::new();
    string_list.push_back(String::from("hello"));
    string_list.push_back(String::from("world"));
    assert_eq!(string_list.peek_front(), Some(&String::from("hello")));
    assert_eq!(string_list.peek_back(), Some(&String::from("world")));
}

#[test]
fn test_pop_back() {
    let mut list = create_test_list(&[1, 2, 3]);

    assert_eq!(list.pop_back(), Some(3));
    assert_eq!(list.size(), 2);
    assert_eq!(list.peek_back(), Some(&2));

    assert_eq!(list.pop_back(), Some(2));
    assert_eq!(list.size(), 1);
    assert_eq!(list.peek_back(), Some(&1));

    assert_eq!(list.pop_back(), Some(1));
    assert_eq!(list.size(), 0);
    assert_eq!(list.peek_back(), None);

    assert_eq!(list.pop_back(), None);
    assert_eq!(list.size(), 0);
}

#[test]
fn singly_linked_list_test_peek_back() {
    let mut list = SinglyLinkedList::new();
    assert_eq!(list.peek_back(), None);

    list.push_front(1);
    assert_eq!(list.peek_back(), Some(&1));

    list.push_back(2);
    assert_eq!(list.peek_back(), Some(&2));

    assert_eq!(list.peek_back(), Some(&2));
    assert_eq!(list.size(), 2);
}

#[test]
fn singly_linked_list_test_mixed_operations() {
    let mut list = SinglyLinkedList::new();

    list.push_front(2);
    list.push_back(3);
    list.push_front(1);

    assert_eq!(list.size(), 3);
    assert_eq!(list.peek_front(), Some(&1));
    assert_eq!(list.peek_back(), Some(&3));

    assert_eq!(list.pop_front(), Some(1));
    assert_eq!(list.pop_back(), Some(3));

    assert_eq!(list.size(), 1);
    assert_eq!(list.peek_front(), Some(&2));
    assert_eq!(list.peek_back(), Some(&2));

    list.push_back(4);
    list.push_front(0);

    assert_eq!(list.size(), 3);
    assert_eq!(list.pop_front(), Some(0));
    assert_eq!(list.pop_front(), Some(2));
    assert_eq!(list.pop_front(), Some(4));
    assert_eq!(list.pop_front(), None);
    assert!(list.is_empty());
}
