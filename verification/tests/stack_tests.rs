use node_containers::Stack;

#[derive(Debug, PartialEq)]
struct Point {
    x: i32,
    y: i32,
}

#[test]
fn stack_test_new_is_empty() {
    let stack: Stack<i32> = Stack::new();
    assert!(stack.is_empty());
    assert_eq!(stack.size(), 0);
}

#[test]
fn stack_test_push_increases_size() {
    let mut stack = Stack::new();
    stack.push(10);
    assert!(!stack.is_empty());
    assert_eq!(stack.size(), 1);

    stack.push(20);
    assert_eq!(stack.size(), 2);
}

#[test]
fn stack_test_peek_operations() {
    let mut stack = Stack::new();
    assert_eq!(stack.top(), None);

    stack.push(10);
    assert_eq!(stack.top(), Some(&10));

    stack.push(20);
    assert_eq!(stack.top(), Some(&20));
    assert_eq!(stack.size(), 2);
}

#[test]
fn stack_test_pop_decreases_size() {
    let mut stack = Stack::new();
    stack.push(10);
    stack.push(20);
    stack.push(30);

    assert_eq!(stack.pop(), Some(30));
    assert_eq!(stack.size(), 2);

    assert_eq!(stack.pop(), Some(20));
    assert_eq!(stack.size(), 1);

    assert_eq!(stack.pop(), Some(10));
    assert_eq!(stack.size(), 0);
    assert!(stack.is_empty());

    assert_eq!(stack.pop(), None);
}

#[test]
fn test_lifo_order() {
    let mut stack = Stack::new();
    for i in 0..5 {
        stack.push(i);
    }

    for i in (0..5).rev() {
        assert_eq!(stack.pop(), Some(i));
    }
}

#[test]
fn stack_test_mixed_operations() {
    let mut stack = Stack::new();

    stack.push(10);
    stack.push(20);
    assert_eq!(stack.top(), Some(&20));

    assert_eq!(stack.pop(), Some(20));
    stack.push(30);
    stack.push(40);

    assert_eq!(stack.pop(), Some(40));
    assert_eq!(stack.pop(), Some(30));
    assert_eq!(stack.pop(), Some(10));
    assert!(stack.is_empty());
}

#[test]
fn stack_test_with_complex_types() {
    let mut string_stack = Stack::new();
    string_stack.push(String::from("hello"));
    string_stack.push(String::from("world"));

    assert_eq!(string_stack.top(), Some(&String::from("world")));
    assert_eq!(string_stack.pop(), Some(String::from("world")));
    assert_eq!(string_stack.pop(), Some(String::from("hello")));

    let mut point_stack = Stack::new();
    point_stack.push(Point { x: 1, y: 2 });
    point_stack.push(Point { x: 3, y: 4 });

    assert_eq!(point_stack.top(), Some(&Point { x: 3, y: 4 }));
    assert_eq!(point_stack.pop(), Some(Point { x: 3, y: 4 }));
    assert_eq!(point_stack.pop(), Some(Point { x: 1, y: 2 }));
}
