use swag::stack::List;

#[test]
fn list() {
    let l1: List<usize> = List::empty();
    let l2 = l1.cons(3).cons(2).cons(1);
    let l3 = l1.cons(5).cons(4);

    assert!(l1.is_empty());
    assert!(!l2.is_empty());
    assert_eq!(l2.head(), Some(1));
    assert_eq!(l2.tail().head(), Some(2));
    assert_eq!(l2.tail().tail().head(), Some(3));
    assert!(l2.tail().tail().tail().is_empty());
    assert_eq!(l3.head(), Some(4));
    assert_eq!(l3.tail().head(), Some(5));
    assert!(l1.head().is_none());
    assert!(l1.tail().is_empty());
}
