use linked_deque::List;

// Elements pushed at mixed ends come back off in deque order: last in,
// first out at the same end, first in, first out across opposite ends.
#[test]
fn mixed_ends_order() {
    let mut list = List::new();
    list.push_back(2);
    list.push_front(1);
    list.push_back(3);
    assert_eq!(list.pop_front(), Some(1));
    assert_eq!(list.pop_back(), Some(3));
    assert_eq!(list.pop_front(), Some(2));
    assert_eq!(list.pop_front(), None);
}

// Emptying the list by pops leaves it empty: every later pop or peek, at
// either end, keeps reporting no value.
#[test]
fn exhaustion_both_ends() {
    let mut list = List::new();
    list.push_front(10);
    list.push_back(20);
    assert_eq!(list.pop_back(), Some(20));
    assert_eq!(list.pop_front(), Some(10));
    assert_eq!(list.pop_front(), None);
    assert_eq!(list.pop_back(), None);
    assert!(list.peek_front().is_none());
    assert!(list.peek_back().is_none());
    assert_eq!(list.pop_front(), None);
}

// Peeks never consume: repeated peeks return the same value until a
// mutation intervenes, and the elements are all still there afterwards.
#[test]
fn repeated_peeks() {
    let mut list = List::new();
    list.push_back(7);
    list.push_back(9);
    assert_eq!(list.peek_front().copied(), Some(7));
    assert_eq!(list.peek_front().copied(), Some(7));
    assert_eq!(list.peek_back().copied(), Some(9));
    assert_eq!(list.peek_back().copied(), Some(9));
    assert_eq!(list.pop_front(), Some(7));
    assert_eq!(list.pop_back(), Some(9));
}

// A value written through the mutable front view is what the next
// pop_front returns; the rest of the list is untouched.  Same at the back.
#[test]
fn peek_mut_then_pop() {
    let mut list = List::new();
    list.push_back(1);
    list.push_back(2);
    if let Some(v) = list.peek_front_mut() {
        *v = 42;
    }
    assert_eq!(list.pop_front(), Some(42));
    assert_eq!(list.peek_front().copied(), Some(2));
    if let Some(v) = list.peek_back_mut() {
        *v = 7;
    }
    assert_eq!(list.pop_back(), Some(7));
    assert_eq!(list.pop_back(), None);
}

// The borrowing forward iterator yields the payloads front to back and then
// keeps reporting the end of the sequence.
#[test]
fn iter_forward() {
    let mut list = List::new();
    list.push_front(1);
    list.push_front(2);
    list.push_front(3);

    let mut it = list.iter();
    assert_eq!(it.next().copied(), Some(3));
    assert_eq!(it.next().copied(), Some(2));
    assert_eq!(it.next().copied(), Some(1));
    assert!(it.next().is_none());
    assert!(it.next().is_none());

    // The list still owns every element.
    assert_eq!(list.pop_front(), Some(3));
    assert_eq!(list.pop_front(), Some(2));
    assert_eq!(list.pop_front(), Some(1));
}

// The concrete pop/push scenario at the back, starting from an empty list.
#[test]
fn back_scenario() {
    let mut list = List::new();
    assert_eq!(list.pop_front(), None);
    list.push_back(1);
    list.push_back(2);
    list.push_back(3);
    assert_eq!(list.pop_back(), Some(3));
    assert_eq!(list.pop_back(), Some(2));
    list.push_back(4);
    list.push_back(5);
    assert_eq!(list.pop_back(), Some(5));
    assert_eq!(list.pop_back(), Some(4));
    assert_eq!(list.pop_back(), Some(1));
    assert_eq!(list.pop_back(), None);
}

// The payload type need not be copyable: values are moved in and out.
#[test]
fn string_payloads() {
    let mut list = List::new();
    list.push_back(String::from("front"));
    list.push_back(String::from("back"));
    assert_eq!(list.peek_front().map(|s| s.as_str()), Some("front"));
    assert_eq!(list.pop_back(), Some(String::from("back")));
    assert_eq!(list.pop_front(), Some(String::from("front")));
    assert_eq!(list.pop_front(), None);
}

// A defaulted list is empty.
#[test]
fn default_is_empty() {
    let mut list: List<u8> = List::default();
    assert_eq!(list.pop_front(), None);
    assert_eq!(list.pop_back(), None);
}
