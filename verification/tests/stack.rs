use gee::stack::Stack;
use gee::syntax::ContextReference;

#[test]
fn empty_stack_has_no_top() {
    let s = Stack::new();
    assert_eq!(s.empty(), 0);
    assert_eq!(s.top(0), None);
}

#[test]
fn push_is_interned() {
    let mut s = Stack::new();
    let a = s.push(ContextReference(1, 2), 0);
    let b = s.push(ContextReference(1, 2), 0);
    assert_eq!(a, b);
    assert_eq!(a, 1);
    let c = s.push(ContextReference(1, 3), 0);
    assert_ne!(a, c);
    let d = s.push(ContextReference(1, 2), a);
    assert_ne!(d, a);
    assert_eq!(s.top(d), Some(ContextReference(1, 2)));
    assert_eq!(s.pop(d), a);
    assert_eq!(s.pop(a), 0);
}

#[test]
fn set_replaces_top() {
    let mut s = Stack::new();
    let a = s.push(ContextReference(0, 1), 0);
    let b = s.push(ContextReference(0, 2), a);
    let c = s.set(b, ContextReference(0, 3));
    assert_eq!(s.top(c), Some(ContextReference(0, 3)));
    assert_eq!(s.pop(c), a);
    let again = s.push(ContextReference(0, 3), a);
    assert_eq!(again, c);
}

#[test]
fn popping_reaches_empty_stack() {
    let mut s = Stack::new();
    let a = s.push(ContextReference(0, 1), s.empty());
    let b = s.push(ContextReference(0, 2), a);
    let c = s.push(ContextReference(0, 3), b);
    assert!(s.pop(c) < c && s.pop(b) < b && s.pop(a) < a);
    assert_eq!(s.pop(s.pop(s.pop(c))), 0);
    assert_eq!(s.pop(0), 0);
    assert_eq!(s.top(s.empty()), None);
}
