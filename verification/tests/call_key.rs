use kyute::{CallKeyStack, CallSite};

#[test]
fn key_stack_pushes_and_pops() {
    let here = CallSite {
        file: "a.rs",
        line: 1,
        column: 2,
    };
    let there = CallSite {
        file: "b.rs",
        line: 1,
        column: 2,
    };
    let mut stack = CallKeyStack::new();
    assert!(stack.is_empty());
    assert_eq!(stack.current().0, 0);
    let first = stack.enter(&here, 0);
    assert_eq!(stack.current(), first);
    assert_eq!(stack.depth(), 1);
    // the key depends on the keys above it
    let below = stack.chain_hash(&here, 0);
    assert_ne!(below, first.0);
    let second = stack.enter(&there, 3);
    assert_eq!(stack.current(), second);
    let third = stack.enter(&there, 3);
    assert_ne!(third, second);
    stack.exit();
    stack.exit();
    assert_eq!(stack.current(), first);
    // entering from the same place under the same keys gives the same key
    assert_eq!(stack.enter(&there, 3), second);
    stack.exit();
    stack.exit();
    assert!(stack.is_empty());
    assert_eq!(stack.enter(&here, 0), first);
    // a hasher fed 0, 0, the site and the index: this fixes the order
    let mut other = CallKeyStack::new();
    assert_ne!(other.enter(&here, 1), first);
}
