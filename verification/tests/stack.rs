use evml::stack::Stack;

#[test]
fn new_stack_is_empty() {
    let s: Stack<u8> = Stack::new();
    assert_eq!(s.len(), 0);
}

#[test]
fn push_increases_len() {
    let mut s: Stack<u8> = Stack::new();
    s.push(Some(1));
    s.push(None);
    assert_eq!(s.len(), 2);
}

#[test]
fn extend_pushes_multiple() {
    let mut s: Stack<u8> = Stack::new();
    s.extend(&[1, 2, 3]);
    assert_eq!(s.len(), 3);
}

#[test]
fn popn_removes_from_top() {
    let mut s: Stack<u8> = Stack::new();
    s.extend(&[1, 2, 3]);
    s.popn(2);
    assert_eq!(s.len(), 1);
    assert_eq!(s.read(0), Some(1));
}

#[test]
fn read_returns_item_at_depth() {
    let mut s: Stack<u8> = Stack::new();
    s.extend(&[10, 20, 30]);
    assert_eq!(s.read(0), Some(30));
    assert_eq!(s.read(1), Some(20));
    assert_eq!(s.read(2), Some(10));
}

#[test]
fn swap_exchanges_top_with_depth() {
    let mut s: Stack<u8> = Stack::new();
    s.extend(&[1, 2, 3]);
    s.swap(2);
    assert_eq!(s.read(0), Some(1));
    assert_eq!(s.read(2), Some(3));
}

#[test]
fn depth_finds_item_in_scratch() {
    let mut s: Stack<u8> = Stack::new();
    s.extend(&[1, 2, 3]);
    assert_eq!(s.depth(3), 0);
    assert_eq!(s.depth(2), 1);
    assert_eq!(s.depth(1), 2);
}

#[test]
fn swap_zero_is_noop() {
    let mut s: Stack<u8> = Stack::new();
    s.extend(&[1, 2]);
    s.swap(0);
    assert_eq!(s.read(0), Some(2));
    assert_eq!(s.read(1), Some(1));
}

#[test]
fn swap_with_none() {
    let mut s: Stack<u8> = Stack::new();
    s.extend(&[1, 2]);
    s.push(None);
    s.swap(2);
    assert_eq!(s.read(0), Some(1));
}

#[test]
fn pop_checkpoint_restores_swapped_values() {
    let mut s: Stack<u8> = Stack::new();
    s.extend(&[1, 2, 3]);
    s.push_checkpoint();
    s.swap(2);
    s.pop_checkpoint();
    assert_eq!(s.len(), 3);
    assert_eq!(s.read(0), Some(3));
    assert_eq!(s.read(1), Some(2));
    assert_eq!(s.read(2), Some(1));
}

#[test]
fn pop_checkpoint_restores_popped_values() {
    let mut s: Stack<u8> = Stack::new();
    s.extend(&[1, 2, 3]);
    s.push_checkpoint();
    s.popn(2);
    s.pop_checkpoint();
    assert_eq!(s.len(), 3);
    assert_eq!(s.read(0), Some(3));
    assert_eq!(s.read(1), Some(2));
    assert_eq!(s.read(2), Some(1));
}

#[test]
fn pop_checkpoint_discards_pushed_values() {
    let mut s: Stack<u8> = Stack::new();
    s.extend(&[1, 2]);
    s.push_checkpoint();
    s.push(Some(3));
    s.push(None);
    s.pop_checkpoint();
    assert_eq!(s.len(), 2);
    assert_eq!(s.read(0), Some(2));
    assert_eq!(s.read(1), Some(1));
}

#[test]
fn nested_checkpoints_restore_in_lifo_order() {
    let mut s: Stack<u8> = Stack::new();
    s.extend(&[1, 2, 3]);
    s.push_checkpoint();
    s.swap(2);
    s.push_checkpoint();
    s.popn(1);
    s.pop_checkpoint();
    assert_eq!(s.len(), 3);
    assert_eq!(s.read(0), Some(1));
    assert_eq!(s.read(1), Some(2));
    assert_eq!(s.read(2), Some(3));
    s.pop_checkpoint();
    assert_eq!(s.len(), 3);
    assert_eq!(s.read(0), Some(3));
    assert_eq!(s.read(1), Some(2));
    assert_eq!(s.read(2), Some(1));
}
