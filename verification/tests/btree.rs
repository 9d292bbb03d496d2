use qdb::btree::{Node, BTREE_ORDER};

#[test]
fn btree_it_works() {}

#[test]
fn nodes_hold_keys_and_children() {
    let leaf = Node { keys: vec![vec![1u8], vec![2u8]], children: Vec::new() };
    let root = Node { keys: vec![vec![3u8]], children: vec![leaf] };
    assert_eq!(root.children[0].keys.len(), 2);
    assert!(root.children.len() <= BTREE_ORDER);
}
