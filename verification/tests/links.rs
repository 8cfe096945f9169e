use binder_lists::links::ListNode;

#[test]
fn new_node_is_unlinked() {
    let node = ListNode::new();
    assert_eq!(node.prev, None);
    assert_eq!(node.next, None);
}
