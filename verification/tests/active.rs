use std::collections::VecDeque;

use binder_lists::active::buffers;
use binder_lists::active::dead;
use binder_lists::active::locked;
use binder_lists::active::manager;
use binder_lists::active::payload;
use binder_lists::active::refs;
use binder_lists::active::sweep;
use binder_lists::links::ListNode;
use binder_lists::lists::heads;

#[test]
fn test_fixed_no_race() {
    let mut mem = Vec::new();
    let mut binder = dead::BinderFixed::new();
    let node1 = binder.alloc_dead_node(&mut mem, 42);
    let _node2 = binder.alloc_dead_node(&mut mem, 99);

    let stack1 = binder.move_to_stack(&mut mem);
    assert_eq!(stack1.len(), 2);
    assert_eq!(mem[stack1[0]].data, 99);
    assert_eq!(mem[stack1[1]].data, 42);

    mem[node1].strong_refs = 0;
    mem[node1].weak_refs = 0;
    binder.node_release(&mut mem, node1);

    let stack2 = binder.move_to_stack(&mut mem);
    assert!(stack2.is_empty());
}

#[test]
fn dead_node_leaves_the_list_with_its_last_reference() {
    let mut mem = Vec::new();
    let mut binder = dead::BinderFixed::new();
    let a = binder.alloc_dead_node(&mut mem, 1);
    let b = binder.alloc_dead_node(&mut mem, 2);
    let c = binder.alloc_dead_node(&mut mem, 3);
    mem[b].strong_refs = 2;
    assert!(!binder.node_release(&mut mem, b));
    assert_eq!(mem[b].strong_refs, 1);
    assert!(binder.node_release(&mut mem, b));
    assert!(binder.node_release(&mut mem, c));
    assert_eq!(binder.dead_nodes.head, Some(a));
    assert_eq!(binder.move_to_stack(&mut mem), vec![a]);
    // A node that is no longer on the list makes it forget the others.
    let d = binder.alloc_dead_node(&mut mem, 4);
    assert_eq!(binder.dead_nodes.head, Some(d));
    assert!(binder.node_release(&mut mem, b));
    assert_eq!(binder.dead_nodes.head, None);
    assert!(binder.move_to_stack(&mut mem).is_empty());
}

#[test]
fn dead_list_functions() {
    let node = dead::Node { prev: None, next: None, strong_refs: 1, weak_refs: 0, data: 0 };
    let mut mem = vec![node; 3];
    let mut list = dead::IntrusiveList { head: None };
    assert_eq!(dead::pop_front(&mut mem, &mut list), None);
    for a in 0..3 {
        dead::BinderFixed::push_front(&mut mem, &mut list, a);
    }
    dead::remove_node_from_list(&mut mem, 1, &mut list);
    assert_eq!(dead::pop_front(&mut mem, &mut list), Some(2));
    assert_eq!(dead::pop_front(&mut mem, &mut list), Some(0));
    assert_eq!(mem, vec![node; 3]);
}

#[test]
fn sweep_collects_the_dead() {
    let mut mem = vec![sweep::Node::new(); 4];
    let list = sweep::Alloc::new(&mut mem);
    assert_eq!(list.head, 4);
    for node in 0..4 {
        list.add_node(&mut mem, node);
    }
    mem[1].dead = true;
    mem[3].dead = true;
    let mut stack = VecDeque::from(vec![9]);
    list.move_to_stack(&mut mem, &mut stack);
    assert_eq!(stack, VecDeque::from(vec![9, 1, 3]));
    assert_eq!(heads::ListHead::for_each(&mem, list.head), vec![0, 2]);
    assert_eq!(mem[1].links, ListNode { prev: Some(1), next: Some(1) });
    list.move_to_stack(&mut mem, &mut stack);
    assert_eq!(stack.len(), 3);
}

#[test]
fn sweep_node_dies_with_its_last_reference() {
    let mut mem = vec![sweep::Node::new(); 3];
    let list = sweep::Alloc::new(&mut mem);
    for node in 0..3 {
        list.add_node(&mut mem, node);
    }
    mem[1].refcount = 2;
    sweep::Node::release(&mut mem, 1);
    assert!(!mem[1].dead);
    assert_eq!(heads::ListHead::for_each(&mem, list.head), vec![0, 1, 2]);
    sweep::Node::release(&mut mem, 1);
    assert!(mem[1].dead);
    assert_eq!(mem[1].refcount, 0);
    assert_eq!(heads::ListHead::for_each(&mem, list.head), vec![0, 2]);
    sweep::Node::do_unlink(&mut mem, 1);
    sweep::Node::do_unlink(&mut mem, 0);
    assert_eq!(heads::ListHead::for_each(&mem, list.head), vec![2]);
}

fn named_nodes(names: &[&str]) -> Vec<refs::Node> {
    names.iter().map(|n| refs::Node::new(n.to_string())).collect()
}

#[test]
fn refs_node_moves_to_the_stack_once() {
    let mut mem = named_nodes(&["head", "node1", "node2"]);
    let list = refs::ActiveNodes { head: 0 };
    list.activate(&mut mem, 1);
    list.activate(&mut mem, 2);
    assert_eq!(mem[0].links.next, Some(2));
    assert_eq!(mem[2].links, ListNode { prev: Some(0), next: Some(1) });
    assert_eq!(mem[1].links, ListNode { prev: Some(2), next: None });
    let mut stack = Vec::new();
    assert!(refs::Node::move_to_stack(&mut mem, 2, &mut stack));
    assert!(!refs::Node::move_to_stack(&mut mem, 2, &mut stack));
    assert_eq!(stack, vec![2]);
    assert_eq!(mem[2].refcnt, 2);
    assert_eq!(mem[0].links.next, Some(1));
    // The list is out of reach for a node on the stack.
    assert!(!refs::Node::release(&mut mem, 2));
    assert!(refs::Node::release(&mut mem, 2));
    assert_eq!(mem[0].links.next, Some(1));
    assert!(refs::Node::release(&mut mem, 1));
    assert!(!mem[1].active);
    assert_eq!(mem[0].links.next, None);
    assert_eq!(mem[1].data, "node1");
}

#[test]
fn refs_link_functions() {
    let mut mem = vec![ListNode::new(); 3];
    refs::ListLinks::push_front(&mut mem, 0, 1);
    refs::ListLinks::push_front(&mut mem, 0, 2);
    assert_eq!(mem[0].next, Some(2));
    assert_eq!(mem[2], ListNode { prev: None, next: Some(1) });
    assert_eq!(mem[1].prev, Some(2));
    refs::ListLinks::remove(&mut mem, 1);
    assert_eq!(mem[1], ListNode::new());
    assert_eq!(mem[2].next, None);
    let mut node = refs::Node::new("n".to_string());
    node.inc_ref();
    assert_eq!(node.refcnt, 2);
}

#[test]
fn manager_release_after_move_keeps_the_stack() {
    let mut mgr = manager::Manager::new();
    assert!(mgr.active_nodes_is_empty());
    let addr = mgr.add_node(manager::Node::new(42));
    assert_eq!(addr, 1);
    mgr.add_node(manager::Node::new(43));
    mgr.move_node_to_stack(42);
    mgr.node_release(42);
    assert!(!mgr.active_nodes_is_empty());
    assert_eq!(mgr.stack_len(), 1);
    // Both the number and the node are gone from the manager now.
    mgr.move_node_to_stack(42);
    mgr.node_release(42);
    assert_eq!(mgr.stack_len(), 1);
    mgr.node_release(43);
    assert!(mgr.active_nodes_is_empty());
}

#[test]
fn manager_list_functions() {
    let mut mem: Vec<manager::Node> = (0..3).map(manager::Node::new).collect();
    let list = manager::ListHead::new(&mut mem);
    assert!(list.is_empty(&mem));
    list.push_back(&mut mem, 0);
    list.push_back(&mut mem, 1);
    list.insert_after(&mut mem, 0, 2);
    assert_eq!(heads::ListHead::for_each(&mem, list.head), vec![0, 2, 1]);
    list.remove(&mut mem, 2);
    list.remove(&mut mem, 2);
    assert_eq!(heads::ListHead::for_each(&mem, list.head), vec![0, 1]);
    assert!(mem[0].dec_ref());
    assert!(mem[0].dec_ref());
    assert_eq!(mem[0].refcnt, 0);
}

#[test]
fn locked_list_is_empty_after_release() {
    let mut mem = vec![locked::Node::new(42), locked::Node::new(99)];
    let list = locked::List::new(&mut mem);
    assert!(list.is_empty(&mem));
    locked::Node::insert_after(&mut mem, 0, list.head);
    assert_eq!(list.move_to_stack(&mut mem), vec![0]);
    list.push(&mut mem, 1);
    assert!(!list.is_empty(&mem));
    locked::Node::release(&mut mem, 1);
    locked::Node::release(&mut mem, 1);
    assert!(list.is_empty(&mem));
    assert!(list.move_to_stack(&mut mem).is_empty());
    assert_eq!(mem[1].data, 99);
}

#[test]
fn locked_list_moves_everything_in_order() {
    let mut mem: Vec<locked::Node> = (0..3).map(locked::Node::new).collect();
    let list = locked::List::new(&mut mem);
    for node in 0..3 {
        list.push(&mut mem, node);
    }
    locked::Node::remove(&mut mem, 1);
    assert_eq!(list.move_to_stack(&mut mem), vec![2, 0]);
    let before = mem.clone();
    locked::Node::remove(&mut mem, 0);
    assert_eq!(mem, before);
    let head = locked::ListHead::new();
    assert!(head.is_empty(5));
    let looped = locked::ListHead { prev: Some(5), next: Some(5) };
    assert!(looped.is_empty(5));
    assert!(!looped.is_empty(4));
}

#[test]
fn buffers_sweep_takes_the_idle_off() {
    let mut mem = vec![buffers::Node::new(); 4];
    let binder = buffers::BinderAlloc::new(&mut mem);
    for node in 0..4 {
        binder.add_active_node(&mut mem, node);
    }
    mem[1].async_txs = 3;
    mem[2].strong_refs = 0;
    binder.buffer_move_to_stack(&mut mem);
    assert_eq!(heads::ListHead::for_each(&mem, binder.active_nodes), vec![2, 1]);
    // A node that the sweep has taken off can still be released.
    buffers::Node::release(&mut mem, 0);
    assert_eq!(mem[0].strong_refs, 0);
    assert_eq!(heads::ListHead::for_each(&mem, binder.active_nodes), vec![2, 1]);
    buffers::Node::release(&mut mem, 1);
    assert_eq!(heads::ListHead::for_each(&mem, binder.active_nodes), vec![2]);
    buffers::list_del_init(&mut mem, 2);
    buffers::list_del_init(&mut mem, 2);
    assert!(heads::ListHead::is_empty(&mem, binder.active_nodes));
    buffers::ListHead::init(&mut mem, 3);
    assert_eq!(mem[3].active_link, buffers::ListHead { next: Some(3), prev: Some(3) });
    assert_eq!(buffers::ListHead::new(), buffers::ListHead { next: None, prev: None });
}

#[test]
fn payload_node_starts_unlinked() {
    let node = payload::Node::new(7);
    assert_eq!(node, payload::Node { links: ListNode::new(), data: 7 });
}
