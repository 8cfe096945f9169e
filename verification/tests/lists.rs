use binder_lists::links::{ListLink, ListNode};
use binder_lists::lists::draining;
use binder_lists::lists::guarded;
use binder_lists::lists::heads;
use binder_lists::lists::nulling;
use binder_lists::lists::poisoned;
use binder_lists::lists::stacked;
use binder_lists::lists::stamped;
use binder_lists::lists::validated;
use binder_lists::lists::walked;

fn memory(n: usize) -> Vec<ListNode> {
    (0..n).map(|_| ListNode::new()).collect()
}

fn forward(mem: &[ListNode], first: ListLink) -> Vec<usize> {
    let mut out = Vec::new();
    let mut cur = first;
    while let Some(a) = cur {
        out.push(a);
        assert!(out.len() <= mem.len());
        cur = mem[a].next;
    }
    out
}

fn backward(mem: &[ListNode], last: ListLink) -> Vec<usize> {
    let mut out = Vec::new();
    let mut cur = last;
    while let Some(a) = cur {
        out.push(a);
        assert!(out.len() <= mem.len());
        cur = mem[a].prev;
    }
    out
}

#[test]
fn test_basic_ops() {
    let mut mem = memory(5);
    let mut list = stacked::List::new();
    let nodes: Vec<usize> = (0..5).collect();
    for &node in &nodes {
        list.push_front(&mut mem, Some(node));
    }
    assert!(!list.is_empty());

    list.remove(&mut mem, Some(nodes[2]));

    let stack = list.release(&mut mem);
    assert!(list.is_empty());

    let mut count = 0;
    for _node in stacked::process_stack(&mem, stack) {
        count += 1;
    }
    assert_eq!(count, 4);
}

#[test]
fn stacked_list_drains_last_element_first() {
    let mut mem = memory(4);
    let mut list = stacked::List::new();
    list.push_front(&mut mem, Some(0));
    list.push_front(&mut mem, Some(1));
    list.push_front(&mut mem, None);
    list.insert_after(&mut mem, Some(1), Some(2));
    list.insert_after(&mut mem, None, Some(3));
    list.insert_after(&mut mem, Some(1), None);
    assert_eq!(forward(&mem, list.head), vec![1, 2, 0]);
    let top = list.release(&mut mem);
    assert_eq!(stacked::process_stack(&mem, top), vec![0, 2, 1]);
    assert!(mem.iter().all(|n| n.prev.is_none()));
}

#[test]
fn stacked_list_leaves_drained_elements_alone() {
    let mut mem = memory(4);
    let mut list = stacked::List::new();
    for node in 0..3 {
        list.push_front(&mut mem, Some(node));
    }
    let top = list.release(&mut mem);
    list.push_front(&mut mem, Some(3));
    let before = mem.clone();
    for node in 0..3 {
        list.remove(&mut mem, Some(node));
    }
    list.remove(&mut mem, None);
    assert_eq!(mem, before);
    assert_eq!(stacked::process_stack(&mem, top), vec![0, 1, 2]);
}

#[test]
fn stacked_remove_twice_is_remove_once() {
    let mut mem = memory(3);
    let mut list = stacked::List::new();
    for node in 0..3 {
        list.push_front(&mut mem, Some(node));
    }
    list.remove(&mut mem, Some(2));
    assert_eq!(list.head, Some(1));
    let before = mem.clone();
    list.remove(&mut mem, Some(2));
    assert_eq!(mem, before);
    assert_eq!(forward(&mem, list.head), vec![1, 0]);
}

#[test]
fn guarded_list_keeps_order_at_both_ends() {
    let mut mem = memory(4);
    let mut list = guarded::IntrusiveList::new();
    assert!(list.is_empty());
    guarded::IntrusiveList::init_node(&mut mem, 0);
    list.push_back(&mut mem, 0);
    list.push_back(&mut mem, 1);
    list.push_front(&mut mem, 2);
    assert!(!list.is_empty());
    assert_eq!(forward(&mem, list.head), vec![2, 0, 1]);
    assert_eq!(backward(&mem, list.tail), vec![1, 0, 2]);
    list.remove(&mut mem, 0);
    list.remove(&mut mem, 0);
    assert_eq!(forward(&mem, list.head), vec![2, 1]);
    assert_eq!(list.release(&mem), vec![2, 1]);
    assert!(list.is_empty());
}

#[test]
fn guarded_list_removes_its_only_element() {
    let mut mem = memory(2);
    let mut list = guarded::IntrusiveList::new();
    list.push_back(&mut mem, 1);
    list.remove(&mut mem, 1);
    assert_eq!(list.head, None);
    assert_eq!(list.tail, None);
}

#[test]
fn guarded_remove_after_drain_changes_nothing() {
    let mut mem = memory(3);
    let mut list = guarded::IntrusiveList::new();
    for node in 0..3 {
        list.push_back(&mut mem, node);
    }
    let first = list.drain();
    list.remove(&mut mem, 1);
    assert_eq!(forward(&mem, first), vec![0, 1, 2]);
}

#[test]
fn nulling_list_clears_what_it_drains() {
    let mut mem = memory(4);
    let mut list = nulling::List::new();
    nulling::List::init(&mut mem, 3);
    for node in [3, 0, 2] {
        list.push_back(&mut mem, node);
    }
    list.remove(&mut mem, 0);
    list.remove(&mut mem, 0);
    assert_eq!(forward(&mem, list.head), vec![3, 2]);
    assert_eq!(list.release(&mut mem), vec![3, 2]);
    assert_eq!(mem, memory(4));
    list.push_back(&mut mem, 1);
    list.remove(&mut mem, 2);
    assert_eq!(list.head, Some(1));
    assert_eq!(list.tail, Some(1));
    list.remove(&mut mem, 1);
    assert_eq!(list.head, None);
    assert_eq!(list.tail, None);
}

#[test]
fn validated_list_clears_a_stranger_only() {
    let mut mem = memory(5);
    let mut list = validated::List::new();
    validated::List::node_init(&mut mem, 0);
    list.insert_head(&mut mem, 0);
    list.insert_tail(&mut mem, 1);
    list.insert_head(&mut mem, 2);
    assert_eq!(forward(&mem, list.head), vec![2, 0, 1]);
    // An element that points into the list without being on it.
    mem[4] = ListNode { prev: Some(0), next: Some(1) };
    list.remove(&mut mem, 4);
    assert_eq!(mem[4], ListNode::new());
    assert_eq!(forward(&mem, list.head), vec![2, 0, 1]);
    list.remove(&mut mem, 1);
    assert_eq!(forward(&mem, list.head), vec![2, 0]);
    assert_eq!(list.tail, Some(0));
    list.remove(&mut mem, 1);
    assert_eq!(backward(&mem, list.tail), vec![0, 2]);
}

#[test]
fn validated_list_touches_nothing_while_empty() {
    let mut mem = memory(3);
    let mut list = validated::List::new();
    for node in 0..3 {
        list.insert_tail(&mut mem, node);
    }
    let first = list.splice();
    let before = mem.clone();
    list.remove(&mut mem, 1);
    assert_eq!(mem, before);
    assert_eq!(forward(&mem, first), vec![0, 1, 2]);
    list.insert_tail(&mut mem, 1);
    assert_eq!(list.release(&mem), vec![1]);
}

#[test]
fn draining_list_hands_out_last_element_first() {
    let mut mem = memory(3);
    let mut list = draining::List::new(&mut mem);
    assert_eq!(list.head, 3);
    draining::List::init_node(&mut mem, 0);
    list.push_back(&mut mem, 0);
    list.push_front(&mut mem, 1);
    list.push_back(&mut mem, 2);
    list.remove(&mut mem, 0);
    list.remove(&mut mem, 0);
    assert_eq!(mem[0], ListNode::new());
    assert_eq!(list.release(&mut mem), vec![2, 1]);
    assert!(list.draining);
    assert_eq!(mem[3], ListNode { prev: Some(3), next: Some(3) });
}

#[test]
fn draining_list_is_closed_once_drained() {
    let mut mem = memory(3);
    let mut list = draining::List::new(&mut mem);
    list.push_back(&mut mem, 0);
    list.push_back(&mut mem, 1);
    let last = list.detach(&mut mem);
    assert_eq!(last, Some(1));
    let before = mem.clone();
    list.remove(&mut mem, 0);
    list.push_front(&mut mem, 2);
    list.push_back(&mut mem, 2);
    assert_eq!(mem, before);
    assert_eq!(backward(&mem, last), vec![1, 0]);
    assert_eq!(list.release(&mut mem), Vec::<usize>::new());
}

#[test]
fn stamped_list_starts_a_generation_with_every_release() {
    let fresh = stamped::Link { prev: None, next: None, gen: 7 };
    let mut mem = vec![fresh; 4];
    let mut list = stamped::List::new();
    list.push_back(&mut mem, Some(0));
    list.push_back(&mut mem, Some(1));
    list.push_front(&mut mem, Some(2));
    list.push_front(&mut mem, None);
    list.push_back(&mut mem, None);
    assert_eq!(mem[2], stamped::Link { prev: None, next: Some(0), gen: 0 });
    assert_eq!(mem[3].gen, 7);
    let top = list.release(&mut mem);
    assert_eq!(top, Some(1));
    assert_eq!(list.gen, 1);
    assert_eq!(mem[1].next, Some(0));
    assert_eq!(mem[0].next, Some(2));
    assert_eq!(mem[2].next, None);
    let before = mem.clone();
    list.remove(&mut mem, Some(0));
    list.remove(&mut mem, None);
    assert_eq!(mem, before);
}

#[test]
fn stamped_list_removes_its_own_elements() {
    let fresh = stamped::Link { prev: None, next: None, gen: 0 };
    let mut mem = vec![fresh; 3];
    let mut list = stamped::List::new();
    for node in 0..3 {
        list.push_back(&mut mem, Some(node));
    }
    list.remove(&mut mem, Some(0));
    assert_eq!(list.head, Some(1));
    list.remove(&mut mem, Some(2));
    assert_eq!(list.tail, Some(1));
    let before = mem.clone();
    list.remove(&mut mem, Some(2));
    assert_eq!(mem, before);
    assert_eq!(list.detach(), Some(1));
    assert_eq!(list.gen, 1);
}

#[test]
fn walked_list_leaves_other_lists_alone() {
    let mut mem = memory(5);
    let mut list = walked::IntrusiveList::new();
    let mut other = walked::IntrusiveList::new();
    walked::IntrusiveList::link_init(&mut mem, Some(0));
    walked::IntrusiveList::link_init(&mut mem, None);
    for node in 0..3 {
        list.push_back(&mut mem, Some(node));
    }
    other.push_front(&mut mem, Some(3));
    other.push_front(&mut mem, Some(4));
    let before = mem.clone();
    list.remove(&mut mem, Some(3));
    other.remove(&mut mem, Some(1));
    list.remove(&mut mem, None);
    assert_eq!(mem, before);
    list.remove(&mut mem, Some(1));
    assert_eq!(forward(&mem, list.head), vec![0, 2]);
    list.remove(&mut mem, Some(1));
    assert_eq!(forward(&mem, list.head), vec![0, 2]);
    let top = list.release();
    assert_eq!(top, Some(2));
    assert_eq!(list.head, None);
    let before = mem.clone();
    list.remove(&mut mem, Some(0));
    assert_eq!(mem, before);
    assert_eq!(backward(&mem, top), vec![2, 0]);
}

#[test]
fn walked_list_removes_its_only_element() {
    let mut mem = memory(1);
    let mut list = walked::IntrusiveList::new();
    list.push_front(&mut mem, Some(0));
    list.remove(&mut mem, Some(0));
    assert_eq!(list.head, None);
    assert_eq!(list.tail, None);
    assert_eq!(walked::MAX_WALK_STEPS, 1_048_576);
}

#[test]
fn poisoned_list_marks_what_it_lets_go() {
    let blank = poisoned::ListHead::uninit();
    assert_eq!(blank, poisoned::ListHead { next: None, prev: None });
    let mut mem = vec![blank; 3];
    let list = poisoned::ThreadSafeIntrusiveList::new(&mut mem);
    assert!(list.is_empty(&mem));
    for node in 0..3 {
        list.insert(&mut mem, node);
    }
    list.remove(&mut mem, 1);
    assert_eq!(
        mem[1],
        poisoned::ListHead { next: Some(usize::MAX), prev: Some(usize::MAX - 1) }
    );
    assert!(poisoned::is_poisoned(mem[1].next));
    assert!(poisoned::is_poisoned(mem[1].prev));
    assert!(!poisoned::is_poisoned(mem[0].next));
    assert!(!poisoned::is_poisoned(None));
    let before = mem.clone();
    list.remove(&mut mem, 1);
    assert_eq!(mem, before);
    assert!(!list.is_empty(&mem));
    assert_eq!(list.release(&mut mem), vec![2, 0]);
    assert!(list.is_empty(&mem));
    assert_eq!(mem[0].next, Some(poisoned::LIST_POISON1));
    assert_eq!(mem[2].prev, Some(poisoned::LIST_POISON2));
    let before = mem.clone();
    list.remove(&mut mem, 0);
    assert_eq!(mem, before);
}

#[test]
fn poisoned_list_removes_the_neighbours_of_every_element() {
    let mut mem = vec![poisoned::ListHead::uninit(); 600];
    let list = poisoned::ThreadSafeIntrusiveList::new(&mut mem);
    for node in 0..600 {
        list.insert(&mut mem, node);
    }
    for node in [255, 257, 511, 513] {
        list.remove(&mut mem, node);
    }
    let left: Vec<usize> =
        (0..600).rev().filter(|a| ![255, 257, 511, 513].contains(a)).collect();
    assert_eq!(list.release(&mut mem), left);
}

#[test]
fn splice_moves_a_ring_to_the_front_of_another() {
    let mut mem = vec![poisoned::ListHead::uninit(); 6];
    poisoned::ListHead::init(&mut mem, 0);
    poisoned::ListHead::init(&mut mem, 1);
    assert!(poisoned::ListHead::empty(&mem, 0));
    poisoned::add(&mut mem, 2, 0);
    poisoned::add(&mut mem, 3, 0);
    poisoned::add(&mut mem, 4, 1);
    poisoned::splice_init(&mut mem, 0, 1);
    assert!(poisoned::ListHead::empty(&mem, 0));
    assert_eq!(heads::ListHead::for_each(&mem, 1), vec![3, 2, 4]);
    let before = mem.clone();
    poisoned::splice_init(&mut mem, 0, 1);
    assert_eq!(mem, before);
    poisoned::del(&mut mem, 2);
    assert_eq!(heads::ListHead::for_each(&mem, 1), vec![3, 4]);
}

#[test]
fn ring_delete_undoes_add() {
    let mut mem = vec![heads::ListHead::new(); 4];
    heads::ListHead::init(&mut mem, 0);
    assert!(heads::ListHead::is_empty(&mem, 0));
    heads::ListHead::add_head(&mut mem, 0, 1);
    heads::ListHead::add_after(&mut mem, 1, 2);
    assert_eq!(heads::ListHead::for_each(&mem, 0), vec![1, 2]);
    heads::ListHead::add_head(&mut mem, 0, 3);
    heads::ListHead::delete(&mut mem, 3);
    assert_eq!(heads::ListHead::for_each(&mem, 0), vec![1, 2]);
    assert_eq!(mem[3], heads::ListHead { next: Some(1), prev: Some(0) });
    heads::ListHead::list_add(&mut mem, 3, 0);
    heads::ListHead::list_del(&mut mem, 1);
    assert_eq!(mem[1], heads::ListHead::new());
    assert_eq!(heads::ListHead::for_each(&mem, 0), vec![3, 2]);
}

#[test]
fn elements_keep_their_payload() {
    let mut mem: Vec<stamped::Link> =
        (0..3).map(|gen| stamped::Link { prev: None, next: None, gen: 10 + gen }).collect();
    let mut list = nulling::List::new();
    for node in [2, 0, 1] {
        list.push_back(&mut mem, node);
    }
    let stamps: Vec<u64> = list.release(&mut mem).into_iter().map(|a| mem[a].gen).collect();
    assert_eq!(stamps, vec![12, 10, 11]);
}
