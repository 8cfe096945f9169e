use std::cell::Cell;
use std::rc::Rc;

use binder_lists::nodes::detaching;
use binder_lists::nodes::fifo;
use binder_lists::nodes::generations;
use binder_lists::nodes::named;
use binder_lists::nodes::once;
use binder_lists::nodes::popping;
use binder_lists::nodes::recipients;
use binder_lists::nodes::reclaiming;
use binder_lists::nodes::refcounted;
use binder_lists::nodes::refusing;
use binder_lists::nodes::single;
use binder_lists::nodes::spliced;
use binder_lists::nodes::stack_first;
use binder_lists::nodes::swapping;
use binder_lists::nodes::work;
use binder_lists::owned::head;
use binder_lists::owned::ring;

type Callback = Box<dyn Fn()>;

fn counter() -> (Rc<Cell<usize>>, Callback) {
    let count = Rc::new(Cell::new(0));
    let c = count.clone();
    (count, Box::new(move || c.set(c.get() + 1)))
}

#[test]
fn cveCHAIN_5_test_basic_death_notification() {
    let mut node = named::BinderNode::new();
    let (call_count, callback) = counter();
    let notif = named::new_pinned_death_notification("test1".to_string(), callback);
    assert!(node.link_to_death(notif));
    for d in node.release() {
        (d.notify())();
    }
    assert_eq!(call_count.get(), 1);
    assert!(node.is_dead());
}

#[test]
fn cveZERO_5_test_basic_death_notification() {
    let mut node = named::BinderNode::new();
    let (call_count, callback) = counter();
    let notif = named::new_pinned_death_notification("test1".to_string(), callback);
    assert!(node.link_to_death(notif));
    assert_eq!(node.death_count(), 1);
    for d in node.release() {
        (d.notify())();
    }
    assert_eq!(call_count.get(), 1);
    assert!(node.is_dead());
}

#[test]
fn test_multiple_releases_idempotent() {
    let mut node: named::BinderNode<Callback> = named::BinderNode::new();
    node.release();
    assert!(node.release().is_empty());
    assert!(node.is_dead());
}

fn named_ids(due: Vec<named::DeathNotification<u32>>) -> Vec<(String, u32)> {
    due.into_iter().map(|d| (d.id, d.callback)).collect()
}

#[test]
fn named_node_withdraws_the_first_of_a_name() {
    let mut node = named::BinderNode::new();
    for (id, n) in [("a", 1), ("b", 2), ("a", 3)] {
        assert!(node.link_to_death(named::DeathNotification::new(id.to_string(), n)));
    }
    assert!(node.unlink_to_death("a"));
    assert!(!node.unlink_to_death("nonexistent"));
    assert_eq!(node.death_count(), 2);
    assert_eq!(
        named_ids(node.release()),
        vec![("b".to_string(), 2), ("a".to_string(), 3)]
    );
    assert!(!node.unlink_to_death("a"));
    assert!(!node.link_to_death(named::DeathNotification::new("race".to_string(), 4)));
    assert_eq!(node.death_count(), 0);
}

#[test]
fn named_unlink_undoes_link() {
    let mut node = named::BinderNode::new();
    node.link_to_death(named::DeathNotification::new("kept".to_string(), 1));
    node.link_to_death(named::DeathNotification::new("gone".to_string(), 2));
    assert!(node.unlink_to_death("gone"));
    assert_eq!(named_ids(node.release()), vec![("kept".to_string(), 1)]);
}

#[test]
fn test_basic_release() {
    let mut node = stack_first::BinderNode::new();
    let (count, callback) = counter();
    let notif = named::new_pinned_death_notification("test".to_string(), callback);
    assert!(node.link_to_death(notif));
    assert_eq!(node.death_count(), 1);
    for callback in node.release() {
        callback();
    }
    assert_eq!(count.get(), 1);
    assert!(node.is_dead());
}

#[test]
fn test_many_notifications_stack_overflow_handling() {
    let mut node = stack_first::BinderNode::new();
    for i in 0..50 {
        let notif = named::new_pinned_death_notification(format!("many{}", i), i);
        let _ = node.link_to_death(notif);
    }
    assert_eq!(node.release(), (0..50).collect::<Vec<i32>>());
    assert!(node.is_dead());
}

#[test]
fn stack_first_release_is_exact_around_the_buffer_size() {
    assert_eq!(stack_first::STACK_CAP, 16);
    for n in [0, 1, 15, 16, 17] {
        let mut node = stack_first::BinderNode::new();
        for i in 0..n {
            node.link_to_death(named::DeathNotification::new(format!("r{}", i), i));
        }
        assert_eq!(node.release(), (0..n).collect::<Vec<usize>>());
        assert!(node.release().is_empty());
    }
}

#[test]
fn stack_first_removed_is_not_delivered() {
    let mut node = stack_first::BinderNode::new();
    for i in 0..3 {
        node.link_to_death(named::DeathNotification::new(format!("r{}", i), i));
    }
    assert!(node.remove("r1"));
    assert!(!node.remove("r1"));
    assert_eq!(node.release(), vec![0, 2]);
    assert!(!node.remove("r0"));
    assert!(!node.link_to_death(named::DeathNotification::new("race".to_string(), 9)));
}

#[test]
fn test_death_notification_basic() {
    let mut node = swapping::BinderNode::new();
    let (call_count, callback) = counter();
    assert!(node.register_death_notification(callback, 1).is_none());
    for callback in node.release() {
        callback();
    }
    assert_eq!(call_count.get(), 1);
}

#[test]
fn swapping_node_hands_back_late_registrations() {
    let mut node = swapping::BinderNode::new();
    for id in [1, 2, 3] {
        assert_eq!(node.register_death_notification(id * 10, id), None);
    }
    assert!(node.unregister_death_notification(2));
    assert!(!node.unregister_death_notification(2));
    assert_eq!(node.release(), vec![30, 10]);
    assert_eq!(node.release(), Vec::<usize>::new());
    assert_eq!(node.register_death_notification(40, 4), Some(40));
    assert!(!node.unregister_death_notification(1));
}

#[test]
fn popping_node_releases_one_at_a_time() {
    let mut node = popping::BinderNode::new();
    for id in [1, 2, 3] {
        assert_eq!(node.register_death_notification(id * 10, id), None);
    }
    assert!(node.unregister_death_notification(1));
    assert!(node.begin_release());
    assert!(!node.begin_release());
    assert_eq!(node.next_death(), Some(30));
    assert!(!node.unregister_death_notification(2));
    assert_eq!(node.next_death(), Some(20));
    assert_eq!(node.next_death(), None);
    assert_eq!(node.register_death_notification(40, 4), Some(40));
    assert!(node.release().is_empty());
}

#[test]
fn popping_unregister_undoes_register() {
    let mut node = popping::BinderNode::new();
    node.register_death_notification('a', 7);
    node.register_death_notification('b', 7);
    assert!(node.unregister_death_notification(7));
    assert_eq!(node.release(), vec!['a']);
}

#[test]
fn generations_node_delivers_each_once() {
    let mut node = generations::BinderNode::new();
    for id in [1, 2, 3] {
        assert_eq!(node.register_death_notification(id * 10, id), None);
    }
    assert!(node.unregister_death_notification(3));
    assert!(!node.unregister_death_notification(3));
    assert_eq!(node.release(), vec![20, 10]);
    assert!(node.release().is_empty());
    assert_eq!(node.register_death_notification(40, 4), Some(40));
    assert!(!node.unregister_death_notification(1));
}

#[test]
fn fifo_node_delivers_in_order_of_registration() {
    let mut node = fifo::BinderNode::new(5);
    assert_eq!(node.strong_count(), 1);
    node.acquire();
    assert_eq!(node.strong_count(), 2);
    let first = node.link('a', 1).unwrap();
    assert!(node.link_to_death('b', 2));
    let third = node.link('c', 3).unwrap();
    node.unlink_to_death(third);
    node.unlink_to_death(third);
    let due: Vec<(char, usize)> =
        node.release().into_iter().map(|d| (d.callback, d.cookie)).collect();
    assert_eq!(due, vec![('a', 1), ('b', 2)]);
    assert_eq!(fifo::DeathRecipient::new('x', 9).notify(), (&'x', 9));
    node.unlink_to_death(first);
    assert!(node.release().is_empty());
    assert!(!node.link_to_death('d', 4));
    assert_eq!(node.link('d', 4), None);
    assert_eq!(node.strong_count(), 2);
}

#[test]
fn test_safe_cleanup() {
    let mut node = spliced::BinderNode::new();
    assert!(node.link_to_death("notify", 0));
    node.release();
    assert!(!node.link_to_death("notify", 0));
}

#[test]
fn spliced_node_hands_out_detached_notifications() {
    let mut node = spliced::BinderNode::new();
    let a = node.link('a', 1).unwrap();
    let b = node.link('b', 2).unwrap();
    assert!(node.link_to_death('c', 3));
    node.unlink_to_death(b);
    let due: Vec<(char, usize, bool)> = node
        .release()
        .into_iter()
        .map(|d| (d.callback, d.cookie, d.link.detached))
        .collect();
    assert_eq!(due, vec![('a', 1, true), ('c', 3, true)]);
    node.unlink_to_death(a);
    assert_eq!(node.link('d', 4), None);
    assert!(node.release().is_empty());
}

#[test]
fn spliced_list_starts_a_generation_when_it_has_something_to_move() {
    let mut list = spliced::DeathList::new();
    let (local, generation) = list.splice_to_local();
    assert!(local.is_empty());
    assert_eq!(generation, 0);
    let first = list.insert(spliced::DeathRecipient::new('a', 1));
    list.insert(spliced::DeathRecipient::new('b', 2));
    list.remove(first);
    let (local, generation) = list.splice_to_local();
    assert_eq!(generation, 1);
    assert!(!local.is_empty());
    let due = local.process_callbacks();
    assert_eq!(due.len(), 1);
    assert_eq!(due[0].notify(), (&'b', 2));
    assert_eq!(due[0].link, spliced::DeathLink { generation: 0, detached: true });
    assert_eq!(spliced::DeathLink::new(), spliced::DeathLink { generation: 0, detached: false });
    assert!(spliced::LocalDeathList::<char>::new().is_empty());
}

#[test]
fn grok_cveZERO_2_test_basic_death_notification() {
    let mut node: refcounted::BinderNode<Callback> = refcounted::BinderNode::new(42);
    node.release();
    assert_eq!(node.strong_count(), 0);
}

#[test]
fn refcounted_node_gives_up_one_reference() {
    let mut node = refcounted::BinderNode::new(42);
    node.acquire();
    assert!(node.link_to_death('a', 1));
    assert!(node.link_to_death('b', 2));
    let due: Vec<(char, usize)> =
        node.release().into_iter().map(|d| (d.callback, d.cookie)).collect();
    assert_eq!(due, vec![('b', 2), ('a', 1)]);
    assert_eq!(node.strong_count(), 1);
    assert!(node.release().is_empty());
    assert_eq!(node.strong_count(), 1);
    assert!(!node.link_to_death('c', 3));
}

#[test]
fn splice_to_temp_appends() {
    let mut list = ring::DeathList::new();
    let mut temp = ring::DeathList::new();
    list.push_back(1);
    list.push_back(2);
    temp.push_back(0);
    refcounted::splice_to_temp(&mut list, &mut temp);
    assert!(list.is_empty());
    assert_eq!(temp.take_all(), vec![0, 1, 2]);
}

#[test]
fn cveZERO_6_test_basic_death_notification() {
    let mut node = recipients::BinderNode::new(1);
    let (called, callback) = counter();
    let _recipient = node.link_to_death(callback).ok().unwrap();
    for callback in node.release() {
        callback();
    }
    assert!(!node.is_alive());
    assert!(called.get() == 1, "Death callback should have fired");
}

#[test]
fn recipients_node_hands_back_late_callbacks() {
    let mut node = recipients::BinderNode::new(42);
    assert!(node.is_alive());
    let a = node.link_to_death('a').unwrap();
    let b = node.link_to_death('b').unwrap();
    assert!(node.unlink_to_death(a));
    assert!(!node.unlink_to_death(a));
    let c = node.link_to_death('c').unwrap();
    assert!(a != b && b != c && a != c);
    assert_eq!(node.release(), vec!['c', 'b']);
    assert!(!node.unlink_to_death(b));
    assert_eq!(node.link_to_death('d'), Err('d'));
    assert!(node.release().is_empty());
}

#[test]
fn basic_release_and_callbacks() {
    let mut node = refusing::BinderNode::new();
    let (count, callback) = counter();
    assert!(node.link_to_death(callback, 1));
    for d in node.release() {
        (d.callback)();
    }
    assert_eq!(count.get(), 1);
    assert!(node.is_released());
}

#[test]
fn basic_death_notification() {
    let mut node = refusing::BinderNode::new();
    let (called, callback) = counter();
    assert!(node.link_to_death(callback, 1));
    for d in node.release() {
        (d.callback)();
    }
    assert_eq!(called.get(), 1);
}

#[test]
fn unlink_before_release() {
    let mut node: refusing::BinderNode<Callback> = refusing::BinderNode::new();
    let (called, _callback) = counter();
    assert!(node.link_to_death(Box::new(|| {}), 1));
    for d in node.release() {
        (d.callback)();
    }
    assert_eq!(called.get(), 0);
}

#[test]
fn refusing_node_marks_what_it_lets_go() {
    let mut node = refusing::BinderNode::new();
    assert!(node.link_to_death('a', 1));
    assert!(node.link_to_death('b', 2));
    assert!(node.link_to_death('c', 1));
    assert!(node.unlink_to_death(1));
    assert!(!node.is_released());
    let due: Vec<(char, usize, bool)> =
        node.release().into_iter().map(|d| (d.callback, d.callback_id, d.removed)).collect();
    assert_eq!(due, vec![('b', 2, true), ('a', 1, true)]);
    assert!(!node.unlink_to_death(1));
    assert!(!node.link_to_death('d', 4));
    assert!(node.release().is_empty());
}

#[test]
fn refusing_inner_removes_by_address() {
    let mut inner = refusing::NodeInner::new();
    inner.insert(refusing::DeathNotification::new('a', 1));
    inner.insert(refusing::DeathNotification::new('b', 2));
    let removed = inner.remove(0).unwrap();
    assert_eq!((removed.callback, removed.removed), ('a', true));
    assert!(inner.remove(0).is_none());
    assert_eq!(inner.drain_to_temp().len(), 1);
    assert!(inner.drain_to_temp().is_empty());
}

#[test]
fn test_concurrent_remove_and_release() {
    let mut node = detaching::BinderNode::new(43);
    assert_eq!(node.register_death_notification('a'), None);
    assert_eq!(node.release(), vec!['a']);
}

#[test]
fn detaching_list_leaves_detached_notifications_alone() {
    let mut list = detaching::IntrusiveDeathList::new();
    let a = list.push(detaching::DeathNotification::new('a'));
    let b = list.push(detaching::DeathNotification::new('b'));
    let c = list.push(detaching::DeathNotification::new('c'));
    list.remove(b);
    list.remove(b);
    let mut temp = list.take_for_cleanup();
    // Neither the emptied list nor the detached one lets go of anything.
    list.remove(a);
    temp.remove(a);
    temp.remove(c);
    assert_eq!(temp.notify_all(), vec!['c', 'a']);
    assert_eq!(list.notify_all(), Vec::<char>::new());
}

#[test]
fn detaching_node_hands_back_late_callbacks() {
    let mut node = detaching::BinderNode::new(42);
    for c in ['a', 'b'] {
        assert_eq!(node.register_death_notification(c), None);
    }
    assert_eq!(node.release(), vec!['b', 'a']);
    assert_eq!(node.register_death_notification('c'), Some('c'));
    assert!(node.release().is_empty());
}

#[test]
fn reclaiming_node_ignores_withdrawal_after_release() {
    let mut node = reclaiming::BinderNode::new();
    let a = node.register_death(reclaiming::DeathNotification::new(1, 'a'));
    let b = node.register_death(reclaiming::DeathNotification::new(2, 'b'));
    node.register_death(reclaiming::DeathNotification::new(3, 'c'));
    node.unregister_death(b);
    node.unregister_death(b);
    assert_eq!(node.release(), vec![('c', 3), ('a', 1)]);
    node.unregister_death(a);
    assert!(node.release().is_empty());
    let late = node.register_death(reclaiming::DeathNotification::new(4, 'd'));
    node.unregister_death(late);
    assert_eq!(node.release(), vec![('d', 4)]);
}

#[test]
fn reclaiming_list_functions() {
    let mut list = head::DeathList::new();
    let a = reclaiming::add_to_list(&mut list, reclaiming::DeathNotification::new(1, 'a'));
    reclaiming::add_to_list(&mut list, reclaiming::DeathNotification::new(2, 'b'));
    reclaiming::remove_from_list(&mut list, a);
    reclaiming::remove_from_list(&mut list, a);
    assert_eq!(reclaiming::process_death_notifications(list), vec![('b', 2)]);
}

#[test]
fn once_node_releases_once() {
    let mut node = once::BinderNode::new();
    node.register_death_notification('a');
    node.register_death_notification('b');
    assert_eq!(node.release(), vec!['b', 'a']);
    node.register_death_notification('c');
    assert!(node.release().is_empty());
    let mut list = once::DeathList::new();
    list.add(1);
    list.add(2);
    let temp = list.take();
    assert_eq!(temp.cleanup(), vec![2, 1]);
    assert!(list.cleanup().is_empty());
}

#[test]
fn single_node_drops_late_callbacks() {
    let mut node = single::BinderNode::new();
    node.register_death_notification('a');
    node.register_death_notification('b');
    assert_eq!(node.release(), vec!['b', 'a']);
    node.register_death_notification('c');
    assert!(node.release().is_empty());
}

#[test]
fn single_list_removes_the_first_match() {
    let mut list = single::DeathList::new();
    for id in [1, 2, 1, 3] {
        list.register(popping::DeathNode::new(id * 10, id));
    }
    let removed = list.remove_match(&1).unwrap();
    assert_eq!(removed.recipient, 10);
    assert!(list.remove_match(&9).is_none());
    let removed = list.remove_match(&3).unwrap();
    assert_eq!(removed.recipient, 30);
    let removed = list.remove_match(&1).unwrap();
    assert_eq!(removed.recipient, 10);
    let temp = list.take_for_cleanup();
    let rest: Vec<usize> = single::BinderNode::process_death_notifications(temp)
        .into_iter()
        .map(|d| d.recipient_id)
        .collect();
    assert_eq!(rest, vec![2]);
    assert!(list.into_callbacks().is_empty());
}

fn due_text(due: Vec<work::Due<u32, char>>) -> Vec<String> {
    due.into_iter()
        .map(|d| match d {
            work::Due::Cancel(w) => format!("cancel {}", w),
            work::Due::SetDead(d) => format!("dead {}", d),
        })
        .collect()
}

#[test]
fn work_node_cancels_before_it_tells() {
    let mut node = work::Node { inner: work::NodeInner::new() };
    let a = node.inner.push_death('a');
    let b = node.inner.push_death('b');
    node.inner.push_work(1);
    node.inner.push_work(2);
    assert_eq!(node.inner.remove_death(a), Some('a'));
    assert_eq!(node.inner.remove_death(a), None);
    assert_eq!(due_text(node.release()), vec!["cancel 1", "cancel 2", "dead b"]);
    assert_eq!(node.inner.remove_death(b), None);
    assert!(node.inner.next_due().is_none());
    assert!(node.release().is_empty());
}
