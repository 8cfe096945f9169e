use binder_lists::managers::cleanups;
use binder_lists::managers::context;
use binder_lists::managers::cookies;
use binder_lists::managers::counts;
use binder_lists::managers::death_list;
use binder_lists::managers::handles;
use binder_lists::managers::intrusive_cleanup;
use binder_lists::managers::live_dead;
use binder_lists::managers::registry;
use binder_lists::managers::sharded;
use binder_lists::managers::strong;
use binder_lists::managers::weak;

#[test]
fn demo_fixed_binder_node_with_unregister_and_release() {
    let mut manager = registry::BinderNodeManager::new();
    manager.create_node(42);

    manager.register_death_notification(42, 1, "Recipient 1 notified").unwrap();
    manager.register_death_notification(42, 2, "Recipient 2 notified").unwrap();

    assert!(manager.unregister_death_notification(42, 1).is_ok());

    assert_eq!(manager.release_node(42), vec!["Recipient 2 notified"]);

    assert_eq!(manager.active_node_count(), 0);
}

#[test]
fn demo_binder_node_release_with_concurrent_safety() {
    let mut manager = registry::BinderNodeManager::new();
    manager.create_node(42);

    manager.register_death_notification(42, 1, "Death recipient 1 notified").unwrap();
    manager.register_death_notification(42, 2, "Death recipient 2 notified").unwrap();

    assert_eq!(
        manager.release_node(42),
        vec!["Death recipient 2 notified", "Death recipient 1 notified"]
    );

    assert!(manager.register_death_notification(42, 3, "Too late").is_err());

    assert_eq!(manager.active_node_count(), 0);
}

#[test]
fn registry_says_what_is_missing() {
    let mut manager = registry::BinderNodeManager::new();
    manager.create_node(7);
    assert_eq!(manager.active_node_count(), 1);
    assert_eq!(
        manager.register_death_notification(10, 1, 'a'),
        Err("Binder node 10 not found or already released".to_string())
    );
    assert_eq!(
        manager.unregister_death_notification(120, 1),
        Err("Binder node 120 not found".to_string())
    );
    assert_eq!(
        manager.unregister_death_notification(7, u64::MAX),
        Err("Death notification for recipient 18446744073709551615 not found".to_string())
    );
    assert!(manager.release_node(10).is_empty());
}

#[test]
fn registry_node_is_cleaned_up_after_it_is_taken() {
    let mut manager = registry::BinderNodeManager::new();
    manager.create_node(1);
    manager.register_death_notification(1, 5, 'a').unwrap();
    manager.register_death_notification(1, 6, 'b').unwrap();
    let node = manager.take_node(1).unwrap();
    assert!(manager.take_node(1).is_none());
    assert_eq!(registry::BinderNodeManager::cleanup_node(node), vec!['b', 'a']);
    let mut node = registry::BinderNode::new(3);
    node.register_death(1, 'x');
    node.register_death(2, 'y');
    assert_eq!(node.next_death(), Some('y'));
    let taken = node.take_death_notifications();
    assert_eq!(taken.len(), 1);
    assert_eq!((taken[0].recipient_id, taken[0].on_death), (1, 'x'));
    assert!(node.take_death_notifications().is_empty());
    assert_eq!(node.next_death(), None);
}

#[test]
fn registry_list_removes_by_recipient() {
    let mut list = registry::DeathList::new();
    list.insert(registry::DeathNotification::new(1, 'a'));
    list.insert(registry::DeathNotification::new(2, 'b'));
    list.insert(registry::DeathNotification::new(1, 'c'));
    assert_eq!(list.remove_by_recipient(1), Ok(()));
    assert_eq!(
        list.remove_by_recipient(0),
        Err("Death notification for recipient 0 not found".to_string())
    );
    assert_eq!(list.pop_front().map(|d| d.on_death), Some('b'));
    assert_eq!(list.pop_front().map(|d| d.on_death), Some('a'));
    assert!(list.pop_front().is_none());
}

#[test]
fn intrusive_cleanup_manager_says_what_is_missing() {
    let mut manager = intrusive_cleanup::BinderNodeManager::new();
    manager.create_node(42);
    assert_eq!(manager.register_death_notification(42, 1, 'a'), Ok(()));
    assert_eq!(manager.register_death_notification(42, 2, 'b'), Ok(()));
    assert_eq!(manager.unregister_death_notification(42, 1), Ok(()));
    assert_eq!(
        manager.unregister_death_notification(42, 1),
        Err("Recipient 1 not registered".to_string())
    );
    assert_eq!(
        manager.unregister_death_notification(5, 1),
        Err("Node 5 not found".to_string())
    );
    assert_eq!(manager.release_node(42), vec!['b']);
    assert!(manager.release_node(42).is_empty());
    assert_eq!(
        manager.register_death_notification(42, 3, 'c'),
        Err("Node 42 not found".to_string())
    );
    assert_eq!(manager.active_node_count(), 0);
}

#[test]
fn intrusive_cleanup_manager_delivers_what_is_left() {
    let mut manager = intrusive_cleanup::BinderNodeManager::new();
    manager.create_node(42);
    for i in 0..100 {
        assert_eq!(manager.register_death_notification(42, i, i), Ok(()));
    }
    assert_eq!(manager.unregister_death_notification(42, 0), Ok(()));
    assert_eq!(manager.release_node(42), (1..100).rev().collect::<Vec<u64>>());
    assert!(manager.release_node(42).is_empty());
    assert_eq!(manager.active_node_count(), 0);
}

#[test]
fn intrusive_cleanup_node_refuses_once_dead() {
    let mut node = intrusive_cleanup::BinderNode::new(1);
    assert_eq!(node.register(1, 'a'), Ok(()));
    assert_eq!(node.register(2, 'b'), Ok(()));
    assert_eq!(node.unregister(3), Err("Recipient 3 not registered".to_string()));
    assert_eq!(node.remove_by_recipient(2).map(|d| d.on_death), Some('b'));
    assert!(node.remove_by_recipient(2).is_none());
    let taken = node.take_all();
    assert_eq!(intrusive_cleanup::process_deaths(taken), vec!['a']);
    assert_eq!(node.register(4, 'd'), Err("Node already released".to_string()));
    assert_eq!(node.unregister(1), Err("Node already released".to_string()));
    assert!(intrusive_cleanup::BinderNodeManager::cleanup_node(node).is_empty());
}

#[test]
fn death_list_hands_out_callbacks_once() {
    let mut manager = death_list::DeathListManager::new();
    let mut node = death_list::BinderNode::new(123);
    let other = death_list::BinderNode::new(124);
    assert_eq!(node.handle(), 123);
    node.link_to_death(&mut manager, 'a');
    other.link_to_death(&mut manager, 'x');
    node.link_to_death(&mut manager, 'b');
    assert_eq!(manager.notification_count(), 3);
    assert_eq!(node.release(&mut manager), vec!['a', 'b']);
    assert!(node.released);
    assert_eq!(manager.notification_count(), 0);
    assert!(manager.release_node(123).is_empty());
    assert_eq!(manager.release_node(124), vec!['x']);
    manager.register(5, 'z');
    assert_eq!(manager.drain_to_local(), vec![death_list::DeathNode::new(5)]);
    manager.register(5, 'y');
    manager.cleanup();
    assert_eq!(manager.notification_count(), 0);
    assert_eq!(manager.release_node(5), vec!['z', 'y']);
}

#[test]
fn cleanups_manager_keeps_other_handles() {
    let mut manager = cleanups::BinderNodeManager::new();
    let node: cleanups::BinderNode<u8> = cleanups::BinderNode::new(42);
    let other: cleanups::BinderNode<u8> = cleanups::BinderNode::new(43);
    node.link_to_death(&mut manager, 'a');
    other.link_to_death(&mut manager, 'x');
    node.link_to_death(&mut manager, 'b');
    assert_eq!(manager.death_notification_count(), 3);
    assert_eq!(node.handle(), 42);
    assert_eq!(node.release(&mut manager), vec!['a', 'b']);
    assert_eq!(manager.death_notification_count(), 1);
    assert_eq!(manager.pending_cleanup_count(), 1);
    let dropped = manager.process_cleanups();
    assert_eq!(dropped.len(), 1);
    assert_eq!(dropped[0].handle, 42);
    assert!(dropped[0].user_data.is_none());
    assert_eq!(manager.pending_cleanup_count(), 0);
    assert_eq!(manager.release_node(other.inner), vec!['x']);
    assert_eq!(manager.death_notification_count(), 0);
}

#[test]
fn strong_manager_queues_with_the_last_reference() {
    let mut manager = strong::BinderNodeManager::new();
    let id = manager.create_node();
    assert_eq!(id, 0);
    assert_eq!(manager.create_node(), 1);
    assert!(manager.inc_strong_ref(id));
    assert!(manager.add_death_notification(id, 10));
    assert!(manager.add_death_notification(id, 20));
    assert!(!manager.add_death_notification(9, 30));
    assert!(!manager.inc_strong_ref(9));
    assert!(manager.dec_strong_ref(id));
    assert!(manager.process_cleanup().is_empty());
    assert!(manager.dec_strong_ref(id));
    assert!(!manager.dec_strong_ref(id));
    assert!(!manager.add_death_notification(id, 40));
    let cleaned = manager.process_cleanup();
    assert_eq!(cleaned.len(), 1);
    assert_eq!(cleaned[0].node_id, id);
    assert_eq!(cleaned[0].cookies, vec![20, 10]);
    assert_eq!(cleaned[0].remaining_weak, 0);
    assert!(manager.process_cleanup().is_empty());
}

#[test]
fn cookies_manager_notifies_once() {
    let mut manager = cookies::BinderNodeManager::new();
    let addr = manager.create_node(7);
    assert_eq!(manager.node(addr).id(), 7);
    assert_eq!(manager.get_node(7), Some(addr));
    assert_eq!(manager.get_node(8), None);
    assert!(manager.inc_ref(addr));
    assert!(manager.register_death(addr, cookies::DeathNotification::new(1)));
    assert!(manager.register_death(addr, cookies::DeathNotification::new(2)));
    manager.dec_ref(addr);
    assert!(manager.process_cleanup().is_empty());
    manager.dec_ref(addr);
    assert_eq!(manager.get_node(7), None);
    assert!(!manager.inc_ref(addr));
    assert!(!manager.register_death(addr, cookies::DeathNotification::new(3)));
    let due = manager.process_cleanup();
    assert_eq!(due.len(), 1);
    assert_eq!(due[0].id, 7);
    assert_eq!(due[0].deaths.iter().map(|d| d.cookie).collect::<Vec<u64>>(), vec![2, 1]);
    assert!(manager.process_cleanup().is_empty());
}

#[test]
fn cookies_manager_leaves_a_live_node_alone() {
    let mut manager = cookies::BinderNodeManager::new();
    let a = manager.create_node(7);
    assert!(manager.register_death(a, cookies::DeathNotification::new(1)));
    manager.dec_ref(a);
    // The number is taken again before the clean-up.
    let b = manager.create_node(7);
    assert!(manager.register_death(b, cookies::DeathNotification::new(2)));
    assert!(manager.process_cleanup().is_empty());
    assert_eq!(manager.get_node(7), Some(b));
    manager.dec_ref(b);
    let due = manager.process_cleanup();
    assert_eq!(due.len(), 1);
    assert_eq!(due[0].deaths.iter().map(|d| d.cookie).collect::<Vec<u64>>(), vec![2]);
    assert_eq!(manager.get_node(7), None);
}

#[test]
fn handles_manager_frees_what_is_unreferenced() {
    let mut manager = handles::BinderManager::new();
    let a = manager.create_node(1, 0x1000);
    let b = manager.create_node(2, 0x2000);
    assert_eq!(manager.acquire_node(1), Some(a));
    assert_eq!(manager.acquire_node(3), None);
    manager.add_death_notification(a, 10);
    manager.add_death_notification(a, 20);
    manager.release_ref(a);
    assert!(manager.process_cleanup().is_empty());
    manager.release_ref(a);
    assert_eq!(manager.acquire_node(1), None);
    manager.release_handle(2);
    manager.release_handle(2);
    let freed = manager.process_cleanup();
    assert_eq!(freed.len(), 2);
    assert_eq!(freed[0].addr, a);
    assert_eq!(freed[0].deaths.iter().map(|d| d.cookie).collect::<Vec<usize>>(), vec![20, 10]);
    assert_eq!(freed[1].addr, b);
    assert!(freed[1].deaths.is_empty());
}

#[test]
fn test_basic_node_lifecycle() {
    let mut ctx = context::BinderContext::new();
    let handle = ctx.create_node();
    let node = ctx.get_node(handle).unwrap();
    assert_eq!(ctx.node(node).handle(), handle);

    ctx.register_death(handle, "recipient", 42);

    ctx.release_node(handle);
    let mut delivered = ctx.cleanup().into_iter().map(|e| e.cookie);
    assert_eq!(delivered.next(), Some(42));
}

#[test]
fn test_register_unregister() {
    let mut ctx = context::BinderContext::new();
    let handle = ctx.create_node();
    ctx.get_node(handle).unwrap();
    ctx.register_death(handle, "recipient", 1);

    ctx.unregister_death(handle, 1);

    ctx.release_node(handle);
    assert!(ctx.cleanup().is_empty());
}

#[test]
fn test_logical_refs() {
    let mut ctx: context::BinderContext<&str> = context::BinderContext::new();
    let handle = ctx.create_node();
    let node = ctx.get_node(handle).unwrap();
    ctx.inc_ref(node);
    ctx.inc_ref(node);

    ctx.release_node(handle);
    ctx.cleanup();

    ctx.dec_ref(node);
}

#[test]
fn context_notifies_when_the_last_reference_goes() {
    let mut ctx = context::BinderContext::new();
    let handle = ctx.create_node();
    assert_eq!(handle, 1);
    let node = ctx.get_node(handle).unwrap();
    ctx.inc_ref(node);
    for (recipient, cookie) in [('a', 1), ('b', 2), ('c', 1)] {
        ctx.register_death(handle, recipient, cookie);
    }
    ctx.register_death(99, 'z', 9);
    ctx.unregister_death(handle, 1);
    ctx.unregister_death(99, 1);
    ctx.release_node(handle);
    ctx.release_node(handle);
    assert!(ctx.get_node(handle).is_none());
    assert!(ctx.cleanup().is_empty());
    let due: Vec<(char, u64)> =
        ctx.dec_ref(node).into_iter().map(|e| (e.recipient, e.cookie)).collect();
    assert_eq!(due, vec![('b', 2), ('a', 1)]);
    assert_eq!(ctx.create_node(), 2);
}

#[test]
fn weak_manager_does_not_keep_nodes() {
    let mut manager = weak::BinderNodeManager::new();
    let mut local = weak::LocalTempNodes { nodes: Vec::new() };
    let addr = manager.create_node(5);
    let link = manager
        .link_death_recipient(addr, weak::DeathNotification::new(1, "one".to_string()));
    let other = manager
        .link_death_recipient(addr, weak::DeathNotification::new(2, "two".to_string()));
    assert_eq!(manager.acquire_node(&mut local, 5), Some(addr));
    assert_eq!(manager.acquire_node(&mut local, 6), None);
    manager.unlink_death_recipient(addr, link);
    manager.unlink_death_recipient(addr, link);
    manager.inc_strong(addr);
    assert_eq!(manager.dec_strong(addr), (false, vec![]));
    assert_eq!(manager.dec_strong(addr), (true, vec![other]));
    assert_eq!(manager.node(addr).notification(other).cookie, 2);
    assert_eq!(manager.node(addr).notification(link).recipient, "one");
    manager.schedule_cleanup(&mut local, addr);
    assert_eq!(local.nodes, vec![addr]);
    manager.process_cleanups(&mut local);
    assert!(local.nodes.is_empty());
    assert_eq!(manager.acquire_node(&mut local, 5), None);
}

#[test]
fn weak_manager_withdraws_what_was_registered() {
    let mut manager = weak::BinderNodeManager::new();
    let addr = manager.create_node(5);
    let first = manager
        .link_death_recipient(addr, weak::DeathNotification::new(1, "one".to_string()));
    let second = manager
        .link_death_recipient(addr, weak::DeathNotification::new(2, "two".to_string()));
    assert_ne!(first, second);
    manager.unlink_death_recipient(addr, second);
    assert_eq!(manager.node(addr).death_notify(), vec![first]);
    manager.inc_strong(addr);
    assert_eq!(manager.dec_strong(addr), (true, vec![first]));
}

#[test]
fn weak_manager_drops_a_reused_number() {
    let mut manager = weak::BinderNodeManager::new();
    let mut local = weak::LocalTempNodes { nodes: Vec::new() };
    let a = manager.create_node(5);
    let other = manager.create_node(6);
    manager.schedule_cleanup(&mut local, a);
    let b = manager.create_node(5);
    manager.process_cleanups(&mut local);
    // The number goes, whichever node it leads to, and the scheduled node leaves the queue.
    assert_eq!(manager.acquire_node(&mut local, 5), None);
    assert_eq!(manager.acquire_node(&mut local, 6), Some(other));
    let c = manager.create_node(5);
    manager.process_cleanups(&mut local);
    assert_eq!(manager.acquire_node(&mut local, 5), Some(c));
    manager.schedule_cleanup(&mut local, b);
    manager.process_cleanups(&mut local);
    // A node whose number is not registered stays queued until it is.
    manager.schedule_cleanup(&mut local, c);
    manager.process_cleanups(&mut local);
    let d = manager.create_node(5);
    assert_eq!(manager.acquire_node(&mut local, 5), Some(d));
    manager.process_cleanups(&mut local);
    assert_eq!(manager.acquire_node(&mut local, 5), None);
}

#[test]
fn weak_manager_forgets_dropped_nodes() {
    let mut manager = weak::BinderNodeManager::new();
    let mut local = weak::LocalTempNodes { nodes: Vec::new() };
    let addr = manager.create_node(5);
    manager.drop_node(addr);
    assert_eq!(manager.acquire_node(&mut local, 5), None);
}

fn counted(due: Vec<counts::DeathRecipient>) -> Vec<usize> {
    due.into_iter().map(|d| d.cookie).collect()
}

#[test]
fn counts_manager_notifies_before_it_frees() {
    let mut manager = counts::BinderNodeManager::new();
    let strong = manager.new_node();
    let weak = strong.upgrade_to_weak(&mut manager);
    let addr = strong.node;
    assert!(std::ptr::eq(strong.node(&manager), weak.node(&manager)));
    manager.add_death_recipient(addr, counts::DeathRecipient::new(1));
    let link = manager.add_death_recipient(addr, counts::DeathRecipient::new(2));
    manager.add_death_recipient(addr, counts::DeathRecipient::new(3));
    manager.remove_death_recipient(addr, link);
    assert_eq!(counted(manager.drop_strong(strong)), vec![1, 3]);
    // The weak reference keeps the node from being freed.
    assert!(manager.process_cleanup().is_empty());
    manager.drop_weak(weak);
    assert_eq!(manager.process_cleanup(), vec![addr]);
    assert!(manager.process_cleanup().is_empty());
}

#[test]
fn counts_manager_withdraws_what_was_registered() {
    let mut manager = counts::BinderNodeManager::new();
    let strong = manager.new_node();
    let addr = strong.node;
    let first = manager.add_death_recipient(addr, counts::DeathRecipient::new(1));
    manager.remove_death_recipient(addr, first);
    // A link is not used again.
    let second = manager.add_death_recipient(addr, counts::DeathRecipient::new(2));
    assert_ne!(first, second);
    assert_eq!(counted(manager.drop_strong(strong)), vec![2]);
}

#[test]
fn counts_manager_forgets_when_withdrawn_again() {
    let mut manager = counts::BinderNodeManager::new();
    let strong = manager.new_node();
    let addr = strong.node;
    let first = manager.add_death_recipient(addr, counts::DeathRecipient::new(1));
    manager.add_death_recipient(addr, counts::DeathRecipient::new(2));
    manager.remove_death_recipient(addr, first);
    manager.remove_death_recipient(addr, first);
    manager.add_death_recipient(addr, counts::DeathRecipient::new(3));
    assert_eq!(counted(manager.drop_strong(strong)), vec![3]);
}

#[test]
fn counts_manager_notifies_once() {
    let mut manager = counts::BinderNodeManager::new();
    let first = manager.new_node();
    let addr = first.node;
    manager.inc_strong(addr);
    manager.add_death_recipient(addr, counts::DeathRecipient::new(1));
    assert!(manager.drop_strong(first).is_empty());
    assert_eq!(counted(manager.drop_strong(counts::StrongHandle { node: addr })), vec![1]);
    // A node that is referenced again dies without a further notice.
    manager.inc_strong(addr);
    manager.add_death_recipient(addr, counts::DeathRecipient::new(2));
    assert!(manager.drop_strong(counts::StrongHandle { node: addr }).is_empty());
    assert_eq!(manager.process_cleanup(), vec![addr]);
}

#[test]
fn counts_manager_keeps_what_is_referenced_queued() {
    let mut manager = counts::BinderNodeManager::new();
    let a = manager.new_node();
    let b = manager.new_node();
    let weak_b = manager.new_weak_handle(&b);
    let (addr_a, addr_b) = (a.node, b.node);
    // The last weak reference queues a node that is still strongly referenced.
    manager.drop_weak(weak_b);
    manager.drop_strong(a);
    assert_eq!(manager.process_cleanup(), vec![addr_a]);
    manager.drop_strong(b);
    assert_eq!(manager.process_cleanup(), vec![addr_b]);
}

#[test]
fn counts_node_wraps_around() {
    let mut node = counts::BinderNode::new();
    node.inc_strong();
    node.inc_weak();
    let link = node.add_death_recipient(counts::DeathRecipient::new(7));
    assert_eq!(counted(node.notify_deaths()), vec![7]);
    assert!(node.notify_deaths().is_empty());
    node.remove_death_recipient(link);
    assert!(node.notify_deaths().is_empty());
}

#[test]
fn test_node_refcount_and_death_list() {
    let mut mgr = sharded::BinderNodeManager::new(4);
    let node = mgr.create_node();

    let notif1 = sharded::DeathNotification::new(42);
    let notif2 = sharded::DeathNotification::new(100);
    let link1 = mgr.add_death_recipient(node, notif1);
    mgr.add_death_recipient(node, notif2);
    assert_eq!(mgr.node(node).death_count(), 2);

    mgr.remove_death_recipient(node, link1);
    assert_eq!(mgr.node(node).death_count(), 1);

    mgr.inc_strong(node);
    assert!(mgr.dec_strong(node).is_empty());
    let due = mgr.dec_strong(node);
    assert_eq!(due, vec![notif2]);
    assert_eq!(mgr.node(node).death_count(), 0);

    mgr.process_cleanup();
}

#[test]
fn sharded_manager_withdraws_what_was_registered() {
    let mut mgr = sharded::BinderNodeManager::new(2);
    let node = mgr.create_node();
    let first = mgr.add_death_recipient(node, sharded::DeathNotification::new(1));
    mgr.remove_death_recipient(node, first);
    assert_eq!(mgr.node(node).death_count(), 0);
    let second = mgr.add_death_recipient(node, sharded::DeathNotification::new(2));
    assert_ne!(first, second);
    assert_eq!(mgr.node(node).death_count(), 1);
    assert_eq!(mgr.dec_strong(node), vec![sharded::DeathNotification::new(2)]);
}

#[test]
fn sharded_manager_forgets_when_withdrawn_again() {
    let mut mgr = sharded::BinderNodeManager::new(2);
    let node = mgr.create_node();
    let first = mgr.add_death_recipient(node, sharded::DeathNotification::new(1));
    mgr.add_death_recipient(node, sharded::DeathNotification::new(2));
    mgr.remove_death_recipient(node, first);
    mgr.remove_death_recipient(node, first);
    assert_eq!(mgr.node(node).death_count(), 0);
    mgr.remove_death_recipient(node, first);
    assert_eq!(mgr.node(node).death_count(), usize::MAX);
    assert!(mgr.dec_strong(node).is_empty());
    assert_eq!(mgr.node(node).death_count(), 0);
}

#[test]
fn sharded_manager_keeps_queued_nodes_alive() {
    let mut mgr = sharded::BinderNodeManager::new(3);
    let a = mgr.create_node();
    let b = mgr.create_node();
    assert_eq!((mgr.node(a).id, mgr.node(b).id), (1, 2));
    assert_eq!(mgr.get_node(1), Some(a));
    mgr.drop_node(a);
    assert_eq!(mgr.get_node(9), None);
    mgr.dec_strong(a);
    mgr.drop_node(a);
    // The queue is the last owner of the node.
    assert_eq!(mgr.get_node(1), Some(a));
    mgr.drop_node(a);
    mgr.process_cleanup();
    assert_eq!(mgr.get_node(1), None);
    assert_eq!(mgr.get_node(2), Some(b));
    mgr.inc_weak(b);
    mgr.dec_weak(b);
    mgr.schedule_for_cleanup(b);
    mgr.schedule_by_hash(b, 5);
    mgr.process_cleanup();
    assert_eq!(mgr.get_node(2), None);
}

#[test]
fn live_dead_manager_cleans_up_most_recent_first() {
    let mut manager = live_dead::NodeManager::new();
    let a = manager.create_node(0x10);
    let b = manager.create_node(0x20);
    let c = manager.create_node(0x30);
    assert_eq!(b.object_ptr(&manager), 0x20);
    let first = manager.register_death_recipient(&a, 'x', 1);
    manager.register_death_recipient(&a, 'y', 2);
    manager.register_death_recipient(&a, 'z', 3);
    first.unlink(&mut manager);
    b.acquire_strong(&mut manager);
    a.release_strong(&mut manager);
    b.release_strong(&mut manager);
    c.release_strong(&mut manager);
    let cleaned = manager.process_dead();
    assert_eq!(cleaned.iter().map(|c| c.node).collect::<Vec<usize>>(), vec![c.node, a.node]);
    assert!(cleaned[0].due.is_empty());
    let due: Vec<(char, u64)> = cleaned[1].due.iter().map(|e| (e.recipient, e.cookie)).collect();
    assert_eq!(due, vec![('z', 3), ('y', 2)]);
    assert!(manager.process_dead().is_empty());
    assert_eq!(b.object_ptr(&manager), 0x20);
    b.release_strong(&mut manager);
    assert_eq!(manager.next_dead().map(|c| c.node), Some(b.node));
    assert!(manager.next_dead().is_none());
}

#[test]
fn live_dead_manager_withdraws_what_was_registered() {
    let mut manager = live_dead::NodeManager::new();
    let a = manager.create_node(0x10);
    manager.register_death_recipient(&a, 'w', 0);
    let first = manager.register_death_recipient(&a, 'x', 1);
    first.unlink(&mut manager);
    let second = manager.register_death_recipient(&a, 'y', 2);
    assert_ne!(first, second);
    second.unlink(&mut manager);
    a.release_strong(&mut manager);
    let cleaned = manager.process_dead();
    assert_eq!(cleaned.len(), 1);
    assert_eq!(cleaned[0].due.iter().map(|e| e.cookie).collect::<Vec<u64>>(), vec![0]);
}

#[test]
fn live_dead_manager_forgets_when_withdrawn_again() {
    let mut manager = live_dead::NodeManager::new();
    let a = manager.create_node(0x10);
    let first = manager.register_death_recipient(&a, 'x', 1);
    manager.register_death_recipient(&a, 'y', 2);
    first.unlink(&mut manager);
    first.unlink(&mut manager);
    manager.register_death_recipient(&a, 'z', 3);
    a.release_strong(&mut manager);
    let cleaned = manager.process_dead();
    assert_eq!(cleaned[0].due.iter().map(|e| e.cookie).collect::<Vec<u64>>(), vec![3]);
}

#[test]
fn death_list_manager_keeps_callbacks_of_other_handles() {
    let mut manager = death_list::DeathListManager::new();
    let mut a = death_list::BinderNode::new(1);
    let mut b = death_list::BinderNode::new(2);
    a.link_to_death(&mut manager, "one");
    b.link_to_death(&mut manager, "two");
    assert_eq!(a.release(&mut manager), vec!["one"]);
    // The list is drained as a whole, the callbacks are not.
    assert_eq!(manager.notification_count(), 0);
    assert_eq!(b.release(&mut manager), vec!["two"]);
}

#[test]
fn test_safe_cleanup_no_race() {
    let mut manager = death_list::DeathListManager::new();
    let mut node = death_list::BinderNode::new(123);
    node.link_to_death(&mut manager, "callback");
    assert_eq!(manager.notification_count(), 1);

    assert_eq!(node.release(&mut manager).len(), 1);
    assert_eq!(manager.notification_count(), 0);
}

#[test]
fn test_binder_node_death_notification() {
    let mut manager = cleanups::BinderNodeManager::new();
    let node: cleanups::BinderNode<u8> = cleanups::BinderNode::new(42);
    node.link_to_death(&mut manager, "callback");
    assert_eq!(manager.death_notification_count(), 1);

    let due = node.release(&mut manager);
    manager.process_cleanups();
    assert_eq!(due.len(), 1);
    assert_eq!(manager.death_notification_count(), 0);
}
