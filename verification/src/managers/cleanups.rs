//! A manager with one list of notifications for all nodes. Releasing a node removes its own
//! notifications only and leaves the node waiting for a later clean-up.
use std::collections::HashMap;
use std::sync::Arc;

use vstd::prelude::*;

use crate::managers::death_list::{
    entries, kept, law_notifications_go_by_handle, lemma_entries_push, lemma_entries_without,
    DeathNode,
};
use crate::owned::ends::DeathList;
use crate::owned::unmatched;

verus! {

broadcast use vstd::std_specs::hash::group_hash_axioms;

/// The data of a node.
pub struct BinderNodeInner<U> {
    pub handle: u32,
    pub released: bool,
    pub user_data: Option<U>,
}

impl<U> BinderNodeInner<U> {
    pub fn new(handle: u32) -> (inner: BinderNodeInner<U>)
        ensures
            inner == (BinderNodeInner { handle, released: false, user_data: None::<U> }),
    {
        BinderNodeInner { handle, released: false, user_data: None }
    }
}

/// A shared node.
pub struct BinderNode<U> {
    pub inner: Arc<BinderNodeInner<U>>,
}

impl<U> BinderNode<U> {
    pub fn new(handle: u32) -> (node: BinderNode<U>)
        ensures
            *node.inner == (BinderNodeInner { handle, released: false, user_data: None::<U> }),
    {
        BinderNode { inner: Arc::new(BinderNodeInner::new(handle)) }
    }

    /// The handle of the node.
    pub fn handle(&self) -> (handle: u32)
        ensures
            handle == self.inner.handle,
    {
        self.inner.handle
    }

    /// Registers a callback for the death of the node.
    pub fn link_to_death<C>(&self, manager: &mut BinderNodeManager<U, C>, callback: C)
        requires
            old(manager).wf(),
        ensures
            final(manager).wf(),
            final(manager).nodes() == old(manager).nodes().push(
                DeathNode { handle: self.inner.handle },
            ),
            final(manager).waiting() == old(manager).waiting(),
            final(manager).callbacks() == old(manager).callbacks().insert(
                self.inner.handle,
                kept(old(manager).callbacks(), self.inner.handle).push(callback),
            ),
    {
        manager.register_death_notification(self.inner.handle, callback);
    }

    /// Gives the node up and releases it: its callbacks are handed out in the order of registration,
    /// to be called with its handle.
    pub fn release<C>(self, manager: &mut BinderNodeManager<U, C>) -> (due: Vec<C>)
        requires
            old(manager).wf(),
        ensures
            final(manager).wf(),
            due@ == kept(old(manager).callbacks(), self.inner.handle),
            final(manager).nodes() == old(manager).nodes().filter(
                unmatched::<u32, DeathNode>(self.inner.handle),
            ),
            final(manager).waiting() == old(manager).waiting().push(self.inner),
            final(manager).callbacks() == old(manager).callbacks().remove(self.inner.handle),
    {
        manager.release_node(self.inner)
    }
}

/// A manager of nodes.
pub struct BinderNodeManager<U, C> {
    death_list: DeathList<DeathNode>,
    to_cleanup: Vec<Arc<BinderNodeInner<U>>>,
    callbacks: HashMap<u32, Vec<C>>,
}

impl<U, C> BinderNodeManager<U, C> {
    /// The list of notifications, oldest first.
    pub closed spec fn nodes(self) -> Seq<DeathNode> {
        self.death_list@
    }

    /// The nodes that wait for clean-up, oldest first.
    pub closed spec fn waiting(self) -> Seq<Arc<BinderNodeInner<U>>> {
        self.to_cleanup@
    }

    /// The callbacks for each handle, oldest first.
    pub closed spec fn callbacks(self) -> Map<u32, Seq<C>> {
        self.callbacks@.map_values(|v: Vec<C>| v@)
    }

    /// There are as many notifications on the list for a handle as callbacks are kept for it.
    pub closed spec fn wf(self) -> bool {
        &&& self.death_list.wf()
        &&& forall|handle: u32| #[trigger]
            entries(self.nodes(), handle) == kept(self.callbacks(), handle).len()
    }

    /// The invariant on what the manager holds.
    pub proof fn lemma_balanced(self)
        requires
            self.wf(),
        ensures
            forall|handle: u32| #[trigger]
                entries(self.nodes(), handle) == kept(self.callbacks(), handle).len(),
    {
    }

    /// Creates a manager without notifications.
    pub fn new() -> (manager: BinderNodeManager<U, C>)
        ensures
            manager.wf(),
            manager.nodes() == Seq::<DeathNode>::empty(),
            manager.waiting() == Seq::<Arc<BinderNodeInner<U>>>::empty(),
            manager.callbacks() == Map::<u32, Seq<C>>::empty(),
    {
        let manager = BinderNodeManager {
            death_list: DeathList::new(),
            to_cleanup: Vec::new(),
            callbacks: HashMap::new(),
        };
        proof {
            reveal(Seq::filter);
            assert(manager.callbacks() =~= Map::empty());
        }
        manager
    }

    /// Puts a notification for a handle behind the others and keeps its callback.
    pub fn register_death_notification(&mut self, handle: u32, callback: C)
        requires
            old(self).wf(),
        ensures
            final(self).wf(),
            final(self).nodes() == old(self).nodes().push(DeathNode { handle }),
            final(self).waiting() == old(self).waiting(),
            final(self).callbacks() == old(self).callbacks().insert(
                handle,
                kept(old(self).callbacks(), handle).push(callback),
            ),
    {
        self.death_list.push_back(DeathNode::new(handle));
        let mut waiting: Vec<C> = match self.callbacks.remove(&handle) {
            Some(waiting) => waiting,
            None => Vec::new(),
        };
        waiting.push(callback);
        self.callbacks.insert(handle, waiting);
        proof {
            lemma_entries_push(old(self).nodes(), DeathNode { handle });
            assert(self.callbacks() =~= old(self).callbacks().insert(
                handle,
                kept(old(self).callbacks(), handle).push(callback),
            ));
        }
    }

    /// Releases a node: its notifications are removed from the list, the node is put among those
    /// that wait for clean-up, and its callbacks are handed out in the order of registration.
    pub fn release_node(&mut self, node: Arc<BinderNodeInner<U>>) -> (due: Vec<C>)
        requires
            old(self).wf(),
        ensures
            final(self).wf(),
            due@ == kept(old(self).callbacks(), node.handle),
            final(self).nodes() == old(self).nodes().filter(
                unmatched::<u32, DeathNode>(node.handle),
            ),
            final(self).waiting() == old(self).waiting().push(node),
            final(self).callbacks() == old(self).callbacks().remove(node.handle),
    {
        let handle: u32 = node.handle;
        self.death_list.remove_matching(&handle);
        self.to_cleanup.push(node);
        let due: Option<Vec<C>> = self.callbacks.remove(&handle);
        proof {
            lemma_entries_without(old(self).nodes(), handle);
            assert(self.callbacks() =~= old(self).callbacks().remove(handle));
        }
        match due {
            Some(due) => due,
            None => Vec::new(),
        }
    }

    /// Hands out the nodes that wait for clean-up, to be dropped.
    pub fn process_cleanups(&mut self) -> (dropped: Vec<Arc<BinderNodeInner<U>>>)
        requires
            old(self).wf(),
        ensures
            final(self).wf(),
            dropped@ == old(self).waiting(),
            final(self).waiting() == Seq::<Arc<BinderNodeInner<U>>>::empty(),
            final(self).nodes() == old(self).nodes(),
            final(self).callbacks() == old(self).callbacks(),
    {
        let mut dropped: Vec<Arc<BinderNodeInner<U>>> = Vec::new();
        std::mem::swap(&mut self.to_cleanup, &mut dropped);
        proof {
            assert(self.nodes() == old(self).nodes());
            assert(self.callbacks() == old(self).callbacks());
        }
        dropped
    }

    /// The number of notifications on the list.
    pub fn death_notification_count(&self) -> (count: usize)
        requires
            self.wf(),
        ensures
            count == self.nodes().len(),
    {
        self.death_list.len()
    }

    /// The number of nodes that wait for clean-up.
    pub fn pending_cleanup_count(&self) -> (count: usize)
        ensures
            count == self.waiting().len(),
    {
        self.to_cleanup.len()
    }
}

/// After a release no notification for the handle is left on the list.
pub proof fn law_released_handle_is_gone(nodes: Seq<DeathNode>, handle: u32)
    ensures
        forall|i: int|
            0 <= i < nodes.filter(unmatched::<u32, DeathNode>(handle)).len() ==> (
            #[trigger] nodes.filter(unmatched::<u32, DeathNode>(handle))[i]).handle != handle,
    decreases nodes.len(),
{
    reveal(Seq::filter);
    if nodes.len() > 0 {
        law_released_handle_is_gone(nodes.drop_last(), handle);
    }
}

/// A release takes nothing off but the notifications of its handle: each of the others stays, and none
/// comes to stand before one that it stood behind.
pub proof fn law_other_notifications_stay(nodes: Seq<DeathNode>, handle: u32)
    ensures
        nodes.filter(unmatched::<u32, DeathNode>(handle)) == nodes.filter(
            |d: DeathNode| d.handle != handle,
        ),
        forall|other: u32|
            other != handle ==> nodes.filter(unmatched::<u32, DeathNode>(handle)).filter(
                |d: DeathNode| d.handle == other,
            ).len() == #[trigger] entries(nodes, other),
{
    law_notifications_go_by_handle(nodes, handle);
    lemma_entries_without(nodes, handle);
    assert forall|other: u32| other != handle implies nodes.filter(
        unmatched::<u32, DeathNode>(handle),
    ).filter(|d: DeathNode| d.handle == other).len() == #[trigger] entries(nodes, other) by {
        law_notifications_go_by_handle(
            nodes.filter(unmatched::<u32, DeathNode>(handle)),
            other,
        );
    }
}

} // verus!
