//! A manager with one list of notifications for all nodes and the callbacks kept by handle. Releasing
//! a node drains the whole list.
use std::collections::HashMap;

use vstd::prelude::*;

use crate::owned::ends::DeathList;
use crate::owned::{matched, unmatched, Matches};

verus! {

broadcast use vstd::std_specs::hash::group_hash_axioms;

/// A place on the list of notifications.
#[derive(Clone, Copy, Debug, PartialEq, Eq, Structural)]
pub struct DeathNode {
    /// The handle of the node that the notification is for.
    pub handle: u32,
}

impl DeathNode {
    pub fn new(handle: u32) -> (node: DeathNode)
        ensures
            node == (DeathNode { handle }),
    {
        DeathNode { handle }
    }
}

impl Matches<u32> for DeathNode {
    open spec fn matches(self, key: u32) -> bool {
        self.handle == key
    }

    fn is_match(&self, key: &u32) -> (found: bool) {
        self.handle == *key
    }
}

/// The callbacks kept for a handle.
pub open spec fn kept<C>(callbacks: Map<u32, Seq<C>>, handle: u32) -> Seq<C> {
    if callbacks.contains_key(handle) {
        callbacks[handle]
    } else {
        Seq::empty()
    }
}

/// How many notifications on a list are for a handle.
pub open spec fn entries(nodes: Seq<DeathNode>, handle: u32) -> nat {
    nodes.filter(matched::<u32, DeathNode>(handle)).len()
}

/// A notification more on the list is one more for its handle.
pub proof fn lemma_entries_push(nodes: Seq<DeathNode>, node: DeathNode)
    ensures
        forall|handle: u32| #[trigger]
            entries(nodes.push(node), handle) == entries(nodes, handle) + if handle == node.handle {
                1nat
            } else {
                0nat
            },
{
    reveal(Seq::filter);
    assert(nodes.push(node).drop_last() =~= nodes);
}

/// Removing the notifications for one handle leaves those for the others.
pub proof fn lemma_entries_without(nodes: Seq<DeathNode>, gone: u32)
    ensures
        forall|handle: u32| #[trigger]
            entries(nodes.filter(unmatched::<u32, DeathNode>(gone)), handle) == if handle == gone {
                0
            } else {
                entries(nodes, handle)
            },
    decreases nodes.len(),
{
    reveal(Seq::filter);
    if nodes.len() > 0 {
        let r = nodes.drop_last();
        let rest = r.filter(unmatched::<u32, DeathNode>(gone));
        lemma_entries_without(r, gone);
        lemma_entries_push(rest, nodes.last());
        lemma_entries_push(r, nodes.last());
        assert(r.push(nodes.last()) =~= nodes);
    }
}

/// A node.
#[derive(Clone, Copy, Debug, PartialEq, Eq, Structural)]
pub struct BinderNode {
    pub handle: u32,
    pub released: bool,
}

impl BinderNode {
    pub fn new(handle: u32) -> (node: BinderNode)
        ensures
            node == (BinderNode { handle, released: false }),
    {
        BinderNode { handle, released: false }
    }

    /// The handle of the node.
    pub fn handle(&self) -> (handle: u32)
        ensures
            handle == self.handle,
    {
        self.handle
    }

    /// Marks the node as released.
    pub fn mark_released(&mut self)
        ensures
            *final(self) == (BinderNode { handle: old(self).handle, released: true }),
    {
        self.released = true;
    }

    /// Registers a callback for the death of the node.
    pub fn link_to_death<C>(&self, manager: &mut DeathListManager<C>, callback: C)
        requires
            old(manager).wf(),
        ensures
            final(manager).wf(),
            final(manager).nodes() == old(manager).nodes().push(DeathNode { handle: self.handle }),
            final(manager).callbacks() == old(manager).callbacks().insert(
                self.handle,
                kept(old(manager).callbacks(), self.handle).push(callback),
            ),
    {
        manager.register(self.handle, callback);
    }

    /// Releases the node: its callbacks are handed out in the order of registration, to be called
    /// with its handle.
    pub fn release<C>(&mut self, manager: &mut DeathListManager<C>) -> (due: Vec<C>)
        requires
            old(manager).wf(),
        ensures
            *final(self) == (BinderNode { handle: old(self).handle, released: true }),
            final(manager).wf(),
            due@ == kept(old(manager).callbacks(), old(self).handle),
            final(manager).nodes() == Seq::<DeathNode>::empty(),
            final(manager).callbacks() == old(manager).callbacks().remove(old(self).handle),
    {
        self.mark_released();
        manager.release_node(self.handle)
    }
}

/// A manager of notifications.
pub struct DeathListManager<C> {
    list: DeathList<DeathNode>,
    callbacks: HashMap<u32, Vec<C>>,
}

impl<C> DeathListManager<C> {
    /// The list of notifications, oldest first.
    pub closed spec fn nodes(self) -> Seq<DeathNode> {
        self.list@
    }

    /// The callbacks for each handle, oldest first.
    pub closed spec fn callbacks(self) -> Map<u32, Seq<C>> {
        self.callbacks@.map_values(|v: Vec<C>| v@)
    }

    /// For every notification on the list a callback is kept. There may be more callbacks: those of
    /// handles that were not released when the list was drained.
    pub closed spec fn wf(self) -> bool {
        &&& self.list.wf()
        &&& forall|handle: u32| #[trigger]
            entries(self.nodes(), handle) <= kept(self.callbacks(), handle).len()
    }

    /// The invariant on what the manager holds.
    pub proof fn lemma_covered(self)
        requires
            self.wf(),
        ensures
            forall|handle: u32| #[trigger]
                entries(self.nodes(), handle) <= kept(self.callbacks(), handle).len(),
    {
    }

    /// Creates a manager without notifications.
    pub fn new() -> (manager: DeathListManager<C>)
        ensures
            manager.wf(),
            manager.nodes() == Seq::<DeathNode>::empty(),
            manager.callbacks() == Map::<u32, Seq<C>>::empty(),
    {
        let manager = DeathListManager { list: DeathList::new(), callbacks: HashMap::new() };
        proof {
            reveal(Seq::filter);
            assert(manager.callbacks() =~= Map::empty());
        }
        manager
    }

    /// Puts a notification for a handle behind the others and keeps its callback.
    pub fn register(&mut self, handle: u32, callback: C)
        requires
            old(self).wf(),
        ensures
            final(self).wf(),
            final(self).nodes() == old(self).nodes().push(DeathNode { handle }),
            final(self).callbacks() == old(self).callbacks().insert(
                handle,
                kept(old(self).callbacks(), handle).push(callback),
            ),
    {
        self.list.push_back(DeathNode::new(handle));
        let mut waiting: Vec<C> = match self.callbacks.remove(&handle) {
            Some(waiting) => waiting,
            None => Vec::new(),
        };
        waiting.push(callback);
        self.callbacks.insert(handle, waiting);
        proof {
            lemma_entries_push(old(self).nodes(), DeathNode { handle });
            assert(self.callbacks() =~= old(self).callbacks().insert(
                handle,
                kept(old(self).callbacks(), handle).push(callback),
            ));
        }
    }

    /// Releases a node: its notifications are removed from the list, the rest of the list is
    /// drained with them, and its callbacks are handed out in the order of registration.
    pub fn release_node(&mut self, handle: u32) -> (due: Vec<C>)
        requires
            old(self).wf(),
        ensures
            final(self).wf(),
            due@ == kept(old(self).callbacks(), handle),
            final(self).nodes() == Seq::<DeathNode>::empty(),
            final(self).callbacks() == old(self).callbacks().remove(handle),
    {
        self.list.remove_matching(&handle);
        proof {
            lemma_entries_without(old(self).nodes(), handle);
        }
        self.drain_to_local();
        let due: Option<Vec<C>> = self.callbacks.remove(&handle);
        proof {
            reveal(Seq::filter);
            assert(self.callbacks() =~= old(self).callbacks().remove(handle));
        }
        match due {
            Some(due) => due,
            None => Vec::new(),
        }
    }

    /// Takes everything off the list and hands it out in order.
    pub fn drain_to_local(&mut self) -> (local: Vec<DeathNode>)
        requires
            old(self).wf(),
        ensures
            final(self).wf(),
            final(self).nodes() == Seq::<DeathNode>::empty(),
            final(self).callbacks() == old(self).callbacks(),
            local@ == old(self).nodes(),
    {
        proof {
            reveal(Seq::filter);
        }
        self.list.take_all()
    }

    /// Empties the list. The callbacks are kept.
    pub fn cleanup(&mut self)
        requires
            old(self).wf(),
        ensures
            final(self).wf(),
            final(self).nodes() == Seq::<DeathNode>::empty(),
            final(self).callbacks() == old(self).callbacks(),
    {
        self.drain_to_local();
    }

    /// The number of notifications on the list.
    pub fn notification_count(&self) -> (count: usize)
        requires
            self.wf(),
        ensures
            count == self.nodes().len(),
    {
        self.list.len()
    }
}

/// The callbacks of a handle are handed out at most once: after a release none are kept for it.
pub proof fn law_callbacks_are_handed_out_once<C>(callbacks: Map<u32, Seq<C>>, handle: u32)
    ensures
        kept(callbacks.remove(handle), handle) == Seq::<C>::empty(),
        forall|other: u32|
            other != handle ==> #[trigger] kept(callbacks.remove(handle), other) == kept(
                callbacks,
                other,
            ),
{
}

/// The callbacks kept under a handle are those registered for it, and none if nothing is registered.
/// One more callback comes behind them, and those of other handles stay.
pub proof fn law_callbacks_are_kept_in_order<C>(
    callbacks: Map<u32, Seq<C>>,
    handle: u32,
    callback: C,
)
    ensures
        callbacks.contains_key(handle) ==> kept(callbacks, handle) == callbacks[handle],
        !callbacks.contains_key(handle) ==> kept(callbacks, handle).len() == 0,
        kept(callbacks.insert(handle, kept(callbacks, handle).push(callback)), handle).len() == kept(
            callbacks,
            handle,
        ).len() + 1,
        kept(callbacks.insert(handle, kept(callbacks, handle).push(callback)), handle).last()
            == callback,
        kept(callbacks.insert(handle, kept(callbacks, handle).push(callback)), handle).drop_last()
            == kept(callbacks, handle),
        forall|other: u32|
            other != handle ==> #[trigger] kept(
                callbacks.insert(handle, kept(callbacks, handle).push(callback)),
                other,
            ) == kept(callbacks, other),
{
    assert(kept(callbacks, handle).push(callback).drop_last() =~= kept(callbacks, handle));
}

/// Notifications are told apart by their handles: those of a handle are counted, and taken out, and
/// all others stay, in their order.
pub proof fn law_notifications_go_by_handle(nodes: Seq<DeathNode>, handle: u32)
    ensures
        entries(nodes, handle) == nodes.filter(|d: DeathNode| d.handle == handle).len(),
        nodes.filter(unmatched::<u32, DeathNode>(handle)) == nodes.filter(
            |d: DeathNode| d.handle != handle,
        ),
{
    assert(matched::<u32, DeathNode>(handle) =~= (|d: DeathNode| d.handle == handle));
    assert(unmatched::<u32, DeathNode>(handle) =~= (|d: DeathNode| d.handle != handle));
}

} // verus!
