//! A manager that does not keep its nodes alive itself. Nodes scheduled for clean-up gather on a list
//! of the scheduling thread before they reach the common queue.
//!
//! Nodes are shared: a node is known by its address in the manager's memory, and its owners are
//! counted. It is alive as long as it has owners.
use std::collections::HashMap;

use vstd::prelude::*;

use crate::owned::trusting::{
    law_ring_erase, law_ring_erase_idempotent, law_ring_erase_undoes_push, law_ring_push, RingList,
    RingView,
};

verus! {

broadcast use vstd::std_specs::hash::group_hash_axioms;

/// A notification.
pub struct DeathNotification {
    pub cookie: usize,
    pub recipient: String,
}

impl DeathNotification {
    pub fn new(cookie: usize, recipient: String) -> (notification: DeathNotification)
        ensures
            notification == (DeathNotification { cookie, recipient }),
    {
        DeathNotification { cookie, recipient }
    }
}

/// What there is to know of a node.
pub struct NodeView {
    pub id: u64,
    pub strong_refs: usize,
    /// How many owners keep the node alive.
    pub owners: usize,
    /// The list of notifications, most recently linked first. A notification is known by its address,
    /// its link.
    pub deaths: RingView<DeathNotification>,
}

impl NodeView {
    /// The list of notifications is one that can be followed.
    pub open spec fn orderly(self) -> bool {
        self.deaths.sound()
    }

    /// A link that a notification of this node has been given.
    pub open spec fn issued(self, link: usize) -> bool {
        self.deaths.known(link)
    }

    /// After `d` has been linked before the others.
    pub open spec fn registered(self, d: DeathNotification) -> NodeView {
        NodeView { deaths: self.deaths.pushed(d), ..self }
    }

    /// After the neighbours that the notification at `link` names have been joined.
    pub open spec fn withdrawn(self, link: usize) -> NodeView {
        NodeView { deaths: self.deaths.erased(link), ..self }
    }
}

/// A node.
pub struct BinderNode {
    pub id: u64,
    strong_refs: usize,
    owners: usize,
    death_recipient_list: RingList<DeathNotification>,
}

impl View for BinderNode {
    type V = NodeView;

    closed spec fn view(&self) -> NodeView {
        NodeView {
            id: self.id,
            strong_refs: self.strong_refs,
            owners: self.owners,
            deaths: self.death_recipient_list@,
        }
    }
}

impl BinderNode {
    pub closed spec fn wf(self) -> bool {
        self.death_recipient_list.wf()
    }

    /// The invariant on the notifications of a node.
    pub proof fn lemma_orderly(self)
        requires
            self.wf(),
        ensures
            self@.orderly(),
    {
        self.death_recipient_list.lemma_sound();
    }

    /// Creates a node with one owner and no strong references.
    pub fn new(id: u64) -> (node: BinderNode)
        ensures
            node.wf(),
            node@ == (NodeView {
                id,
                strong_refs: 0,
                owners: 1,
                deaths: RingView::fresh(),
            }),
    {
        BinderNode { id, strong_refs: 0, owners: 1, death_recipient_list: RingList::new() }
    }

    /// Takes a strong reference. The count wraps around.
    pub fn inc_strong(&mut self)
        requires
            old(self).wf(),
        ensures
            final(self).wf(),
            final(self)@ == (NodeView {
                strong_refs: if old(self)@.strong_refs == usize::MAX {
                    0
                } else {
                    (old(self)@.strong_refs + 1) as usize
                },
                ..old(self)@
            }),
    {
        self.strong_refs = self.strong_refs.wrapping_add(1);
    }

    /// Gives up a strong reference. The count wraps around. Says whether it was the last one, and
    /// hands out the links of the notifications that are then due, in order. The notifications stay
    /// linked.
    pub fn dec_strong(&mut self) -> (outcome: (bool, Vec<usize>))
        requires
            old(self).wf(),
        ensures
            final(self).wf(),
            outcome.0 == (old(self)@.strong_refs == 1),
            outcome.1@ == if outcome.0 {
                old(self)@.deaths.order()
            } else {
                Seq::empty()
            },
            forall|i: int|
                0 <= i < outcome.1@.len() ==> old(self)@.issued(#[trigger] outcome.1@[i]),
            final(self)@ == (NodeView {
                strong_refs: if old(self)@.strong_refs == 0 {
                    usize::MAX
                } else {
                    (old(self)@.strong_refs - 1) as usize
                },
                ..old(self)@
            }),
    {
        let prev: usize = self.strong_refs;
        self.strong_refs = prev.wrapping_sub(1);
        if prev == 1 {
            (true, self.death_notify())
        } else {
            (false, Vec::new())
        }
    }

    /// The links of the notifications on the list, in order.
    pub fn death_notify(&self) -> (due: Vec<usize>)
        requires
            self.wf(),
        ensures
            due@ == self@.deaths.order(),
            forall|i: int| 0 <= i < due@.len() ==> self@.issued(#[trigger] due@[i]),
    {
        self.death_recipient_list.order()
    }

    /// The notification at a link.
    pub fn notification(&self, link: usize) -> (notification: &DeathNotification)
        requires
            self.wf(),
            self@.issued(link),
        ensures
            *notification == self@.deaths.item(link),
    {
        self.death_recipient_list.get(link)
    }

    /// Links a notification in front of the others and hands out its link.
    pub fn link_death_recipient(&mut self, dn: DeathNotification) -> (link: usize)
        requires
            old(self).wf(),
        ensures
            final(self).wf(),
            link == old(self)@.deaths.cells.len(),
            final(self)@ == old(self)@.registered(dn),
    {
        self.death_recipient_list.push_front(dn)
    }

    /// Unlinks the notification at a link. It keeps its own link fields: unlinking it again later joins
    /// the same neighbours again.
    pub fn unlink_death_recipient(&mut self, link: usize)
        requires
            old(self).wf(),
            old(self)@.issued(link),
        ensures
            final(self).wf(),
            final(self)@ == old(self)@.withdrawn(link),
    {
        self.death_recipient_list.erase(link);
    }
}

/// What a manager holds.
pub struct ManagerView {
    /// All nodes that have been created, by address.
    pub arena: Seq<NodeView>,
    /// Where the node with a number is.
    pub nodes: Map<u64, usize>,
    /// The nodes that wait for clean-up, oldest first. The queue owns them.
    pub queue: Seq<usize>,
}

impl ManagerView {
    /// With the node at `addr` replaced.
    pub open spec fn with(self, addr: usize, node: NodeView) -> ManagerView {
        ManagerView { arena: self.arena.update(addr as int, node), ..self }
    }

    /// A registered node that has owners.
    pub open spec fn available(self, id: u64) -> bool {
        self.nodes.contains_key(id) && self.arena[self.nodes[id] as int].owners > 0
    }

    /// After a reference to an available node has been acquired: it has one more owner and one more
    /// strong reference.
    pub open spec fn acquired(self, id: u64) -> ManagerView {
        let a = self.nodes[id];
        let node = self.arena[a as int];
        self.with(
            a,
            NodeView {
                strong_refs: if node.strong_refs == usize::MAX {
                    0
                } else {
                    (node.strong_refs + 1) as usize
                },
                owners: (node.owners + 1) as usize,
                ..node
            },
        )
    }

    /// After the nodes `batch` have been gone through, in order: a node whose number is registered
    /// loses an owner, and the number is dropped from the register; any other is put on the queue
    /// again.
    pub open spec fn sifted(self, batch: Seq<usize>) -> ManagerView
        decreases batch.len(),
    {
        if batch.len() == 0 {
            self
        } else {
            let v = self.sifted(batch.drop_last());
            let addr = batch.last();
            let node = v.arena[addr as int];
            if v.nodes.contains_key(node.id) {
                ManagerView {
                    nodes: v.nodes.remove(node.id),
                    ..v.with(
                        addr,
                        NodeView {
                            owners: if node.owners == 0 {
                                0
                            } else {
                                (node.owners - 1) as usize
                            },
                            ..node
                        },
                    )
                }
            } else {
                ManagerView { queue: v.queue.push(addr), ..v }
            }
        }
    }
}

/// A manager of nodes.
pub struct BinderNodeManager {
    arena: Vec<BinderNode>,
    nodes: HashMap<u64, usize>,
    cleanup_queue: Vec<usize>,
}

impl View for BinderNodeManager {
    type V = ManagerView;

    closed spec fn view(&self) -> ManagerView {
        ManagerView {
            arena: self.arena@.map_values(|n: BinderNode| n@),
            nodes: self.nodes@,
            queue: self.cleanup_queue@,
        }
    }
}

/// What holds of every manager: every number and every queued address leads to a node, and the
/// notifications of every node can be followed.
pub open spec fn consistent(v: ManagerView) -> bool {
    &&& forall|a: int| 0 <= a < v.arena.len() ==> (#[trigger] v.arena[a]).orderly()
    &&& forall|id: u64| #[trigger] v.nodes.contains_key(id) ==> v.nodes[id] < v.arena.len()
    &&& forall|i: int| 0 <= i < v.queue.len() ==> (#[trigger] v.queue[i]) < v.arena.len()
}

/// The nodes that a thread has scheduled for clean-up, oldest first.
pub struct LocalTempNodes {
    pub nodes: Vec<usize>,
}

impl BinderNodeManager {
    /// Every number and every queued address leads to a node.
    pub closed spec fn wf(self) -> bool {
        &&& forall|a: int| 0 <= a < self.arena@.len() ==> (#[trigger] self.arena@[a]).wf()
        &&& forall|id: u64| #[trigger]
            self.nodes@.contains_key(id) ==> self.nodes@[id] < self.arena@.len()
        &&& forall|i: int|
            0 <= i < self.cleanup_queue@.len() ==> (#[trigger] self.cleanup_queue@[i])
                < self.arena@.len()
    }

    /// The public part of the invariant.
    pub proof fn lemma_consistent(self)
        requires
            self.wf(),
        ensures
            consistent(self@),
    {
        assert forall|a: int| 0 <= a < self@.arena.len() implies (
        #[trigger] self@.arena[a]).orderly() by {
            self.arena@[a].lemma_orderly();
        }
    }

    /// All nodes on a thread's list exist.
    pub open spec fn knows(self, local: LocalTempNodes) -> bool {
        forall|i: int|
            0 <= i < local.nodes@.len() ==> (#[trigger] local.nodes@[i]) < self@.arena.len()
    }

    /// Creates a manager without nodes.
    pub fn new() -> (manager: BinderNodeManager)
        ensures
            manager.wf(),
            manager@ == (ManagerView {
                arena: Seq::empty(),
                nodes: Map::empty(),
                queue: Seq::empty(),
            }),
    {
        let manager = BinderNodeManager {
            arena: Vec::new(),
            nodes: HashMap::new(),
            cleanup_queue: Vec::new(),
        };
        assert(manager@.arena =~= Seq::empty());
        manager
    }

    /// Creates a node, registers it under its number in place of any earlier one, and hands out its
    /// address. The caller becomes its owner.
    pub fn create_node(&mut self, id: u64) -> (addr: usize)
        requires
            old(self).wf(),
        ensures
            final(self).wf(),
            addr == old(self)@.arena.len(),
            final(self)@ == (ManagerView {
                arena: old(self)@.arena.push(
                    NodeView {
                        id,
                        strong_refs: 0,
                        owners: 1,
                        deaths: RingView::fresh(),
                    },
                ),
                nodes: old(self)@.nodes.insert(id, addr),
                queue: old(self)@.queue,
            }),
    {
        let addr: usize = self.arena.len();
        self.arena.push(BinderNode::new(id));
        self.nodes.insert(id, addr);
        assert(self@.arena =~= old(self)@.arena.push(self.arena@[addr as int]@));
        addr
    }

    /// The node at an address.
    pub fn node(&self, addr: usize) -> (node: &BinderNode)
        requires
            self.wf(),
            addr < self@.arena.len(),
        ensures
            node.wf(),
            node@ == self@.arena[addr as int],
    {
        &self.arena[addr]
    }

    /// Takes a strong reference to the node at `addr`. The count wraps around.
    pub fn inc_strong(&mut self, addr: usize)
        requires
            old(self).wf(),
            addr < old(self)@.arena.len(),
        ensures
            final(self).wf(),
            final(self)@ == old(self)@.with(
                addr,
                NodeView {
                    strong_refs: if old(self)@.arena[addr as int].strong_refs == usize::MAX {
                        0
                    } else {
                        (old(self)@.arena[addr as int].strong_refs + 1) as usize
                    },
                    ..old(self)@.arena[addr as int]
                },
            ),
    {
        self.arena[addr].inc_strong();
        assert(self@.arena =~= old(self)@.arena.update(addr as int, self.arena@[addr as int]@));
    }

    /// Gives up a strong reference to the node at `addr`. The count wraps around. Says whether it was
    /// the last one, and hands out the links of the notifications that are then due, in order.
    pub fn dec_strong(&mut self, addr: usize) -> (outcome: (bool, Vec<usize>))
        requires
            old(self).wf(),
            addr < old(self)@.arena.len(),
        ensures
            final(self).wf(),
            outcome.0 == (old(self)@.arena[addr as int].strong_refs == 1),
            outcome.1@ == if outcome.0 {
                old(self)@.arena[addr as int].deaths.order()
            } else {
                Seq::empty()
            },
            forall|i: int|
                0 <= i < outcome.1@.len() ==> old(self)@.arena[addr as int].issued(
                    #[trigger] outcome.1@[i],
                ),
            final(self)@ == old(self)@.with(
                addr,
                NodeView {
                    strong_refs: if old(self)@.arena[addr as int].strong_refs == 0 {
                        usize::MAX
                    } else {
                        (old(self)@.arena[addr as int].strong_refs - 1) as usize
                    },
                    ..old(self)@.arena[addr as int]
                },
            ),
    {
        let outcome: (bool, Vec<usize>) = self.arena[addr].dec_strong();
        assert(self@.arena =~= old(self)@.arena.update(addr as int, self.arena@[addr as int]@));
        outcome
    }

    /// Links a notification to the node at `addr` and hands out its link.
    pub fn link_death_recipient(&mut self, addr: usize, dn: DeathNotification) -> (link: usize)
        requires
            old(self).wf(),
            addr < old(self)@.arena.len(),
        ensures
            final(self).wf(),
            link == old(self)@.arena[addr as int].deaths.cells.len(),
            final(self)@ == old(self)@.with(addr, old(self)@.arena[addr as int].registered(dn)),
    {
        let link: usize = self.arena[addr].link_death_recipient(dn);
        assert(self@.arena =~= old(self)@.arena.update(addr as int, self.arena@[addr as int]@));
        link
    }

    /// Unlinks a notification from the node at `addr`.
    pub fn unlink_death_recipient(&mut self, addr: usize, link: usize)
        requires
            old(self).wf(),
            addr < old(self)@.arena.len(),
            old(self)@.arena[addr as int].issued(link),
        ensures
            final(self).wf(),
            final(self)@ == old(self)@.with(addr, old(self)@.arena[addr as int].withdrawn(link)),
    {
        self.arena[addr].unlink_death_recipient(link);
        assert(self@.arena =~= old(self)@.arena.update(addr as int, self.arena@[addr as int]@));
    }

    /// Gives up ownership of the node at `addr`.
    pub fn drop_node(&mut self, addr: usize)
        requires
            old(self).wf(),
            addr < old(self)@.arena.len(),
            old(self)@.arena[addr as int].owners > 0,
        ensures
            final(self).wf(),
            final(self)@ == old(self)@.with(
                addr,
                NodeView {
                    owners: (old(self)@.arena[addr as int].owners - 1) as usize,
                    ..old(self)@.arena[addr as int]
                },
            ),
    {
        self.arena[addr].owners = self.arena[addr].owners - 1;
        assert(self@.arena =~= old(self)@.arena.update(addr as int, self.arena@[addr as int]@));
    }

    /// Acquires a strong reference to the node with a number, if it is registered and alive. What the
    /// calling thread has scheduled is moved to the common queue first.
    pub fn acquire_node(&mut self, local: &mut LocalTempNodes, id: u64) -> (addr: Option<usize>)
        requires
            old(self).wf(),
            old(self).knows(*old(local)),
            old(self)@.available(id) ==> old(self)@.arena[old(self)@.nodes[id] as int].owners
                < usize::MAX,
        ensures
            final(self).wf(),
            final(local).nodes@.len() == 0,
            addr == if old(self)@.available(id) {
                Some(old(self)@.nodes[id])
            } else {
                None
            },
            addr is Some <==> old(self)@.nodes.contains_key(id)
                && old(self)@.arena[old(self)@.nodes[id] as int].owners > 0,
            addr matches Some(a) ==> a == old(self)@.nodes[id] && final(self)@.arena[a as int].owners
                == old(self)@.arena[a as int].owners + 1,
            ({
                let v = ManagerView {
                    queue: old(self)@.queue + old(local).nodes@,
                    ..old(self)@
                };
                final(self)@ == if v.available(id) {
                    v.acquired(id)
                } else {
                    v
                }
            }),
    {
        self.drain_local_temp(local);
        let ghost v = self@;
        let addr: usize = match self.nodes.get(&id) {
            Some(addr) => *addr,
            None => {
                return None;
            },
        };
        if self.arena[addr].owners == 0 {
            return None;
        }
        self.arena[addr].owners = self.arena[addr].owners + 1;
        self.arena[addr].inc_strong();
        assert(self@.arena =~= v.arena.update(addr as int, self.arena@[addr as int]@));
        Some(addr)
    }

    /// Schedules the node at `addr` for clean-up. The thread's list becomes its owner in the caller's
    /// place.
    pub fn schedule_cleanup(&self, local: &mut LocalTempNodes, addr: usize)
        requires
            self.wf(),
            addr < self@.arena.len(),
            self.knows(*old(local)),
        ensures
            final(local).nodes@ == old(local).nodes@.push(addr),
            self.knows(*final(local)),
    {
        local.nodes.push(addr);
    }

    /// Moves what a thread has scheduled to the common queue.
    pub fn drain_local_temp(&mut self, local: &mut LocalTempNodes)
        requires
            old(self).wf(),
            old(self).knows(*old(local)),
        ensures
            final(self).wf(),
            final(local).nodes@.len() == 0,
            final(self)@ == (ManagerView {
                queue: old(self)@.queue + old(local).nodes@,
                ..old(self)@
            }),
    {
        if !local.nodes.is_empty() {
            self.cleanup_queue.append(&mut local.nodes);
        } else {
            assert(self@.queue =~= old(self)@.queue + old(local).nodes@);
        }
        proof {
            let q = self.cleanup_queue@;
            assert forall|i: int| 0 <= i < q.len() implies (#[trigger] q[i])
                < self.arena@.len() by {
                let n = old(self).cleanup_queue@.len();
                if i < n {
                    assert(q[i] == old(self).cleanup_queue@[i]);
                } else {
                    assert(q[i] == old(local).nodes@[i - n]);
                }
            }
        }
    }

    /// Works off the queue, with what the calling thread has scheduled at its end: a node whose number
    /// is registered leaves the queue, and the number the register, whichever node it led to. The
    /// others stay queued.
    pub fn process_cleanups(&mut self, local: &mut LocalTempNodes)
        requires
            old(self).wf(),
            old(self).knows(*old(local)),
        ensures
            final(self).wf(),
            final(local).nodes@.len() == 0,
            final(self)@ == (ManagerView { queue: Seq::empty(), ..old(self)@ }).sifted(
                old(self)@.queue + old(local).nodes@,
            ),
    {
        self.drain_local_temp(local);
        let mut batch: Vec<usize> = Vec::new();
        std::mem::swap(&mut self.cleanup_queue, &mut batch);
        let ghost all = batch@;
        let ghost v = self@;
        proof {
            assert(v.queue =~= Seq::empty());
            assert(v == (ManagerView { queue: Seq::empty(), ..old(self)@ }));
        }
        for i in 0..batch.len()
            invariant
                self.wf(),
                batch@ == all,
                forall|j: int| 0 <= j < all.len() ==> (#[trigger] all[j]) < self.arena@.len(),
                self@ == v.sifted(all.take(i as int)),
        {
            let addr: usize = batch[i];
            let ghost before = self@;
            proof {
                assert(all.take(i as int + 1).drop_last() =~= all.take(i as int));
                assert(all.take(i as int + 1).last() == addr);
            }
            let id: u64 = self.arena[addr].id;
            if self.nodes.remove(&id).is_some() {
                self.arena[addr].owners = self.arena[addr].owners.saturating_sub(1);
                assert(self@.arena =~= before.arena.update(
                    addr as int,
                    self.arena@[addr as int]@,
                ));
            } else {
                self.cleanup_queue.push(addr);
                assert(self@.nodes =~= before.nodes);
            }
        }
        assert(all.take(all.len() as int) =~= all);
    }
}

/// Unlinking a notification right after it has been linked to a node whose list is in order leaves the
/// notifications that were there before.
pub proof fn law_withdrawal_undoes_registration(n: NodeView, s: Seq<usize>, d: DeathNotification)
    requires
        n.orderly(),
        n.deaths.holds(s),
    ensures
        n.registered(d).withdrawn(n.deaths.next_address()).deaths.holds(s),
        n.registered(d).withdrawn(n.deaths.next_address()).deaths.listed() == n.deaths.listed(),
{
    law_ring_erase_undoes_push(n.deaths, s, d);
}

/// Withdrawing a notification that is on a list in order takes it out, so that it is not delivered, and leaves
/// all others in their order.
pub proof fn law_withdrawn_is_not_delivered(n: NodeView, s: Seq<usize>, i: int)
    requires
        n.deaths.holds(s),
        0 <= i < s.len(),
    ensures
        n.withdrawn(s[i]).deaths.holds(s.remove(i)),
        n.withdrawn(s[i]).deaths.listed() == n.deaths.listed().remove(i),
{
    law_ring_erase(n.deaths, s, i);
}

/// Unlinking a notification twice in a row is unlinking it once.
pub proof fn law_unlink_idempotent(n: NodeView, link: usize)
    requires
        n.orderly(),
        n.issued(link),
    ensures
        n.withdrawn(link).withdrawn(link) == n.withdrawn(link),
{
    law_ring_erase_idempotent(n.deaths, link);
}

/// A node whose number is registered leaves the queue, and the number the register; any other node
/// stays queued.
pub proof fn law_cleanup_drops_registered_nodes(v: ManagerView, addr: usize)
    requires
        addr < v.arena.len(),
    ensures
        ({
            let w = v.sifted(seq![addr]);
            let id = v.arena[addr as int].id;
            if v.nodes.contains_key(id) {
                w.nodes == v.nodes.remove(id) && w.queue == v.queue
            } else {
                w.nodes == v.nodes && w.queue == v.queue.push(addr)
            }
        }),
{
    assert(seq![addr].drop_last() =~= Seq::<usize>::empty());
    reveal_with_fuel(ManagerView::sifted, 2);
}

/// A number stays registered, with its node as it was, if no node with that number waits for clean-up.
pub proof fn law_unscheduled_numbers_stay_registered(v: ManagerView, batch: Seq<usize>, id: u64)
    requires
        consistent(v),
        v.nodes.contains_key(id),
        v.arena[v.nodes[id] as int].id == id,
        forall|i: int|
            0 <= i < batch.len() ==> (#[trigger] batch[i]) < v.arena.len()
                && v.arena[batch[i] as int].id != id,
    ensures
        v.sifted(batch).arena.len() == v.arena.len(),
        forall|a: int|
            0 <= a < v.arena.len() ==> (#[trigger] v.sifted(batch).arena[a]).id == v.arena[a].id,
        v.sifted(batch).nodes.contains_key(id),
        v.sifted(batch).nodes[id] == v.nodes[id],
        v.sifted(batch).arena[v.nodes[id] as int] == v.arena[v.nodes[id] as int],
    decreases batch.len(),
{
    if batch.len() > 0 {
        let r = batch.drop_last();
        assert forall|i: int| 0 <= i < r.len() implies (#[trigger] r[i]) < v.arena.len()
            && v.arena[r[i] as int].id != id by {
            assert(r[i] == batch[i]);
        }
        law_unscheduled_numbers_stay_registered(v, r, id);
        let last = batch[batch.len() - 1];
        assert(v.sifted(r).arena[last as int].id == v.arena[last as int].id);
    }
}

/// Registering a notification, and withdrawing one, changes nothing of a node but its ring. On a ring
/// in order the notification comes to stand before the others, and the one at a position is taken out.
pub proof fn law_registration_touches_only_the_ring(
    node: NodeView,
    d: DeathNotification,
    order: Seq<usize>,
    i: int,
)
    requires
        node.orderly(),
        node.deaths.cells.len() < usize::MAX,
        node.deaths.holds(order),
        0 <= i < order.len(),
    ensures
        node.registered(d).deaths.listed() == node.deaths.listed().insert(0, d),
        node.registered(d).deaths.items == node.deaths.items.push(d),
        (NodeView { deaths: node.deaths, ..node.registered(d) }) == node,
        node.withdrawn(order[i]).deaths.listed() == node.deaths.listed().remove(i),
        node.withdrawn(order[i]).deaths.items == node.deaths.items,
        (NodeView { deaths: node.deaths, ..node.withdrawn(order[i]) }) == node,
        node.issued(order[i]),
        forall|link: usize| #[trigger]
            node.registered(d).issued(link) <==> node.issued(link) || link
                == node.deaths.cells.len(),
{
    law_ring_push(node.deaths, order, d);
    law_ring_erase(node.deaths, order, i);
}

/// Replacing a node touches no other node, no number and nothing that waits.
pub proof fn law_one_node_is_replaced(v: ManagerView, addr: usize, node: NodeView)
    requires
        addr < v.arena.len(),
    ensures
        v.with(addr, node).arena.len() == v.arena.len(),
        v.with(addr, node).arena[addr as int] == node,
        forall|b: int|
            0 <= b < v.arena.len() && b != addr ==> #[trigger] v.with(addr, node).arena[b]
                == v.arena[b],
        v.with(addr, node).nodes == v.nodes,
        v.with(addr, node).queue == v.queue,
{
}

/// A number whose node has an owner can always be acquired, however many owners there are; one that is
/// not registered, or whose node has none, cannot. Acquiring adds an owner and a strong reference to
/// that node, changes nothing else, and leaves it available.
pub proof fn law_owned_node_is_acquired(v: ManagerView, id: u64)
    requires
        consistent(v),
    ensures
        v.nodes.contains_key(id) && v.arena[v.nodes[id] as int].owners > 0 ==> v.available(id),
        !v.nodes.contains_key(id) ==> !v.available(id),
        v.nodes.contains_key(id) && v.arena[v.nodes[id] as int].owners == 0 ==> !v.available(id),
        v.available(id) && v.arena[v.nodes[id] as int].owners < usize::MAX ==> {
            let a = v.nodes[id] as int;
            let before = v.arena[a];
            let after = v.acquired(id).arena[a];
            &&& after.owners == before.owners + 1
            &&& before.strong_refs < usize::MAX ==> after.strong_refs == before.strong_refs + 1
            &&& before.strong_refs == usize::MAX ==> after.strong_refs == 0
            &&& after.id == before.id
            &&& after.deaths == before.deaths
            &&& v.acquired(id).available(id)
            &&& v.acquired(id).nodes == v.nodes
            &&& v.acquired(id).queue == v.queue
            &&& v.acquired(id).arena.len() == v.arena.len()
            &&& forall|b: int|
                0 <= b < v.arena.len() && b != a ==> #[trigger] v.acquired(id).arena[b]
                    == v.arena[b]
        },
{
}

/// Sifting two batches one after the other is sifting both as one.
pub proof fn law_batches_follow_each_other(v: ManagerView, s: Seq<usize>, t: Seq<usize>)
    ensures
        v.sifted(s + t) == v.sifted(s).sifted(t),
    decreases t.len(),
{
    if t.len() == 0 {
        assert(s + t =~= s);
    } else {
        law_batches_follow_each_other(v, s, t.drop_last());
        assert((s + t).drop_last() =~= s + t.drop_last());
    }
}

/// Sifting one node: if its number is registered, the number is taken off and the node loses an owner;
/// if not, the node waits on, and nothing else changes.
pub proof fn law_one_node_is_sifted(v: ManagerView, addr: usize)
    requires
        addr < v.arena.len(),
    ensures
        v.sifted(Seq::empty()) == v,
        v.nodes.contains_key(v.arena[addr as int].id) ==> {
            let before = v.arena[addr as int];
            let w = v.sifted(seq![addr]);
            let after = w.arena[addr as int];
            &&& w.nodes == v.nodes.remove(before.id)
            &&& w.queue == v.queue
            &&& w.arena.len() == v.arena.len()
            &&& before.owners > 0 ==> after.owners == before.owners - 1
            &&& before.owners == 0 ==> after.owners == 0
            &&& (NodeView { owners: before.owners, ..after }) == before
            &&& forall|b: int|
                0 <= b < v.arena.len() && b != addr ==> #[trigger] w.arena[b] == v.arena[b]
        },
        !v.nodes.contains_key(v.arena[addr as int].id) ==> {
            let w = v.sifted(seq![addr]);
            w.nodes == v.nodes && w.arena == v.arena && w.queue == v.queue.push(addr)
        },
{
    assert(seq![addr].drop_last() =~= Seq::<usize>::empty());
    reveal_with_fuel(ManagerView::sifted, 2);
}

/// A batch of nodes with distinct numbers: the numbers that are registered are taken off the register,
/// and no others; the nodes whose numbers are not registered wait on, in the order of the batch and
/// behind what waited before; the others lose an owner. Nothing else changes.
pub proof fn law_every_node_is_sifted(v: ManagerView, batch: Seq<usize>)
    requires
        forall|i: int| 0 <= i < batch.len() ==> (#[trigger] batch[i]) < v.arena.len(),
        forall|i: int, j: int|
            0 <= i < j < batch.len() ==> v.arena[(#[trigger] batch[i]) as int].id != v.arena[(
            #[trigger] batch[j]) as int].id,
    ensures
        v.sifted(batch).arena.len() == v.arena.len(),
        v.sifted(batch).queue == v.queue + batch.filter(
            |a: usize| !v.nodes.contains_key(v.arena[a as int].id),
        ),
        forall|id: u64| #[trigger]
            v.sifted(batch).nodes.contains_key(id) <==> v.nodes.contains_key(id) && forall|i: int|
                0 <= i < batch.len() ==> v.arena[(#[trigger] batch[i]) as int].id != id,
        forall|id: u64|
            v.sifted(batch).nodes.contains_key(id) ==> #[trigger] v.sifted(batch).nodes[id]
                == v.nodes[id],
        forall|a: usize|
            a < v.arena.len() ==> {
                let before = v.arena[a as int];
                let after = #[trigger] v.sifted(batch).arena[a as int];
                let taken = batch.contains(a) && v.nodes.contains_key(before.id);
                &&& (NodeView { owners: before.owners, ..after }) == before
                &&& taken && before.owners > 0 ==> after.owners == before.owners - 1
                &&& !taken || before.owners == 0 ==> after.owners == before.owners
            },
    decreases batch.len(),
{
    let off = |a: usize| !v.nodes.contains_key(v.arena[a as int].id);
    reveal(Seq::filter);
    if batch.len() == 0 {
        assert(v.queue =~= v.queue + batch.filter(off));
    } else {
        let less = batch.drop_last();
        let last = batch.last();
        assert forall|i: int, j: int| 0 <= i < j < less.len() implies v.arena[(
        #[trigger] less[i]) as int].id != v.arena[(#[trigger] less[j]) as int].id by {
            assert(less[i] == batch[i] && less[j] == batch[j]);
        }
        law_every_node_is_sifted(v, less);
        let w = v.sifted(less);
        let id = v.arena[last as int].id;
        assert(batch[batch.len() - 1] == last);
        assert forall|i: int| 0 <= i < less.len() implies v.arena[(#[trigger] less[i]) as int].id
            != id by {
            assert(less[i] == batch[i]);
        }
        assert forall|a: usize| batch.contains(a) implies a == last || less.contains(a) by {
            let i = choose|i: int| 0 <= i < batch.len() && batch[i] == a;
            if i < less.len() {
                assert(less[i] == a);
            }
        }
        assert forall|a: usize| less.contains(a) implies batch.contains(a) && a != last by {
            let i = choose|i: int| 0 <= i < less.len() && less[i] == a;
            assert(batch[i] == a);
        }
        assert(w.arena[last as int] == v.arena[last as int]) by {
            assert((NodeView { owners: v.arena[last as int].owners, ..w.arena[last as int] })
                == v.arena[last as int]);
        }
        assert(w.nodes.contains_key(id) <==> v.nodes.contains_key(id));
        assert(v.sifted(batch).queue =~= v.queue + batch.filter(off));
        assert forall|k: u64| #[trigger]
            v.sifted(batch).nodes.contains_key(k) <==> v.nodes.contains_key(k) && forall|i: int|
                0 <= i < batch.len() ==> v.arena[(#[trigger] batch[i]) as int].id != k by {
            if v.nodes.contains_key(k) && forall|i: int|
                0 <= i < batch.len() ==> v.arena[(#[trigger] batch[i]) as int].id != k {
                assert forall|i: int| 0 <= i < less.len() implies v.arena[(
                #[trigger] less[i]) as int].id != k by {
                    assert(less[i] == batch[i]);
                }
            }
            if v.sifted(batch).nodes.contains_key(k) {
                assert forall|i: int| 0 <= i < batch.len() implies v.arena[(
                #[trigger] batch[i]) as int].id != k by {
                    if i < less.len() {
                        assert(less[i] == batch[i]);
                    }
                }
            }
        }
        assert forall|k: u64| v.sifted(batch).nodes.contains_key(k) implies (
        #[trigger] v.sifted(batch).nodes[k]) == v.nodes[k] by {
            assert(w.nodes[k] == v.nodes[k]);
        }
        assert forall|a: usize| a < v.arena.len() implies ({
            let before = v.arena[a as int];
            let after = #[trigger] v.sifted(batch).arena[a as int];
            let taken = batch.contains(a) && v.nodes.contains_key(before.id);
            &&& (NodeView { owners: before.owners, ..after }) == before
            &&& taken && before.owners > 0 ==> after.owners == before.owners - 1
            &&& !taken || before.owners == 0 ==> after.owners == before.owners
        }) by {
            assert((NodeView { owners: v.arena[a as int].owners, ..w.arena[a as int] })
                == v.arena[a as int]);
        }
    }
}

} // verus!
