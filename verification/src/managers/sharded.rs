//! A manager that spreads the nodes waiting for clean-up over several queues, so that threads which
//! release nodes at the same time seldom meet.
//!
//! Nodes are shared: a node is known by its address in the manager's memory, and its owners are
//! counted. It is alive as long as it has owners. A queue owns the nodes on it.
use std::collections::hash_map::DefaultHasher;
use std::collections::HashMap;
use std::collections::VecDeque;
use std::hash::{Hash, Hasher};

use vstd::prelude::*;

use crate::managers::counts::{one_less, one_more};
use crate::links::unlinked;
use crate::owned::trusting::{
    law_tailed_erase, law_tailed_erase_again, law_tailed_erase_undoes_push, law_tailed_order,
    law_tailed_push, TailedList, TailedView,
};

verus! {

broadcast use vstd::std_specs::hash::group_hash_axioms;

/// A notification, known by its cookie.
#[derive(Clone, Copy, Debug, PartialEq, Eq, Structural)]
pub struct DeathNotification {
    pub cookie: u64,
}

impl DeathNotification {
    pub fn new(cookie: u64) -> (notification: DeathNotification)
        ensures
            notification == (DeathNotification { cookie }),
    {
        DeathNotification { cookie }
    }
}

/// What there is to know of a node.
pub struct NodeView {
    pub id: u64,
    pub strong_refs: usize,
    pub weak_refs: usize,
    /// How many owners keep the node alive.
    pub owners: usize,
    /// The list of notifications. A notification is known by its address, its link.
    pub deaths: TailedView<DeathNotification>,
    /// The number of registrations less that of withdrawals since the list was last emptied.
    pub death_count: usize,
}

impl NodeView {
    /// A node just created.
    pub open spec fn fresh(id: u64) -> NodeView {
        NodeView {
            id,
            strong_refs: 1,
            weak_refs: 0,
            owners: 1,
            deaths: TailedView::fresh(),
            death_count: 0,
        }
    }

    /// The list of notifications is one that can be followed.
    pub open spec fn orderly(self) -> bool {
        self.deaths.sound()
    }

    /// A link that a notification of this node has been given.
    pub open spec fn issued(self, link: usize) -> bool {
        link < self.deaths.items.len()
    }

    /// After `d` has been registered behind the others. The count wraps around.
    pub open spec fn registered(self, d: DeathNotification) -> NodeView {
        NodeView {
            deaths: self.deaths.pushed(d),
            death_count: one_more(self.death_count),
            ..self
        }
    }

    /// After the neighbours that the notification at `link` names have been joined. The count wraps
    /// around.
    pub open spec fn withdrawn(self, link: usize) -> NodeView {
        NodeView {
            deaths: self.deaths.erased(link),
            death_count: one_less(self.death_count),
            ..self
        }
    }

    /// After a strong reference has been given up. With the last one all notifications are taken off.
    pub open spec fn strong_dropped(self) -> NodeView {
        NodeView {
            strong_refs: one_less(self.strong_refs),
            deaths: if self.strong_refs == 1 {
                self.deaths.emptied()
            } else {
                self.deaths
            },
            death_count: if self.strong_refs == 1 {
                0
            } else {
                self.death_count
            },
            ..self
        }
    }

    /// The notifications that are due when a strong reference is given up.
    pub open spec fn due(self) -> Seq<DeathNotification> {
        if self.strong_refs == 1 {
            self.deaths.listed()
        } else {
            Seq::empty()
        }
    }

    /// With one more owner.
    pub open spec fn kept(self) -> NodeView {
        NodeView { owners: (self.owners + 1) as usize, ..self }
    }

    /// After clean-up: without the weak reference and the owner that the queue stood for.
    pub open spec fn finished(self) -> NodeView {
        NodeView {
            weak_refs: one_less(self.weak_refs),
            owners: if self.owners == 0 {
                0
            } else {
                (self.owners - 1) as usize
            },
            ..self
        }
    }
}

/// A node.
pub struct BinderNode {
    pub id: u64,
    strong_refs: usize,
    weak_refs: usize,
    owners: usize,
    deaths: TailedList<DeathNotification>,
    death_count: usize,
}

impl View for BinderNode {
    type V = NodeView;

    closed spec fn view(&self) -> NodeView {
        NodeView {
            id: self.id,
            strong_refs: self.strong_refs,
            weak_refs: self.weak_refs,
            owners: self.owners,
            deaths: self.deaths@,
            death_count: self.death_count,
        }
    }
}

impl BinderNode {
    pub closed spec fn wf(self) -> bool {
        self.deaths.wf()
    }

    /// The invariant on the notifications of a node.
    pub proof fn lemma_orderly(self)
        requires
            self.wf(),
        ensures
            self@.orderly(),
    {
        self.deaths.lemma_sound();
    }

    /// Creates a node with one strong reference.
    pub fn new(id: u64) -> (node: BinderNode)
        ensures
            node.wf(),
            node@ == NodeView::fresh(id),
    {
        BinderNode {
            id,
            strong_refs: 1,
            weak_refs: 0,
            owners: 1,
            deaths: TailedList::new(),
            death_count: 0,
        }
    }

    /// Takes a strong reference. The count wraps around.
    pub fn inc_strong(&mut self)
        requires
            old(self).wf(),
        ensures
            final(self).wf(),
            final(self)@ == (NodeView { strong_refs: one_more(old(self)@.strong_refs), ..old(self)@ }),
    {
        self.strong_refs = self.strong_refs.wrapping_add(1);
    }

    /// Gives up a strong reference. The count wraps around. With the last one all notifications are
    /// taken off and handed out in order. Says whether it was the last one.
    fn release_strong(&mut self) -> (outcome: (bool, Vec<DeathNotification>))
        requires
            old(self).wf(),
        ensures
            final(self).wf(),
            outcome.0 == (old(self)@.strong_refs == 1),
            outcome.1@ == old(self)@.due(),
            final(self)@ == old(self)@.strong_dropped(),
    {
        let prev: usize = self.strong_refs;
        self.strong_refs = prev.wrapping_sub(1);
        if prev == 1 {
            let due: Vec<DeathNotification> = self.deaths.listed();
            self.deaths.clear();
            self.death_count = 0;
            (true, due)
        } else {
            (false, Vec::new())
        }
    }

    /// Takes a weak reference. The count wraps around.
    pub fn inc_weak(&mut self)
        requires
            old(self).wf(),
        ensures
            final(self).wf(),
            final(self)@ == (NodeView { weak_refs: one_more(old(self)@.weak_refs), ..old(self)@ }),
    {
        self.weak_refs = self.weak_refs.wrapping_add(1);
    }

    /// Gives up a weak reference. The count wraps around.
    pub fn dec_weak(&mut self)
        requires
            old(self).wf(),
        ensures
            final(self).wf(),
            final(self)@ == (NodeView { weak_refs: one_less(old(self)@.weak_refs), ..old(self)@ }),
    {
        self.weak_refs = self.weak_refs.wrapping_sub(1);
    }

    /// Registers a notification behind the others and hands out its link.
    pub fn add_death_recipient(&mut self, notif: DeathNotification) -> (link: usize)
        requires
            old(self).wf(),
        ensures
            final(self).wf(),
            link == old(self)@.deaths.items.len(),
            final(self)@ == old(self)@.registered(notif),
    {
        let link: usize = self.deaths.push_back(notif);
        self.death_count = self.death_count.wrapping_add(1);
        link
    }

    /// Withdraws the notification at a link. Where it has been withdrawn before, the list forgets the
    /// others. The count wraps around.
    pub fn remove_death_recipient(&mut self, link: usize)
        requires
            old(self).wf(),
            old(self)@.issued(link),
        ensures
            final(self).wf(),
            final(self)@ == old(self)@.withdrawn(link),
    {
        self.deaths.erase(link);
        self.death_count = self.death_count.wrapping_sub(1);
    }

    /// The count of notifications.
    pub fn death_count(&self) -> (count: usize)
        requires
            self.wf(),
        ensures
            count == self@.death_count,
    {
        self.death_count
    }
}

/// Feeds a number to a hasher with std's `Hash::hash`. Nothing is claimed of the state of the hasher
/// afterwards: std leaves open what is fed for a number, and its algorithm may change.
#[verifier::external_body]
fn feed(hasher: &mut DefaultHasher, number: u64) {
    number.hash(hasher);
}

/// The queue that a hash leads to, of `shards` queues.
pub open spec fn shard_of(hash: u64, shards: nat) -> int {
    (hash as usize) as int % (shards as int)
}

/// What a manager holds.
pub struct ManagerView {
    /// All nodes that have been created, by address.
    pub arena: Seq<NodeView>,
    /// Where the node with a number is.
    pub live: Map<u64, usize>,
    /// The nodes that wait for clean-up, oldest first, by queue.
    pub queues: Seq<Seq<usize>>,
    /// The next number to give out.
    pub next_id: usize,
}

/// All waiting nodes in the order in which the queues are worked off.
pub open spec fn waiting(queues: Seq<Seq<usize>>) -> Seq<usize>
    decreases queues.len(),
{
    if queues.len() == 0 {
        Seq::empty()
    } else {
        waiting(queues.drop_last()) + queues.last()
    }
}

impl ManagerView {
    /// With the node at `addr` replaced.
    pub open spec fn with(self, addr: usize, node: NodeView) -> ManagerView {
        ManagerView { arena: self.arena.update(addr as int, node), ..self }
    }

    /// A registered node that has owners.
    pub open spec fn available(self, id: u64) -> bool {
        self.live.contains_key(id) && self.arena[self.live[id] as int].owners > 0
    }

    /// After the node at `addr` has been put on a queue, which owns it then.
    pub open spec fn queued(self, shard: int, addr: usize) -> ManagerView {
        ManagerView {
            queues: self.queues.update(shard, self.queues[shard].push(addr)),
            ..self.with(addr, self.arena[addr as int].kept())
        }
    }

    /// After the nodes `batch` have been cleaned up, in order.
    pub open spec fn processed(self, batch: Seq<usize>) -> ManagerView
        decreases batch.len(),
    {
        if batch.len() == 0 {
            self
        } else {
            let v = self.processed(batch.drop_last());
            let node = v.arena[batch.last() as int];
            ManagerView {
                live: v.live.remove(node.id),
                ..v.with(batch.last(), node.finished())
            }
        }
    }
}

/// A manager of nodes.
pub struct BinderNodeManager {
    arena: Vec<BinderNode>,
    cleanup_queues: Vec<VecDeque<usize>>,
    live_nodes: HashMap<u64, usize>,
    next_id: usize,
}

impl View for BinderNodeManager {
    type V = ManagerView;

    closed spec fn view(&self) -> ManagerView {
        ManagerView {
            arena: self.arena@.map_values(|n: BinderNode| n@),
            live: self.live_nodes@,
            queues: self.cleanup_queues@.map_values(|q: VecDeque<usize>| q@),
            next_id: self.next_id,
        }
    }
}

/// What holds of every manager: every number and every queued address leads to a node, and the
/// notifications of every node can be followed.
pub open spec fn consistent(v: ManagerView) -> bool {
    &&& forall|a: int| 0 <= a < v.arena.len() ==> (#[trigger] v.arena[a]).orderly()
    &&& forall|id: u64| #[trigger] v.live.contains_key(id) ==> v.live[id] < v.arena.len()
    &&& forall|s: int, j: int|
        0 <= s < v.queues.len() && 0 <= j < v.queues[s].len() ==> (#[trigger] v.queues[s][j])
            < v.arena.len()
}

/// Every address on a queue leads to one of `n` nodes.
spec fn within(queue: Seq<usize>, n: nat) -> bool {
    forall|j: int| 0 <= j < queue.len() ==> (#[trigger] queue[j]) < n
}

impl BinderNodeManager {
    /// Every number and every queued address leads to a node.
    pub closed spec fn wf(self) -> bool {
        &&& forall|a: int| 0 <= a < self.arena@.len() ==> (#[trigger] self.arena@[a]).wf()
        &&& forall|id: u64| #[trigger]
            self.live_nodes@.contains_key(id) ==> self.live_nodes@[id] < self.arena@.len()
        &&& forall|s: int|
            0 <= s < self.cleanup_queues@.len() ==> within(
                (#[trigger] self.cleanup_queues@[s])@,
                self.arena@.len(),
            )
    }

    /// The public part of the invariant: every number and every queued address leads to a node, and
    /// the notifications of every node can be followed.
    pub proof fn lemma_consistent(self)
        requires
            self.wf(),
        ensures
            consistent(self@),
    {
        assert forall|a: int| 0 <= a < self@.arena.len() implies (
        #[trigger] self@.arena[a]).orderly() by {
            self.arena@[a].lemma_orderly();
        }
        assert forall|s: int, j: int|
            0 <= s < self@.queues.len() && 0 <= j < self@.queues[s].len() implies (
        #[trigger] self@.queues[s][j]) < self@.arena.len() by {
            assert(within(self.cleanup_queues@[s]@, self.arena@.len()));
        }
    }

    /// Creates a manager with a number of empty queues.
    pub fn new(num_cleanup_shards: usize) -> (manager: BinderNodeManager)
        ensures
            manager.wf(),
            manager@ == (ManagerView {
                arena: Seq::empty(),
                live: Map::empty(),
                queues: Seq::new(num_cleanup_shards as nat, |s: int| Seq::empty()),
                next_id: 1,
            }),
    {
        let mut queues: Vec<VecDeque<usize>> = Vec::with_capacity(num_cleanup_shards);
        for i in 0..num_cleanup_shards
            invariant
                queues@.len() == i,
                forall|s: int| 0 <= s < i ==> (#[trigger] queues@[s])@ == Seq::<usize>::empty(),
        {
            queues.push(VecDeque::new());
        }
        let manager = BinderNodeManager {
            arena: Vec::new(),
            cleanup_queues: queues,
            live_nodes: HashMap::new(),
            next_id: 1,
        };
        proof {
            assert(manager@.arena =~= Seq::empty());
            assert(manager@.queues =~= Seq::new(
                num_cleanup_shards as nat,
                |s: int| Seq::empty(),
            ));
        }
        manager
    }

    /// Creates a node under the next number and hands out its address. The caller becomes its owner.
    /// The numbers wrap around.
    pub fn create_node(&mut self) -> (addr: usize)
        requires
            old(self).wf(),
        ensures
            final(self).wf(),
            addr == old(self)@.arena.len(),
            final(self)@ == (ManagerView {
                arena: old(self)@.arena.push(NodeView::fresh(old(self)@.next_id as u64)),
                live: old(self)@.live.insert(old(self)@.next_id as u64, addr),
                next_id: one_more(old(self)@.next_id),
                ..old(self)@
            }),
    {
        let id: u64 = self.next_id as u64;
        self.next_id = self.next_id.wrapping_add(1);
        let addr: usize = self.arena.len();
        self.arena.push(BinderNode::new(id));
        self.live_nodes.insert(id, addr);
        proof {
            assert(self@.arena =~= old(self)@.arena.push(self.arena@[addr as int]@));
            assert(self@.queues =~= old(self)@.queues);
        }
        addr
    }

    /// The node at an address.
    pub fn node(&self, addr: usize) -> (node: &BinderNode)
        requires
            self.wf(),
            addr < self@.arena.len(),
        ensures
            node.wf(),
            node@ == self@.arena[addr as int],
    {
        &self.arena[addr]
    }

    /// Takes a strong reference to the node at `addr`. The count wraps around.
    pub fn inc_strong(&mut self, addr: usize)
        requires
            old(self).wf(),
            addr < old(self)@.arena.len(),
        ensures
            final(self).wf(),
            final(self)@ == old(self)@.with(
                addr,
                NodeView {
                    strong_refs: one_more(old(self)@.arena[addr as int].strong_refs),
                    ..old(self)@.arena[addr as int]
                },
            ),
    {
        self.arena[addr].inc_strong();
        assert(self@.arena =~= old(self)@.arena.update(addr as int, self.arena@[addr as int]@));
    }

    /// Gives up a strong reference to the node at `addr`. With the last one its notifications are
    /// taken off and handed out in order, and the node is scheduled for clean-up.
    pub fn dec_strong(&mut self, addr: usize) -> (due: Vec<DeathNotification>)
        requires
            old(self).wf(),
            addr < old(self)@.arena.len(),
            old(self)@.arena[addr as int].strong_refs == 1 ==> old(self)@.queues.len() > 0,
            old(self)@.arena[addr as int].strong_refs == 1 ==> old(self)@.arena[addr as int].owners
                < usize::MAX,
        ensures
            final(self).wf(),
            due@ == old(self)@.arena[addr as int].due(),
            ({
                let node = old(self)@.arena[addr as int];
                let v = old(self)@.with(addr, node.strong_dropped());
                if node.strong_refs == 1 {
                    exists|shard: int|
                        0 <= shard < v.queues.len() && final(self)@ == #[trigger] v.queued(
                            shard,
                            addr,
                        )
                } else {
                    final(self)@ == v
                }
            }),
    {
        let (last, due) = self.arena[addr].release_strong();
        let ghost node = old(self)@.arena[addr as int];
        assert(self@.arena =~= old(self)@.arena.update(addr as int, self.arena@[addr as int]@));
        assert(self@ == old(self)@.with(addr, node.strong_dropped()));
        if last {
            self.schedule_for_cleanup(addr);
        }
        due
    }

    /// Takes a weak reference to the node at `addr`. The count wraps around.
    pub fn inc_weak(&mut self, addr: usize)
        requires
            old(self).wf(),
            addr < old(self)@.arena.len(),
        ensures
            final(self).wf(),
            final(self)@ == old(self)@.with(
                addr,
                NodeView {
                    weak_refs: one_more(old(self)@.arena[addr as int].weak_refs),
                    ..old(self)@.arena[addr as int]
                },
            ),
    {
        self.arena[addr].inc_weak();
        assert(self@.arena =~= old(self)@.arena.update(addr as int, self.arena@[addr as int]@));
    }

    /// Gives up a weak reference to the node at `addr`. The count wraps around.
    pub fn dec_weak(&mut self, addr: usize)
        requires
            old(self).wf(),
            addr < old(self)@.arena.len(),
        ensures
            final(self).wf(),
            final(self)@ == old(self)@.with(
                addr,
                NodeView {
                    weak_refs: one_less(old(self)@.arena[addr as int].weak_refs),
                    ..old(self)@.arena[addr as int]
                },
            ),
    {
        self.arena[addr].dec_weak();
        assert(self@.arena =~= old(self)@.arena.update(addr as int, self.arena@[addr as int]@));
    }

    /// Registers a notification on the node at `addr` and hands out its link.
    pub fn add_death_recipient(&mut self, addr: usize, notif: DeathNotification) -> (link: usize)
        requires
            old(self).wf(),
            addr < old(self)@.arena.len(),
        ensures
            final(self).wf(),
            link == old(self)@.arena[addr as int].deaths.items.len(),
            final(self)@ == old(self)@.with(addr, old(self)@.arena[addr as int].registered(notif)),
    {
        let link: usize = self.arena[addr].add_death_recipient(notif);
        assert(self@.arena =~= old(self)@.arena.update(addr as int, self.arena@[addr as int]@));
        link
    }

    /// Withdraws a notification from the node at `addr`. Where it has been withdrawn before, the node
    /// forgets the others.
    pub fn remove_death_recipient(&mut self, addr: usize, link: usize)
        requires
            old(self).wf(),
            addr < old(self)@.arena.len(),
            old(self)@.arena[addr as int].issued(link),
        ensures
            final(self).wf(),
            final(self)@ == old(self)@.with(addr, old(self)@.arena[addr as int].withdrawn(link)),
    {
        self.arena[addr].remove_death_recipient(link);
        assert(self@.arena =~= old(self)@.arena.update(addr as int, self.arena@[addr as int]@));
    }

    /// Gives up ownership of the node at `addr`.
    pub fn drop_node(&mut self, addr: usize)
        requires
            old(self).wf(),
            addr < old(self)@.arena.len(),
            old(self)@.arena[addr as int].owners > 0,
        ensures
            final(self).wf(),
            final(self)@ == old(self)@.with(
                addr,
                NodeView {
                    owners: (old(self)@.arena[addr as int].owners - 1) as usize,
                    ..old(self)@.arena[addr as int]
                },
            ),
    {
        self.arena[addr].owners = self.arena[addr].owners - 1;
        assert(self@.arena =~= old(self)@.arena.update(addr as int, self.arena@[addr as int]@));
    }

    /// Schedules the node at `addr` for clean-up on the queue that its number hashes to. The queue
    /// becomes one of its owners.
    pub fn schedule_for_cleanup(&mut self, addr: usize)
        requires
            old(self).wf(),
            addr < old(self)@.arena.len(),
            old(self)@.queues.len() > 0,
            old(self)@.arena[addr as int].owners < usize::MAX,
        ensures
            final(self).wf(),
            exists|shard: int|
                0 <= shard < old(self)@.queues.len() && final(self)@ == #[trigger] old(
                    self,
                )@.queued(shard, addr),
    {
        let mut hasher: DefaultHasher = DefaultHasher::new();
        feed(&mut hasher, self.arena[addr].id);
        let hash: u64 = hasher.finish();
        self.schedule_by_hash(addr, hash);
    }

    /// Schedules the node at `addr` for clean-up on the queue that a hash leads to. The queue becomes
    /// one of its owners.
    pub fn schedule_by_hash(&mut self, addr: usize, hash: u64)
        requires
            old(self).wf(),
            addr < old(self)@.arena.len(),
            old(self)@.queues.len() > 0,
            old(self)@.arena[addr as int].owners < usize::MAX,
        ensures
            final(self).wf(),
            0 <= shard_of(hash, old(self)@.queues.len()) < old(self)@.queues.len(),
            final(self)@ == old(self)@.queued(shard_of(hash, old(self)@.queues.len()), addr),
    {
        let shard: usize = (hash as usize) % self.cleanup_queues.len();
        let ghost before = self.cleanup_queues@;
        self.arena[addr].owners = self.arena[addr].owners + 1;
        self.cleanup_queues[shard].push_back(addr);
        proof {
            let v = old(self)@;
            assert(self@.arena =~= v.arena.update(addr as int, self.arena@[addr as int]@));
            assert(v.queues.len() == before.len());
            assert(self@.queues =~= v.queues.update(
                shard as int,
                v.queues[shard as int].push(addr),
            ));
            assert forall|s: int| 0 <= s < self.cleanup_queues@.len() implies within(
                (#[trigger] self.cleanup_queues@[s])@,
                self.arena@.len(),
            ) by {
                assert(within(before[s]@, old(self).arena@.len()));
            }
        }
    }

    /// Works off all queues, one after the other and each in order: every node on them loses a weak
    /// reference and the queue as an owner, and its number is no longer registered.
    pub fn process_cleanup(&mut self)
        requires
            old(self).wf(),
        ensures
            final(self).wf(),
            final(self)@ == (ManagerView {
                queues: Seq::new(old(self)@.queues.len(), |s: int| Seq::empty()),
                ..old(self)@.processed(waiting(old(self)@.queues))
            }),
    {
        let ghost v = old(self)@;
        let shards: usize = self.cleanup_queues.len();
        proof {
            assert(v.queues.take(0) =~= Seq::empty());
        }
        for i in 0..shards
            invariant
                shards == v.queues.len(),
                v == old(self)@,
                old(self).wf(),
                self.wf(),
                self@.arena.len() == v.arena.len(),
                self@.arena == v.processed(waiting(v.queues.take(i as int))).arena,
                self@.live == v.processed(waiting(v.queues.take(i as int))).live,
                self@.next_id == v.next_id,
                self@.queues.len() == shards,
                forall|s: int|
                    0 <= s < shards ==> (#[trigger] self@.queues[s]) == if s < i {
                        Seq::empty()
                    } else {
                        v.queues[s]
                    },
        {
            let mut batch: VecDeque<usize> = VecDeque::new();
            let ghost q = self@.queues;
            let ghost before = self.cleanup_queues@;
            std::mem::swap(&mut self.cleanup_queues[i], &mut batch);
            let ghost done = waiting(v.queues.take(i as int));
            proof {
                assert(q[i as int] == v.queues[i as int]);
                assert(batch@ == v.queues[i as int]);
                assert(within(before[i as int]@, self.arena@.len()));
                assert(self@.queues =~= q.update(i as int, Seq::empty()));
                assert forall|s: int| 0 <= s < self.cleanup_queues@.len() implies within(
                    (#[trigger] self.cleanup_queues@[s])@,
                    self.arena@.len(),
                ) by {
                    assert(within(before[s]@, self.arena@.len()));
                }
                assert(done + batch@.take(0) =~= done);
            }
            let ghost held = self@.queues;
            for j in 0..batch.len()
                invariant
                    within(batch@, v.arena.len()),
                    self.wf(),
                    self@.arena.len() == v.arena.len(),
                    self@.arena == v.processed(done + batch@.take(j as int)).arena,
                    self@.live == v.processed(done + batch@.take(j as int)).live,
                    self@.next_id == v.next_id,
                    self@.queues == held,
            {
                let addr: usize = batch[j];
                let ghost mid = self@;
                assert(addr < v.arena.len());
                self.finish(addr);
                proof {
                    let t = done + batch@.take(j as int + 1);
                    assert(t.drop_last() =~= done + batch@.take(j as int));
                    assert(t.last() == addr);
                }
            }
            proof {
                assert(batch@.take(batch@.len() as int) =~= batch@);
                let t = v.queues.take(i as int + 1);
                assert(t.drop_last() =~= v.queues.take(i as int));
                assert(t.last() == v.queues[i as int]);
            }
        }
        proof {
            assert(v.queues.take(shards as int) =~= v.queues);
            lemma_processed(v, waiting(v.queues));
            assert(self@.queues =~= Seq::new(v.queues.len(), |s: int| Seq::empty()));
        }
    }

    /// Cleans up the node at `addr`.
    fn finish(&mut self, addr: usize)
        requires
            old(self).wf(),
            addr < old(self)@.arena.len(),
        ensures
            final(self).wf(),
            final(self)@ == (ManagerView {
                live: old(self)@.live.remove(old(self)@.arena[addr as int].id),
                ..old(self)@.with(addr, old(self)@.arena[addr as int].finished())
            }),
    {
        self.arena[addr].dec_weak();
        let id: u64 = self.arena[addr].id;
        self.live_nodes.remove(&id);
        if self.arena[addr].owners > 0 {
            self.arena[addr].owners = self.arena[addr].owners - 1;
        }
        assert(self@.arena =~= old(self)@.arena.update(addr as int, self.arena@[addr as int]@));
        assert(self@.queues =~= old(self)@.queues);
    }

    /// The node with a number, if it is registered and alive. The caller becomes one of its owners.
    pub fn get_node(&mut self, id: u64) -> (addr: Option<usize>)
        requires
            old(self).wf(),
            old(self)@.available(id) ==> old(self)@.arena[old(self)@.live[id] as int].owners
                < usize::MAX,
        ensures
            final(self).wf(),
            addr == if old(self)@.available(id) {
                Some(old(self)@.live[id])
            } else {
                None
            },
            final(self)@ == if old(self)@.available(id) {
                let a = old(self)@.live[id];
                old(self)@.with(a, old(self)@.arena[a as int].kept())
            } else {
                old(self)@
            },
            addr is Some <==> old(self)@.live.contains_key(id)
                && old(self)@.arena[old(self)@.live[id] as int].owners > 0,
            addr matches Some(a) ==> a == old(self)@.live[id] && final(self)@.arena[a as int].owners
                == old(self)@.arena[a as int].owners + 1,
    {
        let addr: usize = match self.live_nodes.get(&id) {
            Some(addr) => *addr,
            None => {
                return None;
            },
        };
        if self.arena[addr].owners == 0 {
            return None;
        }
        self.arena[addr].owners = self.arena[addr].owners + 1;
        assert(self@.arena =~= old(self)@.arena.update(addr as int, self.arena@[addr as int]@));
        Some(addr)
    }
}

/// Withdrawing a notification right after it has been registered on a node whose list is in order
/// leaves the notifications that were there before, and the count as it was.
pub proof fn law_withdrawal_undoes_registration(n: NodeView, s: Seq<usize>, d: DeathNotification)
    requires
        n.orderly(),
        n.deaths.holds(s),
    ensures
        n.registered(d).withdrawn(n.deaths.next_address()).deaths.holds(s),
        n.registered(d).withdrawn(n.deaths.next_address()).deaths.listed() == n.deaths.listed(),
        n.registered(d).withdrawn(n.deaths.next_address()).death_count == n.death_count,
{
    law_tailed_erase_undoes_push(n.deaths, s, d);
}

/// Withdrawing a notification that is on a list in order takes it out, so that it is not delivered, and leaves
/// all others in their order.
pub proof fn law_withdrawn_is_not_delivered(n: NodeView, s: Seq<usize>, i: int)
    requires
        n.deaths.holds(s),
        0 <= i < s.len(),
    ensures
        n.withdrawn(s[i]).deaths.holds(s.remove(i)),
        n.withdrawn(s[i]).deaths.listed() == n.deaths.listed().remove(i),
{
    law_tailed_erase(n.deaths, s, i);
}

/// As long as only notifications on the list are withdrawn, the count is their number: registering and
/// withdrawing keep that.
pub proof fn law_count_is_the_number(n: NodeView, s: Seq<usize>, d: DeathNotification, i: int)
    requires
        n.orderly(),
        n.deaths.holds(s),
        n.death_count == s.len(),
    ensures
        n.deaths.listed().len() == n.death_count,
        s.len() < usize::MAX ==> n.registered(d).death_count == n.registered(d).deaths.listed().len(),
        0 <= i < s.len() ==> n.withdrawn(s[i]).death_count == n.withdrawn(s[i]).deaths.listed().len(),
{
    law_tailed_order(n.deaths, s);
    law_tailed_push(n.deaths, s, d);
    if 0 <= i < s.len() {
        law_tailed_erase(n.deaths, s, i);
    }
}

/// Withdrawing a notification that has already been withdrawn makes the node forget all its
/// notifications, and is counted.
pub proof fn law_withdrawing_again_forgets(n: NodeView, link: usize)
    requires
        n.orderly(),
        n.issued(link),
        n.deaths.cells[link as int] == unlinked(),
    ensures
        n.withdrawn(link).deaths == n.deaths.emptied(),
        n.withdrawn(link).deaths.listed() == Seq::<DeathNotification>::empty(),
        n.withdrawn(link).death_count == one_less(n.death_count),
{
    law_tailed_erase_again(n.deaths, link);
}

/// Clean-up touches neither the queues nor the numbers to give out.
proof fn lemma_processed(v: ManagerView, batch: Seq<usize>)
    ensures
        v.processed(batch).queues == v.queues,
        v.processed(batch).next_id == v.next_id,
    decreases batch.len(),
{
    if batch.len() > 0 {
        lemma_processed(v, batch.drop_last());
    }
}

/// A node that waits for clean-up is no longer found by its number once it has been cleaned up, and
/// a node on no queue is left as it was.
pub proof fn law_cleaned_nodes_are_unregistered(v: ManagerView, batch: Seq<usize>)
    requires
        forall|i: int| 0 <= i < batch.len() ==> (#[trigger] batch[i]) < v.arena.len(),
    ensures
        v.processed(batch).arena.len() == v.arena.len(),
        forall|i: int|
            0 <= i < batch.len() ==> !v.processed(batch).live.contains_key(
                v.arena[(#[trigger] batch[i]) as int].id,
            ),
        forall|a: int|
            0 <= a < v.arena.len() ==> (#[trigger] v.processed(batch).arena[a]).id
                == v.arena[a].id,
        forall|a: int|
            0 <= a < v.arena.len() && !batch.contains(a as usize) ==> (
            #[trigger] v.processed(batch).arena[a]) == v.arena[a],
    decreases batch.len(),
{
    if batch.len() > 0 {
        let rest = batch.drop_last();
        let w = v.processed(rest);
        assert forall|i: int| 0 <= i < rest.len() implies (#[trigger] rest[i]) < v.arena.len() by {
            assert(rest[i] == batch[i]);
        }
        law_cleaned_nodes_are_unregistered(v, rest);
        let last = batch[batch.len() - 1];
        assert(w.arena[last as int].id == v.arena[last as int].id);
        assert forall|i: int| 0 <= i < batch.len() implies !v.processed(
            batch,
        ).live.contains_key(v.arena[(#[trigger] batch[i]) as int].id) by {
            if i < rest.len() {
                assert(rest[i] == batch[i]);
            }
        }
        assert forall|a: int|
            0 <= a < v.arena.len() && !batch.contains(a as usize) implies (
        #[trigger] v.processed(batch).arena[a]) == v.arena[a] by {
            assert(batch.contains(last));
            if rest.contains(a as usize) {
                let q = rest.index_of(a as usize);
                assert(batch[q] == a as usize);
            }
            assert(w.arena[a] == v.arena[a]);
        }
    }
}

/// A node that waits on a queue is kept alive by it: its owners before it was queued may all let go of
/// it, and it still has one.
pub proof fn law_queue_keeps_node_alive(v: ManagerView, shard: int, addr: usize)
    requires
        addr < v.arena.len(),
        v.arena[addr as int].owners < usize::MAX,
    ensures
        v.queued(shard, addr).arena[addr as int].owners == v.arena[addr as int].owners + 1,
        v.queued(shard, addr).live == v.live,
{
}

/// A node starts with one strong reference, one owner and no recipient.
pub proof fn law_fresh_node_is_alive(id: u64)
    ensures
        NodeView::fresh(id).id == id,
        NodeView::fresh(id).strong_refs == 1,
        NodeView::fresh(id).weak_refs == 0,
        NodeView::fresh(id).owners == 1,
        NodeView::fresh(id).death_count == 0,
        NodeView::fresh(id).deaths.items.len() == 0,
        NodeView::fresh(id).deaths.listed().len() == 0,
        NodeView::fresh(id).orderly(),
{
    law_tailed_order(TailedView::<DeathNotification>::fresh(), Seq::empty());
}

/// Registering a recipient, and withdrawing one, changes the list and the count of recipients by one
/// and nothing else of the node. On a list in order the recipient comes to be listed behind the others,
/// and the one at a position is taken out.
pub proof fn law_registration_touches_only_the_list(
    node: NodeView,
    d: DeathNotification,
    order: Seq<usize>,
    i: int,
)
    requires
        node.orderly(),
        node.deaths.holds(order),
        0 <= i < order.len(),
    ensures
        node.registered(d).deaths.listed() == node.deaths.listed().push(d),
        node.registered(d).deaths.items == node.deaths.items.push(d),
        node.death_count < usize::MAX ==> node.registered(d).death_count == node.death_count + 1,
        node.death_count == usize::MAX ==> node.registered(d).death_count == 0,
        (NodeView { deaths: node.deaths, death_count: node.death_count, ..node.registered(d) })
            == node,
        node.withdrawn(order[i]).deaths.listed() == node.deaths.listed().remove(i),
        node.withdrawn(order[i]).deaths.items == node.deaths.items,
        node.death_count > 0 ==> node.withdrawn(order[i]).death_count == node.death_count - 1,
        node.death_count == 0 ==> node.withdrawn(order[i]).death_count == usize::MAX,
        (NodeView {
            deaths: node.deaths,
            death_count: node.death_count,
            ..node.withdrawn(order[i])
        }) == node,
        node.issued(order[i]),
        forall|link: usize| #[trigger]
            node.registered(d).issued(link) <==> node.issued(link) || link
                == node.deaths.items.len(),
{
    law_tailed_push(node.deaths, order, d);
    law_tailed_erase(node.deaths, order, i);
}

/// A strong reference given up takes one off the count. Exactly with the last one all recipients are
/// due, in the order of the list, and the list is emptied. Nothing else of the node changes.
pub proof fn law_last_reference_notifies(n: NodeView)
    ensures
        n.strong_refs > 0 ==> n.strong_dropped().strong_refs == n.strong_refs - 1,
        n.strong_refs == 0 ==> n.strong_dropped().strong_refs == usize::MAX,
        n.strong_dropped().id == n.id,
        n.strong_dropped().weak_refs == n.weak_refs,
        n.strong_dropped().owners == n.owners,
        n.strong_dropped().deaths.items == n.deaths.items,
        n.strong_refs == 1 ==> n.due() == n.deaths.listed(),
        n.strong_refs == 1 ==> n.strong_dropped().deaths.listed().len() == 0
            && n.strong_dropped().death_count == 0,
        n.strong_refs == 1 ==> n.strong_dropped().deaths.cells == n.deaths.cells
            && n.strong_dropped().deaths.head is None && n.strong_dropped().deaths.tail is None,
        n.strong_refs != 1 ==> n.due().len() == 0 && n.strong_dropped().deaths == n.deaths
            && n.strong_dropped().death_count == n.death_count,
{
    law_tailed_order(n.deaths.emptied(), Seq::empty());
}

/// An owner more, and an owner less with a weak reference less; nothing else of the node changes.
pub proof fn law_owners_are_counted(n: NodeView)
    ensures
        n.owners < usize::MAX ==> n.kept().owners == n.owners + 1,
        (NodeView { owners: n.owners, ..n.kept() }) == n,
        n.owners > 0 ==> n.finished().owners == n.owners - 1,
        n.owners == 0 ==> n.finished().owners == 0,
        n.weak_refs > 0 ==> n.finished().weak_refs == n.weak_refs - 1,
        n.weak_refs == 0 ==> n.finished().weak_refs == usize::MAX,
        (NodeView { owners: n.owners, weak_refs: n.weak_refs, ..n.finished() }) == n,
        n.owners < usize::MAX ==> n.kept().finished().owners == n.owners,
{
}

/// Replacing a node touches no other node, no number and no queue.
pub proof fn law_one_node_is_replaced(v: ManagerView, addr: usize, node: NodeView)
    requires
        addr < v.arena.len(),
    ensures
        v.with(addr, node).arena.len() == v.arena.len(),
        v.with(addr, node).arena[addr as int] == node,
        forall|b: int|
            0 <= b < v.arena.len() && b != addr ==> #[trigger] v.with(addr, node).arena[b]
                == v.arena[b],
        v.with(addr, node).live == v.live,
        v.with(addr, node).queues == v.queues,
        v.with(addr, node).next_id == v.next_id,
{
}

/// A number whose node has an owner leads to it, however many owners there are; one that is not
/// registered, or whose node has none, does not. A node that has been found can be found again.
pub proof fn law_owned_node_is_found(v: ManagerView, id: u64)
    requires
        consistent(v),
    ensures
        v.live.contains_key(id) && v.arena[v.live[id] as int].owners > 0 ==> v.available(id),
        !v.live.contains_key(id) ==> !v.available(id),
        v.live.contains_key(id) && v.arena[v.live[id] as int].owners == 0 ==> !v.available(id),
        v.available(id) && v.arena[v.live[id] as int].owners < usize::MAX ==> v.with(
            v.live[id],
            v.arena[v.live[id] as int].kept(),
        ).available(id),
{
}

/// A node that is queued comes to stand behind the others of one queue, and gains an owner. The other
/// queues, nodes and numbers stay.
pub proof fn law_queued_node_waits_last(v: ManagerView, shard: int, addr: usize)
    requires
        addr < v.arena.len(),
        v.arena[addr as int].owners < usize::MAX,
        0 <= shard < v.queues.len(),
    ensures
        v.queued(shard, addr).queues.len() == v.queues.len(),
        v.queued(shard, addr).queues[shard].len() == v.queues[shard].len() + 1,
        v.queued(shard, addr).queues[shard].last() == addr,
        v.queued(shard, addr).queues[shard].drop_last() == v.queues[shard],
        forall|q: int|
            0 <= q < v.queues.len() && q != shard ==> #[trigger] v.queued(shard, addr).queues[q]
                == v.queues[q],
        v.queued(shard, addr).arena.len() == v.arena.len(),
        (NodeView {
            owners: v.arena[addr as int].owners,
            ..v.queued(shard, addr).arena[addr as int]
        }) == v.arena[addr as int],
        v.queued(shard, addr).arena[addr as int].owners == v.arena[addr as int].owners + 1,
        forall|b: int|
            0 <= b < v.arena.len() && b != addr ==> #[trigger] v.queued(shard, addr).arena[b]
                == v.arena[b],
        v.queued(shard, addr).live == v.live,
        v.queued(shard, addr).next_id == v.next_id,
{
    assert(v.queued(shard, addr).queues[shard].drop_last() =~= v.queues[shard]);
}

/// Hashes go to the queues in turn: the hash zero to the first, and the hash after one to the queue
/// after its queue, with the first after the last.
pub proof fn law_hashes_take_turns(hash: u64, shards: nat)
    requires
        0 < shards,
        hash < usize::MAX,
        hash < u64::MAX,
    ensures
        shard_of(0, shards) == 0,
        0 <= shard_of(hash, shards) < shards,
        shard_of(hash, shards) + 1 < shards ==> shard_of((hash + 1) as u64, shards) == shard_of(
            hash,
            shards,
        ) + 1,
        shard_of(hash, shards) + 1 == shards ==> shard_of((hash + 1) as u64, shards) == 0,
{
    let h = hash as int;
    let n = shards as int;
    let q = h / n;
    let r = h % n;
    assert(h == q * n + r && 0 <= r < n) by (nonlinear_arith)
        requires
            n > 0,
            q == h / n,
            r == h % n,
    ;
    if r + 1 < n {
        assert((h + 1) % n == r + 1) by (nonlinear_arith)
            requires
                h == q * n + r,
                0 <= r,
                r + 1 < n,
        ;
    } else {
        assert((h + 1) % n == 0) by (nonlinear_arith)
            requires
                h == q * n + r,
                r + 1 == n,
                n > 0,
        ;
    }
    assert(0int % n == 0) by (nonlinear_arith)
        requires
            n > 0,
    ;
}

/// All queues are emptied one after the other: every entry of every queue is dealt with once, those of
/// a queue in order and after those of the queues before it.
pub proof fn law_all_queues_are_emptied(queues: Seq<Seq<usize>>)
    ensures
        waiting(queues) == queues.flatten(),
    decreases queues.len(),
{
    if queues.len() > 0 {
        law_all_queues_are_emptied(queues.drop_last());
        queues.lemma_flatten_and_flatten_alt_are_equivalent();
        queues.drop_last().lemma_flatten_and_flatten_alt_are_equivalent();
    }
}

/// Dealing with two batches one after the other is dealing with both as one.
pub proof fn law_batches_follow_each_other(v: ManagerView, s: Seq<usize>, t: Seq<usize>)
    ensures
        v.processed(s + t) == v.processed(s).processed(t),
    decreases t.len(),
{
    if t.len() == 0 {
        assert(s + t =~= s);
    } else {
        law_batches_follow_each_other(v, s, t.drop_last());
        assert((s + t).drop_last() =~= s + t.drop_last());
    }
}

/// A batch takes the number of each of its nodes off the register, and no other; it takes an owner and
/// a weak reference off each of its nodes, if they are distinct. Everything else stays as it was.
pub proof fn law_cleanup_reaches_every_node(v: ManagerView, batch: Seq<usize>)
    requires
        forall|i: int| 0 <= i < batch.len() ==> (#[trigger] batch[i]) < v.arena.len(),
    ensures
        v.processed(batch).queues == v.queues,
        v.processed(batch).next_id == v.next_id,
        v.processed(batch).arena.len() == v.arena.len(),
        forall|id: u64| #[trigger]
            v.processed(batch).live.contains_key(id) <==> v.live.contains_key(id) && forall|i: int|
                0 <= i < batch.len() ==> v.arena[(#[trigger] batch[i]) as int].id != id,
        forall|id: u64|
            v.processed(batch).live.contains_key(id) ==> #[trigger] v.processed(batch).live[id]
                == v.live[id],
        forall|a: usize|
            a < v.arena.len() ==> (NodeView {
                owners: v.arena[a as int].owners,
                weak_refs: v.arena[a as int].weak_refs,
                ..#[trigger] v.processed(batch).arena[a as int]
            }) == v.arena[a as int],
        forall|a: usize|
            a < v.arena.len() && !batch.contains(a) ==> #[trigger] v.processed(
                batch,
            ).arena[a as int] == v.arena[a as int],
        batch.no_duplicates() ==> forall|a: usize|
            a < v.arena.len() && batch.contains(a) ==> {
                let before = v.arena[a as int];
                let after = #[trigger] v.processed(batch).arena[a as int];
                &&& before.owners > 0 ==> after.owners == before.owners - 1
                &&& before.owners == 0 ==> after.owners == 0
                &&& before.weak_refs > 0 ==> after.weak_refs == before.weak_refs - 1
                &&& before.weak_refs == 0 ==> after.weak_refs == usize::MAX
            },
    decreases batch.len(),
{
    if batch.len() > 0 {
        let less = batch.drop_last();
        let last = batch.last();
        law_cleanup_reaches_every_node(v, less);
        let w = v.processed(less);
        assert forall|a: usize| batch.contains(a) implies a == last || less.contains(a) by {
            let i = choose|i: int| 0 <= i < batch.len() && batch[i] == a;
            if i < less.len() {
                assert(less[i] == a);
            }
        }
        assert forall|a: usize| less.contains(a) implies batch.contains(a) by {
            let i = choose|i: int| 0 <= i < less.len() && less[i] == a;
            assert(batch[i] == a);
        }
        assert(batch[batch.len() - 1] == last);
        assert(w.arena[last as int].id == v.arena[last as int].id) by {
            assert((NodeView {
                owners: v.arena[last as int].owners,
                weak_refs: v.arena[last as int].weak_refs,
                ..w.arena[last as int]
            }) == v.arena[last as int]);
        }
        assert forall|id: u64| #[trigger]
            v.processed(batch).live.contains_key(id) <==> v.live.contains_key(id) && forall|i: int|
                0 <= i < batch.len() ==> v.arena[(#[trigger] batch[i]) as int].id != id by {
            if v.live.contains_key(id) && forall|i: int|
                0 <= i < batch.len() ==> v.arena[(#[trigger] batch[i]) as int].id != id {
                assert forall|i: int| 0 <= i < less.len() implies v.arena[(
                #[trigger] less[i]) as int].id != id by {
                    assert(less[i] == batch[i]);
                }
            }
            if v.processed(batch).live.contains_key(id) {
                assert forall|i: int| 0 <= i < batch.len() implies v.arena[(
                #[trigger] batch[i]) as int].id != id by {
                    if i < less.len() {
                        assert(less[i] == batch[i]);
                    }
                }
            }
        }
        assert forall|id: u64| v.processed(batch).live.contains_key(id) implies (
        #[trigger] v.processed(batch).live[id]) == v.live[id] by {
            assert(w.live[id] == v.live[id]);
        }
        assert forall|a: usize| a < v.arena.len() implies (NodeView {
            owners: v.arena[a as int].owners,
            weak_refs: v.arena[a as int].weak_refs,
            ..#[trigger] v.processed(batch).arena[a as int]
        }) == v.arena[a as int] by {
            assert((NodeView {
                owners: v.arena[a as int].owners,
                weak_refs: v.arena[a as int].weak_refs,
                ..w.arena[a as int]
            }) == v.arena[a as int]);
        }
        if batch.no_duplicates() {
            assert(less.no_duplicates());
            assert(!less.contains(last));
        }
    }
}

} // verus!
