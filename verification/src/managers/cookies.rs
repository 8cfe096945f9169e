//! A manager whose nodes report themselves for clean-up when the last reference to them goes.
//!
//! Nodes are shared: a handle to a node is its address in the manager's memory, and stays good after
//! the node has been dropped from the register.
use std::collections::HashMap;

use vstd::prelude::*;

use crate::nodes::single::DeathList;

verus! {

broadcast use vstd::std_specs::hash::group_hash_axioms;

/// A notification, known by its cookie.
#[derive(Clone, Copy, Debug, PartialEq, Eq, Structural)]
pub struct DeathNotification {
    pub cookie: u64,
}

impl DeathNotification {
    pub fn new(cookie: u64) -> (notification: DeathNotification)
        ensures
            notification == (DeathNotification { cookie }),
    {
        DeathNotification { cookie }
    }
}

/// What there is to know of a node.
pub struct NodeView {
    pub id: u64,
    pub refs: usize,
    pub dead: bool,
    /// The notifications, most recently registered first.
    pub deaths: Seq<DeathNotification>,
}

/// A node.
pub struct BinderNode {
    id: u64,
    refs: usize,
    dead: bool,
    death_list: DeathList<DeathNotification>,
}

impl View for BinderNode {
    type V = NodeView;

    closed spec fn view(&self) -> NodeView {
        NodeView { id: self.id, refs: self.refs, dead: self.dead, deaths: self.death_list@ }
    }
}

impl NodeView {
    /// A new node.
    pub open spec fn fresh(id: u64) -> NodeView {
        NodeView { id, refs: 1, dead: false, deaths: Seq::empty() }
    }

    /// After a reference has been taken.
    pub open spec fn referenced(self) -> NodeView {
        if self.dead {
            self
        } else {
            NodeView {
                refs: if self.refs == usize::MAX {
                    0
                } else {
                    (self.refs + 1) as usize
                },
                ..self
            }
        }
    }

    /// After a reference has been given up.
    pub open spec fn dereferenced(self) -> NodeView {
        NodeView {
            refs: if self.refs == 0 {
                usize::MAX
            } else {
                (self.refs - 1) as usize
            },
            dead: self.dead || self.refs == 1,
            ..self
        }
    }

    /// After a notification has been registered.
    pub open spec fn watched(self, death: DeathNotification) -> NodeView {
        if self.dead {
            self
        } else {
            NodeView { deaths: self.deaths.insert(0, death), ..self }
        }
    }

    /// After the notifications have been given.
    pub open spec fn notified(self) -> NodeView {
        NodeView { deaths: Seq::empty(), ..self }
    }
}

impl BinderNode {
    pub closed spec fn wf(self) -> bool {
        self.death_list.wf()
    }

    /// Creates a live node with one reference to it.
    pub fn new(id: u64) -> (node: BinderNode)
        ensures
            node.wf(),
            node@ == NodeView::fresh(id),
    {
        BinderNode { id, refs: 1, dead: false, death_list: DeathList::new() }
    }

    /// The number of the node.
    pub fn id(&self) -> (id: u64)
        ensures
            id == self@.id,
    {
        self.id
    }

    /// Takes a reference, unless the node is dead. The count wraps around.
    pub fn inc_ref(&mut self) -> (taken: bool)
        requires
            old(self).wf(),
        ensures
            final(self).wf(),
            taken == !old(self)@.dead,
            final(self)@ == old(self)@.referenced(),
    {
        if self.dead {
            false
        } else {
            self.refs = self.refs.wrapping_add(1);
            true
        }
    }

    /// Gives up a reference. The count wraps around. Says whether it was the last one, with which
    /// the node dies and is to be queued for clean-up.
    pub fn dec_ref(&mut self) -> (last: bool)
        requires
            old(self).wf(),
        ensures
            final(self).wf(),
            last == (old(self)@.refs == 1),
            final(self)@ == old(self)@.dereferenced(),
    {
        let last: bool = self.refs == 1;
        self.refs = self.refs.wrapping_sub(1);
        if last {
            self.dead = true;
        }
        last
    }

    /// Registers a notification in front of the others, unless the node is dead.
    pub fn register_death(&mut self, recip: DeathNotification) -> (registered: bool)
        requires
            old(self).wf(),
        ensures
            final(self).wf(),
            registered == !old(self)@.dead,
            final(self)@ == old(self)@.watched(recip),
    {
        if self.dead {
            return false;
        }
        self.death_list.register(recip);
        true
    }

    /// Takes all notifications off and hands them out in order.
    pub fn notify_deaths(&mut self) -> (due: Vec<DeathNotification>)
        requires
            old(self).wf(),
        ensures
            final(self).wf(),
            due@ == old(self)@.deaths,
            final(self)@ == old(self)@.notified(),
    {
        let taken: DeathList<DeathNotification> = self.death_list.take_for_cleanup();
        taken.into_callbacks()
    }
}

/// What a manager holds.
pub struct ManagerView {
    /// All nodes that have been created, by address.
    pub arena: Seq<NodeView>,
    /// Where the node with a number is.
    pub nodes: Map<u64, usize>,
    /// The numbers of the nodes that wait for clean-up, oldest first.
    pub cleanup: Seq<u64>,
}

impl ManagerView {
    /// After a node has been created.
    pub open spec fn created(self, id: u64) -> ManagerView {
        ManagerView {
            arena: self.arena.push(NodeView::fresh(id)),
            nodes: self.nodes.insert(id, self.arena.len() as usize),
            cleanup: self.cleanup,
        }
    }

    /// After a reference to the node at `addr` has been given up.
    pub open spec fn dereferenced(self, addr: usize) -> ManagerView {
        let node = self.arena[addr as int];
        ManagerView {
            arena: self.arena.update(addr as int, node.dereferenced()),
            cleanup: if node.refs == 1 {
                self.cleanup.push(node.id)
            } else {
                self.cleanup
            },
            ..self
        }
    }

    /// A number that leads to a dead node.
    pub open spec fn defunct(self, id: u64) -> bool {
        self.nodes.contains_key(id) && self.arena[self.nodes[id] as int].dead
    }

    /// After the numbers `ids` have been cleaned up, in order. A number that leads to a live node is
    /// passed over.
    pub open spec fn cleaned(self, ids: Seq<u64>) -> ManagerView
        decreases ids.len(),
    {
        if ids.len() == 0 {
            self
        } else {
            let v = self.cleaned(ids.drop_last());
            let id = ids.last();
            if v.defunct(id) {
                let a = v.nodes[id];
                ManagerView {
                    arena: v.arena.update(a as int, v.arena[a as int].notified()),
                    nodes: v.nodes.remove(id),
                    cleanup: v.cleanup,
                }
            } else {
                v
            }
        }
    }

    /// What cleaning up the numbers `ids` makes due: the dead nodes and their notifications.
    pub open spec fn due(self, ids: Seq<u64>) -> Seq<(u64, Seq<DeathNotification>)>
        decreases ids.len(),
    {
        if ids.len() == 0 {
            Seq::empty()
        } else {
            let v = self.cleaned(ids.drop_last());
            let id = ids.last();
            if v.defunct(id) {
                self.due(ids.drop_last()).push((id, v.arena[v.nodes[id] as int].deaths))
            } else {
                self.due(ids.drop_last())
            }
        }
    }
}

/// What holds of every manager: every number leads to a node, and that node has the number.
pub open spec fn consistent(v: ManagerView) -> bool {
    forall|id: u64| #[trigger]
        v.nodes.contains_key(id) ==> v.nodes[id] < v.arena.len() && v.arena[v.nodes[id] as int].id
            == id
}

/// The notifications that the clean-up of a node makes due.
pub struct Notified {
    pub id: u64,
    pub deaths: Vec<DeathNotification>,
}

impl View for Notified {
    type V = (u64, Seq<DeathNotification>);

    open spec fn view(&self) -> (u64, Seq<DeathNotification>) {
        (self.id, self.deaths@)
    }
}

/// A manager of nodes.
pub struct BinderNodeManager {
    arena: Vec<BinderNode>,
    nodes: HashMap<u64, usize>,
    cleanup_list: Vec<u64>,
}

spec fn views(arena: Seq<BinderNode>) -> Seq<NodeView> {
    arena.map_values(|n: BinderNode| n@)
}

impl View for BinderNodeManager {
    type V = ManagerView;

    closed spec fn view(&self) -> ManagerView {
        ManagerView {
            arena: views(self.arena@),
            nodes: self.nodes@,
            cleanup: self.cleanup_list@,
        }
    }
}

impl BinderNodeManager {
    /// Every number leads to a node, and that node has the number.
    pub closed spec fn wf(self) -> bool {
        &&& forall|a: int| 0 <= a < self.arena@.len() ==> (#[trigger] self.arena@[a]).wf()
        &&& forall|id: u64| #[trigger]
            self.nodes@.contains_key(id) ==> self.nodes@[id] < self.arena@.len()
                && self.arena@[self.nodes@[id] as int]@.id == id
    }

    /// The invariant on what the manager holds.
    pub proof fn lemma_consistent(self)
        requires
            self.wf(),
        ensures
            consistent(self@),
    {
    }

    /// Creates a manager without nodes.
    pub fn new() -> (manager: BinderNodeManager)
        ensures
            manager.wf(),
            manager@ == (ManagerView {
                arena: Seq::empty(),
                nodes: Map::empty(),
                cleanup: Seq::empty(),
            }),
    {
        let manager = BinderNodeManager {
            arena: Vec::new(),
            nodes: HashMap::new(),
            cleanup_list: Vec::new(),
        };
        assert(manager@.arena =~= Seq::empty());
        manager
    }

    /// Creates a node, registers it under its number in place of any earlier one, and hands out a
    /// handle to it.
    pub fn create_node(&mut self, id: u64) -> (addr: usize)
        requires
            old(self).wf(),
        ensures
            final(self).wf(),
            addr == old(self)@.arena.len(),
            final(self)@ == old(self)@.created(id),
    {
        let addr: usize = self.arena.len();
        self.arena.push(BinderNode::new(id));
        self.nodes.insert(id, addr);
        assert(self@.arena =~= old(self)@.created(id).arena);
        addr
    }

    /// A handle to the node with a number, if there is one and it is alive.
    pub fn get_node(&self, id: u64) -> (addr: Option<usize>)
        requires
            self.wf(),
        ensures
            addr == if self@.nodes.contains_key(id) && !self@.arena[self@.nodes[id] as int].dead {
                Some(self@.nodes[id])
            } else {
                None
            },
    {
        match self.nodes.get(&id) {
            Some(addr) => {
                if self.arena[*addr].dead {
                    None
                } else {
                    Some(*addr)
                }
            },
            None => None,
        }
    }

    /// The node that a handle leads to.
    pub fn node(&self, addr: usize) -> (node: &BinderNode)
        requires
            self.wf(),
            addr < self@.arena.len(),
        ensures
            node.wf(),
            node@ == self@.arena[addr as int],
    {
        &self.arena[addr]
    }

    /// Takes a reference to the node at `addr`, unless it is dead.
    pub fn inc_ref(&mut self, addr: usize) -> (taken: bool)
        requires
            old(self).wf(),
            addr < old(self)@.arena.len(),
        ensures
            final(self).wf(),
            taken == !old(self)@.arena[addr as int].dead,
            final(self)@ == (ManagerView {
                arena: old(self)@.arena.update(
                    addr as int,
                    old(self)@.arena[addr as int].referenced(),
                ),
                ..old(self)@
            }),
    {
        let taken: bool = self.arena[addr].inc_ref();
        assert(self@.arena =~= old(self)@.arena.update(
            addr as int,
            old(self)@.arena[addr as int].referenced(),
        ));
        taken
    }

    /// Gives up a reference to the node at `addr`. With the last one the node dies and its number is
    /// queued for clean-up.
    pub fn dec_ref(&mut self, addr: usize)
        requires
            old(self).wf(),
            addr < old(self)@.arena.len(),
        ensures
            final(self).wf(),
            final(self)@ == old(self)@.dereferenced(addr),
    {
        let last: bool = self.arena[addr].dec_ref();
        assert(self@.arena =~= old(self)@.dereferenced(addr).arena);
        if last {
            let id: u64 = self.arena[addr].id;
            self.cleanup_list.push(id);
        }
    }

    /// Registers a notification on the node at `addr`, unless it is dead.
    pub fn register_death(&mut self, addr: usize, recip: DeathNotification) -> (registered: bool)
        requires
            old(self).wf(),
            addr < old(self)@.arena.len(),
        ensures
            final(self).wf(),
            registered == !old(self)@.arena[addr as int].dead,
            final(self)@ == (ManagerView {
                arena: old(self)@.arena.update(
                    addr as int,
                    old(self)@.arena[addr as int].watched(recip),
                ),
                ..old(self)@
            }),
    {
        let registered: bool = self.arena[addr].register_death(recip);
        assert(self@.arena =~= old(self)@.arena.update(
            addr as int,
            old(self)@.arena[addr as int].watched(recip),
        ));
        registered
    }

    /// Works off the clean-up list: dead nodes are dropped from the register, and their notifications
    /// are handed out in order. A live node that has taken the number of a dead one stays.
    pub fn process_cleanup(&mut self) -> (due: Vec<Notified>)
        requires
            old(self).wf(),
        ensures
            final(self).wf(),
            final(self)@ == (ManagerView { cleanup: Seq::empty(), ..old(self)@ }).cleaned(
                old(self)@.cleanup,
            ),
            due@.map_values(|n: Notified| n@) == old(self)@.due(old(self)@.cleanup),
    {
        let mut ids: Vec<u64> = Vec::new();
        std::mem::swap(&mut self.cleanup_list, &mut ids);
        let ghost all = ids@;
        let ghost v = self@;
        let mut due: Vec<Notified> = Vec::new();
        proof {
            assert(v.cleanup =~= Seq::empty());
            assert(v == (ManagerView { cleanup: Seq::empty(), ..old(self)@ }));
            assert(due@.map_values(|n: Notified| n@) =~= v.due(all.take(0)));
        }
        for i in 0..ids.len()
            invariant
                self.wf(),
                ids@ == all,
                self@ == v.cleaned(all.take(i as int)),
                due@.map_values(|n: Notified| n@) == v.due(all.take(i as int)),
        {
            let id: u64 = ids[i];
            let ghost before = self@;
            let ghost earlier = due@;
            proof {
                assert(all.take(i as int + 1).drop_last() =~= all.take(i as int));
                assert(all.take(i as int + 1).last() == id);
            }
            let found: Option<usize> = match self.nodes.get(&id) {
                Some(addr) => {
                    if self.arena[*addr].dead {
                        Some(*addr)
                    } else {
                        None
                    }
                },
                None => None,
            };
            if let Some(addr) = found {
                self.nodes.remove(&id);
                let deaths: Vec<DeathNotification> = self.arena[addr].notify_deaths();
                due.push(Notified { id, deaths });
                proof {
                    assert(self@.arena =~= before.arena.update(
                        addr as int,
                        before.arena[addr as int].notified(),
                    ));
                    assert(due@.map_values(|n: Notified| n@) =~= earlier.map_values(
                        |n: Notified| n@,
                    ).push((id, before.arena[addr as int].deaths)));
                }
            }
        }
        proof {
            assert(all.take(all.len() as int) =~= all);
            lemma_due_ignores_queue(v, old(self)@, all);
        }
        due
    }
}

/// What is due does not depend on what else waits for clean-up.
proof fn lemma_due_ignores_queue(v: ManagerView, w: ManagerView, ids: Seq<u64>)
    requires
        v.arena == w.arena,
        v.nodes == w.nodes,
    ensures
        v.due(ids) == w.due(ids),
        v.cleaned(ids).arena == w.cleaned(ids).arena,
        v.cleaned(ids).nodes == w.cleaned(ids).nodes,
    decreases ids.len(),
{
    if ids.len() > 0 {
        lemma_due_ignores_queue(v, w, ids.drop_last());
    }
}

/// After a clean-up a number is either not registered or held by a live node, and cleaning it up a
/// second time changes nothing and makes nothing due.
pub proof fn law_cleanup_is_idempotent(v: ManagerView, id: u64)
    ensures
        !v.cleaned(seq![id]).defunct(id),
        v.cleaned(seq![id, id]) == v.cleaned(seq![id]),
        v.due(seq![id, id]) == v.due(seq![id]),
{
    assert(seq![id].drop_last() =~= Seq::<u64>::empty());
    assert(seq![id, id].drop_last() =~= seq![id]);
    reveal_with_fuel(ManagerView::cleaned, 3);
    reveal_with_fuel(ManagerView::due, 3);
}

/// A live node survives every clean-up: it is left as it was, none of its notifications is made due,
/// and a number that leads to it still does.
pub proof fn law_live_nodes_survive_cleanup(v: ManagerView, ids: Seq<u64>, addr: usize)
    requires
        addr < v.arena.len(),
        !v.arena[addr as int].dead,
        consistent(v),
    ensures
        v.cleaned(ids).arena.len() == v.arena.len(),
        v.cleaned(ids).arena[addr as int] == v.arena[addr as int],
        forall|id: u64|
            #![trigger v.cleaned(ids).nodes.contains_key(id)]
            v.cleaned(ids).nodes.contains_key(id) ==> v.nodes.contains_key(id) && v.cleaned(
                ids,
            ).nodes[id] == v.nodes[id],
        forall|id: u64| #[trigger]
            v.nodes.contains_key(id) && v.nodes[id] == addr ==> v.cleaned(ids).nodes.contains_key(
                id,
            ) && v.cleaned(ids).nodes[id] == addr,
        forall|i: int|
            0 <= i < v.due(ids).len() ==> v.nodes.contains_key((#[trigger] v.due(ids)[i]).0)
                && v.nodes[v.due(ids)[i].0] != addr,
    decreases ids.len(),
{
    if ids.len() > 0 {
        let r = ids.drop_last();
        law_live_nodes_survive_cleanup(v, r, addr);
        let w = v.cleaned(r);
        let id = ids.last();
        assert forall|i: int| 0 <= i < v.due(ids).len() implies v.nodes.contains_key(
            (#[trigger] v.due(ids)[i]).0,
        ) && v.nodes[v.due(ids)[i].0] != addr by {
            if i < v.due(r).len() {
                assert(v.due(ids)[i] == v.due(r)[i]);
            } else {
                assert(w.nodes.contains_key(id));
            }
        }
    }
}

/// A dead node takes neither references nor notifications.
pub proof fn law_dead_nodes_stay_dead(n: NodeView, death: DeathNotification)
    requires
        n.dead,
    ensures
        n.referenced() == n,
        n.watched(death) == n,
        n.dereferenced().dead,
{
}

/// A node starts alive with one reference and no notification.
pub proof fn law_fresh_node_is_alive(id: u64)
    ensures
        NodeView::fresh(id).id == id,
        NodeView::fresh(id).refs == 1,
        !NodeView::fresh(id).dead,
        NodeView::fresh(id).deaths.len() == 0,
{
}

/// On a live node a reference taken adds one to the count and a notification comes to stand before the
/// others. A reference given up takes one off, on a dead node too; the node dies exactly with the
/// last one. The count wraps around. Nothing else of the node changes.
pub proof fn law_references_are_counted(n: NodeView, death: DeathNotification)
    ensures
        (NodeView { refs: n.refs, ..n.referenced() }) == n,
        !n.dead && n.refs < usize::MAX ==> n.referenced().refs == n.refs + 1,
        !n.dead && n.refs == usize::MAX ==> n.referenced().refs == 0,
        (NodeView { refs: n.refs, dead: n.dead, ..n.dereferenced() }) == n,
        n.refs > 0 ==> n.dereferenced().refs == n.refs - 1,
        n.refs == 0 ==> n.dereferenced().refs == usize::MAX,
        n.dereferenced().dead == (n.dead || n.refs == 1),
        !n.dead && n.refs > 0 ==> n.referenced().dereferenced() == n,
        (NodeView { deaths: n.deaths, ..n.watched(death) }) == n,
        !n.dead ==> n.watched(death).deaths.len() == n.deaths.len() + 1 && n.watched(death).deaths[0]
            == death && n.watched(death).deaths.skip(1) == n.deaths,
        (NodeView { deaths: n.deaths, ..n.notified() }) == n,
        n.notified().deaths.len() == 0,
{
    if !n.dead {
        assert(n.watched(death).deaths.skip(1) =~= n.deaths);
    }
}

/// A node that has been created is found under its number. Other nodes and numbers stay as they were.
pub proof fn law_created_node_is_found(v: ManagerView, id: u64)
    requires
        v.arena.len() < usize::MAX,
    ensures
        v.created(id).nodes.contains_key(id),
        v.created(id).nodes[id] == v.arena.len(),
        v.created(id).arena.len() == v.arena.len() + 1,
        ({
            let node = v.created(id).arena[v.arena.len() as int];
            node.id == id && node.refs == 1 && !node.dead && node.deaths.len() == 0
        }),
        !v.created(id).defunct(id),
        forall|a: int| 0 <= a < v.arena.len() ==> #[trigger] v.created(id).arena[a] == v.arena[a],
        forall|i: u64|
            i != id ==> (#[trigger] v.created(id).nodes.contains_key(i)
                <==> v.nodes.contains_key(i)),
        forall|i: u64|
            i != id && v.nodes.contains_key(i) ==> #[trigger] v.created(id).nodes[i] == v.nodes[i],
        v.created(id).cleanup == v.cleanup,
{
}

/// Giving up a reference touches that node alone, and reports its number for clean-up exactly when it
/// was the last reference.
pub proof fn law_last_reference_reports(v: ManagerView, addr: usize)
    requires
        addr < v.arena.len(),
    ensures
        v.dereferenced(addr).arena.len() == v.arena.len(),
        forall|b: int|
            0 <= b < v.arena.len() && b != addr ==> #[trigger] v.dereferenced(addr).arena[b]
                == v.arena[b],
        ({
            let before = v.arena[addr as int];
            let after = v.dereferenced(addr).arena[addr as int];
            &&& after.id == before.id
            &&& after.deaths == before.deaths
            &&& before.refs > 0 ==> after.refs == before.refs - 1
            &&& before.refs == 0 ==> after.refs == usize::MAX
            &&& after.dead == (before.dead || before.refs == 1)
        }),
        v.dereferenced(addr).nodes == v.nodes,
        v.arena[addr as int].refs == 1 ==> v.dereferenced(addr).cleanup == v.cleanup.push(
            v.arena[addr as int].id,
        ),
        v.arena[addr as int].refs != 1 ==> v.dereferenced(addr).cleanup == v.cleanup,
{
}

/// Cleaning up two batches one after the other is cleaning up both as one: the same nodes result, and
/// what the second makes due follows what the first makes due.
pub proof fn law_batches_follow_each_other(v: ManagerView, s: Seq<u64>, t: Seq<u64>)
    ensures
        v.cleaned(s + t) == v.cleaned(s).cleaned(t),
        v.due(s + t) == v.due(s) + v.cleaned(s).due(t),
    decreases t.len(),
{
    if t.len() == 0 {
        assert(s + t =~= s);
        assert(v.due(s) =~= v.due(s) + v.cleaned(s).due(t));
    } else {
        law_batches_follow_each_other(v, s, t.drop_last());
        assert((s + t).drop_last() =~= s + t.drop_last());
        assert(v.due(s + t) =~= v.due(s) + v.cleaned(s).due(t));
    }
}

/// A batch takes exactly the dead nodes among those that its numbers lead to off the register, and
/// empties their lists. Everything else stays as it was.
pub proof fn law_cleanup_takes_the_dead(v: ManagerView, ids: Seq<u64>)
    requires
        consistent(v),
    ensures
        v.cleaned(ids).arena.len() == v.arena.len(),
        v.cleaned(ids).cleanup == v.cleanup,
        forall|id: u64| #[trigger]
            v.cleaned(ids).nodes.contains_key(id) <==> v.nodes.contains_key(id) && !(ids.contains(
                id,
            ) && v.arena[v.nodes[id] as int].dead),
        forall|id: u64|
            v.cleaned(ids).nodes.contains_key(id) ==> #[trigger] v.cleaned(ids).nodes[id]
                == v.nodes[id],
        forall|a: int|
            #![trigger v.cleaned(ids).arena[a]]
            0 <= a < v.arena.len() ==> {
                let node = v.arena[a];
                let taken = node.dead && ids.contains(node.id) && v.nodes.contains_key(node.id)
                    && v.nodes[node.id] == a;
                &&& (NodeView { deaths: node.deaths, ..v.cleaned(ids).arena[a] }) == node
                &&& taken ==> v.cleaned(ids).arena[a].deaths.len() == 0
                &&& !taken ==> v.cleaned(ids).arena[a].deaths == node.deaths
            },
    decreases ids.len(),
{
    if ids.len() > 0 {
        let less = ids.drop_last();
        let id = ids.last();
        law_cleanup_takes_the_dead(v, less);
        assert forall|i: u64| ids.contains(i) implies i == id || less.contains(i) by {
            let k = choose|k: int| 0 <= k < ids.len() && ids[k] == i;
            if k < less.len() {
                assert(less[k] == i);
            }
        }
        assert forall|i: u64| less.contains(i) implies ids.contains(i) by {
            let k = choose|k: int| 0 <= k < less.len() && less[k] == i;
            assert(ids[k] == i);
        }
        assert(ids[ids.len() - 1] == id);
        let w = v.cleaned(less);
        if w.nodes.contains_key(id) {
            assert(w.nodes[id] == v.nodes[id]);
            assert((NodeView {
                deaths: v.arena[v.nodes[id] as int].deaths,
                ..w.arena[v.nodes[id] as int]
            }) == v.arena[v.nodes[id] as int]);
        }
        assert forall|a: int|
            #![trigger v.cleaned(ids).arena[a]]
            0 <= a < v.arena.len() implies {
            let node = v.arena[a];
            let taken = node.dead && ids.contains(node.id) && v.nodes.contains_key(node.id)
                && v.nodes[node.id] == a;
            &&& (NodeView { deaths: node.deaths, ..v.cleaned(ids).arena[a] }) == node
            &&& taken ==> v.cleaned(ids).arena[a].deaths.len() == 0
            &&& !taken ==> v.cleaned(ids).arena[a].deaths == node.deaths
        } by {
            assert((NodeView { deaths: v.arena[a].deaths, ..w.arena[a] }) == v.arena[a]);
        }
    }
}

/// Of a batch of distinct numbers every dead node is reported, in the order of the batch, with all its
/// notifications; a live node and an unknown number are not.
pub proof fn law_every_dead_node_is_reported(v: ManagerView, ids: Seq<u64>)
    requires
        consistent(v),
        ids.no_duplicates(),
    ensures
        v.due(ids) == ids.filter(
            |id: u64| v.nodes.contains_key(id) && v.arena[v.nodes[id] as int].dead,
        ).map_values(|id: u64| (id, v.arena[v.nodes[id] as int].deaths)),
    decreases ids.len(),
{
    let gone = |id: u64| v.nodes.contains_key(id) && v.arena[v.nodes[id] as int].dead;
    let told = |id: u64| (id, v.arena[v.nodes[id] as int].deaths);
    reveal(Seq::filter);
    if ids.len() > 0 {
        let less = ids.drop_last();
        let id = ids.last();
        law_every_dead_node_is_reported(v, less);
        law_cleanup_takes_the_dead(v, less);
        assert(!less.contains(id));
        if v.nodes.contains_key(id) {
            let a = v.nodes[id] as int;
            assert(v.cleaned(less).nodes.contains_key(id));
            assert(v.cleaned(less).nodes[id] == v.nodes[id]);
            assert((NodeView { deaths: v.arena[a].deaths, ..v.cleaned(less).arena[a] })
                == v.arena[a]);
        } else {
            assert(!v.cleaned(less).nodes.contains_key(id));
        }
        assert(ids.filter(gone).map_values(told) =~= if gone(id) {
            less.filter(gone).map_values(told).push(told(id))
        } else {
            less.filter(gone).map_values(told)
        });
    } else {
        assert(ids.filter(gone).map_values(told) =~= Seq::empty());
    }
}

/// What is said of a node that has been cleaned up is its number and its notifications.
pub proof fn law_notified_node_is_told(n: Notified)
    ensures
        n@.0 == n.id,
        n@.1 == n.deaths@,
{
}

} // verus!
