//! A manager that hands out references to nodes by handle and cleans a node up after the last
//! reference has gone.
//!
//! Nodes are shared: a node is known by its address in the manager's memory.
use std::collections::HashMap;

use vstd::prelude::*;

use crate::owned::ring::DeathList;

verus! {

broadcast use vstd::std_specs::hash::group_hash_axioms;

/// A notification, known by its cookie.
#[derive(Clone, Copy, Debug, PartialEq, Eq, Structural)]
pub struct DeathNotification {
    pub cookie: usize,
}

/// What there is to know of a node.
pub struct NodeView {
    /// What the node stands for.
    pub ptr: usize,
    pub handle: u32,
    pub refs: usize,
    /// The notifications, most recently registered first.
    pub deaths: Seq<DeathNotification>,
}

impl NodeView {
    /// After a reference has been taken.
    pub open spec fn referenced(self) -> NodeView {
        NodeView {
            refs: if self.refs == usize::MAX {
                0
            } else {
                (self.refs + 1) as usize
            },
            ..self
        }
    }

    /// After a reference has been given up.
    pub open spec fn dereferenced(self) -> NodeView {
        NodeView {
            refs: if self.refs == 0 {
                usize::MAX
            } else {
                (self.refs - 1) as usize
            },
            ..self
        }
    }

    /// After a notification has been registered.
    pub open spec fn watched(self, cookie: usize) -> NodeView {
        NodeView { deaths: self.deaths.insert(0, DeathNotification { cookie }), ..self }
    }
}

/// A node.
pub struct BinderNode {
    pub ptr: usize,
    handle: u32,
    refs: usize,
    death_list: DeathList<DeathNotification>,
}

impl View for BinderNode {
    type V = NodeView;

    closed spec fn view(&self) -> NodeView {
        NodeView {
            ptr: self.ptr,
            handle: self.handle,
            refs: self.refs,
            deaths: self.death_list@,
        }
    }
}

impl BinderNode {
    pub closed spec fn wf(self) -> bool {
        self.death_list.wf()
    }

    /// Creates a node with one reference to it.
    pub fn new(ptr: usize, handle: u32) -> (node: BinderNode)
        ensures
            node.wf(),
            node@ == (NodeView { ptr, handle, refs: 1, deaths: Seq::empty() }),
    {
        BinderNode { ptr, handle, refs: 1, death_list: DeathList::new() }
    }

    /// Takes a reference. The count wraps around.
    pub fn inc_ref(&mut self)
        requires
            old(self).wf(),
        ensures
            final(self).wf(),
            final(self)@ == old(self)@.referenced(),
    {
        self.refs = self.refs.wrapping_add(1);
    }

    /// Gives up a reference. The count wraps around. Says whether it was the last one.
    pub fn dec_ref(&mut self) -> (last: bool)
        requires
            old(self).wf(),
        ensures
            final(self).wf(),
            last == (old(self)@.refs == 1),
            final(self)@ == old(self)@.dereferenced(),
    {
        let last: bool = self.refs == 1;
        self.refs = self.refs.wrapping_sub(1);
        last
    }

    /// Registers a notification in front of the others.
    pub fn add_death_notification(&mut self, cookie: usize)
        requires
            old(self).wf(),
        ensures
            final(self).wf(),
            final(self)@ == old(self)@.watched(cookie),
    {
        self.death_list.push_front(DeathNotification { cookie });
    }
}

/// What a manager holds.
pub struct ManagerView {
    /// All nodes that have been created, by address.
    pub arena: Seq<NodeView>,
    /// Where the node with a handle is.
    pub nodes: Map<u32, usize>,
    /// The nodes that wait for clean-up, oldest first.
    pub queue: Seq<usize>,
}

impl ManagerView {
    /// With the node at `addr` replaced.
    pub open spec fn with(self, addr: usize, node: NodeView) -> ManagerView {
        ManagerView { arena: self.arena.update(addr as int, node), ..self }
    }

    /// After a node has been created.
    pub open spec fn created(self, handle: u32, ptr: usize) -> ManagerView {
        ManagerView {
            arena: self.arena.push(NodeView { ptr, handle, refs: 1, deaths: Seq::empty() }),
            nodes: self.nodes.insert(handle, self.arena.len() as usize),
            queue: self.queue,
        }
    }

    /// A node that is registered and referenced.
    pub open spec fn available(self, handle: u32) -> bool {
        self.nodes.contains_key(handle) && self.arena[self.nodes[handle] as int].refs != 0
    }

    /// After a reference to the node at `addr` has been given up.
    pub open spec fn released(self, addr: usize) -> ManagerView {
        let node = self.arena[addr as int];
        let v = self.with(addr, node.dereferenced());
        if node.refs == 1 {
            ManagerView {
                nodes: v.nodes.remove(node.handle),
                queue: v.queue.push(addr),
                ..v
            }
        } else {
            v
        }
    }

    /// After the nodes `batch` have been cleaned up, in order. A node that is referenced again is
    /// passed over.
    pub open spec fn cleaned(self, batch: Seq<usize>) -> ManagerView
        decreases batch.len(),
    {
        if batch.len() == 0 {
            self
        } else {
            let v = self.cleaned(batch.drop_last());
            let node = v.arena[batch.last() as int];
            if node.refs != 0 {
                v
            } else {
                v.with(batch.last(), NodeView { deaths: Seq::empty(), ..node })
            }
        }
    }

    /// What cleaning up the nodes `batch` does: the nodes that are freed, and their notifications.
    pub open spec fn freed(self, batch: Seq<usize>) -> Seq<(usize, Seq<DeathNotification>)>
        decreases batch.len(),
    {
        if batch.len() == 0 {
            Seq::empty()
        } else {
            let node = self.cleaned(batch.drop_last()).arena[batch.last() as int];
            if node.refs != 0 {
                self.freed(batch.drop_last())
            } else {
                self.freed(batch.drop_last()).push((batch.last(), node.deaths))
            }
        }
    }
}

/// What holds of every manager: every handle and every queued address leads to a node, and a handle to
/// a node that has it.
pub open spec fn consistent(v: ManagerView) -> bool {
    &&& forall|h: u32| #[trigger]
        v.nodes.contains_key(h) ==> v.nodes[h] < v.arena.len() && v.arena[v.nodes[h] as int].handle
            == h
    &&& forall|i: int| 0 <= i < v.queue.len() ==> (#[trigger] v.queue[i]) < v.arena.len()
}

/// A node that has been freed, and the notifications that go with it.
pub struct Freed {
    pub addr: usize,
    pub deaths: Vec<DeathNotification>,
}

impl View for Freed {
    type V = (usize, Seq<DeathNotification>);

    open spec fn view(&self) -> (usize, Seq<DeathNotification>) {
        (self.addr, self.deaths@)
    }
}

/// A manager of nodes.
pub struct BinderManager {
    arena: Vec<BinderNode>,
    nodes: HashMap<u32, usize>,
    cleanup_queue: Vec<usize>,
}

impl View for BinderManager {
    type V = ManagerView;

    closed spec fn view(&self) -> ManagerView {
        ManagerView {
            arena: self.arena@.map_values(|n: BinderNode| n@),
            nodes: self.nodes@,
            queue: self.cleanup_queue@,
        }
    }
}

impl BinderManager {
    /// Every handle and every queued address leads to a node.
    pub closed spec fn wf(self) -> bool {
        &&& forall|a: int| 0 <= a < self.arena@.len() ==> (#[trigger] self.arena@[a]).wf()
        &&& forall|h: u32| #[trigger]
            self.nodes@.contains_key(h) ==> self.nodes@[h] < self.arena@.len()
                && self.arena@[self.nodes@[h] as int]@.handle == h
        &&& forall|i: int|
            0 <= i < self.cleanup_queue@.len() ==> (#[trigger] self.cleanup_queue@[i])
                < self.arena@.len()
    }

    /// The invariant on what the manager holds.
    pub proof fn lemma_consistent(self)
        requires
            self.wf(),
        ensures
            consistent(self@),
    {
    }

    /// Creates a manager without nodes.
    pub fn new() -> (manager: BinderManager)
        ensures
            manager.wf(),
            manager@ == (ManagerView {
                arena: Seq::empty(),
                nodes: Map::empty(),
                queue: Seq::empty(),
            }),
    {
        let manager = BinderManager {
            arena: Vec::new(),
            nodes: HashMap::new(),
            cleanup_queue: Vec::new(),
        };
        assert(manager@.arena =~= Seq::empty());
        manager
    }

    /// Creates a node with one reference to it, registers it under its handle in place of any
    /// earlier one, and hands out its address.
    pub fn create_node(&mut self, handle: u32, ptr: usize) -> (addr: usize)
        requires
            old(self).wf(),
        ensures
            final(self).wf(),
            addr == old(self)@.arena.len(),
            final(self)@ == old(self)@.created(handle, ptr),
    {
        let addr: usize = self.arena.len();
        self.arena.push(BinderNode::new(ptr, handle));
        self.nodes.insert(handle, addr);
        assert(self@.arena =~= old(self)@.created(handle, ptr).arena);
        addr
    }

    /// Takes a reference to the node with a handle, if it is registered and referenced.
    pub fn acquire_node(&mut self, handle: u32) -> (addr: Option<usize>)
        requires
            old(self).wf(),
        ensures
            final(self).wf(),
            addr == if old(self)@.available(handle) {
                Some(old(self)@.nodes[handle])
            } else {
                None
            },
            final(self)@ == if old(self)@.available(handle) {
                old(self)@.with(
                    old(self)@.nodes[handle],
                    old(self)@.arena[old(self)@.nodes[handle] as int].referenced(),
                )
            } else {
                old(self)@
            },
            addr is Some <==> old(self)@.nodes.contains_key(handle)
                && old(self)@.arena[old(self)@.nodes[handle] as int].refs > 0,
            addr matches Some(a) ==> a == old(self)@.nodes[handle] && (old(
                self,
            )@.arena[a as int].refs < usize::MAX ==> final(self)@.arena[a as int].refs == old(
                self,
            )@.arena[a as int].refs + 1),
    {
        let addr: usize = match self.nodes.get(&handle) {
            Some(addr) => *addr,
            None => {
                return None;
            },
        };
        if self.arena[addr].refs == 0 {
            return None;
        }
        self.arena[addr].inc_ref();
        assert(self@.arena =~= old(self)@.arena.update(
            addr as int,
            old(self)@.arena[addr as int].referenced(),
        ));
        Some(addr)
    }

    /// Registers a notification on the node at `addr`.
    pub fn add_death_notification(&mut self, addr: usize, cookie: usize)
        requires
            old(self).wf(),
            addr < old(self)@.arena.len(),
        ensures
            final(self).wf(),
            final(self)@ == old(self)@.with(addr, old(self)@.arena[addr as int].watched(cookie)),
    {
        self.arena[addr].add_death_notification(cookie);
        assert(self@.arena =~= old(self)@.arena.update(
            addr as int,
            old(self)@.arena[addr as int].watched(cookie),
        ));
    }

    /// Gives up a reference to the node at `addr`. With the last one its handle is no longer
    /// registered and the node is queued for clean-up.
    pub fn release_ref(&mut self, addr: usize)
        requires
            old(self).wf(),
            addr < old(self)@.arena.len(),
        ensures
            final(self).wf(),
            final(self)@ == old(self)@.released(addr),
    {
        let last: bool = self.arena[addr].dec_ref();
        assert(self@.arena =~= old(self)@.arena.update(
            addr as int,
            old(self)@.arena[addr as int].dereferenced(),
        ));
        if last {
            let handle: u32 = self.arena[addr].handle;
            self.nodes.remove(&handle);
            self.cleanup_queue.push(addr);
        }
    }

    /// Drops a handle from the register and gives up a reference to the node it led to.
    pub fn release_handle(&mut self, handle: u32)
        requires
            old(self).wf(),
        ensures
            final(self).wf(),
            final(self)@ == if old(self)@.nodes.contains_key(handle) {
                (ManagerView { nodes: old(self)@.nodes.remove(handle), ..old(self)@ }).released(
                    old(self)@.nodes[handle],
                )
            } else {
                old(self)@
            },
    {
        if let Some(addr) = self.nodes.remove(&handle) {
            self.release_ref(addr);
        } else {
            assert(self@.nodes =~= old(self)@.nodes);
        }
    }

    /// Works off the clean-up queue. Hands out, in order, the nodes that are freed with their
    /// notifications.
    pub fn process_cleanup(&mut self) -> (freed: Vec<Freed>)
        requires
            old(self).wf(),
        ensures
            final(self).wf(),
            final(self)@ == (ManagerView { queue: Seq::empty(), ..old(self)@ }).cleaned(
                old(self)@.queue,
            ),
            freed@.map_values(|f: Freed| f@) == (ManagerView {
                queue: Seq::empty(),
                ..old(self)@
            }).freed(old(self)@.queue),
    {
        let mut batch: Vec<usize> = Vec::new();
        std::mem::swap(&mut self.cleanup_queue, &mut batch);
        let ghost all = batch@;
        let ghost v = self@;
        let mut freed: Vec<Freed> = Vec::new();
        proof {
            assert(v.queue =~= Seq::empty());
            assert(v == (ManagerView { queue: Seq::empty(), ..old(self)@ }));
            assert(freed@.map_values(|f: Freed| f@) =~= v.freed(all.take(0)));
        }
        for i in 0..batch.len()
            invariant
                self.wf(),
                batch@ == all,
                forall|j: int| 0 <= j < all.len() ==> (#[trigger] all[j]) < self.arena@.len(),
                self@ == v.cleaned(all.take(i as int)),
                freed@.map_values(|f: Freed| f@) == v.freed(all.take(i as int)),
        {
            let addr: usize = batch[i];
            let ghost before = self@;
            let ghost earlier = freed@;
            proof {
                assert(all.take(i as int + 1).drop_last() =~= all.take(i as int));
                assert(all.take(i as int + 1).last() == addr);
            }
            if self.arena[addr].refs == 0 {
                let deaths: Vec<DeathNotification> = self.arena[addr].death_list.take_all();
                freed.push(Freed { addr, deaths });
                proof {
                    assert(self@.arena =~= before.arena.update(
                        addr as int,
                        NodeView { deaths: Seq::empty(), ..before.arena[addr as int] },
                    ));
                    assert(freed@.map_values(|f: Freed| f@) =~= earlier.map_values(
                        |f: Freed| f@,
                    ).push((addr, before.arena[addr as int].deaths)));
                }
            }
        }
        assert(all.take(all.len() as int) =~= all);
        freed
    }
}

/// A reference that has been taken and given up again leaves the node as it was.
pub proof fn law_release_undoes_acquire(v: ManagerView, handle: u32)
    requires
        v.available(handle),
        v.nodes[handle] < v.arena.len(),
        v.arena[v.nodes[handle] as int].refs < usize::MAX,
    ensures
        v.with(v.nodes[handle], v.arena[v.nodes[handle] as int].referenced()).released(
            v.nodes[handle],
        ) == v,
{
    let a = v.nodes[handle];
    let w = v.with(a, v.arena[a as int].referenced()).released(a);
    assert(w.arena =~= v.arena);
}

/// The last release of a node makes its handle unavailable.
pub proof fn law_released_handle_is_unavailable(v: ManagerView, addr: usize)
    requires
        addr < v.arena.len(),
        v.arena[addr as int].refs == 1,
    ensures
        !v.released(addr).available(v.arena[addr as int].handle),
        v.released(addr).queue.last() == addr,
{
}

/// A reference taken adds one to the count, one given up takes one off; the count wraps around. A
/// notification that is added comes to stand before the others. Nothing else of the node changes.
pub proof fn law_references_are_counted(n: NodeView, cookie: usize)
    ensures
        (NodeView { refs: n.refs, ..n.referenced() }) == n,
        n.refs < usize::MAX ==> n.referenced().refs == n.refs + 1,
        n.refs == usize::MAX ==> n.referenced().refs == 0,
        (NodeView { refs: n.refs, ..n.dereferenced() }) == n,
        n.refs > 0 ==> n.dereferenced().refs == n.refs - 1,
        n.refs == 0 ==> n.dereferenced().refs == usize::MAX,
        n.referenced().dereferenced() == n,
        n.dereferenced().referenced() == n,
        (NodeView { deaths: n.deaths, ..n.watched(cookie) }) == n,
        n.watched(cookie).deaths.len() == n.deaths.len() + 1,
        n.watched(cookie).deaths[0].cookie == cookie,
        n.watched(cookie).deaths.skip(1) == n.deaths,
{
    assert(n.watched(cookie).deaths.skip(1) =~= n.deaths);
}

/// Replacing a node touches no other node, no handle and nothing that waits for clean-up.
pub proof fn law_one_node_is_replaced(v: ManagerView, addr: usize, node: NodeView)
    requires
        addr < v.arena.len(),
    ensures
        v.with(addr, node).arena.len() == v.arena.len(),
        v.with(addr, node).arena[addr as int] == node,
        forall|b: int|
            0 <= b < v.arena.len() && b != addr ==> #[trigger] v.with(addr, node).arena[b]
                == v.arena[b],
        v.with(addr, node).nodes == v.nodes,
        v.with(addr, node).queue == v.queue,
{
}

/// A node that has been created is the one that its handle leads to, with one reference and no
/// notification, and can be acquired. Other nodes and handles stay as they were.
pub proof fn law_created_node_is_available(v: ManagerView, handle: u32, ptr: usize)
    requires
        v.arena.len() < usize::MAX,
    ensures
        v.created(handle, ptr).available(handle),
        v.created(handle, ptr).nodes[handle] == v.arena.len(),
        v.created(handle, ptr).arena.len() == v.arena.len() + 1,
        ({
            let node = v.created(handle, ptr).arena[v.arena.len() as int];
            node.ptr == ptr && node.handle == handle && node.refs == 1 && node.deaths.len() == 0
        }),
        forall|a: int|
            0 <= a < v.arena.len() ==> #[trigger] v.created(handle, ptr).arena[a] == v.arena[a],
        forall|h: u32|
            h != handle ==> (#[trigger] v.created(handle, ptr).nodes.contains_key(h)
                <==> v.nodes.contains_key(h)),
        forall|h: u32|
            h != handle && v.nodes.contains_key(h) ==> #[trigger] v.created(handle, ptr).nodes[h]
                == v.nodes[h],
        v.created(handle, ptr).queue == v.queue,
{
}

/// A handle whose node has a reference can always be acquired, however many references there are; one
/// that is not registered, or whose node has none, cannot. Acquiring adds one to the count, and below
/// the largest count leaves the handle available.
pub proof fn law_registered_handle_is_available(v: ManagerView, handle: u32)
    requires
        consistent(v),
    ensures
        v.nodes.contains_key(handle) && v.arena[v.nodes[handle] as int].refs > 0 ==> v.available(
            handle,
        ),
        !v.nodes.contains_key(handle) ==> !v.available(handle),
        v.nodes.contains_key(handle) && v.arena[v.nodes[handle] as int].refs == 0 ==> !v.available(
            handle,
        ),
        v.available(handle) && v.arena[v.nodes[handle] as int].refs < usize::MAX ==> {
            let a = v.nodes[handle];
            let after = v.with(a, v.arena[a as int].referenced());
            &&& after.arena[a as int].refs == v.arena[a as int].refs + 1
            &&& after.available(handle)
            &&& after.nodes[handle] == a
        },
{
}

/// Giving up a reference takes one off the count of that node and touches no other node. Exactly when
/// it was the last one the node's handle is forgotten and the node waits for clean-up, behind the
/// others.
pub proof fn law_release_takes_one(v: ManagerView, addr: usize)
    requires
        addr < v.arena.len(),
    ensures
        v.released(addr).arena.len() == v.arena.len(),
        forall|b: int|
            0 <= b < v.arena.len() && b != addr ==> #[trigger] v.released(addr).arena[b]
                == v.arena[b],
        (NodeView { refs: v.arena[addr as int].refs, ..v.released(addr).arena[addr as int] })
            == v.arena[addr as int],
        v.arena[addr as int].refs > 0 ==> v.released(addr).arena[addr as int].refs
            == v.arena[addr as int].refs - 1,
        v.arena[addr as int].refs == 0 ==> v.released(addr).arena[addr as int].refs == usize::MAX,
        v.arena[addr as int].refs == 1 ==> v.released(addr).queue == v.queue.push(addr)
            && v.released(addr).nodes == v.nodes.remove(v.arena[addr as int].handle),
        v.arena[addr as int].refs != 1 ==> v.released(addr).queue == v.queue && v.released(
            addr,
        ).nodes == v.nodes,
{
}

/// Cleaning up two batches one after the other is cleaning up both as one: the same nodes result, and
/// what the second frees follows what the first frees.
pub proof fn law_batches_follow_each_other(v: ManagerView, s: Seq<usize>, t: Seq<usize>)
    ensures
        v.cleaned(s + t) == v.cleaned(s).cleaned(t),
        v.freed(s + t) == v.freed(s) + v.cleaned(s).freed(t),
    decreases t.len(),
{
    if t.len() == 0 {
        assert(s + t =~= s);
        assert(v.freed(s) =~= v.freed(s) + v.cleaned(s).freed(t));
    } else {
        law_batches_follow_each_other(v, s, t.drop_last());
        assert((s + t).drop_last() =~= s + t.drop_last());
        assert(v.freed(s + t) =~= v.freed(s) + v.cleaned(s).freed(t));
    }
}

/// A batch takes the notifications off exactly its nodes without references and changes nothing else.
pub proof fn law_cleanup_spares_referenced_nodes(v: ManagerView, batch: Seq<usize>)
    requires
        forall|i: int| 0 <= i < batch.len() ==> (#[trigger] batch[i]) < v.arena.len(),
    ensures
        v.cleaned(batch).arena.len() == v.arena.len(),
        v.cleaned(batch).nodes == v.nodes,
        v.cleaned(batch).queue == v.queue,
        forall|a: usize|
            a < v.arena.len() && batch.contains(a) && v.arena[a as int].refs == 0 ==> (NodeView {
                deaths: v.arena[a as int].deaths,
                ..#[trigger] v.cleaned(batch).arena[a as int]
            }) == v.arena[a as int] && v.cleaned(batch).arena[a as int].deaths.len() == 0,
        forall|a: usize|
            a < v.arena.len() && !(batch.contains(a) && v.arena[a as int].refs == 0)
                ==> #[trigger] v.cleaned(batch).arena[a as int] == v.arena[a as int],
    decreases batch.len(),
{
    if batch.len() > 0 {
        let less = batch.drop_last();
        law_cleanup_spares_referenced_nodes(v, less);
        assert forall|a: usize| batch.contains(a) implies a == batch.last() || less.contains(a) by {
            let i = choose|i: int| 0 <= i < batch.len() && batch[i] == a;
            if i < less.len() {
                assert(less[i] == a);
            }
        }
        assert forall|a: usize| less.contains(a) implies batch.contains(a) by {
            let i = choose|i: int| 0 <= i < less.len() && less[i] == a;
            assert(batch[i] == a);
        }
        assert(batch[batch.len() - 1] == batch.last());
    }
}

/// Of a batch of distinct nodes all those without references are freed, in the order of the batch, each
/// with all its notifications.
pub proof fn law_every_unreferenced_node_is_freed(v: ManagerView, batch: Seq<usize>)
    requires
        batch.no_duplicates(),
        forall|i: int| 0 <= i < batch.len() ==> (#[trigger] batch[i]) < v.arena.len(),
    ensures
        v.freed(batch) == batch.filter(|a: usize| v.arena[a as int].refs == 0).map_values(
            |a: usize| (a, v.arena[a as int].deaths),
        ),
    decreases batch.len(),
{
    let idle = |a: usize| v.arena[a as int].refs == 0;
    let told = |a: usize| (a, v.arena[a as int].deaths);
    reveal(Seq::filter);
    if batch.len() > 0 {
        let less = batch.drop_last();
        law_every_unreferenced_node_is_freed(v, less);
        law_cleanup_spares_referenced_nodes(v, less);
        assert(!less.contains(batch.last()));
        assert(batch.filter(idle).map_values(told) =~= if idle(batch.last()) {
            less.filter(idle).map_values(told).push(told(batch.last()))
        } else {
            less.filter(idle).map_values(told)
        });
    } else {
        assert(batch.filter(idle).map_values(told) =~= Seq::empty());
    }
}

/// What is said of a freed node is its address and its notifications.
pub proof fn law_freed_node_is_told(f: Freed)
    ensures
        f@.0 == f.addr,
        f@.1 == f.deaths@,
{
}

} // verus!
