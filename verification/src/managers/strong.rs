//! A manager that numbers its nodes, counts strong references to them, and queues a node for clean-up
//! when the last one goes.
use std::collections::HashMap;

use vstd::prelude::*;

use crate::nodes::single::DeathList;

verus! {

broadcast use vstd::std_specs::hash::group_hash_axioms;

/// What there is to know of a node.
pub struct NodeView {
    pub node_id: u64,
    pub strong_refs: usize,
    /// The cookies of its notifications, most recently registered first. Each holds a weak
    /// reference.
    pub cookies: Seq<usize>,
}

/// A node.
pub struct BinderNode {
    pub node_id: u64,
    strong_refs: usize,
    weak_refs: usize,
    flags: u32,
    deaths: DeathList<usize>,
}

impl View for BinderNode {
    type V = NodeView;

    closed spec fn view(&self) -> NodeView {
        NodeView {
            node_id: self.node_id,
            strong_refs: self.strong_refs,
            cookies: self.deaths@,
        }
    }
}

impl BinderNode {
    /// There are as many weak references as notifications.
    pub closed spec fn wf(self) -> bool {
        self.deaths.wf() && self.weak_refs == self.deaths@.len()
    }
}

/// What a manager holds.
pub struct ManagerView {
    /// The number of the next node.
    pub next_id: u64,
    pub nodes: Map<u64, NodeView>,
    /// The nodes that wait for clean-up, oldest first.
    pub queue: Seq<NodeView>,
}

/// The number after `n`, from the largest one back to zero.
pub open spec fn next_number(n: u64) -> u64 {
    if n == u64::MAX {
        0
    } else {
        (n + 1) as u64
    }
}

impl ManagerView {
    /// A node that exists and is strongly referenced.
    pub open spec fn referenced(self, handle: u64) -> bool {
        self.nodes.contains_key(handle) && self.nodes[handle].strong_refs > 0
    }

    /// After a node has been created.
    pub open spec fn created(self) -> ManagerView {
        ManagerView {
            next_id: next_number(self.next_id),
            nodes: self.nodes.insert(
                self.next_id,
                NodeView { node_id: self.next_id, strong_refs: 1, cookies: Seq::empty() },
            ),
            queue: self.queue,
        }
    }

    /// With the strong references to a node replaced.
    pub open spec fn counted(self, handle: u64, strong_refs: usize) -> ManagerView {
        ManagerView {
            nodes: self.nodes.insert(handle, NodeView { strong_refs, ..self.nodes[handle] }),
            ..self
        }
    }

    /// After a strong reference to a node has been given up: with the last one the node moves to
    /// the queue.
    pub open spec fn dropped(self, handle: u64) -> ManagerView {
        let node = self.nodes[handle];
        let count = (node.strong_refs - 1) as usize;
        if count > 0 {
            self.counted(handle, count)
        } else {
            ManagerView {
                nodes: self.nodes.remove(handle),
                queue: self.queue.push(NodeView { strong_refs: 0, ..node }),
                ..self
            }
        }
    }

    /// After a notification has been registered on a node.
    pub open spec fn notified(self, handle: u64, cookie: usize) -> ManagerView {
        let node = self.nodes[handle];
        ManagerView {
            nodes: self.nodes.insert(
                handle,
                NodeView { cookies: node.cookies.insert(0, cookie), ..node },
            ),
            ..self
        }
    }
}

/// What holds of every manager: a handle leads to the node with that number.
pub open spec fn consistent(v: ManagerView) -> bool {
    forall|handle: u64| #[trigger]
        v.nodes.contains_key(handle) ==> v.nodes[handle].node_id == handle
}

/// What the clean-up of a node comes to.
pub struct Cleaned {
    pub node_id: u64,
    /// The cookies of the notifications that are due, in order.
    pub cookies: Vec<usize>,
    /// The weak references that are left over.
    pub remaining_weak: usize,
}

impl View for Cleaned {
    type V = (u64, Seq<usize>, usize);

    open spec fn view(&self) -> (u64, Seq<usize>, usize) {
        (self.node_id, self.cookies@, self.remaining_weak)
    }
}

/// What the clean-up of the nodes `queue` comes to.
pub open spec fn reports(queue: Seq<NodeView>) -> Seq<(u64, Seq<usize>, usize)> {
    queue.map_values(|n: NodeView| (n.node_id, n.cookies, 0usize))
}

/// A manager of nodes.
pub struct BinderNodeManager {
    next_id: u64,
    nodes: HashMap<u64, BinderNode>,
    cleanup_queue: Vec<BinderNode>,
}

impl View for BinderNodeManager {
    type V = ManagerView;

    closed spec fn view(&self) -> ManagerView {
        ManagerView {
            next_id: self.next_id,
            nodes: self.nodes@.map_values(|n: BinderNode| n@),
            queue: self.cleanup_queue@.map_values(|n: BinderNode| n@),
        }
    }
}

impl BinderNodeManager {
    pub closed spec fn wf(self) -> bool {
        &&& forall|id: u64| #[trigger]
            self.nodes@.contains_key(id) ==> self.nodes@[id].wf() && self.nodes@[id].node_id == id
        &&& forall|i: int|
            0 <= i < self.cleanup_queue@.len() ==> (#[trigger] self.cleanup_queue@[i]).wf()
    }

    /// The invariant on what the manager holds.
    pub proof fn lemma_consistent(self)
        requires
            self.wf(),
        ensures
            consistent(self@),
    {
    }

    /// Creates a manager without nodes.
    pub fn new() -> (manager: BinderNodeManager)
        ensures
            manager.wf(),
            manager@ == (ManagerView { next_id: 0, nodes: Map::empty(), queue: Seq::empty() }),
    {
        let manager = BinderNodeManager {
            next_id: 0,
            nodes: HashMap::new(),
            cleanup_queue: Vec::new(),
        };
        proof {
            assert(manager@.nodes =~= Map::empty());
            assert(manager@.queue =~= Seq::empty());
        }
        manager
    }

    /// Creates a node with one strong reference to it and hands out its number.
    pub fn create_node(&mut self) -> (id: u64)
        requires
            old(self).wf(),
        ensures
            final(self).wf(),
            id == old(self)@.next_id,
            final(self)@ == old(self)@.created(),
    {
        let id: u64 = self.next_id;
        self.next_id = self.next_id.wrapping_add(1);
        let node = BinderNode {
            node_id: id,
            strong_refs: 1,
            weak_refs: 0,
            flags: 0,
            deaths: DeathList::new(),
        };
        self.nodes.insert(id, node);
        assert(self@.nodes =~= old(self)@.created().nodes);
        id
    }

    /// Takes a strong reference to a node. Says whether the node exists and was still referenced.
    /// The count wraps around.
    pub fn inc_strong_ref(&mut self, handle: u64) -> (taken: bool)
        requires
            old(self).wf(),
        ensures
            final(self).wf(),
            taken == old(self)@.referenced(handle),
            final(self)@ == if taken {
                old(self)@.counted(
                    handle,
                    if old(self)@.nodes[handle].strong_refs == usize::MAX {
                        0
                    } else {
                        (old(self)@.nodes[handle].strong_refs + 1) as usize
                    },
                )
            } else {
                old(self)@
            },
    {
        match self.nodes.remove(&handle) {
            Some(node) => {
                let mut node: BinderNode = node;
                let prev: usize = node.strong_refs;
                node.strong_refs = prev.wrapping_add(1);
                let mut taken: bool = true;
                if prev == 0 {
                    node.strong_refs = node.strong_refs.wrapping_sub(1);
                    taken = false;
                }
                self.nodes.insert(handle, node);
                proof {
                    assert(self@.nodes =~= old(self)@.nodes.insert(handle, node@));
                    if !taken {
                        assert(self@.nodes =~= old(self)@.nodes);
                    }
                }
                taken
            },
            None => {
                assert(self@.nodes =~= old(self)@.nodes);
                false
            },
        }
    }

    /// Gives up a strong reference to a node. With the last one the node moves to the clean-up
    /// queue. Says whether the node exists and was still referenced.
    pub fn dec_strong_ref(&mut self, handle: u64) -> (given_up: bool)
        requires
            old(self).wf(),
        ensures
            final(self).wf(),
            given_up == old(self)@.referenced(handle),
            final(self)@ == if given_up {
                old(self)@.dropped(handle)
            } else {
                old(self)@
            },
    {
        match self.nodes.remove(&handle) {
            Some(node) => {
                let mut node: BinderNode = node;
                let count: usize = node.strong_refs;
                if count == 0 {
                    self.nodes.insert(handle, node);
                    assert(self@.nodes =~= old(self)@.nodes);
                    return false;
                }
                node.strong_refs = count - 1;
                if count == 1 {
                    self.cleanup_queue.push(node);
                    proof {
                        assert(self@.nodes =~= old(self)@.nodes.remove(handle));
                        assert(self@.queue =~= old(self)@.queue.push(node@));
                    }
                } else {
                    self.nodes.insert(handle, node);
                    assert(self@.nodes =~= old(self)@.nodes.insert(handle, node@));
                }
                true
            },
            None => {
                assert(self@.nodes =~= old(self)@.nodes);
                false
            },
        }
    }

    /// Registers a notification on a node, which holds a weak reference to it. Says whether the node
    /// exists and was still referenced.
    pub fn add_death_notification(&mut self, handle: u64, cookie: usize) -> (added: bool)
        requires
            old(self).wf(),
        ensures
            final(self).wf(),
            added == old(self)@.referenced(handle),
            final(self)@ == if added {
                old(self)@.notified(handle, cookie)
            } else {
                old(self)@
            },
    {
        match self.nodes.remove(&handle) {
            Some(node) => {
                let mut node: BinderNode = node;
                let mut added: bool = false;
                if node.strong_refs != 0 {
                    node.deaths.register(cookie);
                    proof {
                        node.deaths.lemma_len();
                    }
                    node.weak_refs = node.weak_refs.wrapping_add(1);
                    added = true;
                }
                self.nodes.insert(handle, node);
                proof {
                    assert(self@.nodes =~= old(self)@.nodes.insert(handle, node@));
                    if !added {
                        assert(self@.nodes =~= old(self)@.nodes);
                    }
                }
                added
            },
            None => {
                assert(self@.nodes =~= old(self)@.nodes);
                false
            },
        }
    }

    /// Cleans up all queued nodes. For each of them, in order, says which notifications are due and
    /// how many weak references are left once they have been given.
    pub fn process_cleanup(&mut self) -> (cleaned: Vec<Cleaned>)
        requires
            old(self).wf(),
        ensures
            final(self).wf(),
            final(self)@ == (ManagerView { queue: Seq::empty(), ..old(self)@ }),
            cleaned@.map_values(|c: Cleaned| c@) == reports(old(self)@.queue),
    {
        let mut dead_nodes: Vec<BinderNode> = Vec::new();
        std::mem::swap(&mut self.cleanup_queue, &mut dead_nodes);
        let ghost s = dead_nodes@;
        let mut cleaned: Vec<Cleaned> = Vec::new();
        for node in it: dead_nodes.into_iter()
            invariant
                it.seq() == s,
                forall|i: int| 0 <= i < s.len() ==> (#[trigger] s[i]).wf(),
                cleaned.len() == it.index(),
                forall|i: int|
                    0 <= i < cleaned.len() ==> (#[trigger] cleaned@[i])@ == (
                        s[i]@.node_id,
                        s[i]@.cookies,
                        0usize,
                    ),
        {
            assert(node == s[it.index()]);
            cleaned.push(Self::clean(node));
        }
        proof {
            assert(cleaned@.map_values(|c: Cleaned| c@) =~= reports(old(self)@.queue));
            assert(self@.queue =~= Seq::empty());
        }
        cleaned
    }

    /// Cleans up one node: its notifications are due, and each gives up its weak reference.
    fn clean(node: BinderNode) -> (cleaned: Cleaned)
        requires
            node.wf(),
        ensures
            cleaned@ == (node@.node_id, node@.cookies, 0usize),
    {
        let node_id: u64 = node.node_id;
        let mut remaining_weak: usize = node.weak_refs;
        let cookies: Vec<usize> = node.deaths.into_callbacks();
        for i in 0..cookies.len()
            invariant
                remaining_weak == cookies.len() - i,
        {
            remaining_weak = remaining_weak.wrapping_sub(1);
        }
        Cleaned { node_id, cookies, remaining_weak }
    }
}

/// A node is queued at the moment its last strong reference goes, and from then on can neither be
/// referenced nor take notifications. The clean-up reports it under the handle that was dropped, with
/// all its notifications.
pub proof fn law_last_reference_queues(v: ManagerView, handle: u64)
    requires
        consistent(v),
        v.referenced(handle),
        v.nodes[handle].strong_refs == 1,
    ensures
        !v.dropped(handle).referenced(handle),
        v.dropped(handle).queue.len() == v.queue.len() + 1,
        reports(v.dropped(handle).queue).last() == (handle, v.nodes[handle].cookies, 0usize),
        consistent(v.dropped(handle)),
{
}

/// Taking a reference and giving it up again changes nothing.
pub proof fn law_drop_undoes_take(v: ManagerView, handle: u64)
    requires
        v.referenced(handle),
        v.nodes[handle].strong_refs < usize::MAX,
    ensures
        v.counted(handle, (v.nodes[handle].strong_refs + 1) as usize).dropped(handle) == v,
{
    let w = v.counted(handle, (v.nodes[handle].strong_refs + 1) as usize).dropped(handle);
    assert(w.nodes =~= v.nodes);
}

/// Clean-up leaves no weak reference over.
pub proof fn law_no_weak_reference_remains(queue: Seq<NodeView>)
    ensures
        forall|i: int| 0 <= i < queue.len() ==> (#[trigger] reports(queue)[i]).2 == 0,
{
}

/// Numbers are handed out one after the other; after the largest comes zero.
pub proof fn law_numbers_follow_each_other(n: u64)
    ensures
        n < u64::MAX ==> next_number(n) == n + 1,
        next_number(u64::MAX) == 0,
{
}

/// A handle is referenced exactly while its node is registered and has a strong reference.
pub proof fn law_handle_is_good_while_counted(v: ManagerView, handle: u64)
    ensures
        v.nodes.contains_key(handle) && v.nodes[handle].strong_refs > 0 ==> v.referenced(handle),
        !v.nodes.contains_key(handle) ==> !v.referenced(handle),
        v.nodes.contains_key(handle) && v.nodes[handle].strong_refs == 0 ==> !v.referenced(handle),
{
}

/// A node that has been created is registered under the number that was next, with one reference and
/// no cookie. Other nodes and what waits stay as they were.
pub proof fn law_created_node_is_referenced(v: ManagerView)
    ensures
        v.created().referenced(v.next_id),
        v.created().nodes[v.next_id].node_id == v.next_id,
        v.created().nodes[v.next_id].strong_refs == 1,
        v.created().nodes[v.next_id].cookies.len() == 0,
        forall|h: u64|
            h != v.next_id ==> (#[trigger] v.created().nodes.contains_key(h)
                <==> v.nodes.contains_key(h)),
        forall|h: u64|
            h != v.next_id && v.nodes.contains_key(h) ==> #[trigger] v.created().nodes[h]
                == v.nodes[h],
        v.created().queue == v.queue,
        v.next_id < u64::MAX ==> v.created().next_id == v.next_id + 1,
        v.next_id == u64::MAX ==> v.created().next_id == 0,
{
}

/// Setting a count, and adding a cookie, changes that of the one node. The cookie comes to stand before
/// the others.
pub proof fn law_one_node_changes(v: ManagerView, handle: u64, strong_refs: usize, cookie: usize)
    requires
        v.nodes.contains_key(handle),
    ensures
        v.counted(handle, strong_refs).nodes.dom() == v.nodes.dom(),
        v.counted(handle, strong_refs).nodes[handle] == (NodeView {
            strong_refs,
            ..v.nodes[handle]
        }),
        forall|h: u64|
            h != handle && v.nodes.contains_key(h) ==> #[trigger] v.counted(
                handle,
                strong_refs,
            ).nodes[h] == v.nodes[h],
        v.counted(handle, strong_refs).queue == v.queue,
        v.counted(handle, strong_refs).next_id == v.next_id,
        v.notified(handle, cookie).nodes.dom() == v.nodes.dom(),
        v.notified(handle, cookie).nodes[handle].node_id == v.nodes[handle].node_id,
        v.notified(handle, cookie).nodes[handle].strong_refs == v.nodes[handle].strong_refs,
        v.notified(handle, cookie).nodes[handle].cookies.len() == v.nodes[handle].cookies.len() + 1,
        v.notified(handle, cookie).nodes[handle].cookies[0] == cookie,
        v.notified(handle, cookie).nodes[handle].cookies.skip(1) == v.nodes[handle].cookies,
        forall|h: u64|
            h != handle && v.nodes.contains_key(h) ==> #[trigger] v.notified(
                handle,
                cookie,
            ).nodes[h] == v.nodes[h],
        v.notified(handle, cookie).queue == v.queue,
        v.notified(handle, cookie).next_id == v.next_id,
{
    assert(v.counted(handle, strong_refs).nodes.dom() =~= v.nodes.dom());
    assert(v.notified(handle, cookie).nodes.dom() =~= v.nodes.dom());
    assert(v.notified(handle, cookie).nodes[handle].cookies.skip(1)
        =~= v.nodes[handle].cookies);
}

/// A reference given up takes one off the count. With the last one the node leaves the register and
/// waits behind the others, with its number and all its cookies; before that it stays.
pub proof fn law_drop_takes_one(v: ManagerView, handle: u64)
    requires
        v.referenced(handle),
    ensures
        v.nodes[handle].strong_refs > 1 ==> {
            &&& v.dropped(handle).nodes.dom() == v.nodes.dom()
            &&& v.dropped(handle).nodes[handle].strong_refs == v.nodes[handle].strong_refs - 1
            &&& v.dropped(handle).nodes[handle].node_id == v.nodes[handle].node_id
            &&& v.dropped(handle).nodes[handle].cookies == v.nodes[handle].cookies
            &&& v.dropped(handle).queue == v.queue
            &&& v.dropped(handle).referenced(handle)
        },
        v.nodes[handle].strong_refs == 1 ==> {
            &&& v.dropped(handle).nodes.dom() == v.nodes.dom().remove(handle)
            &&& v.dropped(handle).queue.len() == v.queue.len() + 1
            &&& v.dropped(handle).queue.drop_last() == v.queue
            &&& v.dropped(handle).queue.last().node_id == v.nodes[handle].node_id
            &&& v.dropped(handle).queue.last().strong_refs == 0
            &&& v.dropped(handle).queue.last().cookies == v.nodes[handle].cookies
        },
        forall|h: u64|
            h != handle && v.nodes.contains_key(h) ==> #[trigger] v.dropped(handle).nodes[h]
                == v.nodes[h],
        v.dropped(handle).next_id == v.next_id,
{
    if v.nodes[handle].strong_refs > 1 {
        assert(v.dropped(handle).nodes.dom() =~= v.nodes.dom());
    } else {
        assert(v.dropped(handle).nodes.dom() =~= v.nodes.dom().remove(handle));
        assert(v.dropped(handle).queue.drop_last() =~= v.queue);
    }
}

/// Every node that waits is reported, in order, by its number with all its cookies.
pub proof fn law_every_waiting_node_is_reported(queue: Seq<NodeView>)
    ensures
        reports(queue).len() == queue.len(),
        forall|i: int|
            0 <= i < queue.len() ==> (#[trigger] reports(queue)[i]).0 == queue[i].node_id
                && reports(queue)[i].1 == queue[i].cookies && reports(queue)[i].2 == 0,
{
}

/// What is said of a node that has been cleaned up is its number, its cookies and how many weak
/// references remain.
pub proof fn law_cleaned_node_is_told(c: Cleaned)
    ensures
        c@.0 == c.node_id,
        c@.1 == c.cookies@,
        c@.2 == c.remaining_weak,
{
}

} // verus!
