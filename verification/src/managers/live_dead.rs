//! A manager that keeps its nodes on two lists: the live nodes, and the dead ones that wait to be
//! cleaned up. A node moves from the one to the other with its last strong reference.
//!
//! A node is known by its address in the manager's memory.
use vstd::prelude::*;

use crate::chains::{headed, lemma_member_sound, push_head, unlink_head};
use crate::links::{cells, lemma_frame, placed, same_payload, unlinked, Embeds, ListLink, ListNode};
use crate::owned::trusting::{
    law_headed_erase, law_headed_erase_again, law_headed_erase_undoes_push, law_headed_order,
    law_headed_push, HeadedList, HeadedView,
};

verus! {

/// A registered recipient, with the cookie that it is notified with.
pub struct DeathEntry<R> {
    pub cookie: u64,
    pub recipient: R,
}

/// Where a recipient has been registered.
#[derive(Debug, PartialEq, Eq, Structural)]
pub struct DeathHandle {
    pub node: usize,
    pub entry: usize,
}

/// A strong reference to a node.
#[derive(Debug, PartialEq, Eq, Structural)]
pub struct NodeHandle {
    pub node: usize,
}

/// What there is to know of a node.
pub struct NodeView<R> {
    /// The address of the object that the node stands for.
    pub object_ptr: usize,
    pub strong_refs: usize,
    pub weak_refs: usize,
    /// Whether the node has been cleaned up.
    pub freed: bool,
    /// The list of recipients, most recent first.
    pub deaths: HeadedView<DeathEntry<R>>,
}

/// A node.
pub struct BinderNode<R> {
    node_link: ListNode,
    deaths: HeadedList<DeathEntry<R>>,
    strong_refs: usize,
    weak_refs: usize,
    object_ptr: usize,
    freed: bool,
}

impl<R> View for BinderNode<R> {
    type V = NodeView<R>;

    closed spec fn view(&self) -> NodeView<R> {
        NodeView {
            object_ptr: self.object_ptr,
            strong_refs: self.strong_refs,
            weak_refs: self.weak_refs,
            freed: self.freed,
            deaths: self.deaths@,
        }
    }
}

impl<R> Embeds for BinderNode<R> {
    closed spec fn links(self) -> ListNode {
        self.node_link
    }

    closed spec fn relinked(self, links: ListNode) -> Self {
        BinderNode { node_link: links, ..self }
    }

    proof fn relinking(self, a: ListNode, b: ListNode) {
    }

    fn get_links(&self) -> (links: ListNode) {
        self.node_link
    }

    fn set_links(&mut self, links: ListNode) {
        self.node_link = links;
    }
}

impl<R> BinderNode<R> {
    pub closed spec fn wf(self) -> bool {
        self.deaths.wf()
    }

    /// The invariant on the recipients of a node.
    pub proof fn lemma_orderly(self)
        requires
            self.wf(),
        ensures
            self@.orderly(),
    {
        self.deaths.lemma_sound();
    }

    /// Creates a node with one strong reference, on no list.
    pub fn new(object_ptr: usize) -> (node: BinderNode<R>)
        ensures
            node.wf(),
            node@ == NodeView::<R>::fresh(object_ptr),
    {
        BinderNode {
            node_link: ListNode::new(),
            deaths: HeadedList::new(),
            strong_refs: 1,
            weak_refs: 0,
            object_ptr,
            freed: false,
        }
    }
}

impl<R> NodeView<R> {
    /// A node just created.
    pub open spec fn fresh(object_ptr: usize) -> NodeView<R> {
        NodeView {
            object_ptr,
            strong_refs: 1,
            weak_refs: 0,
            freed: false,
            deaths: HeadedView::fresh(),
        }
    }

    /// The list of recipients is one that can be followed.
    pub open spec fn orderly(self) -> bool {
        self.deaths.sound()
    }

    /// The address of an entry that has been registered on this node.
    pub open spec fn issued(self, entry: usize) -> bool {
        entry < self.deaths.items.len()
    }

    /// After `d` has been registered before the others.
    pub open spec fn registered(self, d: DeathEntry<R>) -> NodeView<R> {
        NodeView { deaths: self.deaths.pushed(d), ..self }
    }

    /// After the neighbours that the entry at `entry` names have been joined.
    pub open spec fn withdrawn(self, entry: usize) -> NodeView<R> {
        NodeView { deaths: self.deaths.erased(entry), ..self }
    }

    /// A node that has been cleaned up: it has been freed with all its entries.
    pub open spec fn cleaned(self) -> NodeView<R> {
        NodeView { freed: true, deaths: HeadedView::fresh(), ..self }
    }
}

/// What a manager holds.
pub struct ManagerView<R> {
    /// All nodes that have been created, by address.
    pub nodes: Seq<NodeView<R>>,
    /// The live nodes, most recent first.
    pub live: Seq<usize>,
    /// The dead nodes that wait to be cleaned up, most recent first.
    pub dead: Seq<usize>,
}

impl<R> ManagerView<R> {
    /// With the node at `addr` replaced.
    pub open spec fn with(self, addr: usize, node: NodeView<R>) -> ManagerView<R> {
        ManagerView { nodes: self.nodes.update(addr as int, node), ..self }
    }

    /// A node that has not been cleaned up.
    pub open spec fn extant(self, addr: usize) -> bool {
        addr < self.nodes.len() && !self.nodes[addr as int].freed
    }

    /// A node with strong references.
    pub open spec fn alive(self, addr: usize) -> bool {
        addr < self.nodes.len() && self.nodes[addr as int].strong_refs > 0
    }

    /// After another strong reference to the node at `addr` has been taken.
    pub open spec fn acquired(self, addr: usize) -> ManagerView<R> {
        let node = self.nodes[addr as int];
        self.with(addr, NodeView { strong_refs: (node.strong_refs + 1) as usize, ..node })
    }

    /// After a strong reference to the node at `addr` has been given up.
    pub open spec fn released(self, addr: usize) -> ManagerView<R> {
        let node = self.nodes[addr as int];
        let v = self.with(
            addr,
            NodeView { strong_refs: (node.strong_refs - 1) as usize, ..node },
        );
        if node.strong_refs == 1 {
            ManagerView {
                live: self.live.remove(self.live.index_of(addr)),
                dead: self.dead.insert(0, addr),
                ..v
            }
        } else {
            v
        }
    }

    /// After the first dead node has been cleaned up.
    pub open spec fn one_cleaned(self) -> ManagerView<R> {
        ManagerView {
            dead: self.dead.remove(0),
            ..self.with(self.dead[0], self.nodes[self.dead[0] as int].cleaned())
        }
    }

    /// The nodes after all dead ones have been cleaned up.
    pub open spec fn all_cleaned(self) -> Seq<NodeView<R>> {
        Seq::new(
            self.nodes.len(),
            |a: int|
                if self.dead.contains(a as usize) {
                    self.nodes[a].cleaned()
                } else {
                    self.nodes[a]
                },
        )
    }
}

/// What holds of every manager: no node is twice on a list, the live list holds exactly the nodes
/// with strong references, the dead list the other ones that have not been cleaned up, and the
/// recipients of every node can be followed.
pub open spec fn consistent<R>(v: ManagerView<R>) -> bool {
    &&& arranged(v)
    &&& forall|a: int| 0 <= a < v.nodes.len() ==> (#[trigger] v.nodes[a]).orderly()
}

/// The two lists hold the nodes that belong on them.
pub open spec fn arranged<R>(v: ManagerView<R>) -> bool {
    &&& v.nodes.len() <= usize::MAX
    &&& v.live.no_duplicates()
    &&& v.dead.no_duplicates()
    &&& forall|i: int| 0 <= i < v.live.len() ==> (#[trigger] v.live[i]) < v.nodes.len()
    &&& forall|i: int| 0 <= i < v.dead.len() ==> (#[trigger] v.dead[i]) < v.nodes.len()
    &&& forall|a: int|
        #![trigger v.nodes[a]]
        0 <= a < v.nodes.len() ==> {
            &&& v.live.contains(a as usize) <==> v.nodes[a].strong_refs > 0
            &&& v.dead.contains(a as usize) <==> v.nodes[a].strong_refs == 0 && !v.nodes[a].freed
            &&& v.nodes[a].freed ==> v.nodes[a].strong_refs == 0
        }
}

/// A cleaned up node, with the recipients that are to be notified, in order.
pub struct Cleaned<R> {
    pub node: usize,
    pub due: Vec<DeathEntry<R>>,
}

/// A manager of nodes.
pub struct NodeManager<R> {
    arena: Vec<BinderNode<R>>,
    live_head: ListLink,
    dead_head: ListLink,
    live: Ghost<Seq<usize>>,
    dead: Ghost<Seq<usize>>,
}

impl<R> View for NodeManager<R> {
    type V = ManagerView<R>;

    closed spec fn view(&self) -> ManagerView<R> {
        ManagerView {
            nodes: self.arena@.map_values(|n: BinderNode<R>| n@),
            live: self.live@,
            dead: self.dead@,
        }
    }
}

impl<R> NodeManager<R> {
    pub closed spec fn wf(self) -> bool {
        &&& self.threaded()
        &&& arranged(self@)
    }

    /// The link fields spell out the two lists, which have no node in common.
    spec fn threaded(self) -> bool {
        &&& headed(cells(self.arena@), self.live_head, self.live@)
        &&& headed(cells(self.arena@), self.dead_head, self.dead@)
        &&& forall|i: int|
            0 <= i < self.live@.len() ==> !self.dead@.contains(#[trigger] self.live@[i])
        &&& forall|a: int| 0 <= a < self.arena@.len() ==> (#[trigger] self.arena@[a]).wf()
    }

    /// The invariant on what the manager holds.
    pub proof fn lemma_consistent(self)
        requires
            self.wf(),
        ensures
            consistent(self@),
    {
        assert forall|a: int| 0 <= a < self@.nodes.len() implies (
        #[trigger] self@.nodes[a]).orderly() by {
            self.arena@[a].lemma_orderly();
        }
    }

    /// Creates a manager without nodes.
    pub fn new() -> (manager: NodeManager<R>)
        ensures
            manager.wf(),
            manager@ == (ManagerView::<R> {
                nodes: Seq::empty(),
                live: Seq::empty(),
                dead: Seq::empty(),
            }),
    {
        let manager = NodeManager {
            arena: Vec::new(),
            live_head: None,
            dead_head: None,
            live: Ghost(Seq::empty()),
            dead: Ghost(Seq::empty()),
        };
        assert(manager@.nodes =~= Seq::empty());
        manager
    }

    /// Creates a node for an object, puts it in front of the live nodes and hands out the first
    /// strong reference to it.
    pub fn create_node(&mut self, object_ptr: usize) -> (handle: NodeHandle)
        requires
            old(self).wf(),
        ensures
            final(self).wf(),
            handle.node == old(self)@.nodes.len(),
            final(self)@ == (ManagerView {
                nodes: old(self)@.nodes.push(NodeView::fresh(object_ptr)),
                live: old(self)@.live.insert(0, handle.node),
                dead: old(self)@.dead,
            }),
    {
        let ghost v = old(self)@;
        let ghost m = cells(self.arena@);
        let node: usize = self.arena.len();
        let new: BinderNode<R> = BinderNode::new(object_ptr);
        self.arena.push(new);
        let ghost grown = self.arena@;
        proof {
            assert(grown.len() == self.arena.len());
            lemma_frame(m, cells(grown), None, v.live);
            lemma_frame(m, cells(grown), None, v.dead);
            assert(!v.live.contains(node));
            assert(!v.dead.contains(node));
            assert(headed(cells(grown), self.live_head, v.live) && !v.live.contains(node));
        }
        push_head(&mut self.arena, &mut self.live_head, node);
        self.live = Ghost(v.live.insert(0, node));
        proof {
            let t = v.live.insert(0, node);
            assert forall|i: int| 0 <= i < v.dead.len() implies cells(
                self.arena@,
            )[#[trigger] v.dead[i] as int] == cells(grown)[v.dead[i] as int] by {
                assert(v.dead.contains(v.dead[i]));
                if v.live.len() > 0 {
                    assert(!v.dead.contains(v.live[0]));
                }
            }
            lemma_frame(cells(grown), cells(self.arena@), None, v.dead);
            lemma_views(grown, self.arena@);
            assert(self@.nodes =~= v.nodes.push(new@));
            assert forall|i: int| 0 <= i < t.len() implies !v.dead.contains(#[trigger] t[i]) by {
                if i > 0 {
                    assert(t[i] == v.live[i - 1]);
                }
            }
            lemma_member_after_insert(v.live, node);
            assert forall|a: int| 0 <= a < self@.nodes.len() implies {
                &&& t.contains(a as usize) <==> (#[trigger] self@.nodes[a]).strong_refs > 0
                &&& v.dead.contains(a as usize) <==> self@.nodes[a].strong_refs == 0
                    && !self@.nodes[a].freed
                &&& self@.nodes[a].freed ==> self@.nodes[a].strong_refs == 0
            } by {
                if a < node {
                    assert(self@.nodes[a] == v.nodes[a]);
                }
            }
        }
        NodeHandle { node }
    }

    /// Registers a recipient in front of the others on a node, and hands out where.
    pub fn register_death_recipient(
        &mut self,
        handle: &NodeHandle,
        recipient: R,
        cookie: u64,
    ) -> (registered: DeathHandle)
        requires
            old(self).wf(),
            old(self)@.extant(handle.node),
        ensures
            final(self).wf(),
            registered.node == handle.node,
            registered.entry == old(self)@.nodes[handle.node as int].deaths.items.len(),
            final(self)@ == old(self)@.with(
                handle.node,
                old(self)@.nodes[handle.node as int].registered(
                    (DeathEntry { cookie, recipient }),
                ),
            ),
    {
        let node: usize = handle.node;
        let entry: usize = self.arena[node].deaths.push_front(DeathEntry { cookie, recipient });
        proof {
            lemma_touched(*old(self), *self, node);
        }
        DeathHandle { node, entry }
    }

    /// Withdraws a recipient. Where it has been withdrawn before, the node forgets the others.
    fn unlink(&mut self, handle: &DeathHandle)
        requires
            old(self).wf(),
            old(self)@.extant(handle.node),
            old(self)@.nodes[handle.node as int].issued(handle.entry),
        ensures
            final(self).wf(),
            final(self)@ == old(self)@.with(
                handle.node,
                old(self)@.nodes[handle.node as int].withdrawn(handle.entry),
            ),
    {
        self.arena[handle.node].deaths.erase(handle.entry);
        proof {
            lemma_touched(*old(self), *self, handle.node);
        }
    }

    /// Takes another strong reference to a node that still has one.
    fn acquire_strong(&mut self, handle: &NodeHandle)
        requires
            old(self).wf(),
            old(self)@.alive(handle.node),
            old(self)@.nodes[handle.node as int].strong_refs < usize::MAX,
        ensures
            final(self).wf(),
            final(self)@ == old(self)@.acquired(handle.node),
    {
        let node: usize = handle.node;
        self.arena[node].strong_refs = self.arena[node].strong_refs + 1;
        proof {
            lemma_touched(*old(self), *self, node);
        }
    }

    /// Gives up a strong reference to a node. With the last one the node moves from the live nodes to
    /// the front of the dead ones.
    fn release_strong(&mut self, handle: &NodeHandle)
        requires
            old(self).wf(),
            old(self)@.alive(handle.node),
        ensures
            final(self).wf(),
            final(self)@ == old(self)@.released(handle.node),
    {
        let node: usize = handle.node;
        let ghost v = old(self)@;
        let prev: usize = self.arena[node].strong_refs;
        self.arena[node].strong_refs = prev - 1;
        proof {
            lemma_links_kept(old(self).arena@, self.arena@, node);
            assert(self@.nodes =~= v.nodes.update(node as int, self.arena@[node as int]@));
            assert(v.nodes[node as int].strong_refs == prev);
            assert(v.live.contains(node));
        }
        if prev == 1 {
            self.queue_for_cleanup(node);
            proof {
                let live = self@.live;
                let dead = self@.dead;
                let k = v.live.index_of(node);
                lemma_member_after_remove(v.live, k);
                lemma_member_after_insert(v.dead, node);
                assert(self.arena@.len() == self.arena.len());
                assert forall|i: int| 0 <= i < live.len() implies (#[trigger] live[i])
                    < self@.nodes.len() by {
                    assert(live[i] == v.live[if i < k { i } else { i + 1 }]);
                }
                assert forall|i: int| 0 <= i < dead.len() implies (#[trigger] dead[i])
                    < self@.nodes.len() by {
                    if i > 0 {
                        assert(dead[i] == v.dead[i - 1]);
                    }
                }
                assert forall|a: int| 0 <= a < self@.nodes.len() implies {
                    &&& live.contains(a as usize) <==> (#[trigger] self@.nodes[a]).strong_refs > 0
                    &&& dead.contains(a as usize) <==> self@.nodes[a].strong_refs == 0
                        && !self@.nodes[a].freed
                    &&& self@.nodes[a].freed ==> self@.nodes[a].strong_refs == 0
                } by {
                    assert(v.live.contains(a as usize) <==> v.nodes[a].strong_refs > 0);
                }
            }
        } else {
            proof {
                assert forall|a: int| 0 <= a < self@.nodes.len() implies {
                    &&& v.live.contains(a as usize) <==> (#[trigger] self@.nodes[a]).strong_refs > 0
                    &&& v.dead.contains(a as usize) <==> self@.nodes[a].strong_refs == 0
                        && !self@.nodes[a].freed
                    &&& self@.nodes[a].freed ==> self@.nodes[a].strong_refs == 0
                } by {
                    assert(v.live.contains(a as usize) <==> v.nodes[a].strong_refs > 0);
                }
            }
        }
    }

    /// Moves a node from the live nodes to the front of the dead ones.
    fn queue_for_cleanup(&mut self, node: usize)
        requires
            old(self).threaded(),
            old(self)@.live.contains(node),
        ensures
            final(self).threaded(),
            final(self)@ == (ManagerView {
                live: old(self)@.live.remove(old(self)@.live.index_of(node)),
                dead: old(self)@.dead.insert(0, node),
                ..old(self)@
            }),
    {
        let ghost live = self.live@;
        let ghost dead = self.dead@;
        let ghost k = live.index_of(node);
        let ghost m0 = self.arena@;
        proof {
            lemma_member_sound(cells(m0), None, live, node);
            assert(live[k] == node);
            assert(placed(cells(m0), None, live, k));
            assert(headed(cells(m0), self.live_head, live));
        }
        unlink_head(&mut self.arena, &mut self.live_head, node);
        let ghost m1 = self.arena@;
        proof {
            assert(headed(cells(m1), self.live_head, live.remove(k)));
            assert forall|i: int| 0 <= i < dead.len() implies cells(
                m1,
            )[#[trigger] dead[i] as int] == cells(m0)[dead[i] as int] by {
                assert(dead.contains(dead[i]));
                assert(!dead.contains(live[k]));
                if k > 0 {
                    assert(!dead.contains(live[k - 1]));
                }
                if k + 1 < live.len() {
                    assert(!dead.contains(live[k + 1]));
                }
            }
            lemma_frame(cells(m0), cells(m1), None, dead);
            assert(!dead.contains(live[k]));
            assert(headed(cells(m1), self.dead_head, dead) && !dead.contains(node));
        }
        push_head(&mut self.arena, &mut self.dead_head, node);
        self.live = Ghost(live.remove(k));
        self.dead = Ghost(dead.insert(0, node));
        proof {
            let m2 = self.arena@;
            let t = live.remove(k);
            lemma_member_after_remove(live, k);
            lemma_member_after_insert(dead, node);
            assert forall|i: int| 0 <= i < t.len() implies cells(m2)[#[trigger] t[i] as int]
                == cells(m1)[t[i] as int] && !self.dead@.contains(t[i]) by {
                assert(t.contains(t[i]));
                assert(t[i] == live[if i < k { i } else { i + 1 }]);
                if dead.len() > 0 {
                    assert(dead.contains(dead[0]));
                }
            }
            lemma_frame(cells(m1), cells(m2), None, t);
            lemma_views(m0, m1);
            lemma_views(m1, m2);
            assert(self@.nodes =~= old(self)@.nodes);
        }
    }

    /// Cleans up the first dead node, if there is one, and hands out the recipients to be notified.
    pub fn next_dead(&mut self) -> (cleaned: Option<Cleaned<R>>)
        requires
            old(self).wf(),
        ensures
            final(self).wf(),
            cleaned is None <==> old(self)@.dead.len() == 0,
            cleaned is None ==> final(self)@ == old(self)@,
            cleaned matches Some(c) ==> {
                &&& c.node == old(self)@.dead[0]
                &&& c.due@ == old(self)@.nodes[c.node as int].deaths.listed()
                &&& final(self)@ == old(self)@.one_cleaned()
            },
    {
        let ghost v = old(self)@;
        let node: usize = match self.dead_head {
            Some(node) => node,
            None => {
                return None;
            },
        };
        let ghost m0 = self.arena@;
        proof {
            assert(v.dead.contains(v.dead[0]));
            lemma_member_sound(cells(m0), None, v.dead, node);
            assert(placed(cells(m0), None, v.dead, 0));
            assert(headed(cells(m0), self.dead_head, v.dead) && v.dead[0] == node);
        }
        unlink_head(&mut self.arena, &mut self.dead_head, node);
        self.dead = Ghost(v.dead.remove(0));
        let ghost m1 = self.arena@;
        proof {
            assert(headed(cells(m1), self.dead_head, v.dead.remove(0)));
            assert forall|i: int| 0 <= i < v.live.len() implies cells(
                m1,
            )[#[trigger] v.live[i] as int] == cells(m0)[v.live[i] as int] by {
                assert(!v.dead.contains(v.live[i]));
                if v.dead.len() > 1 {
                    assert(v.dead.contains(v.dead[1]));
                }
            }
            lemma_frame(cells(m0), cells(m1), None, v.live);
            lemma_views(m0, m1);
            lemma_member_after_remove(v.dead, 0);
            assert forall|i: int| 0 <= i < v.live.len() implies !self.dead@.contains(
                #[trigger] v.live[i],
            ) by {
                assert(!v.dead.contains(v.live[i]));
            }
            assert(self@.nodes =~= v.nodes);
        }
        let due: Vec<DeathEntry<R>> = self.cleanup_single_node(node);
        proof {
            assert(self@.nodes =~= v.nodes.update(node as int, v.nodes[node as int].cleaned()));
            let dead = v.dead.remove(0);
            assert forall|i: int| 0 <= i < dead.len() implies (#[trigger] dead[i])
                < self@.nodes.len() by {
                assert(dead[i] == v.dead[i + 1]);
            }
            assert forall|a: int| 0 <= a < self@.nodes.len() implies {
                &&& v.live.contains(a as usize) <==> (#[trigger] self@.nodes[a]).strong_refs > 0
                &&& dead.contains(a as usize) <==> self@.nodes[a].strong_refs == 0
                    && !self@.nodes[a].freed
                &&& self@.nodes[a].freed ==> self@.nodes[a].strong_refs == 0
            } by {
                assert(v.live.contains(a as usize) <==> v.nodes[a].strong_refs > 0);
            }
        }
        Some(Cleaned { node, due })
    }

    /// Hands out the recipients on the list of a node, to be notified in order, and frees the node.
    fn cleanup_single_node(&mut self, node: usize) -> (due: Vec<DeathEntry<R>>)
        requires
            old(self).threaded(),
            node < old(self)@.nodes.len(),
        ensures
            final(self).threaded(),
            due@ == old(self)@.nodes[node as int].deaths.listed(),
            final(self)@ == old(self)@.with(node, old(self)@.nodes[node as int].cleaned()),
    {
        let due: Vec<DeathEntry<R>> = self.arena[node].deaths.take_all();
        self.arena[node].freed = true;
        proof {
            let before = old(self).arena@;
            assert(self.arena@ =~= before.update(node as int, self.arena@[node as int]));
            lemma_links_kept(before, self.arena@, node);
            assert(self@.nodes =~= old(self)@.nodes.update(
                node as int,
                old(self)@.nodes[node as int].cleaned(),
            ));
        }
        due
    }

    /// Cleans up all dead nodes, first one first, and hands out for each the recipients to be
    /// notified.
    pub fn process_dead(&mut self) -> (cleaned: Vec<Cleaned<R>>)
        requires
            old(self).wf(),
        ensures
            final(self).wf(),
            cleaned@.len() == old(self)@.dead.len(),
            forall|i: int|
                0 <= i < cleaned@.len() ==> {
                    &&& (#[trigger] cleaned@[i]).node == old(self)@.dead[i]
                    &&& cleaned@[i].due@ == old(
                        self,
                    )@.nodes[old(self)@.dead[i] as int].deaths.listed()
                },
            final(self)@ == (ManagerView {
                nodes: old(self)@.all_cleaned(),
                live: old(self)@.live,
                dead: Seq::empty(),
            }),
    {
        let ghost v = old(self)@;
        let mut cleaned: Vec<Cleaned<R>> = Vec::new();
        assert(v.dead.skip(0) =~= v.dead);
        loop
            invariant
                arranged(v),
                self.wf(),
                cleaned@.len() <= v.dead.len(),
                self@.live == v.live,
                self@.dead == v.dead.skip(cleaned@.len() as int),
                self@.nodes.len() == v.nodes.len(),
                forall|a: int|
                    0 <= a < v.nodes.len() ==> (#[trigger] self@.nodes[a]) == if v.dead.take(
                        cleaned@.len() as int,
                    ).contains(a as usize) {
                        v.nodes[a].cleaned()
                    } else {
                        v.nodes[a]
                    },
                forall|i: int|
                    0 <= i < cleaned@.len() ==> {
                        &&& (#[trigger] cleaned@[i]).node == v.dead[i]
                        &&& cleaned@[i].due@ == v.nodes[v.dead[i] as int].deaths.listed()
                    },
            ensures
                cleaned@.len() == v.dead.len(),
                self@.dead.len() == 0,
            decreases v.dead.len() - cleaned@.len(),
        {
            let ghost n = cleaned@.len() as int;
            let ghost w = self@;
            match self.next_dead() {
                None => {
                    break;
                },
                Some(one) => {
                    cleaned.push(one);
                    proof {
                        let t = v.dead.take(n);
                        let u = v.dead.take(n + 1);
                        let node = v.dead[n];
                        assert(w.dead[0] == node);
                        assert(!t.contains(node)) by {
                            if t.contains(node) {
                                let q = t.index_of(node);
                                assert(v.dead[q] == v.dead[n]);
                            }
                        }
                        assert(w.nodes[node as int] == v.nodes[node as int]);
                        assert(self@.dead =~= v.dead.skip(n + 1));
                        assert forall|a: int| 0 <= a < v.nodes.len() implies (
                        #[trigger] self@.nodes[a]) == if u.contains(a as usize) {
                            v.nodes[a].cleaned()
                        } else {
                            v.nodes[a]
                        } by {
                            assert(w.nodes[a] == if t.contains(a as usize) {
                                v.nodes[a].cleaned()
                            } else {
                                v.nodes[a]
                            });
                            assert(u[n] == node);
                            if a != node {
                                assert(self@.nodes[a] == w.nodes[a]);
                                if u.contains(a as usize) {
                                    let q = u.index_of(a as usize);
                                    assert(t[q] == a as usize);
                                }
                                if t.contains(a as usize) {
                                    let q = t.index_of(a as usize);
                                    assert(u[q] == a as usize);
                                }
                            } else {
                                assert(u.contains(node));
                            }
                        }
                    }
                },
            }
        }
        proof {
            assert(v.dead.take(v.dead.len() as int) =~= v.dead);
            assert(self@.nodes =~= v.all_cleaned());
            assert(self@.dead =~= Seq::empty());
        }
        cleaned
    }
}

impl NodeHandle {
    /// The object that the node stands for.
    pub fn object_ptr<R>(&self, manager: &NodeManager<R>) -> (object_ptr: usize)
        requires
            manager.wf(),
            manager@.extant(self.node),
        ensures
            object_ptr == manager@.nodes[self.node as int].object_ptr,
    {
        manager.arena[self.node].object_ptr
    }

    /// Takes another strong reference to the node, which must still have one.
    pub fn acquire_strong<R>(&self, manager: &mut NodeManager<R>)
        requires
            old(manager).wf(),
            old(manager)@.alive(self.node),
            old(manager)@.nodes[self.node as int].strong_refs < usize::MAX,
        ensures
            final(manager).wf(),
            final(manager)@ == old(manager)@.acquired(self.node),
    {
        manager.acquire_strong(self);
    }

    /// Gives up a strong reference to the node. With the last one the node moves from the live nodes
    /// to the front of the dead ones.
    pub fn release_strong<R>(&self, manager: &mut NodeManager<R>)
        requires
            old(manager).wf(),
            old(manager)@.alive(self.node),
        ensures
            final(manager).wf(),
            final(manager)@ == old(manager)@.released(self.node),
    {
        manager.release_strong(self);
    }
}

impl DeathHandle {
    /// Withdraws the recipient. Where it has been withdrawn before, the node forgets the others.
    pub fn unlink<R>(&self, manager: &mut NodeManager<R>)
        requires
            old(manager).wf(),
            old(manager)@.extant(self.node),
            old(manager)@.nodes[self.node as int].issued(self.entry),
        ensures
            final(manager).wf(),
            final(manager)@ == old(manager)@.with(
                self.node,
                old(manager)@.nodes[self.node as int].withdrawn(self.entry),
            ),
    {
        manager.unlink(self);
    }
}

/// Relinking leaves the rest of the nodes alone.
proof fn lemma_views<R>(before: Seq<BinderNode<R>>, after: Seq<BinderNode<R>>)
    requires
        same_payload(before, after),
        forall|a: int| 0 <= a < before.len() ==> (#[trigger] before[a]).wf(),
    ensures
        forall|a: int| 0 <= a < after.len() ==> (#[trigger] after[a]).wf(),
        forall|a: int| 0 <= a < after.len() ==> (#[trigger] after[a])@ == before[a]@,
{
    assert forall|a: int| 0 <= a < after.len() implies (#[trigger] after[a]).wf() && after[a]@
        == before[a]@ by {
        assert(after[a] == before[a].relinked(after[a].links()));
        assert(before[a].wf());
    }
}

/// Changing a node but for its link fields leaves all link fields alone.
proof fn lemma_links_kept<R>(before: Seq<BinderNode<R>>, after: Seq<BinderNode<R>>, node: usize)
    requires
        node < before.len(),
        after == before.update(node as int, after[node as int]),
        after[node as int].links() == before[node as int].links(),
    ensures
        cells(after) == cells(before),
{
    assert(cells(after) =~= cells(before));
}

/// Changing a node, but neither its link fields nor what decides which list it is on.
proof fn lemma_touched<R>(before: NodeManager<R>, after: NodeManager<R>, node: usize)
    requires
        before.wf(),
        node < before.arena@.len(),
        after.arena@ == before.arena@.update(node as int, after.arena@[node as int]),
        after.arena@[node as int].wf(),
        after.arena@[node as int].links() == before.arena@[node as int].links(),
        after.arena@[node as int]@.freed == before.arena@[node as int]@.freed,
        after.arena@[node as int]@.strong_refs > 0 <==> before.arena@[node as int]@.strong_refs > 0,
        after.live_head == before.live_head,
        after.dead_head == before.dead_head,
        after.live == before.live,
        after.dead == before.dead,
    ensures
        after.wf(),
        after@ == before@.with(node, after.arena@[node as int]@),
{
    lemma_links_kept(before.arena@, after.arena@, node);
    let v = before@;
    assert(after@.nodes =~= v.nodes.update(node as int, after.arena@[node as int]@));
    assert forall|a: int| 0 <= a < after@.nodes.len() implies {
        &&& v.live.contains(a as usize) <==> (#[trigger] after@.nodes[a]).strong_refs > 0
        &&& v.dead.contains(a as usize) <==> after@.nodes[a].strong_refs == 0
            && !after@.nodes[a].freed
        &&& after@.nodes[a].freed ==> after@.nodes[a].strong_refs == 0
    } by {
        assert(v.live.contains(a as usize) <==> v.nodes[a].strong_refs > 0);
    }
}

proof fn lemma_member_after_insert(s: Seq<usize>, x: usize)
    ensures
        forall|y: usize| #[trigger] s.insert(0, x).contains(y) <==> y == x || s.contains(y),
{
    let t = s.insert(0, x);
    assert forall|y: usize| #[trigger] t.contains(y) <==> y == x || s.contains(y) by {
        assert(t[0] == x);
        if t.contains(y) {
            let q = t.index_of(y);
            if q > 0 {
                assert(s[q - 1] == y);
            }
        }
        if s.contains(y) {
            let q = s.index_of(y);
            assert(t[q + 1] == y);
        }
    }
}

proof fn lemma_member_after_remove(s: Seq<usize>, i: int)
    requires
        s.no_duplicates(),
        0 <= i < s.len(),
    ensures
        s.remove(i).no_duplicates(),
        forall|y: usize| #[trigger] s.remove(i).contains(y) <==> y != s[i] && s.contains(y),
{
    let t = s.remove(i);
    assert forall|y: usize| #[trigger] t.contains(y) <==> y != s[i] && s.contains(y) by {
        if t.contains(y) {
            let q = t.index_of(y);
            assert(t[q] == s[if q < i { q } else { q + 1 }]);
        }
        if y != s[i] && s.contains(y) {
            let q = s.index_of(y);
            assert(t[if q < i { q } else { q - 1 }] == y);
        }
    }
}

/// Withdrawing a recipient right after it has been registered on a node whose list is in order leaves
/// the recipients that were there before.
pub proof fn law_withdrawal_undoes_registration<R>(
    n: NodeView<R>,
    s: Seq<usize>,
    d: DeathEntry<R>,
)
    requires
        n.orderly(),
        n.deaths.holds(s),
    ensures
        n.registered(d).withdrawn(n.deaths.next_address()).deaths.holds(s),
        n.registered(d).withdrawn(n.deaths.next_address()).deaths.listed() == n.deaths.listed(),
{
    law_headed_erase_undoes_push(n.deaths, s, d);
}

/// Withdrawing a recipient that is on a list in order takes it out, so that it is not delivered, and leaves
/// all others in their order.
pub proof fn law_withdrawn_is_not_delivered<R>(n: NodeView<R>, s: Seq<usize>, i: int)
    requires
        n.deaths.holds(s),
        0 <= i < s.len(),
    ensures
        n.withdrawn(s[i]).deaths.holds(s.remove(i)),
        n.withdrawn(s[i]).deaths.listed() == n.deaths.listed().remove(i),
{
    law_headed_erase(n.deaths, s, i);
}

/// Withdrawing a recipient that has already been withdrawn makes the node forget all its recipients.
pub proof fn law_withdrawing_again_forgets<R>(n: NodeView<R>, entry: usize)
    requires
        n.orderly(),
        n.issued(entry),
        n.deaths.cells[entry as int] == unlinked(),
    ensures
        n.withdrawn(entry).deaths.listed() == Seq::<DeathEntry<R>>::empty(),
{
    law_headed_erase_again(n.deaths, entry);
}

/// No node is on both lists.
pub proof fn law_lists_are_disjoint<R>(v: ManagerView<R>, addr: usize)
    requires
        consistent(v),
        addr < v.nodes.len(),
    ensures
        !(v.live.contains(addr) && v.dead.contains(addr)),
{
    assert(v.live.contains(addr) <==> v.nodes[addr as int].strong_refs > 0);
}

/// Giving up a strong reference right after it has been taken changes nothing.
pub proof fn law_release_undoes_acquire<R>(v: ManagerView<R>, addr: usize)
    requires
        v.alive(addr),
        v.nodes[addr as int].strong_refs < usize::MAX,
    ensures
        v.acquired(addr).released(addr) == v,
{
    assert(v.acquired(addr).released(addr).nodes =~= v.nodes);
}

/// A node that has lost its last strong reference is cleaned up by the next clean-up, and a node
/// with strong references is left alone by it.
pub proof fn law_cleanup_takes_exactly_the_dead<R>(v: ManagerView<R>, addr: usize)
    requires
        consistent(v),
        addr < v.nodes.len(),
    ensures
        v.nodes[addr as int].strong_refs == 0 ==> v.all_cleaned()[addr as int].freed,
        v.nodes[addr as int].strong_refs > 0 ==> v.all_cleaned()[addr as int]
            == v.nodes[addr as int],
{
    assert(v.live.contains(addr) <==> v.nodes[addr as int].strong_refs > 0);
}

/// A node starts with one strong reference, with what it was created for, and without recipients.
pub proof fn law_fresh_node_is_alive<R>(object_ptr: usize)
    ensures
        NodeView::<R>::fresh(object_ptr).object_ptr == object_ptr,
        NodeView::<R>::fresh(object_ptr).strong_refs == 1,
        NodeView::<R>::fresh(object_ptr).weak_refs == 0,
        !NodeView::<R>::fresh(object_ptr).freed,
        NodeView::<R>::fresh(object_ptr).deaths.items.len() == 0,
        NodeView::<R>::fresh(object_ptr).deaths.listed().len() == 0,
        NodeView::<R>::fresh(object_ptr).orderly(),
{
    law_headed_order(HeadedView::<DeathEntry<R>>::fresh(), Seq::empty());
}

/// Registering a recipient, and withdrawing one, changes nothing of a node but its list. On a list in
/// order the recipient comes to be listed before the others, and the one at a position is taken out.
pub proof fn law_registration_touches_only_the_list<R>(
    node: NodeView<R>,
    d: DeathEntry<R>,
    order: Seq<usize>,
    i: int,
)
    requires
        node.orderly(),
        node.deaths.holds(order),
        0 <= i < order.len(),
    ensures
        node.registered(d).deaths.listed() == node.deaths.listed().insert(0, d),
        node.registered(d).deaths.items == node.deaths.items.push(d),
        (NodeView { deaths: node.deaths, ..node.registered(d) }) == node,
        node.withdrawn(order[i]).deaths.listed() == node.deaths.listed().remove(i),
        node.withdrawn(order[i]).deaths.items == node.deaths.items,
        (NodeView { deaths: node.deaths, ..node.withdrawn(order[i]) }) == node,
        node.issued(order[i]),
        forall|entry: usize| #[trigger]
            node.registered(d).issued(entry) <==> node.issued(entry) || entry
                == node.deaths.items.len(),
{
    law_headed_push(node.deaths, order, d);
    law_headed_erase(node.deaths, order, i);
}

/// A node that has been cleaned up is freed and has no recipient. Its counts, and what it was created
/// for, stay.
pub proof fn law_cleaned_node_is_empty<R>(node: NodeView<R>)
    ensures
        node.cleaned().freed,
        node.cleaned().deaths.items.len() == 0,
        node.cleaned().deaths.listed().len() == 0,
        (NodeView { freed: node.freed, deaths: node.deaths, ..node.cleaned() }) == node,
{
    law_headed_order(HeadedView::<DeathEntry<R>>::fresh(), Seq::empty());
}

/// Replacing a node touches no other node and neither list.
pub proof fn law_one_node_is_replaced<R>(v: ManagerView<R>, addr: usize, node: NodeView<R>)
    requires
        addr < v.nodes.len(),
    ensures
        v.with(addr, node).nodes.len() == v.nodes.len(),
        v.with(addr, node).nodes[addr as int] == node,
        forall|b: int|
            0 <= b < v.nodes.len() && b != addr ==> #[trigger] v.with(addr, node).nodes[b]
                == v.nodes[b],
        v.with(addr, node).live == v.live,
        v.with(addr, node).dead == v.dead,
{
}

/// Taking a strong reference adds one to the count of that node, changes nothing else, and leaves it
/// alive.
pub proof fn law_acquire_adds_one<R>(v: ManagerView<R>, addr: usize)
    requires
        addr < v.nodes.len(),
        0 < v.nodes[addr as int].strong_refs < usize::MAX,
    ensures
        v.alive(addr),
        v.acquired(addr).nodes.len() == v.nodes.len(),
        v.acquired(addr).nodes[addr as int].strong_refs == v.nodes[addr as int].strong_refs + 1,
        (NodeView {
            strong_refs: v.nodes[addr as int].strong_refs,
            ..v.acquired(addr).nodes[addr as int]
        }) == v.nodes[addr as int],
        forall|b: int|
            0 <= b < v.nodes.len() && b != addr ==> #[trigger] v.acquired(addr).nodes[b]
                == v.nodes[b],
        v.acquired(addr).live == v.live,
        v.acquired(addr).dead == v.dead,
        v.acquired(addr).alive(addr),
{
}

/// Giving up a strong reference takes one off the count of that node. With the last one the node is
/// taken off the live list, where the others keep their order, and put first on the dead one. Until
/// then both lists stay as they are. No other node changes.
pub proof fn law_release_takes_one<R>(v: ManagerView<R>, addr: usize)
    requires
        consistent(v),
        addr < v.nodes.len(),
        v.nodes[addr as int].strong_refs > 0,
    ensures
        v.released(addr).nodes.len() == v.nodes.len(),
        v.released(addr).nodes[addr as int].strong_refs == v.nodes[addr as int].strong_refs - 1,
        (NodeView {
            strong_refs: v.nodes[addr as int].strong_refs,
            ..v.released(addr).nodes[addr as int]
        }) == v.nodes[addr as int],
        forall|b: int|
            0 <= b < v.nodes.len() && b != addr ==> #[trigger] v.released(addr).nodes[b]
                == v.nodes[b],
        v.nodes[addr as int].strong_refs > 1 ==> v.released(addr).live == v.live && v.released(
            addr,
        ).dead == v.dead && v.released(addr).alive(addr),
        v.nodes[addr as int].strong_refs == 1 ==> {
            &&& !v.released(addr).live.contains(addr)
            &&& !v.released(addr).alive(addr)
            &&& v.released(addr).extant(addr)
            &&& v.released(addr).dead.len() == v.dead.len() + 1
            &&& v.released(addr).dead[0] == addr
            &&& v.released(addr).dead.skip(1) == v.dead
            &&& exists|i: int|
                0 <= i < v.live.len() && v.live[i] == addr && v.released(addr).live
                    == #[trigger] v.live.remove(i)
        },
{
    assert(v.live.contains(addr) <==> v.nodes[addr as int].strong_refs > 0);
    let i = v.live.index_of(addr);
    if v.nodes[addr as int].strong_refs == 1 {
        lemma_member_after_remove(v.live, i);
        assert(v.released(addr).dead.skip(1) =~= v.dead);
        assert(v.released(addr).live == v.live.remove(i));
    }
}

/// Cleaning up one node takes the first off the dead list, frees it and changes no other node; cleaning
/// up all of them does so to each node on the dead list.
pub proof fn law_cleanup_spares_the_others<R>(v: ManagerView<R>)
    requires
        consistent(v),
    ensures
        v.dead.len() > 0 ==> {
            &&& v.one_cleaned().nodes.len() == v.nodes.len()
            &&& v.one_cleaned().nodes[v.dead[0] as int].freed
            &&& v.one_cleaned().nodes[v.dead[0] as int].deaths.listed().len() == 0
            &&& !v.one_cleaned().extant(v.dead[0])
            &&& v.one_cleaned().live == v.live
            &&& v.one_cleaned().dead == v.dead.skip(1)
            &&& forall|b: int|
                0 <= b < v.nodes.len() && b != v.dead[0] ==> #[trigger] v.one_cleaned().nodes[b]
                    == v.nodes[b]
        },
        v.all_cleaned().len() == v.nodes.len(),
        forall|a: usize|
            a < v.nodes.len() && v.dead.contains(a) ==> {
                let after = #[trigger] v.all_cleaned()[a as int];
                &&& after.freed
                &&& after.deaths.items.len() == 0
                &&& after.deaths.listed().len() == 0
                &&& (NodeView {
                    freed: v.nodes[a as int].freed,
                    deaths: v.nodes[a as int].deaths,
                    ..after
                }) == v.nodes[a as int]
            },
        forall|a: usize|
            a < v.nodes.len() && !v.dead.contains(a) ==> #[trigger] v.all_cleaned()[a as int]
                == v.nodes[a as int],
{
    law_headed_order(HeadedView::<DeathEntry<R>>::fresh(), Seq::empty());
    if v.dead.len() > 0 {
        assert(v.one_cleaned().dead =~= v.dead.skip(1));
    }
}

/// A node is extant until it has been cleaned up, and alive while it has a strong reference; a node
/// that is alive is extant.
pub proof fn law_alive_nodes_are_extant<R>(v: ManagerView<R>, addr: usize)
    requires
        consistent(v),
        addr < v.nodes.len(),
    ensures
        v.nodes[addr as int].strong_refs > 0 ==> v.alive(addr) && v.extant(addr),
        v.nodes[addr as int].strong_refs == 0 ==> !v.alive(addr),
        v.extant(addr) <==> v.live.contains(addr) || v.dead.contains(addr),
        !v.extant(addr) <==> v.nodes[addr as int].freed,
{
    assert(v.live.contains(addr) <==> v.nodes[addr as int].strong_refs > 0);
}

} // verus!
