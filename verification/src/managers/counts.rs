//! A manager of nodes with strong and weak counts. A node is queued for clean-up once, and freed when
//! no reference of either kind is left.
//!
//! A node is known by its address in the manager's memory; handles carry that address.
use vstd::prelude::*;

use crate::chains::{lemma_filter_members, lemma_filter_step};
use crate::links::unlinked;
use crate::owned::trusting::{
    law_tailed_erase, law_tailed_erase_again, law_tailed_erase_undoes_push, law_tailed_order,
    law_tailed_push, TailedList, TailedView,
};

verus! {

/// A recipient, known by its cookie.
#[derive(Clone, Copy, Debug, PartialEq, Eq, Structural)]
pub struct DeathRecipient {
    pub cookie: usize,
}

impl DeathRecipient {
    pub fn new(cookie: usize) -> (recipient: DeathRecipient)
        ensures
            recipient == (DeathRecipient { cookie }),
    {
        DeathRecipient { cookie }
    }
}

/// What there is to know of a node.
pub struct NodeView {
    pub strong_count: usize,
    pub weak_count: usize,
    pub is_dead: bool,
    /// Whether the node has been queued for clean-up.
    pub queued: bool,
    /// Whether the node has been freed.
    pub freed: bool,
    /// The list of recipients. A recipient is known by its address, its link.
    pub deaths: TailedView<DeathRecipient>,
}

/// A count with one more reference, from the largest one back to zero.
pub open spec fn one_more(count: usize) -> usize {
    if count == usize::MAX {
        0
    } else {
        (count + 1) as usize
    }
}

/// A count with one reference less, from zero back to the largest one.
pub open spec fn one_less(count: usize) -> usize {
    if count == 0 {
        usize::MAX
    } else {
        (count - 1) as usize
    }
}

impl NodeView {
    /// After a strong reference has been given up. With the last one the node dies, and its
    /// recipients are taken off.
    pub open spec fn strong_dropped(self) -> NodeView {
        NodeView {
            strong_count: one_less(self.strong_count),
            is_dead: self.is_dead || self.strong_count == 1,
            deaths: if self.strong_count == 1 && !self.is_dead {
                self.deaths.emptied()
            } else {
                self.deaths
            },
            ..self
        }
    }

    /// The recipients that are notified when a strong reference is given up.
    pub open spec fn due(self) -> Seq<DeathRecipient> {
        if self.strong_count == 1 && !self.is_dead {
            self.deaths.listed()
        } else {
            Seq::empty()
        }
    }

    /// The list of recipients is one that can be followed.
    pub open spec fn orderly(self) -> bool {
        self.deaths.sound()
    }

    /// A link that a recipient of this node has been given.
    pub open spec fn issued(self, link: usize) -> bool {
        link < self.deaths.items.len()
    }

    /// After `d` has been registered behind the others.
    pub open spec fn registered(self, d: DeathRecipient) -> NodeView {
        NodeView { deaths: self.deaths.pushed(d), ..self }
    }

    /// After the neighbours that the recipient at `link` names have been joined.
    pub open spec fn withdrawn(self, link: usize) -> NodeView {
        NodeView { deaths: self.deaths.erased(link), ..self }
    }

    /// No reference of either kind is left.
    pub open spec fn unreferenced(self) -> bool {
        self.strong_count == 0 && self.weak_count == 0
    }
}

/// A node.
pub struct BinderNode {
    strong_count: usize,
    weak_count: usize,
    is_dead: bool,
    queued: bool,
    freed: bool,
    deaths: TailedList<DeathRecipient>,
}

impl View for BinderNode {
    type V = NodeView;

    closed spec fn view(&self) -> NodeView {
        NodeView {
            strong_count: self.strong_count,
            weak_count: self.weak_count,
            is_dead: self.is_dead,
            queued: self.queued,
            freed: self.freed,
            deaths: self.deaths@,
        }
    }
}

impl BinderNode {
    pub closed spec fn wf(self) -> bool {
        self.deaths.wf()
    }

    /// The invariant on the recipients of a node.
    pub proof fn lemma_orderly(self)
        requires
            self.wf(),
        ensures
            self@.orderly(),
    {
        self.deaths.lemma_sound();
    }

    /// Creates a live node without references.
    pub fn new() -> (node: BinderNode)
        ensures
            node.wf(),
            node@ == (NodeView {
                strong_count: 0,
                weak_count: 0,
                is_dead: false,
                queued: false,
                freed: false,
                deaths: TailedView::fresh(),
            }),
    {
        BinderNode {
            strong_count: 0,
            weak_count: 0,
            is_dead: false,
            queued: false,
            freed: false,
            deaths: TailedList::new(),
        }
    }

    /// Takes a strong reference. The count wraps around.
    pub fn inc_strong(&mut self)
        requires
            old(self).wf(),
        ensures
            final(self).wf(),
            final(self)@ == (NodeView {
                strong_count: one_more(old(self)@.strong_count),
                ..old(self)@
            }),
    {
        self.strong_count = self.strong_count.wrapping_add(1);
    }

    /// Takes a weak reference. The count wraps around.
    pub fn inc_weak(&mut self)
        requires
            old(self).wf(),
        ensures
            final(self).wf(),
            final(self)@ == (NodeView { weak_count: one_more(old(self)@.weak_count), ..old(self)@ }),
    {
        self.weak_count = self.weak_count.wrapping_add(1);
    }

    /// Empties the list of recipients and hands out those that were on it, in order.
    pub fn notify_deaths(&mut self) -> (due: Vec<DeathRecipient>)
        requires
            old(self).wf(),
        ensures
            final(self).wf(),
            due@ == old(self)@.deaths.listed(),
            final(self)@ == (NodeView { deaths: old(self)@.deaths.emptied(), ..old(self)@ }),
    {
        let due: Vec<DeathRecipient> = self.deaths.listed();
        self.deaths.clear();
        due
    }

    /// Gives up a strong reference. The count wraps around. With the last one a live node dies and
    /// its recipients are handed out in order. Says whether the node is to be queued for clean-up.
    fn dec_strong(&mut self) -> (outcome: (bool, Vec<DeathRecipient>))
        requires
            old(self).wf(),
        ensures
            final(self).wf(),
            outcome.0 == (old(self)@.strong_count == 1),
            outcome.1@ == old(self)@.due(),
            final(self)@ == old(self)@.strong_dropped(),
    {
        let prev: usize = self.strong_count;
        self.strong_count = prev.wrapping_sub(1);
        if prev == 1 {
            if !self.is_dead {
                self.is_dead = true;
                return (true, self.notify_deaths());
            }
            return (true, Vec::new());
        }
        (false, Vec::new())
    }

    /// Gives up a weak reference. The count wraps around. Says whether it was the last one.
    fn dec_weak(&mut self) -> (last: bool)
        requires
            old(self).wf(),
        ensures
            final(self).wf(),
            last == (old(self)@.weak_count == 1),
            final(self)@ == (NodeView { weak_count: one_less(old(self)@.weak_count), ..old(self)@ }),
    {
        let prev: usize = self.weak_count;
        self.weak_count = prev.wrapping_sub(1);
        prev == 1
    }

    /// Registers a recipient behind the others and hands out its link.
    pub fn add_death_recipient(&mut self, recip: DeathRecipient) -> (link: usize)
        requires
            old(self).wf(),
        ensures
            final(self).wf(),
            link == old(self)@.deaths.items.len(),
            final(self)@ == old(self)@.registered(recip),
    {
        self.deaths.push_back(recip)
    }

    /// Withdraws the recipient at a link. Where it has been withdrawn before, the list forgets the
    /// others.
    pub fn remove_death_recipient(&mut self, link: usize)
        requires
            old(self).wf(),
            old(self)@.issued(link),
        ensures
            final(self).wf(),
            final(self)@ == old(self)@.withdrawn(link),
    {
        self.deaths.erase(link);
    }
}

/// A strong reference to a node.
#[derive(Debug, PartialEq, Eq, Structural)]
pub struct StrongHandle {
    pub node: usize,
}

/// A weak reference to a node.
#[derive(Debug, PartialEq, Eq, Structural)]
pub struct WeakHandle {
    pub node: usize,
}

impl StrongHandle {
    /// The node that the reference leads to.
    pub fn node<'a>(&self, manager: &'a BinderNodeManager) -> (node: &'a BinderNode)
        requires
            manager.wf(),
            self.node < manager@.arena.len(),
        ensures
            node.wf(),
            node@ == manager@.arena[self.node as int],
    {
        manager.node(self.node)
    }

    /// Hands out a weak reference to the same node.
    pub fn upgrade_to_weak(&self, manager: &mut BinderNodeManager) -> (handle: WeakHandle)
        requires
            old(manager).wf(),
            old(manager)@.extant(self.node),
        ensures
            final(manager).wf(),
            handle.node == self.node,
            final(manager)@ == old(manager)@.with(
                self.node,
                NodeView {
                    weak_count: one_more(old(manager)@.arena[self.node as int].weak_count),
                    ..old(manager)@.arena[self.node as int]
                },
            ),
    {
        manager.new_weak_handle(self)
    }
}

impl WeakHandle {
    /// The node that the reference leads to.
    pub fn node<'a>(&self, manager: &'a BinderNodeManager) -> (node: &'a BinderNode)
        requires
            manager.wf(),
            self.node < manager@.arena.len(),
        ensures
            node.wf(),
            node@ == manager@.arena[self.node as int],
    {
        manager.node(self.node)
    }
}

/// What a manager holds.
pub struct ManagerView {
    /// All nodes that have been created, by address.
    pub arena: Seq<NodeView>,
    /// The nodes that wait for clean-up, oldest first.
    pub temp: Seq<usize>,
}

/// The addresses of nodes without references.
pub open spec fn idle_in(arena: Seq<NodeView>) -> spec_fn(usize) -> bool {
    |a: usize| arena[a as int].unreferenced()
}

/// The addresses of nodes with references.
pub open spec fn held_in(arena: Seq<NodeView>) -> spec_fn(usize) -> bool {
    |a: usize| !arena[a as int].unreferenced()
}

impl ManagerView {
    /// A node that has not been freed.
    pub open spec fn extant(self, addr: usize) -> bool {
        addr < self.arena.len() && !self.arena[addr as int].freed
    }

    /// With the node at `addr` replaced.
    pub open spec fn with(self, addr: usize, node: NodeView) -> ManagerView {
        ManagerView { arena: self.arena.update(addr as int, node), ..self }
    }

    /// After the node at `addr` has been queued for clean-up, unless it has been before.
    pub open spec fn scheduled(self, addr: usize) -> ManagerView {
        let node = self.arena[addr as int];
        if node.queued {
            self
        } else {
            ManagerView {
                temp: self.temp.push(addr),
                ..self.with(addr, NodeView { queued: true, ..node })
            }
        }
    }

    /// After a strong reference to the node at `addr` has been given up.
    pub open spec fn strong_dropped(self, addr: usize) -> ManagerView {
        let node = self.arena[addr as int];
        let v = self.with(addr, node.strong_dropped());
        if node.strong_count == 1 {
            v.scheduled(addr)
        } else {
            v
        }
    }

    /// After a weak reference to the node at `addr` has been given up.
    pub open spec fn weak_dropped(self, addr: usize) -> ManagerView {
        let node = self.arena[addr as int];
        let v = self.with(addr, NodeView { weak_count: one_less(node.weak_count), ..node });
        if node.weak_count == 1 {
            v.scheduled(addr)
        } else {
            v
        }
    }

    /// The nodes after clean-up: those on the list without references have been freed.
    pub open spec fn swept(self) -> Seq<NodeView> {
        Seq::new(
            self.arena.len(),
            |a: int|
                if self.temp.contains(a as usize) && self.arena[a].unreferenced() {
                    NodeView { freed: true, ..self.arena[a] }
                } else {
                    self.arena[a]
                },
        )
    }
}

/// A manager of nodes.
pub struct BinderNodeManager {
    arena: Vec<BinderNode>,
    temp_list: Vec<usize>,
}

impl View for BinderNodeManager {
    type V = ManagerView;

    closed spec fn view(&self) -> ManagerView {
        ManagerView {
            arena: self.arena@.map_values(|n: BinderNode| n@),
            temp: self.temp_list@,
        }
    }
}

/// What holds of every manager: no node waits twice, a node has been queued exactly if it waits or has
/// been freed, and the recipients of every node can be followed.
pub open spec fn consistent(v: ManagerView) -> bool {
    &&& v.arena.len() <= usize::MAX
    &&& forall|a: int| 0 <= a < v.arena.len() ==> (#[trigger] v.arena[a]).orderly()
    &&& v.temp.no_duplicates()
    &&& forall|i: int| 0 <= i < v.temp.len() ==> v.extant(#[trigger] v.temp[i])
    &&& forall|a: int|
        0 <= a < v.arena.len() ==> ((#[trigger] v.arena[a]).queued <==> v.temp.contains(a as usize)
            || v.arena[a].freed)
}

impl BinderNodeManager {
    pub closed spec fn wf(self) -> bool {
        &&& forall|a: int| 0 <= a < self.arena@.len() ==> (#[trigger] self.arena@[a]).wf()
        &&& consistent(self@)
    }

    /// The invariant on what the manager holds.
    pub proof fn lemma_consistent(self)
        requires
            self.wf(),
        ensures
            consistent(self@),
    {
    }

    /// Creates a manager without nodes.
    pub fn new() -> (manager: BinderNodeManager)
        ensures
            manager.wf(),
            manager@ == (ManagerView { arena: Seq::empty(), temp: Seq::empty() }),
    {
        let manager = BinderNodeManager { arena: Vec::new(), temp_list: Vec::new() };
        assert(manager@.arena =~= Seq::empty());
        manager
    }

    /// Creates a node and hands out the first strong reference to it.
    pub fn new_node(&mut self) -> (handle: StrongHandle)
        requires
            old(self).wf(),
        ensures
            final(self).wf(),
            handle.node == old(self)@.arena.len(),
            final(self)@ == (ManagerView {
                arena: old(self)@.arena.push(
                    NodeView {
                        strong_count: 1,
                        weak_count: 0,
                        is_dead: false,
                        queued: false,
                        freed: false,
                        deaths: TailedView::fresh(),
                    },
                ),
                ..old(self)@
            }),
    {
        let node: usize = self.arena.len();
        let mut new: BinderNode = BinderNode::new();
        new.inc_strong();
        self.arena.push(new);
        proof {
            let v = old(self)@;
            assert(self.arena@.len() == self.arena.len());
            assert(self@.arena =~= v.arena.push(new@));
            assert forall|i: int| 0 <= i < self@.temp.len() implies self@.extant(
                #[trigger] self@.temp[i],
            ) by {
                assert(v.extant(v.temp[i]));
            }
            assert forall|a: int| 0 <= a < self@.arena.len() implies ((
            #[trigger] self@.arena[a]).queued <==> self@.temp.contains(a as usize)
                || self@.arena[a].freed) by {
                if a < node {
                    assert(self@.arena[a] == v.arena[a]);
                } else if v.temp.contains(node) {
                    let i = v.temp.index_of(node);
                    assert(v.extant(v.temp[i]));
                }
            }
        }
        StrongHandle { node }
    }

    /// Hands out a weak reference to the node that a strong one leads to.
    pub fn new_weak_handle(&mut self, strong: &StrongHandle) -> (handle: WeakHandle)
        requires
            old(self).wf(),
            old(self)@.extant(strong.node),
        ensures
            final(self).wf(),
            handle.node == strong.node,
            final(self)@ == old(self)@.with(
                strong.node,
                NodeView {
                    weak_count: one_more(old(self)@.arena[strong.node as int].weak_count),
                    ..old(self)@.arena[strong.node as int]
                },
            ),
    {
        self.arena[strong.node].inc_weak();
        proof {
            lemma_updated(
                old(self)@,
                strong.node,
                NodeView {
                    weak_count: one_more(old(self)@.arena[strong.node as int].weak_count),
                    ..old(self)@.arena[strong.node as int]
                },
            );
            assert(self@.arena =~= old(self)@.arena.update(
                strong.node as int,
                self.arena@[strong.node as int]@,
            ));
        }
        WeakHandle { node: strong.node }
    }

    /// The node that a reference leads to.
    pub fn node(&self, addr: usize) -> (node: &BinderNode)
        requires
            self.wf(),
            addr < self@.arena.len(),
        ensures
            node.wf(),
            node@ == self@.arena[addr as int],
    {
        &self.arena[addr]
    }

    /// Takes a strong reference to the node at `addr`. The count wraps around.
    pub fn inc_strong(&mut self, addr: usize)
        requires
            old(self).wf(),
            old(self)@.extant(addr),
        ensures
            final(self).wf(),
            final(self)@ == old(self)@.with(
                addr,
                NodeView {
                    strong_count: one_more(old(self)@.arena[addr as int].strong_count),
                    ..old(self)@.arena[addr as int]
                },
            ),
    {
        self.arena[addr].inc_strong();
        proof {
            lemma_updated(
                old(self)@,
                addr,
                NodeView {
                    strong_count: one_more(old(self)@.arena[addr as int].strong_count),
                    ..old(self)@.arena[addr as int]
                },
            );
            assert(self@.arena =~= old(self)@.arena.update(addr as int, self.arena@[addr as int]@));
        }
    }

    /// Registers a recipient on the node at `addr` and hands out its link.
    pub fn add_death_recipient(&mut self, addr: usize, recip: DeathRecipient) -> (link: usize)
        requires
            old(self).wf(),
            old(self)@.extant(addr),
        ensures
            final(self).wf(),
            link == old(self)@.arena[addr as int].deaths.items.len(),
            final(self)@ == old(self)@.with(addr, old(self)@.arena[addr as int].registered(recip)),
    {
        let link: usize = self.arena[addr].add_death_recipient(recip);
        proof {
            self.arena@[addr as int].lemma_orderly();
            lemma_updated(old(self)@, addr, self.arena@[addr as int]@);
            assert(self@.arena =~= old(self)@.arena.update(addr as int, self.arena@[addr as int]@));
        }
        link
    }

    /// Withdraws a recipient from the node at `addr`. Where it has been withdrawn before, the node
    /// forgets the others.
    pub fn remove_death_recipient(&mut self, addr: usize, link: usize)
        requires
            old(self).wf(),
            old(self)@.extant(addr),
            old(self)@.arena[addr as int].issued(link),
        ensures
            final(self).wf(),
            final(self)@ == old(self)@.with(addr, old(self)@.arena[addr as int].withdrawn(link)),
    {
        self.arena[addr].remove_death_recipient(link);
        proof {
            self.arena@[addr as int].lemma_orderly();
            lemma_updated(old(self)@, addr, self.arena@[addr as int]@);
            assert(self@.arena =~= old(self)@.arena.update(addr as int, self.arena@[addr as int]@));
        }
    }

    /// Gives up a strong reference. With the last one the node is queued for clean-up, and the
    /// recipients of a node that was alive are handed out in order.
    pub fn drop_strong(&mut self, handle: StrongHandle) -> (due: Vec<DeathRecipient>)
        requires
            old(self).wf(),
            old(self)@.extant(handle.node),
        ensures
            final(self).wf(),
            due@ == old(self)@.arena[handle.node as int].due(),
            final(self)@ == old(self)@.strong_dropped(handle.node),
    {
        let addr: usize = handle.node;
        let (last, due) = self.arena[addr].dec_strong();
        proof {
            self.arena@[addr as int].lemma_orderly();
            lemma_updated(old(self)@, addr, self.arena@[addr as int]@);
            assert(self@.arena =~= old(self)@.arena.update(addr as int, self.arena@[addr as int]@));
        }
        if last {
            self.schedule_for_cleanup(addr);
        }
        due
    }

    /// Gives up a weak reference. With the last one the node is queued for clean-up.
    pub fn drop_weak(&mut self, handle: WeakHandle)
        requires
            old(self).wf(),
            old(self)@.extant(handle.node),
        ensures
            final(self).wf(),
            final(self)@ == old(self)@.weak_dropped(handle.node),
    {
        let addr: usize = handle.node;
        let last: bool = self.arena[addr].dec_weak();
        proof {
            self.arena@[addr as int].lemma_orderly();
            lemma_updated(old(self)@, addr, self.arena@[addr as int]@);
            assert(self@.arena =~= old(self)@.arena.update(addr as int, self.arena@[addr as int]@));
        }
        if last {
            self.schedule_for_cleanup(addr);
        }
    }

    /// Queues the node at `addr` for clean-up, unless it has been before.
    pub fn schedule_for_cleanup(&mut self, addr: usize)
        requires
            old(self).wf(),
            old(self)@.extant(addr),
        ensures
            final(self).wf(),
            final(self)@ == old(self)@.scheduled(addr),
    {
        if !self.arena[addr].queued {
            self.arena[addr].queued = true;
            self.temp_list.push(addr);
            proof {
                let v = old(self)@;
                let w = self@;
                assert(w.arena =~= v.arena.update(addr as int, self.arena@[addr as int]@));
                assert(v.arena[addr as int].queued == old(self).arena@[addr as int].queued);
                assert(!v.temp.contains(addr));
                assert forall|i: int, j: int| 0 <= i < j < w.temp.len() implies w.temp[i]
                    != w.temp[j] by {
                    if j == v.temp.len() {
                        assert(v.temp.contains(v.temp[i]));
                    }
                }
                assert forall|i: int| 0 <= i < w.temp.len() implies w.extant(
                    #[trigger] w.temp[i],
                ) by {
                    if i < v.temp.len() {
                        assert(v.extant(v.temp[i]));
                    }
                }
                assert forall|a: int| 0 <= a < w.arena.len() implies ((
                #[trigger] w.arena[a]).queued <==> w.temp.contains(a as usize)
                    || w.arena[a].freed) by {
                    if a == addr {
                        assert(w.temp[v.temp.len() as int] == addr);
                    } else {
                        assert(w.arena[a] == v.arena[a]);
                        if v.temp.contains(a as usize) {
                            let q = v.temp.index_of(a as usize);
                            assert(w.temp[q] == a as usize);
                        }
                    }
                }
            }
        }
    }

    /// Frees the queued nodes without references and hands out their addresses. The others stay
    /// queued.
    pub fn process_cleanup(&mut self) -> (freed: Vec<usize>)
        requires
            old(self).wf(),
        ensures
            final(self).wf(),
            freed@ == old(self)@.temp.filter(idle_in(old(self)@.arena)),
            final(self)@ == (ManagerView {
                arena: old(self)@.swept(),
                temp: old(self)@.temp.filter(held_in(old(self)@.arena)),
            }),
    {
        let mut batch: Vec<usize> = Vec::new();
        std::mem::swap(&mut self.temp_list, &mut batch);
        let ghost v = old(self)@;
        let ghost idle = idle_in(v.arena);
        let ghost held = held_in(v.arena);
        let mut freed: Vec<usize> = Vec::new();
        proof {
            reveal(Seq::filter);
            assert(freed@ =~= v.temp.take(0).filter(idle));
            assert(self.temp_list@ =~= v.temp.take(0).filter(held));
        }
        for i in 0..batch.len()
            invariant
                batch@ == v.temp,
                consistent(v),
                idle == idle_in(v.arena),
                held == held_in(v.arena),
                self.arena@.len() == v.arena.len(),
                forall|a: int| 0 <= a < self.arena@.len() ==> (#[trigger] self.arena@[a]).wf(),
                forall|a: int|
                    0 <= a < v.arena.len() ==> (#[trigger] self.arena@[a])@ == if v.temp.take(
                        i as int,
                    ).contains(a as usize) && v.arena[a].unreferenced() {
                        NodeView { freed: true, ..v.arena[a] }
                    } else {
                        v.arena[a]
                    },
                freed@ == v.temp.take(i as int).filter(idle),
                self.temp_list@ == v.temp.take(i as int).filter(held),
        {
            let addr: usize = batch[i];
            let ghost before = self.arena@;
            proof {
                assert(v.extant(v.temp[i as int]));
                lemma_filter_step(v.temp, i as int, idle);
                lemma_filter_step(v.temp, i as int, held);
                assert(before[addr as int]@ == v.arena[addr as int]) by {
                    let t = v.temp.take(i as int);
                    if t.contains(addr) {
                        let q = t.index_of(addr);
                        assert(v.temp[q] == v.temp[i as int]);
                    }
                }
            }
            if self.arena[addr].strong_count == 0 && self.arena[addr].weak_count == 0 {
                self.arena[addr].freed = true;
                freed.push(addr);
            } else {
                self.temp_list.push(addr);
            }
            proof {
                let t = v.temp.take(i as int);
                let u = v.temp.take(i as int + 1);
                assert forall|a: int| 0 <= a < v.arena.len() implies (#[trigger] self.arena@[a])@
                    == if u.contains(a as usize) && v.arena[a].unreferenced() {
                    NodeView { freed: true, ..v.arena[a] }
                } else {
                    v.arena[a]
                } by {
                    assert(u[i as int] == addr);
                    if a != addr {
                        assert(self.arena@[a] == before[a]);
                        assert(u.contains(a as usize) <==> t.contains(a as usize)) by {
                            if u.contains(a as usize) {
                                let q = u.index_of(a as usize);
                                assert(t[q] == a as usize);
                            }
                            if t.contains(a as usize) {
                                let q = t.index_of(a as usize);
                                assert(u[q] == a as usize);
                            }
                        }
                    } else {
                        assert(u.contains(addr));
                    }
                }
            }
        }
        proof {
            assert(v.temp.take(v.temp.len() as int) =~= v.temp);
            assert(self@.arena =~= v.swept());
            lemma_swept_consistent(v);
        }
        freed
    }
}

/// Replacing a node without touching its place in the queue keeps the invariant.
proof fn lemma_updated(v: ManagerView, addr: usize, node: NodeView)
    requires
        consistent(v),
        v.extant(addr),
        node.queued == v.arena[addr as int].queued,
        node.freed == v.arena[addr as int].freed,
        node.orderly(),
    ensures
        consistent(v.with(addr, node)),
{
    let w = v.with(addr, node);
    assert forall|i: int| 0 <= i < w.temp.len() implies w.extant(#[trigger] w.temp[i]) by {
        assert(v.extant(v.temp[i]));
    }
    assert forall|a: int| 0 <= a < w.arena.len() implies ((#[trigger] w.arena[a]).queued
        <==> w.temp.contains(a as usize) || w.arena[a].freed) by {
        assert(v.arena[a].queued <==> v.temp.contains(a as usize) || v.arena[a].freed);
    }
}

/// Filtering makes no duplicates.
proof fn lemma_filter_distinct(s: Seq<usize>, keep: spec_fn(usize) -> bool)
    requires
        s.no_duplicates(),
    ensures
        s.filter(keep).no_duplicates(),
    decreases s.len(),
{
    reveal(Seq::filter);
    if s.len() > 0 {
        let r = s.drop_last();
        lemma_filter_distinct(r, keep);
        lemma_filter_members(r, keep);
        let f = r.filter(keep);
        let g = s.filter(keep);
        assert forall|i: int, j: int| 0 <= i < j < g.len() implies g[i] != g[j] by {
            if keep(s.last()) && j == f.len() {
                assert(f.contains(f[i]));
                let q = r.index_of(f[i]);
                assert(s[q] != s[s.len() - 1]);
            }
        }
    }
}

proof fn lemma_swept_consistent(v: ManagerView)
    requires
        consistent(v),
    ensures
        consistent(ManagerView { arena: v.swept(), temp: v.temp.filter(held_in(v.arena)) }),
{
    let held = held_in(v.arena);
    let w = ManagerView { arena: v.swept(), temp: v.temp.filter(held) };
    lemma_filter_members(v.temp, held);
    lemma_filter_distinct(v.temp, held);
    assert forall|i: int| 0 <= i < w.temp.len() implies w.extant(#[trigger] w.temp[i]) by {
        assert(w.temp.contains(w.temp[i]));
        let q = v.temp.index_of(w.temp[i]);
        assert(v.extant(v.temp[q]));
    }
    assert forall|a: int| 0 <= a < w.arena.len() implies ((#[trigger] w.arena[a]).queued
        <==> w.temp.contains(a as usize) || w.arena[a].freed) by {
        assert(v.arena[a].queued <==> v.temp.contains(a as usize) || v.arena[a].freed);
        if v.temp.contains(a as usize) {
            let q = v.temp.index_of(a as usize);
            assert(v.extant(v.temp[q]));
        }
    }
}

/// Withdrawing a recipient right after it has been registered on a node whose list is in order leaves
/// the recipients that were there before.
pub proof fn law_withdrawal_undoes_registration(n: NodeView, s: Seq<usize>, d: DeathRecipient)
    requires
        n.orderly(),
        n.deaths.holds(s),
    ensures
        n.registered(d).withdrawn(n.deaths.next_address()).deaths.holds(s),
        n.registered(d).withdrawn(n.deaths.next_address()).deaths.listed() == n.deaths.listed(),
{
    law_tailed_erase_undoes_push(n.deaths, s, d);
}

/// Withdrawing a recipient that is on a list in order takes it out, so that it is not delivered, and leaves
/// all others in their order.
pub proof fn law_withdrawn_is_not_delivered(n: NodeView, s: Seq<usize>, i: int)
    requires
        n.deaths.holds(s),
        0 <= i < s.len(),
    ensures
        n.withdrawn(s[i]).deaths.holds(s.remove(i)),
        n.withdrawn(s[i]).deaths.listed() == n.deaths.listed().remove(i),
{
    law_tailed_erase(n.deaths, s, i);
}

/// Withdrawing a recipient that has already been withdrawn makes the node forget all its recipients.
pub proof fn law_withdrawing_again_forgets(n: NodeView, link: usize)
    requires
        n.orderly(),
        n.issued(link),
        n.deaths.cells[link as int] == unlinked(),
    ensures
        n.withdrawn(link).deaths == n.deaths.emptied(),
        n.withdrawn(link).deaths.listed() == Seq::<DeathRecipient>::empty(),
{
    law_tailed_erase_again(n.deaths, link);
}

/// A node is freed only when no reference to it is left, and then at once at the next clean-up.
pub proof fn law_freed_nodes_are_unreferenced(v: ManagerView, a: int)
    requires
        consistent(v),
        0 <= a < v.arena.len(),
        !v.arena[a].freed,
    ensures
        v.swept()[a].freed <==> v.arena[a].queued && v.arena[a].unreferenced(),
{
}

/// Recipients are notified once: with the last strong reference, and not again.
pub proof fn law_recipients_are_notified_once(n: NodeView)
    requires
        n.strong_count == 1,
        !n.is_dead,
    ensures
        n.due() == n.deaths.listed(),
        n.strong_dropped().deaths.listed() == Seq::<DeathRecipient>::empty(),
        n.strong_dropped().is_dead,
        n.strong_dropped().due() == Seq::<DeathRecipient>::empty(),
{
    let v = n.strong_dropped().deaths;
    law_tailed_order(v, Seq::empty());
    assert(v.listed() =~= Seq::empty());
}

/// A count with one more reference is one larger and one with one less is one smaller, except that the
/// largest count and zero wrap around. One undoes the other.
pub proof fn law_counts_go_by_one(count: usize)
    ensures
        count < usize::MAX ==> one_more(count) == count + 1,
        one_more(usize::MAX) == 0,
        count > 0 ==> one_less(count) == count - 1,
        one_less(0) == usize::MAX,
        one_less(one_more(count)) == count,
        one_more(one_less(count)) == count,
{
}

/// Replacing a node touches no other node and nothing that waits for clean-up.
pub proof fn law_one_node_is_replaced(v: ManagerView, addr: usize, node: NodeView)
    requires
        addr < v.arena.len(),
    ensures
        v.with(addr, node).arena.len() == v.arena.len(),
        v.with(addr, node).arena[addr as int] == node,
        forall|b: int|
            0 <= b < v.arena.len() && b != addr ==> #[trigger] v.with(addr, node).arena[b]
                == v.arena[b],
        v.with(addr, node).temp == v.temp,
{
}

/// A node that is queued for clean-up waits behind the others and is marked; one that was marked before
/// does not wait a second time. Nothing else changes.
pub proof fn law_node_is_queued_once(v: ManagerView, addr: usize)
    requires
        addr < v.arena.len(),
    ensures
        v.scheduled(addr).arena.len() == v.arena.len(),
        v.scheduled(addr).arena[addr as int] == (NodeView { queued: true, ..v.arena[addr as int] }),
        forall|b: int|
            0 <= b < v.arena.len() && b != addr ==> #[trigger] v.scheduled(addr).arena[b]
                == v.arena[b],
        v.arena[addr as int].queued ==> v.scheduled(addr) == v,
        !v.arena[addr as int].queued ==> v.scheduled(addr).temp == v.temp.push(addr),
        v.scheduled(addr).scheduled(addr) == v.scheduled(addr),
{
    if v.arena[addr as int].queued {
        assert(v.arena[addr as int] == (NodeView { queued: true, ..v.arena[addr as int] }));
    }
}

/// Giving up a weak reference takes one off the weak count of the node and leaves its strong count, its
/// life and its recipients, and all other nodes. It comes to wait for clean-up exactly when that was
/// the last weak reference and it has not been queued before.
pub proof fn law_weak_drop_takes_one(v: ManagerView, addr: usize)
    requires
        addr < v.arena.len(),
    ensures
        v.weak_dropped(addr).arena.len() == v.arena.len(),
        forall|b: int|
            0 <= b < v.arena.len() && b != addr ==> #[trigger] v.weak_dropped(addr).arena[b]
                == v.arena[b],
        ({
            let before = v.arena[addr as int];
            let after = v.weak_dropped(addr).arena[addr as int];
            &&& before.weak_count > 0 ==> after.weak_count == before.weak_count - 1
            &&& before.weak_count == 0 ==> after.weak_count == usize::MAX
            &&& after.strong_count == before.strong_count
            &&& after.is_dead == before.is_dead
            &&& after.freed == before.freed
            &&& after.deaths == before.deaths
            &&& after.queued == (before.queued || before.weak_count == 1)
        }),
        v.weak_dropped(addr).temp == if v.arena[addr as int].weak_count == 1
            && !v.arena[addr as int].queued {
            v.temp.push(addr)
        } else {
            v.temp
        },
{
}

/// Giving up a weak reference right after taking one leaves the manager as it was, if there was
/// another weak reference.
pub proof fn law_weak_drop_undoes_weak_take(v: ManagerView, addr: usize)
    requires
        addr < v.arena.len(),
        0 < v.arena[addr as int].weak_count,
    ensures
        v.with(
            addr,
            NodeView {
                weak_count: one_more(v.arena[addr as int].weak_count),
                ..v.arena[addr as int]
            },
        ).weak_dropped(addr) == v,
{
    let node = v.arena[addr as int];
    let more = NodeView { weak_count: one_more(node.weak_count), ..node };
    assert(v.with(addr, more).weak_dropped(addr).arena =~= v.arena);
}

/// While two weak references are left, giving up one leaves the node referenced: it is not freed by
/// the next clean-up, and does not come to wait for one.
pub proof fn law_held_node_is_not_freed(v: ManagerView, addr: usize)
    requires
        addr < v.arena.len(),
        v.arena[addr as int].weak_count > 1,
        !v.arena[addr as int].freed,
    ensures
        v.weak_dropped(addr).arena[addr as int].weak_count > 0,
        !v.weak_dropped(addr).arena[addr as int].unreferenced(),
        !v.weak_dropped(addr).swept()[addr as int].freed,
        !v.weak_dropped(addr).temp.filter(idle_in(v.weak_dropped(addr).arena)).contains(addr),
        v.weak_dropped(addr).temp == v.temp,
{
    let w = v.weak_dropped(addr);
    lemma_filter_members(w.temp, idle_in(w.arena));
}

/// Giving up a strong reference takes one off the strong count of the node and leaves its weak count
/// and all other nodes. With the last one the node is dead, the recipients of a node that was alive are
/// due and taken off, and the node comes to wait for clean-up unless it has been queued before.
pub proof fn law_strong_drop_takes_one(v: ManagerView, addr: usize)
    requires
        addr < v.arena.len(),
    ensures
        v.strong_dropped(addr).arena.len() == v.arena.len(),
        forall|b: int|
            0 <= b < v.arena.len() && b != addr ==> #[trigger] v.strong_dropped(addr).arena[b]
                == v.arena[b],
        ({
            let before = v.arena[addr as int];
            let after = v.strong_dropped(addr).arena[addr as int];
            let dies = before.strong_count == 1 && !before.is_dead;
            &&& before.strong_count > 0 ==> after.strong_count == before.strong_count - 1
            &&& before.strong_count == 0 ==> after.strong_count == usize::MAX
            &&& after.weak_count == before.weak_count
            &&& after.is_dead == (before.is_dead || before.strong_count == 1)
            &&& after.freed == before.freed
            &&& after.queued == (before.queued || before.strong_count == 1)
            &&& dies ==> before.due() == before.deaths.listed()
            &&& dies ==> after.deaths.head is None && after.deaths.tail is None
                && after.deaths.cells == before.deaths.cells && after.deaths.items
                == before.deaths.items
            &&& !dies ==> before.due().len() == 0 && after.deaths == before.deaths
        }),
        v.strong_dropped(addr).temp == if v.arena[addr as int].strong_count == 1
            && !v.arena[addr as int].queued {
            v.temp.push(addr)
        } else {
            v.temp
        },
{
}

/// Giving up a strong reference right after taking one leaves the manager as it was, if there was
/// another strong reference, and notifies nobody.
pub proof fn law_strong_drop_undoes_strong_take(v: ManagerView, addr: usize)
    requires
        addr < v.arena.len(),
        0 < v.arena[addr as int].strong_count,
    ensures
        ({
            let taken = NodeView {
                strong_count: one_more(v.arena[addr as int].strong_count),
                ..v.arena[addr as int]
            };
            v.with(addr, taken).strong_dropped(addr) == v && taken.due().len() == 0
        }),
{
    let node = v.arena[addr as int];
    let more = NodeView { strong_count: one_more(node.strong_count), ..node };
    assert(v.with(addr, more).strong_dropped(addr).arena =~= v.arena);
}

/// Clean-up frees exactly the waiting nodes whose counts are both zero; those with a count stay, in
/// their order, and wait on. A node that does not wait is left as it is.
pub proof fn law_cleanup_frees_what_has_no_count(v: ManagerView)
    requires
        consistent(v),
    ensures
        v.temp.filter(idle_in(v.arena)) == v.temp.filter(
            |a: usize| v.arena[a as int].strong_count == 0 && v.arena[a as int].weak_count == 0,
        ),
        v.temp.filter(held_in(v.arena)) == v.temp.filter(
            |a: usize| v.arena[a as int].strong_count != 0 || v.arena[a as int].weak_count != 0,
        ),
        v.swept().len() == v.arena.len(),
        forall|a: int|
            0 <= a < v.arena.len() ==> (#[trigger] v.swept()[a]).freed == (v.arena[a].freed || (
            v.temp.contains(a as usize) && v.arena[a].strong_count == 0 && v.arena[a].weak_count
                == 0)),
        forall|a: int|
            0 <= a < v.arena.len() ==> (NodeView {
                freed: v.arena[a].freed,
                ..#[trigger] v.swept()[a]
            }) == v.arena[a],
{
    assert(idle_in(v.arena) =~= (|a: usize|
        v.arena[a as int].strong_count == 0 && v.arena[a as int].weak_count == 0));
    assert(held_in(v.arena) =~= (|a: usize|
        v.arena[a as int].strong_count != 0 || v.arena[a as int].weak_count != 0));
}

/// Registering a recipient, and withdrawing one, changes nothing of a node but its list. On a list in
/// order the recipient comes to be listed behind the others, and the one at a position is taken out.
pub proof fn law_registration_touches_only_the_list(
    node: NodeView,
    recip: DeathRecipient,
    order: Seq<usize>,
    i: int,
)
    requires
        node.orderly(),
        node.deaths.holds(order),
        0 <= i < order.len(),
    ensures
        node.registered(recip).deaths.listed() == node.deaths.listed().push(recip),
        node.registered(recip).deaths.items == node.deaths.items.push(recip),
        (NodeView { deaths: node.deaths, ..node.registered(recip) }) == node,
        node.withdrawn(order[i]).deaths.listed() == node.deaths.listed().remove(i),
        node.withdrawn(order[i]).deaths.items == node.deaths.items,
        (NodeView { deaths: node.deaths, ..node.withdrawn(order[i]) }) == node,
        node.issued(order[i]),
        forall|link: usize| #[trigger]
            node.registered(recip).issued(link) <==> node.issued(link) || link
                == node.deaths.items.len(),
{
    law_tailed_push(node.deaths, order, recip);
    law_tailed_erase(node.deaths, order, i);
}

/// Dropping references ends no node. Clean-up ends exactly those that wait and have no count, and no
/// others.
pub proof fn law_only_cleanup_ends_a_node(v: ManagerView, addr: usize, b: usize)
    requires
        consistent(v),
        addr < v.arena.len(),
        b < v.arena.len(),
        !v.arena[b as int].freed,
    ensures
        v.extant(b),
        v.weak_dropped(addr).extant(b),
        v.strong_dropped(addr).extant(b),
        v.scheduled(addr).extant(b),
        (ManagerView { arena: v.swept(), ..v }).extant(b) <==> !(v.temp.contains(b)
            && v.arena[b as int].strong_count == 0 && v.arena[b as int].weak_count == 0),
{
}

} // verus!
