//! A context that assigns handles to nodes and defers giving up its own reference to a released node
//! until clean-up.
//!
//! Nodes are shared: a node is known by its address in the context's memory.
use std::collections::{HashMap, VecDeque};

use vstd::prelude::*;

use crate::nodes::single::DeathList;
use crate::owned::{lemma_position, position, Matches};

verus! {

broadcast use vstd::std_specs::hash::group_hash_axioms;

/// A registered recipient and the cookie it is to be notified with.
pub struct DeathEntry<R> {
    pub cookie: u64,
    pub recipient: R,
}

impl<R> Matches<u64> for DeathEntry<R> {
    open spec fn matches(self, key: u64) -> bool {
        self.cookie == key
    }

    fn is_match(&self, key: &u64) -> (found: bool) {
        self.cookie == *key
    }
}

/// What there is to know of a node.
pub struct NodeView<R> {
    pub handle: u64,
    pub refs: usize,
    /// The registered recipients, most recent first.
    pub deaths: Seq<DeathEntry<R>>,
}

/// `s` without the first entry that has `cookie`.
pub open spec fn unregistered<R>(s: Seq<DeathEntry<R>>, cookie: u64) -> Seq<DeathEntry<R>> {
    if position(s, cookie) < s.len() {
        s.remove(position(s, cookie))
    } else {
        s
    }
}

impl<R> NodeView<R> {
    /// After a reference has been taken.
    pub open spec fn referenced(self) -> NodeView<R> {
        NodeView {
            refs: if self.refs == usize::MAX {
                0
            } else {
                (self.refs + 1) as usize
            },
            ..self
        }
    }

    /// After a reference has been given up. With the last one the recipients are notified.
    pub open spec fn dereferenced(self) -> NodeView<R> {
        NodeView {
            refs: if self.refs == 0 {
                usize::MAX
            } else {
                (self.refs - 1) as usize
            },
            deaths: if self.refs == 1 {
                Seq::empty()
            } else {
                self.deaths
            },
            ..self
        }
    }

    /// The recipients that are notified when a reference is given up.
    pub open spec fn due(self) -> Seq<DeathEntry<R>> {
        if self.refs == 1 {
            self.deaths
        } else {
            Seq::empty()
        }
    }
}

/// A node.
pub struct BinderNode<R> {
    handle: u64,
    refs: usize,
    death_list: DeathList<DeathEntry<R>>,
}

impl<R> View for BinderNode<R> {
    type V = NodeView<R>;

    closed spec fn view(&self) -> NodeView<R> {
        NodeView { handle: self.handle, refs: self.refs, deaths: self.death_list@ }
    }
}

impl<R> BinderNode<R> {
    pub closed spec fn wf(self) -> bool {
        self.death_list.wf()
    }

    /// Creates a node with one reference to it, that of the context.
    pub fn new(handle: u64) -> (node: BinderNode<R>)
        ensures
            node.wf(),
            node@ == (NodeView { handle, refs: 1, deaths: Seq::<DeathEntry<R>>::empty() }),
    {
        BinderNode { handle, refs: 1, death_list: DeathList::new() }
    }

    /// The handle of the node.
    pub fn handle(&self) -> (handle: u64)
        ensures
            handle == self@.handle,
    {
        self.handle
    }

    /// Takes a reference. The count wraps around.
    pub fn inc_ref(&mut self)
        requires
            old(self).wf(),
        ensures
            final(self).wf(),
            final(self)@ == old(self)@.referenced(),
    {
        self.refs = self.refs.wrapping_add(1);
    }

    /// Gives up a reference. The count wraps around. With the last one all recipients are handed out
    /// in order, to be notified.
    pub fn dec_ref(&mut self) -> (due: Vec<DeathEntry<R>>)
        requires
            old(self).wf(),
        ensures
            final(self).wf(),
            due@ == old(self)@.due(),
            final(self)@ == old(self)@.dereferenced(),
    {
        let last: bool = self.refs == 1;
        self.refs = self.refs.wrapping_sub(1);
        if last {
            self.notify_deaths()
        } else {
            Vec::new()
        }
    }

    /// Registers a recipient in front of the others.
    pub fn register_death(&mut self, recipient: R, cookie: u64)
        requires
            old(self).wf(),
        ensures
            final(self).wf(),
            final(self)@ == (NodeView {
                deaths: old(self)@.deaths.insert(0, DeathEntry { cookie, recipient }),
                ..old(self)@
            }),
    {
        self.death_list.register(DeathEntry { cookie, recipient });
    }

    /// Withdraws the first recipient that is registered with `cookie`, if there is one.
    pub fn unregister_death(&mut self, cookie: u64)
        requires
            old(self).wf(),
        ensures
            final(self).wf(),
            final(self)@ == (NodeView {
                deaths: unregistered(old(self)@.deaths, cookie),
                ..old(self)@
            }),
    {
        proof {
            lemma_position(self.death_list@, cookie);
        }
        self.death_list.remove_match(&cookie);
    }

    /// Takes all recipients off and hands them out in order.
    pub fn notify_deaths(&mut self) -> (due: Vec<DeathEntry<R>>)
        requires
            old(self).wf(),
        ensures
            final(self).wf(),
            due@ == old(self)@.deaths,
            final(self)@ == (NodeView {
                deaths: Seq::<DeathEntry<R>>::empty(),
                ..old(self)@
            }),
    {
        let taken: DeathList<DeathEntry<R>> = self.death_list.take_for_cleanup();
        taken.into_callbacks()
    }
}

/// What a context holds.
pub struct ContextView<R> {
    /// All nodes that have been created, by address.
    pub arena: Seq<NodeView<R>>,
    /// Where the node with a handle is.
    pub nodes: Map<u64, usize>,
    /// The handle of the next node.
    pub next_handle: u64,
    /// The nodes that wait for clean-up, oldest first.
    pub pending: Seq<usize>,
}

impl<R> ContextView<R> {
    /// With the node at `addr` replaced.
    pub open spec fn with(self, addr: usize, node: NodeView<R>) -> ContextView<R> {
        ContextView { arena: self.arena.update(addr as int, node), ..self }
    }

    /// After a node has been created.
    pub open spec fn created(self) -> ContextView<R> {
        ContextView {
            arena: self.arena.push(
                NodeView { handle: self.next_handle, refs: 1, deaths: Seq::empty() },
            ),
            nodes: self.nodes.insert(self.next_handle, self.arena.len() as usize),
            next_handle: if self.next_handle == u64::MAX {
                0
            } else {
                (self.next_handle + 1) as u64
            },
            pending: self.pending,
        }
    }

    /// After a reference to each of the nodes `batch` has been given up, in order.
    pub open spec fn cleaned(self, batch: Seq<usize>) -> ContextView<R>
        decreases batch.len(),
    {
        if batch.len() == 0 {
            self
        } else {
            let v = self.cleaned(batch.drop_last());
            v.with(batch.last(), v.arena[batch.last() as int].dereferenced())
        }
    }

    /// The recipients that are notified when a reference to each of the nodes `batch` is given up.
    pub open spec fn due(self, batch: Seq<usize>) -> Seq<DeathEntry<R>>
        decreases batch.len(),
    {
        if batch.len() == 0 {
            Seq::empty()
        } else {
            self.due(batch.drop_last()) + self.cleaned(
                batch.drop_last(),
            ).arena[batch.last() as int].due()
        }
    }
}

/// What holds of every context: every handle and every pending address leads to a node, and a handle
/// to a node that has it.
pub open spec fn consistent<R>(v: ContextView<R>) -> bool {
    &&& forall|h: u64| #[trigger]
        v.nodes.contains_key(h) ==> v.nodes[h] < v.arena.len() && v.arena[v.nodes[h] as int].handle
            == h
    &&& forall|i: int| 0 <= i < v.pending.len() ==> (#[trigger] v.pending[i]) < v.arena.len()
}

/// A context of nodes.
pub struct BinderContext<R> {
    arena: Vec<BinderNode<R>>,
    nodes: HashMap<u64, usize>,
    next_handle: u64,
    pending_cleanup: VecDeque<usize>,
}

impl<R> View for BinderContext<R> {
    type V = ContextView<R>;

    closed spec fn view(&self) -> ContextView<R> {
        ContextView {
            arena: self.arena@.map_values(|n: BinderNode<R>| n@),
            nodes: self.nodes@,
            next_handle: self.next_handle,
            pending: self.pending_cleanup@,
        }
    }
}

impl<R> BinderContext<R> {
    /// Every handle and every pending address leads to a node, and a handle to a node that has it.
    pub closed spec fn wf(self) -> bool {
        &&& forall|a: int| 0 <= a < self.arena@.len() ==> (#[trigger] self.arena@[a]).wf()
        &&& forall|h: u64| #[trigger]
            self.nodes@.contains_key(h) ==> self.nodes@[h] < self.arena@.len()
                && self.arena@[self.nodes@[h] as int]@.handle == h
        &&& forall|i: int|
            0 <= i < self.pending_cleanup@.len() ==> (#[trigger] self.pending_cleanup@[i])
                < self.arena@.len()
    }

    /// The invariant on what the context holds.
    pub proof fn lemma_consistent(self)
        requires
            self.wf(),
        ensures
            consistent(self@),
    {
    }

    /// Creates a context without nodes.
    pub fn new() -> (context: BinderContext<R>)
        ensures
            context.wf(),
            context@ == (ContextView {
                arena: Seq::<NodeView<R>>::empty(),
                nodes: Map::empty(),
                next_handle: 1,
                pending: Seq::empty(),
            }),
    {
        let context = BinderContext {
            arena: Vec::new(),
            nodes: HashMap::new(),
            next_handle: 1,
            pending_cleanup: VecDeque::new(),
        };
        assert(context@.arena =~= Seq::empty());
        context
    }

    /// Creates a node and hands out its handle.
    pub fn create_node(&mut self) -> (handle: u64)
        requires
            old(self).wf(),
        ensures
            final(self).wf(),
            handle == old(self)@.next_handle,
            final(self)@ == old(self)@.created(),
    {
        let handle: u64 = self.next_handle;
        self.next_handle = self.next_handle.wrapping_add(1);
        let addr: usize = self.arena.len();
        self.arena.push(BinderNode::new(handle));
        self.nodes.insert(handle, addr);
        assert(self@.arena =~= old(self)@.created().arena);
        handle
    }

    /// The address of the node with a handle. No reference is taken.
    pub fn get_node(&self, handle: u64) -> (addr: Option<usize>)
        requires
            self.wf(),
        ensures
            addr == if self@.nodes.contains_key(handle) {
                Some(self@.nodes[handle])
            } else {
                None
            },
            addr matches Some(a) ==> a < self@.arena.len() && self@.arena[a as int].handle
                == handle,
    {
        match self.nodes.get(&handle) {
            Some(addr) => Some(*addr),
            None => None,
        }
    }

    /// The node at an address.
    pub fn node(&self, addr: usize) -> (node: &BinderNode<R>)
        requires
            self.wf(),
            addr < self@.arena.len(),
        ensures
            node.wf(),
            node@ == self@.arena[addr as int],
    {
        &self.arena[addr]
    }

    /// Takes a reference to the node at `addr`.
    pub fn inc_ref(&mut self, addr: usize)
        requires
            old(self).wf(),
            addr < old(self)@.arena.len(),
        ensures
            final(self).wf(),
            final(self)@ == old(self)@.with(addr, old(self)@.arena[addr as int].referenced()),
    {
        self.arena[addr].inc_ref();
        assert(self@.arena =~= old(self)@.arena.update(
            addr as int,
            old(self)@.arena[addr as int].referenced(),
        ));
    }

    /// Gives up a reference to the node at `addr`. Hands out the recipients that are to be notified.
    pub fn dec_ref(&mut self, addr: usize) -> (due: Vec<DeathEntry<R>>)
        requires
            old(self).wf(),
            addr < old(self)@.arena.len(),
        ensures
            final(self).wf(),
            due@ == old(self)@.arena[addr as int].due(),
            final(self)@ == old(self)@.with(addr, old(self)@.arena[addr as int].dereferenced()),
    {
        let due: Vec<DeathEntry<R>> = self.arena[addr].dec_ref();
        assert(self@.arena =~= old(self)@.arena.update(
            addr as int,
            old(self)@.arena[addr as int].dereferenced(),
        ));
        due
    }

    /// Registers a recipient on the node with a handle. An unknown handle is ignored.
    pub fn register_death(&mut self, handle: u64, recipient: R, cookie: u64)
        requires
            old(self).wf(),
        ensures
            final(self).wf(),
            final(self)@ == if old(self)@.nodes.contains_key(handle) {
                let a = old(self)@.nodes[handle];
                let node = old(self)@.arena[a as int];
                old(self)@.with(
                    a,
                    NodeView {
                        deaths: node.deaths.insert(0, DeathEntry { cookie, recipient }),
                        ..node
                    },
                )
            } else {
                old(self)@
            },
    {
        if let Some(addr) = self.get_node(handle) {
            self.arena[addr].register_death(recipient, cookie);
            assert(self@.arena =~= old(self)@.arena.update(addr as int, self.arena@[addr as int]@));
        }
    }

    /// Withdraws the first recipient with `cookie` from the node with a handle. An unknown handle is
    /// ignored.
    pub fn unregister_death(&mut self, handle: u64, cookie: u64)
        requires
            old(self).wf(),
        ensures
            final(self).wf(),
            final(self)@ == if old(self)@.nodes.contains_key(handle) {
                let a = old(self)@.nodes[handle];
                let node = old(self)@.arena[a as int];
                old(self)@.with(
                    a,
                    NodeView { deaths: unregistered(node.deaths, cookie), ..node },
                )
            } else {
                old(self)@
            },
    {
        if let Some(addr) = self.get_node(handle) {
            self.arena[addr].unregister_death(cookie);
            assert(self@.arena =~= old(self)@.arena.update(addr as int, self.arena@[addr as int]@));
        }
    }

    /// Releases a handle: it is no longer registered, and its node waits for clean-up. An unknown
    /// handle is ignored.
    pub fn release_node(&mut self, handle: u64)
        requires
            old(self).wf(),
        ensures
            final(self).wf(),
            final(self)@ == if old(self)@.nodes.contains_key(handle) {
                ContextView {
                    nodes: old(self)@.nodes.remove(handle),
                    pending: old(self)@.pending.push(old(self)@.nodes[handle]),
                    ..old(self)@
                }
            } else {
                old(self)@
            },
    {
        if let Some(addr) = self.nodes.remove(&handle) {
            self.pending_cleanup.push_back(addr);
        } else {
            assert(self@.nodes =~= old(self)@.nodes);
        }
    }

    /// Gives up the context's reference to each node that waits for clean-up. Hands out, in order,
    /// the recipients that are to be notified.
    pub fn cleanup(&mut self) -> (due: Vec<DeathEntry<R>>)
        requires
            old(self).wf(),
        ensures
            final(self).wf(),
            final(self)@ == (ContextView { pending: Seq::empty(), ..old(self)@ }).cleaned(
                old(self)@.pending,
            ),
            due@ == (ContextView { pending: Seq::empty(), ..old(self)@ }).due(old(self)@.pending),
    {
        let mut batch: VecDeque<usize> = VecDeque::new();
        std::mem::swap(&mut self.pending_cleanup, &mut batch);
        let ghost all = batch@;
        let ghost v = self@;
        let mut due: Vec<DeathEntry<R>> = Vec::new();
        proof {
            assert(v.pending =~= Seq::empty());
            assert(v == (ContextView { pending: Seq::empty(), ..old(self)@ }));
            assert(due@ =~= v.due(all.take(0)));
        }
        for i in 0..batch.len()
            invariant
                self.wf(),
                batch@ == all,
                forall|j: int| 0 <= j < all.len() ==> (#[trigger] all[j]) < self@.arena.len(),
                self@ == v.cleaned(all.take(i as int)),
                due@ == v.due(all.take(i as int)),
        {
            let addr: usize = batch[i];
            proof {
                assert(all.take(i as int + 1).drop_last() =~= all.take(i as int));
                assert(all.take(i as int + 1).last() == addr);
            }
            let mut more: Vec<DeathEntry<R>> = self.dec_ref(addr);
            due.append(&mut more);
        }
        assert(all.take(all.len() as int) =~= all);
        due
    }
}

/// Withdrawing the recipient that was registered last restores what was registered before it.
pub proof fn law_unregister_undoes_register<R>(s: Seq<DeathEntry<R>>, e: DeathEntry<R>)
    ensures
        unregistered(s.insert(0, e), e.cookie) == s,
{
    assert(s.insert(0, e).remove(0) =~= s);
}

/// A node whose only reference is the context's own notifies its recipients at clean-up, all of them
/// in order, and at no later time.
pub proof fn law_cleanup_notifies_once<R>(v: ContextView<R>, addr: usize)
    requires
        addr < v.arena.len(),
        v.arena[addr as int].refs == 1,
    ensures
        v.due(seq![addr]) == v.arena[addr as int].deaths,
        v.cleaned(seq![addr]).arena[addr as int].deaths.len() == 0,
{
    assert(seq![addr].drop_last() =~= Seq::<usize>::empty());
    reveal_with_fuel(ContextView::cleaned, 2);
    reveal_with_fuel(ContextView::due, 2);
    assert(v.due(seq![addr]) =~= v.arena[addr as int].deaths);
}

/// A node that is referenced elsewhere keeps its recipients at clean-up and notifies none.
pub proof fn law_referenced_nodes_survive_cleanup<R>(v: ContextView<R>, addr: usize)
    requires
        addr < v.arena.len(),
        v.arena[addr as int].refs > 1,
    ensures
        v.due(seq![addr]).len() == 0,
        v.cleaned(seq![addr]).arena[addr as int].deaths == v.arena[addr as int].deaths,
        v.cleaned(seq![addr]).arena[addr as int].refs == v.arena[addr as int].refs - 1,
{
    assert(seq![addr].drop_last() =~= Seq::<usize>::empty());
    reveal_with_fuel(ContextView::cleaned, 2);
    reveal_with_fuel(ContextView::due, 2);
}

/// The first recipient with a cookie is the one that is withdrawn; the others stay, in order. Where
/// none has the cookie all stay.
pub proof fn law_withdrawal_goes_by_cookie<R>(s: Seq<DeathEntry<R>>, cookie: u64)
    ensures
        (forall|i: int| 0 <= i < s.len() ==> (#[trigger] s[i]).cookie != cookie) ==> unregistered(
            s,
            cookie,
        ) == s,
        forall|i: int|
            0 <= i < s.len() && s[i].cookie == cookie && (forall|j: int|
                0 <= j < i ==> (#[trigger] s[j]).cookie != cookie) ==> unregistered(s, cookie)
                == #[trigger] s.remove(i),
{
    lemma_position(s, cookie);
}

/// Taking a reference adds one to the count and leaves the rest of the node; giving one up takes one
/// off. The count wraps around. The recipients are due, and gone afterwards, exactly when the count
/// was one.
pub proof fn law_references_are_counted<R>(n: NodeView<R>)
    ensures
        n.referenced().handle == n.handle,
        n.referenced().deaths == n.deaths,
        n.refs < usize::MAX ==> n.referenced().refs == n.refs + 1,
        n.refs == usize::MAX ==> n.referenced().refs == 0,
        n.dereferenced().handle == n.handle,
        n.refs > 0 ==> n.dereferenced().refs == n.refs - 1,
        n.refs == 0 ==> n.dereferenced().refs == usize::MAX,
        n.refs == 1 ==> n.due() == n.deaths && n.dereferenced().deaths.len() == 0,
        n.refs != 1 ==> n.due().len() == 0 && n.dereferenced().deaths == n.deaths,
        n.refs > 0 ==> n.referenced().dereferenced() == n && n.referenced().due().len() == 0,
{
}

/// Replacing a node touches no other node, no handle and nothing that waits for clean-up.
pub proof fn law_one_node_is_replaced<R>(v: ContextView<R>, addr: usize, node: NodeView<R>)
    requires
        addr < v.arena.len(),
    ensures
        v.with(addr, node).arena.len() == v.arena.len(),
        v.with(addr, node).arena[addr as int] == node,
        forall|b: int|
            0 <= b < v.arena.len() && b != addr ==> #[trigger] v.with(addr, node).arena[b]
                == v.arena[b],
        v.with(addr, node).nodes == v.nodes,
        v.with(addr, node).next_handle == v.next_handle,
        v.with(addr, node).pending == v.pending,
{
}

/// A node that has been created is found under the handle that was next, with one reference and no
/// recipient. Nothing changes for the other nodes and handles, and the handle after it is next.
pub proof fn law_created_node_is_found<R>(v: ContextView<R>)
    requires
        v.arena.len() < usize::MAX,
    ensures
        v.created().nodes.contains_key(v.next_handle),
        v.created().nodes[v.next_handle] == v.arena.len(),
        v.created().arena.len() == v.arena.len() + 1,
        v.created().arena[v.arena.len() as int].handle == v.next_handle,
        v.created().arena[v.arena.len() as int].refs == 1,
        v.created().arena[v.arena.len() as int].deaths.len() == 0,
        forall|a: int| 0 <= a < v.arena.len() ==> #[trigger] v.created().arena[a] == v.arena[a],
        forall|h: u64|
            h != v.next_handle ==> (#[trigger] v.created().nodes.contains_key(h)
                <==> v.nodes.contains_key(h)),
        forall|h: u64|
            h != v.next_handle && v.nodes.contains_key(h) ==> #[trigger] v.created().nodes[h]
                == v.nodes[h],
        v.created().pending == v.pending,
        v.next_handle < u64::MAX ==> v.created().next_handle == v.next_handle + 1,
        v.next_handle == u64::MAX ==> v.created().next_handle == 0,
{
}

/// Cleaning up two batches one after the other is cleaning up both as one: the same nodes result, and
/// what is due is what the first makes due and after it what the second makes due.
pub proof fn law_batches_follow_each_other<R>(v: ContextView<R>, s: Seq<usize>, t: Seq<usize>)
    ensures
        v.cleaned(s + t) == v.cleaned(s).cleaned(t),
        v.due(s + t) == v.due(s) + v.cleaned(s).due(t),
    decreases t.len(),
{
    if t.len() == 0 {
        assert(s + t =~= s);
        assert(v.due(s) =~= v.due(s) + v.cleaned(s).due(t));
    } else {
        law_batches_follow_each_other(v, s, t.drop_last());
        assert((s + t).drop_last() =~= s + t.drop_last());
        assert(v.due(s + t) =~= v.due(s) + v.cleaned(s).due(t));
    }
}

/// A batch of distinct nodes: each node of it has one reference less afterwards, and no recipient if
/// that was the last; all other nodes, the handles and what waits stay as they are. What is due is,
/// node by node in the order of the batch, the recipients of those that lose their last reference.
pub proof fn law_cleanup_reaches_every_node<R>(v: ContextView<R>, batch: Seq<usize>)
    requires
        batch.no_duplicates(),
        forall|i: int| 0 <= i < batch.len() ==> (#[trigger] batch[i]) < v.arena.len(),
    ensures
        v.cleaned(batch).arena.len() == v.arena.len(),
        v.cleaned(batch).nodes == v.nodes,
        v.cleaned(batch).next_handle == v.next_handle,
        v.cleaned(batch).pending == v.pending,
        forall|a: usize|
            a < v.arena.len() && !batch.contains(a) ==> #[trigger] v.cleaned(batch).arena[a as int]
                == v.arena[a as int],
        forall|a: usize| #[trigger]
            batch.contains(a) ==> {
                let before = v.arena[a as int];
                let after = v.cleaned(batch).arena[a as int];
                &&& after.handle == before.handle
                &&& before.refs > 0 ==> after.refs == before.refs - 1
                &&& before.refs == 0 ==> after.refs == usize::MAX
                &&& before.refs == 1 ==> after.deaths.len() == 0
                &&& before.refs != 1 ==> after.deaths == before.deaths
            },
        v.due(batch) == batch.map_values(
            |a: usize|
                if v.arena[a as int].refs == 1 {
                    v.arena[a as int].deaths
                } else {
                    Seq::empty()
                },
        ).flatten(),
    decreases batch.len(),
{
    let f = |a: usize|
        if v.arena[a as int].refs == 1 {
            v.arena[a as int].deaths
        } else {
            Seq::empty()
        };
    if batch.len() == 0 {
        assert(batch.map_values(f) =~= Seq::empty());
    } else {
        let less = batch.drop_last();
        let last = batch.last();
        law_cleanup_reaches_every_node(v, less);
        assert(!less.contains(last));
        assert forall|a: usize| batch.contains(a) implies a == last || less.contains(a) by {
            let i = choose|i: int| 0 <= i < batch.len() && batch[i] == a;
            if i < less.len() {
                assert(less[i] == a);
            }
        }
        assert forall|a: usize| less.contains(a) implies batch.contains(a) by {
            let i = choose|i: int| 0 <= i < less.len() && less[i] == a;
            assert(batch[i] == a);
        }
        assert(batch[batch.len() - 1] == last);
        assert(batch.map_values(f).drop_last() =~= less.map_values(f));
        batch.map_values(f).lemma_flatten_and_flatten_alt_are_equivalent();
        less.map_values(f).lemma_flatten_and_flatten_alt_are_equivalent();
    }
}

/// Every recipient of a node that loses its last reference in a clean-up of distinct nodes is among
/// those that are due, whatever else the batch holds.
pub proof fn law_no_recipient_is_forgotten<R>(
    v: ContextView<R>,
    batch: Seq<usize>,
    addr: usize,
    j: int,
)
    requires
        batch.no_duplicates(),
        forall|i: int| 0 <= i < batch.len() ==> (#[trigger] batch[i]) < v.arena.len(),
        batch.contains(addr),
        v.arena[addr as int].refs == 1,
        0 <= j < v.arena[addr as int].deaths.len(),
    ensures
        v.due(batch).contains(v.arena[addr as int].deaths[j]),
    decreases batch.len(),
{
    let less = batch.drop_last();
    let d = v.arena[addr as int].deaths[j];
    law_cleanup_reaches_every_node(v, less);
    if batch.last() == addr {
        assert(!less.contains(addr));
        assert(v.due(batch)[v.due(less).len() + j] == d);
    } else {
        let i = choose|i: int| 0 <= i < batch.len() && batch[i] == addr;
        assert(less[i] == addr);
        law_no_recipient_is_forgotten(v, less, addr, j);
        let k = choose|k: int| 0 <= k < v.due(less).len() && v.due(less)[k] == d;
        assert(v.due(batch)[k] == d);
    }
}

/// Of two nodes that lose their last reference in one clean-up the recipients of the first are due and
/// after them those of the second.
pub proof fn law_two_nodes_notify_in_order<R>(v: ContextView<R>, a: usize, b: usize)
    requires
        a < v.arena.len(),
        b < v.arena.len(),
        a != b,
        v.arena[a as int].refs == 1,
        v.arena[b as int].refs == 1,
    ensures
        v.due(seq![a, b]) == v.arena[a as int].deaths + v.arena[b as int].deaths,
        v.due(seq![a, b]).len() == v.arena[a as int].deaths.len() + v.arena[b as int].deaths.len(),
{
    assert(seq![a, b].drop_last() =~= seq![a]);
    assert(seq![a].drop_last() =~= Seq::<usize>::empty());
    reveal_with_fuel(ContextView::cleaned, 3);
    reveal_with_fuel(ContextView::due, 3);
    assert(v.due(seq![a, b]) =~= v.arena[a as int].deaths + v.arena[b as int].deaths);
}

} // verus!
