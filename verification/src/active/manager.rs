//! A manager that finds nodes by number, releases them, and moves them from the list of active nodes
//! to a stack.
use std::collections::HashMap;

use vstd::prelude::*;

use crate::active::sweep::{alone, taken_out};
use crate::chains::{
    lemma_member_sound, ring, ring_insert_after, ring_push_back, ring_remove, sound_links,
};
use crate::links::{at, cells, inserted, next_of, placed, same_payload, Embeds, ListNode};
use crate::owned::lemma_grow;

verus! {

broadcast use vstd::std_specs::hash::group_hash_axioms;

/// A node with embedded links, the number it is known by and a reference count.
#[derive(Clone, Copy, Debug, PartialEq, Eq, Structural)]
pub struct Node {
    pub link: ListNode,
    pub id: usize,
    pub refcnt: usize,
}

impl Embeds for Node {
    open spec fn links(self) -> ListNode {
        self.link
    }

    open spec fn relinked(self, links: ListNode) -> Self {
        Node { link: links, id: self.id, refcnt: self.refcnt }
    }

    proof fn relinking(self, a: ListNode, b: ListNode) {
    }

    fn get_links(&self) -> (links: ListNode) {
        self.link
    }

    fn set_links(&mut self, links: ListNode) {
        self.link = links;
    }
}

/// A count after one reference has been given up.
pub open spec fn less_one(count: usize) -> usize {
    if count == 0 {
        0
    } else {
        (count - 1) as usize
    }
}

impl Node {
    /// Creates a node with one reference to it, on no list.
    pub fn new(id: usize) -> (node: Node)
        ensures
            node == (Node { link: ListNode { prev: None, next: None }, id, refcnt: 1 }),
    {
        Node { link: ListNode::new(), id, refcnt: 1 }
    }

    /// Gives up a reference, as far as there is one. Says whether none is left.
    pub fn dec_ref(&mut self) -> (last: bool)
        ensures
            *final(self) == (Node {
                link: old(self).link,
                id: old(self).id,
                refcnt: less_one(old(self).refcnt),
            }),
            last == (final(self).refcnt == 0),
    {
        self.refcnt = self.refcnt.saturating_sub(1);
        self.refcnt == 0
    }
}

/// A ring, known by its sentinel.
pub struct ListHead {
    pub head: usize,
}

impl ListHead {
    /// The list holds the nodes `s`, first node first.
    #[verifier::inline]
    pub open spec fn holds(self, m: Seq<ListNode>, s: Seq<usize>) -> bool {
        ring(m, self.head, s)
    }

    /// Creates an empty list. Its sentinel is put at the end of the memory.
    pub fn new(mem: &mut Vec<Node>) -> (list: ListHead)
        ensures
            list.head == old(mem).len(),
            final(mem)@ == old(mem)@.push(Node { link: alone(list.head), id: 0, refcnt: 0 }),
            list.holds(cells(final(mem)@), Seq::empty()),
    {
        let head: usize = mem.len();
        mem.push(Node { link: ListNode { prev: Some(head), next: Some(head) }, id: 0, refcnt: 0 });
        ListHead { head }
    }

    /// Whether the list has no nodes.
    pub fn is_empty<T: Embeds>(&self, mem: &Vec<T>) -> (empty: bool)
        requires
            self.head < mem.len(),
        ensures
            empty == (cells(mem@)[self.head as int].next == Some(self.head)),
            forall|s: Seq<usize>| #[trigger]
                self.holds(cells(mem@), s) ==> empty == (s.len() == 0),
    {
        next_of(mem, self.head) == Some(self.head)
    }

    /// Joins the neighbours of `entry` and links it to itself, so that removing it again changes
    /// nothing.
    pub fn remove<T: Embeds>(&self, mem: &mut Vec<T>, entry: usize)
        requires
            sound_links(cells(old(mem)@), entry),
        ensures
            cells(final(mem)@) == taken_out(cells(old(mem)@), entry),
            same_payload(old(mem)@, final(mem)@),
            forall|s: Seq<usize>, i: int|
                #![trigger self.holds(cells(old(mem)@), s), s[i]]
                self.holds(cells(old(mem)@), s) && 0 <= i < s.len() && s[i] == entry ==> self.holds(
                    cells(final(mem)@),
                    s.remove(i),
                ),
    {
        ring_remove(mem, entry, ListNode { prev: Some(entry), next: Some(entry) });
    }

    /// Puts `entry` behind `prev`.
    pub fn insert_after<T: Embeds>(&self, mem: &mut Vec<T>, prev: usize, entry: usize)
        requires
            entry < old(mem).len(),
            sound_links(cells(old(mem)@), prev),
        ensures
            cells(final(mem)@) == inserted(
                cells(old(mem)@),
                Some(prev),
                entry,
                cells(old(mem)@)[prev as int].next,
            ),
            same_payload(old(mem)@, final(mem)@),
            forall|s: Seq<usize>| #[trigger]
                self.holds(cells(old(mem)@), s) && !s.contains(entry) && entry != self.head && prev
                    == self.head ==> self.holds(cells(final(mem)@), s.insert(0, entry)),
            forall|s: Seq<usize>, i: int|
                #![trigger self.holds(cells(old(mem)@), s), s[i]]
                self.holds(cells(old(mem)@), s) && 0 <= i < s.len() && s[i] == prev && !s.contains(
                    entry,
                ) && entry != self.head ==> self.holds(
                    cells(final(mem)@),
                    s.insert(i + 1, entry),
                ),
    {
        ring_insert_after(mem, prev, entry);
    }

    /// Puts `entry` at the end of the list.
    pub fn push_back<T: Embeds>(&self, mem: &mut Vec<T>, entry: usize)
        requires
            entry < old(mem).len(),
            sound_links(cells(old(mem)@), self.head),
        ensures
            cells(final(mem)@) == inserted(
                cells(old(mem)@),
                cells(old(mem)@)[self.head as int].prev,
                entry,
                Some(self.head),
            ),
            same_payload(old(mem)@, final(mem)@),
            forall|s: Seq<usize>| #[trigger]
                self.holds(cells(old(mem)@), s) && !s.contains(entry) && entry != self.head
                    ==> self.holds(cells(final(mem)@), s.push(entry)),
    {
        ring_push_back(mem, self.head, entry);
    }
}

/// What a manager holds.
pub struct ManagerView {
    /// The addresses of the active nodes, first node first.
    pub active: Seq<usize>,
    /// Where the node with a number is.
    pub by_id: Map<usize, usize>,
    /// The number and the reference count of the node at each address.
    pub nodes: Seq<(usize, usize)>,
    /// The addresses of the nodes that have been moved to the stack, oldest first.
    pub stack: Seq<usize>,
}

/// `s` without `a`.
pub open spec fn without(s: Seq<usize>, a: usize) -> Seq<usize> {
    if s.contains(a) {
        s.remove(s.index_of(a))
    } else {
        s
    }
}

impl ManagerView {
    /// After a node with the number `id` and `refcnt` references has been added.
    pub open spec fn added(self, id: usize, refcnt: usize) -> ManagerView {
        let addr = self.nodes.len() as usize;
        ManagerView {
            active: self.active.push(addr),
            by_id: self.by_id.insert(id, addr),
            nodes: self.nodes.push((id, refcnt)),
            stack: self.stack,
        }
    }

    /// After a reference to the node with the number `id` has been given up.
    pub open spec fn released(self, id: usize) -> ManagerView {
        if !self.by_id.contains_key(id) {
            self
        } else {
            let a = self.by_id[id];
            let count = less_one(self.nodes[a as int].1);
            let nodes = self.nodes.update(a as int, (self.nodes[a as int].0, count));
            if count != 0 {
                ManagerView { nodes, ..self }
            } else {
                ManagerView {
                    active: without(self.active, a),
                    by_id: self.by_id.remove(id),
                    nodes,
                    stack: self.stack,
                }
            }
        }
    }

    /// After the node with the number `id` has been moved to the stack.
    pub open spec fn moved(self, id: usize) -> ManagerView {
        if !self.by_id.contains_key(id) {
            self
        } else {
            let a = self.by_id[id];
            ManagerView { active: without(self.active, a), stack: self.stack.push(a), ..self }
        }
    }
}

/// A manager of nodes.
pub struct Manager {
    mem: Vec<Node>,
    active_nodes: ListHead,
    nodes_by_id: HashMap<usize, usize>,
    stack: Vec<usize>,
    order: Ghost<Seq<usize>>,
}

/// The numbers and counts in memory.
spec fn payloads(mem: Seq<Node>) -> Seq<(usize, usize)> {
    Seq::new(mem.len(), |a: int| (mem[a].id, mem[a].refcnt))
}

/// Every node that is not on the list is linked to itself.
spec fn settled(m: Seq<ListNode>, head: usize, s: Seq<usize>) -> bool {
    forall|a: int|
        0 <= a < m.len() && a != head && !s.contains(a as usize) ==> #[trigger] m[a] == alone(
            a as usize,
        )
}

impl View for Manager {
    type V = ManagerView;

    closed spec fn view(&self) -> ManagerView {
        ManagerView {
            active: self.order@,
            by_id: self.nodes_by_id@,
            nodes: payloads(self.mem@),
            stack: self.stack@,
        }
    }
}

impl Manager {
    /// The links spell out the active nodes, all other nodes are on no list, and every number leads
    /// to a node.
    pub closed spec fn wf(self) -> bool {
        let m = cells(self.mem@);
        let head = self.active_nodes.head;
        &&& self.mem@.len() <= usize::MAX
        &&& ring(m, head, self.order@)
        &&& settled(m, head, self.order@)
        &&& forall|id: usize| #[trigger]
            self.nodes_by_id@.contains_key(id) ==> self.nodes_by_id@[id] < m.len()
                && self.nodes_by_id@[id] != head
    }

    /// Creates a manager without nodes. Address zero is taken by the sentinel of its list.
    pub fn new() -> (manager: Manager)
        ensures
            manager.wf(),
            manager@ == (ManagerView {
                active: Seq::empty(),
                by_id: Map::empty(),
                nodes: seq![(0usize, 0usize)],
                stack: Seq::empty(),
            }),
    {
        let mut mem: Vec<Node> = Vec::new();
        let active_nodes = ListHead::new(&mut mem);
        let manager = Manager {
            mem,
            active_nodes,
            nodes_by_id: HashMap::new(),
            stack: Vec::new(),
            order: Ghost(Seq::empty()),
        };
        proof {
            assert(payloads(mem@) =~= seq![(0usize, 0usize)]);
            assert(manager@.by_id =~= Map::empty());
            assert(manager@.stack =~= Seq::empty());
        }
        manager
    }

    /// Gives up a reference to the node with the number `id`. With the last one the node leaves the
    /// list, and its number is free again. An unknown number is ignored.
    pub fn node_release(&mut self, id: usize)
        requires
            old(self).wf(),
        ensures
            final(self).wf(),
            final(self)@ == old(self)@.released(id),
    {
        let addr: usize = match self.nodes_by_id.get(&id) {
            Some(addr) => *addr,
            None => {
                return;
            },
        };
        let ghost before = self.mem@;
        let mut node: Node = self.mem[addr];
        let last: bool = node.dec_ref();
        self.mem[addr] = node;
        proof {
            assert(cells(self.mem@) =~= cells(before));
            assert(payloads(self.mem@) =~= payloads(before).update(
                addr as int,
                (before[addr as int].id, less_one(before[addr as int].refcnt)),
            ));
        }
        if !last {
            return;
        }
        self.unlink(addr);
        self.nodes_by_id.remove(&id);
    }

    /// Takes the node at `addr` off the list, if it is there.
    fn unlink(&mut self, addr: usize)
        requires
            old(self).wf(),
            addr < old(self).mem@.len(),
            addr != old(self).active_nodes.head,
        ensures
            final(self).wf(),
            final(self)@ == (ManagerView {
                active: without(old(self)@.active, addr),
                ..old(self)@
            }),
            final(self).mem@.len() == old(self).mem@.len(),
            final(self).active_nodes.head == old(self).active_nodes.head,
    {
        let ghost m = cells(self.mem@);
        let ghost s = self.order@;
        let ghost head = self.active_nodes.head;
        let ghost before = self.mem@;
        proof {
            if s.contains(addr) {
                lemma_member_sound(m, Some(head), s, addr);
                let i = s.index_of(addr);
                lemma_still_settled(m, head, s, i);
                assert(ring(m, head, s) && s[i] == addr);
            } else {
                assert(m[addr as int] == alone(addr));
                assert(taken_out(m, addr) =~= m);
            }
        }
        self.active_nodes.remove(&mut self.mem, addr);
        self.order = Ghost(without(s, addr));
        assert(payloads(self.mem@) =~= payloads(before));
    }

    /// Moves the node with the number `id` from the list to the stack. An unknown number is ignored.
    pub fn move_node_to_stack(&mut self, id: usize)
        requires
            old(self).wf(),
        ensures
            final(self).wf(),
            final(self)@ == old(self)@.moved(id),
    {
        let addr: usize = match self.nodes_by_id.get(&id) {
            Some(addr) => *addr,
            None => {
                return;
            },
        };
        self.unlink(addr);
        self.stack.push(addr);
    }

    /// Puts a node at the end of the list and hands out its address.
    pub fn add_node(&mut self, node: Node) -> (addr: usize)
        requires
            old(self).wf(),
        ensures
            final(self).wf(),
            addr == old(self)@.nodes.len(),
            final(self)@ == old(self)@.added(node.id, node.refcnt),
    {
        let ghost s = self.order@;
        let ghost head = self.active_nodes.head;
        let ghost before = self.mem@;
        let addr: usize = self.mem.len();
        let id: usize = node.id;
        proof {
            lemma_grow(before, node, Some(head), s);
        }
        self.mem.push(node);
        let ghost grown = self.mem@;
        assert(ring(cells(grown), head, s) && !s.contains(addr));
        self.active_nodes.push_back(&mut self.mem, addr);
        self.nodes_by_id.insert(id, addr);
        self.order = Ghost(s.push(addr));
        proof {
            let t = s.push(addr);
            let m = cells(self.mem@);
            assert(self.mem@.len() == self.mem.len());
            assert forall|a: int|
                0 <= a < m.len() && a != head && !t.contains(a as usize) implies #[trigger] m[a]
                == alone(a as usize) by {
                assert(a != addr) by {
                    assert(t[s.len() as int] == addr);
                }
                assert(!s.contains(a as usize)) by {
                    if s.contains(a as usize) {
                        let q = s.index_of(a as usize);
                        assert(t[q] == a as usize);
                    }
                }
                assert(cells(before)[a] == alone(a as usize));
                let p = cells(grown)[head as int].prev;
                if s.len() > 0 {
                    assert(s.contains(s[s.len() - 1]));
                }
                assert(p == at(s, Some(head), s.len() - 1));
            }
            assert(payloads(self.mem@) =~= payloads(before).push((node.id, node.refcnt)));
        }
        addr
    }

    /// Whether the list of active nodes is empty.
    pub fn active_nodes_is_empty(&self) -> (empty: bool)
        requires
            self.wf(),
        ensures
            empty == (self@.active.len() == 0),
    {
        self.active_nodes.is_empty(&self.mem)
    }

    /// How many nodes have been moved to the stack.
    pub fn stack_len(&self) -> (len: usize)
        ensures
            len == self@.stack.len(),
    {
        self.stack.len()
    }
}

proof fn lemma_still_settled(m: Seq<ListNode>, head: usize, s: Seq<usize>, i: int)
    requires
        ring(m, head, s),
        settled(m, head, s),
        m.len() <= usize::MAX,
        0 <= i < s.len(),
    ensures
        settled(taken_out(m, s[i]), head, s.remove(i)),
{
    let c = taken_out(m, s[i]);
    let t = s.remove(i);
    assert(placed(m, Some(head), s, i));
    assert forall|a: int|
        0 <= a < c.len() && a != head && !t.contains(a as usize) implies #[trigger] c[a] == alone(
        a as usize,
    ) by {
        if a != s[i] {
            assert(!s.contains(a as usize)) by {
                if s.contains(a as usize) {
                    let q = s.index_of(a as usize);
                    assert(t[if q < i {
                        q
                    } else {
                        q - 1
                    }] == a as usize);
                }
            }
            assert(m[a] == alone(a as usize));
            if i > 0 {
                assert(s.contains(s[i - 1]));
            }
            if i + 1 < s.len() {
                assert(s.contains(s[i + 1]));
            }
        }
    }
}

/// A node that has been moved to the stack can still be released: the list stays as it is, and the
/// stack keeps the node.
pub proof fn law_release_after_move(v: ManagerView, id: usize)
    requires
        v.by_id.contains_key(id),
        v.active.no_duplicates(),
        v.by_id[id] < v.nodes.len(),
    ensures
        v.moved(id).released(id).active == v.moved(id).active,
        v.moved(id).released(id).stack == v.moved(id).stack,
        v.moved(id).released(id).stack.last() == v.by_id[id],
{
    let a = v.by_id[id];
    let s = v.active;
    let t = without(s, a);
    if s.contains(a) {
        let i = s.index_of(a);
        if t.contains(a) {
            let j = t.index_of(a);
            assert(t[j] == s[if j < i {
                j
            } else {
                j + 1
            }]);
        }
    }
}

/// A count goes down by one and stays at zero.
pub proof fn law_counts_stop_at_zero(count: usize)
    ensures
        count > 0 ==> less_one(count) == count - 1,
        count == 0 ==> less_one(count) == 0,
{
}

/// Taking a node off a list of distinct nodes leaves the others in their order.
pub proof fn law_one_node_leaves(s: Seq<usize>, a: usize)
    requires
        s.no_duplicates(),
    ensures
        without(s, a) == s.filter(|b: usize| b != a),
    decreases s.len(),
{
    reveal(Seq::filter);
    let keep = |b: usize| b != a;
    if s.len() > 0 {
        let less = s.drop_last();
        law_one_node_leaves(less, a);
        if s.last() == a {
            assert(s.contains(a));
            assert(s.index_of(a) == s.len() - 1);
            assert(!less.contains(a));
            assert(without(s, a) =~= less);
        } else if s.contains(a) {
            let i = s.index_of(a);
            assert(less[i] == a);
            assert(less.index_of(a) == i);
            assert(without(s, a) =~= without(less, a).push(s.last()));
        } else {
            assert(!less.contains(a));
            assert(without(s, a) =~= without(less, a).push(s.last()));
        }
    }
}

/// A node that has been added is found under its number, is the last of the active ones, and has the
/// count it was given. Nothing changes for other nodes and numbers.
pub proof fn law_added_node_is_found(v: ManagerView, id: usize, refcnt: usize)
    requires
        v.nodes.len() < usize::MAX,
    ensures
        v.added(id, refcnt).by_id.contains_key(id),
        v.added(id, refcnt).by_id[id] == v.nodes.len(),
        v.added(id, refcnt).nodes.len() == v.nodes.len() + 1,
        v.added(id, refcnt).nodes[v.nodes.len() as int].0 == id,
        v.added(id, refcnt).nodes[v.nodes.len() as int].1 == refcnt,
        forall|a: int|
            0 <= a < v.nodes.len() ==> #[trigger] v.added(id, refcnt).nodes[a] == v.nodes[a],
        v.added(id, refcnt).active.len() == v.active.len() + 1,
        v.added(id, refcnt).active.last() == v.nodes.len(),
        v.added(id, refcnt).active.drop_last() == v.active,
        forall|i: usize|
            i != id ==> (#[trigger] v.added(id, refcnt).by_id.contains_key(i)
                <==> v.by_id.contains_key(i)),
        forall|i: usize|
            i != id && v.by_id.contains_key(i) ==> #[trigger] v.added(id, refcnt).by_id[i]
                == v.by_id[i],
        v.added(id, refcnt).stack == v.stack,
{
    assert(v.added(id, refcnt).active.drop_last() =~= v.active);
}

/// A release takes one off the count of the node. Exactly when none is left the node leaves the list of
/// active nodes and its number is forgotten. An unknown number changes nothing.
pub proof fn law_release_takes_one(v: ManagerView, id: usize)
    requires
        v.active.no_duplicates(),
        v.by_id.contains_key(id) ==> v.by_id[id] < v.nodes.len(),
    ensures
        !v.by_id.contains_key(id) ==> v.released(id) == v,
        v.by_id.contains_key(id) ==> {
            let a = v.by_id[id] as int;
            let before = v.nodes[a];
            let after = v.released(id).nodes[a];
            &&& after.0 == before.0
            &&& before.1 > 0 ==> after.1 == before.1 - 1
            &&& before.1 == 0 ==> after.1 == 0
            &&& v.released(id).nodes.len() == v.nodes.len()
            &&& forall|b: int|
                0 <= b < v.nodes.len() && b != a ==> #[trigger] v.released(id).nodes[b]
                    == v.nodes[b]
            &&& v.released(id).stack == v.stack
            &&& before.1 > 1 ==> v.released(id).active == v.active && v.released(id).by_id == v.by_id
            &&& before.1 <= 1 ==> v.released(id).active == v.active.filter(|b: usize| b != a)
                && v.released(id).by_id == v.by_id.remove(id)
        },
{
    if v.by_id.contains_key(id) {
        let a = v.by_id[id];
        law_one_node_leaves(v.active, a);
        assert((|b: usize| b != a) =~= (|b: usize| b != a as int));
    }
}

/// A node that is moved leaves the list of active nodes and lies on top of the stack. Its number and its
/// count stay, and so does everything else. An unknown number changes nothing.
pub proof fn law_moved_node_is_on_the_stack(v: ManagerView, id: usize)
    requires
        v.active.no_duplicates(),
    ensures
        !v.by_id.contains_key(id) ==> v.moved(id) == v,
        v.by_id.contains_key(id) ==> {
            &&& v.moved(id).stack.len() == v.stack.len() + 1
            &&& v.moved(id).stack.last() == v.by_id[id]
            &&& v.moved(id).stack.drop_last() == v.stack
            &&& v.moved(id).active == v.active.filter(|b: usize| b != v.by_id[id])
            &&& v.moved(id).by_id == v.by_id
            &&& v.moved(id).nodes == v.nodes
        },
{
    if v.by_id.contains_key(id) {
        let a = v.by_id[id];
        law_one_node_leaves(v.active, a);
        assert((|b: usize| b != a) =~= (|b: usize| b != v.by_id[id]));
        assert(v.moved(id).stack.drop_last() =~= v.stack);
    }
}

/// Relinking an element sets its link fields and keeps its number and count.
pub proof fn law_relinking_keeps_the_payload(x: Node, links: ListNode)
    ensures
        x.relinked(links).links().prev == links.prev,
        x.relinked(links).links().next == links.next,
        x.relinked(links).id == x.id,
        x.relinked(links).refcnt == x.refcnt,
{
}

} // verus!
