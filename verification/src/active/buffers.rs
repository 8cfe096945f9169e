//! Nodes on the list of active nodes of a buffer allocator, and the sweep that takes the idle ones
//! off.
use vstd::prelude::*;

use crate::active::sweep::{
    alone, lemma_rest_members, lemma_taken_out_frame, lemma_taken_out_outside, taken_out,
};
use crate::chains::{
    lemma_filter_members, lemma_filter_rest, lemma_member_sound, ring, ring_insert_after,
    ring_remove, sound_links,
};
use crate::links::{
    at, cells, inserted, lemma_same_payload_refl, lemma_same_payload_trans, lemma_unique, next_of,
    placed, prev_of, put_links, same_payload, Embeds, ListLink, ListNode,
};

verus! {

/// The link fields that a node embeds, or the sentinel of a ring.
#[derive(Clone, Copy, Debug, PartialEq, Eq, Structural)]
pub struct ListHead {
    pub next: ListLink,
    pub prev: ListLink,
}

impl ListHead {
    /// Creates link fields that have yet to be initialised.
    pub fn new() -> (head: ListHead)
        ensures
            head == (ListHead { next: None, prev: None }),
    {
        ListHead { next: None, prev: None }
    }

    /// Links `node` to itself.
    pub fn init<T: Embeds>(mem: &mut Vec<T>, node: usize)
        requires
            node < old(mem).len(),
        ensures
            cells(final(mem)@) == cells(old(mem)@).update(node as int, alone(node)),
            same_payload(old(mem)@, final(mem)@),
            ring(cells(final(mem)@), node, Seq::empty()),
    {
        put_links(mem, node, ListNode { prev: Some(node), next: Some(node) });
    }
}

/// Takes `link` out of its ring and links it to itself. Doing so again changes nothing.
pub fn list_del_init<T: Embeds>(mem: &mut Vec<T>, link: usize)
    requires
        sound_links(cells(old(mem)@), link),
    ensures
        cells(final(mem)@) == taken_out(cells(old(mem)@), link),
        same_payload(old(mem)@, final(mem)@),
        forall|h: usize, s: Seq<usize>, i: int|
            #![trigger ring(cells(old(mem)@), h, s), s[i]]
            ring(cells(old(mem)@), h, s) && 0 <= i < s.len() && s[i] == link ==> ring(
                cells(final(mem)@),
                h,
                s.remove(i),
            ),
{
    proof {
        lemma_same_payload_refl(mem@);
    }
    if next_of(mem, link) != Some(link) || prev_of(mem, link) != Some(link) {
        ring_remove(mem, link, ListNode { prev: Some(link), next: Some(link) });
    } else {
        proof {
            let m = cells(mem@);
            law_deletion_is_idempotent(m, link);
            assert forall|h: usize, s: Seq<usize>, i: int|
                #![trigger ring(m, h, s), s[i]]
                ring(m, h, s) && 0 <= i < s.len() && s[i] == link implies false by {
                assert(placed(m, Some(h), s, i));
                if i + 1 < s.len() {
                    assert(s[i] != s[i + 1]);
                }
            }
        }
    }
}

/// Taking a node out that is linked to itself changes nothing.
pub proof fn law_deletion_is_idempotent(m: Seq<ListNode>, link: usize)
    requires
        link < m.len(),
        m[link as int] == alone(link),
    ensures
        taken_out(m, link) == m,
{
    assert(taken_out(m, link) =~= m);
}

/// A node with embedded links, its strong references and its pending transactions.
#[derive(Clone, Copy, Debug, PartialEq, Eq, Structural)]
pub struct Node {
    pub active_link: ListHead,
    pub strong_refs: usize,
    pub async_txs: usize,
}

impl Embeds for Node {
    open spec fn links(self) -> ListNode {
        ListNode { prev: self.active_link.prev, next: self.active_link.next }
    }

    open spec fn relinked(self, links: ListNode) -> Self {
        Node {
            active_link: ListHead { next: links.next, prev: links.prev },
            strong_refs: self.strong_refs,
            async_txs: self.async_txs,
        }
    }

    proof fn relinking(self, a: ListNode, b: ListNode) {
    }

    fn get_links(&self) -> (links: ListNode) {
        ListNode { prev: self.active_link.prev, next: self.active_link.next }
    }

    fn set_links(&mut self, links: ListNode) {
        self.active_link = ListHead { next: links.next, prev: links.prev };
    }
}

impl Node {
    /// Creates a node with one strong reference and no pending transactions.
    pub fn new() -> (node: Node)
        ensures
            node == (Node {
                active_link: ListHead { next: None, prev: None },
                strong_refs: 1,
                async_txs: 0,
            }),
    {
        Node { active_link: ListHead::new(), strong_refs: 1, async_txs: 0 }
    }

    /// Gives up a strong reference to the node at `node`, which leaves its list with the last one.
    pub fn release(mem: &mut Vec<Node>, node: usize)
        requires
            node < old(mem).len(),
            old(mem)@[node as int].strong_refs > 0,
            old(mem)@[node as int].strong_refs == 1 ==> sound_links(cells(old(mem)@), node),
        ensures
            final(mem).len() == old(mem).len(),
            final(mem)@[node as int].strong_refs == old(mem)@[node as int].strong_refs - 1,
            forall|a: int|
                0 <= a < old(mem).len() ==> (#[trigger] final(mem)@[a]).async_txs == old(
                    mem)@[a].async_txs && (a != node ==> final(mem)@[a].strong_refs == old(
                    mem)@[a].strong_refs),
            cells(final(mem)@) == if old(mem)@[node as int].strong_refs == 1 {
                taken_out(cells(old(mem)@), node)
            } else {
                cells(old(mem)@)
            },
            forall|h: usize, s: Seq<usize>, i: int|
                #![trigger ring(cells(old(mem)@), h, s), s[i]]
                ring(cells(old(mem)@), h, s) && 0 <= i < s.len() && s[i] == node && old(
                    mem)@[node as int].strong_refs == 1 ==> ring(
                    cells(final(mem)@),
                    h,
                    s.remove(i),
                ),
    {
        let mut state: Node = mem[node];
        state.strong_refs = state.strong_refs - 1;
        let last: bool = state.strong_refs == 0;
        mem[node] = state;
        let ghost counted = mem@;
        assert(cells(counted) =~= cells(old(mem)@));
        if last {
            list_del_init(mem, node);
            assert forall|a: int| 0 <= a < mem.len() implies (#[trigger] mem@[a]).strong_refs
                == counted[a].strong_refs && mem@[a].async_txs == counted[a].async_txs by {}
        }
    }
}

/// A node that a sweep takes off: it is referenced and nothing is pending on it.
pub open spec fn idle(node: Node) -> bool {
    node.async_txs == 0 && node.strong_refs > 0
}

/// The addresses of nodes that a sweep leaves on the list.
pub open spec fn busy_in(mem: Seq<Node>) -> spec_fn(usize) -> bool {
    |a: usize| !idle(mem[a as int])
}

/// The list of active nodes, known by its sentinel.
pub struct BinderAlloc {
    pub active_nodes: usize,
}

impl BinderAlloc {
    /// The list holds the nodes `s`, first node first.
    #[verifier::inline]
    pub open spec fn holds(self, m: Seq<ListNode>, s: Seq<usize>) -> bool {
        ring(m, self.active_nodes, s)
    }

    /// Creates an empty list. Its sentinel is put at the end of the memory.
    pub fn new(mem: &mut Vec<Node>) -> (alloc: BinderAlloc)
        ensures
            alloc.active_nodes == old(mem).len(),
            final(mem)@ == old(mem)@.push(
                Node {
                    active_link: ListHead {
                        next: Some(alloc.active_nodes),
                        prev: Some(alloc.active_nodes),
                    },
                    strong_refs: 0,
                    async_txs: 0,
                },
            ),
            alloc.holds(cells(final(mem)@), Seq::empty()),
    {
        let head: usize = mem.len();
        mem.push(
            Node {
                active_link: ListHead { next: Some(head), prev: Some(head) },
                strong_refs: 0,
                async_txs: 0,
            },
        );
        BinderAlloc { active_nodes: head }
    }

    /// Takes all idle nodes off the list. The others stay, in order.
    pub fn buffer_move_to_stack(&self, mem: &mut Vec<Node>)
        requires
            exists|s: Seq<usize>| self.holds(cells(old(mem)@), s),
        ensures
            same_payload(old(mem)@, final(mem)@),
            forall|s: Seq<usize>| #[trigger]
                self.holds(cells(old(mem)@), s) ==> {
                    &&& self.holds(cells(final(mem)@), s.filter(busy_in(old(mem)@)))
                    &&& forall|i: int|
                        0 <= i < s.len() && idle(old(mem)@[s[i] as int]) ==> cells(
                            final(mem)@,
                        )[#[trigger] s[i] as int] == alone(s[i])
                    &&& forall|a: int|
                        0 <= a < old(mem).len() && a != self.active_nodes && !s.contains(
                            a as usize,
                        ) ==> #[trigger] cells(final(mem)@)[a] == cells(old(mem)@)[a]
                },
    {
        let ghost m = cells(mem@);
        let ghost head = self.active_nodes;
        let ghost s = choose|s: Seq<usize>| ring(m, head, s);
        let ghost busy = busy_in(mem@);
        let ghost mut k: int = 0;
        let mut pos: ListLink = next_of(mem, self.active_nodes);
        proof {
            reveal(Seq::filter);
            lemma_same_payload_refl(mem@);
            assert(s.take(0).filter(busy) + s.skip(0) =~= s);
        }
        while pos != Some(self.active_nodes)
            invariant
                m == cells(old(mem)@),
                head == self.active_nodes,
                ring(m, head, s),
                busy == busy_in(old(mem)@),
                0 <= k <= s.len(),
                pos == at(s, Some(head), k),
                ring(cells(mem@), head, s.take(k).filter(busy) + s.skip(k)),
                same_payload(old(mem)@, mem@),
                forall|i: int|
                    0 <= i < k && idle(old(mem)@[s[i] as int]) ==> cells(
                        mem@,
                    )[#[trigger] s[i] as int] == alone(s[i]),
                forall|a: int|
                    0 <= a < m.len() && a != head && !s.contains(a as usize)
                        ==> #[trigger] cells(mem@)[a] == m[a],
            decreases s.len() - k,
        {
            let ghost t = s.take(k).filter(busy);
            let ghost now = t + s.skip(k);
            let ghost before = mem@;
            let ghost at_now = t.len() as int;
            proof {
                lemma_filter_rest(s, k, busy);
                assert(placed(cells(mem@), Some(head), now, at_now));
                assert(now[at_now] == s[k]);
                assert(at(now, Some(head), at_now + 1) == at(s, Some(head), k + 1));
            }
            let node: usize = pos.unwrap();
            let next_pos: ListLink = next_of(mem, node);
            assert(mem@[node as int] == old(mem)@[node as int].relinked(mem@[node as int].links()));
            if mem[node].async_txs == 0 && mem[node].strong_refs > 0 {
                proof {
                    lemma_member_sound(cells(mem@), Some(head), now, node);
                    lemma_taken_out_frame(cells(mem@), head, now, at_now, s, k);
                    lemma_rest_members(s, k, busy);
                    assert(mem@.len() == mem.len());
                    lemma_taken_out_outside(cells(mem@), head, now, at_now);
                }
                list_del_init(mem, node);
                proof {
                    lemma_same_payload_trans(old(mem)@, before, mem@);
                }
            }
            pos = next_pos;
            proof {
                k = k + 1;
            }
        }
        proof {
            assert(s.take(s.len() as int) =~= s);
            assert(s.take(k).filter(busy) + s.skip(k) =~= s.filter(busy));
            assert forall|t: Seq<usize>| #[trigger] ring(m, head, t) implies t == s by {
                lemma_unique(m, Some(head), s, t);
            }
        }
    }

    /// Puts a node in front of the list.
    pub fn add_active_node(&self, mem: &mut Vec<Node>, node: usize)
        requires
            node < old(mem).len(),
            node != self.active_nodes,
            sound_links(cells(old(mem)@), self.active_nodes),
        ensures
            cells(final(mem)@) == inserted(
                cells(old(mem)@),
                Some(self.active_nodes),
                node,
                cells(old(mem)@)[self.active_nodes as int].next,
            ),
            same_payload(old(mem)@, final(mem)@),
            forall|s: Seq<usize>| #[trigger]
                self.holds(cells(old(mem)@), s) && !s.contains(node) ==> self.holds(
                    cells(final(mem)@),
                    s.insert(0, node),
                ),
    {
        let ghost m = cells(mem@);
        ListHead::init(mem, node);
        let ghost m1 = mem@;
        assert(cells(m1)[self.active_nodes as int] == m[self.active_nodes as int]);
        ring_insert_after(mem, self.active_nodes, node);
        proof {
            lemma_same_payload_trans(old(mem)@, m1, mem@);
            let first = m[self.active_nodes as int].next;
            assert(cells(m1).update(
                node as int,
                ListNode { prev: Some(self.active_nodes), next: first },
            ) =~= m.update(node as int, ListNode { prev: Some(self.active_nodes), next: first }));
            assert forall|s: Seq<usize>| #[trigger]
                ring(m, self.active_nodes, s) && !s.contains(node) implies ring(
                cells(mem@),
                self.active_nodes,
                s.insert(0, node),
            ) by {
                assert forall|i: int| 0 <= i < s.len() implies cells(m1)[#[trigger] s[i] as int]
                    == m[s[i] as int] by {
                    assert(s[i] != node);
                }
                crate::links::lemma_frame(m, cells(m1), Some(self.active_nodes), s);
                assert(ring(cells(m1), self.active_nodes, s));
            }
        }
    }
}

/// After a sweep exactly the nodes that are not idle are left on the list.
pub proof fn law_sweep_takes_exactly_the_idle(mem: Seq<Node>, s: Seq<usize>)
    ensures
        forall|a: usize| #[trigger]
            s.filter(busy_in(mem)).contains(a) <==> s.contains(a) && !idle(mem[a as int]),
{
    lemma_filter_members(s, busy_in(mem));
}

/// The sweep takes off exactly the nodes that have references and no transaction under way; the others
/// keep their order.
pub proof fn law_busy_nodes_stay(mem: Seq<Node>, s: Seq<usize>)
    ensures
        forall|node: Node| #[trigger] idle(node) <==> node.async_txs == 0 && node.strong_refs > 0,
        s.filter(busy_in(mem)) == s.filter(
            |a: usize| mem[a as int].async_txs != 0 || mem[a as int].strong_refs == 0,
        ),
{
    assert(busy_in(mem) =~= (|a: usize|
        mem[a as int].async_txs != 0 || mem[a as int].strong_refs == 0));
}

/// Relinking an element sets its link fields and keeps its counts.
pub proof fn law_relinking_keeps_the_payload(x: Node, links: ListNode)
    ensures
        x.relinked(links).links().prev == links.prev,
        x.relinked(links).links().next == links.next,
        x.relinked(links).strong_refs == x.strong_refs,
        x.relinked(links).async_txs == x.async_txs,
{
}

/// The link fields of a node are its place on the list of active nodes.
pub proof fn law_active_link_is_the_place(x: Node)
    ensures
        x.links().prev == x.active_link.prev,
        x.links().next == x.active_link.next,
{
}

} // verus!
