//! Nodes that leave their list when the last reference goes, and a sweep that collects the dead ones.
use std::collections::VecDeque;

use vstd::prelude::*;

use crate::chains::{
    lemma_filter_members, lemma_filter_rest, lemma_filter_step, lemma_member_sound, ring,
    ring_push_back, ring_remove, sound_links,
};
use crate::links::{
    at, bridged, cells, inserted, lemma_same_payload_refl, lemma_same_payload_trans, lemma_unique,
    next_of, placed, same_payload, Embeds, ListLink, ListNode,
};

verus! {

/// A node with embedded links, a reference count and a mark for the dead.
#[derive(Clone, Copy, Debug, PartialEq, Eq, Structural)]
pub struct Node {
    pub links: ListNode,
    pub refcount: usize,
    pub dead: bool,
}

impl Embeds for Node {
    open spec fn links(self) -> ListNode {
        self.links
    }

    open spec fn relinked(self, links: ListNode) -> Self {
        Node { links, refcount: self.refcount, dead: self.dead }
    }

    proof fn relinking(self, a: ListNode, b: ListNode) {
    }

    fn get_links(&self) -> (links: ListNode) {
        self.links
    }

    fn set_links(&mut self, links: ListNode) {
        self.links = links;
    }
}

/// The links of a node that is on no list: they lead back to it.
pub open spec fn alone(node: usize) -> ListNode {
    ListNode { prev: Some(node), next: Some(node) }
}

/// The link fields after `node` has been taken out of its ring.
pub open spec fn taken_out(m: Seq<ListNode>, node: usize) -> Seq<ListNode> {
    bridged(m, node).update(node as int, alone(node))
}

/// The addresses of dead nodes.
pub open spec fn dead_in(mem: Seq<Node>) -> spec_fn(usize) -> bool {
    |a: usize| mem[a as int].dead
}

/// The addresses of nodes that are not dead.
pub open spec fn live_in(mem: Seq<Node>) -> spec_fn(usize) -> bool {
    |a: usize| !mem[a as int].dead
}

impl Node {
    /// Creates a node with one reference to it, on no list.
    pub fn new() -> (node: Node)
        ensures
            node == (Node {
                links: ListNode { prev: None, next: None },
                refcount: 1,
                dead: false,
            }),
    {
        Node { links: ListNode::new(), refcount: 1, dead: false }
    }

    /// Gives up a reference to the node at `node`. With the last one the node dies and leaves its
    /// list.
    pub fn release(mem: &mut Vec<Node>, node: usize)
        requires
            node < old(mem).len(),
            old(mem)@[node as int].refcount > 0,
            old(mem)@[node as int].refcount == 1 ==> sound_links(cells(old(mem)@), node),
        ensures
            final(mem).len() == old(mem).len(),
            final(mem)@[node as int].refcount == old(mem)@[node as int].refcount - 1,
            final(mem)@[node as int].dead == (old(mem)@[node as int].dead || old(
                mem)@[node as int].refcount == 1),
            forall|a: int|
                0 <= a < old(mem).len() && a != node ==> (#[trigger] final(mem)@[a]).refcount
                    == old(mem)@[a].refcount && final(mem)@[a].dead == old(mem)@[a].dead,
            cells(final(mem)@) == if old(mem)@[node as int].refcount == 1 {
                taken_out(cells(old(mem)@), node)
            } else {
                cells(old(mem)@)
            },
            forall|h: usize, s: Seq<usize>, i: int|
                #![trigger ring(cells(old(mem)@), h, s), s[i]]
                ring(cells(old(mem)@), h, s) && 0 <= i < s.len() && s[i] == node && old(
                    mem)@[node as int].refcount == 1 ==> ring(cells(final(mem)@), h, s.remove(i)),
    {
        let mut state: Node = mem[node];
        state.refcount = state.refcount - 1;
        if state.refcount == 0 {
            state.dead = true;
        }
        let last: bool = state.refcount == 0;
        mem[node] = state;
        let ghost counted = mem@;
        assert(cells(counted) =~= cells(old(mem)@));
        if last {
            Self::do_unlink(mem, node);
            assert forall|a: int| 0 <= a < mem.len() implies (#[trigger] mem@[a]).refcount
                == counted[a].refcount && mem@[a].dead == counted[a].dead by {}
        }
    }

    /// Takes the node at `node` out of its ring and links it to itself.
    pub fn do_unlink(mem: &mut Vec<Node>, node: usize)
        requires
            sound_links(cells(old(mem)@), node),
        ensures
            cells(final(mem)@) == taken_out(cells(old(mem)@), node),
            same_payload(old(mem)@, final(mem)@),
            forall|h: usize, s: Seq<usize>, i: int|
                #![trigger ring(cells(old(mem)@), h, s), s[i]]
                ring(cells(old(mem)@), h, s) && 0 <= i < s.len() && s[i] == node ==> ring(
                    cells(final(mem)@),
                    h,
                    s.remove(i),
                ),
    {
        ring_remove(mem, node, ListNode { prev: Some(node), next: Some(node) });
    }
}

/// The list of nodes, known by its sentinel.
pub struct Alloc {
    pub head: usize,
}

impl Alloc {
    /// The list holds the nodes `s`, first node first.
    #[verifier::inline]
    pub open spec fn holds(self, m: Seq<ListNode>, s: Seq<usize>) -> bool {
        ring(m, self.head, s)
    }

    /// Creates an empty list. Its sentinel is put at the end of the memory.
    pub fn new(mem: &mut Vec<Node>) -> (alloc: Alloc)
        ensures
            alloc.head == old(mem).len(),
            final(mem)@ == old(mem)@.push(
                Node { links: alone(alloc.head), refcount: 1, dead: false },
            ),
            alloc.holds(cells(final(mem)@), Seq::empty()),
    {
        let head: usize = mem.len();
        mem.push(
            Node {
                links: ListNode { prev: Some(head), next: Some(head) },
                refcount: 1,
                dead: false,
            },
        );
        Alloc { head }
    }

    /// Puts a node at the end of the list.
    pub fn add_node(&self, mem: &mut Vec<Node>, node: usize)
        requires
            node < old(mem).len(),
            sound_links(cells(old(mem)@), self.head),
        ensures
            cells(final(mem)@) == inserted(
                cells(old(mem)@),
                cells(old(mem)@)[self.head as int].prev,
                node,
                Some(self.head),
            ),
            same_payload(old(mem)@, final(mem)@),
            forall|s: Seq<usize>| #[trigger]
                self.holds(cells(old(mem)@), s) && !s.contains(node) && node != self.head
                    ==> self.holds(cells(final(mem)@), s.push(node)),
    {
        ring_push_back(mem, self.head, node);
    }

    /// Moves all dead nodes from the list to the end of `stack`, in order. The others stay.
    pub fn move_to_stack(&self, mem: &mut Vec<Node>, stack: &mut VecDeque<usize>)
        requires
            exists|s: Seq<usize>| self.holds(cells(old(mem)@), s),
        ensures
            same_payload(old(mem)@, final(mem)@),
            forall|s: Seq<usize>| #[trigger]
                self.holds(cells(old(mem)@), s) ==> {
                    &&& self.holds(cells(final(mem)@), s.filter(live_in(old(mem)@)))
                    &&& final(stack)@ == old(stack)@ + s.filter(dead_in(old(mem)@))
                    &&& forall|i: int|
                        0 <= i < s.len() && old(mem)@[s[i] as int].dead ==> cells(
                            final(mem)@,
                        )[#[trigger] s[i] as int] == alone(s[i])
                    &&& forall|a: int|
                        0 <= a < old(mem).len() && a != self.head && !s.contains(a as usize)
                            ==> #[trigger] cells(final(mem)@)[a] == cells(old(mem)@)[a]
                },
    {
        let ghost m = cells(mem@);
        let ghost s = choose|s: Seq<usize>| ring(m, self.head, s);
        let ghost live = live_in(mem@);
        let ghost dead = dead_in(mem@);
        let ghost mut k: int = 0;
        let mut cur: ListLink = next_of(mem, self.head);
        proof {
            reveal(Seq::filter);
            lemma_same_payload_refl(mem@);
            assert(s.take(0).filter(live) + s.skip(0) =~= s);
            assert(stack@ =~= old(stack)@ + s.take(0).filter(dead));
        }
        while cur != Some(self.head)
            invariant
                m == cells(old(mem)@),
                ring(m, self.head, s),
                live == live_in(old(mem)@),
                dead == dead_in(old(mem)@),
                0 <= k <= s.len(),
                cur == at(s, Some(self.head), k),
                ring(cells(mem@), self.head, s.take(k).filter(live) + s.skip(k)),
                stack@ == old(stack)@ + s.take(k).filter(dead),
                same_payload(old(mem)@, mem@),
                forall|i: int|
                    0 <= i < k && old(mem)@[s[i] as int].dead ==> cells(
                        mem@,
                    )[#[trigger] s[i] as int] == alone(s[i]),
                forall|a: int|
                    0 <= a < m.len() && a != self.head && !s.contains(a as usize)
                        ==> #[trigger] cells(mem@)[a] == m[a],
            decreases s.len() - k,
        {
            let ghost t = s.take(k).filter(live);
            let ghost now = t + s.skip(k);
            let ghost before = mem@;
            let ghost at_now = t.len() as int;
            proof {
                lemma_filter_rest(s, k, live);
                lemma_filter_step(s, k, dead);
                assert(placed(cells(mem@), Some(self.head), now, at_now));
                assert(now[at_now] == s[k]);
                assert(at(now, Some(self.head), at_now + 1) == at(s, Some(self.head), k + 1));
            }
            let node: usize = cur.unwrap();
            cur = next_of(mem, node);
            assert(mem@[node as int].dead == old(mem)@[node as int].dead);
            if mem[node].dead {
                proof {
                    lemma_member_sound(cells(mem@), Some(self.head), now, node);
                    lemma_taken_out_frame(cells(mem@), self.head, now, at_now, s, k);
                    lemma_rest_members(s, k, live);
                    assert(mem@.len() == mem.len());
                    lemma_taken_out_outside(cells(mem@), self.head, now, at_now);
                }
                Node::do_unlink(mem, node);
                stack.push_back(node);
                proof {
                    lemma_same_payload_trans(old(mem)@, before, mem@);
                    assert(stack@ =~= old(stack)@ + s.take(k + 1).filter(dead));
                }
            }
            proof {
                k = k + 1;
            }
        }
        proof {
            assert(s.take(s.len() as int) =~= s);
            assert(s.take(k).filter(live) + s.skip(k) =~= s.filter(live));
            assert forall|t: Seq<usize>| #[trigger] ring(m, self.head, t) implies t == s by {
                lemma_unique(m, Some(self.head), s, t);
            }
        }
    }
}

/// Taking a node out of a ring does not touch nodes that are no longer on it.
pub proof fn lemma_taken_out_frame(
    m: Seq<ListNode>,
    head: usize,
    now: Seq<usize>,
    i: int,
    s: Seq<usize>,
    k: int,
)
    requires
        ring(m, head, now),
        0 <= i < now.len(),
        0 <= k < s.len(),
        s.no_duplicates(),
        now[i] == s[k],
        forall|j: int| 0 <= j < k && m[s[j] as int] == alone(s[j]) ==> #[trigger] s[j] < m.len(),
        forall|j: int| 0 <= j < s.len() ==> #[trigger] s[j] != head,
    ensures
        forall|j: int|
            0 <= j < k && m[#[trigger] s[j] as int] == alone(s[j]) ==> taken_out(
                m,
                now[i],
            )[s[j] as int] == alone(s[j]),
        taken_out(m, now[i])[now[i] as int] == alone(now[i]),
{
    assert(placed(m, Some(head), now, i));
    assert forall|j: int| 0 <= j < k && m[#[trigger] s[j] as int] == alone(s[j]) implies taken_out(
        m,
        now[i],
    )[s[j] as int] == alone(s[j]) by {
        assert(s[j] != s[k]);
        if i > 0 {
            assert(placed(m, Some(head), now, i - 1));
            assert(now[i] != now[i - 1]);
            assert(s[j] != now[i - 1]);
        }
        if i + 1 < now.len() {
            assert(placed(m, Some(head), now, i + 1));
            assert(now[i] != now[i + 1]);
            assert(s[j] != now[i + 1]);
        }
    }
}

/// Taking a node out of a ring touches the ring only.
pub proof fn lemma_taken_out_outside(m: Seq<ListNode>, head: usize, now: Seq<usize>, i: int)
    requires
        ring(m, head, now),
        0 <= i < now.len(),
        m.len() <= usize::MAX,
    ensures
        forall|a: int|
            0 <= a < m.len() && a != head && !now.contains(a as usize) ==> #[trigger] taken_out(
                m,
                now[i],
            )[a] == m[a],
{
    assert(placed(m, Some(head), now, i));
    assert(now.contains(now[i]));
    if i > 0 {
        assert(now.contains(now[i - 1]));
    }
    if i + 1 < now.len() {
        assert(now.contains(now[i + 1]));
    }
}

/// A list whose first `k` elements have been filtered holds elements of the whole list only.
pub proof fn lemma_rest_members(s: Seq<usize>, k: int, keep: spec_fn(usize) -> bool)
    requires
        0 <= k <= s.len(),
    ensures
        forall|a: usize| #[trigger]
            (s.take(k).filter(keep) + s.skip(k)).contains(a) ==> s.contains(a),
{
    let t = s.take(k).filter(keep);
    let now = t + s.skip(k);
    lemma_filter_members(s.take(k), keep);
    assert forall|a: usize| #[trigger] now.contains(a) implies s.contains(a) by {
        let i = now.index_of(a);
        if i < t.len() {
            assert(t.contains(a));
            let j = s.take(k).index_of(a);
            assert(s[j] == a);
        } else {
            assert(s[k + i - t.len()] == a);
        }
    }
}

/// After a sweep no dead node is left on the list, and every node that was on it is either still
/// there or on the stack.
pub proof fn law_sweep_splits_the_list(mem: Seq<Node>, s: Seq<usize>)
    ensures
        forall|a: usize| #[trigger]
            s.filter(live_in(mem)).contains(a) <==> s.contains(a) && !mem[a as int].dead,
        forall|a: usize| #[trigger]
            s.filter(dead_in(mem)).contains(a) <==> s.contains(a) && mem[a as int].dead,
        s.filter(live_in(mem)).len() + s.filter(dead_in(mem)).len() == s.len(),
    decreases s.len(),
{
    lemma_filter_members(s, live_in(mem));
    lemma_filter_members(s, dead_in(mem));
    reveal(Seq::filter);
    if s.len() > 0 {
        law_sweep_splits_the_list(mem, s.drop_last());
    }
}

/// A node that is taken out names itself; the two that it named come to name each other. Nothing else
/// changes.
pub proof fn law_node_taken_out_is_alone(m: Seq<ListNode>, node: usize)
    requires
        sound_links(m, node),
        m.len() <= usize::MAX,
    ensures
        taken_out(m, node).len() == m.len(),
        taken_out(m, node)[node as int].prev == Some(node),
        taken_out(m, node)[node as int].next == Some(node),
        alone(node).prev == Some(node),
        alone(node).next == Some(node),
        forall|b: int|
            0 <= b < m.len() && b != node ==> (#[trigger] taken_out(m, node)[b]).next
                == if m[node as int].prev == Some(b as usize) {
                m[node as int].next
            } else {
                m[b].next
            },
        forall|b: int|
            0 <= b < m.len() && b != node ==> (#[trigger] taken_out(m, node)[b]).prev
                == if m[node as int].next == Some(b as usize) {
                m[node as int].prev
            } else {
                m[b].prev
            },
{
}

/// The sweep goes by the dead mark alone and keeps the order on both sides.
pub proof fn law_sweep_goes_by_the_mark(mem: Seq<Node>, s: Seq<usize>)
    ensures
        s.filter(live_in(mem)) == s.filter(|a: usize| !mem[a as int].dead),
        s.filter(dead_in(mem)) == s.filter(|a: usize| mem[a as int].dead),
{
    assert(live_in(mem) =~= (|a: usize| !mem[a as int].dead));
    assert(dead_in(mem) =~= (|a: usize| mem[a as int].dead));
}

/// Relinking an element sets its link fields and keeps its count and mark.
pub proof fn law_relinking_keeps_the_payload(x: Node, links: ListNode)
    ensures
        x.relinked(links).links().prev == links.prev,
        x.relinked(links).links().next == links.next,
        x.relinked(links).refcount == x.refcount,
        x.relinked(links).dead == x.dead,
{
}

} // verus!
