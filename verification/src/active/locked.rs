//! A ring of nodes that are put in front and taken out one by one or all at once.
use vstd::prelude::*;

use crate::active::sweep::alone;
use crate::chains::{lemma_member_sound, ring, ring_remove, sound_links, unlinked_at};
use crate::links::{
    at, cells, insert_between, inserted, lemma_insert, lemma_same_payload_refl,
    lemma_same_payload_trans, next_of, placed, prev_of, same_payload, unlinked, valid, Embeds,
    ListLink, ListNode,
};

verus! {

/// The link fields of the sentinel of a list.
#[derive(Clone, Copy, Debug, PartialEq, Eq, Structural)]
pub struct ListHead {
    pub prev: ListLink,
    pub next: ListLink,
}

/// A node with embedded links, a reference count and a payload.
#[derive(Clone, Copy, Debug, PartialEq, Eq, Structural)]
pub struct Node {
    pub prev: ListLink,
    pub next: ListLink,
    pub refs: u32,
    pub data: u64,
}

impl Embeds for Node {
    open spec fn links(self) -> ListNode {
        ListNode { prev: self.prev, next: self.next }
    }

    open spec fn relinked(self, links: ListNode) -> Self {
        Node { prev: links.prev, next: links.next, refs: self.refs, data: self.data }
    }

    proof fn relinking(self, a: ListNode, b: ListNode) {
    }

    fn get_links(&self) -> (links: ListNode) {
        ListNode { prev: self.prev, next: self.next }
    }

    fn set_links(&mut self, links: ListNode) {
        self.prev = links.prev;
        self.next = links.next;
    }
}

impl ListHead {
    /// Creates the link fields of a list that nothing has been put on yet.
    pub fn new() -> (head: ListHead)
        ensures
            head == (ListHead { prev: None, next: None }),
    {
        ListHead { prev: None, next: None }
    }

    /// Whether the list whose sentinel is at `at` has no nodes: its links are null or lead back to
    /// it.
    pub fn is_empty(&self, at: usize) -> (empty: bool)
        ensures
            empty == (self.next is None || self.next == Some(at)),
    {
        self.next.is_none() || self.next == Some(at)
    }
}

/// The link fields after `node` has been removed. A node with a null link counts as removed already.
pub open spec fn removed(m: Seq<ListNode>, node: usize) -> Seq<ListNode> {
    if m[node as int].prev is None || m[node as int].next is None {
        m
    } else {
        unlinked_at(m, node)
    }
}

impl Node {
    /// Creates a node with one reference to it, on no list.
    pub fn new(data: u64) -> (node: Node)
        ensures
            node == (Node { prev: None, next: None, refs: 1, data }),
    {
        Node { prev: None, next: None, refs: 1, data }
    }

    /// Takes a node whose last reference is gone off its list.
    pub fn release(mem: &mut Vec<Node>, this: usize)
        requires
            sound_links(cells(old(mem)@), this),
        ensures
            cells(final(mem)@) == removed(cells(old(mem)@), this),
            same_payload(old(mem)@, final(mem)@),
            forall|list: List, s: Seq<usize>, i: int|
                #![trigger list.holds(cells(old(mem)@), s), s[i]]
                list.holds(cells(old(mem)@), s) && 0 <= i < s.len() && s[i] == this ==> list.holds(
                    cells(final(mem)@),
                    s.remove(i),
                ),
    {
        Self::remove(mem, this);
    }

    /// Joins the neighbours of a node and clears its links, unless it has been removed already.
    pub fn remove(mem: &mut Vec<Node>, this: usize)
        requires
            sound_links(cells(old(mem)@), this),
        ensures
            cells(final(mem)@) == removed(cells(old(mem)@), this),
            same_payload(old(mem)@, final(mem)@),
            forall|list: List, s: Seq<usize>, i: int|
                #![trigger list.holds(cells(old(mem)@), s), s[i]]
                list.holds(cells(old(mem)@), s) && 0 <= i < s.len() && s[i] == this ==> list.holds(
                    cells(final(mem)@),
                    s.remove(i),
                ),
    {
        let ghost m = cells(mem@);
        proof {
            lemma_same_payload_refl(mem@);
            assert forall|list: List, s: Seq<usize>, i: int|
                #![trigger list.holds(m, s), s[i]]
                list.holds(m, s) && 0 <= i < s.len() && s[i] == this implies m[this as int].prev is Some
                && m[this as int].next is Some && ring(m, list.head, s) by {
                assert(placed(m, Some(list.head), s, i));
            }
        }
        if prev_of(mem, this).is_none() || next_of(mem, this).is_none() {
            return;
        }
        ring_remove(mem, this, ListNode::new());
    }

    /// Puts a node behind the sentinel at `head`.
    pub fn insert_after(mem: &mut Vec<Node>, this: usize, head: usize)
        requires
            this < old(mem).len(),
            head < old(mem).len(),
            valid(cells(old(mem)@), cells(old(mem)@)[head as int].next),
        ensures
            cells(final(mem)@) == inserted(
                cells(old(mem)@),
                Some(head),
                this,
                cells(old(mem)@)[head as int].next,
            ),
            same_payload(old(mem)@, final(mem)@),
            forall|s: Seq<usize>| #[trigger]
                ring(cells(old(mem)@), head, s) && !s.contains(this) && this != head ==> ring(
                    cells(final(mem)@),
                    head,
                    s.insert(0, this),
                ),
    {
        let ghost m = cells(mem@);
        let head_next: ListLink = next_of(mem, head);
        insert_between(mem, Some(head), this, head_next);
        proof {
            assert forall|s: Seq<usize>| #[trigger]
                ring(m, head, s) && !s.contains(this) && this != head implies ring(
                cells(mem@),
                head,
                s.insert(0, this),
            ) by {
                lemma_insert(m, Some(head), s, 0, this);
            }
        }
    }
}

/// A ring of nodes, known by its sentinel.
pub struct List {
    pub head: usize,
}

impl List {
    /// The list holds the nodes `s`, first node first.
    pub open spec fn holds(self, m: Seq<ListNode>, s: Seq<usize>) -> bool {
        ring(m, self.head, s)
    }

    /// Creates an empty list. Its sentinel is put at the end of the memory.
    pub fn new(mem: &mut Vec<Node>) -> (list: List)
        ensures
            list.head == old(mem).len(),
            final(mem)@ == old(mem)@.push(
                Node { prev: Some(list.head), next: Some(list.head), refs: 0, data: 0 },
            ),
            list.holds(cells(final(mem)@), Seq::empty()),
    {
        let head: usize = mem.len();
        mem.push(Node { prev: Some(head), next: Some(head), refs: 0, data: 0 });
        List { head }
    }

    /// Whether the list has no nodes.
    pub fn is_empty(&self, mem: &Vec<Node>) -> (empty: bool)
        requires
            self.head < mem.len(),
        ensures
            empty == (cells(mem@)[self.head as int].next is None || cells(
                mem@,
            )[self.head as int].next == Some(self.head)),
            forall|s: Seq<usize>| #[trigger]
                self.holds(cells(mem@), s) ==> empty == (s.len() == 0),
    {
        let head = ListHead { prev: prev_of(mem, self.head), next: next_of(mem, self.head) };
        head.is_empty(self.head)
    }

    /// Takes all nodes off the list, clears their links and hands them out, first node first.
    pub fn move_to_stack(&self, mem: &mut Vec<Node>) -> (stack: Vec<usize>)
        requires
            exists|s: Seq<usize>| self.holds(cells(old(mem)@), s),
        ensures
            self.holds(cells(old(mem)@), stack@),
            self.holds(cells(final(mem)@), Seq::empty()),
            forall|i: int|
                0 <= i < stack@.len() ==> cells(final(mem)@)[#[trigger] stack@[i] as int]
                    == unlinked(),
            forall|a: int|
                0 <= a < old(mem).len() && !stack@.contains(a as usize) && a != self.head
                    ==> #[trigger] cells(final(mem)@)[a] == cells(old(mem)@)[a],
            same_payload(old(mem)@, final(mem)@),
    {
        let ghost m = cells(mem@);
        let ghost s = choose|s: Seq<usize>| self.holds(m, s);
        let mut stack: Vec<usize> = Vec::new();
        let mut cur: ListLink = next_of(mem, self.head);
        proof {
            lemma_same_payload_refl(mem@);
            assert(s.skip(0) =~= s);
        }
        while cur.is_some() && cur != Some(self.head)
            invariant
                m == cells(old(mem)@),
                m.len() == mem.len(),
                ring(m, self.head, s),
                stack.len() <= s.len(),
                stack@ == s.take(stack.len() as int),
                cur == at(s, Some(self.head), stack.len() as int),
                ring(cells(mem@), self.head, s.skip(stack.len() as int)),
                same_payload(old(mem)@, mem@),
                forall|j: int|
                    0 <= j < stack.len() ==> #[trigger] cells(mem@)[s[j] as int] == unlinked(),
                forall|a: int|
                    0 <= a < m.len() && !s.contains(a as usize) && a != self.head
                        ==> #[trigger] cells(mem@)[a] == m[a],
            decreases s.len() - stack.len(),
        {
            let ghost k = stack.len() as int;
            let ghost before = mem@;
            let ghost rest = s.skip(k);
            let node: usize = cur.unwrap();
            proof {
                assert(rest[0] == s[k]);
                assert(placed(cells(mem@), Some(self.head), rest, 0));
                lemma_member_sound(cells(mem@), Some(self.head), rest, node);
                if k + 1 < s.len() {
                    assert(rest[1] == s[k + 1]);
                }
                assert(self.holds(cells(mem@), rest));
                assert(rest.remove(0) =~= s.skip(k + 1));
            }
            cur = next_of(mem, node);
            Node::remove(mem, node);
            stack.push(node);
            proof {
                lemma_same_payload_trans(old(mem)@, before, mem@);
                assert(stack@ =~= s.take(k + 1));
                assert forall|j: int| 0 <= j < stack.len() implies #[trigger] cells(
                    mem@,
                )[s[j] as int] == unlinked() by {
                    if j < k {
                        assert(cells(before)[s[j] as int] == unlinked());
                        assert(s[j] != s[k]);
                        if k + 1 < s.len() {
                            assert(s[j] != s[k + 1]);
                        }
                        assert(s[j] != self.head);
                    }
                }
                assert forall|a: int|
                    0 <= a < m.len() && !s.contains(a as usize) && a
                        != self.head implies #[trigger] cells(mem@)[a] == m[a] by {
                    assert(a as usize != s[k]);
                    if k + 1 < s.len() {
                        assert(a as usize != s[k + 1]);
                    }
                }
            }
        }
        proof {
            assert(stack@ =~= s);
            assert(s.skip(s.len() as int) =~= Seq::empty());
            assert forall|i: int| 0 <= i < stack@.len() implies cells(
                mem@,
            )[#[trigger] stack@[i] as int] == unlinked() by {
                assert(cells(mem@)[s[i] as int] == unlinked());
            }
        }
        stack
    }

    /// Puts a node in front of the list.
    pub fn push(&self, mem: &mut Vec<Node>, node: usize)
        requires
            node < old(mem).len(),
            sound_links(cells(old(mem)@), self.head),
        ensures
            cells(final(mem)@) == inserted(
                cells(old(mem)@),
                Some(self.head),
                node,
                cells(old(mem)@)[self.head as int].next,
            ),
            same_payload(old(mem)@, final(mem)@),
            forall|s: Seq<usize>| #[trigger]
                self.holds(cells(old(mem)@), s) && !s.contains(node) && node != self.head
                    ==> self.holds(cells(final(mem)@), s.insert(0, node)),
    {
        Node::insert_after(mem, node, self.head);
        proof {
            let m = cells(old(mem)@);
            assert forall|s: Seq<usize>| #[trigger]
                self.holds(m, s) && !s.contains(node) && node != self.head implies self.holds(
                cells(mem@),
                s.insert(0, node),
            ) by {
                assert(ring(m, self.head, s));
            }
        }
    }
}

/// A node that has been removed, or moved to a stack, is left alone by a further removal.
pub proof fn law_removed_nodes_are_left_alone(m: Seq<ListNode>, node: usize)
    requires
        m[node as int] == unlinked(),
    ensures
        removed(m, node) == m,
{
}

/// Releasing a node and then moving the list to a stack yields every other node, in order.
pub proof fn law_released_nodes_are_not_moved(
    list: List,
    m: Seq<ListNode>,
    s: Seq<usize>,
    i: int,
)
    requires
        list.holds(m, s),
        0 <= i < s.len(),
    ensures
        list.holds(removed(m, s[i]), s.remove(i)),
        !s.remove(i).contains(s[i]),
{
    assert(placed(m, Some(list.head), s, i));
    crate::chains::lemma_unlink(m, Some(list.head), s, i);
}

/// A node is taken out exactly if it names both a node before it and one after it: the two then name
/// each other, and the fields of the node are cleared. Nothing else changes.
pub proof fn law_removal_joins_the_neighbours(m: Seq<ListNode>, node: usize)
    requires
        sound_links(m, node),
        m.len() <= usize::MAX,
    ensures
        m[node as int].prev is None || m[node as int].next is None ==> removed(m, node) == m,
        m[node as int].prev is Some && m[node as int].next is Some ==> {
            let c = removed(m, node);
            let links = m[node as int];
            &&& c.len() == m.len()
            &&& c[node as int].prev is None
            &&& c[node as int].next is None
            &&& forall|b: int|
                0 <= b < m.len() && b != node ==> (#[trigger] c[b]).next == if links.prev == Some(
                    b as usize,
                ) {
                    links.next
                } else {
                    m[b].next
                }
            &&& forall|b: int|
                0 <= b < m.len() && b != node ==> (#[trigger] c[b]).prev == if links.next == Some(
                    b as usize,
                ) {
                    links.prev
                } else {
                    m[b].prev
                }
        },
{
}

/// Relinking an element sets its link fields and keeps its count and data.
pub proof fn law_relinking_keeps_the_payload(x: Node, links: ListNode)
    ensures
        x.relinked(links).links().prev == links.prev,
        x.relinked(links).links().next == links.next,
        x.relinked(links).refs == x.refs,
        x.relinked(links).data == x.data,
{
}

} // verus!
