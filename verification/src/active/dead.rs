//! Nodes with strong and weak counts on a null-terminated list of dead nodes.
use vstd::prelude::*;

use crate::chains::{headed, push_head, sound_links, unlink_head, unlinked_at};
use crate::links::{
    cells, inserted, lemma_same_payload_refl, lemma_same_payload_trans, linked, next_of,
    placed, put_links, put_prev, same_payload, unlinked, valid, with_prev, Embeds, ListLink,
    ListNode,
};
use crate::chains::lemma_unlink;
use crate::owned::lemma_grow;

verus! {

/// A node with embedded links, its counts and a payload.
#[derive(Clone, Copy, Debug, PartialEq, Eq, Structural)]
pub struct Node {
    pub prev: ListLink,
    pub next: ListLink,
    pub strong_refs: usize,
    pub weak_refs: usize,
    pub data: usize,
}

impl Embeds for Node {
    open spec fn links(self) -> ListNode {
        ListNode { prev: self.prev, next: self.next }
    }

    open spec fn relinked(self, links: ListNode) -> Self {
        Node {
            prev: links.prev,
            next: links.next,
            strong_refs: self.strong_refs,
            weak_refs: self.weak_refs,
            data: self.data,
        }
    }

    proof fn relinking(self, a: ListNode, b: ListNode) {
    }

    fn get_links(&self) -> (links: ListNode) {
        ListNode { prev: self.prev, next: self.next }
    }

    fn set_links(&mut self, links: ListNode) {
        self.prev = links.prev;
        self.next = links.next;
    }
}

/// A count after one reference has been given up.
pub open spec fn less_one(count: usize) -> usize {
    if count == 0 {
        0
    } else {
        (count - 1) as usize
    }
}

/// A null-terminated list, known by its first node.
pub struct IntrusiveList {
    pub head: ListLink,
}

/// The list of dead nodes.
pub struct BinderFixed {
    pub dead_nodes: IntrusiveList,
}

impl BinderFixed {
    /// The list holds the nodes `s`, first node first.
    #[verifier::inline]
    pub open spec fn holds(self, m: Seq<ListNode>, s: Seq<usize>) -> bool {
        headed(m, self.dead_nodes.head, s)
    }

    /// Creates an empty list.
    pub fn new() -> (binder: BinderFixed)
        ensures
            binder.dead_nodes.head is None,
            forall|m: Seq<ListNode>| #[trigger] binder.holds(m, Seq::empty()),
    {
        BinderFixed { dead_nodes: IntrusiveList { head: None } }
    }

    /// Creates a node with one strong reference at the end of the memory and puts it in front of
    /// the list.
    pub fn alloc_dead_node(&mut self, mem: &mut Vec<Node>, data: usize) -> (node: usize)
        requires
            valid(cells(old(mem)@), old(self).dead_nodes.head),
        ensures
            node == old(mem).len(),
            final(mem).len() == old(mem).len() + 1,
            final(self).dead_nodes.head == Some(node),
            final(mem)@[node as int] == (Node {
                prev: None,
                next: old(self).dead_nodes.head,
                strong_refs: 1,
                weak_refs: 0,
                data,
            }),
            same_payload(old(mem)@, final(mem)@.take(node as int)),
            cells(final(mem)@).take(node as int) == with_prev(
                cells(old(mem)@),
                old(self).dead_nodes.head,
                Some(node),
            ),
            forall|s: Seq<usize>| #[trigger]
                old(self).holds(cells(old(mem)@), s) ==> final(self).holds(
                    cells(final(mem)@),
                    s.insert(0, node),
                ),
    {
        let node: usize = mem.len();
        let new = Node { prev: None, next: None, strong_refs: 1, weak_refs: 0, data };
        let ghost before = mem@;
        mem.push(new);
        let ghost grown = mem@;
        Self::push_front(mem, &mut self.dead_nodes, node);
        proof {
            assert forall|s: Seq<usize>| #[trigger]
                headed(cells(before), old(self).dead_nodes.head, s) implies headed(
                cells(mem@),
                self.dead_nodes.head,
                s.insert(0, node),
            ) by {
                lemma_grow(before, new, None, s);
                assert(headed(cells(grown), old(self).dead_nodes.head, s));
            }
            assert(cells(mem@).take(node as int) =~= with_prev(
                cells(before),
                old(self).dead_nodes.head,
                Some(node),
            ));
            assert forall|a: int| 0 <= a < node implies #[trigger] mem@.take(node as int)[a]
                == before[a].relinked(mem@.take(node as int)[a].links()) by {
                assert(grown[a] == before[a]);
            }
            assert(cells(mem@)[node as int] == (ListNode {
                prev: None,
                next: old(self).dead_nodes.head,
            }));
        }
        node
    }

    /// Gives up a strong and a weak reference to the node at `node`, as far as there are any. When
    /// none is left the node leaves the list and is to be freed. Says whether that is so. Where the
    /// node has left the list before, the list forgets the others.
    pub fn node_release(&mut self, mem: &mut Vec<Node>, node: usize) -> (freed: bool)
        requires
            sound_links(cells(old(mem)@), node),
        ensures
            final(mem).len() == old(mem).len(),
            freed == (less_one(old(mem)@[node as int].strong_refs) == 0 && less_one(
                old(mem)@[node as int].weak_refs,
            ) == 0),
            freed <==> old(mem)@[node as int].strong_refs <= 1 && old(mem)@[node as int].weak_refs
                <= 1,
            final(mem)@[node as int].strong_refs == less_one(old(mem)@[node as int].strong_refs),
            final(mem)@[node as int].weak_refs == less_one(old(mem)@[node as int].weak_refs),
            forall|a: int|
                0 <= a < old(mem).len() ==> (#[trigger] final(mem)@[a]).data == old(mem)@[a].data
                    && (a != node ==> final(mem)@[a].strong_refs == old(mem)@[a].strong_refs
                    && final(mem)@[a].weak_refs == old(mem)@[a].weak_refs),
            !freed ==> *final(self) == *old(self) && cells(final(mem)@) == cells(old(mem)@),
            freed ==> final(self).dead_nodes.head == head_without(
                old(self).dead_nodes.head,
                cells(old(mem)@),
                node,
            ) && cells(final(mem)@) == unlinked_at(cells(old(mem)@), node),
            forall|s: Seq<usize>, i: int|
                #![trigger old(self).holds(cells(old(mem)@), s), s[i]]
                old(self).holds(cells(old(mem)@), s) && 0 <= i < s.len() && s[i] == node && freed
                    ==> final(self).holds(cells(final(mem)@), s.remove(i)),
    {
        let ghost m = cells(mem@);
        let mut state: Node = mem[node];
        state.strong_refs = state.strong_refs.saturating_sub(1);
        state.weak_refs = state.weak_refs.saturating_sub(1);
        mem[node] = state;
        let ghost counted = mem@;
        assert(cells(counted) =~= m);
        if state.strong_refs == 0 && state.weak_refs == 0 {
            remove_node_from_list(mem, node, &mut self.dead_nodes);
            assert forall|a: int| 0 <= a < mem.len() implies (#[trigger] mem@[a]).data
                == counted[a].data && mem@[a].strong_refs == counted[a].strong_refs
                && mem@[a].weak_refs == counted[a].weak_refs by {}
            return true;
        }
        false
    }

    /// Empties the list and hands out its nodes, first node first.
    pub fn move_to_stack(&mut self, mem: &mut Vec<Node>) -> (stack: Vec<usize>)
        requires
            exists|s: Seq<usize>| old(self).holds(cells(old(mem)@), s),
        ensures
            final(self).dead_nodes.head is None,
            old(self).holds(cells(old(mem)@), stack@),
            cells(final(mem)@) == crate::chains::cleared(cells(old(mem)@), stack@),
            same_payload(old(mem)@, final(mem)@),
    {
        let ghost m = cells(mem@);
        let ghost s = choose|s: Seq<usize>| headed(m, self.dead_nodes.head, s);
        let mut stack: Vec<usize> = Vec::new();
        proof {
            lemma_same_payload_refl(mem@);
            assert(s.skip(0) =~= s);
        }
        loop
            invariant
                m == cells(old(mem)@),
                m.len() == mem.len(),
                linked(m, None, s),
                stack.len() <= s.len(),
                stack@ == s.take(stack.len() as int),
                headed(cells(mem@), self.dead_nodes.head, s.skip(stack.len() as int)),
                same_payload(old(mem)@, mem@),
                forall|j: int|
                    0 <= j < stack.len() ==> #[trigger] cells(mem@)[s[j] as int] == unlinked(),
                forall|a: int|
                    0 <= a < m.len() && !s.contains(a as usize) ==> #[trigger] cells(mem@)[a]
                        == m[a],
            ensures
                stack.len() == s.len(),
                self.dead_nodes.head is None,
            decreases s.len() - stack.len(),
        {
            let ghost k = stack.len() as int;
            let ghost before = mem@;
            let ghost rest = s.skip(k);
            proof {
                if rest.len() > 0 {
                    assert(placed(cells(mem@), None, rest, 0));
                    assert(rest[0] < mem.len());
                }
            }
            match pop_front(mem, &mut self.dead_nodes) {
                Some(node) => {
                    stack.push(node);
                    proof {
                        lemma_same_payload_trans(old(mem)@, before, mem@);
                        assert(rest[0] == s[k]);
                        assert(placed(cells(before), None, rest, 0));
                        assert(stack@ =~= s.take(k + 1));
                        assert(rest.remove(0) =~= s.skip(k + 1));
                        if k + 1 < s.len() {
                            assert(rest[1] == s[k + 1]);
                        }
                        assert forall|j: int| 0 <= j < stack.len() implies #[trigger] cells(
                            mem@,
                        )[s[j] as int] == unlinked() by {
                            if j < k {
                                assert(cells(before)[s[j] as int] == unlinked());
                                assert(s[j] != s[k]);
                                if k + 1 < s.len() {
                                    assert(s[j] != s[k + 1]);
                                }
                            }
                        }
                        assert forall|a: int|
                            0 <= a < m.len() && !s.contains(a as usize) implies #[trigger] cells(
                            mem@,
                        )[a] == m[a] by {
                            assert(a as usize != s[k]);
                            if k + 1 < s.len() {
                                assert(a as usize != s[k + 1]);
                            }
                        }
                    }
                },
                None => {
                    break;
                },
            }
        }
        proof {
            assert(stack@ =~= s);
            assert forall|a: int| 0 <= a < m.len() implies cells(mem@)[a]
                == #[trigger] crate::chains::cleared(m, s)[a] by {
                if s.contains(a as usize) {
                    let j = s.index_of(a as usize);
                    assert(s[j] == a);
                }
            }
            assert(cells(mem@) =~= crate::chains::cleared(m, s));
        }
        stack
    }

    /// Puts a node in front of a list.
    pub fn push_front(mem: &mut Vec<Node>, list: &mut IntrusiveList, node: usize)
        requires
            node < old(mem).len(),
            valid(cells(old(mem)@), old(list).head),
        ensures
            final(list).head == Some(node),
            cells(final(mem)@) == inserted(cells(old(mem)@), None, node, old(list).head),
            same_payload(old(mem)@, final(mem)@),
            forall|s: Seq<usize>| #[trigger]
                headed(cells(old(mem)@), old(list).head, s) && !s.contains(node) ==> headed(
                    cells(final(mem)@),
                    final(list).head,
                    s.insert(0, node),
                ),
    {
        push_head(mem, &mut list.head, node);
    }
}

/// What a list starts with after `node` has been removed: a node that names none before it is taken
/// for the first one.
pub open spec fn head_without(head: ListLink, m: Seq<ListNode>, node: usize) -> ListLink {
    if m[node as int].prev is None {
        m[node as int].next
    } else {
        head
    }
}

/// Removes a node from a list and clears its link fields.
pub fn remove_node_from_list(mem: &mut Vec<Node>, node: usize, list: &mut IntrusiveList)
    requires
        sound_links(cells(old(mem)@), node),
    ensures
        final(list).head == head_without(old(list).head, cells(old(mem)@), node),
        cells(final(mem)@) == unlinked_at(cells(old(mem)@), node),
        same_payload(old(mem)@, final(mem)@),
        forall|s: Seq<usize>, i: int|
            #![trigger headed(cells(old(mem)@), old(list).head, s), s[i]]
            headed(cells(old(mem)@), old(list).head, s) && 0 <= i < s.len() && s[i] == node
                ==> headed(cells(final(mem)@), final(list).head, s.remove(i)),
{
    unlink_head(mem, &mut list.head, node);
}

/// Takes the first node off a list and clears its link fields.
pub fn pop_front(mem: &mut Vec<Node>, list: &mut IntrusiveList) -> (node: ListLink)
    requires
        old(list).head matches Some(a) ==> a < old(mem).len() && valid(
            cells(old(mem)@),
            cells(old(mem)@)[a as int].next,
        ),
    ensures
        node == old(list).head,
        node is None ==> *final(list) == *old(list) && final(mem)@ == old(mem)@,
        node matches Some(a) ==> {
            &&& final(list).head == cells(old(mem)@)[a as int].next
            &&& cells(final(mem)@) == with_prev(
                cells(old(mem)@),
                cells(old(mem)@)[a as int].next,
                None,
            ).update(a as int, unlinked())
        },
        same_payload(old(mem)@, final(mem)@),
        forall|s: Seq<usize>| #[trigger]
            headed(cells(old(mem)@), old(list).head, s) ==> {
                &&& node is Some <==> s.len() > 0
                &&& s.len() > 0 ==> headed(cells(final(mem)@), final(list).head, s.remove(0))
            },
{
    let ghost m = cells(mem@);
    proof {
        lemma_same_payload_refl(mem@);
    }
    match list.head {
        Some(head) => {
            let next: ListLink = next_of(mem, head);
            list.head = next;
            put_prev(mem, next, None);
            let ghost m1 = mem@;
            put_links(mem, head, ListNode::new());
            proof {
                lemma_same_payload_trans(old(mem)@, m1, mem@);
                assert forall|s: Seq<usize>| #[trigger]
                    headed(m, old(list).head, s) && s.len() > 0 implies headed(
                    cells(mem@),
                    list.head,
                    s.remove(0),
                ) by {
                    assert(placed(m, None, s, 0));
                    lemma_unlink(m, None, s, 0);
                    assert(cells(mem@) =~= unlinked_at(m, s[0]));
                }
            }
            Some(head)
        },
        None => None,
    }
}

/// Removing a node that has been moved to a stack leaves the link fields of all others alone, but makes
/// the list forget the nodes that are on it. A list that is empty, as it is right after the move, stays
/// so.
pub proof fn law_removing_a_moved_node(head: ListLink, m: Seq<ListNode>, node: usize)
    requires
        node < m.len(),
        m[node as int] == unlinked(),
    ensures
        unlinked_at(m, node) == m,
        head_without(head, m, node) is None,
        headed(m, head_without(head, m, node), Seq::empty()),
{
    assert(unlinked_at(m, node) =~= m);
}

/// A count goes down by one and stays at zero.
pub proof fn law_counts_stop_at_zero(count: usize)
    ensures
        count > 0 ==> less_one(count) == count - 1,
        count == 0 ==> less_one(count) == 0,
{
}

/// The list starts with the same element as before, unless the removed one names none before it: then
/// it starts with the one behind it.
pub proof fn law_head_moves_past_the_first(head: ListLink, m: Seq<ListNode>, node: usize)
    ensures
        m[node as int].prev is Some ==> head_without(head, m, node) == head,
        m[node as int].prev is None ==> head_without(head, m, node) == m[node as int].next,
{
}

/// Relinking an element sets its link fields and keeps its counts and data.
pub proof fn law_relinking_keeps_the_payload(x: Node, links: ListNode)
    ensures
        x.relinked(links).links().prev == links.prev,
        x.relinked(links).links().next == links.next,
        x.relinked(links).strong_refs == x.strong_refs,
        x.relinked(links).weak_refs == x.weak_refs,
        x.relinked(links).data == x.data,
{
}

} // verus!
