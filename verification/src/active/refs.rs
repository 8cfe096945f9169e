//! Nodes that carry an active mark while they are on the list of active nodes. The list is
//! null-terminated and starts behind a sentinel.
use vstd::prelude::*;

use crate::chains::{lemma_unlink, sound_links, unlinked_at};
use crate::links::{
    bridge, cells, inserted, lemma_insert, lemma_same_payload_trans, linked, next_of, placed,
    put_links, put_next, put_prev, same_payload, valid, with_next, with_prev, Embeds, ListLink,
    ListNode,
};

verus! {

/// A node with embedded links, a reference count, the active mark and a payload.
pub struct Node {
    pub links: ListNode,
    pub refcnt: usize,
    pub active: bool,
    pub data: String,
}

impl Embeds for Node {
    open spec fn links(self) -> ListNode {
        self.links
    }

    open spec fn relinked(self, links: ListNode) -> Self {
        Node { links, refcnt: self.refcnt, active: self.active, data: self.data }
    }

    proof fn relinking(self, a: ListNode, b: ListNode) {
    }

    fn get_links(&self) -> (links: ListNode) {
        self.links
    }

    fn set_links(&mut self, links: ListNode) {
        self.links = links;
    }
}

/// Only the node at `node` may differ, and there only in its count and mark.
pub open spec fn only_marks(before: Seq<Node>, after: Seq<Node>, node: usize) -> bool {
    &&& after.len() == before.len()
    &&& forall|a: int|
        0 <= a < before.len() ==> (#[trigger] after[a]).data == before[a].data && (a != node
            ==> after[a].refcnt == before[a].refcnt && after[a].active == before[a].active)
}

/// The operations on link fields.
pub struct ListLinks;

/// `m` after `node` has been put behind `head`, without a link back.
pub open spec fn pushed_front(m: Seq<ListNode>, head: usize, node: usize) -> Seq<ListNode> {
    let first = m[head as int].next;
    with_next(
        with_prev(m.update(node as int, ListNode { prev: None, next: first }), first, Some(node)),
        Some(head),
        Some(node),
    )
}

impl ListLinks {
    /// Splices `node` out from between its neighbours and clears its link fields.
    pub fn remove<T: Embeds>(mem: &mut Vec<T>, node: usize)
        requires
            sound_links(cells(old(mem)@), node),
        ensures
            cells(final(mem)@) == unlinked_at(cells(old(mem)@), node),
            same_payload(old(mem)@, final(mem)@),
    {
        bridge(mem, node);
        let ghost m1 = mem@;
        put_links(mem, node, ListNode::new());
        proof {
            lemma_same_payload_trans(old(mem)@, m1, mem@);
        }
    }

    /// Puts `node` behind `head`. Its link back is left null.
    pub fn push_front<T: Embeds>(mem: &mut Vec<T>, head: usize, node: usize)
        requires
            head < old(mem).len(),
            node < old(mem).len(),
            node != head,
            valid(cells(old(mem)@), cells(old(mem)@)[head as int].next),
        ensures
            cells(final(mem)@) == pushed_front(cells(old(mem)@), head, node),
            same_payload(old(mem)@, final(mem)@),
    {
        let first: ListLink = next_of(mem, head);
        put_links(mem, node, ListNode { prev: None, next: first });
        let ghost m1 = mem@;
        put_prev(mem, first, Some(node));
        let ghost m2 = mem@;
        put_next(mem, Some(head), Some(node));
        proof {
            lemma_same_payload_trans(old(mem)@, m1, m2);
            lemma_same_payload_trans(old(mem)@, m2, mem@);
        }
    }
}

/// The list of active nodes, known by its sentinel.
pub struct ActiveNodes {
    pub head: usize,
}

impl ActiveNodes {
    /// The nodes `s` follow the sentinel, and all of them carry the active mark.
    pub open spec fn holds(self, mem: Seq<Node>, s: Seq<usize>) -> bool {
        &&& linked(cells(mem), None, seq![self.head] + s)
        &&& forall|i: int| 0 <= i < s.len() ==> (#[trigger] mem[s[i] as int]).active
    }

    /// Puts a node in front of the list and marks it.
    pub fn activate(&self, mem: &mut Vec<Node>, node: usize)
        requires
            node < old(mem).len(),
            self.head < old(mem).len(),
            node != self.head,
            valid(cells(old(mem)@), cells(old(mem)@)[self.head as int].next),
        ensures
            cells(final(mem)@) == with_prev(
                pushed_front(cells(old(mem)@), self.head, node),
                Some(node),
                Some(self.head),
            ),
            only_marks(old(mem)@, final(mem)@, node),
            final(mem)@[node as int].active,
            final(mem)@[node as int].refcnt == old(mem)@[node as int].refcnt,
            forall|s: Seq<usize>| #[trigger]
                self.holds(old(mem)@, s) && !s.contains(node) ==> self.holds(
                    final(mem)@,
                    s.insert(0, node),
                ),
    {
        let ghost m = cells(mem@);
        let ghost first = m[self.head as int].next;
        ListLinks::push_front(mem, self.head, node);
        let ghost m1 = mem@;
        put_prev(mem, Some(node), Some(self.head));
        let ghost m2 = mem@;
        mem[node].active = true;
        proof {
            lemma_same_payload_trans(old(mem)@, m1, m2);
            assert(cells(mem@) =~= cells(m2));
            assert forall|s: Seq<usize>| #[trigger]
                self.holds(old(mem)@, s) && !s.contains(node) implies self.holds(
                mem@,
                s.insert(0, node),
            ) by {
                let l = seq![self.head] + s;
                assert(placed(m, None, l, 0));
                assert(l[0] == self.head);
                assert(!l.contains(node)) by {
                    if l.contains(node) {
                        let q = l.index_of(node);
                        assert(s[q - 1] == node);
                    }
                }
                if l.len() > 1 {
                    assert(l[1] != node && l[1] != self.head);
                }
                assert(cells(mem@) =~= inserted(m, Some(self.head), node, first));
                lemma_insert(m, None, l, 1, node);
                assert(l.insert(1, node) =~= seq![self.head] + s.insert(0, node));
                let t = s.insert(0, node);
                assert forall|i: int| 0 <= i < t.len() implies (
                #[trigger] mem@[t[i] as int]).active by {
                    if i > 0 {
                        assert(t[i] == s[i - 1]);
                        assert(l[i] == s[i - 1]);
                        assert(old(mem)@[s[i - 1] as int].active);
                    }
                }
            }
        }
    }
}

impl Node {
    /// Creates a node with one reference to it, on no list.
    pub fn new(data: String) -> (node: Node)
        ensures
            node == (Node {
                links: ListNode { prev: None, next: None },
                refcnt: 1,
                active: false,
                data,
            }),
    {
        Node { links: ListNode::new(), refcnt: 1, active: false, data }
    }

    /// Takes a reference. The count wraps around.
    pub fn inc_ref(&mut self)
        ensures
            *final(self) == (Node {
                links: old(self).links,
                refcnt: (if old(self).refcnt == usize::MAX {
                    0
                } else {
                    (old(self).refcnt + 1) as usize
                }),
                active: old(self).active,
                data: old(self).data,
            }),
    {
        self.refcnt = self.refcnt.wrapping_add(1);
    }

    /// Gives up a reference to the node at `node`. The count wraps around. With the last reference
    /// an active node leaves the list and loses its mark. Says whether the count came to zero.
    pub fn release(mem: &mut Vec<Node>, node: usize) -> (freed: bool)
        requires
            node < old(mem).len(),
            old(mem)@[node as int].refcnt == 1 && old(mem)@[node as int].active ==> sound_links(
                cells(old(mem)@),
                node,
            ),
        ensures
            freed == (old(mem)@[node as int].refcnt == 1),
            only_marks(old(mem)@, final(mem)@, node),
            final(mem)@[node as int].refcnt == (if old(mem)@[node as int].refcnt == 0 {
                usize::MAX
            } else {
                (old(mem)@[node as int].refcnt - 1) as usize
            }),
            final(mem)@[node as int].active == (old(mem)@[node as int].active && !freed),
            cells(final(mem)@) == if freed && old(mem)@[node as int].active {
                unlinked_at(cells(old(mem)@), node)
            } else {
                cells(old(mem)@)
            },
            forall|list: ActiveNodes, s: Seq<usize>, i: int|
                #![trigger list.holds(old(mem)@, s), s[i]]
                list.holds(old(mem)@, s) && 0 <= i < s.len() && s[i] == node && freed
                    ==> list.holds(final(mem)@, s.remove(i)),
    {
        let ghost m = cells(mem@);
        let prev: usize = mem[node].refcnt;
        mem[node].refcnt = prev.wrapping_sub(1);
        let ghost counted = mem@;
        assert(cells(counted) =~= m);
        if prev == 1 {
            if mem[node].active {
                mem[node].active = false;
                let ghost cleared = mem@;
                assert(cells(cleared) =~= m);
                ListLinks::remove(mem, node);
                proof {
                    assert forall|list: ActiveNodes, s: Seq<usize>, i: int|
                        #![trigger list.holds(old(mem)@, s), s[i]]
                        list.holds(old(mem)@, s) && 0 <= i < s.len() && s[i]
                            == node implies list.holds(mem@, s.remove(i)) by {
                        lemma_leave(list, old(mem)@, s, i, mem@);
                    }
                }
            } else {
                proof {
                    assert forall|list: ActiveNodes, s: Seq<usize>, i: int|
                        #![trigger list.holds(old(mem)@, s), s[i]]
                        list.holds(old(mem)@, s) && 0 <= i < s.len() && s[i]
                            == node implies false by {
                        assert(old(mem)@[s[i] as int].active);
                    }
                }
            }
            return true;
        }
        false
    }

    /// Moves an active node from the list to `stack`, which takes a reference to it. A node that is
    /// not active is left alone. Says whether the node was moved.
    pub fn move_to_stack(mem: &mut Vec<Node>, node: usize, stack: &mut Vec<usize>) -> (moved: bool)
        requires
            node < old(mem).len(),
            old(mem)@[node as int].active ==> sound_links(cells(old(mem)@), node),
        ensures
            moved == old(mem)@[node as int].active,
            !moved ==> final(mem)@ == old(mem)@ && final(stack)@ == old(stack)@,
            moved ==> {
                &&& final(stack)@ == old(stack)@.push(node)
                &&& only_marks(old(mem)@, final(mem)@, node)
                &&& !final(mem)@[node as int].active
                &&& final(mem)@[node as int].refcnt == (if old(mem)@[node as int].refcnt
                    == usize::MAX {
                    0
                } else {
                    (old(mem)@[node as int].refcnt + 1) as usize
                })
                &&& cells(final(mem)@) == unlinked_at(cells(old(mem)@), node)
            },
            forall|list: ActiveNodes, s: Seq<usize>, i: int|
                #![trigger list.holds(old(mem)@, s), s[i]]
                list.holds(old(mem)@, s) && 0 <= i < s.len() && s[i] == node ==> moved
                    && list.holds(final(mem)@, s.remove(i)),
    {
        let ghost m = cells(mem@);
        if !mem[node].active {
            proof {
                assert forall|list: ActiveNodes, s: Seq<usize>, i: int|
                    #![trigger list.holds(old(mem)@, s), s[i]]
                    list.holds(old(mem)@, s) && 0 <= i < s.len() && s[i] == node implies false by {
                    assert(old(mem)@[s[i] as int].active);
                }
            }
            return false;
        }
        mem[node].inc_ref();
        let ghost counted = mem@;
        assert(cells(counted) =~= m);
        ListLinks::remove(mem, node);
        let ghost removed = mem@;
        mem[node].active = false;
        stack.push(node);
        proof {
            assert(cells(mem@) =~= cells(removed));
            assert forall|list: ActiveNodes, s: Seq<usize>, i: int|
                #![trigger list.holds(old(mem)@, s), s[i]]
                list.holds(old(mem)@, s) && 0 <= i < s.len() && s[i] == node implies list.holds(
                mem@,
                s.remove(i),
            ) by {
                lemma_leave(list, old(mem)@, s, i, mem@);
            }
        }
        true
    }
}

proof fn lemma_leave(list: ActiveNodes, before: Seq<Node>, s: Seq<usize>, i: int, after: Seq<Node>)
    requires
        list.holds(before, s),
        0 <= i < s.len(),
        cells(after) == unlinked_at(cells(before), s[i]),
        only_marks(before, after, s[i]),
    ensures
        list.holds(after, s.remove(i)),
{
    let l = seq![list.head] + s;
    assert(l[i + 1] == s[i]);
    lemma_unlink(cells(before), None, l, i + 1);
    let t = s.remove(i);
    assert(l.remove(i + 1) =~= seq![list.head] + t);
    assert forall|j: int| 0 <= j < t.len() implies (#[trigger] after[t[j] as int]).active by {
        let j0 = if j < i {
            j
        } else {
            j + 1
        };
        assert(t[j] == s[j0]);
        assert(l[j0 + 1] == s[j0]);
        assert(s[j0] != s[i]);
        assert(before[s[j0] as int].active);
    }
}

/// A node that has been moved to a stack is not active, so neither a further move nor a release
/// touches any list.
pub proof fn law_moved_nodes_are_left_alone(mem: Seq<Node>, list: ActiveNodes, s: Seq<usize>, node: usize)
    requires
        list.holds(mem, s),
        !mem[node as int].active,
    ensures
        !s.contains(node),
{
    if s.contains(node) {
        let i = s.index_of(node);
        assert(mem[s[i] as int].active);
    }
}

/// A node that is put in front stands between the sentinel and what was first: the sentinel and the node
/// that was first name it. It names none before it until it is marked as active.
pub proof fn law_front_node_is_named(m: Seq<ListNode>, head: usize, node: usize)
    requires
        head < m.len(),
        node < m.len(),
        node != head,
        m.len() <= usize::MAX,
        valid(m, m[head as int].next),
        m[head as int].next != Some(node),
        m[head as int].next != Some(head),
    ensures
        pushed_front(m, head, node).len() == m.len(),
        pushed_front(m, head, node)[node as int].prev is None,
        pushed_front(m, head, node)[node as int].next == m[head as int].next,
        pushed_front(m, head, node)[head as int].next == Some(node),
        pushed_front(m, head, node)[head as int].prev == m[head as int].prev,
        m[head as int].next matches Some(first) ==> {
            &&& pushed_front(m, head, node)[first as int].prev == Some(node)
            &&& pushed_front(m, head, node)[first as int].next == m[first as int].next
        },
        forall|b: usize|
            b < m.len() && b != head && b != node && m[head as int].next != Some(b)
                ==> #[trigger] pushed_front(m, head, node)[b as int] == m[b as int],
{
}

/// Where only the mark of one node may change, all nodes keep their data, and the other nodes their
/// counts and marks.
pub proof fn law_other_nodes_keep_their_marks(before: Seq<Node>, after: Seq<Node>, node: usize)
    requires
        only_marks(before, after, node),
    ensures
        after.len() == before.len(),
        forall|a: int| 0 <= a < before.len() ==> (#[trigger] after[a]).data == before[a].data,
        forall|a: int|
            0 <= a < before.len() && a != node ==> (#[trigger] after[a]).refcnt == before[a].refcnt
                && after[a].active == before[a].active,
{
}

/// Relinking an element sets its link fields and keeps its count, mark and data.
pub proof fn law_relinking_keeps_the_payload(x: Node, links: ListNode)
    ensures
        x.relinked(links).links().prev == links.prev,
        x.relinked(links).links().next == links.next,
        x.relinked(links).refcnt == x.refcnt,
        x.relinked(links).active == x.active,
        x.relinked(links).data == x.data,
{
}

/// The nodes on the list are distinct, none is the sentinel, and all are marked. The first is named by
/// the sentinel and names it; each other one and the one before it name each other.
pub proof fn law_listed_nodes_are_marked(list: ActiveNodes, mem: Seq<Node>, s: Seq<usize>)
    requires
        list.holds(mem, s),
    ensures
        s.no_duplicates(),
        !s.contains(list.head),
        list.head < mem.len(),
        mem[list.head as int].links.next == if s.len() == 0 {
            None
        } else {
            Some(s[0])
        },
        forall|i: int|
            0 <= i < s.len() ==> {
                &&& (#[trigger] s[i]) < mem.len()
                &&& mem[s[i] as int].active
                &&& mem[s[i] as int].links.prev == Some(
                    if i == 0 {
                        list.head
                    } else {
                        s[i - 1]
                    },
                )
                &&& mem[s[i] as int].links.next == if i == s.len() - 1 {
                    None
                } else {
                    Some(s[i + 1])
                }
            },
{
    let t = seq![list.head] + s;
    let m = cells(mem);
    assert(t[0] == list.head);
    assert(placed(m, None, t, 0));
    assert forall|i: int| 0 <= i < s.len() implies {
        &&& (#[trigger] s[i]) < mem.len()
        &&& s[i] != list.head
        &&& mem[s[i] as int].active
        &&& mem[s[i] as int].links.prev == Some(
            if i == 0 {
                list.head
            } else {
                s[i - 1]
            },
        )
        &&& mem[s[i] as int].links.next == if i == s.len() - 1 {
            None
        } else {
            Some(s[i + 1])
        }
    } by {
        assert(t[i + 1] == s[i]);
        assert(placed(m, None, t, i + 1));
        assert(mem[s[i] as int].active);
    }
    assert forall|i: int, j: int| 0 <= i < s.len() && 0 <= j < s.len() && i != j implies s[i]
        != s[j] by {
        assert(t[i + 1] == s[i] && t[j + 1] == s[j]);
    }
}

} // verus!
