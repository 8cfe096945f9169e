//! A ring that is closed for good once it has been drained: from then on neither insertion nor
//! removal touches it, and the drained elements can be walked undisturbed.
use vstd::prelude::*;

use crate::chains::{
    collect_back, detached, lemma_detach, ring, ring_insert_after, ring_push_back, ring_remove,
    sound_links,
};
use crate::links::{
    at, bridged, cells, inserted, lemma_same_payload_refl, lemma_same_payload_trans, lemma_unique,
    linked, next_of, placed, prev_of, put_links, put_next, put_prev, same_payload, unlinked,
    Embeds, ListLink, ListNode,
};

verus! {

/// The link fields that an element embeds.
pub type Node = ListNode;

/// A ring of elements that live in a memory the caller owns. The sentinel is one of its cells.
pub struct List {
    pub head: usize,
    pub draining: bool,
}

impl List {
    /// The list holds the elements `s`, first element first.
    #[verifier::inline]
    pub open spec fn holds(self, m: Seq<ListNode>, s: Seq<usize>) -> bool {
        ring(m, self.head, s)
    }

    /// Both neighbours of `node` point back to it.
    pub open spec fn vouches_for(self, m: Seq<ListNode>, node: usize) -> bool {
        &&& m[node as int].prev matches Some(p) && m[p as int].next == Some(node)
        &&& m[node as int].next matches Some(n) && m[n as int].prev == Some(node)
    }

    /// The link fields after `push_front`.
    pub open spec fn pushed_front(self, m: Seq<ListNode>, node: usize) -> Seq<ListNode> {
        if self.draining {
            m
        } else {
            inserted(m, Some(self.head), node, m[self.head as int].next)
        }
    }

    /// The link fields after `push_back`.
    pub open spec fn pushed_back(self, m: Seq<ListNode>, node: usize) -> Seq<ListNode> {
        if self.draining {
            m
        } else {
            inserted(m, m[self.head as int].prev, node, Some(self.head))
        }
    }

    /// The link fields after `remove`.
    pub open spec fn removed(self, m: Seq<ListNode>, node: usize) -> Seq<ListNode> {
        if self.draining || !self.vouches_for(m, node) {
            m
        } else {
            bridged(m, node).update(node as int, unlinked())
        }
    }

    /// Creates an empty list. Its sentinel is put at the end of the memory.
    pub fn new(mem: &mut Vec<ListNode>) -> (list: List)
        ensures
            list == (List { head: old(mem).len(), draining: false }),
            final(mem)@ == old(mem)@.push(ListNode { prev: Some(list.head), next: Some(list.head) }),
            list.holds(cells(final(mem)@), Seq::empty()),
    {
        let head: usize = mem.len();
        mem.push(ListNode { prev: Some(head), next: Some(head) });
        List { head, draining: false }
    }

    /// Clears the link fields of an element before its first use.
    pub fn init_node<T: Embeds>(mem: &mut Vec<T>, node: usize)
        requires
            node < old(mem).len(),
        ensures
            cells(final(mem)@) == cells(old(mem)@).update(node as int, unlinked()),
            same_payload(old(mem)@, final(mem)@),
    {
        put_links(mem, node, ListNode::new());
    }

    /// Puts an element in front of the list, unless it has been drained.
    pub fn push_front<T: Embeds>(&self, mem: &mut Vec<T>, node: usize)
        requires
            node < old(mem).len(),
            sound_links(cells(old(mem)@), self.head),
        ensures
            cells(final(mem)@) == self.pushed_front(cells(old(mem)@), node),
            same_payload(old(mem)@, final(mem)@),
            forall|s: Seq<usize>| #[trigger]
                self.holds(cells(old(mem)@), s) && !s.contains(node) && node != self.head
                    && !self.draining ==> self.holds(cells(final(mem)@), s.insert(0, node)),
    {
        proof {
            lemma_same_payload_refl(mem@);
        }
        if self.draining {
            return;
        }
        ring_insert_after(mem, self.head, node);
    }

    /// Puts an element at the end of the list, unless it has been drained.
    pub fn push_back<T: Embeds>(&self, mem: &mut Vec<T>, node: usize)
        requires
            node < old(mem).len(),
            sound_links(cells(old(mem)@), self.head),
        ensures
            cells(final(mem)@) == self.pushed_back(cells(old(mem)@), node),
            same_payload(old(mem)@, final(mem)@),
            forall|s: Seq<usize>| #[trigger]
                self.holds(cells(old(mem)@), s) && !s.contains(node) && node != self.head
                    && !self.draining ==> self.holds(cells(final(mem)@), s.push(node)),
    {
        proof {
            lemma_same_payload_refl(mem@);
        }
        if self.draining {
            return;
        }
        ring_push_back(mem, self.head, node);
    }

    /// Removes an element if both its neighbours point back to it, unless the list has been
    /// drained.
    pub fn remove<T: Embeds>(&self, mem: &mut Vec<T>, node: usize)
        requires
            sound_links(cells(old(mem)@), node),
        ensures
            cells(final(mem)@) == self.removed(cells(old(mem)@), node),
            same_payload(old(mem)@, final(mem)@),
            forall|s: Seq<usize>, i: int|
                #![trigger self.holds(cells(old(mem)@), s), s[i]]
                self.holds(cells(old(mem)@), s) && 0 <= i < s.len() && s[i] == node
                    && !self.draining ==> self.holds(cells(final(mem)@), s.remove(i)),
    {
        let ghost m = cells(mem@);
        proof {
            lemma_same_payload_refl(mem@);
            assert forall|s: Seq<usize>, i: int|
                #![trigger ring(m, self.head, s), s[i]]
                ring(m, self.head, s) && 0 <= i < s.len() && s[i] == node implies self.vouches_for(
                m,
                node,
            ) by {
                lemma_member_vouched_for(*self, m, s, i);
            }
        }
        if self.draining {
            return;
        }
        let p: ListLink = prev_of(mem, node);
        let n: ListLink = next_of(mem, node);
        if let Some(a) = p {
            if let Some(b) = n {
                if next_of(mem, a) != Some(node) || prev_of(mem, b) != Some(node) {
                    return;
                }
                ring_remove(mem, node, ListNode::new());
            }
        }
    }

    /// Closes the list and cuts its elements off. Hands out the last of them, from which they can
    /// be walked by following `prev`, or null where there are none.
    pub fn detach<T: Embeds>(&mut self, mem: &mut Vec<T>) -> (last: ListLink)
        requires
            exists|s: Seq<usize>| old(self).holds(cells(old(mem)@), s),
        ensures
            *final(self) == (List { head: old(self).head, draining: true }),
            same_payload(old(mem)@, final(mem)@),
            final(self).holds(cells(final(mem)@), Seq::empty()),
            forall|s: Seq<usize>| #[trigger]
                old(self).holds(cells(old(mem)@), s) ==> {
                    &&& last == at(s, None, s.len() - 1)
                    &&& s.len() == 0 ==> cells(final(mem)@) == cells(old(mem)@)
                    &&& s.len() > 0 ==> cells(final(mem)@) == detached(
                        cells(old(mem)@),
                        old(self).head,
                    )
                    &&& linked(cells(final(mem)@), None, s)
                },
    {
        let ghost m = cells(mem@);
        let ghost s = choose|s: Seq<usize>| ring(m, self.head, s);
        let head: usize = self.head;
        self.draining = true;
        proof {
            lemma_same_payload_refl(mem@);
            assert forall|t: Seq<usize>| #[trigger] ring(m, head, t) implies t == s by {
                lemma_unique(m, Some(head), s, t);
            }
        }
        let first: ListLink = next_of(mem, head);
        if first == Some(head) {
            assert(s =~= Seq::empty());
            return None;
        }
        let last: ListLink = prev_of(mem, head);
        put_links(mem, head, ListNode { prev: Some(head), next: Some(head) });
        let ghost m1 = mem@;
        put_prev(mem, first, None);
        let ghost m2 = mem@;
        put_next(mem, last, None);
        proof {
            lemma_same_payload_trans(old(mem)@, m1, m2);
            lemma_same_payload_trans(old(mem)@, m2, mem@);
            lemma_detach(m, head, s);
        }
        last
    }

    /// Closes the list, empties it and hands out its elements, last element first, for clean-up.
    pub fn release<T: Embeds>(&mut self, mem: &mut Vec<T>) -> (nodes: Vec<usize>)
        requires
            exists|s: Seq<usize>| old(self).holds(cells(old(mem)@), s),
        ensures
            *final(self) == (List { head: old(self).head, draining: true }),
            same_payload(old(mem)@, final(mem)@),
            final(self).holds(cells(final(mem)@), Seq::empty()),
            forall|s: Seq<usize>| #[trigger]
                old(self).holds(cells(old(mem)@), s) ==> {
                    &&& nodes@ == s.reverse()
                    &&& s.len() == 0 ==> cells(final(mem)@) == cells(old(mem)@)
                    &&& s.len() > 0 ==> cells(final(mem)@) == detached(
                        cells(old(mem)@),
                        old(self).head,
                    )
                    &&& linked(cells(final(mem)@), None, s)
                },
    {
        let ghost s = choose|s: Seq<usize>| ring(cells(mem@), self.head, s);
        let last: ListLink = self.detach(mem);
        assert(linked(cells(mem@), None, s));
        collect_back(mem, last)
    }
}

proof fn lemma_member_vouched_for(list: List, m: Seq<ListNode>, s: Seq<usize>, i: int)
    requires
        list.holds(m, s),
        0 <= i < s.len(),
    ensures
        list.vouches_for(m, s[i]),
{
    assert(placed(m, Some(list.head), s, i));
    if i > 0 {
        assert(placed(m, Some(list.head), s, i - 1));
    }
    if i + 1 < s.len() {
        assert(placed(m, Some(list.head), s, i + 1));
    }
}

/// Once drained, the list ignores every insertion and removal.
pub proof fn law_drained_list_is_closed(list: List, m: Seq<ListNode>, node: usize)
    requires
        list.draining,
    ensures
        list.pushed_front(m, node) == m,
        list.pushed_back(m, node) == m,
        list.removed(m, node) == m,
{
}

/// Removing an element twice is the same as removing it once.
pub proof fn law_remove_idempotent(list: List, m: Seq<ListNode>, s: Seq<usize>, i: int)
    requires
        list.holds(m, s),
        0 <= i < s.len(),
    ensures
        list.removed(list.removed(m, s[i]), s[i]) == list.removed(m, s[i]),
{
    assert(placed(m, Some(list.head), s, i));
    if !list.draining {
        lemma_member_vouched_for(list, m, s, i);
        assert(list.removed(m, s[i])[s[i] as int] == unlinked());
    }
}

/// `remove` takes an element out of an open list exactly where both elements that it names name it in
/// turn; elsewhere, and on a drained list, it changes nothing.
pub proof fn law_remove_goes_by_the_neighbours(list: List, m: Seq<ListNode>, node: usize)
    requires
        sound_links(m, node),
        m.len() <= usize::MAX,
    ensures
        ({
            let c = list.removed(m, node);
            let links = m[node as int];
            let agreed = links.prev is Some && links.next is Some && m[links.prev->0 as int].next
                == Some(node) && m[links.next->0 as int].prev == Some(node);
            &&& c.len() == m.len()
            &&& list.draining || !agreed ==> c == m
            &&& !list.draining && agreed ==> {
                &&& c[node as int].prev is None
                &&& c[node as int].next is None
                &&& forall|b: int|
                    0 <= b < m.len() && b != node ==> (#[trigger] c[b]).next == if links.prev
                        == Some(b as usize) {
                        links.next
                    } else {
                        m[b].next
                    }
                &&& forall|b: int|
                    0 <= b < m.len() && b != node ==> (#[trigger] c[b]).prev == if links.next
                        == Some(b as usize) {
                        links.prev
                    } else {
                        m[b].prev
                    }
            }
        }),
{
}

/// An open list takes an element in at the end asked for: it stands between the sentinel and what was
/// first, or between what was last and the sentinel.
pub proof fn law_open_list_takes_elements(list: List, m: Seq<ListNode>, node: usize)
    requires
        !list.draining,
        sound_links(m, list.head),
        node < m.len(),
        node != list.head,
        m[list.head as int].next != Some(node),
        m[list.head as int].prev != Some(node),
    ensures
        list.pushed_front(m, node)[node as int].prev == Some(list.head),
        list.pushed_front(m, node)[node as int].next == m[list.head as int].next,
        list.pushed_front(m, node)[list.head as int].next == Some(node),
        list.pushed_front(m, node)[m[list.head as int].next->0 as int].prev == Some(node)
            || m[list.head as int].next is None,
        list.pushed_back(m, node)[node as int].next == Some(list.head),
        list.pushed_back(m, node)[node as int].prev == m[list.head as int].prev,
        list.pushed_back(m, node)[list.head as int].prev == Some(node),
        list.pushed_back(m, node)[m[list.head as int].prev->0 as int].next == Some(node)
            || m[list.head as int].prev is None,
{
}

} // verus!
