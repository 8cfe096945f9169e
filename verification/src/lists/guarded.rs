//! A list on which `remove` does nothing while it is empty, so that the elements that `release`
//! has just drained can be walked undisturbed.
use vstd::prelude::*;

use crate::chains::{
    chain, collect, lemma_chain, push_first, push_last, sound_links, spanned, unlink_span,
    unlinked_at,
};
use crate::links::{
    cells, inserted, lemma_same_payload_refl, next_of, placed, prev_of, put_links, same_payload,
    unlinked, valid, Embeds, ListLink, ListNode,
};

verus! {

/// A list of elements that live in a memory the caller owns.
pub struct IntrusiveList {
    pub head: ListLink,
    pub tail: ListLink,
}

impl IntrusiveList {
    /// The list holds the elements `s`, first element first.
    #[verifier::inline]
    pub open spec fn holds(self, m: Seq<ListNode>, s: Seq<usize>) -> bool {
        spanned(m, self.head, self.tail, s)
    }

    /// `remove` leaves `node` alone: the list is empty, or the element has already been removed.
    pub open spec fn skips(self, m: Seq<ListNode>, node: usize) -> bool {
        self.head is None || (m[node as int] == unlinked() && self.head != Some(node))
    }

    /// The list and the link fields after `remove`.
    pub open spec fn removed(self, m: Seq<ListNode>, node: usize) -> (
        IntrusiveList,
        Seq<ListNode>,
    ) {
        let links = m[node as int];
        if self.skips(m, node) {
            (self, m)
        } else {
            (
                IntrusiveList {
                    head: if links.prev is None {
                        links.next
                    } else {
                        self.head
                    },
                    tail: if links.next is None {
                        links.prev
                    } else {
                        self.tail
                    },
                },
                unlinked_at(m, node),
            )
        }
    }

    /// Creates an empty list.
    pub fn new() -> (list: IntrusiveList)
        ensures
            list == (IntrusiveList { head: None, tail: None }),
            forall|m: Seq<ListNode>| #[trigger] list.holds(m, Seq::empty()),
    {
        IntrusiveList { head: None, tail: None }
    }

    /// Clears the link fields of an element before its first use.
    pub fn init_node<T: Embeds>(mem: &mut Vec<T>, node: usize)
        requires
            node < old(mem).len(),
        ensures
            cells(final(mem)@) == cells(old(mem)@).update(node as int, unlinked()),
            same_payload(old(mem)@, final(mem)@),
    {
        put_links(mem, node, ListNode::new());
    }

    /// Whether the list has no elements.
    pub fn is_empty(&self) -> (empty: bool)
        ensures
            empty == (self.head is None),
            forall|m: Seq<ListNode>, s: Seq<usize>| #[trigger]
                self.holds(m, s) ==> empty == (s.len() == 0),
    {
        self.head.is_none()
    }

    /// Puts an element in front of the list.
    pub fn push_front<T: Embeds>(&mut self, mem: &mut Vec<T>, node: usize)
        requires
            node < old(mem).len(),
            valid(cells(old(mem)@), old(self).head),
        ensures
            final(self).head == Some(node),
            final(self).tail == if old(self).head is None {
                Some(node)
            } else {
                old(self).tail
            },
            cells(final(mem)@) == inserted(cells(old(mem)@), None, node, old(self).head),
            same_payload(old(mem)@, final(mem)@),
            forall|s: Seq<usize>| #[trigger]
                old(self).holds(cells(old(mem)@), s) && !s.contains(node) ==> final(self).holds(
                    cells(final(mem)@),
                    s.insert(0, node),
                ),
    {
        push_first(mem, &mut self.head, &mut self.tail, node);
    }

    /// Puts an element at the end of the list.
    pub fn push_back<T: Embeds>(&mut self, mem: &mut Vec<T>, node: usize)
        requires
            node < old(mem).len(),
            valid(cells(old(mem)@), old(self).tail),
        ensures
            final(self).tail == Some(node),
            final(self).head == if old(self).tail is None {
                Some(node)
            } else {
                old(self).head
            },
            cells(final(mem)@) == inserted(cells(old(mem)@), old(self).tail, node, None),
            same_payload(old(mem)@, final(mem)@),
            forall|s: Seq<usize>| #[trigger]
                old(self).holds(cells(old(mem)@), s) && !s.contains(node) ==> final(self).holds(
                    cells(final(mem)@),
                    s.push(node),
                ),
    {
        push_last(mem, &mut self.head, &mut self.tail, node);
    }

    /// Removes an element from the list. An element that has already been removed is left alone,
    /// and so is every element while the list is empty.
    pub fn remove<T: Embeds>(&mut self, mem: &mut Vec<T>, node: usize)
        requires
            sound_links(cells(old(mem)@), node),
        ensures
            (*final(self), cells(final(mem)@)) == old(self).removed(cells(old(mem)@), node),
            same_payload(old(mem)@, final(mem)@),
            forall|s: Seq<usize>, i: int|
                #![trigger old(self).holds(cells(old(mem)@), s), s[i]]
                old(self).holds(cells(old(mem)@), s) && 0 <= i < s.len() && s[i] == node
                    ==> final(self).holds(cells(final(mem)@), s.remove(i)),
    {
        let ghost m = cells(mem@);
        proof {
            lemma_same_payload_refl(mem@);
            assert forall|s: Seq<usize>, i: int|
                #![trigger spanned(m, self.head, self.tail, s), s[i]]
                spanned(m, self.head, self.tail, s) && 0 <= i < s.len() && s[i]
                    == node implies !self.skips(m, node) by {
                assert(placed(m, None, s, i));
            }
        }
        let p: ListLink = prev_of(mem, node);
        let n: ListLink = next_of(mem, node);
        if p.is_none() && n.is_none() && self.head != Some(node) {
            return;
        }
        if self.head.is_none() {
            return;
        }
        unlink_span(mem, &mut self.head, &mut self.tail, node);
    }

    /// Takes the whole list: what is left is empty, and the elements stay chained from the address
    /// that is handed out.
    pub fn drain(&mut self) -> (first: ListLink)
        ensures
            first == old(self).head,
            *final(self) == (IntrusiveList { head: None, tail: None }),
    {
        let first: ListLink = self.head;
        self.head = None;
        self.tail = None;
        first
    }

    /// Empties the list and hands out its elements, first element first, for clean-up. The link
    /// fields are only read.
    pub fn release<T: Embeds>(&mut self, mem: &Vec<T>) -> (nodes: Vec<usize>)
        requires
            exists|s: Seq<usize>| old(self).holds(cells(mem@), s),
        ensures
            *final(self) == (IntrusiveList { head: None, tail: None }),
            old(self).holds(cells(mem@), nodes@),
    {
        let ghost s = choose|s: Seq<usize>| self.holds(cells(mem@), s);
        proof {
            lemma_chain(cells(mem@), s);
        }
        let first: ListLink = self.drain();
        collect(mem, first)
    }
}

/// While the list is empty, as it is after `release`, removing an element changes nothing, so the
/// chain of drained elements stays whole.
pub proof fn law_drained_chain_survives_remove(
    before: IntrusiveList,
    m: Seq<ListNode>,
    s: Seq<usize>,
    node: usize,
)
    requires
        before.holds(m, s),
    ensures
        ({
            let (l1, m1) = (IntrusiveList { head: None, tail: None }).removed(m, node);
            &&& l1 == (IntrusiveList { head: None, tail: None })
            &&& m1 == m
            &&& chain(m1, before.head, s)
        }),
{
    lemma_chain(m, s);
}

/// Removing an element twice is the same as removing it once.
pub proof fn law_remove_idempotent(list: IntrusiveList, m: Seq<ListNode>, s: Seq<usize>, i: int)
    requires
        list.holds(m, s),
        0 <= i < s.len(),
    ensures
        ({
            let (l1, m1) = list.removed(m, s[i]);
            l1.removed(m1, s[i]) == (l1, m1)
        }),
{
    assert(placed(m, None, s, i));
    assert(unlinked_at(m, s[i])[s[i] as int] == unlinked());
    if i == 0 && s.len() > 1 {
        assert(s[0] != s[1]);
    }
}

/// `remove` takes out every element that names a neighbour or is the first one, and changes nothing
/// on an empty list and for an element that is neither.
pub proof fn law_remove_skips_only_what_is_off_the_list(list: IntrusiveList, m: Seq<ListNode>, node: usize)
    requires
        sound_links(m, node),
        m.len() <= usize::MAX,
    ensures
        ({
            let (l, c) = list.removed(m, node);
            let links = m[node as int];
            let taken = list.head is Some && (links.prev is Some || links.next is Some || list.head
                == Some(node));
            &&& c.len() == m.len()
            &&& !taken ==> l == list && c == m
            &&& taken ==> {
                &&& l.head == if links.prev is None {
                    links.next
                } else {
                    list.head
                }
                &&& l.tail == if links.next is None {
                    links.prev
                } else {
                    list.tail
                }
                &&& c[node as int].prev is None
                &&& c[node as int].next is None
                &&& forall|b: int|
                    0 <= b < m.len() && b != node ==> (#[trigger] c[b]).next == if links.prev
                        == Some(b as usize) {
                        links.next
                    } else {
                        m[b].next
                    }
                &&& forall|b: int|
                    0 <= b < m.len() && b != node ==> (#[trigger] c[b]).prev == if links.next
                        == Some(b as usize) {
                        links.prev
                    } else {
                        m[b].prev
                    }
            }
        }),
{
}

} // verus!
