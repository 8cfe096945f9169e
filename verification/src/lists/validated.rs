//! A list that takes an element out only where the link fields around it agree that it is there,
//! and touches nothing while it is empty.
use vstd::prelude::*;

use crate::chains::{
    chain, collect, lemma_chain, push_first, push_last, sound_links, spanned, unlink_span,
    unlinked_at,
};
use crate::links::{
    at, cells, inserted, lemma_frame, lemma_same_payload_refl, next_of, placed, prev_of, put_links,
    same_payload, unlinked, valid, Embeds, ListLink, ListNode,
};

verus! {

/// The link fields that an element embeds.
pub type Node = ListNode;

/// A list of elements that live in a memory the caller owns.
pub struct List {
    pub head: ListLink,
    pub tail: ListLink,
}

impl List {
    /// The list holds the elements `s`, first element first.
    pub open spec fn holds(self, m: Seq<ListNode>, s: Seq<usize>) -> bool {
        spanned(m, self.head, self.tail, s)
    }

    /// Both neighbours of `node`, or the ends of the list, point back to it.
    pub open spec fn vouches_for(self, m: Seq<ListNode>, node: usize) -> bool {
        &&& match m[node as int].prev {
            Some(p) => m[p as int].next == Some(node),
            None => self.head == Some(node),
        }
        &&& match m[node as int].next {
            Some(n) => m[n as int].prev == Some(node),
            None => self.tail == Some(node),
        }
    }

    /// The list and the link fields after `remove`.
    pub open spec fn removed(self, m: Seq<ListNode>, node: usize) -> (List, Seq<ListNode>) {
        let links = m[node as int];
        if self.head is None {
            (self, m)
        } else if !self.vouches_for(m, node) {
            (self, m.update(node as int, unlinked()))
        } else {
            (
                List {
                    head: if links.prev is None {
                        links.next
                    } else {
                        self.head
                    },
                    tail: if links.next is None {
                        links.prev
                    } else {
                        self.tail
                    },
                },
                unlinked_at(m, node),
            )
        }
    }

    /// Creates an empty list.
    pub fn new() -> (list: List)
        ensures
            list == (List { head: None, tail: None }),
            forall|m: Seq<ListNode>| #[trigger] list.holds(m, Seq::empty()),
    {
        List { head: None, tail: None }
    }

    /// Clears the link fields of an element before its first use.
    pub fn node_init<T: Embeds>(mem: &mut Vec<T>, node: usize)
        requires
            node < old(mem).len(),
        ensures
            cells(final(mem)@) == cells(old(mem)@).update(node as int, unlinked()),
            same_payload(old(mem)@, final(mem)@),
    {
        put_links(mem, node, ListNode::new());
    }

    /// Puts an element in front of the list.
    pub fn insert_head<T: Embeds>(&mut self, mem: &mut Vec<T>, node: usize)
        requires
            node < old(mem).len(),
            valid(cells(old(mem)@), old(self).head),
        ensures
            final(self).head == Some(node),
            final(self).tail == if old(self).head is None {
                Some(node)
            } else {
                old(self).tail
            },
            cells(final(mem)@) == inserted(cells(old(mem)@), None, node, old(self).head),
            same_payload(old(mem)@, final(mem)@),
            forall|s: Seq<usize>| #[trigger]
                old(self).holds(cells(old(mem)@), s) && !s.contains(node) ==> final(self).holds(
                    cells(final(mem)@),
                    s.insert(0, node),
                ),
    {
        push_first(mem, &mut self.head, &mut self.tail, node);
        proof {
            let m = cells(old(mem)@);
            assert forall|s: Seq<usize>| #[trigger]
                old(self).holds(m, s) && !s.contains(node) implies self.holds(
                cells(mem@),
                s.insert(0, node),
            ) by {
                assert(spanned(m, old(self).head, old(self).tail, s));
            }
        }
    }

    /// Puts an element at the end of the list.
    pub fn insert_tail<T: Embeds>(&mut self, mem: &mut Vec<T>, node: usize)
        requires
            node < old(mem).len(),
            valid(cells(old(mem)@), old(self).tail),
        ensures
            final(self).tail == Some(node),
            final(self).head == if old(self).tail is None {
                Some(node)
            } else {
                old(self).head
            },
            cells(final(mem)@) == inserted(cells(old(mem)@), old(self).tail, node, None),
            same_payload(old(mem)@, final(mem)@),
            forall|s: Seq<usize>| #[trigger]
                old(self).holds(cells(old(mem)@), s) && !s.contains(node) ==> final(self).holds(
                    cells(final(mem)@),
                    s.push(node),
                ),
    {
        push_last(mem, &mut self.head, &mut self.tail, node);
        proof {
            let m = cells(old(mem)@);
            assert forall|s: Seq<usize>| #[trigger]
                old(self).holds(m, s) && !s.contains(node) implies self.holds(
                cells(mem@),
                s.push(node),
            ) by {
                assert(spanned(m, old(self).head, old(self).tail, s));
            }
        }
    }

    /// Removes an element from the list. An element that is not on the list only has its own link
    /// fields cleared, and while the list is empty nothing is written at all.
    pub fn remove<T: Embeds>(&mut self, mem: &mut Vec<T>, node: usize)
        requires
            sound_links(cells(old(mem)@), node),
        ensures
            (*final(self), cells(final(mem)@)) == old(self).removed(cells(old(mem)@), node),
            same_payload(old(mem)@, final(mem)@),
            forall|s: Seq<usize>, i: int|
                #![trigger old(self).holds(cells(old(mem)@), s), s[i]]
                old(self).holds(cells(old(mem)@), s) && 0 <= i < s.len() && s[i] == node
                    ==> final(self).holds(cells(final(mem)@), s.remove(i)),
            forall|s: Seq<usize>| #[trigger]
                old(self).holds(cells(old(mem)@), s) && !s.contains(node) ==> final(self).holds(
                    cells(final(mem)@),
                    s,
                ),
    {
        let ghost m = cells(mem@);
        proof {
            lemma_same_payload_refl(mem@);
            assert forall|s: Seq<usize>, i: int|
                #![trigger self.holds(m, s), s[i]]
                self.holds(m, s) && 0 <= i < s.len() && s[i] == node implies self.vouches_for(
                m,
                node,
            ) && self.head is Some by {
                lemma_member_vouched_for(*self, m, s, i);
            }
            assert forall|s: Seq<usize>| #[trigger]
                self.holds(m, s) && !s.contains(node) implies ({
                let (l1, m1) = self.removed(m, node);
                l1.holds(m1, s)
            }) by {
                lemma_stranger_leaves_list(*self, m, s, node);
            }
        }
        if self.head.is_none() {
            return;
        }
        let p: ListLink = prev_of(mem, node);
        let n: ListLink = next_of(mem, node);
        let prev_ok: bool = match p {
            Some(a) => next_of(mem, a) == Some(node),
            None => self.head == Some(node),
        };
        let next_ok: bool = match n {
            Some(a) => prev_of(mem, a) == Some(node),
            None => self.tail == Some(node),
        };
        if !(prev_ok && next_ok) {
            put_links(mem, node, ListNode::new());
            return;
        }
        unlink_span(mem, &mut self.head, &mut self.tail, node);
        proof {
            assert forall|s: Seq<usize>, i: int|
                #![trigger old(self).holds(m, s), s[i]]
                old(self).holds(m, s) && 0 <= i < s.len() && s[i] == node implies self.holds(
                cells(mem@),
                s.remove(i),
            ) by {
                assert(spanned(m, old(self).head, old(self).tail, s));
            }
        }
    }

    /// Takes the whole list: what is left is empty, and the elements stay chained from the address
    /// that is handed out.
    pub fn splice(&mut self) -> (first: ListLink)
        ensures
            first == old(self).head,
            *final(self) == (List { head: None, tail: None }),
    {
        let first: ListLink = self.head;
        self.head = None;
        self.tail = None;
        first
    }

    /// Empties the list and hands out its elements, first element first, for clean-up. The link
    /// fields are only read.
    pub fn release<T: Embeds>(&mut self, mem: &Vec<T>) -> (nodes: Vec<usize>)
        requires
            exists|s: Seq<usize>| old(self).holds(cells(mem@), s),
        ensures
            *final(self) == (List { head: None, tail: None }),
            old(self).holds(cells(mem@), nodes@),
    {
        let ghost s = choose|s: Seq<usize>| self.holds(cells(mem@), s);
        proof {
            lemma_chain(cells(mem@), s);
        }
        let first: ListLink = self.splice();
        collect(mem, first)
    }
}

proof fn lemma_member_vouched_for(list: List, m: Seq<ListNode>, s: Seq<usize>, i: int)
    requires
        list.holds(m, s),
        0 <= i < s.len(),
    ensures
        list.vouches_for(m, s[i]),
        list.head is Some,
{
    assert(placed(m, None, s, i));
    if i > 0 {
        assert(placed(m, None, s, i - 1));
    }
    if i + 1 < s.len() {
        assert(placed(m, None, s, i + 1));
    }
}

proof fn lemma_stranger_leaves_list(list: List, m: Seq<ListNode>, s: Seq<usize>, node: usize)
    requires
        list.holds(m, s),
        !s.contains(node),
        sound_links(m, node),
    ensures
        ({
            let (l1, m1) = list.removed(m, node);
            l1.holds(m1, s)
        }),
{
    let (l1, m1) = list.removed(m, node);
    if list.head is Some {
        if list.vouches_for(m, node) {
            assert(list.head == at(s, None, 0) && s[0] != node);
            assert(list.tail == at(s, None, s.len() - 1) && s[s.len() - 1] != node);
            let p = m[node as int].prev->0;
            let n = m[node as int].next->0;
            assert forall|j: int| 0 <= j < s.len() implies m1[#[trigger] s[j] as int]
                == m[s[j] as int] by {
                assert(placed(m, None, s, j));
                assert(s[j] != node);
                if j + 1 < s.len() {
                    assert(s[j + 1] != node);
                }
                if j > 0 {
                    assert(s[j - 1] != node);
                }
                assert(s[j] != p && s[j] != n);
            }
        } else {
            assert forall|j: int| 0 <= j < s.len() implies m1[#[trigger] s[j] as int]
                == m[s[j] as int] by {
                assert(s[j] != node);
            }
        }
        lemma_frame(m, m1, None, s);
    }
}

/// While the list is empty, as it is after `release`, removing an element changes nothing, so the
/// chain of drained elements stays whole.
pub proof fn law_empty_list_touches_nothing(list: List, m: Seq<ListNode>, node: usize)
    requires
        list.head is None,
    ensures
        list.removed(m, node) == (list, m),
{
}

/// A drained chain stays whole when one of its elements is removed after `release`.
pub proof fn law_drained_chain_survives_remove(
    before: List,
    m: Seq<ListNode>,
    s: Seq<usize>,
    node: usize,
)
    requires
        before.holds(m, s),
    ensures
        ({
            let (l1, m1) = (List { head: None, tail: None }).removed(m, node);
            chain(m1, before.head, s)
        }),
{
    lemma_chain(m, s);
}

/// Removing an element twice is the same as removing it once.
pub proof fn law_remove_idempotent(list: List, m: Seq<ListNode>, s: Seq<usize>, i: int)
    requires
        list.holds(m, s),
        0 <= i < s.len(),
    ensures
        ({
            let (l1, m1) = list.removed(m, s[i]);
            l1.removed(m1, s[i]) == (l1, m1)
        }),
{
    lemma_member_vouched_for(list, m, s, i);
    assert(placed(m, None, s, i));
    let (l1, m1) = list.removed(m, s[i]);
    assert(m1[s[i] as int] == unlinked());
    if i == 0 && s.len() > 1 {
        assert(s[0] != s[1]);
    }
    if l1.head is Some {
        assert(m1.update(s[i] as int, unlinked()) =~= m1);
    }
}

/// On a list that is not empty `remove` clears the link fields of the element. It takes the element out
/// exactly where what stands before it and what stands after it, an element or the list itself, name
/// it; elsewhere nothing but the element itself changes.
pub proof fn law_remove_goes_by_the_neighbours(list: List, m: Seq<ListNode>, node: usize)
    requires
        sound_links(m, node),
        m.len() <= usize::MAX,
        list.head is Some,
    ensures
        ({
            let (l, c) = list.removed(m, node);
            let links = m[node as int];
            let taken = (if links.prev is None {
                list.head == Some(node)
            } else {
                m[links.prev->0 as int].next == Some(node)
            }) && (if links.next is None {
                list.tail == Some(node)
            } else {
                m[links.next->0 as int].prev == Some(node)
            });
            &&& c.len() == m.len()
            &&& c[node as int].prev is None
            &&& c[node as int].next is None
            &&& !taken ==> l == list && forall|b: int|
                0 <= b < m.len() && b != node ==> #[trigger] c[b] == m[b]
            &&& taken ==> {
                &&& l.head == if links.prev is None {
                    links.next
                } else {
                    list.head
                }
                &&& l.tail == if links.next is None {
                    links.prev
                } else {
                    list.tail
                }
                &&& forall|b: int|
                    0 <= b < m.len() && b != node ==> (#[trigger] c[b]).next == if links.prev
                        == Some(b as usize) {
                        links.next
                    } else {
                        m[b].next
                    }
                &&& forall|b: int|
                    0 <= b < m.len() && b != node ==> (#[trigger] c[b]).prev == if links.next
                        == Some(b as usize) {
                        links.prev
                    } else {
                        m[b].prev
                    }
            }
        }),
{
}

} // verus!
