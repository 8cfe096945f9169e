//! A list that clears the link fields of every element it drains, so that a late `remove` finds
//! nothing to unlink.
use vstd::prelude::*;

use crate::chains::{cleared, push_last, sound_links, spanned, unlink_span, unlinked_at};
use crate::links::{
    at, cells, inserted, lemma_same_payload_refl, lemma_same_payload_trans, linked, next_of,
    placed, prev_of, put_links, same_payload, unlinked, valid, Embeds, ListLink, ListNode,
};

verus! {

/// A list of elements that live in a memory the caller owns.
pub struct List {
    pub head: ListLink,
    pub tail: ListLink,
}

impl List {
    /// The list holds the elements `s`, first element first.
    pub open spec fn holds(self, m: Seq<ListNode>, s: Seq<usize>) -> bool {
        spanned(m, self.head, self.tail, s)
    }

    /// `remove` takes `node` for an element that has already been removed.
    pub open spec fn gone(self, m: Seq<ListNode>, node: usize) -> bool {
        m[node as int] == unlinked() && self.head != Some(node)
    }

    /// The list and the link fields after `remove`.
    pub open spec fn removed(self, m: Seq<ListNode>, node: usize) -> (List, Seq<ListNode>) {
        let links = m[node as int];
        if self.gone(m, node) {
            (self, m)
        } else {
            (
                List {
                    head: if links.prev is None {
                        links.next
                    } else {
                        self.head
                    },
                    tail: if links.next is None {
                        links.prev
                    } else {
                        self.tail
                    },
                },
                unlinked_at(m, node),
            )
        }
    }

    /// Creates an empty list.
    pub fn new() -> (list: List)
        ensures
            list == (List { head: None, tail: None }),
            forall|m: Seq<ListNode>| #[trigger] list.holds(m, Seq::empty()),
    {
        List { head: None, tail: None }
    }

    /// Clears the link fields of an element before its first use.
    pub fn init<T: Embeds>(mem: &mut Vec<T>, node: usize)
        requires
            node < old(mem).len(),
        ensures
            cells(final(mem)@) == cells(old(mem)@).update(node as int, unlinked()),
            same_payload(old(mem)@, final(mem)@),
    {
        put_links(mem, node, ListNode::new());
    }

    /// Puts an element at the end of the list.
    pub fn push_back<T: Embeds>(&mut self, mem: &mut Vec<T>, node: usize)
        requires
            node < old(mem).len(),
            valid(cells(old(mem)@), old(self).tail),
        ensures
            final(self).tail == Some(node),
            final(self).head == if old(self).tail is None {
                Some(node)
            } else {
                old(self).head
            },
            cells(final(mem)@) == inserted(cells(old(mem)@), old(self).tail, node, None),
            same_payload(old(mem)@, final(mem)@),
            forall|s: Seq<usize>| #[trigger]
                old(self).holds(cells(old(mem)@), s) && !s.contains(node) ==> final(self).holds(
                    cells(final(mem)@),
                    s.push(node),
                ),
    {
        push_last(mem, &mut self.head, &mut self.tail, node);
        proof {
            let m = cells(old(mem)@);
            assert forall|s: Seq<usize>| #[trigger]
                old(self).holds(m, s) && !s.contains(node) implies self.holds(
                cells(mem@),
                s.push(node),
            ) by {
                assert(spanned(m, old(self).head, old(self).tail, s));
            }
        }
    }

    /// Removes an element from the list. An element that has already been removed, or drained by
    /// `release`, is left alone.
    pub fn remove<T: Embeds>(&mut self, mem: &mut Vec<T>, node: usize)
        requires
            sound_links(cells(old(mem)@), node),
        ensures
            (*final(self), cells(final(mem)@)) == old(self).removed(cells(old(mem)@), node),
            same_payload(old(mem)@, final(mem)@),
            forall|s: Seq<usize>, i: int|
                #![trigger old(self).holds(cells(old(mem)@), s), s[i]]
                old(self).holds(cells(old(mem)@), s) && 0 <= i < s.len() && s[i] == node
                    ==> final(self).holds(cells(final(mem)@), s.remove(i)),
    {
        let links: ListNode = ListNode { prev: prev_of(mem, node), next: next_of(mem, node) };
        let ghost m = cells(mem@);
        proof {
            lemma_same_payload_refl(mem@);
            assert forall|s: Seq<usize>, i: int|
                #![trigger self.holds(m, s), s[i]]
                self.holds(m, s) && 0 <= i < s.len() && s[i] == node implies !self.gone(
                m,
                node,
            ) by {
                assert(placed(m, None, s, i));
            }
        }
        if links.prev.is_none() && links.next.is_none() && self.head != Some(node) {
            return;
        }
        unlink_span(mem, &mut self.head, &mut self.tail, node);
        proof {
            assert forall|s: Seq<usize>, i: int|
                #![trigger old(self).holds(m, s), s[i]]
                old(self).holds(m, s) && 0 <= i < s.len() && s[i] == node implies self.holds(
                cells(mem@),
                s.remove(i),
            ) by {
                assert(spanned(m, old(self).head, old(self).tail, s));
            }
        }
    }

    /// Empties the list, clears the link fields of all its elements and hands them out, first
    /// element first, for clean-up.
    pub fn release<T: Embeds>(&mut self, mem: &mut Vec<T>) -> (nodes: Vec<usize>)
        requires
            exists|s: Seq<usize>| old(self).holds(cells(old(mem)@), s),
        ensures
            *final(self) == (List { head: None, tail: None }),
            old(self).holds(cells(old(mem)@), nodes@),
            cells(final(mem)@) == cleared(cells(old(mem)@), nodes@),
            same_payload(old(mem)@, final(mem)@),
    {
        let ghost m = cells(mem@);
        let ghost s = choose|s: Seq<usize>| self.holds(m, s);
        let mut nodes: Vec<usize> = Vec::new();
        let mut cur: ListLink = self.head.take();
        self.tail = None;
        proof {
            lemma_same_payload_refl(mem@);
            assert(cells(mem@) =~= cleared(m, s.take(0)));
        }
        while cur.is_some()
            invariant
                m == cells(old(mem)@),
                linked(m, None, s),
                nodes.len() <= s.len(),
                nodes@ == s.take(nodes.len() as int),
                cur == at(s, None, nodes.len() as int),
                cells(mem@) == cleared(m, nodes@),
                same_payload(old(mem)@, mem@),
            decreases s.len() - nodes.len(),
        {
            let ghost k = nodes.len() as int;
            let ghost before = mem@;
            let node: usize = cur.unwrap();
            assert(placed(m, None, s, k));
            assert(!s.take(k).contains(s[k]));
            assert(cells(mem@)[node as int] == m[node as int]);
            cur = next_of(mem, node);
            put_links(mem, node, ListNode::new());
            nodes.push(node);
            proof {
                lemma_same_payload_trans(old(mem)@, before, mem@);
                assert(nodes@ =~= s.take(k + 1));
                assert forall|a: int| 0 <= a < m.len() implies cells(mem@)[a] == #[trigger] cleared(
                    m,
                    nodes@,
                )[a] by {
                    assert(nodes@.contains(a as usize) <==> s.take(k).contains(a as usize) || a
                        == node) by {
                        assert(nodes@ == s.take(k).push(node));
                        if s.take(k).contains(a as usize) {
                            let j = s.take(k).index_of(a as usize);
                            assert(nodes@[j] == a as usize);
                        }
                        assert(nodes@[k] == node);
                    }
                }
                assert(cells(mem@) =~= cleared(m, nodes@));
            }
        }
        assert(nodes@ =~= s);
        nodes
    }
}

/// Removing an element twice is the same as removing it once.
pub proof fn law_remove_idempotent(list: List, m: Seq<ListNode>, s: Seq<usize>, i: int)
    requires
        list.holds(m, s),
        0 <= i < s.len(),
    ensures
        ({
            let (l1, m1) = list.removed(m, s[i]);
            l1.removed(m1, s[i]) == (l1, m1)
        }),
{
    assert(placed(m, None, s, i));
    let m1 = unlinked_at(m, s[i]);
    assert(m1[s[i] as int] == unlinked());
    if i == 0 && s.len() > 1 {
        assert(s[0] != s[1]);
    }
}

/// Once `release` has drained a list, removing one of its elements changes nothing, whatever has
/// happened to the list since, as long as the element itself has not been put back.
pub proof fn law_drained_elements_are_left_alone(
    before: Seq<ListNode>,
    s: Seq<usize>,
    list: List,
    m: Seq<ListNode>,
    node: usize,
)
    requires
        s.contains(node),
        node < before.len(),
        m[node as int] == cleared(before, s)[node as int],
        list.head != Some(node),
    ensures
        list.removed(m, node) == (list, m),
{
}

/// `remove` takes out every element that names a neighbour or is the first one, and changes nothing
/// for an element that is neither.
pub proof fn law_remove_skips_only_what_is_off_the_list(list: List, m: Seq<ListNode>, node: usize)
    requires
        sound_links(m, node),
        m.len() <= usize::MAX,
    ensures
        ({
            let (l, c) = list.removed(m, node);
            let links = m[node as int];
            let taken = links.prev is Some || links.next is Some || list.head == Some(node);
            &&& c.len() == m.len()
            &&& !taken ==> l == list && c == m
            &&& taken ==> {
                &&& l.head == if links.prev is None {
                    links.next
                } else {
                    list.head
                }
                &&& l.tail == if links.next is None {
                    links.prev
                } else {
                    list.tail
                }
                &&& c[node as int].prev is None
                &&& c[node as int].next is None
                &&& forall|b: int|
                    0 <= b < m.len() && b != node ==> (#[trigger] c[b]).next == if links.prev
                        == Some(b as usize) {
                        links.next
                    } else {
                        m[b].next
                    }
                &&& forall|b: int|
                    0 <= b < m.len() && b != node ==> (#[trigger] c[b]).prev == if links.next
                        == Some(b as usize) {
                        links.prev
                    } else {
                        m[b].prev
                    }
            }
        }),
{
}

} // verus!
