//! A list that stamps its elements with a generation number. `release` starts a new generation, and
//! `remove` leaves elements of an older one alone.
use vstd::prelude::*;

use crate::chains::{chain, push_first, push_last, sound_links, spanned, unlinked_at};
use crate::links::{
    at, bridge, cells, inserted, lemma_same_payload_trans, lemma_unique, placed, put_links,
    unlinked, valid, Embeds, ListLink, ListNode,
};
use crate::lists::stacked::stacked;

verus! {

/// The link fields and the generation number that a list element embeds.
#[derive(Clone, Copy, Debug, PartialEq, Eq, Structural)]
pub struct Link {
    pub prev: ListLink,
    pub next: ListLink,
    pub gen: u64,
}

impl Embeds for Link {
    open spec fn links(self) -> ListNode {
        ListNode { prev: self.prev, next: self.next }
    }

    open spec fn relinked(self, links: ListNode) -> Self {
        Link { prev: links.prev, next: links.next, gen: self.gen }
    }

    proof fn relinking(self, a: ListNode, b: ListNode) {
    }

    fn get_links(&self) -> (links: ListNode) {
        ListNode { prev: self.prev, next: self.next }
    }

    fn set_links(&mut self, links: ListNode) {
        self.prev = links.prev;
        self.next = links.next;
    }
}

/// The generation numbers in memory, address by address.
pub open spec fn stamps(mem: Seq<Link>) -> Seq<u64> {
    Seq::new(mem.len(), |a: int| mem[a].gen)
}

/// A list of elements that live in a memory the caller owns.
pub struct List {
    pub head: ListLink,
    pub tail: ListLink,
    pub gen: u64,
}

impl List {
    /// The list holds the elements `s`, first element first, and has stamped them all.
    pub open spec fn holds(self, mem: Seq<Link>, s: Seq<usize>) -> bool {
        &&& spanned(cells(mem), self.head, self.tail, s)
        &&& forall|i: int| 0 <= i < s.len() ==> mem[#[trigger] s[i] as int].gen == self.gen
    }

    /// The list after `remove`.
    pub open spec fn without(self, mem: Seq<Link>, node: usize) -> List {
        let link = mem[node as int];
        if link.gen != self.gen {
            self
        } else {
            List {
                head: if link.prev is None && self.head == Some(node) {
                    link.next
                } else {
                    self.head
                },
                tail: if link.next is None && self.tail == Some(node) {
                    link.prev
                } else {
                    self.tail
                },
                gen: self.gen,
            }
        }
    }

    /// The link fields after `remove`.
    pub open spec fn cells_without(self, mem: Seq<Link>, node: usize) -> Seq<ListNode> {
        if mem[node as int].gen != self.gen {
            cells(mem)
        } else {
            unlinked_at(cells(mem), node)
        }
    }

    /// Creates an empty list.
    pub fn new() -> (list: List)
        ensures
            list == (List { head: None, tail: None, gen: 0 }),
            forall|mem: Seq<Link>| #[trigger] list.holds(mem, Seq::empty()),
    {
        List { head: None, tail: None, gen: 0 }
    }

    /// Puts an element in front of the list. Null is ignored.
    pub fn push_front(&mut self, mem: &mut Vec<Link>, node: ListLink)
        requires
            valid(cells(old(mem)@), node),
            valid(cells(old(mem)@), old(self).head),
        ensures
            node is None ==> *final(self) == *old(self) && final(mem)@ == old(mem)@,
            node matches Some(a) ==> {
                &&& *final(self) == (List {
                    head: node,
                    tail: if old(self).head is None {
                        node
                    } else {
                        old(self).tail
                    },
                    gen: old(self).gen,
                })
                &&& cells(final(mem)@) == inserted(cells(old(mem)@), None, a, old(self).head)
                &&& stamps(final(mem)@) == stamps(old(mem)@).update(a as int, old(self).gen)
                &&& forall|s: Seq<usize>| #[trigger]
                    old(self).holds(old(mem)@, s) && !s.contains(a) ==> final(self).holds(
                        final(mem)@,
                        s.insert(0, a),
                    )
            },
    {
        if let Some(a) = node {
            let ghost m = mem@;
            push_first(mem, &mut self.head, &mut self.tail, a);
            let ghost m1 = mem@;
            let mut link: Link = mem[a];
            link.gen = self.gen;
            mem[a] = link;
            proof {
                assert(cells(mem@) =~= cells(m1));
                assert(stamps(mem@) =~= stamps(m).update(a as int, self.gen));
                assert forall|s: Seq<usize>| #[trigger]
                    old(self).holds(m, s) && !s.contains(a) implies self.holds(
                    mem@,
                    s.insert(0, a),
                ) by {
                    let t = s.insert(0, a);
                    assert(spanned(cells(m), old(self).head, old(self).tail, s));
                    assert forall|i: int| 0 <= i < t.len() implies mem@[#[trigger] t[i] as int].gen
                        == self.gen by {
                        assert(t[i] < mem.len());
                        assert(stamps(mem@)[t[i] as int] == mem@[t[i] as int].gen);
                        if i > 0 {
                            assert(t[i] == s[i - 1]);
                        }
                    }
                }
            }
        }
    }

    /// Puts an element at the end of the list. Null is ignored.
    pub fn push_back(&mut self, mem: &mut Vec<Link>, node: ListLink)
        requires
            valid(cells(old(mem)@), node),
            valid(cells(old(mem)@), old(self).tail),
        ensures
            node is None ==> *final(self) == *old(self) && final(mem)@ == old(mem)@,
            node matches Some(a) ==> {
                &&& *final(self) == (List {
                    head: if old(self).tail is None {
                        node
                    } else {
                        old(self).head
                    },
                    tail: node,
                    gen: old(self).gen,
                })
                &&& cells(final(mem)@) == inserted(cells(old(mem)@), old(self).tail, a, None)
                &&& stamps(final(mem)@) == stamps(old(mem)@).update(a as int, old(self).gen)
                &&& forall|s: Seq<usize>| #[trigger]
                    old(self).holds(old(mem)@, s) && !s.contains(a) ==> final(self).holds(
                        final(mem)@,
                        s.push(a),
                    )
            },
    {
        if let Some(a) = node {
            let ghost m = mem@;
            push_last(mem, &mut self.head, &mut self.tail, a);
            let ghost m1 = mem@;
            let mut link: Link = mem[a];
            link.gen = self.gen;
            mem[a] = link;
            proof {
                assert(cells(mem@) =~= cells(m1));
                assert(stamps(mem@) =~= stamps(m).update(a as int, self.gen));
                assert forall|s: Seq<usize>| #[trigger]
                    old(self).holds(m, s) && !s.contains(a) implies self.holds(
                    mem@,
                    s.push(a),
                ) by {
                    let t = s.push(a);
                    assert(spanned(cells(m), old(self).head, old(self).tail, s));
                    assert forall|i: int| 0 <= i < t.len() implies mem@[#[trigger] t[i] as int].gen
                        == self.gen by {
                        assert(t[i] < mem.len());
                        assert(stamps(mem@)[t[i] as int] == mem@[t[i] as int].gen);
                        if i < s.len() {
                            assert(t[i] == s[i]);
                        }
                    }
                }
            }
        }
    }

    /// Removes an element from the list. An element of another generation and null are left alone.
    pub fn remove(&mut self, mem: &mut Vec<Link>, node: ListLink)
        requires
            node matches Some(a) ==> sound_links(cells(old(mem)@), a),
        ensures
            node is None ==> *final(self) == *old(self) && final(mem)@ == old(mem)@,
            node matches Some(a) ==> *final(self) == old(self).without(old(mem)@, a) && cells(
                final(mem)@,
            ) == old(self).cells_without(old(mem)@, a),
            stamps(final(mem)@) == stamps(old(mem)@),
            forall|s: Seq<usize>, i: int|
                #![trigger old(self).holds(old(mem)@, s), s[i]]
                old(self).holds(old(mem)@, s) && 0 <= i < s.len() && Some(s[i]) == node
                    ==> final(self).holds(final(mem)@, s.remove(i)),
    {
        if let Some(a) = node {
            let link: Link = mem[a];
            if link.gen != self.gen {
                return;
            }
            let ghost m = cells(mem@);
            bridge(mem, a);
            let ghost m1 = mem@;
            if link.prev.is_none() && self.head == Some(a) {
                self.head = link.next;
            }
            if link.next.is_none() && self.tail == Some(a) {
                self.tail = link.prev;
            }
            put_links(mem, a, ListNode::new());
            proof {
                lemma_same_payload_trans(old(mem)@, m1, mem@);
                assert(stamps(mem@) =~= stamps(old(mem)@));
                assert forall|s: Seq<usize>, i: int|
                    #![trigger old(self).holds(old(mem)@, s), s[i]]
                    old(self).holds(old(mem)@, s) && 0 <= i < s.len() && s[i]
                        == a implies self.holds(mem@, s.remove(i)) by {
                    crate::chains::lemma_unlink(m, None, s, i);
                    assert(placed(m, None, s, i));
                    let t = s.remove(i);
                    assert forall|j: int| 0 <= j < t.len() implies mem@[#[trigger] t[j] as int].gen
                        == self.gen by {
                        let j0 = if j < i { j } else { j + 1 };
                        assert(t[j] == s[j0]);
                        assert(stamps(mem@)[t[j] as int] == stamps(old(mem)@)[t[j] as int]);
                    }
                }
            }
        }
    }

    /// Takes the whole list and starts a new generation. The elements stay linked to each other
    /// from the address that is handed out.
    pub fn detach(&mut self) -> (first: ListLink)
        ensures
            first == old(self).head,
            *final(self) == (List {
                head: None,
                tail: None,
                gen: (if old(self).gen == u64::MAX {
                    0
                } else {
                    (old(self).gen + 1) as u64
                }),
            }),
    {
        let first: ListLink = self.head;
        self.head = None;
        self.tail = None;
        self.gen = self.gen.wrapping_add(1);
        first
    }

    /// Empties the list into a stack that is linked through `next`, starts a new generation, and
    /// hands out the top of the stack, the former last element.
    pub fn release(&mut self, mem: &mut Vec<Link>) -> (top: ListLink)
        requires
            exists|s: Seq<usize>| old(self).holds(old(mem)@, s),
        ensures
            final(self).head is None,
            final(self).tail is None,
            final(self).gen == (if old(self).gen == u64::MAX {
                0
            } else {
                (old(self).gen + 1) as u64
            }),
            stamps(final(mem)@) == stamps(old(mem)@),
            forall|s: Seq<usize>| #[trigger]
                old(self).holds(old(mem)@, s) ==> {
                    &&& top == at(s, None, s.len() - 1)
                    &&& cells(final(mem)@) == stacked(cells(old(mem)@), s)
                    &&& chain(cells(final(mem)@), top, s.reverse())
                },
    {
        let ghost m = cells(mem@);
        let ghost s = choose|s: Seq<usize>| self.holds(mem@, s);
        let first: ListLink = self.detach();
        let mut local = crate::lists::stacked::List { head: first };
        assert(crate::chains::headed(m, local.head, s));
        let top: ListLink = local.release(mem);
        proof {
            assert(stamps(mem@) =~= stamps(old(mem)@));
            assert forall|t: Seq<usize>| #[trigger] old(self).holds(old(mem)@, t) implies t
                == s by {
                lemma_unique(m, None, s, t);
            }
        }
        top
    }
}

/// After `release` has drained a list, removing any of its elements changes nothing, whatever has
/// been put on the list since, as long as the element has not been stamped again.
pub proof fn law_drained_elements_are_left_alone(
    before: List,
    drained: Seq<Link>,
    s: Seq<usize>,
    i: int,
    list: List,
    mem: Seq<Link>,
)
    requires
        before.holds(drained, s),
        0 <= i < s.len(),
        list.gen != before.gen,
        mem[s[i] as int].gen == drained[s[i] as int].gen,
    ensures
        list.without(mem, s[i]) == list,
        list.cells_without(mem, s[i]) == cells(mem),
{
}

/// Removing an element twice is the same as removing it once.
pub proof fn law_remove_idempotent(
    list: List,
    mem: Seq<Link>,
    s: Seq<usize>,
    i: int,
    after: Seq<Link>,
)
    requires
        list.holds(mem, s),
        0 <= i < s.len(),
        cells(after) == list.cells_without(mem, s[i]),
        stamps(after) == stamps(mem),
    ensures
        list.without(mem, s[i]).without(after, s[i]) == list.without(mem, s[i]),
        list.without(mem, s[i]).cells_without(after, s[i]) == cells(after),
{
    let m = cells(mem);
    assert(placed(m, None, s, i));
    assert(m.len() == mem.len());
    assert(cells(after).len() == after.len());
    assert(cells(after)[s[i] as int] == unlinked());
    assert(unlinked_at(cells(after), s[i]) =~= cells(after));
}

/// `remove` leaves an element of another generation alone. Of an element of the list's generation it
/// joins the neighbours and clears the fields, and moves an end of the list that stands at it.
pub proof fn law_remove_goes_by_the_stamp(list: List, mem: Seq<Link>, node: usize)
    requires
        sound_links(cells(mem), node),
        mem.len() <= usize::MAX,
    ensures
        ({
            let l = list.without(mem, node);
            let c = list.cells_without(mem, node);
            let link = mem[node as int];
            &&& c.len() == mem.len()
            &&& link.gen != list.gen ==> l == list && c == cells(mem)
            &&& link.gen == list.gen ==> {
                &&& l.gen == list.gen
                &&& l.head == if list.head == Some(node) && link.prev is None {
                    link.next
                } else {
                    list.head
                }
                &&& l.tail == if list.tail == Some(node) && link.next is None {
                    link.prev
                } else {
                    list.tail
                }
                &&& c[node as int].prev is None
                &&& c[node as int].next is None
                &&& forall|b: int|
                    0 <= b < mem.len() && b != node ==> (#[trigger] c[b]).next == if link.prev
                        == Some(b as usize) {
                        link.next
                    } else {
                        mem[b].next
                    }
                &&& forall|b: int|
                    0 <= b < mem.len() && b != node ==> (#[trigger] c[b]).prev == if link.next
                        == Some(b as usize) {
                        link.prev
                    } else {
                        mem[b].prev
                    }
            }
        }),
{
}

/// The stamps are the generation numbers of the elements, address by address, and a list holds elements
/// of its own generation only.
pub proof fn law_elements_bear_the_stamp(list: List, mem: Seq<Link>, s: Seq<usize>)
    requires
        list.holds(mem, s),
    ensures
        stamps(mem).len() == mem.len(),
        forall|a: int| 0 <= a < mem.len() ==> #[trigger] stamps(mem)[a] == mem[a].gen,
        forall|i: int| 0 <= i < s.len() ==> mem[(#[trigger] s[i]) as int].gen == list.gen,
{
}

/// Relinking an element keeps its stamp.
pub proof fn law_relinking_keeps_the_stamp(link: Link, links: ListNode)
    ensures
        link.relinked(links).gen == link.gen,
        link.relinked(links).prev == links.prev,
        link.relinked(links).next == links.next,
{
}

} // verus!
