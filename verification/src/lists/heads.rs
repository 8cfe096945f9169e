//! The elementary operations on rings: a sentinel that is an element of memory like any other, and
//! elements that are put behind one another and taken out again.
use vstd::prelude::*;

use crate::chains::{collect_ring, ring, ring_init, ring_insert_after, ring_remove, sound_links};
use crate::links::{
    bridge, bridged, cells, inserted, lemma_bridge, next_of, same_payload, unlinked, Embeds,
    ListLink, ListNode,
};

verus! {

/// The link fields that an element embeds, or the sentinel of a ring.
#[derive(Clone, Copy, Debug, PartialEq, Eq, Structural)]
pub struct ListHead {
    pub next: ListLink,
    pub prev: ListLink,
}

impl Embeds for ListHead {
    open spec fn links(self) -> ListNode {
        ListNode { prev: self.prev, next: self.next }
    }

    open spec fn relinked(self, links: ListNode) -> Self {
        ListHead { next: links.next, prev: links.prev }
    }

    proof fn relinking(self, a: ListNode, b: ListNode) {
    }

    fn get_links(&self) -> (links: ListNode) {
        ListNode { prev: self.prev, next: self.next }
    }

    fn set_links(&mut self, links: ListNode) {
        self.next = links.next;
        self.prev = links.prev;
    }
}

impl ListHead {
    /// Creates link fields that have yet to be initialised.
    pub fn new() -> (head: ListHead)
        ensures
            head == (ListHead { next: None, prev: None }),
    {
        ListHead { next: None, prev: None }
    }

    /// Makes `head` the sentinel of an empty ring.
    pub fn init<T: Embeds>(mem: &mut Vec<T>, head: usize)
        requires
            head < old(mem).len(),
        ensures
            cells(final(mem)@) == cells(old(mem)@).update(
                head as int,
                (ListNode { prev: Some(head), next: Some(head) }),
            ),
            same_payload(old(mem)@, final(mem)@),
            ring(cells(final(mem)@), head, Seq::empty()),
    {
        ring_init(mem, head);
    }

    /// Whether the ring that `head` holds has no elements.
    pub fn is_empty<T: Embeds>(mem: &Vec<T>, head: usize) -> (empty: bool)
        requires
            head < mem.len(),
        ensures
            empty == (cells(mem@)[head as int].next == Some(head)),
            forall|s: Seq<usize>| #[trigger]
                ring(cells(mem@), head, s) ==> empty == (s.len() == 0),
    {
        next_of(mem, head) == Some(head)
    }

    /// Puts `new` behind `prev`.
    pub fn add_after<T: Embeds>(mem: &mut Vec<T>, prev: usize, new: usize)
        requires
            new < old(mem).len(),
            sound_links(cells(old(mem)@), prev),
        ensures
            cells(final(mem)@) == inserted(
                cells(old(mem)@),
                Some(prev),
                new,
                cells(old(mem)@)[prev as int].next,
            ),
            same_payload(old(mem)@, final(mem)@),
            forall|s: Seq<usize>| #[trigger]
                ring(cells(old(mem)@), prev, s) && !s.contains(new) && new != prev ==> ring(
                    cells(final(mem)@),
                    prev,
                    s.insert(0, new),
                ),
            forall|h: usize, s: Seq<usize>, i: int|
                #![trigger ring(cells(old(mem)@), h, s), s[i]]
                ring(cells(old(mem)@), h, s) && 0 <= i < s.len() && s[i] == prev && !s.contains(new)
                    && new != h ==> ring(cells(final(mem)@), h, s.insert(i + 1, new)),
    {
        ring_insert_after(mem, prev, new);
    }

    /// Puts `new` in front of the ring that `head` holds.
    pub fn add_head<T: Embeds>(mem: &mut Vec<T>, head: usize, new: usize)
        requires
            new < old(mem).len(),
            sound_links(cells(old(mem)@), head),
        ensures
            cells(final(mem)@) == inserted(
                cells(old(mem)@),
                Some(head),
                new,
                cells(old(mem)@)[head as int].next,
            ),
            same_payload(old(mem)@, final(mem)@),
            forall|s: Seq<usize>| #[trigger]
                ring(cells(old(mem)@), head, s) && !s.contains(new) && new != head ==> ring(
                    cells(final(mem)@),
                    head,
                    s.insert(0, new),
                ),
    {
        Self::add_after(mem, head, new);
    }

    /// Takes `entry` out of its ring. Its own link fields stay as they are.
    pub fn delete<T: Embeds>(mem: &mut Vec<T>, entry: usize)
        requires
            sound_links(cells(old(mem)@), entry),
        ensures
            cells(final(mem)@) == bridged(cells(old(mem)@), entry),
            same_payload(old(mem)@, final(mem)@),
            forall|h: usize, s: Seq<usize>, i: int|
                #![trigger ring(cells(old(mem)@), h, s), s[i]]
                ring(cells(old(mem)@), h, s) && 0 <= i < s.len() && s[i] == entry ==> ring(
                    cells(final(mem)@),
                    h,
                    s.remove(i),
                ),
    {
        bridge(mem, entry);
        proof {
            let m = cells(old(mem)@);
            assert forall|h: usize, s: Seq<usize>, i: int|
                #![trigger ring(m, h, s), s[i]]
                ring(m, h, s) && 0 <= i < s.len() && s[i] == entry implies ring(
                cells(mem@),
                h,
                s.remove(i),
            ) by {
                lemma_bridge(m, Some(h), s, i);
            }
        }
    }

    /// Puts `new` in front of the ring that `head` holds.
    pub fn list_add<T: Embeds>(mem: &mut Vec<T>, new: usize, head: usize)
        requires
            new < old(mem).len(),
            sound_links(cells(old(mem)@), head),
        ensures
            cells(final(mem)@) == inserted(
                cells(old(mem)@),
                Some(head),
                new,
                cells(old(mem)@)[head as int].next,
            ),
            same_payload(old(mem)@, final(mem)@),
            forall|s: Seq<usize>| #[trigger]
                ring(cells(old(mem)@), head, s) && !s.contains(new) && new != head ==> ring(
                    cells(final(mem)@),
                    head,
                    s.insert(0, new),
                ),
    {
        ring_insert_after(mem, head, new);
    }

    /// Takes `entry` out of its ring and clears its link fields.
    pub fn list_del<T: Embeds>(mem: &mut Vec<T>, entry: usize)
        requires
            sound_links(cells(old(mem)@), entry),
        ensures
            cells(final(mem)@) == bridged(cells(old(mem)@), entry).update(entry as int, unlinked()),
            same_payload(old(mem)@, final(mem)@),
            forall|h: usize, s: Seq<usize>, i: int|
                #![trigger ring(cells(old(mem)@), h, s), s[i]]
                ring(cells(old(mem)@), h, s) && 0 <= i < s.len() && s[i] == entry ==> ring(
                    cells(final(mem)@),
                    h,
                    s.remove(i),
                ),
    {
        ring_remove(mem, entry, ListNode::new());
    }

    /// Lists the elements of the ring that `head` holds, first element first.
    pub fn for_each<T: Embeds>(mem: &Vec<T>, head: usize) -> (entries: Vec<usize>)
        requires
            exists|s: Seq<usize>| ring(cells(mem@), head, s),
        ensures
            ring(cells(mem@), head, entries@),
            forall|s: Seq<usize>| #[trigger] ring(cells(mem@), head, s) ==> s == entries@,
    {
        collect_ring(mem, head)
    }
}

/// Taking an element out right after it has been put in restores the ring.
pub proof fn law_delete_undoes_add(m: Seq<ListNode>, head: usize, s: Seq<usize>, new: usize)
    requires
        ring(m, head, s),
        new < m.len(),
        new != head,
        !s.contains(new),
    ensures
        ring(
            bridged(inserted(m, Some(head), new, m[head as int].next), new),
            head,
            s,
        ),
{
    crate::links::lemma_insert(m, Some(head), s, 0, new);
    let m1 = inserted(m, Some(head), new, m[head as int].next);
    let t = s.insert(0, new);
    assert(ring(m1, head, t));
    lemma_bridge(m1, Some(head), t, 0);
    assert(t.remove(0) =~= s);
}

/// The link fields of a head are its own, and relinking sets both.
pub proof fn law_relinking_sets_both_fields(x: ListHead, links: ListNode)
    ensures
        x.links().prev == x.prev,
        x.links().next == x.next,
        x.relinked(links).prev == links.prev,
        x.relinked(links).next == links.next,
{
}

} // verus!
