//! A list that finds out whether an element is on it by walking back to the first element.
use vstd::prelude::*;

use crate::chains::{push_first, push_last, sound_links, spanned, unlink_span, unlinked_at};
use crate::links::{
    at, cells, inserted, lemma_same_payload_refl, linked, placed, prev_of, put_links, same_payload,
    unlinked, valid, Embeds, ListLink, ListNode,
};

verus! {

/// The link fields that an element embeds.
pub type Link = ListNode;

/// How many steps back `remove` walks before it takes the element for one on a cycle.
pub const MAX_WALK_STEPS: usize = 1048576;

/// The element without a predecessor that is reached from `cur` by following `prev`, if that takes
/// fewer than `fuel` steps.
pub open spec fn root(m: Seq<ListNode>, cur: usize, fuel: nat) -> ListLink
    decreases fuel,
{
    if fuel == 0 {
        None
    } else {
        match m[cur as int].prev {
            Some(p) => root(m, p, (fuel - 1) as nat),
            None => Some(cur),
        }
    }
}

/// Following `prev` from `cur` for up to `fuel` steps stays within memory.
pub open spec fn walkable(m: Seq<ListNode>, cur: usize, fuel: nat) -> bool
    decreases fuel,
{
    &&& cur < m.len()
    &&& fuel == 0 || (m[cur as int].prev matches Some(p) ==> walkable(m, p, (fuel - 1) as nat))
}

/// A list of elements that live in a memory the caller owns.
pub struct IntrusiveList {
    pub head: ListLink,
    pub tail: ListLink,
}

impl IntrusiveList {
    /// The list holds the elements `s`, first element first.
    #[verifier::inline]
    pub open spec fn holds(self, m: Seq<ListNode>, s: Seq<usize>) -> bool {
        spanned(m, self.head, self.tail, s)
    }

    /// Walking back from `link` ends at the first element of the list soon enough.
    pub open spec fn reaches(self, m: Seq<ListNode>, link: usize) -> bool {
        self.head is Some && root(m, link, MAX_WALK_STEPS as nat) == self.head
    }

    /// The list and the link fields after `remove`.
    pub open spec fn removed(self, m: Seq<ListNode>, link: ListLink) -> (
        IntrusiveList,
        Seq<ListNode>,
    ) {
        match link {
            Some(a) if self.reaches(m, a) => (
                IntrusiveList {
                    head: if m[a as int].prev is None {
                        m[a as int].next
                    } else {
                        self.head
                    },
                    tail: if m[a as int].next is None {
                        m[a as int].prev
                    } else {
                        self.tail
                    },
                },
                unlinked_at(m, a),
            ),
            _ => (self, m),
        }
    }

    /// Creates an empty list.
    pub fn new() -> (list: IntrusiveList)
        ensures
            list == (IntrusiveList { head: None, tail: None }),
            forall|m: Seq<ListNode>| #[trigger] list.holds(m, Seq::empty()),
    {
        IntrusiveList { head: None, tail: None }
    }

    /// Clears the link fields of an element before its first use. Null is ignored.
    pub fn link_init<T: Embeds>(mem: &mut Vec<T>, link: ListLink)
        requires
            valid(cells(old(mem)@), link),
        ensures
            link is None ==> final(mem)@ == old(mem)@,
            link matches Some(a) ==> cells(final(mem)@) == cells(old(mem)@).update(
                a as int,
                unlinked(),
            ),
            same_payload(old(mem)@, final(mem)@),
    {
        proof {
            lemma_same_payload_refl(mem@);
        }
        if let Some(a) = link {
            put_links(mem, a, ListNode::new());
        }
    }

    /// Puts an element in front of the list. Null is ignored.
    pub fn push_front<T: Embeds>(&mut self, mem: &mut Vec<T>, link: ListLink)
        requires
            valid(cells(old(mem)@), link),
            valid(cells(old(mem)@), old(self).head),
        ensures
            link is None ==> *final(self) == *old(self) && final(mem)@ == old(mem)@,
            link matches Some(a) ==> {
                &&& final(self).head == link
                &&& final(self).tail == if old(self).head is None {
                    link
                } else {
                    old(self).tail
                }
                &&& cells(final(mem)@) == inserted(cells(old(mem)@), None, a, old(self).head)
                &&& forall|s: Seq<usize>| #[trigger]
                    old(self).holds(cells(old(mem)@), s) && !s.contains(a) ==> final(self).holds(
                        cells(final(mem)@),
                        s.insert(0, a),
                    )
            },
            same_payload(old(mem)@, final(mem)@),
    {
        proof {
            lemma_same_payload_refl(mem@);
        }
        if let Some(a) = link {
            push_first(mem, &mut self.head, &mut self.tail, a);
        }
    }

    /// Puts an element at the end of the list. Null is ignored.
    pub fn push_back<T: Embeds>(&mut self, mem: &mut Vec<T>, link: ListLink)
        requires
            valid(cells(old(mem)@), link),
            valid(cells(old(mem)@), old(self).tail),
        ensures
            link is None ==> *final(self) == *old(self) && final(mem)@ == old(mem)@,
            link matches Some(a) ==> {
                &&& final(self).tail == link
                &&& final(self).head == if old(self).tail is None {
                    link
                } else {
                    old(self).head
                }
                &&& cells(final(mem)@) == inserted(cells(old(mem)@), old(self).tail, a, None)
                &&& forall|s: Seq<usize>| #[trigger]
                    old(self).holds(cells(old(mem)@), s) && !s.contains(a) ==> final(self).holds(
                        cells(final(mem)@),
                        s.push(a),
                    )
            },
            same_payload(old(mem)@, final(mem)@),
    {
        proof {
            lemma_same_payload_refl(mem@);
        }
        if let Some(a) = link {
            push_last(mem, &mut self.head, &mut self.tail, a);
        }
    }

    /// Removes an element if it is on the list, fewer than `MAX_WALK_STEPS` steps behind the first
    /// element. Elements of other lists, drained elements and null are left alone.
    pub fn remove<T: Embeds>(&mut self, mem: &mut Vec<T>, link: ListLink)
        requires
            link matches Some(a) ==> sound_links(cells(old(mem)@), a) && walkable(
                cells(old(mem)@),
                a,
                MAX_WALK_STEPS as nat,
            ),
        ensures
            (*final(self), cells(final(mem)@)) == old(self).removed(cells(old(mem)@), link),
            same_payload(old(mem)@, final(mem)@),
            forall|s: Seq<usize>, i: int|
                #![trigger old(self).holds(cells(old(mem)@), s), s[i]]
                old(self).holds(cells(old(mem)@), s) && 0 <= i < s.len() && Some(s[i]) == link
                    && i < MAX_WALK_STEPS ==> final(self).holds(
                    cells(final(mem)@),
                    s.remove(i),
                ),
    {
        proof {
            lemma_same_payload_refl(mem@);
        }
        if let Some(a) = link {
            let ghost m = cells(mem@);
            proof {
                assert forall|s: Seq<usize>, i: int|
                    #![trigger spanned(m, self.head, self.tail, s), s[i]]
                    spanned(m, self.head, self.tail, s) && 0 <= i < s.len() && s[i] == a && i
                        < MAX_WALK_STEPS implies self.reaches(m, a) by {
                    lemma_member_root(m, s, i, MAX_WALK_STEPS as nat);
                }
            }
            if self.head.is_none() {
                return;
            }
            let mut cur: usize = a;
            let mut steps: usize = 0;
            let mut above: ListLink = prev_of(mem, a);
            while steps < MAX_WALK_STEPS && above.is_some()
                invariant
                    m == cells(mem@),
                    steps <= MAX_WALK_STEPS,
                    walkable(m, cur, (MAX_WALK_STEPS - steps) as nat),
                    above == m[cur as int].prev,
                    root(m, a, MAX_WALK_STEPS as nat) == root(
                        m,
                        cur,
                        (MAX_WALK_STEPS - steps) as nat,
                    ),
                decreases MAX_WALK_STEPS - steps,
            {
                cur = above.unwrap();
                steps = steps + 1;
                assert(walkable(m, cur, (MAX_WALK_STEPS - steps) as nat));
                above = prev_of(mem, cur);
            }
            if steps == MAX_WALK_STEPS {
                return;
            }
            if self.head != Some(cur) {
                return;
            }
            unlink_span(mem, &mut self.head, &mut self.tail, a);
        }
    }

    /// Empties the list and hands out its former last element. The elements stay linked to each
    /// other and can be popped by following `prev`.
    pub fn release(&mut self) -> (top: ListLink)
        ensures
            *final(self) == (IntrusiveList { head: None, tail: None }),
            top == old(self).tail,
            forall|m: Seq<ListNode>, s: Seq<usize>| #[trigger]
                old(self).holds(m, s) ==> top == at(s, None, s.len() - 1),
    {
        let top: ListLink = self.tail;
        self.head = None;
        self.tail = None;
        top
    }
}

/// Walking back from the element at position `i` of a list takes `i` steps to the first element.
proof fn lemma_member_root(m: Seq<ListNode>, s: Seq<usize>, i: int, fuel: nat)
    requires
        linked(m, None, s),
        0 <= i < s.len(),
    ensures
        root(m, s[i], fuel) == if i < fuel {
            Some(s[0])
        } else {
            None
        },
    decreases i,
{
    assert(placed(m, None, s, i));
    if i > 0 && fuel > 0 {
        lemma_member_root(m, s, i - 1, (fuel - 1) as nat);
    }
}

/// The elements of any list can be walked back, so `remove` accepts them.
pub proof fn lemma_member_walkable(m: Seq<ListNode>, s: Seq<usize>, i: int, fuel: nat)
    requires
        linked(m, None, s),
        0 <= i < s.len(),
    ensures
        walkable(m, s[i], fuel),
        sound_links(m, s[i]),
    decreases i,
{
    assert(placed(m, None, s, i));
    if i > 0 && fuel > 0 {
        lemma_member_walkable(m, s, i - 1, (fuel - 1) as nat);
    }
}

/// Removing an element of one list from another list changes nothing. A list that `release` has
/// drained counts as another list, whatever has been put on the drained one since.
pub proof fn law_elements_of_other_lists_are_left_alone(
    list: IntrusiveList,
    m: Seq<ListNode>,
    t: Seq<usize>,
    other: Seq<usize>,
    i: int,
)
    requires
        list.holds(m, t),
        linked(m, None, other),
        0 <= i < other.len(),
        !t.contains(other[0]),
    ensures
        list.removed(m, Some(other[i])) == (list, m),
{
    lemma_member_root(m, other, i, MAX_WALK_STEPS as nat);
}

/// An element too far behind the first one stays where it is.
pub proof fn law_distant_elements_stay(
    list: IntrusiveList,
    m: Seq<ListNode>,
    s: Seq<usize>,
    i: int,
)
    requires
        list.holds(m, s),
        MAX_WALK_STEPS <= i < s.len(),
    ensures
        list.removed(m, Some(s[i])) == (list, m),
{
    lemma_member_root(m, s, i, MAX_WALK_STEPS as nat);
}

/// Removing an element twice is the same as removing it once.
pub proof fn law_remove_idempotent(list: IntrusiveList, m: Seq<ListNode>, s: Seq<usize>, i: int)
    requires
        list.holds(m, s),
        0 <= i < s.len(),
    ensures
        ({
            let (l1, m1) = list.removed(m, Some(s[i]));
            l1.removed(m1, Some(s[i])) == (l1, m1)
        }),
{
    lemma_member_root(m, s, i, MAX_WALK_STEPS as nat);
    assert(placed(m, None, s, i));
    if i < MAX_WALK_STEPS {
        let (l1, m1) = list.removed(m, Some(s[i]));
        assert(m1[s[i] as int] == unlinked());
        assert(root(m1, s[i], MAX_WALK_STEPS as nat) == Some(s[i]));
        if i == 0 && s.len() > 1 {
            assert(s[0] != s[1]);
        }
    }
}

/// `remove` takes an element out exactly where walking back from it comes to the first element of the
/// list, and changes nothing elsewhere.
pub proof fn law_remove_goes_by_the_walk(list: IntrusiveList, m: Seq<ListNode>, node: usize)
    requires
        sound_links(m, node),
        m.len() <= usize::MAX,
    ensures
        ({
            let (l, c) = list.removed(m, Some(node));
            let links = m[node as int];
            let taken = list.head is Some && root(m, node, MAX_WALK_STEPS as nat) == list.head;
            &&& c.len() == m.len()
            &&& !taken ==> l == list && c == m
            &&& taken ==> {
                &&& l.head == if links.prev is None {
                    links.next
                } else {
                    list.head
                }
                &&& l.tail == if links.next is None {
                    links.prev
                } else {
                    list.tail
                }
                &&& c[node as int].prev is None
                &&& c[node as int].next is None
                &&& forall|b: int|
                    0 <= b < m.len() && b != node ==> (#[trigger] c[b]).next == if links.prev
                        == Some(b as usize) {
                        links.next
                    } else {
                        m[b].next
                    }
                &&& forall|b: int|
                    0 <= b < m.len() && b != node ==> (#[trigger] c[b]).prev == if links.next
                        == Some(b as usize) {
                        links.prev
                    } else {
                        m[b].prev
                    }
            }
        }),
{
}

/// A walk that has steps left ends at an element that names none before it, and goes on from any other
/// to the one that it names. Without steps it comes to no end.
pub proof fn law_walk_goes_back(m: Seq<ListNode>, cur: usize, fuel: nat)
    ensures
        root(m, cur, 0) is None,
        fuel > 0 && m[cur as int].prev is None ==> root(m, cur, fuel) == Some(cur),
        fuel > 0 && m[cur as int].prev is Some ==> root(m, cur, fuel) == root(
            m,
            m[cur as int].prev->0,
            (fuel - 1) as nat,
        ),
        root(m, cur, fuel) matches Some(a) ==> m[a as int].prev is None,
    decreases fuel,
{
    if fuel > 0 {
        if let Some(p) = m[cur as int].prev {
            law_walk_goes_back(m, p, (fuel - 1) as nat);
        }
    }
}

/// From the element at a position of a list the walk comes to the first one exactly if it has more
/// steps than elements stand before it.
pub proof fn law_walk_finds_the_first(m: Seq<ListNode>, s: Seq<usize>, i: int, fuel: nat)
    requires
        linked(m, None, s),
        0 <= i < s.len(),
    ensures
        i < fuel ==> root(m, s[i], fuel) == Some(s[0]),
        i >= fuel ==> root(m, s[i], fuel) is None,
        walkable(m, s[i], fuel),
{
    lemma_member_root(m, s, i, fuel);
    lemma_member_walkable(m, s, i, fuel);
}

/// Nothing is removed where no element is given.
pub proof fn law_no_element_no_change(list: IntrusiveList, m: Seq<ListNode>)
    ensures
        list.removed(m, None) == (list, m),
{
}

/// An element with fewer than 1048576 others before it is always taken out of its list.
pub proof fn law_near_elements_are_removed(
    list: IntrusiveList,
    m: Seq<ListNode>,
    s: Seq<usize>,
    i: int,
)
    requires
        list.holds(m, s),
        0 <= i < s.len(),
        i < 1048576,
    ensures
        list.reaches(m, s[i]),
        list.removed(m, Some(s[i])).1[s[i] as int].prev is None,
        list.removed(m, Some(s[i])).1[s[i] as int].next is None,
{
    lemma_member_root(m, s, i, MAX_WALK_STEPS as nat);
    lemma_member_walkable(m, s, i, MAX_WALK_STEPS as nat);
}

} // verus!
