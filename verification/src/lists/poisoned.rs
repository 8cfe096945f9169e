//! A ring that marks every element it lets go of with two addresses that no element has. `remove`
//! knows such an element by them and leaves it alone.
use vstd::prelude::*;

use crate::chains::{ring, ring_init, ring_insert_after, ring_remove, sound_links};
use crate::links::{
    at, bridged, cells, inserted, lemma_same_payload_refl, lemma_same_payload_trans, next_of,
    placed, prev_of, put_links, put_next, put_prev, same_payload, with_next, with_prev, Embeds,
    ListLink, ListNode,
};

verus! {

/// What stands in the `next` field of an element that has been taken out.
pub const LIST_POISON1: usize = usize::MAX;

/// What stands in the `prev` field of an element that has been taken out.
pub const LIST_POISON2: usize = usize::MAX - 1;

/// The link fields of an element that has been taken out.
pub open spec fn poison() -> ListNode {
    ListNode { prev: Some(LIST_POISON2), next: Some(LIST_POISON1) }
}

/// A link field that holds one of the two marks.
pub open spec fn poisoned(link: ListLink) -> bool {
    link == Some(LIST_POISON1) || link == Some(LIST_POISON2)
}

/// `m` after the ring that `list` holds has been moved to the front of the one that `head` holds.
pub open spec fn spliced(m: Seq<ListNode>, list: usize, head: usize) -> Seq<ListNode> {
    let first = m[list as int].next;
    let last = m[list as int].prev;
    let follow = m[head as int].next;
    let m1 = with_prev(m, first, Some(head));
    let m2 = with_next(m1, last, follow);
    let m3 = with_prev(m2, follow, last);
    let m4 = with_next(m3, Some(head), first);
    m4.update(list as int, ListNode { prev: Some(list), next: Some(list) })
}

/// The link fields that an element embeds, or the sentinel of a ring.
#[derive(Clone, Copy, Debug, PartialEq, Eq, Structural)]
pub struct ListHead {
    pub next: ListLink,
    pub prev: ListLink,
}

impl Embeds for ListHead {
    open spec fn links(self) -> ListNode {
        ListNode { prev: self.prev, next: self.next }
    }

    open spec fn relinked(self, links: ListNode) -> Self {
        ListHead { prev: links.prev, next: links.next }
    }

    proof fn relinking(self, a: ListNode, b: ListNode) {
    }

    fn get_links(&self) -> (links: ListNode) {
        ListNode { prev: self.prev, next: self.next }
    }

    fn set_links(&mut self, links: ListNode) {
        self.prev = links.prev;
        self.next = links.next;
    }
}

impl ListHead {
    /// Creates link fields that are not yet part of a ring.
    pub fn uninit() -> (head: ListHead)
        ensures
            head == (ListHead { next: None, prev: None }),
    {
        ListHead { next: None, prev: None }
    }

    /// Makes `head` the sentinel of an empty ring.
    pub fn init<T: Embeds>(mem: &mut Vec<T>, head: usize)
        requires
            head < old(mem).len(),
        ensures
            cells(final(mem)@) == cells(old(mem)@).update(
                head as int,
                (ListNode { prev: Some(head), next: Some(head) }),
            ),
            same_payload(old(mem)@, final(mem)@),
            ring(cells(final(mem)@), head, Seq::empty()),
    {
        ring_init(mem, head);
    }

    /// Whether the ring that `head` holds has no elements.
    pub fn empty<T: Embeds>(mem: &Vec<T>, head: usize) -> (empty: bool)
        requires
            head < mem.len(),
        ensures
            empty == (cells(mem@)[head as int].next == Some(head)),
            forall|s: Seq<usize>| #[trigger]
                ring(cells(mem@), head, s) ==> empty == (s.len() == 0),
    {
        next_of(mem, head) == Some(head)
    }
}

/// Puts `new` behind `head`.
pub fn add<T: Embeds>(mem: &mut Vec<T>, new: usize, head: usize)
    requires
        new < old(mem).len(),
        sound_links(cells(old(mem)@), head),
    ensures
        cells(final(mem)@) == inserted(
            cells(old(mem)@),
            Some(head),
            new,
            cells(old(mem)@)[head as int].next,
        ),
        same_payload(old(mem)@, final(mem)@),
        forall|s: Seq<usize>| #[trigger]
            ring(cells(old(mem)@), head, s) && !s.contains(new) && new != head ==> ring(
                cells(final(mem)@),
                head,
                s.insert(0, new),
            ),
{
    ring_insert_after(mem, head, new);
}

/// Takes `entry` out of its ring and marks it.
pub fn del<T: Embeds>(mem: &mut Vec<T>, entry: usize)
    requires
        sound_links(cells(old(mem)@), entry),
    ensures
        cells(final(mem)@) == bridged(cells(old(mem)@), entry).update(entry as int, poison()),
        same_payload(old(mem)@, final(mem)@),
        forall|h: usize, s: Seq<usize>, i: int|
            #![trigger ring(cells(old(mem)@), h, s), s[i]]
            ring(cells(old(mem)@), h, s) && 0 <= i < s.len() && s[i] == entry ==> ring(
                cells(final(mem)@),
                h,
                s.remove(i),
            ),
{
    ring_remove(mem, entry, ListNode { prev: Some(LIST_POISON2), next: Some(LIST_POISON1) });
}

/// Moves all elements of the ring that `list` holds to the front of the one that `head` holds.
pub fn splice_init<T: Embeds>(mem: &mut Vec<T>, list: usize, head: usize)
    requires
        sound_links(cells(old(mem)@), list),
        sound_links(cells(old(mem)@), head),
    ensures
        cells(final(mem)@) == if cells(old(mem)@)[list as int].next == Some(list) {
            cells(old(mem)@)
        } else {
            spliced(cells(old(mem)@), list, head)
        },
        same_payload(old(mem)@, final(mem)@),
        forall|s: Seq<usize>, t: Seq<usize>|
            #![trigger ring(cells(old(mem)@), list, s), ring(cells(old(mem)@), head, t)]
            ring(cells(old(mem)@), list, s) && ring(cells(old(mem)@), head, t) && disjoint(
                list,
                s,
                head,
                t,
            ) ==> ring(cells(final(mem)@), list, Seq::empty()) && ring(
                cells(final(mem)@),
                head,
                s + t,
            ),
{
    let ghost m = cells(mem@);
    proof {
        lemma_same_payload_refl(mem@);
        assert forall|s: Seq<usize>, t: Seq<usize>|
            #![trigger ring(m, list, s), ring(m, head, t)]
            ring(m, list, s) && ring(m, head, t) && disjoint(list, s, head, t) && s.len()
                == 0 implies s + t == t && s == Seq::<usize>::empty() by {
            assert(s =~= Seq::empty());
            assert(s + t =~= t);
        }
    }
    if !ListHead::empty(mem, list) {
        let first: ListLink = next_of(mem, list);
        let last: ListLink = prev_of(mem, list);
        let follow: ListLink = next_of(mem, head);
        put_prev(mem, first, Some(head));
        let ghost m1 = mem@;
        put_next(mem, last, follow);
        let ghost m2 = mem@;
        put_prev(mem, follow, last);
        let ghost m3 = mem@;
        put_next(mem, Some(head), first);
        let ghost m4 = mem@;
        put_links(mem, list, ListNode { prev: Some(list), next: Some(list) });
        proof {
            lemma_same_payload_trans(old(mem)@, m1, m2);
            lemma_same_payload_trans(old(mem)@, m2, m3);
            lemma_same_payload_trans(old(mem)@, m3, m4);
            lemma_same_payload_trans(old(mem)@, m4, mem@);
            assert forall|s: Seq<usize>, t: Seq<usize>|
                #![trigger ring(m, list, s), ring(m, head, t)]
                ring(m, list, s) && ring(m, head, t) && disjoint(list, s, head, t) implies ring(
                cells(mem@),
                list,
                Seq::empty(),
            ) && ring(cells(mem@), head, s + t) by {
                lemma_splice(m, list, s, head, t);
            }
        }
    }
}

/// Whether a link field holds one of the two marks.
pub fn is_poisoned(p: ListLink) -> (marked: bool)
    ensures
        marked == poisoned(p),
{
    p == Some(LIST_POISON1) || p == Some(LIST_POISON2)
}

/// Two rings that share no cell.
pub open spec fn disjoint(list: usize, s: Seq<usize>, head: usize, t: Seq<usize>) -> bool {
    &&& list != head
    &&& !s.contains(head)
    &&& !t.contains(list)
    &&& forall|i: int, j: int|
        0 <= i < s.len() && 0 <= j < t.len() ==> #[trigger] s[i] != #[trigger] t[j]
}

proof fn lemma_splice(
    m: Seq<ListNode>,
    list: usize,
    s: Seq<usize>,
    head: usize,
    t: Seq<usize>,
)
    requires
        ring(m, list, s),
        ring(m, head, t),
        disjoint(list, s, head, t),
        s.len() > 0,
    ensures
        ring(spliced(m, list, head), list, Seq::empty()),
        ring(spliced(m, list, head), head, s + t),
{
    let c = spliced(m, list, head);
    let u = s + t;
    let ls = s.len() - 1;
    assert(placed(m, Some(list), s, 0) && placed(m, Some(list), s, ls));
    assert(s[0] < m.len() && s[ls] < m.len());
    assert(s[0] != head && s[ls] != head) by {
        assert(s.contains(s[0]) && s.contains(s[ls]));
    }
    if t.len() > 0 {
        assert(placed(m, Some(head), t, 0));
        assert(t[0] < m.len() && t[0] != head);
        assert(t[0] != list) by {
            assert(t.contains(t[0]));
        }
        assert(t[0] != s[0] && t[0] != s[ls]);
    }
    assert(c.len() == m.len());
    assert forall|i: int| 0 <= i < u.len() implies (#[trigger] u[i]) < c.len() && Some(head)
        != Some(u[i]) by {
        if i < s.len() {
            assert(u[i] == s[i] && s.contains(s[i]));
        } else {
            assert(u[i] == t[i - s.len()]);
        }
    }
    assert forall|i: int, j: int| 0 <= i < j < u.len() implies u[i] != u[j] by {
        if j >= s.len() && i < s.len() {
            assert(u[i] == s[i] && u[j] == t[j - s.len()]);
        } else if i >= s.len() {
            assert(u[i] == t[i - s.len()] && u[j] == t[j - s.len()]);
        }
    }
    assert(u.no_duplicates());
    assert(c[head as int].next == Some(s[0]));
    assert(c[head as int].prev == at(u, Some(head), u.len() - 1));
    assert forall|i: int| 0 <= i < u.len() implies #[trigger] placed(c, Some(head), u, i) by {
        if i < s.len() {
            assert(u[i] == s[i]);
            assert(placed(m, Some(list), s, i));
            assert(s[i] != list && s[i] != head) by {
                assert(s.contains(s[i]));
            }
            if i > 0 {
                assert(s[i] != s[0]);
                assert(u[i - 1] == s[i - 1]);
            }
            if i < ls {
                assert(s[i] != s[ls]);
                assert(u[i + 1] == s[i + 1]);
            } else if t.len() > 0 {
                assert(u[i + 1] == t[0]);
            }
            if t.len() > 0 {
                assert(s[i] != t[0]);
            }
        } else {
            let j = i - s.len();
            assert(u[i] == t[j]);
            assert(placed(m, Some(head), t, j));
            assert(t[j] != list) by {
                assert(t.contains(t[j]));
            }
            assert(t[j] != s[0] && t[j] != s[ls]);
            if j > 0 {
                assert(t[j] != t[0]);
                assert(u[i - 1] == t[j - 1]);
            } else {
                assert(u[i - 1] == s[ls]);
            }
            if j + 1 < t.len() {
                assert(u[i + 1] == t[j + 1]);
            }
        }
    }
}

/// A ring of elements that live in a memory the caller owns. The sentinel is one of its cells.
pub struct ThreadSafeIntrusiveList {
    pub head: usize,
}

impl ThreadSafeIntrusiveList {
    /// The list holds the elements `s`, first element first.
    #[verifier::inline]
    pub open spec fn holds(self, m: Seq<ListNode>, s: Seq<usize>) -> bool {
        ring(m, self.head, s)
    }

    /// The link fields after `remove`.
    pub open spec fn removed(self, m: Seq<ListNode>, entry: usize) -> Seq<ListNode> {
        if poisoned(m[entry as int].next) || poisoned(m[entry as int].prev) {
            m
        } else {
            bridged(m, entry).update(entry as int, poison())
        }
    }

    /// Creates an empty list. Its sentinel is put at the end of the memory.
    pub fn new(mem: &mut Vec<ListHead>) -> (list: ThreadSafeIntrusiveList)
        ensures
            list.head == old(mem).len(),
            final(mem)@ == old(mem)@.push(ListHead { next: Some(list.head), prev: Some(list.head) }),
            list.holds(cells(final(mem)@), Seq::empty()),
    {
        let head: usize = mem.len();
        mem.push(ListHead::uninit());
        let ghost m1 = mem@;
        ListHead::init(mem, head);
        proof {
            assert forall|a: int| 0 <= a < mem.len() implies #[trigger] mem@[a] == old(mem)@.push(
                ListHead { next: Some(head), prev: Some(head) },
            )[a] by {
                assert(cells(mem@)[a] == cells(m1).update(
                    head as int,
                    ListNode { prev: Some(head), next: Some(head) },
                )[a]);
            }
        }
        ThreadSafeIntrusiveList { head }
    }

    /// Puts an element in front of the list.
    pub fn insert<T: Embeds>(&self, mem: &mut Vec<T>, new: usize)
        requires
            new < old(mem).len(),
            sound_links(cells(old(mem)@), self.head),
        ensures
            cells(final(mem)@) == inserted(
                cells(old(mem)@),
                Some(self.head),
                new,
                cells(old(mem)@)[self.head as int].next,
            ),
            same_payload(old(mem)@, final(mem)@),
            forall|s: Seq<usize>| #[trigger]
                self.holds(cells(old(mem)@), s) && !s.contains(new) && new != self.head
                    ==> self.holds(cells(final(mem)@), s.insert(0, new)),
    {
        self::add(mem, new, self.head);
    }

    /// Removes an element from its ring, unless it carries the mark of one that has already been
    /// taken out. An element takes more than a byte, so that none lies at the two marks themselves.
    pub fn remove<T: Embeds>(&self, mem: &mut Vec<T>, entry: usize)
        requires
            entry < old(mem).len(),
            old(mem).len() < usize::MAX,
            poisoned(cells(old(mem)@)[entry as int].next) || poisoned(
                cells(old(mem)@)[entry as int].prev,
            ) || sound_links(cells(old(mem)@), entry),
        ensures
            cells(final(mem)@) == self.removed(cells(old(mem)@), entry),
            same_payload(old(mem)@, final(mem)@),
            forall|s: Seq<usize>, i: int|
                #![trigger self.holds(cells(old(mem)@), s), s[i]]
                self.holds(cells(old(mem)@), s) && 0 <= i < s.len() && s[i] == entry
                    ==> self.holds(cells(final(mem)@), s.remove(i)),
    {
        let ghost m = cells(mem@);
        proof {
            lemma_same_payload_refl(mem@);
            assert forall|s: Seq<usize>, i: int|
                #![trigger ring(m, self.head, s), s[i]]
                ring(m, self.head, s) && 0 <= i < s.len() && s[i] == entry implies !poisoned(
                m[entry as int].next,
            ) && !poisoned(m[entry as int].prev) by {
                assert(placed(m, Some(self.head), s, i));
                assert(m.len() == mem.len());
            }
        }
        if is_poisoned(next_of(mem, entry)) || is_poisoned(prev_of(mem, entry)) {
            return;
        }
        del(mem, entry);
    }

    /// Empties the list, marks all its elements and hands them out, first element first, for
    /// clean-up.
    pub fn release<T: Embeds>(&self, mem: &mut Vec<T>) -> (items: Vec<usize>)
        requires
            exists|s: Seq<usize>| self.holds(cells(old(mem)@), s),
        ensures
            self.holds(cells(old(mem)@), items@),
            self.holds(cells(final(mem)@), Seq::empty()),
            forall|a: int|
                0 <= a < old(mem).len() ==> #[trigger] cells(final(mem)@)[a] == if items@.contains(
                    a as usize,
                ) {
                    poison()
                } else if a == self.head {
                    ListNode { prev: Some(self.head), next: Some(self.head) }
                } else {
                    cells(old(mem)@)[a]
                },
            same_payload(old(mem)@, final(mem)@),
    {
        let ghost m = cells(mem@);
        let ghost s = choose|s: Seq<usize>| ring(m, self.head, s);
        let mut items: Vec<usize> = Vec::new();
        proof {
            lemma_same_payload_refl(mem@);
            assert(s.skip(0) =~= s);
            assert(items@ =~= s.take(0));
        }
        while !ListHead::empty(mem, self.head)
            invariant
                m == cells(old(mem)@),
                ring(m, self.head, s),
                items.len() <= s.len(),
                items@ == s.take(items.len() as int),
                ring(cells(mem@), self.head, s.skip(items.len() as int)),
                same_payload(old(mem)@, mem@),
                forall|j: int|
                    0 <= j < items.len() ==> #[trigger] cells(mem@)[s[j] as int] == poison(),
                forall|a: int|
                    0 <= a < m.len() && !s.contains(a as usize) && a != self.head
                        ==> #[trigger] cells(mem@)[a] == m[a],
            decreases s.len() - items.len(),
        {
            let ghost k = items.len() as int;
            let ghost before = mem@;
            let ghost rest = s.skip(k);
            proof {
                assert(rest.len() > 0);
                assert(rest[0] == s[k]);
                assert(placed(cells(mem@), Some(self.head), rest, 0));
                lemma_del_frame(cells(mem@), self.head, rest);
                assert(rest.remove(0) =~= s.skip(k + 1));
            }
            let entry: usize = next_of(mem, self.head).unwrap();
            del(mem, entry);
            items.push(entry);
            proof {
                lemma_same_payload_trans(old(mem)@, before, mem@);
                assert(items@ =~= s.take(k + 1));
                assert forall|j: int| 0 <= j < items.len() implies #[trigger] cells(
                    mem@,
                )[s[j] as int] == poison() by {
                    if j < k {
                        assert(cells(before)[s[j] as int] == poison());
                        assert(!rest.contains(s[j])) by {
                            if rest.contains(s[j]) {
                                let q = rest.index_of(s[j]);
                                assert(s[k + q] == s[j]);
                            }
                        }
                        assert(s[j] != self.head);
                    }
                }
                assert forall|a: int|
                    0 <= a < m.len() && !s.contains(a as usize) && a
                        != self.head implies #[trigger] cells(mem@)[a] == m[a] by {
                    assert(!rest.contains(a as usize)) by {
                        if rest.contains(a as usize) {
                            let q = rest.index_of(a as usize);
                            assert(s[k + q] == a as usize);
                        }
                    }
                }
            }
        }
        proof {
            assert(items@ =~= s);
            assert(s.skip(s.len() as int) =~= Seq::empty());
            assert(m.len() == mem.len());
            assert forall|a: int| 0 <= a < m.len() && s.contains(a as usize) implies #[trigger] cells(
                mem@,
            )[a] == poison() by {
                let j = s.index_of(a as usize);
                assert(s[j] == a);
            }
        }
        items
    }

    /// Whether the list has no elements.
    pub fn is_empty<T: Embeds>(&self, mem: &Vec<T>) -> (empty: bool)
        requires
            self.head < mem.len(),
        ensures
            empty == (cells(mem@)[self.head as int].next == Some(self.head)),
            forall|s: Seq<usize>| #[trigger]
                self.holds(cells(mem@), s) ==> empty == (s.len() == 0),
    {
        ListHead::empty(mem, self.head)
    }
}

/// Taking out the first element of a ring writes to elements of the ring and the sentinel only.
proof fn lemma_del_frame(m: Seq<ListNode>, head: usize, s: Seq<usize>)
    requires
        ring(m, head, s),
        s.len() > 0,
    ensures
        ({
            let c = bridged(m, s[0]).update(s[0] as int, poison());
            &&& sound_links(m, s[0])
            &&& c[s[0] as int] == poison()
            &&& forall|a: int|
                0 <= a < m.len() && !s.contains(a as usize) && a != head && m.len() <= usize::MAX
                    ==> #[trigger] c[a] == m[a]
        }),
{
    assert(placed(m, Some(head), s, 0));
    let c = bridged(m, s[0]).update(s[0] as int, poison());
    assert forall|a: int|
        0 <= a < m.len() && !s.contains(a as usize) && a != head && m.len()
            <= usize::MAX implies #[trigger] c[a] == m[a] by {
        assert(a as usize != s[0]);
        if s.len() > 1 {
            assert(a as usize != s[1]);
        }
    }
}

/// An element that has been removed or drained carries the mark, and removing it again changes
/// nothing.
pub proof fn law_taken_elements_are_left_alone(
    list: ThreadSafeIntrusiveList,
    m: Seq<ListNode>,
    entry: usize,
)
    requires
        m[entry as int] == poison(),
    ensures
        list.removed(m, entry) == m,
{
}

/// Removing an element twice is the same as removing it once.
pub proof fn law_remove_idempotent(
    list: ThreadSafeIntrusiveList,
    m: Seq<ListNode>,
    s: Seq<usize>,
    i: int,
)
    requires
        list.holds(m, s),
        0 <= i < s.len(),
    ensures
        list.removed(list.removed(m, s[i]), s[i]) == list.removed(m, s[i]),
{
    assert(placed(m, Some(list.head), s, i));
}

/// A marked link is one of two distinct addresses, the two largest there are.
pub proof fn law_marks_are_no_addresses(link: ListLink)
    ensures
        poisoned(link) <==> link == Some(usize::MAX) || link == Some((usize::MAX - 1) as usize),
        poison().next == Some(usize::MAX),
        poison().prev == Some((usize::MAX - 1) as usize),
{
}

/// `remove` leaves an element alone of which a field is marked. Of any other it joins the neighbours and
/// marks both fields, and changes nothing else.
pub proof fn law_remove_goes_by_the_mark(
    list: ThreadSafeIntrusiveList,
    m: Seq<ListNode>,
    node: usize,
)
    requires
        node < m.len(),
        m.len() < usize::MAX,
    ensures
        poisoned(m[node as int].next) || poisoned(m[node as int].prev) ==> list.removed(m, node) == m,
        !poisoned(m[node as int].next) && !poisoned(m[node as int].prev) && sound_links(m, node) ==> {
            let c = list.removed(m, node);
            let links = m[node as int];
            &&& c.len() == m.len()
            &&& c[node as int].next == Some(LIST_POISON1)
            &&& c[node as int].prev == Some(LIST_POISON2)
            &&& forall|b: int|
                0 <= b < m.len() && b != node ==> (#[trigger] c[b]).next == if links.prev == Some(
                    b as usize,
                ) {
                    links.next
                } else {
                    m[b].next
                }
            &&& forall|b: int|
                0 <= b < m.len() && b != node ==> (#[trigger] c[b]).prev == if links.next == Some(
                    b as usize,
                ) {
                    links.prev
                } else {
                    m[b].prev
                }
        },
{
}

/// Splicing a ring that is not empty into another empties the first, and puts all its elements, in
/// order, before those of the second.
pub proof fn law_splice_moves_everything(
    m: Seq<ListNode>,
    list: usize,
    s: Seq<usize>,
    head: usize,
    t: Seq<usize>,
)
    requires
        ring(m, list, s),
        ring(m, head, t),
        s.len() > 0,
        list != head,
        !s.contains(head),
        !t.contains(list),
        forall|i: int, j: int|
            0 <= i < s.len() && 0 <= j < t.len() ==> #[trigger] s[i] != #[trigger] t[j],
    ensures
        ring(spliced(m, list, head), list, Seq::empty()),
        ring(spliced(m, list, head), head, s + t),
        spliced(m, list, head).len() == m.len(),
        forall|a: usize|
            a < m.len() && a != list && a != head && !s.contains(a) && !t.contains(a)
                ==> #[trigger] spliced(m, list, head)[a as int] == m[a as int],
{
    lemma_splice(m, list, s, head, t);
    let first = s[0];
    let last = s[s.len() - 1];
    assert(m[list as int].next == Some(first) && m[list as int].prev == Some(last));
    assert(s.contains(first) && s.contains(last));
    if t.len() > 0 {
        assert(m[head as int].next == Some(t[0]));
        assert(t.contains(t[0]));
    } else {
        assert(m[head as int].next == Some(head));
    }
}

/// The link fields of a head are its own, and relinking sets both.
pub proof fn law_relinking_sets_both_fields(x: ListHead, links: ListNode)
    ensures
        x.links().prev == x.prev,
        x.links().next == x.next,
        x.relinked(links).prev == links.prev,
        x.relinked(links).next == links.next,
{
}

} // verus!
