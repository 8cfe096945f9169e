//! A list that drains into a stack: the `next` fields of the drained elements are turned round and
//! their `prev` fields cleared, so that no two of them agree to be neighbours any more.
use vstd::prelude::*;

use crate::chains::{chain, collect, headed, hop, push_head, sound_links, unlink_head, unlinked_at};
use crate::links::{
    at, cells, insert_between, inserted, lemma_insert, lemma_same_payload_refl,
    lemma_same_payload_trans, linked, next_of, placed, prev_of, put_links, put_prev, same_payload,
    unlinked, valid, with_prev, Embeds, ListLink, ListNode,
};

verus! {

/// The link fields that an element embeds.
pub type Node = ListNode;

/// A list of elements that live in a memory the caller owns.
pub struct List {
    pub head: ListLink,
}

/// `m` with the elements of `s` turned into a stack whose top is the last of them.
pub open spec fn stacked(m: Seq<ListNode>, s: Seq<usize>) -> Seq<ListNode> {
    Seq::new(
        m.len(),
        |a: int|
            if s.contains(a as usize) {
                ListNode { prev: None, next: at(s, None, s.index_of(a as usize) - 1) }
            } else {
                m[a]
            },
    )
}

impl List {
    /// The list holds the elements `s`, first element first.
    #[verifier::inline]
    pub open spec fn holds(self, m: Seq<ListNode>, s: Seq<usize>) -> bool {
        headed(m, self.head, s)
    }

    /// The neighbours of `node`, where it has any, point back to it, and an element without a
    /// predecessor is the first of the list.
    pub open spec fn vouches_for(self, m: Seq<ListNode>, node: usize) -> bool {
        &&& match m[node as int].prev {
            Some(p) => m[p as int].next == Some(node),
            None => self.head == Some(node),
        }
        &&& m[node as int].next matches Some(n) ==> m[n as int].prev == Some(node)
    }

    /// The list and the link fields after `remove`.
    pub open spec fn removed(self, m: Seq<ListNode>, node: ListLink) -> (List, Seq<ListNode>) {
        match node {
            Some(a) if self.vouches_for(m, a) => (
                List {
                    head: if m[a as int].prev is None {
                        m[a as int].next
                    } else {
                        self.head
                    },
                },
                unlinked_at(m, a),
            ),
            _ => (self, m),
        }
    }

    /// Creates an empty list.
    pub fn new() -> (list: List)
        ensures
            list.head is None,
            forall|m: Seq<ListNode>| #[trigger] list.holds(m, Seq::empty()),
    {
        List { head: None }
    }

    /// Whether the list has no elements.
    pub fn is_empty(&self) -> (empty: bool)
        ensures
            empty == (self.head is None),
            forall|m: Seq<ListNode>, s: Seq<usize>| #[trigger]
                self.holds(m, s) ==> empty == (s.len() == 0),
    {
        self.head.is_none()
    }

    /// Puts an element in front of the list. Null is ignored.
    pub fn push_front<T: Embeds>(&mut self, mem: &mut Vec<T>, node: ListLink)
        requires
            valid(cells(old(mem)@), node),
            valid(cells(old(mem)@), old(self).head),
        ensures
            node is None ==> *final(self) == *old(self) && final(mem)@ == old(mem)@,
            node matches Some(a) ==> {
                &&& final(self).head == node
                &&& cells(final(mem)@) == inserted(cells(old(mem)@), None, a, old(self).head)
                &&& forall|s: Seq<usize>| #[trigger]
                    old(self).holds(cells(old(mem)@), s) && !s.contains(a) ==> final(self).holds(
                        cells(final(mem)@),
                        s.insert(0, a),
                    )
            },
            same_payload(old(mem)@, final(mem)@),
    {
        proof {
            lemma_same_payload_refl(mem@);
        }
        if let Some(a) = node {
            push_head(mem, &mut self.head, a);
        }
    }

    /// Puts an element behind another one. Where either is null nothing happens.
    pub fn insert_after<T: Embeds>(
        &mut self,
        mem: &mut Vec<T>,
        prev_node: ListLink,
        node: ListLink,
    )
        requires
            valid(cells(old(mem)@), node),
            prev_node matches Some(p) ==> p < old(mem).len() && valid(
                cells(old(mem)@),
                cells(old(mem)@)[p as int].next,
            ),
        ensures
            *final(self) == *old(self),
            node is None || prev_node is None ==> final(mem)@ == old(mem)@,
            node is Some && prev_node is Some ==> {
                let p = prev_node->0;
                let a = node->0;
                &&& cells(final(mem)@) == inserted(
                    cells(old(mem)@),
                    prev_node,
                    a,
                    cells(old(mem)@)[p as int].next,
                )
                &&& forall|s: Seq<usize>, i: int|
                    #![trigger old(self).holds(cells(old(mem)@), s), s[i]]
                    old(self).holds(cells(old(mem)@), s) && 0 <= i < s.len() && s[i] == p
                        && !s.contains(a) ==> final(self).holds(
                        cells(final(mem)@),
                        s.insert(i + 1, a),
                    )
            },
            same_payload(old(mem)@, final(mem)@),
    {
        proof {
            lemma_same_payload_refl(mem@);
        }
        if let Some(p) = prev_node {
            if let Some(a) = node {
                let ghost m = cells(mem@);
                let n: ListLink = next_of(mem, p);
                insert_between(mem, Some(p), a, n);
                proof {
                    assert forall|s: Seq<usize>, i: int|
                        #![trigger headed(m, self.head, s), s[i]]
                        headed(m, self.head, s) && 0 <= i < s.len() && s[i] == p && !s.contains(
                            a,
                        ) implies headed(cells(mem@), self.head, s.insert(i + 1, a)) by {
                        assert(placed(m, None, s, i));
                        lemma_insert(m, None, s, i + 1, a);
                    }
                }
            }
        }
    }

    /// Removes an element from the list where the link fields around it agree that it is there.
    /// Anything else, null among it, is left alone.
    pub fn remove<T: Embeds>(&mut self, mem: &mut Vec<T>, node: ListLink)
        requires
            node matches Some(a) ==> sound_links(cells(old(mem)@), a),
        ensures
            (*final(self), cells(final(mem)@)) == old(self).removed(cells(old(mem)@), node),
            same_payload(old(mem)@, final(mem)@),
            forall|s: Seq<usize>, i: int|
                #![trigger old(self).holds(cells(old(mem)@), s), s[i]]
                old(self).holds(cells(old(mem)@), s) && 0 <= i < s.len() && Some(s[i]) == node
                    ==> final(self).holds(cells(final(mem)@), s.remove(i)),
    {
        proof {
            lemma_same_payload_refl(mem@);
        }
        if let Some(a) = node {
            let ghost m = cells(mem@);
            proof {
                assert forall|s: Seq<usize>, i: int|
                    #![trigger headed(m, self.head, s), s[i]]
                    headed(m, self.head, s) && 0 <= i < s.len() && s[i]
                        == a implies self.vouches_for(m, a) by {
                    lemma_member_vouched_for(*self, m, s, i);
                }
            }
            let p: ListLink = prev_of(mem, a);
            let n: ListLink = next_of(mem, a);
            if let Some(b) = p {
                if next_of(mem, b) != Some(a) {
                    return;
                }
            }
            if let Some(b) = n {
                if prev_of(mem, b) != Some(a) {
                    return;
                }
            }
            if p.is_none() && self.head != Some(a) {
                return;
            }
            unlink_head(mem, &mut self.head, a);
        }
    }

    /// Empties the list into a stack that is linked through `next` and hands out its top, the
    /// former last element.
    pub fn release<T: Embeds>(&mut self, mem: &mut Vec<T>) -> (top: ListLink)
        requires
            exists|s: Seq<usize>| old(self).holds(cells(old(mem)@), s),
        ensures
            final(self).head is None,
            forall|s: Seq<usize>| #[trigger]
                old(self).holds(cells(old(mem)@), s) ==> {
                    &&& top == at(s, None, s.len() - 1)
                    &&& cells(final(mem)@) == stacked(cells(old(mem)@), s)
                    &&& chain(cells(final(mem)@), top, s.reverse())
                },
            same_payload(old(mem)@, final(mem)@),
    {
        let ghost m = cells(mem@);
        let ghost s = choose|s: Seq<usize>| headed(m, self.head, s);
        let ghost mut k: int = 0;
        let mut top: ListLink = None;
        let mut cur: ListLink = self.head;
        self.head = None;
        proof {
            lemma_same_payload_refl(mem@);
            if s.len() > 0 {
                assert(placed(m, None, s, 0));
            }
        }
        while cur.is_some()
            invariant
                m == cells(old(mem)@),
                linked(m, None, s),
                0 <= k <= s.len(),
                cur == at(s, None, k),
                top == at(s, None, k - 1),
                same_payload(old(mem)@, mem@),
                part_stacked(m, s, k, cells(mem@)),
            decreases s.len() - k,
        {
            let node: usize = cur.unwrap();
            let ghost before = mem@;
            proof {
                assert(m.len() == mem.len());
                lemma_stack_step(m, s, k, cells(mem@));
            }
            cur = next_of(mem, node);
            put_prev(mem, cur, None);
            let ghost middle = mem@;
            let prev: ListLink = prev_of(mem, node);
            put_links(mem, node, ListNode { prev, next: top });
            top = Some(node);
            proof {
                lemma_same_payload_trans(old(mem)@, before, middle);
                lemma_same_payload_trans(old(mem)@, middle, mem@);
                k = k + 1;
            }
        }
        proof {
            assert forall|t: Seq<usize>| #[trigger] headed(m, old(self).head, t) implies t == s by {
                crate::links::lemma_unique(m, None, s, t);
            }
            assert(m.len() == mem.len());
            assert forall|a: int| 0 <= a < m.len() implies cells(mem@)[a] == #[trigger] stacked(
                m,
                s,
            )[a] by {
                if s.contains(a as usize) {
                    let j = s.index_of(a as usize);
                    assert(s[j] == a);
                }
            }
            assert(cells(mem@) =~= stacked(m, s));
            lemma_stack_chain(m, s);
        }
        top
    }
}

/// `c` is `m` after the first `k` elements of `s` have been moved to the stack.
spec fn part_stacked(m: Seq<ListNode>, s: Seq<usize>, k: int, c: Seq<ListNode>) -> bool {
    &&& c.len() == m.len()
    &&& forall|j: int|
        0 <= j < k ==> #[trigger] c[s[j] as int] == (ListNode {
            prev: None,
            next: at(s, None, j - 1),
        })
    &&& k < s.len() ==> c[s[k] as int] == (ListNode { prev: None, next: at(s, None, k + 1) })
    &&& forall|j: int| k < j < s.len() ==> #[trigger] c[s[j] as int] == m[s[j] as int]
    &&& forall|a: int| 0 <= a < m.len() && !s.contains(a as usize) ==> #[trigger] c[a] == m[a]
}

proof fn lemma_stack_step(m: Seq<ListNode>, s: Seq<usize>, k: int, c: Seq<ListNode>)
    requires
        linked(m, None, s),
        0 <= k < s.len(),
        part_stacked(m, s, k, c),
        m.len() <= usize::MAX,
    ensures
        s[k] < m.len(),
        valid(m, at(s, None, k + 1)),
        part_stacked(
            m,
            s,
            k + 1,
            with_prev(c, at(s, None, k + 1), None).update(
                s[k] as int,
                ListNode { prev: None, next: at(s, None, k - 1) },
            ),
        ),
        with_prev(c, at(s, None, k + 1), None)[s[k] as int].prev is None,
{
    let d = with_prev(c, at(s, None, k + 1), None).update(
        s[k] as int,
        ListNode { prev: None, next: at(s, None, k - 1) },
    );
    if k + 1 < s.len() {
        assert(placed(m, None, s, k + 1));
        assert(s[k + 1] != s[k]);
    }
    assert forall|a: int| 0 <= a < m.len() && !s.contains(a as usize) implies #[trigger] d[a]
        == m[a] by {
        assert(a != s[k]);
        if k + 1 < s.len() {
            assert(a != s[k + 1]);
        }
    }
    assert forall|j: int| k + 1 < j < s.len() implies #[trigger] d[s[j] as int]
        == m[s[j] as int] by {
        assert(s[j] != s[k] && s[j] != s[k + 1]);
    }
    assert forall|j: int| 0 <= j < k implies #[trigger] d[s[j] as int] == c[s[j] as int] by {
        assert(s[j] != s[k]);
        if k + 1 < s.len() {
            assert(s[j] != s[k + 1]);
        }
    }
}

/// Lists a drained stack from its top, for clean-up.
pub fn process_stack<T: Embeds>(mem: &Vec<T>, stack_head: ListLink) -> (nodes: Vec<usize>)
    requires
        exists|t: Seq<usize>| chain(cells(mem@), stack_head, t),
    ensures
        chain(cells(mem@), stack_head, nodes@),
        forall|t: Seq<usize>| #[trigger] chain(cells(mem@), stack_head, t) ==> t == nodes@,
{
    collect(mem, stack_head)
}

proof fn lemma_member_vouched_for(list: List, m: Seq<ListNode>, s: Seq<usize>, i: int)
    requires
        list.holds(m, s),
        0 <= i < s.len(),
    ensures
        list.vouches_for(m, s[i]),
{
    assert(placed(m, None, s, i));
    if i > 0 {
        assert(placed(m, None, s, i - 1));
    }
    if i + 1 < s.len() {
        assert(placed(m, None, s, i + 1));
    }
}

proof fn lemma_stack_chain(m: Seq<ListNode>, s: Seq<usize>)
    requires
        linked(m, None, s),
    ensures
        chain(stacked(m, s), at(s, None, s.len() - 1), s.reverse()),
{
    let t = s.reverse();
    assert forall|i: int| 0 <= i < t.len() implies #[trigger] hop(stacked(m, s), t, i) by {
        let j = s.len() - 1 - i;
        assert(t[i] == s[j]);
        assert(s.contains(s[j]));
        assert(s.index_of(s[j]) == j);
    }
}

/// Once `release` has drained a list, removing one of its elements changes nothing, whatever has
/// happened to the list since, as long as the element itself has not been put back.
pub proof fn law_drained_elements_are_left_alone(
    before: Seq<ListNode>,
    s: Seq<usize>,
    i: int,
    list: List,
    m: Seq<ListNode>,
)
    requires
        linked(before, None, s),
        0 <= i < s.len(),
        m[s[i] as int] == stacked(before, s)[s[i] as int],
        list.head != Some(s[i]),
    ensures
        list.removed(m, Some(s[i])) == (list, m),
{
    assert(s.contains(s[i]));
}

/// Removing an element twice is the same as removing it once.
pub proof fn law_remove_idempotent(list: List, m: Seq<ListNode>, s: Seq<usize>, i: int)
    requires
        list.holds(m, s),
        0 <= i < s.len(),
    ensures
        ({
            let (l1, m1) = list.removed(m, Some(s[i]));
            l1.removed(m1, Some(s[i])) == (l1, m1)
        }),
{
    lemma_member_vouched_for(list, m, s, i);
    assert(placed(m, None, s, i));
    let (l1, m1) = list.removed(m, Some(s[i]));
    assert(m1[s[i] as int] == unlinked());
    if i == 0 && s.len() > 1 {
        assert(s[0] != s[1]);
    }
}

/// `remove` takes an element out exactly where what stands before it, an element or the list itself,
/// names it, and so does the element after it, if there is one. Elsewhere it changes nothing.
pub proof fn law_remove_goes_by_the_neighbours(list: List, m: Seq<ListNode>, node: usize)
    requires
        sound_links(m, node),
        m.len() <= usize::MAX,
    ensures
        ({
            let (l, c) = list.removed(m, Some(node));
            let links = m[node as int];
            let taken = (if links.prev is None {
                list.head == Some(node)
            } else {
                m[links.prev->0 as int].next == Some(node)
            }) && (links.next is None || m[links.next->0 as int].prev == Some(node));
            &&& c.len() == m.len()
            &&& !taken ==> l == list && c == m
            &&& taken ==> {
                &&& l.head == if links.prev is None {
                    links.next
                } else {
                    list.head
                }
                &&& c[node as int].prev is None
                &&& c[node as int].next is None
                &&& forall|b: int|
                    0 <= b < m.len() && b != node ==> (#[trigger] c[b]).next == if links.prev
                        == Some(b as usize) {
                        links.next
                    } else {
                        m[b].next
                    }
                &&& forall|b: int|
                    0 <= b < m.len() && b != node ==> (#[trigger] c[b]).prev == if links.next
                        == Some(b as usize) {
                        links.prev
                    } else {
                        m[b].prev
                    }
            }
        }),
{
}

/// A drained element names the one that stood before it as its next and none as its previous one. All
/// elements that were not on the list stay as they are.
pub proof fn law_drained_list_is_turned_round(m: Seq<ListNode>, s: Seq<usize>)
    requires
        linked(m, None, s),
        m.len() <= usize::MAX,
    ensures
        stacked(m, s).len() == m.len(),
        forall|i: int|
            0 <= i < s.len() ==> stacked(m, s)[(#[trigger] s[i]) as int].prev is None && stacked(
                m,
                s,
            )[s[i] as int].next == if i == 0 {
                None
            } else {
                Some(s[i - 1])
            },
        forall|a: usize|
            a < m.len() && !s.contains(a) ==> #[trigger] stacked(m, s)[a as int] == m[a as int],
{
    assert forall|i: int| 0 <= i < s.len() implies stacked(m, s)[(#[trigger] s[i]) as int].prev is None
        && stacked(m, s)[s[i] as int].next == if i == 0 {
        None
    } else {
        Some(s[i - 1])
    } by {
        assert(s.contains(s[i]));
        assert(s.index_of(s[i]) == i);
    }
}

/// Nothing is removed where no element is given.
pub proof fn law_no_element_no_change(list: List, m: Seq<ListNode>)
    ensures
        list.removed(m, None) == (list, m),
{
}

} // verus!
