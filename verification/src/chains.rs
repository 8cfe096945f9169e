//! Insertion and removal for the three ways in which a list is held: by its first element, by its
//! first and last element, and by a sentinel.
use vstd::prelude::*;

use crate::links::{
    at, bridge, bridged, cells, insert_between, inserted, lemma_bridge, lemma_frame, lemma_insert,
    lemma_same_payload_trans, lemma_unique, linked, next_of, placed, prev_of, put_links,
    same_payload, unlinked, valid, with_next, with_prev, Embeds, ListLink, ListNode,
};

verus! {

/// `head` holds the null-terminated list `s`.
pub open spec fn headed(m: Seq<ListNode>, head: ListLink, s: Seq<usize>) -> bool {
    &&& linked(m, None, s)
    &&& head == at(s, None, 0)
}

/// `head` and `tail` hold the null-terminated list `s`.
pub open spec fn spanned(m: Seq<ListNode>, head: ListLink, tail: ListLink, s: Seq<usize>) -> bool {
    &&& linked(m, None, s)
    &&& head == at(s, None, 0)
    &&& tail == at(s, None, s.len() - 1)
}

/// The sentinel at address `head` holds the ring `s`.
pub open spec fn ring(m: Seq<ListNode>, head: usize, s: Seq<usize>) -> bool {
    linked(m, Some(head), s)
}

/// `m` after the neighbours of `node` have been joined and its own link fields cleared.
pub open spec fn unlinked_at(m: Seq<ListNode>, node: usize) -> Seq<ListNode> {
    bridged(m, node).update(node as int, unlinked())
}

/// The link fields of `node` point into memory.
pub open spec fn sound_links(m: Seq<ListNode>, node: usize) -> bool {
    &&& node < m.len()
    &&& valid(m, m[node as int].prev)
    &&& valid(m, m[node as int].next)
}

/// An element of a list has link fields that point into memory.
pub proof fn lemma_member_sound(m: Seq<ListNode>, end: ListLink, s: Seq<usize>, node: usize)
    requires
        linked(m, end, s),
        s.contains(node),
    ensures
        sound_links(m, node),
{
    let i = s.index_of(node);
    assert(placed(m, end, s, i));
}

/// Taking the element at position `i` out of a list and clearing its link fields.
pub proof fn lemma_unlink(m: Seq<ListNode>, end: ListLink, s: Seq<usize>, i: int)
    requires
        linked(m, end, s),
        0 <= i < s.len(),
    ensures
        linked(unlinked_at(m, s[i]), end, s.remove(i)),
        !s.remove(i).contains(s[i]),
{
    lemma_bridge(m, end, s, i);
    let m1 = bridged(m, s[i]);
    let t = s.remove(i);
    assert(placed(m, end, s, i));
    assert forall|j: int| 0 <= j < t.len() implies unlinked_at(m, s[i])[#[trigger] t[j] as int]
        == m1[t[j] as int] by {
        assert(t.contains(t[j]));
    }
    lemma_frame(m1, unlinked_at(m, s[i]), end, t);
}

/// Puts `node` in front of the list that `head` holds.
pub fn push_head<T: Embeds>(mem: &mut Vec<T>, head: &mut ListLink, node: usize)
    requires
        node < old(mem).len(),
        valid(cells(old(mem)@), *old(head)),
    ensures
        *final(head) == Some(node),
        cells(final(mem)@) == inserted(cells(old(mem)@), None, node, *old(head)),
        same_payload(old(mem)@, final(mem)@),
        forall|s: Seq<usize>| #[trigger]
            headed(cells(old(mem)@), *old(head), s) && !s.contains(node) ==> headed(
                cells(final(mem)@),
                *final(head),
                s.insert(0, node),
            ),
{
    insert_between(mem, None, node, *head);
    *head = Some(node);
    proof {
        let m = cells(old(mem)@);
        assert forall|s: Seq<usize>| #[trigger]
            headed(m, *old(head), s) && !s.contains(node) implies headed(
            cells(mem@),
            *head,
            s.insert(0, node),
        ) by {
            lemma_insert(m, None, s, 0, node);
        }
    }
}

/// Takes `node` out of the list that `head` holds and clears its link fields.
pub fn unlink_head<T: Embeds>(mem: &mut Vec<T>, head: &mut ListLink, node: usize)
    requires
        sound_links(cells(old(mem)@), node),
    ensures
        *final(head) == if cells(old(mem)@)[node as int].prev is None {
            cells(old(mem)@)[node as int].next
        } else {
            *old(head)
        },
        cells(final(mem)@) == unlinked_at(cells(old(mem)@), node),
        same_payload(old(mem)@, final(mem)@),
        forall|s: Seq<usize>, i: int|
            #![trigger headed(cells(old(mem)@), *old(head), s), s[i]]
            headed(cells(old(mem)@), *old(head), s) && 0 <= i < s.len() && s[i] == node ==> headed(
                cells(final(mem)@),
                *final(head),
                s.remove(i),
            ),
{
    let p: ListLink = prev_of(mem, node);
    let n: ListLink = next_of(mem, node);
    bridge(mem, node);
    let ghost m1 = mem@;
    if p.is_none() {
        *head = n;
    }
    put_links(mem, node, ListNode::new());
    proof {
        let m = cells(old(mem)@);
        lemma_same_payload_trans(old(mem)@, m1, mem@);
        assert forall|s: Seq<usize>, i: int|
            #![trigger headed(m, *old(head), s), s[i]]
            headed(m, *old(head), s) && 0 <= i < s.len() && s[i] == node implies headed(
            cells(mem@),
            *head,
            s.remove(i),
        ) by {
            lemma_unlink(m, None, s, i);
            assert(placed(m, None, s, i));
        }
    }
}

/// Puts `node` in front of the list that `head` and `tail` hold.
pub fn push_first<T: Embeds>(
    mem: &mut Vec<T>,
    head: &mut ListLink,
    tail: &mut ListLink,
    node: usize,
)
    requires
        node < old(mem).len(),
        valid(cells(old(mem)@), *old(head)),
    ensures
        *final(head) == Some(node),
        *final(tail) == if *old(head) is None {
            Some(node)
        } else {
            *old(tail)
        },
        cells(final(mem)@) == inserted(cells(old(mem)@), None, node, *old(head)),
        same_payload(old(mem)@, final(mem)@),
        forall|s: Seq<usize>| #[trigger]
            spanned(cells(old(mem)@), *old(head), *old(tail), s) && !s.contains(node) ==> spanned(
                cells(final(mem)@),
                *final(head),
                *final(tail),
                s.insert(0, node),
            ),
{
    insert_between(mem, None, node, *head);
    if head.is_none() {
        *tail = Some(node);
    }
    *head = Some(node);
    proof {
        let m = cells(old(mem)@);
        assert forall|s: Seq<usize>| #[trigger]
            spanned(m, *old(head), *old(tail), s) && !s.contains(node) implies spanned(
            cells(mem@),
            *head,
            *tail,
            s.insert(0, node),
        ) by {
            lemma_insert(m, None, s, 0, node);
        }
    }
}

/// Puts `node` behind the list that `head` and `tail` hold.
pub fn push_last<T: Embeds>(
    mem: &mut Vec<T>,
    head: &mut ListLink,
    tail: &mut ListLink,
    node: usize,
)
    requires
        node < old(mem).len(),
        valid(cells(old(mem)@), *old(tail)),
    ensures
        *final(tail) == Some(node),
        *final(head) == if *old(tail) is None {
            Some(node)
        } else {
            *old(head)
        },
        cells(final(mem)@) == inserted(cells(old(mem)@), *old(tail), node, None),
        same_payload(old(mem)@, final(mem)@),
        forall|s: Seq<usize>| #[trigger]
            spanned(cells(old(mem)@), *old(head), *old(tail), s) && !s.contains(node) ==> spanned(
                cells(final(mem)@),
                *final(head),
                *final(tail),
                s.push(node),
            ),
{
    insert_between(mem, *tail, node, None);
    if tail.is_none() {
        *head = Some(node);
    }
    *tail = Some(node);
    proof {
        let m = cells(old(mem)@);
        assert forall|s: Seq<usize>| #[trigger]
            spanned(m, *old(head), *old(tail), s) && !s.contains(node) implies spanned(
            cells(mem@),
            *head,
            *tail,
            s.push(node),
        ) by {
            lemma_insert(m, None, s, s.len() as int, node);
            assert(s.insert(s.len() as int, node) =~= s.push(node));
        }
    }
}

/// Takes `node` out of the list that `head` and `tail` hold and clears its link fields.
pub fn unlink_span<T: Embeds>(
    mem: &mut Vec<T>,
    head: &mut ListLink,
    tail: &mut ListLink,
    node: usize,
)
    requires
        sound_links(cells(old(mem)@), node),
    ensures
        *final(head) == if cells(old(mem)@)[node as int].prev is None {
            cells(old(mem)@)[node as int].next
        } else {
            *old(head)
        },
        *final(tail) == if cells(old(mem)@)[node as int].next is None {
            cells(old(mem)@)[node as int].prev
        } else {
            *old(tail)
        },
        cells(final(mem)@) == unlinked_at(cells(old(mem)@), node),
        same_payload(old(mem)@, final(mem)@),
        forall|s: Seq<usize>, i: int|
            #![trigger spanned(cells(old(mem)@), *old(head), *old(tail), s), s[i]]
            spanned(cells(old(mem)@), *old(head), *old(tail), s) && 0 <= i < s.len() && s[i]
                == node ==> spanned(cells(final(mem)@), *final(head), *final(tail), s.remove(i)),
{
    let p: ListLink = prev_of(mem, node);
    let n: ListLink = next_of(mem, node);
    bridge(mem, node);
    let ghost m1 = mem@;
    if p.is_none() {
        *head = n;
    }
    if n.is_none() {
        *tail = p;
    }
    put_links(mem, node, ListNode::new());
    proof {
        let m = cells(old(mem)@);
        lemma_same_payload_trans(old(mem)@, m1, mem@);
        assert forall|s: Seq<usize>, i: int|
            #![trigger spanned(m, *old(head), *old(tail), s), s[i]]
            spanned(m, *old(head), *old(tail), s) && 0 <= i < s.len() && s[i]
                == node implies spanned(cells(mem@), *head, *tail, s.remove(i)) by {
            lemma_unlink(m, None, s, i);
            assert(placed(m, None, s, i));
        }
    }
}

/// Makes `head` the sentinel of an empty ring.
pub fn ring_init<T: Embeds>(mem: &mut Vec<T>, head: usize)
    requires
        head < old(mem).len(),
    ensures
        cells(final(mem)@) == cells(old(mem)@).update(
            head as int,
            (ListNode { prev: Some(head), next: Some(head) }),
        ),
        same_payload(old(mem)@, final(mem)@),
        ring(cells(final(mem)@), head, Seq::empty()),
{
    put_links(mem, head, ListNode { prev: Some(head), next: Some(head) });
}

/// Puts `node` behind `prev` in the ring that both are, or come to be, part of.
pub fn ring_insert_after<T: Embeds>(mem: &mut Vec<T>, prev: usize, node: usize)
    requires
        node < old(mem).len(),
        prev < old(mem).len(),
        valid(cells(old(mem)@), cells(old(mem)@)[prev as int].next),
    ensures
        cells(final(mem)@) == inserted(
            cells(old(mem)@),
            Some(prev),
            node,
            cells(old(mem)@)[prev as int].next,
        ),
        same_payload(old(mem)@, final(mem)@),
        forall|s: Seq<usize>| #[trigger]
            ring(cells(old(mem)@), prev, s) && !s.contains(node) && node != prev ==> ring(
                cells(final(mem)@),
                prev,
                s.insert(0, node),
            ),
        forall|h: usize, s: Seq<usize>, i: int|
            #![trigger ring(cells(old(mem)@), h, s), s[i]]
            ring(cells(old(mem)@), h, s) && 0 <= i < s.len() && s[i] == prev && !s.contains(node)
                && node != h ==> ring(cells(final(mem)@), h, s.insert(i + 1, node)),
{
    let n: ListLink = next_of(mem, prev);
    insert_between(mem, Some(prev), node, n);
    proof {
        let m = cells(old(mem)@);
        assert forall|s: Seq<usize>| #[trigger]
            ring(m, prev, s) && !s.contains(node) && node != prev implies ring(
            cells(mem@),
            prev,
            s.insert(0, node),
        ) by {
            lemma_insert(m, Some(prev), s, 0, node);
        }
        assert forall|h: usize, s: Seq<usize>, i: int|
            #![trigger ring(m, h, s), s[i]]
            ring(m, h, s) && 0 <= i < s.len() && s[i] == prev && !s.contains(node) && node
                != h implies ring(cells(mem@), h, s.insert(i + 1, node)) by {
            lemma_insert(m, Some(h), s, i + 1, node);
            assert(placed(m, Some(h), s, i));
        }
    }
}

/// Puts `node` at the end of the ring that the sentinel `head` holds.
pub fn ring_push_back<T: Embeds>(mem: &mut Vec<T>, head: usize, node: usize)
    requires
        node < old(mem).len(),
        head < old(mem).len(),
        valid(cells(old(mem)@), cells(old(mem)@)[head as int].prev),
    ensures
        cells(final(mem)@) == inserted(
            cells(old(mem)@),
            cells(old(mem)@)[head as int].prev,
            node,
            Some(head),
        ),
        same_payload(old(mem)@, final(mem)@),
        forall|s: Seq<usize>| #[trigger]
            ring(cells(old(mem)@), head, s) && !s.contains(node) && node != head ==> ring(
                cells(final(mem)@),
                head,
                s.push(node),
            ),
{
    let p: ListLink = prev_of(mem, head);
    insert_between(mem, p, node, Some(head));
    proof {
        let m = cells(old(mem)@);
        assert forall|s: Seq<usize>| #[trigger]
            ring(m, head, s) && !s.contains(node) && node != head implies ring(
            cells(mem@),
            head,
            s.push(node),
        ) by {
            lemma_insert(m, Some(head), s, s.len() as int, node);
            assert(s.insert(s.len() as int, node) =~= s.push(node));
        }
    }
}

/// Takes `node` out of its ring and leaves `links` in its link fields.
pub fn ring_remove<T: Embeds>(mem: &mut Vec<T>, node: usize, links: ListNode)
    requires
        sound_links(cells(old(mem)@), node),
    ensures
        cells(final(mem)@) == bridged(cells(old(mem)@), node).update(node as int, links),
        same_payload(old(mem)@, final(mem)@),
        forall|h: usize, s: Seq<usize>, i: int|
            #![trigger ring(cells(old(mem)@), h, s), s[i]]
            ring(cells(old(mem)@), h, s) && 0 <= i < s.len() && s[i] == node ==> ring(
                cells(final(mem)@),
                h,
                s.remove(i),
            ),
{
    bridge(mem, node);
    let ghost m1 = mem@;
    put_links(mem, node, links);
    proof {
        let m = cells(old(mem)@);
        lemma_same_payload_trans(old(mem)@, m1, mem@);
        assert forall|h: usize, s: Seq<usize>, i: int|
            #![trigger ring(m, h, s), s[i]]
            ring(m, h, s) && 0 <= i < s.len() && s[i] == node implies ring(
            cells(mem@),
            h,
            s.remove(i),
        ) by {
            let t = s.remove(i);
            lemma_bridge(m, Some(h), s, i);
            assert forall|j: int| 0 <= j < t.len() implies cells(mem@)[#[trigger] t[j] as int]
                == cells(m1)[t[j] as int] by {
                assert(t.contains(t[j]));
            }
            lemma_frame(cells(m1), cells(mem@), Some(h), t);
        }
    }
}

/// The element at position `i` of `t` points to the one behind it, the last one to null.
pub open spec fn hop(m: Seq<ListNode>, t: Seq<usize>, i: int) -> bool {
    &&& t[i] < m.len()
    &&& m[t[i] as int].next == at(t, None, i + 1)
}

/// Following `next` from `top` visits exactly `t` and ends in null.
pub open spec fn chain(m: Seq<ListNode>, top: ListLink, t: Seq<usize>) -> bool {
    &&& top == at(t, None, 0)
    &&& forall|i: int| 0 <= i < t.len() ==> #[trigger] hop(m, t, i)
}

/// A null-terminated list is a chain of its elements.
pub proof fn lemma_chain(m: Seq<ListNode>, s: Seq<usize>)
    requires
        linked(m, None, s),
    ensures
        chain(m, at(s, None, 0), s),
{
    assert forall|i: int| 0 <= i < s.len() implies #[trigger] hop(m, s, i) by {
        assert(placed(m, None, s, i));
    }
}

/// Walks a chain from `top` and lists the addresses on the way.
pub fn collect<T: Embeds>(mem: &Vec<T>, top: ListLink) -> (nodes: Vec<usize>)
    requires
        exists|t: Seq<usize>| chain(cells(mem@), top, t),
    ensures
        chain(cells(mem@), top, nodes@),
        forall|t: Seq<usize>| #[trigger] chain(cells(mem@), top, t) ==> t == nodes@,
{
    let ghost m = cells(mem@);
    let ghost s = choose|t: Seq<usize>| chain(m, top, t);
    let mut nodes: Vec<usize> = Vec::new();
    let mut cur: ListLink = top;
    while cur.is_some()
        invariant
            m == cells(mem@),
            chain(m, top, s),
            nodes@ == s.take(nodes.len() as int),
            nodes.len() <= s.len(),
            cur == at(s, None, nodes.len() as int),
            forall|t: Seq<usize>| #[trigger]
                chain(m, top, t) ==> nodes.len() <= t.len() && t.take(nodes.len() as int)
                    == nodes@ && at(t, None, nodes.len() as int) == cur,
        decreases s.len() - nodes.len(),
    {
        let ghost k = nodes.len() as int;
        let ghost before = nodes@;
        assert(hop(m, s, k));
        let node: usize = cur.unwrap();
        nodes.push(node);
        cur = next_of(mem, node);
        proof {
            assert forall|t: Seq<usize>| #[trigger] chain(m, top, t) implies nodes.len() <= t.len()
                && t.take(nodes.len() as int) == nodes@ && at(t, None, nodes.len() as int)
                == cur by {
                assert(t.take(k) == before);
                assert(hop(m, t, k));
                assert(t.take(k + 1) =~= before.push(t[k]));
            }
        }
    }
    proof {
        assert forall|t: Seq<usize>| #[trigger] chain(m, top, t) implies t == nodes@ by {
            assert(t.take(nodes.len() as int) =~= t);
        }
        assert(s.take(nodes.len() as int) =~= s);
    }
    nodes
}

/// Walks the ring that `head` holds and lists the addresses of its elements.
pub fn collect_ring<T: Embeds>(mem: &Vec<T>, head: usize) -> (nodes: Vec<usize>)
    requires
        exists|s: Seq<usize>| ring(cells(mem@), head, s),
    ensures
        ring(cells(mem@), head, nodes@),
        forall|s: Seq<usize>| #[trigger] ring(cells(mem@), head, s) ==> s == nodes@,
{
    let ghost m = cells(mem@);
    let ghost s = choose|s: Seq<usize>| ring(m, head, s);
    let mut nodes: Vec<usize> = Vec::new();
    let mut cur: ListLink = next_of(mem, head);
    while cur.is_some() && cur != Some(head)
        invariant
            m == cells(mem@),
            ring(m, head, s),
            nodes.len() <= s.len(),
            nodes@ == s.take(nodes.len() as int),
            cur == at(s, Some(head), nodes.len() as int),
        decreases s.len() - nodes.len(),
    {
        let ghost k = nodes.len() as int;
        assert(placed(m, Some(head), s, k));
        let node: usize = cur.unwrap();
        nodes.push(node);
        cur = next_of(mem, node);
        assert(nodes@ =~= s.take(k + 1));
    }
    proof {
        assert(nodes@ =~= s);
        assert forall|t: Seq<usize>| #[trigger] ring(m, head, t) implies t == nodes@ by {
            lemma_unique(m, Some(head), s, t);
        }
    }
    nodes
}

/// `m` with the link fields of all elements of `s` cleared.
pub open spec fn cleared(m: Seq<ListNode>, s: Seq<usize>) -> Seq<ListNode> {
    Seq::new(
        m.len(),
        |a: int|
            if s.contains(a as usize) {
                unlinked()
            } else {
                m[a]
            },
    )
}

/// `m` after the ring that `head` holds has been cut off: the sentinel points to itself and the
/// first and last element have null neighbours.
pub open spec fn detached(m: Seq<ListNode>, head: usize) -> Seq<ListNode> {
    let first = m[head as int].next;
    let last = m[head as int].prev;
    with_next(
        with_prev(
            m.update(head as int, ListNode { prev: Some(head), next: Some(head) }),
            first,
            None,
        ),
        last,
        None,
    )
}

/// Cutting off a ring leaves an empty ring and a null-terminated list of the former elements.
pub proof fn lemma_detach(m: Seq<ListNode>, head: usize, s: Seq<usize>)
    requires
        ring(m, head, s),
        s.len() > 0,
    ensures
        linked(detached(m, head), None, s),
        ring(detached(m, head), head, Seq::empty()),
{
    let m2 = detached(m, head);
    let last = s.len() - 1;
    assert(s[0] < m.len() && s[last] < m.len());
    assert forall|i: int| 0 <= i < s.len() implies (#[trigger] s[i]) < m2.len() && None::<usize>
        != Some(s[i]) by {}
    assert forall|i: int| 0 <= i < s.len() implies #[trigger] placed(m2, None, s, i) by {
        assert(placed(m, Some(head), s, i));
        assert(s[i] != head);
    }
}

/// The list of addresses met when following `prev` from `last`.
pub fn collect_back<T: Embeds>(mem: &Vec<T>, last: ListLink) -> (nodes: Vec<usize>)
    requires
        exists|s: Seq<usize>|
            linked(cells(mem@), None, s) && last == at(s, None, s.len() - 1),
    ensures
        forall|s: Seq<usize>| #[trigger]
            linked(cells(mem@), None, s) && last == at(s, None, s.len() - 1) ==> nodes@
                == s.reverse(),
{
    let ghost m = cells(mem@);
    let ghost s0 = choose|s: Seq<usize>|
        linked(m, None, s) && last == at(s, None, s.len() - 1);
    let mut nodes: Vec<usize> = Vec::new();
    let mut cur: ListLink = last;
    while cur.is_some()
        invariant
            m == cells(mem@),
            linked(m, None, s0) && last == at(s0, None, s0.len() - 1),
            nodes.len() <= s0.len(),
            cur == at(s0, None, s0.len() - 1 - nodes.len()),
            forall|s: Seq<usize>| #[trigger]
                linked(m, None, s) && last == at(s, None, s.len() - 1) ==> nodes.len() <= s.len()
                    && nodes@ == s.reverse().take(nodes.len() as int) && cur == at(
                    s,
                    None,
                    s.len() - 1 - nodes.len(),
                ),
        decreases s0.len() - nodes.len(),
    {
        let ghost k = nodes.len() as int;
        let ghost before = nodes@;
        let node: usize = cur.unwrap();
        assert(placed(m, None, s0, s0.len() - 1 - k));
        nodes.push(node);
        cur = prev_of(mem, node);
        proof {
            assert forall|s: Seq<usize>| #[trigger]
                linked(m, None, s) && last == at(s, None, s.len() - 1) implies nodes.len()
                <= s.len() && nodes@ == s.reverse().take(nodes.len() as int) && cur == at(
                s,
                None,
                s.len() - 1 - nodes.len(),
            ) by {
                assert(placed(m, None, s, s.len() - 1 - k));
                assert(s.reverse().take(k + 1) =~= before.push(s[s.len() - 1 - k]));
            }
        }
    }
    proof {
        assert forall|s: Seq<usize>| #[trigger]
            linked(m, None, s) && last == at(s, None, s.len() - 1) implies nodes@
            == s.reverse() by {
            assert(s.reverse().take(nodes.len() as int) =~= s.reverse());
        }
    }
    nodes
}

/// Filtering one element more.
pub proof fn lemma_filter_step<A>(s: Seq<A>, k: int, keep: spec_fn(A) -> bool)
    requires
        0 <= k < s.len(),
    ensures
        s.take(k + 1).filter(keep) == if keep(s[k]) {
            s.take(k).filter(keep).push(s[k])
        } else {
            s.take(k).filter(keep)
        },
{
    reveal(Seq::filter);
    assert(s.take(k + 1).drop_last() =~= s.take(k));
}

/// A list whose first `k` elements have been filtered, before and after the next one is dealt with.
pub proof fn lemma_filter_rest(s: Seq<usize>, k: int, keep: spec_fn(usize) -> bool)
    requires
        0 <= k < s.len(),
    ensures
        ({
            let t = s.take(k).filter(keep);
            let now = t + s.skip(k);
            &&& now[t.len() as int] == s[k]
            &&& forall|end: ListLink| #[trigger] at(now, end, t.len() as int + 1) == at(s, end, k + 1)
            &&& s.take(k + 1).filter(keep) + s.skip(k + 1) == if keep(s[k]) {
                now
            } else {
                now.remove(t.len() as int)
            }
        }),
{
    lemma_filter_step(s, k, keep);
    let t = s.take(k).filter(keep);
    let now = t + s.skip(k);
    let then = s.take(k + 1).filter(keep) + s.skip(k + 1);
    if keep(s[k]) {
        assert(then =~= now);
    } else {
        assert(then =~= now.remove(t.len() as int));
    }
}

/// Filtering keeps exactly the elements that pass.
pub proof fn lemma_filter_members(s: Seq<usize>, keep: spec_fn(usize) -> bool)
    ensures
        forall|a: usize| #[trigger] s.filter(keep).contains(a) <==> s.contains(a) && keep(a),
    decreases s.len(),
{
    reveal(Seq::filter);
    if s.len() > 0 {
        let r = s.drop_last();
        lemma_filter_members(r, keep);
        let f = r.filter(keep);
        let g = s.filter(keep);
        assert forall|a: usize| #[trigger] g.contains(a) <==> s.contains(a) && keep(a) by {
            if g.contains(a) {
                let q = g.index_of(a);
                if q < f.len() {
                    assert(f[q] == a);
                    assert(f.contains(a));
                    let p = r.index_of(a);
                    assert(s[p] == a);
                }
            }
            if s.contains(a) && keep(a) {
                let p = s.index_of(a);
                if p < r.len() {
                    assert(r[p] == a);
                    assert(f.contains(a));
                    let q = f.index_of(a);
                    assert(g[q] == a);
                } else {
                    assert(g[g.len() - 1] == a);
                }
            }
        }
    }
}

/// Unlinking an element joins the two that it names, clears its own fields and changes nothing else.
pub proof fn law_unlinking_joins_neighbours(m: Seq<ListNode>, node: usize)
    requires
        sound_links(m, node),
        m.len() <= usize::MAX + 1,
    ensures
        unlinked_at(m, node).len() == m.len(),
        unlinked_at(m, node)[node as int].prev is None,
        unlinked_at(m, node)[node as int].next is None,
        forall|b: int|
            0 <= b < m.len() && b != node ==> (#[trigger] unlinked_at(m, node)[b]).next
                == if m[node as int].prev == Some(b as usize) {
                m[node as int].next
            } else {
                m[b].next
            },
        forall|b: int|
            0 <= b < m.len() && b != node ==> (#[trigger] unlinked_at(m, node)[b]).prev
                == if m[node as int].next == Some(b as usize) {
                m[node as int].prev
            } else {
                m[b].prev
            },
{
}

/// Clearing elements empties the fields of exactly these.
pub proof fn law_clearing_spares_the_others(m: Seq<ListNode>, s: Seq<usize>)
    ensures
        cleared(m, s).len() == m.len(),
        forall|a: usize|
            a < m.len() && s.contains(a) ==> (#[trigger] cleared(m, s)[a as int]).prev is None
                && cleared(m, s)[a as int].next is None,
        forall|a: usize|
            a < m.len() && !s.contains(a) ==> #[trigger] cleared(m, s)[a as int] == m[a as int],
{
}

/// The elements of a ring are distinct and none is the sentinel. Going round in either direction from
/// the sentinel meets each of them once.
pub proof fn law_ring_elements_name_neighbours(m: Seq<ListNode>, head: usize, s: Seq<usize>)
    ensures
        ring(m, head, s) <==> {
            &&& s.no_duplicates()
            &&& !s.contains(head)
            &&& head < m.len()
            &&& m[head as int].next == Some(
                if s.len() == 0 {
                    head
                } else {
                    s[0]
                },
            )
            &&& m[head as int].prev == Some(
                if s.len() == 0 {
                    head
                } else {
                    s[s.len() - 1]
                },
            )
            &&& forall|i: int|
                0 <= i < s.len() ==> {
                    &&& (#[trigger] s[i]) < m.len()
                    &&& m[s[i] as int].prev == Some(
                        if i == 0 {
                            head
                        } else {
                            s[i - 1]
                        },
                    )
                    &&& m[s[i] as int].next == Some(
                        if i == s.len() - 1 {
                            head
                        } else {
                            s[i + 1]
                        },
                    )
                }
        },
{
    if ring(m, head, s) {
        assert forall|i: int| 0 <= i < s.len() implies {
            &&& (#[trigger] s[i]) < m.len()
            &&& m[s[i] as int].prev == Some(
                if i == 0 {
                    head
                } else {
                    s[i - 1]
                },
            )
            &&& m[s[i] as int].next == Some(
                if i == s.len() - 1 {
                    head
                } else {
                    s[i + 1]
                },
            )
        } by {
            assert(placed(m, Some(head), s, i));
        }
    } else if s.no_duplicates() && !s.contains(head) && head < m.len() {
        assert forall|i: int| 0 <= i < s.len() implies Some(head) != Some(#[trigger] s[i]) by {}
    }
}

/// The list that a first element holds, and the list that both ends hold, start with the first element
/// and end with the last one, and hold nothing if there is none.
pub proof fn law_ends_hold_the_list(m: Seq<ListNode>, head: ListLink, tail: ListLink, s: Seq<usize>)
    ensures
        headed(m, head, s) <==> linked(m, None, s) && head == if s.len() == 0 {
            None
        } else {
            Some(s[0])
        },
        spanned(m, head, tail, s) <==> linked(m, None, s) && head == (if s.len() == 0 {
            None
        } else {
            Some(s[0])
        }) && tail == (if s.len() == 0 {
            None
        } else {
            Some(s[s.len() - 1])
        }),
{
}

/// Following `next` from the top of a chain meets its elements one after the other and ends behind the
/// last one.
pub proof fn law_chain_is_followed(m: Seq<ListNode>, top: ListLink, t: Seq<usize>)
    ensures
        chain(m, top, t) <==> {
            &&& top == if t.len() == 0 {
                None
            } else {
                Some(t[0])
            }
            &&& forall|i: int|
                0 <= i < t.len() ==> {
                    &&& (#[trigger] t[i]) < m.len()
                    &&& m[t[i] as int].next == if i == t.len() - 1 {
                        None
                    } else {
                        Some(t[i + 1])
                    }
                }
        },
{
    if chain(m, top, t) {
        assert forall|i: int| 0 <= i < t.len() implies {
            &&& (#[trigger] t[i]) < m.len()
            &&& m[t[i] as int].next == if i == t.len() - 1 {
                None
            } else {
                Some(t[i + 1])
            }
        } by {
            assert(hop(m, t, i));
        }
    }
}

/// Cutting a ring off changes the sentinel, which then names itself, and the outer link fields of the
/// first and the last element, which then name nothing.
pub proof fn law_cutting_off_frees_the_ends(m: Seq<ListNode>, head: usize, s: Seq<usize>)
    requires
        ring(m, head, s),
        s.len() > 0,
        m.len() <= usize::MAX,
    ensures
        detached(m, head).len() == m.len(),
        detached(m, head)[head as int].next == Some(head),
        detached(m, head)[head as int].prev == Some(head),
        forall|a: usize|
            a < m.len() && a != head ==> (#[trigger] detached(m, head)[a as int]).prev == if a
                == s[0] {
                None
            } else {
                m[a as int].prev
            },
        forall|a: usize|
            a < m.len() && a != head ==> (#[trigger] detached(m, head)[a as int]).next == if a
                == s[s.len() - 1] {
                None
            } else {
                m[a as int].next
            },
{
    assert(m[head as int].next == Some(s[0]));
    assert(m[head as int].prev == Some(s[s.len() - 1]));
    assert(s.contains(s[0]) && s.contains(s[s.len() - 1]));
}

} // verus!
