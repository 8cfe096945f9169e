//! Lists that trust their callers. An element keeps its place in memory for good, and removing it joins
//! whatever its link fields name, whether or not it is still on the list.
//!
//! On a list that is in order this does what is expected. Removing an element that has already left
//! makes a null-terminated list forget all that it holds, and may bring elements back into a ring.
use vstd::prelude::*;

use crate::chains::{
    headed, lemma_unlink, push_head, push_last, ring, ring_init, ring_insert_after, spanned,
    unlink_head, unlink_span, unlinked_at,
};
use crate::links::{
    at, bridge, bridged, cells, inserted, lemma_bridge, lemma_frame, lemma_insert, linked, next_of,
    placed, same_payload, unlinked, valid, Embeds, ListLink, ListNode,
};
use crate::owned::Entry;

verus! {

/// The element at position `i` of `t` leads to the one behind it, the last one to `end`.
pub open spec fn step(m: Seq<ListNode>, end: ListLink, t: Seq<usize>, i: int) -> bool {
    &&& t[i] < m.len()
    &&& end != Some(t[i])
    &&& m[t[i] as int].next == at(t, end, i + 1)
}

/// Following `next` from `top` meets exactly `t` before it comes to `end`.
pub open spec fn way(m: Seq<ListNode>, top: ListLink, end: ListLink, t: Seq<usize>) -> bool {
    &&& top == at(t, end, 0)
    &&& forall|i: int| 0 <= i < t.len() ==> #[trigger] step(m, end, t, i)
}

/// The addresses met when following `next` from `top` to `end`.
pub open spec fn met(m: Seq<ListNode>, top: ListLink, end: ListLink) -> Seq<usize> {
    choose|t: Seq<usize>| way(m, top, end, t)
}

proof fn lemma_same_start(
    m: Seq<ListNode>,
    top: ListLink,
    end: ListLink,
    s: Seq<usize>,
    t: Seq<usize>,
    k: nat,
)
    requires
        way(m, top, end, s),
        way(m, top, end, t),
        k <= s.len(),
    ensures
        k <= t.len(),
        forall|j: int| 0 <= j < k ==> s[j] == t[j],
        at(s, end, k as int) == at(t, end, k as int),
    decreases k,
{
    if k > 0 {
        let j = (k - 1) as nat;
        lemma_same_start(m, top, end, s, t, j);
        assert(step(m, end, s, j as int));
        assert(at(t, end, j as int) == Some(s[j as int]));
        assert(step(m, end, t, j as int));
    }
}

/// There is only one way from `top` to `end`.
pub proof fn lemma_met(m: Seq<ListNode>, top: ListLink, end: ListLink, t: Seq<usize>)
    requires
        way(m, top, end, t),
    ensures
        met(m, top, end) == t,
{
    let s = met(m, top, end);
    lemma_same_start(m, top, end, s, t, s.len());
    lemma_same_start(m, top, end, t, s, t.len());
    assert(s =~= t);
}

/// Following a list from its first element meets its elements.
pub proof fn lemma_linked_met(m: Seq<ListNode>, end: ListLink, s: Seq<usize>)
    requires
        linked(m, end, s),
    ensures
        way(m, at(s, end, 0), end, s),
        met(m, at(s, end, 0), end) == s,
{
    assert forall|i: int| 0 <= i < s.len() implies #[trigger] step(m, end, s, i) by {
        assert(placed(m, end, s, i));
    }
    lemma_met(m, at(s, end, 0), end, s);
}

proof fn lemma_one_more(
    m: Seq<ListNode>,
    a: usize,
    end: ListLink,
    t: Seq<usize>,
)
    requires
        a < m.len(),
        end != Some(a),
        way(m, m[a as int].next, end, t),
    ensures
        way(m, Some(a), end, seq![a] + t),
{
    let u = seq![a] + t;
    assert forall|i: int| 0 <= i < u.len() implies #[trigger] step(m, end, u, i) by {
        if i > 0 {
            assert(u[i] == t[i - 1]);
            assert(step(m, end, t, i - 1));
        }
    }
}

/// The link fields at `a` name later elements ahead and earlier ones behind.
pub open spec fn rises(m: Seq<ListNode>, a: int) -> bool {
    &&& m[a].next matches Some(n) ==> a < n < m.len()
    &&& m[a].prev matches Some(p) ==> p < a
}

/// All link fields name later elements ahead and earlier ones behind.
pub open spec fn rising(m: Seq<ListNode>) -> bool {
    forall|a: int| 0 <= a < m.len() ==> #[trigger] rises(m, a)
}

/// The link fields at `a` name earlier elements ahead and later ones behind.
pub open spec fn falls(m: Seq<ListNode>, a: int) -> bool {
    &&& m[a].next matches Some(n) ==> n < a
    &&& m[a].prev matches Some(p) ==> a < p < m.len()
}

/// All link fields name earlier elements ahead and later ones behind.
pub open spec fn falling(m: Seq<ListNode>) -> bool {
    forall|a: int| 0 <= a < m.len() ==> #[trigger] falls(m, a)
}

/// The link fields at `a` name earlier elements ahead, and later ones or the sentinel behind.
pub open spec fn circles(m: Seq<ListNode>, a: int) -> bool {
    &&& m[a].next matches Some(n) && (n < a || a == 0) && n < m.len()
    &&& m[a].prev matches Some(p) && (a < p || p == 0 || a == 0) && p < m.len()
}

/// All link fields name earlier elements ahead, and later ones or the sentinel behind. The sentinel is
/// at address zero.
pub open spec fn circling(m: Seq<ListNode>) -> bool {
    &&& m.len() > 0
    &&& forall|a: int| 0 <= a < m.len() ==> #[trigger] circles(m, a)
}

proof fn lemma_rising_way(m: Seq<ListNode>, top: ListLink)
    requires
        rising(m),
        valid(m, top),
    ensures
        way(m, top, None, met(m, top, None)),
    decreases
            (match top {
                Some(a) => m.len() - a,
                None => 0,
            }),
{
    match top {
        Some(a) => {
            assert(rises(m, a as int));
            let next = m[a as int].next;
            lemma_rising_way(m, next);
            lemma_one_more(m, a, None, met(m, next, None));
        },
        None => {
            assert(way(m, None, None, Seq::empty()));
        },
    }
}

proof fn lemma_falling_way(m: Seq<ListNode>, top: ListLink)
    requires
        falling(m),
        valid(m, top),
    ensures
        way(m, top, None, met(m, top, None)),
    decreases
            (match top {
                Some(a) => a + 1,
                None => 0,
            }),
{
    match top {
        Some(a) => {
            assert(falls(m, a as int));
            let next = m[a as int].next;
            lemma_falling_way(m, next);
            lemma_one_more(m, a, None, met(m, next, None));
        },
        None => {
            assert(way(m, None, None, Seq::empty()));
        },
    }
}

proof fn lemma_circling_way(m: Seq<ListNode>, a: usize)
    requires
        circling(m),
        a < m.len(),
    ensures
        way(m, Some(a), Some(0), met(m, Some(a), Some(0))),
    decreases a,
{
    if a > 0 {
        assert(circles(m, a as int));
        let next = m[a as int].next;
        lemma_circling_way(m, next->0);
        lemma_one_more(m, a, Some(0), met(m, next, Some(0)));
    } else {
        assert(way(m, Some(0), Some(0), Seq::empty()));
    }
}

/// Elements are met from later to earlier ones.
proof fn lemma_met_falls(m: Seq<ListNode>, top: ListLink, t: Seq<usize>, i: int, j: int)
    requires
        falling(m),
        way(m, top, None, t),
        0 <= i < j < t.len(),
    ensures
        t[i] > t[j],
    decreases j - i,
{
    assert(step(m, None, t, j - 1));
    assert(falls(m, t[j - 1] as int));
    if i < j - 1 {
        lemma_met_falls(m, top, t, i, j - 1);
    }
}

/// Lists the addresses met when following `next` from `top` to `end`.
fn follow<T: Embeds>(mem: &Vec<T>, top: ListLink, end: ListLink) -> (nodes: Vec<usize>)
    requires
        way(cells(mem@), top, end, met(cells(mem@), top, end)),
    ensures
        nodes@ == met(cells(mem@), top, end),
{
    let ghost m = cells(mem@);
    let ghost t = met(m, top, end);
    let mut nodes: Vec<usize> = Vec::new();
    let mut cur: ListLink = top;
    while cur.is_some() && cur != end
        invariant
            m == cells(mem@),
            way(m, top, end, t),
            nodes.len() <= t.len(),
            nodes@ == t.take(nodes.len() as int),
            cur == at(t, end, nodes.len() as int),
        decreases t.len() - nodes.len(),
    {
        let ghost k = nodes.len() as int;
        assert(k < t.len());
        assert(step(m, end, t, k));
        let node: usize = cur.unwrap();
        nodes.push(node);
        cur = next_of(mem, node);
        assert(nodes@ =~= t.take(k + 1));
    }
    proof {
        if nodes.len() < t.len() {
            assert(step(m, end, t, nodes.len() as int));
        }
        assert(nodes@ =~= t);
    }
    nodes
}

/// All places hold an element.
spec fn full<P>(mem: Seq<Entry<P>>) -> bool {
    forall|a: int| 0 <= a < mem.len() ==> (#[trigger] mem[a]).item is Some
}

/// The elements in memory, address by address.
spec fn stored<P>(mem: Seq<Entry<P>>) -> Seq<P> {
    Seq::new(mem.len(), |a: int| mem[a].item->0)
}

proof fn lemma_stored<P>(before: Seq<Entry<P>>, after: Seq<Entry<P>>)
    requires
        same_payload(before, after),
    ensures
        full(before) ==> full(after),
        stored(after) == stored(before),
        forall|a: int| 0 <= a < before.len() ==> (#[trigger] after[a]).item == before[a].item,
{
    assert forall|a: int| 0 <= a < before.len() implies (#[trigger] after[a]).item
        == before[a].item by {
        assert(after[a] == before[a].relinked(after[a].links()));
    }
    assert(stored(after) =~= stored(before));
    if full(before) {
        assert forall|a: int| 0 <= a < after.len() implies (#[trigger] after[a]).item is Some by {
            assert(before[a].item is Some);
        }
    }
}

/// What a list that is held by its first and last element has in memory.
pub struct TailedView<P> {
    /// The link fields of all elements that have ever been put on the list.
    pub cells: Seq<ListNode>,
    /// These elements themselves.
    pub items: Seq<P>,
    pub head: ListLink,
    pub tail: ListLink,
}

impl<P> TailedView<P> {
    /// A list that nothing has been put on.
    pub open spec fn fresh() -> TailedView<P> {
        TailedView { cells: Seq::empty(), items: Seq::empty(), head: None, tail: None }
    }

    /// What holds of every list.
    pub open spec fn sound(self) -> bool {
        &&& self.cells.len() == self.items.len() <= usize::MAX
        &&& rising(self.cells)
        &&& valid(self.cells, self.head)
        &&& valid(self.cells, self.tail)
    }

    /// The address of the next element.
    pub open spec fn next_address(self) -> usize {
        self.items.len() as usize
    }

    /// After an element has been put behind the last one.
    pub open spec fn pushed(self, item: P) -> TailedView<P> {
        let addr = self.next_address();
        TailedView {
            cells: inserted(self.cells.push(unlinked()), self.tail, addr, None),
            items: self.items.push(item),
            head: if self.tail is None {
                Some(addr)
            } else {
                self.head
            },
            tail: Some(addr),
        }
    }

    /// After the neighbours that the element at `addr` names have been joined.
    pub open spec fn erased(self, addr: usize) -> TailedView<P> {
        let links = self.cells[addr as int];
        TailedView {
            cells: unlinked_at(self.cells, addr),
            head: if links.prev is None {
                links.next
            } else {
                self.head
            },
            tail: if links.next is None {
                links.prev
            } else {
                self.tail
            },
            ..self
        }
    }

    /// After the list has been emptied. The link fields of its elements stay as they are.
    pub open spec fn emptied(self) -> TailedView<P> {
        TailedView { head: None, tail: None, ..self }
    }

    /// The addresses of the elements that are met from the first one on.
    pub open spec fn order(self) -> Seq<usize> {
        met(self.cells, self.head, None)
    }

    /// The elements that are met from the first one on.
    pub open spec fn listed(self) -> Seq<P> {
        self.order().map_values(|a: usize| self.items[a as int])
    }

    /// The list is in order and holds the elements at the addresses `s`.
    pub open spec fn holds(self, s: Seq<usize>) -> bool {
        spanned(self.cells, self.head, self.tail, s)
    }
}

/// A list of elements that can be copied, held by its first and last element.
pub struct TailedList<P> {
    mem: Vec<Entry<P>>,
    head: ListLink,
    tail: ListLink,
}

impl<P> View for TailedList<P> {
    type V = TailedView<P>;

    closed spec fn view(&self) -> TailedView<P> {
        TailedView {
            cells: cells(self.mem@),
            items: stored(self.mem@),
            head: self.head,
            tail: self.tail,
        }
    }
}

impl<P: Copy> TailedList<P> {
    pub closed spec fn wf(self) -> bool {
        full(self.mem@) && self@.sound()
    }

    /// What holds of every list.
    pub proof fn lemma_sound(self)
        requires
            self.wf(),
        ensures
            self@.sound(),
    {
    }

    /// Creates an empty list.
    pub fn new() -> (list: TailedList<P>)
        ensures
            list.wf(),
            list@ == TailedView::<P>::fresh(),
    {
        let list = TailedList { mem: Vec::new(), head: None, tail: None };
        proof {
            assert(list@.cells =~= Seq::empty());
            assert(list@.items =~= Seq::empty());
        }
        list
    }

    /// Puts an element behind the last one and hands out its address.
    pub fn push_back(&mut self, item: P) -> (addr: usize)
        requires
            old(self).wf(),
        ensures
            final(self).wf(),
            addr == old(self)@.items.len(),
            final(self)@ == old(self)@.pushed(item),
    {
        let addr: usize = self.mem.len();
        let entry = Entry { links: ListNode::new(), item: Some(item) };
        self.mem.push(entry);
        let ghost grown = self.mem@;
        proof {
            assert(cells(grown) =~= old(self)@.cells.push(unlinked()));
            assert(full(grown)) by {
                assert forall|a: int| 0 <= a < grown.len() implies (
                #[trigger] grown[a]).item is Some by {
                    if a < addr {
                        assert(grown[a] == old(self).mem@[a]);
                    }
                }
            }
        }
        push_last(&mut self.mem, &mut self.head, &mut self.tail, addr);
        proof {
            lemma_stored(grown, self.mem@);
            assert(stored(grown) =~= old(self)@.items.push(item));
            assert(self.mem@.len() == self.mem.len());
            assert forall|a: int| 0 <= a < self@.cells.len() implies #[trigger] rises(
                self@.cells,
                a,
            ) by {
                if a < addr {
                    assert(rises(old(self)@.cells, a));
                }
            }
        }
        addr
    }

    /// Joins the neighbours that the element at `addr` names and clears its link fields.
    pub fn erase(&mut self, addr: usize)
        requires
            old(self).wf(),
            addr < old(self)@.items.len(),
        ensures
            final(self).wf(),
            final(self)@ == old(self)@.erased(addr),
    {
        let ghost before = self.mem@;
        proof {
            assert(rises(self@.cells, addr as int));
        }
        unlink_span(&mut self.mem, &mut self.head, &mut self.tail, addr);
        proof {
            lemma_stored(before, self.mem@);
            let m = cells(before);
            assert forall|a: int| 0 <= a < self@.cells.len() implies #[trigger] rises(
                self@.cells,
                a,
            ) by {
                assert(rises(m, a));
            }
        }
    }

    /// The elements that are met from the first one on.
    pub fn listed(&self) -> (all: Vec<P>)
        requires
            self.wf(),
        ensures
            all@ == self@.listed(),
    {
        proof {
            lemma_rising_way(self@.cells, self.head);
        }
        let order: Vec<usize> = follow(&self.mem, self.head, None);
        let ghost t = self@.order();
        let mut all: Vec<P> = Vec::new();
        for i in 0..order.len()
            invariant
                self.wf(),
                order@ == t,
                way(self@.cells, self.head, None, t),
                t == self@.order(),
                all@.len() == i,
                forall|j: int| 0 <= j < i ==> all@[j] == #[trigger] self@.items[t[j] as int],
        {
            let addr: usize = order[i];
            assert(step(self@.cells, None, t, i as int));
            assert(self.mem@[addr as int].item is Some);
            if let Some(item) = self.mem[addr].item {
                all.push(item);
            }
        }
        assert(all@ =~= self@.listed());
        all
    }

    /// Empties the list. The link fields of its elements stay as they are.
    pub fn clear(&mut self)
        requires
            old(self).wf(),
        ensures
            final(self).wf(),
            final(self)@ == old(self)@.emptied(),
    {
        self.head = None;
        self.tail = None;
    }
}

/// A list in order is met from its first element on.
pub proof fn law_tailed_order<P>(v: TailedView<P>, s: Seq<usize>)
    requires
        v.holds(s),
    ensures
        v.order() == s,
{
    lemma_linked_met(v.cells, None, s);
}

/// Putting an element on a list in order leaves it in order, with the element behind the others.
pub proof fn law_tailed_push<P>(v: TailedView<P>, s: Seq<usize>, item: P)
    requires
        v.sound(),
        v.holds(s),
    ensures
        v.pushed(item).holds(s.push(v.next_address())),
        v.pushed(item).listed() == v.listed().push(item),
{
    let addr = v.next_address();
    let m = v.cells.push(unlinked());
    lemma_frame(v.cells, m, None, s);
    if s.contains(addr) {
        let i = s.index_of(addr);
        assert(s[i] < v.cells.len());
    }
    lemma_insert(m, None, s, s.len() as int, addr);
    assert(s.insert(s.len() as int, addr) =~= s.push(addr));
    law_tailed_order(v, s);
    law_tailed_order(v.pushed(item), s.push(addr));
    assert forall|i: int| 0 <= i < s.len() implies (#[trigger] s[i]) < v.items.len() by {}
    assert(v.pushed(item).listed() =~= v.listed().push(item));
}

/// Removing an element of a list in order takes it out and leaves the others in order.
pub proof fn law_tailed_erase<P>(v: TailedView<P>, s: Seq<usize>, i: int)
    requires
        v.holds(s),
        0 <= i < s.len(),
    ensures
        v.erased(s[i]).holds(s.remove(i)),
        v.erased(s[i]).listed() == v.listed().remove(i),
        v.erased(s[i]).cells[s[i] as int] == unlinked(),
{
    lemma_unlink(v.cells, None, s, i);
    assert(placed(v.cells, None, s, i));
    law_tailed_order(v, s);
    law_tailed_order(v.erased(s[i]), s.remove(i));
    assert(v.erased(s[i]).listed() =~= v.listed().remove(i));
}

/// Removing an element right after it has been put on a list in order leaves what was on the list.
pub proof fn law_tailed_erase_undoes_push<P>(v: TailedView<P>, s: Seq<usize>, item: P)
    requires
        v.sound(),
        v.holds(s),
    ensures
        v.pushed(item).erased(v.next_address()).holds(s),
        v.pushed(item).erased(v.next_address()).listed() == v.listed(),
{
    law_tailed_push(v, s, item);
    let t = s.push(v.next_address());
    law_tailed_erase(v.pushed(item), t, s.len() as int);
    assert(t.remove(s.len() as int) =~= s);
    law_tailed_order(v, s);
    assert(v.listed().push(item).remove(s.len() as int) =~= v.listed());
}

/// Removing an element whose link fields have been cleared makes the list forget all that it holds.
pub proof fn law_tailed_erase_again<P>(v: TailedView<P>, addr: usize)
    requires
        addr < v.cells.len(),
        v.cells[addr as int] == unlinked(),
    ensures
        v.erased(addr) == v.emptied(),
        v.erased(addr).listed() == Seq::<P>::empty(),
{
    assert(v.erased(addr).cells =~= v.cells);
    law_tailed_order(v.emptied(), Seq::empty());
    assert(v.emptied().listed() =~= Seq::empty());
}

/// What a list that is held by its first element has in memory.
pub struct HeadedView<P> {
    /// The link fields of all elements that have ever been put on the list.
    pub cells: Seq<ListNode>,
    /// These elements themselves.
    pub items: Seq<P>,
    pub head: ListLink,
}

impl<P> HeadedView<P> {
    /// A list that nothing has been put on.
    pub open spec fn fresh() -> HeadedView<P> {
        HeadedView { cells: Seq::empty(), items: Seq::empty(), head: None }
    }

    /// What holds of every list.
    pub open spec fn sound(self) -> bool {
        &&& self.cells.len() == self.items.len() <= usize::MAX
        &&& falling(self.cells)
        &&& valid(self.cells, self.head)
    }

    /// The address of the next element.
    pub open spec fn next_address(self) -> usize {
        self.items.len() as usize
    }

    /// After an element has been put in front of the first one.
    pub open spec fn pushed(self, item: P) -> HeadedView<P> {
        let addr = self.next_address();
        HeadedView {
            cells: inserted(self.cells.push(unlinked()), None, addr, self.head),
            items: self.items.push(item),
            head: Some(addr),
        }
    }

    /// After the neighbours that the element at `addr` names have been joined.
    pub open spec fn erased(self, addr: usize) -> HeadedView<P> {
        let links = self.cells[addr as int];
        HeadedView {
            cells: unlinked_at(self.cells, addr),
            head: if links.prev is None {
                links.next
            } else {
                self.head
            },
            ..self
        }
    }

    /// The addresses of the elements that are met from the first one on.
    pub open spec fn order(self) -> Seq<usize> {
        met(self.cells, self.head, None)
    }

    /// The elements that are met from the first one on.
    pub open spec fn listed(self) -> Seq<P> {
        self.order().map_values(|a: usize| self.items[a as int])
    }

    /// The list is in order and holds the elements at the addresses `s`.
    pub open spec fn holds(self, s: Seq<usize>) -> bool {
        headed(self.cells, self.head, s)
    }
}

/// A list held by its first element.
pub struct HeadedList<P> {
    mem: Vec<Entry<P>>,
    head: ListLink,
}

impl<P> View for HeadedList<P> {
    type V = HeadedView<P>;

    closed spec fn view(&self) -> HeadedView<P> {
        HeadedView { cells: cells(self.mem@), items: stored(self.mem@), head: self.head }
    }
}

impl<P> HeadedList<P> {
    pub closed spec fn wf(self) -> bool {
        full(self.mem@) && self@.sound()
    }

    /// What holds of every list.
    pub proof fn lemma_sound(self)
        requires
            self.wf(),
        ensures
            self@.sound(),
    {
    }

    /// Creates an empty list.
    pub fn new() -> (list: HeadedList<P>)
        ensures
            list.wf(),
            list@ == HeadedView::<P>::fresh(),
    {
        let list = HeadedList { mem: Vec::new(), head: None };
        proof {
            assert(list@.cells =~= Seq::empty());
            assert(list@.items =~= Seq::empty());
        }
        list
    }

    /// Puts an element in front of the first one and hands out its address.
    pub fn push_front(&mut self, item: P) -> (addr: usize)
        requires
            old(self).wf(),
        ensures
            final(self).wf(),
            addr == old(self)@.items.len(),
            final(self)@ == old(self)@.pushed(item),
    {
        let addr: usize = self.mem.len();
        let entry = Entry { links: ListNode::new(), item: Some(item) };
        self.mem.push(entry);
        let ghost grown = self.mem@;
        proof {
            assert(cells(grown) =~= old(self)@.cells.push(unlinked()));
            assert forall|a: int| 0 <= a < grown.len() implies (
            #[trigger] grown[a]).item is Some by {
                if a < addr {
                    assert(grown[a] == old(self).mem@[a]);
                }
            }
        }
        push_head(&mut self.mem, &mut self.head, addr);
        proof {
            lemma_stored(grown, self.mem@);
            assert(stored(grown) =~= old(self)@.items.push(item));
            assert(self.mem@.len() == self.mem.len());
            assert forall|a: int| 0 <= a < self@.cells.len() implies #[trigger] falls(
                self@.cells,
                a,
            ) by {
                if a < addr {
                    assert(falls(old(self)@.cells, a));
                }
            }
        }
        addr
    }

    /// Joins the neighbours that the element at `addr` names and clears its link fields.
    pub fn erase(&mut self, addr: usize)
        requires
            old(self).wf(),
            addr < old(self)@.items.len(),
        ensures
            final(self).wf(),
            final(self)@ == old(self)@.erased(addr),
    {
        let ghost before = self.mem@;
        proof {
            assert(falls(self@.cells, addr as int));
        }
        unlink_head(&mut self.mem, &mut self.head, addr);
        proof {
            lemma_stored(before, self.mem@);
            let m = cells(before);
            assert forall|a: int| 0 <= a < self@.cells.len() implies #[trigger] falls(
                self@.cells,
                a,
            ) by {
                assert(falls(m, a));
            }
        }
    }

    /// Hands out the elements that are met from the first one on and frees all the others.
    pub fn take_all(&mut self) -> (all: Vec<P>)
        requires
            old(self).wf(),
        ensures
            final(self).wf(),
            all@ == old(self)@.listed(),
            final(self)@ == HeadedView::<P>::fresh(),
    {
        let ghost v = self@;
        let ghost t = v.order();
        proof {
            lemma_falling_way(v.cells, self.head);
        }
        let order: Vec<usize> = follow(&self.mem, self.head, None);
        let mut all: Vec<P> = Vec::new();
        let ghost m = self.mem@;
        for i in 0..order.len()
            invariant
                order@ == t,
                t == v.order(),
                v.sound(),
                v.items == stored(m),
                full(m),
                way(v.cells, v.head, None, t),
                self.mem@.len() == m.len() == v.items.len(),
                forall|j: int|
                    i <= j < t.len() ==> self.mem@[#[trigger] t[j] as int] == m[t[j] as int],
                all@.len() == i,
                forall|j: int| 0 <= j < i ==> all@[j] == #[trigger] v.items[t[j] as int],
        {
            let addr: usize = order[i];
            let ghost now = self.mem@;
            proof {
                assert(step(v.cells, None, t, i as int));
                assert(now[t[i as int] as int] == m[t[i as int] as int]);
                assert(m[addr as int].item is Some);
            }
            if let Some(item) = self.mem[addr].item.take() {
                all.push(item);
            }
            proof {
                assert forall|j: int| i < j < t.len() implies self.mem@[#[trigger] t[j] as int]
                    == m[t[j] as int] by {
                    lemma_met_falls(v.cells, v.head, t, i as int, j);
                    assert(now[t[j] as int] == m[t[j] as int]);
                }
            }
        }
        *self = HeadedList::new();
        assert(all@ =~= v.listed());
        all
    }
}

/// A list in order is met from its first element on.
pub proof fn law_headed_order<P>(v: HeadedView<P>, s: Seq<usize>)
    requires
        v.holds(s),
    ensures
        v.order() == s,
{
    lemma_linked_met(v.cells, None, s);
}

/// Putting an element on a list in order leaves it in order, with the element before the others.
pub proof fn law_headed_push<P>(v: HeadedView<P>, s: Seq<usize>, item: P)
    requires
        v.sound(),
        v.holds(s),
    ensures
        v.pushed(item).holds(s.insert(0, v.next_address())),
        v.pushed(item).listed() == v.listed().insert(0, item),
{
    let addr = v.next_address();
    let m = v.cells.push(unlinked());
    lemma_frame(v.cells, m, None, s);
    if s.contains(addr) {
        let i = s.index_of(addr);
        assert(s[i] < v.cells.len());
    }
    lemma_insert(m, None, s, 0, addr);
    law_headed_order(v, s);
    law_headed_order(v.pushed(item), s.insert(0, addr));
    assert forall|i: int| 0 <= i < s.len() implies (#[trigger] s[i]) < v.items.len() by {}
    assert(v.pushed(item).listed() =~= v.listed().insert(0, item));
}

/// Removing an element of a list in order takes it out and leaves the others in order.
pub proof fn law_headed_erase<P>(v: HeadedView<P>, s: Seq<usize>, i: int)
    requires
        v.holds(s),
        0 <= i < s.len(),
    ensures
        v.erased(s[i]).holds(s.remove(i)),
        v.erased(s[i]).listed() == v.listed().remove(i),
        v.erased(s[i]).cells[s[i] as int] == unlinked(),
{
    lemma_unlink(v.cells, None, s, i);
    assert(placed(v.cells, None, s, i));
    law_headed_order(v, s);
    law_headed_order(v.erased(s[i]), s.remove(i));
    assert(v.erased(s[i]).listed() =~= v.listed().remove(i));
}

/// Removing an element right after it has been put on a list in order leaves what was on the list.
pub proof fn law_headed_erase_undoes_push<P>(v: HeadedView<P>, s: Seq<usize>, item: P)
    requires
        v.sound(),
        v.holds(s),
    ensures
        v.pushed(item).erased(v.next_address()).holds(s),
        v.pushed(item).erased(v.next_address()).listed() == v.listed(),
{
    law_headed_push(v, s, item);
    let t = s.insert(0, v.next_address());
    law_headed_erase(v.pushed(item), t, 0);
    assert(t.remove(0) =~= s);
    assert(v.listed().insert(0, item).remove(0) =~= v.listed());
}

/// Removing an element whose link fields have been cleared makes the list forget all that it holds.
pub proof fn law_headed_erase_again<P>(v: HeadedView<P>, addr: usize)
    requires
        addr < v.cells.len(),
        v.cells[addr as int] == unlinked(),
    ensures
        v.erased(addr) == (HeadedView { head: None, ..v }),
        v.erased(addr).listed() == Seq::<P>::empty(),
{
    assert(v.erased(addr).cells =~= v.cells);
    law_headed_order(v.erased(addr), Seq::empty());
    assert(v.erased(addr).listed() =~= Seq::empty());
}

/// What a ring has in memory.
pub struct RingView<P> {
    /// The link fields of the sentinel, at address zero, and of all elements that have ever been put
    /// on the ring.
    pub cells: Seq<ListNode>,
    /// These elements themselves, from address one on.
    pub items: Seq<P>,
}

impl<P> RingView<P> {
    /// A ring that nothing has been put on.
    pub open spec fn fresh() -> RingView<P> {
        RingView {
            cells: seq![(ListNode { prev: Some(0usize), next: Some(0usize) })],
            items: Seq::empty(),
        }
    }

    /// What holds of every ring.
    pub open spec fn sound(self) -> bool {
        &&& self.cells.len() == self.items.len() + 1 <= usize::MAX
        &&& circling(self.cells)
    }

    /// The address of the next element.
    pub open spec fn next_address(self) -> usize {
        self.cells.len() as usize
    }

    /// An address that an element has.
    pub open spec fn known(self, addr: usize) -> bool {
        0 < addr < self.cells.len()
    }

    /// The element at `addr`.
    pub open spec fn item(self, addr: usize) -> P {
        self.items[addr - 1]
    }

    /// After an element has been put behind the sentinel.
    pub open spec fn pushed(self, item: P) -> RingView<P> {
        RingView {
            cells: inserted(
                self.cells.push(unlinked()),
                Some(0),
                self.next_address(),
                self.cells[0].next,
            ),
            items: self.items.push(item),
        }
    }

    /// After the neighbours that the element at `addr` names have been joined. Its own link fields
    /// stay as they are.
    pub open spec fn erased(self, addr: usize) -> RingView<P> {
        RingView { cells: bridged(self.cells, addr), ..self }
    }

    /// The addresses of the elements that are met from the sentinel on.
    pub open spec fn order(self) -> Seq<usize> {
        met(self.cells, self.cells[0].next, Some(0))
    }

    /// The elements that are met from the sentinel on.
    pub open spec fn listed(self) -> Seq<P> {
        self.order().map_values(|a: usize| self.item(a))
    }

    /// The ring is in order and holds the elements at the addresses `s`.
    pub open spec fn holds(self, s: Seq<usize>) -> bool {
        ring(self.cells, 0, s)
    }
}

/// A ring around a sentinel.
pub struct RingList<P> {
    mem: Vec<Entry<P>>,
}

impl<P> View for RingList<P> {
    type V = RingView<P>;

    closed spec fn view(&self) -> RingView<P> {
        RingView { cells: cells(self.mem@), items: stored(self.mem@.skip(1)) }
    }
}

impl<P> RingList<P> {
    pub closed spec fn wf(self) -> bool {
        full(self.mem@.skip(1)) && self@.sound()
    }

    /// What holds of every ring.
    pub proof fn lemma_sound(self)
        requires
            self.wf(),
        ensures
            self@.sound(),
    {
    }

    /// Creates an empty ring.
    pub fn new() -> (list: RingList<P>)
        ensures
            list.wf(),
            list@ == RingView::<P>::fresh(),
    {
        let mut mem: Vec<Entry<P>> = Vec::new();
        mem.push(Entry { links: ListNode::new(), item: None });
        ring_init(&mut mem, 0);
        let list = RingList { mem };
        proof {
            assert(list@.cells =~= RingView::<P>::fresh().cells);
            assert(list@.items =~= Seq::empty());
            assert(circles(list@.cells, 0));
        }
        list
    }

    /// Puts an element behind the sentinel and hands out its address.
    pub fn push_front(&mut self, item: P) -> (addr: usize)
        requires
            old(self).wf(),
        ensures
            final(self).wf(),
            addr == old(self)@.cells.len(),
            final(self)@ == old(self)@.pushed(item),
    {
        let addr: usize = self.mem.len();
        let entry = Entry { links: ListNode::new(), item: Some(item) };
        let ghost before = self.mem@;
        self.mem.push(entry);
        let ghost grown = self.mem@;
        proof {
            assert(cells(grown) =~= old(self)@.cells.push(unlinked()));
            assert(circles(old(self)@.cells, 0));
            assert(cells(grown)[0] == old(self)@.cells[0]);
        }
        ring_insert_after(&mut self.mem, 0, addr);
        proof {
            lemma_stored(grown, self.mem@);
            let after = self.mem@;
            assert forall|a: int| 0 <= a < after.skip(1).len() implies (
            #[trigger] after.skip(1)[a]).item is Some && after.skip(1)[a].item->0
                == old(self)@.items.push(item)[a] by {
                assert(after[a + 1].item == grown[a + 1].item);
                if a + 1 < addr {
                    assert(grown[a + 1] == before[a + 1]);
                    assert(before.skip(1)[a].item is Some);
                }
            }
            assert(stored(after.skip(1)) =~= old(self)@.items.push(item));
            assert(self@.cells =~= old(self)@.pushed(item).cells);
            assert(self.mem@.len() == self.mem.len());
            assert forall|a: int| 0 <= a < self@.cells.len() implies #[trigger] circles(
                self@.cells,
                a,
            ) by {
                if a < addr {
                    assert(circles(old(self)@.cells, a));
                }
            }
        }
        addr
    }

    /// Joins the neighbours that the element at `addr` names. Its own link fields stay as they are.
    pub fn erase(&mut self, addr: usize)
        requires
            old(self).wf(),
            old(self)@.known(addr),
        ensures
            final(self).wf(),
            final(self)@ == old(self)@.erased(addr),
    {
        let ghost before = self.mem@;
        proof {
            assert(circles(self@.cells, addr as int));
        }
        bridge(&mut self.mem, addr);
        proof {
            lemma_stored(before, self.mem@);
            let after = self.mem@;
            assert forall|a: int| 0 <= a < after.skip(1).len() implies (
            #[trigger] after.skip(1)[a]).item is Some by {
                assert(after[a + 1].item == before[a + 1].item);
                assert(before.skip(1)[a].item is Some);
            }
            assert(stored(after.skip(1)) =~= stored(before.skip(1))) by {
                assert forall|a: int| 0 <= a < after.skip(1).len() implies stored(after.skip(1))[a]
                    == stored(before.skip(1))[a] by {
                    assert(after[a + 1].item == before[a + 1].item);
                }
            }
            let m = cells(before);
            assert forall|a: int| 0 <= a < self@.cells.len() implies #[trigger] circles(
                self@.cells,
                a,
            ) by {
                assert(circles(m, a));
            }
        }
    }

    /// The addresses of the elements that are met from the sentinel on.
    pub fn order(&self) -> (nodes: Vec<usize>)
        requires
            self.wf(),
        ensures
            nodes@ == self@.order(),
            forall|i: int| 0 <= i < nodes@.len() ==> self@.known(#[trigger] nodes@[i]),
    {
        proof {
            assert(circles(self@.cells, 0));
            lemma_circling_way(self@.cells, self@.cells[0].next->0);
        }
        let first: ListLink = next_of(&self.mem, 0);
        let nodes: Vec<usize> = follow(&self.mem, first, Some(0));
        assert forall|i: int| 0 <= i < nodes@.len() implies self@.known(#[trigger] nodes@[i]) by {
            assert(step(self@.cells, Some(0), nodes@, i));
        }
        nodes
    }

    /// The element at `addr`.
    pub fn get(&self, addr: usize) -> (item: &P)
        requires
            self.wf(),
            self@.known(addr),
        ensures
            *item == self@.item(addr),
    {
        proof {
            assert(self.mem@.skip(1)[addr - 1].item is Some);
        }
        self.mem[addr].item.as_ref().unwrap()
    }
}

/// A ring in order is met from the sentinel on.
pub proof fn law_ring_order<P>(v: RingView<P>, s: Seq<usize>)
    requires
        v.holds(s),
    ensures
        v.order() == s,
{
    lemma_linked_met(v.cells, Some(0), s);
}

/// Putting an element on a ring in order leaves it in order, with the element before the others.
pub proof fn law_ring_push<P>(v: RingView<P>, s: Seq<usize>, item: P)
    requires
        v.sound(),
        v.holds(s),
    ensures
        v.pushed(item).holds(s.insert(0, v.next_address())),
        v.pushed(item).listed() == v.listed().insert(0, item),
{
    let addr = v.next_address();
    let m = v.cells.push(unlinked());
    lemma_frame(v.cells, m, Some(0), s);
    if s.contains(addr) {
        let i = s.index_of(addr);
        assert(s[i] < v.cells.len());
    }
    lemma_insert(m, Some(0), s, 0, addr);
    law_ring_order(v, s);
    law_ring_order(v.pushed(item), s.insert(0, addr));
    assert forall|i: int| 0 <= i < s.len() implies 0 < (#[trigger] s[i]) < v.cells.len() by {
        assert(s[i] < v.cells.len() && Some(0usize) != Some(s[i]));
    }
    assert(v.pushed(item).listed() =~= v.listed().insert(0, item));
}

/// Removing an element of a ring in order takes it out and leaves the others in order.
pub proof fn law_ring_erase<P>(v: RingView<P>, s: Seq<usize>, i: int)
    requires
        v.holds(s),
        0 <= i < s.len(),
    ensures
        v.erased(s[i]).holds(s.remove(i)),
        v.erased(s[i]).listed() == v.listed().remove(i),
{
    lemma_bridge(v.cells, Some(0), s, i);
    law_ring_order(v, s);
    law_ring_order(v.erased(s[i]), s.remove(i));
    assert(v.erased(s[i]).listed() =~= v.listed().remove(i));
}

/// Removing an element right after it has been put on a ring in order leaves what was on the ring.
pub proof fn law_ring_erase_undoes_push<P>(v: RingView<P>, s: Seq<usize>, item: P)
    requires
        v.sound(),
        v.holds(s),
    ensures
        v.pushed(item).erased(v.next_address()).holds(s),
        v.pushed(item).erased(v.next_address()).listed() == v.listed(),
{
    law_ring_push(v, s, item);
    let t = s.insert(0, v.next_address());
    law_ring_erase(v.pushed(item), t, 0);
    assert(t.remove(0) =~= s);
    assert(v.listed().insert(0, item).remove(0) =~= v.listed());
}

/// Removing an element twice in a row is removing it once.
pub proof fn law_ring_erase_idempotent<P>(v: RingView<P>, addr: usize)
    requires
        v.sound(),
        v.known(addr),
    ensures
        v.erased(addr).erased(addr) == v.erased(addr),
{
    assert(circles(v.cells, addr as int));
    assert(v.erased(addr).erased(addr).cells =~= v.erased(addr).cells);
}

/// Every list can be walked: the walk starts at the first element, goes from each element to the one
/// that it names next, and ends where none is named. The elements met are listed in that order.
pub proof fn law_tailed_walk<P>(v: TailedView<P>)
    requires
        v.sound(),
    ensures
        v.order().len() == 0 <==> v.head is None,
        v.order().len() > 0 ==> v.head == Some(v.order()[0]),
        forall|i: int|
            0 <= i < v.order().len() ==> {
                &&& (#[trigger] v.order()[i]) < v.cells.len()
                &&& v.cells[v.order()[i] as int].next == if i == v.order().len() - 1 {
                    None
                } else {
                    Some(v.order()[i + 1])
                }
            },
        v.listed().len() == v.order().len(),
        forall|i: int|
            0 <= i < v.order().len() ==> #[trigger] v.listed()[i] == v.items[v.order()[i] as int],
{
    let t = v.order();
    lemma_rising_way(v.cells, v.head);
    assert forall|i: int| 0 <= i < t.len() implies {
        &&& (#[trigger] t[i]) < v.cells.len()
        &&& v.cells[t[i] as int].next == if i == t.len() - 1 {
            None
        } else {
            Some(t[i + 1])
        }
    } by {
        assert(step(v.cells, None, t, i));
    }
}

/// Every list can be walked: the walk starts at the first element, goes from each element to the one
/// that it names next, and ends where none is named. The elements met are listed in that order.
pub proof fn law_headed_walk<P>(v: HeadedView<P>)
    requires
        v.sound(),
    ensures
        v.order().len() == 0 <==> v.head is None,
        v.order().len() > 0 ==> v.head == Some(v.order()[0]),
        forall|i: int|
            0 <= i < v.order().len() ==> {
                &&& (#[trigger] v.order()[i]) < v.cells.len()
                &&& v.cells[v.order()[i] as int].next == if i == v.order().len() - 1 {
                    None
                } else {
                    Some(v.order()[i + 1])
                }
            },
        v.listed().len() == v.order().len(),
        forall|i: int|
            0 <= i < v.order().len() ==> #[trigger] v.listed()[i] == v.items[v.order()[i] as int],
{
    let t = v.order();
    lemma_falling_way(v.cells, v.head);
    assert forall|i: int| 0 <= i < t.len() implies {
        &&& (#[trigger] t[i]) < v.cells.len()
        &&& v.cells[t[i] as int].next == if i == t.len() - 1 {
            None
        } else {
            Some(t[i + 1])
        }
    } by {
        assert(step(v.cells, None, t, i));
    }
}

/// Every ring can be walked: the walk starts at the element that the sentinel names, goes from each element to the one
/// that it names next, and ends at the sentinel. The elements met are listed in that order.
pub proof fn law_ring_walk<P>(v: RingView<P>)
    requires
        v.sound(),
    ensures
        v.order().len() == 0 <==> v.cells[0].next == Some(0usize),
        v.order().len() > 0 ==> v.cells[0].next == Some(v.order()[0]),
        forall|i: int|
            0 <= i < v.order().len() ==> {
                &&& (#[trigger] v.order()[i]) < v.cells.len()
                &&& v.cells[v.order()[i] as int].next == if i == v.order().len() - 1 {
                    Some(0usize)
                } else {
                    Some(v.order()[i + 1])
                }
            },
        v.listed().len() == v.order().len(),
        forall|i: int|
            0 <= i < v.order().len() ==> #[trigger] v.listed()[i] == v.items[v.order()[i] - 1],
{
    let t = v.order();
    assert(circles(v.cells, 0));
    lemma_circling_way(v.cells, v.cells[0].next->0);
    assert forall|i: int| 0 <= i < t.len() implies {
        &&& (#[trigger] t[i]) < v.cells.len()
        &&& v.cells[t[i] as int].next == if i == t.len() - 1 {
            Some(0usize)
        } else {
            Some(t[i + 1])
        }
    } by {
        assert(step(v.cells, Some(0usize), t, i));
    }
    if t.len() > 0 {
        assert(step(v.cells, Some(0usize), t, 0));
    }
}

/// An element that is put on any list gets the next address, keeps its value there, is the last one,
/// and is named by the one that was last. The first one changes only where there was no last one.
pub proof fn law_tailed_push_links<P>(v: TailedView<P>, item: P)
    requires
        v.sound(),
        v.items.len() < usize::MAX,
    ensures
        v.pushed(item).items == v.items.push(item),
        v.pushed(item).cells.len() == v.cells.len() + 1,
        v.pushed(item).tail == Some(v.items.len() as usize),
        v.pushed(item).head == if v.tail is None {
            Some(v.items.len() as usize)
        } else {
            v.head
        },
        v.pushed(item).cells[v.cells.len() as int].prev == v.tail,
        v.pushed(item).cells[v.cells.len() as int].next is None,
        forall|b: int|
            0 <= b < v.cells.len() ==> (#[trigger] v.pushed(item).cells[b]).prev == v.cells[b].prev,
        forall|b: int|
            0 <= b < v.cells.len() ==> (#[trigger] v.pushed(item).cells[b]).next == if v.tail
                == Some(b as usize) {
                Some(v.items.len() as usize)
            } else {
                v.cells[b].next
            },
{
}

/// Removing from any list: the two that the element names come to name each other, the ends move where
/// it names none, and its own fields are cleared. Nothing else changes.
pub proof fn law_tailed_erase_links<P>(v: TailedView<P>, addr: usize)
    requires
        v.sound(),
        addr < v.cells.len(),
    ensures
        v.erased(addr).items == v.items,
        v.erased(addr).cells.len() == v.cells.len(),
        v.erased(addr).cells[addr as int].prev is None,
        v.erased(addr).cells[addr as int].next is None,
        v.erased(addr).head == if v.cells[addr as int].prev is None {
            v.cells[addr as int].next
        } else {
            v.head
        },
        v.erased(addr).tail == if v.cells[addr as int].next is None {
            v.cells[addr as int].prev
        } else {
            v.tail
        },
        forall|b: int|
            0 <= b < v.cells.len() && b != addr ==> (#[trigger] v.erased(addr).cells[b]).next
                == if v.cells[addr as int].prev == Some(b as usize) {
                v.cells[addr as int].next
            } else {
                v.cells[b].next
            },
        forall|b: int|
            0 <= b < v.cells.len() && b != addr ==> (#[trigger] v.erased(addr).cells[b]).prev
                == if v.cells[addr as int].next == Some(b as usize) {
                v.cells[addr as int].prev
            } else {
                v.cells[b].prev
            },
{
    assert(rises(v.cells, addr as int));
}

/// An emptied list lists nothing and keeps what is in memory.
pub proof fn law_tailed_emptied<P>(v: TailedView<P>)
    ensures
        v.emptied().listed().len() == 0,
        v.emptied().head is None,
        v.emptied().tail is None,
        v.emptied().cells == v.cells,
        v.emptied().items == v.items,
        TailedView::<P>::fresh().listed().len() == 0,
        TailedView::<P>::fresh().items.len() == 0,
        TailedView::<P>::fresh().sound(),
{
    law_tailed_order(v.emptied(), Seq::empty());
    law_tailed_order(TailedView::<P>::fresh(), Seq::empty());
}

/// An element that is put on any list gets the next address, keeps its value there, is the first one,
/// and is named by the one that was first.
pub proof fn law_headed_push_links<P>(v: HeadedView<P>, item: P)
    requires
        v.sound(),
        v.items.len() < usize::MAX,
    ensures
        v.pushed(item).items == v.items.push(item),
        v.pushed(item).cells.len() == v.cells.len() + 1,
        v.pushed(item).head == Some(v.items.len() as usize),
        v.pushed(item).cells[v.cells.len() as int].prev is None,
        v.pushed(item).cells[v.cells.len() as int].next == v.head,
        forall|b: int|
            0 <= b < v.cells.len() ==> (#[trigger] v.pushed(item).cells[b]).next == v.cells[b].next,
        forall|b: int|
            0 <= b < v.cells.len() ==> (#[trigger] v.pushed(item).cells[b]).prev == if v.head
                == Some(b as usize) {
                Some(v.items.len() as usize)
            } else {
                v.cells[b].prev
            },
        HeadedView::<P>::fresh().items.len() == 0,
        HeadedView::<P>::fresh().head is None,
        HeadedView::<P>::fresh().sound(),
{
}

/// Removing from any list: the two that the element names come to name each other, the first one moves
/// where it names none before it, and its own fields are cleared. Nothing else changes.
pub proof fn law_headed_erase_links<P>(v: HeadedView<P>, addr: usize)
    requires
        v.sound(),
        addr < v.cells.len(),
    ensures
        v.erased(addr).items == v.items,
        v.erased(addr).cells.len() == v.cells.len(),
        v.erased(addr).cells[addr as int].prev is None,
        v.erased(addr).cells[addr as int].next is None,
        v.erased(addr).head == if v.cells[addr as int].prev is None {
            v.cells[addr as int].next
        } else {
            v.head
        },
        forall|b: int|
            0 <= b < v.cells.len() && b != addr ==> (#[trigger] v.erased(addr).cells[b]).next
                == if v.cells[addr as int].prev == Some(b as usize) {
                v.cells[addr as int].next
            } else {
                v.cells[b].next
            },
        forall|b: int|
            0 <= b < v.cells.len() && b != addr ==> (#[trigger] v.erased(addr).cells[b]).prev
                == if v.cells[addr as int].next == Some(b as usize) {
                v.cells[addr as int].prev
            } else {
                v.cells[b].prev
            },
{
    assert(falls(v.cells, addr as int));
}

/// An element that is put on any ring gets the next address, keeps its value there, and comes to stand
/// between the sentinel and the element that the sentinel named.
pub proof fn law_ring_push_links<P>(v: RingView<P>, item: P)
    requires
        v.sound(),
        v.cells.len() < usize::MAX,
    ensures
        v.next_address() == v.cells.len(),
        v.pushed(item).items == v.items.push(item),
        v.pushed(item).item(v.next_address()) == item,
        v.pushed(item).cells.len() == v.cells.len() + 1,
        v.pushed(item).cells[v.cells.len() as int].prev == Some(0usize),
        v.pushed(item).cells[v.cells.len() as int].next == v.cells[0].next,
        forall|b: int|
            0 <= b < v.cells.len() ==> (#[trigger] v.pushed(item).cells[b]).next == if b == 0 {
                Some(v.cells.len() as usize)
            } else {
                v.cells[b].next
            },
        forall|b: int|
            0 <= b < v.cells.len() ==> (#[trigger] v.pushed(item).cells[b]).prev
                == if v.cells[0].next == Some(b as usize) {
                Some(v.cells.len() as usize)
            } else {
                v.cells[b].prev
            },
        forall|a: usize| #[trigger] v.known(a) <==> 1 <= a <= v.items.len(),
        RingView::<P>::fresh().items.len() == 0,
        RingView::<P>::fresh().sound(),
        RingView::<P>::fresh().order().len() == 0,
{
    assert(circles(v.cells, 0));
    let f = RingView::<P>::fresh();
    assert(circles(f.cells, 0));
    law_ring_order(f, Seq::empty());
}

/// Removing from any ring: the two that the element names come to name each other. Its own fields and
/// all others stay.
pub proof fn law_ring_erase_links<P>(v: RingView<P>, addr: usize)
    requires
        v.sound(),
        addr < v.cells.len(),
    ensures
        v.erased(addr).items == v.items,
        v.erased(addr).cells.len() == v.cells.len(),
        forall|b: int|
            0 <= b < v.cells.len() ==> (#[trigger] v.erased(addr).cells[b]).next
                == if v.cells[addr as int].prev == Some(b as usize) {
                v.cells[addr as int].next
            } else {
                v.cells[b].next
            },
        forall|b: int|
            0 <= b < v.cells.len() ==> (#[trigger] v.erased(addr).cells[b]).prev
                == if v.cells[addr as int].next == Some(b as usize) {
                v.cells[addr as int].prev
            } else {
                v.cells[b].prev
            },
{
    assert(circles(v.cells, addr as int));
}

} // verus!
