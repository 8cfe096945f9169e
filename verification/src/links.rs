//! Doubly linked lists threaded through link fields that the elements embed.
//!
//! Memory is a vector of elements and an address is an index into it. What a list holds is
//! described by the sequence of its elements' addresses, first element first; `linked` says that
//! the link fields in memory spell out such a sequence.
use vstd::prelude::*;

verus! {

/// The address of an element, or null.
pub type ListLink = Option<usize>;

/// The link fields that a list element embeds.
#[derive(Clone, Copy, Debug, PartialEq, Eq, Structural)]
pub struct ListNode {
    pub prev: ListLink,
    pub next: ListLink,
}

/// The link fields of an element that is on no list.
pub open spec fn unlinked() -> ListNode {
    ListNode { prev: None, next: None }
}

impl ListNode {
    /// Creates the link fields of an element that is on no list.
    pub fn new() -> (node: ListNode)
        ensures
            node == unlinked(),
    {
        ListNode { prev: None, next: None }
    }
}

/// An element type with embedded link fields.
pub trait Embeds: Sized {
    /// The embedded link fields.
    spec fn links(self) -> ListNode;

    /// The element with its link fields replaced and everything else kept.
    spec fn relinked(self, links: ListNode) -> Self;

    /// Replacing the link fields behaves as a field update.
    proof fn relinking(self, a: ListNode, b: ListNode)
        ensures
            self.relinked(a).links() == a,
            self.relinked(a).relinked(b) == self.relinked(b),
            self.relinked(self.links()) == self,
    ;

    fn get_links(&self) -> (links: ListNode)
        ensures
            links == self.links(),
    ;

    fn set_links(&mut self, links: ListNode)
        ensures
            *final(self) == old(self).relinked(links),
    ;
}

impl Embeds for ListNode {
    open spec fn links(self) -> ListNode {
        self
    }

    open spec fn relinked(self, links: ListNode) -> Self {
        links
    }

    proof fn relinking(self, a: ListNode, b: ListNode) {
    }

    fn get_links(&self) -> (links: ListNode) {
        *self
    }

    fn set_links(&mut self, links: ListNode) {
        *self = links;
    }
}

/// The link fields in memory, address by address.
pub open spec fn cells<T: Embeds>(mem: Seq<T>) -> Seq<ListNode> {
    Seq::new(mem.len(), |a: int| mem[a].links())
}

/// Two memories of the same size whose elements differ at most in their link fields.
pub open spec fn same_payload<T: Embeds>(before: Seq<T>, after: Seq<T>) -> bool {
    &&& before.len() == after.len()
    &&& forall|a: int|
        0 <= a < before.len() ==> #[trigger] after[a] == before[a].relinked(after[a].links())
}

/// An address that points into the memory `m`, or null.
pub open spec fn valid(m: Seq<ListNode>, link: ListLink) -> bool {
    link matches Some(a) ==> a < m.len()
}

/// `m` with the `next` field at `at` replaced; `m` itself for a null `at`.
pub open spec fn with_next(m: Seq<ListNode>, at: ListLink, next: ListLink) -> Seq<ListNode> {
    match at {
        Some(a) => m.update(a as int, ListNode { prev: m[a as int].prev, next }),
        None => m,
    }
}

/// `m` with the `prev` field at `at` replaced; `m` itself for a null `at`.
pub open spec fn with_prev(m: Seq<ListNode>, at: ListLink, prev: ListLink) -> Seq<ListNode> {
    match at {
        Some(a) => m.update(a as int, ListNode { prev, next: m[a as int].next }),
        None => m,
    }
}

/// `m` after `node` has been put between the neighbours `p` and `n`.
pub open spec fn inserted(m: Seq<ListNode>, p: ListLink, node: usize, n: ListLink) -> Seq<
    ListNode,
> {
    with_prev(
        with_next(m.update(node as int, ListNode { prev: p, next: n }), p, Some(node)),
        n,
        Some(node),
    )
}

/// `m` after the neighbours of `node` have been joined to each other.
pub open spec fn bridged(m: Seq<ListNode>, node: usize) -> Seq<ListNode> {
    let p = m[node as int].prev;
    let n = m[node as int].next;
    with_prev(with_next(m, p, n), n, p)
}

/// The element at position `i` of a list, `end` on either side of it.
pub open spec fn at(s: Seq<usize>, end: ListLink, i: int) -> ListLink {
    if 0 <= i < s.len() {
        Some(s[i])
    } else {
        end
    }
}

/// The link fields of the element at position `i` name its neighbours in the list `s`.
pub open spec fn placed(m: Seq<ListNode>, end: ListLink, s: Seq<usize>, i: int) -> bool {
    &&& m[s[i] as int].prev == at(s, end, i - 1)
    &&& m[s[i] as int].next == at(s, end, i + 1)
}

/// The link fields in `m` spell out the list `s`. `end` is what stands before the first and
/// behind the last element: null, or the address of a sentinel that closes the list to a ring.
pub open spec fn linked(m: Seq<ListNode>, end: ListLink, s: Seq<usize>) -> bool {
    &&& s.no_duplicates()
    &&& forall|i: int| 0 <= i < s.len() ==> (#[trigger] s[i]) < m.len() && end != Some(s[i])
    &&& forall|i: int| 0 <= i < s.len() ==> #[trigger] placed(m, end, s, i)
    &&& end matches Some(h) ==> {
        &&& h < m.len()
        &&& m[h as int].next == at(s, end, 0)
        &&& m[h as int].prev == at(s, end, s.len() - 1)
    }
}

pub broadcast proof fn lemma_relinked<T: Embeds>(x: T, links: ListNode)
    ensures
        (#[trigger] x.relinked(links)).links() == links,
{
    x.relinking(links, links);
}

pub proof fn lemma_same_payload_refl<T: Embeds>(mem: Seq<T>)
    ensures
        same_payload(mem, mem),
{
    assert forall|a: int| 0 <= a < mem.len() implies #[trigger] mem[a] == mem[a].relinked(
        mem[a].links(),
    ) by {
        mem[a].relinking(mem[a].links(), mem[a].links());
    }
}

pub proof fn lemma_same_payload_trans<T: Embeds>(x: Seq<T>, y: Seq<T>, z: Seq<T>)
    requires
        same_payload(x, y),
        same_payload(y, z),
    ensures
        same_payload(x, z),
{
    assert forall|a: int| 0 <= a < x.len() implies #[trigger] z[a] == x[a].relinked(
        z[a].links(),
    ) by {
        assert(y[a] == x[a].relinked(y[a].links()));
        x[a].relinking(y[a].links(), z[a].links());
    }
}

/// Putting a new element at position `i` of a list.
pub proof fn lemma_insert(
    m: Seq<ListNode>,
    end: ListLink,
    s: Seq<usize>,
    i: int,
    node: usize,
)
    requires
        linked(m, end, s),
        0 <= i <= s.len(),
        node < m.len(),
        !s.contains(node),
        end != Some(node),
    ensures
        linked(inserted(m, at(s, end, i - 1), node, at(s, end, i)), end, s.insert(i, node)),
{
    let m2 = inserted(m, at(s, end, i - 1), node, at(s, end, i));
    let t = s.insert(i, node);
    assert forall|j: int, k: int| 0 <= j < k < t.len() implies t[j] != t[k] by {
        let j0 = if j < i { j } else { j - 1 };
        let k0 = if k < i { k } else { k - 1 };
        if j != i {
            assert(t[j] == s[j0]);
        }
        if k != i {
            assert(t[k] == s[k0]);
        }
    }
    assert forall|j: int| 0 <= j < t.len() implies (#[trigger] t[j]) < m2.len() && end != Some(
        t[j],
    ) by {
        if j != i {
            let j0 = if j < i { j } else { j - 1 };
            assert(t[j] == s[j0]);
        }
    }
    assert forall|j: int| 0 <= j < t.len() implies #[trigger] placed(m2, end, t, j) by {
        if j != i {
            let j0 = if j < i { j } else { j - 1 };
            assert(t[j] == s[j0]);
            assert(placed(m, end, s, j0));
            assert(s[j0] != node);
        }
    }
}

/// Joining the neighbours of the element at position `i` takes it out of the list.
pub proof fn lemma_bridge(m: Seq<ListNode>, end: ListLink, s: Seq<usize>, i: int)
    requires
        linked(m, end, s),
        0 <= i < s.len(),
    ensures
        linked(bridged(m, s[i]), end, s.remove(i)),
        !s.remove(i).contains(s[i]),
{
    let m2 = bridged(m, s[i]);
    let t = s.remove(i);
    assert(placed(m, end, s, i));
    assert forall|j: int| 0 <= j < t.len() implies (#[trigger] t[j]) < m2.len() && end != Some(
        t[j],
    ) && t[j] != s[i] by {
        let j0 = if j < i { j } else { j + 1 };
        assert(t[j] == s[j0]);
    }
    assert forall|j: int| 0 <= j < t.len() implies #[trigger] placed(m2, end, t, j) by {
        let j0 = if j < i { j } else { j + 1 };
        assert(t[j] == s[j0]);
        assert(placed(m, end, s, j0));
    }
}

/// Writing outside a list leaves the list alone.
pub proof fn lemma_frame(m: Seq<ListNode>, m2: Seq<ListNode>, end: ListLink, s: Seq<usize>)
    requires
        linked(m, end, s),
        m2.len() >= m.len(),
        forall|i: int| 0 <= i < s.len() ==> m2[#[trigger] s[i] as int] == m[s[i] as int],
        end matches Some(h) ==> m2[h as int] == m[h as int],
    ensures
        linked(m2, end, s),
{
    assert forall|i: int| 0 <= i < s.len() implies #[trigger] placed(m2, end, s, i) by {
        assert(placed(m, end, s, i));
    }
}

/// The link fields and the first element determine the list.
pub proof fn lemma_unique(m: Seq<ListNode>, end: ListLink, s: Seq<usize>, t: Seq<usize>)
    requires
        linked(m, end, s),
        linked(m, end, t),
        at(s, end, 0) == at(t, end, 0),
    ensures
        s == t,
{
    let k = if s.len() < t.len() { s.len() } else { t.len() };
    lemma_common_prefix(m, end, s, t, k);
    assert(at(s, end, k as int) == at(t, end, k as int));
    if s.len() < t.len() {
        assert(end == Some(t[k as int]));
    } else if t.len() < s.len() {
        assert(end == Some(s[k as int]));
    }
    assert(s =~= t);
}

proof fn lemma_common_prefix(
    m: Seq<ListNode>,
    end: ListLink,
    s: Seq<usize>,
    t: Seq<usize>,
    k: nat,
)
    requires
        linked(m, end, s),
        linked(m, end, t),
        at(s, end, 0) == at(t, end, 0),
        k <= s.len(),
        k <= t.len(),
    ensures
        forall|j: int| 0 <= j < k ==> s[j] == t[j],
        at(s, end, k as int) == at(t, end, k as int),
    decreases k,
{
    if k > 0 {
        let j = (k - 1) as nat;
        lemma_common_prefix(m, end, s, t, j);
        assert(s[j as int] == t[j as int]);
        assert(placed(m, end, s, j as int));
        assert(placed(m, end, t, j as int));
    }
}

/// Reads the `next` field at `node`.
pub fn next_of<T: Embeds>(mem: &Vec<T>, node: usize) -> (next: ListLink)
    requires
        node < mem.len(),
    ensures
        next == cells(mem@)[node as int].next,
{
    mem[node].get_links().next
}

/// Reads the `prev` field at `node`.
pub fn prev_of<T: Embeds>(mem: &Vec<T>, node: usize) -> (prev: ListLink)
    requires
        node < mem.len(),
    ensures
        prev == cells(mem@)[node as int].prev,
{
    mem[node].get_links().prev
}

/// Writes both link fields at `node`.
pub fn put_links<T: Embeds>(mem: &mut Vec<T>, node: usize, links: ListNode)
    requires
        node < old(mem).len(),
    ensures
        cells(final(mem)@) == cells(old(mem)@).update(node as int, links),
        same_payload(old(mem)@, final(mem)@),
{
    broadcast use lemma_relinked;

    proof {
        lemma_same_payload_refl(mem@);
    }
    mem[node].set_links(links);
}

/// Writes the `next` field at `at`, unless `at` is null.
pub fn put_next<T: Embeds>(mem: &mut Vec<T>, at: ListLink, next: ListLink)
    requires
        valid(cells(old(mem)@), at),
    ensures
        cells(final(mem)@) == with_next(cells(old(mem)@), at, next),
        same_payload(old(mem)@, final(mem)@),
{
    proof {
        lemma_same_payload_refl(mem@);
    }
    if let Some(a) = at {
        let prev: ListLink = prev_of(mem, a);
        put_links(mem, a, ListNode { prev, next });
    }
}

/// Writes the `prev` field at `at`, unless `at` is null.
pub fn put_prev<T: Embeds>(mem: &mut Vec<T>, at: ListLink, prev: ListLink)
    requires
        valid(cells(old(mem)@), at),
    ensures
        cells(final(mem)@) == with_prev(cells(old(mem)@), at, prev),
        same_payload(old(mem)@, final(mem)@),
{
    proof {
        lemma_same_payload_refl(mem@);
    }
    if let Some(a) = at {
        let next: ListLink = next_of(mem, a);
        put_links(mem, a, ListNode { prev, next });
    }
}

/// Puts `node` between the neighbours `p` and `n`.
pub fn insert_between<T: Embeds>(mem: &mut Vec<T>, p: ListLink, node: usize, n: ListLink)
    requires
        node < old(mem).len(),
        valid(cells(old(mem)@), p),
        valid(cells(old(mem)@), n),
    ensures
        cells(final(mem)@) == inserted(cells(old(mem)@), p, node, n),
        same_payload(old(mem)@, final(mem)@),
{
    put_links(mem, node, ListNode { prev: p, next: n });
    let ghost m1 = mem@;
    put_next(mem, p, Some(node));
    let ghost m2 = mem@;
    put_prev(mem, n, Some(node));
    proof {
        lemma_same_payload_trans(old(mem)@, m1, m2);
        lemma_same_payload_trans(old(mem)@, m2, mem@);
    }
}

/// Joins the neighbours of `node` to each other. The fields of `node` itself stay as they are.
pub fn bridge<T: Embeds>(mem: &mut Vec<T>, node: usize)
    requires
        node < old(mem).len(),
        valid(cells(old(mem)@), cells(old(mem)@)[node as int].prev),
        valid(cells(old(mem)@), cells(old(mem)@)[node as int].next),
    ensures
        cells(final(mem)@) == bridged(cells(old(mem)@), node),
        same_payload(old(mem)@, final(mem)@),
{
    let p: ListLink = prev_of(mem, node);
    let n: ListLink = next_of(mem, node);
    put_next(mem, p, n);
    let ghost m1 = mem@;
    put_prev(mem, n, p);
    proof {
        lemma_same_payload_trans(old(mem)@, m1, mem@);
    }
}

/// Setting one link field changes that field of that element and nothing else.
pub proof fn law_one_field_is_set(m: Seq<ListNode>, at: usize, link: ListLink)
    requires
        at < m.len(),
    ensures
        with_next(m, Some(at), link).len() == m.len(),
        with_next(m, Some(at), link)[at as int].next == link,
        with_next(m, Some(at), link)[at as int].prev == m[at as int].prev,
        with_prev(m, Some(at), link).len() == m.len(),
        with_prev(m, Some(at), link)[at as int].prev == link,
        with_prev(m, Some(at), link)[at as int].next == m[at as int].next,
        forall|b: int|
            0 <= b < m.len() && b != at ==> #[trigger] with_next(m, Some(at), link)[b] == m[b],
        forall|b: int|
            0 <= b < m.len() && b != at ==> #[trigger] with_prev(m, Some(at), link)[b] == m[b],
        with_next(m, None, link) == m,
        with_prev(m, None, link) == m,
{
}

/// An element that is put between two places names both, and each of the two that is an element names
/// it. No other field changes.
pub proof fn law_insertion_joins_neighbours(
    m: Seq<ListNode>,
    p: ListLink,
    node: usize,
    n: ListLink,
)
    requires
        node < m.len(),
        valid(m, p),
        valid(m, n),
        p != Some(node),
        n != Some(node),
        m.len() <= usize::MAX + 1,
    ensures
        inserted(m, p, node, n).len() == m.len(),
        inserted(m, p, node, n)[node as int].prev == p,
        inserted(m, p, node, n)[node as int].next == n,
        forall|b: int|
            0 <= b < m.len() && b != node ==> (#[trigger] inserted(m, p, node, n)[b]).next
                == if p == Some(b as usize) {
                Some(node)
            } else {
                m[b].next
            },
        forall|b: int|
            0 <= b < m.len() && b != node ==> (#[trigger] inserted(m, p, node, n)[b]).prev
                == if n == Some(b as usize) {
                Some(node)
            } else {
                m[b].prev
            },
{
}

/// An element is passed over: the one that it names behind it comes to name the one that it names ahead
/// of it, and the other way round. No other field changes.
pub proof fn law_bridge_joins_neighbours(m: Seq<ListNode>, node: usize)
    requires
        node < m.len(),
        m.len() <= usize::MAX + 1,
        valid(m, m[node as int].prev),
        valid(m, m[node as int].next),
    ensures
        bridged(m, node).len() == m.len(),
        forall|b: int|
            0 <= b < m.len() ==> (#[trigger] bridged(m, node)[b]).next == if m[node as int].prev
                == Some(b as usize) {
                m[node as int].next
            } else {
                m[b].next
            },
        forall|b: int|
            0 <= b < m.len() ==> (#[trigger] bridged(m, node)[b]).prev == if m[node as int].next
                == Some(b as usize) {
                m[node as int].prev
            } else {
                m[b].prev
            },
{
}

/// The elements of a list that is linked without a sentinel are distinct, and each names the one before
/// it and the one after it; the first names none before it and the last none after it.
pub proof fn law_linked_elements_name_neighbours(m: Seq<ListNode>, s: Seq<usize>)
    ensures
        linked(m, None, s) <==> {
            &&& s.no_duplicates()
            &&& forall|i: int|
                0 <= i < s.len() ==> {
                    &&& (#[trigger] s[i]) < m.len()
                    &&& m[s[i] as int].prev == if i == 0 {
                        None
                    } else {
                        Some(s[i - 1])
                    }
                    &&& m[s[i] as int].next == if i == s.len() - 1 {
                        None
                    } else {
                        Some(s[i + 1])
                    }
                }
        },
{
    if linked(m, None, s) {
        assert forall|i: int| 0 <= i < s.len() implies {
            &&& (#[trigger] s[i]) < m.len()
            &&& m[s[i] as int].prev == if i == 0 {
                None
            } else {
                Some(s[i - 1])
            }
            &&& m[s[i] as int].next == if i == s.len() - 1 {
                None
            } else {
                Some(s[i + 1])
            }
        } by {
            assert(placed(m, None, s, i));
        }
    }
}

/// The link fields of memory are those of its elements, address by address; elements that keep what they
/// carry differ in nothing but their link fields.
pub proof fn law_cells_are_the_link_fields<T: Embeds>(before: Seq<T>, after: Seq<T>)
    requires
        same_payload(before, after),
    ensures
        cells(before).len() == before.len(),
        forall|a: int| 0 <= a < before.len() ==> #[trigger] cells(before)[a] == before[a].links(),
        after.len() == before.len(),
        forall|a: int|
            0 <= a < before.len() ==> #[trigger] before[a] == after[a].relinked(before[a].links()),
{
    assert forall|a: int| 0 <= a < before.len() implies #[trigger] before[a] == after[a].relinked(
        before[a].links(),
    ) by {
        assert(after[a] == before[a].relinked(after[a].links()));
        before[a].relinking(after[a].links(), before[a].links());
    }
}

} // verus!
