//! Lists that own their elements. An element is stored at an address that stays the same for as long
//! as it is on the list and is never given to another one.
pub mod ends;
pub mod head;
pub mod ring;
pub mod trusting;

use vstd::prelude::*;

use crate::links::{cells, lemma_frame, linked, Embeds, ListLink, ListNode};

verus! {

/// A place for an element: its link fields, and the element itself while it is on the list.
pub struct Entry<P> {
    pub links: ListNode,
    pub item: Option<P>,
}

impl<P> Embeds for Entry<P> {
    open spec fn links(self) -> ListNode {
        self.links
    }

    open spec fn relinked(self, links: ListNode) -> Self {
        Entry { links, item: self.item }
    }

    proof fn relinking(self, a: ListNode, b: ListNode) {
    }

    fn get_links(&self) -> (links: ListNode) {
        self.links
    }

    fn set_links(&mut self, links: ListNode) {
        self.links = links;
    }
}

/// The elements at the addresses `s`.
pub open spec fn items<P>(mem: Seq<Entry<P>>, s: Seq<usize>) -> Seq<P> {
    Seq::new(s.len(), |i: int| mem[s[i] as int].item->0)
}

/// The places in use are exactly those at the addresses `s`.
pub open spec fn occupied<P>(mem: Seq<Entry<P>>, s: Seq<usize>) -> bool {
    &&& mem.len() <= usize::MAX
    &&& forall|a: int|
        0 <= a < mem.len() ==> ((#[trigger] mem[a]).item is Some <==> s.contains(a as usize))
}

/// An element that can be searched for by a key.
pub trait Matches<K>: Sized {
    spec fn matches(self, key: K) -> bool;

    fn is_match(&self, key: &K) -> (found: bool)
        ensures
            found == self.matches(*key),
    ;
}

/// The elements that match `key`.
pub open spec fn matched<K, P: Matches<K>>(key: K) -> spec_fn(P) -> bool {
    |p: P| p.matches(key)
}

/// The elements that do not match `key`.
pub open spec fn unmatched<K, P: Matches<K>>(key: K) -> spec_fn(P) -> bool {
    |p: P| !p.matches(key)
}

/// The position of the first element that matches `key`, or the length of `s` if none does.
pub open spec fn position<K, P: Matches<K>>(s: Seq<P>, key: K) -> int
    decreases s.len(),
{
    if s.len() == 0 || s[0].matches(key) {
        0
    } else {
        1 + position(s.skip(1), key)
    }
}

/// No element before `position` matches, and the one at it does.
pub proof fn lemma_position<K, P: Matches<K>>(s: Seq<P>, key: K)
    ensures
        0 <= position(s, key) <= s.len(),
        position(s, key) < s.len() ==> s[position(s, key)].matches(key),
        forall|j: int| 0 <= j < position(s, key) ==> !(#[trigger] s[j]).matches(key),
    decreases s.len(),
{
    if s.len() > 0 && !s[0].matches(key) {
        let t = s.skip(1);
        lemma_position(t, key);
        assert forall|j: int| 0 <= j < position(s, key) implies !(#[trigger] s[j]).matches(key) by {
            if j > 0 {
                assert(s[j] == t[j - 1]);
            }
        }
    }
}

/// A first match is at `position`.
pub proof fn lemma_position_is<K, P: Matches<K>>(s: Seq<P>, key: K, i: int)
    requires
        0 <= i <= s.len(),
        i < s.len() ==> s[i].matches(key),
        forall|j: int| 0 <= j < i ==> !(#[trigger] s[j]).matches(key),
    ensures
        position(s, key) == i,
{
    lemma_position(s, key);
    let p = position(s, key);
    if p < i {
        assert(!s[p].matches(key));
    }
    if i < p {
        assert(!s[i].matches(key));
    }
}

/// There are no more distinct addresses than have been issued.
pub proof fn lemma_distinct_below(s: Seq<usize>, n: nat)
    requires
        s.no_duplicates(),
        forall|i: int| 0 <= i < s.len() ==> (#[trigger] s[i]) < n,
    ensures
        s.len() <= n,
    decreases n,
{
    if n > 0 {
        let top = (n - 1) as usize;
        if s.contains(top) && n - 1 <= usize::MAX {
            let i = s.index_of(top);
            let t = s.remove(i);
            assert forall|j: int| 0 <= j < t.len() implies (#[trigger] t[j]) < n - 1 by {
                let j0 = if j < i { j } else { j + 1 };
                assert(t[j] == s[j0]);
            }
            lemma_distinct_below(t, (n - 1) as nat);
        } else {
            lemma_distinct_below(s, (n - 1) as nat);
        }
    } else if s.len() > 0 {
        assert(s[0] < n);
    }
}

/// New places at the end of memory leave a list alone.
pub proof fn lemma_grow<T: Embeds>(mem: Seq<T>, new: T, end: ListLink, s: Seq<usize>)
    requires
        linked(cells(mem), end, s),
    ensures
        linked(cells(mem.push(new)), end, s),
        !s.contains(mem.len() as usize) || mem.len() > usize::MAX,
{
    lemma_frame(cells(mem), cells(mem.push(new)), end, s);
    if s.contains(mem.len() as usize) && mem.len() <= usize::MAX {
        let i = s.index_of(mem.len() as usize);
        assert(s[i] < mem.len());
    }
}

/// An address behind others that differ from it is found there, and taking it out again leaves the
/// others.
pub proof fn lemma_last_of_fresh(s: Seq<usize>, x: usize)
    requires
        forall|i: int| 0 <= i < s.len() ==> (#[trigger] s[i]) != x,
    ensures
        s.push(x).contains(x),
        s.push(x).index_of(x) == s.len(),
        s.push(x).remove(s.len() as int) == s,
{
    let t = s.push(x);
    assert(t[s.len() as int] == x);
    let i = t.index_of(x);
    assert(t[i] == x);
    if i < s.len() {
        assert(s[i] == x);
    }
    assert(t.remove(s.len() as int) =~= s);
}

/// An address in front of others that differ from it is found there, and taking it out again leaves
/// the others.
pub proof fn lemma_first_of_fresh(s: Seq<usize>, x: usize)
    requires
        forall|i: int| 0 <= i < s.len() ==> (#[trigger] s[i]) != x,
    ensures
        s.insert(0, x).contains(x),
        s.insert(0, x).index_of(x) == 0,
        s.insert(0, x).remove(0) == s,
{
    let t = s.insert(0, x);
    assert(t[0] == x);
    let i = t.index_of(x);
    assert(t[i] == x);
    if i > 0 {
        assert(s[i - 1] == x);
    }
    assert(t.remove(0) =~= s);
}

/// An address that has been taken out is gone.
pub proof fn lemma_gone_once(s: Seq<usize>, x: usize)
    requires
        s.no_duplicates(),
        s.contains(x),
    ensures
        !s.remove(s.index_of(x)).contains(x),
{
    let i = s.index_of(x);
    let t = s.remove(i);
    if t.contains(x) {
        let j = t.index_of(x);
        assert(t[j] == s[if j < i { j } else { j + 1 }]);
    }
}

/// Relinking an element sets its link fields and keeps what it holds.
pub proof fn law_relinking_keeps_the_payload<P>(x: Entry<P>, links: ListNode)
    ensures
        x.relinked(links).links().prev == links.prev,
        x.relinked(links).links().next == links.next,
        x.relinked(links).item == x.item,
{
}

/// The elements at addresses are those that memory holds there, in the order of the addresses.
pub proof fn law_items_follow_the_addresses<P>(mem: Seq<Entry<P>>, s: Seq<usize>)
    requires
        occupied(mem, s),
        forall|i: int| 0 <= i < s.len() ==> (#[trigger] s[i]) < mem.len(),
    ensures
        items(mem, s).len() == s.len(),
        forall|i: int|
            0 <= i < s.len() ==> mem[s[i] as int].item == Some(#[trigger] items(mem, s)[i]),
        forall|a: usize|
            a < mem.len() && !s.contains(a) ==> (#[trigger] mem[a as int]).item is None,
{
    assert forall|i: int| 0 <= i < s.len() implies mem[s[i] as int].item == Some(
        #[trigger] items(mem, s)[i],
    ) by {
        assert(s.contains(s[i]));
        assert(mem[s[i] as int].item is Some <==> s.contains(s[i] as int as usize));
    }
}

/// Taking out what matches a key keeps exactly what does not, in order.
pub proof fn law_matching_splits<K, P: Matches<K>>(s: Seq<P>, key: K)
    ensures
        s.filter(matched::<K, P>(key)) == s.filter(|p: P| p.matches(key)),
        s.filter(unmatched::<K, P>(key)) == s.filter(|p: P| !p.matches(key)),
{
    assert(matched::<K, P>(key) =~= (|p: P| p.matches(key)));
    assert(unmatched::<K, P>(key) =~= (|p: P| !p.matches(key)));
}

} // verus!
