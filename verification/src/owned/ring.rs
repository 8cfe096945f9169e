//! A list held by a sentinel, which closes it to a ring.
use vstd::prelude::*;

use crate::chains::{
    lemma_member_sound, ring, ring_insert_after, ring_push_back, ring_remove,
};
use crate::links::{at, cells, next_of, placed, ListLink, ListNode};
use crate::owned::{
    items, lemma_distinct_below, lemma_grow, lemma_position_is, occupied, position, Entry, Matches,
};

verus! {

/// The address of the sentinel.
const HEAD: usize = 0;

/// A doubly linked ring that owns its elements.
pub struct DeathList<P> {
    mem: Vec<Entry<P>>,
    len: usize,
    order: Ghost<Seq<usize>>,
}

impl<P> View for DeathList<P> {
    type V = Seq<P>;

    closed spec fn view(&self) -> Seq<P> {
        items(self.mem@, self.order@)
    }
}

impl<P> DeathList<P> {
    /// The addresses of the elements, in the order of the list.
    pub closed spec fn addresses(self) -> Seq<usize> {
        self.order@
    }

    /// How many addresses have been given out; the next element gets this one.
    pub closed spec fn issued(self) -> nat {
        self.mem@.len()
    }

    /// The link fields spell out the list, only listed places hold an element, and the count is
    /// right.
    pub closed spec fn wf(self) -> bool {
        &&& ring(cells(self.mem@), HEAD, self.order@)
        &&& occupied(self.mem@, self.order@)
        &&& self.len == self.order@.len()
    }

    /// What holds of every list: one address per element, no address twice, all of them issued.
    pub proof fn lemma_addresses(self)
        requires
            self.wf(),
        ensures
            self.addresses().len() == self@.len(),
            self.addresses().no_duplicates(),
            forall|i: int|
                0 <= i < self.addresses().len() ==> (#[trigger] self.addresses()[i])
                    < self.issued(),
            self@.len() <= self.issued() <= usize::MAX,
    {
        lemma_distinct_below(self.order@, self.mem@.len());
    }

    /// Creates an empty list.
    pub fn new() -> (list: DeathList<P>)
        ensures
            list.wf(),
            list@ == Seq::<P>::empty(),
            list.addresses() == Seq::<usize>::empty(),
            list.issued() == 1,
    {
        let mut mem: Vec<Entry<P>> = Vec::new();
        mem.push(Entry { links: ListNode { prev: Some(HEAD), next: Some(HEAD) }, item: None });
        assert(mem@.len() == mem.len());
        DeathList { mem, len: 0, order: Ghost(Seq::empty()) }
    }

    /// Whether the list has no elements.
    pub fn is_empty(&self) -> (empty: bool)
        requires
            self.wf(),
        ensures
            empty == (self@.len() == 0),
    {
        self.len == 0
    }

    /// The number of elements.
    pub fn len(&self) -> (len: usize)
        requires
            self.wf(),
        ensures
            len == self@.len(),
    {
        self.len
    }

    /// Puts an element in front of the list and hands out its address.
    pub fn push_front(&mut self, item: P) -> (addr: usize)
        requires
            old(self).wf(),
        ensures
            final(self).wf(),
            addr == old(self).issued(),
            final(self)@ == old(self)@.insert(0, item),
            final(self).addresses() == old(self).addresses().insert(0, addr),
            final(self).issued() == old(self).issued() + 1,
    {
        let ghost s = self.order@;
        let addr: usize = self.mem.len();
        let entry = Entry { links: ListNode::new(), item: Some(item) };
        proof {
            lemma_grow(self.mem@, entry, Some(HEAD), s);
        }
        self.mem.push(entry);
        let ghost grown = self.mem@;
        assert(ring(cells(grown), HEAD, s) && !s.contains(addr));
        ring_insert_after(&mut self.mem, HEAD, addr);
        self.order = Ghost(s.insert(0, addr));
        proof {
            lemma_distinct_below(self.order@, self.mem@.len());
            assert(self.mem@.len() == self.mem.len());
        }
        self.len = self.len + 1;
        proof {
            let t = s.insert(0, addr);
            assert(self.mem@.len() == self.mem.len());
            assert forall|a: int| 0 <= a < self.mem.len() implies ((#[trigger] self.mem@[a]).item is Some
                <==> t.contains(a as usize)) by {
                assert(self.mem@[a].item == grown[a].item);
                if a == addr {
                    assert(t[0] == addr);
                } else {
                    assert(grown[a] == old(self).mem@[a]);
                    if s.contains(a as usize) {
                        let i = s.index_of(a as usize);
                        assert(t[i + 1] == a as usize);
                    }
                }
            }
            assert(self@ =~= old(self)@.insert(0, item)) by {
                assert forall|i: int| 0 <= i < t.len() implies self@[i] == old(self)@.insert(
                    0,
                    item,
                )[i] by {
                    assert(self.mem@[t[i] as int].item == grown[t[i] as int].item);
                    if i > 0 {
                        assert(t[i] == s[i - 1]);
                    }
                }
            }
        }
        addr
    }

    /// Puts an element at the end of the list and hands out its address.
    pub fn push_back(&mut self, item: P) -> (addr: usize)
        requires
            old(self).wf(),
        ensures
            final(self).wf(),
            addr == old(self).issued(),
            final(self)@ == old(self)@.push(item),
            final(self).addresses() == old(self).addresses().push(addr),
            final(self).issued() == old(self).issued() + 1,
    {
        let ghost s = self.order@;
        let addr: usize = self.mem.len();
        let entry = Entry { links: ListNode::new(), item: Some(item) };
        proof {
            lemma_grow(self.mem@, entry, Some(HEAD), s);
        }
        self.mem.push(entry);
        let ghost grown = self.mem@;
        assert(ring(cells(grown), HEAD, s) && !s.contains(addr));
        ring_push_back(&mut self.mem, HEAD, addr);
        self.order = Ghost(s.push(addr));
        proof {
            lemma_distinct_below(self.order@, self.mem@.len());
            assert(self.mem@.len() == self.mem.len());
        }
        self.len = self.len + 1;
        proof {
            let t = s.push(addr);
            assert(self.mem@.len() == self.mem.len());
            assert forall|a: int| 0 <= a < self.mem.len() implies ((#[trigger] self.mem@[a]).item is Some
                <==> t.contains(a as usize)) by {
                assert(self.mem@[a].item == grown[a].item);
                if a == addr {
                    assert(t[s.len() as int] == addr);
                } else {
                    assert(grown[a] == old(self).mem@[a]);
                    if s.contains(a as usize) {
                        let i = s.index_of(a as usize);
                        assert(t[i] == a as usize);
                    }
                }
            }
            assert(self@ =~= old(self)@.push(item)) by {
                assert forall|i: int| 0 <= i < t.len() implies self@[i] == old(self)@.push(
                    item,
                )[i] by {
                    assert(self.mem@[t[i] as int].item == grown[t[i] as int].item);
                    if i < s.len() {
                        assert(t[i] == s[i]);
                    }
                }
            }
        }
        addr
    }

    /// Takes the element at `addr` off the list. Hands out nothing if there is none.
    pub fn remove(&mut self, addr: usize) -> (item: Option<P>)
        requires
            old(self).wf(),
        ensures
            final(self).wf(),
            item is Some <==> old(self).addresses().contains(addr),
            item is None ==> *final(self) == *old(self),
            item matches Some(p) ==> {
                let i = old(self).addresses().index_of(addr);
                &&& p == old(self)@[i]
                &&& final(self)@ == old(self)@.remove(i)
                &&& final(self).addresses() == old(self).addresses().remove(i)
            },
            final(self).issued() == old(self).issued(),
    {
        let ghost s = self.order@;
        if addr >= self.mem.len() {
            return None;
        }
        if self.mem[addr].item.is_none() {
            return None;
        }
        let ghost i = s.index_of(addr);
        proof {
            assert(self.mem@[addr as int].item is Some);
            lemma_member_sound(cells(self.mem@), Some(HEAD), s, addr);
        }
        assert(ring(cells(self.mem@), HEAD, s) && s[i] == addr);
        ring_remove(&mut self.mem, addr, ListNode::new());
        let ghost cut = self.mem@;
        let item: Option<P> = self.mem[addr].item.take();
        self.order = Ghost(s.remove(i));
        self.len = self.len - 1;
        proof {
            let t = s.remove(i);
            assert(cells(self.mem@) =~= cells(cut));
            assert forall|j: int| 0 <= j < t.len() implies (#[trigger] t[j]) == s[if j < i {
                j
            } else {
                j + 1
            }] && t[j] != addr by {}
            assert forall|a: int| 0 <= a < self.mem.len() implies ((#[trigger] self.mem@[a]).item is Some
                <==> t.contains(a as usize)) by {
                assert(cut[a].item == old(self).mem@[a].item);
                if s.contains(a as usize) && a != addr {
                    let j = s.index_of(a as usize);
                    assert(t[if j < i { j } else { j - 1 }] == a as usize);
                }
            }
            assert forall|j: int| 0 <= j < t.len() implies self@[j] == old(self)@.remove(i)[j] by {
                assert(cut[t[j] as int].item == old(self).mem@[t[j] as int].item);
            }
            assert(self@ =~= old(self)@.remove(i));
        }
        item
    }

    /// Takes the first element off the list.
    pub fn pop_front(&mut self) -> (item: Option<P>)
        requires
            old(self).wf(),
        ensures
            final(self).wf(),
            item is Some <==> old(self)@.len() > 0,
            item is None ==> *final(self) == *old(self),
            item matches Some(p) ==> {
                &&& p == old(self)@[0]
                &&& final(self)@ == old(self)@.remove(0)
                &&& final(self).addresses() == old(self).addresses().remove(0)
            },
            final(self).issued() == old(self).issued(),
    {
        match self.first() {
            Some(addr) => {
                assert(self.order@[0] == addr);
                assert(self.order@.index_of(addr) == 0);
                self.remove(addr)
            },
            None => None,
        }
    }

    /// Takes all elements off the list, first element first.
    pub fn take_all(&mut self) -> (all: Vec<P>)
        requires
            old(self).wf(),
        ensures
            final(self).wf(),
            all@ == old(self)@,
            final(self)@ == Seq::<P>::empty(),
            final(self).addresses() == Seq::<usize>::empty(),
            final(self).issued() == old(self).issued(),
    {
        let mut all: Vec<P> = Vec::new();
        let ghost s = self@;
        proof {
            assert(s.skip(0) =~= s);
        }
        while !self.is_empty()
            invariant
                self.wf(),
                self.issued() == old(self).issued(),
                s == old(self)@,
                all.len() <= s.len(),
                all@ == s.take(all.len() as int),
                self@ == s.skip(all.len() as int),
            decreases self@.len(),
        {
            let ghost k = all.len() as int;
            if let Some(item) = self.pop_front() {
                all.push(item);
            }
            proof {
                assert(all@ =~= s.take(k + 1));
                assert(self@ =~= s.skip(k + 1));
            }
        }
        assert(all@ =~= s);
        assert(self.addresses() =~= Seq::empty());
        all
    }

    /// The address of the first element.
    pub fn first(&self) -> (addr: ListLink)
        requires
            self.wf(),
        ensures
            addr == at(self.addresses(), None, 0),
    {
        let first: ListLink = next_of(&self.mem, HEAD);
        if first == Some(HEAD) {
            None
        } else {
            first
        }
    }

    /// The address of the element behind the one at `addr`.
    pub fn next(&self, addr: usize) -> (next: ListLink)
        requires
            self.wf(),
            self.addresses().contains(addr),
        ensures
            forall|i: int|
                0 <= i < self.addresses().len() && #[trigger] self.addresses()[i] == addr ==> next
                    == at(self.addresses(), None, i + 1),
    {
        proof {
            lemma_member_sound(cells(self.mem@), Some(HEAD), self.order@, addr);
            assert forall|i: int|
                0 <= i < self.order@.len() && #[trigger] self.order@[i] == addr implies cells(
                self.mem@,
            )[addr as int].next == at(self.order@, Some(HEAD), i + 1) by {
                assert(placed(cells(self.mem@), Some(HEAD), self.order@, i));
            }
        }
        let next: ListLink = next_of(&self.mem, addr);
        if next == Some(HEAD) {
            None
        } else {
            next
        }
    }

    /// The element at `addr`, if there is one.
    pub fn get(&self, addr: usize) -> (item: Option<&P>)
        requires
            self.wf(),
        ensures
            item is Some <==> self.addresses().contains(addr),
            item matches Some(p) ==> *p == self@[self.addresses().index_of(addr)],
    {
        if addr >= self.mem.len() {
            return None;
        }
        assert(self.mem@[addr as int].item is Some <==> self.order@.contains(addr));
        self.mem[addr].item.as_ref()
    }

    /// The address of the first element that matches `key`.
    pub fn find<K>(&self, key: &K) -> (addr: ListLink) where P: Matches<K>
        requires
            self.wf(),
        ensures
            addr == at(self.addresses(), None, position(self@, *key)),
            addr is Some <==> position(self@, *key) < self@.len(),
    {
        let ghost s = self.order@;
        let mut cur: ListLink = self.first();
        let ghost mut k: int = 0;
        while cur.is_some()
            invariant_except_break
                0 <= k <= s.len(),
                cur == at(s, None, k),
                forall|j: int| 0 <= j < k ==> !(#[trigger] self@[j]).matches(*key),
            invariant
                self.wf(),
                s == self.order@,
            ensures
                0 <= k <= s.len(),
                cur == at(s, None, k),
                forall|j: int| 0 <= j < k ==> !(#[trigger] self@[j]).matches(*key),
                k < s.len() ==> self@[k].matches(*key),
            decreases s.len() - k,
        {
            let addr: usize = cur.unwrap();
            assert(self.mem@[addr as int].item is Some);
            if let Some(item) = self.mem[addr].item.as_ref() {
                if item.is_match(key) {
                    break;
                }
            }
            assert(self.order@[k] == addr);
            cur = self.next(addr);
            proof {
                k = k + 1;
            }
        }
        proof {
            lemma_position_is(self@, *key, k);
        }
        cur
    }
}

} // verus!
