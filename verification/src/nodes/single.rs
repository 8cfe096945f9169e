//! A node with a singly linked list of one-shot callbacks. Callbacks that come after the release are
//! dropped.
use vstd::prelude::*;

use crate::links::{at, ListLink};
use crate::owned::{lemma_distinct_below, lemma_position_is, position, Matches};

verus! {

/// A notification and the link to the next one.
pub struct DeathNotification<C> {
    /// The callback, until it has been handed out.
    pub callback: Option<C>,
    pub next: ListLink,
}

/// The link of the element at position `i` of `s` leads to the one behind it, and the element still
/// has its callback.
pub open spec fn threaded<C>(mem: Seq<DeathNotification<C>>, s: Seq<usize>, i: int) -> bool {
    &&& s[i] < mem.len()
    &&& mem[s[i] as int].next == at(s, None, i + 1)
    &&& mem[s[i] as int].callback is Some
}

/// The links from `head` spell out `s`.
pub open spec fn spells<C>(mem: Seq<DeathNotification<C>>, head: ListLink, s: Seq<usize>) -> bool {
    &&& head == at(s, None, 0)
    &&& s.no_duplicates()
    &&& forall|i: int| 0 <= i < s.len() ==> #[trigger] threaded(mem, s, i)
}

/// The callbacks at the addresses `s`.
pub open spec fn callbacks<C>(mem: Seq<DeathNotification<C>>, s: Seq<usize>) -> Seq<C> {
    Seq::new(s.len(), |i: int| mem[s[i] as int].callback->0)
}

/// A singly linked list of notifications.
pub struct DeathList<C> {
    mem: Vec<DeathNotification<C>>,
    head: ListLink,
    order: Ghost<Seq<usize>>,
}

impl<C> View for DeathList<C> {
    type V = Seq<C>;

    closed spec fn view(&self) -> Seq<C> {
        callbacks(self.mem@, self.order@)
    }
}

impl<C> DeathList<C> {
    pub closed spec fn wf(self) -> bool {
        &&& self.mem@.len() <= usize::MAX
        &&& spells(self.mem@, self.head, self.order@)
    }

    pub fn new() -> (list: DeathList<C>)
        ensures
            list.wf(),
            list@ == Seq::<C>::empty(),
    {
        DeathList { mem: Vec::new(), head: None, order: Ghost(Seq::empty()) }
    }

    /// Puts a callback in front of the others.
    pub fn register(&mut self, callback: C)
        requires
            old(self).wf(),
        ensures
            final(self).wf(),
            final(self)@ == old(self)@.insert(0, callback),
    {
        let ghost s = self.order@;
        let addr: usize = self.mem.len();
        self.mem.push(DeathNotification { callback: Some(callback), next: self.head });
        self.head = Some(addr);
        self.order = Ghost(s.insert(0, addr));
        proof {
            let t = s.insert(0, addr);
            assert(self.mem@.len() == self.mem.len());
            assert forall|i: int| 0 <= i < t.len() implies #[trigger] threaded(self.mem@, t, i) by {
                if i > 0 {
                    assert(t[i] == s[i - 1]);
                    assert(threaded(old(self).mem@, s, i - 1));
                }
            }
            assert forall|i: int, j: int| 0 <= i < j < t.len() implies t[i] != t[j] by {
                assert(t[j] == s[j - 1]);
                assert(threaded(old(self).mem@, s, j - 1));
                if i > 0 {
                    assert(t[i] == s[i - 1]);
                }
            }
            assert forall|i: int| 0 <= i < t.len() implies self@[i] == old(self)@.insert(
                0,
                callback,
            )[i] by {
                if i > 0 {
                    assert(t[i] == s[i - 1]);
                    assert(threaded(old(self).mem@, s, i - 1));
                }
            }
            assert(self@ =~= old(self)@.insert(0, callback));
        }
    }

    /// Moves all callbacks to a list of their own.
    pub fn take_for_cleanup(&mut self) -> (temp: DeathList<C>)
        requires
            old(self).wf(),
        ensures
            final(self).wf(),
            final(self)@ == Seq::<C>::empty(),
            temp.wf(),
            temp@ == old(self)@,
    {
        let mut temp: DeathList<C> = DeathList::new();
        std::mem::swap(self, &mut temp);
        temp
    }

    /// Takes the first callback that matches `key` off the list, if there is one.
    pub fn remove_match<K>(&mut self, key: &K) -> (item: Option<C>) where C: Matches<K>
        requires
            old(self).wf(),
        ensures
            final(self).wf(),
            item is Some <==> position(old(self)@, *key) < old(self)@.len(),
            item is None ==> final(self)@ == old(self)@,
            item matches Some(c) ==> c == old(self)@[position(old(self)@, *key)] && final(self)@
                == old(self)@.remove(position(old(self)@, *key)),
    {
        let ghost s = self.order@;
        let ghost m = self.mem@;
        let ghost mut k: int = 0;
        let mut prev: ListLink = None;
        let mut current: ListLink = self.head;
        while current.is_some()
            invariant
                self.wf(),
                *self == *old(self),
                s == self.order@,
                m == self.mem@,
                0 <= k <= s.len(),
                prev == at(s, None, k - 1),
                current == at(s, None, k),
                forall|j: int| 0 <= j < k ==> !(#[trigger] self@[j]).matches(*key),
            decreases s.len() - k,
        {
            let addr: usize = current.unwrap();
            assert(threaded(m, s, k));
            let next: ListLink = self.mem[addr].next;
            let found: bool = match self.mem[addr].callback.as_ref() {
                Some(callback) => callback.is_match(key),
                None => false,
            };
            if found {
                assert(self@[k].matches(*key));
                proof {
                    lemma_position_is(self@, *key, k);
                    if k > 0 {
                        assert(threaded(m, s, k - 1));
                    }
                }
                match prev {
                    Some(p) => {
                        self.mem[p].next = next;
                    },
                    None => {
                        self.head = next;
                    },
                }
                let item: Option<C> = self.mem[addr].callback.take();
                self.order = Ghost(s.remove(k));
                proof {
                    lemma_threaded_without(m, s, k, self.mem@);
                    assert(self@ =~= old(self)@.remove(k));
                }
                return item;
            }
            prev = current;
            current = next;
            proof {
                k = k + 1;
            }
        }
        proof {
            lemma_position_is(self@, *key, k);
        }
        None
    }

    /// There are no more callbacks than memory has places for.
    pub proof fn lemma_len(self)
        requires
            self.wf(),
        ensures
            self@.len() <= usize::MAX,
    {
        assert forall|i: int| 0 <= i < self.order@.len() implies (#[trigger] self.order@[i])
            < self.mem@.len() by {
            assert(threaded(self.mem@, self.order@, i));
        }
        lemma_distinct_below(self.order@, self.mem@.len());
    }

    /// Takes the list apart and hands out its callbacks in order.
    pub fn into_callbacks(self) -> (due: Vec<C>)
        requires
            self.wf(),
        ensures
            due@ == self@,
    {
        let ghost s = self.order@;
        let ghost m = self.mem@;
        let mut mem: Vec<DeathNotification<C>> = self.mem;
        let mut current: ListLink = self.head;
        let mut due: Vec<C> = Vec::new();
        while current.is_some()
            invariant
                spells(m, at(s, None, 0), s),
                mem.len() == m.len(),
                due.len() <= s.len(),
                current == at(s, None, due.len() as int),
                due@ == callbacks(m, s.take(due.len() as int)),
                forall|j: int|
                    due.len() <= j < s.len() ==> mem@[#[trigger] s[j] as int] == m[s[j] as int],
            decreases s.len() - due.len(),
        {
            let ghost k = due.len() as int;
            let addr: usize = current.unwrap();
            assert(threaded(m, s, k));
            assert(mem@[s[k] as int] == m[s[k] as int]);
            let next: ListLink = mem[addr].next;
            if let Some(callback) = mem[addr].callback.take() {
                due.push(callback);
            }
            current = next;
            proof {
                assert forall|j: int| k + 1 <= j < s.len() implies mem@[#[trigger] s[j] as int]
                    == m[s[j] as int] by {
                    assert(s[j] != s[k]);
                    assert(threaded(m, s, j));
                }
                assert(due@ =~= callbacks(m, s.take(k + 1)));
            }
        }
        assert(s.take(s.len() as int) =~= s);
        due
    }
}

proof fn lemma_threaded_without<C>(
    m: Seq<DeathNotification<C>>,
    s: Seq<usize>,
    k: int,
    after: Seq<DeathNotification<C>>,
)
    requires
        spells(m, at(s, None, 0), s),
        0 <= k < s.len(),
        after.len() == m.len(),
        forall|a: int|
            0 <= a < m.len() && a != s[k] && (k > 0 ==> a != s[k - 1]) ==> #[trigger] after[a]
                == m[a],
        k > 0 ==> after[s[k - 1] as int].next == at(s, None, k + 1),
        k > 0 ==> after[s[k - 1] as int].callback == m[s[k - 1] as int].callback,
    ensures
        spells(after, if k > 0 { at(s, None, 0) } else { at(s, None, 1) }, s.remove(k)),
        forall|j: int|
            0 <= j < s.len() && j != k ==> after[#[trigger] s[j] as int].callback
                == m[s[j] as int].callback,
{
    let t = s.remove(k);
    assert forall|j: int| 0 <= j < s.len() && j != k implies after[#[trigger] s[j] as int].callback
        == m[s[j] as int].callback by {
        assert(threaded(m, s, j));
        assert(s[j] != s[k]);
        if k > 0 && j != k - 1 {
            assert(s[j] != s[k - 1]);
        }
    }
    assert forall|j: int| 0 <= j < t.len() implies #[trigger] threaded(after, t, j) by {
        let j0 = if j < k {
            j
        } else {
            j + 1
        };
        assert(t[j] == s[j0]);
        assert(threaded(m, s, j0));
        assert(s[j0] != s[k]);
        if k > 0 && j0 != k - 1 {
            assert(s[j0] != s[k - 1]);
        }
    }
}

/// The state of a node.
pub struct BinderNode<C> {
    death_list: DeathList<C>,
    released: bool,
}

impl<C> View for BinderNode<C> {
    type V = Seq<C>;

    closed spec fn view(&self) -> Seq<C> {
        self.death_list@
    }
}

impl<C> BinderNode<C> {
    pub closed spec fn is_released(self) -> bool {
        self.released
    }

    /// A released node holds no notifications.
    pub closed spec fn wf(self) -> bool {
        &&& self.death_list.wf()
        &&& self.released ==> self.death_list@.len() == 0
    }

    /// Creates a live node without callbacks.
    pub fn new() -> (node: BinderNode<C>)
        ensures
            node.wf(),
            node@ == Seq::<C>::empty(),
            !node.is_released(),
    {
        BinderNode { death_list: DeathList::new(), released: false }
    }

    /// Registers a callback in front of the others. A released node drops it.
    pub fn register_death_notification(&mut self, callback: C)
        requires
            old(self).wf(),
        ensures
            final(self).wf(),
            final(self).is_released() == old(self).is_released(),
            final(self)@ == if old(self).is_released() {
                old(self)@
            } else {
                old(self)@.insert(0, callback)
            },
    {
        if self.released {
            return;
        }
        self.death_list.register(callback);
    }

    /// Releases the node: all callbacks are handed out, most recently registered first. Releasing
    /// it again changes nothing and yields none.
    pub fn release(&mut self) -> (due: Vec<C>)
        requires
            old(self).wf(),
        ensures
            final(self).wf(),
            final(self).is_released(),
            old(self).is_released() ==> due@.len() == 0 && *final(self) == *old(self),
            !old(self).is_released() ==> due@ == old(self)@ && final(self)@ == Seq::<C>::empty(),
    {
        if self.released {
            return Vec::new();
        }
        self.released = true;
        let temp: DeathList<C> = self.death_list.take_for_cleanup();
        Self::process_death_notifications(temp)
    }

    /// Takes a list apart and hands out its callbacks in order.
    pub fn process_death_notifications(list: DeathList<C>) -> (due: Vec<C>)
        requires
            list.wf(),
        ensures
            due@ == list@,
    {
        list.into_callbacks()
    }
}

/// A released node holds no notifications.
pub proof fn law_released_node_is_empty<C>(node: BinderNode<C>)
    requires
        node.wf(),
        node.is_released(),
    ensures
        node@ == Seq::<C>::empty(),
{
    assert(node@ =~= Seq::empty());
}

} // verus!
