//! A node that refuses notifications once it is released, and marks every notification that it lets
//! go of.
use vstd::prelude::*;

use crate::links::ListLink;
use crate::owned::head::DeathList;
use crate::owned::{lemma_position, position, Matches};

verus! {

/// A notification.
pub struct DeathNotification<C> {
    pub callback: C,
    /// What identifies the callback to its owner.
    pub callback_id: usize,
    /// Whether the notification has been removed or drained.
    pub removed: bool,
}

impl<C> DeathNotification<C> {
    pub fn new(callback: C, callback_id: usize) -> (notification: DeathNotification<C>)
        ensures
            notification == (DeathNotification { callback, callback_id, removed: false }),
    {
        DeathNotification { callback, callback_id, removed: false }
    }
}

impl<C> Matches<usize> for DeathNotification<C> {
    open spec fn matches(self, key: usize) -> bool {
        self.callback_id == key
    }

    fn is_match(&self, key: &usize) -> (found: bool) {
        self.callback_id == *key
    }
}

/// `s` with every notification marked as removed.
pub open spec fn marked<C>(s: Seq<DeathNotification<C>>) -> Seq<DeathNotification<C>> {
    s.map_values(
        |d: DeathNotification<C>|
            DeathNotification {
                callback: d.callback,
                callback_id: d.callback_id,
                removed: true,
            },
    )
}

/// The list of a node.
pub struct NodeInner<C> {
    death_list: DeathList<DeathNotification<C>>,
    is_released: bool,
}

impl<C> View for NodeInner<C> {
    type V = Seq<DeathNotification<C>>;

    closed spec fn view(&self) -> Seq<DeathNotification<C>> {
        self.death_list@
    }
}

impl<C> NodeInner<C> {
    pub closed spec fn released(self) -> bool {
        self.is_released
    }

    /// The addresses of the notifications, most recently registered first.
    pub closed spec fn addresses(self) -> Seq<usize> {
        self.death_list.addresses()
    }

    /// How many addresses have been given out.
    pub closed spec fn issued(self) -> nat {
        self.death_list.issued()
    }

    /// No notification on the list is marked.
    pub closed spec fn wf(self) -> bool {
        &&& self.death_list.wf()
        &&& forall|i: int|
            0 <= i < self.death_list@.len() ==> !(#[trigger] self.death_list@[i]).removed
    }

    pub fn new() -> (inner: NodeInner<C>)
        ensures
            inner.wf(),
            inner@ == Seq::<DeathNotification<C>>::empty(),
            inner.addresses() == Seq::<usize>::empty(),
            !inner.released(),
    {
        NodeInner { death_list: DeathList::new(), is_released: false }
    }

    /// Puts an unmarked notification in front of the others.
    pub fn insert(&mut self, notification: DeathNotification<C>)
        requires
            old(self).wf(),
            !notification.removed,
        ensures
            final(self).wf(),
            final(self).released() == old(self).released(),
            final(self)@ == old(self)@.insert(0, notification),
            final(self).addresses() == old(self).addresses().insert(0, old(self).issued() as usize),
            final(self).issued() == old(self).issued() + 1,
    {
        let ghost before = self.death_list@;
        self.death_list.insert(notification);
        proof {
            assert forall|i: int| 0 <= i < self.death_list@.len() implies !(
            #[trigger] self.death_list@[i]).removed by {
                if i > 0 {
                    assert(self.death_list@[i] == before[i - 1]);
                }
            }
        }
    }

    /// Removes the notification at `addr` and hands it out, marked. Nothing is removed from a
    /// released node.
    pub fn remove(&mut self, addr: usize) -> (removed: Option<DeathNotification<C>>)
        requires
            old(self).wf(),
        ensures
            final(self).wf(),
            final(self).released() == old(self).released(),
            removed is Some <==> !old(self).released() && old(self).addresses().contains(addr),
            final(self).issued() == old(self).issued(),
            removed is None ==> *final(self) == *old(self),
            removed matches Some(d) ==> {
                let i = old(self).addresses().index_of(addr);
                &&& d == marked(old(self)@)[i]
                &&& final(self)@ == old(self)@.remove(i)
                &&& final(self).addresses() == old(self).addresses().remove(i)
            },
    {
        if self.is_released {
            return None;
        }
        let ghost before = self.death_list@;
        let ghost i = self.death_list.addresses().index_of(addr);
        proof {
            self.death_list.lemma_addresses();
        }
        match self.death_list.remove(addr) {
            Some(notification) => {
                proof {
                    assert forall|j: int| 0 <= j < self.death_list@.len() implies !(
                    #[trigger] self.death_list@[j]).removed by {
                        assert(self.death_list@[j] == before[if j < i {
                            j
                        } else {
                            j + 1
                        }]);
                    }
                }
                Some(
                    DeathNotification {
                        callback: notification.callback,
                        callback_id: notification.callback_id,
                        removed: true,
                    },
                )
            },
            None => None,
        }
    }

    /// Takes all notifications off, marks them and hands them out in order.
    pub fn drain_to_temp(&mut self) -> (temp: Vec<DeathNotification<C>>)
        requires
            old(self).wf(),
        ensures
            final(self).wf(),
            final(self).released() == old(self).released(),
            final(self)@ == Seq::<DeathNotification<C>>::empty(),
            final(self).addresses() == Seq::<usize>::empty(),
            final(self).issued() == old(self).issued(),
            temp@ == marked(old(self)@),
    {
        let mut temp: Vec<DeathNotification<C>> = Vec::new();
        let ghost s = self.death_list@;
        proof {
            assert(s.skip(0) =~= s);
            assert(temp@ =~= marked(s.take(0)));
        }
        while !self.death_list.is_empty()
            invariant
                self.death_list.wf(),
                self.is_released == old(self).is_released,
                self.death_list.issued() == old(self).death_list.issued(),
                temp.len() <= s.len(),
                self.death_list@ == s.skip(temp.len() as int),
                temp@ == marked(s.take(temp.len() as int)),
            decreases self.death_list@.len(),
        {
            let ghost k = temp.len() as int;
            if let Some(notification) = self.death_list.pop_front() {
                temp.push(
                    DeathNotification {
                        callback: notification.callback,
                        callback_id: notification.callback_id,
                        removed: true,
                    },
                );
            }
            proof {
                assert(self.death_list@ =~= s.skip(k + 1));
                assert(temp@ =~= marked(s.take(k + 1)));
            }
        }
        proof {
            assert(s.take(s.len() as int) =~= s);
            self.death_list.lemma_addresses();
            assert(self.death_list.addresses() =~= Seq::empty());
        }
        temp
    }
}

/// The state of a node.
pub struct BinderNode<C> {
    inner: NodeInner<C>,
}

impl<C> View for BinderNode<C> {
    type V = Seq<DeathNotification<C>>;

    closed spec fn view(&self) -> Seq<DeathNotification<C>> {
        self.inner@
    }
}

impl<C> BinderNode<C> {
    pub closed spec fn released(self) -> bool {
        self.inner.released()
    }

    /// A released node holds no notifications.
    pub closed spec fn wf(self) -> bool {
        &&& self.inner.wf()
        &&& self.inner.released() ==> self.inner@.len() == 0
    }

    /// Creates a live node without notifications.
    pub fn new() -> (node: BinderNode<C>)
        ensures
            node.wf(),
            node@ == Seq::<DeathNotification<C>>::empty(),
            !node.released(),
    {
        BinderNode { inner: NodeInner::new() }
    }

    /// Registers a notification in front of the others. Says whether the node was still alive to
    /// take it.
    pub fn link_to_death(&mut self, callback: C, callback_id: usize) -> (linked: bool)
        requires
            old(self).wf(),
        ensures
            final(self).wf(),
            final(self).released() == old(self).released(),
            linked == !old(self).released(),
            final(self)@ == if linked {
                old(self)@.insert(0, DeathNotification { callback, callback_id, removed: false })
            } else {
                old(self)@
            },
    {
        if self.inner.is_released {
            return false;
        }
        self.inner.insert(DeathNotification::new(callback, callback_id));
        true
    }

    /// Withdraws the first notification whose callback is `callback_id`. On a released node
    /// nothing is withdrawn.
    pub fn unlink_to_death(&mut self, callback_id: usize) -> (unlinked: bool)
        requires
            old(self).wf(),
        ensures
            final(self).wf(),
            final(self).released() == old(self).released(),
            unlinked == (!old(self).released() && position(old(self)@, callback_id) < old(
                self)@.len()),
            unlinked <==> !old(self).released() && exists|i: int|
                0 <= i < old(self)@.len() && (#[trigger] old(self)@[i]).callback_id == callback_id,
            unlinked ==> exists|i: int|
                {
                    &&& 0 <= i < old(self)@.len()
                    &&& old(self)@[i].callback_id == callback_id
                    &&& forall|j: int| 0 <= j < i ==> (#[trigger] old(self)@[j]).callback_id != callback_id
                    &&& final(self)@ == #[trigger] old(self)@.remove(i)
                },
            final(self)@ == if unlinked {
                old(self)@.remove(position(old(self)@, callback_id))
            } else {
                old(self)@
            },
    {
        proof {
            lemma_position(self.inner.death_list@, callback_id);
            self.inner.death_list.lemma_addresses();
        }
        let found: ListLink = self.inner.death_list.find(&callback_id);
        match found {
            Some(addr) => {
                assert(self.inner.death_list.addresses().index_of(addr) == position(
                    self.inner.death_list@,
                    callback_id,
                ));
                self.inner.remove(addr).is_some()
            },
            None => false,
        }
    }

    /// Releases the node: all notifications are handed out, marked, most recently registered
    /// first. Releasing it again yields none.
    pub fn release(&mut self) -> (due: Vec<DeathNotification<C>>)
        requires
            old(self).wf(),
        ensures
            final(self).wf(),
            final(self).released(),
            due@ == if old(self).released() {
                Seq::<DeathNotification<C>>::empty()
            } else {
                marked(old(self)@)
            },
            !old(self).released() ==> due@.len() == old(self)@.len(),
            !old(self).released() ==> forall|i: int|
                0 <= i < old(self)@.len() ==> #[trigger] due@[i] == (DeathNotification {
                    removed: true,
                    ..old(self)@[i]
                }),
            final(self)@ == if old(self).released() {
                old(self)@
            } else {
                Seq::empty()
            },
    {
        if self.inner.is_released {
            return Vec::new();
        }
        self.inner.is_released = true;
        self.inner.drain_to_temp()
    }

    /// Whether the node has been released.
    pub fn is_released(&self) -> (released: bool)
        ensures
            released == self.released(),
    {
        self.inner.is_released
    }
}

/// Withdrawing the callback that was registered last restores what was registered before it.
pub proof fn law_unlink_undoes_link<C>(s: Seq<DeathNotification<C>>, d: DeathNotification<C>)
    ensures
        position(s.insert(0, d), d.callback_id) == 0,
        s.insert(0, d).remove(0) == s,
{
    assert(s.insert(0, d).remove(0) =~= s);
}

/// After a notification has been withdrawn, release hands out all others and nothing else, in the
/// same order.
pub proof fn law_withdrawn_is_not_delivered<C>(s: Seq<DeathNotification<C>>, i: int)
    requires
        0 <= i < s.len(),
    ensures
        marked(s.remove(i)) == marked(s).remove(i),
{
    assert(marked(s.remove(i)) =~= marked(s).remove(i));
}

/// A released node holds no notifications.
pub proof fn law_released_node_is_empty<C>(node: BinderNode<C>)
    requires
        node.wf(),
        node.released(),
    ensures
        node@ == Seq::<DeathNotification<C>>::empty(),
{
    assert(node@ =~= Seq::empty());
}

/// The search finds the first notification whose `callback_id` is the one asked for, and none if no
/// notification has it.
pub proof fn law_search_goes_by_callback_id<C>(s: Seq<DeathNotification<C>>, callback_id: usize)
    ensures
        0 <= position(s, callback_id) <= s.len(),
        position(s, callback_id) < s.len() <==> exists|i: int|
            0 <= i < s.len() && (#[trigger] s[i]).callback_id == callback_id,
        position(s, callback_id) < s.len() ==> s[position(s, callback_id)].callback_id == callback_id,
        forall|j: int| 0 <= j < position(s, callback_id) ==> (#[trigger] s[j]).callback_id != callback_id,
{
    lemma_position(s, callback_id);
}

/// Release hands out all notifications at their positions, with their callbacks, each marked.
pub proof fn law_every_notification_is_delivered<C>(s: Seq<DeathNotification<C>>)
    ensures
        marked(s).len() == s.len(),
        forall|i: int|
            0 <= i < s.len() ==> (#[trigger] marked(s)[i]).callback == s[i].callback && marked(
                s,
            )[i].callback_id == s[i].callback_id && marked(s)[i].removed,
{
}

/// Marking goes on where it stopped.
pub proof fn law_delivery_goes_on<C>(s: Seq<DeathNotification<C>>, t: Seq<DeathNotification<C>>)
    ensures
        marked(s + t) == marked(s) + marked(t),
{
    assert(marked(s + t) =~= marked(s) + marked(t));
}

} // verus!
