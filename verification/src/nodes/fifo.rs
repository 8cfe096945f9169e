//! A reference-counted node that notifies in the order of registration and takes its notifications
//! off one at a time, all under one lock.
use vstd::prelude::*;

use crate::owned::ring::DeathList;
use crate::owned::{lemma_gone_once, lemma_last_of_fresh};

verus! {

/// A registered notification: a callback and the cookie it is to be called with.
pub struct DeathRecipient<C> {
    pub callback: C,
    pub cookie: usize,
}

impl<C> DeathRecipient<C> {
    pub fn new(callback: C, cookie: usize) -> (recipient: DeathRecipient<C>)
        ensures
            recipient == (DeathRecipient { callback, cookie }),
    {
        DeathRecipient { callback, cookie }
    }

    /// The call that is to be made when the node dies: the callback, and the cookie to call it with.
    pub fn notify(&self) -> (call: (&C, usize))
        ensures
            *call.0 == self.callback,
            call.1 == self.cookie,
    {
        (&self.callback, self.cookie)
    }
}

/// The state of a node.
pub struct BinderNode<C> {
    death_list: DeathList<DeathRecipient<C>>,
    released: bool,
    refcount: usize,
    handle: u32,
}

impl<C> View for BinderNode<C> {
    type V = Seq<DeathRecipient<C>>;

    closed spec fn view(&self) -> Seq<DeathRecipient<C>> {
        self.death_list@
    }
}

impl<C> BinderNode<C> {
    pub closed spec fn is_released(self) -> bool {
        self.released
    }

    pub closed spec fn refs(self) -> usize {
        self.refcount
    }

    /// The links of the notifications, in the order of registration.
    pub closed spec fn links(self) -> Seq<usize> {
        self.death_list.addresses()
    }

    /// How many links have been given out.
    pub closed spec fn issued(self) -> nat {
        self.death_list.issued()
    }

    /// A released node holds no notifications.
    pub closed spec fn wf(self) -> bool {
        &&& self.death_list.wf()
        &&& self.released ==> self.death_list@.len() == 0
    }

    /// Creates a live node with one reference to it.
    pub fn new(handle: u32) -> (node: BinderNode<C>)
        ensures
            node.wf(),
            node@ == Seq::<DeathRecipient<C>>::empty(),
            node.links() == Seq::<usize>::empty(),
            !node.is_released(),
            node.refs() == 1,
            node.number() == handle,
    {
        BinderNode { death_list: DeathList::new(), released: false, refcount: 1, handle }
    }

    /// The number that the node is known by.
    pub closed spec fn number(self) -> u32 {
        self.handle
    }

    /// Registers a notification behind the others and hands out its link. A released node takes
    /// none.
    pub fn link(&mut self, callback: C, cookie: usize) -> (link: Option<usize>)
        requires
            old(self).wf(),
        ensures
            final(self).wf(),
            final(self).is_released() == old(self).is_released(),
            final(self).refs() == old(self).refs(),
            final(self).number() == old(self).number(),
            old(self).is_released() ==> link is None && *final(self) == *old(self),
            !old(self).is_released() ==> {
                &&& link matches Some(a) && a == old(self).issued()
                &&& final(self)@ == old(self)@.push(DeathRecipient { callback, cookie })
                &&& final(self).links() == old(self).links().push(link->0)
                &&& final(self).issued() == old(self).issued() + 1
            },
    {
        if self.released {
            return None;
        }
        let recipient = DeathRecipient::new(callback, cookie);
        Some(self.death_list.push_back(recipient))
    }

    /// Registers a notification. Says whether the node was still alive to take it.
    pub fn link_to_death(&mut self, callback: C, cookie: usize) -> (linked: bool)
        requires
            old(self).wf(),
        ensures
            final(self).wf(),
            final(self).is_released() == old(self).is_released(),
            final(self).refs() == old(self).refs(),
            final(self).number() == old(self).number(),
            linked == !old(self).is_released(),
            !linked ==> final(self)@ == old(self)@ && final(self).links() == old(self).links()
                && final(self).issued() == old(self).issued(),
            linked ==> {
                &&& final(self)@ == old(self)@.push(DeathRecipient { callback, cookie })
                &&& final(self).links() == old(self).links().push(old(self).issued() as usize)
                &&& final(self).issued() == old(self).issued() + 1
            },
    {
        self.link(callback, cookie).is_some()
    }

    /// Withdraws the notification that `link` was handed out for, if it is still registered.
    pub fn unlink_to_death(&mut self, link: usize)
        requires
            old(self).wf(),
        ensures
            final(self).wf(),
            final(self).is_released() == old(self).is_released(),
            final(self).refs() == old(self).refs(),
            final(self).number() == old(self).number(),
            final(self).issued() == old(self).issued(),
            !old(self).links().contains(link) ==> final(self)@ == old(self)@ && final(self).links()
                == old(self).links(),
            old(self).links().contains(link) ==> {
                let i = old(self).links().index_of(link);
                &&& final(self)@ == old(self)@.remove(i)
                &&& final(self).links() == old(self).links().remove(i)
            },
    {
        proof {
            self.death_list.lemma_addresses();
        }
        self.death_list.remove(link);
    }

    /// Releases the node: all notifications are handed out in the order of registration.
    /// Releasing it again yields none.
    pub fn release(&mut self) -> (due: Vec<DeathRecipient<C>>)
        requires
            old(self).wf(),
        ensures
            final(self).wf(),
            final(self).is_released(),
            final(self).refs() == old(self).refs(),
            final(self).number() == old(self).number(),
            due@ == if old(self).is_released() {
                Seq::<DeathRecipient<C>>::empty()
            } else {
                old(self)@
            },
            final(self).issued() == old(self).issued(),
            old(self).is_released() ==> *final(self) == *old(self),
            !old(self).is_released() ==> final(self)@ == Seq::<DeathRecipient<C>>::empty()
                && final(self).links() == Seq::<usize>::empty(),
    {
        if self.released {
            return Vec::new();
        }
        self.released = true;
        self.death_list.take_all()
    }

    /// Takes a reference.
    pub fn acquire(&mut self)
        requires
            old(self).wf(),
            old(self).refs() < usize::MAX,
        ensures
            final(self).wf(),
            final(self).refs() == old(self).refs() + 1,
            final(self)@ == old(self)@,
            final(self).links() == old(self).links(),
            final(self).issued() == old(self).issued(),
            final(self).is_released() == old(self).is_released(),
            final(self).number() == old(self).number(),
    {
        self.refcount = self.refcount + 1;
    }

    /// The number of references.
    pub fn strong_count(&self) -> (count: usize)
        ensures
            count == self.refs(),
    {
        self.refcount
    }

    /// What holds of every node: one link per notification, no link twice, all of them given out.
    pub proof fn lemma_links(self)
        requires
            self.wf(),
        ensures
            self.links().len() == self@.len(),
            self.links().no_duplicates(),
            forall|i: int|
                0 <= i < self.links().len() ==> (#[trigger] self.links()[i]) < self.issued(),
            self.issued() <= usize::MAX,
    {
        self.death_list.lemma_addresses();
    }
}

/// Withdrawing a notification that has just been registered restores what was registered before.
pub proof fn law_unlink_undoes_link<C>(
    before: BinderNode<C>,
    after: BinderNode<C>,
    d: DeathRecipient<C>,
)
    requires
        before.wf(),
        after@ == before@.push(d),
        after.links() == before.links().push(before.issued() as usize),
    ensures
        ({
            let link = before.issued() as usize;
            let i = after.links().index_of(link);
            &&& after.links().contains(link)
            &&& after@.remove(i) == before@
            &&& after.links().remove(i) == before.links()
        }),
{
    let link = before.issued() as usize;
    before.lemma_links();
    lemma_last_of_fresh(before.links(), link);
    assert(after@.remove(before@.len() as int) =~= before@);
}

/// A notification is withdrawn at most once: its link leads nowhere afterwards.
pub proof fn law_link_is_good_once<C>(node: BinderNode<C>, link: usize)
    requires
        node.wf(),
        node.links().contains(link),
    ensures
        !node.links().remove(node.links().index_of(link)).contains(link),
{
    node.lemma_links();
    lemma_gone_once(node.links(), link);
}

/// A released node holds no notifications.
pub proof fn law_released_node_is_empty<C>(node: BinderNode<C>)
    requires
        node.wf(),
        node.is_released(),
    ensures
        node@ == Seq::<DeathRecipient<C>>::empty(),
{
    assert(node@ =~= Seq::empty());
}

} // verus!
