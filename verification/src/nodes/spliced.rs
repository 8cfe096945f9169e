//! A node that marks its notifications as detached and moves them to a local list when it is
//! released. Withdrawing a detached notification, or one of an earlier generation, does nothing.
use vstd::prelude::*;

use crate::owned::ring;
use crate::owned::{lemma_gone_once, lemma_last_of_fresh};

verus! {

/// What a notification knows of the list it is on.
#[derive(Clone, Copy, Debug, PartialEq, Eq, Structural)]
pub struct DeathLink {
    /// The generation of the list when the notification was put on it.
    pub generation: u64,
    /// Whether the notification has been taken off or moved to a local list.
    pub detached: bool,
}

impl DeathLink {
    pub fn new() -> (link: DeathLink)
        ensures
            link == (DeathLink { generation: 0, detached: false }),
    {
        DeathLink { generation: 0, detached: false }
    }
}

/// A notification: a callback and the cookie it is to be called with.
pub struct DeathRecipient<C> {
    pub link: DeathLink,
    pub callback: C,
    pub cookie: usize,
}

impl<C> DeathRecipient<C> {
    pub fn new(callback: C, cookie: usize) -> (recipient: DeathRecipient<C>)
        ensures
            recipient == (DeathRecipient {
                link: DeathLink { generation: 0, detached: false },
                callback,
                cookie,
            }),
    {
        DeathRecipient { link: DeathLink::new(), callback, cookie }
    }

    /// The call that is to be made when the node dies: the callback, and the cookie to call it with.
    pub fn notify(&self) -> (call: (&C, usize))
        ensures
            *call.0 == self.callback,
            call.1 == self.cookie,
    {
        (&self.callback, self.cookie)
    }
}

/// `d` as it is on a list of the generation `generation`.
pub open spec fn attached<C>(d: DeathRecipient<C>, generation: u64) -> DeathRecipient<C> {
    DeathRecipient {
        link: DeathLink { generation, detached: false },
        callback: d.callback,
        cookie: d.cookie,
    }
}

/// `s` with every notification marked as detached.
pub open spec fn detached<C>(s: Seq<DeathRecipient<C>>) -> Seq<DeathRecipient<C>> {
    s.map_values(
        |d: DeathRecipient<C>|
            DeathRecipient {
                link: DeathLink { generation: d.link.generation, detached: true },
                callback: d.callback,
                cookie: d.cookie,
            },
    )
}

/// The list of a node, with the number of the current generation.
pub struct DeathList<C> {
    ring: ring::DeathList<DeathRecipient<C>>,
    generation: u64,
}

impl<C> View for DeathList<C> {
    type V = Seq<DeathRecipient<C>>;

    closed spec fn view(&self) -> Seq<DeathRecipient<C>> {
        self.ring@
    }
}

impl<C> DeathList<C> {
    pub closed spec fn generation(self) -> u64 {
        self.generation
    }

    /// The addresses of the notifications, in order.
    pub closed spec fn links(self) -> Seq<usize> {
        self.ring.addresses()
    }

    /// How many addresses have been given out.
    pub closed spec fn issued(self) -> nat {
        self.ring.issued()
    }

    /// Everything on the list is attached to the current generation.
    pub closed spec fn wf(self) -> bool {
        &&& self.ring.wf()
        &&& forall|i: int|
            0 <= i < self.ring@.len() ==> (#[trigger] self.ring@[i]).link == (DeathLink {
                generation: self.generation,
                detached: false,
            })
    }

    pub fn new() -> (list: DeathList<C>)
        ensures
            list.wf(),
            list@ == Seq::<DeathRecipient<C>>::empty(),
            list.links() == Seq::<usize>::empty(),
            list.generation() == 0,
    {
        DeathList { ring: ring::DeathList::new(), generation: 0 }
    }

    /// Puts a notification at the end and hands out its address.
    pub fn insert(&mut self, recipient: DeathRecipient<C>) -> (link: usize)
        requires
            old(self).wf(),
        ensures
            final(self).wf(),
            link == old(self).issued(),
            final(self)@ == old(self)@.push(attached(recipient, old(self).generation())),
            final(self).links() == old(self).links().push(link),
            final(self).issued() == old(self).issued() + 1,
            final(self).generation() == old(self).generation(),
    {
        let ghost before = self.ring@;
        let link: usize = self.ring.push_back(
            DeathRecipient {
                link: DeathLink { generation: self.generation, detached: false },
                callback: recipient.callback,
                cookie: recipient.cookie,
            },
        );
        proof {
            assert forall|i: int| 0 <= i < self.ring@.len() implies (
            #[trigger] self.ring@[i]).link == (DeathLink {
                generation: self.generation,
                detached: false,
            }) by {
                if i < before.len() {
                    assert(self.ring@[i] == before[i]);
                }
            }
        }
        link
    }

    /// Takes the notification at `link` off, unless it is detached or of another generation.
    pub fn remove(&mut self, link: usize)
        requires
            old(self).wf(),
        ensures
            final(self).wf(),
            final(self).generation() == old(self).generation(),
            final(self).issued() == old(self).issued(),
            !old(self).links().contains(link) ==> final(self)@ == old(self)@ && final(self).links()
                == old(self).links(),
            old(self).links().contains(link) ==> {
                let i = old(self).links().index_of(link);
                &&& final(self)@ == old(self)@.remove(i)
                &&& final(self).links() == old(self).links().remove(i)
            },
    {
        let ghost before = self.ring@;
        let ghost i = self.ring.addresses().index_of(link);
        proof {
            self.ring.lemma_addresses();
        }
        let state: DeathLink = match self.ring.get(link) {
            Some(recipient) => recipient.link,
            None => {
                return;
            },
        };
        if state.detached || state.generation != self.generation {
            return;
        }
        self.ring.remove(link);
        proof {
            assert forall|j: int| 0 <= j < self.ring@.len() implies (
            #[trigger] self.ring@[j]).link == (DeathLink {
                generation: self.generation,
                detached: false,
            }) by {
                assert(self.ring@[j] == before[if j < i {
                    j
                } else {
                    j + 1
                }]);
            }
        }
    }

    /// Moves everything to a local list, marked as detached, and starts a new generation. An empty
    /// list keeps its generation. Hands out the local list and the number of the generation.
    pub fn splice_to_local(&mut self) -> (moved: (LocalDeathList<C>, u64))
        requires
            old(self).wf(),
            old(self)@.len() > 0 ==> old(self).generation() < u64::MAX,
        ensures
            final(self).wf(),
            final(self)@ == Seq::<DeathRecipient<C>>::empty(),
            final(self).links() == Seq::<usize>::empty(),
            final(self).issued() == old(self).issued(),
            final(self).generation() == if old(self)@.len() == 0 {
                old(self).generation()
            } else {
                (old(self).generation() + 1) as u64
            },
            moved.0.wf(),
            moved.0@ == detached(old(self)@),
            moved.1 == final(self).generation(),
    {
        let mut local: LocalDeathList<C> = LocalDeathList::new();
        if self.ring.is_empty() {
            proof {
                self.ring.lemma_addresses();
                assert(self.ring@ =~= Seq::empty());
                assert(self.ring.addresses() =~= Seq::empty());
                assert(local@ =~= detached(self.ring@));
            }
            return (local, self.generation);
        }
        let ghost s = self.ring@;
        let ghost mut k: int = 0;
        proof {
            assert(s.skip(0) =~= s);
            assert(local@ =~= detached(s.take(0)));
        }
        while !self.ring.is_empty()
            invariant
                self.ring.wf(),
                self.ring.issued() == old(self).issued(),
                self.generation == old(self).generation,
                local.wf(),
                0 <= k <= s.len(),
                self.ring@ == s.skip(k),
                local@ == detached(s.take(k)),
            decreases self.ring@.len(),
        {
            if let Some(recipient) = self.ring.pop_front() {
                local.ring.push_back(
                    DeathRecipient {
                        link: DeathLink { generation: recipient.link.generation, detached: true },
                        callback: recipient.callback,
                        cookie: recipient.cookie,
                    },
                );
            }
            proof {
                assert(self.ring@ =~= s.skip(k + 1));
                assert(local@ =~= detached(s.take(k + 1)));
                k = k + 1;
            }
        }
        self.generation = self.generation + 1;
        proof {
            assert(s.take(s.len() as int) =~= s);
            self.ring.lemma_addresses();
            assert(self.ring.addresses() =~= Seq::empty());
        }
        (local, self.generation)
    }
}

/// Notifications on their way out, no longer within reach of `remove`.
pub struct LocalDeathList<C> {
    ring: ring::DeathList<DeathRecipient<C>>,
}

impl<C> View for LocalDeathList<C> {
    type V = Seq<DeathRecipient<C>>;

    closed spec fn view(&self) -> Seq<DeathRecipient<C>> {
        self.ring@
    }
}

impl<C> LocalDeathList<C> {
    pub closed spec fn wf(self) -> bool {
        self.ring.wf()
    }

    pub fn new() -> (list: LocalDeathList<C>)
        ensures
            list.wf(),
            list@ == Seq::<DeathRecipient<C>>::empty(),
    {
        LocalDeathList { ring: ring::DeathList::new() }
    }

    /// Whether there are no notifications.
    pub fn is_empty(&self) -> (empty: bool)
        requires
            self.wf(),
        ensures
            empty == (self@.len() == 0),
    {
        self.ring.is_empty()
    }

    /// Hands out the notifications in order, to be called.
    pub fn process_callbacks(self) -> (due: Vec<DeathRecipient<C>>)
        requires
            self.wf(),
        ensures
            due@ == self@,
    {
        let mut list = self;
        list.ring.take_all()
    }
}

/// The state of a node.
pub struct BinderNode<C> {
    death_list: DeathList<C>,
    released: u64,
}

impl<C> View for BinderNode<C> {
    type V = Seq<DeathRecipient<C>>;

    closed spec fn view(&self) -> Seq<DeathRecipient<C>> {
        self.death_list@
    }
}

impl<C> BinderNode<C> {
    /// How often the node has been released, modulo the range of the counter.
    pub closed spec fn releases(self) -> u64 {
        self.released
    }

    pub closed spec fn generation(self) -> u64 {
        self.death_list.generation()
    }

    /// The links of the notifications, in the order of registration.
    pub closed spec fn links(self) -> Seq<usize> {
        self.death_list.links()
    }

    /// How many links have been given out.
    pub closed spec fn issued(self) -> nat {
        self.death_list.issued()
    }

    /// A released node holds no notifications.
    pub closed spec fn wf(self) -> bool {
        &&& self.death_list.wf()
        &&& self.released != 0 ==> self.death_list@.len() == 0
    }

    /// Creates a live node without notifications.
    pub fn new() -> (node: BinderNode<C>)
        ensures
            node.wf(),
            node@ == Seq::<DeathRecipient<C>>::empty(),
            node.links() == Seq::<usize>::empty(),
            node.releases() == 0,
            node.generation() == 0,
    {
        BinderNode { death_list: DeathList::new(), released: 0 }
    }

    /// Registers a notification behind the others and hands out its link. A released node takes
    /// none.
    pub fn link(&mut self, callback: C, cookie: usize) -> (link: Option<usize>)
        requires
            old(self).wf(),
        ensures
            final(self).wf(),
            final(self).releases() == old(self).releases(),
            final(self).generation() == old(self).generation(),
            old(self).releases() != 0 ==> link is None && *final(self) == *old(self),
            old(self).releases() == 0 ==> {
                &&& link matches Some(a) && a == old(self).issued()
                &&& final(self)@ == old(self)@.push(
                    DeathRecipient {
                        link: DeathLink { generation: old(self).generation(), detached: false },
                        callback,
                        cookie,
                    },
                )
                &&& final(self).links() == old(self).links().push(link->0)
                &&& final(self).issued() == old(self).issued() + 1
            },
    {
        if self.released != 0 {
            return None;
        }
        let recipient = DeathRecipient::new(callback, cookie);
        Some(self.death_list.insert(recipient))
    }

    /// Registers a notification. Says whether the node was still alive to take it.
    pub fn link_to_death(&mut self, callback: C, cookie: usize) -> (linked: bool)
        requires
            old(self).wf(),
        ensures
            final(self).wf(),
            final(self).releases() == old(self).releases(),
            final(self).generation() == old(self).generation(),
            linked == (old(self).releases() == 0),
            !linked ==> *final(self) == *old(self),
            linked ==> {
                &&& final(self)@ == old(self)@.push(
                    DeathRecipient {
                        link: DeathLink { generation: old(self).generation(), detached: false },
                        callback,
                        cookie,
                    },
                )
                &&& final(self).links() == old(self).links().push(old(self).issued() as usize)
                &&& final(self).issued() == old(self).issued() + 1
            },
    {
        self.link(callback, cookie).is_some()
    }

    /// Releases the node: all notifications are handed out in the order of registration, detached.
    pub fn release(&mut self) -> (due: Vec<DeathRecipient<C>>)
        requires
            old(self).wf(),
            old(self)@.len() > 0 ==> old(self).generation() < u64::MAX,
        ensures
            final(self).wf(),
            final(self).releases() == if old(self).releases() == u64::MAX {
                0
            } else {
                (old(self).releases() + 1) as u64
            },
            final(self).generation() == if old(self)@.len() == 0 {
                old(self).generation()
            } else {
                (old(self).generation() + 1) as u64
            },
            due@ == detached(old(self)@),
            final(self)@ == Seq::<DeathRecipient<C>>::empty(),
            final(self).links() == Seq::<usize>::empty(),
            final(self).issued() == old(self).issued(),
    {
        self.released = self.released.wrapping_add(1);
        let (local_list, _generation) = self.death_list.splice_to_local();
        if local_list.is_empty() {
            assert(local_list@ =~= Seq::empty());
            return Vec::new();
        }
        local_list.process_callbacks()
    }

    /// Withdraws the notification that `link` was handed out for, if it is still registered.
    pub fn unlink_to_death(&mut self, link: usize)
        requires
            old(self).wf(),
        ensures
            final(self).wf(),
            final(self).releases() == old(self).releases(),
            final(self).generation() == old(self).generation(),
            final(self).issued() == old(self).issued(),
            !old(self).links().contains(link) ==> final(self)@ == old(self)@ && final(self).links()
                == old(self).links(),
            old(self).links().contains(link) ==> {
                let i = old(self).links().index_of(link);
                &&& final(self)@ == old(self)@.remove(i)
                &&& final(self).links() == old(self).links().remove(i)
            },
    {
        proof {
            self.lemma_links();
        }
        self.death_list.remove(link);
    }
}

impl<C> BinderNode<C> {
    /// What holds of every node: one link per notification, no link twice, all of them given out.
    pub proof fn lemma_links(self)
        requires
            self.wf(),
        ensures
            self.links().len() == self@.len(),
            self.links().no_duplicates(),
            forall|i: int|
                0 <= i < self.links().len() ==> (#[trigger] self.links()[i]) < self.issued(),
            self.issued() <= usize::MAX,
    {
        self.death_list.ring.lemma_addresses();
    }
}

/// Withdrawing a notification that has just been registered restores what was registered before.
pub proof fn law_unlink_undoes_link<C>(
    before: BinderNode<C>,
    after: BinderNode<C>,
    d: DeathRecipient<C>,
)
    requires
        before.wf(),
        after@ == before@.push(d),
        after.links() == before.links().push(before.issued() as usize),
    ensures
        ({
            let link = before.issued() as usize;
            let i = after.links().index_of(link);
            &&& after.links().contains(link)
            &&& after@.remove(i) == before@
            &&& after.links().remove(i) == before.links()
        }),
{
    let link = before.issued() as usize;
    before.lemma_links();
    lemma_last_of_fresh(before.links(), link);
    assert(after@.remove(before@.len() as int) =~= before@);
}

/// A notification is withdrawn at most once: its link leads nowhere afterwards.
pub proof fn law_link_is_good_once<C>(node: BinderNode<C>, link: usize)
    requires
        node.wf(),
        node.links().contains(link),
    ensures
        !node.links().remove(node.links().index_of(link)).contains(link),
{
    node.lemma_links();
    lemma_gone_once(node.links(), link);
}

/// The callbacks and cookies that a release hands out are those that were registered, in order.
pub proof fn law_release_delivers_everything<C>(s: Seq<DeathRecipient<C>>)
    ensures
        detached(s).len() == s.len(),
        forall|i: int|
            0 <= i < s.len() ==> (#[trigger] detached(s)[i]).callback == s[i].callback
                && detached(s)[i].cookie == s[i].cookie && detached(s)[i].link.detached,
{
}

/// A released node holds no notifications.
pub proof fn law_released_node_is_empty<C>(node: BinderNode<C>)
    requires
        node.wf(),
        node.releases() != 0,
    ensures
        node@ == Seq::<DeathRecipient<C>>::empty(),
{
    assert(node@ =~= Seq::empty());
}

/// A release keeps every notification at its position, with its callback, its cookie and the generation
/// it was registered in, and marks it as detached.
pub proof fn law_every_notification_is_delivered<C>(s: Seq<DeathRecipient<C>>)
    ensures
        detached(s).len() == s.len(),
        forall|i: int|
            0 <= i < s.len() ==> (#[trigger] detached(s)[i]).callback == s[i].callback && detached(
                s,
            )[i].cookie == s[i].cookie && detached(s)[i].link.generation == s[i].link.generation
                && detached(s)[i].link.detached,
{
}

/// A notification that is put on a list belongs to the generation of the list, is not detached, and
/// keeps its callback and its cookie.
pub proof fn law_attached_keeps_the_call<C>(d: DeathRecipient<C>, generation: u64)
    ensures
        attached(d, generation).callback == d.callback,
        attached(d, generation).cookie == d.cookie,
        attached(d, generation).link.generation == generation,
        !attached(d, generation).link.detached,
{
}

} // verus!
