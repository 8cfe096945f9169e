//! A node with one-shot callbacks. Releasing it moves them to a list of their own, marked as
//! detached; removing a detached notification does nothing.
use vstd::prelude::*;

use crate::owned::head::DeathList;

verus! {

/// A notification.
pub struct DeathNotification<C> {
    /// Whether the notification has been moved to a list that is being cleaned up.
    pub detached: bool,
    pub callback: C,
}

impl<C> DeathNotification<C> {
    pub fn new(callback: C) -> (notification: DeathNotification<C>)
        ensures
            notification == (DeathNotification { detached: false, callback }),
    {
        DeathNotification { detached: false, callback }
    }
}

/// The callbacks of the notifications `s`.
pub open spec fn callbacks<C>(s: Seq<DeathNotification<C>>) -> Seq<C> {
    s.map_values(|d: DeathNotification<C>| d.callback)
}

/// `s` with every notification marked as detached.
pub open spec fn detached<C>(s: Seq<DeathNotification<C>>) -> Seq<DeathNotification<C>> {
    s.map_values(|d: DeathNotification<C>| DeathNotification { detached: true, callback: d.callback })
}

/// A list of notifications.
pub struct IntrusiveDeathList<C> {
    list: DeathList<DeathNotification<C>>,
}

impl<C> View for IntrusiveDeathList<C> {
    type V = Seq<DeathNotification<C>>;

    closed spec fn view(&self) -> Seq<DeathNotification<C>> {
        self.list@
    }
}

impl<C> IntrusiveDeathList<C> {
    /// The addresses of the notifications, most recently registered first.
    pub closed spec fn addresses(self) -> Seq<usize> {
        self.list.addresses()
    }

    /// How many addresses have been given out.
    pub closed spec fn issued(self) -> nat {
        self.list.issued()
    }

    pub closed spec fn wf(self) -> bool {
        self.list.wf()
    }

    pub fn new() -> (list: IntrusiveDeathList<C>)
        ensures
            list.wf(),
            list@ == Seq::<DeathNotification<C>>::empty(),
            list.addresses() == Seq::<usize>::empty(),
    {
        IntrusiveDeathList { list: DeathList::new() }
    }

    /// Puts a notification in front of the others and hands out its address.
    pub fn push(&mut self, notification: DeathNotification<C>) -> (addr: usize)
        requires
            old(self).wf(),
        ensures
            final(self).wf(),
            addr == old(self).issued(),
            final(self)@ == old(self)@.insert(0, notification),
            final(self).addresses() == old(self).addresses().insert(0, addr),
            final(self).issued() == old(self).issued() + 1,
    {
        self.list.insert(notification)
    }

    /// Moves all notifications to a list of their own, marked as detached. The addresses they had
    /// are no longer in use.
    pub fn take_for_cleanup(&mut self) -> (temp: IntrusiveDeathList<C>)
        requires
            old(self).wf(),
        ensures
            final(self).wf(),
            final(self)@ == Seq::<DeathNotification<C>>::empty(),
            final(self).addresses() == Seq::<usize>::empty(),
            final(self).issued() == old(self).issued(),
            temp.wf(),
            temp@ == detached(old(self)@),
    {
        let mut all: Vec<DeathNotification<C>> = self.list.take_all();
        let ghost s = all@;
        let mut temp: IntrusiveDeathList<C> = IntrusiveDeathList::new();
        proof {
            assert(s.take(s.len() as int) =~= s);
            assert(temp@ =~= detached(s.skip(s.len() as int)));
        }
        while !all.is_empty()
            invariant
                temp.wf(),
                all.len() <= s.len(),
                all@ == s.take(all.len() as int),
                temp@ == detached(s.skip(all.len() as int)),
            decreases all.len(),
        {
            let ghost k = all.len() as int;
            if let Some(notification) = all.pop() {
                temp.push(DeathNotification { detached: true, callback: notification.callback });
            }
            proof {
                assert(all@ =~= s.take(k - 1));
                assert(temp@ =~= detached(s.skip(k - 1)));
            }
        }
        assert(s.skip(0) =~= s);
        temp
    }

    /// Removes the notification at `addr`. One that is detached, or no longer there, is left alone.
    pub fn remove(&mut self, addr: usize)
        requires
            old(self).wf(),
        ensures
            final(self).wf(),
            final(self).issued() == old(self).issued(),
            ({
                let i = old(self).addresses().index_of(addr);
                if old(self).addresses().contains(addr) && !old(self)@[i].detached {
                    &&& final(self)@ == old(self)@.remove(i)
                    &&& final(self).addresses() == old(self).addresses().remove(i)
                } else {
                    *final(self) == *old(self)
                }
            }),
    {
        let attached: bool = match self.list.get(addr) {
            Some(notification) => !notification.detached,
            None => false,
        };
        if attached {
            self.list.remove(addr);
        }
    }

    /// Hands out the callbacks in order, to be called.
    pub fn notify_all(self) -> (due: Vec<C>)
        requires
            self.wf(),
        ensures
            due@ == callbacks(self@),
    {
        let mut list: DeathList<DeathNotification<C>> = self.list;
        let ghost s = list@;
        let mut due: Vec<C> = Vec::new();
        proof {
            assert(s.skip(0) =~= s);
            assert(due@ =~= callbacks(s.take(0)));
        }
        while !list.is_empty()
            invariant
                list.wf(),
                due.len() <= s.len(),
                list@ == s.skip(due.len() as int),
                due@ == callbacks(s.take(due.len() as int)),
            decreases list@.len(),
        {
            let ghost k = due.len() as int;
            if let Some(notification) = list.pop_front() {
                due.push(notification.callback);
            }
            proof {
                assert(list@ =~= s.skip(k + 1));
                assert(due@ =~= callbacks(s.take(k + 1)));
            }
        }
        assert(s.take(s.len() as int) =~= s);
        due
    }
}

/// The state of a node.
pub struct BinderNode<C> {
    id: u32,
    death_list: IntrusiveDeathList<C>,
    is_alive: bool,
}

impl<C> View for BinderNode<C> {
    type V = Seq<DeathNotification<C>>;

    closed spec fn view(&self) -> Seq<DeathNotification<C>> {
        self.death_list@
    }
}

impl<C> BinderNode<C> {
    pub closed spec fn lives(self) -> bool {
        self.is_alive
    }

    pub closed spec fn number(self) -> u32 {
        self.id
    }

    /// A dead node holds no notifications.
    pub closed spec fn wf(self) -> bool {
        &&& self.death_list.wf()
        &&& !self.is_alive ==> self.death_list@.len() == 0
    }

    /// Creates a live node without notifications.
    pub fn new(id: u32) -> (node: BinderNode<C>)
        ensures
            node.wf(),
            node@ == Seq::<DeathNotification<C>>::empty(),
            node.lives(),
            node.number() == id,
    {
        BinderNode { id, death_list: IntrusiveDeathList::new(), is_alive: true }
    }

    /// Registers a callback in front of the others. On a dead node it is handed back instead, to be
    /// called at once.
    pub fn register_death_notification(&mut self, callback: C) -> (due: Option<C>)
        requires
            old(self).wf(),
        ensures
            final(self).wf(),
            final(self).lives() == old(self).lives(),
            final(self).number() == old(self).number(),
            !old(self).lives() ==> due == Some(callback) && *final(self) == *old(self),
            old(self).lives() ==> due is None && final(self)@ == old(self)@.insert(
                0,
                DeathNotification { detached: false, callback },
            ),
    {
        if !self.is_alive {
            return Some(callback);
        }
        self.death_list.push(DeathNotification::new(callback));
        None
    }

    /// Lets the node die: all callbacks are handed out, most recently registered first. Releasing
    /// it again yields none.
    pub fn release(&mut self) -> (due: Vec<C>)
        requires
            old(self).wf(),
        ensures
            final(self).wf(),
            !final(self).lives(),
            final(self).number() == old(self).number(),
            !old(self).lives() ==> due@.len() == 0 && *final(self) == *old(self),
            old(self).lives() ==> due@ == callbacks(old(self)@) && final(self)@ == Seq::<
                DeathNotification<C>,
            >::empty(),
            old(self).lives() ==> due@.len() == old(self)@.len(),
            old(self).lives() ==> forall|i: int|
                0 <= i < old(self)@.len() ==> #[trigger] due@[i] == old(self)@[i].callback,
    {
        if !self.is_alive {
            return Vec::new();
        }
        self.is_alive = false;
        let temp_list: IntrusiveDeathList<C> = self.death_list.take_for_cleanup();
        assert(callbacks(temp_list@) =~= callbacks(old(self)@));
        temp_list.notify_all()
    }
}

/// On a list that is being cleaned up every notification is detached, so `remove` changes nothing.
pub proof fn law_detached_notifications_stay<C>(s: Seq<DeathNotification<C>>)
    ensures
        forall|i: int| 0 <= i < s.len() ==> (#[trigger] detached(s)[i]).detached,
        callbacks(detached(s)) == callbacks(s),
{
    assert(callbacks(detached(s)) =~= callbacks(s));
}

/// A dead node holds no notifications.
pub proof fn law_dead_node_is_empty<C>(node: BinderNode<C>)
    requires
        node.wf(),
        !node.lives(),
    ensures
        node@ == Seq::<DeathNotification<C>>::empty(),
{
    assert(node@ =~= Seq::empty());
}

/// Release hands out as many callbacks as notifications are registered, each the callback of the
/// notification at the same position.
pub proof fn law_every_notification_is_delivered<C>(s: Seq<DeathNotification<C>>)
    ensures
        callbacks(s).len() == s.len(),
        forall|i: int| 0 <= i < s.len() ==> #[trigger] callbacks(s)[i] == s[i].callback,
{
}

/// What is delivered for two runs of notifications one after the other is what is delivered for the
/// first and after it what is delivered for the second.
pub proof fn law_delivery_goes_on<C>(s: Seq<DeathNotification<C>>, t: Seq<DeathNotification<C>>)
    ensures
        callbacks(s + t) == callbacks(s) + callbacks(t),
{
    assert(callbacks(s + t) =~= callbacks(s) + callbacks(t));
}

/// Taking a list for clean-up keeps every notification at its position with its callback, and marks it.
pub proof fn law_cleanup_keeps_every_notification<C>(s: Seq<DeathNotification<C>>)
    ensures
        detached(s).len() == s.len(),
        forall|i: int|
            0 <= i < s.len() ==> (#[trigger] detached(s)[i]).callback == s[i].callback && detached(
                s,
            )[i].detached,
{
}

} // verus!
