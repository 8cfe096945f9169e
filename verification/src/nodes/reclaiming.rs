//! A node whose notifications carry a number that their callbacks are called with. It takes
//! notifications at any time, but withdraws none once it has been released.
use vstd::prelude::*;

use crate::owned::head::DeathList;
use crate::owned::{lemma_first_of_fresh, lemma_gone_once};

verus! {

/// A notification: a callback and the number it is to be called with.
pub struct DeathNotification<C> {
    pub id: u64,
    pub callback: C,
}

impl<C> DeathNotification<C> {
    pub fn new(id: u64, callback: C) -> (notification: DeathNotification<C>)
        ensures
            notification == (DeathNotification { id, callback }),
    {
        DeathNotification { id, callback }
    }
}

/// The calls that the notifications `s` make due.
pub open spec fn calls<C>(s: Seq<DeathNotification<C>>) -> Seq<(C, u64)> {
    s.map_values(|d: DeathNotification<C>| (d.callback, d.id))
}

/// The state of a node.
pub struct BinderNode<C> {
    death_list: DeathList<DeathNotification<C>>,
    released: bool,
}

impl<C> View for BinderNode<C> {
    type V = Seq<DeathNotification<C>>;

    closed spec fn view(&self) -> Seq<DeathNotification<C>> {
        self.death_list@
    }
}

impl<C> BinderNode<C> {
    pub closed spec fn is_released(self) -> bool {
        self.released
    }

    /// The addresses of the notifications, most recently registered first.
    pub closed spec fn addresses(self) -> Seq<usize> {
        self.death_list.addresses()
    }

    /// How many addresses have been given out.
    pub closed spec fn issued(self) -> nat {
        self.death_list.issued()
    }

    pub closed spec fn wf(self) -> bool {
        self.death_list.wf()
    }

    /// Creates a live node without notifications.
    pub fn new() -> (node: BinderNode<C>)
        ensures
            node.wf(),
            node@ == Seq::<DeathNotification<C>>::empty(),
            node.addresses() == Seq::<usize>::empty(),
            !node.is_released(),
    {
        BinderNode { death_list: DeathList::new(), released: false }
    }

    /// Registers a notification in front of the others and hands out its address.
    pub fn register_death(&mut self, death: DeathNotification<C>) -> (addr: usize)
        requires
            old(self).wf(),
        ensures
            final(self).wf(),
            final(self).is_released() == old(self).is_released(),
            addr == old(self).issued(),
            final(self)@ == old(self)@.insert(0, death),
            final(self).addresses() == old(self).addresses().insert(0, addr),
            final(self).issued() == old(self).issued() + 1,
    {
        add_to_list(&mut self.death_list, death)
    }

    /// Withdraws the notification at `death`, unless the node has been released or it is no longer
    /// registered.
    pub fn unregister_death(&mut self, death: usize)
        requires
            old(self).wf(),
        ensures
            final(self).wf(),
            final(self).is_released() == old(self).is_released(),
            final(self).issued() == old(self).issued(),
            if !old(self).is_released() && old(self).addresses().contains(death) {
                let i = old(self).addresses().index_of(death);
                &&& final(self)@ == old(self)@.remove(i)
                &&& final(self).addresses() == old(self).addresses().remove(i)
            } else {
                *final(self) == *old(self)
            },
    {
        if self.released {
            return;
        }
        remove_from_list(&mut self.death_list, death);
    }

    /// Releases the node: the calls of all notifications are handed out, most recently registered
    /// first.
    pub fn release(&mut self) -> (due: Vec<(C, u64)>)
        requires
            old(self).wf(),
        ensures
            final(self).wf(),
            final(self).is_released(),
            final(self)@ == Seq::<DeathNotification<C>>::empty(),
            final(self).addresses() == Seq::<usize>::empty(),
            due@ == calls(old(self)@),
    {
        let mut temp: DeathList<DeathNotification<C>> = DeathList::new();
        std::mem::swap(&mut self.death_list, &mut temp);
        self.released = true;
        process_death_notifications(temp)
    }
}

impl<C> BinderNode<C> {
    /// What holds of every node: one address per notification, no address twice, all of them given
    /// out.
    pub proof fn lemma_addresses(self)
        requires
            self.wf(),
        ensures
            self.addresses().len() == self@.len(),
            self.addresses().no_duplicates(),
            forall|i: int|
                0 <= i < self.addresses().len() ==> (#[trigger] self.addresses()[i])
                    < self.issued(),
            self.issued() <= usize::MAX,
    {
        self.death_list.lemma_addresses();
    }
}

/// Withdrawing a notification that has just been registered restores what was registered before.
pub proof fn law_unregister_undoes_register<C>(
    before: BinderNode<C>,
    after: BinderNode<C>,
    d: DeathNotification<C>,
)
    requires
        before.wf(),
        after@ == before@.insert(0, d),
        after.addresses() == before.addresses().insert(0, before.issued() as usize),
    ensures
        ({
            let addr = before.issued() as usize;
            let i = after.addresses().index_of(addr);
            &&& after.addresses().contains(addr)
            &&& after@.remove(i) == before@
            &&& after.addresses().remove(i) == before.addresses()
        }),
{
    before.lemma_addresses();
    lemma_first_of_fresh(before.addresses(), before.issued() as usize);
    assert(after@.remove(0) =~= before@);
}

/// A notification is withdrawn at most once: its address leads nowhere afterwards.
pub proof fn law_address_is_good_once<C>(node: BinderNode<C>, addr: usize)
    requires
        node.wf(),
        node.addresses().contains(addr),
    ensures
        !node.addresses().remove(node.addresses().index_of(addr)).contains(addr),
{
    node.lemma_addresses();
    lemma_gone_once(node.addresses(), addr);
}

/// Puts a notification in front of a list and hands out its address.
pub fn add_to_list<C>(list: &mut DeathList<DeathNotification<C>>, entry: DeathNotification<C>) -> (addr:
    usize)
    requires
        old(list).wf(),
    ensures
        final(list).wf(),
        addr == old(list).issued(),
        final(list)@ == old(list)@.insert(0, entry),
        final(list).addresses() == old(list).addresses().insert(0, addr),
        final(list).issued() == old(list).issued() + 1,
{
    list.insert(entry)
}

/// Takes the notification at `entry` off a list, if it is there.
pub fn remove_from_list<C>(list: &mut DeathList<DeathNotification<C>>, entry: usize)
    requires
        old(list).wf(),
    ensures
        final(list).wf(),
        final(list).issued() == old(list).issued(),
        if old(list).addresses().contains(entry) {
            let i = old(list).addresses().index_of(entry);
            &&& final(list)@ == old(list)@.remove(i)
            &&& final(list).addresses() == old(list).addresses().remove(i)
        } else {
            *final(list) == *old(list)
        },
{
    list.remove(entry);
}

/// Takes a list apart and hands out the calls that are due, in order.
pub fn process_death_notifications<C>(list: DeathList<DeathNotification<C>>) -> (due: Vec<
    (C, u64),
>)
    requires
        list.wf(),
    ensures
        due@ == calls(list@),
{
    let mut list: DeathList<DeathNotification<C>> = list;
    let ghost s = list@;
    let mut due: Vec<(C, u64)> = Vec::new();
    proof {
        assert(s.skip(0) =~= s);
        assert(due@ =~= calls(s.take(0)));
    }
    while !list.is_empty()
        invariant
            list.wf(),
            due.len() <= s.len(),
            list@ == s.skip(due.len() as int),
            due@ == calls(s.take(due.len() as int)),
        decreases list@.len(),
    {
        let ghost k = due.len() as int;
        if let Some(death) = list.pop_front() {
            due.push((death.callback, death.id));
        }
        proof {
            assert(list@ =~= s.skip(k + 1));
            assert(due@ =~= calls(s.take(k + 1)));
        }
    }
    assert(s.take(s.len() as int) =~= s);
    due
}

/// Release makes as many calls due as notifications are registered, each with the callback and the
/// number of the notification at the same position.
pub proof fn law_every_notification_is_delivered<C>(s: Seq<DeathNotification<C>>)
    ensures
        calls(s).len() == s.len(),
        forall|i: int|
            0 <= i < s.len() ==> (#[trigger] calls(s)[i]).0 == s[i].callback && calls(s)[i].1
                == s[i].id,
{
}

/// What is due for two runs of notifications one after the other is what is due for the first and
/// after it what is due for the second.
pub proof fn law_delivery_goes_on<C>(s: Seq<DeathNotification<C>>, t: Seq<DeathNotification<C>>)
    ensures
        calls(s + t) == calls(s) + calls(t),
{
    assert(calls(s + t) =~= calls(s) + calls(t));
}

} // verus!
