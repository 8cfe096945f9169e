//! A node with pending one-way work beside its notifications. Both lists are emptied one item at a
//! time, so that the lock can be let go for each item.
use vstd::prelude::*;

use crate::owned::ends::DeathList;

verus! {

/// The lists of a node.
pub struct NodeInner<W, D> {
    oneway_todo: DeathList<W>,
    death_list: DeathList<D>,
}

/// What is to be done with an item that has been taken off.
pub enum Due<W, D> {
    /// The work item is to be cancelled.
    Cancel(W),
    /// The notification is to be told that the node is dead.
    SetDead(D),
}

/// Cancelling all of `work`, then telling all of `deaths`.
pub open spec fn schedule<W, D>(work: Seq<W>, deaths: Seq<D>) -> Seq<Due<W, D>> {
    work.map_values(|w: W| Due::<W, D>::Cancel(w)) + deaths.map_values(
        |d: D| Due::<W, D>::SetDead(d),
    )
}

impl<W, D> NodeInner<W, D> {
    /// The pending work, oldest first.
    pub closed spec fn work(self) -> Seq<W> {
        self.oneway_todo@
    }

    /// The notifications, oldest first.
    pub closed spec fn deaths(self) -> Seq<D> {
        self.death_list@
    }

    pub closed spec fn wf(self) -> bool {
        self.oneway_todo.wf() && self.death_list.wf()
    }

    pub fn new() -> (inner: NodeInner<W, D>)
        ensures
            inner.wf(),
            inner.work() == Seq::<W>::empty(),
            inner.deaths() == Seq::<D>::empty(),
    {
        NodeInner { oneway_todo: DeathList::new(), death_list: DeathList::new() }
    }

    /// Puts a work item behind the others.
    pub fn push_work(&mut self, work: W)
        requires
            old(self).wf(),
        ensures
            final(self).wf(),
            final(self).work() == old(self).work().push(work),
            final(self).deaths() == old(self).deaths(),
            final(self).addresses() == old(self).addresses(),
            final(self).issued() == old(self).issued(),
    {
        self.oneway_todo.push_back(work);
    }

    /// Puts a notification behind the others and hands out its address.
    pub fn push_death(&mut self, death: D) -> (addr: usize)
        requires
            old(self).wf(),
        ensures
            final(self).wf(),
            final(self).work() == old(self).work(),
            final(self).deaths() == old(self).deaths().push(death),
            addr == old(self).issued(),
            final(self).addresses() == old(self).addresses().push(addr),
            final(self).issued() == old(self).issued() + 1,
    {
        self.death_list.push_back(death)
    }

    /// The addresses of the notifications, oldest first.
    pub closed spec fn addresses(self) -> Seq<usize> {
        self.death_list.addresses()
    }

    /// How many addresses have been given out.
    pub closed spec fn issued(self) -> nat {
        self.death_list.issued()
    }

    /// Takes the notification at `addr` off, if it is still there.
    pub fn remove_death(&mut self, addr: usize) -> (death: Option<D>)
        requires
            old(self).wf(),
        ensures
            final(self).wf(),
            final(self).work() == old(self).work(),
            final(self).issued() == old(self).issued(),
            death is Some <==> old(self).addresses().contains(addr),
            death is None ==> final(self).deaths() == old(self).deaths() && final(self).addresses()
                == old(self).addresses(),
            death matches Some(d) ==> {
                let i = old(self).addresses().index_of(addr);
                &&& d == old(self).deaths()[i]
                &&& final(self).deaths() == old(self).deaths().remove(i)
                &&& final(self).addresses() == old(self).addresses().remove(i)
            },
    {
        self.death_list.remove(addr)
    }

    /// Takes off the next item of a release: the oldest work item, or when there is none the oldest
    /// notification.
    pub fn next_due(&mut self) -> (due: Option<Due<W, D>>)
        requires
            old(self).wf(),
        ensures
            final(self).wf(),
            due == if old(self).work().len() > 0 {
                Some(Due::<W, D>::Cancel(old(self).work()[0]))
            } else if old(self).deaths().len() > 0 {
                Some(Due::<W, D>::SetDead(old(self).deaths()[0]))
            } else {
                None
            },
            final(self).work() == if old(self).work().len() > 0 {
                old(self).work().remove(0)
            } else {
                old(self).work()
            },
            final(self).deaths() == if old(self).work().len() == 0 && old(self).deaths().len() > 0 {
                old(self).deaths().remove(0)
            } else {
                old(self).deaths()
            },
            final(self).addresses() == if old(self).work().len() == 0 && old(self).deaths().len()
                > 0 {
                old(self).addresses().remove(0)
            } else {
                old(self).addresses()
            },
            final(self).issued() == old(self).issued(),
    {
        if let Some(work) = self.oneway_todo.pop_front() {
            return Some(Due::Cancel(work));
        }
        match self.death_list.pop_front() {
            Some(death) => Some(Due::SetDead(death)),
            None => None,
        }
    }
}

/// A node.
pub struct Node<W, D> {
    pub inner: NodeInner<W, D>,
}

impl<W, D> Node<W, D> {
    /// Releases the node: hands out what is to be done with all its work items and notifications,
    /// in order, and leaves both lists empty.
    pub fn release(&mut self) -> (due: Vec<Due<W, D>>)
        requires
            old(self).inner.wf(),
        ensures
            final(self).inner.wf(),
            due@ == schedule(old(self).inner.work(), old(self).inner.deaths()),
            final(self).inner.work() == Seq::<W>::empty(),
            final(self).inner.deaths() == Seq::<D>::empty(),
            final(self).inner.addresses() == Seq::<usize>::empty(),
            final(self).inner.issued() == old(self).inner.issued(),
    {
        let mut due: Vec<Due<W, D>> = Vec::new();
        let ghost w = self.inner.work();
        let ghost d = self.inner.deaths();
        let ghost all = schedule(w, d);
        loop
            invariant
                self.inner.wf(),
                all == schedule(w, d),
                due@ + schedule(self.inner.work(), self.inner.deaths()) == all,
                self.inner.issued() == old(self).inner.issued(),
            ensures
                self.inner.work().len() == 0,
                self.inner.deaths().len() == 0,
            decreases self.inner.work().len() + self.inner.deaths().len(),
        {
            let ghost w0 = self.inner.work();
            let ghost d0 = self.inner.deaths();
            let ghost done = due@;
            match self.inner.next_due() {
                Some(item) => {
                    due.push(item);
                    proof {
                        assert(schedule(w0, d0) =~= seq![item] + schedule(
                            self.inner.work(),
                            self.inner.deaths(),
                        ));
                        assert(due@ + schedule(self.inner.work(), self.inner.deaths()) =~= done
                            + schedule(w0, d0));
                    }
                },
                None => {
                    break;
                },
            }
        }
        proof {
            assert(self.inner.work() =~= Seq::empty());
            assert(self.inner.deaths() =~= Seq::empty());
            self.inner.death_list.lemma_addresses();
            assert(self.inner.addresses() =~= Seq::empty());
            assert(due@ =~= all);
        }
        due
    }
}

/// A notification that has been taken off is not told of the death, and all else is done as before.
pub proof fn law_removed_notification_is_not_told<W, D>(work: Seq<W>, deaths: Seq<D>, i: int)
    requires
        0 <= i < deaths.len(),
    ensures
        schedule(work, deaths.remove(i)) == schedule(work, deaths).remove(work.len() + i),
{
    assert(schedule(work, deaths.remove(i)) =~= schedule(work, deaths).remove(work.len() + i));
}

/// On a release every work item is cancelled and after that every notification told, each once and in
/// order.
pub proof fn law_everything_is_due<W, D>(work: Seq<W>, deaths: Seq<D>)
    ensures
        schedule(work, deaths).len() == work.len() + deaths.len(),
        forall|i: int|
            0 <= i < work.len() ==> #[trigger] schedule(work, deaths)[i] == Due::<W, D>::Cancel(
                work[i],
            ),
        forall|i: int|
            0 <= i < deaths.len() ==> schedule(work, deaths)[work.len() + i]
                == Due::<W, D>::SetDead(#[trigger] deaths[i]),
{
}

} // verus!
