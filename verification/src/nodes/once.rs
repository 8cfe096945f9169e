//! A node that is released once. It takes recipients at any time; those that come after the release
//! are kept but not notified.
use vstd::prelude::*;

use crate::owned::head;

verus! {

/// A list of recipients.
pub struct DeathList<R> {
    list: head::DeathList<R>,
}

impl<R> View for DeathList<R> {
    type V = Seq<R>;

    closed spec fn view(&self) -> Seq<R> {
        self.list@
    }
}

impl<R> DeathList<R> {
    pub closed spec fn wf(self) -> bool {
        self.list.wf()
    }

    pub fn new() -> (list: DeathList<R>)
        ensures
            list.wf(),
            list@ == Seq::<R>::empty(),
    {
        DeathList { list: head::DeathList::new() }
    }

    /// Puts a recipient in front of the others.
    pub fn add(&mut self, recipient: R)
        requires
            old(self).wf(),
        ensures
            final(self).wf(),
            final(self)@ == old(self)@.insert(0, recipient),
    {
        self.list.insert(recipient);
    }

    /// Moves all recipients to a list of their own.
    pub fn take(&mut self) -> (temp: DeathList<R>)
        requires
            old(self).wf(),
        ensures
            final(self).wf(),
            final(self)@ == Seq::<R>::empty(),
            temp.wf(),
            temp@ == old(self)@,
    {
        let mut temp: DeathList<R> = DeathList::new();
        std::mem::swap(&mut self.list, &mut temp.list);
        temp
    }

    /// Takes the list apart and hands out the recipients in order, to be notified.
    pub fn cleanup(self) -> (due: Vec<R>)
        requires
            self.wf(),
        ensures
            due@ == self@,
    {
        let mut list: head::DeathList<R> = self.list;
        list.take_all()
    }
}

/// The state of a node.
pub struct BinderNode<R> {
    death_notifications: DeathList<R>,
    released: bool,
}

impl<R> View for BinderNode<R> {
    type V = Seq<R>;

    closed spec fn view(&self) -> Seq<R> {
        self.death_notifications@
    }
}

impl<R> BinderNode<R> {
    pub closed spec fn is_released(self) -> bool {
        self.released
    }

    pub closed spec fn wf(self) -> bool {
        self.death_notifications.wf()
    }

    /// Creates a node without recipients.
    pub fn new() -> (node: BinderNode<R>)
        ensures
            node.wf(),
            node@ == Seq::<R>::empty(),
            !node.is_released(),
    {
        BinderNode { death_notifications: DeathList::new(), released: false }
    }

    /// Registers a recipient in front of the others.
    pub fn register_death_notification(&mut self, recipient: R)
        requires
            old(self).wf(),
        ensures
            final(self).wf(),
            final(self).is_released() == old(self).is_released(),
            final(self)@ == old(self)@.insert(0, recipient),
    {
        self.death_notifications.add(recipient);
    }

    /// Releases the node: all recipients are handed out, most recently registered first. Releasing
    /// it again changes nothing and yields none.
    pub fn release(&mut self) -> (due: Vec<R>)
        requires
            old(self).wf(),
        ensures
            final(self).wf(),
            final(self).is_released(),
            old(self).is_released() ==> due@.len() == 0 && *final(self) == *old(self),
            !old(self).is_released() ==> due@ == old(self)@ && final(self)@ == Seq::<R>::empty(),
    {
        if self.released {
            return Vec::new();
        }
        self.released = true;
        let temp: DeathList<R> = self.death_notifications.take();
        temp.cleanup()
    }
}

} // verus!
