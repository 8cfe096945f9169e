//! A node whose registered recipients are known by handles. The recipient of a notification that is
//! registered on a dead node is called at once.
use vstd::prelude::*;

use crate::owned::head::DeathList;
use crate::owned::{lemma_first_of_fresh, lemma_gone_once};

verus! {

/// The state of a node.
pub struct BinderNode<C> {
    death_list: DeathList<C>,
    alive: bool,
    id: u64,
}

impl<C> View for BinderNode<C> {
    type V = Seq<C>;

    closed spec fn view(&self) -> Seq<C> {
        self.death_list@
    }
}

impl<C> BinderNode<C> {
    pub closed spec fn lives(self) -> bool {
        self.alive
    }

    pub closed spec fn number(self) -> u64 {
        self.id
    }

    /// The handles of the recipients, most recently registered first.
    pub closed spec fn handles(self) -> Seq<usize> {
        self.death_list.addresses()
    }

    /// How many handles have been given out.
    pub closed spec fn issued(self) -> nat {
        self.death_list.issued()
    }

    /// A dead node holds no notifications.
    pub closed spec fn wf(self) -> bool {
        &&& self.death_list.wf()
        &&& !self.alive ==> self.death_list@.len() == 0
    }

    /// What holds of every node: no two recipients share a handle, and none has one that is still
    /// to be given out.
    pub proof fn lemma_handles(self)
        requires
            self.wf(),
        ensures
            self.handles().len() == self@.len(),
            self.handles().no_duplicates(),
            forall|i: int|
                0 <= i < self.handles().len() ==> (#[trigger] self.handles()[i]) < self.issued(),
            self.issued() <= usize::MAX,
    {
        self.death_list.lemma_addresses();
    }

    /// Creates a live node without recipients.
    pub fn new(id: u64) -> (node: BinderNode<C>)
        ensures
            node.wf(),
            node@ == Seq::<C>::empty(),
            node.handles() == Seq::<usize>::empty(),
            node.lives(),
            node.number() == id,
    {
        BinderNode { death_list: DeathList::new(), alive: true, id }
    }

    /// Registers a recipient in front of the others and hands out its handle. On a dead node the
    /// callback is handed back instead, to be called at once.
    pub fn link_to_death(&mut self, callback: C) -> (linked: Result<usize, C>)
        requires
            old(self).wf(),
        ensures
            final(self).wf(),
            final(self).lives() == old(self).lives(),
            final(self).number() == old(self).number(),
            !old(self).lives() ==> linked == Err::<usize, C>(callback) && *final(self) == *old(self),
            old(self).lives() ==> {
                &&& linked matches Ok(handle) && handle == old(self).issued()
                &&& final(self)@ == old(self)@.insert(0, callback)
                &&& final(self).handles() == old(self).handles().insert(0, linked->Ok_0)
                &&& final(self).issued() == old(self).issued() + 1
            },
    {
        if !self.alive {
            return Err(callback);
        }
        Ok(self.death_list.insert(callback))
    }

    /// Withdraws a recipient. Says whether it was registered; on a dead node none is.
    pub fn unlink_to_death(&mut self, recipient: usize) -> (unlinked: bool)
        requires
            old(self).wf(),
        ensures
            final(self).wf(),
            final(self).lives() == old(self).lives(),
            final(self).number() == old(self).number(),
            final(self).issued() == old(self).issued(),
            unlinked == (old(self).lives() && old(self).handles().contains(recipient)),
            !unlinked ==> *final(self) == *old(self),
            unlinked ==> {
                let i = old(self).handles().index_of(recipient);
                &&& final(self)@ == old(self)@.remove(i)
                &&& final(self).handles() == old(self).handles().remove(i)
            },
    {
        if !self.alive {
            return false;
        }
        self.death_list.remove(recipient).is_some()
    }

    /// Lets the node die: the callbacks of all recipients are handed out, most recently registered
    /// first. Releasing it again yields none.
    pub fn release(&mut self) -> (due: Vec<C>)
        requires
            old(self).wf(),
        ensures
            final(self).wf(),
            !final(self).lives(),
            final(self).number() == old(self).number(),
            final(self).issued() == old(self).issued(),
            !old(self).lives() ==> due@.len() == 0 && *final(self) == *old(self),
            old(self).lives() ==> due@ == old(self)@ && final(self)@ == Seq::<C>::empty() && final(
                self).handles() == Seq::<usize>::empty(),
    {
        if !self.alive {
            return Vec::new();
        }
        self.alive = false;
        self.death_list.take_all()
    }

    /// Whether the node is still alive.
    pub fn is_alive(&self) -> (alive: bool)
        ensures
            alive == self.lives(),
    {
        self.alive
    }
}

/// Withdrawing a recipient that has just been registered restores what was registered before.
pub proof fn law_unlink_undoes_link<C>(before: BinderNode<C>, after: BinderNode<C>, callback: C)
    requires
        before.wf(),
        before.lives(),
        after@ == before@.insert(0, callback),
        after.handles() == before.handles().insert(0, before.issued() as usize),
    ensures
        after.handles().contains(before.issued() as usize),
        after@.remove(after.handles().index_of(before.issued() as usize)) == before@,
        after.handles().remove(after.handles().index_of(before.issued() as usize))
            == before.handles(),
{
    before.lemma_handles();
    lemma_first_of_fresh(before.handles(), before.issued() as usize);
    assert(after@.remove(0) =~= before@);
}

/// A handle that has been withdrawn is not valid a second time.
pub proof fn law_handle_is_good_once<C>(before: BinderNode<C>, handle: usize)
    requires
        before.wf(),
        before.handles().contains(handle),
    ensures
        !before.handles().remove(before.handles().index_of(handle)).contains(handle),
{
    before.lemma_handles();
    lemma_gone_once(before.handles(), handle);
}

/// A dead node holds no notifications.
pub proof fn law_dead_node_is_empty<C>(node: BinderNode<C>)
    requires
        node.wf(),
        !node.lives(),
    ensures
        node@ == Seq::<C>::empty(),
{
    assert(node@ =~= Seq::empty());
}

} // verus!
