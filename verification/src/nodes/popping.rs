//! A node that takes its notifications off one at a time when it is released, so that its lock can
//! be let go for each callback.
use vstd::prelude::*;

use crate::links::ListLink;
use crate::owned::head::DeathList;
use crate::owned::{lemma_position, position, Matches};

verus! {

/// A registered notification.
pub struct DeathNode<C> {
    pub recipient: C,
    /// What identifies the callback to its owner.
    pub recipient_id: usize,
    pub is_dead: bool,
}

impl<C> DeathNode<C> {
    /// Creates a notification that has not been delivered.
    pub fn new(recipient: C, recipient_id: usize) -> (node: DeathNode<C>)
        ensures
            node == (DeathNode { recipient, recipient_id, is_dead: false }),
    {
        DeathNode { recipient, recipient_id, is_dead: false }
    }
}

impl<C> Matches<usize> for DeathNode<C> {
    open spec fn matches(self, key: usize) -> bool {
        self.recipient_id == key
    }

    fn is_match(&self, key: &usize) -> (found: bool) {
        self.recipient_id == *key
    }
}

/// The state of a node.
pub struct BinderNode<C> {
    death_list: DeathList<DeathNode<C>>,
    death_count: usize,
    is_released: bool,
}

/// The callbacks of the notifications `s`.
pub open spec fn recipients<C>(s: Seq<DeathNode<C>>) -> Seq<C> {
    s.map_values(|d: DeathNode<C>| d.recipient)
}

impl<C> View for BinderNode<C> {
    type V = Seq<DeathNode<C>>;

    closed spec fn view(&self) -> Seq<DeathNode<C>> {
        self.death_list@
    }
}

impl<C> BinderNode<C> {
    pub closed spec fn released(self) -> bool {
        self.is_released
    }

    /// The count is the number of notifications, none of which has been delivered.
    pub closed spec fn wf(self) -> bool {
        &&& self.death_list.wf()
        &&& self.death_count == self.death_list@.len()
        &&& forall|i: int| 0 <= i < self.death_list@.len() ==> !(#[trigger] self.death_list@[i]).is_dead
    }

    /// Creates a live node without notifications.
    pub fn new() -> (node: BinderNode<C>)
        ensures
            node.wf(),
            node@ == Seq::<DeathNode<C>>::empty(),
            !node.released(),
    {
        BinderNode { death_list: DeathList::new(), death_count: 0, is_released: false }
    }

    /// Registers a notification in front of the others. On a released node it is handed back
    /// instead, to be called at once.
    pub fn register_death_notification(&mut self, recipient: C, recipient_id: usize) -> (due:
        Option<C>)
        requires
            old(self).wf(),
        ensures
            final(self).wf(),
            final(self).released() == old(self).released(),
            old(self).released() ==> due == Some(recipient) && final(self)@ == old(self)@,
            !old(self).released() ==> due is None && final(self)@ == old(self)@.insert(
                0,
                (DeathNode { recipient, recipient_id, is_dead: false }),
            ),
    {
        if self.is_released {
            return Some(recipient);
        }
        let ghost before = self.death_list@;
        self.death_list.insert(DeathNode::new(recipient, recipient_id));
        proof {
            self.death_list.lemma_addresses();
            assert forall|i: int| 0 <= i < self.death_list@.len() implies !(
            #[trigger] self.death_list@[i]).is_dead by {
                if i > 0 {
                    assert(self.death_list@[i] == before[i - 1]);
                }
            }
        }
        self.death_count = self.death_count + 1;
        None
    }

    /// Withdraws the first notification whose callback is `recipient_id`. On a released node
    /// nothing is withdrawn.
    pub fn unregister_death_notification(&mut self, recipient_id: usize) -> (found: bool)
        requires
            old(self).wf(),
        ensures
            final(self).wf(),
            final(self).released() == old(self).released(),
            found == (!old(self).released() && position(old(self)@, recipient_id) < old(self)@.len()),
            found <==> !old(self).released() && exists|i: int|
                0 <= i < old(self)@.len() && (#[trigger] old(self)@[i]).recipient_id == recipient_id,
            found ==> exists|i: int|
                {
                    &&& 0 <= i < old(self)@.len()
                    &&& old(self)@[i].recipient_id == recipient_id
                    &&& forall|j: int| 0 <= j < i ==> (#[trigger] old(self)@[j]).recipient_id != recipient_id
                    &&& final(self)@ == #[trigger] old(self)@.remove(i)
                },
            final(self)@ == if found {
                old(self)@.remove(position(old(self)@, recipient_id))
            } else {
                old(self)@
            },
    {
        if self.is_released {
            return false;
        }
        let ghost before = self.death_list@;
        let ghost i = position(before, recipient_id);
        proof {
            lemma_position(before, recipient_id);
            self.death_list.lemma_addresses();
        }
        let found: ListLink = self.death_list.find(&recipient_id);
        match found {
            Some(addr) => {
                assert(self.death_list.addresses().index_of(addr) == i);
                self.death_list.remove(addr);
                self.death_count = self.death_count - 1;
                proof {
                    assert(before[i].recipient_id == recipient_id);
                    assert(self.death_list@ == before.remove(i));
                    assert forall|j: int| 0 <= j < self.death_list@.len() implies !(
                    #[trigger] self.death_list@[j]).is_dead by {
                        assert(self.death_list@[j] == before[if j < i {
                            j
                        } else {
                            j + 1
                        }]);
                    }
                }
                true
            },
            None => false,
        }
    }

    /// Marks the node as released. Says whether it was still alive.
    pub fn begin_release(&mut self) -> (first: bool)
        requires
            old(self).wf(),
        ensures
            final(self).wf(),
            first == !old(self).released(),
            final(self).released(),
            final(self)@ == old(self)@,
    {
        if self.is_released {
            return false;
        }
        self.is_released = true;
        true
    }

    /// Takes the first notification off and hands out its callback.
    pub fn next_death(&mut self) -> (due: Option<C>)
        requires
            old(self).wf(),
        ensures
            final(self).wf(),
            final(self).released() == old(self).released(),
            due is Some <==> old(self)@.len() > 0,
            due is None ==> final(self)@ == old(self)@,
            due matches Some(c) ==> c == old(self)@[0].recipient && final(self)@ == old(self)@.remove(0),
    {
        let ghost before = self.death_list@;
        match self.death_list.pop_front() {
            Some(death_node) => {
                self.death_count = self.death_count - 1;
                proof {
                    assert forall|j: int| 0 <= j < self.death_list@.len() implies !(
                    #[trigger] self.death_list@[j]).is_dead by {
                        assert(self.death_list@[j] == before[j + 1]);
                    }
                    assert(!before[0].is_dead);
                }
                if death_node.is_dead {
                    return None;
                }
                Some(death_node.recipient)
            },
            None => None,
        }
    }

    /// Releases the node: the callbacks of all notifications are handed out, most recently
    /// registered first. Releasing it again yields none.
    pub fn release(&mut self) -> (due: Vec<C>)
        requires
            old(self).wf(),
        ensures
            final(self).wf(),
            final(self).released(),
            due@ == if old(self).released() {
                Seq::<C>::empty()
            } else {
                recipients(old(self)@)
            },
            !old(self).released() ==> due@.len() == old(self)@.len(),
            !old(self).released() ==> forall|i: int|
                0 <= i < old(self)@.len() ==> #[trigger] due@[i] == old(self)@[i].recipient,
            final(self)@ == if old(self).released() {
                old(self)@
            } else {
                Seq::empty()
            },
    {
        let mut due: Vec<C> = Vec::new();
        if !self.begin_release() {
            return due;
        }
        let ghost s = self@;
        proof {
            assert(s.skip(0) =~= s);
            assert(due@ =~= recipients(s.take(0)));
        }
        loop
            invariant
                self.wf(),
                self.released(),
                due.len() <= s.len(),
                self@ == s.skip(due.len() as int),
                due@ == recipients(s.take(due.len() as int)),
            ensures
                self@.len() == 0,
            decreases self@.len(),
        {
            let ghost k = due.len() as int;
            match self.next_death() {
                Some(recipient) => {
                    due.push(recipient);
                    proof {
                        assert(self@ =~= s.skip(k + 1));
                        assert(due@ =~= recipients(s.take(k + 1)));
                    }
                },
                None => {
                    break;
                },
            }
        }
        proof {
            assert(s.take(s.len() as int) =~= s);
            assert(self@ =~= Seq::empty());
        }
        due
    }
}

/// Withdrawing the callback that was registered last restores what was registered before it.
pub proof fn law_unregister_undoes_register<C>(s: Seq<DeathNode<C>>, d: DeathNode<C>)
    ensures
        position(s.insert(0, d), d.recipient_id) == 0,
        s.insert(0, d).remove(0) == s,
{
    assert(s.insert(0, d).remove(0) =~= s);
}

/// After a notification has been withdrawn, release hands out all others and nothing else, in the
/// same order.
pub proof fn law_withdrawn_is_not_delivered<C>(s: Seq<DeathNode<C>>, recipient_id: usize)
    requires
        position(s, recipient_id) < s.len(),
    ensures
        recipients(s.remove(position(s, recipient_id))) == recipients(s).remove(
            position(s, recipient_id),
        ),
{
    lemma_position(s, recipient_id);
    let i = position(s, recipient_id);
    assert(recipients(s.remove(i)) =~= recipients(s).remove(i));
}

/// Release hands out as many callbacks as notifications are registered, each the callback of the
/// notification at the same position.
pub proof fn law_every_notification_is_delivered<C>(s: Seq<DeathNode<C>>)
    ensures
        recipients(s).len() == s.len(),
        forall|i: int| 0 <= i < s.len() ==> #[trigger] recipients(s)[i] == s[i].recipient,
{
}

/// What is delivered for two runs of notifications one after the other is what is delivered for the
/// first and after it what is delivered for the second.
pub proof fn law_delivery_goes_on<C>(s: Seq<DeathNode<C>>, t: Seq<DeathNode<C>>)
    ensures
        recipients(s + t) == recipients(s) + recipients(t),
{
    assert(recipients(s + t) =~= recipients(s) + recipients(t));
}

/// The search finds the first notification whose `recipient_id` is the one asked for, and none if no
/// notification has it.
pub proof fn law_search_goes_by_recipient_id<C>(s: Seq<DeathNode<C>>, recipient_id: usize)
    ensures
        0 <= position(s, recipient_id) <= s.len(),
        position(s, recipient_id) < s.len() <==> exists|i: int|
            0 <= i < s.len() && (#[trigger] s[i]).recipient_id == recipient_id,
        position(s, recipient_id) < s.len() ==> s[position(s, recipient_id)].recipient_id == recipient_id,
        forall|j: int| 0 <= j < position(s, recipient_id) ==> (#[trigger] s[j]).recipient_id != recipient_id,
{
    lemma_position(s, recipient_id);
}

} // verus!
