//! A node that numbers its notifications by generation. Releasing it starts a new generation, so that
//! notifications on their way out are not taken for registered ones.
use vstd::prelude::*;

use crate::links::ListLink;
use crate::owned::head::DeathList;
use crate::owned::{lemma_position, position, Matches};

verus! {

/// A registered notification.
pub struct DeathNode<C> {
    pub recipient: C,
    /// What identifies the callback to its owner.
    pub recipient_id: usize,
    /// The generation of the node when the notification was registered.
    pub generation: u64,
    /// Whether the notification has been taken off the list.
    pub detached: bool,
    pub is_dead: bool,
}

impl<C> DeathNode<C> {
    /// Creates a notification that has not been delivered.
    pub fn new(recipient: C, recipient_id: usize, generation: u64) -> (node: DeathNode<C>)
        ensures
            node == (DeathNode {
                recipient,
                recipient_id,
                generation,
                detached: false,
                is_dead: false,
            }),
    {
        DeathNode { recipient, recipient_id, generation, detached: false, is_dead: false }
    }
}

/// What a notification is searched for by: its callback and the current generation.
pub struct Wanted {
    pub recipient_id: usize,
    pub generation: u64,
}

impl<C> Matches<Wanted> for DeathNode<C> {
    open spec fn matches(self, key: Wanted) -> bool {
        &&& self.generation == key.generation
        &&& !self.detached
        &&& self.recipient_id == key.recipient_id
    }

    fn is_match(&self, key: &Wanted) -> (found: bool) {
        if self.generation != key.generation || self.detached {
            return false;
        }
        self.recipient_id == key.recipient_id
    }
}

/// The state of a node.
pub struct BinderNode<C> {
    death_list: DeathList<DeathNode<C>>,
    generation: u64,
    is_released: bool,
}

/// A notification of the generation `generation` that is still to be delivered.
pub open spec fn current<C>(d: DeathNode<C>, generation: u64) -> bool {
    d.generation == generation && !d.detached && !d.is_dead
}

/// The callbacks of the notifications `s`.
pub open spec fn recipients<C>(s: Seq<DeathNode<C>>) -> Seq<C> {
    s.map_values(|d: DeathNode<C>| d.recipient)
}

impl<C> View for BinderNode<C> {
    type V = Seq<DeathNode<C>>;

    closed spec fn view(&self) -> Seq<DeathNode<C>> {
        self.death_list@
    }
}

impl<C> BinderNode<C> {
    pub closed spec fn released(self) -> bool {
        self.is_released
    }

    /// The number of the current generation.
    pub closed spec fn generation(self) -> u64 {
        self.generation
    }

    /// Every notification on the list is one of the current generation and still to be delivered. A
    /// released node holds none.
    pub closed spec fn wf(self) -> bool {
        &&& self.death_list.wf()
        &&& self.is_released ==> self.death_list@.len() == 0
        &&& forall|i: int|
            0 <= i < self.death_list@.len() ==> current(
                #[trigger] self.death_list@[i],
                self.generation,
            )
    }

    /// The search key for a callback.
    pub open spec fn wanted(self, recipient_id: usize) -> Wanted {
        Wanted { recipient_id, generation: self.generation() }
    }

    /// On a well-formed node the search goes by the callback alone.
    pub proof fn lemma_wanted(self, recipient_id: usize)
        requires
            self.wf(),
        ensures
            forall|i: int|
                0 <= i < self@.len() ==> ((#[trigger] self@[i]).matches(self.wanted(recipient_id))
                    <==> self@[i].recipient_id == recipient_id),
    {
    }

    /// Creates a live node without notifications.
    pub fn new() -> (node: BinderNode<C>)
        ensures
            node.wf(),
            node@ == Seq::<DeathNode<C>>::empty(),
            !node.released(),
            node.generation() == 0,
    {
        BinderNode { death_list: DeathList::new(), generation: 0, is_released: false }
    }

    /// Registers a notification in front of the others. On a released node it is handed back
    /// instead, to be called at once.
    pub fn register_death_notification(&mut self, recipient: C, recipient_id: usize) -> (due:
        Option<C>)
        requires
            old(self).wf(),
        ensures
            final(self).wf(),
            final(self).released() == old(self).released(),
            final(self).generation() == old(self).generation(),
            old(self).released() ==> due == Some(recipient) && final(self)@ == old(self)@,
            !old(self).released() ==> due is None && final(self)@ == old(self)@.insert(
                0,
                (DeathNode {
                    recipient,
                    recipient_id,
                    generation: old(self).generation(),
                    detached: false,
                    is_dead: false,
                }),
            ),
    {
        if self.is_released {
            return Some(recipient);
        }
        let ghost before = self.death_list@;
        self.death_list.insert(DeathNode::new(recipient, recipient_id, self.generation));
        proof {
            assert forall|i: int| 0 <= i < self.death_list@.len() implies current(
                #[trigger] self.death_list@[i],
                self.generation,
            ) by {
                if i > 0 {
                    assert(self.death_list@[i] == before[i - 1]);
                }
            }
        }
        None
    }

    /// Withdraws the first notification whose callback is `recipient_id`. On a released node
    /// nothing is withdrawn.
    pub fn unregister_death_notification(&mut self, recipient_id: usize) -> (found: bool)
        requires
            old(self).wf(),
        ensures
            final(self).wf(),
            final(self).released() == old(self).released(),
            final(self).generation() == old(self).generation(),
            found == (!old(self).released() && position(
                old(self)@,
                old(self).wanted(recipient_id),
            ) < old(self)@.len()),
            found <==> !old(self).released() && exists|i: int|
                0 <= i < old(self)@.len() && (#[trigger] old(self)@[i]).recipient_id == recipient_id,
            found ==> exists|i: int|
                {
                    &&& 0 <= i < old(self)@.len()
                    &&& old(self)@[i].recipient_id == recipient_id
                    &&& forall|j: int| 0 <= j < i ==> (#[trigger] old(self)@[j]).recipient_id != recipient_id
                    &&& final(self)@ == #[trigger] old(self)@.remove(i)
                },
            final(self)@ == if found {
                old(self)@.remove(position(old(self)@, old(self).wanted(recipient_id)))
            } else {
                old(self)@
            },
    {
        if self.is_released {
            return false;
        }
        let ghost before = self.death_list@;
        let wanted = Wanted { recipient_id, generation: self.generation };
        let ghost i = position(before, wanted);
        proof {
            lemma_position(before, wanted);
            self.death_list.lemma_addresses();
        }
        let found: ListLink = self.death_list.find(&wanted);
        match found {
            Some(addr) => {
                assert(self.death_list.addresses().index_of(addr) == i);
                self.death_list.remove(addr);
                proof {
                    assert forall|j: int| 0 <= j < self.death_list@.len() implies current(
                        #[trigger] self.death_list@[j],
                        self.generation,
                    ) by {
                        assert(self.death_list@[j] == before[if j < i {
                            j
                        } else {
                            j + 1
                        }]);
                    }
                }
                true
            },
            None => false,
        }
    }

    /// Releases the node: the callbacks of all notifications are handed out, most recently
    /// registered first. Releasing it again yields none.
    pub fn release(&mut self) -> (due: Vec<C>)
        requires
            old(self).wf(),
        ensures
            final(self).wf(),
            final(self).released(),
            final(self).generation() == if old(self).released() {
                old(self).generation()
            } else if old(self).generation() == u64::MAX {
                0
            } else {
                (old(self).generation() + 1) as u64
            },
            due@ == if old(self).released() {
                Seq::<C>::empty()
            } else {
                recipients(old(self)@)
            },
            !old(self).released() ==> due@.len() == old(self)@.len(),
            !old(self).released() ==> forall|i: int|
                0 <= i < old(self)@.len() ==> #[trigger] due@[i] == old(self)@[i].recipient,
            final(self)@ == if old(self).released() {
                old(self)@
            } else {
                Seq::empty()
            },
    {
        let mut due: Vec<C> = Vec::new();
        if self.is_released {
            return due;
        }
        self.is_released = true;
        let mut temp_list: DeathList<DeathNode<C>> = DeathList::new();
        std::mem::swap(&mut temp_list, &mut self.death_list);
        self.generation = self.generation.wrapping_add(1);
        let ghost s = temp_list@;
        proof {
            assert(s.skip(0) =~= s);
            assert(due@ =~= recipients(s.take(0)));
        }
        while !temp_list.is_empty()
            invariant
                temp_list.wf(),
                forall|i: int| 0 <= i < s.len() ==> !(#[trigger] s[i]).is_dead,
                due.len() <= s.len(),
                temp_list@ == s.skip(due.len() as int),
                due@ == recipients(s.take(due.len() as int)),
            decreases temp_list@.len(),
        {
            let ghost k = due.len() as int;
            if let Some(death_node) = temp_list.pop_front() {
                if !death_node.is_dead {
                    due.push(death_node.recipient);
                }
            }
            proof {
                assert(temp_list@ =~= s.skip(k + 1));
                assert(due@ =~= recipients(s.take(k + 1)));
            }
        }
        assert(s.take(s.len() as int) =~= s);
        due
    }
}

/// Withdrawing the callback that was registered last restores what was registered before it.
pub proof fn law_unregister_undoes_register<C>(s: Seq<DeathNode<C>>, d: DeathNode<C>)
    requires
        current(d, d.generation),
    ensures
        position(
            s.insert(0, d),
            Wanted { recipient_id: d.recipient_id, generation: d.generation },
        ) == 0,
        s.insert(0, d).remove(0) == s,
{
    assert(s.insert(0, d).remove(0) =~= s);
}

/// A notification of an earlier generation is never found.
pub proof fn law_earlier_generation_is_not_found<C>(s: Seq<DeathNode<C>>, key: Wanted)
    requires
        forall|i: int| 0 <= i < s.len() ==> (#[trigger] s[i]).generation != key.generation,
    ensures
        position(s, key) == s.len(),
{
    lemma_position(s, key);
}

/// A released node holds no notifications.
pub proof fn law_released_node_is_empty<C>(node: BinderNode<C>)
    requires
        node.wf(),
        node.released(),
    ensures
        node@ == Seq::<DeathNode<C>>::empty(),
{
    assert(node@ =~= Seq::empty());
}

/// Release hands out as many callbacks as notifications are registered, each the callback of the
/// notification at the same position.
pub proof fn law_every_notification_is_delivered<C>(s: Seq<DeathNode<C>>)
    ensures
        recipients(s).len() == s.len(),
        forall|i: int| 0 <= i < s.len() ==> #[trigger] recipients(s)[i] == s[i].recipient,
{
}

/// What is delivered for two runs of notifications one after the other is what is delivered for the
/// first and after it what is delivered for the second.
pub proof fn law_delivery_goes_on<C>(s: Seq<DeathNode<C>>, t: Seq<DeathNode<C>>)
    ensures
        recipients(s + t) == recipients(s) + recipients(t),
{
    assert(recipients(s + t) =~= recipients(s) + recipients(t));
}

/// The search finds the first notification of the generation asked for that has not been taken off and
/// whose callback is the one asked for, and none if there is no such notification.
pub proof fn law_search_goes_by_recipient_id<C>(s: Seq<DeathNode<C>>, key: Wanted)
    ensures
        0 <= position(s, key) <= s.len(),
        position(s, key) < s.len() <==> exists|i: int|
            0 <= i < s.len() && (#[trigger] s[i]).recipient_id == key.recipient_id && !s[i].detached
                && s[i].generation == key.generation,
        position(s, key) < s.len() ==> {
            let d = s[position(s, key)];
            d.recipient_id == key.recipient_id && !d.detached && d.generation == key.generation
        },
        forall|j: int|
            0 <= j < position(s, key) ==> !((#[trigger] s[j]).recipient_id == key.recipient_id
                && !s[j].detached && s[j].generation == key.generation),
{
    lemma_position(s, key);
}

/// A notification is searched for under the generation that the node is in.
pub proof fn law_search_is_of_the_current_generation<C>(node: BinderNode<C>, recipient_id: usize)
    ensures
        node.wanted(recipient_id).recipient_id == recipient_id,
        node.wanted(recipient_id).generation == node.generation(),
{
}

/// On every node the search for a callback finds the first notification registered with it.
pub proof fn law_registered_callback_is_found<C>(node: BinderNode<C>, recipient_id: usize)
    requires
        node.wf(),
    ensures
        position(node@, node.wanted(recipient_id)) < node@.len() <==> exists|i: int|
            0 <= i < node@.len() && (#[trigger] node@[i]).recipient_id == recipient_id,
        forall|i: int|
            0 <= i < node@.len() ==> (#[trigger] node@[i]).generation == node.generation()
                && !node@[i].detached && !node@[i].is_dead,
{
    let key = node.wanted(recipient_id);
    lemma_position(node@, key);
    assert forall|i: int| 0 <= i < node@.len() implies (#[trigger] node@[i]).generation
        == node.generation() && !node@[i].detached && !node@[i].is_dead by {
        assert(current(node.death_list@[i], node.generation));
    }
}

} // verus!
