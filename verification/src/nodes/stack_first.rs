//! A node whose notifications are known by name. When it dies, the first few go to a small buffer and
//! only the rest to a growing one.
use vstd::prelude::*;

use crate::links::ListLink;
use crate::nodes::named::{lemma_named, lemma_named_first, named, DeathNotification};
use crate::owned::lemma_position;
use crate::owned::ring::DeathList;

verus! {

/// How many notifications the small buffer takes.
pub const STACK_CAP: usize = 16;

/// The state of a node.
pub struct BinderNode<C> {
    dead: bool,
    death_list: DeathList<DeathNotification<C>>,
}

/// The callbacks of the notifications `s`.
pub open spec fn callbacks<C>(s: Seq<DeathNotification<C>>) -> Seq<C> {
    s.map_values(|d: DeathNotification<C>| d.callback)
}

impl<C> View for BinderNode<C> {
    type V = Seq<DeathNotification<C>>;

    closed spec fn view(&self) -> Seq<DeathNotification<C>> {
        self.death_list@
    }
}

impl<C> BinderNode<C> {
    pub closed spec fn died(self) -> bool {
        self.dead
    }

    /// A dead node holds no notifications.
    pub closed spec fn wf(self) -> bool {
        &&& self.death_list.wf()
        &&& self.dead ==> self.death_list@.len() == 0
    }

    /// Creates a live node without notifications.
    pub fn new() -> (node: BinderNode<C>)
        ensures
            node.wf(),
            node@ == Seq::<DeathNotification<C>>::empty(),
            !node.died(),
    {
        BinderNode { dead: false, death_list: DeathList::new() }
    }

    /// Registers a notification behind the others. Says whether the node was still alive to take
    /// it.
    pub fn link_to_death(&mut self, notification: DeathNotification<C>) -> (linked: bool)
        requires
            old(self).wf(),
        ensures
            final(self).wf(),
            final(self).died() == old(self).died(),
            linked == !old(self).died(),
            final(self)@ == if linked {
                old(self)@.push(notification)
            } else {
                old(self)@
            },
    {
        if self.dead {
            return false;
        }
        self.death_list.push_back(notification);
        true
    }

    /// Removes the first notification with the name `id`. On a dead node nothing is removed.
    pub fn remove(&mut self, id: &str) -> (found: bool)
        requires
            old(self).wf(),
        ensures
            final(self).wf(),
            final(self).died() == old(self).died(),
            found == (!old(self).died() && named(old(self)@, id@) < old(self)@.len()),
            found <==> !old(self).died() && exists|i: int|
                0 <= i < old(self)@.len() && (#[trigger] old(self)@[i]).id@ == id@,
            found ==> exists|i: int|
                {
                    &&& 0 <= i < old(self)@.len()
                    &&& old(self)@[i].id@ == id@
                    &&& forall|j: int| 0 <= j < i ==> (#[trigger] old(self)@[j]).id@ != id@
                    &&& final(self)@ == #[trigger] old(self)@.remove(i)
                },
            final(self)@ == if found {
                old(self)@.remove(named(old(self)@, id@))
            } else {
                old(self)@
            },
    {
        if self.dead {
            return false;
        }
        let key: String = id.to_owned();
        proof {
            lemma_named(self.death_list@, key);
            lemma_named_first(self.death_list@, id@);
            lemma_position(self.death_list@, key);
            self.death_list.lemma_addresses();
        }
        let found: ListLink = self.death_list.find(&key);
        match found {
            Some(addr) => {
                assert(self.death_list.addresses().index_of(addr) == named(
                    self.death_list@,
                    id@,
                ));
                self.death_list.remove(addr);
                true
            },
            None => false,
        }
    }

    /// Lets the node die: the callbacks of all notifications are handed out in the order of
    /// registration. Releasing it again yields none.
    pub fn release(&mut self) -> (due: Vec<C>)
        requires
            old(self).wf(),
        ensures
            final(self).wf(),
            final(self).died(),
            due@ == if old(self).died() {
                Seq::<C>::empty()
            } else {
                callbacks(old(self)@)
            },
            !old(self).died() ==> due@.len() == old(self)@.len(),
            !old(self).died() ==> forall|i: int|
                0 <= i < old(self)@.len() ==> #[trigger] due@[i] == old(self)@[i].callback,
            final(self)@ == if old(self).died() {
                old(self)@
            } else {
                Seq::empty()
            },
    {
        if self.dead {
            return Vec::new();
        }
        self.dead = true;
        let mut temp_stack: Vec<C> = Vec::with_capacity(STACK_CAP);
        let mut overflow: Option<Vec<C>> = None;
        let ghost s = self.death_list@;
        let ghost mut k: int = 0;
        proof {
            assert(s.skip(0) =~= s);
            assert(temp_stack@ =~= callbacks(s.take(0)));
        }
        while !self.death_list.is_empty()
            invariant
                self.death_list.wf(),
                self.dead,
                0 <= k <= s.len(),
                self.death_list@ == s.skip(k),
                k <= STACK_CAP ==> overflow is None && temp_stack@ == callbacks(s.take(k)),
                k > STACK_CAP ==> (overflow matches Some(rest) && temp_stack@ == callbacks(
                    s.take(STACK_CAP as int),
                ) && rest@ == callbacks(s.subrange(STACK_CAP as int, k))),
            decreases self.death_list@.len(),
        {
            let ghost before = self.death_list@;
            if let Some(notification) = self.death_list.pop_front() {
                if temp_stack.len() < STACK_CAP {
                    temp_stack.push(notification.callback);
                } else {
                    let mut rest: Vec<C> = match overflow {
                        Some(rest) => rest,
                        None => Vec::with_capacity(self.death_list.len()),
                    };
                    proof {
                        if k == STACK_CAP {
                            assert(rest@ =~= callbacks(s.subrange(STACK_CAP as int, k)));
                        }
                    }
                    rest.push(notification.callback);
                    assert(rest@ =~= callbacks(s.subrange(STACK_CAP as int, k + 1)));
                    overflow = Some(rest);
                }
            }
            proof {
                assert(self.death_list@ =~= s.skip(k + 1));
                if k < STACK_CAP {
                    assert(temp_stack@ =~= callbacks(s.take(k + 1)));
                }
                k = k + 1;
            }
        }
        let mut due: Vec<C> = temp_stack;
        if let Some(rest) = overflow {
            let mut rest: Vec<C> = rest;
            due.append(&mut rest);
        }
        proof {
            assert(due@ =~= callbacks(s));
            assert(self.death_list@ =~= Seq::empty());
        }
        due
    }

    /// Whether the node has died.
    pub fn is_dead(&self) -> (dead: bool)
        ensures
            dead == self.died(),
    {
        self.dead
    }

    /// The number of registered notifications.
    pub fn death_count(&self) -> (count: usize)
        requires
            self.wf(),
        ensures
            count == self@.len(),
    {
        self.death_list.len()
    }
}

/// After a notification has been removed, release hands out the callbacks of all others and nothing
/// else, in the same order.
pub proof fn law_removed_is_not_delivered<C>(s: Seq<DeathNotification<C>>, id: Seq<char>)
    requires
        named(s, id) < s.len(),
    ensures
        callbacks(s.remove(named(s, id))) == callbacks(s).remove(named(s, id)),
{
    lemma_named_first(s, id);
    assert(callbacks(s.remove(named(s, id))) =~= callbacks(s).remove(named(s, id)));
}

/// A dead node holds no notifications.
pub proof fn law_dead_node_is_empty<C>(node: BinderNode<C>)
    requires
        node.wf(),
        node.died(),
    ensures
        node@ == Seq::<DeathNotification<C>>::empty(),
{
    assert(node@ =~= Seq::empty());
}

/// Release hands out as many callbacks as notifications are registered, each the callback of the
/// notification at the same position.
pub proof fn law_every_notification_is_delivered<C>(s: Seq<DeathNotification<C>>)
    ensures
        callbacks(s).len() == s.len(),
        forall|i: int| 0 <= i < s.len() ==> #[trigger] callbacks(s)[i] == s[i].callback,
{
}

/// What is delivered for two runs of notifications one after the other is what is delivered for the
/// first and after it what is delivered for the second.
pub proof fn law_delivery_goes_on<C>(s: Seq<DeathNotification<C>>, t: Seq<DeathNotification<C>>)
    ensures
        callbacks(s + t) == callbacks(s) + callbacks(t),
{
    assert(callbacks(s + t) =~= callbacks(s) + callbacks(t));
}

} // verus!
