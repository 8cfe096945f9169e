//! A node whose notifications are known by name and delivered in the order of registration.
use vstd::prelude::*;

use crate::links::ListLink;
use crate::owned::ring::DeathList;
use crate::owned::{lemma_position, position, Matches};

verus! {

/// A notification: a name and a callback.
pub struct DeathNotification<C> {
    pub id: String,
    pub callback: C,
}

impl<C> DeathNotification<C> {
    pub fn new(id: String, callback: C) -> (notification: DeathNotification<C>)
        ensures
            notification == (DeathNotification { id, callback }),
    {
        DeathNotification { id, callback }
    }

    /// The callback that is to be called when the node dies.
    pub fn notify(&self) -> (callback: &C)
        ensures
            *callback == self.callback,
    {
        &self.callback
    }
}

/// Creates a notification that is ready to be registered.
pub fn new_pinned_death_notification<C>(id: String, callback: C) -> (notification:
    DeathNotification<C>)
    ensures
        notification == (DeathNotification { id, callback }),
{
    DeathNotification::new(id, callback)
}

impl<C> Matches<String> for DeathNotification<C> {
    open spec fn matches(self, key: String) -> bool {
        self.id@ == key@
    }

    fn is_match(&self, key: &String) -> (found: bool) {
        self.id == *key
    }
}

/// The position of the first notification with the name `id`, or the length of `s` if there is
/// none.
pub open spec fn named<C>(s: Seq<DeathNotification<C>>, id: Seq<char>) -> int
    decreases s.len(),
{
    if s.len() == 0 || s[0].id@ == id {
        0
    } else {
        1 + named(s.skip(1), id)
    }
}

/// Searching by a name finds the first notification with that name.
pub proof fn lemma_named<C>(s: Seq<DeathNotification<C>>, key: String)
    ensures
        position(s, key) == named(s, key@),
    decreases s.len(),
{
    if s.len() > 0 {
        lemma_named(s.skip(1), key);
    }
}

/// What `named` says of the notifications before and at the position.
pub proof fn lemma_named_first<C>(s: Seq<DeathNotification<C>>, id: Seq<char>)
    ensures
        0 <= named(s, id) <= s.len(),
        named(s, id) < s.len() ==> s[named(s, id)].id@ == id,
        forall|j: int| 0 <= j < named(s, id) ==> (#[trigger] s[j]).id@ != id,
    decreases s.len(),
{
    if s.len() > 0 && s[0].id@ != id {
        let t = s.skip(1);
        lemma_named_first(t, id);
        assert forall|j: int| 0 <= j < named(s, id) implies (#[trigger] s[j]).id@ != id by {
            if j > 0 {
                assert(s[j] == t[j - 1]);
            }
        }
    }
}

/// The state of a node.
pub struct BinderNode<C> {
    dead: bool,
    death_list: DeathList<DeathNotification<C>>,
}

impl<C> View for BinderNode<C> {
    type V = Seq<DeathNotification<C>>;

    closed spec fn view(&self) -> Seq<DeathNotification<C>> {
        self.death_list@
    }
}

impl<C> BinderNode<C> {
    pub closed spec fn died(self) -> bool {
        self.dead
    }

    /// A dead node holds no notifications.
    pub closed spec fn wf(self) -> bool {
        &&& self.death_list.wf()
        &&& self.dead ==> self.death_list@.len() == 0
    }

    /// Creates a live node without notifications.
    pub fn new() -> (node: BinderNode<C>)
        ensures
            node.wf(),
            node@ == Seq::<DeathNotification<C>>::empty(),
            !node.died(),
    {
        BinderNode { dead: false, death_list: DeathList::new() }
    }

    /// Registers a notification behind the others. Says whether the node was still alive to take
    /// it.
    pub fn link_to_death(&mut self, notification: DeathNotification<C>) -> (linked: bool)
        requires
            old(self).wf(),
        ensures
            final(self).wf(),
            final(self).died() == old(self).died(),
            linked == !old(self).died(),
            final(self)@ == if linked {
                old(self)@.push(notification)
            } else {
                old(self)@
            },
    {
        if self.dead {
            return false;
        }
        self.death_list.push_back(notification);
        true
    }

    /// Withdraws the first notification with the name `id`. On a dead node nothing is withdrawn.
    pub fn unlink_to_death(&mut self, id: &str) -> (found: bool)
        requires
            old(self).wf(),
        ensures
            final(self).wf(),
            final(self).died() == old(self).died(),
            found == (!old(self).died() && named(old(self)@, id@) < old(self)@.len()),
            found <==> !old(self).died() && exists|i: int|
                0 <= i < old(self)@.len() && (#[trigger] old(self)@[i]).id@ == id@,
            found ==> exists|i: int|
                {
                    &&& 0 <= i < old(self)@.len()
                    &&& old(self)@[i].id@ == id@
                    &&& forall|j: int| 0 <= j < i ==> (#[trigger] old(self)@[j]).id@ != id@
                    &&& final(self)@ == #[trigger] old(self)@.remove(i)
                },
            final(self)@ == if found {
                old(self)@.remove(named(old(self)@, id@))
            } else {
                old(self)@
            },
    {
        if self.dead {
            return false;
        }
        let key: String = id.to_owned();
        proof {
            lemma_named(self.death_list@, key);
            lemma_named_first(self.death_list@, id@);
            lemma_position(self.death_list@, key);
            self.death_list.lemma_addresses();
        }
        let found: ListLink = self.death_list.find(&key);
        match found {
            Some(addr) => {
                assert(self.death_list.addresses().index_of(addr) == named(
                    self.death_list@,
                    id@,
                ));
                self.death_list.remove(addr);
                true
            },
            None => false,
        }
    }

    /// Lets the node die: all notifications are handed out in the order of registration. Releasing
    /// it again yields none.
    pub fn release(&mut self) -> (due: Vec<DeathNotification<C>>)
        requires
            old(self).wf(),
        ensures
            final(self).wf(),
            final(self).died(),
            due@ == if old(self).died() {
                Seq::<DeathNotification<C>>::empty()
            } else {
                old(self)@
            },
            final(self)@ == if old(self).died() {
                old(self)@
            } else {
                Seq::empty()
            },
    {
        if self.dead {
            return Vec::new();
        }
        self.dead = true;
        self.death_list.take_all()
    }

    /// Whether the node has died.
    pub fn is_dead(&self) -> (dead: bool)
        ensures
            dead == self.died(),
    {
        self.dead
    }

    /// The number of registered notifications.
    pub fn death_count(&self) -> (count: usize)
        requires
            self.wf(),
        ensures
            count == self@.len(),
    {
        self.death_list.len()
    }
}

/// Where no notification has the name yet, withdrawing one that has just been registered under it
/// restores what was registered before.
pub proof fn law_unlink_undoes_link<C>(s: Seq<DeathNotification<C>>, d: DeathNotification<C>)
    requires
        named(s, d.id@) == s.len(),
    ensures
        named(s.push(d), d.id@) == s.len(),
        s.push(d).remove(s.len() as int) == s,
{
    let t = s.push(d);
    lemma_named_first(s, d.id@);
    lemma_named_first(t, d.id@);
    let p = named(t, d.id@);
    if p < s.len() {
        assert(t[p] == s[p]);
    }
    if p > s.len() {
        assert(t[s.len() as int].id@ != d.id@);
    }
    assert(t.remove(s.len() as int) =~= s);
}

/// A dead node holds no notifications.
pub proof fn law_dead_node_is_empty<C>(node: BinderNode<C>)
    requires
        node.wf(),
        node.died(),
    ensures
        node@ == Seq::<DeathNotification<C>>::empty(),
{
    assert(node@ =~= Seq::empty());
}

/// The search finds the first notification that has the name asked for, and none if no notification
/// has it.
pub proof fn law_search_goes_by_name<C>(s: Seq<DeathNotification<C>>, id: Seq<char>)
    ensures
        0 <= named(s, id) <= s.len(),
        named(s, id) < s.len() <==> exists|i: int| 0 <= i < s.len() && (#[trigger] s[i]).id@ == id,
        named(s, id) < s.len() ==> s[named(s, id)].id@ == id,
        forall|j: int| 0 <= j < named(s, id) ==> (#[trigger] s[j]).id@ != id,
{
    lemma_named_first(s, id);
}

/// A notification that has been withdrawn by name is not delivered; all others are, in their order.
pub proof fn law_withdrawn_is_not_delivered<C>(s: Seq<DeathNotification<C>>, id: Seq<char>)
    requires
        named(s, id) < s.len(),
    ensures
        s.remove(named(s, id)).len() == s.len() - 1,
        forall|j: int| 0 <= j < named(s, id) ==> (#[trigger] s.remove(named(s, id))[j]) == s[j],
        forall|j: int|
            named(s, id) <= j < s.len() - 1 ==> (#[trigger] s.remove(named(s, id))[j]) == s[j + 1],
{
    lemma_named_first(s, id);
}

} // verus!
