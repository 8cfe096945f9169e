//! A manager that drops a node from its register first and then works off the node's notifications
//! one at a time, so that no lock is held while a callback runs.
use std::collections::HashMap;

use vstd::prelude::*;

use crate::links::ListLink;
use crate::owned::head;
use crate::owned::{lemma_position, position, Matches};
use crate::text::{compose, law_phrase_holds_its_number, number, phrase};

verus! {

broadcast use vstd::std_specs::hash::group_hash_axioms;

/// A notification.
pub struct DeathNotification<C> {
    pub recipient_id: u64,
    pub on_death: C,
}

impl<C> DeathNotification<C> {
    pub fn new(recipient_id: u64, callback: C) -> (notification: DeathNotification<C>)
        ensures
            notification == (DeathNotification { recipient_id, on_death: callback }),
    {
        DeathNotification { recipient_id, on_death: callback }
    }
}

impl<C> Matches<u64> for DeathNotification<C> {
    open spec fn matches(self, key: u64) -> bool {
        self.recipient_id == key
    }

    fn is_match(&self, key: &u64) -> (found: bool) {
        self.recipient_id == *key
    }
}

/// The callbacks of the notifications `s`.
pub open spec fn callbacks<C>(s: Seq<DeathNotification<C>>) -> Seq<C> {
    s.map_values(|d: DeathNotification<C>| d.on_death)
}

/// The message for a recipient without a notification.
pub open spec fn no_recipient(recipient_id: u64) -> Seq<char> {
    phrase("Death notification for recipient "@, recipient_id as nat, " not found"@)
}

/// The message for a node that cannot take notifications.
pub open spec fn no_live_node(node_id: u64) -> Seq<char> {
    phrase("Binder node "@, node_id as nat, " not found or already released"@)
}

/// The message for an unknown node.
pub open spec fn no_node(node_id: u64) -> Seq<char> {
    phrase("Binder node "@, node_id as nat, " not found"@)
}

/// The notifications of a node.
pub struct DeathList<C> {
    list: head::DeathList<DeathNotification<C>>,
}

impl<C> View for DeathList<C> {
    type V = Seq<DeathNotification<C>>;

    closed spec fn view(&self) -> Seq<DeathNotification<C>> {
        self.list@
    }
}

impl<C> DeathList<C> {
    pub closed spec fn wf(self) -> bool {
        self.list.wf()
    }

    pub fn new() -> (list: DeathList<C>)
        ensures
            list.wf(),
            list@ == Seq::<DeathNotification<C>>::empty(),
    {
        DeathList { list: head::DeathList::new() }
    }

    /// Puts a notification in front of the others.
    pub fn insert(&mut self, node: DeathNotification<C>)
        requires
            old(self).wf(),
        ensures
            final(self).wf(),
            final(self)@ == old(self)@.insert(0, node),
    {
        self.list.insert(node);
    }

    /// Takes the first notification off.
    pub fn pop_front(&mut self) -> (node: Option<DeathNotification<C>>)
        requires
            old(self).wf(),
        ensures
            final(self).wf(),
            node is Some <==> old(self)@.len() > 0,
            node is None ==> final(self)@ == old(self)@,
            node matches Some(d) ==> d == old(self)@[0] && final(self)@ == old(self)@.remove(0),
    {
        self.list.pop_front()
    }

    /// Removes the first notification for a recipient, or says in words that there is none.
    pub fn remove_by_recipient(&mut self, recipient_id: u64) -> (removed: Result<(), String>)
        requires
            old(self).wf(),
        ensures
            final(self).wf(),
            removed is Ok <==> position(old(self)@, recipient_id) < old(self)@.len(),
            removed is Ok <==> exists|i: int|
                0 <= i < old(self)@.len() && (#[trigger] old(self)@[i]).recipient_id == recipient_id,
            removed is Ok ==> final(self)@ == old(self)@.remove(position(old(self)@, recipient_id)),
            removed matches Err(text) ==> text@ == no_recipient(recipient_id) && final(self)@ == old(
                self)@,
    {
        proof {
            lemma_position(self.list@, recipient_id);
            self.list.lemma_addresses();
        }
        let found: ListLink = self.list.find(&recipient_id);
        match found {
            Some(addr) => {
                assert(self.list.addresses().index_of(addr) == position(self.list@, recipient_id));
                self.list.remove(addr);
                Ok(())
            },
            None => Err(
                compose("Death notification for recipient ", recipient_id, " not found"),
            ),
        }
    }
}

/// A node.
pub struct BinderNode<C> {
    id: u64,
    death_notifications: DeathList<C>,
    alive: bool,
}

impl<C> View for BinderNode<C> {
    type V = Seq<DeathNotification<C>>;

    closed spec fn view(&self) -> Seq<DeathNotification<C>> {
        self.death_notifications@
    }
}

impl<C> BinderNode<C> {
    pub closed spec fn number(self) -> u64 {
        self.id
    }

    pub closed spec fn lives(self) -> bool {
        self.alive
    }

    pub closed spec fn wf(self) -> bool {
        self.death_notifications.wf()
    }

    /// Creates a live node without notifications.
    pub fn new(id: u64) -> (node: BinderNode<C>)
        ensures
            node.wf(),
            node@ == Seq::<DeathNotification<C>>::empty(),
            node.number() == id,
            node.lives(),
    {
        BinderNode { id, death_notifications: DeathList::new(), alive: true }
    }

    /// Registers a notification in front of the others.
    pub fn register_death(&mut self, recipient_id: u64, callback: C)
        requires
            old(self).wf(),
        ensures
            final(self).wf(),
            final(self).number() == old(self).number(),
            final(self).lives() == old(self).lives(),
            final(self)@ == old(self)@.insert(
                0,
                DeathNotification { recipient_id, on_death: callback },
            ),
    {
        self.death_notifications.insert(DeathNotification::new(recipient_id, callback));
    }

    /// Takes the first notification off and hands out its callback.
    pub fn next_death(&mut self) -> (due: Option<C>)
        requires
            old(self).wf(),
        ensures
            final(self).wf(),
            final(self).number() == old(self).number(),
            final(self).lives() == old(self).lives(),
            due is Some <==> old(self)@.len() > 0,
            due is None ==> final(self)@ == old(self)@,
            due matches Some(c) ==> c == old(self)@[0].on_death && final(self)@ == old(
                self)@.remove(0),
    {
        match self.death_notifications.pop_front() {
            Some(notification) => Some(notification.on_death),
            None => None,
        }
    }

    /// Lets the node die and hands out its notifications in order. A dead node has none to give.
    pub fn take_death_notifications(&mut self) -> (taken: Vec<DeathNotification<C>>)
        requires
            old(self).wf(),
        ensures
            final(self).wf(),
            final(self).number() == old(self).number(),
            !final(self).lives(),
            old(self).lives() ==> taken@ == old(self)@ && final(self)@ == Seq::<
                DeathNotification<C>,
            >::empty(),
            !old(self).lives() ==> taken@.len() == 0 && *final(self) == *old(self),
    {
        if !self.alive {
            return Vec::new();
        }
        self.alive = false;
        self.death_notifications.list.take_all()
    }
}

/// A manager of nodes.
pub struct BinderNodeManager<C> {
    active_nodes: HashMap<u64, BinderNode<C>>,
}

impl<C> View for BinderNodeManager<C> {
    type V = Map<u64, Seq<DeathNotification<C>>>;

    /// The notifications of the node with each number, most recently registered first.
    closed spec fn view(&self) -> Map<u64, Seq<DeathNotification<C>>> {
        self.active_nodes@.map_values(|n: BinderNode<C>| n@)
    }
}

impl<C> BinderNodeManager<C> {
    /// Every registered node is alive.
    pub closed spec fn wf(self) -> bool {
        forall|id: u64| #[trigger]
            self.active_nodes@.contains_key(id) ==> self.active_nodes@[id].wf()
                && self.active_nodes@[id].lives() && self.active_nodes@[id].number() == id
    }

    /// Creates a manager without nodes.
    pub fn new() -> (manager: BinderNodeManager<C>)
        ensures
            manager.wf(),
            manager@ == Map::<u64, Seq<DeathNotification<C>>>::empty(),
    {
        let manager = BinderNodeManager { active_nodes: HashMap::new() };
        assert(manager@ =~= Map::empty());
        manager
    }

    /// Registers a new node. A node that already has the number is replaced.
    pub fn create_node(&mut self, id: u64)
        requires
            old(self).wf(),
        ensures
            final(self).wf(),
            final(self)@ == old(self)@.insert(id, Seq::empty()),
    {
        self.active_nodes.insert(id, BinderNode::new(id));
        assert(self@ =~= old(self)@.insert(id, Seq::empty()));
    }

    /// Registers a notification on a node, or says in words that the node is gone.
    pub fn register_death_notification(
        &mut self,
        node_id: u64,
        recipient_id: u64,
        callback: C,
    ) -> (registered: Result<(), String>)
        requires
            old(self).wf(),
        ensures
            final(self).wf(),
            registered is Ok <==> old(self)@.contains_key(node_id),
            registered is Ok ==> final(self)@ == old(self)@.insert(
                node_id,
                old(self)@[node_id].insert(
                    0,
                    DeathNotification { recipient_id, on_death: callback },
                ),
            ),
            registered matches Err(text) ==> text@ == no_live_node(node_id) && final(self)@ == old(
                self)@,
    {
        match self.active_nodes.remove(&node_id) {
            Some(node) => {
                let mut node: BinderNode<C> = node;
                node.register_death(recipient_id, callback);
                self.active_nodes.insert(node_id, node);
                assert(self@ =~= old(self)@.insert(node_id, node@));
                Ok(())
            },
            None => {
                assert(self@ =~= old(self)@);
                Err(compose("Binder node ", node_id, " not found or already released"))
            },
        }
    }

    /// Withdraws the first notification for a recipient from a node, or says in words what is
    /// missing.
    pub fn unregister_death_notification(&mut self, node_id: u64, recipient_id: u64) -> (withdrawn:
        Result<(), String>)
        requires
            old(self).wf(),
        ensures
            final(self).wf(),
            withdrawn is Ok <==> old(self)@.contains_key(node_id) && position(
                old(self)@[node_id],
                recipient_id,
            ) < old(self)@[node_id].len(),
            withdrawn is Ok <==> old(self)@.contains_key(node_id) && exists|i: int|
                0 <= i < old(self)@[node_id].len() && (#[trigger] old(
                    self,
                )@[node_id][i]).recipient_id == recipient_id,
            withdrawn is Ok ==> final(self)@ == old(self)@.insert(
                node_id,
                old(self)@[node_id].remove(position(old(self)@[node_id], recipient_id)),
            ),
            withdrawn matches Err(text) ==> final(self)@ == old(self)@ && text@ == if old(
                self)@.contains_key(node_id) {
                no_recipient(recipient_id)
            } else {
                no_node(node_id)
            },
    {
        match self.active_nodes.remove(&node_id) {
            Some(node) => {
                let mut node: BinderNode<C> = node;
                let withdrawn: Result<(), String> = node.death_notifications.remove_by_recipient(
                    recipient_id,
                );
                self.active_nodes.insert(node_id, node);
                proof {
                    assert(self@ =~= old(self)@.insert(node_id, node@));
                    if withdrawn is Err {
                        assert(old(self)@.insert(node_id, node@) =~= old(self)@);
                    }
                }
                withdrawn
            },
            None => {
                assert(self@ =~= old(self)@);
                Err(compose("Binder node ", node_id, " not found"))
            },
        }
    }

    /// Takes a node out of the register.
    pub fn take_node(&mut self, node_id: u64) -> (node: Option<BinderNode<C>>)
        requires
            old(self).wf(),
        ensures
            final(self).wf(),
            final(self)@ == old(self)@.remove(node_id),
            node is Some <==> old(self)@.contains_key(node_id),
            node matches Some(n) ==> n.wf() && n.lives() && n@ == old(self)@[node_id],
    {
        let node: Option<BinderNode<C>> = self.active_nodes.remove(&node_id);
        assert(self@ =~= old(self)@.remove(node_id));
        node
    }

    /// Works off the notifications of a node that is no longer registered: their callbacks are
    /// handed out in order.
    pub fn cleanup_node(node: BinderNode<C>) -> (due: Vec<C>)
        requires
            node.wf(),
        ensures
            due@ == callbacks(node@),
            due@.len() == node@.len(),
            forall|i: int| 0 <= i < node@.len() ==> #[trigger] due@[i] == node@[i].on_death,
    {
        let mut node: BinderNode<C> = node;
        let ghost s = node@;
        let mut due: Vec<C> = Vec::new();
        proof {
            assert(s.skip(0) =~= s);
            assert(due@ =~= callbacks(s.take(0)));
        }
        loop
            invariant
                node.wf(),
                due.len() <= s.len(),
                node@ == s.skip(due.len() as int),
                due@ == callbacks(s.take(due.len() as int)),
            ensures
                node@.len() == 0,
            decreases node@.len(),
        {
            let ghost k = due.len() as int;
            match node.next_death() {
                Some(on_death) => {
                    due.push(on_death);
                    proof {
                        assert(node@ =~= s.skip(k + 1));
                        assert(due@ =~= callbacks(s.take(k + 1)));
                    }
                },
                None => {
                    break;
                },
            }
        }
        assert(s.take(s.len() as int) =~= s);
        due
    }

    /// Releases a node: it is no longer registered, and the callbacks of its notifications are
    /// handed out, most recently registered first. An unknown number yields none.
    pub fn release_node(&mut self, node_id: u64) -> (due: Vec<C>)
        requires
            old(self).wf(),
        ensures
            final(self).wf(),
            final(self)@ == old(self)@.remove(node_id),
            due@ == if old(self)@.contains_key(node_id) {
                callbacks(old(self)@[node_id])
            } else {
                Seq::<C>::empty()
            },
            old(self)@.contains_key(node_id) ==> due@.len() == old(self)@[node_id].len(),
            old(self)@.contains_key(node_id) ==> forall|i: int|
                0 <= i < old(self)@[node_id].len() ==> #[trigger] due@[i] == old(
                    self,
                )@[node_id][i].on_death,
    {
        match self.take_node(node_id) {
            Some(node) => Self::cleanup_node(node),
            None => Vec::new(),
        }
    }

    /// The number of registered nodes.
    pub fn active_node_count(&self) -> (count: usize)
        ensures
            count == self@.len(),
    {
        assert(self@.dom() =~= self.active_nodes@.dom());
        self.active_nodes.len()
    }
}

/// Withdrawing the notification that was registered last restores what was registered before it.
pub proof fn law_unregister_undoes_register<C>(s: Seq<DeathNotification<C>>, d: DeathNotification<C>)
    ensures
        position(s.insert(0, d), d.recipient_id) == 0,
        s.insert(0, d).remove(0) == s,
{
    assert(s.insert(0, d).remove(0) =~= s);
}

/// After a node has been released nothing can be registered on it or withdrawn from it, and
/// releasing it again changes nothing.
pub proof fn law_released_node_is_gone<C>(m: Map<u64, Seq<DeathNotification<C>>>, node_id: u64)
    ensures
        !m.remove(node_id).contains_key(node_id),
        m.remove(node_id).remove(node_id) == m.remove(node_id),
{
    assert(m.remove(node_id).remove(node_id) =~= m.remove(node_id));
}

/// After a notification has been withdrawn, releasing the node hands out the callbacks of all others
/// and nothing else, in the same order.
pub proof fn law_withdrawn_is_not_delivered<C>(s: Seq<DeathNotification<C>>, recipient_id: u64)
    requires
        position(s, recipient_id) < s.len(),
    ensures
        callbacks(s.remove(position(s, recipient_id))) == callbacks(s).remove(
            position(s, recipient_id),
        ),
{
    lemma_position(s, recipient_id);
    let i = position(s, recipient_id);
    assert(callbacks(s.remove(i)) =~= callbacks(s).remove(i));
}

/// Release hands out as many callbacks as notifications are registered, each the callback of the
/// notification at the same position.
pub proof fn law_every_notification_is_delivered<C>(s: Seq<DeathNotification<C>>)
    ensures
        callbacks(s).len() == s.len(),
        forall|i: int| 0 <= i < s.len() ==> #[trigger] callbacks(s)[i] == s[i].on_death,
{
}

/// What is delivered for two runs of notifications one after the other is what is delivered for the
/// first and after it what is delivered for the second.
pub proof fn law_delivery_goes_on<C>(s: Seq<DeathNotification<C>>, t: Seq<DeathNotification<C>>)
    ensures
        callbacks(s + t) == callbacks(s) + callbacks(t),
{
    assert(callbacks(s + t) =~= callbacks(s) + callbacks(t));
}

/// The search finds the first notification whose `recipient_id` is the one asked for, and none if no
/// notification has it.
pub proof fn law_search_goes_by_recipient_id<C>(s: Seq<DeathNotification<C>>, recipient_id: u64)
    ensures
        0 <= position(s, recipient_id) <= s.len(),
        position(s, recipient_id) < s.len() <==> exists|i: int|
            0 <= i < s.len() && (#[trigger] s[i]).recipient_id == recipient_id,
        position(s, recipient_id) < s.len() ==> s[position(s, recipient_id)].recipient_id == recipient_id,
        forall|j: int| 0 <= j < position(s, recipient_id) ==> (#[trigger] s[j]).recipient_id != recipient_id,
{
    lemma_position(s, recipient_id);
}

/// Each message names the number that it is about, in decimal, between its two pieces of text.
pub proof fn law_messages_name_the_number(n: u64)
    ensures
        no_recipient(n).take("Death notification for recipient "@.len() as int) == "Death notification for recipient "@,
        no_recipient(n).skip(no_recipient(n).len() - " not found"@.len()) == " not found"@,
        number(no_recipient(n).subrange("Death notification for recipient "@.len() as int, no_recipient(n).len() - " not found"@.len()))
            == n,
        no_live_node(n).take("Binder node "@.len() as int) == "Binder node "@,
        no_live_node(n).skip(no_live_node(n).len() - " not found or already released"@.len()) == " not found or already released"@,
        number(no_live_node(n).subrange("Binder node "@.len() as int, no_live_node(n).len() - " not found or already released"@.len()))
            == n,
        no_node(n).take("Binder node "@.len() as int) == "Binder node "@,
        no_node(n).skip(no_node(n).len() - " not found"@.len()) == " not found"@,
        number(no_node(n).subrange("Binder node "@.len() as int, no_node(n).len() - " not found"@.len()))
            == n,
{
    law_phrase_holds_its_number("Death notification for recipient "@, n as nat, " not found"@);
    law_phrase_holds_its_number("Binder node "@, n as nat, " not found or already released"@);
    law_phrase_holds_its_number("Binder node "@, n as nat, " not found"@);
}

} // verus!
