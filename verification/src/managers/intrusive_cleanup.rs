//! A manager whose nodes are marked dead before their notifications are taken, so that neither
//! registration nor withdrawal reaches them any more.
use std::collections::HashMap;

use vstd::prelude::*;
use vstd::string::*;

use crate::links::ListLink;
use crate::managers::registry::{callbacks, DeathNotification};
use crate::owned::head::DeathList;
use crate::owned::{lemma_position, position};
use crate::text::{compose, law_phrase_holds_its_number, number, phrase};

verus! {

broadcast use vstd::std_specs::hash::group_hash_axioms;

/// The message for an unknown node.
pub open spec fn no_node(node_id: u64) -> Seq<char> {
    phrase("Node "@, node_id as nat, " not found"@)
}

/// The message for a recipient without a notification.
pub open spec fn no_recipient(recipient_id: u64) -> Seq<char> {
    phrase("Recipient "@, recipient_id as nat, " not registered"@)
}

/// A node.
pub struct BinderNode<C> {
    id: u64,
    death_notifications: DeathList<DeathNotification<C>>,
    alive: bool,
}

impl<C> View for BinderNode<C> {
    type V = Seq<DeathNotification<C>>;

    closed spec fn view(&self) -> Seq<DeathNotification<C>> {
        self.death_notifications@
    }
}

impl<C> BinderNode<C> {
    pub closed spec fn number(self) -> u64 {
        self.id
    }

    pub closed spec fn lives(self) -> bool {
        self.alive
    }

    /// A dead node holds no notifications.
    pub closed spec fn wf(self) -> bool {
        &&& self.death_notifications.wf()
        &&& !self.alive ==> self.death_notifications@.len() == 0
    }

    /// Creates a live node without notifications.
    pub fn new(id: u64) -> (node: BinderNode<C>)
        ensures
            node.wf(),
            node@ == Seq::<DeathNotification<C>>::empty(),
            node.number() == id,
            node.lives(),
    {
        BinderNode { id, death_notifications: DeathList::new(), alive: true }
    }

    /// Registers a notification in front of the others, or says in words that the node is dead.
    pub fn register(&mut self, recipient_id: u64, callback: C) -> (registered: Result<(), String>)
        requires
            old(self).wf(),
        ensures
            final(self).wf(),
            final(self).number() == old(self).number(),
            final(self).lives() == old(self).lives(),
            registered is Ok <==> old(self).lives(),
            registered is Ok ==> final(self)@ == old(self)@.insert(
                0,
                DeathNotification { recipient_id, on_death: callback },
            ),
            registered matches Err(text) ==> text@ == "Node already released"@ && *final(self)
                == *old(self),
    {
        if !self.alive {
            return Err(String::from_str("Node already released"));
        }
        self.death_notifications.insert(DeathNotification::new(recipient_id, callback));
        Ok(())
    }

    /// Withdraws the first notification for a recipient, or says in words why it cannot.
    pub fn unregister(&mut self, recipient_id: u64) -> (withdrawn: Result<(), String>)
        requires
            old(self).wf(),
        ensures
            final(self).wf(),
            final(self).number() == old(self).number(),
            final(self).lives() == old(self).lives(),
            withdrawn is Ok <==> old(self).lives() && position(old(self)@, recipient_id) < old(
                self)@.len(),
            withdrawn is Ok ==> final(self)@ == old(self)@.remove(
                position(old(self)@, recipient_id),
            ),
            withdrawn matches Err(text) ==> final(self)@ == old(self)@ && text@ == if old(
                self).lives() {
                no_recipient(recipient_id)
            } else {
                "Node already released"@
            },
    {
        if !self.alive {
            return Err(String::from_str("Node already released"));
        }
        if self.remove_by_recipient(recipient_id).is_some() {
            Ok(())
        } else {
            Err(compose("Recipient ", recipient_id, " not registered"))
        }
    }

    /// Takes the first notification for a recipient off, if there is one.
    pub fn remove_by_recipient(&mut self, recipient_id: u64) -> (removed: Option<
        DeathNotification<C>,
    >)
        requires
            old(self).wf(),
        ensures
            final(self).wf(),
            final(self).number() == old(self).number(),
            final(self).lives() == old(self).lives(),
            removed is Some <==> position(old(self)@, recipient_id) < old(self)@.len(),
            removed is None ==> final(self)@ == old(self)@,
            removed matches Some(d) ==> d == old(self)@[position(old(self)@, recipient_id)]
                && final(self)@ == old(self)@.remove(position(old(self)@, recipient_id)),
    {
        proof {
            lemma_position(self.death_notifications@, recipient_id);
            self.death_notifications.lemma_addresses();
        }
        let found: ListLink = self.death_notifications.find(&recipient_id);
        match found {
            Some(addr) => {
                assert(self.death_notifications.addresses().index_of(addr) == position(
                    self.death_notifications@,
                    recipient_id,
                ));
                self.death_notifications.remove(addr)
            },
            None => None,
        }
    }

    /// Lets the node die and hands out its notifications as a list of their own.
    pub fn take_all(&mut self) -> (taken: DeathList<DeathNotification<C>>)
        requires
            old(self).wf(),
        ensures
            final(self).wf(),
            final(self).number() == old(self).number(),
            !final(self).lives(),
            final(self)@ == Seq::<DeathNotification<C>>::empty(),
            taken.wf(),
            taken@ == old(self)@,
    {
        self.alive = false;
        let mut taken: DeathList<DeathNotification<C>> = DeathList::new();
        std::mem::swap(&mut self.death_notifications, &mut taken);
        taken
    }
}

/// Takes a list of notifications apart and hands out their callbacks in order.
pub fn process_deaths<C>(list: DeathList<DeathNotification<C>>) -> (due: Vec<C>)
    requires
        list.wf(),
    ensures
        due@ == callbacks(list@),
{
    let mut list: DeathList<DeathNotification<C>> = list;
    let ghost s = list@;
    let mut due: Vec<C> = Vec::new();
    proof {
        assert(s.skip(0) =~= s);
        assert(due@ =~= callbacks(s.take(0)));
    }
    while !list.is_empty()
        invariant
            list.wf(),
            due.len() <= s.len(),
            list@ == s.skip(due.len() as int),
            due@ == callbacks(s.take(due.len() as int)),
        decreases list@.len(),
    {
        let ghost k = due.len() as int;
        if let Some(notification) = list.pop_front() {
            due.push(notification.on_death);
        }
        proof {
            assert(list@ =~= s.skip(k + 1));
            assert(due@ =~= callbacks(s.take(k + 1)));
        }
    }
    assert(s.take(s.len() as int) =~= s);
    due
}

/// A manager of nodes.
pub struct BinderNodeManager<C> {
    active_nodes: HashMap<u64, BinderNode<C>>,
}

impl<C> View for BinderNodeManager<C> {
    type V = Map<u64, Seq<DeathNotification<C>>>;

    /// The notifications of the node with each number, most recently registered first.
    closed spec fn view(&self) -> Map<u64, Seq<DeathNotification<C>>> {
        self.active_nodes@.map_values(|n: BinderNode<C>| n@)
    }
}

impl<C> BinderNodeManager<C> {
    /// Every registered node is alive.
    pub closed spec fn wf(self) -> bool {
        forall|id: u64| #[trigger]
            self.active_nodes@.contains_key(id) ==> self.active_nodes@[id].wf()
                && self.active_nodes@[id].lives()
    }

    /// Creates a manager without nodes.
    pub fn new() -> (manager: BinderNodeManager<C>)
        ensures
            manager.wf(),
            manager@ == Map::<u64, Seq<DeathNotification<C>>>::empty(),
    {
        let manager = BinderNodeManager { active_nodes: HashMap::new() };
        assert(manager@ =~= Map::empty());
        manager
    }

    /// Registers a new node. A node that already has the number is replaced.
    pub fn create_node(&mut self, id: u64)
        requires
            old(self).wf(),
        ensures
            final(self).wf(),
            final(self)@ == old(self)@.insert(id, Seq::empty()),
    {
        self.active_nodes.insert(id, BinderNode::new(id));
        assert(self@ =~= old(self)@.insert(id, Seq::empty()));
    }

    /// Registers a notification on a node, or says in words that there is no such node.
    pub fn register_death_notification(
        &mut self,
        node_id: u64,
        recipient_id: u64,
        callback: C,
    ) -> (registered: Result<(), String>)
        requires
            old(self).wf(),
        ensures
            final(self).wf(),
            registered is Ok <==> old(self)@.contains_key(node_id),
            registered is Ok ==> final(self)@ == old(self)@.insert(
                node_id,
                old(self)@[node_id].insert(
                    0,
                    DeathNotification { recipient_id, on_death: callback },
                ),
            ),
            registered matches Err(text) ==> text@ == no_node(node_id) && final(self)@ == old(
                self)@,
    {
        match self.active_nodes.remove(&node_id) {
            Some(node) => {
                let mut node: BinderNode<C> = node;
                let registered: Result<(), String> = node.register(recipient_id, callback);
                self.active_nodes.insert(node_id, node);
                assert(self@ =~= old(self)@.insert(node_id, node@));
                registered
            },
            None => {
                assert(self@ =~= old(self)@);
                Err(compose("Node ", node_id, " not found"))
            },
        }
    }

    /// Withdraws the first notification for a recipient from a node, or says in words what is
    /// missing.
    pub fn unregister_death_notification(&mut self, node_id: u64, recipient_id: u64) -> (withdrawn:
        Result<(), String>)
        requires
            old(self).wf(),
        ensures
            final(self).wf(),
            withdrawn is Ok <==> old(self)@.contains_key(node_id) && position(
                old(self)@[node_id],
                recipient_id,
            ) < old(self)@[node_id].len(),
            withdrawn is Ok ==> final(self)@ == old(self)@.insert(
                node_id,
                old(self)@[node_id].remove(position(old(self)@[node_id], recipient_id)),
            ),
            withdrawn matches Err(text) ==> final(self)@ == old(self)@ && text@ == if old(
                self)@.contains_key(node_id) {
                no_recipient(recipient_id)
            } else {
                no_node(node_id)
            },
    {
        match self.active_nodes.remove(&node_id) {
            Some(node) => {
                let mut node: BinderNode<C> = node;
                let withdrawn: Result<(), String> = node.unregister(recipient_id);
                self.active_nodes.insert(node_id, node);
                proof {
                    assert(self@ =~= old(self)@.insert(node_id, node@));
                    if withdrawn is Err {
                        assert(old(self)@.insert(node_id, node@) =~= old(self)@);
                    }
                }
                withdrawn
            },
            None => {
                assert(self@ =~= old(self)@);
                Err(compose("Node ", node_id, " not found"))
            },
        }
    }

    /// Releases a node: it is no longer registered, and the callbacks of its notifications are
    /// handed out, most recently registered first. An unknown number yields none.
    pub fn release_node(&mut self, node_id: u64) -> (due: Vec<C>)
        requires
            old(self).wf(),
        ensures
            final(self).wf(),
            final(self)@ == old(self)@.remove(node_id),
            due@ == if old(self)@.contains_key(node_id) {
                callbacks(old(self)@[node_id])
            } else {
                Seq::<C>::empty()
            },
    {
        let node: Option<BinderNode<C>> = self.active_nodes.remove(&node_id);
        assert(self@ =~= old(self)@.remove(node_id));
        match node {
            Some(node) => Self::cleanup_node(node),
            None => Vec::new(),
        }
    }

    /// Lets a node that is no longer registered die and hands out the callbacks of its
    /// notifications in order.
    pub fn cleanup_node(node: BinderNode<C>) -> (due: Vec<C>)
        requires
            node.wf(),
        ensures
            due@ == callbacks(node@),
    {
        let mut node: BinderNode<C> = node;
        let temp: DeathList<DeathNotification<C>> = node.take_all();
        process_deaths(temp)
    }

    /// The number of registered nodes.
    pub fn active_node_count(&self) -> (count: usize)
        ensures
            count == self@.len(),
    {
        assert(self@.dom() =~= self.active_nodes@.dom());
        self.active_nodes.len()
    }
}

/// What is registered on a node is delivered when the node is released, before what was registered
/// earlier, and whatever was registered, the release leaves the same nodes behind.
pub proof fn law_release_delivers_what_was_registered<C>(
    m: Map<u64, Seq<DeathNotification<C>>>,
    node_id: u64,
    d: DeathNotification<C>,
)
    requires
        m.contains_key(node_id),
    ensures
        callbacks(m.insert(node_id, m[node_id].insert(0, d))[node_id]) == callbacks(
            m[node_id],
        ).insert(0, d.on_death),
        m.insert(node_id, m[node_id].insert(0, d)).remove(node_id) == m.remove(node_id),
{
    assert(callbacks(m[node_id].insert(0, d)) =~= callbacks(m[node_id]).insert(0, d.on_death));
    assert(m.insert(node_id, m[node_id].insert(0, d)).remove(node_id) =~= m.remove(node_id));
}

/// Withdrawing the notification that was registered last restores the manager, and it is not
/// delivered.
pub proof fn law_unregister_undoes_register<C>(
    m: Map<u64, Seq<DeathNotification<C>>>,
    node_id: u64,
    d: DeathNotification<C>,
)
    requires
        m.contains_key(node_id),
    ensures
        position(m[node_id].insert(0, d), d.recipient_id) == 0,
        m.insert(node_id, m[node_id].insert(0, d)).insert(
            node_id,
            m[node_id].insert(0, d).remove(0),
        ) == m,
{
    assert(m[node_id].insert(0, d).remove(0) =~= m[node_id]);
    assert(m.insert(node_id, m[node_id].insert(0, d)).insert(node_id, m[node_id]) =~= m);
}

/// A dead node holds no notifications.
pub proof fn law_dead_node_is_empty<C>(node: BinderNode<C>)
    requires
        node.wf(),
        !node.lives(),
    ensures
        node@ == Seq::<DeathNotification<C>>::empty(),
{
    assert(node@ =~= Seq::empty());
}

/// Each message names the number that it is about, in decimal, between its two pieces of text.
pub proof fn law_messages_name_the_number(n: u64)
    ensures
        no_node(n).take("Node "@.len() as int) == "Node "@,
        no_node(n).skip(no_node(n).len() - " not found"@.len()) == " not found"@,
        number(no_node(n).subrange("Node "@.len() as int, no_node(n).len() - " not found"@.len()))
            == n,
        no_recipient(n).take("Recipient "@.len() as int) == "Recipient "@,
        no_recipient(n).skip(no_recipient(n).len() - " not registered"@.len()) == " not registered"@,
        number(no_recipient(n).subrange("Recipient "@.len() as int, no_recipient(n).len() - " not registered"@.len()))
            == n,
{
    law_phrase_holds_its_number("Node "@, n as nat, " not found"@);
    law_phrase_holds_its_number("Recipient "@, n as nat, " not registered"@);
}

} // verus!
