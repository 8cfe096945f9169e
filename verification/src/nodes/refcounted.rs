//! A reference-counted node that gives up a reference when it is released.
use vstd::prelude::*;

use crate::nodes::fifo::DeathRecipient;
use crate::owned::ring::DeathList;

verus! {

/// Moves all elements of `list` to the end of `temp`.
pub fn splice_to_temp<P>(list: &mut DeathList<P>, temp: &mut DeathList<P>)
    requires
        old(list).wf(),
        old(temp).wf(),
    ensures
        final(list).wf(),
        final(temp).wf(),
        final(list)@ == Seq::<P>::empty(),
        final(list).addresses() == Seq::<usize>::empty(),
        final(list).issued() == old(list).issued(),
        final(temp)@ == old(temp)@ + old(list)@,
{
    let ghost s = list@;
    let ghost t = temp@;
    let ghost mut k: int = 0;
    proof {
        assert(s.skip(0) =~= s);
        assert(t + s.take(0) =~= t);
    }
    while !list.is_empty()
        invariant
            list.wf(),
            temp.wf(),
            list.issued() == old(list).issued(),
            0 <= k <= s.len(),
            list@ == s.skip(k),
            temp@ == t + s.take(k),
        decreases list@.len(),
    {
        if let Some(item) = list.pop_front() {
            temp.push_back(item);
        }
        proof {
            assert(list@ =~= s.skip(k + 1));
            assert(temp@ =~= t + s.take(k + 1));
            k = k + 1;
        }
    }
    proof {
        assert(s.take(s.len() as int) =~= s);
        list.lemma_addresses();
        assert(list.addresses() =~= Seq::empty());
    }
}

/// The state of a node.
pub struct BinderNode<C> {
    death_list: DeathList<DeathRecipient<C>>,
    refcount: usize,
    released: bool,
    handle: u32,
}

impl<C> View for BinderNode<C> {
    type V = Seq<DeathRecipient<C>>;

    closed spec fn view(&self) -> Seq<DeathRecipient<C>> {
        self.death_list@
    }
}

impl<C> BinderNode<C> {
    pub closed spec fn is_released(self) -> bool {
        self.released
    }

    pub closed spec fn refs(self) -> usize {
        self.refcount
    }

    /// The number that the node is known by.
    pub closed spec fn number(self) -> u32 {
        self.handle
    }

    /// A released node holds no notifications.
    pub closed spec fn wf(self) -> bool {
        &&& self.death_list.wf()
        &&& self.released ==> self.death_list@.len() == 0
    }

    /// Creates a live node with one reference to it.
    pub fn new(handle: u32) -> (node: BinderNode<C>)
        ensures
            node.wf(),
            node@ == Seq::<DeathRecipient<C>>::empty(),
            !node.is_released(),
            node.refs() == 1,
            node.number() == handle,
    {
        BinderNode { death_list: DeathList::new(), refcount: 1, released: false, handle }
    }

    /// Registers a notification in front of the others. Says whether the node was still alive to
    /// take it.
    pub fn link_to_death(&mut self, callback: C, cookie: usize) -> (linked: bool)
        requires
            old(self).wf(),
        ensures
            final(self).wf(),
            final(self).is_released() == old(self).is_released(),
            final(self).refs() == old(self).refs(),
            final(self).number() == old(self).number(),
            linked == !old(self).is_released(),
            final(self)@ == if linked {
                old(self)@.insert(0, DeathRecipient { callback, cookie })
            } else {
                old(self)@
            },
    {
        if self.released {
            return false;
        }
        self.death_list.push_front(DeathRecipient::new(callback, cookie));
        true
    }

    /// Releases the node: all notifications are handed out, most recently registered first, and
    /// one reference is given up. Releasing it again changes nothing and yields none.
    pub fn release(&mut self) -> (due: Vec<DeathRecipient<C>>)
        requires
            old(self).wf(),
        ensures
            final(self).wf(),
            final(self).is_released(),
            final(self).number() == old(self).number(),
            old(self).is_released() ==> due@.len() == 0 && *final(self) == *old(self),
            !old(self).is_released() ==> {
                &&& due@ == old(self)@
                &&& final(self)@ == Seq::<DeathRecipient<C>>::empty()
                &&& final(self).refs() == if old(self).refs() == 0 {
                    0
                } else {
                    (old(self).refs() - 1) as usize
                }
            },
    {
        if self.released {
            return Vec::new();
        }
        self.released = true;
        let mut temp_list: DeathList<DeathRecipient<C>> = DeathList::new();
        splice_to_temp(&mut self.death_list, &mut temp_list);
        let due: Vec<DeathRecipient<C>> = temp_list.take_all();
        assert(due@ =~= old(self)@);
        self.refcount = self.refcount.saturating_sub(1);
        due
    }

    /// The number of references.
    pub fn strong_count(&self) -> (count: usize)
        ensures
            count == self.refs(),
    {
        self.refcount
    }

    /// Takes a reference.
    pub fn acquire(&mut self)
        requires
            old(self).wf(),
            old(self).refs() < usize::MAX,
        ensures
            final(self).wf(),
            final(self).refs() == old(self).refs() + 1,
            final(self)@ == old(self)@,
            final(self).is_released() == old(self).is_released(),
            final(self).number() == old(self).number(),
    {
        self.refcount = self.refcount + 1;
    }
}

/// A released node holds no notifications.
pub proof fn law_released_node_is_empty<C>(node: BinderNode<C>)
    requires
        node.wf(),
        node.is_released(),
    ensures
        node@ == Seq::<DeathRecipient<C>>::empty(),
{
    assert(node@ =~= Seq::empty());
}

} // verus!
