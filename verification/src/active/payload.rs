//! A node that carries a plain payload.
use vstd::prelude::*;

use crate::links::{Embeds, ListNode};

verus! {

/// The link fields of a node.
pub type NodeLinks = ListNode;

/// A node with embedded links and a payload.
#[derive(Clone, Copy, Debug, PartialEq, Eq, Structural)]
pub struct Node {
    pub links: NodeLinks,
    pub data: usize,
}

impl Node {
    /// Creates a node on no list.
    pub fn new(data: usize) -> (node: Node)
        ensures
            node == (Node { links: ListNode { prev: None, next: None }, data }),
    {
        Node { links: ListNode::new(), data }
    }
}

impl Embeds for Node {
    open spec fn links(self) -> ListNode {
        self.links
    }

    open spec fn relinked(self, links: ListNode) -> Self {
        Node { links, data: self.data }
    }

    proof fn relinking(self, a: ListNode, b: ListNode) {
    }

    fn get_links(&self) -> (links: ListNode) {
        self.links
    }

    fn set_links(&mut self, links: ListNode) {
        self.links = links;
    }
}

/// Relinking an element sets its link fields and keeps its data.
pub proof fn law_relinking_keeps_the_payload(x: Node, links: ListNode)
    ensures
        x.relinked(links).links().prev == links.prev,
        x.relinked(links).links().next == links.next,
        x.relinked(links).data == x.data,
{
}

} // verus!
