# binder_lists

Intrusive lists and the nodes that are built on them: death notifications that are registered,
withdrawn and delivered once, reference-counted nodes, and the managers that clean nodes up after
their last reference has gone. What matters about all of them is what happens when an element is
removed while, or after, the list it was on is drained. The library states that in contracts and
laws, which Verus proves.

* `src/links.rs`, `src/chains.rs`: memory as a vector of elements, addresses as indices into it, and
  lists threaded through link fields that the elements embed.
* `src/lists/`: lists in a memory that the caller owns. They differ in how `remove` finds out that an
  element is no longer on the list.
* `src/owned/`: lists that own their elements. Those in `trusting.rs` do not ask whether an element is
  still on the list when they remove it.
* `src/nodes/`: nodes that hold death notifications. Callbacks are values that are handed out when
  they are due; the caller calls them.
* `src/active/`: nodes on a list of active ones, which move to a stack or leave with their last
  reference.
* `src/managers/`: managers of nodes and their clean-up.
* `app/`: locks, callbacks and output around the library.

Functions whose names begin with `law_` state what holds across several operations.
