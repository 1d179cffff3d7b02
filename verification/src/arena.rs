//! Trusted model of the `indextree` arena that stores the dependency tree.
//!
//! The arena is described through uninterpreted names: the sequence of node
//! data in creation order (`arena_values`), the parent link of each node
//! slot (`arena_parents`), the fact that no node has ever been removed
//! (`arena_fresh`), the slot a `NodeId` designates (`node_index`), and the
//! fact that an id was minted by such an arena (`node_fresh`).
//! Each wrapper below makes one `indextree` call and states, over these
//! names, what that call's source shows.

use vstd::prelude::*;

use crate::reach::ancestor_or_self;
use crate::reach::rooted_all;

verus! {

#[verifier::external_type_specification]
#[verifier::external_body]
#[verifier::reject_recursive_types(T)]
pub struct ExArena<T>(indextree::Arena<T>);

#[verifier::external_type_specification]
#[verifier::external_body]
pub struct ExNodeId(indextree::NodeId);

/// The data of the arena's nodes, in creation order.
pub uninterp spec fn arena_values(a: indextree::Arena<u64>) -> Seq<u64>;

/// The parent links among the arena's node slots.
pub uninterp spec fn arena_parents(a: indextree::Arena<u64>) -> Map<int, int>;

/// No node of the arena has ever been removed, so every slot is live.
pub uninterp spec fn arena_fresh(a: indextree::Arena<u64>) -> bool;

/// The arena slot that a node id designates.
pub uninterp spec fn node_index(n: indextree::NodeId) -> int;

/// The id was minted by an arena that had never removed a node, so it
/// carries the initial reuse stamp and stays valid for every such arena.
pub uninterp spec fn node_fresh(n: indextree::NodeId) -> bool;

/// Relies on `indextree::Arena::new`: a fresh arena holds no nodes.
#[verifier::external_body]
pub(crate) fn arena_new() -> (r: indextree::Arena<u64>)
    ensures
        arena_fresh(r),
        arena_values(r) == Seq::<u64>::empty(),
        forall|x: int| !arena_parents(r).contains_key(x),
{
    indextree::Arena::new()
}

/// Relies on `indextree::Arena::new_node`: appends a fresh parentless node
/// holding `v` and returns its id.
#[verifier::external_body]
pub(crate) fn arena_new_node(a: &mut indextree::Arena<u64>, v: u64) -> (n: indextree::NodeId)
    requires
        arena_fresh(*old(a)),
        arena_values(*old(a)).len() < usize::MAX,
    ensures
        arena_fresh(*final(a)),
        node_fresh(n),
        node_index(n) == arena_values(*old(a)).len(),
        arena_values(*final(a)) == arena_values(*old(a)).push(v),
        arena_parents(*final(a)) == arena_parents(*old(a)),
{
    a.new_node(v)
}

/// Relies on `indextree::Arena::get` and `indextree::Node::get`: the data of
/// a live node.
#[verifier::external_body]
pub(crate) fn arena_get(a: &indextree::Arena<u64>, n: indextree::NodeId) -> (v: u64)
    requires
        arena_fresh(*a),
        node_fresh(n),
        0 <= node_index(n) < arena_values(*a).len(),
    ensures
        v == arena_values(*a)[node_index(n)],
{
    *a.get(n).expect("a live node is always present").get()
}

/// Relies on `indextree::NodeId::parent`: the parent link of a live node.
#[verifier::external_body]
pub(crate) fn node_parent(a: &indextree::Arena<u64>, n: indextree::NodeId) -> (p: Option<
    indextree::NodeId,
>)
    requires
        arena_fresh(*a),
        node_fresh(n),
        0 <= node_index(n) < arena_values(*a).len(),
    ensures
        match p {
            Some(pid) => arena_parents(*a).contains_key(node_index(n)) && node_fresh(pid)
                && node_index(pid) == arena_parents(*a)[node_index(n)] && 0 <= node_index(pid)
                < arena_values(*a).len(),
            None => !arena_parents(*a).contains_key(node_index(n)),
        },
{
    n.parent(a)
}

/// Relies on `indextree::NodeId::children`: the direct children of a live
/// node, in sibling order; their slots are exactly the slots whose parent
/// link leads to `n`.
#[verifier::external_body]
pub(crate) fn node_children(a: &indextree::Arena<u64>, n: indextree::NodeId) -> (c: Vec<
    indextree::NodeId,
>)
    requires
        arena_fresh(*a),
        node_fresh(n),
        0 <= node_index(n) < arena_values(*a).len(),
    ensures
        forall|i: int|
            0 <= i < c@.len() ==> {
                &&& node_fresh(#[trigger] c@[i])
                &&& 0 <= node_index(c@[i]) < arena_values(*a).len()
                &&& arena_parents(*a).contains_key(node_index(c@[i]))
                &&& arena_parents(*a)[node_index(c@[i])] == node_index(n)
            },
        forall|j: int|
            #[trigger] arena_parents(*a).contains_key(j) && arena_parents(*a)[j] == node_index(n)
                ==> exists|i: int| 0 <= i < c@.len() && node_index(#[trigger] c@[i]) == j,
        forall|i1: int, i2: int|
            0 <= i1 < i2 < c@.len() ==> node_index(c@[i1]) != node_index(c@[i2]),
{
    n.children(a).collect()
}

/// Relies on `indextree::NodeId::checked_append`: attaches `child` under
/// `parent`, detaching it from any previous parent, unless the attachment
/// would create a cycle, that is unless `child` already lies on the upward
/// path from `parent` (or is `parent` itself).
#[verifier::external_body]
pub(crate) fn checked_append(
    a: &mut indextree::Arena<u64>,
    parent: indextree::NodeId,
    child: indextree::NodeId,
) -> (ok: bool)
    requires
        arena_fresh(*old(a)),
        node_fresh(parent),
        node_fresh(child),
        0 <= node_index(parent) < arena_values(*old(a)).len(),
        0 <= node_index(child) < arena_values(*old(a)).len(),
        rooted_all(arena_parents(*old(a))),
    ensures
        arena_fresh(*final(a)),
        arena_values(*final(a)) == arena_values(*old(a)),
        ok == !ancestor_or_self(
            arena_parents(*old(a)),
            node_index(parent),
            node_index(child),
        ),
        ok ==> arena_parents(*final(a)) == arena_parents(*old(a)).insert(
            node_index(child),
            node_index(parent),
        ),
        !ok ==> arena_parents(*final(a)) == arena_parents(*old(a)),
{
    parent.checked_append(child, a).is_ok()
}

} // verus!
