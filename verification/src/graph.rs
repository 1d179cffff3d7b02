//! The dependency graph over blocks: random construction and queries.
//!
//! A graph owns an arena of nodes, one per block, plus an index from block
//! identity to its node. Construction draws a random edge set, then attaches
//! each edge's child under its parent; an attachment that would close a
//! cycle is retried in the reverse direction and dropped if that fails too,
//! so the result is always a forest of rooted trees spanning all blocks.

use vstd::prelude::*;

use std::collections::HashMap;

use crate::arena::arena_fresh;
use crate::arena::arena_get;
use crate::arena::arena_new;
use crate::arena::arena_new_node;
use crate::arena::arena_parents;
use crate::arena::arena_values;
use crate::arena::checked_append;
use crate::arena::node_children;
use crate::arena::node_fresh;
use crate::arena::node_index;
use crate::arena::node_parent;
use crate::reach::ancestor_or_self;
use crate::reach::lemma_insert_preserves_rooted_all;
use crate::reach::lemma_reaches_in_range;
use crate::reach::lemma_rooted_all_acyclic;
use crate::reach::lemma_rooted_ends_at_root;
use crate::reach::reaches;
use crate::reach::rooted;
use crate::reach::rooted_all;
use crate::reach::terminates;

verus! {

broadcast use vstd::std_specs::hash::group_hash_axioms;

/// The average number of children aimed for when drawing random edges.
pub const AVG_CHILDREN: usize = 3;

/// The rooted dependency structure over the blocks of one puzzle.
pub struct EntityGraph {
    arena: indextree::Arena<u64>,
    nodes: HashMap<u64, indextree::NodeId>,
}

/// The effect of one `(parent, child)` edge on the parent links: attach the
/// child under the parent unless that would close a cycle; then try the
/// reverse attachment; failing both, leave the links alone.
pub open spec fn attach_edge(m: Map<int, int>, p: int, c: int) -> Map<int, int> {
    if !ancestor_or_self(m, p, c) {
        m.insert(c, p)
    } else if !ancestor_or_self(m, c, p) {
        m.insert(p, c)
    } else {
        m
    }
}

/// The parent links obtained by attaching the given edges in order.
pub open spec fn built_links(edges: Seq<(usize, usize)>) -> Map<int, int>
    decreases edges.len(),
{
    if edges.len() == 0 {
        Map::empty()
    } else {
        attach_edge(
            built_links(edges.drop_last()),
            edges.last().0 as int,
            edges.last().1 as int,
        )
    }
}

impl EntityGraph {
    /// The block identities, in node-creation order.
    pub closed spec fn blocks(self) -> Seq<u64> {
        arena_values(self.arena)
    }

    /// The parent link of each node slot.
    pub closed spec fn parent_links(self) -> Map<int, int> {
        arena_parents(self.arena)
    }

    /// The graph's structural invariant: the arena was never shrunk, every
    /// upward walk terminates, links stay within the node slots, block
    /// identities are distinct, and the index maps exactly the blocks to
    /// their slots.
    pub closed spec fn wf(self) -> bool {
        &&& arena_fresh(self.arena)
        &&& rooted_all(self.parent_links())
        &&& (forall|i: int|
            #[trigger] self.parent_links().contains_key(i) ==> 0 <= i < self.blocks().len() && 0
                <= self.parent_links()[i] < self.blocks().len())
        &&& self.blocks().no_duplicates()
        &&& (forall|b: u64|
            #[trigger] self.nodes@.contains_key(b) ==> node_fresh(self.nodes@[b]) && 0
                <= node_index(self.nodes@[b]) < self.blocks().len()
                && self.blocks()[node_index(self.nodes@[b])] == b)
        &&& (forall|i: int|
            0 <= i < self.blocks().len() ==> self.nodes@.contains_key(#[trigger] self.blocks()[i]))
    }

    /// Whether `b` is one of the graph's blocks.
    pub open spec fn contains_block(self, b: u64) -> bool {
        self.blocks().contains(b)
    }

    /// The node slot that holds block `b`.
    pub open spec fn idx_of(self, b: u64) -> int {
        choose|i: int| 0 <= i < self.blocks().len() && self.blocks()[i] == b
    }

    /// The parent of block `b`, where it has one.
    pub open spec fn parent_of(self, b: u64) -> Option<u64> {
        if self.contains_block(b) && self.parent_links().contains_key(self.idx_of(b)) {
            Some(self.blocks()[self.parent_links()[self.idx_of(b)]])
        } else {
            None
        }
    }

    /// Whether `c` hangs directly under `p`.
    pub open spec fn is_child_of(self, c: u64, p: u64) -> bool {
        self.parent_of(c) == Some(p)
    }

    /// Whether `a` lies strictly above `d` on `d`'s upward path.
    pub open spec fn is_ancestor_of(self, a: u64, d: u64) -> bool {
        &&& self.contains_block(a)
        &&& self.contains_block(d)
        &&& exists|k: nat|
            k >= 1 && reaches(self.parent_links(), self.idx_of(d), self.idx_of(a), k)
    }

    /// Whether following parent links upward from `b` ends at a parentless
    /// block.
    pub open spec fn has_root_path(self, b: u64) -> bool {
        exists|r: u64|
            {
                &&& #[trigger] self.contains_block(r)
                &&& self.parent_of(r) is None
                &&& ancestor_or_self(self.parent_links(), self.idx_of(b), self.idx_of(r))
            }
    }

    /// In a well-formed graph each block sits in exactly one slot.
    proof fn lemma_idx_of(self, b: u64)
        requires
            self.wf(),
            self.contains_block(b),
        ensures
            0 <= self.idx_of(b) < self.blocks().len(),
            self.blocks()[self.idx_of(b)] == b,
            forall|i: int|
                0 <= i < self.blocks().len() && self.blocks()[i] == b ==> i == self.idx_of(b),
    {
        let j = choose|j: int| 0 <= j < self.blocks().len() && self.blocks()[j] == b;
        assert(self.blocks()[self.idx_of(b)] == b);
        assert forall|i: int|
            0 <= i < self.blocks().len() && self.blocks()[i] == b implies i == self.idx_of(
            b,
        ) by {
            if i != self.idx_of(b) {
                assert(self.blocks()[i] == self.blocks()[self.idx_of(b)]);
            }
        }
    }

    /// The direct children of `block`, in the arena's sibling order; empty
    /// when the block is absent or childless.
    pub fn children(&self, block: u64) -> (r: Vec<u64>)
        requires
            self.wf(),
        ensures
            forall|c: u64| #[trigger] r@.contains(c) <==> self.is_child_of(c, block),
            r@.no_duplicates(),
    {
        let node = match self.nodes.get(&block) {
            None => {
                proof {
                    assert(!self.nodes@.contains_key(block));
                    assert forall|c: u64| !self.is_child_of(c, block) by {
                        if self.contains_block(block) {
                            self.lemma_idx_of(block);
                        }
                    }
                }
                return Vec::new();
            },
            Some(n) => *n,
        };
        proof {
            assert(self.nodes@.contains_key(block) && self.nodes@[block] == node);
            self.lemma_idx_of(block);
            assert(self.idx_of(block) == node_index(node));
        }
        let kids = node_children(&self.arena, node);
        let mut r: Vec<u64> = Vec::new();
        let mut i: usize = 0;
        while i < kids.len()
            invariant
                self.wf(),
                i <= kids@.len(),
                r@.len() == i,
                forall|j: int|
                    0 <= j < kids@.len() ==> {
                        &&& node_fresh(#[trigger] kids@[j])
                        &&& 0 <= node_index(kids@[j]) < self.blocks().len()
                        &&& self.parent_links().contains_key(node_index(kids@[j]))
                        &&& self.parent_links()[node_index(kids@[j])] == self.idx_of(block)
                    },
                forall|j: int| 0 <= j < i ==> r@[j] == self.blocks()[node_index(#[trigger] kids@[j])],
            decreases kids@.len() - i,
        {
            let v = arena_get(&self.arena, kids[i]);
            r.push(v);
            i += 1;
        }
        proof {
            self.lemma_idx_of(block);
            let ib = self.idx_of(block);
            assert forall|c: u64| #[trigger] r@.contains(c) implies self.is_child_of(c, block) by {
                let j = choose|j: int| 0 <= j < r@.len() && r@[j] == c;
                let cj = node_index(kids@[j]);
                assert(self.blocks()[cj] == c);
                assert(self.contains_block(c));
                self.lemma_idx_of(c);
                assert(self.idx_of(c) == cj);
            }
            assert forall|c: u64| self.is_child_of(c, block) implies r@.contains(c) by {
                self.lemma_idx_of(c);
                let cj = self.idx_of(c);
                assert(self.parent_links().contains_key(cj));
                assert(self.blocks()[self.parent_links()[cj]] == block);
                self.lemma_idx_of(self.blocks()[self.parent_links()[cj]]);
                assert(self.parent_links()[cj] == ib);
                let j = choose|j: int| 0 <= j < kids@.len() && node_index(#[trigger] kids@[j]) == cj;
                assert(r@[j] == c);
            }
            assert forall|j1: int, j2: int| 0 <= j1 < j2 < r@.len() implies r@[j1] != r@[j2] by {
                assert(node_index(kids@[j1]) != node_index(kids@[j2]));
            }
        }
        r
    }

    /// The parent of `block`, unless it is a root or absent from the graph.
    pub fn parent(&self, block: u64) -> (r: Option<u64>)
        requires
            self.wf(),
        ensures
            r == self.parent_of(block),
    {
        let node = match self.nodes.get(&block) {
            None => {
                proof {
                    if self.contains_block(block) {
                        self.lemma_idx_of(block);
                    }
                }
                return None;
            },
            Some(n) => *n,
        };
        proof {
            self.lemma_idx_of(block);
            assert(self.idx_of(block) == node_index(node));
        }
        match node_parent(&self.arena, node) {
            None => None,
            Some(p) => Some(arena_get(&self.arena, p)),
        }
    }

    /// Builds the graph over `entities` by attaching the given edges in
    /// order, each one forward, else reversed, else dropped, so that no
    /// attachment ever closes a cycle.
    pub fn from_edges(entities: Vec<u64>, edges: &Vec<(usize, usize)>) -> (g: EntityGraph)
        requires
            entities@.len() >= 1,
            entities@.no_duplicates(),
            forall|k: int|
                0 <= k < edges@.len() ==> (#[trigger] edges@[k]).0 < entities@.len() && edges@[k].1
                    < entities@.len(),
        ensures
            g.wf(),
            g.blocks() == entities@,
            g.parent_links() == built_links(edges@),
    {
        let n = entities.len();
        let mut arena = arena_new();
        let mut nodes: HashMap<u64, indextree::NodeId> = HashMap::new();
        let mut node_vec: Vec<indextree::NodeId> = Vec::new();
        let mut i: usize = 0;
        while i < n
            invariant
                n == entities@.len(),
                entities@.no_duplicates(),
                i <= n,
                arena_fresh(arena),
                arena_values(arena) == entities@.take(i as int),
                forall|x: int| !arena_parents(arena).contains_key(x),
                node_vec@.len() == i,
                forall|j: int|
                    0 <= j < i ==> node_fresh(#[trigger] node_vec@[j]) && node_index(
                        node_vec@[j],
                    ) == j,
                forall|j: int| 0 <= j < i ==> nodes@.contains_key(#[trigger] entities@[j]),
                forall|b: u64|
                    #[trigger] nodes@.contains_key(b) ==> node_fresh(nodes@[b]) && 0
                        <= node_index(nodes@[b]) < i && entities@[node_index(nodes@[b])] == b,
            decreases n - i,
        {
            let nid = arena_new_node(&mut arena, entities[i]);
            node_vec.push(nid);
            nodes.insert(entities[i], nid);
            i += 1;
            proof {
                assert(arena_values(arena) =~= entities@.take(i as int));
            }
        }
        proof {
            assert(arena_values(arena) =~= entities@);
            assert forall|x: int| #[trigger] terminates(arena_parents(arena), x) by {
                assert(rooted(arena_parents(arena), x, 0));
            }
            assert(arena_parents(arena) =~= built_links(edges@.take(0)));
        }
        let m = edges.len();
        let mut e: usize = 0;
        while e < m
            invariant
                n == entities@.len(),
                m == edges@.len(),
                e <= m,
                arena_fresh(arena),
                arena_values(arena) == entities@,
                rooted_all(arena_parents(arena)),
                arena_parents(arena) == built_links(edges@.take(e as int)),
                forall|x: int|
                    #[trigger] arena_parents(arena).contains_key(x) ==> 0 <= x < n && 0
                        <= arena_parents(arena)[x] < n,
                node_vec@.len() == n,
                forall|j: int|
                    0 <= j < n ==> node_fresh(#[trigger] node_vec@[j]) && node_index(
                        node_vec@[j],
                    ) == j,
                forall|k: int|
                    0 <= k < edges@.len() ==> (#[trigger] edges@[k]).0 < n && edges@[k].1 < n,
            decreases m - e,
        {
            let pe = edges[e].0;
            let ce = edges[e].1;
            let ghost links0 = arena_parents(arena);
            let ok = checked_append(&mut arena, node_vec[pe], node_vec[ce]);
            proof {
                if ok {
                    lemma_insert_preserves_rooted_all(links0, ce as int, pe as int);
                }
            }
            if !ok {
                let ok2 = checked_append(&mut arena, node_vec[ce], node_vec[pe]);
                proof {
                    if ok2 {
                        lemma_insert_preserves_rooted_all(links0, pe as int, ce as int);
                    }
                }
            }
            e += 1;
            proof {
                assert(edges@.take(e as int).drop_last() =~= edges@.take(e - 1));
                assert(edges@.take(e as int).last() == edges@[e - 1]);
                assert(arena_parents(arena) == built_links(edges@.take(e as int)));
            }
        }
        proof {
            assert(edges@.take(m as int) =~= edges@);
        }
        EntityGraph { arena, nodes }
    }

    /// Builds a random graph over the given blocks: draws an edge set sized
    /// for an average of `AVG_CHILDREN` children per node, then attaches the
    /// edges as `from_edges` does. The result always spans exactly the given
    /// blocks; dropped edges only thin the structure.
    pub fn random_from_entities(entities: Vec<u64>) -> (g: EntityGraph)
        requires
            1 <= entities@.len() <= 0xFFFF,
            entities@.no_duplicates(),
        ensures
            g.wf(),
            g.blocks() == entities@,
    {
        let n = entities.len();
        proof {
            let ni = n as int;
            assert(ni * (ni - 1) <= 0xFFFF * 0xFFFE) by (nonlinear_arith)
                requires
                    1 <= ni <= 0xFFFF,
            ;
        }
        let nedges = n * (n - 1) / AVG_CHILDREN;
        let edges = random_digraph_edges(n, nedges);
        Self::from_edges(entities, &edges)
    }
}

/// Law: every block of a well-formed graph can follow parent links upward
/// to a parentless block, so each tree of the structure is rooted and no
/// walk gets stuck in a loop.
pub proof fn lemma_every_block_has_root_path(g: EntityGraph, b: u64)
    requires
        g.wf(),
        g.contains_block(b),
    ensures
        g.has_root_path(b),
{
    let m = g.parent_links();
    let n = g.blocks().len() as int;
    g.lemma_idx_of(b);
    let ib = g.idx_of(b);
    assert(terminates(m, ib));
    let k = choose|k: nat| rooted(m, ib, k);
    lemma_rooted_ends_at_root(m, ib, k);
    let ri = choose|ri: int| #[trigger] ancestor_or_self(m, ib, ri) && !m.contains_key(ri);
    let j = choose|j: nat| reaches(m, ib, ri, j);
    lemma_reaches_in_range(m, ib, ri, j, n);
    let r = g.blocks()[ri];
    assert(g.contains_block(r));
    g.lemma_idx_of(r);
    assert(g.idx_of(r) == ri);
    assert(g.parent_of(r) is None);
}

/// Law: a puzzle of one block is a graph of one node that is its own root.
pub proof fn lemma_single_block_is_its_own_root(g: EntityGraph)
    requires
        g.wf(),
        g.blocks().len() == 1,
    ensures
        g.parent_of(g.blocks()[0]) is None,
{
    let b = g.blocks()[0];
    assert(g.contains_block(b));
    g.lemma_idx_of(b);
    let m = g.parent_links();
    if m.contains_key(g.idx_of(b)) {
        assert(g.idx_of(b) == 0 && m[0] == 0);
        assert(reaches(m, m[0], 0, 0));
        assert(reaches(m, 0, 0, 1));
        lemma_rooted_all_acyclic(m);
    }
}

/// Law: each node has at most one parent, and no block is its own ancestor:
/// the parent links are acyclic.
pub proof fn lemma_no_block_is_own_ancestor(g: EntityGraph, b: u64)
    requires
        g.wf(),
    ensures
        !g.is_ancestor_of(b, b),
{
    if g.is_ancestor_of(b, b) {
        let k = choose|k: nat|
            k >= 1 && reaches(g.parent_links(), g.idx_of(b), g.idx_of(b), k);
        lemma_rooted_all_acyclic(g.parent_links());
        assert(!reaches(g.parent_links(), g.idx_of(b), g.idx_of(b), k));
    }
}

/// Relies on `graphalgs::generate::random_digraph`: a set of `nedges`
/// distinct directed edges over `nodes` vertices, with no self-loops.
#[verifier::external_body]
fn random_digraph_edges(nodes: usize, nedges: usize) -> (r: Vec<(usize, usize)>)
    requires
        nodes >= 1,
        nedges <= nodes * (nodes - 1),
    ensures
        r@.len() == nedges,
        forall|k: int|
            0 <= k < r@.len() ==> (#[trigger] r@[k]).0 < nodes && r@[k].1 < nodes && r@[k].0
                != r@[k].1,
        r@.no_duplicates(),
{
    let edges = graphalgs::generate::random_digraph(nodes, nedges)
        .expect("the edge count never exceeds the maximum");
    edges.into_iter().collect()
}

} // verus!
