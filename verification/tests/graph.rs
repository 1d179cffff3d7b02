//! Tests for graph construction and the parent/child queries.

use pist_off::graph::EntityGraph;

/// Walks parent links upward from `b` and returns the parentless block the
/// walk ends at, panicking if it runs longer than the number of blocks.
fn walk_to_root(g: &EntityGraph, b: u64, bound: usize) -> u64 {
    let mut cur = b;
    for _ in 0..=bound {
        match g.parent(cur) {
            Some(p) => cur = p,
            None => return cur,
        }
    }
    panic!("parent chain longer than the block count: a cycle");
}

// This isn't comprehensive, but hopefully gives a sense of whether the graph
// generation is likely to fail in general.
#[test]
fn generate_tree() {
    // it's random, so let's do it a lot
    for _ in 0..10 {
        for entity_count in 8..120 {
            let ents: Vec<u64> = (0..entity_count).collect();

            let _ = EntityGraph::random_from_entities(ents);
        }
    }
}

#[test]
fn single_node_graph_is_its_own_root() {
    let g = EntityGraph::random_from_entities(vec![7]);
    assert_eq!(g.parent(7), None);
    assert!(g.children(7).is_empty());
    assert_eq!(walk_to_root(&g, 7, 1), 7);
}

#[test]
fn every_block_walks_up_to_a_root() {
    for trial in 0..50 {
        let n = 1 + (trial % 40) as u64;
        let ents: Vec<u64> = (100..100 + n).collect();
        let g = EntityGraph::random_from_entities(ents.clone());
        for &b in &ents {
            // must terminate at some parentless block, never cycle
            let _root = walk_to_root(&g, b, n as usize);
        }
    }
}

#[test]
fn from_edges_attaches_children_in_order() {
    // root 10 with children 20 and 30; 20 with child 40
    let g = EntityGraph::from_edges(vec![10, 20, 30, 40], &vec![(0, 1), (0, 2), (1, 3)]);
    assert_eq!(g.parent(10), None);
    assert_eq!(g.parent(20), Some(10));
    assert_eq!(g.parent(30), Some(10));
    assert_eq!(g.parent(40), Some(20));
    let mut kids = g.children(10);
    kids.sort();
    assert_eq!(kids, vec![20, 30]);
    assert_eq!(g.children(20), vec![40]);
    assert!(g.children(30).is_empty());
    assert!(g.children(40).is_empty());
}

#[test]
fn cycle_edge_is_reversed() {
    // (0, 1) makes 20 a child of 10; (1, 0) would close a cycle, so the
    // reverse attachment re-appends 20 under 10 and the shape survives.
    let g = EntityGraph::from_edges(vec![10, 20], &vec![(0, 1), (1, 0)]);
    assert_eq!(g.parent(20), Some(10));
    assert_eq!(g.parent(10), None);
    assert_eq!(g.children(10), vec![20]);
}

#[test]
fn unattachable_edge_is_dropped() {
    // 10 -> 20 -> 30, then (0, 2): attaching 30 under 10 would not close a
    // cycle, so the edge re-parents 30 directly under 10.
    let g = EntityGraph::from_edges(vec![10, 20, 30], &vec![(0, 1), (1, 2), (0, 2)]);
    assert_eq!(g.parent(30), Some(10));
    // now (2, 0) wants 10 under 30: that closes a cycle, so the reverse
    // attachment runs instead and re-parents 30 under 10.
    let g = EntityGraph::from_edges(vec![10, 20, 30], &vec![(0, 1), (1, 2), (2, 0)]);
    assert_eq!(g.parent(10), None);
    assert_eq!(g.parent(20), Some(10));
    assert_eq!(g.parent(30), Some(10));
    // a self-loop can attach in neither direction and is dropped outright
    let g = EntityGraph::from_edges(vec![10, 20], &vec![(1, 1)]);
    assert_eq!(g.parent(10), None);
    assert_eq!(g.parent(20), None);
}

#[test]
fn queries_on_absent_blocks_are_inert() {
    let g = EntityGraph::from_edges(vec![10, 20], &vec![(0, 1)]);
    assert_eq!(g.parent(99), None);
    assert!(g.children(99).is_empty());
}

#[test]
fn no_block_is_its_own_ancestor() {
    // adversarial edge lists that try to close cycles
    let g = EntityGraph::from_edges(
        vec![1, 2, 3, 4],
        &vec![(0, 1), (1, 2), (2, 3), (3, 0), (2, 0), (1, 0)],
    );
    for b in [1u64, 2, 3, 4] {
        let mut seen = vec![b];
        let mut cur = b;
        while let Some(p) = g.parent(cur) {
            assert!(!seen.contains(&p), "block {p} is its own ancestor");
            seen.push(p);
            cur = p;
        }
    }
}
