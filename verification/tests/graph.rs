//! The CFG algorithms on small hand-drawn graphs.
use reconverge::graph::{
    divergence_region, dominates, dominators, is_reducible, post_dominators, reachable, reverse_postorder, Cfg,
};

/// Exits for tests: every no-successor block returns.
fn no_succ_exits(g: &Cfg) -> Vec<bool> {
    g.succs.iter().map(Vec::is_empty).collect()
}

/// Build a Cfg directly from an edge list (blocks 0..n).
fn cfg(n: usize, edges: &[(usize, usize)]) -> Cfg {
    let mut succs = vec![Vec::new(); n];
    let mut preds = vec![Vec::new(); n];
    for &(a, b) in edges {
        succs[a].push(b);
        preds[b].push(a);
    }
    Cfg { succs, preds }
}

#[test]
fn diamond_dominators_and_postdominators() {
    // 0 → {1, 2} → 3 → (exit)
    let g = cfg(4, &[(0, 1), (0, 2), (1, 3), (2, 3)]);
    let idom = dominators(&g, 0);
    assert_eq!(idom[1], Some(0));
    assert_eq!(idom[2], Some(0));
    assert_eq!(idom[3], Some(0));
    let ipdom = post_dominators(&g, &no_succ_exits(&g));
    assert_eq!(ipdom[0], Some(3));
    assert_eq!(ipdom[1], Some(3));
    assert_eq!(ipdom[2], Some(3));
    assert!(is_reducible(&g, 0, &idom));

    let region = divergence_region(&g, 0, ipdom[0]);
    assert!(region[1] && region[2]);
    assert!(!region[3], "join point is outside the region");
}

#[test]
fn loop_region_and_reducibility() {
    // 0 → 1 → 2 → 1 (back edge), 1 → 3 → exit; branch at 1.
    let g = cfg(4, &[(0, 1), (1, 2), (2, 1), (1, 3)]);
    let idom = dominators(&g, 0);
    assert!(is_reducible(&g, 0, &idom));
    let ipdom = post_dominators(&g, &no_succ_exits(&g));
    assert_eq!(ipdom[1], Some(3));
    let region = divergence_region(&g, 1, ipdom[1]);
    assert!(region[2], "loop body is in the region");
    assert!(region[1], "loop header re-executes under the branch");
    assert!(!region[3], "loop exit reconverges");
}

#[test]
fn irreducible_cfg_is_detected() {
    // Two entries into a cycle: 0 → 1, 0 → 2, 1 → 2, 2 → 1, 1 → 3.
    let g = cfg(4, &[(0, 1), (0, 2), (1, 2), (2, 1), (1, 3)]);
    let idom = dominators(&g, 0);
    assert!(!is_reducible(&g, 0, &idom));
}

#[test]
fn infinite_loop_blocks_have_no_postdominator() {
    // 0 → 1 → 2 → 1; nothing reaches an exit from the loop.
    let g = cfg(3, &[(0, 1), (1, 2), (2, 1)]);
    let ipdom = post_dominators(&g, &no_succ_exits(&g));
    assert_eq!(ipdom[1], None);
    assert_eq!(ipdom[2], None);
    // Conservative region: everything reachable from the successors.
    let region = divergence_region(&g, 1, ipdom[1]);
    assert!(region[2] && region[1]);
}

#[test]
fn unreachable_blocks_are_not_reached_and_have_no_dominator() {
    // 0 → 1; 2 → 1 with 2 unreachable from the entry.
    let g = cfg(3, &[(0, 1), (2, 1)]);
    let reach = reachable(&g, 0);
    assert_eq!(reach, vec![true, true, false]);
    let idom = dominators(&g, 0);
    assert_eq!(idom[0], Some(0), "the entry is its own root");
    assert_eq!(idom[1], Some(0));
    assert_eq!(idom[2], None);
}

#[test]
fn dominance_walks_the_idom_chain() {
    // 0 → 1 → 2 → 3, and 0 → 3.
    let g = cfg(4, &[(0, 1), (1, 2), (2, 3), (0, 3)]);
    let idom = dominators(&g, 0);
    assert!(dominates(&idom, 0, 2));
    assert!(dominates(&idom, 1, 2));
    assert!(dominates(&idom, 2, 2), "a block dominates itself");
    assert!(!dominates(&idom, 1, 3), "3 is reachable around 1");
    assert!(!dominates(&idom, 2, 1));
}

#[test]
fn reverse_postorder_starts_at_the_entry_and_orders_forward_edges() {
    // The diamond: 0 → {1, 2} → 3.
    let g = cfg(4, &[(0, 1), (0, 2), (1, 3), (2, 3)]);
    let order = reverse_postorder(&g, 0);
    assert_eq!(order.len(), 4);
    assert_eq!(order[0], 0);
    assert_eq!(order[3], 3, "the join comes after both arms");
    let pos = |b: usize| order.iter().position(|&x| x == b).unwrap();
    assert!(pos(1) < pos(3) && pos(2) < pos(3));
}

#[test]
fn a_forward_edge_into_a_loop_body_keeps_the_graph_reducible() {
    // 0 → 1 → 2 → 3 → 1: the edge 2 → 3 lies on the cycle and 3 does not
    // dominate 2, but the only edge to a non-dominator on that cycle goes
    // forward; with the back edge 3 → 1 set aside there is no cycle.
    let g = cfg(4, &[(0, 1), (1, 2), (2, 3), (3, 1)]);
    let idom = dominators(&g, 0);
    assert_eq!(idom[3], Some(2));
    assert!(is_reducible(&g, 0, &idom));
}
