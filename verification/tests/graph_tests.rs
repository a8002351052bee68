use chainsaw::graph::{EdgeKind, ModuleGraph};

#[test]
fn add_edge_deduplicates_same_from_to_kind() {
    let mut g = ModuleGraph::new();
    let a = g.add_module("a.ts".to_string(), 100, None);
    let b = g.add_module("b.ts".to_string(), 200, None);

    // Add same edge three times (simulating symlink-resolved duplicates)
    g.add_edge(a, b, EdgeKind::Static, "./b".to_string());
    g.add_edge(a, b, EdgeKind::Static, "./link-to-b".to_string());
    g.add_edge(a, b, EdgeKind::Static, "./double-link".to_string());

    // Should have only one edge (deduped by from+to+kind)
    assert_eq!(g.edges.len(), 1, "duplicate edges should be deduped");
    assert_eq!(g.forward_adj[a.0 as usize].len(), 1);
}

#[test]
fn add_edge_allows_different_kinds() {
    let mut g = ModuleGraph::new();
    let a = g.add_module("a.ts".to_string(), 100, None);
    let b = g.add_module("b.ts".to_string(), 200, None);

    // Static and Dynamic edges between same nodes should both exist
    g.add_edge(a, b, EdgeKind::Static, "./b".to_string());
    g.add_edge(a, b, EdgeKind::Dynamic, "./b".to_string());

    assert_eq!(g.edges.len(), 2, "different edge kinds should not be deduped");
}

#[test]
fn add_edge_returns_existing_id_on_duplicate() {
    let mut g = ModuleGraph::new();
    let a = g.add_module("a.ts".to_string(), 1, None);
    let b = g.add_module("b.ts".to_string(), 2, None);
    let first = g.add_edge(a, b, EdgeKind::Static, "./b".to_string());
    let second = g.add_edge(a, b, EdgeKind::Static, "./b-link".to_string());
    assert_eq!(first, second);
    // the specifier of the first insertion is kept
    assert_eq!(g.edges[first.0 as usize].specifier, "./b");
}

#[test]
fn add_module_is_idempotent_per_path() {
    let mut g = ModuleGraph::new();
    let a1 = g.add_module("a.ts".to_string(), 100, None);
    let a2 = g.add_module("a.ts".to_string(), 999, None);
    assert_eq!(a1, a2);
    assert_eq!(g.module_count(), 1);
    assert_eq!(g.module(a1).size_bytes, 100);
}
