//! End-to-end scenarios over hand-built graphs: trace weights, the
//! dynamic-only bucket, package aggregation, chains, and trace comparison.

use chainsaw::graph::{EdgeKind, ModuleGraph};
use chainsaw::query::{
    compute_package_info, diff_traces, find_all_chains, find_chain, trace, TraceOptions,
};

fn s(x: &str) -> String {
    x.to_string()
}

fn opts(include_dynamic: bool) -> TraceOptions {
    TraceOptions { include_dynamic, top_n: 10 }
}

#[test]
fn simple_trace() {
    // a.ts: import { b } from "./b";   b.ts: export const b = 1;
    let mut g = ModuleGraph::new();
    let a = g.add_module(s("/p/a.ts"), 24, None);
    let b = g.add_module(s("/p/b.ts"), 19, None);
    g.add_edge(a, b, EdgeKind::Static, s("./b"));
    compute_package_info(&mut g);

    assert_eq!(g.module_count(), 2);
    assert_eq!(g.edges.len(), 1);
    assert_eq!(g.edges[0].kind, EdgeKind::Static);

    let r = trace(&g, a, &opts(false));
    assert_eq!(r.static_weight, 24 + 19);
    assert_eq!(r.static_module_count, 2);
    assert_eq!(r.dynamic_only_weight, 0);
    assert_eq!(r.dynamic_only_module_count, 0);
    assert!(r.heavy_packages.is_empty());
}

#[test]
fn type_only_edge_excluded_from_weight() {
    // a.ts: import type { T } from "./b"; const x = 1;   b.ts: export type T = number;
    let mut g = ModuleGraph::new();
    let a = g.add_module(s("/p/a.ts"), 41, None);
    let b = g.add_module(s("/p/b.ts"), 23, None);
    g.add_edge(a, b, EdgeKind::TypeOnly, s("./b"));
    compute_package_info(&mut g);

    assert_eq!(g.edges.len(), 1);
    assert_eq!(g.edges[0].kind, EdgeKind::TypeOnly);

    let r = trace(&g, a, &opts(false));
    assert_eq!(r.static_weight, 41);
    assert_eq!(r.static_module_count, 1);
}

#[test]
fn dynamic_import_extends_dynamic_only_bucket() {
    // a.ts: const m = await import("./b");   b.ts: export const b = 1;
    let mut g = ModuleGraph::new();
    let a = g.add_module(s("/p/a.ts"), 30, None);
    let b = g.add_module(s("/p/b.ts"), 19, None);
    g.add_edge(a, b, EdgeKind::Dynamic, s("./b"));
    compute_package_info(&mut g);

    let off = trace(&g, a, &opts(false));
    assert_eq!(off.static_weight, 30);
    assert_eq!(off.dynamic_only_weight, 19);
    assert_eq!(off.dynamic_only_module_count, 1);

    let on = trace(&g, a, &opts(true));
    assert_eq!(on.static_weight, 30 + 19);
    assert_eq!(on.dynamic_only_weight, 0);
    assert_eq!(on.dynamic_only_module_count, 0);
}

#[test]
fn package_aggregation_sums_package_modules() {
    let mut g = ModuleGraph::new();
    let a = g.add_module(s("/p/a.ts"), 10, None);
    let p1 = g.add_module(s("/p/node_modules/p/index.ts"), 100, Some(s("p")));
    let p2 = g.add_module(s("/p/node_modules/p/util.ts"), 50, Some(s("p")));
    let q1 = g.add_module(s("/p/node_modules/q/index.ts"), 7, Some(s("q")));
    g.add_edge(a, p1, EdgeKind::Static, s("p"));
    g.add_edge(p1, p2, EdgeKind::Static, s("./util"));
    g.add_edge(p1, q1, EdgeKind::Static, s("q"));
    compute_package_info(&mut g);

    assert_eq!(g.package_map.len(), 2);
    let total: u64 = g.package_map.iter().map(|p| p.total_reachable_size).sum();
    // every module with a package name is counted exactly once
    assert_eq!(total, 100 + 50 + 7);
    let p_info = g.package_map.iter().find(|i| i.name == "p").unwrap();
    assert_eq!(p_info.total_reachable_size, 150);
    assert_eq!(p_info.total_reachable_files, 2);
}

#[test]
fn find_chain_returns_shortest() {
    let mut g = ModuleGraph::new();
    let e = g.add_module(s("/p/e.ts"), 1, None);
    let x = g.add_module(s("/p/x.ts"), 1, None);
    let y = g.add_module(s("/p/y.ts"), 1, None);
    let p1 = g.add_module(s("/p/node_modules/p/index.ts"), 1, Some(s("p")));
    // e -> x -> y -> p, and e -> y -> p: the shortest has two hops
    g.add_edge(e, x, EdgeKind::Static, s("./x"));
    g.add_edge(x, y, EdgeKind::Static, s("./y"));
    g.add_edge(y, p1, EdgeKind::Static, s("p"));
    g.add_edge(e, y, EdgeKind::Static, s("./y"));
    compute_package_info(&mut g);

    let chain = find_chain(&g, e, &s("p"));
    assert_eq!(chain.len(), 3);
    assert_eq!(chain[0], e);
    assert_eq!(chain[1], y);
    assert_eq!(chain[2], p1);
}

#[test]
fn find_chain_empty_when_unreachable() {
    let mut g = ModuleGraph::new();
    let e = g.add_module(s("/p/e.ts"), 1, None);
    let p1 = g.add_module(s("/p/node_modules/p/index.ts"), 1, Some(s("p")));
    // only a type-only edge: weight traversal never follows it
    g.add_edge(e, p1, EdgeKind::TypeOnly, s("p"));
    let chain = find_chain(&g, e, &s("p"));
    assert!(chain.is_empty());
}

#[test]
fn why_enumeration() {
    // E imports ./x and ./y; both import package p
    let mut g = ModuleGraph::new();
    let e = g.add_module(s("/p/e.ts"), 1, None);
    let x = g.add_module(s("/p/x.ts"), 1, None);
    let y = g.add_module(s("/p/y.ts"), 1, None);
    let p1 = g.add_module(s("/p/node_modules/p/index.ts"), 1, Some(s("p")));
    g.add_edge(e, x, EdgeKind::Static, s("./x"));
    g.add_edge(e, y, EdgeKind::Static, s("./y"));
    g.add_edge(x, p1, EdgeKind::Static, s("p"));
    g.add_edge(y, p1, EdgeKind::Static, s("p"));

    let chains = find_all_chains(&g, e, &s("p"));
    assert_eq!(chains.len(), 2);
    assert_eq!(chains[0], vec![e, x, p1]);
    assert_eq!(chains[1], vec![e, y, p1]);
    assert_eq!(chains[0].len() - 1, 2);
    assert_eq!(chains[1].len() - 1, 2);
}

#[test]
fn heavy_packages_are_sorted_and_cut() {
    let mut g = ModuleGraph::new();
    let a = g.add_module(s("/p/a.ts"), 10, None);
    let p1 = g.add_module(s("/p/node_modules/p/index.ts"), 100, Some(s("p")));
    let q1 = g.add_module(s("/p/node_modules/q/index.ts"), 300, Some(s("q")));
    let r1 = g.add_module(s("/p/node_modules/r/index.ts"), 200, Some(s("r")));
    g.add_edge(a, p1, EdgeKind::Static, s("p"));
    g.add_edge(a, q1, EdgeKind::Static, s("q"));
    g.add_edge(a, r1, EdgeKind::Static, s("r"));
    compute_package_info(&mut g);

    let r = trace(&g, a, &TraceOptions { include_dynamic: false, top_n: 2 });
    assert_eq!(r.heavy_packages.len(), 2);
    assert_eq!(r.heavy_packages[0].name, "q");
    assert_eq!(r.heavy_packages[0].total_size, 300);
    assert_eq!(r.heavy_packages[1].name, "r");
    assert_eq!(r.heavy_packages[1].total_size, 200);
    assert_eq!(r.heavy_packages[0].chain, vec![a, q1]);
}

#[test]
fn modules_by_cost_orders_heaviest_first() {
    let mut g = ModuleGraph::new();
    let a = g.add_module(s("/p/a.ts"), 10, None);
    let b = g.add_module(s("/p/b.ts"), 5, None);
    g.add_edge(a, b, EdgeKind::Static, s("./b"));
    compute_package_info(&mut g);

    let r = trace(&g, a, &opts(false));
    assert_eq!(r.modules_by_cost.len(), 2);
    assert_eq!(r.modules_by_cost[0].module_id, a);
    assert_eq!(r.modules_by_cost[0].transitive_size, 15);
    assert_eq!(r.modules_by_cost[1].module_id, b);
    assert_eq!(r.modules_by_cost[1].transitive_size, 5);
}

#[test]
fn diff_traces_partitions_packages() {
    let mut g = ModuleGraph::new();
    let a = g.add_module(s("/p/a.ts"), 10, None);
    let b = g.add_module(s("/p/b.ts"), 30, None);
    let p1 = g.add_module(s("/p/node_modules/p/index.ts"), 100, Some(s("p")));
    let q1 = g.add_module(s("/p/node_modules/q/index.ts"), 50, Some(s("q")));
    let shared = g.add_module(s("/p/node_modules/zz/index.ts"), 5, Some(s("zz")));
    g.add_edge(a, p1, EdgeKind::Static, s("p"));
    g.add_edge(a, shared, EdgeKind::Static, s("zz"));
    g.add_edge(b, q1, EdgeKind::Static, s("q"));
    g.add_edge(b, shared, EdgeKind::Static, s("zz"));
    compute_package_info(&mut g);

    let ta = trace(&g, a, &opts(false));
    let tb = trace(&g, b, &opts(false));
    let d = diff_traces(&ta, &tb);
    assert_eq!(d.entry_a_weight, 115);
    assert_eq!(d.entry_b_weight, 85);
    assert_eq!(d.weight_delta, 85 - 115);
    assert_eq!(d.only_in_a, vec![s("p")]);
    assert_eq!(d.only_in_b, vec![s("q")]);
    assert_eq!(d.shared_packages, vec![s("zz")]);
}
