use chainsaw::cache::{CacheEnvelope, CachedGraph, FileStamp, ParseCache};
use chainsaw::extract::{ParseResult, RawImport};
use chainsaw::graph::{Edge, EdgeId, EdgeKind, ModuleGraph, ModuleId};

fn stamp(mtime_nanos: u128, size: u64) -> FileStamp {
    FileStamp { mtime_nanos, size }
}

#[test]
fn parse_cache_hit_when_unchanged() {
    let file = "test.py".to_string();
    let observed = stamp(1_000, 9); // the stamp of "import os"

    let mut cache = ParseCache::new();
    let result = ParseResult {
        imports: vec![RawImport { specifier: "os".to_string(), kind: EdgeKind::Static }],
        unresolvable_dynamic: 0,
    };
    cache.insert(file.clone(), &result, &vec![None], observed);

    let cached = cache.lookup(&file, observed);
    assert!(cached.is_some());
    assert_eq!(cached.unwrap().result.imports.len(), 1);
}

#[test]
fn parse_cache_miss_when_modified() {
    let file = "test.py".to_string();
    let before = stamp(1_000, 9); // "import os"
    let after = stamp(2_000, 20); // "import os\nimport sys"

    let mut cache = ParseCache::new();
    let result = ParseResult { imports: vec![], unresolvable_dynamic: 0 };
    cache.insert(file.clone(), &result, &vec![], before);

    assert!(cache.lookup(&file, after).is_none());
}

#[test]
fn parse_cache_miss_when_not_cached() {
    let file = "test.py".to_string();
    let cache = ParseCache::new();
    assert!(cache.lookup(&file, stamp(1_000, 9)).is_none());
}

#[test]
fn parse_cache_save_and_load_roundtrip() {
    let file = "test.py".to_string();
    let observed = stamp(1_000, 9);

    let mut cache = ParseCache::new();
    let result = ParseResult {
        imports: vec![RawImport { specifier: "os".to_string(), kind: EdgeKind::Static }],
        unresolvable_dynamic: 1,
    };
    cache.insert(file.clone(), &result, &vec![None], observed);

    let graph = ModuleGraph::new();
    let env = cache.make_envelope(&file, &graph, &vec![], vec![], 0);
    let loaded = ParseCache::from_envelope(env);
    let cached = loaded.lookup(&file, observed);
    assert!(cached.is_some());
    let cached = cached.unwrap();
    assert_eq!(cached.result.imports.len(), 1);
    assert_eq!(cached.result.imports[0].specifier, "os");
    assert_eq!(cached.result.unresolvable_dynamic, 1);
}

#[test]
fn graph_cache_valid_when_unchanged() {
    let file = "entry.py".to_string();
    let observed = stamp(1_000, 5); // "x = 1"

    let mut graph = ModuleGraph::new();
    graph.add_module(file.clone(), 5, None);

    let cache = ParseCache::new();
    let env = cache.make_envelope(&file, &graph, &vec![Some(observed)], vec!["os".to_string()], 2);
    let loaded = ParseCache::from_envelope(env);

    let result = loaded.try_load_graph(&file, &vec![Some(observed)], &vec![false]);
    assert!(result.is_some());
    let (g, unresolvable) = result.unwrap();
    assert_eq!(g.module_count(), 1);
    assert_eq!(unresolvable, 2);
}

#[test]
fn graph_cache_invalidates_when_file_modified() {
    let file = "entry.py".to_string();
    let before = stamp(1_000, 5); // "x = 1"
    let after = stamp(2_000, 12); // "x = 2; y = 3"

    let mut graph = ModuleGraph::new();
    graph.add_module(file.clone(), 5, None);

    let cache = ParseCache::new();
    let env = cache.make_envelope(&file, &graph, &vec![Some(before)], vec![], 0);
    let loaded = ParseCache::from_envelope(env);

    assert!(loaded.try_load_graph(&file, &vec![Some(after)], &vec![]).is_none());
}

#[test]
fn graph_cache_invalidates_when_unresolved_import_resolves() {
    let file = "entry.py".to_string();
    let observed = stamp(1_000, 10); // "import foo"

    let mut graph = ModuleGraph::new();
    graph.add_module(file.clone(), 10, None);

    let cache = ParseCache::new();
    let env = cache.make_envelope(&file, &graph, &vec![Some(observed)], vec!["foo".to_string()], 0);
    let loaded = ParseCache::from_envelope(env);

    // the previously-unresolved specifier "foo" now resolves
    assert!(loaded.try_load_graph(&file, &vec![Some(observed)], &vec![true]).is_none());
}

#[test]
fn graph_cache_invalidates_for_different_entry() {
    let file_a = "a.py".to_string();
    let file_b = "b.py".to_string();
    let observed = stamp(1_000, 5); // "x = 1"

    let mut graph = ModuleGraph::new();
    graph.add_module(file_a.clone(), 5, None);

    let cache = ParseCache::new();
    let env = cache.make_envelope(&file_a, &graph, &vec![Some(observed)], vec![], 0);
    let loaded = ParseCache::from_envelope(env);

    assert!(loaded.try_load_graph(&file_b, &vec![Some(observed)], &vec![]).is_none());
}

#[test]
fn envelope_of_other_version_is_discarded() {
    let file = "test.py".to_string();
    let observed = stamp(1_000, 9);
    let mut cache = ParseCache::new();
    let result = ParseResult { imports: vec![], unresolvable_dynamic: 0 };
    cache.insert(file.clone(), &result, &vec![], observed);
    let graph = ModuleGraph::new();
    let mut env = cache.make_envelope(&file, &graph, &vec![], vec![], 0);
    env.version = env.version.wrapping_add(1);
    let loaded = ParseCache::from_envelope(env);
    assert!(loaded.lookup(&file, observed).is_none());
    assert!(loaded.try_load_graph(&file, &vec![], &vec![]).is_none());
}

#[test]
fn malformed_graph_snapshot_is_discarded() {
    // an edge pointing at a module that does not exist
    let mut graph = ModuleGraph::new();
    graph.add_module("a.py".to_string(), 1, None);
    graph.edges.push(Edge {
        id: EdgeId(0),
        from: ModuleId(0),
        to: ModuleId(7),
        kind: EdgeKind::Static,
        specifier: "x".to_string(),
    });
    let env = CacheEnvelope {
        version: chainsaw::cache::CACHE_VERSION,
        parse_entries: vec![],
        graph_cache: Some(CachedGraph {
            entry: "a.py".to_string(),
            graph,
            file_mtimes: vec![],
            unresolved_specifiers: vec![],
            unresolvable_dynamic: 0,
        }),
    };
    let loaded = ParseCache::from_envelope(env);
    assert!(loaded.try_load_graph(&"a.py".to_string(), &vec![], &vec![]).is_none());
}
