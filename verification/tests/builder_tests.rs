//! Driving the builder through the events a traversal produces: discovery,
//! parse outcomes, failures, edge dedup across aliased resolutions, and the
//! finished result.

use chainsaw::builder::{is_parseable, Builder, FrontierItem, ResolvedImport, ResolvedTarget};
use chainsaw::extract::RawImport;
use chainsaw::graph::EdgeKind;

fn s(x: &str) -> String {
    x.to_string()
}

fn static_import(spec: &str, target: Option<ResolvedTarget>) -> ResolvedImport {
    ResolvedImport {
        import: RawImport { specifier: s(spec), kind: EdgeKind::Static },
        target,
    }
}

fn target(path: &str, size: u64) -> ResolvedTarget {
    ResolvedTarget { path: s(path), size_bytes: size, package: None }
}

#[test]
fn parse_failure_not_retried() {
    // entry.ts: import { x } from "./broken";   broken.ts: not valid syntax
    let (mut b, entry) = Builder::new(s("/r/entry.ts"), 29);
    let discovered = b.take_discovered();
    assert_eq!(discovered.len(), 1);
    assert_eq!(discovered[0].1, "/r/entry.ts");

    let items = vec![FrontierItem {
        source: entry,
        unresolvable_dynamic: 0,
        imports: vec![static_import("./broken", Some(target("/r/broken.ts", 4)))],
    }];
    b.step(&items);
    let discovered = b.take_discovered();
    assert_eq!(discovered.len(), 1);
    assert_eq!(discovered[0].1, "/r/broken.ts");
    // the parse of broken.ts fails; it stays a leaf and is not retried
    b.mark_parse_failure(discovered[0].0);

    let result = b.finish();
    let broken_count = result
        .graph
        .modules
        .iter()
        .filter(|m| m.path.ends_with("broken.ts"))
        .count();
    assert!(broken_count <= 1, "broken.ts should appear at most once, found {broken_count}");
}

#[test]
fn edge_dedup_over_symlinks() {
    // a.ts: import "./b"; import "./b-link";  b-link.ts resolves (through a
    // symlink) to the same canonical file as b.ts
    let (mut b, entry) = Builder::new(s("/r/a.ts"), 40);
    let _ = b.take_discovered();
    let items = vec![FrontierItem {
        source: entry,
        unresolvable_dynamic: 0,
        imports: vec![
            static_import("./b", Some(target("/r/b.ts", 19))),
            static_import("./b-link", Some(target("/r/b.ts", 19))),
        ],
    }];
    b.step(&items);
    let result = b.finish();
    assert_eq!(result.graph.module_count(), 2);
    assert_eq!(result.graph.edges.len(), 1);
    // the specifier of the first import is the one kept
    assert_eq!(result.graph.edges[0].specifier, "./b");
}

#[test]
fn unresolved_specifiers_are_recorded_once() {
    let (mut b, entry) = Builder::new(s("/r/a.ts"), 10);
    let _ = b.take_discovered();
    let items = vec![FrontierItem {
        source: entry,
        unresolvable_dynamic: 2,
        imports: vec![static_import("ghost", None), static_import("ghost", None)],
    }];
    b.step(&items);
    let result = b.finish();
    assert_eq!(result.unresolved_specifiers, vec![s("ghost")]);
    assert_eq!(result.unresolvable_dynamic, vec![(s("/r/a.ts"), 2usize)]);
}

#[test]
fn discovery_skips_unparseable_targets() {
    let (mut b, entry) = Builder::new(s("/r/a.ts"), 10);
    let _ = b.take_discovered();
    let items = vec![FrontierItem {
        source: entry,
        unresolvable_dynamic: 0,
        imports: vec![
            static_import("./data", Some(target("/r/data.json", 100))),
            static_import("./m", Some(target("/r/m.ts", 5))),
        ],
    }];
    b.step(&items);
    let discovered = b.take_discovered();
    assert_eq!(discovered.len(), 1);
    assert_eq!(discovered[0].1, "/r/m.ts");
}

#[test]
fn parseable_extensions() {
    assert!(is_parseable(&s("/r/a.ts")));
    assert!(is_parseable(&s("/r/a.tsx")));
    assert!(is_parseable(&s("/r/a.mjs")));
    assert!(is_parseable(&s("/r/a.cts")));
    assert!(!is_parseable(&s("/r/a.json")));
    assert!(!is_parseable(&s("/r/noext")));
    assert!(!is_parseable(&s("/r.dir/noext")));
}
