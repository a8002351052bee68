//! The incremental graph builder.
//!
//! The traversal is a loop of levels: the caller parses and resolves the
//! frontier files (in parallel, if it likes) and hands the builder one
//! [`FrontierItem`] per parsed file; [`Builder::step`] then performs the
//! serial graph mutation — interning modules, adding deduplicated edges,
//! recording unresolved specifiers, and listing the newly discovered files
//! the caller must parse (or fetch from the cache) for the next level.
//!
//! Every mutation is specified as a function of the builder's mathematical
//! state and the items' mathematical values ([`d_step`]); two builds fed
//! identical observations therefore produce identical graphs
//! ([`lemma_build_deterministic`]).

use vstd::prelude::*;

use crate::extract::RawImport;
use crate::graph::{Edge, EdgeId, EdgeKind, Module, ModuleGraph, ModuleId};
use crate::strutil;

verus! {

/// What resolution found for one import: the canonical target path, the
/// target's size, and its package attribution.
#[derive(Debug)]
pub struct ResolvedTarget {
    pub path: String,
    pub size_bytes: u64,
    pub package: Option<String>,
}

/// One import of a parsed file together with its resolution, `None` when
/// the specifier did not resolve.
#[derive(Debug)]
pub struct ResolvedImport {
    pub import: RawImport,
    pub target: Option<ResolvedTarget>,
}

/// One parsed file of the frontier: its module id, its count of
/// non-literal dynamic imports, and its resolved imports in source order.
#[derive(Debug)]
pub struct FrontierItem {
    pub source: ModuleId,
    pub unresolvable_dynamic: usize,
    pub imports: Vec<ResolvedImport>,
}

/// What a finished build yields.
#[derive(Debug)]
pub struct BuildResult {
    pub graph: ModuleGraph,
    /// Files containing dynamic imports with non-literal arguments, with counts.
    pub unresolvable_dynamic: Vec<(String, usize)>,
    /// Import specifiers that failed to resolve (for cache invalidation).
    pub unresolved_specifiers: Vec<String>,
}

// --- The mathematical model of the build state ---

/// A module record as a mathematical value.
pub ghost struct ModuleD {
    pub id: ModuleId,
    pub path: Seq<char>,
    pub size_bytes: u64,
    pub package: Option<Seq<char>>,
}

/// An edge record as a mathematical value.
pub ghost struct EdgeD {
    pub id: EdgeId,
    pub from: ModuleId,
    pub to: ModuleId,
    pub kind: EdgeKind,
    pub specifier: Seq<char>,
}

/// A resolution target as a mathematical value.
pub ghost struct TargetD {
    pub path: Seq<char>,
    pub size_bytes: u64,
    pub package: Option<Seq<char>>,
}

/// A resolved import as a mathematical value.
pub ghost struct ImportD {
    pub specifier: Seq<char>,
    pub kind: EdgeKind,
    pub target: Option<TargetD>,
}

/// A frontier item as a mathematical value.
pub ghost struct ItemD {
    pub source: ModuleId,
    pub unresolvable_dynamic: int,
    pub imports: Seq<ImportD>,
}

/// The build state as a mathematical value.
#[verifier::ext_equal]
pub ghost struct StateD {
    pub modules: Seq<ModuleD>,
    pub edges: Seq<EdgeD>,
    pub adj: Seq<Seq<EdgeId>>,
    pub discovered: Seq<(ModuleId, Seq<char>)>,
    pub failures: Seq<u32>,
    pub unresolved: Seq<Seq<char>>,
    pub unresolvable: Seq<(Seq<char>, int)>,
}

pub open spec fn d_of_opt_string(o: Option<String>) -> Option<Seq<char>> {
    match o {
        Some(s) => Some(s@),
        None => None,
    }
}

pub open spec fn d_of_module(m: Module) -> ModuleD {
    ModuleD { id: m.id, path: m.path@, size_bytes: m.size_bytes, package: d_of_opt_string(m.package) }
}

pub open spec fn d_of_edge(e: Edge) -> EdgeD {
    EdgeD { id: e.id, from: e.from, to: e.to, kind: e.kind, specifier: e.specifier@ }
}

pub open spec fn d_of_target(t: ResolvedTarget) -> TargetD {
    TargetD { path: t.path@, size_bytes: t.size_bytes, package: d_of_opt_string(t.package) }
}

pub open spec fn d_of_import(ri: ResolvedImport) -> ImportD {
    ImportD {
        specifier: ri.import.specifier@,
        kind: ri.import.kind,
        target: match ri.target {
            Some(t) => Some(d_of_target(t)),
            None => None,
        },
    }
}

pub open spec fn d_of_item(it: FrontierItem) -> ItemD {
    ItemD {
        source: it.source,
        unresolvable_dynamic: it.unresolvable_dynamic as int,
        imports: it.imports@.map_values(|ri: ResolvedImport| d_of_import(ri)),
    }
}

pub open spec fn d_of_items(items: Seq<FrontierItem>) -> Seq<ItemD> {
    items.map_values(|it: FrontierItem| d_of_item(it))
}

/// The module carrying path `p`, if any; paths are distinct in a
/// well-formed state, so the pick is the unique match.
pub open spec fn d_find(ms: Seq<ModuleD>, p: Seq<char>) -> Option<ModuleId> {
    if exists|i: int| 0 <= i < ms.len() && (#[trigger] ms[i]).path == p {
        Some(ms[choose|i: int| 0 <= i < ms.len() && (#[trigger] ms[i]).path == p].id)
    } else {
        None
    }
}

/// Whether the state holds an edge with this (from, to, kind) triple.
pub open spec fn d_has_edge(es: Seq<EdgeD>, from: ModuleId, to: ModuleId, kind: EdgeKind) -> bool {
    exists|e: int|
        0 <= e < es.len() && (#[trigger] es[e]).from == from && es[e].to == to && es[e].kind
            == kind
}

/// The extensions whose files the builder parses.
pub open spec fn parseable_extension(ext: Seq<char>) -> bool {
    ||| ext == "ts"@
    ||| ext == "tsx"@
    ||| ext == "js"@
    ||| ext == "jsx"@
    ||| ext == "mjs"@
    ||| ext == "cjs"@
    ||| ext == "mts"@
    ||| ext == "cts"@
}

/// The extension of a path: what follows the last dot of the last
/// component, empty when the last component has no dot.
pub open spec fn path_extension(p: Seq<char>) -> Seq<char> {
    if exists|i: int| 0 <= i < p.len() && p[i] == '.' {
        let dot = last_occurrence(p, '.');
        if exists|j: int| dot < j < p.len() && p[j] == '/' {
            Seq::<char>::empty()
        } else {
            p.subrange(dot + 1, p.len() as int)
        }
    } else {
        Seq::<char>::empty()
    }
}

/// The last position of `c` in `p` (meaningful only when one exists).
pub open spec fn last_occurrence(p: Seq<char>, c: char) -> int {
    choose|i: int|
        0 <= i < p.len() && p[i] == c && forall|j: int| i < j < p.len() ==> p[j] != c
}

/// Whether the builder parses files at this path.
pub open spec fn spec_is_parseable(p: Seq<char>) -> bool {
    parseable_extension(path_extension(p))
}

/// One resolved import applied to the state: an unresolved specifier is
/// recorded once; a resolved one is interned (module created if its path is
/// new) and linked by a deduplicated edge; a newly created module with a
/// parseable path joins the discovery list.
pub open spec fn d_apply_import(st: StateD, source: ModuleId, imp: ImportD) -> StateD {
    match imp.target {
        None => if st.unresolved.contains(imp.specifier) {
            st
        } else {
            StateD { unresolved: st.unresolved.push(imp.specifier), ..st }
        },
        Some(t) => {
            let (st1, tid, is_new) = match d_find(st.modules, t.path) {
                Some(id) => (st, id, false),
                None => {
                    let id = ModuleId(st.modules.len() as u32);
                    (
                        StateD {
                            modules: st.modules.push(
                                ModuleD {
                                    id: id,
                                    path: t.path,
                                    size_bytes: t.size_bytes,
                                    package: t.package,
                                },
                            ),
                            adj: st.adj.push(Seq::<EdgeId>::empty()),
                            ..st
                        },
                        id,
                        true,
                    )
                },
            };
            let st2 = if d_has_edge(st1.edges, source, tid, imp.kind) {
                st1
            } else {
                let eid = EdgeId(st1.edges.len() as u32);
                StateD {
                    edges: st1.edges.push(
                        EdgeD {
                            id: eid,
                            from: source,
                            to: tid,
                            kind: imp.kind,
                            specifier: imp.specifier,
                        },
                    ),
                    adj: st1.adj.update(
                        source.0 as int,
                        st1.adj[source.0 as int].push(eid),
                    ),
                    ..st1
                }
            };
            if is_new && spec_is_parseable(t.path) && !st2.failures.contains(tid.0) {
                StateD { discovered: st2.discovered.push((tid, t.path)), ..st2 }
            } else {
                st2
            }
        },
    }
}

pub open spec fn d_apply_imports(st: StateD, source: ModuleId, imps: Seq<ImportD>) -> StateD
    decreases imps,
{
    if imps.len() == 0 {
        st
    } else {
        d_apply_import(d_apply_imports(st, source, imps.drop_last()), source, imps.last())
    }
}

/// One frontier item applied to the state: its non-literal dynamic import
/// count is recorded when positive, then its imports are applied in order.
pub open spec fn d_apply_item(st: StateD, item: ItemD) -> StateD {
    let st1 = if item.unresolvable_dynamic > 0 && item.source.0 < st.modules.len() {
        StateD {
            unresolvable: st.unresolvable.push(
                (st.modules[item.source.0 as int].path, item.unresolvable_dynamic),
            ),
            ..st
        }
    } else {
        st
    };
    d_apply_imports(st1, item.source, item.imports)
}

/// A whole level applied to the state, item by item in order.
pub open spec fn d_step(st: StateD, items: Seq<ItemD>) -> StateD
    decreases items,
{
    if items.len() == 0 {
        st
    } else {
        d_apply_item(d_step(st, items.drop_last()), items.last())
    }
}

/// Determinism: the build transition is a function of the state's and the
/// items' mathematical values alone. Two builds over identical filesystem
/// state observe identical parses and resolutions, so they step through
/// identical states and produce module-id-for-module-id identical graphs.
pub proof fn lemma_build_deterministic(a: StateD, b: StateD, xs: Seq<ItemD>, ys: Seq<ItemD>)
    requires
        a == b,
        xs == ys,
    ensures
        d_step(a, xs) == d_step(b, ys),
{
}

// --- The executable builder ---

/// The builder's mutable state between levels.
#[derive(Debug)]
pub struct Builder {
    pub graph: ModuleGraph,
    /// Newly interned parseable modules the caller has not yet handled.
    pub discovered: Vec<(ModuleId, String)>,
    /// Modules whose parse failed; never retried within this build.
    pub failures: Vec<u32>,
    /// Specifiers that failed to resolve, each recorded once.
    pub unresolved: Vec<String>,
    /// Files with non-literal dynamic imports, with counts.
    pub unresolvable_files: Vec<(String, usize)>,
}

impl Builder {
    /// The builder's state as a mathematical value.
    pub open spec fn state(self) -> StateD {
        StateD {
            modules: self.graph.modules@.map_values(|m: Module| d_of_module(m)),
            edges: self.graph.edges@.map_values(|e: Edge| d_of_edge(e)),
            adj: self.graph.adj(),
            discovered: self.discovered@.map_values(
                |d: (ModuleId, String)| (d.0, d.1@),
            ),
            failures: self.failures@,
            unresolved: self.unresolved@.map_values(|s: String| s@),
            unresolvable: self.unresolvable_files@.map_values(
                |u: (String, usize)| (u.0@, u.1 as int),
            ),
        }
    }

    pub open spec fn wf(self) -> bool {
        self.graph.wf()
    }

    /// Start a build: intern the entry module and list it for discovery, so
    /// the caller parses it first (it is handled like any other file, cache
    /// lookup included).
    pub fn new(entry: String, entry_size: u64) -> (r: (Builder, ModuleId))
        ensures
            r.0.wf(),
            r.1 == ModuleId(0u32),
            r.0.state().modules == seq![
                ModuleD { id: ModuleId(0u32), path: entry@, size_bytes: entry_size, package: None },
            ],
            r.0.state().edges == Seq::<EdgeD>::empty(),
            r.0.state().discovered == seq![(ModuleId(0u32), entry@)],
            r.0.state().failures == Seq::<u32>::empty(),
            r.0.state().unresolved == Seq::<Seq<char>>::empty(),
            r.0.state().unresolvable == Seq::<(Seq<char>, int)>::empty(),
    {
        let mut graph = ModuleGraph::new();
        let path_copy = entry.clone();
        let id = graph.add_module(entry, entry_size, None);
        let mut discovered: Vec<(ModuleId, String)> = Vec::new();
        discovered.push((id, path_copy));
        let b = Builder {
            graph,
            discovered,
            failures: Vec::new(),
            unresolved: Vec::new(),
            unresolvable_files: Vec::new(),
        };
        proof {
            assert(b.state().modules =~= seq![
                ModuleD { id: ModuleId(0u32), path: entry@, size_bytes: entry_size, package: None },
            ]);
            assert(b.state().edges =~= Seq::<EdgeD>::empty());
            assert(b.state().discovered =~= seq![(ModuleId(0u32), entry@)]);
            assert(b.state().unresolved =~= Seq::<Seq<char>>::empty());
            assert(b.state().unresolvable =~= Seq::<(Seq<char>, int)>::empty());
        }
        (b, id)
    }

    /// Hand out the modules discovered since the last call, oldest first,
    /// and clear the list. The caller parses each (or loads it from the
    /// cache) and feeds the outcome back through [`Builder::step`] or
    /// [`Builder::mark_parse_failure`].
    pub fn take_discovered(&mut self) -> (r: Vec<(ModuleId, String)>)
        requires
            old(self).wf(),
        ensures
            final(self).wf(),
            r@.map_values(|d: (ModuleId, String)| (d.0, d.1@)) == old(self).state().discovered,
            final(self).state() == (StateD {
                discovered: Seq::<(ModuleId, Seq<char>)>::empty(),
                ..old(self).state()
            }),
    {
        let n = self.discovered.len();
        let mut out: Vec<(ModuleId, String)> = Vec::new();
        let mut i: usize = 0;
        while i < n
            invariant
                n == self.discovered@.len(),
                i <= n,
                out@.len() == i,
                forall|j: int|
                    0 <= j < i ==> (#[trigger] out@[j]).0 == self.discovered@[j].0 && out@[j].1@
                        == self.discovered@[j].1@,
            decreases n - i,
        {
            out.push((self.discovered[i].0, self.discovered[i].1.clone()));
            i = i + 1;
        }
        self.discovered = Vec::new();
        proof {
            assert(out@.map_values(|d: (ModuleId, String)| (d.0, d.1@)) =~= old(
                self,
            ).state().discovered);
            assert(final(self).state() =~= StateD {
                discovered: Seq::<(ModuleId, Seq<char>)>::empty(),
                ..old(self).state()
            });
        }
        out
    }

    /// Record a permanent (within this build) parse failure: the module
    /// stays a leaf of the graph and is not retried.
    pub fn mark_parse_failure(&mut self, id: ModuleId)
        requires
            old(self).wf(),
        ensures
            final(self).wf(),
            final(self).state() == (StateD {
                failures: old(self).state().failures.push(id.0),
                ..old(self).state()
            }),
    {
        self.failures.push(id.0);
        proof {
            assert(final(self).state() =~= StateD {
                failures: old(self).state().failures.push(id.0),
                ..old(self).state()
            });
        }
    }

    /// Serial graph mutation for one level: apply every frontier item in
    /// order, exactly as [`d_step`] describes.
    pub fn step(&mut self, items: &Vec<FrontierItem>)
        requires
            old(self).wf(),
            forall|k: int|
                0 <= k < items@.len() ==> (#[trigger] items@[k]).source.0
                    < old(self).graph.modules@.len(),
            old(self).graph.modules@.len() + total_imports(items@) <= u32::MAX,
            old(self).graph.edges@.len() + total_imports(items@) <= u32::MAX,
        ensures
            final(self).wf(),
            final(self).state() == d_step(old(self).state(), d_of_items(items@)),
    {
        let n = items.len();
        proof {
            assert(items@.skip(0) =~= items@);
            assert(items@.take(0) =~= Seq::<FrontierItem>::empty());
        }
        let mut k: usize = 0;
        while k < n
            invariant
                self.wf(),
                n == items@.len(),
                k <= n,
                forall|j: int|
                    0 <= j < n ==> (#[trigger] items@[j]).source.0
                        < old(self).graph.modules@.len(),
                old(self).graph.modules@.len() <= self.graph.modules@.len(),
                self.graph.modules@.len() + total_imports(items@.skip(k as int)) <= u32::MAX,
                self.graph.edges@.len() + total_imports(items@.skip(k as int)) <= u32::MAX,
                self.state() == d_step(old(self).state(), d_of_items(items@.take(k as int))),
            decreases n - k,
        {
            proof {
                lemma_total_imports_skip(items@, k as int);
                assert(items@.skip(k as int).last() == items@[n - 1]);
            }
            self.apply_item(&items[k]);
            proof {
                assert(items@.skip(k + 1) =~= items@.skip(k as int).drop_first());
                lemma_d_of_items_step(items@, k as int);
                let pre = d_of_items(items@.take(k as int));
                let cur = d_of_item(items@[k as int]);
                assert(d_of_items(items@.take(k + 1)) == pre.push(cur));
                assert(d_step(old(self).state(), pre.push(cur)) == d_apply_item(
                    d_step(old(self).state(), pre),
                    cur,
                )) by {
                    assert(pre.push(cur).drop_last() =~= pre);
                    assert(pre.push(cur).last() == cur);
                }
            }
            k = k + 1;
        }
        proof {
            assert(items@.take(n as int) =~= items@);
        }
    }

    /// Apply one frontier item.
    fn apply_item(&mut self, item: &FrontierItem)
        requires
            old(self).wf(),
            item.source.0 < old(self).graph.modules@.len(),
            old(self).graph.modules@.len() + item.imports@.len() <= u32::MAX,
            old(self).graph.edges@.len() + item.imports@.len() <= u32::MAX,
        ensures
            final(self).wf(),
            final(self).state() == d_apply_item(old(self).state(), d_of_item(*item)),
            old(self).graph.modules@.len() <= final(self).graph.modules@.len(),
            final(self).graph.modules@.len() <= old(self).graph.modules@.len()
                + item.imports@.len(),
            final(self).graph.edges@.len() <= old(self).graph.edges@.len() + item.imports@.len(),
    {
        if item.unresolvable_dynamic > 0 {
            let path = self.graph.module(item.source).path.clone();
            self.unresolvable_files.push((path, item.unresolvable_dynamic));
            proof {
                assert(self.state() =~= StateD {
                    unresolvable: old(self).state().unresolvable.push(
                        (
                            old(self).state().modules[item.source.0 as int].path,
                            item.unresolvable_dynamic as int,
                        ),
                    ),
                    ..old(self).state()
                });
            }
        }
        let ghost st1 = self.state();
        let m = item.imports.len();
        let mut i: usize = 0;
        while i < m
            invariant
                self.wf(),
                m == item.imports@.len(),
                i <= m,
                item.source.0 < self.graph.modules@.len(),
                old(self).graph.modules@.len() <= self.graph.modules@.len(),
                self.graph.modules@.len() <= old(self).graph.modules@.len() + i,
                self.graph.edges@.len() <= old(self).graph.edges@.len() + i,
                self.graph.modules@.len() + (m - i) <= u32::MAX,
                self.graph.edges@.len() + (m - i) <= u32::MAX,
                self.state() == d_apply_imports(
                    st1,
                    item.source,
                    d_of_item(*item).imports.take(i as int),
                ),
            decreases m - i,
        {
            self.apply_import(item.source, &item.imports[i]);
            proof {
                let imps = d_of_item(*item).imports;
                assert(imps.take(i + 1).drop_last() =~= imps.take(i as int));
                assert(imps.take(i + 1).last() == imps[i as int]);
                assert(imps[i as int] == d_of_import(item.imports@[i as int]));
            }
            i = i + 1;
        }
        proof {
            assert(d_of_item(*item).imports.take(m as int) =~= d_of_item(*item).imports);
        }
    }

    /// Apply one resolved import.
    fn apply_import(&mut self, source: ModuleId, ri: &ResolvedImport)
        requires
            old(self).wf(),
            source.0 < old(self).graph.modules@.len(),
            old(self).graph.modules@.len() < u32::MAX,
            old(self).graph.edges@.len() < u32::MAX,
        ensures
            final(self).wf(),
            final(self).state() == d_apply_import(old(self).state(), source, d_of_import(*ri)),
            source.0 < final(self).graph.modules@.len(),
            old(self).graph.modules@.len() <= final(self).graph.modules@.len(),
            final(self).graph.modules@.len() <= old(self).graph.modules@.len() + 1,
            final(self).graph.edges@.len() <= old(self).graph.edges@.len() + 1,
    {
        let target = match &ri.target {
            None => {
                if !contains_string(&self.unresolved, &ri.import.specifier) {
                    self.unresolved.push(ri.import.specifier.clone());
                    proof {
                        assert(self.state() =~= StateD {
                            unresolved: old(self).state().unresolved.push(ri.import.specifier@),
                            ..old(self).state()
                        });
                    }
                } else {
                    proof {
                        assert(old(self).state().unresolved.contains(ri.import.specifier@));
                    }
                }
                return;
            },
            Some(t) => t,
        };
        let ghost st0 = self.state();
        let known = self.graph.find_module(&target.path);
        let (tid, is_new) = match known {
            Some(id) => (id, false),
            None => {
                let pkg = match &target.package {
                    Some(p) => Some(p.clone()),
                    None => None,
                };
                let id = self.graph.add_module(target.path.clone(), target.size_bytes, pkg);
                (id, true)
            },
        };
        proof {
            lemma_find_matches_d(old(self).graph, target.path@, known);
            if is_new {
                assert(self.state().modules =~= st0.modules.push(
                    ModuleD {
                        id: tid,
                        path: target.path@,
                        size_bytes: target.size_bytes,
                        package: d_of_opt_string(target.package),
                    },
                ));
                assert(self.state() =~= StateD {
                    modules: self.state().modules,
                    adj: st0.adj.push(Seq::<EdgeId>::empty()),
                    ..st0
                });
            }
        }
        let ghost st1 = self.state();
        proof {
            lemma_edge_model(self.graph, source, tid, ri.import.kind);
        }
        let eid = self.graph.add_edge(source, tid, ri.import.kind, ri.import.specifier.clone());
        proof {
            if d_has_edge(st1.edges, source, tid, ri.import.kind) {
                assert(self.state() =~= st1);
            } else {
                assert(self.state().edges =~= st1.edges.push(
                    EdgeD {
                        id: eid,
                        from: source,
                        to: tid,
                        kind: ri.import.kind,
                        specifier: ri.import.specifier@,
                    },
                ));
                assert(self.state() =~= StateD {
                    edges: self.state().edges,
                    adj: st1.adj.update(source.0 as int, st1.adj[source.0 as int].push(eid)),
                    ..st1
                });
            }
        }
        let ghost st2 = self.state();
        if is_new {
            let parseable = is_parseable(&target.path);
            let failed = contains_u32(&self.failures, tid.0);
            if parseable && !failed {
                self.discovered.push((tid, target.path.clone()));
                proof {
                    assert(self.state() =~= StateD {
                        discovered: st2.discovered.push((tid, target.path@)),
                        ..st2
                    });
                }
            }
        }
        proof {
            assert(self.state() =~= d_apply_import(st0, source, d_of_import(*ri)));
        }
    }

    /// Finish the build: compute the per-package aggregates and hand the
    /// graph out with the recorded partial data.
    pub fn finish(self) -> (r: BuildResult)
        requires
            self.wf(),
            crate::query::total_size(self.graph.modules@) <= u64::MAX,
        ensures
            r.graph.wf(),
            r.graph.modules == self.graph.modules,
            r.graph.edges == self.graph.edges,
            r.graph.adj() == self.graph.adj(),
            crate::query::package_map_ok(r.graph),
            r.unresolvable_dynamic == self.unresolvable_files,
            r.unresolved_specifiers == self.unresolved,
    {
        let mut graph = self.graph;
        crate::query::compute_package_info(&mut graph);
        BuildResult {
            graph,
            unresolvable_dynamic: self.unresolvable_files,
            unresolved_specifiers: self.unresolved,
        }
    }
}

/// The total number of imports across the items of one level.
pub open spec fn total_imports(items: Seq<FrontierItem>) -> int
    decreases items,
{
    if items.len() == 0 {
        0
    } else {
        total_imports(items.drop_last()) + items.last().imports@.len()
    }
}

proof fn lemma_total_imports_skip(items: Seq<FrontierItem>, k: int)
    requires
        0 <= k < items.len(),
    ensures
        total_imports(items.skip(k)) == items[k].imports@.len() + total_imports(items.skip(k + 1)),
        total_imports(items.skip(k + 1)) >= 0,
    decreases items.len() - k,
{
    lemma_total_imports_head(items.skip(k));
    assert(items.skip(k).drop_first() =~= items.skip(k + 1));
    assert(items.skip(k)[0] == items[k]);
    lemma_total_imports_nonneg(items.skip(k + 1));
}

proof fn lemma_total_imports_head(items: Seq<FrontierItem>)
    requires
        items.len() > 0,
    ensures
        total_imports(items) == items[0].imports@.len() + total_imports(items.drop_first()),
    decreases items,
{
    assert(total_imports(items) == total_imports(items.drop_last())
        + items.last().imports@.len());
    if items.len() == 1 {
        assert(items.drop_first() =~= Seq::<FrontierItem>::empty());
        assert(items.drop_last() =~= Seq::<FrontierItem>::empty());
        assert(total_imports(Seq::<FrontierItem>::empty()) == 0);
        assert(items.last() == items[0]);
    } else {
        lemma_total_imports_head(items.drop_last());
        assert(items.drop_last().drop_first() =~= items.drop_first().drop_last());
        assert(items.drop_last()[0] == items[0]);
        assert(items.drop_first().last() == items.last());
        assert(items.drop_first().len() > 0);
        assert(total_imports(items.drop_first()) == total_imports(items.drop_first().drop_last())
            + items.drop_first().last().imports@.len());
        assert(total_imports(items.drop_last()) == items[0].imports@.len() + total_imports(
            items.drop_last().drop_first(),
        ));
    }
}

proof fn lemma_total_imports_nonneg(items: Seq<FrontierItem>)
    ensures
        total_imports(items) >= 0,
    decreases items,
{
    if items.len() > 0 {
        lemma_total_imports_nonneg(items.drop_last());
    }
}

proof fn lemma_d_of_items_step(items: Seq<FrontierItem>, k: int)
    requires
        0 <= k < items.len(),
    ensures
        d_of_items(items.take(k + 1)) == d_of_items(items.take(k)).push(d_of_item(items[k])),
        d_of_items(items.take(k)) == d_of_items(items).take(k),
{
    assert(d_of_items(items.take(k + 1)) =~= d_of_items(items.take(k)).push(d_of_item(items[k])));
    assert(d_of_items(items.take(k)) =~= d_of_items(items).take(k));
}

/// The executable path lookup agrees with the mathematical one.
proof fn lemma_find_matches_d(g: ModuleGraph, p: Seq<char>, r: Option<ModuleId>)
    requires
        g.wf(),
        match r {
            Some(id) => id.0 < g.modules@.len() && g.modules@[id.0 as int].path@ == p,
            None => !g.has_module_path(p),
        },
    ensures
        d_find(g.modules@.map_values(|m: Module| d_of_module(m)), p) == r,
{
    let ms = g.modules@.map_values(|m: Module| d_of_module(m));
    match r {
        Some(id) => {
            assert(ms[id.0 as int].path == p);
            let i = choose|i: int| 0 <= i < ms.len() && (#[trigger] ms[i]).path == p;
            assert(g.modules@[i].path@ == p);
            assert(i == id.0 as int);
            assert(ms[i].id == id);
        },
        None => {
            if exists|i: int| 0 <= i < ms.len() && (#[trigger] ms[i]).path == p {
                let i = choose|i: int| 0 <= i < ms.len() && (#[trigger] ms[i]).path == p;
                assert(g.modules@[i].path@ == p);
                assert(g.has_module_path(p));
            }
        },
    }
}

/// The executable edge test agrees with the mathematical one.
proof fn lemma_edge_model(g: ModuleGraph, from: ModuleId, to: ModuleId, kind: EdgeKind)
    ensures
        d_has_edge(g.edges@.map_values(|e: Edge| d_of_edge(e)), from, to, kind) == g.has_edge(
            from,
            to,
            kind,
        ),
{
    let es = g.edges@.map_values(|e: Edge| d_of_edge(e));
    if d_has_edge(es, from, to, kind) {
        let e = choose|e: int|
            0 <= e < es.len() && (#[trigger] es[e]).from == from && es[e].to == to && es[e].kind
                == kind;
        assert((#[trigger] g.edges@[e]).from == from && g.edges@[e].to == to && g.edges@[e].kind
            == kind);
        assert(g.has_edge(from, to, kind));
    }
    if g.has_edge(from, to, kind) {
        let e = choose|e: int|
            0 <= e < g.edges@.len() && (#[trigger] g.edges@[e]).from == from && g.edges@[e].to
                == to && g.edges@[e].kind == kind;
        assert((#[trigger] es[e]).from == from && es[e].to == to && es[e].kind == kind);
        assert(d_has_edge(es, from, to, kind));
    }
}

/// Whether a vector of strings holds one with this view.
fn contains_string(v: &Vec<String>, s: &String) -> (r: bool)
    ensures
        r == v@.map_values(|x: String| x@).contains(s@),
{
    let n = v.len();
    let mut i: usize = 0;
    while i < n
        invariant
            n == v@.len(),
            i <= n,
            forall|j: int| 0 <= j < i ==> (#[trigger] v@[j])@ != s@,
        decreases n - i,
    {
        if v[i] == *s {
            proof {
                let ghost mv = v@.map_values(|x: String| x@);
                assert(mv[i as int] == s@);
                assert(mv.contains(s@));
            }
            return true;
        }
        i = i + 1;
    }
    proof {
        let ghost mv = v@.map_values(|x: String| x@);
        if mv.contains(s@) {
            let j = choose|j: int| 0 <= j < mv.len() && mv[j] == s@;
            assert(v@[j]@ == s@);
            assert(false);
        }
    }
    false
}

/// Whether a vector holds this value.
fn contains_u32(v: &Vec<u32>, x: u32) -> (r: bool)
    ensures
        r == v@.contains(x),
{
    let n = v.len();
    let mut i: usize = 0;
    while i < n
        invariant
            n == v@.len(),
            i <= n,
            forall|j: int| 0 <= j < i ==> v@[j] != x,
        decreases n - i,
    {
        if v[i] == x {
            return true;
        }
        i = i + 1;
    }
    false
}

/// Whether the builder parses files at this path, decided by its extension.
pub fn is_parseable(path: &String) -> (r: bool)
    ensures
        r == spec_is_parseable(path@),
{
    let s = path.as_str();
    let n = s.unicode_len();
    let dot = strutil::last_index_of(s, '.');
    match dot {
        None => {
            proof {
                assert(!spec_is_parseable(path@)) by {
                    if exists|i: int| 0 <= i < path@.len() && path@[i] == '.' {
                        let i = choose|i: int| 0 <= i < path@.len() && path@[i] == '.';
                        assert(false);
                    }
                    assert(path_extension(path@) == Seq::<char>::empty());
                    reveal_parseable_empty();
                }
            }
            false
        },
        Some(d) => {
            proof {
                assert(path@[d as int] == '.');
                assert(last_occurrence(path@, '.') == d as int) by {
                    let i = last_occurrence(path@, '.');
                    assert(0 <= i < path@.len() && path@[i] == '.' && forall|j: int|
                        i < j < path@.len() ==> path@[j] != '.');
                    if i < d {
                        assert(path@[d as int] != '.');
                    }
                    if i > d {
                        assert(path@[i] != '.');
                    }
                }
            }
            let slash_after = strutil::index_of_from(s, '/', d + 1);
            match slash_after {
                Some(_) => {
                    proof {
                        assert(path_extension(path@) == Seq::<char>::empty());
                        reveal_parseable_empty();
                    }
                    false
                },
                None => {
                    let ext = s.substring_char(d + 1, n);
                    proof {
                        assert(path_extension(path@) == ext@);
                    }
                    let r = strutil::str_eq(ext, "ts") || strutil::str_eq(ext, "tsx")
                        || strutil::str_eq(ext, "js") || strutil::str_eq(ext, "jsx")
                        || strutil::str_eq(ext, "mjs") || strutil::str_eq(ext, "cjs")
                        || strutil::str_eq(ext, "mts") || strutil::str_eq(ext, "cts");
                    r
                },
            }
        },
    }
}

proof fn reveal_parseable_empty()
    ensures
        !parseable_extension(Seq::<char>::empty()),
{
    reveal_strlit("ts");
    reveal_strlit("tsx");
    reveal_strlit("js");
    reveal_strlit("jsx");
    reveal_strlit("mjs");
    reveal_strlit("cjs");
    reveal_strlit("mts");
    reveal_strlit("cts");
    assert("ts"@.len() == 2);
    assert("tsx"@.len() == 3);
    assert("js"@.len() == 2);
    assert("jsx"@.len() == 3);
    assert("mjs"@.len() == 3);
    assert("cjs"@.len() == 3);
    assert("mts"@.len() == 3);
    assert("cts"@.len() == 3);
}

} // verus!
