//! Indexed module/edge store with deduplicated edges and per-module adjacency.
//!
//! Modules and edges are append-only; ids are dense indices into the two
//! vectors. For any (from, to, kind) triple the graph holds at most one edge.

use vstd::prelude::*;

verus! {

/// Dense integer handle of a module in a [`ModuleGraph`].
#[derive(Clone, Copy, Debug, PartialEq, Eq, Hash, Structural)]
pub struct ModuleId(pub u32);

/// Dense integer handle of an edge in a [`ModuleGraph`].
#[derive(Clone, Copy, Debug, PartialEq, Eq, Hash, Structural)]
pub struct EdgeId(pub u32);

/// How an import contributes to transitive weight.
#[derive(Clone, Copy, Debug, PartialEq, Eq, Structural)]
pub enum EdgeKind {
    /// Loaded at startup: `import ... from`, `require("x")`, or a re-export.
    Static,
    /// Deferred until runtime: `import("x")` with a literal argument.
    Dynamic,
    /// Erased at runtime: a type-only import; never followed by weight sums.
    TypeOnly,
}

/// A source file or package entry in the graph.
#[derive(Debug)]
pub struct Module {
    pub id: ModuleId,
    /// Canonical absolute path; the graph treats it opaquely.
    pub path: String,
    pub size_bytes: u64,
    /// `None` for first-party source files, `Some(name)` for package files.
    pub package: Option<String>,
}

/// A directed import relationship between two modules.
#[derive(Debug)]
pub struct Edge {
    pub id: EdgeId,
    pub from: ModuleId,
    pub to: ModuleId,
    pub kind: EdgeKind,
    /// The verbatim specifier as written in the source.
    pub specifier: String,
}

/// Aggregated weight of one package: its modules reachable over in-package
/// static edges from any of its entry points.
#[derive(Debug)]
pub struct PackageInfo {
    pub name: String,
    pub entry_module: ModuleId,
    pub total_reachable_size: u64,
    pub total_reachable_files: u32,
}

/// The module graph: modules, edges, outgoing adjacency per module
/// (parallel to `modules`), and per-package aggregates keyed by name.
#[derive(Debug)]
pub struct ModuleGraph {
    pub modules: Vec<Module>,
    pub edges: Vec<Edge>,
    pub forward_adj: Vec<Vec<EdgeId>>,
    pub package_map: Vec<PackageInfo>,
}

impl Clone for Module {
    fn clone(&self) -> (res: Self)
        ensures
            res == *self,
    {
        Module {
            id: self.id,
            path: self.path.clone(),
            size_bytes: self.size_bytes,
            package: match &self.package {
                Some(s) => Some(s.clone()),
                None => None,
            },
        }
    }
}

impl Clone for Edge {
    fn clone(&self) -> (res: Self)
        ensures
            res == *self,
    {
        Edge {
            id: self.id,
            from: self.from,
            to: self.to,
            kind: self.kind,
            specifier: self.specifier.clone(),
        }
    }
}

impl Clone for PackageInfo {
    fn clone(&self) -> (res: Self)
        ensures
            res == *self,
    {
        PackageInfo {
            name: self.name.clone(),
            entry_module: self.entry_module,
            total_reachable_size: self.total_reachable_size,
            total_reachable_files: self.total_reachable_files,
        }
    }
}

/// The graph as a mathematical value: module and edge records in id order,
/// adjacency lists, and package aggregates.
#[verifier::ext_equal]
pub ghost struct ModuleGraphV {
    pub modules: Seq<Module>,
    pub edges: Seq<Edge>,
    pub adj: Seq<Seq<EdgeId>>,
    pub packages: Seq<PackageInfo>,
}

impl View for ModuleGraph {
    type V = ModuleGraphV;

    open spec fn view(&self) -> ModuleGraphV {
        ModuleGraphV {
            modules: self.modules@,
            edges: self.edges@,
            adj: self.adj(),
            packages: self.package_map@,
        }
    }
}

impl Clone for ModuleGraph {
    fn clone(&self) -> (res: Self)
        ensures
            res@ == self@,
    {
        let modules = self.modules.clone();
        let edges = self.edges.clone();
        let forward_adj = self.forward_adj.clone();
        let package_map = self.package_map.clone();
        proof {
            assert forall|i: int| 0 <= i < modules@.len() implies #[trigger] modules@[i]
                == self.modules@[i] by {
                assert(cloned::<Module>(self.modules@[i], modules@[i]));
            }
            assert(modules@ =~= self.modules@);
            assert forall|i: int| 0 <= i < edges@.len() implies #[trigger] edges@[i]
                == self.edges@[i] by {
                assert(cloned::<Edge>(self.edges@[i], edges@[i]));
            }
            assert(edges@ =~= self.edges@);
            assert forall|i: int|
                0 <= i < forward_adj@.len() implies #[trigger] forward_adj@[i]@
                == self.forward_adj@[i]@ by {
                assert(cloned::<Vec<EdgeId>>(self.forward_adj@[i], forward_adj@[i]));
                assert forall|k: int|
                    0 <= k < forward_adj@[i]@.len() implies #[trigger] forward_adj@[i]@[k]
                    == self.forward_adj@[i]@[k] by {
                    assert(cloned::<EdgeId>(self.forward_adj@[i]@[k], forward_adj@[i]@[k]));
                }
                assert(forward_adj@[i]@ =~= self.forward_adj@[i]@);
            }
            assert forall|i: int| 0 <= i < package_map@.len() implies #[trigger] package_map@[i]
                == self.package_map@[i] by {
                assert(cloned::<PackageInfo>(self.package_map@[i], package_map@[i]));
            }
            assert(package_map@ =~= self.package_map@);
        }
        let res = ModuleGraph { modules, edges, forward_adj, package_map };
        proof {
            assert(res.adj() =~= self.adj());
            assert(res@ =~= self@);
        }
        res
    }
}

impl ModuleGraph {
    /// The adjacency lists as mathematical sequences.
    pub open spec fn adj(self) -> Seq<Seq<EdgeId>> {
        self.forward_adj@.map_values(|v: Vec<EdgeId>| v@)
    }

    /// There is a module whose path is `p`.
    pub open spec fn has_module_path(self, p: Seq<char>) -> bool {
        exists|i: int|
            0 <= i < self.modules@.len() && (#[trigger] self.modules@[i]).path@ == p
    }

    /// There is an edge with exactly this (from, to, kind) triple.
    pub open spec fn has_edge(self, from: ModuleId, to: ModuleId, kind: EdgeKind) -> bool {
        exists|e: int|
            0 <= e < self.edges@.len() && (#[trigger] self.edges@[e]).from == from
                && self.edges@[e].to == to && self.edges@[e].kind == kind
    }

    /// Well-formedness: dense ids, in-range endpoints, distinct paths,
    /// adjacency lists that exactly index the edges leaving each module,
    /// and at most one edge per (from, to, kind) triple.
    pub open spec fn wf(self) -> bool {
        &&& self.modules@.len() <= u32::MAX
        &&& self.edges@.len() <= u32::MAX
        &&& self.forward_adj@.len() == self.modules@.len()
        &&& forall|i: int|
            0 <= i < self.modules@.len() ==> (#[trigger] self.modules@[i]).id == ModuleId(
                i as u32,
            )
        &&& forall|e: int|
            0 <= e < self.edges@.len() ==> {
                &&& (#[trigger] self.edges@[e]).id == EdgeId(e as u32)
                &&& self.edges@[e].from.0 < self.modules@.len()
                &&& self.edges@[e].to.0 < self.modules@.len()
            }
        &&& forall|i: int, j: int|
            0 <= i < j < self.modules@.len() ==> (#[trigger] self.modules@[i]).path@ != (
            #[trigger] self.modules@[j]).path@
        &&& forall|i: int, k: int|
            0 <= i < self.adj().len() && 0 <= k < self.adj()[i].len() ==> {
                &&& (#[trigger] self.adj()[i][k]).0 < self.edges@.len()
                &&& self.edges@[self.adj()[i][k].0 as int].from == ModuleId(i as u32)
            }
        &&& forall|e: int|
            0 <= e < self.edges@.len() ==> (#[trigger] self.adj()[self.edges@[e].from.0 as int])
                .contains(EdgeId(e as u32))
        &&& forall|i: int, k1: int, k2: int|
            0 <= i < self.adj().len() && 0 <= k1 < k2 < self.adj()[i].len() ==> (
            #[trigger] self.adj()[i][k1]) != (#[trigger] self.adj()[i][k2])
        &&& forall|e1: int, e2: int|
            0 <= e1 < e2 < self.edges@.len() ==> !((#[trigger] self.edges@[e1]).from == (
            #[trigger] self.edges@[e2]).from && self.edges@[e1].to == self.edges@[e2].to
                && self.edges@[e1].kind == self.edges@[e2].kind)
    }

    pub fn new() -> (g: ModuleGraph)
        ensures
            g.wf(),
            g.modules@.len() == 0,
            g.edges@.len() == 0,
            g.package_map@.len() == 0,
    {
        ModuleGraph {
            modules: Vec::new(),
            edges: Vec::new(),
            forward_adj: Vec::new(),
            package_map: Vec::new(),
        }
    }

    /// Index of the module holding `path`, if any. Linear scan: paths are
    /// distinct under `wf`, so the first hit is the only one.
    pub fn find_module(&self, path: &String) -> (r: Option<ModuleId>)
        requires
            self.wf(),
        ensures
            match r {
                Some(id) => id.0 < self.modules@.len() && self.modules@[id.0 as int].path@
                    == path@,
                None => !self.has_module_path(path@),
            },
    {
        let n = self.modules.len();
        let mut i: usize = 0;
        while i < n
            invariant
                n == self.modules@.len(),
                i <= n,
                self.wf(),
                forall|j: int| 0 <= j < i ==> (#[trigger] self.modules@[j]).path@ != path@,
            decreases n - i,
        {
            if self.modules[i].path == *path {
                return Some(self.modules[i].id);
            }
            i = i + 1;
        }
        None
    }

    /// Insert a module, or return the existing id when the path is already
    /// known (in which case the graph is unchanged).
    pub fn add_module(&mut self, path: String, size_bytes: u64, package: Option<String>) -> (r:
        ModuleId)
        requires
            old(self).wf(),
            old(self).modules@.len() < u32::MAX,
        ensures
            final(self).wf(),
            r.0 < final(self).modules@.len(),
            final(self).modules@[r.0 as int].path@ == path@,
            final(self).has_module_path(path@),
            old(self).has_module_path(path@) ==> *final(self) == *old(self),
            !old(self).has_module_path(path@) ==> {
                &&& r == ModuleId(old(self).modules@.len() as u32)
                &&& final(self).modules@ == old(self).modules@.push(
                    Module { id: r, path: path, size_bytes: size_bytes, package: package },
                )
                &&& final(self).edges == old(self).edges
                &&& final(self).adj() == old(self).adj().push(Seq::<EdgeId>::empty())
                &&& final(self).package_map == old(self).package_map
            },
    {
        if let Some(id) = self.find_module(&path) {
            return id;
        }
        let id = ModuleId(self.modules.len() as u32);
        self.modules.push(Module { id, path, size_bytes, package });
        self.forward_adj.push(Vec::new());
        proof {
            assert(self.adj() =~= old(self).adj().push(Seq::<EdgeId>::empty()));
            assert forall|i: int, k: int|
                0 <= i < self.adj().len() && 0 <= k < self.adj()[i].len() implies {
                &&& (#[trigger] self.adj()[i][k]).0 < self.edges@.len()
                &&& self.edges@[self.adj()[i][k].0 as int].from == ModuleId(i as u32)
            } by {
                assert(i < old(self).adj().len());
                assert(self.adj()[i] == old(self).adj()[i]);
            }
        }
        id
    }

    /// Insert an edge, or return the existing edge id when an edge with the
    /// same (from, to, kind) triple is present (the graph is then unchanged
    /// and the specifier of the first insertion is kept).
    pub fn add_edge(&mut self, from: ModuleId, to: ModuleId, kind: EdgeKind, specifier: String)
        -> (r: EdgeId)
        requires
            old(self).wf(),
            from.0 < old(self).modules@.len(),
            to.0 < old(self).modules@.len(),
            old(self).edges@.len() < u32::MAX,
        ensures
            final(self).wf(),
            final(self).has_edge(from, to, kind),
            r.0 < final(self).edges@.len(),
            final(self).edges@[r.0 as int].from == from,
            final(self).edges@[r.0 as int].to == to,
            final(self).edges@[r.0 as int].kind == kind,
            old(self).has_edge(from, to, kind) ==> *final(self) == *old(self),
            !old(self).has_edge(from, to, kind) ==> {
                &&& r == EdgeId(old(self).edges@.len() as u32)
                &&& final(self).edges@ == old(self).edges@.push(
                    Edge { id: r, from: from, to: to, kind: kind, specifier: specifier },
                )
                &&& final(self).modules == old(self).modules
                &&& final(self).adj() == old(self).adj().update(
                    from.0 as int,
                    old(self).adj()[from.0 as int].push(r),
                )
                &&& final(self).package_map == old(self).package_map
            },
    {
        let from_idx = from.0 as usize;
        let deg = self.forward_adj[from_idx].len();
        let mut k: usize = 0;
        while k < deg
            invariant
                self.wf(),
                from.0 < self.modules@.len(),
                from_idx == from.0 as int,
                deg == self.adj()[from_idx as int].len(),
                k <= deg,
                forall|kk: int|
                    0 <= kk < k ==> {
                        let e = (#[trigger] self.adj()[from_idx as int][kk]).0 as int;
                        !(self.edges@[e].to == to && self.edges@[e].kind == kind)
                    },
            decreases deg - k,
        {
            let eid = self.forward_adj[from_idx][k];
            let e = &self.edges[eid.0 as usize];
            if e.to == to && e.kind == kind {
                proof {
                    assert(self.has_edge(from, to, kind));
                }
                return eid;
            }
            k = k + 1;
        }
        proof {
            // No adjacency entry matched, and every edge leaving `from` is
            // listed in its adjacency, so the triple is absent.
            assert(!self.has_edge(from, to, kind)) by {
                if self.has_edge(from, to, kind) {
                    let e = choose|e: int|
                        0 <= e < self.edges@.len() && (#[trigger] self.edges@[e]).from == from
                            && self.edges@[e].to == to && self.edges@[e].kind == kind;
                    assert(self.adj()[from.0 as int].contains(EdgeId(e as u32)));
                    let kk = choose|kk: int|
                        0 <= kk < self.adj()[from.0 as int].len() && self.adj()[from.0 as int][kk]
                            == EdgeId(e as u32);
                    assert(false);
                }
            }
        }
        let id = EdgeId(self.edges.len() as u32);
        self.edges.push(Edge { id, from, to, kind, specifier });
        self.forward_adj[from_idx].push(id);
        proof {
            assert(self.adj() =~= old(self).adj().update(
                from.0 as int,
                old(self).adj()[from.0 as int].push(id),
            ));
            lemma_add_edge_wf(*old(self), *self, from, to, kind, id);
        }
        id
    }

    pub fn module(&self, id: ModuleId) -> (r: &Module)
        requires
            id.0 < self.modules@.len(),
        ensures
            *r == self.modules@[id.0 as int],
    {
        &self.modules[id.0 as usize]
    }

    pub fn edge(&self, id: EdgeId) -> (r: &Edge)
        requires
            id.0 < self.edges@.len(),
        ensures
            *r == self.edges@[id.0 as int],
    {
        &self.edges[id.0 as usize]
    }

    pub fn outgoing_edges(&self, id: ModuleId) -> (r: &Vec<EdgeId>)
        requires
            id.0 < self.forward_adj@.len(),
        ensures
            r@ == self.adj()[id.0 as int],
    {
        &self.forward_adj[id.0 as usize]
    }

    pub fn module_count(&self) -> (r: usize)
        ensures
            r == self.modules@.len(),
    {
        self.modules.len()
    }
}

/// Edge uniqueness: in a well-formed graph, any two distinct edges differ in
/// their (from, to, kind) triple — for every triple the edge count is at most
/// one, and re-adding a present triple returns the existing id unchanged
/// (see the contract of [`ModuleGraph::add_edge`]).
pub proof fn lemma_edge_unique(g: ModuleGraph, e1: int, e2: int)
    requires
        g.wf(),
        0 <= e1 < g.edges@.len(),
        0 <= e2 < g.edges@.len(),
        e1 != e2,
    ensures
        !(g.edges@[e1].from == g.edges@[e2].from && g.edges@[e1].to == g.edges@[e2].to
            && g.edges@[e1].kind == g.edges@[e2].kind),
{
}

proof fn lemma_add_edge_wf(
    pre: ModuleGraph,
    post: ModuleGraph,
    from: ModuleId,
    to: ModuleId,
    kind: EdgeKind,
    id: EdgeId,
)
    requires
        pre.wf(),
        from.0 < pre.modules@.len(),
        to.0 < pre.modules@.len(),
        pre.edges@.len() < u32::MAX,
        !pre.has_edge(from, to, kind),
        id == EdgeId(pre.edges@.len() as u32),
        post.modules == pre.modules,
        post.package_map == pre.package_map,
        post.edges@.len() == pre.edges@.len() + 1,
        post.edges@[pre.edges@.len() as int].id == id,
        post.edges@[pre.edges@.len() as int].from == from,
        post.edges@[pre.edges@.len() as int].to == to,
        post.edges@[pre.edges@.len() as int].kind == kind,
        forall|e: int| 0 <= e < pre.edges@.len() ==> post.edges@[e] == pre.edges@[e],
        post.adj() == pre.adj().update(from.0 as int, pre.adj()[from.0 as int].push(id)),
    ensures
        post.wf(),
{
    let fi = from.0 as int;
    assert(post.forward_adj@.len() == post.adj().len());
    assert(pre.forward_adj@.len() == pre.adj().len());
    assert(post.adj().len() == pre.adj().len());
    assert forall|e: int|
        0 <= e < post.edges@.len() implies {
        &&& (#[trigger] post.edges@[e]).id == EdgeId(e as u32)
        &&& post.edges@[e].from.0 < post.modules@.len()
        &&& post.edges@[e].to.0 < post.modules@.len()
    } by {
        if e < pre.edges@.len() {
            assert(post.edges@[e] == pre.edges@[e]);
        }
    }
    assert forall|e: int|
        0 <= e < post.edges@.len() implies (#[trigger] post.adj()[post.edges@[e].from.0 as int])
        .contains(EdgeId(e as u32)) by {
        if e < pre.edges@.len() {
            assert(post.edges@[e] == pre.edges@[e]);
            let f = pre.edges@[e].from.0 as int;
            assert(pre.adj()[f].contains(EdgeId(e as u32)));
            let kk = choose|kk: int|
                0 <= kk < pre.adj()[f].len() && pre.adj()[f][kk] == EdgeId(e as u32);
            if f == fi {
                assert(post.adj()[f][kk] == EdgeId(e as u32));
            } else {
                assert(post.adj()[f] == pre.adj()[f]);
            }
            assert(post.adj()[f].contains(EdgeId(e as u32)));
        } else {
            assert(post.edges@[e].from == from);
            let newlen = post.adj()[fi].len();
            assert(post.adj()[fi][newlen - 1] == id);
            assert(post.adj()[fi].contains(EdgeId(e as u32)));
        }
    }
    assert forall|i: int, k1: int, k2: int|
        0 <= i < post.adj().len() && 0 <= k1 < k2 < post.adj()[i].len() implies (
    #[trigger] post.adj()[i][k1]) != (#[trigger] post.adj()[i][k2]) by {
        if i == fi {
            if k2 == post.adj()[i].len() - 1 {
                assert(post.adj()[i][k1] == pre.adj()[i][k1]);
                assert(pre.adj()[i][k1].0 < pre.edges@.len());
            } else {
                assert(post.adj()[i][k1] == pre.adj()[i][k1]);
                assert(post.adj()[i][k2] == pre.adj()[i][k2]);
            }
        } else {
            assert(post.adj()[i] == pre.adj()[i]);
        }
    }
    assert forall|e1: int, e2: int|
        0 <= e1 < e2 < post.edges@.len() implies !((#[trigger] post.edges@[e1]).from == (
    #[trigger] post.edges@[e2]).from && post.edges@[e1].to == post.edges@[e2].to
        && post.edges@[e1].kind == post.edges@[e2].kind) by {
        if e2 == pre.edges@.len() as int {
            assert(post.edges@[e1] == pre.edges@[e1]);
            if post.edges@[e1].from == from && post.edges@[e1].to == to && post.edges@[e1].kind
                == kind {
                assert(pre.has_edge(from, to, kind));
            }
        }
    }
    assert forall|i: int, k: int|
        0 <= i < post.adj().len() && 0 <= k < post.adj()[i].len() implies {
        &&& (#[trigger] post.adj()[i][k]).0 < post.edges@.len()
        &&& post.edges@[post.adj()[i][k].0 as int].from == ModuleId(i as u32)
    } by {
        if i == fi && k == post.adj()[i].len() - 1 {
            assert(post.adj()[i][k] == id);
            assert(pre.modules@[fi].id == ModuleId(fi as u32));
        } else {
            assert(post.adj()[i][k] == pre.adj()[i][k]);
            assert(pre.adj()[i][k].0 < pre.edges@.len());
            assert(post.edges@[pre.adj()[i][k].0 as int] == pre.edges@[pre.adj()[i][k].0 as int]);
        }
    }
}

impl ModuleGraph {
    /// Decide well-formedness at run time; deserialized graphs are held to
    /// the invariant with this before anything trusts them.
    #[verifier::rlimit(100)]
    #[verifier::spinoff_prover]
    pub fn check_wf(&self) -> (r: bool)
        ensures
            r == self.wf(),
    {
        let mlen = self.modules.len();
        let elen = self.edges.len();
        if mlen > u32::MAX as usize || elen > u32::MAX as usize {
            return false;
        }
        if self.forward_adj.len() != mlen {
            return false;
        }
        let mut i: usize = 0;
        while i < mlen
            invariant
                mlen == self.modules@.len(),
                i <= mlen,
                mlen <= u32::MAX,
                forall|j: int|
                    0 <= j < i ==> (#[trigger] self.modules@[j]).id == ModuleId(j as u32),
            decreases mlen - i,
        {
            if !(self.modules[i].id == ModuleId(i as u32)) {
                proof {
                    assert(!self.wf());
                }
                return false;
            }
            i = i + 1;
        }
        let mut e: usize = 0;
        while e < elen
            invariant
                elen == self.edges@.len(),
                mlen == self.modules@.len(),
                e <= elen,
                elen <= u32::MAX,
                forall|j: int|
                    0 <= j < e ==> {
                        &&& (#[trigger] self.edges@[j]).id == EdgeId(j as u32)
                        &&& self.edges@[j].from.0 < mlen
                        &&& self.edges@[j].to.0 < mlen
                    },
            decreases elen - e,
        {
            let ed = &self.edges[e];
            if !(ed.id == EdgeId(e as u32)) || ed.from.0 as usize >= mlen || ed.to.0 as usize
                >= mlen {
                proof {
                    assert(!self.wf());
                }
                return false;
            }
            e = e + 1;
        }
        // paths pairwise distinct
        let mut a: usize = 0;
        while a < mlen
            invariant
                mlen == self.modules@.len(),
                a <= mlen,
                forall|x: int, y: int|
                    0 <= x < y < mlen && x < a ==> (#[trigger] self.modules@[x]).path@ != (
                    #[trigger] self.modules@[y]).path@,
            decreases mlen - a,
        {
            let mut b: usize = a + 1;
            while b < mlen
                invariant
                    mlen == self.modules@.len(),
                    a < mlen,
                    a < b,
                    b <= mlen,
                    forall|y: int|
                        a < y < b ==> (#[trigger] self.modules@[y]).path@
                            != self.modules@[a as int].path@,
                decreases mlen - b,
            {
                if self.modules[b].path == self.modules[a].path {
                    proof {
                        assert(!self.wf());
                    }
                    return false;
                }
                b = b + 1;
            }
            a = a + 1;
        }
        // adjacency entries valid and pairwise distinct
        let mut i2: usize = 0;
        while i2 < mlen
            invariant
                mlen == self.modules@.len(),
                elen == self.edges@.len(),
                self.adj().len() == mlen,
                i2 <= mlen,
                mlen <= u32::MAX,
                forall|x: int, k: int|
                    0 <= x < i2 && 0 <= k < self.adj()[x].len() ==> {
                        &&& (#[trigger] self.adj()[x][k]).0 < elen
                        &&& self.edges@[self.adj()[x][k].0 as int].from == ModuleId(x as u32)
                    },
                forall|x: int, k1: int, k2: int|
                    0 <= x < i2 && 0 <= k1 < k2 < self.adj()[x].len() ==> (
                    #[trigger] self.adj()[x][k1]) != (#[trigger] self.adj()[x][k2]),
            decreases mlen - i2,
        {
            let deg = self.forward_adj[i2].len();
            let mut k: usize = 0;
            while k < deg
                invariant
                    mlen == self.modules@.len(),
                    elen == self.edges@.len(),
                    self.adj().len() == mlen,
                    i2 < mlen,
                    mlen <= u32::MAX,
                    deg == self.adj()[i2 as int].len(),
                    k <= deg,
                    forall|kk: int|
                        0 <= kk < k ==> {
                            &&& (#[trigger] self.adj()[i2 as int][kk]).0 < elen
                            &&& self.edges@[self.adj()[i2 as int][kk].0 as int].from == ModuleId(
                                i2 as u32,
                            )
                        },
                    forall|k1: int, k2: int|
                        0 <= k1 < k2 < deg && k1 < k ==> (#[trigger] self.adj()[i2 as int][k1])
                            != (#[trigger] self.adj()[i2 as int][k2]),
                decreases deg - k,
            {
                let eid = self.forward_adj[i2][k];
                if eid.0 as usize >= elen {
                    proof {
                        assert(!self.wf());
                    }
                    return false;
                }
                if !(self.edges[eid.0 as usize].from == ModuleId(i2 as u32)) {
                    proof {
                        assert(!self.wf());
                    }
                    return false;
                }
                let mut k2x: usize = k + 1;
                while k2x < deg
                    invariant
                        mlen == self.modules@.len(),
                        self.adj().len() == mlen,
                        i2 < mlen,
                        deg == self.adj()[i2 as int].len(),
                        k < deg,
                        eid == self.adj()[i2 as int][k as int],
                        k < k2x,
                        k2x <= deg,
                        forall|y: int|
                            k < y < k2x ==> (#[trigger] self.adj()[i2 as int][y])
                                != self.adj()[i2 as int][k as int],
                    decreases deg - k2x,
                {
                    if self.forward_adj[i2][k2x] == eid {
                        proof {
                            let ghost ki = k as int;
                            assert(self.adj()[i2 as int][k2x as int] == self.adj()[i2 as int][ki]);
                            assert(!self.wf());
                        }
                        return false;
                    }
                    k2x = k2x + 1;
                }
                k = k + 1;
            }
            i2 = i2 + 1;
        }
        // every edge appears in its module's adjacency
        let mut e2: usize = 0;
        while e2 < elen
            invariant
                mlen == self.modules@.len(),
                elen == self.edges@.len(),
                self.adj().len() == mlen,
                e2 <= elen,
                elen <= u32::MAX,
                forall|j: int|
                    0 <= j < elen ==> (#[trigger] self.edges@[j]).from.0 < mlen,
                forall|j: int|
                    0 <= j < e2 ==> (#[trigger] self.adj()[self.edges@[j].from.0 as int]).contains(
                        EdgeId(j as u32),
                    ),
            decreases elen - e2,
        {
            let from = self.edges[e2].from;
            let deg = self.forward_adj[from.0 as usize].len();
            let mut k: usize = 0;
            let mut found = false;
            while k < deg && !found
                invariant
                    self.adj().len() == mlen,
                    from.0 < mlen,
                    deg == self.adj()[from.0 as int].len(),
                    k <= deg,
                    found ==> exists|kk: int|
                        0 <= kk < deg && (#[trigger] self.adj()[from.0 as int][kk]) == EdgeId(
                            e2 as u32,
                        ),
                    !found ==> forall|kk: int|
                        0 <= kk < k ==> (#[trigger] self.adj()[from.0 as int][kk]) != EdgeId(
                            e2 as u32,
                        ),
                decreases deg - k,
            {
                if self.forward_adj[from.0 as usize][k] == EdgeId(e2 as u32) {
                    found = true;
                }
                k = k + 1;
            }
            if !found {
                proof {
                    assert(!self.adj()[from.0 as int].contains(EdgeId(e2 as u32))) by {
                        if self.adj()[from.0 as int].contains(EdgeId(e2 as u32)) {
                            let kk = choose|kk: int|
                                0 <= kk < self.adj()[from.0 as int].len()
                                    && self.adj()[from.0 as int][kk] == EdgeId(e2 as u32);
                            assert(false);
                        }
                    }
                    assert(!self.wf());
                }
                return false;
            }
            e2 = e2 + 1;
        }
        // at most one edge per (from, to, kind)
        let mut x: usize = 0;
        while x < elen
            invariant
                elen == self.edges@.len(),
                x <= elen,
                forall|e1: int, ee: int|
                    0 <= e1 < ee < elen && e1 < x ==> !((#[trigger] self.edges@[e1]).from == (
                    #[trigger] self.edges@[ee]).from && self.edges@[e1].to == self.edges@[ee].to
                        && self.edges@[e1].kind == self.edges@[ee].kind),
            decreases elen - x,
        {
            let mut y: usize = x + 1;
            while y < elen
                invariant
                    elen == self.edges@.len(),
                    x < elen,
                    x < y,
                    y <= elen,
                    forall|ee: int|
                        x < ee < y ==> !(self.edges@[x as int].from == (
                        #[trigger] self.edges@[ee]).from && self.edges@[x as int].to
                            == self.edges@[ee].to && self.edges@[x as int].kind
                            == self.edges@[ee].kind),
                decreases elen - y,
            {
                let e1 = &self.edges[x];
                let e2r = &self.edges[y];
                if e1.from == e2r.from && e1.to == e2r.to && e1.kind == e2r.kind {
                    proof {
                        assert(!self.wf());
                    }
                    return false;
                }
                y = y + 1;
            }
            x = x + 1;
        }
        proof {
            assert(self.wf());
        }
        true
    }
}

} // verus!
