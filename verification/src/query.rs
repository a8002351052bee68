//! Queries over a built module graph: reachability, transitive weight,
//! per-package weight, shortest import chains, and trace comparison.
//!
//! All queries follow `Static` edges; `Dynamic` edges are followed only on
//! request, and `TypeOnly` edges never. Reachability is defined by paths, and
//! the breadth-first searches below are proved sound and complete against
//! that definition.

use vstd::prelude::*;

use crate::graph::{EdgeId, EdgeKind, Module, ModuleGraph, ModuleId, PackageInfo};

verus! {

broadcast use vstd::seq_lib::lemma_seq_contains_after_push;


/// Which edges a traversal follows.
#[derive(Debug, Clone)]
pub enum EdgeFilter {
    /// Only `Static` edges: the weight loaded at startup.
    StaticOnly,
    /// `Static` and `Dynamic` edges: everything that can ever be loaded.
    StaticAndDynamic,
    /// Only `Static` edges whose target lies in the named package; used for
    /// per-package aggregation.
    StaticInPackage(String),
}

/// Whether a traversal under `f` may follow edge `e` of `g`.
pub open spec fn edge_allowed(g: ModuleGraph, f: EdgeFilter, e: int) -> bool {
    &&& 0 <= e < g.edges@.len()
    &&& match f {
        EdgeFilter::StaticOnly => g.edges@[e].kind is Static,
        EdgeFilter::StaticAndDynamic => g.edges@[e].kind is Static || g.edges@[e].kind
            is Dynamic,
        EdgeFilter::StaticInPackage(name) => g.edges@[e].kind is Static && module_in_package(
            g.modules@,
            g.edges@[e].to,
            name@,
        ),
    }
}

/// Module `v` carries package name `name`.
pub open spec fn module_in_package(ms: Seq<Module>, v: ModuleId, name: Seq<char>) -> bool {
    &&& v.0 < ms.len()
    &&& ms[v.0 as int].package matches Some(p) && p@ == name
}

/// Some allowed edge leads from `a` to `b`.
pub open spec fn has_allowed_edge(g: ModuleGraph, f: EdgeFilter, a: ModuleId, b: ModuleId) -> bool {
    exists|e: int|
        edge_allowed(g, f, e) && (#[trigger] g.edges@[e]).from == a && g.edges@[e].to == b
}

/// `p` is a path through `g` along edges allowed by `f`: non-empty, every
/// node in range, consecutive nodes joined by an allowed edge.
pub open spec fn is_path(g: ModuleGraph, f: EdgeFilter, p: Seq<ModuleId>) -> bool {
    &&& p.len() >= 1
    &&& forall|k: int| 0 <= k < p.len() ==> (#[trigger] p[k]).0 < g.modules@.len()
    &&& forall|k: int| 0 <= k < p.len() - 1 ==> has_allowed_edge(g, f, p[k], #[trigger] p[k + 1])
}

/// `to` can be reached from `from` along edges allowed by `f`.
pub open spec fn reachable(g: ModuleGraph, f: EdgeFilter, from: ModuleId, to: ModuleId) -> bool {
    exists|p: Seq<ModuleId>| is_path(g, f, p) && p.first() == from && p.last() == to
}

/// `to` can be reached from one of `starts`.
pub open spec fn reachable_from_any(
    g: ModuleGraph,
    f: EdgeFilter,
    starts: Seq<ModuleId>,
    to: ModuleId,
) -> bool {
    exists|k: int| 0 <= k < starts.len() && reachable(g, f, #[trigger] starts[k], to)
}

/// Reachability from the one-element start list is reachability from its
/// element.
pub proof fn lemma_reach_singleton(g: ModuleGraph, f: EdgeFilter, e: ModuleId, v: ModuleId)
    ensures
        reachable_from_any(g, f, seq![e], v) <==> reachable(g, f, e, v),
{
    if reachable_from_any(g, f, seq![e], v) {
        let k = choose|k: int|
            0 <= k < seq![e].len() && reachable(g, f, #[trigger] seq![e][k], v);
        assert(seq![e][k] == e);
    }
    if reachable(g, f, e, v) {
        assert(seq![e][0] == e);
        assert(reachable_from_any(g, f, seq![e], v));
    }
}

/// A one-node path witnesses that every node reaches itself.
pub proof fn lemma_reachable_self(g: ModuleGraph, f: EdgeFilter, v: ModuleId)
    requires
        v.0 < g.modules@.len(),
    ensures
        reachable(g, f, v, v),
{
    let p = seq![v];
    assert(is_path(g, f, p));
    assert(p.first() == v && p.last() == v);
}

/// Reachability extends across one allowed edge.
pub proof fn lemma_reachable_step(
    g: ModuleGraph,
    f: EdgeFilter,
    from: ModuleId,
    mid: ModuleId,
    to: ModuleId,
)
    requires
        reachable(g, f, from, mid),
        has_allowed_edge(g, f, mid, to),
        to.0 < g.modules@.len(),
    ensures
        reachable(g, f, from, to),
{
    let p = choose|p: Seq<ModuleId>| is_path(g, f, p) && p.first() == from && p.last() == mid;
    let q = p.push(to);
    assert forall|k: int| 0 <= k < q.len() - 1 implies has_allowed_edge(
        g,
        f,
        q[k],
        #[trigger] q[k + 1],
    ) by {
        if k < p.len() - 1 {
            assert(q[k] == p[k] && q[k + 1] == p[k + 1]);
            assert(has_allowed_edge(g, f, p[k], p[k + 1]));
        } else {
            assert(q[k] == p.last() && q[k + 1] == to);
        }
    }
    assert(is_path(g, f, q));
    assert(q.first() == from && q.last() == to);
}

/// A visited set that contains the start of a path and is closed under
/// allowed edges contains the path's end.
proof fn lemma_path_stays_in_closed_set(
    g: ModuleGraph,
    f: EdgeFilter,
    visited: Seq<bool>,
    p: Seq<ModuleId>,
)
    requires
        g.wf(),
        visited.len() == g.modules@.len(),
        is_path(g, f, p),
        visited[p.first().0 as int],
        forall|u: ModuleId, w: ModuleId|
            u.0 < visited.len() && visited[u.0 as int] && #[trigger] has_allowed_edge(g, f, u, w)
                ==> w.0 < visited.len() && visited[w.0 as int],
    ensures
        visited[p.last().0 as int],
    decreases p.len(),
{
    if p.len() > 1 {
        let q = p.drop_last();
        assert(is_path(g, f, q)) by {
            assert forall|k: int| 0 <= k < q.len() - 1 implies has_allowed_edge(
                g,
                f,
                q[k],
                #[trigger] q[k + 1],
            ) by {
                assert(has_allowed_edge(g, f, p[k], p[k + 1]));
            }
        }
        assert(q.first() == p.first());
        lemma_path_stays_in_closed_set(g, f, visited, q);
        let k = p.len() - 2;
        assert(has_allowed_edge(g, f, p[k], p[k + 1]));
    }
}

/// Whether the traversal may follow edge `e`; executable twin of
/// [`edge_allowed`].
fn edge_allowed_exec(g: &ModuleGraph, f: &EdgeFilter, e: usize) -> (r: bool)
    requires
        g.wf(),
        e < g.edges@.len(),
    ensures
        r == edge_allowed(*g, *f, e as int),
{
    match f {
        EdgeFilter::StaticOnly => matches!(g.edges[e].kind, EdgeKind::Static),
        EdgeFilter::StaticAndDynamic => matches!(
            g.edges[e].kind,
            EdgeKind::Static | EdgeKind::Dynamic
        ),
        EdgeFilter::StaticInPackage(name) => {
            if !matches!(g.edges[e].kind, EdgeKind::Static) {
                return false;
            }
            let to = g.edges[e].to;
            match &g.modules[to.0 as usize].package {
                Some(p) => *p == *name,
                None => false,
            }
        },
    }
}

/// The set of modules reachable from `starts` along edges allowed by `f`,
/// as a boolean vector indexed by module id. Sound and complete for
/// [`reachable_from_any`].
#[verifier::spinoff_prover]
pub fn reachable_set(g: &ModuleGraph, starts: &Vec<ModuleId>, f: &EdgeFilter) -> (r: Vec<bool>)
    requires
        g.wf(),
        forall|k: int| 0 <= k < starts@.len() ==> (#[trigger] starts@[k]).0 < g.modules@.len(),
    ensures
        r@.len() == g.modules@.len(),
        forall|v: int|
            0 <= v < r@.len() ==> (r@[v] <==> reachable_from_any(
                *g,
                *f,
                starts@,
                ModuleId(v as u32),
            )),
{
    let n = g.modules.len();
    let mut visited: Vec<bool> = Vec::new();
    let mut i: usize = 0;
    while i < n
        invariant
            i <= n,
            visited@.len() == i,
            forall|v: int| 0 <= v < i ==> !(#[trigger] visited@[v]),
        decreases n - i,
    {
        visited.push(false);
        i = i + 1;
    }
    let mut queue: Vec<ModuleId> = Vec::new();
    let mut k: usize = 0;
    while k < starts.len()
        invariant
            g.wf(),
            n == g.modules@.len(),
            visited@.len() == n,
            forall|j: int| 0 <= j < starts@.len() ==> (#[trigger] starts@[j]).0 < n,
            k <= starts@.len(),
            forall|q: int|
                0 <= q < queue@.len() ==> (#[trigger] queue@[q]).0 < n && visited@[queue@[q].0 as int],
            forall|v: int|
                0 <= v < n && #[trigger] visited@[v] ==> reachable_from_any(
                    *g,
                    *f,
                    starts@,
                    ModuleId(v as u32),
                ),
            forall|j: int|
                0 <= j < k ==> visited@[(#[trigger] starts@[j]).0 as int],
            // every visited node is queued or has all its allowed edges into the visited set
            forall|v: int|
                0 <= v < n && #[trigger] visited@[v] ==> queue@.contains(ModuleId(v as u32)),
        decreases starts@.len() - k,
    {
        let s = starts[k];
        if !visited[s.0 as usize] {
            visited.set(s.0 as usize, true);
            queue.push(s);
            proof {
                lemma_reachable_self(*g, *f, s);
            }
        }
        k = k + 1;
    }
    let mut head: usize = 0;
    while head < queue.len()
        invariant
            g.wf(),
            n == g.modules@.len(),
            visited@.len() == n,
            head <= queue@.len(),
            forall|q: int|
                0 <= q < queue@.len() ==> (#[trigger] queue@[q]).0 < n && visited@[queue@[q].0 as int],
            forall|v: int|
                0 <= v < n && #[trigger] visited@[v] ==> reachable_from_any(
                    *g,
                    *f,
                    starts@,
                    ModuleId(v as u32),
                ),
            forall|j: int| 0 <= j < starts@.len() ==> (#[trigger] starts@[j]).0 < n,
            forall|j: int|
                0 <= j < starts@.len() ==> visited@[(#[trigger] starts@[j]).0 as int],
            // every visited node appears in the queue
            forall|v: int|
                0 <= v < n && #[trigger] visited@[v] ==> queue@.contains(ModuleId(v as u32)),
            // processed nodes have all their allowed out-edges inside the visited set
            forall|q: int, e: int|
                #![trigger queue@[q], g.edges@[e]]
                0 <= q < head && edge_allowed(*g, *f, e) && g.edges@[e].from == queue@[q]
                    ==> visited@[g.edges@[e].to.0 as int],
        decreases count_false(visited@), queue@.len() - head,
    {
        let u = queue[head];
        let ghost pre_v = visited@;
        let ghost pre_qlen = queue@.len();
        let deg = g.forward_adj[u.0 as usize].len();
        let mut a: usize = 0;
        while a < deg
            invariant
                g.wf(),
                n == g.modules@.len(),
                visited@.len() == n,
                head < queue@.len(),
                u == queue@[head as int],
                u.0 < n,
                deg == g.adj()[u.0 as int].len(),
                a <= deg,
                forall|q: int|
                    0 <= q < queue@.len() ==> (#[trigger] queue@[q]).0 < n
                        && visited@[queue@[q].0 as int],
                forall|v: int|
                    0 <= v < n && #[trigger] visited@[v] ==> reachable_from_any(
                        *g,
                        *f,
                        starts@,
                        ModuleId(v as u32),
                    ),
                forall|j: int| 0 <= j < starts@.len() ==> (#[trigger] starts@[j]).0 < n,
                forall|j: int|
                    0 <= j < starts@.len() ==> visited@[(#[trigger] starts@[j]).0 as int],
                forall|v: int|
                    0 <= v < n && #[trigger] visited@[v] ==> queue@.contains(ModuleId(v as u32)),
                forall|q: int, e: int|
                    #![trigger queue@[q], g.edges@[e]]
                    0 <= q < head && edge_allowed(*g, *f, e) && g.edges@[e].from == queue@[q]
                        ==> visited@[g.edges@[e].to.0 as int],
                // edges of u handled so far lead into the visited set
                forall|kk: int|
                    0 <= kk < a && edge_allowed(*g, *f, (#[trigger] g.adj()[u.0 as int][kk]).0 as int)
                        ==> visited@[g.edges@[g.adj()[u.0 as int][kk].0 as int].to.0 as int],
                count_false(visited@) <= count_false(pre_v),
                (visited@ == pre_v && queue@.len() == pre_qlen) || count_false(visited@)
                    < count_false(pre_v),
            decreases deg - a,
        {
            let eid = g.forward_adj[u.0 as usize][a];
            if edge_allowed_exec(g, f, eid.0 as usize) {
                let w = g.edges[eid.0 as usize].to;
                if !visited[w.0 as usize] {
                    proof {
                        lemma_count_false_update(visited@, w.0 as int);
                    }
                    visited.set(w.0 as usize, true);
                    queue.push(w);
                    proof {
                        assert(g.edges@[eid.0 as int].from == u);
                        assert(has_allowed_edge(*g, *f, u, w));
                        assert(reachable_from_any(*g, *f, starts@, u));
                        let sk = choose|sk: int|
                            0 <= sk < starts@.len() && reachable(*g, *f, #[trigger] starts@[sk], u);
                        lemma_reachable_step(*g, *f, starts@[sk], u, w);
                    }
                }
            }
            a = a + 1;
        }
        head = head + 1;
        proof {
            // edges of u are exactly the entries of its adjacency list
            assert forall|q: int, e: int|
                #![trigger queue@[q], g.edges@[e]]
                0 <= q < head && edge_allowed(*g, *f, e) && g.edges@[e].from == queue@[q]
                    implies visited@[g.edges@[e].to.0 as int] by {
                if q == head - 1 {
                    assert(g.adj()[u.0 as int].contains(EdgeId(e as u32)));
                    let kk = choose|kk: int|
                        0 <= kk < g.adj()[u.0 as int].len() && g.adj()[u.0 as int][kk] == EdgeId(
                            e as u32,
                        );
                    assert(g.adj()[u.0 as int][kk].0 as int == e);
                }
            }
        }
    }
    proof {
        // on exit every visited node was processed, so the visited set is
        // closed under allowed edges; completeness follows along any path
        assert forall|v: int|
            0 <= v < n && reachable_from_any(*g, *f, starts@, ModuleId(v as u32))
                implies #[trigger] visited@[v] by {
            let sk = choose|sk: int|
                0 <= sk < starts@.len() && reachable(*g, *f, #[trigger] starts@[sk], ModuleId(
                    v as u32,
                ));
            let p = choose|p: Seq<ModuleId>|
                is_path(*g, *f, p) && p.first() == starts@[sk] && p.last() == ModuleId(v as u32);
            assert forall|uu: ModuleId, ww: ModuleId|
                uu.0 < visited@.len() && visited@[uu.0 as int] && #[trigger] has_allowed_edge(
                    *g,
                    *f,
                    uu,
                    ww,
                ) implies ww.0 < visited@.len() && visited@[ww.0 as int] by {
                let e = choose|e: int|
                    edge_allowed(*g, *f, e) && (#[trigger] g.edges@[e]).from == uu && g.edges@[e].to
                        == ww;
                assert(queue@.contains(ModuleId(uu.0)));
                let q = choose|q: int| 0 <= q < queue@.len() && queue@[q] == ModuleId(uu.0);
                assert(visited@[g.edges@[e].to.0 as int]);
            }
            lemma_path_stays_in_closed_set(*g, *f, visited@, p);
        }
    }
    visited
}

/// The number of `false` entries of a visited vector: how many modules a
/// search has not yet marked.
pub open spec fn count_false(s: Seq<bool>) -> nat
    decreases s,
{
    if s.len() == 0 {
        0nat
    } else {
        count_false(s.drop_last()) + if s.last() {
            0nat
        } else {
            1nat
        }
    }
}

proof fn lemma_count_false_update(s: Seq<bool>, i: int)
    requires
        0 <= i < s.len(),
        !s[i],
    ensures
        count_false(s.update(i, true)) == count_false(s) - 1,
    decreases s,
{
    if i == s.len() - 1 {
        assert(s.update(i, true).drop_last() =~= s.drop_last());
    } else {
        assert(s.update(i, true).drop_last() =~= s.drop_last().update(i, true));
        assert(s.drop_last()[i] == s[i]);
        lemma_count_false_update(s.drop_last(), i);
        assert(s.update(i, true).last() == s.last());
    }
}

/// Sum of `size_bytes` over the modules below index `i` that satisfy `cond`.
pub open spec fn cond_weight_upto(ms: Seq<Module>, cond: spec_fn(int) -> bool, i: int) -> int
    decreases i,
{
    if i <= 0 {
        0
    } else {
        cond_weight_upto(ms, cond, i - 1) + if cond(i - 1) {
            ms[i - 1].size_bytes as int
        } else {
            0
        }
    }
}

/// Count of modules below index `i` that satisfy `cond`.
pub open spec fn cond_count_upto(ms: Seq<Module>, cond: spec_fn(int) -> bool, i: int) -> int
    decreases i,
{
    if i <= 0 {
        0
    } else {
        cond_count_upto(ms, cond, i - 1) + if cond(i - 1) {
            1int
        } else {
            0int
        }
    }
}

/// Total byte size of all modules.
pub open spec fn total_size(ms: Seq<Module>) -> int {
    cond_weight_upto(ms, |v: int| true, ms.len() as int)
}

/// Transitive weight: total size of the modules reachable from `starts`.
pub open spec fn reach_weight(g: ModuleGraph, f: EdgeFilter, starts: Seq<ModuleId>) -> int {
    cond_weight_upto(
        g.modules@,
        |v: int| reachable_from_any(g, f, starts, ModuleId(v as u32)),
        g.modules@.len() as int,
    )
}

/// Number of modules reachable from `starts`.
pub open spec fn reach_count(g: ModuleGraph, f: EdgeFilter, starts: Seq<ModuleId>) -> int {
    cond_count_upto(
        g.modules@,
        |v: int| reachable_from_any(g, f, starts, ModuleId(v as u32)),
        g.modules@.len() as int,
    )
}

/// Total byte size of the modules carrying package `name`.
pub open spec fn pkg_size(ms: Seq<Module>, name: Seq<char>) -> int {
    cond_weight_upto(ms, |v: int| module_in_package(ms, ModuleId(v as u32), name), ms.len() as int)
}

/// Number of modules carrying package `name`.
pub open spec fn pkg_count(ms: Seq<Module>, name: Seq<char>) -> int {
    cond_count_upto(ms, |v: int| module_in_package(ms, ModuleId(v as u32), name), ms.len() as int)
}

/// Total byte size of the modules whose package attribute is set.
pub open spec fn packaged_size(ms: Seq<Module>) -> int {
    cond_weight_upto(ms, |v: int| ms[v].package is Some, ms.len() as int)
}

/// A stronger condition sums to no more, and every conditional sum of sizes
/// is non-negative.
proof fn lemma_cond_weight_mono(
    ms: Seq<Module>,
    c1: spec_fn(int) -> bool,
    c2: spec_fn(int) -> bool,
    i: int,
)
    requires
        forall|v: int| 0 <= v < i && #[trigger] c1(v) ==> c2(v),
    ensures
        0 <= cond_weight_upto(ms, c1, i),
        cond_weight_upto(ms, c1, i) <= cond_weight_upto(ms, c2, i),
    decreases i,
{
    if i > 0 {
        lemma_cond_weight_mono(ms, c1, c2, i - 1);
    }
}

/// Pointwise equal conditions give equal sums and counts.
proof fn lemma_cond_ext(ms: Seq<Module>, c1: spec_fn(int) -> bool, c2: spec_fn(int) -> bool, i: int)
    requires
        forall|v: int| 0 <= v < i ==> (#[trigger] c1(v) <==> #[trigger] c2(v)),
    ensures
        cond_weight_upto(ms, c1, i) == cond_weight_upto(ms, c2, i),
        cond_count_upto(ms, c1, i) == cond_count_upto(ms, c2, i),
    decreases i,
{
    if i > 0 {
        lemma_cond_ext(ms, c1, c2, i - 1);
    }
}

/// Disjoint conditions sum independently.
proof fn lemma_cond_weight_disjoint(
    ms: Seq<Module>,
    c1: spec_fn(int) -> bool,
    c2: spec_fn(int) -> bool,
    cor: spec_fn(int) -> bool,
    i: int,
)
    requires
        forall|v: int| 0 <= v < i ==> !((#[trigger] c1(v)) && (#[trigger] c2(v))),
        forall|v: int| 0 <= v < i ==> ((#[trigger] cor(v)) <==> (c1(v) || c2(v))),
    ensures
        cond_weight_upto(ms, cor, i) == cond_weight_upto(ms, c1, i) + cond_weight_upto(ms, c2, i),
    decreases i,
{
    if i > 0 {
        lemma_cond_weight_disjoint(ms, c1, c2, cor, i - 1);
    }
}

/// A count selects at most one per module.
proof fn lemma_cond_count_bound(ms: Seq<Module>, c: spec_fn(int) -> bool, i: int)
    requires
        0 <= i,
    ensures
        0 <= cond_count_upto(ms, c, i) <= i,
    decreases i,
{
    if i > 0 {
        lemma_cond_count_bound(ms, c, i - 1);
    }
}

/// A prefix of a conditional sum is at most the whole (sizes are unsigned).
proof fn lemma_cond_prefix_le(ms: Seq<Module>, c: spec_fn(int) -> bool, i: int, n: int)
    requires
        0 <= i <= n,
    ensures
        cond_weight_upto(ms, c, i) <= cond_weight_upto(ms, c, n),
        0 <= cond_weight_upto(ms, c, i),
    decreases n - i,
{
    lemma_cond_weight_mono(ms, c, c, i);
    if i < n {
        lemma_cond_prefix_le(ms, c, i + 1, n);
    }
}

/// Sum sizes and count over the modules a boolean vector selects.
fn sum_selected(g: &ModuleGraph, sel: &Vec<bool>) -> (r: (u64, usize))
    requires
        g.wf(),
        sel@.len() == g.modules@.len(),
        cond_weight_upto(g.modules@, |v: int| sel@[v], g.modules@.len() as int) <= u64::MAX,
    ensures
        r.0 == cond_weight_upto(g.modules@, |v: int| sel@[v], g.modules@.len() as int),
        r.1 == cond_count_upto(g.modules@, |v: int| sel@[v], g.modules@.len() as int),
{
    let ghost cond = |v: int| sel@[v];
    let n = g.modules.len();
    let mut sum: u64 = 0;
    let mut count: usize = 0;
    let mut i: usize = 0;
    while i < n
        invariant
            g.wf(),
            n == g.modules@.len(),
            sel@.len() == n,
            cond == (|v: int| sel@[v]),
            cond_weight_upto(g.modules@, cond, n as int) <= u64::MAX,
            i <= n,
            sum == cond_weight_upto(g.modules@, cond, i as int),
            count == cond_count_upto(g.modules@, cond, i as int),
        decreases n - i,
    {
        if sel[i] {
            proof {
                lemma_cond_prefix_le(g.modules@, cond, i + 1, n as int);
                lemma_cond_count_bound(g.modules@, cond, i as int);
            }
            sum = sum + g.modules[i].size_bytes;
            count = count + 1;
        }
        i = i + 1;
    }
    (sum, count)
}

/// Sum of the recorded per-package totals.
pub open spec fn sum_totals(ps: Seq<PackageInfo>) -> int
    decreases ps,
{
    if ps.len() == 0 {
        0
    } else {
        sum_totals(ps.drop_last()) + ps.last().total_reachable_size as int
    }
}

/// The module at index `v` carries one of the names listed in `ps`.
pub open spec fn in_listed_package(ms: Seq<Module>, ps: Seq<PackageInfo>, v: int) -> bool {
    exists|k: int|
        0 <= k < ps.len() && module_in_package(ms, ModuleId(v as u32), (#[trigger] ps[k]).name@)
}

/// What [`compute_package_info`] records: one entry per distinct package
/// name found among the modules, in first-occurrence order, holding that
/// package's total module size and module count; each entry's
/// representative is the package's first module.
pub open spec fn package_map_ok(g: ModuleGraph) -> bool {
    &&& forall|k1: int, k2: int|
        0 <= k1 < k2 < g.package_map@.len() ==> (#[trigger] g.package_map@[k1]).name@ != (
        #[trigger] g.package_map@[k2]).name@
    &&& forall|k: int|
        0 <= k < g.package_map@.len() ==> {
            &&& (#[trigger] g.package_map@[k]).total_reachable_size == pkg_size(
                g.modules@,
                g.package_map@[k].name@,
            )
            &&& g.package_map@[k].total_reachable_files == pkg_count(
                g.modules@,
                g.package_map@[k].name@,
            )
            &&& module_in_package(
                g.modules@,
                g.package_map@[k].entry_module,
                g.package_map@[k].name@,
            )
            &&& forall|v: int|
                0 <= v < g.package_map@[k].entry_module.0 ==> !(#[trigger] module_in_package(
                    g.modules@,
                    ModuleId(v as u32),
                    g.package_map@[k].name@,
                ))
        }
    &&& forall|k1: int, k2: int|
        0 <= k1 < k2 < g.package_map@.len() ==> (#[trigger] g.package_map@[k1]).entry_module.0
            < (#[trigger] g.package_map@[k2]).entry_module.0
    &&& forall|v: int|
        0 <= v < g.modules@.len() && (#[trigger] g.modules@[v]).package is Some
            ==> in_listed_package(g.modules@, g.package_map@, v)
}

/// Along a path whose edges only enter package `name`, the last node lies in
/// the package as soon as the first does.
proof fn lemma_inpkg_path_last(g: ModuleGraph, f: EdgeFilter, name: Seq<char>, p: Seq<ModuleId>)
    requires
        f matches EdgeFilter::StaticInPackage(s) && s@ == name,
        is_path(g, f, p),
        module_in_package(g.modules@, p.first(), name),
    ensures
        module_in_package(g.modules@, p.last(), name),
{
    if p.len() > 1 {
        let k = p.len() - 2;
        assert(has_allowed_edge(g, f, p[k], p[k + 1]));
        let e = choose|e: int|
            edge_allowed(g, f, e) && (#[trigger] g.edges@[e]).from == p[k] && g.edges@[e].to == p[k
                + 1];
    }
}

/// Compute the per-package aggregates: for every distinct package name, in
/// first-occurrence order, the total size and count of the modules reachable
/// from the package's modules over in-package `Static` edges — which is
/// exactly the set of modules carrying the name, since every one of them is
/// a starting point.
#[verifier::spinoff_prover]
pub fn compute_package_info(g: &mut ModuleGraph)
    requires
        old(g).wf(),
        total_size(old(g).modules@) <= u64::MAX,
    ensures
        final(g).wf(),
        final(g).modules == old(g).modules,
        final(g).edges == old(g).edges,
        final(g).adj() == old(g).adj(),
        package_map_ok(*final(g)),
{
    let n = g.modules.len();
    let mut infos: Vec<PackageInfo> = Vec::new();
    let mut v: usize = 0;
    while v < n
        invariant
            g.wf(),
            *g == *old(g),
            total_size(g.modules@) <= u64::MAX,
            n == g.modules@.len(),
            v <= n,
            forall|k1: int, k2: int|
                0 <= k1 < k2 < infos@.len() ==> (#[trigger] infos@[k1]).name@ != (
                #[trigger] infos@[k2]).name@,
            forall|k: int|
                0 <= k < infos@.len() ==> {
                    &&& (#[trigger] infos@[k]).total_reachable_size == pkg_size(
                        g.modules@,
                        infos@[k].name@,
                    )
                    &&& infos@[k].total_reachable_files == pkg_count(g.modules@, infos@[k].name@)
                    &&& module_in_package(g.modules@, infos@[k].entry_module, infos@[k].name@)
                    &&& infos@[k].entry_module.0 < v
                    &&& forall|w: int|
                        0 <= w < infos@[k].entry_module.0 ==> !(#[trigger] module_in_package(
                            g.modules@,
                            ModuleId(w as u32),
                            infos@[k].name@,
                        ))
                },
            forall|k1: int, k2: int|
                0 <= k1 < k2 < infos@.len() ==> (#[trigger] infos@[k1]).entry_module.0 < (
                #[trigger] infos@[k2]).entry_module.0,
            forall|w: int|
                0 <= w < v && (#[trigger] g.modules@[w]).package is Some ==> in_listed_package(
                    g.modules@,
                    infos@,
                    w,
                ),
        decreases n - v,
    {
        let has_new = match &g.modules[v].package {
            Some(name) => !package_listed(&infos, name),
            None => false,
        };
        if has_new {
            let name = match &g.modules[v].package {
                Some(name) => name.clone(),
                None => unreached(),
            };
            let starts = modules_of_package(g, &name);
            let filter = EdgeFilter::StaticInPackage(name.clone());
            let visited = reachable_set(g, &starts, &filter);
            proof {
                assert forall|w: int| 0 <= w < n implies (visited@[w] <==> module_in_package(
                    g.modules@,
                    ModuleId(w as u32),
                    name@,
                )) by {
                    if visited@[w] {
                        let sk = choose|sk: int|
                            0 <= sk < starts@.len() && reachable(
                                *g,
                                filter,
                                #[trigger] starts@[sk],
                                ModuleId(w as u32),
                            );
                        let p = choose|p: Seq<ModuleId>|
                            is_path(*g, filter, p) && p.first() == starts@[sk] && p.last()
                                == ModuleId(w as u32);
                        lemma_inpkg_path_last(*g, filter, name@, p);
                    }
                    if module_in_package(g.modules@, ModuleId(w as u32), name@) {
                        assert(starts@.contains(ModuleId(w as u32)));
                        let sk = choose|sk: int|
                            0 <= sk < starts@.len() && starts@[sk] == ModuleId(w as u32);
                        lemma_reachable_self(*g, filter, ModuleId(w as u32));
                        assert(reachable_from_any(*g, filter, starts@, ModuleId(w as u32)));
                    }
                }
                lemma_cond_weight_mono(
                    g.modules@,
                    |v: int| visited@[v],
                    |v: int| true,
                    n as int,
                );
                lemma_cond_ext(
                    g.modules@,
                    |v: int| visited@[v],
                    |v: int| module_in_package(g.modules@, ModuleId(v as u32), name@),
                    n as int,
                );
                lemma_cond_count_bound(g.modules@, |v: int| visited@[v], n as int);
            }
            let (total, files) = sum_selected(g, &visited);
            let entry_module = ModuleId(v as u32);
            proof {
                // no earlier module carries this fresh name: it would have
                // been recorded when that module was scanned
                assert forall|w: int|
                    0 <= w < v implies !(#[trigger] module_in_package(
                    g.modules@,
                    ModuleId(w as u32),
                    name@,
                )) by {
                    if module_in_package(g.modules@, ModuleId(w as u32), name@) {
                        assert(g.modules@[w].package is Some);
                        assert(in_listed_package(g.modules@, infos@, w));
                        let k = choose|k: int|
                            0 <= k < infos@.len() && module_in_package(
                                g.modules@,
                                ModuleId(w as u32),
                                (#[trigger] infos@[k]).name@,
                            );
                        assert(infos@[k].name@ == name@);
                        assert(false);
                    }
                }
            }
            let ghost pre_infos = infos@;
            infos.push(
                PackageInfo {
                    name,
                    entry_module,
                    total_reachable_size: total,
                    total_reachable_files: files as u32,
                },
            );
            proof {
                assert forall|w: int|
                    0 <= w < v + 1 && (#[trigger] g.modules@[w]).package is Some
                        implies in_listed_package(g.modules@, infos@, w) by {
                    if w < v {
                        let k = choose|k: int|
                            0 <= k < pre_infos.len() && module_in_package(
                                g.modules@,
                                ModuleId(w as u32),
                                (#[trigger] pre_infos[k]).name@,
                            );
                        assert(infos@[k] == pre_infos[k]);
                        assert(module_in_package(g.modules@, ModuleId(w as u32), infos@[k].name@));
                    } else {
                        assert(module_in_package(
                            g.modules@,
                            ModuleId(w as u32),
                            infos@[infos@.len() - 1].name@,
                        ));
                    }
                }
            }
        } else {
            proof {
                if g.modules@[v as int].package is Some {
                    let name0 = g.modules@[v as int].package->0;
                    let k = choose|k: int|
                        0 <= k < infos@.len() && (#[trigger] infos@[k]).name@ == name0@;
                    assert(module_in_package(g.modules@, ModuleId(v as u32), infos@[k].name@));
                }
            }
        }
        v = v + 1;
    }
    g.package_map = infos;
}

/// Whether a package of this name was already recorded.
fn package_listed(infos: &Vec<PackageInfo>, name: &String) -> (r: bool)
    ensures
        r == exists|k: int| 0 <= k < infos@.len() && (#[trigger] infos@[k]).name@ == name@,
{
    let n = infos.len();
    let mut k: usize = 0;
    while k < n
        invariant
            n == infos@.len(),
            k <= n,
            forall|j: int| 0 <= j < k ==> (#[trigger] infos@[j]).name@ != name@,
        decreases n - k,
    {
        if infos[k].name == *name {
            return true;
        }
        k = k + 1;
    }
    false
}

/// The ids of all modules carrying package `name`, in id order.
fn modules_of_package(g: &ModuleGraph, name: &String) -> (r: Vec<ModuleId>)
    requires
        g.wf(),
    ensures
        forall|j: int|
            0 <= j < r@.len() ==> (#[trigger] r@[j]).0 < g.modules@.len() && module_in_package(
                g.modules@,
                r@[j],
                name@,
            ),
        forall|w: int|
            0 <= w < g.modules@.len() && #[trigger] module_in_package(
                g.modules@,
                ModuleId(w as u32),
                name@,
            ) ==> r@.contains(ModuleId(w as u32)),
{
    let n = g.modules.len();
    let mut out: Vec<ModuleId> = Vec::new();
    let mut w: usize = 0;
    while w < n
        invariant
            g.wf(),
            n == g.modules@.len(),
            w <= n,
            forall|j: int|
                0 <= j < out@.len() ==> (#[trigger] out@[j]).0 < n && module_in_package(
                    g.modules@,
                    out@[j],
                    name@,
                ),
            forall|x: int|
                0 <= x < w && #[trigger] module_in_package(g.modules@, ModuleId(x as u32), name@)
                    ==> out@.contains(ModuleId(x as u32)),
        decreases n - w,
    {
        let matched = match &g.modules[w].package {
            Some(p) => *p == *name,
            None => false,
        };
        if matched {
            out.push(ModuleId(w as u32));
        }
        w = w + 1;
    }
    out
}

/// Summing sizes over the modules of `ps`'s names equals summing the
/// per-name totals, names being distinct.
proof fn lemma_sum_partition(ms: Seq<Module>, ps: Seq<PackageInfo>)
    requires
        forall|k1: int, k2: int|
            0 <= k1 < k2 < ps.len() ==> (#[trigger] ps[k1]).name@ != (#[trigger] ps[k2]).name@,
        forall|k: int|
            0 <= k < ps.len() ==> (#[trigger] ps[k]).total_reachable_size == pkg_size(
                ms,
                ps[k].name@,
            ),
    ensures
        sum_totals(ps) == cond_weight_upto(
            ms,
            |v: int| in_listed_package(ms, ps, v),
            ms.len() as int,
        ),
    decreases ps,
{
    let n = ms.len() as int;
    if ps.len() == 0 {
        lemma_cond_weight_zero(ms, |v: int| in_listed_package(ms, ps, v), n);
    } else {
        let pre = ps.drop_last();
        lemma_sum_partition(ms, pre);
        let c1 = |v: int| in_listed_package(ms, pre, v);
        let c2 = |v: int| module_in_package(ms, ModuleId(v as u32), ps.last().name@);
        let cor = |v: int| in_listed_package(ms, ps, v);
        assert forall|v: int| 0 <= v < n implies !((#[trigger] c1(v)) && (#[trigger] c2(v))) by {
            if c1(v) && c2(v) {
                let k = choose|k: int|
                    0 <= k < pre.len() && module_in_package(
                        ms,
                        ModuleId(v as u32),
                        (#[trigger] pre[k]).name@,
                    );
                assert(ps[k].name@ == pre[k].name@);
                assert(ps[k].name@ != ps[ps.len() - 1].name@);
            }
        }
        assert forall|v: int| 0 <= v < n implies ((#[trigger] cor(v)) <==> (c1(v) || c2(v))) by {
            if cor(v) {
                let k = choose|k: int|
                    0 <= k < ps.len() && module_in_package(
                        ms,
                        ModuleId(v as u32),
                        (#[trigger] ps[k]).name@,
                    );
                if k < ps.len() - 1 {
                    assert(pre[k].name@ == ps[k].name@);
                    assert(c1(v));
                }
            }
            if c1(v) {
                let k = choose|k: int|
                    0 <= k < pre.len() && module_in_package(
                        ms,
                        ModuleId(v as u32),
                        (#[trigger] pre[k]).name@,
                    );
                assert(ps[k].name@ == pre[k].name@);
                assert(cor(v));
            }
            if c2(v) {
                assert(module_in_package(ms, ModuleId(v as u32), ps[ps.len() - 1].name@));
                assert(cor(v));
            }
        }
        lemma_cond_weight_disjoint(ms, c1, c2, cor, n);
    }
}

proof fn lemma_cond_weight_zero(ms: Seq<Module>, c: spec_fn(int) -> bool, i: int)
    requires
        forall|v: int| 0 <= v < i ==> !(#[trigger] c(v)),
    ensures
        cond_weight_upto(ms, c, i) == 0,
    decreases i,
{
    if i > 0 {
        lemma_cond_weight_zero(ms, c, i - 1);
    }
}

/// Package aggregation: the per-package totals recorded in the package map
/// sum to the total byte size of all modules that carry a package name.
pub proof fn lemma_package_aggregation(g: ModuleGraph)
    requires
        g.wf(),
        package_map_ok(g),
    ensures
        sum_totals(g.package_map@) == packaged_size(g.modules@),
{
    let ms = g.modules@;
    let ps = g.package_map@;
    let n = ms.len() as int;
    lemma_sum_partition(ms, ps);
    assert forall|v: int|
        0 <= v < n implies ((#[trigger] in_listed_package(ms, ps, v)) <==> ms[v].package
        is Some) by {
        if in_listed_package(ms, ps, v) {
            let k = choose|k: int|
                0 <= k < ps.len() && module_in_package(ms, ModuleId(v as u32), (#[trigger] ps[k]).name@);
        }
        if ms[v].package is Some {
            assert(in_listed_package(ms, ps, v));
        }
    }
    lemma_cond_ext(ms, |v: int| in_listed_package(ms, ps, v), |v: int| ms[v].package is Some, n);
}

/// `p` leads from `entry` to a module of package `name` over `Static` edges.
pub open spec fn valid_chain(g: ModuleGraph, entry: ModuleId, name: Seq<char>, p: Seq<ModuleId>) -> bool {
    &&& is_path(g, EdgeFilter::StaticOnly, p)
    &&& p.first() == entry
    &&& module_in_package(g.modules@, p.last(), name)
}

/// The number of unassigned entries of a distance vector.
pub open spec fn count_unassigned(s: Seq<Option<u32>>) -> nat
    decreases s,
{
    if s.len() == 0 {
        0nat
    } else {
        count_unassigned(s.drop_last()) + if s.last() is Some {
            0nat
        } else {
            1nat
        }
    }
}

proof fn lemma_count_unassigned_all_none(s: Seq<Option<u32>>)
    requires
        forall|v: int| 0 <= v < s.len() ==> (#[trigger] s[v]) is None,
    ensures
        count_unassigned(s) == s.len(),
    decreases s,
{
    if s.len() > 0 {
        assert forall|v: int| 0 <= v < s.drop_last().len() implies (#[trigger] s.drop_last()[v])
            is None by {
            assert(s[v] is None);
        }
        lemma_count_unassigned_all_none(s.drop_last());
    }
}

proof fn lemma_count_unassigned_update(s: Seq<Option<u32>>, i: int, x: u32)
    requires
        0 <= i < s.len(),
        s[i] is None,
    ensures
        count_unassigned(s.update(i, Some(x))) == count_unassigned(s) - 1,
    decreases s,
{
    if i == s.len() - 1 {
        assert(s.update(i, Some(x)).drop_last() =~= s.drop_last());
    } else {
        assert(s.update(i, Some(x)).drop_last() =~= s.drop_last().update(i, Some(x)));
        assert(s.drop_last()[i] == s[i]);
        lemma_count_unassigned_update(s.drop_last(), i, x);
        assert(s.update(i, Some(x)).last() == s.last());
    }
}

/// With the start at distance zero and every assigned node's allowed edges
/// leading to nodes assigned at most one step further, every path end is
/// assigned a distance no larger than the path length.
proof fn lemma_bfs_complete(g: ModuleGraph, entry: ModuleId, dist: Seq<Option<u32>>, p: Seq<ModuleId>)
    requires
        g.wf(),
        dist.len() == g.modules@.len(),
        entry.0 < g.modules@.len(),
        dist[entry.0 as int] == Some(0u32),
        is_path(g, EdgeFilter::StaticOnly, p),
        p.first() == entry,
        forall|v: int, e: int|
            #![trigger dist[v], g.edges@[e]]
            0 <= v < dist.len() && dist[v] is Some && edge_allowed(g, EdgeFilter::StaticOnly, e)
                && g.edges@[e].from == ModuleId(v as u32) ==> dist[g.edges@[e].to.0 as int]
                is Some && dist[g.edges@[e].to.0 as int]->0 <= dist[v]->0 + 1,
    ensures
        dist[p.last().0 as int] is Some,
        dist[p.last().0 as int]->0 <= p.len() - 1,
    decreases p.len(),
{
    if p.len() == 1 {
        assert(p.last() == entry);
    } else {
        let q = p.drop_last();
        assert(is_path(g, EdgeFilter::StaticOnly, q)) by {
            assert forall|k: int| 0 <= k < q.len() - 1 implies has_allowed_edge(
                g,
                EdgeFilter::StaticOnly,
                q[k],
                #[trigger] q[k + 1],
            ) by {
                assert(has_allowed_edge(g, EdgeFilter::StaticOnly, p[k], p[k + 1]));
            }
        }
        lemma_bfs_complete(g, entry, dist, q);
        let k = p.len() - 2;
        assert(has_allowed_edge(g, EdgeFilter::StaticOnly, p[k], p[k + 1]));
        let e = choose|e: int|
            edge_allowed(g, EdgeFilter::StaticOnly, e) && (#[trigger] g.edges@[e]).from == p[k]
                && g.edges@[e].to == p[k + 1];
        assert(dist[p[k].0 as int] is Some);
    }
}

/// One shortest chain of `Static` edges from `entry` to any module of
/// package `package`, found by breadth-first search; empty exactly when no
/// module of the package is reachable. A non-empty result is a valid chain
/// of minimal length among all chains from `entry` into the package, and
/// among the equally near package modules it ends at the one with the
/// smallest id.
#[verifier::rlimit(100)]
#[verifier::spinoff_prover]
pub fn find_chain(g: &ModuleGraph, entry: ModuleId, package: &String) -> (r: Vec<ModuleId>)
    requires
        g.wf(),
        entry.0 < g.modules@.len(),
    ensures
        r@.len() == 0 ==> forall|q: Seq<ModuleId>| !valid_chain(*g, entry, package@, q),
        r@.len() > 0 ==> valid_chain(*g, entry, package@, r@) && forall|q: Seq<ModuleId>|
            #[trigger] valid_chain(*g, entry, package@, q) ==> q.len() >= r@.len(),
        r@.len() > 0 ==> forall|q: Seq<ModuleId>|
            #[trigger] valid_chain(*g, entry, package@, q) && q.len() == r@.len()
                ==> r@.last().0 <= q.last().0,
{
    let n = g.modules.len();
    let mut dist: Vec<Option<u32>> = Vec::new();
    let mut pred: Vec<Option<ModuleId>> = Vec::new();
    let mut i: usize = 0;
    while i < n
        invariant
            i <= n,
            dist@.len() == i,
            pred@.len() == i,
            forall|v: int| 0 <= v < i ==> (#[trigger] dist@[v]) is None,
        decreases n - i,
    {
        dist.push(None);
        pred.push(None);
        i = i + 1;
    }
    proof {
        lemma_count_unassigned_all_none(dist@);
        lemma_count_unassigned_update(dist@, entry.0 as int, 0u32);
    }
    dist.set(entry.0 as usize, Some(0));
    let mut frontier: Vec<ModuleId> = Vec::new();
    frontier.push(entry);
    let mut level: u32 = 0;
    let mut assigned: usize = 1;
    while frontier.len() > 0
        invariant
            g.wf(),
            n == g.modules@.len(),
            entry.0 < n,
            dist@.len() == n,
            pred@.len() == n,
            dist@[entry.0 as int] == Some(0u32),
            assigned + count_unassigned(dist@) == n,
            frontier@.len() > 0 ==> (level as int) < assigned,
            // distances are bounded by the current level
            forall|v: int|
                0 <= v < n && (#[trigger] dist@[v]) is Some ==> dist@[v]->0 <= level,
            // only the entry sits at distance zero
            forall|v: int|
                0 <= v < n && #[trigger] dist@[v] == Some(0u32) ==> v == entry.0 as int,
            // predecessor links step back one level along an allowed edge
            forall|v: int|
                0 <= v < n && (#[trigger] dist@[v]) is Some && dist@[v]->0 > 0 ==> {
                    &&& pred@[v] matches Some(u)
                    &&& u.0 < n
                    &&& dist@[u.0 as int] is Some
                    &&& dist@[u.0 as int]->0 + 1 == dist@[v]->0
                    &&& has_allowed_edge(*g, EdgeFilter::StaticOnly, u, ModuleId(v as u32))
                },
            // the frontier is exactly the current level
            forall|j: int|
                0 <= j < frontier@.len() ==> (#[trigger] frontier@[j]).0 < n
                    && dist@[frontier@[j].0 as int] == Some(level),
            forall|v: int|
                0 <= v < n && #[trigger] dist@[v] == Some(level) ==> frontier@.contains(
                    ModuleId(v as u32),
                ),
            // below the current level, allowed edges stay within one step
            forall|v: int, e: int|
                #![trigger dist@[v], g.edges@[e]]
                0 <= v < n && dist@[v] is Some && dist@[v]->0 < level
                    && edge_allowed(*g, EdgeFilter::StaticOnly, e) && g.edges@[e].from == ModuleId(
                    v as u32,
                ) ==> dist@[g.edges@[e].to.0 as int] is Some && dist@[g.edges@[e].to.0 as int]->0
                    <= dist@[v]->0 + 1,
        decreases count_unassigned(dist@), frontier@.len(),
    {
        let mut next: Vec<ModuleId> = Vec::new();
        let ghost pre_dist = dist@;
        let mut fi: usize = 0;
        while fi < frontier.len()
            invariant
                g.wf(),
                n == g.modules@.len(),
                entry.0 < n,
                dist@.len() == n,
                pred@.len() == n,
                dist@[entry.0 as int] == Some(0u32),
                assigned + count_unassigned(dist@) == n,
                (level as int) < assigned,
                fi <= frontier@.len(),
                count_unassigned(dist@) <= count_unassigned(pre_dist),
                (dist@ == pre_dist && next@.len() == 0) || count_unassigned(dist@)
                    < count_unassigned(pre_dist),
                forall|v: int|
                    0 <= v < n && (#[trigger] dist@[v]) is Some ==> dist@[v]->0 <= level + 1,
                forall|v: int|
                    0 <= v < n && #[trigger] dist@[v] == Some(0u32) ==> v == entry.0 as int,
                forall|v: int|
                    0 <= v < n && (#[trigger] dist@[v]) is Some && dist@[v]->0 > 0 ==> {
                        &&& pred@[v] matches Some(u)
                        &&& u.0 < n
                        &&& dist@[u.0 as int] is Some
                        &&& dist@[u.0 as int]->0 + 1 == dist@[v]->0
                        &&& has_allowed_edge(*g, EdgeFilter::StaticOnly, u, ModuleId(v as u32))
                    },
                forall|j: int|
                    0 <= j < frontier@.len() ==> (#[trigger] frontier@[j]).0 < n
                        && dist@[frontier@[j].0 as int] == Some(level),
                forall|v: int|
                    0 <= v < n && #[trigger] dist@[v] == Some(level) ==> frontier@.contains(
                        ModuleId(v as u32),
                    ),
                // the next frontier is exactly the freshly assigned level
                forall|j: int|
                    0 <= j < next@.len() ==> (#[trigger] next@[j]).0 < n
                        && dist@[next@[j].0 as int] == Some((level + 1) as u32),
                forall|v: int|
                    0 <= v < n && #[trigger] dist@[v] == Some((level + 1) as u32)
                        ==> next@.contains(ModuleId(v as u32)),
                forall|v: int, e: int|
                    #![trigger dist@[v], g.edges@[e]]
                    0 <= v < n && dist@[v] is Some && dist@[v]->0 < level
                        && edge_allowed(*g, EdgeFilter::StaticOnly, e) && g.edges@[e].from
                        == ModuleId(v as u32) ==> dist@[g.edges@[e].to.0 as int] is Some
                        && dist@[g.edges@[e].to.0 as int]->0 <= dist@[v]->0 + 1,
                // frontier nodes already handled have their edges settled
                forall|j: int, e: int|
                    #![trigger frontier@[j], g.edges@[e]]
                    0 <= j < fi && edge_allowed(*g, EdgeFilter::StaticOnly, e) && g.edges@[e].from
                        == frontier@[j] ==> dist@[g.edges@[e].to.0 as int] is Some
                        && dist@[g.edges@[e].to.0 as int]->0 <= level + 1,
            decreases frontier@.len() - fi,
        {
            let u = frontier[fi];
            let deg = g.forward_adj[u.0 as usize].len();
            let mut a: usize = 0;
            while a < deg
                invariant
                    g.wf(),
                    n == g.modules@.len(),
                    entry.0 < n,
                    dist@.len() == n,
                    pred@.len() == n,
                    dist@[entry.0 as int] == Some(0u32),
                    assigned + count_unassigned(dist@) == n,
                    (level as int) < assigned,
                    fi < frontier@.len(),
                    u == frontier@[fi as int],
                    u.0 < n,
                    dist@[u.0 as int] == Some(level),
                    deg == g.adj()[u.0 as int].len(),
                    a <= deg,
                    count_unassigned(dist@) <= count_unassigned(pre_dist),
                    (dist@ == pre_dist && next@.len() == 0) || count_unassigned(dist@)
                        < count_unassigned(pre_dist),
                    forall|v: int|
                        0 <= v < n && (#[trigger] dist@[v]) is Some ==> dist@[v]->0 <= level + 1,
                    forall|v: int|
                        0 <= v < n && #[trigger] dist@[v] == Some(0u32) ==> v == entry.0 as int,
                    forall|v: int|
                        0 <= v < n && (#[trigger] dist@[v]) is Some && dist@[v]->0 > 0 ==> {
                            &&& pred@[v] matches Some(uu)
                            &&& uu.0 < n
                            &&& dist@[uu.0 as int] is Some
                            &&& dist@[uu.0 as int]->0 + 1 == dist@[v]->0
                            &&& has_allowed_edge(*g, EdgeFilter::StaticOnly, uu, ModuleId(v as u32))
                        },
                    forall|j: int|
                        0 <= j < frontier@.len() ==> (#[trigger] frontier@[j]).0 < n
                            && dist@[frontier@[j].0 as int] == Some(level),
                    forall|v: int|
                        0 <= v < n && #[trigger] dist@[v] == Some(level) ==> frontier@.contains(
                            ModuleId(v as u32),
                        ),
                    forall|j: int|
                        0 <= j < next@.len() ==> (#[trigger] next@[j]).0 < n
                            && dist@[next@[j].0 as int] == Some((level + 1) as u32),
                    forall|v: int|
                        0 <= v < n && #[trigger] dist@[v] == Some((level + 1) as u32)
                            ==> next@.contains(ModuleId(v as u32)),
                    forall|v: int, e: int|
                        #![trigger dist@[v], g.edges@[e]]
                        0 <= v < n && dist@[v] is Some && dist@[v]->0 < level
                            && edge_allowed(*g, EdgeFilter::StaticOnly, e) && g.edges@[e].from
                            == ModuleId(v as u32) ==> dist@[g.edges@[e].to.0 as int] is Some
                            && dist@[g.edges@[e].to.0 as int]->0 <= dist@[v]->0 + 1,
                    forall|j: int, e: int|
                        #![trigger frontier@[j], g.edges@[e]]
                        0 <= j < fi && edge_allowed(*g, EdgeFilter::StaticOnly, e)
                            && g.edges@[e].from == frontier@[j]
                            ==> dist@[g.edges@[e].to.0 as int] is Some
                            && dist@[g.edges@[e].to.0 as int]->0 <= level + 1,
                    // edges of u handled so far are settled
                    forall|kk: int|
                        0 <= kk < a && edge_allowed(
                            *g,
                            EdgeFilter::StaticOnly,
                            (#[trigger] g.adj()[u.0 as int][kk]).0 as int,
                        ) ==> dist@[g.edges@[g.adj()[u.0 as int][kk].0 as int].to.0 as int]
                            is Some && dist@[g.edges@[g.adj()[u.0 as int][kk].0 as int].to.0 as int]->0
                            <= level + 1,
                decreases deg - a,
            {
                let eid = g.forward_adj[u.0 as usize][a];
                if edge_allowed_exec(g, &EdgeFilter::StaticOnly, eid.0 as usize) {
                    let w = g.edges[eid.0 as usize].to;
                    let unassigned = matches!(dist[w.0 as usize], None);
                    if unassigned {
                        proof {
                            lemma_count_unassigned_update(dist@, w.0 as int, (level + 1) as u32);
                        }
                        dist.set(w.0 as usize, Some(level + 1));
                        pred.set(w.0 as usize, Some(u));
                        next.push(w);
                        assigned = assigned + 1;
                        proof {
                            assert(g.edges@[eid.0 as int].from == u);
                            assert(has_allowed_edge(*g, EdgeFilter::StaticOnly, u, w));
                        }
                    }
                }
                a = a + 1;
            }
            fi = fi + 1;
            proof {
                assert forall|j: int, e: int|
                    #![trigger frontier@[j], g.edges@[e]]
                    0 <= j < fi && edge_allowed(*g, EdgeFilter::StaticOnly, e) && g.edges@[e].from
                        == frontier@[j] implies dist@[g.edges@[e].to.0 as int] is Some
                    && dist@[g.edges@[e].to.0 as int]->0 <= level + 1 by {
                    if j == fi - 1 {
                        assert(g.adj()[u.0 as int].contains(EdgeId(e as u32)));
                        let kk = choose|kk: int|
                            0 <= kk < g.adj()[u.0 as int].len() && g.adj()[u.0 as int][kk]
                                == EdgeId(e as u32);
                        assert(g.adj()[u.0 as int][kk].0 as int == e);
                    }
                }
            }
        }
        proof {
            assert forall|v: int, e: int|
                #![trigger dist@[v], g.edges@[e]]
                0 <= v < n && dist@[v] is Some && dist@[v]->0 < level + 1
                    && edge_allowed(*g, EdgeFilter::StaticOnly, e) && g.edges@[e].from == ModuleId(
                    v as u32,
                ) implies dist@[g.edges@[e].to.0 as int] is Some
                && dist@[g.edges@[e].to.0 as int]->0 <= dist@[v]->0 + 1 by {
                if dist@[v]->0 == level {
                    assert(frontier@.contains(ModuleId(v as u32)));
                    let j = choose|j: int|
                        0 <= j < frontier@.len() && frontier@[j] == ModuleId(v as u32);
                }
            }
        }
        frontier = next;
        level = level + 1;
    }
    // the frontier is empty: every assigned node's allowed edges are settled
    proof {
        assert forall|v: int, e: int|
            #![trigger dist@[v], g.edges@[e]]
            0 <= v < n && dist@[v] is Some && edge_allowed(
                *g,
                EdgeFilter::StaticOnly,
                e,
            ) && g.edges@[e].from == ModuleId(v as u32) implies dist@[g.edges@[e].to.0 as int]
            is Some && dist@[g.edges@[e].to.0 as int]->0 <= dist@[v]->0 + 1 by {
            if dist@[v]->0 == level {
                assert(frontier@.contains(ModuleId(v as u32)));
            }
        }
    }
    // pick the closest module of the package, smallest id on ties
    let mut best: Option<(ModuleId, u32)> = None;
    let mut v: usize = 0;
    while v < n
        invariant
            g.wf(),
            n == g.modules@.len(),
            dist@.len() == n,
            v <= n,
            match best {
                Some(b) => {
                    &&& b.0.0 < n
                    &&& (b.0.0 as int) < v
                    &&& module_in_package(g.modules@, b.0, package@)
                    &&& dist@[b.0.0 as int] == Some(b.1)
                    &&& forall|w: int|
                        0 <= w < v && #[trigger] module_in_package(
                            g.modules@,
                            ModuleId(w as u32),
                            package@,
                        ) && dist@[w] is Some ==> b.1 <= dist@[w]->0 && (dist@[w]->0 == b.1
                            ==> b.0.0 <= w)
                },
                None => forall|w: int|
                    0 <= w < v && #[trigger] module_in_package(
                        g.modules@,
                        ModuleId(w as u32),
                        package@,
                    ) ==> dist@[w] is None,
            },
        decreases n - v,
    {
        let in_pkg = match &g.modules[v].package {
            Some(p) => *p == *package,
            None => false,
        };
        if in_pkg {
            match dist[v] {
                Some(d) => {
                    let better = match &best {
                        Some(b) => d < b.1,
                        None => true,
                    };
                    if better {
                        best = Some((ModuleId(v as u32), d));
                    }
                },
                None => {},
            }
        }
        v = v + 1;
    }
    let (target, target_d) = match best {
        Some(b) => b,
        None => {
            proof {
                assert forall|q: Seq<ModuleId>| !valid_chain(*g, entry, package@, q) by {
                    if valid_chain(*g, entry, package@, q) {
                        lemma_bfs_complete(*g, entry, dist@, q);
                        assert(module_in_package(g.modules@, ModuleId(q.last().0), package@));
                        assert(false);
                    }
                }
            }
            return Vec::new();
        },
    };
    // walk the predecessor links back to the entry
    let mut rev: Vec<ModuleId> = Vec::new();
    rev.push(target);
    let mut cur = target;
    let mut d = target_d;
    while d > 0
        invariant
            g.wf(),
            n == g.modules@.len(),
            dist@.len() == n,
            pred@.len() == n,
            dist@[entry.0 as int] == Some(0u32),
            forall|w: int|
                0 <= w < n && #[trigger] dist@[w] == Some(0u32) ==> w == entry.0 as int,
            forall|w: int|
                0 <= w < n && (#[trigger] dist@[w]) is Some && dist@[w]->0 > 0 ==> {
                    &&& pred@[w] matches Some(uu)
                    &&& uu.0 < n
                    &&& dist@[uu.0 as int] is Some
                    &&& dist@[uu.0 as int]->0 + 1 == dist@[w]->0
                    &&& has_allowed_edge(*g, EdgeFilter::StaticOnly, uu, ModuleId(w as u32))
                },
            cur.0 < n,
            dist@[cur.0 as int] == Some(d),
            d <= target_d,
            rev@.len() == target_d - d + 1,
            rev@[0] == target,
            rev@.last() == cur,
            forall|k: int| 0 <= k < rev@.len() ==> (#[trigger] rev@[k]).0 < n,
            forall|k: int|
                0 <= k < rev@.len() - 1 ==> has_allowed_edge(
                    *g,
                    EdgeFilter::StaticOnly,
                    rev@[k + 1],
                    #[trigger] rev@[k],
                ),
        decreases d,
    {
        let u = match pred[cur.0 as usize] {
            Some(u) => u,
            None => {
                proof {
                    assert(false);
                }
                unreached()
            },
        };
        rev.push(u);
        cur = u;
        d = d - 1;
    }
    proof {
        assert(cur == entry);
    }
    // reverse into entry-first order
    let m = rev.len();
    let mut chain: Vec<ModuleId> = Vec::new();
    let mut idx: usize = 0;
    while idx < m
        invariant
            m == rev@.len(),
            idx <= m,
            chain@.len() == idx,
            forall|k: int| 0 <= k < idx ==> #[trigger] chain@[k] == rev@[m - 1 - k],
        decreases m - idx,
    {
        chain.push(rev[m - 1 - idx]);
        idx = idx + 1;
    }
    proof {
        assert(chain@.len() == target_d + 1);
        assert(chain@.first() == rev@.last());
        assert(chain@.last() == rev@[0]);
        assert(is_path(*g, EdgeFilter::StaticOnly, chain@)) by {
            assert forall|k: int| 0 <= k < chain@.len() - 1 implies has_allowed_edge(
                *g,
                EdgeFilter::StaticOnly,
                chain@[k],
                #[trigger] chain@[k + 1],
            ) by {
                assert(chain@[k] == rev@[m - 1 - k]);
                assert(chain@[k + 1] == rev@[m - 1 - (k + 1)]);
                assert(has_allowed_edge(
                    *g,
                    EdgeFilter::StaticOnly,
                    rev@[(m - 2 - k) + 1],
                    rev@[m - 2 - k],
                ));
            }
        }
        assert(valid_chain(*g, entry, package@, chain@));
        assert forall|q: Seq<ModuleId>| #[trigger]
            valid_chain(*g, entry, package@, q) implies q.len() >= chain@.len() by {
            lemma_bfs_complete(*g, entry, dist@, q);
            assert(module_in_package(g.modules@, ModuleId(q.last().0), package@));
            assert(target_d <= dist@[q.last().0 as int]->0);
        }
        assert forall|q: Seq<ModuleId>|
            #[trigger] valid_chain(*g, entry, package@, q) && q.len() == chain@.len()
                implies chain@.last().0 <= q.last().0 by {
            lemma_bfs_complete(*g, entry, dist@, q);
            assert(module_in_package(g.modules@, ModuleId(q.last().0), package@));
            // the end of any equally short chain sits at the minimal
            // distance, where the scan kept the smallest id
            assert(dist@[q.last().0 as int]->0 <= target_d);
            assert(target_d <= dist@[q.last().0 as int]->0);
            assert(chain@.last() == target);
        }
    }
    chain
}

/// Options of a trace query.
#[derive(Debug, Clone)]
pub struct TraceOptions {
    /// Follow `Dynamic` edges as well as `Static` ones.
    pub include_dynamic: bool,
    /// How many heavy packages to report.
    pub top_n: usize,
}

/// One module with its transitive cost.
#[derive(Debug, Clone, Copy)]
pub struct ModuleCost {
    pub module_id: ModuleId,
    pub transitive_size: u64,
}

/// One package with its weight within the reachable set, and a shortest
/// static chain from the entry into it.
#[derive(Debug)]
pub struct PackageWeight {
    pub name: String,
    pub total_size: u64,
    pub file_count: u32,
    pub chain: Vec<ModuleId>,
}

/// What a trace query returns.
#[derive(Debug)]
pub struct TraceResult {
    /// Total size of the modules reachable over the selected edges.
    pub static_weight: u64,
    pub static_module_count: usize,
    /// Total size of the modules reachable only with `Dynamic` edges; zero
    /// when dynamic edges are already included in the main traversal.
    pub dynamic_only_weight: u64,
    pub dynamic_only_module_count: usize,
    /// The heaviest packages of the reachable set, heaviest first.
    pub heavy_packages: Vec<PackageWeight>,
    /// Every module of the graph with its own transitive cost, heaviest
    /// first; ties broken by module id.
    pub modules_by_cost: Vec<ModuleCost>,
    /// The package names of the reachable set, in first-module order.
    pub packages: Vec<String>,
}

/// The edge filter a trace follows.
pub open spec fn main_filter(opts: TraceOptions) -> EdgeFilter {
    if opts.include_dynamic {
        EdgeFilter::StaticAndDynamic
    } else {
        EdgeFilter::StaticOnly
    }
}

/// Module `v` is reachable only with `Dynamic` edges.
pub open spec fn dyn_only(g: ModuleGraph, entry: ModuleId, v: int) -> bool {
    &&& reachable(g, EdgeFilter::StaticAndDynamic, entry, ModuleId(v as u32))
    &&& !reachable(g, EdgeFilter::StaticOnly, entry, ModuleId(v as u32))
}

/// Total size of the modules reachable only with `Dynamic` edges.
pub open spec fn dyn_only_weight(g: ModuleGraph, entry: ModuleId) -> int {
    cond_weight_upto(g.modules@, |v: int| dyn_only(g, entry, v), g.modules@.len() as int)
}

/// Count of the modules reachable only with `Dynamic` edges.
pub open spec fn dyn_only_count(g: ModuleGraph, entry: ModuleId) -> int {
    cond_count_upto(g.modules@, |v: int| dyn_only(g, entry, v), g.modules@.len() as int)
}

/// Module `v` is in the traversed set and carries package `name`.
pub open spec fn reach_in_package(
    g: ModuleGraph,
    f: EdgeFilter,
    entry: ModuleId,
    name: Seq<char>,
    v: int,
) -> bool {
    &&& reachable(g, f, entry, ModuleId(v as u32))
    &&& module_in_package(g.modules@, ModuleId(v as u32), name)
}

/// Weight of package `name` within the traversed set.
pub open spec fn reach_pkg_weight(g: ModuleGraph, f: EdgeFilter, entry: ModuleId, name: Seq<char>) -> int {
    cond_weight_upto(
        g.modules@,
        |v: int| reach_in_package(g, f, entry, name, v),
        g.modules@.len() as int,
    )
}

/// File count of package `name` within the traversed set.
pub open spec fn reach_pkg_count(g: ModuleGraph, f: EdgeFilter, entry: ModuleId, name: Seq<char>) -> int {
    cond_count_upto(
        g.modules@,
        |v: int| reach_in_package(g, f, entry, name, v),
        g.modules@.len() as int,
    )
}

/// Some traversed module carries package `name`.
pub open spec fn is_reach_pkg(g: ModuleGraph, f: EdgeFilter, entry: ModuleId, name: Seq<char>) -> bool {
    exists|v: int| 0 <= v < g.modules@.len() && reach_in_package(g, f, entry, name, v)
}

/// What the `chain` of a reported package satisfies: empty when no static
/// chain exists, else a valid chain of minimal length.
pub open spec fn chain_spec(g: ModuleGraph, entry: ModuleId, name: Seq<char>, c: Seq<ModuleId>) -> bool {
    &&& (c.len() == 0 ==> forall|q: Seq<ModuleId>| !valid_chain(g, entry, name, q))
    &&& (c.len() > 0 ==> valid_chain(g, entry, name, c) && forall|q: Seq<ModuleId>|
        #[trigger] valid_chain(g, entry, name, q) ==> q.len() >= c.len())
}

/// A name occurs in a list of names.
pub open spec fn contains_name(ps: Seq<String>, name: Seq<char>) -> bool {
    exists|k: int| 0 <= k < ps.len() && (#[trigger] ps[k])@ == name
}

/// What [`trace`] returns, in full.
pub open spec fn trace_result_ok(
    g: ModuleGraph,
    entry: ModuleId,
    opts: TraceOptions,
    r: TraceResult,
) -> bool {
    let f = main_filter(opts);
    &&& r.static_weight == reach_weight(g, f, seq![entry])
    &&& r.static_module_count == reach_count(g, f, seq![entry])
    &&& r.dynamic_only_weight == if opts.include_dynamic {
        0int
    } else {
        dyn_only_weight(g, entry)
    }
    &&& r.dynamic_only_module_count == if opts.include_dynamic {
        0int
    } else {
        dyn_only_count(g, entry)
    }
    // the package list: exactly the packages of the traversed set, no name twice
    &&& forall|k1: int, k2: int|
        0 <= k1 < k2 < r.packages@.len() ==> (#[trigger] r.packages@[k1])@ != (
        #[trigger] r.packages@[k2])@
    &&& forall|k: int|
        0 <= k < r.packages@.len() ==> is_reach_pkg(g, f, entry, (#[trigger] r.packages@[k])@)
    &&& forall|name: Seq<char>|
        #[trigger] is_reach_pkg(g, f, entry, name) ==> contains_name(r.packages@, name)
    // heavy packages: distinct traversed packages with exact weights,
    // heaviest first, cut to the requested count, nothing heavier left out
    &&& r.heavy_packages@.len() <= opts.top_n
    &&& r.heavy_packages@.len() <= r.packages@.len()
    &&& (r.heavy_packages@.len() < opts.top_n ==> r.heavy_packages@.len() == r.packages@.len())
    &&& forall|k1: int, k2: int|
        0 <= k1 < k2 < r.heavy_packages@.len() ==> (#[trigger] r.heavy_packages@[k1]).name@ != (
        #[trigger] r.heavy_packages@[k2]).name@
    &&& forall|k: int|
        0 <= k < r.heavy_packages@.len() ==> {
            let p = #[trigger] r.heavy_packages@[k];
            &&& is_reach_pkg(g, f, entry, p.name@)
            &&& p.total_size == reach_pkg_weight(g, f, entry, p.name@)
            &&& p.file_count == reach_pkg_count(g, f, entry, p.name@)
            &&& chain_spec(g, entry, p.name@, p.chain@)
        }
    &&& forall|k1: int, k2: int|
        0 <= k1 < k2 < r.heavy_packages@.len() ==> (#[trigger] r.heavy_packages@[k1]).total_size
            >= (#[trigger] r.heavy_packages@[k2]).total_size
    &&& forall|k1: int, k2: int|
        0 <= k1 < k2 < r.heavy_packages@.len() && (#[trigger] r.heavy_packages@[k1]).total_size
            == (#[trigger] r.heavy_packages@[k2]).total_size ==> name_pos(
            r.packages@,
            r.heavy_packages@[k1].name@,
        ) < name_pos(r.packages@, r.heavy_packages@[k2].name@)
    &&& forall|name: Seq<char>|
        #[trigger] is_reach_pkg(g, f, entry, name) && (forall|k: int|
            0 <= k < r.heavy_packages@.len() ==> (#[trigger] r.heavy_packages@[k]).name@ != name)
            && r.heavy_packages@.len() > 0 ==> reach_pkg_weight(g, f, entry, name)
            <= r.heavy_packages@[r.heavy_packages@.len() - 1].total_size as int
    // per-module transitive costs: one entry per module, heaviest first,
    // ties by module id
    &&& r.modules_by_cost@.len() == g.modules@.len()
    &&& forall|k: int|
        0 <= k < r.modules_by_cost@.len() ==> {
            let mc = #[trigger] r.modules_by_cost@[k];
            &&& mc.module_id.0 < g.modules@.len()
            &&& mc.transitive_size == reach_weight(g, f, seq![mc.module_id])
        }
    &&& forall|k1: int, k2: int|
        0 <= k1 < k2 < r.modules_by_cost@.len() ==> cost_before(
            #[trigger] r.modules_by_cost@[k1],
            #[trigger] r.modules_by_cost@[k2],
        )
    &&& forall|v: int|
        0 <= v < g.modules@.len() ==> #[trigger] cost_lists_module(r.modules_by_cost@, v)
}

/// The cost listing has an entry for module index `v`.
pub open spec fn cost_lists_module(cs: Seq<ModuleCost>, v: int) -> bool {
    exists|k: int| 0 <= k < cs.len() && (#[trigger] cs[k]).module_id == ModuleId(v as u32)
}

/// Strict order of the cost listing: larger size first, smaller id on ties.
pub open spec fn cost_before(a: ModuleCost, b: ModuleCost) -> bool {
    a.transitive_size > b.transitive_size || (a.transitive_size == b.transitive_size
        && a.module_id.0 < b.module_id.0)
}

/// Reachability from a single start, as a boolean vector.
fn singleton_reach(g: &ModuleGraph, start: ModuleId, f: &EdgeFilter) -> (r: Vec<bool>)
    requires
        g.wf(),
        start.0 < g.modules@.len(),
    ensures
        r@.len() == g.modules@.len(),
        forall|v: int|
            0 <= v < r@.len() ==> (r@[v] <==> reachable(*g, *f, start, ModuleId(v as u32))),
{
    let mut starts: Vec<ModuleId> = Vec::new();
    starts.push(start);
    let r = reachable_set(g, &starts, f);
    proof {
        assert forall|v: int| 0 <= v < r@.len() implies (r@[v] <==> reachable(
            *g,
            *f,
            start,
            ModuleId(v as u32),
        )) by {
            assert(starts@[0] == start);
            if reachable(*g, *f, start, ModuleId(v as u32)) {
                assert(reachable_from_any(*g, *f, starts@, ModuleId(v as u32)));
            }
        }
    }
    r
}

/// Some selected module carries package `name`.
pub open spec fn sel_has_package(ms: Seq<Module>, sel: Seq<bool>, name: Seq<char>) -> bool {
    exists|w: int|
        0 <= w < ms.len() && sel[w] && #[trigger] module_in_package(ms, ModuleId(w as u32), name)
}

/// The distinct package names of the selected modules, in first-module
/// order.
fn collect_packages(g: &ModuleGraph, sel: &Vec<bool>) -> (r: Vec<String>)
    requires
        g.wf(),
        sel@.len() == g.modules@.len(),
    ensures
        forall|k1: int, k2: int|
            0 <= k1 < k2 < r@.len() ==> (#[trigger] r@[k1])@ != (#[trigger] r@[k2])@,
        forall|k: int|
            0 <= k < r@.len() ==> sel_has_package(g.modules@, sel@, (#[trigger] r@[k])@),
        forall|v: int|
            0 <= v < g.modules@.len() && #[trigger] sel@[v] && g.modules@[v].package is Some
                ==> contains_name(r@, g.modules@[v].package->0@),
{
    let n = g.modules.len();
    let mut out: Vec<String> = Vec::new();
    let mut v: usize = 0;
    while v < n
        invariant
            g.wf(),
            n == g.modules@.len(),
            sel@.len() == n,
            v <= n,
            forall|k1: int, k2: int|
                0 <= k1 < k2 < out@.len() ==> (#[trigger] out@[k1])@ != (#[trigger] out@[k2])@,
            forall|k: int|
                0 <= k < out@.len() ==> sel_has_package(g.modules@, sel@, (#[trigger] out@[k])@),
            forall|w: int|
                0 <= w < v && #[trigger] sel@[w] && g.modules@[w].package is Some
                    ==> contains_name(out@, g.modules@[w].package->0@),
        decreases n - v,
    {
        if sel[v] {
            let fresh = match &g.modules[v].package {
                Some(name) => !name_listed(&out, name),
                None => false,
            };
            if fresh {
                let name = match &g.modules[v].package {
                    Some(name) => name.clone(),
                    None => unreached(),
                };
                let ghost pre = out@;
                out.push(name);
                proof {
                    assert(module_in_package(
                        g.modules@,
                        ModuleId(v as u32),
                        out@[out@.len() - 1]@,
                    ));
                    assert(sel_has_package(g.modules@, sel@, out@[out@.len() - 1]@));
                    assert forall|k: int|
                        0 <= k < out@.len() implies sel_has_package(
                        g.modules@,
                        sel@,
                        (#[trigger] out@[k])@,
                    ) by {
                        if k < out@.len() - 1 {
                            assert(out@[k] == pre[k]);
                        }
                    }
                    assert forall|w: int|
                        0 <= w < v + 1 && #[trigger] sel@[w] && g.modules@[w].package is Some
                            implies contains_name(out@, g.modules@[w].package->0@) by {
                        if w < v {
                            let k = choose|k: int|
                                0 <= k < pre.len() && (#[trigger] pre[k])@ == g.modules@[w].package->0@;
                            assert(out@[k]@ == g.modules@[w].package->0@);
                        } else {
                            assert(out@[out@.len() - 1]@ == g.modules@[w].package->0@);
                        }
                    }
                }
            } else {
                proof {
                    if g.modules@[v as int].package is Some {
                        assert(contains_name(out@, g.modules@[v as int].package->0@));
                    }
                }
            }
        }
        v = v + 1;
    }
    out
}

/// Whether a name is already in the list.
fn name_listed(names: &Vec<String>, name: &String) -> (r: bool)
    ensures
        r == contains_name(names@, name@),
{
    let n = names.len();
    let mut k: usize = 0;
    while k < n
        invariant
            n == names@.len(),
            k <= n,
            forall|j: int| 0 <= j < k ==> (#[trigger] names@[j])@ != name@,
        decreases n - k,
    {
        if names[k] == *name {
            return true;
        }
        k = k + 1;
    }
    proof {
        if contains_name(names@, name@) {
            let j = choose|j: int| 0 <= j < names@.len() && (#[trigger] names@[j])@ == name@;
            assert(false);
        }
    }
    false
}

/// Trace the transitive import weight of `entry`: the weight and module
/// count of the traversed set, the weight reachable only through dynamic
/// imports, the packages of the traversed set with the heaviest first, and
/// every module's own transitive cost.
#[verifier::spinoff_prover]
pub fn trace(g: &ModuleGraph, entry: ModuleId, opts: &TraceOptions) -> (r: TraceResult)
    requires
        g.wf(),
        entry.0 < g.modules@.len(),
        total_size(g.modules@) <= u64::MAX,
    ensures
        trace_result_ok(*g, entry, *opts, r),
{
    let n = g.modules.len();
    let f = if opts.include_dynamic {
        EdgeFilter::StaticAndDynamic
    } else {
        EdgeFilter::StaticOnly
    };
    proof {
        assert(f == main_filter(*opts));
    }
    let mut starts: Vec<ModuleId> = Vec::new();
    starts.push(entry);
    proof {
        assert(starts@ =~= seq![entry]);
    }
    let sel_main = reachable_set(g, &starts, &f);
    proof {
        lemma_cond_weight_mono(g.modules@, |v: int| sel_main@[v], |v: int| true, n as int);
        lemma_cond_ext(
            g.modules@,
            |v: int| sel_main@[v],
            |v: int| reachable_from_any(*g, f, starts@, ModuleId(v as u32)),
            n as int,
        );
    }
    let (static_weight, static_module_count) = sum_selected(g, &sel_main);
    // the bucket of modules reachable only through dynamic imports
    let mut dynamic_only_weight: u64 = 0;
    let mut dynamic_only_module_count: usize = 0;
    if !opts.include_dynamic {
        let sel_sd = singleton_reach(g, entry, &EdgeFilter::StaticAndDynamic);
        let sel_s = singleton_reach(g, entry, &EdgeFilter::StaticOnly);
        let mut dyn_sel: Vec<bool> = Vec::new();
        let mut v: usize = 0;
        while v < n
            invariant
                g.wf(),
                n == g.modules@.len(),
                entry.0 < n,
                sel_sd@.len() == n,
                sel_s@.len() == n,
                forall|w: int|
                    0 <= w < n ==> (#[trigger] sel_sd@[w] <==> reachable(
                        *g,
                        EdgeFilter::StaticAndDynamic,
                        entry,
                        ModuleId(w as u32),
                    )),
                forall|w: int|
                    0 <= w < n ==> (#[trigger] sel_s@[w] <==> reachable(
                        *g,
                        EdgeFilter::StaticOnly,
                        entry,
                        ModuleId(w as u32),
                    )),
                v <= n,
                dyn_sel@.len() == v,
                forall|w: int| 0 <= w < v ==> (#[trigger] dyn_sel@[w] <==> dyn_only(*g, entry, w)),
            decreases n - v,
        {
            dyn_sel.push(sel_sd[v] && !sel_s[v]);
            v = v + 1;
        }
        proof {
            lemma_cond_weight_mono(g.modules@, |w: int| dyn_sel@[w], |w: int| true, n as int);
            lemma_cond_ext(
                g.modules@,
                |w: int| dyn_sel@[w],
                |v: int| dyn_only(*g, entry, v),
                n as int,
            );
        }
        let (dw, dc) = sum_selected(g, &dyn_sel);
        dynamic_only_weight = dw;
        dynamic_only_module_count = dc;
    }
    // packages of the traversed set, and their weights
    let packages = collect_packages(g, &sel_main);
    let pn = packages.len();
    let mut pkg_weights: Vec<u64> = Vec::new();
    let mut pkg_counts: Vec<u32> = Vec::new();
    let mut pi: usize = 0;
    while pi < pn
        invariant
            g.wf(),
            n == g.modules@.len(),
            entry.0 < n,
            total_size(g.modules@) <= u64::MAX,
            f == main_filter(*opts),
            sel_main@.len() == n,
            forall|w: int|
                0 <= w < n ==> (#[trigger] sel_main@[w] <==> reachable_from_any(
                    *g,
                    f,
                    starts@,
                    ModuleId(w as u32),
                )),
            starts@ == seq![entry],
            pn == packages@.len(),
            pi <= pn,
            pkg_weights@.len() == pi,
            pkg_counts@.len() == pi,
            forall|k: int|
                0 <= k < pi ==> (#[trigger] pkg_weights@[k]) == reach_pkg_weight(
                    *g,
                    f,
                    entry,
                    packages@[k]@,
                ),
            forall|k: int|
                0 <= k < pi ==> (#[trigger] pkg_counts@[k]) == reach_pkg_count(
                    *g,
                    f,
                    entry,
                    packages@[k]@,
                ),
        decreases pn - pi,
    {
        let name = &packages[pi];
        let mut psel: Vec<bool> = Vec::new();
        let mut v: usize = 0;
        while v < n
            invariant
                g.wf(),
                n == g.modules@.len(),
                entry.0 < n,
                sel_main@.len() == n,
                forall|w: int|
                    0 <= w < n ==> (#[trigger] sel_main@[w] <==> reachable_from_any(
                        *g,
                        f,
                        starts@,
                        ModuleId(w as u32),
                    )),
                starts@ == seq![entry],
                v <= n,
                psel@.len() == v,
                forall|w: int|
                    0 <= w < v ==> (#[trigger] psel@[w] <==> reach_in_package(
                        *g,
                        f,
                        entry,
                        name@,
                        w,
                    )),
            decreases n - v,
        {
            let in_pkg = match &g.modules[v].package {
                Some(p) => *p == *name,
                None => false,
            };
            proof {
                lemma_reach_singleton(*g, f, entry, ModuleId(v as u32));
            }
            psel.push(sel_main[v] && in_pkg);
            v = v + 1;
        }
        proof {
            lemma_cond_weight_mono(g.modules@, |w: int| psel@[w], |w: int| true, n as int);
            lemma_cond_ext(
                g.modules@,
                |w: int| psel@[w],
                |v: int| reach_in_package(*g, f, entry, name@, v),
                n as int,
            );
            lemma_cond_count_bound(g.modules@, |w: int| psel@[w], n as int);
        }
        let (pw, pc) = sum_selected(g, &psel);
        pkg_weights.push(pw);
        pkg_counts.push(pc as u32);
        pi = pi + 1;
    }
    let heavy = select_heavy(g, entry, &f, &packages, &pkg_weights, &pkg_counts, opts.top_n);
    // every module's own transitive cost
    let mut costs: Vec<u64> = Vec::new();
    let mut v: usize = 0;
    while v < n
        invariant
            g.wf(),
            n == g.modules@.len(),
            total_size(g.modules@) <= u64::MAX,
            f == main_filter(*opts),
            v <= n,
            costs@.len() == v,
            forall|w: int|
                0 <= w < v ==> (#[trigger] costs@[w]) == reach_weight(
                    *g,
                    f,
                    seq![ModuleId(w as u32)],
                ),
        decreases n - v,
    {
        let mut vstarts: Vec<ModuleId> = Vec::new();
        vstarts.push(ModuleId(v as u32));
        proof {
            assert(vstarts@ =~= seq![ModuleId(v as u32)]);
        }
        let vsel = reachable_set(g, &vstarts, &f);
        proof {
            lemma_cond_weight_mono(g.modules@, |w: int| vsel@[w], |w: int| true, n as int);
            lemma_cond_ext(
                g.modules@,
                |w: int| vsel@[w],
                |w: int| reachable_from_any(*g, f, vstarts@, ModuleId(w as u32)),
                n as int,
            );
        }
        let (cw, _cc) = sum_selected(g, &vsel);
        costs.push(cw);
        v = v + 1;
    }
    proof {
        assert(costs@.len() <= u32::MAX);
    }
    let modules_by_cost = sort_costs(&costs);
    proof {
        assert forall|name: Seq<char>| #[trigger]
            is_reach_pkg(*g, f, entry, name) implies contains_name(packages@, name) by {
            let w = choose|w: int| 0 <= w < n && reach_in_package(*g, f, entry, name, w);
            lemma_reach_singleton(*g, f, entry, ModuleId(w as u32));
            assert(sel_main@[w]);
        }
        assert forall|k: int| 0 <= k < packages@.len() implies is_reach_pkg(
            *g,
            f,
            entry,
            (#[trigger] packages@[k])@,
        ) by {
            assert(sel_has_package(g.modules@, sel_main@, packages@[k]@));
            let w = choose|w: int|
                0 <= w < n && sel_main@[w] && #[trigger] module_in_package(
                    g.modules@,
                    ModuleId(w as u32),
                    packages@[k]@,
                );
            lemma_reach_singleton(*g, f, entry, ModuleId(w as u32));
            assert(reach_in_package(*g, f, entry, packages@[k]@, w));
        }
    }
    let result = TraceResult {
        static_weight,
        static_module_count,
        dynamic_only_weight,
        dynamic_only_module_count,
        heavy_packages: heavy,
        modules_by_cost,
        packages,
    };
    proof {
        assert forall|name: Seq<char>|
            #[trigger] is_reach_pkg(*g, f, entry, name) && (forall|k: int|
                0 <= k < result.heavy_packages@.len() ==> (
                #[trigger] result.heavy_packages@[k]).name@ != name)
                && result.heavy_packages@.len() > 0 implies reach_pkg_weight(*g, f, entry, name)
            <= result.heavy_packages@[result.heavy_packages@.len() - 1].total_size as int by {
            assert(contains_name(result.packages@, name));
            let j = choose|j: int|
                0 <= j < result.packages@.len() && (#[trigger] result.packages@[j])@ == name;
            assert(pkg_weights@[j] <= result.heavy_packages@[result.heavy_packages@.len()
                - 1].total_size);
        }
    }
    result
}

/// The position of a name in a duplicate-free name list.
pub open spec fn name_pos(ps: Seq<String>, name: Seq<char>) -> int {
    choose|j: int| 0 <= j < ps.len() && (#[trigger] ps[j])@ == name
}

proof fn lemma_name_pos(ps: Seq<String>, j: int)
    requires
        forall|k1: int, k2: int|
            0 <= k1 < k2 < ps.len() ==> (#[trigger] ps[k1])@ != (#[trigger] ps[k2])@,
        0 <= j < ps.len(),
    ensures
        name_pos(ps, ps[j]@) == j,
{
    assert(exists|k: int| 0 <= k < ps.len() && (#[trigger] ps[k])@ == ps[j]@) by {
        assert(0 <= j < ps.len() && ps[j]@ == ps[j]@);
    }
    let k = name_pos(ps, ps[j]@);
    assert(0 <= k < ps.len() && ps[k]@ == ps[j]@);
    if k != j {
        if k < j {
            assert(ps[k]@ != ps[j]@);
        } else {
            assert(ps[j]@ != ps[k]@);
        }
    }
}

/// The heaviest `top_n` of the recorded packages, heaviest first; each
/// entry carries its recorded weight and count and a shortest static chain
/// from the entry into the package. Among equal weights the earlier
/// recorded package comes first.
#[verifier::rlimit(100)]
#[verifier::spinoff_prover]
fn select_heavy(
    g: &ModuleGraph,
    entry: ModuleId,
    f: &EdgeFilter,
    packages: &Vec<String>,
    pkg_weights: &Vec<u64>,
    pkg_counts: &Vec<u32>,
    top_n: usize,
) -> (heavy: Vec<PackageWeight>)
    requires
        g.wf(),
        entry.0 < g.modules@.len(),
        pkg_weights@.len() == packages@.len(),
        pkg_counts@.len() == packages@.len(),
        forall|k1: int, k2: int|
            0 <= k1 < k2 < packages@.len() ==> (#[trigger] packages@[k1])@ != (
            #[trigger] packages@[k2])@,
        forall|j: int|
            0 <= j < packages@.len() ==> (#[trigger] pkg_weights@[j]) == reach_pkg_weight(
                *g,
                *f,
                entry,
                packages@[j]@,
            ),
        forall|j: int|
            0 <= j < packages@.len() ==> (#[trigger] pkg_counts@[j]) == reach_pkg_count(
                *g,
                *f,
                entry,
                packages@[j]@,
            ),
    ensures
        heavy@.len() <= top_n,
        heavy@.len() <= packages@.len(),
        heavy@.len() < top_n ==> heavy@.len() == packages@.len(),
        forall|k1: int, k2: int|
            0 <= k1 < k2 < heavy@.len() ==> (#[trigger] heavy@[k1]).name@ != (
            #[trigger] heavy@[k2]).name@,
        forall|k: int|
            0 <= k < heavy@.len() ==> {
                let p = #[trigger] heavy@[k];
                &&& contains_name(packages@, p.name@)
                &&& p.total_size == reach_pkg_weight(*g, *f, entry, p.name@)
                &&& p.file_count == reach_pkg_count(*g, *f, entry, p.name@)
                &&& chain_spec(*g, entry, p.name@, p.chain@)
            },
        forall|k1: int, k2: int|
            0 <= k1 < k2 < heavy@.len() ==> (#[trigger] heavy@[k1]).total_size >= (
            #[trigger] heavy@[k2]).total_size,
        forall|k1: int, k2: int|
            0 <= k1 < k2 < heavy@.len() && (#[trigger] heavy@[k1]).total_size == (
            #[trigger] heavy@[k2]).total_size ==> name_pos(packages@, heavy@[k1].name@)
                < name_pos(packages@, heavy@[k2].name@),
        forall|j: int|
            0 <= j < packages@.len() && (forall|a: int|
                0 <= a < heavy@.len() ==> (#[trigger] heavy@[a]).name@ != (
                #[trigger] packages@[j])@) && heavy@.len() > 0 ==> pkg_weights@[j]
                <= heavy@[heavy@.len() - 1].total_size,
{
    let pn = packages.len();
    let keep = if top_n < pn {
        top_n
    } else {
        pn
    };
    let mut used: Vec<bool> = Vec::new();
    let mut k: usize = 0;
    while k < pn
        invariant
            k <= pn,
            used@.len() == k,
            forall|j: int| 0 <= j < k ==> !(#[trigger] used@[j]),
        decreases pn - k,
    {
        used.push(false);
        k = k + 1;
    }
    let mut heavy: Vec<PackageWeight> = Vec::new();
    let mut picked: usize = 0;
    while picked < keep
        invariant
            g.wf(),
            entry.0 < g.modules@.len(),
            pn == packages@.len(),
            pkg_weights@.len() == pn,
            pkg_counts@.len() == pn,
            used@.len() == pn,
            keep <= pn,
            keep <= top_n,
            forall|k1: int, k2: int|
                0 <= k1 < k2 < pn ==> (#[trigger] packages@[k1])@ != (#[trigger] packages@[k2])@,
            forall|j: int|
                0 <= j < pn ==> (#[trigger] pkg_weights@[j]) == reach_pkg_weight(
                    *g,
                    *f,
                    entry,
                    packages@[j]@,
                ),
            forall|j: int|
                0 <= j < pn ==> (#[trigger] pkg_counts@[j]) == reach_pkg_count(
                    *g,
                    *f,
                    entry,
                    packages@[j]@,
                ),
            picked <= keep,
            heavy@.len() == picked,
            forall|a1: int, a2: int|
                0 <= a1 < a2 < picked ==> (#[trigger] heavy@[a1]).name@ != (
                #[trigger] heavy@[a2]).name@,
            forall|a: int|
                0 <= a < picked ==> exists|j: int|
                    0 <= j < pn && #[trigger] used@[j] && (#[trigger] heavy@[a]).name@
                        == packages@[j]@,
            forall|a: int|
                0 <= a < picked ==> {
                    let p = #[trigger] heavy@[a];
                    &&& contains_name(packages@, p.name@)
                    &&& p.total_size == reach_pkg_weight(*g, *f, entry, p.name@)
                    &&& p.file_count == reach_pkg_count(*g, *f, entry, p.name@)
                    &&& chain_spec(*g, entry, p.name@, p.chain@)
                },
            forall|j: int|
                0 <= j < pn ==> ((#[trigger] used@[j]) <==> exists|a: int|
                    0 <= a < picked && (#[trigger] heavy@[a]).name@ == packages@[j]@),
            forall|a1: int, a2: int|
                0 <= a1 < a2 < picked ==> (#[trigger] heavy@[a1]).total_size >= (
                #[trigger] heavy@[a2]).total_size,
            forall|a1: int, a2: int|
                0 <= a1 < a2 < picked && (#[trigger] heavy@[a1]).total_size == (
                #[trigger] heavy@[a2]).total_size ==> name_pos(packages@, heavy@[a1].name@)
                    < name_pos(packages@, heavy@[a2].name@),
            forall|a: int, j: int|
                #![trigger heavy@[a], used@[j]]
                0 <= a < picked && 0 <= j < pn && !used@[j] ==> heavy@[a].total_size
                    > pkg_weights@[j] || (heavy@[a].total_size == pkg_weights@[j] && name_pos(
                    packages@,
                    heavy@[a].name@,
                ) < j),
            forall|j: int|
                0 <= j < pn && !(#[trigger] used@[j]) && picked > 0 ==> pkg_weights@[j]
                    <= heavy@[picked - 1].total_size,
        decreases keep - picked,
    {
        let mut best: usize = 0;
        let mut found = false;
        let mut j: usize = 0;
        while j < pn
            invariant
                pn == packages@.len(),
                pkg_weights@.len() == pn,
                used@.len() == pn,
                j <= pn,
                found ==> best < j && best < pn && !used@[best as int],
                found ==> forall|x: int|
                    0 <= x < j && !(#[trigger] used@[x]) ==> pkg_weights@[x]
                        <= pkg_weights@[best as int] && (pkg_weights@[x]
                        == pkg_weights@[best as int] && x != best ==> (best as int) < x),
                !found ==> forall|x: int| 0 <= x < j ==> (#[trigger] used@[x]),
            decreases pn - j,
        {
            if !used[j] {
                if !found || pkg_weights[j] > pkg_weights[best] {
                    best = j;
                    found = true;
                }
            }
            j = j + 1;
        }
        if !found {
            // every package would already be reported, yet picked < keep <= pn
            proof {
                lemma_count_used_full(used@, pn as int);
                lemma_used_picked(used@, heavy@, packages@, picked as int, pn as int);
                assert(false);
            }
        }
        let name_ref = &packages[best];
        let chain = find_chain(g, entry, name_ref);
        let ghost pre_heavy = heavy@;
        heavy.push(
            PackageWeight {
                name: name_ref.clone(),
                total_size: pkg_weights[best],
                file_count: pkg_counts[best],
                chain,
            },
        );
        let ghost pre_used = used@;
        used.set(best, true);
        picked = picked + 1;
        proof {
            assert(contains_name(packages@, heavy@[picked - 1].name@));
            lemma_name_pos(packages@, best as int);
            assert(name_pos(packages@, heavy@[picked - 1].name@) == best as int);
            assert forall|a: int|
                0 <= a < picked - 1 implies name_pos(packages@, (#[trigger] heavy@[a]).name@)
                == name_pos(packages@, pre_heavy[a].name@) by {
                assert(heavy@[a] == pre_heavy[a]);
            }
            assert forall|a1: int, a2: int|
                0 <= a1 < a2 < picked implies (#[trigger] heavy@[a1]).name@ != (
            #[trigger] heavy@[a2]).name@ by {
                if a2 == picked - 1 {
                    assert(heavy@[a1] == pre_heavy[a1]);
                    let j2 = choose|j2: int|
                        0 <= j2 < pn && #[trigger] pre_used[j2] && (#[trigger] pre_heavy[a1]).name@
                            == packages@[j2]@;
                    assert(j2 != best as int);
                    if heavy@[a1].name@ == heavy@[a2].name@ {
                        assert(packages@[j2]@ == packages@[best as int]@);
                    }
                }
            }
            assert forall|j2: int|
                0 <= j2 < pn implies ((#[trigger] used@[j2]) <==> exists|a: int|
                0 <= a < picked && (#[trigger] heavy@[a]).name@ == packages@[j2]@) by {
                if used@[j2] {
                    if j2 == best as int {
                        assert(heavy@[picked - 1].name@ == packages@[j2]@);
                    } else {
                        assert(pre_used[j2]);
                        let a = choose|a: int|
                            0 <= a < picked - 1 && (#[trigger] pre_heavy[a]).name@
                                == packages@[j2]@;
                        assert(heavy@[a].name@ == packages@[j2]@);
                    }
                }
                if exists|a: int| 0 <= a < picked && (#[trigger] heavy@[a]).name@ == packages@[j2]@ {
                    let a = choose|a: int|
                        0 <= a < picked && (#[trigger] heavy@[a]).name@ == packages@[j2]@;
                    if a < picked - 1 {
                        assert(pre_heavy[a].name@ == packages@[j2]@);
                        assert(pre_used[j2]);
                        assert(used@[j2]);
                    } else {
                        assert(packages@[j2]@ == packages@[best as int]@);
                        assert(j2 == best as int);
                    }
                }
            }
            assert forall|a: int|
                0 <= a < picked implies exists|j2: int|
                0 <= j2 < pn && #[trigger] used@[j2] && (#[trigger] heavy@[a]).name@
                    == packages@[j2]@ by {
                if a < picked - 1 {
                    let j2 = choose|j2: int|
                        0 <= j2 < pn && #[trigger] pre_used[j2] && (#[trigger] pre_heavy[a]).name@
                            == packages@[j2]@;
                    assert(used@[j2] && heavy@[a].name@ == packages@[j2]@);
                } else {
                    assert(used@[best as int] && heavy@[a].name@ == packages@[best as int]@);
                }
            }
        }
    }
    proof {
        assert forall|j: int|
            0 <= j < packages@.len() && (forall|a: int|
                0 <= a < heavy@.len() ==> (#[trigger] heavy@[a]).name@ != (
                #[trigger] packages@[j])@) && heavy@.len() > 0 implies pkg_weights@[j]
            <= heavy@[heavy@.len() - 1].total_size by {
            assert(!used@[j]);
        }
    }
    heavy
}

/// Pair each module id with its cost and order the listing heaviest first,
/// ties by module id.
#[verifier::rlimit(100)]
#[verifier::spinoff_prover]
fn sort_costs(costs: &Vec<u64>) -> (r: Vec<ModuleCost>)
    requires
        costs@.len() <= u32::MAX,
    ensures
        r@.len() == costs@.len(),
        forall|k: int|
            0 <= k < r@.len() ==> (#[trigger] r@[k]).module_id.0 < costs@.len()
                && r@[k].transitive_size == costs@[r@[k].module_id.0 as int],
        forall|k1: int, k2: int|
            0 <= k1 < k2 < r@.len() ==> cost_before(#[trigger] r@[k1], #[trigger] r@[k2]),
        forall|v: int| 0 <= v < costs@.len() ==> #[trigger] cost_lists_module(r@, v),
{
    let n = costs.len();
    let mut cused: Vec<bool> = Vec::new();
    let mut k2: usize = 0;
    while k2 < n
        invariant
            k2 <= n,
            cused@.len() == k2,
            forall|j: int| 0 <= j < k2 ==> !(#[trigger] cused@[j]),
        decreases n - k2,
    {
        cused.push(false);
        k2 = k2 + 1;
    }
    proof {
        lemma_count_used_none(cused@, n as int);
    }
    let mut out: Vec<ModuleCost> = Vec::new();
    let mut picked: usize = 0;
    while picked < n
        invariant
            n == costs@.len(),
            n <= u32::MAX,
            cused@.len() == n,
            picked <= n,
            out@.len() == picked,
            count_used_below(cused@, n as int) == picked,
            forall|a: int|
                0 <= a < picked ==> {
                    let mc = #[trigger] out@[a];
                    &&& mc.module_id.0 < n
                    &&& cused@[mc.module_id.0 as int]
                    &&& mc.transitive_size == costs@[mc.module_id.0 as int]
                },
            forall|w: int|
                0 <= w < n ==> ((#[trigger] cused@[w]) <==> cost_lists_module(out@, w)),
            forall|a1: int, a2: int|
                0 <= a1 < a2 < picked ==> cost_before(#[trigger] out@[a1], #[trigger] out@[a2]),
            forall|a: int, w: int|
                #![trigger out@[a], cused@[w]]
                0 <= a < picked && 0 <= w < n && !cused@[w] ==> cost_before(
                    out@[a],
                    ModuleCost { module_id: ModuleId(w as u32), transitive_size: costs@[w] },
                ),
        decreases n - picked,
    {
        let mut best: usize = 0;
        let mut found = false;
        let mut w: usize = 0;
        while w < n
            invariant
                n == costs@.len(),
                n <= u32::MAX,
                cused@.len() == n,
                w <= n,
                found ==> best < w && best < n && !cused@[best as int],
                found ==> forall|x: int|
                    0 <= x < w && !(#[trigger] cused@[x]) && x != best ==> cost_before(
                        ModuleCost {
                            module_id: ModuleId(best as u32),
                            transitive_size: costs@[best as int],
                        },
                        ModuleCost { module_id: ModuleId(x as u32), transitive_size: costs@[x] },
                    ),
                !found ==> forall|x: int| 0 <= x < w ==> (#[trigger] cused@[x]),
            decreases n - w,
        {
            if !cused[w] {
                let ghost old_best = best as int;
                let ghost was_found = found;
                let take = !found || costs[w] > costs[best];
                if take {
                    best = w;
                    found = true;
                    proof {
                        if was_found {
                            assert forall|x: int|
                                0 <= x < w + 1 && !(#[trigger] cused@[x]) && x != best as int
                                    implies cost_before(
                                ModuleCost {
                                    module_id: ModuleId(best as u32),
                                    transitive_size: costs@[best as int],
                                },
                                ModuleCost {
                                    module_id: ModuleId(x as u32),
                                    transitive_size: costs@[x],
                                },
                            ) by {
                                if x != old_best && x < w {
                                    assert(cost_before(
                                        ModuleCost {
                                            module_id: ModuleId(old_best as u32),
                                            transitive_size: costs@[old_best],
                                        },
                                        ModuleCost {
                                            module_id: ModuleId(x as u32),
                                            transitive_size: costs@[x],
                                        },
                                    ));
                                }
                            }
                        }
                    }
                } else {
                    proof {
                        // the scan keeps the earlier index on equal costs
                        assert(costs@[w as int] <= costs@[best as int]);
                        assert((best as int) < w);
                    }
                }
            }
            w = w + 1;
        }
        if !found {
            proof {
                lemma_count_used_full(cused@, n as int);
                assert(false);
            }
        }
        let ghost pre_out = out@;
        let ghost pre_cused = cused@;
        out.push(ModuleCost { module_id: ModuleId(best as u32), transitive_size: costs[best] });
        proof {
            lemma_count_used_set(cused@, best as int, n as int);
        }
        cused.set(best, true);
        picked = picked + 1;
        proof {
            assert forall|w2: int|
                0 <= w2 < n implies ((#[trigger] cused@[w2]) <==> cost_lists_module(out@, w2)) by {
                if cused@[w2] {
                    if w2 == best as int {
                        assert(out@[picked - 1].module_id == ModuleId(w2 as u32));
                    } else {
                        assert(pre_cused[w2]);
                        assert(cost_lists_module(pre_out, w2));
                        let a = choose|a: int|
                            0 <= a < pre_out.len() && (#[trigger] pre_out[a]).module_id == ModuleId(
                                w2 as u32,
                            );
                        assert(out@[a].module_id == ModuleId(w2 as u32));
                    }
                }
                if cost_lists_module(out@, w2) {
                    let a = choose|a: int|
                        0 <= a < out@.len() && (#[trigger] out@[a]).module_id == ModuleId(
                            w2 as u32,
                        );
                    if a < picked - 1 {
                        assert(pre_out[a].module_id == ModuleId(w2 as u32));
                        assert(cost_lists_module(pre_out, w2));
                        assert(pre_cused[w2]);
                        assert(cused@[w2]);
                    } else {
                        assert(w2 == best as int);
                    }
                }
            }
        }
    }
    proof {
        assert forall|v: int| 0 <= v < n implies #[trigger] cost_lists_module(out@, v) by {
            lemma_count_used_all(cused@, n as int);
            assert(cused@[v]);
        }
    }
    out
}

proof fn lemma_count_used_none(s: Seq<bool>, i: int)
    requires
        0 <= i <= s.len(),
        forall|j: int| 0 <= j < i ==> !(#[trigger] s[j]),
    ensures
        count_used_below(s, i) == 0,
    decreases i,
{
    if i > 0 {
        lemma_count_used_none(s, i - 1);
    }
}

proof fn lemma_count_used_set(s: Seq<bool>, w: int, i: int)
    requires
        0 <= w < i <= s.len(),
        !s[w],
    ensures
        count_used_below(s.update(w, true), i) == count_used_below(s, i) + 1,
    decreases i,
{
    if i > 0 {
        if w == i - 1 {
            lemma_count_used_same(s, s.update(w, true), i - 1);
        } else {
            lemma_count_used_set(s, w, i - 1);
        }
    }
}

proof fn lemma_count_used_same(s1: Seq<bool>, s2: Seq<bool>, i: int)
    requires
        0 <= i <= s1.len(),
        i <= s2.len(),
        forall|j: int| 0 <= j < i ==> s1[j] == s2[j],
    ensures
        count_used_below(s1, i) == count_used_below(s2, i),
    decreases i,
{
    if i > 0 {
        lemma_count_used_same(s1, s2, i - 1);
    }
}

/// A vector whose used count reaches its length is all used.
proof fn lemma_count_used_all(s: Seq<bool>, i: int)
    requires
        0 <= i <= s.len(),
        count_used_below(s, i) == i,
    ensures
        forall|j: int| 0 <= j < i ==> (#[trigger] s[j]),
    decreases i,
{
    if i > 0 {
        lemma_count_used_bound(s, i - 1);
        lemma_count_used_all(s, i - 1);
    }
}

proof fn lemma_count_used_bound(s: Seq<bool>, i: int)
    requires
        0 <= i <= s.len(),
    ensures
        0 <= count_used_below(s, i) <= i,
    decreases i,
{
    if i > 0 {
        lemma_count_used_bound(s, i - 1);
    }
}

/// Entries marked used below `i`.
pub open spec fn count_used_below(s: Seq<bool>, i: int) -> int
    decreases i,
{
    if i <= 0 {
        0
    } else {
        count_used_below(s, i - 1) + if s[i - 1] {
            1int
        } else {
            0int
        }
    }
}

proof fn lemma_count_used_full(s: Seq<bool>, i: int)
    requires
        0 <= i <= s.len(),
        forall|j: int| 0 <= j < i ==> (#[trigger] s[j]),
    ensures
        count_used_below(s, i) == i,
    decreases i,
{
    if i > 0 {
        lemma_count_used_full(s, i - 1);
    }
}

/// If every used entry is matched by a report entry with its name, distinct
/// names cap the used count by the report length.
proof fn lemma_used_picked(
    used: Seq<bool>,
    heavy: Seq<PackageWeight>,
    packages: Seq<String>,
    picked: int,
    i: int,
)
    requires
        used.len() == packages.len(),
        heavy.len() == picked,
        0 <= i <= packages.len(),
        forall|k1: int, k2: int|
            0 <= k1 < k2 < packages.len() ==> (#[trigger] packages[k1])@ != (
            #[trigger] packages[k2])@,
        forall|j: int|
            0 <= j < packages.len() ==> ((#[trigger] used[j]) <==> exists|a: int|
                0 <= a < picked && (#[trigger] heavy[a]).name@ == packages[j]@),
    ensures
        count_used_below(used, i) <= picked,
{
    lemma_used_injective(used, heavy, packages, picked, i, Set::<int>::empty());
}

/// Helper: walking down the used entries collects distinct report indices.
proof fn lemma_used_injective(
    used: Seq<bool>,
    heavy: Seq<PackageWeight>,
    packages: Seq<String>,
    picked: int,
    i: int,
    taken: Set<int>,
)
    requires
        used.len() == packages.len(),
        heavy.len() == picked,
        0 <= i <= packages.len(),
        taken.finite(),
        taken.subset_of(Set::new(|a: int| 0 <= a < picked)),
        // names of taken report entries do not name packages below i
        forall|a: int, j: int|
            taken.contains(a) && 0 <= j < i ==> (#[trigger] heavy[a]).name@ != (
            #[trigger] packages[j])@,
        forall|k1: int, k2: int|
            0 <= k1 < k2 < packages.len() ==> (#[trigger] packages[k1])@ != (
            #[trigger] packages[k2])@,
        forall|j: int|
            0 <= j < packages.len() ==> ((#[trigger] used[j]) <==> exists|a: int|
                0 <= a < picked && (#[trigger] heavy[a]).name@ == packages[j]@),
    ensures
        count_used_below(used, i) + taken.len() <= picked,
    decreases i,
{
    if i == 0 {
        lemma_taken_card(taken, picked);
    } else {
        if used[i - 1] {
            let a = choose|a: int|
                0 <= a < picked && (#[trigger] heavy[a]).name@ == packages[i - 1]@;
            assert(!taken.contains(a));
            let taken2 = taken.insert(a);
            assert forall|a2: int, j: int|
                taken2.contains(a2) && 0 <= j < i - 1 implies (#[trigger] heavy[a2]).name@ != (
            #[trigger] packages[j])@ by {
                if a2 == a {
                    assert(packages[j]@ != packages[i - 1]@);
                }
            }
            lemma_used_injective(used, heavy, packages, picked, i - 1, taken2);
            assert(taken2.len() == taken.len() + 1);
        } else {
            lemma_used_injective(used, heavy, packages, picked, i - 1, taken);
        }
    }
}

proof fn lemma_taken_card(taken: Set<int>, picked: int)
    requires
        taken.finite(),
        0 <= picked,
        taken.subset_of(Set::new(|a: int| 0 <= a < picked)),
    ensures
        taken.len() <= picked,
{
    lemma_int_range_card(picked);
    vstd::set_lib::lemma_len_subset(taken, Set::new(|a: int| 0 <= a < picked));
}

proof fn lemma_int_range_card(m: int)
    requires
        0 <= m,
    ensures
        Set::new(|a: int| 0 <= a < m).finite(),
        Set::new(|a: int| 0 <= a < m).len() == m,
    decreases m,
{
    if m == 0 {
        assert(Set::new(|a: int| 0 <= a < 0) =~= Set::<int>::empty());
    } else {
        lemma_int_range_card(m - 1);
        assert(Set::new(|a: int| 0 <= a < m) =~= Set::new(|a: int| 0 <= a < m - 1).insert(m - 1));
    }
}

/// `q` completes prefix `p` into a chain of exactly `target_len` modules:
/// a static path starting with `p` whose last module carries the package.
pub open spec fn chain_completes(
    g: ModuleGraph,
    name: Seq<char>,
    target_len: int,
    p: Seq<ModuleId>,
    q: Seq<ModuleId>,
) -> bool {
    &&& is_path(g, EdgeFilter::StaticOnly, q)
    &&& q.len() == target_len
    &&& q.take(p.len() as int) == p
    &&& module_in_package(g.modules@, q.last(), name)
}

/// The collected chains hold one whose modules are exactly `q`.
pub open spec fn chains_contain(out: Seq<Vec<ModuleId>>, q: Seq<ModuleId>) -> bool {
    exists|k: int| 0 <= k < out.len() && (#[trigger] out[k])@ == q
}

/// The static edges at the first `a` adjacency entries of `last` include
/// one to `w`.
pub open spec fn child_processed(g: ModuleGraph, last: ModuleId, a: int, w: ModuleId) -> bool {
    exists|kk: int|
        0 <= kk < a && edge_allowed(
            g,
            EdgeFilter::StaticOnly,
            (#[trigger] g.adj()[last.0 as int][kk]).0 as int,
        ) && g.edges@[g.adj()[last.0 as int][kk].0 as int].to == w
}

/// All shortest chains from `entry` into package `package`, found by a
/// depth-first search pruned at the minimal length, children in adjacency
/// (insertion) order. The result holds exactly the valid chains of minimal
/// length: each entry is one, each such chain appears, no chain twice, and
/// the result is empty exactly when no chain exists.
pub fn find_all_chains(g: &ModuleGraph, entry: ModuleId, package: &String) -> (r: Vec<
    Vec<ModuleId>,
>)
    requires
        g.wf(),
        entry.0 < g.modules@.len(),
    ensures
        forall|k: int|
            0 <= k < r@.len() ==> valid_chain(*g, entry, package@, (#[trigger] r@[k])@) && (
            forall|q: Seq<ModuleId>|
                #[trigger] valid_chain(*g, entry, package@, q) ==> q.len() >= r@[k]@.len()),
        (exists|q: Seq<ModuleId>| valid_chain(*g, entry, package@, q)) <==> r@.len() > 0,
        forall|k1: int, k2: int|
            0 <= k1 < k2 < r@.len() ==> (#[trigger] r@[k1])@ != (#[trigger] r@[k2])@,
        r@.len() > 0 ==> forall|q: Seq<ModuleId>|
            #[trigger] valid_chain(*g, entry, package@, q) && q.len() == r@[0]@.len()
                ==> chains_contain(r@, q),
{
    let first = find_chain(g, entry, package);
    if first.len() == 0 {
        proof {
            assert forall|q: Seq<ModuleId>| !valid_chain(*g, entry, package@, q) by {}
        }
        return Vec::new();
    }
    let target_len = first.len();
    let mut path: Vec<ModuleId> = Vec::new();
    path.push(entry);
    let mut out: Vec<Vec<ModuleId>> = Vec::new();
    proof {
        assert(path@ =~= seq![entry]);
        assert(is_path(*g, EdgeFilter::StaticOnly, path@));
    }
    dfs_chains(g, package, target_len, &mut path, &mut out);
    proof {
        let pfx = seq![entry];
        // every minimal valid chain completes the one-module prefix
        assert forall|q: Seq<ModuleId>|
            #[trigger] valid_chain(*g, entry, package@, q) && q.len() == target_len
                implies chains_contain(out@, q) by {
            assert(q.take(1) =~= pfx);
            assert(chain_completes(*g, package@, target_len as int, pfx, q));
        }
        // so the one find_chain returned is among them
        assert(valid_chain(*g, entry, package@, first@));
        assert(chains_contain(out@, first@));
        // and every collected chain is a minimal valid chain
        assert forall|k: int|
            0 <= k < out@.len() implies valid_chain(*g, entry, package@, (#[trigger] out@[k])@)
            && (forall|q: Seq<ModuleId>|
            #[trigger] valid_chain(*g, entry, package@, q) ==> q.len() >= out@[k]@.len()) by {
            assert(chain_completes(*g, package@, target_len as int, pfx, out@[k]@));
            assert(out@[k]@[0] == pfx[0]) by {
                assert(out@[k]@.take(1)[0] == out@[k]@[0]);
            }
            assert(out@[k]@.first() == entry);
        }
        assert(out@.len() > 0);
        assert(out@[0]@.len() == target_len);
    }
    out
}

/// Extend `path` in all ways along static edges up to the minimal chain
/// length, collecting every completion that ends in the package: each once,
/// and nothing else.
#[verifier::spinoff_prover]
#[verifier::rlimit(100)]
fn dfs_chains(
    g: &ModuleGraph,
    package: &String,
    target_len: usize,
    path: &mut Vec<ModuleId>,
    out: &mut Vec<Vec<ModuleId>>,
)
    requires
        g.wf(),
        is_path(*g, EdgeFilter::StaticOnly, old(path)@),
        1 <= old(path)@.len() <= target_len,
    ensures
        final(path)@ == old(path)@,
        old(out)@.len() <= final(out)@.len(),
        forall|k: int| 0 <= k < old(out)@.len() ==> final(out)@[k] == old(out)@[k],
        forall|k: int|
            old(out)@.len() <= k < final(out)@.len() ==> chain_completes(
                *g,
                package@,
                target_len as int,
                old(path)@,
                (#[trigger] final(out)@[k])@,
            ),
        forall|q: Seq<ModuleId>|
            #[trigger] chain_completes(*g, package@, target_len as int, old(path)@, q)
                ==> chains_contain(final(out)@, q),
        forall|k1: int, k2: int|
            old(out)@.len() <= k1 < k2 < final(out)@.len() ==> (#[trigger] final(out)@[k1])@ != (
            #[trigger] final(out)@[k2])@,
    decreases target_len - old(path)@.len(),
{
    let plen = path.len();
    if plen == target_len {
        let last = path[plen - 1];
        let in_pkg = match &g.modules[last.0 as usize].package {
            Some(p) => *p == *package,
            None => false,
        };
        if in_pkg {
            let copy = clone_ids(path);
            proof {
                assert(path@.take(plen as int) =~= path@);
                assert(chain_completes(*g, package@, target_len as int, path@, copy@));
            }
            out.push(copy);
            proof {
                assert forall|q: Seq<ModuleId>|
                    #[trigger] chain_completes(*g, package@, target_len as int, old(path)@, q)
                        implies chains_contain(out@, q) by {
                    assert(q.take(target_len as int) =~= q);
                    assert(out@[out@.len() - 1]@ == q);
                }
            }
        } else {
            proof {
                assert forall|q: Seq<ModuleId>|
                    #[trigger] chain_completes(*g, package@, target_len as int, old(path)@, q)
                        implies chains_contain(out@, q) by {
                    assert(q.take(target_len as int) =~= q);
                    assert(q.last() == path@.last());
                    assert(false);
                }
            }
        }
        return;
    }
    let last = path[plen - 1];
    let deg = g.forward_adj[last.0 as usize].len();
    let ghost base = out@.len() as int;
    let mut a: usize = 0;
    while a < deg
        invariant
            g.wf(),
            is_path(*g, EdgeFilter::StaticOnly, path@),
            1 <= path@.len() < target_len,
            target_len <= usize::MAX,
            plen == path@.len(),
            path@ == old(path)@,
            last == path@.last(),
            last.0 < g.modules@.len(),
            deg == g.adj()[last.0 as int].len(),
            a <= deg,
            base == old(out)@.len(),
            base <= out@.len(),
            forall|k: int| 0 <= k < base ==> out@[k] == old(out)@[k],
            forall|k: int|
                base <= k < out@.len() ==> chain_completes(
                    *g,
                    package@,
                    target_len as int,
                    path@,
                    (#[trigger] out@[k])@,
                ) && child_processed(*g, last, a as int, out@[k]@[plen as int]),
            forall|q: Seq<ModuleId>|
                #[trigger] chain_completes(*g, package@, target_len as int, path@, q)
                    && child_processed(*g, last, a as int, q[plen as int]) ==> chains_contain(
                    out@,
                    q,
                ),
            forall|k1: int, k2: int|
                base <= k1 < k2 < out@.len() ==> (#[trigger] out@[k1])@ != (#[trigger] out@[k2])@,
        decreases deg - a,
    {
        let eid = g.forward_adj[last.0 as usize][a];
        let is_static = matches!(g.edges[eid.0 as usize].kind, EdgeKind::Static);
        if is_static {
            let w = g.edges[eid.0 as usize].to;
            let ghost pre = path@;
            let ghost pre_out = out@;
            let ghost mid = out@.len() as int;
            path.push(w);
            proof {
                assert(edge_allowed(*g, EdgeFilter::StaticOnly, eid.0 as int));
                assert(g.edges@[eid.0 as int].from == last);
                assert(has_allowed_edge(*g, EdgeFilter::StaticOnly, last, w));
                assert(is_path(*g, EdgeFilter::StaticOnly, path@)) by {
                    assert forall|k: int| 0 <= k < path@.len() - 1 implies has_allowed_edge(
                        *g,
                        EdgeFilter::StaticOnly,
                        path@[k],
                        #[trigger] path@[k + 1],
                    ) by {
                        if k < pre.len() - 1 {
                            assert(path@[k] == pre[k] && path@[k + 1] == pre[k + 1]);
                            assert(has_allowed_edge(*g, EdgeFilter::StaticOnly, pre[k], pre[k + 1]));
                        }
                    }
                }
            }
            dfs_chains(g, package, target_len, path, out);
            let popped = path.pop();
            proof {
                assert(path@ =~= pre);
                let ext = pre.push(w);
                // entries of this branch complete `path` one step further,
                // through the child processed at this adjacency position
                assert forall|k: int|
                    base <= k < out@.len() implies chain_completes(
                    *g,
                    package@,
                    target_len as int,
                    path@,
                    (#[trigger] out@[k])@,
                ) && child_processed(*g, last, a + 1, out@[k]@[plen as int]) by {
                    if k < mid {
                        let kk = choose|kk: int|
                            0 <= kk < a && edge_allowed(
                                *g,
                                EdgeFilter::StaticOnly,
                                (#[trigger] g.adj()[last.0 as int][kk]).0 as int,
                            ) && g.edges@[g.adj()[last.0 as int][kk].0 as int].to
                                == out@[k]@[plen as int];
                        assert(child_processed(*g, last, a + 1, out@[k]@[plen as int]));
                    } else {
                        assert(chain_completes(*g, package@, target_len as int, ext, out@[k]@));
                        assert(out@[k]@.take(plen as int) =~= out@[k]@.take(plen + 1).take(
                            plen as int,
                        ));
                        assert(out@[k]@.take(plen + 1) == ext);
                        assert(ext.take(plen as int) =~= pre);
                        assert(out@[k]@[plen as int] == ext[plen as int]);
                        assert(ext[plen as int] == w);
                        assert(g.adj()[last.0 as int][a as int] == eid);
                        assert(child_processed(*g, last, a + 1, w));
                    }
                }
                assert forall|q: Seq<ModuleId>|
                    #[trigger] chain_completes(*g, package@, target_len as int, path@, q)
                        && child_processed(*g, last, a + 1, q[plen as int]) implies chains_contain(
                    out@,
                    q,
                ) by {
                    let kk = choose|kk: int|
                        0 <= kk < a + 1 && edge_allowed(
                            *g,
                            EdgeFilter::StaticOnly,
                            (#[trigger] g.adj()[last.0 as int][kk]).0 as int,
                        ) && g.edges@[g.adj()[last.0 as int][kk].0 as int].to == q[plen as int];
                    if kk < a {
                        assert(child_processed(*g, last, a as int, q[plen as int]));
                        assert(chains_contain(pre_out, q));
                        let ki = choose|ki: int|
                            0 <= ki < pre_out.len() && (#[trigger] pre_out[ki])@ == q;
                        assert(out@[ki] == pre_out[ki]);
                        assert(chains_contain(out@, q));
                    } else {
                        // the child at this position is `w`: the completion
                        // extends the longer prefix and the recursion found it
                        let e2 = g.adj()[last.0 as int][a as int].0 as int;
                        assert(q[plen as int] == g.edges@[e2].to);
                        assert(q.take(plen + 1) =~= ext) by {
                            assert forall|x: int| 0 <= x < plen + 1 implies q.take(plen + 1)[x]
                                == ext[x] by {
                                if x < plen {
                                    assert(q.take(plen as int)[x] == q[x]);
                                    assert(pre[x] == q[x]);
                                }
                            }
                        }
                        assert(chain_completes(*g, package@, target_len as int, ext, q));
                    }
                }
                // entries of different branches part at this position
                assert forall|k1: int, k2: int|
                    base <= k1 < k2 < out@.len() implies (#[trigger] out@[k1])@ != (
                #[trigger] out@[k2])@ by {
                    if k1 < mid && mid <= k2 {
                        if out@[k1]@ == out@[k2]@ {
                            let kk = choose|kk: int|
                                0 <= kk < a && edge_allowed(
                                    *g,
                                    EdgeFilter::StaticOnly,
                                    (#[trigger] g.adj()[last.0 as int][kk]).0 as int,
                                ) && g.edges@[g.adj()[last.0 as int][kk].0 as int].to
                                    == out@[k1]@[plen as int];
                            let e1 = g.adj()[last.0 as int][kk].0 as int;
                            let e2 = g.adj()[last.0 as int][a as int].0 as int;
                            assert(out@[k2]@.take(plen + 1) == pre.push(w));
                            assert(out@[k2]@[plen as int] == pre.push(w)[plen as int]) by {
                                assert(out@[k2]@.take(plen + 1)[plen as int]
                                    == out@[k2]@[plen as int]);
                            }
                            assert(g.edges@[e1].to == w);
                            assert(g.adj()[last.0 as int][kk] != g.adj()[last.0 as int][a as int]);
                            assert(e1 != e2);
                            assert(g.edges@[e1].from == ModuleId(last.0) && g.edges@[e2].from
                                == ModuleId(last.0));
                            assert(g.edges@[e1].kind is Static && g.edges@[e2].kind is Static);
                            assert(false);
                        }
                    }
                }
            }
        } else {
            proof {
                assert(!edge_allowed(*g, EdgeFilter::StaticOnly, eid.0 as int));
                assert forall|q: Seq<ModuleId>|
                    #[trigger] chain_completes(*g, package@, target_len as int, path@, q)
                        && child_processed(*g, last, a + 1, q[plen as int]) implies chains_contain(
                    out@,
                    q,
                ) by {
                    let kk = choose|kk: int|
                        0 <= kk < a + 1 && edge_allowed(
                            *g,
                            EdgeFilter::StaticOnly,
                            (#[trigger] g.adj()[last.0 as int][kk]).0 as int,
                        ) && g.edges@[g.adj()[last.0 as int][kk].0 as int].to == q[plen as int];
                    assert(g.adj()[last.0 as int][a as int] == eid);
                    assert(kk < a);
                }
            }
        }
        a = a + 1;
    }
    proof {
        // every completion continues through some static edge of `last`,
        // and the loop processed them all
        assert forall|q: Seq<ModuleId>|
            #[trigger] chain_completes(*g, package@, target_len as int, old(path)@, q)
                implies chains_contain(out@, q) by {
            assert(q[plen - 1] == path@[plen - 1]) by {
                assert(q.take(plen as int)[plen - 1] == q[plen - 1]);
            }
            let ghost ki = plen - 1;
            assert(0 <= ki < q.len() - 1);
            assert(has_allowed_edge(*g, EdgeFilter::StaticOnly, q[ki], q[ki + 1]));
            assert(has_allowed_edge(*g, EdgeFilter::StaticOnly, q[plen - 1], q[plen as int]));
            let e = choose|e: int|
                edge_allowed(*g, EdgeFilter::StaticOnly, e) && (#[trigger] g.edges@[e]).from
                    == q[plen - 1] && g.edges@[e].to == q[plen as int];
            assert(g.adj()[last.0 as int].contains(EdgeId(e as u32)));
            let kk = choose|kk: int|
                0 <= kk < g.adj()[last.0 as int].len() && g.adj()[last.0 as int][kk] == EdgeId(
                    e as u32,
                );
            assert(g.adj()[last.0 as int][kk].0 as int == e);
            assert(child_processed(*g, last, deg as int, q[plen as int]));
        }
    }
}

/// A copy of a chain of module ids.
fn clone_ids(v: &Vec<ModuleId>) -> (r: Vec<ModuleId>)
    ensures
        r@ == v@,
{
    let n = v.len();
    let mut out: Vec<ModuleId> = Vec::new();
    let mut i: usize = 0;
    while i < n
        invariant
            n == v@.len(),
            i <= n,
            out@ =~= v@.take(i as int),
        decreases n - i,
    {
        out.push(v[i]);
        proof {
            assert(out@ =~= v@.take(i + 1));
        }
        i = i + 1;
    }
    proof {
        assert(v@.take(n as int) =~= v@);
    }
    out
}

/// What comparing two traces yields.
#[derive(Debug)]
pub struct DiffResult {
    pub entry_a_weight: u64,
    pub entry_b_weight: u64,
    /// Second weight minus first, signed.
    pub weight_delta: i128,
    pub only_in_a: Vec<String>,
    pub only_in_b: Vec<String>,
    pub shared_packages: Vec<String>,
}

/// Strict lexicographic order on names, by character code.
pub open spec fn lex_lt(a: Seq<char>, b: Seq<char>) -> bool
    decreases a.len(),
{
    if b.len() == 0 {
        false
    } else if a.len() == 0 {
        true
    } else if (a[0] as u32) < (b[0] as u32) {
        true
    } else if (b[0] as u32) < (a[0] as u32) {
        false
    } else {
        lex_lt(a.drop_first(), b.drop_first())
    }
}

proof fn lemma_lex_total(a: Seq<char>, b: Seq<char>)
    requires
        a != b,
    ensures
        lex_lt(a, b) || lex_lt(b, a),
    decreases a.len(),
{
    if b.len() == 0 {
        if a.len() == 0 {
            assert(a =~= b);
        }
    } else if a.len() == 0 {
    } else if (a[0] as u32) < (b[0] as u32) {
    } else if (b[0] as u32) < (a[0] as u32) {
    } else {
        vstd::utf8::char_u32_cast(a[0], a[0] as u32);
        vstd::utf8::char_u32_cast(b[0], b[0] as u32);
        assert(a[0] == b[0]);
        assert(a.drop_first() != b.drop_first()) by {
            if a.drop_first() == b.drop_first() {
                assert(a.drop_first() =~= a.subrange(1, a.len() as int));
                assert(b.drop_first() =~= b.subrange(1, b.len() as int));
                assert(a.len() == b.len());
                assert forall|k: int| 0 <= k < a.len() implies a[k] == b[k] by {
                    if k > 0 {
                        assert(a.drop_first()[k - 1] == a[k]);
                        assert(b.drop_first()[k - 1] == b[k]);
                    }
                }
                assert(a =~= b);
            }
        }
        lemma_lex_total(a.drop_first(), b.drop_first());
    }
}

proof fn lemma_lex_trans(a: Seq<char>, b: Seq<char>, c: Seq<char>)
    requires
        lex_lt(a, b),
        lex_lt(b, c),
    ensures
        lex_lt(a, c),
    decreases a.len(),
{
    if c.len() == 0 {
    } else if a.len() == 0 {
    } else if b.len() == 0 {
    } else if (a[0] as u32) < (b[0] as u32) {
    } else if (a[0] as u32) == (b[0] as u32) {
        if (b[0] as u32) < (c[0] as u32) {
        } else {
            lemma_lex_trans(a.drop_first(), b.drop_first(), c.drop_first());
        }
    }
}

/// Strict lexicographic comparison, by character code.
fn lex_lt_exec(a: &String, b: &String) -> (r: bool)
    ensures
        r == lex_lt(a@, b@),
{
    let an = a.as_str().unicode_len();
    let bn = b.as_str().unicode_len();
    proof {
        assert(a@.skip(0) =~= a@);
        assert(b@.skip(0) =~= b@);
    }
    let mut i: usize = 0;
    loop
        invariant
            an == a@.len(),
            bn == b@.len(),
            i <= an,
            i <= bn,
            lex_lt(a@, b@) == lex_lt(a@.skip(i as int), b@.skip(i as int)),
        decreases an - i,
    {
        if i >= bn {
            proof {
                assert(b@.skip(i as int).len() == 0);
            }
            return false;
        }
        if i >= an {
            proof {
                assert(a@.skip(i as int).len() == 0);
            }
            return true;
        }
        let ca = a.as_str().get_char(i) as u32;
        let cb = b.as_str().get_char(i) as u32;
        proof {
            assert(a@.skip(i as int)[0] == a@[i as int]);
            assert(b@.skip(i as int)[0] == b@[i as int]);
            assert(a@.skip(i as int).drop_first() =~= a@.skip(i + 1));
            assert(b@.skip(i as int).drop_first() =~= b@.skip(i + 1));
        }
        if ca < cb {
            return true;
        }
        if cb < ca {
            return false;
        }
        i = i + 1;
    }
}

/// Compare two traces: both weights, the signed delta, and the package
/// names only in the first, only in the second, and in both — each list
/// sorted and duplicate-free.
pub fn diff_traces(a: &TraceResult, b: &TraceResult) -> (r: DiffResult)
    requires
        forall|k1: int, k2: int|
            0 <= k1 < k2 < a.packages@.len() ==> (#[trigger] a.packages@[k1])@ != (
            #[trigger] a.packages@[k2])@,
        forall|k1: int, k2: int|
            0 <= k1 < k2 < b.packages@.len() ==> (#[trigger] b.packages@[k1])@ != (
            #[trigger] b.packages@[k2])@,
    ensures
        r.entry_a_weight == a.static_weight,
        r.entry_b_weight == b.static_weight,
        r.weight_delta == b.static_weight as int - a.static_weight as int,
        forall|name: Seq<char>|
            #[trigger] contains_name(r.only_in_a@, name) <==> (contains_name(a.packages@, name)
                && !contains_name(b.packages@, name)),
        forall|name: Seq<char>|
            #[trigger] contains_name(r.only_in_b@, name) <==> (contains_name(b.packages@, name)
                && !contains_name(a.packages@, name)),
        forall|name: Seq<char>|
            #[trigger] contains_name(r.shared_packages@, name) <==> (contains_name(
                a.packages@,
                name,
            ) && contains_name(b.packages@, name)),
        sorted_names(r.only_in_a@),
        sorted_names(r.only_in_b@),
        sorted_names(r.shared_packages@),
{
    let only_a_raw = filter_names(&a.packages, &b.packages, false);
    let only_b_raw = filter_names(&b.packages, &a.packages, false);
    let shared_raw = filter_names(&a.packages, &b.packages, true);
    let only_in_a = sort_names(only_a_raw);
    let only_in_b = sort_names(only_b_raw);
    let shared_packages = sort_names(shared_raw);
    let weight_delta: i128 = b.static_weight as i128 - a.static_weight as i128;
    DiffResult {
        entry_a_weight: a.static_weight,
        entry_b_weight: b.static_weight,
        weight_delta,
        only_in_a,
        only_in_b,
        shared_packages,
    }
}

/// Strictly ascending name lists (hence duplicate-free).
pub open spec fn sorted_names(v: Seq<String>) -> bool {
    forall|k1: int, k2: int|
        0 <= k1 < k2 < v.len() ==> lex_lt((#[trigger] v[k1])@, (#[trigger] v[k2])@)
}

/// `name` is one of the first `bound` names of `src` whose membership in
/// `other` matches `keep`.
pub open spec fn filtered_from(
    src: Seq<String>,
    other: Seq<String>,
    keep: bool,
    bound: int,
    name: Seq<char>,
) -> bool {
    exists|j: int|
        0 <= j < bound && name == (#[trigger] src[j])@ && contains_name(other, src[j]@) == keep
}

proof fn lemma_filtered_widen(
    src: Seq<String>,
    other: Seq<String>,
    keep: bool,
    bound: int,
    name: Seq<char>,
)
    requires
        filtered_from(src, other, keep, bound, name),
    ensures
        filtered_from(src, other, keep, bound + 1, name),
{
    let j = choose|j: int|
        0 <= j < bound && name == (#[trigger] src[j])@ && contains_name(other, src[j]@) == keep;
    assert(0 <= j < bound + 1 && name == src[j]@ && contains_name(other, src[j]@) == keep);
}

/// The names of `src` that are (or, with `keep_common` false, are not)
/// also in `other`, in order.
#[verifier::spinoff_prover]
fn filter_names(src: &Vec<String>, other: &Vec<String>, keep_common: bool) -> (r: Vec<String>)
    requires
        forall|k1: int, k2: int|
            0 <= k1 < k2 < src@.len() ==> (#[trigger] src@[k1])@ != (#[trigger] src@[k2])@,
    ensures
        forall|k1: int, k2: int|
            0 <= k1 < k2 < r@.len() ==> (#[trigger] r@[k1])@ != (#[trigger] r@[k2])@,
        forall|name: Seq<char>|
            #[trigger] contains_name(r@, name) <==> (contains_name(src@, name) && contains_name(
                other@,
                name,
            ) == keep_common),
{
    let n = src.len();
    let mut out: Vec<String> = Vec::new();
    let mut i: usize = 0;
    while i < n
        invariant
            n == src@.len(),
            i <= n,
            forall|k1: int, k2: int|
                0 <= k1 < k2 < src@.len() ==> (#[trigger] src@[k1])@ != (#[trigger] src@[k2])@,
            forall|k1: int, k2: int|
                0 <= k1 < k2 < out@.len() ==> (#[trigger] out@[k1])@ != (#[trigger] out@[k2])@,
            forall|k: int|
                0 <= k < out@.len() ==> #[trigger] filtered_from(
                    src@,
                    other@,
                    keep_common,
                    i as int,
                    out@[k]@,
                ),
            forall|j: int|
                0 <= j < i && contains_name(other@, (#[trigger] src@[j])@) == keep_common
                    ==> contains_name(out@, src@[j]@),
        decreases n - i,
    {
        let name = &src[i];
        let in_other = name_listed(other, name);
        if in_other == keep_common {
            let ghost pre = out@;
            out.push(name.clone());
            proof {
                assert(out@[out@.len() - 1]@ == src@[i as int]@);
                assert forall|k: int|
                    0 <= k < out@.len() implies #[trigger] filtered_from(
                    src@,
                    other@,
                    keep_common,
                    i + 1,
                    out@[k]@,
                ) by {
                    if k < out@.len() - 1 {
                        assert(out@[k]@ == pre[k]@);
                        lemma_filtered_widen(src@, other@, keep_common, i as int, pre[k]@);
                    } else {
                        assert(0 <= i < i + 1 && out@[k]@ == src@[i as int]@ && contains_name(
                            other@,
                            src@[i as int]@,
                        ) == keep_common);
                    }
                }
                assert forall|k1: int, k2: int|
                    0 <= k1 < k2 < out@.len() implies (#[trigger] out@[k1])@ != (
                #[trigger] out@[k2])@ by {
                    if k2 == out@.len() - 1 {
                        assert(filtered_from(src@, other@, keep_common, i as int, pre[k1]@));
                        let j = choose|j: int|
                            0 <= j < i && pre[k1]@ == (#[trigger] src@[j])@ && contains_name(
                                other@,
                                src@[j]@,
                            ) == keep_common;
                        assert(out@[k1]@ == src@[j]@);
                        assert(src@[j]@ != src@[i as int]@);
                    }
                }
                assert forall|j: int|
                    0 <= j < i + 1 && contains_name(other@, (#[trigger] src@[j])@) == keep_common
                        implies contains_name(out@, src@[j]@) by {
                    if j < i {
                        let k = choose|k: int|
                            0 <= k < pre.len() && (#[trigger] pre[k])@ == src@[j]@;
                        assert(out@[k]@ == src@[j]@);
                    } else {
                        assert(out@[out@.len() - 1]@ == src@[j]@);
                    }
                }
            }
        } else {
            proof {
                if contains_name(other@, src@[i as int]@) == keep_common {
                    assert(false);
                }
                assert forall|k: int|
                    0 <= k < out@.len() implies #[trigger] filtered_from(
                    src@,
                    other@,
                    keep_common,
                    i + 1,
                    out@[k]@,
                ) by {
                    lemma_filtered_widen(src@, other@, keep_common, i as int, out@[k]@);
                }
            }
        }
        i = i + 1;
    }
    proof {
        assert forall|name: Seq<char>| #[trigger]
            contains_name(out@, name) implies (contains_name(src@, name) && contains_name(
            other@,
            name,
        ) == keep_common) by {
            let k = choose|k: int| 0 <= k < out@.len() && (#[trigger] out@[k])@ == name;
            assert(filtered_from(src@, other@, keep_common, n as int, out@[k]@));
            let j = choose|j: int|
                0 <= j < n && out@[k]@ == (#[trigger] src@[j])@ && contains_name(
                    other@,
                    src@[j]@,
                ) == keep_common;
            assert(src@[j]@ == name);
        }
        assert forall|name: Seq<char>|
            contains_name(src@, name) && contains_name(other@, name)
                == keep_common implies #[trigger] contains_name(out@, name) by {
            let j = choose|j: int| 0 <= j < src@.len() && (#[trigger] src@[j])@ == name;
        }
    }
    out
}

/// Sort distinct names ascending.
#[verifier::spinoff_prover]
fn sort_names(src: Vec<String>) -> (r: Vec<String>)
    requires
        forall|k1: int, k2: int|
            0 <= k1 < k2 < src@.len() ==> (#[trigger] src@[k1])@ != (#[trigger] src@[k2])@,
    ensures
        sorted_names(r@),
        forall|name: Seq<char>|
            #[trigger] contains_name(r@, name) <==> contains_name(src@, name),
{
    let n = src.len();
    let mut used: Vec<bool> = Vec::new();
    let mut k: usize = 0;
    while k < n
        invariant
            k <= n,
            used@.len() == k,
            forall|j: int| 0 <= j < k ==> !(#[trigger] used@[j]),
        decreases n - k,
    {
        used.push(false);
        k = k + 1;
    }
    proof {
        lemma_count_used_none(used@, n as int);
    }
    let mut out: Vec<String> = Vec::new();
    let mut picked: usize = 0;
    while picked < n
        invariant
            n == src@.len(),
            used@.len() == n,
            picked <= n,
            out@.len() == picked,
            count_used_below(used@, n as int) == picked,
            forall|k1: int, k2: int|
                0 <= k1 < k2 < src@.len() ==> (#[trigger] src@[k1])@ != (#[trigger] src@[k2])@,
            forall|a: int|
                0 <= a < picked ==> exists|j: int|
                    0 <= j < n && #[trigger] used@[j] && (#[trigger] out@[a])@ == src@[j]@,
            forall|j: int|
                0 <= j < n ==> ((#[trigger] used@[j]) <==> contains_name(out@, src@[j]@)),
            sorted_names(out@),
            forall|a: int, j: int|
                #![trigger out@[a], used@[j]]
                0 <= a < picked && 0 <= j < n && !used@[j] ==> lex_lt(out@[a]@, src@[j]@),
        decreases n - picked,
    {
        let mut best: usize = 0;
        let mut found = false;
        let mut j: usize = 0;
        while j < n
            invariant
                n == src@.len(),
                used@.len() == n,
                j <= n,
                forall|k1: int, k2: int|
                    0 <= k1 < k2 < src@.len() ==> (#[trigger] src@[k1])@ != (
                    #[trigger] src@[k2])@,
                found ==> best < j && best < n && !used@[best as int],
                found ==> forall|x: int|
                    0 <= x < j && !(#[trigger] used@[x]) && x != best ==> lex_lt(
                        src@[best as int]@,
                        src@[x]@,
                    ),
                !found ==> forall|x: int| 0 <= x < j ==> (#[trigger] used@[x]),
            decreases n - j,
        {
            if !used[j] {
                let ghost old_best = best as int;
                let ghost was_found = found;
                let take = if !found {
                    true
                } else {
                    lex_lt_exec(&src[j], &src[best])
                };
                if take {
                    best = j;
                    found = true;
                    proof {
                        if was_found {
                            assert forall|x: int|
                                0 <= x < j + 1 && !(#[trigger] used@[x]) && x != best as int
                                    implies lex_lt(src@[best as int]@, src@[x]@) by {
                                if x != old_best && x < j {
                                    lemma_lex_trans(
                                        src@[best as int]@,
                                        src@[old_best]@,
                                        src@[x]@,
                                    );
                                }
                            }
                        }
                    }
                } else {
                    proof {
                        assert(src@[best as int]@ != src@[j as int]@);
                        lemma_lex_total(src@[best as int]@, src@[j as int]@);
                    }
                }
            }
            j = j + 1;
        }
        if !found {
            proof {
                lemma_count_used_full(used@, n as int);
                assert(false);
            }
        }
        let ghost pre_out = out@;
        let ghost pre_used = used@;
        out.push(src[best].clone());
        proof {
            lemma_count_used_set(used@, best as int, n as int);
        }
        used.set(best, true);
        picked = picked + 1;
        proof {
            assert(out@[picked - 1]@ == src@[best as int]@);
            assert forall|j2: int|
                0 <= j2 < n implies ((#[trigger] used@[j2]) <==> contains_name(out@, src@[j2]@))
                by {
                if used@[j2] {
                    if j2 == best as int {
                        assert(out@[picked - 1]@ == src@[j2]@);
                    } else {
                        assert(pre_used[j2]);
                        assert(contains_name(pre_out, src@[j2]@));
                        let k2 = choose|k2: int|
                            0 <= k2 < pre_out.len() && (#[trigger] pre_out[k2])@ == src@[j2]@;
                        assert(out@[k2]@ == src@[j2]@);
                    }
                }
                if contains_name(out@, src@[j2]@) {
                    let k2 = choose|k2: int|
                        0 <= k2 < out@.len() && (#[trigger] out@[k2])@ == src@[j2]@;
                    if k2 < picked - 1 {
                        assert(pre_out[k2]@ == src@[j2]@);
                        assert(contains_name(pre_out, src@[j2]@));
                        assert(pre_used[j2]);
                        assert(used@[j2]);
                    } else {
                        assert(src@[j2]@ == src@[best as int]@);
                        assert(j2 == best as int);
                    }
                }
            }
            assert forall|a: int|
                0 <= a < picked implies exists|j2: int|
                0 <= j2 < n && #[trigger] used@[j2] && (#[trigger] out@[a])@ == src@[j2]@ by {
                if a < picked - 1 {
                    let j2 = choose|j2: int|
                        0 <= j2 < n && #[trigger] pre_used[j2] && (#[trigger] pre_out[a])@
                            == src@[j2]@;
                    assert(used@[j2] && out@[a]@ == src@[j2]@);
                } else {
                    assert(used@[best as int] && out@[a]@ == src@[best as int]@);
                }
            }
        }
    }
    proof {
        assert forall|name: Seq<char>| #[trigger]
            contains_name(out@, name) implies contains_name(src@, name) by {
            let a = choose|a: int| 0 <= a < out@.len() && (#[trigger] out@[a])@ == name;
            let j = choose|j: int|
                0 <= j < n && #[trigger] used@[j] && (#[trigger] out@[a])@ == src@[j]@;
        }
        assert forall|name: Seq<char>|
            contains_name(src@, name) implies #[trigger] contains_name(out@, name) by {
            let j = choose|j: int| 0 <= j < src@.len() && (#[trigger] src@[j])@ == name;
            lemma_count_used_all(used@, n as int);
            assert(used@[j]);
        }
    }
    out
}

} // verus!
