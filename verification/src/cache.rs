//! Persistent two-tier parse cache.
//!
//! Tier 2 caches one parse per file, keyed by path and guarded by the file's
//! (mtime, size) stamp at insertion time. Tier 1 caches one whole graph,
//! valid only while the entry matches, every recorded file stamp is
//! unchanged, and no previously-unresolved specifier has started to resolve.
//!
//! File stamps are observations: callers read them from the filesystem and
//! pass them in as plain values, so every decision made here is verified.
//! Serialization of [`CacheEnvelope`] to and from the on-disk cache file is
//! the caller's business; [`ParseCache::from_envelope`] applies the version
//! gate to whatever was read.

use vstd::prelude::*;

use crate::extract::{ParseResult, ParseResultV};
use crate::graph::{Module, ModuleGraph};

verus! {

/// Version of the serialized envelope. Loaders discard an envelope with any
/// other version; bump this whenever a cached shape changes.
pub const CACHE_VERSION: u32 = 4;

/// An (mtime, size) stamp of a file, in nanoseconds since the epoch.
#[derive(Clone, Copy, Debug, PartialEq, Eq, Structural)]
pub struct FileStamp {
    pub mtime_nanos: u128,
    pub size: u64,
}

/// Tier-2 entry: one file's parse, guarded by its stamp, with the
/// resolution of each of its imports cached alongside.
#[derive(Debug)]
pub struct CachedParse {
    pub stamp: FileStamp,
    pub result: ParseResult,
    /// Resolved target path per import of `result.imports`, parallel to it.
    pub resolved: Vec<Option<String>>,
}

/// A tier-2 entry as a mathematical value.
#[verifier::ext_equal]
pub ghost struct CachedParseV {
    pub stamp: FileStamp,
    pub result: ParseResultV,
    pub resolved: Seq<Option<String>>,
}

impl View for CachedParse {
    type V = CachedParseV;

    open spec fn view(&self) -> CachedParseV {
        CachedParseV { stamp: self.stamp, result: self.result@, resolved: self.resolved@ }
    }
}

/// Tier-1 entry: a whole graph snapshot for one entry point.
#[derive(Debug)]
pub struct CachedGraph {
    pub entry: String,
    pub graph: ModuleGraph,
    /// Stamp of every module file at snapshot time.
    pub file_mtimes: Vec<(String, FileStamp)>,
    /// Specifiers that failed to resolve at snapshot time.
    pub unresolved_specifiers: Vec<String>,
    pub unresolvable_dynamic: usize,
}

/// What the cache file holds.
#[derive(Debug)]
pub struct CacheEnvelope {
    pub version: u32,
    pub parse_entries: Vec<(String, CachedParse)>,
    pub graph_cache: Option<CachedGraph>,
}

/// The in-memory cache: tier-2 entries keyed by path (unique), and an
/// optional tier-1 snapshot.
#[derive(Debug)]
pub struct ParseCache {
    pub entries: Vec<(String, CachedParse)>,
    pub cached_graph: Option<CachedGraph>,
}

/// The keys of an association list are pairwise distinct.
pub open spec fn unique_keys(s: Seq<(String, CachedParse)>) -> bool {
    forall|i: int, j: int|
        0 <= i < j < s.len() ==> (#[trigger] s[i]).0@ != (#[trigger] s[j]).0@
}

/// The association list as a map from path to entry value; later pairs win.
pub open spec fn map_of(s: Seq<(String, CachedParse)>) -> Map<Seq<char>, CachedParseV>
    decreases s,
{
    if s.len() == 0 {
        Map::<Seq<char>, CachedParseV>::empty()
    } else {
        map_of(s.drop_last()).insert(s.last().0@, s.last().1@)
    }
}

proof fn lemma_map_of_keys(s: Seq<(String, CachedParse)>)
    ensures
        forall|i: int| 0 <= i < s.len() ==> map_of(s).contains_key((#[trigger] s[i]).0@),
        forall|p: Seq<char>|
            #[trigger] map_of(s).contains_key(p) ==> exists|i: int|
                0 <= i < s.len() && (#[trigger] s[i]).0@ == p,
    decreases s,
{
    if s.len() > 0 {
        lemma_map_of_keys(s.drop_last());
        assert forall|i: int| 0 <= i < s.len() implies map_of(s).contains_key(
            (#[trigger] s[i]).0@,
        ) by {
            if i < s.len() - 1 {
                assert(s.drop_last()[i] == s[i]);
                assert(map_of(s.drop_last()).contains_key(s[i].0@));
            } else {
                assert(s.last() == s[i]);
            }
        }
        assert forall|p: Seq<char>| #[trigger]
            map_of(s).contains_key(p) implies exists|i: int|
            0 <= i < s.len() && (#[trigger] s[i]).0@ == p by {
            if p == s.last().0@ {
                assert(s[s.len() - 1].0@ == p);
            } else {
                assert(map_of(s.drop_last()).contains_key(p));
                let i = choose|i: int|
                    0 <= i < s.drop_last().len() && (#[trigger] s.drop_last()[i]).0@ == p;
                assert(s[i].0@ == p);
            }
        }
    }
}

proof fn lemma_map_of_values(s: Seq<(String, CachedParse)>)
    requires
        unique_keys(s),
    ensures
        forall|i: int|
            0 <= i < s.len() ==> map_of(s).contains_key((#[trigger] s[i]).0@) && map_of(s)[s[i].0@]
                == s[i].1@,
    decreases s,
{
    lemma_map_of_keys(s);
    if s.len() > 0 {
        assert(unique_keys(s.drop_last())) by {
            assert forall|i: int, j: int|
                0 <= i < j < s.drop_last().len() implies (#[trigger] s.drop_last()[i]).0@ != (
            #[trigger] s.drop_last()[j]).0@ by {
                assert(s[i].0@ != s[j].0@);
            }
        }
        lemma_map_of_values(s.drop_last());
        assert forall|i: int|
            0 <= i < s.len() implies map_of(s).contains_key((#[trigger] s[i]).0@) && map_of(s)[s[i].0@]
            == s[i].1@ by {
            if i < s.len() - 1 {
                assert(s.drop_last()[i] == s[i]);
                assert(s[i].0@ != s.last().0@);
            }
        }
    }
}

/// Every recorded stamp is still observed unchanged.
pub open spec fn stamps_match(mtimes: Seq<(String, FileStamp)>, stats: Seq<Option<FileStamp>>) -> bool {
    &&& stats.len() == mtimes.len()
    &&& forall|i: int| 0 <= i < mtimes.len() ==> stats[i] == Some((#[trigger] mtimes[i]).1)
}

/// No previously-unresolved specifier resolves now.
pub open spec fn none_resolve(resolves: Seq<bool>) -> bool {
    forall|j: int| 0 <= j < resolves.len() ==> !(#[trigger] resolves[j])
}

impl Clone for CachedParse {
    fn clone(&self) -> (res: Self)
        ensures
            res@ == self@,
    {
        let resolved = self.resolved.clone();
        proof {
            assert forall|i: int| 0 <= i < resolved@.len() implies #[trigger] resolved@[i]
                == self.resolved@[i] by {
                assert(cloned::<Option<String>>(self.resolved@[i], resolved@[i]));
            }
            assert(resolved@ =~= self.resolved@);
        }
        CachedParse { stamp: self.stamp, result: self.result.clone(), resolved }
    }
}

impl ParseCache {
    /// Tier-2 entries as a map from path to entry.
    pub open spec fn entries_map(self) -> Map<Seq<char>, CachedParseV> {
        map_of(self.entries@)
    }

    pub open spec fn wf(self) -> bool {
        unique_keys(self.entries@)
    }

    /// What a lookup of `path` returns when the file is observed at
    /// (`mtime_nanos`, `size`): the cached entry iff one exists for the path
    /// and its recorded stamp matches the observation exactly.
    pub open spec fn spec_lookup(self, p: Seq<char>, stamp: FileStamp) -> Option<CachedParseV> {
        if self.entries_map().contains_key(p) && self.entries_map()[p].stamp == stamp {
            Some(self.entries_map()[p])
        } else {
            None
        }
    }

    pub fn new() -> (c: Self)
        ensures
            c.wf(),
            c.entries_map() == Map::<Seq<char>, CachedParseV>::empty(),
            c.cached_graph is None,
    {
        ParseCache { entries: Vec::new(), cached_graph: None }
    }

    /// Accept a deserialized envelope. An envelope of another version, one
    /// whose entry keys are not distinct, or one whose graph snapshot is
    /// not well-formed, is discarded as a whole; the cache then starts
    /// cold. A kept snapshot's graph is well-formed.
    pub fn from_envelope(env: CacheEnvelope) -> (c: Self)
        ensures
            c.wf(),
            c.cached_graph matches Some(cg) ==> cg.graph.wf(),
            env.version == CACHE_VERSION && unique_keys(env.parse_entries@) && (
            env.graph_cache matches Some(cg) ==> cg.graph.wf()) ==> c.entries
                == env.parse_entries && c.cached_graph == env.graph_cache,
            env.version != CACHE_VERSION ==> c.entries@.len() == 0 && c.cached_graph is None,
    {
        if env.version != CACHE_VERSION {
            return ParseCache { entries: Vec::new(), cached_graph: None };
        }
        match &env.graph_cache {
            Some(cg) => {
                if !cg.graph.check_wf() {
                    return ParseCache { entries: Vec::new(), cached_graph: None };
                }
            },
            None => {},
        }
        let n = env.parse_entries.len();
        let mut i: usize = 0;
        while i < n
            invariant
                n == env.parse_entries@.len(),
                i <= n,
                forall|a: int, b: int|
                    0 <= a < b < n && a < i ==> (#[trigger] env.parse_entries@[a]).0@ != (
                    #[trigger] env.parse_entries@[b]).0@,
            decreases n - i,
        {
            let mut j: usize = i + 1;
            while j < n
                invariant
                    n == env.parse_entries@.len(),
                    i < j || j == i + 1,
                    i < n,
                    j <= n,
                    forall|b: int|
                        i < b < j ==> (#[trigger] env.parse_entries@[b]).0@
                            != env.parse_entries@[i as int].0@,
                decreases n - j,
            {
                if env.parse_entries[j].0 == env.parse_entries[i].0 {
                    return ParseCache { entries: Vec::new(), cached_graph: None };
                }
                j = j + 1;
            }
            i = i + 1;
        }
        ParseCache { entries: env.parse_entries, cached_graph: env.graph_cache }
    }

    /// Tier-2 lookup: the cached parse for `path`, iff the observed stamp
    /// equals the recorded one.
    pub fn lookup(&self, path: &String, stamp: FileStamp) -> (r: Option<&CachedParse>)
        requires
            self.wf(),
        ensures
            match r {
                Some(cp) => self.spec_lookup(path@, stamp) == Some(cp@),
                None => self.spec_lookup(path@, stamp) is None,
            },
    {
        let n = self.entries.len();
        let mut i: usize = 0;
        while i < n
            invariant
                n == self.entries@.len(),
                i <= n,
                self.wf(),
                forall|j: int| 0 <= j < i ==> (#[trigger] self.entries@[j]).0@ != path@,
            decreases n - i,
        {
            if self.entries[i].0 == *path {
                let cp = &self.entries[i].1;
                proof {
                    lemma_map_of_values(self.entries@);
                    assert(self.entries@[i as int].0@ == path@);
                    assert(self.entries_map()[path@] == self.entries@[i as int].1@);
                }
                if cp.stamp.mtime_nanos == stamp.mtime_nanos && cp.stamp.size == stamp.size {
                    return Some(cp);
                } else {
                    return None;
                }
            }
            i = i + 1;
        }
        proof {
            lemma_map_of_keys(self.entries@);
            assert(!self.entries_map().contains_key(path@)) by {
                if self.entries_map().contains_key(path@) {
                    let k = choose|k: int|
                        0 <= k < self.entries@.len() && (#[trigger] self.entries@[k]).0@ == path@;
                    assert(false);
                }
            }
        }
        None
    }

    /// Tier-2 insert: record the parse of `path` under the stamp the caller
    /// observed at insertion time, replacing any previous entry for the path.
    pub fn insert(
        &mut self,
        path: String,
        result: &ParseResult,
        resolved: &Vec<Option<String>>,
        stamp: FileStamp,
    )
        requires
            old(self).wf(),
        ensures
            final(self).wf(),
            final(self).entries_map() == old(self).entries_map().insert(
                path@,
                CachedParseV { stamp: stamp, result: result@, resolved: resolved@ },
            ),
            final(self).cached_graph == old(self).cached_graph,
    {
        let cp = CachedParse { stamp, result: result.clone(), resolved: resolved.clone() };
        proof {
            assert forall|k: int| 0 <= k < cp.resolved@.len() implies #[trigger] cp.resolved@[k]
                == resolved@[k] by {
                assert(cloned::<Option<String>>(resolved@[k], cp.resolved@[k]));
            }
            assert(cp.resolved@ =~= resolved@);
            assert(cp@ =~= CachedParseV { stamp: stamp, result: result@, resolved: resolved@ });
        }
        let n = self.entries.len();
        let mut i: usize = 0;
        while i < n
            invariant
                n == self.entries@.len(),
                i <= n,
                self.wf(),
                self.entries@ == old(self).entries@,
                self.cached_graph == old(self).cached_graph,
                cp@ == (CachedParseV { stamp: stamp, result: result@, resolved: resolved@ }),
                forall|j: int| 0 <= j < i ==> (#[trigger] self.entries@[j]).0@ != path@,
            decreases n - i,
        {
            if self.entries[i].0 == path {
                let ghost pre = self.entries@;
                self.entries.set(i, (path, cp));
                proof {
                    lemma_map_of_update(pre, i as int, self.entries@[i as int]);
                    assert(self.wf()) by {
                        assert forall|a: int, b: int|
                            0 <= a < b < self.entries@.len() implies (
                        #[trigger] self.entries@[a]).0@ != (#[trigger] self.entries@[b]).0@ by {
                            if a != i && b != i {
                                assert(self.entries@[a] == pre[a]);
                                assert(self.entries@[b] == pre[b]);
                            }
                        }
                    }
                }
                return;
            }
            i = i + 1;
        }
        let ghost pre = self.entries@;
        self.entries.push((path, cp));
        proof {
            assert(self.entries@.drop_last() =~= pre);
        }
    }

    /// Tier-1 lookup. The caller passes, parallel to the recorded file
    /// stamps, the stamp it observes now for each recorded path (`None`
    /// where the file is gone or unreadable), and, parallel to the recorded
    /// unresolved specifiers, whether each of them resolves now. The cached
    /// graph is returned iff the entry matches, every stamp is unchanged,
    /// and no previously-unresolved specifier has started to resolve.
    pub fn try_load_graph(
        &self,
        entry: &String,
        stats: &Vec<Option<FileStamp>>,
        resolves: &Vec<bool>,
    ) -> (r: Option<(ModuleGraph, usize)>)
        requires
            self.cached_graph matches Some(cg) ==> stats@.len() == cg.file_mtimes@.len()
                && resolves@.len() == cg.unresolved_specifiers@.len() && cg.graph.wf(),
        ensures
            r is Some <==> (self.cached_graph matches Some(cg) && cg.entry@ == entry@
                && stamps_match(cg.file_mtimes@, stats@) && none_resolve(resolves@)),
            r matches Some(pair) ==> self.cached_graph matches Some(cg) && pair.0@ == cg.graph@
                && pair.1 == cg.unresolvable_dynamic && pair.0.wf(),
    {
        let cached = match &self.cached_graph {
            Some(cg) => cg,
            None => {
                return None;
            },
        };
        if !(cached.entry == *entry) {
            return None;
        }
        let n = cached.file_mtimes.len();
        let mut i: usize = 0;
        while i < n
            invariant
                self.cached_graph == Some(*cached),
                cached.entry@ == entry@,
                resolves@.len() == cached.unresolved_specifiers@.len(),
                n == cached.file_mtimes@.len(),
                stats@.len() == n,
                i <= n,
                forall|j: int|
                    0 <= j < i ==> stats@[j] == Some((#[trigger] cached.file_mtimes@[j]).1),
            decreases n - i,
        {
            let ok = match &stats[i] {
                Some(st) => st.mtime_nanos == cached.file_mtimes[i].1.mtime_nanos && st.size
                    == cached.file_mtimes[i].1.size,
                None => false,
            };
            if !ok {
                proof {
                    assert(stats@[i as int] != Some(cached.file_mtimes@[i as int].1));
                    assert(!stamps_match(cached.file_mtimes@, stats@));
                }
                return None;
            }
            i = i + 1;
        }
        let m = resolves.len();
        let mut j: usize = 0;
        while j < m
            invariant
                self.cached_graph == Some(*cached),
                cached.entry@ == entry@,
                stamps_match(cached.file_mtimes@, stats@),
                m == resolves@.len(),
                j <= m,
                forall|k: int| 0 <= k < j ==> !(#[trigger] resolves@[k]),
            decreases m - j,
        {
            if resolves[j] {
                return None;
            }
            j = j + 1;
        }
        let copy = cached.graph.clone();
        proof {
            // well-formedness reads only the graph's mathematical value,
            // which the clone preserves
            assert(copy.modules@ == cached.graph.modules@);
            assert(copy.edges@ == cached.graph.edges@);
            assert(copy.adj() == cached.graph.adj());
            assert(copy.wf());
        }
        Some((copy, cached.unresolvable_dynamic))
    }

    /// The paths of the tier-1 snapshot, in recorded order; `None` when
    /// there is no snapshot. Callers stat exactly these for
    /// [`ParseCache::try_load_graph`].
    pub fn graph_cache_paths(&self) -> (r: Option<Vec<String>>)
        ensures
            match r {
                Some(ps) => self.cached_graph matches Some(cg) && ps@.len()
                    == cg.file_mtimes@.len() && forall|i: int|
                    0 <= i < ps@.len() ==> ps@[i]@ == (#[trigger] cg.file_mtimes@[i]).0@,
                None => self.cached_graph is None,
            },
    {
        let cached = match &self.cached_graph {
            Some(cg) => cg,
            None => {
                return None;
            },
        };
        let n = cached.file_mtimes.len();
        let mut ps: Vec<String> = Vec::new();
        let mut i: usize = 0;
        while i < n
            invariant
                n == cached.file_mtimes@.len(),
                i <= n,
                ps@.len() == i,
                forall|k: int|
                    0 <= k < i ==> ps@[k]@ == (#[trigger] cached.file_mtimes@[k]).0@,
            decreases n - i,
        {
            ps.push(cached.file_mtimes[i].0.clone());
            i = i + 1;
        }
        Some(ps)
    }

    /// The unresolved specifiers of the tier-1 snapshot, in recorded order.
    /// Callers test each against the resolver for
    /// [`ParseCache::try_load_graph`].
    pub fn graph_cache_unresolved(&self) -> (r: Option<Vec<String>>)
        ensures
            match r {
                Some(us) => self.cached_graph matches Some(cg) && us@.len()
                    == cg.unresolved_specifiers@.len() && forall|i: int|
                    0 <= i < us@.len() ==> us@[i]@ == (#[trigger] cg.unresolved_specifiers@[i])@,
                None => self.cached_graph is None,
            },
    {
        let cached = match &self.cached_graph {
            Some(cg) => cg,
            None => {
                return None;
            },
        };
        let n = cached.unresolved_specifiers.len();
        let mut us: Vec<String> = Vec::new();
        let mut i: usize = 0;
        while i < n
            invariant
                n == cached.unresolved_specifiers@.len(),
                i <= n,
                us@.len() == i,
                forall|k: int|
                    0 <= k < i ==> us@[k]@ == (#[trigger] cached.unresolved_specifiers@[k])@,
            decreases n - i,
        {
            us.push(cached.unresolved_specifiers[i].clone());
            i = i + 1;
        }
        Some(us)
    }

    /// Build a fresh envelope for saving: the current tier-2 entries plus a
    /// tier-1 snapshot of `graph` for `entry`. `stamps` holds the stamp the
    /// caller observes now for each module of the graph, in module order;
    /// modules whose stamp could not be read are left out of the snapshot's
    /// stamp list (and so invalidate nothing later).
    pub fn make_envelope(
        &self,
        entry: &String,
        graph: &ModuleGraph,
        stamps: &Vec<Option<FileStamp>>,
        unresolved_specifiers: Vec<String>,
        unresolvable_dynamic: usize,
    ) -> (env: CacheEnvelope)
        requires
            stamps@.len() == graph.modules@.len(),
        ensures
            env.version == CACHE_VERSION,
            env.parse_entries@.len() == self.entries@.len(),
            forall|i: int|
                0 <= i < self.entries@.len() ==> (#[trigger] env.parse_entries@[i]).0
                    == self.entries@[i].0 && env.parse_entries@[i].1@ == self.entries@[i].1@,
            env.graph_cache matches Some(cg) && cg.entry@ == entry@ && cg.graph@ == graph@
                && cg.file_mtimes@ == zip_stamps(graph.modules@, stamps@)
                && cg.unresolved_specifiers == unresolved_specifiers && cg.unresolvable_dynamic
                == unresolvable_dynamic,
    {
        let n = graph.modules.len();
        let mut file_mtimes: Vec<(String, FileStamp)> = Vec::new();
        let mut i: usize = 0;
        while i < n
            invariant
                n == graph.modules@.len(),
                stamps@.len() == n,
                i <= n,
                file_mtimes@ == zip_stamps(graph.modules@.take(i as int), stamps@.take(i as int)),
            decreases n - i,
        {
            match &stamps[i] {
                Some(st) => {
                    file_mtimes.push((graph.modules[i].path.clone(), *st));
                },
                None => {},
            }
            proof {
                lemma_zip_stamps_step(graph.modules@, stamps@, i as int);
                assert(file_mtimes@ =~= zip_stamps(
                    graph.modules@.take(i + 1 as int),
                    stamps@.take(i + 1 as int),
                ));
            }
            i = i + 1;
        }
        proof {
            assert(graph.modules@.take(n as int) =~= graph.modules@);
            assert(stamps@.take(n as int) =~= stamps@);
        }
        let entries = clone_entries(&self.entries);
        CacheEnvelope {
            version: CACHE_VERSION,
            parse_entries: entries,
            graph_cache: Some(
                CachedGraph {
                    entry: entry.clone(),
                    graph: graph.clone(),
                    file_mtimes,
                    unresolved_specifiers,
                    unresolvable_dynamic,
                },
            ),
        }
    }
}

/// The snapshot stamp list: one (path, stamp) pair per module whose stamp
/// was readable, in module order.
pub open spec fn zip_stamps(ms: Seq<Module>, st: Seq<Option<FileStamp>>) -> Seq<(String, FileStamp)>
    decreases ms,
{
    if ms.len() == 0 || st.len() == 0 {
        Seq::<(String, FileStamp)>::empty()
    } else {
        zip_stamps(ms.drop_last(), st.drop_last()) + match st.last() {
            Some(c) => seq![(ms.last().path, c)],
            None => Seq::<(String, FileStamp)>::empty(),
        }
    }
}

proof fn lemma_zip_stamps_step(ms: Seq<Module>, st: Seq<Option<FileStamp>>, i: int)
    requires
        0 <= i < ms.len(),
        st.len() == ms.len(),
    ensures
        zip_stamps(ms.take(i + 1), st.take(i + 1)) == zip_stamps(ms.take(i), st.take(i)) + match st[i] {
            Some(c) => seq![(ms[i].path, c)],
            None => Seq::<(String, FileStamp)>::empty(),
        },
{
    assert(ms.take(i + 1).drop_last() =~= ms.take(i));
    assert(st.take(i + 1).drop_last() =~= st.take(i));
    assert(ms.take(i + 1).last() == ms[i]);
    assert(st.take(i + 1).last() == st[i]);
}

fn clone_entries(src: &Vec<(String, CachedParse)>) -> (r: Vec<(String, CachedParse)>)
    ensures
        r@.len() == src@.len(),
        forall|i: int|
            0 <= i < src@.len() ==> (#[trigger] r@[i]).0 == src@[i].0 && r@[i].1@ == src@[i].1@,
{
    let n = src.len();
    let mut out: Vec<(String, CachedParse)> = Vec::new();
    let mut i: usize = 0;
    while i < n
        invariant
            n == src@.len(),
            i <= n,
            out@.len() == i,
            forall|j: int|
                0 <= j < i ==> (#[trigger] out@[j]).0 == src@[j].0 && out@[j].1@ == src@[j].1@,
        decreases n - i,
    {
        out.push((src[i].0.clone(), src[i].1.clone()));
        i = i + 1;
    }
    out
}

proof fn lemma_map_of_update(s: Seq<(String, CachedParse)>, i: int, pair: (String, CachedParse))
    requires
        unique_keys(s),
        0 <= i < s.len(),
        pair.0@ == s[i].0@,
    ensures
        map_of(s.update(i, pair)) == map_of(s).insert(pair.0@, pair.1@),
    decreases s,
{
    if i == s.len() - 1 {
        assert(s.update(i, pair).drop_last() =~= s.drop_last());
        assert(s.update(i, pair).last() == pair);
        assert(map_of(s.update(i, pair)) =~= map_of(s).insert(pair.0@, pair.1@));
    } else {
        assert(unique_keys(s.drop_last())) by {
            assert forall|a: int, b: int|
                0 <= a < b < s.drop_last().len() implies (#[trigger] s.drop_last()[a]).0@ != (
            #[trigger] s.drop_last()[b]).0@ by {
                assert(s[a].0@ != s[b].0@);
            }
        }
        assert(s.drop_last()[i] == s[i]);
        lemma_map_of_update(s.drop_last(), i, pair);
        assert(s.update(i, pair).drop_last() =~= s.drop_last().update(i, pair));
        assert(s.update(i, pair).last() == s.last());
        // the replaced key differs from the last key, so the two inserts commute
        assert(s[i].0@ != s.last().0@);
        assert(map_of(s.update(i, pair)) =~= map_of(s).insert(pair.0@, pair.1@));
    }
}

/// Cache hit correctness: after an entry for `path` is recorded with stamp
/// `cp.stamp` (as [`ParseCache::insert`] ensures), a lookup of `path` at an
/// observed stamp returns that entry iff the observation equals the recorded
/// stamp — any change of the file's mtime or size misses.
pub proof fn lemma_cache_hit_correctness(
    before: ParseCache,
    after: ParseCache,
    path: String,
    cp: CachedParseV,
    now: FileStamp,
)
    requires
        after.entries_map() == before.entries_map().insert(path@, cp),
    ensures
        after.spec_lookup(path@, now) == if now == cp.stamp {
            Some(cp)
        } else {
            None::<CachedParseV>
        },
{
    assert(after.entries_map().contains_key(path@));
    assert(after.entries_map()[path@] == cp);
}

} // verus!
