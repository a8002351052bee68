//! Module resolution for Python-style projects, and project-root detection.
//!
//! Resolution is pure logic over an [`FsView`]: the set of files the caller
//! observed on disk. The caller probes exactly the candidate paths a lookup
//! may touch (or lists the project tree) and hands them in; every decision
//! here is then verified. Paths are canonical absolute strings joined with
//! `/`.

use vstd::prelude::*;

use crate::strutil;

verus! {

/// The observed filesystem: the paths of the files that exist.
#[derive(Debug)]
pub struct FsView {
    pub files: Vec<String>,
}

/// A file with this path exists in the view.
pub open spec fn fs_has(v: FsView, p: Seq<char>) -> bool {
    exists|i: int| 0 <= i < v.files@.len() && (#[trigger] v.files@[i])@ == p
}

impl FsView {
    /// Whether a file with this path was observed.
    pub fn contains(&self, p: &String) -> (r: bool)
        ensures
            r == fs_has(*self, p@),
    {
        let n = self.files.len();
        let mut i: usize = 0;
        while i < n
            invariant
                n == self.files@.len(),
                i <= n,
                forall|j: int| 0 <= j < i ==> (#[trigger] self.files@[j])@ != p@,
            decreases n - i,
        {
            if self.files[i] == *p {
                return true;
            }
            i = i + 1;
        }
        false
    }
}

/// The kind of project an entry file belongs to.
#[derive(Debug, Clone, Copy, PartialEq, Eq, Structural)]
pub enum ProjectKind {
    TypeScript,
}

/// The directory part of a path: everything before the last `/`.
pub open spec fn spec_parent_dir(p: Seq<char>) -> Option<Seq<char>> {
    if exists|i: int| 0 <= i < p.len() && p[i] == '/' {
        Some(p.subrange(0, crate::builder::last_occurrence(p, '/')))
    } else {
        None
    }
}

/// The directory part of a path, `None` when the path has no `/`.
pub fn parent_dir(p: &String) -> (r: Option<String>)
    ensures
        match r {
            Some(d) => spec_parent_dir(p@) == Some(d@) && d@.len() < p@.len(),
            None => spec_parent_dir(p@) is None,
        },
{
    let s = p.as_str();
    match strutil::last_index_of(s, '/') {
        Some(i) => {
            proof {
                assert(crate::builder::last_occurrence(p@, '/') == i as int) by {
                    let j = crate::builder::last_occurrence(p@, '/');
                    assert(0 <= j < p@.len() && p@[j] == '/' && forall|k: int|
                        j < k < p@.len() ==> p@[k] != '/');
                    if j < i {
                        assert(p@[i as int] != '/');
                    }
                    if j > i {
                        assert(p@[j] != '/');
                    }
                }
            }
            Some(String::from_str(s.substring_char(0, i)))
        },
        None => None,
    }
}

/// When a character occurs at all, a last occurrence exists.
pub proof fn lemma_last_char_exists(p: Seq<char>, c: char)
    requires
        exists|i: int| 0 <= i < p.len() && p[i] == c,
    ensures
        exists|i: int|
            0 <= i < p.len() && p[i] == c && forall|j: int| i < j < p.len() ==> p[j] != c,
    decreases p.len(),
{
    if p.last() == c {
        let w = p.len() - 1;
        assert(0 <= w < p.len() && p[w] == c && forall|j: int| w < j < p.len() ==> p[j] != c);
    } else {
        let i0 = choose|i: int| 0 <= i < p.len() && p[i] == c;
        assert(p.drop_last()[i0] == c);
        lemma_last_char_exists(p.drop_last(), c);
        let w = choose|i: int|
            0 <= i < p.drop_last().len() && p.drop_last()[i] == c && forall|j: int|
                i < j < p.drop_last().len() ==> p.drop_last()[j] != c;
        assert(p[w] == c);
        assert forall|j: int| w < j < p.len() implies p[j] != c by {
            if j < p.len() - 1 {
                assert(p.drop_last()[j] != c);
            }
        }
    }
}

/// Walk from the entry's directory toward the root until a directory
/// holding `marker` is found.
pub open spec fn spec_find_root(v: FsView, dir: Seq<char>, marker: Seq<char>) -> Option<Seq<char>>
    decreases dir.len(),
    via spec_find_root_decreases
{
    if fs_has(v, dir + seq!['/'] + marker) {
        Some(dir)
    } else {
        match spec_parent_dir(dir) {
            Some(parent) => spec_find_root(v, parent, marker),
            None => None,
        }
    }
}

#[via_fn]
proof fn spec_find_root_decreases(v: FsView, dir: Seq<char>, marker: Seq<char>) {
    if !fs_has(v, dir + seq!['/'] + marker) {
        if spec_parent_dir(dir) is Some {
            lemma_last_char_exists(dir, '/');
            let i = crate::builder::last_occurrence(dir, '/');
            assert(0 <= i < dir.len() && dir[i] == '/');
        }
    }
}

/// The nearest ancestor directory of `entry` that contains `marker`.
pub fn find_root_with_marker(v: &FsView, entry: &String, marker: &String) -> (r: Option<String>)
    ensures
        match (r, spec_parent_dir(entry@)) {
            (Some(d), Some(start)) => spec_find_root(*v, start, marker@) == Some(d@),
            (None, Some(start)) => spec_find_root(*v, start, marker@) is None,
            (None, None) => true,
            (Some(_), None) => false,
        },
{
    let mut dir = match parent_dir(entry) {
        Some(d) => d,
        None => {
            return None;
        },
    };
    loop
        invariant
            spec_find_root(*v, dir@, marker@) matches Some(d) ==> spec_find_root(
                *v,
                spec_parent_dir(entry@)->0,
                marker@,
            ) == Some(d),
            spec_find_root(*v, dir@, marker@) is None ==> spec_find_root(
                *v,
                spec_parent_dir(entry@)->0,
                marker@,
            ) is None,
            spec_parent_dir(entry@) is Some,
        decreases dir@.len(),
    {
        let candidate = strutil::concat3(dir.as_str(), "/", marker.as_str());
        proof {
            reveal_strlit("/");
            assert(candidate@ =~= dir@ + seq!['/'] + marker@);
        }
        if v.contains(&candidate) {
            return Some(dir);
        }
        match parent_dir(&dir) {
            Some(parent) => {
                dir = parent;
            },
            None => {
                return None;
            },
        }
    }
}

/// Detect the project around an entry file: the kind follows from the entry
/// extension, the root is the nearest ancestor with the kind's marker file
/// (`package.json`), or the entry's own directory when none exists.
pub fn detect_project(v: &FsView, entry: &String) -> (r: (String, ProjectKind))
    ensures
        r.1 == ProjectKind::TypeScript,
        match spec_parent_dir(entry@) {
            Some(start) => match spec_find_root(*v, start, "package.json"@) {
                Some(d) => r.0@ == d,
                None => r.0@ == start,
            },
            None => r.0@ == entry@,
        },
{
    let marker = String::from_str("package.json");
    let kind = ProjectKind::TypeScript;
    match find_root_with_marker(v, entry, &marker) {
        Some(root) => (root, kind),
        None => {
            match parent_dir(entry) {
                Some(d) => (d, kind),
                None => (entry.clone(), kind),
            }
        },
    }
}

/// The dotted module name with every dot replaced by a path separator.
pub open spec fn spec_dots_to_slashes(s: Seq<char>) -> Seq<char> {
    Seq::new(
        s.len(),
        |i: int|
            if s[i] == '.' {
                '/'
            } else {
                s[i]
            },
    )
}

fn dots_to_slashes(s: &str) -> (r: String)
    ensures
        r@ == spec_dots_to_slashes(s@),
{
    let n = s.unicode_len();
    let mut out = String::new();
    let mut i: usize = 0;
    while i < n
        invariant
            n == s@.len(),
            i <= n,
            out@ =~= spec_dots_to_slashes(s@.take(i as int)),
        decreases n - i,
    {
        let c = s.get_char(i);
        if c == '.' {
            out.append("/");
            proof {
                reveal_strlit("/");
            }
        } else {
            let piece = s.substring_char(i, i + 1);
            out.append(piece);
        }
        proof {
            assert(out@ =~= spec_dots_to_slashes(s@.take(i + 1)));
        }
        i = i + 1;
    }
    proof {
        assert(s@.take(n as int) =~= s@);
    }
    out
}

/// The candidate files a dotted module name resolves to under `base`: the
/// package marker first, then the module file; an empty name names the
/// package marker of `base` itself.
pub open spec fn spec_pkg_init(base: Seq<char>, dotted: Seq<char>) -> Seq<char> {
    base + seq!['/'] + spec_dots_to_slashes(dotted) + "/__init__.py"@
}

pub open spec fn spec_module_file(base: Seq<char>, dotted: Seq<char>) -> Seq<char> {
    base + seq!['/'] + spec_dots_to_slashes(dotted) + ".py"@
}

pub open spec fn spec_try_resolve(v: FsView, base: Seq<char>, dotted: Seq<char>) -> Option<
    Seq<char>,
> {
    if dotted.len() == 0 {
        let init = base + "/__init__.py"@;
        if fs_has(v, init) {
            Some(init)
        } else {
            None
        }
    } else if fs_has(v, spec_pkg_init(base, dotted)) {
        Some(spec_pkg_init(base, dotted))
    } else if fs_has(v, spec_module_file(base, dotted)) {
        Some(spec_module_file(base, dotted))
    } else {
        None
    }
}

/// Resolve a dotted module name under one base directory: the package
/// marker `<base>/<name>/__init__.py` wins over the plain module file
/// `<base>/<name>.py`; an empty name resolves to `<base>/__init__.py`.
pub fn try_resolve_module(v: &FsView, base: &String, dotted_name: &str) -> (r: Option<String>)
    ensures
        match r {
            Some(p) => spec_try_resolve(*v, base@, dotted_name@) == Some(p@),
            None => spec_try_resolve(*v, base@, dotted_name@) is None,
        },
{
    if dotted_name.unicode_len() == 0 {
        let init = strutil::concat2(base.as_str(), "/__init__.py");
        proof {
            assert(init@ =~= base@ + "/__init__.py"@);
        }
        if v.contains(&init) {
            return Some(init);
        }
        return None;
    }
    let rel = dots_to_slashes(dotted_name);
    let with_base = strutil::concat3(base.as_str(), "/", rel.as_str());
    proof {
        reveal_strlit("/");
        assert(with_base@ =~= base@ + seq!['/'] + spec_dots_to_slashes(dotted_name@));
    }
    let pkg_init = strutil::concat2(with_base.as_str(), "/__init__.py");
    proof {
        assert(pkg_init@ =~= spec_pkg_init(base@, dotted_name@));
    }
    if v.contains(&pkg_init) {
        return Some(pkg_init);
    }
    let module_file = strutil::concat2(with_base.as_str(), ".py");
    proof {
        assert(module_file@ =~= spec_module_file(base@, dotted_name@));
    }
    if v.contains(&module_file) {
        return Some(module_file);
    }
    None
}

/// The number of leading dots of a relative specifier.
pub open spec fn spec_leading_dots(s: Seq<char>) -> int
    decreases s.len(),
{
    if s.len() > 0 && s[0] == '.' {
        1 + spec_leading_dots(s.drop_first())
    } else {
        0
    }
}

/// Resolution of the module part of a relative specifier: the base starts
/// at the importing directory and climbs one level per dot beyond the first.
pub open spec fn spec_resolve_relative(v: FsView, from_dir: Seq<char>, specifier: Seq<char>) -> Option<
    Seq<char>,
> {
    let dots = spec_leading_dots(specifier);
    let module = specifier.skip(dots);
    match spec_climb(from_dir, dots - 1) {
        Some(base) => spec_try_resolve(v, base, module),
        None => None,
    }
}

/// `steps` parent steps up from `dir`.
pub open spec fn spec_climb(dir: Seq<char>, steps: int) -> Option<Seq<char>>
    decreases steps,
{
    if steps <= 0 {
        Some(dir)
    } else {
        match spec_parent_dir(dir) {
            Some(p) => spec_climb(p, steps - 1),
            None => None,
        }
    }
}

/// The resolver for Python-style projects: first-party source roots, then
/// the observed site-packages directories.
#[derive(Debug)]
pub struct PythonResolver {
    pub source_roots: Vec<String>,
    pub site_packages_dirs: Vec<String>,
}

/// Resolution of an absolute (package) specifier: source roots in order,
/// then site-packages directories in order; the first hit wins.
pub open spec fn spec_resolve_absolute(
    res: PythonResolver,
    v: FsView,
    specifier: Seq<char>,
) -> Option<Seq<char>> {
    match spec_first_root(res.source_roots@, v, specifier) {
        Some(p) => Some(p),
        None => spec_first_root(res.site_packages_dirs@, v, specifier),
    }
}

pub open spec fn spec_first_root(roots: Seq<String>, v: FsView, specifier: Seq<char>) -> Option<
    Seq<char>,
>
    decreases roots.len(),
{
    if roots.len() == 0 {
        None
    } else {
        match spec_try_resolve(v, roots[0]@, specifier) {
            Some(p) => Some(p),
            None => spec_first_root(roots.drop_first(), v, specifier),
        }
    }
}

impl PythonResolver {
    /// Build a resolver: the project root, plus its `src` and `lib`
    /// directories where the caller observed them to exist, plus the
    /// site-packages directories the caller discovered.
    pub fn new(
        root: &String,
        has_src_dir: bool,
        has_lib_dir: bool,
        site_packages_dirs: Vec<String>,
    ) -> (r: PythonResolver)
        ensures
            r.source_roots@.len() == 1 + (if has_src_dir {
                1int
            } else {
                0int
            }) + (if has_lib_dir {
                1int
            } else {
                0int
            }),
            r.source_roots@[0]@ == root@,
            has_src_dir ==> r.source_roots@[1]@ == root@ + "/src"@,
            has_lib_dir ==> r.source_roots@[r.source_roots@.len() - 1]@ == root@ + "/lib"@,
            r.site_packages_dirs == site_packages_dirs,
    {
        let mut source_roots: Vec<String> = Vec::new();
        source_roots.push(root.clone());
        if has_src_dir {
            let p = strutil::concat2(root.as_str(), "/src");
            source_roots.push(p);
        }
        if has_lib_dir {
            let p = strutil::concat2(root.as_str(), "/lib");
            source_roots.push(p);
        }
        PythonResolver { source_roots, site_packages_dirs }
    }

    pub fn site_packages(&self) -> (r: &Vec<String>)
        ensures
            r == &self.site_packages_dirs,
    {
        &self.site_packages_dirs
    }

    /// Resolve a specifier against the view: a leading dot makes it
    /// relative to the importing directory, anything else searches the
    /// source roots and then the site-packages directories.
    pub fn resolve(&self, v: &FsView, from_dir: &String, specifier: &String) -> (r: Option<
        String,
    >)
        ensures
            match r {
                Some(p) => spec_resolve(*self, *v, from_dir@, specifier@) == Some(p@),
                None => spec_resolve(*self, *v, from_dir@, specifier@) is None,
            },
    {
        let s = specifier.as_str();
        let starts_dot = s.unicode_len() > 0 && s.get_char(0) == '.';
        if starts_dot {
            self.resolve_relative(v, from_dir, specifier)
        } else {
            proof {
                if specifier@.len() > 0 {
                    assert(specifier@[0] != '.');
                }
            }
            self.resolve_absolute(v, specifier)
        }
    }

    /// Resolve a relative specifier: one leading dot stays in `from_dir`,
    /// each further dot climbs one directory.
    pub fn resolve_relative(&self, v: &FsView, from_dir: &String, specifier: &String) -> (r:
        Option<String>)
        ensures
            match r {
                Some(p) => spec_resolve_relative(*v, from_dir@, specifier@) == Some(p@),
                None => spec_resolve_relative(*v, from_dir@, specifier@) is None,
            },
    {
        let s = specifier.as_str();
        let n = s.unicode_len();
        proof {
            lemma_leading_dots_nonneg(specifier@);
        }
        let mut dots: usize = 0;
        while dots < n && s.get_char(dots) == '.'
            invariant
                s@ == specifier@,
                n == specifier@.len(),
                dots <= n,
                forall|j: int| 0 <= j < dots ==> specifier@[j] == '.',
                spec_leading_dots(specifier@) >= dots,
            decreases n - dots,
        {
            proof {
                lemma_leading_dots_step(specifier@, dots as int);
            }
            dots = dots + 1;
        }
        proof {
            lemma_leading_dots_exact(specifier@, dots as int);
        }
        let module = s.substring_char(dots, n);
        let mut base = from_dir.clone();
        let mut up: usize = 1;
        while up < dots
            invariant
                1 <= up || dots == 0,
                up <= dots || up == 1,
                spec_leading_dots(specifier@) == dots,
                module@ == specifier@.skip(dots as int),
                spec_climb(from_dir@, dots - 1) == spec_climb(base@, dots - (up as int)),
            decreases dots - up,
        {
            match parent_dir(&base) {
                Some(p) => {
                    base = p;
                },
                None => {
                    proof {
                        assert(spec_climb(base@, dots - (up as int)) is None);
                    }
                    return None;
                },
            }
            up = up + 1;
        }
        proof {
            assert(spec_climb(from_dir@, dots - 1) == Some(base@));
            assert(module@ == specifier@.skip(dots as int));
        }
        try_resolve_module(v, &base, module)
    }

    /// Resolve a package specifier through the source roots, then the
    /// site-packages directories.
    pub fn resolve_absolute(&self, v: &FsView, specifier: &String) -> (r: Option<String>)
        ensures
            match r {
                Some(p) => spec_resolve_absolute(*self, *v, specifier@) == Some(p@),
                None => spec_resolve_absolute(*self, *v, specifier@) is None,
            },
    {
        match first_root(&self.source_roots, v, specifier) {
            Some(p) => {
                return Some(p);
            },
            None => {},
        }
        first_root(&self.site_packages_dirs, v, specifier)
    }
}

/// Which specifiers count as relative ones.
pub open spec fn spec_resolve(
    res: PythonResolver,
    v: FsView,
    from_dir: Seq<char>,
    specifier: Seq<char>,
) -> Option<Seq<char>> {
    if specifier.len() > 0 && specifier[0] == '.' {
        spec_resolve_relative(v, from_dir, specifier)
    } else {
        spec_resolve_absolute(res, v, specifier)
    }
}

fn first_root(roots: &Vec<String>, v: &FsView, specifier: &String) -> (r: Option<String>)
    ensures
        match r {
            Some(p) => spec_first_root(roots@, *v, specifier@) == Some(p@),
            None => spec_first_root(roots@, *v, specifier@) is None,
        },
{
    let n = roots.len();
    proof {
        assert(roots@.skip(0) =~= roots@);
    }
    let mut i: usize = 0;
    while i < n
        invariant
            n == roots@.len(),
            i <= n,
            spec_first_root(roots@, *v, specifier@) == spec_first_root(
                roots@.skip(i as int),
                *v,
                specifier@,
            ),
        decreases n - i,
    {
        proof {
            assert(roots@.skip(i as int)[0] == roots@[i as int]);
            assert(roots@.skip(i as int).drop_first() =~= roots@.skip(i + 1));
        }
        match try_resolve_module(v, &roots[i], specifier.as_str()) {
            Some(p) => {
                return Some(p);
            },
            None => {},
        }
        i = i + 1;
    }
    proof {
        assert(roots@.skip(n as int) =~= Seq::<String>::empty());
    }
    None
}

proof fn lemma_leading_dots_step(s: Seq<char>, i: int)
    requires
        0 <= i < s.len(),
        s[i] == '.',
        forall|j: int| 0 <= j < i ==> s[j] == '.',
        spec_leading_dots(s) >= i,
    ensures
        spec_leading_dots(s) >= i + 1,
    decreases i,
{
    if i == 0 {
        assert(spec_leading_dots(s) == 1 + spec_leading_dots(s.drop_first()));
        lemma_leading_dots_nonneg(s.drop_first());
    } else {
        assert(s[0] == '.');
        assert(spec_leading_dots(s) == 1 + spec_leading_dots(s.drop_first()));
        assert(s.drop_first()[i - 1] == '.');
        assert forall|j: int| 0 <= j < i - 1 implies s.drop_first()[j] == '.' by {
            assert(s[j + 1] == '.');
        }
        lemma_leading_dots_step(s.drop_first(), i - 1);
    }
}

proof fn lemma_leading_dots_nonneg(s: Seq<char>)
    ensures
        spec_leading_dots(s) >= 0,
    decreases s.len(),
{
    if s.len() > 0 && s[0] == '.' {
        lemma_leading_dots_nonneg(s.drop_first());
    }
}

proof fn lemma_leading_dots_exact(s: Seq<char>, i: int)
    requires
        0 <= i <= s.len(),
        forall|j: int| 0 <= j < i ==> s[j] == '.',
        i == s.len() || s[i] != '.',
    ensures
        spec_leading_dots(s) == i,
    decreases i,
{
    if i == 0 {
    } else {
        assert(s[0] == '.');
        assert forall|j: int| 0 <= j < i - 1 implies s.drop_first()[j] == '.' by {
            assert(s[j + 1] == '.');
        }
        if i < s.len() {
            assert(s.drop_first()[i - 1] != '.');
        }
        lemma_leading_dots_exact(s.drop_first(), i - 1);
    }
}

/// Package attribution against a list of site-packages directories, first
/// hit wins: the first path segment of `path` below the directory, unless
/// that segment names distribution metadata (then the next directory is
/// tried) or there is no segment below the directory (then the lookup
/// stops with nothing).
pub open spec fn spec_pkg_from_path(path: Seq<char>, sps: Seq<Seq<char>>) -> Option<Seq<char>>
    decreases sps.len(),
{
    if sps.len() == 0 {
        None
    } else if path == sps[0] || path == sps[0] + seq!['/'] {
        None
    } else {
        match spec_package_name(path, sps[0]) {
            Some(name) => Some(name),
            None => spec_pkg_from_path(path, sps.drop_first()),
        }
    }
}

pub open spec fn deep_strs(v: Seq<String>) -> Seq<Seq<char>> {
    v.map_values(|s: String| s@)
}

/// The package-name attribution of a resolved path: the first path segment
/// below the first site-packages directory that contains it, unless that
/// segment is distribution metadata.
pub fn package_name_from_path(path: &String, site_packages: &Vec<String>) -> (r: Option<String>)
    ensures
        match r {
            Some(name) => spec_pkg_from_path(path@, deep_strs(site_packages@)) == Some(name@),
            None => spec_pkg_from_path(path@, deep_strs(site_packages@)) is None,
        },
{
    let n = site_packages.len();
    proof {
        assert(deep_strs(site_packages@).skip(0) =~= deep_strs(site_packages@));
    }
    let mut i: usize = 0;
    while i < n
        invariant
            n == site_packages@.len(),
            i <= n,
            spec_pkg_from_path(path@, deep_strs(site_packages@)) == spec_pkg_from_path(
                path@,
                deep_strs(site_packages@).skip(i as int),
            ),
        decreases n - i,
    {
        proof {
            assert(deep_strs(site_packages@).skip(i as int)[0] == site_packages@[i as int]@);
            assert(deep_strs(site_packages@).skip(i as int).drop_first() =~= deep_strs(
                site_packages@,
            ).skip(i + 1));
        }
        let sp = &site_packages[i];
        let sp_slash = strutil::concat2(sp.as_str(), "/");
        proof {
            reveal_strlit("/");
            assert(sp_slash@ =~= sp@ + seq!['/']);
        }
        if strutil::str_eq(path.as_str(), sp.as_str()) || strutil::str_eq(
            path.as_str(),
            sp_slash.as_str(),
        ) {
            // the path names the directory itself: no component below it
            return None;
        }
        if strutil::str_starts_with(path.as_str(), sp_slash.as_str()) {
            let start = sp_slash.unicode_len();
            let pn = path.as_str().unicode_len();
            let end = match strutil::index_of_from(path.as_str(), '/', start) {
                Some(e) => e,
                None => pn,
            };
            proof {
                lemma_top_component(path@, sp@, end as int);
            }
            let top = String::from_str(path.as_str().substring_char(start, end));
            proof {
                assert(top@ =~= spec_top_component(path@, sp@));
            }
            let is_meta = strutil::str_ends_with(top.as_str(), ".dist-info")
                || strutil::str_ends_with(top.as_str(), ".egg-info");
            if !is_meta {
                proof {
                    assert(top@.len() >= ".dist-info"@.len() ==> top@.skip(top@.len()
                        - ".dist-info"@.len()) =~= top@.subrange(
                        top@.len() - ".dist-info"@.len(),
                        top@.len() as int,
                    ));
                    assert(top@.len() >= ".egg-info"@.len() ==> top@.skip(top@.len()
                        - ".egg-info"@.len()) =~= top@.subrange(
                        top@.len() - ".egg-info"@.len(),
                        top@.len() as int,
                    ));
                    assert(spec_package_name(path@, sp@) == Some(top@));
                }
                return Some(top);
            }
            proof {
                assert(top@.skip(top@.len() - ".dist-info"@.len()) =~= top@.subrange(
                    top@.len() - ".dist-info"@.len(),
                    top@.len() as int,
                ));
                assert(top@.skip(top@.len() - ".egg-info"@.len()) =~= top@.subrange(
                    top@.len() - ".egg-info"@.len(),
                    top@.len() as int,
                ));
                assert(spec_package_name(path@, sp@) is None);
            }
        } else {
            proof {
                assert(spec_package_name(path@, sp@) is None);
            }
        }
        i = i + 1;
    }
    None
}

/// The first-segment bound used by [`spec_top_component`] matches the
/// executable scan.
#[verifier::rlimit(100)]
#[verifier::spinoff_prover]
proof fn lemma_top_component(path: Seq<char>, sp: Seq<char>, end: int)
    requires
        path.len() > sp.len() + 1 || path.len() == sp.len() + 1,
        sp.len() + 1 <= end <= path.len(),
        end < path.len() ==> path[end] == '/',
        forall|j: int| sp.len() + 1 <= j < end ==> path[j] != '/',
        end == path.len() ==> forall|j: int| sp.len() + 1 <= j < path.len() ==> path[j] != '/',
    ensures
        spec_top_component(path, sp) == path.subrange(sp.len() + 1int, end),
{
    let start = sp.len() + 1int;
    let rest = path.skip(start);
    if exists|j: int| 0 <= j < rest.len() && rest[j] == '/' {
        let j0 = choose|j: int| 0 <= j < rest.len() && rest[j] == '/';
        assert(path[start + j0] == '/');
        assert(end < path.len());
        let f = first_occurrence(rest, '/');
        assert(exists|j: int|
            0 <= j < rest.len() && rest[j] == '/' && forall|k: int| 0 <= k < j ==> rest[k] != '/')
            by {
            let w = end - start;
            assert(rest[w] == '/');
            assert forall|k: int| 0 <= k < w implies rest[k] != '/' by {
                assert(path[start + k] != '/');
            }
        }
        assert(0 <= f < rest.len() && rest[f] == '/' && forall|k: int| 0 <= k < f ==> rest[k]
            != '/');
        assert(f == end - start) by {
            if f < end - start {
                assert(path[start + f] != '/');
                assert(rest[f] == path[start + f]);
            }
            if f > end - start {
                assert(rest[end - start] == '/');
            }
        }
        assert(rest.take(f) =~= path.subrange(start, end));
    } else {
        assert(end == path.len()) by {
            if end < path.len() {
                assert(rest[end - start] == path[end]);
            }
        }
        assert(rest =~= path.subrange(start, end));
    }
}

/// The first path segment of `path` below directory `sp`.
pub open spec fn spec_top_component(path: Seq<char>, sp: Seq<char>) -> Seq<char> {
    let start = sp.len() + 1int;
    let rest = path.skip(start);
    if exists|j: int| 0 <= j < rest.len() && rest[j] == '/' {
        rest.take(first_occurrence(rest, '/'))
    } else {
        rest
    }
}

/// The first position of `c` in `p` (meaningful only when one exists).
pub open spec fn first_occurrence(p: Seq<char>, c: char) -> int {
    choose|i: int|
        0 <= i < p.len() && p[i] == c && forall|j: int| 0 <= j < i ==> p[j] != c
}

/// What attribution against one site-packages directory yields: the first
/// segment below it, unless the path is not under it or the segment names
/// distribution metadata.
pub open spec fn spec_package_name(path: Seq<char>, sp: Seq<char>) -> Option<Seq<char>> {
    if path.len() > sp.len() && path.take(sp.len() + 1int) == sp + seq!['/'] {
        let top = spec_top_component(path, sp);
        if top.len() >= ".dist-info"@.len() && top.skip(top.len() - ".dist-info"@.len())
            == ".dist-info"@ {
            None
        } else if top.len() >= ".egg-info"@.len() && top.skip(top.len() - ".egg-info"@.len())
            == ".egg-info"@ {
            None
        } else {
            Some(top)
        }
    } else {
        None
    }
}

/// When a character occurs at all, a first occurrence exists.
pub proof fn lemma_first_char_exists(p: Seq<char>, c: char)
    requires
        exists|i: int| 0 <= i < p.len() && p[i] == c,
    ensures
        exists|i: int|
            0 <= i < p.len() && p[i] == c && forall|j: int| 0 <= j < i ==> p[j] != c,
    decreases p.len(),
{
    if p[0] == c {
        assert(0 <= 0 < p.len() && p[0] == c && forall|j: int| 0 <= j < 0 ==> p[j] != c);
    } else {
        let i0 = choose|i: int| 0 <= i < p.len() && p[i] == c;
        assert(p.drop_first()[i0 - 1] == c);
        lemma_first_char_exists(p.drop_first(), c);
        let w = choose|i: int|
            0 <= i < p.drop_first().len() && p.drop_first()[i] == c && forall|j: int|
                0 <= j < i ==> p.drop_first()[j] != c;
        assert(p[w + 1] == c);
        assert forall|j: int| 0 <= j < w + 1 implies p[j] != c by {
            if j > 0 {
                assert(p.drop_first()[j - 1] != c);
            }
        }
    }
}

/// A position that carries `c` with none before it is the first occurrence.
pub proof fn lemma_first_occurrence_is(s: Seq<char>, c: char, i: int)
    requires
        0 <= i < s.len(),
        s[i] == c,
        forall|j: int| 0 <= j < i ==> s[j] != c,
    ensures
        first_occurrence(s, c) == i,
{
    assert(exists|k: int|
        0 <= k < s.len() && s[k] == c && forall|j: int| 0 <= j < k ==> s[j] != c) by {
        assert(0 <= i < s.len() && s[i] == c && forall|j: int| 0 <= j < i ==> s[j] != c);
    }
    let f = first_occurrence(s, c);
    assert(0 <= f < s.len() && s[f] == c && forall|j: int| 0 <= j < f ==> s[j] != c);
}

/// The whitespace the configuration reader strips.
pub open spec fn is_cfg_space(c: char) -> bool {
    c == ' ' || c == '\t' || c == '\r'
}

pub open spec fn spec_trim_front(s: Seq<char>) -> Seq<char>
    decreases s.len(),
{
    if s.len() > 0 && is_cfg_space(s[0]) {
        spec_trim_front(s.drop_first())
    } else {
        s
    }
}

pub open spec fn spec_trim_back(s: Seq<char>) -> Seq<char>
    decreases s.len(),
{
    if s.len() > 0 && is_cfg_space(s.last()) {
        spec_trim_back(s.drop_last())
    } else {
        s
    }
}

/// The string without its leading and trailing spaces, tabs and carriage
/// returns.
pub open spec fn spec_trim(s: Seq<char>) -> Seq<char> {
    spec_trim_back(spec_trim_front(s))
}

proof fn lemma_trim_front_skip(s: Seq<char>, k: int)
    requires
        0 <= k <= s.len(),
        forall|j: int| 0 <= j < k ==> is_cfg_space(#[trigger] s[j]),
        k == s.len() || !is_cfg_space(s[k]),
    ensures
        spec_trim_front(s) == s.skip(k),
    decreases k,
{
    if k == 0 {
        assert(s.skip(0) =~= s);
    } else {
        assert(is_cfg_space(s[0]));
        assert forall|j: int| 0 <= j < k - 1 implies is_cfg_space(#[trigger] s.drop_first()[j])
            by {
            assert(is_cfg_space(s[j + 1]));
        }
        if k < s.len() {
            assert(s.drop_first()[k - 1] == s[k]);
        }
        lemma_trim_front_skip(s.drop_first(), k - 1);
        assert(s.drop_first().skip(k - 1) =~= s.skip(k));
    }
}

proof fn lemma_trim_back_take(s: Seq<char>, e: int)
    requires
        0 <= e <= s.len(),
        forall|j: int| e <= j < s.len() ==> is_cfg_space(#[trigger] s[j]),
        e == 0 || !is_cfg_space(s[e - 1]),
    ensures
        spec_trim_back(s) == s.take(e),
    decreases s.len(),
{
    if e == s.len() {
        if s.len() > 0 && is_cfg_space(s.last()) {
            assert(false);
        }
        assert(s.take(e) =~= s);
    } else {
        assert(is_cfg_space(s.last()));
        assert forall|j: int| e <= j < s.drop_last().len() implies is_cfg_space(
            #[trigger] s.drop_last()[j],
        ) by {
            assert(is_cfg_space(s[j]));
        }
        if e > 0 {
            assert(s.drop_last()[e - 1] == s[e - 1]);
        }
        lemma_trim_back_take(s.drop_last(), e);
        assert(s.drop_last().take(e) =~= s.take(e));
    }
}

/// The string without leading and trailing spaces, tabs, or carriage
/// returns.
fn trim_spaces(s: &str) -> (r: String)
    ensures
        r@ == spec_trim(s@),
{
    let n = s.unicode_len();
    let mut start: usize = 0;
    while start < n && (s.get_char(start) == ' ' || s.get_char(start) == '\t' || s.get_char(start)
        == '\r')
        invariant
            n == s@.len(),
            start <= n,
            forall|j: int| 0 <= j < start ==> is_cfg_space(#[trigger] s@[j]),
        decreases n - start,
    {
        start = start + 1;
    }
    let mut end: usize = n;
    while end > start && (s.get_char(end - 1) == ' ' || s.get_char(end - 1) == '\t' || s.get_char(
        end - 1,
    ) == '\r')
        invariant
            n == s@.len(),
            start <= end,
            end <= n,
            forall|j: int| 0 <= j < start ==> is_cfg_space(#[trigger] s@[j]),
            start == n || !is_cfg_space(s@[start as int]),
            forall|j: int| end <= j < n ==> is_cfg_space(#[trigger] s@[j]),
        decreases end,
    {
        end = end - 1;
    }
    proof {
        lemma_trim_front_skip(s@, start as int);
        let tail = s@.skip(start as int);
        lemma_trim_back_take(tail, end - start);
        assert forall|j: int| end - start <= j < tail.len() implies is_cfg_space(
            #[trigger] tail[j],
        ) by {
            assert(is_cfg_space(s@[start + j]));
        }
        assert(tail.take(end - start) =~= s@.subrange(start as int, end as int));
    }
    String::from_str(s.substring_char(start, end))
}

/// What one configuration line contributes: nothing when it does not
/// assign `version` or `version_info`; otherwise the decision — the
/// value's `major.minor` prefix, or no version at all when the value has
/// no dot.
pub open spec fn spec_version_line(line: Seq<char>) -> Option<Option<Seq<char>>> {
    if !(exists|i: int| 0 <= i < line.len() && line[i] == '=') {
        None
    } else {
        let eq = first_occurrence(line, '=');
        let key = spec_trim(line.take(eq));
        if key != "version"@ && key != "version_info"@ {
            None
        } else {
            Some(spec_major_minor(spec_trim(line.skip(eq + 1))))
        }
    }
}

/// The `major.minor` prefix of a dotted version value; nothing without a
/// dot.
pub open spec fn spec_major_minor(value: Seq<char>) -> Option<Seq<char>> {
    if !(exists|i: int| 0 <= i < value.len() && value[i] == '.') {
        None
    } else {
        let d1 = first_occurrence(value, '.');
        let major = value.take(d1);
        let rest = value.skip(d1 + 1);
        let minor = if exists|i: int| 0 <= i < rest.len() && rest[i] == '.' {
            rest.take(first_occurrence(rest, '.'))
        } else {
            rest
        };
        Some(major + seq!['.'] + minor)
    }
}

/// The first `version`/`version_info` line decides the whole read: its
/// value's `major.minor` prefix, or nothing when that value is malformed
/// or no such line exists.
pub open spec fn spec_parse_python_version(cfg: Seq<char>) -> Option<Seq<char>>
    decreases cfg.len(),
    via spec_parse_python_version_decreases
{
    if cfg.len() == 0 {
        None
    } else {
        let line_end = if exists|i: int| 0 <= i < cfg.len() && cfg[i] == '\n' {
            first_occurrence(cfg, '\n')
        } else {
            cfg.len() as int
        };
        match spec_version_line(cfg.take(line_end)) {
            Some(decision) => decision,
            None => if line_end == cfg.len() {
                None
            } else {
                spec_parse_python_version(cfg.skip(line_end + 1))
            },
        }
    }
}

#[via_fn]
proof fn spec_parse_python_version_decreases(cfg: Seq<char>) {
    if cfg.len() > 0 {
        if exists|i: int| 0 <= i < cfg.len() && cfg[i] == '\n' {
            lemma_first_char_exists(cfg, '\n');
            let f = first_occurrence(cfg, '\n');
            assert(0 <= f < cfg.len());
        }
    }
}

/// The `major.minor` part of the version recorded in a virtual
/// environment's configuration file, read from the first `version` or
/// `version_info` line.
#[verifier::rlimit(100)]
#[verifier::spinoff_prover]
pub fn parse_python_version(cfg: &str) -> (r: Option<String>)
    ensures
        match r {
            Some(v) => spec_parse_python_version(cfg@) == Some(v@),
            None => spec_parse_python_version(cfg@) is None,
        },
{
    let n = cfg.unicode_len();
    proof {
        assert(cfg@.skip(0) =~= cfg@);
    }
    let mut pos: usize = 0;
    loop
        invariant
            pos <= n,
            n == cfg@.len(),
            spec_parse_python_version(cfg@) == spec_parse_python_version(cfg@.skip(pos as int)),
        decreases n - pos,
    {
        if pos >= n {
            proof {
                assert(cfg@.skip(pos as int).len() == 0);
            }
            return None;
        }
        let ghost tail = cfg@.skip(pos as int);
        let line_end = match strutil::index_of_from(cfg, '\n', pos) {
            Some(e) => e,
            None => n,
        };
        proof {
            // the first newline of the remaining text sits at this offset
            if line_end < n {
                assert(tail[line_end - pos] == cfg@[line_end as int]);
                assert forall|j: int| 0 <= j < line_end - pos implies tail[j] != '\n' by {
                    assert(tail[j] == cfg@[pos + j]);
                }
                lemma_first_occurrence_is(tail, '\n', line_end - pos);
            } else {
                assert forall|i: int| 0 <= i < tail.len() implies tail[i] != '\n' by {
                    assert(tail[i] == cfg@[pos + i]);
                }
            }
        }
        let line = cfg.substring_char(pos, line_end);
        proof {
            assert(line@ =~= tail.take(line_end - pos));
        }
        let decided = parse_version_line(line);
        match decided {
            Some(decision) => {
                proof {
                    assert(spec_parse_python_version(tail) == match decision {
                        Some(ref v) => Some(v@),
                        None => None::<Seq<char>>,
                    });
                }
                return decision;
            },
            None => {},
        }
        if line_end >= n {
            proof {
                assert(line_end - pos == tail.len());
                assert(tail.take(line_end - pos) =~= tail);
            }
            return None;
        }
        proof {
            assert(tail.skip(line_end - pos + 1) =~= cfg@.skip(line_end + 1));
        }
        pos = line_end + 1;
    }
}

/// One configuration line: no decision when it is not a version
/// assignment; else the decided result.
#[verifier::rlimit(100)]
#[verifier::spinoff_prover]
fn parse_version_line(line: &str) -> (r: Option<Option<String>>)
    ensures
        match r {
            None => spec_version_line(line@) is None,
            Some(decision) => spec_version_line(line@) == Some(
                match decision {
                    Some(v) => Some(v@),
                    None => None::<Seq<char>>,
                },
            ),
        },
{
    let n = line.unicode_len();
    let eq = match strutil::index_of_from(line, '=', 0) {
        Some(e) => e,
        None => {
            return None;
        },
    };
    proof {
        lemma_first_occurrence_is(line@, '=', eq as int);
    }
    let key = trim_spaces(line.substring_char(0, eq));
    proof {
        assert(line@.subrange(0, eq as int) =~= line@.take(eq as int));
    }
    let is_version_key = strutil::str_eq(key.as_str(), "version") || strutil::str_eq(
        key.as_str(),
        "version_info",
    );
    if !is_version_key {
        return None;
    }
    let value = trim_spaces(line.substring_char(eq + 1, n));
    proof {
        assert(line@.subrange(eq + 1, n as int) =~= line@.skip(eq + 1));
    }
    match parse_major_minor(&value) {
        Some(v) => Some(Some(v)),
        None => Some(None),
    }
}

/// The `major.minor` prefix of a dotted version value.
#[verifier::rlimit(100)]
#[verifier::spinoff_prover]
fn parse_major_minor(value: &String) -> (r: Option<String>)
    ensures
        match r {
            Some(v) => spec_major_minor(value@) == Some(v@),
            None => spec_major_minor(value@) is None,
        },
{
    let vs = value.as_str();
    let vn = vs.unicode_len();
    let dot1 = match strutil::index_of_from(vs, '.', 0) {
        Some(d) => d,
        None => {
            return None;
        },
    };
    proof {
        lemma_first_occurrence_is(value@, '.', dot1 as int);
    }
    let major = vs.substring_char(0, dot1);
    let ghost rest = value@.skip(dot1 + 1int);
    let dot2 = match strutil::index_of_from(vs, '.', dot1 + 1) {
        Some(d) => d,
        None => vn,
    };
    proof {
        if (dot2 as int) < vn as int {
            assert(rest[dot2 - dot1 - 1] == value@[dot2 as int]);
            assert forall|j: int| 0 <= j < dot2 - dot1 - 1 implies rest[j] != '.' by {
                assert(rest[j] == value@[dot1 + 1 + j]);
            }
            lemma_first_occurrence_is(rest, '.', dot2 - dot1 - 1);
        } else {
            assert forall|i: int| 0 <= i < rest.len() implies rest[i] != '.' by {
                assert(rest[i] == value@[dot1 + 1 + i]);
            }
        }
    }
    let minor = vs.substring_char(dot1 + 1, dot2);
    let out = strutil::concat3(major, ".", minor);
    proof {
        reveal_strlit(".");
        assert(major@ =~= value@.take(dot1 as int));
        assert(minor@ =~= (if exists|i: int| 0 <= i < rest.len() && rest[i] == '.' {
            rest.take(first_occurrence(rest, '.'))
        } else {
            rest
        }));
        assert(out@ =~= value@.take(dot1 as int) + seq!['.'] + minor@);
    }
    Some(out)
}

// --- TypeScript/JavaScript resolution ---

/// The resolution phase a specifier takes: relative to the importing
/// directory, an absolute filesystem path, or a package lookup through the
/// ancestors' package directories.
#[derive(Debug, Clone, Copy, PartialEq, Eq, Structural)]
pub enum SpecifierKind {
    Relative,
    Absolute,
    Package,
}

pub open spec fn spec_specifier_kind(s: Seq<char>) -> SpecifierKind {
    if s.len() >= 2 && s.subrange(0, 2) == "./"@ {
        SpecifierKind::Relative
    } else if s.len() >= 3 && s.subrange(0, 3) == "../"@ {
        SpecifierKind::Relative
    } else if s.len() >= 1 && s[0] == '/' {
        SpecifierKind::Absolute
    } else {
        SpecifierKind::Package
    }
}

/// Classify a specifier: a `./` or `../` prefix is relative, a leading `/`
/// absolute, anything else names a package.
pub fn specifier_kind(s: &String) -> (r: SpecifierKind)
    ensures
        r == spec_specifier_kind(s@),
{
    proof {
        reveal_strlit("./");
        reveal_strlit("../");
    }
    if strutil::str_starts_with(s.as_str(), "./") || strutil::str_starts_with(s.as_str(), "../") {
        return SpecifierKind::Relative;
    }
    let n = s.as_str().unicode_len();
    if n >= 1 && s.as_str().get_char(0) == '/' {
        return SpecifierKind::Absolute;
    }
    SpecifierKind::Package
}

/// The grammar a file is parsed with, selected by its extension.
#[derive(Debug, Clone, Copy, PartialEq, Eq, Structural)]
pub enum SyntaxChoice {
    /// `.ts`: TypeScript without JSX.
    TsPlain,
    /// `.tsx`: TypeScript with JSX.
    TsJsx,
    /// `.jsx`: JavaScript with JSX.
    EsJsx,
    /// Everything else, `.js`, `.mjs` and `.cjs` included: plain JavaScript.
    EsPlain,
}

pub open spec fn spec_syntax_choice(p: Seq<char>) -> SyntaxChoice {
    let ext = crate::builder::path_extension(p);
    if ext == "ts"@ {
        SyntaxChoice::TsPlain
    } else if ext == "tsx"@ {
        SyntaxChoice::TsJsx
    } else if ext == "jsx"@ {
        SyntaxChoice::EsJsx
    } else {
        SyntaxChoice::EsPlain
    }
}

/// Select the grammar for a path by its extension.
pub fn syntax_choice(path: &String) -> (r: SyntaxChoice)
    ensures
        r == spec_syntax_choice(path@),
{
    let s = path.as_str();
    let n = s.unicode_len();
    let dot = strutil::last_index_of(s, '.');
    match dot {
        None => {
            proof {
                assert(crate::builder::path_extension(path@) == Seq::<char>::empty()) by {
                    if exists|i: int| 0 <= i < path@.len() && path@[i] == '.' {
                        let i = choose|i: int| 0 <= i < path@.len() && path@[i] == '.';
                        assert(false);
                    }
                }
                lemma_empty_ext_is_plain();
            }
            SyntaxChoice::EsPlain
        },
        Some(d) => {
            proof {
                assert(crate::builder::last_occurrence(path@, '.') == d as int) by {
                    let j = crate::builder::last_occurrence(path@, '.');
                    assert(0 <= j < path@.len() && path@[j] == '.' && forall|k: int|
                        j < k < path@.len() ==> path@[k] != '.');
                    if j < d {
                        assert(path@[d as int] != '.');
                    }
                    if j > d {
                        assert(path@[j] != '.');
                    }
                }
            }
            let slash_after = strutil::index_of_from(s, '/', d + 1);
            match slash_after {
                Some(_) => {
                    proof {
                        assert(crate::builder::path_extension(path@) == Seq::<char>::empty());
                        lemma_empty_ext_is_plain();
                    }
                    SyntaxChoice::EsPlain
                },
                None => {
                    let ext = s.substring_char(d + 1, n);
                    proof {
                        assert(crate::builder::path_extension(path@) == ext@);
                    }
                    if strutil::str_eq(ext, "ts") {
                        SyntaxChoice::TsPlain
                    } else if strutil::str_eq(ext, "tsx") {
                        SyntaxChoice::TsJsx
                    } else if strutil::str_eq(ext, "jsx") {
                        SyntaxChoice::EsJsx
                    } else {
                        SyntaxChoice::EsPlain
                    }
                },
            }
        },
    }
}

proof fn lemma_empty_ext_is_plain()
    ensures
        spec_syntax_choice_of_ext(Seq::<char>::empty()) == SyntaxChoice::EsPlain,
        forall|ext: Seq<char>|
            ext.len() == 0 ==> !(ext == "ts"@) && !(ext == "tsx"@) && !(ext == "jsx"@),
{
    reveal_strlit("ts");
    reveal_strlit("tsx");
    reveal_strlit("jsx");
    assert("ts"@.len() == 2);
    assert("tsx"@.len() == 3);
    assert("jsx"@.len() == 3);
}

pub open spec fn spec_syntax_choice_of_ext(ext: Seq<char>) -> SyntaxChoice {
    if ext == "ts"@ {
        SyntaxChoice::TsPlain
    } else if ext == "tsx"@ {
        SyntaxChoice::TsJsx
    } else if ext == "jsx"@ {
        SyntaxChoice::EsJsx
    } else {
        SyntaxChoice::EsPlain
    }
}

/// The candidate files the extension rules try for a path `P`, in order:
/// `P` itself, then `P` with each known extension appended.
pub open spec fn spec_file_candidates(p: Seq<char>) -> Seq<Seq<char>> {
    seq![
        p,
        p + ".ts"@,
        p + ".tsx"@,
        p + ".d.ts"@,
        p + ".js"@,
        p + ".jsx"@,
        p + ".mjs"@,
        p + ".cjs"@,
    ]
}

/// The views of a list of candidate paths.
pub open spec fn deep_paths(v: Seq<String>) -> Seq<Seq<char>> {
    v.map_values(|s: String| s@)
}

pub fn ts_file_candidates(p: &String) -> (r: Vec<String>)
    ensures
        deep_paths(r@) == spec_file_candidates(p@),
{
    let mut out: Vec<String> = Vec::new();
    out.push(p.clone());
    out.push(strutil::concat2(p.as_str(), ".ts"));
    out.push(strutil::concat2(p.as_str(), ".tsx"));
    out.push(strutil::concat2(p.as_str(), ".d.ts"));
    out.push(strutil::concat2(p.as_str(), ".js"));
    out.push(strutil::concat2(p.as_str(), ".jsx"));
    out.push(strutil::concat2(p.as_str(), ".mjs"));
    out.push(strutil::concat2(p.as_str(), ".cjs"));
    proof {
        assert(deep_paths(out@) =~= spec_file_candidates(p@));
    }
    out
}

/// The candidates tried inside a directory `P`: the manifest entry the
/// caller read (`main`, `module` or the root export), resolved against `P`
/// with the extension rules, then the index files.
pub open spec fn spec_dir_candidates(dir: Seq<char>, entry: Option<Seq<char>>) -> Seq<Seq<char>> {
    let index = spec_file_candidates(dir + "/index"@).drop_first();
    match entry {
        Some(m) => spec_file_candidates(dir + seq!['/'] + m) + index,
        None => index,
    }
}

pub fn ts_dir_candidates(dir: &String, manifest_entry: &Option<String>) -> (r: Vec<String>)
    ensures
        deep_paths(r@) == spec_dir_candidates(
            dir@,
            match manifest_entry {
                Some(m) => Some(m@),
                None => None,
            },
        ),
{
    let mut out: Vec<String> = Vec::new();
    match manifest_entry {
        Some(m) => {
            let base = strutil::concat3(dir.as_str(), "/", m.as_str());
            proof {
                reveal_strlit("/");
                assert(base@ =~= dir@ + seq!['/'] + m@);
            }
            let mut files = ts_file_candidates(&base);
            let fn_ = files.len();
            let mut i: usize = 0;
            while i < fn_
                invariant
                    fn_ == files@.len(),
                    i <= fn_,
                    deep_paths(files@) == spec_file_candidates(base@),
                    deep_paths(out@) =~= spec_file_candidates(base@).take(i as int),
                decreases fn_ - i,
            {
                out.push(files[i].clone());
                proof {
                    assert(out@[out@.len() - 1]@ == deep_paths(files@)[i as int]);
                    assert(spec_file_candidates(base@).take(i + 1) =~= spec_file_candidates(
                        base@,
                    ).take(i as int).push(spec_file_candidates(base@)[i as int]));
                    assert(deep_paths(out@) =~= spec_file_candidates(base@).take(i + 1));
                }
                i = i + 1;
            }
            proof {
                assert(spec_file_candidates(base@).take(fn_ as int) =~= spec_file_candidates(
                    base@,
                ));
            }
        },
        None => {},
    }
    let index_base = strutil::concat2(dir.as_str(), "/index");
    proof {
        reveal_strlit("/index");
        assert(index_base@ =~= dir@ + "/index"@);
    }
    out.push(strutil::concat2(index_base.as_str(), ".ts"));
    out.push(strutil::concat2(index_base.as_str(), ".tsx"));
    out.push(strutil::concat2(index_base.as_str(), ".d.ts"));
    out.push(strutil::concat2(index_base.as_str(), ".js"));
    out.push(strutil::concat2(index_base.as_str(), ".jsx"));
    out.push(strutil::concat2(index_base.as_str(), ".mjs"));
    out.push(strutil::concat2(index_base.as_str(), ".cjs"));
    proof {
        assert(deep_paths(out@) =~= spec_dir_candidates(
            dir@,
            match manifest_entry {
                Some(m) => Some(m@),
                None => None,
            },
        ));
    }
    out
}

/// The package roots probed for a bare specifier: each ancestor of the
/// importing directory contributes `<ancestor>/node_modules/<specifier>`,
/// nearest ancestor first.
pub open spec fn spec_package_roots(dir: Seq<char>, specifier: Seq<char>) -> Seq<Seq<char>>
    decreases dir.len(),
    via spec_package_roots_decreases
{
    seq![dir + "/node_modules/"@ + specifier] + match spec_parent_dir(dir) {
        Some(parent) => spec_package_roots(parent, specifier),
        None => Seq::<Seq<char>>::empty(),
    }
}

#[via_fn]
proof fn spec_package_roots_decreases(dir: Seq<char>, specifier: Seq<char>) {
    if spec_parent_dir(dir) is Some {
        lemma_last_char_exists(dir, '/');
        let i = crate::builder::last_occurrence(dir, '/');
        assert(0 <= i < dir.len() && dir[i] == '/');
    }
}

pub fn package_root_candidates(from_dir: &String, specifier: &String) -> (r: Vec<String>)
    ensures
        deep_paths(r@) == spec_package_roots(from_dir@, specifier@),
{
    let mut out: Vec<String> = Vec::new();
    let mut dir = from_dir.clone();
    loop
        invariant
            spec_package_roots(from_dir@, specifier@) =~= deep_paths(out@) + spec_package_roots(
                dir@,
                specifier@,
            ),
        decreases dir@.len(),
    {
        let candidate = strutil::concat3(dir.as_str(), "/node_modules/", specifier.as_str());
        proof {
            assert(candidate@ =~= dir@ + "/node_modules/"@ + specifier@);
        }
        out.push(candidate);
        match parent_dir(&dir) {
            Some(parent) => {
                proof {
                    assert(deep_paths(out@) =~= deep_paths(out@.drop_last()).push(
                        out@.last()@,
                    ));
                    assert(spec_package_roots(from_dir@, specifier@) =~= deep_paths(out@)
                        + spec_package_roots(parent@, specifier@));
                }
                dir = parent;
            },
            None => {
                proof {
                    assert(spec_package_roots(dir@, specifier@) =~= seq![
                        dir@ + "/node_modules/"@ + specifier@,
                    ]);
                    assert(deep_paths(out@) =~= spec_package_roots(from_dir@, specifier@));
                }
                return out;
            },
        }
    }
}

/// The first of the candidates that the caller observed to exist.
pub open spec fn spec_first_existing(v: FsView, cands: Seq<Seq<char>>) -> Option<Seq<char>>
    decreases cands.len(),
{
    if cands.len() == 0 {
        None
    } else if fs_has(v, cands[0]) {
        Some(cands[0])
    } else {
        spec_first_existing(v, cands.drop_first())
    }
}

pub fn first_existing(v: &FsView, candidates: &Vec<String>) -> (r: Option<String>)
    ensures
        match r {
            Some(p) => spec_first_existing(*v, deep_paths(candidates@)) == Some(p@),
            None => spec_first_existing(*v, deep_paths(candidates@)) is None,
        },
{
    let n = candidates.len();
    proof {
        assert(deep_paths(candidates@).skip(0) =~= deep_paths(candidates@));
    }
    let mut i: usize = 0;
    while i < n
        invariant
            n == candidates@.len(),
            i <= n,
            spec_first_existing(*v, deep_paths(candidates@)) == spec_first_existing(
                *v,
                deep_paths(candidates@).skip(i as int),
            ),
        decreases n - i,
    {
        proof {
            assert(deep_paths(candidates@).skip(i as int)[0] == candidates@[i as int]@);
            assert(deep_paths(candidates@).skip(i as int).drop_first() =~= deep_paths(
                candidates@,
            ).skip(i + 1));
        }
        if v.contains(&candidates[i]) {
            return Some(candidates[i].clone());
        }
        i = i + 1;
    }
    proof {
        assert(deep_paths(candidates@).skip(n as int) =~= Seq::<Seq<char>>::empty());
    }
    None
}

/// The first workspace member whose directory contains the file: each
/// member is the package name and the member directory's path.
pub open spec fn spec_workspace_name(path: Seq<char>, members: Seq<(String, String)>) -> Option<
    Seq<char>,
>
    decreases members.len(),
{
    if members.len() == 0 {
        None
    } else if path.len() > members[0].1@.len() && path.take(members[0].1@.len() + 1int)
        == members[0].1@ + seq!['/'] {
        Some(members[0].0@)
    } else {
        spec_workspace_name(path, members.drop_first())
    }
}

pub fn workspace_package_name(path: &String, members: &Vec<(String, String)>) -> (r: Option<
    String,
>)
    ensures
        match r {
            Some(name) => spec_workspace_name(path@, members@) == Some(name@),
            None => spec_workspace_name(path@, members@) is None,
        },
{
    let n = members.len();
    proof {
        assert(members@.skip(0) =~= members@);
    }
    let mut i: usize = 0;
    while i < n
        invariant
            n == members@.len(),
            i <= n,
            spec_workspace_name(path@, members@) == spec_workspace_name(
                path@,
                members@.skip(i as int),
            ),
        decreases n - i,
    {
        proof {
            assert(members@.skip(i as int)[0] == members@[i as int]);
            assert(members@.skip(i as int).drop_first() =~= members@.skip(i + 1));
        }
        let dir_slash = strutil::concat2(members[i].1.as_str(), "/");
        proof {
            reveal_strlit("/");
            assert(dir_slash@ =~= members@[i as int].1@ + seq!['/']);
        }
        if strutil::str_starts_with(path.as_str(), dir_slash.as_str()) {
            return Some(members[i].0.clone());
        }
        i = i + 1;
    }
    proof {
        assert(members@.skip(n as int) =~= Seq::<(String, String)>::empty());
    }
    None
}

/// `pat` occurs at `i` and nowhere later in `s`.
pub open spec fn is_last_match(s: Seq<char>, pat: Seq<char>, i: int) -> bool {
    crate::judge::matches_at(s, pat, i) && forall|j: int|
        i < j ==> !crate::judge::matches_at(s, pat, j)
}

/// The first path segment of `s`: everything before its first `/`, or all
/// of it when it has none.
pub open spec fn spec_first_component(s: Seq<char>) -> Seq<char> {
    if exists|j: int| 0 <= j < s.len() && s[j] == '/' {
        s.take(first_occurrence(s, '/'))
    } else {
        s
    }
}

/// Package attribution below the last `node_modules` directory found at
/// `i`: the next path segment, or for a scoped package the next two
/// segments joined; nothing when a needed segment is missing.
pub open spec fn spec_nm_name_at(path: Seq<char>, i: int) -> Option<Seq<char>> {
    spec_nm_components(path.skip(i + "/node_modules/"@.len()))
}

/// The package name spelled by the leading segments of `rest`.
pub open spec fn spec_nm_components(rest: Seq<char>) -> Option<Seq<char>> {
    let c1 = spec_first_component(rest);
    if c1.len() == 0 {
        None
    } else if c1[0] == '@' {
        if c1.len() == rest.len() {
            None
        } else {
            let c2 = spec_first_component(rest.skip(c1.len() + 1int));
            if c2.len() == 0 {
                None
            } else {
                Some(c1 + seq!['/'] + c2)
            }
        }
    } else {
        Some(c1)
    }
}

/// What [`node_modules_package_name`] returns: nothing when the path has
/// no `node_modules` directory, else the attribution at the last one.
pub open spec fn nm_name_ok(path: Seq<char>, r: Option<Seq<char>>) -> bool {
    &&& ((forall|j: int| !(#[trigger] crate::judge::matches_at(path, "/node_modules/"@, j)))
        ==> r is None)
    &&& forall|i: int|
        #[trigger] is_last_match(path, "/node_modules/"@, i) ==> r == spec_nm_name_at(path, i)
}

/// The first-segment bound matches an executable scan over the original
/// path.
#[verifier::rlimit(100)]
#[verifier::spinoff_prover]
proof fn lemma_first_component_at(path: Seq<char>, start: int, end: int)
    requires
        0 <= start <= end <= path.len(),
        end < path.len() ==> path[end] == '/',
        forall|j: int| start <= j < end ==> path[j] != '/',
        end == path.len() ==> forall|j: int| start <= j < path.len() ==> path[j] != '/',
    ensures
        spec_first_component(path.skip(start)) == path.subrange(start, end),
{
    let rest = path.skip(start);
    if exists|j: int| 0 <= j < rest.len() && rest[j] == '/' {
        let j0 = choose|j: int| 0 <= j < rest.len() && rest[j] == '/';
        assert(path[start + j0] == '/');
        assert(end < path.len());
        let f = first_occurrence(rest, '/');
        assert(exists|j: int|
            0 <= j < rest.len() && rest[j] == '/' && forall|k: int| 0 <= k < j ==> rest[k] != '/')
            by {
            let w = end - start;
            assert(rest[w] == '/');
            assert forall|k: int| 0 <= k < w implies rest[k] != '/' by {
                assert(path[start + k] != '/');
            }
        }
        assert(0 <= f < rest.len() && rest[f] == '/' && forall|k: int| 0 <= k < f ==> rest[k]
            != '/');
        assert(f == end - start) by {
            if f < end - start {
                assert(path[start + f] != '/');
                assert(rest[f] == path[start + f]);
            }
            if f > end - start {
                assert(rest[end - start] == '/');
            }
        }
        assert(rest.take(f) =~= path.subrange(start, end));
    } else {
        assert(end == path.len()) by {
            if end < path.len() {
                assert(rest[end - start] == path[end]);
            }
        }
        assert(rest =~= path.subrange(start, end));
    }
}

/// Read the package name spelled at `start` of the path.
#[verifier::rlimit(100)]
#[verifier::spinoff_prover]
fn nm_components(path: &String, start: usize) -> (r: Option<String>)
    requires
        start <= path@.len(),
        path@.len() <= usize::MAX,
    ensures
        match r {
            Some(name) => spec_nm_components(path@.skip(start as int)) == Some(name@),
            None => spec_nm_components(path@.skip(start as int)) is None,
        },
{
    let s = path.as_str();
    let n = s.unicode_len();
    let ghost rest = path@.skip(start as int);
    let end1 = match strutil::index_of_from(s, '/', start) {
        Some(e) => e,
        None => n,
    };
    proof {
        lemma_first_component_at(path@, start as int, end1 as int);
    }
    if end1 == start {
        // an empty segment right after the directory: no name
        return None;
    }
    let c1 = s.substring_char(start, end1);
    proof {
        assert(c1@ == spec_first_component(rest));
        assert(c1@.len() > 0);
    }
    if c1.get_char(0) != '@' {
        proof {
            assert(spec_nm_components(rest) == Some(c1@));
        }
        return Some(String::from_str(c1));
    }
    if end1 >= n {
        proof {
            assert(c1@.len() == rest.len());
        }
        return None;
    }
    // a scoped name: the next segment completes it
    let start2 = end1 + 1;
    let ghost rest2 = rest.skip(c1@.len() + 1int);
    proof {
        assert(rest2 =~= path@.skip(start2 as int));
    }
    let end2 = match strutil::index_of_from(s, '/', start2) {
        Some(e) => e,
        None => n,
    };
    proof {
        lemma_first_component_at(path@, start2 as int, end2 as int);
        assert(c1@.len() < rest.len());
    }
    if end2 == start2 {
        return None;
    }
    let c2 = s.substring_char(start2, end2);
    let name = strutil::concat3(c1, "/", c2);
    proof {
        assert(c2@ == spec_first_component(rest2));
        reveal_strlit("/");
        assert(name@ =~= c1@ + seq!['/'] + c2@);
        assert(spec_nm_components(rest) == Some(name@));
    }
    Some(name)
}

/// The package attribution of a resolved path below its nearest
/// `node_modules` directory: the package name, scoped names included.
#[verifier::rlimit(100)]
#[verifier::spinoff_prover]
pub fn node_modules_package_name(path: &String) -> (r: Option<String>)
    ensures
        nm_name_ok(path@, match r {
            Some(name) => Some(name@),
            None => None,
        }),
{
    let pat = "/node_modules/";
    proof {
        reveal_strlit("/node_modules/");
        assert(pat@.len() == 14);
    }
    let s = path.as_str();
    let n = s.unicode_len();
    let i = match crate::judge::last_substr(s, pat) {
        Some(i) => i,
        None => {
            return None;
        },
    };
    proof {
        assert(is_last_match(path@, "/node_modules/"@, i as int));
        // the last match is unique, so the relation need only hold at i
        assert forall|i2: int|
            #[trigger] is_last_match(path@, "/node_modules/"@, i2) implies i2 == i as int by {
            if i2 < i as int {
                assert(!crate::judge::matches_at(path@, "/node_modules/"@, i as int));
            }
            if i2 > i as int {
                assert(!crate::judge::matches_at(path@, "/node_modules/"@, i2));
            }
        }
        assert(i + 14 <= n);
    }
    nm_components(path, i + 14)
}

} // verus!
