use chainsaw::resolver::{
    detect_project, first_existing, node_modules_package_name, package_name_from_path,
    package_root_candidates, parse_python_version, specifier_kind, syntax_choice,
    ts_dir_candidates, ts_file_candidates, try_resolve_module, workspace_package_name, FsView,
    PythonResolver, SpecifierKind, SyntaxChoice,
};

fn s(x: &str) -> String {
    x.to_string()
}

/// The files of the example project the resolver tests look at.
fn setup_project() -> FsView {
    FsView {
        files: vec![
            s("/proj/mypackage/__init__.py"),
            s("/proj/mypackage/core.py"),
            s("/proj/mypackage/utils/__init__.py"),
            s("/proj/mypackage/utils/helpers.py"),
            s("/proj/standalone.py"),
        ],
    }
}

fn make_resolver() -> PythonResolver {
    PythonResolver { source_roots: vec![s("/proj")], site_packages_dirs: vec![] }
}

#[test]
fn resolve_module_file() {
    let view = setup_project();
    let resolver = make_resolver();
    let result = resolver.resolve(&view, &s("/proj"), &s("standalone"));
    assert_eq!(result, Some(s("/proj/standalone.py")));
}

#[test]
fn resolve_package_init() {
    let view = setup_project();
    let resolver = make_resolver();
    let result = resolver.resolve(&view, &s("/proj"), &s("mypackage"));
    assert_eq!(result, Some(s("/proj/mypackage/__init__.py")));
}

#[test]
fn resolve_dotted_module() {
    let view = setup_project();
    let resolver = make_resolver();
    let result = resolver.resolve(&view, &s("/proj"), &s("mypackage.core"));
    assert_eq!(result, Some(s("/proj/mypackage/core.py")));
}

#[test]
fn resolve_dotted_package() {
    let view = setup_project();
    let resolver = make_resolver();
    let result = resolver.resolve(&view, &s("/proj"), &s("mypackage.utils"));
    assert_eq!(result, Some(s("/proj/mypackage/utils/__init__.py")));
}

#[test]
fn resolve_relative_sibling() {
    let view = setup_project();
    let resolver = make_resolver();
    let result = resolver.resolve(&view, &s("/proj/mypackage"), &s(".utils"));
    assert_eq!(result, Some(s("/proj/mypackage/utils/__init__.py")));
}

#[test]
fn resolve_relative_parent() {
    let view = setup_project();
    let resolver = make_resolver();
    let result = resolver.resolve(&view, &s("/proj/mypackage/utils"), &s("..core"));
    assert_eq!(result, Some(s("/proj/mypackage/core.py")));
}

#[test]
fn resolve_site_packages() {
    let view = FsView { files: vec![s("/proj/site-packages/requests/__init__.py")] };
    let resolver = PythonResolver {
        source_roots: vec![s("/proj")],
        site_packages_dirs: vec![s("/proj/site-packages")],
    };
    let result = resolver.resolve(&view, &s("/proj"), &s("requests"));
    assert_eq!(result, Some(s("/proj/site-packages/requests/__init__.py")));
}

#[test]
fn resolve_not_found() {
    let view = setup_project();
    let resolver = make_resolver();
    let result = resolver.resolve(&view, &s("/proj"), &s("nonexistent"));
    assert_eq!(result, None);
}

#[test]
fn resolve_src_layout() {
    let view = FsView {
        files: vec![s("/proj/src/mypackage/__init__.py"), s("/proj/src/mypackage/core.py")],
    };
    let resolver = PythonResolver::new(&s("/proj"), true, false, vec![]);
    let result = resolver.resolve(&view, &s("/proj"), &s("mypackage.core"));
    assert_eq!(result, Some(s("/proj/src/mypackage/core.py")));
}

#[test]
fn resolve_lib_layout() {
    let view = FsView {
        files: vec![s("/proj/lib/mypackage/__init__.py"), s("/proj/lib/mypackage/core.py")],
    };
    let resolver = PythonResolver::new(&s("/proj"), false, true, vec![]);
    let result = resolver.resolve(&view, &s("/proj"), &s("mypackage.core"));
    assert_eq!(result, Some(s("/proj/lib/mypackage/core.py")));
}

#[test]
fn resolve_root_preferred_over_src() {
    // Package in both root and src/ — root wins
    let view = FsView {
        files: vec![s("/proj/mypackage/__init__.py"), s("/proj/src/mypackage/__init__.py")],
    };
    let resolver = PythonResolver::new(&s("/proj"), true, false, vec![]);
    let result = resolver.resolve(&view, &s("/proj"), &s("mypackage"));
    assert_eq!(result, Some(s("/proj/mypackage/__init__.py")));
}

#[test]
fn resolve_empty_name_names_the_package_marker() {
    let view = FsView { files: vec![s("/proj/__init__.py")] };
    let result = try_resolve_module(&view, &s("/proj"), "");
    assert_eq!(result, Some(s("/proj/__init__.py")));
}

#[test]
fn package_name_from_site_packages() {
    let sp = s("/fake/site-packages");
    let path = s("/fake/site-packages/requests/api.py");
    let result = package_name_from_path(&path, &vec![sp]);
    assert_eq!(result, Some("requests".to_string()));
}

#[test]
fn package_name_not_in_site_packages() {
    let sp = s("/fake/site-packages");
    let path = s("/other/place/module.py");
    let result = package_name_from_path(&path, &vec![sp]);
    assert_eq!(result, None);
}

#[test]
fn package_name_skips_dist_info() {
    let sp = s("/fake/site-packages");
    let path = s("/fake/site-packages/requests-2.31.0.dist-info/METADATA");
    let result = package_name_from_path(&path, &vec![sp]);
    assert_eq!(result, None);
}

#[test]
fn discover_from_pyvenv_cfg_version() {
    let version = parse_python_version("home = /usr/bin\nversion = 3.12.8\n");
    assert_eq!(version, Some("3.12".to_string()));
}

#[test]
fn discover_from_pyvenv_cfg_version_info() {
    let version = parse_python_version("home = /usr/bin\nversion_info = 3.11.5\n");
    assert_eq!(version, Some("3.11".to_string()));
}

#[test]
fn discover_from_pyvenv_cfg_venv_dir() {
    let version = parse_python_version("home = /usr/bin\nversion = 3.10.0\n");
    assert_eq!(version, Some("3.10".to_string()));
}

#[test]
fn discover_from_pyvenv_cfg_no_venv_returns_none() {
    assert_eq!(parse_python_version(""), None);
    assert_eq!(parse_python_version("home = /usr/bin\n"), None);
}

#[test]
fn detect_project_finds_nearest_marker() {
    let view = FsView { files: vec![s("/w/app/package.json"), s("/w/package.json")] };
    let (root, _kind) = detect_project(&view, &s("/w/app/src/index.ts"));
    assert_eq!(root, s("/w/app"));
}

#[test]
fn detect_project_falls_back_to_entry_directory() {
    let view = FsView { files: vec![] };
    let (root, _kind) = detect_project(&view, &s("/w/app/index.ts"));
    assert_eq!(root, s("/w/app"));
}

#[test]
fn specifier_kinds() {
    assert_eq!(specifier_kind(&s("./a")), SpecifierKind::Relative);
    assert_eq!(specifier_kind(&s("../a")), SpecifierKind::Relative);
    assert_eq!(specifier_kind(&s("/abs/a")), SpecifierKind::Absolute);
    assert_eq!(specifier_kind(&s("lodash")), SpecifierKind::Package);
    assert_eq!(specifier_kind(&s("@scope/pkg")), SpecifierKind::Package);
}

#[test]
fn syntax_choice_by_extension() {
    assert_eq!(syntax_choice(&s("/p/a.ts")), SyntaxChoice::TsPlain);
    assert_eq!(syntax_choice(&s("/p/a.tsx")), SyntaxChoice::TsJsx);
    assert_eq!(syntax_choice(&s("/p/a.jsx")), SyntaxChoice::EsJsx);
    assert_eq!(syntax_choice(&s("/p/a.js")), SyntaxChoice::EsPlain);
    assert_eq!(syntax_choice(&s("/p/a.mjs")), SyntaxChoice::EsPlain);
    assert_eq!(syntax_choice(&s("/p/noext")), SyntaxChoice::EsPlain);
}

#[test]
fn ts_candidate_order() {
    let c = ts_file_candidates(&s("/p/m"));
    assert_eq!(
        c,
        vec![
            s("/p/m"),
            s("/p/m.ts"),
            s("/p/m.tsx"),
            s("/p/m.d.ts"),
            s("/p/m.js"),
            s("/p/m.jsx"),
            s("/p/m.mjs"),
            s("/p/m.cjs"),
        ]
    );
}

#[test]
fn ts_dir_candidates_manifest_first() {
    let c = ts_dir_candidates(&s("/p/pkg"), &Some(s("lib/main.js")));
    assert_eq!(c[0], s("/p/pkg/lib/main.js"));
    assert_eq!(c[8], s("/p/pkg/index.ts"));
    let c2 = ts_dir_candidates(&s("/p/pkg"), &None);
    assert_eq!(c2[0], s("/p/pkg/index.ts"));
    assert_eq!(c2.len(), 7);
}

#[test]
fn package_roots_walk_ancestors() {
    let roots = package_root_candidates(&s("/w/app/src"), &s("lodash"));
    assert_eq!(
        roots,
        vec![
            s("/w/app/src/node_modules/lodash"),
            s("/w/app/node_modules/lodash"),
            s("/w/node_modules/lodash"),
            s("/node_modules/lodash"),
        ]
    );
}

#[test]
fn first_existing_takes_candidate_order() {
    let cands = ts_file_candidates(&s("/p/m"));
    let view = FsView { files: vec![s("/p/m.js"), s("/p/m.ts")] };
    assert_eq!(first_existing(&view, &cands), Some(s("/p/m.ts")));
    let empty = FsView { files: vec![] };
    assert_eq!(first_existing(&empty, &cands), None);
}

#[test]
fn node_modules_names() {
    assert_eq!(
        node_modules_package_name(&s("/w/node_modules/lodash/index.js")),
        Some(s("lodash"))
    );
    assert_eq!(
        node_modules_package_name(&s("/w/node_modules/@scope/pkg/index.js")),
        Some(s("@scope/pkg"))
    );
    // the nearest (last) node_modules wins
    assert_eq!(
        node_modules_package_name(&s("/w/node_modules/a/node_modules/b/i.js")),
        Some(s("b"))
    );
    assert_eq!(node_modules_package_name(&s("/w/src/index.js")), None);
}

#[test]
fn workspace_member_attribution() {
    let members = vec![(s("@app/core"), s("/w/packages/core")), (s("@app/ui"), s("/w/packages/ui"))];
    assert_eq!(
        workspace_package_name(&s("/w/packages/ui/src/a.ts"), &members),
        Some(s("@app/ui"))
    );
    assert_eq!(workspace_package_name(&s("/w/apps/x.ts"), &members), None);
}

#[test]
fn version_without_dot_decides_nothing() {
    // a matching key with a dotless value stops the read with no version
    assert_eq!(parse_python_version("version = 3\nversion = 3.12.8\n"), None);
    assert_eq!(parse_python_version("home = x\nversion = 3.9\n"), Some("3.9".to_string()));
}
