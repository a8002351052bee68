//! The extraction tests parse nothing: each builds the syntax model a
//! parser would produce for the quoted source and checks what extraction
//! yields for it.

use chainsaw::extract::{
    extract_imports, ExportSpec, ImportSpec, JsCallee, JsExpr, JsItem, JsProp, JsStmt,
};
use chainsaw::graph::EdgeKind;

fn s(x: &str) -> String {
    x.to_string()
}

fn import_call(spec: &str) -> JsExpr {
    JsExpr::Call(JsCallee::ImportCallee, vec![JsExpr::StrLit(s(spec))])
}

fn require_call(spec: &str) -> JsExpr {
    JsExpr::Call(
        JsCallee::Callee(Box::new(JsExpr::Ident(s("require")))),
        vec![JsExpr::StrLit(s(spec))],
    )
}

// --- Static imports ---

#[test]
fn static_named_import() {
    // import { foo } from "bar";
    let items = vec![JsItem::Import {
        src: s("bar"),
        type_only: false,
        specifiers: vec![ImportSpec::Named { is_type_only: false }],
    }];
    let r = extract_imports(&items);
    assert_eq!(r.imports.len(), 1);
    assert_eq!(r.imports[0].specifier, "bar");
    assert_eq!(r.imports[0].kind, EdgeKind::Static);
}

#[test]
fn static_default_import() {
    // import foo from "bar";
    let items = vec![JsItem::Import {
        src: s("bar"),
        type_only: false,
        specifiers: vec![ImportSpec::Bare],
    }];
    let r = extract_imports(&items);
    assert_eq!(r.imports.len(), 1);
    assert_eq!(r.imports[0].specifier, "bar");
    assert_eq!(r.imports[0].kind, EdgeKind::Static);
}

#[test]
fn static_reexport_named() {
    // export { foo } from "bar";
    let items = vec![JsItem::ExportNamed {
        src: Some(s("bar")),
        type_only: false,
        specifiers: vec![ExportSpec::Named { is_type_only: false }],
    }];
    let r = extract_imports(&items);
    assert_eq!(r.imports.len(), 1);
    assert_eq!(r.imports[0].specifier, "bar");
    assert_eq!(r.imports[0].kind, EdgeKind::Static);
}

#[test]
fn static_reexport_star() {
    // export * from "bar";
    let items = vec![JsItem::ExportAll { src: s("bar"), type_only: false }];
    let r = extract_imports(&items);
    assert_eq!(r.imports.len(), 1);
    assert_eq!(r.imports[0].specifier, "bar");
    assert_eq!(r.imports[0].kind, EdgeKind::Static);
}

#[test]
fn static_require() {
    // const x = require("bar");
    let items = vec![JsItem::Stmt(JsStmt::VarDecl(vec![Some(require_call("bar"))]))];
    let r = extract_imports(&items);
    assert_eq!(r.imports.len(), 1);
    assert_eq!(r.imports[0].specifier, "bar");
    assert_eq!(r.imports[0].kind, EdgeKind::Static);
}

// --- Type-only imports ---

#[test]
fn type_only_import() {
    // import type { Foo } from "bar";
    let items = vec![JsItem::Import {
        src: s("bar"),
        type_only: true,
        specifiers: vec![ImportSpec::Named { is_type_only: false }],
    }];
    let r = extract_imports(&items);
    assert_eq!(r.imports.len(), 1);
    assert_eq!(r.imports[0].specifier, "bar");
    assert_eq!(r.imports[0].kind, EdgeKind::TypeOnly);
}

#[test]
fn type_only_all_specifiers() {
    // import { type Foo, type Bar } from "baz";
    let items = vec![JsItem::Import {
        src: s("baz"),
        type_only: false,
        specifiers: vec![
            ImportSpec::Named { is_type_only: true },
            ImportSpec::Named { is_type_only: true },
        ],
    }];
    let r = extract_imports(&items);
    assert_eq!(r.imports.len(), 1);
    assert_eq!(r.imports[0].specifier, "baz");
    assert_eq!(r.imports[0].kind, EdgeKind::TypeOnly);
}

#[test]
fn mixed_type_and_value_specifiers() {
    // import { type Foo, bar } from "baz";
    let items = vec![JsItem::Import {
        src: s("baz"),
        type_only: false,
        specifiers: vec![
            ImportSpec::Named { is_type_only: true },
            ImportSpec::Named { is_type_only: false },
        ],
    }];
    let r = extract_imports(&items);
    assert_eq!(r.imports.len(), 1);
    assert_eq!(r.imports[0].specifier, "baz");
    assert_eq!(r.imports[0].kind, EdgeKind::Static);
}

#[test]
fn type_only_reexport() {
    // export type { Foo } from "bar";
    let items = vec![JsItem::ExportNamed {
        src: Some(s("bar")),
        type_only: true,
        specifiers: vec![ExportSpec::Named { is_type_only: false }],
    }];
    let r = extract_imports(&items);
    assert_eq!(r.imports.len(), 1);
    assert_eq!(r.imports[0].specifier, "bar");
    assert_eq!(r.imports[0].kind, EdgeKind::TypeOnly);
}

// --- Dynamic imports ---

#[test]
fn dynamic_await_import() {
    // const m = await import("bar");
    let items = vec![JsItem::Stmt(JsStmt::VarDecl(vec![Some(JsExpr::Await(Box::new(
        import_call("bar"),
    )))]))];
    let r = extract_imports(&items);
    assert_eq!(r.imports.len(), 1);
    assert_eq!(r.imports[0].specifier, "bar");
    assert_eq!(r.imports[0].kind, EdgeKind::Dynamic);
}

#[test]
fn dynamic_import_expression_position() {
    // import("./run-main.js").then(({ run }) => run());
    let then_call = JsExpr::Call(
        JsCallee::Callee(Box::new(JsExpr::Member(Box::new(import_call("./run-main.js"))))),
        vec![JsExpr::ArrowExpr(Box::new(JsExpr::Other))],
    );
    let items = vec![JsItem::Stmt(JsStmt::Expr(then_call))];
    let r = extract_imports(&items);
    assert_eq!(r.imports.len(), 1);
    assert_eq!(r.imports[0].specifier, "./run-main.js");
    assert_eq!(r.imports[0].kind, EdgeKind::Dynamic);
}

#[test]
fn dynamic_import_in_arrow() {
    // const load = () => import("bar");
    let items = vec![JsItem::Stmt(JsStmt::VarDecl(vec![Some(JsExpr::ArrowExpr(Box::new(
        import_call("bar"),
    )))]))];
    let r = extract_imports(&items);
    assert_eq!(r.imports.len(), 1);
    assert_eq!(r.imports[0].specifier, "bar");
    assert_eq!(r.imports[0].kind, EdgeKind::Dynamic);
}

#[test]
fn require_in_if_block() {
    // if (cond) { const x = require("bar"); }
    let items = vec![JsItem::Stmt(JsStmt::If(
        Box::new(JsStmt::Block(vec![JsStmt::VarDecl(vec![Some(require_call("bar"))])])),
        None,
    ))];
    let r = extract_imports(&items);
    assert_eq!(r.imports.len(), 1);
    assert_eq!(r.imports[0].specifier, "bar");
    assert_eq!(r.imports[0].kind, EdgeKind::Static);
}

// --- Edge cases ---

#[test]
fn dynamic_import_in_try_catch() {
    // try { await import("bar"); } catch (e) { console.error(e); }
    let items = vec![JsItem::Stmt(JsStmt::Try(
        vec![JsStmt::Expr(JsExpr::Await(Box::new(import_call("bar"))))],
        Some(vec![JsStmt::Expr(JsExpr::Call(
            JsCallee::Callee(Box::new(JsExpr::Member(Box::new(JsExpr::Ident(s("console")))))),
            vec![JsExpr::Ident(s("e"))],
        ))]),
        None,
    ))];
    let r = extract_imports(&items);
    assert_eq!(r.imports.len(), 1);
    assert_eq!(r.imports[0].specifier, "bar");
    assert_eq!(r.imports[0].kind, EdgeKind::Dynamic);
}

#[test]
fn multiple_imports_all_kinds() {
    let items = vec![
        // import { a } from "static-dep";
        JsItem::Import {
            src: s("static-dep"),
            type_only: false,
            specifiers: vec![ImportSpec::Named { is_type_only: false }],
        },
        // import type { B } from "type-dep";
        JsItem::Import {
            src: s("type-dep"),
            type_only: true,
            specifiers: vec![ImportSpec::Named { is_type_only: false }],
        },
        // const c = await import("dynamic-dep");
        JsItem::Stmt(JsStmt::VarDecl(vec![Some(JsExpr::Await(Box::new(import_call(
            "dynamic-dep",
        ))))])),
        // const d = require("require-dep");
        JsItem::Stmt(JsStmt::VarDecl(vec![Some(require_call("require-dep"))])),
    ];
    let r = extract_imports(&items);
    assert_eq!(r.imports.len(), 4);

    assert_eq!(r.imports[0].specifier, "static-dep");
    assert_eq!(r.imports[0].kind, EdgeKind::Static);

    assert_eq!(r.imports[1].specifier, "type-dep");
    assert_eq!(r.imports[1].kind, EdgeKind::TypeOnly);

    assert_eq!(r.imports[2].specifier, "dynamic-dep");
    assert_eq!(r.imports[2].kind, EdgeKind::Dynamic);

    assert_eq!(r.imports[3].specifier, "require-dep");
    assert_eq!(r.imports[3].kind, EdgeKind::Static);
}

// --- Negative cases (should NOT extract) ---

#[test]
fn require_resolve_not_extracted() {
    // const p = require.resolve("pkg");
    let items = vec![JsItem::Stmt(JsStmt::VarDecl(vec![Some(JsExpr::Call(
        JsCallee::Callee(Box::new(JsExpr::Member(Box::new(JsExpr::Ident(s("require")))))),
        vec![JsExpr::StrLit(s("pkg"))],
    ))]))];
    let r = extract_imports(&items);
    assert!(r.imports.is_empty());
}

#[test]
fn require_concatenated_arg_not_extracted() {
    // const x = require("base-" + "path");
    let items = vec![JsItem::Stmt(JsStmt::VarDecl(vec![Some(JsExpr::Call(
        JsCallee::Callee(Box::new(JsExpr::Ident(s("require")))),
        vec![JsExpr::Bin(
            Box::new(JsExpr::StrLit(s("base-"))),
            Box::new(JsExpr::StrLit(s("path"))),
        )],
    ))]))];
    let r = extract_imports(&items);
    assert!(r.imports.is_empty());
    // the non-literal argument is counted
    assert_eq!(r.unresolvable_dynamic, 1);
}

#[test]
fn dynamic_import_variable_not_extracted() {
    // const p = "./foo"; const m = import(p);
    let items = vec![
        JsItem::Stmt(JsStmt::VarDecl(vec![Some(JsExpr::StrLit(s("./foo")))])),
        JsItem::Stmt(JsStmt::VarDecl(vec![Some(JsExpr::Call(
            JsCallee::ImportCallee,
            vec![JsExpr::Ident(s("p"))],
        ))])),
    ];
    let r = extract_imports(&items);
    assert!(r.imports.is_empty());
    assert_eq!(r.unresolvable_dynamic, 1);
}

#[test]
fn dynamic_import_template_with_expressions_not_extracted() {
    // const x = "foo"; const m = import(`./dir/${x}`);
    let items = vec![
        JsItem::Stmt(JsStmt::VarDecl(vec![Some(JsExpr::StrLit(s("foo")))])),
        JsItem::Stmt(JsStmt::VarDecl(vec![Some(JsExpr::Call(
            JsCallee::ImportCallee,
            vec![JsExpr::Tpl(vec![JsExpr::Ident(s("x"))])],
        ))])),
    ];
    let r = extract_imports(&items);
    assert!(r.imports.is_empty());
    assert_eq!(r.unresolvable_dynamic, 1);
}

// --- Statement position coverage ---

#[test]
fn require_in_switch_case() {
    // switch (env) { case "a": const x = require("switch-dep"); break; }
    let items = vec![JsItem::Stmt(JsStmt::Switch(
        JsExpr::Ident(s("env")),
        vec![vec![JsStmt::VarDecl(vec![Some(require_call("switch-dep"))]), JsStmt::Other]],
    ))];
    let r = extract_imports(&items);
    assert_eq!(r.imports.len(), 1);
    assert_eq!(r.imports[0].specifier, "switch-dep");
}

#[test]
fn require_in_try_catch_finally() {
    let items = vec![JsItem::Stmt(JsStmt::Try(
        vec![JsStmt::Expr(require_call("try-dep"))],
        Some(vec![JsStmt::Expr(require_call("catch-dep"))]),
        Some(vec![JsStmt::Expr(require_call("finally-dep"))]),
    ))];
    let r = extract_imports(&items);
    assert_eq!(r.imports.len(), 3);
    assert_eq!(r.imports[0].specifier, "try-dep");
    assert_eq!(r.imports[1].specifier, "catch-dep");
    assert_eq!(r.imports[2].specifier, "finally-dep");
}

// --- Expression position coverage ---

#[test]
fn require_in_spread_and_array() {
    // const merged = { ...require("spread-dep") };
    // const arr = [require("array-dep")];
    let items = vec![
        JsItem::Stmt(JsStmt::VarDecl(vec![Some(JsExpr::Object(vec![JsProp::Spread(
            require_call("spread-dep"),
        )]))])),
        JsItem::Stmt(JsStmt::VarDecl(vec![Some(JsExpr::Array(vec![require_call(
            "array-dep",
        )]))])),
    ];
    let r = extract_imports(&items);
    assert_eq!(r.imports.len(), 2);
    assert_eq!(r.imports[0].specifier, "spread-dep");
    assert_eq!(r.imports[1].specifier, "array-dep");
}

#[test]
fn import_in_sequence_expression() {
    // const x = (0, import("seq-dep"));
    let items = vec![JsItem::Stmt(JsStmt::VarDecl(vec![Some(JsExpr::Paren(Box::new(
        JsExpr::Comma(vec![JsExpr::Other, import_call("seq-dep")]),
    )))]))];
    let r = extract_imports(&items);
    assert_eq!(r.imports.len(), 1);
    assert_eq!(r.imports[0].specifier, "seq-dep");
    assert_eq!(r.imports[0].kind, EdgeKind::Dynamic);
}
