//! Import extraction from JavaScript / TypeScript syntax trees.
//!
//! The syntax model below holds exactly what extraction reads: module-level
//! import/export declarations, and every statement and expression position in
//! which a dynamic `import()` or a `require()` call can appear. A parser fills
//! the model (one constructor per syntax form); [`extract_imports`] then
//! yields every import specifier with its [`EdgeKind`], plus the number of
//! `import()`/`require()` calls whose argument was not a string literal.

use vstd::prelude::*;

use crate::graph::EdgeKind;

verus! {

/// One import found in a source file: the verbatim specifier and its kind.
#[derive(Debug)]
pub struct RawImport {
    pub specifier: String,
    pub kind: EdgeKind,
}

impl Clone for RawImport {
    fn clone(&self) -> (res: Self)
        ensures
            res == *self,
    {
        RawImport { specifier: self.specifier.clone(), kind: self.kind }
    }
}

/// What a parse of one file yields: the imports in source order, and the
/// count of dynamic-import/require arguments that were not string literals.
#[derive(Debug)]
pub struct ParseResult {
    pub imports: Vec<RawImport>,
    pub unresolvable_dynamic: usize,
}

/// A parse result as a mathematical value.
#[verifier::ext_equal]
pub ghost struct ParseResultV {
    pub imports: Seq<RawImport>,
    pub unresolvable_dynamic: nat,
}

impl View for ParseResult {
    type V = ParseResultV;

    open spec fn view(&self) -> ParseResultV {
        ParseResultV {
            imports: self.imports@,
            unresolvable_dynamic: self.unresolvable_dynamic as nat,
        }
    }
}

impl Clone for ParseResult {
    fn clone(&self) -> (res: Self)
        ensures
            res@ == self@,
    {
        let imports = self.imports.clone();
        proof {
            assert forall|i: int| 0 <= i < imports@.len() implies #[trigger] imports@[i]
                == self.imports@[i] by {
                assert(cloned::<RawImport>(self.imports@[i], imports@[i]));
            }
            assert(imports@ =~= self.imports@);
        }
        ParseResult { imports, unresolvable_dynamic: self.unresolvable_dynamic }
    }
}

/// One specifier of an `import { ... } from` declaration.
#[derive(Debug)]
pub enum ImportSpec {
    /// `{ a }` or `{ type a }`.
    Named { is_type_only: bool },
    /// A default (`import a from`) or namespace (`import * as a from`) binding.
    Bare,
}

/// One specifier of an `export { ... } from` declaration.
#[derive(Debug)]
pub enum ExportSpec {
    /// `{ a }` or `{ type a }`.
    Named { is_type_only: bool },
    /// A namespace or default export specifier.
    Bare,
}

/// The callee position of a call expression.
#[derive(Debug)]
pub enum JsCallee {
    /// The `import` keyword in call position.
    ImportCallee,
    /// `super(...)`.
    SuperCallee,
    /// Any ordinary expression, e.g. the bare identifier `require`.
    Callee(Box<JsExpr>),
}

/// A property of an object literal; only values and spreads are walked.
#[derive(Debug)]
pub enum JsProp {
    KeyValue(JsExpr),
    Spread(JsExpr),
    OtherProp,
}

/// An expression, reduced to the positions that import extraction walks.
#[derive(Debug)]
pub enum JsExpr {
    Call(JsCallee, Vec<JsExpr>),
    StrLit(String),
    Ident(String),
    /// Arrow function whose body is a block.
    ArrowBlock(Vec<JsStmt>),
    /// Arrow function whose body is an expression.
    ArrowExpr(Box<JsExpr>),
    /// Function expression: its body statements.
    FnExpr(Vec<JsStmt>),
    /// Assignment: only the right-hand side is walked.
    Assign(Box<JsExpr>),
    Comma(Vec<JsExpr>),
    Paren(Box<JsExpr>),
    Await(Box<JsExpr>),
    Cond(Box<JsExpr>, Box<JsExpr>, Box<JsExpr>),
    Bin(Box<JsExpr>, Box<JsExpr>),
    Unary(Box<JsExpr>),
    /// Member access: only the object is walked.
    Member(Box<JsExpr>),
    Array(Vec<JsExpr>),
    Object(Vec<JsProp>),
    /// Template literal: its interpolation expressions.
    Tpl(Vec<JsExpr>),
    Other,
}

/// A statement, reduced to the arms that import extraction walks.
#[derive(Debug)]
pub enum JsStmt {
    Expr(JsExpr),
    /// `var`/`let`/`const` declarators: their initializers, if present.
    VarDecl(Vec<Option<JsExpr>>),
    /// Function declaration: its body statements.
    FnDecl(Vec<JsStmt>),
    Block(Vec<JsStmt>),
    /// `if`: consequent and optional alternative (the test is not walked).
    If(Box<JsStmt>, Option<Box<JsStmt>>),
    /// `switch`: the discriminant expression and each case's statements.
    Switch(JsExpr, Vec<Vec<JsStmt>>),
    /// `try` block, optional catch body, optional finally body.
    Try(Vec<JsStmt>, Option<Vec<JsStmt>>, Option<Vec<JsStmt>>),
    While(Box<JsStmt>),
    DoWhile(Box<JsStmt>),
    For(Box<JsStmt>),
    ForIn(Box<JsStmt>),
    ForOf(Box<JsStmt>),
    Return(Option<Box<JsExpr>>),
    Labeled(Box<JsStmt>),
    Other,
}

/// A top-level module item.
#[derive(Debug)]
pub enum JsItem {
    /// `import [type] ... from "src"` with its specifier list.
    Import { src: String, type_only: bool, specifiers: Vec<ImportSpec> },
    /// `export [type] * from "src"`.
    ExportAll { src: String, type_only: bool },
    /// `export [type] { ... } [from "src"]`; `src` is `None` for a plain
    /// local export, which yields nothing.
    ExportNamed { src: Option<String>, type_only: bool, specifiers: Vec<ExportSpec> },
    Stmt(JsStmt),
    Other,
}

/// Concatenation of two extraction outcomes: imports in order, counts summed.
pub open spec fn pcat(a: (Seq<RawImport>, nat), b: (Seq<RawImport>, nat)) -> (Seq<RawImport>, nat) {
    (a.0 + b.0, (a.1 + b.1) as nat)
}

pub open spec fn ext_none() -> (Seq<RawImport>, nat) {
    (Seq::<RawImport>::empty(), 0nat)
}

pub open spec fn ext_one(specifier: String, kind: EdgeKind) -> (Seq<RawImport>, nat) {
    (seq![RawImport { specifier: specifier, kind: kind }], 0nat)
}

/// Every specifier is a type-only named specifier.
pub open spec fn all_import_specs_type_only(ss: Seq<ImportSpec>) -> bool {
    forall|i: int|
        0 <= i < ss.len() ==> (#[trigger] ss[i]) matches ImportSpec::Named { is_type_only: true }
}

/// Every specifier is a type-only named specifier.
pub open spec fn all_export_specs_type_only(ss: Seq<ExportSpec>) -> bool {
    forall|i: int|
        0 <= i < ss.len() ==> (#[trigger] ss[i]) matches ExportSpec::Named { is_type_only: true }
}

/// Kind of an `import ... from` declaration: type-only when declared so, or
/// when its specifier list is non-empty and every specifier is type-only.
pub open spec fn import_decl_kind(type_only: bool, specifiers: Seq<ImportSpec>) -> EdgeKind {
    if type_only || (specifiers.len() > 0 && all_import_specs_type_only(specifiers)) {
        EdgeKind::TypeOnly
    } else {
        EdgeKind::Static
    }
}

/// Kind of an `export { ... } from` declaration, by the same rule.
pub open spec fn export_decl_kind(type_only: bool, specifiers: Seq<ExportSpec>) -> EdgeKind {
    if type_only || (specifiers.len() > 0 && all_export_specs_type_only(specifiers)) {
        EdgeKind::TypeOnly
    } else {
        EdgeKind::Static
    }
}

/// What a call of `import(...)` or `require(...)` yields, given the edge kind
/// it produces on a literal argument: a literal first argument yields one
/// import; any other first argument counts as unresolvable; the arguments are
/// not walked further.
pub open spec fn ext_import_like(args: Seq<JsExpr>, kind: EdgeKind) -> (Seq<RawImport>, nat) {
    if args.len() == 0 {
        ext_none()
    } else if args[0] is StrLit {
        ext_one(args[0]->StrLit_0, kind)
    } else {
        (Seq::<RawImport>::empty(), 1nat)
    }
}

pub open spec fn is_require_ident(e: JsExpr) -> bool {
    e matches JsExpr::Ident(name) && name@ == "require"@
}

pub open spec fn ext_expr(e: JsExpr) -> (Seq<RawImport>, nat)
    decreases e,
{
    match e {
        JsExpr::Call(callee, args) => match callee {
            JsCallee::ImportCallee => ext_import_like(args@, EdgeKind::Dynamic),
            JsCallee::SuperCallee => ext_exprs(args@),
            JsCallee::Callee(ce) => if is_require_ident(*ce) {
                ext_import_like(args@, EdgeKind::Static)
            } else {
                pcat(ext_expr(*ce), ext_exprs(args@))
            },
        },
        JsExpr::StrLit(_) => ext_none(),
        JsExpr::Ident(_) => ext_none(),
        JsExpr::ArrowBlock(body) => ext_stmts(body@),
        JsExpr::ArrowExpr(inner) => ext_expr(*inner),
        JsExpr::FnExpr(body) => ext_stmts(body@),
        JsExpr::Assign(rhs) => ext_expr(*rhs),
        JsExpr::Comma(es) => ext_exprs(es@),
        JsExpr::Paren(inner) => ext_expr(*inner),
        JsExpr::Await(inner) => ext_expr(*inner),
        JsExpr::Cond(test, cons, alt) => pcat(
            pcat(ext_expr(*test), ext_expr(*cons)),
            ext_expr(*alt),
        ),
        JsExpr::Bin(left, right) => pcat(ext_expr(*left), ext_expr(*right)),
        JsExpr::Unary(inner) => ext_expr(*inner),
        JsExpr::Member(obj) => ext_expr(*obj),
        JsExpr::Array(es) => ext_exprs(es@),
        JsExpr::Object(props) => ext_props(props@),
        JsExpr::Tpl(es) => ext_exprs(es@),
        JsExpr::Other => ext_none(),
    }
}

pub open spec fn ext_exprs(es: Seq<JsExpr>) -> (Seq<RawImport>, nat)
    decreases es,
{
    if es.len() == 0 {
        ext_none()
    } else {
        pcat(ext_exprs(es.drop_last()), ext_expr(es.last()))
    }
}

pub open spec fn ext_opt_exprs(os: Seq<Option<JsExpr>>) -> (Seq<RawImport>, nat)
    decreases os,
{
    if os.len() == 0 {
        ext_none()
    } else {
        pcat(
            ext_opt_exprs(os.drop_last()),
            match os.last() {
                Some(e) => ext_expr(e),
                None => ext_none(),
            },
        )
    }
}

pub open spec fn ext_props(ps: Seq<JsProp>) -> (Seq<RawImport>, nat)
    decreases ps,
{
    if ps.len() == 0 {
        ext_none()
    } else {
        pcat(
            ext_props(ps.drop_last()),
            match ps.last() {
                JsProp::KeyValue(v) => ext_expr(v),
                JsProp::Spread(v) => ext_expr(v),
                JsProp::OtherProp => ext_none(),
            },
        )
    }
}

pub open spec fn ext_stmt(s: JsStmt) -> (Seq<RawImport>, nat)
    decreases s,
{
    match s {
        JsStmt::Expr(e) => ext_expr(e),
        JsStmt::VarDecl(inits) => ext_opt_exprs(inits@),
        JsStmt::FnDecl(body) => ext_stmts(body@),
        JsStmt::Block(body) => ext_stmts(body@),
        JsStmt::If(cons, alt) => pcat(
            ext_stmt(*cons),
            match alt {
                Some(a) => ext_stmt(*a),
                None => ext_none(),
            },
        ),
        JsStmt::Switch(disc, cases) => pcat(ext_expr(disc), ext_cases(cases@)),
        JsStmt::Try(block, handler, finalizer) => pcat(
            pcat(
                ext_stmts(block@),
                match handler {
                    Some(h) => ext_stmts(h@),
                    None => ext_none(),
                },
            ),
            match finalizer {
                Some(f) => ext_stmts(f@),
                None => ext_none(),
            },
        ),
        JsStmt::While(body) => ext_stmt(*body),
        JsStmt::DoWhile(body) => ext_stmt(*body),
        JsStmt::For(body) => ext_stmt(*body),
        JsStmt::ForIn(body) => ext_stmt(*body),
        JsStmt::ForOf(body) => ext_stmt(*body),
        JsStmt::Return(arg) => match arg {
            Some(e) => ext_expr(*e),
            None => ext_none(),
        },
        JsStmt::Labeled(body) => ext_stmt(*body),
        JsStmt::Other => ext_none(),
    }
}

pub open spec fn ext_stmts(ss: Seq<JsStmt>) -> (Seq<RawImport>, nat)
    decreases ss,
{
    if ss.len() == 0 {
        ext_none()
    } else {
        pcat(ext_stmts(ss.drop_last()), ext_stmt(ss.last()))
    }
}

pub open spec fn ext_cases(cs: Seq<Vec<JsStmt>>) -> (Seq<RawImport>, nat)
    decreases cs,
{
    if cs.len() == 0 {
        ext_none()
    } else {
        pcat(ext_cases(cs.drop_last()), ext_stmts(cs.last()@))
    }
}

pub open spec fn ext_item(it: JsItem) -> (Seq<RawImport>, nat)
    decreases it,
{
    match it {
        JsItem::Import { src, type_only, specifiers } => ext_one(
            src,
            import_decl_kind(type_only, specifiers@),
        ),
        JsItem::ExportAll { src, type_only } => ext_one(
            src,
            if type_only {
                EdgeKind::TypeOnly
            } else {
                EdgeKind::Static
            },
        ),
        JsItem::ExportNamed { src, type_only, specifiers } => match src {
            Some(s) => ext_one(s, export_decl_kind(type_only, specifiers@)),
            None => ext_none(),
        },
        JsItem::Stmt(s) => ext_stmt(s),
        JsItem::Other => ext_none(),
    }
}

pub open spec fn ext_items(its: Seq<JsItem>) -> (Seq<RawImport>, nat)
    decreases its,
{
    if its.len() == 0 {
        ext_none()
    } else {
        pcat(ext_items(its.drop_last()), ext_item(its.last()))
    }
}

proof fn lemma_ext_exprs_step(es: Seq<JsExpr>, i: int)
    requires
        0 <= i < es.len(),
    ensures
        ext_exprs(es.take(i + 1)) == pcat(ext_exprs(es.take(i)), ext_expr(es[i])),
{
    assert(es.take(i + 1).drop_last() =~= es.take(i));
    assert(es.take(i + 1).last() == es[i]);
}

proof fn lemma_ext_opt_exprs_step(os: Seq<Option<JsExpr>>, i: int)
    requires
        0 <= i < os.len(),
    ensures
        ext_opt_exprs(os.take(i + 1)) == pcat(
            ext_opt_exprs(os.take(i)),
            match os[i] {
                Some(e) => ext_expr(e),
                None => ext_none(),
            },
        ),
{
    assert(os.take(i + 1).drop_last() =~= os.take(i));
    assert(os.take(i + 1).last() == os[i]);
}

proof fn lemma_ext_props_step(ps: Seq<JsProp>, i: int)
    requires
        0 <= i < ps.len(),
    ensures
        ext_props(ps.take(i + 1)) == pcat(
            ext_props(ps.take(i)),
            match ps[i] {
                JsProp::KeyValue(v) => ext_expr(v),
                JsProp::Spread(v) => ext_expr(v),
                JsProp::OtherProp => ext_none(),
            },
        ),
{
    assert(ps.take(i + 1).drop_last() =~= ps.take(i));
    assert(ps.take(i + 1).last() == ps[i]);
}

proof fn lemma_ext_stmts_step(ss: Seq<JsStmt>, i: int)
    requires
        0 <= i < ss.len(),
    ensures
        ext_stmts(ss.take(i + 1)) == pcat(ext_stmts(ss.take(i)), ext_stmt(ss[i])),
{
    assert(ss.take(i + 1).drop_last() =~= ss.take(i));
    assert(ss.take(i + 1).last() == ss[i]);
}

proof fn lemma_ext_cases_step(cs: Seq<Vec<JsStmt>>, i: int)
    requires
        0 <= i < cs.len(),
    ensures
        ext_cases(cs.take(i + 1)) == pcat(ext_cases(cs.take(i)), ext_stmts(cs[i]@)),
{
    assert(cs.take(i + 1).drop_last() =~= cs.take(i));
    assert(cs.take(i + 1).last() == cs[i]);
}

proof fn lemma_ext_items_step(its: Seq<JsItem>, i: int)
    requires
        0 <= i < its.len(),
    ensures
        ext_items(its.take(i + 1)) == pcat(ext_items(its.take(i)), ext_item(its[i])),
{
    assert(its.take(i + 1).drop_last() =~= its.take(i));
    assert(its.take(i + 1).last() == its[i]);
}

/// Push one import and note how the accumulated view grows.
fn push_import(imports: &mut Vec<RawImport>, specifier: String, kind: EdgeKind)
    ensures
        final(imports)@ =~= old(imports)@ + ext_one(specifier, kind).0,
{
    imports.push(RawImport { specifier, kind });
}

fn walk_expr(e: &JsExpr, imports: &mut Vec<RawImport>, misses: &mut Vec<()>)
    ensures
        final(imports)@ == old(imports)@ + ext_expr(*e).0,
        final(misses)@.len() == old(misses)@.len() + ext_expr(*e).1,
    decreases *e,
{
    match e {
        JsExpr::Call(callee, args) => {
            match callee {
                JsCallee::ImportCallee => {
                    walk_import_like(args, EdgeKind::Dynamic, imports, misses);
                },
                JsCallee::SuperCallee => {
                    walk_exprs(args, imports, misses);
                },
                JsCallee::Callee(ce) => {
                    let require_name: String = String::from_str("require");
                    let is_require = match &**ce {
                        JsExpr::Ident(name) => *name == require_name,
                        _ => false,
                    };
                    if is_require {
                        walk_import_like(args, EdgeKind::Static, imports, misses);
                    } else {
                        walk_expr(ce, imports, misses);
                        walk_exprs(args, imports, misses);
                        proof {
                            assert(imports@ =~= old(imports)@ + ext_expr(*e).0);
                        }
                    }
                },
            }
        },
        JsExpr::StrLit(_) => {
            proof {
                assert(imports@ =~= old(imports)@ + ext_expr(*e).0);
            }
        },
        JsExpr::Ident(_) => {
            proof {
                assert(imports@ =~= old(imports)@ + ext_expr(*e).0);
            }
        },
        JsExpr::ArrowBlock(body) => {
            walk_stmts(body, imports, misses);
        },
        JsExpr::ArrowExpr(inner) => {
            walk_expr(inner, imports, misses);
        },
        JsExpr::FnExpr(body) => {
            walk_stmts(body, imports, misses);
        },
        JsExpr::Assign(rhs) => {
            walk_expr(rhs, imports, misses);
        },
        JsExpr::Comma(es) => {
            walk_exprs(es, imports, misses);
        },
        JsExpr::Paren(inner) => {
            walk_expr(inner, imports, misses);
        },
        JsExpr::Await(inner) => {
            walk_expr(inner, imports, misses);
        },
        JsExpr::Cond(test, cons, alt) => {
            walk_expr(test, imports, misses);
            walk_expr(cons, imports, misses);
            walk_expr(alt, imports, misses);
            proof {
                assert(imports@ =~= old(imports)@ + ext_expr(*e).0);
            }
        },
        JsExpr::Bin(left, right) => {
            walk_expr(left, imports, misses);
            walk_expr(right, imports, misses);
            proof {
                assert(imports@ =~= old(imports)@ + ext_expr(*e).0);
            }
        },
        JsExpr::Unary(inner) => {
            walk_expr(inner, imports, misses);
        },
        JsExpr::Member(obj) => {
            walk_expr(obj, imports, misses);
        },
        JsExpr::Array(es) => {
            walk_exprs(es, imports, misses);
        },
        JsExpr::Object(props) => {
            walk_props(props, imports, misses);
        },
        JsExpr::Tpl(es) => {
            walk_exprs(es, imports, misses);
        },
        JsExpr::Other => {
            proof {
                assert(imports@ =~= old(imports)@ + ext_expr(*e).0);
            }
        },
    }
}

/// Handle the argument list of `import(...)` or of a bare `require(...)`.
fn walk_import_like(
    args: &Vec<JsExpr>,
    kind: EdgeKind,
    imports: &mut Vec<RawImport>,
    misses: &mut Vec<()>,
)
    ensures
        final(imports)@ == old(imports)@ + ext_import_like(args@, kind).0,
        final(misses)@.len() == old(misses)@.len() + ext_import_like(args@, kind).1,
{
    if args.len() > 0 {
        match &args[0] {
            JsExpr::StrLit(s) => {
                push_import(imports, s.clone(), kind);
            },
            _ => {
                misses.push(());
            },
        }
    }
    proof {
        assert(imports@ =~= old(imports)@ + ext_import_like(args@, kind).0);
    }
}

fn walk_exprs(es: &Vec<JsExpr>, imports: &mut Vec<RawImport>, misses: &mut Vec<()>)
    ensures
        final(imports)@ == old(imports)@ + ext_exprs(es@).0,
        final(misses)@.len() == old(misses)@.len() + ext_exprs(es@).1,
    decreases es@,
{
    let n = es.len();
    let mut i: usize = 0;
    while i < n
        invariant
            n == es@.len(),
            i <= n,
            imports@ == old(imports)@ + ext_exprs(es@.take(i as int)).0,
            misses@.len() == old(misses)@.len() + ext_exprs(es@.take(i as int)).1,
        decreases n - i,
    {
        walk_expr(&es[i], imports, misses);
        proof {
            lemma_ext_exprs_step(es@, i as int);
        }
        i = i + 1;
    }
    proof {
        assert(es@.take(n as int) =~= es@);
    }
}

fn walk_opt_exprs(os: &Vec<Option<JsExpr>>, imports: &mut Vec<RawImport>, misses: &mut Vec<()>)
    ensures
        final(imports)@ == old(imports)@ + ext_opt_exprs(os@).0,
        final(misses)@.len() == old(misses)@.len() + ext_opt_exprs(os@).1,
    decreases os@,
{
    let n = os.len();
    let mut i: usize = 0;
    while i < n
        invariant
            n == os@.len(),
            i <= n,
            imports@ == old(imports)@ + ext_opt_exprs(os@.take(i as int)).0,
            misses@.len() == old(misses)@.len() + ext_opt_exprs(os@.take(i as int)).1,
        decreases n - i,
    {
        match &os[i] {
            Some(e) => {
                proof {
                    assert(decreases_to!(os@ => os@[i as int]));
                    assert(os@[i as int] == Some(*e));
                    assert(decreases_to!(os@[i as int] => os@[i as int]->0));
                }
                walk_expr(e, imports, misses);
            },
            None => {},
        }
        proof {
            lemma_ext_opt_exprs_step(os@, i as int);
        }
        i = i + 1;
    }
    proof {
        assert(os@.take(n as int) =~= os@);
    }
}

fn walk_props(ps: &Vec<JsProp>, imports: &mut Vec<RawImport>, misses: &mut Vec<()>)
    ensures
        final(imports)@ == old(imports)@ + ext_props(ps@).0,
        final(misses)@.len() == old(misses)@.len() + ext_props(ps@).1,
    decreases ps@,
{
    let n = ps.len();
    let mut i: usize = 0;
    while i < n
        invariant
            n == ps@.len(),
            i <= n,
            imports@ == old(imports)@ + ext_props(ps@.take(i as int)).0,
            misses@.len() == old(misses)@.len() + ext_props(ps@.take(i as int)).1,
        decreases n - i,
    {
        match &ps[i] {
            JsProp::KeyValue(v) => {
                walk_expr(v, imports, misses);
            },
            JsProp::Spread(v) => {
                walk_expr(v, imports, misses);
            },
            JsProp::OtherProp => {},
        }
        proof {
            lemma_ext_props_step(ps@, i as int);
        }
        i = i + 1;
    }
    proof {
        assert(ps@.take(n as int) =~= ps@);
    }
}

fn walk_stmt(s: &JsStmt, imports: &mut Vec<RawImport>, misses: &mut Vec<()>)
    ensures
        final(imports)@ == old(imports)@ + ext_stmt(*s).0,
        final(misses)@.len() == old(misses)@.len() + ext_stmt(*s).1,
    decreases *s,
{
    match s {
        JsStmt::Expr(e) => {
            walk_expr(e, imports, misses);
        },
        JsStmt::VarDecl(inits) => {
            walk_opt_exprs(inits, imports, misses);
        },
        JsStmt::FnDecl(body) => {
            walk_stmts(body, imports, misses);
        },
        JsStmt::Block(body) => {
            walk_stmts(body, imports, misses);
        },
        JsStmt::If(cons, alt) => {
            walk_stmt(cons, imports, misses);
            match alt {
                Some(a) => {
                    walk_stmt(a, imports, misses);
                },
                None => {},
            }
            proof {
                assert(imports@ =~= old(imports)@ + ext_stmt(*s).0);
            }
        },
        JsStmt::Switch(disc, cases) => {
            walk_expr(disc, imports, misses);
            let n = cases.len();
            let mut i: usize = 0;
            while i < n
                invariant
                    n == cases@.len(),
                    i <= n,
                    imports@ == old(imports)@ + pcat(
                        ext_expr(s->Switch_0),
                        ext_cases(cases@.take(i as int)),
                    ).0,
                    misses@.len() == old(misses)@.len() + pcat(
                        ext_expr(s->Switch_0),
                        ext_cases(cases@.take(i as int)),
                    ).1,
                    *s matches JsStmt::Switch(_, cs) && cs@ == cases@,
                decreases n - i,
            {
                walk_stmts(&cases[i], imports, misses);
                proof {
                    lemma_ext_cases_step(cases@, i as int);
                    assert(imports@ =~= old(imports)@ + pcat(
                        ext_expr(s->Switch_0),
                        ext_cases(cases@.take(i + 1 as int)),
                    ).0);
                }
                i = i + 1;
            }
            proof {
                assert(cases@.take(n as int) =~= cases@);
            }
        },
        JsStmt::Try(block, handler, finalizer) => {
            walk_stmts(block, imports, misses);
            match handler {
                Some(h) => {
                    walk_stmts(h, imports, misses);
                },
                None => {},
            }
            match finalizer {
                Some(f) => {
                    walk_stmts(f, imports, misses);
                },
                None => {},
            }
            proof {
                assert(imports@ =~= old(imports)@ + ext_stmt(*s).0);
            }
        },
        JsStmt::While(body) => {
            walk_stmt(body, imports, misses);
        },
        JsStmt::DoWhile(body) => {
            walk_stmt(body, imports, misses);
        },
        JsStmt::For(body) => {
            walk_stmt(body, imports, misses);
        },
        JsStmt::ForIn(body) => {
            walk_stmt(body, imports, misses);
        },
        JsStmt::ForOf(body) => {
            walk_stmt(body, imports, misses);
        },
        JsStmt::Return(arg) => {
            match arg {
                Some(e) => {
                    walk_expr(e, imports, misses);
                },
                None => {},
            }
        },
        JsStmt::Labeled(body) => {
            walk_stmt(body, imports, misses);
        },
        JsStmt::Other => {},
    }
}

fn walk_stmts(ss: &Vec<JsStmt>, imports: &mut Vec<RawImport>, misses: &mut Vec<()>)
    ensures
        final(imports)@ == old(imports)@ + ext_stmts(ss@).0,
        final(misses)@.len() == old(misses)@.len() + ext_stmts(ss@).1,
    decreases ss@,
{
    let n = ss.len();
    let mut i: usize = 0;
    while i < n
        invariant
            n == ss@.len(),
            i <= n,
            imports@ == old(imports)@ + ext_stmts(ss@.take(i as int)).0,
            misses@.len() == old(misses)@.len() + ext_stmts(ss@.take(i as int)).1,
        decreases n - i,
    {
        walk_stmt(&ss[i], imports, misses);
        proof {
            lemma_ext_stmts_step(ss@, i as int);
        }
        i = i + 1;
    }
    proof {
        assert(ss@.take(n as int) =~= ss@);
    }
}

/// Whether every specifier of an import declaration is a type-only named one.
fn import_specs_all_type_only(specs: &Vec<ImportSpec>) -> (r: bool)
    ensures
        r == all_import_specs_type_only(specs@),
{
    let n = specs.len();
    let mut i: usize = 0;
    while i < n
        invariant
            n == specs@.len(),
            i <= n,
            forall|j: int|
                0 <= j < i ==> (#[trigger] specs@[j]) matches ImportSpec::Named {
                    is_type_only: true,
                },
        decreases n - i,
    {
        match &specs[i] {
            ImportSpec::Named { is_type_only: true } => {},
            _ => {
                return false;
            },
        }
        i = i + 1;
    }
    true
}

/// Whether every specifier of an export declaration is a type-only named one.
fn export_specs_all_type_only(specs: &Vec<ExportSpec>) -> (r: bool)
    ensures
        r == all_export_specs_type_only(specs@),
{
    let n = specs.len();
    let mut i: usize = 0;
    while i < n
        invariant
            n == specs@.len(),
            i <= n,
            forall|j: int|
                0 <= j < i ==> (#[trigger] specs@[j]) matches ExportSpec::Named {
                    is_type_only: true,
                },
        decreases n - i,
    {
        match &specs[i] {
            ExportSpec::Named { is_type_only: true } => {},
            _ => {
                return false;
            },
        }
        i = i + 1;
    }
    true
}

fn walk_item(it: &JsItem, imports: &mut Vec<RawImport>, misses: &mut Vec<()>)
    ensures
        final(imports)@ == old(imports)@ + ext_item(*it).0,
        final(misses)@.len() == old(misses)@.len() + ext_item(*it).1,
{
    match it {
        JsItem::Import { src, type_only, specifiers } => {
            let kind = if *type_only || (specifiers.len() > 0 && import_specs_all_type_only(
                specifiers,
            )) {
                EdgeKind::TypeOnly
            } else {
                EdgeKind::Static
            };
            push_import(imports, src.clone(), kind);
        },
        JsItem::ExportAll { src, type_only } => {
            let kind = if *type_only {
                EdgeKind::TypeOnly
            } else {
                EdgeKind::Static
            };
            push_import(imports, src.clone(), kind);
        },
        JsItem::ExportNamed { src, type_only, specifiers } => {
            match src {
                Some(s) => {
                    let kind = if *type_only || (specifiers.len() > 0
                        && export_specs_all_type_only(specifiers)) {
                        EdgeKind::TypeOnly
                    } else {
                        EdgeKind::Static
                    };
                    push_import(imports, s.clone(), kind);
                },
                None => {},
            }
        },
        JsItem::Stmt(s) => {
            walk_stmt(s, imports, misses);
        },
        JsItem::Other => {},
    }
}

/// Extract every import of a parsed module, in source order, together with
/// the count of `import()`/`require()` arguments that were not string
/// literals. The result is exactly [`ext_items`] of the module's items.
pub fn extract_imports(items: &Vec<JsItem>) -> (r: ParseResult)
    ensures
        r.imports@ == ext_items(items@).0,
        r.unresolvable_dynamic == ext_items(items@).1,
{
    let mut imports: Vec<RawImport> = Vec::new();
    let mut misses: Vec<()> = Vec::new();
    let n = items.len();
    let mut i: usize = 0;
    while i < n
        invariant
            n == items@.len(),
            i <= n,
            imports@ == ext_items(items@.take(i as int)).0,
            misses@.len() == ext_items(items@.take(i as int)).1,
        decreases n - i,
    {
        walk_item(&items[i], &mut imports, &mut misses);
        proof {
            lemma_ext_items_step(items@, i as int);
        }
        i = i + 1;
    }
    proof {
        assert(items@.take(n as int) =~= items@);
    }
    let unresolvable_dynamic = misses.len();
    ParseResult { imports, unresolvable_dynamic }
}

} // verus!
