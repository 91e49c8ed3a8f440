//! The code-gen that drops unused exports.

use cjs_analysis::cjs_exports::code_gen::{
    CjsExportDrop, CjsExportsDropCodeGen, CodeGen, ModuleExportUsageInfo,
};
use cjs_analysis::cjs_exports::recognize::{
    analyze_cjs_exports, CommonJsExportsAnalysis, DroppableExport,
};
use cjs_analysis::names::NameSet;
use cjs_analysis::syntax::{
    AssignExpr, AssignOp, Ident, Lit, Mark, MemberExpr, MemberProp, ModuleItem, Node, Program, Stmt,
    StmtKind,
};
use swc_core::common::DUMMY_SP;
use swc_core::ecma::ast;

const MARK: Mark = Mark { number: 1, ctxt: 2 };

fn write(name: &str, right: Node) -> Node {
    Node::Assign(AssignExpr {
        op: AssignOp::Assign,
        left: Box::new(Node::Member(MemberExpr {
            obj: Box::new(Node::Ident(Ident {
                sym: "exports".to_string(),
                ctxt: MARK.ctxt,
                outer: MARK.number,
            })),
            prop: MemberProp::Ident(name.to_string()),
        })),
        right: Box::new(right),
        value: Box::new(ast::Expr::This(ast::ThisExpr { span: DUMMY_SP })),
    })
}

fn export(span_lo: u32, name: &str) -> Stmt {
    Stmt { span_lo, kind: StmtKind::Expr(write(name, Node::Lit(Lit::Other))) }
}

fn marker(span_lo: u32) -> Stmt {
    Stmt { span_lo, kind: StmtKind::Expr(write("__esModule", Node::Lit(Lit::Bool(true)))) }
}

fn used(names: &[&str]) -> ModuleExportUsageInfo {
    ModuleExportUsageInfo::Exports(names.iter().map(|name| name.to_string()).collect())
}

fn code_gen(has_es_module: bool, drops: &[(&str, u32)]) -> CjsExportsDropCodeGen {
    CjsExportsDropCodeGen {
        drops: drops
            .iter()
            .map(|(name, span_lo)| CjsExportDrop { name: name.to_string(), span_lo: *span_lo })
            .collect(),
        has_es_module,
    }
}

fn analysis(is_unsafe: bool, droppable: &[(&str, u32)]) -> CommonJsExportsAnalysis {
    CommonJsExportsAnalysis {
        names: NameSet::new(),
        has_es_module: true,
        is_unsafe,
        droppable: droppable
            .iter()
            .map(|(name, span_lo)| DroppableExport { name: name.to_string(), span_lo: *span_lo })
            .collect(),
    }
}

#[test]
fn usage_info_answers() {
    let a = "a".to_string();
    assert!(!ModuleExportUsageInfo::Evaluation.is_export_used(&a));
    assert!(ModuleExportUsageInfo::All.is_export_used(&a));
    assert!(used(&["b", "a"]).is_export_used(&a));
    assert!(!used(&["b"]).is_export_used(&a));
}

#[test]
fn nothing_droppable_builds_no_code_gen() {
    assert!(CjsExportsDropCodeGen::new(&analysis(false, &[])).is_none());
    assert!(CjsExportsDropCodeGen::new(&analysis(true, &[("a", 1)])).is_none());
}

#[test]
fn code_gen_takes_over_the_droppable_exports() {
    let built = CjsExportsDropCodeGen::new(&analysis(false, &[("a", 1), ("b", 7)])).unwrap();
    assert_eq!(built, code_gen(true, &[("a", 1), ("b", 7)]));
}

#[test]
fn unused_exports_are_dropped() {
    let drop = code_gen(false, &[("a", 1), ("b", 7)]).code_generation(&used(&["a"])).unwrap();
    assert!(!drop.drops(1));
    assert!(drop.drops(7));
    assert!(!drop.drops(8));
    let drop = code_gen(false, &[("a", 1), ("b", 7)])
        .code_generation(&ModuleExportUsageInfo::Evaluation)
        .unwrap();
    assert!(drop.drops(1) && drop.drops(7));
}

#[test]
fn wholesale_use_drops_nothing() {
    assert!(code_gen(true, &[("a", 1)]).code_generation(&ModuleExportUsageInfo::All).is_none());
}

#[test]
fn default_import_without_marker_drops_nothing() {
    assert!(code_gen(false, &[("a", 1)]).code_generation(&used(&["default"])).is_none());
    let drop = code_gen(true, &[("a", 1)]).code_generation(&used(&["default"])).unwrap();
    assert!(drop.drops(1));
}

#[test]
fn all_exports_used_drops_nothing() {
    assert!(code_gen(true, &[("a", 1), ("b", 7)]).code_generation(&used(&["b", "a"])).is_none());
}

#[test]
fn dropped_writes_become_empty_statements() {
    let mut program = Program::Script(vec![marker(2), export(10, "a"), export(20, "b")]);
    let analysis = analyze_cjs_exports(&program, MARK);
    let code_gen = CjsExportsDropCodeGen::new(&analysis).unwrap();
    let drop = code_gen.code_generation(&used(&["b"])).unwrap();
    drop.visit_mut_program(&mut program);
    let stmts = program.statements();
    assert_eq!(stmts.len(), 3);
    assert_eq!(stmts[0].span_lo, 2);
    assert!(matches!(stmts[0].kind, StmtKind::Expr(_)));
    assert_eq!(stmts[1].span_lo, 0);
    assert!(matches!(stmts[1].kind, StmtKind::Empty));
    assert_eq!(stmts[2].span_lo, 20);
    assert!(matches!(stmts[2].kind, StmtKind::Expr(_)));
    // What is left is recognized again.
    let analysis = analyze_cjs_exports(&program, MARK);
    assert!(!analysis.is_unsafe && analysis.has_es_module);
    assert_eq!(analysis.names.as_vec(), &["b"]);
    // A second drop finds nothing to do.
    drop.visit_mut_program(&mut program);
    assert_eq!(program.statements()[1].span_lo, 0);
    assert_eq!(program.statements()[2].span_lo, 20);
}

#[test]
fn module_statements_are_dropped_and_declarations_stay() {
    let mut program = Program::Module(vec![
        ModuleItem::ModuleDecl(Node::Other(vec![Node::This])),
        ModuleItem::Stmt(export(10, "a")),
        ModuleItem::Stmt(export(20, "b")),
    ]);
    let drop = code_gen(true, &[("a", 10), ("b", 20)]).code_generation(&used(&["a"])).unwrap();
    drop.visit_mut_program(&mut program);
    assert_eq!(program.roots().len(), 2);
    assert_eq!(program.statements()[0].span_lo, 10);
    assert!(matches!(program.statements()[1].kind, StmtKind::Empty));
}

#[test]
fn code_gen_is_a_step() {
    let step: CodeGen = code_gen(true, &[("a", 1)]).into();
    let CodeGen::CjsExportsDropCodeGen(inner) = step;
    assert_eq!(inner, code_gen(true, &[("a", 1)]));
}
