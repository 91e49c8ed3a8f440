//! The export analysis, on syntax trees written out by hand.

use cjs_analysis::analyzer::{is_global, is_module_dot_exports, unparen};
use cjs_analysis::cjs_exports::recognize::{
    analyze_cjs_exports, analyze_given_side_effects, CommonJsExportsAnalysis, ExportsTaintVisitor,
};
use cjs_analysis::names::NameSet;
use cjs_analysis::syntax::{
    AssignExpr, AssignOp, Ident, Lit, Mark, MemberExpr, MemberProp, ModuleItem, Node, Program,
    SeqExpr, Stmt, StmtKind,
};
use swc_core::common::{SyntaxContext, DUMMY_SP};
use swc_core::ecma::ast;

const MARK: Mark = Mark { number: 1, ctxt: 2 };

/// An identifier that nothing in the file declares.
fn global(sym: &str) -> Node {
    Node::Ident(Ident { sym: sym.to_string(), ctxt: MARK.ctxt, outer: MARK.number })
}

/// An identifier that the file declares.
fn local(sym: &str) -> Node {
    Node::Ident(Ident { sym: sym.to_string(), ctxt: 5, outer: 4 })
}

fn dot(obj: Node, name: &str) -> MemberExpr {
    MemberExpr { obj: Box::new(obj), prop: MemberProp::Ident(name.to_string()) }
}

fn member(obj: Node, name: &str) -> Node {
    Node::Member(dot(obj, name))
}

fn paren(inner: Node) -> Node {
    Node::Paren(Box::new(inner))
}

fn comma(first: Node, last: Node) -> Node {
    comma_value(first, *pure_value(), last)
}

fn comma_value(first: Node, value: ast::Expr, last: Node) -> Node {
    Node::Sequence(SeqExpr { init: vec![first], values: vec![value], last: Box::new(last) })
}

fn pure_value() -> Box<ast::Expr> {
    Box::new(ast::Expr::Lit(ast::Lit::Bool(ast::Bool { span: DUMMY_SP, value: true })))
}

fn impure_value() -> Box<ast::Expr> {
    Box::new(ast::Expr::Call(ast::CallExpr {
        span: DUMMY_SP,
        ctxt: SyntaxContext::from_u32(5),
        callee: ast::Callee::Expr(Box::new(ast::Expr::Ident(ast::Ident::new(
            "run".into(),
            DUMMY_SP,
            SyntaxContext::from_u32(5),
        )))),
        args: vec![],
        type_args: None,
    }))
}

fn ident_value(sym: &str, ctxt: u32) -> Box<ast::Expr> {
    Box::new(ast::Expr::Ident(ast::Ident::new(
        sym.into(),
        DUMMY_SP,
        SyntaxContext::from_u32(ctxt),
    )))
}

fn write_value(target: Node, right: Node, value: Box<ast::Expr>) -> Node {
    Node::Assign(AssignExpr {
        op: AssignOp::Assign,
        left: Box::new(target),
        right: Box::new(right),
        value,
    })
}

fn write(target: Node, right: Node) -> Node {
    write_value(target, right, pure_value())
}

fn lit() -> Node {
    Node::Lit(Lit::Other)
}

fn boolean(value: bool) -> Node {
    Node::Lit(Lit::Bool(value))
}

fn expr_stmt(span_lo: u32, expr: Node) -> Stmt {
    Stmt { span_lo, kind: StmtKind::Expr(expr) }
}

fn other_stmt(span_lo: u32, parts: Vec<Node>) -> Stmt {
    Stmt { span_lo, kind: StmtKind::Other(Node::Other(parts)) }
}

fn export(span_lo: u32, name: &str) -> Stmt {
    expr_stmt(span_lo, write(member(global("exports"), name), lit()))
}

fn analyze(body: Vec<Stmt>) -> CommonJsExportsAnalysis {
    analyze_cjs_exports(&Program::Script(body), MARK)
}

fn names(analysis: &CommonJsExportsAnalysis) -> Vec<String> {
    analysis.names.as_vec().clone()
}

fn droppable(analysis: &CommonJsExportsAnalysis) -> Vec<(String, u32)> {
    analysis.droppable.iter().map(|export| (export.name.clone(), export.span_lo)).collect()
}

fn assert_opaque(analysis: &CommonJsExportsAnalysis) {
    assert!(analysis.is_unsafe);
    assert!(analysis.names.is_empty());
    assert!(analysis.droppable.is_empty());
    assert!(!analysis.has_es_module);
}

#[test]
fn named_writes_are_exports_in_source_order() {
    let analysis = analyze(vec![
        export(10, "b"),
        expr_stmt(30, write(member(member(global("module"), "exports"), "a"), lit())),
    ]);
    assert!(!analysis.is_unsafe);
    assert!(!analysis.has_es_module);
    assert_eq!(names(&analysis), ["b", "a"]);
    assert_eq!(droppable(&analysis), [("b".to_string(), 10), ("a".to_string(), 30)]);
    assert_eq!(analysis.names.len(), 2);
}

#[test]
fn empty_program_has_no_exports() {
    let analysis = analyze(vec![]);
    assert!(!analysis.is_unsafe);
    assert!(analysis.names.is_empty());
    assert!(analysis.droppable.is_empty());
}

#[test]
fn default_analysis_is_empty_and_safe() {
    let analysis = CommonJsExportsAnalysis::default();
    assert!(!analysis.is_unsafe && !analysis.has_es_module);
    assert!(analysis.names.is_empty() && analysis.droppable.is_empty());
}

#[test]
fn parenthesized_writes_are_recognized() {
    let analysis = analyze(vec![expr_stmt(
        3,
        paren(paren(write(member(paren(global("exports")), "a"), lit()))),
    )]);
    assert!(!analysis.is_unsafe);
    assert_eq!(names(&analysis), ["a"]);
}

#[test]
fn marker_is_flagged_but_no_export() {
    let analysis = analyze(vec![
        expr_stmt(1, write(member(global("exports"), "__esModule"), boolean(true))),
        export(20, "a"),
    ]);
    assert!(!analysis.is_unsafe);
    assert!(analysis.has_es_module);
    assert_eq!(names(&analysis), ["a"]);
    let analysis = analyze(vec![expr_stmt(
        1,
        write(
            member(member(global("module"), "exports"), "__esModule"),
            paren(boolean(true)),
        ),
    )]);
    assert!(analysis.has_es_module && !analysis.is_unsafe);
    assert!(analysis.names.is_empty());
}

#[test]
fn marker_with_another_value_is_unsafe() {
    assert_opaque(&analyze(vec![expr_stmt(
        1,
        write(member(global("exports"), "__esModule"), boolean(false)),
    )]));
    assert_opaque(&analyze(vec![expr_stmt(
        1,
        write(member(global("exports"), "__esModule"), lit()),
    )]));
    assert_opaque(&analyze(vec![expr_stmt(
        1,
        write(member(global("exports"), "__esModule"), local("flag")),
    )]));
}

#[test]
fn module_exports_reassignment_is_unsafe() {
    assert_opaque(&analyze(vec![
        export(1, "a"),
        expr_stmt(9, write(member(global("module"), "exports"), lit())),
    ]));
}

#[test]
fn computed_and_private_keys_are_unsafe() {
    for prop in [
        MemberProp::Computed(Box::new(local("key"))),
        MemberProp::Computed(Box::new(Node::Lit(Lit::Str("a".to_string())))),
        MemberProp::PrivateName,
    ] {
        let obj = Box::new(global("exports"));
        let target = Node::Member(MemberExpr { obj, prop });
        assert_opaque(&analyze(vec![expr_stmt(1, write(target, lit()))]));
    }
}

#[test]
fn comma_statement_is_unsafe() {
    let sequence = || {
        comma(
            write(member(global("exports"), "a"), lit()),
            write(member(global("exports"), "b"), lit()),
        )
    };
    assert_opaque(&analyze(vec![expr_stmt(1, sequence())]));
    assert_opaque(&analyze(vec![expr_stmt(1, paren(sequence()))]));
    assert_opaque(&analyze(vec![expr_stmt(1, comma(lit(), lit()))]));
}

#[test]
fn comma_in_the_target_is_looked_through() {
    let target = member(paren(comma(lit(), global("exports"))), "a");
    let analysis = analyze(vec![expr_stmt(1, write(target, lit()))]);
    assert!(!analysis.is_unsafe);
    assert_eq!(names(&analysis), ["a"]);
}

#[test]
fn exports_in_front_of_a_comma_is_unsafe() {
    // `(exports.b = 1, exports).a = 1`
    let inner = write(member(global("exports"), "b"), lit());
    let target = member(paren(comma(inner, global("exports"))), "a");
    assert_opaque(&analyze(vec![expr_stmt(1, write(target, lit()))]));
    // `(module, exports).__esModule = true`
    let target = member(paren(comma(global("module"), global("exports"))), "__esModule");
    assert_opaque(&analyze(vec![expr_stmt(1, write(target, boolean(true)))]));
    // `exports.__esModule = (exports, true)`
    let value = paren(comma(global("exports"), boolean(true)));
    let stmt = expr_stmt(1, write(member(global("exports"), "__esModule"), value));
    assert_opaque(&analyze(vec![stmt]));
}

#[test]
fn second_write_to_a_name_is_unsafe() {
    assert_opaque(&analyze(vec![export(1, "a"), export(2, "b"), export(3, "a")]));
}

#[test]
fn compound_assignment_is_unsafe() {
    let assign = Node::Assign(AssignExpr {
        op: AssignOp::Compound,
        left: Box::new(member(global("exports"), "a")),
        right: Box::new(lit()),
        value: pure_value(),
    });
    assert_opaque(&analyze(vec![expr_stmt(1, assign)]));
}

#[test]
fn other_targets_are_ordinary() {
    let analysis = analyze(vec![
        expr_stmt(1, write(member(local("foo"), "bar"), lit())),
        expr_stmt(2, write(local("x"), lit())),
        expr_stmt(3, lit()),
        Stmt { span_lo: 4, kind: StmtKind::Empty },
        other_stmt(5, vec![local("y"), lit()]),
        export(6, "a"),
    ]);
    assert!(!analysis.is_unsafe);
    assert_eq!(names(&analysis), ["a"]);
}

#[test]
fn shadowed_names_are_not_the_exports_object() {
    let analysis = analyze(vec![
        expr_stmt(1, write(member(local("exports"), "a"), lit())),
        expr_stmt(2, write(member(local("module"), "exports"), lit())),
        expr_stmt(3, local("exports")),
    ]);
    assert!(!analysis.is_unsafe);
    assert!(analysis.names.is_empty());
}

#[test]
fn any_other_mention_is_unsafe() {
    assert_opaque(&analyze(vec![export(1, "a"), expr_stmt(2, global("exports"))]));
    assert_opaque(&analyze(vec![export(1, "a"), expr_stmt(2, global("module"))]));
    assert_opaque(&analyze(vec![
        export(1, "a"),
        other_stmt(2, vec![lit(), write(member(global("exports"), "b"), lit())]),
    ]));
    assert_opaque(&analyze(vec![other_stmt(
        2,
        vec![Node::Function(vec![write(member(global("exports"), "b"), lit())])],
    )]));
    assert_opaque(&analyze(vec![expr_stmt(
        1,
        write(member(paren(global("module")), "exports"), lit()),
    )]));
}

#[test]
fn leaking_right_hand_side_is_unsafe() {
    let right = Node::Other(vec![global("exports")]);
    assert_opaque(&analyze(vec![expr_stmt(
        1,
        write(member(global("exports"), "a"), right),
    )]));
}

#[test]
fn top_level_this_is_unsafe() {
    assert_opaque(&analyze(vec![expr_stmt(1, Node::This)]));
    // An arrow function has the `this` of the place where it stands.
    assert_opaque(&analyze(vec![expr_stmt(1, Node::Other(vec![Node::Other(vec![Node::This])]))]));
    assert_opaque(&analyze(vec![expr_stmt(
        1,
        write(member(global("exports"), "a"), Node::This),
    )]));
}

#[test]
fn this_in_a_function_is_its_own() {
    let analysis = analyze(vec![
        other_stmt(1, vec![Node::Function(vec![Node::This, Node::Other(vec![Node::This])])]),
        export(2, "a"),
    ]);
    assert!(!analysis.is_unsafe);
    assert_eq!(names(&analysis), ["a"]);
    // Behind the function the top level goes on.
    assert_opaque(&analyze(vec![other_stmt(
        1,
        vec![Node::Function(vec![Node::This]), Node::This],
    )]));
}

#[test]
fn impure_values_are_exports_but_not_droppable() {
    let analysis = analyze(vec![
        expr_stmt(1, write_value(member(global("exports"), "a"), lit(), impure_value())),
        export(2, "b"),
    ]);
    assert!(!analysis.is_unsafe);
    assert_eq!(names(&analysis), ["a", "b"]);
    assert_eq!(droppable(&analysis), [("b".to_string(), 2)]);
}

#[test]
fn reading_an_unresolved_name_is_a_side_effect() {
    let one = |value| {
        analyze(vec![expr_stmt(1, write_value(member(global("exports"), "a"), lit(), value))])
    };
    assert!(droppable(&one(ident_value("someGlobal", MARK.ctxt))).is_empty());
    assert_eq!(droppable(&one(ident_value("undefined", MARK.ctxt))).len(), 1);
    assert_eq!(droppable(&one(ident_value("someLocal", 5))).len(), 1);
}

#[test]
fn deep_values_count_as_impure() {
    let mut value = pure_value();
    for _ in 0..3 {
        value = Box::new(ast::Expr::Paren(ast::ParenExpr { span: DUMMY_SP, expr: value }));
    }
    let analysis = analyze(vec![expr_stmt(
        1,
        write_value(member(global("exports"), "a"), lit(), value.clone()),
    )]);
    assert_eq!(droppable(&analysis).len(), 1);
    let deeper = Box::new(ast::Expr::Paren(ast::ParenExpr { span: DUMMY_SP, expr: value }));
    let analysis = analyze(vec![expr_stmt(
        1,
        write_value(member(global("exports"), "a"), lit(), deeper),
    )]);
    assert!(!analysis.is_unsafe);
    assert!(droppable(&analysis).is_empty());
}

#[test]
fn given_side_effects_decide_what_is_droppable() {
    let program = Program::Script(vec![export(1, "a"), expr_stmt(2, lit()), export(3, "b")]);
    let analysis = analyze_given_side_effects(&program, MARK, &vec![true, false, false]);
    assert_eq!(names(&analysis), ["a", "b"]);
    assert_eq!(droppable(&analysis), [("b".to_string(), 3)]);
    let analysis = analyze_given_side_effects(&program, MARK, &vec![false, true, true]);
    assert_eq!(droppable(&analysis), [("a".to_string(), 1)]);
}

#[test]
fn module_declarations_are_no_statements() {
    let program = Program::Module(vec![
        ModuleItem::ModuleDecl(Node::Other(vec![local("exports")])),
        ModuleItem::Stmt(export(4, "a")),
        ModuleItem::ModuleDecl(Node::Other(vec![])),
        ModuleItem::Stmt(export(8, "b")),
    ]);
    let analysis = analyze_cjs_exports(&program, MARK);
    assert!(!analysis.is_unsafe);
    assert_eq!(names(&analysis), ["a", "b"]);
    assert_eq!(program.statements().len(), 2);
    assert_eq!(program.roots().len(), 4);
}

#[test]
fn exports_in_a_module_declaration_is_unsafe() {
    for parts in [
        // `export default exports;`
        vec![global("exports")],
        vec![member(global("module"), "exports")],
        vec![Node::This],
        vec![Node::Function(vec![global("exports")])],
    ] {
        let program = Program::Module(vec![
            ModuleItem::Stmt(export(1, "a")),
            ModuleItem::ModuleDecl(Node::Other(parts)),
        ]);
        assert_opaque(&analyze_cjs_exports(&program, MARK));
        assert_opaque(&analyze_given_side_effects(&program, MARK, &vec![false]));
    }
    // `export default function () { this; }`
    let program = Program::Module(vec![
        ModuleItem::ModuleDecl(Node::Other(vec![Node::Function(vec![Node::This])])),
        ModuleItem::Stmt(export(1, "a")),
    ]);
    assert_eq!(names(&analyze_cjs_exports(&program, MARK)), ["a"]);
}

#[test]
fn pure_comma_in_the_target_is_droppable() {
    // `(0, exports).a = 1`
    let target = member(paren(comma(lit(), global("exports"))), "a");
    let analysis = analyze(vec![expr_stmt(1, write(target, lit()))]);
    assert!(!analysis.is_unsafe);
    assert_eq!(names(&analysis), ["a"]);
    assert_eq!(droppable(&analysis), [("a".to_string(), 1)]);
}

#[test]
fn impure_comma_in_the_target_is_not_droppable() {
    // `(f(), exports).a = 1` and `(0, (f(), module.exports)).b = 1`
    let call = || Node::Other(vec![local("f")]);
    let object = comma_value(call(), *impure_value(), global("exports"));
    let first = member(paren(object), "a");
    let object = comma_value(call(), *impure_value(), member(global("module"), "exports"));
    let second = member(paren(comma(lit(), paren(object))), "b");
    let analysis = analyze(vec![
        expr_stmt(1, write(first, lit())),
        expr_stmt(2, write(second, lit())),
        export(3, "c"),
    ]);
    assert!(!analysis.is_unsafe);
    assert_eq!(names(&analysis), ["a", "b", "c"]);
    assert_eq!(droppable(&analysis), [("c".to_string(), 3)]);
}

#[test]
fn taint_stays() {
    let mut visitor =
        ExportsTaintVisitor { unresolved_mark: MARK, in_function: false, tainted: false };
    visitor.visit_node(&Node::Function(vec![Node::This]));
    assert!(!visitor.tainted && !visitor.in_function);
    visitor.visit_node(&Node::Function(vec![global("exports")]));
    assert!(visitor.tainted && !visitor.in_function);
    visitor.visit_node(&lit());
    assert!(visitor.tainted);
}

#[test]
fn analyzer_questions() {
    assert!(is_global(
        &Ident { sym: "exports".to_string(), ctxt: 9, outer: 1 },
        "exports",
        MARK
    ));
    assert!(!is_global(
        &Ident { sym: "exports".to_string(), ctxt: 2, outer: 3 },
        "exports",
        MARK
    ));
    assert!(is_module_dot_exports(&dot(global("module"), "exports"), MARK));
    assert!(!is_module_dot_exports(&dot(global("module"), "export"), MARK));
    assert!(!is_module_dot_exports(&dot(local("module"), "exports"), MARK));
    assert!(!is_module_dot_exports(&dot(global("exports"), "exports"), MARK));
    assert!(matches!(
        unparen(&paren(comma(lit(), paren(Node::This)))),
        Node::This
    ));
}

#[test]
fn name_set_keeps_first_insertions() {
    let mut set = NameSet::new();
    assert!(set.insert("b".to_string()));
    assert!(set.insert("a".to_string()));
    assert!(!set.insert("b".to_string()));
    assert!(set.contains(&"a".to_string()));
    assert!(!set.contains(&"c".to_string()));
    assert_eq!(set.into_vec(), ["b", "a"]);
}

#[test]
fn droppable_exports_are_among_the_names() {
    let analysis = analyze(vec![
        export(1, "a"),
        expr_stmt(2, write_value(member(global("exports"), "b"), lit(), impure_value())),
        export(3, "c"),
    ]);
    assert_eq!(names(&analysis), ["a", "b", "c"]);
    assert_eq!(droppable(&analysis), [("a".to_string(), 1), ("c".to_string(), 3)]);
    assert!(analysis.droppable.iter().all(|export| analysis.names.contains(&export.name)));
    assert!(!analysis.names.contains(&"__esModule".to_string()));
}
