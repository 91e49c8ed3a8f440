//! How the results of `require` calls are consumed.

use cjs_analysis::analyzer::{extract_name_from_member_prop, extract_names_from_object_pat};
use cjs_analysis::names::NameSet;
use cjs_analysis::require_usage::{
    analyze_require_usage, resolve_bindings, ExportUsage, NamespaceUsage, NamespaceUsageVisitor,
};
use cjs_analysis::syntax::{
    AssignExpr, AssignOp, AssignPatProp, CallExpr, Ident, KeyValuePatProp, Lit, Mark, MemberExpr,
    MemberProp, ModuleItem, Node, Program, PropName, Stmt, StmtKind, VarDeclarator,
};
use rustc_hash::FxHashMap;
use swc_core::common::DUMMY_SP;
use swc_core::ecma::ast;

const MARK: Mark = Mark { number: 1, ctxt: 2 };

fn local_ident(sym: &str) -> Ident {
    Ident { sym: sym.to_string(), ctxt: 5, outer: 4 }
}

fn local(sym: &str) -> Node {
    Node::Ident(local_ident(sym))
}

fn string(value: &str) -> Node {
    Node::Lit(Lit::Str(value.to_string()))
}

fn call(span_lo: u32, callee: Node, args: Vec<Node>) -> Node {
    Node::Call(CallExpr { span_lo, callee: Box::new(callee), args })
}

fn require_ident() -> Node {
    Node::Ident(Ident { sym: "require".to_string(), ctxt: MARK.ctxt, outer: MARK.number })
}

/// `require("./m")` at `span_lo`.
fn require(span_lo: u32) -> Node {
    call(span_lo, require_ident(), vec![string("./m")])
}

fn access(obj: Node, prop: MemberProp) -> Node {
    Node::Member(MemberExpr { obj: Box::new(obj), prop })
}

/// `target = true`, or `target += true` and the like.
fn assign(op: AssignOp, target: Node) -> Node {
    Node::Assign(AssignExpr {
        op,
        left: Box::new(target),
        right: Box::new(Node::Lit(Lit::Bool(true))),
        value: Box::new(ast::Expr::Lit(ast::Lit::Bool(ast::Bool { span: DUMMY_SP, value: true }))),
    })
}

/// `target` in each piece of syntax that writes, updates or deletes it.
fn writes(target: fn() -> Node) -> Vec<Node> {
    vec![
        assign(AssignOp::Assign, target()),
        assign(AssignOp::Compound, target()),
        assign(AssignOp::Assign, Node::Paren(Box::new(target()))),
        // `[target] = list`
        assign(AssignOp::Assign, Node::Other(vec![Node::PatExpr(Box::new(target()))])),
        // `({ k: target } = object)`
        assign(
            AssignOp::Assign,
            Node::Other(vec![Node::ObjectPat(vec![Node::KeyValuePatProp(KeyValuePatProp {
                key: PropName::Ident("k".to_string()),
                value: Box::new(Node::PatExpr(Box::new(target()))),
            })])]),
        ),
        Node::Update(Box::new(target())),
        Node::Update(Box::new(Node::Paren(Box::new(target())))),
        Node::Delete(Box::new(target())),
        Node::Delete(Box::new(Node::Wrapped(Box::new(target())))),
    ]
}

fn member(obj: Node, name: &str) -> Node {
    access(obj, MemberProp::Ident(name.to_string()))
}

fn index(obj: Node, key: Node) -> Node {
    access(obj, MemberProp::Computed(Box::new(key)))
}

fn declare(name: Node, init: Node) -> Node {
    let init = Some(Box::new(init));
    Node::VarDeclarator(VarDeclarator { name: Box::new(name), init })
}

/// `export const name = init`
fn export(name: Node, init: Node) -> ModuleItem {
    ModuleItem::ModuleDecl(Node::ExportDecl(vec![declare(name, init)]))
}

fn key(name: PropName, value: &str) -> Node {
    Node::KeyValuePatProp(KeyValuePatProp { key: name, value: Box::new(local(value)) })
}

fn shorthand(name: &str) -> Node {
    Node::AssignPatProp(AssignPatProp { key: local_ident(name), value: None })
}

fn script(nodes: Vec<Node>) -> Program {
    let mut span_lo = 0;
    Program::Script(
        nodes
            .into_iter()
            .map(|node| {
                span_lo += 1000;
                Stmt { span_lo, kind: StmtKind::Other(node) }
            })
            .collect(),
    )
}

fn usage(nodes: Vec<Node>) -> FxHashMap<u32, ExportUsage> {
    analyze_require_usage(&script(nodes), MARK)
}

/// The members at `span_lo`; `None` for the whole namespace.
fn members(result: &FxHashMap<u32, ExportUsage>, span_lo: u32) -> Option<Vec<String>> {
    match result.get(&span_lo) {
        Some(ExportUsage::PartialNamespaceObject(names)) => Some(names.clone()),
        Some(ExportUsage::All) => None,
        None => panic!("nothing reported at {}", span_lo),
    }
}

fn some(names: &[&str]) -> Option<Vec<String>> {
    Some(names.iter().map(|name| name.to_string()).collect())
}

#[test]
fn member_access_uses_the_member() {
    let result = usage(vec![member(require(3), "foo"), index(require(9), string("bar"))]);
    assert_eq!(result.len(), 2);
    assert_eq!(members(&result, 3), some(&["foo"]));
    assert_eq!(members(&result, 9), some(&["bar"]));
}

#[test]
fn parenthesized_call_is_recognized() {
    let result = usage(vec![member(Node::Paren(Box::new(require(3))), "foo")]);
    assert_eq!(members(&result, 3), some(&["foo"]));
}

#[test]
fn dynamic_member_access_uses_all() {
    let result = usage(vec![
        index(require(3), local("key")),
        access(require(9), MemberProp::PrivateName),
    ]);
    assert_eq!(members(&result, 3), None);
    assert_eq!(members(&result, 9), None);
}

#[test]
fn destructuring_uses_the_keys() {
    let pattern = Node::ObjectPat(vec![
        shorthand("a"),
        key(PropName::Ident("b".to_string()), "x"),
        key(PropName::Str("c-d".to_string()), "y"),
    ]);
    let result = usage(vec![declare(pattern, require(3))]);
    assert_eq!(members(&result, 3), some(&["a", "b", "c-d"]));
    let result = usage(vec![declare(Node::ObjectPat(vec![]), require(3))]);
    assert_eq!(members(&result, 3), some(&[]));
}

#[test]
fn rest_and_computed_keys_use_all() {
    for prop in [
        Node::Other(vec![local("rest")]),
        key(PropName::Computed(Box::new(local("k"))), "x"),
        key(PropName::Other, "x"),
    ] {
        let pattern = Node::ObjectPat(vec![shorthand("a"), prop]);
        let result = usage(vec![declare(pattern, require(3))]);
        assert_eq!(members(&result, 3), None);
    }
}

#[test]
fn other_patterns_use_all() {
    let result = usage(vec![declare(Node::Other(vec![local("a")]), require(3))]);
    assert_eq!(members(&result, 3), None);
}

#[test]
fn binding_uses_are_collected_in_source_order() {
    let result = usage(vec![
        declare(local("ns"), require(3)),
        member(local("ns"), "b"),
        Node::Function(vec![index(local("ns"), string("a"))]),
        member(local("ns"), "b"),
    ]);
    assert_eq!(result.len(), 1);
    assert_eq!(members(&result, 3), some(&["b", "a"]));
}

#[test]
fn unused_binding_uses_nothing() {
    let result = usage(vec![declare(local("ns"), require(3))]);
    assert_eq!(members(&result, 3), some(&[]));
}

#[test]
fn wholesale_uses_escape() {
    for escape in [
        local("ns"),
        Node::Other(vec![local("ns")]),
        index(local("ns"), local("key")),
        access(local("ns"), MemberProp::PrivateName),
        Node::Paren(Box::new(local("ns"))),
        member(Node::Paren(Box::new(local("ns"))), "a"),
        shorthand("ns"),
    ] {
        let result = usage(vec![
            declare(local("ns"), require(3)),
            member(local("ns"), "b"),
            escape,
            member(local("ns"), "c"),
        ]);
        assert_eq!(members(&result, 3), None);
    }
}

#[test]
fn dynamic_key_is_scanned_too() {
    let result = usage(vec![
        declare(local("ns"), require(3)),
        declare(local("other"), require(9)),
        index(local("ns"), member(local("other"), "key")),
    ]);
    assert_eq!(members(&result, 3), None);
    assert_eq!(members(&result, 9), some(&["key"]));
}

#[test]
fn bindings_of_one_name_are_told_apart_by_context() {
    let inner = Node::Ident(Ident { sym: "ns".to_string(), ctxt: 6, outer: 4 });
    let result = usage(vec![declare(local("ns"), require(3)), inner]);
    assert_eq!(members(&result, 3), some(&[]));
}

#[test]
fn initializer_of_a_declaration_is_scanned() {
    let result = usage(vec![
        declare(local("ns"), require(3)),
        declare(local("copy"), local("ns")),
    ]);
    assert_eq!(members(&result, 3), None);
}

#[test]
fn last_declaration_of_a_binding_counts() {
    let result = usage(vec![
        declare(local("ns"), require(3)),
        declare(local("ns"), require(9)),
        member(local("ns"), "a"),
    ]);
    assert_eq!(result.len(), 1);
    assert_eq!(members(&result, 9), some(&["a"]));
}

#[test]
fn last_call_site_at_a_position_counts() {
    let result = usage(vec![member(require(3), "a"), member(require(3), "b")]);
    assert_eq!(members(&result, 3), some(&["b"]));
}

#[test]
fn binding_counts_before_call_site() {
    let result = usage(vec![
        declare(local("ns"), require(3)),
        member(local("ns"), "a"),
        member(require(3), "b"),
    ]);
    assert_eq!(members(&result, 3), some(&["a"]));
}

#[test]
fn other_calls_are_not_reported() {
    let shadowed = Node::Ident(Ident { sym: "require".to_string(), ctxt: 5, outer: 4 });
    let result = usage(vec![
        require(1),
        member(call(2, shadowed, vec![string("./m")]), "a"),
        member(call(3, require_ident(), vec![local("path")]), "a"),
        member(call(4, require_ident(), vec![]), "a"),
        member(call(5, require_ident(), vec![string("./m"), string("./n")]), "a"),
        member(
            call(6, require_ident(), vec![Node::Spread(Box::new(string("./m")))]),
            "a",
        ),
        member(
            call(7, Node::Paren(Box::new(require_ident())), vec![string("./m")]),
            "a",
        ),
        member(call(8, Node::Other(vec![]), vec![string("./m")]), "a"),
    ]);
    assert!(result.is_empty());
}

#[test]
fn module_declarations_are_scanned() {
    let program = Program::Module(vec![
        ModuleItem::Stmt(Stmt {
            span_lo: 1,
            kind: StmtKind::Other(declare(local("ns"), require(3))),
        }),
        ModuleItem::ModuleDecl(Node::Other(vec![local("ns")])),
    ]);
    let result = analyze_require_usage(&program, MARK);
    assert_eq!(members(&result, 3), None);
}

#[test]
fn bindings_may_be_given_in_any_order() {
    let program = script(vec![member(local("a"), "x"), local("b")]);
    let a = (("a".to_string(), 5), 3);
    let b = (("b".to_string(), 5), 3);
    let result = resolve_bindings(&program, vec![a.clone(), b.clone()], FxHashMap::default());
    assert_eq!(members(&result, 3), None);
    let result = resolve_bindings(&program, vec![b, a], FxHashMap::default());
    assert_eq!(members(&result, 3), some(&["x"]));
}

#[test]
fn resolved_calls_are_kept() {
    let mut resolved = FxHashMap::default();
    resolved.insert(1, ExportUsage::All);
    let result = resolve_bindings(&script(vec![]), vec![(("a".to_string(), 5), 3)], resolved);
    assert_eq!(result.len(), 2);
    assert_eq!(members(&result, 1), None);
    assert_eq!(members(&result, 3), some(&[]));
}

#[test]
fn names_are_extracted() {
    assert_eq!(
        extract_name_from_member_prop(&MemberProp::Ident("a".to_string())),
        Some("a".to_string())
    );
    assert_eq!(
        extract_name_from_member_prop(&MemberProp::Computed(Box::new(string("b")))),
        Some("b".to_string())
    );
    assert_eq!(
        extract_name_from_member_prop(&MemberProp::Computed(Box::new(Node::Lit(Lit::Other)))),
        None
    );
    assert_eq!(
        extract_names_from_object_pat(&vec![shorthand("a"), shorthand("a")]),
        some(&["a", "a"])
    );
}

#[test]
fn written_members_use_all() {
    let mut targets = writes(|| member(local("ns"), "a"));
    targets.extend(writes(|| index(local("ns"), string("a"))));
    for write in targets {
        let result = usage(vec![
            declare(local("ns"), require(3)),
            member(local("ns"), "b"),
            write,
        ]);
        assert_eq!(members(&result, 3), None);
    }
    for write in writes(|| member(require(3), "a")) {
        assert_eq!(members(&usage(vec![write]), 3), None);
    }
}

#[test]
fn write_below_a_read_member_is_a_read() {
    // `ns.a.b = 1` and the like
    for write in writes(|| member(member(local("ns"), "a"), "b")) {
        let result = usage(vec![declare(local("ns"), require(3)), write]);
        assert_eq!(members(&result, 3), some(&["a"]));
    }
    for write in writes(|| member(member(require(3), "a"), "b")) {
        assert_eq!(members(&usage(vec![write]), 3), some(&["a"]));
    }
}

#[test]
fn right_hand_side_is_read() {
    // `other = ns.a`
    let node = Node::Assign(AssignExpr {
        op: AssignOp::Assign,
        left: Box::new(local("other")),
        right: Box::new(member(local("ns"), "a")),
        value: Box::new(ast::Expr::This(ast::ThisExpr { span: DUMMY_SP })),
    });
    let result = usage(vec![declare(local("ns"), require(3)), node]);
    assert_eq!(members(&result, 3), some(&["a"]));
    // `ns?.a`
    let node = Node::Wrapped(Box::new(member(local("ns"), "a")));
    let result = usage(vec![declare(local("ns"), require(3)), node]);
    assert_eq!(members(&result, 3), some(&["a"]));
}

#[test]
fn exported_binding_uses_all() {
    let program = Program::Module(vec![export(local("x"), require(18))]);
    let result = analyze_require_usage(&program, MARK);
    assert_eq!(result.len(), 1);
    assert_eq!(members(&result, 18), None);
    // What a pattern takes out is known though it is exported.
    let pattern = Node::ObjectPat(vec![shorthand("a")]);
    let program = Program::Module(vec![export(pattern, require(18))]);
    assert_eq!(members(&analyze_require_usage(&program, MARK), 18), some(&["a"]));
    // A declaration in an exported function is the function's own.
    let function = Node::Function(vec![
        declare(local("x"), require(18)),
        member(local("x"), "a"),
    ]);
    let program = Program::Module(vec![ModuleItem::ModuleDecl(Node::ExportDecl(vec![function]))]);
    assert_eq!(members(&analyze_require_usage(&program, MARK), 18), some(&["a"]));
}

#[test]
fn one_more_use_changes_one_entry_of_the_report() {
    let nodes = |more: Vec<Node>| {
        let mut nodes = vec![
            declare(local("x"), require(3)),
            declare(local("y"), require(9)),
            member(local("x"), "a"),
            member(local("y"), "b"),
        ];
        nodes.extend(more);
        nodes
    };
    let result = usage(nodes(vec![]));
    assert_eq!((members(&result, 3), members(&result, 9)), (some(&["a"]), some(&["b"])));
    let result = usage(nodes(vec![member(local("x"), "n")]));
    assert_eq!((members(&result, 3), members(&result, 9)), (some(&["a", "n"]), some(&["b"])));
    let result = usage(nodes(vec![member(local("x"), "a")]));
    assert_eq!((members(&result, 3), members(&result, 9)), (some(&["a"]), some(&["b"])));
    let wholesale = || call(50, local("f"), vec![local("x")]);
    let result = usage(nodes(vec![wholesale()]));
    assert_eq!((members(&result, 3), members(&result, 9)), (None, some(&["b"])));
    let result = usage(nodes(vec![wholesale(), member(local("x"), "n")]));
    assert_eq!((members(&result, 3), members(&result, 9)), (None, some(&["b"])));
}

#[test]
fn escape_stays() {
    let id = ("x".to_string(), 5);
    let other = ("y".to_string(), 5);
    let mut usage = FxHashMap::default();
    usage.insert(id.clone(), NamespaceUsage::Members(NameSet::new()));
    let mut visitor = NamespaceUsageVisitor { usage };
    assert!(visitor.is_watched(&id) && !visitor.is_watched(&other));
    visitor.record_member(&id, "a".to_string());
    assert!(matches!(&visitor.usage[&id], NamespaceUsage::Members(names) if names.len() == 1));
    visitor.escape(&id);
    visitor.record_member(&id, "b".to_string());
    assert!(matches!(visitor.usage[&id], NamespaceUsage::Escaped));
    visitor.escape(&other);
    assert!(!visitor.is_watched(&other));
}
