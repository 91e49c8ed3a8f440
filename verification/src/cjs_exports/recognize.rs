//! Static recognition of a CommonJS module's named `exports.foo = …` writes.

use crate::analyzer::{
    is_global, is_module_dot_exports, names_global, names_module_exports, unparen, unparenthesized,
};
use crate::names::NameSet;
use crate::outside::{may_have_side_effects, side_effects};
use crate::syntax::{
    children, lemma_child_is_smaller, own_ident, statements, AssignExpr, AssignOp, Ident, Lit, Mark,
    MemberExpr, MemberProp, ModuleItem, Node, Program, Stmt, StmtKind,
};
use swc_core::ecma::ast::Expr;
use vstd::prelude::*;

verus! {

/// Whether `node` by itself lets the exports object out: it names the real `exports` or
/// `module`, or it is a `this` that no function rebinds and that therefore is `exports`.
pub open spec fn taints(node: Node, in_function: bool, unresolved_mark: Mark) -> bool {
    ||| node is This && !in_function
    ||| own_ident(node) matches Some(ident) && names_exports(ident, unresolved_mark)
}

/// Whether `ident` is the real `exports` or `module`.
pub open spec fn names_exports(ident: Ident, unresolved_mark: Mark) -> bool {
    ||| names_global(ident, "exports"@, unresolved_mark)
    ||| names_global(ident, "module"@, unresolved_mark)
}

/// Whether `node`, or a node below it, lets the exports object out. `in_function` says whether a
/// function around `node` rebinds `this`.
pub open spec fn tainted(node: Node, in_function: bool, unresolved_mark: Mark) -> bool
    decreases node,
{
    proof {
        assert forall|k: int| 0 <= k < children(node).len() implies decreases_to!(
            node => #[trigger] children(node)[k]) by {
            lemma_child_is_smaller(node, k);
        }
    }
    ||| taints(node, in_function, unresolved_mark)
    ||| exists|k: int|
        0 <= k < children(node).len() && tainted(
            #[trigger] children(node)[k],
            in_function || node is Function,
            unresolved_mark,
        )
}

/// Whether an operand of `expr` whose value a comma discards lets the exports object out.
pub open spec fn discards_taint(expr: Node, unresolved_mark: Mark) -> bool
    decreases expr,
{
    match expr {
        Node::Paren(inner) => discards_taint(*inner, unresolved_mark),
        Node::Sequence(sequence) => {
            ||| exists|k: int|
                0 <= k < sequence.init@.len() && tainted(
                    #[trigger] sequence.init@[k],
                    false,
                    unresolved_mark,
                )
            ||| discards_taint(*sequence.last, unresolved_mark)
        },
        _ => false,
    }
}

/// Flags any reference to the real `exports` / `module` bindings, and any top-level `this`
/// (which aliases `exports`). Recognized export writes never reach this visitor via their
/// target; everything else in the module does, including export writes in positions that are
/// not recognized, whose `exports` root lands here.
pub struct ExportsTaintVisitor {
    pub unresolved_mark: Mark,
    /// Whether a function encloses the place; at module top level, where none does, `this`
    /// aliases `exports`.
    pub in_function: bool,
    pub tainted: bool,
}

impl ExportsTaintVisitor {
    /// Visits `node` and all nodes below it. No visit clears the taint, and each leaves the
    /// visitor in the function in which it found it.
    pub fn visit_node(&mut self, node: &Node)
        ensures
            old(self).tainted ==> final(self).tainted,
            final(self).unresolved_mark == old(self).unresolved_mark,
            final(self).in_function == old(self).in_function,
            final(self).tainted == (old(self).tainted || tainted(
                *node,
                old(self).in_function,
                old(self).unresolved_mark,
            )),
        decreases node, 2nat,
    {
        if self.tainted {
            return;
        }
        match node {
            Node::This => self.visit_this_expr(),
            Node::Function(_) => self.visit_function(node),
            _ => {
                if let Some(ident) = node.own_ident() {
                    self.visit_ident(ident);
                }
                self.visit_children(node);
            },
        }
    }

    /// Visits what `stmt` is made of.
    fn visit_stmt(&mut self, stmt: &Stmt)
        requires
            !old(self).in_function,
        ensures
            final(self).unresolved_mark == old(self).unresolved_mark,
            final(self).in_function == old(self).in_function,
            final(self).tainted == (old(self).tainted || stmt_tainted(
                *stmt,
                old(self).unresolved_mark,
            )),
    {
        match &stmt.kind {
            StmtKind::Expr(expr) => self.visit_node(expr),
            StmtKind::Empty => {},
            StmtKind::Other(parts) => self.visit_node(parts),
        }
    }

    /// Visits what the module declarations of `program` are made of.
    fn visit_module_decls(&mut self, program: &Program)
        requires
            !old(self).in_function,
        ensures
            final(self).unresolved_mark == old(self).unresolved_mark,
            final(self).in_function == old(self).in_function,
            final(self).tainted == (old(self).tainted || decls_tainted(
                *program,
                old(self).unresolved_mark,
            )),
    {
        if let Program::Module(items) = program {
            let mut i: usize = 0;
            while i < items.len()
                invariant
                    i <= items@.len(),
                    !self.in_function,
                    self.unresolved_mark == old(self).unresolved_mark,
                    self.in_function == old(self).in_function,
                    self.tainted == (old(self).tainted || exists|k: int|
                        0 <= k < i && decl_tainted(
                            #[trigger] items@[k],
                            old(self).unresolved_mark,
                        )),
                decreases items@.len() - i,
            {
                let ghost item = items@[i as int];
                assert(item == items@[i as int]);
                if let ModuleItem::ModuleDecl(parts) = &items[i] {
                    self.visit_node(parts);
                }
                i += 1;
            }
        }
    }

    /// Visits the operands of `expr` whose values a comma discards.
    fn visit_discarded(&mut self, expr: &Node)
        requires
            !old(self).in_function,
        ensures
            final(self).unresolved_mark == old(self).unresolved_mark,
            final(self).in_function == old(self).in_function,
            final(self).tainted == (old(self).tainted || discards_taint(
                *expr,
                old(self).unresolved_mark,
            )),
        decreases expr,
    {
        match expr {
            Node::Paren(inner) => self.visit_discarded(inner),
            Node::Sequence(sequence) => {
                self.visit_nodes(&sequence.init);
                self.visit_discarded(&sequence.last);
            },
            _ => {},
        }
    }

    fn visit_nodes(&mut self, nodes: &Vec<Node>)
        ensures
            final(self).unresolved_mark == old(self).unresolved_mark,
            final(self).in_function == old(self).in_function,
            final(self).tainted == (old(self).tainted || exists|k: int|
                0 <= k < nodes@.len() && tainted(
                    #[trigger] nodes@[k],
                    old(self).in_function,
                    old(self).unresolved_mark,
                )),
    {
        let mut i: usize = 0;
        while i < nodes.len()
            invariant
                i <= nodes@.len(),
                self.unresolved_mark == old(self).unresolved_mark,
                self.in_function == old(self).in_function,
                self.tainted == (old(self).tainted || exists|k: int|
                    0 <= k < i && tainted(
                        #[trigger] nodes@[k],
                        old(self).in_function,
                        old(self).unresolved_mark,
                    )),
            decreases nodes@.len() - i,
        {
            self.visit_node(&nodes[i]);
            i += 1;
        }
    }

    /// Visits the nodes right below `node`.
    fn visit_children(&mut self, node: &Node)
        ensures
            final(self).unresolved_mark == old(self).unresolved_mark,
            final(self).in_function == old(self).in_function,
            final(self).tainted == (old(self).tainted || exists|k: int|
                0 <= k < children(*node).len() && tainted(
                    #[trigger] children(*node)[k],
                    old(self).in_function,
                    old(self).unresolved_mark,
                )),
        decreases node, 0nat,
    {
        let nodes = node.children();
        let mut i: usize = 0;
        while i < nodes.len()
            invariant
                i <= nodes@.len(),
                nodes@.len() == children(*node).len(),
                forall|k: int|
                    0 <= k < nodes@.len() ==> *(#[trigger] nodes@[k]) == children(*node)[k],
                self.unresolved_mark == old(self).unresolved_mark,
                self.in_function == old(self).in_function,
                self.tainted == (old(self).tainted || exists|k: int|
                    0 <= k < i && tainted(
                        #[trigger] children(*node)[k],
                        old(self).in_function,
                        old(self).unresolved_mark,
                    )),
            decreases nodes@.len() - i,
        {
            proof {
                lemma_child_is_smaller(*node, i as int);
                assert(*nodes@[i as int] == children(*node)[i as int]);
            }
            self.visit_node(nodes[i]);
            i += 1;
        }
    }

    /// Visits a function or a constructor, which rebinds `this`. An arrow function inherits
    /// `this` and is visited as any other node.
    pub fn visit_function(&mut self, function: &Node)
        requires
            function is Function,
        ensures
            old(self).tainted ==> final(self).tainted,
            final(self).unresolved_mark == old(self).unresolved_mark,
            final(self).in_function == old(self).in_function,
            final(self).tainted == (old(self).tainted || tainted(
                *function,
                old(self).in_function,
                old(self).unresolved_mark,
            )),
        decreases function, 1nat,
    {
        let in_function = self.in_function;
        self.in_function = true;
        self.visit_children(function);
        self.in_function = in_function;
    }

    pub fn visit_this_expr(&mut self)
        ensures
            final(self).unresolved_mark == old(self).unresolved_mark,
            final(self).in_function == old(self).in_function,
            final(self).tainted == (old(self).tainted || !old(self).in_function),
    {
        if !self.in_function {
            self.tainted = true;
        }
    }

    pub fn visit_ident(&mut self, ident: &Ident)
        ensures
            final(self).unresolved_mark == old(self).unresolved_mark,
            final(self).in_function == old(self).in_function,
            final(self).tainted == (old(self).tainted || names_exports(
                *ident,
                old(self).unresolved_mark,
            )),
    {
        if is_global(ident, "exports", self.unresolved_mark) || is_global(
            ident,
            "module",
            self.unresolved_mark,
        ) {
            self.tainted = true;
        }
    }
}

/// The statically-determined named exports of a CommonJS module, produced by
/// [`analyze_cjs_exports`].
#[derive(Debug)]
pub struct CommonJsExportsAnalysis {
    /// Statically known export names, in source order.
    pub names: NameSet,
    /// Whether the transpiled-ESM `__esModule` marker is set.
    pub has_es_module: bool,
    /// Whether the module touches `exports` / `module` outside the recognized safe forms. When
    /// set, the module must be treated as opaque CommonJS (no exports dropped).
    pub is_unsafe: bool,
    /// Side-effect-free `exports.NAME = …` writes that may be dropped if unused, each carrying
    /// its statement's source position for the code-gen.
    pub droppable: Vec<DroppableExport>,
}

/// A single `exports.NAME = <pure expr>` top-level statement that may be removed if `NAME` is
/// unused.
#[derive(Debug)]
pub struct DroppableExport {
    pub name: String,
    /// Source position of the export-write statement.
    pub span_lo: u32,
}

/// A droppable export as contracts speak of it.
#[verifier::ext_equal]
pub struct DroppableView {
    pub name: Seq<char>,
    pub span_lo: u32,
}

/// A [`CommonJsExportsAnalysis`] as contracts speak of it.
#[verifier::ext_equal]
pub struct AnalysisView {
    pub names: Seq<Seq<char>>,
    pub has_es_module: bool,
    pub is_unsafe: bool,
    pub droppable: Seq<DroppableView>,
}

impl View for DroppableExport {
    type V = DroppableView;

    open spec fn view(&self) -> DroppableView {
        DroppableView { name: self.name@, span_lo: self.span_lo }
    }
}

/// What contracts see of each of `droppable`.
pub open spec fn droppable_views(droppable: Seq<DroppableExport>) -> Seq<DroppableView> {
    droppable.map_values(|export: DroppableExport| export@)
}

impl View for CommonJsExportsAnalysis {
    type V = AnalysisView;

    open spec fn view(&self) -> AnalysisView {
        AnalysisView {
            names: self.names@,
            has_es_module: self.has_es_module,
            is_unsafe: self.is_unsafe,
            droppable: droppable_views(self.droppable@),
        }
    }
}

impl Default for CommonJsExportsAnalysis {
    /// No export, no marker, nothing unsafe.
    fn default() -> (analysis: Self)
        ensures
            analysis@ == (AnalysisView {
                names: seq![],
                has_es_module: false,
                is_unsafe: false,
                droppable: seq![],
            }),
    {
        CommonJsExportsAnalysis {
            names: NameSet::new(),
            has_es_module: false,
            is_unsafe: false,
            droppable: Vec::new(),
        }
    }
}

/// The expression inside the parentheses of `expr`.
pub open spec fn without_parens(expr: Node) -> Node
    decreases expr,
{
    match expr {
        Node::Paren(inner) => without_parens(*inner),
        _ => expr,
    }
}

fn strip_parens(expr: &Node) -> (inner: &Node)
    ensures
        *inner == without_parens(*expr),
    decreases expr,
{
    match expr {
        Node::Paren(inner) => strip_parens(inner),
        _ => expr,
    }
}

/// Whether `expr` is the real (unshadowed) `exports` or `module.exports`.
pub open spec fn names_exports_object(expr: Node, unresolved_mark: Mark) -> bool {
    match unparenthesized(expr) {
        Node::Ident(object) => names_global(object, "exports"@, unresolved_mark),
        Node::Member(inner) => names_module_exports(inner, unresolved_mark),
        _ => false,
    }
}

/// Whether `expr` is the real (unshadowed) `exports` or `module.exports`.
fn is_exports_object(expr: &Node, unresolved_mark: Mark) -> (answer: bool)
    ensures
        answer == names_exports_object(*expr, unresolved_mark),
{
    match unparen(expr) {
        Node::Ident(object) => is_global(object, "exports", unresolved_mark),
        Node::Member(inner) => is_module_dot_exports(inner, unresolved_mark),
        _ => false,
    }
}

/// A top-level statement `exports.NAME = value`.
pub struct ExportWrite {
    pub name: Seq<char>,
    /// Where the statement starts.
    pub span_lo: u32,
    /// What stands for the exports object in the target.
    pub object: Node,
    /// The right-hand side.
    pub right: Node,
    /// The right-hand side, as the parser left it.
    pub value: Expr,
}

/// What a top-level statement is to the analysis.
pub enum StmtForm {
    /// `exports.NAME = …` or `module.exports.NAME = …`, with a plain identifier name.
    ExportWrite(ExportWrite),
    /// `exports.__esModule = true` or `module.exports.__esModule = true`.
    EsModuleMarker {
        /// What stands for the exports object in the target.
        object: Node,
        /// The right-hand side.
        right: Node,
    },
    /// A use of the exports object that makes the module opaque.
    Unsupported,
    /// Any other statement.
    Ordinary,
}

/// The form of the statement `member = …` that starts at `span_lo`, where `assign` is the whole
/// assignment.
pub open spec fn write_form(
    span_lo: u32,
    assign: AssignExpr,
    member: MemberExpr,
    unresolved_mark: Mark,
) -> StmtForm {
    if names_module_exports(member, unresolved_mark) {
        StmtForm::Unsupported
    } else if !names_exports_object(*member.obj, unresolved_mark) {
        StmtForm::Ordinary
    } else {
        match member.prop {
            MemberProp::Ident(name) => if name@ != "__esModule"@ {
                StmtForm::ExportWrite(
                    ExportWrite {
                        name: name@,
                        span_lo,
                        object: *member.obj,
                        right: *assign.right,
                        value: *assign.value,
                    },
                )
            } else if unparenthesized(*assign.right) matches Node::Lit(Lit::Bool(value)) && value {
                StmtForm::EsModuleMarker { object: *member.obj, right: *assign.right }
            } else {
                StmtForm::Unsupported
            },
            _ => StmtForm::Unsupported,
        }
    }
}

/// The form of the top-level statement `stmt`.
pub open spec fn stmt_form(stmt: Stmt, unresolved_mark: Mark) -> StmtForm {
    match stmt.kind {
        StmtKind::Expr(expr) => if without_parens(expr) is Sequence {
            StmtForm::Unsupported
        } else {
            match unparenthesized(expr) {
                Node::Assign(assign) => match *assign.left {
                    Node::Member(member) => if assign.op == AssignOp::Assign {
                        write_form(stmt.span_lo, assign, member, unresolved_mark)
                    } else {
                        StmtForm::Ordinary
                    },
                    _ => StmtForm::Ordinary,
                },
                _ => StmtForm::Ordinary,
            }
        },
        _ => StmtForm::Ordinary,
    }
}

/// Whether the statement `stmt` lets the exports object out.
pub open spec fn stmt_tainted(stmt: Stmt, unresolved_mark: Mark) -> bool {
    match stmt.kind {
        StmtKind::Expr(expr) => tainted(expr, false, unresolved_mark),
        StmtKind::Empty => false,
        StmtKind::Other(parts) => tainted(parts, false, unresolved_mark),
    }
}

/// Whether the top-level statement `stmt` alone makes the module opaque.
pub open spec fn offends(stmt: Stmt, unresolved_mark: Mark) -> bool {
    match stmt_form(stmt, unresolved_mark) {
        StmtForm::ExportWrite(write) => {
            ||| discards_taint(write.object, unresolved_mark)
            ||| tainted(write.right, false, unresolved_mark)
        },
        StmtForm::EsModuleMarker { object, right } => {
            ||| discards_taint(object, unresolved_mark)
            ||| tainted(right, false, unresolved_mark)
        },
        StmtForm::Unsupported => true,
        StmtForm::Ordinary => stmt_tainted(stmt, unresolved_mark),
    }
}

/// The export writes among the statements `body`, in source order.
pub open spec fn export_writes(body: Seq<Stmt>, unresolved_mark: Mark) -> Seq<ExportWrite>
    decreases body.len(),
{
    if body.len() == 0 {
        seq![]
    } else {
        let before = export_writes(body.drop_last(), unresolved_mark);
        match stmt_form(body.last(), unresolved_mark) {
            StmtForm::ExportWrite(write) => before.push(write),
            _ => before,
        }
    }
}

/// The names that the statements `body` write, in source order.
pub open spec fn export_names(body: Seq<Stmt>, unresolved_mark: Mark) -> Seq<Seq<char>> {
    export_writes(body, unresolved_mark).map_values(|write: ExportWrite| write.name)
}

/// Whether one of the statements `body` sets the `__esModule` marker.
pub open spec fn sets_es_module(body: Seq<Stmt>, unresolved_mark: Mark) -> bool {
    exists|i: int|
        0 <= i < body.len() && stmt_form(#[trigger] body[i], unresolved_mark) is EsModuleMarker
}

/// Whether evaluating `value` may have side effects, as swc sees it when it looks four levels deep,
/// outside strict mode, and does not take reading an unresolved name to be safe.
pub open spec fn impure(value: Expr, unresolved_mark: Mark) -> bool {
    side_effects(value, unresolved_mark.ctxt, false, false, 4)
}

/// Whether evaluating the operands of `expr` whose values a comma discards may have side effects.
pub open spec fn discards_effects(expr: Node, unresolved_mark: Mark) -> bool
    decreases expr,
{
    match expr {
        Node::Paren(inner) => discards_effects(*inner, unresolved_mark),
        Node::Sequence(sequence) => {
            ||| exists|k: int|
                0 <= k < sequence.values@.len() && impure(
                    #[trigger] sequence.values@[k],
                    unresolved_mark,
                )
            ||| discards_effects(*sequence.last, unresolved_mark)
        },
        _ => false,
    }
}

/// Whether evaluating `value` may have side effects.
fn may_be_impure(value: &Expr, unresolved_mark: Mark) -> (answer: bool)
    ensures
        answer == impure(*value, unresolved_mark),
{
    may_have_side_effects(value, unresolved_mark.ctxt, false, false, 4)
}

/// Whether evaluating the operands of `expr` whose values a comma discards may have side effects.
fn may_discard_effects(expr: &Node, unresolved_mark: Mark) -> (answer: bool)
    ensures
        answer == discards_effects(*expr, unresolved_mark),
    decreases expr,
{
    match expr {
        Node::Paren(inner) => may_discard_effects(inner, unresolved_mark),
        Node::Sequence(sequence) => {
            any_impure(&sequence.values, unresolved_mark) || may_discard_effects(
                &sequence.last,
                unresolved_mark,
            )
        },
        _ => false,
    }
}

/// Whether evaluating one of `values` may have side effects.
fn any_impure(values: &Vec<Expr>, unresolved_mark: Mark) -> (answer: bool)
    ensures
        answer == exists|k: int|
            0 <= k < values@.len() && impure(#[trigger] values@[k], unresolved_mark),
{
    let mut i: usize = 0;
    while i < values.len()
        invariant
            i <= values@.len(),
            forall|k: int| 0 <= k < i ==> !impure(#[trigger] values@[k], unresolved_mark),
        decreases values@.len() - i,
    {
        if may_be_impure(&values[i], unresolved_mark) {
            return true;
        }
        i += 1;
    }
    false
}

/// For each of the statements `body`, whether it is an export write that may have side effects: in
/// its value, or in what stands in front of a comma in its target.
pub open spec fn impure_writes(body: Seq<Stmt>, unresolved_mark: Mark) -> Seq<bool> {
    body.map_values(
        |stmt: Stmt|
            stmt_form(stmt, unresolved_mark) matches StmtForm::ExportWrite(write) && (impure(
                write.value,
                unresolved_mark,
            ) || discards_effects(write.object, unresolved_mark)),
    )
}

/// The export writes among the statements `body` that have no side effects. `side_effects` says of
/// each statement whether it may have some.
pub open spec fn droppable_writes(
    body: Seq<Stmt>,
    unresolved_mark: Mark,
    side_effects: Seq<bool>,
) -> Seq<DroppableView>
    decreases body.len(),
{
    if body.len() == 0 {
        seq![]
    } else {
        let before = droppable_writes(body.drop_last(), unresolved_mark, side_effects);
        match stmt_form(body.last(), unresolved_mark) {
            StmtForm::ExportWrite(write) if !side_effects[body.len() - 1] => before.push(
                DroppableView { name: write.name, span_lo: write.span_lo },
            ),
            _ => before,
        }
    }
}

/// Whether the statements `body` make the module opaque: one of them does alone, or two of them
/// write one name.
pub open spec fn opaque_body(body: Seq<Stmt>, unresolved_mark: Mark) -> bool {
    ||| exists|i: int| 0 <= i < body.len() && offends(#[trigger] body[i], unresolved_mark)
    ||| !export_names(body, unresolved_mark).no_duplicates()
}

/// Whether `item` is a module declaration that lets the exports object out.
pub open spec fn decl_tainted(item: ModuleItem, unresolved_mark: Mark) -> bool {
    item matches ModuleItem::ModuleDecl(parts) && tainted(parts, false, unresolved_mark)
}

/// Whether a module declaration of `program` lets the exports object out.
pub open spec fn decls_tainted(program: Program, unresolved_mark: Mark) -> bool {
    match program {
        Program::Module(items) => exists|k: int|
            0 <= k < items@.len() && decl_tainted(#[trigger] items@[k], unresolved_mark),
        Program::Script(_) => false,
    }
}

/// Whether `program` touches the exports object outside the recognized forms, or writes a name
/// twice.
pub open spec fn opaque(program: Program, unresolved_mark: Mark) -> bool {
    ||| opaque_body(statements(program), unresolved_mark)
    ||| decls_tainted(program, unresolved_mark)
}

/// The analysis of `program`. `side_effects` says of each top-level statement whether it may have
/// side effects beside the export that it writes.
pub open spec fn program_analysis(
    program: Program,
    unresolved_mark: Mark,
    side_effects: Seq<bool>,
) -> AnalysisView {
    let body = statements(program);
    if opaque(program, unresolved_mark) {
        AnalysisView { names: seq![], has_es_module: false, is_unsafe: true, droppable: seq![] }
    } else {
        AnalysisView {
            names: export_names(body, unresolved_mark),
            has_es_module: sets_es_module(body, unresolved_mark),
            is_unsafe: false,
            droppable: droppable_writes(body, unresolved_mark, side_effects),
        }
    }
}

/// The export writes of a prefix of a body are a prefix of the body's.
proof fn lemma_writes_of_prefix(body: Seq<Stmt>, n: int, unresolved_mark: Mark)
    requires
        0 <= n <= body.len(),
    ensures
        export_writes(body.take(n), unresolved_mark).len() <= export_writes(
            body,
            unresolved_mark,
        ).len(),
        export_writes(body.take(n), unresolved_mark) == export_writes(body, unresolved_mark).take(
            export_writes(body.take(n), unresolved_mark).len() as int,
        ),
    decreases body.len(),
{
    if n < body.len() {
        lemma_writes_of_prefix(body.drop_last(), n, unresolved_mark);
        assert(body.drop_last().take(n) =~= body.take(n));
    } else {
        assert(body.take(n) =~= body);
    }
}

/// A body is opaque if one of its prefixes is.
pub(crate) proof fn lemma_opaque_prefix(body: Seq<Stmt>, n: int, unresolved_mark: Mark)
    requires
        0 <= n <= body.len(),
        opaque_body(body.take(n), unresolved_mark),
    ensures
        opaque_body(body, unresolved_mark),
{
    let prefix = body.take(n);
    if exists|i: int| 0 <= i < prefix.len() && offends(#[trigger] prefix[i], unresolved_mark) {
        let i = choose|i: int|
            0 <= i < prefix.len() && offends(#[trigger] prefix[i], unresolved_mark);
        assert(offends(body[i], unresolved_mark));
    } else {
        lemma_writes_of_prefix(body, n, unresolved_mark);
        let some = export_names(prefix, unresolved_mark);
        let all = export_names(body, unresolved_mark);
        assert(some =~= all.take(some.len() as int));
        let (i, j) = choose|i: int, j: int|
            0 <= i < some.len() && 0 <= j < some.len() && i != j && some[i] == some[j];
        assert(all[i] == all[j]);
    }
}

/// What one more statement changes.
proof fn lemma_next_stmt(
    body: Seq<Stmt>,
    i: int,
    unresolved_mark: Mark,
    side_effects: Seq<bool>,
)
    requires
        0 <= i < body.len(),
    ensures
        opaque_body(body.take(i + 1), unresolved_mark) == (opaque_body(
            body.take(i),
            unresolved_mark,
        ) || offends(body[i], unresolved_mark) || (stmt_form(
            body[i],
            unresolved_mark,
        ) matches StmtForm::ExportWrite(write) && export_names(
            body.take(i),
            unresolved_mark,
        ).contains(write.name))),
        export_names(body.take(i + 1), unresolved_mark) == match stmt_form(
            body[i],
            unresolved_mark,
        ) {
            StmtForm::ExportWrite(write) => export_names(body.take(i), unresolved_mark).push(
                write.name,
            ),
            _ => export_names(body.take(i), unresolved_mark),
        },
        droppable_writes(body.take(i + 1), unresolved_mark, side_effects) == match stmt_form(
            body[i],
            unresolved_mark,
        ) {
            StmtForm::ExportWrite(write) if !side_effects[i] => droppable_writes(
                body.take(i),
                unresolved_mark,
                side_effects,
            ).push(DroppableView { name: write.name, span_lo: write.span_lo }),
            _ => droppable_writes(body.take(i), unresolved_mark, side_effects),
        },
        sets_es_module(body.take(i + 1), unresolved_mark) == (sets_es_module(
            body.take(i),
            unresolved_mark,
        ) || stmt_form(body[i], unresolved_mark) is EsModuleMarker),
{
    let before = body.take(i);
    let after = body.take(i + 1);
    assert(after.drop_last() =~= before);
    assert(forall|k: int| 0 <= k < i ==> after[k] == #[trigger] before[k]);
    assert(after[i] == body[i]);
    let names = export_names(before, unresolved_mark);
    match stmt_form(body[i], unresolved_mark) {
        StmtForm::ExportWrite(write) => {
            assert(export_names(after, unresolved_mark) =~= names.push(write.name));
            let more = names.push(write.name);
            if names.contains(write.name) {
                let k = choose|k: int| 0 <= k < names.len() && names[k] == write.name;
                assert(more[k] == more[names.len() as int]);
            } else if !names.no_duplicates() {
                let (k, l) = choose|k: int, l: int|
                    0 <= k < names.len() && 0 <= l < names.len() && k != l && names[k] == names[l];
                assert(more[k] == more[l]);
            }
        },
        _ => {},
    }
    if exists|k: int| 0 <= k < before.len() && offends(#[trigger] before[k], unresolved_mark) {
        let k = choose|k: int|
            0 <= k < before.len() && offends(#[trigger] before[k], unresolved_mark);
        assert(offends(after[k], unresolved_mark));
    }
    if sets_es_module(before, unresolved_mark) {
        let k = choose|k: int|
            0 <= k < before.len() && stmt_form(
                #[trigger] before[k],
                unresolved_mark,
            ) is EsModuleMarker;
        assert(stmt_form(after[k], unresolved_mark) is EsModuleMarker);
    }
}

/// What [`stmt_form`] says of a statement, with what the analysis needs of it.
enum Recognized<'a> {
    ExportWrite { name: &'a String, object: &'a Node, assign: &'a AssignExpr },
    EsModuleMarker { object: &'a Node, assign: &'a AssignExpr },
    Unsupported,
    Ordinary,
}

impl<'a> Recognized<'a> {
    /// The form of a statement that starts at `span_lo`.
    spec fn form(self, span_lo: u32) -> StmtForm {
        match self {
            Recognized::ExportWrite { name, object, assign } => StmtForm::ExportWrite(
                ExportWrite {
                    name: name@,
                    span_lo,
                    object: *object,
                    right: *assign.right,
                    value: *assign.value,
                },
            ),
            Recognized::EsModuleMarker { object, assign } => StmtForm::EsModuleMarker {
                object: *object,
                right: *assign.right,
            },
            Recognized::Unsupported => StmtForm::Unsupported,
            Recognized::Ordinary => StmtForm::Ordinary,
        }
    }
}

/// Tells which of the recognized forms the top-level statement `stmt` has.
fn recognize<'a>(stmt: &'a Stmt, unresolved_mark: Mark) -> (recognized: Recognized<'a>)
    ensures
        recognized.form(stmt.span_lo) == stmt_form(*stmt, unresolved_mark),
{
    let expr = match &stmt.kind {
        StmtKind::Expr(expr) => expr,
        _ => return Recognized::Ordinary,
    };
    // A comma expression (`exports.a = 1, exports.b = 2`) holds multiple writes; `unparen` sees
    // only the last operand, so bail.
    if let Node::Sequence(_) = strip_parens(expr) {
        return Recognized::Unsupported;
    }
    let assign = match unparen(expr) {
        Node::Assign(assign) => assign,
        _ => return Recognized::Ordinary,
    };
    let member = match &*assign.left {
        Node::Member(member) => member,
        _ => return Recognized::Ordinary,
    };
    match assign.op {
        AssignOp::Assign => {},
        AssignOp::Compound => return Recognized::Ordinary,
    }
    if is_module_dot_exports(member, unresolved_mark) {
        // `module.exports = …` reassignment: not supported. Treat as opaque.
        return Recognized::Unsupported;
    }
    if !is_exports_object(&member.obj, unresolved_mark) {
        // A write to some other object, e.g. `foo.bar = 1`.
        return Recognized::Ordinary;
    }
    let name = match &member.prop {
        MemberProp::Ident(name) => name,
        // Computed / non-identifier export key, e.g. `exports[key] = …`.
        _ => return Recognized::Unsupported,
    };
    if *name != "__esModule".to_owned() {
        return Recognized::ExportWrite { name, object: &member.obj, assign };
    }
    match unparen(&assign.right) {
        Node::Lit(Lit::Bool(value)) => if *value {
            Recognized::EsModuleMarker { object: &member.obj, assign }
        } else {
            Recognized::Unsupported
        },
        // `exports.__esModule = 0` / `= someVar`.
        _ => Recognized::Unsupported,
    }
}

/// [`analyze_cjs_exports`], where `side_effects` says of each top-level statement whether it may
/// have side effects beside the export that it writes. What it says of a statement that is no export
/// write is of no account.
pub fn analyze_given_side_effects(
    program: &Program,
    unresolved_mark: Mark,
    side_effects: &Vec<bool>,
) -> (analysis: CommonJsExportsAnalysis)
    requires
        side_effects@.len() == statements(*program).len(),
    ensures
        analysis@ == program_analysis(*program, unresolved_mark, side_effects@),
{
    let ghost body = statements(*program);
    let mut analysis = CommonJsExportsAnalysis::default();
    let mut visitor = ExportsTaintVisitor { unresolved_mark, in_function: false, tainted: false };
    let stmts = program.statements();
    let mut i: usize = 0;
    assert(body.take(body.len() as int) =~= body);
    while i < stmts.len()
        invariant_except_break
            !analysis.is_unsafe,
            analysis.names@ == export_names(body.take(i as int), unresolved_mark),
            analysis.has_es_module == sets_es_module(body.take(i as int), unresolved_mark),
            droppable_views(analysis.droppable@) == droppable_writes(
                body.take(i as int),
                unresolved_mark,
                side_effects@,
            ),
            visitor.tainted == opaque_body(body.take(i as int), unresolved_mark),
        invariant
            i <= stmts@.len(),
            body == statements(*program),
            body.take(body.len() as int) == body,
            stmts@.len() == body.len(),
            side_effects@.len() == body.len(),
            forall|k: int| 0 <= k < stmts@.len() ==> *(#[trigger] stmts@[k]) == body[k],
            visitor.unresolved_mark == unresolved_mark,
            !visitor.in_function,
        ensures
            (analysis.is_unsafe || visitor.tainted) == opaque_body(body, unresolved_mark),
            !analysis.is_unsafe && !visitor.tainted ==> {
                &&& analysis.names@ == export_names(body, unresolved_mark)
                &&& analysis.has_es_module == sets_es_module(body, unresolved_mark)
                &&& droppable_views(analysis.droppable@) == droppable_writes(
                    body,
                    unresolved_mark,
                    side_effects@,
                )
            },
            visitor.unresolved_mark == unresolved_mark,
            !visitor.in_function,
        decreases stmts@.len() - i,
    {
        if visitor.tainted {
            proof {
                lemma_opaque_prefix(body, i as int, unresolved_mark);
            }
            break ;
        }
        let stmt = stmts[i];
        proof {
            lemma_next_stmt(body, i as int, unresolved_mark, side_effects@);
        }
        match recognize(stmt, unresolved_mark) {
            Recognized::Ordinary => visitor.visit_stmt(stmt),
            Recognized::Unsupported => {
                analysis.is_unsafe = true;
                proof {
                    lemma_opaque_prefix(body, i + 1, unresolved_mark);
                }
                break ;
            },
            // The `__esModule` interop marker. It is flagged for the code-gen's interop guard, but
            // kept out of `names` and `droppable`: it is read by ESM interop at runtime, never
            // imported by name, so it must not be treated as a droppable export.
            Recognized::EsModuleMarker { object, assign } => {
                analysis.has_es_module = true;
                visitor.visit_discarded(object);
                visitor.visit_node(&assign.right);
            },
            Recognized::ExportWrite { name, object, assign } => {
                // A second top-level write to the same name is ambiguous to drop: bail.
                if !analysis.names.insert(name.clone()) {
                    analysis.is_unsafe = true;
                    proof {
                        lemma_opaque_prefix(body, i + 1, unresolved_mark);
                    }
                    break ;
                }
                // The right-hand side may still leak the exports object
                // (`exports.a = [exports]`), and so may what stands in front of a comma in the
                // target; the target itself is the recognized form.
                visitor.visit_discarded(object);
                visitor.visit_node(&assign.right);
                // Only side-effect-free writes are droppable: removing the statement removes the
                // evaluation of its right-hand side and of what stands in front of a comma in its
                // target, so an impure one must be kept.
                let ghost before = analysis.droppable@;
                if !side_effects[i] {
                    let export = DroppableExport { name: name.clone(), span_lo: stmt.span_lo };
                    analysis.droppable.push(export);
                    assert(droppable_views(analysis.droppable@) =~= droppable_views(before).push(
                        export@,
                    ));
                }
            },
        }
        i += 1;
    }
    // A module declaration is no export write; whatever it does to the exports object is opaque.
    visitor.visit_module_decls(program);
    if analysis.is_unsafe || visitor.tainted {
        analysis.is_unsafe = true;
        analysis.names = NameSet::new();
        analysis.droppable = Vec::new();
        analysis.has_es_module = false;
    }
    assert(droppable_views(Seq::<DroppableExport>::empty()) =~= seq![]);
    analysis
}

/// Recognized safe forms, as top-level expression statements only:
/// - `exports.NAME = …` / `module.exports.NAME = …` with a plain identifier name
/// - the `__esModule` interop marker (`exports.__esModule = true` / `module.exports.__esModule =
///   true`)
///
/// Anything else touching `exports` / `module` (aliasing, escapes, computed keys,
/// `module.exports = …` reassignment, top-level `this`, or an export write in any other position:
/// nested in a function, behind `if`, inside another expression, or in a module declaration) sets
/// `is_unsafe`.
pub fn analyze_cjs_exports(program: &Program, unresolved_mark: Mark) -> (analysis:
    CommonJsExportsAnalysis)
    ensures
        analysis@ == program_analysis(
            *program,
            unresolved_mark,
            impure_writes(statements(*program), unresolved_mark),
        ),
{
    let ghost body = statements(*program);
    let stmts = program.statements();
    let mut side_effects: Vec<bool> = Vec::new();
    let mut i: usize = 0;
    while i < stmts.len()
        invariant
            i <= stmts@.len(),
            stmts@.len() == body.len(),
            forall|k: int| 0 <= k < stmts@.len() ==> *(#[trigger] stmts@[k]) == body[k],
            side_effects@.len() == i,
            forall|k: int|
                0 <= k < i ==> #[trigger] side_effects@[k] == impure_writes(
                    body,
                    unresolved_mark,
                )[k],
        decreases stmts@.len() - i,
    {
        let effects = match recognize(stmts[i], unresolved_mark) {
            Recognized::ExportWrite { object, assign, .. } => {
                may_be_impure(&assign.value, unresolved_mark) || may_discard_effects(
                    object,
                    unresolved_mark,
                )
            },
            _ => false,
        };
        side_effects.push(effects);
        i += 1;
    }
    assert(side_effects@ =~= impure_writes(body, unresolved_mark));
    analyze_given_side_effects(program, unresolved_mark, &side_effects)
}

} // verus!
