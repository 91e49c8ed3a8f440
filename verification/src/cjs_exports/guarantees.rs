//! What the export analysis and the code-gen guarantee, told from the syntax itself.

use crate::analyzer::{texts, unparenthesized};
use crate::cjs_exports::code_gen::{
    drop_views, drops_of, is_blanked, unused_positions, CjsExportDrop, CjsExportsDropCodeGen,
    CodeGen, ModuleExportUsageInfo,
};
use crate::cjs_exports::properties::{
    distinct_positions, dropped_positions, exactly_the_unobservable_writes_go,
    lemma_droppable_comes_from_stmt, second_write_is_a_duplicate, unobservable, written_name,
};
use crate::cjs_exports::recognize::{
    decl_tainted, decls_tainted, discards_effects, discards_taint, droppable_views,
    droppable_writes, export_names, impure_writes, offends, opaque_body, program_analysis,
    stmt_form, tainted, taints, without_parens, AnalysisView, CommonJsExportsAnalysis,
    DroppableExport, DroppableView, StmtForm,
};
use crate::outside::side_effects;
use crate::syntax::{
    children, lemma_child_is_smaller, statements, Ident, Lit, Mark, MemberExpr, MemberProp,
    ModuleItem, Node, Program, Stmt, StmtKind,
};
use crate::syntax_properties::{
    every_field_is_visited, is_chain, lemma_longer_chain, lemma_rest_of_chain,
    only_parens_and_commas_are_looked_through,
};
use vstd::prelude::*;

verus! {

/// An identifier taints exactly if it is the `exports` or the `module` that nothing declares, inside
/// a function as well as at the top level.
pub proof fn real_exports_and_module_taint_everywhere(
    ident: Ident,
    in_function: bool,
    unresolved_mark: Mark,
)
    ensures
        tainted(Node::Ident(ident), in_function, unresolved_mark) == (ident.outer
            == unresolved_mark.number && (ident.sym@ == "exports"@ || ident.sym@ == "module"@)),
{
    assert(children(Node::Ident(ident)) =~= seq![]);
}

/// Whether the node at the end of `chain` is the exports object: an identifier or a shorthand key of
/// a pattern that is the undeclared `exports` or `module`, or a `this` that no function around
/// rebinds. `in_function` says whether a function stands around the whole chain.
pub open spec fn ends_at_exports(
    chain: Seq<Node>,
    in_function: bool,
    unresolved_mark: Mark,
) -> bool {
    match chain.last() {
        Node::Ident(ident) => ident.outer == unresolved_mark.number && (ident.sym@ == "exports"@
            || ident.sym@ == "module"@),
        Node::AssignPatProp(prop) => prop.key.outer == unresolved_mark.number && (prop.key.sym@
            == "exports"@ || prop.key.sym@ == "module"@),
        Node::This => {
            &&& !in_function
            &&& forall|k: int| 0 <= k < chain.len() - 1 ==> !(#[trigger] chain[k] is Function)
        },
        _ => false,
    }
}

/// Whether the exports object stands somewhere in `tree`, at whatever depth.
pub open spec fn mentions_exports(tree: Node, in_function: bool, unresolved_mark: Mark) -> bool {
    exists|chain: Seq<Node>| #[trigger]
        is_chain(chain) && chain[0] == tree && ends_at_exports(chain, in_function, unresolved_mark)
}

/// A tree is tainted exactly if the exports object stands somewhere in it, at whatever depth and in
/// whatever syntax.
pub proof fn taint_is_a_mention(tree: Node, in_function: bool, unresolved_mark: Mark)
    ensures
        tainted(tree, in_function, unresolved_mark) == mentions_exports(
            tree,
            in_function,
            unresolved_mark,
        ),
    decreases tree,
{
    if tainted(tree, in_function, unresolved_mark) {
        let chain = lemma_taint_has_chain(tree, in_function, unresolved_mark);
        assert(is_chain(chain));
    }
    if mentions_exports(tree, in_function, unresolved_mark) {
        let chain = choose|chain: Seq<Node>| #[trigger]
            is_chain(chain) && chain[0] == tree && ends_at_exports(
                chain,
                in_function,
                unresolved_mark,
            );
        lemma_chain_taints(chain, in_function, unresolved_mark);
    }
}

proof fn lemma_taint_has_chain(tree: Node, in_function: bool, unresolved_mark: Mark) -> (chain: Seq<
    Node,
>)
    requires
        tainted(tree, in_function, unresolved_mark),
    ensures
        is_chain(chain),
        chain[0] == tree,
        ends_at_exports(chain, in_function, unresolved_mark),
    decreases tree,
{
    if taints(tree, in_function, unresolved_mark) {
        seq![tree]
    } else {
        let inside = in_function || tree is Function;
        let k = choose|k: int|
            0 <= k < children(tree).len() && tainted(
                #[trigger] children(tree)[k],
                inside,
                unresolved_mark,
            );
        let child = children(tree)[k];
        lemma_child_is_smaller(tree, k);
        let rest = lemma_taint_has_chain(child, inside, unresolved_mark);
        assert(children(tree).contains(child));
        every_field_is_visited(tree, child);
        lemma_longer_chain(tree, rest);
        let chain = seq![tree] + rest;
        if rest.last() is This {
            assert forall|j: int| 0 <= j < chain.len() - 1 implies !(
            #[trigger] chain[j] is Function) by {
                if j > 0 {
                    assert(chain[j] == rest[j - 1]);
                }
            }
        }
        chain
    }
}

proof fn lemma_chain_taints(chain: Seq<Node>, in_function: bool, unresolved_mark: Mark)
    requires
        is_chain(chain),
        ends_at_exports(chain, in_function, unresolved_mark),
    ensures
        tainted(chain[0], in_function, unresolved_mark),
    decreases chain.len(),
{
    if chain.len() > 1 {
        let tree = chain[0];
        let rest = chain.drop_first();
        let inside = in_function || tree is Function;
        lemma_rest_of_chain(chain);
        if chain.last() is This {
            assert(!(chain[0] is Function));
            assert forall|j: int| 0 <= j < rest.len() - 1 implies !(
            #[trigger] rest[j] is Function) by {
                assert(!(chain[j + 1] is Function));
            }
        }
        lemma_chain_taints(rest, inside, unresolved_mark);
        every_field_is_visited(tree, chain[1]);
        let k = choose|k: int| 0 <= k < children(tree).len() && children(tree)[k] == chain[1];
        assert(tainted(children(tree)[k], inside, unresolved_mark));
    }
}

/// Looking through parentheses ends at an expression that is none, and leaves all else alone.
pub proof fn only_parens_are_stripped(expr: Node)
    ensures
        !(without_parens(expr) is Paren),
        match expr {
            Node::Paren(inner) => without_parens(expr) == without_parens(*inner),
            _ => without_parens(expr) == expr,
        },
    decreases expr,
{
    if let Node::Paren(inner) = expr {
        only_parens_are_stripped(*inner);
    }
}

/// What commas discard on the way to the value of an expression: all operands but the last of each
/// comma expression, be it in parentheses or the last operand of another. One that mentions the
/// exports object lets it out, and one with side effects has them.
pub proof fn all_discarded_operands_count(expr: Node, unresolved_mark: Mark)
    ensures
        match expr {
            Node::Paren(inner) => {
                &&& discards_taint(expr, unresolved_mark) == discards_taint(
                    *inner,
                    unresolved_mark,
                )
                &&& discards_effects(expr, unresolved_mark) == discards_effects(
                    *inner,
                    unresolved_mark,
                )
            },
            Node::Sequence(sequence) => {
                &&& forall|k: int|
                    0 <= k < sequence.init@.len() && mentions_exports(
                        #[trigger] sequence.init@[k],
                        false,
                        unresolved_mark,
                    ) ==> discards_taint(expr, unresolved_mark)
                &&& discards_taint(*sequence.last, unresolved_mark) ==> discards_taint(
                    expr,
                    unresolved_mark,
                )
                &&& discards_taint(expr, unresolved_mark) && !discards_taint(
                    *sequence.last,
                    unresolved_mark,
                ) ==> exists|k: int|
                    0 <= k < sequence.init@.len() && mentions_exports(
                        #[trigger] sequence.init@[k],
                        false,
                        unresolved_mark,
                    )
                &&& forall|k: int|
                    0 <= k < sequence.values@.len() && side_effects(
                        #[trigger] sequence.values@[k],
                        unresolved_mark.ctxt,
                        false,
                        false,
                        4,
                    ) ==> discards_effects(expr, unresolved_mark)
                &&& discards_effects(*sequence.last, unresolved_mark) ==> discards_effects(
                    expr,
                    unresolved_mark,
                )
                &&& discards_effects(expr, unresolved_mark) && !discards_effects(
                    *sequence.last,
                    unresolved_mark,
                ) ==> exists|k: int|
                    0 <= k < sequence.values@.len() && side_effects(
                        #[trigger] sequence.values@[k],
                        unresolved_mark.ctxt,
                        false,
                        false,
                        4,
                    )
            },
            _ => !discards_taint(expr, unresolved_mark) && !discards_effects(expr, unresolved_mark),
        },
{
    if let Node::Sequence(sequence) = expr {
        assert forall|k: int| 0 <= k < sequence.init@.len() implies tainted(
            #[trigger] sequence.init@[k],
            false,
            unresolved_mark,
        ) == mentions_exports(sequence.init@[k], false, unresolved_mark) by {
            taint_is_a_mention(sequence.init@[k], false, unresolved_mark);
        }
    }
}

/// Whether `expr`, seen through parentheses and commas, is the undeclared `exports` or the member
/// `exports` of the undeclared `module`.
pub open spec fn is_real_exports(expr: Node, unresolved_mark: Mark) -> bool {
    match unparenthesized(expr) {
        Node::Ident(object) => object.sym@ == "exports"@ && object.outer == unresolved_mark.number,
        Node::Member(inner) => is_real_module_exports(inner, unresolved_mark),
        _ => false,
    }
}

/// Whether `member` is spelled `module.exports`, with the undeclared `module`.
pub open spec fn is_real_module_exports(member: MemberExpr, unresolved_mark: Mark) -> bool {
    &&& *member.obj is Ident
    &&& (*member.obj)->Ident_0.sym@ == "module"@
    &&& (*member.obj)->Ident_0.outer == unresolved_mark.number
    &&& member.prop is Ident
    &&& member.prop->Ident_0@ == "exports"@
}

/// What a top-level statement is follows from how it is spelled. In parentheses or not, a plain
/// assignment to a member of the exports object with a dot and a name is an export write, or, for
/// `__esModule` and `true`, the marker. A comma expression, `module.exports = …`, any other key of
/// the exports object and any other value of the marker make the module opaque. All else is
/// ordinary.
pub proof fn forms_are_spelled_out(stmt: Stmt, unresolved_mark: Mark)
    ensures
        match stmt.kind {
            StmtKind::Expr(expr) => match without_parens(expr) {
                Node::Sequence(_) => stmt_form(stmt, unresolved_mark) is Unsupported,
                Node::Assign(assign) => match *assign.left {
                    Node::Member(member) => if assign.op is Compound {
                        stmt_form(stmt, unresolved_mark) is Ordinary
                    } else if is_real_module_exports(member, unresolved_mark) {
                        stmt_form(stmt, unresolved_mark) is Unsupported
                    } else if !is_real_exports(*member.obj, unresolved_mark) {
                        stmt_form(stmt, unresolved_mark) is Ordinary
                    } else {
                        match member.prop {
                            MemberProp::Ident(name) => if name@ == "__esModule"@ {
                                if unparenthesized(*assign.right) == Node::Lit(Lit::Bool(true)) {
                                    stmt_form(stmt, unresolved_mark) == (StmtForm::EsModuleMarker {
                                        object: *member.obj,
                                        right: *assign.right,
                                    })
                                } else {
                                    stmt_form(stmt, unresolved_mark) is Unsupported
                                }
                            } else {
                                &&& stmt_form(stmt, unresolved_mark) is ExportWrite
                                &&& stmt_form(stmt, unresolved_mark)->ExportWrite_0.name == name@
                                &&& stmt_form(stmt, unresolved_mark)->ExportWrite_0.span_lo
                                    == stmt.span_lo
                                &&& stmt_form(stmt, unresolved_mark)->ExportWrite_0.object
                                    == *member.obj
                                &&& stmt_form(stmt, unresolved_mark)->ExportWrite_0.right
                                    == *assign.right
                                &&& stmt_form(stmt, unresolved_mark)->ExportWrite_0.value
                                    == *assign.value
                            },
                            _ => stmt_form(stmt, unresolved_mark) is Unsupported,
                        }
                    },
                    _ => stmt_form(stmt, unresolved_mark) is Ordinary,
                },
                _ => stmt_form(stmt, unresolved_mark) is Ordinary,
            },
            _ => stmt_form(stmt, unresolved_mark) is Ordinary,
        },
{
    if let StmtKind::Expr(expr) = stmt.kind {
        only_parens_are_stripped(expr);
        if !(without_parens(expr) is Sequence) {
            lemma_no_comma(expr);
        }
    }
}

/// Without a comma, looking through parentheses is all that is done.
proof fn lemma_no_comma(expr: Node)
    requires
        !(without_parens(expr) is Sequence),
    ensures
        unparenthesized(expr) == without_parens(expr),
    decreases expr,
{
    if let Node::Paren(inner) = expr {
        lemma_no_comma(*inner);
    }
}

/// Whether the top-level statement `stmt` touches the exports object outside what it may: anywhere
/// in an ordinary statement, in the value of a write or of the marker, or in front of a comma in
/// their targets.
pub open spec fn touches_exports(stmt: Stmt, unresolved_mark: Mark) -> bool {
    match stmt_form(stmt, unresolved_mark) {
        StmtForm::ExportWrite(write) => mentions_exports(write.right, false, unresolved_mark)
            || discards_taint(write.object, unresolved_mark),
        StmtForm::EsModuleMarker { object, right } => mentions_exports(
            right,
            false,
            unresolved_mark,
        ) || discards_taint(object, unresolved_mark),
        StmtForm::Unsupported => true,
        StmtForm::Ordinary => match stmt.kind {
            StmtKind::Expr(tree) | StmtKind::Other(tree) => mentions_exports(
                tree,
                false,
                unresolved_mark,
            ),
            StmtKind::Empty => false,
        },
    }
}

/// Whether a module declaration of `program` mentions the exports object.
pub open spec fn declaration_mentions_exports(program: Program, unresolved_mark: Mark) -> bool {
    program matches Program::Module(items) && exists|k: int|
        0 <= k < items@.len() && (#[trigger] items@[k] matches ModuleItem::ModuleDecl(tree)
            && mentions_exports(tree, false, unresolved_mark))
}

/// A module is unsafe exactly if a statement or a module declaration touches the exports object
/// outside the recognized forms, or two statements write one name.
pub proof fn unsafe_exactly_if_touched(
    program: Program,
    unresolved_mark: Mark,
    side_effects: Seq<bool>,
)
    ensures
        program_analysis(program, unresolved_mark, side_effects).is_unsafe == {
            ||| exists|i: int|
                0 <= i < statements(program).len() && touches_exports(
                    #[trigger] statements(program)[i],
                    unresolved_mark,
                )
            ||| exists|i: int, j: int|
                0 <= i < j < statements(program).len() && stmt_form(
                    #[trigger] statements(program)[i],
                    unresolved_mark,
                ) is ExportWrite && stmt_form(
                    #[trigger] statements(program)[j],
                    unresolved_mark,
                ) is ExportWrite && stmt_form(
                    statements(program)[i],
                    unresolved_mark,
                )->ExportWrite_0.name == stmt_form(
                    statements(program)[j],
                    unresolved_mark,
                )->ExportWrite_0.name
            ||| declaration_mentions_exports(program, unresolved_mark)
        },
{
    let body = statements(program);
    assert forall|i: int| 0 <= i < body.len() implies offends(#[trigger] body[i], unresolved_mark)
        == touches_exports(body[i], unresolved_mark) by {
        match stmt_form(body[i], unresolved_mark) {
            StmtForm::ExportWrite(write) => {
                taint_is_a_mention(write.right, false, unresolved_mark);
            },
            StmtForm::EsModuleMarker { right, .. } => {
                taint_is_a_mention(right, false, unresolved_mark);
            },
            _ => match body[i].kind {
                StmtKind::Expr(tree) | StmtKind::Other(tree) => {
                    taint_is_a_mention(tree, false, unresolved_mark);
                },
                StmtKind::Empty => {},
            },
        }
    }
    if let Program::Module(items) = program {
        assert forall|k: int|
            0 <= k < items@.len() && #[trigger] items@[k] is ModuleDecl implies tainted(
            items@[k]->ModuleDecl_0,
            false,
            unresolved_mark,
        ) == mentions_exports(items@[k]->ModuleDecl_0, false, unresolved_mark) by {
            taint_is_a_mention(items@[k]->ModuleDecl_0, false, unresolved_mark);
        }
        if decls_tainted(program, unresolved_mark) {
            let k = choose|k: int|
                0 <= k < items@.len() && decl_tainted(
                    #[trigger] items@[k],
                    unresolved_mark,
                );
            assert(items@[k] is ModuleDecl);
        }
        if declaration_mentions_exports(program, unresolved_mark) {
            let k = choose|k: int|
                0 <= k < items@.len() && (#[trigger] items@[k] matches ModuleItem::ModuleDecl(tree)
                    && mentions_exports(tree, false, unresolved_mark));
            assert(decl_tainted(items@[k], unresolved_mark));
        }
    }
    second_write_is_a_duplicate(body, unresolved_mark);
    let clash = exists|i: int, j: int|
        0 <= i < j < body.len() && stmt_form(#[trigger] body[i], unresolved_mark) is ExportWrite
            && stmt_form(#[trigger] body[j], unresolved_mark) is ExportWrite && stmt_form(
            body[i],
            unresolved_mark,
        )->ExportWrite_0.name == stmt_form(body[j], unresolved_mark)->ExportWrite_0.name;
    assert(clash == !export_names(body, unresolved_mark).no_duplicates()) by {
        if !export_names(body, unresolved_mark).no_duplicates() {
            let (i, j) = choose|i: int, j: int|
                0 <= i < j < body.len() && written_name(#[trigger] body[i], unresolved_mark) is Some
                    && written_name(body[i], unresolved_mark) == written_name(
                    #[trigger] body[j],
                    unresolved_mark,
                );
            assert(stmt_form(body[i], unresolved_mark) is ExportWrite);
            assert(stmt_form(body[j], unresolved_mark) is ExportWrite);
        }
        if clash {
            let (i, j) = choose|i: int, j: int|
                0 <= i < j < body.len() && stmt_form(
                    #[trigger] body[i],
                    unresolved_mark,
                ) is ExportWrite && stmt_form(#[trigger] body[j], unresolved_mark) is ExportWrite
                    && stmt_form(body[i], unresolved_mark)->ExportWrite_0.name == stmt_form(
                    body[j],
                    unresolved_mark,
                )->ExportWrite_0.name;
            assert(written_name(body[i], unresolved_mark) is Some);
            assert(written_name(body[i], unresolved_mark) == written_name(
                body[j],
                unresolved_mark,
            ));
        }
    }
    if opaque_body(body, unresolved_mark) && export_names(body, unresolved_mark).no_duplicates() {
        let i = choose|i: int| 0 <= i < body.len() && offends(#[trigger] body[i], unresolved_mark);
        assert(touches_exports(body[i], unresolved_mark));
    }
    if exists|i: int| 0 <= i < body.len() && touches_exports(#[trigger] body[i], unresolved_mark) {
        let i = choose|i: int|
            0 <= i < body.len() && touches_exports(#[trigger] body[i], unresolved_mark);
        assert(offends(body[i], unresolved_mark));
    }
}

/// A module that is safe has as its names those that its export writes write, all of them, in their
/// order; and it has the marker exactly if a statement sets it.
pub proof fn names_are_those_written(
    program: Program,
    unresolved_mark: Mark,
    side_effects: Seq<bool>,
)
    requires
        !program_analysis(program, unresolved_mark, side_effects).is_unsafe,
    ensures
        program_analysis(program, unresolved_mark, side_effects).names == statements(
            program,
        ).filter(|stmt: Stmt| stmt_form(stmt, unresolved_mark) is ExportWrite).map_values(
            |stmt: Stmt| stmt_form(stmt, unresolved_mark)->ExportWrite_0.name,
        ),
        program_analysis(program, unresolved_mark, side_effects).has_es_module == exists|i: int|
            0 <= i < statements(program).len() && stmt_form(
                #[trigger] statements(program)[i],
                unresolved_mark,
            ) is EsModuleMarker,
{
    lemma_names_filtered(statements(program), unresolved_mark);
}

proof fn lemma_names_filtered(body: Seq<Stmt>, unresolved_mark: Mark)
    ensures
        export_names(body, unresolved_mark) == body.filter(
            |stmt: Stmt| stmt_form(stmt, unresolved_mark) is ExportWrite,
        ).map_values(|stmt: Stmt| stmt_form(stmt, unresolved_mark)->ExportWrite_0.name),
    decreases body.len(),
{
    reveal(Seq::filter);
    if body.len() > 0 {
        let rest = body.drop_last();
        lemma_names_filtered(rest, unresolved_mark);
        let before = export_names(rest, unresolved_mark);
        match stmt_form(body.last(), unresolved_mark) {
            StmtForm::ExportWrite(write) => {
                assert(export_names(body, unresolved_mark) =~= before.push(write.name));
            },
            _ => {
                assert(export_names(body, unresolved_mark) =~= before);
            },
        }
    }
    assert(export_names(body, unresolved_mark) =~= body.filter(
        |stmt: Stmt| stmt_form(stmt, unresolved_mark) is ExportWrite,
    ).map_values(|stmt: Stmt| stmt_form(stmt, unresolved_mark)->ExportWrite_0.name));
}

/// Statements, each with what is said of its side effects.
pub open spec fn with_effects(body: Seq<Stmt>, side_effects: Seq<bool>) -> Seq<(Stmt, bool)> {
    Seq::new(body.len(), |i: int| (body[i], side_effects[i]))
}

/// What may be dropped from a safe module are the export writes without side effects, all of them,
/// in their order, each by its name and its statement's position.
pub proof fn droppable_are_the_pure_writes(
    program: Program,
    unresolved_mark: Mark,
    side_effects: Seq<bool>,
)
    requires
        !program_analysis(program, unresolved_mark, side_effects).is_unsafe,
    ensures
        program_analysis(program, unresolved_mark, side_effects).droppable == with_effects(
            statements(program),
            side_effects,
        ).filter(
            |stmt: (Stmt, bool)| stmt_form(stmt.0, unresolved_mark) is ExportWrite && !stmt.1,
        ).map_values(
            |stmt: (Stmt, bool)|
                DroppableView {
                    name: stmt_form(stmt.0, unresolved_mark)->ExportWrite_0.name,
                    span_lo: stmt.0.span_lo,
                },
        ),
{
    lemma_droppable_filtered(statements(program), unresolved_mark, side_effects);
}

proof fn lemma_droppable_filtered(
    body: Seq<Stmt>,
    unresolved_mark: Mark,
    side_effects: Seq<bool>,
)
    ensures
        droppable_writes(body, unresolved_mark, side_effects) == with_effects(
            body,
            side_effects,
        ).filter(
            |stmt: (Stmt, bool)| stmt_form(stmt.0, unresolved_mark) is ExportWrite && !stmt.1,
        ).map_values(
            |stmt: (Stmt, bool)|
                DroppableView {
                    name: stmt_form(stmt.0, unresolved_mark)->ExportWrite_0.name,
                    span_lo: stmt.0.span_lo,
                },
        ),
    decreases body.len(),
{
    reveal(Seq::filter);
    if body.len() > 0 {
        let rest = body.drop_last();
        lemma_droppable_filtered(rest, unresolved_mark, side_effects);
        assert(with_effects(body, side_effects).drop_last() =~= with_effects(rest, side_effects));
        forms_are_spelled_out(body.last(), unresolved_mark);
    }
    assert(droppable_writes(body, unresolved_mark, side_effects) =~= with_effects(
        body,
        side_effects,
    ).filter(
        |stmt: (Stmt, bool)| stmt_form(stmt.0, unresolved_mark) is ExportWrite && !stmt.1,
    ).map_values(
        |stmt: (Stmt, bool)|
            DroppableView {
                name: stmt_form(stmt.0, unresolved_mark)->ExportWrite_0.name,
                span_lo: stmt.0.span_lo,
            },
    ));
}

/// An export write has side effects exactly if swc finds some in its value or in an operand in front
/// of a comma in its target, be the target `exports.NAME` or `module.exports.NAME`. No other
/// statement counts.
pub proof fn writes_are_as_impure_as_their_parts(body: Seq<Stmt>, unresolved_mark: Mark, i: int)
    requires
        0 <= i < body.len(),
    ensures
        impure_writes(body, unresolved_mark).len() == body.len(),
        impure_writes(body, unresolved_mark)[i] == {
            &&& stmt_form(body[i], unresolved_mark) is ExportWrite
            &&& {
                ||| side_effects(
                    stmt_form(body[i], unresolved_mark)->ExportWrite_0.value,
                    unresolved_mark.ctxt,
                    false,
                    false,
                    4,
                )
                ||| discards_effects(
                    stmt_form(body[i], unresolved_mark)->ExportWrite_0.object,
                    unresolved_mark,
                )
            }
        },
{
}

/// Whether the statement `stmt` is an assignment to the member `name` of the exports object.
pub open spec fn assigns_export(stmt: Stmt, name: Seq<char>, unresolved_mark: Mark) -> bool {
    &&& stmt.kind matches StmtKind::Expr(expr)
    &&& without_parens(expr) matches Node::Assign(assign)
    &&& assign.op is Assign
    &&& *assign.left matches Node::Member(member)
    &&& is_real_exports(*member.obj, unresolved_mark)
    &&& member.prop matches MemberProp::Ident(written)
    &&& written@ == name
    &&& name != "__esModule"@
}

/// The right-hand side of the assignment that `stmt` is.
pub open spec fn assigned_value(stmt: Stmt) -> swc_core::ecma::ast::Expr {
    *without_parens(stmt.kind->Expr_0)->Assign_0.value
}

/// An assignment to a member of the exports object is an export write of that name and value.
pub proof fn lemma_assignment_is_write(stmt: Stmt, name: Seq<char>, unresolved_mark: Mark)
    requires
        assigns_export(stmt, name, unresolved_mark),
    ensures
        stmt_form(stmt, unresolved_mark) is ExportWrite,
        stmt_form(stmt, unresolved_mark)->ExportWrite_0.name == name,
        stmt_form(stmt, unresolved_mark)->ExportWrite_0.value == assigned_value(stmt),
{
    forms_are_spelled_out(stmt, unresolved_mark);
    let assign = without_parens(stmt.kind->Expr_0)->Assign_0;
    let member = (*assign.left)->Member_0;
    if is_real_module_exports(member, unresolved_mark) {
        let object = (*member.obj)->Ident_0;
        only_parens_and_commas_are_looked_through(*member.obj);
        reveal_strlit("module");
        reveal_strlit("exports");
        assert("module"@.len() != "exports"@.len());
    }
}

/// Only what has no side effect is droppable: where swc finds a side effect in the right-hand side
/// of a write, be its target `exports.NAME` or `module.exports.NAME`, the name is not droppable.
pub proof fn impure_values_are_kept(program: Program, unresolved_mark: Mark, i: int, name: Seq<char>)
    requires
        0 <= i < statements(program).len(),
        assigns_export(statements(program)[i], name, unresolved_mark),
        side_effects(
            assigned_value(statements(program)[i]),
            unresolved_mark.ctxt,
            false,
            false,
            4,
        ),
    ensures
        forall|k: int|
            0 <= k < program_analysis(
                program,
                unresolved_mark,
                impure_writes(statements(program), unresolved_mark),
            ).droppable.len() ==> (#[trigger] program_analysis(
                program,
                unresolved_mark,
                impure_writes(statements(program), unresolved_mark),
            ).droppable[k]).name != name,
{
    let body = statements(program);
    let effects = impure_writes(body, unresolved_mark);
    let analysis = program_analysis(program, unresolved_mark, effects);
    lemma_assignment_is_write(body[i], name, unresolved_mark);
    writes_are_as_impure_as_their_parts(body, unresolved_mark, i);
    if !analysis.is_unsafe {
        assert forall|k: int| 0 <= k < analysis.droppable.len() implies (
        #[trigger] analysis.droppable[k]).name != name by {
            let j = lemma_droppable_comes_from_stmt(
                body,
                unresolved_mark,
                effects,
                k,
            );
            if analysis.droppable[k].name == name {
                second_write_is_a_duplicate(body, unresolved_mark);
                assert(written_name(body[i], unresolved_mark) == written_name(
                    body[j],
                    unresolved_mark,
                ));
            }
        }
    }
}

/// Used means: named among the used exports, or the module is used as a whole.
pub proof fn used_means_named(usage: ModuleExportUsageInfo, name: Seq<char>)
    ensures
        match usage {
            ModuleExportUsageInfo::Evaluation => !usage.uses_export(name),
            ModuleExportUsageInfo::All => usage.uses_export(name),
            ModuleExportUsageInfo::Exports(names) => usage.uses_export(name) == exists|k: int|
                0 <= k < names@.len() && (#[trigger] names@[k])@ == name,
        },
{
    if let ModuleExportUsageInfo::Exports(names) = usage {
        if exists|k: int| 0 <= k < names@.len() && (#[trigger] names@[k])@ == name {
            let k = choose|k: int| 0 <= k < names@.len() && (#[trigger] names@[k])@ == name;
            assert(texts(names@)[k] == name);
        }
        if texts(names@).contains(name) {
            let k = choose|k: int| 0 <= k < names@.len() && texts(names@)[k] == name;
            assert(names@[k]@ == name);
        }
    }
}

/// Whether the module graph names `name` as used, or cannot say what is used.
pub open spec fn named_as_used(usage: ModuleExportUsageInfo, name: Seq<char>) -> bool {
    match usage {
        ModuleExportUsageInfo::Evaluation => false,
        ModuleExportUsageInfo::All => true,
        ModuleExportUsageInfo::Exports(names) => exists|k: int|
            0 <= k < names@.len() && (#[trigger] names@[k])@ == name,
    }
}

/// A position goes exactly if one of the drops has it, that drop's name is not used, the module is
/// not used as a whole, and, without the marker, its default export is not used.
pub proof fn positions_go_by_name(
    drops: Seq<DroppableView>,
    has_es_module: bool,
    usage: ModuleExportUsageInfo,
    span_lo: u32,
)
    ensures
        unused_positions(drops, has_es_module, usage).contains(span_lo) == {
            &&& !(usage is All)
            &&& has_es_module || !named_as_used(usage, "default"@)
            &&& exists|k: int|
                0 <= k < drops.len() && (#[trigger] drops[k]).span_lo == span_lo && !named_as_used(
                    usage,
                    drops[k].name,
                )
        },
{
    used_means_named(usage, "default"@);
    assert forall|k: int| 0 <= k < drops.len() implies usage.uses_export(
        (#[trigger] drops[k]).name,
    ) == named_as_used(usage, drops[k].name) by {
        used_means_named(usage, drops[k].name);
    }
}

/// A code-gen is built exactly where something may be dropped from a safe module, and carries over
/// what may be dropped and the marker.
pub proof fn code_gen_carries_over(analysis: AnalysisView)
    ensures
        drops_of(analysis) is Some == (!analysis.is_unsafe && analysis.droppable.len() > 0),
        drops_of(analysis) matches Some((drops, has_es_module)) ==> {
            &&& drops == analysis.droppable
            &&& has_es_module == analysis.has_es_module
        },
{
}

/// Blanking replaces exactly the statements at the given positions, each by an empty statement that
/// stands nowhere in the source, and changes neither the other statements nor the declarations nor
/// the order.
pub proof fn blanking_hits_the_positions(before: Program, after: Program, unused: Set<u32>)
    requires
        is_blanked(before, after, unused),
    ensures
        match (before, after) {
            (Program::Script(before), Program::Script(after)) => {
                &&& after@.len() == before@.len()
                &&& forall|i: int|
                    0 <= i < before@.len() && unused.contains((#[trigger] before@[i]).span_lo)
                        ==> after@[i].kind is Empty && after@[i].span_lo == 0
                &&& forall|i: int|
                    0 <= i < before@.len() && !unused.contains((#[trigger] before@[i]).span_lo)
                        ==> after@[i] == before@[i]
            },
            (Program::Module(before), Program::Module(after)) => {
                &&& after@.len() == before@.len()
                &&& forall|i: int|
                    0 <= i < before@.len() ==> match #[trigger] before@[i] {
                        ModuleItem::ModuleDecl(_) => after@[i] == before@[i],
                        ModuleItem::Stmt(stmt) => if unused.contains(stmt.span_lo) {
                            &&& after@[i] matches ModuleItem::Stmt(empty)
                            &&& empty.kind is Empty
                            &&& empty.span_lo == 0
                        } else {
                            after@[i] == before@[i]
                        },
                    }
            },
            _ => false,
        },
{
}

/// What analysis and code-gen do to a program, told from the syntax: a top-level statement goes
/// exactly if the module is safe, the statement assigns to a member of the exports object, no
/// consumer names that member, nobody consumes the module as a whole (be it as a default import
/// without the marker), and swc finds no side effect in the value nor in what a comma in the target
/// discards. Every other statement stays.
pub proof fn statements_go_exactly_if_unobservable(
    before: Program,
    after: Program,
    unresolved_mark: Mark,
    usage: ModuleExportUsageInfo,
    i: int,
)
    requires
        distinct_positions(statements(before)),
        0 <= i < statements(before).len(),
        is_blanked(
            before,
            after,
            dropped_positions(
                before,
                unresolved_mark,
                impure_writes(statements(before), unresolved_mark),
                usage,
            ),
        ),
    ensures
        statements(after).len() == statements(before).len(),
        ({
            let analysis = program_analysis(
                before,
                unresolved_mark,
                impure_writes(statements(before), unresolved_mark),
            );
            let stmt = statements(before)[i];
            let goes = {
                &&& !analysis.is_unsafe
                &&& stmt_form(stmt, unresolved_mark) is ExportWrite
                &&& !named_as_used(usage, stmt_form(stmt, unresolved_mark)->ExportWrite_0.name)
                &&& !(usage is All)
                &&& analysis.has_es_module || !named_as_used(usage, "default"@)
                &&& !side_effects(
                    stmt_form(stmt, unresolved_mark)->ExportWrite_0.value,
                    unresolved_mark.ctxt,
                    false,
                    false,
                    4,
                )
                &&& !discards_effects(
                    stmt_form(stmt, unresolved_mark)->ExportWrite_0.object,
                    unresolved_mark,
                )
            };
            if goes {
                statements(after)[i].kind is Empty && statements(after)[i].span_lo == 0
            } else {
                statements(after)[i] == stmt
            }
        }),
{
    let body = statements(before);
    let effects = impure_writes(body, unresolved_mark);
    exactly_the_unobservable_writes_go(before, after, unresolved_mark, effects, usage);
    writes_are_as_impure_as_their_parts(body, unresolved_mark, i);
    used_means_named(usage, "default"@);
    if stmt_form(body[i], unresolved_mark) is ExportWrite {
        used_means_named(usage, stmt_form(body[i], unresolved_mark)->ExportWrite_0.name);
    }
}

/// An export that a consumer names is never dropped, whatever else is named.
pub proof fn named_exports_stay(
    before: Program,
    after: Program,
    unresolved_mark: Mark,
    side_effects: Seq<bool>,
    names: Vec<String>,
    i: int,
    k: int,
    name: Seq<char>,
)
    requires
        side_effects.len() == statements(before).len(),
        distinct_positions(statements(before)),
        0 <= i < statements(before).len(),
        assigns_export(statements(before)[i], name, unresolved_mark),
        0 <= k < names@.len(),
        names@[k]@ == name,
        is_blanked(
            before,
            after,
            dropped_positions(
                before,
                unresolved_mark,
                side_effects,
                ModuleExportUsageInfo::Exports(names),
            ),
        ),
    ensures
        statements(after)[i] == statements(before)[i],
{
    let usage = ModuleExportUsageInfo::Exports(names);
    exactly_the_unobservable_writes_go(before, after, unresolved_mark, side_effects, usage);
    lemma_assignment_is_write(statements(before)[i], name, unresolved_mark);
    used_means_named(usage, name);
    assert(!unobservable(before, unresolved_mark, side_effects, usage, i));
}

/// More names used, fewer statements gone: what stays when some names are used stays when more are.
pub proof fn more_use_keeps_more(
    drops: Seq<DroppableView>,
    has_es_module: bool,
    few: Vec<String>,
    many: Vec<String>,
    span_lo: u32,
)
    requires
        forall|k: int|
            0 <= k < few@.len() ==> exists|l: int|
                0 <= l < many@.len() && (#[trigger] many@[l])@ == (#[trigger] few@[k])@,
        unused_positions(drops, has_es_module, ModuleExportUsageInfo::Exports(many)).contains(
            span_lo,
        ),
    ensures
        unused_positions(drops, has_es_module, ModuleExportUsageInfo::Exports(few)).contains(
            span_lo,
        ),
{
    let less = ModuleExportUsageInfo::Exports(few);
    let more = ModuleExportUsageInfo::Exports(many);
    positions_go_by_name(drops, has_es_module, more, span_lo);
    positions_go_by_name(drops, has_es_module, less, span_lo);
    assert forall|name: Seq<char>| named_as_used(less, name) implies #[trigger] named_as_used(
        more,
        name,
    ) by {
        let k = choose|k: int| 0 <= k < few@.len() && (#[trigger] few@[k])@ == name;
        let l = choose|l: int| 0 <= l < many@.len() && (#[trigger] many@[l])@ == few@[k]@;
        assert(many@[l]@ == name);
    }
    let k = choose|k: int|
        0 <= k < drops.len() && (#[trigger] drops[k]).span_lo == span_lo && !named_as_used(
            more,
            drops[k].name,
        );
    assert(!named_as_used(less, drops[k].name));
    if named_as_used(less, "default"@) {
        assert(named_as_used(more, "default"@));
    }
}

/// What contracts see of an analysis and of the drops is all that they hold, one for one.
pub proof fn views_show_everything(
    analysis: CommonJsExportsAnalysis,
    droppable: Seq<DroppableExport>,
    drops: Seq<CjsExportDrop>,
)
    ensures
        analysis@.names == analysis.names@,
        analysis@.has_es_module == analysis.has_es_module,
        analysis@.is_unsafe == analysis.is_unsafe,
        analysis@.droppable.len() == analysis.droppable@.len(),
        forall|k: int|
            0 <= k < analysis.droppable@.len() ==> {
                &&& (#[trigger] analysis@.droppable[k]).name == analysis.droppable@[k].name@
                &&& analysis@.droppable[k].span_lo == analysis.droppable@[k].span_lo
            },
        droppable_views(droppable).len() == droppable.len(),
        forall|k: int|
            0 <= k < droppable.len() ==> {
                &&& (#[trigger] droppable_views(droppable)[k]).name == droppable[k].name@
                &&& droppable_views(droppable)[k].span_lo == droppable[k].span_lo
            },
        drop_views(drops).len() == drops.len(),
        forall|k: int|
            0 <= k < drops.len() ==> {
                &&& (#[trigger] drop_views(drops)[k]).name == drops[k].name@
                &&& drop_views(drops)[k].span_lo == drops[k].span_lo
            },
{
}

/// The step of code generation holds the code-gen that it was made from.
pub proof fn step_holds_its_code_gen(code_gen: CjsExportsDropCodeGen)
    ensures
        <CodeGen as vstd::std_specs::convert::FromSpec<CjsExportsDropCodeGen>>::from_spec(code_gen)
            == CodeGen::CjsExportsDropCodeGen(code_gen),
{
}

} // verus!
