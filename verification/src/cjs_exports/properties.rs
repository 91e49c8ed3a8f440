//! What holds of the export analysis and of the code-gen taken together.

use crate::analyzer::unparenthesized;
use crate::cjs_exports::code_gen::{
    blanked, blanked_item, drops_of, is_blanked, may_drop, unused_positions, ModuleExportUsageInfo,
    DUMMY_LO,
};
use crate::cjs_exports::recognize::{
    decl_tainted, discards_taint, droppable_writes, export_names, export_writes,
    lemma_opaque_prefix, names_exports_object, offends, opaque, opaque_body, program_analysis,
    sets_es_module, stmt_form, tainted, taints, without_parens, StmtForm,
};
use crate::syntax::{
    children, lemma_child_is_smaller, module_statements, statements, Mark, MemberExpr, ModuleItem,
    Node, Program, Stmt, StmtKind,
};
use vstd::prelude::*;

verus! {

/// A module that is opaque offers nothing: no name, no marker, nothing to drop.
pub proof fn unsafe_analysis_is_empty(
    program: Program,
    unresolved_mark: Mark,
    side_effects: Seq<bool>,
)
    requires
        program_analysis(program, unresolved_mark, side_effects).is_unsafe,
    ensures
        program_analysis(program, unresolved_mark, side_effects).names.len() == 0,
        !program_analysis(program, unresolved_mark, side_effects).has_es_module,
        program_analysis(program, unresolved_mark, side_effects).droppable.len() == 0,
        drops_of(program_analysis(program, unresolved_mark, side_effects)) is None,
{
}

/// No name is listed twice.
pub proof fn names_are_distinct(program: Program, unresolved_mark: Mark, side_effects: Seq<bool>)
    ensures
        program_analysis(program, unresolved_mark, side_effects).names.no_duplicates(),
{
}

/// What makes a module opaque is never made good by more statements: a module is opaque if the
/// statements up to some place are.
pub proof fn more_statements_clear_no_taint(body: Seq<Stmt>, more: Seq<Stmt>, unresolved_mark: Mark)
    requires
        opaque_body(body, unresolved_mark),
    ensures
        opaque_body(body + more, unresolved_mark),
{
    assert((body + more).take(body.len() as int) =~= body);
    lemma_opaque_prefix(body + more, body.len() as int, unresolved_mark);
}

/// The export writes among `body` are the statements of that form, in their order.
proof fn lemma_write_comes_from_stmt(body: Seq<Stmt>, unresolved_mark: Mark, k: int) -> (i: int)
    requires
        0 <= k < export_writes(body, unresolved_mark).len(),
    ensures
        k <= i < body.len(),
        stmt_form(body[i], unresolved_mark) == StmtForm::ExportWrite(
            export_writes(body, unresolved_mark)[k],
        ),
    decreases body.len(),
{
    let before = export_writes(body.drop_last(), unresolved_mark);
    if k < before.len() {
        lemma_write_comes_from_stmt(body.drop_last(), unresolved_mark, k)
    } else {
        lemma_writes_are_few(body.drop_last(), unresolved_mark);
        body.len() - 1
    }
}

/// There are no more export writes than statements.
proof fn lemma_writes_are_few(body: Seq<Stmt>, unresolved_mark: Mark)
    ensures
        export_writes(body, unresolved_mark).len() <= body.len(),
    decreases body.len(),
{
    if body.len() > 0 {
        lemma_writes_are_few(body.drop_last(), unresolved_mark);
    }
}

/// A statement that is an export write is among the export writes.
proof fn lemma_write_is_listed(body: Seq<Stmt>, unresolved_mark: Mark, i: int) -> (k: int)
    requires
        0 <= i < body.len(),
        stmt_form(body[i], unresolved_mark) is ExportWrite,
    ensures
        0 <= k < export_writes(body, unresolved_mark).len(),
        stmt_form(body[i], unresolved_mark) == StmtForm::ExportWrite(
            export_writes(body, unresolved_mark)[k],
        ),
        k == export_writes(body.take(i), unresolved_mark).len(),
    decreases body.len(),
{
    if i < body.len() - 1 {
        assert(body.drop_last().take(i) =~= body.take(i));
        lemma_write_is_listed(body.drop_last(), unresolved_mark, i)
    } else {
        assert(body.drop_last() =~= body.take(i));
        export_writes(body.drop_last(), unresolved_mark).len() as int
    }
}

/// More statements hold no fewer export writes.
proof fn lemma_writes_grow(body: Seq<Stmt>, unresolved_mark: Mark, n: int, m: int)
    requires
        0 <= n <= m <= body.len(),
    ensures
        export_writes(body.take(n), unresolved_mark).len() <= export_writes(
            body.take(m),
            unresolved_mark,
        ).len(),
    decreases m,
{
    if n < m {
        assert(body.take(m).drop_last() =~= body.take(m - 1));
        lemma_writes_grow(body, unresolved_mark, n, m - 1);
    }
}

/// The name that the statement `stmt` exports, if it is an export write.
pub open spec fn written_name(stmt: Stmt, unresolved_mark: Mark) -> Option<Seq<char>> {
    match stmt_form(stmt, unresolved_mark) {
        StmtForm::ExportWrite(write) => Some(write.name),
        _ => None,
    }
}

/// Whether no two of the statements `body` write one name.
pub open spec fn names_written_once(body: Seq<Stmt>, unresolved_mark: Mark) -> bool {
    forall|i: int, j: int|
        0 <= i < j < body.len() && written_name(#[trigger] body[i], unresolved_mark) is Some
            ==> written_name(body[i], unresolved_mark) != written_name(
            #[trigger] body[j],
            unresolved_mark,
        )
}

/// The names are free of duplicates exactly if no two statements write one name: a second
/// top-level write to a name makes a module opaque.
pub proof fn second_write_is_a_duplicate(body: Seq<Stmt>, unresolved_mark: Mark)
    ensures
        export_names(body, unresolved_mark).no_duplicates() == names_written_once(
            body,
            unresolved_mark,
        ),
{
    let writes = export_writes(body, unresolved_mark);
    let names = export_names(body, unresolved_mark);
    if names.no_duplicates() {
        assert forall|i: int, j: int|
            0 <= i < j < body.len() && written_name(
                #[trigger] body[i],
                unresolved_mark,
            ) is Some implies written_name(body[i], unresolved_mark) != written_name(
            #[trigger] body[j],
            unresolved_mark,
        ) by {
            if written_name(body[j], unresolved_mark) is Some {
                let k = lemma_write_is_listed(body, unresolved_mark, i);
                let l = lemma_write_is_listed(body, unresolved_mark, j);
                lemma_writes_grow(body, unresolved_mark, i + 1, j);
                assert(body.take(i + 1).drop_last() =~= body.take(i));
                assert(k < l);
                assert(names[k] != names[l]);
            }
        }
    }
    if names_written_once(body, unresolved_mark) {
        lemma_distinct_writes(body, unresolved_mark);
    }
}

/// Statements that write different names write a sequence without duplicates.
proof fn lemma_distinct_writes(body: Seq<Stmt>, unresolved_mark: Mark)
    requires
        names_written_once(body, unresolved_mark),
    ensures
        export_names(body, unresolved_mark).no_duplicates(),
    decreases body.len(),
{
    if body.len() > 0 {
        let before = body.drop_last();
        let last = body.len() - 1;
        assert forall|i: int, j: int|
            0 <= i < j < before.len() && written_name(
                #[trigger] before[i],
                unresolved_mark,
            ) is Some implies written_name(before[i], unresolved_mark) != written_name(
            #[trigger] before[j],
            unresolved_mark,
        ) by {
            assert(body[i] == before[i] && body[j] == before[j]);
        }
        lemma_distinct_writes(before, unresolved_mark);
        if let StmtForm::ExportWrite(write) = stmt_form(body[last], unresolved_mark) {
            let names = export_names(before, unresolved_mark);
            assert(export_names(body, unresolved_mark) =~= names.push(write.name));
            if names.contains(write.name) {
                let k = choose|k: int| 0 <= k < names.len() && names[k] == write.name;
                let i = lemma_write_comes_from_stmt(before, unresolved_mark, k);
                assert(body[i] == before[i]);
                assert(written_name(body[i], unresolved_mark) == written_name(
                    body[last],
                    unresolved_mark,
                ));
            }
        } else {
            assert(export_names(body, unresolved_mark) =~= export_names(before, unresolved_mark));
        }
    }
}

/// The marker is never listed as an export, so it is never dropped.
pub proof fn marker_is_no_export(program: Program, unresolved_mark: Mark, side_effects: Seq<bool>)
    ensures
        !program_analysis(program, unresolved_mark, side_effects).names.contains("__esModule"@),
{
    let body = statements(program);
    let names = export_names(body, unresolved_mark);
    if names.contains("__esModule"@) {
        let k = choose|k: int| 0 <= k < names.len() && names[k] == "__esModule"@;
        let i = lemma_write_comes_from_stmt(body, unresolved_mark, k);
    }
}

/// A droppable write comes from an export write without side effects.
pub(crate) proof fn lemma_droppable_comes_from_stmt(
    body: Seq<Stmt>,
    unresolved_mark: Mark,
    side_effects: Seq<bool>,
    k: int,
) -> (i: int)
    requires
        0 <= k < droppable_writes(body, unresolved_mark, side_effects).len(),
    ensures
        0 <= i < body.len(),
        !side_effects[i],
        written_name(body[i], unresolved_mark) == Some(
            droppable_writes(body, unresolved_mark, side_effects)[k].name,
        ),
        body[i].span_lo == droppable_writes(body, unresolved_mark, side_effects)[k].span_lo,
    decreases body.len(),
{
    let before = droppable_writes(body.drop_last(), unresolved_mark, side_effects);
    if k < before.len() {
        lemma_droppable_comes_from_stmt(body.drop_last(), unresolved_mark, side_effects, k)
    } else {
        body.len() - 1
    }
}

/// An export write without side effects is droppable.
proof fn lemma_pure_write_is_droppable(
    body: Seq<Stmt>,
    unresolved_mark: Mark,
    side_effects: Seq<bool>,
    i: int,
) -> (k: int)
    requires
        0 <= i < body.len(),
        !side_effects[i],
        written_name(body[i], unresolved_mark) is Some,
    ensures
        0 <= k < droppable_writes(body, unresolved_mark, side_effects).len(),
        written_name(body[i], unresolved_mark) == Some(
            droppable_writes(body, unresolved_mark, side_effects)[k].name,
        ),
        body[i].span_lo == droppable_writes(body, unresolved_mark, side_effects)[k].span_lo,
    decreases body.len(),
{
    if i < body.len() - 1 {
        lemma_pure_write_is_droppable(body.drop_last(), unresolved_mark, side_effects, i)
    } else {
        droppable_writes(body.drop_last(), unresolved_mark, side_effects).len() as int
    }
}

/// What may be dropped is an export: its name is among the names.
pub proof fn droppable_exports_are_named(
    program: Program,
    unresolved_mark: Mark,
    side_effects: Seq<bool>,
    k: int,
)
    requires
        0 <= k < program_analysis(program, unresolved_mark, side_effects).droppable.len(),
    ensures
        program_analysis(program, unresolved_mark, side_effects).names.contains(
            program_analysis(program, unresolved_mark, side_effects).droppable[k].name,
        ),
{
    let body = statements(program);
    let i = lemma_droppable_comes_from_stmt(body, unresolved_mark, side_effects, k);
    let l = lemma_write_is_listed(body, unresolved_mark, i);
    assert(export_names(body, unresolved_mark)[l] == droppable_writes(
        body,
        unresolved_mark,
        side_effects,
    )[k].name);
}

/// The number of places in `node` that let the exports object out.
pub open spec fn taint_count(node: Node, in_function: bool, unresolved_mark: Mark) -> nat
    decreases node, children(node).len() + 1,
{
    (if taints(node, in_function, unresolved_mark) {
        1nat
    } else {
        0nat
    }) + taint_count_in_children(
        node,
        children(node).len(),
        in_function || node is Function,
        unresolved_mark,
    )
}

/// The number of places in the first `n` children of `node` that let the exports object out.
pub open spec fn taint_count_in_children(
    node: Node,
    n: nat,
    in_function: bool,
    unresolved_mark: Mark,
) -> nat
    decreases node, n,
{
    if 0 < n <= children(node).len() {
        proof {
            lemma_child_is_smaller(node, n - 1);
        }
        taint_count_in_children(node, (n - 1) as nat, in_function, unresolved_mark) + taint_count(
            children(node)[n - 1],
            in_function,
            unresolved_mark,
        )
    } else {
        0
    }
}

/// The number of places in the statement `stmt` that let the exports object out.
pub open spec fn stmt_taint_count(stmt: Stmt, unresolved_mark: Mark) -> nat {
    match stmt.kind {
        StmtKind::Expr(expr) => taint_count(expr, false, unresolved_mark),
        StmtKind::Empty => 0,
        StmtKind::Other(parts) => taint_count(parts, false, unresolved_mark),
    }
}

/// A node is tainted exactly if some place in it lets the exports object out.
pub proof fn tainted_means_some_place(node: Node, in_function: bool, unresolved_mark: Mark)
    ensures
        tainted(node, in_function, unresolved_mark) == (taint_count(
            node,
            in_function,
            unresolved_mark,
        ) > 0),
    decreases node, children(node).len() + 1,
{
    let inside = in_function || node is Function;
    lemma_tainted_children(node, children(node).len(), inside, unresolved_mark);
}

/// A child among the first `n` is tainted exactly if some place in them lets the exports object
/// out.
proof fn lemma_tainted_children(node: Node, n: nat, in_function: bool, unresolved_mark: Mark)
    requires
        n <= children(node).len(),
    ensures
        (exists|k: int|
            0 <= k < n && tainted(#[trigger] children(node)[k], in_function, unresolved_mark)) == (
        taint_count_in_children(node, n, in_function, unresolved_mark) > 0),
    decreases node, n,
{
    if n > 0 {
        lemma_child_is_smaller(node, n - 1);
        lemma_tainted_children(node, (n - 1) as nat, in_function, unresolved_mark);
        tainted_means_some_place(children(node)[n - 1], in_function, unresolved_mark);
        if exists|k: int|
            0 <= k < n - 1 && tainted(#[trigger] children(node)[k], in_function, unresolved_mark) {
            let k = choose|k: int|
                0 <= k < n - 1 && tainted(
                    #[trigger] children(node)[k],
                    in_function,
                    unresolved_mark,
                );
            assert(0 <= k < n && tainted(children(node)[k], in_function, unresolved_mark));
        }
        if tainted(children(node)[n - 1], in_function, unresolved_mark) {
            assert(0 <= n - 1 < n);
        }
    }
}

/// What a node with at most two children lets out.
proof fn lemma_count_of_few_children(node: Node, in_function: bool, unresolved_mark: Mark)
    ensures
        taint_count_in_children(node, 0, in_function, unresolved_mark) == 0,
        children(node).len() >= 1 ==> taint_count_in_children(node, 1, in_function, unresolved_mark)
            == taint_count(children(node)[0], in_function, unresolved_mark),
        children(node).len() >= 2 ==> taint_count_in_children(node, 2, in_function, unresolved_mark)
            == taint_count(children(node)[0], in_function, unresolved_mark) + taint_count(
            children(node)[1],
            in_function,
            unresolved_mark,
        ),
{
    assert(taint_count_in_children(node, 0, in_function, unresolved_mark) == 0);
    if children(node).len() >= 1 {
        assert(taint_count_in_children(node, 1, in_function, unresolved_mark) == taint_count(
            children(node)[0],
            in_function,
            unresolved_mark,
        ));
    }
}

/// `this` is the exports object exactly where no function rebinds it: at the top level, and in
/// syntax such as an arrow function, which has the `this` of the place where it stands. What stands
/// in a function does not depend on where the function stands.
pub proof fn functions_rebind_this(parts: Vec<Node>, in_function: bool, unresolved_mark: Mark)
    ensures
        tainted(Node::This, in_function, unresolved_mark) == !in_function,
        tainted(Node::Other(parts), in_function, unresolved_mark) == exists|k: int|
            0 <= k < parts@.len() && tainted(#[trigger] parts@[k], in_function, unresolved_mark),
        tainted(Node::Function(parts), in_function, unresolved_mark) == exists|k: int|
            0 <= k < parts@.len() && tainted(#[trigger] parts@[k], true, unresolved_mark),
{
    assert(children(Node::This) =~= seq![]);
    assert(children(Node::Other(parts)) == parts@);
    assert(children(Node::Function(parts)) == parts@);
}

/// Parentheses let nothing out.
proof fn lemma_parens_do_not_count(node: Node, in_function: bool, unresolved_mark: Mark)
    ensures
        taint_count(node, in_function, unresolved_mark) == taint_count(
            without_parens(node),
            in_function,
            unresolved_mark,
        ),
    decreases node,
{
    if let Node::Paren(inner) = node {
        lemma_count_of_few_children(node, in_function, unresolved_mark);
        assert(children(node) =~= seq![*inner]);
        lemma_parens_do_not_count(*inner, in_function, unresolved_mark);
    }
}

/// Where no comma expression stands in the parentheses, only parentheses are looked through.
proof fn lemma_only_parens(node: Node)
    requires
        !(without_parens(node) is Sequence),
    ensures
        unparenthesized(node) == without_parens(node),
    decreases node,
{
    if let Node::Paren(inner) = node {
        lemma_only_parens(*inner);
    }
}

/// Parentheses and commas let nothing out, if the operands that they discard do not.
proof fn lemma_discarded_do_not_count(node: Node, unresolved_mark: Mark)
    requires
        !discards_taint(node, unresolved_mark),
    ensures
        taint_count(node, false, unresolved_mark) == taint_count(
            unparenthesized(node),
            false,
            unresolved_mark,
        ),
    decreases node,
{
    match node {
        Node::Paren(inner) => {
            lemma_count_of_few_children(node, false, unresolved_mark);
            assert(children(node) =~= seq![*inner]);
            lemma_discarded_do_not_count(*inner, unresolved_mark);
        },
        Node::Sequence(sequence) => {
            let n = sequence.init@.len();
            assert(forall|k: int| 0 <= k < n ==> #[trigger] children(node)[k] == sequence.init@[k]);
            assert(children(node)[n as int] == *sequence.last);
            lemma_tainted_children(node, n, false, unresolved_mark);
            lemma_discarded_do_not_count(*sequence.last, unresolved_mark);
        },
        _ => {},
    }
}

/// The target of a write to the exports object names it once.
proof fn lemma_target_counts_once(member: MemberExpr, unresolved_mark: Mark)
    requires
        names_exports_object(*member.obj, unresolved_mark),
        member.prop is Ident,
        !discards_taint(*member.obj, unresolved_mark),
    ensures
        taint_count(Node::Member(member), false, unresolved_mark) == 1,
{
    let target = Node::Member(member);
    let object = unparenthesized(*member.obj);
    lemma_count_of_few_children(target, false, unresolved_mark);
    assert(children(target) =~= seq![*member.obj]);
    lemma_discarded_do_not_count(*member.obj, unresolved_mark);
    match object {
        Node::Member(inner) => {
            assert(children(object) =~= seq![*inner.obj]);
            assert(children(*inner.obj) =~= seq![]);
            lemma_count_of_few_children(object, false, unresolved_mark);
            lemma_count_of_few_children(*inner.obj, false, unresolved_mark);
        },
        _ => {
            assert(children(object) =~= seq![]);
            lemma_count_of_few_children(object, false, unresolved_mark);
        },
    }
}

/// Deny by default: in a module that is not opaque the exports object, be it as `exports`, as
/// `module` or as top-level `this`, occurs nowhere but in the targets of the recognized writes,
/// and there once. No other statement and no module declaration touches it.
pub proof fn only_write_targets_mention_exports(
    program: Program,
    unresolved_mark: Mark,
    side_effects: Seq<bool>,
)
    requires
        !program_analysis(program, unresolved_mark, side_effects).is_unsafe,
    ensures
        forall|i: int|
            0 <= i < statements(program).len() ==> stmt_taint_count(
                #[trigger] statements(program)[i],
                unresolved_mark,
            ) == match stmt_form(statements(program)[i], unresolved_mark) {
                StmtForm::ExportWrite(_) | StmtForm::EsModuleMarker { .. } => 1nat,
                _ => 0nat,
            },
        program matches Program::Module(items) ==> forall|k: int|
            0 <= k < items@.len() ==> (#[trigger] items@[k] matches ModuleItem::ModuleDecl(parts)
                ==> taint_count(parts, false, unresolved_mark) == 0),
{
    let body = statements(program);
    assert forall|i: int| 0 <= i < body.len() implies stmt_taint_count(
        #[trigger] body[i],
        unresolved_mark,
    ) == match stmt_form(body[i], unresolved_mark) {
        StmtForm::ExportWrite(_) | StmtForm::EsModuleMarker { .. } => 1nat,
        _ => 0nat,
    } by {
        lemma_stmt_mentions_exports_in_target(body[i], unresolved_mark);
    }
    if let Program::Module(items) = program {
        assert forall|k: int| 0 <= k < items@.len() implies (
        #[trigger] items@[k] matches ModuleItem::ModuleDecl(parts) ==> taint_count(
            parts,
            false,
            unresolved_mark,
        ) == 0) by {
            assert(!decl_tainted(items@[k], unresolved_mark));
            if let ModuleItem::ModuleDecl(parts) = items@[k] {
                tainted_means_some_place(parts, false, unresolved_mark);
            }
        }
    }
}

/// A statement that does not offend touches the exports object only as the target of a recognized
/// write, and there once.
proof fn lemma_stmt_mentions_exports_in_target(stmt: Stmt, unresolved_mark: Mark)
    requires
        !offends(stmt, unresolved_mark),
    ensures
        stmt_taint_count(stmt, unresolved_mark) == match stmt_form(stmt, unresolved_mark) {
            StmtForm::ExportWrite(_) | StmtForm::EsModuleMarker { .. } => 1nat,
            _ => 0nat,
        },
{
    match stmt_form(stmt, unresolved_mark) {
        StmtForm::ExportWrite(_) | StmtForm::EsModuleMarker { .. } => {
            let expr = stmt.kind->Expr_0;
            let assign = unparenthesized(expr)->Assign_0;
            let member = (*assign.left)->Member_0;
            let write = Node::Assign(assign);
            lemma_only_parens(expr);
            lemma_parens_do_not_count(expr, false, unresolved_mark);
            lemma_target_counts_once(member, unresolved_mark);
            tainted_means_some_place(*assign.right, false, unresolved_mark);
            lemma_count_of_few_children(write, false, unresolved_mark);
            assert(children(write) =~= seq![*assign.left, *assign.right]);
        },
        _ => match stmt.kind {
            StmtKind::Expr(expr) => tainted_means_some_place(expr, false, unresolved_mark),
            StmtKind::Empty => {},
            StmtKind::Other(parts) => tainted_means_some_place(parts, false, unresolved_mark),
        },
    }
}

/// The statements of a module whose items are blanked are its statements, blanked.
proof fn lemma_blanked_items(items: Seq<ModuleItem>, unused: Set<u32>)
    ensures
        module_statements(items.map_values(|item: ModuleItem| blanked_item(item, unused)))
            == module_statements(items).map_values(|stmt: Stmt| blanked(stmt, unused)),
    decreases items.len(),
{
    let after = items.map_values(|item: ModuleItem| blanked_item(item, unused));
    if items.len() > 0 {
        lemma_blanked_items(items.drop_last(), unused);
        assert(after.drop_last() =~= items.drop_last().map_values(
            |item: ModuleItem| blanked_item(item, unused),
        ));
    }
    assert(module_statements(after) =~= module_statements(items).map_values(
        |stmt: Stmt| blanked(stmt, unused),
    ));
}

/// Blanking keeps every top-level statement in its place: it replaces those at the given positions
/// and leaves the others as they are.
pub proof fn blanking_keeps_the_other_statements(before: Program, after: Program, unused: Set<u32>)
    requires
        is_blanked(before, after, unused),
    ensures
        statements(after) == statements(before).map_values(|stmt: Stmt| blanked(stmt, unused)),
{
    match before {
        Program::Module(body) => lemma_blanked_items(body@, unused),
        Program::Script(_) => {},
    }
}

/// Blanking a second time changes nothing.
pub proof fn blanking_twice_is_blanking_once(
    before: Program,
    once: Program,
    twice: Program,
    unused: Set<u32>,
)
    requires
        is_blanked(before, once, unused),
        is_blanked(once, twice, unused),
    ensures
        match (once, twice) {
            (Program::Module(once), Program::Module(twice)) => once@ == twice@,
            (Program::Script(once), Program::Script(twice)) => once@ == twice@,
            _ => false,
        },
{
}

/// Whether no two of the statements `body` start at one position.
pub open spec fn distinct_positions(body: Seq<Stmt>) -> bool {
    forall|i: int, j: int|
        0 <= i < j < body.len() ==> (#[trigger] body[i]).span_lo != (#[trigger] body[j]).span_lo
}

/// The positions that go from `program` when its exports are used as `usage` says.
pub open spec fn dropped_positions(
    program: Program,
    unresolved_mark: Mark,
    side_effects: Seq<bool>,
    usage: ModuleExportUsageInfo,
) -> Set<u32> {
    match drops_of(program_analysis(program, unresolved_mark, side_effects)) {
        Some((drops, has_es_module)) => unused_positions(drops, has_es_module, usage),
        None => Set::empty(),
    }
}

/// Whether the top-level statement `i` of `program` is one that nobody can observe: the write of an
/// export that no consumer names, with no side effect beside, in a module that is not opaque and
/// that nobody consumes as a whole. `side_effects` says of each statement whether it may have one.
pub open spec fn unobservable(
    program: Program,
    unresolved_mark: Mark,
    side_effects: Seq<bool>,
    usage: ModuleExportUsageInfo,
    i: int,
) -> bool {
    &&& !opaque(program, unresolved_mark)
    &&& may_drop(sets_es_module(statements(program), unresolved_mark), usage)
    &&& !side_effects[i]
    &&& written_name(statements(program)[i], unresolved_mark) matches Some(name)
    &&& !usage.uses_export(name)
}

/// Analysis and code-gen together remove the unobservable export writes, all of them and nothing
/// else. Every other top-level statement stays as it is, and so does the order of the statements.
pub proof fn exactly_the_unobservable_writes_go(
    before: Program,
    after: Program,
    unresolved_mark: Mark,
    side_effects: Seq<bool>,
    usage: ModuleExportUsageInfo,
)
    requires
        side_effects.len() == statements(before).len(),
        distinct_positions(statements(before)),
        is_blanked(
            before,
            after,
            dropped_positions(before, unresolved_mark, side_effects, usage),
        ),
    ensures
        statements(after).len() == statements(before).len(),
        forall|i: int|
            0 <= i < statements(before).len() ==> #[trigger] statements(after)[i]
                == if unobservable(
                before,
                unresolved_mark,
                side_effects,
                usage,
                i,
            ) {
                Stmt { span_lo: DUMMY_LO, kind: StmtKind::Empty }
            } else {
                statements(before)[i]
            },
{
    let body = statements(before);
    let unused = dropped_positions(before, unresolved_mark, side_effects, usage);
    let analysis = program_analysis(before, unresolved_mark, side_effects);
    let droppable = droppable_writes(body, unresolved_mark, side_effects);
    blanking_keeps_the_other_statements(before, after, unused);
    assert forall|i: int| 0 <= i < body.len() implies unused.contains(
        (#[trigger] body[i]).span_lo,
    ) == unobservable(before, unresolved_mark, side_effects, usage, i) by {
        if unused.contains(body[i].span_lo) {
            let k = choose|k: int|
                0 <= k < droppable.len() && (#[trigger] droppable[k]).span_lo == body[i].span_lo
                    && !usage.uses_export(droppable[k].name);
            let j = lemma_droppable_comes_from_stmt(body, unresolved_mark, side_effects, k);
            assert(i == j);
        }
        if unobservable(before, unresolved_mark, side_effects, usage, i) {
            let k = lemma_pure_write_is_droppable(body, unresolved_mark, side_effects, i);
            assert(analysis.droppable[k].span_lo == body[i].span_lo);
        }
    }
    assert forall|i: int| 0 <= i < body.len() implies #[trigger] statements(after)[i]
        == if unobservable(before, unresolved_mark, side_effects, usage, i) {
        Stmt { span_lo: DUMMY_LO, kind: StmtKind::Empty }
    } else {
        body[i]
    } by {
        assert(statements(after)[i] == blanked(body[i], unused));
    }
}

/// Nothing goes from a module that may be consumed as a whole, nor, without the `__esModule`
/// marker, from one whose default export is used.
pub proof fn wholesale_use_keeps_everything(
    program: Program,
    unresolved_mark: Mark,
    side_effects: Seq<bool>,
    usage: ModuleExportUsageInfo,
)
    requires
        usage is All || (!sets_es_module(statements(program), unresolved_mark)
            && usage.uses_export("default"@)),
    ensures
        dropped_positions(program, unresolved_mark, side_effects, usage) == Set::<u32>::empty(),
{
    assert(dropped_positions(program, unresolved_mark, side_effects, usage)
        =~= Set::<u32>::empty());
}

/// A module that was not opaque is none after the drop. The names that it still writes are those of
/// the statements that stayed, and its marker is still set.
pub proof fn remaining_exports_are_recognized_again(
    before: Program,
    after: Program,
    unresolved_mark: Mark,
    side_effects: Seq<bool>,
    usage: ModuleExportUsageInfo,
)
    requires
        side_effects.len() == statements(before).len(),
        distinct_positions(statements(before)),
        !opaque(before, unresolved_mark),
        is_blanked(
            before,
            after,
            dropped_positions(before, unresolved_mark, side_effects, usage),
        ),
    ensures
        !opaque(after, unresolved_mark),
        sets_es_module(statements(after), unresolved_mark) == sets_es_module(
            statements(before),
            unresolved_mark,
        ),
        forall|name: Seq<char>| #[trigger]
            export_names(statements(after), unresolved_mark).contains(name) == exists|i: int|
                0 <= i < statements(before).len() && written_name(
                    #[trigger] statements(before)[i],
                    unresolved_mark,
                ) == Some(name) && !unobservable(
                    before,
                    unresolved_mark,
                    side_effects,
                    usage,
                    i,
                ),
{
    let body = statements(before);
    let rest = statements(after);
    exactly_the_unobservable_writes_go(before, after, unresolved_mark, side_effects, usage);
    second_write_is_a_duplicate(body, unresolved_mark);
    second_write_is_a_duplicate(rest, unresolved_mark);
    assert forall|i: int| 0 <= i < rest.len() implies !offends(
        #[trigger] rest[i],
        unresolved_mark,
    ) by {
        assert(!offends(body[i], unresolved_mark));
    }
    assert forall|i: int, j: int|
        0 <= i < j < rest.len() && written_name(
            #[trigger] rest[i],
            unresolved_mark,
        ) is Some implies written_name(rest[i], unresolved_mark) != written_name(
        #[trigger] rest[j],
        unresolved_mark,
    ) by {
        assert(rest[i] == body[i]);
        assert(written_name(body[i], unresolved_mark) != written_name(body[j], unresolved_mark));
    }
    if sets_es_module(body, unresolved_mark) {
        let i = choose|i: int|
            0 <= i < body.len() && stmt_form(#[trigger] body[i], unresolved_mark) is EsModuleMarker;
        assert(rest[i] == body[i]);
    }
    if sets_es_module(rest, unresolved_mark) {
        let i = choose|i: int|
            0 <= i < rest.len() && stmt_form(#[trigger] rest[i], unresolved_mark) is EsModuleMarker;
        assert(rest[i] == body[i]);
    }
    if let Program::Module(items) = after {
        let items_before = before->Module_0;
        assert forall|k: int| 0 <= k < items@.len() implies !decl_tainted(
            #[trigger] items@[k],
            unresolved_mark,
        ) by {
            assert(!decl_tainted(items_before@[k], unresolved_mark));
        }
    }
    let names = export_names(rest, unresolved_mark);
    assert forall|name: Seq<char>| #[trigger] names.contains(name) == exists|i: int|
        0 <= i < body.len() && written_name(#[trigger] body[i], unresolved_mark) == Some(name)
            && !unobservable(before, unresolved_mark, side_effects, usage, i) by {
        if names.contains(name) {
            let k = choose|k: int| 0 <= k < names.len() && names[k] == name;
            let i = lemma_write_comes_from_stmt(rest, unresolved_mark, k);
            assert(rest[i] == body[i]);
            assert(written_name(body[i], unresolved_mark) == Some(name));
        }
        if exists|i: int|
            0 <= i < body.len() && written_name(#[trigger] body[i], unresolved_mark) == Some(name)
                && !unobservable(before, unresolved_mark, side_effects, usage, i) {
            let i = choose|i: int|
                0 <= i < body.len() && written_name(#[trigger] body[i], unresolved_mark) == Some(
                    name,
                ) && !unobservable(before, unresolved_mark, side_effects, usage, i);
            assert(rest[i] == body[i]);
            let k = lemma_write_is_listed(rest, unresolved_mark, i);
            assert(names[k] == name);
        }
    }
}

} // verus!
