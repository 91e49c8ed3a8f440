//! What the analysis of `require` calls guarantees, told from the syntax itself.

use crate::analyzer::{prop_key, read_name, static_name, unparenthesized};
use crate::names::with_name;
use crate::outside::usage_by_id;
use crate::require_properties::{
    binds_last, bound_by, calls_in, consumed_call, last_call_site_counts, last_declaration_counts,
    lemma_below_some_child, lemma_leaf, lemma_use_in_child, resolved_by, resolves_last,
};
use crate::require_usage::{
    binding_usage, bound_at, entry_ids, entry_views, member_usage, members_read, own_use,
    pattern_usage, reports_usage, require_call, require_calls, usage_views, uses, uses_in_all,
    uses_in_children, watched_declaration, watched_object, with_entries, with_use, ExportUsage,
    ExportUsageView, NamespaceUsage, NamespaceUsageView, NamespaceUsageVisitor, Use,
};
use crate::syntax::{
    child_role, children, id_view, lemma_child_is_smaller, preorder, preorder_of_all, roots,
    CallExpr, Id, IdView, Ident, Mark, MemberExpr, MemberProp, Node, Place, Program, Role,
    VarDeclarator,
};
use crate::syntax_properties::{
    every_tree_is_scanned, is_tree_of, nodes_below_are_the_fields, pattern_names_its_keys,
    stands_in, visits_reach_every_node,
};
use vstd::prelude::*;

verus! {

/// A `require` call is a call, in parentheses or at the end of a comma expression, of the identifier
/// `require` that nothing declares, with one argument that is a string literal and not spread.
pub proof fn require_calls_are_spelled_out(expr: Node, unresolved_mark: Mark)
    ensures
        require_call(expr, unresolved_mark) is Some == {
            &&& unparenthesized(expr) is Call
            &&& *unparenthesized(expr)->Call_0.callee is Ident
            &&& (*unparenthesized(expr)->Call_0.callee)->Ident_0.sym@ == "require"@
            &&& (*unparenthesized(expr)->Call_0.callee)->Ident_0.outer == unresolved_mark.number
            &&& unparenthesized(expr)->Call_0.args@.len() == 1
            &&& unparenthesized(unparenthesized(expr)->Call_0.args@[0]) is Lit
            &&& unparenthesized(unparenthesized(expr)->Call_0.args@[0])->Lit_0 is Str
        },
        require_call(expr, unresolved_mark) matches Some(call) ==> unparenthesized(expr)
            == Node::Call(call),
{
}

/// A pattern that takes a `require` result apart uses as many members as it has elements, the `k`-th
/// being the key of the `k`-th element, with or without a default value. Where one element names
/// none, the whole is used.
pub proof fn patterns_use_their_keys(props: Seq<Node>)
    ensures
        match pattern_usage(props) {
            ExportUsageView::PartialNamespaceObject(names) => {
                &&& names.len() == props.len()
                &&& forall|k: int|
                    0 <= k < props.len() ==> prop_key(props[k]) == Some(#[trigger] names[k])
            },
            ExportUsageView::All => exists|k: int|
                0 <= k < props.len() && prop_key(#[trigger] props[k]) is None,
        },
{
    pattern_names_its_keys(props);
}

/// A member access to a `require` result uses that member where its name is read, and the whole
/// where it is written or the source names none.
pub proof fn accesses_use_their_member(member: MemberExpr, role: Role)
    ensures
        role is Written || static_name(member.prop) is None ==> member_usage(member, role) is All,
        !(role is Written) ==> (static_name(member.prop) matches Some(name) ==> member_usage(
            member,
            role,
        ) == ExportUsageView::PartialNamespaceObject(seq![name])),
{
}

/// Whether `node` stands anywhere in `program`.
pub open spec fn stands_in_program(program: Program, node: Node) -> bool {
    exists|tree: Node| #[trigger] is_tree_of(program, tree) && stands_in(tree, node)
}

/// All nodes that stand in `program`, each in its role, in source order.
pub open spec fn places(program: Program) -> Seq<Place> {
    preorder_of_all(roots(program))
}

/// Where a tree is listed among the nodes of `trees`.
proof fn lemma_tree_is_listed(trees: Seq<Node>, i: int) -> (start: int)
    requires
        0 <= i < trees.len(),
    ensures
        0 <= start,
        start + preorder(trees[i], Role::Plain).len() <= preorder_of_all(trees).len(),
        forall|l: int|
            0 <= l < preorder(trees[i], Role::Plain).len() ==> preorder_of_all(trees)[start + l]
                == #[trigger] preorder(trees[i], Role::Plain)[l],
    decreases trees.len(),
{
    if i < trees.len() - 1 {
        assert(trees.drop_last()[i] == trees[i]);
        lemma_tree_is_listed(trees.drop_last(), i)
    } else {
        preorder_of_all(trees.drop_last()).len() as int
    }
}

/// The tree in which the node listed at `k` stands.
proof fn lemma_listed_in_tree(trees: Seq<Node>, k: int) -> (place: (int, int))
    requires
        0 <= k < preorder_of_all(trees).len(),
    ensures
        0 <= place.0 < trees.len(),
        0 <= place.1 < preorder(trees[place.0], Role::Plain).len(),
        preorder(trees[place.0], Role::Plain)[place.1] == preorder_of_all(trees)[k],
    decreases trees.len(),
{
    let before = preorder_of_all(trees.drop_last());
    if k < before.len() {
        let (i, l) = lemma_listed_in_tree(trees.drop_last(), k);
        assert(trees.drop_last()[i] == trees[i]);
        (i, l)
    } else {
        (trees.len() - 1, k - before.len())
    }
}

/// A scan of a program reaches every node that stands in it, and no other.
pub proof fn scans_reach_the_whole_program(program: Program, node: Node)
    ensures
        stands_in_program(program, node) == exists|k: int|
            0 <= k < places(program).len() && (#[trigger] places(program)[k]).node == node,
{
    let trees = roots(program);
    let all = places(program);
    if stands_in_program(program, node) {
        let tree = choose|tree: Node| #[trigger]
            is_tree_of(program, tree) && stands_in(tree, node);
        every_tree_is_scanned(program, tree);
        let i = choose|i: int| 0 <= i < trees.len() && trees[i] == tree;
        visits_reach_every_node(tree, Role::Plain, node);
        let l = choose|l: int|
            0 <= l < preorder(tree, Role::Plain).len() && (#[trigger] preorder(
                tree,
                Role::Plain,
            )[l]).node == node;
        let start = lemma_tree_is_listed(trees, i);
        assert(all[start + l].node == node);
    }
    if exists|k: int| 0 <= k < all.len() && (#[trigger] all[k]).node == node {
        let k = choose|k: int| 0 <= k < all.len() && (#[trigger] all[k]).node == node;
        let (i, l) = lemma_listed_in_tree(trees, k);
        let tree = trees[i];
        assert(preorder(tree, Role::Plain)[l].node == node);
        visits_reach_every_node(tree, Role::Plain, node);
        assert(trees.contains(tree));
        every_tree_is_scanned(program, tree);
    }
}

/// Whether `node` declares `id` as a plain name and gives it the result of the `require` call at
/// `span_lo`.
pub open spec fn binds(node: Node, id: IdView, span_lo: u32, unresolved_mark: Mark) -> bool {
    &&& node matches Node::VarDeclarator(declarator)
    &&& *declarator.name matches Node::Ident(binding)
    &&& binding.sym@ == id.0
    &&& binding.ctxt == id.1
    &&& declarator.init matches Some(init)
    &&& require_call(*init, unresolved_mark) matches Some(call)
    &&& call.span_lo == span_lo
}

/// Whether `program` binds `id` to the result of the `require` call at `span_lo`, binds `id` to no
/// other call, and binds nothing else to that call.
pub open spec fn is_only_binding(
    program: Program,
    id: IdView,
    span_lo: u32,
    unresolved_mark: Mark,
) -> bool {
    &&& exists|node: Node| #[trigger]
        stands_in_program(program, node) && binds(node, id, span_lo, unresolved_mark)
    &&& forall|node: Node, other: IdView, position: u32|
        #![trigger stands_in_program(program, node), binds(node, other, position, unresolved_mark)]
        stands_in_program(program, node) && binds(node, other, position, unresolved_mark) && (other
            == id || position == span_lo) ==> other == id && position == span_lo
}

/// The last of `nodes` that binds `id`, if one does.
proof fn lemma_last_binder(nodes: Seq<Place>, unresolved_mark: Mark, id: IdView, k: int) -> (l: int)
    requires
        0 <= k < nodes.len(),
        bound_by(nodes[k], unresolved_mark) matches Some((bound, _)) && bound == id,
    ensures
        k <= l,
        binds_last(nodes, unresolved_mark, id, l),
    decreases nodes.len() - k,
{
    if exists|l: int|
        k < l < nodes.len() && (bound_by(#[trigger] nodes[l], unresolved_mark) matches Some(
            (bound, _),
        ) && bound == id) {
        let l = choose|l: int|
            k < l < nodes.len() && (bound_by(#[trigger] nodes[l], unresolved_mark) matches Some(
                (bound, _),
            ) && bound == id);
        lemma_last_binder(nodes, unresolved_mark, id, l)
    } else {
        k
    }
}

/// The last of `nodes` that shows the use of the call at `span_lo`, if one does.
proof fn lemma_last_resolver(
    nodes: Seq<Place>,
    unresolved_mark: Mark,
    span_lo: u32,
    k: int,
) -> (l: int)
    requires
        0 <= k < nodes.len(),
        resolved_by(nodes[k], unresolved_mark) matches Some((position, _)) && position == span_lo,
    ensures
        k <= l,
        resolves_last(nodes, unresolved_mark, span_lo, l),
    decreases nodes.len() - k,
{
    if exists|l: int|
        k < l < nodes.len() && (resolved_by(#[trigger] nodes[l], unresolved_mark) matches Some(
            (position, _),
        ) && position == span_lo) {
        let l = choose|l: int|
            k < l < nodes.len() && (resolved_by(#[trigger] nodes[l], unresolved_mark) matches Some(
                (position, _),
            ) && position == span_lo);
        lemma_last_resolver(nodes, unresolved_mark, span_lo, l)
    } else {
        k
    }
}

/// A node that is listed as binding stands in the program and binds.
proof fn lemma_listed_binder(program: Program, unresolved_mark: Mark, id: IdView, span_lo: u32)
    ensures
        require_calls(program, unresolved_mark).bindings.contains_pair(id, span_lo)
            ==> exists|node: Node| #[trigger]
            stands_in_program(program, node) && binds(node, id, span_lo, unresolved_mark),
{
    let nodes = places(program);
    let calls = require_calls(program, unresolved_mark);
    assert(calls == calls_in(nodes, unresolved_mark));
    if calls.bindings.contains_pair(id, span_lo) {
        last_declaration_counts(nodes, unresolved_mark, id, span_lo);
        let k = choose|k: int| #[trigger]
            binds_last(nodes, unresolved_mark, id, k) && bound_by(nodes[k], unresolved_mark)
                == Some((id, span_lo));
        let node = nodes[k].node;
        scans_reach_the_whole_program(program, node);
        assert(binds(node, id, span_lo, unresolved_mark));
    }
}

/// Where one binding and one call belong together and to no other, the report says at the position
/// of the call how the binding is used.
proof fn lemma_only_binding(
    program: Program,
    unresolved_mark: Mark,
    result: Map<u32, ExportUsageView>,
    id: IdView,
    span_lo: u32,
)
    requires
        reports_usage(program, require_calls(program, unresolved_mark), result),
        is_only_binding(program, id, span_lo, unresolved_mark),
    ensures
        require_calls(program, unresolved_mark).bindings.contains_pair(id, span_lo),
        result.contains_pair(
            span_lo,
            binding_usage(
                uses_in_all(roots(program), require_calls(program, unresolved_mark).bindings.dom()),
                id,
            ),
        ),
{
    let nodes = places(program);
    let calls = require_calls(program, unresolved_mark);
    assert(calls == calls_in(nodes, unresolved_mark));
    let node = choose|node: Node| #[trigger]
        stands_in_program(program, node) && binds(node, id, span_lo, unresolved_mark);
    scans_reach_the_whole_program(program, node);
    let k = choose|k: int| 0 <= k < nodes.len() && (#[trigger] nodes[k]).node == node;
    assert(bound_by(nodes[k], unresolved_mark) == Some((id, span_lo)));
    let l = lemma_last_binder(nodes, unresolved_mark, id, k);
    let last = nodes[l].node;
    scans_reach_the_whole_program(program, last);
    let position = (bound_by(nodes[l], unresolved_mark)->0).1;
    assert(binds(last, id, position, unresolved_mark));
    assert(position == span_lo);
    last_declaration_counts(nodes, unresolved_mark, id, span_lo);
    assert(calls.bindings.contains_pair(id, span_lo));
    assert(bound_at(calls.bindings, span_lo));
    assert(result.contains_key(span_lo));
    let other = choose|other: IdView| #[trigger]
        calls.bindings.contains_pair(other, span_lo) && result[span_lo] == binding_usage(
            uses_in_all(roots(program), calls.bindings.dom()),
            other,
        );
    lemma_listed_binder(program, unresolved_mark, other, span_lo);
    let binder = choose|binder: Node| #[trigger]
        stands_in_program(program, binder) && binds(binder, other, span_lo, unresolved_mark);
    assert(other == id);
}

/// The uses in a node that stands in `tree`, and is no bare identifier, are uses in `tree`.
proof fn lemma_uses_of_part(tree: Node, role: Role, watched: Set<IdView>, k: int, used: Use)
    requires
        0 <= k < preorder(tree, role).len(),
        !(preorder(tree, role)[k].node is Ident),
        uses(preorder(tree, role)[k].node, preorder(tree, role)[k].role, watched).contains(used),
    ensures
        uses(tree, role, watched).contains(used),
    decreases tree,
{
    if k > 0 {
        let n = children(tree).len();
        let (j, l) = lemma_below_some_child(tree, role, n, k - 1);
        let child = children(tree)[j];
        let inner = child_role(tree, j, role);
        let part = preorder(tree, role)[k];
        lemma_child_is_smaller(tree, j);
        if child is Ident {
            assert(children(child) =~= seq![]);
            lemma_leaf(child, inner);
        }
        lemma_uses_of_part(child, inner, watched, l, used);
        let all = uses(tree, role, watched);
        match tree {
            Node::Member(member) if watched_object(member, watched) is Some => {
                assert(j == 1);
                if read_name(member, role) is Some {
                    assert(children(child) =~= seq![]);
                    assert(uses_in_children(child, inner, 0, watched) =~= seq![]);
                    assert(uses(child, inner, watched) =~= seq![]);
                } else {
                    let rest = uses(child, inner, watched);
                    let i = choose|i: int| 0 <= i < rest.len() && rest[i] == used;
                    assert(all[i + 1] == used);
                }
            },
            Node::VarDeclarator(declarator) if watched_declaration(
                declarator,
                role,
                watched,
            ) is Some => {
                assert(j == 1);
            },
            _ => {
                lemma_use_in_child(tree, role, j, n, watched, used);
                let below = uses_in_children(tree, role, n, watched);
                let i = choose|i: int| 0 <= i < below.len() && below[i] == used;
                assert(all[own_use(tree, watched).len() + i] == used);
            },
        }
    }
}

/// A use in one of `trees` is a use in all.
proof fn lemma_use_in_tree(trees: Seq<Node>, i: int, watched: Set<IdView>, used: Use)
    requires
        0 <= i < trees.len(),
        uses(trees[i], Role::Plain, watched).contains(used),
    ensures
        uses_in_all(trees, watched).contains(used),
    decreases trees.len(),
{
    let all = uses_in_all(trees, watched);
    let rest = trees.drop_last();
    let before = uses_in_all(rest, watched);
    if i < trees.len() - 1 {
        assert(rest[i] == trees[i]);
        lemma_use_in_tree(rest, i, watched, used);
        let k = choose|k: int| 0 <= k < before.len() && before[k] == used;
        assert(all[k] == used);
    } else {
        let last = uses(trees[i], Role::Plain, watched);
        let k = choose|k: int| 0 <= k < last.len() && last[k] == used;
        assert(all[before.len() + k] == used);
    }
}

/// A use that a node shows wherever it stands is a use in the program.
proof fn lemma_use_in_program(program: Program, node: Node, watched: Set<IdView>, used: Use)
    requires
        stands_in_program(program, node),
        !(node is Ident),
        forall|role: Role| #[trigger] uses(node, role, watched).contains(used),
    ensures
        uses_in_all(roots(program), watched).contains(used),
{
    let trees = roots(program);
    scans_reach_the_whole_program(program, node);
    let k = choose|k: int| 0 <= k < places(program).len() && (#[trigger] places(program)[k]).node
        == node;
    let (i, l) = lemma_listed_in_tree(trees, k);
    let place = preorder(trees[i], Role::Plain)[l];
    assert(uses(place.node, place.role, watched).contains(used));
    lemma_uses_of_part(trees[i], Role::Plain, watched, l, used);
    lemma_use_in_tree(trees, i, watched, used);
}

/// Whether `parent` holds, as its child `k`, the identifier `object` in a place where it stands for
/// the whole: anywhere but as the object of a member access or as the name of a declarator.
pub open spec fn holds_bare(parent: Node, k: int, object: Ident) -> bool {
    &&& 0 <= k < children(parent).len()
    &&& children(parent)[k] == Node::Ident(object)
    &&& !(parent is Member && k == 0)
    &&& !(parent is VarDeclarator && k == 0)
}

/// A watched identifier that stands bare in a node escapes there, whatever is done to the node.
proof fn lemma_bare_escapes(parent: Node, k: int, object: Ident, role: Role, watched: Set<IdView>)
    requires
        holds_bare(parent, k, object),
        watched.contains(object.id()),
    ensures
        uses(parent, role, watched).contains(Use::Escape { id: object.id() }),
{
    let ident = Node::Ident(object);
    let escape = Use::Escape { id: object.id() };
    let inner = child_role(parent, k, role);
    let n = children(parent).len();
    let all = uses(parent, role, watched);
    assert(children(ident) =~= seq![]);
    assert(uses_in_children(ident, inner, 0, watched) =~= seq![]);
    assert(uses(ident, inner, watched) =~= seq![escape]);
    assert(uses(ident, inner, watched)[0] == escape);
    match parent {
        Node::Member(member) if watched_object(member, watched) is Some => {
            assert(all[1] == escape);
        },
        Node::VarDeclarator(declarator) if watched_declaration(
            declarator,
            role,
            watched,
        ) is Some => {},
        _ => {
            lemma_use_in_child(parent, role, k, n, watched, escape);
            let below = uses_in_children(parent, role, n, watched);
            let i = choose|i: int| 0 <= i < below.len() && below[i] == escape;
            assert(all[own_use(parent, watched).len() + i] == escape);
        },
    }
}

/// Deny by default: where a binding of a `require` result stands bare, in whatever syntax and at
/// whatever depth, the whole namespace is reported as used.
pub proof fn bare_references_use_all(
    program: Program,
    unresolved_mark: Mark,
    result: Map<u32, ExportUsageView>,
    object: Ident,
    span_lo: u32,
    parent: Node,
    k: int,
)
    requires
        reports_usage(program, require_calls(program, unresolved_mark), result),
        is_only_binding(program, (object.sym@, object.ctxt), span_lo, unresolved_mark),
        stands_in_program(program, parent),
        holds_bare(parent, k, object),
    ensures
        result.contains_pair(span_lo, ExportUsageView::All),
{
    let watched = require_calls(program, unresolved_mark).bindings.dom();
    lemma_only_binding(program, unresolved_mark, result, object.id(), span_lo);
    let escape = Use::Escape { id: object.id() };
    assert forall|role: Role| #[trigger] uses(parent, role, watched).contains(escape) by {
        lemma_bare_escapes(parent, k, object, role, watched);
    }
    if parent is Ident {
        assert(children(parent) =~= seq![]);
    }
    lemma_use_in_program(program, parent, watched, escape);
}

/// A binding of a `require` result that is handed to a call, as whichever of its arguments, is used
/// as a whole.
pub proof fn arguments_use_all(
    program: Program,
    unresolved_mark: Mark,
    result: Map<u32, ExportUsageView>,
    object: Ident,
    span_lo: u32,
    call: CallExpr,
    k: int,
)
    requires
        reports_usage(program, require_calls(program, unresolved_mark), result),
        is_only_binding(program, (object.sym@, object.ctxt), span_lo, unresolved_mark),
        stands_in_program(program, Node::Call(call)),
        0 <= k < call.args@.len(),
        call.args@[k] == Node::Ident(object),
    ensures
        result.contains_pair(span_lo, ExportUsageView::All),
{
    nodes_below_are_the_fields(Node::Call(call));
    bare_references_use_all(
        program,
        unresolved_mark,
        result,
        object,
        span_lo,
        Node::Call(call),
        k + 1,
    );
}

/// The expression that `node` assigns to, updates or deletes.
pub open spec fn written_by(node: Node) -> Option<Node> {
    match node {
        Node::Assign(assign) => Some(*assign.left),
        Node::Update(inner) | Node::Delete(inner) | Node::PatExpr(inner) => Some(*inner),
        _ => None,
    }
}

/// A binding of a `require` result of which a member is assigned to, updated or deleted, be it under
/// a static name or not, is used as a whole.
pub proof fn written_members_use_all(
    program: Program,
    unresolved_mark: Mark,
    result: Map<u32, ExportUsageView>,
    object: Ident,
    span_lo: u32,
    writer: Node,
    member: MemberExpr,
)
    requires
        reports_usage(program, require_calls(program, unresolved_mark), result),
        is_only_binding(program, (object.sym@, object.ctxt), span_lo, unresolved_mark),
        stands_in_program(program, writer),
        written_by(writer) == Some(Node::Member(member)),
        *member.obj == Node::Ident(object),
    ensures
        result.contains_pair(span_lo, ExportUsageView::All),
{
    let watched = require_calls(program, unresolved_mark).bindings.dom();
    lemma_only_binding(program, unresolved_mark, result, object.id(), span_lo);
    let escape = Use::Escape { id: object.id() };
    nodes_below_are_the_fields(writer);
    assert forall|role: Role| #[trigger] uses(writer, role, watched).contains(escape) by {
        let inner = uses(Node::Member(member), Role::Written, watched);
        assert(inner[0] == escape);
        let n = children(writer).len();
        lemma_use_in_child(writer, role, 0, n, watched, escape);
        let below = uses_in_children(writer, role, n, watched);
        let i = choose|i: int| 0 <= i < below.len() && below[i] == escape;
        assert(uses(writer, role, watched)[own_use(writer, watched).len() + i] == escape);
    }
    lemma_use_in_program(program, writer, watched, escape);
}

/// A binding of a `require` result that is exported where it is declared is used as a whole.
pub proof fn exported_declarations_use_all(
    program: Program,
    unresolved_mark: Mark,
    result: Map<u32, ExportUsageView>,
    object: Ident,
    span_lo: u32,
    parts: Vec<Node>,
    k: int,
    declarator: VarDeclarator,
)
    requires
        reports_usage(program, require_calls(program, unresolved_mark), result),
        is_only_binding(program, (object.sym@, object.ctxt), span_lo, unresolved_mark),
        stands_in_program(program, Node::ExportDecl(parts)),
        0 <= k < parts@.len(),
        parts@[k] == Node::VarDeclarator(declarator),
        *declarator.name == Node::Ident(object),
    ensures
        result.contains_pair(span_lo, ExportUsageView::All),
{
    let watched = require_calls(program, unresolved_mark).bindings.dom();
    lemma_only_binding(program, unresolved_mark, result, object.id(), span_lo);
    let escape = Use::Escape { id: object.id() };
    let export = Node::ExportDecl(parts);
    let child = Node::VarDeclarator(declarator);
    nodes_below_are_the_fields(export);
    nodes_below_are_the_fields(child);
    let ident = Node::Ident(object);
    assert(children(ident) =~= seq![]);
    assert(uses_in_children(ident, Role::Plain, 0, watched) =~= seq![]);
    assert(uses(ident, Role::Plain, watched) =~= seq![escape]);
    assert(uses(ident, Role::Plain, watched)[0] == escape);
    let n = children(child).len();
    lemma_use_in_child(child, Role::Exported, 0, n, watched, escape);
    let names = uses_in_children(child, Role::Exported, n, watched);
    let i = choose|i: int| 0 <= i < names.len() && names[i] == escape;
    assert(uses(child, Role::Exported, watched)[own_use(child, watched).len() + i] == escape);
    assert forall|role: Role| #[trigger] uses(export, role, watched).contains(escape) by {
        let m = children(export).len();
        lemma_use_in_child(export, role, k, m, watched, escape);
        let below = uses_in_children(export, role, m, watched);
        let l = choose|l: int| 0 <= l < below.len() && below[l] == escape;
        assert(uses(export, role, watched)[own_use(export, watched).len() + l] == escape);
    }
    lemma_use_in_program(program, export, watched, escape);
}

/// The uses in a node are told by its syntax. A member access to a watched binding is a read of the
/// member that it names, or else an escape, and then what its key holds counts too. A declaration of
/// a watched binding that is not exported counts for its initializer alone. Any other node counts
/// for the binding that it names itself and, child by child, for what stands below it.
pub proof fn uses_are_told_by_the_syntax(node: Node, role: Role, watched: Set<IdView>)
    ensures
        match node {
            Node::Member(member) if *member.obj is Ident && watched.contains(
                (*member.obj)->Ident_0.id(),
            ) => if !(role is Written) && static_name(member.prop) is Some {
                uses(node, role, watched) == seq![
                    Use::Member {
                        id: (*member.obj)->Ident_0.id(),
                        name: static_name(member.prop)->0,
                    },
                ]
            } else {
                uses(node, role, watched) == seq![
                    Use::Escape { id: (*member.obj)->Ident_0.id() },
                ] + match member.prop {
                    MemberProp::Computed(key) => uses(*key, Role::Plain, watched),
                    _ => Seq::<Use>::empty(),
                }
            },
            Node::VarDeclarator(declarator) if *declarator.name is Ident && watched.contains(
                (*declarator.name)->Ident_0.id(),
            ) && !(role is Exported) => uses(node, role, watched) == match declarator.init {
                Some(init) => uses(*init, Role::Plain, watched),
                None => Seq::<Use>::empty(),
            },
            _ => uses(node, role, watched) == (match node {
                Node::Ident(ident) if watched.contains(ident.id()) => seq![
                    Use::Escape { id: ident.id() },
                ],
                Node::AssignPatProp(prop) if watched.contains(prop.key.id()) => seq![
                    Use::Escape { id: prop.key.id() },
                ],
                _ => Seq::<Use>::empty(),
            }) + Seq::new(
                children(node).len(),
                |k: int| uses(children(node)[k], child_role(node, k, role), watched),
            ).flatten(),
        },
{
    lemma_uses_flattened(node, role, children(node).len(), watched);
}

proof fn lemma_uses_flattened(node: Node, role: Role, n: nat, watched: Set<IdView>)
    requires
        n <= children(node).len(),
    ensures
        uses_in_children(node, role, n, watched) == Seq::new(
            n,
            |k: int| uses(children(node)[k], child_role(node, k, role), watched),
        ).flatten(),
    decreases n,
{
    let parts = Seq::new(
        n,
        |k: int| uses(children(node)[k], child_role(node, k, role), watched),
    );
    if n > 0 {
        lemma_uses_flattened(node, role, (n - 1) as nat, watched);
        let before = Seq::new(
            (n - 1) as nat,
            |k: int| uses(children(node)[k], child_role(node, k, role), watched),
        );
        before.lemma_flatten_push(parts[n - 1]);
        assert(before.push(parts[n - 1]) =~= parts);
    }
}

/// The uses in a program are those of its trees, tree by tree.
pub proof fn uses_go_tree_by_tree(trees: Seq<Node>, watched: Set<IdView>)
    ensures
        uses_in_all(trees, watched) == trees.map_values(
            |tree: Node| uses(tree, Role::Plain, watched),
        ).flatten(),
    decreases trees.len(),
{
    let parts = trees.map_values(|tree: Node| uses(tree, Role::Plain, watched));
    if trees.len() > 0 {
        let rest = trees.drop_last();
        uses_go_tree_by_tree(rest, watched);
        let before = rest.map_values(|tree: Node| uses(tree, Role::Plain, watched));
        before.lemma_flatten_push(uses(trees.last(), Role::Plain, watched));
        assert(before.push(uses(trees.last(), Role::Plain, watched)) =~= parts);
    }
}

/// A call whose result is taken apart or accessed in one place alone, and bound nowhere, is reported
/// as that place shows it: the keys of an object pattern, the member that is read, or the whole.
pub proof fn call_sites_are_reported(
    program: Program,
    unresolved_mark: Mark,
    result: Map<u32, ExportUsageView>,
    k: int,
    span_lo: u32,
)
    requires
        reports_usage(program, require_calls(program, unresolved_mark), result),
        0 <= k < places(program).len(),
        consumed_call(places(program)[k], unresolved_mark) matches Some(call) && call.span_lo
            == span_lo,
        forall|l: int|
            0 <= l < places(program).len() && (consumed_call(
                #[trigger] places(program)[l],
                unresolved_mark,
            ) matches Some(call) && call.span_lo == span_lo) ==> places(program)[l] == places(
                program,
            )[k],
    ensures
        match places(program)[k].node {
            Node::VarDeclarator(declarator) => match *declarator.name {
                Node::Ident(_) => true,
                Node::ObjectPat(props) => {
                    &&& result.contains_key(span_lo)
                    &&& match result[span_lo] {
                        ExportUsageView::PartialNamespaceObject(names) => {
                            &&& names.len() == props@.len()
                            &&& forall|j: int|
                                0 <= j < props@.len() ==> prop_key(props@[j]) == Some(
                                    #[trigger] names[j],
                                )
                        },
                        ExportUsageView::All => exists|j: int|
                            0 <= j < props@.len() && prop_key(#[trigger] props@[j]) is None,
                    }
                },
                _ => result.contains_pair(span_lo, ExportUsageView::All),
            },
            Node::Member(member) => {
                &&& result.contains_key(span_lo)
                &&& if places(program)[k].role is Written || static_name(member.prop) is None {
                    result[span_lo] is All
                } else {
                    result[span_lo] == ExportUsageView::PartialNamespaceObject(
                        seq![static_name(member.prop)->0],
                    )
                }
            },
            _ => false,
        },
{
    let nodes = places(program);
    let calls = require_calls(program, unresolved_mark);
    assert(calls == calls_in(nodes, unresolved_mark));
    if resolved_by(nodes[k], unresolved_mark) is Some {
        let l = lemma_last_resolver(nodes, unresolved_mark, span_lo, k);
        assert(consumed_call(nodes[l], unresolved_mark) is Some);
        let usage = (resolved_by(nodes[l], unresolved_mark)->0).1;
        last_call_site_counts(nodes, unresolved_mark, span_lo, usage);
        assert(calls.resolved.contains_pair(span_lo, usage));
        assert(result.contains_key(span_lo));
        if bound_at(calls.bindings, span_lo) {
            let id = choose|id: IdView| #[trigger] calls.bindings.contains_pair(id, span_lo);
            last_declaration_counts(nodes, unresolved_mark, id, span_lo);
            let j = choose|j: int| #[trigger]
                binds_last(nodes, unresolved_mark, id, j) && bound_by(nodes[j], unresolved_mark)
                    == Some((id, span_lo));
            assert(consumed_call(nodes[j], unresolved_mark) is Some);
            assert(nodes[j] == nodes[k]);
        }
        if let Node::VarDeclarator(declarator) = nodes[k].node {
            if let Node::ObjectPat(props) = *declarator.name {
                patterns_use_their_keys(props@);
            }
        }
        if let Node::Member(member) = nodes[k].node {
            accesses_use_their_member(member, nodes[k].role);
        }
    }
}

/// A position is reported exactly if a node takes the result of a call there apart or accesses it,
/// or is the last to declare a name and gives it the result of a call there.
pub proof fn consumed_calls_are_reported(
    program: Program,
    unresolved_mark: Mark,
    result: Map<u32, ExportUsageView>,
    span_lo: u32,
)
    requires
        reports_usage(program, require_calls(program, unresolved_mark), result),
    ensures
        result.contains_key(span_lo) == {
            ||| exists|k: int|
                0 <= k < places(program).len() && (resolved_by(
                    #[trigger] places(program)[k],
                    unresolved_mark,
                ) matches Some((position, _)) && position == span_lo)
            ||| exists|id: IdView, k: int| #[trigger]
                binds_last(places(program), unresolved_mark, id, k) && bound_by(
                    places(program)[k],
                    unresolved_mark,
                ) == Some((id, span_lo))
        },
{
    let nodes = places(program);
    let calls = require_calls(program, unresolved_mark);
    assert(calls == calls_in(nodes, unresolved_mark));
    if exists|k: int|
        0 <= k < nodes.len() && (resolved_by(#[trigger] nodes[k], unresolved_mark) matches Some(
            (position, _),
        ) && position == span_lo) {
        let k = choose|k: int|
            0 <= k < nodes.len() && (resolved_by(#[trigger] nodes[k], unresolved_mark) matches Some(
                (position, _),
            ) && position == span_lo);
        let l = lemma_last_resolver(nodes, unresolved_mark, span_lo, k);
        let usage = (resolved_by(nodes[l], unresolved_mark)->0).1;
        last_call_site_counts(nodes, unresolved_mark, span_lo, usage);
        assert(calls.resolved.contains_pair(span_lo, usage));
    }
    if exists|id: IdView, k: int| #[trigger]
        binds_last(nodes, unresolved_mark, id, k) && bound_by(nodes[k], unresolved_mark) == Some(
            (id, span_lo),
        ) {
        let (id, k) = choose|id: IdView, k: int| #[trigger]
            binds_last(nodes, unresolved_mark, id, k) && bound_by(nodes[k], unresolved_mark)
                == Some((id, span_lo));
        last_declaration_counts(nodes, unresolved_mark, id, span_lo);
        assert(calls.bindings.contains_pair(id, span_lo));
        assert(bound_at(calls.bindings, span_lo));
    }
    if calls.resolved.contains_key(span_lo) {
        let usage = calls.resolved[span_lo];
        last_call_site_counts(nodes, unresolved_mark, span_lo, usage);
        let k = choose|k: int| #[trigger]
            resolves_last(nodes, unresolved_mark, span_lo, k) && resolved_by(
                nodes[k],
                unresolved_mark,
            ) == Some((span_lo, usage));
        assert(resolved_by(nodes[k], unresolved_mark) is Some);
    }
    if bound_at(calls.bindings, span_lo) {
        let id = choose|id: IdView| #[trigger] calls.bindings.contains_pair(id, span_lo);
        last_declaration_counts(nodes, unresolved_mark, id, span_lo);
        let k = choose|k: int| #[trigger]
            binds_last(nodes, unresolved_mark, id, k) && bound_by(nodes[k], unresolved_mark)
                == Some((id, span_lo));
        assert(binds_last(nodes, unresolved_mark, id, k));
    }
}

/// Where no binding goes with a position, the last node that shows the use of the call there counts.
/// Where bindings do, the use of one of them is reported, whatever the call sites show.
pub proof fn bindings_count_before_call_sites(
    program: Program,
    unresolved_mark: Mark,
    result: Map<u32, ExportUsageView>,
    span_lo: u32,
)
    requires
        reports_usage(program, require_calls(program, unresolved_mark), result),
        result.contains_key(span_lo),
    ensures
        ({
            let nodes = places(program);
            let used = uses_in_all(
                roots(program),
                require_calls(program, unresolved_mark).bindings.dom(),
            );
            let bound = exists|id: IdView, k: int| #[trigger]
                binds_last(nodes, unresolved_mark, id, k) && bound_by(nodes[k], unresolved_mark)
                    == Some((id, span_lo));
            if bound {
                exists|id: IdView, k: int| #[trigger]
                    binds_last(nodes, unresolved_mark, id, k) && bound_by(
                        nodes[k],
                        unresolved_mark,
                    ) == Some((id, span_lo)) && result[span_lo] == binding_usage(used, id)
            } else {
                exists|k: int| #[trigger]
                    resolves_last(nodes, unresolved_mark, span_lo, k) && resolved_by(
                        nodes[k],
                        unresolved_mark,
                    ) == Some((span_lo, result[span_lo]))
            }
        }),
        forall|id: IdView| #[trigger]
            require_calls(program, unresolved_mark).bindings.contains_key(id) == exists|k: int|
                #[trigger] binds_last(places(program), unresolved_mark, id, k),
{
    let nodes = places(program);
    let calls = require_calls(program, unresolved_mark);
    assert(calls == calls_in(nodes, unresolved_mark));
    assert forall|id: IdView| #[trigger] calls.bindings.contains_key(id) == exists|k: int|
        #[trigger] binds_last(nodes, unresolved_mark, id, k) by {
        if calls.bindings.contains_key(id) {
            let position = calls.bindings[id];
            last_declaration_counts(nodes, unresolved_mark, id, position);
        }
        if exists|k: int| #[trigger] binds_last(nodes, unresolved_mark, id, k) {
            let k = choose|k: int| #[trigger] binds_last(nodes, unresolved_mark, id, k);
            let position = (bound_by(nodes[k], unresolved_mark)->0).1;
            last_declaration_counts(nodes, unresolved_mark, id, position);
            assert(calls.bindings.contains_pair(id, position));
        }
    }
    if bound_at(calls.bindings, span_lo) {
        let id = choose|id: IdView| #[trigger]
            calls.bindings.contains_pair(id, span_lo) && result[span_lo] == binding_usage(
                uses_in_all(roots(program), calls.bindings.dom()),
                id,
            );
        last_declaration_counts(nodes, unresolved_mark, id, span_lo);
        let k = choose|k: int| #[trigger]
            binds_last(nodes, unresolved_mark, id, k) && bound_by(nodes[k], unresolved_mark)
                == Some((id, span_lo));
        assert(binds_last(nodes, unresolved_mark, id, k));
    } else {
        assert forall|id: IdView, k: int| #[trigger]
            binds_last(nodes, unresolved_mark, id, k) implies bound_by(nodes[k], unresolved_mark)
            != Some((id, span_lo)) by {
            last_declaration_counts(nodes, unresolved_mark, id, span_lo);
            if bound_by(nodes[k], unresolved_mark) == Some((id, span_lo)) {
                assert(calls.bindings.contains_pair(id, span_lo));
            }
        }
        last_call_site_counts(nodes, unresolved_mark, span_lo, result[span_lo]);
    }
}

/// What a node tells of the calls goes by the call that it consumes: which call that is, where it
/// stands, and what the node does with its result.
pub proof fn consumption_is_told_by_the_syntax(place: Place, unresolved_mark: Mark)
    ensures
        bound_by(place, unresolved_mark) == match place.node {
            Node::VarDeclarator(declarator) => if *declarator.name is Ident && declarator.init
                is Some && require_call(*declarator.init->0, unresolved_mark) is Some {
                Some(
                    (
                        (
                            (*declarator.name)->Ident_0.sym@,
                            (*declarator.name)->Ident_0.ctxt,
                        ),
                        require_call(*declarator.init->0, unresolved_mark)->0.span_lo,
                    ),
                )
            } else {
                None
            },
            _ => None::<(IdView, u32)>,
        },
        resolved_by(place, unresolved_mark) is Some == match place.node {
            Node::VarDeclarator(declarator) => !(*declarator.name is Ident) && declarator.init
                is Some && require_call(*declarator.init->0, unresolved_mark) is Some,
            Node::Member(member) => require_call(*member.obj, unresolved_mark) is Some,
            _ => false,
        },
{
}

/// Once a use escapes the whole is used; else exactly the members that are read are, each once, in
/// the order in which they are first read.
pub proof fn members_come_in_source_order(used: Seq<Use>, id: IdView)
    ensures
        binding_usage(used, id) is All == used.contains(Use::Escape { id }),
        binding_usage(used, id) matches ExportUsageView::PartialNamespaceObject(names) ==> {
            &&& names.no_duplicates()
            &&& forall|name: Seq<char>| #[trigger]
                names.contains(name) == used.contains(Use::Member { id, name })
            &&& forall|a: int, b: int|
                0 <= a < b < names.len() ==> #[trigger] read_before(
                    used,
                    id,
                    names[a],
                    names[b],
                )
        },
{
    lemma_members_in_order(used, id);
}

/// Whether `used` reads the member `first` of `id` before it first reads the member `second`.
pub open spec fn read_before(
    used: Seq<Use>,
    id: IdView,
    first: Seq<char>,
    second: Seq<char>,
) -> bool {
    exists|i: int|
        0 <= i < used.len() && #[trigger] used[i] == (Use::Member { id, name: first })
            && !used.take(i).contains(Use::Member { id, name: second })
}

proof fn lemma_members_in_order(used: Seq<Use>, id: IdView)
    ensures
        members_read(used, id).no_duplicates(),
        forall|name: Seq<char>| #[trigger]
            members_read(used, id).contains(name) == used.contains(Use::Member { id, name }),
        forall|a: int, b: int|
            0 <= a < b < members_read(used, id).len() ==> #[trigger] read_before(
                used,
                id,
                members_read(used, id)[a],
                members_read(used, id)[b],
            ),
    decreases used.len(),
{
    let names = members_read(used, id);
    if used.len() > 0 {
        let before = used.drop_last();
        let last = used.len() - 1;
        lemma_members_in_order(before, id);
        let earlier = members_read(before, id);
        assert forall|name: Seq<char>| #[trigger] names.contains(name) == used.contains(
            Use::Member { id, name },
        ) by {
            let read = Use::Member { id, name };
            if earlier.contains(name) {
                let k = choose|k: int| 0 <= k < before.len() && before[k] == read;
                assert(used[k] == read);
                let l = choose|l: int| 0 <= l < earlier.len() && earlier[l] == name;
                assert(names[l] == name);
            }
            if used[last] == read {
                if !earlier.contains(name) {
                    assert(names[earlier.len() as int] == name);
                }
            }
            if used.contains(read) && used[last] != read {
                let k = choose|k: int| 0 <= k < used.len() && used[k] == read;
                assert(before[k] == read);
                assert(before.contains(read));
            }
            if names.contains(name) && !earlier.contains(name) {
                let l = choose|l: int| 0 <= l < names.len() && names[l] == name;
                if l < earlier.len() {
                    assert(earlier[l] == name);
                }
                assert(used[last] == read);
            }
        }
        assert forall|a: int, b: int| 0 <= a < b < names.len() implies #[trigger] read_before(
            used,
            id,
            names[a],
            names[b],
        ) by {
            assert(names[a] == earlier[a]);
            if b < earlier.len() {
                assert(names[b] == earlier[b]);
                assert(read_before(before, id, earlier[a], earlier[b]));
                let i = choose|i: int|
                    0 <= i < before.len() && #[trigger] before[i] == (Use::Member {
                        id,
                        name: earlier[a],
                    }) && !before.take(i).contains(Use::Member { id, name: earlier[b] });
                assert(used[i] == before[i]);
                assert(used.take(i) =~= before.take(i));
            } else {
                let read = Use::Member { id, name: names[b] };
                assert(!earlier.contains(names[b]));
                assert(!before.contains(read));
                assert(earlier.contains(earlier[a]));
                let i = choose|i: int|
                    0 <= i < before.len() && before[i] == (Use::Member { id, name: earlier[a] });
                assert(used[i] == before[i]);
                if used.take(i).contains(read) {
                    let j = choose|j: int| 0 <= j < i && used.take(i)[j] == read;
                    assert(before[j] == read);
                }
            }
        }
    }
}

/// Seeing a use touches the binding that is used and no other, and only where it is known. An escape
/// is noted; a read adds its member to those of a binding that has not escaped, and leaves one that
/// has as it is.
pub proof fn seeing_a_use_touches_one_binding(
    usage: Map<IdView, NamespaceUsageView>,
    used: Use,
    id: IdView,
)
    ensures
        with_use(usage, used).dom() == usage.dom(),
        usage.contains_key(id) ==> with_use(usage, used)[id] == match used {
            Use::Escape { id: other } => if other == id {
                NamespaceUsageView::Escaped
            } else {
                usage[id]
            },
            Use::Member { id: other, name } => match usage[id] {
                NamespaceUsageView::Members(names) if other == id => NamespaceUsageView::Members(
                    with_name(names, name),
                ),
                _ => usage[id],
            },
        },
{
    assert(with_use(usage, used).dom() =~= usage.dom());
}

/// For bindings given in turn, what is reported at a position is the use of the last of them that
/// goes with it.
pub proof fn last_entry_counts(
    resolved: Map<u32, ExportUsageView>,
    entries: Seq<(IdView, u32)>,
    used: Seq<Use>,
    k: int,
)
    requires
        0 <= k < entries.len(),
        forall|l: int| k < l < entries.len() ==> (#[trigger] entries[l]).1 != entries[k].1,
    ensures
        with_entries(resolved, entries, used).contains_key(entries[k].1),
        with_entries(resolved, entries, used)[entries[k].1] == binding_usage(used, entries[k].0),
    decreases entries.len(),
{
    let before = entries.drop_last();
    let last = entries.len() - 1;
    if k < last {
        assert(entries[last].1 != entries[k].1);
        assert forall|l: int| k < l < before.len() implies (#[trigger] before[l]).1
            != before[k].1 by {
            assert(before[l] == entries[l]);
        }
        last_entry_counts(resolved, before, used, k);
    }
}

/// Where none of the bindings given goes with a position, what was known of it stays.
pub proof fn other_positions_keep_their_entries(
    resolved: Map<u32, ExportUsageView>,
    entries: Seq<(IdView, u32)>,
    used: Seq<Use>,
    span_lo: u32,
)
    requires
        forall|k: int| 0 <= k < entries.len() ==> (#[trigger] entries[k]).1 != span_lo,
    ensures
        with_entries(resolved, entries, used).contains_key(span_lo) == resolved.contains_key(
            span_lo,
        ),
        resolved.contains_key(span_lo) ==> with_entries(resolved, entries, used)[span_lo]
            == resolved[span_lo],
    decreases entries.len(),
{
    if entries.len() > 0 {
        let before = entries.drop_last();
        assert forall|k: int| 0 <= k < before.len() implies (#[trigger] before[k]).1 != span_lo by {
            assert(before[k] == entries[k]);
        }
        assert(entries[entries.len() - 1].1 != span_lo);
        other_positions_keep_their_entries(resolved, before, used, span_lo);
    }
}

/// What contracts see of usages and of bindings is all that they hold, one for one.
pub proof fn views_show_everything(
    usage: ExportUsage,
    namespace: NamespaceUsage,
    map: Map<u32, ExportUsage>,
    entries: Seq<(Id, u32)>,
    span_lo: u32,
    id: IdView,
    visitor: NamespaceUsageVisitor,
)
    ensures
        visitor.known() == usage_by_id(visitor.usage),
        visitor.watched() == usage_by_id(visitor.usage).dom(),
        match usage {
            ExportUsage::All => usage@ is All,
            ExportUsage::PartialNamespaceObject(names) => {
                &&& usage@ is PartialNamespaceObject
                &&& usage@->PartialNamespaceObject_0.len() == names@.len()
                &&& forall|k: int|
                    0 <= k < names@.len() ==> #[trigger] usage@->PartialNamespaceObject_0[k]
                        == names@[k]@
            },
        },
        match namespace {
            NamespaceUsage::Escaped => namespace@ is Escaped,
            NamespaceUsage::Members(names) => namespace@ == NamespaceUsageView::Members(names@),
        },
        usage_views(map).contains_key(span_lo) == map.contains_key(span_lo),
        map.contains_key(span_lo) ==> usage_views(map)[span_lo] == map[span_lo]@,
        entry_views(entries).len() == entries.len(),
        forall|k: int|
            0 <= k < entries.len() ==> {
                &&& (#[trigger] entry_views(entries)[k]).0.0 == entries[k].0.0@
                &&& entry_views(entries)[k].0.1 == entries[k].0.1
                &&& entry_views(entries)[k].1 == entries[k].1
            },
        entry_ids(entry_views(entries)).contains(id) == exists|k: int|
            0 <= k < entries.len() && id_view((#[trigger] entries[k]).0) == id,
{
    let ids = entry_views(entries).map_values(|entry: (IdView, u32)| entry.0);
    if entry_ids(entry_views(entries)).contains(id) {
        let k = choose|k: int| 0 <= k < ids.len() && ids[k] == id;
        assert(id_view(entries[k].0) == id);
    }
    if exists|k: int| 0 <= k < entries.len() && id_view((#[trigger] entries[k]).0) == id {
        let k = choose|k: int| 0 <= k < entries.len() && id_view((#[trigger] entries[k]).0) == id;
        assert(ids[k] == id);
        assert(ids.contains(id));
    }
}

} // verus!
