//! What holds of the analysis of `require` calls.

use crate::analyzer::read_name;
use crate::names::with_name;
use crate::require_usage::{
    binding_usage, bound_at, escapes, lemma_with_nodes_split, member_usage, members_read, own_use,
    pattern_usage, reports_usage, require_call, require_calls, uses, uses_in_all, uses_in_children,
    watched_declaration, watched_object, with_nodes, with_uses, ExportUsageView, NamespaceUsageView,
    RequireCalls, Use,
};
use crate::syntax::{
    child_role, children, lemma_child_is_smaller, own_ident, preorder, preorder_of_all,
    preorder_of_children, roots, CallExpr, IdView, Ident, Mark, MemberExpr, MemberProp, ModuleItem,
    Node, Place, Program, Role, Stmt, StmtKind,
};
use vstd::prelude::*;

verus! {

/// The `require` call whose result the node at `place` takes apart or binds.
pub open spec fn consumed_call(place: Place, unresolved_mark: Mark) -> Option<CallExpr> {
    match place.node {
        Node::VarDeclarator(declarator) => match declarator.init {
            Some(init) => require_call(*init, unresolved_mark),
            None => None,
        },
        Node::Member(member) => require_call(*member.obj, unresolved_mark),
        _ => None,
    }
}

/// The binding that the node at `place` gives the result of a `require` call, with the position of
/// the call.
pub open spec fn bound_by(place: Place, unresolved_mark: Mark) -> Option<(IdView, u32)> {
    match place.node {
        Node::VarDeclarator(declarator) => match *declarator.name {
            Node::Ident(binding) => match consumed_call(place, unresolved_mark) {
                Some(call) => Some((binding.id(), call.span_lo)),
                None => None,
            },
            _ => None,
        },
        _ => None,
    }
}

/// The position of the `require` call whose use the node at `place` shows, and that use.
pub open spec fn resolved_by(place: Place, unresolved_mark: Mark) -> Option<(u32, ExportUsageView)> {
    match consumed_call(place, unresolved_mark) {
        Some(call) => match place.node {
            Node::VarDeclarator(declarator) => match *declarator.name {
                Node::Ident(_) => None,
                Node::ObjectPat(props) => Some((call.span_lo, pattern_usage(props@))),
                _ => Some((call.span_lo, ExportUsageView::All)),
            },
            Node::Member(member) => Some((call.span_lo, member_usage(member, place.role))),
            _ => None,
        },
        None => None,
    }
}

/// Whether `nodes[k]` binds `id`, and no later node does.
pub open spec fn binds_last(nodes: Seq<Place>, unresolved_mark: Mark, id: IdView, k: int) -> bool {
    &&& 0 <= k < nodes.len()
    &&& bound_by(nodes[k], unresolved_mark) matches Some((bound, _)) && bound == id
    &&& forall|l: int|
        k < l < nodes.len() ==> !(bound_by(#[trigger] nodes[l], unresolved_mark) matches Some(
            (bound, _),
        ) && bound == id)
}

/// Whether `nodes[k]` shows the use of the call at `span_lo`, and no later node does.
pub open spec fn resolves_last(
    nodes: Seq<Place>,
    unresolved_mark: Mark,
    span_lo: u32,
    k: int,
) -> bool {
    &&& 0 <= k < nodes.len()
    &&& resolved_by(nodes[k], unresolved_mark) matches Some((position, _)) && position == span_lo
    &&& forall|l: int|
        k < l < nodes.len() ==> !(resolved_by(#[trigger] nodes[l], unresolved_mark) matches Some(
            (position, _),
        ) && position == span_lo)
}

/// What is known once `nodes` were seen and nothing before.
pub open spec fn calls_in(nodes: Seq<Place>, unresolved_mark: Mark) -> RequireCalls {
    with_nodes(
        RequireCalls { bindings: Map::empty(), resolved: Map::empty() },
        nodes,
        unresolved_mark,
    )
}

/// A binding goes with the call of its last declaration, and with no other.
pub proof fn last_declaration_counts(
    nodes: Seq<Place>,
    unresolved_mark: Mark,
    id: IdView,
    span_lo: u32,
)
    ensures
        calls_in(nodes, unresolved_mark).bindings.contains_pair(id, span_lo) == exists|k: int|
            #[trigger] binds_last(nodes, unresolved_mark, id, k) && bound_by(
                nodes[k],
                unresolved_mark,
            ) == Some((id, span_lo)),
    decreases nodes.len(),
{
    if nodes.len() > 0 {
        let before = nodes.drop_last();
        let last = nodes.len() - 1;
        last_declaration_counts(before, unresolved_mark, id, span_lo);
        let hit = bound_by(nodes[last], unresolved_mark) matches Some((bound, _)) && bound == id;
        assert forall|k: int| 0 <= k < last implies #[trigger] binds_last(
            nodes,
            unresolved_mark,
            id,
            k,
        ) == (binds_last(before, unresolved_mark, id, k) && !hit) by {
            assert(before[k] == nodes[k]);
            if binds_last(nodes, unresolved_mark, id, k) {
                assert forall|l: int| k < l < before.len() implies !(bound_by(
                    #[trigger] before[l],
                    unresolved_mark,
                ) matches Some((bound, _)) && bound == id) by {
                    assert(before[l] == nodes[l]);
                }
                assert(nodes[last] == nodes.last());
            }
            if binds_last(before, unresolved_mark, id, k) && !hit {
                assert forall|l: int| k < l < nodes.len() implies !(bound_by(
                    #[trigger] nodes[l],
                    unresolved_mark,
                ) matches Some((bound, _)) && bound == id) by {
                    if l < last {
                        assert(before[l] == nodes[l]);
                    }
                }
            }
        }
        assert(hit == binds_last(nodes, unresolved_mark, id, last));
        if !hit {
            if exists|k: int| #[trigger]
                binds_last(before, unresolved_mark, id, k) && bound_by(before[k], unresolved_mark)
                    == Some((id, span_lo)) {
                let k = choose|k: int| #[trigger]
                    binds_last(before, unresolved_mark, id, k) && bound_by(
                        before[k],
                        unresolved_mark,
                    ) == Some((id, span_lo));
                assert(binds_last(nodes, unresolved_mark, id, k));
            }
            if exists|k: int| #[trigger]
                binds_last(nodes, unresolved_mark, id, k) && bound_by(nodes[k], unresolved_mark)
                    == Some((id, span_lo)) {
                let k = choose|k: int| #[trigger]
                    binds_last(nodes, unresolved_mark, id, k) && bound_by(nodes[k], unresolved_mark)
                        == Some((id, span_lo));
                assert(binds_last(before, unresolved_mark, id, k));
            }
        }
    }
}

/// What the call sites show of the call at one position is what the last of them shows.
pub proof fn last_call_site_counts(
    nodes: Seq<Place>,
    unresolved_mark: Mark,
    span_lo: u32,
    usage: ExportUsageView,
)
    ensures
        calls_in(nodes, unresolved_mark).resolved.contains_pair(span_lo, usage) == exists|k: int|
            #[trigger] resolves_last(nodes, unresolved_mark, span_lo, k) && resolved_by(
                nodes[k],
                unresolved_mark,
            ) == Some((span_lo, usage)),
    decreases nodes.len(),
{
    if nodes.len() > 0 {
        let before = nodes.drop_last();
        let last = nodes.len() - 1;
        last_call_site_counts(before, unresolved_mark, span_lo, usage);
        let hit = resolved_by(nodes[last], unresolved_mark) matches Some((position, _)) && position
            == span_lo;
        assert forall|k: int| 0 <= k < last implies #[trigger] resolves_last(
            nodes,
            unresolved_mark,
            span_lo,
            k,
        ) == (resolves_last(before, unresolved_mark, span_lo, k) && !hit) by {
            assert(before[k] == nodes[k]);
            if resolves_last(nodes, unresolved_mark, span_lo, k) {
                assert forall|l: int| k < l < before.len() implies !(resolved_by(
                    #[trigger] before[l],
                    unresolved_mark,
                ) matches Some((position, _)) && position == span_lo) by {
                    assert(before[l] == nodes[l]);
                }
                assert(nodes[last] == nodes.last());
            }
            if resolves_last(before, unresolved_mark, span_lo, k) && !hit {
                assert forall|l: int| k < l < nodes.len() implies !(resolved_by(
                    #[trigger] nodes[l],
                    unresolved_mark,
                ) matches Some((position, _)) && position == span_lo) by {
                    if l < last {
                        assert(before[l] == nodes[l]);
                    }
                }
            }
        }
        assert(hit == resolves_last(nodes, unresolved_mark, span_lo, last));
        if !hit {
            if exists|k: int| #[trigger]
                resolves_last(before, unresolved_mark, span_lo, k) && resolved_by(
                    before[k],
                    unresolved_mark,
                ) == Some((span_lo, usage)) {
                let k = choose|k: int| #[trigger]
                    resolves_last(before, unresolved_mark, span_lo, k) && resolved_by(
                        before[k],
                        unresolved_mark,
                    ) == Some((span_lo, usage));
                assert(resolves_last(nodes, unresolved_mark, span_lo, k));
            }
            if exists|k: int| #[trigger]
                resolves_last(nodes, unresolved_mark, span_lo, k) && resolved_by(
                    nodes[k],
                    unresolved_mark,
                ) == Some((span_lo, usage)) {
                let k = choose|k: int| #[trigger]
                    resolves_last(nodes, unresolved_mark, span_lo, k) && resolved_by(
                        nodes[k],
                        unresolved_mark,
                    ) == Some((span_lo, usage));
                assert(resolves_last(before, unresolved_mark, span_lo, k));
            }
        }
    }
}

/// A position is reported only if a literal-string `require` call of the program stands there.
pub proof fn only_require_calls_are_reported(
    program: Program,
    unresolved_mark: Mark,
    result: Map<u32, ExportUsageView>,
    span_lo: u32,
)
    requires
        reports_usage(program, require_calls(program, unresolved_mark), result),
        result.contains_key(span_lo),
    ensures
        exists|k: int|
            0 <= k < preorder_of_all(roots(program)).len() && (consumed_call(
                #[trigger] preorder_of_all(roots(program))[k],
                unresolved_mark,
            ) matches Some(call) && call.span_lo == span_lo),
{
    let nodes = preorder_of_all(roots(program));
    let calls = require_calls(program, unresolved_mark);
    assert(calls == calls_in(nodes, unresolved_mark));
    if bound_at(calls.bindings, span_lo) {
        let id = choose|id: IdView| #[trigger] calls.bindings.contains_pair(id, span_lo);
        last_declaration_counts(nodes, unresolved_mark, id, span_lo);
        let k = choose|k: int| #[trigger]
            binds_last(nodes, unresolved_mark, id, k) && bound_by(nodes[k], unresolved_mark)
                == Some((id, span_lo));
        assert(consumed_call(nodes[k], unresolved_mark) is Some);
    } else {
        let usage = calls.resolved[span_lo];
        last_call_site_counts(nodes, unresolved_mark, span_lo, usage);
        let k = choose|k: int| #[trigger]
            resolves_last(nodes, unresolved_mark, span_lo, k) && resolved_by(
                nodes[k],
                unresolved_mark,
            ) == Some((span_lo, usage));
        assert(consumed_call(nodes[k], unresolved_mark) is Some);
    }
}

/// Whether no two bindings go with one position.
pub open spec fn distinct_bindings(bindings: Map<IdView, u32>) -> bool {
    forall|first: IdView, second: IdView|
        #![trigger bindings.contains_key(first), bindings.contains_key(second)]
        bindings.contains_key(first) && bindings.contains_key(second) && bindings[first]
            == bindings[second] ==> first == second
}

/// Where no two bindings go with one position, the report is determined: at the position of a
/// binding stands how the binding is used.
pub proof fn distinct_bindings_determine_the_report(
    program: Program,
    unresolved_mark: Mark,
    result: Map<u32, ExportUsageView>,
    id: IdView,
    span_lo: u32,
)
    requires
        reports_usage(program, require_calls(program, unresolved_mark), result),
        distinct_bindings(require_calls(program, unresolved_mark).bindings),
        require_calls(program, unresolved_mark).bindings.contains_pair(id, span_lo),
    ensures
        result.contains_pair(
            span_lo,
            binding_usage(
                uses_in_all(roots(program), require_calls(program, unresolved_mark).bindings.dom()),
                id,
            ),
        ),
{
    let bindings = require_calls(program, unresolved_mark).bindings;
    assert(bound_at(bindings, span_lo));
    assert(result.contains_key(span_lo));
    let other = choose|other: IdView| #[trigger]
        bindings.contains_pair(other, span_lo) && result[span_lo] == binding_usage(
            uses_in_all(roots(program), bindings.dom()),
            other,
        );
    assert(bindings.contains_key(id) && bindings.contains_key(other));
}

/// The number of nodes among `nodes` that name or bind `id`.
pub open spec fn occurrences(nodes: Seq<Place>, id: IdView) -> nat
    decreases nodes.len(),
{
    if nodes.len() == 0 {
        0
    } else {
        occurrences(nodes.drop_last(), id) + if own_ident(nodes.last().node) matches Some(ident)
            && ident.id() == id {
            1nat
        } else {
            0nat
        }
    }
}

/// Whether the node at `place` is a variable declarator that declares `id` as a plain name and does
/// not export it.
pub open spec fn declares(place: Place, id: IdView) -> bool {
    &&& place.node matches Node::VarDeclarator(declarator)
    &&& place.role != Role::Exported
    &&& *declarator.name matches Node::Ident(binding)
    &&& binding.id() == id
}

/// The number of nodes among `nodes` that declare `id`.
pub open spec fn declarations(nodes: Seq<Place>, id: IdView) -> nat
    decreases nodes.len(),
{
    if nodes.len() == 0 {
        0
    } else {
        declarations(nodes.drop_last(), id) + if declares(nodes.last(), id) {
            1nat
        } else {
            0nat
        }
    }
}

/// Whether `used` is a use of `id`.
pub open spec fn is_use_of(used: Use, id: IdView) -> bool {
    match used {
        Use::Member { id: other, name: _ } => other == id,
        Use::Escape { id: other } => other == id,
    }
}

/// The number of uses of `id` among `used`.
pub open spec fn use_count(used: Seq<Use>, id: IdView) -> nat
    decreases used.len(),
{
    if used.len() == 0 {
        0
    } else {
        use_count(used.drop_last(), id) + if is_use_of(used.last(), id) {
            1nat
        } else {
            0nat
        }
    }
}

/// Counts of nodes add up.
proof fn lemma_node_counts_split(first: Seq<Place>, second: Seq<Place>, id: IdView)
    ensures
        occurrences(first + second, id) == occurrences(first, id) + occurrences(second, id),
        declarations(first + second, id) == declarations(first, id) + declarations(second, id),
    decreases second.len(),
{
    if second.len() == 0 {
        assert(first + second =~= first);
    } else {
        lemma_node_counts_split(first, second.drop_last(), id);
        assert((first + second).drop_last() =~= first + second.drop_last());
    }
}

/// Counts of uses add up.
proof fn lemma_use_count_split(first: Seq<Use>, second: Seq<Use>, id: IdView)
    ensures
        use_count(first + second, id) == use_count(first, id) + use_count(second, id),
    decreases second.len(),
{
    if second.len() == 0 {
        assert(first + second =~= first);
    } else {
        lemma_use_count_split(first, second.drop_last(), id);
        assert((first + second).drop_last() =~= first + second.drop_last());
    }
}

/// Counts of one node.
proof fn lemma_node_counts_one(place: Place, id: IdView)
    ensures
        occurrences(seq![place], id) == if own_ident(place.node) matches Some(ident) && ident.id()
            == id {
            1nat
        } else {
            0nat
        },
        declarations(seq![place], id) == if declares(place, id) {
            1nat
        } else {
            0nat
        },
{
    assert(seq![place].drop_last() =~= seq![]);
    assert(occurrences(seq![], id) == 0);
    assert(declarations(seq![], id) == 0);
}

/// The count of one use.
proof fn lemma_use_count_one(used: Use, id: IdView)
    ensures
        use_count(seq![used], id) == if is_use_of(used, id) {
            1nat
        } else {
            0nat
        },
{
    assert(seq![used].drop_last() =~= seq![]);
    assert(use_count(seq![], id) == 0);
}

/// Whether each occurrence of `id` in `nodes` is a use in `used` or a declaration.
pub open spec fn accounted_for(nodes: Seq<Place>, used: Seq<Use>, id: IdView) -> bool {
    occurrences(nodes, id) == use_count(used, id) + declarations(nodes, id)
}

/// Each occurrence of a watched binding in `node` is counted as a use, unless it is the name that a
/// variable declarator declares and does not export.
proof fn lemma_occurrences_in_node(node: Node, role: Role, watched: Set<IdView>, id: IdView)
    requires
        watched.contains(id),
    ensures
        accounted_for(preorder(node, role), uses(node, role, watched), id),
    decreases node, children(node).len() + 1,
{
    let below = preorder_of_children(node, role, children(node).len());
    lemma_node_counts_split(seq![Place { node, role }], below, id);
    lemma_node_counts_one(Place { node, role }, id);
    match node {
        Node::Member(member) if watched_object(member, watched) is Some => {
            let object = watched_object(member, watched)->0;
            lemma_leaf(*member.obj, Role::Plain);
            lemma_node_counts_one(Place { node: *member.obj, role: Role::Plain }, id);
            lemma_use_count_one(Use::Escape { id: object }, id);
            assert(preorder_of_children(node, role, 0) =~= seq![]);
            assert(preorder_of_children(node, role, 1) =~= preorder(*member.obj, Role::Plain));
            match member.prop {
                MemberProp::Computed(key) => {
                    assert(children(node) =~= seq![*member.obj, *key]);
                    assert(preorder_of_children(node, role, 2) =~= preorder(*member.obj, Role::Plain)
                        + preorder(*key, Role::Plain));
                    lemma_node_counts_split(
                        preorder(*member.obj, Role::Plain),
                        preorder(*key, Role::Plain),
                        id,
                    );
                    match read_name(member, role) {
                        Some(name) => {
                            lemma_use_count_one(Use::Member { id: object, name }, id);
                            lemma_leaf(*key, Role::Plain);
                            lemma_node_counts_one(Place { node: *key, role: Role::Plain }, id);
                        },
                        None => {
                            lemma_occurrences_in_node(*key, Role::Plain, watched, id);
                            lemma_use_count_split(
                                seq![Use::Escape { id: object }],
                                uses(*key, Role::Plain, watched),
                                id,
                            );
                        },
                    }
                },
                _ => {
                    assert(children(node) =~= seq![*member.obj]);
                    match read_name(member, role) {
                        Some(name) => lemma_use_count_one(Use::Member { id: object, name }, id),
                        None => {
                            assert(seq![Use::Escape { id: object }] + seq![] =~= seq![
                                Use::Escape { id: object },
                            ]);
                        },
                    }
                },
            }
        },
        Node::VarDeclarator(declarator) if watched_declaration(
            declarator,
            role,
            watched,
        ) is Some => {
            lemma_leaf(*declarator.name, Role::Plain);
            lemma_node_counts_one(Place { node: *declarator.name, role: Role::Plain }, id);
            assert(preorder_of_children(node, role, 0) =~= seq![]);
            assert(preorder_of_children(node, role, 1) =~= preorder(*declarator.name, Role::Plain));
            match declarator.init {
                Some(init) => {
                    assert(children(node) =~= seq![*declarator.name, *init]);
                    assert(preorder_of_children(node, role, 2) =~= preorder(*declarator.name, Role::Plain)
                        + preorder(*init, Role::Plain));
                    lemma_node_counts_split(
                        preorder(*declarator.name, Role::Plain),
                        preorder(*init, Role::Plain),
                        id,
                    );
                    lemma_occurrences_in_node(*init, Role::Plain, watched, id);
                },
                None => {
                    assert(children(node) =~= seq![*declarator.name]);
                },
            }
        },
        _ => {
            lemma_occurrences_in_children(node, role, children(node).len(), watched, id);
            lemma_use_count_split(
                own_use(node, watched),
                uses_in_children(node, role, children(node).len(), watched),
                id,
            );
            if let Some(ident) = own_ident(node) {
                lemma_use_count_one(Use::Escape { id: ident.id() }, id);
            }
        },
    }
}

/// The same of the first `n` children of `node`.
proof fn lemma_occurrences_in_children(
    node: Node,
    role: Role,
    n: nat,
    watched: Set<IdView>,
    id: IdView,
)
    requires
        watched.contains(id),
        n <= children(node).len(),
    ensures
        accounted_for(
            preorder_of_children(node, role, n),
            uses_in_children(node, role, n, watched),
            id,
        ),
    decreases node, n,
{
    if n > 0 {
        lemma_child_is_smaller(node, n - 1);
        lemma_occurrences_in_children(node, role, (n - 1) as nat, watched, id);
        lemma_occurrences_in_node(
            children(node)[n - 1],
            child_role(node, n - 1, role),
            watched,
            id,
        );
        lemma_node_counts_split(
            preorder_of_children(node, role, (n - 1) as nat),
            preorder(children(node)[n - 1], child_role(node, n - 1, role)),
            id,
        );
        lemma_use_count_split(
            uses_in_children(node, role, (n - 1) as nat, watched),
            uses(children(node)[n - 1], child_role(node, n - 1, role), watched),
            id,
        );
    }
}

/// A node without children stands alone.
pub(crate) proof fn lemma_leaf(node: Node, role: Role)
    requires
        children(node).len() == 0,
    ensures
        preorder(node, role) == seq![Place { node, role }],
{
    assert(preorder_of_children(node, role, 0) =~= seq![]);
    assert(seq![Place { node, role }] + seq![] =~= seq![Place { node, role }]);
}

/// Deny by default: each occurrence of a watched binding anywhere in the trees is a use of it,
/// unless it is the name that a variable declarator declares and does not export. Nothing is passed
/// over.
pub proof fn every_occurrence_is_a_use_or_a_declaration(
    trees: Seq<Node>,
    watched: Set<IdView>,
    id: IdView,
)
    requires
        watched.contains(id),
    ensures
        accounted_for(preorder_of_all(trees), uses_in_all(trees, watched), id),
    decreases trees.len(),
{
    if trees.len() > 0 {
        every_occurrence_is_a_use_or_a_declaration(trees.drop_last(), watched, id);
        lemma_occurrences_in_node(trees.last(), Role::Plain, watched, id);
        lemma_node_counts_split(
            preorder_of_all(trees.drop_last()),
            preorder(trees.last(), Role::Plain),
            id,
        );
        lemma_use_count_split(
            uses_in_all(trees.drop_last(), watched),
            uses(trees.last(), Role::Plain, watched),
            id,
        );
    }
}

/// The members that are read are listed once each, and nothing else is listed.
proof fn lemma_members_read(used: Seq<Use>, id: IdView)
    ensures
        members_read(used, id).no_duplicates(),
        forall|name: Seq<char>| #[trigger]
            members_read(used, id).contains(name) == used.contains(Use::Member { id, name }),
    decreases used.len(),
{
    let names = members_read(used, id);
    if used.len() > 0 {
        let before = used.drop_last();
        let last = used.len() - 1;
        lemma_members_read(before, id);
        let earlier = members_read(before, id);
        assert forall|name: Seq<char>| #[trigger] names.contains(name) == used.contains(
            Use::Member { id, name },
        ) by {
            let read = Use::Member { id, name };
            if earlier.contains(name) {
                let k = choose|k: int| 0 <= k < before.len() && before[k] == read;
                assert(used[k] == read);
                let l = choose|l: int| 0 <= l < earlier.len() && earlier[l] == name;
                assert(names[l] == name);
            }
            if used[last] == read {
                assert(names.contains(name)) by {
                    if !earlier.contains(name) {
                        assert(names[earlier.len() as int] == name);
                    }
                }
            }
            if used.contains(read) && used[last] != read {
                let k = choose|k: int| 0 <= k < used.len() && used[k] == read;
                assert(before[k] == read);
                assert(before.contains(read));
            }
            if names.contains(name) && !earlier.contains(name) {
                let l = choose|l: int| 0 <= l < names.len() && names[l] == name;
                if l < earlier.len() {
                    assert(earlier[l] == name);
                }
                assert(used[last] == read);
            }
        }
    }
}

/// A binding is narrowed to some members exactly if each of its uses is a static member read. The
/// members are then those that are read, each listed once.
pub proof fn narrowed_to_the_members_read(used: Seq<Use>, id: IdView)
    ensures
        match binding_usage(used, id) {
            ExportUsageView::PartialNamespaceObject(names) => {
                &&& names.no_duplicates()
                &&& forall|k: int|
                    0 <= k < used.len() && is_use_of(#[trigger] used[k], id) ==> (
                    used[k] matches Use::Member { name, .. } && names.contains(name))
                &&& forall|name: Seq<char>| #[trigger]
                    names.contains(name) ==> used.contains(Use::Member { id, name })
            },
            ExportUsageView::All => exists|k: int|
                0 <= k < used.len() && is_use_of(#[trigger] used[k], id) && !(used[k] is Member),
        },
{
    lemma_members_read(used, id);
    if escapes(used, id) {
        let k = choose|k: int| 0 <= k < used.len() && used[k] == (Use::Escape { id });
        assert(is_use_of(used[k], id) && !(used[k] is Member));
    } else {
        let names = members_read(used, id);
        assert forall|k: int| 0 <= k < used.len() && is_use_of(#[trigger] used[k], id) implies (
        used[k] matches Use::Member { name, .. } && names.contains(name)) by {
            if used[k] == (Use::Escape { id }) {
                assert(used.contains(used[k]));
            } else {
                let name = used[k]->name;
                assert(used[k] == Use::Member { id, name });
                assert(used.contains(Use::Member { id, name }));
            }
        }
    }
}

/// Of a binding that occurs nowhere but where it is declared no member is used.
pub proof fn unused_binding_uses_no_member(trees: Seq<Node>, watched: Set<IdView>, id: IdView)
    requires
        watched.contains(id),
        occurrences(preorder_of_all(trees), id) == declarations(preorder_of_all(trees), id),
    ensures
        binding_usage(uses_in_all(trees, watched), id) == ExportUsageView::PartialNamespaceObject(
            seq![],
        ),
{
    let used = uses_in_all(trees, watched);
    every_occurrence_is_a_use_or_a_declaration(trees, watched, id);
    lemma_no_use(used, id);
    lemma_members_read(used, id);
    let names = members_read(used, id);
    if names.len() > 0 {
        assert(names.contains(names[0]));
        let k = choose|k: int| 0 <= k < used.len() && used[k] == (Use::Member { id, name: names[0] });
        assert(is_use_of(used[k], id));
    }
    assert(names =~= seq![]);
}

/// If no use is counted there is none.
proof fn lemma_no_use(used: Seq<Use>, id: IdView)
    requires
        use_count(used, id) == 0,
    ensures
        forall|k: int| 0 <= k < used.len() ==> !is_use_of(#[trigger] used[k], id),
    decreases used.len(),
{
    if used.len() > 0 {
        let before = used.drop_last();
        lemma_no_use(before, id);
        assert forall|k: int| 0 <= k < used.len() implies !is_use_of(#[trigger] used[k], id) by {
            if k < before.len() {
                assert(before[k] == used[k]);
            }
        }
    }
}

/// The use that the node at `place` by itself shows: of the object of a member access, or of the
/// name that an exported declarator declares.
pub open spec fn shown_use(place: Place) -> Option<Use> {
    match place.node {
        Node::Member(member) => match *member.obj {
            Node::Ident(object) => match read_name(member, place.role) {
                Some(name) => Some(Use::Member { id: object.id(), name }),
                None => Some(Use::Escape { id: object.id() }),
            },
            _ => None,
        },
        Node::VarDeclarator(declarator) => match *declarator.name {
            Node::Ident(binding) if place.role == Role::Exported => Some(
                Use::Escape { id: binding.id() },
            ),
            _ => None,
        },
        _ => None,
    }
}

/// Whether one of `nodes` shows the use `used`.
pub open spec fn shown_in(nodes: Seq<Place>, used: Use) -> bool {
    exists|k: int| 0 <= k < nodes.len() && shown_use(#[trigger] nodes[k]) == Some(used)
}

/// The child of `node` below which the node stands that is listed at `k` among the nodes below the
/// first `n` children, and its place among the nodes of that child.
pub(crate) proof fn lemma_below_some_child(node: Node, role: Role, n: nat, k: int) -> (place: (int, int))
    requires
        n <= children(node).len(),
        0 <= k < preorder_of_children(node, role, n).len(),
    ensures
        0 <= place.0 < n,
        0 <= place.1 < preorder(children(node)[place.0], child_role(node, place.0, role)).len(),
        preorder(children(node)[place.0], child_role(node, place.0, role))[place.1]
            == preorder_of_children(node, role, n)[k],
    decreases n,
{
    let before = preorder_of_children(node, role, (n - 1) as nat);
    if k < before.len() {
        lemma_below_some_child(node, role, (n - 1) as nat, k)
    } else {
        (n - 1, k - before.len())
    }
}

/// What stands below a child of `node` stands below `node`.
proof fn lemma_shown_below_child(node: Node, role: Role, j: int, n: nat, used: Use)
    requires
        0 <= j < n <= children(node).len(),
        shown_in(preorder(children(node)[j], child_role(node, j, role)), used),
    ensures
        shown_in(preorder_of_children(node, role, n), used),
    decreases n,
{
    let before = preorder_of_children(node, role, (n - 1) as nat);
    let after = preorder_of_children(node, role, n);
    if j < n - 1 {
        lemma_shown_below_child(node, role, j, (n - 1) as nat, used);
        let k = choose|k: int|
            0 <= k < before.len() && shown_use(#[trigger] before[k]) == Some(used);
        assert(after[k] == before[k]);
    } else {
        let nodes = preorder(children(node)[j], child_role(node, j, role));
        let k = choose|k: int| 0 <= k < nodes.len() && shown_use(#[trigger] nodes[k]) == Some(used);
        assert(after[before.len() + k] == nodes[k]);
    }
}

/// A use in a child of `node` is a use in its children.
pub(crate) proof fn lemma_use_in_child(
    node: Node,
    role: Role,
    j: int,
    n: nat,
    watched: Set<IdView>,
    used: Use,
)
    requires
        0 <= j < n <= children(node).len(),
        uses(children(node)[j], child_role(node, j, role), watched).contains(used),
    ensures
        uses_in_children(node, role, n, watched).contains(used),
    decreases n,
{
    let before = uses_in_children(node, role, (n - 1) as nat, watched);
    let after = uses_in_children(node, role, n, watched);
    if j < n - 1 {
        lemma_use_in_child(node, role, j, (n - 1) as nat, watched, used);
        let k = choose|k: int| 0 <= k < before.len() && before[k] == used;
        assert(after[k] == used);
    } else {
        let last = uses(children(node)[j], child_role(node, j, role), watched);
        let k = choose|k: int| 0 <= k < last.len() && last[k] == used;
        assert(after[before.len() + k] == used);
    }
}

/// A use of a watched binding that a node below `node` shows is a use in `node`.
proof fn lemma_shown_use_counts(
    node: Node,
    role: Role,
    watched: Set<IdView>,
    id: IdView,
    used: Use,
    k: int,
)
    requires
        watched.contains(id),
        is_use_of(used, id),
        0 <= k < preorder(node, role).len(),
        shown_use(preorder(node, role)[k]) == Some(used),
    ensures
        uses(node, role, watched).contains(used),
    decreases node,
{
    let n = children(node).len();
    let all = uses(node, role, watched);
    let below = uses_in_children(node, role, n, watched);
    if k == 0 {
        match node {
            Node::Member(member) => {
                assert(all[0] == used);
            },
            Node::VarDeclarator(declarator) => {
                let name = *declarator.name;
                assert(children(node)[0] == name);
                assert(own_use(name, watched) == seq![used]);
                assert(children(name) =~= seq![]);
                assert(uses_in_children(name, Role::Plain, 0, watched) =~= seq![]);
                assert(uses(name, Role::Plain, watched) =~= seq![used]);
                assert(uses(name, Role::Plain, watched)[0] == used);
                lemma_use_in_child(node, role, 0, n, watched, used);
                assert(all =~= below);
            },
            _ => {},
        }
    } else {
        let (j, l) = lemma_below_some_child(node, role, n, k - 1);
        let child = children(node)[j];
        lemma_child_is_smaller(node, j);
        lemma_shown_use_counts(child, child_role(node, j, role), watched, id, used, l);
        match node {
            Node::Member(member) if watched_object(member, watched) is Some => {
                if j == 0 {
                    lemma_leaf(child, child_role(node, j, role));
                } else {
                    let key = member.prop->Computed_0;
                    assert(child == *key);
                    if read_name(member, role) is Some {
                        lemma_leaf(child, child_role(node, j, role));
                    } else {
                        let rest = uses(child, child_role(node, j, role), watched);
                        let i = choose|i: int| 0 <= i < rest.len() && rest[i] == used;
                        assert(all[i + 1] == used);
                    }
                }
            },
            Node::VarDeclarator(declarator) if watched_declaration(
                declarator,
                role,
                watched,
            ) is Some => {
                if j == 0 {
                    lemma_leaf(child, child_role(node, j, role));
                }
            },
            _ => {
                lemma_use_in_child(node, role, j, n, watched, used);
                let own = own_use(node, watched);
                let i = choose|i: int| 0 <= i < below.len() && below[i] == used;
                assert(all[own.len() + i] == used);
            },
        }
    }
}

/// The child of `node` in which the use stands that is listed at `k` among the uses in the first
/// `n` children.
proof fn lemma_use_in_some_child(
    node: Node,
    role: Role,
    n: nat,
    watched: Set<IdView>,
    k: int,
) -> (j: int)
    requires
        n <= children(node).len(),
        0 <= k < uses_in_children(node, role, n, watched).len(),
    ensures
        0 <= j < n,
        uses(children(node)[j], child_role(node, j, role), watched).contains(
            uses_in_children(node, role, n, watched)[k],
        ),
    decreases n,
{
    let before = uses_in_children(node, role, (n - 1) as nat, watched);
    if k < before.len() {
        lemma_use_in_some_child(node, role, (n - 1) as nat, watched, k)
    } else {
        let last = uses(children(node)[n - 1], child_role(node, n - 1, role), watched);
        assert(last[k - before.len()] == uses_in_children(node, role, n, watched)[k]);
        n - 1
    }
}

/// A member that counts as read in `node` is read by a node below.
proof fn lemma_member_use_is_shown(node: Node, role: Role, watched: Set<IdView>, used: Use)
    requires
        used is Member,
        uses(node, role, watched).contains(used),
    ensures
        shown_in(preorder(node, role), used),
    decreases node,
{
    let n = children(node).len();
    let all = uses(node, role, watched);
    let k = choose|k: int| 0 <= k < all.len() && all[k] == used;
    let nodes = preorder(node, role);
    assert(nodes[0] == Place { node, role });
    let below = preorder_of_children(node, role, n);
    let j: int = match node {
        Node::Member(member) if watched_object(member, watched) is Some => {
            if read_name(member, role) is None {
                let rest = uses(*member.prop->Computed_0, Role::Plain, watched);
                assert(rest[k - 1] == used);
                1
            } else {
                -1
            }
        },
        Node::VarDeclarator(declarator) if watched_declaration(
            declarator,
            role,
            watched,
        ) is Some => 1,
        _ => {
            let own = own_use(node, watched);
            lemma_use_in_some_child(node, role, n, watched, k - own.len())
        },
    };
    if j >= 0 {
        lemma_child_is_smaller(node, j);
        lemma_member_use_is_shown(
            children(node)[j],
            child_role(node, j, role),
            watched,
            used,
        );
        lemma_shown_below_child(node, role, j, n, used);
        let l = choose|l: int| 0 <= l < below.len() && shown_use(#[trigger] below[l]) == Some(used);
        assert(nodes[l + 1] == below[l]);
    }
}

/// Where a member access to a watched binding stands, or an exported declaration of it, the use is
/// counted as what it is: a read as a read of that member, and a write, an update, a deletion or an
/// export as a use of the whole. Where a read is counted, one stands.
pub proof fn uses_are_counted_as_they_stand(
    trees: Seq<Node>,
    watched: Set<IdView>,
    id: IdView,
    used: Use,
)
    requires
        watched.contains(id),
        is_use_of(used, id),
    ensures
        shown_in(preorder_of_all(trees), used) ==> uses_in_all(trees, watched).contains(used),
        used is Member && uses_in_all(trees, watched).contains(used) ==> shown_in(
            preorder_of_all(trees),
            used,
        ),
    decreases trees.len(),
{
    if trees.len() > 0 {
        let rest = trees.drop_last();
        uses_are_counted_as_they_stand(rest, watched, id, used);
        let nodes = preorder_of_all(trees);
        let nodes_before = preorder_of_all(rest);
        let last = preorder(trees.last(), Role::Plain);
        let all = uses_in_all(trees, watched);
        let all_before = uses_in_all(rest, watched);
        let last_uses = uses(trees.last(), Role::Plain, watched);
        if shown_in(nodes, used) {
            let k = choose|k: int|
                0 <= k < nodes.len() && shown_use(#[trigger] nodes[k]) == Some(used);
            if k < nodes_before.len() {
                assert(nodes_before[k] == nodes[k]);
                let i = choose|i: int| 0 <= i < all_before.len() && all_before[i] == used;
                assert(all[i] == used);
            } else {
                let l = k - nodes_before.len();
                assert(last[l] == nodes[k]);
                lemma_shown_use_counts(trees.last(), Role::Plain, watched, id, used, l);
                let i = choose|i: int| 0 <= i < last_uses.len() && last_uses[i] == used;
                assert(all[all_before.len() + i] == used);
            }
        }
        if used is Member && all.contains(used) {
            let i = choose|i: int| 0 <= i < all.len() && all[i] == used;
            if i < all_before.len() {
                assert(all_before[i] == used);
                let k = choose|k: int|
                    0 <= k < nodes_before.len() && shown_use(#[trigger] nodes_before[k]) == Some(
                        used,
                    );
                assert(nodes[k] == nodes_before[k]);
            } else {
                assert(last_uses[i - all_before.len()] == used);
                lemma_member_use_is_shown(trees.last(), Role::Plain, watched, used);
                let k = choose|k: int|
                    0 <= k < last.len() && shown_use(#[trigger] last[k]) == Some(used);
                assert(nodes[nodes_before.len() + k] == last[k]);
            }
        }
    }
}

/// What a narrowed report promises: where the report names the members of a binding, every
/// occurrence of the binding in the program is the name of a declaration that is not exported or
/// the object of a static read of one of these members. The members named are those that are read
/// somewhere. No member of the binding is written, updated or deleted anywhere.
pub proof fn narrowed_binding_is_only_read_statically(
    program: Program,
    unresolved_mark: Mark,
    result: Map<u32, ExportUsageView>,
    id: IdView,
    span_lo: u32,
    names: Seq<Seq<char>>,
)
    requires
        reports_usage(program, require_calls(program, unresolved_mark), result),
        distinct_bindings(require_calls(program, unresolved_mark).bindings),
        require_calls(program, unresolved_mark).bindings.contains_pair(id, span_lo),
        result[span_lo] == ExportUsageView::PartialNamespaceObject(names),
    ensures
        ({
            let nodes = preorder_of_all(roots(program));
            let used = uses_in_all(
                roots(program),
                require_calls(program, unresolved_mark).bindings.dom(),
            );
            &&& accounted_for(nodes, used, id)
            &&& forall|k: int|
                0 <= k < used.len() && is_use_of(#[trigger] used[k], id) ==> (
                used[k] matches Use::Member { name, .. } && names.contains(name))
            &&& forall|name: Seq<char>| #[trigger]
                names.contains(name) == shown_in(nodes, Use::Member { id, name })
            &&& !shown_in(nodes, Use::Escape { id })
        }),
{
    let watched = require_calls(program, unresolved_mark).bindings.dom();
    let trees = roots(program);
    let nodes = preorder_of_all(trees);
    let used = uses_in_all(trees, watched);
    distinct_bindings_determine_the_report(program, unresolved_mark, result, id, span_lo);
    every_occurrence_is_a_use_or_a_declaration(trees, watched, id);
    narrowed_to_the_members_read(used, id);
    uses_are_counted_as_they_stand(trees, watched, id, Use::Escape { id });
    assert forall|name: Seq<char>| #[trigger] names.contains(name) == shown_in(
        nodes,
        Use::Member { id, name },
    ) by {
        let read = Use::Member { id, name };
        uses_are_counted_as_they_stand(trees, watched, id, read);
        if used.contains(read) {
            let k = choose|k: int| 0 <= k < used.len() && used[k] == read;
            assert(is_use_of(used[k], id));
        }
    }
}

/// An escape is final: whatever is seen afterwards, the binding stays escaped.
pub proof fn escape_is_final(usage: Map<IdView, NamespaceUsageView>, used: Seq<Use>, id: IdView)
    requires
        usage.contains_pair(id, NamespaceUsageView::Escaped),
    ensures
        with_uses(usage, used).contains_pair(id, NamespaceUsageView::Escaped),
    decreases used.len(),
{
    if used.len() > 0 {
        escape_is_final(usage, used.drop_last(), id);
    }
}

/// Whether `after` is `before` with one more statement at the end, the expression `expr`.
pub open spec fn appends(before: Program, after: Program, span_lo: u32, expr: Node) -> bool {
    let stmt = Stmt { span_lo, kind: StmtKind::Expr(expr) };
    match (before, after) {
        (Program::Module(before), Program::Module(after)) => after@ == before@.push(
            ModuleItem::Stmt(stmt),
        ),
        (Program::Script(before), Program::Script(after)) => after@ == before@.push(stmt),
        _ => false,
    }
}

/// Whether `expr` consumes the result of no `require` call.
pub open spec fn consumes_no_call(expr: Node, unresolved_mark: Mark) -> bool {
    forall|k: int|
        0 <= k < preorder(expr, Role::Plain).len() ==> consumed_call(
            #[trigger] preorder(expr, Role::Plain)[k],
            unresolved_mark,
        ) is None
}

/// Nodes that consume no call tell nothing of the calls.
proof fn lemma_no_call_consumed(calls: RequireCalls, nodes: Seq<Place>, unresolved_mark: Mark)
    requires
        forall|k: int|
            0 <= k < nodes.len() ==> consumed_call(#[trigger] nodes[k], unresolved_mark) is None,
    ensures
        with_nodes(calls, nodes, unresolved_mark) == calls,
    decreases nodes.len(),
{
    if nodes.len() > 0 {
        let before = nodes.drop_last();
        assert forall|k: int| 0 <= k < before.len() implies consumed_call(
            #[trigger] before[k],
            unresolved_mark,
        ) is None by {
            assert(before[k] == nodes[k]);
        }
        lemma_no_call_consumed(calls, before, unresolved_mark);
        assert(consumed_call(nodes[nodes.len() - 1], unresolved_mark) is None);
    }
}

/// What one more expression at the end adds.
proof fn lemma_appended(
    before: Program,
    after: Program,
    span_lo: u32,
    expr: Node,
    unresolved_mark: Mark,
)
    requires
        appends(before, after, span_lo, expr),
        consumes_no_call(expr, unresolved_mark),
    ensures
        require_calls(after, unresolved_mark) == require_calls(before, unresolved_mark),
        forall|watched: Set<IdView>| #[trigger]
            uses_in_all(roots(after), watched) == uses_in_all(roots(before), watched) + uses(
                expr,
                Role::Plain,
                watched,
            ),
{
    let trees = roots(before);
    match (before, after) {
        (Program::Module(old), Program::Module(new)) => {
            assert(new@.drop_last() =~= old@);
        },
        (Program::Script(old), Program::Script(new)) => {
            assert(new@.drop_last() =~= old@);
        },
        _ => {},
    }
    assert(roots(after) =~= trees.push(expr));
    assert(roots(after).drop_last() =~= trees);
    let none = RequireCalls { bindings: Map::empty(), resolved: Map::empty() };
    let more = preorder(expr, Role::Plain);
    lemma_with_nodes_split(none, preorder_of_all(trees), more, unresolved_mark);
    lemma_no_call_consumed(require_calls(before, unresolved_mark), more, unresolved_mark);
}

/// `usage` after one more use of the binding was seen.
pub open spec fn usage_with(usage: ExportUsageView, used: Use) -> ExportUsageView {
    match (usage, used) {
        (ExportUsageView::PartialNamespaceObject(names), Use::Member { name, .. }) => {
            ExportUsageView::PartialNamespaceObject(with_name(names, name))
        },
        _ => ExportUsageView::All,
    }
}

/// What one more use tells of a binding.
proof fn lemma_one_more_use(used: Seq<Use>, more: Use, id: IdView)
    ensures
        binding_usage(used.push(more), id) == if is_use_of(more, id) {
            usage_with(binding_usage(used, id), more)
        } else {
            binding_usage(used, id)
        },
{
    let after = used.push(more);
    assert(after.drop_last() =~= used);
    let escape = Use::Escape { id };
    if used.contains(escape) {
        let k = choose|k: int| 0 <= k < used.len() && used[k] == escape;
        assert(after[k] == escape);
    }
    if more == escape {
        assert(after[used.len() as int] == escape);
    } else if after.contains(escape) {
        let k = choose|k: int| 0 <= k < after.len() && after[k] == escape;
        assert(used[k] == escape);
    }
}

/// One more use of a binding, at the end of a program, changes the report at the position of the
/// binding and nowhere else. A read adds its member once, or leaves a whole use whole; any other
/// use is one of the whole.
pub proof fn one_more_use_changes_one_entry(
    before: Program,
    after: Program,
    span_lo: u32,
    expr: Node,
    unresolved_mark: Mark,
    result_before: Map<u32, ExportUsageView>,
    result_after: Map<u32, ExportUsageView>,
    id: IdView,
    position: u32,
    used: Use,
)
    requires
        appends(before, after, span_lo, expr),
        consumes_no_call(expr, unresolved_mark),
        uses(expr, Role::Plain, require_calls(before, unresolved_mark).bindings.dom()) == seq![used],
        is_use_of(used, id),
        distinct_bindings(require_calls(before, unresolved_mark).bindings),
        require_calls(before, unresolved_mark).bindings.contains_pair(id, position),
        reports_usage(before, require_calls(before, unresolved_mark), result_before),
        reports_usage(after, require_calls(after, unresolved_mark), result_after),
    ensures
        result_after == result_before.insert(position, usage_with(result_before[position], used)),
{
    lemma_appended(before, after, span_lo, expr, unresolved_mark);
    let calls = require_calls(before, unresolved_mark);
    let watched = calls.bindings.dom();
    let seen = uses_in_all(roots(before), watched);
    assert(uses_in_all(roots(after), watched) =~= seen.push(used));
    let expected = result_before.insert(position, usage_with(result_before[position], used));
    distinct_bindings_determine_the_report(before, unresolved_mark, result_before, id, position);
    assert forall|q: u32| result_after.contains_key(q) == expected.contains_key(q) by {
        assert(result_before.contains_key(q) == result_after.contains_key(q));
    }
    assert forall|q: u32| result_after.contains_key(q) implies result_after[q] == expected[q] by {
        assert(result_before.contains_key(q));
        if bound_at(calls.bindings, q) {
            let other = choose|other: IdView| #[trigger] calls.bindings.contains_pair(other, q);
            distinct_bindings_determine_the_report(
                before,
                unresolved_mark,
                result_before,
                other,
                q,
            );
            distinct_bindings_determine_the_report(after, unresolved_mark, result_after, other, q);
            lemma_one_more_use(seen, used, other);
            if q == position {
                assert(calls.bindings.contains_key(id) && calls.bindings.contains_key(other));
            }
        }
    }
    assert(result_after =~= expected);
}

/// Appending `x.name;` to a program that binds a `require` result to `x` adds `name` to the members
/// reported for it, unless it is among them already or the whole is used, and changes nothing else.
pub proof fn appended_member_read(
    before: Program,
    after: Program,
    span_lo: u32,
    object: Ident,
    name: String,
    unresolved_mark: Mark,
    result_before: Map<u32, ExportUsageView>,
    result_after: Map<u32, ExportUsageView>,
    position: u32,
)
    requires
        appends(
            before,
            after,
            span_lo,
            Node::Member(
                MemberExpr {
                    obj: Box::new(Node::Ident(object)),
                    prop: MemberProp::Ident(name),
                },
            ),
        ),
        distinct_bindings(require_calls(before, unresolved_mark).bindings),
        require_calls(before, unresolved_mark).bindings.contains_pair(object.id(), position),
        reports_usage(before, require_calls(before, unresolved_mark), result_before),
        reports_usage(after, require_calls(after, unresolved_mark), result_after),
    ensures
        result_after == result_before.insert(
            position,
            match result_before[position] {
                ExportUsageView::PartialNamespaceObject(names) => {
                    ExportUsageView::PartialNamespaceObject(with_name(names, name@))
                },
                ExportUsageView::All => ExportUsageView::All,
            },
        ),
{
    let member = MemberExpr {
        obj: Box::new(Node::Ident(object)),
        prop: MemberProp::Ident(name),
    };
    let expr = Node::Member(member);
    lemma_leaf(Node::Ident(object), Role::Plain);
    assert(children(expr) =~= seq![Node::Ident(object)]);
    assert(preorder_of_children(expr, Role::Plain, 0) =~= seq![]);
    assert(preorder_of_children(expr, Role::Plain, 1) =~= seq![
        Place { node: Node::Ident(object), role: Role::Plain },
    ]);
    assert(preorder(expr, Role::Plain) =~= seq![
        Place { node: expr, role: Role::Plain },
        Place { node: Node::Ident(object), role: Role::Plain },
    ]);
    one_more_use_changes_one_entry(
        before,
        after,
        span_lo,
        expr,
        unresolved_mark,
        result_before,
        result_after,
        object.id(),
        position,
        Use::Member { id: object.id(), name: name@ },
    );
}

/// Appending `f(x);` to a program that binds a `require` result to `x`, where `f` is no such
/// binding, makes the use reported for `x` one of the whole, and changes nothing else.
pub proof fn appended_wholesale_use(
    before: Program,
    after: Program,
    span_lo: u32,
    call: CallExpr,
    function: Ident,
    object: Ident,
    unresolved_mark: Mark,
    result_before: Map<u32, ExportUsageView>,
    result_after: Map<u32, ExportUsageView>,
    position: u32,
)
    requires
        *call.callee == Node::Ident(function),
        call.args@ == seq![Node::Ident(object)],
        appends(before, after, span_lo, Node::Call(call)),
        distinct_bindings(require_calls(before, unresolved_mark).bindings),
        require_calls(before, unresolved_mark).bindings.contains_pair(object.id(), position),
        !require_calls(before, unresolved_mark).bindings.contains_key(function.id()),
        reports_usage(before, require_calls(before, unresolved_mark), result_before),
        reports_usage(after, require_calls(after, unresolved_mark), result_after),
    ensures
        result_after == result_before.insert(position, ExportUsageView::All),
{
    let expr = Node::Call(call);
    let watched = require_calls(before, unresolved_mark).bindings.dom();
    let escape = Use::Escape { id: object.id() };
    let callee = Node::Ident(function);
    let arg = Node::Ident(object);
    lemma_leaf(callee, Role::Plain);
    lemma_leaf(arg, Role::Plain);
    assert(children(expr) =~= seq![callee, arg]);
    assert(preorder_of_children(expr, Role::Plain, 0) =~= seq![]);
    assert(preorder_of_children(expr, Role::Plain, 1) =~= seq![
        Place { node: callee, role: Role::Plain },
    ]);
    assert(preorder_of_children(expr, Role::Plain, 2) =~= seq![
        Place { node: callee, role: Role::Plain },
        Place { node: arg, role: Role::Plain },
    ]);
    assert(preorder(expr, Role::Plain) =~= seq![
        Place { node: expr, role: Role::Plain },
        Place { node: callee, role: Role::Plain },
        Place { node: arg, role: Role::Plain },
    ]);
    assert(uses_in_children(callee, Role::Plain, 0, watched) =~= seq![]);
    assert(uses(callee, Role::Plain, watched) =~= seq![]);
    assert(uses_in_children(arg, Role::Plain, 0, watched) =~= seq![]);
    assert(uses(arg, Role::Plain, watched) =~= seq![escape]);
    assert(uses_in_children(expr, Role::Plain, 0, watched) =~= seq![]);
    assert(uses_in_children(expr, Role::Plain, 1, watched) =~= seq![]);
    assert(uses_in_children(expr, Role::Plain, 2, watched) =~= seq![escape]);
    assert(uses(expr, Role::Plain, watched) =~= seq![escape]);
    one_more_use_changes_one_entry(
        before,
        after,
        span_lo,
        expr,
        unresolved_mark,
        result_before,
        result_after,
        object.id(),
        position,
        escape,
    );
}

} // verus!
