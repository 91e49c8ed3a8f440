//! What holds of the syntax tree and of the questions put to single nodes.

use crate::analyzer::{
    all_keys_static, names_global, names_module_exports, prop_key, prop_keys, read_name,
    static_name, texts, unparenthesized,
};
use crate::names::with_name;
use crate::syntax::{
    child_role, children, id_view, lemma_child_is_smaller, module_roots, module_statements,
    own_ident, preorder, preorder_of_all, preorder_of_children, roots, script_roots, statements, Id,
    Ident, Lit, Mark, MemberExpr, MemberProp, ModuleItem, Node, Place, Program, PropName, Role,
    Stmt, StmtKind,
};
use vstd::prelude::*;

verus! {

/// Whether a field of `node` holds `part`.
pub open spec fn holds(node: Node, part: Node) -> bool {
    match node {
        Node::Ident(_) | Node::This | Node::Lit(_) => false,
        Node::Paren(inner) => part == *inner,
        Node::Sequence(sequence) => sequence.init@.contains(part) || part == *sequence.last,
        Node::Assign(assign) => part == *assign.left || part == *assign.right,
        Node::Member(member) => part == *member.obj || member.prop == MemberProp::Computed(
            Box::new(part),
        ),
        Node::Call(call) => part == *call.callee || call.args@.contains(part),
        Node::Spread(inner) => part == *inner,
        Node::VarDeclarator(declarator) => part == *declarator.name || declarator.init == Some(
            Box::new(part),
        ),
        Node::ObjectPat(props) => props@.contains(part),
        Node::KeyValuePatProp(prop) => prop.key == PropName::Computed(Box::new(part)) || part
            == *prop.value,
        Node::AssignPatProp(prop) => prop.value == Some(Box::new(part)),
        Node::Update(inner) => part == *inner,
        Node::Delete(inner) => part == *inner,
        Node::PatExpr(inner) => part == *inner,
        Node::Wrapped(inner) => part == *inner,
        Node::ExportDecl(parts) => parts@.contains(part),
        Node::Function(parts) => parts@.contains(part),
        Node::Other(parts) => parts@.contains(part),
    }
}

/// The nodes right below a node are the nodes that its fields hold, each once, in source order.
pub proof fn nodes_below_are_the_fields(node: Node)
    ensures
        match node {
            Node::Ident(_) | Node::This | Node::Lit(_) => children(node).len() == 0,
            Node::Paren(inner) | Node::Spread(inner) | Node::Update(inner) | Node::Delete(inner)
            | Node::PatExpr(inner) | Node::Wrapped(inner) => {
                children(node).len() == 1 && children(node)[0] == *inner
            },
            Node::Sequence(sequence) => {
                &&& children(node).len() == sequence.init@.len() + 1
                &&& forall|k: int|
                    0 <= k < sequence.init@.len() ==> children(node)[k]
                        == #[trigger] sequence.init@[k]
                &&& children(node)[sequence.init@.len() as int] == *sequence.last
            },
            Node::Assign(assign) => {
                &&& children(node).len() == 2
                &&& children(node)[0] == *assign.left
                &&& children(node)[1] == *assign.right
            },
            Node::Member(member) => {
                &&& children(node)[0] == *member.obj
                &&& match member.prop {
                    MemberProp::Computed(key) => {
                        children(node).len() == 2 && children(node)[1] == *key
                    },
                    _ => children(node).len() == 1,
                }
            },
            Node::Call(call) => {
                &&& children(node).len() == call.args@.len() + 1
                &&& children(node)[0] == *call.callee
                &&& forall|k: int|
                    0 <= k < call.args@.len() ==> children(node)[k + 1] == #[trigger] call.args@[k]
            },
            Node::VarDeclarator(declarator) => {
                &&& children(node)[0] == *declarator.name
                &&& match declarator.init {
                    Some(init) => children(node).len() == 2 && children(node)[1] == *init,
                    None => children(node).len() == 1,
                }
            },
            Node::ObjectPat(parts) | Node::ExportDecl(parts) | Node::Function(parts)
            | Node::Other(parts) => {
                &&& children(node).len() == parts@.len()
                &&& forall|k: int|
                    0 <= k < parts@.len() ==> children(node)[k] == #[trigger] parts@[k]
            },
            Node::KeyValuePatProp(prop) => match prop.key {
                PropName::Computed(key) => {
                    &&& children(node).len() == 2
                    &&& children(node)[0] == *key
                    &&& children(node)[1] == *prop.value
                },
                _ => children(node).len() == 1 && children(node)[0] == *prop.value,
            },
            Node::AssignPatProp(prop) => match prop.value {
                Some(value) => children(node).len() == 1 && children(node)[0] == *value,
                None => children(node).len() == 0,
            },
        },
{
}

/// Every node that a field of `node` holds is right below it, and no other is.
pub proof fn every_field_is_visited(node: Node, part: Node)
    ensures
        children(node).contains(part) == holds(node, part),
{
    nodes_below_are_the_fields(node);
    let below = children(node);
    if below.contains(part) {
        let k = choose|k: int| 0 <= k < below.len() && below[k] == part;
        match node {
            Node::Sequence(sequence) => {
                if k < sequence.init@.len() {
                    assert(sequence.init@[k] == part);
                }
            },
            Node::Call(call) => {
                if k > 0 {
                    assert(call.args@[k - 1] == part);
                }
            },
            Node::ObjectPat(parts) | Node::ExportDecl(parts) | Node::Function(parts)
            | Node::Other(parts) => {
                assert(parts@[k] == part);
            },
            _ => {},
        }
    }
    if holds(node, part) {
        match node {
            Node::Sequence(sequence) => {
                if sequence.init@.contains(part) {
                    let k = choose|k: int| 0 <= k < sequence.init@.len() && sequence.init@[k] == part;
                    assert(below[k] == part);
                } else {
                    assert(below[sequence.init@.len() as int] == part);
                }
            },
            Node::Call(call) => {
                if call.args@.contains(part) {
                    let k = choose|k: int| 0 <= k < call.args@.len() && call.args@[k] == part;
                    assert(below[k + 1] == part);
                } else {
                    assert(below[0] == part);
                }
            },
            Node::ObjectPat(parts) | Node::ExportDecl(parts) | Node::Function(parts)
            | Node::Other(parts) => {
                let k = choose|k: int| 0 <= k < parts@.len() && parts@[k] == part;
                assert(below[k] == part);
            },
            _ => {
                if below[0] != part {
                    assert(below[1] == part);
                }
            },
        }
    }
}

/// What is done to a node follows from the syntax right above it. The target of an assignment, the
/// operand of an update or of `delete`, and a leaf of an assigned pattern are written. Parentheses
/// and wrappers pass on what is done to them. The parts of an exported declaration are exported.
/// Nothing else passes anything on.
pub proof fn roles_follow_the_syntax(node: Node, k: int, role: Role)
    ensures
        (child_role(node, k, role) is Written) == match node {
            Node::Assign(_) => k == 0,
            Node::Update(_) | Node::Delete(_) | Node::PatExpr(_) => true,
            Node::Paren(_) | Node::Wrapped(_) => role is Written,
            _ => false,
        },
        (child_role(node, k, role) is Exported) == match node {
            Node::ExportDecl(_) => true,
            Node::Paren(_) | Node::Wrapped(_) => role is Exported,
            _ => false,
        },
{
}

/// An identifier, and the shorthand key of an object pattern, name a binding; no other node does by
/// itself.
pub proof fn identifiers_name_bindings(node: Node)
    ensures
        own_ident(node) == match node {
            Node::Ident(ident) => Some(ident),
            Node::AssignPatProp(prop) => Some(prop.key),
            _ => None::<Ident>,
        },
{
}

/// Two identifiers name one binding exactly if both their names and their contexts agree.
pub proof fn bindings_are_told_apart(first: Ident, second: Ident, id: Id)
    ensures
        (first.id() == second.id()) == (first.sym@ == second.sym@ && first.ctxt == second.ctxt),
        (first.id() == id_view(id)) == (first.sym@ == id.0@ && first.ctxt == id.1),
{
}

/// Whether each of `chain` is held in a field of the one before it.
pub open spec fn is_chain(chain: Seq<Node>) -> bool {
    &&& chain.len() > 0
    &&& forall|k: int|
        0 <= k < chain.len() - 1 ==> holds(#[trigger] chain[k], chain[k + 1])
}

/// Whether `node` stands in `tree`, at whatever depth.
pub open spec fn stands_in(tree: Node, node: Node) -> bool {
    exists|chain: Seq<Node>| #[trigger]
        is_chain(chain) && chain[0] == tree && chain.last() == node
}

/// A chain without its first node.
pub proof fn lemma_rest_of_chain(chain: Seq<Node>)
    requires
        is_chain(chain),
        chain.len() > 1,
    ensures
        is_chain(chain.drop_first()),
        chain.drop_first()[0] == chain[1],
        chain.drop_first().last() == chain.last(),
        holds(chain[0], chain[1]),
{
    let rest = chain.drop_first();
    assert forall|k: int| 0 <= k < rest.len() - 1 implies holds(#[trigger] rest[k], rest[k + 1]) by {
        assert(holds(chain[k + 1], chain[k + 2]));
    }
}

/// A chain with a node in front.
pub proof fn lemma_longer_chain(node: Node, chain: Seq<Node>)
    requires
        is_chain(chain),
        holds(node, chain[0]),
    ensures
        is_chain(seq![node] + chain),
        (seq![node] + chain)[0] == node,
        (seq![node] + chain).last() == chain.last(),
{
    let longer = seq![node] + chain;
    assert forall|k: int| 0 <= k < longer.len() - 1 implies holds(
        #[trigger] longer[k],
        longer[k + 1],
    ) by {
        if k > 0 {
            assert(holds(chain[k - 1], chain[k]));
        }
    }
}

/// Where the nodes of the child `j` are listed among those below `node`.
pub proof fn lemma_child_is_listed(node: Node, role: Role, n: nat, j: int) -> (start: int)
    requires
        0 <= j < n <= children(node).len(),
    ensures
        0 <= start,
        start + preorder(children(node)[j], child_role(node, j, role)).len()
            <= preorder_of_children(node, role, n).len(),
        forall|l: int|
            0 <= l < preorder(children(node)[j], child_role(node, j, role)).len()
                ==> preorder_of_children(node, role, n)[start + l] == #[trigger] preorder(
                children(node)[j],
                child_role(node, j, role),
            )[l],
    decreases n,
{
    let before = preorder_of_children(node, role, (n - 1) as nat);
    if j < n - 1 {
        lemma_child_is_listed(node, role, (n - 1) as nat, j)
    } else {
        before.len() as int
    }
}

/// A visit reaches every node that stands in a tree, at whatever depth.
pub proof fn visits_reach_every_node(tree: Node, role: Role, node: Node)
    ensures
        stands_in(tree, node) == exists|k: int|
            0 <= k < preorder(tree, role).len() && (#[trigger] preorder(tree, role)[k]).node == node,
{
    let all = preorder(tree, role);
    if stands_in(tree, node) {
        let chain = choose|chain: Seq<Node>| #[trigger]
            is_chain(chain) && chain[0] == tree && chain.last() == node;
        let k = lemma_chain_is_visited(chain, role);
        assert(all[k].node == node);
    }
    if exists|k: int| 0 <= k < all.len() && (#[trigger] all[k]).node == node {
        let k = choose|k: int| 0 <= k < all.len() && (#[trigger] all[k]).node == node;
        let chain = lemma_visited_has_chain(tree, role, k);
        assert(is_chain(chain));
    }
}

/// The end of a chain is visited.
pub proof fn lemma_chain_is_visited(chain: Seq<Node>, role: Role) -> (k: int)
    requires
        is_chain(chain),
    ensures
        0 <= k < preorder(chain[0], role).len(),
        preorder(chain[0], role)[k].node == chain.last(),
    decreases chain.len(),
{
    let node = chain[0];
    if chain.len() == 1 {
        0
    } else {
        lemma_rest_of_chain(chain);
        every_field_is_visited(node, chain[1]);
        let j = choose|j: int| 0 <= j < children(node).len() && children(node)[j] == chain[1];
        let child = child_role(node, j, role);
        let l = lemma_chain_is_visited(chain.drop_first(), child);
        let start = lemma_child_is_listed(node, role, children(node).len(), j);
        assert(preorder(children(node)[j], child)[l].node == chain.last());
        start + l + 1
    }
}

/// A visited node is the end of a chain.
proof fn lemma_visited_has_chain(tree: Node, role: Role, k: int) -> (chain: Seq<Node>)
    requires
        0 <= k < preorder(tree, role).len(),
    ensures
        is_chain(chain),
        chain[0] == tree,
        chain.last() == preorder(tree, role)[k].node,
    decreases tree, children(tree).len() + 1,
{
    if k == 0 {
        seq![tree]
    } else {
        let below = lemma_visited_below_has_chain(tree, role, children(tree).len(), k - 1);
        lemma_longer_chain(tree, below);
        seq![tree] + below
    }
}

/// A node visited below `tree` is the end of a chain from a child.
proof fn lemma_visited_below_has_chain(tree: Node, role: Role, n: nat, k: int) -> (chain: Seq<Node>)
    requires
        n <= children(tree).len(),
        0 <= k < preorder_of_children(tree, role, n).len(),
    ensures
        is_chain(chain),
        holds(tree, chain[0]),
        chain.last() == preorder_of_children(tree, role, n)[k].node,
    decreases tree, n,
{
    let before = preorder_of_children(tree, role, (n - 1) as nat);
    if k < before.len() {
        lemma_visited_below_has_chain(tree, role, (n - 1) as nat, k)
    } else {
        let child = children(tree)[n - 1];
        lemma_child_is_smaller(tree, n - 1);
        every_field_is_visited(tree, child);
        assert(children(tree).contains(child));
        lemma_visited_has_chain(child, child_role(tree, n - 1, role), k - before.len())
    }
}

/// A visit sees a node first and then, child by child, all that stands below it, each node once and
/// in the role that its parent gives it.
pub proof fn visits_go_child_by_child(node: Node, role: Role)
    ensures
        preorder(node, role) == seq![Place { node, role }] + Seq::new(
            children(node).len(),
            |k: int| preorder(children(node)[k], child_role(node, k, role)),
        ).flatten(),
{
    lemma_children_flattened(node, role, children(node).len());
}

proof fn lemma_children_flattened(node: Node, role: Role, n: nat)
    requires
        n <= children(node).len(),
    ensures
        preorder_of_children(node, role, n) == Seq::new(
            n,
            |k: int| preorder(children(node)[k], child_role(node, k, role)),
        ).flatten(),
    decreases n,
{
    let parts = Seq::new(n, |k: int| preorder(children(node)[k], child_role(node, k, role)));
    if n > 0 {
        lemma_children_flattened(node, role, (n - 1) as nat);
        let before = Seq::new(
            (n - 1) as nat,
            |k: int| preorder(children(node)[k], child_role(node, k, role)),
        );
        before.lemma_flatten_push(parts[n - 1]);
        assert(before.push(parts[n - 1]) =~= parts);
    }
}

/// All syntax of a program is visited tree by tree.
pub proof fn trees_are_visited_in_order(trees: Seq<Node>)
    ensures
        preorder_of_all(trees) == trees.map_values(
            |tree: Node| preorder(tree, Role::Plain),
        ).flatten(),
    decreases trees.len(),
{
    let parts = trees.map_values(|tree: Node| preorder(tree, Role::Plain));
    if trees.len() > 0 {
        let rest = trees.drop_last();
        trees_are_visited_in_order(rest);
        let before = rest.map_values(|tree: Node| preorder(tree, Role::Plain));
        before.lemma_flatten_push(preorder(trees.last(), Role::Plain));
        assert(before.push(preorder(trees.last(), Role::Plain)) =~= parts);
    }
}

/// The top-level statements of a program are its statements, all of them, in their order; module
/// declarations are passed over.
pub proof fn statements_are_kept_in_order(program: Program)
    ensures
        match program {
            Program::Script(body) => statements(program) == body@,
            Program::Module(items) => statements(program) == items@.filter(
                |item: ModuleItem| item is Stmt,
            ).map_values(|item: ModuleItem| item->Stmt_0),
        },
{
    if let Program::Module(items) = program {
        lemma_module_statements(items@);
    }
}

proof fn lemma_module_statements(items: Seq<ModuleItem>)
    ensures
        module_statements(items) == items.filter(
            |item: ModuleItem| item is Stmt,
        ).map_values(|item: ModuleItem| item->Stmt_0),
    decreases items.len(),
{
    reveal(Seq::filter);
    if items.len() > 0 {
        lemma_module_statements(items.drop_last());
    }
    assert(module_statements(items) =~= items.filter(
        |item: ModuleItem| item is Stmt,
    ).map_values(|item: ModuleItem| item->Stmt_0));
}

/// The syntax that a statement other than `;` is made of.
pub open spec fn stmt_syntax(stmt: Stmt) -> Node {
    match stmt.kind {
        StmtKind::Expr(expr) => expr,
        StmtKind::Other(parts) => parts,
        StmtKind::Empty => arbitrary(),
    }
}

/// The syntax that an item other than `;` is made of.
pub open spec fn item_syntax(item: ModuleItem) -> Node {
    match item {
        ModuleItem::Stmt(stmt) => stmt_syntax(stmt),
        ModuleItem::ModuleDecl(parts) => parts,
    }
}

/// The syntax of a program is that of its statements and declarations, all of them, in their order.
pub proof fn all_items_are_scanned(program: Program)
    ensures
        match program {
            Program::Script(body) => roots(program) == body@.filter(
                |stmt: Stmt| !(stmt.kind is Empty),
            ).map_values(|stmt: Stmt| stmt_syntax(stmt)),
            Program::Module(items) => roots(program) == items@.filter(
                |item: ModuleItem| !(item matches ModuleItem::Stmt(stmt) && stmt.kind is Empty),
            ).map_values(|item: ModuleItem| item_syntax(item)),
        },
{
    match program {
        Program::Script(body) => lemma_script_roots(body@),
        Program::Module(items) => lemma_module_roots(items@),
    }
}

proof fn lemma_script_roots(body: Seq<Stmt>)
    ensures
        script_roots(body) == body.filter(
            |stmt: Stmt| !(stmt.kind is Empty),
        ).map_values(|stmt: Stmt| stmt_syntax(stmt)),
    decreases body.len(),
{
    reveal(Seq::filter);
    if body.len() > 0 {
        lemma_script_roots(body.drop_last());
    }
    assert(script_roots(body) =~= body.filter(
        |stmt: Stmt| !(stmt.kind is Empty),
    ).map_values(|stmt: Stmt| stmt_syntax(stmt)));
}

proof fn lemma_module_roots(items: Seq<ModuleItem>)
    ensures
        module_roots(items) == items.filter(
            |item: ModuleItem| !(item matches ModuleItem::Stmt(stmt) && stmt.kind is Empty),
        ).map_values(|item: ModuleItem| item_syntax(item)),
    decreases items.len(),
{
    reveal(Seq::filter);
    if items.len() > 0 {
        lemma_module_roots(items.drop_last());
    }
    assert(module_roots(items) =~= items.filter(
        |item: ModuleItem| !(item matches ModuleItem::Stmt(stmt) && stmt.kind is Empty),
    ).map_values(|item: ModuleItem| item_syntax(item)));
}

/// Whether `tree` is a statement's or a declaration's syntax in `program`.
pub open spec fn is_tree_of(program: Program, tree: Node) -> bool {
    match program {
        Program::Script(body) => exists|k: int|
            0 <= k < body@.len() && ((#[trigger] body@[k]).kind == StmtKind::Expr(tree)
                || body@[k].kind == StmtKind::Other(tree)),
        Program::Module(items) => exists|k: int|
            0 <= k < items@.len() && match #[trigger] items@[k] {
                ModuleItem::Stmt(stmt) => stmt.kind == StmtKind::Expr(tree) || stmt.kind
                    == StmtKind::Other(tree),
                ModuleItem::ModuleDecl(parts) => parts == tree,
            },
    }
}

/// No statement and no declaration is left out of a scan, and nothing else is scanned.
pub proof fn every_tree_is_scanned(program: Program, tree: Node)
    ensures
        roots(program).contains(tree) == is_tree_of(program, tree),
{
    match program {
        Program::Script(body) => lemma_script_trees(body@, tree),
        Program::Module(items) => lemma_module_trees(items@, tree),
    }
}

proof fn lemma_script_trees(body: Seq<Stmt>, tree: Node)
    ensures
        script_roots(body).contains(tree) == exists|k: int|
            0 <= k < body.len() && ((#[trigger] body[k]).kind == StmtKind::Expr(tree)
                || body[k].kind == StmtKind::Other(tree)),
    decreases body.len(),
{
    let all = script_roots(body);
    if body.len() > 0 {
        let rest = body.drop_last();
        let last = body.len() - 1;
        lemma_script_trees(rest, tree);
        let before = script_roots(rest);
        assert(forall|k: int| 0 <= k < last ==> rest[k] == #[trigger] body[k]);
        if before.contains(tree) {
            let k = choose|k: int| 0 <= k < before.len() && before[k] == tree;
            assert(all[k] == tree);
        }
        if body[last].kind == StmtKind::Expr(tree) || body[last].kind == StmtKind::Other(tree) {
            assert(all[before.len() as int] == tree);
        }
        if all.contains(tree) && !before.contains(tree) {
            let k = choose|k: int| 0 <= k < all.len() && all[k] == tree;
            if k < before.len() {
                assert(before[k] == tree);
            }
            assert(body[last].kind == StmtKind::Expr(tree) || body[last].kind == StmtKind::Other(
                tree,
            ));
        }
    }
}

proof fn lemma_module_trees(items: Seq<ModuleItem>, tree: Node)
    ensures
        module_roots(items).contains(tree) == exists|k: int|
            0 <= k < items.len() && match #[trigger] items[k] {
                ModuleItem::Stmt(stmt) => stmt.kind == StmtKind::Expr(tree) || stmt.kind
                    == StmtKind::Other(tree),
                ModuleItem::ModuleDecl(parts) => parts == tree,
            },
    decreases items.len(),
{
    let all = module_roots(items);
    if items.len() > 0 {
        let rest = items.drop_last();
        let last = items.len() - 1;
        lemma_module_trees(rest, tree);
        let before = module_roots(rest);
        assert(forall|k: int| 0 <= k < last ==> rest[k] == #[trigger] items[k]);
        if before.contains(tree) {
            let k = choose|k: int| 0 <= k < before.len() && before[k] == tree;
            assert(all[k] == tree);
        }
        let hit = match items[last] {
            ModuleItem::Stmt(stmt) => stmt.kind == StmtKind::Expr(tree) || stmt.kind
                == StmtKind::Other(tree),
            ModuleItem::ModuleDecl(parts) => parts == tree,
        };
        if hit {
            assert(all[before.len() as int] == tree);
        }
        if all.contains(tree) && !before.contains(tree) {
            let k = choose|k: int| 0 <= k < all.len() && all[k] == tree;
            if k < before.len() {
                assert(before[k] == tree);
            }
            assert(hit);
        }
    }
}

/// Looking through parentheses and commas ends at an expression that is neither, goes to what stands
/// inside parentheses and to the last operand of a comma expression, and leaves all else alone.
pub proof fn only_parens_and_commas_are_looked_through(expr: Node)
    ensures
        !(unparenthesized(expr) is Paren),
        !(unparenthesized(expr) is Sequence),
        match expr {
            Node::Paren(inner) => unparenthesized(expr) == unparenthesized(*inner),
            Node::Sequence(sequence) => unparenthesized(expr) == unparenthesized(*sequence.last),
            _ => unparenthesized(expr) == expr,
        },
    decreases expr,
{
    match expr {
        Node::Paren(inner) => only_parens_and_commas_are_looked_through(*inner),
        Node::Sequence(sequence) => only_parens_and_commas_are_looked_through(*sequence.last),
        _ => {},
    }
}

/// A name is global exactly where the identifier bears it and its outermost mark is the mark of
/// unresolved names; the rest of its context is of no account.
pub proof fn globals_go_by_name_and_mark(ident: Ident, name: Seq<char>, unresolved_mark: Mark)
    ensures
        names_global(ident, name, unresolved_mark) ==> ident.sym@ == name,
        names_global(ident, name, unresolved_mark) ==> ident.outer == unresolved_mark.number,
        ident.sym@ == name && ident.outer == unresolved_mark.number ==> names_global(
            ident,
            name,
            unresolved_mark,
        ),
{
}

/// `module.exports` is the member `exports`, with a dot, of the identifier `module` that nothing
/// declares; nothing stands for `module` but the identifier itself.
pub proof fn module_exports_is_spelled_out(member: MemberExpr, unresolved_mark: Mark)
    ensures
        names_module_exports(member, unresolved_mark) == {
            &&& *member.obj is Ident
            &&& (*member.obj)->Ident_0.sym@ == "module"@
            &&& (*member.obj)->Ident_0.outer == unresolved_mark.number
            &&& member.prop is Ident
            &&& member.prop->Ident_0@ == "exports"@
        },
{
}

/// The source names a member after a dot and as a string literal in brackets, by just that text, and
/// in no other way. Where the member is written the source names none that is read.
pub proof fn static_names_are_spelled_out(member: MemberExpr, role: Role)
    ensures
        match member.prop {
            MemberProp::Ident(name) => static_name(member.prop) == Some(name@),
            MemberProp::Computed(key) => match *key {
                Node::Lit(Lit::Str(name)) => static_name(member.prop) == Some(name@),
                _ => static_name(member.prop) is None,
            },
            MemberProp::PrivateName => static_name(member.prop) is None,
        },
        role is Written ==> read_name(member, role) is None,
        !(role is Written) ==> read_name(member, role) == static_name(member.prop),
{
}

/// An element of an object pattern takes out the member that its key names: a plain or a quoted
/// name, or the shorthand itself, with or without a default value. A computed key, a number and a
/// rest element name none.
pub proof fn pattern_keys_are_spelled_out(prop: Node)
    ensures
        match prop {
            Node::AssignPatProp(prop_) => prop_key(prop) == Some(prop_.key.sym@),
            Node::KeyValuePatProp(prop_) => match prop_.key {
                PropName::Ident(name) | PropName::Str(name) => prop_key(prop) == Some(name@),
                PropName::Computed(_) | PropName::Other => prop_key(prop) is None,
            },
            _ => prop_key(prop) is None,
        },
{
}

/// The names taken out by an object pattern are as many as its elements, and the `k`-th is the key
/// of the `k`-th element. They are known exactly if each element names its member.
pub proof fn pattern_names_its_keys(props: Seq<Node>)
    ensures
        prop_keys(props).len() == props.len(),
        all_keys_static(props) ==> forall|k: int|
            0 <= k < props.len() ==> prop_key(props[k]) == Some(#[trigger] prop_keys(props)[k]),
        !all_keys_static(props) ==> exists|k: int|
            0 <= k < props.len() && prop_key(#[trigger] props[k]) is None,
        forall|k: int|
            0 <= k < props.len() && prop_key(#[trigger] props[k]) is None ==> !all_keys_static(
                props,
            ),
{
    if all_keys_static(props) {
        assert forall|k: int| 0 <= k < props.len() implies prop_key(props[k]) == Some(
            #[trigger] prop_keys(props)[k],
        ) by {
            assert(prop_key(props[k]) is Some);
        }
    }
}

/// The texts of strings are theirs, one for one.
pub proof fn texts_are_those_of_the_strings(strings: Seq<String>)
    ensures
        texts(strings).len() == strings.len(),
        forall|k: int| 0 <= k < strings.len() ==> #[trigger] texts(strings)[k] == strings[k]@,
{
}

/// Inserting a name into an ordered set keeps the names that were there, in their places, and puts a
/// new name at the end, once.
pub proof fn names_are_inserted_once_at_the_end(names: Seq<Seq<char>>, name: Seq<char>)
    ensures
        names.len() <= with_name(names, name).len() <= names.len() + 1,
        with_name(names, name).take(names.len() as int) == names,
        (with_name(names, name).len() == names.len()) == names.contains(name),
        !names.contains(name) ==> with_name(names, name).last() == name,
        with_name(names, name).contains(name),
{
    if !names.contains(name) {
        assert(with_name(names, name)[names.len() as int] == name);
    }
    assert(with_name(names, name).take(names.len() as int) =~= names);
}

} // verus!
