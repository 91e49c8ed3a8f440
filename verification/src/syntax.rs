//! The syntax tree that the analyses work on.
//!
//! A tree holds what the analyses look at and nothing else: the syntax that they tell apart has
//! a variant of its own, and all other syntax is an [`Node::Other`] that gathers its parts in the
//! order in which they stand in the source. Types, names that are no identifiers, comments and
//! tokens have no node.

use swc_core::ecma::ast::Expr;
use vstd::prelude::*;

verus! {

/// A binding's identity: its name, and the number of the syntax context that tells bindings of
/// one name apart.
pub type Id = (String, u32);

/// An [`Id`] as contracts speak of it.
pub type IdView = (Seq<char>, u32);

/// What contracts see of an [`Id`].
pub open spec fn id_view(id: Id) -> IdView {
    (id.0@, id.1)
}

/// A mark that the resolver gave out.
#[derive(Debug, Clone, Copy, PartialEq, Eq)]
pub struct Mark {
    /// The mark's own number.
    pub number: u32,
    /// The number of the syntax context that carries this mark and no other.
    pub ctxt: u32,
}

/// An identifier, be it a reference or a binding.
#[derive(Debug)]
pub struct Ident {
    pub sym: String,
    /// The number of the identifier's syntax context.
    pub ctxt: u32,
    /// The number of the outermost mark of that context.
    pub outer: u32,
}

impl Ident {
    /// The binding that this identifier names.
    pub open spec fn id(self) -> IdView {
        (self.sym@, self.ctxt)
    }

    /// The binding that this identifier names.
    pub fn to_id(&self) -> (id: Id)
        ensures
            id_view(id) == self.id(),
    {
        (self.sym.clone(), self.ctxt)
    }
}

/// A literal.
#[derive(Debug)]
pub enum Lit {
    Bool(bool),
    Str(String),
    Other,
}

/// The operator of an assignment.
#[derive(Debug, Clone, Copy, PartialEq, Eq)]
pub enum AssignOp {
    /// `=`
    Assign,
    /// `+=` and the like.
    Compound,
}

/// `left = right`
#[derive(Debug)]
pub struct AssignExpr {
    pub op: AssignOp,
    /// The target: a [`Node::Member`] where a member is assigned to.
    pub left: Box<Node>,
    pub right: Box<Node>,
    /// The right-hand side once more, as the parser left it.
    pub value: Box<Expr>,
}

/// What stands behind the object in a member access.
#[derive(Debug)]
pub enum MemberProp {
    /// `obj.name`
    Ident(String),
    /// `obj.#name`
    PrivateName,
    /// `obj[key]`
    Computed(Box<Node>),
}

/// `obj.prop`
#[derive(Debug)]
pub struct MemberExpr {
    pub obj: Box<Node>,
    pub prop: MemberProp,
}

/// `callee(args)`
#[derive(Debug)]
pub struct CallExpr {
    /// Where the call starts in the source.
    pub span_lo: u32,
    /// The called expression; `super` and `import` are an empty [`Node::Other`].
    pub callee: Box<Node>,
    /// The arguments; one that is spread is a [`Node::Spread`].
    pub args: Vec<Node>,
}

/// `first, second, last`
#[derive(Debug)]
pub struct SeqExpr {
    /// The operands in front of the last one, whose values are discarded.
    pub init: Vec<Node>,
    /// The operands of `init` once more, as the parser left them.
    pub values: Vec<Expr>,
    pub last: Box<Node>,
}

/// `name = init` in a variable declaration.
#[derive(Debug)]
pub struct VarDeclarator {
    /// The pattern: a [`Node::Ident`] for a plain name, a [`Node::ObjectPat`] for `{ .. }`.
    pub name: Box<Node>,
    pub init: Option<Box<Node>>,
}

/// A key in an object pattern.
#[derive(Debug)]
pub enum PropName {
    Ident(String),
    Str(String),
    Computed(Box<Node>),
    /// A number.
    Other,
}

/// `key: value` in an object pattern.
#[derive(Debug)]
pub struct KeyValuePatProp {
    pub key: PropName,
    pub value: Box<Node>,
}

/// `key` or `key = value` in an object pattern.
#[derive(Debug)]
pub struct AssignPatProp {
    pub key: Ident,
    pub value: Option<Box<Node>>,
}

/// A piece of syntax.
#[derive(Debug)]
pub enum Node {
    Ident(Ident),
    /// `this`
    This,
    Lit(Lit),
    /// `(inner)`
    Paren(Box<Node>),
    Sequence(SeqExpr),
    Assign(AssignExpr),
    Member(MemberExpr),
    Call(CallExpr),
    /// `...inner` among the arguments of a call.
    Spread(Box<Node>),
    VarDeclarator(VarDeclarator),
    /// `{ .. }` as a pattern. A rest element in it is a [`Node::Other`].
    ObjectPat(Vec<Node>),
    KeyValuePatProp(KeyValuePatProp),
    AssignPatProp(AssignPatProp),
    /// `inner++`, `inner--`, `++inner` or `--inner`.
    Update(Box<Node>),
    /// `delete inner`
    Delete(Box<Node>),
    /// An expression that a pattern assigns to, as `inner` in `[inner] = list`.
    PatExpr(Box<Node>),
    /// Syntax around an expression that passes on what is done to the whole: a member access with
    /// `?.`, and TypeScript's `inner as T` and the like.
    Wrapped(Box<Node>),
    /// `export` in front of a declaration. The parts are the declarators of a variable declaration;
    /// those of any other declaration are gathered under one node.
    ExportDecl(Vec<Node>),
    /// A function or a constructor, which has a `this` of its own; an arrow function has none
    /// and is a [`Node::Other`].
    Function(Vec<Node>),
    /// Any other syntax.
    Other(Vec<Node>),
}

/// The kinds of statement that are told apart.
#[derive(Debug)]
pub enum StmtKind {
    /// An expression statement.
    Expr(Node),
    /// `;`
    Empty,
    /// Any other statement, its parts gathered under one node.
    Other(Node),
}

/// A statement.
#[derive(Debug)]
pub struct Stmt {
    /// Where the statement starts in the source.
    pub span_lo: u32,
    pub kind: StmtKind,
}

/// An item of a module's body.
#[derive(Debug)]
pub enum ModuleItem {
    Stmt(Stmt),
    /// An `import` or `export` declaration, its parts gathered under one node. A declaration behind
    /// `export` is a [`Node::ExportDecl`] there.
    ModuleDecl(Node),
}

/// A source file.
#[derive(Debug)]
pub enum Program {
    Module(Vec<ModuleItem>),
    Script(Vec<Stmt>),
}

/// The statements among the items of a module's body.
pub open spec fn module_statements(items: Seq<ModuleItem>) -> Seq<Stmt>
    decreases items.len(),
{
    if items.len() == 0 {
        seq![]
    } else {
        let before = module_statements(items.drop_last());
        match items.last() {
            ModuleItem::Stmt(stmt) => before.push(stmt),
            ModuleItem::ModuleDecl(_) => before,
        }
    }
}

/// The statements at the top level of `program`, in source order.
pub open spec fn statements(program: Program) -> Seq<Stmt> {
    match program {
        Program::Module(body) => module_statements(body@),
        Program::Script(body) => body@,
    }
}

impl Program {
    /// The statements at the top level, in source order. Module declarations are none.
    pub fn statements(&self) -> (stmts: Vec<&Stmt>)
        ensures
            stmts@.len() == statements(*self).len(),
            forall|k: int|
                0 <= k < stmts@.len() ==> *(#[trigger] stmts@[k]) == statements(*self)[k],
    {
        let mut stmts: Vec<&Stmt> = Vec::new();
        match self {
            Program::Module(body) => {
                let mut i: usize = 0;
                while i < body.len()
                    invariant
                        i <= body@.len(),
                        stmts@.len() == module_statements(body@.take(i as int)).len(),
                        forall|k: int|
                            0 <= k < stmts@.len() ==> *(#[trigger] stmts@[k]) == module_statements(
                                body@.take(i as int),
                            )[k],
                    decreases body@.len() - i,
                {
                    assert(body@.take(i + 1).drop_last() =~= body@.take(i as int));
                    if let ModuleItem::Stmt(stmt) = &body[i] {
                        stmts.push(stmt);
                    }
                    i += 1;
                }
                assert(body@.take(i as int) =~= body@);
            },
            Program::Script(body) => {
                let mut i: usize = 0;
                while i < body.len()
                    invariant
                        i <= body@.len(),
                        stmts@.len() == i,
                        forall|k: int| 0 <= k < i ==> *(#[trigger] stmts@[k]) == body@[k],
                    decreases body@.len() - i,
                {
                    stmts.push(&body[i]);
                    i += 1;
                }
            },
        }
        stmts
    }

    /// All syntax of the program, in source order.
    pub fn roots(&self) -> (nodes: Vec<&Node>)
        ensures
            nodes@.len() == roots(*self).len(),
            forall|k: int| 0 <= k < nodes@.len() ==> *(#[trigger] nodes@[k]) == roots(*self)[k],
    {
        let mut nodes: Vec<&Node> = Vec::new();
        match self {
            Program::Module(body) => {
                let mut i: usize = 0;
                while i < body.len()
                    invariant
                        i <= body@.len(),
                        nodes@.len() == module_roots(body@.take(i as int)).len(),
                        forall|k: int|
                            0 <= k < nodes@.len() ==> *(#[trigger] nodes@[k]) == module_roots(
                                body@.take(i as int),
                            )[k],
                    decreases body@.len() - i,
                {
                    assert(body@.take(i + 1).drop_last() =~= body@.take(i as int));
                    match &body[i] {
                        ModuleItem::Stmt(stmt) => push_stmt(&mut nodes, stmt),
                        ModuleItem::ModuleDecl(parts) => nodes.push(parts),
                    }
                    i += 1;
                }
                assert(body@.take(i as int) =~= body@);
            },
            Program::Script(body) => {
                let mut i: usize = 0;
                while i < body.len()
                    invariant
                        i <= body@.len(),
                        nodes@.len() == script_roots(body@.take(i as int)).len(),
                        forall|k: int|
                            0 <= k < nodes@.len() ==> *(#[trigger] nodes@[k]) == script_roots(
                                body@.take(i as int),
                            )[k],
                    decreases body@.len() - i,
                {
                    assert(body@.take(i + 1).drop_last() =~= body@.take(i as int));
                    push_stmt(&mut nodes, &body[i]);
                    i += 1;
                }
                assert(body@.take(i as int) =~= body@);
            },
        }
        nodes
    }
}

/// The syntax that the statement `stmt` is made of.
pub open spec fn stmt_roots(stmt: Stmt) -> Seq<Node> {
    match stmt.kind {
        StmtKind::Expr(expr) => seq![expr],
        StmtKind::Empty => seq![],
        StmtKind::Other(parts) => seq![parts],
    }
}

/// The syntax that the statements `body` are made of, in source order.
pub open spec fn script_roots(body: Seq<Stmt>) -> Seq<Node>
    decreases body.len(),
{
    if body.len() == 0 {
        seq![]
    } else {
        script_roots(body.drop_last()) + stmt_roots(body.last())
    }
}

/// The syntax that the items `body` of a module are made of, in source order.
pub open spec fn module_roots(body: Seq<ModuleItem>) -> Seq<Node>
    decreases body.len(),
{
    if body.len() == 0 {
        seq![]
    } else {
        module_roots(body.drop_last()) + match body.last() {
            ModuleItem::Stmt(stmt) => stmt_roots(stmt),
            ModuleItem::ModuleDecl(parts) => seq![parts],
        }
    }
}

/// All syntax of `program`, in source order.
pub open spec fn roots(program: Program) -> Seq<Node> {
    match program {
        Program::Module(body) => module_roots(body@),
        Program::Script(body) => script_roots(body@),
    }
}

/// The parts of `prop` that hold syntax.
pub open spec fn member_prop_children(prop: MemberProp) -> Seq<Node> {
    match prop {
        MemberProp::Computed(key) => seq![*key],
        _ => seq![],
    }
}

/// The parts of `key` that hold syntax.
pub open spec fn prop_name_children(key: PropName) -> Seq<Node> {
    match key {
        PropName::Computed(key) => seq![*key],
        _ => seq![],
    }
}

/// The node in `node`, if there is one.
pub open spec fn optional_child(node: Option<Box<Node>>) -> Seq<Node> {
    match node {
        Some(node) => seq![*node],
        None => seq![],
    }
}

/// The nodes right below `node`, in source order.
pub open spec fn children(node: Node) -> Seq<Node> {
    match node {
        Node::Ident(_) | Node::This | Node::Lit(_) => seq![],
        Node::Paren(inner) => seq![*inner],
        Node::Sequence(sequence) => sequence.init@.push(*sequence.last),
        Node::Assign(assign) => seq![*assign.left, *assign.right],
        Node::Member(member) => seq![*member.obj] + member_prop_children(member.prop),
        Node::Call(call) => seq![*call.callee] + call.args@,
        Node::Spread(inner) => seq![*inner],
        Node::VarDeclarator(declarator) => seq![*declarator.name] + optional_child(declarator.init),
        Node::ObjectPat(props) => props@,
        Node::KeyValuePatProp(prop) => prop_name_children(prop.key).push(*prop.value),
        Node::AssignPatProp(prop) => optional_child(prop.value),
        Node::Update(inner) => seq![*inner],
        Node::Delete(inner) => seq![*inner],
        Node::PatExpr(inner) => seq![*inner],
        Node::Wrapped(inner) => seq![*inner],
        Node::ExportDecl(parts) => parts@,
        Node::Function(parts) => parts@,
        Node::Other(parts) => parts@,
    }
}

/// The identifier that `node` itself is or binds.
pub open spec fn own_ident(node: Node) -> Option<Ident> {
    match node {
        Node::Ident(ident) => Some(ident),
        Node::AssignPatProp(prop) => Some(prop.key),
        _ => None,
    }
}

/// A node is larger than each of its children.
pub proof fn lemma_child_is_smaller(node: Node, k: int)
    requires
        0 <= k < children(node).len(),
    ensures
        decreases_to!(node => children(node)[k]),
{
    match node {
        Node::Sequence(sequence) => {
            if k < sequence.init@.len() {
                assert(decreases_to!(sequence.init@ => sequence.init@[k]));
            }
        },
        Node::Call(call) => {
            if k > 0 {
                assert(children(node)[k] == call.args@[k - 1]);
                assert(decreases_to!(call.args@ => call.args@[k - 1]));
            }
        },
        Node::ObjectPat(props) => {
            assert(decreases_to!(props@ => props@[k]));
        },
        Node::ExportDecl(parts) => {
            assert(decreases_to!(parts@ => parts@[k]));
        },
        Node::Function(parts) => {
            assert(decreases_to!(parts@ => parts@[k]));
        },
        Node::Other(parts) => {
            assert(decreases_to!(parts@ => parts@[k]));
        },
        _ => {},
    }
}

/// What the syntax around a node does with it.
#[derive(Debug, Clone, Copy, PartialEq, Eq)]
pub enum Role {
    /// Nothing of the following.
    Plain,
    /// It is assigned to, updated or deleted.
    Written,
    /// It is a part of an exported declaration.
    Exported,
}

/// The role of the child `k` of `node`, where `node` itself has the role `role`.
pub open spec fn child_role(node: Node, k: int, role: Role) -> Role {
    match node {
        Node::Paren(_) | Node::Wrapped(_) => role,
        Node::Assign(_) => if k == 0 {
            Role::Written
        } else {
            Role::Plain
        },
        Node::Update(_) | Node::Delete(_) | Node::PatExpr(_) => Role::Written,
        Node::ExportDecl(_) => Role::Exported,
        _ => Role::Plain,
    }
}

/// A node in its role.
pub struct Place {
    pub node: Node,
    pub role: Role,
}

/// `node`, which has the role `role`, and all nodes below it, each before the nodes below it, in
/// source order.
pub open spec fn preorder(node: Node, role: Role) -> Seq<Place>
    decreases node, children(node).len() + 1,
{
    seq![Place { node, role }] + preorder_of_children(node, role, children(node).len())
}

/// The nodes of the first `n` children of `node`, and all nodes below them.
pub open spec fn preorder_of_children(node: Node, role: Role, n: nat) -> Seq<Place>
    decreases node, n,
{
    if 0 < n <= children(node).len() {
        proof {
            lemma_child_is_smaller(node, n - 1);
        }
        preorder_of_children(node, role, (n - 1) as nat) + preorder(
            children(node)[n - 1],
            child_role(node, n - 1, role),
        )
    } else {
        seq![]
    }
}

/// The nodes of `trees`, tree by tree, each tree as [`preorder`] lists it.
pub open spec fn preorder_of_all(trees: Seq<Node>) -> Seq<Place>
    decreases trees.len(),
{
    if trees.len() == 0 {
        seq![]
    } else {
        preorder_of_all(trees.drop_last()) + preorder(trees.last(), Role::Plain)
    }
}

impl Node {
    /// The nodes right below this one, in source order.
    pub fn children(&self) -> (nodes: Vec<&Node>)
        ensures
            nodes@.len() == children(*self).len(),
            forall|k: int| 0 <= k < nodes@.len() ==> *(#[trigger] nodes@[k]) == children(*self)[k],
    {
        let mut nodes: Vec<&Node> = Vec::new();
        match self {
            Node::Ident(_) | Node::This | Node::Lit(_) => {},
            Node::Paren(inner) => nodes.push(inner),
            Node::Sequence(sequence) => {
                push_all(&mut nodes, &sequence.init);
                nodes.push(&sequence.last);
            },
            Node::Assign(assign) => {
                nodes.push(&assign.left);
                nodes.push(&assign.right);
            },
            Node::Member(member) => {
                nodes.push(&member.obj);
                if let MemberProp::Computed(key) = &member.prop {
                    nodes.push(key);
                }
            },
            Node::Call(call) => {
                nodes.push(&call.callee);
                push_all(&mut nodes, &call.args);
            },
            Node::Spread(inner) => nodes.push(inner),
            Node::VarDeclarator(declarator) => {
                nodes.push(&declarator.name);
                if let Some(init) = &declarator.init {
                    nodes.push(init);
                }
            },
            Node::ObjectPat(props) => push_all(&mut nodes, props),
            Node::KeyValuePatProp(prop) => {
                if let PropName::Computed(key) = &prop.key {
                    nodes.push(key);
                }
                nodes.push(&prop.value);
            },
            Node::AssignPatProp(prop) => {
                if let Some(value) = &prop.value {
                    nodes.push(value);
                }
            },
            Node::Update(inner) => nodes.push(inner),
            Node::Delete(inner) => nodes.push(inner),
            Node::PatExpr(inner) => nodes.push(inner),
            Node::Wrapped(inner) => nodes.push(inner),
            Node::ExportDecl(parts) => push_all(&mut nodes, parts),
            Node::Function(parts) => push_all(&mut nodes, parts),
            Node::Other(parts) => push_all(&mut nodes, parts),
        }
        nodes
    }

    /// The role of the child `k`, where this node has the role `role`.
    pub fn child_role(&self, k: usize, role: Role) -> (child: Role)
        ensures
            child == child_role(*self, k as int, role),
    {
        match self {
            Node::Paren(_) | Node::Wrapped(_) => role,
            Node::Assign(_) => if k == 0 {
                Role::Written
            } else {
                Role::Plain
            },
            Node::Update(_) | Node::Delete(_) | Node::PatExpr(_) => Role::Written,
            Node::ExportDecl(_) => Role::Exported,
            _ => Role::Plain,
        }
    }

    /// The identifier that this node itself is or binds.
    pub fn own_ident(&self) -> (ident: Option<&Ident>)
        ensures
            match ident {
                Some(ident) => own_ident(*self) == Some(*ident),
                None => own_ident(*self) is None,
            },
    {
        match self {
            Node::Ident(ident) => Some(ident),
            Node::AssignPatProp(prop) => Some(&prop.key),
            _ => None,
        }
    }
}

/// Appends a reference to what `stmt` is made of to `nodes`.
fn push_stmt<'a>(nodes: &mut Vec<&'a Node>, stmt: &'a Stmt)
    ensures
        final(nodes)@.len() == old(nodes)@.len() + stmt_roots(*stmt).len(),
        forall|k: int| 0 <= k < old(nodes)@.len() ==> #[trigger] final(nodes)@[k] == old(nodes)@[k],
        forall|k: int|
            0 <= k < stmt_roots(*stmt).len() ==> *final(nodes)@[old(nodes)@.len() + k]
                == #[trigger] stmt_roots(*stmt)[k],
{
    match &stmt.kind {
        StmtKind::Expr(expr) => nodes.push(expr),
        StmtKind::Empty => {},
        StmtKind::Other(parts) => nodes.push(parts),
    }
}

/// Appends a reference to each node of `more` to `nodes`.
fn push_all<'a>(nodes: &mut Vec<&'a Node>, more: &'a Vec<Node>)
    ensures
        final(nodes)@.len() == old(nodes)@.len() + more@.len(),
        forall|k: int| 0 <= k < old(nodes)@.len() ==> #[trigger] final(nodes)@[k] == old(nodes)@[k],
        forall|k: int|
            0 <= k < more@.len() ==> *final(nodes)@[old(nodes)@.len() + k] == #[trigger] more@[k],
{
    let ghost before = nodes@;
    let mut i: usize = 0;
    while i < more.len()
        invariant
            i <= more@.len(),
            nodes@.len() == before.len() + i,
            forall|k: int| 0 <= k < before.len() ==> #[trigger] nodes@[k] == before[k],
            forall|k: int| 0 <= k < i ==> *nodes@[before.len() + k] == #[trigger] more@[k],
        decreases more@.len() - i,
    {
        nodes.push(&more[i]);
        i += 1;
    }
}

} // verus!
