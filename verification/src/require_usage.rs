//! Determining how a `require("…")` result is consumed, so the `require` reference can narrow
//! which exports of the required module are used.
//!
//! [`analyze_require_usage`] classifies each call by how its result flows:
//! `const { a } = require(...)` / `require(...).foo` expose the members at the call site;
//! `const x = require(...)` binds the namespace, so every use of `x` is scanned. Deny-by-default:
//! any use that isn't a static member read yields [`ExportUsage::All`].

use crate::analyzer::{
    all_keys_static, extract_names_from_object_pat, extract_read_name, is_global, names_global,
    prop_keys, read_name, texts, unparen, unparenthesized,
};
use crate::names::{with_name, NameSet};
use crate::outside::{
    contains_usage, insert_position, insert_usage, insert_usage_at, into_entries,
    new_positions_by_id, new_usage_by_id, new_usage_by_position, positions_by_id, remove_usage,
    usage_by_id, usage_mut,
};
use crate::syntax::{
    child_role, children, id_view, lemma_child_is_smaller, own_ident, preorder, preorder_of_all,
    preorder_of_children, roots, CallExpr, Id, IdView, Ident, Lit, Mark, MemberExpr, MemberProp,
    Node, Place, Program, Role, VarDeclarator,
};
use rustc_hash::FxHashMap;
use vstd::prelude::*;

verus! {

/// Which exports of a required module are used.
#[derive(Debug)]
pub enum ExportUsage {
    /// The named members of the namespace, in source order.
    PartialNamespaceObject(Vec<String>),
    /// The whole namespace.
    All,
}

/// An [`ExportUsage`] as contracts speak of it.
#[verifier::ext_equal]
pub enum ExportUsageView {
    PartialNamespaceObject(Seq<Seq<char>>),
    All,
}

impl View for ExportUsage {
    type V = ExportUsageView;

    open spec fn view(&self) -> ExportUsageView {
        match *self {
            ExportUsage::PartialNamespaceObject(names) => ExportUsageView::PartialNamespaceObject(
                texts(names@),
            ),
            ExportUsage::All => ExportUsageView::All,
        }
    }
}

/// How a namespace-valued binding (a `require()` result) is used module-wide.
#[derive(Debug)]
pub enum NamespaceUsage {
    /// Members read via static access (`ns.foo` / `ns["foo"]`), in source order. Empty means the
    /// binding is never used.
    Members(NameSet),
    /// Used wholesale at least once (bare reference, reassignment, dynamic member, spread, …), so
    /// the whole namespace is observable.
    Escaped,
}

/// A [`NamespaceUsage`] as contracts speak of it.
#[verifier::ext_equal]
pub enum NamespaceUsageView {
    Members(Seq<Seq<char>>),
    Escaped,
}

impl View for NamespaceUsage {
    type V = NamespaceUsageView;

    open spec fn view(&self) -> NamespaceUsageView {
        match *self {
            NamespaceUsage::Members(names) => NamespaceUsageView::Members(names@),
            NamespaceUsage::Escaped => NamespaceUsageView::Escaped,
        }
    }
}

/// The call that `expr` is, if it is a `require("<string literal>")` call.
pub open spec fn require_call(expr: Node, unresolved_mark: Mark) -> Option<CallExpr> {
    match unparenthesized(expr) {
        Node::Call(call) => if {
            &&& *call.callee matches Node::Ident(function)
            &&& names_global(function, "require"@, unresolved_mark)
            &&& call.args@.len() == 1
            &&& unparenthesized(call.args@[0]) is Lit
            &&& unparenthesized(call.args@[0])->Lit_0 is Str
        } {
            Some(call)
        } else {
            None
        },
        _ => None,
    }
}

/// If `expr` is a `require("<string literal>")` call, returns it.
fn as_require_call(expr: &Node, unresolved_mark: Mark) -> (call: Option<&CallExpr>)
    ensures
        match call {
            Some(call) => require_call(*expr, unresolved_mark) == Some(*call),
            None => require_call(*expr, unresolved_mark) is None,
        },
{
    let call = match unparen(expr) {
        Node::Call(call) => call,
        _ => return None,
    };
    let function = match &*call.callee {
        Node::Ident(function) => function,
        _ => return None,
    };
    if !is_global(function, "require", unresolved_mark) {
        return None;
    }
    if call.args.len() != 1 {
        return None;
    }
    // A spread argument is no literal.
    match unparen(&call.args[0]) {
        Node::Lit(Lit::Str(_)) => Some(call),
        _ => None,
    }
}

/// What is known of the `require` calls after a part of the program was seen.
#[verifier::ext_equal]
pub struct RequireCalls {
    /// The bindings that hold the result of a call, each with the position of the call.
    pub bindings: Map<IdView, u32>,
    /// The calls whose use shows at the call site.
    pub resolved: Map<u32, ExportUsageView>,
}

/// The usage that the object pattern `{ props }` shows.
pub open spec fn pattern_usage(props: Seq<Node>) -> ExportUsageView {
    if all_keys_static(props) {
        ExportUsageView::PartialNamespaceObject(prop_keys(props))
    } else {
        ExportUsageView::All
    }
}

/// The usage that the access `member` in the role `role` shows.
pub open spec fn member_usage(member: MemberExpr, role: Role) -> ExportUsageView {
    match read_name(member, role) {
        Some(name) => ExportUsageView::PartialNamespaceObject(seq![name]),
        None => ExportUsageView::All,
    }
}

/// What is known of the calls once the node at `place` was seen. Of two facts on one binding or on
/// one position the later one counts.
pub open spec fn with_node(
    calls: RequireCalls,
    place: Place,
    unresolved_mark: Mark,
) -> RequireCalls {
    match place.node {
        Node::VarDeclarator(declarator) => match declarator.init {
            Some(init) => match require_call(*init, unresolved_mark) {
                Some(call) => match *declarator.name {
                    Node::Ident(binding) => RequireCalls {
                        bindings: calls.bindings.insert(binding.id(), call.span_lo),
                        ..calls
                    },
                    Node::ObjectPat(props) => RequireCalls {
                        resolved: calls.resolved.insert(call.span_lo, pattern_usage(props@)),
                        ..calls
                    },
                    _ => RequireCalls {
                        resolved: calls.resolved.insert(call.span_lo, ExportUsageView::All),
                        ..calls
                    },
                },
                None => calls,
            },
            None => calls,
        },
        Node::Member(member) => match require_call(*member.obj, unresolved_mark) {
            Some(call) => RequireCalls {
                resolved: calls.resolved.insert(call.span_lo, member_usage(member, place.role)),
                ..calls
            },
            None => calls,
        },
        _ => calls,
    }
}

/// What is known of the calls once `nodes` were seen, one after the other.
pub open spec fn with_nodes(
    calls: RequireCalls,
    nodes: Seq<Place>,
    unresolved_mark: Mark,
) -> RequireCalls
    decreases nodes.len(),
{
    if nodes.len() == 0 {
        calls
    } else {
        with_node(
            with_nodes(calls, nodes.drop_last(), unresolved_mark),
            nodes.last(),
            unresolved_mark,
        )
    }
}

/// What the whole of `program` tells of its `require` calls.
pub open spec fn require_calls(program: Program, unresolved_mark: Mark) -> RequireCalls {
    with_nodes(
        RequireCalls { bindings: Map::empty(), resolved: Map::empty() },
        preorder_of_all(roots(program)),
        unresolved_mark,
    )
}

/// Nodes may be seen in two goes.
pub(crate) proof fn lemma_with_nodes_split(
    calls: RequireCalls,
    first: Seq<Place>,
    second: Seq<Place>,
    unresolved_mark: Mark,
)
    ensures
        with_nodes(calls, first + second, unresolved_mark) == with_nodes(
            with_nodes(calls, first, unresolved_mark),
            second,
            unresolved_mark,
        ),
    decreases second.len(),
{
    if second.len() == 0 {
        assert(first + second =~= first);
    } else {
        lemma_with_nodes_split(calls, first, second.drop_last(), unresolved_mark);
        assert((first + second).drop_last() =~= first + second.drop_last());
    }
}

/// Seeing one node.
proof fn lemma_with_nodes_one(calls: RequireCalls, place: Place, unresolved_mark: Mark)
    ensures
        with_nodes(calls, seq![place], unresolved_mark) == with_node(calls, place, unresolved_mark),
{
    reveal_with_fuel(with_nodes, 2);
    assert(seq![place].drop_last() =~= seq![]);
}

/// What contracts see of the usages in `map`.
pub open spec fn usage_views(map: Map<u32, ExportUsage>) -> Map<u32, ExportUsageView> {
    map.map_values(|usage: ExportUsage| usage@)
}

/// Classifies each `require("<literal>")` call from its immediate syntactic position:
/// `const { a } = require(...)` and `require(...).foo` are resolved here (`resolved`);
/// `const x = require(...)` records the binding's [`Id`] and call position for the whole-module
/// scan (`bindings`, see [`NamespaceUsageVisitor`]).
struct RequireBindingCollector {
    unresolved_mark: Mark,
    bindings: FxHashMap<Id, u32>,
    resolved: FxHashMap<u32, ExportUsage>,
}

impl RequireBindingCollector {
    /// What the collector knows.
    spec fn calls(self) -> RequireCalls {
        RequireCalls {
            bindings: positions_by_id(self.bindings),
            resolved: usage_views(self.resolved@),
        }
    }

    fn resolve(&mut self, span_lo: u32, usage: ExportUsage)
        ensures
            final(self).unresolved_mark == old(self).unresolved_mark,
            final(self).calls() == (RequireCalls {
                resolved: old(self).calls().resolved.insert(span_lo, usage@),
                ..old(self).calls()
            }),
    {
        insert_usage_at(&mut self.resolved, span_lo, usage);
        assert(usage_views(self.resolved@) =~= usage_views(old(self).resolved@).insert(
            span_lo,
            usage@,
        ));
    }

    fn visit_node(&mut self, node: &Node, role: Role)
        ensures
            final(self).unresolved_mark == old(self).unresolved_mark,
            final(self).calls() == with_nodes(
                old(self).calls(),
                preorder(*node, role),
                old(self).unresolved_mark,
            ),
        decreases node,
    {
        match node {
            Node::VarDeclarator(declarator) => self.visit_var_declarator(declarator, role),
            Node::Member(member) => self.visit_member_expr(member, role),
            _ => {},
        }
        let ghost seen = self.calls();
        proof {
            let place = Place { node: *node, role };
            lemma_with_nodes_one(old(self).calls(), place, self.unresolved_mark);
            let none = preorder_of_children(*node, role, 0);
            assert(with_nodes(seen, none, self.unresolved_mark) == seen);
            lemma_with_nodes_split(
                old(self).calls(),
                seq![Place { node: *node, role }],
                preorder_of_children(*node, role, children(*node).len()),
                self.unresolved_mark,
            );
        }
        let nodes = node.children();
        let mut i: usize = 0;
        while i < nodes.len()
            invariant
                i <= nodes@.len(),
                nodes@.len() == children(*node).len(),
                forall|k: int|
                    0 <= k < nodes@.len() ==> *(#[trigger] nodes@[k]) == children(*node)[k],
                self.unresolved_mark == old(self).unresolved_mark,
                self.calls() == with_nodes(
                    seen,
                    preorder_of_children(*node, role, i as nat),
                    self.unresolved_mark,
                ),
            decreases nodes@.len() - i,
        {
            proof {
                lemma_child_is_smaller(*node, i as int);
                assert(*nodes@[i as int] == children(*node)[i as int]);
                lemma_with_nodes_split(
                    seen,
                    preorder_of_children(*node, role, i as nat),
                    preorder(children(*node)[i as int], child_role(*node, i as int, role)),
                    self.unresolved_mark,
                );
            }
            self.visit_node(nodes[i], node.child_role(i, role));
            i += 1;
        }
    }

    fn visit_var_declarator(&mut self, declarator: &VarDeclarator, role: Role)
        ensures
            final(self).unresolved_mark == old(self).unresolved_mark,
            final(self).calls() == with_node(
                old(self).calls(),
                Place { node: Node::VarDeclarator(*declarator), role },
                old(self).unresolved_mark,
            ),
    {
        let init = match &declarator.init {
            Some(init) => init,
            None => return,
        };
        let call = match as_require_call(init, self.unresolved_mark) {
            Some(call) => call,
            None => return,
        };
        match &*declarator.name {
            // `const x = require(...)`: how `x` is used module-wide is analyzed later.
            Node::Ident(binding) => {
                insert_position(&mut self.bindings, binding.to_id(), call.span_lo);
            },
            // `const { a, b } = require(...)`: the used members are the keys.
            Node::ObjectPat(props) => {
                let usage = match extract_names_from_object_pat(props) {
                    Some(names) => ExportUsage::PartialNamespaceObject(names),
                    // Rest / computed key: the whole namespace is needed.
                    None => ExportUsage::All,
                };
                self.resolve(call.span_lo, usage);
            },
            // `const [a] = require(...)` and other patterns need the whole value.
            _ => self.resolve(call.span_lo, ExportUsage::All),
        }
    }

    fn visit_member_expr(&mut self, member: &MemberExpr, role: Role)
        ensures
            final(self).unresolved_mark == old(self).unresolved_mark,
            final(self).calls() == with_node(
                old(self).calls(),
                Place { node: Node::Member(*member), role },
                old(self).unresolved_mark,
            ),
    {
        if let Some(call) = as_require_call(&member.obj, self.unresolved_mark) {
            // `require(...).foo`: only that member is used. A write is no static member read.
            let usage = match extract_read_name(member, role) {
                Some(name) => {
                    let mut names: Vec<String> = Vec::new();
                    names.push(name);
                    assert(texts(names@) =~= seq![name@]);
                    ExportUsage::PartialNamespaceObject(names)
                },
                None => ExportUsage::All,
            };
            self.resolve(call.span_lo, usage);
        }
    }
}

/// A use of a watched binding.
pub enum Use {
    /// A read of `id.name` or `id["name"]`.
    Member { id: IdView, name: Seq<char> },
    /// Any other use of `id`: a bare reference, a dynamic member, a member that is written, updated
    /// or deleted, an exported declaration.
    Escape { id: IdView },
}

/// The escape of the identifier that `node` itself is or binds, if it is watched.
pub open spec fn own_use(node: Node, watched: Set<IdView>) -> Seq<Use> {
    match own_ident(node) {
        Some(ident) => if watched.contains(ident.id()) {
            seq![Use::Escape { id: ident.id() }]
        } else {
            seq![]
        },
        None => seq![],
    }
}

/// The watched binding whose member `member` reads.
pub open spec fn watched_object(member: MemberExpr, watched: Set<IdView>) -> Option<IdView> {
    match *member.obj {
        Node::Ident(object) => if watched.contains(object.id()) {
            Some(object.id())
        } else {
            None
        },
        _ => None,
    }
}

/// The watched binding that `declarator`, in the role `role`, declares for the module alone. An
/// exported declaration hands the namespace to whoever imports it.
pub open spec fn watched_declaration(
    declarator: VarDeclarator,
    role: Role,
    watched: Set<IdView>,
) -> Option<IdView> {
    match *declarator.name {
        Node::Ident(binding) => if watched.contains(binding.id()) && role != Role::Exported {
            Some(binding.id())
        } else {
            None
        },
        _ => None,
    }
}

/// The uses of watched bindings in `node`, which has the role `role`, in source order. A watched
/// binding's own declaration is none, unless it is exported.
pub open spec fn uses(node: Node, role: Role, watched: Set<IdView>) -> Seq<Use>
    decreases node, children(node).len() + 1,
{
    match node {
        Node::Member(member) if watched_object(member, watched) is Some => {
            let id = watched_object(member, watched)->0;
            match read_name(member, role) {
                Some(name) => seq![Use::Member { id, name }],
                None => seq![Use::Escape { id }] + match member.prop {
                    MemberProp::Computed(key) => uses(*key, Role::Plain, watched),
                    _ => seq![],
                },
            }
        },
        Node::VarDeclarator(declarator) if watched_declaration(
            declarator,
            role,
            watched,
        ) is Some => {
            match declarator.init {
                Some(init) => uses(*init, Role::Plain, watched),
                None => seq![],
            }
        },
        _ => own_use(node, watched) + uses_in_children(
            node,
            role,
            children(node).len(),
            watched,
        ),
    }
}

/// The uses of watched bindings in the first `n` children of `node`.
pub open spec fn uses_in_children(node: Node, role: Role, n: nat, watched: Set<IdView>) -> Seq<Use>
    decreases node, n,
{
    if 0 < n <= children(node).len() {
        proof {
            lemma_child_is_smaller(node, n - 1);
        }
        uses_in_children(node, role, (n - 1) as nat, watched) + uses(
            children(node)[n - 1],
            child_role(node, n - 1, role),
            watched,
        )
    } else {
        seq![]
    }
}

/// The uses of watched bindings in `trees`.
pub open spec fn uses_in_all(trees: Seq<Node>, watched: Set<IdView>) -> Seq<Use>
    decreases trees.len(),
{
    if trees.len() == 0 {
        seq![]
    } else {
        uses_in_all(trees.drop_last(), watched) + uses(trees.last(), Role::Plain, watched)
    }
}

/// What is known of the watched bindings once `used` was seen.
pub open spec fn with_use(
    usage: Map<IdView, NamespaceUsageView>,
    used: Use,
) -> Map<IdView, NamespaceUsageView> {
    match used {
        Use::Member { id, name } => if usage.contains_key(id) {
            match usage[id] {
                NamespaceUsageView::Members(names) => usage.insert(
                    id,
                    NamespaceUsageView::Members(with_name(names, name)),
                ),
                NamespaceUsageView::Escaped => usage,
            }
        } else {
            usage
        },
        Use::Escape { id } => if usage.contains_key(id) {
            usage.insert(id, NamespaceUsageView::Escaped)
        } else {
            usage
        },
    }
}

/// What is known of the watched bindings once `used` were seen, one after the other.
pub open spec fn with_uses(
    usage: Map<IdView, NamespaceUsageView>,
    used: Seq<Use>,
) -> Map<IdView, NamespaceUsageView>
    decreases used.len(),
{
    if used.len() == 0 {
        usage
    } else {
        with_use(with_uses(usage, used.drop_last()), used.last())
    }
}

/// Uses may be seen in two goes.
proof fn lemma_with_uses_split(
    usage: Map<IdView, NamespaceUsageView>,
    first: Seq<Use>,
    second: Seq<Use>,
)
    ensures
        with_uses(usage, first + second) == with_uses(with_uses(usage, first), second),
    decreases second.len(),
{
    if second.len() == 0 {
        assert(first + second =~= first);
    } else {
        lemma_with_uses_split(usage, first, second.drop_last());
        assert((first + second).drop_last() =~= first + second.drop_last());
    }
}

/// Seeing one use.
proof fn lemma_with_uses_one(usage: Map<IdView, NamespaceUsageView>, used: Use)
    ensures
        with_uses(usage, seq![used]) == with_use(usage, used),
{
    reveal_with_fuel(with_uses, 2);
    assert(seq![used].drop_last() =~= seq![]);
}

/// Seeing uses watches no binding and forgets none.
proof fn lemma_with_uses_same_bindings(usage: Map<IdView, NamespaceUsageView>, used: Seq<Use>)
    ensures
        with_uses(usage, used).dom() == usage.dom(),
    decreases used.len(),
{
    if used.len() > 0 {
        lemma_with_uses_same_bindings(usage, used.drop_last());
        assert(with_uses(usage, used).dom() =~= usage.dom());
    }
}

/// Scans a module for the uses of the bindings that have an entry in `usage`.
pub struct NamespaceUsageVisitor {
    pub usage: FxHashMap<Id, NamespaceUsage>,
}

impl NamespaceUsageVisitor {
    /// What the visitor knows of the bindings that it watches.
    pub open spec fn known(self) -> Map<IdView, NamespaceUsageView> {
        usage_by_id(self.usage)
    }

    /// The bindings that the visitor watches.
    pub open spec fn watched(self) -> Set<IdView> {
        self.known().dom()
    }

    /// Whether the visitor watches `id`.
    pub fn is_watched(&self, id: &Id) -> (answer: bool)
        ensures
            answer == self.watched().contains(id_view(*id)),
    {
        contains_usage(&self.usage, id)
    }

    /// Notes a use of `id` that is no static member read, if `id` is watched. An escape is final.
    pub fn escape(&mut self, id: &Id)
        ensures
            final(self).known() == with_use(old(self).known(), Use::Escape { id: id_view(*id) }),
            old(self).watched().contains(id_view(*id)) ==> final(self).known()[id_view(*id)]
                is Escaped,
    {
        if let Some(usage) = usage_mut(&mut self.usage, id) {
            *usage = NamespaceUsage::Escaped;
        }
    }

    /// Notes a read of the member `name` of `id`, if `id` is watched. A binding that has escaped is
    /// not narrowed again.
    pub fn record_member(&mut self, id: &Id, name: String)
        ensures
            final(self).known() == with_use(
                old(self).known(),
                Use::Member { id: id_view(*id), name: name@ },
            ),
            old(self).watched().contains(id_view(*id)) && old(self).known()[id_view(*id)] is Escaped
                ==> final(self).known()[id_view(*id)] is Escaped,
    {
        if let Some(usage) = usage_mut(&mut self.usage, id) {
            match usage {
                NamespaceUsage::Members(names) => {
                    names.insert(name);
                },
                NamespaceUsage::Escaped => {},
            }
        }
        assert(self.known() =~= with_use(
            old(self).known(),
            Use::Member { id: id_view(*id), name: name@ },
        ));
    }

    fn visit_node(&mut self, node: &Node, role: Role)
        ensures
            final(self).known() == with_uses(
                old(self).known(),
                uses(*node, role, old(self).watched()),
            ),
        decreases node, 2nat,
    {
        match node {
            Node::Member(member) => self.visit_member_expr(node, role, member),
            Node::VarDeclarator(declarator) => self.visit_var_declarator(node, role, declarator),
            _ => {
                let ghost watched = self.watched();
                if let Some(ident) = node.own_ident() {
                    self.visit_ident(ident);
                }
                proof {
                    lemma_with_uses_same_bindings(old(self).known(), own_use(*node, watched));
                    lemma_with_uses_split(
                        old(self).known(),
                        own_use(*node, watched),
                        uses_in_children(*node, role, children(*node).len(), watched),
                    );
                }
                self.visit_children(node, role);
            },
        }
    }

    /// Visits the nodes right below `node`.
    fn visit_children(&mut self, node: &Node, role: Role)
        ensures
            final(self).known() == with_uses(
                old(self).known(),
                uses_in_children(*node, role, children(*node).len(), old(self).watched()),
            ),
        decreases node, 0nat,
    {
        let ghost watched = self.watched();
        let nodes = node.children();
        let mut i: usize = 0;
        while i < nodes.len()
            invariant
                i <= nodes@.len(),
                nodes@.len() == children(*node).len(),
                forall|k: int|
                    0 <= k < nodes@.len() ==> *(#[trigger] nodes@[k]) == children(*node)[k],
                watched == old(self).watched(),
                self.watched() == watched,
                self.known() == with_uses(
                    old(self).known(),
                    uses_in_children(*node, role, i as nat, watched),
                ),
            decreases nodes@.len() - i,
        {
            proof {
                lemma_child_is_smaller(*node, i as int);
                assert(*nodes@[i as int] == children(*node)[i as int]);
                lemma_with_uses_split(
                    old(self).known(),
                    uses_in_children(*node, role, i as nat, watched),
                    uses(children(*node)[i as int], child_role(*node, i as int, role), watched),
                );
                lemma_with_uses_same_bindings(
                    self.known(),
                    uses(children(*node)[i as int], child_role(*node, i as int, role), watched),
                );
            }
            self.visit_node(nodes[i], node.child_role(i, role));
            i += 1;
        }
    }

    /// A watched identifier that is not consumed as a static member read or skipped as a
    /// declaration is a wholesale use.
    fn visit_ident(&mut self, ident: &Ident)
        ensures
            final(self).known() == with_uses(
                old(self).known(),
                own_use(Node::Ident(*ident), old(self).watched()),
            ),
    {
        let id = ident.to_id();
        if self.is_watched(&id) {
            proof {
                lemma_with_uses_one(self.known(), Use::Escape { id: ident.id() });
            }
            self.escape(&id);
        }
    }

    fn visit_member_expr(&mut self, node: &Node, role: Role, member: &MemberExpr)
        requires
            *node == Node::Member(*member),
        ensures
            final(self).known() == with_uses(
                old(self).known(),
                uses(*node, role, old(self).watched()),
            ),
        decreases node, 1nat,
    {
        let ghost known = self.known();
        let ghost watched = self.watched();
        if let Node::Ident(object) = &*member.obj {
            let id = object.to_id();
            if self.is_watched(&id) {
                match extract_read_name(member, role) {
                    Some(name) => {
                        proof {
                            lemma_with_uses_one(known, Use::Member { id: id_view(id), name: name@ });
                        }
                        self.record_member(&id, name);
                    },
                    // `ns[dynamic]` / private member: not statically known, so the whole namespace
                    // is observable. A write to a member is no static member read either.
                    None => {
                        let ghost escape = Use::Escape { id: id_view(id) };
                        proof {
                            lemma_with_uses_one(known, escape);
                            lemma_with_uses_same_bindings(known, seq![escape]);
                        }
                        self.escape(&id);
                        if let MemberProp::Computed(key) = &member.prop {
                            proof {
                                let more = uses(**key, Role::Plain, watched);
                                lemma_with_uses_split(known, seq![escape], more);
                            }
                            self.visit_node(key, Role::Plain);
                        } else {
                            assert(seq![escape] + Seq::<Use>::empty() =~= seq![escape]);
                        }
                    },
                }
                // Consumed here; don't let `visit_ident` treat it as wholesale.
                return;
            }
        }
        assert(Seq::<Use>::empty() + uses_in_children(*node, role, children(*node).len(), watched)
            =~= uses_in_children(*node, role, children(*node).len(), watched));
        self.visit_children(node, role);
    }

    fn visit_var_declarator(&mut self, node: &Node, role: Role, declarator: &VarDeclarator)
        requires
            *node == Node::VarDeclarator(*declarator),
        ensures
            final(self).known() == with_uses(
                old(self).known(),
                uses(*node, role, old(self).watched()),
            ),
        decreases node, 1nat,
    {
        // Don't treat a watched binding's own declaration as a use, unless importers receive it.
        let exported = match role {
            Role::Exported => true,
            _ => false,
        };
        if let Node::Ident(binding) = &*declarator.name {
            if !exported && self.is_watched(&binding.to_id()) {
                if let Some(init) = &declarator.init {
                    self.visit_node(init, Role::Plain);
                }
                return;
            }
        }
        let ghost watched = self.watched();
        assert(Seq::<Use>::empty() + uses_in_children(*node, role, children(*node).len(), watched)
            =~= uses_in_children(*node, role, children(*node).len(), watched));
        self.visit_children(node, role);
    }
}

/// Whether `used` holds a use of `id` that is no static member read.
pub open spec fn escapes(used: Seq<Use>, id: IdView) -> bool {
    used.contains(Use::Escape { id })
}

/// The members of `id` that `used` reads, each once, in the order of their first reads.
pub open spec fn members_read(used: Seq<Use>, id: IdView) -> Seq<Seq<char>>
    decreases used.len(),
{
    if used.len() == 0 {
        seq![]
    } else {
        let before = members_read(used.drop_last(), id);
        match used.last() {
            Use::Member { id: other, name } if other == id => with_name(before, name),
            _ => before,
        }
    }
}

/// The usage that `used` shows of the namespace that `id` is bound to.
pub open spec fn binding_usage(used: Seq<Use>, id: IdView) -> ExportUsageView {
    if escapes(used, id) {
        ExportUsageView::All
    } else {
        ExportUsageView::PartialNamespaceObject(members_read(used, id))
    }
}

/// What seeing `used` tells of a binding of which no use was seen before.
proof fn lemma_usage_from_uses(
    usage: Map<IdView, NamespaceUsageView>,
    used: Seq<Use>,
    id: IdView,
)
    requires
        usage.contains_pair(id, NamespaceUsageView::Members(seq![])),
    ensures
        with_uses(usage, used).contains_key(id),
        with_uses(usage, used)[id] == if escapes(used, id) {
            NamespaceUsageView::Escaped
        } else {
            NamespaceUsageView::Members(members_read(used, id))
        },
    decreases used.len(),
{
    if used.len() > 0 {
        let before = used.drop_last();
        lemma_usage_from_uses(usage, before, id);
        assert(used =~= before.push(used.last()));
        if escapes(before, id) {
            let k = choose|k: int| 0 <= k < before.len() && before[k] == (Use::Escape { id });
            assert(used[k] == Use::Escape { id });
        }
        if used.last() == (Use::Escape { id }) {
            assert(used[used.len() - 1] == Use::Escape { id });
        } else if escapes(used, id) {
            let k = choose|k: int| 0 <= k < used.len() && used[k] == (Use::Escape { id });
            assert(before[k] == Use::Escape { id });
        }
    }
}

/// Bindings with their positions, as contracts speak of them.
pub open spec fn entry_views(entries: Seq<(Id, u32)>) -> Seq<(IdView, u32)> {
    entries.map_values(|entry: (Id, u32)| (id_view(entry.0), entry.1))
}

/// The bindings in `entries`.
pub open spec fn entry_ids(entries: Seq<(IdView, u32)>) -> Set<IdView> {
    entries.map_values(|entry: (IdView, u32)| entry.0).to_set()
}

/// Whether no binding occurs twice in `entries`.
pub open spec fn distinct_ids(entries: Seq<(IdView, u32)>) -> bool {
    entries.map_values(|entry: (IdView, u32)| entry.0).no_duplicates()
}

/// `resolved`, and for each of `entries` in turn the usage that `used` shows of its binding, at
/// its position.
pub open spec fn with_entries(
    resolved: Map<u32, ExportUsageView>,
    entries: Seq<(IdView, u32)>,
    used: Seq<Use>,
) -> Map<u32, ExportUsageView>
    decreases entries.len(),
{
    if entries.len() == 0 {
        resolved
    } else {
        let entry = entries.last();
        with_entries(resolved, entries.drop_last(), used).insert(
            entry.1,
            binding_usage(used, entry.0),
        )
    }
}

/// Adds to `resolved`, for each of `bindings` in turn, how `program` uses the namespace that is
/// bound there, at the position that goes with it.
pub fn resolve_bindings(
    program: &Program,
    bindings: Vec<(Id, u32)>,
    resolved: FxHashMap<u32, ExportUsage>,
) -> (result: FxHashMap<u32, ExportUsage>)
    requires
        distinct_ids(entry_views(bindings@)),
    ensures
        usage_views(result@) == with_entries(
            usage_views(resolved@),
            entry_views(bindings@),
            uses_in_all(roots(*program), entry_ids(entry_views(bindings@))),
        ),
{
    let ghost entries = entry_views(bindings@);
    let ghost ids = entries.map_values(|entry: (IdView, u32)| entry.0);
    let ghost unused = NamespaceUsageView::Members(seq![]);
    let mut visitor = NamespaceUsageVisitor { usage: new_usage_by_id() };
    let mut i: usize = 0;
    while i < bindings.len()
        invariant
            i <= bindings@.len(),
            ids.len() == bindings@.len(),
            unused == NamespaceUsageView::Members(seq![]),
            forall|k: int| 0 <= k < ids.len() ==> #[trigger] ids[k] == id_view(bindings@[k].0),
            forall|id: IdView|
                #[trigger] visitor.known().contains_key(id) ==> visitor.known()[id] == unused,
            forall|id: IdView|
                #[trigger] visitor.known().contains_key(id) ==> ids.to_set().contains(id),
            forall|k: int| 0 <= k < i ==> visitor.known().contains_key(#[trigger] ids[k]),
        decreases bindings@.len() - i,
    {
        let id: Id = (bindings[i].0.0.clone(), bindings[i].0.1);
        assert(id_view(id) == ids[i as int]);
        let ghost before = visitor.known();
        insert_usage(&mut visitor.usage, id, NamespaceUsage::Members(NameSet::new()));
        assert(visitor.known() == before.insert(ids[i as int], unused));
        assert forall|id: IdView| #[trigger] visitor.known().contains_key(id) implies {
            &&& visitor.known()[id] == unused
            &&& ids.to_set().contains(id)
        } by {
            if id == ids[i as int] {
                assert(ids.contains(ids[i as int]));
            } else {
                assert(before.contains_key(id));
            }
        }
        i += 1;
    }
    let ghost known = visitor.known();
    let ghost watched = visitor.watched();
    assert(watched =~= entry_ids(entries)) by {
        assert forall|id: IdView| ids.to_set().contains(id) implies watched.contains(id) by {
            let k = choose|k: int| 0 <= k < ids.len() && ids[k] == id;
            assert(known.contains_key(ids[k]));
        }
    }
    let nodes = program.roots();
    let ghost trees = roots(*program);
    let mut j: usize = 0;
    while j < nodes.len()
        invariant
            j <= nodes@.len(),
            nodes@.len() == trees.len(),
            forall|k: int| 0 <= k < nodes@.len() ==> *(#[trigger] nodes@[k]) == trees[k],
            visitor.watched() == watched,
            visitor.known() == with_uses(known, uses_in_all(trees.take(j as int), watched)),
        decreases nodes@.len() - j,
    {
        proof {
            assert(trees.take(j + 1).drop_last() =~= trees.take(j as int));
            assert(*nodes@[j as int] == trees[j as int]);
            lemma_with_uses_split(
                known,
                uses_in_all(trees.take(j as int), watched),
                uses(trees[j as int], Role::Plain, watched),
            );
            lemma_with_uses_same_bindings(
                visitor.known(),
                uses(trees[j as int], Role::Plain, watched),
            );
        }
        visitor.visit_node(nodes[j], Role::Plain);
        j += 1;
    }
    assert(trees.take(j as int) =~= trees);
    let ghost used = uses_in_all(trees, watched);
    let ghost found = visitor.known();
    let mut result = resolved;
    let mut l: usize = 0;
    assert(entries.take(0) =~= seq![]);
    while l < bindings.len()
        invariant
            l <= bindings@.len(),
            entries == entry_views(bindings@),
            ids == entries.map_values(|entry: (IdView, u32)| entry.0),
            ids.no_duplicates(),
            unused == NamespaceUsageView::Members(seq![]),
            forall|k: int| 0 <= k < ids.len() ==> known.contains_pair(#[trigger] ids[k], unused),
            found == with_uses(known, used),
            forall|k: int|
                l <= k < ids.len() ==> visitor.known().contains_pair(
                    #[trigger] ids[k],
                    found[ids[k]],
                ),
            usage_views(result@) == with_entries(
                usage_views(resolved@),
                entries.take(l as int),
                used,
            ),
        decreases bindings@.len() - l,
    {
        proof {
            assert(entries.take(l + 1).drop_last() =~= entries.take(l as int));
            assert(ids[l as int] == id_view(bindings@[l as int].0));
            lemma_usage_from_uses(known, used, ids[l as int]);
        }
        let usage = match remove_usage(&mut visitor.usage, &bindings[l].0) {
            Some(NamespaceUsage::Members(names)) => ExportUsage::PartialNamespaceObject(
                names.into_vec(),
            ),
            Some(NamespaceUsage::Escaped) | None => ExportUsage::All,
        };
        let ghost before = result@;
        insert_usage_at(&mut result, bindings[l].1, usage);
        assert(usage_views(result@) =~= usage_views(before).insert(bindings@[l as int].1, usage@));
        l += 1;
    }
    assert(entries.take(l as int) =~= entries);
    result
}

/// Whether `bindings` binds the result of the call at `span_lo`.
pub open spec fn bound_at(bindings: Map<IdView, u32>, span_lo: u32) -> bool {
    exists|id: IdView| #[trigger] bindings.contains_pair(id, span_lo)
}

/// Whether `result` says how `program` consumes the results of its `require` calls. It does so for
/// the calls that `calls` knows of, and for no other. The use of a binding counts before what the
/// call site shows. Where several bindings go with one position, one of them counts.
pub open spec fn reports_usage(
    program: Program,
    calls: RequireCalls,
    result: Map<u32, ExportUsageView>,
) -> bool {
    let used = uses_in_all(roots(program), calls.bindings.dom());
    &&& forall|span_lo: u32| #[trigger]
        result.contains_key(span_lo) == (calls.resolved.contains_key(span_lo) || bound_at(
            calls.bindings,
            span_lo,
        ))
    &&& forall|span_lo: u32| #[trigger]
        result.contains_key(span_lo) ==> if bound_at(calls.bindings, span_lo) {
            exists|id: IdView| #[trigger]
                calls.bindings.contains_pair(id, span_lo) && result[span_lo] == binding_usage(
                    used,
                    id,
                )
        } else {
            result[span_lo] == calls.resolved[span_lo]
        }
}

/// Whatever the order of the entries, the usages are reported.
proof fn lemma_entries_report(
    resolved: Map<u32, ExportUsageView>,
    entries: Seq<(IdView, u32)>,
    used: Seq<Use>,
)
    ensures
        forall|span_lo: u32| #[trigger]
            with_entries(resolved, entries, used).contains_key(span_lo) == (resolved.contains_key(
                span_lo,
            ) || exists|k: int| 0 <= k < entries.len() && (#[trigger] entries[k]).1 == span_lo),
        forall|span_lo: u32| #[trigger]
            with_entries(resolved, entries, used).contains_key(span_lo) ==> if exists|k: int|
                0 <= k < entries.len() && (#[trigger] entries[k]).1 == span_lo {
                exists|k: int|
                    0 <= k < entries.len() && (#[trigger] entries[k]).1 == span_lo && with_entries(
                        resolved,
                        entries,
                        used,
                    )[span_lo] == binding_usage(used, entries[k].0)
            } else {
                with_entries(resolved, entries, used)[span_lo] == resolved[span_lo]
            },
    decreases entries.len(),
{
    if entries.len() > 0 {
        let before = entries.drop_last();
        lemma_entries_report(resolved, before, used);
        let last = entries.len() - 1;
        let map = with_entries(resolved, entries, used);
        assert(forall|k: int| 0 <= k < last ==> before[k] == #[trigger] entries[k]);
        assert forall|span_lo: u32| #[trigger] map.contains_key(span_lo) == (resolved.contains_key(
            span_lo,
        ) || exists|k: int| 0 <= k < entries.len() && (#[trigger] entries[k]).1 == span_lo) by {
            if entries[last].1 != span_lo {
                assert(map.contains_key(span_lo) == with_entries(
                    resolved,
                    before,
                    used,
                ).contains_key(span_lo));
                if exists|k: int| 0 <= k < before.len() && (#[trigger] before[k]).1 == span_lo {
                    let k = choose|k: int|
                        0 <= k < before.len() && (#[trigger] before[k]).1 == span_lo;
                    assert(entries[k].1 == span_lo);
                }
            }
        }
        assert forall|span_lo: u32| #[trigger] map.contains_key(span_lo) implies if exists|k: int|
            0 <= k < entries.len() && (#[trigger] entries[k]).1 == span_lo {
            exists|k: int|
                0 <= k < entries.len() && (#[trigger] entries[k]).1 == span_lo && map[span_lo]
                    == binding_usage(used, entries[k].0)
        } else {
            map[span_lo] == resolved[span_lo]
        } by {
            if entries[last].1 == span_lo {
                assert(map[span_lo] == binding_usage(used, entries[last].0));
            } else {
                assert(with_entries(resolved, before, used).contains_key(span_lo));
                if exists|k: int| 0 <= k < before.len() && (#[trigger] before[k]).1 == span_lo {
                    let k = choose|k: int|
                        0 <= k < before.len() && (#[trigger] before[k]).1 == span_lo
                            && with_entries(resolved, before, used)[span_lo] == binding_usage(
                            used,
                            before[k].0,
                        );
                    assert(entries[k].1 == span_lo);
                }
            }
        }
    }
}

/// For each literal-string `require("…")` call, the [`ExportUsage`] implied by how its result is
/// consumed, keyed by the call's source position. Calls not present fall back to the reference
/// default ([`ExportUsage::All`]).
pub fn analyze_require_usage(program: &Program, unresolved_mark: Mark) -> (result: FxHashMap<
    u32,
    ExportUsage,
>)
    ensures
        reports_usage(
            *program,
            require_calls(*program, unresolved_mark),
            usage_views(result@),
        ),
{
    let mut collector = RequireBindingCollector {
        unresolved_mark,
        bindings: new_positions_by_id(),
        resolved: new_usage_by_position(),
    };
    let ghost none = RequireCalls { bindings: Map::empty(), resolved: Map::empty() };
    assert(collector.calls() =~= none);
    let nodes = program.roots();
    let ghost trees = roots(*program);
    let mut i: usize = 0;
    while i < nodes.len()
        invariant
            i <= nodes@.len(),
            nodes@.len() == trees.len(),
            forall|k: int| 0 <= k < nodes@.len() ==> *(#[trigger] nodes@[k]) == trees[k],
            collector.unresolved_mark == unresolved_mark,
            collector.calls() == with_nodes(
                none,
                preorder_of_all(trees.take(i as int)),
                unresolved_mark,
            ),
        decreases nodes@.len() - i,
    {
        proof {
            assert(trees.take(i + 1).drop_last() =~= trees.take(i as int));
            assert(*nodes@[i as int] == trees[i as int]);
            lemma_with_nodes_split(
                none,
                preorder_of_all(trees.take(i as int)),
                preorder(trees[i as int], Role::Plain),
                unresolved_mark,
            );
        }
        collector.visit_node(nodes[i], Role::Plain);
        i += 1;
    }
    assert(trees.take(i as int) =~= trees);
    let ghost calls = require_calls(*program, unresolved_mark);
    assert(collector.calls() == calls);
    // Second pass: for `const x = require(...)` bindings, scan every use of `x`.
    let entries = into_entries(collector.bindings);
    let ghost views = entry_views(entries@);
    let ghost ids = views.map_values(|entry: (IdView, u32)| entry.0);
    assert(forall|k: int| 0 <= k < ids.len() ==> #[trigger] ids[k] == id_view(entries@[k].0));
    assert(entry_ids(views) =~= calls.bindings.dom()) by {
        assert forall|id: IdView| calls.bindings.contains_key(id) implies ids.to_set().contains(
            id,
        ) by {
            let k = choose|k: int|
                0 <= k < entries@.len() && id_view((#[trigger] entries@[k]).0) == id;
            assert(ids[k] == id);
        }
    }
    let result = resolve_bindings(program, entries, collector.resolved);
    proof {
        let used = uses_in_all(trees, calls.bindings.dom());
        lemma_entries_report(calls.resolved, views, used);
        assert forall|span_lo: u32| #[trigger] bound_at(calls.bindings, span_lo) == (exists|k: int|
            0 <= k < views.len() && (#[trigger] views[k]).1 == span_lo) by {
            if bound_at(calls.bindings, span_lo) {
                let id = choose|id: IdView| #[trigger] calls.bindings.contains_pair(id, span_lo);
                let k = choose|k: int|
                    0 <= k < entries@.len() && id_view((#[trigger] entries@[k]).0) == id;
                assert(views[k].1 == span_lo);
            }
            if exists|k: int| 0 <= k < views.len() && (#[trigger] views[k]).1 == span_lo {
                let k = choose|k: int| 0 <= k < views.len() && (#[trigger] views[k]).1 == span_lo;
                assert(calls.bindings.contains_pair(id_view(entries@[k].0), entries@[k].1));
            }
        }
        assert forall|k: int| 0 <= k < views.len() implies calls.bindings.contains_pair(
            (#[trigger] views[k]).0,
            views[k].1,
        ) by {
            assert(calls.bindings.contains_pair(id_view(entries@[k].0), entries@[k].1));
        }
    }
    result
}

} // verus!
