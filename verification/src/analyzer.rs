//! Questions that the analyses put to single nodes.

use crate::syntax::{Ident, Lit, Mark, MemberExpr, MemberProp, Node, PropName, Role};
use vstd::prelude::*;

verus! {

/// The expression whose value `expr` has: what stands in its parentheses, and of a comma
/// expression the last operand.
pub open spec fn unparenthesized(expr: Node) -> Node
    decreases expr,
{
    match expr {
        Node::Paren(inner) => unparenthesized(*inner),
        Node::Sequence(sequence) => unparenthesized(*sequence.last),
        _ => expr,
    }
}

/// Looks through parentheses, and through comma expressions to their last operand.
pub fn unparen(expr: &Node) -> (inner: &Node)
    ensures
        *inner == unparenthesized(*expr),
    decreases expr,
{
    match expr {
        Node::Paren(inner) => unparen(inner),
        Node::Sequence(sequence) => unparen(&sequence.last),
        _ => expr,
    }
}

/// Whether `ident` has the name `name` and nothing in the file declares it.
pub open spec fn names_global(ident: Ident, name: Seq<char>, unresolved_mark: Mark) -> bool {
    ident.sym@ == name && ident.outer == unresolved_mark.number
}

/// Whether `ident` is the unshadowed global `name`.
pub fn is_global(ident: &Ident, name: &str, unresolved_mark: Mark) -> (answer: bool)
    ensures
        answer == names_global(*ident, name@, unresolved_mark),
{
    ident.sym == name.to_owned() && ident.outer == unresolved_mark.number
}

/// Whether `member` reads `module.exports` of the unshadowed `module`.
pub open spec fn names_module_exports(member: MemberExpr, unresolved_mark: Mark) -> bool {
    &&& *member.obj matches Node::Ident(object)
    &&& names_global(object, "module"@, unresolved_mark)
    &&& member.prop matches MemberProp::Ident(name)
    &&& name@ == "exports"@
}

/// Whether `member` is `module.exports`, with the unshadowed `module` as its object.
pub fn is_module_dot_exports(member: &MemberExpr, unresolved_mark: Mark) -> (answer: bool)
    ensures
        answer == names_module_exports(*member, unresolved_mark),
{
    match &*member.obj {
        Node::Ident(object) => match &member.prop {
            MemberProp::Ident(name) => {
                is_global(object, "module", unresolved_mark) && *name == "exports".to_owned()
            },
            _ => false,
        },
        _ => false,
    }
}

/// The member name that `prop` gives in the source: `name` in `.name` and in `["name"]`.
pub open spec fn static_name(prop: MemberProp) -> Option<Seq<char>> {
    match prop {
        MemberProp::Ident(name) => Some(name@),
        MemberProp::Computed(key) => match *key {
            Node::Lit(Lit::Str(name)) => Some(name@),
            _ => None,
        },
        MemberProp::PrivateName => None,
    }
}

/// The member name that `prop` gives in the source, if it gives one.
pub fn extract_name_from_member_prop(prop: &MemberProp) -> (name: Option<String>)
    ensures
        match name {
            Some(name) => static_name(*prop) == Some(name@),
            None => static_name(*prop) is None,
        },
{
    match prop {
        MemberProp::Ident(name) => Some(name.clone()),
        MemberProp::Computed(key) => match &**key {
            Node::Lit(Lit::Str(name)) => Some(name.clone()),
            _ => None,
        },
        MemberProp::PrivateName => None,
    }
}

/// The member whose value `member`, in the role `role`, reads, where the source names it.
pub open spec fn read_name(member: MemberExpr, role: Role) -> Option<Seq<char>> {
    match role {
        Role::Written => None,
        _ => static_name(member.prop),
    }
}

/// The member whose value `member`, in the role `role`, reads, if the source names it. A member
/// that is assigned to, updated or deleted is not read.
pub fn extract_read_name(member: &MemberExpr, role: Role) -> (name: Option<String>)
    ensures
        match name {
            Some(name) => read_name(*member, role) == Some(name@),
            None => read_name(*member, role) is None,
        },
{
    match role {
        Role::Written => None,
        _ => extract_name_from_member_prop(&member.prop),
    }
}

/// The member that an element of an object pattern takes out, where the source names it.
pub open spec fn prop_key(prop: Node) -> Option<Seq<char>> {
    match prop {
        Node::KeyValuePatProp(prop) => match prop.key {
            PropName::Ident(name) => Some(name@),
            PropName::Str(name) => Some(name@),
            _ => None,
        },
        Node::AssignPatProp(prop) => Some(prop.key.sym@),
        _ => None,
    }
}

/// Whether the source names every member that the elements `props` of an object pattern take
/// out.
pub open spec fn all_keys_static(props: Seq<Node>) -> bool {
    forall|k: int| 0 <= k < props.len() ==> prop_key(#[trigger] props[k]) is Some
}

/// The members that the elements `props` of an object pattern take out, in source order.
pub open spec fn prop_keys(props: Seq<Node>) -> Seq<Seq<char>> {
    props.map_values(|prop: Node| prop_key(prop)->0)
}

/// The texts that `strings` hold.
pub open spec fn texts(strings: Seq<String>) -> Seq<Seq<char>> {
    strings.map_values(|string: String| string@)
}

/// The member that `prop` takes out, if the source names it.
fn extract_prop_key(prop: &Node) -> (name: Option<String>)
    ensures
        match name {
            Some(name) => prop_key(*prop) == Some(name@),
            None => prop_key(*prop) is None,
        },
{
    match prop {
        Node::KeyValuePatProp(prop) => match &prop.key {
            PropName::Ident(name) => Some(name.clone()),
            PropName::Str(name) => Some(name.clone()),
            _ => None,
        },
        Node::AssignPatProp(prop) => Some(prop.key.sym.clone()),
        _ => None,
    }
}

/// The members that the elements `props` of an object pattern take out, in source order; `None`
/// where one of them cannot be told from the source, as with a rest element or a computed key.
pub fn extract_names_from_object_pat(props: &Vec<Node>) -> (names: Option<Vec<String>>)
    ensures
        names is Some == all_keys_static(props@),
        names matches Some(names) ==> texts(names@) == prop_keys(props@),
{
    let mut names: Vec<String> = Vec::new();
    let mut i: usize = 0;
    while i < props.len()
        invariant
            i <= props@.len(),
            names@.len() == i,
            forall|k: int|
                0 <= k < i ==> prop_key(#[trigger] props@[k]) == Some(names@[k]@),
        decreases props@.len() - i,
    {
        match extract_prop_key(&props[i]) {
            Some(name) => names.push(name),
            None => return None,
        }
        i += 1;
    }
    assert(texts(names@) =~= prop_keys(props@));
    Some(names)
}

} // verus!
