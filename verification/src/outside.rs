//! What the library has from outside crates: every item here is trusted, none is proved.

use crate::require_usage::{ExportUsage, NamespaceUsage, NamespaceUsageView};
use crate::syntax::{id_view, Id, IdView};
use rustc_hash::{FxHashMap, FxHashSet};
use swc_core::common::SyntaxContext;
use swc_core::ecma::ast::Expr;
use swc_core::ecma::utils::{ExprCtx, ExprExt};
use vstd::prelude::*;

verus! {

/// `swc_core::ecma::ast::Expr`, an expression as the parser left it. Nothing is known of what a
/// value of it holds.
#[verifier::external_type_specification]
#[verifier::external_body]
pub struct ExExpr(swc_core::ecma::ast::Expr);

/// The answer of swc's `ExprExt::may_have_side_effects` on an expression and the four fields of
/// its `ExprCtx`.
pub uninterp spec fn side_effects(
    value: swc_core::ecma::ast::Expr,
    unresolved_ctxt: u32,
    is_unresolved_ref_safe: bool,
    in_strict: bool,
    remaining_depth: u8,
) -> bool;

/// Calls `swc_core::ecma::utils::ExprExt::may_have_side_effects`. The contract claims that the
/// answer depends on the expression and the four fields of the context alone, and gives it a
/// name; which expressions have side effects is left unsaid.
#[verifier::external_body]
pub(crate) fn may_have_side_effects(
    value: &Expr,
    unresolved_ctxt: u32,
    is_unresolved_ref_safe: bool,
    in_strict: bool,
    remaining_depth: u8,
) -> (answer: bool)
    ensures
        answer == side_effects(
            *value,
            unresolved_ctxt,
            is_unresolved_ref_safe,
            in_strict,
            remaining_depth,
        ),
{
    value.may_have_side_effects(
        ExprCtx {
            unresolved_ctxt: SyntaxContext::from_u32(unresolved_ctxt),
            is_unresolved_ref_safe,
            in_strict,
            remaining_depth,
        },
    )
}

/// `rustc_hash::FxBuildHasher`, the hasher of the maps and sets below.
#[verifier::external_type_specification]
#[verifier::external_body]
pub struct ExFxBuildHasher(rustc_hash::FxBuildHasher);

/// What a map from bindings to source positions holds.
pub uninterp spec fn positions_by_id(map: FxHashMap<(String, u32), u32>) -> Map<
    (Seq<char>, u32),
    u32,
>;

/// Calls `FxHashMap::default`. The contract claims that the new map is empty.
#[verifier::external_body]
pub(crate) fn new_positions_by_id() -> (map: FxHashMap<Id, u32>)
    ensures
        (positions_by_id(map) == Map::<IdView, u32>::empty()),
{
    FxHashMap::default()
}

/// Calls `FxHashMap::insert`. The contract claims that `id` then has the position `span_lo`,
/// whether or not it had one before, and that all else is as it was.
#[verifier::external_body]
pub(crate) fn insert_position(map: &mut FxHashMap<Id, u32>, id: Id, span_lo: u32)
    ensures
        positions_by_id(*final(map)) == positions_by_id(*old(map)).insert(id_view(id), span_lo),
{
    map.insert(id, span_lo);
}

/// Calls `FxHashMap::into_iter`. The contract claims that the entries come out each once, and
/// leaves open in which order.
#[verifier::external_body]
pub(crate) fn into_entries(map: FxHashMap<Id, u32>) -> (entries: Vec<(Id, u32)>)
    ensures
        forall|k: int|
            0 <= k < entries@.len() ==> positions_by_id(map).contains_pair(
                id_view((#[trigger] entries@[k]).0),
                entries@[k].1,
            ),
        forall|id: IdView|
            positions_by_id(map).contains_key(id) ==> exists|k: int|
                0 <= k < entries@.len() && id_view((#[trigger] entries@[k]).0) == id,
        forall|k: int, l: int|
            0 <= k < l < entries@.len() ==> id_view((#[trigger] entries@[k]).0) != id_view(
                (#[trigger] entries@[l]).0,
            ),
{
    map.into_iter().collect()
}

/// What a map from bindings to their uses holds.
pub uninterp spec fn usage_by_id(map: FxHashMap<(String, u32), NamespaceUsage>) -> Map<
    (Seq<char>, u32),
    NamespaceUsageView,
>;

/// Calls `FxHashMap::default`. The contract claims that the new map is empty.
#[verifier::external_body]
pub(crate) fn new_usage_by_id() -> (map: FxHashMap<Id, NamespaceUsage>)
    ensures
        (usage_by_id(map) == Map::<IdView, NamespaceUsageView>::empty()),
{
    FxHashMap::default()
}

/// Calls `FxHashMap::insert`. The contract claims that `id` then has the usage `usage`, whether
/// or not it had one before, and that all else is as it was.
#[verifier::external_body]
pub(crate) fn insert_usage(map: &mut FxHashMap<Id, NamespaceUsage>, id: Id, usage: NamespaceUsage)
    ensures
        usage_by_id(*final(map)) == usage_by_id(*old(map)).insert(id_view(id), usage@),
{
    map.insert(id, usage);
}

/// Calls `FxHashMap::contains_key`. The contract claims that it tells whether `id` has an entry.
#[verifier::external_body]
pub(crate) fn contains_usage(map: &FxHashMap<Id, NamespaceUsage>, id: &Id) -> (answer: bool)
    ensures
        answer == usage_by_id(*map).contains_key(id_view(*id)),
{
    map.contains_key(id)
}

/// Calls `FxHashMap::get_mut`. The contract claims that it hands out the usage of `id`, if it has
/// one, that the map then holds what is written there, and that all else is as it was.
#[verifier::external_body]
pub(crate) fn usage_mut<'a>(map: &'a mut FxHashMap<Id, NamespaceUsage>, id: &Id) -> (usage: Option<
    &'a mut NamespaceUsage,
>)
    ensures
        match usage {
            Some(usage) => {
                &&& usage_by_id(*old(map)).contains_pair(id_view(*id), usage@)
                &&& usage_by_id(*final(map)) == usage_by_id(*old(map)).insert(
                    id_view(*id),
                    final(usage)@,
                )
            },
            None => {
                &&& !usage_by_id(*old(map)).contains_key(id_view(*id))
                &&& usage_by_id(*final(map)) == usage_by_id(*old(map))
            },
        },
{
    map.get_mut(id)
}

/// Calls `FxHashMap::remove`. The contract claims that it takes the entry of `id` out, hands out
/// its usage if there was one, and leaves all else as it was.
#[verifier::external_body]
pub(crate) fn remove_usage(map: &mut FxHashMap<Id, NamespaceUsage>, id: &Id) -> (usage: Option<
    NamespaceUsage,
>)
    ensures
        usage_by_id(*final(map)) == usage_by_id(*old(map)).remove(id_view(*id)),
        match usage {
            Some(usage) => usage_by_id(*old(map)).contains_pair(id_view(*id), usage@),
            None => !usage_by_id(*old(map)).contains_key(id_view(*id)),
        },
{
    map.remove(id)
}

/// Calls `FxHashMap::default`. The contract claims that the new map is empty.
#[verifier::external_body]
pub(crate) fn new_usage_by_position() -> (map: FxHashMap<u32, ExportUsage>)
    ensures
        (map@ == Map::<u32, ExportUsage>::empty()),
{
    FxHashMap::default()
}

/// Calls `FxHashMap::insert`. The contract claims that `span_lo` then has the usage `usage`,
/// whether or not it had one before, and that all else is as it was.
#[verifier::external_body]
pub(crate) fn insert_usage_at(
    map: &mut FxHashMap<u32, ExportUsage>,
    span_lo: u32,
    usage: ExportUsage,
)
    ensures
        final(map)@ == old(map)@.insert(span_lo, usage),
{
    map.insert(span_lo, usage);
}

/// Calls `FxHashSet::default`. The contract claims that the new set is empty.
#[verifier::external_body]
pub(crate) fn new_positions() -> (set: FxHashSet<u32>)
    ensures
        set@ == Set::<u32>::empty(),
{
    FxHashSet::default()
}

/// Calls `FxHashSet::insert`. The contract claims that `span_lo` is then in the set, and that all
/// else is as it was.
#[verifier::external_body]
pub(crate) fn add_position(set: &mut FxHashSet<u32>, span_lo: u32)
    ensures
        final(set)@ == old(set)@.insert(span_lo),
{
    set.insert(span_lo);
}

/// Calls `FxHashSet::contains`. The contract claims that it tells whether `span_lo` is in the set.
#[verifier::external_body]
pub(crate) fn contains_position(set: &FxHashSet<u32>, span_lo: u32) -> (answer: bool)
    ensures
        answer == set@.contains(span_lo),
{
    set.contains(&span_lo)
}

/// Calls `FxHashSet::is_empty`. The contract claims that it tells whether the set is empty.
#[verifier::external_body]
pub(crate) fn no_positions(set: &FxHashSet<u32>) -> (answer: bool)
    ensures
        answer == (set@ == Set::<u32>::empty()),
{
    set.is_empty()
}

} // verus!
