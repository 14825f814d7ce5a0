//! The state of a file's type inference, the steps that merge or set types
//! in it, and the propagation passes built from those steps.

use std::collections::HashMap;

use vstd::prelude::*;

use crate::calls::{for_binding_types_from_iterable, for_bindings, SymbolId};
use crate::lattice::{can_refine, can_refine_with_expected, join, join_types, opt_ty};
use crate::overload::arg_views;
use crate::mutation::{container_for, nested_mutation_container_type, segment_views, PathSegment};
use crate::ty::{clone_type, type_eq, views, Ty, TypeRef};

verus! {

broadcast use vstd::std_specs::hash::group_hash_axioms;

/// What type inference knows of a file: a type for each expression result
/// slot that has one, and a type for each symbol that has one.
pub struct FileTypeInference {
    pub expr_types: Vec<Option<TypeRef>>,
    pub symbol_types: HashMap<u32, TypeRef>,
}

/// The models of slot types.
pub open spec fn slot_views(xs: Seq<Option<TypeRef>>) -> Seq<Option<Ty>> {
    Seq::new(xs.len(), |i: int| opt_ty(xs[i]))
}

/// The model of the symbol types.
pub open spec fn symbol_views(m: Map<u32, TypeRef>) -> Map<u32, Ty> {
    m.map_values(|t: TypeRef| t@)
}

/// The model of an inference state: slot types and symbol types.
pub open spec fn inference_view(inf: FileTypeInference) -> (Seq<Option<Ty>>, Map<u32, Ty>) {
    (slot_views(inf.expr_types@), symbol_views(inf.symbol_types@))
}

/// The type a map holds for a symbol, if any.
pub open spec fn symbol_ty(m: Map<u32, Ty>, s: u32) -> Option<Ty> {
    if m.contains_key(s) {
        Some(m[s])
    } else {
        None
    }
}

/// The join of what is held with what comes, or what comes when nothing is held.
pub open spec fn merged_with(current: Option<Ty>, next: Ty) -> Ty {
    match current {
        Some(c) => join(c, next),
        None => next,
    }
}

/// Merging `next` into a symbol's type: the map afterwards, and whether the
/// symbol's type changed.
pub open spec fn merge_symbol(m: Map<u32, Ty>, s: u32, next: Ty) -> (Map<u32, Ty>, bool) {
    let merged = merged_with(symbol_ty(m, s), next);
    (m.insert(s, merged), symbol_ty(m, s) != Some(merged))
}

/// Setting a symbol's type to `next`: the map afterwards, and whether the
/// symbol's type changed.
pub open spec fn set_symbol(m: Map<u32, Ty>, s: u32, next: Ty) -> (Map<u32, Ty>, bool) {
    (m.insert(s, next), symbol_ty(m, s) != Some(next))
}

proof fn lemma_symbol_views_insert(m: Map<u32, TypeRef>, s: u32, t: TypeRef)
    ensures
        symbol_views(m.insert(s, t)) == symbol_views(m).insert(s, t@),
        symbol_ty(symbol_views(m), s) == (if m.contains_key(s) {
            Some(m[s]@)
        } else {
            None
        }),
{
    assert(symbol_views(m.insert(s, t)) =~= symbol_views(m).insert(s, t@));
}

/// The type held for a symbol, as `symbol_ty` states.
fn held_symbol_type(inference: &FileTypeInference, symbol: SymbolId) -> (r: Option<&TypeRef>)
    ensures
        match r {
            Some(t) => symbol_ty(symbol_views(inference.symbol_types@), symbol.0) == Some(t@),
            None => symbol_ty(symbol_views(inference.symbol_types@), symbol.0) is None,
        },
{
    let r = inference.symbol_types.get(&symbol.0);
    proof {
        if let Some(t) = r {
            assert(inference.symbol_types@.contains_key(symbol.0));
            assert(symbol_views(inference.symbol_types@)[symbol.0] == t@);
        }
    }
    r
}

/// Merges a type into a symbol's type, as `merge_symbol` states, and says
/// whether it changed.
pub fn merge_symbol_type(inference: &mut FileTypeInference, symbol: SymbolId, next: TypeRef) -> (r: bool)
    ensures
        final(inference).expr_types@ == old(inference).expr_types@,
        (symbol_views(final(inference).symbol_types@), r) == merge_symbol(
            symbol_views(old(inference).symbol_types@),
            symbol.0,
            next@,
        ),
{
    let ghost m0 = symbol_views(inference.symbol_types@);
    let merged = match held_symbol_type(inference, symbol) {
        Some(current) => join_types(current, &next),
        None => next,
    };
    let unchanged = match held_symbol_type(inference, symbol) {
        Some(current) => type_eq(current, &merged),
        None => false,
    };
    if unchanged {
        assert(m0.insert(symbol.0, merged@) =~= m0);
        return false;
    }
    proof {
        lemma_symbol_views_insert(inference.symbol_types@, symbol.0, merged);
    }
    inference.symbol_types.insert(symbol.0, merged);
    true
}

/// Sets a symbol's type, as `set_symbol` states, and says whether it changed.
pub fn set_symbol_type(inference: &mut FileTypeInference, symbol: SymbolId, next: TypeRef) -> (r: bool)
    ensures
        final(inference).expr_types@ == old(inference).expr_types@,
        (symbol_views(final(inference).symbol_types@), r) == set_symbol(
            symbol_views(old(inference).symbol_types@),
            symbol.0,
            next@,
        ),
{
    let ghost m0 = symbol_views(inference.symbol_types@);
    let unchanged = match held_symbol_type(inference, symbol) {
        Some(current) => type_eq(current, &next),
        None => false,
    };
    if unchanged {
        assert(m0.insert(symbol.0, next@) =~= m0);
        return false;
    }
    proof {
        lemma_symbol_views_insert(inference.symbol_types@, symbol.0, next);
    }
    inference.symbol_types.insert(symbol.0, next);
    true
}

/// Merges a type into a symbol's type unless the type held cannot be
/// refined by it, in which case nothing changes.
pub open spec fn merge_symbol_if_refinable(m: Map<u32, Ty>, s: u32, expected: Ty) -> (Map<u32, Ty>, bool) {
    match symbol_ty(m, s) {
        Some(c) => if !can_refine(c, expected) {
            (m, false)
        } else {
            merge_symbol(m, s, expected)
        },
        None => merge_symbol(m, s, expected),
    }
}

/// Merges an expected type into a symbol's type, as
/// `merge_symbol_if_refinable` states.
pub fn merge_symbol_type_if_refinable(inference: &mut FileTypeInference, symbol: SymbolId, expected: TypeRef) -> (r:
    bool)
    ensures
        final(inference).expr_types@ == old(inference).expr_types@,
        (symbol_views(final(inference).symbol_types@), r) == merge_symbol_if_refinable(
            symbol_views(old(inference).symbol_types@),
            symbol.0,
            expected@,
        ),
{
    let refusable = match held_symbol_type(inference, symbol) {
        Some(current) => !can_refine_with_expected(current, &expected),
        None => false,
    };
    if refusable {
        return false;
    }
    merge_symbol_type(inference, symbol, expected)
}

/// Merging `next` into a slot's type: the slots afterwards, and whether the
/// slot's type changed.
pub open spec fn merge_slot(xs: Seq<Option<Ty>>, slot: int, next: Ty) -> (Seq<Option<Ty>>, bool) {
    let merged = merged_with(xs[slot], next);
    (xs.update(slot, Some(merged)), xs[slot] != Some(merged))
}

/// Setting a slot's type: the slots afterwards, and whether it changed.
pub open spec fn set_slot(xs: Seq<Option<Ty>>, slot: int, next: Ty) -> (Seq<Option<Ty>>, bool) {
    (xs.update(slot, Some(next)), xs[slot] != Some(next))
}

/// The type held in an expression's result slot, if any.
pub fn inferred_expr_type(inference: &FileTypeInference, slot: usize) -> (r: Option<TypeRef>)
    requires
        slot < inference.expr_types@.len(),
    ensures
        opt_ty(r) == slot_views(inference.expr_types@)[slot as int],
{
    match &inference.expr_types[slot] {
        Some(t) => Some(clone_type(t)),
        None => None,
    }
}

/// Merges a type into an expression's result slot, as `merge_slot` states,
/// and says whether it changed.
pub fn merge_expr_type(inference: &mut FileTypeInference, slot: usize, next: TypeRef) -> (r: bool)
    requires
        slot < old(inference).expr_types@.len(),
    ensures
        final(inference).expr_types@.len() == old(inference).expr_types@.len(),
        final(inference).symbol_types@ == old(inference).symbol_types@,
        (slot_views(final(inference).expr_types@), r) == merge_slot(
            slot_views(old(inference).expr_types@),
            slot as int,
            next@,
        ),
{
    let ghost xs = slot_views(inference.expr_types@);
    let merged = match &inference.expr_types[slot] {
        Some(current) => join_types(current, &next),
        None => next,
    };
    let unchanged = match &inference.expr_types[slot] {
        Some(current) => type_eq(current, &merged),
        None => false,
    };
    if unchanged {
        assert(xs.update(slot as int, Some(merged@)) =~= xs);
        return false;
    }
    let ghost merged_view = merged@;
    inference.expr_types.set(slot, Some(merged));
    assert(slot_views(inference.expr_types@) =~= xs.update(slot as int, Some(merged_view)));
    true
}

/// Sets an expression's result slot, as `set_slot` states, and says whether
/// it changed.
pub fn set_expr_type(inference: &mut FileTypeInference, slot: usize, next: TypeRef) -> (r: bool)
    requires
        slot < old(inference).expr_types@.len(),
    ensures
        final(inference).expr_types@.len() == old(inference).expr_types@.len(),
        final(inference).symbol_types@ == old(inference).symbol_types@,
        (slot_views(final(inference).expr_types@), r) == set_slot(
            slot_views(old(inference).expr_types@),
            slot as int,
            next@,
        ),
{
    let ghost xs = slot_views(inference.expr_types@);
    let unchanged = match &inference.expr_types[slot] {
        Some(current) => type_eq(current, &next),
        None => false,
    };
    if unchanged {
        assert(xs.update(slot as int, Some(next@)) =~= xs);
        return false;
    }
    let ghost next_view = next@;
    inference.expr_types.set(slot, Some(next));
    assert(slot_views(inference.expr_types@) =~= xs.update(slot as int, Some(next_view)));
    true
}

/// Merges a type into a slot unless the type held cannot be refined by it.
pub open spec fn merge_slot_if_refinable(xs: Seq<Option<Ty>>, slot: int, expected: Ty) -> (Seq<Option<Ty>>, bool) {
    match xs[slot] {
        Some(c) => if !can_refine(c, expected) {
            (xs, false)
        } else {
            merge_slot(xs, slot, expected)
        },
        None => merge_slot(xs, slot, expected),
    }
}

/// Merges an expected type into an expression's result slot, as
/// `merge_slot_if_refinable` states.
pub fn merge_expr_type_if_refinable(inference: &mut FileTypeInference, slot: usize, expected: TypeRef) -> (r: bool)
    requires
        slot < old(inference).expr_types@.len(),
    ensures
        final(inference).expr_types@.len() == old(inference).expr_types@.len(),
        final(inference).symbol_types@ == old(inference).symbol_types@,
        (slot_views(final(inference).expr_types@), r) == merge_slot_if_refinable(
            slot_views(old(inference).expr_types@),
            slot as int,
            expected@,
        ),
{
    let refusable = match &inference.expr_types[slot] {
        Some(current) => !can_refine_with_expected(current, &expected),
        None => false,
    };
    if refusable {
        return false;
    }
    merge_expr_type(inference, slot, expected)
}

/// A value that flows into a symbol: the symbol, the expression whose value
/// flows, and that expression's result slot.
#[derive(Clone, Copy, Debug)]
pub struct ValueFlowEdge {
    pub symbol: SymbolId,
    pub expr: u32,
    pub slot: usize,
}

/// What flow propagation reads of a symbol.
#[derive(Clone, Copy, Debug)]
pub struct SymbolFacts {
    /// Whether the symbol has a declared type.
    pub has_declared_type: bool,
    /// Whether the symbol is a variable or a constant.
    pub is_variable_or_constant: bool,
    /// Whether anything writes into the symbol through a path.
    pub has_mutations: bool,
}

/// The flows into symbol `s`, in order.
pub open spec fn flows_into(flows: Seq<ValueFlowEdge>, s: u32) -> Seq<ValueFlowEdge>
    decreases flows.len(),
{
    if flows.len() == 0 {
        Seq::empty()
    } else {
        let before = flows_into(flows.drop_last(), s);
        if flows.last().symbol.0 == s {
            before.push(flows.last())
        } else {
            before
        }
    }
}

/// Whether the value of `expr` replaces the type of symbol `s` rather than
/// joining it: the symbol is a variable or constant with no declared type
/// and no writes through paths, the expression is a block, `if`, `switch`,
/// call, name, field, index or parenthesised expression, and it is the only
/// value that flows into the symbol.
pub open spec fn overwrites_symbol(
    flows: Seq<ValueFlowEdge>,
    s: u32,
    expr: u32,
    facts: SymbolFacts,
    value_form: bool,
) -> bool {
    &&& !facts.has_declared_type
    &&& value_form
    &&& facts.is_variable_or_constant
    &&& !facts.has_mutations
    &&& flows_into(flows, s).len() == 1
    &&& flows_into(flows, s)[0].expr == expr
}

/// Whether the value of `expr` replaces the type of `symbol`, as
/// `overwrites_symbol` states; `value_form` says whether the expression is
/// a block, `if`, `switch`, call, name, field, index or parenthesised
/// expression.
pub fn should_overwrite_symbol_from_single_flow(
    flows: &[ValueFlowEdge],
    symbol: SymbolId,
    expr: u32,
    facts: &SymbolFacts,
    value_form: bool,
) -> (r: bool)
    ensures
        r == overwrites_symbol(flows@, symbol.0, expr, *facts, value_form),
{
    if facts.has_declared_type || !value_form || !facts.is_variable_or_constant || facts.has_mutations {
        return false;
    }
    let mut count: usize = 0;
    let mut first_expr: u32 = 0;
    let mut i: usize = 0;
    while i < flows.len()
        invariant
            0 <= i <= flows.len(),
            count == flows_into(flows@.take(i as int), symbol.0).len(),
            count <= i,
            count > 0 ==> first_expr == flows_into(flows@.take(i as int), symbol.0)[0].expr,
        decreases flows.len() - i,
    {
        proof {
            assert(flows@.take(i + 1).drop_last() =~= flows@.take(i as int));
            assert(flows@.take(i + 1).last() == flows@[i as int]);
        }
        if flows[i].symbol.0 == symbol.0 {
            if count == 0 {
                first_expr = flows[i].expr;
            }
            count += 1;
        }
        i += 1;
    }
    assert(flows@.take(i as int) =~= flows@);
    count == 1 && first_expr == expr
}

/// One step of flow propagation: when the flowing expression has a type,
/// it replaces or joins the symbol's type, as `overwrites_symbol` decides.
pub open spec fn flow_step(
    m: Map<u32, Ty>,
    slots: Seq<Option<Ty>>,
    flows: Seq<ValueFlowEdge>,
    facts: Seq<SymbolFacts>,
    value_forms: Seq<bool>,
    f: ValueFlowEdge,
) -> (Map<u32, Ty>, bool) {
    match slots[f.slot as int] {
        None => (m, false),
        Some(t) => if overwrites_symbol(flows, f.symbol.0, f.expr, facts[f.symbol.0 as int], value_forms[f.expr as int]) {
            set_symbol(m, f.symbol.0, t)
        } else {
            merge_symbol(m, f.symbol.0, t)
        },
    }
}

/// The symbol types after the steps for `fs`, in order, and whether any
/// step changed a type.
pub open spec fn flows_applied(
    m: Map<u32, Ty>,
    slots: Seq<Option<Ty>>,
    flows: Seq<ValueFlowEdge>,
    facts: Seq<SymbolFacts>,
    value_forms: Seq<bool>,
    fs: Seq<ValueFlowEdge>,
) -> (Map<u32, Ty>, bool)
    decreases fs.len(),
{
    if fs.len() == 0 {
        (m, false)
    } else {
        let (m1, c1) = flows_applied(m, slots, flows, facts, value_forms, fs.drop_last());
        let (m2, c2) = flow_step(m1, slots, flows, facts, value_forms, fs.last());
        (m2, c1 || c2)
    }
}

/// Whether every flow names a known symbol, expression and slot.
pub open spec fn flows_in_range(
    flows: Seq<ValueFlowEdge>,
    facts: Seq<SymbolFacts>,
    value_forms: Seq<bool>,
    slot_count: nat,
) -> bool {
    forall|i: int|
        0 <= i < flows.len() ==> (#[trigger] flows[i]).symbol.0 < facts.len() && flows[i].expr < value_forms.len()
            && flows[i].slot < slot_count
}

/// Propagates the types of values into the symbols they flow into, as
/// `flows_applied` states, and says whether any symbol's type changed.
pub fn propagate_value_flows(
    flows: &[ValueFlowEdge],
    symbol_facts: &[SymbolFacts],
    value_forms: &[bool],
    inference: &mut FileTypeInference,
) -> (r: bool)
    requires
        flows_in_range(flows@, symbol_facts@, value_forms@, old(inference).expr_types@.len()),
    ensures
        final(inference).expr_types@ == old(inference).expr_types@,
        (symbol_views(final(inference).symbol_types@), r) == flows_applied(
            symbol_views(old(inference).symbol_types@),
            slot_views(old(inference).expr_types@),
            flows@,
            symbol_facts@,
            value_forms@,
            flows@,
        ),
{
    let ghost slots = slot_views(inference.expr_types@);
    let ghost xs = inference.expr_types@;
    let ghost m0 = symbol_views(inference.symbol_types@);
    let mut changed = false;
    let mut i: usize = 0;
    while i < flows.len()
        invariant
            0 <= i <= flows.len(),
            inference.expr_types@ == xs,
            slots == slot_views(xs),
            flows_in_range(flows@, symbol_facts@, value_forms@, xs.len()),
            (symbol_views(inference.symbol_types@), changed) == flows_applied(
                m0,
                slots,
                flows@,
                symbol_facts@,
                value_forms@,
                flows@.take(i as int),
            ),
        decreases flows.len() - i,
    {
        proof {
            assert(flows@.take(i + 1).drop_last() =~= flows@.take(i as int));
            assert(flows@.take(i + 1).last() == flows@[i as int]);
        }
        let f = flows[i];
        assert(f.symbol.0 < symbol_facts.len() && f.expr < value_forms.len() && f.slot < xs.len());
        if let Some(t) = inferred_expr_type(inference, f.slot) {
            let overwrite = should_overwrite_symbol_from_single_flow(
                flows,
                f.symbol,
                f.expr,
                &symbol_facts[f.symbol.0 as usize],
                value_forms[f.expr as usize],
            );
            let step = if overwrite {
                set_symbol_type(inference, f.symbol, t)
            } else {
                merge_symbol_type(inference, f.symbol, t)
            };
            changed = changed || step;
        }
        i += 1;
    }
    assert(flows@.take(i as int) =~= flows@);
    changed
}

/// A write into part of a symbol through a path: the symbol, the written
/// value's result slot, and the path.
pub struct MutationEdge {
    pub symbol: SymbolId,
    pub value_slot: usize,
    pub segments: Vec<PathSegment>,
}

/// The symbol types after merging, for each write whose value has a type,
/// the container that the write implies; and whether any type changed.
pub open spec fn mutations_applied(
    m: Map<u32, Ty>,
    slots: Seq<Option<Ty>>,
    ms: Seq<MutationEdge>,
) -> (Map<u32, Ty>, bool)
    decreases ms.len(),
{
    if ms.len() == 0 {
        (m, false)
    } else {
        let (m1, c1) = mutations_applied(m, slots, ms.drop_last());
        let e = ms.last();
        match slots[e.value_slot as int] {
            None => (m1, c1),
            Some(v) => {
                let (m2, c2) = merge_symbol(m1, e.symbol.0, container_for(segment_views(e.segments@), v));
                (m2, c1 || c2)
            },
        }
    }
}

/// Propagates writes through paths into the types of their symbols, as
/// `mutations_applied` states, and says whether any type changed.
pub fn propagate_symbol_mutations(mutations: &[MutationEdge], inference: &mut FileTypeInference) -> (r: bool)
    requires
        forall|i: int| 0 <= i < mutations@.len() ==> (#[trigger] mutations@[i]).value_slot < old(inference).expr_types@.len(),
    ensures
        final(inference).expr_types@ == old(inference).expr_types@,
        (symbol_views(final(inference).symbol_types@), r) == mutations_applied(
            symbol_views(old(inference).symbol_types@),
            slot_views(old(inference).expr_types@),
            mutations@,
        ),
{
    let ghost slots = slot_views(inference.expr_types@);
    let ghost xs = inference.expr_types@;
    let ghost m0 = symbol_views(inference.symbol_types@);
    let mut changed = false;
    let mut i: usize = 0;
    while i < mutations.len()
        invariant
            0 <= i <= mutations.len(),
            inference.expr_types@ == xs,
            slots == slot_views(xs),
            forall|j: int| 0 <= j < mutations@.len() ==> (#[trigger] mutations@[j]).value_slot < xs.len(),
            (symbol_views(inference.symbol_types@), changed) == mutations_applied(m0, slots, mutations@.take(i as int)),
        decreases mutations.len() - i,
    {
        proof {
            assert(mutations@.take(i + 1).drop_last() =~= mutations@.take(i as int));
            assert(mutations@.take(i + 1).last() == mutations@[i as int]);
        }
        let e = &mutations[i];
        assert(e.value_slot < xs.len());
        if let Some(v) = inferred_expr_type(inference, e.value_slot) {
            let container = nested_mutation_container_type(e.segments.as_slice(), v);
            let step = merge_symbol_type(inference, e.symbol, container);
            changed = changed || step;
        }
        i += 1;
    }
    assert(mutations@.take(i as int) =~= mutations@);
    changed
}

/// A `for` loop: the result slot of what it iterates, if it has one, and
/// its binding symbols.
pub struct ForLoopEdge {
    pub iterable_slot: Option<usize>,
    pub bindings: Vec<SymbolId>,
}

/// The symbol types after merging the first `k` binding types into the
/// first `k` bindings, in order; and whether any type changed.
pub open spec fn bindings_merged(m: Map<u32, Ty>, bs: Seq<SymbolId>, ts: Seq<Ty>, k: int) -> (Map<u32, Ty>, bool)
    decreases k,
{
    if k <= 0 {
        (m, false)
    } else {
        let (m1, c1) = bindings_merged(m, bs, ts, k - 1);
        let (m2, c2) = merge_symbol(m1, bs[k - 1].0, ts[k - 1]);
        (m2, c1 || c2)
    }
}

/// The symbol types after, for each loop whose iterated value has a type
/// that gives binding types, merging those types into its bindings; and
/// whether any type changed.
pub open spec fn loops_applied(m: Map<u32, Ty>, slots: Seq<Option<Ty>>, ls: Seq<ForLoopEdge>) -> (Map<u32, Ty>, bool)
    decreases ls.len(),
{
    if ls.len() == 0 {
        (m, false)
    } else {
        let (m1, c1) = loops_applied(m, slots, ls.drop_last());
        let l = ls.last();
        match l.iterable_slot {
            None => (m1, c1),
            Some(slot) => match slots[slot as int] {
                None => (m1, c1),
                Some(t) => match for_bindings(t, l.bindings@.len()) {
                    None => (m1, c1),
                    Some(ts) => {
                        let k = if ts.len() < l.bindings@.len() {
                            ts.len() as int
                        } else {
                            l.bindings@.len() as int
                        };
                        let (m2, c2) = bindings_merged(m1, l.bindings@, ts, k);
                        (m2, c1 || c2)
                    },
                },
            },
        }
    }
}

/// Propagates the types of iterated values into the bindings of `for`
/// loops, as `loops_applied` states, and says whether any type changed.
pub fn propagate_for_binding_types(loops: &[ForLoopEdge], inference: &mut FileTypeInference) -> (r: bool)
    requires
        forall|i: int|
            0 <= i < loops@.len() ==> ((#[trigger] loops@[i]).iterable_slot matches Some(s) ==> s < old(
                inference,
            ).expr_types@.len()),
    ensures
        final(inference).expr_types@ == old(inference).expr_types@,
        (symbol_views(final(inference).symbol_types@), r) == loops_applied(
            symbol_views(old(inference).symbol_types@),
            slot_views(old(inference).expr_types@),
            loops@,
        ),
{
    let ghost slots = slot_views(inference.expr_types@);
    let ghost xs = inference.expr_types@;
    let ghost m0 = symbol_views(inference.symbol_types@);
    let mut changed = false;
    let mut i: usize = 0;
    while i < loops.len()
        invariant
            0 <= i <= loops.len(),
            inference.expr_types@ == xs,
            slots == slot_views(xs),
            forall|j: int|
                0 <= j < loops@.len() ==> ((#[trigger] loops@[j]).iterable_slot matches Some(s) ==> s < xs.len()),
            (symbol_views(inference.symbol_types@), changed) == loops_applied(m0, slots, loops@.take(i as int)),
        decreases loops.len() - i,
    {
        proof {
            assert(loops@.take(i + 1).drop_last() =~= loops@.take(i as int));
            assert(loops@.take(i + 1).last() == loops@[i as int]);
        }
        let l = &loops[i];
        if let Some(slot) = l.iterable_slot {
            if let Some(t) = inferred_expr_type(inference, slot) {
                if let Some(tys) = for_binding_types_from_iterable(&t, l.bindings.len()) {
                    let ghost tv = views(tys@);
                    let k = if tys.len() < l.bindings.len() {
                        tys.len()
                    } else {
                        l.bindings.len()
                    };
                    let ghost before = changed;
                    let ghost m1 = symbol_views(inference.symbol_types@);
                    let mut inner = false;
                    let mut j: usize = 0;
                    while j < k
                        invariant
                            0 <= j <= k,
                            k <= tys.len(),
                            k <= l.bindings.len(),
                            tv == views(tys@),
                            inference.expr_types@ == xs,
                            (symbol_views(inference.symbol_types@), inner) == bindings_merged(
                                m1,
                                l.bindings@,
                                tv,
                                j as int,
                            ),
                        decreases k - j,
                    {
                        let step = merge_symbol_type(inference, l.bindings[j], clone_type(&tys[j]));
                        inner = inner || step;
                        j += 1;
                    }
                    changed = changed || inner;
                }
            }
        }
        i += 1;
    }
    assert(loops@.take(i as int) =~= loops@);
    changed
}

/// Merging into a symbol the type it already holds changes nothing, and
/// neither does setting a type a second time.
pub proof fn law_repeated_steps_change_nothing(m: Map<u32, Ty>, s: u32, t: Ty)
    ensures
        symbol_ty(m, s) == Some(t) ==> merge_symbol(m, s, t) == (m, false),
        set_symbol(set_symbol(m, s, t).0, s, t) == (set_symbol(m, s, t).0, false),
{
    crate::lattice::law_join_idempotent_and_vague_left_identity(t, t);
    if symbol_ty(m, s) == Some(t) {
        assert(m.insert(s, t) =~= m);
    }
    let m1 = m.insert(s, t);
    assert(m1.insert(s, t) =~= m1);
}

/// A merge or set step reports a change exactly when the type held for the
/// symbol before differs from the one held after, and it leaves every other
/// symbol as it was.
pub proof fn law_steps_report_exactly_their_changes(m: Map<u32, Ty>, s: u32, t: Ty, other: u32)
    requires
        other != s,
    ensures
        merge_symbol(m, s, t).1 == (symbol_ty(m, s) != symbol_ty(merge_symbol(m, s, t).0, s)),
        set_symbol(m, s, t).1 == (symbol_ty(m, s) != symbol_ty(set_symbol(m, s, t).0, s)),
        symbol_ty(merge_symbol(m, s, t).0, other) == symbol_ty(m, other),
        symbol_ty(set_symbol(m, s, t).0, other) == symbol_ty(m, other),
{
}

/// The types held in the result slots of a call's arguments, in order.
pub fn call_argument_types(inference: &FileTypeInference, arg_slots: &[usize]) -> (r: Vec<Option<TypeRef>>)
    requires
        forall|i: int| 0 <= i < arg_slots@.len() ==> #[trigger] arg_slots@[i] < inference.expr_types@.len(),
    ensures
        arg_views(r@) == Seq::new(arg_slots@.len(), |i: int| slot_views(inference.expr_types@)[arg_slots@[i] as int]),
{
    let ghost slots = slot_views(inference.expr_types@);
    let mut out: Vec<Option<TypeRef>> = Vec::new();
    let mut i: usize = 0;
    while i < arg_slots.len()
        invariant
            0 <= i <= arg_slots.len(),
            slots == slot_views(inference.expr_types@),
            forall|j: int| 0 <= j < arg_slots@.len() ==> #[trigger] arg_slots@[j] < inference.expr_types@.len(),
            arg_views(out@) == Seq::new(i as nat, |j: int| slots[arg_slots@[j] as int]),
        decreases arg_slots.len() - i,
    {
        let t = inferred_expr_type(inference, arg_slots[i]);
        let ghost before = arg_views(out@);
        let ghost tv = opt_ty(t);
        out.push(t);
        assert(arg_views(out@) =~= before.push(tv));
        assert(arg_views(out@) =~= Seq::new((i + 1) as nat, |j: int| slots[arg_slots@[j] as int]));
        i += 1;
    }
    out
}

/// Whether a call dispatches through its first argument: a caller-scope
/// call of `call`.
pub fn caller_scope_dispatches_via_first_arg(caller_scope: bool, callee_name: Option<&str>) -> (r: bool)
    ensures
        r == (caller_scope && (callee_name matches Some(n) && n@ == "call"@)),
{
    match callee_name {
        Some(n) => caller_scope && crate::generics::str_eq(n, "call"),
        None => false,
    }
}

/// The argument slots that a call passes to its callee: without the first
/// when the call dispatches through it.
pub open spec fn effective_slots(arg_slots: Seq<usize>, dispatches: bool) -> Seq<usize> {
    if dispatches && arg_slots.len() > 0 {
        arg_slots.skip(1)
    } else {
        arg_slots
    }
}

/// The types of the arguments a call passes to its callee, as
/// `effective_slots` states.
pub fn effective_call_argument_types(inference: &FileTypeInference, arg_slots: &[usize], dispatches: bool) -> (r: Vec<
    Option<TypeRef>,
>)
    requires
        forall|i: int| 0 <= i < arg_slots@.len() ==> #[trigger] arg_slots@[i] < inference.expr_types@.len(),
    ensures
        arg_views(r@) == Seq::new(
            effective_slots(arg_slots@, dispatches).len(),
            |i: int| slot_views(inference.expr_types@)[effective_slots(arg_slots@, dispatches)[i] as int],
        ),
{
    let offset: usize = if dispatches && arg_slots.len() > 0 {
        1
    } else {
        0
    };
    let rest = slice_from(arg_slots, offset);
    assert(rest@ == effective_slots(arg_slots@, dispatches));
    call_argument_types(inference, rest.as_slice())
}

/// The slots of `s` from `start` on.
fn slice_from(s: &[usize], start: usize) -> (r: Vec<usize>)
    requires
        start <= s@.len(),
    ensures
        r@ == s@.skip(start as int),
{
    let mut out: Vec<usize> = Vec::new();
    let mut i: usize = start;
    while i < s.len()
        invariant
            start <= i <= s@.len(),
            out@ == s@.subrange(start as int, i as int),
        decreases s.len() - i,
    {
        out.push(s[i]);
        assert(out@ =~= s@.subrange(start as int, i + 1));
        i += 1;
    }
    assert(out@ =~= s@.skip(start as int));
    out
}

/// The argument types a call is checked with: given ones without the first
/// when they cover every argument and the call dispatches through its first;
/// given ones as they are otherwise; without given ones, the types of the
/// arguments the call passes.
pub open spec fn effective_arg_types(
    given: Option<Seq<Option<Ty>>>,
    arg_count: nat,
    dispatches: bool,
    passed: Seq<Option<Ty>>,
) -> Seq<Option<Ty>> {
    match given {
        Some(a) => if a.len() == arg_count && dispatches && a.len() > 0 {
            a.skip(1)
        } else {
            a
        },
        None => passed,
    }
}

/// The argument types a call is checked with, as `effective_arg_types`
/// states; there always are some.
pub fn effective_arg_types_for_call(
    inference: &FileTypeInference,
    arg_slots: &[usize],
    dispatches: bool,
    arg_types: Option<&[Option<TypeRef>]>,
) -> (r: Option<Vec<Option<TypeRef>>>)
    requires
        forall|i: int| 0 <= i < arg_slots@.len() ==> #[trigger] arg_slots@[i] < inference.expr_types@.len(),
    ensures
        r matches Some(v) && arg_views(v@) == effective_arg_types(
            match arg_types {
                Some(a) => Some(arg_views(a@)),
                None => None,
            },
            arg_slots@.len(),
            dispatches,
            Seq::new(
                effective_slots(arg_slots@, dispatches).len(),
                |i: int| slot_views(inference.expr_types@)[effective_slots(arg_slots@, dispatches)[i] as int],
            ),
        ),
{
    match arg_types {
        Some(a) => {
            let start: usize = if a.len() == arg_slots.len() && dispatches && a.len() > 0 {
                1
            } else {
                0
            };
            let mut out: Vec<Option<TypeRef>> = Vec::new();
            let mut i: usize = start;
            while i < a.len()
                invariant
                    start <= i <= a@.len(),
                    start <= 1,
                    arg_views(out@) == arg_views(a@).subrange(start as int, i as int),
                decreases a.len() - i,
            {
                let t = match &a[i] {
                    Some(t) => Some(clone_type(t)),
                    None => None,
                };
                let ghost before = arg_views(out@);
                let ghost tv = opt_ty(t);
                assert(tv == arg_views(a@)[i as int]);
                out.push(t);
                assert(arg_views(out@) =~= before.push(tv));
                assert(arg_views(out@) =~= arg_views(a@).subrange(start as int, i + 1));
                i += 1;
            }
            assert(arg_views(a@).subrange(start as int, a@.len() as int) =~= arg_views(a@).skip(start as int));
            Some(out)
        },
        None => Some(effective_call_argument_types(inference, arg_slots, dispatches)),
    }
}

} // verus!
