//! Pushing an expected type down into an expression: into the symbols it
//! names, the items of arrays, the fields of objects, the branches of `if`
//! and `switch`, and the parameters and results of closures.

use vstd::prelude::*;

use crate::calls::{expected_field, expected_object_field_type, SymbolId};
use crate::inference::{
    inference_view, merge_expr_type_if_refinable, merge_slot_if_refinable, merge_symbol_if_refinable,
    merge_symbol_type_if_refinable, FileTypeInference,
};
use crate::ty::{clone_signature, clone_type, lemma_model_unfold, views, FunctionTypeRef, Ty, TypeRef};

verus! {

/// An expression that an expected type reaches, as propagation reads it:
/// its result slot and its shape.
pub struct ExpectedExpr {
    pub slot: usize,
    pub shape: ExpectedShape,
}

/// A field of an object literal: its name and its value, if any.
pub struct ExpectedField {
    pub name: String,
    pub value: Option<ExpectedExpr>,
}

/// The shape of an expression, as propagation reads it.
pub enum ExpectedShape {
    /// A name, with the symbol it refers to, if any.
    Name(Option<SymbolId>),
    /// An array literal with its items.
    Array(Vec<ExpectedExpr>),
    /// An object literal with its fields.
    Object(Vec<ExpectedField>),
    /// A block, with its tail value when its body may fall through to it.
    Block(Option<Box<ExpectedExpr>>),
    /// An `if` with its branches.
    If(Option<Box<ExpectedExpr>>, Option<Box<ExpectedExpr>>),
    /// A `switch` with its arms.
    Switch(Vec<ExpectedExpr>),
    /// An assignment with its right-hand side.
    Assign(Option<Box<ExpectedExpr>>),
    /// A parenthesised expression with its largest inner expression.
    Paren(Option<Box<ExpectedExpr>>),
    /// A closure: its parameters, and its body's results: its return values,
    /// then its tail value when the body may fall through to it.
    Closure { params: Vec<SymbolId>, results: Vec<ExpectedExpr> },
    /// Any other expression.
    Other,
}

/// What inference holds: slot types and symbol types.
pub type InferenceState = (Seq<Option<Ty>>, Map<u32, Ty>);

/// Whether every result slot of the expression exists.
pub open spec fn slots_ok(e: ExpectedExpr, n: nat) -> bool
    decreases e,
{
    e.slot < n && match e.shape {
        ExpectedShape::Name(_) => true,
        ExpectedShape::Array(items) => list_slots_ok(items@, n),
        ExpectedShape::Object(fields) => field_slots_ok(fields@, n),
        ExpectedShape::Block(t) => opt_slots_ok(t, n),
        ExpectedShape::If(a, b) => opt_slots_ok(a, n) && opt_slots_ok(b, n),
        ExpectedShape::Switch(arms) => list_slots_ok(arms@, n),
        ExpectedShape::Assign(t) => opt_slots_ok(t, n),
        ExpectedShape::Paren(t) => opt_slots_ok(t, n),
        ExpectedShape::Closure { params, results } => list_slots_ok(results@, n),
        ExpectedShape::Other => true,
    }
}

/// Whether every result slot of an optional expression exists.
pub open spec fn opt_slots_ok(t: Option<Box<ExpectedExpr>>, n: nat) -> bool
    decreases t,
{
    match t {
        Some(x) => slots_ok(*x, n),
        None => true,
    }
}

/// Whether every result slot of the expressions exists.
pub open spec fn list_slots_ok(items: Seq<ExpectedExpr>, n: nat) -> bool
    decreases items,
{
    if items.len() == 0 {
        true
    } else {
        list_slots_ok(items.drop_last(), n) && slots_ok(items.last(), n)
    }
}

/// Whether every result slot of the field values exists.
pub open spec fn field_slots_ok(fields: Seq<ExpectedField>, n: nat) -> bool
    decreases fields,
{
    if fields.len() == 0 {
        true
    } else {
        field_slots_ok(fields.drop_last(), n) && match fields.last().value {
            Some(v) => slots_ok(v, n),
            None => true,
        }
    }
}

/// Merges an expected type into a slot, unless the type held cannot be
/// refined by it.
pub open spec fn refine_slot(st: InferenceState, slot: int, t: Ty) -> (InferenceState, bool) {
    let (xs, c) = merge_slot_if_refinable(st.0, slot, t);
    ((xs, st.1), c)
}

/// Merges an expected type into a symbol, unless the type held cannot be
/// refined by it.
pub open spec fn refine_symbol(st: InferenceState, s: u32, t: Ty) -> (InferenceState, bool) {
    let (m, c) = merge_symbol_if_refinable(st.1, s, t);
    ((st.0, m), c)
}

/// What pushing `expected` into an expression does: first into its parts as
/// its shape says (the symbol of a name; each item of an array, when an
/// array is expected; each field value, with the type expected of that
/// field; the tail of a block; both branches of an `if`; each arm of a
/// `switch`; the right-hand side of an assignment; the inside of
/// parentheses; the parameters and results of a closure, when a function is
/// expected), then into the expression's own slot.
pub open spec fn propagated(e: ExpectedExpr, expected: Ty, st: InferenceState) -> (InferenceState, bool)
    decreases e,
{
    let (st1, c1) = match e.shape {
        ExpectedShape::Name(s) => match s {
            Some(sym) => refine_symbol(st, sym.0, expected),
            None => (st, false),
        },
        ExpectedShape::Array(items) => match expected {
            Ty::Array(inner) => propagated_list(items@, *inner, st),
            _ => (st, false),
        },
        ExpectedShape::Object(fields) => propagated_fields(fields@, expected, st),
        ExpectedShape::Block(t) => propagated_opt(t, expected, st),
        ExpectedShape::If(a, b) => {
            let (s1, c1) = propagated_opt(a, expected, st);
            let (s2, c2) = propagated_opt(b, expected, s1);
            (s2, c1 || c2)
        },
        ExpectedShape::Switch(arms) => propagated_list(arms@, expected, st),
        ExpectedShape::Assign(t) => propagated_opt(t, expected, st),
        ExpectedShape::Paren(t) => propagated_opt(t, expected, st),
        ExpectedShape::Closure { params, results } => match expected {
            Ty::Function(ps, r) => {
                let (s1, c1) = params_refined(params@, ps, st, if params@.len() < ps.len() {
                    params@.len() as int
                } else {
                    ps.len() as int
                });
                let (s2, c2) = propagated_list(results@, *r, s1);
                let (s3, c3) = refine_slot(s2, e.slot as int, expected);
                (s3, c1 || c2 || c3)
            },
            _ => (st, false),
        },
        ExpectedShape::Other => (st, false),
    };
    let (st2, c2) = refine_slot(st1, e.slot as int, expected);
    (st2, c1 || c2)
}

/// What pushing `expected` into an optional expression does.
pub open spec fn propagated_opt(t: Option<Box<ExpectedExpr>>, expected: Ty, st: InferenceState) -> (
    InferenceState,
    bool,
)
    decreases t,
{
    match t {
        Some(x) => propagated(*x, expected, st),
        None => (st, false),
    }
}

/// What pushing `expected` into each expression, in order, does.
pub open spec fn propagated_list(items: Seq<ExpectedExpr>, expected: Ty, st: InferenceState) -> (InferenceState, bool)
    decreases items,
{
    if items.len() == 0 {
        (st, false)
    } else {
        let (s1, c1) = propagated_list(items.drop_last(), expected, st);
        let (s2, c2) = propagated(items.last(), expected, s1);
        (s2, c1 || c2)
    }
}

/// What pushing the type expected of each field into its value, in order,
/// does.
pub open spec fn propagated_fields(fields: Seq<ExpectedField>, expected: Ty, st: InferenceState) -> (
    InferenceState,
    bool,
)
    decreases fields,
{
    if fields.len() == 0 {
        (st, false)
    } else {
        let (s1, c1) = propagated_fields(fields.drop_last(), expected, st);
        let f = fields.last();
        match f.value {
            Some(v) => match expected_field(expected, f.name@) {
                Some(t) => {
                    let (s2, c2) = propagated(v, t, s1);
                    (s2, c1 || c2)
                },
                None => (s1, c1),
            },
            None => (s1, c1),
        }
    }
}

/// What merging the first `k` expected parameter types into the first `k`
/// parameters, in order, does.
pub open spec fn params_refined(params: Seq<SymbolId>, ps: Seq<Ty>, st: InferenceState, k: int) -> (
    InferenceState,
    bool,
)
    decreases k,
{
    if k <= 0 {
        (st, false)
    } else {
        let (s1, c1) = params_refined(params, ps, st, k - 1);
        let (s2, c2) = refine_symbol(s1, params[k - 1].0, ps[k - 1]);
        (s2, c1 || c2)
    }
}

/// Pushes an expected type into an expression, as `propagated` states, and
/// says whether any type changed.
pub fn propagate_expected_type_to_expr(inference: &mut FileTypeInference, expr: &ExpectedExpr, expected: &TypeRef) -> (r:
    bool)
    requires
        slots_ok(*expr, old(inference).expr_types@.len()),
    ensures
        final(inference).expr_types@.len() == old(inference).expr_types@.len(),
        (inference_view(*final(inference)), r) == propagated(*expr, expected@, inference_view(*old(inference))),
    decreases *expr, 0nat,
{
    proof {
        lemma_model_unfold(*expected);
    }
    let mut changed = false;
    match &expr.shape {
        ExpectedShape::Name(s) => {
            if let Some(sym) = s {
                changed = merge_symbol_type_if_refinable(inference, *sym, clone_type(expected));
            }
        },
        ExpectedShape::Array(items) => {
            if let TypeRef::Array(inner) = expected {
                changed = propagate_list(inference, items, inner);
            }
        },
        ExpectedShape::Object(fields) => {
            changed = propagate_fields(inference, fields, expected);
        },
        ExpectedShape::Block(t) => {
            changed = propagate_opt(inference, t, expected);
        },
        ExpectedShape::If(a, b) => {
            let c1 = propagate_opt(inference, a, expected);
            let c2 = propagate_opt(inference, b, expected);
            changed = c1 || c2;
        },
        ExpectedShape::Switch(arms) => {
            changed = propagate_list(inference, arms, expected);
        },
        ExpectedShape::Assign(t) => {
            changed = propagate_opt(inference, t, expected);
        },
        ExpectedShape::Paren(t) => {
            changed = propagate_opt(inference, t, expected);
        },
        ExpectedShape::Closure { params, results } => {
            if let TypeRef::Function(signature) = expected {
                changed = propagate_expected_function_type_to_closure(
                    inference,
                    expr.slot,
                    params,
                    results,
                    signature,
                );
            }
        },
        ExpectedShape::Other => {},
    }
    let own = merge_expr_type_if_refinable(inference, expr.slot, clone_type(expected));
    changed || own
}

fn propagate_opt(inference: &mut FileTypeInference, t: &Option<Box<ExpectedExpr>>, expected: &TypeRef) -> (r: bool)
    requires
        crate::expected::opt_slots_ok(*t, old(inference).expr_types@.len()),
    ensures
        final(inference).expr_types@.len() == old(inference).expr_types@.len(),
        (inference_view(*final(inference)), r) == propagated_opt(*t, expected@, inference_view(*old(inference))),
    decreases *t, 0nat,
{
    match t {
        Some(x) => propagate_expected_type_to_expr(inference, x, expected),
        None => false,
    }
}

fn propagate_list(inference: &mut FileTypeInference, items: &Vec<ExpectedExpr>, expected: &TypeRef) -> (r: bool)
    requires
        list_slots_ok(items@, old(inference).expr_types@.len()),
    ensures
        final(inference).expr_types@.len() == old(inference).expr_types@.len(),
        (inference_view(*final(inference)), r) == propagated_list(items@, expected@, inference_view(*old(inference))),
    decreases *items, 0nat,
{
    let ghost n = inference.expr_types@.len();
    let ghost st0 = inference_view(*inference);
    let mut changed = false;
    let mut i: usize = 0;
    proof {
        lemma_list_slots_prefix(items@, items@.len() as int, n);
    }
    while i < items.len()
        invariant
            0 <= i <= items.len(),
            inference.expr_types@.len() == n,
            forall|k: int| 0 <= k < items@.len() ==> slots_ok(#[trigger] items@[k], n),
            (inference_view(*inference), changed) == propagated_list(items@.take(i as int), expected@, st0),
        decreases items.len() - i,
    {
        proof {
            assert(items@.take(i + 1).drop_last() =~= items@.take(i as int));
            assert(items@.take(i + 1).last() == items@[i as int]);
        }
        let c = propagate_expected_type_to_expr(inference, &items[i], expected);
        changed = changed || c;
        i += 1;
    }
    assert(items@.take(i as int) =~= items@);
    changed
}

proof fn lemma_list_slots_prefix(items: Seq<ExpectedExpr>, k: int, n: nat)
    requires
        0 <= k <= items.len(),
        list_slots_ok(items, n),
    ensures
        forall|j: int| 0 <= j < k ==> slots_ok(#[trigger] items[j], n),
    decreases items.len(),
{
    if items.len() > 0 {
        lemma_list_slots_prefix(items.drop_last(), if k < items.len() {
            k
        } else {
            k - 1
        }, n);
        assert forall|j: int| 0 <= j < k implies slots_ok(#[trigger] items[j], n) by {
            if j < items.len() - 1 {
                assert(items.drop_last()[j] == items[j]);
            }
        }
    }
}

proof fn lemma_field_slots_prefix(fields: Seq<ExpectedField>, n: nat)
    requires
        field_slots_ok(fields, n),
    ensures
        forall|j: int|
            0 <= j < fields.len() ==> ((#[trigger] fields[j]).value matches Some(v) ==> slots_ok(v, n)),
    decreases fields.len(),
{
    if fields.len() > 0 {
        lemma_field_slots_prefix(fields.drop_last(), n);
        assert forall|j: int| 0 <= j < fields.len() implies ((#[trigger] fields[j]).value matches Some(v) ==> slots_ok(
            v,
            n,
        )) by {
            if j < fields.len() - 1 {
                assert(fields.drop_last()[j] == fields[j]);
            }
        }
    }
}

fn propagate_fields(inference: &mut FileTypeInference, fields: &Vec<ExpectedField>, expected: &TypeRef) -> (r: bool)
    requires
        field_slots_ok(fields@, old(inference).expr_types@.len()),
    ensures
        final(inference).expr_types@.len() == old(inference).expr_types@.len(),
        (inference_view(*final(inference)), r) == propagated_fields(fields@, expected@, inference_view(*old(inference))),
    decreases *fields, 0nat,
{
    let ghost n = inference.expr_types@.len();
    let ghost st0 = inference_view(*inference);
    let mut changed = false;
    let mut i: usize = 0;
    proof {
        lemma_field_slots_prefix(fields@, n);
    }
    while i < fields.len()
        invariant
            0 <= i <= fields.len(),
            inference.expr_types@.len() == n,
            forall|j: int|
                0 <= j < fields@.len() ==> ((#[trigger] fields@[j]).value matches Some(v) ==> slots_ok(v, n)),
            (inference_view(*inference), changed) == propagated_fields(fields@.take(i as int), expected@, st0),
        decreases fields.len() - i,
    {
        proof {
            assert(fields@.take(i + 1).drop_last() =~= fields@.take(i as int));
            assert(fields@.take(i + 1).last() == fields@[i as int]);
        }
        let f = &fields[i];
        if let Some(v) = &f.value {
            if let Some(t) = expected_object_field_type(expected, f.name.as_str()) {
                let c = propagate_expected_type_to_expr(inference, v, &t);
                changed = changed || c;
            }
        }
        i += 1;
    }
    assert(fields@.take(i as int) =~= fields@);
    changed
}

/// Pushes an expected function type into a closure: each expected
/// parameter type into the matching parameter, the expected return type
/// into the body's results, then the function type into the closure's slot,
/// as the closure case of `propagated` states.
pub fn propagate_expected_function_type_to_closure(
    inference: &mut FileTypeInference,
    slot: usize,
    params: &Vec<SymbolId>,
    results: &Vec<ExpectedExpr>,
    expected: &FunctionTypeRef,
) -> (r: bool)
    requires
        slot < old(inference).expr_types@.len(),
        list_slots_ok(results@, old(inference).expr_types@.len()),
    ensures
        final(inference).expr_types@.len() == old(inference).expr_types@.len(),
        ({
            let (ps, ret) = expected.sig();
            let (s1, c1) = params_refined(params@, ps, inference_view(*old(inference)), if params@.len() < ps.len() {
                params@.len() as int
            } else {
                ps.len() as int
            });
            let (s2, c2) = propagated_list(results@, ret, s1);
            let (s3, c3) = refine_slot(s2, slot as int, Ty::Function(ps, Box::new(ret)));
            (inference_view(*final(inference)), r) == (s3, c1 || c2 || c3)
        }),
    decreases *results, 1nat,
{
    let ghost st0 = inference_view(*inference);
    let ghost ps = views(expected.params@);
    let k = if params.len() < expected.params.len() {
        params.len()
    } else {
        expected.params.len()
    };
    let mut changed = false;
    let mut i: usize = 0;
    while i < k
        invariant
            0 <= i <= k,
            k <= params.len(),
            k <= expected.params.len(),
            ps == views(expected.params@),
            inference.expr_types@.len() == old(inference).expr_types@.len(),
            (inference_view(*inference), changed) == params_refined(params@, ps, st0, i as int),
        decreases k - i,
    {
        let c = merge_symbol_type_if_refinable(inference, params[i], clone_type(&expected.params[i]));
        changed = changed || c;
        i += 1;
    }
    let c2 = propagate_list(inference, results, &expected.ret);
    let f = TypeRef::Function(clone_signature(expected));
    proof {
        lemma_model_unfold(f);
    }
    let c3 = merge_expr_type_if_refinable(inference, slot, f);
    changed || c2 || c3
}

/// Pushes an expected type into a body's results (its return values, then
/// its tail value when the body may fall through to it), in order, as
/// `propagated_list` states.
pub fn propagate_expected_type_to_body_results(
    inference: &mut FileTypeInference,
    results: &Vec<ExpectedExpr>,
    expected: &TypeRef,
) -> (r: bool)
    requires
        list_slots_ok(results@, old(inference).expr_types@.len()),
    ensures
        final(inference).expr_types@.len() == old(inference).expr_types@.len(),
        (inference_view(*final(inference)), r) == propagated_list(results@, expected@, inference_view(*old(inference))),
{
    propagate_list(inference, results, expected)
}

} // verus!
