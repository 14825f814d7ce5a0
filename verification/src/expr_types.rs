//! The types of literal, array, object, `if` and `switch` expressions, from
//! the types that inference holds for their parts.

use vstd::prelude::*;

use crate::inference::{inferred_expr_type, slot_views, FileTypeInference};
use crate::lattice::{join, join_each, join_option, join_option_types, join_params, join_types, merge_fields,
    merge_object_fields, opt_ty};
use crate::ty::{field_views, lemma_model_unfold, FunctionTypeRef, ObjectField, Ty, TypeRef};

verus! {

/// The kinds of literal.
#[derive(Clone, Copy, PartialEq, Eq, Debug)]
pub enum LiteralKind {
    Int,
    Float,
    String,
    Char,
    Bool,
}

/// The type of a literal of the given kind.
pub open spec fn literal_type(kind: LiteralKind) -> Ty {
    match kind {
        LiteralKind::Int => Ty::Int,
        LiteralKind::Float => Ty::Float,
        LiteralKind::String => Ty::Str,
        LiteralKind::Char => Ty::Char,
        LiteralKind::Bool => Ty::Bool,
    }
}

/// The type of a literal expression, as `literal_type` states; none for an
/// expression that is not a literal.
pub fn infer_literal_expr_type(literal: Option<LiteralKind>) -> (r: Option<TypeRef>)
    ensures
        opt_ty(r) == match literal {
            Some(k) => Some(literal_type(k)),
            None => None,
        },
{
    let kind = match literal {
        Some(k) => k,
        None => return None,
    };
    let t = match kind {
        LiteralKind::Int => TypeRef::Int,
        LiteralKind::Float => TypeRef::Float,
        LiteralKind::String => TypeRef::String,
        LiteralKind::Char => TypeRef::Char,
        LiteralKind::Bool => TypeRef::Bool,
    };
    proof {
        lemma_model_unfold(t);
    }
    Some(t)
}

/// The join, in order, of the known types among `ts`; none when no type is
/// known.
pub open spec fn join_known(ts: Seq<Option<Ty>>) -> Option<Ty>
    decreases ts.len(),
{
    if ts.len() == 0 {
        None
    } else {
        let before = join_known(ts.drop_last());
        match ts.last() {
            None => before,
            Some(t) => match before {
                Some(b) => Some(join(b, t)),
                None => Some(t),
            },
        }
    }
}

/// The types held in the given slots, in order.
pub open spec fn slot_types(inf: FileTypeInference, slots: Seq<usize>) -> Seq<Option<Ty>> {
    Seq::new(slots.len(), |i: int| slot_views(inf.expr_types@)[slots[i] as int])
}

/// Whether every slot exists.
pub open spec fn slots_exist(inf: FileTypeInference, slots: Seq<usize>) -> bool {
    forall|i: int| 0 <= i < slots.len() ==> #[trigger] slots[i] < inf.expr_types@.len()
}

/// The join, in order, of the known types held in the given slots, as
/// `join_known` states.
fn join_slot_types(inference: &FileTypeInference, slots: &[usize]) -> (r: Option<TypeRef>)
    requires
        slots_exist(*inference, slots@),
    ensures
        opt_ty(r) == join_known(slot_types(*inference, slots@)),
{
    let ghost ts = slot_types(*inference, slots@);
    let mut acc: Option<TypeRef> = None;
    let mut i: usize = 0;
    while i < slots.len()
        invariant
            0 <= i <= slots.len(),
            slots_exist(*inference, slots@),
            ts == slot_types(*inference, slots@),
            opt_ty(acc) == join_known(ts.take(i as int)),
        decreases slots.len() - i,
    {
        proof {
            assert(ts.take(i + 1).drop_last() =~= ts.take(i as int));
            assert(ts.take(i + 1).last() == ts[i as int]);
        }
        if let Some(t) = inferred_expr_type(inference, slots[i]) {
            acc = match acc {
                Some(a) => Some(join_types(&a, &t)),
                None => Some(t),
            };
        }
        i += 1;
    }
    assert(ts.take(i as int) =~= ts);
    acc
}

/// The type of an array expression: an array of the join of its items'
/// known types, of unknown items when none is known.
pub fn infer_array_expr_type(inference: &FileTypeInference, item_slots: &[usize]) -> (r: TypeRef)
    requires
        slots_exist(*inference, item_slots@),
    ensures
        r@ == Ty::Array(
            Box::new(
                match join_known(slot_types(*inference, item_slots@)) {
                    Some(t) => t,
                    None => Ty::Unknown,
                },
            ),
        ),
{
    let joined = join_slot_types(inference, item_slots);
    let ghost expected = match join_known(slot_types(*inference, item_slots@)) {
        Some(t) => t,
        None => Ty::Unknown,
    };
    let inner = match joined {
        Some(t) => t,
        None => {
            let u = TypeRef::Unknown;
            proof {
                lemma_model_unfold(u);
            }
            u
        },
    };
    assert(inner@ == expected);
    let r = TypeRef::Array(Box::new(inner));
    proof {
        lemma_model_unfold(r);
    }
    r
}

/// The type of a `switch` expression: the join of its arms' known types.
pub fn infer_switch_expr_type(inference: &FileTypeInference, arm_slots: &[usize]) -> (r: Option<TypeRef>)
    requires
        slots_exist(*inference, arm_slots@),
    ensures
        opt_ty(r) == join_known(slot_types(*inference, arm_slots@)),
{
    join_slot_types(inference, arm_slots)
}

/// The type of an `if` expression: the join of its branches' types, either
/// one alone when only it is known.
pub fn join_expr_types(inference: &FileTypeInference, left: Option<usize>, right: Option<usize>) -> (r: Option<
    TypeRef,
>)
    requires
        left matches Some(l) ==> l < inference.expr_types@.len(),
        right matches Some(s) ==> s < inference.expr_types@.len(),
    ensures
        opt_ty(r) == join_option(
            match left {
                Some(l) => slot_views(inference.expr_types@)[l as int],
                None => None,
            },
            match right {
                Some(s) => slot_views(inference.expr_types@)[s as int],
                None => None,
            },
        ),
{
    let l = match left {
        Some(slot) => inferred_expr_type(inference, slot),
        None => None,
    };
    let r = match right {
        Some(slot) => inferred_expr_type(inference, slot),
        None => None,
    };
    join_option_types(l.as_ref(), r.as_ref())
}

/// A field written in an object literal: its name and the result slot of
/// its value, if it has one.
pub struct ObjectFieldInit {
    pub name: String,
    pub value_slot: Option<usize>,
}

/// The fields of an object literal's type after its first `n` fields: each
/// field's value type (unknown when not known) is added by name, joining
/// the type of a field of the same name; fields stay sorted by name.
pub open spec fn object_fields_after(inf: FileTypeInference, fs: Seq<ObjectFieldInit>, n: int) -> Seq<
    (Seq<char>, Ty),
>
    decreases n,
{
    if n <= 0 {
        Seq::empty()
    } else {
        let f = fs[n - 1];
        let value = match f.value_slot {
            Some(s) => match slot_views(inf.expr_types@)[s as int] {
                Some(t) => t,
                None => Ty::Unknown,
            },
            None => Ty::Unknown,
        };
        merge_fields(object_fields_after(inf, fs, n - 1), seq![(f.name@, value)])
    }
}

/// The type of an object literal, as `object_fields_after` states of all
/// its fields.
pub fn infer_object_expr_type(inference: &FileTypeInference, fields: &[ObjectFieldInit]) -> (r: TypeRef)
    requires
        forall|i: int|
            0 <= i < fields@.len() ==> ((#[trigger] fields@[i]).value_slot matches Some(s) ==> s
                < inference.expr_types@.len()),
    ensures
        r@ == Ty::Object(object_fields_after(*inference, fields@, fields@.len() as int)),
        crate::lattice::field_names_sorted(object_fields_after(*inference, fields@, fields@.len() as int)),
{
    let mut acc: Vec<ObjectField> = Vec::new();
    let mut i: usize = 0;
    while i < fields.len()
        invariant
            0 <= i <= fields.len(),
            forall|i: int|
                0 <= i < fields@.len() ==> ((#[trigger] fields@[i]).value_slot matches Some(s) ==> s
                    < inference.expr_types@.len()),
            field_views(acc@) == object_fields_after(*inference, fields@, i as int),
            crate::lattice::field_names_sorted(field_views(acc@)),
        decreases fields.len() - i,
    {
        let f = &fields[i];
        let value = match f.value_slot {
            Some(slot) => match inferred_expr_type(inference, slot) {
                Some(t) => t,
                None => TypeRef::Unknown,
            },
            None => TypeRef::Unknown,
        };
        proof {
            lemma_model_unfold(value);
        }
        let mut one: Vec<ObjectField> = Vec::new();
        one.push(ObjectField { name: f.name.clone(), ty: value });
        assert(field_views(one@) =~= seq![(f.name@, one@[0].ty@)]);
        proof {
            crate::lattice::lemma_merge_fields_sorted(field_views(acc@), field_views(one@));
        }
        acc = merge_object_fields(&acc, &one);
        i += 1;
    }
    let r = TypeRef::Object(acc);
    proof {
        lemma_model_unfold(r);
    }
    r
}

/// Joins two signatures: pointwise when they take as many parameters,
/// else the first as it is.
pub open spec fn joined_signature(l: (Seq<Ty>, Ty), r: (Seq<Ty>, Ty)) -> (Seq<Ty>, Ty) {
    if l.0.len() != r.0.len() {
        l
    } else {
        (join_each(l.0, r.0), join(l.1, r.1))
    }
}

/// Joins two signatures, as `joined_signature` states.
pub fn join_function_signatures(left: FunctionTypeRef, right: FunctionTypeRef) -> (r: FunctionTypeRef)
    ensures
        r.sig() == joined_signature(left.sig(), right.sig()),
{
    if left.params.len() != right.params.len() {
        return left;
    }
    let params = join_params(&left.params, &right.params);
    let ret = join_types(&left.ret, &right.ret);
    FunctionTypeRef { params, ret: Box::new(ret) }
}

} // verus!
