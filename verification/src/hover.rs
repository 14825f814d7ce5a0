//! The join that hover uses to describe every value a field may hold: like
//! the inference join, but unions keep each distinct member exactly once and
//! ambiguity sets flatten into the union.

use vstd::prelude::*;

use crate::lattice::{fields_size, lemma_fields_size_elem, lemma_skip_first, lemma_tys_size_elem, ty_size, tys_size};
use crate::text::chars_lt;
use crate::ty::{clone_type, field_views, lemma_model_unfold, type_eq, views, FunctionTypeRef, ObjectField, Ty, TypeRef};

verus! {

/// Adds one type to hover union members: union and ambiguity members are
/// added one by one, and a type already present is not added again.
pub open spec fn hover_push(ms: Seq<Ty>, t: Ty) -> Seq<Ty>
    decreases t,
{
    match t {
        Ty::Union(items) => hover_push_all(ms, items),
        Ty::Ambiguous(items) => hover_push_all(ms, items),
        _ => if ms.contains(t) {
            ms
        } else {
            ms.push(t)
        },
    }
}

/// Adds each of `items`, in order, to hover union members.
pub open spec fn hover_push_all(ms: Seq<Ty>, items: Seq<Ty>) -> Seq<Ty>
    decreases items,
{
    if items.len() == 0 {
        ms
    } else {
        hover_push_all(hover_push(ms, items[0]), items.drop_first())
    }
}

/// The hover union of two types; a single member stands alone.
pub open spec fn hover_union(l: Ty, r: Ty) -> Ty {
    let ms = hover_push(hover_push(Seq::empty(), l), r);
    if ms.len() == 1 {
        ms[0]
    } else {
        Ty::Union(ms)
    }
}

/// The hover join of two types: vague types give way, objects merge
/// field-wise, arrays, nullables and same-arity functions join pointwise,
/// and anything else forms a hover union.
pub open spec fn hover_join(l: Ty, r: Ty) -> Ty
    decreases ty_size(l) + ty_size(r),
{
    if l == r {
        l
    } else if l is Unknown || l is Never {
        r
    } else if r is Unknown || r is Never {
        l
    } else {
        match (l, r) {
            (Ty::Object(lf), Ty::Object(rf)) => Ty::Object(hover_merge_fields(lf, rf)),
            (Ty::Array(a), Ty::Array(b)) => Ty::Array(Box::new(hover_join(*a, *b))),
            (Ty::Nullable(a), Ty::Nullable(b)) => Ty::Nullable(Box::new(hover_join(*a, *b))),
            (Ty::Function(lp, lr), Ty::Function(rp, rr)) => if lp.len() == rp.len() {
                Ty::Function(hover_join_each(lp, rp), Box::new(hover_join(*lr, *rr)))
            } else {
                hover_union(l, r)
            },
            _ => hover_union(l, r),
        }
    }
}

/// Pointwise hover join of two type lists, up to the shorter length.
pub open spec fn hover_join_each(ps: Seq<Ty>, qs: Seq<Ty>) -> Seq<Ty>
    decreases tys_size(ps) + tys_size(qs),
{
    if ps.len() == 0 || qs.len() == 0 {
        Seq::empty()
    } else {
        seq![hover_join(ps[0], qs[0])] + hover_join_each(ps.drop_first(), qs.drop_first())
    }
}

/// Merges two name-sorted field lists, joining the types of fields present
/// on both sides with the hover join.
pub open spec fn hover_merge_fields(lf: Seq<(Seq<char>, Ty)>, rf: Seq<(Seq<char>, Ty)>) -> Seq<
    (Seq<char>, Ty),
>
    decreases fields_size(lf) + fields_size(rf),
{
    if lf.len() == 0 {
        rf
    } else if rf.len() == 0 {
        lf
    } else if lf[0].0 == rf[0].0 {
        seq![(lf[0].0, hover_join(lf[0].1, rf[0].1))] + hover_merge_fields(lf.drop_first(), rf.drop_first())
    } else if chars_lt(lf[0].0, rf[0].0) {
        seq![lf[0]] + hover_merge_fields(lf.drop_first(), rf)
    } else {
        seq![rf[0]] + hover_merge_fields(lf, rf.drop_first())
    }
}

proof fn lemma_hover_push_all_snoc(ms: Seq<Ty>, s: Seq<Ty>, t: Ty)
    ensures
        hover_push_all(ms, s.push(t)) == hover_push(hover_push_all(ms, s), t),
    decreases s.len(),
{
    if s.len() == 0 {
        assert(s.push(t).drop_first() =~= Seq::<Ty>::empty());
        assert(s.push(t)[0] == t);
        assert(hover_push_all(hover_push(ms, t), Seq::<Ty>::empty()) == hover_push(ms, t));
    } else {
        assert(s.push(t).drop_first() =~= s.drop_first().push(t));
        assert(s.push(t)[0] == s[0]);
        lemma_hover_push_all_snoc(hover_push(ms, s[0]), s.drop_first(), t);
    }
}

/// Adds a type to hover union members, as `hover_push` states.
#[verifier::loop_isolation(false)]
fn push_hover_union_member(members: &mut Vec<TypeRef>, ty: &TypeRef)
    ensures
        views(final(members)@) == hover_push(views(old(members)@), ty@),
    decreases ty,
{
    proof {
        lemma_model_unfold(*ty);
    }
    match ty {
        TypeRef::Union(items) | TypeRef::Ambiguous(items) => {
            let ghost ms0 = views(members@);
            let mut i: usize = 0;
            while i < items.len()
                invariant
                    0 <= i <= items.len(),
                    views(members@) == hover_push_all(ms0, views(items@).take(i as int)),
                decreases items.len() - i,
            {
                proof {
                    assert(decreases_to!(*ty => items@[i as int]));
                    lemma_hover_push_all_snoc(ms0, views(items@).take(i as int), items@[i as int]@);
                    assert(views(items@).take(i as int).push(items@[i as int]@) =~= views(items@).take(i + 1));
                }
                push_hover_union_member(members, &items[i]);
                i += 1;
            }
            assert(views(items@).take(items.len() as int) =~= views(items@));
        },
        _ => {
            let ghost ms = views(members@);
            let mut j: usize = 0;
            while j < members.len()
                invariant
                    0 <= j <= members.len(),
                    ms == views(members@),
                    forall|x: int| 0 <= x < j ==> ms[x] != ty@,
                decreases members.len() - j,
            {
                if type_eq(&members[j], ty) {
                    assert(ms[j as int] == ty@);
                    return;
                }
                j += 1;
            }
            assert(!ms.contains(ty@));
            members.push(clone_type(ty));
            assert(views(members@) =~= ms.push(ty@));
        },
    }
}

/// The hover union of two types, as `hover_union` states.
fn merge_hover_union(left: &TypeRef, right: &TypeRef) -> (r: TypeRef)
    ensures
        r@ == hover_union(left@, right@),
{
    let mut members: Vec<TypeRef> = Vec::new();
    assert(views(members@) =~= Seq::<Ty>::empty());
    push_hover_union_member(&mut members, left);
    push_hover_union_member(&mut members, right);
    if members.len() == 1 {
        members.pop().unwrap()
    } else {
        let r = TypeRef::Union(members);
        proof {
            lemma_model_unfold(r);
        }
        r
    }
}

/// Merges two field lists, as `hover_merge_fields` states.
fn hover_merge_object_fields(lf: &Vec<ObjectField>, rf: &Vec<ObjectField>) -> (out: Vec<ObjectField>)
    ensures
        field_views(out@) == hover_merge_fields(field_views(lf@), field_views(rf@)),
    decreases fields_size(field_views(lf@)) + fields_size(field_views(rf@)),
{
    let ghost lv = field_views(lf@);
    let ghost rv = field_views(rf@);
    let mut out: Vec<ObjectField> = Vec::new();
    let mut i: usize = 0;
    let mut j: usize = 0;
    assert(lv.skip(0) =~= lv);
    assert(rv.skip(0) =~= rv);
    assert(field_views(out@) =~= Seq::empty());
    while i < lf.len() && j < rf.len()
        invariant
            0 <= i <= lf.len(),
            0 <= j <= rf.len(),
            lv == field_views(lf@),
            rv == field_views(rf@),
            field_views(out@) + hover_merge_fields(lv.skip(i as int), rv.skip(j as int))
                == hover_merge_fields(lv, rv),
        decreases lf.len() - i + rf.len() - j,
    {
        proof {
            lemma_skip_first(lv, i as int);
            lemma_skip_first(rv, j as int);
        }
        let ghost before = field_views(out@);
        if lf[i].name == rf[j].name {
            proof {
                lemma_fields_size_elem(lv, i as int);
                lemma_fields_size_elem(rv, j as int);
            }
            let joined = join_hover_types(&lf[i].ty, &rf[j].ty);
            out.push(ObjectField { name: lf[i].name.clone(), ty: joined });
            assert(field_views(out@) =~= before + seq![(lv[i as int].0, hover_join(lv[i as int].1, rv[j as int].1))]);
            i += 1;
            j += 1;
        } else if crate::text::str_less(lf[i].name.as_str(), rf[j].name.as_str()) {
            out.push(ObjectField { name: lf[i].name.clone(), ty: clone_type(&lf[i].ty) });
            assert(field_views(out@) =~= before + seq![lv[i as int]]);
            i += 1;
        } else {
            out.push(ObjectField { name: rf[j].name.clone(), ty: clone_type(&rf[j].ty) });
            assert(field_views(out@) =~= before + seq![rv[j as int]]);
            j += 1;
        }
    }
    while i < lf.len()
        invariant
            0 <= i <= lf.len(),
            i == lf.len() || j == rf.len(),
            j <= rf.len(),
            lv == field_views(lf@),
            rv == field_views(rf@),
            field_views(out@) + hover_merge_fields(lv.skip(i as int), rv.skip(j as int))
                == hover_merge_fields(lv, rv),
        decreases lf.len() - i,
    {
        proof {
            lemma_skip_first(lv, i as int);
            assert(rv.skip(j as int).len() == 0);
        }
        let ghost before = field_views(out@);
        out.push(ObjectField { name: lf[i].name.clone(), ty: clone_type(&lf[i].ty) });
        assert(field_views(out@) =~= before + seq![lv[i as int]]);
        assert(lv.skip(i as int) =~= seq![lv[i as int]] + lv.skip(i + 1));
        i += 1;
    }
    while j < rf.len()
        invariant
            i == lf.len(),
            0 <= j <= rf.len(),
            lv == field_views(lf@),
            rv == field_views(rf@),
            field_views(out@) + hover_merge_fields(lv.skip(i as int), rv.skip(j as int))
                == hover_merge_fields(lv, rv),
        decreases rf.len() - j,
    {
        proof {
            lemma_skip_first(rv, j as int);
            assert(lv.skip(i as int).len() == 0);
        }
        let ghost before = field_views(out@);
        out.push(ObjectField { name: rf[j].name.clone(), ty: clone_type(&rf[j].ty) });
        assert(field_views(out@) =~= before + seq![rv[j as int]]);
        assert(rv.skip(j as int) =~= seq![rv[j as int]] + rv.skip(j + 1));
        j += 1;
    }
    assert(lv.skip(i as int).len() == 0 && rv.skip(j as int).len() == 0);
    assert(field_views(out@) =~= hover_merge_fields(lv, rv));
    out
}

/// Joins two same-length parameter lists pointwise, as `hover_join_each` states.
fn hover_join_params(ps: &Vec<TypeRef>, qs: &Vec<TypeRef>) -> (out: Vec<TypeRef>)
    requires
        ps.len() == qs.len(),
    ensures
        views(out@) == hover_join_each(views(ps@), views(qs@)),
    decreases tys_size(views(ps@)) + tys_size(views(qs@)),
{
    let ghost pv = views(ps@);
    let ghost qv = views(qs@);
    let mut out: Vec<TypeRef> = Vec::new();
    let mut i: usize = 0;
    assert(pv.skip(0) =~= pv);
    assert(qv.skip(0) =~= qv);
    assert(views(out@) =~= Seq::empty());
    while i < ps.len()
        invariant
            0 <= i <= ps.len(),
            ps.len() == qs.len(),
            pv == views(ps@),
            qv == views(qs@),
            views(out@) + hover_join_each(pv.skip(i as int), qv.skip(i as int)) == hover_join_each(pv, qv),
        decreases ps.len() - i,
    {
        proof {
            lemma_skip_first(pv, i as int);
            lemma_skip_first(qv, i as int);
            lemma_tys_size_elem(pv, i as int);
            lemma_tys_size_elem(qv, i as int);
        }
        let ghost before = views(out@);
        let joined = join_hover_types(&ps[i], &qs[i]);
        out.push(joined);
        assert(views(out@) =~= before + seq![hover_join(pv[i as int], qv[i as int])]);
        i += 1;
    }
    assert(pv.skip(i as int).len() == 0);
    assert(views(out@) =~= hover_join_each(pv, qv));
    out
}

/// Joins the types of the values that a field may hold, as `hover_join` states.
pub fn join_hover_types(left: &TypeRef, right: &TypeRef) -> (r: TypeRef)
    ensures
        r@ == hover_join(left@, right@),
    decreases ty_size(left@) + ty_size(right@),
{
    proof {
        lemma_model_unfold(*left);
        lemma_model_unfold(*right);
    }
    if type_eq(left, right) {
        return clone_type(left);
    }
    match (left, right) {
        (TypeRef::Unknown, _) | (TypeRef::Never, _) => clone_type(right),
        (_, TypeRef::Unknown) | (_, TypeRef::Never) => clone_type(left),
        (TypeRef::Object(lf), TypeRef::Object(rf)) => {
            let r = TypeRef::Object(hover_merge_object_fields(lf, rf));
            proof {
                lemma_model_unfold(r);
            }
            r
        },
        (TypeRef::Array(a), TypeRef::Array(b)) => TypeRef::Array(Box::new(join_hover_types(a, b))),
        (TypeRef::Nullable(a), TypeRef::Nullable(b)) => TypeRef::Nullable(
            Box::new(join_hover_types(a, b)),
        ),
        (TypeRef::Function(f), TypeRef::Function(g)) => {
            if f.params.len() == g.params.len() {
                let params = hover_join_params(&f.params, &g.params);
                let ret = join_hover_types(&f.ret, &g.ret);
                let r = TypeRef::Function(FunctionTypeRef { params, ret: Box::new(ret) });
                proof {
                    lemma_model_unfold(r);
                }
                r
            } else {
                merge_hover_union(left, right)
            }
        },
        _ => merge_hover_union(left, right),
    }
}

/// Whether every member is neither a union nor an ambiguity set, and no
/// member occurs twice.
pub open spec fn flat_distinct(ms: Seq<Ty>) -> bool {
    &&& forall|i: int| 0 <= i < ms.len() ==> !(#[trigger] ms[i] is Union) && !(ms[i] is Ambiguous)
    &&& forall|i: int, j: int| 0 <= i < j < ms.len() ==> #[trigger] ms[i] != #[trigger] ms[j]
}

proof fn lemma_hover_push_flat(ms: Seq<Ty>, t: Ty)
    requires
        flat_distinct(ms),
    ensures
        flat_distinct(hover_push(ms, t)),
    decreases t,
{
    match t {
        Ty::Union(items) => lemma_hover_push_all_flat(ms, items),
        Ty::Ambiguous(items) => lemma_hover_push_all_flat(ms, items),
        _ => {
            if !ms.contains(t) {
                let r = ms.push(t);
                assert forall|i: int, j: int| 0 <= i < j < r.len() implies #[trigger] r[i] != #[trigger] r[j] by {
                    if j == ms.len() {
                        assert(r[i] == ms[i]);
                    } else {
                        assert(r[i] == ms[i] && r[j] == ms[j]);
                    }
                }
                assert forall|i: int| 0 <= i < r.len() implies !(#[trigger] r[i] is Union) && !(r[i] is Ambiguous) by {
                    if i < ms.len() {
                        assert(r[i] == ms[i]);
                    }
                }
            }
        },
    }
}

proof fn lemma_hover_push_all_flat(ms: Seq<Ty>, items: Seq<Ty>)
    requires
        flat_distinct(ms),
    ensures
        flat_distinct(hover_push_all(ms, items)),
    decreases items,
{
    if items.len() > 0 {
        lemma_hover_push_flat(ms, items[0]);
        lemma_hover_push_all_flat(hover_push(ms, items[0]), items.drop_first());
    }
}

/// A hover union lists each member once, and none of its members is itself
/// a union or an ambiguity set.
pub proof fn law_hover_union_members_are_flat_and_distinct(l: Ty, r: Ty)
    ensures
        hover_union(l, r) matches Ty::Union(ms) ==> flat_distinct(ms),
{
    lemma_hover_push_flat(Seq::empty(), l);
    lemma_hover_push_flat(hover_push(Seq::empty(), l), r);
}

/// Arrays join element-wise in hover: the hover join of two array types is
/// the array type of their elements' hover join, never a union of the two;
/// nullable types likewise join inside the nullable.
pub proof fn law_hover_arrays_join_element_wise(a: Ty, b: Ty)
    ensures
        hover_join(Ty::Array(Box::new(a)), Ty::Array(Box::new(b))) == Ty::Array(Box::new(hover_join(a, b))),
        hover_join(Ty::Array(Box::new(a)), Ty::Array(Box::new(b))) is Array,
        hover_join(Ty::Nullable(Box::new(a)), Ty::Nullable(Box::new(b))) == Ty::Nullable(Box::new(hover_join(a, b))),
{
    assert(hover_join(a, a) == a);
}

} // verus!
