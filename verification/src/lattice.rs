//! Joining inferred types: unions, ambiguity sets, and the least-informative
//! merge of two types that inference uses whenever two flows meet.

use vstd::prelude::*;

use crate::text::chars_lt;
use crate::ty::{clone_type, field_views, lemma_model_unfold, type_eq, views, FunctionTypeRef, ObjectField, Ty, TypeRef};

verus! {

/// The number of nodes of a type.
pub open spec fn ty_size(t: Ty) -> nat
    decreases t,
{
    match t {
        Ty::Applied(_, args) => 1 + tys_size(args),
        Ty::Array(x) => 1 + ty_size(*x),
        Ty::Dict(k, v) => 1 + ty_size(*k) + ty_size(*v),
        Ty::Object(fs) => 1 + fields_size(fs),
        Ty::Nullable(x) => 1 + ty_size(*x),
        Ty::Union(xs) => 1 + tys_size(xs),
        Ty::Ambiguous(xs) => 1 + tys_size(xs),
        Ty::Function(ps, r) => 1 + tys_size(ps) + ty_size(*r),
        _ => 1,
    }
}

/// The total number of nodes of a list of types.
pub open spec fn tys_size(xs: Seq<Ty>) -> nat
    decreases xs,
{
    if xs.len() == 0 {
        0
    } else {
        1 + ty_size(xs[0]) + tys_size(xs.drop_first())
    }
}

/// The total number of nodes of a list of object fields.
pub open spec fn fields_size(fs: Seq<(Seq<char>, Ty)>) -> nat
    decreases fs,
{
    if fs.len() == 0 {
        0
    } else {
        1 + ty_size(fs[0].1) + fields_size(fs.drop_first())
    }
}

pub proof fn lemma_tys_size_elem(xs: Seq<Ty>, i: int)
    requires
        0 <= i < xs.len(),
    ensures
        ty_size(xs[i]) < tys_size(xs),
        ty_size(xs[i]) >= 1,
    decreases xs.len(),
{
    reveal_with_fuel(ty_size, 1);
    if i > 0 {
        lemma_tys_size_elem(xs.drop_first(), i - 1);
    }
}

pub proof fn lemma_fields_size_elem(fs: Seq<(Seq<char>, Ty)>, i: int)
    requires
        0 <= i < fs.len(),
    ensures
        ty_size(fs[i].1) < fields_size(fs),
    decreases fs.len(),
{
    if i > 0 {
        lemma_fields_size_elem(fs.drop_first(), i - 1);
    }
}

/// An `Array` of unknown elements gives way to an `Array` of known elements
/// when both meet in a union.
pub open spec fn union_member_subsumes(existing: Ty, next: Ty) -> bool {
    match (existing, next) {
        (Ty::Array(e), Ty::Array(n)) => (*e is Unknown || *e is Never) && !(*n is Unknown
            || *n is Never),
        _ => false,
    }
}

/// The first member that `t` would replace, or -1.
pub open spec fn subsumed_index(ms: Seq<Ty>, t: Ty) -> int
    decreases ms.len(),
{
    if ms.len() == 0 {
        -1
    } else if union_member_subsumes(ms[0], t) {
        0
    } else {
        let r = subsumed_index(ms.drop_first(), t);
        if r < 0 {
            -1
        } else {
            r + 1
        }
    }
}

pub proof fn lemma_subsumed_index(ms: Seq<Ty>, t: Ty)
    ensures
        -1 <= subsumed_index(ms, t) < ms.len(),
        subsumed_index(ms, t) >= 0 ==> union_member_subsumes(ms[subsumed_index(ms, t)], t),
        forall|j: int|
            0 <= j < ms.len() && (subsumed_index(ms, t) < 0 || j < subsumed_index(ms, t))
                ==> !union_member_subsumes(#[trigger] ms[j], t),
    decreases ms.len(),
{
    if ms.len() > 0 && !union_member_subsumes(ms[0], t) {
        lemma_subsumed_index(ms.drop_first(), t);
        assert forall|j: int|
            0 <= j < ms.len() && (subsumed_index(ms, t) < 0 || j < subsumed_index(ms, t))
                implies !union_member_subsumes(#[trigger] ms[j], t) by {
            if j > 0 {
                assert(ms[j] == ms.drop_first()[j - 1]);
            }
        }
    }
}

/// Adds one non-flattened member to a member list: it replaces the first
/// member it subsumes, is dropped when already present or subsumed, and is
/// appended otherwise.
pub open spec fn add_member(ms: Seq<Ty>, t: Ty) -> Seq<Ty> {
    let i = subsumed_index(ms, t);
    if i >= 0 {
        ms.update(i, t)
    } else if exists|j: int| 0 <= j < ms.len() && (ms[j] == t || union_member_subsumes(t, ms[j])) {
        ms
    } else {
        ms.push(t)
    }
}

/// Adds a type to a union's member list, flattening nested unions.
pub open spec fn push_union_member(ms: Seq<Ty>, t: Ty) -> Seq<Ty>
    decreases t,
{
    match t {
        Ty::Union(items) => push_union_members(ms, items),
        _ => add_member(ms, t),
    }
}

/// Adds each of `items`, in order, to a union's member list.
pub open spec fn push_union_members(ms: Seq<Ty>, items: Seq<Ty>) -> Seq<Ty>
    decreases items,
{
    if items.len() == 0 {
        ms
    } else {
        push_union_members(push_union_member(ms, items[0]), items.drop_first())
    }
}

/// Adds a type to an ambiguity set's member list, flattening nested sets.
pub open spec fn push_ambiguous_member(ms: Seq<Ty>, t: Ty) -> Seq<Ty>
    decreases t,
{
    match t {
        Ty::Ambiguous(items) => push_ambiguous_members(ms, items),
        _ => add_member(ms, t),
    }
}

/// Adds each of `items`, in order, to an ambiguity set's member list.
pub open spec fn push_ambiguous_members(ms: Seq<Ty>, items: Seq<Ty>) -> Seq<Ty>
    decreases items,
{
    if items.len() == 0 {
        ms
    } else {
        push_ambiguous_members(push_ambiguous_member(ms, items[0]), items.drop_first())
    }
}

/// The union of two types; a single surviving member stands alone.
pub open spec fn make_union(l: Ty, r: Ty) -> Ty {
    let ms = push_union_member(push_union_member(Seq::empty(), l), r);
    if ms.len() == 1 {
        ms[0]
    } else {
        Ty::Union(ms)
    }
}

/// The ambiguity set of the given candidates; a single surviving member stands alone.
pub open spec fn make_ambiguous(ts: Seq<Ty>) -> Ty {
    let ms = push_ambiguous_members(Seq::empty(), ts);
    if ms.len() == 1 {
        ms[0]
    } else {
        Ty::Ambiguous(ms)
    }
}

} // verus!

verus! {

pub proof fn lemma_push_union_members_snoc(ms: Seq<Ty>, s: Seq<Ty>, t: Ty)
    ensures
        push_union_members(ms, s.push(t)) == push_union_member(push_union_members(ms, s), t),
    decreases s.len(),
{
    if s.len() == 0 {
        assert(s.push(t).drop_first() =~= Seq::<Ty>::empty());
        assert(s.push(t)[0] == t);
        assert(push_union_members(push_union_member(ms, t), Seq::<Ty>::empty()) == push_union_member(ms, t));
        assert(push_union_members(ms, s) == ms);
    } else {
        assert(s.push(t).drop_first() =~= s.drop_first().push(t));
        assert(s.push(t)[0] == s[0]);
        lemma_push_union_members_snoc(push_union_member(ms, s[0]), s.drop_first(), t);
    }
}

pub proof fn lemma_push_ambiguous_members_snoc(ms: Seq<Ty>, s: Seq<Ty>, t: Ty)
    ensures
        push_ambiguous_members(ms, s.push(t)) == push_ambiguous_member(
            push_ambiguous_members(ms, s),
            t,
        ),
    decreases s.len(),
{
    if s.len() == 0 {
        assert(s.push(t).drop_first() =~= Seq::<Ty>::empty());
        assert(s.push(t)[0] == t);
        assert(push_ambiguous_members(push_ambiguous_member(ms, t), Seq::<Ty>::empty()) == push_ambiguous_member(ms, t));
        assert(push_ambiguous_members(ms, s) == ms);
    } else {
        assert(s.push(t).drop_first() =~= s.drop_first().push(t));
        assert(s.push(t)[0] == s[0]);
        lemma_push_ambiguous_members_snoc(push_ambiguous_member(ms, s[0]), s.drop_first(), t);
    }
}

fn is_vague_leaf(t: &TypeRef) -> (r: bool)
    ensures
        r == (t@ is Unknown || t@ is Never),
{
    match t {
        TypeRef::Unknown | TypeRef::Never => true,
        _ => false,
    }
}

/// Whether `next` should replace `existing` among union members.
pub fn union_member_subsumes_exec(existing: &TypeRef, next: &TypeRef) -> (r: bool)
    ensures
        r == union_member_subsumes(existing@, next@),
{
    match (existing, next) {
        (TypeRef::Array(e), TypeRef::Array(n)) => is_vague_leaf(e) && !is_vague_leaf(n),
        _ => false,
    }
}

/// Adds one non-flattened member, as `add_member` states.
#[verifier::loop_isolation(false)]
fn add_member_exec(members: &mut Vec<TypeRef>, t: &TypeRef)
    ensures
        views(final(members)@) == add_member(views(old(members)@), t@),
{
    let ghost ms = views(members@);
    proof {
        lemma_subsumed_index(ms, t@);
    }
    let mut i: usize = 0;
    while i < members.len()
        invariant
            0 <= i <= members.len(),
            ms == views(members@),
            forall|j: int| 0 <= j < i ==> !union_member_subsumes(#[trigger] ms[j], t@),
        decreases members.len() - i,
    {
        if union_member_subsumes_exec(&members[i], t) {
            proof {
                let k = subsumed_index(ms, t@);
                if k < 0 || k > i {
                    assert(!union_member_subsumes(ms[i as int], t@));
                }
                assert(k == i);
            }
            members.set(i, clone_type(t));
            assert(views(members@) =~= ms.update(i as int, t@));
            return;
        }
        i += 1;
    }
    proof {
        let k = subsumed_index(ms, t@);
        if k >= 0 {
            assert(!union_member_subsumes(ms[k], t@));
        }
    }
    let mut j: usize = 0;
    while j < members.len()
        invariant
            0 <= j <= members.len(),
            ms == views(members@),
            forall|x: int| 0 <= x < j ==> !(ms[x] == t@ || union_member_subsumes(t@, ms[x])),
        decreases members.len() - j,
    {
        if type_eq(&members[j], t) || union_member_subsumes_exec(t, &members[j]) {
            assert(ms[j as int] == members@[j as int]@);
            assert(ms[j as int] == t@ || union_member_subsumes(t@, ms[j as int]));
            return;
        }
        j += 1;
    }
    members.push(clone_type(t));
    assert(views(members@) =~= ms.push(t@));
}

/// Adds a type to a union's member list, flattening nested unions.
#[verifier::loop_isolation(false)]
pub fn push_union_member_exec(members: &mut Vec<TypeRef>, t: &TypeRef)
    ensures
        views(final(members)@) == push_union_member(views(old(members)@), t@),
    decreases t,
{
    proof {
        lemma_model_unfold(*t);
    }
    match t {
        TypeRef::Union(items) => {
            let ghost ms0 = views(members@);
            let mut i: usize = 0;
            while i < items.len()
                invariant
                    0 <= i <= items.len(),
                    views(members@) == push_union_members(ms0, views(items@).take(i as int)),
                decreases items.len() - i,
            {
                proof {
                    assert(decreases_to!(*t => items@[i as int]));
                    lemma_push_union_members_snoc(ms0, views(items@).take(i as int), items@[i as int]@);
                    assert(views(items@).take(i as int).push(items@[i as int]@) =~= views(items@).take(i + 1));
                }
                push_union_member_exec(members, &items[i]);
                i += 1;
            }
            assert(views(items@).take(items.len() as int) =~= views(items@));
        },
        _ => add_member_exec(members, t),
    }
}

/// Adds a type to an ambiguity set's member list, flattening nested sets.
#[verifier::loop_isolation(false)]
pub fn push_ambiguous_member_exec(members: &mut Vec<TypeRef>, t: &TypeRef)
    ensures
        views(final(members)@) == push_ambiguous_member(views(old(members)@), t@),
    decreases t,
{
    proof {
        lemma_model_unfold(*t);
    }
    match t {
        TypeRef::Ambiguous(items) => {
            let ghost ms0 = views(members@);
            let mut i: usize = 0;
            while i < items.len()
                invariant
                    0 <= i <= items.len(),
                    views(members@) == push_ambiguous_members(ms0, views(items@).take(i as int)),
                decreases items.len() - i,
            {
                proof {
                    assert(decreases_to!(*t => items@[i as int]));
                    lemma_push_ambiguous_members_snoc(ms0, views(items@).take(i as int), items@[i as int]@);
                    assert(views(items@).take(i as int).push(items@[i as int]@) =~= views(items@).take(i + 1));
                }
                push_ambiguous_member_exec(members, &items[i]);
                i += 1;
            }
            assert(views(items@).take(items.len() as int) =~= views(items@));
        },
        _ => add_member_exec(members, t),
    }
}

/// The union of two types, flattening nested unions and dropping duplicates.
pub fn make_union_exec(left: &TypeRef, right: &TypeRef) -> (r: TypeRef)
    ensures
        r@ == make_union(left@, right@),
{
    let mut members: Vec<TypeRef> = Vec::new();
    assert(views(members@) =~= Seq::<Ty>::empty());
    push_union_member_exec(&mut members, left);
    push_union_member_exec(&mut members, right);
    if members.len() == 1 {
        let r = members.pop().unwrap();
        r
    } else {
        let r = TypeRef::Union(members);
        proof {
            lemma_model_unfold(r);
        }
        r
    }
}

/// The ambiguity set of the given candidates, flattening nested sets and
/// dropping duplicates.
pub fn make_ambiguous_type(types: Vec<TypeRef>) -> (r: TypeRef)
    ensures
        r@ == make_ambiguous(views(types@)),
{
    let mut members: Vec<TypeRef> = Vec::new();
    let mut i: usize = 0;
    assert(views(members@) =~= push_ambiguous_members(Seq::empty(), views(types@).take(0)));
    while i < types.len()
        invariant
            0 <= i <= types.len(),
            views(members@) == push_ambiguous_members(Seq::empty(), views(types@).take(i as int)),
        decreases types.len() - i,
    {
        proof {
            lemma_push_ambiguous_members_snoc(Seq::empty(), views(types@).take(i as int), types@[i as int]@);
            assert(views(types@).take(i as int).push(types@[i as int]@) =~= views(types@).take(i + 1));
        }
        push_ambiguous_member_exec(&mut members, &types[i]);
        i += 1;
    }
    assert(views(types@).take(types.len() as int) =~= views(types@));
    if members.len() == 1 {
        let r = members.pop().unwrap();
        r
    } else {
        let r = TypeRef::Ambiguous(members);
        proof {
            lemma_model_unfold(r);
        }
        r
    }
}

} // verus!

verus! {

/// Whether a map with this key type reads like an array.
pub open spec fn is_index_key(k: Ty) -> bool {
    k is Int || k is Unknown || k is Never
}

/// Whether a type is a container that an empty object literal gives way to.
pub open spec fn is_container(t: Ty) -> bool {
    t is Object || t is Dict || t is Array
}

/// The least common description of two types, as inference joins the types
/// of two flows: vague types give way, ambiguity sets absorb, containers join
/// element-wise, objects merge field-wise, same-arity functions join
/// pointwise, and anything else forms a union.
pub open spec fn join(l: Ty, r: Ty) -> Ty
    decreases ty_size(l) + ty_size(r),
{
    if l == r {
        l
    } else if l is Unknown || l is Never {
        r
    } else if r is Unknown || r is Never {
        l
    } else if l is Ambiguous {
        make_ambiguous(l->Ambiguous_0.push(r))
    } else if r is Ambiguous {
        make_ambiguous(r->Ambiguous_0.push(l))
    } else if l is FnPtr && r is Function {
        r
    } else if l is Function && r is FnPtr {
        l
    } else if l is Object && l->Object_0.len() == 0 && is_container(r) {
        r
    } else if r is Object && r->Object_0.len() == 0 && is_container(l) {
        l
    } else {
        match (l, r) {
            (Ty::Array(a), Ty::Array(b)) => Ty::Array(Box::new(join(*a, *b))),
            (Ty::Array(items), Ty::Dict(k, v)) => if is_index_key(*k) {
                Ty::Array(Box::new(join(*items, *v)))
            } else {
                make_union(l, r)
            },
            (Ty::Dict(k, v), Ty::Array(items)) => if is_index_key(*k) {
                Ty::Array(Box::new(join(*items, *v)))
            } else {
                make_union(l, r)
            },
            (Ty::Object(lf), Ty::Object(rf)) => Ty::Object(merge_fields(lf, rf)),
            (Ty::Dict(lk, lv), Ty::Dict(rk, rv)) => Ty::Dict(
                Box::new(join(*lk, *rk)),
                Box::new(join(*lv, *rv)),
            ),
            (Ty::Function(lp, lr), Ty::Function(rp, rr)) => if lp.len() == rp.len() {
                Ty::Function(join_each(lp, rp), Box::new(join(*lr, *rr)))
            } else {
                make_union(l, r)
            },
            _ => make_union(l, r),
        }
    }
}

/// Pointwise join of two type lists, up to the shorter length.
pub open spec fn join_each(ps: Seq<Ty>, qs: Seq<Ty>) -> Seq<Ty>
    decreases tys_size(ps) + tys_size(qs),
{
    if ps.len() == 0 || qs.len() == 0 {
        Seq::empty()
    } else {
        seq![join(ps[0], qs[0])] + join_each(ps.drop_first(), qs.drop_first())
    }
}

/// Merges two name-sorted field lists: fields present on both sides join
/// their types, the others are kept, and the result stays sorted by name.
pub open spec fn merge_fields(lf: Seq<(Seq<char>, Ty)>, rf: Seq<(Seq<char>, Ty)>) -> Seq<
    (Seq<char>, Ty),
>
    decreases fields_size(lf) + fields_size(rf),
{
    if lf.len() == 0 {
        rf
    } else if rf.len() == 0 {
        lf
    } else if lf[0].0 == rf[0].0 {
        seq![(lf[0].0, join(lf[0].1, rf[0].1))] + merge_fields(lf.drop_first(), rf.drop_first())
    } else if chars_lt(lf[0].0, rf[0].0) {
        seq![lf[0]] + merge_fields(lf.drop_first(), rf)
    } else {
        seq![rf[0]] + merge_fields(lf, rf.drop_first())
    }
}

/// Whether object fields are sorted by name, each name once, as a
/// `BTreeMap` keeps them.
pub open spec fn field_names_sorted(fs: Seq<(Seq<char>, Ty)>) -> bool {
    forall|i: int, j: int| 0 <= i < j < fs.len() ==> chars_lt((#[trigger] fs[i]).0, (#[trigger] fs[j]).0)
}

proof fn lemma_sorted_tail(fs: Seq<(Seq<char>, Ty)>)
    requires
        field_names_sorted(fs),
        fs.len() > 0,
    ensures
        field_names_sorted(fs.drop_first()),
{
    let t = fs.drop_first();
    assert forall|i: int, j: int| 0 <= i < j < t.len() implies chars_lt((#[trigger] t[i]).0, (#[trigger] t[j]).0) by {
        assert(t[i] == fs[i + 1] && t[j] == fs[j + 1]);
    }
}

proof fn lemma_sorted_cons(x: (Seq<char>, Ty), rest: Seq<(Seq<char>, Ty)>)
    requires
        field_names_sorted(rest),
        rest.len() > 0 ==> chars_lt(x.0, rest[0].0),
    ensures
        field_names_sorted(seq![x] + rest),
{
    let r = seq![x] + rest;
    assert forall|i: int, j: int| 0 <= i < j < r.len() implies chars_lt((#[trigger] r[i]).0, (#[trigger] r[j]).0) by {
        if i == 0 {
            assert(r[j] == rest[j - 1]);
            if j > 1 {
                assert(chars_lt(rest[0].0, rest[j - 1].0));
                crate::text::lemma_chars_lt_transitive(x.0, rest[0].0, rest[j - 1].0);
            }
        } else {
            assert(r[i] == rest[i - 1] && r[j] == rest[j - 1]);
        }
    }
}

/// Merging two field lists sorted by name gives a list sorted by name,
/// whose first name is the first name of one of them.
pub proof fn lemma_merge_fields_sorted(lf: Seq<(Seq<char>, Ty)>, rf: Seq<(Seq<char>, Ty)>)
    requires
        field_names_sorted(lf),
        field_names_sorted(rf),
    ensures
        field_names_sorted(merge_fields(lf, rf)),
        merge_fields(lf, rf).len() > 0 ==> (lf.len() > 0 && merge_fields(lf, rf)[0].0 == lf[0].0) || (rf.len() > 0
            && merge_fields(lf, rf)[0].0 == rf[0].0),
        merge_fields(lf, rf).len() == 0 ==> lf.len() == 0 && rf.len() == 0,
    decreases fields_size(lf) + fields_size(rf),
{
    if lf.len() > 0 && rf.len() > 0 {
        let a = lf.drop_first();
        let b = rf.drop_first();
        lemma_sorted_tail(lf);
        lemma_sorted_tail(rf);
        if lf[0].0 == rf[0].0 {
            lemma_merge_fields_sorted(a, b);
            let m = merge_fields(a, b);
            if m.len() > 0 {
                if a.len() > 0 && m[0].0 == a[0].0 {
                    assert(chars_lt(lf[0].0, lf[1].0));
                } else {
                    assert(chars_lt(rf[0].0, rf[1].0));
                }
            }
            lemma_sorted_cons((lf[0].0, join(lf[0].1, rf[0].1)), m);
        } else if chars_lt(lf[0].0, rf[0].0) {
            lemma_merge_fields_sorted(a, rf);
            let m = merge_fields(a, rf);
            if m.len() > 0 {
                if a.len() > 0 && m[0].0 == a[0].0 {
                    assert(chars_lt(lf[0].0, lf[1].0));
                }
            }
            lemma_sorted_cons(lf[0], m);
        } else {
            crate::text::lemma_chars_lt_total(lf[0].0, rf[0].0);
            lemma_merge_fields_sorted(lf, b);
            let m = merge_fields(lf, b);
            if m.len() > 0 {
                if b.len() > 0 && m[0].0 == b[0].0 {
                    assert(chars_lt(rf[0].0, rf[1].0));
                }
            }
            lemma_sorted_cons(rf[0], m);
        }
    }
}

} // verus!

verus! {

pub proof fn lemma_skip_first<A>(s: Seq<A>, i: int)
    requires
        0 <= i < s.len(),
    ensures
        s.skip(i)[0] == s[i],
        s.skip(i).drop_first() == s.skip(i + 1),
        s.skip(i).len() > 0,
{
    assert(s.skip(i).drop_first() =~= s.skip(i + 1));
}

fn is_index_key_exec(k: &TypeRef) -> (r: bool)
    ensures
        r == is_index_key(k@),
{
    match k {
        TypeRef::Int | TypeRef::Unknown | TypeRef::Never => true,
        _ => false,
    }
}

fn is_container_exec(t: &TypeRef) -> (r: bool)
    ensures
        r == is_container(t@),
{
    match t {
        TypeRef::Object(_) | TypeRef::Dict(_, _) | TypeRef::Array(_) => true,
        _ => false,
    }
}

fn is_empty_object(t: &TypeRef) -> (r: bool)
    ensures
        r == (t@ is Object && t@->Object_0.len() == 0),
{
    proof {
        lemma_model_unfold(*t);
    }
    match t {
        TypeRef::Object(fs) => fs.len() == 0,
        _ => false,
    }
}


/// Merges two field lists, as `merge_fields` states.
pub fn merge_object_fields(lf: &Vec<ObjectField>, rf: &Vec<ObjectField>) -> (out: Vec<ObjectField>)
    ensures
        field_views(out@) == merge_fields(field_views(lf@), field_views(rf@)),
    decreases fields_size(field_views(lf@)) + fields_size(field_views(rf@)),
{
    let ghost lv = field_views(lf@);
    let ghost rv = field_views(rf@);
    let mut out: Vec<ObjectField> = Vec::new();
    let mut i: usize = 0;
    let mut j: usize = 0;
    assert(lv.skip(0) =~= lv);
    assert(rv.skip(0) =~= rv);
    assert(field_views(out@) =~= Seq::empty());
    while i < lf.len() && j < rf.len()
        invariant
            0 <= i <= lf.len(),
            0 <= j <= rf.len(),
            lv == field_views(lf@),
            rv == field_views(rf@),
            field_views(out@) + merge_fields(lv.skip(i as int), rv.skip(j as int))
                == merge_fields(lv, rv),
        decreases lf.len() - i + rf.len() - j,
    {
        proof {
            lemma_skip_first(lv, i as int);
            lemma_skip_first(rv, j as int);
        }
        let ghost before = field_views(out@);
        if lf[i].name == rf[j].name {
            proof {
                crate::lattice::lemma_fields_size_elem(lv, i as int);
                crate::lattice::lemma_fields_size_elem(rv, j as int);
            }
            let joined = join_types(&lf[i].ty, &rf[j].ty);
            out.push(ObjectField { name: lf[i].name.clone(), ty: joined });
            assert(field_views(out@) =~= before + seq![(lv[i as int].0, join(lv[i as int].1, rv[j as int].1))]);
            i += 1;
            j += 1;
        } else if crate::text::str_less(lf[i].name.as_str(), rf[j].name.as_str()) {
            out.push(ObjectField { name: lf[i].name.clone(), ty: clone_type(&lf[i].ty) });
            assert(field_views(out@) =~= before + seq![lv[i as int]]);
            i += 1;
        } else {
            out.push(ObjectField { name: rf[j].name.clone(), ty: clone_type(&rf[j].ty) });
            assert(field_views(out@) =~= before + seq![rv[j as int]]);
            j += 1;
        }
    }
    while i < lf.len()
        invariant
            0 <= i <= lf.len(),
            i == lf.len() || j == rf.len(),
            j <= rf.len(),
            lv == field_views(lf@),
            rv == field_views(rf@),
            field_views(out@) + merge_fields(lv.skip(i as int), rv.skip(j as int))
                == merge_fields(lv, rv),
        decreases lf.len() - i,
    {
        proof {
            lemma_skip_first(lv, i as int);
            assert(rv.skip(j as int).len() == 0);
        }
        let ghost before = field_views(out@);
        out.push(ObjectField { name: lf[i].name.clone(), ty: clone_type(&lf[i].ty) });
        assert(field_views(out@) =~= before + seq![lv[i as int]]);
        assert(lv.skip(i as int) =~= seq![lv[i as int]] + lv.skip(i + 1));
        i += 1;
    }
    while j < rf.len()
        invariant
            i == lf.len(),
            0 <= j <= rf.len(),
            lv == field_views(lf@),
            rv == field_views(rf@),
            field_views(out@) + merge_fields(lv.skip(i as int), rv.skip(j as int))
                == merge_fields(lv, rv),
        decreases rf.len() - j,
    {
        proof {
            lemma_skip_first(rv, j as int);
            assert(lv.skip(i as int).len() == 0);
        }
        let ghost before = field_views(out@);
        out.push(ObjectField { name: rf[j].name.clone(), ty: clone_type(&rf[j].ty) });
        assert(field_views(out@) =~= before + seq![rv[j as int]]);
        assert(rv.skip(j as int) =~= seq![rv[j as int]] + rv.skip(j + 1));
        j += 1;
    }
    assert(lv.skip(i as int).len() == 0 && rv.skip(j as int).len() == 0);
    assert(field_views(out@) =~= merge_fields(lv, rv));
    out
}

/// Joins two same-length parameter lists pointwise, as `join_each` states.
pub fn join_params(ps: &Vec<TypeRef>, qs: &Vec<TypeRef>) -> (out: Vec<TypeRef>)
    requires
        ps.len() == qs.len(),
    ensures
        views(out@) == join_each(views(ps@), views(qs@)),
    decreases tys_size(views(ps@)) + tys_size(views(qs@)),
{
    let ghost pv = views(ps@);
    let ghost qv = views(qs@);
    let mut out: Vec<TypeRef> = Vec::new();
    let mut i: usize = 0;
    assert(pv.skip(0) =~= pv);
    assert(qv.skip(0) =~= qv);
    assert(views(out@) =~= Seq::empty());
    while i < ps.len()
        invariant
            0 <= i <= ps.len(),
            ps.len() == qs.len(),
            pv == views(ps@),
            qv == views(qs@),
            views(out@) + join_each(pv.skip(i as int), qv.skip(i as int)) == join_each(pv, qv),
        decreases ps.len() - i,
    {
        proof {
            lemma_skip_first(pv, i as int);
            lemma_skip_first(qv, i as int);
            lemma_tys_size_elem(pv, i as int);
            lemma_tys_size_elem(qv, i as int);
        }
        let ghost before = views(out@);
        let joined = join_types(&ps[i], &qs[i]);
        out.push(joined);
        assert(views(out@) =~= before + seq![join(pv[i as int], qv[i as int])]);
        i += 1;
    }
    assert(pv.skip(i as int).len() == 0);
    assert(views(out@) =~= join_each(pv, qv));
    out
}

/// Joins the types of two flows that meet, as `join` states.
#[verifier::loop_isolation(false)]
pub fn join_types(left: &TypeRef, right: &TypeRef) -> (r: TypeRef)
    ensures
        r@ == join(left@, right@),
    decreases ty_size(left@) + ty_size(right@),
{
    proof {
        lemma_model_unfold(*left);
        lemma_model_unfold(*right);
    }
    if type_eq(left, right) {
        return clone_type(left);
    }
    if is_vague_leaf(left) {
        return clone_type(right);
    }
    if is_vague_leaf(right) {
        return clone_type(left);
    }
    if let TypeRef::Ambiguous(items) = left {
        let mut all = crate::ty::clone_types(items);
        all.push(clone_type(right));
        assert(views(all@) =~= views(items@).push(right@));
        return make_ambiguous_type(all);
    }
    if let TypeRef::Ambiguous(items) = right {
        let mut all = crate::ty::clone_types(items);
        all.push(clone_type(left));
        assert(views(all@) =~= views(items@).push(left@));
        return make_ambiguous_type(all);
    }
    match (left, right) {
        (TypeRef::FnPtr, TypeRef::Function(_)) => {
            return clone_type(right);
        },
        (TypeRef::Function(_), TypeRef::FnPtr) => {
            return clone_type(left);
        },
        _ => {},
    }
    if is_empty_object(left) && is_container_exec(right) {
        return clone_type(right);
    }
    if is_empty_object(right) && is_container_exec(left) {
        return clone_type(left);
    }
    match (left, right) {
        (TypeRef::Array(a), TypeRef::Array(b)) => {
            let r = TypeRef::Array(Box::new(join_types(a, b)));
            r
        },
        (TypeRef::Array(items), TypeRef::Dict(k, v)) => {
            if is_index_key_exec(k) {
                TypeRef::Array(Box::new(join_types(items, v)))
            } else {
                make_union_exec(left, right)
            }
        },
        (TypeRef::Dict(k, v), TypeRef::Array(items)) => {
            if is_index_key_exec(k) {
                TypeRef::Array(Box::new(join_types(items, v)))
            } else {
                make_union_exec(left, right)
            }
        },
        (TypeRef::Object(lf), TypeRef::Object(rf)) => {
            let out = merge_object_fields(lf, rf);
            let r = TypeRef::Object(out);
            proof {
                lemma_model_unfold(r);
            }
            r
        },
        (TypeRef::Dict(lk, lv), TypeRef::Dict(rk, rv)) => {
            TypeRef::Dict(Box::new(join_types(lk, rk)), Box::new(join_types(lv, rv)))
        },
        (TypeRef::Function(f), TypeRef::Function(g)) => {
            if f.params.len() == g.params.len() {
                let out = join_params(&f.params, &g.params);
                let ret = join_types(&f.ret, &g.ret);
                let r = TypeRef::Function(FunctionTypeRef { params: out, ret: Box::new(ret) });
                proof {
                    lemma_model_unfold(r);
                }
                r
            } else {
                make_union_exec(left, right)
            }
        },
        _ => make_union_exec(left, right),
    }
}

} // verus!

verus! {

/// The join of two optional types: a missing side gives way to the other.
pub open spec fn join_option(l: Option<Ty>, r: Option<Ty>) -> Option<Ty> {
    match (l, r) {
        (Some(a), Some(b)) => Some(join(a, b)),
        (Some(a), None) => Some(a),
        (None, Some(b)) => Some(b),
        (None, None) => None,
    }
}

/// The model of an optional type reference.
pub open spec fn opt_view(t: Option<&TypeRef>) -> Option<Ty> {
    match t {
        Some(x) => Some(x@),
        None => None,
    }
}

/// The model of an optional type.
pub open spec fn opt_ty(t: Option<TypeRef>) -> Option<Ty> {
    match t {
        Some(x) => Some(x@),
        None => None,
    }
}

/// Joins two optional types.
pub fn join_option_types(lhs: Option<&TypeRef>, rhs: Option<&TypeRef>) -> (r: Option<TypeRef>)
    ensures
        opt_ty(r) == join_option(opt_view(lhs), opt_view(rhs)),
{
    match (lhs, rhs) {
        (Some(l), Some(r)) => Some(join_types(l, r)),
        (Some(l), None) => Some(clone_type(l)),
        (None, Some(r)) => Some(clone_type(r)),
        (None, None) => None,
    }
}

/// The result type of an arithmetic operator on numbers: equal numeric types
/// keep their type, decimals absorb integers and floats, and floats absorb integers.
pub open spec fn numeric_result(l: Ty, r: Ty) -> Option<Ty> {
    if l == r && (l is Int || l is Float || l is Decimal) {
        Some(l)
    } else if (l is Decimal && (r is Int || r is Float)) || ((l is Int || l is Float)
        && r is Decimal) {
        Some(Ty::Decimal)
    } else if (l is Float && r is Int) || (l is Int && r is Float) {
        Some(Ty::Float)
    } else {
        None
    }
}

/// The result type of `+`: strings concatenate, numbers as `numeric_result`.
pub open spec fn additive_result(l: Ty, r: Ty) -> Option<Ty> {
    if l is Str && r is Str {
        Some(Ty::Str)
    } else {
        numeric_result(l, r)
    }
}

/// The result type of a numeric operator, when both operand types are known.
pub fn infer_numeric_result(lhs: Option<&TypeRef>, rhs: Option<&TypeRef>) -> (r: Option<TypeRef>)
    ensures
        opt_ty(r) == match (opt_view(lhs), opt_view(rhs)) {
            (Some(a), Some(b)) => numeric_result(a, b),
            _ => None,
        },
{
    let (l, r) = match (lhs, rhs) {
        (Some(l), Some(r)) => (l, r),
        _ => return None,
    };
    match (l, r) {
        (TypeRef::Int, TypeRef::Int) => Some(TypeRef::Int),
        (TypeRef::Float, TypeRef::Float) => Some(TypeRef::Float),
        (TypeRef::Decimal, TypeRef::Decimal) => Some(TypeRef::Decimal),
        (TypeRef::Decimal, TypeRef::Int) | (TypeRef::Decimal, TypeRef::Float) | (
            TypeRef::Int,
            TypeRef::Decimal,
        ) | (TypeRef::Float, TypeRef::Decimal) => Some(TypeRef::Decimal),
        (TypeRef::Float, TypeRef::Int) | (TypeRef::Int, TypeRef::Float) => Some(TypeRef::Float),
        _ => None,
    }
}

/// The result type of `+`, when both operand types are known.
pub fn infer_additive_result(lhs: Option<&TypeRef>, rhs: Option<&TypeRef>) -> (r: Option<TypeRef>)
    ensures
        opt_ty(r) == match (opt_view(lhs), opt_view(rhs)) {
            (Some(a), Some(b)) => additive_result(a, b),
            _ => None,
        },
{
    match (lhs, rhs) {
        (Some(TypeRef::String), Some(TypeRef::String)) => Some(TypeRef::String),
        _ => infer_numeric_result(lhs, rhs),
    }
}

/// Whether a type still has parts that inference has not pinned down.
pub open spec fn has_vague_parts(t: Ty) -> bool
    decreases t,
{
    match t {
        Ty::Unknown => true,
        Ty::Never => true,
        Ty::FnPtr => true,
        Ty::Ambiguous(_) => true,
        Ty::Array(x) => has_vague_parts(*x),
        Ty::Nullable(x) => has_vague_parts(*x),
        Ty::Object(fs) => any_vague_field(fs),
        Ty::Dict(k, v) => has_vague_parts(*k) || has_vague_parts(*v),
        Ty::Function(ps, r) => any_vague(ps) || has_vague_parts(*r),
        _ => false,
    }
}

/// Whether some type of the list has vague parts.
pub open spec fn any_vague(xs: Seq<Ty>) -> bool
    decreases xs,
{
    if xs.len() == 0 {
        false
    } else {
        has_vague_parts(xs[0]) || any_vague(xs.drop_first())
    }
}

/// Whether some field type of the list has vague parts.
pub open spec fn any_vague_field(fs: Seq<(Seq<char>, Ty)>) -> bool
    decreases fs,
{
    if fs.len() == 0 {
        false
    } else {
        has_vague_parts(fs[0].1) || any_vague_field(fs.drop_first())
    }
}

pub proof fn lemma_any_vague(xs: Seq<Ty>)
    ensures
        any_vague(xs) == exists|i: int| 0 <= i < xs.len() && #[trigger] has_vague_parts(xs[i]),
    decreases xs.len(),
{
    if xs.len() > 0 {
        lemma_any_vague(xs.drop_first());
        if has_vague_parts(xs[0]) {
            assert(any_vague(xs));
        }
        if exists|i: int| 0 <= i < xs.len() && #[trigger] has_vague_parts(xs[i]) {
            let i = choose|i: int| 0 <= i < xs.len() && #[trigger] has_vague_parts(xs[i]);
            if i > 0 {
                assert(has_vague_parts(xs.drop_first()[i - 1]));
            }
        }
        if any_vague(xs.drop_first()) {
            let i = choose|i: int| 0 <= i < xs.drop_first().len() && #[trigger] has_vague_parts(xs.drop_first()[i]);
            assert(has_vague_parts(xs[i + 1]));
        }
    }
}

pub proof fn lemma_any_vague_field(fs: Seq<(Seq<char>, Ty)>)
    ensures
        any_vague_field(fs) == exists|i: int| 0 <= i < fs.len() && #[trigger] has_vague_parts(fs[i].1),
    decreases fs.len(),
{
    if fs.len() > 0 {
        lemma_any_vague_field(fs.drop_first());
        if has_vague_parts(fs[0].1) {
            assert(any_vague_field(fs));
        }
        if exists|i: int| 0 <= i < fs.len() && #[trigger] has_vague_parts(fs[i].1) {
            let i = choose|i: int| 0 <= i < fs.len() && #[trigger] has_vague_parts(fs[i].1);
            if i > 0 {
                assert(has_vague_parts(fs.drop_first()[i - 1].1));
            }
        }
        if any_vague_field(fs.drop_first()) {
            let i = choose|i: int| 0 <= i < fs.drop_first().len() && #[trigger] has_vague_parts(fs.drop_first()[i].1);
            assert(has_vague_parts(fs[i + 1].1));
        }
    }
}

/// Whether any type of a list has vague parts.
pub fn any_has_vague_parts(xs: &Vec<TypeRef>) -> (r: bool)
    ensures
        r == any_vague(views(xs@)),
    decreases xs,
{
    let mut i: usize = 0;
    while i < xs.len()
        invariant
            0 <= i <= xs.len(),
            forall|j: int| 0 <= j < i ==> !has_vague_parts(#[trigger] views(xs@)[j]),
        decreases xs.len() - i,
    {
        proof {
            assert(decreases_to!(xs => xs@[i as int]));
        }
        if type_has_vague_parts(&xs[i]) {
            assert(has_vague_parts(views(xs@)[i as int]));
            proof {
                lemma_any_vague(views(xs@));
            }
            return true;
        }
        i += 1;
    }
    proof {
        lemma_any_vague(views(xs@));
    }
    false
}

/// Whether a type still has parts that inference has not pinned down.
#[verifier::loop_isolation(false)]
pub fn type_has_vague_parts(ty: &TypeRef) -> (r: bool)
    ensures
        r == has_vague_parts(ty@),
    decreases ty,
{
    proof {
        lemma_model_unfold(*ty);
    }
    match ty {
        TypeRef::Unknown | TypeRef::Never | TypeRef::FnPtr => true,
        TypeRef::Ambiguous(_) => {
            assert(ty@ is Ambiguous);
            true
        },
        TypeRef::Array(x) => type_has_vague_parts(x),
        TypeRef::Nullable(x) => type_has_vague_parts(x),
        TypeRef::Object(fs) => {
            let ghost fv = field_views(fs@);
            let mut i: usize = 0;
            while i < fs.len()
                invariant
                    0 <= i <= fs.len(),
                    fv == field_views(fs@),
                    forall|j: int| 0 <= j < i ==> !has_vague_parts(#[trigger] fv[j].1),
                decreases fs.len() - i,
            {
                proof {
                    assert(decreases_to!(fs => fs@));
                    assert(decreases_to!(fs@ => fs@[i as int]));
                    assert(decreases_to!(fs@[i as int] => fs@[i as int].ty));
                    assert(decreases_to!(*ty => fs));
                }
                if type_has_vague_parts(&fs[i].ty) {
                    assert(has_vague_parts(fv[i as int].1));
                    proof {
                        lemma_any_vague_field(fv);
                    }
                    return true;
                }
                i += 1;
            }
            proof {
                lemma_any_vague_field(fv);
            }
            false
        },
        TypeRef::Dict(k, v) => type_has_vague_parts(k) || type_has_vague_parts(v),
        TypeRef::Function(f) => any_has_vague_parts(&f.params) || type_has_vague_parts(&f.ret),
        _ => false,
    }
}

/// Whether an expected type would make `current` more precise.
pub open spec fn can_refine(current: Ty, expected: Ty) -> bool {
    if current == expected {
        false
    } else {
        match (current, expected) {
            (Ty::Unknown, _) => true,
            (Ty::Never, _) => true,
            (Ty::FnPtr, Ty::Function(_, _)) => true,
            (Ty::Array(inner), Ty::Array(_)) => has_vague_parts(*inner),
            (Ty::Nullable(inner), Ty::Nullable(_)) => has_vague_parts(*inner),
            (Ty::Object(fs), Ty::Object(_)) => any_vague_field(fs),
            (Ty::Dict(k, v), Ty::Dict(_, _)) => has_vague_parts(*k) || has_vague_parts(*v),
            (Ty::Function(ps, r), Ty::Function(qs, _)) => ps.len() == qs.len() && (any_vague(ps)
                || has_vague_parts(*r)),
            _ => false,
        }
    }
}

/// Whether an expected type would make `current` more precise.
pub fn can_refine_with_expected(current: &TypeRef, expected: &TypeRef) -> (r: bool)
    ensures
        r == can_refine(current@, expected@),
{
    proof {
        lemma_model_unfold(*current);
        lemma_model_unfold(*expected);
    }
    if type_eq(current, expected) {
        return false;
    }
    match (current, expected) {
        (TypeRef::Unknown, _) | (TypeRef::Never, _) => true,
        (TypeRef::FnPtr, TypeRef::Function(_)) => true,
        (TypeRef::Array(inner), TypeRef::Array(_)) => type_has_vague_parts(inner),
        (TypeRef::Nullable(inner), TypeRef::Nullable(_)) => type_has_vague_parts(inner),
        (TypeRef::Object(_), TypeRef::Object(_)) => type_has_vague_parts(current),
        (TypeRef::Dict(k, v), TypeRef::Dict(_, _)) => type_has_vague_parts(k)
            || type_has_vague_parts(v),
        (TypeRef::Function(f), TypeRef::Function(g)) => {
            f.params.len() == g.params.len() && (any_has_vague_parts(&f.params)
                || type_has_vague_parts(&f.ret))
        },
        _ => false,
    }
}

} // verus!

verus! {

/// A type with its nullable parts removed: `Nullable(x)` becomes `x`, and a
/// union drops its unit members and strips the others, dropping duplicates;
/// an emptied union is `Never`.
pub open spec fn strip_nullable(t: Ty) -> Ty
    decreases t,
{
    match t {
        Ty::Nullable(x) => strip_nullable(*x),
        Ty::Union(items) => {
            let rs = strip_members(Seq::empty(), items);
            if rs.len() == 0 {
                Ty::Never
            } else if rs.len() == 1 {
                rs[0]
            } else {
                Ty::Union(rs)
            }
        },
        _ => t,
    }
}

/// Adds the stripped non-unit members of `items` to `acc`, without duplicates.
pub open spec fn strip_members(acc: Seq<Ty>, items: Seq<Ty>) -> Seq<Ty>
    decreases items,
{
    if items.len() == 0 {
        acc
    } else {
        let next = strip_nullable(items[0]);
        let acc2 = if items[0] is Unit || acc.contains(next) {
            acc
        } else {
            acc.push(next)
        };
        strip_members(acc2, items.drop_first())
    }
}

fn contains_type(xs: &Vec<TypeRef>, t: &TypeRef) -> (r: bool)
    ensures
        r == views(xs@).contains(t@),
{
    let mut i: usize = 0;
    while i < xs.len()
        invariant
            0 <= i <= xs.len(),
            forall|j: int| 0 <= j < i ==> views(xs@)[j] != t@,
        decreases xs.len() - i,
    {
        if type_eq(&xs[i], t) {
            assert(views(xs@)[i as int] == t@);
            return true;
        }
        i += 1;
    }
    false
}

/// Removes the nullable parts of a type, as `strip_nullable` states.
#[verifier::loop_isolation(false)]
pub fn strip_nullable_exec(ty: &TypeRef) -> (r: TypeRef)
    ensures
        r@ == strip_nullable(ty@),
    decreases ty,
{
    proof {
        lemma_model_unfold(*ty);
    }
    match ty {
        TypeRef::Nullable(x) => strip_nullable_exec(x),
        TypeRef::Union(items) => {
            let ghost iv = views(items@);
            let mut refined: Vec<TypeRef> = Vec::new();
            let mut i: usize = 0;
            assert(iv.skip(0) =~= iv);
            assert(views(refined@) =~= Seq::<Ty>::empty());
            while i < items.len()
                invariant
                    0 <= i <= items.len(),
                    iv == views(items@),
                    strip_members(views(refined@), iv.skip(i as int)) == strip_members(
                        Seq::empty(),
                        iv,
                    ),
                decreases items.len() - i,
            {
                proof {
                    lemma_skip_first(iv, i as int);
                    assert(decreases_to!(*ty => items@[i as int]));
                }
                let ghost before = views(refined@);
                if !matches!(items[i], TypeRef::Unit) {
                    let next = strip_nullable_exec(&items[i]);
                    if !contains_type(&refined, &next) {
                        refined.push(next);
                        assert(views(refined@) =~= before.push(next@));
                    }
                }
                i += 1;
            }
            assert(iv.skip(i as int).len() == 0);
            if refined.len() == 0 {
                TypeRef::Never
            } else if refined.len() == 1 {
                refined.pop().unwrap()
            } else {
                let r = TypeRef::Union(refined);
                proof {
                    lemma_model_unfold(r);
                }
                r
            }
        },
        _ => clone_type(ty),
    }
}

/// The part of a type that can only be unit: nullable types and unit give
/// unit, a union gives the union of its members' nullish parts, and other
/// types have none.
pub open spec fn nullish_only(t: Ty) -> Option<Ty>
    decreases t,
{
    match t {
        Ty::Nullable(_) => Some(Ty::Unit),
        Ty::Unit => Some(Ty::Unit),
        Ty::Union(items) => {
            let rs = nullish_members(Seq::empty(), items);
            if rs.len() == 0 {
                None
            } else if rs.len() == 1 {
                Some(rs[0])
            } else {
                Some(Ty::Union(rs))
            }
        },
        _ => None,
    }
}

/// Adds the nullish parts of `items` to `acc`, without duplicates.
pub open spec fn nullish_members(acc: Seq<Ty>, items: Seq<Ty>) -> Seq<Ty>
    decreases items,
{
    if items.len() == 0 {
        acc
    } else {
        let acc2 = match nullish_only(items[0]) {
            Some(next) => if acc.contains(next) {
                acc
            } else {
                acc.push(next)
            },
            None => acc,
        };
        nullish_members(acc2, items.drop_first())
    }
}

/// The part of a type that can only be unit, as `nullish_only` states.
#[verifier::loop_isolation(false)]
pub fn nullish_only_type(ty: &TypeRef) -> (r: Option<TypeRef>)
    ensures
        opt_ty(r) == nullish_only(ty@),
    decreases ty,
{
    proof {
        lemma_model_unfold(*ty);
    }
    match ty {
        TypeRef::Nullable(_) | TypeRef::Unit => Some(TypeRef::Unit),
        TypeRef::Union(items) => {
            let ghost iv = views(items@);
            let mut refined: Vec<TypeRef> = Vec::new();
            let mut i: usize = 0;
            assert(iv.skip(0) =~= iv);
            assert(views(refined@) =~= Seq::<Ty>::empty());
            while i < items.len()
                invariant
                    0 <= i <= items.len(),
                    iv == views(items@),
                    nullish_members(views(refined@), iv.skip(i as int)) == nullish_members(
                        Seq::empty(),
                        iv,
                    ),
                decreases items.len() - i,
            {
                proof {
                    lemma_skip_first(iv, i as int);
                    assert(decreases_to!(*ty => items@[i as int]));
                }
                let ghost before = views(refined@);
                if let Some(next) = nullish_only_type(&items[i]) {
                    if !contains_type(&refined, &next) {
                        refined.push(next);
                        assert(views(refined@) =~= before.push(next@));
                    }
                }
                i += 1;
            }
            assert(iv.skip(i as int).len() == 0);
            if refined.len() == 0 {
                None
            } else if refined.len() == 1 {
                refined.pop()
            } else {
                let r = TypeRef::Union(refined);
                proof {
                    lemma_model_unfold(r);
                }
                Some(r)
            }
        },
        _ => None,
    }
}

/// An object type with the single field `name: value`.
pub fn object_type_with_field(name: &str, value: TypeRef) -> (r: TypeRef)
    ensures
        r@ == Ty::Object(seq![(name@, value@)]),
{
    let mut fields: Vec<ObjectField> = Vec::new();
    fields.push(ObjectField { name: name.to_owned(), ty: value });
    let r = TypeRef::Object(fields);
    proof {
        lemma_model_unfold(r);
        assert(field_views(fields@) =~= seq![(name@, value@)]);
    }
    r
}

/// Folds `join` over the field types of `rest`, starting from `acc`.
pub open spec fn join_field_types(acc: Ty, rest: Seq<(Seq<char>, Ty)>) -> Ty
    decreases rest.len(),
{
    if rest.len() == 0 {
        acc
    } else {
        join_field_types(join(acc, rest[0].1), rest.drop_first())
    }
}

/// The join of all field types of an object, in name order; none when it has no fields.
pub open spec fn object_value_union(fs: Seq<(Seq<char>, Ty)>) -> Option<Ty> {
    if fs.len() == 0 {
        None
    } else {
        Some(join_field_types(fs[0].1, fs.drop_first()))
    }
}

/// The join of all field types of an object, as `object_value_union` states.
pub fn inferred_object_value_union(fields: &Vec<ObjectField>) -> (r: Option<TypeRef>)
    ensures
        opt_ty(r) == object_value_union(field_views(fields@)),
{
    if fields.len() == 0 {
        return None;
    }
    let ghost fv = field_views(fields@);
    let mut acc = clone_type(&fields[0].ty);
    let mut i: usize = 1;
    assert(fv.skip(1) =~= fv.drop_first());
    while i < fields.len()
        invariant
            1 <= i <= fields.len(),
            fv == field_views(fields@),
            join_field_types(acc@, fv.skip(i as int)) == join_field_types(fv[0].1, fv.drop_first()),
        decreases fields.len() - i,
    {
        proof {
            lemma_skip_first(fv, i as int);
        }
        acc = join_types(&acc, &fields[i].ty);
        i += 1;
    }
    assert(fv.skip(i as int).len() == 0);
    Some(acc)
}

/// What a branch condition says about whether a value is unit.
#[derive(Clone, Copy, PartialEq, Eq, Debug)]
pub enum NullabilityRefinement {
    NonNull,
    NullOnly,
}

/// Combines what two conditions say about nullability: agreement or a
/// single opinion stands, disagreement says nothing.
pub open spec fn combine_refinements(
    l: Option<NullabilityRefinement>,
    r: Option<NullabilityRefinement>,
) -> Option<NullabilityRefinement> {
    match (l, r) {
        (Some(a), Some(b)) => if a == b {
            Some(a)
        } else {
            None
        },
        (Some(a), None) => Some(a),
        (None, Some(b)) => Some(b),
        (None, None) => None,
    }
}

/// Combines what two conditions say about nullability, as `combine_refinements` states.
pub fn combine_nullability_refinements(
    left: Option<NullabilityRefinement>,
    right: Option<NullabilityRefinement>,
) -> (r: Option<NullabilityRefinement>)
    ensures
        r == combine_refinements(left, right),
{
    match (left, right) {
        (Some(l), Some(r)) => {
            let same = match (l, r) {
                (NullabilityRefinement::NonNull, NullabilityRefinement::NonNull) => true,
                (NullabilityRefinement::NullOnly, NullabilityRefinement::NullOnly) => true,
                _ => false,
            };
            if same {
                Some(l)
            } else {
                None
            }
        },
        (Some(refinement), None) | (None, Some(refinement)) => Some(refinement),
        (None, None) => None,
    }
}

} // verus!

verus! {

/// The join of a type with itself is that type, and an unknown or never
/// type on the left gives way to whatever it meets.
pub proof fn law_join_idempotent_and_vague_left_identity(t: Ty, u: Ty)
    ensures
        join(t, t) == t,
        join(Ty::Unknown, u) == u,
        join(Ty::Never, u) == u,
{
}

/// Whether no member is a union.
pub open spec fn no_union_members(ms: Seq<Ty>) -> bool {
    forall|i: int| 0 <= i < ms.len() ==> !(#[trigger] ms[i] is Union)
}

/// Whether no member is an ambiguity set.
pub open spec fn no_ambiguous_members(ms: Seq<Ty>) -> bool {
    forall|i: int| 0 <= i < ms.len() ==> !(#[trigger] ms[i] is Ambiguous)
}

proof fn lemma_add_member_keeps(ms: Seq<Ty>, t: Ty)
    ensures
        forall|i: int| 0 <= i < add_member(ms, t).len() ==> #[trigger] add_member(ms, t)[i] == t || exists|j: int|
            0 <= j < ms.len() && add_member(ms, t)[i] == ms[j],
{
    lemma_subsumed_index(ms, t);
    let r = add_member(ms, t);
    assert forall|i: int| 0 <= i < r.len() implies #[trigger] r[i] == t || exists|j: int| 0 <= j < ms.len() && r[i] == ms[j] by {
        if r[i] != t {
            if i < ms.len() {
                assert(r[i] == ms[i]);
            }
        }
    }
}

proof fn lemma_push_union_member_flat(ms: Seq<Ty>, t: Ty)
    requires
        no_union_members(ms),
    ensures
        no_union_members(push_union_member(ms, t)),
    decreases t,
{
    match t {
        Ty::Union(items) => lemma_push_union_members_flat(ms, items),
        _ => {
            lemma_add_member_keeps(ms, t);
            let r = add_member(ms, t);
            assert forall|i: int| 0 <= i < r.len() implies !(#[trigger] r[i] is Union) by {
                if r[i] != t {
                    let j = choose|j: int| 0 <= j < ms.len() && r[i] == ms[j];
                }
            }
        },
    }
}

proof fn lemma_push_union_members_flat(ms: Seq<Ty>, items: Seq<Ty>)
    requires
        no_union_members(ms),
    ensures
        no_union_members(push_union_members(ms, items)),
    decreases items,
{
    if items.len() > 0 {
        lemma_push_union_member_flat(ms, items[0]);
        lemma_push_union_members_flat(push_union_member(ms, items[0]), items.drop_first());
    }
}

proof fn lemma_push_ambiguous_member_flat(ms: Seq<Ty>, t: Ty)
    requires
        no_ambiguous_members(ms),
    ensures
        no_ambiguous_members(push_ambiguous_member(ms, t)),
    decreases t,
{
    match t {
        Ty::Ambiguous(items) => lemma_push_ambiguous_members_flat(ms, items),
        _ => {
            lemma_add_member_keeps(ms, t);
            let r = add_member(ms, t);
            assert forall|i: int| 0 <= i < r.len() implies !(#[trigger] r[i] is Ambiguous) by {
                if r[i] != t {
                    let j = choose|j: int| 0 <= j < ms.len() && r[i] == ms[j];
                }
            }
        },
    }
}

proof fn lemma_push_ambiguous_members_flat(ms: Seq<Ty>, items: Seq<Ty>)
    requires
        no_ambiguous_members(ms),
    ensures
        no_ambiguous_members(push_ambiguous_members(ms, items)),
    decreases items,
{
    if items.len() > 0 {
        lemma_push_ambiguous_member_flat(ms, items[0]);
        lemma_push_ambiguous_members_flat(push_ambiguous_member(ms, items[0]), items.drop_first());
    }
}

/// A union never has a union among its members: nested unions are
/// flattened into their members.
pub proof fn law_union_members_are_flat(l: Ty, r: Ty)
    ensures
        make_union(l, r) matches Ty::Union(ms) ==> no_union_members(ms),
{
    lemma_push_union_member_flat(Seq::empty(), l);
    lemma_push_union_member_flat(push_union_member(Seq::empty(), l), r);
}

/// An ambiguity set never has an ambiguity set among its members, and a
/// set of one candidate is that candidate.
pub proof fn law_ambiguity_members_are_flat(ts: Seq<Ty>)
    ensures
        make_ambiguous(ts) matches Ty::Ambiguous(ms) ==> no_ambiguous_members(ms) && ms.len() != 1,
{
    lemma_push_ambiguous_members_flat(Seq::empty(), ts);
}

proof fn lemma_strip_members_not_nullable(acc: Seq<Ty>, items: Seq<Ty>)
    requires
        forall|i: int| 0 <= i < acc.len() ==> !(#[trigger] acc[i] is Nullable),
    ensures
        forall|i: int| 0 <= i < strip_members(acc, items).len() ==> !(#[trigger] strip_members(acc, items)[i] is Nullable),
    decreases items,
{
    if items.len() > 0 {
        let next = strip_nullable(items[0]);
        law_stripped_type_is_not_nullable(items[0]);
        let acc2 = if items[0] is Unit || acc.contains(next) {
            acc
        } else {
            acc.push(next)
        };
        assert forall|i: int| 0 <= i < acc2.len() implies !(#[trigger] acc2[i] is Nullable) by {
            if i < acc.len() {
                assert(acc2[i] == acc[i]);
            }
        }
        lemma_strip_members_not_nullable(acc2, items.drop_first());
    }
}

/// Stripping the nullable parts of a type never leaves a nullable type.
pub proof fn law_stripped_type_is_not_nullable(t: Ty)
    ensures
        !(strip_nullable(t) is Nullable),
    decreases t,
{
    match t {
        Ty::Nullable(x) => law_stripped_type_is_not_nullable(*x),
        Ty::Union(items) => {
            lemma_strip_members_not_nullable(Seq::empty(), items);
            let rs = strip_members(Seq::empty(), items);
            if rs.len() == 1 {
                assert(!(rs[0] is Nullable));
            }
        },
        _ => {},
    }
}

proof fn lemma_nullish_members_unit(acc: Seq<Ty>, items: Seq<Ty>)
    requires
        acc.len() <= 1,
        forall|i: int| 0 <= i < acc.len() ==> #[trigger] acc[i] == Ty::Unit,
    ensures
        nullish_members(acc, items).len() <= 1,
        forall|i: int| 0 <= i < nullish_members(acc, items).len() ==> #[trigger] nullish_members(acc, items)[i] == Ty::Unit,
    decreases items,
{
    if items.len() > 0 {
        law_nullish_part_is_unit(items[0]);
        let acc2 = match nullish_only(items[0]) {
            Some(next) => if acc.contains(next) {
                acc
            } else {
                acc.push(next)
            },
            None => acc,
        };
        if nullish_only(items[0]) is Some && !acc.contains(Ty::Unit) {
            assert(acc.len() == 0) by {
                if acc.len() == 1 {
                    assert(acc[0] == Ty::Unit);
                }
            }
        }
        assert forall|i: int| 0 <= i < acc2.len() implies #[trigger] acc2[i] == Ty::Unit by {
            if i < acc.len() {
                assert(acc2[i] == acc[i]);
            }
        }
        lemma_nullish_members_unit(acc2, items.drop_first());
    }
}

/// The part of a type that can only be unit is unit itself, or there is none.
pub proof fn law_nullish_part_is_unit(t: Ty)
    ensures
        nullish_only(t) is None || nullish_only(t) == Some(Ty::Unit),
    decreases t,
{
    match t {
        Ty::Union(items) => {
            lemma_nullish_members_unit(Seq::empty(), items);
            let rs = nullish_members(Seq::empty(), items);
            if rs.len() == 1 {
                assert(rs[0] == Ty::Unit);
            }
        },
        _ => {},
    }
}

/// Maps join key-wise and value-wise: the join of two map types is the map
/// type of the joined keys and the joined values, never a union of the two.
pub proof fn law_maps_join_key_and_value_wise(k1: Ty, v1: Ty, k2: Ty, v2: Ty)
    ensures
        join(Ty::Dict(Box::new(k1), Box::new(v1)), Ty::Dict(Box::new(k2), Box::new(v2))) == Ty::Dict(
            Box::new(join(k1, k2)),
            Box::new(join(v1, v2)),
        ),
        join(Ty::Dict(Box::new(k1), Box::new(v1)), Ty::Dict(Box::new(k2), Box::new(v2))) is Dict,
{
    law_join_idempotent_and_vague_left_identity(k1, k1);
    law_join_idempotent_and_vague_left_identity(v1, v1);
}

/// Arrays join element-wise: the join of two array types is the array type
/// of the joined elements, never a union of the two.
pub proof fn law_arrays_join_element_wise(a: Ty, b: Ty)
    ensures
        join(Ty::Array(Box::new(a)), Ty::Array(Box::new(b))) == Ty::Array(Box::new(join(a, b))),
        join(Ty::Array(Box::new(a)), Ty::Array(Box::new(b))) is Array,
{
    law_join_idempotent_and_vague_left_identity(a, a);
}

} // verus!
