//! Specialising generic signatures: binding type parameters from receiver and
//! argument types, then substituting the bindings.

use vstd::prelude::*;

use crate::host::{host_names, HostType};
use crate::lattice::{fields_size, join, lemma_fields_size_elem, lemma_skip_first, lemma_tys_size_elem, ty_size, tys_size};
use crate::overload::{arg_views, field_index, lemma_field_index};
use crate::ty::{field_views, lemma_model_unfold, views, FunctionTypeRef, ObjectField, Ty, TypeRef};

verus! {

/// The type names that are never generic parameters.
pub open spec fn builtin_type_names() -> Seq<Seq<char>> {
    seq![
        "bool"@,
        "int"@,
        "float"@,
        "decimal"@,
        "string"@,
        "char"@,
        "blob"@,
        "timestamp"@,
        "Fn"@,
        "FnPtr"@,
        "Dynamic"@,
        "range"@,
        "range="@,
        "unknown"@,
        "any"@,
        "never"@,
    ]
}

/// A name is a generic parameter when it names neither a host type nor a
/// built-in type.
pub open spec fn is_generic(name: Seq<char>, hosts: Seq<Seq<char>>) -> bool {
    !hosts.contains(name) && !builtin_type_names().contains(name)
}

/// Appends to `ns`, in order of first occurrence, the generic parameter names
/// that `t` mentions.
pub open spec fn collect_names(t: Ty, hs: Seq<Seq<char>>, ns: Seq<Seq<char>>) -> Seq<Seq<char>>
    decreases t,
{
    match t {
        Ty::Named(n) => if is_generic(n, hs) && !ns.contains(n) {
            ns.push(n)
        } else {
            ns
        },
        Ty::Applied(_, args) => collect_names_all(args, hs, ns),
        Ty::Union(args) => collect_names_all(args, hs, ns),
        Ty::Ambiguous(args) => collect_names_all(args, hs, ns),
        Ty::Array(x) => collect_names(*x, hs, ns),
        Ty::Nullable(x) => collect_names(*x, hs, ns),
        Ty::Dict(k, v) => collect_names(*v, hs, collect_names(*k, hs, ns)),
        Ty::Object(fs) => collect_names_fields(fs, hs, ns),
        Ty::Function(ps, r) => collect_names(*r, hs, collect_names_all(ps, hs, ns)),
        _ => ns,
    }
}

/// `collect_names` over each type of a list, in order.
pub open spec fn collect_names_all(xs: Seq<Ty>, hs: Seq<Seq<char>>, ns: Seq<Seq<char>>) -> Seq<
    Seq<char>,
>
    decreases xs,
{
    if xs.len() == 0 {
        ns
    } else {
        collect_names_all(xs.drop_first(), hs, collect_names(xs[0], hs, ns))
    }
}

/// `collect_names` over each field type of a list, in order.
pub open spec fn collect_names_fields(fs: Seq<(Seq<char>, Ty)>, hs: Seq<Seq<char>>, ns: Seq<Seq<char>>) -> Seq<
    Seq<char>,
>
    decreases fs,
{
    if fs.len() == 0 {
        ns
    } else {
        collect_names_fields(fs.drop_first(), hs, collect_names(fs[0].1, hs, ns))
    }
}

/// The generic parameter names of a signature, parameters first.
pub open spec fn signature_generic_names(ps: Seq<Ty>, r: Ty, hs: Seq<Seq<char>>) -> Seq<Seq<char>> {
    collect_names(r, hs, collect_names_all(ps, hs, Seq::empty()))
}

/// Binds `name` to `actual`, joining with an earlier binding of the same name.
pub open spec fn bind(b: Seq<(Seq<char>, Ty)>, name: Seq<char>, actual: Ty) -> Seq<(Seq<char>, Ty)> {
    let k = field_index(b, name);
    if k >= 0 {
        b.update(k, (name, join(b[k].1, actual)))
    } else {
        b.push((name, actual))
    }
}

/// Whether no type parameter is bound twice, as keys of a map are not.
pub open spec fn bindings_distinct(b: Seq<(Seq<char>, Ty)>) -> bool {
    forall|i: int, j: int| 0 <= i < j < b.len() ==> (#[trigger] b[i]).0 != (#[trigger] b[j]).0
}

/// Binding a name keeps each name bound once: bindings start empty and
/// only grow by `bind`, so they hold each type parameter at most once.
pub proof fn law_binding_keeps_names_distinct(b: Seq<(Seq<char>, Ty)>, name: Seq<char>, actual: Ty)
    requires
        bindings_distinct(b),
    ensures
        bindings_distinct(bind(b, name, actual)),
        field_index(bind(b, name, actual), name) >= 0,
{
    crate::overload::lemma_field_index(b, name);
    let r = bind(b, name, actual);
    let k = field_index(b, name);
    if k >= 0 {
        assert forall|i: int, j: int| 0 <= i < j < r.len() implies (#[trigger] r[i]).0 != (#[trigger] r[j]).0 by {
            assert(r[i].0 == b[i].0 && r[j].0 == b[j].0);
        }
    } else {
        assert forall|i: int, j: int| 0 <= i < j < r.len() implies (#[trigger] r[i]).0 != (#[trigger] r[j]).0 by {
            if j < b.len() {
                assert(r[i] == b[i] && r[j] == b[j]);
            } else {
                assert(r[i] == b[i]);
            }
        }
    }
    crate::overload::lemma_field_index(r, name);
    if field_index(r, name) < 0 {
        if k >= 0 {
            assert(r[k].0 == name);
        } else {
            assert(r[b.len() as int].0 == name);
        }
    }
}

/// Whether `name` is a generic parameter of the signature being specialised.
pub open spec fn binds(name: Seq<char>, hs: Seq<Seq<char>>, gs: Seq<Seq<char>>) -> bool {
    gs.contains(name) && is_generic(name, hs)
}

/// Extends the bindings `b` by matching a parameter type `e` against an
/// argument type `a`: a generic name binds to the argument, containers match
/// element-wise, and a union or ambiguity set on either side matches member
/// by member.
pub open spec fn infer_bindings(
    e: Ty,
    a: Ty,
    hs: Seq<Seq<char>>,
    gs: Seq<Seq<char>>,
    b: Seq<(Seq<char>, Ty)>,
) -> Seq<(Seq<char>, Ty)>
    decreases ty_size(e) + ty_size(a),
{
    match e {
        Ty::Named(n) => if binds(n, hs, gs) {
            bind(b, n, a)
        } else {
            b
        },
        Ty::Union(items) => infer_each_expected(items, a, hs, gs, b),
        Ty::Ambiguous(items) => infer_each_expected(items, a, hs, gs, b),
        _ => if a is Union {
            match e {
                Ty::Array(_) | Ty::Dict(_, _) | Ty::Nullable(_) | Ty::Applied(_, _) | Ty::Object(_)
                | Ty::Function(_, _) => infer_each_actual(e, a->Union_0, hs, gs, b),
                _ => b,
            }
        } else if a is Ambiguous {
            match e {
                Ty::Array(_) | Ty::Dict(_, _) | Ty::Nullable(_) | Ty::Applied(_, _) | Ty::Object(_)
                | Ty::Function(_, _) => infer_each_actual(e, a->Ambiguous_0, hs, gs, b),
                _ => b,
            }
        } else {
            match (e, a) {
                (Ty::Array(x), Ty::Array(y)) => infer_bindings(*x, *y, hs, gs, b),
                (Ty::Dict(ek, ev), Ty::Dict(ak, av)) => infer_bindings(
                    *ev,
                    *av,
                    hs,
                    gs,
                    infer_bindings(*ek, *ak, hs, gs, b),
                ),
                (Ty::Nullable(x), Ty::Nullable(y)) => infer_bindings(*x, *y, hs, gs, b),
                (Ty::Nullable(x), _) => infer_bindings(*x, a, hs, gs, b),
                (Ty::Applied(en, ea), Ty::Applied(an, aa)) => if en == an && ea.len() == aa.len() {
                    infer_zip(ea, aa, hs, gs, b)
                } else {
                    b
                },
                (Ty::Object(ef), Ty::Object(af)) => infer_fields(ef, af, hs, gs, b),
                (Ty::Function(ep, er), Ty::Function(ap, ar)) => if ep.len() == ap.len() {
                    infer_bindings(*er, *ar, hs, gs, infer_zip(ep, ap, hs, gs, b))
                } else {
                    b
                },
                _ => b,
            }
        }
    }
}

/// `infer_bindings` of one parameter type against each member of an argument union, in order.
pub open spec fn infer_each_actual(
    e: Ty,
    items: Seq<Ty>,
    hs: Seq<Seq<char>>,
    gs: Seq<Seq<char>>,
    b: Seq<(Seq<char>, Ty)>,
) -> Seq<(Seq<char>, Ty)>
    decreases ty_size(e) + tys_size(items),
{
    if items.len() == 0 {
        b
    } else {
        infer_each_actual(e, items.drop_first(), hs, gs, infer_bindings(e, items[0], hs, gs, b))
    }
}

/// `infer_bindings` of each member of a parameter union against one argument type, in order.
pub open spec fn infer_each_expected(
    items: Seq<Ty>,
    a: Ty,
    hs: Seq<Seq<char>>,
    gs: Seq<Seq<char>>,
    b: Seq<(Seq<char>, Ty)>,
) -> Seq<(Seq<char>, Ty)>
    decreases tys_size(items) + ty_size(a),
{
    if items.len() == 0 {
        b
    } else {
        infer_each_expected(items.drop_first(), a, hs, gs, infer_bindings(items[0], a, hs, gs, b))
    }
}

/// `infer_bindings` pointwise over two type lists, up to the shorter length.
pub open spec fn infer_zip(
    es: Seq<Ty>,
    as_: Seq<Ty>,
    hs: Seq<Seq<char>>,
    gs: Seq<Seq<char>>,
    b: Seq<(Seq<char>, Ty)>,
) -> Seq<(Seq<char>, Ty)>
    decreases tys_size(es) + tys_size(as_),
{
    if es.len() == 0 || as_.len() == 0 {
        b
    } else {
        infer_zip(es.drop_first(), as_.drop_first(), hs, gs, infer_bindings(es[0], as_[0], hs, gs, b))
    }
}

/// `infer_bindings` of each parameter field against the argument's field of
/// the same name, when it has one.
pub open spec fn infer_fields(
    ef: Seq<(Seq<char>, Ty)>,
    af: Seq<(Seq<char>, Ty)>,
    hs: Seq<Seq<char>>,
    gs: Seq<Seq<char>>,
    b: Seq<(Seq<char>, Ty)>,
) -> Seq<(Seq<char>, Ty)>
    decreases fields_size(ef) + fields_size(af),
{
    if ef.len() == 0 {
        b
    } else {
        let k = field_index(af, ef[0].0);
        proof {
            lemma_field_index(af, ef[0].0);
            if k >= 0 {
                lemma_fields_size_elem(af, k);
            }
        }
        let b2 = if k >= 0 {
            infer_bindings(ef[0].1, af[k].1, hs, gs, b)
        } else {
            b
        };
        infer_fields(ef.drop_first(), af, hs, gs, b2)
    }
}

/// Binds a receiver's generic parameters from the type arguments of the
/// receiver's applied type, looking through nullability and unions.
pub open spec fn receiver_bindings(
    params: Seq<Seq<char>>,
    recv: Ty,
    gs: Seq<Seq<char>>,
    b: Seq<(Seq<char>, Ty)>,
) -> Seq<(Seq<char>, Ty)>
    decreases recv,
{
    match recv {
        Ty::Applied(_, args) => if args.len() == params.len() {
            bind_params(params, args, gs, b, 0)
        } else {
            b
        },
        Ty::Nullable(x) => receiver_bindings(params, *x, gs, b),
        Ty::Union(items) => receiver_bindings_each(params, items, gs, b),
        Ty::Ambiguous(items) => receiver_bindings_each(params, items, gs, b),
        _ => b,
    }
}

/// `receiver_bindings` over each member of a union, in order.
pub open spec fn receiver_bindings_each(
    params: Seq<Seq<char>>,
    items: Seq<Ty>,
    gs: Seq<Seq<char>>,
    b: Seq<(Seq<char>, Ty)>,
) -> Seq<(Seq<char>, Ty)>
    decreases items,
{
    if items.len() == 0 {
        b
    } else {
        receiver_bindings_each(params, items.drop_first(), gs, receiver_bindings(params, items[0], gs, b))
    }
}

/// Binds `params[i]` to `args[i]` from `i` on, for the parameters that are generic names of the signature.
pub open spec fn bind_params(
    params: Seq<Seq<char>>,
    args: Seq<Ty>,
    gs: Seq<Seq<char>>,
    b: Seq<(Seq<char>, Ty)>,
    i: int,
) -> Seq<(Seq<char>, Ty)>
    decreases params.len() - i,
{
    if i < 0 || i >= params.len() || i >= args.len() {
        b
    } else {
        let b2 = if gs.contains(params[i]) {
            bind(b, params[i], args[i])
        } else {
            b
        };
        bind_params(params, args, gs, b2, i + 1)
    }
}

/// Substitutes the bindings for the generic names of the signature in `t`.
pub open spec fn apply_bindings(t: Ty, hs: Seq<Seq<char>>, gs: Seq<Seq<char>>, b: Seq<(Seq<char>, Ty)>) -> Ty
    decreases t,
{
    match t {
        Ty::Named(n) => if binds(n, hs, gs) && field_index(b, n) >= 0 {
            b[field_index(b, n)].1
        } else {
            t
        },
        Ty::Applied(n, args) => Ty::Applied(n, apply_all(args, hs, gs, b)),
        Ty::Object(fs) => Ty::Object(apply_fields(fs, hs, gs, b)),
        Ty::Array(x) => Ty::Array(Box::new(apply_bindings(*x, hs, gs, b))),
        Ty::Dict(k, v) => Ty::Dict(
            Box::new(apply_bindings(*k, hs, gs, b)),
            Box::new(apply_bindings(*v, hs, gs, b)),
        ),
        Ty::Nullable(x) => Ty::Nullable(Box::new(apply_bindings(*x, hs, gs, b))),
        Ty::Union(xs) => Ty::Union(apply_all(xs, hs, gs, b)),
        Ty::Ambiguous(xs) => Ty::Ambiguous(apply_all(xs, hs, gs, b)),
        Ty::Function(ps, r) => Ty::Function(
            apply_all(ps, hs, gs, b),
            Box::new(apply_bindings(*r, hs, gs, b)),
        ),
        _ => t,
    }
}

/// `apply_bindings` over each type of a list.
pub open spec fn apply_all(xs: Seq<Ty>, hs: Seq<Seq<char>>, gs: Seq<Seq<char>>, b: Seq<(Seq<char>, Ty)>) -> Seq<Ty>
    decreases xs,
{
    if xs.len() == 0 {
        Seq::empty()
    } else {
        seq![apply_bindings(xs[0], hs, gs, b)] + apply_all(xs.drop_first(), hs, gs, b)
    }
}

/// `apply_bindings` over each field type of a list, keeping the names.
pub open spec fn apply_fields(
    fs: Seq<(Seq<char>, Ty)>,
    hs: Seq<Seq<char>>,
    gs: Seq<Seq<char>>,
    b: Seq<(Seq<char>, Ty)>,
) -> Seq<(Seq<char>, Ty)>
    decreases fs,
{
    if fs.len() == 0 {
        Seq::empty()
    } else {
        seq![(fs[0].0, apply_bindings(fs[0].1, hs, gs, b))] + apply_fields(fs.drop_first(), hs, gs, b)
    }
}

/// The argument types that are known, in order.
pub open spec fn known_args(args: Seq<Option<Ty>>) -> Seq<Ty>
    decreases args.len(),
{
    if args.len() == 0 {
        Seq::empty()
    } else {
        let rest = known_args(args.drop_first());
        match args[0] {
            Some(t) => seq![t] + rest,
            None => rest,
        }
    }
}

proof fn lemma_apply_nothing(t: Ty, hs: Seq<Seq<char>>, gs: Seq<Seq<char>>)
    ensures
        apply_bindings(t, hs, gs, Seq::empty()) == t,
    decreases t,
{
    match t {
        Ty::Applied(n, args) => {
            lemma_apply_all_nothing(args, hs, gs);
        },
        Ty::Object(fs) => {
            lemma_apply_fields_nothing(fs, hs, gs);
        },
        Ty::Array(x) => {
            lemma_apply_nothing(*x, hs, gs);
        },
        Ty::Dict(k, v) => {
            lemma_apply_nothing(*k, hs, gs);
            lemma_apply_nothing(*v, hs, gs);
        },
        Ty::Nullable(x) => {
            lemma_apply_nothing(*x, hs, gs);
        },
        Ty::Union(xs) => {
            lemma_apply_all_nothing(xs, hs, gs);
        },
        Ty::Ambiguous(xs) => {
            lemma_apply_all_nothing(xs, hs, gs);
        },
        Ty::Function(ps, r) => {
            lemma_apply_all_nothing(ps, hs, gs);
            lemma_apply_nothing(*r, hs, gs);
        },
        _ => {},
    }
}

proof fn lemma_apply_all_nothing(xs: Seq<Ty>, hs: Seq<Seq<char>>, gs: Seq<Seq<char>>)
    ensures
        apply_all(xs, hs, gs, Seq::empty()) == xs,
    decreases xs,
{
    if xs.len() > 0 {
        lemma_apply_nothing(xs[0], hs, gs);
        lemma_apply_all_nothing(xs.drop_first(), hs, gs);
        assert(xs =~= seq![xs[0]] + xs.drop_first());
    } else {
        assert(xs =~= Seq::<Ty>::empty());
    }
}

proof fn lemma_apply_fields_nothing(fs: Seq<(Seq<char>, Ty)>, hs: Seq<Seq<char>>, gs: Seq<Seq<char>>)
    ensures
        apply_fields(fs, hs, gs, Seq::empty()) == fs,
    decreases fs,
{
    if fs.len() > 0 {
        lemma_apply_nothing(fs[0].1, hs, gs);
        lemma_apply_fields_nothing(fs.drop_first(), hs, gs);
        assert(fs =~= seq![(fs[0].0, fs[0].1)] + fs.drop_first());
    } else {
        assert(fs =~= Seq::<(Seq<char>, Ty)>::empty());
    }
}

/// With no receiver and no argument types nothing is bound, and the
/// signature comes back unchanged.
pub proof fn law_nothing_to_bind_leaves_the_signature(ps: Seq<Ty>, r: Ty, recv_params: Seq<Seq<char>>, hs: Seq<Seq<char>>)
    ensures
        specialize(ps, r, None, recv_params, None, hs) == (ps, r),
{
    let gs = signature_generic_names(ps, r, hs);
    lemma_apply_all_nothing(ps, hs, gs);
    lemma_apply_nothing(r, hs, gs);
}

/// A signature specialised to a receiver type and argument types: the
/// signature itself when it mentions no generic names; otherwise its generic
/// names are bound from the receiver's type arguments and then from the known
/// argument types paired in order with the parameters, and the bindings are
/// substituted.
pub open spec fn specialize(
    ps: Seq<Ty>,
    r: Ty,
    recv: Option<Ty>,
    recv_params: Seq<Seq<char>>,
    args: Option<Seq<Option<Ty>>>,
    hs: Seq<Seq<char>>,
) -> (Seq<Ty>, Ty) {
    let gs = signature_generic_names(ps, r, hs);
    if gs.len() == 0 {
        (ps, r)
    } else {
        let b0 = match recv {
            Some(t) => receiver_bindings(recv_params, t, gs, Seq::empty()),
            None => Seq::empty(),
        };
        let b = match args {
            Some(a) => infer_zip(ps, known_args(a), hs, gs, b0),
            None => b0,
        };
        (apply_all(ps, hs, gs, b), apply_bindings(r, hs, gs, b))
    }
}

} // verus!

verus! {

/// A type parameter bound to a type.
pub struct TypeBinding {
    pub name: String,
    pub ty: TypeRef,
}

/// The model of a binding list: names and bound types.
pub open spec fn binding_views(bs: Seq<TypeBinding>) -> Seq<(Seq<char>, Ty)> {
    Seq::new(bs.len(), |i: int| (bs[i].name@, bs[i].ty@))
}

/// The models of a list of names.
pub open spec fn name_views(ns: Seq<String>) -> Seq<Seq<char>> {
    Seq::new(ns.len(), |i: int| ns[i]@)
}

/// Whether two strings have the same characters.
pub fn str_eq(a: &str, b: &str) -> (r: bool)
    ensures
        r == (a@ == b@),
{
    let x = crate::text::chars_of(a);
    let y = crate::text::chars_of(b);
    if x.len() != y.len() {
        assert(x@.len() != y@.len());
        return false;
    }
    let mut i: usize = 0;
    while i < x.len()
        invariant
            0 <= i <= x.len(),
            x.len() == y.len(),
            x@ == a@,
            y@ == b@,
            forall|j: int| 0 <= j < i ==> x@[j] == y@[j],
        decreases x.len() - i,
    {
        if x[i] != y[i] {
            assert(x@[i as int] != y@[i as int]);
            return false;
        }
        i += 1;
    }
    assert(x@ =~= y@);
    true
}

pub(crate) fn contains_name(ns: &[String], name: &str) -> (r: bool)
    ensures
        r == name_views(ns@).contains(name@),
{
    let mut i: usize = 0;
    while i < ns.len()
        invariant
            0 <= i <= ns.len(),
            forall|j: int| 0 <= j < i ==> name_views(ns@)[j] != name@,
        decreases ns.len() - i,
    {
        if str_eq(ns[i].as_str(), name) {
            assert(name_views(ns@)[i as int] == name@);
            return true;
        }
        i += 1;
    }
    false
}

fn is_builtin_type_name(name: &str) -> (r: bool)
    ensures
        r == builtin_type_names().contains(name@),
{
    let names: [&str; 16] = [
        "bool",
        "int",
        "float",
        "decimal",
        "string",
        "char",
        "blob",
        "timestamp",
        "Fn",
        "FnPtr",
        "Dynamic",
        "range",
        "range=",
        "unknown",
        "any",
        "never",
    ];
    let ghost nv = Seq::new(16, |i: int| names@[i]@);
    assert(nv =~= builtin_type_names());
    let mut i: usize = 0;
    while i < 16
        invariant
            0 <= i <= 16,
            nv == builtin_type_names(),
            nv == Seq::new(16, |i: int| names@[i]@),
            forall|j: int| 0 <= j < i ==> nv[j] != name@,
        decreases 16 - i,
    {
        if str_eq(names[i], name) {
            assert(nv[i as int] == name@);
            return true;
        }
        i += 1;
    }
    false
}

/// Whether `name` is a generic type parameter: it names neither a host type
/// nor a built-in type.
pub fn is_generic_type_parameter(name: &str, host_types: &[HostType]) -> (r: bool)
    ensures
        r == is_generic(name@, host_names(host_types@)),
{
    let ghost hs = host_names(host_types@);
    let mut i: usize = 0;
    while i < host_types.len()
        invariant
            0 <= i <= host_types.len(),
            hs == host_names(host_types@),
            forall|j: int| 0 <= j < i ==> hs[j] != name@,
        decreases host_types.len() - i,
    {
        if str_eq(host_types[i].name.as_str(), name) {
            assert(hs[i as int] == name@);
            return false;
        }
        i += 1;
    }
    assert(!hs.contains(name@));
    !is_builtin_type_name(name)
}

} // verus!

verus! {

/// Appends to `names` the generic parameter names that `ty` mentions, as
/// `collect_names` states.
#[verifier::loop_isolation(false)]
pub fn collect_type_generic_names(ty: &TypeRef, host_types: &[HostType], names: &mut Vec<String>)
    ensures
        name_views(final(names)@) == collect_names(ty@, host_names(host_types@), name_views(old(names)@)),
    decreases ty,
{
    let ghost hs = host_names(host_types@);
    proof {
        lemma_model_unfold(*ty);
    }
    match ty {
        TypeRef::Named(name) => {
            if is_generic_type_parameter(name.as_str(), host_types) && !contains_name(names.as_slice(), name.as_str()) {
                let ghost before = name_views(names@);
                names.push(name.clone());
                assert(name_views(names@) =~= before.push(name@));
            }
        },
        TypeRef::Applied { args: items, .. } | TypeRef::Union(items) | TypeRef::Ambiguous(items) => {
            let ghost iv = views(items@);
            let ghost ns0 = name_views(names@);
            let mut i: usize = 0;
            assert(iv.skip(0) =~= iv);
            while i < items.len()
                invariant
                    0 <= i <= items.len(),
                    iv == views(items@),
                    collect_names_all(iv.skip(i as int), hs, name_views(names@)) == collect_names_all(iv, hs, ns0),
                decreases items.len() - i,
            {
                proof {
                    lemma_skip_first(iv, i as int);
                    assert(decreases_to!(*ty => items@[i as int]));
                }
                collect_type_generic_names(&items[i], host_types, names);
                i += 1;
            }
            assert(iv.skip(i as int).len() == 0);
        },
        TypeRef::Array(x) | TypeRef::Nullable(x) => collect_type_generic_names(x, host_types, names),
        TypeRef::Dict(k, v) => {
            collect_type_generic_names(k, host_types, names);
            collect_type_generic_names(v, host_types, names);
        },
        TypeRef::Object(fs) => {
            let ghost fv = field_views(fs@);
            let ghost ns0 = name_views(names@);
            let mut i: usize = 0;
            assert(fv.skip(0) =~= fv);
            while i < fs.len()
                invariant
                    0 <= i <= fs.len(),
                    fv == field_views(fs@),
                    collect_names_fields(fv.skip(i as int), hs, name_views(names@)) == collect_names_fields(fv, hs, ns0),
                decreases fs.len() - i,
            {
                proof {
                    lemma_skip_first(fv, i as int);
                    assert(decreases_to!(*ty => fs));
                    assert(decreases_to!(fs => fs@));
                    assert(decreases_to!(fs@ => fs@[i as int]));
                    assert(decreases_to!(fs@[i as int] => fs@[i as int].ty));
                }
                collect_type_generic_names(&fs[i].ty, host_types, names);
                i += 1;
            }
            assert(fv.skip(i as int).len() == 0);
        },
        TypeRef::Function(f) => {
            let ghost iv = views(f.params@);
            let ghost ns0 = name_views(names@);
            let mut i: usize = 0;
            assert(iv.skip(0) =~= iv);
            while i < f.params.len()
                invariant
                    0 <= i <= f.params.len(),
                    iv == views(f.params@),
                    collect_names_all(iv.skip(i as int), hs, name_views(names@)) == collect_names_all(iv, hs, ns0),
                decreases f.params.len() - i,
            {
                proof {
                    lemma_skip_first(iv, i as int);
                    assert(decreases_to!(*ty => f.params@[i as int]));
                }
                collect_type_generic_names(&f.params[i], host_types, names);
                i += 1;
            }
            assert(iv.skip(i as int).len() == 0);
            collect_type_generic_names(&f.ret, host_types, names);
        },
        _ => {},
    }
}

/// The generic parameter names of a signature, as `signature_generic_names` states.
pub fn collect_signature_generic_names(signature: &FunctionTypeRef, host_types: &[HostType]) -> (r: Vec<String>)
    ensures
        name_views(r@) == signature_generic_names(signature.sig().0, signature.sig().1, host_names(host_types@)),
{
    let ghost hs = host_names(host_types@);
    let ghost iv = views(signature.params@);
    let mut names: Vec<String> = Vec::new();
    let mut i: usize = 0;
    assert(iv.skip(0) =~= iv);
    assert(name_views(names@) =~= Seq::<Seq<char>>::empty());
    while i < signature.params.len()
        invariant
            0 <= i <= signature.params.len(),
            iv == views(signature.params@),
            hs == host_names(host_types@),
            collect_names_all(iv.skip(i as int), hs, name_views(names@)) == collect_names_all(iv, hs, Seq::empty()),
        decreases signature.params.len() - i,
    {
        proof {
            lemma_skip_first(iv, i as int);
        }
        collect_type_generic_names(&signature.params[i], host_types, &mut names);
        i += 1;
    }
    assert(iv.skip(i as int).len() == 0);
    collect_type_generic_names(&signature.ret, host_types, &mut names);
    names
}

fn binding_index(bs: &Vec<TypeBinding>, name: &str) -> (r: Option<usize>)
    ensures
        match r {
            Some(k) => k as int == field_index(binding_views(bs@), name@) && k < bs.len(),
            None => field_index(binding_views(bs@), name@) < 0,
        },
{
    let ghost bv = binding_views(bs@);
    proof {
        lemma_field_index(bv, name@);
    }
    let mut i: usize = 0;
    while i < bs.len()
        invariant
            0 <= i <= bs.len(),
            bv == binding_views(bs@),
            -1 <= field_index(bv, name@) < bv.len(),
            field_index(bv, name@) >= 0 ==> bv[field_index(bv, name@)].0 == name@,
            forall|j: int| 0 <= j < i ==> #[trigger] bv[j].0 != name@,
        decreases bs.len() - i,
    {
        if str_eq(bs[i].name.as_str(), name) {
            proof {
                let k = field_index(bv, name@);
                if k < 0 || k > i {
                    lemma_field_index(bv, name@);
                    assert(bv[i as int].0 != name@);
                }
            }
            return Some(i);
        }
        i += 1;
    }
    proof {
        let k = field_index(bv, name@);
        if k >= 0 {
            assert(bv[k].0 != name@);
        }
    }
    None
}

/// Binds `name` to `actual`, joining with an earlier binding of the same
/// name, as `bind` states.
pub fn bind_type_parameter(bindings: &mut Vec<TypeBinding>, name: &str, actual: TypeRef)
    ensures
        binding_views(final(bindings)@) == bind(binding_views(old(bindings)@), name@, actual@),
        bindings_distinct(binding_views(old(bindings)@)) ==> bindings_distinct(binding_views(final(bindings)@)),
{
    proof {
        if bindings_distinct(binding_views(bindings@)) {
            law_binding_keeps_names_distinct(binding_views(bindings@), name@, actual@);
        }
    }
    let ghost before = binding_views(bindings@);
    match binding_index(bindings, name) {
        Some(k) => {
            let next = crate::lattice::join_types(&bindings[k].ty, &actual);
            bindings.set(k, TypeBinding { name: name.to_owned(), ty: next });
            assert(binding_views(bindings@) =~= before.update(k as int, (name@, join(before[k as int].1, actual@))));
        },
        None => {
            bindings.push(TypeBinding { name: name.to_owned(), ty: actual });
            assert(binding_views(bindings@) =~= before.push((name@, actual@)));
        },
    }
}

fn binds_exec(name: &str, host_types: &[HostType], generic_names: &[String]) -> (r: bool)
    ensures
        r == binds(name@, host_names(host_types@), name_views(generic_names@)),
{
    contains_name(generic_names, name) && is_generic_type_parameter(name, host_types)
}

} // verus!

verus! {

fn is_structural(t: &TypeRef) -> (r: bool)
    ensures
        r == (t@ is Array || t@ is Dict || t@ is Nullable || t@ is Applied || t@ is Object
            || t@ is Function),
{
    match t {
        TypeRef::Array(_) | TypeRef::Dict(_, _) | TypeRef::Nullable(_) | TypeRef::Applied { .. }
        | TypeRef::Object(_) | TypeRef::Function(_) => true,
        _ => false,
    }
}

/// `infer_bindings` pointwise over two type lists, as `infer_zip` states.
pub fn infer_zip_bindings(
    es: &Vec<TypeRef>,
    as_: &Vec<TypeRef>,
    host_types: &[HostType],
    generic_names: &[String],
    bindings: &mut Vec<TypeBinding>,
)
    ensures
        binding_views(final(bindings)@) == infer_zip(
            views(es@),
            views(as_@),
            host_names(host_types@),
            name_views(generic_names@),
            binding_views(old(bindings)@),
        ),
    decreases tys_size(views(es@)) + tys_size(views(as_@)),
{
    let ghost hs = host_names(host_types@);
    let ghost gs = name_views(generic_names@);
    let ghost ev = views(es@);
    let ghost av = views(as_@);
    let ghost b0 = binding_views(bindings@);
    let mut i: usize = 0;
    assert(ev.skip(0) =~= ev);
    assert(av.skip(0) =~= av);
    while i < es.len() && i < as_.len()
        invariant
            0 <= i <= es.len(),
            i <= as_.len(),
            ev == views(es@),
            av == views(as_@),
            hs == host_names(host_types@),
            gs == name_views(generic_names@),
            infer_zip(ev.skip(i as int), av.skip(i as int), hs, gs, binding_views(bindings@)) == infer_zip(
                ev,
                av,
                hs,
                gs,
                b0,
            ),
        decreases es.len() - i,
    {
        proof {
            lemma_skip_first(ev, i as int);
            lemma_skip_first(av, i as int);
            lemma_tys_size_elem(ev, i as int);
            lemma_tys_size_elem(av, i as int);
        }
        infer_type_bindings(&es[i], &as_[i], host_types, generic_names, bindings);
        i += 1;
    }
    assert(ev.skip(i as int).len() == 0 || av.skip(i as int).len() == 0);
}

/// `infer_bindings` over same-named fields, as `infer_fields` states.
pub fn infer_field_bindings(
    ef: &Vec<ObjectField>,
    af: &Vec<ObjectField>,
    host_types: &[HostType],
    generic_names: &[String],
    bindings: &mut Vec<TypeBinding>,
)
    ensures
        binding_views(final(bindings)@) == infer_fields(
            field_views(ef@),
            field_views(af@),
            host_names(host_types@),
            name_views(generic_names@),
            binding_views(old(bindings)@),
        ),
    decreases fields_size(field_views(ef@)) + fields_size(field_views(af@)),
{
    let ghost hs = host_names(host_types@);
    let ghost gs = name_views(generic_names@);
    let ghost ev = field_views(ef@);
    let ghost av = field_views(af@);
    let ghost b0 = binding_views(bindings@);
    let mut i: usize = 0;
    assert(ev.skip(0) =~= ev);
    while i < ef.len()
        invariant
            0 <= i <= ef.len(),
            ev == field_views(ef@),
            av == field_views(af@),
            hs == host_names(host_types@),
            gs == name_views(generic_names@),
            infer_fields(ev.skip(i as int), av, hs, gs, binding_views(bindings@)) == infer_fields(
                ev,
                av,
                hs,
                gs,
                b0,
            ),
        decreases ef.len() - i,
    {
        proof {
            lemma_skip_first(ev, i as int);
            lemma_fields_size_elem(ev, i as int);
        }
        match crate::overload::field_index_exec(af, ef[i].name.as_str()) {
            Some(k) => {
                proof {
                    lemma_fields_size_elem(av, k as int);
                }
                infer_type_bindings(&ef[i].ty, &af[k].ty, host_types, generic_names, bindings);
            },
            None => {},
        }
        i += 1;
    }
    assert(ev.skip(i as int).len() == 0);
}

/// Extends the bindings by matching a parameter type against an argument
/// type, as `infer_bindings` states.
#[verifier::loop_isolation(false)]
pub fn infer_type_bindings(
    expected: &TypeRef,
    actual: &TypeRef,
    host_types: &[HostType],
    generic_names: &[String],
    bindings: &mut Vec<TypeBinding>,
)
    ensures
        binding_views(final(bindings)@) == infer_bindings(
            expected@,
            actual@,
            host_names(host_types@),
            name_views(generic_names@),
            binding_views(old(bindings)@),
        ),
    decreases ty_size(expected@) + ty_size(actual@),
{
    let ghost hs = host_names(host_types@);
    let ghost gs = name_views(generic_names@);
    let ghost b0 = binding_views(bindings@);
    proof {
        lemma_model_unfold(*expected);
        lemma_model_unfold(*actual);
    }
    match expected {
        TypeRef::Named(name) => {
            if binds_exec(name.as_str(), host_types, generic_names) {
                bind_type_parameter(bindings, name.as_str(), crate::ty::clone_type(actual));
            }
            return;
        },
        TypeRef::Union(items) | TypeRef::Ambiguous(items) => {
            let ghost iv = views(items@);
            let mut i: usize = 0;
            assert(iv.skip(0) =~= iv);
            while i < items.len()
                invariant
                    0 <= i <= items.len(),
                    iv == views(items@),
                    infer_each_expected(iv.skip(i as int), actual@, hs, gs, binding_views(bindings@))
                        == infer_each_expected(iv, actual@, hs, gs, b0),
                decreases items.len() - i,
            {
                proof {
                    lemma_skip_first(iv, i as int);
                    lemma_tys_size_elem(iv, i as int);
                }
                infer_type_bindings(&items[i], actual, host_types, generic_names, bindings);
                i += 1;
            }
            assert(iv.skip(i as int).len() == 0);
            return;
        },
        _ => {},
    }
    match actual {
        TypeRef::Union(items) | TypeRef::Ambiguous(items) => {
            if is_structural(expected) {
                let ghost iv = views(items@);
                let mut i: usize = 0;
                assert(iv.skip(0) =~= iv);
                while i < items.len()
                    invariant
                        0 <= i <= items.len(),
                        iv == views(items@),
                        infer_each_actual(expected@, iv.skip(i as int), hs, gs, binding_views(bindings@))
                            == infer_each_actual(expected@, iv, hs, gs, b0),
                    decreases items.len() - i,
                {
                    proof {
                        lemma_skip_first(iv, i as int);
                        lemma_tys_size_elem(iv, i as int);
                    }
                    infer_type_bindings(expected, &items[i], host_types, generic_names, bindings);
                    i += 1;
                }
                assert(iv.skip(i as int).len() == 0);
            }
            return;
        },
        _ => {},
    }
    match (expected, actual) {
        (TypeRef::Array(x), TypeRef::Array(y)) => infer_type_bindings(
            x,
            y,
            host_types,
            generic_names,
            bindings,
        ),
        (TypeRef::Dict(ek, ev), TypeRef::Dict(ak, av)) => {
            infer_type_bindings(ek, ak, host_types, generic_names, bindings);
            infer_type_bindings(ev, av, host_types, generic_names, bindings);
        },
        (TypeRef::Nullable(x), TypeRef::Nullable(y)) => infer_type_bindings(
            x,
            y,
            host_types,
            generic_names,
            bindings,
        ),
        (TypeRef::Nullable(x), _) => infer_type_bindings(x, actual, host_types, generic_names, bindings),
        (TypeRef::Applied { name: en, args: ea }, TypeRef::Applied { name: an, args: aa }) => {
            if *en == *an && ea.len() == aa.len() {
                infer_zip_bindings(ea, aa, host_types, generic_names, bindings);
            }
        },
        (TypeRef::Object(ef), TypeRef::Object(af)) => infer_field_bindings(
            ef,
            af,
            host_types,
            generic_names,
            bindings,
        ),
        (TypeRef::Function(f), TypeRef::Function(g)) => {
            if f.params.len() == g.params.len() {
                infer_zip_bindings(&f.params, &g.params, host_types, generic_names, bindings);
                infer_type_bindings(&f.ret, &g.ret, host_types, generic_names, bindings);
            }
        },
        _ => {},
    }
}

} // verus!

verus! {

/// Substitutes the bindings over each type of a list, as `apply_all` states.
pub fn apply_bindings_to_types(
    xs: &Vec<TypeRef>,
    host_types: &[HostType],
    generic_names: &[String],
    bindings: &Vec<TypeBinding>,
) -> (r: Vec<TypeRef>)
    ensures
        views(r@) == apply_all(
            views(xs@),
            host_names(host_types@),
            name_views(generic_names@),
            binding_views(bindings@),
        ),
    decreases xs,
{
    let ghost hs = host_names(host_types@);
    let ghost gs = name_views(generic_names@);
    let ghost bv = binding_views(bindings@);
    let ghost xv = views(xs@);
    let mut out: Vec<TypeRef> = Vec::new();
    let mut i: usize = 0;
    assert(xv.skip(0) =~= xv);
    assert(views(out@) =~= Seq::<Ty>::empty());
    while i < xs.len()
        invariant
            0 <= i <= xs.len(),
            xv == views(xs@),
            hs == host_names(host_types@),
            gs == name_views(generic_names@),
            bv == binding_views(bindings@),
            views(out@) + apply_all(xv.skip(i as int), hs, gs, bv) == apply_all(xv, hs, gs, bv),
        decreases xs.len() - i,
    {
        proof {
            lemma_skip_first(xv, i as int);
            assert(decreases_to!(xs => xs@[i as int]));
        }
        let ghost before = views(out@);
        let t = apply_bindings_to_type(&xs[i], host_types, generic_names, bindings);
        out.push(t);
        assert(views(out@) =~= before + seq![apply_bindings(xv[i as int], hs, gs, bv)]);
        i += 1;
    }
    assert(xv.skip(i as int).len() == 0);
    assert(views(out@) =~= apply_all(xv, hs, gs, bv));
    out
}

/// Substitutes the bindings over each field type of a list, as `apply_fields` states.
pub fn apply_bindings_to_fields(
    fs: &Vec<ObjectField>,
    host_types: &[HostType],
    generic_names: &[String],
    bindings: &Vec<TypeBinding>,
) -> (r: Vec<ObjectField>)
    ensures
        field_views(r@) == apply_fields(
            field_views(fs@),
            host_names(host_types@),
            name_views(generic_names@),
            binding_views(bindings@),
        ),
    decreases fs,
{
    let ghost hs = host_names(host_types@);
    let ghost gs = name_views(generic_names@);
    let ghost bv = binding_views(bindings@);
    let ghost fv = field_views(fs@);
    let mut out: Vec<ObjectField> = Vec::new();
    let mut i: usize = 0;
    assert(fv.skip(0) =~= fv);
    assert(field_views(out@) =~= Seq::<(Seq<char>, Ty)>::empty());
    while i < fs.len()
        invariant
            0 <= i <= fs.len(),
            fv == field_views(fs@),
            hs == host_names(host_types@),
            gs == name_views(generic_names@),
            bv == binding_views(bindings@),
            field_views(out@) + apply_fields(fv.skip(i as int), hs, gs, bv) == apply_fields(fv, hs, gs, bv),
        decreases fs.len() - i,
    {
        proof {
            lemma_skip_first(fv, i as int);
            assert(decreases_to!(fs => fs@));
            assert(decreases_to!(fs@ => fs@[i as int]));
            assert(decreases_to!(fs@[i as int] => fs@[i as int].ty));
        }
        let ghost before = field_views(out@);
        let t = apply_bindings_to_type(&fs[i].ty, host_types, generic_names, bindings);
        out.push(ObjectField { name: fs[i].name.clone(), ty: t });
        assert(field_views(out@) =~= before + seq![(fv[i as int].0, apply_bindings(fv[i as int].1, hs, gs, bv))]);
        i += 1;
    }
    assert(fv.skip(i as int).len() == 0);
    assert(field_views(out@) =~= apply_fields(fv, hs, gs, bv));
    out
}

/// Substitutes the bindings for the generic names of the signature in a
/// type, as `apply_bindings` states.
pub fn apply_bindings_to_type(
    ty: &TypeRef,
    host_types: &[HostType],
    generic_names: &[String],
    bindings: &Vec<TypeBinding>,
) -> (r: TypeRef)
    ensures
        r@ == apply_bindings(
            ty@,
            host_names(host_types@),
            name_views(generic_names@),
            binding_views(bindings@),
        ),
    decreases ty,
{
    proof {
        lemma_model_unfold(*ty);
    }
    let r = match ty {
        TypeRef::Named(name) => {
            if binds_exec(name.as_str(), host_types, generic_names) {
                match binding_index(bindings, name.as_str()) {
                    Some(k) => crate::ty::clone_type(&bindings[k].ty),
                    None => crate::ty::clone_type(ty),
                }
            } else {
                crate::ty::clone_type(ty)
            }
        },
        TypeRef::Applied { name, args } => TypeRef::Applied {
            name: name.clone(),
            args: apply_bindings_to_types(args, host_types, generic_names, bindings),
        },
        TypeRef::Object(fs) => TypeRef::Object(
            apply_bindings_to_fields(fs, host_types, generic_names, bindings),
        ),
        TypeRef::Array(x) => TypeRef::Array(
            Box::new(apply_bindings_to_type(x, host_types, generic_names, bindings)),
        ),
        TypeRef::Dict(k, v) => TypeRef::Dict(
            Box::new(apply_bindings_to_type(k, host_types, generic_names, bindings)),
            Box::new(apply_bindings_to_type(v, host_types, generic_names, bindings)),
        ),
        TypeRef::Nullable(x) => TypeRef::Nullable(
            Box::new(apply_bindings_to_type(x, host_types, generic_names, bindings)),
        ),
        TypeRef::Union(xs) => TypeRef::Union(
            apply_bindings_to_types(xs, host_types, generic_names, bindings),
        ),
        TypeRef::Ambiguous(xs) => TypeRef::Ambiguous(
            apply_bindings_to_types(xs, host_types, generic_names, bindings),
        ),
        TypeRef::Function(f) => TypeRef::Function(
            apply_bindings_to_signature(f, host_types, generic_names, bindings),
        ),
        _ => crate::ty::clone_type(ty),
    };
    proof {
        lemma_model_unfold(r);
    }
    r
}

/// Substitutes the bindings in every parameter type and the return type.
pub fn apply_bindings_to_signature(
    signature: &FunctionTypeRef,
    host_types: &[HostType],
    generic_names: &[String],
    bindings: &Vec<TypeBinding>,
) -> (r: FunctionTypeRef)
    ensures
        r.sig().0 == apply_all(
            signature.sig().0,
            host_names(host_types@),
            name_views(generic_names@),
            binding_views(bindings@),
        ),
        r.sig().1 == apply_bindings(
            signature.sig().1,
            host_names(host_types@),
            name_views(generic_names@),
            binding_views(bindings@),
        ),
    decreases signature,
{
    FunctionTypeRef {
        params: apply_bindings_to_types(&signature.params, host_types, generic_names, bindings),
        ret: Box::new(apply_bindings_to_type(&signature.ret, host_types, generic_names, bindings)),
    }
}

/// Binds a receiver's generic parameters from the receiver's type arguments,
/// as `receiver_bindings` states.
#[verifier::loop_isolation(false)]
pub fn infer_receiver_type_bindings(
    receiver_generic_params: &[String],
    receiver_type: &TypeRef,
    generic_names: &[String],
    bindings: &mut Vec<TypeBinding>,
)
    ensures
        binding_views(final(bindings)@) == receiver_bindings(
            name_views(receiver_generic_params@),
            receiver_type@,
            name_views(generic_names@),
            binding_views(old(bindings)@),
        ),
    decreases receiver_type,
{
    let ghost ps = name_views(receiver_generic_params@);
    let ghost gs = name_views(generic_names@);
    let ghost b0 = binding_views(bindings@);
    proof {
        lemma_model_unfold(*receiver_type);
    }
    match receiver_type {
        TypeRef::Applied { args, .. } => {
            if args.len() == receiver_generic_params.len() {
                let ghost av = views(args@);
                let mut i: usize = 0;
                while i < args.len()
                    invariant
                        0 <= i <= args.len(),
                        args.len() == receiver_generic_params.len(),
                        av == views(args@),
                        bind_params(ps, av, gs, binding_views(bindings@), i as int) == bind_params(
                            ps,
                            av,
                            gs,
                            b0,
                            0,
                        ),
                    decreases args.len() - i,
                {
                    if contains_name(generic_names, receiver_generic_params[i].as_str()) {
                        bind_type_parameter(
                            bindings,
                            receiver_generic_params[i].as_str(),
                            crate::ty::clone_type(&args[i]),
                        );
                    }
                    i += 1;
                }
            }
        },
        TypeRef::Nullable(x) => infer_receiver_type_bindings(
            receiver_generic_params,
            x,
            generic_names,
            bindings,
        ),
        TypeRef::Union(items) | TypeRef::Ambiguous(items) => {
            let ghost iv = views(items@);
            let mut i: usize = 0;
            assert(iv.skip(0) =~= iv);
            while i < items.len()
                invariant
                    0 <= i <= items.len(),
                    iv == views(items@),
                    receiver_bindings_each(ps, iv.skip(i as int), gs, binding_views(bindings@))
                        == receiver_bindings_each(ps, iv, gs, b0),
                decreases items.len() - i,
            {
                proof {
                    lemma_skip_first(iv, i as int);
                    assert(decreases_to!(*receiver_type => items@[i as int]));
                }
                infer_receiver_type_bindings(receiver_generic_params, &items[i], generic_names, bindings);
                i += 1;
            }
            assert(iv.skip(i as int).len() == 0);
        },
        _ => {},
    }
}

/// Collects the known argument types, in order.
fn known_arg_types(arg_types: &[Option<TypeRef>]) -> (r: Vec<TypeRef>)
    ensures
        views(r@) == known_args(arg_views(arg_types@)),
{
    let ghost av = arg_views(arg_types@);
    let mut out: Vec<TypeRef> = Vec::new();
    let mut i: usize = arg_types.len();
    assert(av.skip(av.len() as int) =~= Seq::<Option<Ty>>::empty());
    assert(views(out@) =~= Seq::<Ty>::empty());
    let mut rev: Vec<TypeRef> = Vec::new();
    // Gather the known types back to front, then reverse.
    while i > 0
        invariant
            0 <= i <= arg_types.len(),
            av == arg_views(arg_types@),
            views(rev@).reverse() == known_args(av.skip(i as int)),
        decreases i,
    {
        let ghost before = views(rev@);
        proof {
            lemma_skip_first(av, i - 1);
        }
        if let Some(t) = &arg_types[i - 1] {
            rev.push(crate::ty::clone_type(t));
            assert(views(rev@) =~= before.push(t@));
            assert(views(rev@).reverse() =~= seq![t@] + before.reverse());
        }
        i -= 1;
    }
    assert(av.skip(0) =~= av);
    let mut j: usize = rev.len();
    while j > 0
        invariant
            0 <= j <= rev.len(),
            views(out@) == views(rev@).reverse().subrange(0, (rev.len() - j) as int),
        decreases j,
    {
        let ghost before = views(out@);
        out.push(crate::ty::clone_type(&rev[j - 1]));
        assert(views(rev@).reverse()[(rev.len() - j) as int] == rev@[j - 1]@);
        assert(views(out@) =~= before.push(rev@[j - 1]@));
        assert(views(out@) =~= views(rev@).reverse().subrange(0, (rev.len() - j + 1) as int));
        j -= 1;
    }
    assert(views(out@) =~= views(rev@).reverse());
    out
}

/// Specialises a signature to a receiver type and argument types, as
/// `specialize` states.
pub fn specialize_signature_with_receiver_and_arg_types(
    signature: &FunctionTypeRef,
    receiver_type: Option<&TypeRef>,
    receiver_generic_params: &[String],
    arg_types: Option<&[Option<TypeRef>]>,
    host_types: &[HostType],
) -> (r: FunctionTypeRef)
    ensures
        r.sig() == specialize(
            signature.sig().0,
            signature.sig().1,
            match receiver_type {
                Some(t) => Some(t@),
                None => None,
            },
            name_views(receiver_generic_params@),
            match arg_types {
                Some(a) => Some(arg_views(a@)),
                None => None,
            },
            host_names(host_types@),
        ),
{
    let generic_names = collect_signature_generic_names(signature, host_types);
    if generic_names.len() == 0 {
        return crate::ty::clone_signature(signature);
    }
    let mut bindings: Vec<TypeBinding> = Vec::new();
    assert(binding_views(bindings@) =~= Seq::<(Seq<char>, Ty)>::empty());
    if let Some(receiver_type) = receiver_type {
        infer_receiver_type_bindings(
            receiver_generic_params,
            receiver_type,
            generic_names.as_slice(),
            &mut bindings,
        );
    }
    if let Some(arg_types) = arg_types {
        let known = known_arg_types(arg_types);
        infer_zip_bindings(&signature.params, &known, host_types, generic_names.as_slice(), &mut bindings);
    }
    apply_bindings_to_signature(signature, host_types, generic_names.as_slice(), &bindings)
}

/// Specialises a signature to argument types alone.
pub fn specialize_signature_with_arg_types(
    signature: &FunctionTypeRef,
    arg_types: Option<&[Option<TypeRef>]>,
    host_types: &[HostType],
) -> (r: FunctionTypeRef)
    ensures
        r.sig() == specialize(
            signature.sig().0,
            signature.sig().1,
            None,
            Seq::empty(),
            match arg_types {
                Some(a) => Some(arg_views(a@)),
                None => None,
            },
            host_names(host_types@),
        ),
{
    let no_params: Vec<String> = Vec::new();
    assert(name_views(no_params@) =~= Seq::<Seq<char>>::empty());
    specialize_signature_with_receiver_and_arg_types(signature, None, no_params.as_slice(), arg_types, host_types)
}

/// Matching an array parameter `array<T>`, with `T` a generic of the
/// signature, against an argument `array<a>` binds `T` to `a`: afterwards
/// `T` is bound, to `a` where it was unbound and to its earlier binding
/// joined with `a` where it was bound, and every other binding stays.
pub proof fn law_array_parameter_binds_its_element_generic(
    t: Seq<char>,
    a: Ty,
    hs: Seq<Seq<char>>,
    gs: Seq<Seq<char>>,
    b: Seq<(Seq<char>, Ty)>,
)
    requires
        binds(t, hs, gs),
    ensures
        ({
            let r = infer_bindings(Ty::Array(Box::new(Ty::Named(t))), Ty::Array(Box::new(a)), hs, gs, b);
            &&& field_index(r, t) >= 0
            &&& r[field_index(r, t)].1 == if field_index(b, t) >= 0 {
                join(b[field_index(b, t)].1, a)
            } else {
                a
            }
            &&& forall|j: int| 0 <= j < b.len() && (#[trigger] b[j]).0 != t ==> r[j] == b[j]
        }),
{
    let r = infer_bindings(Ty::Array(Box::new(Ty::Named(t))), Ty::Array(Box::new(a)), hs, gs, b);
    assert(infer_bindings(Ty::Named(t), a, hs, gs, b) == bind(b, t, a));
    assert(r == bind(b, t, a));
    crate::overload::lemma_field_index(b, t);
    crate::overload::lemma_field_index(r, t);
    let k = field_index(b, t);
    if k >= 0 {
        assert(r[k].0 == t);
    } else {
        assert(r[b.len() as int].0 == t);
    }
}

/// Matching a nullable parameter `T?`, with `T` a generic of the signature,
/// binds `T` to the argument's inner type where the argument is nullable
/// too, and to the argument itself where it is a plain type: where `T` was
/// unbound it is bound afresh after the earlier bindings.
pub proof fn law_nullable_parameter_binds_its_inner_generic(
    t: Seq<char>,
    a: Ty,
    hs: Seq<Seq<char>>,
    gs: Seq<Seq<char>>,
    b: Seq<(Seq<char>, Ty)>,
)
    requires
        binds(t, hs, gs),
        field_index(b, t) < 0,
    ensures
        infer_bindings(Ty::Nullable(Box::new(Ty::Named(t))), Ty::Nullable(Box::new(a)), hs, gs, b) == b.push((t, a)),
        !(a is Nullable) && !(a is Union) && !(a is Ambiguous) ==> infer_bindings(
            Ty::Nullable(Box::new(Ty::Named(t))),
            a,
            hs,
            gs,
            b,
        ) == b.push((t, a)),
{
    assert(infer_bindings(Ty::Named(t), a, hs, gs, b) == bind(b, t, a));
}

/// Matching a map parameter `map<K, V>`, with `K` and `V` two unbound
/// generics of the signature, against an argument `map<k, v>` binds `K` to
/// `k` and then `V` to `v`, after the earlier bindings.
pub proof fn law_map_parameter_binds_key_and_value_generics(
    kn: Seq<char>,
    vn: Seq<char>,
    k: Ty,
    v: Ty,
    hs: Seq<Seq<char>>,
    gs: Seq<Seq<char>>,
    b: Seq<(Seq<char>, Ty)>,
)
    requires
        binds(kn, hs, gs),
        binds(vn, hs, gs),
        kn != vn,
        field_index(b, kn) < 0,
        field_index(b, vn) < 0,
    ensures
        infer_bindings(
            Ty::Dict(Box::new(Ty::Named(kn)), Box::new(Ty::Named(vn))),
            Ty::Dict(Box::new(k), Box::new(v)),
            hs,
            gs,
            b,
        ) == b.push((kn, k)).push((vn, v)),
{
    assert(infer_bindings(Ty::Named(kn), k, hs, gs, b) == b.push((kn, k)));
    let b1 = b.push((kn, k));
    lemma_field_index(b, vn);
    lemma_field_index(b1, vn);
    assert(b1[b.len() as int].0 != vn);
    assert(field_index(b1, vn) < 0);
    assert(infer_bindings(Ty::Named(vn), v, hs, gs, b1) == b1.push((vn, v)));
}

} // verus!
