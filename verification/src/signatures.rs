//! Callable signatures as inference sees them: merging candidate signatures
//! into one, reading a signature off a type, and the signatures of methods
//! that builtin containers and host types provide.

use vstd::prelude::*;

use crate::generics::specialize;
use crate::host::{host_names, HostFunction, HostFunctionOverload, HostType};
use crate::lattice::{join, make_ambiguous, make_ambiguous_type};
use crate::overload::{arg_views, score_lt, sig_score};
use crate::ty::{clone_signature, clone_type, lemma_model_unfold, views, FunctionTypeRef, Ty, TypeRef};

verus! {

/// The models of a list of signatures.
pub open spec fn sig_views(sigs: Seq<FunctionTypeRef>) -> Seq<(Seq<Ty>, Ty)> {
    Seq::new(sigs.len(), |i: int| sigs[i].sig())
}

/// The model of an optional signature.
pub open spec fn opt_sig(f: Option<FunctionTypeRef>) -> Option<(Seq<Ty>, Ty)> {
    match f {
        Some(g) => Some(g.sig()),
        None => None,
    }
}

/// The model of an optional argument count.
pub open spec fn opt_count(c: Option<usize>) -> Option<nat> {
    match c {
        Some(n) => Some(n as nat),
        None => None,
    }
}

/// The models of optional argument types, when there are any.
pub open spec fn arg_models(a: Option<&[Option<TypeRef>]>) -> Option<Seq<Option<Ty>>> {
    match a {
        Some(s) => Some(arg_views(s@)),
        None => None,
    }
}

/// The number of argument types, when there are any.
pub open spec fn arg_count(a: Option<&[Option<TypeRef>]>) -> Option<nat> {
    match a {
        Some(s) => Some(s@.len()),
        None => None,
    }
}

/// Whether a signature takes `n` parameters, or no count is asked for.
pub open spec fn count_fits(s: (Seq<Ty>, Ty), n: Option<nat>) -> bool {
    match n {
        Some(c) => s.0.len() == c,
        None => true,
    }
}

/// The signatures that take the asked-for number of parameters, in order.
pub open spec fn keep_fitting(sigs: Seq<(Seq<Ty>, Ty)>, n: Option<nat>) -> Seq<(Seq<Ty>, Ty)>
    decreases sigs.len(),
{
    if sigs.len() == 0 {
        sigs
    } else {
        let kept = keep_fitting(sigs.drop_last(), n);
        if count_fits(sigs.last(), n) {
            kept.push(sigs.last())
        } else {
            kept
        }
    }
}

/// The `k`-th parameter types of the signatures.
pub open spec fn param_column(fs: Seq<(Seq<Ty>, Ty)>, k: int) -> Seq<Ty> {
    Seq::new(fs.len(), |j: int| fs[j].0[k])
}

/// The return types of the signatures.
pub open spec fn ret_column(fs: Seq<(Seq<Ty>, Ty)>) -> Seq<Ty> {
    Seq::new(fs.len(), |j: int| fs[j].1)
}

/// One signature for several candidates: none when no candidate takes the
/// asked-for number of parameters or the fitting ones disagree on arity, the
/// candidate itself when one fits, and otherwise the ambiguity set of each
/// parameter position and of the return types.
pub open spec fn merge_signatures(sigs: Seq<(Seq<Ty>, Ty)>, n: Option<nat>) -> Option<(Seq<Ty>, Ty)> {
    let fs = keep_fitting(sigs, n);
    if fs.len() == 0 {
        None
    } else if exists|j: int| 0 <= j < fs.len() && #[trigger] fs[j].0.len() != fs[0].0.len() {
        None
    } else if fs.len() == 1 {
        Some(fs[0])
    } else {
        Some(
            (
                Seq::new(fs[0].0.len(), |k: int| make_ambiguous(param_column(fs, k))),
                make_ambiguous(ret_column(fs)),
            ),
        )
    }
}

/// Merges candidate signatures into one, as `merge_signatures` states.
pub fn merge_function_candidate_signatures(signatures: Vec<FunctionTypeRef>, arg_count: Option<usize>) -> (r:
    Option<FunctionTypeRef>)
    ensures
        opt_sig(r) == merge_signatures(sig_views(signatures@), opt_count(arg_count)),
{
    let ghost sv = sig_views(signatures@);
    let ghost n = opt_count(arg_count);
    let mut kept: Vec<FunctionTypeRef> = Vec::new();
    let mut i: usize = 0;
    assert(sig_views(kept@) =~= keep_fitting(sv.take(0), n));
    while i < signatures.len()
        invariant
            0 <= i <= signatures.len(),
            sv == sig_views(signatures@),
            n == opt_count(arg_count),
            sig_views(kept@) == keep_fitting(sv.take(i as int), n),
        decreases signatures.len() - i,
    {
        let fits = match arg_count {
            Some(c) => signatures[i].params.len() == c,
            None => true,
        };
        proof {
            assert(sv.take(i + 1).drop_last() =~= sv.take(i as int));
            assert(sv.take(i + 1).last() == sv[i as int]);
        }
        if fits {
            let ghost before = sig_views(kept@);
            kept.push(clone_signature(&signatures[i]));
            assert(sig_views(kept@) =~= before.push(sv[i as int]));
        }
        i += 1;
    }
    assert(sv.take(i as int) =~= sv);
    let ghost fs = sig_views(kept@);
    assert(fs == keep_fitting(sig_views(signatures@), opt_count(arg_count)));
    if kept.len() == 0 {
        return None;
    }
    let param_len = kept[0].params.len();
    let mut j: usize = 0;
    while j < kept.len()
        invariant
            0 <= j <= kept.len(),
            fs == sig_views(kept@),
            fs == keep_fitting(sig_views(signatures@), opt_count(arg_count)),
            param_len == fs[0].0.len(),
            forall|x: int| 0 <= x < j ==> #[trigger] fs[x].0.len() == param_len,
        decreases kept.len() - j,
    {
        if kept[j].params.len() != param_len {
            assert(fs[j as int].0.len() != fs[0].0.len());
            return None;
        }
        j += 1;
    }
    if kept.len() == 1 {
        return kept.pop();
    }
    let mut params: Vec<TypeRef> = Vec::new();
    let mut k: usize = 0;
    while k < param_len
        invariant
            0 <= k <= param_len,
            kept.len() > 1,
            fs == sig_views(kept@),
            param_len == fs[0].0.len(),
            forall|x: int| 0 <= x < kept.len() ==> #[trigger] fs[x].0.len() == param_len,
            views(params@) == Seq::new(k as nat, |x: int| make_ambiguous(param_column(fs, x))),
        decreases param_len - k,
    {
        let mut column: Vec<TypeRef> = Vec::new();
        let mut j: usize = 0;
        while j < kept.len()
            invariant
                0 <= j <= kept.len(),
                0 <= k < param_len,
                fs == sig_views(kept@),
                forall|x: int| 0 <= x < kept.len() ==> #[trigger] fs[x].0.len() == param_len,
                views(column@) == param_column(fs, k as int).take(j as int),
            decreases kept.len() - j,
        {
            assert(fs[j as int].0.len() == param_len);
            assert(fs[j as int].0[k as int] == kept@[j as int].params@[k as int]@);
            let ghost before = views(column@);
            column.push(clone_type(&kept[j].params[k]));
            assert(views(column@) =~= before.push(fs[j as int].0[k as int]));
            assert(views(column@) =~= param_column(fs, k as int).take(j + 1));
            j += 1;
        }
        assert(views(column@) =~= param_column(fs, k as int));
        let ghost before = views(params@);
        let ghost col = views(column@);
        params.push(make_ambiguous_type(column));
        assert(views(params@) =~= before.push(make_ambiguous(param_column(fs, k as int))));
        assert(views(params@) =~= Seq::new((k + 1) as nat, |x: int| make_ambiguous(param_column(fs, x))));
        k += 1;
    }
    let mut rets: Vec<TypeRef> = Vec::new();
    let mut j: usize = 0;
    while j < kept.len()
        invariant
            0 <= j <= kept.len(),
            fs == sig_views(kept@),
            views(rets@) == ret_column(fs).take(j as int),
        decreases kept.len() - j,
    {
        assert(fs[j as int].1 == kept@[j as int].ret@);
        let ghost before = views(rets@);
        rets.push(clone_type(&kept[j].ret));
        assert(views(rets@) =~= before.push(fs[j as int].1));
        assert(views(rets@) =~= ret_column(fs).take(j + 1));
        j += 1;
    }
    assert(views(rets@) =~= ret_column(fs));
    let r = FunctionTypeRef { params, ret: Box::new(make_ambiguous_type(rets)) };
    assert(r.sig().0 =~= Seq::new(fs[0].0.len(), |x: int| make_ambiguous(param_column(fs, x))));
    Some(r)
}

/// The signature a value of type `t` can be called with: a function type's
/// own signature, specialised to the arguments when its arity fits them, or
/// for an ambiguity set the merge of its members' signatures.
pub open spec fn sig_from(t: Ty, args: Option<Seq<Option<Ty>>>, hs: Seq<Seq<char>>) -> Option<(Seq<Ty>, Ty)>
    decreases t,
{
    match t {
        Ty::Function(ps, r) => if args matches Some(a) && ps.len() != a.len() {
            None
        } else {
            Some(specialize(ps, *r, None, Seq::empty(), args, hs))
        },
        Ty::Ambiguous(items) => merge_signatures(sigs_from_all(items, args, hs), None),
        _ => None,
    }
}

/// The signatures that the types, in order, can be called with.
pub open spec fn sigs_from_all(items: Seq<Ty>, args: Option<Seq<Option<Ty>>>, hs: Seq<Seq<char>>) -> Seq<
    (Seq<Ty>, Ty),
>
    decreases items,
{
    if items.len() == 0 {
        Seq::empty()
    } else {
        let found = sigs_from_all(items.drop_last(), args, hs);
        match sig_from(items[items.len() - 1], args, hs) {
            Some(s) => found.push(s),
            None => found,
        }
    }
}

/// The signature that a value of the given type can be called with, as
/// `sig_from` states.
#[verifier::loop_isolation(false)]
pub fn signature_from_type(ty: &TypeRef, arg_types: Option<&[Option<TypeRef>]>, host_types: &[HostType]) -> (r:
    Option<FunctionTypeRef>)
    ensures
        opt_sig(r) == sig_from(ty@, arg_models(arg_types), host_names(host_types@)),
    decreases ty,
{
    proof {
        lemma_model_unfold(*ty);
    }
    match ty {
        TypeRef::Function(signature) => {
            if let Some(a) = arg_types {
                if signature.params.len() != a.len() {
                    return None;
                }
            }
            Some(crate::generics::specialize_signature_with_arg_types(signature, arg_types, host_types))
        },
        TypeRef::Ambiguous(items) => {
            let ghost iv = views(items@);
            let ghost args = arg_models(arg_types);
            let ghost hs = host_names(host_types@);
            let mut found: Vec<FunctionTypeRef> = Vec::new();
            let mut i: usize = 0;
            assert(sig_views(found@) =~= sigs_from_all(iv.take(0), args, hs));
            while i < items.len()
                invariant
                    0 <= i <= items.len(),
                    iv == views(items@),
                    args == arg_models(arg_types),
                    hs == host_names(host_types@),
                    sig_views(found@) == sigs_from_all(iv.take(i as int), args, hs),
                decreases items.len() - i,
            {
                proof {
                    assert(decreases_to!(*ty => items@[i as int]));
                    assert(iv.take(i + 1).drop_last() =~= iv.take(i as int));
                    assert(iv.take(i + 1)[i as int] == items@[i as int]@);
                }
                let s = signature_from_type(&items[i], arg_types, host_types);
                if let Some(sig) = s {
                    let ghost before = sig_views(found@);
                    found.push(sig);
                    assert(sig_views(found@) =~= before.push(sig.sig()));
                }
                i += 1;
            }
            assert(iv.take(i as int) =~= iv);
            merge_function_candidate_signatures(found, None)
        },
        _ => None,
    }
}

/// Whether an argument type is known and says more than "anything".
pub open spec fn says_something(a: Option<Ty>) -> bool {
    match a {
        Some(t) => !(t is Unknown || t is Any || t is Dynamic || t is Never),
        None => false,
    }
}

/// Whether some argument type is known and says more than "anything".
pub open spec fn informative(args: Seq<Option<Ty>>) -> bool {
    exists|i: int| 0 <= i < args.len() && #[trigger] says_something(args[i])
}

/// Whether some argument type is known and says more than "anything", as
/// `informative` states.
pub fn has_informative_arg_types(arg_types: &[Option<TypeRef>]) -> (r: bool)
    ensures
        r == informative(arg_views(arg_types@)),
{
    let ghost av = arg_views(arg_types@);
    let mut i: usize = 0;
    while i < arg_types.len()
        invariant
            0 <= i <= arg_types.len(),
            av == arg_views(arg_types@),
            forall|x: int| 0 <= x < i ==> !#[trigger] says_something(av[x]),
        decreases arg_types.len() - i,
    {
        if let Some(t) = &arg_types[i] {
            match t {
                TypeRef::Unknown | TypeRef::Any | TypeRef::Dynamic | TypeRef::Never => {},
                _ => {
                    assert(av[i as int] == Some(t@));
                    assert(says_something(av[i as int]));
                    return true;
                },
            }
        }
        assert(!says_something(av[i as int]));
        i += 1;
    }
    false
}

/// Joins the binding types of two flows position by position; a position
/// only one side has keeps that side's type.
pub open spec fn join_binding_sets(l: Seq<Ty>, r: Seq<Ty>) -> Seq<Ty> {
    Seq::new(
        if l.len() >= r.len() {
            l.len()
        } else {
            r.len()
        },
        |i: int|
            if i < l.len() && i < r.len() {
                join(l[i], r[i])
            } else if i < l.len() {
                l[i]
            } else {
                r[i]
            },
    )
}

/// Joins the binding types of two flows, as `join_binding_sets` states.
pub fn join_binding_type_sets(left: Vec<TypeRef>, right: Vec<TypeRef>) -> (r: Vec<TypeRef>)
    ensures
        views(r@) == join_binding_sets(views(left@), views(right@)),
{
    let len = if left.len() >= right.len() {
        left.len()
    } else {
        right.len()
    };
    let ghost target = join_binding_sets(views(left@), views(right@));
    let mut out: Vec<TypeRef> = Vec::new();
    let mut i: usize = 0;
    while i < len
        invariant
            0 <= i <= len,
            len == target.len(),
            target == join_binding_sets(views(left@), views(right@)),
            views(out@) == target.take(i as int),
        decreases len - i,
    {
        proof {
            if i < left.len() {
                assert(views(left@)[i as int] == left@[i as int]@);
            }
            if i < right.len() {
                assert(views(right@)[i as int] == right@[i as int]@);
            }
        }
        let t = if i < left.len() && i < right.len() {
            crate::lattice::join_types(&left[i], &right[i])
        } else if i < left.len() {
            clone_type(&left[i])
        } else {
            clone_type(&right[i])
        };
        assert(t@ == target[i as int]);
        let ghost before = views(out@);
        out.push(t);
        assert(views(out@) =~= before.push(target[i as int]));
        assert(views(out@) =~= target.take(i + 1));
        i += 1;
    }
    assert(views(out@) =~= target);
    out
}

} // verus!

verus! {

/// Whether `c` argument types were given, or no argument types were.
pub open spec fn count_is(n: Option<nat>, c: nat) -> bool {
    match n {
        Some(k) => k == c,
        None => true,
    }
}

/// The signatures of the builtin array methods, for an array of `inner`.
pub open spec fn array_method(inner: Ty, m: Seq<char>, n: Option<nat>) -> Option<(Seq<Ty>, Ty)> {
    if m == "get"@ && count_is(n, 1) {
        Some((seq![Ty::Int], Ty::Union(seq![inner, Ty::Unit])))
    } else if (m == "pop"@ || m == "shift"@) && count_is(n, 0) {
        Some((Seq::empty(), Ty::Union(seq![inner, Ty::Unit])))
    } else if m == "remove"@ && count_is(n, 1) {
        Some((seq![Ty::Int], Ty::Union(seq![inner, Ty::Unit])))
    } else if m == "push"@ && count_is(n, 1) {
        Some((seq![inner], Ty::Unit))
    } else if m == "append"@ && count_is(n, 1) {
        Some((seq![Ty::Array(Box::new(inner))], Ty::Unit))
    } else if m == "insert"@ && count_is(n, 2) {
        Some((seq![Ty::Int, inner], Ty::Unit))
    } else if m == "contains"@ && count_is(n, 1) {
        Some((seq![inner], Ty::Bool))
    } else if m == "index_of"@ && count_is(n, 1) {
        Some((seq![inner], Ty::Int))
    } else if m == "index_of"@ && count_is(n, 2) {
        Some((seq![inner, Ty::Int], Ty::Int))
    } else {
        None
    }
}

/// The signatures of the builtin methods of maps and objects whose values
/// have type `value`.
pub open spec fn map_like_method(value: Ty, m: Seq<char>, n: Option<nat>) -> Option<(Seq<Ty>, Ty)> {
    if (m == "get"@ || m == "remove"@) && count_is(n, 1) {
        Some((seq![Ty::Str], Ty::Union(seq![value, Ty::Unit])))
    } else if m == "set"@ && count_is(n, 2) {
        Some((seq![Ty::Str, value], Ty::Unit))
    } else if m == "values"@ && count_is(n, 0) {
        Some((Seq::empty(), Ty::Array(Box::new(value))))
    } else {
        None
    }
}

/// The signature of a builtin method of an array, map or object type.
pub open spec fn builtin_method(t: Ty, m: Seq<char>, n: Option<nat>) -> Option<(Seq<Ty>, Ty)> {
    match t {
        Ty::Array(inner) => array_method(*inner, m, n),
        Ty::Dict(_, v) => map_like_method(*v, m, n),
        Ty::Object(fs) => map_like_method(
            match crate::lattice::object_value_union(fs) {
                Some(u) => u,
                None => Ty::Unknown,
            },
            m,
            n,
        ),
        _ => None,
    }
}

/// Whether no argument types were given, or exactly `expected` were.
fn arg_count_matches(arg_types: Option<&[Option<TypeRef>]>, expected: usize) -> (r: bool)
    ensures
        r == count_is(arg_count(arg_types), expected as nat),
{
    match arg_types {
        Some(a) => a.len() == expected,
        None => true,
    }
}

fn make_sig(params: Vec<TypeRef>, ret: TypeRef) -> (r: FunctionTypeRef)
    ensures
        r.sig() == (views(params@), ret@),
{
    FunctionTypeRef { params, ret: Box::new(ret) }
}

fn or_unit(t: TypeRef) -> (r: TypeRef)
    ensures
        r@ == Ty::Union(seq![t@, Ty::Unit]),
{
    let r = TypeRef::Union(vec![t, TypeRef::Unit]);
    proof {
        lemma_model_unfold(r);
    }
    assert(r@->Union_0 =~= seq![t@, Ty::Unit]);
    r
}

/// The signature of a builtin array method, as `array_method` states.
fn specialized_array_method_signature(inner: TypeRef, method_name: &str, arg_types: Option<&[Option<TypeRef>]>) -> (r:
    Option<FunctionTypeRef>)
    ensures
        opt_sig(r) == array_method(inner@, method_name@, arg_count(arg_types)),
{
    let ghost i = inner@;
    if crate::generics::str_eq(method_name, "get") && arg_count_matches(arg_types, 1) {
        let params = vec![TypeRef::Int];
        assert(views(params@) =~= seq![Ty::Int]);
        Some(make_sig(params, or_unit(inner)))
    } else if (crate::generics::str_eq(method_name, "pop") || crate::generics::str_eq(method_name, "shift"))
        && arg_count_matches(arg_types, 0) {
        let params: Vec<TypeRef> = Vec::new();
        assert(views(params@) =~= Seq::<Ty>::empty());
        Some(make_sig(params, or_unit(inner)))
    } else if crate::generics::str_eq(method_name, "remove") && arg_count_matches(arg_types, 1) {
        let params = vec![TypeRef::Int];
        assert(views(params@) =~= seq![Ty::Int]);
        Some(make_sig(params, or_unit(inner)))
    } else if crate::generics::str_eq(method_name, "push") && arg_count_matches(arg_types, 1) {
        let params = vec![inner];
        assert(views(params@) =~= seq![i]);
        Some(make_sig(params, TypeRef::Unit))
    } else if crate::generics::str_eq(method_name, "append") && arg_count_matches(arg_types, 1) {
        let params = vec![TypeRef::Array(Box::new(inner))];
        assert(views(params@) =~= seq![Ty::Array(Box::new(i))]);
        Some(make_sig(params, TypeRef::Unit))
    } else if crate::generics::str_eq(method_name, "insert") && arg_count_matches(arg_types, 2) {
        let params = vec![TypeRef::Int, inner];
        assert(views(params@) =~= seq![Ty::Int, i]);
        Some(make_sig(params, TypeRef::Unit))
    } else if crate::generics::str_eq(method_name, "contains") && arg_count_matches(arg_types, 1) {
        let params = vec![inner];
        assert(views(params@) =~= seq![i]);
        Some(make_sig(params, TypeRef::Bool))
    } else if crate::generics::str_eq(method_name, "index_of") && arg_count_matches(arg_types, 1) {
        let params = vec![inner];
        assert(views(params@) =~= seq![i]);
        Some(make_sig(params, TypeRef::Int))
    } else if crate::generics::str_eq(method_name, "index_of") && arg_count_matches(arg_types, 2) {
        let params = vec![inner, TypeRef::Int];
        assert(views(params@) =~= seq![i, Ty::Int]);
        Some(make_sig(params, TypeRef::Int))
    } else {
        None
    }
}

/// The signature of a builtin map or object method, as `map_like_method` states.
fn specialized_map_like_method_signature(value: TypeRef, method_name: &str, arg_types: Option<&[Option<TypeRef>]>) -> (r:
    Option<FunctionTypeRef>)
    ensures
        opt_sig(r) == map_like_method(value@, method_name@, arg_count(arg_types)),
{
    let ghost v = value@;
    if (crate::generics::str_eq(method_name, "get") || crate::generics::str_eq(method_name, "remove"))
        && arg_count_matches(arg_types, 1) {
        let params = vec![TypeRef::String];
        assert(views(params@) =~= seq![Ty::Str]);
        Some(make_sig(params, or_unit(value)))
    } else if crate::generics::str_eq(method_name, "set") && arg_count_matches(arg_types, 2) {
        let params = vec![TypeRef::String, value];
        assert(views(params@) =~= seq![Ty::Str, v]);
        Some(make_sig(params, TypeRef::Unit))
    } else if crate::generics::str_eq(method_name, "values") && arg_count_matches(arg_types, 0) {
        let params: Vec<TypeRef> = Vec::new();
        assert(views(params@) =~= Seq::<Ty>::empty());
        Some(make_sig(params, TypeRef::Array(Box::new(value))))
    } else {
        None
    }
}

/// The signature of a builtin method of an array, map or object type, as
/// `builtin_method` states.
pub fn specialized_builtin_method_signature(ty: &TypeRef, method_name: &str, arg_types: Option<&[Option<TypeRef>]>) -> (r:
    Option<FunctionTypeRef>)
    ensures
        opt_sig(r) == builtin_method(ty@, method_name@, arg_count(arg_types)),
{
    proof {
        lemma_model_unfold(*ty);
    }
    match ty {
        TypeRef::Array(inner) => specialized_array_method_signature(clone_type(inner), method_name, arg_types),
        TypeRef::Dict(_, value) => specialized_map_like_method_signature(clone_type(value), method_name, arg_types),
        TypeRef::Object(fields) => {
            let value = match crate::lattice::inferred_object_value_union(fields) {
                Some(u) => u,
                None => TypeRef::Unknown,
            };
            specialized_map_like_method_signature(value, method_name, arg_types)
        },
        _ => None,
    }
}

} // verus!

verus! {

/// Whether a receiver of type `t` may have a field and a method of one name:
/// maps and objects, through nullables, unions and ambiguity sets.
pub open spec fn supports_field_method_ambiguity(t: Ty) -> bool
    decreases t,
{
    match t {
        Ty::Dict(_, _) => true,
        Ty::Object(_) => true,
        Ty::Nullable(inner) => supports_field_method_ambiguity(*inner),
        Ty::Union(items) => any_supports(items),
        Ty::Ambiguous(items) => any_supports(items),
        _ => false,
    }
}

/// Whether some type of the list supports field-method ambiguity.
pub open spec fn any_supports(items: Seq<Ty>) -> bool
    decreases items,
{
    items.len() > 0 && (supports_field_method_ambiguity(items[0]) || any_supports(items.drop_first()))
}

proof fn lemma_any_supports(items: Seq<Ty>)
    ensures
        any_supports(items) == exists|i: int| 0 <= i < items.len() && #[trigger] supports_field_method_ambiguity(items[i]),
    decreases items.len(),
{
    if items.len() > 0 {
        lemma_any_supports(items.drop_first());
        if supports_field_method_ambiguity(items[0]) {
            assert(any_supports(items));
        }
        if exists|i: int| 0 <= i < items.len() && #[trigger] supports_field_method_ambiguity(items[i]) {
            let i = choose|i: int| 0 <= i < items.len() && #[trigger] supports_field_method_ambiguity(items[i]);
            if i > 0 {
                assert(supports_field_method_ambiguity(items.drop_first()[i - 1]));
            }
        }
        if any_supports(items.drop_first()) {
            let i = choose|i: int| 0 <= i < items.drop_first().len() && #[trigger] supports_field_method_ambiguity(items.drop_first()[i]);
            assert(supports_field_method_ambiguity(items[i + 1]));
        }
    }
}

/// Whether a receiver of the given type may have a field and a method of one
/// name, as `supports_field_method_ambiguity` states.
#[verifier::loop_isolation(false)]
pub fn type_supports_field_method_ambiguity(ty: &TypeRef) -> (r: bool)
    ensures
        r == supports_field_method_ambiguity(ty@),
    decreases ty,
{
    proof {
        lemma_model_unfold(*ty);
    }
    match ty {
        TypeRef::Dict(_, _) | TypeRef::Object(_) => true,
        TypeRef::Nullable(inner) => type_supports_field_method_ambiguity(inner),
        TypeRef::Union(items) | TypeRef::Ambiguous(items) => {
            let ghost iv = views(items@);
            proof {
                lemma_any_supports(iv);
            }
            let mut i: usize = 0;
            while i < items.len()
                invariant
                    0 <= i <= items.len(),
                    iv == views(items@),
                    forall|j: int| 0 <= j < i ==> !supports_field_method_ambiguity(#[trigger] iv[j]),
                decreases items.len() - i,
            {
                proof {
                    assert(decreases_to!(*ty => items@[i as int]));
                }
                if type_supports_field_method_ambiguity(&items[i]) {
                    assert(supports_field_method_ambiguity(iv[i as int]));
                    return true;
                }
                i += 1;
            }
            false
        },
        _ => false,
    }
}

/// Whether a method declared for type `e` applies to a receiver of type `r`:
/// equal types and vague receivers match, a union or ambiguity set matches
/// when one member does, a nullable when its inner type does, and a generic
/// type matches its bare name or the same generic type with matching
/// arguments.
pub open spec fn receiver_matches(r: Ty, e: Ty) -> bool
    decreases r,
{
    if r == e {
        true
    } else {
        match r {
            Ty::Unknown => true,
            Ty::Any => true,
            Ty::Dynamic => true,
            Ty::Never => true,
            Ty::Union(items) => any_receiver_matches(items, e),
            Ty::Ambiguous(items) => any_receiver_matches(items, e),
            Ty::Nullable(inner) => receiver_matches(*inner, e),
            Ty::Applied(name, args) => match e {
                Ty::Named(en) => name == en,
                Ty::Applied(en, eargs) => name == en && args.len() == eargs.len() && all_receivers_match(
                    args,
                    eargs,
                ),
                _ => false,
            },
            Ty::Named(name) => match e {
                Ty::Applied(en, _) => name == en,
                _ => false,
            },
            _ => false,
        }
    }
}

/// Whether some receiver type of the list matches `e`.
pub open spec fn any_receiver_matches(items: Seq<Ty>, e: Ty) -> bool
    decreases items,
{
    items.len() > 0 && (receiver_matches(items[0], e) || any_receiver_matches(items.drop_first(), e))
}

/// Whether each receiver argument type matches the declared argument type
/// at its position.
pub open spec fn all_receivers_match(args: Seq<Ty>, eargs: Seq<Ty>) -> bool
    decreases args,
{
    args.len() == 0 || (eargs.len() > 0 && receiver_matches(args[0], eargs[0]) && all_receivers_match(
        args.drop_first(),
        eargs.drop_first(),
    ))
}

proof fn lemma_any_receiver_matches(items: Seq<Ty>, e: Ty)
    ensures
        any_receiver_matches(items, e) == exists|i: int| 0 <= i < items.len() && #[trigger] receiver_matches(items[i], e),
    decreases items.len(),
{
    if items.len() > 0 {
        lemma_any_receiver_matches(items.drop_first(), e);
        if receiver_matches(items[0], e) {
            assert(any_receiver_matches(items, e));
        }
        if exists|i: int| 0 <= i < items.len() && #[trigger] receiver_matches(items[i], e) {
            let i = choose|i: int| 0 <= i < items.len() && #[trigger] receiver_matches(items[i], e);
            if i > 0 {
                assert(receiver_matches(items.drop_first()[i - 1], e));
            }
        }
        if any_receiver_matches(items.drop_first(), e) {
            let i = choose|i: int| 0 <= i < items.drop_first().len() && #[trigger] receiver_matches(items.drop_first()[i], e);
            assert(receiver_matches(items[i + 1], e));
        }
    }
}

proof fn lemma_all_receivers_match(args: Seq<Ty>, eargs: Seq<Ty>)
    requires
        args.len() == eargs.len(),
    ensures
        all_receivers_match(args, eargs) == forall|i: int| 0 <= i < args.len() ==> #[trigger] receiver_matches(args[i], eargs[i]),
    decreases args.len(),
{
    if args.len() > 0 {
        lemma_all_receivers_match(args.drop_first(), eargs.drop_first());
        if forall|i: int| 0 <= i < args.len() ==> #[trigger] receiver_matches(args[i], eargs[i]) {
            assert forall|i: int| 0 <= i < args.drop_first().len() implies #[trigger] receiver_matches(args.drop_first()[i], eargs.drop_first()[i]) by {
                assert(receiver_matches(args[i + 1], eargs[i + 1]));
            }
            assert(receiver_matches(args[0], eargs[0]));
        }
        if all_receivers_match(args, eargs) {
            assert forall|i: int| 0 <= i < args.len() implies #[trigger] receiver_matches(args[i], eargs[i]) by {
                if i > 0 {
                    assert(receiver_matches(args.drop_first()[i - 1], eargs.drop_first()[i - 1]));
                }
            }
        }
    }
}

/// Whether a method declared for the expected type applies to the receiver
/// type, as `receiver_matches` states.
#[verifier::loop_isolation(false)]
pub fn receiver_matches_method_type(receiver: &TypeRef, expected: &TypeRef) -> (r: bool)
    ensures
        r == receiver_matches(receiver@, expected@),
    decreases receiver,
{
    proof {
        lemma_model_unfold(*receiver);
        lemma_model_unfold(*expected);
    }
    if crate::ty::type_eq(receiver, expected) {
        return true;
    }
    match receiver {
        TypeRef::Unknown | TypeRef::Any | TypeRef::Dynamic | TypeRef::Never => true,
        TypeRef::Union(items) | TypeRef::Ambiguous(items) => {
            let ghost iv = views(items@);
            proof {
                lemma_any_receiver_matches(iv, expected@);
            }
            let mut i: usize = 0;
            while i < items.len()
                invariant
                    0 <= i <= items.len(),
                    iv == views(items@),
                    forall|j: int| 0 <= j < i ==> !receiver_matches(#[trigger] iv[j], expected@),
                decreases items.len() - i,
            {
                proof {
                    assert(decreases_to!(*receiver => items@[i as int]));
                }
                if receiver_matches_method_type(&items[i], expected) {
                    assert(receiver_matches(iv[i as int], expected@));
                    return true;
                }
                i += 1;
            }
            false
        },
        TypeRef::Nullable(inner) => receiver_matches_method_type(inner, expected),
        TypeRef::Applied { name, args } => match expected {
            TypeRef::Named(expected_name) => *name == *expected_name,
            TypeRef::Applied { name: expected_name, args: expected_args } => {
                if !(*name == *expected_name) || args.len() != expected_args.len() {
                    return false;
                }
                let ghost av = views(args@);
                let ghost ev = views(expected_args@);
                proof {
                    lemma_all_receivers_match(av, ev);
                }
                let mut i: usize = 0;
                while i < args.len()
                    invariant
                        0 <= i <= args.len(),
                        args.len() == expected_args.len(),
                        av == views(args@),
                        ev == views(expected_args@),
                        forall|j: int| 0 <= j < i ==> #[trigger] receiver_matches(av[j], ev[j]),
                    decreases args.len() - i,
                {
                    proof {
                        assert(decreases_to!(*receiver => args@[i as int]));
                    }
                    if !receiver_matches_method_type(&args[i], &expected_args[i]) {
                        assert(!receiver_matches(av[i as int], ev[i as int]));
                        return false;
                    }
                    i += 1;
                }
                true
            },
            _ => false,
        },
        TypeRef::Named(name) => match expected {
            TypeRef::Applied { name: expected_name, .. } => *name == *expected_name,
            _ => false,
        },
        _ => false,
    }
}

/// Whether a receiver type picks one method implementation: not a vague
/// type, a union or an ambiguity set.
pub fn receiver_dispatch_is_precise(receiver: &TypeRef) -> (r: bool)
    ensures
        r == !(receiver@ is Unknown || receiver@ is Any || receiver@ is Dynamic || receiver@ is Never
            || receiver@ is Union || receiver@ is Ambiguous),
{
    match receiver {
        TypeRef::Unknown | TypeRef::Any | TypeRef::Dynamic | TypeRef::Never | TypeRef::Union(_)
        | TypeRef::Ambiguous(_) => false,
        _ => true,
    }
}

} // verus!

verus! {

/// The index of the first host type with the given name, or -1.
pub open spec fn first_host(hosts: Seq<HostType>, name: Seq<char>) -> int {
    if exists|i: int| 0 <= i < hosts.len() && #[trigger] hosts[i].name@ == name {
        choose|i: int|
            0 <= i < hosts.len() && #[trigger] hosts[i].name@ == name && forall|j: int|
                0 <= j < i ==> hosts[j].name@ != name
    } else {
        -1
    }
}

/// The index of the first method with the given name, or -1.
pub open spec fn first_method(methods: Seq<HostFunction>, name: Seq<char>) -> int {
    if exists|i: int| 0 <= i < methods.len() && #[trigger] methods[i].name@ == name {
        choose|i: int|
            0 <= i < methods.len() && #[trigger] methods[i].name@ == name && forall|j: int|
                0 <= j < i ==> methods[j].name@ != name
    } else {
        -1
    }
}

/// The signatures of the overloads of a host method, specialised to the
/// receiver and the arguments, that take as many parameters as there are
/// arguments.
pub open spec fn method_candidates(
    ovs: Seq<HostFunctionOverload>,
    recv: Ty,
    params: Seq<Seq<char>>,
    args: Option<Seq<Option<Ty>>>,
    hs: Seq<Seq<char>>,
) -> Seq<(Seq<Ty>, Ty)>
    decreases ovs.len(),
{
    if ovs.len() == 0 {
        Seq::empty()
    } else {
        let found = method_candidates(ovs.drop_last(), recv, params, args, hs);
        match ovs.last().signature {
            Some(sig) => {
                let s = specialize(sig.sig().0, sig.sig().1, Some(recv), params, args, hs);
                if args matches Some(a) && s.0.len() != a.len() {
                    found
                } else {
                    found.push(s)
                }
            },
            None => found,
        }
    }
}

/// Whether candidate `k` takes as many parameters as there are arguments and
/// no such candidate scores higher against them.
pub open spec fn is_best_model(ms: Seq<(Seq<Ty>, Ty)>, a: Seq<Option<Ty>>, k: int) -> bool {
    &&& 0 <= k < ms.len()
    &&& ms[k].0.len() == a.len()
    &&& forall|j: int|
        0 <= j < ms.len() && ms[j].0.len() == a.len() ==> !score_lt(
            sig_score(ms[k].0, a),
            #[trigger] sig_score(ms[j].0, a),
        )
}

/// The best of the first `n` candidates, in order.
pub open spec fn best_candidates(ms: Seq<(Seq<Ty>, Ty)>, a: Seq<Option<Ty>>, n: int) -> Seq<(Seq<Ty>, Ty)>
    decreases n,
{
    if n <= 0 {
        Seq::empty()
    } else {
        let picked = best_candidates(ms, a, n - 1);
        if is_best_model(ms, a, n - 1) {
            picked.push(ms[n - 1])
        } else {
            picked
        }
    }
}

/// The signature of a method of a host type for a receiver: none without
/// such a type, method or fitting overload; with informative argument types,
/// the merge of the best scoring overloads; otherwise the merge of all
/// fitting overloads.
pub open spec fn host_method_sig(
    recv: Ty,
    tname: Seq<char>,
    mname: Seq<char>,
    hosts: Seq<HostType>,
    args: Option<Seq<Option<Ty>>>,
) -> Option<(Seq<Ty>, Ty)> {
    let hi = first_host(hosts, tname);
    if hi < 0 {
        None
    } else {
        let host = hosts[hi];
        let mi = first_method(host.methods@, mname);
        if mi < 0 {
            None
        } else {
            let ms = method_candidates(
                host.methods@[mi].overloads@,
                recv,
                crate::generics::name_views(host.generic_params@),
                args,
                host_names(hosts),
            );
            if ms.len() == 0 {
                None
            } else {
                match args {
                    Some(a) => if informative(a) && exists|k: int| #[trigger] is_best_model(ms, a, k) {
                        merge_signatures(best_candidates(ms, a, ms.len() as int), Some(a.len()))
                    } else {
                        merge_signatures(ms, Some(a.len()))
                    },
                    None => merge_signatures(ms, None),
                }
            }
        }
    }
}

pub(crate) proof fn lemma_best_candidate_model(sigs: Seq<FunctionTypeRef>, args: Seq<Option<TypeRef>>, k: int)
    ensures
        crate::overload::is_best_candidate(sigs, args, k) == is_best_model(sig_views(sigs), arg_views(args), k),
{
    let ms = sig_views(sigs);
    let a = arg_views(args);
    assert forall|j: int| 0 <= j < sigs.len() implies #[trigger] crate::overload::arity_fits(sigs, args, j) == (ms[j].0.len() == a.len())
        && crate::overload::candidate_score(sigs, args, j) == sig_score(ms[j].0, a) by {
        assert(ms[j] == sigs[j].sig());
    }
    if crate::overload::is_best_candidate(sigs, args, k) {
        assert forall|j: int| 0 <= j < ms.len() && ms[j].0.len() == a.len() implies !score_lt(
            sig_score(ms[k].0, a),
            #[trigger] sig_score(ms[j].0, a),
        ) by {
            assert(crate::overload::arity_fits(sigs, args, j));
            assert(!score_lt(crate::overload::candidate_score(sigs, args, k), crate::overload::candidate_score(sigs, args, j)));
        }
    }
    if is_best_model(ms, a, k) {
        assert forall|j: int| 0 <= j < sigs.len() && crate::overload::arity_fits(sigs, args, j) implies !score_lt(
            crate::overload::candidate_score(sigs, args, k),
            #[trigger] crate::overload::candidate_score(sigs, args, j),
        ) by {
            assert(!score_lt(sig_score(ms[k].0, a), sig_score(ms[j].0, a)));
        }
    }
}

pub(crate) fn index_listed(indexes: &Vec<usize>, k: usize) -> (r: bool)
    ensures
        r == indexes@.contains(k),
{
    let mut i: usize = 0;
    while i < indexes.len()
        invariant
            0 <= i <= indexes.len(),
            forall|j: int| 0 <= j < i ==> indexes@[j] != k,
        decreases indexes.len() - i,
    {
        if indexes[i] == k {
            assert(indexes@[i as int] == k);
            return true;
        }
        i += 1;
    }
    false
}

/// The signature of a method of a named host type for a receiver, as
/// `host_method_sig` states.
#[verifier::loop_isolation(false)]
pub fn host_method_signature_for_name(
    receiver_ty: &TypeRef,
    host_type_name: &str,
    method_name: &str,
    host_types: &[HostType],
    arg_types: Option<&[Option<TypeRef>]>,
) -> (r: Option<FunctionTypeRef>)
    ensures
        opt_sig(r) == host_method_sig(receiver_ty@, host_type_name@, method_name@, host_types@, arg_models(arg_types)),
{
    let ghost hosts = host_types@;
    let mut hi: usize = 0;
    while hi < host_types.len()
        invariant
            0 <= hi <= host_types.len(),
            forall|j: int| 0 <= j < hi ==> #[trigger] hosts[j].name@ != host_type_name@,
        decreases host_types.len() - hi,
    {
        if crate::generics::str_eq(host_types[hi].name.as_str(), host_type_name) {
            break;
        }
        hi += 1;
    }
    if hi == host_types.len() {
        return None;
    }
    assert(hosts[hi as int].name@ == host_type_name@);
    assert(first_host(hosts, host_type_name@) == hi);
    let host = &host_types[hi];
    let ghost methods = host.methods@;
    let mut mi: usize = 0;
    while mi < host.methods.len()
        invariant
            0 <= mi <= host.methods.len(),
            forall|j: int| 0 <= j < mi ==> #[trigger] methods[j].name@ != method_name@,
        decreases host.methods.len() - mi,
    {
        if crate::generics::str_eq(host.methods[mi].name.as_str(), method_name) {
            break;
        }
        mi += 1;
    }
    if mi == host.methods.len() {
        return None;
    }
    assert(methods[mi as int].name@ == method_name@);
    assert(first_method(methods, method_name@) == mi);
    let method = &host.methods[mi];
    let ghost ovs = method.overloads@;
    let ghost args = arg_models(arg_types);
    let ghost params = crate::generics::name_views(host.generic_params@);
    let ghost hs = host_names(hosts);
    let mut matching: Vec<FunctionTypeRef> = Vec::new();
    let mut k: usize = 0;
    assert(sig_views(matching@) =~= method_candidates(ovs.take(0), receiver_ty@, params, args, hs));
    while k < method.overloads.len()
        invariant
            0 <= k <= method.overloads.len(),
            ovs == method.overloads@,
            sig_views(matching@) == method_candidates(ovs.take(k as int), receiver_ty@, params, args, hs),
        decreases method.overloads.len() - k,
    {
        proof {
            assert(ovs.take(k + 1).drop_last() =~= ovs.take(k as int));
            assert(ovs.take(k + 1).last() == ovs[k as int]);
        }
        if let Some(signature) = &method.overloads[k].signature {
            let s = crate::generics::specialize_signature_with_receiver_and_arg_types(
                signature,
                Some(receiver_ty),
                host.generic_params.as_slice(),
                arg_types,
                host_types,
            );
            let fits = match arg_types {
                Some(a) => s.params.len() == a.len(),
                None => true,
            };
            if fits {
                let ghost before = sig_views(matching@);
                matching.push(s);
                assert(sig_views(matching@) =~= before.push(s.sig()));
            }
        }
        k += 1;
    }
    assert(ovs.take(k as int) =~= ovs);
    let ghost ms = sig_views(matching@);
    if matching.len() == 0 {
        return None;
    }
    if let Some(a) = arg_types {
        if has_informative_arg_types(a) {
            let indexes = crate::overload::best_matching_signature_indexes(matching.as_slice(), a);
            let ghost av = arg_views(a@);
            if indexes.len() > 0 {
                proof {
                    let k0 = indexes@[0] as int;
                    assert(indexes@.contains(k0 as usize));
                    lemma_best_candidate_model(matching@, a@, k0);
                    assert(is_best_model(ms, av, k0));
                }
                let mut picked: Vec<FunctionTypeRef> = Vec::new();
                let mut x: usize = 0;
                assert(sig_views(picked@) =~= best_candidates(ms, av, 0));
                while x < matching.len()
                    invariant
                        0 <= x <= matching.len(),
                        ms == sig_views(matching@),
                        av == arg_views(a@),
                        sig_views(picked@) == best_candidates(ms, av, x as int),
                    decreases matching.len() - x,
                {
                    proof {
                        lemma_best_candidate_model(matching@, a@, x as int);
                    }
                    if index_listed(&indexes, x) {
                        let ghost before = sig_views(picked@);
                        picked.push(clone_signature(&matching[x]));
                        assert(sig_views(picked@) =~= before.push(ms[x as int]));
                    }
                    x += 1;
                }
                return merge_function_candidate_signatures(picked, Some(a.len()));
            } else {
                proof {
                    assert forall|kk: int| !#[trigger] is_best_model(ms, av, kk) by {
                        if 0 <= kk < ms.len() {
                            lemma_best_candidate_model(matching@, a@, kk);
                            assert(!indexes@.contains(kk as usize));
                        }
                    }
                }
            }
        }
    }
    let count = match arg_types {
        Some(a) => Some(a.len()),
        None => None,
    };
    merge_function_candidate_signatures(matching, count)
}

/// What the builtin methods of an array of `x` take and give: `contains`
/// asks whether an element is held (`(x) -> bool`), `index_of` gives a
/// position (`int`), `push` adds an element and gives nothing, and `get`
/// reads an element that may be missing (`x` or unit).
pub proof fn law_array_methods_take_elements_and_give_their_results(x: Ty, n: Option<nat>)
    requires
        count_is(n, 1),
    ensures
        builtin_method(Ty::Array(Box::new(x)), "contains"@, n) == Some((seq![x], Ty::Bool)),
        builtin_method(Ty::Array(Box::new(x)), "index_of"@, n) == Some((seq![x], Ty::Int)),
        builtin_method(Ty::Array(Box::new(x)), "push"@, n) == Some((seq![x], Ty::Unit)),
        builtin_method(Ty::Array(Box::new(x)), "get"@, n) == Some((seq![Ty::Int], Ty::Union(seq![x, Ty::Unit]))),
{
    reveal_strlit("contains");
    reveal_strlit("index_of");
    reveal_strlit("push");
    reveal_strlit("get");
    reveal_strlit("pop");
    reveal_strlit("shift");
    reveal_strlit("remove");
    reveal_strlit("append");
    reveal_strlit("insert");
    assert("contains"@.len() == 8 && "index_of"@.len() == 8);
    assert("contains"@ != "get"@ && "contains"@ != "pop"@ && "contains"@ != "shift"@ && "contains"@ != "remove"@
        && "contains"@ != "push"@ && "contains"@ != "append"@ && "contains"@ != "insert"@);
    assert("index_of"@ != "get"@ && "index_of"@ != "pop"@ && "index_of"@ != "shift"@ && "index_of"@ != "remove"@
        && "index_of"@ != "push"@ && "index_of"@ != "append"@ && "index_of"@ != "insert"@);
    assert("index_of"@[0] != "contains"@[0]);
    assert("push"@.len() == 4 && "pop"@.len() == 3 && "get"@.len() == 3 && "shift"@.len() == 5 && "remove"@.len() == 6);
    assert("push"@ != "get"@ && "push"@ != "pop"@ && "push"@ != "shift"@ && "push"@ != "remove"@);
}

/// What the builtin methods of a map with values `v` take and give: `get`
/// reads a value that may be missing (`v` or unit) by a string key, `set`
/// stores a value and gives nothing, and `values` gives an array of `v`.
pub proof fn law_map_methods_read_and_store_values(k: Ty, v: Ty)
    ensures
        builtin_method(Ty::Dict(Box::new(k), Box::new(v)), "get"@, Some(1)) == Some(
            (seq![Ty::Str], Ty::Union(seq![v, Ty::Unit])),
        ),
        builtin_method(Ty::Dict(Box::new(k), Box::new(v)), "set"@, Some(2)) == Some((seq![Ty::Str, v], Ty::Unit)),
        builtin_method(Ty::Dict(Box::new(k), Box::new(v)), "values"@, Some(0)) == Some(
            (Seq::<Ty>::empty(), Ty::Array(Box::new(v))),
        ),
{
    reveal_strlit("get");
    reveal_strlit("remove");
    reveal_strlit("set");
    reveal_strlit("values");
}

} // verus!
