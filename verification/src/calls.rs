//! Call targets and the types that flow through calls and loops: choosing the
//! best targets for a call, the binding types of a `for` loop, and the type
//! that an expected object type gives one of its fields.

use vstd::prelude::*;

use crate::lattice::{join, join_types};
use crate::overload::{arg_views, field_index, lemma_field_index};
use crate::signatures::{
    index_listed, informative, is_best_model, join_binding_sets, merge_signatures, opt_count, opt_sig, sig_views,
};
use crate::ty::{clone_signature, clone_type, field_views, lemma_model_unfold, types_eq, type_eq, views, FunctionTypeRef,
    Ty, TypeRef};

verus! {

/// The identity of a symbol within one file.
#[derive(Debug, Clone, Copy, PartialEq, Eq, Hash)]
pub struct SymbolId(pub u32);

/// A candidate callee: its signature and, for a local function, its symbol.
pub struct CallableTarget {
    pub signature: FunctionTypeRef,
    pub local_symbol: Option<SymbolId>,
}

/// The model of a call target: its symbol and its signature.
pub open spec fn target_view(t: CallableTarget) -> (Option<u32>, (Seq<Ty>, Ty)) {
    (
        match t.local_symbol {
            Some(s) => Some(s.0),
            None => None,
        },
        t.signature.sig(),
    )
}

/// The models of a list of call targets.
pub open spec fn target_views(ts: Seq<CallableTarget>) -> Seq<(Option<u32>, (Seq<Ty>, Ty))> {
    Seq::new(ts.len(), |i: int| target_view(ts[i]))
}

/// The signatures of the targets.
pub open spec fn target_sigs(ts: Seq<(Option<u32>, (Seq<Ty>, Ty))>) -> Seq<(Seq<Ty>, Ty)> {
    Seq::new(ts.len(), |i: int| ts[i].1)
}

/// The targets whose signatures take `n` parameters, in order.
pub open spec fn arity_targets(ts: Seq<(Option<u32>, (Seq<Ty>, Ty))>, n: nat) -> Seq<(Option<u32>, (Seq<Ty>, Ty))>
    decreases ts.len(),
{
    if ts.len() == 0 {
        ts
    } else {
        let kept = arity_targets(ts.drop_last(), n);
        if ts.last().1.0.len() == n {
            kept.push(ts.last())
        } else {
            kept
        }
    }
}

/// The first `k` targets that score best against the arguments, in order.
pub open spec fn best_targets(ts: Seq<(Option<u32>, (Seq<Ty>, Ty))>, a: Seq<Option<Ty>>, k: int) -> Seq<
    (Option<u32>, (Seq<Ty>, Ty)),
>
    decreases k,
{
    if k <= 0 {
        Seq::empty()
    } else {
        let picked = best_targets(ts, a, k - 1);
        if is_best_model(target_sigs(ts), a, k - 1) {
            picked.push(ts[k - 1])
        } else {
            picked
        }
    }
}

/// The targets a call with the given argument types may reach: all targets
/// when argument types are unknown; otherwise those whose arity fits, cut
/// down to the best scoring ones when some argument type is informative.
pub open spec fn select_targets(ts: Seq<(Option<u32>, (Seq<Ty>, Ty))>, args: Option<Seq<Option<Ty>>>) -> Seq<
    (Option<u32>, (Seq<Ty>, Ty)),
> {
    match args {
        None => ts,
        Some(a) => {
            let fit = arity_targets(ts, a.len());
            if informative(a) && exists|k: int| #[trigger] is_best_model(target_sigs(fit), a, k) {
                best_targets(fit, a, fit.len() as int)
            } else {
                fit
            }
        },
    }
}

fn clone_target(t: &CallableTarget) -> (r: CallableTarget)
    ensures
        target_view(r) == target_view(*t),
{
    CallableTarget { signature: clone_signature(&t.signature), local_symbol: t.local_symbol }
}

/// The targets that a call with the given argument types may reach, as
/// `select_targets` states.
#[verifier::loop_isolation(false)]
pub fn select_best_callable_targets(targets: Vec<CallableTarget>, arg_types: Option<&[Option<TypeRef>]>) -> (r: Vec<
    CallableTarget,
>)
    ensures
        target_views(r@) == select_targets(
            target_views(targets@),
            match arg_types {
                Some(a) => Some(arg_views(a@)),
                None => None,
            },
        ),
{
    let a = match arg_types {
        Some(a) => a,
        None => {
            return targets;
        },
    };
    let ghost tv = target_views(targets@);
    let ghost av = arg_views(a@);
    let mut fit: Vec<CallableTarget> = Vec::new();
    let mut i: usize = 0;
    assert(target_views(fit@) =~= arity_targets(tv.take(0), a.len() as nat));
    while i < targets.len()
        invariant
            0 <= i <= targets.len(),
            tv == target_views(targets@),
            target_views(fit@) == arity_targets(tv.take(i as int), a.len() as nat),
        decreases targets.len() - i,
    {
        proof {
            assert(tv.take(i + 1).drop_last() =~= tv.take(i as int));
            assert(tv.take(i + 1).last() == tv[i as int]);
        }
        if targets[i].signature.params.len() == a.len() {
            let ghost before = target_views(fit@);
            fit.push(clone_target(&targets[i]));
            assert(target_views(fit@) =~= before.push(tv[i as int]));
        }
        i += 1;
    }
    assert(tv.take(i as int) =~= tv);
    let ghost fv = target_views(fit@);
    if fit.len() == 0 {
        return fit;
    }
    if crate::signatures::has_informative_arg_types(a) {
        let mut sigs: Vec<FunctionTypeRef> = Vec::new();
        let mut j: usize = 0;
        while j < fit.len()
            invariant
                0 <= j <= fit.len(),
                fv == target_views(fit@),
                sig_views(sigs@) == target_sigs(fv).take(j as int),
            decreases fit.len() - j,
        {
            let ghost before = sig_views(sigs@);
            assert(target_sigs(fv)[j as int] == fit@[j as int].signature.sig());
            sigs.push(clone_signature(&fit[j].signature));
            assert(sig_views(sigs@) =~= before.push(target_sigs(fv)[j as int]));
            assert(sig_views(sigs@) =~= target_sigs(fv).take(j + 1));
            j += 1;
        }
        assert(sig_views(sigs@) =~= target_sigs(fv));
        let indexes = crate::overload::best_matching_signature_indexes(sigs.as_slice(), a);
        if indexes.len() > 0 {
            proof {
                let k0 = indexes@[0] as int;
                assert(indexes@.contains(k0 as usize));
                crate::signatures::lemma_best_candidate_model(sigs@, a@, k0);
                assert(is_best_model(target_sigs(fv), av, k0));
            }
            let mut picked: Vec<CallableTarget> = Vec::new();
            let mut x: usize = 0;
            assert(target_views(picked@) =~= best_targets(fv, av, 0));
            while x < fit.len()
                invariant
                    0 <= x <= fit.len(),
                    fv == target_views(fit@),
                    sig_views(sigs@) == target_sigs(fv),
                    av == arg_views(a@),
                    target_views(picked@) == best_targets(fv, av, x as int),
                decreases fit.len() - x,
            {
                proof {
                    crate::signatures::lemma_best_candidate_model(sigs@, a@, x as int);
                }
                if index_listed(&indexes, x) {
                    let ghost before = target_views(picked@);
                    picked.push(clone_target(&fit[x]));
                    assert(target_views(picked@) =~= before.push(fv[x as int]));
                }
                x += 1;
            }
            return picked;
        } else {
            proof {
                assert forall|kk: int| !#[trigger] is_best_model(target_sigs(fv), av, kk) by {
                    if 0 <= kk < fv.len() {
                        crate::signatures::lemma_best_candidate_model(sigs@, a@, kk);
                        assert(!indexes@.contains(kk as usize));
                    }
                }
            }
        }
    }
    fit
}

/// The targets with repeats dropped: a target whose symbol and signature
/// equal those of an earlier one is left out.
pub open spec fn dedup_targets(ts: Seq<(Option<u32>, (Seq<Ty>, Ty))>) -> Seq<(Option<u32>, (Seq<Ty>, Ty))>
    decreases ts.len(),
{
    if ts.len() == 0 {
        ts
    } else {
        let kept = dedup_targets(ts.drop_last());
        if kept.contains(ts.last()) {
            kept
        } else {
            kept.push(ts.last())
        }
    }
}

fn same_target(a: &CallableTarget, b: &CallableTarget) -> (r: bool)
    ensures
        r == (target_view(*a) == target_view(*b)),
{
    let same_symbol = match (a.local_symbol, b.local_symbol) {
        (Some(x), Some(y)) => x.0 == y.0,
        (None, None) => true,
        _ => false,
    };
    same_symbol && types_eq(&a.signature.params, &b.signature.params) && type_eq(&a.signature.ret, &b.signature.ret)
}

/// Drops each target that repeats the symbol and signature of an earlier
/// one, as `dedup_targets` states.
pub fn dedup_callable_targets(targets: Vec<CallableTarget>) -> (r: Vec<CallableTarget>)
    ensures
        target_views(r@) == dedup_targets(target_views(targets@)),
{
    let ghost tv = target_views(targets@);
    let mut deduped: Vec<CallableTarget> = Vec::new();
    let mut i: usize = 0;
    assert(target_views(deduped@) =~= dedup_targets(tv.take(0)));
    while i < targets.len()
        invariant
            0 <= i <= targets.len(),
            tv == target_views(targets@),
            target_views(deduped@) == dedup_targets(tv.take(i as int)),
        decreases targets.len() - i,
    {
        proof {
            assert(tv.take(i + 1).drop_last() =~= tv.take(i as int));
            assert(tv.take(i + 1).last() == tv[i as int]);
        }
        let ghost dv = target_views(deduped@);
        let mut j: usize = 0;
        let mut seen = false;
        while j < deduped.len()
            invariant
                0 <= j <= deduped.len(),
                0 <= i < targets.len(),
                tv == target_views(targets@),
                dv == target_views(deduped@),
                seen ==> dv.contains(tv[i as int]),
                !seen ==> forall|x: int| 0 <= x < j ==> dv[x] != tv[i as int],
            decreases deduped.len() - j,
        {
            if same_target(&deduped[j], &targets[i]) {
                assert(dv[j as int] == tv[i as int]);
                seen = true;
            }
            j += 1;
        }
        if !seen {
            deduped.push(clone_target(&targets[i]));
            assert(target_views(deduped@) =~= dv.push(tv[i as int]));
        }
        i += 1;
    }
    assert(tv.take(i as int) =~= tv);
    deduped
}

/// Merges the signatures of call targets into one, as `merge_signatures`
/// states of their signatures.
pub fn join_callable_target_signatures(targets: &[CallableTarget], arg_count: Option<usize>) -> (r: Option<
    FunctionTypeRef,
>)
    ensures
        opt_sig(r) == merge_signatures(target_sigs(target_views(targets@)), opt_count(arg_count)),
{
    let ghost ts = target_sigs(target_views(targets@));
    let mut sigs: Vec<FunctionTypeRef> = Vec::new();
    let mut i: usize = 0;
    while i < targets.len()
        invariant
            0 <= i <= targets.len(),
            ts == target_sigs(target_views(targets@)),
            sig_views(sigs@) == ts.take(i as int),
        decreases targets.len() - i,
    {
        let ghost before = sig_views(sigs@);
        assert(ts[i as int] == targets@[i as int].signature.sig());
        sigs.push(clone_signature(&targets[i].signature));
        assert(sig_views(sigs@) =~= before.push(ts[i as int]));
        assert(sig_views(sigs@) =~= ts.take(i + 1));
        i += 1;
    }
    assert(sig_views(sigs@) =~= ts);
    crate::signatures::merge_function_candidate_signatures(sigs, arg_count)
}

} // verus!

verus! {

/// The binding types of a loop over items of `item` type: the item, then the
/// counter, then unknown for any further binding.
pub open spec fn loop_bindings(item: Ty, n: nat, counter: Ty) -> Seq<Ty> {
    Seq::new(
        n,
        |i: int|
            if i == 0 {
                item
            } else if i == 1 {
                counter
            } else {
                Ty::Unknown
            },
    )
}

/// The binding types of a loop over items of `item_ty` type, as
/// `loop_bindings` states.
pub fn loop_binding_types(item_ty: TypeRef, binding_count: usize, counter_ty: TypeRef) -> (r: Vec<TypeRef>)
    ensures
        views(r@) == loop_bindings(item_ty@, binding_count as nat, counter_ty@),
{
    let ghost target = loop_bindings(item_ty@, binding_count as nat, counter_ty@);
    let mut out: Vec<TypeRef> = Vec::new();
    if binding_count > 0 {
        out.push(item_ty);
    }
    if binding_count > 1 {
        out.push(counter_ty);
    }
    while out.len() < binding_count
        invariant
            out.len() <= binding_count,
            binding_count > 0 ==> out.len() >= 1,
            binding_count > 1 ==> out.len() >= 2,
            target == loop_bindings(item_ty@, binding_count as nat, counter_ty@),
            views(out@) == target.take(out.len() as int),
        decreases binding_count - out.len(),
    {
        let ghost before = views(out@);
        out.push(TypeRef::Unknown);
        assert(views(out@) =~= target.take(out.len() as int));
    }
    assert(views(out@) =~= target);
    out
}

/// The binding types of a `for` loop over a value of type `t` with `n`
/// bindings: none are needed for no bindings; arrays, strings and ranges give
/// their items and an integer counter; a union or ambiguity set joins, in
/// order, what each iterable member gives; other types give none.
pub open spec fn for_bindings(t: Ty, n: nat) -> Option<Seq<Ty>>
    decreases t,
{
    if n == 0 {
        Some(Seq::empty())
    } else {
        match t {
            Ty::Array(inner) => Some(loop_bindings(*inner, n, Ty::Int)),
            Ty::Str => Some(loop_bindings(Ty::Char, n, Ty::Int)),
            Ty::Range => Some(loop_bindings(Ty::Int, n, Ty::Int)),
            Ty::RangeInclusive => Some(loop_bindings(Ty::Int, n, Ty::Int)),
            Ty::Union(items) => fold_bindings(items, n),
            Ty::Ambiguous(items) => fold_bindings(items, n),
            _ => None,
        }
    }
}

/// The join, in order, of the binding types that the iterable types give.
pub open spec fn fold_bindings(items: Seq<Ty>, n: nat) -> Option<Seq<Ty>>
    decreases items,
{
    if items.len() == 0 {
        None
    } else {
        let merged = fold_bindings(items.drop_last(), n);
        match for_bindings(items[items.len() - 1], n) {
            None => merged,
            Some(next) => Some(
                match merged {
                    Some(current) => join_binding_sets(current, next),
                    None => next,
                },
            ),
        }
    }
}

/// The models of an optional type list.
pub open spec fn opt_views(v: Option<Vec<TypeRef>>) -> Option<Seq<Ty>> {
    match v {
        Some(x) => Some(views(x@)),
        None => None,
    }
}

/// The binding types of a `for` loop over a value of the given type, as
/// `for_bindings` states.
#[verifier::loop_isolation(false)]
pub fn for_binding_types_from_iterable(ty: &TypeRef, binding_count: usize) -> (r: Option<Vec<TypeRef>>)
    ensures
        opt_views(r) == for_bindings(ty@, binding_count as nat),
    decreases ty,
{
    proof {
        lemma_model_unfold(*ty);
    }
    if binding_count == 0 {
        let empty: Vec<TypeRef> = Vec::new();
        assert(views(empty@) =~= Seq::<Ty>::empty());
        return Some(empty);
    }
    match ty {
        TypeRef::Array(inner) => Some(loop_binding_types(clone_type(inner), binding_count, TypeRef::Int)),
        TypeRef::String => Some(loop_binding_types(TypeRef::Char, binding_count, TypeRef::Int)),
        TypeRef::Range | TypeRef::RangeInclusive => Some(
            loop_binding_types(TypeRef::Int, binding_count, TypeRef::Int),
        ),
        TypeRef::Union(items) | TypeRef::Ambiguous(items) => {
            let ghost iv = views(items@);
            let ghost n = binding_count as nat;
            let mut merged: Option<Vec<TypeRef>> = None;
            let mut i: usize = 0;
            while i < items.len()
                invariant
                    0 <= i <= items.len(),
                    iv == views(items@),
                    opt_views(merged) == fold_bindings(iv.take(i as int), n),
                decreases items.len() - i,
            {
                proof {
                    assert(decreases_to!(*ty => items@[i as int]));
                    assert(iv.take(i + 1).drop_last() =~= iv.take(i as int));
                    assert(iv.take(i + 1)[i as int] == items@[i as int]@);
                }
                let next = for_binding_types_from_iterable(&items[i], binding_count);
                if let Some(next) = next {
                    merged = Some(
                        match merged {
                            Some(current) => crate::signatures::join_binding_type_sets(current, next),
                            None => next,
                        },
                    );
                }
                i += 1;
            }
            assert(iv.take(i as int) =~= iv);
            merged
        },
        _ => None,
    }
}

/// The type that an expected type gives a field: an object's field of that
/// name, a string-keyed map's value type, through nullables, and for a
/// union the join, in order, of what its members give.
pub open spec fn expected_field(t: Ty, name: Seq<char>) -> Option<Ty>
    decreases t,
{
    match t {
        Ty::Object(fs) => if field_index(fs, name) >= 0 {
            Some(fs[field_index(fs, name)].1)
        } else {
            None
        },
        Ty::Dict(k, v) => if *k is Str || *k is Unknown || *k is Any {
            Some(*v)
        } else {
            None
        },
        Ty::Nullable(inner) => expected_field(*inner, name),
        Ty::Union(items) => fold_expected(items, name),
        _ => None,
    }
}

/// The join, in order, of the types that the expected types give a field.
pub open spec fn fold_expected(items: Seq<Ty>, name: Seq<char>) -> Option<Ty>
    decreases items,
{
    if items.len() == 0 {
        None
    } else {
        let merged = fold_expected(items.drop_last(), name);
        match expected_field(items[items.len() - 1], name) {
            None => merged,
            Some(next) => Some(
                match merged {
                    Some(current) => join(current, next),
                    None => next,
                },
            ),
        }
    }
}

fn is_string_like_key(k: &TypeRef) -> (r: bool)
    ensures
        r == (k@ is Str || k@ is Unknown || k@ is Any),
{
    match k {
        TypeRef::String | TypeRef::Unknown | TypeRef::Any => true,
        _ => false,
    }
}

/// The type that an expected type gives the named field, as
/// `expected_field` states.
#[verifier::loop_isolation(false)]
pub fn expected_object_field_type(expected: &TypeRef, field_name: &str) -> (r: Option<TypeRef>)
    ensures
        crate::lattice::opt_ty(r) == expected_field(expected@, field_name@),
    decreases expected,
{
    proof {
        lemma_model_unfold(*expected);
    }
    match expected {
        TypeRef::Object(fields) => {
            proof {
                lemma_field_index(field_views(fields@), field_name@);
            }
            assert(expected@ == Ty::Object(field_views(fields@)));
            match crate::overload::field_index_exec(fields, field_name) {
                Some(k) => {
                    assert(field_views(fields@)[k as int].1 == fields@[k as int].ty@);
                    assert(expected_field(expected@, field_name@) == Some(field_views(fields@)[k as int].1));
                    Some(clone_type(&fields[k].ty))
                },
                None => {
                    assert(expected_field(expected@, field_name@) is None);
                    None
                },
            }
        },
        TypeRef::Dict(key, value) => if is_string_like_key(key) {
            Some(clone_type(value))
        } else {
            None
        },
        TypeRef::Nullable(inner) => expected_object_field_type(inner, field_name),
        TypeRef::Union(items) => {
            let ghost iv = views(items@);
            let mut merged: Option<TypeRef> = None;
            let mut i: usize = 0;
            while i < items.len()
                invariant
                    0 <= i <= items.len(),
                    iv == views(items@),
                    crate::lattice::opt_ty(merged) == fold_expected(iv.take(i as int), field_name@),
                decreases items.len() - i,
            {
                proof {
                    assert(decreases_to!(*expected => items@[i as int]));
                    assert(iv.take(i + 1).drop_last() =~= iv.take(i as int));
                    assert(iv.take(i + 1)[i as int] == items@[i as int]@);
                }
                let next = expected_object_field_type(&items[i], field_name);
                if let Some(next) = next {
                    merged = Some(
                        match merged {
                            Some(current) => join_types(&current, &next),
                            None => next,
                        },
                    );
                }
                i += 1;
            }
            assert(iv.take(i as int) =~= iv);
            merged
        },
        _ => None,
    }
}

/// The annotation of a member seen again with another type: the join of the
/// two, or the new type when there was none.
pub fn merge_member_annotation(current: Option<&TypeRef>, added: &TypeRef) -> (r: Option<TypeRef>)
    ensures
        crate::lattice::opt_ty(r) == Some(
            match current {
                Some(c) => join(c@, added@),
                None => added@,
            },
        ),
{
    match current {
        Some(current) => Some(join_types(current, added)),
        None => Some(clone_type(added)),
    }
}

/// What each way of resolving a call's callee gives, in the order the ways
/// are tried.
pub struct CallTargetSources {
    /// The overloads of the local function that the callee names; empty
    /// when the callee names none.
    pub local: Vec<CallableTarget>,
    /// Whether the call dispatches through its first argument (a caller-scope
    /// call with no resolved callee and a first argument).
    pub dispatches_via_first_arg: bool,
    /// The targets of the first argument.
    pub first_arg: Vec<CallableTarget>,
    /// The targets of the resolved callee symbol; empty without one.
    pub symbol_use: Vec<CallableTarget>,
    /// Whether the callee is an expression of the file.
    pub has_callee_expr: bool,
    /// The host method signature that the callee expression calls, if any.
    pub host_method: Option<FunctionTypeRef>,
    /// The targets of the callee expression.
    pub callee_expr: Vec<CallableTarget>,
    /// The targets found by the callee's name; empty when the callee has
    /// no name.
    pub named: Vec<CallableTarget>,
}

/// The targets of a call: the local function's overloads when there are
/// any; for a call that dispatches through its first argument, that
/// argument's targets; otherwise the resolved symbol's targets, else the
/// host method of the callee expression on its own or the expression's
/// targets, else the targets found by name; repeats dropped in every case
/// but the first two.
pub open spec fn call_targets(s: CallTargetSources) -> Seq<(Option<u32>, (Seq<Ty>, Ty))> {
    if s.local@.len() > 0 {
        target_views(s.local@)
    } else if s.dispatches_via_first_arg {
        dedup_targets(target_views(s.first_arg@))
    } else if s.symbol_use@.len() > 0 {
        dedup_targets(target_views(s.symbol_use@))
    } else if s.has_callee_expr && s.host_method is Some {
        seq![(None, s.host_method->0.sig())]
    } else if s.has_callee_expr && s.callee_expr@.len() > 0 {
        dedup_targets(target_views(s.callee_expr@))
    } else {
        dedup_targets(target_views(s.named@))
    }
}

/// The targets of a call, as `call_targets` states.
pub fn callable_targets_for_call(sources: CallTargetSources) -> (r: Vec<CallableTarget>)
    ensures
        target_views(r@) == call_targets(sources),
{
    let CallTargetSources {
        local,
        dispatches_via_first_arg,
        first_arg,
        symbol_use,
        has_callee_expr,
        host_method,
        callee_expr,
        named,
    } = sources;
    if local.len() > 0 {
        return local;
    }
    if dispatches_via_first_arg {
        return dedup_callable_targets(first_arg);
    }
    if symbol_use.len() > 0 {
        return dedup_callable_targets(symbol_use);
    }
    if has_callee_expr {
        if let Some(signature) = host_method {
            let mut only: Vec<CallableTarget> = Vec::new();
            only.push(CallableTarget { signature, local_symbol: None });
            assert(target_views(only@) =~= call_targets(sources));
            return only;
        }
        if callee_expr.len() > 0 {
            return dedup_callable_targets(callee_expr);
        }
    }
    dedup_callable_targets(named)
}

/// What a callee expression is, as finding its call targets reads it.
pub enum CalleeExpr {
    /// A name that refers to no symbol.
    UnresolvedName,
    /// A name of a local function, with the targets found for the reference.
    LocalFunction(Vec<CallableTarget>),
    /// A name of another symbol, with the targets its uses give.
    SymbolUse(Vec<CallableTarget>),
    /// A field access, with the method targets found for it.
    Field(Vec<CallableTarget>),
    /// A parenthesised expression and its largest inner expression, if any.
    Paren(Option<Box<CalleeExpr>>),
    /// A call of the builtin `Fn`, with the targets that its string argument
    /// names; none when it is no such call or names nothing by a literal.
    FnPointerCall(Option<Vec<CallableTarget>>),
    /// A closure or any other expression, with its inferred type, if any.
    Typed(Option<TypeRef>),
}

/// The call targets of a callee expression: the targets found for a name,
/// field or `Fn` call; those of the inner expression of parentheses; and for
/// any other expression, the one signature its inferred type can be called
/// with, if any.
pub open spec fn expr_targets(
    e: CalleeExpr,
    args: Option<Seq<Option<Ty>>>,
    hs: Seq<Seq<char>>,
) -> Seq<(Option<u32>, (Seq<Ty>, Ty))>
    decreases e,
{
    match e {
        CalleeExpr::UnresolvedName => Seq::empty(),
        CalleeExpr::LocalFunction(ts) => target_views(ts@),
        CalleeExpr::SymbolUse(ts) => target_views(ts@),
        CalleeExpr::Field(ts) => target_views(ts@),
        CalleeExpr::Paren(inner) => match inner {
            Some(b) => expr_targets(*b, args, hs),
            None => Seq::empty(),
        },
        CalleeExpr::FnPointerCall(ts) => match ts {
            Some(t) => target_views(t@),
            None => Seq::empty(),
        },
        CalleeExpr::Typed(ty) => match ty {
            Some(t) => match crate::signatures::sig_from(t@, args, hs) {
                Some(sig) => seq![(None::<u32>, sig)],
                None => Seq::empty(),
            },
            None => Seq::empty(),
        },
    }
}

/// The call targets of a callee expression, as `expr_targets` states.
pub fn callable_targets_for_expr(
    expr: CalleeExpr,
    arg_types: Option<&[Option<TypeRef>]>,
    host_types: &[crate::host::HostType],
) -> (r: Vec<CallableTarget>)
    ensures
        target_views(r@) == expr_targets(expr, crate::signatures::arg_models(arg_types), crate::host::host_names(host_types@)),
    decreases expr,
{
    match expr {
        CalleeExpr::UnresolvedName => {
            let r: Vec<CallableTarget> = Vec::new();
            assert(target_views(r@) =~= Seq::<(Option<u32>, (Seq<Ty>, Ty))>::empty());
            r
        },
        CalleeExpr::LocalFunction(ts) => ts,
        CalleeExpr::SymbolUse(ts) => ts,
        CalleeExpr::Field(ts) => ts,
        CalleeExpr::Paren(inner) => match inner {
            Some(b) => callable_targets_for_expr(*b, arg_types, host_types),
            None => {
                let r: Vec<CallableTarget> = Vec::new();
                assert(target_views(r@) =~= Seq::<(Option<u32>, (Seq<Ty>, Ty))>::empty());
                r
            },
        },
        CalleeExpr::FnPointerCall(ts) => match ts {
            Some(t) => t,
            None => {
                let r: Vec<CallableTarget> = Vec::new();
                assert(target_views(r@) =~= Seq::<(Option<u32>, (Seq<Ty>, Ty))>::empty());
                r
            },
        },
        CalleeExpr::Typed(ty) => {
            let mut r: Vec<CallableTarget> = Vec::new();
            if let Some(t) = &ty {
                if let Some(signature) = crate::signatures::signature_from_type(t, arg_types, host_types) {
                    r.push(CallableTarget { signature, local_symbol: None });
                }
            }
            assert(target_views(r@) =~= expr_targets(
                CalleeExpr::Typed(ty),
                crate::signatures::arg_models(arg_types),
                crate::host::host_names(host_types@),
            ));
            r
        },
    }
}

} // verus!
