//! Overload selection: how well argument types match a candidate signature,
//! and which candidates match best.

use vstd::prelude::*;

use crate::lattice::{fields_size, lemma_fields_size_elem, lemma_skip_first, lemma_tys_size_elem, ty_size, tys_size};
use crate::ty::{field_views, lemma_model_unfold, type_eq, views, FunctionTypeRef, Ty, TypeRef};

verus! {

/// How well one argument type matches one parameter type, from worst to best.
#[derive(Debug, Clone, Copy, PartialEq, Eq)]
pub enum ParamMatchScore {
    Mismatch,
    Unknown,
    Partial,
    Exact,
}

/// How closely a call's argument types match one candidate signature.
#[derive(Debug, Clone, Copy, PartialEq, Eq, Hash)]
pub enum SignatureMatchQuality {
    Mismatch,
    Unknown,
    Partial,
    Exact,
}

/// The rank of a parameter score, in the order `Mismatch < Unknown < Partial < Exact`.
pub open spec fn score_rank(s: ParamMatchScore) -> int {
    match s {
        ParamMatchScore::Mismatch => 0,
        ParamMatchScore::Unknown => 1,
        ParamMatchScore::Partial => 2,
        ParamMatchScore::Exact => 3,
    }
}

/// The better of two parameter scores.
pub open spec fn better(a: ParamMatchScore, b: ParamMatchScore) -> ParamMatchScore {
    if score_rank(a) >= score_rank(b) {
        a
    } else {
        b
    }
}

/// An exact match one level down counts as partial.
pub open spec fn downgrade(s: ParamMatchScore) -> ParamMatchScore {
    if s == ParamMatchScore::Exact {
        ParamMatchScore::Partial
    } else {
        s
    }
}

/// The score of a composite from the scores of its parts: any mismatch
/// mismatches, else any partial part makes it partial, else any unknown part
/// makes it unknown, else it is exact.
pub open spec fn aggregate(scores: Seq<ParamMatchScore>) -> ParamMatchScore {
    if scores.contains(ParamMatchScore::Mismatch) {
        ParamMatchScore::Mismatch
    } else if scores.contains(ParamMatchScore::Partial) {
        ParamMatchScore::Partial
    } else if scores.contains(ParamMatchScore::Unknown) {
        ParamMatchScore::Unknown
    } else {
        ParamMatchScore::Exact
    }
}

/// Types that match anything without telling anything.
pub open spec fn is_opaque(t: Ty) -> bool {
    t is Unknown || t is Any || t is Dynamic || t is Never
}

/// The position of the first field named `name`, or -1.
pub open spec fn field_index(fs: Seq<(Seq<char>, Ty)>, name: Seq<char>) -> int
    decreases fs.len(),
{
    if fs.len() == 0 {
        -1
    } else if fs[0].0 == name {
        0
    } else {
        let r = field_index(fs.drop_first(), name);
        if r < 0 {
            -1
        } else {
            r + 1
        }
    }
}

pub proof fn lemma_field_index(fs: Seq<(Seq<char>, Ty)>, name: Seq<char>)
    ensures
        -1 <= field_index(fs, name) < fs.len(),
        field_index(fs, name) >= 0 ==> fs[field_index(fs, name)].0 == name,
        forall|j: int|
            0 <= j < fs.len() && (field_index(fs, name) < 0 || j < field_index(fs, name))
                ==> #[trigger] fs[j].0 != name,
    decreases fs.len(),
{
    if fs.len() > 0 && fs[0].0 != name {
        lemma_field_index(fs.drop_first(), name);
        assert forall|j: int|
            0 <= j < fs.len() && (field_index(fs, name) < 0 || j < field_index(fs, name))
                implies #[trigger] fs[j].0 != name by {
            if j > 0 {
                assert(fs[j] == fs.drop_first()[j - 1]);
            }
        }
    }
}

/// How well an argument of type `a` matches a parameter of type `e`.
pub open spec fn param_match(e: Ty, a: Ty) -> ParamMatchScore
    decreases ty_size(e) + ty_size(a),
{
    if e == a {
        ParamMatchScore::Exact
    } else if is_opaque(e) || is_opaque(a) {
        ParamMatchScore::Unknown
    } else if e is Ambiguous {
        best_match(e->Ambiguous_0, a)
    } else if a is Ambiguous {
        best_match(a->Ambiguous_0, e)
    } else if e is Union {
        best_match(e->Union_0, a)
    } else if a is Union {
        best_match(a->Union_0, e)
    } else {
        match (e, a) {
            (Ty::Nullable(l), Ty::Nullable(r)) => downgrade(param_match(*l, *r)),
            (Ty::Nullable(inner), _) => downgrade(param_match(*inner, a)),
            (_, Ty::Nullable(inner)) => downgrade(param_match(*inner, e)),
            (Ty::Named(l), Ty::Applied(n, _)) => if l == n {
                ParamMatchScore::Partial
            } else {
                ParamMatchScore::Mismatch
            },
            (Ty::Applied(n, _), Ty::Named(l)) => if l == n {
                ParamMatchScore::Partial
            } else {
                ParamMatchScore::Mismatch
            },
            (Ty::Applied(ln, la), Ty::Applied(rn, ra)) => if ln == rn && la.len() == ra.len() {
                aggregate(zip_matches(la, ra))
            } else {
                ParamMatchScore::Mismatch
            },
            (Ty::Array(l), Ty::Array(r)) => downgrade(param_match(*l, *r)),
            (Ty::Object(lf), Ty::Object(rf)) => aggregate(field_matches(lf, rf)),
            (Ty::Dict(lk, lv), Ty::Dict(rk, rv)) => aggregate(
                seq![param_match(*lk, *rk), param_match(*lv, *rv)],
            ),
            (Ty::Function(lp, lr), Ty::Function(rp, rr)) => if lp.len() == rp.len() {
                aggregate(zip_matches(lp, rp).push(param_match(*lr, *rr)))
            } else {
                ParamMatchScore::Mismatch
            },
            _ => ParamMatchScore::Mismatch,
        }
    }
}

/// The best match of any of `items` against `other`; `Mismatch` when there are none.
pub open spec fn best_match(items: Seq<Ty>, other: Ty) -> ParamMatchScore
    decreases tys_size(items) + ty_size(other),
{
    if items.len() == 0 {
        ParamMatchScore::Mismatch
    } else {
        better(param_match(items[0], other), best_match(items.drop_first(), other))
    }
}

/// Pointwise matches of two type lists, up to the shorter length.
pub open spec fn zip_matches(ls: Seq<Ty>, rs: Seq<Ty>) -> Seq<ParamMatchScore>
    decreases tys_size(ls) + tys_size(rs),
{
    if ls.len() == 0 || rs.len() == 0 {
        Seq::empty()
    } else {
        seq![param_match(ls[0], rs[0])] + zip_matches(ls.drop_first(), rs.drop_first())
    }
}

/// Matches of the fields of `lf` against the same-named fields of `rf`, for
/// the fields that `rf` has.
pub open spec fn field_matches(lf: Seq<(Seq<char>, Ty)>, rf: Seq<(Seq<char>, Ty)>) -> Seq<
    ParamMatchScore,
>
    decreases fields_size(lf) + fields_size(rf),
{
    if lf.len() == 0 {
        Seq::empty()
    } else {
        let k = field_index(rf, lf[0].0);
        proof {
            lemma_field_index(rf, lf[0].0);
            if k >= 0 {
                lemma_fields_size_elem(rf, k);
            }
        }
        let head = if k >= 0 {
            seq![param_match(lf[0].1, rf[k].1)]
        } else {
            Seq::empty()
        };
        head + field_matches(lf.drop_first(), rf)
    }
}

} // verus!

verus! {

/// An exact match one level down counts as partial.
pub fn downgrade_nested_match(score: ParamMatchScore) -> (r: ParamMatchScore)
    ensures
        r == downgrade(score),
{
    match score {
        ParamMatchScore::Exact => ParamMatchScore::Partial,
        other => other,
    }
}

/// Combines the scores of the parts of a composite type, as `aggregate` states.
pub fn aggregate_nested_match_scores(scores: &Vec<ParamMatchScore>) -> (r: ParamMatchScore)
    ensures
        r == aggregate(scores@),
{
    let mut saw_partial = false;
    let mut saw_unknown = false;
    let mut i: usize = 0;
    while i < scores.len()
        invariant
            0 <= i <= scores.len(),
            forall|j: int| 0 <= j < i ==> scores@[j] != ParamMatchScore::Mismatch,
            saw_partial == exists|j: int| 0 <= j < i && scores@[j] == ParamMatchScore::Partial,
            saw_unknown == exists|j: int| 0 <= j < i && scores@[j] == ParamMatchScore::Unknown,
        decreases scores.len() - i,
    {
        match scores[i] {
            ParamMatchScore::Mismatch => {
                assert(scores@.contains(ParamMatchScore::Mismatch));
                return ParamMatchScore::Mismatch;
            },
            ParamMatchScore::Unknown => {
                saw_unknown = true;
            },
            ParamMatchScore::Partial => {
                saw_partial = true;
            },
            ParamMatchScore::Exact => {},
        }
        i += 1;
    }
    if saw_partial {
        ParamMatchScore::Partial
    } else if saw_unknown {
        ParamMatchScore::Unknown
    } else {
        ParamMatchScore::Exact
    }
}

fn better_exec(a: ParamMatchScore, b: ParamMatchScore) -> (r: ParamMatchScore)
    ensures
        r == better(a, b),
{
    let ra: u8 = match a {
        ParamMatchScore::Mismatch => 0,
        ParamMatchScore::Unknown => 1,
        ParamMatchScore::Partial => 2,
        ParamMatchScore::Exact => 3,
    };
    let rb: u8 = match b {
        ParamMatchScore::Mismatch => 0,
        ParamMatchScore::Unknown => 1,
        ParamMatchScore::Partial => 2,
        ParamMatchScore::Exact => 3,
    };
    if ra >= rb {
        a
    } else {
        b
    }
}

fn is_opaque_exec(t: &TypeRef) -> (r: bool)
    ensures
        r == is_opaque(t@),
{
    match t {
        TypeRef::Unknown | TypeRef::Any | TypeRef::Dynamic | TypeRef::Never => true,
        _ => false,
    }
}

/// The best match of any of `items` against `other`, as `best_match` states.
fn best_match_exec(items: &Vec<TypeRef>, other: &TypeRef) -> (r: ParamMatchScore)
    ensures
        r == best_match(views(items@), other@),
    decreases tys_size(views(items@)) + ty_size(other@),
{
    let ghost iv = views(items@);
    let mut acc = ParamMatchScore::Mismatch;
    let mut i: usize = 0;
    assert(iv.skip(0) =~= iv);
    while i < items.len()
        invariant
            0 <= i <= items.len(),
            iv == views(items@),
            better(acc, best_match(iv.skip(i as int), other@)) == best_match(iv, other@),
        decreases items.len() - i,
    {
        proof {
            lemma_skip_first(iv, i as int);
            lemma_tys_size_elem(iv, i as int);
        }
        let s = param_match_score(&items[i], other);
        acc = better_exec(acc, s);
        i += 1;
    }
    assert(iv.skip(i as int).len() == 0);
    acc
}

/// Pointwise matches of two type lists, as `zip_matches` states.
fn zip_match_scores(ls: &Vec<TypeRef>, rs: &Vec<TypeRef>) -> (r: Vec<ParamMatchScore>)
    ensures
        r@ == zip_matches(views(ls@), views(rs@)),
    decreases tys_size(views(ls@)) + tys_size(views(rs@)),
{
    let ghost lv = views(ls@);
    let ghost rv = views(rs@);
    let mut out: Vec<ParamMatchScore> = Vec::new();
    let mut i: usize = 0;
    assert(lv.skip(0) =~= lv);
    assert(rv.skip(0) =~= rv);
    while i < ls.len() && i < rs.len()
        invariant
            0 <= i <= ls.len(),
            i <= rs.len(),
            lv == views(ls@),
            rv == views(rs@),
            out@ + zip_matches(lv.skip(i as int), rv.skip(i as int)) == zip_matches(lv, rv),
        decreases ls.len() - i,
    {
        proof {
            lemma_skip_first(lv, i as int);
            lemma_skip_first(rv, i as int);
            lemma_tys_size_elem(lv, i as int);
            lemma_tys_size_elem(rv, i as int);
        }
        let ghost before = out@;
        let s = param_match_score(&ls[i], &rs[i]);
        out.push(s);
        assert(out@ =~= before + seq![s]);
        i += 1;
    }
    assert(lv.skip(i as int).len() == 0 || rv.skip(i as int).len() == 0);
    assert(out@ =~= zip_matches(lv, rv));
    out
}

/// The position of the first field named `name`, as `field_index` states.
pub fn field_index_exec(fs: &Vec<crate::ty::ObjectField>, name: &str) -> (r: Option<usize>)
    ensures
        match r {
            Some(k) => k as int == field_index(field_views(fs@), name@) && k < fs.len(),
            None => field_index(field_views(fs@), name@) < 0,
        },
{
    let ghost fv = field_views(fs@);
    proof {
        lemma_field_index(fv, name@);
    }
    let mut i: usize = 0;
    while i < fs.len()
        invariant
            0 <= i <= fs.len(),
            fv == field_views(fs@),
            -1 <= field_index(fv, name@) < fv.len(),
            field_index(fv, name@) >= 0 ==> fv[field_index(fv, name@)].0 == name@,
            forall|j: int| 0 <= j < i ==> #[trigger] fv[j].0 != name@,
        decreases fs.len() - i,
    {
        if crate::generics::str_eq(fs[i].name.as_str(), name) {
            proof {
                let k = field_index(fv, name@);
                if k < 0 || k > i {
                    lemma_field_index(fv, name@);
                    assert(fv[i as int].0 != name@);
                }
            }
            return Some(i);
        }
        i += 1;
    }
    proof {
        let k = field_index(fv, name@);
        if k >= 0 {
            assert(fv[k].0 != name@);
        }
    }
    None
}

/// Matches of same-named fields, as `field_matches` states.
fn field_match_scores(lf: &Vec<crate::ty::ObjectField>, rf: &Vec<crate::ty::ObjectField>) -> (r: Vec<
    ParamMatchScore,
>)
    ensures
        r@ == field_matches(field_views(lf@), field_views(rf@)),
    decreases fields_size(field_views(lf@)) + fields_size(field_views(rf@)),
{
    let ghost lv = field_views(lf@);
    let ghost rv = field_views(rf@);
    let mut out: Vec<ParamMatchScore> = Vec::new();
    let mut i: usize = 0;
    assert(lv.skip(0) =~= lv);
    while i < lf.len()
        invariant
            0 <= i <= lf.len(),
            lv == field_views(lf@),
            rv == field_views(rf@),
            out@ + field_matches(lv.skip(i as int), rv) == field_matches(lv, rv),
        decreases lf.len() - i,
    {
        proof {
            lemma_skip_first(lv, i as int);
            lemma_fields_size_elem(lv, i as int);
        }
        let ghost before = out@;
        match field_index_exec(rf, lf[i].name.as_str()) {
            Some(k) => {
                proof {
                    lemma_fields_size_elem(rv, k as int);
                }
                let s = param_match_score(&lf[i].ty, &rf[k].ty);
                out.push(s);
                assert(out@ =~= before + seq![s]);
            },
            None => {
                assert(out@ =~= before + Seq::<ParamMatchScore>::empty());
            },
        }
        i += 1;
    }
    assert(lv.skip(i as int).len() == 0);
    assert(out@ =~= field_matches(lv, rv));
    out
}

/// How well an argument of type `actual` matches a parameter of type
/// `expected`, as `param_match` states.
pub fn param_match_score(expected: &TypeRef, actual: &TypeRef) -> (r: ParamMatchScore)
    ensures
        r == param_match(expected@, actual@),
    decreases ty_size(expected@) + ty_size(actual@),
{
    proof {
        lemma_model_unfold(*expected);
        lemma_model_unfold(*actual);
    }
    if type_eq(expected, actual) {
        return ParamMatchScore::Exact;
    }
    if is_opaque_exec(expected) || is_opaque_exec(actual) {
        return ParamMatchScore::Unknown;
    }
    if let TypeRef::Ambiguous(items) = expected {
        return best_match_exec(items, actual);
    }
    if let TypeRef::Ambiguous(items) = actual {
        return best_match_exec(items, expected);
    }
    if let TypeRef::Union(items) = expected {
        return best_match_exec(items, actual);
    }
    if let TypeRef::Union(items) = actual {
        return best_match_exec(items, expected);
    }
    match (expected, actual) {
        (TypeRef::Nullable(l), TypeRef::Nullable(r)) => downgrade_nested_match(
            param_match_score(l, r),
        ),
        (TypeRef::Nullable(inner), _) => downgrade_nested_match(param_match_score(inner, actual)),
        (_, TypeRef::Nullable(inner)) => downgrade_nested_match(param_match_score(inner, expected)),
        (TypeRef::Named(l), TypeRef::Applied { name, .. }) => {
            if *l == *name {
                ParamMatchScore::Partial
            } else {
                ParamMatchScore::Mismatch
            }
        },
        (TypeRef::Applied { name, .. }, TypeRef::Named(l)) => {
            if *l == *name {
                ParamMatchScore::Partial
            } else {
                ParamMatchScore::Mismatch
            }
        },
        (TypeRef::Applied { name: ln, args: la }, TypeRef::Applied { name: rn, args: ra }) => {
            if *ln == *rn && la.len() == ra.len() {
                let scores = zip_match_scores(la, ra);
                aggregate_nested_match_scores(&scores)
            } else {
                ParamMatchScore::Mismatch
            }
        },
        (TypeRef::Array(l), TypeRef::Array(r)) => downgrade_nested_match(param_match_score(l, r)),
        (TypeRef::Object(lf), TypeRef::Object(rf)) => {
            let scores = field_match_scores(lf, rf);
            aggregate_nested_match_scores(&scores)
        },
        (TypeRef::Dict(lk, lv), TypeRef::Dict(rk, rv)) => {
            let mut scores: Vec<ParamMatchScore> = Vec::new();
            scores.push(param_match_score(lk, rk));
            scores.push(param_match_score(lv, rv));
            assert(scores@ =~= seq![param_match(lk@, rk@), param_match(lv@, rv@)]);
            aggregate_nested_match_scores(&scores)
        },
        (TypeRef::Function(f), TypeRef::Function(g)) => {
            if f.params.len() == g.params.len() {
                let mut scores = zip_match_scores(&f.params, &g.params);
                scores.push(param_match_score(&f.ret, &g.ret));
                aggregate_nested_match_scores(&scores)
            } else {
                ParamMatchScore::Mismatch
            }
        },
        _ => ParamMatchScore::Mismatch,
    }
}

} // verus!

verus! {

/// The score of one argument against its parameter; a missing argument type
/// is unknown.
pub open spec fn arg_score(p: Ty, a: Option<Ty>) -> ParamMatchScore {
    match a {
        None => ParamMatchScore::Unknown,
        Some(x) => param_match(p, x),
    }
}

/// How many of the first `n` arguments score `s` against their parameters.
pub open spec fn count_scores(ps: Seq<Ty>, args: Seq<Option<Ty>>, s: ParamMatchScore, n: int) -> nat
    decreases n,
{
    if n <= 0 {
        0
    } else {
        count_scores(ps, args, s, n - 1) + if arg_score(ps[n - 1], args[n - 1]) == s {
            1nat
        } else {
            0nat
        }
    }
}

/// A signature's score against argument types, as the tuple
/// `(mismatch free, exact, partial, unknown, mismatched)` of argument counts.
pub open spec fn sig_score(ps: Seq<Ty>, args: Seq<Option<Ty>>) -> (bool, int, int, int, int) {
    let n = if ps.len() <= args.len() {
        ps.len() as int
    } else {
        args.len() as int
    };
    let mismatched = count_scores(ps, args, ParamMatchScore::Mismatch, n) as int;
    (
        mismatched == 0,
        count_scores(ps, args, ParamMatchScore::Exact, n) as int,
        count_scores(ps, args, ParamMatchScore::Partial, n) as int,
        count_scores(ps, args, ParamMatchScore::Unknown, n) as int,
        mismatched,
    )
}

/// The order of signature scores: mismatch-free beats mismatching, then more
/// exact arguments, then more partial ones, then fewer mismatches, then fewer
/// unknowns.
pub open spec fn score_lt(a: (bool, int, int, int, int), b: (bool, int, int, int, int)) -> bool {
    if a.0 != b.0 {
        !a.0
    } else if a.1 != b.1 {
        a.1 < b.1
    } else if a.2 != b.2 {
        a.2 < b.2
    } else if a.4 != b.4 {
        a.4 > b.4
    } else {
        a.3 > b.3
    }
}

/// The models of optional argument types.
pub open spec fn arg_views(args: Seq<Option<TypeRef>>) -> Seq<Option<Ty>> {
    Seq::new(
        args.len(),
        |i: int|
            match args[i] {
                Some(t) => Some(t@),
                None => None,
            },
    )
}

/// The score of candidate `k` against the argument types.
pub open spec fn candidate_score(sigs: Seq<FunctionTypeRef>, args: Seq<Option<TypeRef>>, k: int) -> (
    bool,
    int,
    int,
    int,
    int,
) {
    sig_score(sigs[k].sig().0, arg_views(args))
}

/// Whether candidate `k` takes as many parameters as there are arguments.
pub open spec fn arity_fits(sigs: Seq<FunctionTypeRef>, args: Seq<Option<TypeRef>>, k: int) -> bool {
    sigs[k].params.len() == args.len()
}

/// Whether candidate `k` fits the arity and no fitting candidate scores higher.
pub open spec fn is_best_candidate(
    sigs: Seq<FunctionTypeRef>,
    args: Seq<Option<TypeRef>>,
    k: int,
) -> bool {
    &&& 0 <= k < sigs.len()
    &&& arity_fits(sigs, args, k)
    &&& forall|j: int|
        0 <= j < sigs.len() && arity_fits(sigs, args, j) ==> !score_lt(
            candidate_score(sigs, args, k),
            #[trigger] candidate_score(sigs, args, j),
        )
}

/// The quality of a score: mismatching, exact when every compared argument
/// is exact, partial when some is exact or partial, unknown otherwise.
pub open spec fn quality_of(s: (bool, int, int, int, int)) -> SignatureMatchQuality {
    if !s.0 {
        SignatureMatchQuality::Mismatch
    } else if s.1 + s.2 + s.3 > 0 && s.1 == s.1 + s.2 + s.3 {
        SignatureMatchQuality::Exact
    } else if s.1 > 0 || s.2 > 0 {
        SignatureMatchQuality::Partial
    } else {
        SignatureMatchQuality::Unknown
    }
}

/// A signature's score against argument types.
#[derive(Debug, Clone, Copy, PartialEq, Eq)]
pub struct SignatureScore {
    pub mismatch_free: bool,
    pub exact: usize,
    pub partial: usize,
    pub unknown: usize,
    pub mismatched: usize,
}

impl SignatureScore {
    /// The score as the tuple that `sig_score` describes.
    pub open spec fn tuple(self) -> (bool, int, int, int, int) {
        (
            self.mismatch_free,
            self.exact as int,
            self.partial as int,
            self.unknown as int,
            self.mismatched as int,
        )
    }

    /// The quality of this score, as `quality_of` states.
    pub fn quality(self) -> (r: SignatureMatchQuality)
        requires
            self.mismatch_free ==> self.exact + self.partial + self.unknown <= usize::MAX,
        ensures
            r == quality_of(self.tuple()),
    {
        if !self.mismatch_free {
            return SignatureMatchQuality::Mismatch;
        }
        let compared = self.exact + self.partial + self.unknown;
        if compared > 0 && self.exact == compared {
            return SignatureMatchQuality::Exact;
        }
        if self.exact > 0 || self.partial > 0 {
            return SignatureMatchQuality::Partial;
        }
        SignatureMatchQuality::Unknown
    }
}

proof fn lemma_count_step(ps: Seq<Ty>, args: Seq<Option<Ty>>, n: int)
    requires
        0 <= n,
    ensures
        count_scores(ps, args, ParamMatchScore::Exact, n) + count_scores(
            ps,
            args,
            ParamMatchScore::Partial,
            n,
        ) + count_scores(ps, args, ParamMatchScore::Unknown, n) + count_scores(
            ps,
            args,
            ParamMatchScore::Mismatch,
            n,
        ) == n,
    decreases n,
{
    if n > 0 {
        lemma_count_step(ps, args, n - 1);
    }
}

/// Scores a signature against argument types, counting each argument's
/// match over the zipped parameters and arguments.
pub fn signature_match_score(signature: &FunctionTypeRef, arg_types: &[Option<TypeRef>]) -> (r:
    SignatureScore)
    ensures
        r.tuple() == sig_score(signature.sig().0, arg_views(arg_types@)),
        r.exact + r.partial + r.unknown + r.mismatched <= signature.params.len(),
{
    let ghost ps = signature.sig().0;
    let ghost av = arg_views(arg_types@);
    let n = if signature.params.len() <= arg_types.len() {
        signature.params.len()
    } else {
        arg_types.len()
    };
    let mut score = SignatureScore {
        mismatch_free: true,
        exact: 0,
        partial: 0,
        unknown: 0,
        mismatched: 0,
    };
    let mut i: usize = 0;
    while i < n
        invariant
            0 <= i <= n,
            n <= signature.params.len(),
            n <= arg_types.len(),
            ps == views(signature.params@),
            av == arg_views(arg_types@),
            score.exact == count_scores(ps, av, ParamMatchScore::Exact, i as int),
            score.partial == count_scores(ps, av, ParamMatchScore::Partial, i as int),
            score.unknown == count_scores(ps, av, ParamMatchScore::Unknown, i as int),
            score.mismatched == count_scores(ps, av, ParamMatchScore::Mismatch, i as int),
            score.mismatch_free == (score.mismatched == 0),
            score.exact + score.partial + score.unknown + score.mismatched == i,
        decreases n - i,
    {
        proof {
            lemma_count_step(ps, av, i as int);
        }
        let s = match &arg_types[i] {
            None => ParamMatchScore::Unknown,
            Some(arg) => param_match_score(&signature.params[i], arg),
        };
        assert(s == arg_score(ps[i as int], av[i as int]));
        match s {
            ParamMatchScore::Exact => score.exact = score.exact + 1,
            ParamMatchScore::Partial => score.partial = score.partial + 1,
            ParamMatchScore::Unknown => score.unknown = score.unknown + 1,
            ParamMatchScore::Mismatch => {
                score.mismatch_free = false;
                score.mismatched = score.mismatched + 1;
            },
        }
        i += 1;
    }
    score
}

fn score_greater(a: &SignatureScore, b: &SignatureScore) -> (r: bool)
    ensures
        r == score_lt(b.tuple(), a.tuple()),
{
    if a.mismatch_free != b.mismatch_free {
        a.mismatch_free
    } else if a.exact != b.exact {
        a.exact > b.exact
    } else if a.partial != b.partial {
        a.partial > b.partial
    } else if a.mismatched != b.mismatched {
        a.mismatched < b.mismatched
    } else {
        a.unknown < b.unknown
    }
}

fn score_same(a: &SignatureScore, b: &SignatureScore) -> (r: bool)
    ensures
        r == (a.tuple() == b.tuple()),
{
    a.mismatch_free == b.mismatch_free && a.exact == b.exact && a.partial == b.partial
        && a.unknown == b.unknown && a.mismatched == b.mismatched
}

/// The indexes of the candidate signatures that take as many parameters as
/// there are arguments and score best against the argument types, ascending.
pub fn best_matching_signature_indexes(
    signatures: &[FunctionTypeRef],
    arg_types: &[Option<TypeRef>],
) -> (r: Vec<usize>)
    ensures
        forall|i: int, j: int| 0 <= i < j < r@.len() ==> r@[i] < r@[j],
        forall|i: int| 0 <= i < r@.len() ==> r@[i] < signatures@.len(),
        forall|k: int|
            0 <= k < signatures@.len() ==> (r@.contains(k as usize) <==> is_best_candidate(
                signatures@,
                arg_types@,
                k,
            )),
        r@.len() > 0 <==> exists|k: int| 0 <= k < signatures@.len() && arity_fits(signatures@, arg_types@, k),
{
    let ghost sigs = signatures@;
    let ghost args = arg_types@;
    let mut best_score: Option<SignatureScore> = None;
    let mut best_indexes: Vec<usize> = Vec::new();
    let mut index: usize = 0;
    while index < signatures.len()
        invariant
            0 <= index <= signatures.len(),
            sigs == signatures@,
            args == arg_types@,
            forall|i: int, j: int| 0 <= i < j < best_indexes@.len() ==> best_indexes@[i] < best_indexes@[j],
            forall|i: int| 0 <= i < best_indexes@.len() ==> best_indexes@[i] < index,
            best_score is None <==> forall|k: int| 0 <= k < index ==> !arity_fits(sigs, args, k),
            best_score is None ==> best_indexes@.len() == 0,
            best_score matches Some(b) ==> {
                &&& best_indexes@.len() > 0
                &&& forall|k: int|
                    0 <= k < index && arity_fits(sigs, args, k) ==> !score_lt(
                        b.tuple(),
                        #[trigger] candidate_score(sigs, args, k),
                    )
                &&& forall|k: int|
                    0 <= k < index ==> (best_indexes@.contains(k as usize) <==> (arity_fits(
                        sigs,
                        args,
                        k,
                    ) && candidate_score(sigs, args, k) == b.tuple()))
            },
        decreases signatures.len() - index,
    {
        let signature = &signatures[index];
        if signature.params.len() != arg_types.len() {
            proof {
                assert(!arity_fits(sigs, args, index as int));
                if let Some(b) = best_score {
                    assert forall|k: int|
                        0 <= k < index + 1 implies (best_indexes@.contains(k as usize) <==> (
                        arity_fits(sigs, args, k) && candidate_score(sigs, args, k) == b.tuple()))
                        by {
                        if k == index {
                            assert(!best_indexes@.contains(k as usize));
                        }
                    }
                }
            }
            index += 1;
            continue;
        }
        let score = signature_match_score(signature, arg_types);
        assert(score.tuple() == candidate_score(sigs, args, index as int));
        let ghost old_indexes = best_indexes@;
        match best_score {
            None => {
                best_score = Some(score);
                best_indexes.push(index);
                proof {
                    assert forall|k: int|
                        0 <= k < index + 1 implies (best_indexes@.contains(k as usize) <==> (
                        arity_fits(sigs, args, k) && candidate_score(sigs, args, k)
                            == score.tuple())) by {
                        if k < index {
                            assert(!arity_fits(sigs, args, k));
                            assert(!old_indexes.contains(k as usize));
                            if best_indexes@.contains(k as usize) {
                                let x = choose|x: int| 0 <= x < best_indexes@.len() && best_indexes@[x] == k as usize;
                                assert(best_indexes@ == old_indexes.push(index));
                            }
                        } else {
                            assert(best_indexes@[0] == index);
                        }
                    }
                }
            },
            Some(current) => {
                if score_greater(&score, &current) {
                    best_score = Some(score);
                    best_indexes.clear();
                    best_indexes.push(index);
                    proof {
                        assert forall|k: int|
                            0 <= k < index + 1 implies (best_indexes@.contains(k as usize) <==> (
                            arity_fits(sigs, args, k) && candidate_score(sigs, args, k)
                                == score.tuple())) by {
                            if k < index && arity_fits(sigs, args, k) {
                                assert(!score_lt(current.tuple(), candidate_score(sigs, args, k)));
                            }
                            if best_indexes@.contains(k as usize) {
                                let x = choose|x: int| 0 <= x < best_indexes@.len() && best_indexes@[x] == k as usize;
                                assert(x == 0);
                            }
                            if k == index {
                                assert(best_indexes@[0] == index);
                            }
                        }
                        assert forall|k: int|
                            0 <= k < index + 1 && arity_fits(sigs, args, k) implies !score_lt(
                            score.tuple(),
                            #[trigger] candidate_score(sigs, args, k),
                        ) by {
                            if k < index {
                                assert(!score_lt(current.tuple(), candidate_score(sigs, args, k)));
                            }
                        }
                    }
                } else if score_same(&score, &current) {
                    best_indexes.push(index);
                    proof {
                        assert(best_indexes@ == old_indexes.push(index));
                        assert forall|k: int|
                            0 <= k < index + 1 implies (best_indexes@.contains(k as usize) <==> (
                            arity_fits(sigs, args, k) && candidate_score(sigs, args, k)
                                == current.tuple())) by {
                            if k < index {
                                if best_indexes@.contains(k as usize) {
                                    let x = choose|x: int| 0 <= x < best_indexes@.len() && best_indexes@[x] == k as usize;
                                    if x == old_indexes.len() {
                                        assert(best_indexes@[x] == index);
                                    } else {
                                        assert(old_indexes[x] == k as usize);
                                    }
                                }
                                if old_indexes.contains(k as usize) {
                                    let x = choose|x: int| 0 <= x < old_indexes.len() && old_indexes[x] == k as usize;
                                    assert(best_indexes@[x] == k as usize);
                                }
                            } else {
                                assert(best_indexes@[old_indexes.len() as int] == index);
                            }
                        }
                    }
                } else {
                    proof {
                        assert forall|k: int|
                            0 <= k < index + 1 implies (best_indexes@.contains(k as usize) <==> (
                            arity_fits(sigs, args, k) && candidate_score(sigs, args, k)
                                == current.tuple())) by {
                            if k == index {
                                assert(!best_indexes@.contains(k as usize));
                            }
                        }
                    }
                }
            },
        }
        index += 1;
    }
    proof {
        if let Some(b) = best_score {
            assert forall|k: int|
                0 <= k < sigs.len() implies (best_indexes@.contains(k as usize)
                <==> is_best_candidate(sigs, args, k)) by {
                if best_indexes@.contains(k as usize) {
                    assert(arity_fits(sigs, args, k) && candidate_score(sigs, args, k) == b.tuple());
                }
                if is_best_candidate(sigs, args, k) {
                    let kk = best_indexes@[0] as int;
                    assert(best_indexes@.contains(kk as usize));
                    assert(!score_lt(candidate_score(sigs, args, k), candidate_score(sigs, args, kk)));
                    assert(!score_lt(b.tuple(), candidate_score(sigs, args, k)));
                }
            }
            let k0 = best_indexes@[0] as int;
            assert(best_indexes@.contains(k0 as usize));
            assert(arity_fits(sigs, args, k0));
        }
    }
    best_indexes
}

/// The first of the best matching candidate signatures, if any fits the arity.
pub fn best_matching_signature_index(
    signatures: &[FunctionTypeRef],
    arg_types: &[Option<TypeRef>],
) -> (r: Option<usize>)
    ensures
        match r {
            Some(k) => is_best_candidate(signatures@, arg_types@, k as int) && forall|j: int|
                0 <= j < k ==> !is_best_candidate(signatures@, arg_types@, j),
            None => forall|k: int| 0 <= k < signatures@.len() ==> !arity_fits(signatures@, arg_types@, k),
        },
{
    let indexes = best_matching_signature_indexes(signatures, arg_types);
    if indexes.len() == 0 {
        return None;
    }
    let k = indexes[0];
    proof {
        assert(indexes@.contains(k));
        assert forall|j: int| 0 <= j < k implies !is_best_candidate(signatures@, arg_types@, j) by {
            if is_best_candidate(signatures@, arg_types@, j) {
                assert(indexes@.contains(j as usize));
                let x = choose|x: int| 0 <= x < indexes@.len() && indexes@[x] == j as usize;
                if x > 0 {
                    assert(indexes@[0] < indexes@[x]);
                }
            }
        }
    }
    Some(k)
}

/// The quality of a signature's match against argument types; none when the
/// arity differs.
pub fn signature_match_quality(signature: &FunctionTypeRef, arg_types: &[Option<TypeRef>]) -> (r:
    Option<SignatureMatchQuality>)
    ensures
        r is None <==> signature.params.len() != arg_types.len(),
        r matches Some(q) ==> q == quality_of(sig_score(signature.sig().0, arg_views(arg_types@))),
{
    if signature.params.len() != arg_types.len() {
        return None;
    }
    let score = signature_match_score(signature, arg_types);
    Some(score.quality())
}

} // verus!

verus! {

proof fn lemma_all_exact_counts(ps: Seq<Ty>, args: Seq<Option<Ty>>, n: int)
    requires
        0 <= n <= ps.len(),
        n <= args.len(),
        forall|i: int| 0 <= i < n ==> arg_score(ps[i], #[trigger] args[i]) == ParamMatchScore::Exact,
    ensures
        count_scores(ps, args, ParamMatchScore::Exact, n) == n,
        count_scores(ps, args, ParamMatchScore::Partial, n) == 0,
        count_scores(ps, args, ParamMatchScore::Unknown, n) == 0,
        count_scores(ps, args, ParamMatchScore::Mismatch, n) == 0,
    decreases n,
{
    if n > 0 {
        lemma_all_exact_counts(ps, args, n - 1);
        assert(arg_score(ps[n - 1], args[n - 1]) == ParamMatchScore::Exact);
    }
}

proof fn lemma_count_bound(ps: Seq<Ty>, args: Seq<Option<Ty>>, n: int)
    requires
        0 <= n,
    ensures
        count_scores(ps, args, ParamMatchScore::Exact, n) + count_scores(
            ps,
            args,
            ParamMatchScore::Partial,
            n,
        ) + count_scores(ps, args, ParamMatchScore::Unknown, n) + count_scores(
            ps,
            args,
            ParamMatchScore::Mismatch,
            n,
        ) == n,
{
    lemma_count_step(ps, args, n);
}

/// A candidate of the right arity whose parameter types equal the argument
/// types is among the best matching candidates.
pub proof fn law_exact_candidate_is_best(
    signatures: Seq<FunctionTypeRef>,
    arg_types: Seq<Option<TypeRef>>,
    k: int,
)
    requires
        0 <= k < signatures.len(),
        arity_fits(signatures, arg_types, k),
        forall|i: int|
            0 <= i < arg_types.len() ==> (#[trigger] arg_types[i] matches Some(t) && t@
                == signatures[k].params@[i]@),
    ensures
        is_best_candidate(signatures, arg_types, k),
{
    let args = arg_views(arg_types);
    let ps = signatures[k].sig().0;
    let n = arg_types.len() as int;
    assert forall|i: int| 0 <= i < n implies arg_score(ps[i], #[trigger] args[i])
        == ParamMatchScore::Exact by {
        assert(arg_types[i] matches Some(t) && t@ == signatures[k].params@[i]@);
    }
    lemma_all_exact_counts(ps, args, n);
    assert forall|j: int|
        0 <= j < signatures.len() && arity_fits(signatures, arg_types, j) implies !score_lt(
        candidate_score(signatures, arg_types, k),
        #[trigger] candidate_score(signatures, arg_types, j),
    ) by {
        lemma_count_bound(signatures[j].sig().0, args, n);
    }
}

/// Argument types equal to the parameter types make an exact match, when
/// there is at least one argument.
pub proof fn law_identical_arguments_match_exactly(
    signature: FunctionTypeRef,
    arg_types: Seq<Option<TypeRef>>,
)
    requires
        signature.params.len() == arg_types.len(),
        arg_types.len() > 0,
        forall|i: int|
            0 <= i < arg_types.len() ==> (#[trigger] arg_types[i] matches Some(t) && t@
                == signature.params@[i]@),
    ensures
        quality_of(sig_score(signature.sig().0, arg_views(arg_types))) == SignatureMatchQuality::Exact,
{
    let args = arg_views(arg_types);
    let ps = signature.sig().0;
    assert forall|i: int| 0 <= i < arg_types.len() implies arg_score(ps[i], #[trigger] args[i])
        == ParamMatchScore::Exact by {
        assert(arg_types[i] matches Some(t) && t@ == signature.params@[i]@);
    }
    lemma_all_exact_counts(ps, args, arg_types.len() as int);
}

proof fn lemma_mismatch_count(ps: Seq<Ty>, args: Seq<Option<Ty>>, n: int)
    requires
        0 <= n,
    ensures
        count_scores(ps, args, ParamMatchScore::Mismatch, n) > 0 <==> exists|i: int|
            0 <= i < n && #[trigger] arg_score(ps[i], args[i]) == ParamMatchScore::Mismatch,
    decreases n,
{
    if n > 0 {
        lemma_mismatch_count(ps, args, n - 1);
        if arg_score(ps[n - 1], args[n - 1]) == ParamMatchScore::Mismatch {
            assert(exists|i: int|
                0 <= i < n && #[trigger] arg_score(ps[i], args[i]) == ParamMatchScore::Mismatch);
        }
    }
}

/// A signature's match is a mismatch exactly when some argument type
/// mismatches its parameter type.
pub proof fn law_mismatch_iff_some_argument_mismatches(
    signature: FunctionTypeRef,
    arg_types: Seq<Option<TypeRef>>,
)
    requires
        signature.params.len() == arg_types.len(),
    ensures
        quality_of(sig_score(signature.sig().0, arg_views(arg_types))) == SignatureMatchQuality::Mismatch
            <==> exists|i: int|
            0 <= i < arg_types.len() && #[trigger] arg_score(
                signature.sig().0[i],
                arg_views(arg_types)[i],
            ) == ParamMatchScore::Mismatch,
{
    lemma_mismatch_count(signature.sig().0, arg_views(arg_types), arg_types.len() as int);
}

/// A nullable parameter type never matches a plain argument exactly: an
/// argument type that is neither nullable, a union nor an ambiguity set
/// scores below exact against `x?`, and, unless it is an opaque type, exactly
/// partial where it matches `x` itself exactly.
pub proof fn law_nullable_parameter_is_never_exact(x: Ty, a: Ty)
    requires
        !(a is Nullable),
        !(a is Union),
        !(a is Ambiguous),
    ensures
        param_match(Ty::Nullable(Box::new(x)), a) != ParamMatchScore::Exact,
        !is_opaque(a) && param_match(x, a) == ParamMatchScore::Exact ==> param_match(
            Ty::Nullable(Box::new(x)),
            a,
        ) == ParamMatchScore::Partial,
{
    let e = Ty::Nullable(Box::new(x));
    assert(e != a);
    assert(!is_opaque(e));
}

/// A nullable argument never matches a plain parameter exactly: against a
/// parameter type that is neither nullable, a union nor an ambiguity set, a
/// `y?` argument scores below exact, and, unless the parameter is an opaque
/// type, exactly partial where `y` matches it exactly.
pub proof fn law_nullable_argument_is_never_exact(e: Ty, y: Ty)
    requires
        !(e is Nullable),
        !(e is Union),
        !(e is Ambiguous),
    ensures
        param_match(e, Ty::Nullable(Box::new(y))) != ParamMatchScore::Exact,
        !is_opaque(e) && param_match(y, e) == ParamMatchScore::Exact ==> param_match(
            e,
            Ty::Nullable(Box::new(y)),
        ) == ParamMatchScore::Partial,
{
    let a = Ty::Nullable(Box::new(y));
    assert(e != a);
    assert(!is_opaque(a));
}

/// Arrays of different element types never match exactly: an exact match of
/// the elements counts as partial one level down, and elements that
/// mismatch make the arrays mismatch.
pub proof fn law_arrays_match_one_level_down(x: Ty, y: Ty)
    requires
        x != y,
    ensures
        param_match(Ty::Array(Box::new(x)), Ty::Array(Box::new(y))) != ParamMatchScore::Exact,
        param_match(x, y) == ParamMatchScore::Exact ==> param_match(Ty::Array(Box::new(x)), Ty::Array(Box::new(y)))
            == ParamMatchScore::Partial,
        param_match(x, y) == ParamMatchScore::Mismatch ==> param_match(
            Ty::Array(Box::new(x)),
            Ty::Array(Box::new(y)),
        ) == ParamMatchScore::Mismatch,
{
    let e = Ty::Array(Box::new(x));
    let a = Ty::Array(Box::new(y));
    assert(e != a);
    assert(!is_opaque(e) && !is_opaque(a));
}

} // verus!
