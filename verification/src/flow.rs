//! The type a symbol holds at a position of its file, from the values that
//! flow into it before that position.

use vstd::prelude::*;

use crate::lattice::{join, join_types, opt_ty};
use crate::mutation::{container_for, nested_mutation_container_type, segment_views, PathSegment, SegmentView};
use crate::narrowing::range_holds;
use crate::ty::{clone_type, Ty, TypeRef};
use crate::workspace::TextRange;

verus! {

/// The kinds of expression that flow typing tells apart: those whose body
/// may run once, many times or not at all, and every other kind.
#[derive(Clone, Copy, PartialEq, Eq, Debug)]
pub enum FlowExprKind {
    If,
    Switch,
    While,
    Loop,
    For,
    Do,
    Other,
}

/// An expression of the file: its kind and range.
#[derive(Clone, Copy, Debug)]
pub struct ExprSpan {
    pub kind: FlowExprKind,
    pub range: TextRange,
}

/// A value that flows into the symbol: where it is written, and the type
/// inferred for it, if any.
pub struct ValueFlow {
    pub range: TextRange,
    pub ty: Option<TypeRef>,
}

/// A write into part of the symbol's value through a field and index path:
/// where it is written, the type inferred for the written value, if any, and
/// the path.
pub struct SymbolMutation {
    pub range: TextRange,
    pub value_ty: Option<TypeRef>,
    pub segments: Vec<PathSegment>,
}

/// An `if` expression: its range and the ranges of its branches.
#[derive(Clone, Copy, Debug)]
pub struct IfExprRanges {
    pub range: TextRange,
    pub then_range: Option<TextRange>,
    pub else_range: Option<TextRange>,
}

/// An `if` that ends before the position and writes the symbol in both
/// branches: its range and the join of what each branch writes.
pub struct CompleteIfOverwrite {
    pub range: TextRange,
    pub ty: TypeRef,
}

/// A type the symbol may hold at the position, where it is given, and
/// whether the code that gives it may not have run on the way there.
pub struct FlowStateCandidate {
    pub range: TextRange,
    pub ty: TypeRef,
    pub conditional: bool,
}

/// Whether `outer` covers `inner`.
pub open spec fn covers(outer: TextRange, inner: TextRange) -> bool {
    outer.start <= inner.start && inner.end <= outer.end
}

/// Whether expression `e` makes code in `range` conditional for a use at
/// `offset`: it branches or loops, covers the range and does not hold the
/// use.
pub open spec fn makes_conditional(e: ExprSpan, range: TextRange, offset: u32) -> bool {
    e.kind != FlowExprKind::Other && covers(e.range, range) && !range_holds(e.range, offset)
}

/// Whether code in `range` may not have run on the way to `offset`.
pub open spec fn conditional_for_use(exprs: Seq<ExprSpan>, range: TextRange, offset: u32) -> bool {
    exists|i: int| 0 <= i < exprs.len() && #[trigger] makes_conditional(exprs[i], range, offset)
}

/// The model of a value flow.
pub open spec fn flow_view(f: ValueFlow) -> (TextRange, Option<Ty>) {
    (f.range, opt_ty(f.ty))
}

/// The models of value flows.
pub open spec fn flow_views(fs: Seq<ValueFlow>) -> Seq<(TextRange, Option<Ty>)> {
    Seq::new(fs.len(), |i: int| flow_view(fs[i]))
}

/// The join, in order, of the known types of the flows that lie in
/// `range`; none when there is none.
pub open spec fn joined_in(flows: Seq<(TextRange, Option<Ty>)>, range: TextRange) -> Option<Ty>
    decreases flows.len(),
{
    if flows.len() == 0 {
        None
    } else {
        let before = joined_in(flows.drop_last(), range);
        let f = flows.last();
        if covers(range, f.0) && f.1 is Some {
            match before {
                Some(b) => Some(join(b, f.1->0)),
                None => f.1,
            }
        } else {
            before
        }
    }
}

/// The overwrite that an `if` makes before `offset`: when it ends at or
/// before the offset, does not hold it, and both branches write known
/// types, its range and the join of the two.
pub open spec fn overwrite_of(i: IfExprRanges, flows: Seq<(TextRange, Option<Ty>)>, offset: u32) -> Option<
    (TextRange, Ty),
> {
    if i.range.end > offset || range_holds(i.range, offset) {
        None
    } else {
        match (i.then_range, i.else_range) {
            (Some(t), Some(e)) => match (joined_in(flows, t), joined_in(flows, e)) {
                (Some(a), Some(b)) => Some((i.range, join(a, b))),
                _ => None,
            },
            _ => None,
        }
    }
}

/// The overwrites, in order, that the given `if` expressions make.
pub open spec fn overwrites(ifs: Seq<IfExprRanges>, flows: Seq<(TextRange, Option<Ty>)>, offset: u32) -> Seq<
    (TextRange, Ty),
>
    decreases ifs.len(),
{
    if ifs.len() == 0 {
        Seq::empty()
    } else {
        let before = overwrites(ifs.drop_last(), flows, offset);
        match overwrite_of(ifs.last(), flows, offset) {
            Some(o) => before.push(o),
            None => before,
        }
    }
}

/// The models of overwrites.
pub open spec fn overwrite_views(os: Seq<CompleteIfOverwrite>) -> Seq<(TextRange, Ty)> {
    Seq::new(os.len(), |i: int| (os[i].range, os[i].ty@))
}

/// Whether an overwrite covers `range`.
pub open spec fn shadowed(range: TextRange, os: Seq<(TextRange, Ty)>) -> bool {
    exists|i: int| 0 <= i < os.len() && #[trigger] covers(os[i].0, range)
}

/// The candidates given by value flows: those that start before the offset,
/// lie in no overwrite and have a known type.
pub open spec fn flow_candidates(
    fs: Seq<(TextRange, Option<Ty>)>,
    os: Seq<(TextRange, Ty)>,
    exprs: Seq<ExprSpan>,
    offset: u32,
) -> Seq<(u32, Ty, bool)>
    decreases fs.len(),
{
    if fs.len() == 0 {
        Seq::empty()
    } else {
        let before = flow_candidates(fs.drop_last(), os, exprs, offset);
        let f = fs.last();
        if f.0.start < offset && !shadowed(f.0, os) && f.1 is Some {
            before.push((f.0.start, f.1->0, conditional_for_use(exprs, f.0, offset)))
        } else {
            before
        }
    }
}

/// The model of a mutation.
pub open spec fn mutation_view(m: SymbolMutation) -> (TextRange, Option<Ty>, Seq<SegmentView>) {
    (m.range, opt_ty(m.value_ty), segment_views(m.segments@))
}

/// The models of mutations.
pub open spec fn mutation_views(ms: Seq<SymbolMutation>) -> Seq<(TextRange, Option<Ty>, Seq<SegmentView>)> {
    Seq::new(ms.len(), |i: int| mutation_view(ms[i]))
}

/// The candidates given by writes through paths: those that start before
/// the offset and write a known type, each giving the container that the
/// write implies.
pub open spec fn mutation_candidates(
    ms: Seq<(TextRange, Option<Ty>, Seq<SegmentView>)>,
    exprs: Seq<ExprSpan>,
    offset: u32,
) -> Seq<(u32, Ty, bool)>
    decreases ms.len(),
{
    if ms.len() == 0 {
        Seq::empty()
    } else {
        let before = mutation_candidates(ms.drop_last(), exprs, offset);
        let m = ms.last();
        if m.0.start < offset && m.1 is Some {
            before.push((m.0.start, container_for(m.2, m.1->0), conditional_for_use(exprs, m.0, offset)))
        } else {
            before
        }
    }
}

/// The candidates given by overwrites, which always ran.
pub open spec fn overwrite_candidates(os: Seq<(TextRange, Ty)>) -> Seq<(u32, Ty, bool)> {
    Seq::new(os.len(), |i: int| (os[i].0.start, os[i].1, false))
}

/// The candidate given by a declared type, at the symbol's declaration.
pub open spec fn declared_candidates(declared: Option<(TextRange, Ty)>) -> Seq<(u32, Ty, bool)> {
    match declared {
        Some((r, t)) => seq![(r.start, t, false)],
        None => Seq::empty(),
    }
}

/// All candidates, before ordering: value flows, writes through paths,
/// overwrites and the declared type.
pub open spec fn all_candidates(
    flows: Seq<(TextRange, Option<Ty>)>,
    ms: Seq<(TextRange, Option<Ty>, Seq<SegmentView>)>,
    ifs: Seq<IfExprRanges>,
    exprs: Seq<ExprSpan>,
    declared: Option<(TextRange, Ty)>,
    offset: u32,
) -> Seq<(u32, Ty, bool)> {
    let os = overwrites(ifs, flows, offset);
    flow_candidates(flows, os, exprs, offset) + mutation_candidates(ms, exprs, offset) + overwrite_candidates(os)
        + declared_candidates(declared)
}

/// Inserts `x` after every element that does not start after it.
pub open spec fn insert_by_start(s: Seq<(u32, Ty, bool)>, x: (u32, Ty, bool)) -> Seq<(u32, Ty, bool)>
    decreases s.len(),
{
    if s.len() > 0 && x.0 < s.last().0 {
        insert_by_start(s.drop_last(), x).push(s.last())
    } else {
        s.push(x)
    }
}

/// The stable sort of candidates by where they start.
pub open spec fn sorted_by_start(s: Seq<(u32, Ty, bool)>) -> Seq<(u32, Ty, bool)>
    decreases s.len(),
{
    if s.len() == 0 {
        s
    } else {
        insert_by_start(sorted_by_start(s.drop_last()), s.last())
    }
}

/// The index of the last candidate that always ran, or -1.
pub open spec fn last_unconditional(s: Seq<(u32, Ty, bool)>) -> int
    decreases s.len(),
{
    if s.len() == 0 {
        -1
    } else if !s.last().2 {
        s.len() - 1
    } else {
        last_unconditional(s.drop_last())
    }
}

/// Joins a type into an accumulated one.
pub open spec fn join_into(acc: Option<Ty>, t: Ty) -> Option<Ty> {
    match acc {
        Some(a) => Some(join(a, t)),
        None => Some(t),
    }
}

/// Joins the candidates' types, in order, into `acc`.
pub open spec fn join_all(acc: Option<Ty>, s: Seq<(u32, Ty, bool)>) -> Option<Ty>
    decreases s.len(),
{
    if s.len() == 0 {
        acc
    } else {
        join_into(join_all(acc, s.drop_last()), s.last().1)
    }
}

/// The type at the position, from candidates in order: the type of the last
/// one that always ran, joined with the types of all after it; with none
/// that always ran, the join of all; none without candidates.
pub open spec fn flow_state_type(s: Seq<(u32, Ty, bool)>) -> Option<Ty> {
    let b = last_unconditional(s);
    if b >= 0 {
        join_all(Some(s[b].1), s.subrange(b + 1, s.len() as int))
    } else {
        join_all(None, s)
    }
}

/// Whether code in `range` may not have run on the way to `offset`, as
/// `conditional_for_use` states.
pub fn range_is_conditional_for_use(exprs: &[ExprSpan], range: TextRange, offset: u32) -> (r: bool)
    ensures
        r == conditional_for_use(exprs@, range, offset),
{
    let mut i: usize = 0;
    while i < exprs.len()
        invariant
            0 <= i <= exprs.len(),
            forall|j: int| 0 <= j < i ==> !#[trigger] makes_conditional(exprs@[j], range, offset),
        decreases exprs.len() - i,
    {
        let e = exprs[i];
        let branches = match e.kind {
            FlowExprKind::Other => false,
            _ => true,
        };
        if branches && e.range.start <= range.start && range.end <= e.range.end && !(e.range.start <= offset
            && offset < e.range.end) {
            assert(makes_conditional(exprs@[i as int], range, offset));
            return true;
        }
        i += 1;
    }
    false
}

/// Whether an overwrite covers the flow's range, as `shadowed` states.
pub fn flow_is_shadowed_by_complete_if(flow_range: TextRange, complete_if_exprs: &[CompleteIfOverwrite]) -> (r: bool)
    ensures
        r == shadowed(flow_range, overwrite_views(complete_if_exprs@)),
{
    let ghost os = overwrite_views(complete_if_exprs@);
    let mut i: usize = 0;
    while i < complete_if_exprs.len()
        invariant
            0 <= i <= complete_if_exprs.len(),
            os == overwrite_views(complete_if_exprs@),
            forall|j: int| 0 <= j < i ==> !#[trigger] covers(os[j].0, flow_range),
        decreases complete_if_exprs.len() - i,
    {
        let r = complete_if_exprs[i].range;
        if r.start <= flow_range.start && flow_range.end <= r.end {
            assert(covers(os[i as int].0, flow_range));
            return true;
        }
        i += 1;
    }
    false
}

/// The join, in order, of the known types of the flows that lie in `range`,
/// as `joined_in` states.
pub fn joined_flow_type_in_expr(flows: &[ValueFlow], range: TextRange) -> (r: Option<TypeRef>)
    ensures
        opt_ty(r) == joined_in(flow_views(flows@), range),
{
    let ghost fv = flow_views(flows@);
    let mut acc: Option<TypeRef> = None;
    let mut i: usize = 0;
    while i < flows.len()
        invariant
            0 <= i <= flows.len(),
            fv == flow_views(flows@),
            opt_ty(acc) == joined_in(fv.take(i as int), range),
        decreases flows.len() - i,
    {
        proof {
            assert(fv.take(i + 1).drop_last() =~= fv.take(i as int));
            assert(fv.take(i + 1).last() == fv[i as int]);
        }
        let f = &flows[i];
        if range.start <= f.range.start && f.range.end <= range.end {
            if let Some(t) = &f.ty {
                acc = match acc {
                    Some(a) => Some(join_types(&a, t)),
                    None => Some(clone_type(t)),
                };
            }
        }
        i += 1;
    }
    assert(fv.take(i as int) =~= fv);
    acc
}

/// The overwrite that an `if` makes before `offset`, as `overwrite_of`
/// states.
pub fn complete_if_overwrite_candidate(if_expr: &IfExprRanges, flows: &[ValueFlow], offset: u32) -> (r: Option<
    CompleteIfOverwrite,
>)
    ensures
        match r {
            Some(o) => overwrite_of(*if_expr, flow_views(flows@), offset) == Some((o.range, o.ty@)),
            None => overwrite_of(*if_expr, flow_views(flows@), offset) is None,
        },
{
    let range = if_expr.range;
    if range.end > offset || (range.start <= offset && offset < range.end) {
        return None;
    }
    let then_range = match if_expr.then_range {
        Some(t) => t,
        None => return None,
    };
    let else_range = match if_expr.else_range {
        Some(e) => e,
        None => return None,
    };
    let then_ty = match joined_flow_type_in_expr(flows, then_range) {
        Some(t) => t,
        None => return None,
    };
    let else_ty = match joined_flow_type_in_expr(flows, else_range) {
        Some(t) => t,
        None => return None,
    };
    Some(CompleteIfOverwrite { range, ty: join_types(&then_ty, &else_ty) })
}

/// The overwrites, in order, that the given `if` expressions make, as
/// `overwrites` states.
pub fn skipped_complete_if_exprs(ifs: &[IfExprRanges], flows: &[ValueFlow], offset: u32) -> (r: Vec<
    CompleteIfOverwrite,
>)
    ensures
        overwrite_views(r@) == overwrites(ifs@, flow_views(flows@), offset),
{
    let ghost fv = flow_views(flows@);
    let mut out: Vec<CompleteIfOverwrite> = Vec::new();
    let mut i: usize = 0;
    while i < ifs.len()
        invariant
            0 <= i <= ifs.len(),
            fv == flow_views(flows@),
            overwrite_views(out@) == overwrites(ifs@.take(i as int), fv, offset),
        decreases ifs.len() - i,
    {
        proof {
            assert(ifs@.take(i + 1).drop_last() =~= ifs@.take(i as int));
            assert(ifs@.take(i + 1).last() == ifs@[i as int]);
        }
        if let Some(o) = complete_if_overwrite_candidate(&ifs[i], flows, offset) {
            let ghost before = overwrite_views(out@);
            let ghost ov = (o.range, o.ty@);
            out.push(o);
            assert(overwrite_views(out@) =~= before.push(ov));
        }
        i += 1;
    }
    assert(ifs@.take(i as int) =~= ifs@);
    out
}

/// The model of a candidate: where it starts, its type, and whether it is
/// conditional.
pub open spec fn candidate_view(c: FlowStateCandidate) -> (u32, Ty, bool) {
    (c.range.start, c.ty@, c.conditional)
}

/// The models of candidates.
pub open spec fn candidate_views(cs: Seq<FlowStateCandidate>) -> Seq<(u32, Ty, bool)> {
    Seq::new(cs.len(), |i: int| candidate_view(cs[i]))
}

proof fn lemma_insert_by_start_at(s: Seq<(u32, Ty, bool)>, x: (u32, Ty, bool), p: int)
    requires
        0 <= p <= s.len(),
        forall|j: int| p <= j < s.len() ==> x.0 < (#[trigger] s[j]).0,
        p == 0 || !(x.0 < s[p - 1].0),
    ensures
        insert_by_start(s, x) == s.insert(p, x),
    decreases s.len(),
{
    if p < s.len() {
        assert(x.0 < s[s.len() - 1].0);
        let t = s.drop_last();
        assert(p == 0 || !(x.0 < t[p - 1].0));
        lemma_insert_by_start_at(t, x, p);
        assert(insert_by_start(s, x) =~= s.insert(p, x));
    } else {
        assert(insert_by_start(s, x) =~= s.insert(p, x));
    }
}

/// Inserts a candidate after every one that does not start after it.
fn insert_candidate(sorted: &mut Vec<FlowStateCandidate>, x: FlowStateCandidate)
    ensures
        candidate_views(final(sorted)@) == insert_by_start(candidate_views(old(sorted)@), candidate_view(x)),
{
    let ghost s = candidate_views(sorted@);
    let mut p: usize = sorted.len();
    while p > 0 && x.range.start < sorted[p - 1].range.start
        invariant
            p <= sorted.len(),
            s == candidate_views(sorted@),
            forall|j: int| p <= j < sorted.len() ==> x.range.start < (#[trigger] s[j]).0,
        decreases p,
    {
        p -= 1;
    }
    proof {
        lemma_insert_by_start_at(s, candidate_view(x), p as int);
    }
    sorted.insert(p, x);
    assert(candidate_views(sorted@) =~= s.insert(p as int, candidate_view(x)));
}

/// Sorts candidates by where they start, keeping the order of those that
/// start together.
fn sort_candidates(cands: Vec<FlowStateCandidate>) -> (r: Vec<FlowStateCandidate>)
    ensures
        candidate_views(r@) == sorted_by_start(candidate_views(cands@)),
{
    let ghost input = candidate_views(cands@);
    let mut rest = cands;
    let mut sorted: Vec<FlowStateCandidate> = Vec::new();
    let ghost mut k: int = 0;
    while rest.len() > 0
        invariant
            0 <= k <= input.len(),
            candidate_views(sorted@) == sorted_by_start(input.take(k)),
            candidate_views(rest@) == input.skip(k),
            k + rest.len() == input.len(),
        decreases rest.len(),
    {
        assert(candidate_views(rest@)[0] == input[k]);
        let ghost prev = rest@;
        let x = rest.remove(0);
        proof {
            assert(candidate_view(x) == input[k]);
            assert(input.take(k + 1).drop_last() =~= input.take(k));
            assert forall|i: int| 0 <= i < rest.len() implies candidate_views(rest@)[i] == input.skip(k + 1)[i] by {
                assert(rest@[i] == prev[i + 1]);
                assert(candidate_views(prev)[i + 1] == input.skip(k)[i + 1]);
            }
            assert(candidate_views(rest@) =~= input.skip(k + 1));
        }
        insert_candidate(&mut sorted, x);
        proof {
            k = k + 1;
        }
    }
    assert(input.take(k) =~= input);
    sorted
}

proof fn lemma_last_unconditional(s: Seq<(u32, Ty, bool)>, k: int)
    requires
        0 <= k <= s.len(),
        forall|j: int| k <= j < s.len() ==> (#[trigger] s[j]).2,
        k == 0 || !s[k - 1].2,
    ensures
        last_unconditional(s) == k - 1,
    decreases s.len(),
{
    if s.len() > 0 && k < s.len() {
        assert(s.last().2);
        let t = s.drop_last();
        assert(k == 0 || !t[k - 1].2);
        lemma_last_unconditional(t, k);
    }
}

/// The type a symbol holds at `offset`, from what flows into it before
/// there: its value flows, its writes through paths, the `if` expressions
/// that overwrite it in both branches, and its declared type, ordered by
/// where they start; as `flow_state_type` states of those candidates.
pub fn flow_sensitive_symbol_type_at_offset(
    flows: &[ValueFlow],
    mutations: &[SymbolMutation],
    if_exprs: &[IfExprRanges],
    exprs: &[ExprSpan],
    declaration_range: TextRange,
    declared_type: Option<&TypeRef>,
    offset: u32,
) -> (r: Option<TypeRef>)
    ensures
        opt_ty(r) == flow_state_type(
            sorted_by_start(
                all_candidates(
                    flow_views(flows@),
                    mutation_views(mutations@),
                    if_exprs@,
                    exprs@,
                    match declared_type {
                        Some(t) => Some((declaration_range, t@)),
                        None => None,
                    },
                    offset,
                ),
            ),
        ),
{
    let ghost fv = flow_views(flows@);
    let ghost mv = mutation_views(mutations@);
    let skipped = skipped_complete_if_exprs(if_exprs, flows, offset);
    let ghost os = overwrite_views(skipped@);
    let mut cands: Vec<FlowStateCandidate> = Vec::new();
    let mut i: usize = 0;
    while i < flows.len()
        invariant
            0 <= i <= flows.len(),
            fv == flow_views(flows@),
            os == overwrite_views(skipped@),
            candidate_views(cands@) == flow_candidates(fv.take(i as int), os, exprs@, offset),
        decreases flows.len() - i,
    {
        proof {
            assert(fv.take(i + 1).drop_last() =~= fv.take(i as int));
            assert(fv.take(i + 1).last() == fv[i as int]);
        }
        let f = &flows[i];
        if f.range.start < offset && !flow_is_shadowed_by_complete_if(f.range, skipped.as_slice()) {
            if let Some(t) = &f.ty {
                let conditional = range_is_conditional_for_use(exprs, f.range, offset);
                let c = FlowStateCandidate { range: f.range, ty: clone_type(t), conditional };
                let ghost before = candidate_views(cands@);
                cands.push(c);
                assert(candidate_views(cands@) =~= before.push((f.range.start, t@, conditional)));
            }
        }
        i += 1;
    }
    assert(fv.take(i as int) =~= fv);
    let ghost n0 = cands@.len();
    let ghost fc = candidate_views(cands@);
    let mut i: usize = 0;
    while i < mutations.len()
        invariant
            0 <= i <= mutations.len(),
            mv == mutation_views(mutations@),
            n0 == fc.len(),
            candidate_views(cands@) == fc + mutation_candidates(mv.take(i as int), exprs@, offset),
        decreases mutations.len() - i,
    {
        proof {
            assert(mv.take(i + 1).drop_last() =~= mv.take(i as int));
            assert(mv.take(i + 1).last() == mv[i as int]);
        }
        let m = &mutations[i];
        if m.range.start < offset {
            if let Some(v) = &m.value_ty {
                let conditional = range_is_conditional_for_use(exprs, m.range, offset);
                let ty = nested_mutation_container_type(m.segments.as_slice(), clone_type(v));
                let ghost tv = ty@;
                let c = FlowStateCandidate { range: m.range, ty, conditional };
                let ghost before = candidate_views(cands@);
                cands.push(c);
                assert(candidate_views(cands@) =~= before.push((m.range.start, tv, conditional)));
                assert(fc + mutation_candidates(mv.take(i + 1), exprs@, offset) =~= (fc + mutation_candidates(
                    mv.take(i as int),
                    exprs@,
                    offset,
                )).push((m.range.start, tv, conditional)));
            } else {
                assert(fc + mutation_candidates(mv.take(i + 1), exprs@, offset) =~= fc + mutation_candidates(
                    mv.take(i as int),
                    exprs@,
                    offset,
                ));
            }
        } else {
            assert(fc + mutation_candidates(mv.take(i + 1), exprs@, offset) =~= fc + mutation_candidates(
                mv.take(i as int),
                exprs@,
                offset,
            ));
        }
        i += 1;
    }
    assert(mv.take(i as int) =~= mv);
    let ghost fm = candidate_views(cands@);
    let mut i: usize = 0;
    while i < skipped.len()
        invariant
            0 <= i <= skipped.len(),
            os == overwrite_views(skipped@),
            candidate_views(cands@) == fm + overwrite_candidates(os.take(i as int)),
        decreases skipped.len() - i,
    {
        let o = &skipped[i];
        let c = FlowStateCandidate { range: o.range, ty: clone_type(&o.ty), conditional: false };
        let ghost before = candidate_views(cands@);
        cands.push(c);
        assert(candidate_views(cands@) =~= before.push((o.range.start, o.ty@, false)));
        assert(fm + overwrite_candidates(os.take(i + 1)) =~= (fm + overwrite_candidates(os.take(i as int))).push(
            (o.range.start, o.ty@, false),
        ));
        i += 1;
    }
    assert(os.take(i as int) =~= os);
    let ghost fmo = candidate_views(cands@);
    if let Some(t) = declared_type {
        let c = FlowStateCandidate { range: declaration_range, ty: clone_type(t), conditional: false };
        cands.push(c);
        assert(candidate_views(cands@) =~= fmo + seq![(declaration_range.start, t@, false)]);
    } else {
        assert(candidate_views(cands@) =~= fmo + Seq::<(u32, Ty, bool)>::empty());
    }
    let sorted = sort_candidates(cands);
    let ghost s = candidate_views(sorted@);
    let mut k: usize = sorted.len();
    while k > 0 && sorted[k - 1].conditional
        invariant
            k <= sorted.len(),
            s == candidate_views(sorted@),
            forall|j: int| k <= j < s.len() ==> (#[trigger] s[j]).2,
        decreases k,
    {
        k -= 1;
    }
    proof {
        lemma_last_unconditional(s, k as int);
    }
    let mut result: Option<TypeRef> = if k > 0 {
        Some(clone_type(&sorted[k - 1].ty))
    } else {
        None
    };
    let ghost init = opt_ty(result);
    let ghost from: int = k as int;
    let mut i: usize = k;
    assert(s.subrange(from, from) =~= Seq::<(u32, Ty, bool)>::empty());
    while i < sorted.len()
        invariant
            0 <= from <= i <= sorted.len(),
            s == candidate_views(sorted@),
            s.len() == sorted@.len(),
            opt_ty(result) == join_all(init, s.subrange(from, i as int)),
        decreases sorted.len() - i,
    {
        proof {
            assert(s.subrange(from, i + 1).drop_last() =~= s.subrange(from, i as int));
            assert(s.subrange(from, i + 1).last() == s[i as int]);
        }
        let t = &sorted[i].ty;
        result = match result {
            Some(a) => Some(join_types(&a, t)),
            None => Some(clone_type(t)),
        };
        i += 1;
    }
    proof {
        if from == 0 {
            assert(s.subrange(0, s.len() as int) =~= s);
        }
    }
    result
}

proof fn lemma_last_unconditional_suffix(p: Seq<(u32, Ty, bool)>, t: Seq<(u32, Ty, bool)>)
    requires
        last_unconditional(t) >= 0,
    ensures
        last_unconditional(p + t) == p.len() + last_unconditional(t),
    decreases t.len(),
{
    assert((p + t).drop_last() =~= p + t.drop_last());
    assert((p + t).last() == t.last());
    if t.last().2 {
        lemma_last_unconditional_suffix(p, t.drop_last());
    }
}

proof fn lemma_last_unconditional_range(s: Seq<(u32, Ty, bool)>)
    ensures
        -1 <= last_unconditional(s) < s.len(),
        last_unconditional(s) >= 0 ==> !s[last_unconditional(s)].2,
    decreases s.len(),
{
    if s.len() > 0 && s.last().2 {
        lemma_last_unconditional_range(s.drop_last());
    }
}

/// When the last candidate always ran, the symbol has exactly its type.
pub proof fn law_last_unconditional_candidate_decides(s: Seq<(u32, Ty, bool)>)
    requires
        s.len() > 0,
        !s.last().2,
    ensures
        flow_state_type(s) == Some(s.last().1),
{
    assert(s.subrange(s.len() as int, s.len() as int) =~= Seq::<(u32, Ty, bool)>::empty());
}

/// Candidates before one that always ran do not matter: with such a
/// candidate in `t`, anything put before `t` leaves the type unchanged.
pub proof fn law_candidates_before_an_unconditional_one_do_not_matter(
    p: Seq<(u32, Ty, bool)>,
    t: Seq<(u32, Ty, bool)>,
)
    requires
        exists|j: int| 0 <= j < t.len() && !(#[trigger] t[j]).2,
    ensures
        flow_state_type(p + t) == flow_state_type(t),
{
    let j = choose|j: int| 0 <= j < t.len() && !(#[trigger] t[j]).2;
    lemma_last_unconditional_range(t);
    if last_unconditional(t) < 0 {
        lemma_last_unconditional_at_least(t, j);
    }
    lemma_last_unconditional_suffix(p, t);
    let b = last_unconditional(t);
    assert((p + t)[p.len() + b] == t[b]);
    assert((p + t).subrange(p.len() + b + 1, (p + t).len() as int) =~= t.subrange(b + 1, t.len() as int));
}

proof fn lemma_last_unconditional_at_least(s: Seq<(u32, Ty, bool)>, j: int)
    requires
        0 <= j < s.len(),
        !s[j].2,
    ensures
        last_unconditional(s) >= j,
    decreases s.len(),
{
    if s.last().2 {
        assert(s.drop_last()[j] == s[j]);
        lemma_last_unconditional_at_least(s.drop_last(), j);
    }
}

/// Whether candidates come in order of where they start.
pub open spec fn ordered_by_start(s: Seq<(u32, Ty, bool)>) -> bool {
    forall|i: int, j: int| 0 <= i < j < s.len() ==> (#[trigger] s[i]).0 <= (#[trigger] s[j]).0
}

proof fn lemma_insert_by_start_props(s: Seq<(u32, Ty, bool)>, x: (u32, Ty, bool))
    requires
        ordered_by_start(s),
    ensures
        ordered_by_start(insert_by_start(s, x)),
        insert_by_start(s, x).len() == s.len() + 1,
        insert_by_start(s, x).to_multiset() == s.to_multiset().insert(x),
    decreases s.len(),
{
    broadcast use vstd::seq_lib::group_to_multiset_ensures;

    let r = insert_by_start(s, x);
    if s.len() > 0 && x.0 < s.last().0 {
        let t = s.drop_last();
        lemma_insert_by_start_props(t, x);
        let rt = insert_by_start(t, x);
        assert(s =~= t.push(s.last()));
        assert forall|i: int, j: int| 0 <= i < j < r.len() implies (#[trigger] r[i]).0 <= (#[trigger] r[j]).0 by {
            if j == r.len() - 1 {
                if i < rt.len() {
                    assert(rt.to_multiset().count(rt[i]) > 0);
                    assert(t.to_multiset().insert(x).count(rt[i]) > 0);
                    if rt[i] != x {
                        assert(t.to_multiset().count(rt[i]) > 0);
                        assert(t.contains(rt[i]));
                        let m = choose|m: int| 0 <= m < t.len() && t[m] == rt[i];
                        assert(s[m] == t[m]);
                    }
                }
            } else {
                assert(r[i] == rt[i] && r[j] == rt[j]);
            }
        }
    }
}

proof fn lemma_sorted_by_start_props(s: Seq<(u32, Ty, bool)>)
    ensures
        ordered_by_start(sorted_by_start(s)),
        sorted_by_start(s).to_multiset() == s.to_multiset(),
    decreases s.len(),
{
    broadcast use vstd::seq_lib::group_to_multiset_ensures;

    if s.len() > 0 {
        lemma_sorted_by_start_props(s.drop_last());
        lemma_insert_by_start_props(sorted_by_start(s.drop_last()), s.last());
        assert(s =~= s.drop_last().push(s.last()));
    }
}

/// Candidates are weighed in order of where they start, and none is lost
/// or made up by the ordering.
pub proof fn law_candidates_are_ordered_by_start(s: Seq<(u32, Ty, bool)>)
    ensures
        ordered_by_start(sorted_by_start(s)),
        sorted_by_start(s).to_multiset() == s.to_multiset(),
{
    lemma_sorted_by_start_props(s);
}

} // verus!
