//! Structural queries on the ranges of a file's expressions and bodies: the
//! largest expression inside another, the loop body of a loop, and the
//! branching expressions around a position, innermost first.

use vstd::prelude::*;

use crate::narrowing::range_holds;
use crate::workspace::TextRange;

verus! {

/// The length of a range.
pub open spec fn range_len(r: TextRange) -> int {
    r.end - r.start
}

/// Whether `inner` lies within `outer` and is not `outer` itself.
pub open spec fn strictly_inside(inner: TextRange, outer: TextRange) -> bool {
    inner.start >= outer.start && inner.end <= outer.end && inner != outer
}

/// Whether every range starts no later than it ends.
pub open spec fn well_formed_ranges(rs: Seq<TextRange>) -> bool {
    forall|i: int| 0 <= i < rs.len() ==> (#[trigger] rs[i]).start <= rs[i].end
}

/// The index of the longest range among those that `keep` accepts, the last
/// of them on a tie; none when it accepts none.
pub open spec fn longest_kept(rs: Seq<TextRange>, keep: spec_fn(int) -> bool) -> Option<int>
    decreases rs.len(),
{
    if rs.len() == 0 {
        None
    } else {
        let before = longest_kept(rs.drop_last(), keep);
        let i = rs.len() - 1;
        if keep(i) {
            match before {
                Some(j) => if range_len(rs[i]) >= range_len(rs[j]) {
                    Some(i)
                } else {
                    Some(j)
                },
                None => Some(i),
            }
        } else {
            before
        }
    }
}

/// The largest expression strictly inside expression `expr`, the last of
/// them on a tie; by index.
pub fn largest_inner_expr(expr_ranges: &[TextRange], expr: usize) -> (r: Option<usize>)
    requires
        expr < expr_ranges@.len(),
        well_formed_ranges(expr_ranges@),
    ensures
        match longest_kept(
            expr_ranges@,
            |i: int| i != expr && strictly_inside(expr_ranges@[i], expr_ranges@[expr as int]),
        ) {
            Some(i) => r == Some(i as usize),
            None => r is None,
        },
{
    let ghost keep = |i: int| i != expr && strictly_inside(expr_ranges@[i], expr_ranges@[expr as int]);
    let outer = expr_ranges[expr];
    let mut best: Option<usize> = None;
    let mut i: usize = 0;
    while i < expr_ranges.len()
        invariant
            0 <= i <= expr_ranges.len(),
            outer == expr_ranges@[expr as int],
            well_formed_ranges(expr_ranges@),
            keep == (|i: int| i != expr && strictly_inside(expr_ranges@[i], expr_ranges@[expr as int])),
            match longest_kept(expr_ranges@.take(i as int), keep) {
                Some(j) => best == Some(j as usize) && 0 <= j < i && keep(j),
                None => best is None,
            },
        decreases expr_ranges.len() - i,
    {
        proof {
            let t = expr_ranges@.take(i + 1);
            assert(t.drop_last() =~= expr_ranges@.take(i as int));
            assert(t[i as int] == expr_ranges@[i as int]);
            if let Some(j) = longest_kept(expr_ranges@.take(i as int), keep) {
                assert(t[j] == expr_ranges@[j]);
            }
        }
        let r = expr_ranges[i];
        let inside = i != expr && r.start >= outer.start && r.end <= outer.end && !(r.start == outer.start && r.end
            == outer.end);
        if inside {
            best = match best {
                Some(j) => {
                    let c = expr_ranges[j];
                    if r.end - r.start >= c.end - c.start {
                        Some(i)
                    } else {
                        Some(j)
                    }
                },
                None => Some(i),
            };
        }
        i += 1;
    }
    assert(expr_ranges@.take(i as int) =~= expr_ranges@);
    best
}

/// A body of the file: its range and whether its scope is a loop's.
#[derive(Clone, Copy, Debug)]
pub struct BodySpan {
    pub range: TextRange,
    pub is_loop: bool,
}

/// The loop body directly inside a loop expression: the largest loop body
/// strictly inside its range, the last of them on a tie; by index.
pub fn direct_loop_body(bodies: &[BodySpan], expr_range: TextRange) -> (r: Option<usize>)
    requires
        forall|i: int| 0 <= i < bodies@.len() ==> (#[trigger] bodies@[i]).range.start <= bodies@[i].range.end,
    ensures
        match longest_kept(
            Seq::new(bodies@.len(), |i: int| bodies@[i].range),
            |i: int| bodies@[i].is_loop && strictly_inside(bodies@[i].range, expr_range),
        ) {
            Some(i) => r == Some(i as usize),
            None => r is None,
        },
{
    let ghost rs = Seq::new(bodies@.len(), |i: int| bodies@[i].range);
    let ghost keep = |i: int| bodies@[i].is_loop && strictly_inside(bodies@[i].range, expr_range);
    let mut best: Option<usize> = None;
    let mut i: usize = 0;
    while i < bodies.len()
        invariant
            0 <= i <= bodies.len(),
            rs == Seq::new(bodies@.len(), |i: int| bodies@[i].range),
            keep == (|i: int| bodies@[i].is_loop && strictly_inside(bodies@[i].range, expr_range)),
            forall|i: int| 0 <= i < bodies@.len() ==> (#[trigger] bodies@[i]).range.start <= bodies@[i].range.end,
            match longest_kept(rs.take(i as int), keep) {
                Some(j) => best == Some(j as usize) && 0 <= j < i && keep(j),
                None => best is None,
            },
        decreases bodies.len() - i,
    {
        proof {
            let t = rs.take(i + 1);
            assert(t.drop_last() =~= rs.take(i as int));
            assert(t[i as int] == rs[i as int]);
            if let Some(j) = longest_kept(rs.take(i as int), keep) {
                assert(t[j] == rs[j]);
            }
        }
        let b = bodies[i];
        let r = b.range;
        let inside = b.is_loop && r.start >= expr_range.start && r.end <= expr_range.end && !(r.start
            == expr_range.start && r.end == expr_range.end);
        if inside {
            best = match best {
                Some(j) => {
                    let c = bodies[j].range;
                    if r.end - r.start >= c.end - c.start {
                        Some(i)
                    } else {
                        Some(j)
                    }
                },
                None => Some(i),
            };
        }
        i += 1;
    }
    assert(rs.take(i as int) =~= rs);
    best
}

/// Inserts index `x` after every index whose range is not longer than its own.
pub open spec fn insert_by_len(rs: Seq<TextRange>, s: Seq<int>, x: int) -> Seq<int>
    decreases s.len(),
{
    if s.len() > 0 && range_len(rs[x]) < range_len(rs[s.last()]) {
        insert_by_len(rs, s.drop_last(), x).push(s.last())
    } else {
        s.push(x)
    }
}

/// The indices of the ranges that hold `offset`, in order, then stably
/// sorted from shortest to longest.
pub open spec fn enclosing_by_len(rs: Seq<TextRange>, offset: u32, n: int) -> Seq<int>
    decreases n,
{
    if n <= 0 {
        Seq::empty()
    } else {
        let before = enclosing_by_len(rs, offset, n - 1);
        if range_holds(rs[n - 1], offset) {
            insert_by_len(rs, before, n - 1)
        } else {
            before
        }
    }
}

proof fn lemma_insert_by_len_at(rs: Seq<TextRange>, s: Seq<int>, x: int, p: int)
    requires
        0 <= p <= s.len(),
        forall|j: int| p <= j < s.len() ==> range_len(rs[x]) < range_len(rs[#[trigger] s[j]]),
        p == 0 || !(range_len(rs[x]) < range_len(rs[s[p - 1]])),
    ensures
        insert_by_len(rs, s, x) == s.insert(p, x),
    decreases s.len(),
{
    if p < s.len() {
        assert(range_len(rs[x]) < range_len(rs[s[s.len() - 1]]));
        let t = s.drop_last();
        assert(p == 0 || !(range_len(rs[x]) < range_len(rs[t[p - 1]])));
        lemma_insert_by_len_at(rs, t, x, p);
        assert(insert_by_len(rs, s, x) =~= s.insert(p, x));
    } else {
        assert(insert_by_len(rs, s, x) =~= s.insert(p, x));
    }
}

/// Whether `a` is shorter than `b`.
fn shorter_than(a: TextRange, b: TextRange) -> (r: bool)
    requires
        a.start <= a.end,
        b.start <= b.end,
    ensures
        r == (range_len(a) < range_len(b)),
{
    a.end - a.start < b.end - b.start
}

/// The ranges that hold `offset`, innermost first: the indices of those
/// that hold it, stably sorted by length, as `enclosing_by_len` states. For
/// the `if` and `switch` expressions of a file, these are the expressions
/// whose conditions and arms narrow a value at the offset.
pub fn enclosing_ranges(ranges: &[TextRange], offset: u32) -> (r: Vec<usize>)
    ensures
        r@.len() == enclosing_by_len(ranges@, offset, ranges@.len() as int).len(),
        forall|k: int| 0 <= k < r@.len() ==> r@[k] as int == #[trigger] enclosing_by_len(ranges@, offset, ranges@.len() as int)[k],
{
    let mut out: Vec<usize> = Vec::new();
    let ghost mut s: Seq<int> = Seq::empty();
    let mut i: usize = 0;
    while i < ranges.len()
        invariant
            0 <= i <= ranges.len(),
            s == enclosing_by_len(ranges@, offset, i as int),
            out@.len() == s.len(),
            forall|k: int| #![trigger out@[k]] #![trigger s[k]] 0 <= k < out@.len() ==> out@[k] as int == s[k],
            forall|k: int| 0 <= k < s.len() ==> 0 <= #[trigger] s[k] < i && range_holds(ranges@[s[k]], offset),
        decreases ranges.len() - i,
    {
        let r = ranges[i];
        if r.start <= offset && offset < r.end {
            let mut p: usize = out.len();
            while p > 0 && shorter_than(r, ranges[out[p - 1]])
                invariant
                    p <= out@.len(),
                    out@.len() == s.len(),
                    forall|k: int| #![trigger out@[k]] #![trigger s[k]] 0 <= k < out@.len() ==> out@[k] as int == s[k],
                    forall|k: int| 0 <= k < s.len() ==> 0 <= #[trigger] s[k] < i && range_holds(ranges@[s[k]], offset),
                    r == ranges@[i as int],
                    i < ranges@.len(),
                    r.start <= offset < r.end,
                    forall|j: int| p <= j < s.len() ==> range_len(ranges@[i as int]) < range_len(ranges@[#[trigger] s[j]]),
                decreases p,
            {
                p -= 1;
            }
            proof {
                lemma_insert_by_len_at(ranges@, s, i as int, p as int);
                s = s.insert(p as int, i as int);
            }
            out.insert(p, i);
        }
        i += 1;
    }
    out
}

} // verus!
