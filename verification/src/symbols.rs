//! Ordering and de-duplication of symbol locations gathered across files.

use vstd::prelude::*;

use crate::text::{chars_lt, lemma_chars_lt_asymmetric, lemma_chars_lt_irreflexive,
    lemma_chars_lt_total, lemma_chars_lt_transitive};
use crate::workspace::LocatedSymbolIdentity;

verus! {

/// The model of a located symbol: its file, name, declaration start and end.
pub open spec fn location_view(l: LocatedSymbolIdentity) -> (u32, Seq<char>, u32, u32) {
    (l.file_id.0, l.symbol.name@, l.symbol.declaration_range.start, l.symbol.declaration_range.end)
}

/// The models of a list of located symbols.
pub open spec fn location_views(s: Seq<LocatedSymbolIdentity>) -> Seq<(u32, Seq<char>, u32, u32)> {
    Seq::new(s.len(), |i: int| location_view(s[i]))
}

/// The order of located symbols: by file, then by declaration start, then by name.
pub open spec fn location_lt(a: (u32, Seq<char>, u32, u32), b: (u32, Seq<char>, u32, u32)) -> bool {
    ||| a.0 < b.0
    ||| a.0 == b.0 && a.2 < b.2
    ||| a.0 == b.0 && a.2 == b.2 && chars_lt(a.1, b.1)
}

/// Inserts `x` into `s` after every element that does not come after `x`.
pub open spec fn insert_stable(s: Seq<(u32, Seq<char>, u32, u32)>, x: (u32, Seq<char>, u32, u32)) -> Seq<
    (u32, Seq<char>, u32, u32),
>
    decreases s.len(),
{
    if s.len() > 0 && location_lt(x, s.last()) {
        insert_stable(s.drop_last(), x).push(s.last())
    } else {
        s.push(x)
    }
}

/// The stable sort of `s` by `location_lt`: elements that neither order keeps
/// in their original order.
pub open spec fn stable_sorted(s: Seq<(u32, Seq<char>, u32, u32)>) -> Seq<(u32, Seq<char>, u32, u32)>
    decreases s.len(),
{
    if s.len() == 0 {
        s
    } else {
        insert_stable(stable_sorted(s.drop_last()), s.last())
    }
}

/// `s` with each run of equal neighbours cut down to its first element.
pub open spec fn dedup_adjacent(s: Seq<(u32, Seq<char>, u32, u32)>) -> Seq<(u32, Seq<char>, u32, u32)>
    decreases s.len(),
{
    if s.len() == 0 {
        s
    } else {
        let d = dedup_adjacent(s.drop_last());
        if d.len() > 0 && d.last() == s.last() {
            d
        } else {
            d.push(s.last())
        }
    }
}

/// Whether no element of `s` comes after a later one.
pub open spec fn location_sorted(s: Seq<(u32, Seq<char>, u32, u32)>) -> bool {
    forall|i: int, j: int| 0 <= i < j < s.len() ==> !location_lt(#[trigger] s[j], #[trigger] s[i])
}

proof fn lemma_location_lt_order(
    a: (u32, Seq<char>, u32, u32),
    b: (u32, Seq<char>, u32, u32),
    c: (u32, Seq<char>, u32, u32),
)
    ensures
        !location_lt(a, a),
        location_lt(a, b) ==> !location_lt(b, a),
        location_lt(a, b) && location_lt(b, c) ==> location_lt(a, c),
        location_lt(a, c) ==> location_lt(a, b) || location_lt(b, c),
{
    lemma_chars_lt_irreflexive(a.1);
    lemma_chars_lt_asymmetric(a.1, b.1);
    if chars_lt(a.1, b.1) && chars_lt(b.1, c.1) {
        lemma_chars_lt_transitive(a.1, b.1, c.1);
    }
    lemma_chars_lt_total(a.1, b.1);
    lemma_chars_lt_total(b.1, c.1);
    if chars_lt(a.1, c.1) {
        if chars_lt(b.1, a.1) {
            lemma_chars_lt_transitive(b.1, a.1, c.1);
        }
        if chars_lt(c.1, b.1) {
            lemma_chars_lt_transitive(a.1, c.1, b.1);
        }
        lemma_chars_lt_irreflexive(c.1);
    }
}

proof fn lemma_insert_stable_contains(s: Seq<(u32, Seq<char>, u32, u32)>, x: (u32, Seq<char>, u32, u32))
    ensures
        insert_stable(s, x).len() == s.len() + 1,
        forall|v| #[trigger] insert_stable(s, x).contains(v) <==> (s.contains(v) || v == x),
    decreases s.len(),
{
    let r = insert_stable(s, x);
    if s.len() > 0 && location_lt(x, s.last()) {
        let t = s.drop_last();
        lemma_insert_stable_contains(t, x);
        assert forall|v| #[trigger] r.contains(v) <==> (s.contains(v) || v == x) by {
            if r.contains(v) {
                let k = choose|k: int| 0 <= k < r.len() && r[k] == v;
                if k < r.len() - 1 {
                    assert(insert_stable(t, x)[k] == v);
                    assert(insert_stable(t, x).contains(v));
                    if v != x {
                        let m = choose|m: int| 0 <= m < t.len() && t[m] == v;
                        assert(s[m] == v);
                    }
                } else {
                    assert(s[s.len() - 1] == v);
                }
            }
            if s.contains(v) {
                let m = choose|m: int| 0 <= m < s.len() && s[m] == v;
                if m < s.len() - 1 {
                    assert(t[m] == v);
                    assert(insert_stable(t, x).contains(v));
                    let k = choose|k: int| 0 <= k < insert_stable(t, x).len() && insert_stable(t, x)[k] == v;
                    assert(r[k] == v);
                } else {
                    assert(r[r.len() - 1] == v);
                }
            }
            if v == x {
                assert(insert_stable(t, x).contains(x));
                let k = choose|k: int| 0 <= k < insert_stable(t, x).len() && insert_stable(t, x)[k] == x;
                assert(r[k] == x);
            }
        }
    } else {
        assert forall|v| #[trigger] r.contains(v) <==> (s.contains(v) || v == x) by {
            if r.contains(v) {
                let k = choose|k: int| 0 <= k < r.len() && r[k] == v;
                if k < s.len() {
                    assert(s[k] == v);
                }
            }
            if s.contains(v) {
                let m = choose|m: int| 0 <= m < s.len() && s[m] == v;
                assert(r[m] == v);
            }
            if v == x {
                assert(r[s.len() as int] == x);
            }
        }
    }
}

proof fn lemma_insert_stable_sorted(s: Seq<(u32, Seq<char>, u32, u32)>, x: (u32, Seq<char>, u32, u32))
    requires
        location_sorted(s),
    ensures
        location_sorted(insert_stable(s, x)),
    decreases s.len(),
{
    let r = insert_stable(s, x);
    if s.len() > 0 && location_lt(x, s.last()) {
        let t = s.drop_last();
        let last = s.last();
        lemma_insert_stable_sorted(t, x);
        lemma_insert_stable_contains(t, x);
        let u = insert_stable(t, x);
        assert forall|i: int, j: int| 0 <= i < j < r.len() implies !location_lt(#[trigger] r[j], #[trigger] r[i]) by {
            if j < r.len() - 1 {
                assert(r[i] == u[i] && r[j] == u[j]);
            } else {
                assert(r[j] == last);
                assert(u.contains(u[i]));
                if u[i] == x {
                    lemma_location_lt_order(x, last, x);
                } else {
                    let m = choose|m: int| 0 <= m < t.len() && t[m] == u[i];
                    assert(s[m] == u[i]);
                    assert(s[s.len() - 1] == last);
                }
            }
        }
    } else {
        assert forall|i: int, j: int| 0 <= i < j < r.len() implies !location_lt(#[trigger] r[j], #[trigger] r[i]) by {
            if j < s.len() {
                assert(r[i] == s[i] && r[j] == s[j]);
            } else {
                assert(r[j] == x);
                assert(r[i] == s[i]);
                if s.len() > 0 {
                    let last = s.last();
                    assert(s[s.len() - 1] == last);
                    if i < s.len() - 1 {
                        assert(!location_lt(s[s.len() - 1], s[i]));
                    }
                    lemma_location_lt_order(x, last, s[i]);
                }
            }
        }
    }
}

proof fn lemma_stable_sorted_props(s: Seq<(u32, Seq<char>, u32, u32)>)
    ensures
        location_sorted(stable_sorted(s)),
        stable_sorted(s).len() == s.len(),
        forall|v| #[trigger] stable_sorted(s).contains(v) <==> s.contains(v),
    decreases s.len(),
{
    if s.len() > 0 {
        let t = s.drop_last();
        lemma_stable_sorted_props(t);
        lemma_insert_stable_sorted(stable_sorted(t), s.last());
        lemma_insert_stable_contains(stable_sorted(t), s.last());
        assert forall|v| #[trigger] stable_sorted(s).contains(v) <==> s.contains(v) by {
            if s.contains(v) && v != s.last() {
                let m = choose|m: int| 0 <= m < s.len() && s[m] == v;
                assert(m != s.len() - 1);
                assert(t[m] == v);
                assert(t.contains(v));
            }
            if t.contains(v) {
                let m = choose|m: int| 0 <= m < t.len() && t[m] == v;
                assert(s[m] == v);
            }
            if v == s.last() {
                assert(s[s.len() - 1] == v);
            }
        }
    }
}

proof fn lemma_dedup_props(s: Seq<(u32, Seq<char>, u32, u32)>)
    ensures
        forall|v| #[trigger] dedup_adjacent(s).contains(v) <==> s.contains(v),
        s.len() > 0 ==> dedup_adjacent(s).len() > 0 && dedup_adjacent(s).last() == s.last(),
        forall|i: int| 0 <= i < dedup_adjacent(s).len() - 1 ==> #[trigger] dedup_adjacent(s)[i] != dedup_adjacent(s)[i + 1],
        location_sorted(s) ==> location_sorted(dedup_adjacent(s)),
    decreases s.len(),
{
    if s.len() > 0 {
        let t = s.drop_last();
        let x = s.last();
        let d = dedup_adjacent(t);
        let r = dedup_adjacent(s);
        lemma_dedup_props(t);
        assert(s[s.len() - 1] == x);
        assert forall|v| #[trigger] r.contains(v) <==> s.contains(v) by {
            if s.contains(v) {
                let m = choose|m: int| 0 <= m < s.len() && s[m] == v;
                if m < s.len() - 1 {
                    assert(t[m] == v);
                    assert(d.contains(v));
                    let k = choose|k: int| 0 <= k < d.len() && d[k] == v;
                    assert(r[k] == v);
                } else if d.len() > 0 && d.last() == x {
                    assert(r[d.len() - 1] == v);
                } else {
                    assert(r[d.len() as int] == v);
                }
            }
            if r.contains(v) {
                let k = choose|k: int| 0 <= k < r.len() && r[k] == v;
                if k < d.len() {
                    assert(d[k] == v);
                    assert(d.contains(v));
                    let m = choose|m: int| 0 <= m < t.len() && t[m] == v;
                    assert(s[m] == v);
                }
            }
        }
        if location_sorted(s) {
            assert(location_sorted(t)) by {
                assert forall|i: int, j: int| 0 <= i < j < t.len() implies !location_lt(#[trigger] t[j], #[trigger] t[i]) by {
                    assert(s[i] == t[i] && s[j] == t[j]);
                }
            }
            assert forall|i: int, j: int| 0 <= i < j < r.len() implies !location_lt(#[trigger] r[j], #[trigger] r[i]) by {
                if j < d.len() {
                    assert(r[i] == d[i] && r[j] == d[j]);
                } else {
                    assert(r[j] == x);
                    assert(r[i] == d[i]);
                    assert(d.contains(d[i]));
                    let m = choose|m: int| 0 <= m < t.len() && t[m] == d[i];
                    assert(s[m] == d[i]);
                }
            }
        }
    }
}

/// Whether `a` comes before `b` by file, declaration start, then name.
fn location_less(a: &LocatedSymbolIdentity, b: &LocatedSymbolIdentity) -> (r: bool)
    ensures
        r == location_lt(location_view(*a), location_view(*b)),
{
    if a.file_id.0 != b.file_id.0 {
        return a.file_id.0 < b.file_id.0;
    }
    if a.symbol.declaration_range.start != b.symbol.declaration_range.start {
        return a.symbol.declaration_range.start < b.symbol.declaration_range.start;
    }
    crate::text::str_less(a.symbol.name.as_str(), b.symbol.name.as_str())
}

/// Whether two located symbols are the same symbol of the same file.
fn same_location(a: &LocatedSymbolIdentity, b: &LocatedSymbolIdentity) -> (r: bool)
    ensures
        r == (location_view(*a) == location_view(*b)),
{
    a.file_id.0 == b.file_id.0 && a.symbol.declaration_range.start == b.symbol.declaration_range.start
        && a.symbol.declaration_range.end == b.symbol.declaration_range.end
        && crate::generics::str_eq(a.symbol.name.as_str(), b.symbol.name.as_str())
}

proof fn lemma_insert_stable_at(s: Seq<(u32, Seq<char>, u32, u32)>, x: (u32, Seq<char>, u32, u32), p: int)
    requires
        0 <= p <= s.len(),
        forall|j: int| p <= j < s.len() ==> location_lt(x, #[trigger] s[j]),
        p == 0 || !location_lt(x, s[p - 1]),
    ensures
        insert_stable(s, x) == s.insert(p, x),
    decreases s.len(),
{
    if p < s.len() {
        assert(location_lt(x, s[s.len() - 1]));
        let t = s.drop_last();
        assert(p == 0 || !location_lt(x, t[p - 1]));
        lemma_insert_stable_at(t, x, p);
        assert(insert_stable(s, x) =~= s.insert(p, x));
    } else if s.len() > 0 {
        assert(s[s.len() - 1] == s.last());
        assert(insert_stable(s, x) =~= s.insert(p, x));
    } else {
        assert(insert_stable(s, x) =~= s.insert(p, x));
    }
}

/// Inserts `x` into `sorted` after every element that does not come after it.
fn insert_location(sorted: &mut Vec<LocatedSymbolIdentity>, x: LocatedSymbolIdentity)
    ensures
        location_views(final(sorted)@) == insert_stable(location_views(old(sorted)@), location_view(x)),
{
    let ghost s = location_views(sorted@);
    let mut p: usize = sorted.len();
    while p > 0 && location_less(&x, &sorted[p - 1])
        invariant
            p <= sorted.len(),
            s == location_views(sorted@),
            forall|j: int| p <= j < sorted.len() ==> location_lt(location_view(x), #[trigger] s[j]),
        decreases p,
    {
        p -= 1;
    }
    proof {
        lemma_insert_stable_at(s, location_view(x), p as int);
    }
    sorted.insert(p, x);
    assert(location_views(sorted@) =~= s.insert(p as int, location_view(x)));
}

/// Sorts located symbols by file, declaration start and name, keeping the
/// original order among those that tie, then drops each one that repeats
/// the symbol and file just before it.
pub fn dedupe_symbol_locations(locations: Vec<LocatedSymbolIdentity>) -> (r: Vec<LocatedSymbolIdentity>)
    ensures
        location_views(r@) == dedup_adjacent(stable_sorted(location_views(locations@))),
{
    let ghost input = location_views(locations@);
    let mut rest = locations;
    let mut sorted: Vec<LocatedSymbolIdentity> = Vec::new();
    let ghost mut k: int = 0;
    while rest.len() > 0
        invariant
            0 <= k <= input.len(),
            location_views(sorted@) == stable_sorted(input.take(k)),
            location_views(rest@) == input.skip(k),
            k + rest.len() == input.len(),
        decreases rest.len(),
    {
        assert(location_views(rest@)[0] == input[k]);
        let ghost prev = rest@;
        let x = rest.remove(0);
        proof {
            assert(location_view(x) == input[k]);
            assert(input.take(k + 1).drop_last() =~= input.take(k));
            assert forall|i: int| 0 <= i < rest.len() implies location_views(rest@)[i] == input.skip(k + 1)[i] by {
                assert(rest@[i] == prev[i + 1]);
                assert(location_views(prev)[i + 1] == input.skip(k)[i + 1]);
            }
            assert(location_views(rest@) =~= input.skip(k + 1));
        }
        insert_location(&mut sorted, x);
        proof {
            k = k + 1;
        }
    }
    assert(input.take(k) =~= input);
    let ghost ordered = location_views(sorted@);
    let mut out: Vec<LocatedSymbolIdentity> = Vec::new();
    let ghost mut m: int = 0;
    while sorted.len() > 0
        invariant
            0 <= m <= ordered.len(),
            location_views(out@) == dedup_adjacent(ordered.take(m)),
            location_views(sorted@) == ordered.skip(m),
            m + sorted.len() == ordered.len(),
        decreases sorted.len(),
    {
        assert(location_views(sorted@)[0] == ordered[m]);
        let ghost prev = sorted@;
        let x = sorted.remove(0);
        proof {
            assert(location_view(x) == ordered[m]);
            assert(ordered.take(m + 1).drop_last() =~= ordered.take(m));
            assert forall|i: int| 0 <= i < sorted.len() implies location_views(sorted@)[i] == ordered.skip(m + 1)[i] by {
                assert(sorted@[i] == prev[i + 1]);
                assert(location_views(prev)[i + 1] == ordered.skip(m)[i + 1]);
            }
            assert(location_views(sorted@) =~= ordered.skip(m + 1));
        }
        let repeat = out.len() > 0 && same_location(&out[out.len() - 1], &x);
        if !repeat {
            let ghost before = location_views(out@);
            out.push(x);
            assert(location_views(out@) =~= before.push(ordered[m]));
        }
        proof {
            m = m + 1;
        }
    }
    assert(ordered.take(m) =~= ordered);
    out
}

/// De-duplicated symbol locations come out in order of file, declaration
/// start and name, no symbol follows an equal one, and they hold exactly the
/// symbols that went in.
pub proof fn law_deduped_locations_are_ordered_and_complete(locations: Seq<LocatedSymbolIdentity>)
    ensures
        location_sorted(dedup_adjacent(stable_sorted(location_views(locations)))),
        forall|i: int|
            0 <= i < dedup_adjacent(stable_sorted(location_views(locations))).len() - 1
                ==> #[trigger] dedup_adjacent(stable_sorted(location_views(locations)))[i]
                != dedup_adjacent(stable_sorted(location_views(locations)))[i + 1],
        forall|v| #[trigger]
            dedup_adjacent(stable_sorted(location_views(locations))).contains(v)
                <==> location_views(locations).contains(v),
{
    let s = location_views(locations);
    lemma_stable_sorted_props(s);
    lemma_dedup_props(stable_sorted(s));
}

proof fn lemma_sorted_is_stable_sorted(s: Seq<(u32, Seq<char>, u32, u32)>)
    requires
        location_sorted(s),
    ensures
        stable_sorted(s) == s,
    decreases s.len(),
{
    if s.len() > 0 {
        let t = s.drop_last();
        assert(location_sorted(t)) by {
            assert forall|i: int, j: int| 0 <= i < j < t.len() implies !location_lt(#[trigger] t[j], #[trigger] t[i]) by {
                assert(s[i] == t[i] && s[j] == t[j]);
            }
        }
        lemma_sorted_is_stable_sorted(t);
        if t.len() > 0 {
            assert(!location_lt(s[s.len() - 1], s[t.len() - 1]));
        }
        assert(t.push(s.last()) =~= s);
    }
}

proof fn lemma_unrepeated_is_deduped(s: Seq<(u32, Seq<char>, u32, u32)>)
    requires
        forall|i: int| 0 <= i < s.len() - 1 ==> #[trigger] s[i] != s[i + 1],
    ensures
        dedup_adjacent(s) == s,
    decreases s.len(),
{
    if s.len() > 0 {
        let t = s.drop_last();
        assert forall|i: int| 0 <= i < t.len() - 1 implies #[trigger] t[i] != t[i + 1] by {
            assert(t[i] == s[i] && t[i + 1] == s[i + 1]);
        }
        lemma_unrepeated_is_deduped(t);
        if t.len() > 0 {
            assert(s[t.len() - 1] != s[t.len() as int]);
        }
        assert(t.push(s.last()) =~= s);
    }
}

/// De-duplicating symbol locations a second time changes nothing.
pub proof fn law_dedupe_is_idempotent(locations: Seq<LocatedSymbolIdentity>)
    ensures
        dedup_adjacent(stable_sorted(dedup_adjacent(stable_sorted(location_views(locations))))) == dedup_adjacent(
            stable_sorted(location_views(locations)),
        ),
{
    let d = dedup_adjacent(stable_sorted(location_views(locations)));
    law_deduped_locations_are_ordered_and_complete(locations);
    lemma_sorted_is_stable_sorted(d);
    lemma_unrepeated_is_deduped(d);
}

proof fn lemma_insert_stable_multiset(s: Seq<(u32, Seq<char>, u32, u32)>, x: (u32, Seq<char>, u32, u32))
    ensures
        insert_stable(s, x).to_multiset() == s.to_multiset().insert(x),
    decreases s.len(),
{
    broadcast use vstd::seq_lib::group_to_multiset_ensures;

    if s.len() > 0 && location_lt(x, s.last()) {
        lemma_insert_stable_multiset(s.drop_last(), x);
        assert(s =~= s.drop_last().push(s.last()));
        assert(s.drop_last().to_multiset().insert(x).insert(s.last()) =~= s.drop_last().to_multiset().insert(
            s.last(),
        ).insert(x));
    }
}

proof fn lemma_stable_sorted_multiset(s: Seq<(u32, Seq<char>, u32, u32)>)
    ensures
        stable_sorted(s).to_multiset() == s.to_multiset(),
    decreases s.len(),
{
    broadcast use vstd::seq_lib::group_to_multiset_ensures;

    if s.len() > 0 {
        lemma_stable_sorted_multiset(s.drop_last());
        lemma_insert_stable_multiset(stable_sorted(s.drop_last()), s.last());
        assert(s =~= s.drop_last().push(s.last()));
    }
}

proof fn lemma_dedup_sub_multiset(s: Seq<(u32, Seq<char>, u32, u32)>)
    ensures
        dedup_adjacent(s).to_multiset().subset_of(s.to_multiset()),
    decreases s.len(),
{
    broadcast use vstd::seq_lib::group_to_multiset_ensures;

    if s.len() > 0 {
        let t = s.drop_last();
        lemma_dedup_sub_multiset(t);
        assert(s =~= t.push(s.last()));
        let d = dedup_adjacent(t);
        if !(d.len() > 0 && d.last() == s.last()) {
            assert forall|v| #[trigger] d.push(s.last()).to_multiset().count(v) <= s.to_multiset().count(v) by {
                assert(d.to_multiset().count(v) <= t.to_multiset().count(v));
            }
        } else {
            assert forall|v| #[trigger] d.to_multiset().count(v) <= s.to_multiset().count(v) by {
                assert(d.to_multiset().count(v) <= t.to_multiset().count(v));
            }
        }
    }
}

/// De-duplicated symbol locations are drawn from those that went in: each
/// comes out at most as often as it went in.
pub proof fn law_deduped_locations_are_a_sub_multiset(locations: Seq<LocatedSymbolIdentity>)
    ensures
        dedup_adjacent(stable_sorted(location_views(locations))).to_multiset().subset_of(
            location_views(locations).to_multiset(),
        ),
{
    let s = location_views(locations);
    lemma_stable_sorted_multiset(s);
    lemma_dedup_sub_multiset(stable_sorted(s));
}

} // verus!
