//! Seeding the workspace type inference. Types that one file learns of
//! another's symbols are handed to that file's inference as seeds; the
//! workspace inference runs in rounds, and each round recomputes the files
//! whose seeds changed. This module decides which files a round recomputes,
//! with which seeds, what stays applied after it, and how many rounds run.

use vstd::prelude::*;

use crate::changes::{file_ids, sorted_file_ids, strictly_ascending};
use crate::ty::{clone_type, type_eq, Ty, TypeRef};
use crate::workspace::FileId;

verus! {

/// The type a symbol is seeded with.
pub struct SymbolSeed {
    pub symbol: u32,
    pub ty: TypeRef,
}

/// The seeded symbol types of one file.
pub struct FileSeeds {
    pub file_id: FileId,
    pub seeds: Vec<SymbolSeed>,
}

/// Whether no symbol is seeded twice.
pub open spec fn distinct_symbols(s: Seq<SymbolSeed>) -> bool {
    forall|i: int, j: int| 0 <= i < j < s.len() ==> (#[trigger] s[i]).symbol != (#[trigger] s[j]).symbol
}

/// Whether symbol `k` is seeded.
pub open spec fn has_symbol(s: Seq<SymbolSeed>, k: u32) -> bool {
    exists|i: int| 0 <= i < s.len() && (#[trigger] s[i]).symbol == k
}

/// The seeds as a map from symbol to type.
pub open spec fn seeds_map(s: Seq<SymbolSeed>) -> Map<u32, Ty> {
    Map::new(
        |k: u32| has_symbol(s, k),
        |k: u32| s[choose|i: int| 0 <= i < s.len() && (#[trigger] s[i]).symbol == k].ty@,
    )
}

/// Whether no file occurs twice, and no file seeds a symbol twice.
pub open spec fn table_wf(t: Seq<FileSeeds>) -> bool {
    &&& forall|i: int, j: int| 0 <= i < j < t.len() ==> (#[trigger] t[i]).file_id.0 != (#[trigger] t[j]).file_id.0
    &&& forall|i: int| 0 <= i < t.len() ==> distinct_symbols((#[trigger] t[i]).seeds@)
}

/// Whether file `f` has seeds in the table.
pub open spec fn has_file(t: Seq<FileSeeds>, f: u32) -> bool {
    exists|i: int| 0 <= i < t.len() && (#[trigger] t[i]).file_id.0 == f
}

/// The table as a map from file to its seed map.
pub open spec fn table_map(t: Seq<FileSeeds>) -> Map<u32, Map<u32, Ty>> {
    Map::new(
        |f: u32| has_file(t, f),
        |f: u32| seeds_map(t[choose|i: int| 0 <= i < t.len() && (#[trigger] t[i]).file_id.0 == f].seeds@),
    )
}

/// Whether file `f` is among `files`.
pub open spec fn in_files(files: Seq<FileId>, f: u32) -> bool {
    exists|i: int| 0 <= i < files.len() && (#[trigger] files[i]).0 == f
}

/// The seeds a round gives file `f`: the new seeds where there are any;
/// where the round is forced, an analysed file keeps the seeds applied to
/// it; otherwise none.
pub open spec fn round_target(
    applied: Map<u32, Map<u32, Ty>>,
    next: Map<u32, Map<u32, Ty>>,
    analysis: Seq<FileId>,
    force: bool,
    f: u32,
) -> Map<u32, Ty> {
    if next.contains_key(f) {
        next[f]
    } else if force && in_files(analysis, f) && applied.contains_key(f) {
        applied[f]
    } else {
        Map::empty()
    }
}

/// Whether a round considers file `f`: every analysed file when forced,
/// and each file with applied or new seeds.
pub open spec fn round_candidate(
    applied: Map<u32, Map<u32, Ty>>,
    next: Map<u32, Map<u32, Ty>>,
    analysis: Seq<FileId>,
    force: bool,
    f: u32,
) -> bool {
    (force && in_files(analysis, f)) || applied.contains_key(f) || next.contains_key(f)
}

/// Whether a round recomputes file `f`: it is considered and analysed, and
/// the seeds it gets differ from those applied to it (a file with none
/// applied always differs).
pub open spec fn recomputes(
    applied: Map<u32, Map<u32, Ty>>,
    next: Map<u32, Map<u32, Ty>>,
    analysis: Seq<FileId>,
    force: bool,
    f: u32,
) -> bool {
    &&& round_candidate(applied, next, analysis, force, f)
    &&& in_files(analysis, f)
    &&& !(applied.contains_key(f) && applied[f] == round_target(applied, next, analysis, force, f))
}

/// The files a round recomputes, each with the seeds it gets.
pub open spec fn round_plan(
    applied: Map<u32, Map<u32, Ty>>,
    next: Map<u32, Map<u32, Ty>>,
    analysis: Seq<FileId>,
    force: bool,
) -> Map<u32, Map<u32, Ty>> {
    Map::new(
        |f: u32| recomputes(applied, next, analysis, force, f),
        |f: u32| round_target(applied, next, analysis, force, f),
    )
}

/// The seeds applied after a round: a recomputed file has the seeds it
/// got, or none when it got none; every other file keeps what it had.
pub open spec fn applied_after(applied: Map<u32, Map<u32, Ty>>, plan: Map<u32, Map<u32, Ty>>) -> Map<u32, Map<u32, Ty>> {
    Map::new(
        |f: u32|
            if plan.contains_key(f) {
                plan[f] != Map::<u32, Ty>::empty()
            } else {
                applied.contains_key(f)
            },
        |f: u32|
            if plan.contains_key(f) {
                plan[f]
            } else {
                applied[f]
            },
    )
}

proof fn lemma_seeds_map_at(s: Seq<SymbolSeed>, i: int)
    requires
        distinct_symbols(s),
        0 <= i < s.len(),
    ensures
        seeds_map(s).contains_key(s[i].symbol),
        seeds_map(s)[s[i].symbol] == s[i].ty@,
{
    let k = s[i].symbol;
    assert(has_symbol(s, k));
    let c = choose|c: int| 0 <= c < s.len() && (#[trigger] s[c]).symbol == k;
    if c < i {
        assert(s[c].symbol != s[i].symbol);
    } else if c > i {
        assert(s[i].symbol != s[c].symbol);
    }
}

proof fn lemma_seeds_map_empty(s: Seq<SymbolSeed>)
    requires
        distinct_symbols(s),
    ensures
        (seeds_map(s) == Map::<u32, Ty>::empty()) <==> s.len() == 0,
{
    if s.len() == 0 {
        assert(seeds_map(s) =~= Map::<u32, Ty>::empty());
    } else {
        lemma_seeds_map_at(s, 0);
        assert(!Map::<u32, Ty>::empty().contains_key(s[0].symbol));
    }
}

proof fn lemma_table_map_at(t: Seq<FileSeeds>, i: int)
    requires
        table_wf(t),
        0 <= i < t.len(),
    ensures
        table_map(t).contains_key(t[i].file_id.0),
        table_map(t)[t[i].file_id.0] == seeds_map(t[i].seeds@),
{
    let f = t[i].file_id.0;
    assert(has_file(t, f));
    let c = choose|c: int| 0 <= c < t.len() && (#[trigger] t[c]).file_id.0 == f;
    if c < i {
        assert(t[c].file_id.0 != t[i].file_id.0);
    } else if c > i {
        assert(t[i].file_id.0 != t[c].file_id.0);
    }
}

fn find_symbol(s: &Vec<SymbolSeed>, k: u32) -> (r: Option<usize>)
    ensures
        match r {
            Some(i) => i < s@.len() && s@[i as int].symbol == k,
            None => !has_symbol(s@, k),
        },
{
    let mut i: usize = 0;
    while i < s.len()
        invariant
            0 <= i <= s.len(),
            forall|m: int| 0 <= m < i ==> (#[trigger] s@[m]).symbol != k,
        decreases s.len() - i,
    {
        if s[i].symbol == k {
            return Some(i);
        }
        i += 1;
    }
    None
}

/// Whether every seed of `a` is also a seed of `b`, with the same type.
fn seeds_within(a: &Vec<SymbolSeed>, b: &Vec<SymbolSeed>) -> (r: bool)
    requires
        distinct_symbols(a@),
        distinct_symbols(b@),
    ensures
        r == seeds_map(a@).submap_of(seeds_map(b@)),
{
    let mut i: usize = 0;
    while i < a.len()
        invariant
            0 <= i <= a.len(),
            distinct_symbols(a@),
            distinct_symbols(b@),
            forall|m: int|
                0 <= m < i ==> seeds_map(b@).contains_key((#[trigger] a@[m]).symbol) && seeds_map(b@)[a@[m].symbol]
                    == a@[m].ty@,
        decreases a.len() - i,
    {
        match find_symbol(b, a[i].symbol) {
            Some(j) => {
                proof {
                    lemma_seeds_map_at(b@, j as int);
                }
                if !type_eq(&a[i].ty, &b[j].ty) {
                    proof {
                        lemma_seeds_map_at(a@, i as int);
                    }
                    return false;
                }
            },
            None => {
                proof {
                    lemma_seeds_map_at(a@, i as int);
                    assert(!seeds_map(b@).contains_key(a@[i as int].symbol));
                }
                return false;
            },
        }
        i += 1;
    }
    proof {
        assert forall|k: u32| #[trigger] seeds_map(a@).contains_key(k) implies seeds_map(b@).contains_key(k)
            && seeds_map(b@)[k] == seeds_map(a@)[k] by {
            let m = choose|m: int| 0 <= m < a@.len() && (#[trigger] a@[m]).symbol == k;
            lemma_seeds_map_at(a@, m);
        }
    }
    true
}

/// Whether two seed lists seed the same symbols with the same types.
fn seeds_equal(a: &Vec<SymbolSeed>, b: &Vec<SymbolSeed>) -> (r: bool)
    requires
        distinct_symbols(a@),
        distinct_symbols(b@),
    ensures
        r == (seeds_map(a@) == seeds_map(b@)),
{
    let ab = seeds_within(a, b);
    let ba = seeds_within(b, a);
    proof {
        if ab && ba {
            assert(seeds_map(a@) =~= seeds_map(b@));
        }
    }
    ab && ba
}

fn clone_seeds(s: &Vec<SymbolSeed>) -> (r: Vec<SymbolSeed>)
    requires
        distinct_symbols(s@),
    ensures
        distinct_symbols(r@),
        seeds_map(r@) == seeds_map(s@),
        r@.len() == s@.len(),
{
    let mut r: Vec<SymbolSeed> = Vec::new();
    let mut i: usize = 0;
    while i < s.len()
        invariant
            0 <= i <= s.len(),
            r@.len() == i,
            forall|m: int| 0 <= m < i ==> (#[trigger] r@[m]).symbol == s@[m].symbol && r@[m].ty@ == s@[m].ty@,
        decreases s.len() - i,
    {
        r.push(SymbolSeed { symbol: s[i].symbol, ty: clone_type(&s[i].ty) });
        i += 1;
    }
    proof {
        assert forall|a: int, b: int| 0 <= a < b < r@.len() implies (#[trigger] r@[a]).symbol != (#[trigger] r@[b]).symbol by {
            assert(s@[a].symbol != s@[b].symbol);
        }
        assert forall|k: u32| #[trigger] seeds_map(r@).contains_key(k) == seeds_map(s@).contains_key(k) by {
            if has_symbol(r@, k) {
                let m = choose|m: int| 0 <= m < r@.len() && (#[trigger] r@[m]).symbol == k;
                assert(s@[m].symbol == k);
            }
            if has_symbol(s@, k) {
                let m = choose|m: int| 0 <= m < s@.len() && (#[trigger] s@[m]).symbol == k;
                assert(r@[m].symbol == k);
            }
        }
        assert forall|k: u32| #[trigger] seeds_map(r@).contains_key(k) implies seeds_map(r@)[k] == seeds_map(s@)[k] by {
            let m = choose|m: int| 0 <= m < r@.len() && (#[trigger] r@[m]).symbol == k;
            lemma_seeds_map_at(r@, m);
            lemma_seeds_map_at(s@, m);
        }
        assert(seeds_map(r@) =~= seeds_map(s@));
    }
    r
}

fn find_file(t: &Vec<FileSeeds>, f: u32) -> (r: Option<usize>)
    ensures
        match r {
            Some(i) => i < t@.len() && t@[i as int].file_id.0 == f,
            None => !has_file(t@, f),
        },
{
    let mut i: usize = 0;
    while i < t.len()
        invariant
            0 <= i <= t.len(),
            forall|m: int| 0 <= m < i ==> (#[trigger] t@[m]).file_id.0 != f,
        decreases t.len() - i,
    {
        if t[i].file_id.0 == f {
            return Some(i);
        }
        i += 1;
    }
    None
}

fn file_listed(files: &[FileId], f: u32) -> (r: bool)
    ensures
        r == in_files(files@, f),
{
    let mut i: usize = 0;
    while i < files.len()
        invariant
            0 <= i <= files.len(),
            forall|m: int| 0 <= m < i ==> (#[trigger] files@[m]).0 != f,
        decreases files.len() - i,
    {
        if files[i].0 == f {
            return true;
        }
        i += 1;
    }
    false
}

proof fn lemma_listed_ids(s: Seq<FileId>, f: u32)
    ensures
        file_ids(s).contains(f) == in_files(s, f),
{
    if file_ids(s).contains(f) {
        let m = choose|m: int| 0 <= m < file_ids(s).len() && file_ids(s)[m] == f;
        assert(s[m].0 == f);
    }
    if in_files(s, f) {
        let m = choose|m: int| 0 <= m < s.len() && (#[trigger] s[m]).0 == f;
        assert(file_ids(s)[m] == f);
    }
}

/// The files a round considers, ascending.
fn round_candidates(analysis: &[FileId], applied: &Vec<FileSeeds>, next: &Vec<FileSeeds>, force: bool) -> (r: Vec<FileId>)
    ensures
        strictly_ascending(file_ids(r@)),
        forall|f: u32|
            #[trigger] in_files(r@, f) <==> ((force && in_files(analysis@, f)) || has_file(applied@, f) || has_file(
                next@,
                f,
            )),
{
    let mut c: Vec<FileId> = Vec::new();
    if force {
        let mut i: usize = 0;
        while i < analysis.len()
            invariant
                0 <= i <= analysis.len(),
                forall|f: u32| #[trigger] in_files(c@, f) <==> exists|m: int| 0 <= m < i && (#[trigger] analysis@[m]).0 == f,
            decreases analysis.len() - i,
        {
            let ghost before = c@;
            c.push(analysis[i]);
            proof {
                assert forall|f: u32| #[trigger] in_files(c@, f) <==> exists|m: int| 0 <= m < i + 1 && (#[trigger] analysis@[m]).0 == f by {
                    if in_files(c@, f) {
                        let m = choose|m: int| 0 <= m < c@.len() && (#[trigger] c@[m]).0 == f;
                        if m < before.len() {
                            assert(before[m] == c@[m]);
                            assert(in_files(before, f));
                        } else {
                            assert(analysis@[i as int].0 == f);
                        }
                    }
                    if exists|m: int| 0 <= m < i + 1 && (#[trigger] analysis@[m]).0 == f {
                        let m = choose|m: int| 0 <= m < i + 1 && (#[trigger] analysis@[m]).0 == f;
                        if m < i {
                            assert(in_files(before, f));
                            let q = choose|q: int| 0 <= q < before.len() && (#[trigger] before[q]).0 == f;
                            assert(c@[q] == before[q]);
                        } else {
                            assert(c@[before.len() as int] == analysis@[i as int]);
                        }
                    }
                }
            }
            i += 1;
        }
    }
    let ghost after_analysis = c@;
    let mut i: usize = 0;
    while i < applied.len()
        invariant
            0 <= i <= applied.len(),
            forall|f: u32|
                #[trigger] in_files(c@, f) <==> (in_files(after_analysis, f) || exists|m: int|
                    0 <= m < i && (#[trigger] applied@[m]).file_id.0 == f),
        decreases applied.len() - i,
    {
        let ghost before = c@;
        c.push(applied[i].file_id);
        proof {
            assert forall|f: u32|
                #[trigger] in_files(c@, f) <==> (in_files(after_analysis, f) || exists|m: int|
                    0 <= m < i + 1 && (#[trigger] applied@[m]).file_id.0 == f) by {
                if in_files(c@, f) {
                    let m = choose|m: int| 0 <= m < c@.len() && (#[trigger] c@[m]).0 == f;
                    if m < before.len() {
                        assert(before[m] == c@[m]);
                        assert(in_files(before, f));
                    } else {
                        assert(applied@[i as int].file_id.0 == f);
                    }
                }
                if in_files(before, f) {
                    let q = choose|q: int| 0 <= q < before.len() && (#[trigger] before[q]).0 == f;
                    assert(c@[q] == before[q]);
                }
                if exists|m: int| 0 <= m < i + 1 && (#[trigger] applied@[m]).file_id.0 == f {
                    let m = choose|m: int| 0 <= m < i + 1 && (#[trigger] applied@[m]).file_id.0 == f;
                    if m == i {
                        assert(c@[before.len() as int] == applied@[i as int].file_id);
                    }
                }
            }
        }
        i += 1;
    }
    let ghost after_applied = c@;
    let mut i: usize = 0;
    while i < next.len()
        invariant
            0 <= i <= next.len(),
            forall|f: u32|
                #[trigger] in_files(c@, f) <==> (in_files(after_applied, f) || exists|m: int|
                    0 <= m < i && (#[trigger] next@[m]).file_id.0 == f),
        decreases next.len() - i,
    {
        let ghost before = c@;
        c.push(next[i].file_id);
        proof {
            assert forall|f: u32|
                #[trigger] in_files(c@, f) <==> (in_files(after_applied, f) || exists|m: int|
                    0 <= m < i + 1 && (#[trigger] next@[m]).file_id.0 == f) by {
                if in_files(c@, f) {
                    let m = choose|m: int| 0 <= m < c@.len() && (#[trigger] c@[m]).0 == f;
                    if m < before.len() {
                        assert(before[m] == c@[m]);
                        assert(in_files(before, f));
                    } else {
                        assert(next@[i as int].file_id.0 == f);
                    }
                }
                if in_files(before, f) {
                    let q = choose|q: int| 0 <= q < before.len() && (#[trigger] before[q]).0 == f;
                    assert(c@[q] == before[q]);
                }
                if exists|m: int| 0 <= m < i + 1 && (#[trigger] next@[m]).file_id.0 == f {
                    let m = choose|m: int| 0 <= m < i + 1 && (#[trigger] next@[m]).file_id.0 == f;
                    if m == i {
                        assert(c@[before.len() as int] == next@[i as int].file_id);
                    }
                }
            }
        }
        i += 1;
    }
    let ghost all = c@;
    let r = sorted_file_ids(c);
    proof {
        assert forall|f: u32|
            #[trigger] in_files(r@, f) <==> ((force && in_files(analysis@, f)) || has_file(applied@, f) || has_file(
                next@,
                f,
            )) by {
            lemma_listed_ids(r@, f);
            lemma_listed_ids(all, f);
            if force {
                assert(in_files(after_analysis, f) == in_files(analysis@, f));
            } else {
                assert(!in_files(after_analysis, f));
            }
        }
    }
    r
}

/// The files one round of workspace inference recomputes, ascending, each
/// with the seeds it is recomputed with. The round considers every
/// analysed file when forced, and each file with applied or new seeds; it
/// gives a file its new seeds, or, when forced, the seeds applied to it, or
/// none; it recomputes an analysed file whose seeds would change.
pub fn seed_round_recomputations(
    analysis: &[FileId],
    applied: &Vec<FileSeeds>,
    next: &Vec<FileSeeds>,
    force_recompute: bool,
) -> (r: Vec<FileSeeds>)
    requires
        table_wf(applied@),
        table_wf(next@),
    ensures
        table_wf(r@),
        forall|i: int, j: int| 0 <= i < j < r@.len() ==> (#[trigger] r@[i]).file_id.0 < (#[trigger] r@[j]).file_id.0,
        table_map(r@) == round_plan(table_map(applied@), table_map(next@), analysis@, force_recompute),
{
    let ghost a = table_map(applied@);
    let ghost n = table_map(next@);
    let candidates = round_candidates(analysis, applied, next, force_recompute);
    let mut out: Vec<FileSeeds> = Vec::new();
    let mut k: usize = 0;
    while k < candidates.len()
        invariant
            0 <= k <= candidates.len(),
            a == table_map(applied@),
            n == table_map(next@),
            table_wf(applied@),
            table_wf(next@),
            strictly_ascending(file_ids(candidates@)),
            forall|f: u32|
                #[trigger] in_files(candidates@, f) <==> ((force_recompute && in_files(analysis@, f)) || has_file(
                    applied@,
                    f,
                ) || has_file(next@, f)),
            table_wf(out@),
            forall|i: int, j: int| 0 <= i < j < out@.len() ==> (#[trigger] out@[i]).file_id.0 < (#[trigger] out@[j]).file_id.0,
            k < candidates@.len() ==> forall|i: int| 0 <= i < out@.len() ==> (#[trigger] out@[i]).file_id.0 < candidates@[k as int].0,
            forall|i: int|
                0 <= i < out@.len() ==> recomputes(a, n, analysis@, force_recompute, (#[trigger] out@[i]).file_id.0)
                    && seeds_map(out@[i].seeds@) == round_target(a, n, analysis@, force_recompute, out@[i].file_id.0),
            forall|m: int|
                0 <= m < k ==> (recomputes(a, n, analysis@, force_recompute, (#[trigger] candidates@[m]).0) ==> has_file(
                    out@,
                    candidates@[m].0,
                )),
        decreases candidates.len() - k,
    {
        let f = candidates[k];
        assert(file_ids(candidates@)[k as int] == f.0);
        if file_listed(analysis, f.0) {
            let n_idx = find_file(next, f.0);
            let a_idx = find_file(applied, f.0);
            let target: Vec<SymbolSeed> = match n_idx {
                Some(i) => clone_seeds(&next[i].seeds),
                None => {
                    if force_recompute {
                        match a_idx {
                            Some(j) => clone_seeds(&applied[j].seeds),
                            None => Vec::new(),
                        }
                    } else {
                        Vec::new()
                    }
                },
            };
            proof {
                match n_idx {
                    Some(i) => {
                        lemma_table_map_at(next@, i as int);
                    },
                    None => {
                        assert(!n.contains_key(f.0));
                        match a_idx {
                            Some(j) => {
                                lemma_table_map_at(applied@, j as int);
                            },
                            None => {
                                assert(!a.contains_key(f.0));
                            },
                        }
                        if !force_recompute || a_idx.is_none() {
                            assert(seeds_map(target@) =~= Map::<u32, Ty>::empty());
                        }
                    },
                }
                assert(seeds_map(target@) == round_target(a, n, analysis@, force_recompute, f.0));
            }
            let same = match a_idx {
                Some(j) => seeds_equal(&applied[j].seeds, &target),
                None => false,
            };
            proof {
                match a_idx {
                    Some(j) => {
                        lemma_table_map_at(applied@, j as int);
                    },
                    None => {
                        assert(!a.contains_key(f.0));
                    },
                }
                assert(in_files(candidates@, f.0));
                assert(round_candidate(a, n, analysis@, force_recompute, f.0));
                assert(same == !recomputes(a, n, analysis@, force_recompute, f.0));
            }
            if !same {
                let ghost before = out@;
                out.push(FileSeeds { file_id: f, seeds: target });
                proof {
                    assert(out@[before.len() as int].file_id == f);
                    assert(has_file(out@, f.0));
                    assert forall|m: int|
                        0 <= m < k + 1 implies (recomputes(a, n, analysis@, force_recompute, (#[trigger] candidates@[m]).0)
                            ==> has_file(out@, candidates@[m].0)) by {
                        if m < k && recomputes(a, n, analysis@, force_recompute, candidates@[m].0) {
                            let q = choose|q: int| 0 <= q < before.len() && (#[trigger] before[q]).file_id.0 == candidates@[m].0;
                            assert(out@[q] == before[q]);
                        }
                    }
                }
            }
        }
        proof {
            if k + 1 < candidates@.len() {
                assert(file_ids(candidates@)[k + 1] == candidates@[k + 1].0);
                assert(f.0 < candidates@[k + 1].0);
            }
        }
        k += 1;
    }
    proof {
        assert forall|f: u32| #[trigger] table_map(out@).contains_key(f) == recomputes(a, n, analysis@, force_recompute, f) by {
            if has_file(out@, f) {
                let i = choose|i: int| 0 <= i < out@.len() && (#[trigger] out@[i]).file_id.0 == f;
            }
            if recomputes(a, n, analysis@, force_recompute, f) {
                assert(in_files(candidates@, f));
                let m = choose|m: int| 0 <= m < candidates@.len() && (#[trigger] candidates@[m]).0 == f;
            }
        }
        assert forall|f: u32| #[trigger] table_map(out@).contains_key(f) implies table_map(out@)[f] == round_target(
            a,
            n,
            analysis@,
            force_recompute,
            f,
        ) by {
            let i = choose|i: int| 0 <= i < out@.len() && (#[trigger] out@[i]).file_id.0 == f;
            lemma_table_map_at(out@, i);
        }
        assert(table_map(out@) =~= round_plan(a, n, analysis@, force_recompute));
    }
    out
}

proof fn lemma_table_take(t: Seq<FileSeeds>, i: int)
    requires
        table_wf(t),
        0 <= i < t.len(),
    ensures
        table_wf(t.take(i)),
        table_wf(t.take(i + 1)),
        !table_map(t.take(i)).contains_key(t[i].file_id.0),
        table_map(t.take(i + 1)) == table_map(t.take(i)).insert(t[i].file_id.0, seeds_map(t[i].seeds@)),
{
    let p = t.take(i);
    let q = t.take(i + 1);
    assert forall|a: int, b: int| 0 <= a < b < p.len() implies (#[trigger] p[a]).file_id.0 != (#[trigger] p[b]).file_id.0 by {
        assert(p[a] == t[a] && p[b] == t[b]);
    }
    assert forall|a: int| 0 <= a < p.len() implies distinct_symbols((#[trigger] p[a]).seeds@) by {
        assert(p[a] == t[a]);
    }
    assert forall|a: int, b: int| 0 <= a < b < q.len() implies (#[trigger] q[a]).file_id.0 != (#[trigger] q[b]).file_id.0 by {
        assert(q[a] == t[a] && q[b] == t[b]);
    }
    assert forall|a: int| 0 <= a < q.len() implies distinct_symbols((#[trigger] q[a]).seeds@) by {
        assert(q[a] == t[a]);
    }
    let f = t[i].file_id.0;
    if has_file(p, f) {
        let c = choose|c: int| 0 <= c < p.len() && (#[trigger] p[c]).file_id.0 == f;
        assert(t[c].file_id.0 != t[i].file_id.0);
    }
    let m = table_map(p).insert(f, seeds_map(t[i].seeds@));
    assert forall|g: u32| #[trigger] table_map(q).contains_key(g) == m.contains_key(g) by {
        if has_file(q, g) {
            let c = choose|c: int| 0 <= c < q.len() && (#[trigger] q[c]).file_id.0 == g;
            if c < i {
                assert(p[c] == q[c]);
            }
        }
        if has_file(p, g) {
            let c = choose|c: int| 0 <= c < p.len() && (#[trigger] p[c]).file_id.0 == g;
            assert(q[c] == p[c]);
        }
        if g == f {
            assert(q[i] == t[i]);
        }
    }
    assert forall|g: u32| #[trigger] table_map(q).contains_key(g) implies table_map(q)[g] == m[g] by {
        let c = choose|c: int| 0 <= c < q.len() && (#[trigger] q[c]).file_id.0 == g;
        lemma_table_map_at(q, c);
        if c < i {
            assert(p[c] == q[c]);
            lemma_table_map_at(p, c);
        }
    }
    assert(table_map(q) =~= m);
}

proof fn lemma_table_remove(v: Seq<FileSeeds>, idx: int)
    requires
        table_wf(v),
        0 <= idx < v.len(),
    ensures
        table_wf(v.remove(idx)),
        table_map(v.remove(idx)) == table_map(v).remove(v[idx].file_id.0),
{
    let w = v.remove(idx);
    let f = v[idx].file_id.0;
    assert forall|a: int| 0 <= a < w.len() implies #[trigger] w[a] == (if a < idx { v[a] } else { v[a + 1] }) by {}
    assert forall|a: int, b: int| 0 <= a < b < w.len() implies (#[trigger] w[a]).file_id.0 != (#[trigger] w[b]).file_id.0 by {
        assert(w[a] == (if a < idx { v[a] } else { v[a + 1] }));
        assert(w[b] == (if b < idx { v[b] } else { v[b + 1] }));
    }
    assert forall|a: int| 0 <= a < w.len() implies distinct_symbols((#[trigger] w[a]).seeds@) by {
        assert(w[a] == (if a < idx { v[a] } else { v[a + 1] }));
    }
    let m = table_map(v).remove(f);
    assert forall|g: u32| #[trigger] table_map(w).contains_key(g) == m.contains_key(g) by {
        if has_file(w, g) {
            let c = choose|c: int| 0 <= c < w.len() && (#[trigger] w[c]).file_id.0 == g;
            let d = if c < idx { c } else { c + 1 };
            assert(w[c] == v[d]);
            assert(has_file(v, g));
            assert(d != idx);
            if d < idx {
                assert(v[d].file_id.0 != v[idx].file_id.0);
            } else {
                assert(v[idx].file_id.0 != v[d].file_id.0);
            }
        }
        if has_file(v, g) && g != f {
            let c = choose|c: int| 0 <= c < v.len() && (#[trigger] v[c]).file_id.0 == g;
            assert(c != idx);
            let d = if c < idx { c } else { c - 1 };
            assert(w[d] == v[c]);
        }
    }
    assert forall|g: u32| #[trigger] table_map(w).contains_key(g) implies table_map(w)[g] == m[g] by {
        let c = choose|c: int| 0 <= c < w.len() && (#[trigger] w[c]).file_id.0 == g;
        let d = if c < idx { c } else { c + 1 };
        assert(w[c] == v[d]);
        lemma_table_map_at(w, c);
        lemma_table_map_at(v, d);
    }
    assert(table_map(w) =~= m);
}

proof fn lemma_table_update(v: Seq<FileSeeds>, idx: int, e: FileSeeds)
    requires
        table_wf(v),
        0 <= idx < v.len(),
        e.file_id == v[idx].file_id,
        distinct_symbols(e.seeds@),
    ensures
        table_wf(v.update(idx, e)),
        table_map(v.update(idx, e)) == table_map(v).insert(e.file_id.0, seeds_map(e.seeds@)),
{
    let w = v.update(idx, e);
    let f = e.file_id.0;
    assert forall|a: int, b: int| 0 <= a < b < w.len() implies (#[trigger] w[a]).file_id.0 != (#[trigger] w[b]).file_id.0 by {
        assert(v[a].file_id.0 != v[b].file_id.0);
    }
    let m = table_map(v).insert(f, seeds_map(e.seeds@));
    assert forall|g: u32| #[trigger] table_map(w).contains_key(g) == m.contains_key(g) by {
        if has_file(w, g) {
            let c = choose|c: int| 0 <= c < w.len() && (#[trigger] w[c]).file_id.0 == g;
            if c != idx {
                assert(w[c] == v[c]);
            }
        }
        if has_file(v, g) {
            let c = choose|c: int| 0 <= c < v.len() && (#[trigger] v[c]).file_id.0 == g;
            assert(w[c].file_id == v[c].file_id);
        }
        if g == f {
            assert(w[idx] == e);
        }
    }
    assert forall|g: u32| #[trigger] table_map(w).contains_key(g) implies table_map(w)[g] == m[g] by {
        let c = choose|c: int| 0 <= c < w.len() && (#[trigger] w[c]).file_id.0 == g;
        lemma_table_map_at(w, c);
        if c != idx {
            assert(w[c] == v[c]);
            lemma_table_map_at(v, c);
            assert(v[c].file_id.0 != v[idx].file_id.0);
        }
    }
    assert(table_map(w) =~= m);
}

proof fn lemma_table_push(v: Seq<FileSeeds>, e: FileSeeds)
    requires
        table_wf(v),
        !has_file(v, e.file_id.0),
        distinct_symbols(e.seeds@),
    ensures
        table_wf(v.push(e)),
        table_map(v.push(e)) == table_map(v).insert(e.file_id.0, seeds_map(e.seeds@)),
{
    let w = v.push(e);
    let f = e.file_id.0;
    assert forall|a: int, b: int| 0 <= a < b < w.len() implies (#[trigger] w[a]).file_id.0 != (#[trigger] w[b]).file_id.0 by {
        if b == v.len() {
            assert(w[a] == v[a]);
        } else {
            assert(w[a] == v[a] && w[b] == v[b]);
        }
    }
    assert forall|a: int| 0 <= a < w.len() implies distinct_symbols((#[trigger] w[a]).seeds@) by {
        if a < v.len() {
            assert(w[a] == v[a]);
        }
    }
    let m = table_map(v).insert(f, seeds_map(e.seeds@));
    assert forall|g: u32| #[trigger] table_map(w).contains_key(g) == m.contains_key(g) by {
        if has_file(w, g) {
            let c = choose|c: int| 0 <= c < w.len() && (#[trigger] w[c]).file_id.0 == g;
            if c < v.len() {
                assert(w[c] == v[c]);
            }
        }
        if has_file(v, g) {
            let c = choose|c: int| 0 <= c < v.len() && (#[trigger] v[c]).file_id.0 == g;
            assert(w[c] == v[c]);
        }
        if g == f {
            assert(w[v.len() as int] == e);
        }
    }
    assert forall|g: u32| #[trigger] table_map(w).contains_key(g) implies table_map(w)[g] == m[g] by {
        let c = choose|c: int| 0 <= c < w.len() && (#[trigger] w[c]).file_id.0 == g;
        lemma_table_map_at(w, c);
        if c < v.len() {
            assert(w[c] == v[c]);
            lemma_table_map_at(v, c);
        }
    }
    assert(table_map(w) =~= m);
}

/// Applies a round's recomputations to the applied seeds: a recomputed
/// file has the seeds it got applied, or none when it got none; every other
/// file keeps what it had.
pub fn apply_seed_round(applied: &mut Vec<FileSeeds>, round: &Vec<FileSeeds>)
    requires
        table_wf(old(applied)@),
        table_wf(round@),
    ensures
        table_wf(final(applied)@),
        table_map(final(applied)@) == applied_after(table_map(old(applied)@), table_map(round@)),
{
    let ghost a0 = table_map(applied@);
    let mut i: usize = 0;
    proof {
        assert(table_map(round@.take(0)) =~= Map::<u32, Map<u32, Ty>>::empty());
        assert(applied_after(a0, Map::empty()) =~= a0);
    }
    while i < round.len()
        invariant
            0 <= i <= round.len(),
            table_wf(round@),
            table_wf(applied@),
            table_map(applied@) == applied_after(a0, table_map(round@.take(i as int))),
        decreases round.len() - i,
    {
        let f = round[i].file_id;
        let ghost p = table_map(round@.take(i as int));
        let ghost s = seeds_map(round@[i as int].seeds@);
        proof {
            lemma_table_take(round@, i as int);
            lemma_seeds_map_empty(round@[i as int].seeds@);
            assert(round@[i as int].file_id == f);
        }
        let ghost before = applied@;
        let found = find_file(applied, f.0);
        if round[i].seeds.len() == 0 {
            match found {
                Some(idx) => {
                    applied.remove(idx);
                    proof {
                        lemma_table_remove(before, idx as int);
                    }
                },
                None => {
                    proof {
                        assert(table_map(before).remove(f.0) =~= table_map(before));
                    }
                },
            }
            proof {
                assert(table_map(applied@) == table_map(before).remove(f.0));
                assert(applied_after(a0, p.insert(f.0, s)) =~= applied_after(a0, p).remove(f.0));
            }
        } else {
            let e = FileSeeds { file_id: f, seeds: clone_seeds(&round[i].seeds) };
            match found {
                Some(idx) => {
                    applied.set(idx, e);
                    proof {
                        lemma_table_update(before, idx as int, e);
                    }
                },
                None => {
                    applied.push(e);
                    proof {
                        lemma_table_push(before, e);
                    }
                },
            }
            proof {
                assert(table_map(applied@) == table_map(before).insert(f.0, s));
                assert(applied_after(a0, p.insert(f.0, s)) =~= applied_after(a0, p).insert(f.0, s));
            }
        }
        i += 1;
    }
    proof {
        assert(round@.take(i as int) =~= round@);
    }
}

/// One unforced round settles: once its recomputations are applied, an
/// unforced round with the same new seeds recomputes no file, provided no
/// file's new seed set is empty.
pub proof fn law_unforced_round_settles(
    applied: Map<u32, Map<u32, Ty>>,
    next: Map<u32, Map<u32, Ty>>,
    analysis: Seq<FileId>,
)
    requires
        forall|f: u32| #[trigger] next.contains_key(f) ==> next[f] != Map::<u32, Ty>::empty(),
    ensures
        round_plan(applied_after(applied, round_plan(applied, next, analysis, false)), next, analysis, false)
            == Map::<u32, Map<u32, Ty>>::empty(),
{
    let p = round_plan(applied, next, analysis, false);
    let a2 = applied_after(applied, p);
    assert forall|f: u32| !#[trigger] recomputes(a2, next, analysis, false, f) by {
        if next.contains_key(f) {
            assert(next[f] != Map::<u32, Ty>::empty());
        }
    }
    assert(round_plan(a2, next, analysis, false) =~= Map::<u32, Map<u32, Ty>>::empty());
}

/// The sum of the counts.
pub open spec fn sum_counts(s: Seq<usize>) -> int
    decreases s.len(),
{
    if s.len() == 0 {
        0
    } else {
        sum_counts(s.drop_last()) + s.last()
    }
}

proof fn lemma_sum_counts_prefix(s: Seq<usize>, i: int)
    requires
        0 <= i <= s.len(),
    ensures
        0 <= sum_counts(s.take(i)) <= sum_counts(s),
    decreases s.len(),
{
    if s.len() > 0 {
        if i == s.len() {
            assert(s.take(i) =~= s);
            lemma_sum_counts_prefix(s.drop_last(), i - 1);
            assert(s.drop_last().take(i - 1) =~= s.drop_last());
        } else {
            lemma_sum_counts_prefix(s.drop_last(), i);
            assert(s.drop_last().take(i) =~= s.take(i));
        }
    }
}

/// How many rounds the workspace inference runs at most: one for each
/// analysed file and each linked import, and one more.
pub fn workspace_inference_round_limit(file_count: usize, linked_imports_per_file: &[usize]) -> (r: usize)
    requires
        file_count + sum_counts(linked_imports_per_file@) + 1 <= usize::MAX,
    ensures
        r == file_count + sum_counts(linked_imports_per_file@) + 1,
{
    let mut total: usize = file_count;
    let mut i: usize = 0;
    while i < linked_imports_per_file.len()
        invariant
            0 <= i <= linked_imports_per_file.len(),
            file_count + sum_counts(linked_imports_per_file@) + 1 <= usize::MAX,
            total == file_count + sum_counts(linked_imports_per_file@.take(i as int)),
        decreases linked_imports_per_file.len() - i,
    {
        proof {
            let s = linked_imports_per_file@;
            assert(s.take(i + 1).drop_last() =~= s.take(i as int));
            lemma_sum_counts_prefix(s, i + 1);
        }
        total = total + linked_imports_per_file[i];
        i += 1;
    }
    proof {
        assert(linked_imports_per_file@.take(i as int) =~= linked_imports_per_file@);
    }
    total + 1
}

} // verus!
