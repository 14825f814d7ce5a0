//! The query support of a file: its completion symbols, navigation targets
//! and member completion sets, built once and kept while the file's
//! analysis stands. Each list holds an entry per symbol, ordered by name.

use vstd::prelude::*;

use crate::lattice::opt_ty;
use crate::module_completions::{opt_text, SymbolKind};
use crate::text::{chars_lt, lemma_chars_lt_asymmetric, lemma_chars_lt_irreflexive, lemma_chars_lt_total, lemma_chars_lt_transitive, str_less};
use crate::ty::{clone_type, TypeRef};
use crate::workspace::{FileId, TextRange};

verus! {

/// The order of (name, start) keys: by name, then by start.
pub open spec fn name_start_lt(a: (Seq<char>, u32), b: (Seq<char>, u32)) -> bool {
    chars_lt(a.0, b.0) || (a.0 == b.0 && a.1 < b.1)
}

proof fn lemma_name_start_order(a: (Seq<char>, u32), b: (Seq<char>, u32), c: (Seq<char>, u32))
    ensures
        !name_start_lt(a, a),
        name_start_lt(a, b) ==> !name_start_lt(b, a),
        name_start_lt(a, b) && name_start_lt(b, c) ==> name_start_lt(a, c),
        !name_start_lt(a, b) && !name_start_lt(b, c) ==> !name_start_lt(a, c),
{
    lemma_chars_lt_irreflexive(a.0);
    lemma_chars_lt_asymmetric(a.0, b.0);
    lemma_chars_lt_asymmetric(b.0, c.0);
    lemma_chars_lt_asymmetric(a.0, c.0);
    lemma_chars_lt_total(a.0, b.0);
    lemma_chars_lt_total(b.0, c.0);
    lemma_chars_lt_total(a.0, c.0);
    if chars_lt(a.0, b.0) && chars_lt(b.0, c.0) {
        lemma_chars_lt_transitive(a.0, b.0, c.0);
    }
    if chars_lt(b.0, a.0) && chars_lt(c.0, b.0) {
        lemma_chars_lt_transitive(c.0, b.0, a.0);
    }
}

/// Whether `order` lists each index below `n` once.
pub open spec fn is_permutation(order: Seq<usize>, n: int) -> bool {
    &&& order.len() == n
    &&& forall|i: int| 0 <= i < order.len() ==> (#[trigger] order[i]) < n
    &&& forall|i: int, j: int| 0 <= i < j < order.len() ==> (#[trigger] order[i]) != (#[trigger] order[j])
    &&& forall|k: int| 0 <= k < n ==> #[trigger] lists(order, k)
}

/// Whether `order` lists index `k`.
pub open spec fn lists(order: Seq<usize>, k: int) -> bool {
    exists|m: int| 0 <= m < order.len() && order[m] == k
}

/// The key of each entry.
pub open spec fn key_views(names: Seq<String>, starts: Seq<u32>) -> Seq<(Seq<char>, u32)> {
    Seq::new(names.len(), |i: int| (names[i]@, starts[i]))
}

fn key_less(names: &Vec<String>, starts: &Vec<u32>, a: usize, b: usize) -> (r: bool)
    requires
        names@.len() == starts@.len(),
        a < names@.len(),
        b < names@.len(),
    ensures
        r == name_start_lt(key_views(names@, starts@)[a as int], key_views(names@, starts@)[b as int]),
{
    str_less(names[a].as_str(), names[b].as_str()) || (crate::generics::str_eq(names[a].as_str(), names[b].as_str())
        && starts[a] < starts[b])
}

/// The indices of the keys in order of name, then start, keeping the given
/// order among equal keys.
fn order_by_name_start(names: &Vec<String>, starts: &Vec<u32>) -> (r: Vec<usize>)
    requires
        names@.len() == starts@.len(),
    ensures
        is_permutation(r@, names@.len() as int),
        forall|i: int, j: int|
            0 <= i < j < r@.len() ==> !name_start_lt(
                key_views(names@, starts@)[#[trigger] r@[j] as int],
                key_views(names@, starts@)[#[trigger] r@[i] as int],
            ),
{
    let ghost k = key_views(names@, starts@);
    let mut out: Vec<usize> = Vec::new();
    let mut i: usize = 0;
    while i < names.len()
        invariant
            0 <= i <= names.len(),
            names@.len() == starts@.len(),
            k == key_views(names@, starts@),
            is_permutation(out@, i as int),
            forall|a: int, b: int| 0 <= a < b < out@.len() ==> !name_start_lt(k[#[trigger] out@[b] as int], k[#[trigger] out@[a] as int]),
        decreases names.len() - i,
    {
        let mut p: usize = out.len();
        while p > 0 && key_less(names, starts, i, out[p - 1])
            invariant
                p <= out@.len(),
                i < names@.len(),
                names@.len() == starts@.len(),
                k == key_views(names@, starts@),
                is_permutation(out@, i as int),
                forall|j: int| p <= j < out@.len() ==> name_start_lt(k[i as int], k[#[trigger] out@[j] as int]),
            decreases p,
        {
            p -= 1;
        }
        let ghost before = out@;
        proof {
            if p > 0 {
                assert(!name_start_lt(k[i as int], k[before[p - 1] as int]));
            }
        }
        out.insert(p, i);
        proof {
            assert(out@ == before.insert(p as int, i));
            assert forall|a: int, b: int| 0 <= a < b < out@.len() implies !name_start_lt(
                k[#[trigger] out@[b] as int],
                k[#[trigger] out@[a] as int],
            ) by {
                if b < p {
                    assert(out@[a] == before[a] && out@[b] == before[b]);
                } else if b == p {
                    assert(out@[a] == before[a]);
                    if a < p - 1 {
                        lemma_name_start_order(k[before[a] as int], k[before[p - 1] as int], k[i as int]);
                        lemma_name_start_order(k[i as int], k[before[p - 1] as int], k[before[a] as int]);
                    }
                } else if a == p {
                    assert(out@[b] == before[b - 1]);
                    lemma_name_start_order(k[i as int], k[before[b - 1] as int], k[i as int]);
                } else if a < p {
                    assert(out@[a] == before[a] && out@[b] == before[b - 1]);
                } else {
                    assert(out@[a] == before[a - 1] && out@[b] == before[b - 1]);
                }
            }
            assert forall|a: int, b: int| 0 <= a < b < out@.len() implies (#[trigger] out@[a]) != (#[trigger] out@[b]) by {
                if b < p {
                    assert(out@[a] == before[a] && out@[b] == before[b]);
                } else if b == p {
                    assert(out@[a] == before[a]);
                } else if a == p {
                    assert(out@[b] == before[b - 1]);
                } else if a < p {
                    assert(out@[a] == before[a] && out@[b] == before[b - 1]);
                } else {
                    assert(out@[a] == before[a - 1] && out@[b] == before[b - 1]);
                }
            }
            assert forall|c: int| 0 <= c < i + 1 implies #[trigger] lists(out@, c) by {
                if c < i {
                    assert(lists(before, c));
                    let m = choose|m: int| 0 <= m < before.len() && before[m] == c;
                    if m < p {
                        assert(out@[m] == before[m]);
                    } else {
                        assert(out@[m + 1] == before[m]);
                    }
                } else {
                    assert(out@[p as int] == i);
                }
            }
            assert forall|a: int| 0 <= a < out@.len() implies (#[trigger] out@[a]) < i + 1 by {
                if a < p {
                    assert(out@[a] == before[a]);
                } else if a > p {
                    assert(out@[a] == before[a - 1]);
                }
            }
        }
        i += 1;
    }
    out
}

/// A member offered for completion on a symbol's value.
pub struct MemberCompletion {
    pub name: String,
    pub annotation: Option<TypeRef>,
    pub docs: Option<String>,
}

/// A symbol of a file as query support reads it: its name, kind, range,
/// docs and declared annotation, the ranges of its navigation target, and
/// the members offered on its value.
pub struct SymbolFacts {
    pub name: String,
    pub kind: SymbolKind,
    pub range: TextRange,
    pub docs: Option<String>,
    pub annotation: Option<TypeRef>,
    pub full_range: TextRange,
    pub focus_range: TextRange,
    pub members: Vec<MemberCompletion>,
}

/// A symbol offered for completion.
pub struct CompletionSymbol {
    pub symbol: u32,
    pub name: String,
    pub kind: SymbolKind,
    pub range: TextRange,
    pub docs: Option<String>,
    pub annotation: Option<TypeRef>,
}

/// Where navigation to a symbol leads.
pub struct CachedNavigationTarget {
    pub symbol: u32,
    pub name: String,
    pub full_range: TextRange,
    pub focus_range: TextRange,
}

/// The members offered on a symbol's value.
pub struct CachedMemberCompletionSet {
    pub symbol: u32,
    pub name: String,
    pub members: Vec<MemberCompletion>,
}

/// The query support of a file.
pub struct PerFileQuerySupport {
    pub file_id: FileId,
    pub normalized_path: String,
    pub completion_symbols: Vec<CompletionSymbol>,
    pub navigation_targets: Vec<CachedNavigationTarget>,
    pub member_completion_sets: Vec<CachedMemberCompletionSet>,
}

/// The model of a member completion.
pub open spec fn member_view(m: MemberCompletion) -> (Seq<char>, Option<crate::ty::Ty>, Option<Seq<char>>) {
    (m.name@, opt_ty(m.annotation), opt_text(m.docs))
}

/// The models of member completions.
pub open spec fn member_views(ms: Seq<MemberCompletion>) -> Seq<(Seq<char>, Option<crate::ty::Ty>, Option<Seq<char>>)> {
    Seq::new(ms.len(), |i: int| member_view(ms[i]))
}

/// Whether `c` is the completion entry of symbol `k`, whose facts are `s`.
pub open spec fn completion_entry_of(c: CompletionSymbol, k: int, s: SymbolFacts) -> bool {
    &&& c.symbol == k
    &&& c.name@ == s.name@
    &&& c.kind == s.kind
    &&& c.range == s.range
    &&& opt_text(c.docs) == opt_text(s.docs)
    &&& opt_ty(c.annotation) == opt_ty(s.annotation)
}

/// Whether `t` is the navigation target of symbol `k`, whose facts are `s`.
pub open spec fn navigation_entry_of(t: CachedNavigationTarget, k: int, s: SymbolFacts) -> bool {
    &&& t.symbol == k
    &&& t.name@ == s.name@
    &&& t.full_range == s.full_range
    &&& t.focus_range == s.focus_range
}

/// Whether `m` is the member set of symbol `k`, whose facts are `s`.
pub open spec fn member_entry_of(m: CachedMemberCompletionSet, k: int, s: SymbolFacts) -> bool {
    &&& m.symbol == k
    &&& m.name@ == s.name@
    &&& member_views(m.members@) == member_views(s.members@)
}

fn clone_text(o: &Option<String>) -> (r: Option<String>)
    ensures
        opt_text(r) == opt_text(*o),
{
    match o {
        Some(s) => Some(s.clone()),
        None => None,
    }
}

fn clone_opt_type(o: &Option<TypeRef>) -> (r: Option<TypeRef>)
    ensures
        opt_ty(r) == opt_ty(*o),
{
    match o {
        Some(t) => Some(clone_type(t)),
        None => None,
    }
}

fn clone_members(ms: &Vec<MemberCompletion>) -> (r: Vec<MemberCompletion>)
    ensures
        member_views(r@) == member_views(ms@),
{
    let mut r: Vec<MemberCompletion> = Vec::new();
    let mut i: usize = 0;
    while i < ms.len()
        invariant
            0 <= i <= ms.len(),
            member_views(r@) == member_views(ms@).take(i as int),
        decreases ms.len() - i,
    {
        let ghost before = member_views(r@);
        r.push(MemberCompletion {
            name: ms[i].name.clone(),
            annotation: clone_opt_type(&ms[i].annotation),
            docs: clone_text(&ms[i].docs),
        });
        assert(member_views(r@) =~= before.push(member_view(ms@[i as int])));
        assert(member_views(ms@).take(i + 1) =~= member_views(ms@).take(i as int).push(member_view(ms@[i as int])));
        i += 1;
    }
    assert(member_views(ms@).take(i as int) =~= member_views(ms@));
    r
}

/// The query support of a file whose symbols are `symbols`, symbol `k`
/// being the one at index `k`: a completion entry for each symbol, ordered
/// by name and then start of its range; a navigation target for each
/// symbol, ordered by name and then start of its full range; and a member
/// set for each symbol that offers members, ordered by name.
pub fn build_query_support(file_id: FileId, normalized_path: String, symbols: &[SymbolFacts]) -> (r: PerFileQuerySupport)
    requires
        symbols@.len() <= u32::MAX,
    ensures
        r.file_id == file_id,
        r.normalized_path@ == normalized_path@,
        r.completion_symbols@.len() == symbols@.len(),
        forall|j: int|
            0 <= j < r.completion_symbols@.len() ==> (#[trigger] r.completion_symbols@[j]).symbol < symbols@.len()
                && completion_entry_of(r.completion_symbols@[j], r.completion_symbols@[j].symbol as int, symbols@[r.completion_symbols@[j].symbol as int]),
        forall|a: int, b: int|
            0 <= a < b < r.completion_symbols@.len() ==> (#[trigger] r.completion_symbols@[a]).symbol != (#[trigger] r.completion_symbols@[b]).symbol
                && !name_start_lt(
                (r.completion_symbols@[b].name@, r.completion_symbols@[b].range.start),
                (r.completion_symbols@[a].name@, r.completion_symbols@[a].range.start),
            ),
        r.navigation_targets@.len() == symbols@.len(),
        forall|j: int|
            0 <= j < r.navigation_targets@.len() ==> (#[trigger] r.navigation_targets@[j]).symbol < symbols@.len()
                && navigation_entry_of(r.navigation_targets@[j], r.navigation_targets@[j].symbol as int, symbols@[r.navigation_targets@[j].symbol as int]),
        forall|a: int, b: int|
            0 <= a < b < r.navigation_targets@.len() ==> (#[trigger] r.navigation_targets@[a]).symbol != (#[trigger] r.navigation_targets@[b]).symbol
                && !name_start_lt(
                (r.navigation_targets@[b].name@, r.navigation_targets@[b].full_range.start),
                (r.navigation_targets@[a].name@, r.navigation_targets@[a].full_range.start),
            ),
        forall|j: int|
            0 <= j < r.member_completion_sets@.len() ==> (#[trigger] r.member_completion_sets@[j]).symbol < symbols@.len()
                && symbols@[r.member_completion_sets@[j].symbol as int].members@.len() > 0 && member_entry_of(
                r.member_completion_sets@[j],
                r.member_completion_sets@[j].symbol as int,
                symbols@[r.member_completion_sets@[j].symbol as int],
            ),
        forall|k: int|
            0 <= k < symbols@.len() && (#[trigger] symbols@[k]).members@.len() > 0 ==> exists|j: int|
                0 <= j < r.member_completion_sets@.len() && r.member_completion_sets@[j].symbol == k,
        forall|a: int, b: int|
            0 <= a < b < r.member_completion_sets@.len() ==> (#[trigger] r.member_completion_sets@[a]).symbol != (#[trigger] r.member_completion_sets@[b]).symbol
                && !chars_lt(r.member_completion_sets@[b].name@, r.member_completion_sets@[a].name@),
{
    let mut names: Vec<String> = Vec::new();
    let mut starts: Vec<u32> = Vec::new();
    let mut full_starts: Vec<u32> = Vec::new();
    let mut i: usize = 0;
    while i < symbols.len()
        invariant
            0 <= i <= symbols.len(),
            names@.len() == i,
            starts@.len() == i,
            full_starts@.len() == i,
            forall|j: int| 0 <= j < i ==> (#[trigger] names@[j])@ == symbols@[j].name@,
            forall|j: int| 0 <= j < i ==> #[trigger] starts@[j] == symbols@[j].range.start,
            forall|j: int| 0 <= j < i ==> #[trigger] full_starts@[j] == symbols@[j].full_range.start,
        decreases symbols.len() - i,
    {
        names.push(symbols[i].name.clone());
        starts.push(symbols[i].range.start);
        full_starts.push(symbols[i].full_range.start);
        assert(names@[i as int]@ == symbols@[i as int].name@);
        i += 1;
    }
    let order = order_by_name_start(&names, &starts);
    let nav_order = order_by_name_start(&names, &full_starts);
    let ghost ck = key_views(names@, starts@);
    let ghost nk = key_views(names@, full_starts@);
    let mut completion_symbols: Vec<CompletionSymbol> = Vec::new();
    let mut j: usize = 0;
    while j < order.len()
        invariant
            0 <= j <= order.len(),
            symbols@.len() <= u32::MAX,
            is_permutation(order@, symbols@.len() as int),
            completion_symbols@.len() == j,
            forall|q: int|
                0 <= q < j ==> (#[trigger] completion_symbols@[q]).symbol == order@[q] && completion_entry_of(
                    completion_symbols@[q],
                    order@[q] as int,
                    symbols@[order@[q] as int],
                ),
        decreases order.len() - j,
    {
        let k = order[j];
        let s = &symbols[k];
        completion_symbols.push(CompletionSymbol {
            symbol: k as u32,
            name: s.name.clone(),
            kind: s.kind,
            range: s.range,
            docs: clone_text(&s.docs),
            annotation: clone_opt_type(&s.annotation),
        });
        j += 1;
    }
    let mut member_completion_sets: Vec<CachedMemberCompletionSet> = Vec::new();
    let ghost mut pos: Seq<int> = Seq::empty();
    let mut j: usize = 0;
    while j < order.len()
        invariant
            0 <= j <= order.len(),
            symbols@.len() <= u32::MAX,
            is_permutation(order@, symbols@.len() as int),
            member_completion_sets@.len() == pos.len(),
            forall|a: int, b: int| 0 <= a < b < pos.len() ==> #[trigger] pos[a] < #[trigger] pos[b],
            forall|q: int| 0 <= q < pos.len() ==> 0 <= #[trigger] pos[q] < j,
            forall|q: int|
                0 <= q < pos.len() ==> (#[trigger] member_completion_sets@[q]).symbol == order@[pos[q]]
                    && symbols@[order@[pos[q]] as int].members@.len() > 0 && member_entry_of(
                    member_completion_sets@[q],
                    order@[pos[q]] as int,
                    symbols@[order@[pos[q]] as int],
                ),
            forall|m: int|
                0 <= m < j && (#[trigger] symbols@[order@[m] as int]).members@.len() > 0 ==> exists|q: int|
                    0 <= q < pos.len() && pos[q] == m,
        decreases order.len() - j,
    {
        let k = order[j];
        let s = &symbols[k];
        if s.members.len() > 0 {
            let ghost before = pos;
            member_completion_sets.push(CachedMemberCompletionSet {
                symbol: k as u32,
                name: s.name.clone(),
                members: clone_members(&s.members),
            });
            proof {
                pos = pos.push(j as int);
                assert forall|m: int|
                    0 <= m < j + 1 && (#[trigger] symbols@[order@[m] as int]).members@.len() > 0 implies exists|q: int|
                        0 <= q < pos.len() && pos[q] == m by {
                    if m < j {
                        let q = choose|q: int| 0 <= q < before.len() && before[q] == m;
                        assert(pos[q] == before[q]);
                    } else {
                        assert(pos[before.len() as int] == m);
                    }
                }
            }
        }
        j += 1;
    }
    let mut navigation_targets: Vec<CachedNavigationTarget> = Vec::new();
    let mut j: usize = 0;
    while j < nav_order.len()
        invariant
            0 <= j <= nav_order.len(),
            symbols@.len() <= u32::MAX,
            is_permutation(nav_order@, symbols@.len() as int),
            navigation_targets@.len() == j,
            forall|q: int|
                0 <= q < j ==> (#[trigger] navigation_targets@[q]).symbol == nav_order@[q] && navigation_entry_of(
                    navigation_targets@[q],
                    nav_order@[q] as int,
                    symbols@[nav_order@[q] as int],
                ),
        decreases nav_order.len() - j,
    {
        let k = nav_order[j];
        let s = &symbols[k];
        navigation_targets.push(CachedNavigationTarget {
            symbol: k as u32,
            name: s.name.clone(),
            full_range: s.full_range,
            focus_range: s.focus_range,
        });
        j += 1;
    }
    proof {
        let cs = completion_symbols@;
        assert forall|a: int, b: int| 0 <= a < b < cs.len() implies (#[trigger] cs[a]).symbol != (#[trigger] cs[b]).symbol && !name_start_lt(
            (cs[b].name@, cs[b].range.start),
            (cs[a].name@, cs[a].range.start),
        ) by {
            assert(order@[a] != order@[b]);
            assert(!name_start_lt(ck[order@[b] as int], ck[order@[a] as int]));
            assert(ck[order@[b] as int] == (names@[order@[b] as int]@, starts@[order@[b] as int]));
            assert(ck[order@[a] as int] == (names@[order@[a] as int]@, starts@[order@[a] as int]));
        }
        let ns = navigation_targets@;
        assert forall|a: int, b: int| 0 <= a < b < ns.len() implies (#[trigger] ns[a]).symbol != (#[trigger] ns[b]).symbol && !name_start_lt(
            (ns[b].name@, ns[b].full_range.start),
            (ns[a].name@, ns[a].full_range.start),
        ) by {
            assert(nav_order@[a] != nav_order@[b]);
            assert(!name_start_lt(nk[nav_order@[b] as int], nk[nav_order@[a] as int]));
            assert(nk[nav_order@[b] as int] == (names@[nav_order@[b] as int]@, full_starts@[nav_order@[b] as int]));
            assert(nk[nav_order@[a] as int] == (names@[nav_order@[a] as int]@, full_starts@[nav_order@[a] as int]));
        }
        let ms = member_completion_sets@;
        assert forall|a: int, b: int| 0 <= a < b < ms.len() implies (#[trigger] ms[a]).symbol != (#[trigger] ms[b]).symbol
            && !chars_lt(ms[b].name@, ms[a].name@) by {
            let ma = pos[a];
            let mb = pos[b];
            assert(ma < mb);
            assert(order@[ma] != order@[mb]);
            assert(!name_start_lt(ck[order@[mb] as int], ck[order@[ma] as int]));
            assert(ck[order@[mb] as int] == (names@[order@[mb] as int]@, starts@[order@[mb] as int]));
            assert(ck[order@[ma] as int] == (names@[order@[ma] as int]@, starts@[order@[ma] as int]));
        }
        assert forall|k: int| 0 <= k < symbols@.len() && (#[trigger] symbols@[k]).members@.len() > 0 implies exists|q: int|
            0 <= q < ms.len() && ms[q].symbol == k by {
            assert(lists(order@, k));
            let m = choose|m: int| 0 <= m < order@.len() && order@[m] == k;
            assert(symbols@[order@[m] as int].members@.len() > 0);
            let q = choose|q: int| 0 <= q < pos.len() && pos[q] == m;
            assert(ms[q].symbol == order@[pos[q]]);
        }
    }
    PerFileQuerySupport {
        file_id,
        normalized_path,
        completion_symbols,
        navigation_targets,
        member_completion_sets,
    }
}

impl PerFileQuerySupport {
    /// The completion entry of a symbol, if the file offers one.
    pub fn completion_symbol_for(&self, symbol: u32) -> (r: Option<&CompletionSymbol>)
        ensures
            r matches Some(c) ==> c.symbol == symbol && self.completion_symbols@.contains(*c),
            r is None ==> forall|j: int|
                0 <= j < self.completion_symbols@.len() ==> (#[trigger] self.completion_symbols@[j]).symbol != symbol,
    {
        let mut i: usize = 0;
        while i < self.completion_symbols.len()
            invariant
                0 <= i <= self.completion_symbols@.len(),
                forall|j: int| 0 <= j < i ==> (#[trigger] self.completion_symbols@[j]).symbol != symbol,
            decreases self.completion_symbols@.len() - i,
        {
            if self.completion_symbols[i].symbol == symbol {
                assert(self.completion_symbols@[i as int] == self.completion_symbols@[i as int]);
                return Some(&self.completion_symbols[i]);
            }
            i += 1;
        }
        None
    }

    /// The navigation target of a symbol, if the file holds one.
    pub fn navigation_target_for(&self, symbol: u32) -> (r: Option<&CachedNavigationTarget>)
        ensures
            r matches Some(t) ==> t.symbol == symbol && self.navigation_targets@.contains(*t),
            r is None ==> forall|j: int|
                0 <= j < self.navigation_targets@.len() ==> (#[trigger] self.navigation_targets@[j]).symbol != symbol,
    {
        let mut i: usize = 0;
        while i < self.navigation_targets.len()
            invariant
                0 <= i <= self.navigation_targets@.len(),
                forall|j: int| 0 <= j < i ==> (#[trigger] self.navigation_targets@[j]).symbol != symbol,
            decreases self.navigation_targets@.len() - i,
        {
            if self.navigation_targets[i].symbol == symbol {
                assert(self.navigation_targets@[i as int] == self.navigation_targets@[i as int]);
                return Some(&self.navigation_targets[i]);
            }
            i += 1;
        }
        None
    }

    /// The members offered on a symbol's value, if it offers any.
    pub fn member_completions_for(&self, symbol: u32) -> (r: Option<&Vec<MemberCompletion>>)
        ensures
            r matches Some(ms) ==> exists|j: int|
                0 <= j < self.member_completion_sets@.len() && (#[trigger] self.member_completion_sets@[j]).symbol == symbol
                    && self.member_completion_sets@[j].members == *ms,
            r is None ==> forall|j: int|
                0 <= j < self.member_completion_sets@.len() ==> (#[trigger] self.member_completion_sets@[j]).symbol != symbol,
    {
        let mut i: usize = 0;
        while i < self.member_completion_sets.len()
            invariant
                0 <= i <= self.member_completion_sets@.len(),
                forall|j: int| 0 <= j < i ==> (#[trigger] self.member_completion_sets@[j]).symbol != symbol,
            decreases self.member_completion_sets@.len() - i,
        {
            if self.member_completion_sets[i].symbol == symbol {
                assert(self.member_completion_sets@[i as int].symbol == symbol);
                return Some(&self.member_completion_sets[i].members);
            }
            i += 1;
        }
        None
    }
}

} // verus!
