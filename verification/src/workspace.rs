//! Workspace-wide records and the rankings that order them in query results.

use vstd::prelude::*;

use crate::text::{chars_lt, has_infix, has_prefix};

verus! {

/// The identity of a file loaded into the analysis database.
#[derive(Debug, Clone, Copy, PartialEq, Eq, Hash)]
pub struct FileId(pub u32);

/// A half-open range of byte offsets in a file.
#[derive(Debug, Clone, Copy, PartialEq, Eq, Hash)]
pub struct TextRange {
    pub start: u32,
    pub end: u32,
}

/// What identifies a symbol across files: its name and where it is declared.
pub struct SymbolIdentity {
    pub name: String,
    pub declaration_range: TextRange,
}

/// A symbol identity together with the file that declares it.
pub struct LocatedSymbolIdentity {
    pub file_id: FileId,
    pub symbol: SymbolIdentity,
}

/// The stable key of a workspace symbol: the path of its containers.
pub struct SymbolStableKey {
    pub container_path: Vec<String>,
}

/// A symbol that workspace-wide search can find.
pub struct WorkspaceSymbol {
    pub name: String,
    pub exported: bool,
    pub stable_key: SymbolStableKey,
}

/// A workspace symbol together with its file.
pub struct LocatedWorkspaceSymbol {
    pub file_id: FileId,
    pub symbol: WorkspaceSymbol,
}

/// One export edge of a module: which export it is and the name it exports.
pub struct ModuleExportEdge {
    pub export: u32,
    pub exported_name: Option<String>,
}

/// An export edge together with the file that makes it.
pub struct LocatedModuleExport {
    pub file_id: FileId,
    pub export: ModuleExportEdge,
}

/// An import of one workspace file by another, linked to the exporting file.
pub struct LinkedModuleImport {
    pub import: u32,
    pub module_name: String,
    pub provider_file_id: FileId,
}

/// The kinds of project diagnostics.
#[derive(Debug, Clone, Copy, PartialEq, Eq, Hash)]
pub enum ProjectDiagnosticKind {
    Syntax,
    Semantic,
    BrokenLinkedImport,
    AmbiguousLinkedImport,
}

/// The kinds of project-wide references.
#[derive(Debug, Clone, Copy, PartialEq, Eq, Hash)]
pub enum ProjectReferenceKind {
    Definition,
    Reference,
    LinkedImport,
}

/// The order in which diagnostics of each kind are reported.
pub open spec fn diagnostic_kind_rank(kind: ProjectDiagnosticKind) -> u8 {
    match kind {
        ProjectDiagnosticKind::Syntax => 0,
        ProjectDiagnosticKind::Semantic => 1,
        ProjectDiagnosticKind::BrokenLinkedImport => 2,
        ProjectDiagnosticKind::AmbiguousLinkedImport => 3,
    }
}

/// The order in which diagnostics of each kind are reported: syntax, then
/// semantic, then broken and ambiguous linked imports.
pub fn project_diagnostic_kind_rank(kind: ProjectDiagnosticKind) -> (r: u8)
    ensures
        r == diagnostic_kind_rank(kind),
{
    match kind {
        ProjectDiagnosticKind::Syntax => 0,
        ProjectDiagnosticKind::Semantic => 1,
        ProjectDiagnosticKind::BrokenLinkedImport => 2,
        ProjectDiagnosticKind::AmbiguousLinkedImport => 3,
    }
}

/// The order in which references of each kind are reported.
pub open spec fn reference_kind_rank(kind: ProjectReferenceKind) -> u8 {
    match kind {
        ProjectReferenceKind::Definition => 0,
        ProjectReferenceKind::Reference => 1,
        ProjectReferenceKind::LinkedImport => 2,
    }
}

/// The order in which references of each kind are reported: definitions,
/// then references, then linked imports.
pub fn project_reference_kind_rank(kind: ProjectReferenceKind) -> (r: u8)
    ensures
        r == reference_kind_rank(kind),
{
    match kind {
        ProjectReferenceKind::Definition => 0,
        ProjectReferenceKind::Reference => 1,
        ProjectReferenceKind::LinkedImport => 2,
    }
}

/// Whether two located exports are the same export edge of the same file.
pub fn same_export_edge(left: &LocatedModuleExport, right: &LocatedModuleExport) -> (r: bool)
    ensures
        r == (left.file_id == right.file_id && left.export.export == right.export.export),
{
    left.file_id.0 == right.file_id.0 && left.export.export == right.export.export
}

/// The models of a list of strings.
pub open spec fn string_views(ss: Seq<String>) -> Seq<Seq<char>> {
    Seq::new(ss.len(), |i: int| ss[i]@)
}

/// The module path of an import made through a linked import: the parent's
/// path followed by the linked module's name.
pub fn nested_linked_import_origin_path(
    parent_origin_path: &[String],
    linked_import: &LinkedModuleImport,
) -> (r: Vec<String>)
    ensures
        string_views(r@) == string_views(parent_origin_path@).push(linked_import.module_name@),
{
    let mut origin: Vec<String> = Vec::new();
    let mut i: usize = 0;
    while i < parent_origin_path.len()
        invariant
            0 <= i <= parent_origin_path.len(),
            string_views(origin@) == string_views(parent_origin_path@).take(i as int),
        decreases parent_origin_path.len() - i,
    {
        let ghost before = string_views(origin@);
        origin.push(parent_origin_path[i].clone());
        assert(string_views(origin@) =~= before.push(parent_origin_path@[i as int]@));
        assert(string_views(parent_origin_path@).take(i + 1) =~= string_views(parent_origin_path@).take(
            i as int,
        ).push(parent_origin_path@[i as int]@));
        i += 1;
    }
    let ghost before = string_views(origin@);
    origin.push(linked_import.module_name.clone());
    assert(string_views(origin@) =~= before.push(linked_import.module_name@));
    assert(string_views(parent_origin_path@).take(parent_origin_path@.len() as int) =~= string_views(
        parent_origin_path@,
    ));
    origin
}

} // verus!

verus! {

/// How well a workspace symbol matches a lower-cased query: 0 for an empty
/// query or the whole name, 1 for a prefix of the name, 2 for a part of the
/// name, 3 for a part of its container path, 4 otherwise.
pub open spec fn name_match_rank(name: Seq<char>, container: Seq<char>, query: Seq<char>) -> u8 {
    if query.len() == 0 || name == query {
        0
    } else if has_prefix(name, query) {
        1
    } else if has_infix(name, query) {
        2
    } else if has_infix(container, query) {
        3
    } else {
        4
    }
}

/// The lower-cased container path of a symbol, joined with `::`.
pub open spec fn container_text(symbol: WorkspaceSymbol) -> Seq<char> {
    crate::text::ascii_lower(
        crate::text::join_with(string_views(symbol.stable_key.container_path@), seq![':', ':']),
    )
}

/// The sort key of a symbol in workspace search results: its match rank,
/// then exported symbols first, then its lower-cased name.
pub fn workspace_symbol_match_rank(symbol: &LocatedWorkspaceSymbol, query: &str) -> (r: (u8, u8, String))
    ensures
        r.0 == name_match_rank(
            crate::text::ascii_lower(symbol.symbol.name@),
            container_text(symbol.symbol),
            query@,
        ),
        r.1 == if symbol.symbol.exported {
            0u8
        } else {
            1u8
        },
        r.2@ == crate::text::ascii_lower(symbol.symbol.name@),
{
    let name = crate::text::to_ascii_lowercase(symbol.symbol.name.as_str());
    proof {
        reveal_strlit("::");
    }
    let joined = crate::text::join_strings(symbol.symbol.stable_key.container_path.as_slice(), "::");
    assert(Seq::new(
        symbol.symbol.stable_key.container_path@.len(),
        |i: int| symbol.symbol.stable_key.container_path@[i]@,
    ) =~= string_views(symbol.symbol.stable_key.container_path@));
    assert("::"@ =~= seq![':', ':']);
    let container = crate::text::to_ascii_lowercase(joined.as_str());
    let n = crate::text::chars_of(name.as_str());
    let c = crate::text::chars_of(container.as_str());
    let q = crate::text::chars_of(query);
    let name_rank: u8 = if q.len() == 0 || crate::generics::str_eq(name.as_str(), query) {
        0
    } else if crate::text::chars_start(&n, &q) {
        1
    } else if crate::text::chars_contain(&n, &q) {
        2
    } else if crate::text::chars_contain(&c, &q) {
        3
    } else {
        4
    };
    let export_rank: u8 = if symbol.symbol.exported {
        0
    } else {
        1
    };
    (name_rank, export_rank, name)
}

} // verus!

verus! {

/// The model of a located workspace symbol: file, name, whether it is
/// exported, and its container path.
pub open spec fn symbol_view(s: LocatedWorkspaceSymbol) -> (u32, Seq<char>, bool, Seq<Seq<char>>) {
    (s.file_id.0, s.symbol.name@, s.symbol.exported, string_views(s.symbol.stable_key.container_path@))
}

/// The models of a list of located workspace symbols.
pub open spec fn symbol_views(ss: Seq<LocatedWorkspaceSymbol>) -> Seq<(u32, Seq<char>, bool, Seq<Seq<char>>)> {
    Seq::new(ss.len(), |i: int| symbol_view(ss[i]))
}

/// Whether a symbol matches a lower-cased query: every symbol matches the
/// empty query; otherwise its lower-cased name or a lower-cased segment of
/// its container path holds the query.
pub open spec fn query_matches(s: (u32, Seq<char>, bool, Seq<Seq<char>>), needle: Seq<char>) -> bool {
    ||| needle.len() == 0
    ||| has_infix(crate::text::ascii_lower(s.1), needle)
    ||| exists|k: int| 0 <= k < s.3.len() && #[trigger] has_infix(crate::text::ascii_lower(s.3[k]), needle)
}

/// The symbols that match the query, in order.
pub open spec fn matching_symbols(ss: Seq<(u32, Seq<char>, bool, Seq<Seq<char>>)>, needle: Seq<char>) -> Seq<
    (u32, Seq<char>, bool, Seq<Seq<char>>),
>
    decreases ss.len(),
{
    if ss.len() == 0 {
        ss
    } else {
        let kept = matching_symbols(ss.drop_last(), needle);
        if query_matches(ss.last(), needle) {
            kept.push(ss.last())
        } else {
            kept
        }
    }
}

/// The sort key of a symbol in search results: its match rank, exported
/// symbols first, its lower-cased name, its name, and its file.
pub open spec fn symbol_key(s: (u32, Seq<char>, bool, Seq<Seq<char>>), needle: Seq<char>) -> (
    u8,
    u8,
    Seq<char>,
    Seq<char>,
    u32,
) {
    (
        name_match_rank(
            crate::text::ascii_lower(s.1),
            crate::text::ascii_lower(crate::text::join_with(s.3, seq![':', ':'])),
            needle,
        ),
        if s.2 {
            0u8
        } else {
            1u8
        },
        crate::text::ascii_lower(s.1),
        s.1,
        s.0,
    )
}

/// The order of sort keys: field by field, text by character.
pub open spec fn key_lt(a: (u8, u8, Seq<char>, Seq<char>, u32), b: (u8, u8, Seq<char>, Seq<char>, u32)) -> bool {
    if a.0 != b.0 {
        a.0 < b.0
    } else if a.1 != b.1 {
        a.1 < b.1
    } else if a.2 != b.2 {
        chars_lt(a.2, b.2)
    } else if a.3 != b.3 {
        chars_lt(a.3, b.3)
    } else {
        a.4 < b.4
    }
}

/// Inserts a symbol after every symbol whose key does not come after its key.
pub open spec fn insert_by_key(
    s: Seq<(u32, Seq<char>, bool, Seq<Seq<char>>)>,
    x: (u32, Seq<char>, bool, Seq<Seq<char>>),
    needle: Seq<char>,
) -> Seq<(u32, Seq<char>, bool, Seq<Seq<char>>)>
    decreases s.len(),
{
    if s.len() > 0 && key_lt(symbol_key(x, needle), symbol_key(s.last(), needle)) {
        insert_by_key(s.drop_last(), x, needle).push(s.last())
    } else {
        s.push(x)
    }
}

/// The stable sort of symbols by key.
pub open spec fn sort_by_key(s: Seq<(u32, Seq<char>, bool, Seq<Seq<char>>)>, needle: Seq<char>) -> Seq<
    (u32, Seq<char>, bool, Seq<Seq<char>>),
>
    decreases s.len(),
{
    if s.len() == 0 {
        s
    } else {
        insert_by_key(sort_by_key(s.drop_last(), needle), s.last(), needle)
    }
}

proof fn lemma_insert_by_key_at(
    s: Seq<(u32, Seq<char>, bool, Seq<Seq<char>>)>,
    x: (u32, Seq<char>, bool, Seq<Seq<char>>),
    needle: Seq<char>,
    p: int,
)
    requires
        0 <= p <= s.len(),
        forall|j: int| p <= j < s.len() ==> key_lt(symbol_key(x, needle), symbol_key(#[trigger] s[j], needle)),
        p == 0 || !key_lt(symbol_key(x, needle), symbol_key(s[p - 1], needle)),
    ensures
        insert_by_key(s, x, needle) == s.insert(p, x),
    decreases s.len(),
{
    if p < s.len() {
        assert(key_lt(symbol_key(x, needle), symbol_key(s[s.len() - 1], needle)));
        let t = s.drop_last();
        assert(p == 0 || !key_lt(symbol_key(x, needle), symbol_key(t[p - 1], needle)));
        lemma_insert_by_key_at(t, x, needle, p);
        assert(insert_by_key(s, x, needle) =~= s.insert(p, x));
    } else if s.len() > 0 {
        assert(s[s.len() - 1] == s.last());
        assert(insert_by_key(s, x, needle) =~= s.insert(p, x));
    } else {
        assert(insert_by_key(s, x, needle) =~= s.insert(p, x));
    }
}

fn clone_strings(v: &Vec<String>) -> (r: Vec<String>)
    ensures
        string_views(r@) == string_views(v@),
{
    let mut out: Vec<String> = Vec::new();
    let mut i: usize = 0;
    while i < v.len()
        invariant
            0 <= i <= v.len(),
            string_views(out@) == string_views(v@).take(i as int),
        decreases v.len() - i,
    {
        let ghost before = string_views(out@);
        out.push(v[i].clone());
        assert(string_views(out@) =~= before.push(v@[i as int]@));
        assert(string_views(out@) =~= string_views(v@).take(i + 1));
        i += 1;
    }
    assert(string_views(out@) =~= string_views(v@));
    out
}

fn clone_located_symbol(s: &LocatedWorkspaceSymbol) -> (r: LocatedWorkspaceSymbol)
    ensures
        symbol_view(r) == symbol_view(*s),
{
    LocatedWorkspaceSymbol {
        file_id: s.file_id,
        symbol: WorkspaceSymbol {
            name: s.symbol.name.clone(),
            exported: s.symbol.exported,
            stable_key: SymbolStableKey { container_path: clone_strings(&s.symbol.stable_key.container_path) },
        },
    }
}

/// Whether the symbol matches the lower-cased query, as `query_matches` states.
fn symbol_matches_query(s: &LocatedWorkspaceSymbol, needle: &str) -> (r: bool)
    ensures
        r == query_matches(symbol_view(*s), needle@),
{
    let n = crate::text::chars_of(needle);
    if n.len() == 0 {
        return true;
    }
    let name = crate::text::to_ascii_lowercase(s.symbol.name.as_str());
    if crate::text::chars_contain(&crate::text::chars_of(name.as_str()), &n) {
        return true;
    }
    let path = &s.symbol.stable_key.container_path;
    let ghost cp = string_views(path@);
    let mut k: usize = 0;
    while k < path.len()
        invariant
            0 <= k <= path.len(),
            cp == string_views(path@),
            cp == symbol_view(*s).3,
            n@ == needle@,
            forall|j: int| 0 <= j < k ==> !#[trigger] has_infix(crate::text::ascii_lower(cp[j]), needle@),
        decreases path.len() - k,
    {
        let seg = crate::text::to_ascii_lowercase(path[k].as_str());
        if crate::text::chars_contain(&crate::text::chars_of(seg.as_str()), &n) {
            assert(cp[k as int] == path@[k as int]@);
            assert(has_infix(crate::text::ascii_lower(cp[k as int]), needle@));
            assert(symbol_view(*s).3 == cp);
            assert(has_infix(crate::text::ascii_lower(symbol_view(*s).3[k as int]), needle@));
            return true;
        }
        k += 1;
    }
    false
}

/// The key of a symbol, as `symbol_key` states.
fn key_of(s: &LocatedWorkspaceSymbol, needle: &str) -> (r: (u8, u8, String, u32))
    ensures
        (r.0, r.1, r.2@, s.symbol.name@, r.3) == symbol_key(symbol_view(*s), needle@),
{
    let (a, b, lname) = workspace_symbol_match_rank(s, needle);
    assert(string_views(s.symbol.stable_key.container_path@) == symbol_view(*s).3);
    (a, b, lname, s.file_id.0)
}

fn key_less(a: &(u8, u8, String, u32), a_name: &str, b: &(u8, u8, String, u32), b_name: &str) -> (r: bool)
    ensures
        r == key_lt((a.0, a.1, a.2@, a_name@, a.3), (b.0, b.1, b.2@, b_name@, b.3)),
{
    if a.0 != b.0 {
        return a.0 < b.0;
    }
    if a.1 != b.1 {
        return a.1 < b.1;
    }
    if !crate::generics::str_eq(a.2.as_str(), b.2.as_str()) {
        return crate::text::str_less(a.2.as_str(), b.2.as_str());
    }
    if !crate::generics::str_eq(a_name, b_name) {
        return crate::text::str_less(a_name, b_name);
    }
    a.3 < b.3
}

/// The workspace symbols that match a query, best matches first: the query
/// is trimmed and lower-cased; the matching symbols are sorted stably by
/// `symbol_key`.
pub fn workspace_symbols_matching(symbols: &[LocatedWorkspaceSymbol], query: &str) -> (r: Vec<LocatedWorkspaceSymbol>)
    ensures
        symbol_views(r@) == sort_by_key(
            matching_symbols(symbol_views(symbols@), crate::text::ascii_lower(crate::text::trimmed(query@))),
            crate::text::ascii_lower(crate::text::trimmed(query@)),
        ),
{
    let trimmed = crate::text::trim_text(query);
    let needle = crate::text::to_ascii_lowercase(trimmed);
    let ghost nd = needle@;
    let ghost sv = symbol_views(symbols@);
    let mut kept: Vec<LocatedWorkspaceSymbol> = Vec::new();
    let mut i: usize = 0;
    assert(symbol_views(kept@) =~= matching_symbols(sv.take(0), nd));
    while i < symbols.len()
        invariant
            0 <= i <= symbols.len(),
            sv == symbol_views(symbols@),
            nd == needle@,
            symbol_views(kept@) == matching_symbols(sv.take(i as int), nd),
        decreases symbols.len() - i,
    {
        proof {
            assert(sv.take(i + 1).drop_last() =~= sv.take(i as int));
            assert(sv.take(i + 1).last() == sv[i as int]);
        }
        if symbol_matches_query(&symbols[i], needle.as_str()) {
            let ghost before = symbol_views(kept@);
            kept.push(clone_located_symbol(&symbols[i]));
            assert(symbol_views(kept@) =~= before.push(sv[i as int]));
        }
        i += 1;
    }
    assert(sv.take(i as int) =~= sv);
    let ghost ks = symbol_views(kept@);
    let mut sorted: Vec<LocatedWorkspaceSymbol> = Vec::new();
    let mut keys: Vec<(u8, u8, String, u32)> = Vec::new();
    let mut x: usize = 0;
    assert(symbol_views(sorted@) =~= sort_by_key(ks.take(0), nd));
    while x < kept.len()
        invariant
            0 <= x <= kept.len(),
            ks == symbol_views(kept@),
            nd == needle@,
            keys@.len() == sorted@.len(),
            forall|j: int|
                0 <= j < sorted@.len() ==> (#[trigger] keys@[j].0, keys@[j].1, keys@[j].2@, sorted@[j].symbol.name@, keys@[j].3)
                    == symbol_key(symbol_view(sorted@[j]), nd),
            symbol_views(sorted@) == sort_by_key(ks.take(x as int), nd),
        decreases kept.len() - x,
    {
        let ghost s = symbol_views(sorted@);
        let ghost item = ks[x as int];
        let k = key_of(&kept[x], needle.as_str());
        let mut p: usize = sorted.len();
        while p > 0 && key_less(&k, kept[x].symbol.name.as_str(), &keys[p - 1], sorted[p - 1].symbol.name.as_str())
            invariant
                p <= sorted.len(),
                keys@.len() == sorted@.len(),
                x < kept.len(),
                s == symbol_views(sorted@),
                item == symbol_view(kept@[x as int]),
                (k.0, k.1, k.2@, kept@[x as int].symbol.name@, k.3) == symbol_key(item, nd),
                forall|j: int|
                    0 <= j < sorted@.len() ==> (#[trigger] keys@[j].0, keys@[j].1, keys@[j].2@, sorted@[j].symbol.name@, keys@[j].3)
                        == symbol_key(symbol_view(sorted@[j]), nd),
                forall|j: int| p <= j < sorted.len() ==> key_lt(symbol_key(item, nd), symbol_key(#[trigger] s[j], nd)),
            decreases p,
        {
            assert(keys@[p - 1].0 == keys@[p - 1].0);
            assert(s[p - 1] == symbol_view(sorted@[p - 1]));
            p -= 1;
        }
        proof {
            if p > 0 {
                assert(keys@[p - 1].0 == keys@[p - 1].0);
                assert(s[p - 1] == symbol_view(sorted@[p - 1]));
            }
            lemma_insert_by_key_at(s, item, nd, p as int);
            assert(ks.take(x + 1).drop_last() =~= ks.take(x as int));
            assert(ks.take(x + 1).last() == item);
        }
        let ghost old_keys = keys@;
        let ghost old_sorted = sorted@;
        sorted.insert(p, clone_located_symbol(&kept[x]));
        keys.insert(p, k);
        assert(symbol_views(sorted@) =~= s.insert(p as int, item));
        assert forall|j: int|
            0 <= j < sorted@.len() implies (#[trigger] keys@[j].0, keys@[j].1, keys@[j].2@, sorted@[j].symbol.name@, keys@[j].3)
                == symbol_key(symbol_view(sorted@[j]), nd) by {
            if j < p {
                assert(keys@[j] == old_keys[j] && sorted@[j] == old_sorted[j]);
            } else if j > p {
                assert(keys@[j] == old_keys[j - 1] && sorted@[j] == old_sorted[j - 1]);
                assert(old_keys[j - 1].0 == old_keys[j - 1].0);
            }
        }
        x += 1;
    }
    assert(ks.take(x as int) =~= ks);
    sorted
}

proof fn lemma_key_lt_order(
    a: (u8, u8, Seq<char>, Seq<char>, u32),
    b: (u8, u8, Seq<char>, Seq<char>, u32),
    c: (u8, u8, Seq<char>, Seq<char>, u32),
)
    ensures
        !key_lt(a, a),
        key_lt(a, b) && key_lt(b, c) ==> key_lt(a, c),
        key_lt(a, c) ==> key_lt(a, b) || key_lt(b, c),
{
    crate::text::lemma_chars_lt_irreflexive(a.2);
    crate::text::lemma_chars_lt_irreflexive(a.3);
    crate::text::lemma_chars_lt_total(a.2, b.2);
    crate::text::lemma_chars_lt_total(b.2, c.2);
    crate::text::lemma_chars_lt_total(a.3, b.3);
    crate::text::lemma_chars_lt_total(b.3, c.3);
    crate::text::lemma_chars_lt_asymmetric(a.2, b.2);
    crate::text::lemma_chars_lt_asymmetric(b.2, c.2);
    crate::text::lemma_chars_lt_asymmetric(a.3, b.3);
    crate::text::lemma_chars_lt_asymmetric(b.3, c.3);
    crate::text::lemma_chars_lt_asymmetric(a.2, c.2);
    crate::text::lemma_chars_lt_asymmetric(a.3, c.3);
    if chars_lt(a.2, b.2) && chars_lt(b.2, c.2) {
        crate::text::lemma_chars_lt_transitive(a.2, b.2, c.2);
    }
    if chars_lt(a.3, b.3) && chars_lt(b.3, c.3) {
        crate::text::lemma_chars_lt_transitive(a.3, b.3, c.3);
    }
    if chars_lt(b.2, a.2) && chars_lt(a.2, c.2) {
        crate::text::lemma_chars_lt_transitive(b.2, a.2, c.2);
    }
    if chars_lt(a.2, c.2) && chars_lt(c.2, b.2) {
        crate::text::lemma_chars_lt_transitive(a.2, c.2, b.2);
    }
    if chars_lt(b.3, a.3) && chars_lt(a.3, c.3) {
        crate::text::lemma_chars_lt_transitive(b.3, a.3, c.3);
    }
    if chars_lt(a.3, c.3) && chars_lt(c.3, b.3) {
        crate::text::lemma_chars_lt_transitive(a.3, c.3, b.3);
    }
}

/// Whether no symbol's key comes before the key of an earlier symbol.
pub open spec fn key_sorted(s: Seq<(u32, Seq<char>, bool, Seq<Seq<char>>)>, needle: Seq<char>) -> bool {
    forall|i: int, j: int|
        0 <= i < j < s.len() ==> !key_lt(symbol_key(#[trigger] s[j], needle), symbol_key(#[trigger] s[i], needle))
}

proof fn lemma_insert_by_key_props(
    s: Seq<(u32, Seq<char>, bool, Seq<Seq<char>>)>,
    x: (u32, Seq<char>, bool, Seq<Seq<char>>),
    needle: Seq<char>,
)
    ensures
        forall|v| #[trigger] insert_by_key(s, x, needle).contains(v) <==> (s.contains(v) || v == x),
        key_sorted(s, needle) ==> key_sorted(insert_by_key(s, x, needle), needle),
    decreases s.len(),
{
    let r = insert_by_key(s, x, needle);
    let kx = symbol_key(x, needle);
    if s.len() > 0 && key_lt(kx, symbol_key(s.last(), needle)) {
        let t = s.drop_last();
        let last = s.last();
        lemma_insert_by_key_props(t, x, needle);
        let u = insert_by_key(t, x, needle);
        assert forall|v| #[trigger] r.contains(v) <==> (s.contains(v) || v == x) by {
            if r.contains(v) {
                let k = choose|k: int| 0 <= k < r.len() && r[k] == v;
                if k < r.len() - 1 {
                    assert(u[k] == v);
                    assert(u.contains(v));
                    if v != x {
                        let m = choose|m: int| 0 <= m < t.len() && t[m] == v;
                        assert(s[m] == v);
                    }
                } else {
                    assert(s[s.len() - 1] == v);
                }
            }
            if s.contains(v) {
                let m = choose|m: int| 0 <= m < s.len() && s[m] == v;
                if m < s.len() - 1 {
                    assert(t[m] == v);
                    assert(u.contains(v));
                    let k = choose|k: int| 0 <= k < u.len() && u[k] == v;
                    assert(r[k] == v);
                } else {
                    assert(r[r.len() - 1] == v);
                }
            }
            if v == x {
                assert(u.contains(x));
                let k = choose|k: int| 0 <= k < u.len() && u[k] == x;
                assert(r[k] == x);
            }
        }
        if key_sorted(s, needle) {
            assert(key_sorted(t, needle)) by {
                assert forall|i: int, j: int| 0 <= i < j < t.len() implies !key_lt(
                    symbol_key(#[trigger] t[j], needle),
                    symbol_key(#[trigger] t[i], needle),
                ) by {
                    assert(t[i] == s[i] && t[j] == s[j]);
                }
            }
            assert forall|i: int, j: int| 0 <= i < j < r.len() implies !key_lt(
                symbol_key(#[trigger] r[j], needle),
                symbol_key(#[trigger] r[i], needle),
            ) by {
                if j < r.len() - 1 {
                    assert(r[i] == u[i] && r[j] == u[j]);
                } else {
                    assert(r[j] == last);
                    assert(u.contains(u[i]));
                    if u[i] == x {
                        lemma_key_lt_order(kx, symbol_key(last, needle), kx);
                        lemma_key_lt_order(symbol_key(last, needle), kx, symbol_key(last, needle));
                    } else {
                        let m = choose|m: int| 0 <= m < t.len() && t[m] == u[i];
                        assert(s[m] == u[i]);
                        assert(s[s.len() - 1] == last);
                    }
                }
            }
        }
    } else {
        assert forall|v| #[trigger] r.contains(v) <==> (s.contains(v) || v == x) by {
            if r.contains(v) {
                let k = choose|k: int| 0 <= k < r.len() && r[k] == v;
                if k < s.len() {
                    assert(s[k] == v);
                }
            }
            if s.contains(v) {
                let m = choose|m: int| 0 <= m < s.len() && s[m] == v;
                assert(r[m] == v);
            }
            if v == x {
                assert(r[s.len() as int] == x);
            }
        }
        if key_sorted(s, needle) {
            assert forall|i: int, j: int| 0 <= i < j < r.len() implies !key_lt(
                symbol_key(#[trigger] r[j], needle),
                symbol_key(#[trigger] r[i], needle),
            ) by {
                if j < s.len() {
                    assert(r[i] == s[i] && r[j] == s[j]);
                } else {
                    assert(r[j] == x);
                    assert(r[i] == s[i]);
                    if s.len() > 0 {
                        let last = s.last();
                        assert(s[s.len() - 1] == last);
                        if i < s.len() - 1 {
                            assert(!key_lt(symbol_key(s[s.len() - 1], needle), symbol_key(s[i], needle)));
                        }
                        lemma_key_lt_order(kx, symbol_key(last, needle), symbol_key(s[i], needle));
                    }
                }
            }
        }
    }
}

proof fn lemma_sort_by_key_props(s: Seq<(u32, Seq<char>, bool, Seq<Seq<char>>)>, needle: Seq<char>)
    ensures
        key_sorted(sort_by_key(s, needle), needle),
        forall|v| #[trigger] sort_by_key(s, needle).contains(v) <==> s.contains(v),
    decreases s.len(),
{
    if s.len() > 0 {
        let t = s.drop_last();
        lemma_sort_by_key_props(t, needle);
        lemma_insert_by_key_props(sort_by_key(t, needle), s.last(), needle);
        assert forall|v| #[trigger] sort_by_key(s, needle).contains(v) <==> s.contains(v) by {
            if s.contains(v) && v != s.last() {
                let m = choose|m: int| 0 <= m < s.len() && s[m] == v;
                assert(m != s.len() - 1);
                assert(t[m] == v);
            }
            if t.contains(v) {
                let m = choose|m: int| 0 <= m < t.len() && t[m] == v;
                assert(s[m] == v);
            }
            if v == s.last() {
                assert(s[s.len() - 1] == v);
            }
        }
    }
}

proof fn lemma_matching_symbols(ss: Seq<(u32, Seq<char>, bool, Seq<Seq<char>>)>, needle: Seq<char>)
    ensures
        forall|v| #[trigger] matching_symbols(ss, needle).contains(v) <==> (ss.contains(v) && query_matches(v, needle)),
    decreases ss.len(),
{
    if ss.len() > 0 {
        let t = ss.drop_last();
        lemma_matching_symbols(t, needle);
        let k = matching_symbols(t, needle);
        let r = matching_symbols(ss, needle);
        assert forall|v| #[trigger] r.contains(v) <==> (ss.contains(v) && query_matches(v, needle)) by {
            if r.contains(v) {
                let x = choose|x: int| 0 <= x < r.len() && r[x] == v;
                if x < k.len() {
                    assert(k[x] == v);
                    assert(k.contains(v));
                    let m = choose|m: int| 0 <= m < t.len() && t[m] == v;
                    assert(ss[m] == v);
                } else {
                    assert(ss[ss.len() - 1] == v);
                }
            }
            if ss.contains(v) && query_matches(v, needle) {
                let m = choose|m: int| 0 <= m < ss.len() && ss[m] == v;
                if m < ss.len() - 1 {
                    assert(t[m] == v);
                    assert(k.contains(v));
                    let x = choose|x: int| 0 <= x < k.len() && k[x] == v;
                    assert(r[x] == v);
                } else {
                    assert(r[r.len() - 1] == v);
                }
            }
        }
    }
}

/// Workspace symbol search returns exactly the symbols that match the query,
/// ordered by match rank, exported symbols first, then name and file.
pub proof fn law_symbol_search_is_complete_and_ordered(ss: Seq<(u32, Seq<char>, bool, Seq<Seq<char>>)>, needle: Seq<char>)
    ensures
        key_sorted(sort_by_key(matching_symbols(ss, needle), needle), needle),
        forall|v| #[trigger]
            sort_by_key(matching_symbols(ss, needle), needle).contains(v) <==> (ss.contains(v) && query_matches(
                v,
                needle,
            )),
{
    lemma_matching_symbols(ss, needle);
    lemma_sort_by_key_props(matching_symbols(ss, needle), needle);
}

proof fn lemma_sort_by_key_permutes(s: Seq<(u32, Seq<char>, bool, Seq<Seq<char>>)>, needle: Seq<char>)
    ensures
        sort_by_key(s, needle).to_multiset() == s.to_multiset(),
    decreases s.len(),
{
    broadcast use vstd::seq_lib::group_to_multiset_ensures;

    if s.len() > 0 {
        let t = s.drop_last();
        lemma_sort_by_key_permutes(t, needle);
        lemma_insert_by_key_permutes(sort_by_key(t, needle), s.last(), needle);
        assert(s =~= t.push(s.last()));
    }
}

proof fn lemma_insert_by_key_permutes(
    s: Seq<(u32, Seq<char>, bool, Seq<Seq<char>>)>,
    x: (u32, Seq<char>, bool, Seq<Seq<char>>),
    needle: Seq<char>,
)
    ensures
        insert_by_key(s, x, needle).to_multiset() == s.to_multiset().insert(x),
    decreases s.len(),
{
    broadcast use vstd::seq_lib::group_to_multiset_ensures;

    if s.len() > 0 && key_lt(symbol_key(x, needle), symbol_key(s.last(), needle)) {
        lemma_insert_by_key_permutes(s.drop_last(), x, needle);
        assert(s =~= s.drop_last().push(s.last()));
        assert(s.drop_last().to_multiset().insert(x).insert(s.last()) =~= s.drop_last().to_multiset().insert(
            s.last(),
        ).insert(x));
    }
}

/// The symbol search lists each matching symbol as often as the workspace
/// does, and nothing else, best matches first; and it gives the same answer
/// for a query re-cased in ASCII or padded with whitespace.
pub proof fn law_symbol_search_is_a_sorted_permutation(
    ss: Seq<(u32, Seq<char>, bool, Seq<Seq<char>>)>,
    query: Seq<char>,
    other: Seq<char>,
    pre: Seq<char>,
    post: Seq<char>,
)
    requires
        crate::text::ascii_lower(other) == crate::text::ascii_lower(query),
        forall|i: int| 0 <= i < pre.len() ==> crate::text::is_whitespace(#[trigger] pre[i]),
        forall|i: int| 0 <= i < post.len() ==> crate::text::is_whitespace(#[trigger] post[i]),
    ensures
        ({
            let needle = crate::text::ascii_lower(crate::text::trimmed(query));
            &&& sort_by_key(matching_symbols(ss, needle), needle).to_multiset() == matching_symbols(
                ss,
                needle,
            ).to_multiset()
            &&& key_sorted(sort_by_key(matching_symbols(ss, needle), needle), needle)
            &&& crate::text::ascii_lower(crate::text::trimmed(pre + other + post)) == needle
        }),
{
    let needle = crate::text::ascii_lower(crate::text::trimmed(query));
    lemma_sort_by_key_permutes(matching_symbols(ss, needle), needle);
    lemma_sort_by_key_props(matching_symbols(ss, needle), needle);
    crate::text::lemma_trimmed_padding(pre, other, post);
    crate::text::lemma_lower_trimmed(other);
    crate::text::lemma_lower_trimmed(query);
}

} // verus!
