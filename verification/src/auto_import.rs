//! Planning automatic imports: which exports a name may come from, the
//! module name and alias to import them under, and the text edit that adds
//! the import.

use vstd::prelude::*;

use crate::text::{alias_choice_ok, alias_set, ascii_lower, chars_lt, has_infix, has_prefix, import_alias, import_cost,
    is_whitespace, trimmed};
use crate::lattice::opt_ty;
use crate::module_completions::{opt_text, SymbolKind};
use crate::ty::{clone_type, TypeRef};
use crate::workspace::{FileId, TextRange};

verus! {

/// Whether an export whose name is `exported` is offered for the
/// lower-cased name `query`: every export is for an empty query, otherwise
/// its lower-cased name must start with or hold the query.
pub open spec fn export_offered(exported: Seq<char>, query: Seq<char>) -> bool {
    query.len() == 0 || has_prefix(ascii_lower(exported), query) || has_infix(ascii_lower(exported), query)
}

/// Whether an export of the given name is offered for the lower-cased name
/// query, as `export_offered` states.
pub fn export_name_matches(exported_name: &str, query_lower: &str) -> (r: bool)
    ensures
        r == export_offered(exported_name@, query_lower@),
{
    let q = crate::text::chars_of(query_lower);
    if q.len() == 0 {
        return true;
    }
    let lower = crate::text::to_ascii_lowercase(exported_name);
    let n = crate::text::chars_of(lower.as_str());
    crate::text::chars_start(&n, &q) || crate::text::chars_contain(&n, &q)
}

/// The statement that imports a module under an alias.
pub open spec fn import_statement(module_name: Seq<char>, alias: Seq<char>) -> Seq<char> {
    "import \""@ + module_name + "\" as "@ + alias + ";"@
}

/// The text that adds an import to a file: after the last import on a line
/// of its own; in a file without imports, at the top, followed by a blank
/// line unless the file holds nothing but whitespace.
pub open spec fn import_insert_text(has_imports: bool, file_text: Seq<char>, module_name: Seq<char>, alias: Seq<char>) -> Seq<
    char,
> {
    if !has_imports {
        if trimmed(file_text).len() == 0 {
            import_statement(module_name, alias)
        } else {
            import_statement(module_name, alias) + "\n\n"@
        }
    } else {
        "\n"@ + import_statement(module_name, alias)
    }
}

/// The text that adds `import "<module_name>" as <alias>;` to a file, as
/// `import_insert_text` states; there always is one.
pub fn auto_import_insert_text(has_imports: bool, file_text: &str, module_name: &str, alias: &str) -> (r: Option<String>)
    ensures
        r matches Some(s) && s@ == import_insert_text(has_imports, file_text@, module_name@, alias@),
{
    let mut stmt = String::new();
    stmt.append("import \"");
    stmt.append(module_name);
    stmt.append("\" as ");
    stmt.append(alias);
    stmt.append(";");
    assert(stmt@ =~= import_statement(module_name@, alias@));
    if !has_imports {
        let t = crate::text::trim_text(file_text);
        if t.is_empty() {
            return Some(stmt);
        }
        stmt.append("\n\n");
        return Some(stmt);
    }
    let mut out = String::new();
    out.append("\n");
    out.append(stmt.as_str());
    Some(out)
}

/// The number of leading whitespace characters of a text.
pub open spec fn leading_whitespace(t: Seq<char>) -> nat
    decreases t.len(),
{
    if t.len() > 0 && is_whitespace(t[0]) {
        1 + leading_whitespace(t.drop_first())
    } else {
        0
    }
}

/// The byte offset at which an automatic import goes: the end of the last
/// import, or else the end of the file's leading whitespace.
pub open spec fn import_insertion_offset(last_import_end: Option<u32>, file_text: Seq<char>) -> u32 {
    match last_import_end {
        Some(end) => end,
        None => vstd::utf8::encode_utf8(file_text.take(leading_whitespace(file_text) as int)).len() as u32,
    }
}

proof fn lemma_leading_whitespace(t: Seq<char>, i: int)
    requires
        0 <= i <= leading_whitespace(t),
    ensures
        leading_whitespace(t) <= t.len(),
        forall|j: int| 0 <= j < leading_whitespace(t) ==> is_whitespace(#[trigger] t[j]),
        leading_whitespace(t) < t.len() ==> !is_whitespace(t[leading_whitespace(t) as int]),
    decreases t.len(),
{
    if t.len() > 0 && is_whitespace(t[0]) {
        lemma_leading_whitespace(t.drop_first(), 0);
        assert forall|j: int| 0 <= j < leading_whitespace(t) implies is_whitespace(#[trigger] t[j]) by {
            if j > 0 {
                assert(t[j] == t.drop_first()[j - 1]);
            }
        }
        if leading_whitespace(t) < t.len() {
            assert(t[leading_whitespace(t) as int] == t.drop_first()[leading_whitespace(t.drop_first()) as int]);
        }
    }
}

proof fn lemma_encode_utf8_concat(a: Seq<char>, b: Seq<char>)
    ensures
        vstd::utf8::encode_utf8(a + b) == vstd::utf8::encode_utf8(a) + vstd::utf8::encode_utf8(b),
    decreases a.len(),
{
    if a.len() > 0 {
        lemma_encode_utf8_concat(a.drop_first(), b);
        assert((a + b).drop_first() =~= a.drop_first() + b);
        assert((a + b)[0] == a[0]);
        assert(vstd::utf8::encode_utf8(a + b) =~= vstd::utf8::encode_utf8(a) + vstd::utf8::encode_utf8(b));
    } else {
        assert(a + b =~= b);
        assert(vstd::utf8::encode_utf8(a) =~= Seq::<u8>::empty());
        assert(vstd::utf8::encode_utf8(a) + vstd::utf8::encode_utf8(b) =~= vstd::utf8::encode_utf8(b));
    }
}

proof fn lemma_encode_utf8_push(a: Seq<char>, c: char)
    ensures
        vstd::utf8::encode_utf8(a.push(c)).len() == vstd::utf8::encode_utf8(a).len() + vstd::utf8::encode_scalar(
            c as u32,
        ).len(),
{
    lemma_encode_utf8_concat(a, seq![c]);
    assert(a.push(c) =~= a + seq![c]);
    assert(seq![c].drop_first() =~= Seq::<char>::empty());
    assert(vstd::utf8::encode_utf8(seq![c]) =~= vstd::utf8::encode_scalar(c as u32) + vstd::utf8::encode_utf8(
        Seq::<char>::empty(),
    ));
}

/// The number of bytes that UTF-8 takes to encode a character.
fn utf8_width(c: char) -> (r: usize)
    ensures
        r == vstd::utf8::encode_scalar(c as u32).len(),
{
    let u = c as u32;
    if u < 0x80 {
        1
    } else if u < 0x800 {
        2
    } else if u < 0x10000 {
        3
    } else {
        4
    }
}

/// The byte offset at which an automatic import goes, as
/// `import_insertion_offset` states.
pub fn auto_import_insertion_offset(last_import_end: Option<u32>, file_text: &str) -> (r: u32)
    ensures
        r == import_insertion_offset(last_import_end, file_text@),
{
    if let Some(end) = last_import_end {
        return end;
    }
    let t = crate::text::chars_of(file_text);
    let bytes = file_text.as_bytes();
    let byte_len = bytes.len();
    let ghost tv = t@;
    assert(byte_len == bytes@.len());
    assert(vstd::utf8::encode_utf8(tv).len() == bytes@.len());
    proof {
        lemma_leading_whitespace(tv, 0);
        lemma_encode_utf8_concat(tv.take(leading_whitespace(tv) as int), tv.skip(leading_whitespace(tv) as int));
        assert(tv.take(leading_whitespace(tv) as int) + tv.skip(leading_whitespace(tv) as int) =~= tv);
    }
    let mut offset: usize = 0;
    let mut i: usize = 0;
    while i < t.len() && crate::text::is_whitespace_exec(t[i])
        invariant
            0 <= i <= t.len(),
            tv == t@,
            i <= leading_whitespace(tv),
            leading_whitespace(tv) <= tv.len(),
            forall|j: int| 0 <= j < leading_whitespace(tv) ==> is_whitespace(#[trigger] tv[j]),
            leading_whitespace(tv) < tv.len() ==> !is_whitespace(tv[leading_whitespace(tv) as int]),
            vstd::utf8::encode_utf8(tv.take(leading_whitespace(tv) as int)).len() <= vstd::utf8::encode_utf8(tv).len(),
            vstd::utf8::encode_utf8(tv).len() <= usize::MAX,
            offset == vstd::utf8::encode_utf8(tv.take(i as int)).len(),
        decreases t.len() - i,
    {
        proof {
            lemma_encode_utf8_push(tv.take(i as int), tv[i as int]);
            assert(tv.take(i as int).push(tv[i as int]) =~= tv.take(i + 1));
            if i + 1 < leading_whitespace(tv) {
                lemma_encode_utf8_concat(tv.take(i + 1), tv.subrange(i + 1, leading_whitespace(tv) as int));
                assert(tv.take(i + 1) + tv.subrange(i + 1, leading_whitespace(tv) as int) =~= tv.take(
                    leading_whitespace(tv) as int,
                ));
            }
        }
        offset = offset + utf8_width(t[i]);
        i += 1;
    }
    assert(i == leading_whitespace(tv));
    offset as u32
}

/// How to import one export: the module name and alias to import it under,
/// the text to insert and where, the text that then refers to the export,
/// and the cost that ranks the plan.
pub struct AutoImportPlan {
    pub module_name: String,
    pub alias: String,
    pub insert_text: String,
    pub insertion_offset: u32,
    pub qualified_reference_text: String,
    pub import_cost: u8,
}

/// What a plan to import an export by its name must be: none when no module
/// name leads from the importer to the provider; otherwise an existing
/// import of the provider is reused at no cost and with no edit, or a new
/// import is added under the first free alias, and the export is referred
/// to through the alias.
pub open spec fn name_plan_ok(
    importer: Seq<char>,
    provider: Seq<char>,
    exported: Seq<char>,
    existing_alias: Option<Seq<char>>,
    taken: Seq<String>,
    has_imports: bool,
    last_import_end: Option<u32>,
    file_text: Seq<char>,
    r: Option<AutoImportPlan>,
) -> bool {
    match crate::paths::auto_import_module(importer, provider) {
        None => r is None,
        Some(m) => r matches Some(p) && {
            &&& p.module_name@ == m
            &&& p.qualified_reference_text@ == p.alias@ + "::"@ + exported
            &&& match existing_alias {
                Some(a) => p.alias@ == a && p.insert_text@.len() == 0 && p.insertion_offset == 0 && p.import_cost
                    == 0,
                None => {
                    &&& alias_choice_ok(import_alias(m), alias_set(taken), p.alias@)
                    &&& p.insert_text@ == import_insert_text(has_imports, file_text, m, p.alias@)
                    &&& p.insertion_offset == if p.insert_text@.len() == 0 {
                        0
                    } else {
                        import_insertion_offset(last_import_end, file_text)
                    }
                    &&& p.import_cost == import_cost(m)
                },
            }
        },
    }
}

/// Plans the import of an export that a name may refer to, as
/// `name_plan_ok` states.
pub fn plan_name_import(
    importer_path: &str,
    provider_path: &str,
    exported_name: &str,
    existing_alias: Option<&str>,
    taken_aliases: &[String],
    has_imports: bool,
    last_import_end: Option<u32>,
    file_text: &str,
) -> (r: Option<AutoImportPlan>)
    ensures
        name_plan_ok(
            importer_path@,
            provider_path@,
            exported_name@,
            match existing_alias {
                Some(a) => Some(a@),
                None => None,
            },
            taken_aliases@,
            has_imports,
            last_import_end,
            file_text@,
            r,
        ),
{
    let module_name = match crate::paths::auto_import_module_name(importer_path, provider_path) {
        Some(m) => m,
        None => {
            return None;
        },
    };
    let (alias, insert_text, import_cost) = match existing_alias {
        Some(a) => (a.to_owned(), String::new(), 0u8),
        None => {
            let alias = crate::text::auto_import_alias_for_module(module_name.as_str(), taken_aliases);
            let text = match auto_import_insert_text(has_imports, file_text, module_name.as_str(), alias.as_str()) {
                Some(t) => t,
                None => {
                    return None;
                },
            };
            (alias, text, crate::text::auto_import_cost(module_name.as_str()))
        },
    };
    let insertion_offset = if insert_text.as_str().is_empty() {
        0
    } else {
        auto_import_insertion_offset(last_import_end, file_text)
    };
    let mut qualified = alias.clone();
    qualified.append("::");
    qualified.append(exported_name);
    Some(
        AutoImportPlan {
            module_name,
            alias,
            insert_text,
            insertion_offset,
            qualified_reference_text: qualified,
            import_cost,
        },
    )
}

/// The alias that a one-segment module path asks for, and whether the
/// imported module's own alias must equal it: `global` asks for itself with
/// no such demand; another single segment asks for itself and demands it.
/// None when the path has more segments or the alias is taken.
pub open spec fn module_path_alias_spec(path: Seq<Seq<char>>, taken: Set<Seq<char>>) -> Option<(Seq<char>, bool)> {
    if path.len() != 1 || taken.contains(path[0]) {
        None
    } else {
        Some((path[0], path[0] != "global"@))
    }
}

/// The alias that a qualified name's one-segment module path asks for, as
/// `module_path_alias_spec` states.
pub fn module_path_alias(path_segments: &[String], taken_aliases: &[String]) -> (r: Option<(String, bool)>)
    ensures
        match r {
            Some((a, restrict)) => module_path_alias_spec(crate::workspace::string_views(path_segments@), alias_set(
                taken_aliases@,
            )) == Some((a@, restrict)),
            None => module_path_alias_spec(crate::workspace::string_views(path_segments@), alias_set(taken_aliases@))
                is None,
        },
{
    if path_segments.len() != 1 {
        return None;
    }
    let segment = &path_segments[0];
    assert(crate::workspace::string_views(path_segments@)[0] == segment@);
    if crate::text::contains_string(taken_aliases, segment) {
        return None;
    }
    let is_global = crate::generics::str_eq(segment.as_str(), "global");
    Some((segment.clone(), !is_global))
}

/// What a plan to import an export through a module path's alias must be:
/// none when no module name leads to the provider, or when the alias is
/// demanded and the module's own alias differs; otherwise a new import under
/// the asked-for alias, and the export referred to by its name.
pub open spec fn module_path_plan_ok(
    alias: Seq<char>,
    restrict: bool,
    importer: Seq<char>,
    provider: Seq<char>,
    exported: Seq<char>,
    has_imports: bool,
    last_import_end: Option<u32>,
    file_text: Seq<char>,
    r: Option<AutoImportPlan>,
) -> bool {
    match crate::paths::auto_import_module(importer, provider) {
        None => r is None,
        Some(m) => if restrict && import_alias(m) != alias {
            r is None
        } else {
            r matches Some(p) && {
                &&& p.module_name@ == m
                &&& p.alias@ == alias
                &&& p.insert_text@ == import_insert_text(has_imports, file_text, m, alias)
                &&& p.insertion_offset == import_insertion_offset(last_import_end, file_text)
                &&& p.qualified_reference_text@ == exported
                &&& p.import_cost == import_cost(m)
            }
        },
    }
}

/// Plans the import of an export that a qualified name `alias::name` may
/// refer to, as `module_path_plan_ok` states.
pub fn plan_module_path_import(
    alias: &str,
    restrict: bool,
    importer_path: &str,
    provider_path: &str,
    exported_name: &str,
    has_imports: bool,
    last_import_end: Option<u32>,
    file_text: &str,
) -> (r: Option<AutoImportPlan>)
    ensures
        module_path_plan_ok(
            alias@,
            restrict,
            importer_path@,
            provider_path@,
            exported_name@,
            has_imports,
            last_import_end,
            file_text@,
            r,
        ),
{
    let module_name = match crate::paths::auto_import_module_name(importer_path, provider_path) {
        Some(m) => m,
        None => {
            return None;
        },
    };
    if restrict {
        let own = crate::text::auto_import_alias(module_name.as_str());
        if !crate::generics::str_eq(own.as_str(), alias) {
            return None;
        }
    }
    let insert_text = match auto_import_insert_text(has_imports, file_text, module_name.as_str(), alias) {
        Some(t) => t,
        None => {
            return None;
        },
    };
    let insertion_offset = auto_import_insertion_offset(last_import_end, file_text);
    let import_cost = crate::text::auto_import_cost(module_name.as_str());
    Some(
        AutoImportPlan {
            module_name,
            alias: alias.to_owned(),
            insert_text,
            insertion_offset,
            qualified_reference_text: exported_name.to_owned(),
            import_cost,
        },
    )
}

/// An export that an automatic import may bring in, with what the
/// database knows of it for the importing file.
pub struct ExportedSymbol {
    pub file_id: FileId,
    pub exported_name: Option<String>,
    /// The symbol the export stands for (its target, else its alias, else
    /// itself); none when the export has no identity.
    pub symbol: Option<u32>,
    /// The normalized path of the exporting file, when it is known.
    pub provider_path: Option<String>,
    /// The alias under which the importing file already imports the
    /// exporting file, if it does.
    pub existing_alias: Option<String>,
    /// The kind of the symbol the export stands for.
    pub kind: SymbolKind,
    /// The inferred, else declared, type of that symbol.
    pub annotation: Option<TypeRef>,
    /// The documentation of the export.
    pub docs: Option<String>,
}

/// An automatic import offered for a name: the export it brings in and how.
pub struct AutoImportCandidate {
    /// The importing file.
    pub file_id: FileId,
    pub provider_file_id: FileId,
    pub provider_path: String,
    pub symbol: u32,
    pub name: String,
    pub kind: SymbolKind,
    pub annotation: Option<TypeRef>,
    pub docs: Option<String>,
    /// The range of the text that accepting the candidate replaces.
    pub replace_range: TextRange,
    pub plan: AutoImportPlan,
}

/// Whether a candidate carries what the export and the request give it:
/// the importing file, the range to replace, the provider's path, and the
/// kind, type and documentation of the exported symbol.
pub open spec fn carries_export(
    c: AutoImportCandidate,
    e: ExportedSymbol,
    importer: FileId,
    replace_range: TextRange,
) -> bool {
    &&& c.file_id == importer
    &&& c.replace_range == replace_range
    &&& e.provider_path matches Some(p) && c.provider_path@ == p@
    &&& c.kind == e.kind
    &&& opt_ty(c.annotation) == opt_ty(e.annotation)
    &&& opt_text(c.docs) == opt_text(e.docs)
}

/// The model of a candidate: its import cost, module name, provider,
/// symbol, alias, name, insert text, insertion offset and qualified text.
pub open spec fn candidate_view(c: AutoImportCandidate) -> (
    u8,
    Seq<char>,
    u32,
    u32,
    Seq<char>,
    Seq<char>,
    Seq<char>,
    u32,
    Seq<char>,
) {
    (
        c.plan.import_cost,
        c.plan.module_name@,
        c.provider_file_id.0,
        c.symbol,
        c.plan.alias@,
        c.name@,
        c.plan.insert_text@,
        c.plan.insertion_offset,
        c.plan.qualified_reference_text@,
    )
}

/// The models of candidates.
pub open spec fn candidate_views(cs: Seq<AutoImportCandidate>) -> Seq<
    (u8, Seq<char>, u32, u32, Seq<char>, Seq<char>, Seq<char>, u32, Seq<char>),
> {
    Seq::new(cs.len(), |i: int| candidate_view(cs[i]))
}

/// The order of candidates: cheapest import first, then by module name,
/// provider and symbol.
pub open spec fn candidate_lt(
    a: (u8, Seq<char>, u32, u32, Seq<char>, Seq<char>, Seq<char>, u32, Seq<char>),
    b: (u8, Seq<char>, u32, u32, Seq<char>, Seq<char>, Seq<char>, u32, Seq<char>),
) -> bool {
    ||| a.0 < b.0
    ||| a.0 == b.0 && chars_lt(a.1, b.1)
    ||| a.0 == b.0 && a.1 == b.1 && a.2 < b.2
    ||| a.0 == b.0 && a.1 == b.1 && a.2 == b.2 && a.3 < b.3
}

/// Whether two candidates import the same symbol of the same provider
/// under the same alias.
pub open spec fn same_candidate(
    a: (u8, Seq<char>, u32, u32, Seq<char>, Seq<char>, Seq<char>, u32, Seq<char>),
    b: (u8, Seq<char>, u32, u32, Seq<char>, Seq<char>, Seq<char>, u32, Seq<char>),
) -> bool {
    a.2 == b.2 && a.4 == b.4 && a.3 == b.3
}

/// Inserts `x` after every candidate that does not come after it.
pub open spec fn insert_candidate(
    s: Seq<(u8, Seq<char>, u32, u32, Seq<char>, Seq<char>, Seq<char>, u32, Seq<char>)>,
    x: (u8, Seq<char>, u32, u32, Seq<char>, Seq<char>, Seq<char>, u32, Seq<char>),
) -> Seq<(u8, Seq<char>, u32, u32, Seq<char>, Seq<char>, Seq<char>, u32, Seq<char>)>
    decreases s.len(),
{
    if s.len() > 0 && candidate_lt(x, s.last()) {
        insert_candidate(s.drop_last(), x).push(s.last())
    } else {
        s.push(x)
    }
}

/// The stable sort of candidates by `candidate_lt`.
pub open spec fn sorted_candidates(
    s: Seq<(u8, Seq<char>, u32, u32, Seq<char>, Seq<char>, Seq<char>, u32, Seq<char>)>,
) -> Seq<(u8, Seq<char>, u32, u32, Seq<char>, Seq<char>, Seq<char>, u32, Seq<char>)>
    decreases s.len(),
{
    if s.len() == 0 {
        s
    } else {
        insert_candidate(sorted_candidates(s.drop_last()), s.last())
    }
}

/// `s` without each candidate that is the same as the one kept just before it.
pub open spec fn distinct_candidates(
    s: Seq<(u8, Seq<char>, u32, u32, Seq<char>, Seq<char>, Seq<char>, u32, Seq<char>)>,
) -> Seq<(u8, Seq<char>, u32, u32, Seq<char>, Seq<char>, Seq<char>, u32, Seq<char>)>
    decreases s.len(),
{
    if s.len() == 0 {
        s
    } else {
        let d = distinct_candidates(s.drop_last());
        if d.len() > 0 && same_candidate(s.last(), d.last()) {
            d
        } else {
            d.push(s.last())
        }
    }
}

fn candidate_less(a: &AutoImportCandidate, b: &AutoImportCandidate) -> (r: bool)
    ensures
        r == candidate_lt(candidate_view(*a), candidate_view(*b)),
{
    if a.plan.import_cost != b.plan.import_cost {
        return a.plan.import_cost < b.plan.import_cost;
    }
    if !crate::generics::str_eq(a.plan.module_name.as_str(), b.plan.module_name.as_str()) {
        return crate::text::str_less(a.plan.module_name.as_str(), b.plan.module_name.as_str());
    }
    proof {
        crate::text::lemma_chars_lt_irreflexive(a.plan.module_name@);
    }
    if a.provider_file_id.0 != b.provider_file_id.0 {
        return a.provider_file_id.0 < b.provider_file_id.0;
    }
    a.symbol < b.symbol
}

proof fn lemma_insert_candidate_at(
    s: Seq<(u8, Seq<char>, u32, u32, Seq<char>, Seq<char>, Seq<char>, u32, Seq<char>)>,
    x: (u8, Seq<char>, u32, u32, Seq<char>, Seq<char>, Seq<char>, u32, Seq<char>),
    p: int,
)
    requires
        0 <= p <= s.len(),
        forall|j: int| p <= j < s.len() ==> candidate_lt(x, #[trigger] s[j]),
        p == 0 || !candidate_lt(x, s[p - 1]),
    ensures
        insert_candidate(s, x) == s.insert(p, x),
    decreases s.len(),
{
    if p < s.len() {
        assert(candidate_lt(x, s[s.len() - 1]));
        let t = s.drop_last();
        assert(p == 0 || !candidate_lt(x, t[p - 1]));
        lemma_insert_candidate_at(t, x, p);
        assert(insert_candidate(s, x) =~= s.insert(p, x));
    } else {
        assert(insert_candidate(s, x) =~= s.insert(p, x));
    }
}

fn insert_sorted_candidate(sorted: &mut Vec<AutoImportCandidate>, x: AutoImportCandidate)
    ensures
        candidate_views(final(sorted)@) == insert_candidate(candidate_views(old(sorted)@), candidate_view(x)),
        forall|i: int| 0 <= i < final(sorted)@.len() ==> old(sorted)@.contains(#[trigger] final(sorted)@[i]) || final(sorted)@[i] == x,
{
    let ghost old_sorted = sorted@;
    let ghost s = candidate_views(sorted@);
    let mut p: usize = sorted.len();
    while p > 0 && candidate_less(&x, &sorted[p - 1])
        invariant
            p <= sorted.len(),
            s == candidate_views(sorted@),
            forall|j: int| p <= j < sorted.len() ==> candidate_lt(candidate_view(x), #[trigger] s[j]),
        decreases p,
    {
        p -= 1;
    }
    proof {
        lemma_insert_candidate_at(s, candidate_view(x), p as int);
    }
    sorted.insert(p, x);
    assert(candidate_views(sorted@) =~= s.insert(p as int, candidate_view(x)));
    assert forall|i: int| 0 <= i < sorted@.len() implies old_sorted.contains(#[trigger] sorted@[i]) || sorted@[i] == x by {
        if i < p {
            assert(sorted@[i] == old_sorted[i]);
        } else if i > p {
            assert(sorted@[i] == old_sorted[i - 1]);
        }
    }
}

/// Orders candidates cheapest first, then by module name, provider and
/// symbol, keeping the order of those that tie, and drops each one that
/// imports the same symbol of the same provider under the same alias as the
/// one kept just before it.
pub fn order_auto_import_candidates(candidates: Vec<AutoImportCandidate>) -> (r: Vec<AutoImportCandidate>)
    ensures
        candidate_views(r@) == distinct_candidates(sorted_candidates(candidate_views(candidates@))),
        forall|i: int| 0 <= i < r@.len() ==> candidates@.contains(#[trigger] r@[i]),
{
    let ghost input = candidate_views(candidates@);
    let ghost given = candidates@;
    let mut rest = candidates;
    let mut sorted: Vec<AutoImportCandidate> = Vec::new();
    let ghost mut k: int = 0;
    while rest.len() > 0
        invariant
            0 <= k <= input.len(),
            candidate_views(sorted@) == sorted_candidates(input.take(k)),
            candidate_views(rest@) == input.skip(k),
            k + rest.len() == input.len(),
            forall|i: int| 0 <= i < sorted@.len() ==> given.contains(#[trigger] sorted@[i]),
            forall|i: int| 0 <= i < rest@.len() ==> given.contains(#[trigger] rest@[i]),
        decreases rest.len(),
    {
        assert(candidate_views(rest@)[0] == input[k]);
        let ghost prev = rest@;
        let x = rest.remove(0);
        proof {
            assert(given.contains(prev[0]));
            assert forall|i: int| 0 <= i < rest@.len() implies given.contains(#[trigger] rest@[i]) by {
                assert(rest@[i] == prev[i + 1]);
            }
            assert(candidate_view(x) == input[k]);
            assert(input.take(k + 1).drop_last() =~= input.take(k));
            assert forall|i: int| 0 <= i < rest.len() implies candidate_views(rest@)[i] == input.skip(k + 1)[i] by {
                assert(rest@[i] == prev[i + 1]);
                assert(candidate_views(prev)[i + 1] == input.skip(k)[i + 1]);
            }
            assert(candidate_views(rest@) =~= input.skip(k + 1));
        }
        let ghost sorted_before = sorted@;
        insert_sorted_candidate(&mut sorted, x);
        proof {
            assert forall|i: int| 0 <= i < sorted@.len() implies given.contains(#[trigger] sorted@[i]) by {
                if sorted@[i] != x {
                    let j = choose|j: int| 0 <= j < sorted_before.len() && sorted_before[j] == sorted@[i];
                    assert(given.contains(sorted_before[j]));
                }
            }
            k = k + 1;
        }
    }
    assert(input.take(k) =~= input);
    let ghost ordered = candidate_views(sorted@);
    let mut out: Vec<AutoImportCandidate> = Vec::new();
    let ghost mut m: int = 0;
    while sorted.len() > 0
        invariant
            0 <= m <= ordered.len(),
            candidate_views(out@) == distinct_candidates(ordered.take(m)),
            candidate_views(sorted@) == ordered.skip(m),
            m + sorted.len() == ordered.len(),
            forall|i: int| 0 <= i < sorted@.len() ==> given.contains(#[trigger] sorted@[i]),
            forall|i: int| 0 <= i < out@.len() ==> given.contains(#[trigger] out@[i]),
        decreases sorted.len(),
    {
        assert(candidate_views(sorted@)[0] == ordered[m]);
        let ghost prev = sorted@;
        let x = sorted.remove(0);
        proof {
            assert(given.contains(prev[0]));
            assert forall|i: int| 0 <= i < sorted@.len() implies given.contains(#[trigger] sorted@[i]) by {
                assert(sorted@[i] == prev[i + 1]);
            }
            assert(candidate_view(x) == ordered[m]);
            assert(ordered.take(m + 1).drop_last() =~= ordered.take(m));
            assert forall|i: int| 0 <= i < sorted.len() implies candidate_views(sorted@)[i] == ordered.skip(m + 1)[i] by {
                assert(sorted@[i] == prev[i + 1]);
                assert(candidate_views(prev)[i + 1] == ordered.skip(m)[i + 1]);
            }
            assert(candidate_views(sorted@) =~= ordered.skip(m + 1));
        }
        let repeat = out.len() > 0 && {
            let last = &out[out.len() - 1];
            x.provider_file_id.0 == last.provider_file_id.0 && crate::generics::str_eq(
                x.plan.alias.as_str(),
                last.plan.alias.as_str(),
            ) && x.symbol == last.symbol
        };
        if !repeat {
            let ghost before = candidate_views(out@);
            let ghost out_before = out@;
            out.push(x);
            assert(candidate_views(out@) =~= before.push(ordered[m]));
            assert forall|i: int| 0 <= i < out@.len() implies given.contains(#[trigger] out@[i]) by {
                if i < out_before.len() {
                    assert(out@[i] == out_before[i]);
                }
            }
        }
        proof {
            m = m + 1;
        }
    }
    assert(ordered.take(m) =~= ordered);
    out
}

/// Whether an export may be offered to the importing file for a
/// lower-cased query: it has a name that the query offers, an identity and
/// a known path, and another file exports it.
pub open spec fn export_eligible(e: ExportedSymbol, importer: FileId, query: Seq<char>) -> bool {
    &&& e.exported_name is Some
    &&& export_offered(e.exported_name->0@, query)
    &&& e.symbol is Some
    &&& e.file_id != importer
    &&& e.provider_path is Some
}

/// The alias under which the importing file already imports an export's file.
pub open spec fn existing_alias_of(e: ExportedSymbol) -> Option<Seq<char>> {
    match e.existing_alias {
        Some(a) => Some(a@),
        None => None,
    }
}

/// Whether a candidate offers an eligible export as `name_plan_ok` states.
pub open spec fn candidate_for(
    e: ExportedSymbol,
    c: AutoImportCandidate,
    importer: FileId,
    replace_range: TextRange,
    importer_path: Seq<char>,
    taken: Seq<String>,
    has_imports: bool,
    last_import_end: Option<u32>,
    file_text: Seq<char>,
) -> bool {
    &&& c.provider_file_id == e.file_id
    &&& c.symbol == e.symbol->0
    &&& c.name@ == e.exported_name->0@
    &&& carries_export(c, e, importer, replace_range)
    &&& name_plan_ok(
        importer_path,
        e.provider_path->0@,
        e.exported_name->0@,
        existing_alias_of(e),
        taken,
        has_imports,
        last_import_end,
        file_text,
        Some(c.plan),
    )
}

/// Whether `cs` are, in order, the candidates for the exports: one for each
/// eligible export whose file a module name leads to, and none for others.
pub open spec fn candidates_for(
    es: Seq<ExportedSymbol>,
    cs: Seq<AutoImportCandidate>,
    importer: FileId,
    replace_range: TextRange,
    query: Seq<char>,
    importer_path: Seq<char>,
    taken: Seq<String>,
    has_imports: bool,
    last_import_end: Option<u32>,
    file_text: Seq<char>,
) -> bool
    decreases es.len(),
{
    if es.len() == 0 {
        cs.len() == 0
    } else {
        let e = es.last();
        if export_eligible(e, importer, query) && crate::paths::auto_import_module(
            importer_path,
            e.provider_path->0@,
        ) is Some {
            &&& cs.len() > 0
            &&& candidate_for(e, cs.last(), importer, replace_range, importer_path, taken, has_imports, last_import_end, file_text)
            &&& candidates_for(
                es.drop_last(),
                cs.drop_last(),
                importer,
                replace_range,
                query,
                importer_path,
                taken,
                has_imports,
                last_import_end,
                file_text,
            )
        } else {
            candidates_for(
                es.drop_last(),
                cs,
                importer,
                replace_range,
                query,
                importer_path,
                taken,
                has_imports,
                last_import_end,
                file_text,
            )
        }
    }
}

/// The automatic imports offered in a file for a name: for each export of
/// another file whose name starts with or holds the name, ignoring ASCII
/// case, an import planned as `plan_name_import` does; ordered and without
/// repeats as `order_auto_import_candidates` does.
pub fn auto_import_candidates_for_name_at(
    file_id: FileId,
    name: &str,
    replace_range: TextRange,
    importer_path: &str,
    exports: &[ExportedSymbol],
    taken_aliases: &[String],
    has_imports: bool,
    last_import_end: Option<u32>,
    file_text: &str,
) -> (r: Vec<AutoImportCandidate>)
    ensures
        exists|cs: Seq<AutoImportCandidate>|
            candidates_for(
                exports@,
                cs,
                file_id,
                replace_range,
                ascii_lower(name@),
                importer_path@,
                taken_aliases@,
                has_imports,
                last_import_end,
                file_text@,
            ) && candidate_views(r@) == distinct_candidates(sorted_candidates(candidate_views(cs))) && forall|i: int|
                0 <= i < r@.len() ==> cs.contains(#[trigger] r@[i]),
        forall|i: int| 0 <= i < r@.len() ==> (#[trigger] r@[i]).replace_range == replace_range && r@[i].file_id == file_id,
{
    let query = crate::text::to_ascii_lowercase(name);
    let ghost q = query@;
    let mut cands: Vec<AutoImportCandidate> = Vec::new();
    let mut i: usize = 0;
    while i < exports.len()
        invariant
            0 <= i <= exports.len(),
            q == ascii_lower(name@),
            q == query@,
            forall|j: int| 0 <= j < cands@.len() ==> (#[trigger] cands@[j]).replace_range == replace_range && cands@[j].file_id == file_id,
            candidates_for(
                exports@.take(i as int),
                cands@,
                file_id,
                replace_range,
                q,
                importer_path@,
                taken_aliases@,
                has_imports,
                last_import_end,
                file_text@,
            ),
        decreases exports.len() - i,
    {
        proof {
            assert(exports@.take(i + 1).drop_last() =~= exports@.take(i as int));
            assert(exports@.take(i + 1).last() == exports@[i as int]);
        }
        let e = &exports[i];
        let mut planned: Option<AutoImportCandidate> = None;
        if let (Some(exported), Some(symbol), Some(provider)) = (&e.exported_name, e.symbol, &e.provider_path) {
            if e.file_id.0 != file_id.0 && export_name_matches(exported.as_str(), query.as_str()) {
                let existing = match &e.existing_alias {
                    Some(a) => Some(a.as_str()),
                    None => None,
                };
                let plan = plan_name_import(
                    importer_path,
                    provider.as_str(),
                    exported.as_str(),
                    existing,
                    taken_aliases,
                    has_imports,
                    last_import_end,
                    file_text,
                );
                if let Some(plan) = plan {
                    planned = Some(
                        AutoImportCandidate {
                            file_id,
                            provider_file_id: e.file_id,
                            provider_path: provider.clone(),
                            symbol,
                            name: exported.clone(),
                            kind: e.kind,
                            annotation: match &e.annotation {
                                Some(t) => Some(clone_type(t)),
                                None => None,
                            },
                            docs: match &e.docs {
                                Some(d) => Some(d.clone()),
                                None => None,
                            },
                            replace_range,
                            plan,
                        },
                    );
                }
            }
        }
        if let Some(c) = planned {
            let ghost before = cands@;
            cands.push(c);
            proof {
                assert(cands@.drop_last() =~= before);
            }
        }
        i += 1;
    }
    assert(exports@.take(i as int) =~= exports@);
    let ghost cs = cands@;
    let r = order_auto_import_candidates(cands);
    assert(candidates_for(
        exports@,
        cs,
        file_id,
        replace_range,
        ascii_lower(name@),
        importer_path@,
        taken_aliases@,
        has_imports,
        last_import_end,
        file_text@,
    ));
    r
}

/// Whether `cs` are, in order, the candidates for the exports through a
/// module path's alias: one for each eligible export whose file a module
/// name leads to, when the alias is not demanded or the module's own alias
/// is the asked-for one, planned as `module_path_plan_ok` states.
pub open spec fn path_candidates_for(
    es: Seq<ExportedSymbol>,
    cs: Seq<AutoImportCandidate>,
    importer: FileId,
    replace_range: TextRange,
    query: Seq<char>,
    alias: Seq<char>,
    restrict: bool,
    importer_path: Seq<char>,
    has_imports: bool,
    last_import_end: Option<u32>,
    file_text: Seq<char>,
) -> bool
    decreases es.len(),
{
    if es.len() == 0 {
        cs.len() == 0
    } else {
        let e = es.last();
        let m = crate::paths::auto_import_module(importer_path, e.provider_path->0@);
        if export_eligible(e, importer, query) && m is Some && (!restrict || import_alias(m->0) == alias) {
            &&& cs.len() > 0
            &&& cs.last().provider_file_id == e.file_id
            &&& cs.last().symbol == e.symbol->0
            &&& cs.last().name@ == e.exported_name->0@
            &&& carries_export(cs.last(), e, importer, replace_range)
            &&& module_path_plan_ok(
                alias,
                restrict,
                importer_path,
                e.provider_path->0@,
                e.exported_name->0@,
                has_imports,
                last_import_end,
                file_text,
                Some(cs.last().plan),
            )
            &&& path_candidates_for(
                es.drop_last(),
                cs.drop_last(),
                importer,
                replace_range,
                query,
                alias,
                restrict,
                importer_path,
                has_imports,
                last_import_end,
                file_text,
            )
        } else {
            path_candidates_for(
                es.drop_last(),
                cs,
                importer,
                replace_range,
                query,
                alias,
                restrict,
                importer_path,
                has_imports,
                last_import_end,
                file_text,
            )
        }
    }
}

/// The automatic imports offered in a file for a qualified name
/// `segment::member`: none unless the module path is one segment that no
/// import of the file already uses as its alias; otherwise, for each export
/// of another file whose name starts with or holds the member name, ignoring
/// ASCII case, a new import under that segment planned as
/// `plan_module_path_import` does; ordered and without repeats as
/// `order_auto_import_candidates` does.
pub fn auto_import_candidates_for_module_path_at(
    file_id: FileId,
    path_segments: &[String],
    member_name: &str,
    replace_range: TextRange,
    importer_path: &str,
    exports: &[ExportedSymbol],
    taken_aliases: &[String],
    has_imports: bool,
    last_import_end: Option<u32>,
    file_text: &str,
) -> (r: Vec<AutoImportCandidate>)
    ensures
        match module_path_alias_spec(crate::workspace::string_views(path_segments@), alias_set(taken_aliases@)) {
            None => r@.len() == 0,
            Some((alias, restrict)) => exists|cs: Seq<AutoImportCandidate>|
                #![trigger candidate_views(cs)]
                path_candidates_for(
                    exports@,
                    cs,
                    file_id,
                    replace_range,
                    ascii_lower(member_name@),
                    alias,
                    restrict,
                    importer_path@,
                    has_imports,
                    last_import_end,
                    file_text@,
                ) && candidate_views(r@) == distinct_candidates(sorted_candidates(candidate_views(cs))) && forall|i: int|
                    0 <= i < r@.len() ==> cs.contains(#[trigger] r@[i]),
        },
        forall|i: int| 0 <= i < r@.len() ==> (#[trigger] r@[i]).replace_range == replace_range && r@[i].file_id == file_id,
{
    let (alias, restrict) = match module_path_alias(path_segments, taken_aliases) {
        Some(p) => p,
        None => return Vec::new(),
    };
    assert(module_path_alias_spec(crate::workspace::string_views(path_segments@), alias_set(taken_aliases@)) == Some(
        (alias@, restrict),
    ));
    let query = crate::text::to_ascii_lowercase(member_name);
    let ghost q = query@;
    let mut cands: Vec<AutoImportCandidate> = Vec::new();
    let mut i: usize = 0;
    while i < exports.len()
        invariant
            0 <= i <= exports.len(),
            q == ascii_lower(member_name@),
            q == query@,
            forall|j: int| 0 <= j < cands@.len() ==> (#[trigger] cands@[j]).replace_range == replace_range && cands@[j].file_id == file_id,
            path_candidates_for(
                exports@.take(i as int),
                cands@,
                file_id,
                replace_range,
                q,
                alias@,
                restrict,
                importer_path@,
                has_imports,
                last_import_end,
                file_text@,
            ),
        decreases exports.len() - i,
    {
        proof {
            assert(exports@.take(i + 1).drop_last() =~= exports@.take(i as int));
            assert(exports@.take(i + 1).last() == exports@[i as int]);
        }
        let e = &exports[i];
        let mut planned: Option<AutoImportCandidate> = None;
        if let (Some(exported), Some(symbol), Some(provider)) = (&e.exported_name, e.symbol, &e.provider_path) {
            if e.file_id.0 != file_id.0 && export_name_matches(exported.as_str(), query.as_str()) {
                let plan = plan_module_path_import(
                    alias.as_str(),
                    restrict,
                    importer_path,
                    provider.as_str(),
                    exported.as_str(),
                    has_imports,
                    last_import_end,
                    file_text,
                );
                if let Some(plan) = plan {
                    planned = Some(
                        AutoImportCandidate {
                            file_id,
                            provider_file_id: e.file_id,
                            provider_path: provider.clone(),
                            symbol,
                            name: exported.clone(),
                            kind: e.kind,
                            annotation: match &e.annotation {
                                Some(t) => Some(clone_type(t)),
                                None => None,
                            },
                            docs: match &e.docs {
                                Some(d) => Some(d.clone()),
                                None => None,
                            },
                            replace_range,
                            plan,
                        },
                    );
                }
            }
        }
        if let Some(c) = planned {
            let ghost before = cands@;
            cands.push(c);
            proof {
                assert(cands@.drop_last() =~= before);
            }
        }
        i += 1;
    }
    assert(exports@.take(i as int) =~= exports@);
    let ghost cs = cands@;
    let r = order_auto_import_candidates(cands);
    assert(path_candidates_for(
        exports@,
        cs,
        file_id,
        replace_range,
        ascii_lower(member_name@),
        alias@,
        restrict,
        importer_path@,
        has_imports,
        last_import_end,
        file_text@,
    ) && candidate_views(r@) == distinct_candidates(sorted_candidates(candidate_views(cs))));
    r
}

/// Whether no candidate comes before one listed ahead of it.
pub open spec fn candidates_ordered(
    s: Seq<(u8, Seq<char>, u32, u32, Seq<char>, Seq<char>, Seq<char>, u32, Seq<char>)>,
) -> bool {
    forall|i: int, j: int| 0 <= i < j < s.len() ==> !candidate_lt(#[trigger] s[j], #[trigger] s[i])
}

proof fn lemma_candidate_lt_order(
    a: (u8, Seq<char>, u32, u32, Seq<char>, Seq<char>, Seq<char>, u32, Seq<char>),
    b: (u8, Seq<char>, u32, u32, Seq<char>, Seq<char>, Seq<char>, u32, Seq<char>),
    c: (u8, Seq<char>, u32, u32, Seq<char>, Seq<char>, Seq<char>, u32, Seq<char>),
)
    ensures
        candidate_lt(a, b) ==> !candidate_lt(b, a),
        !candidate_lt(a, b) && !candidate_lt(b, c) ==> !candidate_lt(a, c),
{
    crate::text::lemma_chars_lt_asymmetric(a.1, b.1);
    crate::text::lemma_chars_lt_asymmetric(b.1, c.1);
    crate::text::lemma_chars_lt_asymmetric(a.1, c.1);
    crate::text::lemma_chars_lt_irreflexive(a.1);
    crate::text::lemma_chars_lt_irreflexive(b.1);
    crate::text::lemma_chars_lt_total(a.1, b.1);
    crate::text::lemma_chars_lt_total(b.1, c.1);
    crate::text::lemma_chars_lt_total(a.1, c.1);
    if chars_lt(c.1, b.1) && chars_lt(b.1, a.1) {
        crate::text::lemma_chars_lt_transitive(c.1, b.1, a.1);
    }
}

proof fn lemma_insert_candidate_ordered(
    s: Seq<(u8, Seq<char>, u32, u32, Seq<char>, Seq<char>, Seq<char>, u32, Seq<char>)>,
    x: (u8, Seq<char>, u32, u32, Seq<char>, Seq<char>, Seq<char>, u32, Seq<char>),
)
    requires
        candidates_ordered(s),
    ensures
        candidates_ordered(insert_candidate(s, x)),
        forall|y| #[trigger] insert_candidate(s, x).contains(y) ==> s.contains(y) || y == x,
    decreases s.len(),
{
    let r = insert_candidate(s, x);
    if s.len() > 0 && candidate_lt(x, s.last()) {
        let t = s.drop_last();
        let l = s.last();
        assert(candidates_ordered(t)) by {
            assert forall|i: int, j: int| 0 <= i < j < t.len() implies !candidate_lt(#[trigger] t[j], #[trigger] t[i]) by {
                assert(t[i] == s[i] && t[j] == s[j]);
            }
        }
        lemma_insert_candidate_ordered(t, x);
        let u = insert_candidate(t, x);
        assert forall|i: int, j: int| 0 <= i < j < r.len() implies !candidate_lt(#[trigger] r[j], #[trigger] r[i]) by {
            if j == r.len() - 1 {
                assert(r[j] == l);
                assert(r[i] == u[i]);
                assert(u.contains(u[i]));
                if u[i] == x {
                    lemma_candidate_lt_order(x, l, x);
                } else {
                    let k = choose|k: int| 0 <= k < t.len() && t[k] == u[i];
                    assert(s[k] == t[k]);
                    assert(!candidate_lt(s[s.len() - 1], s[k]));
                }
            } else {
                assert(r[i] == u[i] && r[j] == u[j]);
            }
        }
        assert forall|y| #[trigger] r.contains(y) implies s.contains(y) || y == x by {
            let k = choose|k: int| 0 <= k < r.len() && r[k] == y;
            if k == r.len() - 1 {
                assert(s[s.len() - 1] == y);
            } else {
                assert(u[k] == y);
                assert(u.contains(y));
                if y != x {
                    let m = choose|m: int| 0 <= m < t.len() && t[m] == y;
                    assert(s[m] == y);
                }
            }
        }
    } else {
        assert forall|i: int, j: int| 0 <= i < j < r.len() implies !candidate_lt(#[trigger] r[j], #[trigger] r[i]) by {
            if j == r.len() - 1 {
                assert(r[j] == x);
                assert(r[i] == s[i]);
                if i < s.len() - 1 {
                    assert(!candidate_lt(s[s.len() - 1], s[i]));
                    lemma_candidate_lt_order(x, s[s.len() - 1], s[i]);
                }
            } else {
                assert(r[i] == s[i] && r[j] == s[j]);
            }
        }
        assert forall|y| #[trigger] r.contains(y) implies s.contains(y) || y == x by {
            let k = choose|k: int| 0 <= k < r.len() && r[k] == y;
            if k < s.len() {
                assert(s[k] == y);
            }
        }
    }
}

proof fn lemma_sorted_candidates_ordered(
    s: Seq<(u8, Seq<char>, u32, u32, Seq<char>, Seq<char>, Seq<char>, u32, Seq<char>)>,
)
    ensures
        candidates_ordered(sorted_candidates(s)),
    decreases s.len(),
{
    if s.len() > 0 {
        let t = s.drop_last();
        lemma_sorted_candidates_ordered(t);
        lemma_insert_candidate_ordered(sorted_candidates(t), s.last());
    }
}

proof fn lemma_distinct_candidates_ordered(
    s: Seq<(u8, Seq<char>, u32, u32, Seq<char>, Seq<char>, Seq<char>, u32, Seq<char>)>,
)
    requires
        candidates_ordered(s),
    ensures
        candidates_ordered(distinct_candidates(s)),
        forall|y| #[trigger] distinct_candidates(s).contains(y) ==> s.contains(y),
    decreases s.len(),
{
    if s.len() > 0 {
        let t = s.drop_last();
        let l = s.last();
        assert(candidates_ordered(t)) by {
            assert forall|i: int, j: int| 0 <= i < j < t.len() implies !candidate_lt(#[trigger] t[j], #[trigger] t[i]) by {
                assert(t[i] == s[i] && t[j] == s[j]);
            }
        }
        lemma_distinct_candidates_ordered(t);
        let d = distinct_candidates(t);
        let r = distinct_candidates(s);
        assert forall|i: int, j: int| 0 <= i < j < r.len() implies !candidate_lt(#[trigger] r[j], #[trigger] r[i]) by {
            if r.len() > d.len() && j == r.len() - 1 {
                assert(r[j] == l);
                assert(r[i] == d[i]);
                assert(d.contains(d[i]));
                let k = choose|k: int| 0 <= k < t.len() && t[k] == d[i];
                assert(s[k] == t[k]);
                assert(!candidate_lt(s[s.len() - 1], s[k]));
            } else {
                assert(r[i] == d[i] && r[j] == d[j]);
            }
        }
        assert forall|y| #[trigger] r.contains(y) implies s.contains(y) by {
            let k = choose|k: int| 0 <= k < r.len() && r[k] == y;
            if k < d.len() {
                assert(d[k] == y);
                assert(d.contains(y));
                let m = choose|m: int| 0 <= m < t.len() && t[m] == y;
                assert(s[m] == y);
            } else {
                assert(s[s.len() - 1] == y);
            }
        }
    }
}

/// Whether a candidate was planned for one of the eligible exports.
pub open spec fn drawn_from_export(
    es: Seq<ExportedSymbol>,
    c: AutoImportCandidate,
    importer: FileId,
    replace_range: TextRange,
    query: Seq<char>,
    importer_path: Seq<char>,
    taken: Seq<String>,
    has_imports: bool,
    last_import_end: Option<u32>,
    file_text: Seq<char>,
) -> bool {
    exists|i: int|
        0 <= i < es.len() && export_eligible(es[i], importer, query) && #[trigger] candidate_for(
            es[i],
            c,
            importer,
            replace_range,
            importer_path,
            taken,
            has_imports,
            last_import_end,
            file_text,
        )
}

proof fn lemma_candidates_for_each(
    es: Seq<ExportedSymbol>,
    cs: Seq<AutoImportCandidate>,
    importer: FileId,
    replace_range: TextRange,
    query: Seq<char>,
    importer_path: Seq<char>,
    taken: Seq<String>,
    has_imports: bool,
    last_import_end: Option<u32>,
    file_text: Seq<char>,
)
    requires
        candidates_for(es, cs, importer, replace_range, query, importer_path, taken, has_imports, last_import_end, file_text),
    ensures
        forall|j: int|
            0 <= j < cs.len() ==> #[trigger] drawn_from_export(
                es,
                cs[j],
                importer,
                replace_range,
                query,
                importer_path,
                taken,
                has_imports,
                last_import_end,
                file_text,
            ),
    decreases es.len(),
{
    if es.len() > 0 {
        let e = es.last();
        let t = es.drop_last();
        if export_eligible(e, importer, query) && crate::paths::auto_import_module(importer_path, e.provider_path->0@) is Some {
            let ds = cs.drop_last();
            lemma_candidates_for_each(t, ds, importer, replace_range, query, importer_path, taken, has_imports, last_import_end, file_text);
            assert forall|j: int| 0 <= j < cs.len() implies #[trigger] drawn_from_export(
                es,
                cs[j],
                importer,
                replace_range,
                query,
                importer_path,
                taken,
                has_imports,
                last_import_end,
                file_text,
            ) by {
                if j == cs.len() - 1 {
                    assert(es[es.len() - 1] == e);
                    assert(candidate_for(es[es.len() - 1], cs[j], importer, replace_range, importer_path, taken, has_imports, last_import_end, file_text));
                } else {
                    assert(cs[j] == ds[j]);
                    assert(drawn_from_export(t, ds[j], importer, replace_range, query, importer_path, taken, has_imports, last_import_end, file_text));
                    let i = choose|i: int| 0 <= i < t.len() && export_eligible(t[i], importer, query) && #[trigger] candidate_for(
                        t[i],
                        ds[j],
                        importer,
                        replace_range,
                        importer_path,
                        taken,
                        has_imports,
                        last_import_end,
                        file_text,
                    );
                    assert(es[i] == t[i]);
                }
            }
        } else {
            lemma_candidates_for_each(t, cs, importer, replace_range, query, importer_path, taken, has_imports, last_import_end, file_text);
            assert forall|j: int| 0 <= j < cs.len() implies #[trigger] drawn_from_export(
                es,
                cs[j],
                importer,
                replace_range,
                query,
                importer_path,
                taken,
                has_imports,
                last_import_end,
                file_text,
            ) by {
                assert(drawn_from_export(t, cs[j], importer, replace_range, query, importer_path, taken, has_imports, last_import_end, file_text));
                let i = choose|i: int| 0 <= i < t.len() && export_eligible(t[i], importer, query) && #[trigger] candidate_for(
                    t[i],
                    cs[j],
                    importer,
                    replace_range,
                    importer_path,
                    taken,
                    has_imports,
                    last_import_end,
                    file_text,
                );
                assert(es[i] == t[i]);
            }
        }
    }
}

/// Each candidate offered for a name (a list `r` as
/// `auto_import_candidates_for_name_at` returns it for the lower-cased query)
/// imports an export of another file whose lower-cased name the query starts
/// or occurs in, under the requested range, with `alias::name` as its
/// qualified text; and the candidates come cheapest first, then by module
/// name, provider and symbol.
pub proof fn law_name_candidates_are_from_other_files_and_ordered(
    es: Seq<ExportedSymbol>,
    r: Seq<AutoImportCandidate>,
    importer: FileId,
    replace_range: TextRange,
    query: Seq<char>,
    importer_path: Seq<char>,
    taken: Seq<String>,
    has_imports: bool,
    last_import_end: Option<u32>,
    file_text: Seq<char>,
)
    requires
        exists|cs: Seq<AutoImportCandidate>|
            candidates_for(es, cs, importer, replace_range, query, importer_path, taken, has_imports, last_import_end, file_text)
                && candidate_views(r) == distinct_candidates(sorted_candidates(candidate_views(cs))) && forall|i: int|
                0 <= i < r.len() ==> cs.contains(#[trigger] r[i]),
    ensures
        forall|j: int|
            0 <= j < r.len() ==> {
                &&& (#[trigger] r[j]).provider_file_id != importer
                &&& r[j].file_id == importer
                &&& r[j].replace_range == replace_range
                &&& export_offered(r[j].name@, query)
                &&& r[j].plan.qualified_reference_text@ == r[j].plan.alias@ + "::"@ + r[j].name@
            },
        candidates_ordered(candidate_views(r)),
{
    let cs = choose|cs: Seq<AutoImportCandidate>|
        candidates_for(es, cs, importer, replace_range, query, importer_path, taken, has_imports, last_import_end, file_text)
            && candidate_views(r) == distinct_candidates(sorted_candidates(candidate_views(cs))) && forall|i: int|
            0 <= i < r.len() ==> cs.contains(#[trigger] r[i]);
    lemma_candidates_for_each(es, cs, importer, replace_range, query, importer_path, taken, has_imports, last_import_end, file_text);
    assert forall|j: int| 0 <= j < r.len() implies {
        &&& (#[trigger] r[j]).provider_file_id != importer
        &&& r[j].file_id == importer
        &&& r[j].replace_range == replace_range
        &&& export_offered(r[j].name@, query)
        &&& r[j].plan.qualified_reference_text@ == r[j].plan.alias@ + "::"@ + r[j].name@
    } by {
        assert(cs.contains(r[j]));
        let k = choose|k: int| 0 <= k < cs.len() && cs[k] == r[j];
        assert(drawn_from_export(es, cs[k], importer, replace_range, query, importer_path, taken, has_imports, last_import_end, file_text));
        let i = choose|i: int| 0 <= i < es.len() && export_eligible(es[i], importer, query) && #[trigger] candidate_for(
            es[i],
            cs[k],
            importer,
            replace_range,
            importer_path,
            taken,
            has_imports,
            last_import_end,
            file_text,
        );
    }
    let v = candidate_views(cs);
    lemma_sorted_candidates_ordered(v);
    lemma_distinct_candidates_ordered(sorted_candidates(v));
}

} // verus!
