//! Project diagnostics: how syntax and semantic diagnostics of a file are
//! reported to the editor, in which order, and without repeats.

use vstd::prelude::*;

use crate::directives::FileCommentDirectives;
use crate::generics::{contains_name, name_views};
use crate::paths::path_is_absolute;
use crate::text::{
    chars_lt, lemma_chars_lt_asymmetric, lemma_chars_lt_irreflexive, lemma_chars_lt_total, lemma_chars_lt_transitive,
    looks_path_like_text, static_import_module_name,
};
use crate::workspace::{diagnostic_kind_rank, project_diagnostic_kind_rank, FileId, ProjectDiagnosticKind, TextRange};

verus! {

/// How severe a reported diagnostic is.
#[derive(Clone, Copy, PartialEq, Eq, Debug)]
pub enum ProjectDiagnosticSeverity {
    Error,
    Warning,
}

/// A tag that changes how the editor shows a diagnostic.
#[derive(Clone, Copy, PartialEq, Eq, Debug)]
pub enum ProjectDiagnosticTag {
    Unnecessary,
}

/// What a reported diagnostic is. Syntax and semantic codes are carried by
/// the name the parser and the resolver give them.
#[derive(Debug)]
pub enum ProjectDiagnosticCode {
    Syntax(String),
    Semantic(String),
    BrokenLinkedImport,
    AmbiguousLinkedImport,
    UnresolvedImportMember,
    CallerScopeRequired,
}

/// A diagnostic as it is reported for a file of the project.
#[derive(Debug)]
pub struct ProjectDiagnostic {
    pub kind: ProjectDiagnosticKind,
    pub code: ProjectDiagnosticCode,
    pub severity: ProjectDiagnosticSeverity,
    pub range: TextRange,
    pub message: String,
    pub related_range: Option<TextRange>,
    pub tags: Vec<ProjectDiagnosticTag>,
}

/// A diagnostic of the parser.
pub struct SyntaxDiagnostic {
    pub code: String,
    pub range: TextRange,
    pub message: String,
}

/// The kinds of semantic diagnostic that reporting tells apart.
#[derive(Clone, Copy, PartialEq, Eq, Debug)]
pub enum SemanticDiagnosticKind {
    UnresolvedName,
    UnresolvedImport,
    UnusedSymbol,
    Other,
}

/// The model of a diagnostic code.
pub enum CodeView {
    Syntax(Seq<char>),
    Semantic(Seq<char>),
    BrokenLinkedImport,
    AmbiguousLinkedImport,
    UnresolvedImportMember,
    CallerScopeRequired,
}

/// The model of a reported diagnostic.
pub struct DiagnosticView {
    pub kind: ProjectDiagnosticKind,
    pub code: CodeView,
    pub severity: ProjectDiagnosticSeverity,
    pub range: TextRange,
    pub message: Seq<char>,
    pub related_range: Option<TextRange>,
    pub tags: Seq<ProjectDiagnosticTag>,
}

/// The model of a diagnostic code.
pub open spec fn code_view(c: ProjectDiagnosticCode) -> CodeView {
    match c {
        ProjectDiagnosticCode::Syntax(s) => CodeView::Syntax(s@),
        ProjectDiagnosticCode::Semantic(s) => CodeView::Semantic(s@),
        ProjectDiagnosticCode::BrokenLinkedImport => CodeView::BrokenLinkedImport,
        ProjectDiagnosticCode::AmbiguousLinkedImport => CodeView::AmbiguousLinkedImport,
        ProjectDiagnosticCode::UnresolvedImportMember => CodeView::UnresolvedImportMember,
        ProjectDiagnosticCode::CallerScopeRequired => CodeView::CallerScopeRequired,
    }
}

/// The model of a reported diagnostic.
pub open spec fn diagnostic_view(d: ProjectDiagnostic) -> DiagnosticView {
    DiagnosticView {
        kind: d.kind,
        code: code_view(d.code),
        severity: d.severity,
        range: d.range,
        message: d.message@,
        related_range: d.related_range,
        tags: d.tags@,
    }
}

/// The models of reported diagnostics.
pub open spec fn diagnostic_views(ds: Seq<ProjectDiagnostic>) -> Seq<DiagnosticView> {
    Seq::new(ds.len(), |i: int| diagnostic_view(ds[i]))
}

/// The order of reported diagnostics: by where they start, then by kind,
/// then by message.
pub open spec fn diagnostic_lt(a: DiagnosticView, b: DiagnosticView) -> bool {
    ||| a.range.start < b.range.start
    ||| a.range.start == b.range.start && diagnostic_kind_rank(a.kind) < diagnostic_kind_rank(b.kind)
    ||| a.range.start == b.range.start && diagnostic_kind_rank(a.kind) == diagnostic_kind_rank(b.kind)
        && chars_lt(a.message, b.message)
}

/// Whether two diagnostics repeat each other: same kind, code, range,
/// related range and message; severity and tags are not compared.
pub open spec fn repeats(a: DiagnosticView, b: DiagnosticView) -> bool {
    a.kind == b.kind && a.code == b.code && a.range == b.range && a.related_range == b.related_range && a.message
        == b.message
}

/// Inserts `x` after every diagnostic that does not come after it.
pub open spec fn insert_diagnostic(s: Seq<DiagnosticView>, x: DiagnosticView) -> Seq<DiagnosticView>
    decreases s.len(),
{
    if s.len() > 0 && diagnostic_lt(x, s.last()) {
        insert_diagnostic(s.drop_last(), x).push(s.last())
    } else {
        s.push(x)
    }
}

/// The stable sort of diagnostics by `diagnostic_lt`.
pub open spec fn sorted_diagnostics(s: Seq<DiagnosticView>) -> Seq<DiagnosticView>
    decreases s.len(),
{
    if s.len() == 0 {
        s
    } else {
        insert_diagnostic(sorted_diagnostics(s.drop_last()), s.last())
    }
}

/// `s` without each diagnostic that repeats the one kept just before it.
pub open spec fn without_repeats(s: Seq<DiagnosticView>) -> Seq<DiagnosticView>
    decreases s.len(),
{
    if s.len() == 0 {
        s
    } else {
        let d = without_repeats(s.drop_last());
        if d.len() > 0 && repeats(s.last(), d.last()) {
            d
        } else {
            d.push(s.last())
        }
    }
}

/// The severity of a semantic diagnostic: a warning for an unused symbol,
/// else an error.
pub open spec fn severity_of(kind: SemanticDiagnosticKind) -> ProjectDiagnosticSeverity {
    if kind == SemanticDiagnosticKind::UnusedSymbol {
        ProjectDiagnosticSeverity::Warning
    } else {
        ProjectDiagnosticSeverity::Error
    }
}

/// The tags of a semantic diagnostic: an unused symbol is unnecessary.
pub open spec fn tags_of(kind: SemanticDiagnosticKind) -> Seq<ProjectDiagnosticTag> {
    if kind == SemanticDiagnosticKind::UnusedSymbol {
        seq![ProjectDiagnosticTag::Unnecessary]
    } else {
        Seq::empty()
    }
}

/// The severity of a semantic diagnostic, as `severity_of` states.
pub fn semantic_diagnostic_severity(kind: SemanticDiagnosticKind) -> (r: ProjectDiagnosticSeverity)
    ensures
        r == severity_of(kind),
{
    match kind {
        SemanticDiagnosticKind::UnusedSymbol => ProjectDiagnosticSeverity::Warning,
        _ => ProjectDiagnosticSeverity::Error,
    }
}

/// The tags of a semantic diagnostic, as `tags_of` states.
pub fn semantic_diagnostic_tags(kind: SemanticDiagnosticKind) -> (r: Vec<ProjectDiagnosticTag>)
    ensures
        r@ == tags_of(kind),
{
    let mut tags: Vec<ProjectDiagnosticTag> = Vec::new();
    if let SemanticDiagnosticKind::UnusedSymbol = kind {
        tags.push(ProjectDiagnosticTag::Unnecessary);
    }
    assert(tags@ =~= tags_of(kind));
    tags
}

/// Whether `a` comes before `b`, as `diagnostic_lt` states.
fn diagnostic_less(a: &ProjectDiagnostic, b: &ProjectDiagnostic) -> (r: bool)
    ensures
        r == diagnostic_lt(diagnostic_view(*a), diagnostic_view(*b)),
{
    if a.range.start != b.range.start {
        return a.range.start < b.range.start;
    }
    let ra = project_diagnostic_kind_rank(a.kind);
    let rb = project_diagnostic_kind_rank(b.kind);
    if ra != rb {
        return ra < rb;
    }
    crate::text::str_less(a.message.as_str(), b.message.as_str())
}

fn same_code(a: &ProjectDiagnosticCode, b: &ProjectDiagnosticCode) -> (r: bool)
    ensures
        r == (code_view(*a) == code_view(*b)),
{
    match (a, b) {
        (ProjectDiagnosticCode::Syntax(x), ProjectDiagnosticCode::Syntax(y)) => crate::generics::str_eq(
            x.as_str(),
            y.as_str(),
        ),
        (ProjectDiagnosticCode::Semantic(x), ProjectDiagnosticCode::Semantic(y)) => crate::generics::str_eq(
            x.as_str(),
            y.as_str(),
        ),
        (ProjectDiagnosticCode::BrokenLinkedImport, ProjectDiagnosticCode::BrokenLinkedImport) => true,
        (ProjectDiagnosticCode::AmbiguousLinkedImport, ProjectDiagnosticCode::AmbiguousLinkedImport) => true,
        (ProjectDiagnosticCode::UnresolvedImportMember, ProjectDiagnosticCode::UnresolvedImportMember) => true,
        (ProjectDiagnosticCode::CallerScopeRequired, ProjectDiagnosticCode::CallerScopeRequired) => true,
        _ => false,
    }
}

fn same_kind(a: ProjectDiagnosticKind, b: ProjectDiagnosticKind) -> (r: bool)
    ensures
        r == (a == b),
{
    project_diagnostic_kind_rank(a) == project_diagnostic_kind_rank(b)
}

fn same_range(a: Option<TextRange>, b: Option<TextRange>) -> (r: bool)
    ensures
        r == (a == b),
{
    match (a, b) {
        (Some(x), Some(y)) => x.start == y.start && x.end == y.end,
        (None, None) => true,
        _ => false,
    }
}

/// Whether `a` repeats `b`, as `repeats` states.
fn repeats_diagnostic(a: &ProjectDiagnostic, b: &ProjectDiagnostic) -> (r: bool)
    ensures
        r == repeats(diagnostic_view(*a), diagnostic_view(*b)),
{
    same_kind(a.kind, b.kind) && same_code(&a.code, &b.code) && a.range.start == b.range.start && a.range.end
        == b.range.end && same_range(a.related_range, b.related_range) && crate::generics::str_eq(
        a.message.as_str(),
        b.message.as_str(),
    )
}

proof fn lemma_insert_diagnostic_at(s: Seq<DiagnosticView>, x: DiagnosticView, p: int)
    requires
        0 <= p <= s.len(),
        forall|j: int| p <= j < s.len() ==> diagnostic_lt(x, #[trigger] s[j]),
        p == 0 || !diagnostic_lt(x, s[p - 1]),
    ensures
        insert_diagnostic(s, x) == s.insert(p, x),
    decreases s.len(),
{
    if p < s.len() {
        assert(diagnostic_lt(x, s[s.len() - 1]));
        let t = s.drop_last();
        assert(p == 0 || !diagnostic_lt(x, t[p - 1]));
        lemma_insert_diagnostic_at(t, x, p);
        assert(insert_diagnostic(s, x) =~= s.insert(p, x));
    } else {
        assert(insert_diagnostic(s, x) =~= s.insert(p, x));
    }
}

fn insert_sorted_diagnostic(sorted: &mut Vec<ProjectDiagnostic>, x: ProjectDiagnostic)
    ensures
        diagnostic_views(final(sorted)@) == insert_diagnostic(diagnostic_views(old(sorted)@), diagnostic_view(x)),
{
    let ghost s = diagnostic_views(sorted@);
    let mut p: usize = sorted.len();
    while p > 0 && diagnostic_less(&x, &sorted[p - 1])
        invariant
            p <= sorted.len(),
            s == diagnostic_views(sorted@),
            forall|j: int| p <= j < sorted.len() ==> diagnostic_lt(diagnostic_view(x), #[trigger] s[j]),
        decreases p,
    {
        p -= 1;
    }
    proof {
        lemma_insert_diagnostic_at(s, diagnostic_view(x), p as int);
    }
    sorted.insert(p, x);
    assert(diagnostic_views(sorted@) =~= s.insert(p as int, diagnostic_view(x)));
}

/// Orders diagnostics by where they start, then by kind, then by message,
/// keeping the order of those that tie, and drops each one that repeats the
/// one kept just before it.
pub fn order_project_diagnostics(diagnostics: Vec<ProjectDiagnostic>) -> (r: Vec<ProjectDiagnostic>)
    ensures
        diagnostic_views(r@) == without_repeats(sorted_diagnostics(diagnostic_views(diagnostics@))),
{
    let ghost input = diagnostic_views(diagnostics@);
    let mut rest = diagnostics;
    let mut sorted: Vec<ProjectDiagnostic> = Vec::new();
    let ghost mut k: int = 0;
    while rest.len() > 0
        invariant
            0 <= k <= input.len(),
            diagnostic_views(sorted@) == sorted_diagnostics(input.take(k)),
            diagnostic_views(rest@) == input.skip(k),
            k + rest.len() == input.len(),
        decreases rest.len(),
    {
        assert(diagnostic_views(rest@)[0] == input[k]);
        let ghost prev = rest@;
        let x = rest.remove(0);
        proof {
            assert(diagnostic_view(x) == input[k]);
            assert(input.take(k + 1).drop_last() =~= input.take(k));
            assert forall|i: int| 0 <= i < rest.len() implies diagnostic_views(rest@)[i] == input.skip(k + 1)[i] by {
                assert(rest@[i] == prev[i + 1]);
                assert(diagnostic_views(prev)[i + 1] == input.skip(k)[i + 1]);
            }
            assert(diagnostic_views(rest@) =~= input.skip(k + 1));
        }
        insert_sorted_diagnostic(&mut sorted, x);
        proof {
            k = k + 1;
        }
    }
    assert(input.take(k) =~= input);
    let ghost ordered = diagnostic_views(sorted@);
    let mut out: Vec<ProjectDiagnostic> = Vec::new();
    let ghost mut m: int = 0;
    while sorted.len() > 0
        invariant
            0 <= m <= ordered.len(),
            diagnostic_views(out@) == without_repeats(ordered.take(m)),
            diagnostic_views(sorted@) == ordered.skip(m),
            m + sorted.len() == ordered.len(),
        decreases sorted.len(),
    {
        assert(diagnostic_views(sorted@)[0] == ordered[m]);
        let ghost prev = sorted@;
        let x = sorted.remove(0);
        proof {
            assert(diagnostic_view(x) == ordered[m]);
            assert(ordered.take(m + 1).drop_last() =~= ordered.take(m));
            assert forall|i: int| 0 <= i < sorted.len() implies diagnostic_views(sorted@)[i] == ordered.skip(m + 1)[i] by {
                assert(sorted@[i] == prev[i + 1]);
                assert(diagnostic_views(prev)[i + 1] == ordered.skip(m)[i + 1]);
            }
            assert(diagnostic_views(sorted@) =~= ordered.skip(m + 1));
        }
        let repeat = out.len() > 0 && repeats_diagnostic(&x, &out[out.len() - 1]);
        if !repeat {
            let ghost before = diagnostic_views(out@);
            out.push(x);
            assert(diagnostic_views(out@) =~= before.push(ordered[m]));
        }
        proof {
            m = m + 1;
        }
    }
    assert(ordered.take(m) =~= ordered);
    out
}

/// The report of a parser diagnostic: a syntax error under its code, with
/// no related range and no tags.
pub open spec fn syntax_report(d: SyntaxDiagnostic) -> DiagnosticView {
    DiagnosticView {
        kind: ProjectDiagnosticKind::Syntax,
        code: CodeView::Syntax(d.code@),
        severity: ProjectDiagnosticSeverity::Error,
        range: d.range,
        message: d.message@,
        related_range: None,
        tags: Seq::empty(),
    }
}

/// The reports of parser diagnostics.
pub open spec fn syntax_reports(ds: Seq<SyntaxDiagnostic>) -> Seq<DiagnosticView> {
    Seq::new(ds.len(), |i: int| syntax_report(ds[i]))
}

/// The diagnostics of a file: its parser diagnostics as syntax errors, then
/// its projected semantic diagnostics, ordered and without repeats as
/// `order_project_diagnostics` does.
pub fn project_diagnostics(syntax: Vec<SyntaxDiagnostic>, semantic: Vec<ProjectDiagnostic>) -> (r: Vec<
    ProjectDiagnostic,
>)
    ensures
        diagnostic_views(r@) == without_repeats(
            sorted_diagnostics(syntax_reports(syntax@) + diagnostic_views(semantic@)),
        ),
{
    let ghost sv = syntax_reports(syntax@);
    let ghost n = syntax@.len();
    let mut all: Vec<ProjectDiagnostic> = Vec::new();
    let mut rest = syntax;
    let ghost mut k: int = 0;
    while rest.len() > 0
        invariant
            0 <= k <= n,
            k + rest.len() == n,
            sv.len() == n,
            diagnostic_views(all@) == sv.take(k),
            syntax_reports(rest@) == sv.skip(k),
        decreases rest.len(),
    {
        assert(syntax_reports(rest@)[0] == sv[k]);
        let ghost prev = rest@;
        let d = rest.remove(0);
        proof {
            assert forall|i: int| 0 <= i < rest.len() implies syntax_reports(rest@)[i] == sv.skip(k + 1)[i] by {
                assert(rest@[i] == prev[i + 1]);
                assert(syntax_reports(prev)[i + 1] == sv.skip(k)[i + 1]);
            }
            assert(syntax_reports(rest@) =~= sv.skip(k + 1));
        }
        let report = ProjectDiagnostic {
            kind: ProjectDiagnosticKind::Syntax,
            code: ProjectDiagnosticCode::Syntax(d.code),
            severity: ProjectDiagnosticSeverity::Error,
            range: d.range,
            message: d.message,
            related_range: None,
            tags: Vec::new(),
        };
        let ghost before = diagnostic_views(all@);
        all.push(report);
        proof {
            assert(diagnostic_view(report) == sv[k]);
            assert(diagnostic_views(all@) =~= before.push(sv[k]));
            assert(sv.take(k + 1) =~= sv.take(k).push(sv[k]));
            k = k + 1;
        }
    }
    assert(sv.take(k) =~= sv);
    let ghost before = diagnostic_views(all@);
    let mut semantic = semantic;
    let ghost sem = diagnostic_views(semantic@);
    all.append(&mut semantic);
    assert(diagnostic_views(all@) =~= before + sem);
    order_project_diagnostics(all)
}

/// A diagnostic of the resolver.
pub struct SemanticDiagnostic {
    pub kind: SemanticDiagnosticKind,
    pub code: String,
    pub range: TextRange,
    pub message: String,
    pub related_range: Option<TextRange>,
}

/// How the workspace links an import.
#[derive(Clone, Copy, PartialEq, Eq, Debug)]
pub enum ImportLink {
    Unlinked,
    Unique,
    Ambiguous,
}

/// The import that an unresolved-import diagnostic points at.
pub struct DiagnosedImport {
    pub range: TextRange,
    pub link: ImportLink,
    /// The module's name: as the link records it when the import is linked,
    /// else as the import writes it.
    pub module_name: String,
    /// Where the import's alias is used; empty when it has no alias.
    pub alias_usages: Vec<TextRange>,
}

/// A semantic diagnostic with what the database knows of it.
pub struct DiagnosticInContext {
    pub diagnostic: SemanticDiagnostic,
    /// For an unresolved name: whether a global function, an external
    /// signature or a comment directive of the file provides it.
    pub known_external: bool,
    /// For an unresolved name that its function captures from the scope of
    /// its callers: whether the function has regular call sites.
    pub caller_scope_call_sites: Option<bool>,
    /// For an unresolved import: the import it points at, if one does.
    pub import: Option<DiagnosedImport>,
}

/// The report of a semantic diagnostic as it stands.
pub open spec fn semantic_report(d: SemanticDiagnostic) -> DiagnosticView {
    DiagnosticView {
        kind: ProjectDiagnosticKind::Semantic,
        code: CodeView::Semantic(d.code@),
        severity: severity_of(d.kind),
        range: d.range,
        message: d.message@,
        related_range: d.related_range,
        tags: tags_of(d.kind),
    }
}

/// The code under which diagnostics of a linked-import kind are reported.
pub open spec fn linked_import_code(kind: ProjectDiagnosticKind) -> CodeView {
    match kind {
        ProjectDiagnosticKind::BrokenLinkedImport => CodeView::BrokenLinkedImport,
        ProjectDiagnosticKind::AmbiguousLinkedImport => CodeView::AmbiguousLinkedImport,
        _ => CodeView::Semantic("UnresolvedImportModule"@),
    }
}

/// The reports of the uses of an import's alias: one error at each use,
/// related to the import.
pub open spec fn usage_reports(
    usages: Seq<TextRange>,
    kind: ProjectDiagnosticKind,
    message: Seq<char>,
    import_range: TextRange,
) -> Seq<DiagnosticView> {
    Seq::new(
        usages.len(),
        |i: int|
            DiagnosticView {
                kind,
                code: linked_import_code(kind),
                severity: ProjectDiagnosticSeverity::Error,
                range: usages[i],
                message,
                related_range: Some(import_range),
                tags: Seq::empty(),
            },
    )
}

/// The message of an import whose module matches several exports.
pub open spec fn ambiguous_import_message(module_name: Seq<char>) -> Seq<char> {
    "ambiguous import module `"@ + module_name + "` matches multiple workspace exports"@
}

/// The message at the uses of an alias whose module matches several exports.
pub open spec fn ambiguous_alias_message(module_name: Seq<char>) -> Seq<char> {
    "import alias cannot be resolved uniquely because module `"@ + module_name
        + "` matches multiple workspace exports"@
}

/// The message at the uses of an alias whose module is gone.
pub open spec fn broken_alias_message(module_name: Seq<char>) -> Seq<char> {
    "import alias no longer resolves because module `"@ + module_name + "` is unavailable in the workspace"@
}

/// What a semantic diagnostic is reported as: an unresolved name that is
/// known externally, or that its function captures from callers without
/// regular call sites, is dropped; an unresolved import of a uniquely linked
/// module is dropped; one of an ambiguously linked module becomes an
/// ambiguity error at the diagnostic and at each use of the alias; one of an
/// unlinked module stands and marks each use of the alias as broken; any
/// other diagnostic stands as it is.
pub open spec fn reports_for(c: DiagnosticInContext) -> Seq<DiagnosticView> {
    let d = c.diagnostic;
    if d.kind == SemanticDiagnosticKind::UnresolvedName && c.known_external {
        Seq::empty()
    } else if d.kind == SemanticDiagnosticKind::UnresolvedName && c.caller_scope_call_sites is Some {
        if c.caller_scope_call_sites->0 {
            seq![semantic_report(d)]
        } else {
            Seq::empty()
        }
    } else if d.kind != SemanticDiagnosticKind::UnresolvedImport {
        seq![semantic_report(d)]
    } else {
        match c.import {
            None => seq![semantic_report(d)],
            Some(i) => match i.link {
                ImportLink::Unique => Seq::empty(),
                ImportLink::Ambiguous => seq![
                    DiagnosticView {
                        kind: ProjectDiagnosticKind::AmbiguousLinkedImport,
                        code: CodeView::AmbiguousLinkedImport,
                        severity: ProjectDiagnosticSeverity::Error,
                        range: d.range,
                        message: ambiguous_import_message(i.module_name@),
                        related_range: Some(i.range),
                        tags: Seq::empty(),
                    },
                ] + usage_reports(
                    i.alias_usages@,
                    ProjectDiagnosticKind::AmbiguousLinkedImport,
                    ambiguous_alias_message(i.module_name@),
                    i.range,
                ),
                ImportLink::Unlinked => seq![semantic_report(d)] + usage_reports(
                    i.alias_usages@,
                    ProjectDiagnosticKind::BrokenLinkedImport,
                    broken_alias_message(i.module_name@),
                    i.range,
                ),
            },
        }
    }
}

/// The reports, in order, of the given diagnostics.
pub open spec fn reports_for_all(cs: Seq<DiagnosticInContext>) -> Seq<DiagnosticView>
    decreases cs.len(),
{
    if cs.len() == 0 {
        Seq::empty()
    } else {
        reports_for_all(cs.drop_last()) + reports_for(cs.last())
    }
}

/// The report of a semantic diagnostic as it stands.
fn report_semantic(d: &SemanticDiagnostic) -> (r: ProjectDiagnostic)
    ensures
        diagnostic_view(r) == semantic_report(*d),
{
    ProjectDiagnostic {
        kind: ProjectDiagnosticKind::Semantic,
        code: ProjectDiagnosticCode::Semantic(d.code.clone()),
        severity: semantic_diagnostic_severity(d.kind),
        range: d.range,
        message: d.message.clone(),
        related_range: d.related_range,
        tags: semantic_diagnostic_tags(d.kind),
    }
}

/// Appends `prefix`, `name` and `suffix` into a new string.
fn framed(prefix: &str, name: &str, suffix: &str) -> (r: String)
    ensures
        r@ == prefix@ + name@ + suffix@,
{
    let mut s = String::new();
    s.append(prefix);
    s.append(name);
    s.append(suffix);
    s
}

/// The reports of the uses of an import's alias, as `usage_reports` states.
pub fn linked_import_usage_diagnostics(
    usages: &[TextRange],
    import_range: TextRange,
    kind: ProjectDiagnosticKind,
    message: &String,
) -> (r: Vec<ProjectDiagnostic>)
    requires
        kind != ProjectDiagnosticKind::Syntax,
    ensures
        diagnostic_views(r@) == usage_reports(usages@, kind, message@, import_range),
{
    let mut out: Vec<ProjectDiagnostic> = Vec::new();
    let mut i: usize = 0;
    while i < usages.len()
        invariant
            0 <= i <= usages.len(),
            kind != ProjectDiagnosticKind::Syntax,
            diagnostic_views(out@) == usage_reports(usages@.take(i as int), kind, message@, import_range),
        decreases usages.len() - i,
    {
        let code = match kind {
            ProjectDiagnosticKind::BrokenLinkedImport => ProjectDiagnosticCode::BrokenLinkedImport,
            ProjectDiagnosticKind::AmbiguousLinkedImport => ProjectDiagnosticCode::AmbiguousLinkedImport,
            _ => ProjectDiagnosticCode::Semantic(String::from_str("UnresolvedImportModule")),
        };
        let d = ProjectDiagnostic {
            kind,
            code,
            severity: ProjectDiagnosticSeverity::Error,
            range: usages[i],
            message: message.clone(),
            related_range: Some(import_range),
            tags: Vec::new(),
        };
        let ghost before = diagnostic_views(out@);
        assert(code_view(d.code) == linked_import_code(kind));
        assert(diagnostic_view(d) == usage_reports(usages@.take(i + 1), kind, message@, import_range)[i as int]);
        let ghost dv = diagnostic_view(d);
        out.push(d);
        assert(diagnostic_views(out@) =~= before.push(dv));
        assert forall|j: int| 0 <= j < i implies #[trigger] usage_reports(usages@.take(i + 1), kind, message@, import_range)[j]
            == before[j] by {
            assert(usages@.take(i + 1)[j] == usages@.take(i as int)[j]);
        }
        assert(diagnostic_views(out@) =~= usage_reports(usages@.take(i + 1), kind, message@, import_range));
        i += 1;
    }
    assert(usages@.take(i as int) =~= usages@);
    out
}

/// The reports of one semantic diagnostic, as `reports_for` states.
pub fn project_semantic_diagnostic(c: &DiagnosticInContext) -> (r: Vec<ProjectDiagnostic>)
    ensures
        diagnostic_views(r@) == reports_for(*c),
{
    let d = &c.diagnostic;
    let mut out: Vec<ProjectDiagnostic> = Vec::new();
    let unresolved_name = matches!(d.kind, SemanticDiagnosticKind::UnresolvedName);
    if unresolved_name && c.known_external {
        assert(diagnostic_views(out@) =~= reports_for(*c));
        return out;
    }
    if unresolved_name {
        if let Some(has_call_sites) = c.caller_scope_call_sites {
            if has_call_sites {
                out.push(report_semantic(d));
            }
            assert(diagnostic_views(out@) =~= reports_for(*c));
            return out;
        }
    }
    if !matches!(d.kind, SemanticDiagnosticKind::UnresolvedImport) {
        out.push(report_semantic(d));
        assert(diagnostic_views(out@) =~= reports_for(*c));
        return out;
    }
    let import = match &c.import {
        Some(i) => i,
        None => {
            out.push(report_semantic(d));
            assert(diagnostic_views(out@) =~= reports_for(*c));
            return out;
        },
    };
    match import.link {
        ImportLink::Unique => {
            assert(diagnostic_views(out@) =~= reports_for(*c));
        },
        ImportLink::Ambiguous => {
            let message = framed(
                "ambiguous import module `",
                import.module_name.as_str(),
                "` matches multiple workspace exports",
            );
            out.push(
                ProjectDiagnostic {
                    kind: ProjectDiagnosticKind::AmbiguousLinkedImport,
                    code: ProjectDiagnosticCode::AmbiguousLinkedImport,
                    severity: ProjectDiagnosticSeverity::Error,
                    range: d.range,
                    message,
                    related_range: Some(import.range),
                    tags: Vec::new(),
                },
            );
            let alias_message = framed(
                "import alias cannot be resolved uniquely because module `",
                import.module_name.as_str(),
                "` matches multiple workspace exports",
            );
            let ghost first = diagnostic_views(out@);
            let mut usages = linked_import_usage_diagnostics(
                import.alias_usages.as_slice(),
                import.range,
                ProjectDiagnosticKind::AmbiguousLinkedImport,
                &alias_message,
            );
            let ghost rest = diagnostic_views(usages@);
            out.append(&mut usages);
            assert(diagnostic_views(out@) =~= first + rest);
            assert(diagnostic_views(out@) =~= reports_for(*c));
        },
        ImportLink::Unlinked => {
            out.push(report_semantic(d));
            let alias_message = framed(
                "import alias no longer resolves because module `",
                import.module_name.as_str(),
                "` is unavailable in the workspace",
            );
            let ghost first = diagnostic_views(out@);
            let mut usages = linked_import_usage_diagnostics(
                import.alias_usages.as_slice(),
                import.range,
                ProjectDiagnosticKind::BrokenLinkedImport,
                &alias_message,
            );
            let ghost rest = diagnostic_views(usages@);
            out.append(&mut usages);
            assert(diagnostic_views(out@) =~= first + rest);
            assert(diagnostic_views(out@) =~= reports_for(*c));
        },
    }
    out
}

/// An import of the file, as the check for missing modules reads it.
pub struct FileImport {
    /// Whether the import names its module by a static string.
    pub static_text: bool,
    /// Whether the workspace links the import to a file.
    pub linked: bool,
    /// The source text of the module expression, if any.
    pub module_text: Option<String>,
    pub range: TextRange,
    pub module_range: Option<TextRange>,
}

/// Whether the file's comment directives declare a module external or
/// allow it to stay unresolved.
pub open spec fn directive_allows(directives: Option<&FileCommentDirectives>, m: Seq<char>) -> bool {
    match directives {
        Some(d) => name_views(d.external_modules@).contains(m) || name_views(d.allowed_unresolved_imports@).contains(
            m,
        ),
        None => false,
    }
}

/// The report of a static import whose module is missing: for an unlinked
/// import of a statically named module that no host module provides and no
/// directive allows, a broken-import error when the name looks like a path
/// and an unresolved-module error otherwise, at the module expression.
pub open spec fn missing_module_report(
    i: FileImport,
    host_modules: Seq<Seq<char>>,
    directives: Option<&FileCommentDirectives>,
) -> Option<DiagnosticView> {
    if !i.static_text || i.linked {
        None
    } else {
        match i.module_text {
            None => None,
            Some(t) => match static_import_module_name(t@) {
                None => None,
                Some(m) => if host_modules.contains(m) || directive_allows(directives, m) {
                    None
                } else {
                    let path_like = looks_path_like_text(m) || path_is_absolute(m);
                    Some(
                        DiagnosticView {
                            kind: if path_like {
                                ProjectDiagnosticKind::BrokenLinkedImport
                            } else {
                                ProjectDiagnosticKind::Semantic
                            },
                            code: if path_like {
                                CodeView::BrokenLinkedImport
                            } else {
                                CodeView::Semantic("UnresolvedImportModule"@)
                            },
                            severity: ProjectDiagnosticSeverity::Error,
                            range: match i.module_range {
                                Some(r) => r,
                                None => i.range,
                            },
                            message: if path_like {
                                "import module `"@ + m + "` does not resolve to an existing workspace file"@
                            } else {
                                "unresolved import module `"@ + m + "`"@
                            },
                            related_range: Some(i.range),
                            tags: Seq::empty(),
                        },
                    )
                },
            },
        }
    }
}

/// The reports, in order, of the imports whose modules are missing.
pub open spec fn missing_module_reports(
    imports: Seq<FileImport>,
    host_modules: Seq<Seq<char>>,
    directives: Option<&FileCommentDirectives>,
) -> Seq<DiagnosticView>
    decreases imports.len(),
{
    if imports.len() == 0 {
        Seq::empty()
    } else {
        let before = missing_module_reports(imports.drop_last(), host_modules, directives);
        match missing_module_report(imports.last(), host_modules, directives) {
            Some(r) => before.push(r),
            None => before,
        }
    }
}

fn directive_allows_module(directives: Option<&FileCommentDirectives>, m: &str) -> (r: bool)
    ensures
        r == directive_allows(directives, m@),
{
    match directives {
        Some(d) => contains_name(d.external_modules.as_slice(), m) || contains_name(
            d.allowed_unresolved_imports.as_slice(),
            m,
        ),
        None => false,
    }
}

/// The report of a static import whose module is missing, as
/// `missing_module_report` states.
fn missing_module_diagnostic(
    import: &FileImport,
    host_modules: &[String],
    directives: Option<&FileCommentDirectives>,
) -> (r: Option<ProjectDiagnostic>)
    ensures
        match missing_module_report(*import, name_views(host_modules@), directives) {
            Some(v) => r is Some && diagnostic_view(r->0) == v,
            None => r is None,
        },
{
    if !import.static_text || import.linked {
        return None;
    }
    let text = match &import.module_text {
        Some(t) => t,
        None => return None,
    };
    let m = match crate::text::parse_static_import_module_name(text.as_str()) {
        Some(m) => m,
        None => return None,
    };
    if contains_name(host_modules, m.as_str()) || directive_allows_module(directives, m.as_str()) {
        return None;
    }
    let path_like = crate::paths::module_name_looks_path_like(m.as_str());
    let range = match import.module_range {
        Some(r) => r,
        None => import.range,
    };
    if path_like {
        Some(
            ProjectDiagnostic {
                kind: ProjectDiagnosticKind::BrokenLinkedImport,
                code: ProjectDiagnosticCode::BrokenLinkedImport,
                severity: ProjectDiagnosticSeverity::Error,
                range,
                message: framed("import module `", m.as_str(), "` does not resolve to an existing workspace file"),
                related_range: Some(import.range),
                tags: Vec::new(),
            },
        )
    } else {
        Some(
            ProjectDiagnostic {
                kind: ProjectDiagnosticKind::Semantic,
                code: ProjectDiagnosticCode::Semantic(String::from_str("UnresolvedImportModule")),
                severity: ProjectDiagnosticSeverity::Error,
                range,
                message: framed("unresolved import module `", m.as_str(), "`"),
                related_range: Some(import.range),
                tags: Vec::new(),
            },
        )
    }
}

/// The reports, in order, of the file's static imports whose modules are
/// missing, as `missing_module_reports` states.
pub fn static_import_missing_module_diagnostics(
    imports: &[FileImport],
    host_modules: &[String],
    directives: Option<&FileCommentDirectives>,
) -> (r: Vec<ProjectDiagnostic>)
    ensures
        diagnostic_views(r@) == missing_module_reports(imports@, name_views(host_modules@), directives),
{
    let ghost hosts = name_views(host_modules@);
    let mut out: Vec<ProjectDiagnostic> = Vec::new();
    let mut i: usize = 0;
    while i < imports.len()
        invariant
            0 <= i <= imports.len(),
            hosts == name_views(host_modules@),
            diagnostic_views(out@) == missing_module_reports(imports@.take(i as int), hosts, directives),
        decreases imports.len() - i,
    {
        proof {
            assert(imports@.take(i + 1).drop_last() =~= imports@.take(i as int));
            assert(imports@.take(i + 1).last() == imports@[i as int]);
        }
        if let Some(d) = missing_module_diagnostic(&imports[i], host_modules, directives) {
            let ghost before = diagnostic_views(out@);
            let ghost dv = diagnostic_view(d);
            out.push(d);
            assert(diagnostic_views(out@) =~= before.push(dv));
        }
        i += 1;
    }
    assert(imports@.take(i as int) =~= imports@);
    out
}

/// The semantic diagnostics of a file as they are reported: each diagnostic
/// as `reports_for` states, then the imports whose modules are missing, then
/// the unresolved members of imported paths and the calls that miss a
/// caller-scope capture, as given.
pub fn project_semantic_diagnostics(
    diagnostics: &[DiagnosticInContext],
    imports: &[FileImport],
    host_modules: &[String],
    directives: Option<&FileCommentDirectives>,
    import_member_diagnostics: Vec<ProjectDiagnostic>,
    caller_scope_diagnostics: Vec<ProjectDiagnostic>,
) -> (r: Vec<ProjectDiagnostic>)
    ensures
        diagnostic_views(r@) == reports_for_all(diagnostics@) + missing_module_reports(
            imports@,
            name_views(host_modules@),
            directives,
        ) + diagnostic_views(import_member_diagnostics@) + diagnostic_views(caller_scope_diagnostics@),
{
    let mut out: Vec<ProjectDiagnostic> = Vec::new();
    let mut i: usize = 0;
    while i < diagnostics.len()
        invariant
            0 <= i <= diagnostics.len(),
            diagnostic_views(out@) == reports_for_all(diagnostics@.take(i as int)),
        decreases diagnostics.len() - i,
    {
        proof {
            assert(diagnostics@.take(i + 1).drop_last() =~= diagnostics@.take(i as int));
            assert(diagnostics@.take(i + 1).last() == diagnostics@[i as int]);
        }
        let ghost before = diagnostic_views(out@);
        let mut reports = project_semantic_diagnostic(&diagnostics[i]);
        let ghost added = diagnostic_views(reports@);
        out.append(&mut reports);
        assert(diagnostic_views(out@) =~= before + added);
        i += 1;
    }
    assert(diagnostics@.take(i as int) =~= diagnostics@);
    let ghost a = diagnostic_views(out@);
    let mut missing = static_import_missing_module_diagnostics(imports, host_modules, directives);
    let ghost b = diagnostic_views(missing@);
    out.append(&mut missing);
    assert(diagnostic_views(out@) =~= a + b);
    let mut members = import_member_diagnostics;
    let ghost c = diagnostic_views(members@);
    out.append(&mut members);
    assert(diagnostic_views(out@) =~= a + b + c);
    let mut callers = caller_scope_diagnostics;
    let ghost e = diagnostic_views(callers@);
    out.append(&mut callers);
    assert(diagnostic_views(out@) =~= a + b + c + e);
    out
}

proof fn lemma_diagnostic_order(a: DiagnosticView, b: DiagnosticView, c: DiagnosticView)
    ensures
        !diagnostic_lt(a, a),
        diagnostic_lt(a, b) ==> !diagnostic_lt(b, a),
        diagnostic_lt(a, c) ==> diagnostic_lt(a, b) || diagnostic_lt(b, c),
{
    lemma_chars_lt_irreflexive(a.message);
    lemma_chars_lt_asymmetric(a.message, b.message);
    lemma_chars_lt_total(a.message, b.message);
    lemma_chars_lt_total(b.message, c.message);
    if chars_lt(a.message, c.message) {
        if chars_lt(b.message, a.message) {
            lemma_chars_lt_transitive(b.message, a.message, c.message);
        }
        if chars_lt(c.message, b.message) {
            lemma_chars_lt_transitive(a.message, c.message, b.message);
        }
        lemma_chars_lt_irreflexive(c.message);
    }
}

/// Whether no diagnostic comes after a later one.
pub open spec fn diagnostics_ordered(s: Seq<DiagnosticView>) -> bool {
    forall|i: int, j: int| 0 <= i < j < s.len() ==> !diagnostic_lt(#[trigger] s[j], #[trigger] s[i])
}

proof fn lemma_insert_diagnostic_props(s: Seq<DiagnosticView>, x: DiagnosticView)
    requires
        diagnostics_ordered(s),
    ensures
        diagnostics_ordered(insert_diagnostic(s, x)),
        insert_diagnostic(s, x).to_multiset() == s.to_multiset().insert(x),
    decreases s.len(),
{
    broadcast use vstd::seq_lib::group_to_multiset_ensures;

    let r = insert_diagnostic(s, x);
    if s.len() > 0 && diagnostic_lt(x, s.last()) {
        let t = s.drop_last();
        let last = s.last();
        assert(diagnostics_ordered(t)) by {
            assert forall|i: int, j: int| 0 <= i < j < t.len() implies !diagnostic_lt(#[trigger] t[j], #[trigger] t[i]) by {
                assert(s[i] == t[i] && s[j] == t[j]);
            }
        }
        lemma_insert_diagnostic_props(t, x);
        let u = insert_diagnostic(t, x);
        assert(s =~= t.push(last));
        assert forall|i: int, j: int| 0 <= i < j < r.len() implies !diagnostic_lt(#[trigger] r[j], #[trigger] r[i]) by {
            if j < r.len() - 1 {
                assert(r[i] == u[i] && r[j] == u[j]);
            } else {
                assert(r[j] == last);
                assert(r[i] == u[i]);
                assert(u.to_multiset().count(u[i]) > 0);
                if u[i] == x {
                    lemma_diagnostic_order(x, last, x);
                } else {
                    assert(t.to_multiset().count(u[i]) > 0);
                    assert(t.contains(u[i]));
                    let m = choose|m: int| 0 <= m < t.len() && t[m] == u[i];
                    assert(s[m] == u[i]);
                    assert(s[s.len() - 1] == last);
                }
            }
        }
    } else {
        assert forall|i: int, j: int| 0 <= i < j < r.len() implies !diagnostic_lt(#[trigger] r[j], #[trigger] r[i]) by {
            if j < s.len() {
                assert(r[i] == s[i] && r[j] == s[j]);
            } else {
                assert(r[j] == x);
                assert(r[i] == s[i]);
                let last = s.last();
                assert(s[s.len() - 1] == last);
                lemma_diagnostic_order(x, last, s[i]);
            }
        }
    }
}

proof fn lemma_sorted_diagnostics_props(s: Seq<DiagnosticView>)
    ensures
        diagnostics_ordered(sorted_diagnostics(s)),
        sorted_diagnostics(s).to_multiset() == s.to_multiset(),
    decreases s.len(),
{
    broadcast use vstd::seq_lib::group_to_multiset_ensures;

    if s.len() > 0 {
        lemma_sorted_diagnostics_props(s.drop_last());
        lemma_insert_diagnostic_props(sorted_diagnostics(s.drop_last()), s.last());
        assert(s =~= s.drop_last().push(s.last()));
    }
}

proof fn lemma_without_repeats_props(s: Seq<DiagnosticView>)
    ensures
        forall|v| #[trigger] without_repeats(s).contains(v) ==> s.contains(v),
        s.len() > 0 ==> without_repeats(s).len() > 0,
        forall|i: int|
            0 <= i < without_repeats(s).len() - 1 ==> !repeats(
                #[trigger] without_repeats(s)[i + 1],
                without_repeats(s)[i],
            ),
        diagnostics_ordered(s) ==> diagnostics_ordered(without_repeats(s)),
    decreases s.len(),
{
    if s.len() > 0 {
        let t = s.drop_last();
        let x = s.last();
        let d = without_repeats(t);
        let r = without_repeats(s);
        lemma_without_repeats_props(t);
        assert(s[s.len() - 1] == x);
        assert forall|v| #[trigger] r.contains(v) implies s.contains(v) by {
            let k = choose|k: int| 0 <= k < r.len() && r[k] == v;
            if k < d.len() {
                assert(d[k] == v);
                assert(d.contains(v));
                let m = choose|m: int| 0 <= m < t.len() && t[m] == v;
                assert(s[m] == v);
            }
        }
        assert forall|i: int| 0 <= i < r.len() - 1 implies !repeats(#[trigger] r[i + 1], r[i]) by {
            if i + 1 < d.len() {
                assert(r[i] == d[i] && r[i + 1] == d[i + 1]);
            }
        }
        if diagnostics_ordered(s) {
            assert(diagnostics_ordered(t)) by {
                assert forall|i: int, j: int| 0 <= i < j < t.len() implies !diagnostic_lt(#[trigger] t[j], #[trigger] t[i]) by {
                    assert(s[i] == t[i] && s[j] == t[j]);
                }
            }
            assert forall|i: int, j: int| 0 <= i < j < r.len() implies !diagnostic_lt(#[trigger] r[j], #[trigger] r[i]) by {
                if j < d.len() {
                    assert(r[i] == d[i] && r[j] == d[j]);
                } else {
                    assert(r[j] == x);
                    assert(r[i] == d[i]);
                    assert(d.contains(d[i]));
                    let m = choose|m: int| 0 <= m < t.len() && t[m] == d[i];
                    assert(s[m] == d[i]);
                }
            }
        }
    }
}

/// Reported diagnostics come in order of where they start, then of kind,
/// then of message; none repeats the one just before it; each is one of
/// the diagnostics that went in, and some are reported when any went in.
pub proof fn law_reported_diagnostics_are_ordered_and_unrepeated(s: Seq<DiagnosticView>)
    ensures
        diagnostics_ordered(without_repeats(sorted_diagnostics(s))),
        forall|i: int|
            0 <= i < without_repeats(sorted_diagnostics(s)).len() - 1 ==> !repeats(
                #[trigger] without_repeats(sorted_diagnostics(s))[i + 1],
                without_repeats(sorted_diagnostics(s))[i],
            ),
        forall|v| #[trigger] without_repeats(sorted_diagnostics(s)).contains(v) ==> s.contains(v),
        s.len() > 0 ==> without_repeats(sorted_diagnostics(s)).len() > 0,
{
    broadcast use vstd::seq_lib::group_to_multiset_ensures;

    lemma_sorted_diagnostics_props(s);
    let t = sorted_diagnostics(s);
    lemma_without_repeats_props(t);
    assert forall|v| #[trigger] without_repeats(t).contains(v) implies s.contains(v) by {
        assert(t.contains(v));
        assert(t.to_multiset().count(v) > 0);
        assert(s.to_multiset().count(v) > 0);
    }
    assert(t.len() == s.len()) by {
        assert(t.to_multiset().len() == s.to_multiset().len());
    }
}

/// Whether no report has the syntax kind.
pub open spec fn no_syntax_reports(s: Seq<DiagnosticView>) -> bool {
    forall|i: int| 0 <= i < s.len() ==> (#[trigger] s[i]).kind != ProjectDiagnosticKind::Syntax
}

proof fn lemma_no_syntax_concat(a: Seq<DiagnosticView>, b: Seq<DiagnosticView>)
    requires
        no_syntax_reports(a),
        no_syntax_reports(b),
    ensures
        no_syntax_reports(a + b),
{
    assert forall|i: int| 0 <= i < (a + b).len() implies (#[trigger] (a + b)[i]).kind != ProjectDiagnosticKind::Syntax by {
        if i < a.len() {
            assert((a + b)[i] == a[i]);
        } else {
            assert((a + b)[i] == b[i - a.len()]);
        }
    }
}

proof fn lemma_no_syntax_push(a: Seq<DiagnosticView>, x: DiagnosticView)
    requires
        no_syntax_reports(a),
        x.kind != ProjectDiagnosticKind::Syntax,
    ensures
        no_syntax_reports(a.push(x)),
{
    assert forall|i: int| 0 <= i < a.push(x).len() implies (#[trigger] a.push(x)[i]).kind != ProjectDiagnosticKind::Syntax by {
        if i < a.len() {
            assert(a.push(x)[i] == a[i]);
        }
    }
}

proof fn lemma_reports_for_all_no_syntax(cs: Seq<DiagnosticInContext>)
    ensures
        no_syntax_reports(reports_for_all(cs)),
    decreases cs.len(),
{
    if cs.len() > 0 {
        lemma_reports_for_all_no_syntax(cs.drop_last());
        let c = cs.last();
        let r = reports_for(c);
        assert(no_syntax_reports(r)) by {
            assert forall|i: int| 0 <= i < r.len() implies (#[trigger] r[i]).kind != ProjectDiagnosticKind::Syntax by {
                match c.import {
                    Some(imp) => {
                        if c.diagnostic.kind == SemanticDiagnosticKind::UnresolvedImport && !(c.diagnostic.kind
                            == SemanticDiagnosticKind::UnresolvedName) {
                            match imp.link {
                                ImportLink::Ambiguous => {
                                    if i > 0 {
                                        assert(r[i] == usage_reports(
                                            imp.alias_usages@,
                                            ProjectDiagnosticKind::AmbiguousLinkedImport,
                                            ambiguous_alias_message(imp.module_name@),
                                            imp.range,
                                        )[i - 1]);
                                    }
                                },
                                ImportLink::Unlinked => {
                                    if i > 0 {
                                        assert(r[i] == usage_reports(
                                            imp.alias_usages@,
                                            ProjectDiagnosticKind::BrokenLinkedImport,
                                            broken_alias_message(imp.module_name@),
                                            imp.range,
                                        )[i - 1]);
                                    }
                                },
                                _ => {},
                            }
                        }
                    },
                    None => {},
                }
            }
        }
        lemma_no_syntax_concat(reports_for_all(cs.drop_last()), r);
    }
}

proof fn lemma_missing_module_reports_no_syntax(
    imports: Seq<FileImport>,
    host_modules: Seq<Seq<char>>,
    directives: Option<&FileCommentDirectives>,
)
    ensures
        no_syntax_reports(missing_module_reports(imports, host_modules, directives)),
    decreases imports.len(),
{
    if imports.len() > 0 {
        lemma_missing_module_reports_no_syntax(imports.drop_last(), host_modules, directives);
        match missing_module_report(imports.last(), host_modules, directives) {
            Some(r) => lemma_no_syntax_push(missing_module_reports(imports.drop_last(), host_modules, directives), r),
            None => {},
        }
    }
}

proof fn lemma_target_reports_no_syntax(ts: Seq<CalledFunction>, at: TextRange)
    ensures
        no_syntax_reports(target_reports(ts, at)),
    decreases ts.len(),
{
    if ts.len() > 0 {
        lemma_target_reports_no_syntax(ts.drop_last(), at);
        match ts.last().requirement {
            Some((name, range)) => lemma_no_syntax_push(
                target_reports(ts.drop_last(), at),
                target_reports(ts, at).last(),
            ),
            None => {},
        }
    }
}

proof fn lemma_caller_scope_reports_no_syntax(cs: Seq<CallFacts>)
    ensures
        no_syntax_reports(caller_scope_reports(cs)),
    decreases cs.len(),
{
    if cs.len() > 0 {
        lemma_caller_scope_reports_no_syntax(cs.drop_last());
        let c = cs.last();
        lemma_target_reports_no_syntax(c.targets@, call_report_range(c));
        lemma_no_syntax_concat(caller_scope_reports(cs.drop_last()), target_reports(c.targets@, call_report_range(c)));
    }
}

proof fn lemma_member_reports_no_syntax(rs: Seq<ImportedMemberReference>)
    ensures
        no_syntax_reports(member_reports(rs)),
    decreases rs.len(),
{
    if rs.len() > 0 {
        lemma_member_reports_no_syntax(rs.drop_last());
        match member_report(rs.last()) {
            Some(d) => lemma_no_syntax_push(member_reports(rs.drop_last()), d),
            None => {},
        }
    }
}

/// The diagnostics reported for a file, its parser diagnostics together
/// with all that its semantic diagnostics, imports, imported paths and
/// calls give, are ordered by start, kind and message, with no entry
/// repeating the one before it; and each syntax entry is an error with no
/// related range.
pub proof fn law_file_diagnostics_are_ordered_and_syntax_is_error(
    syntax: Seq<SyntaxDiagnostic>,
    contexts: Seq<DiagnosticInContext>,
    imports: Seq<FileImport>,
    host_modules: Seq<Seq<char>>,
    directives: Option<&FileCommentDirectives>,
    references: Seq<ImportedMemberReference>,
    calls: Seq<CallFacts>,
)
    ensures
        ({
            let semantic = reports_for_all(contexts) + missing_module_reports(imports, host_modules, directives)
                + member_reports(references) + caller_scope_reports(calls);
            let r = without_repeats(sorted_diagnostics(syntax_reports(syntax) + semantic));
            &&& diagnostics_ordered(r)
            &&& forall|i: int| 0 <= i < r.len() - 1 ==> !repeats(#[trigger] r[i + 1], r[i])
            &&& forall|v: DiagnosticView|
                #[trigger] r.contains(v) && v.kind == ProjectDiagnosticKind::Syntax ==> v.severity
                    == ProjectDiagnosticSeverity::Error && v.related_range is None
        }),
{
    let a = reports_for_all(contexts);
    let b = missing_module_reports(imports, host_modules, directives);
    let c = member_reports(references);
    let d = caller_scope_reports(calls);
    lemma_reports_for_all_no_syntax(contexts);
    lemma_missing_module_reports_no_syntax(imports, host_modules, directives);
    lemma_member_reports_no_syntax(references);
    lemma_caller_scope_reports_no_syntax(calls);
    lemma_no_syntax_concat(a, b);
    lemma_no_syntax_concat(a + b, c);
    lemma_no_syntax_concat(a + b + c, d);
    let semantic = a + b + c + d;
    law_syntax_reports_are_errors(syntax, semantic);
    law_reported_diagnostics_are_ordered_and_unrepeated(syntax_reports(syntax) + semantic);
}

/// A file's reported diagnostics are ordered and unrepeated; each syntax
/// report is an error with no related range, as the parser gave it; and a
/// file with no diagnostics reports none.
pub proof fn law_syntax_reports_are_errors(syntax: Seq<SyntaxDiagnostic>, semantic: Seq<DiagnosticView>)
    requires
        forall|i: int| 0 <= i < semantic.len() ==> (#[trigger] semantic[i]).kind != ProjectDiagnosticKind::Syntax,
    ensures
        diagnostics_ordered(without_repeats(sorted_diagnostics(syntax_reports(syntax) + semantic))),
        forall|v: DiagnosticView|
            #[trigger] without_repeats(sorted_diagnostics(syntax_reports(syntax) + semantic)).contains(v) && v.kind
                == ProjectDiagnosticKind::Syntax ==> v.severity == ProjectDiagnosticSeverity::Error && v.related_range
                is None,
        syntax.len() == 0 && semantic.len() == 0 ==> without_repeats(
            sorted_diagnostics(syntax_reports(syntax) + semantic),
        ).len() == 0,
{
    let s = syntax_reports(syntax) + semantic;
    law_reported_diagnostics_are_ordered_and_unrepeated(s);
    assert forall|v: DiagnosticView|
        #[trigger] without_repeats(sorted_diagnostics(s)).contains(v) && v.kind == ProjectDiagnosticKind::Syntax implies v.severity
            == ProjectDiagnosticSeverity::Error && v.related_range is None by {
        assert(s.contains(v));
        let i = choose|i: int| 0 <= i < s.len() && s[i] == v;
        if i >= syntax.len() {
            assert(s[i] == semantic[i - syntax.len()]);
        }
    }
    if syntax.len() == 0 && semantic.len() == 0 {
        assert(s =~= Seq::<DiagnosticView>::empty());
        lemma_sorted_diagnostics_props(s);
        lemma_without_repeats_props(sorted_diagnostics(s));
        if without_repeats(sorted_diagnostics(s)).len() > 0 {
            assert(without_repeats(sorted_diagnostics(s)).contains(without_repeats(sorted_diagnostics(s))[0]));
        }
    }
}

/// Whether an unresolved name is known from outside the file: a global
/// function, an external signature, or a name the file's comment
/// directives allow to stay unresolved.
pub open spec fn known_external(
    name: Option<Seq<char>>,
    global_functions: Seq<Seq<char>>,
    external_signatures: Seq<Seq<char>>,
    directives: Option<&FileCommentDirectives>,
) -> bool {
    match name {
        None => false,
        Some(n) => global_functions.contains(n) || external_signatures.contains(n) || match directives {
            Some(d) => name_views(d.allowed_unresolved_names@).contains(n),
            None => false,
        },
    }
}

/// Whether the name an unresolved-name diagnostic points at is known from
/// outside the file, as `known_external` states; `name` is none when no
/// reference stands at the diagnostic.
pub fn unresolved_name_is_known_external(
    name: Option<&str>,
    global_functions: &[String],
    external_signatures: &[String],
    directives: Option<&FileCommentDirectives>,
) -> (r: bool)
    ensures
        r == known_external(
            match name {
                Some(n) => Some(n@),
                None => None,
            },
            name_views(global_functions@),
            name_views(external_signatures@),
            directives,
        ),
{
    let n = match name {
        Some(n) => n,
        None => return false,
    };
    if contains_name(global_functions, n) || contains_name(external_signatures, n) {
        return true;
    }
    match directives {
        Some(d) => contains_name(d.allowed_unresolved_names.as_slice(), n),
        None => false,
    }
}

/// The first import whose module reference stands exactly at `range`.
pub open spec fn import_at(module_references: Seq<Option<TextRange>>, range: TextRange) -> Option<int>
    decreases module_references.len(),
{
    if module_references.len() == 0 {
        None
    } else {
        match import_at(module_references.drop_last(), range) {
            Some(i) => Some(i),
            None => if module_references.last() == Some(range) {
                Some(module_references.len() - 1)
            } else {
                None
            },
        }
    }
}

/// The import that an unresolved-import diagnostic at `range` points at, as
/// `import_at` states; given the range of each import's module reference.
pub fn import_index_for_diagnostic(module_references: &[Option<TextRange>], range: TextRange) -> (r: Option<usize>)
    ensures
        match import_at(module_references@, range) {
            Some(i) => r == Some(i as usize),
            None => r is None,
        },
{
    let mut i: usize = 0;
    while i < module_references.len()
        invariant
            0 <= i <= module_references.len(),
            import_at(module_references@.take(i as int), range) is None,
        decreases module_references.len() - i,
    {
        proof {
            assert(module_references@.take(i + 1).drop_last() =~= module_references@.take(i as int));
            assert(module_references@.take(i + 1).last() == module_references@[i as int]);
        }
        if let Some(r) = module_references[i] {
            if r.start == range.start && r.end == range.end {
                proof {
                    lemma_import_at_prefix(module_references@, i as int + 1, range);
                }
                return Some(i);
            }
        }
        i += 1;
    }
    assert(module_references@.take(i as int) =~= module_references@);
    None
}

proof fn lemma_import_at_prefix(s: Seq<Option<TextRange>>, k: int, range: TextRange)
    requires
        0 < k <= s.len(),
        import_at(s.take(k), range) is Some,
    ensures
        import_at(s, range) == import_at(s.take(k), range),
    decreases s.len() - k,
{
    if k < s.len() {
        assert(s.drop_last().take(k) =~= s.take(k));
        lemma_import_at_prefix(s.drop_last(), k, range);
    } else {
        assert(s.take(k) =~= s);
    }
}

/// A function that a call reaches, with what its caller-scope requirement
/// says: the function's name and range when it references names of its
/// callers' scope, else none.
pub struct CalledFunction {
    pub requirement: Option<(String, TextRange)>,
}

/// A call of the file, as the caller-scope check reads it.
pub struct CallFacts {
    pub caller_scope: bool,
    pub range: TextRange,
    pub callee_range: Option<TextRange>,
    pub targets: Vec<CalledFunction>,
}

/// The message at a regular call of a function that must be called with
/// the caller's scope.
pub open spec fn caller_scope_message(name: Seq<char>) -> Seq<char> {
    "call to `"@ + name + "` must use caller scope (`call!`) because the function references outer-scope names"@
}

/// The range a call is reported at: its callee, else the whole call.
pub open spec fn call_report_range(c: CallFacts) -> TextRange {
    match c.callee_range {
        Some(r) => r,
        None => c.range,
    }
}

/// The reports for the targets of one call, in order: one for each target
/// with a requirement.
pub open spec fn target_reports(ts: Seq<CalledFunction>, at: TextRange) -> Seq<DiagnosticView>
    decreases ts.len(),
{
    if ts.len() == 0 {
        Seq::empty()
    } else {
        let before = target_reports(ts.drop_last(), at);
        match ts.last().requirement {
            None => before,
            Some((name, function_range)) => before.push(
                DiagnosticView {
                    kind: ProjectDiagnosticKind::Semantic,
                    code: CodeView::CallerScopeRequired,
                    severity: ProjectDiagnosticSeverity::Error,
                    range: at,
                    message: caller_scope_message(name@),
                    related_range: Some(function_range),
                    tags: Seq::empty(),
                },
            ),
        }
    }
}

/// The reports for regular calls, in order, of functions that must be
/// called with the caller's scope; calls with the caller's scope and calls
/// reported at an empty range are passed over.
pub open spec fn caller_scope_reports(cs: Seq<CallFacts>) -> Seq<DiagnosticView>
    decreases cs.len(),
{
    if cs.len() == 0 {
        Seq::empty()
    } else {
        let before = caller_scope_reports(cs.drop_last());
        let c = cs.last();
        let at = call_report_range(c);
        if c.caller_scope || at.end - at.start == 0 {
            before
        } else {
            before + target_reports(c.targets@, at)
        }
    }
}

/// The reports for regular calls of functions that must be called with the
/// caller's scope, as `caller_scope_reports` states.
pub fn caller_scope_regular_call_diagnostics(calls: &[CallFacts]) -> (r: Vec<ProjectDiagnostic>)
    requires
        forall|i: int| 0 <= i < calls@.len() ==> call_report_range(#[trigger] calls@[i]).start <= call_report_range(
            calls@[i],
        ).end,
    ensures
        diagnostic_views(r@) == caller_scope_reports(calls@),
{
    let mut out: Vec<ProjectDiagnostic> = Vec::new();
    let mut i: usize = 0;
    while i < calls.len()
        invariant
            0 <= i <= calls.len(),
            forall|i: int| 0 <= i < calls@.len() ==> call_report_range(#[trigger] calls@[i]).start <= call_report_range(
                calls@[i],
            ).end,
            diagnostic_views(out@) == caller_scope_reports(calls@.take(i as int)),
        decreases calls.len() - i,
    {
        proof {
            assert(calls@.take(i + 1).drop_last() =~= calls@.take(i as int));
            assert(calls@.take(i + 1).last() == calls@[i as int]);
        }
        let c = &calls[i];
        let at = match c.callee_range {
            Some(r) => r,
            None => c.range,
        };
        assert(at == call_report_range(calls@[i as int]));
        if !c.caller_scope && at.end - at.start != 0 {
            let ghost base = diagnostic_views(out@);
            let mut j: usize = 0;
            while j < c.targets.len()
                invariant
                    0 <= j <= c.targets.len(),
                    diagnostic_views(out@) == base + target_reports(c.targets@.take(j as int), at),
                decreases c.targets.len() - j,
            {
                proof {
                    assert(c.targets@.take(j + 1).drop_last() =~= c.targets@.take(j as int));
                    assert(c.targets@.take(j + 1).last() == c.targets@[j as int]);
                }
                if let Some((name, function_range)) = &c.targets[j].requirement {
                    let d = ProjectDiagnostic {
                        kind: ProjectDiagnosticKind::Semantic,
                        code: ProjectDiagnosticCode::CallerScopeRequired,
                        severity: ProjectDiagnosticSeverity::Error,
                        range: at,
                        message: framed(
                            "call to `",
                            name.as_str(),
                            "` must use caller scope (`call!`) because the function references outer-scope names",
                        ),
                        related_range: Some(*function_range),
                        tags: Vec::new(),
                    };
                    let ghost before = diagnostic_views(out@);
                    let ghost dv = diagnostic_view(d);
                    out.push(d);
                    assert(diagnostic_views(out@) =~= before.push(dv));
                    assert(base + target_reports(c.targets@.take(j + 1), at) =~= (base + target_reports(
                        c.targets@.take(j as int),
                        at,
                    )).push(dv));
                }
                j += 1;
            }
            assert(c.targets@.take(j as int) =~= c.targets@);
        }
        i += 1;
    }
    assert(calls@.take(i as int) =~= calls@);
    out
}

/// A call of the workspace, as the search for regular call sites of a
/// function reads it.
pub struct CallSiteFacts {
    pub file_id: FileId,
    pub caller_scope: bool,
    /// Whether the call reaches the function looked for.
    pub targets_function: bool,
    pub range: TextRange,
    pub callee_range: Option<TextRange>,
}

/// The key of a call site: its file, start and end.
pub open spec fn site_key(s: (FileId, TextRange)) -> (u32, u32, u32) {
    (s.0.0, s.1.start, s.1.end)
}

/// The order of call-site keys: by file, then start, then end.
pub open spec fn site_lt(a: (u32, u32, u32), b: (u32, u32, u32)) -> bool {
    ||| a.0 < b.0
    ||| a.0 == b.0 && a.1 < b.1
    ||| a.0 == b.0 && a.1 == b.1 && a.2 < b.2
}

/// The regular call sites of the function: for each call that reaches it
/// without the caller's scope, its file and the range of its callee, else
/// of the whole call.
pub open spec fn regular_site(c: CallSiteFacts) -> Option<(FileId, TextRange)> {
    if c.targets_function && !c.caller_scope {
        Some(
            (
                c.file_id,
                match c.callee_range {
                    Some(r) => r,
                    None => c.range,
                },
            ),
        )
    } else {
        None
    }
}

/// Whether a site is one of the regular call sites among `cs`.
pub open spec fn is_regular_site(cs: Seq<CallSiteFacts>, s: (FileId, TextRange)) -> bool {
    exists|i: int| 0 <= i < cs.len() && #[trigger] regular_site(cs[i]) == Some(s)
}

fn site_less(a: (FileId, TextRange), b: (FileId, TextRange)) -> (r: bool)
    ensures
        r == site_lt(site_key(a), site_key(b)),
{
    if a.0.0 != b.0.0 {
        return a.0.0 < b.0.0;
    }
    if a.1.start != b.1.start {
        return a.1.start < b.1.start;
    }
    a.1.end < b.1.end
}

/// The regular call sites of a function, ordered by file, start and end,
/// each once.
pub fn collect_regular_call_sites(calls: &[CallSiteFacts]) -> (r: Vec<(FileId, TextRange)>)
    ensures
        forall|i: int, j: int| 0 <= i < j < r@.len() ==> site_lt(site_key(#[trigger] r@[i]), site_key(#[trigger] r@[j])),
        forall|s: (FileId, TextRange)| #[trigger] r@.contains(s) <==> is_regular_site(calls@, s),
{
    let mut out: Vec<(FileId, TextRange)> = Vec::new();
    let mut i: usize = 0;
    while i < calls.len()
        invariant
            0 <= i <= calls.len(),
            forall|a: int, b: int| 0 <= a < b < out@.len() ==> site_lt(site_key(#[trigger] out@[a]), site_key(#[trigger] out@[b])),
            forall|s: (FileId, TextRange)| #[trigger] out@.contains(s) <==> is_regular_site(calls@.take(i as int), s),
        decreases calls.len() - i,
    {
        let c = &calls[i];
        let ghost prev = out@;
        let ghost added = regular_site(calls@[i as int]);
        if c.targets_function && !c.caller_scope {
            let site = (c.file_id, match c.callee_range {
                Some(r) => r,
                None => c.range,
            });
            assert(added == Some(site));
            let mut p: usize = 0;
            while p < out.len() && site_less(out[p], site)
                invariant
                    p <= out@.len(),
                    out@ == prev,
                    forall|a: int| 0 <= a < p ==> site_lt(site_key(#[trigger] out@[a]), site_key(site)),
                decreases out.len() - p,
            {
                p += 1;
            }
            let duplicate = p < out.len() && out[p].0.0 == site.0.0 && out[p].1.start == site.1.start && out[p].1.end
                == site.1.end;
            if !duplicate {
                out.insert(p, site);
                proof {
                    assert forall|a: int, b: int| 0 <= a < b < out@.len() implies site_lt(
                        site_key(#[trigger] out@[a]),
                        site_key(#[trigger] out@[b]),
                    ) by {
                        if b < p {
                            assert(out@[a] == prev[a] && out@[b] == prev[b]);
                        } else if b == p {
                            assert(out@[a] == prev[a]);
                        } else if a == p {
                            assert(out@[b] == prev[b - 1]);
                            if b - 1 > p {
                                assert(site_lt(site_key(prev[p as int]), site_key(prev[b - 1])));
                            }
                        } else if a < p {
                            assert(out@[a] == prev[a] && out@[b] == prev[b - 1]);
                        } else {
                            assert(out@[a] == prev[a - 1] && out@[b] == prev[b - 1]);
                        }
                    }
                    assert forall|s: (FileId, TextRange)| #[trigger] out@.contains(s) <==> (prev.contains(s) || added
                        == Some(s)) by {
                        if out@.contains(s) {
                            let k = choose|k: int| 0 <= k < out@.len() && out@[k] == s;
                            if k < p {
                                assert(prev[k] == s);
                            } else if k > p {
                                assert(prev[k - 1] == s);
                            }
                        }
                        if prev.contains(s) {
                            let k = choose|k: int| 0 <= k < prev.len() && prev[k] == s;
                            if k < p {
                                assert(out@[k] == s);
                            } else {
                                assert(out@[k + 1] == s);
                            }
                        }
                        if added == Some(s) {
                            assert(out@[p as int] == s);
                        }
                    }
                }
            } else {
                assert(out@[p as int] == site);
                assert(forall|s: (FileId, TextRange)| #[trigger] out@.contains(s) <==> (prev.contains(s) || added
                    == Some(s)));
            }
        } else {
            assert(added is None);
            assert(forall|s: (FileId, TextRange)| #[trigger] out@.contains(s) <==> (prev.contains(s) || added
                == Some(s)));
        }
        proof {
            let t0 = calls@.take(i as int);
            let t1 = calls@.take(i + 1);
            assert forall|s: (FileId, TextRange)| #[trigger] is_regular_site(t1, s) <==> (is_regular_site(t0, s) || added
                == Some(s)) by {
                if is_regular_site(t1, s) {
                    let k = choose|k: int| 0 <= k < t1.len() && #[trigger] regular_site(t1[k]) == Some(s);
                    if k < i {
                        assert(t0[k] == t1[k]);
                    } else {
                        assert(t1[k] == calls@[i as int]);
                    }
                }
                if is_regular_site(t0, s) {
                    let k = choose|k: int| 0 <= k < t0.len() && #[trigger] regular_site(t0[k]) == Some(s);
                    assert(t1[k] == t0[k]);
                }
                if added == Some(s) {
                    assert(t1[i as int] == calls@[i as int]);
                    assert(regular_site(t1[i as int]) == Some(s));
                }
            }
        }
        i += 1;
    }
    assert(calls@.take(i as int) =~= calls@);
    out
}

/// The last segment of a path that goes through an import, as the check
/// for unresolved import members reads it.
pub struct ImportedMemberReference {
    pub range: TextRange,
    /// The parts of the imported path: the module path, then the member.
    pub parts: Vec<String>,
    pub import_range: TextRange,
    /// Whether the workspace links the import to a file.
    pub has_linked_import: bool,
    /// Whether the path resolves to a symbol of the linked file.
    pub resolves_to_linked_target: bool,
    /// Whether the imported module offers a completion of the member's name.
    pub has_inline_completion: bool,
}

/// The report of an imported path whose member is missing: for a path with
/// a member, through a linked import, that resolves to nothing in the
/// linked file and that no completion of the module offers, an error at
/// the member naming the whole path.
pub open spec fn member_report(r: ImportedMemberReference) -> Option<DiagnosticView> {
    if r.parts@.len() > 0 && r.has_linked_import && !r.resolves_to_linked_target && !r.has_inline_completion {
        Some(
            DiagnosticView {
                kind: ProjectDiagnosticKind::Semantic,
                code: CodeView::UnresolvedImportMember,
                severity: ProjectDiagnosticSeverity::Error,
                range: r.range,
                message: "unresolved import member `"@ + crate::text::join_with(
                    Seq::new(r.parts@.len(), |i: int| r.parts@[i]@),
                    "::"@,
                ) + "`"@,
                related_range: Some(r.import_range),
                tags: Seq::empty(),
            },
        )
    } else {
        None
    }
}

/// The reports, in order, of imported paths whose members are missing.
pub open spec fn member_reports(rs: Seq<ImportedMemberReference>) -> Seq<DiagnosticView>
    decreases rs.len(),
{
    if rs.len() == 0 {
        Seq::empty()
    } else {
        let before = member_reports(rs.drop_last());
        match member_report(rs.last()) {
            Some(d) => before.push(d),
            None => before,
        }
    }
}

/// The reports of imported paths whose members are missing, as
/// `member_reports` states.
pub fn unresolved_import_member_path_diagnostics(references: &[ImportedMemberReference]) -> (r: Vec<ProjectDiagnostic>)
    ensures
        diagnostic_views(r@) == member_reports(references@),
{
    let mut out: Vec<ProjectDiagnostic> = Vec::new();
    let mut i: usize = 0;
    while i < references.len()
        invariant
            0 <= i <= references.len(),
            diagnostic_views(out@) == member_reports(references@.take(i as int)),
        decreases references.len() - i,
    {
        proof {
            assert(references@.take(i + 1).drop_last() =~= references@.take(i as int));
            assert(references@.take(i + 1).last() == references@[i as int]);
        }
        let r = &references[i];
        if r.parts.len() > 0 && r.has_linked_import && !r.resolves_to_linked_target && !r.has_inline_completion {
            let path = crate::text::join_strings(r.parts.as_slice(), "::");
            let d = ProjectDiagnostic {
                kind: ProjectDiagnosticKind::Semantic,
                code: ProjectDiagnosticCode::UnresolvedImportMember,
                severity: ProjectDiagnosticSeverity::Error,
                range: r.range,
                message: framed("unresolved import member `", path.as_str(), "`"),
                related_range: Some(r.import_range),
                tags: Vec::new(),
            };
            let ghost before = diagnostic_views(out@);
            let ghost dv = diagnostic_view(d);
            out.push(d);
            assert(diagnostic_views(out@) =~= before.push(dv));
        }
        i += 1;
    }
    assert(references@.take(i as int) =~= references@);
    out
}

} // verus!
