use rhai_db::diagnostics::{
    caller_scope_regular_call_diagnostics, collect_regular_call_sites, CallFacts, CallSiteFacts, CalledFunction,
    linked_import_usage_diagnostics, order_project_diagnostics, project_diagnostics, project_semantic_diagnostic,
    project_semantic_diagnostics, semantic_diagnostic_severity, semantic_diagnostic_tags,
    import_index_for_diagnostic, static_import_missing_module_diagnostics, unresolved_import_member_path_diagnostics,
    unresolved_name_is_known_external, ImportedMemberReference,
    DiagnosedImport, DiagnosticInContext, FileImport, ImportLink,
    ProjectDiagnostic, ProjectDiagnosticCode, ProjectDiagnosticSeverity, ProjectDiagnosticTag, SemanticDiagnostic,
    SemanticDiagnosticKind, SyntaxDiagnostic,
};
use rhai_db::directives::FileCommentDirectives;
use rhai_db::workspace::{FileId, ProjectDiagnosticKind, TextRange};

fn range(start: u32, end: u32) -> TextRange {
    TextRange { start, end }
}

fn semantic(kind: SemanticDiagnosticKind, message: &str, start: u32) -> SemanticDiagnostic {
    SemanticDiagnostic {
        kind,
        code: "UnresolvedImportModule".to_owned(),
        range: range(start, start + 4),
        message: message.to_owned(),
        related_range: None,
    }
}

fn in_context(diagnostic: SemanticDiagnostic) -> DiagnosticInContext {
    DiagnosticInContext { diagnostic, known_external: false, caller_scope_call_sites: None, import: None }
}

fn report(kind: ProjectDiagnosticKind, start: u32, message: &str) -> ProjectDiagnostic {
    ProjectDiagnostic {
        kind,
        code: ProjectDiagnosticCode::Semantic("Code".to_owned()),
        severity: ProjectDiagnosticSeverity::Error,
        range: range(start, start + 1),
        message: message.to_owned(),
        related_range: None,
        tags: Vec::new(),
    }
}

fn import_of(link: ImportLink) -> DiagnosedImport {
    DiagnosedImport {
        range: range(0, 29),
        link,
        module_name: "shared_tools".to_owned(),
        alias_usages: vec![range(42, 47)],
    }
}

#[test]
fn unused_symbols_are_unnecessary_warnings() {
    assert_eq!(semantic_diagnostic_severity(SemanticDiagnosticKind::UnusedSymbol), ProjectDiagnosticSeverity::Warning);
    assert_eq!(semantic_diagnostic_severity(SemanticDiagnosticKind::UnresolvedName), ProjectDiagnosticSeverity::Error);
    assert_eq!(semantic_diagnostic_tags(SemanticDiagnosticKind::UnusedSymbol), vec![ProjectDiagnosticTag::Unnecessary]);
    assert!(semantic_diagnostic_tags(SemanticDiagnosticKind::Other).is_empty());
}

#[test]
fn diagnostics_are_ordered_by_start_kind_and_message_without_repeats() {
    let ordered = order_project_diagnostics(vec![
        report(ProjectDiagnosticKind::Semantic, 10, "b"),
        report(ProjectDiagnosticKind::Semantic, 10, "a"),
        report(ProjectDiagnosticKind::Syntax, 10, "z"),
        report(ProjectDiagnosticKind::Semantic, 2, "late"),
        report(ProjectDiagnosticKind::Semantic, 10, "a"),
    ]);
    let messages: Vec<&str> = ordered.iter().map(|d| d.message.as_str()).collect();
    assert_eq!(messages, vec!["late", "z", "a", "b"]);
}

#[test]
fn syntax_errors_are_reported_with_semantic_ones() {
    let syntax = vec![SyntaxDiagnostic { code: "UnexpectedToken".to_owned(), range: range(5, 6), message: "unexpected `}`".to_owned() }];
    let all = project_diagnostics(syntax, vec![report(ProjectDiagnosticKind::Semantic, 1, "first")]);
    assert_eq!(all.len(), 2);
    assert_eq!(all[0].message, "first");
    assert_eq!(all[1].kind, ProjectDiagnosticKind::Syntax);
    assert!(matches!(&all[1].code, ProjectDiagnosticCode::Syntax(code) if code == "UnexpectedToken"));
    assert_eq!(all[1].severity, ProjectDiagnosticSeverity::Error);
    assert_eq!(all[1].related_range, None);
}

#[test]
fn unresolved_imports_of_a_uniquely_linked_export_are_not_reported() {
    let mut diagnostic = in_context(semantic(SemanticDiagnosticKind::UnresolvedImport, "unresolved import module `shared_tools`", 7));
    diagnostic.import = Some(import_of(ImportLink::Unique));
    assert!(project_semantic_diagnostic(&diagnostic).is_empty());
    let all = project_diagnostics(Vec::new(), project_semantic_diagnostics(&[diagnostic], &[], &[], None, Vec::new(), Vec::new()));
    assert!(all.is_empty());
}

#[test]
fn broken_links_report_the_import_and_every_use_of_its_alias() {
    let mut diagnostic = in_context(semantic(SemanticDiagnosticKind::UnresolvedImport, "unresolved import module `shared_tools`", 7));
    diagnostic.import = Some(import_of(ImportLink::Unlinked));
    let reports = project_semantic_diagnostic(&diagnostic);
    assert_eq!(reports.len(), 2);
    assert_eq!(reports[0].message, "unresolved import module `shared_tools`");
    assert_eq!(reports[1].kind, ProjectDiagnosticKind::BrokenLinkedImport);
    assert!(matches!(reports[1].code, ProjectDiagnosticCode::BrokenLinkedImport));
    assert_eq!(reports[1].range, range(42, 47));
    assert_eq!(reports[1].related_range, Some(range(0, 29)));
    assert_eq!(
        reports[1].message,
        "import alias no longer resolves because module `shared_tools` is unavailable in the workspace"
    );
}

#[test]
fn ambiguous_links_are_reported_at_the_import_and_its_uses() {
    let mut diagnostic = in_context(semantic(SemanticDiagnosticKind::UnresolvedImport, "unresolved", 7));
    diagnostic.import = Some(import_of(ImportLink::Ambiguous));
    let reports = project_semantic_diagnostic(&diagnostic);
    assert_eq!(reports.len(), 2);
    assert_eq!(reports[0].kind, ProjectDiagnosticKind::AmbiguousLinkedImport);
    assert_eq!(reports[0].message, "ambiguous import module `shared_tools` matches multiple workspace exports");
    assert_eq!(reports[0].range, range(7, 11));
    assert_eq!(
        reports[1].message,
        "import alias cannot be resolved uniquely because module `shared_tools` matches multiple workspace exports"
    );
    assert!(matches!(reports[1].code, ProjectDiagnosticCode::AmbiguousLinkedImport));
}

#[test]
fn unresolved_names_known_externally_or_without_callers_are_dropped() {
    let mut known = in_context(semantic(SemanticDiagnosticKind::UnresolvedName, "unresolved name `x`", 3));
    known.known_external = true;
    assert!(project_semantic_diagnostic(&known).is_empty());
    let mut captured = in_context(semantic(SemanticDiagnosticKind::UnresolvedName, "unresolved name `x`", 3));
    captured.caller_scope_call_sites = Some(false);
    assert!(project_semantic_diagnostic(&captured).is_empty());
    captured.caller_scope_call_sites = Some(true);
    assert_eq!(project_semantic_diagnostic(&captured).len(), 1);
    let plain = in_context(semantic(SemanticDiagnosticKind::UnusedSymbol, "unused", 3));
    let reports = project_semantic_diagnostic(&plain);
    assert_eq!(reports.len(), 1);
    assert_eq!(reports[0].severity, ProjectDiagnosticSeverity::Warning);
    assert_eq!(reports[0].tags, vec![ProjectDiagnosticTag::Unnecessary]);
    let unlinked_without_import = in_context(semantic(SemanticDiagnosticKind::UnresolvedImport, "unresolved", 3));
    assert_eq!(project_semantic_diagnostic(&unlinked_without_import).len(), 1);
}

#[test]
fn missing_static_import_modules_are_reported_unless_provided() {
    let import = |text: &str| FileImport {
        static_text: true,
        linked: false,
        module_text: Some(text.to_owned()),
        range: range(0, 20),
        module_range: Some(range(7, 15)),
    };
    let imports = [import("\"./lib/util.rhai\""), import("\"network\""), import("\"host_io\""), import("\"allowed\"")];
    let directives = FileCommentDirectives {
        external_modules: Vec::new(),
        allowed_unresolved_names: Vec::new(),
        allowed_unresolved_imports: vec!["allowed".to_owned()],
        external_signatures: Vec::new(),
    };
    let reports = static_import_missing_module_diagnostics(&imports, &["host_io".to_owned()], Some(&directives));
    assert_eq!(reports.len(), 2);
    assert_eq!(reports[0].kind, ProjectDiagnosticKind::BrokenLinkedImport);
    assert_eq!(reports[0].message, "import module `./lib/util.rhai` does not resolve to an existing workspace file");
    assert_eq!(reports[0].range, range(7, 15));
    assert_eq!(reports[1].kind, ProjectDiagnosticKind::Semantic);
    assert_eq!(reports[1].message, "unresolved import module `network`");
    let mut linked = import("\"network\"");
    linked.linked = true;
    assert!(static_import_missing_module_diagnostics(&[linked], &[], None).is_empty());
}

#[test]
fn alias_uses_are_reported_with_the_import_range() {
    let message = "gone".to_owned();
    let reports = linked_import_usage_diagnostics(&[range(1, 2), range(5, 6)], range(0, 9), ProjectDiagnosticKind::AmbiguousLinkedImport, &message);
    assert_eq!(reports.len(), 2);
    assert_eq!(reports[1].range, range(5, 6));
    assert_eq!(reports[1].related_range, Some(range(0, 9)));
    assert!(reports.iter().all(|r| r.message == "gone" && r.severity == ProjectDiagnosticSeverity::Error));
}

#[test]
fn semantic_reports_come_before_the_given_trailing_ones() {
    let diagnostic = in_context(semantic(SemanticDiagnosticKind::Other, "first", 3));
    let all = project_semantic_diagnostics(
        &[diagnostic],
        &[],
        &[],
        None,
        vec![report(ProjectDiagnosticKind::Semantic, 1, "member")],
        vec![report(ProjectDiagnosticKind::Semantic, 0, "caller")],
    );
    let messages: Vec<&str> = all.iter().map(|d| d.message.as_str()).collect();
    assert_eq!(messages, vec!["first", "member", "caller"]);
}

#[test]
fn unresolved_names_known_from_outside_the_file() {
    let directives = FileCommentDirectives {
        external_modules: Vec::new(),
        allowed_unresolved_names: vec!["magic".to_owned()],
        allowed_unresolved_imports: Vec::new(),
        external_signatures: Vec::new(),
    };
    let globals = ["print".to_owned()];
    let externals = ["host_call".to_owned()];
    assert!(unresolved_name_is_known_external(Some("print"), &globals, &externals, None));
    assert!(unresolved_name_is_known_external(Some("host_call"), &globals, &externals, None));
    assert!(unresolved_name_is_known_external(Some("magic"), &globals, &externals, Some(&directives)));
    assert!(!unresolved_name_is_known_external(Some("magic"), &globals, &externals, None));
    assert!(!unresolved_name_is_known_external(None, &globals, &externals, Some(&directives)));
}

#[test]
fn the_import_at_a_diagnostic_is_the_first_with_that_module_range() {
    let refs = [None, Some(range(7, 11)), Some(range(20, 24)), Some(range(7, 11))];
    assert_eq!(import_index_for_diagnostic(&refs, range(7, 11)), Some(1));
    assert_eq!(import_index_for_diagnostic(&refs, range(20, 24)), Some(2));
    assert_eq!(import_index_for_diagnostic(&refs, range(0, 1)), None);
}

#[test]
fn regular_calls_of_caller_scope_functions_are_reported() {
    let calls = [
        CallFacts {
            caller_scope: false,
            range: range(10, 20),
            callee_range: Some(range(10, 14)),
            targets: vec![
                CalledFunction { requirement: Some(("helper".to_owned(), range(0, 8))) },
                CalledFunction { requirement: None },
            ],
        },
        CallFacts {
            caller_scope: true,
            range: range(30, 40),
            callee_range: None,
            targets: vec![CalledFunction { requirement: Some(("helper".to_owned(), range(0, 8))) }],
        },
        CallFacts {
            caller_scope: false,
            range: range(50, 50),
            callee_range: None,
            targets: vec![CalledFunction { requirement: Some(("helper".to_owned(), range(0, 8))) }],
        },
    ];
    let reports = caller_scope_regular_call_diagnostics(&calls);
    assert_eq!(reports.len(), 1);
    assert_eq!(reports[0].range, range(10, 14));
    assert!(matches!(reports[0].code, ProjectDiagnosticCode::CallerScopeRequired));
    assert_eq!(reports[0].related_range, Some(range(0, 8)));
    assert_eq!(
        reports[0].message,
        "call to `helper` must use caller scope (`call!`) because the function references outer-scope names"
    );
}

#[test]
fn regular_call_sites_are_sorted_and_unique() {
    let site = |file: u32, caller_scope: bool, targets_function: bool, start: u32, callee: Option<TextRange>| CallSiteFacts {
        file_id: FileId(file),
        caller_scope,
        targets_function,
        range: range(start, start + 10),
        callee_range: callee,
    };
    let calls = [
        site(2, false, true, 5, None),
        site(1, false, true, 40, Some(range(40, 44))),
        site(1, true, true, 1, None),
        site(1, false, false, 2, None),
        site(2, false, true, 5, None),
        site(1, false, true, 3, None),
    ];
    let sites = collect_regular_call_sites(&calls);
    assert_eq!(sites, vec![(FileId(1), range(3, 13)), (FileId(1), range(40, 44)), (FileId(2), range(5, 15))]);
}

#[test]
fn missing_members_of_linked_imports_are_reported_with_their_path() {
    let reference = |resolves: bool, inline: bool| ImportedMemberReference {
        range: range(30, 36),
        parts: vec!["tools".to_owned(), "nested".to_owned(), "helper".to_owned()],
        import_range: range(0, 20),
        has_linked_import: true,
        resolves_to_linked_target: resolves,
        has_inline_completion: inline,
    };
    let reports = unresolved_import_member_path_diagnostics(&[reference(false, false), reference(true, false), reference(false, true)]);
    assert_eq!(reports.len(), 1);
    assert_eq!(reports[0].message, "unresolved import member `tools::nested::helper`");
    assert!(matches!(reports[0].code, ProjectDiagnosticCode::UnresolvedImportMember));
    assert_eq!(reports[0].related_range, Some(range(0, 20)));
    let mut unlinked = reference(false, false);
    unlinked.has_linked_import = false;
    assert!(unresolved_import_member_path_diagnostics(&[unlinked]).is_empty());
}
