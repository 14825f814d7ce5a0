use rhai_db::cache::QuerySupportCache;
use rhai_db::changes::{
    apply_change_step, change_impact, coalesce_file_changes, collect_dependency_affected_files, next_revision, select_file_changes,
    should_apply_file_change, sorted_file_ids, DocumentVersion, FileChange, FileDependents, InvalidationReason,
    DatabaseRevisions, KnownDocument, OpenDocument, RebuildAction, RemovedFileImpact,
};
use rhai_db::symbols::dedupe_symbol_locations;
use rhai_db::workspace::{
    nested_linked_import_origin_path, project_diagnostic_kind_rank, project_reference_kind_rank, same_export_edge,
    workspace_symbol_match_rank, workspace_symbols_matching, FileId, LinkedModuleImport, LocatedModuleExport,
    LocatedSymbolIdentity, LocatedWorkspaceSymbol, ModuleExportEdge, ProjectDiagnosticKind, ProjectReferenceKind,
    SymbolIdentity, SymbolStableKey, TextRange, WorkspaceSymbol,
};

fn ids(values: &[u32]) -> Vec<FileId> {
    values.iter().map(|v| FileId(*v)).collect()
}

fn change(path: &str, text: &str, version: i32) -> FileChange {
    FileChange { path: path.to_owned(), text: text.to_owned(), version: DocumentVersion(version) }
}

fn located(file: u32, name: &str, start: u32, end: u32) -> LocatedSymbolIdentity {
    LocatedSymbolIdentity {
        file_id: FileId(file),
        symbol: SymbolIdentity { name: name.to_owned(), declaration_range: TextRange { start, end } },
    }
}

fn workspace_symbol(file: u32, name: &str, exported: bool, container: &[&str]) -> LocatedWorkspaceSymbol {
    LocatedWorkspaceSymbol {
        file_id: FileId(file),
        symbol: WorkspaceSymbol {
            name: name.to_owned(),
            exported,
            stable_key: SymbolStableKey { container_path: container.iter().map(|s| (*s).to_owned()).collect() },
        },
    }
}

#[test]
fn file_ids_are_sorted_and_deduplicated() {
    assert_eq!(sorted_file_ids(ids(&[3, 1, 3, 2, 1])), ids(&[1, 2, 3]));
    assert_eq!(sorted_file_ids(Vec::new()), Vec::<FileId>::new());
}

#[test]
fn dependency_affected_files_exclude_the_changed_files() {
    let previous = vec![
        FileDependents { file_id: FileId(1), dependents: ids(&[3, 2]) },
        FileDependents { file_id: FileId(5), dependents: ids(&[6, 1]) },
    ];
    let current = vec![FileDependents { file_id: FileId(1), dependents: ids(&[4, 3]) }];
    let removed = [RemovedFileImpact { file_id: FileId(5), normalized_path: "gone.rhai".to_owned() }];
    let affected = collect_dependency_affected_files(&previous, &current, &removed, &ids(&[1]));
    assert_eq!(affected, ids(&[2, 3, 4, 6]));
    assert!(collect_dependency_affected_files(&previous, &current, &[], &[]).is_empty());
}

#[test]
fn batched_changes_keep_the_latest_version_of_each_path() {
    let coalesced = coalesce_file_changes(vec![
        change("workspace/src/main.rhai", "let value = 1;", 1),
        change("workspace/src/main.rhai", "let value = 2;", 2),
        change("workspace/src/main.rhai", "let value = 3;", 3),
        change("workspace/src/main.rhai", "let value = 0;", 2),
    ]);
    assert_eq!(coalesced.len(), 1);
    assert_eq!(coalesced[0].text, "let value = 3;");
    assert_eq!(coalesced[0].version, DocumentVersion(3));
}

#[test]
fn batched_changes_come_out_sorted_by_path() {
    let coalesced = coalesce_file_changes(vec![
        change("b.rhai", "b", 1),
        change("a.rhai", "a", 1),
        change("a.rhai", "a2", 1),
        change("c.rhai", "c", 4),
    ]);
    let paths = coalesced.iter().map(|c| c.path.as_str()).collect::<Vec<_>>();
    assert_eq!(paths, vec!["a.rhai", "b.rhai", "c.rhai"]);
    assert_eq!(coalesced[0].text, "a2");
}

#[test]
fn stale_or_identical_changes_are_not_applied() {
    let current = OpenDocument { text: "let value = 1;".to_owned(), version: DocumentVersion(2) };
    assert!(!should_apply_file_change(&change("main.rhai", "let value = 1;", 2), Some(&current)));
    assert!(!should_apply_file_change(&change("main.rhai", "let value = 0;", 1), Some(&current)));
    assert!(should_apply_file_change(&change("main.rhai", "let value = 5;", 2), Some(&current)));
    assert!(should_apply_file_change(&change("main.rhai", "let value = 1;", 3), Some(&current)));
    assert!(should_apply_file_change(&change("main.rhai", "let value = 1;", 1), None));
}

#[test]
fn query_support_budget_evicts_the_least_recently_used_file() {
    let mut cache = QuerySupportCache::new();
    cache.load_file(FileId(0));
    cache.load_file(FileId(1));
    assert_eq!(cache.set_query_support_budget(Some(1)), Vec::<FileId>::new());
    assert_eq!(cache.query_support_budget(), Some(1));
    assert_eq!(cache.warm_query_support(&[FileId(0)]), 1);
    assert_eq!(cache.warm_query_support(&[FileId(1)]), 1);
    assert!(!cache.has_query_support(FileId(0)));
    assert!(cache.has_query_support(FileId(1)));
}

#[test]
fn lowering_the_budget_evicts_the_coldest_files_in_file_order() {
    let mut cache = QuerySupportCache::new();
    for id in [4, 2, 7] {
        cache.load_file(FileId(id));
    }
    assert_eq!(cache.warm_query_support(&[FileId(7), FileId(2), FileId(4), FileId(9), FileId(7)]), 3);
    assert_eq!(cache.set_query_support_budget(Some(1)), ids(&[2, 7]));
    assert!(cache.has_query_support(FileId(4)));
    assert!(!cache.evict_query_support(FileId(2)));
    assert!(cache.evict_query_support(FileId(4)));
    assert!(cache.ensure_query_support(FileId(2)));
    assert!(!cache.ensure_query_support(FileId(2)));
    cache.remove_file(FileId(2));
    assert!(!cache.has_query_support(FileId(2)));
    assert_eq!(cache.set_query_support_budget(None), Vec::<FileId>::new());
}

#[test]
fn symbol_locations_are_sorted_and_repeats_dropped() {
    let deduped = dedupe_symbol_locations(vec![
        located(1, "b", 5, 6),
        located(0, "a", 3, 4),
        located(1, "b", 5, 6),
        located(0, "a", 1, 2),
        located(0, "z", 1, 9),
    ]);
    let seen = deduped
        .iter()
        .map(|l| (l.file_id.0, l.symbol.name.as_str(), l.symbol.declaration_range.start))
        .collect::<Vec<_>>();
    assert_eq!(seen, vec![(0, "a", 1), (0, "z", 1), (0, "a", 3), (1, "b", 5)]);
}

#[test]
fn workspace_symbol_search_ranks_exact_prefix_and_infix_matches() {
    let symbols = vec![
        workspace_symbol(0, "helper", true, &[]),
        workspace_symbol(0, "public_helper", true, &[]),
        workspace_symbol(1, "helper_tool", false, &[]),
        workspace_symbol(1, "Worker", false, &[]),
    ];
    let found = workspace_symbols_matching(&symbols, "  Helper ");
    let names = found.iter().map(|s| (s.file_id.0, s.symbol.name.as_str(), s.symbol.exported)).collect::<Vec<_>>();
    assert_eq!(names, vec![(0, "helper", true), (1, "helper_tool", false), (0, "public_helper", true)]);
    let workers = workspace_symbols_matching(&symbols, "worker");
    assert_eq!(workers.len(), 1);
    assert_eq!(workers[0].symbol.name, "Worker");
    assert_eq!(workspace_symbols_matching(&symbols, "").len(), 4);
}

#[test]
fn workspace_symbols_match_through_their_container_path() {
    let symbols = vec![workspace_symbol(2, "run", false, &["Tools", "net"]), workspace_symbol(1, "net_run", true, &[])];
    let found = workspace_symbols_matching(&symbols, "net");
    let names = found.iter().map(|s| s.symbol.name.as_str()).collect::<Vec<_>>();
    assert_eq!(names, vec!["net_run", "run"]);
    assert_eq!(workspace_symbol_match_rank(&symbols[0], "tools::net"), (3, 1, "run".to_owned()));
}

#[test]
fn diagnostic_and_reference_kinds_have_a_fixed_order() {
    assert_eq!(project_diagnostic_kind_rank(ProjectDiagnosticKind::Syntax), 0);
    assert_eq!(project_diagnostic_kind_rank(ProjectDiagnosticKind::AmbiguousLinkedImport), 3);
    assert_eq!(project_reference_kind_rank(ProjectReferenceKind::Definition), 0);
    assert_eq!(project_reference_kind_rank(ProjectReferenceKind::LinkedImport), 2);
}

#[test]
fn linked_import_paths_and_export_edges() {
    let import = LinkedModuleImport { import: 0, module_name: "tools".to_owned(), provider_file_id: FileId(3) };
    assert_eq!(nested_linked_import_origin_path(&["root".to_owned()], &import), vec!["root".to_owned(), "tools".to_owned()]);
    let a = LocatedModuleExport { file_id: FileId(1), export: ModuleExportEdge { export: 2, exported_name: None } };
    let b = LocatedModuleExport {
        file_id: FileId(1),
        export: ModuleExportEdge { export: 2, exported_name: Some("x".to_owned()) },
    };
    let c = LocatedModuleExport { file_id: FileId(2), export: ModuleExportEdge { export: 2, exported_name: None } };
    assert!(same_export_edge(&a, &b));
    assert!(!same_export_edge(&a, &c));
}

#[test]
fn selected_changes_skip_stale_documents_and_name_the_reason() {
    let documents = vec![
        KnownDocument { path: "a.rhai".to_owned(), text: "let a = 1;".to_owned(), version: DocumentVersion(3) },
        KnownDocument { path: "b.rhai".to_owned(), text: "let b = 1;".to_owned(), version: DocumentVersion(1) },
    ];
    let changes = vec![
        change("a.rhai", "let a = 2;", 2),
        change("b.rhai", "let b = 2;", 1),
        change("c.rhai", "let c = 1;", 0),
    ];
    let planned = select_file_changes(changes, &documents);
    assert_eq!(planned.len(), 2);
    assert_eq!(planned[0].change.path, "b.rhai");
    assert_eq!(planned[0].change.text, "let b = 2;");
    assert_eq!(planned[0].reason, InvalidationReason::TextChanged);
    assert_eq!(planned[1].change.path, "c.rhai");
    assert_eq!(planned[1].reason, InvalidationReason::InitialLoad);
    let repeated = select_file_changes(vec![change("a.rhai", "let a = 1;", 3)], &documents);
    assert!(repeated.is_empty());
}

#[test]
fn revision_moves_only_when_something_changed() {
    assert_eq!(next_revision(4, 0, 0, false), 4);
    assert_eq!(next_revision(4, 1, 0, false), 5);
    assert_eq!(next_revision(4, 0, 2, false), 5);
    assert_eq!(next_revision(4, 0, 0, true), 5);
}

#[test]
fn change_reports_list_files_ascending_once() {
    let removed = vec![RemovedFileImpact { file_id: FileId(9), normalized_path: "gone.rhai".to_owned() }];
    let report = change_impact(3, 1, false, ids(&[5]), ids(&[4, 2, 4]), ids(&[1, 2, 4]), removed, ids(&[7]), ids(&[2]));
    assert_eq!(report.revision, 3);
    assert!(!report.project_changed);
    assert_eq!(report.changed_files, ids(&[2, 4]));
    assert_eq!(report.rebuilt_files, ids(&[2, 4]));
    assert_eq!(report.dependency_affected_files, ids(&[7]));
    assert_eq!(report.removed_files.len(), 1);
    assert_eq!(report.evicted_query_support_files, ids(&[2]));

    let project = change_impact(4, 2, true, ids(&[5, 5]), ids(&[]), ids(&[3, 1, 2]), Vec::new(), ids(&[]), ids(&[]));
    assert!(project.project_changed);
    assert_eq!(project.changed_files, ids(&[5]));
    assert_eq!(project.rebuilt_files, ids(&[1, 2, 3]));
    assert_eq!(project.dependency_affected_files, ids(&[1, 2, 3]));
}

#[test]
fn warming_the_workspace_supports_every_loaded_file_once() {
    let mut cache = QuerySupportCache::new();
    for id in [3, 1, 8] {
        cache.load_file(FileId(id));
    }
    assert_eq!(cache.warm_query_support(&[FileId(1)]), 1);
    assert_eq!(cache.warm_workspace_queries(), 2);
    assert!(cache.has_query_support(FileId(3)));
    assert!(cache.has_query_support(FileId(8)));
    assert_eq!(cache.warm_workspace_queries(), 0);
}

#[test]
fn a_batch_moves_the_revision_once_only_when_it_applies_something() {
    let documents = vec![KnownDocument {
        path: "main.rhai".to_owned(),
        text: "let x = 1;".to_owned(),
        version: DocumentVersion(1),
    }];
    let start = DatabaseRevisions { revision: 7, project_revision: 2 };

    let first = select_file_changes(coalesce_file_changes(vec![change("lib.rhai", "fn f() {}", 0)]), &documents);
    let (after_first, action) = apply_change_step(start, 0, first.len(), false);
    assert_eq!(after_first.revision, 8);
    assert_eq!(action, RebuildAction::RebuildChanged);

    let again = select_file_changes(coalesce_file_changes(vec![change("main.rhai", "let x = 1;", 1)]), &documents);
    let (after_again, action) = apply_change_step(start, 0, again.len(), false);
    assert_eq!(after_again, start);
    assert_eq!(action, RebuildAction::KeepAll);

    let edit = select_file_changes(
        coalesce_file_changes(vec![change("main.rhai", "let x = 2;", 2), change("main.rhai", "let x = 3;", 2)]),
        &documents,
    );
    assert_eq!(edit.len(), 1);
    assert_eq!(edit[0].change.text, "let x = 3;");
    let (after_edit, _) = apply_change_step(start, 0, edit.len(), false);
    assert_eq!(after_edit.revision, 8);
    assert_eq!(after_edit.project_revision, 2);
}
