use rhai_db::changes::{
    apply_change_step, next_project_revision, next_revision, plan_file_rebuild, DatabaseRevisions, DocumentVersion,
    InvalidationReason, RebuildAction,
};
use rhai_db::module_completions::SymbolKind;
use rhai_db::paths::{auto_import_module_from_parts, is_rhai_extension, path_like_from_parts, replace_backslashes};
use rhai_db::query_support::{build_query_support, MemberCompletion, SymbolFacts};
use rhai_db::stats::{default_file_stats, record_file_rebuild, record_query_support_build, record_query_support_eviction};
use rhai_db::ty::TypeRef;
use rhai_db::workspace::{FileId, TextRange};

fn symbol(name: &str, start: u32, full_start: u32, members: &[&str]) -> SymbolFacts {
    SymbolFacts {
        name: name.to_owned(),
        kind: SymbolKind::Variable,
        range: TextRange { start, end: start + 1 },
        docs: None,
        annotation: Some(TypeRef::Int),
        full_range: TextRange { start: full_start, end: full_start + 10 },
        focus_range: TextRange { start, end: start + 1 },
        members: members
            .iter()
            .map(|m| MemberCompletion { name: (*m).to_owned(), annotation: None, docs: None })
            .collect(),
    }
}

#[test]
fn query_support_lists_symbols_by_name_and_position() {
    let symbols = vec![
        symbol("user", 40, 30, &["name", "id"]),
        symbol("helper", 3, 0, &[]),
        symbol("user", 10, 50, &[]),
        symbol("run", 20, 15, &[]),
    ];
    let q = build_query_support(FileId(7), "/w/main.rhai".to_owned(), &symbols);
    assert_eq!(q.file_id, FileId(7));
    assert_eq!(q.normalized_path, "/w/main.rhai");
    let completions: Vec<(u32, String)> = q.completion_symbols.iter().map(|c| (c.symbol, c.name.clone())).collect();
    assert_eq!(
        completions,
        vec![(1, "helper".to_owned()), (3, "run".to_owned()), (2, "user".to_owned()), (0, "user".to_owned())]
    );
    let targets: Vec<u32> = q.navigation_targets.iter().map(|t| t.symbol).collect();
    assert_eq!(targets, vec![1, 3, 0, 2]);
    assert_eq!(q.member_completion_sets.len(), 1);
    assert_eq!(q.member_completion_sets[0].symbol, 0);
    assert_eq!(q.member_completion_sets[0].name, "user");
    let members: Vec<String> = q.member_completion_sets[0].members.iter().map(|m| m.name.clone()).collect();
    assert_eq!(members, vec!["name", "id"]);
}

#[test]
fn query_support_of_no_symbols_is_empty() {
    let q = build_query_support(FileId(1), String::new(), &[]);
    assert!(q.completion_symbols.is_empty() && q.navigation_targets.is_empty() && q.member_completion_sets.is_empty());
}

#[test]
fn building_and_evicting_query_support_updates_file_statistics() {
    let mut stats = vec![default_file_stats(FileId(2))];
    record_query_support_build(&mut stats, FileId(5), "/w/five.rhai".to_owned());
    record_query_support_build(&mut stats, FileId(2), "/w/two.rhai".to_owned());
    record_query_support_eviction(&mut stats, FileId(2));
    let ids: Vec<u32> = stats.iter().map(|s| s.file_id.0).collect();
    assert_eq!(ids, vec![2, 5]);
    assert_eq!(stats[0].query_support_rebuilds, 1);
    assert_eq!(stats[0].query_support_evictions, 1);
    assert!(!stats[0].query_support_cached);
    assert_eq!(stats[0].normalized_path, "/w/two.rhai");
    assert!(stats[1].query_support_cached);
    assert_eq!(stats[1].query_support_evictions, 0);
    record_query_support_eviction(&mut stats, FileId(9));
    assert_eq!(stats.len(), 3);
    assert_eq!(stats[2].query_support_evictions, 1);
}

#[test]
fn module_names_are_made_from_path_parts() {
    assert_eq!(
        auto_import_module_from_parts("lib/tools".to_owned(), Some("tools".to_owned())),
        Some("tools".to_owned())
    );
    assert_eq!(auto_import_module_from_parts("lib\\x".to_owned(), Some(String::new())), Some("lib/x".to_owned()));
    assert_eq!(auto_import_module_from_parts("a\\b".to_owned(), None), Some("a/b".to_owned()));
    assert_eq!(auto_import_module_from_parts(String::new(), None), None);
    assert_eq!(replace_backslashes("a\\b\\c"), "a/b/c");
    assert!(is_rhai_extension(&Some("rhai".to_owned())));
    assert!(!is_rhai_extension(&Some("txt".to_owned())));
    assert!(!is_rhai_extension(&None));
    assert!(path_like_from_parts(false, true));
    assert!(!path_like_from_parts(false, false));
}

#[test]
fn revisions_move_once_per_effective_batch() {
    assert_eq!(next_revision(4, 0, 0, false), 4);
    assert_eq!(next_revision(4, 1, 0, false), 5);
    assert_eq!(next_revision(4, 0, 2, true), 5);
    assert_eq!(next_project_revision(2, true), 3);
    assert_eq!(next_project_revision(2, false), 2);
}

#[test]
fn change_steps_move_revisions_and_choose_rebuilds() {
    let start = DatabaseRevisions { revision: 3, project_revision: 1 };
    assert_eq!(apply_change_step(start, 0, 0, false), (start, RebuildAction::KeepAll));
    assert_eq!(
        apply_change_step(start, 1, 0, false),
        (DatabaseRevisions { revision: 4, project_revision: 1 }, RebuildAction::RebuildChanged)
    );
    assert_eq!(
        apply_change_step(start, 0, 0, true),
        (DatabaseRevisions { revision: 4, project_revision: 2 }, RebuildAction::RebuildEverything)
    );
}

#[test]
fn a_rebuild_records_its_inputs_and_counts() {
    let (deps, next) = plan_file_rebuild(
        9,
        2,
        FileId(4),
        "/w/a.rhai".to_owned(),
        DocumentVersion(3),
        None,
        1,
        InvalidationReason::TextChanged,
    );
    assert_eq!(next, 10);
    assert!(!deps.is_workspace_file);
    assert_eq!((deps.hir.parse_revision, deps.hir.project_revision), (9, 2));
    assert_eq!(deps.index.hir_revision, 9);
    assert_eq!(deps.parse.document_version, DocumentVersion(3));
    assert_eq!(deps.last_invalidation, InvalidationReason::TextChanged);
    let (anywhere, _) =
        plan_file_rebuild(0, 0, FileId(4), "/a.rhai".to_owned(), DocumentVersion(1), None, 0, InvalidationReason::InitialLoad);
    assert!(anywhere.is_workspace_file);

    let mut stats = Vec::new();
    record_file_rebuild(&mut stats, FileId(4), "/w/a.rhai".to_owned());
    record_query_support_build(&mut stats, FileId(4), "/w/a.rhai".to_owned());
    record_file_rebuild(&mut stats, FileId(4), "/w/a.rhai".to_owned());
    assert_eq!(stats.len(), 1);
    assert_eq!((stats[0].parse_rebuilds, stats[0].lower_rebuilds, stats[0].index_rebuilds), (2, 2, 2));
    assert_eq!(stats[0].query_support_rebuilds, 1);
    assert!(!stats[0].query_support_cached);
}

#[test]
fn query_support_is_looked_up_by_symbol() {
    let symbols = vec![symbol("user", 40, 30, &["name", "id"]), symbol("helper", 3, 0, &[])];
    let q = build_query_support(FileId(4), "/w/lib.rhai".to_owned(), &symbols);
    assert_eq!(q.completion_symbol_for(0).map(|c| c.name.as_str()), Some("user"));
    assert_eq!(q.completion_symbol_for(1).map(|c| c.range.start), Some(3));
    assert!(q.completion_symbol_for(2).is_none());
    assert_eq!(q.navigation_target_for(1).map(|t| t.full_range.start), Some(0));
    assert!(q.navigation_target_for(5).is_none());
    let members: Vec<&str> = q.member_completions_for(0).unwrap().iter().map(|m| m.name.as_str()).collect();
    assert_eq!(members, vec!["name", "id"]);
    assert!(q.member_completions_for(1).is_none());
}
