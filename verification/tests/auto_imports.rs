use rhai_db::directives::{file_comment_directives, CommentDirectiveKind};
use rhai_db::ty::{type_eq, FunctionTypeRef, TypeRef};
use rhai_db::auto_import::{
    auto_import_candidates_for_module_path_at, auto_import_candidates_for_name_at, auto_import_insert_text,
    auto_import_insertion_offset, export_name_matches, module_path_alias, order_auto_import_candidates,
    plan_module_path_import, plan_name_import, AutoImportCandidate, AutoImportPlan, ExportedSymbol,
};
use rhai_db::module_completions::SymbolKind;
use rhai_db::workspace::{FileId, TextRange};

fn range() -> TextRange {
    TextRange { start: 20, end: 26 }
}

#[test]
fn exports_are_offered_for_prefix_and_infix_queries() {
    assert!(export_name_matches("SharedTools", "tools"));
    assert!(export_name_matches("SharedTools", "shared"));
    assert!(export_name_matches("helper", ""));
    assert!(!export_name_matches("helper", "tool"));
}

#[test]
fn import_text_depends_on_existing_imports_and_file_content() {
    assert_eq!(auto_import_insert_text(false, "", "tools", "tools").as_deref(), Some("import \"tools\" as tools;"));
    assert_eq!(
        auto_import_insert_text(false, "fn run() {}", "lib/net", "net").as_deref(),
        Some("import \"lib/net\" as net;\n\n")
    );
    assert_eq!(
        auto_import_insert_text(true, "import \"a\" as a;", "b", "b_1").as_deref(),
        Some("\nimport \"b\" as b_1;")
    );
}

#[test]
fn imports_go_after_the_last_import_or_the_leading_whitespace() {
    assert_eq!(auto_import_insertion_offset(Some(42), "x"), 42);
    assert_eq!(auto_import_insertion_offset(None, "  \n\tfn x() {}"), 4);
    assert_eq!(auto_import_insertion_offset(None, "\u{3000}a"), 3);
    assert_eq!(auto_import_insertion_offset(None, "fn x() {}"), 0);
}

#[test]
fn name_imports_reuse_existing_aliases_or_pick_a_free_one() {
    let fresh = plan_name_import(
        "consumer.rhai",
        "lib/provider.rhai",
        "shared_tools",
        None,
        &["provider".to_owned()],
        false,
        None,
        " fn run() { shared_tools(); }",
    )
    .expect("expected a plan");
    assert_eq!(fresh.module_name, "lib/provider");
    assert_eq!(fresh.alias, "provider_1");
    assert_eq!(fresh.insert_text, "import \"lib/provider\" as provider_1;\n\n");
    assert_eq!(fresh.insertion_offset, 1);
    assert_eq!(fresh.qualified_reference_text, "provider_1::shared_tools");
    assert_eq!(fresh.import_cost, 1);

    let reused = plan_name_import("consumer.rhai", "provider.rhai", "helper", Some("p"), &[], true, Some(30), "")
        .expect("expected a plan");
    assert_eq!(reused.alias, "p");
    assert_eq!(reused.insert_text, "");
    assert_eq!(reused.insertion_offset, 0);
    assert_eq!(reused.qualified_reference_text, "p::helper");
    assert_eq!(reused.import_cost, 0);
}

#[test]
fn module_path_imports_ask_for_the_written_alias() {
    assert_eq!(module_path_alias(&["tools".to_owned()], &[]), Some(("tools".to_owned(), true)));
    assert_eq!(module_path_alias(&["global".to_owned()], &[]), Some(("global".to_owned(), false)));
    assert_eq!(module_path_alias(&["tools".to_owned()], &["tools".to_owned()]), None);
    assert_eq!(module_path_alias(&["a".to_owned(), "b".to_owned()], &[]), None);

    let plan = plan_module_path_import("tools", true, "main.rhai", "lib/tools.rhai", "helper", true, Some(12), "")
        .expect("expected a plan");
    assert_eq!(plan.module_name, "lib/tools");
    assert_eq!(plan.insert_text, "\nimport \"lib/tools\" as tools;");
    assert_eq!(plan.insertion_offset, 12);
    assert_eq!(plan.qualified_reference_text, "helper");
    assert!(plan_module_path_import("net", true, "main.rhai", "lib/tools.rhai", "helper", true, Some(12), "").is_none());
    assert!(plan_module_path_import("global", false, "main.rhai", "lib/tools.rhai", "helper", false, None, "").is_some());
}

#[test]
fn comment_directives_declare_modules_names_and_signatures() {
    let directives = [
        CommentDirectiveKind::Extern {
            name: "math::add".to_owned(),
            ty: Some(TypeRef::Function(FunctionTypeRef { params: vec![TypeRef::Int], ret: Box::new(TypeRef::Int) })),
        },
        CommentDirectiveKind::Module { name: "io".to_owned() },
        CommentDirectiveKind::AllowUnresolved { name: "x".to_owned() },
        CommentDirectiveKind::Extern { name: "plain".to_owned(), ty: None },
        CommentDirectiveKind::AllowUnresolvedImport { name: "net".to_owned() },
        CommentDirectiveKind::FormatSkip,
        CommentDirectiveKind::Extern { name: "math::add".to_owned(), ty: Some(TypeRef::Int) },
    ];
    let declared = file_comment_directives(&directives);
    assert_eq!(declared.external_modules, vec!["io".to_owned(), "math".to_owned()]);
    assert_eq!(
        declared.allowed_unresolved_names,
        vec!["math::add".to_owned(), "plain".to_owned(), "x".to_owned()]
    );
    assert_eq!(declared.allowed_unresolved_imports, vec!["net".to_owned()]);
    assert_eq!(declared.external_signatures.len(), 1);
    assert_eq!(declared.external_signatures[0].name, "math::add");
    assert!(type_eq(&declared.external_signatures[0].ty, &TypeRef::Int));
}

fn export(file: u32, name: &str, symbol: u32, path: &str) -> ExportedSymbol {
    ExportedSymbol {
        file_id: FileId(file),
        exported_name: Some(name.to_owned()),
        symbol: Some(symbol),
        provider_path: Some(path.to_owned()),
        existing_alias: None,
        kind: SymbolKind::Function,
        annotation: None,
        docs: Some(format!("docs of {name}")),
    }
}

fn candidate(provider: u32, symbol: u32, module: &str, alias: &str, cost: u8) -> AutoImportCandidate {
    AutoImportCandidate {
        file_id: FileId(100),
        provider_file_id: FileId(provider),
        provider_path: String::new(),
        symbol,
        name: "x".to_owned(),
        kind: SymbolKind::Function,
        annotation: None,
        docs: None,
        replace_range: range(),
        plan: AutoImportPlan {
            module_name: module.to_owned(),
            alias: alias.to_owned(),
            insert_text: String::new(),
            insertion_offset: 0,
            qualified_reference_text: String::new(),
            import_cost: cost,
        },
    }
}

#[test]
fn candidates_are_ordered_by_cost_module_provider_and_symbol_without_repeats() {
    let ordered = order_auto_import_candidates(vec![
        candidate(3, 1, "b", "b", 1),
        candidate(2, 9, "a", "a", 1),
        candidate(2, 4, "a", "a", 1),
        candidate(7, 1, "z", "z", 0),
        candidate(2, 4, "a", "a", 1),
    ]);
    let keys: Vec<(u32, u32)> = ordered.iter().map(|c| (c.provider_file_id.0, c.symbol)).collect();
    assert_eq!(keys, vec![(7, 1), (2, 4), (2, 9), (3, 1)]);
}

#[test]
fn name_candidates_plan_an_import_of_each_matching_export() {
    let exports = [
        export(1, "shared_tools", 10, "provider.rhai"),
        export(2, "run", 11, "consumer.rhai"),
        export(3, "other", 12, "other.rhai"),
        export(4, "SHARED_extra", 13, "lib/extra.rhai"),
    ];
    let candidates = auto_import_candidates_for_name_at(
        FileId(2),
        "Shared",
        range(),
        "consumer.rhai",
        &exports,
        &[],
        false,
        None,
        "fn run() { shared_tools(); }",
    );
    assert_eq!(candidates.len(), 2);
    assert_eq!(candidates[0].plan.module_name, "provider");
    assert_eq!(candidates[0].plan.alias, "provider");
    assert_eq!(candidates[0].plan.insertion_offset, 0);
    assert_eq!(candidates[0].plan.insert_text, "import \"provider\" as provider;\n\n");
    assert_eq!(candidates[0].plan.qualified_reference_text, "provider::shared_tools");
    assert_eq!(candidates[0].symbol, 10);
    assert_eq!(candidates[1].plan.module_name, "lib/extra");
    assert_eq!(candidates[1].name, "SHARED_extra");
    for c in &candidates {
        assert_eq!(c.replace_range, range());
        assert_eq!(c.file_id, FileId(2));
        assert_eq!(c.kind, SymbolKind::Function);
    }
    assert_eq!(candidates[0].provider_path, "provider.rhai");
    assert_eq!(candidates[0].docs.as_deref(), Some("docs of shared_tools"));
}

#[test]
fn an_existing_import_of_the_provider_is_reused_first() {
    let mut reused = export(1, "helper", 10, "provider.rhai");
    reused.existing_alias = Some("p".to_owned());
    let exports = [export(3, "helper", 12, "lib/deep/helper.rhai"), reused];
    let candidates =
        auto_import_candidates_for_name_at(FileId(2), "help", range(), "consumer.rhai", &exports, &["p".to_owned()], true, Some(20), "");
    assert_eq!(candidates.len(), 2);
    assert_eq!(candidates[0].plan.alias, "p");
    assert_eq!(candidates[0].plan.import_cost, 0);
    assert_eq!(candidates[0].plan.insert_text, "");
    assert_eq!(candidates[1].provider_file_id, FileId(3));
}

#[test]
fn module_path_candidates_import_under_the_path_segment() {
    let exports = [export(1, "helper", 10, "tools.rhai"), export(3, "helper", 12, "net.rhai")];
    let candidates = auto_import_candidates_for_module_path_at(
        FileId(2),
        &["tools".to_owned()],
        "help",
        range(),
        "consumer.rhai",
        &exports,
        &[],
        false,
        None,
        "",
    );
    assert_eq!(candidates.len(), 1);
    assert_eq!(candidates[0].plan.alias, "tools");
    assert_eq!(candidates[0].plan.qualified_reference_text, "helper");
    assert_eq!(candidates[0].replace_range, range());
    let global = auto_import_candidates_for_module_path_at(
        FileId(2),
        &["global".to_owned()],
        "help",
        range(),
        "consumer.rhai",
        &exports,
        &[],
        false,
        None,
        "",
    );
    assert_eq!(global.len(), 2);
    assert!(global.iter().all(|c| c.plan.alias == "global"));
    let taken = auto_import_candidates_for_module_path_at(
        FileId(2),
        &["tools".to_owned()],
        "help",
        range(),
        "consumer.rhai",
        &exports,
        &["tools".to_owned()],
        false,
        None,
        "",
    );
    assert!(taken.is_empty());
}

#[test]
fn name_candidates_come_from_other_files_cheapest_first() {
    let mut reused = export(5, "Walker", 20, "zeta.rhai");
    reused.existing_alias = Some("zeta".to_owned());
    let exports = [
        export(4, "walk", 21, "lib/alpha.rhai"),
        export(2, "sidewalk", 22, "self.rhai"),
        export(3, "walk", 23, "lib/alpha.rhai"),
        reused,
        export(6, "run", 24, "beta.rhai"),
    ];
    let candidates =
        auto_import_candidates_for_name_at(FileId(2), "WALK", range(), "self.rhai", &exports, &["zeta".to_owned()], true, Some(0), "");
    let keys: Vec<(u8, &str, u32, u32)> = candidates
        .iter()
        .map(|c| (c.plan.import_cost, c.plan.module_name.as_str(), c.provider_file_id.0, c.symbol))
        .collect();
    assert_eq!(keys, vec![(0, "zeta", 5, 20), (1, "lib/alpha", 3, 23), (1, "lib/alpha", 4, 21)]);
    for c in &candidates {
        assert_ne!(c.provider_file_id, FileId(2));
        assert_eq!(c.plan.qualified_reference_text, format!("{}::{}", c.plan.alias, c.name));
        assert!(c.name.to_ascii_lowercase().contains("walk"));
    }
}
