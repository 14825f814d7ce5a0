use rhai_db::rename::{project_rename_preflight_issues, NamedExport, RenameIssueKind, RenameTarget};
use rhai_db::workspace::{FileId, LocatedModuleExport, ModuleExportEdge, TextRange};

fn export(file: u32, id: u32, name: &str) -> LocatedModuleExport {
    LocatedModuleExport { file_id: FileId(file), export: ModuleExportEdge { export: id, exported_name: Some(name.to_owned()) } }
}

#[test]
fn renaming_an_export_onto_another_export_name_collides() {
    let targets = [
        RenameTarget {
            file_id: FileId(2),
            name: "helper".to_owned(),
            declaration_range: TextRange { start: 3, end: 9 },
            exports: vec![export(2, 0, "helper"), export(2, 1, "helper")],
        },
        RenameTarget {
            file_id: FileId(1),
            name: "other".to_owned(),
            declaration_range: TextRange { start: 0, end: 5 },
            exports: vec![export(1, 0, "tools")],
        },
    ];
    let named = [
        NamedExport { export: export(3, 0, "tools"), identity: Some((FileId(3), 7)) },
        NamedExport { export: export(1, 0, "tools"), identity: Some((FileId(1), 4)) },
    ];
    let issues = project_rename_preflight_issues(&targets, "tools", &named);
    assert_eq!(issues.len(), 1);
    assert_eq!(issues[0].file_id, FileId(2));
    assert_eq!(issues[0].kind, RenameIssueKind::DuplicateDefinition);
    assert_eq!(issues[0].range, TextRange { start: 3, end: 9 });
    assert_eq!(
        issues[0].message,
        "renaming exported symbol `helper` to `tools` would collide with another workspace export"
    );
    assert!(project_rename_preflight_issues(&targets, "fresh", &[]).is_empty());
}
