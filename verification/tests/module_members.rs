use rhai_db::directives::{ExternalSignature, FileCommentDirectives};
use rhai_db::host::{HostConstant, HostFunction, HostFunctionOverload, HostModule};
use rhai_db::module_completions::{
    imported_module_completions, AliasedImport, ExportFacts, ExportIdentity, FileSymbol, ImportedModuleCompletion,
    ImportingFile, LinkedImportFacts, SymbolKind,
};
use rhai_db::ty::{type_eq, FunctionTypeRef, TypeRef};
use rhai_db::workspace::FileId;

fn import(alias: &str, module: &str) -> AliasedImport {
    AliasedImport { alias: Some(alias.to_owned()), module_text: Some(format!("\"{module}\"")) }
}

fn path(parts: &[&str]) -> Vec<String> {
    parts.iter().map(|p| (*p).to_owned()).collect()
}

fn names(cs: &[ImportedModuleCompletion]) -> Vec<String> {
    cs.iter().map(|c| c.name.clone()).collect()
}

fn math_module() -> HostModule {
    HostModule {
        name: "math".to_owned(),
        docs: Some("Maths".to_owned()),
        functions: vec![HostFunction {
            name: "abs".to_owned(),
            overloads: vec![HostFunctionOverload {
                signature: Some(FunctionTypeRef { params: vec![TypeRef::Int], ret: Box::new(TypeRef::Int) }),
                docs: Some("  Absolute value ".to_owned()),
            }],
        }],
        constants: vec![HostConstant { name: "PI".to_owned(), ty: Some(TypeRef::Float), docs: None }],
    }
}

fn workspace() -> Vec<ImportingFile> {
    vec![
        ImportingFile {
            file_id: FileId(1),
            imports: vec![import("net", "net"), import("m", "math"), import("e", "ext")],
            linked_imports: vec![LinkedImportFacts {
                import: 0,
                module_name: "net".to_owned(),
                provider_file_id: FileId(2),
                exports: vec![
                    ExportFacts {
                        file_id: FileId(2),
                        exported_name: Some("connect".to_owned()),
                        identity: Some(ExportIdentity { kind: SymbolKind::Function, symbol: 4 }),
                        annotation: None,
                        docs: Some("Opens".to_owned()),
                    },
                    ExportFacts {
                        file_id: FileId(2),
                        exported_name: None,
                        identity: Some(ExportIdentity { kind: SymbolKind::Variable, symbol: 5 }),
                        annotation: None,
                        docs: None,
                    },
                ],
            }],
        },
        ImportingFile {
            file_id: FileId(2),
            imports: vec![import("util", "util")],
            linked_imports: vec![LinkedImportFacts {
                import: 0,
                module_name: "util".to_owned(),
                provider_file_id: FileId(3),
                exports: Vec::new(),
            }],
        },
    ]
}

#[test]
fn linked_module_offers_its_exports_and_its_own_imports() {
    let files = workspace();
    let cs = imported_module_completions(&files, FileId(1), &path(&["net"]), &[math_module()], None, &[]);
    assert_eq!(names(&cs), vec!["connect", "util"]);
    assert_eq!(cs[0].kind, SymbolKind::Function);
    assert_eq!(cs[0].origin.as_deref(), Some("net"));
    assert_eq!((cs[0].file_id, cs[0].symbol), (Some(FileId(2)), Some(4)));
    assert_eq!(cs[0].docs.as_deref(), Some("Opens"));
    assert_eq!(cs[1].kind, SymbolKind::ImportAlias);
    assert_eq!(cs[1].origin.as_deref(), Some("net::util"));
}

#[test]
fn host_module_alias_offers_functions_and_constants() {
    let files = workspace();
    let cs = imported_module_completions(&files, FileId(1), &path(&["m"]), &[math_module()], None, &[]);
    assert_eq!(names(&cs), vec!["PI", "abs"]);
    assert_eq!(cs[0].kind, SymbolKind::Constant);
    assert_eq!(cs[1].kind, SymbolKind::Function);
    assert_eq!(cs[1].origin.as_deref(), Some("math"));
    assert_eq!(cs[1].docs.as_deref(), Some("Absolute value"));
    let annotation = cs[1].annotation.as_ref().unwrap();
    assert!(type_eq(
        annotation,
        &TypeRef::Function(FunctionTypeRef { params: vec![TypeRef::Int], ret: Box::new(TypeRef::Int) })
    ));
}

#[test]
fn automatic_global_module_offers_file_constants_and_host_modules() {
    let files = workspace();
    let symbols = vec![
        FileSymbol {
            symbol: 0,
            name: "LIMIT".to_owned(),
            kind: SymbolKind::Constant,
            file_scope: true,
            annotation: Some(TypeRef::Int),
            docs: None,
        },
        FileSymbol { symbol: 1, name: "x".to_owned(), kind: SymbolKind::Variable, file_scope: true, annotation: None, docs: None },
    ];
    let cs = imported_module_completions(&files, FileId(1), &path(&["global"]), &[math_module()], None, &symbols);
    assert_eq!(names(&cs), vec!["LIMIT", "math"]);
    assert_eq!(cs[0].file_id, Some(FileId(1)));
    assert_eq!(cs[0].origin.as_deref(), Some("global"));
    assert_eq!(cs[1].kind, SymbolKind::ImportAlias);
    assert_eq!(cs[1].docs.as_deref(), Some("Maths"));

    let members = imported_module_completions(&files, FileId(1), &path(&["global", "math"]), &[math_module()], None, &symbols);
    assert_eq!(names(&members), vec!["PI", "abs"]);
    assert_eq!(members[1].origin.as_deref(), Some("global::math"));
}

#[test]
fn an_import_aliased_global_hides_the_automatic_global_module() {
    let mut files = workspace();
    files[0].imports.push(import("global", "somewhere"));
    let cs = imported_module_completions(&files, FileId(1), &path(&["global"]), &[math_module()], None, &[]);
    assert!(cs.is_empty());
}

#[test]
fn directives_declare_members_of_external_modules() {
    let files = workspace();
    let directives = FileCommentDirectives {
        external_modules: vec!["ext".to_owned()],
        allowed_unresolved_names: Vec::new(),
        allowed_unresolved_imports: Vec::new(),
        external_signatures: vec![
            ExternalSignature {
                name: "ext::run".to_owned(),
                ty: TypeRef::Function(FunctionTypeRef { params: Vec::new(), ret: Box::new(TypeRef::Unit) }),
            },
            ExternalSignature { name: "ext::sub::x".to_owned(), ty: TypeRef::Int },
            ExternalSignature { name: "other::y".to_owned(), ty: TypeRef::Int },
        ],
    };
    let cs = imported_module_completions(&files, FileId(1), &path(&["e"]), &[], Some(&directives), &[]);
    assert_eq!(names(&cs), vec!["run", "sub"]);
    assert_eq!(cs[0].kind, SymbolKind::Function);
    assert!(cs[0].annotation.is_some());
    assert_eq!(cs[1].kind, SymbolKind::ImportAlias);
    assert!(cs[1].annotation.is_none());
    assert_eq!(cs[1].origin.as_deref(), Some("ext"));

    let nested = imported_module_completions(&files, FileId(1), &path(&["e", "sub"]), &[], Some(&directives), &[]);
    assert_eq!(names(&nested), vec!["x"]);
    assert_eq!(nested[0].kind, SymbolKind::Constant);
    assert_eq!(nested[0].origin.as_deref(), Some("ext::sub"));
}
