use rhai_db::receiver::{
    incomplete_member_dot_offset, incomplete_member_receiver_expr, incomplete_member_receiver_name, longest_range_ending_at,
};
use rhai_db::workspace::TextRange;
use rhai_db::host::{host_function_annotation, host_function_docs, method_docs, HostFunction, HostFunctionOverload};
use rhai_db::ty::{type_eq, FunctionTypeRef, TypeRef};
use rhai_db::paths::{auto_import_module_name, module_name_looks_path_like, source_root_index_for_path, strip_rhai_extension};
use rhai_db::text::{
    auto_import_alias, auto_import_alias_for_module, auto_import_cost, clamp_to_char_boundary, decimal_string,
    is_identifier_byte, parse_static_import_module_name, to_ascii_lowercase, trim_text, unquote_string_index_literal,
    unquote_string_literal,
};

fn overloads(docs: &[Option<&str>]) -> HostFunction {
    HostFunction {
        name: "f".to_owned(),
        overloads: docs
            .iter()
            .map(|d| HostFunctionOverload { signature: None, docs: d.map(|s| s.to_owned()) })
            .collect(),
    }
}

#[test]
fn static_import_module_names_are_unquoted() {
    assert_eq!(parse_static_import_module_name("\"crypto\"").as_deref(), Some("crypto"));
    assert_eq!(parse_static_import_module_name("`tools/net`").as_deref(), Some("tools/net"));
    assert_eq!(parse_static_import_module_name("r#\"raw\"#").as_deref(), Some("raw"));
    assert_eq!(parse_static_import_module_name("r\"plain\"").as_deref(), Some("plain"));
    assert_eq!(parse_static_import_module_name("crypto"), None);
    assert_eq!(parse_static_import_module_name("\""), None);
    assert_eq!(parse_static_import_module_name("r#\"raw\""), None);
}

#[test]
fn string_literals_are_unquoted() {
    assert_eq!(unquote_string_literal("\"name\""), Some("name"));
    assert_eq!(unquote_string_literal("name"), None);
    assert_eq!(unquote_string_index_literal("\"\""), Some(""));
}

#[test]
fn identifier_bytes_and_char_boundaries() {
    assert!(is_identifier_byte(b'_'));
    assert!(is_identifier_byte(b'Z'));
    assert!(!is_identifier_byte(b'-'));
    assert_eq!(clamp_to_char_boundary("héllo", 2), 1);
    assert_eq!(clamp_to_char_boundary("héllo", 3), 3);
    assert_eq!(clamp_to_char_boundary("héllo", 40), 6);
}

#[test]
fn auto_import_aliases_avoid_taken_names() {
    assert_eq!(auto_import_alias("tools/net/http"), "http");
    assert_eq!(auto_import_alias("tools/"), "tools/");
    assert_eq!(auto_import_alias_for_module("tools/http", &[]), "http");
    assert_eq!(auto_import_alias_for_module("tools/http", &["http".to_owned(), "http_1".to_owned()]), "http_2");
    assert_eq!(auto_import_cost("a//b/c"), 2);
    assert_eq!(auto_import_cost("a/b/c/d/e/f/g/h/i"), 6);
    assert_eq!(decimal_string(1024), "1024");
}

#[test]
fn module_paths_for_auto_imports() {
    assert_eq!(strip_rhai_extension("dir/mod.rhai"), "dir/mod");
    assert_eq!(strip_rhai_extension("dir/mod.txt"), "dir/mod.txt");
    assert_eq!(auto_import_module_name("src/main.rhai", "src/lib/tools.rhai").as_deref(), Some("lib/tools"));
    assert_eq!(auto_import_module_name("main.rhai", "tools.rhai").as_deref(), Some("tools"));
    assert!(module_name_looks_path_like("./x"));
    assert!(module_name_looks_path_like("x.rhai"));
    assert!(!module_name_looks_path_like("crypto"));
}

#[test]
fn source_roots_claim_the_files_beneath_them() {
    let roots = ["workspace/scripts".to_owned(), "workspace/src".to_owned()];
    assert_eq!(source_root_index_for_path("workspace/src/main.rhai", &roots), Some(1));
    assert_eq!(source_root_index_for_path("workspace/srcs/main.rhai", &roots), None);
    assert_eq!(source_root_index_for_path("workspace/tests/test.rhai", &roots), None);
}

#[test]
fn host_docs_merge_distinct_trimmed_texts_in_order() {
    let f = overloads(&[Some(" b doc "), Some("a doc"), None, Some("a doc"), Some("   ")]);
    assert_eq!(host_function_docs(&f).as_deref(), Some("a doc\n\nb doc"));
    assert_eq!(method_docs(&overloads(&[None, Some(" ")])), None);
}

#[test]
fn trimming_removes_surrounding_whitespace() {
    assert_eq!(trim_text("  \tvalue \n"), "value");
    assert_eq!(trim_text("   "), "");
}

#[test]
fn member_receivers_are_read_back_from_the_cursor() {
    assert_eq!(incomplete_member_receiver_name("let x = 1;\nx.", 13).as_deref(), Some("x"));
    assert_eq!(incomplete_member_receiver_name("foo  .ba", 8).as_deref(), Some("foo"));
    assert_eq!(incomplete_member_receiver_name("foo.bar", 5).as_deref(), Some("foo"));
    assert_eq!(incomplete_member_receiver_name("foo.bar", 100).as_deref(), Some("foo"));
    assert_eq!(incomplete_member_receiver_name("(1).", 4), None);
    assert_eq!(incomplete_member_receiver_name("foo", 3), None);
    assert_eq!(incomplete_member_receiver_name("\u{e9}.x", 4), None);
    assert_eq!(incomplete_member_receiver_name("a\u{e9}b.x", 6).as_deref(), Some("b"));
}

#[test]
fn member_access_dots_and_receiver_expressions() {
    assert_eq!(incomplete_member_dot_offset("abc.de", 6), Some(3));
    assert_eq!(incomplete_member_dot_offset("abc de", 6), None);
    let ranges = [
        TextRange { start: 0, end: 1 },
        TextRange { start: 0, end: 3 },
        TextRange { start: 2, end: 3 },
    ];
    assert_eq!(incomplete_member_receiver_expr("a.b.c", 5, &ranges), Some(1));
    assert_eq!(incomplete_member_receiver_expr("a.b c", 5, &ranges), None);
    let tied = [TextRange { start: 0, end: 3 }, TextRange { start: 0, end: 3 }];
    assert_eq!(longest_range_ending_at(&tied, 3), Some(1));
    assert_eq!(longest_range_ending_at(&tied, 4), None);
}

#[test]
fn a_host_function_is_annotated_only_with_a_single_signature() {
    let sig = |ret: TypeRef| Some(FunctionTypeRef { params: vec![TypeRef::Int], ret: Box::new(ret) });
    let one = HostFunction {
        name: "f".to_owned(),
        overloads: vec![
            HostFunctionOverload { signature: None, docs: None },
            HostFunctionOverload { signature: sig(TypeRef::Bool), docs: None },
        ],
    };
    let annotation = host_function_annotation(&one).expect("an annotation");
    assert!(type_eq(
        &annotation,
        &TypeRef::Function(FunctionTypeRef { params: vec![TypeRef::Int], ret: Box::new(TypeRef::Bool) })
    ));
    let two = HostFunction {
        name: "g".to_owned(),
        overloads: vec![
            HostFunctionOverload { signature: sig(TypeRef::Bool), docs: None },
            HostFunctionOverload { signature: sig(TypeRef::Int), docs: None },
        ],
    };
    assert!(host_function_annotation(&two).is_none());
    let none = HostFunction { name: "h".to_owned(), overloads: Vec::new() };
    assert!(host_function_annotation(&none).is_none());
}

#[test]
fn ascii_lowercase_maps_only_ascii_capitals() {
    assert_eq!(to_ascii_lowercase("Shared_TOOLS"), "shared_tools");
    assert_eq!(to_ascii_lowercase("AZaz@[`{09"), "azaz@[`{09");
    assert_eq!(to_ascii_lowercase("ÄÖ Straße"), "ÄÖ straße");
    assert_eq!(to_ascii_lowercase(""), "");
}
