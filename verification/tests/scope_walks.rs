use rhai_db::scopes::{enclosing_function_scope, resolve_name_in_outer_scopes, ScopeData, ScopeSymbol};

fn scope(is_function: bool, parent: Option<u32>, symbols: Vec<u32>) -> ScopeData {
    ScopeData { is_function, parent, symbols }
}

fn symbol(name: &str, start: u32) -> ScopeSymbol {
    ScopeSymbol { name: name.to_owned(), start }
}

#[test]
fn the_function_scope_is_found_walking_up() {
    let scopes = [scope(false, None, vec![]), scope(true, Some(0), vec![]), scope(false, Some(1), vec![]), scope(false, Some(2), vec![])];
    assert_eq!(enclosing_function_scope(&scopes, 3), Some(1));
    assert_eq!(enclosing_function_scope(&scopes, 1), Some(1));
    assert_eq!(enclosing_function_scope(&scopes, 0), None);
    let cyclic = [scope(false, Some(1), vec![]), scope(false, Some(0), vec![])];
    assert_eq!(enclosing_function_scope(&cyclic, 0), None);
}

#[test]
fn names_resolve_to_the_latest_visible_declaration_outward() {
    let symbols = [symbol("x", 0), symbol("x", 10), symbol("y", 30), symbol("x", 40)];
    let scopes = [scope(false, None, vec![0, 1]), scope(true, Some(0), vec![2, 3])];
    assert_eq!(resolve_name_in_outer_scopes(&scopes, &symbols, 1, "x", 50), Some(3));
    assert_eq!(resolve_name_in_outer_scopes(&scopes, &symbols, 1, "x", 20), Some(1));
    assert_eq!(resolve_name_in_outer_scopes(&scopes, &symbols, 1, "x", 5), Some(0));
    assert_eq!(resolve_name_in_outer_scopes(&scopes, &symbols, 1, "z", 50), None);
    assert_eq!(resolve_name_in_outer_scopes(&scopes, &symbols, 0, "y", 50), None);
}
