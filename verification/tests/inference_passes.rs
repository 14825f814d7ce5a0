use std::collections::HashMap;

use rhai_db::calls::SymbolId;
use rhai_db::inference::{
    call_argument_types, caller_scope_dispatches_via_first_arg, effective_arg_types_for_call,
    effective_call_argument_types, inferred_expr_type, merge_expr_type, merge_expr_type_if_refinable, merge_symbol_type,
    merge_symbol_type_if_refinable, propagate_for_binding_types, propagate_symbol_mutations, propagate_value_flows,
    set_expr_type, set_symbol_type, should_overwrite_symbol_from_single_flow, FileTypeInference, ForLoopEdge,
    MutationEdge, SymbolFacts, ValueFlowEdge,
};
use rhai_db::expr_types::{
    infer_array_expr_type, infer_literal_expr_type, infer_object_expr_type, infer_switch_expr_type,
    join_expr_types, join_function_signatures, LiteralKind, ObjectFieldInit,
};
use rhai_db::mutation::PathSegment;
use rhai_db::ty::{type_eq, types_eq, FunctionTypeRef, ObjectField, TypeRef};

fn state(slots: Vec<Option<TypeRef>>) -> FileTypeInference {
    FileTypeInference { expr_types: slots, symbol_types: HashMap::new() }
}

fn symbol_type(inference: &FileTypeInference, symbol: u32) -> &TypeRef {
    inference.symbol_types.get(&symbol).expect("a symbol type")
}

fn binding() -> SymbolFacts {
    SymbolFacts { has_declared_type: false, is_variable_or_constant: true, has_mutations: false }
}

#[test]
fn merging_joins_and_reports_changes() {
    let mut inference = state(vec![None]);
    assert!(merge_symbol_type(&mut inference, SymbolId(1), TypeRef::Int));
    assert!(!merge_symbol_type(&mut inference, SymbolId(1), TypeRef::Int));
    assert!(merge_symbol_type(&mut inference, SymbolId(1), TypeRef::String));
    assert!(type_eq(symbol_type(&inference, 1), &TypeRef::Union(vec![TypeRef::Int, TypeRef::String])));
    assert!(set_symbol_type(&mut inference, SymbolId(1), TypeRef::Bool));
    assert!(!set_symbol_type(&mut inference, SymbolId(1), TypeRef::Bool));
    assert!(type_eq(symbol_type(&inference, 1), &TypeRef::Bool));
}

#[test]
fn slots_merge_set_and_refine() {
    let mut inference = state(vec![None, Some(TypeRef::Int)]);
    assert!(merge_expr_type(&mut inference, 0, TypeRef::Char));
    assert!(!merge_expr_type(&mut inference, 0, TypeRef::Char));
    assert!(set_expr_type(&mut inference, 1, TypeRef::Float));
    assert!(type_eq(&inferred_expr_type(&inference, 1).expect("a type"), &TypeRef::Float));
    assert!(!merge_expr_type_if_refinable(&mut inference, 1, TypeRef::String));
    assert!(type_eq(&inferred_expr_type(&inference, 1).expect("a type"), &TypeRef::Float));
    let mut unknown = state(vec![Some(TypeRef::Unknown)]);
    assert!(merge_expr_type_if_refinable(&mut unknown, 0, TypeRef::Int));
    assert!(type_eq(&inferred_expr_type(&unknown, 0).expect("a type"), &TypeRef::Int));
    let mut symbols = state(Vec::new());
    assert!(merge_symbol_type_if_refinable(&mut symbols, SymbolId(4), TypeRef::Int));
    assert!(!merge_symbol_type_if_refinable(&mut symbols, SymbolId(4), TypeRef::String));
}

#[test]
fn a_single_value_flow_overwrites_a_plain_binding() {
    let flows = [
        ValueFlowEdge { symbol: SymbolId(0), expr: 3, slot: 0 },
        ValueFlowEdge { symbol: SymbolId(1), expr: 4, slot: 1 },
        ValueFlowEdge { symbol: SymbolId(1), expr: 5, slot: 2 },
    ];
    assert!(should_overwrite_symbol_from_single_flow(&flows, SymbolId(0), 3, &binding(), true));
    assert!(!should_overwrite_symbol_from_single_flow(&flows, SymbolId(0), 3, &binding(), false));
    assert!(!should_overwrite_symbol_from_single_flow(&flows, SymbolId(1), 4, &binding(), true));
    let declared = SymbolFacts { has_declared_type: true, ..binding() };
    assert!(!should_overwrite_symbol_from_single_flow(&flows, SymbolId(0), 3, &declared, true));
}

#[test]
fn value_flows_replace_or_join_symbol_types() {
    let flows = [
        ValueFlowEdge { symbol: SymbolId(0), expr: 0, slot: 0 },
        ValueFlowEdge { symbol: SymbolId(1), expr: 1, slot: 1 },
        ValueFlowEdge { symbol: SymbolId(1), expr: 2, slot: 2 },
        ValueFlowEdge { symbol: SymbolId(1), expr: 3, slot: 3 },
    ];
    let mut inference = state(vec![Some(TypeRef::Int), Some(TypeRef::Int), Some(TypeRef::String), None]);
    inference.symbol_types.insert(0, TypeRef::Bool);
    let facts = [binding(), binding()];
    let forms = [true, true, true, true];
    assert!(propagate_value_flows(&flows, &facts, &forms, &mut inference));
    assert!(type_eq(symbol_type(&inference, 0), &TypeRef::Int));
    assert!(type_eq(symbol_type(&inference, 1), &TypeRef::Union(vec![TypeRef::Int, TypeRef::String])));
    assert!(!propagate_value_flows(&flows, &facts, &forms, &mut inference));
}

#[test]
fn writes_through_paths_and_loops_feed_symbol_types() {
    let mut inference = state(vec![Some(TypeRef::Int), Some(TypeRef::Array(Box::new(TypeRef::String)))]);
    let mutations = [MutationEdge {
        symbol: SymbolId(2),
        value_slot: 0,
        segments: vec![PathSegment::Field { name: "count".to_owned() }],
    }];
    assert!(propagate_symbol_mutations(&mutations, &mut inference));
    assert!(type_eq(
        symbol_type(&inference, 2),
        &TypeRef::Object(vec![ObjectField { name: "count".to_owned(), ty: TypeRef::Int }])
    ));
    let loops = [
        ForLoopEdge { iterable_slot: Some(1), bindings: vec![SymbolId(5), SymbolId(6)] },
        ForLoopEdge { iterable_slot: None, bindings: vec![SymbolId(7)] },
    ];
    assert!(propagate_for_binding_types(&loops, &mut inference));
    assert!(type_eq(symbol_type(&inference, 5), &TypeRef::String));
    assert!(type_eq(symbol_type(&inference, 6), &TypeRef::Int));
    assert!(inference.symbol_types.get(&7).is_none());
    assert!(!propagate_for_binding_types(&loops, &mut inference));
}

fn kinds(types: &[Option<TypeRef>]) -> Vec<&'static str> {
    types
        .iter()
        .map(|t| match t {
            Some(TypeRef::Int) => "int",
            Some(TypeRef::String) => "string",
            Some(_) => "other",
            None => "none",
        })
        .collect()
}

#[test]
fn call_arguments_skip_the_dispatching_first_one() {
    let inference = state(vec![Some(TypeRef::Int), None, Some(TypeRef::String)]);
    assert_eq!(kinds(&call_argument_types(&inference, &[2, 1, 0])), vec!["string", "none", "int"]);
    assert!(caller_scope_dispatches_via_first_arg(true, Some("call")));
    assert!(!caller_scope_dispatches_via_first_arg(false, Some("call")));
    assert!(!caller_scope_dispatches_via_first_arg(true, Some("other")));
    assert_eq!(kinds(&effective_call_argument_types(&inference, &[0, 2], true)), vec!["string"]);
    assert_eq!(kinds(&effective_call_argument_types(&inference, &[0, 2], false)), vec!["int", "string"]);
    assert!(effective_call_argument_types(&inference, &[], true).is_empty());
    let given = [Some(TypeRef::String), Some(TypeRef::Int)];
    let checked = effective_arg_types_for_call(&inference, &[0, 2], true, Some(&given)).expect("types");
    assert_eq!(kinds(&checked), vec!["int"]);
    let partial = effective_arg_types_for_call(&inference, &[0, 2, 1], true, Some(&given)).expect("types");
    assert_eq!(kinds(&partial), vec!["string", "int"]);
    let passed = effective_arg_types_for_call(&inference, &[0, 2], true, None).expect("types");
    assert_eq!(kinds(&passed), vec!["string"]);
}

fn field(name: &str, ty: TypeRef) -> ObjectField {
    ObjectField { name: name.to_owned(), ty }
}

#[test]
fn literal_array_and_switch_types() {
    assert!(type_eq(&infer_literal_expr_type(Some(LiteralKind::String)).expect("a type"), &TypeRef::String));
    assert!(type_eq(&infer_literal_expr_type(Some(LiteralKind::Bool)).expect("a type"), &TypeRef::Bool));
    assert!(infer_literal_expr_type(None).is_none());
    let inference = state(vec![Some(TypeRef::Int), None, Some(TypeRef::String)]);
    assert!(type_eq(
        &infer_array_expr_type(&inference, &[0, 1, 2]),
        &TypeRef::Array(Box::new(TypeRef::Union(vec![TypeRef::Int, TypeRef::String])))
    ));
    assert!(type_eq(&infer_array_expr_type(&inference, &[1]), &TypeRef::Array(Box::new(TypeRef::Unknown))));
    assert!(type_eq(&infer_switch_expr_type(&inference, &[1, 0]).expect("a type"), &TypeRef::Int));
    assert!(infer_switch_expr_type(&inference, &[1]).is_none());
    assert!(type_eq(&join_expr_types(&inference, None, Some(2)).expect("a type"), &TypeRef::String));
    assert!(join_expr_types(&inference, Some(1), None).is_none());
}

#[test]
fn object_literals_sort_and_join_their_fields() {
    let inference = state(vec![Some(TypeRef::Int), Some(TypeRef::String)]);
    let fields = [
        ObjectFieldInit { name: "b".to_owned(), value_slot: Some(0) },
        ObjectFieldInit { name: "a".to_owned(), value_slot: None },
        ObjectFieldInit { name: "b".to_owned(), value_slot: Some(1) },
    ];
    let expected = TypeRef::Object(vec![
        field("a", TypeRef::Unknown),
        field("b", TypeRef::Union(vec![TypeRef::Int, TypeRef::String])),
    ]);
    assert!(type_eq(&infer_object_expr_type(&inference, &fields), &expected));
}

#[test]
fn signatures_join_pointwise_when_arities_match() {
    let left = FunctionTypeRef { params: vec![TypeRef::Int], ret: Box::new(TypeRef::Unknown) };
    let right = FunctionTypeRef { params: vec![TypeRef::String], ret: Box::new(TypeRef::Bool) };
    let joined = join_function_signatures(left, right);
    assert!(types_eq(&joined.params, &vec![TypeRef::Union(vec![TypeRef::Int, TypeRef::String])]));
    assert!(type_eq(&joined.ret, &TypeRef::Bool));
    let unary = FunctionTypeRef { params: vec![TypeRef::Int], ret: Box::new(TypeRef::Int) };
    let nullary = FunctionTypeRef { params: vec![], ret: Box::new(TypeRef::String) };
    let kept = join_function_signatures(unary, nullary);
    assert_eq!(kept.params.len(), 1);
    assert!(type_eq(&kept.ret, &TypeRef::Int));
}
