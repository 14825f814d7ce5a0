use std::collections::HashMap;

use rhai_db::calls::SymbolId;
use rhai_db::expected::{
    propagate_expected_type_to_body_results, propagate_expected_type_to_expr, ExpectedExpr, ExpectedField,
    ExpectedShape,
};
use rhai_db::inference::FileTypeInference;
use rhai_db::ty::{type_eq, FunctionTypeRef, ObjectField, TypeRef};

fn state(slots: usize) -> FileTypeInference {
    FileTypeInference { expr_types: (0..slots).map(|_| None).collect(), symbol_types: HashMap::new() }
}

fn expr(slot: usize, shape: ExpectedShape) -> ExpectedExpr {
    ExpectedExpr { slot, shape }
}

fn slot_is(inference: &FileTypeInference, slot: usize, expected: &TypeRef) -> bool {
    inference.expr_types[slot].as_ref().is_some_and(|t| type_eq(t, expected))
}

fn symbol_is(inference: &FileTypeInference, symbol: u32, expected: &TypeRef) -> bool {
    inference.symbol_types.get(&symbol).is_some_and(|t| type_eq(t, expected))
}

#[test]
fn expected_types_reach_names_and_slots() {
    let mut inference = state(1);
    let name = expr(0, ExpectedShape::Name(Some(SymbolId(1))));
    assert!(propagate_expected_type_to_expr(&mut inference, &name, &TypeRef::Int));
    assert!(symbol_is(&inference, 1, &TypeRef::Int));
    assert!(slot_is(&inference, 0, &TypeRef::Int));
    assert!(!propagate_expected_type_to_expr(&mut inference, &name, &TypeRef::Int));
    let mut settled = state(1);
    settled.expr_types[0] = Some(TypeRef::Float);
    assert!(!propagate_expected_type_to_expr(&mut settled, &expr(0, ExpectedShape::Other), &TypeRef::Int));
    assert!(slot_is(&settled, 0, &TypeRef::Float));
}

#[test]
fn expected_types_reach_array_items_and_object_fields() {
    let mut inference = state(3);
    let array = expr(0, ExpectedShape::Array(vec![expr(1, ExpectedShape::Name(Some(SymbolId(2)))), expr(2, ExpectedShape::Other)]));
    assert!(propagate_expected_type_to_expr(&mut inference, &array, &TypeRef::Array(Box::new(TypeRef::Int))));
    assert!(symbol_is(&inference, 2, &TypeRef::Int));
    assert!(slot_is(&inference, 2, &TypeRef::Int));
    assert!(slot_is(&inference, 0, &TypeRef::Array(Box::new(TypeRef::Int))));

    let mut inference = state(3);
    let object = expr(
        0,
        ExpectedShape::Object(vec![
            ExpectedField { name: "a".to_owned(), value: Some(expr(1, ExpectedShape::Name(Some(SymbolId(3))))) },
            ExpectedField { name: "b".to_owned(), value: Some(expr(2, ExpectedShape::Other)) },
        ]),
    );
    let expected = TypeRef::Object(vec![ObjectField { name: "a".to_owned(), ty: TypeRef::Int }]);
    assert!(propagate_expected_type_to_expr(&mut inference, &object, &expected));
    assert!(symbol_is(&inference, 3, &TypeRef::Int));
    assert!(inference.expr_types[2].is_none());
    assert!(slot_is(&inference, 0, &expected));
}

#[test]
fn expected_types_reach_branches_and_closures() {
    let mut inference = state(3);
    let branches = expr(
        0,
        ExpectedShape::If(Some(Box::new(expr(1, ExpectedShape::Other))), Some(Box::new(expr(2, ExpectedShape::Other)))),
    );
    assert!(propagate_expected_type_to_expr(&mut inference, &branches, &TypeRef::String));
    assert!(slot_is(&inference, 1, &TypeRef::String));
    assert!(slot_is(&inference, 2, &TypeRef::String));

    let mut inference = state(2);
    let closure = expr(0, ExpectedShape::Closure { params: vec![SymbolId(4)], results: vec![expr(1, ExpectedShape::Other)] });
    let signature = FunctionTypeRef { params: vec![TypeRef::Int], ret: Box::new(TypeRef::String) };
    assert!(propagate_expected_type_to_expr(&mut inference, &closure, &TypeRef::Function(signature)));
    assert!(symbol_is(&inference, 4, &TypeRef::Int));
    assert!(slot_is(&inference, 1, &TypeRef::String));
    assert!(slot_is(
        &inference,
        0,
        &TypeRef::Function(FunctionTypeRef { params: vec![TypeRef::Int], ret: Box::new(TypeRef::String) })
    ));

    let mut inference = state(2);
    let results = vec![expr(0, ExpectedShape::Other), expr(1, ExpectedShape::Other)];
    assert!(propagate_expected_type_to_body_results(&mut inference, &results, &TypeRef::Bool));
    assert!(slot_is(&inference, 0, &TypeRef::Bool) && slot_is(&inference, 1, &TypeRef::Bool));
}
