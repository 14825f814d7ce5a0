use rhai_db::hover::join_hover_types;
use rhai_db::lattice::{
    can_refine_with_expected, combine_nullability_refinements, infer_additive_result, infer_numeric_result,
    inferred_object_value_union, join_option_types, join_types, make_ambiguous_type, make_union_exec,
    nullish_only_type, object_type_with_field, strip_nullable_exec, type_has_vague_parts, NullabilityRefinement,
};
use rhai_db::ty::{type_eq, FunctionTypeRef, ObjectField, TypeRef};

fn object(fields: Vec<(&str, TypeRef)>) -> TypeRef {
    TypeRef::Object(fields.into_iter().map(|(name, ty)| ObjectField { name: name.to_owned(), ty }).collect())
}

fn assert_type(actual: &TypeRef, expected: &TypeRef) {
    assert!(type_eq(actual, expected), "expected {expected:?}, got {actual:?}");
}

#[test]
fn join_of_equal_types_is_that_type() {
    let t = TypeRef::Array(Box::new(TypeRef::String));
    assert_type(&join_types(&t, &t), &t);
}

#[test]
fn vague_types_give_way_in_a_join() {
    assert_type(&join_types(&TypeRef::Unknown, &TypeRef::Int), &TypeRef::Int);
    assert_type(&join_types(&TypeRef::Bool, &TypeRef::Never), &TypeRef::Bool);
}

#[test]
fn distinct_types_join_into_a_union() {
    assert_type(&join_types(&TypeRef::Int, &TypeRef::String), &TypeRef::Union(vec![TypeRef::Int, TypeRef::String]));
    let nested = join_types(&TypeRef::Union(vec![TypeRef::Int, TypeRef::String]), &TypeRef::Bool);
    assert_type(&nested, &TypeRef::Union(vec![TypeRef::Int, TypeRef::String, TypeRef::Bool]));
}

#[test]
fn arrays_and_objects_join_element_and_field_wise() {
    let joined = join_types(&TypeRef::Array(Box::new(TypeRef::Unknown)), &TypeRef::Array(Box::new(TypeRef::Int)));
    assert_type(&joined, &TypeRef::Array(Box::new(TypeRef::Int)));

    let left = object(vec![("a", TypeRef::Int), ("c", TypeRef::Bool)]);
    let right = object(vec![("a", TypeRef::String), ("b", TypeRef::Char)]);
    let expected = object(vec![
        ("a", TypeRef::Union(vec![TypeRef::Int, TypeRef::String])),
        ("b", TypeRef::Char),
        ("c", TypeRef::Bool),
    ]);
    assert_type(&join_types(&left, &right), &expected);
}

#[test]
fn ambiguity_sets_absorb_joined_types() {
    let set = TypeRef::Ambiguous(vec![TypeRef::Int, TypeRef::String]);
    assert_type(&join_types(&set, &TypeRef::Bool), &TypeRef::Ambiguous(vec![TypeRef::Int, TypeRef::String, TypeRef::Bool]));
    assert_type(&make_ambiguous_type(vec![TypeRef::Int, TypeRef::Int]), &TypeRef::Int);
}

#[test]
fn unions_keep_known_array_elements_over_unknown_ones() {
    let union = make_union_exec(&TypeRef::Array(Box::new(TypeRef::Unknown)), &TypeRef::Array(Box::new(TypeRef::Int)));
    assert_type(&union, &TypeRef::Array(Box::new(TypeRef::Int)));
}

#[test]
fn optional_joins_and_numeric_results() {
    assert!(join_option_types(None, None).is_none());
    assert_type(&join_option_types(Some(&TypeRef::Int), None).unwrap(), &TypeRef::Int);
    assert_type(&infer_numeric_result(Some(&TypeRef::Int), Some(&TypeRef::Int)).unwrap(), &TypeRef::Int);
    assert_type(&infer_numeric_result(Some(&TypeRef::Int), Some(&TypeRef::Float)).unwrap(), &TypeRef::Float);
    assert!(infer_numeric_result(Some(&TypeRef::Int), Some(&TypeRef::String)).is_none());
    assert_type(
        &infer_additive_result(Some(&TypeRef::String), Some(&TypeRef::String)).unwrap(),
        &TypeRef::String,
    );
}

#[test]
fn vague_parts_are_found_inside_containers() {
    assert!(type_has_vague_parts(&TypeRef::Array(Box::new(TypeRef::Unknown))));
    assert!(type_has_vague_parts(&object(vec![("x", TypeRef::Never)])));
    assert!(!type_has_vague_parts(&TypeRef::Array(Box::new(TypeRef::Int))));
    let f = TypeRef::Function(FunctionTypeRef { params: vec![TypeRef::Int], ret: Box::new(TypeRef::FnPtr) });
    assert!(type_has_vague_parts(&f));
}

#[test]
fn refinement_accepts_more_precise_expectations() {
    assert!(can_refine_with_expected(&TypeRef::Unknown, &TypeRef::Int));
    assert!(!can_refine_with_expected(&TypeRef::Int, &TypeRef::Int));
}

#[test]
fn nullable_and_unit_members_are_separated() {
    let t = TypeRef::Union(vec![TypeRef::Int, TypeRef::Unit]);
    assert_type(&strip_nullable_exec(&t), &TypeRef::Int);
    assert_type(&strip_nullable_exec(&TypeRef::Nullable(Box::new(TypeRef::String))), &TypeRef::String);
    assert_type(&nullish_only_type(&t).unwrap(), &TypeRef::Unit);
    assert!(nullish_only_type(&TypeRef::Int).is_none());
}

#[test]
fn nullability_refinements_combine_when_they_agree() {
    assert_eq!(
        combine_nullability_refinements(Some(NullabilityRefinement::NonNull), Some(NullabilityRefinement::NonNull)),
        Some(NullabilityRefinement::NonNull)
    );
    assert_eq!(
        combine_nullability_refinements(Some(NullabilityRefinement::NonNull), Some(NullabilityRefinement::NullOnly)),
        None
    );
    assert_eq!(
        combine_nullability_refinements(None, Some(NullabilityRefinement::NullOnly)),
        Some(NullabilityRefinement::NullOnly)
    );
}

#[test]
fn object_values_join_in_field_order() {
    let fields = vec![
        ObjectField { name: "a".to_owned(), ty: TypeRef::Int },
        ObjectField { name: "b".to_owned(), ty: TypeRef::String },
    ];
    assert_type(&inferred_object_value_union(&fields).unwrap(), &TypeRef::Union(vec![TypeRef::Int, TypeRef::String]));
    assert!(inferred_object_value_union(&Vec::new()).is_none());
    assert_type(&object_type_with_field("k", TypeRef::Bool), &object(vec![("k", TypeRef::Bool)]));
}

#[test]
fn hover_join_unions_each_distinct_member_once() {
    let union = TypeRef::Union(vec![TypeRef::Int, TypeRef::String]);
    assert_type(&join_hover_types(&union, &TypeRef::Int), &union);
    let ambiguous = TypeRef::Ambiguous(vec![TypeRef::Bool, TypeRef::Int]);
    assert_type(&join_hover_types(&ambiguous, &TypeRef::String), &TypeRef::Union(vec![TypeRef::Bool, TypeRef::Int, TypeRef::String]));
}

#[test]
fn hover_join_merges_objects_and_nullables() {
    let left = object(vec![("a", TypeRef::Int)]);
    let right = object(vec![("a", TypeRef::Unknown), ("b", TypeRef::Bool)]);
    assert_type(&join_hover_types(&left, &right), &object(vec![("a", TypeRef::Int), ("b", TypeRef::Bool)]));
    let joined = join_hover_types(&TypeRef::Nullable(Box::new(TypeRef::Int)), &TypeRef::Nullable(Box::new(TypeRef::String)));
    assert_type(&joined, &TypeRef::Nullable(Box::new(TypeRef::Union(vec![TypeRef::Int, TypeRef::String]))));
}

#[test]
fn hover_join_of_vague_and_equal_types() {
    assert_type(&join_hover_types(&TypeRef::Never, &TypeRef::Char), &TypeRef::Char);
    assert_type(&join_hover_types(&TypeRef::Blob, &TypeRef::Blob), &TypeRef::Blob);
}
