use rhai_db::calls::{callable_targets_for_expr, CalleeExpr};
use rhai_db::calls::{
    dedup_callable_targets, expected_object_field_type, for_binding_types_from_iterable,
    callable_targets_for_call, join_callable_target_signatures, loop_binding_types, merge_member_annotation,
    select_best_callable_targets, CallTargetSources, CallableTarget, SymbolId,
};
use rhai_db::generics::{
    collect_signature_generic_names, is_generic_type_parameter, specialize_signature_with_arg_types,
    specialize_signature_with_receiver_and_arg_types,
};
use rhai_db::host::{HostFunction, HostFunctionOverload, HostType};
use rhai_db::mutation::{
    matches_top_level_field_segment, nested_mutation_container_type, path_segment_read_type,
    read_type_from_segments, PathSegment,
};
use rhai_db::signatures::{
    has_informative_arg_types, host_method_signature_for_name, join_binding_type_sets,
    merge_function_candidate_signatures, receiver_dispatch_is_precise, receiver_matches_method_type,
    signature_from_type, specialized_builtin_method_signature, type_supports_field_method_ambiguity,
};
use rhai_db::ty::{type_eq, types_eq, FunctionTypeRef, ObjectField, TypeRef};

fn sig(params: Vec<TypeRef>, ret: TypeRef) -> FunctionTypeRef {
    FunctionTypeRef { params, ret: Box::new(ret) }
}

fn named(name: &str) -> TypeRef {
    TypeRef::Named(name.to_owned())
}

fn object(fields: Vec<(&str, TypeRef)>) -> TypeRef {
    TypeRef::Object(fields.into_iter().map(|(name, ty)| ObjectField { name: name.to_owned(), ty }).collect())
}

fn assert_type(actual: &TypeRef, expected: &TypeRef) {
    assert!(type_eq(actual, expected), "expected {expected:?}, got {actual:?}");
}

fn assert_sig(actual: &FunctionTypeRef, expected: &FunctionTypeRef) {
    assert!(
        types_eq(&actual.params, &expected.params) && type_eq(&actual.ret, &expected.ret),
        "expected {expected:?}, got {actual:?}"
    );
}

fn assert_types(actual: &Vec<TypeRef>, expected: &Vec<TypeRef>) {
    assert!(types_eq(actual, expected), "expected {expected:?}, got {actual:?}");
}

#[test]
fn candidate_signatures_merge_into_ambiguity_sets() {
    let merged = merge_function_candidate_signatures(
        vec![sig(vec![TypeRef::Int], TypeRef::Int), sig(vec![TypeRef::String], TypeRef::Bool)],
        None,
    )
    .unwrap();
    assert_sig(
        &merged,
        &sig(
            vec![TypeRef::Ambiguous(vec![TypeRef::Int, TypeRef::String])],
            TypeRef::Ambiguous(vec![TypeRef::Int, TypeRef::Bool]),
        ),
    );
}

#[test]
fn candidate_signatures_filter_by_arity_and_refuse_mixed_arity() {
    let sigs = || vec![sig(vec![TypeRef::Int], TypeRef::Int), sig(vec![], TypeRef::Bool)];
    assert_sig(&merge_function_candidate_signatures(sigs(), Some(0)).unwrap(), &sig(vec![], TypeRef::Bool));
    assert!(merge_function_candidate_signatures(sigs(), None).is_none());
    assert!(merge_function_candidate_signatures(sigs(), Some(3)).is_none());
    assert!(merge_function_candidate_signatures(Vec::new(), None).is_none());
}

#[test]
fn signatures_are_read_off_function_and_ambiguous_types() {
    let f = TypeRef::Function(sig(vec![TypeRef::Int], TypeRef::String));
    assert_sig(&signature_from_type(&f, None, &[]).unwrap(), &sig(vec![TypeRef::Int], TypeRef::String));
    assert!(signature_from_type(&f, Some(&[None, None]), &[]).is_none());
    assert!(signature_from_type(&TypeRef::Int, None, &[]).is_none());
    let g = TypeRef::Function(sig(vec![TypeRef::Bool], TypeRef::String));
    let both = TypeRef::Ambiguous(vec![f, g]);
    assert_sig(
        &signature_from_type(&both, None, &[]).unwrap(),
        &sig(vec![TypeRef::Ambiguous(vec![TypeRef::Int, TypeRef::Bool])], TypeRef::String),
    );
}

#[test]
fn builtin_array_and_map_methods_have_specialised_signatures() {
    let array = TypeRef::Array(Box::new(TypeRef::Int));
    assert_sig(
        &specialized_builtin_method_signature(&array, "get", None).unwrap(),
        &sig(vec![TypeRef::Int], TypeRef::Union(vec![TypeRef::Int, TypeRef::Unit])),
    );
    assert_sig(
        &specialized_builtin_method_signature(&array, "push", Some(&[None])).unwrap(),
        &sig(vec![TypeRef::Int], TypeRef::Unit),
    );
    assert!(specialized_builtin_method_signature(&array, "push", Some(&[None, None])).is_none());
    assert_sig(
        &specialized_builtin_method_signature(&array, "index_of", Some(&[None, None])).unwrap(),
        &sig(vec![TypeRef::Int, TypeRef::Int], TypeRef::Int),
    );
    let map = TypeRef::Dict(Box::new(TypeRef::String), Box::new(TypeRef::Bool));
    assert_sig(
        &specialized_builtin_method_signature(&map, "values", Some(&[])).unwrap(),
        &sig(vec![], TypeRef::Array(Box::new(TypeRef::Bool))),
    );
    let obj = object(vec![("a", TypeRef::Int), ("b", TypeRef::Int)]);
    assert_sig(
        &specialized_builtin_method_signature(&obj, "set", None).unwrap(),
        &sig(vec![TypeRef::String, TypeRef::Int], TypeRef::Unit),
    );
    assert!(specialized_builtin_method_signature(&TypeRef::Int, "get", None).is_none());
}

#[test]
fn receivers_match_declared_method_types() {
    let widget_of_int = TypeRef::Applied { name: "Widget".to_owned(), args: vec![TypeRef::Int] };
    assert!(receiver_matches_method_type(&widget_of_int, &named("Widget")));
    assert!(receiver_matches_method_type(&named("Widget"), &widget_of_int));
    assert!(!receiver_matches_method_type(&named("Widget"), &named("Gadget")));
    assert!(receiver_matches_method_type(&TypeRef::Unknown, &named("Gadget")));
    assert!(receiver_matches_method_type(&TypeRef::Union(vec![TypeRef::Int, named("Gadget")]), &named("Gadget")));
    let widget_of_string = TypeRef::Applied { name: "Widget".to_owned(), args: vec![TypeRef::String] };
    assert!(!receiver_matches_method_type(&widget_of_int, &widget_of_string));
    assert!(receiver_dispatch_is_precise(&named("Widget")));
    assert!(!receiver_dispatch_is_precise(&TypeRef::Union(vec![TypeRef::Int])));
}

#[test]
fn maps_and_objects_support_field_method_ambiguity() {
    assert!(type_supports_field_method_ambiguity(&object(vec![])));
    assert!(type_supports_field_method_ambiguity(&TypeRef::Nullable(Box::new(TypeRef::Dict(
        Box::new(TypeRef::String),
        Box::new(TypeRef::Int)
    )))));
    assert!(type_supports_field_method_ambiguity(&TypeRef::Union(vec![TypeRef::Int, object(vec![])])));
    assert!(!type_supports_field_method_ambiguity(&TypeRef::Array(Box::new(TypeRef::Int))));
}

#[test]
fn informative_argument_types_say_more_than_anything() {
    assert!(!has_informative_arg_types(&[None, Some(TypeRef::Unknown), Some(TypeRef::Any)]));
    assert!(has_informative_arg_types(&[None, Some(TypeRef::Int)]));
}

#[test]
fn binding_type_sets_join_position_by_position() {
    let joined = join_binding_type_sets(vec![TypeRef::Int, TypeRef::Bool], vec![TypeRef::String]);
    assert_types(&joined, &vec![TypeRef::Union(vec![TypeRef::Int, TypeRef::String]), TypeRef::Bool]);
}

#[test]
fn host_methods_are_specialised_to_the_receiver_and_best_overloads() {
    let widget = HostType {
        name: "Widget".to_owned(),
        generic_params: vec!["T".to_owned()],
        docs: None,
        methods: vec![HostFunction {
            name: "put".to_owned(),
            overloads: vec![
                HostFunctionOverload { signature: Some(sig(vec![named("T")], named("T"))), docs: None },
                HostFunctionOverload { signature: Some(sig(vec![TypeRef::String], TypeRef::Bool)), docs: None },
                HostFunctionOverload { signature: None, docs: None },
            ],
        }],
    };
    let hosts = [widget];
    let receiver = TypeRef::Applied { name: "Widget".to_owned(), args: vec![TypeRef::Int] };
    let picked = host_method_signature_for_name(&receiver, "Widget", "put", &hosts, Some(&[Some(TypeRef::Int)])).unwrap();
    assert_sig(&picked, &sig(vec![TypeRef::Int], TypeRef::Int));
    let both = host_method_signature_for_name(&receiver, "Widget", "put", &hosts, None).unwrap();
    assert_sig(
        &both,
        &sig(
            vec![TypeRef::Ambiguous(vec![TypeRef::Int, TypeRef::String])],
            TypeRef::Ambiguous(vec![TypeRef::Int, TypeRef::Bool]),
        ),
    );
    assert!(host_method_signature_for_name(&receiver, "Widget", "take", &hosts, None).is_none());
    assert!(host_method_signature_for_name(&receiver, "Gadget", "put", &hosts, None).is_none());
}

#[test]
fn generic_parameters_are_bound_from_arguments() {
    let hosts: [HostType; 0] = [];
    assert!(is_generic_type_parameter("T", &hosts));
    assert!(!is_generic_type_parameter("int", &hosts));
    let signature = sig(vec![named("T")], TypeRef::Array(Box::new(named("T"))));
    assert_eq!(collect_signature_generic_names(&signature, &hosts), vec!["T".to_owned()]);
    let specialised = specialize_signature_with_arg_types(&signature, Some(&[Some(TypeRef::Int)]), &hosts);
    assert_sig(&specialised, &sig(vec![TypeRef::Int], TypeRef::Array(Box::new(TypeRef::Int))));
    let receiver = TypeRef::Applied { name: "Box".to_owned(), args: vec![TypeRef::Bool] };
    let from_receiver = specialize_signature_with_receiver_and_arg_types(
        &signature,
        Some(&receiver),
        &["T".to_owned()],
        None,
        &hosts,
    );
    assert_sig(&from_receiver, &sig(vec![TypeRef::Bool], TypeRef::Array(Box::new(TypeRef::Bool))));
}

#[test]
fn best_call_targets_are_selected_by_arity_then_score() {
    let targets = || {
        vec![
            CallableTarget { signature: sig(vec![TypeRef::Int], TypeRef::Int), local_symbol: Some(SymbolId(1)) },
            CallableTarget { signature: sig(vec![TypeRef::String], TypeRef::Int), local_symbol: Some(SymbolId(2)) },
            CallableTarget { signature: sig(vec![], TypeRef::Int), local_symbol: None },
        ]
    };
    assert_eq!(select_best_callable_targets(targets(), None).len(), 3);
    let by_arity = select_best_callable_targets(targets(), Some(&[None]));
    assert_eq!(by_arity.iter().map(|t| t.local_symbol).collect::<Vec<_>>(), vec![Some(SymbolId(1)), Some(SymbolId(2))]);
    let by_score = select_best_callable_targets(targets(), Some(&[Some(TypeRef::String)]));
    assert_eq!(by_score.iter().map(|t| t.local_symbol).collect::<Vec<_>>(), vec![Some(SymbolId(2))]);
    assert!(select_best_callable_targets(targets(), Some(&[None, None, None])).is_empty());
}

#[test]
fn repeated_call_targets_are_dropped() {
    let targets = vec![
        CallableTarget { signature: sig(vec![TypeRef::Int], TypeRef::Int), local_symbol: Some(SymbolId(1)) },
        CallableTarget { signature: sig(vec![TypeRef::Int], TypeRef::Int), local_symbol: Some(SymbolId(1)) },
        CallableTarget { signature: sig(vec![TypeRef::Int], TypeRef::Int), local_symbol: None },
    ];
    let kept = dedup_callable_targets(targets);
    assert_eq!(kept.iter().map(|t| t.local_symbol).collect::<Vec<_>>(), vec![Some(SymbolId(1)), None]);
    let joined = join_callable_target_signatures(&kept, Some(1)).unwrap();
    assert_sig(&joined, &sig(vec![TypeRef::Int], TypeRef::Int));
}

#[test]
fn loop_bindings_follow_the_iterable() {
    assert_types(&loop_binding_types(TypeRef::String, 3, TypeRef::Int), &vec![TypeRef::String, TypeRef::Int, TypeRef::Unknown]);
    assert_types(
        &for_binding_types_from_iterable(&TypeRef::Array(Box::new(TypeRef::Bool)), 2).unwrap(),
        &vec![TypeRef::Bool, TypeRef::Int],
    );
    assert_types(&for_binding_types_from_iterable(&TypeRef::String, 1).unwrap(), &vec![TypeRef::Char]);
    assert!(for_binding_types_from_iterable(&TypeRef::Int, 1).is_none());
    assert!(for_binding_types_from_iterable(&TypeRef::Int, 0).unwrap().is_empty());
    let mixed = TypeRef::Union(vec![TypeRef::Array(Box::new(TypeRef::Int)), TypeRef::String, TypeRef::Bool]);
    assert_types(
        &for_binding_types_from_iterable(&mixed, 2).unwrap(),
        &vec![TypeRef::Union(vec![TypeRef::Int, TypeRef::Char]), TypeRef::Int],
    );
}

#[test]
fn expected_types_give_fields_their_types() {
    let expected = object(vec![("name", TypeRef::String)]);
    assert_type(&expected_object_field_type(&expected, "name").unwrap(), &TypeRef::String);
    assert!(expected_object_field_type(&expected, "age").is_none());
    let map = TypeRef::Dict(Box::new(TypeRef::String), Box::new(TypeRef::Int));
    assert_type(&expected_object_field_type(&map, "any").unwrap(), &TypeRef::Int);
    let int_keyed = TypeRef::Dict(Box::new(TypeRef::Int), Box::new(TypeRef::Int));
    assert!(expected_object_field_type(&int_keyed, "any").is_none());
    let union = TypeRef::Union(vec![expected, map]);
    assert_type(
        &expected_object_field_type(&union, "name").unwrap(),
        &TypeRef::Union(vec![TypeRef::String, TypeRef::Int]),
    );
    assert_type(&merge_member_annotation(None, &TypeRef::Int).unwrap(), &TypeRef::Int);
    assert_type(
        &merge_member_annotation(Some(&TypeRef::Int), &TypeRef::Bool).unwrap(),
        &TypeRef::Union(vec![TypeRef::Int, TypeRef::Bool]),
    );
}

#[test]
fn writes_through_paths_imply_container_types() {
    let segments = [
        PathSegment::Field { name: "items".to_owned() },
        PathSegment::Index { index_type: Some(TypeRef::Int), string_key: None },
        PathSegment::Index { index_type: Some(TypeRef::String), string_key: Some("k".to_owned()) },
    ];
    let container = nested_mutation_container_type(&segments, TypeRef::Bool);
    let expected = object(vec![(
        "items",
        TypeRef::Array(Box::new(TypeRef::Dict(Box::new(TypeRef::String), Box::new(TypeRef::Bool)))),
    )]);
    assert_type(&container, &expected);
    assert_type(&read_type_from_segments(&container, &segments).unwrap(), &TypeRef::Bool);
    assert!(matches_top_level_field_segment(&segments[..1], "items"));
    assert!(!matches_top_level_field_segment(&segments, "items"));
}

#[test]
fn reads_through_paths_follow_fields_and_indexes() {
    let record = object(vec![("a", TypeRef::Int), ("b", TypeRef::String)]);
    let by_field = PathSegment::Field { name: "b".to_owned() };
    assert_type(&path_segment_read_type(&record, &by_field).unwrap(), &TypeRef::String);
    let missing = PathSegment::Field { name: "z".to_owned() };
    assert_type(
        &path_segment_read_type(&record, &missing).unwrap(),
        &TypeRef::Union(vec![TypeRef::Int, TypeRef::String]),
    );
    let by_key = PathSegment::Index { index_type: Some(TypeRef::String), string_key: Some("a".to_owned()) };
    assert_type(&path_segment_read_type(&record, &by_key).unwrap(), &TypeRef::Int);
    let nullable = TypeRef::Nullable(Box::new(TypeRef::Array(Box::new(TypeRef::Char))));
    assert_type(&path_segment_read_type(&nullable, &by_key).unwrap(), &TypeRef::Char);
    assert!(path_segment_read_type(&TypeRef::Int, &by_key).is_none());
    assert!(read_type_from_segments(&TypeRef::Int, &[by_field]).is_none());
}

fn target(symbol: Option<u32>, ret: TypeRef) -> CallableTarget {
    CallableTarget { signature: sig(vec![], ret), local_symbol: symbol.map(SymbolId) }
}

fn no_sources() -> CallTargetSources {
    CallTargetSources {
        local: Vec::new(),
        dispatches_via_first_arg: false,
        first_arg: Vec::new(),
        symbol_use: Vec::new(),
        has_callee_expr: false,
        host_method: None,
        callee_expr: Vec::new(),
        named: Vec::new(),
    }
}

#[test]
fn call_targets_prefer_local_functions_then_resolved_symbols() {
    let mut sources = no_sources();
    sources.local = vec![target(Some(1), TypeRef::Int)];
    sources.symbol_use = vec![target(Some(2), TypeRef::String)];
    let targets = callable_targets_for_call(sources);
    assert_eq!(targets.len(), 1);
    assert_eq!(targets[0].local_symbol, Some(SymbolId(1)));

    let mut sources = no_sources();
    sources.symbol_use = vec![target(Some(2), TypeRef::String), target(Some(2), TypeRef::String)];
    sources.named = vec![target(None, TypeRef::Int)];
    let targets = callable_targets_for_call(sources);
    assert_eq!(targets.len(), 1);
    assert_eq!(targets[0].local_symbol, Some(SymbolId(2)));
}

#[test]
fn call_targets_fall_back_to_host_methods_expressions_and_names() {
    let mut sources = no_sources();
    sources.has_callee_expr = true;
    sources.host_method = Some(sig(vec![TypeRef::Int], TypeRef::String));
    sources.callee_expr = vec![target(Some(3), TypeRef::Int)];
    let targets = callable_targets_for_call(sources);
    assert_eq!(targets.len(), 1);
    assert_eq!(targets[0].local_symbol, None);
    assert!(type_eq(&targets[0].signature.ret, &TypeRef::String));

    let mut sources = no_sources();
    sources.has_callee_expr = true;
    sources.callee_expr = vec![target(Some(3), TypeRef::Int)];
    sources.named = vec![target(None, TypeRef::String)];
    let targets = callable_targets_for_call(sources);
    assert_eq!(targets.len(), 1);
    assert_eq!(targets[0].local_symbol, Some(SymbolId(3)));

    let mut sources = no_sources();
    sources.named = vec![target(None, TypeRef::String), target(None, TypeRef::String)];
    let targets = callable_targets_for_call(sources);
    assert_eq!(targets.len(), 1);

    let mut sources = no_sources();
    sources.dispatches_via_first_arg = true;
    sources.first_arg = vec![target(Some(4), TypeRef::Int), target(Some(4), TypeRef::Int)];
    sources.symbol_use = vec![target(Some(2), TypeRef::String)];
    let targets = callable_targets_for_call(sources);
    assert_eq!(targets.len(), 1);
    assert_eq!(targets[0].local_symbol, Some(SymbolId(4)));
}

#[test]
fn callee_expressions_dispatch_to_their_targets() {
    let closure = TypeRef::Function(FunctionTypeRef { params: vec![TypeRef::Int], ret: Box::new(TypeRef::String) });
    let inner = CalleeExpr::Paren(Some(Box::new(CalleeExpr::Typed(Some(closure)))));
    let targets = callable_targets_for_expr(inner, None, &[]);
    assert_eq!(targets.len(), 1);
    assert!(targets[0].local_symbol.is_none());
    assert!(type_eq(&targets[0].signature.ret, &TypeRef::String));
    assert!(callable_targets_for_expr(CalleeExpr::UnresolvedName, None, &[]).is_empty());
    assert!(callable_targets_for_expr(CalleeExpr::Typed(Some(TypeRef::Int)), None, &[]).is_empty());
    assert!(callable_targets_for_expr(CalleeExpr::Paren(None), None, &[]).is_empty());
    let local = CallableTarget {
        signature: FunctionTypeRef { params: Vec::new(), ret: Box::new(TypeRef::Unit) },
        local_symbol: Some(SymbolId(3)),
    };
    let found = callable_targets_for_expr(CalleeExpr::LocalFunction(vec![local]), None, &[]);
    assert_eq!(found.len(), 1);
    assert_eq!(found[0].local_symbol, Some(SymbolId(3)));
}
