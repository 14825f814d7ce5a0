use rhai_db::overload::{
    best_matching_signature_index, best_matching_signature_indexes, param_match_score, signature_match_quality,
    ParamMatchScore, SignatureMatchQuality,
};
use rhai_db::ty::{FunctionTypeRef, TypeRef};

fn sig(params: Vec<TypeRef>, ret: TypeRef) -> FunctionTypeRef {
    FunctionTypeRef { params, ret: Box::new(ret) }
}

#[test]
fn prefers_exact_over_same_arity_mismatch() {
    let signatures = [sig(vec![TypeRef::Int], TypeRef::Int), sig(vec![TypeRef::String], TypeRef::Bool)];

    assert_eq!(best_matching_signature_index(&signatures, &[Some(TypeRef::String)]), Some(1));
}

#[test]
fn keeps_arity_selection_when_argument_types_are_unknown() {
    let signatures = [sig(vec![TypeRef::Int], TypeRef::Int), sig(vec![TypeRef::String], TypeRef::Bool)];

    assert_eq!(best_matching_signature_index(&signatures, &[None]), Some(0));
}

#[test]
fn keeps_tied_best_signature_indexes_for_ambiguous_overloads() {
    let signatures = [sig(vec![TypeRef::Int], TypeRef::Int), sig(vec![TypeRef::String], TypeRef::String)];

    assert_eq!(
        best_matching_signature_indexes(&signatures, &[Some(TypeRef::Union(vec![TypeRef::Int, TypeRef::String]))]),
        vec![0, 1]
    );
}

#[test]
fn no_candidate_fits_an_arity_that_no_signature_takes() {
    let signatures = [sig(vec![TypeRef::Int], TypeRef::Int)];
    assert_eq!(best_matching_signature_indexes(&signatures, &[None, None]), Vec::<usize>::new());
    assert_eq!(best_matching_signature_index(&signatures, &[]), None);
}

#[test]
fn exact_candidate_is_among_the_best() {
    let signatures = [
        sig(vec![TypeRef::Int, TypeRef::Int], TypeRef::Int),
        sig(vec![TypeRef::Int, TypeRef::String], TypeRef::Int),
        sig(vec![TypeRef::Any, TypeRef::String], TypeRef::Int),
    ];
    let best = best_matching_signature_indexes(&signatures, &[Some(TypeRef::Int), Some(TypeRef::String)]);
    assert_eq!(best, vec![1]);
}

#[test]
fn parameter_scores_rank_exact_partial_unknown_and_mismatch() {
    assert_eq!(param_match_score(&TypeRef::Int, &TypeRef::Int), ParamMatchScore::Exact);
    assert_eq!(param_match_score(&TypeRef::Int, &TypeRef::String), ParamMatchScore::Mismatch);
    assert_eq!(param_match_score(&TypeRef::Int, &TypeRef::Unknown), ParamMatchScore::Unknown);
    assert_eq!(
        param_match_score(&TypeRef::Union(vec![TypeRef::Int, TypeRef::String]), &TypeRef::String),
        ParamMatchScore::Exact
    );
}

#[test]
fn signature_quality_follows_the_argument_scores() {
    let signature = sig(vec![TypeRef::Int, TypeRef::String], TypeRef::Unit);
    assert_eq!(
        signature_match_quality(&signature, &[Some(TypeRef::Int), Some(TypeRef::String)]),
        Some(SignatureMatchQuality::Exact)
    );
    assert_eq!(
        signature_match_quality(&signature, &[Some(TypeRef::Int), Some(TypeRef::Int)]),
        Some(SignatureMatchQuality::Mismatch)
    );
    assert_eq!(signature_match_quality(&signature, &[None, None]), Some(SignatureMatchQuality::Unknown));
    assert_eq!(signature_match_quality(&signature, &[None]), None);
}
