use rhai_db::flow::{
    complete_if_overwrite_candidate, flow_is_shadowed_by_complete_if, flow_sensitive_symbol_type_at_offset,
    joined_flow_type_in_expr, range_is_conditional_for_use, skipped_complete_if_exprs, CompleteIfOverwrite, ExprSpan,
    FlowExprKind, IfExprRanges, SymbolMutation, ValueFlow,
};
use rhai_db::lattice::NullabilityRefinement;
use rhai_db::mutation::PathSegment;
use rhai_db::narrowing::{
    apply_nullability_refinement, branch_containing_offset, branch_nullability_refinement_for_target,
    equality_nullability_refinement_for_target, BranchPolarity, ConditionExpr, ConditionOperator, ConditionShape,
};
use rhai_db::spans::{direct_loop_body, enclosing_ranges, largest_inner_expr, BodySpan};
use rhai_db::ty::{type_eq, ObjectField, TypeRef};
use rhai_db::workspace::TextRange;

fn range(start: u32, end: u32) -> TextRange {
    TextRange { start, end }
}

fn flow(start: u32, end: u32, ty: TypeRef) -> ValueFlow {
    ValueFlow { range: range(start, end), ty: Some(ty) }
}

fn assert_type(actual: Option<TypeRef>, expected: &TypeRef) {
    let actual = actual.expect("a type");
    assert!(type_eq(&actual, expected), "expected {expected:?}, got {actual:?}");
}

fn node(reads_target: bool, unit_like: bool, shape: ConditionShape) -> ConditionExpr {
    ConditionExpr { reads_target, unit_like, shape }
}

fn target() -> ConditionExpr {
    node(true, false, ConditionShape::Read)
}

fn other_read() -> ConditionExpr {
    node(false, false, ConditionShape::Read)
}

fn unit() -> ConditionExpr {
    node(false, true, ConditionShape::Other)
}

fn binary(operator: ConditionOperator, lhs: ConditionExpr, rhs: ConditionExpr) -> ConditionExpr {
    node(false, false, ConditionShape::Binary { operator, lhs: Some(Box::new(lhs)), rhs: Some(Box::new(rhs)) })
}

fn not(operand: ConditionExpr) -> ConditionExpr {
    node(false, false, ConditionShape::Unary { is_not: true, operand: Some(Box::new(operand)) })
}

#[test]
fn reading_the_target_makes_it_non_unit_in_the_then_branch() {
    assert_eq!(branch_nullability_refinement_for_target(&target(), BranchPolarity::Then), Some(NullabilityRefinement::NonNull));
    assert_eq!(branch_nullability_refinement_for_target(&target(), BranchPolarity::Else), None);
    assert_eq!(branch_nullability_refinement_for_target(&other_read(), BranchPolarity::Then), None);
    let paren = node(true, false, ConditionShape::Paren(Some(Box::new(target()))));
    assert_eq!(branch_nullability_refinement_for_target(&paren, BranchPolarity::Then), Some(NullabilityRefinement::NonNull));
}

#[test]
fn comparing_with_unit_narrows_both_branches() {
    let eq = binary(ConditionOperator::EqEq, target(), unit());
    assert_eq!(branch_nullability_refinement_for_target(&eq, BranchPolarity::Then), Some(NullabilityRefinement::NullOnly));
    assert_eq!(branch_nullability_refinement_for_target(&eq, BranchPolarity::Else), Some(NullabilityRefinement::NonNull));
    let ne = binary(ConditionOperator::NotEq, unit(), target());
    assert_eq!(branch_nullability_refinement_for_target(&ne, BranchPolarity::Then), Some(NullabilityRefinement::NonNull));
    assert_eq!(branch_nullability_refinement_for_target(&ne, BranchPolarity::Else), Some(NullabilityRefinement::NullOnly));
    let unrelated = binary(ConditionOperator::EqEq, other_read(), unit());
    assert_eq!(branch_nullability_refinement_for_target(&unrelated, BranchPolarity::Then), None);
    assert_eq!(
        equality_nullability_refinement_for_target(ConditionOperator::EqEq, &Some(Box::new(target())), &None, BranchPolarity::Then),
        None
    );
}

#[test]
fn negation_swaps_the_branches() {
    let negated = not(target());
    assert_eq!(branch_nullability_refinement_for_target(&negated, BranchPolarity::Then), None);
    assert_eq!(branch_nullability_refinement_for_target(&negated, BranchPolarity::Else), Some(NullabilityRefinement::NonNull));
    let not_unit = node(false, false, ConditionShape::Unary { is_not: false, operand: Some(Box::new(target())) });
    assert_eq!(branch_nullability_refinement_for_target(&not_unit, BranchPolarity::Then), None);
}

#[test]
fn conjunctions_and_disjunctions_combine_their_operands() {
    let both = binary(ConditionOperator::AndAnd, target(), other_read());
    assert_eq!(branch_nullability_refinement_for_target(&both, BranchPolarity::Then), Some(NullabilityRefinement::NonNull));
    assert_eq!(branch_nullability_refinement_for_target(&both, BranchPolarity::Else), None);
    let conflicting = binary(ConditionOperator::AndAnd, target(), binary(ConditionOperator::EqEq, target(), unit()));
    assert_eq!(branch_nullability_refinement_for_target(&conflicting, BranchPolarity::Then), None);
    let either = binary(ConditionOperator::OrOr, binary(ConditionOperator::EqEq, target(), unit()), other_read());
    assert_eq!(branch_nullability_refinement_for_target(&either, BranchPolarity::Else), Some(NullabilityRefinement::NonNull));
    assert_eq!(branch_nullability_refinement_for_target(&either, BranchPolarity::Then), None);
    let other = binary(ConditionOperator::Other, target(), unit());
    assert_eq!(branch_nullability_refinement_for_target(&other, BranchPolarity::Then), None);
}

#[test]
fn negated_disjunction_narrows_like_conjunction_of_negations() {
    let a = || binary(ConditionOperator::EqEq, target(), unit());
    let b = other_read;
    let outer = not(binary(ConditionOperator::OrOr, a(), b()));
    let conj = binary(ConditionOperator::AndAnd, not(a()), not(b()));
    let expected = Some(NullabilityRefinement::NonNull);
    assert_eq!(branch_nullability_refinement_for_target(&outer, BranchPolarity::Then), expected);
    assert_eq!(branch_nullability_refinement_for_target(&conj, BranchPolarity::Then), expected);
}

#[test]
fn refinements_strip_or_keep_unit() {
    let nullable = TypeRef::Nullable(Box::new(TypeRef::Int));
    assert_type(Some(apply_nullability_refinement(&nullable, Some(NullabilityRefinement::NonNull))), &TypeRef::Int);
    let union = TypeRef::Union(vec![TypeRef::Int, TypeRef::Unit]);
    assert_type(Some(apply_nullability_refinement(&union, Some(NullabilityRefinement::NullOnly))), &TypeRef::Unit);
    assert_type(Some(apply_nullability_refinement(&TypeRef::Int, Some(NullabilityRefinement::NullOnly))), &TypeRef::Int);
    assert_type(Some(apply_nullability_refinement(&nullable, None)), &nullable);
}

#[test]
fn the_branch_holding_an_offset_is_found() {
    let then_range = Some(range(10, 20));
    let else_range = Some(range(25, 40));
    assert_eq!(branch_containing_offset(then_range, else_range, 10), Some(BranchPolarity::Then));
    assert_eq!(branch_containing_offset(then_range, else_range, 30), Some(BranchPolarity::Else));
    assert_eq!(branch_containing_offset(then_range, else_range, 20), None);
    assert_eq!(branch_containing_offset(None, else_range, 12), None);
}

#[test]
fn code_inside_a_branch_is_conditional_for_a_later_use() {
    let exprs = [
        ExprSpan { kind: FlowExprKind::If, range: range(15, 40) },
        ExprSpan { kind: FlowExprKind::Other, range: range(0, 100) },
    ];
    assert!(range_is_conditional_for_use(&exprs, range(20, 30), 50));
    assert!(!range_is_conditional_for_use(&exprs, range(20, 30), 25));
    assert!(!range_is_conditional_for_use(&exprs, range(0, 10), 50));
    let looped = [ExprSpan { kind: FlowExprKind::While, range: range(0, 30) }];
    assert!(range_is_conditional_for_use(&looped, range(5, 10), 40));
}

#[test]
fn later_writes_replace_earlier_ones() {
    let flows = [flow(0, 10, TypeRef::Int), flow(12, 20, TypeRef::String)];
    let ty = flow_sensitive_symbol_type_at_offset(&flows, &[], &[], &[], range(0, 1), None, 30);
    assert_type(ty, &TypeRef::String);
}

#[test]
fn conditional_writes_join_with_the_baseline() {
    let flows = [flow(0, 10, TypeRef::Int), flow(20, 30, TypeRef::String)];
    let exprs = [ExprSpan { kind: FlowExprKind::If, range: range(15, 40) }];
    let after = flow_sensitive_symbol_type_at_offset(&flows, &[], &[], &exprs, range(0, 1), None, 50);
    assert_type(after, &TypeRef::Union(vec![TypeRef::Int, TypeRef::String]));
    let inside = flow_sensitive_symbol_type_at_offset(&flows, &[], &[], &exprs, range(0, 1), None, 35);
    assert_type(inside, &TypeRef::String);
}

#[test]
fn an_if_that_writes_both_branches_overwrites_the_symbol() {
    let flows = [flow(0, 10, TypeRef::Int), flow(22, 30, TypeRef::String), flow(42, 50, TypeRef::Char)];
    let ifs = [IfExprRanges { range: range(15, 60), then_range: Some(range(20, 35)), else_range: Some(range(40, 55)) }];
    let exprs = [ExprSpan { kind: FlowExprKind::If, range: range(15, 60) }];
    let skipped = skipped_complete_if_exprs(&ifs, &flows, 70);
    assert_eq!(skipped.len(), 1);
    assert_eq!(skipped[0].range, range(15, 60));
    assert!(type_eq(&skipped[0].ty, &TypeRef::Union(vec![TypeRef::String, TypeRef::Char])));
    assert!(flow_is_shadowed_by_complete_if(range(22, 30), &skipped));
    assert!(!flow_is_shadowed_by_complete_if(range(0, 10), &skipped));
    let ty = flow_sensitive_symbol_type_at_offset(&flows, &[], &ifs, &exprs, range(0, 1), None, 70);
    assert_type(ty, &TypeRef::Union(vec![TypeRef::String, TypeRef::Char]));
    assert!(complete_if_overwrite_candidate(&ifs[0], &flows, 50).is_none());
    let one_sided = IfExprRanges { range: range(15, 60), then_range: Some(range(20, 35)), else_range: None };
    assert!(complete_if_overwrite_candidate(&one_sided, &flows, 70).is_none());
}

#[test]
fn flows_in_a_range_are_joined_in_order() {
    let flows = [flow(0, 10, TypeRef::Int), flow(22, 30, TypeRef::String), ValueFlow { range: range(31, 33), ty: None }];
    assert_type(joined_flow_type_in_expr(&flows, range(20, 35)), &TypeRef::String);
    assert_type(joined_flow_type_in_expr(&flows, range(0, 35)), &TypeRef::Union(vec![TypeRef::Int, TypeRef::String]));
    assert!(joined_flow_type_in_expr(&flows, range(31, 33)).is_none());
}

#[test]
fn declared_types_and_path_writes_are_candidates() {
    let declared = flow_sensitive_symbol_type_at_offset(&[], &[], &[], &[], range(0, 5), Some(&TypeRef::Int), 10);
    assert_type(declared, &TypeRef::Int);
    let later = [flow(20, 30, TypeRef::String)];
    let still_declared =
        flow_sensitive_symbol_type_at_offset(&later, &[], &[], &[], range(0, 5), Some(&TypeRef::Int), 10);
    assert_type(still_declared, &TypeRef::Int);
    let flows = [flow(0, 10, TypeRef::Object(Vec::new()))];
    let mutations = [SymbolMutation {
        range: range(20, 30),
        value_ty: Some(TypeRef::Int),
        segments: vec![PathSegment::Field { name: "a".to_owned() }],
    }];
    let ty = flow_sensitive_symbol_type_at_offset(&flows, &mutations, &[], &[], range(0, 1), None, 40);
    assert_type(ty, &TypeRef::Object(vec![ObjectField { name: "a".to_owned(), ty: TypeRef::Int }]));
    assert!(flow_sensitive_symbol_type_at_offset(&[], &[], &[], &[], range(0, 1), None, 40).is_none());
}

#[test]
fn overwrites_are_listed_as_given() {
    let overwrite = CompleteIfOverwrite { range: range(5, 50), ty: TypeRef::Int };
    assert!(flow_is_shadowed_by_complete_if(range(5, 50), &[overwrite]));
}

#[test]
fn the_largest_inner_expression_is_found() {
    let exprs = [range(0, 20), range(1, 19), range(0, 20), range(2, 19), range(5, 6)];
    assert_eq!(largest_inner_expr(&exprs, 0), Some(1));
    assert_eq!(largest_inner_expr(&exprs, 4), None);
    let tied = [range(0, 10), range(1, 5), range(5, 9)];
    assert_eq!(largest_inner_expr(&tied, 0), Some(2));
}

#[test]
fn a_loop_body_is_the_largest_loop_scope_inside() {
    let bodies = [
        BodySpan { range: range(10, 30), is_loop: false },
        BodySpan { range: range(12, 30), is_loop: true },
        BodySpan { range: range(14, 20), is_loop: true },
        BodySpan { range: range(0, 30), is_loop: true },
    ];
    assert_eq!(direct_loop_body(&bodies, range(0, 30)), Some(1));
    assert_eq!(direct_loop_body(&bodies, range(40, 50)), None);
}

#[test]
fn enclosing_ranges_come_innermost_first() {
    let ifs = [range(0, 100), range(10, 20), range(5, 50), range(30, 40), range(12, 22)];
    assert_eq!(enclosing_ranges(&ifs, 15), vec![1, 4, 2, 0]);
    assert_eq!(enclosing_ranges(&ifs, 200), Vec::<usize>::new());
}
