//! What an `if` condition says about whether a value is unit in each of its
//! branches, and the type a value takes there.

use vstd::prelude::*;

use crate::lattice::{
    combine_nullability_refinements, combine_refinements, nullish_only, nullish_only_type, strip_nullable,
    strip_nullable_exec, NullabilityRefinement,
};
use crate::ty::{clone_type, Ty, TypeRef};
use crate::workspace::TextRange;

verus! {

/// Which branch of an `if` a position lies in.
#[derive(Clone, Copy, PartialEq, Eq, Debug)]
pub enum BranchPolarity {
    Then,
    Else,
}

/// The binary operators that a condition's narrowing looks at; every other
/// operator is `Other`.
#[derive(Clone, Copy, PartialEq, Eq, Debug)]
pub enum ConditionOperator {
    EqEq,
    NotEq,
    AndAnd,
    OrOr,
    Other,
}

/// A branch condition, as narrowing reads it. Each node says whether it
/// reads the narrowed target (a name, field or index read of it, possibly
/// in parentheses) and whether it is unit-like (of unit type, or a
/// parenthesised unit-like expression).
pub struct ConditionExpr {
    pub reads_target: bool,
    pub unit_like: bool,
    pub shape: ConditionShape,
}

/// The shape of a condition node.
pub enum ConditionShape {
    /// A name, field or index expression.
    Read,
    /// A parenthesised expression, with its largest inner expression.
    Paren(Option<Box<ConditionExpr>>),
    /// A unary expression: whether its operator is `!`, and its operand.
    Unary { is_not: bool, operand: Option<Box<ConditionExpr>> },
    /// A binary expression with its operands.
    Binary { operator: ConditionOperator, lhs: Option<Box<ConditionExpr>>, rhs: Option<Box<ConditionExpr>> },
    /// Any other expression.
    Other,
}

/// The other branch.
pub open spec fn flipped(b: BranchPolarity) -> BranchPolarity {
    match b {
        BranchPolarity::Then => BranchPolarity::Else,
        BranchPolarity::Else => BranchPolarity::Then,
    }
}

/// What `lhs op rhs` says in a branch, where `op` is `==` or `!=`: when it
/// compares the target with a unit-like value, `==` makes the target unit in
/// the then-branch and not unit in the else-branch, and `!=` the reverse.
pub open spec fn equality_refinement(
    operator: ConditionOperator,
    lhs: Option<Box<ConditionExpr>>,
    rhs: Option<Box<ConditionExpr>>,
    branch: BranchPolarity,
) -> Option<NullabilityRefinement> {
    match (lhs, rhs) {
        (Some(l), Some(r)) => if (l.reads_target && r.unit_like) || (r.reads_target && l.unit_like) {
            match (operator, branch) {
                (ConditionOperator::EqEq, BranchPolarity::Then) => Some(NullabilityRefinement::NullOnly),
                (ConditionOperator::NotEq, BranchPolarity::Else) => Some(NullabilityRefinement::NullOnly),
                (ConditionOperator::EqEq, BranchPolarity::Else) => Some(NullabilityRefinement::NonNull),
                (ConditionOperator::NotEq, BranchPolarity::Then) => Some(NullabilityRefinement::NonNull),
                _ => None,
            }
        } else {
            None
        },
        _ => None,
    }
}

/// What a condition says about the target in a branch: reading the target
/// makes it non-unit in the then-branch; parentheses pass through; `!`
/// swaps the branches; `==` and `!=` against unit decide as
/// `equality_refinement` states; `&&` in the then-branch and `||` in the
/// else-branch combine what both operands say.
pub open spec fn branch_refinement(c: ConditionExpr, branch: BranchPolarity) -> Option<NullabilityRefinement>
    decreases c,
{
    match c.shape {
        ConditionShape::Read => if c.reads_target && branch == BranchPolarity::Then {
            Some(NullabilityRefinement::NonNull)
        } else {
            None
        },
        ConditionShape::Paren(inner) => match inner {
            Some(i) => branch_refinement(*i, branch),
            None => None,
        },
        ConditionShape::Unary { is_not, operand } => if is_not {
            match operand {
                Some(o) => branch_refinement(*o, flipped(branch)),
                None => None,
            }
        } else {
            None
        },
        ConditionShape::Binary { operator, lhs, rhs } => match operator {
            ConditionOperator::EqEq => equality_refinement(operator, lhs, rhs, branch),
            ConditionOperator::NotEq => equality_refinement(operator, lhs, rhs, branch),
            ConditionOperator::AndAnd => if branch == BranchPolarity::Then {
                combine_refinements(
                    match lhs {
                        Some(l) => branch_refinement(*l, branch),
                        None => None,
                    },
                    match rhs {
                        Some(r) => branch_refinement(*r, branch),
                        None => None,
                    },
                )
            } else {
                None
            },
            ConditionOperator::OrOr => if branch == BranchPolarity::Else {
                combine_refinements(
                    match lhs {
                        Some(l) => branch_refinement(*l, branch),
                        None => None,
                    },
                    match rhs {
                        Some(r) => branch_refinement(*r, branch),
                        None => None,
                    },
                )
            } else {
                None
            },
            ConditionOperator::Other => None,
        },
        ConditionShape::Other => None,
    }
}

/// What an equality comparison says about the target in a branch, as
/// `equality_refinement` states.
pub fn equality_nullability_refinement_for_target(
    operator: ConditionOperator,
    lhs: &Option<Box<ConditionExpr>>,
    rhs: &Option<Box<ConditionExpr>>,
    branch: BranchPolarity,
) -> (r: Option<NullabilityRefinement>)
    ensures
        r == equality_refinement(operator, *lhs, *rhs, branch),
{
    let (l, r) = match (lhs, rhs) {
        (Some(l), Some(r)) => (l, r),
        _ => return None,
    };
    let compares_target_to_unit = (l.reads_target && r.unit_like) || (r.reads_target && l.unit_like);
    if !compares_target_to_unit {
        return None;
    }
    match (operator, branch) {
        (ConditionOperator::EqEq, BranchPolarity::Then) | (ConditionOperator::NotEq, BranchPolarity::Else) => Some(
            NullabilityRefinement::NullOnly,
        ),
        (ConditionOperator::EqEq, BranchPolarity::Else) | (ConditionOperator::NotEq, BranchPolarity::Then) => Some(
            NullabilityRefinement::NonNull,
        ),
        _ => None,
    }
}

fn flip_branch(branch: BranchPolarity) -> (r: BranchPolarity)
    ensures
        r == flipped(branch),
{
    match branch {
        BranchPolarity::Then => BranchPolarity::Else,
        BranchPolarity::Else => BranchPolarity::Then,
    }
}

fn operand_refinement(operand: &Option<Box<ConditionExpr>>, branch: BranchPolarity) -> (r: Option<NullabilityRefinement>)
    ensures
        r == match *operand {
            Some(o) => branch_refinement(*o, branch),
            None => None,
        },
    decreases *operand, 1nat,
{
    match operand {
        Some(o) => branch_nullability_refinement_for_target(o, branch),
        None => None,
    }
}

/// What a branch condition says about the target in the given branch, as
/// `branch_refinement` states.
pub fn branch_nullability_refinement_for_target(condition: &ConditionExpr, branch: BranchPolarity) -> (r: Option<
    NullabilityRefinement,
>)
    ensures
        r == branch_refinement(*condition, branch),
    decreases *condition, 0nat,
{
    match &condition.shape {
        ConditionShape::Read => {
            if condition.reads_target && matches!(branch, BranchPolarity::Then) {
                Some(NullabilityRefinement::NonNull)
            } else {
                None
            }
        },
        ConditionShape::Paren(inner) => operand_refinement(inner, branch),
        ConditionShape::Unary { is_not, operand } => {
            if *is_not {
                operand_refinement(operand, flip_branch(branch))
            } else {
                None
            }
        },
        ConditionShape::Binary { operator, lhs, rhs } => match operator {
            ConditionOperator::EqEq | ConditionOperator::NotEq => equality_nullability_refinement_for_target(
                *operator,
                lhs,
                rhs,
                branch,
            ),
            ConditionOperator::AndAnd => {
                if matches!(branch, BranchPolarity::Then) {
                    combine_nullability_refinements(operand_refinement(lhs, branch), operand_refinement(rhs, branch))
                } else {
                    None
                }
            },
            ConditionOperator::OrOr => {
                if matches!(branch, BranchPolarity::Else) {
                    combine_nullability_refinements(operand_refinement(lhs, branch), operand_refinement(rhs, branch))
                } else {
                    None
                }
            },
            ConditionOperator::Other => None,
        },
        ConditionShape::Other => None,
    }
}

/// Whether `offset` lies in `range`, its end excluded.
pub open spec fn range_holds(range: TextRange, offset: u32) -> bool {
    range.start <= offset < range.end
}

/// The branch of an `if` whose range holds `offset`: the then-branch first,
/// then the else-branch; none when neither does.
pub open spec fn branch_at(then_range: Option<TextRange>, else_range: Option<TextRange>, offset: u32) -> Option<
    BranchPolarity,
> {
    if then_range matches Some(t) && range_holds(t, offset) {
        Some(BranchPolarity::Then)
    } else if else_range matches Some(e) && range_holds(e, offset) {
        Some(BranchPolarity::Else)
    } else {
        None
    }
}

/// The branch of an `if` that holds `offset`, as `branch_at` states.
pub fn branch_containing_offset(then_range: Option<TextRange>, else_range: Option<TextRange>, offset: u32) -> (r:
    Option<BranchPolarity>)
    ensures
        r == branch_at(then_range, else_range, offset),
{
    if let Some(t) = then_range {
        if t.start <= offset && offset < t.end {
            return Some(BranchPolarity::Then);
        }
    }
    if let Some(e) = else_range {
        if e.start <= offset && offset < e.end {
            return Some(BranchPolarity::Else);
        }
    }
    None
}

/// The type a value takes under a refinement: without unit for `NonNull`,
/// its unit part for `NullOnly` (the type itself when it has none), and
/// unchanged without one.
pub open spec fn refined_by(current: Ty, refinement: Option<NullabilityRefinement>) -> Ty {
    match refinement {
        Some(NullabilityRefinement::NonNull) => strip_nullable(current),
        Some(NullabilityRefinement::NullOnly) => match nullish_only(current) {
            Some(t) => t,
            None => current,
        },
        None => current,
    }
}

/// Applies a nullability refinement to a type, as `refined_by` states.
pub fn apply_nullability_refinement(current: &TypeRef, refinement: Option<NullabilityRefinement>) -> (r: TypeRef)
    ensures
        r@ == refined_by(current@, refinement),
{
    match refinement {
        Some(NullabilityRefinement::NonNull) => strip_nullable_exec(current),
        Some(NullabilityRefinement::NullOnly) => match nullish_only_type(current) {
            Some(t) => t,
            None => clone_type(current),
        },
        None => clone_type(current),
    }
}

/// Comparing the target with a unit-like value with `==` or `!=` narrows
/// both branches, and in opposite ways.
pub proof fn law_unit_comparison_narrows_both_branches_oppositely(
    operator: ConditionOperator,
    lhs: Box<ConditionExpr>,
    rhs: Box<ConditionExpr>,
)
    requires
        operator == ConditionOperator::EqEq || operator == ConditionOperator::NotEq,
        (lhs.reads_target && rhs.unit_like) || (rhs.reads_target && lhs.unit_like),
    ensures
        equality_refinement(operator, Some(lhs), Some(rhs), BranchPolarity::Then) is Some,
        equality_refinement(operator, Some(lhs), Some(rhs), BranchPolarity::Else) is Some,
        equality_refinement(operator, Some(lhs), Some(rhs), BranchPolarity::Then) != equality_refinement(
            operator,
            Some(lhs),
            Some(rhs),
            BranchPolarity::Else,
        ),
{
}

/// `!c` says in a branch what `c` says in the other one.
pub proof fn law_negation_swaps_branches(c: ConditionExpr, reads_target: bool, unit_like: bool, branch: BranchPolarity)
    ensures
        branch_refinement(
            ConditionExpr {
                reads_target,
                unit_like,
                shape: ConditionShape::Unary { is_not: true, operand: Some(Box::new(c)) },
            },
            branch,
        ) == branch_refinement(c, flipped(branch)),
{
}

/// De Morgan: in the then-branch, `!(a || b)` narrows as `!a && !b` does.
pub proof fn law_negated_disjunction_narrows_as_conjunction_of_negations(
    a: ConditionExpr,
    b: ConditionExpr,
    outer: ConditionExpr,
    inner: ConditionExpr,
    not_a: ConditionExpr,
    not_b: ConditionExpr,
    conj: ConditionExpr,
)
    requires
        inner.shape == (ConditionShape::Binary {
            operator: ConditionOperator::OrOr,
            lhs: Some(Box::new(a)),
            rhs: Some(Box::new(b)),
        }),
        outer.shape == (ConditionShape::Unary { is_not: true, operand: Some(Box::new(inner)) }),
        not_a.shape == (ConditionShape::Unary { is_not: true, operand: Some(Box::new(a)) }),
        not_b.shape == (ConditionShape::Unary { is_not: true, operand: Some(Box::new(b)) }),
        conj.shape == (ConditionShape::Binary {
            operator: ConditionOperator::AndAnd,
            lhs: Some(Box::new(not_a)),
            rhs: Some(Box::new(not_b)),
        }),
    ensures
        branch_refinement(outer, BranchPolarity::Then) == branch_refinement(conj, BranchPolarity::Then),
{
    let either = combine_refinements(
        branch_refinement(a, BranchPolarity::Else),
        branch_refinement(b, BranchPolarity::Else),
    );
    assert(branch_refinement(inner, BranchPolarity::Else) == either);
    assert(branch_refinement(outer, BranchPolarity::Then) == branch_refinement(inner, BranchPolarity::Else));
    assert(branch_refinement(not_a, BranchPolarity::Then) == branch_refinement(a, BranchPolarity::Else));
    assert(branch_refinement(not_b, BranchPolarity::Then) == branch_refinement(b, BranchPolarity::Else));
    assert(branch_refinement(conj, BranchPolarity::Then) == either);
}

} // verus!
