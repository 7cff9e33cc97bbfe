use crate::parser::{Binary, Expression, Integer, TermOperator};
use vstd::prelude::*;

verus! {

#[derive(Debug, PartialEq, Eq, Structural)]
pub enum EvalError {
    /// A sum or difference left the range of `i32`.
    Overflow,
}

pub open spec fn apply(operator: TermOperator, left: int, right: int) -> int {
    match operator {
        TermOperator::Plus => left + right,
        TermOperator::Minus => left - right,
    }
}

/// The value of an expression over the unbounded integers.
pub open spec fn value_of(e: Expression) -> int
    decreases e,
{
    match e {
        Expression::Integer(i) => i.value as int,
        Expression::Binary(b) => apply(b.operator, value_of(*b.left), value_of(*b.right)),
    }
}

/// Combines two operand values, where each node's value must fit in `i32`.
pub open spec fn combine(operator: TermOperator, left: Option<int>, right: Option<int>) -> Option<
    int,
> {
    match (left, right) {
        (Some(l), Some(r)) => {
            let v = apply(operator, l, r);
            if i32::MIN <= v <= i32::MAX {
                Some(v)
            } else {
                None
            }
        },
        _ => None,
    }
}

/// The value of an expression computed in `i32` at every node, or `None`
/// where some node's value does not fit.
pub open spec fn checked_value(e: Expression) -> Option<int>
    decreases e,
{
    match e {
        Expression::Integer(i) => Some(i.value as int),
        Expression::Binary(b) => combine(b.operator, checked_value(*b.left), checked_value(*b.right)),
    }
}

pub open spec fn evaluation_view(r: Result<i32, EvalError>) -> Option<int> {
    match r {
        Ok(v) => Some(v as int),
        Err(_) => None,
    }
}

/// Where every node's value fits in `i32`, the checked value is the
/// mathematical value.
pub proof fn lemma_checked_value_is_value(e: Expression)
    requires
        checked_value(e) is Some,
    ensures
        checked_value(e) == Some(value_of(e)),
    decreases e,
{
    if let Expression::Binary(b) = e {
        lemma_checked_value_is_value(*b.left);
        lemma_checked_value_is_value(*b.right);
    }
}

impl Expression {
    pub fn evaluate(&self) -> (r: Result<i32, EvalError>)
        ensures
            evaluation_view(r) == checked_value(*self),
        decreases self,
    {
        match self {
            Expression::Binary(b) => b.evaluate(),
            Expression::Integer(i) => Ok(i.evaluate()),
        }
    }
}

impl Binary {
    pub fn evaluate(&self) -> (r: Result<i32, EvalError>)
        ensures
            evaluation_view(r) == combine(
                self.operator,
                checked_value(*self.left),
                checked_value(*self.right),
            ),
        decreases self,
    {
        let left = match self.left.evaluate() {
            Ok(v) => v,
            Err(e) => {
                return Err(e);
            },
        };
        let right = match self.right.evaluate() {
            Ok(v) => v,
            Err(e) => {
                return Err(e);
            },
        };
        let result = match self.operator {
            TermOperator::Plus => left.checked_add(right),
            TermOperator::Minus => left.checked_sub(right),
        };
        match result {
            Some(v) => Ok(v),
            None => Err(EvalError::Overflow),
        }
    }
}

impl Integer {
    pub fn evaluate(&self) -> (r: i32)
        ensures
            r == self.value,
    {
        self.value
    }
}

/// Reduces an expression tree to its value, failing where a sum or
/// difference leaves the range of `i32`.
pub fn evaluate(root: &Expression) -> (r: Result<i32, EvalError>)
    ensures
        evaluation_view(r) == checked_value(*root),
{
    root.evaluate()
}

} // verus!
