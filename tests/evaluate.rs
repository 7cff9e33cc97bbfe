use arith_grammar::evaluate::{evaluate, EvalError};
use arith_grammar::lexer::get_tokens;
use arith_grammar::parser::{get_ast, Binary, Expression, Integer, TermOperator};

fn run(input: &str) -> Result<i32, EvalError> {
    let tokens = get_tokens(input).unwrap();
    let ast = get_ast(&tokens).unwrap();
    evaluate(&ast)
}

#[test]
fn multi_digit_addition() {
    assert_eq!(run("123 + 456"), Ok(579));
}

#[test]
fn chained_operators() {
    assert_eq!(run("2+3-1+456-1-3-2"), Ok(454));
}

#[test]
fn subtraction_is_left_associative() {
    assert_eq!(run("10-3-2"), Ok(5));
}

#[test]
fn single_number_evaluates_to_itself() {
    assert_eq!(run("7"), Ok(7));
}

#[test]
fn result_may_be_negative() {
    assert_eq!(run("1 - 5\n- 10"), Ok(-14));
}

#[test]
fn reaching_the_bounds_is_no_overflow() {
    assert_eq!(run("2147483646 + 1"), Ok(2147483647));
    assert_eq!(run("0 - 2147483647 - 1"), Ok(-2147483648));
}

#[test]
fn sum_beyond_i32_is_overflow() {
    assert_eq!(run("2147483647 + 1"), Err(EvalError::Overflow));
}

#[test]
fn difference_beyond_i32_is_overflow() {
    assert_eq!(run("0 - 2147483647 - 2"), Err(EvalError::Overflow));
}

#[test]
fn overflow_in_an_inner_node_is_reported() {
    assert_eq!(run("2147483647 + 1 - 5"), Err(EvalError::Overflow));
}

#[test]
fn repeated_runs_agree() {
    let first = run("2+3-1+456-1-3-2");
    let second = run("2+3-1+456-1-3-2");
    assert_eq!(first, second);
    assert_eq!(get_tokens("1 + 2").unwrap().len(), get_tokens("1 + 2").unwrap().len());
}

#[test]
fn hand_built_tree_evaluates() {
    let tree = Expression::Binary(Binary {
        left: Box::new(Expression::Integer(Integer { value: -4 })),
        operator: TermOperator::Minus,
        right: Box::new(Expression::Integer(Integer { value: -6 })),
    });
    assert_eq!(evaluate(&tree), Ok(2));
    assert_eq!(tree.evaluate(), Ok(2));
    assert_eq!(Integer { value: 9 }.evaluate(), 9);
}
