use arith_grammar::lexer::get_tokens;
use arith_grammar::parser::{get_ast, Expression, ParseError, Parser, TermOperator};

fn integer_value(e: &Expression) -> i32 {
    match e {
        Expression::Integer(i) => i.value,
        _ => panic!("expected an integer"),
    }
}

#[test]
fn single_minus_has_no_left_operand() {
    let tokens = get_tokens("-").unwrap();
    assert!(matches!(get_ast(&tokens), Err(ParseError::UnexpectedEndOfInput)));
}

#[test]
fn empty_input_has_no_operand() {
    let tokens = get_tokens("").unwrap();
    assert!(matches!(get_ast(&tokens), Err(ParseError::UnexpectedEndOfInput)));
}

#[test]
fn trailing_operator_has_no_right_operand() {
    let tokens = get_tokens("1 +").unwrap();
    assert!(matches!(get_ast(&tokens), Err(ParseError::UnexpectedEndOfInput)));
}

#[test]
fn doubled_operator_has_no_operand() {
    let tokens = get_tokens("1 + - 2").unwrap();
    assert!(matches!(get_ast(&tokens), Err(ParseError::UnexpectedEndOfInput)));
}

#[test]
fn number_after_number_is_unexpected() {
    let tokens = get_tokens("2 3").unwrap();
    match get_ast(&tokens) {
        Err(ParseError::UnexpectedToken(token)) => {
            assert_eq!(token.line, 1);
            assert_eq!(token.character, 3);
            assert_eq!(token.lexeme.get_value(), vec!['3']);
        }
        _ => panic!("expected an unexpected token"),
    }
}

#[test]
fn single_number_is_a_leaf() {
    let tokens = get_tokens("42").unwrap();
    let ast = Parser::parse(&tokens).unwrap();
    assert_eq!(integer_value(&ast), 42);
}

#[test]
fn operators_group_from_the_left() {
    let tokens = get_tokens("10-3+2").unwrap();
    let ast = get_ast(&tokens).unwrap();
    match ast {
        Expression::Binary(outer) => {
            assert_eq!(outer.operator, TermOperator::Plus);
            assert_eq!(integer_value(&outer.right), 2);
            match *outer.left {
                Expression::Binary(inner) => {
                    assert_eq!(inner.operator, TermOperator::Minus);
                    assert_eq!(integer_value(&inner.left), 10);
                    assert_eq!(integer_value(&inner.right), 3);
                }
                _ => panic!("expected the left side to be a binary node"),
            }
        }
        _ => panic!("expected a binary node"),
    }
}
