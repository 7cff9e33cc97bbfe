use arith_grammar::lexer::{get_tokens, LexerError, TokenType};

const TOKEN_WRONG_LITERAL: &str = "Token literal value is not correct";
const TOKEN_WRONG_LINE: &str = "Token is on wrong line";
const TOKEN_WRONG_CHARACTER: &str = "Token is marked by wrong character";
const TOKEN_WRONG_LEXEME: &str = "Token lexeme does not match";
const UNEXPECTED_TOKEN_MATCH: &str = "The expected token did not match";

fn assert_number_token(token_type: &TokenType, literal: i32, line: usize, character: usize, lexeme: &str) {
    match token_type {
        TokenType::Number(token) => {
            assert_eq!(token.literal, literal, "{}", TOKEN_WRONG_LITERAL);
            assert_eq!(token.line, line, "{}", TOKEN_WRONG_LINE);
            assert_eq!(token.character, character, "{}", TOKEN_WRONG_CHARACTER);
            assert_eq!(token.lexeme.get_value(), str_to_char_slice(lexeme), "{}", TOKEN_WRONG_LEXEME);
        }
        _ => panic!("{}", UNEXPECTED_TOKEN_MATCH),
    }
}

fn assert_plus_token(token_type: &TokenType, line: usize, character: usize) {
    match token_type {
        TokenType::Plus(token) => {
            assert_eq!(token.line, line, "{}", TOKEN_WRONG_LINE);
            assert_eq!(token.character, character, "{}", TOKEN_WRONG_CHARACTER);
            assert_eq!(token.lexeme.get_value(), str_to_char_slice("+"), "{}", TOKEN_WRONG_LEXEME);
        }
        _ => panic!("{}", UNEXPECTED_TOKEN_MATCH),
    }
}

fn assert_minus_token(token_type: &TokenType, line: usize, character: usize) {
    match token_type {
        TokenType::Minus(token) => {
            assert_eq!(token.line, line, "{}", TOKEN_WRONG_LINE);
            assert_eq!(token.character, character, "{}", TOKEN_WRONG_CHARACTER);
            assert_eq!(token.lexeme.get_value(), str_to_char_slice("-"), "{}", TOKEN_WRONG_LEXEME);
        }
        _ => panic!("{}", UNEXPECTED_TOKEN_MATCH),
    }
}

fn str_to_char_slice(s: &str) -> Vec<char> {
    s.chars().collect()
}

#[test]
fn test_simple_addition() {
    let result = get_tokens("2+3").unwrap();

    assert_number_token(&result[0], 2, 1, 1, "2");
    assert_plus_token(&result[1], 1, 2);
    assert_number_token(&result[2], 3, 1, 3, "3");
    assert!(matches!(&result[3], TokenType::EOF()));
    assert_eq!(result.len(), 4);
}

#[test]
fn test_with_whitespace() {
    let result = get_tokens("2 + \t\r\n3").unwrap();

    assert_number_token(&result[0], 2, 1, 1, "2");
    assert_plus_token(&result[1], 1, 3);
    assert_number_token(&result[2], 3, 2, 1, "3");
    assert!(matches!(&result[3], TokenType::EOF()));
    assert_eq!(result.len(), 4);
}

#[test]
fn test_subtraction() {
    let result = get_tokens("-").unwrap();

    match &result[0] {
        TokenType::Minus(token) => {
            assert_eq!(token.line, 1, "{}", TOKEN_WRONG_LINE);
            assert_eq!(token.character, 1, "{}", TOKEN_WRONG_CHARACTER);
            assert_eq!(token.lexeme.get_value(), str_to_char_slice("-"), "{}", TOKEN_WRONG_LEXEME);
        }
        _ => panic!("{}", UNEXPECTED_TOKEN_MATCH),
    }

    assert!(matches!(&result[1], TokenType::EOF()));
    assert_eq!(result.len(), 2);
}

#[test]
fn test_unexpected_token() {
    let result = get_tokens("`");
    match result {
        Err(LexerError::UnexpectedToken(token)) => {
            assert_eq!(token.line, 1, "{}", TOKEN_WRONG_LINE);
            assert_eq!(token.character, 1, "{}", TOKEN_WRONG_CHARACTER);
            assert_eq!(token.lexeme.get_value(), str_to_char_slice("`"), "{}", TOKEN_WRONG_LEXEME)
        }
        _ => panic!("{}", UNEXPECTED_TOKEN_MATCH),
    }
}

#[test]
fn test_big_numbers() {
    let result = get_tokens("123 + 456").unwrap();

    assert_number_token(&result[0], 123, 1, 1, "123");
    assert_plus_token(&result[1], 1, 5);
    assert_number_token(&result[2], 456, 1, 7, "456");
    assert!(matches!(&result[3], TokenType::EOF()));
    assert_eq!(result.len(), 4);
}

#[test]
fn empty_input_gives_only_end_of_input() {
    let result = get_tokens("").unwrap();
    assert_eq!(result.len(), 1);
    assert!(matches!(&result[0], TokenType::EOF()));
}

#[test]
fn blanks_and_line_breaks_give_no_tokens() {
    let result = get_tokens(" \t\r\n\n ").unwrap();
    assert_eq!(result.len(), 1);
    assert!(matches!(&result[0], TokenType::EOF()));
}

#[test]
fn positions_across_several_lines() {
    let result = get_tokens("12\n  - 7\r\n\n+100").unwrap();
    assert_eq!(result.len(), 6);
    assert_number_token(&result[0], 12, 1, 1, "12");
    assert_minus_token(&result[1], 2, 3);
    assert_number_token(&result[2], 7, 2, 5, "7");
    assert_plus_token(&result[3], 4, 1);
    assert_number_token(&result[4], 100, 4, 2, "100");
    assert!(matches!(&result[5], TokenType::EOF()));
}

#[test]
fn largest_literal_is_accepted() {
    let result = get_tokens("2147483647").unwrap();
    assert_eq!(result.len(), 2);
    assert_number_token(&result[0], 2147483647, 1, 1, "2147483647");
}

#[test]
fn leading_zeros_keep_their_lexeme() {
    let result = get_tokens("007").unwrap();
    assert_number_token(&result[0], 7, 1, 1, "007");
}

#[test]
fn literal_beyond_i32_is_numeric_overflow() {
    match get_tokens("1 +\n 2147483648 + 3") {
        Err(LexerError::NumericOverflow(token)) => {
            assert_eq!(token.line, 2);
            assert_eq!(token.character, 2);
            assert_eq!(token.lexeme.get_value(), str_to_char_slice("2147483648"));
        }
        _ => panic!("expected a numeric overflow"),
    }
}

#[test]
fn very_long_literal_is_numeric_overflow() {
    match get_tokens("99999999999999999999") {
        Err(LexerError::NumericOverflow(token)) => {
            assert_eq!(token.line, 1);
            assert_eq!(token.character, 1);
            assert_eq!(token.lexeme.get_value(), str_to_char_slice("99999999999999999999"));
        }
        _ => panic!("expected a numeric overflow"),
    }
}

#[test]
fn letters_are_unexpected_characters() {
    match get_tokens("1 + x") {
        Err(LexerError::UnexpectedToken(token)) => {
            assert_eq!(token.line, 1);
            assert_eq!(token.character, 5);
            assert_eq!(token.lexeme.get_value(), str_to_char_slice("x"));
        }
        _ => panic!("expected an unexpected character"),
    }
}

#[test]
fn underscore_is_an_unexpected_character() {
    assert!(matches!(get_tokens("_"), Err(LexerError::UnexpectedToken(_))));
}

#[test]
fn first_bad_character_is_reported() {
    match get_tokens("1\n2 * 3 / 4") {
        Err(LexerError::UnexpectedToken(token)) => {
            assert_eq!(token.line, 2);
            assert_eq!(token.character, 3);
            assert_eq!(token.lexeme.get_value(), str_to_char_slice("*"));
        }
        _ => panic!("expected an unexpected character"),
    }
}
