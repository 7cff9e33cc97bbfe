use crate::lexer::{tokens_view, TokenType, TokenView, UnexpectedToken};
use vstd::prelude::*;

verus! {

#[derive(Debug, PartialEq, Eq, Structural)]
pub enum TermOperator {
    Plus,
    Minus,
}

#[derive(Debug)]
pub struct Binary {
    pub left: Box<Expression>,
    pub operator: TermOperator,
    pub right: Box<Expression>,
}

#[derive(Debug)]
pub struct Integer {
    pub value: i32,
}

#[derive(Debug)]
pub enum Expression {
    Binary(Binary),
    Integer(Integer),
}

#[derive(Debug)]
pub enum ParseError {
    /// A number where an operator or the end was expected.
    UnexpectedToken(UnexpectedToken),
    /// An operand is missing: the input ended, or an operator stood where a
    /// number was expected.
    UnexpectedEndOfInput,
}

/// What a parse failure says.
pub enum ParseErrorView {
    UnexpectedToken { text: Seq<char>, line: int, column: int },
    UnexpectedEndOfInput,
}

impl View for ParseError {
    type V = ParseErrorView;

    open spec fn view(&self) -> ParseErrorView {
        match self {
            ParseError::UnexpectedToken(t) => ParseErrorView::UnexpectedToken {
                text: t.lexeme@,
                line: t.line as int,
                column: t.character as int,
            },
            ParseError::UnexpectedEndOfInput => ParseErrorView::UnexpectedEndOfInput,
        }
    }
}

pub open spec fn parse_result_view(r: Result<Expression, ParseError>) -> Result<
    Expression,
    ParseErrorView,
> {
    match r {
        Ok(e) => Ok(e),
        Err(e) => Err(e@),
    }
}

// ---------------------------------------------------------------------------
// Grammar:  term := number ( ("+" | "-") number )*
// ---------------------------------------------------------------------------

/// The token at index `i`; past the end of the sequence the input has ended.
pub open spec fn token_at(t: Seq<TokenView>, i: int) -> TokenView {
    if 0 <= i < t.len() {
        t[i]
    } else {
        TokenView::End
    }
}

/// The operand at index `i`, or a missing operand.
pub open spec fn operand_at(t: Seq<TokenView>, i: int) -> Result<Expression, ParseErrorView> {
    match token_at(t, i) {
        TokenView::Number { value, .. } => Ok(Expression::Integer(Integer { value: value as i32 })),
        _ => Err(ParseErrorView::UnexpectedEndOfInput),
    }
}

/// Parses the rest of a term from index `i`, `acc` being the expression
/// built from everything before: each operator and the operand after it wrap
/// `acc` as the left side, so the tree leans left.
pub open spec fn parse_rest(t: Seq<TokenView>, i: int, acc: Expression) -> Result<
    Expression,
    ParseErrorView,
>
    decreases t.len() - i,
{
    if !(0 <= i < t.len()) {
        Ok(acc)
    } else {
        match t[i] {
            TokenView::Number { text, line, column, .. } => Err(
                ParseErrorView::UnexpectedToken { text, line, column },
            ),
            TokenView::End => Ok(acc),
            TokenView::Plus { .. } => match operand_at(t, i + 1) {
                Ok(right) => parse_rest(
                    t,
                    i + 2,
                    Expression::Binary(
                        Binary {
                            left: Box::new(acc),
                            operator: TermOperator::Plus,
                            right: Box::new(right),
                        },
                    ),
                ),
                Err(e) => Err(e),
            },
            TokenView::Minus { .. } => match operand_at(t, i + 1) {
                Ok(right) => parse_rest(
                    t,
                    i + 2,
                    Expression::Binary(
                        Binary {
                            left: Box::new(acc),
                            operator: TermOperator::Minus,
                            right: Box::new(right),
                        },
                    ),
                ),
                Err(e) => Err(e),
            },
        }
    }
}

/// The term that starts at index `i`: its first operand, then the rest.
pub open spec fn parse_from(t: Seq<TokenView>, i: int) -> Result<Expression, ParseErrorView> {
    match operand_at(t, i) {
        Ok(first) => parse_rest(t, i + 1, first),
        Err(e) => Err(e),
    }
}

/// The expression that a token sequence denotes, or why it denotes none.
pub open spec fn parse_tokens(t: Seq<TokenView>) -> Result<Expression, ParseErrorView> {
    parse_from(t, 0)
}


// ---------------------------------------------------------------------------
// Parser
// ---------------------------------------------------------------------------

/// Reads a token sequence from the front.
pub struct Parser<'a> {
    tokens: &'a Vec<TokenType>,
    current: usize,
}

impl<'a> Parser<'a> {
    spec fn input(&self) -> Seq<TokenView> {
        tokens_view(self.tokens@)
    }

    /// Parses `input` as a term: numbers joined by `+` and `-`, grouped from
    /// the left. Whatever follows the first end-of-input token is not read.
    pub fn parse(input: &Vec<TokenType>) -> (r: Result<Expression, ParseError>)
        ensures
            parse_result_view(r) == parse_tokens(tokens_view(input@)),
    {
        let mut parser = Parser::new(input);
        parser.term()
    }

    fn new(input: &'a Vec<TokenType>) -> (r: Parser<'a>)
        ensures
            r.tokens == input,
            r.current == 0,
    {
        Parser { tokens: input, current: 0 }
    }

    /// Parses the term that starts at the cursor.
    fn term(&mut self) -> (r: Result<Expression, ParseError>)
        ensures
            final(self).tokens == old(self).tokens,
            parse_result_view(r) == parse_from(old(self).input(), old(self).current as int),
    {
        let ghost t = self.input();
        let mut expr = match self.number() {
            Ok(e) => e,
            Err(e) => {
                return Err(e);
            },
        };
        loop
            invariant
                self.input() == t,
                old(self).input() == t,
                self.current <= t.len(),
                self.tokens == old(self).tokens,
                parse_from(t, old(self).current as int) == parse_rest(t, self.current as int, expr),
            ensures
                self.tokens == old(self).tokens,
                self.input() == t,
                self.current <= t.len(),
                parse_from(t, old(self).current as int) == parse_rest(t, self.current as int, expr),
                !(token_at(t, self.current as int) is Plus),
                !(token_at(t, self.current as int) is Minus),
            decreases t.len() - self.current,
        {
            let ghost before = self.current as int;
            match self.match_term_operand() {
                Some(operator) => {
                    let right = match self.number() {
                        Ok(e) => e,
                        Err(e) => {
                            assert(0 <= before < t.len());
                            assert(parse_rest(t, before, expr) == operand_at(t, before + 1));
                            return Err(e);
                        },
                    };
                    expr = Expression::Binary(
                        Binary { left: Box::new(expr), operator, right: Box::new(right) },
                    );
                },
                None => break,
            }
        }
        match self.peek() {
            Some(TokenType::Number(n)) => Err(
                ParseError::UnexpectedToken(
                    UnexpectedToken {
                        lexeme: n.lexeme.share(),
                        line: n.line,
                        character: n.character,
                    },
                ),
            ),
            _ => Ok(expr),
        }
    }

    /// Consumes an operator, if one is next.
    fn match_term_operand(&mut self) -> (r: Option<TermOperator>)
        ensures
            final(self).tokens == old(self).tokens,
            match token_at(old(self).input(), old(self).current as int) {
                TokenView::Plus { .. } => r == Some(TermOperator::Plus) && final(self).current
                    == old(self).current + 1,
                TokenView::Minus { .. } => r == Some(TermOperator::Minus) && final(self).current
                    == old(self).current + 1,
                _ => r is None && final(self).current == old(self).current,
            },
    {
        match self.peek() {
            Some(TokenType::Plus(_)) => {
                self.advance();
                Some(TermOperator::Plus)
            },
            Some(TokenType::Minus(_)) => {
                self.advance();
                Some(TermOperator::Minus)
            },
            _ => None,
        }
    }

    /// Reads the operand that must come next.
    fn number(&mut self) -> (r: Result<Expression, ParseError>)
        ensures
            final(self).tokens == old(self).tokens,
            parse_result_view(r) == operand_at(old(self).input(), old(self).current as int),
            r is Ok ==> final(self).current == old(self).current + 1,
    {
        match self.peek() {
            Some(TokenType::Number(number)) => {
                self.advance();
                Ok(Expression::Integer(Integer { value: number.literal }))
            },
            _ => Err(ParseError::UnexpectedEndOfInput),
        }
    }

    fn advance(&mut self) -> (r: Option<&'a TokenType>)
        ensures
            final(self).tokens == old(self).tokens,
            old(self).current < old(self).tokens@.len() ==> {
                &&& r == Some(&old(self).tokens@[old(self).current as int])
                &&& final(self).current == old(self).current + 1
            },
            old(self).current >= old(self).tokens@.len() ==> r is None && final(self).current
                == old(self).current,
    {
        if self.is_at_end() {
            return None;
        }
        let result = &self.tokens[self.current];
        self.current = self.current + 1;
        Some(result)
    }

    fn peek(&self) -> (r: Option<&'a TokenType>)
        ensures
            self.current < self.tokens@.len() ==> r == Some(&self.tokens@[self.current as int]),
            self.current >= self.tokens@.len() ==> r is None,
    {
        if self.is_at_end() {
            return None;
        }
        Some(&self.tokens[self.current])
    }

    fn is_at_end(&self) -> (r: bool)
        ensures
            r == (self.current >= self.tokens@.len()),
            self.tokens@.len() <= usize::MAX,
    {
        self.current >= self.tokens.len()
    }
}

/// Parses a token sequence into its expression tree; see `Parser::parse`.
pub fn get_ast(tokens: &Vec<TokenType>) -> (r: Result<Expression, ParseError>)
    ensures
        parse_result_view(r) == parse_tokens(tokens_view(tokens@)),
{
    Parser::parse(tokens)
}

} // verus!
