use std::rc::Rc;
use vstd::prelude::*;

verus! {

// ---------------------------------------------------------------------------
// Mathematical model of scanning
// ---------------------------------------------------------------------------

pub open spec fn is_digit(c: char) -> bool {
    '0' <= c && c <= '9'
}

/// Space, tab and carriage return: skipped without a token.
pub open spec fn is_blank(c: char) -> bool {
    c == ' ' || c == '\t' || c == '\r'
}

pub open spec fn digit_value(c: char) -> int {
    c as int - '0' as int
}

/// The value of a run of decimal digits, most significant first.
pub open spec fn decimal_value(d: Seq<char>) -> int
    decreases d.len(),
{
    if d.len() == 0 {
        0
    } else {
        decimal_value(d.drop_last()) * 10 + digit_value(d.last())
    }
}

/// The index just past the run of digits that starts at `i`.
pub open spec fn digit_run_end(s: Seq<char>, i: int) -> int
    decreases s.len() - i,
{
    if 0 <= i < s.len() && is_digit(s[i]) {
        digit_run_end(s, i + 1)
    } else {
        i
    }
}

/// How many line breaks stand before index `i`.
pub open spec fn line_breaks_before(s: Seq<char>, i: int) -> int
    decreases i,
{
    if i <= 0 {
        0
    } else {
        line_breaks_before(s, i - 1) + if s[i - 1] == '\n' { 1int } else { 0int }
    }
}

/// The index at which the line holding index `i` begins.
pub open spec fn line_start_of(s: Seq<char>, i: int) -> int
    decreases i,
{
    if i <= 0 {
        0
    } else if s[i - 1] == '\n' {
        i
    } else {
        line_start_of(s, i - 1)
    }
}

/// The 1-based line of index `i`.
pub open spec fn line_of(s: Seq<char>, i: int) -> int {
    line_breaks_before(s, i) + 1
}

/// The 1-based column of index `i`.
pub open spec fn column_of(s: Seq<char>, i: int) -> int {
    i - line_start_of(s, i) + 1
}

/// What a token says: its kind, the literal of a number, the source text that
/// produced it and where that text begins.
pub enum TokenView {
    Number { value: int, text: Seq<char>, line: int, column: int },
    Plus { text: Seq<char>, line: int, column: int },
    Minus { text: Seq<char>, line: int, column: int },
    End,
}

/// What a scan failure says: the offending text and where it begins.
pub enum LexErrorView {
    UnexpectedCharacter { text: Seq<char>, line: int, column: int },
    NumericOverflow { text: Seq<char>, line: int, column: int },
}

pub open spec fn prepend_tokens(
    p: Seq<TokenView>,
    r: Result<Seq<TokenView>, LexErrorView>,
) -> Result<Seq<TokenView>, LexErrorView> {
    match r {
        Ok(t) => Ok(p + t),
        Err(e) => Err(e),
    }
}

/// One step of scanning at index `i`: the index at which the next step
/// begins and the tokens this one emits (none for a blank or a line break,
/// one otherwise), or the failure there.
pub open spec fn scan_step(s: Seq<char>, i: int) -> Result<(int, Seq<TokenView>), LexErrorView> {
    let c = s[i];
    let line = line_of(s, i);
    let column = column_of(s, i);
    if is_blank(c) || c == '\n' {
        Ok((i + 1, seq![]))
    } else if c == '+' {
        Ok((i + 1, seq![TokenView::Plus { text: s.subrange(i, i + 1), line, column }]))
    } else if c == '-' {
        Ok((i + 1, seq![TokenView::Minus { text: s.subrange(i, i + 1), line, column }]))
    } else if is_digit(c) {
        let j = digit_run_end(s, i);
        let text = s.subrange(i, j);
        if decimal_value(text) > i32::MAX {
            Err(LexErrorView::NumericOverflow { text, line, column })
        } else {
            Ok((j, seq![TokenView::Number { value: decimal_value(text), text, line, column }]))
        }
    } else {
        Err(LexErrorView::UnexpectedCharacter { text: s.subrange(i, i + 1), line, column })
    }
}

/// The tokens of `s` from index `i` on, or the first failure there.
pub open spec fn lex_from(s: Seq<char>, i: int) -> Result<Seq<TokenView>, LexErrorView>
    decreases s.len() - i,
    via lex_from_decreases
{
    if !(0 <= i < s.len()) {
        Ok(seq![TokenView::End])
    } else {
        match scan_step(s, i) {
            Ok((j, emitted)) => prepend_tokens(emitted, lex_from(s, j)),
            Err(e) => Err(e),
        }
    }
}

#[via_fn]
proof fn lex_from_decreases(s: Seq<char>, i: int) {
    if 0 <= i < s.len() {
        lemma_scan_step_advances(s, i);
    }
}

/// A step that succeeds moves forward and stays within the input.
pub proof fn lemma_scan_step_advances(s: Seq<char>, i: int)
    requires
        0 <= i < s.len(),
    ensures
        scan_step(s, i) matches Ok((j, _)) ==> i < j <= s.len(),
{
    lemma_digit_run_end_bounds(s, i);
}

/// The tokens of the whole of `s`, ended by `End`, or the first failure.
pub open spec fn lex(s: Seq<char>) -> Result<Seq<TokenView>, LexErrorView> {
    lex_from(s, 0)
}

pub proof fn lemma_digit_run_end_bounds(s: Seq<char>, i: int)
    requires
        0 <= i <= s.len(),
    ensures
        i <= digit_run_end(s, i) <= s.len(),
        0 <= i < s.len() && is_digit(s[i]) ==> i < digit_run_end(s, i),
        forall|k: int| i <= k < digit_run_end(s, i) ==> is_digit(#[trigger] s[k]),
        digit_run_end(s, i) < s.len() ==> !is_digit(s[digit_run_end(s, i)]),
    decreases s.len() - i,
{
    if i < s.len() && is_digit(s[i]) {
        lemma_digit_run_end_bounds(s, i + 1);
    }
}

proof fn lemma_line_breaks_bounded(s: Seq<char>, i: int)
    requires
        0 <= i,
    ensures
        0 <= line_breaks_before(s, i) <= i,
        line_start_of(s, i) <= i,
    decreases i,
{
    if i > 0 {
        lemma_line_breaks_bounded(s, i - 1);
    }
}

/// A longer run of digits never has a smaller value.
proof fn lemma_decimal_value_grows(d: Seq<char>, k: int)
    requires
        0 <= k <= d.len(),
        forall|m: int| 0 <= m < d.len() ==> is_digit(#[trigger] d[m]),
    ensures
        0 <= decimal_value(d.take(k)) <= decimal_value(d),
    decreases d.len() - k,
{
    if k < d.len() {
        lemma_decimal_value_grows(d, k + 1);
        assert(d.take(k + 1).drop_last() =~= d.take(k));
    } else {
        assert(d.take(k) =~= d);
        lemma_decimal_value_nonnegative(d);
    }
}

pub proof fn lemma_decimal_value_nonnegative(d: Seq<char>)
    requires
        forall|m: int| 0 <= m < d.len() ==> is_digit(#[trigger] d[m]),
    ensures
        0 <= decimal_value(d),
    decreases d.len(),
{
    if d.len() > 0 {
        lemma_decimal_value_nonnegative(d.drop_last());
    }
}

// ---------------------------------------------------------------------------
// Tokens
// ---------------------------------------------------------------------------

/// A token that carries the value of a literal.
#[derive(Debug)]
pub struct LiteralToken<T> {
    pub literal: T,
    pub lexeme: Lexeme,
    pub line: usize,
    pub character: usize,
}

/// An operator token.
#[derive(Debug)]
pub struct NonLiteralToken {
    pub lexeme: Lexeme,
    pub line: usize,
    pub character: usize,
}

/// The text that a scan failed on, and where it begins.
#[derive(Debug)]
pub struct UnexpectedToken {
    pub lexeme: Lexeme,
    pub line: usize,
    pub character: usize,
}

#[derive(Debug)]
pub enum LexerError {
    /// A character outside the language: the lexeme is that one character.
    UnexpectedToken(UnexpectedToken),
    /// A run of digits whose value exceeds `i32::MAX`: the lexeme is the run.
    NumericOverflow(UnexpectedToken),
}

/// A range of the scanned input, sharing the input's characters.
#[derive(Debug)]
pub struct Lexeme {
    input: Rc<Vec<char>>,
    start: usize,
    end: usize,
}

#[derive(Debug)]
pub enum TokenType {
    Number(LiteralToken<i32>),
    Plus(NonLiteralToken),
    Minus(NonLiteralToken),
    EOF(),
}

impl Lexeme {
    #[verifier::type_invariant]
    spec fn inv(&self) -> bool {
        self.start <= self.end <= self.input@.len()
    }

    /// The characters of the input that the lexeme covers.
    pub fn get_value(&self) -> (r: &[char])
        ensures
            r@ == self@,
    {
        proof {
            use_type_invariant(self);
        }
        vstd::slice::slice_subrange(self.input.as_slice(), self.start, self.end)
    }

    /// Another lexeme over the same characters of the same input.
    pub(crate) fn share(&self) -> (r: Lexeme)
        ensures
            r@ == self@,
    {
        proof {
            use_type_invariant(self);
        }
        Lexeme { input: self.input.clone(), start: self.start, end: self.end }
    }
}

impl View for Lexeme {
    type V = Seq<char>;

    closed spec fn view(&self) -> Seq<char> {
        self.input@.subrange(self.start as int, self.end as int)
    }
}

impl View for TokenType {
    type V = TokenView;

    open spec fn view(&self) -> TokenView {
        match self {
            TokenType::Number(t) => TokenView::Number {
                value: t.literal as int,
                text: t.lexeme@,
                line: t.line as int,
                column: t.character as int,
            },
            TokenType::Plus(t) => TokenView::Plus {
                text: t.lexeme@,
                line: t.line as int,
                column: t.character as int,
            },
            TokenType::Minus(t) => TokenView::Minus {
                text: t.lexeme@,
                line: t.line as int,
                column: t.character as int,
            },
            TokenType::EOF() => TokenView::End,
        }
    }
}

impl View for LexerError {
    type V = LexErrorView;

    open spec fn view(&self) -> LexErrorView {
        match self {
            LexerError::UnexpectedToken(t) => LexErrorView::UnexpectedCharacter {
                text: t.lexeme@,
                line: t.line as int,
                column: t.character as int,
            },
            LexerError::NumericOverflow(t) => LexErrorView::NumericOverflow {
                text: t.lexeme@,
                line: t.line as int,
                column: t.character as int,
            },
        }
    }
}

pub open spec fn tokens_view(t: Seq<TokenType>) -> Seq<TokenView> {
    t.map_values(|x: TokenType| x@)
}

pub open spec fn scan_result_view(r: Result<Vec<TokenType>, LexerError>) -> Result<
    Seq<TokenView>,
    LexErrorView,
> {
    match r {
        Ok(t) => Ok(tokens_view(t@)),
        Err(e) => Err(e@),
    }
}


/// One more step of scanning at `i`, where the steps before gave `prev`.
proof fn lemma_scan_step_extends(s: Seq<char>, prev: Seq<TokenView>, i: int)
    requires
        0 <= i < s.len(),
        lex(s) == prepend_tokens(prev, lex_from(s, i)),
    ensures
        match scan_step(s, i) {
            Ok((j, emitted)) => lex(s) == prepend_tokens(prev + emitted, lex_from(s, j)),
            Err(e) => lex(s) == Err::<Seq<TokenView>, LexErrorView>(e),
        },
{
    if let Ok((j, emitted)) = scan_step(s, i) {
        if let Ok(rest) = lex_from(s, j) {
            assert(prev + (emitted + rest) =~= (prev + emitted) + rest);
        }
    }
}

// ---------------------------------------------------------------------------
// Scanner
// ---------------------------------------------------------------------------

struct Scanner {
    input: Rc<Vec<char>>,
    /// First character of the token being scanned.
    start: usize,
    /// Next character to read.
    current: usize,
    /// Line of `start`.
    line: usize,
    /// Column of `start`.
    character: usize,
    /// Line breaks before `current`.
    line_breaks: usize,
    /// Index at which the line holding `current` begins.
    line_start: usize,
    tokens: Vec<TokenType>,
}

impl Scanner {
    spec fn wf(&self) -> bool {
        self.start <= self.current <= self.input@.len()
    }

    spec fn lines_tracked(&self) -> bool {
        &&& self.line_breaks == line_breaks_before(self.input@, self.current as int)
        &&& self.line_start == line_start_of(self.input@, self.current as int)
    }

    spec fn positioned(&self) -> bool {
        &&& self.line == line_of(self.input@, self.start as int)
        &&& self.character == column_of(self.input@, self.start as int)
    }

    /// The tokens so far, followed by those from index `i` on, are the tokens
    /// of the whole input.
    spec fn consistent_at(&self, i: int) -> bool {
        lex(self.input@) == prepend_tokens(tokens_view(self.tokens@), lex_from(self.input@, i))
    }

    /// The text from `start` to `current`.
    spec fn lexeme_text(&self) -> Seq<char> {
        self.input@.subrange(self.start as int, self.current as int)
    }

    fn scan(input: &str) -> (r: Result<Vec<TokenType>, LexerError>)
        ensures
            scan_result_view(r) == lex(input@),
    {
        let mut scanner = Scanner::new(input);
        while !scanner.is_at_end()
            invariant
                scanner.input@ == input@,
                scanner.wf(),
                scanner.lines_tracked(),
                scanner.consistent_at(scanner.current as int),
            decreases scanner.input@.len() - scanner.current,
        {
            proof {
                lemma_line_breaks_bounded(scanner.input@, scanner.current as int);
                lemma_scan_step_advances(scanner.input@, scanner.current as int);
                lemma_scan_step_extends(
                    scanner.input@,
                    tokens_view(scanner.tokens@),
                    scanner.current as int,
                );
            }
            scanner.start = scanner.current;
            scanner.line = scanner.line_breaks + 1;
            scanner.character = scanner.start - scanner.line_start + 1;
            match scanner.scan_token() {
                Ok(()) => {},
                Err(e) => {
                    return Err(e);
                },
            }
        }
        let ghost before = scanner.tokens@;
        scanner.tokens.push(TokenType::EOF());
        proof {
            assert(tokens_view(scanner.tokens@) =~= tokens_view(before) + seq![TokenView::End]);
        }
        Ok(scanner.tokens)
    }

    fn new(input: &str) -> (r: Scanner)
        ensures
            r.input@ == input@,
            r.start == 0,
            r.current == 0,
            r.line == 1,
            r.character == 1,
            r.line_breaks == 0,
            r.line_start == 0,
            r.tokens@.len() == 0,
            r.wf(),
            r.lines_tracked(),
            r.consistent_at(0),
    {
        let mut chars: Vec<char> = Vec::new();
        for c in it: input.chars()
            invariant
                chars@ == it.seq().take(it.index() as int),
        {
            chars.push(c);
        }
        let r = Scanner {
            input: Rc::new(chars),
            start: 0,
            current: 0,
            line: 1,
            character: 1,
            line_breaks: 0,
            line_start: 0,
            tokens: Vec::new(),
        };
        proof {
            match lex(r.input@) {
                Ok(t) => assert(tokens_view(r.tokens@) + t =~= t),
                Err(_) => {},
            }
        }
        r
    }

    /// Scans one token, or skips one blank or line break, from `start`.
    fn scan_token(&mut self) -> (r: Result<(), LexerError>)
        requires
            old(self).wf(),
            old(self).lines_tracked(),
            old(self).positioned(),
            old(self).start == old(self).current < old(self).input@.len(),
        ensures
            final(self).input == old(self).input,
            final(self).start == old(self).start,
            final(self).line == old(self).line,
            final(self).character == old(self).character,
            match scan_step(old(self).input@, old(self).current as int) {
                Ok((j, emitted)) => {
                    &&& r is Ok
                    &&& final(self).current == j
                    &&& tokens_view(final(self).tokens@) == tokens_view(old(self).tokens@)
                        + emitted
                    &&& final(self).wf()
                    &&& final(self).lines_tracked()
                },
                Err(e) => {
                    &&& r matches Err(x) && x@ == e
                    &&& final(self).tokens == old(self).tokens
                },
            },
    {
        let ghost s = self.input@;
        let ghost before = tokens_view(self.tokens@);
        let c = self.advance().unwrap();
        match c {
            ' ' | '\r' | '\t' => {
                assert(before + seq![] =~= before);
            },
            '\n' => {
                self.newline();
                assert(before + seq![] =~= before);
            },
            '+' => {
                self.add_plus_token();
                assert(before.push(tokens_view(self.tokens@).last()) =~= before + seq![
                    tokens_view(self.tokens@).last(),
                ]);
            },
            '-' => {
                self.add_minus_token();
                assert(before.push(tokens_view(self.tokens@).last()) =~= before + seq![
                    tokens_view(self.tokens@).last(),
                ]);
            },
            '0'..='9' => {
                let r = self.number();
                proof {
                    if r is Ok {
                        assert(before.push(tokens_view(self.tokens@).last()) =~= before + seq![
                            tokens_view(self.tokens@).last(),
                        ]);
                    }
                }
                return r;
            },
            _ => {
                return Err(self.unexpected_token_error());
            },
        }
        Ok(())
    }

    fn newline(&mut self)
        requires
            old(self).wf(),
            0 < old(self).current,
            old(self).input@[old(self).current - 1] == '\n',
            old(self).line_breaks == line_breaks_before(old(self).input@, old(self).current - 1),
        ensures
            (*final(self) == Scanner {
                line_breaks: final(self).line_breaks,
                line_start: final(self).line_start,
                ..*old(self)
            }),
            final(self).lines_tracked(),
    {
        proof {
            lemma_line_breaks_bounded(self.input@, self.current as int);
        }
        self.line_breaks = self.line_breaks + 1;
        self.line_start = self.current;
    }

    /// Reads the rest of a run of digits whose first digit has been read, and
    /// adds the run as a number token.
    fn number(&mut self) -> (r: Result<(), LexerError>)
        requires
            old(self).wf(),
            old(self).lines_tracked(),
            old(self).current == old(self).start + 1,
            is_digit(old(self).input@[old(self).start as int]),
        ensures
            final(self).input == old(self).input,
            final(self).start == old(self).start,
            final(self).line == old(self).line,
            final(self).character == old(self).character,
            final(self).current == digit_run_end(old(self).input@, old(self).start as int),
            final(self).wf(),
            final(self).lines_tracked(),
            ({
                let text = final(self).lexeme_text();
                &&& r is Ok <==> decimal_value(text) <= i32::MAX
                &&& r is Ok ==> tokens_view(final(self).tokens@) == tokens_view(
                    old(self).tokens@,
                ).push(
                    TokenView::Number {
                        value: decimal_value(text),
                        text,
                        line: old(self).line as int,
                        column: old(self).character as int,
                    },
                )
                &&& r matches Err(e) ==> e@ == (LexErrorView::NumericOverflow {
                    text,
                    line: old(self).line as int,
                    column: old(self).character as int,
                })
                &&& r is Err ==> final(self).tokens == old(self).tokens
            }),
    {
        proof {
            lemma_digit_run_end_bounds(self.input@, self.start as int);
        }
        loop
            invariant
                self.input == old(self).input,
                self.tokens == old(self).tokens,
                self.start == old(self).start,
                self.line == old(self).line,
                self.character == old(self).character,
                self.wf(),
                self.lines_tracked(),
                self.start < self.current,
                digit_run_end(self.input@, self.current as int) == digit_run_end(
                    self.input@,
                    self.start as int,
                ),
                forall|k: int|
                    self.start <= k < self.current ==> is_digit(#[trigger] self.input@[k]),
            ensures
                self.input == old(self).input,
                self.tokens == old(self).tokens,
                self.start == old(self).start,
                self.line == old(self).line,
                self.character == old(self).character,
                self.wf(),
                self.lines_tracked(),
                self.start < self.current,
                self.current == digit_run_end(self.input@, self.start as int),
                forall|k: int|
                    self.start <= k < self.current ==> is_digit(#[trigger] self.input@[k]),
            decreases self.input@.len() - self.current,
        {
            match self.peek() {
                Some(c) if '0' <= c && c <= '9' => {
                    self.advance();
                },
                _ => break,
            }
        }
        self.add_number_token()
    }

    fn advance(&mut self) -> (r: Option<char>)
        ensures
            (*final(self) == Scanner { current: final(self).current, ..*old(self) }),
            old(self).current < old(self).input@.len() ==> {
                &&& r == Some(old(self).input@[old(self).current as int])
                &&& final(self).current == old(self).current + 1
            },
            old(self).current >= old(self).input@.len() ==> r is None && *final(self) == *old(self),
    {
        if self.is_at_end() {
            return None;
        }
        let result = self.input[self.current];
        self.current = self.current + 1;
        Some(result)
    }

    fn peek(&self) -> (r: Option<char>)
        ensures
            self.current < self.input@.len() ==> r == Some(self.input@[self.current as int]),
            self.current >= self.input@.len() ==> r is None,
    {
        if self.is_at_end() {
            return None;
        }
        Some(self.input[self.current])
    }

    /// Adds the character from `start` to `current` as a plus token.
    fn add_plus_token(&mut self)
        requires
            old(self).wf(),
        ensures
            (*final(self) == Scanner { tokens: final(self).tokens, ..*old(self) }),
            tokens_view(final(self).tokens@) == tokens_view(old(self).tokens@).push(
                TokenView::Plus {
                    text: old(self).lexeme_text(),
                    line: old(self).line as int,
                    column: old(self).character as int,
                },
            ),
    {
        let token = TokenType::Plus(
            NonLiteralToken {
                lexeme: self.get_current_lexeme(),
                line: self.line,
                character: self.character,
            },
        );
        let ghost before = self.tokens@;
        self.tokens.push(token);
        assert(tokens_view(self.tokens@) =~= tokens_view(before).push(token@));
    }

    /// Adds the character from `start` to `current` as a minus token.
    fn add_minus_token(&mut self)
        requires
            old(self).wf(),
        ensures
            (*final(self) == Scanner { tokens: final(self).tokens, ..*old(self) }),
            tokens_view(final(self).tokens@) == tokens_view(old(self).tokens@).push(
                TokenView::Minus {
                    text: old(self).lexeme_text(),
                    line: old(self).line as int,
                    column: old(self).character as int,
                },
            ),
    {
        let token = TokenType::Minus(
            NonLiteralToken {
                lexeme: self.get_current_lexeme(),
                line: self.line,
                character: self.character,
            },
        );
        let ghost before = self.tokens@;
        self.tokens.push(token);
        assert(tokens_view(self.tokens@) =~= tokens_view(before).push(token@));
    }

    /// Adds the digits from `start` to `current` as a number token, or fails
    /// where their value exceeds `i32::MAX`.
    fn add_number_token(&mut self) -> (r: Result<(), LexerError>)
        requires
            old(self).wf(),
            old(self).start < old(self).current,
            forall|k: int|
                old(self).start <= k < old(self).current ==> is_digit(
                    #[trigger] old(self).input@[k],
                ),
        ensures
            (*final(self) == Scanner { tokens: final(self).tokens, ..*old(self) }),
            ({
                let text = old(self).lexeme_text();
                &&& r is Ok <==> decimal_value(text) <= i32::MAX
                &&& r is Ok ==> tokens_view(final(self).tokens@) == tokens_view(
                    old(self).tokens@,
                ).push(
                    TokenView::Number {
                        value: decimal_value(text),
                        text,
                        line: old(self).line as int,
                        column: old(self).character as int,
                    },
                )
                &&& r matches Err(e) ==> e@ == (LexErrorView::NumericOverflow {
                    text,
                    line: old(self).line as int,
                    column: old(self).character as int,
                })
                &&& r is Err ==> final(self).tokens == old(self).tokens
            }),
    {
        let ghost s = self.input@;
        let ghost text = self.lexeme_text();
        let mut value: i32 = 0;
        let mut i: usize = self.start;
        while i < self.current
            invariant
                self.wf(),
                s == self.input@,
                text == s.subrange(self.start as int, self.current as int),
                forall|k: int| self.start <= k < self.current ==> is_digit(#[trigger] s[k]),
                self.start <= i <= self.current,
                value == decimal_value(s.subrange(self.start as int, i as int)),
                0 <= value,
            decreases self.current - i,
        {
            assert(is_digit(s[i as int]));
            let d = (self.input[i] as u32 - '0' as u32) as i32;
            let next = match value.checked_mul(10) {
                Some(v) => v.checked_add(d),
                None => None,
            };
            proof {
                assert(s.subrange(self.start as int, i + 1).drop_last() =~= s.subrange(
                    self.start as int,
                    i as int,
                ));
                assert(s.subrange(self.start as int, i + 1).last() == s[i as int]);
            }
            match next {
                Some(v) => {
                    value = v;
                },
                None => {
                    proof {
                        let k = i + 1 - self.start;
                        assert(text.take(k) =~= s.subrange(self.start as int, i + 1));
                        assert forall|m: int| 0 <= m < text.len() implies is_digit(
                            #[trigger] text[m],
                        ) by {
                            assert(text[m] == s[self.start + m]);
                        }
                        lemma_decimal_value_grows(text, k);
                    }
                    return Err(LexerError::NumericOverflow(self.current_error_token()));
                },
            }
            i = i + 1;
        }
        assert(s.subrange(self.start as int, i as int) =~= text);
        let token = TokenType::Number(
            LiteralToken {
                literal: value,
                lexeme: self.get_current_lexeme(),
                line: self.line,
                character: self.character,
            },
        );
        let ghost before = self.tokens@;
        self.tokens.push(token);
        assert(tokens_view(self.tokens@) =~= tokens_view(before).push(token@));
        Ok(())
    }

    fn unexpected_token_error(&self) -> (r: LexerError)
        requires
            self.wf(),
        ensures
            r@ == (LexErrorView::UnexpectedCharacter {
                text: self.input@.subrange(self.start as int, self.current as int),
                line: self.line as int,
                column: self.character as int,
            }),
    {
        LexerError::UnexpectedToken(self.current_error_token())
    }

    fn current_error_token(&self) -> (r: UnexpectedToken)
        requires
            self.wf(),
        ensures
            r.lexeme@ == self.input@.subrange(self.start as int, self.current as int),
            r.line == self.line,
            r.character == self.character,
    {
        UnexpectedToken {
            lexeme: self.get_current_lexeme(),
            line: self.line,
            character: self.character,
        }
    }

    fn get_current_lexeme(&self) -> (r: Lexeme)
        requires
            self.wf(),
        ensures
            r@ == self.input@.subrange(self.start as int, self.current as int),
    {
        Lexeme { input: self.input.clone(), start: self.start, end: self.current }
    }

    fn is_at_end(&self) -> (r: bool)
        ensures
            r == (self.current >= self.input@.len()),
            self.input@.len() <= usize::MAX,
    {
        self.current >= self.input.len()
    }
}

/// Scans `input` into its tokens, ended by `EOF`, or fails on the first
/// character outside the language or the first number beyond `i32::MAX`.
pub fn get_tokens(input: &str) -> (r: Result<Vec<TokenType>, LexerError>)
    ensures
        scan_result_view(r) == lex(input@),
{
    Scanner::scan(input)
}

} // verus!
