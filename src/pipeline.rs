use crate::evaluate::checked_value;
use crate::lexer::{
    decimal_value, digit_run_end, is_blank, is_digit, lemma_decimal_value_nonnegative,
    lemma_digit_run_end_bounds, lex, lex_from, TokenView,
};
use crate::parser::{parse_rest, parse_tokens, Binary, Expression, Integer, TermOperator};
use vstd::prelude::*;

verus! {

/// The characters of well-formed source text: digits, the two operators,
/// blanks and line breaks.
pub open spec fn is_source_char(c: char) -> bool {
    is_digit(c) || c == '+' || c == '-' || is_blank(c) || c == '\n'
}

pub open spec fn number_value(t: TokenView) -> int {
    match t {
        TokenView::Number { value, .. } => value,
        _ => 0,
    }
}

/// A number, then pairs of an operator and a number, then the end.
pub open spec fn is_term(t: Seq<TokenView>) -> bool {
    &&& t.len() >= 2
    &&& t.len() % 2 == 0
    &&& t.last() is End
    &&& forall|i: int| 0 <= i < t.len() - 1 && i % 2 == 0 ==> #[trigger] t[i] is Number
    &&& forall|i: int|
        0 <= i < t.len() - 1 && i % 2 == 1 ==> #[trigger] t[i] is Plus || t[i] is Minus
}

/// The number of operators of a term.
pub open spec fn operator_count(t: Seq<TokenView>) -> int {
    (t.len() - 2) / 2
}

/// The first `k + 1` numbers of a term, added and subtracted from left to
/// right as the operators between them say.
pub open spec fn running_total(t: Seq<TokenView>, k: int) -> int
    decreases k,
{
    if k <= 0 {
        number_value(t[0])
    } else if t[2 * k - 1] is Plus {
        running_total(t, k - 1) + number_value(t[2 * k])
    } else {
        running_total(t, k - 1) - number_value(t[2 * k])
    }
}

/// Every running total of the term fits in `i32`.
pub open spec fn totals_fit(t: Seq<TokenView>) -> bool {
    forall|k: int|
        0 <= k <= operator_count(t) ==> i32::MIN <= #[trigger] running_total(t, k) <= i32::MAX
}

/// Every number token holds a value in `0..=i32::MAX`.
pub open spec fn numbers_fit(t: Seq<TokenView>) -> bool {
    forall|i: int|
        0 <= i < t.len() && #[trigger] t[i] is Number ==> 0 <= number_value(t[i]) <= i32::MAX
}

/// The tree of the first `k + 1` numbers of a term, grouped from the left.
pub open spec fn left_fold(t: Seq<TokenView>, k: int) -> Expression
    decreases k,
{
    let right = Expression::Integer(Integer { value: number_value(t[2 * k]) as i32 });
    if k <= 0 {
        right
    } else {
        Expression::Binary(
            Binary {
                left: Box::new(left_fold(t, k - 1)),
                operator: if t[2 * k - 1] is Plus {
                    TermOperator::Plus
                } else {
                    TermOperator::Minus
                },
                right: Box::new(right),
            },
        )
    }
}

proof fn lemma_parse_prefix(t: Seq<TokenView>, k: int)
    requires
        is_term(t),
        0 <= k <= operator_count(t),
    ensures
        parse_tokens(t) == parse_rest(t, 2 * k + 1, left_fold(t, k)),
    decreases k,
{
    assert(t[0] is Number);
    if k > 0 {
        lemma_parse_prefix(t, k - 1);
        let i = 2 * k - 1;
        assert(t[i] is Plus || t[i] is Minus);
        assert(t[i + 1] is Number);
    }
}

proof fn lemma_left_fold_value(t: Seq<TokenView>, k: int)
    requires
        is_term(t),
        numbers_fit(t),
        totals_fit(t),
        0 <= k <= operator_count(t),
    ensures
        checked_value(left_fold(t, k)) == Some(running_total(t, k)),
    decreases k,
{
    assert(t[2 * k] is Number);
    let v = number_value(t[2 * k]);
    assert(0 <= v <= i32::MAX);
    assert(checked_value(Expression::Integer(Integer { value: v as i32 })) == Some(v));
    assert(i32::MIN <= running_total(t, k) <= i32::MAX);
    if k > 0 {
        lemma_left_fold_value(t, k - 1);
        assert(t[2 * k - 1] is Plus || t[2 * k - 1] is Minus);
    }
}

/// A term whose numbers and running totals fit in `i32` parses into a tree
/// that evaluates without overflow to its left-to-right total.
pub proof fn lemma_term_evaluates_left_to_right(t: Seq<TokenView>)
    requires
        is_term(t),
        numbers_fit(t),
        totals_fit(t),
    ensures
        parse_tokens(t) matches Ok(e) && checked_value(e) == Some(
            running_total(t, operator_count(t)),
        ),
{
    let n = operator_count(t);
    lemma_parse_prefix(t, n);
    lemma_left_fold_value(t, n);
    assert(t[2 * n + 1] is End);
}

proof fn lemma_lex_numbers_fit(s: Seq<char>, i: int)
    requires
        0 <= i,
    ensures
        lex_from(s, i) matches Ok(t) ==> numbers_fit(t),
    decreases s.len() - i,
{
    if 0 <= i < s.len() {
        let c = s[i];
        if is_blank(c) || c == '\n' || c == '+' || c == '-' {
            lemma_lex_numbers_fit(s, i + 1);
        } else if is_digit(c) {
            lemma_digit_run_end_bounds(s, i);
            let j = digit_run_end(s, i);
            let text = s.subrange(i, j);
            assert forall|m: int| 0 <= m < text.len() implies is_digit(#[trigger] text[m]) by {
                assert(text[m] == s[i + m]);
            }
            lemma_decimal_value_nonnegative(text);
            lemma_lex_numbers_fit(s, j);
        }
    }
}

/// Every maximal run of digits in `s` has a value of at most `i32::MAX`.
pub open spec fn runs_fit(s: Seq<char>) -> bool {
    forall|i: int|
        0 <= i < s.len() && is_digit(#[trigger] s[i]) && (i == 0 || !is_digit(s[i - 1]))
            ==> decimal_value(s.subrange(i, digit_run_end(s, i))) <= i32::MAX
}

/// Source text whose runs of digits all fit in `i32` scans without error.
pub proof fn lemma_source_text_scans(s: Seq<char>)
    requires
        forall|i: int| 0 <= i < s.len() ==> is_source_char(#[trigger] s[i]),
        runs_fit(s),
    ensures
        lex(s) is Ok,
{
    lemma_source_scan_ok_from(s, 0);
}

proof fn lemma_source_scan_ok_from(s: Seq<char>, i: int)
    requires
        0 <= i,
        forall|k: int| 0 <= k < s.len() ==> is_source_char(#[trigger] s[k]),
        runs_fit(s),
        0 < i < s.len() && is_digit(s[i]) ==> !is_digit(s[i - 1]),
    ensures
        lex_from(s, i) is Ok,
    decreases s.len() - i,
{
    if 0 <= i < s.len() {
        let c = s[i];
        assert(is_source_char(c));
        if is_digit(c) {
            lemma_digit_run_end_bounds(s, i);
            let j = digit_run_end(s, i);
            lemma_source_scan_ok_from(s, j);
        } else {
            lemma_source_scan_ok_from(s, i + 1);
        }
    }
}

/// Scanning source text fails only on a number too large for `i32`.
pub proof fn lemma_source_text_scans_unless_overflow(s: Seq<char>)
    requires
        forall|i: int| 0 <= i < s.len() ==> is_source_char(#[trigger] s[i]),
    ensures
        lex(s) matches Err(e) ==> e is NumericOverflow,
{
    lemma_source_scan_from(s, 0);
}

proof fn lemma_source_scan_from(s: Seq<char>, i: int)
    requires
        0 <= i,
        forall|k: int| 0 <= k < s.len() ==> is_source_char(#[trigger] s[k]),
    ensures
        lex_from(s, i) matches Err(e) ==> e is NumericOverflow,
    decreases s.len() - i,
{
    if 0 <= i < s.len() {
        let c = s[i];
        assert(is_source_char(c));
        if is_digit(c) {
            lemma_digit_run_end_bounds(s, i);
            lemma_source_scan_from(s, digit_run_end(s, i));
        } else {
            lemma_source_scan_from(s, i + 1);
        }
    }
}

/// Source text made of digits, operators, blanks and line breaks, whose runs
/// of digits fit in `i32` and whose tokens alternate as a term with every
/// running total in `i32`, scans, parses and evaluates without error to the
/// total of its numbers taken from left to right.
pub proof fn lemma_source_evaluates_left_to_right(s: Seq<char>)
    requires
        forall|i: int| 0 <= i < s.len() ==> is_source_char(#[trigger] s[i]),
        runs_fit(s),
        lex(s) matches Ok(t) ==> is_term(t) && totals_fit(t),
    ensures
        lex(s) matches Ok(t) && parse_tokens(t) matches Ok(e) && checked_value(e) == Some(
            running_total(t, operator_count(t)),
        ),
{
    lemma_source_text_scans(s);
    lemma_lex_numbers_fit(s, 0);
    lemma_term_evaluates_left_to_right(lex(s)->Ok_0);
}

/// Scanning, parsing and evaluating depend on the text alone: equal texts
/// give equal tokens, equal trees and equal values, however often they run.
pub proof fn lemma_pipeline_deterministic(a: Seq<char>, b: Seq<char>)
    requires
        a == b,
    ensures
        lex(a) == lex(b),
        lex(a) matches Ok(t) ==> lex(b) matches Ok(u) && parse_tokens(t) == parse_tokens(u),
        lex(a) matches Ok(t) ==> parse_tokens(t) matches Ok(e) ==> lex(b) matches Ok(u)
            && parse_tokens(u) matches Ok(f) && checked_value(e) == checked_value(f),
{
}

} // verus!
