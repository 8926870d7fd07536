//! The lexical grammar as mathematics: where each lexical unit ends, what it
//! emits, and the token sequence of a whole source text.
use crate::tokens::{ScanError, SpecLiteral, SpecToken, TokenType};
use vstd::prelude::*;

verus! {

pub open spec fn is_digit(c: char) -> bool {
    '0' <= c <= '9'
}

/// Characters that may start an identifier.
pub open spec fn is_alpha(c: char) -> bool {
    ('a' <= c <= 'z') || ('A' <= c <= 'Z') || c == '_'
}

/// Characters that may continue an identifier.
pub open spec fn is_alpha_numeric(c: char) -> bool {
    is_alpha(c) || is_digit(c)
}

/// Number of newlines in `s`.
pub open spec fn newlines(s: Seq<char>) -> nat
    decreases s.len(),
{
    if s.len() == 0 {
        0
    } else {
        newlines(s.drop_last()) + if s.last() == '\n' { 1nat } else { 0nat }
    }
}

/// The 1-based line on which position `pos` of `src` lies.
pub open spec fn line_at(src: Seq<char>, pos: int) -> int {
    1 + newlines(src.take(pos)) as int
}

/// First position at or after `i` that does not hold a digit.
pub open spec fn digits_end(src: Seq<char>, i: int) -> int
    decreases src.len() - i,
{
    if 0 <= i < src.len() && is_digit(src[i]) {
        digits_end(src, i + 1)
    } else {
        i
    }
}

/// First position at or after `i` that does not hold an identifier character.
pub open spec fn ident_end(src: Seq<char>, i: int) -> int
    decreases src.len() - i,
{
    if 0 <= i < src.len() && is_alpha_numeric(src[i]) {
        ident_end(src, i + 1)
    } else {
        i
    }
}

/// First position at or after `i` that holds `c`, or the end of `src`.
pub open spec fn find_char(src: Seq<char>, i: int, c: char) -> int
    decreases src.len() - i,
{
    if 0 <= i < src.len() && src[i] != c {
        find_char(src, i + 1, c)
    } else {
        i
    }
}

/// Whether the number that starts at `pos` has a fractional part: a `.`
/// after its digits, followed by at least one digit.
pub open spec fn has_fraction(src: Seq<char>, pos: int) -> bool {
    let d = digits_end(src, pos + 1);
    d + 1 < src.len() && src[d] == '.' && is_digit(src[d + 1])
}

pub open spec fn number_end(src: Seq<char>, pos: int) -> int {
    if has_fraction(src, pos) {
        digits_end(src, digits_end(src, pos + 1) + 1)
    } else {
        digits_end(src, pos + 1)
    }
}

/// Position of the closing quote of the string literal that starts at `pos`,
/// or the end of `src` when there is none.
pub open spec fn closing_quote(src: Seq<char>, pos: int) -> int {
    find_char(src, pos + 1, '"')
}

pub open spec fn string_end(src: Seq<char>, pos: int) -> int {
    let q = closing_quote(src, pos);
    if q < src.len() {
        q + 1
    } else {
        q
    }
}

/// Whether `src[pos + 1]` exists and is `c`.
pub open spec fn next_is(src: Seq<char>, pos: int, c: char) -> bool {
    pos + 1 < src.len() && src[pos + 1] == c
}

/// Where the lexical unit that starts at `pos` ends (exclusive).
pub open spec fn unit_end(src: Seq<char>, pos: int) -> int {
    let c = src[pos];
    if c == '!' || c == '=' || c == '<' || c == '>' {
        if next_is(src, pos, '=') {
            pos + 2
        } else {
            pos + 1
        }
    } else if c == '/' {
        if next_is(src, pos, '/') {
            find_char(src, pos + 2, '\n')
        } else {
            pos + 1
        }
    } else if c == '"' {
        string_end(src, pos)
    } else if is_digit(c) {
        number_end(src, pos)
    } else if is_alpha(c) {
        ident_end(src, pos + 1)
    } else {
        pos + 1
    }
}

/// The reserved word spelled `w`, if any.
pub open spec fn keyword_of(w: Seq<char>) -> Option<TokenType> {
    if w == seq!['a', 'n', 'd'] {
        Some(TokenType::AND)
    } else if w == seq!['c', 'l', 'a', 's', 's'] {
        Some(TokenType::CLASS)
    } else if w == seq!['e', 'l', 's', 'e'] {
        Some(TokenType::ELSE)
    } else if w == seq!['f', 'a', 'l', 's', 'e'] {
        Some(TokenType::FALSE)
    } else if w == seq!['f', 'o', 'r'] {
        Some(TokenType::FOR)
    } else if w == seq!['f', 'u', 'n'] {
        Some(TokenType::FUN)
    } else if w == seq!['i', 'f'] {
        Some(TokenType::IF)
    } else if w == seq!['n', 'i', 'l'] {
        Some(TokenType::NIL)
    } else if w == seq!['o', 'r'] {
        Some(TokenType::OR)
    } else if w == seq!['p', 'r', 'i', 'n', 't'] {
        Some(TokenType::PRINT)
    } else if w == seq!['r', 'e', 't', 'u', 'r', 'n'] {
        Some(TokenType::RETURN)
    } else if w == seq!['s', 'u', 'p', 'e', 'r'] {
        Some(TokenType::SUPER)
    } else if w == seq!['t', 'h', 'i', 's'] {
        Some(TokenType::THIS)
    } else if w == seq!['t', 'r', 'u', 'e'] {
        Some(TokenType::TRUE)
    } else if w == seq!['v', 'a', 'r'] {
        Some(TokenType::VAR)
    } else if w == seq!['w', 'h', 'i', 'l', 'e'] {
        Some(TokenType::WHILE)
    } else {
        None
    }
}

/// The category of a single-character punctuator.
pub open spec fn punctuator(c: char) -> Option<TokenType> {
    if c == '(' {
        Some(TokenType::LEFT_PAREN)
    } else if c == ')' {
        Some(TokenType::RIGHT_PAREN)
    } else if c == '{' {
        Some(TokenType::LEFT_BRACE)
    } else if c == '}' {
        Some(TokenType::RIGHT_BRACE)
    } else if c == ',' {
        Some(TokenType::COMMA)
    } else if c == '.' {
        Some(TokenType::DOT)
    } else if c == '-' {
        Some(TokenType::MINUS)
    } else if c == '+' {
        Some(TokenType::PLUS)
    } else if c == ';' {
        Some(TokenType::SEMICOLON)
    } else if c == '*' {
        Some(TokenType::STAR)
    } else {
        None
    }
}

/// The category of the one- or two-character operator that starts with `c`:
/// `two` when the operator is followed by `=`.
pub open spec fn operator(c: char, two: bool) -> Option<TokenType> {
    if c == '!' {
        Some(if two { TokenType::BANG_EQUAL } else { TokenType::BANG })
    } else if c == '=' {
        Some(if two { TokenType::EQUAL_EQUAL } else { TokenType::EQUAL })
    } else if c == '<' {
        Some(if two { TokenType::LESS_EQUAL } else { TokenType::LESS })
    } else if c == '>' {
        Some(if two { TokenType::GREATER_EQUAL } else { TokenType::GREATER })
    } else {
        None
    }
}

pub open spec fn is_blank(c: char) -> bool {
    c == ' ' || c == '\r' || c == '\t' || c == '\n'
}

/// The category of the token emitted by the unit at `pos`; `None` for
/// whitespace, comments and unexpected characters.
pub open spec fn unit_type(src: Seq<char>, pos: int) -> Option<TokenType> {
    let c = src[pos];
    if punctuator(c) is Some {
        punctuator(c)
    } else if operator(c, false) is Some {
        operator(c, next_is(src, pos, '='))
    } else if c == '/' {
        if next_is(src, pos, '/') {
            None
        } else {
            Some(TokenType::SLASH)
        }
    } else if c == '"' {
        Some(TokenType::STRING)
    } else if is_digit(c) {
        Some(TokenType::NUMBER)
    } else if is_alpha(c) {
        match keyword_of(src.subrange(pos, unit_end(src, pos))) {
            Some(k) => Some(k),
            None => Some(TokenType::IDENTIFIER),
        }
    } else {
        None
    }
}

/// Decimal value of a run of digits.
pub open spec fn digits_value(s: Seq<char>) -> int
    decreases s.len(),
{
    if s.len() == 0 {
        0
    } else {
        digits_value(s.drop_last()) * 10 + (s.last() as int - '0' as int)
    }
}

/// The literal carried by the unit at `pos`.
pub open spec fn unit_literal(src: Seq<char>, pos: int) -> SpecLiteral {
    let c = src[pos];
    if c == '"' {
        SpecLiteral::Str(src.subrange(pos + 1, closing_quote(src, pos)))
    } else if is_digit(c) {
        if has_fraction(src, pos) {
            SpecLiteral::NumFloat(src.subrange(pos, unit_end(src, pos)))
        } else {
            SpecLiteral::Num(digits_value(src.subrange(pos, unit_end(src, pos))))
        }
    } else {
        SpecLiteral::NoVal
    }
}

/// The token emitted by the unit at `pos`, if any.
pub open spec fn unit_token(src: Seq<char>, pos: int) -> Option<SpecToken> {
    match unit_type(src, pos) {
        Some(tt) => Some(
            SpecToken {
                tt,
                lexeme: src.subrange(pos, unit_end(src, pos)),
                line: line_at(src, pos),
                literal: unit_literal(src, pos),
            },
        ),
        None => None,
    }
}

/// The lexical error reported by the unit at `pos`, if any.
pub open spec fn unit_error(src: Seq<char>, pos: int) -> Option<ScanError> {
    let c = src[pos];
    if c == '"' && closing_quote(src, pos) >= src.len() {
        Some(ScanError::UnterminatedString { line: line_at(src, pos) as u32 })
    } else if unit_type(src, pos) is None && !is_blank(c) && c != '/' {
        Some(ScanError::UnexpectedCharacter { line: line_at(src, pos) as u32, ch: c })
    } else {
        None
    }
}

pub open spec fn opt_seq<A>(o: Option<A>) -> Seq<A> {
    match o {
        Some(a) => seq![a],
        None => Seq::empty(),
    }
}

pub open spec fn eof_token(src: Seq<char>) -> SpecToken {
    SpecToken {
        tt: TokenType::EOF,
        lexeme: Seq::empty(),
        line: line_at(src, src.len() as int),
        literal: SpecLiteral::NoVal,
    }
}

/// The tokens of the units from `pos` on, without the final EOF.
pub open spec fn tokens_from(src: Seq<char>, pos: int) -> Seq<SpecToken>
    decreases src.len() - pos,
    when 0 <= pos
    via tokens_from_decreases
{
    if pos >= src.len() {
        Seq::empty()
    } else {
        opt_seq(unit_token(src, pos)) + tokens_from(src, unit_end(src, pos))
    }
}

/// The errors reported by the units from `pos` on.
pub open spec fn errors_from(src: Seq<char>, pos: int) -> Seq<ScanError>
    decreases src.len() - pos,
    when 0 <= pos
    via errors_from_decreases
{
    if pos >= src.len() {
        Seq::empty()
    } else {
        opt_seq(unit_error(src, pos)) + errors_from(src, unit_end(src, pos))
    }
}

/// The token sequence of a whole source text.
pub open spec fn scan(src: Seq<char>) -> Seq<SpecToken> {
    tokens_from(src, 0).push(eof_token(src))
}

/// The lexical errors of a whole source text.
pub open spec fn scan_errors(src: Seq<char>) -> Seq<ScanError> {
    errors_from(src, 0)
}

/// The literal of the unit at `pos` is not an integer too large for an `i64`.
pub open spec fn literal_fits(src: Seq<char>, pos: int) -> bool {
    match unit_literal(src, pos) {
        SpecLiteral::Num(v) => v <= i64::MAX,
        _ => true,
    }
}

/// No token of `ts` carries an integer too large for an `i64`.
pub open spec fn literals_fit(ts: Seq<SpecToken>) -> bool {
    forall|k: int|
        0 <= k < ts.len() ==> match #[trigger] ts[k].literal {
            SpecLiteral::Num(v) => v <= i64::MAX,
            _ => true,
        }
}

/// Every integer literal of `src` fits in an `i64`.
pub open spec fn numbers_fit(src: Seq<char>) -> bool {
    literals_fit(scan(src))
}

pub proof fn lemma_digits_end(src: Seq<char>, i: int)
    requires
        0 <= i <= src.len(),
    ensures
        i <= digits_end(src, i) <= src.len(),
        forall|j: int| i <= j < digits_end(src, i) ==> is_digit(#[trigger] src[j]),
        digits_end(src, i) == src.len() || !is_digit(src[digits_end(src, i)]),
    decreases src.len() - i,
{
    if i < src.len() && is_digit(src[i]) {
        lemma_digits_end(src, i + 1);
    }
}

pub proof fn lemma_ident_end(src: Seq<char>, i: int)
    requires
        0 <= i <= src.len(),
    ensures
        i <= ident_end(src, i) <= src.len(),
        forall|j: int| i <= j < ident_end(src, i) ==> is_alpha_numeric(#[trigger] src[j]),
        ident_end(src, i) == src.len() || !is_alpha_numeric(src[ident_end(src, i)]),
    decreases src.len() - i,
{
    if i < src.len() && is_alpha_numeric(src[i]) {
        lemma_ident_end(src, i + 1);
    }
}

pub proof fn lemma_find_char(src: Seq<char>, i: int, c: char)
    requires
        0 <= i <= src.len(),
    ensures
        i <= find_char(src, i, c) <= src.len(),
        forall|j: int| i <= j < find_char(src, i, c) ==> #[trigger] src[j] != c,
        find_char(src, i, c) == src.len() || src[find_char(src, i, c)] == c,
    decreases src.len() - i,
{
    if i < src.len() && src[i] != c {
        lemma_find_char(src, i + 1, c);
    }
}

/// Each unit consumes at least one character and stays within `src`.
pub proof fn lemma_unit_end(src: Seq<char>, pos: int)
    requires
        0 <= pos < src.len(),
    ensures
        pos < unit_end(src, pos) <= src.len(),
{
    let c = src[pos];
    if c == '/' && next_is(src, pos, '/') {
        lemma_find_char(src, pos + 2, '\n');
    } else if c == '"' {
        lemma_find_char(src, pos + 1, '"');
    } else if is_digit(c) {
        lemma_digits_end(src, pos + 1);
        if has_fraction(src, pos) {
            lemma_digits_end(src, digits_end(src, pos + 1) + 1);
        }
    } else if is_alpha(c) {
        lemma_ident_end(src, pos + 1);
    }
}

pub proof fn lemma_newlines_bound(s: Seq<char>)
    ensures
        newlines(s) <= s.len(),
    decreases s.len(),
{
    if s.len() > 0 {
        lemma_newlines_bound(s.drop_last());
    }
}

/// Moving past one character moves to the next line exactly when the
/// character is a newline.
pub proof fn lemma_line_step(src: Seq<char>, pos: int)
    requires
        0 <= pos < src.len(),
    ensures
        line_at(src, pos + 1) == line_at(src, pos) + if src[pos] == '\n' { 1int } else { 0int },
        line_at(src, pos + 1) <= pos + 2,
{
    assert(src.take(pos + 1).drop_last() =~= src.take(pos));
    lemma_newlines_bound(src.take(pos + 1));
}

pub proof fn lemma_line_start(src: Seq<char>)
    ensures
        line_at(src, 0) == 1,
{
    assert(src.take(0) =~= Seq::<char>::empty());
}

/// Digit values only grow as digits are appended.
pub proof fn lemma_digits_value_prefix(s: Seq<char>, k: int)
    requires
        0 <= k <= s.len(),
        forall|j: int| 0 <= j < s.len() ==> is_digit(#[trigger] s[j]),
    ensures
        0 <= digits_value(s.take(k)) <= digits_value(s),
    decreases s.len(),
{
    if s.len() > 0 {
        let p = s.drop_last();
        assert forall|j: int| 0 <= j < p.len() implies is_digit(#[trigger] p[j]) by {
            assert(p[j] == s[j]);
        }
        if k == s.len() {
            assert(s.take(k) =~= s);
            lemma_digits_value_prefix(p, p.len() as int);
            assert(p.take(p.len() as int) =~= p);
        } else {
            lemma_digits_value_prefix(p, k);
            assert(p.take(k) =~= s.take(k));
            lemma_digits_value_prefix(p, p.len() as int);
            assert(p.take(p.len() as int) =~= p);
        }
    }
}

#[via_fn]
proof fn tokens_from_decreases(src: Seq<char>, pos: int) {
    if 0 <= pos < src.len() {
        lemma_unit_end(src, pos);
    }
}

#[via_fn]
proof fn errors_from_decreases(src: Seq<char>, pos: int) {
    if 0 <= pos < src.len() {
        lemma_unit_end(src, pos);
    }
}

} // verus!
