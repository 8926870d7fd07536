//! The scanner: one pass over a source text that produces its tokens.
use crate::grammar::{
    closing_quote, digits_end, digits_value, errors_from, find_char, has_fraction, ident_end,
    is_alpha, is_alpha_numeric, is_digit, keyword_of, lemma_digits_end, lemma_digits_value_prefix,
    lemma_find_char, lemma_ident_end, lemma_line_start, lemma_line_step, lemma_unit_end, line_at,
    literal_fits, literals_fit, numbers_fit, opt_seq, scan, scan_errors, tokens_from, unit_end,
    unit_error, unit_literal, unit_token,
};
use crate::tokens::{tokens_view, LiteralValue, ScanError, SpecLiteral, Token, TokenType};
use vstd::prelude::*;
use vstd::string::{is_ascii_spec_bytes, StrSliceExecFns};

verus! {

/// Scans one source text.
///
/// Scanning takes the scanner by unique reference. Each call of
/// [`Scanner::scan_tokens`] starts again from the beginning of the source, so
/// calling it twice gives the same tokens twice.
pub struct Scanner<'a> {
    src: &'a String,
    start: usize,
    start_line: u32,
    current: usize,
    line: u32,
    tokens: Vec<Token>,
    errors: Vec<ScanError>,
}

impl<'a> Scanner<'a> {
    /// The source text the scanner is bound to.
    pub closed spec fn source(&self) -> Seq<char> {
        self.src@
    }

    /// The tokens produced so far.
    pub closed spec fn spec_tokens(&self) -> Seq<crate::tokens::SpecToken> {
        tokens_view(self.tokens@)
    }

    /// The errors reported so far.
    pub closed spec fn spec_errors(&self) -> Seq<ScanError> {
        self.errors@
    }

    /// The source is ASCII and short enough for every line number to fit.
    pub closed spec fn wf(&self) -> bool {
        self.src.is_ascii() && self.src@.len() < u32::MAX
    }

    spec fn cursor_ok(&self) -> bool {
        &&& self.wf()
        &&& self.start <= self.current <= self.src@.len()
        &&& self.line == line_at(self.src@, self.current as int)
        &&& self.start_line == line_at(self.src@, self.start as int)
    }

    /// `self` is `old` after the whole unit that starts at `old.start`.
    spec fn unit_done(&self, old: &Self) -> bool {
        &&& self.cursor_ok()
        &&& self.src == old.src
        &&& self.start == old.start
        &&& self.start_line == old.start_line
        &&& self.current == unit_end(self.src@, self.start as int)
        &&& tokens_view(self.tokens@) == tokens_view(old.tokens@) + opt_seq(
            unit_token(self.src@, self.start as int),
        )
        &&& self.errors@ == old.errors@ + opt_seq(unit_error(self.src@, self.start as int))
    }

    /// `self` is `old` with the cursor moved and nothing emitted.
    spec fn moved(&self, old: &Self) -> bool {
        &&& self.cursor_ok()
        &&& self.src == old.src
        &&& self.start == old.start
        &&& self.start_line == old.start_line
        &&& self.tokens == old.tokens
        &&& self.errors == old.errors
    }

    pub fn new(src: &'a String) -> (r: Self)
        requires
            src.is_ascii(),
            src@.len() < u32::MAX,
        ensures
            r.source() == src@,
            r.wf(),
            r.spec_tokens() == Seq::<crate::tokens::SpecToken>::empty(),
            r.spec_errors() == Seq::<ScanError>::empty(),
    {
        let r = Scanner { src, start: 0, start_line: 1, current: 0, line: 1, tokens: vec![], errors: vec![] };
        assert(tokens_view(r.tokens@) =~= Seq::<crate::tokens::SpecToken>::empty());
        r
    }

    /// The tokens of the last scan.
    pub fn tokens(&self) -> (r: &Vec<Token>)
        ensures
            tokens_view(r@) == self.spec_tokens(),
    {
        &self.tokens
    }

    /// The lexical errors of the last scan.
    pub fn errors(&self) -> (r: &Vec<ScanError>)
        ensures
            r@ == self.spec_errors(),
    {
        &self.errors
    }

    fn src_len(&self) -> (n: usize)
        requires
            self.wf(),
        ensures
            n == self.src@.len(),
    {
        let t = self.src.as_str();
        proof {
            is_ascii_spec_bytes(t);
        }
        t.as_bytes().len()
    }

    fn char_at(&self, i: usize) -> (c: char)
        requires
            self.wf(),
            i < self.src@.len(),
        ensures
            c == self.src@[i as int],
    {
        let t = self.src.as_str();
        let b = t.get_ascii(i);
        assert('\0' <= t@[i as int] <= '\u{7f}');
        b as char
    }

    fn is_at_end(&self) -> (r: bool)
        requires
            self.wf(),
        ensures
            r == (self.current >= self.src@.len()),
    {
        self.current >= self.src_len()
    }

    fn is_digit(c: char) -> (r: bool)
        ensures
            r == is_digit(c),
    {
        '0' <= c && c <= '9'
    }

    fn is_alpha(c: char) -> (r: bool)
        ensures
            r == is_alpha(c),
    {
        ('a' <= c && c <= 'z') || ('A' <= c && c <= 'Z') || c == '_'
    }

    fn is_alpha_numeric(c: char) -> (r: bool)
        ensures
            r == is_alpha_numeric(c),
    {
        Self::is_alpha(c) || Self::is_digit(c)
    }

    /// The character under the cursor, or `'\0'` at the end.
    fn peek(&self) -> (c: char)
        requires
            self.wf(),
        ensures
            c == if self.current < self.src@.len() { self.src@[self.current as int] } else { '\0' },
    {
        if self.is_at_end() {
            '\0'
        } else {
            self.char_at(self.current)
        }
    }

    /// The character after the cursor, or `'\0'` past the end.
    fn peek_next(&self) -> (c: char)
        requires
            self.wf(),
        ensures
            c == if self.current + 1 < self.src@.len() {
                self.src@[self.current + 1]
            } else {
                '\0'
            },
    {
        if self.current >= self.src_len() || self.current + 1 >= self.src_len() {
            '\0'
        } else {
            self.char_at(self.current + 1)
        }
    }

    /// Consumes one character, keeping the line number in step.
    fn advance(&mut self) -> (c: char)
        requires
            old(self).cursor_ok(),
            old(self).current < old(self).src@.len(),
        ensures
            final(self).moved(old(self)),
            final(self).current == old(self).current + 1,
            c == old(self).src@[old(self).current as int],
    {
        let c = self.char_at(self.current);
        proof {
            lemma_line_step(self.src@, self.current as int);
        }
        self.current = self.current + 1;
        if c == '\n' {
            self.line = self.line + 1;
        }
        c
    }

    /// Consumes the character under the cursor when it is `expected`.
    fn matching(&mut self, expected: char) -> (r: bool)
        requires
            old(self).cursor_ok(),
        ensures
            final(self).moved(old(self)),
            r == (old(self).current < old(self).src@.len() && old(self).src@[old(self).current as int]
                == expected),
            final(self).current == old(self).current + if r { 1int } else { 0int },
    {
        if self.is_at_end() {
            return false;
        }
        if self.char_at(self.current) != expected {
            return false;
        }
        self.advance();
        true
    }

    /// The source text from `from` to `to`.
    fn text(&self, from: usize, to: usize) -> (r: String)
        requires
            self.wf(),
            from <= to <= self.src@.len(),
        ensures
            r@ == self.src@.subrange(from as int, to as int),
    {
        self.src.as_str().substring_ascii(from, to).to_owned()
    }

    fn add_token_with_value(&mut self, tt: TokenType, literal: LiteralValue)
        requires
            old(self).cursor_ok(),
        ensures
            final(self).cursor_ok(),
            final(self).src == old(self).src,
            final(self).start == old(self).start,
            final(self).start_line == old(self).start_line,
            final(self).current == old(self).current,
            final(self).errors == old(self).errors,
            tokens_view(final(self).tokens@) == tokens_view(old(self).tokens@).push(
                crate::tokens::SpecToken {
                    tt,
                    lexeme: old(self).src@.subrange(old(self).start as int, old(self).current as int),
                    line: line_at(old(self).src@, old(self).start as int),
                    literal: literal@,
                },
            ),
    {
        let lexeme = self.text(self.start, self.current);
        let tok = Token::new(tt, lexeme, self.start_line, literal);
        self.tokens.push(tok);
        assert(tokens_view(self.tokens@) =~= tokens_view(old(self).tokens@).push(tok@));
    }

    fn add_token(&mut self, tt: TokenType)
        requires
            old(self).cursor_ok(),
        ensures
            final(self).cursor_ok(),
            final(self).src == old(self).src,
            final(self).start == old(self).start,
            final(self).start_line == old(self).start_line,
            final(self).current == old(self).current,
            final(self).errors == old(self).errors,
            tokens_view(final(self).tokens@) == tokens_view(old(self).tokens@).push(
                crate::tokens::SpecToken {
                    tt,
                    lexeme: old(self).src@.subrange(old(self).start as int, old(self).current as int),
                    line: line_at(old(self).src@, old(self).start as int),
                    literal: SpecLiteral::NoVal,
                },
            ),
    {
        self.add_token_with_value(tt, LiteralValue::NoVal);
    }

    /// Scans a string literal whose opening quote was just consumed.
    fn string(&mut self)
        requires
            old(self).cursor_ok(),
            old(self).start < old(self).src@.len(),
            old(self).src@[old(self).start as int] == '"',
            old(self).current == old(self).start + 1,
        ensures
            final(self).unit_done(old(self)),
    {
        let ghost src = self.src@;
        let ghost pos = self.start as int;
        proof {
            lemma_find_char(src, pos + 1, '"');
        }
        while !self.is_at_end() && self.peek() != '"'
            invariant
                self.moved(old(self)),
                src == self.src@,
                0 <= pos < src.len(),
                pos + 1 <= self.current <= closing_quote(src, pos),
            decreases src.len() - self.current,
        {
            proof {
                lemma_find_char(src, pos + 1, '"');
            }
            self.advance();
        }
        proof {
            lemma_find_char(src, pos + 1, '"');
        }
        let terminated = !self.is_at_end();
        let close = self.current;
        if terminated {
            self.advance();
        } else {
            self.errors.push(ScanError::UnterminatedString { line: self.start_line });
        }
        let value = self.text(self.start + 1, close);
        self.add_token_with_value(TokenType::STRING, LiteralValue::Str(value));
        assert(self.current == unit_end(src, pos));
        assert(unit_token(src, pos) is Some);
        assert(tokens_view(self.tokens@) =~= tokens_view(old(self).tokens@) + opt_seq(unit_token(src, pos)));
        assert(self.errors@ =~= old(self).errors@ + opt_seq(unit_error(src, pos)));
    }

    /// The value of the digits from `from` to `to`, if it fits in an `i64`.
    fn integer_value(&self, from: usize, to: usize) -> (v: Option<i64>)
        requires
            self.wf(),
            from <= to <= self.src@.len(),
            forall|j: int| from <= j < to ==> is_digit(#[trigger] self.src@[j]),
        ensures
            match v {
                Some(n) => n as int == digits_value(self.src@.subrange(from as int, to as int)),
                None => digits_value(self.src@.subrange(from as int, to as int)) > i64::MAX,
            },
    {
        let ghost whole = self.src@.subrange(from as int, to as int);
        let mut acc: i64 = 0;
        let mut k: usize = from;
        assert(whole.take(0) =~= Seq::<char>::empty());
        assert forall|j: int| 0 <= j < whole.len() implies is_digit(#[trigger] whole[j]) by {
            assert(whole[j] == self.src@[from + j]);
        }
        while k < to
            invariant
                self.wf(),
                from <= k <= to <= self.src@.len(),
                forall|j: int| from <= j < to ==> is_digit(#[trigger] self.src@[j]),
                forall|j: int| 0 <= j < whole.len() ==> is_digit(#[trigger] whole[j]),
                whole == self.src@.subrange(from as int, to as int),
                acc == digits_value(whole.take(k - from)),
            decreases to - k,
        {
            let c = self.char_at(k);
            proof {
                lemma_digits_value_prefix(whole, k + 1 - from);
                assert(whole.take(k + 1 - from).drop_last() =~= whole.take(k - from));
            }
            let d = (c as u32 - '0' as u32) as i64;
            if acc > (i64::MAX - d) / 10 {
                return None;
            }
            acc = acc * 10 + d;
            k = k + 1;
        }
        assert(whole.take(to - from) =~= whole);
        Some(acc)
    }

    /// Scans a number whose first digit was just consumed. Returns `false`,
    /// and emits nothing, when the number is an integer too large for an `i64`.
    fn number(&mut self) -> (fits: bool)
        requires
            old(self).cursor_ok(),
            old(self).start < old(self).src@.len(),
            is_digit(old(self).src@[old(self).start as int]),
            old(self).current == old(self).start + 1,
        ensures
            fits == literal_fits(old(self).src@, old(self).start as int),
            fits ==> final(self).unit_done(old(self)),
            !fits ==> final(self).moved(old(self)) && final(self).current == unit_end(
                old(self).src@,
                old(self).start as int,
            ),
    {
        let ghost src = self.src@;
        let ghost pos = self.start as int;
        proof {
            lemma_digits_end(src, pos + 1);
        }
        while Self::is_digit(self.peek())
            invariant
                self.moved(old(self)),
                src == self.src@,
                0 <= pos < src.len(),
                pos + 1 <= self.current <= digits_end(src, pos + 1),
            decreases src.len() - self.current,
        {
            proof {
                lemma_digits_end(src, pos + 1);
            }
            self.advance();
        }
        proof {
            lemma_digits_end(src, pos + 1);
        }
        let mut is_float = false;
        if self.peek() == '.' && Self::is_digit(self.peek_next()) {
            self.advance();
            is_float = true;
            proof {
                lemma_digits_end(src, self.current as int);
            }
            while Self::is_digit(self.peek())
                invariant
                    self.moved(old(self)),
                    src == self.src@,
                    0 <= pos < src.len(),
                    pos + 1 <= digits_end(src, pos + 1) + 1 <= src.len(),
                    digits_end(src, pos + 1) + 1 <= self.current,
                    self.current <= digits_end(src, digits_end(src, pos + 1) + 1),
                decreases src.len() - self.current,
            {
                proof {
                    lemma_digits_end(src, digits_end(src, pos + 1) + 1);
                }
                self.advance();
            }
            proof {
                lemma_digits_end(src, digits_end(src, pos + 1) + 1);
            }
        }
        assert(is_float == has_fraction(src, pos));
        let literal = if is_float {
            LiteralValue::NumFloat(self.text(self.start, self.current))
        } else {
            match self.integer_value(self.start, self.current) {
                Some(v) => LiteralValue::Num(v),
                None => {
                    return false;
                },
            }
        };
        self.add_token_with_value(TokenType::NUMBER, literal);
        assert(self.current == unit_end(src, pos));
        assert(unit_token(src, pos) is Some);
        assert(tokens_view(self.tokens@) =~= tokens_view(old(self).tokens@) + opt_seq(unit_token(src, pos)));
        assert(unit_error(src, pos) is None);
        assert(self.errors@ =~= old(self).errors@ + opt_seq(unit_error(src, pos)));
        true
    }

    /// Whether the source text from `from` to `to` spells `w`.
    fn word_is(&self, from: usize, to: usize, w: &[char]) -> (r: bool)
        requires
            self.wf(),
            from <= to <= self.src@.len(),
        ensures
            r == (self.src@.subrange(from as int, to as int) == w@),
    {
        if to - from != w.len() {
            assert(self.src@.subrange(from as int, to as int).len() != w@.len());
            return false;
        }
        let mut i: usize = 0;
        while i < w.len()
            invariant
                self.wf(),
                from <= to <= self.src@.len(),
                to - from == w@.len(),
                i <= w@.len(),
                self.src@.subrange(from as int, from + i) == w@.take(i as int),
            decreases w@.len() - i,
        {
            if self.char_at(from + i) != w[i] {
                assert(self.src@.subrange(from as int, to as int)[i as int] != w@[i as int]);
                return false;
            }
            assert(self.src@.subrange(from as int, from + i + 1) =~= w@.take(i + 1));
            i = i + 1;
        }
        assert(self.src@.subrange(from as int, to as int) =~= w@);
        true
    }

    /// The reserved word spelled by the source text from `from` to `to`.
    fn keyword(&self, from: usize, to: usize) -> (r: Option<TokenType>)
        requires
            self.wf(),
            from <= to <= self.src@.len(),
        ensures
            r == keyword_of(self.src@.subrange(from as int, to as int)),
    {
        if self.word_is(from, to, &['a', 'n', 'd']) {
            Some(TokenType::AND)
        } else if self.word_is(from, to, &['c', 'l', 'a', 's', 's']) {
            Some(TokenType::CLASS)
        } else if self.word_is(from, to, &['e', 'l', 's', 'e']) {
            Some(TokenType::ELSE)
        } else if self.word_is(from, to, &['f', 'a', 'l', 's', 'e']) {
            Some(TokenType::FALSE)
        } else if self.word_is(from, to, &['f', 'o', 'r']) {
            Some(TokenType::FOR)
        } else if self.word_is(from, to, &['f', 'u', 'n']) {
            Some(TokenType::FUN)
        } else if self.word_is(from, to, &['i', 'f']) {
            Some(TokenType::IF)
        } else if self.word_is(from, to, &['n', 'i', 'l']) {
            Some(TokenType::NIL)
        } else if self.word_is(from, to, &['o', 'r']) {
            Some(TokenType::OR)
        } else if self.word_is(from, to, &['p', 'r', 'i', 'n', 't']) {
            Some(TokenType::PRINT)
        } else if self.word_is(from, to, &['r', 'e', 't', 'u', 'r', 'n']) {
            Some(TokenType::RETURN)
        } else if self.word_is(from, to, &['s', 'u', 'p', 'e', 'r']) {
            Some(TokenType::SUPER)
        } else if self.word_is(from, to, &['t', 'h', 'i', 's']) {
            Some(TokenType::THIS)
        } else if self.word_is(from, to, &['t', 'r', 'u', 'e']) {
            Some(TokenType::TRUE)
        } else if self.word_is(from, to, &['v', 'a', 'r']) {
            Some(TokenType::VAR)
        } else if self.word_is(from, to, &['w', 'h', 'i', 'l', 'e']) {
            Some(TokenType::WHILE)
        } else {
            None
        }
    }

    /// Scans an identifier or reserved word whose first character was just
    /// consumed.
    fn identifier(&mut self)
        requires
            old(self).cursor_ok(),
            old(self).start < old(self).src@.len(),
            is_alpha(old(self).src@[old(self).start as int]),
            old(self).current == old(self).start + 1,
        ensures
            final(self).unit_done(old(self)),
    {
        let ghost src = self.src@;
        let ghost pos = self.start as int;
        proof {
            lemma_ident_end(src, pos + 1);
        }
        while Self::is_alpha_numeric(self.peek())
            invariant
                self.moved(old(self)),
                src == self.src@,
                0 <= pos < src.len(),
                pos + 1 <= self.current <= ident_end(src, pos + 1),
            decreases src.len() - self.current,
        {
            proof {
                lemma_ident_end(src, pos + 1);
            }
            self.advance();
        }
        proof {
            lemma_ident_end(src, pos + 1);
        }
        let tt = match self.keyword(self.start, self.current) {
            Some(k) => k,
            None => TokenType::IDENTIFIER,
        };
        self.add_token(tt);
        assert(self.current == unit_end(src, pos));
        assert(unit_token(src, pos) is Some);
        assert(tokens_view(self.tokens@) =~= tokens_view(old(self).tokens@) + opt_seq(unit_token(src, pos)));
        assert(unit_error(src, pos) is None);
        assert(self.errors@ =~= old(self).errors@ + opt_seq(unit_error(src, pos)));
    }

    /// Scans the lexical unit that starts at the cursor. Returns `false`,
    /// and emits nothing, for an integer too large for an `i64`.
    fn scan_token(&mut self) -> (fits: bool)
        requires
            old(self).cursor_ok(),
            old(self).start == old(self).current,
            old(self).current < old(self).src@.len(),
        ensures
            fits == literal_fits(old(self).src@, old(self).start as int),
            fits ==> final(self).unit_done(old(self)),
            !fits ==> final(self).moved(old(self)) && final(self).current == unit_end(
                old(self).src@,
                old(self).start as int,
            ),
    {
        let ghost src = self.src@;
        let ghost pos = self.start as int;
        let c = self.advance();
        match c {
            '(' => self.add_token(TokenType::LEFT_PAREN),
            ')' => self.add_token(TokenType::RIGHT_PAREN),
            '{' => self.add_token(TokenType::LEFT_BRACE),
            '}' => self.add_token(TokenType::RIGHT_BRACE),
            ',' => self.add_token(TokenType::COMMA),
            '.' => self.add_token(TokenType::DOT),
            '-' => self.add_token(TokenType::MINUS),
            '+' => self.add_token(TokenType::PLUS),
            ';' => self.add_token(TokenType::SEMICOLON),
            '*' => self.add_token(TokenType::STAR),
            '!' => {
                let tt = if self.matching('=') {
                    TokenType::BANG_EQUAL
                } else {
                    TokenType::BANG
                };
                self.add_token(tt);
            },
            '=' => {
                let tt = if self.matching('=') {
                    TokenType::EQUAL_EQUAL
                } else {
                    TokenType::EQUAL
                };
                self.add_token(tt);
            },
            '<' => {
                let tt = if self.matching('=') {
                    TokenType::LESS_EQUAL
                } else {
                    TokenType::LESS
                };
                self.add_token(tt);
            },
            '>' => {
                let tt = if self.matching('=') {
                    TokenType::GREATER_EQUAL
                } else {
                    TokenType::GREATER
                };
                self.add_token(tt);
            },
            '/' => {
                if self.matching('/') {
                    // A comment runs to the end of the line.
                    proof {
                        lemma_find_char(src, pos + 2, '\n');
                    }
                    while !self.is_at_end() && self.peek() != '\n'
                        invariant
                            self.moved(old(self)),
                            src == self.src@,
                            0 <= pos && pos + 2 <= src.len(),
                            pos + 2 <= self.current <= find_char(src, pos + 2, '\n'),
                        decreases src.len() - self.current,
                    {
                        proof {
                            lemma_find_char(src, pos + 2, '\n');
                        }
                        self.advance();
                    }
                    proof {
                        lemma_find_char(src, pos + 2, '\n');
                    }
                } else {
                    self.add_token(TokenType::SLASH);
                }
            },
            ' ' | '\r' | '\t' | '\n' => {},
            '"' => self.string(),
            _ => {
                if Self::is_digit(c) {
                    return self.number();
                } else if Self::is_alpha(c) {
                    self.identifier();
                } else {
                    self.errors.push(ScanError::UnexpectedCharacter { line: self.start_line, ch: c });
                }
            },
        }
        assert(self.current == unit_end(src, pos));
        assert(tokens_view(self.tokens@) =~= tokens_view(old(self).tokens@) + opt_seq(
            unit_token(src, pos),
        ));
        assert(self.errors@ =~= old(self).errors@ + opt_seq(unit_error(src, pos)));
        true
    }

    /// Scans the whole source and returns its tokens, the last of them EOF.
    ///
    /// Each call starts again from the beginning of the source.
    pub fn scan_tokens(&mut self) -> (r: &Vec<Token>)
        requires
            old(self).wf(),
            numbers_fit(old(self).source()),
        ensures
            final(self).wf(),
            final(self).source() == old(self).source(),
            tokens_view(r@) == scan(old(self).source()),
            final(self).spec_tokens() == scan(old(self).source()),
            final(self).spec_errors() == scan_errors(old(self).source()),
    {
        let ghost src = self.src@;
        proof {
            lemma_line_start(src);
        }
        self.start = 0;
        self.start_line = 1;
        self.current = 0;
        self.line = 1;
        self.tokens = Vec::new();
        self.errors = Vec::new();
        assert(tokens_view(self.tokens@) + tokens_from(src, 0) =~= tokens_from(src, 0));
        assert(self.errors@ + errors_from(src, 0) =~= errors_from(src, 0));
        while !self.is_at_end()
            invariant
                self.cursor_ok(),
                src == self.src@,
                numbers_fit(src),
                tokens_view(self.tokens@) + tokens_from(src, self.current as int) == tokens_from(
                    src,
                    0,
                ),
                self.errors@ + errors_from(src, self.current as int) == errors_from(src, 0),
            decreases src.len() - self.current,
        {
            let ghost done = tokens_view(self.tokens@);
            let ghost cur = self.current as int;
            proof {
                lemma_unit_end(src, cur);
                assert(tokens_from(src, cur) == opt_seq(unit_token(src, cur)) + tokens_from(
                    src,
                    unit_end(src, cur),
                ));
                assert(errors_from(src, cur) == opt_seq(unit_error(src, cur)) + errors_from(
                    src,
                    unit_end(src, cur),
                ));
                if unit_literal(src, cur) is Num {
                    lemma_digits_end(src, cur + 1);
                    let t = unit_token(src, cur)->0;
                    let rest = tokens_from(src, unit_end(src, cur));
                    assert(unit_token(src, cur) is Some);
                    assert(tokens_from(src, 0) == done + (seq![t] + rest));
                    assert(scan(src)[done.len() as int] == t);
                    assert(t.literal == unit_literal(src, cur));
                }
            }
            self.start = self.current;
            self.start_line = self.line;
            self.scan_token();
            assert(tokens_view(self.tokens@) + tokens_from(src, self.current as int) =~= done + (
            opt_seq(unit_token(src, cur)) + tokens_from(src, unit_end(src, cur))));
        }
        let eof = Token::new(TokenType::EOF, String::new(), self.line, LiteralValue::NoVal);
        self.tokens.push(eof);
        assert(tokens_view(self.tokens@) =~= scan(src));
        &self.tokens
    }

    /// Whether every integer literal of the source fits in an `i64`, which
    /// [`Scanner::scan_tokens`] asks of its source.
    pub fn integers_fit(&mut self) -> (r: bool)
        requires
            old(self).wf(),
        ensures
            final(self).wf(),
            final(self).source() == old(self).source(),
            final(self).spec_tokens() == Seq::<crate::tokens::SpecToken>::empty(),
            final(self).spec_errors() == Seq::<ScanError>::empty(),
            r == numbers_fit(old(self).source()),
    {
        let ghost src = self.src@;
        proof {
            lemma_line_start(src);
        }
        self.start = 0;
        self.start_line = 1;
        self.current = 0;
        self.line = 1;
        self.tokens = Vec::new();
        self.errors = Vec::new();
        assert(tokens_view(self.tokens@) + tokens_from(src, 0) =~= tokens_from(src, 0));
        let mut fits = true;
        while !self.is_at_end()
            invariant_except_break
                fits,
                tokens_view(self.tokens@) + tokens_from(src, self.current as int) == tokens_from(
                    src,
                    0,
                ),
                literals_fit(tokens_view(self.tokens@)),
            invariant
                self.cursor_ok(),
                src == self.src@,
            ensures
                fits ==> self.current >= src.len() && tokens_view(self.tokens@) + tokens_from(
                    src,
                    self.current as int,
                ) == tokens_from(src, 0) && literals_fit(tokens_view(self.tokens@)),
                !fits ==> !numbers_fit(src),
            decreases src.len() - self.current,
        {
            let ghost done = tokens_view(self.tokens@);
            let ghost cur = self.current as int;
            proof {
                lemma_unit_end(src, cur);
                assert(tokens_from(src, cur) == opt_seq(unit_token(src, cur)) + tokens_from(
                    src,
                    unit_end(src, cur),
                ));
            }
            self.start = self.current;
            self.start_line = self.line;
            if !self.scan_token() {
                proof {
                    lemma_digits_end(src, cur + 1);
                    let t = unit_token(src, cur)->0;
                    let rest = tokens_from(src, unit_end(src, cur));
                    assert(unit_token(src, cur) is Some);
                    assert(tokens_from(src, 0) == done + (seq![t] + rest));
                    assert(scan(src)[done.len() as int] == t);
                    assert(!literal_fits(src, cur));
                    assert(t.literal == unit_literal(src, cur));
                    assert(0 <= done.len() < scan(src).len());
                    let k = done.len() as int;
                    assert(!match scan(src)[k].literal {
                        SpecLiteral::Num(v) => v <= i64::MAX,
                        _ => true,
                    });
                }
                fits = false;
                break;
            }
            assert(tokens_view(self.tokens@) + tokens_from(src, self.current as int) =~= done + (
            opt_seq(unit_token(src, cur)) + tokens_from(src, unit_end(src, cur))));
            assert forall|k: int| 0 <= k < tokens_view(self.tokens@).len() implies match #[trigger] tokens_view(self.tokens@)[k].literal {
                SpecLiteral::Num(v) => v <= i64::MAX,
                _ => true,
            } by {
                if k >= done.len() {
                    assert(tokens_view(self.tokens@)[k] == unit_token(src, cur)->0);
                } else {
                    assert(tokens_view(self.tokens@)[k] == done[k]);
                }
            }
        }
        proof {
            if fits {
                assert(tokens_view(self.tokens@) =~= tokens_from(src, 0));
                assert forall|k: int| 0 <= k < scan(src).len() implies match #[trigger] scan(src)[k].literal {
                    SpecLiteral::Num(v) => v <= i64::MAX,
                    _ => true,
                } by {
                    if k < tokens_from(src, 0).len() {
                        assert(scan(src)[k] == tokens_view(self.tokens@)[k]);
                    }
                }
            }
        }
        self.tokens = Vec::new();
        self.errors = Vec::new();
        assert(tokens_view(self.tokens@) =~= Seq::<crate::tokens::SpecToken>::empty());
        fits
    }
}

} // verus!
