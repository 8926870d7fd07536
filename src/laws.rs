//! Facts about the token sequence of every source text.
use crate::grammar::{
    digits_end, eof_token, has_fraction, is_alpha, is_alpha_numeric, is_digit, keyword_of,
    lemma_digits_end, lemma_ident_end, lemma_line_step, lemma_unit_end, line_at, next_is, operator,
    opt_seq, scan, tokens_from, unit_end, unit_token, unit_type,
};
use crate::tokens::TokenType;
use vstd::prelude::*;

verus! {

proof fn lemma_no_eof_from(src: Seq<char>, pos: int)
    requires
        0 <= pos <= src.len(),
    ensures
        forall|k: int|
            0 <= k < tokens_from(src, pos).len() ==> #[trigger] tokens_from(src, pos)[k].tt
                != TokenType::EOF,
    decreases src.len() - pos,
{
    if pos < src.len() {
        lemma_unit_end(src, pos);
        let rest = tokens_from(src, unit_end(src, pos));
        lemma_no_eof_from(src, unit_end(src, pos));
        let here = opt_seq(unit_token(src, pos));
        assert(tokens_from(src, pos) == here + rest);
        if unit_token(src, pos) is Some {
            let w = src.subrange(pos, unit_end(src, pos));
            assert(keyword_of(w) != Some(TokenType::EOF));
        }
        assert forall|k: int| 0 <= k < tokens_from(src, pos).len() implies #[trigger] tokens_from(
            src,
            pos,
        )[k].tt != TokenType::EOF by {
            if k >= here.len() {
                assert(tokens_from(src, pos)[k] == rest[k - here.len()]);
            }
        }
    }
}

/// The token sequence of every source text, the empty one included, is
/// non-empty, ends with an EOF token, and has no EOF token before that.
pub proof fn eof_terminated(src: Seq<char>)
    ensures
        scan(src).len() >= 1,
        scan(src).last().tt == TokenType::EOF,
        scan(src).last() == eof_token(src),
        forall|k: int| 0 <= k < scan(src).len() - 1 ==> #[trigger] scan(src)[k].tt != TokenType::EOF,
{
    lemma_no_eof_from(src, 0);
    assert forall|k: int| 0 <= k < scan(src).len() - 1 implies #[trigger] scan(src)[k].tt
        != TokenType::EOF by {
        assert(scan(src)[k] == tokens_from(src, 0)[k]);
    }
}

proof fn lemma_tokens_from_units(src: Seq<char>, pos: int)
    requires
        0 <= pos <= src.len(),
    ensures
        forall|k: int|
            0 <= k < tokens_from(src, pos).len() ==> exists|s: int|
                pos <= s < src.len() && unit_token(src, s) == Some(
                    #[trigger] tokens_from(src, pos)[k],
                ),
    decreases src.len() - pos,
{
    if pos < src.len() {
        lemma_unit_end(src, pos);
        let rest = tokens_from(src, unit_end(src, pos));
        lemma_tokens_from_units(src, unit_end(src, pos));
        let here = opt_seq(unit_token(src, pos));
        assert(tokens_from(src, pos) == here + rest);
        assert forall|k: int| 0 <= k < tokens_from(src, pos).len() implies exists|s: int|
            pos <= s < src.len() && unit_token(src, s) == Some(
                #[trigger] tokens_from(src, pos)[k],
            ) by {
            if k < here.len() {
                assert(unit_token(src, pos) == Some(tokens_from(src, pos)[k]));
            } else {
                assert(tokens_from(src, pos)[k] == rest[k - here.len()]);
            }
        }
    }
}

/// Every token but the final EOF is the token of the lexical unit that starts
/// at some position `s` of the source: its lexeme is exactly the source text
/// from `s` to where that unit ends, and its line is the line of `s`.
pub proof fn lexeme_fidelity(src: Seq<char>)
    ensures
        forall|k: int|
            0 <= k < scan(src).len() - 1 ==> exists|s: int|
                0 <= s < unit_end(src, s) <= src.len() && unit_token(src, s) == Some(
                    #[trigger] scan(src)[k],
                ) && scan(src)[k].lexeme == src.subrange(s, unit_end(src, s)) && scan(src)[k].line
                    == line_at(src, s),
{
    lemma_tokens_from_units(src, 0);
    assert forall|k: int| 0 <= k < scan(src).len() - 1 implies exists|s: int|
        0 <= s < unit_end(src, s) <= src.len() && unit_token(src, s) == Some(
            #[trigger] scan(src)[k],
        ) && scan(src)[k].lexeme == src.subrange(s, unit_end(src, s)) && scan(src)[k].line
            == line_at(src, s) by {
        assert(scan(src)[k] == tokens_from(src, 0)[k]);
        let s = choose|s: int|
            0 <= s < src.len() && unit_token(src, s) == Some(#[trigger] tokens_from(src, 0)[k]);
        lemma_unit_end(src, s);
    }
}

/// Identifier and number scans munch maximally: an identifier unit is a run
/// of identifier characters not followed by one; a number unit is a run of
/// digits, with at most one fractional part, not followed by a digit, and an
/// integer unit is not followed by a `.` and a digit.
pub proof fn maximal_munch(src: Seq<char>, pos: int)
    requires
        0 <= pos < src.len(),
    ensures
        is_alpha(src[pos]) ==> {
            let e = unit_end(src, pos);
            &&& forall|j: int| pos <= j < e ==> is_alpha_numeric(#[trigger] src[j])
            &&& e == src.len() || !is_alpha_numeric(src[e])
        },
        is_digit(src[pos]) ==> {
            let e = unit_end(src, pos);
            &&& pos < e <= src.len()
            &&& e == src.len() || !is_digit(src[e])
            &&& !has_fraction(src, pos) ==> forall|j: int|
                pos <= j < e ==> is_digit(#[trigger] src[j])
            &&& !has_fraction(src, pos) ==> !(e + 1 < src.len() && src[e] == '.' && is_digit(
                src[e + 1],
            ))
            &&& has_fraction(src, pos) ==> src[digits_end(src, pos + 1)] == '.' && forall|j: int|
                pos <= j < e && j != digits_end(src, pos + 1) ==> is_digit(#[trigger] src[j])
        },
{
    if is_alpha(src[pos]) {
        lemma_ident_end(src, pos + 1);
    }
    if is_digit(src[pos]) {
        lemma_digits_end(src, pos + 1);
        let d = digits_end(src, pos + 1);
        if has_fraction(src, pos) {
            lemma_digits_end(src, d + 1);
        }
    }
}

proof fn lemma_line_monotone(src: Seq<char>, a: int, b: int)
    requires
        0 <= a <= b <= src.len(),
    ensures
        line_at(src, a) <= line_at(src, b),
    decreases b - a,
{
    if a < b {
        lemma_line_monotone(src, a, b - 1);
        lemma_line_step(src, b - 1);
    }
}

proof fn lemma_lines_from(src: Seq<char>, pos: int)
    requires
        0 <= pos <= src.len(),
    ensures
        forall|k: int|
            0 <= k < tokens_from(src, pos).len() ==> line_at(src, pos) <= #[trigger] tokens_from(
                src,
                pos,
            )[k].line <= line_at(src, src.len() as int),
        forall|i: int, j: int|
            0 <= i <= j < tokens_from(src, pos).len() ==> #[trigger] tokens_from(src, pos)[i].line
                <= #[trigger] tokens_from(src, pos)[j].line,
    decreases src.len() - pos,
{
    if pos < src.len() {
        let e = unit_end(src, pos);
        lemma_unit_end(src, pos);
        lemma_lines_from(src, e);
        lemma_line_monotone(src, pos, e);
        lemma_line_monotone(src, pos, src.len() as int);
        let rest = tokens_from(src, e);
        let here = opt_seq(unit_token(src, pos));
        let all = tokens_from(src, pos);
        assert(all == here + rest);
        assert forall|k: int| 0 <= k < all.len() implies line_at(src, pos) <= #[trigger] all[k].line
            <= line_at(src, src.len() as int) by {
            if k >= here.len() {
                assert(all[k] == rest[k - here.len()]);
            }
        }
        assert forall|i: int, j: int| 0 <= i <= j < all.len() implies #[trigger] all[i].line
            <= #[trigger] all[j].line by {
            if i >= here.len() {
                assert(all[i] == rest[i - here.len()]);
                assert(all[j] == rest[j - here.len()]);
            } else if j >= here.len() {
                assert(all[j] == rest[j - here.len()]);
            }
        }
    }
}

/// Line numbers never decrease along the token sequence.
pub proof fn lines_non_decreasing(src: Seq<char>)
    ensures
        forall|i: int, j: int|
            0 <= i <= j < scan(src).len() ==> #[trigger] scan(src)[i].line <= #[trigger] scan(
                src,
            )[j].line,
{
    lemma_lines_from(src, 0);
    let t = tokens_from(src, 0);
    assert forall|i: int, j: int| 0 <= i <= j < scan(src).len() implies #[trigger] scan(src)[i].line
        <= #[trigger] scan(src)[j].line by {
        if j < t.len() {
            assert(scan(src)[i] == t[i]);
            assert(scan(src)[j] == t[j]);
        } else if i < t.len() {
            assert(scan(src)[i] == t[i]);
        }
    }
}

/// `!`, `=`, `<` and `>` take a following `=` into one two-character
/// operator, and stand alone otherwise.
pub proof fn two_char_operators(src: Seq<char>, pos: int)
    requires
        0 <= pos < src.len(),
        operator(src[pos], false) is Some,
    ensures
        next_is(src, pos, '=') ==> unit_end(src, pos) == pos + 2 && unit_type(src, pos) == operator(
            src[pos],
            true,
        ),
        !next_is(src, pos, '=') ==> unit_end(src, pos) == pos + 1 && unit_type(src, pos)
            == operator(src[pos], false),
        unit_type(src, pos) is Some,
{
}

} // verus!
