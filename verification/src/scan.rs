//! The lexical structure of the language, stated over sequences of
//! characters: where each token starts and ends, what it is worth, and where
//! in the source it lies.

use crate::chars::{all_alphanumeric, ends_run, is_digit, is_quote, is_single};
use crate::integer::{integer_value, is_integer_text, signed_value};
use crate::tokenizer::{LexErrorView, PositionView, SpanView, TokenValueView, TokenView};
use vstd::prelude::*;

verus! {

/// How many of the first `i` characters of `s` are line feeds.
pub open spec fn newlines_before(s: Seq<char>, i: int) -> int
    decreases i,
{
    if i <= 0 {
        0
    } else {
        newlines_before(s, i - 1) + if s[i - 1] == '\n' {
            1int
        } else {
            0int
        }
    }
}

/// The index at which the line of the character at index `i` starts: just
/// behind the last line feed before `i`, or 0.
pub open spec fn line_start(s: Seq<char>, i: int) -> int
    decreases i,
{
    if i <= 0 {
        0
    } else if s[i - 1] == '\n' {
        i
    } else {
        line_start(s, i - 1)
    }
}

/// Where the character at index `i` of `s` lies. Its offset counts the
/// characters read up to and including it, so the first character has offset
/// 1; lines and columns start at 1, and a line feed is the last character of
/// its line.
pub open spec fn position_of(s: Seq<char>, i: int) -> PositionView {
    PositionView {
        position: i + 1,
        line: newlines_before(s, i) + 1,
        column: i - line_start(s, i) + 1,
    }
}

/// The span from the character at index `i` to the one at index `j`, both
/// included.
pub open spec fn span_of(s: Seq<char>, i: int, j: int) -> SpanView {
    SpanView { start: position_of(s, i), end: position_of(s, j) }
}

/// The token that a single character is, if it is one by itself.
pub open spec fn single_value(c: char) -> Option<TokenValueView> {
    if c == ';' {
        Some(TokenValueView::Semicolon)
    } else if c == '\n' {
        Some(TokenValueView::Newline)
    } else if c == ' ' {
        Some(TokenValueView::Space)
    } else if c == '(' {
        Some(TokenValueView::RoundOpen)
    } else if c == ')' {
        Some(TokenValueView::RoundClose)
    } else {
        None
    }
}

/// The first index from `i` on at which a run of text ends: that of the next
/// single-character token or double quote, or the length of `s`.
pub open spec fn run_end(s: Seq<char>, i: int) -> int
    decreases s.len() - i,
{
    if 0 <= i < s.len() && !ends_run(s[i]) {
        run_end(s, i + 1)
    } else {
        i
    }
}

/// The index of the first double quote from `i` on, or the length of `s` if
/// there is none.
pub open spec fn closing_quote(s: Seq<char>, i: int) -> int
    decreases s.len() - i,
{
    if 0 <= i < s.len() && !is_quote(s[i]) {
        closing_quote(s, i + 1)
    } else {
        i
    }
}

/// What a run of text is: an integer if it reads as one of 32 bits, else an
/// identifier if all its characters are alphanumeric, else an error.
pub open spec fn classify(text: Seq<char>) -> Result<TokenValueView, LexErrorView> {
    match integer_value(text) {
        Some(v) => Ok(TokenValueView::Integer(v)),
        None => if all_alphanumeric(text) {
            Ok(TokenValueView::Identifier(text))
        } else {
            Err(LexErrorView::UnexpectedToken(text))
        },
    }
}

/// The token that starts at index `i` of `s`, with the index just behind it.
pub open spec fn token_at(s: Seq<char>, i: int) -> Result<(TokenView, int), LexErrorView>
    recommends
        0 <= i < s.len(),
{
    if is_single(s[i]) {
        Ok((TokenView { value: single_value(s[i])->0, span: span_of(s, i, i) }, i + 1))
    } else if is_quote(s[i]) {
        let j = closing_quote(s, i + 1);
        if j < s.len() {
            Ok(
                (
                    TokenView {
                        value: TokenValueView::StringLiteral(s.subrange(i + 1, j)),
                        span: span_of(s, i, j),
                    },
                    j + 1,
                ),
            )
        } else {
            Err(LexErrorView::UnterminatedStringLiteral)
        }
    } else {
        let j = run_end(s, i + 1);
        match classify(s.subrange(i, j)) {
            Ok(value) => Ok((TokenView { value, span: span_of(s, i, j - 1) }, j)),
            Err(e) => Err(e),
        }
    }
}

/// The tokens of `s` from index `i` to its end, or the first error met.
pub open spec fn tokens_from(s: Seq<char>, i: int) -> Result<Seq<TokenView>, LexErrorView>
    decreases s.len() - i,
{
    if 0 <= i < s.len() {
        match token_at(s, i) {
            Ok((token, next)) => {
                proof {
                    lemma_token_advances(s, i);
                }
                match tokens_from(s, next) {
                    Ok(rest) => Ok(seq![token] + rest),
                    Err(e) => Err(e),
                }
            },
            Err(e) => Err(e),
        }
    } else {
        Ok(Seq::empty())
    }
}

/// All tokens of the source text `s`, cosmetic ones included, or the first
/// lexical error in it.
pub open spec fn tokens_of(s: Seq<char>) -> Result<Seq<TokenView>, LexErrorView> {
    tokens_from(s, 0)
}

/// Whether a token is more than a space or a line feed.
pub open spec fn is_significant(token: TokenView) -> bool {
    !token.value.is_cosmetic()
}

/// The tokens that the parser works on: `tokens` without spaces and line
/// feeds, in the same order.
pub open spec fn without_cosmetic(tokens: Seq<TokenView>) -> Seq<TokenView> {
    tokens.filter(|t: TokenView| is_significant(t))
}

/// What the tokens are, without where they were read.
pub open spec fn values_of(tokens: Seq<TokenView>) -> Seq<TokenValueView> {
    tokens.map_values(|t: TokenView| t.value)
}

/// The tokens `read` so far, followed by what the rest of the text gives.
pub open spec fn after(read: Seq<TokenView>, rest: Result<Seq<TokenView>, LexErrorView>) -> Result<
    Seq<TokenView>,
    LexErrorView,
> {
    match rest {
        Ok(tokens) => Ok(read + tokens),
        Err(e) => Err(e),
    }
}

/// A run ends at or behind the index it is looked for from, within the text;
/// no character up to there ends a run, and the one there does.
pub proof fn lemma_run_end(s: Seq<char>, i: int)
    requires
        0 <= i <= s.len(),
    ensures
        i <= run_end(s, i) <= s.len(),
        forall|k: int| i <= k < run_end(s, i) ==> !ends_run(#[trigger] s[k]),
        run_end(s, i) < s.len() ==> ends_run(s[run_end(s, i)]),
    decreases s.len() - i,
{
    if i < s.len() && !ends_run(s[i]) {
        lemma_run_end(s, i + 1);
    }
}

/// The closing quote is looked for within the text; no character before the
/// index found is a quote, and the one there is.
pub proof fn lemma_closing_quote(s: Seq<char>, i: int)
    requires
        0 <= i <= s.len(),
    ensures
        i <= closing_quote(s, i) <= s.len(),
        forall|k: int| i <= k < closing_quote(s, i) ==> !is_quote(#[trigger] s[k]),
        closing_quote(s, i) < s.len() ==> is_quote(s[closing_quote(s, i)]),
    decreases s.len() - i,
{
    if i < s.len() && !is_quote(s[i]) {
        lemma_closing_quote(s, i + 1);
    }
}

/// Every token holds at least one character and ends within the text.
pub proof fn lemma_token_advances(s: Seq<char>, i: int)
    requires
        0 <= i < s.len(),
    ensures
        token_at(s, i) matches Ok((_, next)) ==> i < next <= s.len(),
{
    lemma_run_end(s, i + 1);
    lemma_closing_quote(s, i + 1);
}

/// Lines are counted from 1 and never number more than the characters read;
/// a line starts at or before each of its characters.
pub proof fn lemma_position_bounds(s: Seq<char>, i: int)
    requires
        0 <= i,
    ensures
        0 <= newlines_before(s, i) <= i,
        0 <= line_start(s, i) <= i,
    decreases i,
{
    if i > 0 {
        lemma_position_bounds(s, i - 1);
    }
}

/// Before the first line feed every character lies on line 1, in the column
/// that its offset gives.
pub proof fn lemma_first_line(s: Seq<char>, i: int)
    requires
        0 <= i,
        forall|k: int| 0 <= k < i ==> s[k] != '\n',
    ensures
        position_of(s, i) == (PositionView { position: i + 1, line: 1, column: i + 1 }),
    decreases i,
{
    if i > 0 {
        lemma_first_line(s, i - 1);
    }
}

/// Where nothing ends a run, the run goes on to the end of the text.
pub proof fn lemma_run_to_end(s: Seq<char>, i: int)
    requires
        0 <= i <= s.len(),
        forall|k: int| i <= k < s.len() ==> !ends_run(#[trigger] s[k]),
    ensures
        run_end(s, i) == s.len(),
    decreases s.len() - i,
{
    if i < s.len() {
        lemma_run_to_end(s, i + 1);
    }
}

/// A text that holds no single-character token and no double quote is one run:
/// it is read as one token that spans all of it, or refused as a whole.
pub proof fn lemma_one_run(text: Seq<char>)
    requires
        text.len() > 0,
        forall|k: int| 0 <= k < text.len() ==> !ends_run(#[trigger] text[k]),
    ensures
        tokens_of(text) == match classify(text) {
            Ok(value) => Ok::<Seq<TokenView>, LexErrorView>(
                seq![TokenView { value, span: span_of(text, 0, text.len() - 1) }],
            ),
            Err(e) => Err(e),
        },
        span_of(text, 0, text.len() - 1) == (SpanView {
            start: PositionView { position: 1, line: 1, column: 1 },
            end: PositionView {
                position: text.len() as int,
                line: 1,
                column: text.len() as int,
            },
        }),
{
    lemma_run_to_end(text, 1);
    assert(text.subrange(0, text.len() as int) == text);
    assert(tokens_from(text, text.len() as int) == Ok::<Seq<TokenView>, LexErrorView>(
        Seq::empty(),
    ));
    lemma_first_line(text, 0);
    lemma_first_line(text, text.len() - 1);
}

/// A text of integer form whose number fits in 32 bits, tokenized by itself,
/// is one `Integer` token with exactly that number, spanning the whole text.
pub proof fn law_integer_text_is_one_integer_token(text: Seq<char>)
    requires
        is_integer_text(text),
        i32::MIN <= signed_value(text) <= i32::MAX,
    ensures
        tokens_of(text) == Ok::<Seq<TokenView>, LexErrorView>(
            seq![
                TokenView {
                    value: TokenValueView::Integer(signed_value(text) as i32),
                    span: SpanView {
                        start: PositionView { position: 1, line: 1, column: 1 },
                        end: PositionView {
                            position: text.len() as int,
                            line: 1,
                            column: text.len() as int,
                        },
                    },
                },
            ],
        ),
{
    assert forall|k: int| 0 <= k < text.len() implies !ends_run(#[trigger] text[k]) by {
        if text[0] == '-' && k > 0 {
            assert(is_digit(text.drop_first()[k - 1]));
        }
    }
    lemma_one_run(text);
}

/// A text of one or more alphanumeric characters that is no 32-bit integer
/// (in particular one that has not the form of an integer), tokenized by
/// itself, is one `Identifier` token that carries the text and spans all of
/// it.
pub proof fn law_alphanumeric_text_is_one_identifier_token(text: Seq<char>)
    requires
        text.len() > 0,
        all_alphanumeric(text),
        integer_value(text) is None,
    ensures
        tokens_of(text) == Ok::<Seq<TokenView>, LexErrorView>(
            seq![
                TokenView {
                    value: TokenValueView::Identifier(text),
                    span: SpanView {
                        start: PositionView { position: 1, line: 1, column: 1 },
                        end: PositionView {
                            position: text.len() as int,
                            line: 1,
                            column: text.len() as int,
                        },
                    },
                },
            ],
        ),
{
    lemma_one_run(text);
}

/// The spans of `tokens` cover the offsets behind `from` up to `to` with no
/// gap and no overlap: the first starts right behind `from`, each next one
/// right behind the one before, and the last ends at `to`.
pub open spec fn spans_tile(tokens: Seq<TokenView>, from: int, to: int) -> bool {
    &&& tokens.len() == 0 ==> from == to
    &&& tokens.len() > 0 ==> tokens[0].span.start.position == from + 1
        && tokens.last().span.end.position == to
    &&& forall|k: int|
        0 <= k < tokens.len() ==> (#[trigger] tokens[k]).span.start.position
            <= tokens[k].span.end.position
    &&& forall|k: int|
        0 <= k < tokens.len() - 1 ==> (#[trigger] tokens[k + 1]).span.start.position
            == tokens[k].span.end.position + 1
}

/// No span of `tokens` ends before it starts, and each ends before the next
/// starts: the spans do not overlap and come in source order.
pub open spec fn spans_ordered(tokens: Seq<TokenView>) -> bool {
    &&& forall|k: int|
        0 <= k < tokens.len() ==> (#[trigger] tokens[k]).span.start.position
            <= tokens[k].span.end.position
    &&& forall|i: int, j: int|
        0 <= i < j < tokens.len() ==> (#[trigger] tokens[i]).span.end.position
            < (#[trigger] tokens[j]).span.start.position
}

/// The tokens read from index `i` on tile the rest of the text.
pub proof fn lemma_tokens_tile(s: Seq<char>, i: int)
    requires
        0 <= i <= s.len(),
    ensures
        tokens_from(s, i) matches Ok(tokens) ==> spans_tile(tokens, i, s.len() as int),
    decreases s.len() - i,
{
    if i < s.len() {
        if let Ok((token, next)) = token_at(s, i) {
            lemma_token_advances(s, i);
            lemma_run_end(s, i + 1);
            lemma_tokens_tile(s, next);
            if let Ok(rest) = tokens_from(s, next) {
                let tokens = seq![token] + rest;
                assert(token.span.start.position == i + 1);
                assert(token.span.end.position == next);
                assert forall|k: int| 0 <= k < tokens.len() - 1 implies (#[trigger] tokens[k
                    + 1]).span.start.position == tokens[k].span.end.position + 1 by {
                    if k > 0 {
                        assert(tokens[k + 1] == rest[(k - 1) + 1]);
                        assert(tokens[k] == rest[k - 1]);
                    } else {
                        assert(tokens[1] == rest[0]);
                    }
                }
                assert forall|k: int| 0 <= k < tokens.len() implies (
                #[trigger] tokens[k]).span.start.position <= tokens[k].span.end.position by {
                    if k > 0 {
                        assert(tokens[k] == rest[k - 1]);
                    }
                }
            }
        }
    }
}

/// In spans that tile, an earlier one ends before a later one starts.
pub proof fn lemma_tiles_in_order(tokens: Seq<TokenView>, from: int, to: int, i: int, j: int)
    requires
        spans_tile(tokens, from, to),
        0 <= i < j < tokens.len(),
    ensures
        tokens[i].span.end.position < tokens[j].span.start.position,
    decreases j - i,
{
    assert(tokens[(j - 1) + 1].span.start.position == tokens[j - 1].span.end.position + 1);
    if i < j - 1 {
        lemma_tiles_in_order(tokens, from, to, i, j - 1);
    }
}

/// Once spaces and line feeds are dropped, none is left.
pub proof fn law_without_cosmetic_has_none(tokens: Seq<TokenView>)
    ensures
        forall|k: int|
            0 <= k < without_cosmetic(tokens).len() ==> !(#[trigger] without_cosmetic(
                tokens,
            )[k]).value.is_cosmetic(),
{
}

/// Leaving tokens out keeps the spans of the others in order.
pub proof fn lemma_without_cosmetic_keeps_order(tokens: Seq<TokenView>)
    requires
        spans_ordered(tokens),
    ensures
        spans_ordered(without_cosmetic(tokens)),
    decreases tokens.len(),
{
    reveal(Seq::filter);
    if tokens.len() > 0 {
        let front = tokens.drop_last();
        let last = tokens.last();
        assert forall|i: int, j: int| 0 <= i < j < front.len() implies (
        #[trigger] front[i]).span.end.position < (#[trigger] front[j]).span.start.position by {
            assert(front[i] == tokens[i] && front[j] == tokens[j]);
        }
        assert forall|k: int| 0 <= k < front.len() implies (#[trigger] front[k]).span.start.position
            <= front[k].span.end.position by {
            assert(front[k] == tokens[k]);
        }
        lemma_without_cosmetic_keeps_order(front);
        let kept = without_cosmetic(front);
        if is_significant(last) {
            let all = kept.push(last);
            assert(without_cosmetic(tokens) == all);
            assert forall|i: int, j: int| 0 <= i < j < all.len() implies (
            #[trigger] all[i]).span.end.position < (#[trigger] all[j]).span.start.position by {
                if j < kept.len() {
                    assert(all[i] == kept[i] && all[j] == kept[j]);
                } else {
                    assert(all[i] == kept[i]);
                    assert(kept.contains(kept[i]));
                    front.lemma_filter_contains_rev(|t: TokenView| is_significant(t), kept[i]);
                    let a = choose|a: int| 0 <= a < front.len() && front[a] == kept[i];
                    assert(tokens[a] == kept[i]);
                    assert(tokens[tokens.len() - 1] == last);
                }
            }
            assert forall|k: int| 0 <= k < all.len() implies (#[trigger] all[k]).span.start.position
                <= all[k].span.end.position by {
                if k < kept.len() {
                    assert(all[k] == kept[k]);
                } else {
                    assert(tokens[tokens.len() - 1] == last);
                }
            }
        } else {
            assert(without_cosmetic(tokens) == kept);
        }
    }
}

/// The spans of all tokens of a text, spaces and line feeds included, cover
/// the text from its first character to its last with no gap and no overlap,
/// in source order.
pub proof fn law_spans_tile_the_source(s: Seq<char>)
    ensures
        tokens_of(s) matches Ok(tokens) ==> spans_tile(tokens, 0, s.len() as int)
            && spans_ordered(tokens),
{
    lemma_tokens_tile(s, 0);
    if let Ok(tokens) = tokens_of(s) {
        assert forall|i: int, j: int| 0 <= i < j < tokens.len() implies (
        #[trigger] tokens[i]).span.end.position < (#[trigger] tokens[j]).span.start.position by {
            lemma_tiles_in_order(tokens, 0, s.len() as int, i, j);
        }
    }
}

/// The spans of the tokens that are left once spaces and line feeds are
/// dropped do not overlap and come in source order: none ends before it
/// starts, and each ends before the next starts.
pub proof fn law_filtered_spans_are_ordered(s: Seq<char>)
    ensures
        tokens_of(s) matches Ok(tokens) ==> spans_ordered(without_cosmetic(tokens)),
{
    law_spans_tile_the_source(s);
    if let Ok(tokens) = tokens_of(s) {
        lemma_without_cosmetic_keeps_order(tokens);
    }
}

} // verus!
