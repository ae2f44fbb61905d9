use vstd::prelude::*;
use vstd::utf8::decode_utf8;
use vstd::utf8::valid_utf8;

use crate::json_lexer::AccumulableTokensKind;
use crate::json_lexer::B_A;
use crate::json_lexer::B_BACKSLASH;
use crate::json_lexer::B_COLON;
use crate::json_lexer::B_COMMA;
use crate::json_lexer::B_CR;
use crate::json_lexer::B_DOT;
use crate::json_lexer::B_E;
use crate::json_lexer::B_F;
use crate::json_lexer::B_L;
use crate::json_lexer::B_LBRACE;
use crate::json_lexer::B_LBRACKET;
use crate::json_lexer::B_LF;
use crate::json_lexer::B_MINUS;
use crate::json_lexer::B_NINE;
use crate::json_lexer::B_QUOTE;
use crate::json_lexer::B_R;
use crate::json_lexer::B_RBRACE;
use crate::json_lexer::B_RBRACKET;
use crate::json_lexer::B_S;
use crate::json_lexer::B_SPACE;
use crate::json_lexer::B_T;
use crate::json_lexer::B_TAB;
use crate::json_lexer::B_U;
use crate::json_lexer::B_ZERO;
use crate::json_lexer::LexerStates;
use crate::json_lexer::TEXT_CAPACITY;
use crate::json_lexer::TokenView;

verus! {

/// The abstract state of a lexer.
pub struct LexerModel {
    pub state: LexerStates,
    pub accumulator: Seq<u8>,
    pub kind: Option<AccumulableTokensKind>,
    pub is_float: bool,
}

/// The outcome of lexing the byte at one position of a chunk.
pub enum LexStep {
    /// Go on, the given number of bytes further on.
    Advance(LexerModel, Seq<TokenView>, nat),
    /// Stop reading the chunk (an error was found).
    Stop(LexerModel, Seq<TokenView>),
    /// Reading `true` or `false` would run past the chunk's end.
    Panic,
}

pub open spec fn is_digit_byte(b: u8) -> bool {
    B_ZERO <= b <= B_NINE
}

pub open spec fn is_whitespace_byte(b: u8) -> bool {
    b == B_CR || b == B_LF || b == B_TAB || b == B_SPACE
}

/// The single-byte token that a delimiter byte stands for.
pub open spec fn delimiter_token(b: u8) -> Option<TokenView> {
    if b == B_LBRACKET {
        Some(TokenView::ArrayStart)
    } else if b == B_RBRACKET {
        Some(TokenView::ArrayEnd)
    } else if b == B_LBRACE {
        Some(TokenView::ObjectStart)
    } else if b == B_RBRACE {
        Some(TokenView::ObjectEnd)
    } else if b == B_COMMA {
        Some(TokenView::Comma)
    } else if b == B_COLON {
        Some(TokenView::Colon)
    } else {
        None
    }
}

/// The message of the error token for a byte that starts no token.
pub open spec fn unexpected_character_message(b: u8) -> Seq<char> {
    if valid_utf8(seq![b]) {
        "unexpected character in JSON ("@ + decode_utf8(seq![b]) + ")"@
    } else {
        "unexpected character in JSON not a valid utf-8 encoded string"@
    }
}

pub open spec fn with_state(m: LexerModel, state: LexerStates) -> LexerModel {
    LexerModel { state, accumulator: m.accumulator, kind: m.kind, is_float: m.is_float }
}

pub open spec fn finished(m: LexerModel) -> LexerModel {
    with_state(m, LexerStates::EarlyFinish)
}

/// The lexer between tokens: looking for delimiters, nothing accumulated.
pub open spec fn idle_model() -> LexerModel {
    LexerModel {
        state: LexerStates::LookingDelimiters,
        accumulator: Seq::empty(),
        kind: None,
        is_float: false,
    }
}

pub open spec fn error_stop(m: LexerModel, message: Seq<char>) -> LexStep {
    LexStep::Stop(finished(m), seq![TokenView::Error(message)])
}

/// `tok` emitted before whatever `s` emits.
pub open spec fn emit_before(tok: TokenView, s: LexStep) -> LexStep {
    match s {
        LexStep::Advance(m, t, n) => LexStep::Advance(m, seq![tok] + t, n),
        LexStep::Stop(m, t) => LexStep::Stop(m, seq![tok] + t),
        LexStep::Panic => LexStep::Panic,
    }
}

/// Whether `chunk[i..i + word.len()]` is `word`.
pub open spec fn matches_at(chunk: Seq<u8>, i: int, word: Seq<u8>) -> bool {
    chunk.subrange(i, i + word.len() as int) == word
}

/// Looking for delimiters at a byte that does not start a number.
pub open spec fn delimiter_step(m: LexerModel, chunk: Seq<u8>, i: int) -> LexStep {
    let b = chunk[i];
    if delimiter_token(b) is Some {
        LexStep::Advance(m, seq![delimiter_token(b).unwrap()], 1)
    } else if b == B_QUOTE {
        LexStep::Advance(with_state(m, LexerStates::LookingText), seq![], 1)
    } else if b == B_T {
        if i + 4 > chunk.len() {
            LexStep::Panic
        } else if matches_at(chunk, i, seq![B_T, B_R, B_U, B_E]) {
            LexStep::Advance(m, seq![TokenView::Boolean(true)], 4)
        } else {
            error_stop(m, "found unexpected sequence"@)
        }
    } else if b == B_F {
        if i + 5 > chunk.len() {
            LexStep::Panic
        } else if matches_at(chunk, i, seq![B_F, B_A, B_L, B_S, B_E]) {
            LexStep::Advance(m, seq![TokenView::Boolean(false)], 5)
        } else {
            error_stop(m, "found unexpected sequence"@)
        }
    } else if is_whitespace_byte(b) {
        LexStep::Advance(m, seq![], 1)
    } else {
        error_stop(m, unexpected_character_message(b))
    }
}

/// The token for accumulated number bytes, by whether a dot was seen.
pub open spec fn number_token(is_float: bool, text: Seq<char>) -> TokenView {
    if is_float {
        TokenView::Float(text)
    } else {
        TokenView::Integer(text)
    }
}

/// Reading a number, at byte `chunk[i]`.
pub open spec fn number_step(m: LexerModel, chunk: Seq<u8>, i: int) -> LexStep {
    let b = chunk[i];
    let acc = m.accumulator;
    if acc.len() > 0 && acc[0] == B_MINUS && b == B_MINUS {
        error_stop(m, "a number cannot have multiple minus symbols"@)
    } else if acc.len() > 0 && acc[0] == B_ZERO && b != B_DOT && !m.is_float && is_digit_byte(b) {
        error_stop(m, "a number cannot have a leading 0"@)
    } else if b == B_DOT {
        if !m.is_float {
            LexStep::Advance(
                LexerModel { state: m.state, accumulator: acc.push(b), kind: m.kind, is_float: true },
                seq![],
                1,
            )
        } else {
            error_stop(m, "a float number can only have a single decimal separator"@)
        }
    } else if m.is_float && acc.len() > 0 && acc.last() == B_DOT && !is_digit_byte(b) {
        error_stop(m, "a float number must have a digit after the decimal separator"@)
    } else {
        let kind = if m.is_float {
            AccumulableTokensKind::Float
        } else {
            AccumulableTokensKind::Integer
        };
        let m1 = LexerModel { state: m.state, accumulator: acc, kind: Some(kind), is_float: m.is_float };
        if !is_digit_byte(b) && b != B_MINUS {
            if valid_utf8(acc) {
                emit_before(
                    number_token(m.is_float, decode_utf8(acc)),
                    delimiter_step(idle_model(), chunk, i),
                )
            } else {
                error_stop(m1, "numeric value is not utf-8 encoded"@)
            }
        } else {
            LexStep::Advance(
                LexerModel { state: m.state, accumulator: acc.push(b), kind: Some(kind), is_float: m.is_float },
                seq![],
                1,
            )
        }
    }
}

/// Reading a text, at byte `chunk[i]`.
pub open spec fn text_step(m: LexerModel, chunk: Seq<u8>, i: int) -> LexStep {
    let b = chunk[i];
    let acc = m.accumulator;
    if acc.len() + 1 > TEXT_CAPACITY {
        error_stop(m, "a text cannot be larger than 1KiB"@)
    } else {
        let prev: u8 = if acc.len() > 0 { acc.last() } else { 0 };
        if prev != B_BACKSLASH && b == B_QUOTE {
            if valid_utf8(acc) {
                LexStep::Advance(
                    LexerModel { state: LexerStates::LookingDelimiters, accumulator: Seq::empty(), kind: m.kind, is_float: m.is_float },
                    seq![TokenView::Text(decode_utf8(acc))],
                    1,
                )
            } else {
                error_stop(m, "the text is invalid utf8"@)
            }
        } else {
            LexStep::Advance(
                LexerModel { state: m.state, accumulator: acc.push(b), kind: m.kind, is_float: m.is_float },
                seq![],
                1,
            )
        }
    }
}

/// What the lexer in state `m` does with the byte `chunk[i]`.
pub open spec fn lex_step(m: LexerModel, chunk: Seq<u8>, i: int) -> LexStep {
    match m.state {
        LexerStates::LookingDelimiters => {
            let b = chunk[i];
            if is_digit_byte(b) || b == B_MINUS {
                // A json number cannot start with + symbol
                number_step(with_state(m, LexerStates::LookingIntegerOrFloat), chunk, i)
            } else {
                delimiter_step(m, chunk, i)
            }
        },
        LexerStates::LookingText => text_step(m, chunk, i),
        LexerStates::LookingIntegerOrFloat => number_step(m, chunk, i),
        LexerStates::EarlyFinish => LexStep::Advance(m, seq![], 1),
    }
}

/// Every step that goes on moves forward.
pub proof fn lemma_step_advances(m: LexerModel, chunk: Seq<u8>, i: int)
    ensures
        lex_step(m, chunk, i) matches LexStep::Advance(_, _, n) ==> n >= 1,
{
}

/// A step never moves past the chunk's end.
pub proof fn lemma_step_in_bounds(m: LexerModel, chunk: Seq<u8>, i: int)
    requires
        0 <= i < chunk.len(),
    ensures
        lex_step(m, chunk, i) matches LexStep::Advance(_, _, n) ==> i + n <= chunk.len(),
{
}

/// Lexing `chunk` from position `i` in state `m`, with `out` already emitted:
/// the final state and all tokens emitted, or `None` where the reading of
/// `true` or `false` runs past the chunk's end.
pub open spec fn lex_from(m: LexerModel, chunk: Seq<u8>, i: int, out: Seq<TokenView>) -> Option<(LexerModel, Seq<TokenView>)>
    decreases chunk.len() - i,
{
    if i < 0 || i >= chunk.len() {
        Some((m, out))
    } else {
        match lex_step(m, chunk, i) {
            LexStep::Panic => None,
            LexStep::Stop(m2, t) => Some((m2, out + t)),
            LexStep::Advance(m2, t, n) => {
                proof {
                    lemma_step_advances(m, chunk, i);
                }
                lex_from(m2, chunk, i + n, out + t)
            },
        }
    }
}

/// The token that accumulated bytes of a given kind make.
pub open spec fn kind_token(kind: AccumulableTokensKind, text: Seq<char>) -> TokenView {
    match kind {
        AccumulableTokensKind::Float => TokenView::Float(text),
        AccumulableTokensKind::Integer => TokenView::Integer(text),
        AccumulableTokensKind::Text => TokenView::Text(text),
    }
}

/// The tokens emitted at the end of the input: the pending accumulated
/// token, if any, then `EndOfFile`; or an error for a number that ends in
/// its decimal separator.
pub open spec fn end_of_input_tokens(m: LexerModel) -> Seq<TokenView> {
    let acc = m.accumulator;
    if m.kind is Some && acc.len() > 0 && m.is_float && acc.last() == B_DOT {
        seq![TokenView::Error("a float number must have a digit after the decimal separator"@)]
    } else if m.kind is Some && acc.len() > 0 && valid_utf8(acc) {
        seq![kind_token(m.kind.unwrap(), decode_utf8(acc)), TokenView::EndOfFile]
    } else {
        seq![TokenView::EndOfFile]
    }
}

/// Whether feeding `chunk` to a lexer in state `m` would read `true` or
/// `false` past the chunk's end.
pub open spec fn batch_overruns(m: LexerModel, chunk: Seq<u8>) -> bool {
    &&& m.state != LexerStates::EarlyFinish
    &&& chunk.len() > 0
    &&& lex_from(m, chunk, 0, seq![]) is None
}

/// Feeding one chunk to a lexer in state `m`: the next state, and the batch
/// of tokens (`None` once the lexer has finished). An empty chunk marks the
/// end of the input.
pub open spec fn next_batch_spec(m: LexerModel, chunk: Seq<u8>) -> (LexerModel, Option<Seq<TokenView>>) {
    if m.state == LexerStates::EarlyFinish {
        (m, None)
    } else if chunk.len() == 0 {
        (finished(m), Some(end_of_input_tokens(m)))
    } else {
        match lex_from(m, chunk, 0, seq![]) {
            Some((m2, t)) => (m2, Some(t)),
            None => (m, None),
        }
    }
}

} // verus!
