use vstd::prelude::*;
use vstd::utf8::decode_utf8;
use vstd::utf8::valid_utf8;

use crate::json_lexer::AccumulableTokensKind;
use crate::json_lexer::B_BACKSLASH;
use crate::json_lexer::B_COMMA;
use crate::json_lexer::B_DOT;
use crate::json_lexer::B_LBRACKET;
use crate::json_lexer::B_NINE;
use crate::json_lexer::B_QUOTE;
use crate::json_lexer::B_RBRACKET;
use crate::json_lexer::B_MINUS;
use crate::json_lexer::B_ZERO;
use crate::json_lexer::LexerStates;
use crate::json_lexer::TEXT_CAPACITY;
use crate::json_lexer::TokenView;
use crate::json_lexer::model::LexStep;
use crate::json_lexer::model::lemma_step_in_bounds;
use crate::json_lexer::model::LexerModel;
use crate::json_lexer::model::batch_overruns;
use crate::json_lexer::model::delimiter_step;
use crate::json_lexer::model::end_of_input_tokens;
use crate::json_lexer::model::error_stop;
use crate::json_lexer::model::finished;
use crate::json_lexer::model::idle_model;
use crate::json_lexer::model::is_digit_byte;
use crate::json_lexer::model::lemma_step_advances;
use crate::json_lexer::model::lex_from;
use crate::json_lexer::model::lex_step;
use crate::json_lexer::model::next_batch_spec;
use crate::json_lexer::model::number_step;
use crate::json_lexer::model::number_token;
use crate::json_lexer::model::text_step;
use crate::json_lexer::model::unexpected_character_message;
use crate::json_lexer::model::with_state;

verus! {

/// A byte that may appear in a number: a digit, a minus sign or a dot.
pub open spec fn is_number_byte(b: u8) -> bool {
    is_digit_byte(b) || b == B_MINUS || b == B_DOT
}

/// The bytes of a number read so far: number bytes, led by a digit or a
/// minus sign; a leading minus sign is the only one; a leading zero is not
/// followed by a digit; a dot is followed by a digit, unless it is the last
/// byte read; at most one dot, there exactly when the number is a float.
pub open spec fn number_bytes(acc: Seq<u8>, is_float: bool) -> bool {
    &&& acc.len() > 0
    &&& forall|k: int| 0 <= k < acc.len() ==> is_number_byte(#[trigger] acc[k])
    &&& is_digit_byte(acc[0]) || acc[0] == B_MINUS
    &&& acc[0] == B_MINUS ==> forall|k: int| 1 <= k < acc.len() ==> #[trigger] acc[k] != B_MINUS
    &&& acc[0] == B_ZERO && acc.len() > 1 ==> !is_digit_byte(acc[1])
    &&& forall|k: int| 0 <= k < acc.len() - 1 && #[trigger] acc[k] == B_DOT ==> is_digit_byte(acc[k + 1])
    &&& forall|j: int, k: int|
        0 <= j < acc.len() && 0 <= k < acc.len() && j != k && #[trigger] acc[j] == B_DOT
            ==> #[trigger] acc[k] != B_DOT
    &&& is_float <==> exists|k: int| 0 <= k < acc.len() && #[trigger] acc[k] == B_DOT
}

/// The kind recorded for the number bytes read so far: a float once a digit
/// follows its dot.
pub open spec fn number_kind(acc: Seq<u8>, is_float: bool) -> AccumulableTokensKind {
    if is_float && acc.last() != B_DOT {
        AccumulableTokensKind::Float
    } else {
        AccumulableTokensKind::Integer
    }
}

/// The lexer's state invariant: between tokens nothing is accumulated;
/// inside a number, the bytes read so far have a number's shape and the
/// recorded kind matches them; only numbers record an accumulated kind.
pub open spec fn lexer_wf(m: LexerModel) -> bool {
    &&& m.state == LexerStates::LookingDelimiters ==> m.accumulator.len() == 0 && m.kind is None && !m.is_float
    &&& m.state == LexerStates::LookingText ==> m.kind is None && !m.is_float
    &&& m.state == LexerStates::LookingIntegerOrFloat ==> number_bytes(m.accumulator, m.is_float) && m.kind
        == Some(number_kind(m.accumulator, m.is_float))
    &&& !(m.kind matches Some(AccumulableTokensKind::Text))
}

pub open spec fn is_digit_char(c: char) -> bool {
    '0' <= c <= '9'
}

/// The text of a number token: digits, minus signs and dots, led by a digit
/// or a minus sign; a leading minus sign is the only one; a leading zero is
/// not followed by a digit; every dot is followed by a digit; at most one
/// dot, there exactly in floats.
pub open spec fn number_text(text: Seq<char>, is_float: bool) -> bool {
    &&& text.len() > 0
    &&& forall|k: int| 0 <= k < text.len() ==> is_digit_char(#[trigger] text[k]) || text[k] == '-' || text[k] == '.'
    &&& is_digit_char(text[0]) || text[0] == '-'
    &&& text[0] == '-' ==> forall|k: int| 1 <= k < text.len() ==> #[trigger] text[k] != '-'
    &&& text[0] == '0' && text.len() > 1 ==> !is_digit_char(text[1])
    &&& forall|k: int| 0 <= k < text.len() && #[trigger] text[k] == '.' ==> k + 1 < text.len() && is_digit_char(text[k + 1])
    &&& forall|j: int, k: int|
        0 <= j < text.len() && 0 <= k < text.len() && j != k && #[trigger] text[j] == '.'
            ==> #[trigger] text[k] != '.'
    &&& is_float <==> exists|k: int| 0 <= k < text.len() && #[trigger] text[k] == '.'
}

/// Bytes below 0x80 read as characters one for one.
pub open spec fn ascii_chars(bytes: Seq<u8>) -> Seq<char> {
    Seq::new(bytes.len(), |k: int| bytes[k] as char)
}

/// ASCII bytes are valid UTF-8, and decode to themselves.
pub proof fn lemma_decode_ascii(bytes: Seq<u8>)
    requires
        forall|k: int| 0 <= k < bytes.len() ==> #[trigger] bytes[k] < 0x80,
    ensures
        valid_utf8(bytes),
        decode_utf8(bytes) == ascii_chars(bytes),
    decreases bytes.len(),
{
    if bytes.len() > 0 {
        let b = bytes[0];
        assert(b < 0x80 ==> b & 0x7f == b) by (bit_vector);
        let rest = bytes.subrange(1, bytes.len() as int);
        lemma_decode_ascii(rest);
        assert(vstd::utf8::pop_first_scalar(bytes) == rest);
        assert(decode_utf8(bytes) =~= ascii_chars(bytes));
    }
}

/// A complete number's bytes decode to a number's text.
pub proof fn lemma_number_text(acc: Seq<u8>, is_float: bool)
    requires
        number_bytes(acc, is_float),
        acc.last() != B_DOT,
    ensures
        valid_utf8(acc),
        number_text(decode_utf8(acc), is_float),
{
    assert forall|k: int| 0 <= k < acc.len() implies #[trigger] acc[k] < 0x80 by {
        assert(is_number_byte(acc[k]));
    }
    lemma_decode_ascii(acc);
    let text = ascii_chars(acc);
    assert forall|b: u8| is_digit_char(#[trigger] (b as char)) <==> is_digit_byte(b) by {}
    assert forall|b: u8| (#[trigger] (b as char)) == '-' <==> b == B_MINUS by {}
    assert forall|b: u8| (#[trigger] (b as char)) == '.' <==> b == B_DOT by {}
    assert forall|b: u8| (#[trigger] (b as char)) == '0' <==> b == B_ZERO by {}
    assert forall|k: int| 0 <= k < text.len() implies is_digit_char(#[trigger] text[k]) || text[k] == '-' || text[k] == '.' by {
        assert(is_number_byte(acc[k]));
    }
    if text[0] == '-' {
        assert forall|k: int| 1 <= k < text.len() implies #[trigger] text[k] != '-' by {
            assert(acc[k] != B_MINUS);
        }
    }
    assert forall|k: int| 0 <= k < text.len() && #[trigger] text[k] == '.' implies k + 1 < text.len() && is_digit_char(text[k + 1]) by {
        assert(acc[k] == B_DOT);
        if k == acc.len() - 1 {
            assert(acc.last() == acc[k]);
        }
        assert(is_digit_byte(acc[k + 1]));
    }
    assert forall|j: int, k: int|
        0 <= j < text.len() && 0 <= k < text.len() && j != k && #[trigger] text[j] == '.' implies #[trigger] text[k] != '.' by {
        assert(acc[j] == B_DOT);
        assert(acc[k] != B_DOT);
    }
    if is_float {
        let k = choose|k: int| 0 <= k < acc.len() && #[trigger] acc[k] == B_DOT;
        assert(text[k] == '.');
    }
    if exists|k: int| 0 <= k < text.len() && #[trigger] text[k] == '.' {
        let k = choose|k: int| 0 <= k < text.len() && #[trigger] text[k] == '.';
        assert(acc[k] == B_DOT);
    }
}

/// Whether a token ends the stream of tokens.
pub open spec fn ends_stream(token: TokenView) -> bool {
    token is Error || token is EndOfFile
}

/// A text token stays under the 1KiB limit on texts; a number token has
/// a number's text.
pub open spec fn well_formed_token(token: TokenView) -> bool {
    match token {
        TokenView::Text(text) => text.len() < TEXT_CAPACITY,
        TokenView::Integer(text) => number_text(text, false),
        TokenView::Float(text) => number_text(text, true),
        _ => true,
    }
}

/// Tokens none of which ends the stream, all well formed.
pub open spec fn plain_tokens(tokens: Seq<TokenView>) -> bool {
    forall|k: int| 0 <= k < tokens.len() ==> !ends_stream(#[trigger] tokens[k]) && well_formed_token(tokens[k])
}

/// What a batch emitted by a lexer that ends in state `m` looks like: while
/// the lexer goes on, only plain tokens; once it has finished, plain tokens
/// and then one token that ends the stream.
pub open spec fn batch_shape(m: LexerModel, tokens: Seq<TokenView>) -> bool {
    if m.state == LexerStates::EarlyFinish {
        &&& tokens.len() > 0
        &&& ends_stream(tokens.last())
        &&& well_formed_token(tokens.last())
        &&& plain_tokens(tokens.drop_last())
    } else {
        plain_tokens(tokens)
    }
}

/// UTF-8 decoding never yields more characters than it was given bytes.
pub proof fn lemma_decode_utf8_len(bytes: Seq<u8>)
    requires
        valid_utf8(bytes),
    ensures
        decode_utf8(bytes).len() <= bytes.len(),
    decreases bytes.len(),
{
    if bytes.len() > 0 {
        let rest = bytes.subrange(vstd::utf8::length_of_first_scalar(bytes), bytes.len() as int);
        assert(rest == vstd::utf8::pop_first_scalar(bytes));
        lemma_decode_utf8_len(rest);
    }
}

proof fn lemma_plain_concat(a: Seq<TokenView>, b: Seq<TokenView>)
    requires
        plain_tokens(a),
        plain_tokens(b),
    ensures
        plain_tokens(a + b),
{
    assert forall|k: int| 0 <= k < (a + b).len() implies !ends_stream(#[trigger] (a + b)[k]) && well_formed_token((a + b)[k]) by {
        if k < a.len() {
            assert((a + b)[k] == a[k]);
        } else {
            assert((a + b)[k] == b[k - a.len()]);
        }
    }
}

/// Plain tokens followed by a batch of a given shape make a batch of that shape.
proof fn lemma_shape_after_plain(m: LexerModel, a: Seq<TokenView>, b: Seq<TokenView>)
    requires
        plain_tokens(a),
        batch_shape(m, b),
    ensures
        batch_shape(m, a + b),
{
    if m.state == LexerStates::EarlyFinish {
        lemma_plain_concat(a, b.drop_last());
        assert((a + b).drop_last() =~= a + b.drop_last());
        assert((a + b).last() == b.last());
    } else {
        lemma_plain_concat(a, b);
    }
}

/// The shape of what one step emits, and the invariant it keeps.
spec fn step_keeps_shape(s: LexStep) -> bool {
    match s {
        LexStep::Advance(m2, t, _) => lexer_wf(m2) && m2.state != LexerStates::EarlyFinish && plain_tokens(t),
        LexStep::Stop(m2, t) => lexer_wf(m2) && m2.state == LexerStates::EarlyFinish && batch_shape(m2, t),
        LexStep::Panic => true,
    }
}

proof fn lemma_error_stop_shape(m: LexerModel, message: Seq<char>)
    requires
        !(m.kind matches Some(AccumulableTokensKind::Text)),
    ensures
        step_keeps_shape(error_stop(m, message)),
{
    let t = seq![TokenView::Error(message)];
    assert(t.drop_last() =~= Seq::<TokenView>::empty());
}

proof fn lemma_delimiter_step_shape(m: LexerModel, chunk: Seq<u8>, i: int)
    requires
        lexer_wf(m),
        m.state == LexerStates::LookingDelimiters,
        0 <= i < chunk.len(),
    ensures
        step_keeps_shape(delimiter_step(m, chunk, i)),
{
    let b = chunk[i];
    lemma_error_stop_shape(m, "found unexpected sequence"@);
    lemma_error_stop_shape(m, unexpected_character_message(b));
}

/// The lexer as it enters a number from looking for delimiters: nothing
/// read yet, and the current byte starts a number.
pub open spec fn number_entry(m: LexerModel, chunk: Seq<u8>, i: int) -> bool {
    &&& m.state == LexerStates::LookingIntegerOrFloat
    &&& m.accumulator.len() == 0
    &&& m.kind is None
    &&& !m.is_float
    &&& is_digit_byte(chunk[i]) || chunk[i] == B_MINUS
}

proof fn lemma_number_step_shape(m: LexerModel, chunk: Seq<u8>, i: int)
    requires
        m.state == LexerStates::LookingIntegerOrFloat,
        lexer_wf(m) || number_entry(m, chunk, i),
        0 <= i < chunk.len(),
    ensures
        step_keeps_shape(number_step(m, chunk, i)),
{
    let b = chunk[i];
    let acc = m.accumulator;
    lemma_error_stop_shape(m, "a number cannot have multiple minus symbols"@);
    lemma_error_stop_shape(m, "a number cannot have a leading 0"@);
    lemma_error_stop_shape(m, "a float number can only have a single decimal separator"@);
    lemma_error_stop_shape(m, "a float number must have a digit after the decimal separator"@);
    let kind = if m.is_float {
        AccumulableTokensKind::Float
    } else {
        AccumulableTokensKind::Integer
    };
    let m1 = LexerModel { state: m.state, accumulator: acc, kind: Some(kind), is_float: m.is_float };
    lemma_error_stop_shape(m1, "numeric value is not utf-8 encoded"@);
    if acc.len() > 0 && acc[0] == B_MINUS && b == B_MINUS {
    } else if acc.len() > 0 && acc[0] == B_ZERO && b != B_DOT && !m.is_float && is_digit_byte(b) {
    } else if b == B_DOT {
        if !m.is_float {
            // A first dot: the number becomes a float.
            let acc2 = acc.push(b);
            assert(acc.len() > 0);
            assert(forall|k: int| 0 <= k < acc.len() ==> acc[k] != B_DOT);
            assert(acc2[acc.len() as int] == B_DOT);
            assert forall|k: int| 0 <= k < acc2.len() implies is_number_byte(#[trigger] acc2[k]) by {
                if k < acc.len() {
                    assert(acc2[k] == acc[k]);
                }
            }
            assert forall|k: int| 0 <= k < acc2.len() - 1 && #[trigger] acc2[k] == B_DOT implies is_digit_byte(acc2[k + 1]) by {
                assert(acc2[k] == acc[k]);
            }
            assert forall|j: int, k: int|
                0 <= j < acc2.len() && 0 <= k < acc2.len() && j != k && #[trigger] acc2[j] == B_DOT implies #[trigger] acc2[k] != B_DOT by {
                if j < acc.len() {
                    assert(acc2[j] == acc[j]);
                }
                if k < acc.len() {
                    assert(acc2[k] == acc[k]);
                }
            }
            if acc[0] == B_MINUS {
                assert forall|k: int| 1 <= k < acc2.len() implies #[trigger] acc2[k] != B_MINUS by {
                    if k < acc.len() {
                        assert(acc2[k] == acc[k]);
                    }
                }
            }
            if acc[0] == B_ZERO && acc2.len() > 1 {
                assert(acc2[1] == B_DOT || acc2[1] == acc[1]);
            }
            assert(number_bytes(acc2, true));
        }
    } else if m.is_float && acc.len() > 0 && acc.last() == B_DOT && !is_digit_byte(b) {
    } else if !is_digit_byte(b) && b != B_MINUS {
        // The number ends here.
        assert(acc.len() > 0);
        if m.is_float {
            assert(acc.last() != B_DOT);
        } else {
            if acc.last() == B_DOT {
                assert(acc[acc.len() - 1] == B_DOT);
            }
        }
        lemma_number_text(acc, m.is_float);
        let tok = number_token(m.is_float, decode_utf8(acc));
        assert(well_formed_token(tok));
        lemma_delimiter_step_shape(idle_model(), chunk, i);
        assert(plain_tokens(seq![tok]));
        match delimiter_step(idle_model(), chunk, i) {
            LexStep::Advance(m2, t, _) => {
                lemma_plain_concat(seq![tok], t);
            },
            LexStep::Stop(m2, t) => {
                lemma_shape_after_plain(m2, seq![tok], t);
            },
            LexStep::Panic => {},
        }
    } else {
        // A digit or a minus sign goes on the number.
        let acc2 = acc.push(b);
        assert(acc2[acc.len() as int] == b);
        assert forall|k: int| 0 <= k < acc2.len() implies is_number_byte(#[trigger] acc2[k]) by {
            if k < acc.len() {
                assert(acc2[k] == acc[k]);
            }
        }
        if acc.len() > 0 {
            assert(acc2[0] == acc[0]);
            assert forall|k: int| 0 <= k < acc2.len() - 1 && #[trigger] acc2[k] == B_DOT implies is_digit_byte(acc2[k + 1]) by {
                assert(acc2[k] == acc[k]);
                if k == acc.len() - 1 {
                    assert(acc.last() == B_DOT);
                    assert(m.is_float);
                } else {
                    assert(acc2[k + 1] == acc[k + 1]);
                }
            }
            assert forall|j: int, k: int|
                0 <= j < acc2.len() && 0 <= k < acc2.len() && j != k && #[trigger] acc2[j] == B_DOT implies #[trigger] acc2[k] != B_DOT by {
                if j < acc.len() {
                    assert(acc2[j] == acc[j]);
                }
                if k < acc.len() {
                    assert(acc2[k] == acc[k]);
                }
            }
            if acc[0] == B_MINUS {
                assert forall|k: int| 1 <= k < acc2.len() implies #[trigger] acc2[k] != B_MINUS by {
                    if k < acc.len() {
                        assert(acc2[k] == acc[k]);
                    }
                }
            }
            if acc[0] == B_ZERO && acc2.len() > 1 {
                if acc.len() == 1 {
                    assert(acc2[1] == b);
                } else {
                    assert(acc2[1] == acc[1]);
                }
            }
            if m.is_float {
                let k = choose|k: int| 0 <= k < acc.len() && #[trigger] acc[k] == B_DOT;
                assert(acc2[k] == B_DOT);
            }
            if exists|k: int| 0 <= k < acc2.len() && #[trigger] acc2[k] == B_DOT {
                let k = choose|k: int| 0 <= k < acc2.len() && #[trigger] acc2[k] == B_DOT;
                assert(acc2[k] == acc[k]);
            }
            assert(number_bytes(acc2, m.is_float));
        } else {
            assert(acc2 =~= seq![b]);
            assert(number_bytes(acc2, m.is_float));
        }
        assert(acc2.last() == b);
    }
}

proof fn lemma_text_step_shape(m: LexerModel, chunk: Seq<u8>, i: int)
    requires
        lexer_wf(m),
        m.state == LexerStates::LookingText,
        0 <= i < chunk.len(),
    ensures
        step_keeps_shape(text_step(m, chunk, i)),
{
    let acc = m.accumulator;
    lemma_error_stop_shape(m, "a text cannot be larger than 1KiB"@);
    lemma_error_stop_shape(m, "the text is invalid utf8"@);
    if valid_utf8(acc) {
        lemma_decode_utf8_len(acc);
        assert(plain_tokens(seq![TokenView::Text(decode_utf8(acc))]) || acc.len() + 1 > TEXT_CAPACITY);
    }
}

/// One step of an unfinished, well-formed lexer keeps it well-formed, goes
/// on with plain tokens only, and stops only after a token ending the stream.
proof fn lemma_step_shape(m: LexerModel, chunk: Seq<u8>, i: int)
    requires
        lexer_wf(m),
        m.state != LexerStates::EarlyFinish,
        0 <= i < chunk.len(),
    ensures
        step_keeps_shape(lex_step(m, chunk, i)),
{
    match m.state {
        LexerStates::LookingDelimiters => {
            let b = chunk[i];
            if is_digit_byte(b) || b == B_MINUS {
                assert(number_entry(with_state(m, LexerStates::LookingIntegerOrFloat), chunk, i));
                lemma_number_step_shape(with_state(m, LexerStates::LookingIntegerOrFloat), chunk, i);
            } else {
                lemma_delimiter_step_shape(m, chunk, i);
            }
        },
        LexerStates::LookingText => lemma_text_step_shape(m, chunk, i),
        LexerStates::LookingIntegerOrFloat => lemma_number_step_shape(m, chunk, i),
        LexerStates::EarlyFinish => {},
    }
}

proof fn lemma_lex_from_shape(m: LexerModel, chunk: Seq<u8>, i: int, out: Seq<TokenView>)
    requires
        lexer_wf(m),
        m.state != LexerStates::EarlyFinish,
        plain_tokens(out),
        0 <= i,
    ensures
        lex_from(m, chunk, i, out) matches Some((m2, t)) ==> lexer_wf(m2) && batch_shape(m2, t),
    decreases chunk.len() - i,
{
    if i < chunk.len() {
        lemma_step_shape(m, chunk, i);
        lemma_step_advances(m, chunk, i);
        match lex_step(m, chunk, i) {
            LexStep::Advance(m2, t, n) => {
                lemma_plain_concat(out, t);
                lemma_lex_from_shape(m2, chunk, i + n, out + t);
            },
            LexStep::Stop(m2, t) => {
                lemma_shape_after_plain(m2, out, t);
            },
            LexStep::Panic => {},
        }
    }
}

/// The lexer's invariant holds at the start.
pub proof fn law_new_lexer_wf()
    ensures
        lexer_wf(idle_model()),
{
}

/// Each batch keeps the lexer's invariant, and has the stream's shape: a
/// lexer that goes on emitted only plain tokens (no error, no end of file,
/// no text of 1KiB or more, every number with a number's text: no leading
/// zero before a digit, a digit after its dot, a dot exactly in floats); a
/// lexer that finishes emitted plain tokens and then exactly one error or
/// end-of-file token. The end of the input always finishes the lexer.
pub proof fn law_batch_shape(m: LexerModel, chunk: Seq<u8>)
    requires
        lexer_wf(m),
        m.state != LexerStates::EarlyFinish,
        !batch_overruns(m, chunk),
    ensures
        next_batch_spec(m, chunk).1 is Some,
        lexer_wf(next_batch_spec(m, chunk).0),
        batch_shape(next_batch_spec(m, chunk).0, next_batch_spec(m, chunk).1.unwrap()),
        chunk.len() == 0 ==> next_batch_spec(m, chunk).0.state == LexerStates::EarlyFinish,
{
    if chunk.len() == 0 {
        let t = end_of_input_tokens(m);
        assert(plain_tokens(t.drop_last())) by {
            let acc = m.accumulator;
            if m.kind is Some && acc.len() > 0 && !(m.is_float && acc.last() == B_DOT) {
                if acc.last() == B_DOT {
                    assert(acc[acc.len() - 1] == B_DOT);
                }
                lemma_number_text(acc, m.is_float);
            }
            assert forall|k: int| 0 <= k < t.drop_last().len() implies !ends_stream(#[trigger] t.drop_last()[k]) && well_formed_token(t.drop_last()[k]) by {
                assert(m.kind matches Some(AccumulableTokensKind::Float) || m.kind matches Some(AccumulableTokensKind::Integer));
            }
        }
    } else {
        assert(plain_tokens(Seq::<TokenView>::empty()));
        lemma_lex_from_shape(m, chunk, 0, seq![]);
    }
}

/// A finished lexer stays finished: it takes no more input and emits no
/// more tokens.
pub proof fn law_finished_lexer_stays_finished(m: LexerModel, chunk: Seq<u8>)
    requires
        m.state == LexerStates::EarlyFinish,
    ensures
        next_batch_spec(m, chunk) == (m, Option::<Seq<TokenView>>::None),
        !batch_overruns(m, chunk),
{
}

/// A step that goes on never finishes the lexer; a step that stops always does.
pub proof fn lemma_step_state(m: LexerModel, chunk: Seq<u8>, i: int)
    requires
        m.state != LexerStates::EarlyFinish,
        0 <= i < chunk.len(),
    ensures
        lex_step(m, chunk, i) matches LexStep::Advance(m2, _, _) ==> m2.state != LexerStates::EarlyFinish,
        lex_step(m, chunk, i) matches LexStep::Stop(m2, _) ==> m2.state == LexerStates::EarlyFinish,
{
}

proof fn lemma_delimiter_step_prefix(m: LexerModel, a: Seq<u8>, b: Seq<u8>, i: int)
    requires
        0 <= i < a.len(),
    ensures
        !(delimiter_step(m, a, i) is Panic) ==> delimiter_step(m, a + b, i) == delimiter_step(m, a, i),
{
    assert((a + b)[i] == a[i]);
    if i + 4 <= a.len() {
        assert((a + b).subrange(i, i + 4) =~= a.subrange(i, i + 4));
    }
    if i + 5 <= a.len() {
        assert((a + b).subrange(i, i + 5) =~= a.subrange(i, i + 5));
    }
}

/// Bytes after a position do not change a step there, unless the step reads
/// past the chunk's end.
proof fn lemma_step_prefix(m: LexerModel, a: Seq<u8>, b: Seq<u8>, i: int)
    requires
        0 <= i < a.len(),
        !(lex_step(m, a, i) is Panic),
    ensures
        lex_step(m, a + b, i) == lex_step(m, a, i),
{
    assert((a + b)[i] == a[i]);
    lemma_delimiter_step_prefix(m, a, b, i);
    lemma_delimiter_step_prefix(idle_model(), a, b, i);
}

proof fn lemma_delimiter_step_shift(m: LexerModel, a: Seq<u8>, b: Seq<u8>, j: int)
    requires
        0 <= j < b.len(),
    ensures
        delimiter_step(m, a + b, a.len() + j) == delimiter_step(m, b, j),
{
    let i = a.len() + j;
    assert((a + b)[i] == b[j]);
    if j + 4 <= b.len() {
        assert((a + b).subrange(i, i + 4) =~= b.subrange(j, j + 4));
    }
    if j + 5 <= b.len() {
        assert((a + b).subrange(i, i + 5) =~= b.subrange(j, j + 5));
    }
}

/// Bytes before a chunk do not change a step in it.
proof fn lemma_step_shift(m: LexerModel, a: Seq<u8>, b: Seq<u8>, j: int)
    requires
        0 <= j < b.len(),
    ensures
        lex_step(m, a + b, a.len() + j) == lex_step(m, b, j),
{
    assert((a + b)[a.len() + j] == b[j]);
    lemma_delimiter_step_shift(m, a, b, j);
    lemma_delimiter_step_shift(idle_model(), a, b, j);
}

/// Tokens emitted before a run are kept in front of what the run emits.
pub proof fn lemma_lex_from_out(m: LexerModel, chunk: Seq<u8>, i: int, out: Seq<TokenView>)
    requires
        0 <= i,
    ensures
        lex_from(m, chunk, i, out) == match lex_from(m, chunk, i, seq![]) {
            Some((m2, t)) => Some((m2, out + t)),
            None => None,
        },
    decreases chunk.len() - i,
{
    if i < chunk.len() {
        lemma_step_advances(m, chunk, i);
        match lex_step(m, chunk, i) {
            LexStep::Advance(m2, t, n) => {
                lemma_lex_from_out(m2, chunk, i + n, out + t);
                lemma_lex_from_out(m2, chunk, i + n, seq![] + t);
                lemma_lex_from_out(m2, chunk, i + n, seq![]);
                assert(seq![] + t =~= t);
                match lex_from(m2, chunk, i + n, seq![]) {
                    Some((m3, t3)) => {
                        assert(out + t + t3 =~= out + (t + t3));
                    },
                    None => {},
                }
            },
            LexStep::Stop(m2, t) => {
                assert(seq![] + t =~= t);
            },
            LexStep::Panic => {},
        }
    } else {
        assert(out + seq![] =~= out);
    }
}

/// Running on `a + b` from inside `a` does in `a` what running on `a` does;
/// unless it finished there, it goes on from the start of `b`.
proof fn lemma_lex_from_prefix(m: LexerModel, a: Seq<u8>, b: Seq<u8>, i: int, out: Seq<TokenView>)
    requires
        m.state != LexerStates::EarlyFinish,
        0 <= i <= a.len(),
        lex_from(m, a, i, out) is Some,
    ensures
        ({
            let (m1, t1) = lex_from(m, a, i, out).unwrap();
            if m1.state == LexerStates::EarlyFinish {
                lex_from(m, a + b, i, out) == lex_from(m, a, i, out)
            } else {
                lex_from(m, a + b, i, out) == lex_from(m1, a + b, a.len() as int, t1)
            }
        }),
    decreases a.len() - i,
{
    if i < a.len() {
        lemma_step_advances(m, a, i);
        lemma_step_in_bounds(m, a, i);
        lemma_step_state(m, a, i);
        lemma_step_prefix(m, a, b, i);
        match lex_step(m, a, i) {
            LexStep::Advance(m2, t, n) => {
                lemma_lex_from_prefix(m2, a, b, i + n, out + t);
            },
            _ => {},
        }
    }
}

/// Running on `a + b` from inside `b` is running on `b`.
proof fn lemma_lex_from_shift(m: LexerModel, a: Seq<u8>, b: Seq<u8>, j: int, out: Seq<TokenView>)
    requires
        0 <= j,
    ensures
        lex_from(m, a + b, a.len() + j, out) == lex_from(m, b, j, out),
    decreases b.len() - j,
{
    if j < b.len() {
        lemma_step_advances(m, b, j);
        lemma_step_shift(m, a, b, j);
        match lex_step(m, b, j) {
            LexStep::Advance(m2, t, n) => {
                lemma_lex_from_shift(m2, a, b, j + n, out + t);
                assert(a.len() + j + n == a.len() + (j + n));
            },
            _ => {},
        }
    }
}

/// The tokens of an optional batch, none for no batch.
pub open spec fn batch_tokens(batch: Option<Seq<TokenView>>) -> Seq<TokenView> {
    match batch {
        Some(t) => t,
        None => seq![],
    }
}

/// How the input is cut into chunks does not matter, as long as no cut
/// falls inside `true` or `false`: feeding `a` and then `b` leaves the lexer
/// in the state, and emits the tokens, that feeding `a + b` at once does.
pub proof fn law_chunking_does_not_matter(m: LexerModel, a: Seq<u8>, b: Seq<u8>)
    requires
        m.state != LexerStates::EarlyFinish,
        a.len() > 0,
        b.len() > 0,
        !batch_overruns(m, a),
    ensures
        ({
            let (m1, ta) = next_batch_spec(m, a);
            let (m2, tb) = next_batch_spec(m1, b);
            &&& batch_overruns(m, a + b) == batch_overruns(m1, b)
            &&& !batch_overruns(m, a + b) ==> next_batch_spec(m, a + b) == (m2, Some(batch_tokens(ta) + batch_tokens(tb)))
        }),
{
    let (m1, t1) = lex_from(m, a, 0, seq![]).unwrap();
    lemma_lex_from_prefix(m, a, b, 0, seq![]);
    if m1.state == LexerStates::EarlyFinish {
        assert(t1 + seq![] =~= t1);
    } else {
        lemma_lex_from_shift(m1, a, b, 0, t1);
        lemma_lex_from_out(m1, b, 0, t1);
        assert(a.len() + 0 == a.len());
    }
}

/// The lexer between tokens, written out: looking for delimiters, nothing
/// accumulated, no kind recorded, not a float.
pub open spec fn between_tokens() -> LexerModel {
    LexerModel {
        state: LexerStates::LookingDelimiters,
        accumulator: Seq::empty(),
        kind: None,
        is_float: false,
    }
}

/// Digits written without a superfluous leading zero: a non-empty digit
/// string that starts with a non-zero digit, or is `0` itself.
pub open spec fn json_integer_digits(d: Seq<u8>) -> bool {
    &&& d.len() > 0
    &&& forall|k: int| 0 <= k < d.len() ==> B_ZERO <= #[trigger] d[k] <= B_NINE
    &&& (d[0] != B_ZERO || d.len() == 1)
}

/// The lexer having read the first `k` digits of `d` as an integer.
spec fn reading_integer(d: Seq<u8>, k: int) -> LexerModel {
    LexerModel {
        state: LexerStates::LookingIntegerOrFloat,
        accumulator: d.take(k),
        kind: Some(AccumulableTokensKind::Integer),
        is_float: false,
    }
}

/// Reading the rest of the digits of `d` emits nothing.
proof fn lemma_digits_run(chunk: Seq<u8>, p: int, d: Seq<u8>, k: int, out: Seq<TokenView>)
    requires
        json_integer_digits(d),
        0 <= p,
        1 <= k <= d.len(),
        p + d.len() <= chunk.len(),
        forall|j: int| 0 <= j < d.len() ==> chunk[p + j] == #[trigger] d[j],
    ensures
        lex_from(reading_integer(d, k), chunk, p + k, out) == lex_from(
            reading_integer(d, d.len() as int),
            chunk,
            p + d.len(),
            out,
        ),
    decreases d.len() - k,
{
    if k < d.len() {
        let m = reading_integer(d, k);
        let b = chunk[p + k];
        assert(b == d[k]);
        assert(B_ZERO <= d[k] <= B_NINE);
        assert(m.accumulator[0] == d[0]);
        assert(d.take(k).push(d[k]) =~= d.take(k + 1));
        assert(lex_step(m, chunk, p + k) == LexStep::Advance(reading_integer(d, k + 1), seq![], 1));
        assert(out + seq![] =~= out);
        lemma_digits_run(chunk, p, d, k + 1, out);
    }
}

/// A JSON integer inside an array is one `Integer` token of exactly its
/// digits: feeding `[` + `d` + `]` to a fresh lexer emits `ArrayStart`,
/// `Integer(d)`, `ArrayEnd`, and leaves the lexer between tokens. In
/// particular no zero after the first digit (as in `100`) is an error.
pub proof fn law_integer_in_array(d: Seq<u8>)
    requires
        json_integer_digits(d),
    ensures
        ({
            let chunk = seq![B_LBRACKET] + d + seq![B_RBRACKET];
            &&& !batch_overruns(between_tokens(), chunk)
            &&& next_batch_spec(between_tokens(), chunk) == (
                between_tokens(),
                Some(seq![TokenView::ArrayStart, TokenView::Integer(ascii_chars(d)), TokenView::ArrayEnd]),
            )
        }),
{
    let chunk = seq![B_LBRACKET] + d + seq![B_RBRACKET];
    let n = d.len() as int;
    assert(chunk[0] == B_LBRACKET);
    assert forall|j: int| 0 <= j < d.len() implies chunk[1 + j] == #[trigger] d[j] by {
        assert(chunk[1 + j] == (seq![B_LBRACKET] + d)[1 + j]);
    }
    assert(chunk[1 + n] == B_RBRACKET);
    assert(chunk.len() == n + 2);
    let idle = between_tokens();
    assert(idle == idle_model());
    // `[`
    assert(lex_step(idle, chunk, 0) == LexStep::Advance(idle, seq![TokenView::ArrayStart], 1));
    assert(seq![] + seq![TokenView::ArrayStart] =~= seq![TokenView::ArrayStart]);
    // the first digit
    assert(chunk[1] == d[0]);
    assert(B_ZERO <= d[0] <= B_NINE);
    assert(Seq::<u8>::empty().push(d[0]) =~= d.take(1));
    assert(lex_step(idle, chunk, 1) == LexStep::Advance(reading_integer(d, 1), seq![], 1));
    let out = seq![TokenView::ArrayStart];
    assert(out + seq![] =~= out);
    // the other digits
    lemma_digits_run(chunk, 1, d, 1, out);
    // `]` ends the number
    let m = reading_integer(d, n);
    assert(d.take(n) =~= d);
    assert forall|k: int| 0 <= k < d.len() implies #[trigger] d[k] < 0x80 by {
        assert(B_ZERO <= d[k] <= B_NINE);
    }
    lemma_decode_ascii(d);
    assert(m.accumulator[0] == d[0]);
    assert(delimiter_step(idle_model(), chunk, 1 + n) == LexStep::Advance(idle, seq![TokenView::ArrayEnd], 1));
    let tokens = seq![TokenView::Integer(ascii_chars(d)), TokenView::ArrayEnd];
    assert(seq![TokenView::Integer(ascii_chars(d))] + seq![TokenView::ArrayEnd] =~= tokens);
    assert(lex_step(m, chunk, 1 + n) == LexStep::Advance(idle, tokens, 1));
    assert(out + tokens =~= seq![TokenView::ArrayStart, TokenView::Integer(ascii_chars(d)), TokenView::ArrayEnd]);
    assert(lex_from(idle, chunk, 2 + n, out + tokens) == Some((idle, out + tokens)));
    assert(lex_from(m, chunk, 1 + n, out) == lex_from(idle, chunk, 2 + n, out + tokens));
    assert(lex_from(reading_integer(d, 1), chunk, 2, out) == lex_from(m, chunk, 1 + n, out));
    assert(lex_from(idle, chunk, 1, out) == lex_from(reading_integer(d, 1), chunk, 2, out + seq![]));
    assert(lex_from(idle, chunk, 0, seq![]) == lex_from(idle, chunk, 1, seq![] + seq![TokenView::ArrayStart]));
}

/// The lexer having read the first `k` bytes of a text `s`.
spec fn reading_text(s: Seq<u8>, k: int) -> LexerModel {
    LexerModel { state: LexerStates::LookingText, accumulator: s.take(k), kind: None, is_float: false }
}

/// A text that no quote ends: quote-free bytes, not ending in a backslash
/// (which would escape the closing quote), under the 1KiB limit, valid UTF-8.
pub open spec fn plain_text_bytes(s: Seq<u8>) -> bool {
    &&& forall|k: int| 0 <= k < s.len() ==> #[trigger] s[k] != B_QUOTE
    &&& s.len() > 0 ==> s.last() != B_BACKSLASH
    &&& s.len() < TEXT_CAPACITY
    &&& valid_utf8(s)
}

proof fn lemma_text_run(chunk: Seq<u8>, s: Seq<u8>, k: int, out: Seq<TokenView>)
    requires
        plain_text_bytes(s),
        0 <= k <= s.len(),
        1 + s.len() <= chunk.len(),
        forall|j: int| 0 <= j < s.len() ==> chunk[1 + j] == #[trigger] s[j],
    ensures
        lex_from(reading_text(s, k), chunk, 1 + k, out) == lex_from(
            reading_text(s, s.len() as int),
            chunk,
            1 + s.len() as int,
            out,
        ),
    decreases s.len() - k,
{
    if k < s.len() {
        let m = reading_text(s, k);
        assert(chunk[1 + k] == s[k]);
        assert(s[k] != B_QUOTE);
        assert(s.take(k).push(s[k]) =~= s.take(k + 1));
        assert(lex_step(m, chunk, 1 + k) == LexStep::Advance(reading_text(s, k + 1), seq![], 1));
        assert(out + seq![] =~= out);
        lemma_text_run(chunk, s, k + 1, out);
    }
}

/// A text token carries exactly the bytes between its quotes: feeding
/// `"` + `s` + `"` to a fresh lexer, where no byte of `s` is a quote,
/// emits one `Text` of `s` decoded, and leaves the lexer between tokens.
/// Delimiters inside the quotes (`:`, `,`, `]`, ...) are text like any byte.
pub proof fn law_text_between_quotes(s: Seq<u8>)
    requires
        plain_text_bytes(s),
    ensures
        ({
            let chunk = seq![B_QUOTE] + s + seq![B_QUOTE];
            &&& !batch_overruns(between_tokens(), chunk)
            &&& next_batch_spec(between_tokens(), chunk) == (
                between_tokens(),
                Some(seq![TokenView::Text(decode_utf8(s))]),
            )
        }),
{
    let chunk = seq![B_QUOTE] + s + seq![B_QUOTE];
    let n = s.len() as int;
    assert(chunk[0] == B_QUOTE);
    assert forall|j: int| 0 <= j < s.len() implies chunk[1 + j] == #[trigger] s[j] by {
        assert(chunk[1 + j] == (seq![B_QUOTE] + s)[1 + j]);
    }
    assert(chunk[1 + n] == B_QUOTE);
    assert(chunk.len() == n + 2);
    let idle = between_tokens();
    assert(idle.accumulator =~= s.take(0));
    assert(lex_step(idle, chunk, 0) == LexStep::Advance(reading_text(s, 0), seq![], 1));
    assert(seq![] + seq![] =~= Seq::<TokenView>::empty());
    lemma_text_run(chunk, s, 0, seq![]);
    let m = reading_text(s, n);
    assert(s.take(n) =~= s);
    if n > 0 {
        assert(m.accumulator.last() == s.last());
    }
    assert(lex_step(m, chunk, 1 + n) == LexStep::Advance(idle, seq![TokenView::Text(decode_utf8(s))], 1));
    let text = seq![TokenView::Text(decode_utf8(s))];
    assert(Seq::<TokenView>::empty() + text =~= text);
    assert(lex_from(idle, chunk, 2 + n, text) == Some((idle, text)));
    assert(lex_from(m, chunk, 1 + n, seq![]) == lex_from(idle, chunk, 2 + n, Seq::<TokenView>::empty() + text));
    assert(lex_from(reading_text(s, 0), chunk, 1, seq![]) == lex_from(m, chunk, 1 + n, seq![]));
    assert(lex_from(idle, chunk, 0, seq![]) == lex_from(reading_text(s, 0), chunk, 1, Seq::<TokenView>::empty() + seq![]));
}

/// A number ends the same way at the end of the input as before a
/// delimiter: a lexer in the middle of a complete number (no trailing dot),
/// whatever its length, emits the number's token, of exactly its bytes, and
/// then `EndOfFile` at the end of the input, or the delimiter's token before
/// a comma.
pub proof fn law_number_at_end_of_input(m: LexerModel)
    requires
        lexer_wf(m),
        m.state == LexerStates::LookingIntegerOrFloat,
        m.accumulator.last() != B_DOT,
    ensures
        ({
            let acc = m.accumulator;
            let token = if m.is_float {
                TokenView::Float(decode_utf8(acc))
            } else {
                TokenView::Integer(decode_utf8(acc))
            };
            let done = LexerModel {
                state: LexerStates::EarlyFinish,
                accumulator: acc,
                kind: m.kind,
                is_float: m.is_float,
            };
            &&& valid_utf8(acc)
            &&& decode_utf8(acc) == ascii_chars(acc)
            &&& next_batch_spec(m, seq![]) == (done, Some(seq![token, TokenView::EndOfFile]))
            &&& !batch_overruns(m, seq![B_COMMA])
            &&& next_batch_spec(m, seq![B_COMMA]) == (between_tokens(), Some(seq![token, TokenView::Comma]))
        }),
{
    let acc = m.accumulator;
    lemma_number_text(acc, m.is_float);
    assert forall|k: int| 0 <= k < acc.len() implies #[trigger] acc[k] < 0x80 by {
        assert(is_number_byte(acc[k]));
    }
    lemma_decode_ascii(acc);
    if !m.is_float {
        if acc.last() == B_DOT {
            assert(acc[acc.len() - 1] == B_DOT);
        }
    }
    let chunk = seq![B_COMMA];
    let token = if m.is_float {
        TokenView::Float(decode_utf8(acc))
    } else {
        TokenView::Integer(decode_utf8(acc))
    };
    assert(delimiter_step(idle_model(), chunk, 0) == LexStep::Advance(idle_model(), seq![TokenView::Comma], 1));
    assert(seq![token] + seq![TokenView::Comma] =~= seq![token, TokenView::Comma]);
    assert(lex_step(m, chunk, 0) == LexStep::Advance(idle_model(), seq![token, TokenView::Comma], 1));
    assert(Seq::<TokenView>::empty() + seq![token, TokenView::Comma] =~= seq![token, TokenView::Comma]);
    assert(lex_from(idle_model(), chunk, 1, seq![token, TokenView::Comma]) == Some((idle_model(), seq![token, TokenView::Comma])));
    assert(lex_from(m, chunk, 0, seq![]) == Some((idle_model(), seq![token, TokenView::Comma])));
    if m.is_float {
        assert(m.kind == Some(AccumulableTokensKind::Float));
    } else {
        assert(m.kind == Some(AccumulableTokensKind::Integer));
    }
    assert(end_of_input_tokens(m) == seq![token, TokenView::EndOfFile]);
}

/// The bytes of a JSON number without exponent: an optional minus sign,
/// digits without a superfluous leading zero, and, where `fraction` is not
/// empty, a dot and the fraction's digits.
pub open spec fn json_number_bytes(integer: Seq<u8>, fraction: Seq<u8>) -> Seq<u8> {
    if fraction.len() == 0 {
        integer
    } else {
        integer + seq![B_DOT] + fraction
    }
}

/// The integer part of a JSON number: an optional minus sign, then digits
/// without a superfluous leading zero.
pub open spec fn json_integer_part(integer: Seq<u8>) -> bool {
    if integer.len() > 0 && integer[0] == B_MINUS {
        json_integer_digits(integer.skip(1))
    } else {
        json_integer_digits(integer)
    }
}

/// Non-empty digits.
pub open spec fn json_fraction_digits(fraction: Seq<u8>) -> bool {
    forall|k: int| 0 <= k < fraction.len() ==> B_ZERO <= #[trigger] fraction[k] <= B_NINE
}

/// What the lexer reads a number through without complaint: number bytes,
/// a minus sign only first, a dot (if any, at `dot`, else `dot` is the
/// length) only once, neither first nor last and followed by a digit, and a
/// leading zero only before the dot or alone.
spec fn lexable_number(d: Seq<u8>, dot: int) -> bool {
    &&& d.len() > 0
    &&& 1 <= dot <= d.len()
    &&& forall|k: int| 0 <= k < d.len() ==> is_number_byte(#[trigger] d[k])
    &&& forall|k: int| 1 <= k < d.len() ==> #[trigger] d[k] != B_MINUS
    &&& forall|k: int| 0 <= k < d.len() && k != dot ==> #[trigger] d[k] != B_DOT
    &&& dot < d.len() ==> d[dot] == B_DOT && dot + 1 < d.len() && is_digit_byte(d[dot + 1])
    &&& d[0] == B_ZERO && d.len() > 1 ==> d[1] == B_DOT
}

/// The lexer having read the first `k` bytes of a number `d` whose dot is
/// at `dot`.
spec fn reading_number(d: Seq<u8>, dot: int, k: int) -> LexerModel {
    LexerModel {
        state: LexerStates::LookingIntegerOrFloat,
        accumulator: d.take(k),
        kind: Some(
            if dot < k - 1 {
                AccumulableTokensKind::Float
            } else {
                AccumulableTokensKind::Integer
            },
        ),
        is_float: dot < k,
    }
}

proof fn lemma_number_run(chunk: Seq<u8>, p: int, d: Seq<u8>, dot: int, k: int, out: Seq<TokenView>)
    requires
        lexable_number(d, dot),
        0 <= p,
        1 <= k <= d.len(),
        p + d.len() <= chunk.len(),
        forall|j: int| 0 <= j < d.len() ==> chunk[p + j] == #[trigger] d[j],
    ensures
        lex_from(reading_number(d, dot, k), chunk, p + k, out) == lex_from(
            reading_number(d, dot, d.len() as int),
            chunk,
            p + d.len(),
            out,
        ),
    decreases d.len() - k,
{
    if k < d.len() {
        let m = reading_number(d, dot, k);
        let b = chunk[p + k];
        assert(b == d[k]);
        assert(is_number_byte(d[k]));
        assert(d[k] != B_MINUS);
        assert(m.accumulator[0] == d[0]);
        assert(m.accumulator.last() == d[k - 1]);
        if d[0] == B_ZERO && d.len() > 1 {
            assert(d[1] == B_DOT);
        }
        if d[k - 1] == B_DOT {
            assert(k - 1 == dot);
        }
        if b == B_DOT {
            assert(k == dot);
        }
        assert(d.take(k).push(d[k]) =~= d.take(k + 1));
        assert(lex_step(m, chunk, p + k) == LexStep::Advance(reading_number(d, dot, k + 1), seq![], 1));
        assert(out + seq![] =~= out);
        lemma_number_run(chunk, p, d, dot, k + 1, out);
    }
}

proof fn lemma_json_number_lexable(integer: Seq<u8>, fraction: Seq<u8>)
    requires
        json_integer_part(integer),
        json_fraction_digits(fraction),
    ensures
        lexable_number(json_number_bytes(integer, fraction), integer.len() as int),
        json_number_bytes(integer, fraction).len() == (if fraction.len() == 0 {
            integer.len() as int
        } else {
            (integer.len() + 1 + fraction.len()) as int
        }),
{
    let d = json_number_bytes(integer, fraction);
    let n = integer.len() as int;
    let signed = integer.len() > 0 && integer[0] == B_MINUS;
    let digits = if signed { integer.skip(1) } else { integer };
    assert forall|k: int| 0 <= k < n implies #[trigger] integer[k] == B_MINUS && k == 0 && signed
        || B_ZERO <= integer[k] <= B_NINE by {
        if signed {
            if k > 0 {
                assert(integer[k] == digits[k - 1]);
            }
        } else {
            assert(integer[k] == digits[k]);
        }
    }
    assert forall|k: int| 0 <= k < n implies #[trigger] d[k] == integer[k] by {
        if fraction.len() > 0 {
            assert(d[k] == (integer + seq![B_DOT])[k]);
        }
    }
    if fraction.len() > 0 {
        assert(d[n] == B_DOT) by {
            assert(d[n] == (integer + seq![B_DOT])[n]);
        }
        assert forall|k: int| 0 <= k < fraction.len() implies #[trigger] d[n + 1 + k] == fraction[k] by {}
        assert(d.len() == n + 1 + fraction.len());
    }
    assert(n >= 1);
    assert forall|k: int| 0 <= k < d.len() implies is_number_byte(#[trigger] d[k]) by {
        if k < n {
            assert(d[k] == integer[k]);
        } else if k > n {
            assert(d[k] == fraction[k - n - 1]);
        }
    }
    assert forall|k: int| 1 <= k < d.len() implies #[trigger] d[k] != B_MINUS by {
        if k < n {
            assert(d[k] == integer[k]);
        } else if k > n {
            assert(d[k] == fraction[k - n - 1]);
        }
    }
    assert forall|k: int| 0 <= k < d.len() && k != n implies #[trigger] d[k] != B_DOT by {
        if k < n {
            assert(d[k] == integer[k]);
        } else {
            assert(d[k] == fraction[k - n - 1]);
        }
    }
    if fraction.len() > 0 {
        assert(d[n + 1] == fraction[0]);
    }
    if d[0] == B_ZERO && d.len() > 1 {
        assert(d[0] == integer[0]);
        assert(!signed);
        assert(digits[0] == B_ZERO);
        if n > 1 {
            assert(false);
        }
    }
}

/// A JSON number inside an array is one token of exactly its bytes:
/// feeding `[` + number + `]` to a fresh lexer emits `ArrayStart`, then
/// `Float` of the number where it has a fraction and `Integer` of it where
/// it has none, then `ArrayEnd`, and leaves the lexer between tokens.
pub proof fn law_number_in_array(integer: Seq<u8>, fraction: Seq<u8>)
    requires
        json_integer_part(integer),
        json_fraction_digits(fraction),
    ensures
        ({
            let number = json_number_bytes(integer, fraction);
            let chunk = seq![B_LBRACKET] + number + seq![B_RBRACKET];
            let token = if fraction.len() == 0 {
                TokenView::Integer(ascii_chars(number))
            } else {
                TokenView::Float(ascii_chars(number))
            };
            &&& !batch_overruns(between_tokens(), chunk)
            &&& next_batch_spec(between_tokens(), chunk) == (
                between_tokens(),
                Some(seq![TokenView::ArrayStart, token, TokenView::ArrayEnd]),
            )
        }),
{
    let d = json_number_bytes(integer, fraction);
    let dot = integer.len() as int;
    lemma_json_number_lexable(integer, fraction);
    let chunk = seq![B_LBRACKET] + d + seq![B_RBRACKET];
    let n = d.len() as int;
    assert(chunk[0] == B_LBRACKET);
    assert forall|j: int| 0 <= j < d.len() implies chunk[1 + j] == #[trigger] d[j] by {
        assert(chunk[1 + j] == (seq![B_LBRACKET] + d)[1 + j]);
    }
    assert(chunk[1 + n] == B_RBRACKET);
    assert(chunk.len() == n + 2);
    let idle = between_tokens();
    assert(idle == idle_model());
    assert(lex_step(idle, chunk, 0) == LexStep::Advance(idle, seq![TokenView::ArrayStart], 1));
    // the first byte: a digit or a minus sign
    assert(chunk[1] == d[0]);
    assert(is_number_byte(d[0]));
    assert(d[0] != B_DOT);
    assert(Seq::<u8>::empty().push(d[0]) =~= d.take(1));
    assert(lex_step(idle, chunk, 1) == LexStep::Advance(reading_number(d, dot, 1), seq![], 1));
    let out = seq![TokenView::ArrayStart];
    lemma_number_run(chunk, 1, d, dot, 1, out);
    // `]` ends the number
    let m = reading_number(d, dot, n);
    assert(d.take(n) =~= d);
    assert forall|k: int| 0 <= k < d.len() implies #[trigger] d[k] < 0x80 by {
        assert(is_number_byte(d[k]));
    }
    lemma_decode_ascii(d);
    assert(m.accumulator[0] == d[0]);
    assert(m.accumulator.last() == d[n - 1]);
    assert(d[n - 1] != B_DOT);
    let token = if fraction.len() == 0 {
        TokenView::Integer(ascii_chars(d))
    } else {
        TokenView::Float(ascii_chars(d))
    };
    assert(m.is_float == (fraction.len() != 0));
    assert(delimiter_step(idle_model(), chunk, 1 + n) == LexStep::Advance(idle, seq![TokenView::ArrayEnd], 1));
    let tokens = seq![token, TokenView::ArrayEnd];
    assert(seq![token] + seq![TokenView::ArrayEnd] =~= tokens);
    assert(lex_step(m, chunk, 1 + n) == LexStep::Advance(idle, tokens, 1));
    assert(out + tokens =~= seq![TokenView::ArrayStart, token, TokenView::ArrayEnd]);
    assert(lex_from(idle, chunk, 2 + n, out + tokens) == Some((idle, out + tokens)));
    assert(lex_from(m, chunk, 1 + n, out) == lex_from(idle, chunk, 2 + n, out + tokens));
    assert(lex_from(reading_number(d, dot, 1), chunk, 2, out) == lex_from(m, chunk, 1 + n, out));
    assert(out + seq![] =~= out);
    assert(lex_from(idle, chunk, 1, out) == lex_from(reading_number(d, dot, 1), chunk, 2, out + seq![]));
    assert(seq![] + seq![TokenView::ArrayStart] =~= seq![TokenView::ArrayStart]);
    assert(lex_from(idle, chunk, 0, seq![]) == lex_from(idle, chunk, 1, seq![] + seq![TokenView::ArrayStart]));
}

/// Feeding `bytes` to a fresh lexer emits `tokens` and leaves it between tokens.
pub open spec fn lexes_to(bytes: Seq<u8>, tokens: Seq<TokenView>) -> bool {
    &&& !batch_overruns(between_tokens(), bytes)
    &&& next_batch_spec(between_tokens(), bytes) == (between_tokens(), Some(tokens))
}

proof fn lemma_one_step(bytes: Seq<u8>, n: int, tokens: Seq<TokenView>)
    requires
        bytes.len() == n,
        n >= 1,
        lex_step(between_tokens(), bytes, 0) == LexStep::Advance(between_tokens(), tokens, n as nat),
    ensures
        lexes_to(bytes, tokens),
{
    assert(Seq::<TokenView>::empty() + tokens =~= tokens);
    assert(lex_from(between_tokens(), bytes, n, tokens) == Some((between_tokens(), tokens)));
}

/// The single-byte tokens, the literals and whitespace: `[`, `]`, `{`, `}`,
/// `,` and `:` are each one token of their own; `true` and `false` are
/// booleans; a space, a tab, a carriage return or a line feed emits nothing.
pub proof fn law_delimiters_literals_and_whitespace()
    ensures
        lexes_to(seq![0x5bu8], seq![TokenView::ArrayStart]),
        lexes_to(seq![0x5du8], seq![TokenView::ArrayEnd]),
        lexes_to(seq![0x7bu8], seq![TokenView::ObjectStart]),
        lexes_to(seq![0x7du8], seq![TokenView::ObjectEnd]),
        lexes_to(seq![0x2cu8], seq![TokenView::Comma]),
        lexes_to(seq![0x3au8], seq![TokenView::Colon]),
        lexes_to(seq![0x74u8, 0x72, 0x75, 0x65], seq![TokenView::Boolean(true)]),
        lexes_to(seq![0x66u8, 0x61, 0x6c, 0x73, 0x65], seq![TokenView::Boolean(false)]),
        lexes_to(seq![0x20u8], seq![]),
        lexes_to(seq![0x09u8], seq![]),
        lexes_to(seq![0x0du8], seq![]),
        lexes_to(seq![0x0au8], seq![]),
{
    lemma_one_step(seq![0x5bu8], 1, seq![TokenView::ArrayStart]);
    lemma_one_step(seq![0x5du8], 1, seq![TokenView::ArrayEnd]);
    lemma_one_step(seq![0x7bu8], 1, seq![TokenView::ObjectStart]);
    lemma_one_step(seq![0x7du8], 1, seq![TokenView::ObjectEnd]);
    lemma_one_step(seq![0x2cu8], 1, seq![TokenView::Comma]);
    lemma_one_step(seq![0x3au8], 1, seq![TokenView::Colon]);
    let t = seq![0x74u8, 0x72, 0x75, 0x65];
    assert(t.subrange(0, 4) =~= t);
    lemma_one_step(t, 4, seq![TokenView::Boolean(true)]);
    let f = seq![0x66u8, 0x61, 0x6c, 0x73, 0x65];
    assert(f.subrange(0, 5) =~= f);
    lemma_one_step(f, 5, seq![TokenView::Boolean(false)]);
    lemma_one_step(seq![0x20u8], 1, seq![]);
    lemma_one_step(seq![0x09u8], 1, seq![]);
    lemma_one_step(seq![0x0du8], 1, seq![]);
    lemma_one_step(seq![0x0au8], 1, seq![]);
}

/// A byte that starts no token is an error that finishes the lexer: an
/// ASCII byte is named in the message, any other byte is reported as not
/// valid UTF-8; nothing else is emitted.
pub proof fn law_unexpected_byte_is_an_error(b: u8)
    requires
        !(b == 0x5b || b == 0x5d || b == 0x7b || b == 0x7d || b == 0x2c || b == 0x3a),
        !(b == 0x22 || b == 0x74 || b == 0x66 || b == 0x2d),
        !(0x30 <= b <= 0x39),
        !(b == 0x20 || b == 0x09 || b == 0x0d || b == 0x0a),
    ensures
        ({
            let message = if b < 0x80 {
                "unexpected character in JSON ("@ + seq![b as char] + ")"@
            } else {
                "unexpected character in JSON not a valid utf-8 encoded string"@
            };
            let done = LexerModel {
                state: LexerStates::EarlyFinish,
                accumulator: Seq::empty(),
                kind: None,
                is_float: false,
            };
            &&& !batch_overruns(between_tokens(), seq![b])
            &&& next_batch_spec(between_tokens(), seq![b]) == (done, Some(seq![TokenView::Error(message)]))
        }),
{
    let bytes = seq![b];
    if b < 0x80 {
        assert forall|k: int| 0 <= k < bytes.len() implies #[trigger] bytes[k] < 0x80 by {}
        lemma_decode_ascii(bytes);
        assert(ascii_chars(bytes) =~= seq![b as char]);
    } else {
        assert(!valid_utf8(bytes));
    }
    let message = unexpected_character_message(b);
    assert(Seq::<TokenView>::empty() + seq![TokenView::Error(message)] =~= seq![TokenView::Error(message)]);
}

} // verus!
