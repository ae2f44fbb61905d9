use vstd::prelude::*;
use vstd::string::StringExecFns;
use vstd::utf8::decode_utf8;
use vstd::utf8::valid_utf8;

use crate::json_lexer::model::LexStep;
use crate::json_lexer::model::LexerModel;
use crate::json_lexer::model::batch_overruns;
use crate::json_lexer::model::delimiter_step;
use crate::json_lexer::model::end_of_input_tokens;
use crate::json_lexer::model::finished;
use crate::json_lexer::model::idle_model;
use crate::json_lexer::model::kind_token;
use crate::json_lexer::model::lemma_step_in_bounds;
use crate::json_lexer::model::lex_from;
use crate::json_lexer::model::lex_step;
use crate::json_lexer::model::next_batch_spec;
use crate::json_lexer::model::number_step;
use crate::json_lexer::model::text_step;
use crate::json_lexer::model::unexpected_character_message;

/// The lexer's abstract state and what each step does to it.
pub mod model;
/// The lexer's invariant and the laws of the token stream.
pub mod laws;

verus! {

/// These are the possible tokens emmited by the lexer,
/// The parser consumes them, note tokens should not be used after consumed.
#[derive(Debug, PartialEq, Eq)]
pub enum Token {
    ArrayStart,
    ArrayEnd,
    ObjectStart,
    ObjectEnd,
    Text(String),
    Comma,
    Colon,
    Boolean(bool),
    Integer(String),
    Float(String),
    Error(String),
    EndOfFile,
}

/// The mathematical value of a token: its strings taken as character sequences.
pub enum TokenView {
    ArrayStart,
    ArrayEnd,
    ObjectStart,
    ObjectEnd,
    Text(Seq<char>),
    Comma,
    Colon,
    Boolean(bool),
    Integer(Seq<char>),
    Float(Seq<char>),
    Error(Seq<char>),
    EndOfFile,
}

impl View for Token {
    type V = TokenView;

    open spec fn view(&self) -> TokenView {
        match self {
            Token::ArrayStart => TokenView::ArrayStart,
            Token::ArrayEnd => TokenView::ArrayEnd,
            Token::ObjectStart => TokenView::ObjectStart,
            Token::ObjectEnd => TokenView::ObjectEnd,
            Token::Text(s) => TokenView::Text(s@),
            Token::Comma => TokenView::Comma,
            Token::Colon => TokenView::Colon,
            Token::Boolean(b) => TokenView::Boolean(*b),
            Token::Integer(s) => TokenView::Integer(s@),
            Token::Float(s) => TokenView::Float(s@),
            Token::Error(s) => TokenView::Error(s@),
            Token::EndOfFile => TokenView::EndOfFile,
        }
    }
}

/// The views of a sequence of tokens.
pub open spec fn view_tokens(tokens: Seq<Token>) -> Seq<TokenView> {
    tokens.map_values(|t: Token| t@)
}

/// The kinds of token whose bytes are accumulated before the token is emitted.
#[derive(Clone, Copy)]
pub enum AccumulableTokensKind {
    Text,
    Integer,
    Float,
}

/// The states of the lexer's state machine.
#[derive(PartialEq, Eq, Structural, Clone, Copy)]
pub enum LexerStates {
    /// Looks for all possible delimiter tokens, these are all single byte tokens:
    /// eg: [, ], {, }, comma, colon, quote, t, f.
    ///
    /// Under the modern standards (RFC 8329 nad ECMA-404) a JSON is defined
    /// as any serialized JSON value. This mean you do not need to wrap your data in
    /// an object or an array for it to be considered valid.
    LookingDelimiters,
    /// Takes anythiing until next quote. Also looks for backslash quote (\")
    /// if is an esaped quote do not treat it as the end of text.
    LookingText,
    /// Look for all number cahracters until found something that is not
    /// a number character, eg spaces, commas, etc.
    ///
    /// If found a dot, do not end.
    ///
    /// If after dot is not a number, return error.
    ///
    /// If after dot have a number tracks everything until next non number
    /// character.
    LookingIntegerOrFloat,
    /// This state finish the lexer before reading the whole input,
    /// use this to finish after finding an error.
    EarlyFinish,
}

/// The byte `[`.
pub const B_LBRACKET: u8 = 0x5b;
/// The byte `]`.
pub const B_RBRACKET: u8 = 0x5d;
/// The byte `{`.
pub const B_LBRACE: u8 = 0x7b;
/// The byte `}`.
pub const B_RBRACE: u8 = 0x7d;
/// The byte `,`.
pub const B_COMMA: u8 = 0x2c;
/// The byte `:`.
pub const B_COLON: u8 = 0x3a;
/// The byte `"`.
pub const B_QUOTE: u8 = 0x22;
/// The byte `\`.
pub const B_BACKSLASH: u8 = 0x5c;
/// The byte `-`.
pub const B_MINUS: u8 = 0x2d;
/// The byte `.`.
pub const B_DOT: u8 = 0x2e;
/// The byte `0`.
pub const B_ZERO: u8 = 0x30;
/// The byte `9`.
pub const B_NINE: u8 = 0x39;
/// The byte `t`.
pub const B_T: u8 = 0x74;
/// The byte `r`.
pub const B_R: u8 = 0x72;
/// The byte `u`.
pub const B_U: u8 = 0x75;
/// The byte `e`.
pub const B_E: u8 = 0x65;
/// The byte `f`.
pub const B_F: u8 = 0x66;
/// The byte `a`.
pub const B_A: u8 = 0x61;
/// The byte `l`.
pub const B_L: u8 = 0x6c;
/// The byte `s`.
pub const B_S: u8 = 0x73;
/// The byte carriage return.
pub const B_CR: u8 = 0x0d;
/// The byte line feed.
pub const B_LF: u8 = 0x0a;
/// The byte tab.
pub const B_TAB: u8 = 0x09;
/// The byte space.
pub const B_SPACE: u8 = 0x20;

/// The largest number of bytes a text may accumulate, exclusive: a text
/// cannot be larger than 1KiB.
pub const TEXT_CAPACITY: usize = 1024;

/// A streaming JSON lexer: it is fed chunks of bytes and emits batches of
/// tokens. A token may span chunks, except `true` and `false`, which must
/// lie within one chunk.
pub struct JsonLexer {
    state: LexerStates,
    /// Since we are reading from a buffer, we cannot keep a reference
    /// to the data read, as it will be later overwriten.
    current_token_accumulator: Vec<u8>,
    current_token_accumulator_kind: Option<AccumulableTokensKind>,
    is_current_token_float: bool,
}

impl View for JsonLexer {
    type V = LexerModel;

    closed spec fn view(&self) -> LexerModel {
        LexerModel {
            state: self.state,
            accumulator: self.current_token_accumulator@,
            kind: self.current_token_accumulator_kind,
            is_float: self.is_current_token_float,
        }
    }
}

/// The views of an optional batch of tokens.
pub open spec fn batch_view(batch: Option<Vec<Token>>) -> Option<Seq<TokenView>> {
    match batch {
        Some(v) => Some(view_tokens(v@)),
        None => None,
    }
}

/// `String::from_utf8` (std): the bytes decoded as UTF-8, `None` where they
/// are not valid UTF-8.
#[verifier::external_body]
fn string_from_utf8(bytes: Vec<u8>) -> (res: Option<String>)
    ensures
        res is Some <==> valid_utf8(bytes@),
        res matches Some(s) ==> s@ == decode_utf8(bytes@),
{
    String::from_utf8(bytes).ok()
}

/// What a step of the lexer told its loop.
enum StepOutcome {
    Advance(usize),
    Stop,
    Panic,
}

spec fn outcome_matches(
    r: StepOutcome,
    s: LexStep,
    after: LexerModel,
    before_tokens: Seq<TokenView>,
    after_tokens: Seq<TokenView>,
) -> bool {
    match s {
        LexStep::Advance(m, t, n) => r matches StepOutcome::Advance(k) && k == n && after == m
            && after_tokens == before_tokens + t,
        LexStep::Stop(m, t) => r is Stop && after == m && after_tokens == before_tokens + t,
        LexStep::Panic => r is Panic,
    }
}

fn emit(tokens: &mut Vec<Token>, token: Token)
    ensures
        view_tokens(final(tokens)@) == view_tokens(old(tokens)@).push(token@),
{
    let ghost tv = token@;
    tokens.push(token);
    proof {
        assert(view_tokens(tokens@) =~= view_tokens(old(tokens)@).push(tv));
    }
}

fn error_token(message: &str) -> (token: Token)
    ensures
        token@ == TokenView::Error(message@),
{
    Token::Error(String::from_str(message))
}

fn token_of_kind(kind: AccumulableTokensKind, text: String) -> (token: Token)
    ensures
        token@ == kind_token(kind, text@),
{
    match kind {
        AccumulableTokensKind::Float => Token::Float(text),
        AccumulableTokensKind::Integer => Token::Integer(text),
        AccumulableTokensKind::Text => Token::Text(text),
    }
}

fn copy_bytes(bytes: &Vec<u8>) -> (copy: Vec<u8>)
    ensures
        copy@ == bytes@,
{
    let copy = bytes.clone();
    proof {
        assert(copy@ =~= bytes@);
    }
    copy
}

impl JsonLexer {
    /// A lexer at the start of its input.
    pub fn new() -> (lexer: Self)
        ensures
            lexer@ == idle_model(),
    {
        JsonLexer {
            state: LexerStates::LookingDelimiters,
            current_token_accumulator: Vec::with_capacity(TEXT_CAPACITY),
            current_token_accumulator_kind: None,
            is_current_token_float: false,
        }
    }

    /// Whether the lexer has finished: it emits no more tokens.
    pub fn is_finished(&self) -> (finished: bool)
        ensures
            finished == (self@.state == LexerStates::EarlyFinish),
    {
        self.state == LexerStates::EarlyFinish
    }

    fn duplicate(&self) -> (copy: Self)
        ensures
            copy@ == self@,
    {
        JsonLexer {
            state: self.state,
            current_token_accumulator: copy_bytes(&self.current_token_accumulator),
            current_token_accumulator_kind: self.current_token_accumulator_kind,
            is_current_token_float: self.is_current_token_float,
        }
    }

    fn finish_with_error(&mut self, tokens: &mut Vec<Token>, message: &str) -> (r: StepOutcome)
        ensures
            r is Stop,
            final(self)@ == finished(old(self)@),
            view_tokens(final(tokens)@) == view_tokens(old(tokens)@) + seq![TokenView::Error(message@)],
    {
        emit(tokens, error_token(message));
        self.state = LexerStates::EarlyFinish;
        proof {
            assert(view_tokens(old(tokens)@).push(TokenView::Error(message@))
                =~= view_tokens(old(tokens)@) + seq![TokenView::Error(message@)]);
        }
        StepOutcome::Stop
    }

    fn emit_advance(&mut self, tokens: &mut Vec<Token>, token: Token, n: usize) -> (r: StepOutcome)
        ensures
            r matches StepOutcome::Advance(k) && k == n,
            final(self)@ == old(self)@,
            view_tokens(final(tokens)@) == view_tokens(old(tokens)@) + seq![token@],
    {
        let ghost tv = token@;
        emit(tokens, token);
        proof {
            assert(view_tokens(old(tokens)@).push(tv) =~= view_tokens(old(tokens)@) + seq![tv]);
        }
        StepOutcome::Advance(n)
    }

    fn delimiter_step(&mut self, chunk: &[u8], i: usize, tokens: &mut Vec<Token>) -> (r: StepOutcome)
        requires
            i < chunk@.len(),
        ensures
            outcome_matches(
                r,
                delimiter_step(old(self)@, chunk@, i as int),
                final(self)@,
                view_tokens(old(tokens)@),
                view_tokens(final(tokens)@),
            ),
    {
        let item = chunk[i];
        let ghost before = view_tokens(tokens@);
        if item == B_LBRACKET {
            self.emit_advance(tokens, Token::ArrayStart, 1)
        } else if item == B_RBRACKET {
            self.emit_advance(tokens, Token::ArrayEnd, 1)
        } else if item == B_LBRACE {
            self.emit_advance(tokens, Token::ObjectStart, 1)
        } else if item == B_RBRACE {
            self.emit_advance(tokens, Token::ObjectEnd, 1)
        } else if item == B_COMMA {
            self.emit_advance(tokens, Token::Comma, 1)
        } else if item == B_COLON {
            self.emit_advance(tokens, Token::Colon, 1)
        } else if item == B_QUOTE {
            self.state = LexerStates::LookingText;
            proof {
                assert(before + seq![] =~= before);
            }
            StepOutcome::Advance(1)
        } else if item == B_T {
            // Checks if we have a true sequence.
            if chunk.len() - i < 4 {
                StepOutcome::Panic
            } else if chunk[i + 1] == B_R && chunk[i + 2] == B_U && chunk[i + 3] == B_E {
                proof {
                    assert(chunk@.subrange(i as int, i + 4) =~= seq![B_T, B_R, B_U, B_E]);
                }
                // Advance after the "true" sequence
                self.emit_advance(tokens, Token::Boolean(true), 4)
            } else {
                proof {
                    let w = seq![B_T, B_R, B_U, B_E];
                    if chunk@.subrange(i as int, i + 4) == w {
                        assert(chunk@.subrange(i as int, i + 4)[1] == w[1]);
                        assert(chunk@.subrange(i as int, i + 4)[2] == w[2]);
                        assert(chunk@.subrange(i as int, i + 4)[3] == w[3]);
                    }
                }
                self.finish_with_error(tokens, "found unexpected sequence")
            }
        } else if item == B_F {
            // Checks if we have a false sequence.
            if chunk.len() - i < 5 {
                StepOutcome::Panic
            } else if chunk[i + 1] == B_A && chunk[i + 2] == B_L && chunk[i + 3] == B_S && chunk[i + 4]
                == B_E {
                proof {
                    assert(chunk@.subrange(i as int, i + 5) =~= seq![B_F, B_A, B_L, B_S, B_E]);
                }
                // Advance after the "false" sequence.
                self.emit_advance(tokens, Token::Boolean(false), 5)
            } else {
                proof {
                    let w = seq![B_F, B_A, B_L, B_S, B_E];
                    if chunk@.subrange(i as int, i + 5) == w {
                        assert(chunk@.subrange(i as int, i + 5)[1] == w[1]);
                        assert(chunk@.subrange(i as int, i + 5)[2] == w[2]);
                        assert(chunk@.subrange(i as int, i + 5)[3] == w[3]);
                        assert(chunk@.subrange(i as int, i + 5)[4] == w[4]);
                    }
                }
                self.finish_with_error(tokens, "found unexpected sequence")
            }
        } else if item == B_CR || item == B_LF || item == B_TAB || item == B_SPACE {
            // Ignore these.
            proof {
                assert(before + seq![] =~= before);
            }
            StepOutcome::Advance(1)
        } else {
            let mut single: Vec<u8> = Vec::new();
            single.push(item);
            proof {
                assert(single@ =~= seq![item]);
            }
            match string_from_utf8(single) {
                Some(character) => {
                    let mut message = String::from_str("unexpected character in JSON (");
                    message.append(character.as_str());
                    message.append(")");
                    let ghost text = message@;
                    emit(tokens, Token::Error(message));
                    self.state = LexerStates::EarlyFinish;
                    proof {
                        assert(text =~= unexpected_character_message(item));
                        assert(before.push(TokenView::Error(text)) =~= before + seq![
                            TokenView::Error(unexpected_character_message(item)),
                        ]);
                    }
                    StepOutcome::Stop
                },
                None => {
                    self.finish_with_error(
                        tokens,
                        "unexpected character in JSON not a valid utf-8 encoded string",
                    )
                },
            }
        }
    }

    fn number_step(&mut self, chunk: &[u8], i: usize, tokens: &mut Vec<Token>) -> (r: StepOutcome)
        requires
            i < chunk@.len(),
        ensures
            outcome_matches(
                r,
                number_step(old(self)@, chunk@, i as int),
                final(self)@,
                view_tokens(old(tokens)@),
                view_tokens(final(tokens)@),
            ),
    {
        let item = chunk[i];
        let ghost before = view_tokens(tokens@);
        let len = self.current_token_accumulator.len();
        // A number cannot start with a leading 0, eg: 012 is invalid
        // only 0. is valid
        if len > 0 {
            let first = self.current_token_accumulator[0];
            if first == B_MINUS && item == B_MINUS {
                return self.finish_with_error(tokens, "a number cannot have multiple minus symbols");
            }
            if first == B_ZERO && item != B_DOT && !self.is_current_token_float && B_ZERO <= item
                && item <= B_NINE {
                return self.finish_with_error(tokens, "a number cannot have a leading 0");
            }
        }
        if item == B_DOT {
            if !self.is_current_token_float {
                self.is_current_token_float = true;
                self.current_token_accumulator.push(item);
                proof {
                    assert(before + seq![] =~= before);
                }
                return StepOutcome::Advance(1);
            } else {
                return self.finish_with_error(
                    tokens,
                    "a float number can only have a single decimal separator",
                );
            }
        }
        if self.is_current_token_float && len > 0 && self.current_token_accumulator[len - 1] == B_DOT
            && !(B_ZERO <= item && item <= B_NINE) {
            return self.finish_with_error(
                tokens,
                "a float number must have a digit after the decimal separator",
            );
        }
        if self.is_current_token_float {
            self.current_token_accumulator_kind = Some(AccumulableTokensKind::Float);
        } else {
            self.current_token_accumulator_kind = Some(AccumulableTokensKind::Integer);
        }
        // Finish number token if we found anything that is not a number or a dot or a minus
        if !(B_ZERO <= item && item <= B_NINE) && item != B_MINUS {
            let bytes = copy_bytes(&self.current_token_accumulator);
            match string_from_utf8(bytes) {
                Some(numeric_value) => {
                    let token = if self.is_current_token_float {
                        Token::Float(numeric_value)
                    } else {
                        Token::Integer(numeric_value)
                    };
                    let ghost tv = token@;
                    emit(tokens, token);
                    self.current_token_accumulator.clear();
                    self.is_current_token_float = false;
                    self.current_token_accumulator_kind = None;
                    self.state = LexerStates::LookingDelimiters;
                    // Intentionally do not advance, so that looking for delimiters
                    // analyses the current byte.
                    let ghost middle = view_tokens(tokens@);
                    let r = self.delimiter_step(chunk, i, tokens);
                    proof {
                        match delimiter_step(idle_model(), chunk@, i as int) {
                            LexStep::Advance(_, t, _) => {
                                assert(middle + t =~= before + (seq![tv] + t));
                            },
                            LexStep::Stop(_, t) => {
                                assert(middle + t =~= before + (seq![tv] + t));
                            },
                            LexStep::Panic => {},
                        }
                    }
                    r
                },
                None => self.finish_with_error(tokens, "numeric value is not utf-8 encoded"),
            }
        } else {
            self.current_token_accumulator.push(item);
            proof {
                assert(before + seq![] =~= before);
            }
            StepOutcome::Advance(1)
        }
    }

    fn text_step(&mut self, chunk: &[u8], i: usize, tokens: &mut Vec<Token>) -> (r: StepOutcome)
        requires
            i < chunk@.len(),
        ensures
            outcome_matches(
                r,
                text_step(old(self)@, chunk@, i as int),
                final(self)@,
                view_tokens(old(tokens)@),
                view_tokens(final(tokens)@),
            ),
    {
        let item = chunk[i];
        let ghost before = view_tokens(tokens@);
        let len = self.current_token_accumulator.len();
        if len >= TEXT_CAPACITY {
            // Stops reading bytes from current chunk as we found an error.
            return self.finish_with_error(tokens, "a text cannot be larger than 1KiB");
        }
        let prev_item: u8 = if len > 0 {
            self.current_token_accumulator[len - 1]
        } else {
            0
        };
        // Do not treat the quote as end of text if is preceded by a backslash.
        if prev_item != B_BACKSLASH && item == B_QUOTE {
            let bytes = copy_bytes(&self.current_token_accumulator);
            match string_from_utf8(bytes) {
                Some(text_content) => {
                    let r = self.emit_advance(tokens, Token::Text(text_content), 1);
                    self.current_token_accumulator.clear();
                    // Note we can have an empty string as key or value.
                    // End of string token, go back to main state.
                    self.state = LexerStates::LookingDelimiters;
                    r
                },
                None => self.finish_with_error(tokens, "the text is invalid utf8"),
            }
        } else {
            // Accumulate, bytes for the text
            self.current_token_accumulator.push(item);
            proof {
                assert(before + seq![] =~= before);
            }
            StepOutcome::Advance(1)
        }
    }

    fn lex_step(&mut self, chunk: &[u8], i: usize, tokens: &mut Vec<Token>) -> (r: StepOutcome)
        requires
            i < chunk@.len(),
        ensures
            outcome_matches(
                r,
                lex_step(old(self)@, chunk@, i as int),
                final(self)@,
                view_tokens(old(tokens)@),
                view_tokens(final(tokens)@),
            ),
    {
        match self.state {
            LexerStates::LookingDelimiters => {
                let item = chunk[i];
                if (B_ZERO <= item && item <= B_NINE) || item == B_MINUS {
                    self.state = LexerStates::LookingIntegerOrFloat;
                    self.number_step(chunk, i, tokens)
                } else {
                    self.delimiter_step(chunk, i, tokens)
                }
            },
            LexerStates::LookingText => self.text_step(chunk, i, tokens),
            LexerStates::LookingIntegerOrFloat => self.number_step(chunk, i, tokens),
            LexerStates::EarlyFinish => {
                proof {
                    assert(view_tokens(tokens@) + seq![] =~= view_tokens(tokens@));
                }
                StepOutcome::Advance(1)
            },
        }
    }

    /// Lexes the whole chunk; `false` where reading `true` or `false` would
    /// run past the chunk's end.
    fn lex_chunk(&mut self, chunk: &[u8], tokens: &mut Vec<Token>) -> (ok: bool)
        ensures
            match lex_from(old(self)@, chunk@, 0, view_tokens(old(tokens)@)) {
                Some((m, t)) => ok && final(self)@ == m && view_tokens(final(tokens)@) == t,
                None => !ok,
            },
    {
        let ghost start = self@;
        let ghost start_tokens = view_tokens(tokens@);
        let mut i: usize = 0;
        while i < chunk.len()
            invariant
                i <= chunk@.len(),
                start == old(self)@,
                start_tokens == view_tokens(old(tokens)@),
                lex_from(self@, chunk@, i as int, view_tokens(tokens@)) == lex_from(
                    start,
                    chunk@,
                    0,
                    start_tokens,
                ),
            decreases chunk@.len() - i,
        {
            let ghost here = self@;
            let ghost here_tokens = view_tokens(tokens@);
            proof {
                lemma_step_in_bounds(here, chunk@, i as int);
            }
            match self.lex_step(chunk, i, tokens) {
                StepOutcome::Advance(n) => {
                    i = i + n;
                },
                StepOutcome::Stop => {
                    assert(lex_from(here, chunk@, i as int, here_tokens) == Some((self@, view_tokens(tokens@))));
                    return true;
                },
                StepOutcome::Panic => {
                    return false;
                },
            }
        }
        true
    }

    fn end_of_input(&mut self, tokens: &mut Vec<Token>)
        ensures
            final(self)@ == finished(old(self)@),
            view_tokens(final(tokens)@) == view_tokens(old(tokens)@) + end_of_input_tokens(old(self)@),
    {
        let ghost before = view_tokens(tokens@);
        // If reached end of input, check if there are accumulated tokens to push.
        if let Some(kind) = self.current_token_accumulator_kind {
            let len = self.current_token_accumulator.len();
            if len > 0 {
                if self.is_current_token_float && self.current_token_accumulator[len - 1] == B_DOT {
                    self.finish_with_error(
                        tokens,
                        "a float number must have a digit after the decimal separator",
                    );
                    return ;
                }
                let bytes = copy_bytes(&self.current_token_accumulator);
                if let Some(value) = string_from_utf8(bytes) {
                    emit(tokens, token_of_kind(kind, value));
                }
            }
        }
        let ghost middle = view_tokens(tokens@);
        emit(tokens, Token::EndOfFile);
        // Finish the lexer on end of input.
        self.state = LexerStates::EarlyFinish;
        proof {
            assert(view_tokens(tokens@) =~= before + end_of_input_tokens(old(self)@));
        }
    }

    /// Whether `next_batch` can take `chunk`: `false` exactly where reading
    /// `true` or `false` would run past the chunk's end.
    pub fn chunk_is_lexable(&self, chunk: &[u8]) -> (lexable: bool)
        ensures
            lexable == !batch_overruns(self@, chunk@),
    {
        if self.state == LexerStates::EarlyFinish || chunk.len() == 0 {
            return true;
        }
        let mut probe = self.duplicate();
        let mut scratch: Vec<Token> = Vec::new();
        proof {
            assert(view_tokens(scratch@) =~= Seq::<TokenView>::empty());
        }
        probe.lex_chunk(chunk, &mut scratch)
    }

    /// Feeds one chunk of input to the lexer and returns the batch of tokens
    /// it emits; an empty chunk marks the end of the input. `None` once the
    /// lexer has finished, after an error or after the end of the input.
    pub fn next_batch(&mut self, chunk: &[u8]) -> (batch: Option<Vec<Token>>)
        requires
            !batch_overruns(old(self)@, chunk@),
        ensures
            final(self)@ == next_batch_spec(old(self)@, chunk@).0,
            batch_view(batch) == next_batch_spec(old(self)@, chunk@).1,
    {
        if self.state == LexerStates::EarlyFinish {
            return None;
        }
        let mut tokens_batch: Vec<Token> = Vec::new();
        proof {
            assert(view_tokens(tokens_batch@) =~= Seq::<TokenView>::empty());
        }
        if chunk.len() == 0 {
            self.end_of_input(&mut tokens_batch);
            proof {
                assert(Seq::<TokenView>::empty() + end_of_input_tokens(old(self)@) =~= end_of_input_tokens(old(self)@));
            }
            return Some(tokens_batch);
        }
        self.lex_chunk(chunk, &mut tokens_batch);
        Some(tokens_batch)
    }
}

} // verus!
