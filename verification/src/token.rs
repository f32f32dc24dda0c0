//! Lexical tokenizer: a single-pass state machine that reduces a character
//! stream to markup tokens (start tag, end tag, character, end of input).
//!
//! The machine is specified twice: `lex_step` is the mathematical
//! transition function over [`LexerModel`], and [`HtmlTokenizer::next`] is
//! the executable scanner, proved to follow `lex_step` exactly. The whole
//! token stream of an input is `lex_tokens`.

use vstd::prelude::*;

use crate::attribute::Attribute;
use crate::attribute::AttributeModel;
use crate::chars::is_ascii_alpha;
use crate::chars::is_ascii_alphabetic_char;
use crate::chars::is_ascii_uppercase_char;
use crate::chars::lower_char;
use crate::chars::to_lowercase_char;
use crate::chars::push_char;
use crate::chars::chars_of;
use vstd::string::StrSliceExecFns;
use vstd::string::StringExecFns;

verus! {

/// Lexer states, after the markup standard's tokenization states.
#[derive(Debug, Clone, Copy, PartialEq, Eq, Structural)]
pub enum State {
    Data,
    TagOpen,
    EndTagOpen,
    TagName,
    BeforeAttributeName,
    AttributeName,
    AfterAttributeName,
    BeforeAttributeValue,
    AttributeValueDoubleQuoted,
    AttributeValueSingleQuoted,
    AttributeValueUnquoted,
    AfterAttributeValueQuoted,
    SelfClosingStartTag,
    ScriptData,
    ScriptDataLessThanSign,
    ScriptDataEndTagOpen,
    ScriptDataEndTagName,
    TemporaryBuffer,
}

/// Mathematical content of an [`HtmlToken`].
pub enum TokenModel {
    StartTag { tag: Seq<char>, self_closing: bool, attributes: Seq<AttributeModel> },
    EndTag { tag: Seq<char> },
    Char(char),
    Eof,
}

#[derive(Debug, Clone, PartialEq, Eq)]
pub enum HtmlToken {
    StartTag { tag: String, self_closing: bool, attributes: Vec<Attribute> },
    EndTag { tag: String },
    Char(char),
    Eof,
}

/// The attribute list of a start tag, as a sequence of models.
pub open spec fn attrs_view(attributes: Seq<Attribute>) -> Seq<AttributeModel> {
    attributes.map_values(|a: Attribute| a@)
}

impl View for HtmlToken {
    type V = TokenModel;

    open spec fn view(&self) -> TokenModel {
        match self {
            HtmlToken::StartTag { tag, self_closing, attributes } => TokenModel::StartTag {
                tag: tag@,
                self_closing: *self_closing,
                attributes: attrs_view(attributes@),
            },
            HtmlToken::EndTag { tag } => TokenModel::EndTag { tag: tag@ },
            HtmlToken::Char(c) => TokenModel::Char(*c),
            HtmlToken::Eof => TokenModel::Eof,
        }
    }
}

pub open spec fn opt_tok_view(r: Option<HtmlToken>) -> Option<TokenModel> {
    match r {
        Some(t) => Some(t@),
        None => None,
    }
}

/// The character token for one code point.
pub open spec fn char_token(c: char) -> TokenModel {
    TokenModel::Char(c)
}

/// Mathematical state of the tokenizer.
pub ghost struct LexerModel {
    pub state: State,
    pub pos: int,
    pub reconsume: bool,
    pub latest: Option<TokenModel>,
    pub input: Seq<char>,
    pub buf: Seq<char>,
}

/// Outcome of one transition: keep scanning, or hand a token out.
pub ghost enum LexStep {
    Cont(LexerModel),
    Emit(LexerModel, TokenModel),
}

/// A fresh tag token under construction.
pub open spec fn tok_create(start_tag_token: bool) -> TokenModel {
    if start_tag_token {
        TokenModel::StartTag {
            tag: Seq::<char>::empty(),
            self_closing: false,
            attributes: Seq::<AttributeModel>::empty(),
        }
    } else {
        TokenModel::EndTag { tag: Seq::<char>::empty() }
    }
}

/// One character appended verbatim to the tag name under construction;
/// the scanner folds case before appending (tag names are case-folded on
/// ingestion). Anything but a tag token is left alone.
pub open spec fn tok_append_tag(t: Option<TokenModel>, c: char) -> Option<TokenModel> {
    match t {
        Some(TokenModel::StartTag { tag, self_closing, attributes }) => Some(
            TokenModel::StartTag { tag: tag.push(c), self_closing, attributes },
        ),
        Some(TokenModel::EndTag { tag }) => Some(TokenModel::EndTag { tag: tag.push(c) }),
        _ => t,
    }
}

/// A fresh empty attribute opened on the start tag under construction;
/// anything else is left alone.
pub open spec fn tok_new_attr(t: Option<TokenModel>) -> Option<TokenModel> {
    match t {
        Some(TokenModel::StartTag { tag, self_closing, attributes }) => Some(
            TokenModel::StartTag {
                tag,
                self_closing,
                attributes: attributes.push(
                    AttributeModel { name: Seq::<char>::empty(), value: Seq::<char>::empty() },
                ),
            },
        ),
        _ => t,
    }
}

/// One character appended to the newest attribute of the start tag under
/// construction: to its name (lower-cased) or to its value. A tag without
/// an open attribute, and anything but a start tag, is left alone.
pub open spec fn tok_append_attr(t: Option<TokenModel>, c: char, is_name: bool) -> Option<
    TokenModel,
> {
    match t {
        Some(TokenModel::StartTag { tag, self_closing, attributes }) => {
            if attributes.len() == 0 {
                t
            } else {
                let last = attributes.len() - 1;
                let a = attributes[last];
                let a2 = if is_name {
                    AttributeModel { name: a.name.push(lower_char(c)), value: a.value }
                } else {
                    AttributeModel { name: a.name, value: a.value.push(c) }
                };
                Some(
                    TokenModel::StartTag {
                        tag,
                        self_closing,
                        attributes: attributes.update(last, a2),
                    },
                )
            }
        },
        _ => t,
    }
}

/// The self-closing flag raised on the start tag under construction;
/// anything else is left alone.
pub open spec fn tok_self_closing(t: Option<TokenModel>) -> Option<TokenModel> {
    match t {
        Some(TokenModel::StartTag { tag, self_closing, attributes }) => Some(
            TokenModel::StartTag { tag, self_closing: true, attributes },
        ),
        _ => t,
    }
}

/// The token under construction, handed out; when none is under
/// construction the stream degenerates to its end marker.
pub open spec fn tok_taken(t: Option<TokenModel>) -> TokenModel {
    match t {
        Some(tok) => tok,
        None => TokenModel::Eof,
    }
}

/// Whether a scanner call has nothing left to do: the cursor is past the
/// input and no temporary-buffer drain is pending.
pub open spec fn lex_exhausted(m: LexerModel) -> bool {
    m.pos >= m.input.len() && !(m.state is TemporaryBuffer && m.buf.len() > 0)
}

/// The character the next transition reads: the one under the cursor, or
/// the one before it when it is to be reconsumed.
pub open spec fn cur_char(m: LexerModel) -> char {
    if m.reconsume {
        m.input[m.pos - 1]
    } else {
        m.input[m.pos]
    }
}

/// Rank used by the termination measure: a reconsume chain only ever moves
/// to a state of smaller rank under the same character.
pub open spec fn state_rank(s: State, c: char) -> int {
    match s {
        State::TagOpen => 4,
        State::EndTagOpen => 4,
        State::BeforeAttributeName => 4,
        State::AfterAttributeValueQuoted => 4,
        State::ScriptDataEndTagOpen => 4,
        State::ScriptDataLessThanSign => 4,
        State::AttributeName => if c == ' ' || c == '/' || c == '>' {
            3
        } else {
            1
        },
        State::BeforeAttributeValue => 3,
        State::AfterAttributeName => 2,
        State::TemporaryBuffer => 1,
        _ => 0,
    }
}

/// Termination measure of the scanner: every transition strictly shrinks
/// it (consuming dominates; a reconsume is spent or moves down in rank; the
/// temporary buffer drains).
pub open spec fn lex_fuel(m: LexerModel) -> int {
    let remaining: int = if m.input.len() >= m.pos {
        m.input.len() - m.pos
    } else {
        0
    };
    16 * remaining + 8 * (if m.reconsume {
        1int
    } else {
        0int
    }) + state_rank(m.state, cur_char(m)) + m.buf.len()
}

/// One transition of the tokenizer: read a character (or reconsume the
/// previous one), then branch on the current state.
pub open spec fn lex_step(m: LexerModel) -> LexStep {
    if m.state is TemporaryBuffer {
        // The drain reads no input character, so buffered text is replayed
        // in full even when the input has already ended.
        if m.buf.len() == 0 {
            LexStep::Cont(LexerModel { state: State::ScriptData, ..m })
        } else {
            LexStep::Emit(
                LexerModel { buf: m.buf.drop_first(), ..m },
                TokenModel::Char(m.buf[0]),
            )
        }
    } else if !m.reconsume && m.pos >= m.input.len() {
        // End of input reached while still scanning: the end-of-input
        // token is forced out.
        LexStep::Emit(m, TokenModel::Eof)
    } else {
        let c = cur_char(m);
        let b = LexerModel {
            pos: if m.reconsume {
                m.pos
            } else {
                m.pos + 1
            },
            reconsume: false,
            ..m
        };
        match m.state {
            State::Data => {
                if c == '<' {
                    LexStep::Cont(LexerModel { state: State::TagOpen, ..b })
                } else {
                    LexStep::Emit(b, TokenModel::Char(c))
                }
            },
            State::TagOpen => {
                if c == '/' {
                    LexStep::Cont(LexerModel { state: State::EndTagOpen, ..b })
                } else if is_ascii_alpha(c) {
                    LexStep::Cont(
                        LexerModel {
                            state: State::TagName,
                            reconsume: true,
                            latest: Some(tok_create(true)),
                            ..b
                        },
                    )
                } else {
                    LexStep::Cont(LexerModel { state: State::Data, reconsume: true, ..b })
                }
            },
            State::EndTagOpen => {
                if is_ascii_alpha(c) {
                    LexStep::Cont(
                        LexerModel {
                            state: State::TagName,
                            reconsume: true,
                            latest: Some(tok_create(false)),
                            ..b
                        },
                    )
                } else {
                    LexStep::Cont(b)
                }
            },
            State::TagName => {
                if c == ' ' {
                    LexStep::Cont(LexerModel { state: State::BeforeAttributeName, ..b })
                } else if c == '/' {
                    LexStep::Cont(LexerModel { state: State::SelfClosingStartTag, ..b })
                } else if c == '>' {
                    LexStep::Emit(
                        LexerModel { state: State::Data, latest: None, ..b },
                        tok_taken(m.latest),
                    )
                } else {
                    LexStep::Cont(LexerModel { latest: tok_append_tag(m.latest, lower_char(c)), ..b })
                }
            },
            State::BeforeAttributeName => {
                if c == '/' || c == '>' {
                    LexStep::Cont(
                        LexerModel { state: State::AfterAttributeName, reconsume: true, ..b },
                    )
                } else {
                    LexStep::Cont(
                        LexerModel {
                            state: State::AttributeName,
                            reconsume: true,
                            latest: tok_new_attr(m.latest),
                            ..b
                        },
                    )
                }
            },
            State::AttributeName => {
                if c == ' ' || c == '/' || c == '>' {
                    LexStep::Cont(
                        LexerModel { state: State::AfterAttributeName, reconsume: true, ..b },
                    )
                } else if c == '=' {
                    LexStep::Cont(LexerModel { state: State::BeforeAttributeValue, ..b })
                } else {
                    LexStep::Cont(LexerModel { latest: tok_append_attr(m.latest, c, true), ..b })
                }
            },
            State::AfterAttributeName => {
                if c == ' ' {
                    LexStep::Cont(b)
                } else if c == '/' {
                    LexStep::Cont(LexerModel { state: State::SelfClosingStartTag, ..b })
                } else if c == '=' {
                    LexStep::Cont(LexerModel { state: State::BeforeAttributeValue, ..b })
                } else if c == '>' {
                    LexStep::Emit(
                        LexerModel { state: State::Data, latest: None, ..b },
                        tok_taken(m.latest),
                    )
                } else {
                    LexStep::Cont(
                        LexerModel {
                            state: State::AttributeName,
                            reconsume: true,
                            latest: tok_new_attr(m.latest),
                            ..b
                        },
                    )
                }
            },
            State::BeforeAttributeValue => {
                if c == ' ' {
                    LexStep::Cont(b)
                } else if c == '"' {
                    LexStep::Cont(LexerModel { state: State::AttributeValueDoubleQuoted, ..b })
                } else if c == '\'' {
                    LexStep::Cont(LexerModel { state: State::AttributeValueSingleQuoted, ..b })
                } else {
                    LexStep::Cont(
                        LexerModel { state: State::AttributeValueUnquoted, reconsume: true, ..b },
                    )
                }
            },
            State::AttributeValueDoubleQuoted => {
                if c == '"' {
                    LexStep::Cont(LexerModel { state: State::AfterAttributeValueQuoted, ..b })
                } else {
                    LexStep::Cont(LexerModel { latest: tok_append_attr(m.latest, c, false), ..b })
                }
            },
            State::AttributeValueSingleQuoted => {
                if c == '\'' {
                    LexStep::Cont(LexerModel { state: State::AfterAttributeValueQuoted, ..b })
                } else {
                    LexStep::Cont(LexerModel { latest: tok_append_attr(m.latest, c, false), ..b })
                }
            },
            State::AttributeValueUnquoted => {
                if c == ' ' {
                    LexStep::Cont(LexerModel { state: State::BeforeAttributeName, ..b })
                } else if c == '>' {
                    LexStep::Emit(
                        LexerModel { state: State::Data, latest: None, ..b },
                        tok_taken(m.latest),
                    )
                } else {
                    LexStep::Cont(LexerModel { latest: tok_append_attr(m.latest, c, false), ..b })
                }
            },
            State::AfterAttributeValueQuoted => {
                if c == ' ' {
                    LexStep::Cont(LexerModel { state: State::BeforeAttributeName, ..b })
                } else if c == '/' {
                    LexStep::Cont(LexerModel { state: State::SelfClosingStartTag, ..b })
                } else if c == '>' {
                    LexStep::Emit(
                        LexerModel { state: State::Data, latest: None, ..b },
                        tok_taken(m.latest),
                    )
                } else {
                    LexStep::Cont(
                        LexerModel { state: State::BeforeAttributeValue, reconsume: true, ..b },
                    )
                }
            },
            State::SelfClosingStartTag => {
                if c == '>' {
                    LexStep::Emit(
                        LexerModel { state: State::Data, latest: None, ..b },
                        tok_taken(tok_self_closing(m.latest)),
                    )
                } else {
                    LexStep::Cont(b)
                }
            },
            State::ScriptData => {
                if c == '<' {
                    LexStep::Cont(LexerModel { state: State::ScriptDataLessThanSign, ..b })
                } else {
                    LexStep::Emit(b, TokenModel::Char(c))
                }
            },
            State::ScriptDataLessThanSign => {
                if c == '/' {
                    LexStep::Cont(
                        LexerModel {
                            state: State::ScriptDataEndTagOpen,
                            buf: Seq::<char>::empty(),
                            ..b
                        },
                    )
                } else {
                    LexStep::Emit(
                        LexerModel { state: State::ScriptData, reconsume: true, ..b },
                        TokenModel::Char('<'),
                    )
                }
            },
            State::ScriptDataEndTagOpen => {
                if is_ascii_alpha(c) {
                    LexStep::Cont(
                        LexerModel {
                            state: State::ScriptDataEndTagName,
                            reconsume: true,
                            latest: Some(tok_create(false)),
                            ..b
                        },
                    )
                } else {
                    LexStep::Emit(
                        LexerModel { state: State::ScriptData, reconsume: true, ..b },
                        TokenModel::Char('<'),
                    )
                }
            },
            State::ScriptDataEndTagName => {
                if c == '>' {
                    LexStep::Emit(
                        LexerModel { state: State::Data, latest: None, ..b },
                        tok_taken(m.latest),
                    )
                } else if is_ascii_alpha(c) {
                    LexStep::Cont(
                        LexerModel {
                            buf: m.buf.push(c),
                            latest: tok_append_tag(m.latest, lower_char(c)),
                            ..b
                        },
                    )
                } else {
                    LexStep::Cont(
                        LexerModel {
                            state: State::TemporaryBuffer,
                            buf: seq!['<', '/'] + m.buf + seq![c],
                            ..b
                        },
                    )
                }
            },
            State::TemporaryBuffer => {
                // unreachable: the drain is handled before any character
                // is read
                LexStep::Cont(b)
            },
        }
    }
}

/// Every transition burns fuel, except the forced end-of-input emission.
pub proof fn lemma_step_fuel(m: LexerModel)
    ensures
        match lex_step(m) {
            LexStep::Cont(m2) => lex_fuel(m2) < lex_fuel(m),
            LexStep::Emit(m2, t) => (!(m.state is TemporaryBuffer) && !m.reconsume && m.pos
                >= m.input.len() && m2 == m && t == TokenModel::Eof) || lex_fuel(m2) < lex_fuel(m),
        },
{
    if !m.reconsume && m.pos >= m.input.len() {
    } else {
        match m.state {
            State::Data => {},
            State::TagOpen => {},
            State::EndTagOpen => {},
            State::TagName => {},
            State::BeforeAttributeName => {},
            State::AttributeName => {},
            State::AfterAttributeName => {},
            State::BeforeAttributeValue => {},
            State::AttributeValueDoubleQuoted => {},
            State::AttributeValueSingleQuoted => {},
            State::AttributeValueUnquoted => {},
            State::AfterAttributeValueQuoted => {},
            State::SelfClosingStartTag => {},
            State::ScriptData => {},
            State::ScriptDataLessThanSign => {},
            State::ScriptDataEndTagOpen => {},
            State::ScriptDataEndTagName => {},
            State::TemporaryBuffer => {},
        }
    }
}

/// Transitions taken until a token is handed out, as one next-token move.
pub open spec fn lex_loop(m: LexerModel) -> (LexerModel, TokenModel)
    decreases lex_fuel(m)
        via lex_loop_decreases
{
    match lex_step(m) {
        LexStep::Emit(m2, t) => (m2, t),
        LexStep::Cont(m2) => lex_loop(m2),
    }
}

#[via_fn]
proof fn lex_loop_decreases(m: LexerModel) {
    lemma_step_fuel(m);
}

/// One call of the scanner: nothing once the cursor is past the input,
/// otherwise the next token.
pub open spec fn lex_next(m: LexerModel) -> (LexerModel, Option<TokenModel>) {
    if lex_exhausted(m) {
        (m, None)
    } else {
        let r = lex_loop(m);
        (r.0, Some(r.1))
    }
}

/// The whole remaining token stream from a scanner state. With `boundary`
/// the cursor position is checked first, as each scanner call does; the
/// stream always closes with exactly one end-of-input token.
pub open spec fn lex_tokens(m: LexerModel, boundary: bool) -> Seq<TokenModel>
    decreases lex_fuel(m), (if boundary {
        1int
    } else {
        0int
    })
        via lex_tokens_decreases
{
    if boundary {
        if lex_exhausted(m) {
            seq![TokenModel::Eof]
        } else {
            lex_tokens(m, false)
        }
    } else {
        match lex_step(m) {
            LexStep::Cont(m2) => lex_tokens(m2, false),
            LexStep::Emit(m2, t) => {
                if t == TokenModel::Eof {
                    seq![TokenModel::Eof]
                } else {
                    seq![t] + lex_tokens(m2, true)
                }
            },
        }
    }
}

#[via_fn]
proof fn lex_tokens_decreases(m: LexerModel, boundary: bool) {
    if !boundary {
        lemma_step_fuel(m);
    }
}

/// The stream of one next-token move is that token followed by the rest.
proof fn lemma_lex_tokens_unfold(m: LexerModel)
    ensures
        lex_tokens(m, false) == ({
            let (m2, t) = lex_loop(m);
            if t == TokenModel::Eof {
                seq![TokenModel::Eof]
            } else {
                seq![t] + lex_tokens(m2, true)
            }
        }),
    decreases lex_fuel(m),
{
    lemma_step_fuel(m);
    match lex_step(m) {
        LexStep::Emit(m2, t) => {},
        LexStep::Cont(m2) => {
            lemma_lex_tokens_unfold(m2);
        },
    }
}

/// The scanner state on a fresh input.
pub open spec fn lex_init(input: Seq<char>) -> LexerModel {
    LexerModel {
        state: State::Data,
        pos: 0,
        reconsume: false,
        latest: None,
        input,
        buf: Seq::<char>::empty(),
    }
}

/// In plain data with no `<` ahead, the stream is one character token per
/// remaining code point, then the end-of-input token.
#[verifier::rlimit(100)]
#[verifier::spinoff_prover]
proof fn lemma_plain_data_stream(m: LexerModel)
    requires
        m.state == State::Data,
        !m.reconsume,
        0 <= m.pos <= m.input.len(),
        forall|k: int| m.pos <= k < m.input.len() ==> m.input[k] != '<',
    ensures
        lex_tokens(m, true) == m.input.subrange(m.pos, m.input.len() as int).map_values(
            |c: char| char_token(c),
        ).push(TokenModel::Eof),
    decreases m.input.len() - m.pos,
{
    let rest = m.input.subrange(m.pos, m.input.len() as int).map_values(
        |c: char| char_token(c),
    ).push(TokenModel::Eof);
    if m.pos >= m.input.len() {
        assert(lex_tokens(m, true) == seq![TokenModel::Eof]);
        assert(m.input.subrange(m.pos, m.input.len() as int) =~= Seq::<char>::empty());
        assert(rest.len() == 1);
        assert(rest[0] == TokenModel::Eof);
        assert(rest =~= seq![TokenModel::Eof]);
    } else {
        let c = m.input[m.pos];
        let m2 = LexerModel { pos: m.pos + 1, ..m };
        assert(lex_step(m) == LexStep::Emit(m2, TokenModel::Char(c)));
        assert(lex_tokens(m, true) == lex_tokens(m, false));
        assert(lex_tokens(m, false) == seq![TokenModel::Char(c)] + lex_tokens(m2, true));
        lemma_plain_data_stream(m2);
        let tail = m2.input.subrange(m2.pos, m2.input.len() as int).map_values(
            |ch: char| char_token(ch),
        ).push(TokenModel::Eof);
        assert(lex_tokens(m2, true) == tail);
        assert(rest =~= seq![TokenModel::Char(c)] + tail);
    }
}

/// The lexical tokenizer: cursor, state, reconsume flag, the token under
/// construction, and the lookahead buffer for script end tags.
#[derive(Debug)]
pub struct HtmlTokenizer {
    pub state: State,
    pub pos: usize,
    pub reconsume: bool,
    pub latest_token: Option<HtmlToken>,
    pub input: Vec<char>,
    pub buf: String,
}

impl View for HtmlTokenizer {
    type V = LexerModel;

    open spec fn view(&self) -> LexerModel {
        LexerModel {
            state: self.state,
            pos: self.pos as int,
            reconsume: self.reconsume,
            latest: opt_tok_view(self.latest_token),
            input: self.input@,
            buf: self.buf@,
        }
    }
}

impl HtmlTokenizer {
    pub open spec fn wf(&self) -> bool {
        &&& self.pos <= self.input@.len()
        &&& (self.reconsume ==> self.pos >= 1)
    }

    /// A tokenizer over the given markup text, at the start of the input.
    pub fn new(html: String) -> (t: HtmlTokenizer)
        ensures
            t.wf(),
            t@ == lex_init(html@),
    {
        HtmlTokenizer {
            state: State::Data,
            pos: 0,
            reconsume: false,
            latest_token: None,
            input: chars_of(html.as_str()),
            buf: String::new(),
        }
    }

    /// Whether the cursor has moved past the end of the input.
    pub fn is_eof(&self) -> (r: bool)
        ensures
            r == (self@.pos > self@.input.len()),
    {
        self.pos > self.input.len()
    }

    /// Reads the character under the cursor and advances.
    pub fn consume_next_input(&mut self) -> (c: char)
        requires
            old(self).wf(),
            old(self)@.pos < old(self)@.input.len(),
        ensures
            final(self).wf(),
            c == old(self)@.input[old(self)@.pos],
            final(self)@ == (LexerModel { pos: old(self)@.pos + 1, ..old(self)@ }),
    {
        let c = self.input[self.pos];
        let n = self.input.len();
        self.pos = self.pos + 1;
        c
    }

    /// Re-reads the character before the cursor, clearing the reconsume
    /// flag.
    pub fn reconsume_input(&mut self) -> (c: char)
        requires
            old(self).wf(),
            old(self)@.reconsume,
        ensures
            final(self).wf(),
            c == old(self)@.input[old(self)@.pos - 1],
            final(self)@ == (LexerModel { reconsume: false, ..old(self)@ }),
    {
        self.reconsume = false;
        self.input[self.pos - 1]
    }

    /// Opens a fresh start-tag or end-tag token.
    pub fn create_tag(&mut self, start_tag_token: bool)
        ensures
            final(self)@ == (LexerModel { latest: Some(tok_create(start_tag_token)), ..old(self)@ }),
            final(self).wf() == old(self).wf(),
    {
        if start_tag_token {
            self.latest_token = Some(
                HtmlToken::StartTag { tag: String::new(), self_closing: false, attributes: Vec::new() },
            );
        } else {
            self.latest_token = Some(HtmlToken::EndTag { tag: String::new() });
        }
        proof {
            assert(attrs_view(Seq::<Attribute>::empty()) =~= Seq::<AttributeModel>::empty());
        }
    }

    /// Appends one character verbatim to the tag name under construction;
    /// callers fold case first. Asking with no tag token under
    /// construction is a transition-table bug, excluded by the
    /// precondition.
    pub fn append_tag_name(&mut self, c: char)
        requires
            old(self)@.latest matches Some(t) && (t is StartTag || t is EndTag),
        ensures
            final(self)@ == (LexerModel { latest: tok_append_tag(old(self)@.latest, c), ..old(self)@ }),
            final(self).wf() == old(self).wf(),
    {
        match &mut self.latest_token {
            Some(HtmlToken::StartTag { tag, .. }) => {
                push_char(tag, c);
            },
            Some(HtmlToken::EndTag { tag }) => {
                push_char(tag, c);
            },
            _ => {
                proof {
                    assert(false);
                }
            },
        }
    }

    /// Hands out the token under construction, leaving none. Asking with
    /// none under construction is a transition-table bug, excluded by the
    /// precondition.
    pub fn take_latest_token(&mut self) -> (t: Option<HtmlToken>)
        requires
            old(self)@.latest is Some,
        ensures
            opt_tok_view(t) == old(self)@.latest,
            t is Some,
            final(self)@ == (LexerModel { latest: None, ..old(self)@ }),
            final(self).wf() == old(self).wf(),
    {
        self.latest_token.take()
    }

    /// Opens a fresh empty attribute on the start tag under construction.
    /// Asking on anything but a start tag is a transition-table bug,
    /// excluded by the precondition.
    pub fn start_new_attribute(&mut self)
        requires
            old(self)@.latest matches Some(t) && t is StartTag,
        ensures
            final(self)@ == (LexerModel { latest: tok_new_attr(old(self)@.latest), ..old(self)@ }),
            final(self).wf() == old(self).wf(),
    {
        match &mut self.latest_token {
            Some(HtmlToken::StartTag { attributes, .. }) => {
                let ghost before = attributes@;
                attributes.push(Attribute::new());
                proof {
                    assert(attrs_view(attributes@) =~= attrs_view(before).push(
                        AttributeModel { name: Seq::<char>::empty(), value: Seq::<char>::empty() },
                    ));
                }
            },
            _ => {
                proof {
                    assert(false);
                }
            },
        }
    }

    /// Appends one character to the newest attribute of the start tag
    /// under construction. A name character is lower-cased by the
    /// attribute builder itself (names fold on append); callers fold case
    /// first as well, which changes nothing. Asking without a start tag
    /// holding an open attribute is a transition-table bug, excluded by
    /// the precondition.
    pub fn append_attribute(&mut self, c: char, is_name: bool)
        requires
            old(self)@.latest matches Some(TokenModel::StartTag { attributes, .. })
                && attributes.len() > 0,
        ensures
            final(self)@ == (LexerModel {
                latest: tok_append_attr(old(self)@.latest, c, is_name),
                ..old(self)@
            }),
            final(self).wf() == old(self).wf(),
    {
        match &mut self.latest_token {
            Some(HtmlToken::StartTag { attributes, .. }) => {
                let len = attributes.len();
                proof {
                    assert(len > 0);
                }
                let ghost before = attributes@;
                attributes[len - 1].add_char(c, is_name);
                proof {
                    let last = before.len() - 1;
                    let a = before[last]@;
                    let a2 = if is_name {
                        AttributeModel { name: a.name.push(lower_char(c)), value: a.value }
                    } else {
                        AttributeModel { name: a.name, value: a.value.push(c) }
                    };
                    assert(attrs_view(attributes@) =~= attrs_view(before).update(last, a2));
                }
            },
            _ => {
                proof {
                    assert(false);
                }
            },
        }
    }

    /// Raises the self-closing flag on the start tag under construction.
    /// Asking on anything but a start tag is a transition-table bug,
    /// excluded by the precondition.
    pub fn set_self_closing_flag(&mut self)
        requires
            old(self)@.latest matches Some(t) && t is StartTag,
        ensures
            final(self)@ == (LexerModel {
                latest: tok_self_closing(old(self)@.latest),
                ..old(self)@
            }),
            final(self).wf() == old(self).wf(),
    {
        match &mut self.latest_token {
            Some(HtmlToken::StartTag { self_closing, .. }) => {
                *self_closing = true;
            },
            _ => {
                proof {
                    assert(false);
                }
            },
        }
    }

    /// Hands out the pending token at a tag close; with none pending the
    /// stream degenerates to its end marker.
    fn emit_pending(&mut self) -> (r: HtmlToken)
        ensures
            r@ == tok_taken(old(self)@.latest),
            final(self)@ == (LexerModel { latest: None, ..old(self)@ }),
            final(self).wf() == old(self).wf(),
    {
        if self.latest_token.is_some() {
            let t = self.take_latest_token();
            match t {
                Some(tok) => tok,
                None => {
                    proof {
                        assert(false);
                    }
                    HtmlToken::Eof
                },
            }
        } else {
            HtmlToken::Eof
        }
    }

    /// The next token of the stream, or nothing once the scanner is done:
    /// the cursor past the input with no buffered replay pending. Follows
    /// the transition function `lex_step` exactly.
    pub fn next(&mut self) -> (r: Option<HtmlToken>)
        requires
            old(self).wf(),
        ensures
            final(self).wf(),
            (final(self)@, opt_tok_view(r)) == lex_next(old(self)@),
    {
        let pending_drain = match self.state {
            State::TemporaryBuffer => self.buf.as_str().unicode_len() > 0,
            _ => false,
        };
        if !pending_drain && self.pos >= self.input.len() {
            return None;
        }
        let ghost m1 = self@;
        loop
            invariant
                self.wf(),
                lex_loop(self@) == lex_loop(m1),
                m1 == old(self)@,
                !lex_exhausted(m1),
            decreases lex_fuel(self@),
        {
            proof {
                lemma_step_fuel(self@);
            }
            let ghost pre = self@;
            let in_drain = match self.state {
                State::TemporaryBuffer => true,
                _ => false,
            };
            if in_drain {
                // The drain reads no input character: buffered text is
                // replayed in full even at end of input.
                if self.buf.as_str().unicode_len() == 0 {
                    self.state = State::ScriptData;
                    proof {
                        assert(lex_step(pre) == LexStep::Cont(self@));
                    }
                    continue ;
                }
                let first = self.buf.as_str().get_char(0);
                let rest = String::from_str(
                    self.buf.as_str().substring_char(1, self.buf.as_str().unicode_len()),
                );
                self.buf = rest;
                proof {
                    assert(self@.buf =~= pre.buf.drop_first());
                    assert(lex_step(pre) == LexStep::Emit(self@, TokenModel::Char(pre.buf[0])));
                }
                return Some(HtmlToken::Char(first));
            }
            if !self.reconsume && self.pos >= self.input.len() {
                proof {
                    assert(lex_step(self@) == LexStep::Emit(self@, TokenModel::Eof));
                    assert(lex_loop(m1) == (self@, TokenModel::Eof));
                }
                return Some(HtmlToken::Eof);
            }
            let c = if self.reconsume {
                self.reconsume_input()
            } else {
                self.consume_next_input()
            };
            proof {
                assert(c == cur_char(pre));
                assert(self@ == (LexerModel {
                    pos: if pre.reconsume {
                        pre.pos
                    } else {
                        pre.pos + 1
                    },
                    reconsume: false,
                    ..pre
                }));
            }
            match self.state {
                State::Data => {
                    if c == '<' {
                        self.state = State::TagOpen;
                    } else {
                        proof {
                            assert(lex_step(pre) == LexStep::Emit(self@, TokenModel::Char(c)));
                        }
                        return Some(HtmlToken::Char(c));
                    }
                },
                State::TagOpen => {
                    if c == '/' {
                        self.state = State::EndTagOpen;
                    } else if is_ascii_alphabetic_char(c) {
                        self.reconsume = true;
                        self.state = State::TagName;
                        self.create_tag(true);
                    } else {
                        self.reconsume = true;
                        self.state = State::Data;
                    }
                },
                State::EndTagOpen => {
                    if is_ascii_alphabetic_char(c) {
                        self.reconsume = true;
                        self.state = State::TagName;
                        self.create_tag(false);
                    }
                },
                State::TagName => {
                    if c == ' ' {
                        self.state = State::BeforeAttributeName;
                    } else if c == '/' {
                        self.state = State::SelfClosingStartTag;
                    } else if c == '>' {
                        self.state = State::Data;
                        let tok = self.emit_pending();
                        proof {
                            assert(lex_step(pre) == LexStep::Emit(self@, tok_taken(pre.latest)));
                        }
                        return Some(tok);
                    } else {
                        if matches!(&self.latest_token, Some(HtmlToken::StartTag { .. }) | Some(
                            HtmlToken::EndTag { .. },
                        )) {
                            if is_ascii_uppercase_char(c) {
                                self.append_tag_name(to_lowercase_char(c));
                            } else {
                                self.append_tag_name(c);
                            }
                        }
                    }
                },
                State::BeforeAttributeName => {
                    if c == '/' || c == '>' {
                        self.reconsume = true;
                        self.state = State::AfterAttributeName;
                    } else {
                        self.reconsume = true;
                        self.state = State::AttributeName;
                        if matches!(&self.latest_token, Some(HtmlToken::StartTag { .. })) {
                            self.start_new_attribute();
                        }
                    }
                },
                State::AttributeName => {
                    if c == ' ' || c == '/' || c == '>' {
                        self.reconsume = true;
                        self.state = State::AfterAttributeName;
                    } else if c == '=' {
                        self.state = State::BeforeAttributeValue;
                    } else {
                        let can_attr = match &self.latest_token {
                            Some(HtmlToken::StartTag { attributes, .. }) => attributes.len() > 0,
                            _ => false,
                        };
                        if can_attr {
                            proof {
                                crate::chars::lemma_lower_char_idempotent(c);
                            }
                            if is_ascii_uppercase_char(c) {
                                self.append_attribute(to_lowercase_char(c), true);
                            } else {
                                self.append_attribute(c, true);
                            }
                        }
                    }
                },
                State::AfterAttributeName => {
                    if c == ' ' {
                    } else if c == '/' {
                        self.state = State::SelfClosingStartTag;
                    } else if c == '=' {
                        self.state = State::BeforeAttributeValue;
                    } else if c == '>' {
                        self.state = State::Data;
                        let tok = self.emit_pending();
                        proof {
                            assert(lex_step(pre) == LexStep::Emit(self@, tok_taken(pre.latest)));
                        }
                        return Some(tok);
                    } else {
                        self.reconsume = true;
                        self.state = State::AttributeName;
                        if matches!(&self.latest_token, Some(HtmlToken::StartTag { .. })) {
                            self.start_new_attribute();
                        }
                    }
                },
                State::BeforeAttributeValue => {
                    if c == ' ' {
                    } else if c == '"' {
                        self.state = State::AttributeValueDoubleQuoted;
                    } else if c == '\'' {
                        self.state = State::AttributeValueSingleQuoted;
                    } else {
                        self.reconsume = true;
                        self.state = State::AttributeValueUnquoted;
                    }
                },
                State::AttributeValueDoubleQuoted => {
                    if c == '"' {
                        self.state = State::AfterAttributeValueQuoted;
                    } else {
                        let can_attr = match &self.latest_token {
                            Some(HtmlToken::StartTag { attributes, .. }) => attributes.len() > 0,
                            _ => false,
                        };
                        if can_attr {
                            self.append_attribute(c, false);
                        }
                    }
                },
                State::AttributeValueSingleQuoted => {
                    if c == '\'' {
                        self.state = State::AfterAttributeValueQuoted;
                    } else {
                        let can_attr = match &self.latest_token {
                            Some(HtmlToken::StartTag { attributes, .. }) => attributes.len() > 0,
                            _ => false,
                        };
                        if can_attr {
                            self.append_attribute(c, false);
                        }
                    }
                },
                State::AttributeValueUnquoted => {
                    if c == ' ' {
                        self.state = State::BeforeAttributeName;
                    } else if c == '>' {
                        self.state = State::Data;
                        let tok = self.emit_pending();
                        proof {
                            assert(lex_step(pre) == LexStep::Emit(self@, tok_taken(pre.latest)));
                        }
                        return Some(tok);
                    } else {
                        let can_attr = match &self.latest_token {
                            Some(HtmlToken::StartTag { attributes, .. }) => attributes.len() > 0,
                            _ => false,
                        };
                        if can_attr {
                            self.append_attribute(c, false);
                        }
                    }
                },
                State::AfterAttributeValueQuoted => {
                    if c == ' ' {
                        self.state = State::BeforeAttributeName;
                    } else if c == '/' {
                        self.state = State::SelfClosingStartTag;
                    } else if c == '>' {
                        self.state = State::Data;
                        let tok = self.emit_pending();
                        proof {
                            assert(lex_step(pre) == LexStep::Emit(self@, tok_taken(pre.latest)));
                        }
                        return Some(tok);
                    } else {
                        self.reconsume = true;
                        self.state = State::BeforeAttributeValue;
                    }
                },
                State::SelfClosingStartTag => {
                    if c == '>' {
                        if matches!(&self.latest_token, Some(HtmlToken::StartTag { .. })) {
                            self.set_self_closing_flag();
                        }
                        self.state = State::Data;
                        let tok = self.emit_pending();
                        proof {
                            assert(lex_step(pre) == LexStep::Emit(
                                self@,
                                tok_taken(tok_self_closing(pre.latest)),
                            ));
                        }
                        return Some(tok);
                    }
                },
                State::ScriptData => {
                    if c == '<' {
                        self.state = State::ScriptDataLessThanSign;
                    } else {
                        proof {
                            assert(lex_step(pre) == LexStep::Emit(self@, TokenModel::Char(c)));
                        }
                        return Some(HtmlToken::Char(c));
                    }
                },
                State::ScriptDataLessThanSign => {
                    if c == '/' {
                        self.buf = String::new();
                        self.state = State::ScriptDataEndTagOpen;
                    } else {
                        self.reconsume = true;
                        self.state = State::ScriptData;
                        proof {
                            assert(lex_step(pre) == LexStep::Emit(self@, TokenModel::Char('<')));
                        }
                        return Some(HtmlToken::Char('<'));
                    }
                },
                State::ScriptDataEndTagOpen => {
                    if is_ascii_alphabetic_char(c) {
                        self.reconsume = true;
                        self.state = State::ScriptDataEndTagName;
                        self.create_tag(false);
                    } else {
                        self.reconsume = true;
                        self.state = State::ScriptData;
                        proof {
                            assert(lex_step(pre) == LexStep::Emit(self@, TokenModel::Char('<')));
                        }
                        return Some(HtmlToken::Char('<'));
                    }
                },
                State::ScriptDataEndTagName => {
                    if c == '>' {
                        self.state = State::Data;
                        let tok = self.emit_pending();
                        proof {
                            assert(lex_step(pre) == LexStep::Emit(self@, tok_taken(pre.latest)));
                        }
                        return Some(tok);
                    } else if is_ascii_alphabetic_char(c) {
                        push_char(&mut self.buf, c);
                        if matches!(&self.latest_token, Some(HtmlToken::StartTag { .. }) | Some(
                            HtmlToken::EndTag { .. },
                        )) {
                            if is_ascii_uppercase_char(c) {
                                self.append_tag_name(to_lowercase_char(c));
                            } else {
                                self.append_tag_name(c);
                            }
                        }
                    } else {
                        self.state = State::TemporaryBuffer;
                        let mut nb = String::from_str("</");
                        nb.append(self.buf.as_str());
                        push_char(&mut nb, c);
                        self.buf = nb;
                        proof {
                            reveal_strlit("</");
                            assert(self@.buf =~= seq!['<', '/'] + pre.buf + seq![c]);
                        }
                    }
                },
                State::TemporaryBuffer => {
                    // unreachable: the drain is handled before any
                    // character is read
                    proof {
                        assert(false);
                    }
                },
            }
            proof {
                assert(lex_step(pre) == LexStep::Cont(self@));
            }
        }
    }
}

/// Tokenizes a whole markup text: every token of the stream, closed by
/// exactly one end-of-input token. On text without `<` this is one
/// character token per input code point, in order, then end of input.
pub fn tokenize(html: String) -> (toks: Vec<HtmlToken>)
    ensures
        toks@.map_values(|t: HtmlToken| t@) == lex_tokens(lex_init(html@), true),
        (forall|k: int| 0 <= k < html@.len() ==> html@[k] != '<') ==> toks@.map_values(
            |t: HtmlToken| t@,
        ) == html@.map_values(|c: char| char_token(c)).push(TokenModel::Eof),
{
    let ghost m0 = lex_init(html@);
    let mut t = HtmlTokenizer::new(html);
    let mut toks: Vec<HtmlToken> = Vec::new();
    loop
        invariant_except_break
            lex_tokens(m0, true) == toks@.map_values(|tk: HtmlToken| tk@) + lex_tokens(t@, true),
        invariant
            t.wf(),
        ensures
            toks@.map_values(|tk: HtmlToken| tk@) == lex_tokens(m0, true),
        decreases lex_fuel(t@),
    {
        let ghost before = t@;
        let ghost done = toks@.map_values(|tk: HtmlToken| tk@);
        let r = t.next();
        proof {
            if !lex_exhausted(before) {
                lemma_lex_tokens_unfold(before);
                lemma_step_fuel(before);
                lemma_loop_fuel(before);
            }
        }
        match r {
            None => {
                proof {
                    assert(lex_exhausted(before));
                    assert(lex_tokens(before, true) == seq![TokenModel::Eof]);
                }
                toks.push(HtmlToken::Eof);
                proof {
                    assert(toks@.map_values(|tk: HtmlToken| tk@) =~= done + seq![TokenModel::Eof]);
                    assert(toks@.map_values(|tk: HtmlToken| tk@) == lex_tokens(m0, true));
                }
                break ;
            },
            Some(tok) => {
                let is_eof_tok = match &tok {
                    HtmlToken::Eof => true,
                    _ => false,
                };
                toks.push(tok);
                proof {
                    assert(toks@.map_values(|tk: HtmlToken| tk@) =~= done + seq![
                        toks@[toks@.len() - 1]@,
                    ]);
                }
                if is_eof_tok {
                    proof {
                        assert(lex_tokens(before, true) == seq![TokenModel::Eof]);
                        assert(toks@.map_values(|tk: HtmlToken| tk@) == lex_tokens(m0, true));
                    }
                    break ;
                }
                proof {
                    assert(lex_tokens(before, true) == seq![toks@[toks@.len() - 1]@] + lex_tokens(
                        t@,
                        true,
                    ));
                    assert(done + (seq![toks@[toks@.len() - 1]@] + lex_tokens(t@, true)) =~= (done
                        + seq![toks@[toks@.len() - 1]@]) + lex_tokens(t@, true));
                }
            },
        }
    }
    proof {
        if forall|k: int| 0 <= k < m0.input.len() ==> m0.input[k] != '<' {
            lemma_plain_data_stream(m0);
            assert(m0.input.subrange(0, m0.input.len() as int) =~= m0.input);
        }
    }
    toks
}

/// One next-token move burns fuel unless the scanner was already done.
pub proof fn lemma_loop_fuel(m: LexerModel)
    ensures
        lex_fuel(lex_loop(m).0) <= lex_fuel(m),
        !lex_exhausted(m) ==> lex_fuel(lex_loop(m).0) < lex_fuel(m),
    decreases lex_fuel(m),
{
    lemma_step_fuel(m);
    match lex_step(m) {
        LexStep::Emit(m2, t) => {},
        LexStep::Cont(m2) => {
            lemma_loop_fuel(m2);
        },
    }
}

} // verus!
