//! Tokens, their source spans, and the tokenizer that reads them.

use crate::chars::{chars_of, is_all_alphanumeric, is_quote, run_ender, string_of};
use crate::integer::parse_integer;
use crate::scan::{
    after, closing_quote, lemma_position_bounds, lemma_token_advances, line_start,
    newlines_before, position_of, run_end, single_value, token_at, tokens_from,
};
use vstd::prelude::*;

verus! {

/// What a token is, with the text or number it carries.
#[derive(Debug, PartialEq, Eq)]
pub enum TokenValue {
    Semicolon,
    Integer(i32),
    Newline,
    StringLiteral(String),
    Space,
    Identifier(String),
    RoundOpen,
    RoundClose,
}

/// The model of a [`TokenValue`]: its text is a sequence of characters.
pub ghost enum TokenValueView {
    Semicolon,
    Integer(i32),
    Newline,
    StringLiteral(Seq<char>),
    Space,
    Identifier(Seq<char>),
    RoundOpen,
    RoundClose,
}

impl TokenValueView {
    /// Spaces and line feeds: tokens that the parser never sees.
    pub open spec fn is_cosmetic(self) -> bool {
        self is Space || self is Newline
    }
}

impl View for TokenValue {
    type V = TokenValueView;

    open spec fn view(&self) -> TokenValueView {
        match *self {
            TokenValue::Semicolon => TokenValueView::Semicolon,
            TokenValue::Integer(i) => TokenValueView::Integer(i),
            TokenValue::Newline => TokenValueView::Newline,
            TokenValue::StringLiteral(s) => TokenValueView::StringLiteral(s@),
            TokenValue::Space => TokenValueView::Space,
            TokenValue::Identifier(s) => TokenValueView::Identifier(s@),
            TokenValue::RoundOpen => TokenValueView::RoundOpen,
            TokenValue::RoundClose => TokenValueView::RoundClose,
        }
    }
}

impl Clone for TokenValue {
    fn clone(&self) -> (r: Self)
        ensures
            r@ == self@,
    {
        match self {
            TokenValue::Semicolon => TokenValue::Semicolon,
            TokenValue::Integer(i) => TokenValue::Integer(*i),
            TokenValue::Newline => TokenValue::Newline,
            TokenValue::StringLiteral(s) => TokenValue::StringLiteral(s.clone()),
            TokenValue::Space => TokenValue::Space,
            TokenValue::Identifier(s) => TokenValue::Identifier(s.clone()),
            TokenValue::RoundOpen => TokenValue::RoundOpen,
            TokenValue::RoundClose => TokenValue::RoundClose,
        }
    }
}

impl TokenValue {
    /// Whether the token is a space or a line feed.
    pub fn is_cosmetic(&self) -> (r: bool)
        ensures
            r == self@.is_cosmetic(),
    {
        match self {
            TokenValue::Space => true,
            TokenValue::Newline => true,
            _ => false,
        }
    }
}

/// A place in the source text.
#[derive(Debug, Clone, Copy, PartialEq, Eq)]
pub struct Position {
    /// How many characters have been read up to and including this one.
    pub position: usize,
    /// The line, counted from 1.
    pub line: usize,
    /// The column within the line, counted from 1.
    pub column: usize,
}

/// The model of a [`Position`], in unbounded integers.
pub ghost struct PositionView {
    pub position: int,
    pub line: int,
    pub column: int,
}

impl View for Position {
    type V = PositionView;

    open spec fn view(&self) -> PositionView {
        PositionView {
            position: self.position as int,
            line: self.line as int,
            column: self.column as int,
        }
    }
}

/// The stretch of source text that a token was read from, from its first
/// character to its last, both included.
#[derive(Debug, Clone, Copy, PartialEq, Eq)]
pub struct Span {
    pub start: Position,
    pub end: Position,
}

/// The model of a [`Span`].
pub ghost struct SpanView {
    pub start: PositionView,
    pub end: PositionView,
}

impl View for Span {
    type V = SpanView;

    open spec fn view(&self) -> SpanView {
        SpanView { start: self.start@, end: self.end@ }
    }
}

/// A token: what it is and where it was read.
#[derive(Debug, PartialEq, Eq)]
pub struct Token {
    pub value: TokenValue,
    pub span: Span,
}

/// The model of a [`Token`].
pub ghost struct TokenView {
    pub value: TokenValueView,
    pub span: SpanView,
}

impl View for Token {
    type V = TokenView;

    open spec fn view(&self) -> TokenView {
        TokenView { value: self.value@, span: self.span@ }
    }
}

impl Clone for Token {
    fn clone(&self) -> (r: Self)
        ensures
            r@ == self@,
    {
        Token { value: self.value.clone(), span: self.span }
    }
}

/// Why a source text has no tokens.
#[derive(Debug, PartialEq, Eq)]
pub enum LexError {
    /// A string literal was opened and the text ended before it was closed.
    UnterminatedStringLiteral,
    /// A run of text that is neither an integer nor made of alphanumeric
    /// characters only; it is carried along.
    UnexpectedToken(String),
}

/// The model of a [`LexError`].
pub ghost enum LexErrorView {
    UnterminatedStringLiteral,
    UnexpectedToken(Seq<char>),
}

impl View for LexError {
    type V = LexErrorView;

    open spec fn view(&self) -> LexErrorView {
        match *self {
            LexError::UnterminatedStringLiteral => LexErrorView::UnterminatedStringLiteral,
            LexError::UnexpectedToken(s) => LexErrorView::UnexpectedToken(s@),
        }
    }
}

/// The models of the tokens of `tokens`, in order.
pub open spec fn token_views(tokens: Seq<Token>) -> Seq<TokenView> {
    tokens.map_values(|t: Token| t@)
}

/// Where the tokenizer stands: how many characters it has read, and the line
/// and column of the character it reads next.
#[derive(Debug, Clone, Copy)]
struct Cursor {
    position: usize,
    line: usize,
    column: usize,
}

/// A character with the place it was read at.
#[derive(Debug)]
struct CharAt {
    c: char,
    position: Position,
}

/// Reads a source text token by token, keeping track of offset, line and
/// column.
#[derive(Debug)]
pub struct Tokenizer {
    input: Vec<char>,
    cursor: Cursor,
}

impl Tokenizer {
    /// The cursor stands within the text or at its end, and while a character
    /// is left to read, line and column are those of that character.
    #[verifier::type_invariant]
    spec fn well_formed(&self) -> bool {
        &&& self.cursor.position <= self.input@.len()
        &&& self.cursor.position < self.input@.len() ==> {
            &&& self.cursor.line == newlines_before(self.input@, self.cursor.position as int) + 1
            &&& self.cursor.column == self.cursor.position - line_start(
                self.input@,
                self.cursor.position as int,
            ) + 1
        }
    }

    /// The source text that is being read.
    pub closed spec fn source(&self) -> Seq<char> {
        self.input@
    }

    /// How many characters of the source have been read.
    pub closed spec fn offset(&self) -> int {
        self.cursor.position as int
    }

    /// A tokenizer at the start of `input`: offset 0, line 1, column 1.
    pub fn new(input: String) -> (t: Tokenizer)
        ensures
            t.source() == input@,
            t.offset() == 0,
    {
        let chars = chars_of(input.as_str());
        Tokenizer { input: chars, cursor: Cursor { position: 0, line: 1, column: 1 } }
    }

    /// Reads one character and says where it lies; `None` at the end of the
    /// text. A line feed ends its line: the character behind it is the first
    /// of the next.
    fn take(&mut self) -> (r: Option<CharAt>)
        ensures
            final(self).source() == old(self).source(),
            0 <= old(self).offset() <= old(self).source().len(),
            match r {
                Some(at) => {
                    &&& old(self).offset() < old(self).source().len()
                    &&& at.c == old(self).source()[old(self).offset()]
                    &&& at.position@ == position_of(old(self).source(), old(self).offset())
                    &&& final(self).offset() == old(self).offset() + 1
                },
                None => {
                    &&& old(self).offset() == old(self).source().len()
                    &&& final(self).offset() == old(self).offset()
                },
            },
    {
        proof {
            use_type_invariant(&*self);
        }
        let at: usize = self.cursor.position;
        if at >= self.input.len() {
            return None;
        }
        let c: char = self.input[at];
        let here =
            Position { position: at + 1, line: self.cursor.line, column: self.cursor.column };
        let mut line: usize = self.cursor.line;
        let mut column: usize = self.cursor.column;
        // Line and column are those of the next character; behind the last
        // one there is none.
        if at + 1 < self.input.len() {
            proof {
                lemma_position_bounds(self.input@, at as int);
            }
            if c == '\n' {
                line = line + 1;
                column = 1;
            } else {
                column = column + 1;
            }
        }
        self.cursor = Cursor { position: at + 1, line, column };
        Some(CharAt { c, position: here })
    }

    /// The character that `take` would read, without reading it.
    fn peek(&self) -> (r: Option<char>)
        ensures
            0 <= self.offset() <= self.source().len(),
            r == if self.offset() < self.source().len() {
                Some(self.source()[self.offset()])
            } else {
                None
            },
    {
        proof {
            use_type_invariant(self);
        }
        if self.cursor.position < self.input.len() {
            Some(self.input[self.cursor.position])
        } else {
            None
        }
    }

    /// Reads a string literal, from its opening quote to its closing one. The
    /// value is what stands between the two; the span includes both.
    fn read_string_literal(&mut self) -> (r: Result<Token, LexError>)
        requires
            0 <= old(self).offset() < old(self).source().len(),
            is_quote(old(self).source()[old(self).offset()]),
        ensures
            final(self).source() == old(self).source(),
            match token_at(old(self).source(), old(self).offset()) {
                Ok((token, next)) => r matches Ok(t) && t@ == token && final(self).offset() == next,
                Err(e) => r matches Err(x) && x@ == e && final(self).offset() == old(
                    self,
                ).source().len(),
            },
    {
        let ghost s = self.source();
        let ghost start = self.offset();
        let open_quote = self.take().unwrap();
        let mut value = String::new();
        loop
            invariant
                self.source() == s,
                s == old(self).source(),
                start == old(self).offset(),
                0 <= start < s.len(),
                start + 1 <= self.offset() <= s.len(),
                closing_quote(s, start + 1) == closing_quote(s, self.offset()),
                value@ == s.subrange(start + 1, self.offset()),
                open_quote.position@ == position_of(s, start),
                is_quote(s[start]),
            decreases s.len() - self.offset(),
        {
            match self.take() {
                Some(at) => {
                    if at.c == '"' {
                        return Ok(
                            Token {
                                value: TokenValue::StringLiteral(value),
                                span: Span { start: open_quote.position, end: at.position },
                            },
                        );
                    }
                    value.push(at.c);
                },
                None => {
                    return Err(LexError::UnterminatedStringLiteral);
                },
            }
        }
    }

    /// The token that a character is by itself, if it is one.
    fn single_char_token_value(c: char) -> (r: Option<TokenValue>)
        ensures
            match r {
                Some(v) => single_value(c) == Some(v@),
                None => single_value(c) is None,
            },
    {
        match c {
            ';' => Some(TokenValue::Semicolon),
            '\n' => Some(TokenValue::Newline),
            ' ' => Some(TokenValue::Space),
            '(' => Some(TokenValue::RoundOpen),
            ')' => Some(TokenValue::RoundClose),
            _ => None,
        }
    }

    /// Reads the next token: `Ok(None)` at the end of the text, else the
    /// token that starts where the tokenizer stands, or the error in it.
    pub fn next_token(&mut self) -> (r: Result<Option<Token>, LexError>)
        ensures
            final(self).source() == old(self).source(),
            0 <= old(self).offset() <= final(self).offset() <= old(self).source().len(),
            old(self).offset() == old(self).source().len() ==> (r matches Ok(None))
                && final(self).offset() == old(self).offset(),
            old(self).offset() < old(self).source().len() ==> match token_at(
                old(self).source(),
                old(self).offset(),
            ) {
                Ok((token, next)) => r matches Ok(Some(t)) && t@ == token && final(self).offset()
                    == next,
                Err(e) => r matches Err(x) && x@ == e,
            },
    {
        let ghost s = self.source();
        let ghost start = self.offset();
        let c: char = match self.peek() {
            Some(c) => c,
            None => {
                return Ok(None);
            },
        };
        if let Some(value) = Self::single_char_token_value(c) {
            let pos = self.take().unwrap().position;
            return Ok(Some(Token { value, span: Span { start: pos, end: pos } }));
        }
        if c == '"' {
            proof {
                lemma_token_advances(s, start);
            }
            return match self.read_string_literal() {
                Ok(token) => Ok(Some(token)),
                Err(e) => Err(e),
            };
        }
        let mut text: Vec<char> = Vec::new();
        let first = self.take().unwrap();
        let start_pos = first.position;
        let mut end_pos = first.position;
        text.push(first.c);
        loop
            invariant
                self.source() == s,
                0 <= start < self.offset() <= s.len(),
                run_end(s, start + 1) == run_end(s, self.offset()),
                text@ == s.subrange(start, self.offset()),
                end_pos@ == position_of(s, self.offset() - 1),
            ensures
                run_end(s, start + 1) == self.offset(),
            decreases s.len() - self.offset(),
        {
            let more: bool = match self.peek() {
                Some(c) => !run_ender(c),
                None => false,
            };
            if !more {
                break ;
            }
            let current = self.take().unwrap();
            text.push(current.c);
            end_pos = current.position;
        }
        let span = Span { start: start_pos, end: end_pos };
        if let Some(i) = parse_integer(&text) {
            return Ok(Some(Token { value: TokenValue::Integer(i), span }));
        }
        if is_all_alphanumeric(&text) {
            return Ok(Some(Token { value: TokenValue::Identifier(string_of(&text)), span }));
        }
        Err(LexError::UnexpectedToken(string_of(&text)))
    }

    /// Reads all tokens that are left, spaces and line feeds included. The
    /// first error ends the reading, and no token is handed out then.
    pub fn tokenize(self) -> (r: Result<Vec<Token>, LexError>)
        ensures
            match tokens_from(self.source(), self.offset()) {
                Ok(tokens) => r matches Ok(v) && token_views(v@) == tokens,
                Err(e) => r matches Err(x) && x@ == e,
            },
    {
        let mut reader = self;
        let ghost s = reader.source();
        let ghost start = reader.offset();
        proof {
            use_type_invariant(&reader);
        }
        let mut tokens: Vec<Token> = Vec::new();
        loop
            invariant
                reader.source() == s,
                s == self.source(),
                start == self.offset(),
                0 <= reader.offset() <= s.len(),
                tokens_from(s, start) == after(
                    token_views(tokens@),
                    tokens_from(s, reader.offset()),
                ),
            decreases s.len() - reader.offset(),
        {
            let ghost before = reader.offset();
            let ghost read = token_views(tokens@);
            match reader.next_token() {
                Ok(Some(token)) => {
                    proof {
                        lemma_token_advances(s, before);
                        let rest = tokens_from(s, reader.offset());
                        assert(token_views(tokens@.push(token)) == read.push(token@));
                        if rest is Ok {
                            assert(read + (seq![token@] + rest->Ok_0) == read.push(token@)
                                + rest->Ok_0);
                        }
                    }
                    tokens.push(token);
                },
                Ok(None) => {
                    return Ok(tokens);
                },
                Err(e) => {
                    return Err(e);
                },
            }
        }
    }
}

} // verus!
