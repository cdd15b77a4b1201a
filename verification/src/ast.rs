//! The statement tree and the parser that builds it.

use crate::grammar::{
    args_after, args_at, call_at, expr_at, lemma_expr_advances, lemma_statement_advances,
    lookahead, program_from, starts_call, statement_at, statements_after, statements_from,
};
use crate::scan::{values_of, without_cosmetic};
use crate::tokenizer::{token_views, Token, TokenValue, TokenValueView, TokenView};
use vstd::prelude::*;

verus! {

/// A name.
#[derive(Debug, PartialEq, Eq)]
pub struct Identifier {
    pub name: String,
}

/// A call of the function `name` on `args`, in the order they were written.
#[derive(Debug, PartialEq, Eq)]
pub struct FunctionCall {
    pub name: Identifier,
    pub args: Vec<Expr>,
}

/// A statement. A call, ended by a semicolon, is the only one there is.
#[derive(Debug, PartialEq, Eq)]
pub enum Statement {
    Call(FunctionCall),
}

/// An expression.
#[derive(Debug, PartialEq, Eq)]
pub enum Expr {
    IntegerLiteral(i32),
    StringLiteral(String),
    Identifier(Identifier),
    Call(FunctionCall),
}

/// A program: its statements in source order.
#[derive(Debug, PartialEq, Eq)]
pub struct Program {
    pub statements: Vec<Statement>,
}

/// The model of an [`Identifier`].
pub ghost struct IdentifierView {
    pub name: Seq<char>,
}

/// The model of a [`FunctionCall`].
pub ghost struct FunctionCallView {
    pub name: IdentifierView,
    pub args: Seq<ExprView>,
}

/// The model of a [`Statement`].
pub ghost enum StatementView {
    Call(FunctionCallView),
}

/// The model of an [`Expr`].
pub ghost enum ExprView {
    IntegerLiteral(i32),
    StringLiteral(Seq<char>),
    Identifier(IdentifierView),
    Call(FunctionCallView),
}

/// The model of a [`Program`].
pub ghost struct ProgramView {
    pub statements: Seq<StatementView>,
}

impl View for Identifier {
    type V = IdentifierView;

    open spec fn view(&self) -> IdentifierView {
        IdentifierView { name: self.name@ }
    }
}

/// The model of an expression.
pub open spec fn expr_view(e: Expr) -> ExprView
    decreases e,
{
    match e {
        Expr::IntegerLiteral(i) => ExprView::IntegerLiteral(i),
        Expr::StringLiteral(s) => ExprView::StringLiteral(s@),
        Expr::Identifier(name) => ExprView::Identifier(name@),
        Expr::Call(call) => ExprView::Call(call_view(call)),
    }
}

/// The model of a call.
pub open spec fn call_view(call: FunctionCall) -> FunctionCallView
    decreases call,
{
    FunctionCallView {
        name: call.name@,
        args: Seq::new(
            call.args@.len(),
            |i: int|
                if 0 <= i < call.args@.len() {
                    expr_view(call.args@[i])
                } else {
                    arbitrary()
                },
        ),
    }
}

impl View for Expr {
    type V = ExprView;

    open spec fn view(&self) -> ExprView {
        expr_view(*self)
    }
}

impl View for FunctionCall {
    type V = FunctionCallView;

    open spec fn view(&self) -> FunctionCallView {
        call_view(*self)
    }
}

impl View for Statement {
    type V = StatementView;

    open spec fn view(&self) -> StatementView {
        match *self {
            Statement::Call(call) => StatementView::Call(call@),
        }
    }
}

impl View for Program {
    type V = ProgramView;

    open spec fn view(&self) -> ProgramView {
        ProgramView { statements: statement_views(self.statements@) }
    }
}

/// Why a sequence of tokens is no program.
#[derive(Debug, PartialEq, Eq)]
pub enum ParseError {
    /// No rule starts with the tokens that come next; they are carried
    /// along, two of them at most.
    UnexpectedTokenSequence(Vec<TokenValue>),
    /// A call is not followed by the semicolon that ends its statement.
    MissingSemicolon,
    /// Where a call should start there is no identifier.
    MissingIdentifier,
    /// The name of a call is not followed by an opening parenthesis.
    MissingOpenParen,
    /// A closing parenthesis is missing. The parser never reports this: where
    /// one is missing, the tokens end within the call, or a token stands
    /// there that starts no expression.
    MissingCloseParen,
    /// The tokens ended within the arguments of a call.
    UnexpectedEndOfInput,
}

/// The model of a [`ParseError`].
pub ghost enum ParseErrorView {
    UnexpectedTokenSequence(Seq<TokenValueView>),
    MissingSemicolon,
    MissingIdentifier,
    MissingOpenParen,
    MissingCloseParen,
    UnexpectedEndOfInput,
}

impl View for ParseError {
    type V = ParseErrorView;

    open spec fn view(&self) -> ParseErrorView {
        match *self {
            ParseError::UnexpectedTokenSequence(seen) => ParseErrorView::UnexpectedTokenSequence(
                value_views(seen@),
            ),
            ParseError::MissingSemicolon => ParseErrorView::MissingSemicolon,
            ParseError::MissingIdentifier => ParseErrorView::MissingIdentifier,
            ParseError::MissingOpenParen => ParseErrorView::MissingOpenParen,
            ParseError::MissingCloseParen => ParseErrorView::MissingCloseParen,
            ParseError::UnexpectedEndOfInput => ParseErrorView::UnexpectedEndOfInput,
        }
    }
}

/// The models of the expressions of `exprs`, in order.
pub open spec fn expr_views(exprs: Seq<Expr>) -> Seq<ExprView> {
    exprs.map_values(|e: Expr| e@)
}

/// The models of the statements of `statements`, in order.
pub open spec fn statement_views(statements: Seq<Statement>) -> Seq<StatementView> {
    statements.map_values(|s: Statement| s@)
}

/// The models of the token values of `values`, in order.
pub open spec fn value_views(values: Seq<TokenValue>) -> Seq<TokenValueView> {
    values.map_values(|v: TokenValue| v@)
}

/// A recursive-descent parser over tokens, with a cursor that only moves
/// forward.
pub struct Parser {
    tokens: Vec<Token>,
    pos: usize,
}

impl Parser {
    /// The cursor stands within the tokens or at their end.
    #[verifier::type_invariant]
    spec fn well_formed(&self) -> bool {
        self.pos <= self.tokens@.len()
    }

    /// The tokens that are parsed.
    pub closed spec fn tokens(&self) -> Seq<TokenView> {
        token_views(self.tokens@)
    }

    /// What the tokens are, without their spans: what the grammar speaks of.
    pub open spec fn values(&self) -> Seq<TokenValueView> {
        values_of(self.tokens())
    }

    /// How many tokens have been consumed.
    pub closed spec fn cursor(&self) -> int {
        self.pos as int
    }

    /// A parser at the start of `tokens`, spaces and line feeds left out.
    pub fn new(tokens: Vec<Token>) -> (p: Parser)
        ensures
            p.tokens() == without_cosmetic(token_views(tokens@)),
            p.cursor() == 0,
    {
        let ghost all = token_views(tokens@);
        let mut kept: Vec<Token> = Vec::new();
        proof {
            reveal(Seq::filter);
        }
        for token in it: tokens
            invariant
                all == token_views(it.seq()),
                token_views(kept@) == without_cosmetic(all.take(it.index() as int)),
        {
            proof {
                reveal(Seq::filter);
                assert(all.take(it.index() + 1).drop_last() == all.take(it.index() as int));
            }
            if !token.value.is_cosmetic() {
                kept.push(token);
            }
        }
        assert(all.take(all.len() as int) == all);
        Parser { tokens: kept, pos: 0 }
    }

    /// The next token, without consuming it.
    fn peek(&self) -> (r: Option<&Token>)
        ensures
            0 <= self.cursor() <= self.tokens().len(),
            match r {
                Some(token) => self.cursor() < self.tokens().len() && token@
                    == self.tokens()[self.cursor()],
                None => self.cursor() == self.tokens().len(),
            },
    {
        proof {
            use_type_invariant(self);
        }
        if self.pos < self.tokens.len() {
            Some(&self.tokens[self.pos])
        } else {
            None
        }
    }

    /// The next `n` tokens, or as many as are left, without consuming them.
    fn peek_n(&self, n: usize) -> (r: Vec<&Token>)
        ensures
            0 <= self.cursor() <= self.tokens().len(),
            r@.len() == if self.cursor() + n <= self.tokens().len() {
                n as int
            } else {
                self.tokens().len() - self.cursor()
            },
            forall|i: int|
                0 <= i < r@.len() ==> (#[trigger] r@[i])@ == self.tokens()[self.cursor() + i],
    {
        proof {
            use_type_invariant(self);
        }
        let mut seen: Vec<&Token> = Vec::new();
        let mut i: usize = 0;
        while i < n && i < self.tokens.len() - self.pos
            invariant
                self.pos <= self.tokens@.len(),
                i <= n,
                i <= self.tokens@.len() - self.pos,
                seen@.len() == i,
                forall|k: int|
                    0 <= k < i ==> (#[trigger] seen@[k])@ == self.tokens()[self.cursor() + k],
            decreases n - i,
        {
            seen.push(&self.tokens[self.pos + i]);
            i += 1;
        }
        seen
    }

    /// Consumes the next token and hands it out; `None`, and nothing
    /// consumed, at the end of the tokens.
    fn take(&mut self) -> (r: Option<&Token>)
        ensures
            final(self).tokens() == old(self).tokens(),
            0 <= old(self).cursor() <= old(self).tokens().len(),
            match r {
                Some(token) => {
                    &&& old(self).cursor() < old(self).tokens().len()
                    &&& token@ == old(self).tokens()[old(self).cursor()]
                    &&& final(self).cursor() == old(self).cursor() + 1
                },
                None => {
                    &&& old(self).cursor() == old(self).tokens().len()
                    &&& final(self).cursor() == old(self).cursor()
                },
            },
    {
        proof {
            use_type_invariant(&*self);
        }
        if self.pos < self.tokens.len() {
            self.pos = self.pos + 1;
            Some(&self.tokens[self.pos - 1])
        } else {
            None
        }
    }

    /// The values of the next two tokens, or of as many as are left: what an
    /// error shows of the place where no rule fits.
    fn observed(&self) -> (r: Vec<TokenValue>)
        ensures
            value_views(r@) == lookahead(self.values(), self.cursor()),
    {
        let seen = self.peek_n(2);
        let mut values: Vec<TokenValue> = Vec::new();
        let mut i: usize = 0;
        while i < seen.len()
            invariant
                i <= seen@.len(),
                0 <= self.cursor() <= self.tokens().len(),
                self.cursor() + seen@.len() <= self.tokens().len(),
                values@.len() == i,
                forall|k: int|
                    0 <= k < seen@.len() ==> (#[trigger] seen@[k])@ == self.tokens()[self.cursor()
                        + k],
                forall|k: int|
                    0 <= k < i ==> (#[trigger] values@[k])@ == self.values()[self.cursor() + k],
            decreases seen@.len() - i,
        {
            values.push(seen[i].value.clone());
            i += 1;
        }
        values
    }

    /// Whether a call starts at the cursor: an identifier and, right behind
    /// it, an opening parenthesis.
    fn at_call(&self) -> (r: bool)
        ensures
            0 <= self.cursor() <= self.tokens().len(),
            r == starts_call(self.values(), self.cursor()),
    {
        let seen = self.peek_n(2);
        if seen.len() < 2 {
            return false;
        }
        let name: bool = match seen[0].value {
            TokenValue::Identifier(_) => true,
            _ => false,
        };
        let open: bool = match seen[1].value {
            TokenValue::RoundOpen => true,
            _ => false,
        };
        name && open
    }

    /// Parses statements until no token is left. The first error ends the
    /// parse, and no statement is handed out then.
    pub fn parse_program(&mut self) -> (r: Result<Program, ParseError>)
        ensures
            final(self).tokens() == old(self).tokens(),
            0 <= old(self).cursor() <= final(self).cursor() <= old(self).tokens().len(),
            match program_from(old(self).values(), old(self).cursor()) {
                Ok(program) => r matches Ok(p) && p@ == program && final(self).cursor() == old(
                    self,
                ).tokens().len(),
                Err(e) => r matches Err(x) && x@ == e,
            },
    {
        let ghost values = self.values();
        let ghost start = self.cursor();
        proof {
            use_type_invariant(&*self);
        }
        let mut statements: Vec<Statement> = Vec::new();
        loop
            invariant
                self.tokens() == old(self).tokens(),
                values == old(self).values(),
                start == old(self).cursor(),
                0 <= start <= self.cursor() <= values.len(),
                statements_from(values, start) == statements_after(
                    statement_views(statements@),
                    statements_from(values, self.cursor()),
                ),
            decreases values.len() - self.cursor(),
        {
            let ghost before = self.cursor();
            let ghost read = statement_views(statements@);
            if self.peek().is_none() {
                return Ok(Program { statements });
            }
            match self.parse_statement() {
                Ok(statement) => {
                    proof {
                        lemma_statement_advances(values, before);
                        let rest = statements_from(values, self.cursor());
                        assert(statement_views(statements@.push(statement)) == read.push(
                            statement@,
                        ));
                        if rest is Ok {
                            assert(read + (seq![statement@] + rest->Ok_0) == read.push(statement@)
                                + rest->Ok_0);
                        }
                    }
                    statements.push(statement);
                },
                Err(e) => {
                    return Err(e);
                },
            }
        }
    }

    /// Parses one statement: a call and the semicolon that ends it.
    pub fn parse_statement(&mut self) -> (r: Result<Statement, ParseError>)
        ensures
            final(self).tokens() == old(self).tokens(),
            0 <= old(self).cursor() <= final(self).cursor() <= old(self).tokens().len(),
            match statement_at(old(self).values(), old(self).cursor()) {
                Ok((statement, next)) => r matches Ok(s) && s@ == statement && final(self).cursor()
                    == next,
                Err(e) => r matches Err(x) && x@ == e,
            },
    {
        if !self.at_call() {
            return Err(ParseError::UnexpectedTokenSequence(self.observed()));
        }
        let call = match self.parse_call() {
            Ok(call) => call,
            Err(e) => {
                return Err(e);
            },
        };
        match self.take() {
            Some(token) => match token.value {
                TokenValue::Semicolon => Ok(Statement::Call(call)),
                _ => Err(ParseError::MissingSemicolon),
            },
            None => Err(ParseError::MissingSemicolon),
        }
    }

    /// Parses one call: a name, an opening parenthesis, the arguments one
    /// after another with nothing between them, a closing parenthesis.
    pub fn parse_call(&mut self) -> (r: Result<FunctionCall, ParseError>)
        ensures
            final(self).tokens() == old(self).tokens(),
            0 <= old(self).cursor() <= final(self).cursor() <= old(self).tokens().len(),
            match call_at(old(self).values(), old(self).cursor()) {
                Ok((call, next)) => r matches Ok(c) && c@ == call && final(self).cursor() == next,
                Err(e) => r matches Err(x) && x@ == e,
            },
        decreases old(self).tokens().len() - old(self).cursor(), 0int,
    {
        let ghost values = self.values();
        let ghost start = self.cursor();
        let name = match self.take() {
            Some(token) => match &token.value {
                TokenValue::Identifier(name) => Identifier { name: name.clone() },
                _ => {
                    return Err(ParseError::MissingIdentifier);
                },
            },
            None => {
                return Err(ParseError::MissingIdentifier);
            },
        };
        match self.take() {
            Some(token) => match token.value {
                TokenValue::RoundOpen => {},
                _ => {
                    return Err(ParseError::MissingOpenParen);
                },
            },
            None => {
                return Err(ParseError::MissingOpenParen);
            },
        }
        let mut args: Vec<Expr> = Vec::new();
        loop
            invariant
                self.tokens() == old(self).tokens(),
                values == old(self).values(),
                start == old(self).cursor(),
                0 <= start,
                start + 2 <= self.cursor() <= values.len(),
                values[start] == TokenValueView::Identifier(name@.name),
                values[start + 1] is RoundOpen,
                args_at(values, start + 2) == args_after(
                    expr_views(args@),
                    args_at(values, self.cursor()),
                ),
            ensures
                0 <= self.cursor() < values.len(),
                values[self.cursor()] is RoundClose,
            decreases values.len() - self.cursor(),
        {
            let ghost before = self.cursor();
            let ghost read = expr_views(args@);
            let closed: bool = match self.peek() {
                Some(token) => match token.value {
                    TokenValue::RoundClose => true,
                    _ => false,
                },
                None => {
                    return Err(ParseError::UnexpectedEndOfInput);
                },
            };
            if closed {
                break ;
            }
            let arg = match self.parse_expr() {
                Ok(arg) => arg,
                Err(e) => {
                    return Err(e);
                },
            };
            proof {
                lemma_expr_advances(values, before);
                let rest = args_at(values, self.cursor());
                assert(expr_views(args@.push(arg)) == read.push(arg@));
                if rest is Ok {
                    assert(read + (seq![arg@] + rest->Ok_0.0) == read.push(arg@) + rest->Ok_0.0);
                }
            }
            args.push(arg);
        }
        self.take();
        let call = FunctionCall { name, args };
        proof {
            assert(call@.args == expr_views(call.args@));
        }
        Ok(call)
    }

    /// Parses one expression: a call where an identifier is followed by an
    /// opening parenthesis, else the integer, string or identifier that the
    /// next token is.
    pub fn parse_expr(&mut self) -> (r: Result<Expr, ParseError>)
        ensures
            final(self).tokens() == old(self).tokens(),
            0 <= old(self).cursor() <= final(self).cursor() <= old(self).tokens().len(),
            match expr_at(old(self).values(), old(self).cursor()) {
                Ok((expr, next)) => r matches Ok(e) && e@ == expr && final(self).cursor() == next,
                Err(e) => r matches Err(x) && x@ == e,
            },
        decreases old(self).tokens().len() - old(self).cursor(), 1int,
    {
        if self.at_call() {
            return match self.parse_call() {
                Ok(call) => Ok(Expr::Call(call)),
                Err(e) => Err(e),
            };
        }
        match self.peek() {
            Some(token) => match token.value {
                TokenValue::Integer(_) => Ok(Expr::IntegerLiteral(self.parse_integer_literal())),
                TokenValue::StringLiteral(_) => Ok(
                    Expr::StringLiteral(self.parse_string_literal()),
                ),
                TokenValue::Identifier(_) => Ok(Expr::Identifier(self.parse_identifier())),
                _ => Err(ParseError::UnexpectedTokenSequence(self.observed())),
            },
            None => Err(ParseError::UnexpectedTokenSequence(self.observed())),
        }
    }

    /// Consumes the integer at the cursor.
    fn parse_integer_literal(&mut self) -> (r: i32)
        requires
            0 <= old(self).cursor() < old(self).tokens().len(),
            old(self).values()[old(self).cursor()] is Integer,
        ensures
            final(self).tokens() == old(self).tokens(),
            final(self).cursor() == old(self).cursor() + 1,
            old(self).values()[old(self).cursor()] == TokenValueView::Integer(r),
    {
        match self.take() {
            Some(token) => match token.value {
                TokenValue::Integer(i) => i,
                _ => unreached(),
            },
            None => unreached(),
        }
    }

    /// Consumes the string literal at the cursor.
    fn parse_string_literal(&mut self) -> (r: String)
        requires
            0 <= old(self).cursor() < old(self).tokens().len(),
            old(self).values()[old(self).cursor()] is StringLiteral,
        ensures
            final(self).tokens() == old(self).tokens(),
            final(self).cursor() == old(self).cursor() + 1,
            old(self).values()[old(self).cursor()] == TokenValueView::StringLiteral(r@),
    {
        match self.take() {
            Some(token) => match &token.value {
                TokenValue::StringLiteral(s) => s.clone(),
                _ => unreached(),
            },
            None => unreached(),
        }
    }

    /// Consumes the identifier at the cursor.
    fn parse_identifier(&mut self) -> (r: Identifier)
        requires
            0 <= old(self).cursor() < old(self).tokens().len(),
            old(self).values()[old(self).cursor()] is Identifier,
        ensures
            final(self).tokens() == old(self).tokens(),
            final(self).cursor() == old(self).cursor() + 1,
            old(self).values()[old(self).cursor()] == TokenValueView::Identifier(r@.name),
    {
        match self.take() {
            Some(token) => match &token.value {
                TokenValue::Identifier(name) => Identifier { name: name.clone() },
                _ => unreached(),
            },
            None => unreached(),
        }
    }
}

} // verus!
