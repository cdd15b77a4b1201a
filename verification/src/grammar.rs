//! The syntax of the language, stated over sequences of token values:
//!
//! ```text
//! Program   := Statement*
//! Statement := Call ';'
//! Call      := Identifier '(' Expr* ')'
//! Expr      := Call | Integer | StringLiteral | Identifier
//! ```
//!
//! Arguments follow one another with nothing between them. Which rule
//! applies is seen from the next two tokens at most, and the first token
//! that fits no rule ends the parse.

use crate::ast::{
    ExprView, FunctionCallView, IdentifierView, ParseErrorView, ProgramView, StatementView,
};
use crate::tokenizer::TokenValueView;
use vstd::prelude::*;

verus! {

/// The next two tokens from `pos` on, or as many as are left.
pub open spec fn lookahead(tokens: Seq<TokenValueView>, pos: int) -> Seq<TokenValueView>
    recommends
        0 <= pos <= tokens.len(),
{
    if pos + 2 <= tokens.len() {
        tokens.subrange(pos, pos + 2)
    } else {
        tokens.subrange(pos, tokens.len() as int)
    }
}

/// A call starts at `pos`: an identifier with an opening parenthesis right
/// behind it.
pub open spec fn starts_call(tokens: Seq<TokenValueView>, pos: int) -> bool {
    &&& 0 <= pos
    &&& pos + 1 < tokens.len()
    &&& tokens[pos] is Identifier
    &&& tokens[pos + 1] is RoundOpen
}

/// The call that starts at `pos`, with the index just behind its closing
/// parenthesis.
pub open spec fn call_at(tokens: Seq<TokenValueView>, pos: int) -> Result<
    (FunctionCallView, int),
    ParseErrorView,
>
    decreases tokens.len() - pos, 0int,
{
    if !(0 <= pos < tokens.len() && tokens[pos] is Identifier) {
        Err(ParseErrorView::MissingIdentifier)
    } else if !(pos + 1 < tokens.len() && tokens[pos + 1] is RoundOpen) {
        Err(ParseErrorView::MissingOpenParen)
    } else {
        match args_at(tokens, pos + 2) {
            Ok((args, next)) => Ok(
                (
                    FunctionCallView {
                        name: IdentifierView { name: tokens[pos]->Identifier_0 },
                        args,
                    },
                    next,
                ),
            ),
            Err(e) => Err(e),
        }
    }
}

/// The expressions from `pos` up to the next closing parenthesis that is not
/// part of one of them, with the index just behind that parenthesis.
///
/// An expression holds at least one token and ends within the tokens
/// (`lemma_expr_advances`), so the test on `next` never fails; it is what
/// makes the definition terminate.
pub open spec fn args_at(tokens: Seq<TokenValueView>, pos: int) -> Result<
    (Seq<ExprView>, int),
    ParseErrorView,
>
    decreases tokens.len() - pos, 2int,
{
    if !(0 <= pos < tokens.len()) {
        Err(ParseErrorView::UnexpectedEndOfInput)
    } else if tokens[pos] is RoundClose {
        Ok((Seq::empty(), pos + 1))
    } else {
        match expr_at(tokens, pos) {
            Ok((arg, next)) => if pos < next <= tokens.len() {
                match args_at(tokens, next) {
                    Ok((rest, end)) => Ok((seq![arg] + rest, end)),
                    Err(e) => Err(e),
                }
            } else {
                Err(ParseErrorView::UnexpectedEndOfInput)
            },
            Err(e) => Err(e),
        }
    }
}

/// The expression that starts at `pos`, with the index just behind it.
pub open spec fn expr_at(tokens: Seq<TokenValueView>, pos: int) -> Result<
    (ExprView, int),
    ParseErrorView,
>
    decreases tokens.len() - pos, 1int,
{
    if starts_call(tokens, pos) {
        match call_at(tokens, pos) {
            Ok((call, next)) => Ok((ExprView::Call(call), next)),
            Err(e) => Err(e),
        }
    } else if 0 <= pos < tokens.len() {
        match tokens[pos] {
            TokenValueView::Integer(i) => Ok((ExprView::IntegerLiteral(i), pos + 1)),
            TokenValueView::StringLiteral(s) => Ok((ExprView::StringLiteral(s), pos + 1)),
            TokenValueView::Identifier(name) => Ok(
                (ExprView::Identifier(IdentifierView { name }), pos + 1),
            ),
            _ => Err(ParseErrorView::UnexpectedTokenSequence(lookahead(tokens, pos))),
        }
    } else {
        Err(ParseErrorView::UnexpectedTokenSequence(lookahead(tokens, pos)))
    }
}

/// The statement that starts at `pos`, with the index just behind its
/// semicolon.
pub open spec fn statement_at(tokens: Seq<TokenValueView>, pos: int) -> Result<
    (StatementView, int),
    ParseErrorView,
> {
    if starts_call(tokens, pos) {
        match call_at(tokens, pos) {
            Ok((call, next)) => if 0 <= next < tokens.len() && tokens[next] is Semicolon {
                Ok((StatementView::Call(call), next + 1))
            } else {
                Err(ParseErrorView::MissingSemicolon)
            },
            Err(e) => Err(e),
        }
    } else {
        Err(ParseErrorView::UnexpectedTokenSequence(lookahead(tokens, pos)))
    }
}

/// The statements from `pos` to the end of the tokens, or the first error
/// met.
pub open spec fn statements_from(tokens: Seq<TokenValueView>, pos: int) -> Result<
    Seq<StatementView>,
    ParseErrorView,
>
    decreases tokens.len() - pos,
{
    if 0 <= pos < tokens.len() {
        match statement_at(tokens, pos) {
            Ok((statement, next)) => {
                proof {
                    lemma_statement_advances(tokens, pos);
                }
                match statements_from(tokens, next) {
                    Ok(rest) => Ok(seq![statement] + rest),
                    Err(e) => Err(e),
                }
            },
            Err(e) => Err(e),
        }
    } else {
        Ok(Seq::empty())
    }
}

/// The program that the tokens from `pos` on write, or the first syntax error
/// in them.
pub open spec fn program_from(tokens: Seq<TokenValueView>, pos: int) -> Result<
    ProgramView,
    ParseErrorView,
> {
    match statements_from(tokens, pos) {
        Ok(statements) => Ok(ProgramView { statements }),
        Err(e) => Err(e),
    }
}

/// The program that the tokens write, or the first syntax error in them.
pub open spec fn program_of(tokens: Seq<TokenValueView>) -> Result<ProgramView, ParseErrorView> {
    program_from(tokens, 0)
}

/// The arguments `read` so far, followed by what the rest of the list gives.
pub open spec fn args_after(
    read: Seq<ExprView>,
    rest: Result<(Seq<ExprView>, int), ParseErrorView>,
) -> Result<(Seq<ExprView>, int), ParseErrorView> {
    match rest {
        Ok((args, end)) => Ok((read + args, end)),
        Err(e) => Err(e),
    }
}

/// The statements `read` so far, followed by what the rest of the tokens
/// gives.
pub open spec fn statements_after(
    read: Seq<StatementView>,
    rest: Result<Seq<StatementView>, ParseErrorView>,
) -> Result<Seq<StatementView>, ParseErrorView> {
    match rest {
        Ok(statements) => Ok(read + statements),
        Err(e) => Err(e),
    }
}

/// A call holds at least three tokens and ends within the tokens.
pub proof fn lemma_call_advances(tokens: Seq<TokenValueView>, pos: int)
    ensures
        call_at(tokens, pos) matches Ok((_, next)) ==> pos + 3 <= next <= tokens.len(),
    decreases tokens.len() - pos, 0int,
{
    if 0 <= pos && pos + 1 < tokens.len() {
        lemma_args_advance(tokens, pos + 2);
    }
}

/// An argument list holds at least its closing parenthesis and ends within
/// the tokens.
pub proof fn lemma_args_advance(tokens: Seq<TokenValueView>, pos: int)
    ensures
        args_at(tokens, pos) matches Ok((_, next)) ==> pos < next <= tokens.len(),
    decreases tokens.len() - pos, 2int,
{
    if 0 <= pos < tokens.len() && !(tokens[pos] is RoundClose) {
        lemma_expr_advances(tokens, pos);
        if let Ok((_, next)) = expr_at(tokens, pos) {
            lemma_args_advance(tokens, next);
        }
    }
}

/// An expression holds at least one token and ends within the tokens.
pub proof fn lemma_expr_advances(tokens: Seq<TokenValueView>, pos: int)
    ensures
        expr_at(tokens, pos) matches Ok((_, next)) ==> pos < next <= tokens.len(),
    decreases tokens.len() - pos, 1int,
{
    if starts_call(tokens, pos) {
        lemma_call_advances(tokens, pos);
    }
}

/// A statement holds at least four tokens and ends within the tokens.
pub proof fn lemma_statement_advances(tokens: Seq<TokenValueView>, pos: int)
    ensures
        statement_at(tokens, pos) matches Ok((_, next)) ==> pos + 4 <= next <= tokens.len(),
{
    lemma_call_advances(tokens, pos);
}

/// The tokens that write an expression.
pub open spec fn expr_tokens(expr: ExprView) -> Seq<TokenValueView>
    decreases expr,
{
    match expr {
        ExprView::IntegerLiteral(i) => seq![TokenValueView::Integer(i)],
        ExprView::StringLiteral(s) => seq![TokenValueView::StringLiteral(s)],
        ExprView::Identifier(name) => seq![TokenValueView::Identifier(name.name)],
        ExprView::Call(call) => call_tokens(call),
    }
}

/// The tokens that write a call: its name, an opening parenthesis, its
/// arguments, a closing parenthesis.
pub open spec fn call_tokens(call: FunctionCallView) -> Seq<TokenValueView>
    decreases call,
{
    seq![TokenValueView::Identifier(call.name.name), TokenValueView::RoundOpen] + args_tokens(
        call.args,
    ) + seq![TokenValueView::RoundClose]
}

/// The tokens that write a list of arguments: those of each argument in
/// turn, with nothing between them.
pub open spec fn args_tokens(args: Seq<ExprView>) -> Seq<TokenValueView>
    decreases args,
{
    if args.len() == 0 {
        Seq::empty()
    } else {
        expr_tokens(args.first()) + args_tokens(args.drop_first())
    }
}

/// The tokens that write a statement: its call and a semicolon.
pub open spec fn statement_tokens(statement: StatementView) -> Seq<TokenValueView> {
    match statement {
        StatementView::Call(call) => call_tokens(call) + seq![TokenValueView::Semicolon],
    }
}

/// The tokens that write statements one after another.
pub open spec fn statements_tokens(statements: Seq<StatementView>) -> Seq<TokenValueView>
    decreases statements.len(),
{
    if statements.len() == 0 {
        Seq::empty()
    } else {
        statement_tokens(statements.first()) + statements_tokens(statements.drop_first())
    }
}

/// The tokens that write a program.
pub open spec fn program_tokens(program: ProgramView) -> Seq<TokenValueView> {
    statements_tokens(program.statements)
}

/// An expression is written with at least one token, and the first is an
/// integer, a string literal or an identifier.
pub proof fn lemma_expr_tokens_start(expr: ExprView)
    ensures
        expr_tokens(expr).len() >= 1,
        expr_tokens(expr)[0] is Integer || expr_tokens(expr)[0] is StringLiteral || expr_tokens(
            expr,
        )[0] is Identifier,
{
}

/// A call that was parsed is written by the tokens it was parsed from.
pub proof fn lemma_call_at_reads_call_tokens(tokens: Seq<TokenValueView>, pos: int)
    ensures
        call_at(tokens, pos) matches Ok((call, next)) ==> tokens.subrange(pos, next)
            == call_tokens(call),
    decreases tokens.len() - pos, 0int,
{
    if let Ok((call, next)) = call_at(tokens, pos) {
        lemma_args_at_reads_args_tokens(tokens, pos + 2);
        lemma_call_advances(tokens, pos);
        assert(tokens.subrange(pos, next) == seq![tokens[pos], tokens[pos + 1]] + tokens.subrange(
            pos + 2,
            next,
        ));
    }
}

/// Arguments that were parsed are written by the tokens they were parsed
/// from, up to the closing parenthesis.
pub proof fn lemma_args_at_reads_args_tokens(tokens: Seq<TokenValueView>, pos: int)
    ensures
        args_at(tokens, pos) matches Ok((args, next)) ==> tokens.subrange(pos, next)
            == args_tokens(args) + seq![TokenValueView::RoundClose],
    decreases tokens.len() - pos, 2int,
{
    if let Ok((args, end)) = args_at(tokens, pos) {
        if !(tokens[pos] is RoundClose) {
            let next = expr_at(tokens, pos)->Ok_0.1;
            let rest = args_at(tokens, next)->Ok_0.0;
            lemma_expr_at_reads_expr_tokens(tokens, pos);
            lemma_args_at_reads_args_tokens(tokens, next);
            lemma_args_advance(tokens, next);
            assert(args.drop_first() == rest);
            assert(tokens.subrange(pos, end) == tokens.subrange(pos, next) + tokens.subrange(
                next,
                end,
            ));
        }
    }
}

/// An expression that was parsed is written by the tokens it was parsed from.
pub proof fn lemma_expr_at_reads_expr_tokens(tokens: Seq<TokenValueView>, pos: int)
    ensures
        expr_at(tokens, pos) matches Ok((expr, next)) ==> tokens.subrange(pos, next)
            == expr_tokens(expr),
    decreases tokens.len() - pos, 1int,
{
    if starts_call(tokens, pos) {
        lemma_call_at_reads_call_tokens(tokens, pos);
    }
}

/// Statements that were parsed are written by the tokens they were parsed
/// from.
pub proof fn lemma_statements_from_reads_statements_tokens(tokens: Seq<TokenValueView>, pos: int)
    requires
        0 <= pos <= tokens.len(),
    ensures
        statements_from(tokens, pos) matches Ok(statements) ==> tokens.subrange(
            pos,
            tokens.len() as int,
        ) == statements_tokens(statements),
    decreases tokens.len() - pos,
{
    if let Ok(statements) = statements_from(tokens, pos) {
        if pos < tokens.len() {
            let next = statement_at(tokens, pos)->Ok_0.1;
            let rest = statements_from(tokens, next)->Ok_0;
            lemma_statement_advances(tokens, pos);
            lemma_call_advances(tokens, pos);
            lemma_call_at_reads_call_tokens(tokens, pos);
            lemma_statements_from_reads_statements_tokens(tokens, next);
            assert(statements.drop_first() == rest);
        }
    }
}

/// Where the tokens that write a call stand at `pos`, that call is parsed
/// there.
pub proof fn lemma_call_tokens_are_read(
    tokens: Seq<TokenValueView>,
    pos: int,
    call: FunctionCallView,
)
    requires
        0 <= pos,
        pos + call_tokens(call).len() <= tokens.len(),
        tokens.subrange(pos, pos + call_tokens(call).len()) == call_tokens(call),
    ensures
        call_at(tokens, pos) == Ok::<(FunctionCallView, int), ParseErrorView>(
            (call, pos + call_tokens(call).len()),
        ),
    decreases call_tokens(call).len(), 0int,
{
    let written = call_tokens(call);
    let inner = args_tokens(call.args);
    assert(tokens[pos] == written[0]);
    assert(tokens[pos + 1] == written[1]);
    assert(tokens[pos + 2 + inner.len()] == written[2 + inner.len() as int]);
    assert(tokens.subrange(pos + 2, pos + 2 + inner.len()) == inner) by {
        assert forall|k: int| 0 <= k < inner.len() implies tokens[pos + 2 + k] == inner[k] by {
            assert(tokens[pos + 2 + k] == written[2 + k]);
        }
    }
    lemma_args_tokens_are_read(tokens, pos + 2, call.args);
}

/// Where the tokens that write arguments stand at `pos`, with a closing
/// parenthesis behind them, those arguments are parsed there.
pub proof fn lemma_args_tokens_are_read(
    tokens: Seq<TokenValueView>,
    pos: int,
    args: Seq<ExprView>,
)
    requires
        0 <= pos,
        pos + args_tokens(args).len() < tokens.len(),
        tokens.subrange(pos, pos + args_tokens(args).len()) == args_tokens(args),
        tokens[pos + args_tokens(args).len()] is RoundClose,
    ensures
        args_at(tokens, pos) == Ok::<(Seq<ExprView>, int), ParseErrorView>(
            (args, pos + args_tokens(args).len() + 1),
        ),
    decreases args_tokens(args).len(), 2int,
{
    let written = args_tokens(args);
    if args.len() == 0 {
        assert(args == Seq::<ExprView>::empty());
    } else {
        let first = expr_tokens(args.first());
        let others = args_tokens(args.drop_first());
        lemma_expr_tokens_start(args.first());
        assert(tokens.subrange(pos, pos + first.len()) == first) by {
            assert forall|k: int| 0 <= k < first.len() implies tokens[pos + k] == first[k] by {
                assert(tokens[pos + k] == written[k]);
            }
        }
        assert(tokens.subrange(pos + first.len(), pos + first.len() + others.len()) == others) by {
            assert forall|k: int| 0 <= k < others.len() implies tokens[pos + first.len() + k]
                == others[k] by {
                assert(tokens[pos + first.len() + k] == written[first.len() as int + k]);
            }
        }
        if args.drop_first().len() > 0 {
            lemma_expr_tokens_start(args.drop_first().first());
            assert(tokens[pos + first.len()] == written[first.len() as int]);
        }
        lemma_expr_tokens_are_read(tokens, pos, args.first());
        lemma_args_tokens_are_read(tokens, pos + first.len(), args.drop_first());
        assert(seq![args.first()] + args.drop_first() == args);
    }
}

/// Where the tokens that write an expression stand at `pos`, and no opening
/// parenthesis follows them, that expression is parsed there.
pub proof fn lemma_expr_tokens_are_read(tokens: Seq<TokenValueView>, pos: int, expr: ExprView)
    requires
        0 <= pos,
        pos + expr_tokens(expr).len() <= tokens.len(),
        tokens.subrange(pos, pos + expr_tokens(expr).len()) == expr_tokens(expr),
        pos + expr_tokens(expr).len() < tokens.len() ==> !(tokens[pos + expr_tokens(expr).len()]
            is RoundOpen),
    ensures
        expr_at(tokens, pos) == Ok::<(ExprView, int), ParseErrorView>(
            (expr, pos + expr_tokens(expr).len()),
        ),
    decreases expr_tokens(expr).len(), 1int,
{
    lemma_expr_tokens_start(expr);
    if let ExprView::Call(call) = expr {
        lemma_call_tokens_are_read(tokens, pos, call);
    }
}

/// Where the tokens that write statements stand from `pos` to the end, those
/// statements are parsed there.
pub proof fn lemma_statements_tokens_are_read(
    tokens: Seq<TokenValueView>,
    pos: int,
    statements: Seq<StatementView>,
)
    requires
        0 <= pos <= tokens.len(),
        tokens.subrange(pos, tokens.len() as int) == statements_tokens(statements),
    ensures
        statements_from(tokens, pos) == Ok::<Seq<StatementView>, ParseErrorView>(statements),
    decreases statements.len(),
{
    let written = statements_tokens(statements);
    if statements.len() == 0 {
        assert(statements == Seq::<StatementView>::empty());
    } else {
        let call = statements.first()->Call_0;
        let first = call_tokens(call);
        let others = statements_tokens(statements.drop_first());
        let n = first.len() as int;
        let next = pos + n + 1;
        assert(written == first + seq![TokenValueView::Semicolon] + others);
        assert(tokens.subrange(pos, pos + n) == first) by {
            assert forall|k: int| 0 <= k < n implies tokens[pos + k] == first[k] by {
                assert(tokens[pos + k] == written[k]);
            }
        }
        assert(tokens[pos] == written[0]);
        assert(tokens[pos + n] == written[n]);
        assert(tokens.subrange(next, tokens.len() as int) == others) by {
            assert forall|k: int| 0 <= k < others.len() implies tokens[next + k] == others[k] by {
                assert(tokens[next + k] == written[n + 1 + k]);
            }
        }
        lemma_call_tokens_are_read(tokens, pos, call);
        lemma_statements_tokens_are_read(tokens, next, statements.drop_first());
        assert(seq![statements.first()] + statements.drop_first() == statements);
    }
}

/// What is parsed from tokens is written by exactly those tokens: nothing is
/// skipped, added or reordered.
pub proof fn law_parsed_program_is_written_by_its_tokens(tokens: Seq<TokenValueView>)
    ensures
        program_of(tokens) matches Ok(program) ==> program_tokens(program) == tokens,
{
    lemma_statements_from_reads_statements_tokens(tokens, 0);
}

/// The tokens that write a program parse, and to that very program: every
/// program has a text, and the grammar is not ambiguous.
pub proof fn law_program_tokens_parse_to_the_program(program: ProgramView)
    ensures
        program_of(program_tokens(program)) == Ok::<ProgramView, ParseErrorView>(program),
{
    let tokens = program_tokens(program);
    assert(tokens.subrange(0, tokens.len() as int) == tokens);
    lemma_statements_tokens_are_read(tokens, 0, program.statements);
}

/// A closing parenthesis that is missing shows as the end of the tokens or as
/// a token that starts no expression: no call, argument list or expression
/// fails with `MissingCloseParen`.
pub proof fn lemma_close_paren_is_never_missed(tokens: Seq<TokenValueView>, pos: int)
    ensures
        call_at(tokens, pos) != Err::<(FunctionCallView, int), ParseErrorView>(
            ParseErrorView::MissingCloseParen,
        ),
        args_at(tokens, pos) != Err::<(Seq<ExprView>, int), ParseErrorView>(
            ParseErrorView::MissingCloseParen,
        ),
        expr_at(tokens, pos) != Err::<(ExprView, int), ParseErrorView>(
            ParseErrorView::MissingCloseParen,
        ),
    decreases tokens.len() - pos,
{
    if 0 <= pos < tokens.len() {
        if pos + 1 < tokens.len() {
            lemma_close_paren_is_never_missed(tokens, pos + 2);
        }
        lemma_expr_advances(tokens, pos);
        if let Ok((_, next)) = expr_at(tokens, pos) {
            lemma_close_paren_is_never_missed(tokens, next);
        }
    }
}

/// No sequence of tokens fails to parse with `MissingCloseParen`.
pub proof fn law_close_paren_is_never_missed(tokens: Seq<TokenValueView>, pos: int)
    ensures
        program_from(tokens, pos) != Err::<ProgramView, ParseErrorView>(
            ParseErrorView::MissingCloseParen,
        ),
    decreases tokens.len() - pos,
{
    if 0 <= pos < tokens.len() {
        lemma_close_paren_is_never_missed(tokens, pos);
        lemma_statement_advances(tokens, pos);
        if let Ok((_, next)) = statement_at(tokens, pos) {
            law_close_paren_is_never_missed(tokens, next);
        }
    }
}

} // verus!
