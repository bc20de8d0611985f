//! The parser: recursive descent over the tokens of a [`Lexer`], with the
//! current token and the one after it in view.

use crate::ast::{
    statements_of, BinaryOperator, Expression, Identifier, Program, SpecExpression,
    SpecIdentifier, SpecProgram, SpecStatement, Statement,
};
use crate::lexer::{
    lemma_after_token_reads, lemma_after_token_wf, Lexer, LexerState, SpecToken,
    SpecTokenWithMeta, Token, TokenWithMeta,
};
use crate::text::{decimal, push_decimal};
use vstd::prelude::*;
use vstd::string::*;

verus! {

/// The message for a token that the grammar does not allow where it stands:
/// the row and column at which the token starts, what was expected, and the
/// token that was found.
pub open spec fn error_text(expected: Seq<char>, found: SpecTokenWithMeta) -> Seq<char> {
    "["@ + decimal(found.row) + ":"@ + decimal(found.col) + "] expected "@ + expected + ", got "@
        + found.token.text()
}

/// What a rule of the grammar made of the tokens from the current one on:
/// the node or the message, and how many times it moved on to the next token.
pub struct Parsed<T> {
    pub outcome: Result<T, Seq<char>>,
    pub advances: nat,
}

/// What the parser made of a whole input.
pub struct ProgramRun {
    /// The statements that were parsed, in their order.
    pub statements: Seq<SpecStatement>,
    /// The messages for the statements that were not, in their order.
    pub errors: Seq<Seq<char>>,
    /// How many times the parser moved on to the next token.
    pub advances: nat,
}

impl ProgramRun {
    /// The run that goes on as `self` after it has gathered `statements` and
    /// `errors` over `advances` tokens.
    pub open spec fn after(
        self,
        statements: Seq<SpecStatement>,
        errors: Seq<Seq<char>>,
        advances: nat,
    ) -> ProgramRun {
        ProgramRun {
            statements: statements + self.statements,
            errors: errors + self.errors,
            advances: advances + self.advances,
        }
    }

    /// A run that goes on after one that goes on after another goes on after
    /// both.
    pub proof fn lemma_after_after(
        self,
        statements: Seq<SpecStatement>,
        errors: Seq<Seq<char>>,
        advances: nat,
        earlier_statements: Seq<SpecStatement>,
        earlier_errors: Seq<Seq<char>>,
        earlier_advances: nat,
    )
        ensures
            self.after(statements, errors, advances).after(
                earlier_statements,
                earlier_errors,
                earlier_advances,
            ) == self.after(
                earlier_statements + statements,
                earlier_errors + errors,
                earlier_advances + advances,
            ),
    {
        assert(earlier_statements + (statements + self.statements) =~= (earlier_statements
            + statements) + self.statements);
        assert(earlier_errors + (errors + self.errors) =~= (earlier_errors + errors)
            + self.errors);
    }

    /// A run that goes on after nothing is that run.
    pub proof fn lemma_joins_empty(self)
        ensures
            self.after(Seq::empty(), Seq::empty(), 0) == self,
    {
        assert(Seq::<SpecStatement>::empty() + self.statements =~= self.statements);
        assert(Seq::<Seq<char>>::empty() + self.errors =~= self.errors);
    }
}

/// The state of a parser: the tokenizer, and the two tokens taken from it
/// last.
pub struct ParserState {
    pub lexer: LexerState,
    pub cur: SpecTokenWithMeta,
    pub peek: SpecTokenWithMeta,
}

/// 1 for a token that is not the end marker, 0 for the end marker.
pub open spec fn weight(token: SpecToken) -> nat {
    if token == SpecToken::EOF {
        0
    } else {
        1
    }
}

impl ParserState {
    /// The state of a parser that has taken its first two tokens from a
    /// tokenizer in the state `lexer`.
    pub open spec fn start(lexer: LexerState) -> ParserState {
        ParserState {
            cur: lexer.next_token(),
            peek: lexer.after_token().next_token(),
            lexer: lexer.after_token().after_token(),
        }
    }

    /// The invariant of a parser's state is that of its tokenizer.
    pub open spec fn wf(self) -> bool {
        self.lexer.wf()
    }

    /// The state after the parser moves on by one token: the token after the
    /// current one becomes the current one, and the next token of the
    /// tokenizer takes its place.
    pub open spec fn advance(self) -> ParserState {
        ParserState {
            cur: self.peek,
            peek: self.lexer.next_token(),
            lexer: self.lexer.after_token(),
        }
    }

    /// The state after the parser moves on by `n` tokens.
    pub open spec fn advance_n(self, n: nat) -> ParserState
        decreases n,
    {
        if n == 0 {
            self
        } else {
            self.advance().advance_n((n - 1) as nat)
        }
    }

    /// A bound on the tokens other than the end marker that the parser can
    /// still pass: the characters that the tokenizer has not read, and one
    /// for each of the two tokens in view that is not the end marker.
    pub open spec fn budget(self) -> nat {
        self.lexer.unread() + weight(self.peek.token) + weight(self.cur.token)
    }
}

/// Moving on never raises the budget, and lowers it where the current token
/// is not the end marker.
pub proof fn lemma_advance_budget(state: ParserState)
    ensures
        state.advance().budget() + weight(state.cur.token) <= state.budget(),
        state.wf() ==> state.advance().wf(),
{
    lemma_after_token_reads(state.lexer);
    if state.wf() {
        lemma_after_token_wf(state.lexer);
    }
}

/// The same of moving on by `n` tokens.
pub proof fn lemma_advance_n_budget(state: ParserState, n: nat)
    ensures
        state.advance_n(n).budget() <= state.budget(),
        n >= 1 ==> state.advance_n(n).budget() + weight(state.cur.token) <= state.budget(),
        state.wf() ==> state.advance_n(n).wf(),
    decreases n,
{
    if n > 0 {
        lemma_advance_budget(state);
        lemma_advance_n_budget(state.advance(), (n - 1) as nat);
    }
}

/// Moving on by `a` tokens and then by `b` more is moving on by `a + b`.
pub proof fn lemma_advance_n_add(state: ParserState, a: nat, b: nat)
    ensures
        state.advance_n(a).advance_n(b) == state.advance_n(a + b),
    decreases a,
{
    if a > 0 {
        lemma_advance_n_add(state.advance(), (a - 1) as nat, b);
    }
}

/// Moving on once more after `n` tokens is moving on by `n + 1`.
pub proof fn lemma_advance_n_step(state: ParserState, n: nat)
    ensures
        state.advance_n(n).advance() == state.advance_n(n + 1),
{
    let after = state.advance_n(n);
    assert(after.advance_n(1) == after.advance()) by {
        assert(after.advance().advance_n(0) == after.advance());
    }
    lemma_advance_n_add(state, n, 1);
}

/// A parser that started on a tokenizer in the state `lexer` and has moved
/// on by `n` tokens has in view the tokens that the tokenizer handed out after
/// `n` and `n + 1` others, and has taken `n + 2` tokens from it.
pub proof fn lemma_parser_tokens(lexer: LexerState, n: nat)
    ensures
        ParserState::start(lexer).advance_n(n) == (ParserState {
            cur: lexer.token(n),
            peek: lexer.token(n + 1),
            lexer: lexer.after_tokens(n + 2),
        }),
    decreases n,
{
    let next = lexer.after_token();
    assert(lexer.after_tokens(0) == lexer);
    assert(lexer.after_tokens(1) == next) by {
        assert(next.after_tokens(0) == next);
    }
    assert(lexer.after_tokens(2) == next.after_token()) by {
        assert(next.after_tokens(1) == next.after_token()) by {
            assert(next.after_token().after_tokens(0) == next.after_token());
        }
    }
    if n > 0 {
        assert(ParserState::start(lexer).advance() == ParserState::start(next));
        lemma_parser_tokens(next, (n - 1) as nat);
    }
}

impl ParserState {
    /// Asks that the current token is `token`.
    pub open spec fn expect(self, token: SpecToken) -> Result<bool, Seq<char>> {
        if self.cur.token == token {
            Ok(true)
        } else {
            Err(error_text(token.text(), self.cur))
        }
    }

    /// The name to bind: the current token has to be an identifier.
    pub open spec fn parse_identifier(self) -> Result<SpecIdentifier, Seq<char>> {
        match self.cur.token {
            SpecToken::IDENT(name) => Ok(SpecIdentifier { name }),
            _ => Err(error_text("IDENT"@, self.cur)),
        }
    }

    /// The operator of a binary expression: `+` or `-`.
    pub open spec fn parse_operator(self) -> Result<BinaryOperator, Seq<char>> {
        match self.cur.token {
            SpecToken::PLUS => Ok(BinaryOperator::Add),
            SpecToken::MINUS => Ok(BinaryOperator::Subtract),
            _ => Err(error_text("operator"@, self.cur)),
        }
    }

    /// An atomic expression: the current token has to be an integer literal
    /// or an identifier.
    pub open spec fn parse_expression_unary(self) -> Result<SpecExpression, Seq<char>> {
        match self.cur.token {
            SpecToken::INT(value) => Ok(SpecExpression::IntLiteral(value)),
            SpecToken::IDENT(name) => Ok(SpecExpression::Variable(name)),
            _ => Err(error_text("unary expression"@, self.cur)),
        }
    }

    /// An expression. An opening bracket as the current token starts a
    /// grouped expression. Otherwise the token after the current one decides:
    /// `+` or `-` makes a binary expression, `;` or `)` an atomic one, and
    /// anything else is an error.
    pub open spec fn parse_expression(self) -> Parsed<SpecExpression>
        decreases self.budget(), 1nat,
    {
        if self.cur.token == SpecToken::LPAREN {
            self.parse_expression_grouped()
        } else if self.peek.token == SpecToken::PLUS || self.peek.token == SpecToken::MINUS {
            self.parse_expression_binary()
        } else if self.peek.token == SpecToken::SEMICOLON || self.peek.token
            == SpecToken::RPAREN {
            Parsed { outcome: self.parse_expression_unary(), advances: 0 }
        } else {
            Parsed {
                outcome: Err(error_text("binary or unary expression"@, self.cur)),
                advances: 0,
            }
        }
    }

    /// A binary expression: an atomic expression, an operator, and a whole
    /// expression to its right, so that a chain of operators groups to the
    /// right.
    pub open spec fn parse_expression_binary(self) -> Parsed<SpecExpression>
        decreases self.budget(), 0nat,
    {
        match self.parse_expression_unary() {
            Err(message) => Parsed { outcome: Err(message), advances: 0 },
            Ok(left) => match self.advance_n(1).parse_operator() {
                Err(message) => Parsed { outcome: Err(message), advances: 1 },
                Ok(operator) => {
                    proof {
                        lemma_advance_n_budget(self, 2);
                    }
                    let right = self.advance_n(2).parse_expression();
                    match right.outcome {
                        Err(message) => Parsed {
                            outcome: Err(message),
                            advances: 2 + right.advances,
                        },
                        Ok(expression) => Parsed {
                            outcome: Ok(
                                SpecExpression::Binary(
                                    operator,
                                    Box::new(left),
                                    Box::new(expression),
                                ),
                            ),
                            advances: 2 + right.advances,
                        },
                    }
                },
            },
        }
    }

    /// A grouped expression: an expression between `(` and `)`.
    pub open spec fn parse_expression_grouped(self) -> Parsed<SpecExpression>
        decreases self.budget(), 0nat,
    {
        match self.expect(SpecToken::LPAREN) {
            Err(message) => Parsed { outcome: Err(message), advances: 0 },
            Ok(_) => {
                proof {
                    lemma_advance_n_budget(self, 1);
                }
                let inner = self.advance_n(1).parse_expression();
                let advances = 2 + inner.advances;
                match inner.outcome {
                    Err(message) => Parsed { outcome: Err(message), advances: 1 + inner.advances },
                    Ok(expression) => match self.advance_n(advances).expect(SpecToken::RPAREN) {
                        Err(message) => Parsed { outcome: Err(message), advances },
                        Ok(_) => Parsed {
                            outcome: Ok(SpecExpression::Grouped(Box::new(expression))),
                            advances,
                        },
                    },
                }
            },
        }
    }
}

impl ParserState {
    /// A `let` statement: `let`, the name, `=`, and the expression.
    #[verifier::opaque]
    pub open spec fn parse_let(self) -> Parsed<SpecStatement> {
        if let Err(message) = self.expect(SpecToken::LET) {
            Parsed { outcome: Err(message), advances: 0 }
        } else {
            match self.advance_n(1).parse_identifier() {
                Err(message) => Parsed { outcome: Err(message), advances: 1 },
                Ok(identifier) => if let Err(message) = self.advance_n(2).expect(
                    SpecToken::ASSIGN,
                ) {
                    Parsed { outcome: Err(message), advances: 2 }
                } else {
                    let value = self.advance_n(3).parse_expression();
                    let advances = 3 + value.advances;
                    match value.outcome {
                        Err(message) => Parsed { outcome: Err(message), advances },
                        Ok(expression) => Parsed {
                            outcome: Ok(SpecStatement::Let(identifier, expression)),
                            advances,
                        },
                    }
                },
            }
        }
    }

    /// A `return` statement: `return` and the expression.
    #[verifier::opaque]
    pub open spec fn parse_statement_return(self) -> Parsed<SpecStatement> {
        if let Err(message) = self.expect(SpecToken::RETURN) {
            Parsed { outcome: Err(message), advances: 0 }
        } else {
            let value = self.advance_n(1).parse_expression();
            let advances = 1 + value.advances;
            match value.outcome {
                Err(message) => Parsed { outcome: Err(message), advances },
                Ok(expression) => Parsed {
                    outcome: Ok(SpecStatement::Return(expression)),
                    advances,
                },
            }
        }
    }

    /// An expression that stands as a statement.
    #[verifier::opaque]
    pub open spec fn parse_statement_expression(self) -> Parsed<SpecStatement> {
        let value = self.parse_expression();
        match value.outcome {
            Err(message) => Parsed { outcome: Err(message), advances: value.advances },
            Ok(expression) => Parsed {
                outcome: Ok(SpecStatement::Expression(expression)),
                advances: value.advances,
            },
        }
    }

    /// A statement: the current token chooses the rule, and the token behind
    /// what the rule has parsed has to be a semicolon, whatever the rule.
    pub open spec fn parse_statement(self) -> Parsed<SpecStatement>
        decreases self.budget(), 2nat,
    {
        let inner = match self.cur.token {
            SpecToken::LET => self.parse_let(),
            SpecToken::RETURN => self.parse_statement_return(),
            SpecToken::IF => self.parse_statement_if(),
            _ => self.parse_statement_expression(),
        };
        match inner.outcome {
            Err(message) => Parsed { outcome: Err(message), advances: inner.advances },
            Ok(statement) => {
                let advances = inner.advances + 1;
                if let Err(message) = self.advance_n(advances).expect(SpecToken::SEMICOLON) {
                    Parsed { outcome: Err(message), advances }
                } else {
                    Parsed { outcome: Ok(statement), advances }
                }
            },
        }
    }

    /// A branch of an `if` statement: one statement between `{` and `}`.
    pub open spec fn parse_branch(self) -> Parsed<SpecStatement>
        decreases self.budget(), 0nat,
    {
        if let Err(message) = self.expect(SpecToken::LBRACE) {
            Parsed { outcome: Err(message), advances: 0 }
        } else {
            proof {
                lemma_advance_n_budget(self, 1);
            }
            let inner = self.advance_n(1).parse_statement();
            let advances = 2 + inner.advances;
            match inner.outcome {
                Err(message) => Parsed { outcome: Err(message), advances: 1 + inner.advances },
                Ok(statement) => if let Err(message) = self.advance_n(advances).expect(
                    SpecToken::RBRACE,
                ) {
                    Parsed { outcome: Err(message), advances }
                } else {
                    Parsed { outcome: Ok(statement), advances }
                },
            }
        }
    }

    /// The condition of an `if` statement: `if` and an expression between
    /// `(` and `)`.
    #[verifier::opaque]
    pub open spec fn parse_condition(self) -> Parsed<SpecExpression> {
        if let Err(message) = self.expect(SpecToken::IF) {
            Parsed { outcome: Err(message), advances: 0 }
        } else if let Err(message) = self.advance_n(1).expect(SpecToken::LPAREN) {
            Parsed { outcome: Err(message), advances: 1 }
        } else {
            let condition = self.advance_n(2).parse_expression();
            let advances = 3 + condition.advances;
            match condition.outcome {
                Err(message) => Parsed {
                    outcome: Err(message),
                    advances: 2 + condition.advances,
                },
                Ok(expression) => if let Err(message) = self.advance_n(advances).expect(
                    SpecToken::RPAREN,
                ) {
                    Parsed { outcome: Err(message), advances }
                } else {
                    Parsed { outcome: Ok(expression), advances }
                },
            }
        }
    }

    /// An `if` statement: the condition, a branch, `else`, and a branch. The
    /// `else` has to be there.
    pub open spec fn parse_statement_if(self) -> Parsed<SpecStatement>
        decreases self.budget(), 1nat,
    {
        let condition = self.parse_condition();
        match condition.outcome {
            Err(message) => Parsed { outcome: Err(message), advances: condition.advances },
            Ok(expression) => {
                let a = condition.advances + 1;
                proof {
                    lemma_advance_n_budget(self, a);
                }
                let then_branch = self.advance_n(a).parse_branch();
                let b = a + then_branch.advances + 1;
                match then_branch.outcome {
                    Err(message) => Parsed {
                        outcome: Err(message),
                        advances: a + then_branch.advances,
                    },
                    Ok(first) => if let Err(message) = self.advance_n(b).expect(SpecToken::ELSE) {
                        Parsed { outcome: Err(message), advances: b }
                    } else {
                        proof {
                            lemma_advance_n_budget(self, b + 1);
                        }
                        let else_branch = self.advance_n(b + 1).parse_branch();
                        let advances = b + 1 + else_branch.advances;
                        match else_branch.outcome {
                            Err(message) => Parsed { outcome: Err(message), advances },
                            Ok(second) => Parsed {
                                outcome: Ok(
                                    SpecStatement::If(
                                        expression,
                                        Box::new(first),
                                        Box::new(second),
                                    ),
                                ),
                                advances,
                            },
                        }
                    },
                }
            },
        }
    }

    /// How many tokens the parser passes to get behind a statement that it
    /// could not parse: those up to the next semicolon or end marker, and
    /// that one too.
    pub open spec fn skip_statement(self) -> nat
        decreases self.budget(),
    {
        if self.cur.token != SpecToken::SEMICOLON && self.cur.token != SpecToken::EOF {
            proof {
                lemma_advance_budget(self);
            }
            1 + self.advance().skip_statement()
        } else {
            1
        }
    }

    /// How many tokens the parser passes for one statement and what follows
    /// it: the semicolon after a statement that it could parse, the tokens
    /// that it skips after one that it could not.
    pub open spec fn step(self) -> nat {
        let statement = self.parse_statement();
        match statement.outcome {
            Ok(_) => statement.advances + 1,
            Err(_) => statement.advances + self.advance_n(statement.advances).skip_statement(),
        }
    }

    /// The statements and the messages that the parser gathers up to the
    /// first end marker. After a statement it moves on behind the semicolon;
    /// after an error it skips to behind the next semicolon or end marker
    /// and goes on from there.
    pub open spec fn run(self) -> ProgramRun
        decreases self.budget(),
    {
        if self.cur.token == SpecToken::EOF {
            ProgramRun { statements: Seq::empty(), errors: Seq::empty(), advances: 0 }
        } else {
            proof {
                lemma_advance_n_budget(self, self.step());
            }
            let rest = self.advance_n(self.step()).run();
            match self.parse_statement().outcome {
                Ok(parsed) => rest.after(seq![parsed], Seq::empty(), self.step()),
                Err(message) => rest.after(Seq::empty(), seq![message], self.step()),
            }
        }
    }

    /// The program, where every statement up to the first end marker could
    /// be parsed; all the messages otherwise.
    pub open spec fn parse_program(self) -> Result<SpecProgram, Seq<Seq<char>>> {
        let run = self.run();
        if run.errors.len() == 0 {
            Ok(SpecProgram { statements: run.statements })
        } else {
            Err(run.errors)
        }
    }
}

/// Every statement ends with a semicolon, an `if` statement too: where a
/// statement could be parsed, the parser stands on the semicolon behind it.
pub proof fn lemma_statement_ends_with_semicolon(state: ParserState)
    requires
        state.parse_statement().outcome is Ok,
    ensures
        state.parse_statement().advances >= 1,
        state.advance_n(state.parse_statement().advances).cur.token == SpecToken::SEMICOLON,
{
}

/// An `if` statement has both of its branches: it could not be parsed if
/// `else` did not stand behind the first one.
pub proof fn lemma_if_has_else(state: ParserState)
    requires
        state.parse_statement_if().outcome is Ok,
    ensures
        state.parse_statement_if().outcome->Ok_0 is If,
        ({
            let condition = state.parse_condition().advances;
            let first = state.advance_n(condition + 1).parse_branch().advances;
            state.advance_n(condition + first + 2).cur.token == SpecToken::ELSE
        }),
{
}

/// After an error the parser goes on behind the end of the statement: the
/// last token that it skips is the first semicolon or end marker from the
/// current token on.
pub proof fn lemma_skip_statement(state: ParserState)
    ensures
        state.skip_statement() >= 1,
        ({
            let last = state.advance_n((state.skip_statement() - 1) as nat).cur.token;
            last == SpecToken::SEMICOLON || last == SpecToken::EOF
        }),
        forall|k: nat|
            k + 1 < state.skip_statement() ==> {
                let skipped = (#[trigger] state.advance_n(k)).cur.token;
                skipped != SpecToken::SEMICOLON && skipped != SpecToken::EOF
            },
    decreases state.budget(),
{
    assert(state.advance_n(0) == state);
    if state.cur.token != SpecToken::SEMICOLON && state.cur.token != SpecToken::EOF {
        let next = state.advance();
        lemma_advance_budget(state);
        lemma_skip_statement(next);
        assert forall|k: nat| k + 1 < state.skip_statement() implies {
            let skipped = (#[trigger] state.advance_n(k)).cur.token;
            skipped != SpecToken::SEMICOLON && skipped != SpecToken::EOF
        } by {
            if k > 0 {
                assert(state.advance_n(k) == next.advance_n((k - 1) as nat));
            }
        }
        assert(state.advance_n((state.skip_statement() - 1) as nat) == next.advance_n(
            (next.skip_statement() - 1) as nat,
        ));
    }
}

/// Whether `token` ends a statement for the parser that goes on after an
/// error: a semicolon or the end marker.
pub open spec fn ends_statement(token: SpecToken) -> bool {
    token == SpecToken::SEMICOLON || token == SpecToken::EOF
}

/// After an error the parser passes the tokens up to the first semicolon or
/// end marker from the current token on, and that one too, and no more:
/// where `k` tokens stand before the first one that ends a statement, it
/// moves on by `k + 1`.
pub proof fn lemma_skip_statement_count(state: ParserState, k: nat)
    requires
        ends_statement(state.advance_n(k).cur.token),
        forall|j: nat| j < k ==> !ends_statement((#[trigger] state.advance_n(j)).cur.token),
    ensures
        state.skip_statement() == k + 1,
    decreases k,
{
    assert(state.advance_n(0) == state);
    if k > 0 {
        let next = state.advance();
        assert(!ends_statement(state.advance_n(0).cur.token));
        assert(next.advance_n((k - 1) as nat) == state.advance_n(k));
        assert forall|j: nat| j < k - 1 implies !ends_statement(
            (#[trigger] next.advance_n(j)).cur.token,
        ) by {
            assert(next.advance_n(j) == state.advance_n(j + 1));
        }
        lemma_skip_statement_count(next, (k - 1) as nat);
    }
}

/// The `else` of an `if` statement has to be there. Where the condition and
/// the first branch could be parsed and another token stands behind the
/// branch, the end marker too, the statement is not parsed: the message
/// says that `else` was expected and names the token that stands there.
pub proof fn lemma_if_without_else(state: ParserState)
    requires
        state.parse_condition().outcome is Ok,
        state.advance_n(state.parse_condition().advances + 1).parse_branch().outcome is Ok,
        ({
            let a = state.parse_condition().advances + 1;
            let b = a + state.advance_n(a).parse_branch().advances + 1;
            state.advance_n(b).cur.token != SpecToken::ELSE
        }),
    ensures
        ({
            let a = state.parse_condition().advances + 1;
            let b = a + state.advance_n(a).parse_branch().advances + 1;
            state.parse_statement_if() == (Parsed::<SpecStatement> {
                outcome: Err(error_text("ELSE"@, state.advance_n(b).cur)),
                advances: b,
            })
        }),
{
}

/// A round of the parser passes at least one token.
pub proof fn lemma_step(state: ParserState)
    ensures
        state.step() >= 1,
{
}

/// One round of the parser, seen from the run that it belongs to: a run that
/// has gathered `statements` and `errors` and stands before a token other
/// than the end marker goes on with one more statement or one more message.
pub proof fn lemma_run_step(
    state: ParserState,
    statements: Seq<SpecStatement>,
    errors: Seq<Seq<char>>,
    advances: nat,
)
    requires
        state.cur.token != SpecToken::EOF,
    ensures
        state.run().after(statements, errors, advances) == (match state.parse_statement().outcome {
            Ok(parsed) => state.advance_n(state.step()).run().after(
                statements.push(parsed),
                errors,
                advances + state.step(),
            ),
            Err(message) => state.advance_n(state.step()).run().after(
                statements,
                errors.push(message),
                advances + state.step(),
            ),
        }),
{
    let rest = state.advance_n(state.step()).run();
    match state.parse_statement().outcome {
        Ok(parsed) => {
            rest.lemma_after_after(
                seq![parsed],
                Seq::empty(),
                state.step(),
                statements,
                errors,
                advances,
            );
            assert(statements + seq![parsed] =~= statements.push(parsed));
            assert(errors + Seq::<Seq<char>>::empty() =~= errors);
        },
        Err(message) => {
            rest.lemma_after_after(
                Seq::empty(),
                seq![message],
                state.step(),
                statements,
                errors,
                advances,
            );
            assert(errors + seq![message] =~= errors.push(message));
            assert(statements + Seq::<SpecStatement>::empty() =~= statements);
        },
    }
}

/// What a result of the parser stands for: the value of the node, or the
/// characters of the message.
pub open spec fn outcome_of<T: View>(result: Result<T, String>) -> Result<T::V, Seq<char>> {
    match result {
        Ok(node) => Ok(node@),
        Err(message) => Err(message@),
    }
}

/// The messages of a list of messages.
pub open spec fn messages_of(errors: Seq<String>) -> Seq<Seq<char>> {
    errors.map_values(|message: String| message@)
}

/// What the result of parsing a program stands for.
pub open spec fn program_outcome_of(result: Result<Program, Vec<String>>) -> Result<
    SpecProgram,
    Seq<Seq<char>>,
> {
    match result {
        Ok(program) => Ok(program@),
        Err(errors) => Err(messages_of(errors@)),
    }
}

/// The message for `token`, found where `expected` had to stand.
fn format_error(expected: &str, token: &TokenWithMeta) -> (message: String)
    ensures
        message@ == error_text(expected@, token@),
{
    let mut message = "[".to_owned();
    push_decimal(&mut message, token.row_pos as u64);
    message.append(":");
    push_decimal(&mut message, token.col_pos as u64);
    message.append("] expected ");
    message.append(expected);
    message.append(", got ");
    message.append(token.token.to_string().as_str());
    message
}

/// A parser over the tokens of a tokenizer.
pub struct Parser<'a> {
    lexer: &'a mut Lexer<'a>,
    cur_token: TokenWithMeta,
    peek_token: TokenWithMeta,
}

impl<'a> View for Parser<'a> {
    type V = ParserState;

    closed spec fn view(&self) -> ParserState {
        ParserState { lexer: self.lexer@, cur: self.cur_token@, peek: self.peek_token@ }
    }
}

impl<'a> Parser<'a> {
    /// The tokenizer that the parser draws from is in order.
    pub closed spec fn coherent(&self) -> bool {
        self.lexer.coherent()
    }

    /// The invariant of a parser.
    pub open spec fn wf(&self) -> bool {
        &&& self@.wf()
        &&& self.coherent()
    }

    /// A parser that has taken its first two tokens from `lexer`.
    pub fn new(lexer: &'a mut Lexer<'a>) -> (parser: Self)
        requires
            old(lexer).wf(),
        ensures
            parser.wf(),
            parser@ == ParserState::start(old(lexer)@),
    {
        let cur_token = lexer.next_token();
        let peek_token = lexer.next_token();
        Parser { lexer, cur_token, peek_token }
    }

    /// Parses statements up to the first end marker. Hands out the program
    /// if every one of them could be parsed, and otherwise the messages for
    /// those that could not, in their order, and nothing of the program.
    pub fn parse_program(&mut self) -> (result: Result<Program, Vec<String>>)
        requires
            old(self).wf(),
        ensures
            final(self).wf(),
            program_outcome_of(result) == old(self)@.parse_program(),
            final(self)@ == old(self)@.advance_n(old(self)@.run().advances),
            final(self)@.cur.token == SpecToken::EOF,
    {
        let ghost start = self@;
        let ghost mut advances: nat = 0;
        let mut statements: Vec<Statement> = Vec::new();
        let mut errors: Vec<String> = Vec::new();
        proof {
            assert(statements_of(statements@) =~= Seq::<SpecStatement>::empty());
            assert(messages_of(errors@) =~= Seq::<Seq<char>>::empty());
            start.run().lemma_joins_empty();
        }
        while self.cur_token.token != Token::EOF
            invariant
                self.wf(),
                self@ == start.advance_n(advances),
                start.run() == self@.run().after(
                    statements_of(statements@),
                    messages_of(errors@),
                    advances,
                ),
            decreases self@.budget(),
        {
            let ghost before = self@;
            let ghost parsed = statements_of(statements@);
            let ghost gathered = messages_of(errors@);
            proof {
                lemma_run_step(before, parsed, gathered, advances);
                lemma_step(before);
                lemma_advance_n_add(start, advances, before.step());
                lemma_advance_n_budget(before, before.step());
            }
            match self.parse_statement() {
                Ok(statement) => {
                    proof {
                        lemma_advance_n_step(before, before.parse_statement().advances);
                    }
                    statements.push(statement);
                    self.advance_tokens();
                    assert(statements_of(statements@) =~= parsed.push(statement@));
                },
                Err(message) => {
                    proof {
                        let passed = before.parse_statement().advances;
                        lemma_advance_n_add(
                            before,
                            passed,
                            before.advance_n(passed).skip_statement(),
                        );
                    }
                    errors.push(message);
                    self.skip_statement();
                    assert(messages_of(errors@) =~= gathered.push(message@));
                },
            };
            proof {
                advances = advances + before.step();
            }
        }
        proof {
            self@.run().lemma_joins_empty();
            assert(self@.run().after(statements_of(statements@), messages_of(errors@), advances)
                == ProgramRun {
                statements: statements_of(statements@),
                errors: messages_of(errors@),
                advances,
            }) by {
                assert(statements_of(statements@) + Seq::<SpecStatement>::empty()
                    =~= statements_of(statements@));
                assert(messages_of(errors@) + Seq::<Seq<char>>::empty() =~= messages_of(
                    errors@,
                ));
            }
        }
        if errors.len() == 0 {
            Ok(Program { statements })
        } else {
            Err(errors)
        }
    }

    /// Moves on to behind the next semicolon or end marker.
    fn skip_statement(&mut self)
        requires
            old(self).wf(),
        ensures
            final(self).wf(),
            final(self)@ == old(self)@.advance_n(old(self)@.skip_statement()),
    {
        let ghost start = self@;
        let ghost mut advances: nat = 0;
        while self.cur_token.token != Token::SEMICOLON && self.cur_token.token != Token::EOF
            invariant
                self.wf(),
                self@ == start.advance_n(advances),
                start.skip_statement() == advances + self@.skip_statement(),
            decreases self@.budget(),
        {
            proof {
                lemma_advance_budget(self@);
                lemma_advance_n_step(start, advances);
                advances = advances + 1;
            }
            self.advance_tokens();
        }
        proof {
            lemma_advance_n_step(start, advances);
        }
        self.advance_tokens();
    }

    /// Moves on by one token.
    fn advance_tokens(&mut self)
        requires
            old(self).wf(),
        ensures
            final(self).wf(),
            final(self)@ == old(self)@.advance(),
    {
        proof {
            lemma_after_token_wf(self@.lexer);
        }
        self.cur_token = self.peek_token.clone();
        self.peek_token = self.lexer.next_token();
    }

    /// Asks that the current token is `token`.
    fn check_cur_token(&self, token: Token) -> (result: Result<bool, String>)
        ensures
            outcome_of(result) == self@.expect(token@),
    {
        if self.cur_token.token == token {
            Ok(true)
        } else {
            Err(format_error(token.to_string().as_str(), &self.cur_token))
        }
    }

    /// Parses a statement and the semicolon behind it.
    fn parse_statement(&mut self) -> (result: Result<Statement, String>)
        requires
            old(self).wf(),
        ensures
            final(self).wf(),
            outcome_of(result) == old(self)@.parse_statement().outcome,
            final(self)@ == old(self)@.advance_n(old(self)@.parse_statement().advances),
        decreases old(self)@.budget(), 2nat,
    {
        let ghost start = self@;
        let inner = match self.cur_token.token {
            Token::LET => self.parse_let(),
            Token::RETURN => self.parse_statement_return(),
            Token::IF => self.parse_statement_if(),
            _ => self.parse_statement_expression(),
        };
        let statement = match inner {
            Ok(statement) => statement,
            Err(message) => {
                return Err(message);
            },
        };
        proof {
            lemma_advance_n_step(start, (start.parse_statement().advances - 1) as nat);
        }
        self.advance_tokens();
        if let Err(message) = self.check_cur_token(Token::SEMICOLON) {
            return Err(message);
        }
        Ok(statement)
    }

    /// Parses a `let` statement.
    fn parse_let(&mut self) -> (result: Result<Statement, String>)
        requires
            old(self).wf(),
        ensures
            final(self).wf(),
            outcome_of(result) == old(self)@.parse_let().outcome,
            final(self)@ == old(self)@.advance_n(old(self)@.parse_let().advances),
    {
        proof {
            reveal(ParserState::parse_let);
        }
        let ghost start = self@;
        if let Err(message) = self.check_cur_token(Token::LET) {
            return Err(message);
        }
        proof {
            lemma_advance_n_step(start, 0);
        }
        self.advance_tokens();
        let ident = match self.parse_identifier() {
            Ok(ident) => ident,
            Err(message) => {
                return Err(message);
            },
        };

        proof {
            lemma_advance_n_step(start, 1);
        }
        self.advance_tokens();
        if let Err(message) = self.check_cur_token(Token::ASSIGN) {
            return Err(message);
        }
        proof {
            lemma_advance_n_step(start, 2);
        }
        self.advance_tokens();
        let value = self.parse_expression();
        proof {
            lemma_advance_n_add(start, 3, start.advance_n(3).parse_expression().advances);
        }
        match value {
            Ok(expr) => Ok(Statement::Let(ident, expr)),
            Err(message) => Err(message),
        }
    }

    /// Parses a `return` statement.
    fn parse_statement_return(&mut self) -> (result: Result<Statement, String>)
        requires
            old(self).wf(),
        ensures
            final(self).wf(),
            outcome_of(result) == old(self)@.parse_statement_return().outcome,
            final(self)@ == old(self)@.advance_n(old(self)@.parse_statement_return().advances),
    {
        proof {
            reveal(ParserState::parse_statement_return);
        }
        let ghost start = self@;
        if let Err(message) = self.check_cur_token(Token::RETURN) {
            return Err(message);
        }
        proof {
            lemma_advance_n_step(start, 0);
        }
        self.advance_tokens();
        let value = self.parse_expression();
        proof {
            lemma_advance_n_add(start, 1, start.advance_n(1).parse_expression().advances);
        }
        match value {
            Ok(expr) => Ok(Statement::Return(expr)),
            Err(message) => Err(message),
        }
    }

    /// Parses an expression that stands as a statement.
    fn parse_statement_expression(&mut self) -> (result: Result<Statement, String>)
        requires
            old(self).wf(),
        ensures
            final(self).wf(),
            outcome_of(result) == old(self)@.parse_statement_expression().outcome,
            final(self)@ == old(self)@.advance_n(
                old(self)@.parse_statement_expression().advances,
            ),
    {
        proof {
            reveal(ParserState::parse_statement_expression);
        }
        match self.parse_expression() {
            Ok(expr) => Ok(Statement::Expression(expr)),
            Err(message) => Err(message),
        }
    }

    /// Parses an `if` statement with both of its branches.
    fn parse_statement_if(&mut self) -> (result: Result<Statement, String>)
        requires
            old(self).wf(),
        ensures
            final(self).wf(),
            outcome_of(result) == old(self)@.parse_statement_if().outcome,
            final(self)@ == old(self)@.advance_n(old(self)@.parse_statement_if().advances),
        decreases old(self)@.budget(), 1nat,
    {
        let ghost start = self@;
        let expr = match self.parse_condition() {
            Ok(expr) => expr,
            Err(message) => {
                return Err(message);
            },
        };
        let ghost a = start.parse_condition().advances + 1;
        proof {
            lemma_advance_n_step(start, (a - 1) as nat);
            lemma_advance_n_budget(start, a);
        }
        self.advance_tokens();
        let then_branch = self.parse_branch();
        let ghost inside = start.advance_n(a).parse_branch().advances;
        proof {
            lemma_advance_n_add(start, a, inside);
        }
        let stmt_1 = match then_branch {
            Ok(statement) => statement,
            Err(message) => {
                return Err(message);
            },
        };
        let ghost b = a + inside + 1;
        proof {
            lemma_advance_n_step(start, a + inside);
        }
        self.advance_tokens();
        if let Err(message) = self.check_cur_token(Token::ELSE) {
            return Err(message);
        }
        proof {
            lemma_advance_n_step(start, b);
            lemma_advance_n_budget(start, b + 1);
        }
        self.advance_tokens();
        let else_branch = self.parse_branch();
        proof {
            lemma_advance_n_add(start, b + 1, start.advance_n(b + 1).parse_branch().advances);
        }
        match else_branch {
            Ok(stmt_2) => Ok(Statement::If(expr, Box::new(stmt_1), Box::new(stmt_2))),
            Err(message) => Err(message),
        }
    }

    /// The condition of an `if` statement: `if` and an expression in
    /// brackets.
    fn parse_condition(&mut self) -> (result: Result<Expression, String>)
        requires
            old(self).wf(),
        ensures
            final(self).wf(),
            outcome_of(result) == old(self)@.parse_condition().outcome,
            final(self)@ == old(self)@.advance_n(old(self)@.parse_condition().advances),
    {
        proof {
            reveal(ParserState::parse_condition);
        }
        let ghost start = self@;
        if let Err(message) = self.check_cur_token(Token::IF) {
            return Err(message);
        }
        proof {
            lemma_advance_n_step(start, 0);
        }
        self.advance_tokens();
        if let Err(message) = self.check_cur_token(Token::LPAREN) {
            return Err(message);
        }
        proof {
            lemma_advance_n_step(start, 1);
        }
        self.advance_tokens();
        let condition = self.parse_expression();
        let ghost inside = start.advance_n(2).parse_expression().advances;
        proof {
            lemma_advance_n_add(start, 2, inside);
        }
        let expr = match condition {
            Ok(expr) => expr,
            Err(message) => {
                return Err(message);
            },
        };
        proof {
            lemma_advance_n_step(start, 2 + inside);
        }
        self.advance_tokens();
        if let Err(message) = self.check_cur_token(Token::RPAREN) {
            return Err(message);
        }
        Ok(expr)
    }

    /// A branch of an `if` statement: one statement in braces.
    fn parse_branch(&mut self) -> (result: Result<Statement, String>)
        requires
            old(self).wf(),
        ensures
            final(self).wf(),
            outcome_of(result) == old(self)@.parse_branch().outcome,
            final(self)@ == old(self)@.advance_n(old(self)@.parse_branch().advances),
        decreases old(self)@.budget(), 0nat,
    {
        let ghost start = self@;
        if let Err(message) = self.check_cur_token(Token::LBRACE) {
            return Err(message);
        }
        proof {
            lemma_advance_n_step(start, 0);
            lemma_advance_n_budget(start, 1);
        }
        self.advance_tokens();
        let inner = self.parse_statement();
        let ghost inside = start.advance_n(1).parse_statement().advances;
        proof {
            lemma_advance_n_add(start, 1, inside);
        }
        let statement = match inner {
            Ok(statement) => statement,
            Err(message) => {
                return Err(message);
            },
        };
        proof {
            lemma_advance_n_step(start, 1 + inside);
        }
        self.advance_tokens();
        if let Err(message) = self.check_cur_token(Token::RBRACE) {
            return Err(message);
        }
        Ok(statement)
    }

    /// The name that the current token gives to a `let`.
    fn parse_identifier(&self) -> (result: Result<Identifier, String>)
        ensures
            outcome_of(result) == self@.parse_identifier(),
    {
        match &self.cur_token.token {
            Token::IDENT(name) => Ok(Identifier { name: name.clone() }),
            _ => Err(format_error("IDENT", &self.cur_token)),
        }
    }

    /// Parses an expression: grouped, binary or atomic.
    fn parse_expression(&mut self) -> (result: Result<Expression, String>)
        requires
            old(self).wf(),
        ensures
            final(self).wf(),
            outcome_of(result) == old(self)@.parse_expression().outcome,
            final(self)@ == old(self)@.advance_n(old(self)@.parse_expression().advances),
        decreases old(self)@.budget(), 1nat,
    {
        match self.cur_token.token {
            Token::LPAREN => self.parse_expression_grouped(),
            _ => match self.peek_token.token {
                Token::PLUS | Token::MINUS => self.parse_expression_binary(),
                Token::SEMICOLON | Token::RPAREN => self.parse_expression_unary(),
                _ => Err(format_error("binary or unary expression", &self.cur_token)),
            },
        }
    }

    /// Parses an atomic expression, an operator and the expression to its
    /// right.
    fn parse_expression_binary(&mut self) -> (result: Result<Expression, String>)
        requires
            old(self).wf(),
        ensures
            final(self).wf(),
            outcome_of(result) == old(self)@.parse_expression_binary().outcome,
            final(self)@ == old(self)@.advance_n(old(self)@.parse_expression_binary().advances),
        decreases old(self)@.budget(), 0nat,
    {
        let ghost start = self@;
        let expr_1 = match self.parse_expression_unary() {
            Ok(expr) => expr,
            Err(message) => {
                return Err(message);
            },
        };
        proof {
            lemma_advance_n_step(start, 0);
        }
        self.advance_tokens();
        let operator = match self.parse_operator() {
            Ok(operator) => operator,
            Err(message) => {
                return Err(message);
            },
        };
        proof {
            lemma_advance_n_step(start, 1);
            lemma_advance_n_budget(start, 2);
        }
        self.advance_tokens();
        let right = self.parse_expression();
        proof {
            lemma_advance_n_add(start, 2, start.advance_n(2).parse_expression().advances);
        }
        match right {
            Ok(expr_2) => Ok(Expression::Binary(operator, Box::new(expr_1), Box::new(expr_2))),
            Err(message) => Err(message),
        }
    }

    /// Parses an atomic expression: an integer literal or a variable.
    fn parse_expression_unary(&self) -> (result: Result<Expression, String>)
        ensures
            outcome_of(result) == self@.parse_expression_unary(),
    {
        match self.cur_token.token {
            Token::INT(_) => self.parse_expression_int_literal(),
            Token::IDENT(_) => self.parse_expression_variable(),
            _ => Err(format_error("unary expression", &self.cur_token)),
        }
    }

    /// The integer literal that the current token is.
    fn parse_expression_int_literal(&self) -> (result: Result<Expression, String>)
        ensures
            outcome_of(result) == (match self@.cur.token {
                SpecToken::INT(value) => Ok(SpecExpression::IntLiteral(value)),
                _ => Err(error_text("INT"@, self@.cur)),
            }),
    {
        match self.cur_token.token {
            Token::INT(number) => Ok(Expression::IntLiteral(number)),
            _ => Err(format_error("INT", &self.cur_token)),
        }
    }

    /// The variable that the current token names.
    fn parse_expression_variable(&self) -> (result: Result<Expression, String>)
        ensures
            outcome_of(result) == (match self@.cur.token {
                SpecToken::IDENT(name) => Ok(SpecExpression::Variable(name)),
                _ => Err(error_text("IDENT"@, self@.cur)),
            }),
    {
        match &self.cur_token.token {
            Token::IDENT(name) => Ok(Expression::Variable(name.clone())),
            _ => Err(format_error("IDENT", &self.cur_token)),
        }
    }

    /// Parses an expression in brackets.
    fn parse_expression_grouped(&mut self) -> (result: Result<Expression, String>)
        requires
            old(self).wf(),
        ensures
            final(self).wf(),
            outcome_of(result) == old(self)@.parse_expression_grouped().outcome,
            final(self)@ == old(self)@.advance_n(old(self)@.parse_expression_grouped().advances),
        decreases old(self)@.budget(), 0nat,
    {
        let ghost start = self@;
        if let Err(message) = self.check_cur_token(Token::LPAREN) {
            return Err(message);
        }
        proof {
            lemma_advance_n_step(start, 0);
            lemma_advance_n_budget(start, 1);
        }
        self.advance_tokens();
        let inner = self.parse_expression();
        let ghost inside = start.advance_n(1).parse_expression().advances;
        proof {
            lemma_advance_n_add(start, 1, inside);
        }
        let expr = match inner {
            Ok(expr) => expr,
            Err(message) => {
                return Err(message);
            },
        };
        proof {
            lemma_advance_n_step(start, 1 + inside);
        }
        self.advance_tokens();
        if let Err(message) = self.check_cur_token(Token::RPAREN) {
            return Err(message);
        }
        Ok(Expression::Grouped(Box::new(expr)))
    }

    /// The operator that the current token is.
    fn parse_operator(&self) -> (result: Result<BinaryOperator, String>)
        ensures
            (match result {
                Ok(operator) => Ok(operator),
                Err(message) => Err(message@),
            }) == self@.parse_operator(),
    {
        match self.cur_token.token {
            Token::PLUS => Ok(BinaryOperator::Add),
            Token::MINUS => Ok(BinaryOperator::Subtract),
            _ => Err(format_error("operator", &self.cur_token)),
        }
    }
}

/// Parses `input`: the program, if every statement up to the first end
/// marker could be parsed, and otherwise the messages for those that could
/// not.
pub fn parse(input: &[u8]) -> (result: Result<Program, Vec<String>>)
    requires
        input@.len() < u32::MAX,
    ensures
        program_outcome_of(result) == ParserState::start(
            LexerState::start(input@),
        ).parse_program(),
{
    let mut lexer = Lexer::new(input);
    let mut parser = Parser::new(&mut lexer);
    parser.parse_program()
}

} // verus!
