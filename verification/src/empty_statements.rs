//! Inputs that hold nothing but semicolons: each semicolon is a token of its
//! own, and to the parser each is a statement with nothing in it, which the
//! grammar does not allow.

use crate::ast::{SpecProgram, SpecStatement};
use crate::lexer::{
    col_of, lemma_end_marker_repeats, line_start, row_of, LexerState, SpecToken,
    SpecTokenWithMeta,
};
use crate::parser::{
    error_text, lemma_advance_n_add, lemma_parser_tokens, ParserState, ProgramRun,
};
use vstd::prelude::*;

verus! {

/// The input of `n` semicolons.
pub open spec fn semicolons(n: nat) -> Seq<u8> {
    Seq::new(n, |i: int| ';' as u8)
}

/// The semicolon that follows `k` others: it stands at offset `k` of the
/// first row.
pub open spec fn semicolon_at(k: nat) -> SpecTokenWithMeta {
    SpecTokenWithMeta { token: SpecToken::SEMICOLON, pos: k, row: 0, col: k }
}

/// The end marker that follows `n` semicolons: it stands just behind them.
pub open spec fn end_marker_after(n: nat) -> SpecTokenWithMeta {
    SpecTokenWithMeta { token: SpecToken::EOF, pos: n, row: 0, col: n }
}

/// The state of the tokenizer that has handed out `k` of `n` semicolons.
pub open spec fn state_after(n: nat, k: nat) -> LexerState {
    if k == 0 {
        LexerState::start(semicolons(n))
    } else {
        LexerState { input: semicolons(n), reads: k + 1 }
    }
}

/// The message for the semicolon that follows `k` others, of `n`. Before
/// another semicolon the parser takes it for an atomic expression, which it
/// is not; before the end marker it knows no expression that could stand
/// there.
pub open spec fn empty_statement_error(n: nat, k: nat) -> Seq<char> {
    if k + 1 < n {
        error_text("unary expression"@, semicolon_at(k))
    } else {
        error_text("binary or unary expression"@, semicolon_at(k))
    }
}

/// The messages for the semicolons from the one that follows `k` others on.
pub open spec fn empty_statement_errors(n: nat, k: nat) -> Seq<Seq<char>> {
    Seq::new((n - k) as nat, |i: int| empty_statement_error(n, (k + i) as nat))
}

/// Semicolons stand in one row.
proof fn lemma_one_row(n: nat, i: int)
    requires
        0 <= i,
    ensures
        row_of(semicolons(n), i) == 0,
        line_start(semicolons(n), i) == 0,
        col_of(semicolons(n), i) == i,
    decreases i,
{
    if i > 0 {
        lemma_one_row(n, i - 1);
    }
}

/// Handing out one semicolon.
proof fn lemma_one_semicolon(n: nat, k: nat)
    requires
        k < n,
    ensures
        state_after(n, k).next_token() == semicolon_at(k),
        state_after(n, k).after_token() == state_after(n, k + 1),
{
    reveal(LexerState::next_token);
    reveal(LexerState::after_token);
    let state = state_after(n, k);
    assert(state.token_start() == k);
    assert(state.token_end() == k + 1);
    lemma_one_row(n, k as int);
}

/// The state after `k` more tokens, as long as semicolons are left.
proof fn lemma_states(n: nat, j: nat, k: nat)
    requires
        j + k <= n,
    ensures
        state_after(n, j).after_tokens(k) == state_after(n, j + k),
    decreases k,
{
    if k > 0 {
        lemma_one_semicolon(n, j);
        lemma_states(n, j + 1, (k - 1) as nat);
    }
}

/// After the last semicolon only the end marker is left.
proof fn lemma_end(n: nat)
    requires
        n < u32::MAX,
    ensures
        state_after(n, n).wf(),
        state_after(n, n).exhausted(),
        state_after(n, n).next_token() == end_marker_after(n),
{
    reveal(LexerState::next_token);
    lemma_one_row(n, n as int);
}

/// The tokens from the one that follows `k` others on.
proof fn lemma_tokens_from(n: nat, k: nat)
    requires
        n < u32::MAX,
        k <= n,
    ensures
        state_after(n, k).tokens() == Seq::new(
            (n - k) as nat,
            |i: int| semicolon_at((k + i) as nat),
        ).push(end_marker_after(n)),
    decreases n - k,
{
    let expected = Seq::new((n - k) as nat, |i: int| semicolon_at((k + i) as nat)).push(
        end_marker_after(n),
    );
    if k == n {
        lemma_end(n);
        assert(state_after(n, k).tokens() =~= expected);
    } else {
        lemma_one_semicolon(n, k);
        lemma_tokens_from(n, k + 1);
        assert(state_after(n, k).tokens() =~= expected);
    }
}

/// The token that follows `k` others.
proof fn lemma_token(n: nat, k: nat)
    requires
        n < u32::MAX,
    ensures
        k < n ==> LexerState::start(semicolons(n)).token(k) == semicolon_at(k),
        k == n ==> LexerState::start(semicolons(n)).token(k) == end_marker_after(n),
        k >= n ==> LexerState::start(semicolons(n)).token(k).token == SpecToken::EOF,
{
    let start = LexerState::start(semicolons(n));
    if k < n {
        lemma_states(n, 0, k);
        lemma_one_semicolon(n, k);
    } else {
        lemma_states(n, 0, n);
        lemma_end(n);
        lemma_end_marker_repeats(state_after(n, n), (k - n) as nat);
        lemma_after_tokens_add(start, n, (k - n) as nat);
    }
}

/// Handing out `a` tokens and then `b` more is handing out `a + b`.
proof fn lemma_after_tokens_add(state: LexerState, a: nat, b: nat)
    ensures
        state.after_tokens(a).after_tokens(b) == state.after_tokens(a + b),
    decreases a,
{
    if a > 0 {
        lemma_after_tokens_add(state.after_token(), (a - 1) as nat, b);
    }
}

/// What the parser gathers from the semicolon that follows `k` others on.
proof fn lemma_run_from(n: nat, k: nat)
    requires
        n < u32::MAX,
        k <= n,
    ensures
        ParserState::start(LexerState::start(semicolons(n))).advance_n(k).run() == (ProgramRun {
            statements: Seq::empty(),
            errors: empty_statement_errors(n, k),
            advances: (n - k) as nat,
        }),
    decreases n - k,
{
    reveal(ParserState::parse_statement_expression);
    let first = ParserState::start(LexerState::start(semicolons(n)));
    let state = first.advance_n(k);
    lemma_parser_tokens(LexerState::start(semicolons(n)), k);
    lemma_token(n, k);
    lemma_token(n, k + 1);
    if k == n {
        assert(state.run().errors =~= empty_statement_errors(n, k));
    } else {
        assert(state.cur == semicolon_at(k));
        let found = state.parse_expression();
        assert(found.advances == 0);
        assert(found.outcome == Err::<crate::ast::SpecExpression, Seq<char>>(
            empty_statement_error(n, k),
        ));
        let statement = state.parse_statement();
        assert(statement.advances == 0);
        assert(statement.outcome == Err::<SpecStatement, Seq<char>>(empty_statement_error(n, k)));
        assert(state.advance_n(0) == state);
        assert(state.skip_statement() == 1);
        lemma_advance_n_add(first, k, 1);
        lemma_run_from(n, k + 1);
        let rest = first.advance_n(k + 1).run();
        assert(state.run().errors == seq![empty_statement_error(n, k)] + rest.errors);
        assert(seq![empty_statement_error(n, k)] + empty_statement_errors(n, k + 1)
            =~= empty_statement_errors(n, k));
        assert(state.run().statements =~= Seq::<SpecStatement>::empty());
    }
}

/// What holds of `n` semicolons.
proof fn lemma_semicolons(n: nat)
    requires
        n < u32::MAX,
    ensures
        LexerState::start(semicolons(n)).tokens() == Seq::new(
            n,
            |k: int| semicolon_at(k as nat),
        ).push(end_marker_after(n)),
        forall|k: nat|
            k >= n ==> (#[trigger] LexerState::start(semicolons(n)).token(k)).token
                == SpecToken::EOF,
        ParserState::start(LexerState::start(semicolons(n))).run() == (ProgramRun {
            statements: Seq::empty(),
            errors: empty_statement_errors(n, 0),
            advances: n,
        }),
{
    lemma_tokens_from(n, 0);
    assert(Seq::new(n, |k: int| semicolon_at(k as nat)) =~= Seq::new(
        (n - 0) as nat,
        |i: int| semicolon_at((0 + i) as nat),
    ));
    assert forall|k: nat| k >= n implies (#[trigger] LexerState::start(semicolons(n)).token(
        k,
    )).token == SpecToken::EOF by {
        lemma_token(n, k);
    }
    lemma_run_from(n, 0);
    let first = ParserState::start(LexerState::start(semicolons(n)));
    assert(first.advance_n(0) == first);
}

/// Of an input that holds nothing but semicolons the tokenizer hands out as
/// many semicolon tokens as there are bytes, and then the end marker, on
/// every further call too. The parser parses no statement and has one
/// message for each semicolon: that an atomic expression was expected where
/// another semicolon follows, and that an expression was expected at the
/// last one. So parsing gives the empty program for the empty input and
/// these messages for any other.
pub proof fn lemma_semicolons_only(input: Seq<u8>)
    requires
        input.len() < u32::MAX,
        forall|i: int| 0 <= i < input.len() ==> input[i] == ';' as u8,
    ensures
        LexerState::start(input).tokens() == Seq::new(
            input.len(),
            |k: int| semicolon_at(k as nat),
        ).push(end_marker_after(input.len())),
        forall|k: nat|
            k >= input.len() ==> (#[trigger] LexerState::start(input).token(k)).token
                == SpecToken::EOF,
        ParserState::start(LexerState::start(input)).run() == (ProgramRun {
            statements: Seq::empty(),
            errors: empty_statement_errors(input.len(), 0),
            advances: input.len(),
        }),
        empty_statement_errors(input.len(), 0).len() == input.len(),
        ParserState::start(LexerState::start(input)).parse_program() == if input.len() == 0 {
            Ok::<SpecProgram, Seq<Seq<char>>>(SpecProgram { statements: Seq::empty() })
        } else {
            Err::<SpecProgram, Seq<Seq<char>>>(empty_statement_errors(input.len(), 0))
        },
{
    assert(input =~= semicolons(input.len()));
    lemma_semicolons(input.len());
}

} // verus!
