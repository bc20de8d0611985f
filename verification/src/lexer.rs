//! The tokenizer: it scans a byte buffer and hands out one positioned token
//! per call.

use crate::text::{push_signed_decimal, signed_decimal};
use vstd::prelude::*;
use vstd::slice::slice_subrange;
use vstd::std_specs::cmp::PartialEqSpecImpl;
use vstd::string::*;

verus! {

/// A lexical unit.
#[derive(Debug)]
pub enum Token {
    ILLEGAL,
    EOF,
    IDENT(String),
    INT(i32),
    ASSIGN,
    PLUS,
    MINUS,
    BANG,
    ASTERISK,
    SLASH,
    LT,
    GT,
    EQ,
    NEQ,
    COMMA,
    SEMICOLON,
    LPAREN,
    RPAREN,
    LBRACE,
    RBRACE,
    FUNCTION,
    LET,
    TRUE,
    FALSE,
    IF,
    ELSE,
    RETURN,
}

/// The mathematical value of a [`Token`]: an identifier carries its
/// characters.
pub enum SpecToken {
    ILLEGAL,
    EOF,
    IDENT(Seq<char>),
    INT(i32),
    ASSIGN,
    PLUS,
    MINUS,
    BANG,
    ASTERISK,
    SLASH,
    LT,
    GT,
    EQ,
    NEQ,
    COMMA,
    SEMICOLON,
    LPAREN,
    RPAREN,
    LBRACE,
    RBRACE,
    FUNCTION,
    LET,
    TRUE,
    FALSE,
    IF,
    ELSE,
    RETURN,
}

impl SpecToken {
    /// The text by which a token is shown in diagnostics.
    pub open spec fn text(self) -> Seq<char> {
        match self {
            SpecToken::ILLEGAL => "ILLEGAL"@,
            SpecToken::EOF => "EOF"@,
            SpecToken::IDENT(name) => "IDENT("@ + name + ")"@,
            SpecToken::INT(value) => "INT("@ + signed_decimal(value as int) + ")"@,
            SpecToken::ASSIGN => "ASSIGN"@,
            SpecToken::PLUS => "PLUS"@,
            SpecToken::MINUS => "MINUS"@,
            SpecToken::BANG => "BANG"@,
            SpecToken::ASTERISK => "ASTERISK"@,
            SpecToken::SLASH => "SLASH"@,
            SpecToken::LT => "LT"@,
            SpecToken::GT => "GT"@,
            SpecToken::EQ => "EQ"@,
            SpecToken::NEQ => "NEQ"@,
            SpecToken::COMMA => "COMMA"@,
            SpecToken::SEMICOLON => "SEMICOLON"@,
            SpecToken::LPAREN => "LPAREN"@,
            SpecToken::RPAREN => "RPAREN"@,
            SpecToken::LBRACE => "LBRACE"@,
            SpecToken::RBRACE => "RBRACE"@,
            SpecToken::FUNCTION => "FUNCTION"@,
            SpecToken::LET => "LET"@,
            SpecToken::TRUE => "TRUE"@,
            SpecToken::FALSE => "FALSE"@,
            SpecToken::IF => "IF"@,
            SpecToken::ELSE => "ELSE"@,
            SpecToken::RETURN => "RETURN"@,
        }
    }
}

impl View for Token {
    type V = SpecToken;

    open spec fn view(&self) -> SpecToken {
        match self {
            Token::ILLEGAL => SpecToken::ILLEGAL,
            Token::EOF => SpecToken::EOF,
            Token::IDENT(name) => SpecToken::IDENT(name@),
            Token::INT(value) => SpecToken::INT(*value),
            Token::ASSIGN => SpecToken::ASSIGN,
            Token::PLUS => SpecToken::PLUS,
            Token::MINUS => SpecToken::MINUS,
            Token::BANG => SpecToken::BANG,
            Token::ASTERISK => SpecToken::ASTERISK,
            Token::SLASH => SpecToken::SLASH,
            Token::LT => SpecToken::LT,
            Token::GT => SpecToken::GT,
            Token::EQ => SpecToken::EQ,
            Token::NEQ => SpecToken::NEQ,
            Token::COMMA => SpecToken::COMMA,
            Token::SEMICOLON => SpecToken::SEMICOLON,
            Token::LPAREN => SpecToken::LPAREN,
            Token::RPAREN => SpecToken::RPAREN,
            Token::LBRACE => SpecToken::LBRACE,
            Token::RBRACE => SpecToken::RBRACE,
            Token::FUNCTION => SpecToken::FUNCTION,
            Token::LET => SpecToken::LET,
            Token::TRUE => SpecToken::TRUE,
            Token::FALSE => SpecToken::FALSE,
            Token::IF => SpecToken::IF,
            Token::ELSE => SpecToken::ELSE,
            Token::RETURN => SpecToken::RETURN,
        }
    }
}

impl Clone for Token {
    fn clone(&self) -> (copy: Self)
        ensures
            copy@ == self@,
    {
        match self {
            Token::ILLEGAL => Token::ILLEGAL,
            Token::EOF => Token::EOF,
            Token::IDENT(name) => Token::IDENT(name.clone()),
            Token::INT(value) => Token::INT(*value),
            Token::ASSIGN => Token::ASSIGN,
            Token::PLUS => Token::PLUS,
            Token::MINUS => Token::MINUS,
            Token::BANG => Token::BANG,
            Token::ASTERISK => Token::ASTERISK,
            Token::SLASH => Token::SLASH,
            Token::LT => Token::LT,
            Token::GT => Token::GT,
            Token::EQ => Token::EQ,
            Token::NEQ => Token::NEQ,
            Token::COMMA => Token::COMMA,
            Token::SEMICOLON => Token::SEMICOLON,
            Token::LPAREN => Token::LPAREN,
            Token::RPAREN => Token::RPAREN,
            Token::LBRACE => Token::LBRACE,
            Token::RBRACE => Token::RBRACE,
            Token::FUNCTION => Token::FUNCTION,
            Token::LET => Token::LET,
            Token::TRUE => Token::TRUE,
            Token::FALSE => Token::FALSE,
            Token::IF => Token::IF,
            Token::ELSE => Token::ELSE,
            Token::RETURN => Token::RETURN,
        }
    }
}

impl PartialEq for Token {
    fn eq(&self, other: &Token) -> (same: bool) {
        match self {
            Token::IDENT(a) => match other {
                Token::IDENT(b) => *a == *b,
                _ => false,
            },
            Token::INT(a) => match other {
                Token::INT(b) => *a == *b,
                _ => false,
            },
            _ => self.mark() == other.mark(),
        }
    }
}

impl PartialEqSpecImpl for Token {
    open spec fn obeys_eq_spec() -> bool {
        true
    }

    open spec fn eq_spec(&self, other: &Token) -> bool {
        self@ == other@
    }
}

impl SpecToken {
    /// A number for each kind of token; tokens of one kind differ at most in
    /// their payload.
    pub open spec fn mark(self) -> int {
        match self {
            SpecToken::ILLEGAL => 0,
            SpecToken::EOF => 1,
            SpecToken::IDENT(_) => 2,
            SpecToken::INT(_) => 3,
            SpecToken::ASSIGN => 4,
            SpecToken::PLUS => 5,
            SpecToken::MINUS => 6,
            SpecToken::BANG => 7,
            SpecToken::ASTERISK => 8,
            SpecToken::SLASH => 9,
            SpecToken::LT => 10,
            SpecToken::GT => 11,
            SpecToken::EQ => 12,
            SpecToken::NEQ => 13,
            SpecToken::COMMA => 14,
            SpecToken::SEMICOLON => 15,
            SpecToken::LPAREN => 16,
            SpecToken::RPAREN => 17,
            SpecToken::LBRACE => 18,
            SpecToken::RBRACE => 19,
            SpecToken::FUNCTION => 20,
            SpecToken::LET => 21,
            SpecToken::TRUE => 22,
            SpecToken::FALSE => 23,
            SpecToken::IF => 24,
            SpecToken::ELSE => 25,
            SpecToken::RETURN => 26,
        }
    }
}

impl Token {
    fn mark(&self) -> (m: u8)
        ensures
            m == self@.mark(),
    {
        match self {
            Token::ILLEGAL => 0,
            Token::EOF => 1,
            Token::IDENT(_) => 2,
            Token::INT(_) => 3,
            Token::ASSIGN => 4,
            Token::PLUS => 5,
            Token::MINUS => 6,
            Token::BANG => 7,
            Token::ASTERISK => 8,
            Token::SLASH => 9,
            Token::LT => 10,
            Token::GT => 11,
            Token::EQ => 12,
            Token::NEQ => 13,
            Token::COMMA => 14,
            Token::SEMICOLON => 15,
            Token::LPAREN => 16,
            Token::RPAREN => 17,
            Token::LBRACE => 18,
            Token::RBRACE => 19,
            Token::FUNCTION => 20,
            Token::LET => 21,
            Token::TRUE => 22,
            Token::FALSE => 23,
            Token::IF => 24,
            Token::ELSE => 25,
            Token::RETURN => 26,
        }
    }
}

impl Token {
    /// The text by which the token is shown in diagnostics.
    pub fn to_string(&self) -> (text: String)
        ensures
            text@ == self@.text(),
    {
        match self {
            Token::ILLEGAL => "ILLEGAL".to_owned(),
            Token::EOF => "EOF".to_owned(),
            Token::IDENT(name) => {
                let mut text = "IDENT(".to_owned();
                text.append(name.as_str());
                text.append(")");
                text
            },
            Token::INT(value) => {
                let mut text = "INT(".to_owned();
                push_signed_decimal(&mut text, *value);
                text.append(")");
                text
            },
            Token::ASSIGN => "ASSIGN".to_owned(),
            Token::PLUS => "PLUS".to_owned(),
            Token::MINUS => "MINUS".to_owned(),
            Token::BANG => "BANG".to_owned(),
            Token::ASTERISK => "ASTERISK".to_owned(),
            Token::SLASH => "SLASH".to_owned(),
            Token::LT => "LT".to_owned(),
            Token::GT => "GT".to_owned(),
            Token::EQ => "EQ".to_owned(),
            Token::NEQ => "NEQ".to_owned(),
            Token::COMMA => "COMMA".to_owned(),
            Token::SEMICOLON => "SEMICOLON".to_owned(),
            Token::LPAREN => "LPAREN".to_owned(),
            Token::RPAREN => "RPAREN".to_owned(),
            Token::LBRACE => "LBRACE".to_owned(),
            Token::RBRACE => "RBRACE".to_owned(),
            Token::FUNCTION => "FUNCTION".to_owned(),
            Token::LET => "LET".to_owned(),
            Token::TRUE => "TRUE".to_owned(),
            Token::FALSE => "FALSE".to_owned(),
            Token::IF => "IF".to_owned(),
            Token::ELSE => "ELSE".to_owned(),
            Token::RETURN => "RETURN".to_owned(),
        }
    }
}

/// A token with the place of its first byte: the byte offset, the row and
/// the column, each counted from 0.
#[derive(Debug, PartialEq)]
pub struct TokenWithMeta {
    pub token: Token,
    pub pos: usize,
    pub row_pos: u32,
    pub col_pos: u32,
}

/// The mathematical value of a [`TokenWithMeta`].
pub struct SpecTokenWithMeta {
    pub token: SpecToken,
    pub pos: nat,
    pub row: nat,
    pub col: nat,
}

impl View for TokenWithMeta {
    type V = SpecTokenWithMeta;

    open spec fn view(&self) -> SpecTokenWithMeta {
        SpecTokenWithMeta {
            token: self.token@,
            pos: self.pos as nat,
            row: self.row_pos as nat,
            col: self.col_pos as nat,
        }
    }
}

impl Clone for TokenWithMeta {
    fn clone(&self) -> (copy: Self)
        ensures
            copy@ == self@,
    {
        TokenWithMeta {
            token: self.token.clone(),
            pos: self.pos,
            row_pos: self.row_pos,
            col_pos: self.col_pos,
        }
    }
}

/// Letters and the underscore: the bytes that make up a word.
pub open spec fn letter(ch: u8) -> bool {
    'a' as u8 <= ch <= 'z' as u8 || 'A' as u8 <= ch <= 'Z' as u8 || ch == '_' as u8
}

/// The decimal digits.
pub open spec fn digit(ch: u8) -> bool {
    '0' as u8 <= ch <= '9' as u8
}

/// Space, tab, line feed and carriage return.
pub open spec fn whitespace(ch: u8) -> bool {
    ch == ' ' as u8 || ch == '\t' as u8 || ch == '\n' as u8 || ch == '\r' as u8
}

/// The line feed.
pub open spec fn newline(ch: u8) -> bool {
    ch == '\n' as u8
}

pub fn is_letter(ch: u8) -> (yes: bool)
    ensures
        yes == letter(ch),
{
    'a' as u8 <= ch && ch <= 'z' as u8 || 'A' as u8 <= ch && ch <= 'Z' as u8 || ch == '_' as u8
}

pub fn is_digit(ch: u8) -> (yes: bool)
    ensures
        yes == digit(ch),
{
    '0' as u8 <= ch && ch <= '9' as u8
}

pub fn is_whitespace(ch: u8) -> (yes: bool)
    ensures
        yes == whitespace(ch),
{
    ch == ' ' as u8 || ch == '\t' as u8 || ch == '\n' as u8 || ch == '\r' as u8
}

pub fn is_newline(ch: u8) -> (yes: bool)
    ensures
        yes == newline(ch),
{
    ch == '\n' as u8
}

/// A class of bytes of which the tokenizer reads a whole run at once.
#[derive(Clone, Copy, Debug)]
pub enum ByteClass {
    Whitespace,
    Letter,
    Digit,
}

impl ByteClass {
    /// Whether `ch` belongs to the class.
    pub open spec fn has(self, ch: u8) -> bool {
        match self {
            ByteClass::Whitespace => whitespace(ch),
            ByteClass::Letter => letter(ch),
            ByteClass::Digit => digit(ch),
        }
    }

    fn holds(self, ch: u8) -> (yes: bool)
        ensures
            yes == self.has(ch),
    {
        match self {
            ByteClass::Whitespace => is_whitespace(ch),
            ByteClass::Letter => is_letter(ch),
            ByteClass::Digit => is_digit(ch),
        }
    }
}

/// The byte at index `i` of `input`. Outside of the buffer it is 0: the end
/// of the input reads as a zero byte.
pub open spec fn byte_at(input: Seq<u8>, i: int) -> u8 {
    if 0 <= i < input.len() {
        input[i]
    } else {
        0
    }
}

/// The end of the longest run of bytes of `class` that starts at index `i`:
/// the first index from `i` on that is outside of the buffer or whose byte is
/// not in the class.
pub open spec fn run_end(input: Seq<u8>, i: int, class: ByteClass) -> int
    decreases input.len() - i,
{
    if 0 <= i < input.len() && class.has(input[i]) {
        run_end(input, i + 1, class)
    } else {
        i
    }
}

/// The characters that a sequence of bytes stands for, one for each byte.
pub open spec fn as_chars(bytes: Seq<u8>) -> Seq<char> {
    Seq::new(bytes.len(), |i: int| bytes[i] as char)
}

/// The token for a run of letters: a keyword where the run spells one, an
/// identifier with the run as its name otherwise.
pub open spec fn word_token(word: Seq<u8>) -> SpecToken {
    let name = as_chars(word);
    if name == "let"@ {
        SpecToken::LET
    } else if name == "fn"@ {
        SpecToken::FUNCTION
    } else if name == "true"@ {
        SpecToken::TRUE
    } else if name == "false"@ {
        SpecToken::FALSE
    } else if name == "if"@ {
        SpecToken::IF
    } else if name == "else"@ {
        SpecToken::ELSE
    } else if name == "return"@ {
        SpecToken::RETURN
    } else {
        SpecToken::IDENT(name)
    }
}

/// The number that a run of decimal digits writes.
pub open spec fn decimal_value(digits: Seq<u8>) -> nat
    decreases digits.len(),
{
    if digits.len() == 0 {
        0
    } else {
        decimal_value(digits.drop_last()) * 10 + (digits.last() - '0' as u8) as nat
    }
}

/// The token for a run of digits: an integer literal where the number fits
/// in 32 signed bits, the unrecognized token where it does not.
pub open spec fn number_token(digits: Seq<u8>) -> SpecToken {
    let value = decimal_value(digits);
    if value <= i32::MAX {
        SpecToken::INT(value as i32)
    } else {
        SpecToken::ILLEGAL
    }
}

/// The token that starts with the byte `ch`, which is neither a letter nor a
/// digit, where `next` is the byte after it.
pub open spec fn symbol_token(ch: u8, next: u8) -> SpecToken {
    if ch == '=' as u8 {
        if next == '=' as u8 {
            SpecToken::EQ
        } else {
            SpecToken::ASSIGN
        }
    } else if ch == '!' as u8 {
        if next == '=' as u8 {
            SpecToken::NEQ
        } else {
            SpecToken::BANG
        }
    } else if ch == ';' as u8 {
        SpecToken::SEMICOLON
    } else if ch == '(' as u8 {
        SpecToken::LPAREN
    } else if ch == ')' as u8 {
        SpecToken::RPAREN
    } else if ch == ',' as u8 {
        SpecToken::COMMA
    } else if ch == '+' as u8 {
        SpecToken::PLUS
    } else if ch == '-' as u8 {
        SpecToken::MINUS
    } else if ch == '{' as u8 {
        SpecToken::LBRACE
    } else if ch == '}' as u8 {
        SpecToken::RBRACE
    } else if ch == '*' as u8 {
        SpecToken::ASTERISK
    } else if ch == '/' as u8 {
        SpecToken::SLASH
    } else if ch == '<' as u8 {
        SpecToken::LT
    } else if ch == '>' as u8 {
        SpecToken::GT
    } else if ch == 0 {
        SpecToken::EOF
    } else {
        SpecToken::ILLEGAL
    }
}

/// Whether the bytes `ch` and `next` together are one of the two-byte
/// operators `==` and `!=`.
pub open spec fn double_symbol(ch: u8, next: u8) -> bool {
    (ch == '=' as u8 || ch == '!' as u8) && next == '=' as u8
}

/// The token that starts at index `start` of `input`, where `start` is not
/// the index of a whitespace byte.
pub open spec fn token_at(input: Seq<u8>, start: int) -> SpecToken {
    let ch = byte_at(input, start);
    if letter(ch) {
        word_token(input.subrange(start, run_end(input, start, ByteClass::Letter)))
    } else if digit(ch) {
        number_token(input.subrange(start, run_end(input, start, ByteClass::Digit)))
    } else {
        symbol_token(ch, byte_at(input, start + 1))
    }
}

/// The index just behind the token that starts at index `start` of `input`.
/// At the end of the input nothing is left to pass over.
pub open spec fn token_end(input: Seq<u8>, start: int) -> int {
    let ch = byte_at(input, start);
    if letter(ch) {
        run_end(input, start, ByteClass::Letter)
    } else if digit(ch) {
        run_end(input, start, ByteClass::Digit)
    } else if start >= input.len() {
        start
    } else if double_symbol(ch, byte_at(input, start + 1)) {
        start + 2
    } else {
        start + 1
    }
}

/// The row of the byte at index `i` of `input`, counted from 0: the number
/// of line feeds before it.
pub open spec fn row_of(input: Seq<u8>, i: int) -> nat
    decreases i,
{
    if i <= 0 {
        0
    } else if newline(byte_at(input, i - 1)) {
        row_of(input, i - 1) + 1
    } else {
        row_of(input, i - 1)
    }
}

/// The index at which the row of the byte at index `i` of `input` starts:
/// the index just behind the last line feed before `i`, and 0 where there
/// is none.
pub open spec fn line_start(input: Seq<u8>, i: int) -> int
    decreases i,
{
    if i <= 0 {
        0
    } else if newline(byte_at(input, i - 1)) {
        i
    } else {
        line_start(input, i - 1)
    }
}

/// The column of the byte at index `i` of `input`, counted from 0: how far
/// it stands behind the start of its row.
pub open spec fn col_of(input: Seq<u8>, i: int) -> nat {
    (i - line_start(input, i)) as nat
}

/// The state of a tokenizer: what it scans and how far it has read. The
/// place of a token follows from these: it is where the first byte of the
/// token stands.
pub struct LexerState {
    /// The buffer that is scanned.
    pub input: Seq<u8>,
    /// How many characters were read: the index of the next one to read.
    pub reads: nat,
}

impl LexerState {
    /// The state of a tokenizer that has not read anything of `input` yet.
    pub open spec fn start(input: Seq<u8>) -> LexerState {
        LexerState { input, reads: 0 }
    }

    /// The tokenizer has not read past the zero at the end of the buffer,
    /// and the buffer is short enough for rows and columns of 32 bits.
    pub open spec fn wf(self) -> bool {
        &&& self.input.len() < u32::MAX
        &&& self.reads <= self.input.len() + 1
    }

    /// The index of the current character: the one read last.
    pub open spec fn cursor(self) -> int {
        if self.reads == 0 {
            0
        } else {
            self.reads - 1
        }
    }

    /// The current character; 0 before the first one is read and at the end.
    pub open spec fn current(self) -> u8 {
        if self.reads == 0 {
            0
        } else {
            byte_at(self.input, self.cursor())
        }
    }

    /// The state after one more character is read. Behind the last byte a
    /// zero is read; once that is read, nothing more is.
    pub open spec fn read(self) -> LexerState {
        if self.reads > self.input.len() {
            self
        } else {
            LexerState { reads: self.reads + 1, ..self }
        }
    }

    /// The index at which the next token starts: the end of the whitespace
    /// from the current character on.
    pub open spec fn token_start(self) -> int {
        run_end(self.input, self.cursor(), ByteClass::Whitespace)
    }

    /// The index just behind the next token.
    pub open spec fn token_end(self) -> int {
        token_end(self.input, self.token_start())
    }

    /// The next token, with the place of its first byte: the byte offset,
    /// the row and the column, each counted from 0. The end marker that
    /// stands for the end of the input has the place just behind the last
    /// byte.
    #[verifier::opaque]
    pub open spec fn next_token(self) -> SpecTokenWithMeta {
        SpecTokenWithMeta {
            token: token_at(self.input, self.token_start()),
            pos: self.token_start() as nat,
            row: row_of(self.input, self.token_start()),
            col: col_of(self.input, self.token_start()),
        }
    }

    /// The state after the next token is handed out: the character just
    /// behind the token is the current one.
    #[verifier::opaque]
    pub open spec fn after_token(self) -> LexerState {
        LexerState { reads: (self.token_end() + 1) as nat, ..self }
    }

    /// Whether nothing but whitespace is left before the end of the input.
    pub open spec fn exhausted(self) -> bool {
        self.token_start() >= self.input.len()
    }

    /// How many characters are left to read, the zero at the end counted.
    pub open spec fn unread(self) -> nat {
        if self.reads <= self.input.len() + 1 {
            (self.input.len() + 1 - self.reads) as nat
        } else {
            0
        }
    }

    /// The state after `n` tokens are handed out.
    pub open spec fn after_tokens(self, n: nat) -> LexerState
        decreases n,
    {
        if n == 0 {
            self
        } else {
            self.after_token().after_tokens((n - 1) as nat)
        }
    }

    /// The token that is handed out after `n` others.
    pub open spec fn token(self, n: nat) -> SpecTokenWithMeta {
        self.after_tokens(n).next_token()
    }

    /// The tokens that are handed out up to the first end marker, which is
    /// the last of them.
    pub open spec fn tokens(self) -> Seq<SpecTokenWithMeta>
        decreases self.unread(),
    {
        let next = self.next_token();
        if next.token == SpecToken::EOF {
            seq![next]
        } else {
            proof {
                lemma_after_token_reads(self);
            }
            seq![next] + self.after_token().tokens()
        }
    }
}

/// A run ends inside the buffer, holds only bytes of its class, and stops at
/// the end of the buffer or before a byte that is not of the class.
pub proof fn lemma_run_end(input: Seq<u8>, i: int, class: ByteClass)
    requires
        0 <= i <= input.len(),
    ensures
        i <= run_end(input, i, class) <= input.len(),
        forall|j: int| i <= j < run_end(input, i, class) ==> class.has(#[trigger] input[j]),
        !class.has(byte_at(input, run_end(input, i, class))),
    decreases input.len() - i,
{
    if i < input.len() && class.has(input[i]) {
        lemma_run_end(input, i + 1, class);
    }
}

/// The place of a token is that of its first byte: the offset at which the
/// token starts behind the whitespace, the number of line feeds before that
/// offset, and how far the offset stands behind the last of them.
pub proof fn lemma_token_place(state: LexerState)
    ensures
        state.next_token().token == token_at(state.input, state.token_start()),
        state.next_token().pos == state.token_start(),
        state.next_token().row == row_of(state.input, state.token_start()),
        state.next_token().col == state.token_start() - line_start(
            state.input,
            state.token_start(),
        ),
        state.reads <= state.input.len() + 1 ==> state.cursor() <= state.token_start()
            <= state.input.len(),
{
    reveal(LexerState::next_token);
    if state.reads <= state.input.len() + 1 {
        lemma_run_end(state.input, state.cursor(), ByteClass::Whitespace);
    }
    lemma_place(state.input, state.token_start());
}

/// Rows and columns stay within the offset: a byte has at most as many line
/// feeds before it as bytes, and its row starts no later than it stands.
pub proof fn lemma_place(input: Seq<u8>, i: int)
    requires
        0 <= i,
    ensures
        row_of(input, i) <= i,
        0 <= line_start(input, i) <= i,
        col_of(input, i) <= i,
    decreases i,
{
    if i > 0 {
        lemma_place(input, i - 1);
    }
}

/// Where the next token ends: not before it starts, and behind its first
/// character unless the input has ended.
pub proof fn lemma_token_end(state: LexerState)
    requires
        state.reads <= state.input.len() + 1,
    ensures
        state.cursor() <= state.token_start() <= state.token_end() <= state.input.len(),
        state.token_start() < state.input.len() ==> state.token_start() < state.token_end(),
        state.exhausted() ==> state.next_token().token == SpecToken::EOF,
{
    reveal(LexerState::next_token);
    let start = state.token_start();
    lemma_run_end(state.input, state.cursor(), ByteClass::Whitespace);
    lemma_run_end(state.input, start, ByteClass::Letter);
    lemma_run_end(state.input, start, ByteClass::Digit);
    if start < state.input.len() {
        assert(letter(state.input[start]) ==> run_end(state.input, start, ByteClass::Letter)
            == run_end(state.input, start + 1, ByteClass::Letter));
        assert(digit(state.input[start]) ==> run_end(state.input, start, ByteClass::Digit)
            == run_end(state.input, start + 1, ByteClass::Digit));
        lemma_run_end(state.input, start + 1, ByteClass::Letter);
        lemma_run_end(state.input, start + 1, ByteClass::Digit);
        if double_symbol(state.input[start], byte_at(state.input, start + 1)) {
            assert(start + 1 < state.input.len());
        }
    }
}

/// Handing out a token keeps the buffer and never goes back in it, and a
/// token other than the end marker takes at least one character. This holds
/// of every state, also of one that has read too far.
pub proof fn lemma_after_token_reads(state: LexerState)
    ensures
        state.after_token().input == state.input,
        state.reads <= state.input.len() + 1 ==> state.reads <= state.after_token().reads
            <= state.input.len() + 1,
        state.reads <= state.input.len() + 1 && state.next_token().token != SpecToken::EOF
            ==> state.reads < state.after_token().reads,
        state.reads > state.input.len() + 1 ==> state.after_token().reads == state.reads
            && state.next_token().token == SpecToken::EOF,
{
    reveal(LexerState::next_token);
    reveal(LexerState::after_token);
    if state.reads <= state.input.len() + 1 {
        lemma_token_end(state);
    }
}

/// Handing out a token keeps the invariant.
pub proof fn lemma_after_token_wf(state: LexerState)
    requires
        state.wf(),
    ensures
        state.after_token().wf(),
        state.after_token().reads == state.token_end() + 1,
{
    reveal(LexerState::after_token);
    lemma_token_end(state);
}

/// A run of digits writes no smaller a number than any of its beginnings.
proof fn lemma_decimal_value_grows(digits: Seq<u8>, i: int)
    requires
        0 <= i <= digits.len(),
        forall|j: int| 0 <= j < digits.len() ==> digit(#[trigger] digits[j]),
    ensures
        decimal_value(digits.subrange(0, i)) <= decimal_value(digits),
    decreases digits.len(),
{
    if i == digits.len() {
        assert(digits.subrange(0, i) =~= digits);
    } else {
        assert(digits.drop_last().subrange(0, i) =~= digits.subrange(0, i));
        lemma_decimal_value_grows(digits.drop_last(), i);
    }
}

/// A run of letters is a keyword exactly where it spells that keyword,
/// letter for letter. Every other run is an identifier with the run as its
/// name, also one that begins like a keyword or goes on behind one.
pub proof fn lemma_keywords(word: Seq<u8>)
    ensures
        word_token(word) == SpecToken::LET <==> as_chars(word) == "let"@,
        word_token(word) == SpecToken::FUNCTION <==> as_chars(word) == "fn"@,
        word_token(word) == SpecToken::TRUE <==> as_chars(word) == "true"@,
        word_token(word) == SpecToken::FALSE <==> as_chars(word) == "false"@,
        word_token(word) == SpecToken::IF <==> as_chars(word) == "if"@,
        word_token(word) == SpecToken::ELSE <==> as_chars(word) == "else"@,
        word_token(word) == SpecToken::RETURN <==> as_chars(word) == "return"@,
        word_token(word) == SpecToken::IDENT(as_chars(word)) <==> !(as_chars(word) == "let"@
            || as_chars(word) == "fn"@ || as_chars(word) == "true"@ || as_chars(word)
            == "false"@ || as_chars(word) == "if"@ || as_chars(word) == "else"@ || as_chars(word)
            == "return"@),
{
    reveal_strlit("let");
    reveal_strlit("fn");
    reveal_strlit("true");
    reveal_strlit("false");
    reveal_strlit("if");
    reveal_strlit("else");
    reveal_strlit("return");
    assert("let"@.len() == 3 && "fn"@.len() == 2 && "true"@.len() == 4);
    assert("false"@.len() == 5 && "if"@.len() == 2 && "else"@.len() == 4);
    assert("return"@.len() == 6);
    assert("fn"@[0] != "if"@[0]);
    assert("true"@[0] != "else"@[0]);
}

/// `=` and `!` take a `=` that follows them at once into one token with
/// them; before any other byte, and at the end of the input, each is a token
/// of its own.
pub proof fn lemma_two_byte_operators(input: Seq<u8>, start: int)
    requires
        0 <= start < input.len(),
        input[start] == '=' as u8 || input[start] == '!' as u8,
    ensures
        byte_at(input, start + 1) == '=' as u8 ==> token_end(input, start) == start + 2
            && token_at(input, start) == if input[start] == '=' as u8 {
            SpecToken::EQ
        } else {
            SpecToken::NEQ
        },
        byte_at(input, start + 1) != '=' as u8 ==> token_end(input, start) == start + 1
            && token_at(input, start) == if input[start] == '=' as u8 {
            SpecToken::ASSIGN
        } else {
            SpecToken::BANG
        },
{
}

/// Once nothing but whitespace is left of the input, every call hands out
/// the end marker, at the place just behind the last byte. The first such
/// call reads what is left; from then on a call changes nothing.
pub proof fn lemma_end_marker_repeats(state: LexerState, n: nat)
    requires
        state.wf(),
        state.exhausted(),
    ensures
        state.token(n) == (SpecTokenWithMeta {
            token: SpecToken::EOF,
            pos: state.input.len(),
            row: row_of(state.input, state.input.len() as int),
            col: col_of(state.input, state.input.len() as int),
        }),
        state.after_tokens(n).wf(),
        state.after_tokens(n).exhausted(),
        n >= 1 ==> state.after_tokens(n) == state.after_token(),
    decreases n,
{
    reveal(LexerState::next_token);
    reveal(LexerState::after_token);
    lemma_token_end(state);
    lemma_after_token_wf(state);
    let after = state.after_token();
    assert(after.cursor() == state.input.len());
    assert(after.exhausted());
    assert(after.after_token() == after) by {
        lemma_token_end(after);
    }
    assert(state.after_tokens(1) == after) by {
        assert(after.after_tokens(0) == after);
    }
    assert(state.after_tokens(0) == state);
    if n >= 1 {
        lemma_end_marker_repeats(after, (n - 1) as nat);
        if n >= 2 {
            assert(after.after_tokens((n - 1) as nat) == after.after_token());
        } else {
            assert(after.after_tokens(0) == after);
        }
    }
}

/// Whether the bytes of `word` spell `keyword`.
fn spells(word: &[u8], keyword: &str) -> (yes: bool)
    requires
        is_ascii(keyword),
    ensures
        yes == (as_chars(word@) == keyword@),
{
    broadcast use is_ascii_spec_bytes;

    let letters = keyword.as_bytes();
    if word.len() != letters.len() {
        return false;
    }
    let mut i: usize = 0;
    while i < word.len()
        invariant
            i <= word@.len(),
            word@.len() == letters@.len(),
            letters@ == keyword.spec_bytes(),
            is_ascii(keyword),
            forall|j: int| 0 <= j < i ==> as_chars(word@)[j] == keyword@[j],
        decreases word@.len() - i,
    {
        if word[i] != letters[i] {
            assert(as_chars(word@)[i as int] != keyword@[i as int]);
            return false;
        }
        i += 1;
    }
    assert(as_chars(word@) =~= keyword@);
    true
}

/// The characters that the bytes of `word` stand for.
fn text_of(word: &[u8]) -> (text: String)
    ensures
        text@ == as_chars(word@),
{
    let mut text = String::new();
    let mut i: usize = 0;
    while i < word.len()
        invariant
            i <= word@.len(),
            text@ == as_chars(word@.subrange(0, i as int)),
        decreases word@.len() - i,
    {
        text.push(word[i] as char);
        i += 1;
        assert(text@ =~= as_chars(word@.subrange(0, i as int)));
    }
    assert(word@.subrange(0, i as int) =~= word@);
    text
}

/// The token for the run of letters `word`.
fn word_to_token(word: &[u8]) -> (token: Token)
    ensures
        token@ == word_token(word@),
{
    proof {
        reveal_strlit("let");
        reveal_strlit("fn");
        reveal_strlit("true");
        reveal_strlit("false");
        reveal_strlit("if");
        reveal_strlit("else");
        reveal_strlit("return");
    }
    if spells(word, "let") {
        Token::LET
    } else if spells(word, "fn") {
        Token::FUNCTION
    } else if spells(word, "true") {
        Token::TRUE
    } else if spells(word, "false") {
        Token::FALSE
    } else if spells(word, "if") {
        Token::IF
    } else if spells(word, "else") {
        Token::ELSE
    } else if spells(word, "return") {
        Token::RETURN
    } else {
        Token::IDENT(text_of(word))
    }
}

/// The token for the run of digits `digits`.
fn digits_to_token(digits: &[u8]) -> (token: Token)
    requires
        forall|j: int| 0 <= j < digits@.len() ==> digit(#[trigger] digits@[j]),
    ensures
        token@ == number_token(digits@),
{
    let mut value: u64 = 0;
    let mut i: usize = 0;
    while i < digits.len()
        invariant
            i <= digits@.len(),
            forall|j: int| 0 <= j < digits@.len() ==> digit(#[trigger] digits@[j]),
            value == decimal_value(digits@.subrange(0, i as int)),
            value <= i32::MAX,
        decreases digits@.len() - i,
    {
        let d: u8 = digits[i] - '0' as u8;
        let next: u64 = value * 10 + d as u64;
        proof {
            let longer = digits@.subrange(0, i + 1);
            assert(longer.drop_last() =~= digits@.subrange(0, i as int));
            assert(longer.last() == digits@[i as int]);
            assert(next == decimal_value(longer));
        }
        if next > 2147483647 {
            proof {
                lemma_decimal_value_grows(digits@, i + 1);
            }
            return Token::ILLEGAL;
        }
        value = next;
        i += 1;
    }
    assert(digits@.subrange(0, i as int) =~= digits@);
    Token::INT(value as i32)
}

/// A tokenizer over a byte buffer. It computes one token per call of
/// [`Lexer::next_token`].
///
/// It keeps the place of the token that it handed out last, and what the
/// characters read since then add to the row and to the column; the place of
/// the next token is made of the two when the scan for that token begins.
pub struct Lexer<'a> {
    input: &'a [u8],
    position: usize,
    read_position: usize,
    ch: u8,
    token_pos: usize,
    token_row_pos: u32,
    token_col_pos: u32,
    token_row_pos_delta: u32,
    token_col_pos_delta: u32,
}

impl<'a> View for Lexer<'a> {
    type V = LexerState;

    closed spec fn view(&self) -> LexerState {
        LexerState { input: self.input@, reads: self.read_position as nat }
    }
}

impl<'a> Lexer<'a> {
    /// The fields that cache a part of the state agree with it: the current
    /// character and its index, the place that was recorded last, and what
    /// the characters from there to the current one add to it. A line feed
    /// adds a row and makes the column start again.
    pub closed spec fn coherent(&self) -> bool {
        let input = self.input@;
        let cursor = self@.cursor();
        &&& self.position == cursor
        &&& self.ch == self@.current()
        &&& self.token_pos <= cursor
        &&& self.token_row_pos == row_of(input, self.token_pos as int)
        &&& self.token_col_pos == col_of(input, self.token_pos as int)
        &&& self.token_row_pos + self.token_row_pos_delta == row_of(input, cursor)
        &&& self.token_row_pos_delta == 0 ==> {
            &&& line_start(input, cursor) == line_start(input, self.token_pos as int)
            &&& self.token_col_pos_delta == cursor - self.token_pos
        }
        &&& self.token_row_pos_delta > 0 ==> self.token_col_pos_delta == col_of(input, cursor)
    }

    /// The invariant of a tokenizer.
    pub open spec fn wf(&self) -> bool {
        &&& self@.wf()
        &&& self.coherent()
    }

    /// A tokenizer at the start of `input`.
    pub fn new(input: &'a [u8]) -> (lexer: Self)
        requires
            input@.len() < u32::MAX,
        ensures
            lexer.wf(),
            lexer@ == LexerState::start(input@),
    {
        Self {
            input,
            position: 0,
            read_position: 0,
            ch: 0,
            token_pos: 0,
            token_row_pos: 0,
            token_col_pos: 0,
            token_row_pos_delta: 0,
            token_col_pos_delta: 0,
        }
    }

    /// Reads the next character and makes it the current one. Behind the
    /// last byte of the input a zero is read, once; a call after that
    /// changes nothing.
    pub fn read_char(&mut self)
        requires
            old(self).wf(),
        ensures
            final(self).wf(),
            final(self)@ == old(self)@.read(),
    {
        let size = self.input.len();
        if self.read_position > size {
            return;
        }
        if self.read_position > 0 {
            proof {
                lemma_place(self.input@, self.position as int);
                lemma_place(self.input@, self.position + 1);
                lemma_place(self.input@, self.token_pos as int);
            }
            if is_newline(self.ch) {
                self.token_col_pos_delta = 0;
                self.token_row_pos_delta += 1;
            } else {
                self.token_col_pos_delta += 1;
            }
        }
        self.ch = if self.read_position >= size {
            0
        } else {
            self.input[self.read_position]
        };
        self.position = self.read_position;
        self.read_position += 1;
    }

    /// The character after the current one, which stays where it is.
    pub fn peek_char(&self) -> (ch: u8)
        ensures
            ch == byte_at(self@.input, self@.reads as int),
    {
        if self.read_position >= self.input.len() {
            0
        } else {
            self.input[self.read_position]
        }
    }

    /// Reads on until the current character is not of `class`.
    fn read_while(&mut self, class: ByteClass)
        requires
            old(self).wf(),
            old(self)@.reads >= 1,
        ensures
            final(self).wf(),
            final(self)@.reads >= 1,
            final(self)@.input == old(self)@.input,
            final(self)@.cursor() == run_end(old(self)@.input, old(self)@.cursor(), class),
    {
        let ghost start = self@;
        let ghost end = run_end(start.input, start.cursor(), class);
        proof {
            lemma_run_end(start.input, start.cursor(), class);
        }
        while class.holds(self.ch)
            invariant
                self.wf(),
                self@.input == start.input,
                self@.cursor() <= end <= start.input.len(),
                self@.reads >= 1,
                end == run_end(start.input, self@.cursor(), class),
            decreases end - self@.cursor(),
        {
            proof {
                assert(self@.cursor() < start.input.len());
                lemma_run_end(start.input, self@.cursor() + 1, class);
            }
            self.read_char();
        }
    }

    /// Passes over the whitespace from the current character on.
    fn eat_whitespace(&mut self)
        requires
            old(self).wf(),
            old(self)@.reads >= 1,
        ensures
            final(self).wf(),
            final(self)@.reads >= 1,
            final(self)@.input == old(self)@.input,
            final(self)@.cursor() == old(self)@.token_start(),
    {
        self.read_while(ByteClass::Whitespace)
    }

    /// Records the place of the current character as that of the token
    /// that starts with it, and hands it out: byte offset, row, column.
    fn record_place(&mut self) -> (place: (usize, u32, u32))
        requires
            old(self).wf(),
        ensures
            final(self).wf(),
            final(self)@ == old(self)@,
            place.0 == old(self)@.cursor(),
            place.1 == row_of(old(self)@.input, old(self)@.cursor()),
            place.2 == col_of(old(self)@.input, old(self)@.cursor()),
    {
        proof {
            lemma_place(self.input@, self.position as int);
            lemma_place(self.input@, self.token_pos as int);
        }
        self.token_pos = self.position;
        self.token_row_pos += self.token_row_pos_delta;
        self.token_col_pos = if self.token_row_pos_delta > 0 {
            self.token_col_pos_delta
        } else {
            self.token_col_pos + self.token_col_pos_delta
        };
        self.token_row_pos_delta = 0;
        self.token_col_pos_delta = 0;
        (self.token_pos, self.token_row_pos, self.token_col_pos)
    }

    /// Reads the run of letters that starts at the current character and
    /// hands it out.
    fn read_string(&mut self) -> (word: &'a [u8])
        requires
            old(self).wf(),
            old(self)@.reads >= 1,
        ensures
            final(self).wf(),
            final(self)@.reads >= 1,
            final(self)@.input == old(self)@.input,
            final(self)@.cursor() == run_end(
                old(self)@.input,
                old(self)@.cursor(),
                ByteClass::Letter,
            ),
            word@ == old(self)@.input.subrange(old(self)@.cursor(), final(self)@.cursor()),
    {
        let start = self.position;
        proof {
            lemma_run_end(self@.input, self@.cursor(), ByteClass::Letter);
        }
        self.read_while(ByteClass::Letter);
        slice_subrange(self.input, start, self.position)
    }

    /// Reads the run of digits that starts at the current character and
    /// hands out its token.
    fn read_int(&mut self) -> (token: Token)
        requires
            old(self).wf(),
            old(self)@.reads >= 1,
        ensures
            final(self).wf(),
            final(self)@.reads >= 1,
            final(self)@.input == old(self)@.input,
            final(self)@.cursor() == run_end(
                old(self)@.input,
                old(self)@.cursor(),
                ByteClass::Digit,
            ),
            token@ == number_token(
                old(self)@.input.subrange(old(self)@.cursor(), final(self)@.cursor()),
            ),
    {
        let start = self.position;
        proof {
            lemma_run_end(self@.input, self@.cursor(), ByteClass::Digit);
        }
        self.read_while(ByteClass::Digit);
        let digits = slice_subrange(self.input, start, self.position);
        assert forall|j: int| 0 <= j < digits@.len() implies digit(#[trigger] digits@[j]) by {
            assert(ByteClass::Digit.has(self@.input[start + j]));
        }
        digits_to_token(digits)
    }

    /// Hands out the token that starts with the current character, which is
    /// neither a letter nor a digit, and reads on to the character behind it.
    fn match_char(&mut self) -> (token: Token)
        requires
            old(self).wf(),
            old(self)@.reads >= 1,
            !letter(old(self)@.current()),
            !digit(old(self)@.current()),
        ensures
            final(self).wf(),
            final(self)@.reads >= 1,
            final(self)@.input == old(self)@.input,
            token@ == token_at(old(self)@.input, old(self)@.cursor()),
            final(self)@.cursor() == token_end(old(self)@.input, old(self)@.cursor()),
    {
        let token = match self.ch as char {
            '=' => {
                if self.peek_char() == '=' as u8 {
                    self.read_char();
                    Token::EQ
                } else {
                    Token::ASSIGN
                }
            },
            '!' => {
                if self.peek_char() == '=' as u8 {
                    self.read_char();
                    Token::NEQ
                } else {
                    Token::BANG
                }
            },
            ';' => Token::SEMICOLON,
            '(' => Token::LPAREN,
            ')' => Token::RPAREN,
            ',' => Token::COMMA,
            '+' => Token::PLUS,
            '-' => Token::MINUS,
            '{' => Token::LBRACE,
            '}' => Token::RBRACE,
            '*' => Token::ASTERISK,
            '/' => Token::SLASH,
            '<' => Token::LT,
            '>' => Token::GT,
            '\0' => Token::EOF,
            _ => Token::ILLEGAL,
        };
        self.read_char();
        token
    }

    /// Hands out the token that starts with the current character, which is
    /// no whitespace, and reads on to the character behind it.
    fn scan_token(&mut self) -> (token: Token)
        requires
            old(self).wf(),
            old(self)@.reads >= 1,
        ensures
            final(self).wf(),
            final(self)@.reads >= 1,
            final(self)@.input == old(self)@.input,
            token@ == token_at(old(self)@.input, old(self)@.cursor()),
            final(self)@.cursor() == token_end(old(self)@.input, old(self)@.cursor()),
    {
        if is_letter(self.ch) {
            word_to_token(self.read_string())
        } else if is_digit(self.ch) {
            self.read_int()
        } else {
            self.match_char()
        }
    }

    /// Hands out the next token with the place of its first byte, and reads
    /// on to the character behind the token. A zero byte gives the end
    /// marker, and so does the end of the input, on every call from then on.
    /// A run of digits whose number does not fit in 32 signed bits gives the
    /// unrecognized token, as does any byte that starts no token.
    pub fn next_token(&mut self) -> (token: TokenWithMeta)
        requires
            old(self).wf(),
        ensures
            final(self).wf(),
            token@ == old(self)@.next_token(),
            final(self)@ == old(self)@.after_token(),
            old(self)@.exhausted() ==> token@.token == SpecToken::EOF && final(self)@.exhausted(),
    {
        let ghost start = self@;
        if self.position == 0 && self.read_position == 0 {
            self.read_char();
        }
        self.eat_whitespace();
        let place = self.record_place();
        let token = self.scan_token();
        proof {
            reveal(LexerState::next_token);
            reveal(LexerState::after_token);
            if start.exhausted() {
                lemma_end_marker_repeats(start, 1);
                assert(start.after_tokens(1) == start.after_token()) by {
                    assert(start.after_token().after_tokens(0) == start.after_token());
                }
            }
        }
        TokenWithMeta { token, pos: place.0, row_pos: place.1, col_pos: place.2 }
    }
}

/// The tokens up to the first end marker are those that the tokenizer hands
/// out call by call. The end marker is the last of them, and none of those
/// before it is one.
pub proof fn lemma_tokens(state: LexerState)
    ensures
        state.tokens().len() >= 1,
        forall|i: int|
            0 <= i < state.tokens().len() ==> #[trigger] state.tokens()[i] == state.token(
                i as nat,
            ),
        state.tokens().last().token == SpecToken::EOF,
        forall|i: int|
            0 <= i < state.tokens().len() - 1 ==> (#[trigger] state.tokens()[i]).token
                != SpecToken::EOF,
    decreases state.unread(),
{
    let next = state.next_token();
    assert(state.after_tokens(0) == state);
    if next.token != SpecToken::EOF {
        let after = state.after_token();
        lemma_after_token_reads(state);
        lemma_tokens(after);
        assert forall|i: int| 0 <= i < state.tokens().len() implies #[trigger] state.tokens()[i]
            == state.token(i as nat) by {
            if i > 0 {
                assert(state.tokens()[i] == after.tokens()[i - 1]);
                assert(state.after_tokens(i as nat) == after.after_tokens((i - 1) as nat));
            }
        }
        assert forall|i: int| 0 <= i < state.tokens().len() - 1 implies (
        #[trigger] state.tokens()[i]).token != SpecToken::EOF by {
            if i > 0 {
                assert(state.tokens()[i] == after.tokens()[i - 1]);
            }
        }
    }
}

/// The values of a list of tokens.
pub open spec fn tokens_of(tokens: Seq<TokenWithMeta>) -> Seq<SpecTokenWithMeta> {
    tokens.map_values(|token: TokenWithMeta| token@)
}

/// The tokens of `input` up to the first end marker, which is the last of
/// them.
pub fn tokenize(input: &[u8]) -> (tokens: Vec<TokenWithMeta>)
    requires
        input@.len() < u32::MAX,
    ensures
        tokens_of(tokens@) == LexerState::start(input@).tokens(),
{
    let mut lexer = Lexer::new(input);
    let mut tokens: Vec<TokenWithMeta> = Vec::new();
    let mut done = false;
    while !done
        invariant
            lexer.wf(),
            LexerState::start(input@).tokens() == if done {
                tokens_of(tokens@)
            } else {
                tokens_of(tokens@) + lexer@.tokens()
            },
        decreases
            if done {
                0
            } else {
                lexer@.unread() + 1
            },
    {
        let ghost before = lexer@;
        let ghost gathered = tokens_of(tokens@);
        proof {
            lemma_after_token_reads(before);
        }
        let token = lexer.next_token();
        done = token.token == Token::EOF;
        tokens.push(token);
        assert(tokens_of(tokens@) =~= gathered.push(before.next_token()));
        assert(gathered + before.tokens() =~= if done {
            tokens_of(tokens@)
        } else {
            tokens_of(tokens@) + lexer@.tokens()
        });
    }
    tokens
}

} // verus!
