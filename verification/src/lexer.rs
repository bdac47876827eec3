//! A lexical analyzer for a Lisp-like language.
//!
//! The lexer walks a character sequence with a single forward cursor and
//! running line/column counters, and produces positioned tokens. Its whole
//! behaviour is stated against a recursive specification of the token stream
//! (`spec_tokenize`): what each token's kind, text and position are for any
//! input.

use vstd::prelude::*;
use crate::text::{spec_alphanumeric, is_alphanumeric_char, str_to_chars, chars_to_string, spec_dec, push_dec, push_str_chars};
use crate::token::TokenType;

verus! {

// ---------------------------------------------------------------------------
// Token values
// ---------------------------------------------------------------------------

/// Token values for a Lisp-like language, carrying their text.
#[derive(Debug, Clone)]
pub enum TokenEnum {
    /// `(`
    LeftParen,
    /// `)`
    RightParen,
    /// `'`
    Quote,
    /// identifiers and operators
    Symbol(String),
    /// a numeric literal, kept as its source text
    Number(String),
    /// a string literal's unescaped content
    String(String),
    /// `#t` or `#f`
    Bool(bool),
    /// end of input
    EOF,
    /// a lexical error, carrying its message
    Error(String),
}

/// The mathematical value of a token: the same nine kinds, with texts as
/// character sequences.
pub enum STok {
    LeftParen,
    RightParen,
    Quote,
    Symbol(Seq<char>),
    Number(Seq<char>),
    StringLit(Seq<char>),
    Bool(bool),
    Eof,
    Error(Seq<char>),
}

impl TokenEnum {
    /// The mathematical value of this token.
    pub open spec fn model(self) -> STok {
        match self {
            TokenEnum::LeftParen => STok::LeftParen,
            TokenEnum::RightParen => STok::RightParen,
            TokenEnum::Quote => STok::Quote,
            TokenEnum::Symbol(s) => STok::Symbol(s@),
            TokenEnum::Number(s) => STok::Number(s@),
            TokenEnum::String(s) => STok::StringLit(s@),
            TokenEnum::Bool(b) => STok::Bool(b),
            TokenEnum::EOF => STok::Eof,
            TokenEnum::Error(s) => STok::Error(s@),
        }
    }
}

/// A token value together with the position of its first character.
pub struct Token {
    pub token: TokenEnum,
    pub line: usize,
    pub column: usize,
}

/// The mathematical value of a positioned token.
pub struct SPosTok {
    pub tok: STok,
    pub line: nat,
    pub col: nat,
}

impl Token {
    /// The mathematical value of this positioned token.
    pub open spec fn model(self) -> SPosTok {
        SPosTok { tok: self.token.model(), line: self.line as nat, col: self.column as nat }
    }

    /// Creates a new Token instance with the given token value and
    /// (line, column) position.
    fn init_instance(token: TokenEnum, position: (usize, usize)) -> (r: Token)
        ensures
            r.model().tok == token.model(),
            r.model().line == position.0 as nat,
            r.model().col == position.1 as nat,
    {
        let (line, column) = position;
        Token { token, line, column }
    }
}

// ---------------------------------------------------------------------------
// The cursor and its movement
// ---------------------------------------------------------------------------

/// A position in the input: the index of the next character to read, and the
/// line/column counters as the lexer keeps them.
pub struct Cursor {
    pub i: int,
    pub line: nat,
    pub col: nat,
}

/// The cursor after consuming the character at `cur.i`: the column advances,
/// except that a newline moves to the start of the next line.
pub open spec fn step(s: Seq<char>, cur: Cursor) -> Cursor
    recommends
        0 <= cur.i < s.len(),
{
    if s[cur.i] == '\n' {
        Cursor { i: cur.i + 1, line: cur.line + 1, col: 0 }
    } else {
        Cursor { i: cur.i + 1, line: cur.line, col: cur.col + 1 }
    }
}

/// The cursor after consuming every character from `cur.i` up to `j`.
pub open spec fn cursor_at(s: Seq<char>, cur: Cursor, j: int) -> Cursor
    recommends
        cur.i <= j <= s.len(),
    decreases j - cur.i,
{
    if j <= cur.i {
        cur
    } else {
        cursor_at(s, step(s, cur), j)
    }
}

/// Consuming up to `j + 1` is consuming up to `j` and then one more step.
pub proof fn lemma_cursor_at_snoc(s: Seq<char>, cur: Cursor, j: int)
    requires
        cur.i <= j < s.len(),
    ensures
        cursor_at(s, cur, j + 1) == step(s, cursor_at(s, cur, j)),
    decreases j - cur.i,
{
    if j > cur.i {
        lemma_cursor_at_snoc(s, step(s, cur), j);
    } else {
        assert(cursor_at(s, cur, j + 1) == cursor_at(s, step(s, cur), j + 1));
        assert(cursor_at(s, step(s, cur), j + 1) == step(s, cur));
    }
}

/// Consuming up to `j` lands the index exactly at `j`.
pub proof fn lemma_cursor_at_index(s: Seq<char>, cur: Cursor, j: int)
    requires
        cur.i <= j,
    ensures
        cursor_at(s, cur, j).i == j,
    decreases j - cur.i,
{
    if j > cur.i {
        lemma_cursor_at_index(s, step(s, cur), j);
    }
}

// ---------------------------------------------------------------------------
// Character classes
// ---------------------------------------------------------------------------

/// Whitespace skipped between tokens.
pub open spec fn is_space(c: char) -> bool {
    c == ' ' || c == '\n' || c == '\t' || c == '\r'
}

/// A decimal digit.
pub open spec fn is_digit(c: char) -> bool {
    '0' <= c && c <= '9'
}

/// A character that may continue a symbol.
pub open spec fn is_symbol_char(c: char) -> bool {
    spec_alphanumeric(c) || c == '+' || c == '-' || c == '*' || c == '/' || c == '=' || c == '<'
        || c == '>' || c == '!' || c == '_' || c == '?'
}

/// A character the lexer recognizes at all: alphanumeric, or one of the
/// punctuation set `()[]{}"'`,;#|\+-*/=<>!?_.` and whitespace.
pub open spec fn is_valid_char(c: char) -> bool {
    spec_alphanumeric(c) || c == '(' || c == ')' || c == '[' || c == ']' || c == '{' || c == '}'
        || c == '"' || c == '\'' || c == '`' || c == ',' || c == ';' || c == '#' || c == '|'
        || c == '\\' || c == '+' || c == '-' || c == '*' || c == '/' || c == '=' || c == '<'
        || c == '>' || c == '!' || c == '?' || c == '_' || c == '.' || c == ' ' || c == '\t'
        || c == '\n' || c == '\r'
}

// ---------------------------------------------------------------------------
// Whitespace and comments
// ---------------------------------------------------------------------------

/// The cursor after a line comment: every character through the next newline
/// (or to the end of the input) is consumed.
pub open spec fn spec_skip_comment(s: Seq<char>, cur: Cursor) -> Cursor
    decreases s.len() - cur.i,
{
    if !(0 <= cur.i < s.len()) {
        cur
    } else {
        let c = s[cur.i];
        let nxt = step(s, cur);
        if c == '\n' {
            nxt
        } else {
            spec_skip_comment(s, nxt)
        }
    }
}

/// Skipping a comment never moves backwards and never leaves the input.
pub proof fn lemma_skip_comment_bounds(s: Seq<char>, cur: Cursor)
    requires
        0 <= cur.i <= s.len(),
    ensures
        cur.i <= spec_skip_comment(s, cur).i <= s.len(),
    decreases s.len() - cur.i,
{
    if 0 <= cur.i < s.len() && s[cur.i] != '\n' {
        lemma_skip_comment_bounds(s, step(s, cur));
    }
}

/// The cursor after skipping whitespace and line comments: runs of space,
/// tab, carriage return and newline are consumed, and a `;` consumes the
/// rest of its line.
pub open spec fn spec_trim(s: Seq<char>, cur: Cursor) -> Cursor
    decreases s.len() - cur.i,
        via spec_trim_decreases
{
    if !(0 <= cur.i < s.len()) {
        cur
    } else {
        let c = s[cur.i];
        if is_space(c) {
            spec_trim(s, step(s, cur))
        } else if c == ';' {
            spec_trim(s, spec_skip_comment(s, step(s, cur)))
        } else {
            cur
        }
    }
}

#[via_fn]
proof fn spec_trim_decreases(s: Seq<char>, cur: Cursor) {
    if 0 <= cur.i < s.len() {
        lemma_skip_comment_bounds(s, step(s, cur));
    }
}

/// Trimming never moves backwards and never leaves the input.
pub proof fn lemma_trim_bounds(s: Seq<char>, cur: Cursor)
    requires
        0 <= cur.i <= s.len(),
    ensures
        cur.i <= spec_trim(s, cur).i <= s.len(),
    decreases s.len() - cur.i,
{
    if 0 <= cur.i < s.len() {
        let c = s[cur.i];
        if is_space(c) {
            lemma_trim_bounds(s, step(s, cur));
        } else if c == ';' {
            lemma_skip_comment_bounds(s, step(s, cur));
            lemma_trim_bounds(s, spec_skip_comment(s, step(s, cur)));
        }
    }
}

// ---------------------------------------------------------------------------
// Token scans
// ---------------------------------------------------------------------------

/// The index just past a run of symbol characters starting at `i`.
pub open spec fn spec_scan_symbol(s: Seq<char>, i: int) -> int
    decreases s.len() - i,
{
    if 0 <= i < s.len() && is_symbol_char(s[i]) {
        spec_scan_symbol(s, i + 1)
    } else {
        i
    }
}

/// A symbol scan never moves backwards and never leaves the input.
pub proof fn lemma_scan_symbol_bounds(s: Seq<char>, i: int)
    ensures
        i <= spec_scan_symbol(s, i),
        i <= s.len() ==> spec_scan_symbol(s, i) <= s.len(),
    decreases s.len() - i,
{
    if 0 <= i < s.len() && is_symbol_char(s[i]) {
        lemma_scan_symbol_bounds(s, i + 1);
    }
}

/// The index just past a number's remaining characters starting at `i`:
/// digits, and at most one `.` counting the one already seen when `dot`.
pub open spec fn spec_scan_number(s: Seq<char>, i: int, dot: bool) -> int
    decreases s.len() - i,
{
    if 0 <= i < s.len() && is_digit(s[i]) {
        spec_scan_number(s, i + 1, dot)
    } else if 0 <= i < s.len() && s[i] == '.' && !dot {
        spec_scan_number(s, i + 1, true)
    } else {
        i
    }
}

/// A number scan never moves backwards and never leaves the input.
pub proof fn lemma_scan_number_bounds(s: Seq<char>, i: int, dot: bool)
    ensures
        i <= spec_scan_number(s, i, dot),
        i <= s.len() ==> spec_scan_number(s, i, dot) <= s.len(),
    decreases s.len() - i,
{
    if 0 <= i < s.len() && is_digit(s[i]) {
        lemma_scan_number_bounds(s, i + 1, dot);
    } else if 0 <= i < s.len() && s[i] == '.' && !dot {
        lemma_scan_number_bounds(s, i + 1, true);
    }
}

/// What an escape sequence `\c` stands for: `\n`, `\t` and `\r` become their
/// control characters; any other escaped character stands for itself.
pub open spec fn esc_char(c: char) -> char {
    if c == 'n' {
        '\n'
    } else if c == 't' {
        '\t'
    } else if c == 'r' {
        '\r'
    } else {
        c
    }
}

/// The result of scanning a string literal's body: the index just past the
/// closing quote (or as far as the input reaches), and the unescaped content.
pub struct StrScan {
    pub end: int,
    pub content: Seq<char>,
}

/// Scans a string literal's body from `i` (just after the opening quote):
/// consumes until an unescaped `"`, translating escape sequences; an
/// unterminated literal consumes to the end of the input.
pub open spec fn spec_scan_string(s: Seq<char>, i: int) -> StrScan
    decreases s.len() - i,
{
    if !(0 <= i < s.len()) {
        StrScan { end: i, content: seq![] }
    } else if s[i] == '"' {
        StrScan { end: i + 1, content: seq![] }
    } else if s[i] == '\\' {
        if i + 1 < s.len() {
            let rest = spec_scan_string(s, i + 2);
            StrScan { end: rest.end, content: seq![esc_char(s[i + 1])] + rest.content }
        } else {
            StrScan { end: i + 1, content: seq![] }
        }
    } else {
        let rest = spec_scan_string(s, i + 1);
        StrScan { end: rest.end, content: seq![s[i]] + rest.content }
    }
}

/// A string scan never moves backwards and never leaves the input.
pub proof fn lemma_scan_string_bounds(s: Seq<char>, i: int)
    ensures
        i <= spec_scan_string(s, i).end,
        i <= s.len() ==> spec_scan_string(s, i).end <= s.len(),
    decreases s.len() - i,
{
    if 0 <= i < s.len() && s[i] == '"' {
    } else if 0 <= i < s.len() && s[i] == '\\' && i + 1 < s.len() {
        lemma_scan_string_bounds(s, i + 2);
    } else if 0 <= i < s.len() && s[i] != '"' && s[i] != '\\' {
        lemma_scan_string_bounds(s, i + 1);
    }
}

// ---------------------------------------------------------------------------
// One token
// ---------------------------------------------------------------------------

/// The message of a lex-error token: the offending character and the
/// position of its first character.
pub open spec fn spec_error_msg(c: char, line: nat, col: nat) -> Seq<char> {
    "invalid character "@ + seq![c] + " at line "@ + spec_dec(line as int) + ", column "@
        + spec_dec(col as int)
}

/// The value of the token starting at `t` (a trimmed cursor inside the
/// input), and the cursor after it.
pub open spec fn spec_token_body(s: Seq<char>, t: Cursor) -> (STok, Cursor)
    recommends
        0 <= t.i < s.len(),
{
    let c = s[t.i];
    let u = step(s, t);
    if !is_valid_char(c) {
        (STok::Error(spec_error_msg(c, t.line, t.col)), u)
    } else if c == '(' {
        (STok::LeftParen, u)
    } else if c == ')' {
        (STok::RightParen, u)
    } else if c == '\'' {
        (STok::Quote, u)
    } else if c == '"' {
        let sc = spec_scan_string(s, u.i);
        (STok::StringLit(sc.content), cursor_at(s, u, sc.end))
    } else if c == '#' {
        if u.i < s.len() && s[u.i] == 't' {
            (STok::Bool(true), step(s, u))
        } else if u.i < s.len() && s[u.i] == 'f' {
            (STok::Bool(false), step(s, u))
        } else if u.i >= s.len() {
            (STok::Symbol(seq!['#']), u)
        } else {
            let end = spec_scan_symbol(s, u.i);
            (STok::Symbol(s.subrange(t.i, end)), cursor_at(s, u, end))
        }
    } else if is_digit(c) {
        let end = spec_scan_number(s, u.i, false);
        (STok::Number(s.subrange(t.i, end)), cursor_at(s, u, end))
    } else if (c == '+' || c == '-') && u.i < s.len() && is_digit(s[u.i]) {
        let end = spec_scan_number(s, u.i, false);
        (STok::Number(s.subrange(t.i, end)), cursor_at(s, u, end))
    } else {
        let end = spec_scan_symbol(s, u.i);
        (STok::Symbol(s.subrange(t.i, end)), cursor_at(s, u, end))
    }
}

/// The next token from cursor `cur`: its value, the position of its first
/// character (after trimming), and the cursor after it.
pub struct NextTok {
    pub tok: STok,
    pub line: nat,
    pub col: nat,
    pub next: Cursor,
}

/// Trims, then reads one token; at the end of the input the token is Eof.
pub open spec fn spec_next_token(s: Seq<char>, cur: Cursor) -> NextTok {
    let t = spec_trim(s, cur);
    if t.i >= s.len() {
        NextTok { tok: STok::Eof, line: t.line, col: t.col, next: t }
    } else {
        let body = spec_token_body(s, t);
        NextTok { tok: body.0, line: t.line, col: t.col, next: body.1 }
    }
}

/// A token other than Eof consumes at least one character, and the cursor
/// never leaves the input.
pub proof fn lemma_next_token_advances(s: Seq<char>, cur: Cursor)
    requires
        cur.i <= s.len(),
    ensures
        !(spec_next_token(s, cur).tok is Eof) ==> cur.i < spec_next_token(s, cur).next.i
            <= s.len(),
{
    let t = spec_trim(s, cur);
    lemma_trim_bounds_total(s, cur);
    if t.i < s.len() {
        let u = step(s, t);
        lemma_scan_symbol_bounds(s, u.i);
        lemma_scan_number_bounds(s, u.i, false);
        lemma_scan_string_bounds(s, u.i);
        let sym_end = spec_scan_symbol(s, u.i);
        let num_end = spec_scan_number(s, u.i, false);
        let str_end = spec_scan_string(s, u.i).end;
        lemma_cursor_at_index(s, u, sym_end);
        lemma_cursor_at_index(s, u, num_end);
        lemma_cursor_at_index(s, u, str_end);
    }
}

/// Trimming never moves backwards and never leaves the input, from any
/// starting index at or below the input's length.
pub proof fn lemma_trim_bounds_total(s: Seq<char>, cur: Cursor)
    requires
        cur.i <= s.len(),
    ensures
        cur.i <= spec_trim(s, cur).i <= s.len(),
{
    if 0 <= cur.i {
        lemma_trim_bounds(s, cur);
    }
}

// ---------------------------------------------------------------------------
// The token stream
// ---------------------------------------------------------------------------

/// The whole token stream from cursor `cur`: every token with its position,
/// terminated by exactly one Eof token.
pub open spec fn spec_tokenize(s: Seq<char>, cur: Cursor) -> Seq<SPosTok>
    recommends
        0 <= cur.i <= s.len(),
    decreases s.len() - cur.i,
        via spec_tokenize_decreases
{
    let n = spec_next_token(s, cur);
    let tk = SPosTok { tok: n.tok, line: n.line, col: n.col };
    if n.tok is Eof {
        seq![tk]
    } else {
        seq![tk] + spec_tokenize(s, n.next)
    }
}

#[via_fn]
proof fn spec_tokenize_decreases(s: Seq<char>, cur: Cursor) {
    if cur.i <= s.len() {
        lemma_next_token_advances(s, cur);
    } else {
        lemma_trim_bounds_gt(s, cur);
    }
}

/// Starting past the end of the input, trimming does nothing.
pub proof fn lemma_trim_bounds_gt(s: Seq<char>, cur: Cursor)
    requires
        cur.i > s.len(),
    ensures
        spec_trim(s, cur) == cur,
{
}

// ---------------------------------------------------------------------------
// The lexer
// ---------------------------------------------------------------------------

/// A lexical analyzer: a forward cursor over the input characters with
/// running line and column counters.
pub struct Lexer {
    input: Vec<char>,
    pos: usize,
    line: usize,
    column: usize,
}

impl Lexer {
    /// The input as a character sequence.
    pub closed spec fn src(self) -> Seq<char> {
        self.input@
    }

    /// The current cursor.
    pub closed spec fn cursor(self) -> Cursor {
        Cursor { i: self.pos as int, line: self.line as nat, col: self.column as nat }
    }

    /// The cursor stays inside the input and the counters stay small enough
    /// that advancing them cannot overflow.
    pub closed spec fn wf(self) -> bool {
        &&& self.pos <= self.input@.len()
        &&& self.input@.len() < usize::MAX
        &&& self.line <= self.pos + 1
        &&& self.column <= self.pos
    }

    /// Creates a new Lexer for the given input, at line 1, column 0.
    pub fn new(input: &str) -> (r: Lexer)
        ensures
            r.wf(),
            r.src() == input@,
            r.cursor() == (Cursor { i: 0, line: 1 as nat, col: 0 as nat }),
    {
        Lexer { input: str_to_chars(input), pos: 0, line: 1, column: 0 }
    }

    /// Returns the current position as a (line, column) pair.
    pub fn get_position(&mut self) -> (r: (usize, usize))
        ensures
            *final(self) == *old(self),
            r.0 as nat == old(self).cursor().line,
            r.1 as nat == old(self).cursor().col,
    {
        (self.line, self.column)
    }

    /// Consumes and returns the next character, advancing the line and
    /// column counters; returns None at the end of the input.
    fn next_element(&mut self) -> (r: Option<char>)
        requires
            old(self).wf(),
        ensures
            final(self).wf(),
            final(self).src() == old(self).src(),
            old(self).cursor().i < old(self).src().len() ==> {
                &&& r == Some(old(self).src()[old(self).cursor().i])
                &&& final(self).cursor() == step(old(self).src(), old(self).cursor())
            },
            old(self).cursor().i >= old(self).src().len() ==> {
                &&& r is None
                &&& *final(self) == *old(self)
            },
    {
        if self.pos < self.input.len() {
            let c = self.input[self.pos];
            self.pos = self.pos + 1;
            if c == '\n' {
                self.line = self.line + 1;
                self.column = 0;
            } else {
                self.column = self.column + 1;
            }
            Some(c)
        } else {
            None
        }
    }

    /// Peeks at the next character without consuming it.
    fn peek_next(&self) -> (r: Option<char>)
        ensures
            self.cursor().i < self.src().len() ==> r == Some(self.src()[self.cursor().i]),
            self.cursor().i >= self.src().len() ==> r is None,
    {
        if self.pos < self.input.len() {
            Some(self.input[self.pos])
        } else {
            None
        }
    }

    /// Consumes the rest of a line comment, through the next newline or to
    /// the end of the input.
    fn skip_comment(&mut self)
        requires
            old(self).wf(),
        ensures
            final(self).wf(),
            final(self).src() == old(self).src(),
            final(self).cursor() == spec_skip_comment(old(self).src(), old(self).cursor()),
        decreases old(self).src().len() - old(self).cursor().i,
    {
        match self.next_element() {
            None => {},
            Some(c) => {
                if c != '\n' {
                    self.skip_comment();
                }
            },
        }
    }

    /// Whether the character may appear in the input at all: alphanumeric,
    /// or one of the recognized punctuation and whitespace characters.
    pub fn is_valid_character(c: &char) -> (r: bool)
        ensures
            r == is_valid_char(*c),
    {
        let ch = *c;
        is_alphanumeric_char(ch) || ch == '(' || ch == ')' || ch == '[' || ch == ']' || ch == '{'
            || ch == '}' || ch == '"' || ch == '\'' || ch == '`' || ch == ',' || ch == ';'
            || ch == '#' || ch == '|' || ch == '\\' || ch == '+' || ch == '-' || ch == '*'
            || ch == '/' || ch == '=' || ch == '<' || ch == '>' || ch == '!' || ch == '?'
            || ch == '_' || ch == '.' || ch == ' ' || ch == '\t' || ch == '\n' || ch == '\r'
    }

    /// Builds the message of a lex-error token: the offending character and
    /// the position of its first character.
    fn error_handle(&self, c: char, line: usize, column: usize) -> (r: String)
        ensures
            r@ == spec_error_msg(c, line as nat, column as nat),
    {
        let mut buf: Vec<char> = Vec::new();
        push_str_chars(&mut buf, "invalid character ");
        buf.push(c);
        push_str_chars(&mut buf, " at line ");
        push_dec(line, &mut buf);
        push_str_chars(&mut buf, ", column ");
        push_dec(column, &mut buf);
        proof {
            assert(buf@ =~= spec_error_msg(c, line as nat, column as nat));
        }
        chars_to_string(&buf)
    }

    /// Whether the next character may continue a symbol.
    fn symbol_char_at(&self) -> (r: bool)
        ensures
            r == (self.cursor().i < self.src().len() && is_symbol_char(
                self.src()[self.cursor().i],
            )),
    {
        match self.peek_next() {
            None => false,
            Some(c) => is_alphanumeric_char(c) || c == '+' || c == '-' || c == '*' || c == '/'
                || c == '=' || c == '<' || c == '>' || c == '!' || c == '_' || c == '?',
        }
    }

    /// Whether the next character may continue a number, `dot` saying
    /// whether a decimal point was already consumed.
    fn number_char_at(&self, dot: bool) -> (r: bool)
        ensures
            r == (self.cursor().i < self.src().len() && (is_digit(self.src()[self.cursor().i])
                || (self.src()[self.cursor().i] == '.' && !dot))),
    {
        match self.peek_next() {
            None => false,
            Some(c) => (c >= '0' && c <= '9') || (c == '.' && !dot),
        }
    }

    /// Tokenizes a symbol whose first character, already consumed, is
    /// `first_char`: consumes the following run of symbol characters.
    fn tokenize_symbol(&mut self, first_char: char) -> (r: TokenEnum)
        requires
            old(self).wf(),
        ensures
            final(self).wf(),
            final(self).src() == old(self).src(),
            ({
                let end = spec_scan_symbol(old(self).src(), old(self).cursor().i);
                &&& r.model() == STok::Symbol(
                    seq![first_char] + old(self).src().subrange(old(self).cursor().i, end),
                )
                &&& final(self).cursor() == cursor_at(old(self).src(), old(self).cursor(), end)
            }),
    {
        let ghost s = old(self).src();
        let ghost i0 = old(self).cursor().i;
        let mut buf: Vec<char> = Vec::new();
        buf.push(first_char);
        while self.symbol_char_at()
            invariant
                self.wf(),
                self.src() == s,
                0 <= i0 <= self.cursor().i <= s.len(),
                spec_scan_symbol(s, i0) == spec_scan_symbol(s, self.cursor().i),
                buf@ == seq![first_char] + s.subrange(i0, self.cursor().i),
                self.cursor() == cursor_at(s, old(self).cursor(), self.cursor().i),
            decreases s.len() - self.cursor().i,
        {
            let ghost j = self.cursor().i;
            proof {
                lemma_cursor_at_snoc(s, old(self).cursor(), j);
            }
            match self.next_element() {
                Some(c) => {
                    buf.push(c);
                    proof {
                        assert(buf@ =~= seq![first_char] + s.subrange(i0, j + 1));
                    }
                },
                None => {
                    proof {
                        assert(false);
                    }
                },
            }
        }
        proof {
            assert(buf@ =~= seq![first_char] + s.subrange(i0, spec_scan_symbol(s, i0)));
        }
        TokenEnum::Symbol(chars_to_string(&buf))
    }

    /// Tokenizes a number whose first character, already consumed, is
    /// `first_char` (a digit, or a sign followed by a digit): consumes
    /// digits and at most one decimal point. A sign not followed by a digit
    /// yields a symbol of the sign alone, with nothing consumed. The
    /// accumulated text is digits with at most one point, optionally signed,
    /// always a well-formed numeric literal.
    fn tokenize_number(&mut self, first_char: char) -> (r: TokenEnum)
        requires
            old(self).wf(),
        ensures
            final(self).wf(),
            final(self).src() == old(self).src(),
            ({
                let s = old(self).src();
                let i0 = old(self).cursor().i;
                if (first_char == '+' || first_char == '-') && !(i0 < s.len() && is_digit(
                    s[i0],
                )) {
                    &&& r.model() == STok::Symbol(seq![first_char])
                    &&& *final(self) == *old(self)
                } else {
                    let end = spec_scan_number(s, i0, false);
                    &&& r.model() == STok::Number(seq![first_char] + s.subrange(i0, end))
                    &&& final(self).cursor() == cursor_at(s, old(self).cursor(), end)
                }
            }),
    {
        let ghost s = old(self).src();
        let ghost i0 = old(self).cursor().i;
        let mut buf: Vec<char> = Vec::new();
        buf.push(first_char);

        if (first_char == '-' || first_char == '+') && !self.number_char_at(true) {
            return TokenEnum::Symbol(chars_to_string(&buf));
        }
        proof {
            if first_char == '-' || first_char == '+' {
                assert(i0 < s.len() && (is_digit(s[i0]) || (s[i0] == '.' && !true)));
            }
        }

        let mut dot = false;
        while self.number_char_at(dot)
            invariant
                self.wf(),
                self.src() == s,
                0 <= i0 <= self.cursor().i <= s.len(),
                spec_scan_number(s, i0, false) == spec_scan_number(s, self.cursor().i, dot),
                buf@ == seq![first_char] + s.subrange(i0, self.cursor().i),
                self.cursor() == cursor_at(s, old(self).cursor(), self.cursor().i),
            decreases s.len() - self.cursor().i,
        {
            let ghost j = self.cursor().i;
            proof {
                lemma_cursor_at_snoc(s, old(self).cursor(), j);
            }
            match self.next_element() {
                Some(c) => {
                    if c == '.' {
                        dot = true;
                    }
                    buf.push(c);
                    proof {
                        assert(buf@ =~= seq![first_char] + s.subrange(i0, j + 1));
                    }
                },
                None => {
                    proof {
                        assert(false);
                    }
                },
            }
        }
        proof {
            assert(buf@ =~= seq![first_char] + s.subrange(i0, spec_scan_number(s, i0, false)));
        }
        TokenEnum::Number(chars_to_string(&buf))
    }

    /// Scans a string literal's body (the opening quote already consumed),
    /// appending the unescaped content to `buf`.
    fn scan_string(&mut self, buf: &mut Vec<char>)
        requires
            old(self).wf(),
        ensures
            final(self).wf(),
            final(self).src() == old(self).src(),
            ({
                let sc = spec_scan_string(old(self).src(), old(self).cursor().i);
                &&& final(buf)@ == old(buf)@ + sc.content
                &&& final(self).cursor() == cursor_at(old(self).src(), old(self).cursor(), sc.end)
            }),
        decreases old(self).src().len() - old(self).cursor().i,
    {
        let ghost s = old(self).src();
        let ghost cur0 = old(self).cursor();
        let ghost sc = spec_scan_string(s, cur0.i);
        match self.peek_next() {
            None => {
                proof {
                    assert(buf@ =~= old(buf)@ + sc.content);
                }
            },
            Some(c) => {
                if c == '"' {
                    self.next_element();
                    proof {
                        assert(buf@ =~= old(buf)@ + sc.content);
                        assert(cursor_at(s, cur0, sc.end) == cursor_at(s, step(s, cur0), sc.end));
                        assert(cursor_at(s, step(s, cur0), sc.end) == step(s, cur0));
                    }
                } else if c == '\\' {
                    self.next_element();
                    match self.next_element() {
                        None => {
                            proof {
                                assert(buf@ =~= old(buf)@ + sc.content);
                                assert(cursor_at(s, cur0, sc.end) == cursor_at(
                                    s,
                                    step(s, cur0),
                                    sc.end,
                                ));
                                assert(cursor_at(s, step(s, cur0), sc.end) == step(s, cur0));
                            }
                        },
                        Some(e) => {
                            let t = if e == 'n' {
                                '\n'
                            } else if e == 't' {
                                '\t'
                            } else if e == 'r' {
                                '\r'
                            } else {
                                e
                            };
                            buf.push(t);
                            self.scan_string(buf);
                            proof {
                                lemma_scan_string_bounds(s, cur0.i + 2);
                                assert(buf@ =~= old(buf)@ + sc.content);
                                assert(cursor_at(s, cur0, sc.end) == cursor_at(
                                    s,
                                    step(s, cur0),
                                    sc.end,
                                ));
                                assert(cursor_at(s, step(s, cur0), sc.end) == cursor_at(
                                    s,
                                    step(s, step(s, cur0)),
                                    sc.end,
                                ));
                            }
                        },
                    }
                } else {
                    self.next_element();
                    buf.push(c);
                    self.scan_string(buf);
                    proof {
                        lemma_scan_string_bounds(s, cur0.i + 1);
                        assert(buf@ =~= old(buf)@ + sc.content);
                        assert(cursor_at(s, cur0, sc.end) == cursor_at(s, step(s, cur0), sc.end));
                    }
                }
            },
        }
    }

    /// Tokenizes a string literal, the opening quote already consumed.
    fn tokenize_string(&mut self) -> (r: TokenEnum)
        requires
            old(self).wf(),
        ensures
            final(self).wf(),
            final(self).src() == old(self).src(),
            ({
                let sc = spec_scan_string(old(self).src(), old(self).cursor().i);
                &&& r.model() == STok::StringLit(sc.content)
                &&& final(self).cursor() == cursor_at(old(self).src(), old(self).cursor(), sc.end)
            }),
    {
        let mut buf: Vec<char> = Vec::new();
        self.scan_string(&mut buf);
        TokenEnum::String(chars_to_string(&buf))
    }

    /// Reads and returns the next token, positioned at its first character.
    fn next_token(&mut self) -> (r: Token)
        requires
            old(self).wf(),
        ensures
            final(self).wf(),
            final(self).src() == old(self).src(),
            ({
                let n = spec_next_token(old(self).src(), old(self).cursor());
                &&& r.model().tok == n.tok
                &&& r.model().line == n.line
                &&& r.model().col == n.col
                &&& final(self).cursor() == n.next
            }),
    {
        let ghost s = old(self).src();
        self.trim();
        let ghost t = self.cursor();
        let line = self.line;
        let column = self.column;
        let te: TokenEnum = match self.next_element() {
            None => TokenEnum::EOF,
            Some(c) => {
                if !Lexer::is_valid_character(&c) {
                    TokenEnum::Error(self.error_handle(c, line, column))
                } else if c == '(' {
                    TokenEnum::LeftParen
                } else if c == ')' {
                    TokenEnum::RightParen
                } else if c == '\'' {
                    TokenEnum::Quote
                } else if c == '"' {
                    self.tokenize_string()
                } else if c == '#' {
                    match self.peek_next() {
                        Some(b) => {
                            if b == 't' {
                                self.next_element();
                                TokenEnum::Bool(true)
                            } else if b == 'f' {
                                self.next_element();
                                TokenEnum::Bool(false)
                            } else {
                                let r = self.tokenize_symbol('#');
                                proof {
                                    let u = step(s, t);
                                    let end = spec_scan_symbol(s, u.i);
                                    lemma_scan_symbol_bounds(s, u.i);
                                    assert(seq!['#'] + s.subrange(u.i, end) =~= s.subrange(
                                        t.i,
                                        end,
                                    ));
                                }
                                r
                            }
                        },
                        None => {
                            let mut v: Vec<char> = Vec::new();
                            v.push('#');
                            proof {
                                assert(v@ =~= seq!['#']);
                            }
                            TokenEnum::Symbol(chars_to_string(&v))
                        },
                    }
                } else if c >= '0' && c <= '9' {
                    let r = self.tokenize_number(c);
                    proof {
                        let u = step(s, t);
                        let end = spec_scan_number(s, u.i, false);
                        lemma_scan_number_bounds(s, u.i, false);
                        assert(seq![c] + s.subrange(u.i, end) =~= s.subrange(t.i, end));
                    }
                    r
                } else if c == '-' || c == '+' {
                    let digit_follows = self.number_char_at(true);
                    if digit_follows {
                        let r = self.tokenize_number(c);
                        proof {
                            let u = step(s, t);
                            let end = spec_scan_number(s, u.i, false);
                            lemma_scan_number_bounds(s, u.i, false);
                            assert(seq![c] + s.subrange(u.i, end) =~= s.subrange(t.i, end));
                        }
                        r
                    } else {
                        let r = self.tokenize_symbol(c);
                        proof {
                            let u = step(s, t);
                            let end = spec_scan_symbol(s, u.i);
                            lemma_scan_symbol_bounds(s, u.i);
                            assert(seq![c] + s.subrange(u.i, end) =~= s.subrange(t.i, end));
                        }
                        r
                    }
                } else {
                    let r = self.tokenize_symbol(c);
                    proof {
                        let u = step(s, t);
                        let end = spec_scan_symbol(s, u.i);
                        lemma_scan_symbol_bounds(s, u.i);
                        assert(seq![c] + s.subrange(u.i, end) =~= s.subrange(t.i, end));
                    }
                    r
                }
            },
        };
        Token::init_instance(te, (line, column))
    }

    /// Tokenizes the entire remaining input and returns the positioned
    /// tokens, terminated by exactly one end-of-input token.
    pub fn tokenize_all(&mut self) -> (r: Vec<Token>)
        requires
            old(self).wf(),
        ensures
            final(self).wf(),
            final(self).src() == old(self).src(),
            r@.map_values(|t: Token| t.model()) == spec_tokenize(
                old(self).src(),
                old(self).cursor(),
            ),
    {
        let ghost s = old(self).src();
        let ghost cur0 = old(self).cursor();
        let mut token_vector: Vec<Token> = Vec::new();
        loop
            invariant_except_break
                spec_tokenize(s, cur0) == token_vector@.map_values(|t: Token| t.model())
                    + spec_tokenize(s, self.cursor()),
            invariant
                self.wf(),
                self.src() == s,
            ensures
                self.wf(),
                self.src() == s,
                token_vector@.map_values(|t: Token| t.model()) == spec_tokenize(s, cur0),
            decreases s.len() - self.cursor().i,
        {
            let ghost cur_before = self.cursor();
            let token = self.next_token();
            let is_eof = matches!(token.token, TokenEnum::EOF);
            proof {
                lemma_next_token_advances(s, cur_before);
                let n = spec_next_token(s, cur_before);
                let mapped = token_vector@.map_values(|t: Token| t.model());
                if is_eof {
                    assert(spec_tokenize(s, cur_before) =~= seq![token.model()]);
                    assert((token_vector@ + seq![token]).map_values(|t: Token| t.model()) =~= mapped
                        + seq![token.model()]);
                    assert(mapped + seq![token.model()] =~= spec_tokenize(s, cur0));
                } else {
                    assert(spec_tokenize(s, cur_before) =~= seq![token.model()] + spec_tokenize(
                        s,
                        n.next,
                    ));
                    assert((token_vector@ + seq![token]).map_values(|t: Token| t.model()) =~= mapped
                        + seq![token.model()]);
                    assert(mapped + seq![token.model()] + spec_tokenize(s, n.next)
                        =~= spec_tokenize(s, cur0));
                }
            }
            token_vector.push(token);
            if is_eof {
                break;
            }
        }
        token_vector
    }

    /// Skips whitespace and comments.
    fn trim(&mut self)
        requires
            old(self).wf(),
        ensures
            final(self).wf(),
            final(self).src() == old(self).src(),
            final(self).cursor() == spec_trim(old(self).src(), old(self).cursor()),
        decreases old(self).src().len() - old(self).cursor().i,
    {
        match self.peek_next() {
            None => {},
            Some(c) => {
                if c == ' ' || c == '\n' || c == '\t' || c == '\r' {
                    self.next_element();
                    self.trim();
                } else if c == ';' {
                    self.next_element();
                    self.skip_comment();
                    proof {
                        lemma_skip_comment_bounds(old(self).src(), step(old(self).src(), old(self).cursor()));
                    }
                    self.trim();
                }
            },
        }
    }
}

// ---------------------------------------------------------------------------
// Syntax-level tokens
// ---------------------------------------------------------------------------

/// The syntax-level kind of a token value.
pub open spec fn syntax_kind(m: STok) -> TokenType {
    match m {
        STok::LeftParen => TokenType::LeftParen,
        STok::RightParen => TokenType::RightParen,
        STok::Quote => TokenType::Quote,
        STok::Symbol(_) => TokenType::Symbol,
        STok::Number(_) => TokenType::Number,
        STok::StringLit(_) => TokenType::String,
        STok::Bool(_) => TokenType::Boolean,
        STok::Eof => TokenType::Eof,
        STok::Error(_) => TokenType::LexError,
    }
}

/// The syntax-level text of a token value: the punctuation characters for
/// the fixed tokens, the carried text for the others, `#t`/`#f` for the
/// booleans, and nothing for end of input.
pub open spec fn syntax_lexeme(m: STok) -> Seq<char> {
    match m {
        STok::LeftParen => seq!['('],
        STok::RightParen => seq![')'],
        STok::Quote => seq!['\''],
        STok::Symbol(s) => s,
        STok::Number(s) => s,
        STok::StringLit(s) => s,
        STok::Bool(b) => if b {
            seq!['#', 't']
        } else {
            seq!['#', 'f']
        },
        STok::Eof => seq![],
        STok::Error(s) => s,
    }
}

/// The syntax-level token for a positioned lexer token: the same kind, text
/// and position.
pub fn to_syntax_token(t: &Token) -> (r: crate::token::Token)
    ensures
        r.token_type == syntax_kind(t.model().tok),
        r.lexeme@ == syntax_lexeme(t.model().tok),
        r.line == t.line,
        r.column == t.column,
{
    proof {
        reveal_strlit("(");
        reveal_strlit(")");
        reveal_strlit("'");
        reveal_strlit("#t");
        reveal_strlit("#f");
        reveal_strlit("");
        assert("("@ =~= seq!['(']);
        assert(")"@ =~= seq![')']);
        assert("'"@ =~= seq!['\'']);
        assert("#t"@ =~= seq!['#', 't']);
        assert("#f"@ =~= seq!['#', 'f']);
        assert(""@ =~= Seq::<char>::empty());
    }
    let tt: TokenType;
    let lex: String;
    match &t.token {
        TokenEnum::LeftParen => {
            tt = TokenType::LeftParen;
            lex = "(".to_owned();
        },
        TokenEnum::RightParen => {
            tt = TokenType::RightParen;
            lex = ")".to_owned();
        },
        TokenEnum::Quote => {
            tt = TokenType::Quote;
            lex = "'".to_owned();
        },
        TokenEnum::Symbol(s) => {
            tt = TokenType::Symbol;
            lex = s.clone();
        },
        TokenEnum::Number(s) => {
            tt = TokenType::Number;
            lex = s.clone();
        },
        TokenEnum::String(s) => {
            tt = TokenType::String;
            lex = s.clone();
        },
        TokenEnum::Bool(b) => {
            tt = TokenType::Boolean;
            lex = if *b {
                "#t".to_owned()
            } else {
                "#f".to_owned()
            };
        },
        TokenEnum::EOF => {
            tt = TokenType::Eof;
            lex = "".to_owned();
        },
        TokenEnum::Error(s) => {
            tt = TokenType::LexError;
            lex = s.clone();
        },
    }
    crate::token::Token { token_type: tt, lexeme: lex, line: t.line, column: t.column }
}

/// The syntax-level tokens for a whole vector of positioned lexer tokens,
/// element by element.
pub fn to_syntax_tokens(tokens: &Vec<Token>) -> (r: Vec<crate::token::Token>)
    ensures
        r@.len() == tokens@.len(),
        forall|i: int|
            0 <= i < tokens@.len() ==> {
                &&& (#[trigger] r@[i]).token_type == syntax_kind(tokens@[i].model().tok)
                &&& r@[i].lexeme@ == syntax_lexeme(tokens@[i].model().tok)
                &&& r@[i].line == tokens@[i].line
                &&& r@[i].column == tokens@[i].column
            },
{
    let n = tokens.len();
    let mut out: Vec<crate::token::Token> = Vec::new();
    let mut k: usize = 0;
    while k < n
        invariant
            n == tokens@.len(),
            k <= n,
            out@.len() == k,
            forall|i: int|
                0 <= i < k ==> {
                    &&& (#[trigger] out@[i]).token_type == syntax_kind(tokens@[i].model().tok)
                    &&& out@[i].lexeme@ == syntax_lexeme(tokens@[i].model().tok)
                    &&& out@[i].line == tokens@[i].line
                    &&& out@[i].column == tokens@[i].column
                },
        decreases n - k,
    {
        out.push(to_syntax_token(&tokens[k]));
        k = k + 1;
    }
    out
}

} // verus!
