//! Structural validation, per-line processing units, and the incremental
//! session.
//!
//! A line's tokens are checked for parenthesis balance and basic shape,
//! rendered to text for the external expression parser, and the result is
//! kept in a content-addressed cache keyed by the tokens' content key. The
//! session tracks a processing frontier, decides between rebuilding and
//! continuing by a prefix scan of the cache, invalidates line ranges, and
//! assembles an ordered snapshot of the cached units.

use vstd::prelude::*;
use crate::token::{Token, TokenType};
use crate::text::{str_eq, chars_to_string, push_str_chars, push_dec, spec_dec};
use crate::sexp::{LispVal, sexp_text_wf, sexp_events_of, has_backslash, contains_backslash, parse_to_events, build_val, spec_build, events_model};
use crate::content_key::{spec_content_key, hash_token_vector};
use crate::cache_store::{cache_entries, cache_new, cache_insert, cache_contains, cache_entries_vec, cache_invalidate, cache_invalidate_all, no_entries};

verus! {

// ---------------------------------------------------------------------------
// Errors
// ---------------------------------------------------------------------------

/// The ways processing a line can fail. None is fatal to the session: a
/// failed line leaves the cache and the frontier untouched.
#[derive(Debug, Clone)]
pub enum SyntaxError {
    /// a closing parenthesis with no matching open one, at its position
    UnexpectedClosingParen { line: usize, column: usize },
    /// an opening parenthesis never closed
    UnclosedParenthesis,
    /// the external expression parser failed, with its message
    ParseError(String),
    /// a lexical error token was treated as fatal, with its message
    InvalidToken(String),
    /// an opening parenthesis followed by neither a symbol nor another
    /// opening parenthesis
    ExpectedSymbolAfterOpenParen,
    /// reserved for numeric-literal failures distinguished from general
    /// parse failures
    InvalidNumber(String),
}

// ---------------------------------------------------------------------------
// Structural validation
// ---------------------------------------------------------------------------

/// The first balance violation scanning from `i` with `depth` parentheses
/// open: a closing token at depth zero fails at that token's position, and a
/// positive depth left at the end fails globally.
pub open spec fn spec_balance(tokens: Seq<Token>, i: int, depth: int) -> Option<SyntaxError>
    decreases tokens.len() - i,
{
    if !(0 <= i < tokens.len()) {
        if depth > 0 {
            Some(SyntaxError::UnclosedParenthesis)
        } else {
            None::<SyntaxError>
        }
    } else {
        let t = tokens[i];
        if t.token_type == TokenType::LeftParen {
            spec_balance(tokens, i + 1, depth + 1)
        } else if t.token_type == TokenType::RightParen {
            if depth == 0 {
                Some(SyntaxError::UnexpectedClosingParen { line: t.line, column: t.column })
            } else {
                spec_balance(tokens, i + 1, depth - 1)
            }
        } else {
            spec_balance(tokens, i + 1, depth)
        }
    }
}

/// Whether the parentheses of a token sequence are balanced.
pub open spec fn balanced(tokens: Seq<Token>) -> bool {
    spec_balance(tokens, 0, 0) is None
}

/// Whether every opening parenthesis not at the last position is followed
/// by a symbol or another opening parenthesis.
pub open spec fn shape_ok(tokens: Seq<Token>) -> bool {
    forall|i: int|
        0 <= i < tokens.len() - 1 && (#[trigger] tokens[i]).token_type == TokenType::LeftParen
            ==> tokens[i + 1].token_type == TokenType::Symbol || tokens[i + 1].token_type
            == TokenType::LeftParen
}

/// What validation returns: the balance error if there is one, else the
/// shape error if the shape rule fails, else nothing.
pub open spec fn spec_validate(tokens: Seq<Token>) -> Option<SyntaxError> {
    match spec_balance(tokens, 0, 0) {
        Some(e) => Some(e),
        None => if shape_ok(tokens) {
            None::<SyntaxError>
        } else {
            Some(SyntaxError::ExpectedSymbolAfterOpenParen)
        },
    }
}

/// For a token sequence with balanced parentheses, validation succeeds if
/// and only if the shape rule also holds.
pub proof fn lemma_validate_balanced_iff_shape(tokens: Seq<Token>)
    requires
        balanced(tokens),
    ensures
        spec_validate(tokens) is None <==> shape_ok(tokens),
{
}

/// Checks parenthesis balance, then the shape rule: exactly the error that
/// `spec_validate` gives, or success.
#[verifier::rlimit(50)]
pub fn is_vect_ready(tokens: &Vec<Token>) -> (r: Result<(), SyntaxError>)
    ensures
        r is Ok <==> spec_validate(tokens@) is None,
        r matches Err(e) ==> Some(e) == spec_validate(tokens@),
{
    let n = tokens.len();
    let mut depth: usize = 0;
    let mut i: usize = 0;
    while i < n
        invariant_except_break
            n == tokens@.len(),
            i <= n,
            depth <= i,
            spec_balance(tokens@, 0, 0) == spec_balance(tokens@, i as int, depth as int),
        ensures
            i <= n,
            spec_balance(tokens@, 0, 0) == spec_balance(tokens@, i as int, depth as int),
            i as int >= tokens@.len() || (depth == 0 && tokens@[i as int].token_type
                == TokenType::RightParen),
        decreases n - i,
    {
        let t = &tokens[i];
        if matches!(t.token_type, TokenType::LeftParen) {
            depth = depth + 1;
        } else if matches!(t.token_type, TokenType::RightParen) {
            if depth == 0 {
                break;
            }
            depth = depth - 1;
        }
        i = i + 1;
    }
    if i < n {
        // the scan stopped on a closing parenthesis at depth zero
        let t = &tokens[i];
        proof {
            assert(spec_balance(tokens@, i as int, 0) == Some(
                SyntaxError::UnexpectedClosingParen { line: t.line, column: t.column },
            ));
        }
        return Err(
            SyntaxError::UnexpectedClosingParen { line: t.line, column: t.column },
        );
    }
    if depth > 0 {
        return Err(SyntaxError::UnclosedParenthesis);
    }

    let mut j: usize = 0;
    while j < n
        invariant
            n == tokens@.len(),
            j <= n,
            spec_balance(tokens@, 0, 0) is None,
            forall|p: int|
                0 <= p < j && p < n - 1 && (#[trigger] tokens@[p]).token_type
                    == TokenType::LeftParen ==> tokens@[p + 1].token_type == TokenType::Symbol
                    || tokens@[p + 1].token_type == TokenType::LeftParen,
        decreases n - j,
    {
        if j + 1 < n && matches!(tokens[j].token_type, TokenType::LeftParen) {
            let next_ok = matches!(tokens[j + 1].token_type, TokenType::Symbol) || matches!(
                tokens[j + 1].token_type,
                TokenType::LeftParen,
            );
            if !next_ok {
                proof {
                    assert(!shape_ok(tokens@));
                }
                return Err(SyntaxError::ExpectedSymbolAfterOpenParen);
            }
        }
        j = j + 1;
    }
    proof {
        assert(shape_ok(tokens@));
    }
    Ok(())
}

// ---------------------------------------------------------------------------
// Rendering tokens for the expression parser
// ---------------------------------------------------------------------------

/// The textual rendering of one token: parentheses and the quote as their
/// characters, symbols, numbers and booleans as their text, a string
/// wrapped in double quotes with no further escaping, and nothing for end
/// of input or a lexical error.
pub open spec fn spec_token_text(t: Token) -> Seq<char> {
    match t.token_type {
        TokenType::LeftParen => seq!['('],
        TokenType::RightParen => seq![')'],
        TokenType::Quote => seq!['\''],
        TokenType::Symbol => t.lexeme@,
        TokenType::Number => t.lexeme@,
        TokenType::String => seq!['"'] + t.lexeme@ + seq!['"'],
        TokenType::Boolean => t.lexeme@,
        TokenType::Eof => seq![],
        TokenType::LexError => seq![],
    }
}

/// The rendering of the tokens from `i` on, separated by single spaces.
pub open spec fn spec_render(tokens: Seq<Token>, i: int) -> Seq<char>
    decreases tokens.len() - i,
{
    if !(0 <= i < tokens.len()) {
        seq![]
    } else if i == tokens.len() - 1 {
        spec_token_text(tokens[i])
    } else {
        spec_token_text(tokens[i]) + seq![' '] + spec_render(tokens, i + 1)
    }
}

/// Renders a token sequence as the text handed to the expression parser.
pub fn tokens_to_string(tokens: &Vec<Token>) -> (r: String)
    ensures
        r@ == spec_render(tokens@, 0),
{
    let n = tokens.len();
    let mut buf: Vec<char> = Vec::new();
    let mut i: usize = 0;
    while i < n
        invariant
            n == tokens@.len(),
            i <= n,
            spec_render(tokens@, 0) == buf@ + spec_render(tokens@, i as int),
        decreases n - i,
    {
        let ghost prev = buf@;
        let t = &tokens[i];
        match t.token_type {
            TokenType::LeftParen => buf.push('('),
            TokenType::RightParen => buf.push(')'),
            TokenType::Quote => buf.push('\''),
            TokenType::Symbol => push_str_chars(&mut buf, t.lexeme.as_str()),
            TokenType::Number => push_str_chars(&mut buf, t.lexeme.as_str()),
            TokenType::String => {
                buf.push('"');
                push_str_chars(&mut buf, t.lexeme.as_str());
                buf.push('"');
            },
            TokenType::Boolean => push_str_chars(&mut buf, t.lexeme.as_str()),
            TokenType::Eof => {},
            TokenType::LexError => {},
        }
        proof {
            assert(buf@ =~= prev + spec_token_text(tokens@[i as int]));
        }
        if i + 1 < n {
            buf.push(' ');
            proof {
                assert(buf@ =~= prev + (spec_token_text(tokens@[i as int]) + seq![' ']));
            }
        }
        proof {
            assert(spec_render(tokens@, 0) =~= buf@ + spec_render(tokens@, i + 1));
        }
        i = i + 1;
    }
    proof {
        assert(spec_render(tokens@, 0) =~= buf@);
    }
    chars_to_string(&buf)
}

// ---------------------------------------------------------------------------
// Parsing through the external expression parser
// ---------------------------------------------------------------------------

/// Renders the tokens, parses the text with the external expression parser,
/// and builds the structured value: succeeds exactly when the rendering is
/// free of backslashes and the parser accepts it, the value being the one
/// the parse's events describe; a failure comes back as a parse error. A
/// rendering with a backslash is rejected before the parser sees it: the
/// rendering applies no escaping, so such a text has no faithful reading.
pub fn check_syntax_with_rsexp(tokens: &Vec<Token>) -> (r: Result<LispVal, SyntaxError>)
    ensures
        (r is Ok <==> (!has_backslash(spec_render(tokens@, 0)) && sexp_text_wf(
            spec_render(tokens@, 0),
        ))),
        (r matches Ok(v) ==> v.model() == spec_build(
            sexp_events_of(spec_render(tokens@, 0)),
            0,
        ).0->0),
        (r matches Err(e) ==> e is ParseError),
{
    let text = tokens_to_string(tokens);
    if contains_backslash(text.as_str()) {
        return Err(SyntaxError::ParseError("backslash in rendered expression text".to_owned()));
    }
    match parse_to_events(text.as_str()) {
        Err(m) => Err(SyntaxError::ParseError(m)),
        Ok(events) => {
            let built = build_val(&events, 0);
            match built.0 {
                Some(val) => Ok(val),
                None => {
                    // an accepted text's events always describe a value
                    proof {
                        assert(events_model(events@) == sexp_events_of(spec_render(tokens@, 0)));
                        assert(false);
                    }
                    Err(SyntaxError::ParseError(String::new()))
                },
            }
        },
    }
}

// ---------------------------------------------------------------------------
// Per-line processing units
// ---------------------------------------------------------------------------

/// Lookup in an association list: the value under the most recent pair
/// whose key has these characters, as a map insert would leave it.
pub open spec fn assoc_lookup(pairs: Seq<(String, usize)>, key: Seq<char>) -> Option<usize>
    decreases pairs.len(),
{
    if pairs.len() == 0 {
        None::<usize>
    } else if pairs.last().0@ == key {
        Some(pairs.last().1)
    } else {
        assoc_lookup(pairs.drop_last(), key)
    }
}

/// Finds the value under a key in an association list, newest pair first.
fn assoc_find(pairs: &Vec<(String, usize)>, key: &str) -> (r: Option<usize>)
    ensures
        r == assoc_lookup(pairs@, key@),
{
    let n = pairs.len();
    let mut i: usize = n;
    proof {
        assert(pairs@.take(n as int) =~= pairs@);
    }
    while i > 0
        invariant
            n == pairs@.len(),
            i <= n,
            assoc_lookup(pairs@, key@) == assoc_lookup(pairs@.take(i as int), key@),
        decreases i,
    {
        i = i - 1;
        proof {
            assert(pairs@.take(i + 1).last() == pairs@[i as int]);
            assert(pairs@.take(i + 1).drop_last() =~= pairs@.take(i as int));
        }
        if str_eq(pairs[i].0.as_str(), key) {
            return Some(pairs[i].1);
        }
    }
    proof {
        assert(pairs@.take(0).len() == 0);
    }
    None
}

/// A processed line: its tokens, the line it came from, a lookup index over
/// its tokens, and the parsed value once expression parsing has succeeded.
/// Immutable once created, except for the late attachment of the parsed
/// value.
#[derive(Debug, Clone)]
pub struct ReadyVec {
    vect_tokens: Vec<Token>,
    vect_line: usize,
    indices: Vec<(String, usize)>,
    parsed_value: Option<LispVal>,
}

impl ReadyVec {
    /// The tokens of the line.
    pub closed spec fn tokens(self) -> Seq<Token> {
        self.vect_tokens@
    }

    /// The line the unit came from.
    pub closed spec fn line(self) -> usize {
        self.vect_line
    }

    /// The token lookup index, as an association list.
    pub closed spec fn index_pairs(self) -> Seq<(String, usize)> {
        self.indices@
    }

    /// The parsed value, if one was attached.
    pub closed spec fn parsed(self) -> Option<LispVal> {
        self.parsed_value
    }

    /// Every recorded position points into the token vector.
    pub closed spec fn wf(self) -> bool {
        forall|i: int|
            0 <= i < self.indices@.len() ==> (#[trigger] self.indices@[i]).1
                < self.vect_tokens@.len()
    }

    /// A unit over the given tokens and line, with an empty index and no
    /// parsed value.
    pub fn new(tokens: Vec<Token>, line: usize) -> (r: ReadyVec)
        ensures
            r.wf(),
            r.tokens() == tokens@,
            r.line() == line,
            r.index_pairs() == Seq::<(String, usize)>::empty(),
            r.parsed() is None,
    {
        ReadyVec { vect_tokens: tokens, vect_line: line, indices: Vec::new(), parsed_value: None }
    }

    /// A unit over the given tokens and line, carrying a parsed value.
    pub fn new_with_parsed(tokens: Vec<Token>, line: usize, parsed: LispVal) -> (r: ReadyVec)
        ensures
            r.wf(),
            r.tokens() == tokens@,
            r.line() == line,
            r.index_pairs() == Seq::<(String, usize)>::empty(),
            r.parsed() == Some(parsed),
    {
        let mut ready_vec = ReadyVec::new(tokens, line);
        ready_vec.parsed_value = Some(parsed);
        ready_vec
    }

    /// Records that `key` refers to the token at `token_index`: a lookup of
    /// `key` afterwards yields `token_index`, the most recent registration
    /// winning, and every other key's lookup is unchanged.
    pub fn add_token_index(&mut self, key: String, token_index: usize)
        requires
            old(self).wf(),
            token_index < old(self).tokens().len(),
        ensures
            final(self).wf(),
            final(self).tokens() == old(self).tokens(),
            final(self).line() == old(self).line(),
            final(self).parsed() == old(self).parsed(),
            final(self).index_pairs() == old(self).index_pairs().push((key, token_index)),
            assoc_lookup(final(self).index_pairs(), key@) == Some(token_index),
            forall|k2: Seq<char>|
                k2 != key@ ==> #[trigger] assoc_lookup(final(self).index_pairs(), k2)
                    == assoc_lookup(old(self).index_pairs(), k2),
    {
        self.indices.push((key, token_index));
        proof {
            assert(self.indices@.drop_last() =~= old(self).index_pairs());
        }
    }

    /// The token under the most recent registration of `key`, or nothing if
    /// the key was never registered.
    pub fn get_token(&self, key: &str) -> (r: Option<&Token>)
        requires
            self.wf(),
        ensures
            match assoc_lookup(self.index_pairs(), key@) {
                Some(idx) => (r matches Some(t) && *t == self.tokens()[idx as int]),
                None => r is None,
            },
    {
        let found = assoc_find(&self.indices, key);
        proof {
            lemma_assoc_lookup_in_range(self.indices@, key@, self.vect_tokens@.len() as int);
        }
        match found {
            Some(idx) => Some(&self.vect_tokens[idx]),
            None => None,
        }
    }

    /// The token at `index`, or nothing if the index is out of range.
    pub fn get_token_by_index(&self, index: usize) -> (r: Option<&Token>)
        ensures
            index < self.tokens().len() ==> (r matches Some(t) && *t == self.tokens()[index as int]),
            index >= self.tokens().len() ==> r is None,
    {
        if index < self.vect_tokens.len() {
            Some(&self.vect_tokens[index])
        } else {
            None
        }
    }

    /// The whole token vector.
    pub fn get_all_tokens(&self) -> (r: &Vec<Token>)
        ensures
            r@ == self.tokens(),
    {
        &self.vect_tokens
    }

    /// The line the unit came from.
    pub fn get_line(&self) -> (r: usize)
        ensures
            r == self.line(),
    {
        self.vect_line
    }

    /// The number of tokens.
    pub fn len(&self) -> (r: usize)
        ensures
            r == self.tokens().len(),
    {
        self.vect_tokens.len()
    }

    /// Whether the unit holds no tokens.
    pub fn is_empty(&self) -> (r: bool)
        ensures
            r == (self.tokens().len() == 0),
    {
        self.vect_tokens.is_empty()
    }

    /// The parsed value, if one was attached.
    pub fn get_parsed_value(&self) -> (r: Option<&LispVal>)
        ensures
            self.parsed() is Some <==> r is Some,
            r matches Some(v) ==> Some(*v) == self.parsed(),
    {
        self.parsed_value.as_ref()
    }

    /// Attaches the parsed value.
    pub fn set_parsed_value(&mut self, value: LispVal)
        requires
            old(self).wf(),
        ensures
            final(self).wf(),
            final(self).tokens() == old(self).tokens(),
            final(self).line() == old(self).line(),
            final(self).index_pairs() == old(self).index_pairs(),
            final(self).parsed() == Some(value),
    {
        self.parsed_value = Some(value);
    }
}

/// A lookup in an association list whose positions are all below `n` yields
/// a position below `n`.
pub proof fn lemma_assoc_lookup_in_range(pairs: Seq<(String, usize)>, key: Seq<char>, n: int)
    requires
        forall|i: int| 0 <= i < pairs.len() ==> (#[trigger] pairs[i]).1 < n,
    ensures
        assoc_lookup(pairs, key) matches Some(idx) ==> idx < n,
    decreases pairs.len(),
{
    if pairs.len() > 0 && pairs.last().0@ != key {
        assert(forall|i: int|
            0 <= i < pairs.drop_last().len() ==> (#[trigger] pairs.drop_last()[i]).1 < n) by {
            assert(forall|i: int|
                0 <= i < pairs.drop_last().len() ==> pairs.drop_last()[i] == pairs[i]);
        }
        lemma_assoc_lookup_in_range(pairs.drop_last(), key, n);
    }
}

/// The key under which a token is registered in a unit's index: its ordinal
/// position, an underscore, and its text. The position makes keys unique.
pub open spec fn spec_token_key(i: int, lexeme: Seq<char>) -> Seq<char> {
    spec_dec(i) + seq!['_'] + lexeme
}

/// Builds the index key of the token at position `i` with the given text.
pub fn token_key(i: usize, lexeme: &str) -> (r: String)
    ensures
        r@ == spec_token_key(i as int, lexeme@),
{
    let mut buf: Vec<char> = Vec::new();
    push_dec(i, &mut buf);
    buf.push('_');
    push_str_chars(&mut buf, lexeme);
    proof {
        assert(buf@ =~= spec_token_key(i as int, lexeme@));
    }
    chars_to_string(&buf)
}

/// Builds a unit from a line's tokens, registering every token in the
/// lookup index under its position-and-text key.
pub fn create_ready_vec(tokens: Vec<Token>, line: usize, parsed_val: Option<LispVal>) -> (r:
    ReadyVec)
    ensures
        r.wf(),
        r.tokens() == tokens@,
        r.line() == line,
        r.parsed() == parsed_val,
        r.index_pairs().len() == tokens@.len(),
        forall|i: int|
            0 <= i < tokens@.len() ==> {
                &&& (#[trigger] r.index_pairs()[i]).0@ == spec_token_key(i, tokens@[i].lexeme@)
                &&& r.index_pairs()[i].1 == i
            },
{
    let n = tokens.len();
    let mut ready_vec = match parsed_val {
        Some(val) => ReadyVec::new_with_parsed(tokens, line, val),
        None => ReadyVec::new(tokens, line),
    };
    let mut i: usize = 0;
    while i < n
        invariant
            ready_vec.wf(),
            ready_vec.tokens() == tokens@,
            ready_vec.line() == line,
            n == ready_vec.tokens().len(),
            i <= n,
            ready_vec.index_pairs().len() == i,
            ready_vec.parsed() == parsed_val,
            forall|p: int|
                0 <= p < i ==> {
                    &&& (#[trigger] ready_vec.index_pairs()[p]).0@ == spec_token_key(
                        p,
                        ready_vec.tokens()[p].lexeme@,
                    )
                    &&& ready_vec.index_pairs()[p].1 == p
                },
        decreases n - i,
    {
        let lex_owned = {
            let ts = ready_vec.get_all_tokens();
            let key = token_key(i, ts[i].lexeme.as_str());
            key
        };
        ready_vec.add_token_index(lex_owned, i);
        i = i + 1;
    }
    ready_vec
}

// ---------------------------------------------------------------------------
// The snapshot tree
// ---------------------------------------------------------------------------

/// The key under which a snapshot keeps the unit of a line.
pub open spec fn spec_line_key(n: int) -> Seq<char> {
    "line_"@ + spec_dec(n)
}

/// Builds the snapshot key of a line.
pub fn line_key(n: usize) -> (r: String)
    ensures
        r@ == spec_line_key(n as int),
{
    let mut buf: Vec<char> = Vec::new();
    push_str_chars(&mut buf, "line_");
    push_dec(n, &mut buf);
    chars_to_string(&buf)
}

/// An ordered, detached snapshot of processed units, with a key index for
/// direct access. A snapshot is derived from the cache's contents; later
/// cache changes do not affect it.
#[derive(Debug)]
pub struct Tree {
    tree: Vec<ReadyVec>,
    indices: Vec<(String, usize)>,
}

impl Tree {
    /// The units, in the order they were added.
    pub closed spec fn vecs(self) -> Seq<ReadyVec> {
        self.tree@
    }

    /// The key index, as an association list.
    pub closed spec fn index_pairs(self) -> Seq<(String, usize)> {
        self.indices@
    }

    /// Every recorded position points at a unit, and every unit is itself
    /// well formed.
    pub closed spec fn wf(self) -> bool {
        &&& forall|i: int|
            0 <= i < self.indices@.len() ==> (#[trigger] self.indices@[i]).1 < self.tree@.len()
        &&& forall|i: int| 0 <= i < self.tree@.len() ==> (#[trigger] self.tree@[i]).wf()
    }

    /// An empty snapshot.
    pub fn new() -> (r: Tree)
        ensures
            r.wf(),
            r.vecs() == Seq::<ReadyVec>::empty(),
            r.index_pairs() == Seq::<(String, usize)>::empty(),
    {
        Tree { tree: Vec::new(), indices: Vec::new() }
    }

    /// Appends a unit under a key: a lookup of `key` afterwards yields the
    /// unit's position, the most recent registration winning, and every
    /// other key's lookup is unchanged.
    pub fn add_vec(&mut self, key: String, ready_vec: ReadyVec)
        requires
            old(self).wf(),
            ready_vec.wf(),
        ensures
            final(self).wf(),
            final(self).vecs() == old(self).vecs().push(ready_vec),
            final(self).index_pairs() == old(self).index_pairs().push(
                (key, old(self).vecs().len() as usize),
            ),
            assoc_lookup(final(self).index_pairs(), key@) == Some(
                old(self).vecs().len() as usize,
            ),
            forall|k2: Seq<char>|
                k2 != key@ ==> #[trigger] assoc_lookup(final(self).index_pairs(), k2)
                    == assoc_lookup(old(self).index_pairs(), k2),
    {
        let index = self.tree.len();
        self.tree.push(ready_vec);
        self.indices.push((key, index));
        proof {
            assert(self.indices@.drop_last() =~= old(self).index_pairs());
        }
    }

    /// The unit under the most recent registration of `key`, or nothing if the
    /// key was never registered.
    pub fn get_vec(&self, key: &str) -> (r: Option<&ReadyVec>)
        requires
            self.wf(),
        ensures
            match assoc_lookup(self.index_pairs(), key@) {
                Some(idx) => (r matches Some(v) && *v == self.vecs()[idx as int]),
                None => r is None,
            },
    {
        let found = assoc_find(&self.indices, key);
        proof {
            lemma_assoc_lookup_in_range(self.indices@, key@, self.tree@.len() as int);
        }
        match found {
            Some(idx) => Some(&self.tree[idx]),
            None => None,
        }
    }

    /// The unit at `index`, or nothing if the index is out of range.
    pub fn get_vec_by_index(&self, index: usize) -> (r: Option<&ReadyVec>)
        ensures
            index < self.vecs().len() ==> (r matches Some(v) && *v == self.vecs()[index as int]),
            index >= self.vecs().len() ==> r is None,
    {
        if index < self.tree.len() {
            Some(&self.tree[index])
        } else {
            None
        }
    }

    /// The token under `token_key` in the unit under `vec_key`.
    pub fn get_token(&self, vec_key: &str, token_key: &str) -> (r: Option<&Token>)
        requires
            self.wf(),
        ensures
            match assoc_lookup(self.index_pairs(), vec_key@) {
                Some(idx) => match assoc_lookup(
                    self.vecs()[idx as int].index_pairs(),
                    token_key@,
                ) {
                    Some(t_idx) => (r matches Some(t) && *t
                        == self.vecs()[idx as int].tokens()[t_idx as int]),
                    None => r is None,
                },
                None => r is None,
            },
    {
        match self.get_vec(vec_key) {
            Some(v) => {
                proof {
                    lemma_assoc_lookup_in_range(self.indices@, vec_key@, self.tree@.len() as int);
                }
                v.get_token(token_key)
            },
            None => None,
        }
    }

    /// The number of units.
    pub fn len(&self) -> (r: usize)
        ensures
            r == self.vecs().len(),
    {
        self.tree.len()
    }

    /// Whether the snapshot holds no units.
    pub fn is_empty(&self) -> (r: bool)
        ensures
            r == (self.vecs().len() == 0),
    {
        self.tree.is_empty()
    }

    /// The units in order, for iteration.
    pub fn iter(&self) -> (r: &Vec<ReadyVec>)
        ensures
            r@ == self.vecs(),
    {
        &self.tree
    }
}

/// Whether some entry's unit has this line.
#[verifier::opaque]
pub open spec fn line_present(s: Seq<(Vec<u64>, ReadyVec)>, ln: usize) -> bool {
    exists|i: int| 0 <= i < s.len() && (#[trigger] s[i]).1.line() == ln
}

/// Whether some entry has this key.
#[verifier::opaque]
pub open spec fn key_present(s: Seq<(Vec<u64>, ReadyVec)>, k: Seq<u64>) -> bool {
    exists|p: int| 0 <= p < s.len() && (#[trigger] s[p]).0@ == k
}

/// Inserting an entry keeps every present line present and makes its own
/// line present.
proof fn lemma_line_present_insert(s: Seq<(Vec<u64>, ReadyVec)>, p: int, x: (Vec<u64>, ReadyVec))
    requires
        0 <= p <= s.len(),
    ensures
        forall|ln: usize| #[trigger] line_present(s, ln) ==> line_present(s.insert(p, x), ln),
        line_present(s.insert(p, x), x.1.line()),
{
    reveal(line_present);
    s.insert_ensures(p, x);
    assert(s.insert(p, x)[p] == x);
    assert forall|ln: usize| #[trigger] line_present(s, ln) implies line_present(
        s.insert(p, x),
        ln,
    ) by {
        let i = choose|i: int| 0 <= i < s.len() && (#[trigger] s[i]).1.line() == ln;
        if i < p {
            assert(s.insert(p, x)[i].1.line() == ln);
        } else {
            assert(s.insert(p, x)[i + 1].1.line() == ln);
        }
    }
}

/// Dropping the last entry keeps every present key present, except possibly
/// the dropped entry's own.
proof fn lemma_key_present_drop_last(s: Seq<(Vec<u64>, ReadyVec)>)
    requires
        s.len() > 0,
    ensures
        forall|k: Seq<u64>| #[trigger] key_present(s, k) ==> (key_present(s.drop_last(), k) || s.last().0@
            == k),
{
    reveal(key_present);
    assert forall|k: Seq<u64>| #[trigger] key_present(s, k) implies (key_present(s.drop_last(), k)
        || s.last().0@ == k) by {
        let p = choose|p: int| 0 <= p < s.len() && (#[trigger] s[p]).0@ == k;
        if p < s.len() - 1 {
            assert(s.drop_last()[p].0@ == k);
        }
    }
}

/// Sorts cache entries ascending by their unit's line, keeping one entry
/// per distinct line; every line the map holds survives into the result.
#[verifier::rlimit(100)]
#[verifier::spinoff_prover]
fn sort_entries_by_line(
    entries: Vec<(Vec<u64>, ReadyVec)>,
    Ghost(m0): Ghost<Map<Seq<u64>, ReadyVec>>,
) -> (r: Vec<(Vec<u64>, ReadyVec)>)
    requires
        forall|p: int|
            0 <= p < entries@.len() ==> m0.contains_pair(
                (#[trigger] entries@[p]).0@,
                entries@[p].1,
            ),
        forall|k: Seq<u64>| m0.dom().contains(k) ==> #[trigger] key_present(entries@, k),
    ensures
        forall|i: int, j: int|
            0 <= i < j < r@.len() ==> (#[trigger] r@[i]).1.line() < (#[trigger] r@[j]).1.line(),
        forall|i: int| 0 <= i < r@.len() ==> m0.contains_pair((#[trigger] r@[i]).0@, r@[i].1),
        forall|k: Seq<u64>|
            m0.dom().contains(k) ==> #[trigger] line_present(r@, m0[k].line()),
{
    let mut entries = entries;
    let mut sorted: Vec<(Vec<u64>, ReadyVec)> = Vec::new();
    loop
        invariant
            forall|p: int|
                0 <= p < entries@.len() ==> m0.contains_pair(
                    (#[trigger] entries@[p]).0@,
                    entries@[p].1,
                ),
            forall|i: int, j: int|
                0 <= i < j < sorted@.len() ==> (#[trigger] sorted@[i]).1.line() < (
                #[trigger] sorted@[j]).1.line(),
            forall|i: int|
                0 <= i < sorted@.len() ==> m0.contains_pair(
                    (#[trigger] sorted@[i]).0@,
                    sorted@[i].1,
                ),
            forall|k: Seq<u64>|
                m0.dom().contains(k) ==> (#[trigger] line_present(sorted@, m0[k].line())
                    || key_present(entries@, k)),
        ensures
            entries@.len() == 0,
            forall|i: int, j: int|
                0 <= i < j < sorted@.len() ==> (#[trigger] sorted@[i]).1.line() < (
                #[trigger] sorted@[j]).1.line(),
            forall|i: int|
                0 <= i < sorted@.len() ==> m0.contains_pair(
                    (#[trigger] sorted@[i]).0@,
                    sorted@[i].1,
                ),
            forall|k: Seq<u64>|
                m0.dom().contains(k) ==> (#[trigger] line_present(sorted@, m0[k].line())
                    || key_present(entries@, k)),
        decreases entries@.len(),
    {
        let ghost entries_old = entries@;
        let ghost s_old = sorted@;
        let popped = entries.pop();
        match popped {
            None => {
                proof {
                    reveal(key_present);
                }
                break;
            },
            Some(pair) => {
                let unit_line = pair.1.get_line();
                proof {
                    assert(entries_old[entries_old.len() - 1] == pair);
                    assert(m0.contains_pair(pair.0@, pair.1));
                    assert(entries@ =~= entries_old.drop_last());
                    lemma_key_present_drop_last(entries_old);
                }
                // find the insertion position
                let mut p: usize = 0;
                loop
                    invariant
                        p <= sorted@.len(),
                        sorted@ == s_old,
                        forall|q: int| 0 <= q < p ==> (#[trigger] sorted@[q]).1.line() < unit_line,
                        forall|i: int, j: int|
                            0 <= i < j < sorted@.len() ==> (#[trigger] sorted@[i]).1.line() < (
                            #[trigger] sorted@[j]).1.line(),
                    ensures
                        p <= sorted@.len(),
                        sorted@ == s_old,
                        forall|q: int| 0 <= q < p ==> (#[trigger] sorted@[q]).1.line() < unit_line,
                        p < sorted@.len() ==> sorted@[p as int].1.line() >= unit_line,
                    decreases sorted@.len() - p,
                {
                    if p >= sorted.len() {
                        break;
                    }
                    if sorted[p].1.get_line() >= unit_line {
                        break;
                    }
                    p = p + 1;
                }
                let duplicate = p < sorted.len() && sorted[p].1.get_line() == unit_line;
                if !duplicate {
                    sorted.insert(p, pair);
                    proof {
                        s_old.insert_ensures(p as int, pair);
                        lemma_line_present_insert(s_old, p as int, pair);
                        assert(sorted@ == s_old.insert(p as int, pair));
                        assert forall|i: int, j: int|
                            0 <= i < j < sorted@.len() implies (#[trigger] sorted@[i]).1.line() < (
                        #[trigger] sorted@[j]).1.line() by {
                            if i < p && j > p {
                                if i < j - 1 {
                                    assert(s_old[i].1.line() < s_old[j - 1].1.line());
                                }
                            } else if i == p && j > p {
                                assert(s_old[p as int].1.line() >= unit_line);
                                assert(s_old[p as int].1.line() != unit_line);
                                if j - 1 > p {
                                    assert(s_old[p as int].1.line() < s_old[j - 1].1.line());
                                }
                            }
                        }
                        assert forall|k: Seq<u64>|
                            m0.dom().contains(k) implies (#[trigger] line_present(
                            sorted@,
                            m0[k].line(),
                        ) || key_present(entries@, k)) by {
                            if line_present(s_old, m0[k].line()) {
                                assert(line_present(sorted@, m0[k].line()));
                            } else if key_present(entries_old, k) {
                                if entries_old.last().0@ == k {
                                    assert(m0[k] == pair.1);
                                    assert(line_present(sorted@, pair.1.line()));
                                }
                            }
                        }
                    }
                } else {
                    proof {
                        assert(line_present(sorted@, unit_line)) by {
                            reveal(line_present);
                            assert(0 <= p < sorted@.len() && sorted@[p as int].1.line()
                                == unit_line);
                        }
                        assert forall|k: Seq<u64>|
                            m0.dom().contains(k) implies (#[trigger] line_present(
                            sorted@,
                            m0[k].line(),
                        ) || key_present(entries@, k)) by {
                            if line_present(s_old, m0[k].line()) {
                            } else if key_present(entries_old, k) {
                                if entries_old.last().0@ == k {
                                    assert(m0[k] == pair.1);
                                    assert(line_present(sorted@, pair.1.line()));
                                }
                            }
                        }
                    }
                }
            },
        }
    }
    proof {
        reveal(key_present);
        assert forall|k: Seq<u64>| m0.dom().contains(k) implies #[trigger] line_present(
            sorted@,
            m0[k].line(),
        ) by {
            assert(!key_present(entries@, k));
        }
    }
    sorted
}

/// Builds a snapshot from line-sorted cache entries: the units in order,
/// each under its line key.
fn build_snapshot(sorted: Vec<(Vec<u64>, ReadyVec)>) -> (r: Tree)
    requires
        forall|i: int| 0 <= i < sorted@.len() ==> (#[trigger] sorted@[i]).1.wf(),
    ensures
        r.wf(),
        r.vecs().len() == sorted@.len(),
        forall|i: int| 0 <= i < sorted@.len() ==> #[trigger] r.vecs()[i] == sorted@[i].1,
        r.index_pairs().len() == sorted@.len(),
        forall|i: int|
            0 <= i < sorted@.len() ==> ((#[trigger] r.index_pairs()[i]).0@ == spec_line_key(
                sorted@[i].1.line() as int,
            ) && r.index_pairs()[i].1 == i),
{
    let mut rest = sorted;
    let ghost all = rest@;
    let mut tree = Tree::new();
    while rest.len() > 0
        invariant
            tree.wf(),
            tree.vecs().len() + rest@.len() == all.len(),
            tree.index_pairs().len() == tree.vecs().len(),
            forall|i: int| 0 <= i < all.len() ==> (#[trigger] all[i]).1.wf(),
            forall|i: int| 0 <= i < tree.vecs().len() ==> #[trigger] tree.vecs()[i] == all[i].1,
            forall|j: int|
                0 <= j < rest@.len() ==> (#[trigger] rest@[j]) == all[tree.vecs().len() + j],
            forall|i: int|
                0 <= i < tree.vecs().len() ==> ((#[trigger] tree.index_pairs()[i]).0@
                    == spec_line_key(tree.vecs()[i].line() as int) && tree.index_pairs()[i].1
                    == i),
        decreases rest@.len(),
    {
        let ghost r_before = rest@;
        let pair = rest.remove(0);
        proof {
            assert(pair == r_before[0]);
            assert(pair == all[tree.vecs().len() as int]);
            assert(pair.1.wf());
        }
        let key = line_key(pair.1.get_line());
        let idx = tree.len();
        let ghost pairs_old = tree.index_pairs();
        let ghost vecs_old = tree.vecs();
        tree.add_vec(key, pair.1);
        proof {
            assert forall|i: int|
                0 <= i < tree.vecs().len() implies ((#[trigger] tree.index_pairs()[i]).0@
                == spec_line_key(tree.vecs()[i].line() as int) && tree.index_pairs()[i].1
                == i) by {
                if i == vecs_old.len() {
                    assert(tree.vecs()[i] == pair.1);
                    assert(vecs_old.len() as usize == idx);
                    assert(tree.index_pairs() == pairs_old.push((key, idx)));
                    assert(tree.index_pairs()[i] == (key, idx));
                    assert(tree.index_pairs()[i].0@ == spec_line_key(pair.1.line() as int));
                    assert(tree.index_pairs()[i].1 == i);
                } else {
                    assert(tree.index_pairs()[i] == pairs_old[i]);
                    assert(tree.vecs()[i] == vecs_old[i]);
                    assert(pairs_old[i].0@ == spec_line_key(vecs_old[i].line() as int));
                    assert(pairs_old[i].1 == i);
                }
            }
        }
    }
    tree
}

// ---------------------------------------------------------------------------
// The incremental session
// ---------------------------------------------------------------------------

/// The position of the first lexical-error token at or after `i`.
pub open spec fn find_lex_error(tokens: Seq<Token>, i: int) -> Option<int>
    decreases tokens.len() - i,
{
    if !(0 <= i < tokens.len()) {
        None::<int>
    } else if tokens[i].token_type == TokenType::LexError {
        Some(i)
    } else {
        find_lex_error(tokens, i + 1)
    }
}

/// The message of the first lexical-error token, if the sequence holds one.
fn first_lex_error_message(tokens: &Vec<Token>) -> (r: Option<String>)
    ensures
        match find_lex_error(tokens@, 0) {
            Some(idx) => (r matches Some(m) && m@ == tokens@[idx].lexeme@),
            None => r is None,
        },
{
    let n = tokens.len();
    let mut k: usize = 0;
    while k < n
        invariant
            n == tokens@.len(),
            k <= n,
            find_lex_error(tokens@, 0) == find_lex_error(tokens@, k as int),
        decreases n - k,
    {
        if matches!(tokens[k].token_type, TokenType::LexError) {
            return Some(tokens[k].lexeme.clone());
        }
        k = k + 1;
    }
    None
}

/// Shrinking the cache keeps every remaining unit well formed.
pub proof fn lemma_wf_entries_submap(a: Map<Seq<u64>, ReadyVec>, b: Map<Seq<u64>, ReadyVec>)
    requires
        a.submap_of(b),
        forall|k: Seq<u64>| b.dom().contains(k) ==> (#[trigger] b[k]).wf(),
    ensures
        forall|k: Seq<u64>| a.dom().contains(k) ==> (#[trigger] a[k]).wf(),
{
    assert forall|k: Seq<u64>| a.dom().contains(k) implies (#[trigger] a[k]).wf() by {
        let in_b: bool = b.dom().contains(k);
        assert(a.dom().contains(k) ==> b.dom().contains(k) && a[k] == b[k]);
    }
}

/// What a successful `process_vector` call leaves behind: the line's unit,
/// carrying the tokens, the line, the parse's value and the token index,
/// cached under the tokens' content key, with nothing else added.
pub open spec fn cached_unit_witness(
    before: Map<Seq<u64>, ReadyVec>,
    after: Map<Seq<u64>, ReadyVec>,
    tokens: Seq<Token>,
    line: usize,
    u: ReadyVec,
) -> bool {
    &&& u.wf()
    &&& u.tokens() == tokens
    &&& u.line() == line
    &&& (u.parsed() matches Some(v) && v.model() == spec_build(
        sexp_events_of(spec_render(tokens, 0)),
        0,
    ).0->0)
    &&& u.index_pairs().len() == tokens.len()
    &&& (forall|i: int|
        0 <= i < tokens.len() ==> ((#[trigger] u.index_pairs()[i]).0@ == spec_token_key(
            i,
            tokens[i].lexeme@,
        ) && u.index_pairs()[i].1 == i))
    &&& after.submap_of(before.insert(spec_content_key(tokens), u))
}

/// What a prefix scan of the cache can report: `m` lines of the new code
/// matched the cache before the scan stopped, and the decision follows the
/// match coefficient.
pub open spec fn prefix_scan_witness(
    before: Map<Seq<u64>, ReadyVec>,
    after: Map<Seq<u64>, ReadyVec>,
    new_code: Seq<Vec<Token>>,
    frontier: int,
    m: int,
    r: bool,
) -> bool {
    &&& 0 <= m <= frontier
    &&& m <= new_code.len()
    &&& r == (2 * m < frontier)
    &&& (forall|j: int|
        0 <= j < m ==> before.dom().contains(spec_content_key((#[trigger] new_code[j])@)))
    &&& ((m < frontier && m < new_code.len()) ==> !after.dom().contains(
        spec_content_key(new_code[m]@),
    ))
}

/// Whether every unit of a snapshot is one of the cache's stored units.
pub open spec fn snapshot_from(m: Map<Seq<u64>, ReadyVec>, units: Seq<ReadyVec>) -> bool {
    forall|i: int| 0 <= i < units.len() ==> m.contains_value(#[trigger] units[i])
}

/// Whether a snapshot covers the cache: every stored unit's line is the
/// line of some snapshot unit.
pub open spec fn snapshot_covers(m: Map<Seq<u64>, ReadyVec>, units: Seq<ReadyVec>) -> bool {
    forall|k: Seq<u64>|
        m.dom().contains(k) ==> exists|i: int|
            0 <= i < units.len() && (#[trigger] units[i]).line() == m[k].line()
}

/// The incremental session: line-by-line submission into a content-addressed
/// cache of processed units, a processing frontier, rebuild-vs-continue
/// decisions, range invalidation, and snapshot assembly.
pub struct LispInterpreter {
    ready_code: moka::sync::Cache<Vec<u64>, ReadyVec>,
    current_ptr: usize,
    total_lines: usize,
}

impl LispInterpreter {
    /// The cache's live entries: content key to stored unit.
    pub closed spec fn cache_map(self) -> Map<Seq<u64>, ReadyVec> {
        cache_entries(self.ready_code)
    }

    /// The line index one past the last successfully processed line.
    pub closed spec fn frontier(self) -> usize {
        self.current_ptr
    }

    /// The expected number of lines, as the caller set it.
    pub closed spec fn total(self) -> usize {
        self.total_lines
    }

    /// Every cached unit is well formed.
    pub closed spec fn wf(self) -> bool {
        forall|k: Seq<u64>|
            self.cache_map().dom().contains(k) ==> (#[trigger] self.cache_map()[k]).wf()
    }

    /// A fresh session: an empty cache bounded by `capacity` entries with a
    /// one-hour time to live, frontier zero, no expected line count.
    pub fn new(capacity: u64) -> (r: LispInterpreter)
        ensures
            r.wf(),
            r.cache_map() == no_entries(),
            r.frontier() == 0,
            r.total() == 0,
    {
        LispInterpreter { ready_code: cache_new(capacity), current_ptr: 0, total_lines: 0 }
    }

    /// Records the expected line count; nothing else changes.
    pub fn set_total_lines(&mut self, lines: usize)
        requires
            old(self).wf(),
        ensures
            final(self).wf(),
            final(self).total() == lines,
            final(self).frontier() == old(self).frontier(),
            final(self).cache_map() == old(self).cache_map(),
    {
        self.total_lines = lines;
        proof {
            assert(self.ready_code == old(self).ready_code);
            assert(self.cache_map() == old(self).cache_map());
            assert(self.wf());
        }
    }

    /// Processes one line's tokens: rejects a lexical error token, validates
    /// the structure, parses through the external expression parser, and on
    /// success caches the unit under the tokens' content key and advances
    /// the frontier to just past `line`. On failure nothing changes.
    #[verifier::rlimit(100)]
    #[verifier::spinoff_prover]
    pub fn process_vector(&mut self, tokens: Vec<Token>, line: usize) -> (r: Result<
        (),
        SyntaxError,
    >)
        requires
            old(self).wf(),
            line < usize::MAX,
        ensures
            final(self).wf(),
            final(self).total() == old(self).total(),
            (find_lex_error(tokens@, 0) matches Some(idx) ==> (r matches Err(e) && e matches
                SyntaxError::InvalidToken(m) && m@ == tokens@[idx].lexeme@)),
            find_lex_error(tokens@, 0) is None ==> (spec_validate(tokens@) matches Some(e) ==> r
                == Err::<(), SyntaxError>(e)),
            (find_lex_error(tokens@, 0) is None && spec_validate(tokens@) is None && (
            has_backslash(spec_render(tokens@, 0)) || !sexp_text_wf(spec_render(tokens@, 0))))
                ==> (r matches Err(e) && e is ParseError),
            r is Ok <==> (find_lex_error(tokens@, 0) is None && spec_validate(tokens@) is None
                && !has_backslash(spec_render(tokens@, 0)) && sexp_text_wf(
                spec_render(tokens@, 0),
            )),
            r is Ok ==> final(self).frontier() == line + 1,
            r is Ok ==> (exists|u: ReadyVec|
                cached_unit_witness(
                    old(self).cache_map(),
                    final(self).cache_map(),
                    tokens@,
                    line,
                    u,
                )),
            r is Err ==> (final(self).cache_map() == old(self).cache_map()
                && final(self).frontier() == old(self).frontier()),
    {
        proof {
            assert(self.cache_map() == old(self).cache_map());
            assert(self.wf());
        }
        // a lexical error token blocks processing of the line
        match first_lex_error_message(&tokens) {
            Some(msg) => {
                return Err(SyntaxError::InvalidToken(msg));
            },
            None => {},
        }

        match is_vect_ready(&tokens) {
            Err(e) => {
                return Err(e);
            },
            Ok(()) => {},
        }

        let parsed_val = match check_syntax_with_rsexp(&tokens) {
            Err(e) => {
                return Err(e);
            },
            Ok(v) => v,
        };

        let hash = hash_token_vector(&tokens);
        let ready_vec = create_ready_vec(tokens, line, Some(parsed_val));
        let ghost unit = ready_vec;
        let ghost key = hash@;
        let ghost before = cache_entries(self.ready_code);
        cache_insert(&mut self.ready_code, hash, ready_vec);
        proof {
            let after = cache_entries(self.ready_code);
            assert forall|k2: Seq<u64>| after.dom().contains(k2) implies (
            #[trigger] after[k2]).wf() by {
                assert(before.insert(key, unit).dom().contains(k2) && after[k2] == before.insert(
                    key,
                    unit,
                )[k2]);
                if k2 != key {
                    assert(before.dom().contains(k2));
                }
            }
        }
        self.current_ptr = line + 1;
        proof {
            assert(self.cache_map().submap_of(
                old(self).cache_map().insert(spec_content_key(tokens@), unit),
            ));
            assert(cached_unit_witness(
                old(self).cache_map(),
                self.cache_map(),
                tokens@,
                line,
                unit,
            ));
        }
        Ok(())
    }

    /// Decides whether the session should rebuild from scratch: always when
    /// nothing was processed yet or the new code is empty; otherwise the
    /// cached prefix of the new code is counted, stopping at the first line
    /// whose tokens are not cached, and a rebuild is due when fewer than
    /// half of `frontier` lines matched.
    pub fn should_rebuild(&mut self, new_code: &Vec<Vec<Token>>) -> (r: bool)
        requires
            old(self).wf(),
        ensures
            final(self).wf(),
            final(self).frontier() == old(self).frontier(),
            final(self).total() == old(self).total(),
            final(self).cache_map().submap_of(old(self).cache_map()),
            (old(self).frontier() == 0 || new_code@.len() == 0) ==> r == true,
            (old(self).frontier() > 0 && new_code@.len() > 0) ==> (exists|m: int|
                prefix_scan_witness(
                    old(self).cache_map(),
                    final(self).cache_map(),
                    new_code@,
                    old(self).frontier() as int,
                    m,
                    r,
                )),
    {
        if self.current_ptr == 0 || new_code.is_empty() {
            return true;
        }

        let frontier = self.current_ptr;
        let max_check = if frontier < new_code.len() {
            frontier
        } else {
            new_code.len()
        };

        let mut i: usize = 0;
        loop
            invariant_except_break
                self.wf(),
                self.frontier() == old(self).frontier(),
                self.total() == old(self).total(),
                frontier == old(self).frontier(),
                frontier > 0,
                max_check <= frontier,
                max_check <= new_code@.len(),
                i <= max_check,
                self.cache_map().submap_of(old(self).cache_map()),
                forall|j: int|
                    0 <= j < i ==> old(self).cache_map().dom().contains(
                        spec_content_key((#[trigger] new_code@[j])@),
                    ),
            ensures
                self.wf(),
                self.frontier() == old(self).frontier(),
                self.total() == old(self).total(),
                frontier == old(self).frontier(),
                i <= max_check,
                max_check <= frontier,
                max_check <= new_code@.len(),
                self.cache_map().submap_of(old(self).cache_map()),
                forall|j: int|
                    0 <= j < i ==> old(self).cache_map().dom().contains(
                        spec_content_key((#[trigger] new_code@[j])@),
                    ),
                i < max_check ==> !self.cache_map().dom().contains(
                    spec_content_key(new_code@[i as int]@),
                ),
            decreases max_check - i,
        {
            if i >= max_check {
                break;
            }
            let ghost top = *self;
            let ghost mid = self.cache_map();
            let hash = hash_token_vector(&new_code[i]);
            let hit = cache_contains(&mut self.ready_code, &hash);
            proof {
                vstd::map_lib::lemma_submap_of_trans(self.cache_map(), mid, old(self).cache_map());
                lemma_wf_entries_submap(self.cache_map(), top.cache_map());
                assert(self.wf());
            }
            if !hit {
                break;
            }
            proof {
                assert(self.cache_map().dom().contains(spec_content_key(new_code@[i as int]@)));
                assert(old(self).cache_map().dom().contains(
                    spec_content_key(new_code@[i as int]@),
                ));
            }
            i = i + 1;
        }

        // fewer than half of the frontier's lines matched, counting
        // m / frontier < 1/2 as 2 m < frontier
        let matches_count = i;
        let r = matches_count < frontier - matches_count;
        proof {
            let m = matches_count as int;
            assert(r == (2 * m < old(self).frontier()));
            assert(prefix_scan_witness(
                old(self).cache_map(),
                self.cache_map(),
                new_code@,
                old(self).frontier() as int,
                m,
                r,
            ));
        }
        r
    }

    /// Removes every cached unit whose stored line is at or past `position`,
    /// and lowers the frontier to `position` if it was higher. This call
    /// touches no unit of an earlier line, but no contract can promise that
    /// those units are still cached afterwards: expiry and capacity
    /// eviction may drop any entry at any time between calls, so only the
    /// removal half is stated.
    pub fn invalidate_from(&mut self, position: usize)
        requires
            old(self).wf(),
        ensures
            final(self).wf(),
            final(self).total() == old(self).total(),
            final(self).frontier() == if position < old(self).frontier() {
                position
            } else {
                old(self).frontier()
            },
            final(self).cache_map().submap_of(old(self).cache_map()),
            forall|k: Seq<u64>|
                final(self).cache_map().dom().contains(k) ==> (
                #[trigger] final(self).cache_map()[k]).line() < position,
    {
        let entries = cache_entries_vec(&mut self.ready_code);
        let ghost m0 = cache_entries(self.ready_code);
        let ghost before = old(self).cache_map();
        proof {
            lemma_wf_entries_submap(m0, before);
            assert(self.wf());
        }
        let n = entries.len();
        let mut i: usize = 0;
        while i < n
            invariant
                self.wf(),
                self.frontier() == old(self).frontier(),
                self.total() == old(self).total(),
                n == entries@.len(),
                i <= n,
                m0.submap_of(before),
                self.cache_map().submap_of(m0),
                forall|p: int|
                    0 <= p < n ==> m0.contains_pair((#[trigger] entries@[p]).0@, entries@[p].1),
                forall|k: Seq<u64>|
                    m0.dom().contains(k) ==> exists|p: int|
                        0 <= p < n && (#[trigger] entries@[p]).0@ == k,
                forall|p: int|
                    0 <= p < i && (#[trigger] entries@[p]).1.line() >= position
                        ==> !self.cache_map().dom().contains(entries@[p].0@),
            decreases n - i,
        {
            let ghost top = *self;
            let ghost mid = self.cache_map();
            if entries[i].1.get_line() >= position {
                cache_invalidate(&mut self.ready_code, &entries[i].0);
            }
            proof {
                vstd::map_lib::lemma_submap_of_trans(self.cache_map(), mid, m0);
                lemma_wf_entries_submap(self.cache_map(), top.cache_map());
                assert(self.wf());
                assert forall|p: int|
                    0 <= p < i + 1 && (#[trigger] entries@[p]).1.line() >= position
                        implies !self.cache_map().dom().contains(entries@[p].0@) by {
                    if p < i {
                        assert(!mid.dom().contains(entries@[p].0@));
                    }
                }
            }
            i = i + 1;
        }
        proof {
            vstd::map_lib::lemma_submap_of_trans(self.cache_map(), m0, before);
            assert forall|k: Seq<u64>| self.cache_map().dom().contains(k) implies (
            #[trigger] self.cache_map()[k]).line() < position by {
                assert(m0.dom().contains(k));
                let p = choose|p: int| 0 <= p < n && (#[trigger] entries@[p]).0@ == k;
                assert(m0.contains_pair(entries@[p].0@, entries@[p].1));
                assert(self.cache_map()[k] == m0[k]);
                if entries@[p].1.line() >= position {
                    assert(!self.cache_map().dom().contains(entries@[p].0@));
                }
            }
        }
        if position < self.current_ptr {
            self.current_ptr = position;
        }
    }

    /// Assembles the snapshot tree: one unit per distinct cached line,
    /// sorted by line ascending, each under its line key; every line the
    /// cache still holds appears. The snapshot is detached: later cache
    /// changes do not affect it.
    #[verifier::rlimit(100)]
    #[verifier::spinoff_prover]
    pub fn get_tree(&mut self) -> (r: Tree)
        requires
            old(self).wf(),
        ensures
            final(self).wf(),
            final(self).frontier() == old(self).frontier(),
            final(self).total() == old(self).total(),
            final(self).cache_map().submap_of(old(self).cache_map()),
            r.wf(),
            forall|i: int, j: int|
                0 <= i < j < r.vecs().len() ==> (#[trigger] r.vecs()[i]).line() < (
                #[trigger] r.vecs()[j]).line(),
            snapshot_from(final(self).cache_map(), r.vecs()),
            snapshot_covers(final(self).cache_map(), r.vecs()),
            r.index_pairs().len() == r.vecs().len(),
            forall|i: int|
                0 <= i < r.vecs().len() ==> ((#[trigger] r.index_pairs()[i]).0@ == spec_line_key(
                    r.vecs()[i].line() as int,
                ) && r.index_pairs()[i].1 == i),
    {
        let entries = cache_entries_vec(&mut self.ready_code);
        let ghost m0 = cache_entries(self.ready_code);
        let ghost before = old(self).cache_map();
        proof {
            lemma_wf_entries_submap(m0, before);
            assert(self.wf());
            assert forall|k: Seq<u64>| m0.dom().contains(k) implies #[trigger] key_present(
                entries@,
                k,
            ) by {
                reveal(key_present);
            }
        }

        // sort the entries by their unit's line, one per distinct line
        let sorted = sort_entries_by_line(entries, Ghost(m0));
        let ghost final_sorted = sorted@;

        // build the snapshot in line order, each unit under its line key
        let tree = build_snapshot(sorted);
        proof {
            assert forall|i: int, j: int|
                0 <= i < j < tree.vecs().len() implies (#[trigger] tree.vecs()[i]).line() < (
            #[trigger] tree.vecs()[j]).line() by {
                assert(tree.vecs()[i] == final_sorted[i].1);
                assert(tree.vecs()[j] == final_sorted[j].1);
            }
            assert(snapshot_from(self.cache_map(), tree.vecs())) by {
                assert forall|i: int|
                    0 <= i < tree.vecs().len() implies self.cache_map().contains_value(
                    #[trigger] tree.vecs()[i],
                ) by {
                    assert(tree.vecs()[i] == final_sorted[i].1);
                    assert(self.cache_map().dom().contains(final_sorted[i].0@)
                        && self.cache_map()[final_sorted[i].0@] == tree.vecs()[i]);
                }
            }
            assert(snapshot_covers(self.cache_map(), tree.vecs())) by {
                reveal(line_present);
                assert forall|k: Seq<u64>|
                    self.cache_map().dom().contains(k) implies exists|i: int|
                    0 <= i < tree.vecs().len() && (#[trigger] tree.vecs()[i]).line()
                        == self.cache_map()[k].line() by {
                    assert(line_present(final_sorted, m0[k].line()));
                    let i = choose|i: int|
                        0 <= i < final_sorted.len() && (#[trigger] final_sorted[i]).1.line()
                            == m0[k].line();
                    assert(tree.vecs()[i] == final_sorted[i].1);
                    assert(tree.vecs()[i].line() == self.cache_map()[k].line());
                }
            }
            assert forall|i: int|
                0 <= i < tree.vecs().len() implies ((#[trigger] tree.index_pairs()[i]).0@
                == spec_line_key(tree.vecs()[i].line() as int) && tree.index_pairs()[i].1
                == i) by {
                assert(tree.vecs()[i] == final_sorted[i].1);
                assert(tree.index_pairs()[i].0@ == spec_line_key(final_sorted[i].1.line() as int));
            }
        }
        tree
    }

    /// The processing frontier and the expected line count.
    pub fn get_progress(&self) -> (r: (usize, usize))
        ensures
            r.0 == self.frontier(),
            r.1 == self.total(),
    {
        (self.current_ptr, self.total_lines)
    }

    /// Returns to the empty state: clears the cache entirely and puts the
    /// frontier back to zero; the expected line count stays.
    pub fn reset(&mut self)
        requires
            old(self).wf(),
        ensures
            final(self).wf(),
            final(self).cache_map() == no_entries(),
            final(self).frontier() == 0,
            final(self).total() == old(self).total(),
    {
        cache_invalidate_all(&mut self.ready_code);
        self.current_ptr = 0;
    }

    /// Whether processing has reached the expected line count: the frontier
    /// is at or past a positive total.
    pub fn is_complete(&self) -> (r: bool)
        ensures
            r == (self.frontier() >= self.total() && self.total() > 0),
    {
        self.current_ptr >= self.total_lines && self.total_lines > 0
    }
}

} // verus!
