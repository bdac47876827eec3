//! The syntax-level token model: the kind of a token, its literal text and
//! its source position. Tokens of this form are what the structural
//! validator, the content keys and the incremental session work over.

use vstd::prelude::*;

verus! {

/// The kind of a token.
#[derive(Debug, Clone, Copy, PartialEq, Eq, Structural)]
pub enum TokenType {
    /// `(`
    LeftParen,
    /// `)`
    RightParen,
    /// `'`
    Quote,
    /// identifiers and operators
    Symbol,
    /// numeric literals
    Number,
    /// string literals
    String,
    /// `#t` and `#f`
    Boolean,
    /// end of input
    Eof,
    /// a lexical error, with its message as the lexeme
    LexError,
}

/// One token: its kind, its literal text, and the zero-based position of its
/// first character.
#[derive(Debug, Clone)]
pub struct Token {
    pub token_type: TokenType,
    /// The source text of the token. For a string literal this is the
    /// unescaped content without the surrounding quotes; for a lexical
    /// error it is the error message.
    pub lexeme: String,
    /// The line the token starts on.
    pub line: usize,
    /// The column of the token's first character.
    pub column: usize,
}

impl Token {
    /// Whether two tokens agree in every field (kind, text, position).
    pub open spec fn same_as(self, other: Token) -> bool {
        &&& self.token_type == other.token_type
        &&& self.lexeme@ == other.lexeme@
        &&& self.line == other.line
        &&& self.column == other.column
    }
}

/// Whether two token sequences are element-wise identical, every field
/// included.
pub open spec fn tokens_same(a: Seq<Token>, b: Seq<Token>) -> bool {
    &&& a.len() == b.len()
    &&& forall|i: int| 0 <= i < a.len() ==> #[trigger] a[i].same_as(b[i])
}

} // verus!
