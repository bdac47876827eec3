//! Content keys for token sequences.
//!
//! The cache is content-addressed: a processed line is retrieved by what its
//! tokens are, not by which line produced them. The key of a token sequence
//! is a machine-word encoding in which every variant and every field
//! contributes in a fixed, documented order: for each token its kind tag,
//! line, column and text length, followed by the text's characters. The
//! encoding is deterministic (`lemma_key_deterministic`) and injective
//! (`lemma_key_sensitive`): element-wise identical sequences always map to
//! the same key, and altering any field of any token changes the key.

use vstd::prelude::*;
use vstd::utf8::char_u32_cast;
use crate::token::{Token, TokenType, tokens_same};
use crate::text::str_to_chars;

verus! {

/// The tag of each token kind, in the fixed documented order.
pub open spec fn kind_tag(k: TokenType) -> u64 {
    match k {
        TokenType::LeftParen => 0,
        TokenType::RightParen => 1,
        TokenType::Quote => 2,
        TokenType::Symbol => 3,
        TokenType::Number => 4,
        TokenType::String => 5,
        TokenType::Boolean => 6,
        TokenType::Eof => 7,
        TokenType::LexError => 8,
    }
}

/// Two kinds with the same tag are the same kind.
pub proof fn lemma_kind_tag_injective(k1: TokenType, k2: TokenType)
    requires
        kind_tag(k1) == kind_tag(k2),
    ensures
        k1 == k2,
{
}

/// A character's code point, as a machine word.
pub open spec fn char_code(c: char) -> u64 {
    (c as u32) as u64
}

/// The key contribution of one token: tag, line, column, text length, then
/// the text's character codes.
pub open spec fn spec_token_key(t: Token) -> Seq<u64> {
    seq![
        kind_tag(t.token_type),
        t.line as u64,
        t.column as u64,
        t.lexeme@.len() as u64,
    ] + t.lexeme@.map_values(|c: char| char_code(c))
}

/// The content key of a token sequence: the tokens' contributions in order.
pub open spec fn spec_content_key(ts: Seq<Token>) -> Seq<u64>
    decreases ts.len(),
{
    if ts.len() == 0 {
        seq![]
    } else {
        spec_token_key(ts[0]) + spec_content_key(ts.drop_first())
    }
}

/// Whether every token's text length fits in a machine word, so that the
/// length field in its key is faithful. Every real string is far below this.
pub open spec fn keyable(ts: Seq<Token>) -> bool {
    forall|i: int| 0 <= i < ts.len() ==> (#[trigger] ts[i]).lexeme@.len() <= u64::MAX
}

/// Computes the content key of a token sequence.
pub fn hash_token_vector(tokens: &Vec<Token>) -> (r: Vec<u64>)
    ensures
        r@ == spec_content_key(tokens@),
{
    let ghost all = tokens@;
    let mut out: Vec<u64> = Vec::new();
    let n = tokens.len();
    let mut k: usize = 0;
    proof {
        assert(all.skip(0) =~= all);
        assert(spec_content_key(all) =~= out@ + spec_content_key(all.skip(0)));
    }
    while k < n
        invariant
            all == tokens@,
            n == all.len(),
            k <= n,
            spec_content_key(all) == out@ + spec_content_key(all.skip(k as int)),
        decreases n - k,
    {
        let ghost rest = all.skip(k as int);
        proof {
            assert(rest[0] == all[k as int]);
            assert(rest.drop_first() =~= all.skip(k as int + 1));
        }
        let t = &tokens[k];
        out.push(kind_tag_of(t.token_type));
        out.push(t.line as u64);
        out.push(t.column as u64);
        let cs = str_to_chars(t.lexeme.as_str());
        let m = cs.len();
        out.push(m as u64);
        let mut j: usize = 0;
        let ghost base = out@;
        while j < m
            invariant
                m == cs@.len(),
                j <= m,
                out@ == base + cs@.subrange(0, j as int).map_values(|c: char| char_code(c)),
            decreases m - j,
        {
            out.push(cs[j] as u32 as u64);
            proof {
                assert(cs@.subrange(0, j + 1).map_values(|c: char| char_code(c)) =~= cs@.subrange(
                    0,
                    j as int,
                ).map_values(|c: char| char_code(c)) + seq![char_code(cs@[j as int])]);
                assert(out@ =~= base + cs@.subrange(0, j + 1).map_values(
                    |c: char| char_code(c),
                ));
            }
            j = j + 1;
        }
        proof {
            assert(cs@.subrange(0, m as int) =~= cs@);
            assert(out@ =~= base + cs@.map_values(|c: char| char_code(c)));
            assert(spec_token_key(all[k as int]) =~= seq![
                kind_tag(all[k as int].token_type),
                all[k as int].line as u64,
                all[k as int].column as u64,
                all[k as int].lexeme@.len() as u64,
            ] + all[k as int].lexeme@.map_values(|c: char| char_code(c)));
            assert(spec_content_key(rest) == spec_token_key(rest[0]) + spec_content_key(
                rest.drop_first(),
            ));
            assert(spec_content_key(all) =~= out@ + spec_content_key(all.skip(k as int + 1)));
        }
        k = k + 1;
    }
    proof {
        assert(all.skip(n as int) =~= Seq::<Token>::empty());
        assert(spec_content_key(all) =~= out@);
    }
    out
}

/// The tag of a token kind.
pub fn kind_tag_of(k: TokenType) -> (r: u64)
    ensures
        r == kind_tag(k),
{
    match k {
        TokenType::LeftParen => 0,
        TokenType::RightParen => 1,
        TokenType::Quote => 2,
        TokenType::Symbol => 3,
        TokenType::Number => 4,
        TokenType::String => 5,
        TokenType::Boolean => 6,
        TokenType::Eof => 7,
        TokenType::LexError => 8,
    }
}

/// One token's key has its four fixed fields and then its text.
pub proof fn lemma_token_key_len(t: Token)
    ensures
        spec_token_key(t).len() == 4 + t.lexeme@.len(),
{
}

/// Determinism of the content key: two token sequences that are element-wise
/// identical (kind, text, line and column of every token) always map to the
/// same key, regardless of which strings hold the texts.
pub proof fn lemma_key_deterministic(a: Seq<Token>, b: Seq<Token>)
    requires
        tokens_same(a, b),
    ensures
        spec_content_key(a) == spec_content_key(b),
    decreases a.len(),
{
    if a.len() > 0 {
        assert(a[0].same_as(b[0]));
        assert(spec_token_key(a[0]) == spec_token_key(b[0]));
        assert(tokens_same(a.drop_first(), b.drop_first())) by {
            assert forall|i: int| 0 <= i < a.drop_first().len() implies #[trigger] a.drop_first()[i]
                .same_as(b.drop_first()[i]) by {
                assert(a[i + 1].same_as(b[i + 1]));
            }
        }
        lemma_key_deterministic(a.drop_first(), b.drop_first());
    }
}

/// Sensitivity of the content key: two token sequences with the same key are
/// element-wise identical, so altering any single field (kind, text, line or
/// column) of any token changes the key.
pub proof fn lemma_key_sensitive(a: Seq<Token>, b: Seq<Token>)
    requires
        keyable(a),
        keyable(b),
        spec_content_key(a) == spec_content_key(b),
    ensures
        tokens_same(a, b),
    decreases a.len(),
{
    if a.len() == 0 {
        if b.len() > 0 {
            lemma_token_key_len(b[0]);
            assert(spec_content_key(b).len() >= 4);
        }
    } else if b.len() == 0 {
        lemma_token_key_len(a[0]);
        assert(spec_content_key(a).len() >= 4);
    } else {
        let ta = a[0];
        let tb = b[0];
        let ka = spec_token_key(ta);
        let kb = spec_token_key(tb);
        let ra = spec_content_key(a.drop_first());
        let rb = spec_content_key(b.drop_first());
        let lexa = ta.lexeme@;
        let lexb = tb.lexeme@;
        lemma_token_key_len(ta);
        lemma_token_key_len(tb);
        assert(ta.lexeme@.len() <= u64::MAX);
        assert(tb.lexeme@.len() <= u64::MAX);

        // The four fixed fields agree.
        assert((ka + ra)[0] == kind_tag(ta.token_type));
        assert((kb + rb)[0] == kind_tag(tb.token_type));
        lemma_kind_tag_injective(ta.token_type, tb.token_type);
        assert((ka + ra)[1] == ta.line as u64);
        assert((kb + rb)[1] == tb.line as u64);
        assert((ka + ra)[2] == ta.column as u64);
        assert((kb + rb)[2] == tb.column as u64);
        assert((ka + ra)[3] == lexa.len() as u64);
        assert((kb + rb)[3] == lexb.len() as u64);
        assert(lexa.len() == lexb.len());

        // The texts agree character by character.
        assert forall|j: int| 0 <= j < lexa.len() implies lexa[j] == lexb[j] by {
            assert((ka + ra)[4 + j] == ka[4 + j]);
            assert(ka[4 + j] == char_code(lexa[j]));
            assert((kb + rb)[4 + j] == kb[4 + j]);
            assert(kb[4 + j] == char_code(lexb[j]));
            assert(char_code(lexa[j]) == char_code(lexb[j]));
            assert(lexa[j] as u32 == lexb[j] as u32);
            char_u32_cast(lexa[j], lexa[j] as u32);
            char_u32_cast(lexb[j], lexb[j] as u32);
        }
        assert(lexa =~= lexb);
        assert(ta.same_as(tb));

        // The remainders agree, so the tails do by induction.
        assert(ka.len() == kb.len());
        assert(ra =~= rb) by {
            assert((ka + ra).len() == (kb + rb).len());
            assert forall|j: int| 0 <= j < ra.len() implies ra[j] == rb[j] by {
                assert((ka + ra)[ka.len() + j] == ra[j]);
                assert((kb + rb)[kb.len() + j] == rb[j]);
            }
        }
        assert(keyable(a.drop_first())) by {
            assert forall|i: int| 0 <= i < a.drop_first().len() implies (#[trigger] a.drop_first()[i]).lexeme@.len()
                <= u64::MAX by {
                assert(a[i + 1].lexeme@.len() <= u64::MAX);
            }
        }
        assert(keyable(b.drop_first())) by {
            assert forall|i: int| 0 <= i < b.drop_first().len() implies (#[trigger] b.drop_first()[i]).lexeme@.len()
                <= u64::MAX by {
                assert(b[i + 1].lexeme@.len() <= u64::MAX);
            }
        }
        lemma_key_sensitive(a.drop_first(), b.drop_first());
        assert forall|i: int| 0 <= i < a.len() implies #[trigger] a[i].same_as(b[i]) by {
            if i > 0 {
                assert(a.drop_first()[i - 1].same_as(b.drop_first()[i - 1]));
            }
        }
    }
}

} // verus!
