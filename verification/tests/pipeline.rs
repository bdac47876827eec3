use lisp_frontend::lexer::{Lexer, to_syntax_tokens};
use lisp_frontend::token::{Token, TokenType};
use lisp_frontend::content_key::hash_token_vector;
use lisp_frontend::syntax_parser::{is_vect_ready, tokens_to_string, LispInterpreter, SyntaxError};
use lisp_frontend::sexp::LispVal;

fn tokenize_line(s: &str) -> Vec<Token> {
    let mut lexer = Lexer::new(s);
    let raw = lexer.tokenize_all();
    to_syntax_tokens(&raw)
}

fn mk_token(kind: TokenType, lexeme: &str, line: usize, column: usize) -> Token {
    Token { token_type: kind, lexeme: lexeme.to_string(), line, column }
}

#[test]
fn tokenize_simple_expression() {
    let toks = tokenize_line("(+ 1 2)");
    let kinds: Vec<TokenType> = toks.iter().map(|t| t.token_type).collect();
    assert_eq!(
        kinds,
        vec![
            TokenType::LeftParen,
            TokenType::Symbol,
            TokenType::Number,
            TokenType::Number,
            TokenType::RightParen,
            TokenType::Eof
        ]
    );
    assert_eq!(toks[1].lexeme, "+");
    assert_eq!(toks[2].lexeme, "1");
    assert_eq!(toks[0].line, 1);
    assert_eq!(toks[0].column, 0);
    assert_eq!(toks[1].column, 1);
}

#[test]
fn tokenize_string_with_escapes() {
    let toks = tokenize_line("\"a\\nb\\\"c\"");
    assert_eq!(toks[0].token_type, TokenType::String);
    assert_eq!(toks[0].lexeme, "a\nb\"c");
}

#[test]
fn tokenize_booleans_and_comments() {
    let toks = tokenize_line("#t ; rest is a comment (ignored)\n#f");
    assert_eq!(toks[0].token_type, TokenType::Boolean);
    assert_eq!(toks[0].lexeme, "#t");
    assert_eq!(toks[1].token_type, TokenType::Boolean);
    assert_eq!(toks[1].lexeme, "#f");
    assert_eq!(toks[1].line, 2);
    assert_eq!(toks[1].column, 0);
}

#[test]
fn tokenize_signed_numbers_and_symbols() {
    let toks = tokenize_line("-12 +3.5 - abc?");
    assert_eq!(toks[0].token_type, TokenType::Number);
    assert_eq!(toks[0].lexeme, "-12");
    assert_eq!(toks[1].token_type, TokenType::Number);
    assert_eq!(toks[1].lexeme, "+3.5");
    assert_eq!(toks[2].token_type, TokenType::Symbol);
    assert_eq!(toks[2].lexeme, "-");
    assert_eq!(toks[3].token_type, TokenType::Symbol);
    assert_eq!(toks[3].lexeme, "abc?");
}

#[test]
fn tokenize_invalid_character() {
    let toks = tokenize_line("(f @)");
    let err = toks.iter().find(|t| t.token_type == TokenType::LexError);
    assert!(err.is_some());
    assert!(err.unwrap().lexeme.contains('@'));
}

#[test]
fn render_tokens() {
    let toks = tokenize_line("(+ 1 \"a b\")");
    let text = tokens_to_string(&toks);
    assert_eq!(text, "( + 1 \"a b\" ) ");
}

// the validator succeeds exactly when balance and shape both hold
#[test]
fn validate_balanced_and_shaped() {
    assert!(is_vect_ready(&tokenize_line("(+ 1 2)")).is_ok());
    assert!(is_vect_ready(&tokenize_line("(f (g 1))")).is_ok());
    assert!(is_vect_ready(&tokenize_line("")).is_ok());
}

#[test]
fn validate_unexpected_closing_paren_at_column_zero() {
    // a line holding only ")" fails at column 0
    let r = is_vect_ready(&tokenize_line(")"));
    match r {
        Err(SyntaxError::UnexpectedClosingParen { line, column }) => {
            assert_eq!(column, 0);
            assert_eq!(line, 1);
        },
        other => panic!("expected UnexpectedClosingParen, got {:?}", other),
    }
}

#[test]
fn validate_unclosed_paren() {
    let r = is_vect_ready(&tokenize_line("(foo 1"));
    assert!(matches!(r, Err(SyntaxError::UnclosedParenthesis)));
}

#[test]
fn validate_shape_violation() {
    let r = is_vect_ready(&tokenize_line("(1 2)"));
    assert!(matches!(r, Err(SyntaxError::ExpectedSymbolAfterOpenParen)));
}

// content keys: determinism and sensitivity
#[test]
fn content_key_deterministic() {
    let a = vec![mk_token(TokenType::Symbol, "abc", 1, 0), mk_token(TokenType::Number, "1", 1, 4)];
    let b = vec![mk_token(TokenType::Symbol, "abc", 1, 0), mk_token(TokenType::Number, "1", 1, 4)];
    assert_eq!(hash_token_vector(&a), hash_token_vector(&b));
    let c = tokenize_line("(+ 1 2)");
    let d = tokenize_line("(+ 1 2)");
    assert_eq!(hash_token_vector(&c), hash_token_vector(&d));
}

#[test]
fn content_key_sensitive_to_every_field() {
    let base = vec![mk_token(TokenType::Symbol, "abc", 1, 0)];
    let key = hash_token_vector(&base);
    let kind = vec![mk_token(TokenType::Number, "abc", 1, 0)];
    let lexeme = vec![mk_token(TokenType::Symbol, "abd", 1, 0)];
    let line = vec![mk_token(TokenType::Symbol, "abc", 2, 0)];
    let column = vec![mk_token(TokenType::Symbol, "abc", 1, 1)];
    assert_ne!(hash_token_vector(&kind), key);
    assert_ne!(hash_token_vector(&lexeme), key);
    assert_ne!(hash_token_vector(&line), key);
    assert_ne!(hash_token_vector(&column), key);
}

// end to end: three lines, complete session, snapshot shape
#[test]
fn end_to_end_three_lines() {
    let mut session = LispInterpreter::new(10_000);
    session.set_total_lines(3);
    let lines = ["(+ 1 2)", "(define x 10)", "(+ x (* 3 4))"];
    for (i, line) in lines.iter().enumerate() {
        session.process_vector(tokenize_line(line), i).unwrap();
    }
    assert_eq!(session.get_progress(), (3, 3));
    assert!(session.is_complete());

    let tree = session.get_tree();
    assert_eq!(tree.len(), 3);
    let first = tree.get_vec_by_index(0).unwrap();
    assert_eq!(first.get_line(), 0);
    match first.get_parsed_value().unwrap() {
        LispVal::List(items) => {
            assert_eq!(items.len(), 3);
            assert!(matches!(&items[0], LispVal::Symbol(s) if s == "+"));
            assert!(matches!(&items[1], LispVal::Number(n) if n == "1"));
            assert!(matches!(&items[2], LispVal::Number(n) if n == "2"));
        },
        other => panic!("expected a list, got {:?}", other),
    }
    // the snapshot's key index finds units and tokens
    let by_key = tree.get_vec("line_1").unwrap();
    assert_eq!(by_key.get_line(), 1);
    let tok = by_key.get_token("1_define").unwrap();
    assert_eq!(tok.lexeme, "define");
}

// an untouched session always asks for a rebuild
#[test]
fn should_rebuild_on_untouched_session() {
    let mut session = LispInterpreter::new(100);
    let candidates: Vec<Vec<Token>> = vec![tokenize_line("(+ 1 2)")];
    assert!(session.should_rebuild(&candidates));
    let empty: Vec<Vec<Token>> = Vec::new();
    assert!(session.should_rebuild(&empty));
}

// a single early edit drops the match coefficient below one half
#[test]
fn should_rebuild_after_early_edit() {
    let mut session = LispInterpreter::new(10_000);
    session.set_total_lines(3);
    let lines = ["(+ 1 2)", "(define x 10)", "(+ x (* 3 4))"];
    for (i, line) in lines.iter().enumerate() {
        session.process_vector(tokenize_line(line), i).unwrap();
    }
    // untouched candidates match the whole prefix: no rebuild
    let same: Vec<Vec<Token>> = lines.iter().map(|l| tokenize_line(l)).collect();
    assert!(!session.should_rebuild(&same));
    // editing line 1 stops the scan there: 1 of 3 matched, rebuild
    let edited: Vec<Vec<Token>> = vec![
        tokenize_line("(+ 1 2)"),
        tokenize_line("(define x 20)"),
        tokenize_line("(+ x (* 3 4))"),
    ];
    assert!(session.should_rebuild(&edited));
    // editing line 0 as well: 0 of 3 matched, rebuild
    let edited0: Vec<Vec<Token>> = vec![
        tokenize_line("(+ 9 2)"),
        tokenize_line("(define x 20)"),
        tokenize_line("(+ x (* 3 4))"),
    ];
    assert!(session.should_rebuild(&edited0));
}

// invalidation removes exactly the units at or past the position
#[test]
fn invalidate_from_removes_tail() {
    let mut session = LispInterpreter::new(10_000);
    session.set_total_lines(3);
    let lines = ["(+ 1 2)", "(define x 10)", "(+ x (* 3 4))"];
    for (i, line) in lines.iter().enumerate() {
        session.process_vector(tokenize_line(line), i).unwrap();
    }
    session.invalidate_from(1);
    assert_eq!(session.get_progress().0, 1);
    let tree = session.get_tree();
    assert_eq!(tree.len(), 1);
    let unit = tree.get_vec_by_index(0).unwrap();
    assert_eq!(unit.get_line(), 0);
    assert_eq!(tokens_to_string(unit.get_all_tokens()), "( + 1 2 ) ");
}

// reset returns to the empty state
#[test]
fn reset_clears_everything() {
    let mut session = LispInterpreter::new(10_000);
    session.set_total_lines(2);
    session.process_vector(tokenize_line("(f 1)"), 0).unwrap();
    session.process_vector(tokenize_line("(g 2)"), 1).unwrap();
    session.reset();
    assert_eq!(session.get_progress(), (0, 2));
    assert!(!session.is_complete());
    let tree = session.get_tree();
    assert!(tree.is_empty());
    assert_eq!(tree.len(), 0);
}

// every error variant reaches the caller, and a failed line changes nothing
#[test]
fn process_errors_leave_session_untouched() {
    let mut session = LispInterpreter::new(10_000);
    session.set_total_lines(1);

    let r = session.process_vector(tokenize_line("(f @)"), 0);
    assert!(matches!(r, Err(SyntaxError::InvalidToken(_))));
    assert_eq!(session.get_progress().0, 0);

    let r = session.process_vector(tokenize_line(")"), 0);
    assert!(
        matches!(r, Err(SyntaxError::UnexpectedClosingParen { line: 1, column: 0 }))
    );

    let r = session.process_vector(tokenize_line("(f"), 0);
    assert!(matches!(r, Err(SyntaxError::UnclosedParenthesis)));

    let r = session.process_vector(tokenize_line("(7)"), 0);
    assert!(matches!(r, Err(SyntaxError::ExpectedSymbolAfterOpenParen)));

    // balanced and shaped, but two top-level expressions: the external
    // parser rejects the rendering
    let r = session.process_vector(tokenize_line("1 2"), 0);
    assert!(matches!(r, Err(SyntaxError::ParseError(_))));

    assert_eq!(session.get_progress().0, 0);
    let tree = session.get_tree();
    assert!(tree.is_empty());
}

// a processed unit indexes its tokens by position and text
#[test]
fn ready_vec_token_index() {
    let mut session = LispInterpreter::new(100);
    session.set_total_lines(1);
    session.process_vector(tokenize_line("(car lst)"), 0).unwrap();
    let tree = session.get_tree();
    let unit = tree.get_vec_by_index(0).unwrap();
    assert_eq!(unit.len(), 5);
    assert!(!unit.is_empty());
    let t = unit.get_token("1_car").unwrap();
    assert_eq!(t.token_type, TokenType::Symbol);
    assert_eq!(t.lexeme, "car");
    assert!(unit.get_token("0_car").is_none());
    let t0 = unit.get_token_by_index(0).unwrap();
    assert_eq!(t0.token_type, TokenType::LeftParen);
    assert!(unit.get_token_by_index(99).is_none());
    let nested = tree.get_token("line_0", "2_lst").unwrap();
    assert_eq!(nested.lexeme, "lst");
}

// a backslash in a string's content cannot be rendered faithfully (the
// rendering applies no escaping), so such a line is rejected as a parse
// error instead of reaching the external parser
#[test]
fn backslash_in_string_content_is_rejected() {
    let mut session = LispInterpreter::new(100);
    session.set_total_lines(1);
    let toks = tokenize_line("\"a\\\\300\"");
    assert_eq!(toks[0].token_type, TokenType::String);
    assert_eq!(toks[0].lexeme, "a\\300");
    let r = session.process_vector(toks, 0);
    assert!(matches!(r, Err(SyntaxError::ParseError(_))));
    assert_eq!(session.get_progress().0, 0);
}
