use schemec::lexer::Token;
use schemec::lexer::tokenize;

#[test]
fn tokens_empty() {
    assert_eq!(tokenize(""), vec![]);
}

#[test]
fn tokens_basic() {
    assert_eq!(
        tokenize("(+ 2 3)"),
        vec![
            Token::OpenPar,
            Token::Ident("+".to_string()),
            Token::Number(2),
            Token::Number(3),
            Token::ClosePar,
        ]
    );
}

#[test]
fn tokens_ident_runs() {
    // operator characters continue an identifier run: `x<=y` is one name
    assert_eq!(
        tokenize("abc12 x<=y"),
        vec![Token::Ident("abc12".to_string()), Token::Ident("x<=y".to_string())]
    );
}

#[test]
fn tokens_delims_after_runs() {
    assert_eq!(
        tokenize("ab(cd)."),
        vec![
            Token::Ident("ab".to_string()),
            Token::OpenPar,
            Token::Ident("cd".to_string()),
            Token::ClosePar,
            Token::Period,
        ]
    );
}

#[test]
fn tokens_skip_unknown() {
    assert_eq!(
        tokenize("a # b"),
        vec![Token::Ident("a".to_string()), Token::Ident("b".to_string())]
    );
}

#[test]
fn tokens_number_breaker_dropped() {
    // the character that ends a digit run is dropped unless it is a
    // paren or period
    assert_eq!(tokenize("5+3"), vec![Token::Number(5), Token::Number(3)]);
}

#[test]
fn tokens_number_wraps_mod_2_32() {
    assert_eq!(tokenize("4294967295"), vec![Token::Number(-1)]);
}

#[test]
fn tokens_number_then_paren() {
    assert_eq!(
        tokenize("(f 10)"),
        vec![
            Token::OpenPar,
            Token::Ident("f".to_string()),
            Token::Number(10),
            Token::ClosePar,
        ]
    );
}

#[test]
fn tokens_paren_counts_balance() {
    // a well-formed program lexes to as many open as close parens
    let toks = tokenize("(define x 7) (if (< x 1) 2 3)");
    let opens = toks.iter().filter(|t| matches!(t, Token::OpenPar)).count();
    let closes = toks.iter().filter(|t| matches!(t, Token::ClosePar)).count();
    assert_eq!(opens, closes);
    assert_eq!(opens, 3);
}
