use asgard::lexer::{ends_lexeme, tokenize};
use asgard::{Fault, Lexeme, Lexer};

#[test]
fn basic_lexing() {
    let s = String::from("(+ - \"123\" 123)");
    let mut l = Lexer::new(&s);

    let expected = vec![
        Lexeme::OpenParen,
        Lexeme::Ident("+".to_string()),
        Lexeme::Ident("-".to_string()),
        Lexeme::StrLit("123".to_string()),
        Lexeme::IntLit(123),
        Lexeme::CloseParen,
    ];

    let mut actual = Vec::new();
    while let Some(t) = l.next_lexeme() {
        actual.push(t.unwrap());
    }
    assert_eq!(expected, actual);
}

#[test]
fn tokenize_matches_lexer() {
    let expected = vec![
        Lexeme::OpenParen,
        Lexeme::Ident("+".to_string()),
        Lexeme::Ident("-".to_string()),
        Lexeme::StrLit("123".to_string()),
        Lexeme::IntLit(123),
        Lexeme::CloseParen,
    ];
    assert_eq!(tokenize("(+ - \"123\" 123)"), Ok(expected));
}

#[test]
fn keywords_are_recognised() {
    assert_eq!(
        tokenize("(fn def define fnx)"),
        Ok(vec![
            Lexeme::OpenParen,
            Lexeme::Fn,
            Lexeme::Def,
            Lexeme::Ident("define".to_string()),
            Lexeme::Ident("fnx".to_string()),
            Lexeme::CloseParen,
        ])
    );
}

#[test]
fn whitespace_is_skipped() {
    assert_eq!(
        tokenize(" \t\n(a\r\n b )  "),
        Ok(vec![
            Lexeme::OpenParen,
            Lexeme::Ident("a".to_string()),
            Lexeme::Ident("b".to_string()),
            Lexeme::CloseParen,
        ])
    );
    assert_eq!(tokenize(""), Ok(vec![]));
    assert_eq!(tokenize("   "), Ok(vec![]));
}

#[test]
fn integer_literals_round_trip() {
    for n in [0i64, 7, 42, 1234567890, i64::MAX] {
        assert_eq!(tokenize(&n.to_string()), Ok(vec![Lexeme::IntLit(n)]));
    }
    assert_eq!(tokenize("007"), Ok(vec![Lexeme::IntLit(7)]));
}

#[test]
fn malformed_integer_literals_fault() {
    assert_eq!(tokenize("9223372036854775808"), Err(Fault::TokenizeFault));
    assert_eq!(tokenize("99999999999999999999999"), Err(Fault::TokenizeFault));
    assert_eq!(tokenize("12ab"), Err(Fault::TokenizeFault));
    assert_eq!(tokenize("(+ 1x 2)"), Err(Fault::TokenizeFault));
}

#[test]
fn lexer_goes_on_after_a_fault() {
    let mut l = Lexer::new("1x 5");
    assert_eq!(l.next_lexeme(), Some(Err(Fault::TokenizeFault)));
    assert_eq!(l.next_lexeme(), Some(Ok(Lexeme::IntLit(5))));
    assert_eq!(l.next_lexeme(), None);
}

#[test]
fn unterminated_string_runs_to_the_end() {
    assert_eq!(
        tokenize("(\"abc def"),
        Ok(vec![Lexeme::OpenParen, Lexeme::StrLit("abc def".to_string())])
    );
    assert_eq!(
        tokenize("\"a(b)\"c"),
        Ok(vec![Lexeme::StrLit("a(b)".to_string()), Lexeme::Ident("c".to_string())])
    );
}

#[test]
fn peek_does_not_move() {
    let l = Lexer::new("(x");
    assert_eq!(l.peek_lexeme(), Some(Ok(Lexeme::OpenParen)));
    assert_eq!(l.peek_lexeme(), Some(Ok(Lexeme::OpenParen)));
}

#[test]
fn ends_lexeme_on_delimiters() {
    assert!(ends_lexeme(' '));
    assert!(ends_lexeme('\n'));
    assert!(ends_lexeme('('));
    assert!(ends_lexeme(')'));
    assert!(!ends_lexeme('a'));
    assert!(!ends_lexeme('"'));
}
