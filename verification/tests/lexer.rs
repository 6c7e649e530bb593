use ojousama_lisp::lexer::Lexer;
use ojousama_lisp::token::TokenKind;

#[test]
fn test_next_token_parens() {
    let input = "()";
    let expected = vec![(TokenKind::OpenParen, "("), (TokenKind::CloseParen, ")")];

    let mut lexer = Lexer::new(input);
    for ex in expected {
        let token = lexer.next_token();
        assert_eq!(token.kind, ex.0);
        assert_eq!(token.literal, ex.1);
    }
}

#[test]
fn test_next_token_identdfier() {
    let input = "(hello world)";
    let expected = vec![
        (TokenKind::OpenParen, "("),
        (TokenKind::Identifier, "hello"),
        (TokenKind::Identifier, "world"),
        (TokenKind::CloseParen, ")"),
    ];

    let mut lexer = Lexer::new(input);
    for ex in expected {
        let token = lexer.next_token();
        assert_eq!(token.kind, ex.0);
        assert_eq!(token.literal, ex.1);
    }
}

#[test]
fn test_next_token_number() {
    let input = "(hello 123 number)";
    let expected = vec![
        (TokenKind::OpenParen, "("),
        (TokenKind::Identifier, "hello"),
        (TokenKind::Integer, "123"),
        (TokenKind::Identifier, "number"),
        (TokenKind::CloseParen, ")"),
    ];

    let mut lexer = Lexer::new(input);
    for ex in expected {
        let token = lexer.next_token();
        assert_eq!(token.kind, ex.0);
        assert_eq!(token.literal, ex.1);
    }
}
