use ojousama_lisp::lexer::Lexer;
use ojousama_lisp::token::{Token, TokenKind};

/// Collects every token up to and including `EndOfInput`.
fn tokens_of(input: &str) -> Vec<(TokenKind, String)> {
    let mut lexer = Lexer::new(input);
    let mut out = Vec::new();
    loop {
        let token = lexer.next_token();
        let kind = token.kind;
        out.push((token.kind, token.literal));
        if kind == TokenKind::EndOfInput {
            return out;
        }
    }
}

fn assert_tokens(input: &str, expected: &[(TokenKind, &str)]) {
    let got = tokens_of(input);
    assert_eq!(got.len(), expected.len());
    for (g, e) in got.iter().zip(expected.iter()) {
        assert_eq!(g.0, e.0);
        assert_eq!(g.1, e.1);
    }
}

#[test]
fn scenario_parens() {
    assert_tokens(
        "()",
        &[
            (TokenKind::OpenParen, "("),
            (TokenKind::CloseParen, ")"),
            (TokenKind::EndOfInput, "\0"),
        ],
    );
}

#[test]
fn scenario_identifiers() {
    assert_tokens(
        "(hello world)",
        &[
            (TokenKind::OpenParen, "("),
            (TokenKind::Identifier, "hello"),
            (TokenKind::Identifier, "world"),
            (TokenKind::CloseParen, ")"),
            (TokenKind::EndOfInput, "\0"),
        ],
    );
}

#[test]
fn scenario_mixed_integer() {
    assert_tokens(
        "(hello 123 number)",
        &[
            (TokenKind::OpenParen, "("),
            (TokenKind::Identifier, "hello"),
            (TokenKind::Integer, "123"),
            (TokenKind::Identifier, "number"),
            (TokenKind::CloseParen, ")"),
            (TokenKind::EndOfInput, "\0"),
        ],
    );
}

#[test]
fn scenario_illegal_character() {
    assert_tokens(
        "#",
        &[(TokenKind::Illegal, "#"), (TokenKind::EndOfInput, "\0")],
    );
}

#[test]
fn scenario_empty_input() {
    let lexer = Lexer::new("");
    assert!(lexer.is_at_end());
    assert_tokens("", &[(TokenKind::EndOfInput, "\0")]);
}

#[test]
fn scenario_digit_ends_identifier() {
    assert_tokens(
        "  a1  ",
        &[
            (TokenKind::Identifier, "a"),
            (TokenKind::Integer, "1"),
            (TokenKind::EndOfInput, "\0"),
        ],
    );
}

#[test]
fn underscore_runs_with_identifier() {
    assert_tokens(
        "_ab_c",
        &[(TokenKind::Identifier, "_ab_c"), (TokenKind::EndOfInput, "\0")],
    );
}

#[test]
fn maximal_runs_split_on_class_change() {
    assert_tokens(
        "abc123",
        &[
            (TokenKind::Identifier, "abc"),
            (TokenKind::Integer, "123"),
            (TokenKind::EndOfInput, "\0"),
        ],
    );
}

#[test]
fn several_illegal_characters() {
    assert_tokens(
        "#$ +",
        &[
            (TokenKind::Illegal, "#"),
            (TokenKind::Illegal, "$"),
            (TokenKind::Illegal, "+"),
            (TokenKind::EndOfInput, "\0"),
        ],
    );
}

#[test]
fn tabs_and_newlines_are_whitespace() {
    assert_tokens(
        "\t(\nfoo\r\n42 )\t",
        &[
            (TokenKind::OpenParen, "("),
            (TokenKind::Identifier, "foo"),
            (TokenKind::Integer, "42"),
            (TokenKind::CloseParen, ")"),
            (TokenKind::EndOfInput, "\0"),
        ],
    );
}

#[test]
fn unicode_whitespace_is_skipped() {
    assert_tokens(
        "\u{3000}a\u{3000}",
        &[(TokenKind::Identifier, "a"), (TokenKind::EndOfInput, "\0")],
    );
}

#[test]
fn round_trip_without_whitespace() {
    let input = "((abc))12#_x";
    let mut rebuilt = String::new();
    for (kind, literal) in tokens_of(input) {
        if kind != TokenKind::EndOfInput {
            rebuilt.push_str(&literal);
        }
    }
    assert_eq!(rebuilt, input);
}

#[test]
fn round_trip_skips_only_whitespace() {
    let input = " ( foo\t12 )\n# ";
    let mut rebuilt = String::new();
    for (kind, literal) in tokens_of(input) {
        if kind != TokenKind::EndOfInput {
            rebuilt.push_str(&literal);
        }
    }
    let without_whitespace: String = input.chars().filter(|c| !c.is_whitespace()).collect();
    assert_eq!(rebuilt, without_whitespace);
}

#[test]
fn termination_within_length_plus_one() {
    for input in ["", "   ", "()", "(hello 123 number)", "#$%&", "a b c", "\t\n x"] {
        let mut lexer = Lexer::new(input);
        let mut calls: usize = 0;
        loop {
            calls += 1;
            if lexer.next_token().kind == TokenKind::EndOfInput {
                break;
            }
        }
        assert!(calls <= input.chars().count() + 1);
    }
}

#[test]
fn end_state_is_idempotent() {
    let mut lexer = Lexer::new("(a)  ");
    loop {
        if lexer.next_token().kind == TokenKind::EndOfInput {
            break;
        }
    }
    assert!(lexer.is_at_end());
    for _ in 0..5 {
        let token = lexer.next_token();
        assert_eq!(token.kind, TokenKind::EndOfInput);
        assert_eq!(token.literal, "\0");
        assert!(lexer.is_at_end());
    }
}

#[test]
fn determinism_across_fresh_lexers() {
    let input = " (add_1 2\t(nested ())) #! ";
    assert_eq!(tokens_of(input), tokens_of(input));
}

#[test]
fn is_at_end_tracks_consumption() {
    let mut lexer = Lexer::new("x");
    assert!(!lexer.is_at_end());
    let token = lexer.next_token();
    assert_eq!(token.kind, TokenKind::Identifier);
    assert_eq!(token.literal, "x");
    assert!(lexer.is_at_end());
}

#[test]
fn token_new_keeps_kind_and_literal() {
    let token = Token::new(TokenKind::Integer, String::from("7"));
    assert_eq!(token.kind, TokenKind::Integer);
    assert_eq!(token.literal, "7");
}
