use marwood::lex::{scan, Error, Token, TokenType};

// Maps tokens to a vector of (span, type) pairs.
fn expand(tokens: &[Token], text: &str) -> Vec<(String, TokenType)> {
    tokens
        .iter()
        .map(|token| (token.span(text).to_string(), token.token_type.clone()))
        .collect()
}

fn lexes_one(text: &str, tt: TokenType) {
    let toks = scan(text).unwrap();
    let got = expand(&toks, text);
    assert_eq!(got.first().unwrap(), &(text.to_string(), tt));
}

fn lexes_all(text: &str, expected: &[(&str, TokenType)]) {
    let toks = scan(text).unwrap();
    let got = expand(&toks, text);
    let want: Vec<(String, TokenType)> = expected
        .iter()
        .map(|(s, t)| (s.to_string(), t.clone()))
        .collect();
    assert_eq!(got, want);
}

#[test]
fn parens() {
    lexes_one("(", TokenType::LeftParen);
    lexes_one(")", TokenType::RightParen);
    lexes_one("#(", TokenType::HashParen);
}

#[test]
fn symbols() {
    lexes_one("foo", TokenType::Symbol);
}

#[test]
fn numbers() {
    lexes_one("5", TokenType::Number);
    lexes_one("10", TokenType::Number);
    lexes_one("10.5", TokenType::Number);
    lexes_one("10..5", TokenType::Number);
    lexes_one("-42", TokenType::Number);
    lexes_one("+42", TokenType::Number);
    lexes_one("-10.5", TokenType::Number);
}

#[test]
fn dot() {
    lexes_all(
        "(foo . bar)",
        &[
            ("(", TokenType::LeftParen),
            ("foo", TokenType::Symbol),
            (".", TokenType::Dot),
            ("bar", TokenType::Symbol),
            (")", TokenType::RightParen),
        ],
    );
    lexes_one(".", TokenType::Dot);
    lexes_one("..", TokenType::Symbol);
    lexes_one("...", TokenType::Symbol);
}

#[test]
fn multiple_expressions() {
    lexes_all(
        "42.0 '((1024)('baz))",
        &[
            ("42.0", TokenType::Number),
            ("'", TokenType::SingleQuote),
            ("(", TokenType::LeftParen),
            ("(", TokenType::LeftParen),
            ("1024", TokenType::Number),
            (")", TokenType::RightParen),
            ("(", TokenType::LeftParen),
            ("'", TokenType::SingleQuote),
            ("baz", TokenType::Symbol),
            (")", TokenType::RightParen),
            (")", TokenType::RightParen),
        ],
    );
}

#[test]
fn hash_prefixed_tokens() {
    lexes_one("#t", TokenType::True);
    lexes_one("#f", TokenType::False);
    assert_eq!(scan("#p").unwrap_err(), Error::UnexpectedToken('#'));
}
