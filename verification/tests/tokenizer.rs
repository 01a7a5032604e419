use tern::tokenizer::{scan, TokenKind};

fn lit(s: &str) -> TokenKind {
    TokenKind::Literal(s.to_string())
}

fn check(input: &str, expected: Vec<TokenKind>) {
    let tokens = scan(input).expect("scanning failed");
    assert_eq!(tokens.len(), expected.len());
    for (i, kind) in expected.iter().enumerate() {
        assert_eq!(&tokens[i].kind, kind);
    }
}

#[test]
fn scanning() {
    check("'olive", vec![TokenKind::Tick, lit("olive")]);
    check(
        "'olive == 'oil",
        vec![
            TokenKind::Tick,
            lit("olive"),
            TokenKind::DoubleEquals,
            TokenKind::Tick,
            lit("oil"),
        ],
    );
    check(
        "['olive, 'oil] == ['olive, q]",
        vec![
            TokenKind::LeftBracket,
            TokenKind::Tick,
            lit("olive"),
            TokenKind::Comma,
            TokenKind::Tick,
            lit("oil"),
            TokenKind::RightBracket,
            TokenKind::DoubleEquals,
            TokenKind::LeftBracket,
            TokenKind::Tick,
            lit("olive"),
            TokenKind::Comma,
            lit("q"),
            TokenKind::RightBracket,
        ],
    );
    check(
        "disj { p == 'red | p == 'bean }",
        vec![
            TokenKind::Disj,
            TokenKind::LeftBrace,
            lit("p"),
            TokenKind::DoubleEquals,
            TokenKind::Tick,
            lit("red"),
            TokenKind::Pipe,
            lit("p"),
            TokenKind::DoubleEquals,
            TokenKind::Tick,
            lit("bean"),
            TokenKind::RightBrace,
        ],
    );
    check(
        "conj {\n                Female(x), Parent(y, x)\n            }",
        vec![
            TokenKind::Conj,
            TokenKind::LeftBrace,
            lit("Female"),
            TokenKind::LeftParen,
            lit("x"),
            TokenKind::RightParen,
            TokenKind::Comma,
            lit("Parent"),
            TokenKind::LeftParen,
            lit("y"),
            TokenKind::Comma,
            lit("x"),
            TokenKind::RightParen,
            TokenKind::RightBrace,
        ],
    );
    check("=", vec![TokenKind::Equals]);
    check(
        "var (q) { 'olive == q }",
        vec![
            TokenKind::Var,
            TokenKind::LeftParen,
            lit("q"),
            TokenKind::RightParen,
            TokenKind::LeftBrace,
            TokenKind::Tick,
            lit("olive"),
            TokenKind::DoubleEquals,
            lit("q"),
            TokenKind::RightBrace,
        ],
    );
    check(
        "fn('olive == 'olive)",
        vec![
            lit("fn"),
            TokenKind::LeftParen,
            TokenKind::Tick,
            lit("olive"),
            TokenKind::DoubleEquals,
            TokenKind::Tick,
            lit("olive"),
            TokenKind::RightParen,
        ],
    );
    check(
        "# This is a comment\ndisj { p == 'red | p == 'bean }",
        vec![
            TokenKind::Disj,
            TokenKind::LeftBrace,
            lit("p"),
            TokenKind::DoubleEquals,
            TokenKind::Tick,
            lit("red"),
            TokenKind::Pipe,
            lit("p"),
            TokenKind::DoubleEquals,
            TokenKind::Tick,
            lit("bean"),
            TokenKind::RightBrace,
        ],
    );
    check(
        "# This is a comment\n# This is also a comment\ndisj { p == 'red | p == 'bean }",
        vec![
            TokenKind::Disj,
            TokenKind::LeftBrace,
            lit("p"),
            TokenKind::DoubleEquals,
            TokenKind::Tick,
            lit("red"),
            TokenKind::Pipe,
            lit("p"),
            TokenKind::DoubleEquals,
            TokenKind::Tick,
            lit("bean"),
            TokenKind::RightBrace,
        ],
    );
    check("{}", vec![TokenKind::LeftBrace, TokenKind::RightBrace]);
    check(
        "{'olive: 'oil}",
        vec![
            TokenKind::LeftBrace,
            TokenKind::Tick,
            lit("olive"),
            TokenKind::Colon,
            TokenKind::Tick,
            lit("oil"),
            TokenKind::RightBrace,
        ],
    );
    check(
        "{'olive: 'oil, x: 'olive}",
        vec![
            TokenKind::LeftBrace,
            TokenKind::Tick,
            lit("olive"),
            TokenKind::Colon,
            TokenKind::Tick,
            lit("oil"),
            TokenKind::Comma,
            lit("x"),
            TokenKind::Colon,
            TokenKind::Tick,
            lit("olive"),
            TokenKind::RightBrace,
        ],
    );
    check(
        "let x = {}",
        vec![
            TokenKind::Let,
            lit("x"),
            TokenKind::Equals,
            TokenKind::LeftBrace,
            TokenKind::RightBrace,
        ],
    );
    check(
        "rel(x) { x == 'apple }",
        vec![
            TokenKind::Rel,
            TokenKind::LeftParen,
            lit("x"),
            TokenKind::RightParen,
            TokenKind::LeftBrace,
            lit("x"),
            TokenKind::DoubleEquals,
            TokenKind::Tick,
            lit("apple"),
            TokenKind::RightBrace,
        ],
    );
}
