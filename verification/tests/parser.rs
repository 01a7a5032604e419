use tern::parser::parse;
use tern::tokenizer::scan;

fn parse_ok(input: &str, expected: &str) {
    let tokens = scan(input).expect("scanning failed");
    match parse(tokens) {
        Ok(ast) => assert_eq!(ast.to_text(), expected),
        Err(err) => panic!("parse failed: {}", err.msg),
    }
}

fn parse_fails(input: &str, msg: &str, offset: usize) {
    let tokens = scan(input).expect("scanning failed");
    match parse(tokens) {
        Ok(_) => panic!("the parse unexpectedly succeeded"),
        Err(e) => {
            assert_eq!(e.msg, msg);
            assert_eq!(e.offset, offset);
        }
    }
}

#[test]
fn parsing() {
    parse_ok("'olive == 'olive", "'olive == 'olive");
    parse_ok("'0live == '0live", "'0live == '0live");
    parse_fails("'", "Unexpected end of input while parsing atom.", 0);
    parse_ok("olive", "olive");
    parse_fails("'olive ==", "Unexpected end of input while parsing term.", 7);
    parse_fails("'olive", "Unexpected end of input while parsing equals.", 5);
    parse_fails("'olive 'oil", "Expected `==` while parsing equals.", 5);
    parse_ok(
        "conj { 'red == 'red , 'bean == 'bean }",
        "conj { 'red == 'red , 'bean == 'bean }",
    );
    parse_ok(
        "disj { 'red == 'red | 'bean == 'bean }",
        "disj { 'red == 'red | 'bean == 'bean }",
    );
    parse_ok(
        "disj { 'red == 'red | conj { 'red == 'red , 'bean == 'bean } }",
        "disj { 'red == 'red | conj { 'red == 'red , 'bean == 'bean } }",
    );
    parse_ok(
        "conj { 'red == 'red , disj { 'red == 'red | 'bean == 'bean } }",
        "conj { 'red == 'red , disj { 'red == 'red | 'bean == 'bean } }",
    );
    parse_ok("conj { 'red == 'red  }", "'red == 'red");
    parse_ok("disj { 'red == 'red  }", "'red == 'red");
    parse_fails(
        "conj {}",
        "Expected conj, disj, equals or var while parsing goal.",
        5,
    );
    parse_fails(
        "disj {}",
        "Expected conj, disj, equals or var while parsing goal.",
        5,
    );
    parse_ok("var (q) { 'olive == q }", "var (q) { 'olive == q }");
    parse_ok("var (q) { q == 'olive }", "var (q) { q == 'olive }");
    parse_ok("var (p, q) { p == q }", "var (p, q) { p == q }");
    parse_ok("fn()", "fn()");
    parse_ok("fn('olive == 'olive)", "fn('olive == 'olive)");
    parse_ok("fn(var (p, q) { p == q })", "fn(var (p, q) { p == q })");
    parse_fails(
        "fn(var (p, q) { p == q }",
        "Unexpected end of input while parsing argument list.",
        23,
    );
    parse_ok("{}", "{}");
    parse_ok("{x: 'olive}", "{x: 'olive}");
    parse_ok("{x: 'olive, 'olive: 'oil}", "{x: 'olive, 'olive: 'oil}");
    parse_fails("{x 'olive}", "Expected `:` while parsing table.", 1);
    parse_fails(
        "{x: 'olive 'olive: 'oil}",
        "Expected `,` or `}` while parsing table.",
        9,
    );
    parse_fails(
        "{x: 'olive, 'olive: 'oil",
        "Unexpected end of input while parsing table.",
        23,
    );
    parse_ok("let x = {}", "let x = {}");
    parse_ok("let x = 'olive == 'olive", "let x = 'olive == 'olive");
    parse_ok(
        "let x = disj { 'red == 'red | 'bean == 'bean }",
        "let x = disj { 'red == 'red | 'bean == 'bean }",
    );
    parse_fails("let", "Unexpected end of input while parsing var.", 2);
    parse_fails(
        "let x",
        "Unexpected end of input while parsing let binding.",
        4,
    );
    parse_fails(
        "let x =",
        "Unexpected end of input while parsing expression.",
        6,
    );
    parse_fails("let 'x = {}", "Expected literal while parsing variable.", 2);
    parse_fails("let {} = {}", "Expected literal while parsing variable.", 2);
    parse_ok("x", "x");
    parse_ok("rel(x) { x == 'olive }", "rel(x) { x == 'olive }");
    parse_ok(
        "let y = rel(x) { disj { x == 'red | x == 'bean } }",
        "let y = rel(x) { disj { x == 'red | x == 'bean } }",
    );
    parse_fails(
        "rel(x) { x == 'olive ",
        "Unexpected end of input while parsing `rel`.",
        19,
    );
    parse_fails(
        "rel(x) { }",
        "Expected conj, disj, equals or var while parsing goal.",
        5,
    );
    parse_fails(
        "rel() { 'olive == 'oil }",
        "Expected literal while parsing variable.",
        2,
    );
}
