use minischeme::parser::Parser;
use minischeme::scanner::Scanner;
use minischeme::sexpr::{Memory, SExpr};

fn f(x: f64) -> SExpr {
    SExpr::Float(x.to_bits())
}

fn i(x: i64) -> SExpr {
    SExpr::Int(x)
}

fn sy(x: &str) -> SExpr {
    SExpr::Sym(x.as_bytes().to_vec())
}

fn st(x: &str) -> SExpr {
    SExpr::Str(x.as_bytes().to_vec())
}

fn n() -> SExpr {
    SExpr::Nil
}

fn parse_ok(left: &str, right: SExpr) {
    let scanner = Scanner::new(left);
    let tokens = scanner.scan_tokens().ok().unwrap();
    let mut mem = Memory::new(100);
    let parser = Parser::new(tokens);
    let res = parser.parse(&mut mem);
    assert!(res.is_ok());
    assert_eq!(res.unwrap(), right);
}

#[test]
fn parser_test_values() {
    parse_ok("123", i(123));
    parse_ok("1.0", f(1.0));
    parse_ok("abc", sy("abc"));
    parse_ok("\"abc\"", st("abc"));
    parse_ok("()", n());
}

fn parse_error(source: &str) -> minischeme::scanner::ParseError {
    let (tokens, lines) = Scanner::new(source).scan_tokens_with_lines().unwrap();
    let mut mem = Memory::new(100);
    Parser::with_lines(tokens, lines).parse(&mut mem).unwrap_err()
}

#[test]
fn test_parse_error_lines() {
    let e = parse_error("
)");
    assert_eq!(e.message, "Unexpected closing parenthesis");
    assert_eq!(e.line, 2);

    let e = parse_error("(1 2
ab");
    assert_eq!(e.message, "Missing closing parenthesis");
    assert_eq!(e.line, 2);

    let e = parse_error("(+ 1");
    assert_eq!(e.message, "Missing closing parenthesis");
    assert_eq!(e.line, 1);

    let e = parse_error("");
    assert_eq!(e.message, "Empty expression");
    assert_eq!(e.line, 1);

    // Without line information a parser reports line 1.
    let tokens = Scanner::new(")").scan_tokens().unwrap();
    let mut mem = Memory::new(100);
    let e = Parser::new(tokens).parse(&mut mem).unwrap_err();
    assert_eq!(e.message, "Unexpected closing parenthesis");
    assert_eq!(e.line, 1);
}

#[test]
fn test_exprs() {
    let mut mem = Memory::new(100);
    let scanner = Scanner::new("(+)");
    let tokens = scanner.scan_tokens().unwrap();
    let parser = Parser::new(tokens);
    let res = parser.parse(&mut mem);
    assert_eq!(mem.vec_from_list(&res.unwrap()).unwrap(), vec![sy("+")]);
}
