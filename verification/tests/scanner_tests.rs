use minischeme::scanner::{ParseError, Scanner, Token};

fn s(x: &str) -> Token {
    Token::Symbol(x.as_bytes().to_vec())
}

fn st(x: &str) -> Token {
    Token::Str(x.as_bytes().to_vec())
}

fn i(x: i64) -> Token {
    Token::Int(x)
}

fn f(x: f64) -> Token {
    Token::Float(x.to_bits())
}

fn op() -> Token {
    Token::OpenParen
}

fn cp() -> Token {
    Token::ClosedParen
}

fn tokens(x: &str) -> Result<Vec<Token>, ParseError> {
    let scanner = Scanner::new(x);
    scanner.scan_tokens()
}

fn scan_ok(x: &str, expected: Vec<Token>) {
    let res = tokens(x).expect("err");
    assert_eq!(res, expected);
}

fn scan_err(x: &str) {
    let res = tokens(x);
    assert!(res.is_err());
}

#[test]
fn test_scan_tokens() {
    let mut tests = vec![
        ("()", vec![op(), cp()]),
        ("(() (1 2 3))", vec![op(), op(), cp(), op(), i(1), i(2), i(3), cp(), cp()]),
        ("($%-a)", vec![op(), s("$%-a"), cp()]),
        ("(() () ())", vec![op(), op(), cp(), op(), cp(), op(), cp(), cp()]),
    ];
    let same = vec![
        "(+ abc def)",
        "( + abc def)",
        "(+ abc def )",
        "(+  abc    def)",
        "    (+ abc def)  ",
        "(+\nabc\ndef)",
    ];
    for x in same {
        tests.push((x, vec![op(), s("+"), s("abc"), s("def"), cp()]));
    }

    for (x, y) in tests {
        scan_ok(x, y);
    }

    let errs = vec!["(ab( 1 2)", "(1 2\nab( 3)"];

    for x in errs {
        scan_err(x);
    }
}

#[test]
fn test_scan_int() {
    let mut tests = vec![
        ("123", vec![i(123)]),
        ("(1", vec![op(), i(1)]),
        ("(+011233)", vec![op(), i(11233), cp()]),
        ("(-011233)", vec![op(), i(-11233), cp()]),
        ("-55123", vec![i(-55123)]),
        ("--5123", vec![s("--5123")]),
        ("-+5123", vec![s("-+5123")]),
        ("5-5", vec![s("5-5")]),
    ];

    let same = vec![" 123", "0123", " 0123", " +0123", "+0123"];
    for x in same {
        tests.push((x, vec![i(123)]));
    }

    for (x, y) in tests {
        scan_ok(x, y)
    }

    scan_err(" +01123(3");
}

#[test]
fn test_scan_string() {
    let tests = vec![
        (r#" ("abc") "#, vec![op(), st("abc"), cp()]),
        (r#" "(abc))())(" "#, vec![st("(abc))())(")]),
        (
            r#"  ("abc" "def" ("ijk")) "#,
            vec![op(), st("abc"), st("def"), op(), st("ijk"), cp(), cp()],
        ),
    ];

    for (x, y) in tests {
        scan_ok(x, y);
    }

    let errs = vec![" \"a\nb\"  ", "(\")"];

    for x in errs {
        scan_err(x);
    }
}

#[test]
fn test_scan_float() {
    let mut tests = vec![
        ("1.1.", vec![s("1.1.")]),
        ("1.e15.", vec![s("1.e15.")]),
        ("1.e", vec![s("1.e")]),
        (".1", vec![f(0.1)]),
        (".", vec![s(".")]),
        ("3.14156e-03", vec![f(3.14156e-03)]),
    ];

    let same1 = vec![
        "1.0", "01.0", "+1.0", "+01.0", "+01.", "01.", "1.", "1.00", "+1.00", "+01.00",
    ];
    for x in same1 {
        tests.push((x, vec![f(1.0)]));
    }

    let same2 = vec![
        "1e1", "+1e1", "+1e+1", "1e+01", "001e01", "001.0e+01", "1.e+1", "1.e+001", "001.e01",
    ];
    for x in same2 {
        tests.push((x, vec![f(1e1)]));
    }

    for (x, y) in tests {
        scan_ok(x, y);
    }

    let errs = vec!["1(e1", "1e1(", "1.e1(", "1.e(1"];

    for x in errs {
        scan_err(x);
    }
}

#[test]
fn test_scan_edge_atoms() {
    // Atoms that fail the float grammar are symbols of their exact text.
    scan_ok("1e+", vec![s("1e+")]);
    scan_ok("1.e+", vec![s("1.e+")]);
    scan_ok("1e-", vec![s("1e-")]);
    scan_ok("+.", vec![s("+.")]);
    scan_ok("-.", vec![s("-.")]);
    scan_ok(".e5", vec![s(".e5")]);
    scan_ok("+e5", vec![s("+e5")]);
    scan_ok("1e+x", vec![s("1e+x")]);
    // Atoms that do match it are floats.
    scan_ok("+.5", vec![f(0.5)]);
    scan_ok("-.5", vec![f(-0.5)]);
    scan_ok("1e-1", vec![f(1e-1)]);
    scan_ok("1.5e+2", vec![f(1.5e+2)]);
    // An opening parenthesis inside an atom stays a hard error.
    scan_err("1e+(");
}

#[test]
fn test_scan_lines() {
    let scanner = Scanner::new("(
1 2
)");
    let (tokens, lines) = scanner.scan_tokens_with_lines().expect("err");
    assert_eq!(tokens, vec![op(), i(1), i(2), cp()]);
    assert_eq!(lines, vec![1, 2, 2, 3]);
}

#[test]
fn test_bool() {
    scan_ok("#t", vec![Token::Bool(true)]);
    scan_ok("#f", vec![Token::Bool(false)]);
    scan_err("#");
    scan_err("#ta");
    scan_err("#fa");
    scan_err("#a");
    scan_err("#b");
}

#[test]
fn test_advance() {
    let mut scanner = Scanner::new("123");
    assert_eq!(scanner.advance(), Some(b'1'));
    assert_eq!(scanner.advance(), Some(b'2'));
    assert_eq!(scanner.advance(), Some(b'3'));
    assert_eq!(scanner.advance(), None);
}

#[test]
fn test_peek() {
    let mut scanner = Scanner::new("1");
    assert_eq!(scanner.peek(), Some(b'1'));
    assert_eq!(scanner.advance(), Some(b'1'));
    assert_eq!(scanner.peek(), None);
    assert_eq!(scanner.advance(), None);
}

#[test]
fn test_at_end() {
    let mut scanner = Scanner::new("12345");
    for _ in 0..5 {
        scanner.advance();
    }
    assert!(scanner.at_end());
}
