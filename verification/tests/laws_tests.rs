use minischeme::interpreter::Interpreter;
use minischeme::parser::Parser;
use minischeme::scanner::Scanner;
use minischeme::sexpr::{Environment, Memory, Object, SExpr};

fn f(x: f64) -> SExpr {
    SExpr::Float(x.to_bits())
}

fn i(x: i64) -> SExpr {
    SExpr::Int(x)
}

fn b(x: bool) -> SExpr {
    SExpr::Bool(x)
}

fn eval_ok(s: &str, expected: SExpr) {
    let mut interpreter = Interpreter::new(500);
    let res = interpreter.eval_string(s).expect("err");
    assert_eq!(res, expected);
}

fn eval_err(s: &str, message: &str) {
    let mut interpreter = Interpreter::new(500);
    let res = interpreter.eval_string(s);
    assert_eq!(res, Err(message));
}

#[test]
fn test_atoms_self_evaluate() {
    eval_ok("42", i(42));
    eval_ok("-3", i(-3));
    eval_ok("2.5", f(2.5));
    eval_ok("#t", b(true));
    eval_ok("#f", b(false));
    eval_ok("()", SExpr::Nil);
    eval_ok("\"\"", SExpr::Str(Vec::new()));
}

#[test]
fn test_list_round_trip() {
    let mut mem = Memory::new(50);
    let xs = vec![i(1), f(2.5), b(false), SExpr::Nil, SExpr::Sym(b"x".to_vec())];
    let ys = mem.list_round_trip(xs).unwrap();
    assert_eq!(
        ys,
        vec![i(1), f(2.5), b(false), SExpr::Nil, SExpr::Sym(b"x".to_vec())]
    );
}

#[test]
fn test_lexical_scoping() {
    eval_ok("(((lambda (x) (lambda () x)) 42))", i(42));
    eval_ok("(begin (define x 7) (define (f) x) ((lambda (x) (f)) 99))", i(7));
}

#[test]
fn test_operand_order() {
    eval_ok(
        "(begin
            (define a 10)
            (+ (begin (set! a (* a 2)) 0)
               (begin (set! a (+ a 1)) 0)
               a))",
        i(21),
    );
}

#[test]
fn test_counter_three_increments() {
    eval_ok(
        "(begin (define a 1) (define (inc) (set! a (+ a 1))) (inc) (inc) (inc) a)",
        i(4),
    );
}

#[test]
fn test_truthiness() {
    eval_ok("(if 0 1 2)", i(1));
    eval_ok("(if () 1 2)", i(1));
    eval_ok("(if \"\" 1 2)", i(1));
    eval_ok("(if #f 1 2)", i(2));
}

#[test]
fn test_quote() {
    eval_ok("(quote abc)", SExpr::Sym(b"abc".to_vec()));
    eval_ok("(quote 5)", i(5));
}

#[test]
fn test_float_kernels() {
    eval_ok("(+ 1.5 2.25)", f(3.75));
    eval_ok("(- 10.0 4.5)", f(5.5));
    eval_ok("(* 2.5 4)", f(10.0));
    eval_ok("(/ 5.0 2)", f(2.5));
    eval_ok("(< 1.5 2.5)", b(true));
    eval_ok("(< 2.5 1.5)", b(false));
    eval_ok("(= 2.5 2.5)", b(true));
    eval_ok("(+ 0.1 0.2)", f(0.1 + 0.2));
    eval_ok("(* 3.0 0.1)", f(3.0 * 0.1));
    eval_ok("(/ 1.0 3.0)", f(1.0 / 3.0));
    eval_ok("(- 0.3 0.1)", f(0.3 - 0.1));
    eval_ok("(+ 9007199254740993 0.0)", f(9007199254740993i64 as f64));
}

#[test]
fn test_nan_comparisons() {
    eval_ok("(< (/ 0.0 0.0) 1)", b(false));
    eval_ok("(= (/ 0.0 0.0) (/ 0.0 0.0))", b(false));
    eval_ok("(>= (/ 0.0 0.0) 0.0)", b(false));
}

#[test]
fn test_error_scenarios() {
    eval_err(")", "Unexpected closing parenthesis");
    eval_err("(+ 1", "Missing closing parenthesis");
    eval_err("(foo)", "Unbound variable");
    eval_err("(1 2)", "Applying non procedure");
    eval_err("(/ 1 0)", "Division by zero");
    eval_err("(lambda (1) 1)", "Ill formed expression");
    eval_err("(set! x 1)", "Unbound variable");
}

#[test]
fn test_more_errors() {
    eval_err("(+ 1 #t)", "Type error");
    eval_err("((lambda (a b) a) 5)", "Arity mismatch");
    eval_err("(+ 9223372036854775807 1)", "Integer overflow");
    eval_err("(-)", "Not enough operands");
    eval_err("(/)", "Not enough operands");
    eval_err("(begin)", "Ill formed expression");
    eval_err("(())", "Applying non procedure");
    eval_err("(if #t 1)", "Ill formed expression");
    eval_err("(set! 5 1)", "Type error");

    eval_err("9223372036854775808", "Integer out of range");
}

#[test]
fn test_out_of_memory() {
    let mut interpreter = Interpreter::new(20);
    let res = interpreter.eval_string("((lambda (a) a) 1)");
    assert_eq!(res, Err("Out of memory"));
}

#[test]
fn test_depth_limit() {
    let mut interpreter = Interpreter::new(2000);
    let res = interpreter.eval_string("(begin (define (f) (f)) (f))");
    assert_eq!(res, Err("Recursion depth exceeded"));
}

#[test]
fn test_integer_division_truncates() {
    eval_ok("(/ 7 2)", i(3));
    eval_ok("(/ -7 2)", i(-3));
    eval_ok("(/ 7 -2)", i(-3));
    eval_ok("(/ -7 -2)", i(3));
}

#[test]
fn test_unary_minus_keeps_operand() {
    eval_ok("(- 5)", i(5));
    eval_ok("(/ 5)", i(5));
}

#[test]
fn test_print_values() {
    let mem = Memory::new(10);
    assert_eq!(mem.to_string(&i(-42)), b"-42".to_vec());
    assert_eq!(mem.to_string(&i(0)), b"0".to_vec());
    assert_eq!(mem.to_string(&b(true)), b"true".to_vec());
    assert_eq!(mem.to_string(&b(false)), b"false".to_vec());
    assert_eq!(mem.to_string(&SExpr::Nil), b"()".to_vec());
    assert_eq!(mem.to_string(&SExpr::Str(b"hi".to_vec())), b"hi".to_vec());
    assert_eq!(mem.to_string(&SExpr::Sym(b"abc".to_vec())), b"abc".to_vec());
    assert_eq!(mem.to_string(&f(1.5)), b"1.5".to_vec());
}

#[test]
fn test_print_nested() {
    let mut mem = Memory::new(50);
    let inner = mem.list_from_vec(vec![i(2), i(3)]).unwrap();
    let outer = mem.list_from_vec(vec![i(1), inner, i(4)]).unwrap();
    assert_eq!(mem.to_string(&outer), b"(1 (2 3) 4)".to_vec());
}

fn parse_and_print(source: &str) -> Vec<u8> {
    let tokens = Scanner::new(source).scan_tokens().unwrap();
    let mut mem = Memory::new(200);
    let v = Parser::new(tokens).parse(&mut mem).unwrap();
    mem.to_string(&v)
}

#[test]
fn test_scan_parse_print_roundtrip() {
    // Parsing a form, printing it, and re-parsing the printed text gives a
    // value with the same printed text.
    let sources = ["(1 2 (3 4) abc)", "(+ 1.5 (list a b) \"s\")", "(() (()) x)", "42"];
    for source in sources {
        let printed = parse_and_print(source);
        let text = String::from_utf8(printed.clone()).unwrap();
        let reprinted = parse_and_print(&text);
        assert_eq!(printed, reprinted);
    }
}

#[test]
fn test_pair_mutation() {
    let mut mem = Memory::new(20);
    let pair = mem.cons(i(1), i(2)).unwrap();
    mem.set_car(&pair, i(7)).unwrap();
    mem.set_cdr(&pair, SExpr::Nil).unwrap();
    assert_eq!(mem.car(&pair).unwrap(), i(7));
    assert_eq!(mem.cdr(&pair).unwrap(), SExpr::Nil);
    assert_eq!(mem.to_string(&pair), b"(7)".to_vec());
    assert!(mem.set_car(&i(5), i(1)).is_err());
    assert!(mem.car(&SExpr::Nil).is_err());
}

#[test]
fn test_nth_cdr() {
    let mut mem = Memory::new(20);
    let list = mem.list_from_vec(vec![i(1), i(2), i(3)]).unwrap();
    let tail = mem.get_nth_ref(&list, 2).unwrap();
    assert_eq!(mem.car(&tail).unwrap(), i(3));
    let end = mem.get_nth_ref(&list, 3).unwrap();
    assert_eq!(end, SExpr::Nil);
    assert!(mem.get_nth_ref(&list, 4).is_err());
}

#[test]
fn test_environment_frame_ops() {
    let mut mem = Memory::new(20);
    let mut root = Environment::new(SExpr::Nil);
    root.insert(b"a".to_vec(), i(1));
    let rootr = mem.allocate(Object::Env(root)).unwrap();
    let mut child = Environment::new(rootr.duplicate());
    child.insert(b"b".to_vec(), i(2));
    assert_eq!(child.get(b"b", &mem).unwrap(), i(2));
    assert_eq!(child.get(b"a", &mem).unwrap(), i(1));
    assert!(child.get(b"c", &mem).is_err());
    child.set(b"a", i(9), &mut mem).unwrap();
    assert_eq!(child.get(b"a", &mem).unwrap(), i(9));
    assert!(child.set(b"zz", i(1), &mut mem).is_err());
    let childr = mem.allocate(Object::Env(child)).unwrap();
    mem.env_insert(&childr, b"c".to_vec(), i(3)).unwrap();
    assert_eq!(mem.env_get(b"c", &childr).unwrap(), i(3));
    mem.env_set(&childr, b"a", i(11)).unwrap();
    assert_eq!(mem.env_get(b"a", &rootr).unwrap(), i(11));
}
