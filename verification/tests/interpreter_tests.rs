use minischeme::interpreter::Interpreter;
use minischeme::sexpr::SExpr;

fn f(x: f64) -> SExpr {
    SExpr::Float(x.to_bits())
}

fn i(x: i64) -> SExpr {
    SExpr::Int(x)
}

fn b(x: bool) -> SExpr {
    SExpr::Bool(x)
}

fn st(x: &str) -> SExpr {
    SExpr::Str(x.as_bytes().to_vec())
}

fn n() -> SExpr {
    SExpr::Nil
}

fn eval_ok(s: &str, expected: SExpr) {
    let mut interpreter = Interpreter::new(500);
    let res = interpreter.eval_string(s).expect("err");
    assert_eq!(res, expected);
}

#[test]
fn interpreter_test_values() {
    eval_ok("1", i(1));
    eval_ok("2", i(2));
    eval_ok("1.0", f(1.0));
    eval_ok("()", n());
    eval_ok("\"abc\"", st("abc"));
    eval_ok("#t", b(true));
    eval_ok("#f", b(false));
}

#[test]
fn test_arithmetic() {
    eval_ok("(+ 1 2)", i(3));
    eval_ok("(+)", i(0));
    eval_ok("(+ (+ 1 2) (+ 3 4))", i(10));
    eval_ok("(+ 1 2 3 4 5 6 7 8)", i((1..9).fold(0, |acc, x| acc + x)));
    eval_ok("(+ 1.0 0.5)", f(1.5));
    eval_ok("(+ 1 0.5)", f(1.5));
    eval_ok("(+ 1.0 2)", f(3.0));

    eval_ok("(- 5 3)", i(2));
    eval_ok("(- 10 1 2 3)", i(4));

    eval_ok("(* 5 3)", i(15));
    eval_ok("(*)", i(1));

    eval_ok("(/ 5.0 2)", f(2.5));
}

#[test]
fn test_lambda() {
    eval_ok("((lambda (a) a) 5)", i(5));
    eval_ok("((lambda (a b) (+ a b)) 5 3)", i(8));
    eval_ok("((lambda () 5))", i(5));
    eval_ok("((lambda () ()))", SExpr::Nil);
    eval_ok("(((lambda (a) (lambda () a)) 1e3))", f(1e3));
}

#[test]
fn test_begin() {
    eval_ok("(begin 1 2 3 4 5)", i(5));
}

#[test]
fn test_define() {
    eval_ok("(begin (define a 1) a)", i(1));
    eval_ok("(begin (define a 1) (define b a) b)", i(1));
    eval_ok("(begin (define a 1) (define b 2) (+ a b))", i(3));
    eval_ok("(begin (define a 1) (define b 2) (+ a b))", i(3));
    eval_ok("(begin (define (fn) 5) (fn))", i(5));
    eval_ok("(begin (define (fn a) a) (fn 5))", i(5));
    eval_ok("(begin (define a 5) (define (fn) a) (fn))", i(5));
    eval_ok("(begin (define a 5) (define (fn a) a) (fn 6))", i(6));
}

#[test]
fn test_set() {
    eval_ok("(begin (define a 1) (set! a 2) a)", i(2));
    eval_ok("(begin (define a 1) (set! a (+ a 1)) a)", i(2));
    eval_ok(
        "(begin (define a 1) (define (inc) (set! a (+ a 1))) (inc) (inc) a)",
        i(3),
    );
    eval_ok(
        "
            (begin
                (define a 1)
                (define (inc1) (set! a (+ a 1)))
                (define (inc2) (set! a (+ a 2)))
                (inc1)
                (inc2)
                (inc1)
                a
            )
        ",
        i(5),
    );
}

#[test]
fn test_comparison() {
    eval_ok("(= 1 1)", b(true));
    eval_ok("(= 1 1 2)", b(false));
    eval_ok("(=)", b(true));
    eval_ok("(<)", b(true));
    eval_ok("(<=)", b(true));
    eval_ok("(>)", b(true));
    eval_ok("(>=)", b(true));
    eval_ok("(= 1)", b(true));
    eval_ok("(< 1 2)", b(true));
    eval_ok("(< 1 2.0)", b(true));
    eval_ok("(< 1.0 2.0)", b(true));
    eval_ok("(< 1.0 2)", b(true));
    eval_ok("(< 1.0 2 3.0)", b(true));
    eval_ok("(< 1.0 2 2)", b(false));
    eval_ok("(< 1.0 2 2.1)", b(true));
    eval_ok("(<= 1 1 1)", b(true));
    eval_ok("(<= 1 2 2)", b(true));
    eval_ok("(<= 1 2 3)", b(true));
    eval_ok("(<= 1 2 )", b(true));
    eval_ok("(> 2 1 )", b(true));
    eval_ok("(> 2 1 1)", b(false));
    eval_ok("(>= 2 1 1)", b(true));
    eval_ok("(>= 2 1)", b(true));
    eval_ok("(>= 2)", b(true));
}

#[test]
fn test_if() {
    eval_ok("(if #t 1 2)", i(1));
    eval_ok("(if #f 1 2)", i(2));
    eval_ok("(if (= 1 1) 1 2)", i(1));
    eval_ok("(if (= 1 2) 1 2)", i(2));
}
