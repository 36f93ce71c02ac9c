//! The evaluator: special forms, procedure application, and the numeric
//! tower, specified by a functional big-step semantics over the heap model.
use crate::numerics::{
    add_bits, bits_of_int, cmp_bits, div_bits, f64_add, f64_cmp, f64_div, f64_mul, f64_of_i64,
    f64_sub, mul_bits, sub_bits,
};
use crate::sexpr::{
    bytes_eq, clone_bytes, env_insert_spec, env_lookup, env_lookup_rec, env_set_spec, grounded,
    lemma_preserves_grounded, lemma_read_list_grounded, list_alloc, mem_wf, obj_grounded, pair_of,
    preserves, read_list, seq_view, truthy, Environment, EnvironmentV, Memory, MemoryV, Object,
    ObjectV, Primitive, SExpr, SExprV,
};
use crate::parser::{parse_expr_spec, parse_fuel, pfault_text, Parser};
use crate::scanner::{fault_text, lex, pairs_tokens, Scanner};
use vstd::prelude::*;
use vstd::string::StringSliceAdditionalSpecFns;

verus! {

/// The errors evaluation can surface.
#[derive(Debug, PartialEq, Eq, Clone, Copy, Structural)]
pub enum EvalError {
    /// A symbol with no binding on the environment chain.
    UnboundVariable,
    /// A value of the wrong kind: a non-numeric operand, a non-symbol name,
    /// `car` of a non-pair, and the like.
    TypeError,
    /// A special form or procedure record of the wrong shape.
    IllFormed,
    /// An operand or binding chain that is not a proper list.
    IllFormedList,
    /// A compound procedure applied to the wrong number of arguments.
    ArityMismatch,
    /// `-` or `/` with no operands.
    NotEnoughOperands,
    /// Application of a value that is not a procedure.
    NotProcedure,
    /// Integer division by zero.
    DivisionByZero,
    /// 64-bit integer arithmetic out of range.
    IntegerOverflow,
    /// The free list is exhausted.
    OutOfMemory,
    /// A reference to a cell outside the heap or on the free list.
    EmptyCell,
    /// The evaluation depth budget ran out.
    DepthExceeded,
}

pub open spec fn kw_quote() -> Seq<u8> {
    seq!['q' as u8, 'u' as u8, 'o' as u8, 't' as u8, 'e' as u8]
}

pub open spec fn kw_set() -> Seq<u8> {
    seq!['s' as u8, 'e' as u8, 't' as u8, '!' as u8]
}

pub open spec fn kw_define() -> Seq<u8> {
    seq!['d' as u8, 'e' as u8, 'f' as u8, 'i' as u8, 'n' as u8, 'e' as u8]
}

pub open spec fn kw_if() -> Seq<u8> {
    seq!['i' as u8, 'f' as u8]
}

pub open spec fn kw_begin() -> Seq<u8> {
    seq!['b' as u8, 'e' as u8, 'g' as u8, 'i' as u8, 'n' as u8]
}

pub open spec fn kw_lambda() -> Seq<u8> {
    seq!['l' as u8, 'a' as u8, 'm' as u8, 'b' as u8, 'd' as u8, 'a' as u8]
}

pub open spec fn kw_cond() -> Seq<u8> {
    seq!['c' as u8, 'o' as u8, 'n' as u8, 'd' as u8]
}

/// The special forms, recognized by literal symbol name at the head of a
/// pair; they are not values and cannot be rebound.
#[derive(Debug, PartialEq, Eq, Clone, Copy, Structural)]
pub enum SpecialForm {
    Quote,
    SetBang,
    Define,
    If,
    Begin,
    Lambda,
    Cond,
}

pub open spec fn special_form_spec(s: Seq<u8>) -> Option<SpecialForm> {
    if s == kw_quote() {
        Some(SpecialForm::Quote)
    } else if s == kw_set() {
        Some(SpecialForm::SetBang)
    } else if s == kw_define() {
        Some(SpecialForm::Define)
    } else if s == kw_if() {
        Some(SpecialForm::If)
    } else if s == kw_begin() {
        Some(SpecialForm::Begin)
    } else if s == kw_lambda() {
        Some(SpecialForm::Lambda)
    } else if s == kw_cond() {
        Some(SpecialForm::Cond)
    } else {
        None
    }
}

fn kw_vec_quote() -> (v: Vec<u8>)
    ensures
        v@ == kw_quote(),
{
    let mut v: Vec<u8> = Vec::new();
    v.push('q' as u8);
    v.push('u' as u8);
    v.push('o' as u8);
    v.push('t' as u8);
    v.push('e' as u8);
    proof {
        assert(v@ =~= kw_quote());
    }
    v
}

fn kw_vec_set() -> (v: Vec<u8>)
    ensures
        v@ == kw_set(),
{
    let mut v: Vec<u8> = Vec::new();
    v.push('s' as u8);
    v.push('e' as u8);
    v.push('t' as u8);
    v.push('!' as u8);
    proof {
        assert(v@ =~= kw_set());
    }
    v
}

fn kw_vec_define() -> (v: Vec<u8>)
    ensures
        v@ == kw_define(),
{
    let mut v: Vec<u8> = Vec::new();
    v.push('d' as u8);
    v.push('e' as u8);
    v.push('f' as u8);
    v.push('i' as u8);
    v.push('n' as u8);
    v.push('e' as u8);
    proof {
        assert(v@ =~= kw_define());
    }
    v
}

fn kw_vec_if() -> (v: Vec<u8>)
    ensures
        v@ == kw_if(),
{
    let mut v: Vec<u8> = Vec::new();
    v.push('i' as u8);
    v.push('f' as u8);
    proof {
        assert(v@ =~= kw_if());
    }
    v
}

fn kw_vec_begin() -> (v: Vec<u8>)
    ensures
        v@ == kw_begin(),
{
    let mut v: Vec<u8> = Vec::new();
    v.push('b' as u8);
    v.push('e' as u8);
    v.push('g' as u8);
    v.push('i' as u8);
    v.push('n' as u8);
    proof {
        assert(v@ =~= kw_begin());
    }
    v
}

fn kw_vec_lambda() -> (v: Vec<u8>)
    ensures
        v@ == kw_lambda(),
{
    let mut v: Vec<u8> = Vec::new();
    v.push('l' as u8);
    v.push('a' as u8);
    v.push('m' as u8);
    v.push('b' as u8);
    v.push('d' as u8);
    v.push('a' as u8);
    proof {
        assert(v@ =~= kw_lambda());
    }
    v
}

fn kw_vec_cond() -> (v: Vec<u8>)
    ensures
        v@ == kw_cond(),
{
    let mut v: Vec<u8> = Vec::new();
    v.push('c' as u8);
    v.push('o' as u8);
    v.push('n' as u8);
    v.push('d' as u8);
    proof {
        assert(v@ =~= kw_cond());
    }
    v
}

/// Which special form, if any, the symbol `s` names.
fn special_form_of(s: &Vec<u8>) -> (r: Option<SpecialForm>)
    ensures
        r == special_form_spec(s@),
{
    if bytes_eq(s.as_slice(), kw_vec_quote().as_slice()) {
        Some(SpecialForm::Quote)
    } else if bytes_eq(s.as_slice(), kw_vec_set().as_slice()) {
        Some(SpecialForm::SetBang)
    } else if bytes_eq(s.as_slice(), kw_vec_define().as_slice()) {
        Some(SpecialForm::Define)
    } else if bytes_eq(s.as_slice(), kw_vec_if().as_slice()) {
        Some(SpecialForm::If)
    } else if bytes_eq(s.as_slice(), kw_vec_begin().as_slice()) {
        Some(SpecialForm::Begin)
    } else if bytes_eq(s.as_slice(), kw_vec_lambda().as_slice()) {
        Some(SpecialForm::Lambda)
    } else if bytes_eq(s.as_slice(), kw_vec_cond().as_slice()) {
        Some(SpecialForm::Cond)
    } else {
        None
    }
}

/// Truncated 64-bit division, as Rust's `/` computes it; callers rule out a
/// zero divisor.
pub open spec fn tdiv(x: int, d: int) -> int {
    if x == 0 {
        0
    } else if x > 0 && d > 0 {
        x / d
    } else if x < 0 && d < 0 {
        ((x * -1) / (d * -1))
    } else if x < 0 {
        ((x * -1) / d) * -1
    } else {
        (x / (d * -1)) * -1
    }
}

/// One step of an arithmetic fold on two integers.
pub open spec fn int_arith(p: Primitive, i: int, j: int) -> Result<SExprV, EvalError> {
    match p {
        Primitive::Add => if i64::MIN <= i + j <= i64::MAX {
            Ok(SExprV::Int(i + j))
        } else {
            Err(EvalError::IntegerOverflow)
        },
        Primitive::Sub => if i64::MIN <= i - j <= i64::MAX {
            Ok(SExprV::Int(i - j))
        } else {
            Err(EvalError::IntegerOverflow)
        },
        Primitive::Mul => if i64::MIN <= i * j <= i64::MAX {
            Ok(SExprV::Int(i * j))
        } else {
            Err(EvalError::IntegerOverflow)
        },
        Primitive::Div => if j == 0 {
            Err(EvalError::DivisionByZero)
        } else if i64::MIN <= tdiv(i, j) <= i64::MAX {
            Ok(SExprV::Int(tdiv(i, j)))
        } else {
            Err(EvalError::IntegerOverflow)
        },
        _ => Err(EvalError::TypeError),
    }
}

/// One step of an arithmetic fold on two bit patterns.
pub open spec fn float_arith(p: Primitive, a: u64, b: u64) -> u64 {
    match p {
        Primitive::Add => add_bits(a, b),
        Primitive::Sub => sub_bits(a, b),
        Primitive::Mul => mul_bits(a, b),
        Primitive::Div => div_bits(a, b),
        _ => 0,
    }
}

/// One step of an arithmetic fold: mixed operands promote to binary64.
pub open spec fn arith2(p: Primitive, acc: SExprV, x: SExprV) -> Result<SExprV, EvalError> {
    match (acc, x) {
        (SExprV::Int(i), SExprV::Int(j)) => int_arith(p, i, j),
        (SExprV::Int(i), SExprV::Float(g)) => Ok(
            SExprV::Float(float_arith(p, bits_of_int(i as i64), g)),
        ),
        (SExprV::Float(f), SExprV::Int(j)) => Ok(
            SExprV::Float(float_arith(p, f, bits_of_int(j as i64))),
        ),
        (SExprV::Float(f), SExprV::Float(g)) => Ok(SExprV::Float(float_arith(p, f, g))),
        _ => Err(EvalError::TypeError),
    }
}

/// Fold `rest` into `acc` with the arithmetic step of `p`, left to right.
pub open spec fn arith_fold(p: Primitive, acc: SExprV, rest: Seq<SExprV>) -> Result<
    SExprV,
    EvalError,
>
    decreases rest.len(),
{
    if rest.len() == 0 {
        Ok(acc)
    } else {
        match arith2(p, acc, rest[0]) {
            Ok(a2) => arith_fold(p, a2, rest.drop_first()),
            Err(e) => Err(e),
        }
    }
}

/// Whether the comparison `p` accepts the IEEE ordering answer `c`.
pub open spec fn cmp_accepts(p: Primitive, c: Option<i8>) -> bool {
    match p {
        Primitive::Eql => c == Some(0i8),
        Primitive::Lt => c == Some(-1i8),
        Primitive::Lte => c == Some(-1i8) || c == Some(0i8),
        Primitive::Gt => c == Some(1i8),
        Primitive::Gte => c == Some(1i8) || c == Some(0i8),
        _ => false,
    }
}

/// One pairwise comparison; mixed operands compare as binary64.
pub open spec fn cmp2(p: Primitive, a: SExprV, x: SExprV) -> Result<bool, EvalError> {
    match (a, x) {
        (SExprV::Int(i), SExprV::Int(j)) => Ok(
            match p {
                Primitive::Eql => i == j,
                Primitive::Lt => i < j,
                Primitive::Lte => i <= j,
                Primitive::Gt => i > j,
                Primitive::Gte => i >= j,
                _ => false,
            },
        ),
        (SExprV::Int(i), SExprV::Float(g)) => Ok(cmp_accepts(p, cmp_bits(bits_of_int(i as i64), g))),
        (SExprV::Float(f), SExprV::Int(j)) => Ok(cmp_accepts(p, cmp_bits(f, bits_of_int(j as i64)))),
        (SExprV::Float(f), SExprV::Float(g)) => Ok(cmp_accepts(p, cmp_bits(f, g))),
        _ => Err(EvalError::TypeError),
    }
}

/// Chain comparison: the predicate must hold across every adjacent pair,
/// stopping at the first failure.
pub open spec fn cmp_fold(p: Primitive, prev: SExprV, rest: Seq<SExprV>) -> Result<
    SExprV,
    EvalError,
>
    decreases rest.len(),
{
    if rest.len() == 0 {
        Ok(SExprV::Bool(true))
    } else {
        match cmp2(p, prev, rest[0]) {
            Err(e) => Err(e),
            Ok(false) => Ok(SExprV::Bool(false)),
            Ok(true) => cmp_fold(p, rest[0], rest.drop_first()),
        }
    }
}

/// What a primitive returns on a vector of evaluated arguments.
pub open spec fn prim_spec(p: Primitive, args: Seq<SExprV>) -> Result<SExprV, EvalError> {
    match p {
        Primitive::Add => arith_fold(p, SExprV::Int(0), args),
        Primitive::Mul => arith_fold(p, SExprV::Int(1), args),
        Primitive::Sub | Primitive::Div => if args.len() < 1 {
            Err(EvalError::NotEnoughOperands)
        } else {
            arith_fold(p, args[0], args.drop_first())
        },
        _ => if args.len() == 0 {
            Ok(SExprV::Bool(true))
        } else {
            cmp_fold(p, args[0], args.drop_first())
        },
    }
}

/// Every element is a symbol.
pub open spec fn all_syms(ps: Seq<SExprV>) -> bool {
    forall|i: int| 0 <= i < ps.len() ==> (#[trigger] ps[i]) is Sym
}

/// The view of an evaluation result.
pub open spec fn res_view(r: Result<SExpr, EvalError>) -> Result<SExprV, EvalError> {
    match r {
        Ok(v) => Ok(v@),
        Err(e) => Err(e),
    }
}

/// The bindings of a fresh application frame: parameters bound to arguments
/// in order (a repeated parameter keeps its last argument).
pub open spec fn bindings_of(ps: Seq<SExprV>, args: Seq<SExprV>) -> Map<Seq<u8>, SExprV>
    decreases ps.len(),
{
    if ps.len() == 0 || args.len() == 0 {
        Map::empty()
    } else {
        bindings_of(ps.drop_last(), args.drop_last()).insert(ps.last()->Sym_0, args.last())
    }
}

/// The big-step semantics: what evaluating `e` in `env` does to the heap and
/// returns. The fuel bounds the nesting depth of evaluation; atoms and
/// non-pair references need none.
pub open spec fn eval_spec(m: MemoryV, e: SExprV, env: SExprV, fuel: nat) -> (
    MemoryV,
    Result<SExprV, EvalError>,
)
    decreases fuel, 0nat, 0nat,
{
    match e {
        SExprV::Sym(s) => (
            m,
            match env_lookup(m, env, s) {
                Some(v) => Ok(v),
                None => Err(EvalError::UnboundVariable),
            },
        ),
        SExprV::Ref(a) => {
            if !(0 <= a < m.cells.len()) {
                (m, Err(EvalError::EmptyCell))
            } else {
                match m.cells[a] {
                    ObjectV::PrimitiveProcedure(_) => (m, Ok(e)),
                    ObjectV::CompoundProcedure(_) => (m, Ok(e)),
                    ObjectV::Env(_) => (m, Ok(e)),
                    ObjectV::Empty(_) => (m, Err(EvalError::EmptyCell)),
                    ObjectV::Pair(head, rest) => {
                        if fuel == 0 {
                            (m, Err(EvalError::DepthExceeded))
                        } else {
                            let f = (fuel - 1) as nat;
                            if head == SExprV::Sym(kw_quote()) {
                                eval_quote_spec(m, rest)
                            } else if head == SExprV::Sym(kw_set()) {
                                eval_set_form_spec(m, rest, env, f)
                            } else if head == SExprV::Sym(kw_define()) {
                                eval_define_spec(m, rest, env, f)
                            } else if head == SExprV::Sym(kw_if()) {
                                eval_if_spec(m, rest, env, f)
                            } else if head == SExprV::Sym(kw_begin()) {
                                eval_begin_spec(m, rest, env, f)
                            } else if head == SExprV::Sym(kw_lambda()) {
                                eval_lambda_spec(m, rest, env)
                            } else if head == SExprV::Sym(kw_cond()) {
                                (m, Err(EvalError::IllFormed))
                            } else {
                                eval_application_spec(m, head, rest, env, f)
                            }
                        }
                    },
                }
            }
        },
        _ => (m, Ok(e)),
    }
}

/// Evaluate each expression of `elems` left to right, threading the heap.
pub open spec fn eval_list_spec(m: MemoryV, elems: Seq<SExprV>, env: SExprV, fuel: nat) -> (
    MemoryV,
    Result<Seq<SExprV>, EvalError>,
)
    decreases fuel, 1nat, elems.len(),
{
    if elems.len() == 0 {
        (m, Ok(Seq::empty()))
    } else {
        let (m1, r0) = eval_spec(m, elems[0], env, fuel);
        match r0 {
            Err(e) => (m1, Err(e)),
            Ok(v) => {
                let (m2, rr) = eval_list_spec(m1, elems.drop_first(), env, fuel);
                match rr {
                    Err(e) => (m2, Err(e)),
                    Ok(vs) => (m2, Ok(seq![v] + vs)),
                }
            },
        }
    }
}

/// Materialize an operand list from the heap, then evaluate its elements.
pub open spec fn eval_operands_spec(m: MemoryV, v: SExprV, env: SExprV, fuel: nat) -> (
    MemoryV,
    Result<Seq<SExprV>, EvalError>,
)
    decreases fuel, 2nat, 0nat,
{
    match read_list(m, v) {
        None => (m, Err(EvalError::IllFormedList)),
        Some(elems) => eval_list_spec(m, elems, env, fuel),
    }
}

/// `(quote X)` returns `X` unevaluated.
pub open spec fn eval_quote_spec(m: MemoryV, rest: SExprV) -> (
    MemoryV,
    Result<SExprV, EvalError>,
) {
    match pair_of(m, rest) {
        Some((x, tail)) => if tail == SExprV::Nil {
            (m, Ok(x))
        } else {
            (m, Err(EvalError::IllFormed))
        },
        None => (m, Err(EvalError::IllFormed)),
    }
}

/// `(set! NAME EXPR)` evaluates `EXPR`, rebinds the innermost existing
/// binding of `NAME`, and returns `Nil`.
pub open spec fn eval_set_form_spec(m: MemoryV, rest: SExprV, env: SExprV, fuel: nat) -> (
    MemoryV,
    Result<SExprV, EvalError>,
)
    decreases fuel, 3nat, 0nat,
{
    match read_list(m, rest) {
        None => (m, Err(EvalError::IllFormedList)),
        Some(elems) => if elems.len() != 2 {
            (m, Err(EvalError::IllFormed))
        } else {
            match elems[0] {
                SExprV::Sym(name) => {
                    let (m1, r) = eval_spec(m, elems[1], env, fuel);
                    match r {
                        Err(e) => (m1, Err(e)),
                        Ok(v) => match env_set_spec(m1, env, name, v) {
                            Some(m2) => (m2, Ok(SExprV::Nil)),
                            None => (m1, Err(EvalError::UnboundVariable)),
                        },
                    }
                },
                _ => (m, Err(EvalError::TypeError)),
            }
        },
    }
}

/// A compound-procedure record: a three-element list `(params body env)`,
/// with every parameter a symbol.
pub open spec fn make_procedure_spec(m: MemoryV, params: SExprV, body: SExprV, env: SExprV) -> (
    MemoryV,
    Result<SExprV, EvalError>,
) {
    match read_list(m, params) {
        None => (m, Err(EvalError::IllFormedList)),
        Some(ps) => if !all_syms(ps) {
            (m, Err(EvalError::IllFormed))
        } else {
            match list_alloc(m, seq![params, body, env]) {
                None => (m, Err(EvalError::OutOfMemory)),
                Some((m1, lst)) => if m1.free.len() == 0 {
                    (m1, Err(EvalError::OutOfMemory))
                } else {
                    (
                        MemoryV {
                            cells: m1.cells.update(m1.free[0], ObjectV::CompoundProcedure(lst)),
                            free: m1.free.drop_first(),
                        },
                        Ok(SExprV::Ref(m1.free[0])),
                    )
                },
            }
        },
    }
}

/// `(define NAME EXPR)` or `(define (NAME PARAM...) BODY...)`; binds in the
/// current frame and returns `Sym(NAME)`.
pub open spec fn eval_define_spec(m: MemoryV, rest: SExprV, env: SExprV, fuel: nat) -> (
    MemoryV,
    Result<SExprV, EvalError>,
)
    decreases fuel, 3nat, 0nat,
{
    match read_list(m, rest) {
        None => (m, Err(EvalError::IllFormedList)),
        Some(elems) => if elems.len() < 2 {
            (m, Err(EvalError::IllFormed))
        } else {
            match elems[0] {
                SExprV::Sym(name) => if elems.len() == 2 {
                    let (m1, r) = eval_spec(m, elems[1], env, fuel);
                    match r {
                        Err(e) => (m1, Err(e)),
                        Ok(v) => match env_insert_spec(m1, env, name, v) {
                            Some(m2) => (m2, Ok(SExprV::Sym(name))),
                            None => (m1, Err(EvalError::TypeError)),
                        },
                    }
                } else {
                    (m, Err(EvalError::IllFormed))
                },
                SExprV::Ref(_) => {
                    let sig = elems[0];
                    match read_list(m, sig) {
                        None => (m, Err(EvalError::IllFormedList)),
                        Some(fnvec) => if fnvec.len() == 0 {
                            (m, Err(EvalError::IllFormed))
                        } else {
                            match fnvec[0] {
                                SExprV::Sym(name) => {
                                    let params = pair_of(m, sig)->Some_0.1;
                                    let body = pair_of(m, rest)->Some_0.1;
                                    let (m1, r) = make_procedure_spec(m, params, body, env);
                                    match r {
                                        Err(e) => (m1, Err(e)),
                                        Ok(p) => match env_insert_spec(m1, env, name, p) {
                                            Some(m2) => (m2, Ok(SExprV::Sym(name))),
                                            None => (m1, Err(EvalError::TypeError)),
                                        },
                                    }
                                },
                                _ => (m, Err(EvalError::TypeError)),
                            }
                        },
                    }
                },
                _ => (m, Err(EvalError::IllFormed)),
            }
        },
    }
}

/// `(if COND THEN ELSE)`: evaluate `COND`, then exactly one branch.
pub open spec fn eval_if_spec(m: MemoryV, rest: SExprV, env: SExprV, fuel: nat) -> (
    MemoryV,
    Result<SExprV, EvalError>,
)
    decreases fuel, 3nat, 0nat,
{
    match read_list(m, rest) {
        None => (m, Err(EvalError::IllFormedList)),
        Some(elems) => if elems.len() != 3 {
            (m, Err(EvalError::IllFormed))
        } else {
            let (m1, r) = eval_spec(m, elems[0], env, fuel);
            match r {
                Err(e) => (m1, Err(e)),
                Ok(c) => if truthy(c) {
                    eval_spec(m1, elems[1], env, fuel)
                } else {
                    eval_spec(m1, elems[2], env, fuel)
                },
            }
        },
    }
}

/// `(begin E1 ... En)`: evaluate left to right, return the last value.
pub open spec fn eval_begin_spec(m: MemoryV, rest: SExprV, env: SExprV, fuel: nat) -> (
    MemoryV,
    Result<SExprV, EvalError>,
)
    decreases fuel, 3nat, 0nat,
{
    let (m1, r) = eval_operands_spec(m, rest, env, fuel);
    match r {
        Err(e) => (m1, Err(e)),
        Ok(vs) => if vs.len() == 0 {
            (m1, Err(EvalError::IllFormed))
        } else {
            (m1, Ok(vs.last()))
        },
    }
}

/// `(lambda (PARAM...) BODY...)`: a compound procedure closed over `env`;
/// the body must be non-empty.
pub open spec fn eval_lambda_spec(m: MemoryV, rest: SExprV, env: SExprV) -> (
    MemoryV,
    Result<SExprV, EvalError>,
) {
    match read_list(m, rest) {
        None => (m, Err(EvalError::IllFormedList)),
        Some(elems) => if elems.len() < 2 {
            (m, Err(EvalError::IllFormed))
        } else {
            let params = elems[0];
            let body = pair_of(m, rest)->Some_0.1;
            make_procedure_spec(m, params, body, env)
        },
    }
}

/// Apply a compound procedure: check arity, bind parameters in a fresh frame
/// enclosed by the environment of creation, and evaluate the body as an
/// implicit `begin`.
pub open spec fn apply_compound_spec(m: MemoryV, defn: SExprV, args: Seq<SExprV>, fuel: nat) -> (
    MemoryV,
    Result<SExprV, EvalError>,
)
    decreases fuel, 3nat, 0nat,
{
    match read_list(m, defn) {
        None => (m, Err(EvalError::IllFormed)),
        Some(parts) => if parts.len() != 3 {
            (m, Err(EvalError::IllFormed))
        } else {
            let params = parts[0];
            let body = parts[1];
            let envc = parts[2];
            match read_list(m, params) {
                None => (m, Err(EvalError::IllFormedList)),
                Some(ps) => if ps.len() != args.len() {
                    (m, Err(EvalError::ArityMismatch))
                } else if !all_syms(ps) {
                    (m, Err(EvalError::TypeError))
                } else if m.free.len() == 0 {
                    (m, Err(EvalError::OutOfMemory))
                } else {
                    let frame = EnvironmentV { bindings: bindings_of(ps, args), enclosing: envc };
                    let m1 = MemoryV {
                        cells: m.cells.update(m.free[0], ObjectV::Env(frame)),
                        free: m.free.drop_first(),
                    };
                    let envr = SExprV::Ref(m.free[0]);
                    let (m2, rr) = eval_operands_spec(m1, body, envr, fuel);
                    match rr {
                        Err(e) => (m2, Err(e)),
                        Ok(vs) => if vs.len() == 0 {
                            (m2, Err(EvalError::IllFormed))
                        } else {
                            (m2, Ok(vs.last()))
                        },
                    }
                },
            }
        },
    }
}

/// Application: evaluate the operator; it must name a procedure; then the
/// operands, left to right; then dispatch.
pub open spec fn eval_application_spec(
    m: MemoryV,
    oper: SExprV,
    operands: SExprV,
    env: SExprV,
    fuel: nat,
) -> (MemoryV, Result<SExprV, EvalError>)
    decreases fuel, 4nat, 0nat,
{
    let (m1, r) = eval_spec(m, oper, env, fuel);
    match r {
        Err(e) => (m1, Err(e)),
        Ok(opv) => match opv {
            SExprV::Ref(a) => if !(0 <= a < m1.cells.len()) {
                (m1, Err(EvalError::NotProcedure))
            } else {
                match m1.cells[a] {
                    ObjectV::PrimitiveProcedure(p) => {
                        let (m2, rr) = eval_operands_spec(m1, operands, env, fuel);
                        match rr {
                            Err(e) => (m2, Err(e)),
                            Ok(args) => (m2, prim_spec(p, args)),
                        }
                    },
                    ObjectV::CompoundProcedure(d) => {
                        let (m2, rr) = eval_operands_spec(m1, operands, env, fuel);
                        match rr {
                            Err(e) => (m2, Err(e)),
                            Ok(args) => apply_compound_spec(m2, d, args, fuel),
                        }
                    },
                    _ => (m1, Err(EvalError::NotProcedure)),
                }
            },
            _ => (m1, Err(EvalError::NotProcedure)),
        },
    }
}

/// One arithmetic step, executably.
fn arith2_exec(p: Primitive, acc: &SExpr, x: &SExpr) -> (r: Result<SExpr, EvalError>)
    requires
        p == Primitive::Add || p == Primitive::Sub || p == Primitive::Mul || p == Primitive::Div,
    ensures
        match r {
            Ok(v) => arith2(p, acc@, x@) == Ok::<SExprV, EvalError>(v@),
            Err(e) => arith2(p, acc@, x@) == Err::<SExprV, EvalError>(e),
        },
{
    match (acc, x) {
        (SExpr::Int(i), SExpr::Int(j)) => {
            let i = *i;
            let j = *j;
            match p {
                Primitive::Add => match i.checked_add(j) {
                    Some(s) => Ok(SExpr::Int(s)),
                    None => Err(EvalError::IntegerOverflow),
                },
                Primitive::Sub => match i.checked_sub(j) {
                    Some(s) => Ok(SExpr::Int(s)),
                    None => Err(EvalError::IntegerOverflow),
                },
                Primitive::Mul => match i.checked_mul(j) {
                    Some(s) => Ok(SExpr::Int(s)),
                    None => Err(EvalError::IntegerOverflow),
                },
                Primitive::Div => {
                    if j == 0 {
                        Err(EvalError::DivisionByZero)
                    } else {
                        match i.checked_div(j) {
                            Some(q) => Ok(SExpr::Int(q)),
                            None => Err(EvalError::IntegerOverflow),
                        }
                    }
                },
                _ => Err(EvalError::TypeError),
            }
        },
        (SExpr::Int(i), SExpr::Float(g)) => Ok(SExpr::Float(float_arith_exec(p, f64_of_i64(*i), *g))),
        (SExpr::Float(f), SExpr::Int(j)) => Ok(SExpr::Float(float_arith_exec(p, *f, f64_of_i64(*j)))),
        (SExpr::Float(f), SExpr::Float(g)) => Ok(SExpr::Float(float_arith_exec(p, *f, *g))),
        _ => Err(EvalError::TypeError),
    }
}

fn float_arith_exec(p: Primitive, a: u64, b: u64) -> (r: u64)
    ensures
        r == float_arith(p, a, b),
{
    match p {
        Primitive::Add => f64_add(a, b),
        Primitive::Sub => f64_sub(a, b),
        Primitive::Mul => f64_mul(a, b),
        Primitive::Div => f64_div(a, b),
        _ => 0,
    }
}

fn cmp2_exec(p: Primitive, a: &SExpr, x: &SExpr) -> (r: Result<bool, EvalError>)
    ensures
        r == cmp2(p, a@, x@),
{
    match (a, x) {
        (SExpr::Int(i), SExpr::Int(j)) => Ok(
            match p {
                Primitive::Eql => *i == *j,
                Primitive::Lt => *i < *j,
                Primitive::Lte => *i <= *j,
                Primitive::Gt => *i > *j,
                Primitive::Gte => *i >= *j,
                _ => false,
            },
        ),
        (SExpr::Int(i), SExpr::Float(g)) => Ok(cmp_accepts_exec(p, f64_cmp(f64_of_i64(*i), *g))),
        (SExpr::Float(f), SExpr::Int(j)) => Ok(cmp_accepts_exec(p, f64_cmp(*f, f64_of_i64(*j)))),
        (SExpr::Float(f), SExpr::Float(g)) => Ok(cmp_accepts_exec(p, f64_cmp(*f, *g))),
        _ => Err(EvalError::TypeError),
    }
}

fn cmp_accepts_exec(p: Primitive, c: Option<i8>) -> (r: bool)
    ensures
        r == cmp_accepts(p, c),
{
    match c {
        None => false,
        Some(o) => match p {
            Primitive::Eql => o == 0,
            Primitive::Lt => o == -1,
            Primitive::Lte => o == -1 || o == 0,
            Primitive::Gt => o == 1,
            Primitive::Gte => o == 1 || o == 0,
            _ => false,
        },
    }
}

/// A primitive's kernel on a vector of evaluated arguments.
fn eval_primitive(p: Primitive, operands: &Vec<SExpr>) -> (r: Result<SExpr, EvalError>)
    ensures
        match r {
            Ok(v) => prim_spec(p, seq_view(operands@)) == Ok::<SExprV, EvalError>(v@),
            Err(e) => prim_spec(p, seq_view(operands@)) == Err::<SExprV, EvalError>(e),
        },
{
    let ghost args = seq_view(operands@);
    match p {
        Primitive::Add | Primitive::Mul | Primitive::Sub | Primitive::Div => {
            let mut start: usize = 0;
            let mut acc: SExpr = match p {
                Primitive::Add => SExpr::Int(0),
                Primitive::Mul => SExpr::Int(1),
                _ => {
                    if operands.len() < 1 {
                        return Err(EvalError::NotEnoughOperands);
                    }
                    start = 1;
                    operands[0].duplicate()
                },
            };
            proof {
                assert(args.skip(0) =~= args);
                assert(prim_spec(p, args) == arith_fold(p, acc@, args.skip(start as int)));
            }
            let mut i: usize = start;
            while i < operands.len()
                invariant
                    start <= i <= operands@.len(),
                    args == seq_view(operands@),
                    p == Primitive::Add || p == Primitive::Sub || p == Primitive::Mul || p
                        == Primitive::Div,
                    prim_spec(p, args) == arith_fold(p, acc@, args.skip(i as int)),
                decreases operands@.len() - i,
            {
                proof {
                    assert(args.skip(i as int)[0] == args[i as int]);
                    assert(args.skip(i as int).drop_first() =~= args.skip(i as int + 1));
                }
                match arith2_exec(p, &acc, &operands[i]) {
                    Ok(a2) => {
                        acc = a2;
                    },
                    Err(e) => {
                        return Err(e);
                    },
                }
                i = i + 1;
            }
            proof {
                assert(args.skip(operands@.len() as int) =~= Seq::<SExprV>::empty());
            }
            Ok(acc)
        },
        _ => {
            if operands.len() == 0 {
                return Ok(SExpr::Bool(true));
            }
            let mut prev: SExpr = operands[0].duplicate();
            proof {
                assert(prim_spec(p, args) == cmp_fold(p, prev@, args.skip(1)));
            }
            let mut i: usize = 1;
            while i < operands.len()
                invariant
                    1 <= i <= operands@.len(),
                    args == seq_view(operands@),
                    !(p == Primitive::Add || p == Primitive::Sub || p == Primitive::Mul || p
                        == Primitive::Div),
                    prim_spec(p, args) == cmp_fold(p, prev@, args.skip(i as int)),
                decreases operands@.len() - i,
            {
                proof {
                    assert(args.skip(i as int)[0] == args[i as int]);
                    assert(args.skip(i as int).drop_first() =~= args.skip(i as int + 1));
                }
                match cmp2_exec(p, &prev, &operands[i]) {
                    Err(e) => {
                        return Err(e);
                    },
                    Ok(false) => {
                        return Ok(SExpr::Bool(false));
                    },
                    Ok(true) => {
                        prev = operands[i].duplicate();
                    },
                }
                i = i + 1;
            }
            proof {
                assert(args.skip(operands@.len() as int) =~= Seq::<SExprV>::empty());
            }
            Ok(SExpr::Bool(true))
        },
    }
}

/// An arithmetic fold that starts from a grounded accumulator ends grounded:
/// every later accumulator is a freshly built number.
proof fn lemma_arith_fold_grounded(p: Primitive, acc: SExprV, rest: Seq<SExprV>, m: MemoryV)
    requires
        grounded(m, acc),
        arith_fold(p, acc, rest) is Ok,
    ensures
        grounded(m, arith_fold(p, acc, rest)->Ok_0),
    decreases rest.len(),
{
    if rest.len() > 0 {
        let r0 = arith2(p, acc, rest[0]);
        if r0 is Ok {
            assert(grounded(m, r0->Ok_0));
            lemma_arith_fold_grounded(p, r0->Ok_0, rest.drop_first(), m);
        }
    }
}

/// A comparison fold returns a boolean.
proof fn lemma_cmp_fold_bool(p: Primitive, prev: SExprV, rest: Seq<SExprV>)
    requires
        cmp_fold(p, prev, rest) is Ok,
    ensures
        cmp_fold(p, prev, rest)->Ok_0 is Bool,
    decreases rest.len(),
{
    if rest.len() > 0 {
        match cmp2(p, prev, rest[0]) {
            Ok(true) => {
                lemma_cmp_fold_bool(p, rest[0], rest.drop_first());
            },
            _ => {},
        }
    }
}

/// What a primitive returns is grounded whenever its arguments are.
proof fn lemma_prim_grounded(p: Primitive, args: Seq<SExprV>, m: MemoryV)
    requires
        forall|j: int| 0 <= j < args.len() ==> grounded(m, #[trigger] args[j]),
        prim_spec(p, args) is Ok,
    ensures
        grounded(m, prim_spec(p, args)->Ok_0),
{
    match p {
        Primitive::Add => {
            lemma_arith_fold_grounded(p, SExprV::Int(0), args, m);
        },
        Primitive::Mul => {
            lemma_arith_fold_grounded(p, SExprV::Int(1), args, m);
        },
        Primitive::Sub | Primitive::Div => {
            if args.len() >= 1 {
                lemma_arith_fold_grounded(p, args[0], args.drop_first(), m);
            }
        },
        _ => {
            if args.len() > 0 {
                lemma_cmp_fold_bool(p, args[0], args.drop_first());
            }
        },
    }
}

/// How a referenced cell steers evaluation.
enum HeadShape {
    SelfValue,
    PairAt(SExpr, SExpr),
    EmptySlot,
}

/// What kind of procedure an operator evaluated to.
enum ProcKind {
    Prim(Primitive),
    Compound(SExpr),
    NotProc,
}

/// Evaluate `e` in `env`; the executable mirror of `eval_spec`.
fn eval_expr(mem: &mut Memory, e: &SExpr, env: &SExpr, fuel: u64) -> (r: Result<SExpr, EvalError>)
    requires
        old(mem).wf(),
        grounded(old(mem)@, env@),
    ensures
        final(mem).wf(),
        preserves(old(mem)@, final(mem)@),
        (final(mem)@, res_view(r)) == eval_spec(old(mem)@, e@, env@, fuel as nat),
        r matches Ok(v) ==> grounded(final(mem)@, v@),
    decreases fuel, 0nat, 0nat,
{
    proof {
        old(mem).lemma_wf_mem_wf();
    }
    match e {
        SExpr::Sym(s) => match mem.env_get(s.as_slice(), env) {
            Ok(v) => Ok(v),
            Err(()) => Err(EvalError::UnboundVariable),
        },
        SExpr::Ref(addr) => {
            let a = *addr;
            if a >= mem.capacity() {
                return Err(EvalError::EmptyCell);
            }
            let d = match mem.get(a) {
                Object::Pair(x, y) => HeadShape::PairAt(x.duplicate(), y.duplicate()),
                Object::Empty(_) => HeadShape::EmptySlot,
                _ => HeadShape::SelfValue,
            };
            match d {
                HeadShape::SelfValue => Ok(e.duplicate()),
                HeadShape::EmptySlot => Err(EvalError::EmptyCell),
                HeadShape::PairAt(head, rest) => {
                    if fuel == 0 {
                        return Err(EvalError::DepthExceeded);
                    }
                    let form = match &head {
                        SExpr::Sym(s) => special_form_of(s),
                        _ => None,
                    };
                    match form {
                        Some(SpecialForm::Quote) => eval_quote_exec(mem, &rest),
                        Some(SpecialForm::SetBang) => eval_set_form_exec(mem, &rest, env, fuel - 1),
                        Some(SpecialForm::Define) => eval_define_exec(mem, &rest, env, fuel - 1),
                        Some(SpecialForm::If) => eval_if_exec(mem, &rest, env, fuel - 1),
                        Some(SpecialForm::Begin) => eval_begin_exec(mem, &rest, env, fuel - 1),
                        Some(SpecialForm::Lambda) => eval_lambda_exec(mem, &rest, env),
                        Some(SpecialForm::Cond) => Err(EvalError::IllFormed),
                        None => eval_application_exec(mem, &head, &rest, env, fuel - 1),
                    }
                },
            }
        },
        _ => Ok(e.duplicate()),
    }
}

/// `(quote X)`.
fn eval_quote_exec(mem: &Memory, rest: &SExpr) -> (r: Result<SExpr, EvalError>)
    requires
        mem.wf(),
    ensures
        res_view(r) == eval_quote_spec(mem@, rest@).1,
        r matches Ok(v) ==> grounded(mem@, v@),
{
    proof {
        mem.lemma_wf_mem_wf();
    }
    match mem.car(rest) {
        Err(()) => Err(EvalError::IllFormed),
        Ok(x) => {
            proof {
                assert(obj_grounded(mem@, mem@.cells[rest@->Ref_0]));
            }
            match mem.cdr(rest) {
                Ok(SExpr::Nil) => Ok(x),
                Ok(_) => Err(EvalError::IllFormed),
                Err(()) => {
                    proof {
                        assert(false);
                    }
                    Err(EvalError::IllFormed)
                },
            }
        },
    }
}

/// Evaluate the elements of `elems` from index `i` on, left to right.
fn eval_list_exec(mem: &mut Memory, elems: &Vec<SExpr>, i: usize, env: &SExpr, fuel: u64) -> (r:
    Result<Vec<SExpr>, EvalError>)
    requires
        old(mem).wf(),
        grounded(old(mem)@, env@),
        i <= elems@.len(),
    ensures
        final(mem).wf(),
        preserves(old(mem)@, final(mem)@),
        ({
            let (m2, rr) = eval_list_spec(
                old(mem)@,
                seq_view(elems@).skip(i as int),
                env@,
                fuel as nat,
            );
            final(mem)@ == m2 && (match (r, rr) {
                (Ok(vs), Ok(ws)) => seq_view(vs@) == ws && forall|j: int|
                    0 <= j < vs@.len() ==> grounded(final(mem)@, #[trigger] vs@[j]@),
                (Err(e1), Err(e2)) => e1 == e2,
                _ => false,
            })
        }),
    decreases fuel, 1nat, elems@.len() - i,
{
    let ghost target = seq_view(elems@).skip(i as int);
    if i == elems.len() {
        let r: Vec<SExpr> = Vec::new();
        proof {
            assert(target =~= Seq::<SExprV>::empty());
            assert(seq_view(r@) =~= Seq::<SExprV>::empty());
        }
        return Ok(r);
    }
    proof {
        assert(target[0] == elems@[i as int]@);
        assert(target.drop_first() =~= seq_view(elems@).skip(i as int + 1));
    }
    let v = match eval_expr(mem, &elems[i], env, fuel) {
        Ok(v) => v,
        Err(e) => {
            return Err(e);
        },
    };
    proof {
        lemma_preserves_grounded(old(mem)@, mem@, env@);
    }
    let ghost m_mid = mem@;
    match eval_list_exec(mem, elems, i + 1, env, fuel) {
        Err(e) => Err(e),
        Ok(mut rest) => {
            let ghost tail = rest@;
            rest.insert(0, v);
            proof {
                lemma_preserves_grounded(m_mid, mem@, v@);
                assert(seq_view(rest@) =~= seq![v@] + seq_view(tail));
                assert forall|j: int|
                    0 <= j < rest@.len() implies grounded(mem@, #[trigger] rest@[j]@) by {
                    if j > 0 {
                        assert(rest@[j] == tail[j - 1]);
                    }
                }
            }
            Ok(rest)
        },
    }
}

/// Materialize an operand list and evaluate its elements.
fn eval_operands_exec(mem: &mut Memory, v: &SExpr, env: &SExpr, fuel: u64) -> (r: Result<
    Vec<SExpr>,
    EvalError,
>)
    requires
        old(mem).wf(),
        grounded(old(mem)@, env@),
    ensures
        final(mem).wf(),
        preserves(old(mem)@, final(mem)@),
        ({
            let (m2, rr) = eval_operands_spec(old(mem)@, v@, env@, fuel as nat);
            final(mem)@ == m2 && (match (r, rr) {
                (Ok(vs), Ok(ws)) => seq_view(vs@) == ws && forall|j: int|
                    0 <= j < vs@.len() ==> grounded(final(mem)@, #[trigger] vs@[j]@),
                (Err(e1), Err(e2)) => e1 == e2,
                _ => false,
            })
        }),
    decreases fuel, 2nat, 0nat,
{
    match mem.vec_from_list(v) {
        Err(()) => Err(EvalError::IllFormedList),
        Ok(elems) => {
            proof {
                assert(seq_view(elems@).skip(0) =~= seq_view(elems@));
            }
            eval_list_exec(mem, &elems, 0, env, fuel)
        },
    }
}

/// `(set! NAME EXPR)`.
fn eval_set_form_exec(mem: &mut Memory, rest: &SExpr, env: &SExpr, fuel: u64) -> (r: Result<
    SExpr,
    EvalError,
>)
    requires
        old(mem).wf(),
        grounded(old(mem)@, env@),
    ensures
        final(mem).wf(),
        preserves(old(mem)@, final(mem)@),
        (final(mem)@, res_view(r)) == eval_set_form_spec(old(mem)@, rest@, env@, fuel as nat),
        r matches Ok(v) ==> grounded(final(mem)@, v@),
    decreases fuel, 3nat, 0nat,
{
    let elems = match mem.vec_from_list(rest) {
        Ok(v) => v,
        Err(()) => {
            return Err(EvalError::IllFormedList);
        },
    };
    if elems.len() != 2 {
        return Err(EvalError::IllFormed);
    }
    proof {
        assert(read_list(mem@, rest@)->Some_0[0] == elems@[0]@);
        assert(read_list(mem@, rest@)->Some_0[1] == elems@[1]@);
    }
    match &elems[0] {
        SExpr::Sym(name) => {
            let v = match eval_expr(mem, &elems[1], env, fuel) {
                Ok(v) => v,
                Err(e) => {
                    return Err(e);
                },
            };
            proof {
                lemma_preserves_grounded(old(mem)@, mem@, env@);
            }
            match mem.env_set(env, name.as_slice(), v) {
                Ok(()) => Ok(SExpr::Nil),
                Err(()) => Err(EvalError::UnboundVariable),
            }
        },
        _ => Err(EvalError::TypeError),
    }
}

/// Build a compound procedure record `(params body env)`.
fn make_procedure_exec(mem: &mut Memory, params: &SExpr, body: &SExpr, env: &SExpr) -> (r: Result<
    SExpr,
    EvalError,
>)
    requires
        old(mem).wf(),
        grounded(old(mem)@, env@),
        grounded(old(mem)@, params@),
        grounded(old(mem)@, body@),
    ensures
        final(mem).wf(),
        preserves(old(mem)@, final(mem)@),
        (final(mem)@, res_view(r)) == make_procedure_spec(old(mem)@, params@, body@, env@),
        r matches Ok(v) ==> grounded(final(mem)@, v@),
{
    let ghost m0 = mem@;
    let ps = match mem.vec_from_list(params) {
        Ok(v) => v,
        Err(()) => {
            return Err(EvalError::IllFormedList);
        },
    };
    let ghost psv = read_list(m0, params@)->Some_0;
    let mut i: usize = 0;
    while i < ps.len()
        invariant
            i <= ps@.len(),
            psv == seq_view(ps@),
            read_list(m0, params@) == Some(psv),
            forall|j: int| 0 <= j < i ==> seq_view(ps@)[j] is Sym,
            mem.wf(),
            mem@ == m0,
            m0 == old(mem)@,
        decreases ps@.len() - i,
    {
        match &ps[i] {
            SExpr::Sym(_) => {},
            _ => {
                proof {
                    assert(!(psv[i as int] is Sym));
                    assert(!all_syms(psv));
                }
                return Err(EvalError::IllFormed);
            },
        }
        i = i + 1;
    }
    proof {
        assert(all_syms(psv));
    }
    let mut triple: Vec<SExpr> = Vec::new();
    triple.push(params.duplicate());
    triple.push(body.duplicate());
    triple.push(env.duplicate());
    proof {
        assert(seq_view(triple@) =~= seq![params@, body@, env@]);
    }
    let lst = match mem.list_from_vec(triple) {
        Ok(v) => v,
        Err(()) => {
            return Err(EvalError::OutOfMemory);
        },
    };
    let ghost m1 = mem@;
    match mem.allocate(Object::CompoundProcedure(lst)) {
        Ok(p) => {
            proof {
                assert((final(mem)@, res_view(Ok::<SExpr, EvalError>(p))) =~= make_procedure_spec(
                    m0,
                    params@,
                    body@,
                    env@,
                ));
                mem.lemma_wf_mem_wf();
                assert(mem@.cells[p@->Ref_0] is CompoundProcedure);
            }
            Ok(p)
        },
        Err(()) => Err(EvalError::OutOfMemory),
    }
}

/// `(define ...)`, both shapes.
fn eval_define_exec(mem: &mut Memory, rest: &SExpr, env: &SExpr, fuel: u64) -> (r: Result<
    SExpr,
    EvalError,
>)
    requires
        old(mem).wf(),
        grounded(old(mem)@, env@),
    ensures
        final(mem).wf(),
        preserves(old(mem)@, final(mem)@),
        (final(mem)@, res_view(r)) == eval_define_spec(old(mem)@, rest@, env@, fuel as nat),
        r matches Ok(v) ==> grounded(final(mem)@, v@),
    decreases fuel, 3nat, 0nat,
{
    proof {
        old(mem).lemma_wf_mem_wf();
    }
    let ghost m0 = mem@;
    let elems = match mem.vec_from_list(rest) {
        Ok(v) => v,
        Err(()) => {
            return Err(EvalError::IllFormedList);
        },
    };
    if elems.len() < 2 {
        return Err(EvalError::IllFormed);
    }
    proof {
        assert(read_list(m0, rest@)->Some_0[0] == elems@[0]@);
        assert(read_list(m0, rest@)->Some_0[1] == elems@[1]@);
    }
    match &elems[0] {
        SExpr::Sym(name) => {
            if elems.len() != 2 {
                return Err(EvalError::IllFormed);
            }
            let v = match eval_expr(mem, &elems[1], env, fuel) {
                Ok(v) => v,
                Err(e) => {
                    return Err(e);
                },
            };
            proof {
                lemma_preserves_grounded(m0, mem@, env@);
            }
            let key = clone_bytes(name);
            match mem.env_insert(env, key, v) {
                Ok(()) => Ok(SExpr::Sym(clone_bytes(name))),
                Err(()) => Err(EvalError::TypeError),
            }
        },
        SExpr::Ref(_) => {
            let sig = &elems[0];
            let fnvec = match mem.vec_from_list(sig) {
                Ok(v) => v,
                Err(()) => {
                    return Err(EvalError::IllFormedList);
                },
            };
            if fnvec.len() == 0 {
                return Err(EvalError::IllFormed);
            }
            proof {
                assert(read_list(m0, elems@[0 as int]@)->Some_0[0] == fnvec@[0]@);
            }
            match &fnvec[0] {
                SExpr::Sym(name) => {
                    let params = match mem.cdr(sig) {
                        Ok(v) => v,
                        Err(()) => {
                            proof {
                                assert(false);
                            }
                            return Err(EvalError::IllFormed);
                        },
                    };
                    let body = match mem.cdr(rest) {
                        Ok(v) => v,
                        Err(()) => {
                            proof {
                                assert(false);
                            }
                            return Err(EvalError::IllFormed);
                        },
                    };
                    proof {
                        assert(obj_grounded(m0, m0.cells[sig@->Ref_0]));
                        assert(obj_grounded(m0, m0.cells[rest@->Ref_0]));
                    }
                    let p = match make_procedure_exec(mem, &params, &body, env) {
                        Ok(p) => p,
                        Err(e) => {
                            return Err(e);
                        },
                    };
                    proof {
                        lemma_preserves_grounded(m0, mem@, env@);
                    }
                    let key = clone_bytes(name);
                    match mem.env_insert(env, key, p) {
                        Ok(()) => Ok(SExpr::Sym(clone_bytes(name))),
                        Err(()) => Err(EvalError::TypeError),
                    }
                },
                _ => Err(EvalError::TypeError),
            }
        },
        _ => Err(EvalError::IllFormed),
    }
}

/// `(if COND THEN ELSE)`.
fn eval_if_exec(mem: &mut Memory, rest: &SExpr, env: &SExpr, fuel: u64) -> (r: Result<
    SExpr,
    EvalError,
>)
    requires
        old(mem).wf(),
        grounded(old(mem)@, env@),
    ensures
        final(mem).wf(),
        preserves(old(mem)@, final(mem)@),
        (final(mem)@, res_view(r)) == eval_if_spec(old(mem)@, rest@, env@, fuel as nat),
        r matches Ok(v) ==> grounded(final(mem)@, v@),
    decreases fuel, 3nat, 0nat,
{
    let ghost m0 = mem@;
    let elems = match mem.vec_from_list(rest) {
        Ok(v) => v,
        Err(()) => {
            return Err(EvalError::IllFormedList);
        },
    };
    if elems.len() != 3 {
        return Err(EvalError::IllFormed);
    }
    proof {
        assert(read_list(m0, rest@)->Some_0[0] == elems@[0]@);
        assert(read_list(m0, rest@)->Some_0[1] == elems@[1]@);
        assert(read_list(m0, rest@)->Some_0[2] == elems@[2]@);
    }
    let c = match eval_expr(mem, &elems[0], env, fuel) {
        Ok(v) => v,
        Err(e) => {
            return Err(e);
        },
    };
    proof {
        lemma_preserves_grounded(m0, mem@, env@);
    }
    if c.as_bool() {
        eval_expr(mem, &elems[1], env, fuel)
    } else {
        eval_expr(mem, &elems[2], env, fuel)
    }
}

/// `(begin E1 ... En)`.
fn eval_begin_exec(mem: &mut Memory, rest: &SExpr, env: &SExpr, fuel: u64) -> (r: Result<
    SExpr,
    EvalError,
>)
    requires
        old(mem).wf(),
        grounded(old(mem)@, env@),
    ensures
        final(mem).wf(),
        preserves(old(mem)@, final(mem)@),
        (final(mem)@, res_view(r)) == eval_begin_spec(old(mem)@, rest@, env@, fuel as nat),
        r matches Ok(v) ==> grounded(final(mem)@, v@),
    decreases fuel, 3nat, 0nat,
{
    let vs = match eval_operands_exec(mem, rest, env, fuel) {
        Ok(v) => v,
        Err(e) => {
            return Err(e);
        },
    };
    if vs.len() == 0 {
        Err(EvalError::IllFormed)
    } else {
        proof {
            assert(seq_view(vs@).last() == vs@[vs@.len() - 1]@);
        }
        Ok(vs[vs.len() - 1].duplicate())
    }
}

/// `(lambda (PARAM...) BODY...)`.
fn eval_lambda_exec(mem: &mut Memory, rest: &SExpr, env: &SExpr) -> (r: Result<SExpr, EvalError>)
    requires
        old(mem).wf(),
        grounded(old(mem)@, env@),
    ensures
        final(mem).wf(),
        preserves(old(mem)@, final(mem)@),
        (final(mem)@, res_view(r)) == eval_lambda_spec(old(mem)@, rest@, env@),
        r matches Ok(v) ==> grounded(final(mem)@, v@),
{
    proof {
        old(mem).lemma_wf_mem_wf();
    }
    let ghost m0 = mem@;
    let elems = match mem.vec_from_list(rest) {
        Ok(v) => v,
        Err(()) => {
            return Err(EvalError::IllFormedList);
        },
    };
    if elems.len() < 2 {
        return Err(EvalError::IllFormed);
    }
    proof {
        assert(read_list(m0, rest@)->Some_0[0] == elems@[0]@);
    }
    let body = match mem.cdr(rest) {
        Ok(v) => v,
        Err(()) => {
            proof {
                assert(false);
            }
            return Err(EvalError::IllFormed);
        },
    };
    proof {
        assert(obj_grounded(m0, m0.cells[rest@->Ref_0]));
        lemma_read_list_grounded(m0, rest@, m0.cells.len());
    }
    make_procedure_exec(mem, &elems[0], &body, env)
}

/// Apply a compound procedure to evaluated arguments.
fn apply_compound_exec(mem: &mut Memory, defn: &SExpr, args: &Vec<SExpr>, fuel: u64) -> (r: Result<
    SExpr,
    EvalError,
>)
    requires
        old(mem).wf(),
        forall|j: int| 0 <= j < args@.len() ==> grounded(old(mem)@, #[trigger] args@[j]@),
    ensures
        final(mem).wf(),
        preserves(old(mem)@, final(mem)@),
        (final(mem)@, res_view(r)) == apply_compound_spec(
            old(mem)@,
            defn@,
            seq_view(args@),
            fuel as nat,
        ),
        r matches Ok(v) ==> grounded(final(mem)@, v@),
    decreases fuel, 3nat, 0nat,
{
    proof {
        old(mem).lemma_wf_mem_wf();
    }
    let ghost m0 = mem@;
    let parts = match mem.vec_from_list(defn) {
        Ok(v) => v,
        Err(()) => {
            return Err(EvalError::IllFormed);
        },
    };
    if parts.len() != 3 {
        return Err(EvalError::IllFormed);
    }
    proof {
        assert(read_list(m0, defn@)->Some_0 == seq_view(parts@));
        assert(seq_view(parts@)[0] == parts@[0]@);
        assert(seq_view(parts@)[1] == parts@[1]@);
        assert(seq_view(parts@)[2] == parts@[2]@);
        lemma_read_list_grounded(m0, defn@, m0.cells.len());
    }
    let ps = match mem.vec_from_list(&parts[0]) {
        Ok(v) => v,
        Err(()) => {
            return Err(EvalError::IllFormedList);
        },
    };
    let ghost psv = read_list(m0, parts@[0 as int]@)->Some_0;
    if ps.len() != args.len() {
        return Err(EvalError::ArityMismatch);
    }
    let mut i: usize = 0;
    while i < ps.len()
        invariant
            i <= ps@.len(),
            psv == seq_view(ps@),
            read_list(m0, defn@) == Some(seq_view(parts@)),
            parts@.len() == 3,
            read_list(m0, parts@[0 as int]@) == Some(psv),
            ps@.len() == args@.len(),
            forall|j: int| 0 <= j < i ==> seq_view(ps@)[j] is Sym,
            mem.wf(),
            mem@ == m0,
            m0 == old(mem)@,
        decreases ps@.len() - i,
    {
        match &ps[i] {
            SExpr::Sym(_) => {},
            _ => {
                proof {
                    assert(!(psv[i as int] is Sym));
                    assert(!all_syms(psv));
                }
                return Err(EvalError::TypeError);
            },
        }
        i = i + 1;
    }
    proof {
        assert(all_syms(psv));
        lemma_read_list_grounded(m0, parts@[0 as int]@, m0.cells.len());
    }
    let mut frame = Environment::new(parts[2].duplicate());
    let mut k: usize = 0;
    while k < ps.len()
        invariant
            k <= ps@.len(),
            ps@.len() == args@.len(),
            psv == seq_view(ps@),
            forall|j: int| 0 <= j < psv.len() ==> psv[j] is Sym,
            frame.wf(),
            frame@.enclosing == parts@[2 as int]@,
            frame@.bindings == bindings_of(
                seq_view(ps@).take(k as int),
                seq_view(args@).take(k as int),
            ),
            mem.wf(),
            mem@ == m0,
            m0 == old(mem)@,
            forall|j: int| 0 <= j < args@.len() ==> grounded(m0, #[trigger] args@[j]@),
            grounded(m0, parts@[2 as int]@),
        decreases ps@.len() - k,
    {
        match &ps[k] {
            SExpr::Sym(s) => {
                let key = clone_bytes(s);
                frame.insert(key, args[k].duplicate());
                proof {
                    let pk = seq_view(ps@).take(k as int + 1);
                    let ak = seq_view(args@).take(k as int + 1);
                    assert(pk.drop_last() =~= seq_view(ps@).take(k as int));
                    assert(ak.drop_last() =~= seq_view(args@).take(k as int));
                    assert(pk.last() == seq_view(ps@)[k as int]);
                    assert(ak.last() == seq_view(args@)[k as int]);
                }
            },
            _ => {
                proof {
                    assert(false);
                }
                return Err(EvalError::TypeError);
            },
        }
        k = k + 1;
    }
    proof {
        assert(seq_view(ps@).take(ps@.len() as int) =~= seq_view(ps@));
        assert(seq_view(args@).take(args@.len() as int) =~= seq_view(args@));
        assert(obj_grounded(m0, ObjectV::Env(frame@))) by {
            assert(grounded(m0, frame@.enclosing));
            assert forall|k2: Seq<u8>| #[trigger] frame@.bindings.contains_key(k2) implies grounded(
                m0,
                frame@.bindings[k2],
            ) by {
                lemma_bindings_grounded(seq_view(ps@), seq_view(args@), k2, m0);
            }
        }
    }
    let envr = match mem.allocate(Object::Env(frame)) {
        Ok(v) => v,
        Err(()) => {
            return Err(EvalError::OutOfMemory);
        },
    };
    let vs = match eval_operands_exec(mem, &parts[1], &envr, fuel) {
        Ok(v) => v,
        Err(e) => {
            return Err(e);
        },
    };
    if vs.len() == 0 {
        Err(EvalError::IllFormed)
    } else {
        proof {
            assert(seq_view(vs@).last() == vs@[vs@.len() - 1]@);
        }
        Ok(vs[vs.len() - 1].duplicate())
    }
}

/// Every value bound by a fresh application frame is one of the arguments.
proof fn lemma_bindings_grounded(ps: Seq<SExprV>, args: Seq<SExprV>, key: Seq<u8>, m: MemoryV)
    requires
        ps.len() == args.len(),
        forall|j: int| 0 <= j < args.len() ==> grounded(m, #[trigger] args[j]),
        bindings_of(ps, args).contains_key(key),
    ensures
        grounded(m, bindings_of(ps, args)[key]),
    decreases ps.len(),
{
    if ps.len() > 0 {
        if ps.last()->Sym_0 == key {
        } else {
            assert(forall|j: int|
                0 <= j < args.drop_last().len() ==> grounded(m, #[trigger] args.drop_last()[j]));
            lemma_bindings_grounded(ps.drop_last(), args.drop_last(), key, m);
        }
    }
}

/// Application.
fn eval_application_exec(mem: &mut Memory, oper: &SExpr, operands: &SExpr, env: &SExpr, fuel: u64) -> (r:
    Result<SExpr, EvalError>)
    requires
        old(mem).wf(),
        grounded(old(mem)@, env@),
    ensures
        final(mem).wf(),
        preserves(old(mem)@, final(mem)@),
        (final(mem)@, res_view(r)) == eval_application_spec(
            old(mem)@,
            oper@,
            operands@,
            env@,
            fuel as nat,
        ),
        r matches Ok(v) ==> grounded(final(mem)@, v@),
    decreases fuel, 4nat, 0nat,
{
    let opv = match eval_expr(mem, oper, env, fuel) {
        Ok(v) => v,
        Err(e) => {
            return Err(e);
        },
    };
    proof {
        lemma_preserves_grounded(old(mem)@, mem@, env@);
        mem.lemma_wf_mem_wf();
    }
    let ghost m1 = mem@;
    match &opv {
        SExpr::Ref(addr) => {
            let a = *addr;
            if a >= mem.capacity() {
                return Err(EvalError::NotProcedure);
            }
            let kind = match mem.get(a) {
                Object::PrimitiveProcedure(p) => ProcKind::Prim(*p),
                Object::CompoundProcedure(d) => ProcKind::Compound(d.duplicate()),
                _ => ProcKind::NotProc,
            };
            match kind {
                ProcKind::Prim(p) => {
                    let args = match eval_operands_exec(mem, operands, env, fuel) {
                        Ok(v) => v,
                        Err(e) => {
                            return Err(e);
                        },
                    };
                    match eval_primitive(p, &args) {
                        Ok(v) => {
                            proof {
                                lemma_prim_grounded(p, seq_view(args@), mem@);
                            }
                            Ok(v)
                        },
                        Err(e) => Err(e),
                    }
                },
                ProcKind::Compound(d) => {
                    proof {
                        assert(obj_grounded(m1, m1.cells[a as int]));
                    }
                    let args = match eval_operands_exec(mem, operands, env, fuel) {
                        Ok(v) => v,
                        Err(e) => {
                            return Err(e);
                        },
                    };
                    proof {
                        lemma_preserves_grounded(m1, mem@, d@);
                    }
                    apply_compound_exec(mem, &d, &args, fuel)
                },
                ProcKind::NotProc => Err(EvalError::NotProcedure),
            }
        },
        _ => Err(EvalError::NotProcedure),
    }
}

/// The depth budget handed to evaluation; nesting deeper than this aborts
/// with a depth error rather than exhausting the host stack.
pub const DEPTH_LIMIT: u64 = 500;

/// The conventional symbol of a primitive.
pub open spec fn prim_name(p: Primitive) -> Seq<u8> {
    match p {
        Primitive::Add => seq!['+' as u8],
        Primitive::Sub => seq!['-' as u8],
        Primitive::Mul => seq!['*' as u8],
        Primitive::Div => seq!['/' as u8],
        Primitive::Eql => seq!['=' as u8],
        Primitive::Lt => seq!['<' as u8],
        Primitive::Lte => seq!['<' as u8, '=' as u8],
        Primitive::Gt => seq!['>' as u8],
        Primitive::Gte => seq!['>' as u8, '=' as u8],
    }
}

/// One allocation step at the head of the free list.
pub open spec fn alloc_step(m: MemoryV, o: ObjectV) -> (MemoryV, SExprV) {
    (
        MemoryV { cells: m.cells.update(m.free[0], o), free: m.free.drop_first() },
        SExprV::Ref(m.free[0]),
    )
}

/// The heap and root environment that seeding the initial environment
/// produces: nine primitive objects, then one frame binding their symbols,
/// taken from the front of the free list in that order.
pub open spec fn setup_spec(m: MemoryV) -> (MemoryV, SExprV) {
    let (m1, r1) = alloc_step(m, ObjectV::PrimitiveProcedure(Primitive::Add));
    let (m2, r2) = alloc_step(m1, ObjectV::PrimitiveProcedure(Primitive::Sub));
    let (m3, r3) = alloc_step(m2, ObjectV::PrimitiveProcedure(Primitive::Mul));
    let (m4, r4) = alloc_step(m3, ObjectV::PrimitiveProcedure(Primitive::Div));
    let (m5, r5) = alloc_step(m4, ObjectV::PrimitiveProcedure(Primitive::Eql));
    let (m6, r6) = alloc_step(m5, ObjectV::PrimitiveProcedure(Primitive::Lt));
    let (m7, r7) = alloc_step(m6, ObjectV::PrimitiveProcedure(Primitive::Lte));
    let (m8, r8) = alloc_step(m7, ObjectV::PrimitiveProcedure(Primitive::Gt));
    let (m9, r9) = alloc_step(m8, ObjectV::PrimitiveProcedure(Primitive::Gte));
    let bindings = Map::<Seq<u8>, SExprV>::empty().insert(prim_name(Primitive::Add), r1).insert(
        prim_name(Primitive::Sub),
        r2,
    ).insert(prim_name(Primitive::Mul), r3).insert(prim_name(Primitive::Div), r4).insert(
        prim_name(Primitive::Eql),
        r5,
    ).insert(prim_name(Primitive::Lt), r6).insert(prim_name(Primitive::Lte), r7).insert(
        prim_name(Primitive::Gt),
        r8,
    ).insert(prim_name(Primitive::Gte), r9);
    alloc_step(m9, ObjectV::Env(EnvironmentV { bindings, enclosing: SExprV::Nil }))
}

fn sym1(c: u8) -> (v: Vec<u8>)
    ensures
        v@ == seq![c],
{
    let mut v: Vec<u8> = Vec::new();
    v.push(c);
    proof {
        assert(v@ =~= seq![c]);
    }
    v
}

fn sym2(c: u8, d: u8) -> (v: Vec<u8>)
    ensures
        v@ == seq![c, d],
{
    let mut v: Vec<u8> = Vec::new();
    v.push(c);
    v.push(d);
    proof {
        assert(v@ =~= seq![c, d]);
    }
    v
}

/// What an evaluation error reads as.
pub open spec fn error_text(e: EvalError) -> Seq<char> {
    match e {
        EvalError::UnboundVariable => "Unbound variable"@,
        EvalError::TypeError => "Type error"@,
        EvalError::IllFormed => "Ill formed expression"@,
        EvalError::IllFormedList => "Ill formed list"@,
        EvalError::ArityMismatch => "Arity mismatch"@,
        EvalError::NotEnoughOperands => "Not enough operands"@,
        EvalError::NotProcedure => "Applying non procedure"@,
        EvalError::DivisionByZero => "Division by zero"@,
        EvalError::IntegerOverflow => "Integer overflow"@,
        EvalError::OutOfMemory => "Out of memory"@,
        EvalError::EmptyCell => "Dereferencing empty location"@,
        EvalError::DepthExceeded => "Recursion depth exceeded"@,
    }
}

/// The static message of an evaluation error.
pub fn error_message(e: EvalError) -> (r: &'static str)
    ensures
        r@ == error_text(e),
{
    match e {
        EvalError::UnboundVariable => "Unbound variable",
        EvalError::TypeError => "Type error",
        EvalError::IllFormed => "Ill formed expression",
        EvalError::IllFormedList => "Ill formed list",
        EvalError::ArityMismatch => "Arity mismatch",
        EvalError::NotEnoughOperands => "Not enough operands",
        EvalError::NotProcedure => "Applying non procedure",
        EvalError::DivisionByZero => "Division by zero",
        EvalError::IntegerOverflow => "Integer overflow",
        EvalError::OutOfMemory => "Out of memory",
        EvalError::EmptyCell => "Dereferencing empty location",
        EvalError::DepthExceeded => "Recursion depth exceeded",
    }
}

/// An interpreter: a heap and the root environment, seeded with the
/// primitive procedures.
pub struct Interpreter {
    mem: Memory,
    initial_env: SExpr,
}

/// The mathematical shape of an interpreter.
#[verifier::ext_equal]
pub struct InterpreterV {
    pub mem: MemoryV,
    pub env: SExprV,
}

impl View for Interpreter {
    type V = InterpreterV;

    closed spec fn view(&self) -> InterpreterV {
        InterpreterV { mem: self.mem@, env: self.initial_env@ }
    }
}

impl Interpreter {
    /// Well-formedness: the heap is well-formed and the root environment
    /// points into it.
    pub closed spec fn wf(&self) -> bool {
        &&& self.mem.wf()
        &&& grounded(self.mem@, self.initial_env@)
    }

    /// A fresh interpreter over a heap of `memsize` cells, with the
    /// primitives bound in the root environment (which takes ten cells).
    pub fn new(memsize: usize) -> (r: Interpreter)
        ensures
            r.wf(),
            memsize >= 10 ==> (r@.mem, r@.env) == setup_spec(
                MemoryV {
                    cells: Seq::new(memsize as nat, |i: int| ObjectV::Empty(
                        if i + 1 < memsize as int {
                            Some(i + 1)
                        } else {
                            None
                        },
                    )),
                    free: Seq::new(memsize as nat, |i: int| i),
                },
            ),
    {
        let mut obj = Interpreter { mem: Memory::new(memsize), initial_env: SExpr::Nil };
        proof {
            let m0 = obj.mem@;
            assert(m0.cells =~= Seq::new(memsize as nat, |i: int| ObjectV::Empty(
                if i + 1 < memsize as int {
                    Some(i + 1)
                } else {
                    None
                },
            ))) by {
                obj.mem.lemma_wf_mem_wf();
                assert forall|a: int| 0 <= a < memsize as int implies m0.cells[a]
                    == ObjectV::Empty(
                    if a + 1 < memsize as int {
                        Some(a + 1)
                    } else {
                        None
                    },
                ) by {
                    assert(m0.free[a] == a);
                    assert(m0.cells[m0.free[a]] == ObjectV::Empty(
                        if a + 1 < m0.free.len() {
                            Some(m0.free[a + 1])
                        } else {
                            None
                        },
                    ));
                }
            }
        }
        obj.setup_intial_env();
        obj
    }

    /// Seed the root environment: allocate the nine primitive objects and a
    /// frame binding `+ - * / = < <= > >=` to them. With fewer than ten free
    /// cells the root environment is left empty (`Nil`).
    pub fn setup_intial_env(&mut self)
        requires
            old(self).wf(),
        ensures
            final(self).wf(),
            preserves(old(self)@.mem, final(self)@.mem),
            old(self)@.mem.free.len() >= 10 ==> (final(self)@.mem, final(self)@.env) == setup_spec(
                old(self)@.mem,
            ),
            old(self)@.mem.free.len() < 10 ==> final(self)@.env == SExprV::Nil,
    {
        let ghost m0 = self.mem@;
        let mut env = Environment::new(SExpr::Nil);
        let r1 = match self.mem.allocate(Object::PrimitiveProcedure(Primitive::Add)) {
            Ok(v) => v,
            Err(()) => {
                self.initial_env = SExpr::Nil;
                return ;
            },
        };
        let r2 = match self.mem.allocate(Object::PrimitiveProcedure(Primitive::Sub)) {
            Ok(v) => v,
            Err(()) => {
                self.initial_env = SExpr::Nil;
                return ;
            },
        };
        let r3 = match self.mem.allocate(Object::PrimitiveProcedure(Primitive::Mul)) {
            Ok(v) => v,
            Err(()) => {
                self.initial_env = SExpr::Nil;
                return ;
            },
        };
        let r4 = match self.mem.allocate(Object::PrimitiveProcedure(Primitive::Div)) {
            Ok(v) => v,
            Err(()) => {
                self.initial_env = SExpr::Nil;
                return ;
            },
        };
        let r5 = match self.mem.allocate(Object::PrimitiveProcedure(Primitive::Eql)) {
            Ok(v) => v,
            Err(()) => {
                self.initial_env = SExpr::Nil;
                return ;
            },
        };
        let r6 = match self.mem.allocate(Object::PrimitiveProcedure(Primitive::Lt)) {
            Ok(v) => v,
            Err(()) => {
                self.initial_env = SExpr::Nil;
                return ;
            },
        };
        let r7 = match self.mem.allocate(Object::PrimitiveProcedure(Primitive::Lte)) {
            Ok(v) => v,
            Err(()) => {
                self.initial_env = SExpr::Nil;
                return ;
            },
        };
        let r8 = match self.mem.allocate(Object::PrimitiveProcedure(Primitive::Gt)) {
            Ok(v) => v,
            Err(()) => {
                self.initial_env = SExpr::Nil;
                return ;
            },
        };
        let r9 = match self.mem.allocate(Object::PrimitiveProcedure(Primitive::Gte)) {
            Ok(v) => v,
            Err(()) => {
                self.initial_env = SExpr::Nil;
                return ;
            },
        };
        env.insert(sym1('+' as u8), r1);
        env.insert(sym1('-' as u8), r2);
        env.insert(sym1('*' as u8), r3);
        env.insert(sym1('/' as u8), r4);
        env.insert(sym1('=' as u8), r5);
        env.insert(sym1('<' as u8), r6);
        env.insert(sym2('<' as u8, '=' as u8), r7);
        env.insert(sym1('>' as u8), r8);
        env.insert(sym2('>' as u8, '=' as u8), r9);
        match self.mem.allocate(Object::Env(env)) {
            Ok(er) => {
                self.initial_env = er;
                proof {
                    assert((final(self)@.mem, final(self)@.env) =~= setup_spec(m0));
                }
            },
            Err(()) => {
                self.initial_env = SExpr::Nil;
            },
        }
    }

    /// Evaluate `e` in the root environment; errors surface as their static
    /// messages.
    pub fn eval(&mut self, e: SExpr) -> (r: Result<SExpr, &'static str>)
        requires
            old(self).wf(),
        ensures
            final(self).wf(),
            final(self)@.env == old(self)@.env,
            ({
                let (m2, rr) = eval_spec(
                    old(self)@.mem,
                    e@,
                    old(self)@.env,
                    DEPTH_LIMIT as nat,
                );
                final(self)@.mem == m2 && (match (r, rr) {
                    (Ok(v), Ok(w)) => v@ == w,
                    (Err(s), Err(er)) => s@ == error_text(er),
                    _ => false,
                })
            }),
    {
        match eval_expr(&mut self.mem, &e, &self.initial_env, DEPTH_LIMIT) {
            Ok(v) => Ok(v),
            Err(er) => Err(error_message(er)),
        }
    }
}

impl Interpreter {
    /// Scan, parse, and evaluate one expression of source text; lexical,
    /// syntactic and evaluation errors surface as their static messages.
    pub fn eval_string(&mut self, s: &str) -> (r: Result<SExpr, &'static str>)
        requires
            old(self).wf(),
        ensures
            final(self).wf(),
            final(self)@.env == old(self)@.env,
            ({
                let src = s.spec_bytes();
                match lex(src, 0, 1, (src.len() + 1) as nat) {
                    Err(p) => final(self)@ == old(self)@ && (r matches Err(m) && m@ == fault_text(
                        p.0,
                    )),
                    Ok(ps) => {
                        let toks = pairs_tokens(ps);
                        let (m1, pr) = parse_expr_spec(old(self)@.mem, toks, 0, parse_fuel(toks));
                        match pr {
                            Err(pf) => final(self)@.mem == m1 && (r matches Err(m) && m@
                                == pfault_text(pf.0)),
                            Ok((e, _j)) => ({
                                let (m2, rr) = eval_spec(
                                    m1,
                                    e,
                                    old(self)@.env,
                                    DEPTH_LIMIT as nat,
                                );
                                final(self)@.mem == m2 && (match (r, rr) {
                                    (Ok(v), Ok(w)) => v@ == w,
                                    (Err(m), Err(er)) => m@ == error_text(er),
                                    _ => false,
                                })
                            }),
                        }
                    },
                }
            }),
    {
        let scanner = Scanner::new(s);
        let (tokens, lines) = match scanner.scan_tokens_with_lines() {
            Ok(p) => p,
            Err(e) => {
                return Err(e.message);
            },
        };
        let parser = Parser::with_lines(tokens, lines);
        let ghost m0 = self.mem@;
        let expr = match parser.parse(&mut self.mem) {
            Ok(v) => v,
            Err(e) => {
                return Err(e.message);
            },
        };
        proof {
            lemma_preserves_grounded(m0, self.mem@, self.initial_env@);
        }
        match eval_expr(&mut self.mem, &expr, &self.initial_env, DEPTH_LIMIT) {
            Ok(v) => Ok(v),
            Err(er) => Err(error_message(er)),
        }
    }
}

/// Scoping is lexical: applying a compound procedure evaluates its body in
/// a fresh frame whose enclosing environment is the one captured when the
/// procedure was made, never the environment at the call site.
pub proof fn lemma_apply_uses_creation_env(m: MemoryV, defn: SExprV, args: Seq<SExprV>, fuel: nat)
    requires
        read_list(m, defn) matches Some(parts) && parts.len() == 3,
        read_list(m, read_list(m, defn)->Some_0[0]) matches Some(ps) && ps.len() == args.len()
            && all_syms(ps),
        m.free.len() > 0,
    ensures
        ({
            let parts = read_list(m, defn)->Some_0;
            let ps = read_list(m, parts[0])->Some_0;
            let frame = EnvironmentV { bindings: bindings_of(ps, args), enclosing: parts[2] };
            let m1 = MemoryV {
                cells: m.cells.update(m.free[0], ObjectV::Env(frame)),
                free: m.free.drop_first(),
            };
            let (m2, rr) = eval_operands_spec(m1, parts[1], SExprV::Ref(m.free[0]), fuel);
            apply_compound_spec(m, defn, args, fuel) == (match rr {
                Err(e) => (m2, Err::<SExprV, EvalError>(e)),
                Ok(vs) => if vs.len() == 0 {
                    (m2, Err::<SExprV, EvalError>(EvalError::IllFormed))
                } else {
                    (m2, Ok::<SExprV, EvalError>(vs.last()))
                },
            })
        }),
{
}

/// Every value is an integer.
pub open spec fn all_ints(s: Seq<SExprV>) -> bool {
    forall|i: int| 0 <= i < s.len() ==> (#[trigger] s[i]) is Int
}

/// The mathematical sum of a sequence of integer values.
pub open spec fn sum_of(s: Seq<SExprV>) -> int
    decreases s.len(),
{
    if s.len() == 0 {
        0
    } else {
        s[0]->Int_0 + sum_of(s.drop_first())
    }
}

proof fn lemma_sum_cons(x: SExprV, t: Seq<SExprV>)
    ensures
        sum_of(seq![x] + t) == x->Int_0 + sum_of(t),
{
    assert((seq![x] + t).len() == 1 + t.len());
    assert((seq![x] + t)[0] == x);
    assert((seq![x] + t).drop_first() =~= t);
}

proof fn lemma_add_fold(acc: int, rest: Seq<SExprV>)
    requires
        all_ints(rest),
        i64::MIN <= acc <= i64::MAX,
        forall|k: int|
            0 <= k <= rest.len() ==> i64::MIN <= acc + sum_of(#[trigger] rest.take(k)) <= i64::MAX,
    ensures
        arith_fold(Primitive::Add, SExprV::Int(acc), rest) == Ok::<SExprV, EvalError>(
            SExprV::Int(acc + sum_of(rest)),
        ),
    decreases rest.len(),
{
    if rest.len() == 0 {
    } else {
        let x = rest[0]->Int_0;
        assert(rest.take(1) =~= seq![rest[0]]);
        assert(rest.take(1).drop_first() =~= Seq::<SExprV>::empty());
        assert(sum_of(Seq::<SExprV>::empty()) == 0);
        assert(sum_of(rest.take(1)) == x);
        assert(i64::MIN <= acc + x <= i64::MAX);
        assert(arith2(Primitive::Add, SExprV::Int(acc), rest[0]) == Ok::<SExprV, EvalError>(
            SExprV::Int(acc + x),
        ));
        let tail = rest.drop_first();
        assert forall|k: int|
            0 <= k <= tail.len() implies i64::MIN <= (acc + x) + sum_of(#[trigger] tail.take(k))
            <= i64::MAX by {
            assert(rest.take(k + 1) =~= seq![rest[0]] + tail.take(k));
            lemma_sum_cons(rest[0], tail.take(k));
        }
        lemma_add_fold(acc + x, tail);
        assert(rest.take(rest.len() as int) =~= rest);
        assert(rest =~= seq![rest[0]] + tail);
        lemma_sum_cons(rest[0], tail);
    }
}

/// The addition law: on integer arguments whose running sums stay within
/// the 64-bit signed range, `+` returns exactly their mathematical sum
/// (`(+)` alone is `Int(0)`).
pub proof fn lemma_addition_law(args: Seq<SExprV>)
    requires
        all_ints(args),
        forall|k: int|
            0 <= k <= args.len() ==> i64::MIN <= sum_of(#[trigger] args.take(k)) <= i64::MAX,
    ensures
        prim_spec(Primitive::Add, args) == Ok::<SExprV, EvalError>(SExprV::Int(sum_of(args))),
{
    lemma_add_fold(0, args);
}

/// Truthiness: `(if COND THEN ELSE)` evaluates `ELSE` exactly when `COND`
/// evaluated to `Bool(false)`; every other value of the condition,
/// including `Nil`, `0` and the empty string, selects `THEN`.
pub proof fn lemma_truthiness(m: MemoryV, rest: SExprV, env: SExprV, fuel: nat)
    requires
        read_list(m, rest) matches Some(elems) && elems.len() == 3,
    ensures
        ({
            let elems = read_list(m, rest)->Some_0;
            let (m1, r) = eval_spec(m, elems[0], env, fuel);
            (match r {
                Err(e) => eval_if_spec(m, rest, env, fuel) == (m1, Err::<SExprV, EvalError>(e)),
                Ok(c) => eval_if_spec(m, rest, env, fuel) == (if c == SExprV::Bool(false) {
                    eval_spec(m1, elems[2], env, fuel)
                } else {
                    eval_spec(m1, elems[1], env, fuel)
                }),
            })
        }),
{
}

/// Operands evaluate strictly left to right: with two operands, the second
/// is evaluated in the heap state the first produced, so their side effects
/// fire in operand order.
pub proof fn lemma_operand_order(m: MemoryV, e1: SExprV, e2: SExprV, env: SExprV, fuel: nat)
    ensures
        ({
            let (m1, r1) = eval_spec(m, e1, env, fuel);
            eval_list_spec(m, seq![e1, e2], env, fuel) == (match r1 {
                Err(er) => (m1, Err::<Seq<SExprV>, EvalError>(er)),
                Ok(v1) => ({
                    let (m2, r2) = eval_spec(m1, e2, env, fuel);
                    (match r2 {
                        Err(er) => (m2, Err::<Seq<SExprV>, EvalError>(er)),
                        Ok(v2) => (m2, Ok::<Seq<SExprV>, EvalError>(seq![v1, v2])),
                    })
                }),
            })
        }),
{
    reveal_with_fuel(eval_list_spec, 4);
    let s = seq![e1, e2];
    assert(s.drop_first() =~= seq![e2]);
    assert(seq![e2].drop_first() =~= Seq::<SExprV>::empty());
    let (m1, r1) = eval_spec(m, e1, env, fuel);
    if r1 is Ok {
        let (m2, r2) = eval_spec(m1, e2, env, fuel);
        if r2 is Ok {
            assert(seq![r2->Ok_0] + Seq::<SExprV>::empty() =~= seq![r2->Ok_0]);
            assert(seq![r1->Ok_0] + seq![r2->Ok_0] =~= seq![r1->Ok_0, r2->Ok_0]);
        }
    }
}

/// Reading a one-element list.
proof fn lemma_read_one(m: MemoryV, a: int, x: SExprV)
    requires
        0 <= a < m.cells.len(),
        m.cells[a] == ObjectV::Pair(x, SExprV::Nil),
    ensures
        read_list(m, SExprV::Ref(a)) == Some(seq![x]),
{
    reveal_with_fuel(crate::sexpr::read_list_rec, 3);
    assert(seq![x] + Seq::<SExprV>::empty() =~= seq![x]);
}

/// Reading a two-element list.
proof fn lemma_read_two(m: MemoryV, a: int, b: int, x: SExprV, y: SExprV)
    requires
        0 <= a < m.cells.len(),
        0 <= b < m.cells.len(),
        m.cells[a] == ObjectV::Pair(x, SExprV::Ref(b)),
        m.cells[b] == ObjectV::Pair(y, SExprV::Nil),
    ensures
        read_list(m, SExprV::Ref(a)) == Some(seq![x, y]),
{
    reveal_with_fuel(crate::sexpr::read_list_rec, 4);
    assert(a != b);
    assert(m.cells.len() >= 2);
    assert(seq![y] + Seq::<SExprV>::empty() =~= seq![y]);
    assert(seq![x] + seq![y] =~= seq![x, y]);
}

/// Reading a three-element list.
proof fn lemma_read_three(m: MemoryV, a: int, b: int, c: int, x: SExprV, y: SExprV, z: SExprV)
    requires
        0 <= a < m.cells.len(),
        0 <= b < m.cells.len(),
        0 <= c < m.cells.len(),
        m.cells[a] == ObjectV::Pair(x, SExprV::Ref(b)),
        m.cells[b] == ObjectV::Pair(y, SExprV::Ref(c)),
        m.cells[c] == ObjectV::Pair(z, SExprV::Nil),
    ensures
        read_list(m, SExprV::Ref(a)) == Some(seq![x, y, z]),
{
    reveal_with_fuel(crate::sexpr::read_list_rec, 5);
    assert(a != b && b != c && a != c);
    assert(m.cells.len() >= 3);
    assert(seq![z] + Seq::<SExprV>::empty() =~= seq![z]);
    assert(seq![y] + seq![z] =~= seq![y, z]);
    assert(seq![x] + seq![y, z] =~= seq![x, y, z]);
}

/// Building a three-element list takes the first three free cells.
proof fn lemma_alloc_three(m: MemoryV, x: SExprV, y: SExprV, z: SExprV)
    requires
        m.free.len() >= 3,
    ensures
        list_alloc(m, seq![x, y, z]) == Some(
            (
                MemoryV {
                    cells: m.cells.update(m.free[2], ObjectV::Pair(z, SExprV::Nil)).update(
                        m.free[1],
                        ObjectV::Pair(y, SExprV::Ref(m.free[2])),
                    ).update(m.free[0], ObjectV::Pair(x, SExprV::Ref(m.free[1]))),
                    free: m.free.skip(3),
                },
                SExprV::Ref(m.free[0]),
            ),
        ),
{
    reveal_with_fuel(crate::sexpr::list_alloc, 5);
    let s = seq![x, y, z];
    let m1 = MemoryV { cells: m.cells, free: m.free.drop_first() };
    let m2 = MemoryV { cells: m.cells, free: m1.free.drop_first() };
    let m3 = MemoryV { cells: m.cells, free: m2.free.drop_first() };
    assert(s.drop_first() =~= seq![y, z]);
    assert(seq![y, z].drop_first() =~= seq![z]);
    assert(seq![z].drop_first() =~= Seq::<SExprV>::empty());
    assert(m1.free[0] == m.free[1]);
    assert(m2.free[0] == m.free[2]);
    assert(m3.free =~= m.free.skip(3));
}

/// The name `x`.
pub open spec fn var_x() -> Seq<u8> {
    seq!['x' as u8]
}

/// Lexical scoping, end to end: in any well-formed heap holding the program
/// `(((lambda (x) (lambda () x)) V))` — an application of the inner
/// procedure that the outer application returns — evaluation yields `V`
/// itself, for every literal value `V` and in every environment. The inner
/// procedure has no parameters: `x` resolves through the frame captured
/// when it was made.
///
/// The cells: `t0` is the outer application `(F)`; `u0 u1` the inner
/// application `F = (lam1 V)`; `l0 l1 l2` the form `lam1 = (lambda (x)
/// lam2)`; `p0` its parameter list `(x)`; `k0 k1 k2` the form
/// `lam2 = (lambda () x)`, whose body list is `k2`.
#[verifier::rlimit(100)]
pub proof fn lemma_lexical_scoping(
    m: MemoryV,
    env: SExprV,
    v: SExprV,
    t0: int,
    u0: int,
    u1: int,
    l0: int,
    l1: int,
    l2: int,
    p0: int,
    k0: int,
    k1: int,
    k2: int,
    fuel: nat,
)
    requires
        mem_wf(m),
        m.free.len() >= 10,
        !(v is Sym),
        !(v is Ref),
        0 <= t0 < m.cells.len(),
        0 <= u0 < m.cells.len(),
        0 <= u1 < m.cells.len(),
        0 <= l0 < m.cells.len(),
        0 <= l1 < m.cells.len(),
        0 <= l2 < m.cells.len(),
        0 <= p0 < m.cells.len(),
        0 <= k0 < m.cells.len(),
        0 <= k1 < m.cells.len(),
        0 <= k2 < m.cells.len(),
        m.cells[t0] == ObjectV::Pair(SExprV::Ref(u0), SExprV::Nil),
        m.cells[u0] == ObjectV::Pair(SExprV::Ref(l0), SExprV::Ref(u1)),
        m.cells[u1] == ObjectV::Pair(v, SExprV::Nil),
        m.cells[l0] == ObjectV::Pair(SExprV::Sym(kw_lambda()), SExprV::Ref(l1)),
        m.cells[l1] == ObjectV::Pair(SExprV::Ref(p0), SExprV::Ref(l2)),
        m.cells[l2] == ObjectV::Pair(SExprV::Ref(k0), SExprV::Nil),
        m.cells[p0] == ObjectV::Pair(SExprV::Sym(var_x()), SExprV::Nil),
        m.cells[k0] == ObjectV::Pair(SExprV::Sym(kw_lambda()), SExprV::Ref(k1)),
        m.cells[k1] == ObjectV::Pair(SExprV::Nil, SExprV::Ref(k2)),
        m.cells[k2] == ObjectV::Pair(SExprV::Sym(var_x()), SExprV::Nil),
        fuel >= 4,
    ensures
        eval_spec(m, SExprV::Ref(t0), env, fuel).1 == Ok::<SExprV, EvalError>(v),
{
    crate::sexpr::lemma_free_len_bound(m);
    let len = m.cells.len() as int;
    let f0 = m.free[0];
    let f1 = m.free[1];
    let f2 = m.free[2];
    let f3 = m.free[3];
    let f4 = m.free[4];
    let f5 = m.free[5];
    let f6 = m.free[6];
    let f7 = m.free[7];
    let f8 = m.free[8];
    let f9 = m.free[9];
    assert(m.cells[f0] is Empty && m.cells[f1] is Empty && m.cells[f2] is Empty && m.cells[f3]
        is Empty && m.cells[f4] is Empty && m.cells[f5] is Empty && m.cells[f6] is Empty
        && m.cells[f7] is Empty && m.cells[f8] is Empty && m.cells[f9] is Empty);
    // The keywords are pairwise distinct where the dispatch needs it.
    assert(kw_lambda() != kw_quote() && kw_lambda() != kw_set() && kw_lambda() != kw_if()
        && kw_lambda() != kw_begin() && kw_lambda() != kw_cond()) by {
        assert(kw_lambda().len() == 6 && kw_quote().len() == 5 && kw_set().len() == 4 && kw_if().len()
            == 2 && kw_begin().len() == 5 && kw_cond().len() == 4);
    }
    assert(kw_lambda() != kw_define()) by {
        assert(kw_lambda()[0] == 'l' as u8 && kw_define()[0] == 'd' as u8);
    }
    // Evaluating `lam1` makes the first procedure: list cells at f0 f1 f2,
    // the record at f3.
    let mB = MemoryV {
        cells: m.cells.update(f2, ObjectV::Pair(env, SExprV::Nil)).update(
            f1,
            ObjectV::Pair(SExprV::Ref(l2), SExprV::Ref(f2)),
        ).update(f0, ObjectV::Pair(SExprV::Ref(p0), SExprV::Ref(f1))).update(
            f3,
            ObjectV::CompoundProcedure(SExprV::Ref(f0)),
        ),
        free: m.free.skip(4),
    };
    assert(make_procedure_spec(m, SExprV::Ref(p0), SExprV::Ref(l2), env) == (
        mB,
        Ok::<SExprV, EvalError>(SExprV::Ref(f3)),
    )) by {
        lemma_read_one(m, p0, SExprV::Sym(var_x()));
        assert(all_syms(seq![SExprV::Sym(var_x())]));
        lemma_alloc_three(m, SExprV::Ref(p0), SExprV::Ref(l2), env);
        let mA = MemoryV {
            cells: m.cells.update(f2, ObjectV::Pair(env, SExprV::Nil)).update(
                f1,
                ObjectV::Pair(SExprV::Ref(l2), SExprV::Ref(f2)),
            ).update(f0, ObjectV::Pair(SExprV::Ref(p0), SExprV::Ref(f1))),
            free: m.free.skip(3),
        };
        assert(mA.free.len() > 0);
        assert(mA.free[0] == f3);
        assert(mA.free.drop_first() =~= m.free.skip(4));
        assert(mB =~= MemoryV {
            cells: mA.cells.update(mA.free[0], ObjectV::CompoundProcedure(SExprV::Ref(f0))),
            free: mA.free.drop_first(),
        });
    }
    let fl1 = (fuel - 1) as nat;
    let fl2 = (fuel - 2) as nat;
    assert(eval_spec(m, SExprV::Ref(l0), env, fl2) == (mB, Ok::<SExprV, EvalError>(SExprV::Ref(f3))))
        by {
        lemma_read_two(m, l1, l2, SExprV::Ref(p0), SExprV::Ref(k0));
        assert(eval_lambda_spec(m, SExprV::Ref(l1), env) == make_procedure_spec(
            m,
            SExprV::Ref(p0),
            SExprV::Ref(l2),
            env,
        ));
    }
    // The operand `V` of the inner application evaluates to itself.
    assert(eval_operands_spec(mB, SExprV::Ref(u1), env, fl2) == (
        mB,
        Ok::<Seq<SExprV>, EvalError>(seq![v]),
    )) by {
        assert(mB.cells[u1] == m.cells[u1]);
        lemma_read_one(mB, u1, v);
        lemma_atoms_self_evaluate(mB, v, env, fl2);
        assert(seq![v] + Seq::<SExprV>::empty() =~= seq![v]);
    }
    // Applying the first procedure: a frame binding `x` to `V` at f4, then
    // the body builds the second procedure: cells f5 f6 f7, record at f8.
    let frame1 = EnvironmentV {
        bindings: Map::<Seq<u8>, SExprV>::empty().insert(var_x(), v),
        enclosing: env,
    };
    let mC = MemoryV {
        cells: mB.cells.update(f4, ObjectV::Env(frame1)),
        free: m.free.skip(5),
    };
    let frame2 = EnvironmentV {
        bindings: Map::<Seq<u8>, SExprV>::empty(),
        enclosing: SExprV::Ref(f4),
    };
    let mE = MemoryV {
        cells: mC.cells.update(f7, ObjectV::Pair(SExprV::Ref(f4), SExprV::Nil)).update(
            f6,
            ObjectV::Pair(SExprV::Ref(k2), SExprV::Ref(f7)),
        ).update(f5, ObjectV::Pair(SExprV::Nil, SExprV::Ref(f6))).update(
            f8,
            ObjectV::CompoundProcedure(SExprV::Ref(f5)),
        ),
        free: m.free.skip(9),
    };
    assert(eval_spec(mC, SExprV::Ref(k0), SExprV::Ref(f4), fl2) == (
        mE,
        Ok::<SExprV, EvalError>(SExprV::Ref(f8)),
    )) by {
        assert(mC.cells[k0] == m.cells[k0]);
        assert(mC.cells[k1] == m.cells[k1]);
        assert(mC.cells[k2] == m.cells[k2]);
        lemma_read_two(mC, k1, k2, SExprV::Nil, SExprV::Sym(var_x()));
        reveal_with_fuel(crate::sexpr::read_list_rec, 2);
        assert(read_list(mC, SExprV::Nil) == Some(Seq::<SExprV>::empty()));
        assert(all_syms(Seq::<SExprV>::empty()));
        lemma_alloc_three(mC, SExprV::Nil, SExprV::Ref(k2), SExprV::Ref(f4));
        assert(mC.free[0] == f5 && mC.free[1] == f6 && mC.free[2] == f7);
        let mD = MemoryV {
            cells: mC.cells.update(f7, ObjectV::Pair(SExprV::Ref(f4), SExprV::Nil)).update(
                f6,
                ObjectV::Pair(SExprV::Ref(k2), SExprV::Ref(f7)),
            ).update(f5, ObjectV::Pair(SExprV::Nil, SExprV::Ref(f6))),
            free: m.free.skip(8),
        };
        assert(list_alloc(mC, seq![SExprV::Nil, SExprV::Ref(k2), SExprV::Ref(f4)]) == Some(
            (mD, SExprV::Ref(f5)),
        )) by {
            assert(mC.free.skip(3) =~= m.free.skip(8));
        }
        assert(mD.free.len() > 0 && mD.free[0] == f8);
        assert(mD.free.drop_first() =~= m.free.skip(9));
        assert(make_procedure_spec(mC, SExprV::Nil, SExprV::Ref(k2), SExprV::Ref(f4)) == (
            mE,
            Ok::<SExprV, EvalError>(SExprV::Ref(f8)),
        )) by {
            assert(mE =~= MemoryV {
                cells: mD.cells.update(mD.free[0], ObjectV::CompoundProcedure(SExprV::Ref(f5))),
                free: mD.free.drop_first(),
            });
        }
        assert(eval_lambda_spec(mC, SExprV::Ref(k1), SExprV::Ref(f4)) == make_procedure_spec(
            mC,
            SExprV::Nil,
            SExprV::Ref(k2),
            SExprV::Ref(f4),
        ));
    }
    // The inner application `(lam1 V)` altogether.
    assert(eval_spec(m, SExprV::Ref(u0), env, fl1) == (mE, Ok::<SExprV, EvalError>(SExprV::Ref(f8))))
        by {
        assert(eval_application_spec(m, SExprV::Ref(l0), SExprV::Ref(u1), env, fl2) == (
            mE,
            Ok::<SExprV, EvalError>(SExprV::Ref(f8)),
        )) by {
            assert(mB.cells[f3] == ObjectV::CompoundProcedure(SExprV::Ref(f0)));
            assert(apply_compound_spec(mB, SExprV::Ref(f0), seq![v], fl2) == (
                mE,
                Ok::<SExprV, EvalError>(SExprV::Ref(f8)),
            )) by {
                assert(mB.cells[f0] == ObjectV::Pair(SExprV::Ref(p0), SExprV::Ref(f1)));
                assert(mB.cells[f1] == ObjectV::Pair(SExprV::Ref(l2), SExprV::Ref(f2)));
                assert(mB.cells[f2] == ObjectV::Pair(env, SExprV::Nil));
                lemma_read_three(mB, f0, f1, f2, SExprV::Ref(p0), SExprV::Ref(l2), env);
                assert(mB.cells[p0] == m.cells[p0]);
                lemma_read_one(mB, p0, SExprV::Sym(var_x()));
                assert(all_syms(seq![SExprV::Sym(var_x())]));
                assert(mB.free.len() > 0 && mB.free[0] == f4);
                assert(bindings_of(seq![SExprV::Sym(var_x())], seq![v]) =~= Map::<
                    Seq<u8>,
                    SExprV,
                >::empty().insert(var_x(), v)) by {
                    reveal_with_fuel(bindings_of, 3);
                    assert(seq![SExprV::Sym(var_x())].drop_last() =~= Seq::<SExprV>::empty());
                    assert(seq![v].drop_last() =~= Seq::<SExprV>::empty());
                }
                assert(mC =~= MemoryV {
                    cells: mB.cells.update(mB.free[0], ObjectV::Env(frame1)),
                    free: mB.free.drop_first(),
                }) by {
                    assert(mB.free.drop_first() =~= m.free.skip(5));
                }
                // body `(lam2)` evaluates to the second procedure
                assert(eval_operands_spec(mC, SExprV::Ref(l2), SExprV::Ref(f4), fl2) == (
                    mE,
                    Ok::<Seq<SExprV>, EvalError>(seq![SExprV::Ref(f8)]),
                )) by {
                    assert(mC.cells[l2] == m.cells[l2]);
                    lemma_read_one(mC, l2, SExprV::Ref(k0));
                    assert(seq![SExprV::Ref(k0)].drop_first() =~= Seq::<SExprV>::empty());
                    assert(seq![SExprV::Ref(f8)] + Seq::<SExprV>::empty() =~= seq![
                        SExprV::Ref(f8),
                    ]);
                }
                assert(seq![SExprV::Ref(f8)].last() == SExprV::Ref(f8));
            }
            assert(seq![v].drop_first() =~= Seq::<SExprV>::empty());
            assert(seq![v] + Seq::<SExprV>::empty() =~= seq![v]);
        }
    }
    // The outer application `(F)`: apply the second procedure to no
    // arguments; its body resolves `x` through the captured frame.
    let mF = MemoryV {
        cells: mE.cells.update(f9, ObjectV::Env(frame2)),
        free: m.free.skip(10),
    };
    assert(apply_compound_spec(mE, SExprV::Ref(f5), Seq::<SExprV>::empty(), fl1) == (
        mF,
        Ok::<SExprV, EvalError>(v),
    )) by {
        assert(mE.cells[f5] == ObjectV::Pair(SExprV::Nil, SExprV::Ref(f6)));
        assert(mE.cells[f6] == ObjectV::Pair(SExprV::Ref(k2), SExprV::Ref(f7)));
        assert(mE.cells[f7] == ObjectV::Pair(SExprV::Ref(f4), SExprV::Nil));
        lemma_read_three(mE, f5, f6, f7, SExprV::Nil, SExprV::Ref(k2), SExprV::Ref(f4));
        reveal_with_fuel(crate::sexpr::read_list_rec, 2);
        assert(read_list(mE, SExprV::Nil) == Some(Seq::<SExprV>::empty()));
        assert(all_syms(Seq::<SExprV>::empty()));
        assert(mE.free.len() > 0 && mE.free[0] == f9);
        assert(bindings_of(Seq::<SExprV>::empty(), Seq::<SExprV>::empty()) =~= Map::<
            Seq<u8>,
            SExprV,
        >::empty()) by {
            reveal_with_fuel(bindings_of, 2);
        }
        assert(mF =~= MemoryV {
            cells: mE.cells.update(mE.free[0], ObjectV::Env(frame2)),
            free: mE.free.drop_first(),
        }) by {
            assert(mE.free.drop_first() =~= m.free.skip(10));
        }
        // body `(x)` looks `x` up: not in frame2, found in frame1.
        assert(eval_operands_spec(mF, SExprV::Ref(k2), SExprV::Ref(f9), fl1) == (
            mF,
            Ok::<Seq<SExprV>, EvalError>(seq![v]),
        )) by {
            assert(mF.cells[k2] == m.cells[k2]);
            lemma_read_one(mF, k2, SExprV::Sym(var_x()));
            assert(env_lookup(mF, SExprV::Ref(f9), var_x()) == Some(v)) by {
                reveal_with_fuel(env_lookup_rec, 3);
                assert(mF.cells[f9] == ObjectV::Env(frame2));
                assert(mF.cells[f4] == ObjectV::Env(frame1));
                assert(!frame2.bindings.contains_key(var_x()));
                assert(frame1.bindings.contains_key(var_x()) && frame1.bindings[var_x()] == v);
                assert(mF.cells.len() >= 1);
            }
            assert(seq![SExprV::Sym(var_x())].drop_first() =~= Seq::<SExprV>::empty());
            assert(seq![v] + Seq::<SExprV>::empty() =~= seq![v]);
        }
        assert(seq![v].last() == v);
    }
    assert(eval_operands_spec(mE, SExprV::Nil, env, fl1) == (
        mE,
        Ok::<Seq<SExprV>, EvalError>(Seq::<SExprV>::empty()),
    )) by {
        reveal_with_fuel(crate::sexpr::read_list_rec, 2);
        assert(read_list(mE, SExprV::Nil) == Some(Seq::<SExprV>::empty()));
    }
    assert(mE.cells[f8] == ObjectV::CompoundProcedure(SExprV::Ref(f5)));
    assert(eval_application_spec(m, SExprV::Ref(u0), SExprV::Nil, env, fl1) == (
        mF,
        Ok::<SExprV, EvalError>(v),
    ));
    assert(eval_spec(m, SExprV::Ref(t0), env, fuel) == (mF, Ok::<SExprV, EvalError>(v)));
}

/// Atoms evaluate to themselves: for every value that is not a symbol and
/// not a reference, evaluation returns it unchanged and leaves the heap as
/// it was, whatever the environment and the depth budget.
pub proof fn lemma_atoms_self_evaluate(m: MemoryV, e: SExprV, env: SExprV, fuel: nat)
    requires
        !(e is Sym),
        !(e is Ref),
    ensures
        eval_spec(m, e, env, fuel) == (m, Ok::<SExprV, EvalError>(e)),
{
}

} // verus!
