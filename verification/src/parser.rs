//! The parser: tokens to s-expressions, materializing compound forms as
//! chains of pair cells in the heap.
use crate::scanner::{lex, lines_view, pairs_tokens, tokens_view, ParseError, Token, TokenV};
use crate::sexpr::{
    clone_bytes, grounded, list_alloc, preserves, seq_view, Memory, MemoryV, SExpr, SExprV,
};
use vstd::prelude::*;

verus! {

/// The kinds of syntactic error.
#[derive(Debug, PartialEq, Eq, Clone, Copy, Structural)]
pub enum ParseFault {
    /// No token where an expression was expected.
    EmptyExpression,
    /// A form that never closes.
    MissingClose,
    /// A stray closing parenthesis.
    UnexpectedClose,
    /// The heap ran out of cells for the pair spine.
    OutOfMemory,
    /// The parser's step budget ran out (it never does: every parsed
    /// expression consumes at least one token).
    Stuck,
}

/// What a syntactic fault reads as.
pub open spec fn pfault_text(f: ParseFault) -> Seq<char> {
    match f {
        ParseFault::EmptyExpression => "Empty expression"@,
        ParseFault::MissingClose => "Missing closing parenthesis"@,
        ParseFault::UnexpectedClose => "Unexpected closing parenthesis"@,
        ParseFault::OutOfMemory => "Out of memory"@,
        ParseFault::Stuck => "Parser made no progress"@,
    }
}

/// The static message of a syntactic fault.
pub fn pfault_message(f: ParseFault) -> (r: &'static str)
    ensures
        r@ == pfault_text(f),
{
    match f {
        ParseFault::EmptyExpression => "Empty expression",
        ParseFault::MissingClose => "Missing closing parenthesis",
        ParseFault::UnexpectedClose => "Unexpected closing parenthesis",
        ParseFault::OutOfMemory => "Out of memory",
        ParseFault::Stuck => "Parser made no progress",
    }
}

/// Parse one expression at token `i`: an atom token becomes its value, `()`
/// becomes `Nil`, and a parenthesized form becomes a proper list in the
/// heap. Returns the value and the next token position; a fault carries the
/// token position it was found at.
pub open spec fn parse_expr_spec(m: MemoryV, toks: Seq<TokenV>, i: int, fuel: nat) -> (
    MemoryV,
    Result<(SExprV, int), (ParseFault, int)>,
)
    decreases fuel, 0nat,
{
    if fuel == 0 {
        (m, Err((ParseFault::Stuck, i)))
    } else if i >= toks.len() {
        (m, Err((ParseFault::EmptyExpression, i)))
    } else {
        match toks[i] {
            TokenV::Int(x) => (m, Ok((SExprV::Int(x), i + 1))),
            TokenV::Float(x) => (m, Ok((SExprV::Float(x), i + 1))),
            TokenV::Bool(b) => (m, Ok((SExprV::Bool(b), i + 1))),
            TokenV::Str(s) => (m, Ok((SExprV::Str(s), i + 1))),
            TokenV::Symbol(s) => (m, Ok((SExprV::Sym(s), i + 1))),
            TokenV::ClosedParen => (m, Err((ParseFault::UnexpectedClose, i))),
            TokenV::OpenParen => if i + 1 >= toks.len() {
                (m, Err((ParseFault::MissingClose, i + 1)))
            } else if toks[i + 1] == TokenV::ClosedParen {
                (m, Ok((SExprV::Nil, i + 2)))
            } else {
                let (m1, elems, j) = parse_seq_spec(m, toks, i + 1, (fuel - 1) as nat);
                if j < toks.len() && toks[j] == TokenV::ClosedParen {
                    match list_alloc(m1, elems) {
                        None => (m1, Err((ParseFault::OutOfMemory, j))),
                        Some((m2, v)) => (m2, Ok((v, j + 1))),
                    }
                } else {
                    (m1, Err((ParseFault::MissingClose, j)))
                }
            },
        }
    }
}

/// Parse expressions until one fails, returning the values parsed and the
/// position after them; the cells a failed attempt allocated stay allocated.
pub open spec fn parse_seq_spec(m: MemoryV, toks: Seq<TokenV>, i: int, fuel: nat) -> (
    MemoryV,
    Seq<SExprV>,
    int,
)
    decreases fuel, 1nat,
{
    if fuel == 0 {
        (m, Seq::empty(), i)
    } else {
        let (m1, r) = parse_expr_spec(m, toks, i, fuel);
        match r {
            Err(_) => (m1, Seq::empty(), i),
            Ok((v, j)) => {
                let (m2, vs, k) = parse_seq_spec(m1, toks, j, (fuel - 1) as nat);
                (m2, seq![v] + vs, k)
            },
        }
    }
}

fn parse_expr_exec(mem: &mut Memory, toks: &Vec<Token>, i: usize, fuel: u128) -> (r: Result<
    (SExpr, usize),
    (ParseFault, usize),
>)
    requires
        old(mem).wf(),
    ensures
        final(mem).wf(),
        preserves(old(mem)@, final(mem)@),
        ({
            let (m2, rr) = parse_expr_spec(old(mem)@, tokens_view(toks@), i as int, fuel as nat);
            final(mem)@ == m2 && (match (r, rr) {
                (Ok(p), Ok(q)) => p.0@ == q.0 && p.1 as int == q.1 && i < p.1 <= toks@.len()
                    && grounded(final(mem)@, p.0@),
                (Err(a), Err(b)) => a.0 == b.0 && a.1 as int == b.1,
                _ => false,
            })
        }),
    decreases fuel, 0nat,
{
    if fuel == 0 {
        return Err((ParseFault::Stuck, i));
    }
    if i >= toks.len() {
        return Err((ParseFault::EmptyExpression, i));
    }
    proof {
        assert(tokens_view(toks@)[i as int] == toks@[i as int]@);
    }
    match &toks[i] {
        Token::Int(x) => Ok((SExpr::Int(*x), i + 1)),
        Token::Float(x) => Ok((SExpr::Float(*x), i + 1)),
        Token::Bool(b) => Ok((SExpr::Bool(*b), i + 1)),
        Token::Str(s) => Ok((SExpr::Str(clone_bytes(s)), i + 1)),
        Token::Symbol(s) => Ok((SExpr::Sym(clone_bytes(s)), i + 1)),
        Token::ClosedParen => Err((ParseFault::UnexpectedClose, i)),
        Token::OpenParen => {
            if i + 1 >= toks.len() {
                return Err((ParseFault::MissingClose, i + 1));
            }
            proof {
                assert(tokens_view(toks@)[i as int + 1] == toks@[i as int + 1]@);
            }
            let next_close = match &toks[i + 1] {
                Token::ClosedParen => true,
                _ => false,
            };
            if next_close {
                return Ok((SExpr::Nil, i + 2));
            }
            let (elems, j) = parse_seq_exec(mem, toks, i + 1, fuel - 1);
            let at_close = j < toks.len() && (match &toks[j] {
                Token::ClosedParen => true,
                _ => false,
            });
            proof {
                if j < toks@.len() {
                    assert(tokens_view(toks@)[j as int] == toks@[j as int]@);
                }
            }
            if at_close {
                match mem.list_from_vec(elems) {
                    Ok(v) => Ok((v, j + 1)),
                    Err(()) => Err((ParseFault::OutOfMemory, j)),
                }
            } else {
                Err((ParseFault::MissingClose, j))
            }
        },
    }
}

fn parse_seq_exec(mem: &mut Memory, toks: &Vec<Token>, i: usize, fuel: u128) -> (r: (
    Vec<SExpr>,
    usize,
))
    requires
        old(mem).wf(),
    ensures
        final(mem).wf(),
        preserves(old(mem)@, final(mem)@),
        ({
            let (m2, vs, k) = parse_seq_spec(old(mem)@, tokens_view(toks@), i as int, fuel as nat);
            final(mem)@ == m2 && seq_view(r.0@) == vs && r.1 as int == k
        }),
        i <= r.1,
        r.1 <= toks@.len() || r.1 == i,
        forall|q: int| 0 <= q < r.0@.len() ==> grounded(final(mem)@, #[trigger] r.0@[q]@),
    decreases fuel, 1nat,
{
    if fuel == 0 {
        let empty: Vec<SExpr> = Vec::new();
        proof {
            assert(seq_view(empty@) =~= Seq::<SExprV>::empty());
        }
        return (empty, i);
    }
    let ghost m0 = mem@;
    match parse_expr_exec(mem, toks, i, fuel) {
        Err(_) => {
            let empty: Vec<SExpr> = Vec::new();
            proof {
                assert(seq_view(empty@) =~= Seq::<SExprV>::empty());
            }
            (empty, i)
        },
        Ok((v, j)) => {
            let ghost m_mid = mem@;
            let (mut vs, k) = parse_seq_exec(mem, toks, j, fuel - 1);
            let ghost tail = vs@;
            vs.insert(0, v);
            proof {
                assert(seq_view(vs@) =~= seq![vs@[0]@] + seq_view(tail));
                crate::sexpr::lemma_preserves_grounded(m_mid, mem@, vs@[0]@);
                assert forall|q: int|
                    0 <= q < vs@.len() implies grounded(mem@, #[trigger] vs@[q]@) by {
                    if q > 0 {
                        assert(vs@[q] == tail[q - 1]);
                    }
                }
            }
            (vs, k)
        },
    }
}

/// The parser: a token sequence, the line each token starts on, and the
/// current position.
pub struct Parser {
    tokens: Vec<Token>,
    lines: Vec<usize>,
    current: usize,
}

/// The mathematical shape of a parser.
#[verifier::ext_equal]
pub struct ParserV {
    pub toks: Seq<TokenV>,
    pub lines: Seq<int>,
    pub at: int,
}

impl View for Parser {
    type V = ParserV;

    closed spec fn view(&self) -> ParserV {
        ParserV {
            toks: tokens_view(self.tokens@),
            lines: lines_view(self.lines@),
            at: self.current as int,
        }
    }
}

/// The line of the token at position `p`: past the last token it is the
/// last token's line, and without line information it is 1.
pub open spec fn line_at(lines: Seq<int>, p: int) -> int {
    if lines.len() == 0 {
        1
    } else if 0 <= p < lines.len() {
        lines[p]
    } else {
        lines[lines.len() - 1]
    }
}

fn line_at_exec(lines: &Vec<usize>, p: usize) -> (r: usize)
    ensures
        r as int == line_at(lines_view(lines@), p as int),
{
    if lines.len() == 0 {
        1
    } else if p < lines.len() {
        lines[p]
    } else {
        lines[lines.len() - 1]
    }
}

/// The step budget that parsing a token sequence needs: one per nesting
/// level and one per expression, with room to spare.
pub open spec fn parse_fuel(toks: Seq<TokenV>) -> nat {
    (2 * toks.len() + 2) as nat
}

impl Parser {
    /// A parser over `tokens`, at the first one, without line information
    /// (errors then report line 1).
    pub fn new(tokens: Vec<Token>) -> (r: Parser)
        ensures
            r@.toks == tokens_view(tokens@),
            r@.lines == Seq::<int>::empty(),
            r@.at == 0,
    {
        let r = Parser { tokens, lines: Vec::new(), current: 0 };
        proof {
            assert(lines_view(r.lines@) =~= Seq::<int>::empty());
        }
        r
    }

    /// A parser over `tokens`, at the first one, with the line each token
    /// starts on (as the scanner hands them out); parse errors then carry
    /// the line of the token they were found at.
    pub fn with_lines(tokens: Vec<Token>, lines: Vec<usize>) -> (r: Parser)
        ensures
            r@.toks == tokens_view(tokens@),
            r@.lines == lines_view(lines@),
            r@.at == 0,
    {
        Parser { tokens, lines, current: 0 }
    }

    /// Parse one expression into the heap; tokens after it are ignored. A
    /// parse error carries the line of the token it was found at (at the
    /// end of the input, the last token's line).
    pub fn parse(self, mem: &mut Memory) -> (r: Result<SExpr, ParseError>)
        requires
            old(mem).wf(),
        ensures
            final(mem).wf(),
            preserves(old(mem)@, final(mem)@),
            ({
                let (m2, rr) = parse_expr_spec(old(mem)@, self@.toks, self@.at, parse_fuel(
                    self@.toks,
                ));
                final(mem)@ == m2 && (match (r, rr) {
                    (Ok(v), Ok(q)) => v@ == q.0 && grounded(final(mem)@, v@),
                    (Err(e), Err(f)) => e.message@ == pfault_text(f.0) && e.line as int == line_at(
                        self@.lines,
                        f.1,
                    ),
                    _ => false,
                })
            }),
    {
        let n = self.tokens.len();
        let fuel: u128 = 2 * (n as u128) + 2;
        match parse_expr_exec(mem, &self.tokens, self.current, fuel) {
            Ok((v, _j)) => Ok(v),
            Err((f, p)) => Err(
                ParseError { message: pfault_message(f), line: line_at_exec(&self.lines, p) },
            ),
        }
    }
}

/// The print/scan/parse round trip for integers: the printed decimal text
/// of any 64-bit integer scans to one integer token, and parsing it yields
/// the same integer value with the heap untouched. This is the fragment of
/// the round-trip law the crate can state: booleans and strings print as
/// bare words that re-scan as symbols, and no trusted item ties the float
/// printer to the float reader.
pub proof fn lemma_int_print_parse_round_trip(m: MemoryV, i: i64, lex_fuel: nat, parse_fuel: nat)
    requires
        lex_fuel >= 1,
        parse_fuel >= 1,
    ensures
        ({
            let lexed = lex(crate::sexpr::int_text(i as int), 0, 1, lex_fuel);
            lexed matches Ok(ps) && parse_expr_spec(m, pairs_tokens(ps), 0, parse_fuel) == (
                m,
                Ok::<(SExprV, int), (ParseFault, int)>((SExprV::Int(i as int), 1)),
            )
        }),
{
    crate::scanner::lemma_int_print_scan_round_trip(i, lex_fuel);
    let ps = seq![(TokenV::Int(i as int), 1int)];
    assert(pairs_tokens(ps) =~= seq![TokenV::Int(i as int)]);
    assert(pairs_tokens(ps)[0] == TokenV::Int(i as int));
}

} // verus!