//! The scanner: source text to tokens, specified by a functional lexer over
//! the byte sequence of the source.
use crate::numerics::{bits_of_decimal, f64_parse};
use crate::sexpr::{int_text, nat_text};
use vstd::prelude::*;
use vstd::string::StringSliceAdditionalSpecFns;

verus! {

/// A lexical token. `Float` carries the IEEE-754 binary64 bit pattern;
/// `Str` and `Symbol` carry the bytes of their text.
#[derive(Debug, PartialEq)]
pub enum Token {
    OpenParen,
    ClosedParen,
    Int(i64),
    Float(u64),
    Bool(bool),
    Str(Vec<u8>),
    Symbol(Vec<u8>),
}

/// The mathematical shape of a token.
#[verifier::ext_equal]
pub enum TokenV {
    OpenParen,
    ClosedParen,
    Int(int),
    Float(u64),
    Bool(bool),
    Str(Seq<u8>),
    Symbol(Seq<u8>),
}

impl View for Token {
    type V = TokenV;

    open spec fn view(&self) -> TokenV {
        match self {
            Token::OpenParen => TokenV::OpenParen,
            Token::ClosedParen => TokenV::ClosedParen,
            Token::Int(i) => TokenV::Int(*i as int),
            Token::Float(b) => TokenV::Float(*b),
            Token::Bool(b) => TokenV::Bool(*b),
            Token::Str(s) => TokenV::Str(s@),
            Token::Symbol(s) => TokenV::Symbol(s@),
        }
    }
}

/// The views of a sequence of tokens.
pub open spec fn tokens_view(s: Seq<Token>) -> Seq<TokenV> {
    s.map_values(|t: Token| t@)
}

/// The tokens of a lexed sequence of (token, line) pairs.
pub open spec fn pairs_tokens(ps: Seq<(TokenV, int)>) -> Seq<TokenV> {
    ps.map_values(|p: (TokenV, int)| p.0)
}

/// The lines of a lexed sequence of (token, line) pairs.
pub open spec fn pairs_lines(ps: Seq<(TokenV, int)>) -> Seq<int> {
    ps.map_values(|p: (TokenV, int)| p.1)
}

/// The view of a vector of line numbers.
pub open spec fn lines_view(ls: Seq<usize>) -> Seq<int> {
    ls.map_values(|u: usize| u as int)
}

/// A lexical or syntactic error: a static message and the line it was found
/// on.
#[derive(Debug)]
pub struct ParseError {
    pub message: &'static str,
    pub line: usize,
}

/// The kinds of lexical error.
#[derive(Debug, PartialEq, Eq, Clone, Copy, Structural)]
pub enum ScanFault {
    /// A string literal with no closing quote on its line.
    MissingQuote,
    /// A quote inside a numeric atom.
    UnexpectedQuote,
    /// An opening parenthesis inside an atom.
    OpenParenInAtom,
    /// `#` at the end of the input.
    ExpectedChar,
    /// More characters after `#t` or `#f`.
    CharAfterBool,
    /// `#` followed by anything but `t` or `f`.
    CharAfterHash,
    /// An integer numeral outside the 64-bit signed range.
    IntOutOfRange,
    /// A numeric atom the decimal reader rejects; the lexer only hands it
    /// atoms of the float grammar, which it accepts, so this does not
    /// arise.
    MalformedNumber,
    /// The lexer's step budget ran out (it never does: each step consumes
    /// at least one byte).
    Stuck,
}

/// What a lexical fault reads as.
pub open spec fn fault_text(f: ScanFault) -> Seq<char> {
    match f {
        ScanFault::MissingQuote => "Missing quote '\"'"@,
        ScanFault::UnexpectedQuote => "Unexpected quote '\"'"@,
        ScanFault::OpenParenInAtom => "Found illegal opening paren '(' in atom"@,
        ScanFault::ExpectedChar => "expected char"@,
        ScanFault::CharAfterBool => "unexpected char after '#' 1"@,
        ScanFault::CharAfterHash => "unexpected char after '#' 2"@,
        ScanFault::IntOutOfRange => "Integer out of range"@,
        ScanFault::MalformedNumber => "Malformed number"@,
        ScanFault::Stuck => "Scanner made no progress"@,
    }
}

/// The static message of a lexical fault.
pub fn fault_message(f: ScanFault) -> (r: &'static str)
    ensures
        r@ == fault_text(f),
{
    match f {
        ScanFault::MissingQuote => "Missing quote '\"'",
        ScanFault::UnexpectedQuote => "Unexpected quote '\"'",
        ScanFault::OpenParenInAtom => "Found illegal opening paren '(' in atom",
        ScanFault::ExpectedChar => "expected char",
        ScanFault::CharAfterBool => "unexpected char after '#' 1",
        ScanFault::CharAfterHash => "unexpected char after '#' 2",
        ScanFault::IntOutOfRange => "Integer out of range",
        ScanFault::MalformedNumber => "Malformed number",
        ScanFault::Stuck => "Scanner made no progress",
    }
}

/// Whether a character separates tokens: space, newline, carriage return,
/// or tab.
pub fn is_whitespace(ch: char) -> (r: bool)
    ensures
        r == (ch == ' ' || ch == '\n' || ch == '\r' || ch == '\t'),
{
    (ch == ' ') || (ch == '\n') || (ch == '\r') || (ch == '\t')
}

/// Whether a character is an ASCII decimal digit.
pub fn is_numeric(ch: char) -> (r: bool)
    ensures
        r == ('0' as u32 <= ch as u32 && ch as u32 <= '9' as u32),
{
    (ch >= '0') && (ch <= '9')
}

/// Whitespace: space, newline, carriage return, tab.
pub open spec fn is_ws(b: u8) -> bool {
    b == ' ' as u8 || b == '\n' as u8 || b == '\r' as u8 || b == '\t' as u8
}

/// An ASCII decimal digit.
pub open spec fn is_digit(b: u8) -> bool {
    '0' as u8 <= b <= '9' as u8
}

/// Whether the atom at `i` continues: not at the end, not whitespace, not a
/// closing parenthesis.
pub open spec fn more(src: Seq<u8>, i: int) -> bool {
    i < src.len() && !is_ws(src[i]) && src[i] != ')' as u8
}

/// The value of a run of decimal digit bytes, most significant first.
pub open spec fn digits_val(s: Seq<u8>) -> int
    decreases s.len(),
{
    if s.len() == 0 {
        0
    } else {
        digits_val(s.drop_last()) * 10 + (s.last() - '0' as u8)
    }
}

/// Every byte is an ASCII decimal digit.
pub open spec fn all_digits(ds: Seq<u8>) -> bool {
    forall|k: int| 0 <= k < ds.len() ==> is_digit(#[trigger] ds[k])
}

/// The 64-bit signed value of a decimal numeral `[+-]?digits`, `None` when
/// the shape is wrong or the value does not fit.
pub open spec fn int_of_decimal(s: Seq<u8>) -> Option<int> {
    let (neg, ds) = if s.len() > 0 && (s[0] == '+' as u8 || s[0] == '-' as u8) {
        (s[0] == '-' as u8, s.drop_first())
    } else {
        (false, s)
    };
    if ds.len() == 0 || !all_digits(ds) {
        None
    } else {
        let v = if neg {
            -digits_val(ds)
        } else {
            digits_val(ds)
        };
        if i64::MIN <= v <= i64::MAX {
            Some(v)
        } else {
            None
        }
    }
}

/// All-digit runs only grow as digits are appended.
proof fn lemma_digits_val_grows(s: Seq<u8>, j: int)
    requires
        0 <= j <= s.len(),
        forall|k: int| 0 <= k < s.len() ==> is_digit(#[trigger] s[k]),
    ensures
        digits_val(s) >= digits_val(s.take(j)),
        digits_val(s) >= 0,
    decreases s.len(),
{
    if s.len() == 0 {
        assert(s.take(j) =~= s);
    } else {
        let sp = s.drop_last();
        assert(forall|k: int| 0 <= k < sp.len() ==> is_digit(#[trigger] sp[k]));
        lemma_digits_val_grows(sp, if j <= sp.len() {
            j
        } else {
            sp.len() as int
        });
        if j <= sp.len() {
            assert(sp.take(j) =~= s.take(j));
        } else {
            assert(s.take(j) =~= s);
        }
    }
}

/// The digits of a run, executably.
fn parse_int_bytes(s: &[u8]) -> (r: Option<i64>)
    ensures
        ({
            let sp = int_of_decimal(s@);
            match r {
                Some(v) => sp == Some(v as int),
                None => sp is None,
            }
        }),
{
    let n = s.len();
    let mut i: usize = 0;
    let mut neg = false;
    if n > 0 && (s[0] == '+' as u8 || s[0] == '-' as u8) {
        neg = s[0] == '-' as u8;
        i = 1;
    }
    let ghost ds = if s@.len() > 0 && (s@[0] == '+' as u8 || s@[0] == '-' as u8) {
        s@.drop_first()
    } else {
        s@
    };
    let start = i;
    if i == n {
        return None;
    }
    let mut acc: u64 = 0;
    while i < n
        invariant
            start <= i <= n,
            n == s@.len(),
            start == (if s@.len() > 0 && (s@[0] == '+' as u8 || s@[0] == '-' as u8) {
                1int
            } else {
                0int
            }),
            ds == (if s@.len() > 0 && (s@[0] == '+' as u8 || s@[0] == '-' as u8) {
                s@.drop_first()
            } else {
                s@
            }),
            ds.len() == n - start,
            forall|k: int| 0 <= k < ds.len() ==> #[trigger] ds[k] == s@[k + start],
            forall|k: int| 0 <= k < i - start ==> is_digit(#[trigger] ds[k]),
            acc == digits_val(ds.take(i - start)),
        decreases n - i,
    {
        let b = s[i];
        if b < '0' as u8 || b > '9' as u8 {
            proof {
                assert(!is_digit(ds[i - start]));
                assert(!all_digits(ds));
            }
            return None;
        }
        proof {
            assert(ds.take(i + 1 - start).drop_last() =~= ds.take(i - start));
            assert(ds.take(i + 1 - start).last() == ds[i - start]);
        }
        let d = (b - '0' as u8) as u64;
        let overflowed = match acc.checked_mul(10) {
            Some(x) => match x.checked_add(d) {
                Some(y) => {
                    acc = y;
                    false
                },
                None => true,
            },
            None => true,
        };
        if overflowed {
            proof {
                let j = i - start + 1;
                assert(acc * 10 + d > u64::MAX);
                assert(ds.take(j).drop_last() =~= ds.take(j - 1));
                assert(ds.take(j).last() == ds[j - 1]);
                assert(digits_val(ds.take(j)) == acc * 10 + d);
                if all_digits(ds) {
                    lemma_digits_val_grows(ds, j);
                    assert(digits_val(ds) >= digits_val(ds.take(j)));
                    assert(digits_val(ds) > u64::MAX);
                    assert(int_of_decimal(s@) is None);
                } else {
                    assert(int_of_decimal(s@) is None);
                }
            }
            return None;
        }
        i = i + 1;
    }
    proof {
        assert(ds.take(n - start) =~= ds);
    }
    if neg {
        if acc > 9223372036854775808u64 {
            return None;
        }
        if acc == 9223372036854775808u64 {
            return Some(i64::MIN);
        }
        Some(-(acc as i64))
    } else {
        if acc > 9223372036854775807u64 {
            return None;
        }
        Some(acc as i64)
    }
}

/// A symbol atom: runs to the next delimiter; an opening parenthesis inside
/// it is a lexical error.
pub open spec fn lex_symbol(src: Seq<u8>, start: int, i: int) -> Result<(TokenV, int), ScanFault>
    decreases src.len() - i, 0nat,
{
    if more(src, i) {
        if src[i] == '(' as u8 {
            Err(ScanFault::OpenParenInAtom)
        } else {
            lex_symbol(src, start, i + 1)
        }
    } else {
        Ok((TokenV::Symbol(src.subrange(start, i)), i))
    }
}

/// The float token of the atom text `src[start..i]`.
pub open spec fn float_token(src: Seq<u8>, start: int, i: int) -> Result<(TokenV, int), ScanFault> {
    match bits_of_decimal(src.subrange(start, i)) {
        Some(b) => Ok((TokenV::Float(b), i)),
        None => Err(ScanFault::MalformedNumber),
    }
}

/// The digits of an exponent.
pub open spec fn lex_float_tail(src: Seq<u8>, start: int, i: int) -> Result<
    (TokenV, int),
    ScanFault,
>
    decreases src.len() - i, 1nat,
{
    if more(src, i) {
        if is_digit(src[i]) {
            lex_float_tail(src, start, i + 1)
        } else if src[i] == '(' as u8 {
            Err(ScanFault::OpenParenInAtom)
        } else {
            lex_symbol(src, start, i + 1)
        }
    } else {
        float_token(src, start, i)
    }
}

/// The optional sign of an exponent. An exponent must go on to hold at
/// least one digit; anything else makes the atom a symbol.
pub open spec fn lex_float_sign(src: Seq<u8>, start: int, i: int) -> Result<
    (TokenV, int),
    ScanFault,
>
    decreases src.len() - i, 3nat,
{
    if i >= src.len() {
        lex_symbol(src, start, i)
    } else if src[i] == '+' as u8 || src[i] == '-' as u8 {
        lex_float_expsign(src, start, i + 1)
    } else if is_digit(src[i]) {
        lex_float_tail(src, start, i)
    } else {
        lex_symbol(src, start, i)
    }
}

/// Right after an exponent's sign: without a digit here the atom fails the
/// float grammar and is a symbol (an opening parenthesis is still the hard
/// error it is in any atom).
pub open spec fn lex_float_expsign(src: Seq<u8>, start: int, i: int) -> Result<
    (TokenV, int),
    ScanFault,
>
    decreases src.len() - i, 2nat,
{
    if more(src, i) {
        if is_digit(src[i]) {
            lex_float_tail(src, start, i)
        } else if src[i] == '(' as u8 {
            Err(ScanFault::OpenParenInAtom)
        } else {
            lex_symbol(src, start, i)
        }
    } else {
        lex_symbol(src, start, i)
    }
}

/// The fractional digits of a float. `seen` records whether the mantissa
/// has held a digit yet; a mantissa without one (such as `+.`) fails the
/// float grammar and the atom is a symbol.
pub open spec fn lex_float_frac(src: Seq<u8>, start: int, i: int, seen: bool) -> Result<
    (TokenV, int),
    ScanFault,
>
    decreases src.len() - i, 4nat,
{
    if more(src, i) {
        if is_digit(src[i]) {
            lex_float_frac(src, start, i + 1, true)
        } else if src[i] == 'e' as u8 || src[i] == 'E' as u8 {
            if !seen || !more(src, i + 1) {
                lex_symbol(src, start, i + 1)
            } else {
                lex_float_sign(src, start, i + 1)
            }
        } else if src[i] == '(' as u8 {
            Err(ScanFault::OpenParenInAtom)
        } else {
            lex_symbol(src, start, i + 1)
        }
    } else if seen {
        float_token(src, start, i)
    } else {
        lex_symbol(src, start, i)
    }
}

/// A numeric atom that began with a digit or a sign: an integer unless a
/// dot or exponent turns it into a float, or a stray character turns it
/// into a symbol. `seen` records whether a digit has been consumed yet, so
/// that an exponent marker with no digits before it makes a symbol.
pub open spec fn lex_int(src: Seq<u8>, start: int, i: int, seen: bool) -> Result<
    (TokenV, int),
    ScanFault,
>
    decreases src.len() - i, 5nat,
{
    if more(src, i) {
        if is_digit(src[i]) {
            lex_int(src, start, i + 1, true)
        } else if src[i] == '.' as u8 {
            lex_float_frac(src, start, i + 1, seen)
        } else if src[i] == 'e' as u8 || src[i] == 'E' as u8 {
            if !seen || i + 1 >= src.len() {
                lex_symbol(src, start, i + 1)
            } else {
                lex_float_sign(src, start, i + 1)
            }
        } else if src[i] == '"' as u8 {
            Err(ScanFault::UnexpectedQuote)
        } else if src[i] == '(' as u8 {
            Err(ScanFault::OpenParenInAtom)
        } else {
            lex_symbol(src, start, i + 1)
        }
    } else {
        match int_of_decimal(src.subrange(start, i)) {
            Some(v) => Ok((TokenV::Int(v), i)),
            None => Err(ScanFault::IntOutOfRange),
        }
    }
}

/// A string literal: to the next quote on the same line; the stored text
/// excludes the delimiters.
pub open spec fn lex_string(src: Seq<u8>, start: int, i: int) -> Result<(TokenV, int), ScanFault>
    decreases src.len() - i, 0nat,
{
    if i >= src.len() {
        Err(ScanFault::MissingQuote)
    } else if src[i] == '"' as u8 {
        Ok((TokenV::Str(src.subrange(start + 1, i)), i + 1))
    } else if src[i] == '\n' as u8 {
        Err(ScanFault::MissingQuote)
    } else {
        lex_string(src, start, i + 1)
    }
}

/// A boolean literal: exactly `#t` or `#f`.
pub open spec fn lex_bool(src: Seq<u8>, start: int, i: int) -> Result<(TokenV, int), ScanFault> {
    if i >= src.len() {
        Err(ScanFault::ExpectedChar)
    } else if src[i] == 't' as u8 || src[i] == 'f' as u8 {
        if more(src, i + 1) {
            Err(ScanFault::CharAfterBool)
        } else {
            Ok((TokenV::Bool(src[i] == 't' as u8), i + 1))
        }
    } else {
        Err(ScanFault::CharAfterHash)
    }
}

/// The next line number; it saturates at the largest machine integer, which
/// no real input reaches.
pub open spec fn bump_line(line: int) -> int {
    if line + 1 <= usize::MAX {
        line + 1
    } else {
        line
    }
}

/// The token sequence of the source from position `i` on, each token paired
/// with the line it starts on, or the first lexical fault with its line.
/// Each step consumes at least one byte, so a fuel of one more than the
/// remaining length never runs out.
pub open spec fn lex(src: Seq<u8>, i: int, line: int, fuel: nat) -> Result<
    Seq<(TokenV, int)>,
    (ScanFault, int),
>
    decreases fuel, 0nat,
{
    if i >= src.len() {
        Ok(Seq::empty())
    } else if fuel == 0 {
        Err((ScanFault::Stuck, line))
    } else {
        let c = src[i];
        if c == ' ' as u8 || c == '\r' as u8 || c == '\t' as u8 {
            lex(src, i + 1, line, (fuel - 1) as nat)
        } else if c == '\n' as u8 {
            lex(src, i + 1, bump_line(line), (fuel - 1) as nat)
        } else if c == '(' as u8 {
            lex_after(Ok((TokenV::OpenParen, i + 1)), src, line, (fuel - 1) as nat)
        } else if c == ')' as u8 {
            lex_after(Ok((TokenV::ClosedParen, i + 1)), src, line, (fuel - 1) as nat)
        } else if c == '+' as u8 || c == '-' as u8 {
            if more(src, i + 1) {
                lex_after(lex_int(src, i, i + 1, false), src, line, (fuel - 1) as nat)
            } else {
                lex_after(lex_symbol(src, i, i + 1), src, line, (fuel - 1) as nat)
            }
        } else if is_digit(c) {
            lex_after(lex_int(src, i, i + 1, true), src, line, (fuel - 1) as nat)
        } else if c == '.' as u8 {
            if more(src, i + 1) {
                lex_after(lex_float_frac(src, i, i + 1, false), src, line, (fuel - 1) as nat)
            } else {
                lex_after(lex_symbol(src, i, i + 1), src, line, (fuel - 1) as nat)
            }
        } else if c == '"' as u8 {
            lex_after(lex_string(src, i, i + 1), src, line, (fuel - 1) as nat)
        } else if c == '#' as u8 {
            lex_after(lex_bool(src, i, i + 1), src, line, (fuel - 1) as nat)
        } else {
            lex_after(lex_symbol(src, i, i + 1), src, line, (fuel - 1) as nat)
        }
    }
}

/// Continue lexing after one token, which keeps the line it started on.
pub open spec fn lex_after(
    step: Result<(TokenV, int), ScanFault>,
    src: Seq<u8>,
    line: int,
    fuel: nat,
) -> Result<Seq<(TokenV, int)>, (ScanFault, int)>
    decreases fuel, 99nat,
{
    match step {
        Err(f) => Err((f, line)),
        Ok((t, j)) => match lex(src, j, line, fuel) {
            Ok(ts) => Ok(seq![(t, line)] + ts),
            Err(e) => Err(e),
        },
    }
}

/// The decimal text of a natural number is a non-empty digit run with that
/// value.
proof fn lemma_nat_text(n: nat)
    ensures
        nat_text(n).len() >= 1,
        all_digits(nat_text(n)),
        digits_val(nat_text(n)) == n,
    decreases n,
{
    if n < 10 {
        assert(digits_val(Seq::<u8>::empty()) == 0);
        assert(nat_text(n).drop_last() =~= Seq::<u8>::empty());
    } else {
        lemma_nat_text(n / 10);
        let a = nat_text(n / 10);
        let d = (('0' as u8) + n % 10) as u8;
        assert((a + seq![d]).drop_last() =~= a);
        assert((a + seq![d]).last() == d);
        assert forall|k: int|
            0 <= k < (a + seq![d]).len() implies is_digit(#[trigger] (a + seq![d])[k]) by {
            if k < a.len() {
                assert((a + seq![d])[k] == a[k]);
            }
        }
        assert(digits_val(a + seq![d]) == (n / 10) * 10 + n % 10);
    }
}

/// Over a pure digit run to the end of the source, the integer state just
/// consumes it and reads the whole atom.
proof fn lemma_lex_int_digits(src: Seq<u8>, start: int, k: int, b: bool)
    requires
        0 <= start <= k <= src.len(),
        forall|j: int| k <= j < src.len() ==> is_digit(#[trigger] src[j]),
    ensures
        lex_int(src, start, k, b) == (match int_of_decimal(
            src.subrange(start, src.len() as int),
        ) {
            Some(v) => Ok::<(TokenV, int), ScanFault>((TokenV::Int(v), src.len() as int)),
            None => Err::<(TokenV, int), ScanFault>(ScanFault::IntOutOfRange),
        }),
    decreases src.len() - k,
{
    if k < src.len() {
        assert(is_digit(src[k]));
        assert(!is_ws(src[k]) && src[k] != ')' as u8);
        lemma_lex_int_digits(src, start, k + 1, true);
    }
}

/// The print/scan round trip for integers: the printed decimal text of any
/// 64-bit integer scans back to exactly that integer token (on line 1).
/// This is the honest atom fragment of the round-trip law: booleans print
/// as `true`/`false` and strings without quotes, which re-scan as symbols,
/// and nothing ties the float printer to the float reader.
pub proof fn lemma_int_print_scan_round_trip(i: i64, fuel: nat)
    requires
        fuel >= 1,
    ensures
        lex(int_text(i as int), 0, 1, fuel) == Ok::<Seq<(TokenV, int)>, (ScanFault, int)>(
            seq![(TokenV::Int(i as int), 1)],
        ),
{
    let src = int_text(i as int);
    if i >= 0 {
        lemma_nat_text(i as nat);
        assert(src == nat_text(i as nat));
        assert(is_digit(src[0]));
        lemma_lex_int_digits(src, 0, 1, true);
        assert(src.subrange(0, src.len() as int) =~= src);
        assert(int_of_decimal(src) == Some(i as int)) by {
            assert(!(src[0] == '+' as u8 || src[0] == '-' as u8));
        }
        assert(lex_int(src, 0, 1, true) == Ok::<(TokenV, int), ScanFault>(
            (TokenV::Int(i as int), src.len() as int),
        ));
        assert(lex(src, 0, 1, fuel) == lex_after(
            lex_int(src, 0, 1, true),
            src,
            1,
            (fuel - 1) as nat,
        ));
    } else {
        let mag = (-(i as int)) as nat;
        lemma_nat_text(mag);
        assert(src == seq!['-' as u8] + nat_text(mag));
        assert(src[0] == '-' as u8);
        assert(src.len() >= 2);
        assert(src[1] == nat_text(mag)[0]);
        assert(is_digit(src[1]));
        assert(more(src, 1));
        assert forall|j: int| 1 <= j < src.len() implies is_digit(#[trigger] src[j]) by {
            assert(src[j] == nat_text(mag)[j - 1]);
        }
        lemma_lex_int_digits(src, 0, 1, false);
        assert(src.subrange(0, src.len() as int) =~= src);
        assert(int_of_decimal(src) == Some(i as int)) by {
            assert(src.drop_first() =~= nat_text(mag));
        }
        assert(lex_int(src, 0, 1, false) == Ok::<(TokenV, int), ScanFault>(
            (TokenV::Int(i as int), src.len() as int),
        ));
        assert(lex(src, 0, 1, fuel) == lex_after(
            lex_int(src, 0, 1, false),
            src,
            1,
            (fuel - 1) as nat,
        ));
    }
    assert(lex(src, src.len() as int, 1, (fuel - 1) as nat) == Ok::<
        Seq<(TokenV, int)>,
        (ScanFault, int),
    >(Seq::empty()));
    assert(seq![(TokenV::Int(i as int), 1int)] + Seq::<(TokenV, int)>::empty() =~= seq![
        (TokenV::Int(i as int), 1int),
    ]);
}

/// Whether the atom continues at `i`, executably.
fn more_exec(src: &Vec<u8>, i: usize) -> (r: bool)
    ensures
        r == more(src@, i as int),
        src@.len() <= usize::MAX,
{
    if i >= src.len() {
        return false;
    }
    let b = src[i];
    !(b == ' ' as u8 || b == '\n' as u8 || b == '\r' as u8 || b == '\t' as u8) && b != ')' as u8
}

/// The atom text `src[start..i]` as an owned vector.
fn atom_text(src: &Vec<u8>, start: usize, i: usize) -> (r: Vec<u8>)
    requires
        start <= i <= src@.len(),
    ensures
        r@ == src@.subrange(start as int, i as int),
{
    vstd::slice::slice_to_vec(vstd::slice::slice_subrange(src.as_slice(), start, i))
}

fn scan_symbol(src: &Vec<u8>, start: usize, i: usize) -> (r: Result<(Token, usize), ScanFault>)
    requires
        start <= i <= src@.len(),
    ensures
        match r {
            Ok(p) => lex_symbol(src@, start as int, i as int) == Ok::<(TokenV, int), ScanFault>(
                (p.0@, p.1 as int),
            ) && i <= p.1 <= src@.len(),
            Err(f) => lex_symbol(src@, start as int, i as int) == Err::<(TokenV, int), ScanFault>(
                f,
            ),
        },
    decreases src@.len() - i, 0nat,
{
    if more_exec(src, i) {
        if src[i] == '(' as u8 {
            Err(ScanFault::OpenParenInAtom)
        } else {
            scan_symbol(src, start, i + 1)
        }
    } else {
        Ok((Token::Symbol(atom_text(src, start, i)), i))
    }
}

fn finish_float(src: &Vec<u8>, start: usize, i: usize) -> (r: Result<(Token, usize), ScanFault>)
    requires
        start <= i <= src@.len(),
    ensures
        match r {
            Ok(p) => float_token(src@, start as int, i as int) == Ok::<(TokenV, int), ScanFault>(
                (p.0@, p.1 as int),
            ) && i <= p.1 <= src@.len(),
            Err(f) => float_token(src@, start as int, i as int) == Err::<(TokenV, int), ScanFault>(
                f,
            ),
        },
{
    let text = atom_text(src, start, i);
    match f64_parse(text.as_slice()) {
        Some(b) => Ok((Token::Float(b), i)),
        None => Err(ScanFault::MalformedNumber),
    }
}

fn scan_float_tail(src: &Vec<u8>, start: usize, i: usize) -> (r: Result<(Token, usize), ScanFault>)
    requires
        start <= i <= src@.len(),
    ensures
        match r {
            Ok(p) => lex_float_tail(src@, start as int, i as int) == Ok::<
                (TokenV, int),
                ScanFault,
            >((p.0@, p.1 as int)) && i <= p.1 <= src@.len(),
            Err(f) => lex_float_tail(src@, start as int, i as int) == Err::<
                (TokenV, int),
                ScanFault,
            >(f),
        },
    decreases src@.len() - i, 1nat,
{
    if more_exec(src, i) {
        let b = src[i];
        if '0' as u8 <= b && b <= '9' as u8 {
            scan_float_tail(src, start, i + 1)
        } else if b == '(' as u8 {
            Err(ScanFault::OpenParenInAtom)
        } else {
            scan_symbol(src, start, i + 1)
        }
    } else {
        finish_float(src, start, i)
    }
}

fn scan_float_sign(src: &Vec<u8>, start: usize, i: usize) -> (r: Result<(Token, usize), ScanFault>)
    requires
        start <= i <= src@.len(),
    ensures
        match r {
            Ok(p) => lex_float_sign(src@, start as int, i as int) == Ok::<
                (TokenV, int),
                ScanFault,
            >((p.0@, p.1 as int)) && i <= p.1 <= src@.len(),
            Err(f) => lex_float_sign(src@, start as int, i as int) == Err::<
                (TokenV, int),
                ScanFault,
            >(f),
        },
    decreases src@.len() - i, 3nat,
{
    if i >= src.len() {
        scan_symbol(src, start, i)
    } else {
        let b = src[i];
        if b == '+' as u8 || b == '-' as u8 {
            scan_float_expsign(src, start, i + 1)
        } else if '0' as u8 <= b && b <= '9' as u8 {
            scan_float_tail(src, start, i)
        } else {
            scan_symbol(src, start, i)
        }
    }
}

fn scan_float_expsign(src: &Vec<u8>, start: usize, i: usize) -> (r: Result<
    (Token, usize),
    ScanFault,
>)
    requires
        start <= i <= src@.len(),
    ensures
        match r {
            Ok(p) => lex_float_expsign(src@, start as int, i as int) == Ok::<
                (TokenV, int),
                ScanFault,
            >((p.0@, p.1 as int)) && i <= p.1 <= src@.len(),
            Err(f) => lex_float_expsign(src@, start as int, i as int) == Err::<
                (TokenV, int),
                ScanFault,
            >(f),
        },
    decreases src@.len() - i, 2nat,
{
    if more_exec(src, i) {
        let b = src[i];
        if '0' as u8 <= b && b <= '9' as u8 {
            scan_float_tail(src, start, i)
        } else if b == '(' as u8 {
            Err(ScanFault::OpenParenInAtom)
        } else {
            scan_symbol(src, start, i)
        }
    } else {
        scan_symbol(src, start, i)
    }
}

fn scan_float_frac(src: &Vec<u8>, start: usize, i: usize, seen: bool) -> (r: Result<
    (Token, usize),
    ScanFault,
>)
    requires
        start <= i <= src@.len(),
    ensures
        match r {
            Ok(p) => lex_float_frac(src@, start as int, i as int, seen) == Ok::<
                (TokenV, int),
                ScanFault,
            >((p.0@, p.1 as int)) && i <= p.1 <= src@.len(),
            Err(f) => lex_float_frac(src@, start as int, i as int, seen) == Err::<
                (TokenV, int),
                ScanFault,
            >(f),
        },
    decreases src@.len() - i, 4nat,
{
    if more_exec(src, i) {
        let b = src[i];
        if '0' as u8 <= b && b <= '9' as u8 {
            scan_float_frac(src, start, i + 1, true)
        } else if b == 'e' as u8 || b == 'E' as u8 {
            if !seen || !more_exec(src, i + 1) {
                scan_symbol(src, start, i + 1)
            } else {
                scan_float_sign(src, start, i + 1)
            }
        } else if b == '(' as u8 {
            Err(ScanFault::OpenParenInAtom)
        } else {
            scan_symbol(src, start, i + 1)
        }
    } else if seen {
        finish_float(src, start, i)
    } else {
        scan_symbol(src, start, i)
    }
}

fn scan_int(src: &Vec<u8>, start: usize, i: usize, seen: bool) -> (r: Result<
    (Token, usize),
    ScanFault,
>)
    requires
        start <= i <= src@.len(),
    ensures
        match r {
            Ok(p) => lex_int(src@, start as int, i as int, seen) == Ok::<(TokenV, int), ScanFault>(
                (p.0@, p.1 as int),
            ) && i <= p.1 <= src@.len(),
            Err(f) => lex_int(src@, start as int, i as int, seen) == Err::<
                (TokenV, int),
                ScanFault,
            >(f),
        },
    decreases src@.len() - i, 5nat,
{
    if more_exec(src, i) {
        let b = src[i];
        if '0' as u8 <= b && b <= '9' as u8 {
            scan_int(src, start, i + 1, true)
        } else if b == '.' as u8 {
            scan_float_frac(src, start, i + 1, seen)
        } else if b == 'e' as u8 || b == 'E' as u8 {
            if !seen || i + 1 >= src.len() {
                scan_symbol(src, start, i + 1)
            } else {
                scan_float_sign(src, start, i + 1)
            }
        } else if b == '"' as u8 {
            Err(ScanFault::UnexpectedQuote)
        } else if b == '(' as u8 {
            Err(ScanFault::OpenParenInAtom)
        } else {
            scan_symbol(src, start, i + 1)
        }
    } else {
        let text = atom_text(src, start, i);
        match parse_int_bytes(text.as_slice()) {
            Some(v) => Ok((Token::Int(v), i)),
            None => Err(ScanFault::IntOutOfRange),
        }
    }
}

fn scan_string(src: &Vec<u8>, start: usize, i: usize) -> (r: Result<(Token, usize), ScanFault>)
    requires
        start < i <= src@.len(),
    ensures
        match r {
            Ok(p) => lex_string(src@, start as int, i as int) == Ok::<(TokenV, int), ScanFault>(
                (p.0@, p.1 as int),
            ) && i <= p.1 <= src@.len(),
            Err(f) => lex_string(src@, start as int, i as int) == Err::<(TokenV, int), ScanFault>(
                f,
            ),
        },
    decreases src@.len() - i, 0nat,
{
    if i >= src.len() {
        Err(ScanFault::MissingQuote)
    } else if src[i] == '"' as u8 {
        let text = atom_text(src, start + 1, i);
        Ok((Token::Str(text), i + 1))
    } else if src[i] == '\n' as u8 {
        Err(ScanFault::MissingQuote)
    } else {
        scan_string(src, start, i + 1)
    }
}

fn scan_bool(src: &Vec<u8>, start: usize, i: usize) -> (r: Result<(Token, usize), ScanFault>)
    requires
        start <= i <= src@.len(),
    ensures
        match r {
            Ok(p) => lex_bool(src@, start as int, i as int) == Ok::<(TokenV, int), ScanFault>(
                (p.0@, p.1 as int),
            ) && i <= p.1 <= src@.len(),
            Err(f) => lex_bool(src@, start as int, i as int) == Err::<(TokenV, int), ScanFault>(f),
        },
{
    if i >= src.len() {
        Err(ScanFault::ExpectedChar)
    } else if src[i] == 't' as u8 || src[i] == 'f' as u8 {
        if more_exec(src, i + 1) {
            Err(ScanFault::CharAfterBool)
        } else {
            Ok((Token::Bool(src[i] == 't' as u8), i + 1))
        }
    } else {
        Err(ScanFault::CharAfterHash)
    }
}

/// The scanner: source bytes, the current position, and the current line.
pub struct Scanner {
    source: Vec<u8>,
    current: usize,
    line: usize,
}

/// The mathematical shape of a scanner.
#[verifier::ext_equal]
pub struct ScannerV {
    pub src: Seq<u8>,
    pub at: int,
    pub line: int,
}

impl View for Scanner {
    type V = ScannerV;

    closed spec fn view(&self) -> ScannerV {
        ScannerV { src: self.source@, at: self.current as int, line: self.line as int }
    }
}

impl Scanner {
    /// A scanner over the UTF-8 bytes of `source`, at its start, on line 1.
    pub fn new(source: &str) -> (r: Scanner)
        ensures
            r@.src == source.spec_bytes(),
            r@.at == 0,
            r@.line == 1,
    {
        Scanner {
            source: vstd::slice::slice_to_vec(source.as_bytes()),
            current: 0,
            line: 1,
        }
    }

    /// Whether the whole source has been consumed.
    pub fn at_end(&self) -> (r: bool)
        ensures
            r == (self@.at >= self@.src.len()),
    {
        self.current >= self.source.len()
    }

    /// The byte at the current position, without consuming it.
    pub fn peek(&self) -> (r: Option<u8>)
        ensures
            r == (if self@.at < self@.src.len() {
                Some(self@.src[self@.at])
            } else {
                Option::<u8>::None
            }),
    {
        if self.current < self.source.len() {
            Some(self.source[self.current])
        } else {
            None
        }
    }

    /// Consume and return the byte at the current position.
    pub fn advance(&mut self) -> (r: Option<u8>)
        ensures
            final(self)@.src == old(self)@.src,
            final(self)@.line == old(self)@.line,
            r == (if old(self)@.at < old(self)@.src.len() {
                Some(old(self)@.src[old(self)@.at])
            } else {
                Option::<u8>::None
            }),
            final(self)@.at == (if old(self)@.at < old(self)@.src.len() {
                old(self)@.at + 1
            } else {
                old(self)@.at
            }),
    {
        if self.current < self.source.len() {
            let b = self.source[self.current];
            self.current = self.current + 1;
            Some(b)
        } else {
            None
        }
    }

    /// Scan the whole source into its token sequence, or the first lexical
    /// error with its line.
    pub fn scan_tokens(self) -> (r: Result<Vec<Token>, ParseError>)
        ensures
            match r {
                Ok(ts) => lex(self@.src, self@.at, self@.line, (self@.src.len() + 1) as nat)
                    matches Ok(ps) && tokens_view(ts@) == pairs_tokens(ps),
                Err(e) => lex(self@.src, self@.at, self@.line, (self@.src.len() + 1) as nat)
                    matches Err(p) && e.message@ == fault_text(p.0) && e.line as int == p.1,
            },
    {
        match self.scan_tokens_with_lines() {
            Ok((tokens, _lines)) => Ok(tokens),
            Err(e) => Err(e),
        }
    }

    /// Scan the whole source into its token sequence together with the line
    /// each token starts on, or the first lexical error with its line.
    pub fn scan_tokens_with_lines(self) -> (r: Result<(Vec<Token>, Vec<usize>), ParseError>)
        ensures
            match r {
                Ok(p) => lex(self@.src, self@.at, self@.line, (self@.src.len() + 1) as nat)
                    matches Ok(ps) && tokens_view(p.0@) == pairs_tokens(ps) && lines_view(p.1@)
                    == pairs_lines(ps) && p.0@.len() == p.1@.len(),
                Err(e) => lex(self@.src, self@.at, self@.line, (self@.src.len() + 1) as nat)
                    matches Err(p) && e.message@ == fault_text(p.0) && e.line as int == p.1,
            },
    {
        let ghost src0 = self.source@;
        let ghost i0 = self.current as int;
        let ghost line0 = self.line as int;
        let ghost fuel0 = (src0.len() + 1) as nat;
        let n = self.source.len();
        let mut i = self.current;
        let mut line = self.line;
        let mut tokens: Vec<Token> = Vec::new();
        let mut lines: Vec<usize> = Vec::new();
        let ghost mut fuel: nat = fuel0;
        let ghost mut acc: Seq<(TokenV, int)> = Seq::empty();
        proof {
            assert(tokens_view(tokens@) =~= pairs_tokens(acc));
            assert(lines_view(lines@) =~= pairs_lines(acc));
        }
        while i < n
            invariant
                n == self.source@.len(),
                src0 == self@.src,
                i0 == self@.at,
                line0 == self@.line,
                fuel0 == (src0.len() + 1) as nat,
                fuel >= n - i + 1,
                tokens_view(tokens@) == pairs_tokens(acc),
                lines_view(lines@) == pairs_lines(acc),
                tokens@.len() == lines@.len(),
                ({
                    let full = lex(src0, i0, line0, fuel0);
                    match lex(src0, i as int, line as int, fuel) {
                        Ok(ts) => full == Ok::<Seq<(TokenV, int)>, (ScanFault, int)>(acc + ts),
                        Err(e) => full == Err::<Seq<(TokenV, int)>, (ScanFault, int)>(e),
                    }
                }),
            decreases n - i,
        {
            let b = self.source[i];
            let ghost fuel1 = (fuel - 1) as nat;
            if b == ' ' as u8 || b == '\r' as u8 || b == '\t' as u8 {
                proof {
                    assert(lex(src0, i as int, line as int, fuel) == lex(
                        src0,
                        i as int + 1,
                        line as int,
                        fuel1,
                    ));
                    fuel = fuel1;
                }
                i = i + 1;
            } else if b == '\n' as u8 {
                proof {
                    assert(lex(src0, i as int, line as int, fuel) == lex(
                        src0,
                        i as int + 1,
                        bump_line(line as int),
                        fuel1,
                    ));
                    fuel = fuel1;
                }
                if line < usize::MAX {
                    line = line + 1;
                }
                i = i + 1;
            } else {
                let step: Result<(Token, usize), ScanFault> = if b == '(' as u8 {
                    Ok((Token::OpenParen, i + 1))
                } else if b == ')' as u8 {
                    Ok((Token::ClosedParen, i + 1))
                } else if b == '+' as u8 || b == '-' as u8 {
                    if more_exec(&self.source, i + 1) {
                        scan_int(&self.source, i, i + 1, false)
                    } else {
                        scan_symbol(&self.source, i, i + 1)
                    }
                } else if '0' as u8 <= b && b <= '9' as u8 {
                    scan_int(&self.source, i, i + 1, true)
                } else if b == '.' as u8 {
                    if more_exec(&self.source, i + 1) {
                        scan_float_frac(&self.source, i, i + 1, false)
                    } else {
                        scan_symbol(&self.source, i, i + 1)
                    }
                } else if b == '"' as u8 {
                    scan_string(&self.source, i, i + 1)
                } else if b == '#' as u8 {
                    scan_bool(&self.source, i, i + 1)
                } else {
                    scan_symbol(&self.source, i, i + 1)
                };
                match step {
                    Err(f) => {
                        proof {
                            assert(lex(src0, i as int, line as int, fuel) == lex_after(
                                Err::<(TokenV, int), ScanFault>(f),
                                src0,
                                line as int,
                                fuel1,
                            ));
                            assert(lex(src0, i as int, line as int, fuel) == Err::<
                                Seq<(TokenV, int)>,
                                (ScanFault, int),
                            >((f, line as int)));
                        }
                        return Err(ParseError { message: fault_message(f), line });
                    },
                    Ok((t, j)) => {
                        let ghost acc0 = acc;
                        let ghost toks0 = tokens@;
                        let ghost lines0 = lines@;
                        let ghost tv = t@;
                        let ghost rest0 = lex(src0, j as int, line as int, fuel1);
                        tokens.push(t);
                        lines.push(line);
                        proof {
                            acc = acc0.push((tv, line as int));
                            assert(lex(src0, i as int, line as int, fuel) == lex_after(
                                Ok::<(TokenV, int), ScanFault>((tv, j as int)),
                                src0,
                                line as int,
                                fuel1,
                            ));
                            assert(tokens_view(toks0).len() == toks0.len());
                            assert(pairs_tokens(acc0).len() == acc0.len());
                            assert(lines_view(lines0).len() == lines0.len());
                            assert(acc0.len() == toks0.len());
                            assert(acc.len() == toks0.len() + 1);
                            assert(tokens@.len() == toks0.len() + 1);
                            assert(lines@.len() == lines0.len() + 1);
                            assert forall|k: int|
                                0 <= k < tokens@.len() implies tokens_view(tokens@)[k]
                                == pairs_tokens(acc)[k] by {
                                assert(tokens_view(tokens@)[k] == tokens@[k]@);
                                assert(pairs_tokens(acc)[k] == acc[k].0);
                                if k < toks0.len() {
                                    assert(tokens@[k] == toks0[k]);
                                    assert(acc[k] == acc0[k]);
                                    assert(tokens_view(toks0)[k] == toks0[k]@);
                                    assert(pairs_tokens(acc0)[k] == acc0[k].0);
                                }
                            }
                            assert forall|k: int|
                                0 <= k < lines@.len() implies lines_view(lines@)[k]
                                == pairs_lines(acc)[k] by {
                                assert(lines_view(lines@)[k] == lines@[k] as int);
                                assert(pairs_lines(acc)[k] == acc[k].1);
                                if k < lines0.len() {
                                    assert(lines@[k] == lines0[k]);
                                    assert(acc[k] == acc0[k]);
                                    assert(lines_view(lines0)[k] == lines0[k] as int);
                                    assert(pairs_lines(acc0)[k] == acc0[k].1);
                                }
                            }
                            assert(tokens_view(tokens@) =~= pairs_tokens(acc));
                            assert(lines_view(lines@) =~= pairs_lines(acc));
                            assert(acc =~= acc0 + seq![(tv, line as int)]);
                            if rest0 is Ok {
                                assert((acc0 + seq![(tv, line as int)]) + rest0->Ok_0 =~= acc0 + (
                                seq![(tv, line as int)] + rest0->Ok_0));
                            }
                            fuel = fuel1;
                        }
                        i = j;
                    },
                }
            }
        }
        proof {
            assert(acc + Seq::<(TokenV, int)>::empty() =~= acc);
        }
        Ok((tokens, lines))
    }
}

} // verus!
