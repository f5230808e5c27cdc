//! The scanner: one left-to-right pass over the characters of a line, with
//! one character of lookahead.
//!
//! Whitespace separates tokens and clears the numeral buffer.  Digits and
//! dots accumulate into the buffer, which is flushed into a numeral token
//! when the lookahead is whitespace or end of input.  The four operator
//! characters count as operators only with an empty buffer and a separator
//! next; a `-` with an empty buffer and more to come starts a negative
//! numeral instead.  Any other character yields one `Unrecognized` token and
//! swallows the rest of the current run.
//!
//! A float token keeps its spelling; turning the spelling into an `f32` is
//! the caller's float unit's job (see the crate doc).

use vstd::prelude::*;
use vstd::string::*;

use crate::numerals::all_digits;
use crate::numerals::digit;
use crate::numerals::digits_val;
use crate::numerals::float_lit;
use crate::numerals::is_digit;
use crate::numerals::is_float_lit;
use crate::numerals::is_space;
use crate::numerals::lemma_u_digits_facts;
use crate::numerals::parse_int;
use crate::numerals::parse_int_spec;
use crate::numerals::render_int_spec;
use crate::numerals::space;
use crate::numerals::strip_sign;
use crate::numerals::u_digits;

verus! {

#[derive(Debug, PartialEq, Eq, Structural, Clone, Copy)]
pub enum Op {
    Add,
    Sub,
    Mult,
    Div,
}

/// A lexical unit: an integer numeral, a float numeral (kept as its
/// spelling), an operator, or an unrecognized run.
#[derive(Debug)]
pub enum Token {
    Int(i32),
    Float(Vec<char>),
    Operation(Op),
    Unrecognized,
}

/// The abstract value of a token: a float numeral is its spelling.
pub enum TokenV {
    Int(i32),
    Float(Seq<char>),
    Operation(Op),
    Unrecognized,
}

impl View for Token {
    type V = TokenV;

    open spec fn view(&self) -> TokenV {
        match self {
            Token::Int(n) => TokenV::Int(*n),
            Token::Float(cs) => TokenV::Float(cs@),
            Token::Operation(op) => TokenV::Operation(*op),
            Token::Unrecognized => TokenV::Unrecognized,
        }
    }
}

fn chars_eq(a: &Vec<char>, b: &Vec<char>) -> (r: bool)
    ensures
        r == (a@ == b@),
{
    if a.len() != b.len() {
        return false;
    }
    let n = a.len();
    let mut i: usize = 0;
    while i < n
        invariant
            i <= n,
            n == a@.len() == b@.len(),
            forall|j: int| 0 <= j < i ==> a@[j] == b@[j],
        decreases n - i,
    {
        if a[i] != b[i] {
            return false;
        }
        i += 1;
    }
    proof {
        assert(a@ =~= b@);
    }
    true
}

impl PartialEq for Token {
    /// Tokens are equal when they are the same kind with the same value; two
    /// float tokens are equal when their spellings are.
    fn eq(&self, other: &Token) -> (r: bool) {
        match (self, other) {
            (Token::Int(x), Token::Int(y)) => *x == *y,
            (Token::Float(a), Token::Float(b)) => chars_eq(a, b),
            (Token::Operation(x), Token::Operation(y)) => *x == *y,
            (Token::Unrecognized, Token::Unrecognized) => true,
            _ => false,
        }
    }
}

impl vstd::std_specs::cmp::PartialEqSpecImpl for Token {
    open spec fn obeys_eq_spec() -> bool {
        true
    }

    open spec fn eq_spec(&self, other: &Token) -> bool {
        self@ == other@
    }
}

/// Why a numeral buffer failed to become a token.
#[derive(Debug)]
pub enum TokenParseError {
    ParseFloatError,
    IntParseError,
}

/// The token a flushed buffer yields: a float numeral when the buffer holds
/// a dot, an integer numeral otherwise, and `Unrecognized` when the buffer
/// is not a well-formed numeral of that kind.
pub open spec fn spec_flush(b: Seq<char>) -> TokenV {
    if b.contains('.') {
        if is_float_lit(b) {
            TokenV::Float(b)
        } else {
            TokenV::Unrecognized
        }
    } else {
        match parse_int_spec(b) {
            Some(v) => TokenV::Int(v),
            None => TokenV::Unrecognized,
        }
    }
}

fn has_dot(v: &Vec<char>) -> (r: bool)
    ensures
        r == v@.contains('.'),
{
    let n = v.len();
    let mut i: usize = 0;
    while i < n
        invariant
            i <= n,
            n == v@.len(),
            forall|j: int| 0 <= j < i ==> v@[j] != '.',
        decreases n - i,
    {
        if v[i] == '.' {
            return true;
        }
        i += 1;
    }
    false
}

impl Token {
    /// Turns a numeral buffer into a token: with a dot in the buffer, a
    /// float numeral when the spelling is well formed; otherwise an integer
    /// numeral when it parses into an `i32`.
    pub fn try_from(value: &Vec<char>) -> (r: Result<Token, TokenParseError>)
        ensures
            ({
                let s = value@;
                match r {
                    Ok(t) => t@ == spec_flush(s) && !(spec_flush(s) is Unrecognized),
                    Err(e) => spec_flush(s) is Unrecognized && e == (if s.contains('.') {
                        TokenParseError::ParseFloatError
                    } else {
                        TokenParseError::IntParseError
                    }),
                }
            }),
    {
        if has_dot(value) {
            if float_lit(value) {
                let mut cs: Vec<char> = Vec::new();
                let n = value.len();
                let mut i: usize = 0;
                while i < n
                    invariant
                        i <= n,
                        n == value@.len(),
                        cs@ == value@.take(i as int),
                    decreases n - i,
                {
                    cs.push(value[i]);
                    proof {
                        assert(value@.take(i + 1) =~= value@.take(i as int).push(value@[i as int]));
                    }
                    i += 1;
                }
                proof {
                    assert(value@.take(n as int) =~= value@);
                }
                Ok(Token::Float(cs))
            } else {
                Err(TokenParseError::ParseFloatError)
            }
        } else {
            match parse_int(value) {
                Some(n) => Ok(Token::Int(n)),
                None => Err(TokenParseError::IntParseError),
            }
        }
    }
}

/// The scanner state between two characters: the tokens already produced,
/// the numeral buffer, and whether the rest of a malformed run is being
/// skipped.
pub struct LexState {
    pub toks: Seq<TokenV>,
    pub buf: Seq<char>,
    pub skip: bool,
}

pub open spec fn lex_init() -> LexState {
    LexState { toks: seq![], buf: seq![], skip: false }
}

pub open spec fn op_char(c: char) -> Op {
    if c == '+' {
        Op::Add
    } else if c == '-' {
        Op::Sub
    } else if c == '*' {
        Op::Mult
    } else {
        Op::Div
    }
}

/// One scanner step on character `c`, where `sep_next` says whether the
/// lookahead is whitespace or end of input.
pub open spec fn lex_step(st: LexState, c: char, sep_next: bool) -> LexState {
    if st.skip {
        if is_space(c) {
            LexState { toks: st.toks, buf: seq![], skip: false }
        } else {
            st
        }
    } else if is_space(c) {
        LexState { toks: st.toks, buf: seq![], skip: false }
    } else if (c == '+' || c == '-' || c == '*' || c == '/') && st.buf.len() == 0 && sep_next {
        LexState { toks: st.toks.push(TokenV::Operation(op_char(c))), buf: st.buf, skip: false }
    } else if c == '-' && st.buf.len() == 0 {
        LexState { toks: st.toks, buf: seq!['-'], skip: false }
    } else if is_digit(c) || c == '.' {
        let b2 = st.buf.push(c);
        if sep_next {
            LexState { toks: st.toks.push(spec_flush(b2)), buf: seq![], skip: false }
        } else {
            LexState { toks: st.toks, buf: b2, skip: false }
        }
    } else {
        LexState { toks: st.toks.push(TokenV::Unrecognized), buf: st.buf, skip: true }
    }
}

pub open spec fn lex_from(s: Seq<char>, i: int, st: LexState) -> Seq<TokenV>
    decreases s.len() - i,
{
    if i < 0 || i >= s.len() {
        st.toks
    } else {
        lex_from(s, i + 1, lex_step(st, s[i], i + 1 >= s.len() || is_space(s[i + 1])))
    }
}

/// The token sequence the scanner produces for a line of text.
pub open spec fn spec_tokenize(s: Seq<char>) -> Seq<TokenV> {
    lex_from(s, 0, lex_init())
}

/// The abstract values of a token sequence.
pub open spec fn token_views(ts: Seq<Token>) -> Seq<TokenV> {
    ts.map_values(|t: Token| t@)
}

proof fn lemma_views_push(ts: Seq<Token>, t: Token)
    ensures
        token_views(ts.push(t)) == token_views(ts).push(t@),
{
    assert(token_views(ts.push(t)) =~= token_views(ts).push(t@));
}

fn chars_of(text: &str) -> (r: Vec<char>)
    ensures
        r@ == text@,
{
    let n = text.unicode_len();
    let mut out: Vec<char> = Vec::new();
    let mut i: usize = 0;
    while i < n
        invariant
            i <= n,
            n == text@.len(),
            out@ == text@.take(i as int),
        decreases n - i,
    {
        out.push(text.get_char(i));
        proof {
            assert(text@.take(i + 1) =~= text@.take(i as int).push(text@[i as int]));
        }
        i += 1;
    }
    proof {
        assert(text@.take(n as int) =~= text@);
    }
    out
}

/// Scans a line of text into tokens.  Total: malformed input becomes
/// `Unrecognized` tokens, never an error.
#[verifier::loop_isolation(false)]
pub fn tokenize(text: String) -> (r: Vec<Token>)
    ensures
        token_views(r@) == spec_tokenize(text@),
{
    let chars = chars_of(text.as_str());
    let n = chars.len();
    let mut toks: Vec<Token> = Vec::new();
    let mut buf: Vec<char> = Vec::new();
    let mut skip = false;
    let mut i: usize = 0;
    proof {
        assert(token_views(toks@) =~= lex_init().toks);
        assert(buf@ =~= lex_init().buf);
    }
    while i < n
        invariant
            i <= n,
            spec_tokenize(text@) == lex_from(
                text@,
                i as int,
                (LexState { toks: token_views(toks@), buf: buf@, skip }),
            ),
        decreases n - i,
    {
        let ghost st = LexState { toks: token_views(toks@), buf: buf@, skip };
        let c = chars[i];
        let sep_next = if i + 1 < n {
            space(chars[i + 1])
        } else {
            true
        };
        proof {
            assert(lex_from(text@, i as int, st) == lex_from(
                text@,
                i + 1,
                lex_step(st, text@[i as int], i + 1 >= text@.len() || is_space(text@[i + 1])),
            ));
        }
        if skip {
            if space(c) {
                skip = false;
                buf = Vec::new();
                proof {
                    assert(buf@ =~= seq![]);
                }
            }
        } else if space(c) {
            buf = Vec::new();
            proof {
                assert(buf@ =~= seq![]);
            }
        } else if (c == '+' || c == '-' || c == '*' || c == '/') && buf.len() == 0 && sep_next {
            let t = if c == '+' {
                Token::Operation(Op::Add)
            } else if c == '-' {
                Token::Operation(Op::Sub)
            } else if c == '*' {
                Token::Operation(Op::Mult)
            } else {
                Token::Operation(Op::Div)
            };
            proof {
                lemma_views_push(toks@, t);
            }
            toks.push(t);
        } else if c == '-' && buf.len() == 0 {
            buf.push('-');
            proof {
                assert(buf@ =~= seq!['-']);
            }
        } else if digit(c) || c == '.' {
            buf.push(c);
            if sep_next {
                let t = match Token::try_from(&buf) {
                    Ok(t) => t,
                    Err(_) => Token::Unrecognized,
                };
                proof {
                    assert(t@ == spec_flush(buf@));
                    lemma_views_push(toks@, t);
                }
                toks.push(t);
                buf = Vec::new();
                proof {
                    assert(buf@ =~= seq![]);
                }
            }
        } else {
            proof {
                lemma_views_push(toks@, Token::Unrecognized);
            }
            toks.push(Token::Unrecognized);
            skip = true;
        }
        i += 1;
    }
    toks
}

/// A numeral run: digits and dots, at most a leading `-`, nothing else.
pub open spec fn is_numeral_run(s: Seq<char>) -> bool {
    &&& s.len() > 0
    &&& forall|j: int|
        0 <= j < s.len() ==> (is_digit(#[trigger] s[j]) || s[j] == '.' || (j == 0 && s[j] == '-'))
    &&& (s[0] == '-' ==> s.len() >= 2)
}

proof fn lemma_lex_run_from(s: Seq<char>, i: int)
    requires
        is_numeral_run(s),
        0 <= i < s.len(),
    ensures
        lex_from(s, i, (LexState { toks: seq![], buf: s.take(i), skip: false })) == seq![
            spec_flush(s),
        ],
    decreases s.len() - i,
{
    let st = LexState { toks: seq![], buf: s.take(i), skip: false };
    let c = s[i];
    assert(!is_space(c));
    if i + 1 < s.len() {
        assert(!is_space(s[i + 1]));
    }
    let sep_next = i + 1 >= s.len() || is_space(s[i + 1]);
    assert(lex_from(s, i, st) == lex_from(s, i + 1, lex_step(st, c, sep_next)));
    if i + 1 == s.len() {
        assert(!(i == 0 && c == '-'));
        assert(is_digit(c) || c == '.');
        assert(c != '+' && c != '-' && c != '*' && c != '/');
        assert(st.buf.push(c) =~= s);
        assert(lex_step(st, c, sep_next).toks =~= seq![spec_flush(s)]);
        assert(lex_from(s, i + 1, lex_step(st, c, sep_next)) == lex_step(st, c, sep_next).toks);
    } else {
        if i == 0 && c == '-' {
            assert(st.buf.len() == 0) by {
                assert(s.take(0) =~= seq![]);
            }
            assert(lex_step(st, c, sep_next).buf =~= s.take(1));
            assert(lex_step(st, c, sep_next) == (LexState {
                toks: seq![],
                buf: s.take(1),
                skip: false,
            }));
            lemma_lex_run_from(s, i + 1);
        } else {
            assert(is_digit(c) || c == '.');
            assert(c != '+' && c != '-' && c != '*' && c != '/');
            assert(lex_step(st, c, sep_next).buf =~= s.take(i + 1));
            assert(lex_step(st, c, sep_next) == (LexState {
                toks: seq![],
                buf: s.take(i + 1),
                skip: false,
            }));
            lemma_lex_run_from(s, i + 1);
        }
    }
}

/// One numeral run scans to exactly the one token its buffer flushes to.
pub proof fn lemma_tokenize_numeral_run(s: Seq<char>)
    requires
        is_numeral_run(s),
    ensures
        spec_tokenize(s) == seq![spec_flush(s)],
{
    assert(s.take(0) =~= seq![]);
    lemma_lex_run_from(s, 0);
    assert(lex_init() == (LexState { toks: seq![], buf: s.take(0), skip: false }));
}

/// Round trip for integer numerals: scanning the decimal spelling of any
/// `i32` yields exactly that integer token, so re-rendering it preserves
/// the value.
pub proof fn lemma_int_numeral_round_trip(n: i32)
    ensures
        spec_tokenize(render_int_spec(n as int)) == seq![TokenV::Int(n)],
{
    let s = render_int_spec(n as int);
    let mag: nat = if n < 0 {
        (-(n as int)) as nat
    } else {
        n as nat
    };
    lemma_u_digits_facts(mag);
    if n < 0 {
        assert(s == seq!['-'] + u_digits(mag));
        assert(forall|j: int| 1 <= j < s.len() ==> s[j] == u_digits(mag)[j - 1]);
        assert(s[0] == '-');
        assert(is_numeral_run(s));
        assert(forall|j: int| 0 <= j < s.len() ==> s[j] != '.');
        assert(!s.contains('.'));
        assert(s.skip(1) =~= u_digits(mag));
        assert(parse_int_spec(s) == Some(n));
    } else {
        assert(s == u_digits(mag));
        assert(is_numeral_run(s));
        assert(forall|j: int| 0 <= j < s.len() ==> s[j] != '.');
        assert(!s.contains('.'));
        assert(s.len() > 0 && (s[0] == '-' || s[0] == '+') == false);
        assert(digits_val(s) == mag);
        assert(parse_int_spec(s) == Some(n));
    }
    lemma_tokenize_numeral_run(s);
    assert(spec_flush(s) == TokenV::Int(n));
}

/// Round trip for float numerals: scanning a well-formed float numeral
/// that is one numeral run (digits and a dot, at most a leading `-`) yields
/// exactly one float token carrying that spelling, so re-rendering it
/// preserves the value.  A leading `+` or an exponent marker never survives
/// scanning as a numeral, so such spellings are no single run.
pub proof fn lemma_float_numeral_round_trip(s: Seq<char>)
    requires
        is_float_lit(s),
        is_numeral_run(s),
    ensures
        spec_tokenize(s) == seq![TokenV::Float(s)],
{
    let b = strip_sign(s);
    let off: int = if s[0] == '-' {
        1
    } else {
        0
    };
    assert(b =~= s.skip(off));
    assert(forall|j: int| 0 <= j < b.len() ==> b[j] == s[j + off]);
    // A run holds only digits, dots and a leading minus, so no exponent
    // marker: the bare-mantissa form of the grammar must hold.
    assert(forall|p: int| 0 <= p < b.len() ==> !((#[trigger] b[p]) == 'e' || b[p] == 'E'));
    assert(crate::numerals::is_mantissa(b));
    let dot = choose|i: int|
        0 <= i < b.len() && b[i] == '.' && all_digits(#[trigger] b.take(i)) && all_digits(
            b.skip(i + 1),
        );
    lemma_tokenize_numeral_run(s);
    assert(s[dot + off] == '.');
    assert(s.contains('.'));
    assert(spec_flush(s) == TokenV::Float(s));
}

} // verus!
