//! The evaluator: reduces an expression tree to one number, and the
//! `interpret` entry point composing the whole pipeline.
//!
//! A number is an `i32` or an `f32` kept as its bit pattern.  Integer
//! arithmetic is done here, verified: add, sub and mult wrap (two's
//! complement), division truncates, and a division the machine would trap
//! (by zero, or `i32::MIN / -1`) is reported as a `DivFault` so the caller
//! can fail exactly as native division would.  As soon as either operand is
//! a float the operation is handed back as a `FloatTask`; the caller's
//! float unit computes it and re-invokes evaluation with the result bits
//! appended to `answers`.  Evaluation is a pure function of the tree and
//! the answers received so far, so the caller simply loops until the
//! outcome is no longer `Pending`.

use vstd::prelude::*;
use vstd::string::*;

use crate::parser::Expr;
use crate::parser::ParserError;
use crate::parser::lit_ok;
use crate::parser::parse;
use crate::parser::parse_outcome;
use crate::parser::rpn_of;
use crate::tokenizer::Op;
use crate::tokenizer::Token;
use crate::tokenizer::TokenV;
use crate::tokenizer::spec_tokenize;
use crate::tokenizer::token_views;
use crate::tokenizer::tokenize;
use vstd::wrapping::i32_specs;

verus! {

/// A numeric value: an integer, or a float as its IEEE-754 bit pattern.
#[derive(Debug, PartialEq, Eq, Structural, Clone, Copy)]
pub enum Number {
    Float(u32),
    Int(i32),
}

/// A floating-point step only the caller's float unit can take: parsing a
/// float numeral's spelling, or applying an operator when either operand is
/// a float (an integer operand is widened first).  The answer is the
/// resulting `f32`'s bit pattern.
#[derive(Debug)]
pub enum FloatTask {
    Parse(Vec<char>),
    Apply(Op, Number, Number),
}

pub enum FloatTaskV {
    Parse(Seq<char>),
    Apply(Op, Number, Number),
}

impl View for FloatTask {
    type V = FloatTaskV;

    open spec fn view(&self) -> FloatTaskV {
        match self {
            FloatTask::Parse(cs) => FloatTaskV::Parse(cs@),
            FloatTask::Apply(op, a, b) => FloatTaskV::Apply(*op, *a, *b),
        }
    }
}

/// What one arithmetic operation yields: a value, a float task for the
/// caller, or an integer division the machine would trap.
#[derive(Debug)]
pub enum ArithOutcome {
    Value(Number),
    Pending(Op, Number, Number),
    DivFault(i32, i32),
}

/// Addition: integers wrap; a float operand turns the operation into a
/// float task.
pub open spec fn spec_add(a: Number, b: Number) -> ArithOutcome {
    match (a, b) {
        (Number::Int(x), Number::Int(y)) => ArithOutcome::Value(
            Number::Int(i32_specs::wrapping_add(x, y)),
        ),
        _ => ArithOutcome::Pending(Op::Add, a, b),
    }
}

pub open spec fn spec_sub(a: Number, b: Number) -> ArithOutcome {
    match (a, b) {
        (Number::Int(x), Number::Int(y)) => ArithOutcome::Value(
            Number::Int(i32_specs::wrapping_sub(x, y)),
        ),
        _ => ArithOutcome::Pending(Op::Sub, a, b),
    }
}

pub open spec fn spec_mult(a: Number, b: Number) -> ArithOutcome {
    match (a, b) {
        (Number::Int(x), Number::Int(y)) => ArithOutcome::Value(
            Number::Int(i32_specs::wrapping_mul(x, y)),
        ),
        _ => ArithOutcome::Pending(Op::Mult, a, b),
    }
}

/// Division: integer division truncates, and the two inputs native `i32`
/// division traps on (a zero divisor, and `i32::MIN / -1`) are reported as
/// a fault.
pub open spec fn spec_div(a: Number, b: Number) -> ArithOutcome {
    match (a, b) {
        (Number::Int(x), Number::Int(y)) => match x.checked_div(y) {
            Some(q) => ArithOutcome::Value(Number::Int(q)),
            None => ArithOutcome::DivFault(x, y),
        },
        _ => ArithOutcome::Pending(Op::Div, a, b),
    }
}

pub open spec fn spec_arith(op: Op, a: Number, b: Number) -> ArithOutcome {
    match op {
        Op::Add => spec_add(a, b),
        Op::Sub => spec_sub(a, b),
        Op::Mult => spec_mult(a, b),
        Op::Div => spec_div(a, b),
    }
}

impl Number {
    pub fn add(&self, other: &Number) -> (r: ArithOutcome)
        ensures
            r == spec_add(*self, *other),
    {
        match (self, other) {
            (Number::Int(x), Number::Int(y)) => ArithOutcome::Value(
                Number::Int(x.wrapping_add(*y)),
            ),
            _ => ArithOutcome::Pending(Op::Add, *self, *other),
        }
    }

    pub fn sub(&self, other: &Number) -> (r: ArithOutcome)
        ensures
            r == spec_sub(*self, *other),
    {
        match (self, other) {
            (Number::Int(x), Number::Int(y)) => ArithOutcome::Value(
                Number::Int(x.wrapping_sub(*y)),
            ),
            _ => ArithOutcome::Pending(Op::Sub, *self, *other),
        }
    }

    pub fn mult(&self, other: &Number) -> (r: ArithOutcome)
        ensures
            r == spec_mult(*self, *other),
    {
        match (self, other) {
            (Number::Int(x), Number::Int(y)) => ArithOutcome::Value(
                Number::Int(x.wrapping_mul(*y)),
            ),
            _ => ArithOutcome::Pending(Op::Mult, *self, *other),
        }
    }

    pub fn div(&self, other: &Number) -> (r: ArithOutcome)
        ensures
            r == spec_div(*self, *other),
    {
        match (self, other) {
            (Number::Int(x), Number::Int(y)) => match x.checked_div(*y) {
                Some(q) => ArithOutcome::Value(Number::Int(q)),
                None => ArithOutcome::DivFault(*x, *y),
            },
            _ => ArithOutcome::Pending(Op::Div, *self, *other),
        }
    }
}

/// The evaluator's safety net: a literal that is not a numeral.
#[derive(Debug)]
pub enum EvalError {
    UnexpectedLiteral(Token),
}

pub enum EvalErrorV {
    UnexpectedLiteral(TokenV),
}

impl View for EvalError {
    type V = EvalErrorV;

    open spec fn view(&self) -> EvalErrorV {
        match self {
            EvalError::UnexpectedLiteral(t) => EvalErrorV::UnexpectedLiteral(t@),
        }
    }
}

impl PartialEq for EvalError {
    fn eq(&self, other: &EvalError) -> bool {
        match (self, other) {
            (EvalError::UnexpectedLiteral(a), EvalError::UnexpectedLiteral(b)) => a == b,
        }
    }
}

impl vstd::std_specs::cmp::PartialEqSpecImpl for EvalError {
    open spec fn obeys_eq_spec() -> bool {
        true
    }

    open spec fn eq_spec(&self, other: &EvalError) -> bool {
        self@ == other@
    }
}

/// What evaluating a tree against the answers received so far yields.
#[derive(Debug)]
pub enum EvalOutcome {
    Done(Number),
    Fail(EvalError),
    Pending(FloatTask),
    DivFault(i32, i32),
}

pub enum EvalOutcomeV {
    Done(Number),
    Fail(EvalErrorV),
    Pending(FloatTaskV),
    DivFault(i32, i32),
}

impl View for EvalOutcome {
    type V = EvalOutcomeV;

    open spec fn view(&self) -> EvalOutcomeV {
        match self {
            EvalOutcome::Done(n) => EvalOutcomeV::Done(*n),
            EvalOutcome::Fail(e) => EvalOutcomeV::Fail(e@),
            EvalOutcome::Pending(t) => EvalOutcomeV::Pending(t@),
            EvalOutcome::DivFault(x, y) => EvalOutcomeV::DivFault(*x, *y),
        }
    }
}

/// Finishes one arithmetic operation: a pending float operation consumes
/// the next answer when one is there, and is handed out otherwise.
pub open spec fn lift_arith(a: ArithOutcome, fs: Seq<u32>, k: int) -> (EvalOutcomeV, int) {
    match a {
        ArithOutcome::Value(n) => (EvalOutcomeV::Done(n), k),
        ArithOutcome::DivFault(x, y) => (EvalOutcomeV::DivFault(x, y), k),
        ArithOutcome::Pending(op, x, y) => if k < fs.len() {
            (EvalOutcomeV::Done(Number::Float(fs[k])), k + 1)
        } else {
            (EvalOutcomeV::Pending(FloatTaskV::Apply(op, x, y)), k)
        },
    }
}

/// Evaluation as a pure function of the tree and the answer list, with `k`
/// answers already consumed: left subtree first, then right, then the
/// operation; each float step consumes the next answer, and the first float
/// step past the end of the answers stops evaluation with that task.
pub open spec fn eval_model(e: Expr, fs: Seq<u32>, k: int) -> (EvalOutcomeV, int)
    decreases e,
{
    match e {
        Expr::Literal(t) => match t {
            Token::Int(n) => (EvalOutcomeV::Done(Number::Int(n)), k),
            Token::Float(cs) => if k < fs.len() {
                (EvalOutcomeV::Done(Number::Float(fs[k])), k + 1)
            } else {
                (EvalOutcomeV::Pending(FloatTaskV::Parse(cs@)), k)
            },
            _ => (EvalOutcomeV::Fail(EvalErrorV::UnexpectedLiteral(t@)), k),
        },
        Expr::Calc(op, l, r) => {
            let (lo, k1) = eval_model(*l, fs, k);
            match lo {
                EvalOutcomeV::Done(a) => {
                    let (ro, k2) = eval_model(*r, fs, k1);
                    match ro {
                        EvalOutcomeV::Done(b) => lift_arith(spec_arith(op, a, b), fs, k2),
                        _ => (ro, k2),
                    }
                },
                _ => (lo, k1),
            }
        },
    }
}

fn clone_chars(v: &Vec<char>) -> (r: Vec<char>)
    ensures
        r@ == v@,
{
    let n = v.len();
    let mut out: Vec<char> = Vec::new();
    let mut i: usize = 0;
    while i < n
        invariant
            i <= n,
            n == v@.len(),
            out@ == v@.take(i as int),
        decreases n - i,
    {
        out.push(v[i]);
        proof {
            assert(v@.take(i + 1) =~= v@.take(i as int).push(v@[i as int]));
        }
        i += 1;
    }
    proof {
        assert(v@.take(n as int) =~= v@);
    }
    out
}

fn eval_at(e: &Expr, answers: &Vec<u32>, k: usize) -> (res: (EvalOutcome, usize))
    requires
        k <= answers@.len(),
    ensures
        res.0@ == eval_model(*e, answers@, k as int).0,
        res.1 as int == eval_model(*e, answers@, k as int).1,
        k <= res.1 <= answers@.len(),
    decreases *e,
{
    match e {
        Expr::Literal(t) => match t {
            Token::Int(n) => (EvalOutcome::Done(Number::Int(*n)), k),
            Token::Float(cs) => {
                if k < answers.len() {
                    (EvalOutcome::Done(Number::Float(answers[k])), k + 1)
                } else {
                    (EvalOutcome::Pending(FloatTask::Parse(clone_chars(cs))), k)
                }
            },
            Token::Operation(op) => (
                EvalOutcome::Fail(EvalError::UnexpectedLiteral(Token::Operation(*op))),
                k,
            ),
            Token::Unrecognized => (
                EvalOutcome::Fail(EvalError::UnexpectedLiteral(Token::Unrecognized)),
                k,
            ),
        },
        Expr::Calc(op, l, r) => {
            let (lo, k1) = eval_at(&**l, answers, k);
            match lo {
                EvalOutcome::Done(a) => {
                    let (ro, k2) = eval_at(&**r, answers, k1);
                    match ro {
                        EvalOutcome::Done(b) => {
                            let ao = match op {
                                Op::Add => a.add(&b),
                                Op::Sub => a.sub(&b),
                                Op::Div => a.div(&b),
                                Op::Mult => a.mult(&b),
                            };
                            match ao {
                                ArithOutcome::Value(n) => (EvalOutcome::Done(n), k2),
                                ArithOutcome::DivFault(x, y) => (EvalOutcome::DivFault(x, y), k2),
                                ArithOutcome::Pending(o, x, y) => {
                                    if k2 < answers.len() {
                                        (EvalOutcome::Done(Number::Float(answers[k2])), k2 + 1)
                                    } else {
                                        (EvalOutcome::Pending(FloatTask::Apply(o, x, y)), k2)
                                    }
                                },
                            }
                        },
                        other => (other, k2),
                    }
                },
                other => (other, k1),
            }
        },
    }
}

/// Evaluates an expression tree against the float answers received so far.
/// `Done` carries the value; `Pending` carries the float step the caller
/// must answer before re-invoking; `Fail` reports a literal that is no
/// numeral; `DivFault` reports an integer division the machine would trap.
pub fn eval(expr: &Expr, answers: &Vec<u32>) -> (r: EvalOutcome)
    ensures
        r@ == eval_model(*expr, answers@, 0).0,
{
    let (r, _consumed) = eval_at(expr, answers, 0);
    r
}

/// Whether some float numeral occurs in the tree.
pub open spec fn has_float(e: Expr) -> bool
    decreases e,
{
    match e {
        Expr::Literal(t) => t is Float,
        Expr::Calc(op, l, r) => has_float(*l) || has_float(*r),
    }
}

/// Swapping the operands never changes whether an operation stays in the
/// integers or becomes a float task.
pub proof fn lemma_promotion_symmetric(op: Op, a: Number, b: Number)
    ensures
        (spec_arith(op, a, b) is Pending) == (spec_arith(op, b, a) is Pending),
        (spec_arith(op, a, b) is Pending) == (a is Float || b is Float),
{
}

/// A completed evaluation yields a float exactly when a float numeral
/// occurs in the tree: an all-integer tree stays in the integers, and one
/// float operand promotes every operation above it.
pub proof fn lemma_eval_float_type(e: Expr, fs: Seq<u32>, k: int)
    requires
        0 <= k <= fs.len(),
    ensures
        k <= eval_model(e, fs, k).1 <= fs.len(),
        (eval_model(e, fs, k).0 matches EvalOutcomeV::Done(n) ==> ((n is Float) <==> has_float(
            e,
        ))),
    decreases e,
{
    match e {
        Expr::Literal(t) => {},
        Expr::Calc(op, l, r) => {
            lemma_eval_float_type(*l, fs, k);
            let (lo, k1) = eval_model(*l, fs, k);
            lemma_eval_float_type(*r, fs, k1);
        },
    }
}

/// An error from the pipeline: the parse error or the evaluation error.
#[derive(Debug)]
pub enum InterpretError {
    ParseError(ParserError),
    EvalError(EvalError),
}

pub enum InterpretErrorV {
    ParseError(ParserError),
    EvalError(EvalErrorV),
}

impl View for InterpretError {
    type V = InterpretErrorV;

    open spec fn view(&self) -> InterpretErrorV {
        match self {
            InterpretError::ParseError(pe) => InterpretErrorV::ParseError(*pe),
            InterpretError::EvalError(ee) => InterpretErrorV::EvalError(ee@),
        }
    }
}

impl PartialEq for InterpretError {
    fn eq(&self, other: &InterpretError) -> bool {
        match (self, other) {
            (InterpretError::ParseError(a), InterpretError::ParseError(b)) => a == b,
            (InterpretError::EvalError(a), InterpretError::EvalError(b)) => a == b,
            _ => false,
        }
    }
}

impl vstd::std_specs::cmp::PartialEqSpecImpl for InterpretError {
    open spec fn obeys_eq_spec() -> bool {
        true
    }

    open spec fn eq_spec(&self, other: &InterpretError) -> bool {
        self@ == other@
    }
}

/// What one round of interpretation yields (see `interpret`).
#[derive(Debug)]
pub enum InterpretOutcome {
    Done(Number),
    Fail(InterpretError),
    Pending(FloatTask),
    DivFault(i32, i32),
}

pub enum InterpretOutcomeV {
    Done(Number),
    Fail(InterpretErrorV),
    Pending(FloatTaskV),
    DivFault(i32, i32),
}

impl View for InterpretOutcome {
    type V = InterpretOutcomeV;

    open spec fn view(&self) -> InterpretOutcomeV {
        match self {
            InterpretOutcome::Done(n) => InterpretOutcomeV::Done(*n),
            InterpretOutcome::Fail(e) => InterpretOutcomeV::Fail(e@),
            InterpretOutcome::Pending(t) => InterpretOutcomeV::Pending(t@),
            InterpretOutcome::DivFault(x, y) => InterpretOutcomeV::DivFault(*x, *y),
        }
    }
}

pub open spec fn lift_eval_outcome(o: EvalOutcomeV) -> InterpretOutcomeV {
    match o {
        EvalOutcomeV::Done(n) => InterpretOutcomeV::Done(n),
        EvalOutcomeV::Fail(e) => InterpretOutcomeV::Fail(InterpretErrorV::EvalError(e)),
        EvalOutcomeV::Pending(t) => InterpretOutcomeV::Pending(t),
        EvalOutcomeV::DivFault(x, y) => InterpretOutcomeV::DivFault(x, y),
    }
}

/// The whole pipeline on one line of text: tokenize, parse, evaluate
/// against the float answers received so far.  A parse error ends the round
/// with `Fail`; a pending float task asks the caller to answer it and call
/// again with the answer appended.
pub fn interpret(text: &str, answers: &Vec<u32>) -> (r: InterpretOutcome)
    ensures
        exists|toks: Seq<Token>|
            #![auto]
            token_views(toks) == spec_tokenize(text@) && (match parse_outcome(toks) {
                Some(pe) => r@ == InterpretOutcomeV::Fail(InterpretErrorV::ParseError(pe)),
                None => exists|e: Expr|
                    #![auto]
                    lit_ok(e) && toks == rpn_of(e) && r@ == lift_eval_outcome(
                        eval_model(e, answers@, 0).0,
                    ),
            }),
{
    let toks = tokenize(String::from_str(text));
    let ghost tseq = toks@;
    match parse(toks) {
        Err(pe) => {
            let r = InterpretOutcome::Fail(InterpretError::ParseError(pe));
            proof {
                assert(token_views(tseq) == spec_tokenize(text@) && (match parse_outcome(tseq) {
                    Some(pe2) => r@ == InterpretOutcomeV::Fail(InterpretErrorV::ParseError(pe2)),
                    None => exists|e: Expr|
                        #![auto]
                        lit_ok(e) && tseq == rpn_of(e) && r@ == lift_eval_outcome(
                            eval_model(e, answers@, 0).0,
                        ),
                }));
            }
            r
        },
        Ok(e) => {
            let r = match eval(&e, answers) {
                EvalOutcome::Done(n) => InterpretOutcome::Done(n),
                EvalOutcome::Fail(ee) => InterpretOutcome::Fail(InterpretError::EvalError(ee)),
                EvalOutcome::Pending(t) => InterpretOutcome::Pending(t),
                EvalOutcome::DivFault(x, y) => InterpretOutcome::DivFault(x, y),
            };
            proof {
                assert(lit_ok(e) && tseq == rpn_of(e) && r@ == lift_eval_outcome(
                    eval_model(e, answers@, 0).0,
                ));
                assert(token_views(tseq) == spec_tokenize(text@) && (match parse_outcome(tseq) {
                    Some(pe2) => r@ == InterpretOutcomeV::Fail(InterpretErrorV::ParseError(pe2)),
                    None => exists|e2: Expr|
                        #![auto]
                        lit_ok(e2) && tseq == rpn_of(e2) && r@ == lift_eval_outcome(
                            eval_model(e2, answers@, 0).0,
                        ),
                }));
            }
            r
        },
    }
}

} // verus!
