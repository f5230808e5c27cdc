//! The RPN parser: folds a token sequence into one expression tree with an
//! explicit stack.
//!
//! A numeral pushes a literal; an operator pops its right operand, then its
//! left, and pushes the combined node, so source order is tree order.  An
//! `Unrecognized` token fails the parse at once (the evaluator keeps its own
//! safety net for synthetic trees).  At the end, exactly one stack entry is
//! the parsed expression; none means there was no expression, more than one
//! means operands outnumbered operators.
//!
//! The success contract is the inverse of flattening: `parse` returns `Ok(e)`
//! exactly when the input is the postorder spelling `rpn_of(e)` of the tree.

use vstd::prelude::*;

use crate::tokenizer::Op;
use crate::tokenizer::Token;

verus! {

/// An expression tree: a literal token or an operation on two subtrees.
#[derive(Debug)]
pub enum Expr {
    Calc(Op, Box<Expr>, Box<Expr>),
    Literal(Token),
}

/// Trees are equal when they have the same shape and equal tokens at the
/// leaves (a float token by its spelling).
pub open spec fn expr_like(a: Expr, b: Expr) -> bool
    decreases a,
{
    match (a, b) {
        (Expr::Literal(t1), Expr::Literal(t2)) => t1@ == t2@,
        (Expr::Calc(o1, l1, r1), Expr::Calc(o2, l2, r2)) => o1 == o2 && expr_like(*l1, *l2)
            && expr_like(*r1, *r2),
        _ => false,
    }
}

impl PartialEq for Expr {
    fn eq(&self, other: &Expr) -> (r: bool)
        decreases *self,
    {
        match (self, other) {
            (Expr::Literal(t1), Expr::Literal(t2)) => t1 == t2,
            (Expr::Calc(o1, l1, r1), Expr::Calc(o2, l2, r2)) => *o1 == *o2 && (**l1).eq(&**l2)
                && (**r1).eq(&**r2),
            _ => false,
        }
    }
}

impl vstd::std_specs::cmp::PartialEqSpecImpl for Expr {
    open spec fn obeys_eq_spec() -> bool {
        true
    }

    open spec fn eq_spec(&self, other: &Expr) -> bool {
        expr_like(*self, *other)
    }
}

#[derive(Debug, PartialEq, Eq, Structural)]
pub enum ParserError {
    UnrecognizedToken,
    OperatorMissingOperand(Op),
    UnbalancedEquation,
    NoExpression,
}

/// The postorder (RPN) spelling of an expression tree.
pub open spec fn rpn_of(e: Expr) -> Seq<Token>
    decreases e,
{
    match e {
        Expr::Literal(t) => seq![t],
        Expr::Calc(op, l, r) => rpn_of(*l) + rpn_of(*r) + seq![Token::Operation(op)],
    }
}

/// Scans the tokens from position `i` with `h` operands available on the
/// stack; yields the final stack height, or the first parse error.
pub open spec fn parse_scan(toks: Seq<Token>, i: int, h: int) -> Result<int, ParserError>
    decreases toks.len() - i,
{
    if i < 0 || i >= toks.len() {
        Ok(h)
    } else {
        match toks[i] {
            Token::Unrecognized => Err(ParserError::UnrecognizedToken),
            Token::Operation(op) => if h < 2 {
                Err(ParserError::OperatorMissingOperand(op))
            } else {
                parse_scan(toks, i + 1, h - 1)
            },
            _ => parse_scan(toks, i + 1, h + 1),
        }
    }
}

/// The parse error a token sequence produces, or `None` when it parses.
pub open spec fn parse_outcome(toks: Seq<Token>) -> Option<ParserError> {
    match parse_scan(toks, 0, 0) {
        Err(e) => Some(e),
        Ok(h) => if h == 1 {
            None
        } else if h == 0 {
            Some(ParserError::NoExpression)
        } else {
            Some(ParserError::UnbalancedEquation)
        },
    }
}

/// A token that supplies an operand: an integer or float numeral.
pub open spec fn is_operand(t: Token) -> bool {
    t is Int || t is Float
}

/// A well-formed tree: every literal is a numeral.  The parser only builds
/// such trees; any other is synthetic, and the evaluator rejects it.
pub open spec fn lit_ok(e: Expr) -> bool
    decreases e,
{
    match e {
        Expr::Literal(t) => is_operand(t),
        Expr::Calc(op, l, r) => lit_ok(*l) && lit_ok(*r),
    }
}

pub open spec fn operand_count(toks: Seq<Token>) -> int
    decreases toks.len(),
{
    if toks.len() == 0 {
        0
    } else {
        operand_count(toks.drop_last()) + if is_operand(toks.last()) {
            1int
        } else {
            0int
        }
    }
}

pub open spec fn operator_count(toks: Seq<Token>) -> int
    decreases toks.len(),
{
    if toks.len() == 0 {
        0
    } else {
        operator_count(toks.drop_last()) + if toks.last() is Operation {
            1int
        } else {
            0int
        }
    }
}

proof fn lemma_scan_completes(toks: Seq<Token>, i: int)
    requires
        0 <= i <= toks.len(),
        forall|j: int| 0 <= j < toks.len() ==> !((#[trigger] toks[j]) is Unrecognized),
        forall|j: int|
            1 <= j <= toks.len() ==> operand_count(#[trigger] toks.take(j)) > operator_count(
                toks.take(j),
            ),
    ensures
        parse_scan(toks, i, operand_count(toks.take(i)) - operator_count(toks.take(i)))
            == Ok::<int, ParserError>(operand_count(toks) - operator_count(toks)),
    decreases toks.len() - i,
{
    let h = operand_count(toks.take(i)) - operator_count(toks.take(i));
    if i == toks.len() {
        assert(toks.take(i) =~= toks);
    } else {
        assert(toks.take(i + 1).drop_last() =~= toks.take(i));
        assert(toks.take(i + 1).last() == toks[i]);
        lemma_scan_completes(toks, i + 1);
        if toks[i] is Operation {
            assert(operand_count(toks.take(i + 1)) > operator_count(toks.take(i + 1)));
            assert(h >= 2);
        }
    }
}

/// Every balanced RPN token sequence parses: with one more operand than
/// there are operators, no `Unrecognized` token, and every non-empty prefix
/// holding more operands than operators, `parse` succeeds — the final stack
/// has exactly one entry.
pub proof fn lemma_balanced_rpn_parses(toks: Seq<Token>)
    requires
        toks.len() > 0,
        forall|j: int| 0 <= j < toks.len() ==> !((#[trigger] toks[j]) is Unrecognized),
        operand_count(toks) == operator_count(toks) + 1,
        forall|j: int|
            1 <= j <= toks.len() ==> operand_count(#[trigger] toks.take(j)) > operator_count(
                toks.take(j),
            ),
    ensures
        parse_outcome(toks) is None,
{
    lemma_scan_completes(toks, 0);
    assert(toks.take(0) =~= Seq::<Token>::empty());
}

/// The concatenated postorder spellings of a stack of trees, bottom first.
pub open spec fn rpn_of_all(stack: Seq<Expr>) -> Seq<Token>
    decreases stack.len(),
{
    if stack.len() == 0 {
        seq![]
    } else {
        rpn_of_all(stack.drop_last()) + rpn_of(stack.last())
    }
}

proof fn lemma_rpn_of_all_push(stack: Seq<Expr>, e: Expr)
    ensures
        rpn_of_all(stack.push(e)) == rpn_of_all(stack) + rpn_of(e),
{
    assert(stack.push(e).drop_last() =~= stack);
    assert(stack.push(e).last() == e);
}

/// Parses a token sequence into one expression tree, or reports the first
/// parse error.  `Ok(e)` comes exactly on the postorder spelling of `e`.
#[verifier::loop_isolation(false)]
pub fn parse(tokens: Vec<Token>) -> (r: Result<Expr, ParserError>)
    ensures
        (match r {
            Ok(e) => parse_outcome(tokens@) is None && tokens@ == rpn_of(e) && lit_ok(e),
            Err(pe) => parse_outcome(tokens@) == Some(pe),
        }),
{
    let ghost orig = tokens@;
    let mut rest = tokens;
    let mut stack: Vec<Expr> = Vec::new();
    let ghost mut k: int = 0;
    proof {
        assert(rpn_of_all(stack@) =~= seq![]);
        assert(rpn_of_all(stack@) + rest@ =~= orig);
    }
    while rest.len() > 0
        invariant
            0 <= k <= orig.len(),
            rest@ == orig.skip(k),
            rpn_of_all(stack@) + rest@ == orig,
            parse_scan(orig, 0, 0) == parse_scan(orig, k, stack@.len() as int),
            forall|j: int| 0 <= j < stack@.len() ==> lit_ok(#[trigger] stack@[j]),
        decreases rest@.len(),
    {
        let ghost st0 = stack@;
        let token = rest.remove(0);
        proof {
            assert(orig.skip(k)[0] == orig[k]);
            assert(token == orig[k]);
            assert(rest@ =~= orig.skip(k + 1));
            assert(parse_scan(orig, k, st0.len() as int) == (match orig[k] {
                Token::Unrecognized => Err::<int, ParserError>(ParserError::UnrecognizedToken),
                Token::Operation(op) => if st0.len() < 2 {
                    Err(ParserError::OperatorMissingOperand(op))
                } else {
                    parse_scan(orig, k + 1, st0.len() - 1)
                },
                _ => parse_scan(orig, k + 1, st0.len() as int + 1),
            }));
        }
        match token {
            Token::Unrecognized => {
                return Err(ParserError::UnrecognizedToken);
            },
            Token::Operation(op) => {
                if stack.len() < 2 {
                    return Err(ParserError::OperatorMissingOperand(op));
                }
                let operand2 = stack.pop().unwrap();
                let operand1 = stack.pop().unwrap();
                let node = Expr::Calc(op, Box::new(operand1), Box::new(operand2));
                proof {
                    let st1 = st0.drop_last().drop_last();
                    assert(st0.drop_last().drop_last().push(st0.drop_last().last()).push(
                        st0.last(),
                    ) =~= st0);
                    lemma_rpn_of_all_push(st1, operand1);
                    lemma_rpn_of_all_push(st1.push(operand1), operand2);
                    lemma_rpn_of_all_push(st1, node);
                    assert(rpn_of(node) =~= rpn_of(operand1) + rpn_of(operand2) + seq![
                        Token::Operation(op),
                    ]);
                    assert(rpn_of_all(st1.push(node)) + orig.skip(k + 1) =~= orig);
                }
                stack.push(node);
                proof {
                    k = k + 1;
                }
            },
            token => {
                let ghost t = token;
                proof {
                    lemma_rpn_of_all_push(st0, Expr::Literal(t));
                    assert(rpn_of(Expr::Literal(t)) =~= seq![t]);
                    assert(rpn_of_all(st0.push(Expr::Literal(t))) + orig.skip(k + 1) =~= orig);
                }
                stack.push(Expr::Literal(token));
                proof {
                    k = k + 1;
                }
            },
        }
    }
    proof {
        assert(k == orig.len());
        assert(parse_scan(orig, k, stack@.len() as int) == Ok::<int, ParserError>(
            stack@.len() as int,
        ));
    }
    if stack.len() == 1 {
        let ghost st_exit = stack@;
        let e = stack.pop().unwrap();
        proof {
            assert(st_exit =~= seq![e]);
            assert(rpn_of_all(seq![e]) == rpn_of_all(Seq::<Expr>::empty()) + rpn_of(e)) by {
                assert(seq![e].drop_last() =~= Seq::<Expr>::empty());
            }
            assert(rest@ =~= Seq::<Token>::empty());
            assert(rpn_of_all(st_exit) + rest@ == orig);
            assert(rpn_of_all(seq![e]) + rest@ == orig);
            assert(rpn_of_all(Seq::<Expr>::empty()) + rpn_of(e) + rest@ =~= rpn_of(e));
            assert(orig == rpn_of(e));
            assert(lit_ok(e)) by {
                assert(st_exit[0] == e);
            }
        }
        Ok(e)
    } else if stack.len() == 0 {
        Err(ParserError::NoExpression)
    } else {
        Err(ParserError::UnbalancedEquation)
    }
}

/// The stack balance of a token slice: operands minus operators.
pub open spec fn excess(toks: Seq<Token>) -> int {
    operand_count(toks) - operator_count(toks)
}

proof fn lemma_counts_concat(a: Seq<Token>, b: Seq<Token>)
    ensures
        operand_count(a + b) == operand_count(a) + operand_count(b),
        operator_count(a + b) == operator_count(a) + operator_count(b),
    decreases b.len(),
{
    if b.len() == 0 {
        assert(a + b =~= a);
    } else {
        assert((a + b).drop_last() =~= a + b.drop_last());
        assert((a + b).last() == b.last());
        lemma_counts_concat(a, b.drop_last());
    }
}

proof fn lemma_counts_single(t: Token)
    ensures
        operand_count(seq![t]) == if is_operand(t) {
            1int
        } else {
            0int
        },
        operator_count(seq![t]) == if t is Operation {
            1int
        } else {
            0int
        },
{
    assert(seq![t].drop_last() =~= Seq::<Token>::empty());
    assert(seq![t].last() == t);
    assert(operand_count(Seq::<Token>::empty()) == 0);
    assert(operator_count(Seq::<Token>::empty()) == 0);
}

/// The postorder spelling of a well-formed tree balances to exactly one
/// operand, and every proper suffix balances to none or fewer.
proof fn lemma_rpn_shape(e: Expr)
    requires
        lit_ok(e),
    ensures
        rpn_of(e).len() >= 1,
        excess(rpn_of(e)) == 1,
        forall|j: int| 0 < j < rpn_of(e).len() ==> excess(#[trigger] rpn_of(e).skip(j)) <= 0,
    decreases e,
{
    match e {
        Expr::Literal(t) => {
            lemma_counts_single(t);
        },
        Expr::Calc(op, l, r) => {
            lemma_rpn_shape(*l);
            lemma_rpn_shape(*r);
            let a = rpn_of(*l);
            let b = rpn_of(*r);
            let o = seq![Token::Operation(op)];
            let s = rpn_of(e);
            assert(s == a + b + o);
            lemma_counts_single(Token::Operation(op));
            assert(excess(o) == -1);
            lemma_counts_concat(a, b);
            lemma_counts_concat(a + b, o);
            assert(excess(s) == 1);
            assert forall|j: int| 0 < j < s.len() implies excess(#[trigger] s.skip(j)) <= 0 by {
                if j < a.len() {
                    assert(s.skip(j) =~= a.skip(j) + b + o);
                    lemma_counts_concat(a.skip(j), b);
                    lemma_counts_concat(a.skip(j) + b, o);
                    assert(excess(a.skip(j)) <= 0);
                } else if j == a.len() {
                    assert(s.skip(j) =~= b + o);
                    lemma_counts_concat(b, o);
                } else if j < a.len() + b.len() {
                    assert(s.skip(j) =~= b.skip(j - a.len()) + o);
                    lemma_counts_concat(b.skip(j - a.len()), o);
                    assert(excess(b.skip(j - a.len())) <= 0);
                } else {
                    assert(j == a.len() + b.len());
                    assert(s.skip(j) =~= o);
                }
            }
        },
    }
}

/// RPN is uniquely decodable: two well-formed trees with the same postorder
/// spelling are the same tree.  Together with `parse`'s contract this pins
/// the parse result completely: `Ok(e)` names the one tree spelt by the
/// input.
#[verifier::rlimit(60)]
pub proof fn lemma_rpn_unique(a: Expr, b: Expr)
    requires
        lit_ok(a),
        lit_ok(b),
        rpn_of(a) == rpn_of(b),
    ensures
        a == b,
    decreases a,
{
    lemma_rpn_shape(a);
    lemma_rpn_shape(b);
    match (a, b) {
        (Expr::Literal(t1), Expr::Literal(t2)) => {
            assert(seq![t1][0] == seq![t2][0]);
        },
        (Expr::Literal(t1), Expr::Calc(o2, l2, r2)) => {
            lemma_rpn_shape(*l2);
            lemma_rpn_shape(*r2);
            assert(rpn_of(b).len() >= 3);
        },
        (Expr::Calc(o1, l1, r1), Expr::Literal(t2)) => {
            lemma_rpn_shape(*l1);
            lemma_rpn_shape(*r1);
            assert(rpn_of(a).len() >= 3);
        },
        (Expr::Calc(o1, l1, r1), Expr::Calc(o2, l2, r2)) => {
            let a1 = rpn_of(*l1);
            let b1 = rpn_of(*r1);
            let a2 = rpn_of(*l2);
            let b2 = rpn_of(*r2);
            lemma_rpn_shape(*l1);
            lemma_rpn_shape(*r1);
            lemma_rpn_shape(*l2);
            lemma_rpn_shape(*r2);
            let s = rpn_of(a);
            assert(s == a1 + b1 + seq![Token::Operation(o1)]);
            assert(s == a2 + b2 + seq![Token::Operation(o2)]);
            assert(s.last() == Token::Operation(o1));
            assert(s.last() == Token::Operation(o2));
            assert(o1 == o2);
            let c = s.drop_last();
            assert(c =~= a1 + b1);
            assert(c =~= a2 + b2);
            assert(b1 =~= c.skip(a1.len() as int));
            assert(b2 =~= c.skip(a2.len() as int));
            if a1.len() < a2.len() {
                // Then the right spelling of `a` would have the complete
                // right spelling of `b` as a proper suffix, whose balance is
                // both one and at most none.
                let d = a2.len() - a1.len();
                assert(b2 =~= b1.skip(d));
                assert(excess(b1.skip(d)) <= 0);
                assert(false);
            } else if a2.len() < a1.len() {
                let d = a1.len() - a2.len();
                assert(b1 =~= b2.skip(d));
                assert(excess(b2.skip(d)) <= 0);
                assert(false);
            } else {
                assert(a1 =~= c.take(a1.len() as int));
                assert(a2 =~= c.take(a2.len() as int));
                assert(a1 == a2);
                assert(b1 == b2);
                lemma_rpn_unique(*l1, *l2);
                lemma_rpn_unique(*r1, *r2);
            }
        },
    }
}

} // verus!
