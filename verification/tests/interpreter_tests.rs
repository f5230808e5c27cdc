use rpn_calc::interpreter::ArithOutcome;
use rpn_calc::interpreter::EvalError;
use rpn_calc::interpreter::EvalOutcome;
use rpn_calc::interpreter::FloatTask;
use rpn_calc::interpreter::InterpretError;
use rpn_calc::interpreter::InterpretOutcome;
use rpn_calc::interpreter::Number;
use rpn_calc::interpreter::eval;
use rpn_calc::interpreter::interpret;
use rpn_calc::parser::Expr;
use rpn_calc::parser::parse;
use rpn_calc::tokenizer::Op;
use rpn_calc::tokenizer::Token;
use rpn_calc::tokenizer::tokenize;

fn fl(s: &str) -> Token {
    Token::Float(s.chars().collect())
}

fn fnum(v: f32) -> Number {
    Number::Float(v.to_bits())
}

/// The float unit the library hands its `FloatTask`s to.
fn solve(task: FloatTask) -> u32 {
    match task {
        FloatTask::Parse(cs) => {
            let spelled: String = cs.iter().collect();
            spelled.parse::<f32>().unwrap().to_bits()
        }
        FloatTask::Apply(op, a, b) => {
            let x = as_f32(a);
            let y = as_f32(b);
            let r = match op {
                Op::Add => x + y,
                Op::Sub => x - y,
                Op::Mult => x * y,
                Op::Div => x / y,
            };
            r.to_bits()
        }
    }
}

fn as_f32(n: Number) -> f32 {
    match n {
        Number::Int(i) => i as f32,
        Number::Float(bits) => f32::from_bits(bits),
    }
}

/// Drives evaluation, answering float tasks until it settles.
fn run_eval(e: &Expr) -> Result<Number, EvalError> {
    let mut answers: Vec<u32> = vec![];
    loop {
        match eval(e, &answers) {
            EvalOutcome::Done(n) => return Ok(n),
            EvalOutcome::Fail(err) => return Err(err),
            EvalOutcome::Pending(task) => answers.push(solve(task)),
            EvalOutcome::DivFault(x, y) => {
                let _ = x / y;
                unreachable!()
            }
        }
    }
}

fn run_interpret(line: &str) -> Result<Number, InterpretError> {
    let mut answers: Vec<u32> = vec![];
    loop {
        match interpret(line, &answers) {
            InterpretOutcome::Done(n) => return Ok(n),
            InterpretOutcome::Fail(err) => return Err(err),
            InterpretOutcome::Pending(task) => answers.push(solve(task)),
            InterpretOutcome::DivFault(x, y) => {
                let _ = x / y;
                unreachable!()
            }
        }
    }
}

#[test]
fn test_eval() {
    assert_eq!(
        run_eval(&Expr::Literal(Token::Operation(Op::Add))),
        Err(EvalError::UnexpectedLiteral(Token::Operation(Op::Add)))
    );
    assert_eq!(
        run_eval(&Expr::Literal(Token::Operation(Op::Sub))),
        Err(EvalError::UnexpectedLiteral(Token::Operation(Op::Sub)))
    );
    assert_eq!(
        run_eval(&Expr::Literal(Token::Operation(Op::Div))),
        Err(EvalError::UnexpectedLiteral(Token::Operation(Op::Div)))
    );
    assert_eq!(
        run_eval(&Expr::Literal(Token::Operation(Op::Mult))),
        Err(EvalError::UnexpectedLiteral(Token::Operation(Op::Mult)))
    );
    assert_eq!(
        run_eval(&Expr::Literal(Token::Unrecognized)),
        Err(EvalError::UnexpectedLiteral(Token::Unrecognized)),
    );

    assert_eq!(run_eval(&Expr::Literal(Token::Int(1))), Ok(Number::Int(1)));
    assert_eq!(run_eval(&Expr::Literal(fl("1.2"))), Ok(fnum(1.2)));

    assert_eq!(
        run_eval(&Expr::Calc(
            Op::Add,
            Box::new(Expr::Literal(Token::Int(1))),
            Box::new(Expr::Literal(Token::Int(1))),
        )),
        Ok(Number::Int(2))
    );
    assert_eq!(
        run_eval(&Expr::Calc(
            Op::Add,
            Box::new(Expr::Literal(Token::Int(-1))),
            Box::new(Expr::Literal(Token::Int(-11))),
        )),
        Ok(Number::Int(-12))
    );
    assert_eq!(
        run_eval(&Expr::Calc(
            Op::Add,
            Box::new(Expr::Literal(Token::Int(-1))),
            Box::new(Expr::Literal(Token::Int(11))),
        )),
        Ok(Number::Int(10))
    );
    assert_eq!(
        run_eval(&Expr::Calc(
            Op::Sub,
            Box::new(Expr::Literal(Token::Int(1))),
            Box::new(Expr::Literal(Token::Int(1))),
        )),
        Ok(Number::Int(0))
    );
    assert_eq!(
        run_eval(&Expr::Calc(
            Op::Div,
            Box::new(Expr::Literal(Token::Int(2))),
            Box::new(Expr::Literal(Token::Int(1))),
        )),
        Ok(Number::Int(2))
    );
    assert_eq!(
        run_eval(&Expr::Calc(
            Op::Mult,
            Box::new(Expr::Literal(Token::Int(2))),
            Box::new(Expr::Literal(Token::Int(3))),
        )),
        Ok(Number::Int(6))
    );

    assert_eq!(
        run_eval(&Expr::Calc(
            Op::Add,
            Box::new(Expr::Literal(fl("1.4"))),
            Box::new(Expr::Literal(Token::Int(1))),
        )),
        Ok(fnum(2.4))
    );
    assert_eq!(
        run_eval(&Expr::Calc(
            Op::Add,
            Box::new(Expr::Literal(Token::Int(1))),
            Box::new(Expr::Literal(fl("1.4"))),
        )),
        Ok(fnum(2.4))
    );
    assert_eq!(
        run_eval(&Expr::Calc(
            Op::Add,
            Box::new(Expr::Literal(fl("1.4"))),
            Box::new(Expr::Literal(fl("1.4"))),
        )),
        Ok(fnum(2.8))
    );

    assert_eq!(
        run_eval(&Expr::Calc(
            Op::Add,
            Box::new(Expr::Literal(fl("1.4"))),
            Box::new(Expr::Calc(
                Op::Mult,
                Box::new(Expr::Literal(fl("1.4"))),
                Box::new(Expr::Literal(Token::Int(2)))
            )),
        )),
        Ok(fnum(4.2))
    );
    assert_eq!(
        run_eval(&Expr::Calc(
            Op::Add,
            Box::new(Expr::Calc(
                Op::Mult,
                Box::new(Expr::Literal(fl("1.4"))),
                Box::new(Expr::Literal(Token::Int(1)))
            )),
            Box::new(Expr::Literal(fl("1.4"))),
        )),
        Ok(fnum(2.8))
    );
}

/// A float literal with an exponent spelling evaluates to its parsed value.
#[test]
fn test_eval_exponent_literal() {
    assert_eq!(run_eval(&Expr::Literal(fl("1.2e3"))), Ok(fnum(1200.0)));
    assert_eq!(
        run_eval(&Expr::Calc(
            Op::Mult,
            Box::new(Expr::Literal(fl("1.5e1"))),
            Box::new(Expr::Literal(Token::Int(2))),
        )),
        Ok(fnum(30.0))
    );
}

/// Integer division by zero (and `i32::MIN / -1`) is reported as the fault
/// native division would trap on, with the operands.
#[test]
fn test_eval_division_fault() {
    let e = Expr::Calc(
        Op::Div,
        Box::new(Expr::Literal(Token::Int(1))),
        Box::new(Expr::Literal(Token::Int(0))),
    );
    assert!(matches!(eval(&e, &vec![]), EvalOutcome::DivFault(1, 0)));

    let e2 = Expr::Calc(
        Op::Div,
        Box::new(Expr::Literal(Token::Int(i32::MIN))),
        Box::new(Expr::Literal(Token::Int(-1))),
    );
    assert!(matches!(
        eval(&e2, &vec![]),
        EvalOutcome::DivFault(i32::MIN, -1)
    ));
}

/// Integer addition, subtraction and multiplication wrap (two's
/// complement); truncating division rounds toward zero.
#[test]
fn test_eval_int_arithmetic_edges() {
    let e = Expr::Calc(
        Op::Add,
        Box::new(Expr::Literal(Token::Int(i32::MAX))),
        Box::new(Expr::Literal(Token::Int(1))),
    );
    assert_eq!(run_eval(&e), Ok(Number::Int(i32::MIN)));

    let e2 = Expr::Calc(
        Op::Div,
        Box::new(Expr::Literal(Token::Int(-7))),
        Box::new(Expr::Literal(Token::Int(2))),
    );
    assert_eq!(run_eval(&e2), Ok(Number::Int(-3)));
}

/// The four arithmetic methods on `Number` decide the domain: two integers
/// compute at once, a float operand hands the operation out.
#[test]
fn test_number_methods() {
    assert!(matches!(
        Number::Int(5).add(&Number::Int(6)),
        ArithOutcome::Value(Number::Int(11))
    ));
    assert!(matches!(
        Number::Int(5).sub(&Number::Int(6)),
        ArithOutcome::Value(Number::Int(-1))
    ));
    assert!(matches!(
        Number::Int(10).div(&Number::Int(4)),
        ArithOutcome::Value(Number::Int(2))
    ));
    assert!(matches!(
        Number::Int(5).mult(&Number::Int(6)),
        ArithOutcome::Value(Number::Int(30))
    ));
    assert!(matches!(
        Number::Int(5).div(&Number::Int(0)),
        ArithOutcome::DivFault(5, 0)
    ));

    let f = fnum(1.5);
    assert!(matches!(
        Number::Int(1).add(&f),
        ArithOutcome::Pending(Op::Add, Number::Int(1), _)
    ));
    assert!(matches!(
        f.mult(&Number::Int(2)),
        ArithOutcome::Pending(Op::Mult, _, Number::Int(2))
    ));
}

/// Nested expressions evaluate inner to outer: `"3 1 2 + -"` parses to
/// subtraction of a sum and evaluates to zero.
#[test]
fn test_interpret_nested() {
    let toks = tokenize("3 1 2 + -".into());
    let e = parse(toks).unwrap();
    assert_eq!(
        e,
        Expr::Calc(
            Op::Sub,
            Box::new(Expr::Literal(Token::Int(3))),
            Box::new(Expr::Calc(
                Op::Add,
                Box::new(Expr::Literal(Token::Int(1))),
                Box::new(Expr::Literal(Token::Int(2)))
            ))
        )
    );
    assert_eq!(run_eval(&e), Ok(Number::Int(0)));
    assert_eq!(run_interpret("3 1 2 + -"), Ok(Number::Int(0)));
}

#[test]
fn test_interpret_pipeline() {
    assert_eq!(run_interpret("10 4 +"), Ok(Number::Int(14)));
    assert_eq!(run_interpret("10 4 * 2 +"), Ok(Number::Int(42)));
    assert_eq!(run_interpret("10. 4 /"), Ok(fnum(2.5)));
    assert_eq!(run_interpret("10 4.5 -"), Ok(fnum(5.5)));

    assert!(matches!(
        run_interpret(""),
        Err(InterpretError::ParseError(
            rpn_calc::parser::ParserError::NoExpression
        ))
    ));
    assert!(matches!(
        run_interpret("1 2"),
        Err(InterpretError::ParseError(
            rpn_calc::parser::ParserError::UnbalancedEquation
        ))
    ));
    assert!(matches!(
        run_interpret("asdf"),
        Err(InterpretError::ParseError(
            rpn_calc::parser::ParserError::UnrecognizedToken
        ))
    ));
    assert!(matches!(
        run_interpret("1 +"),
        Err(InterpretError::ParseError(
            rpn_calc::parser::ParserError::OperatorMissingOperand(Op::Add)
        ))
    ));
}
