use rpn_calc::numerals::render_int;
use rpn_calc::tokenizer::Op;
use rpn_calc::tokenizer::Token;
use rpn_calc::tokenizer::TokenParseError;
use rpn_calc::tokenizer::tokenize;

/// A float token from its spelling.
fn fl(s: &str) -> Token {
    Token::Float(s.chars().collect())
}

#[test]
fn test_tokenize() {
    assert_eq!(tokenize("2".into()), vec![Token::Int(2)]);
    assert_eq!(tokenize("22".into()), vec![Token::Int(22)]);
    assert_eq!(tokenize("-2".into()), vec![Token::Int(-2)]);

    assert_eq!(tokenize("f".into()), vec![Token::Unrecognized]);
    assert_eq!(tokenize("3-".into()), vec![Token::Unrecognized]);
    assert_eq!(tokenize("3+".into()), vec![Token::Unrecognized]);
    assert_eq!(tokenize("3*".into()), vec![Token::Unrecognized]);
    assert_eq!(tokenize("3/".into()), vec![Token::Unrecognized]);
    assert_eq!(tokenize("+3".into()), vec![Token::Unrecognized]);
    assert_eq!(tokenize("*3".into()), vec![Token::Unrecognized]);
    assert_eq!(tokenize("/3".into()), vec![Token::Unrecognized]);
    assert_eq!(tokenize("-3+".into()), vec![Token::Unrecognized]);
    assert_eq!(tokenize("+3-".into()), vec![Token::Unrecognized]);
    assert_eq!(tokenize("*3/".into()), vec![Token::Unrecognized]);
    assert_eq!(tokenize("/3*".into()), vec![Token::Unrecognized]);
    assert_eq!(tokenize("3-2".into()), vec![Token::Unrecognized]);
    assert_eq!(tokenize("3-2.3".into()), vec![Token::Unrecognized]);
    assert_eq!(tokenize("3.0-2".into()), vec![Token::Unrecognized]);
    assert_eq!(
        tokenize("22 asdf *(".into()),
        vec![Token::Int(22), Token::Unrecognized, Token::Unrecognized]
    );
    assert_eq!(
        tokenize("2f f32 3f65".into()),
        vec![
            Token::Unrecognized,
            Token::Unrecognized,
            Token::Unrecognized
        ]
    );

    assert_eq!(tokenize("1.4".into()), vec![fl("1.4")]);
    assert_eq!(tokenize("10.".into()), vec![fl("10.")]);
    assert_eq!(tokenize("10.5".into()), vec![fl("10.5")]);
    assert_eq!(tokenize("-1.4".into()), vec![fl("-1.4")]);
    assert_eq!(tokenize("-10.".into()), vec![fl("-10.")]);
    assert_eq!(tokenize("-10.5".into()), vec![fl("-10.5")]);

    assert_eq!(tokenize("10.5 4".into()), vec![fl("10.5"), Token::Int(4)]);
    assert_eq!(
        tokenize("  10.5   4    ".into()),
        vec![fl("10.5"), Token::Int(4)]
    );

    assert_eq!(
        tokenize("10 4 +".into()),
        vec![Token::Int(10), Token::Int(4), Token::Operation(Op::Add)]
    );
    assert_eq!(
        tokenize("10 4.5 -".into()),
        vec![Token::Int(10), fl("4.5"), Token::Operation(Op::Sub)]
    );
    assert_eq!(
        tokenize("10. 4 /".into()),
        vec![fl("10."), Token::Int(4), Token::Operation(Op::Div)]
    );
    assert_eq!(
        tokenize("10 4 *".into()),
        vec![Token::Int(10), Token::Int(4), Token::Operation(Op::Mult)]
    );

    assert_eq!(
        tokenize("10 4 * 2 +".into()),
        vec![
            Token::Int(10),
            Token::Int(4),
            Token::Operation(Op::Mult),
            Token::Int(2),
            Token::Operation(Op::Add)
        ]
    );
    assert_eq!(
        tokenize("2 10 4 * +".into()),
        vec![
            Token::Int(2),
            Token::Int(10),
            Token::Int(4),
            Token::Operation(Op::Mult),
            Token::Operation(Op::Add)
        ]
    );
}

/// Tokenizing then re-rendering a well-formed numeral keeps its value: a
/// float token keeps the spelling (so its value survives unchanged), and an
/// integer token holds the parsed value whose rendering scans back to it.
#[test]
fn test_numeral_round_trip() {
    let toks = tokenize("1.4".into());
    assert_eq!(toks.len(), 1);
    match &toks[0] {
        Token::Float(cs) => {
            let spelled: String = cs.iter().collect();
            assert_eq!(spelled.parse::<f32>().unwrap(), 1.4f32);
        }
        other => panic!("expected a float token, got {:?}", other),
    }

    assert_eq!(tokenize("-10".into()), vec![Token::Int(-10)]);

    for n in [0i32, 7, -10, 2147483647, -2147483648] {
        let spelled: String = render_int(n).iter().collect();
        assert_eq!(tokenize(spelled.clone()), vec![Token::Int(n)]);
        assert_eq!(spelled.parse::<i32>().unwrap(), n);
    }
}

/// Whitespace always clears the numeral buffer, also the whitespace that
/// ends a skipped malformed run: the digit before `f` does not leak into
/// the next numeral.
#[test]
fn test_tokenize_skip_clears_buffer() {
    assert_eq!(
        tokenize("2f 3".into()),
        vec![Token::Unrecognized, Token::Int(3)]
    );
}

#[test]
fn test_tokenize_leading_dot() {
    assert_eq!(tokenize(".5".into()), vec![fl(".5")]);
    assert_eq!(tokenize(".".into()), vec![Token::Unrecognized]);
    assert_eq!(tokenize("1.2.3".into()), vec![Token::Unrecognized]);
}

#[test]
fn test_tokenize_int_overflow() {
    assert_eq!(tokenize("2147483647".into()), vec![Token::Int(2147483647)]);
    assert_eq!(tokenize("2147483648".into()), vec![Token::Unrecognized]);
    assert_eq!(
        tokenize("-2147483648".into()),
        vec![Token::Int(-2147483648)]
    );
    assert_eq!(tokenize("-2147483649".into()), vec![Token::Unrecognized]);
}

#[test]
fn test_try_from() {
    let ok = Token::try_from(&"12".chars().collect()).unwrap();
    assert_eq!(ok, Token::Int(12));
    let okf = Token::try_from(&"1.5".chars().collect()).unwrap();
    assert_eq!(okf, fl("1.5"));
    assert!(matches!(
        Token::try_from(&"1.2.3".chars().collect()),
        Err(TokenParseError::ParseFloatError)
    ));
    assert!(matches!(
        Token::try_from(&"99999999999".chars().collect()),
        Err(TokenParseError::IntParseError)
    ));
    assert!(matches!(
        Token::try_from(&Vec::new()),
        Err(TokenParseError::IntParseError)
    ));
}

/// A dotted spelling may carry an exponent part, exactly as `f32` parsing
/// accepts it; without a dot the buffer is taken for an integer numeral.
#[test]
fn test_try_from_exponent() {
    for s in ["1.2e3", "1.e5", "-.5e-2", ".5E+1", "10.e0"] {
        let t = Token::try_from(&s.chars().collect()).unwrap();
        assert_eq!(t, fl(s));
        assert!(s.parse::<f32>().is_ok());
    }
    assert_eq!(
        "1.2e3".parse::<f32>().unwrap(),
        1200.0f32
    );
    for s in ["1.2e", "1.2e+", "1e2.3", "1.2e3.4", ".e5", "1.2f3"] {
        assert!(matches!(
            Token::try_from(&s.chars().collect()),
            Err(TokenParseError::ParseFloatError)
        ));
        assert!(s.parse::<f32>().is_err());
    }
    assert!(matches!(
        Token::try_from(&"1e5".chars().collect()),
        Err(TokenParseError::IntParseError)
    ));
}

/// The scanner itself never buffers an exponent marker: such a run is
/// swallowed as one unrecognized unit, as any letter is.
#[test]
fn test_tokenize_exponent_run() {
    assert_eq!(tokenize("1.2e3".into()), vec![Token::Unrecognized]);
    assert_eq!(
        tokenize("1.2e3 4".into()),
        vec![Token::Unrecognized, Token::Int(4)]
    );
}
