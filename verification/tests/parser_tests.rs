use rc::lexer::{lexer, Token};
use rc::parser::{parse, try_parse, Literal, Node, Scaled, SiPrefix};
use rc::{Env, MyError};

/// The factor of an SI prefix.
fn scale(p: SiPrefix) -> f64 {
    match p {
        SiPrefix::One => 1.0,
        SiPrefix::Kilo => 1000.0,
        SiPrefix::Mega => 1_000_000.0,
        SiPrefix::Giga => 1_000_000_000.0,
        SiPrefix::Tera => 1_000_000_000_000.0,
        SiPrefix::Milli => 0.001,
        SiPrefix::Micro => 0.000_001,
        SiPrefix::Nano => 0.000_000_001,
        SiPrefix::Pico => 0.000_000_000_001,
    }
}

fn value(s: &Scaled) -> f64 {
    match &s.value {
        Literal::Int(n) => *n as f64 * scale(s.prefix),
        Literal::Text(t) => t.parse::<f64>().unwrap() * scale(s.prefix),
    }
}

fn show_token(t: &Token) -> String {
    match t {
        Token::FNum(s) => format!("FNum({:?})", s.parse::<f64>().unwrap()),
        _ => format!("{:?}", t),
    }
}

/// The tree written as the calculator's debug output writes it.
fn show(n: &Node) -> String {
    match n {
        Node::Empty => "None".to_owned(),
        Node::Units(u) => format!("Units({})", show(u)),
        Node::UnitsFraction(a, b) => format!("UnitsFraction({:?}, {:?})", a, b),
        Node::Num(x, u) => format!("Num({}, {})", x, show(u)),
        Node::FNum(x, u) => format!("FNum({:?}, {})", value(x), show(u)),
        Node::CNum(x, u) => format!("CNum(Complex {{ re: 0.0, im: {:?} }}, {})", value(x), show(u)),
        Node::Unary(t, b) => format!("Unary({}, {})", show_token(t), show(b)),
        Node::BinOp(t, l, r) => format!("BinOp({}, {}, {})", show_token(t), show(l), show(r)),
        Node::Var(t) => format!("Var({})", show_token(t)),
        Node::Func(t, ps) => {
            let v: Vec<String> = ps.iter().map(show).collect();
            format!("Func({}, [{}])", show_token(t), v.join(", "))
        }
        Node::Command(t, ts, s) => {
            let v: Vec<String> = ts.iter().map(show_token).collect();
            format!("Command({}, [{}], {:?})", show_token(t), v.join(", "), s)
        }
    }
}

fn parse_as_string(env: &mut Env, input: &str) -> String {
    match parse(env, &(lexer(input.to_owned())).unwrap()) {
        Ok(n) => show(&n),
        Err(e) => format!("{:?}", e),
    }
}

#[test]
fn test_parser() {
    let mut env = Env::new();
    env.built_in();

    assert_eq!(
        parse_as_string(&mut env, "1+2"),
        "BinOp(Op(Plus), Num(1, Units(None)), Num(2, Units(None)))"
    );
    assert_eq!(
        parse_as_string(&mut env, "1-2"),
        "BinOp(Op(Minus), Num(1, Units(None)), Num(2, Units(None)))"
    );
    assert_eq!(
        parse_as_string(&mut env, "1+-2"),
        "BinOp(Op(Plus), Num(1, Units(None)), Unary(Op(Minus), Num(2, Units(None))))"
    );
    assert_eq!(
        parse_as_string(&mut env, "1*2"),
        "BinOp(Op(Mul), Num(1, Units(None)), Num(2, Units(None)))"
    );
    assert_eq!(
        parse_as_string(&mut env, "1*2+3"),
        "BinOp(Op(Plus), BinOp(Op(Mul), Num(1, Units(None)), Num(2, Units(None))), Num(3, Units(None)))"
    );
    assert_eq!(
        parse_as_string(&mut env, "1*(2+3)"),
        "BinOp(Op(Mul), Num(1, Units(None)), BinOp(Op(Plus), Num(2, Units(None)), Num(3, Units(None))))"
    );
    assert_eq!(
        parse_as_string(&mut env, "1+2+3"),
        "BinOp(Op(Plus), BinOp(Op(Plus), Num(1, Units(None)), Num(2, Units(None))), Num(3, Units(None)))"
    );
    assert_eq!(
        parse_as_string(&mut env, "(1+2)+3"),
        "BinOp(Op(Plus), BinOp(Op(Plus), Num(1, Units(None)), Num(2, Units(None))), Num(3, Units(None)))"
    );
    assert_eq!(
        parse_as_string(&mut env, "1*2*3"),
        "BinOp(Op(Mul), BinOp(Op(Mul), Num(1, Units(None)), Num(2, Units(None))), Num(3, Units(None)))"
    );
    assert_eq!(
        parse_as_string(&mut env, "(1*2)*3"),
        "BinOp(Op(Mul), BinOp(Op(Mul), Num(1, Units(None)), Num(2, Units(None))), Num(3, Units(None)))"
    );
    assert_eq!(
        parse_as_string(&mut env, "-(2+3)"),
        "Unary(Op(Minus), BinOp(Op(Plus), Num(2, Units(None)), Num(3, Units(None))))"
    );
    assert_eq!(parse_as_string(&mut env, "pi"), "Var(Ident(\"pi\"))");
    assert_eq!(
        parse_as_string(&mut env, "2.0*pi"),
        "BinOp(Op(Mul), FNum(2.0, Units(None)), Var(Ident(\"pi\")))"
    );
    assert_eq!(parse_as_string(&mut env, "2k"), "FNum(2000.0, Units(None))");
    assert_eq!(
        parse_as_string(&mut env, "2u*pi"),
        "BinOp(Op(Mul), FNum(2e-6, Units(None)), Var(Ident(\"pi\")))"
    );
    assert_eq!(
        parse_as_string(&mut env, "2*sin(0.5*pi)"),
        "BinOp(Op(Mul), Num(2, Units(None)), Func(Ident(\"sin\"), [BinOp(Op(Mul), FNum(0.5, Units(None)), Var(Ident(\"pi\")))]))"
    );
    assert_eq!(
        parse_as_string(&mut env, "a=1"),
        "BinOp(Op(Equal), Var(Ident(\"a\")), Num(1, Units(None)))"
    );
    assert_eq!(
        parse_as_string(&mut env, "2^3"),
        "BinOp(Op(Caret), Num(2, Units(None)), Num(3, Units(None)))"
    );
    assert_eq!(
        parse_as_string(&mut env, "2^3^4"),
        "BinOp(Op(Caret), Num(2, Units(None)), BinOp(Op(Caret), Num(3, Units(None)), Num(4, Units(None))))"
    );
    assert_eq!(
        parse_as_string(&mut env, "1+2i"),
        "BinOp(Op(Plus), Num(1, Units(None)), CNum(Complex { re: 0.0, im: 2.0 }, Units(None)))"
    );
    assert_eq!(parse_as_string(&mut env, "i"), "Var(Ident(\"i\"))");
    assert_eq!(
        parse_as_string(&mut env, "3+4*2/(1-5)^2^3"),
        "BinOp(Op(Plus), Num(3, Units(None)), BinOp(Op(Div), BinOp(Op(Mul), Num(4, Units(None)), Num(2, Units(None))), BinOp(Op(Caret), BinOp(Op(Minus), Num(1, Units(None)), Num(5, Units(None))), BinOp(Op(Caret), Num(2, Units(None)), Num(3, Units(None))))))"
    );
}

#[test]
fn test_parser_units() {
    let mut env = Env::new();
    env.built_in();
    assert_eq!(parse_as_string(&mut env, "1"), "Num(1, Units(None))");
    assert_eq!(parse_as_string(&mut env, "1[m]"), "Num(1, Units(Var(Ident(\"m\"))))");
    assert_eq!(parse_as_string(&mut env, "1[mm]"), "Num(1, Units(Var(Ident(\"mm\"))))");
    assert_eq!(
        parse_as_string(&mut env, "1[m/s]"),
        "Num(1, Units(BinOp(Op(Div), Var(Ident(\"m\")), Var(Ident(\"s\")))))"
    );
    assert_eq!(
        parse_as_string(&mut env, "1[m*m/s]"),
        "Num(1, Units(BinOp(Op(Div), BinOp(Op(Mul), Var(Ident(\"m\")), Var(Ident(\"m\"))), Var(Ident(\"s\")))))"
    );
    assert_eq!(
        parse_as_string(&mut env, "1k[m*m/s]"),
        "FNum(1000.0, Units(BinOp(Op(Div), BinOp(Op(Mul), Var(Ident(\"m\")), Var(Ident(\"m\"))), Var(Ident(\"s\")))))"
    );
    assert_eq!(
        parse_as_string(&mut env, "1[m^2]"),
        "Num(1, Units(BinOp(Op(Caret), Var(Ident(\"m\")), Num(2, Units(None)))))"
    );
    assert_eq!(
        parse_as_string(&mut env, "1[m^2/s^2]"),
        "Num(1, Units(BinOp(Op(Div), BinOp(Op(Caret), Var(Ident(\"m\")), Num(2, Units(None))), BinOp(Op(Caret), Var(Ident(\"s\")), Num(2, Units(None))))))"
    );
}

#[test]
fn test_parser_command() {
    let mut env = Env::new();
    env.built_in();
    assert_eq!(
        parse_as_string(&mut env, "debug 1"),
        "Command(Ident(\"debug\"), [Num(1)], \"\")"
    );
    assert_eq!(
        parse_as_string(&mut env, "debug"),
        "Command(Ident(\"debug\"), [], \"\")"
    );
    assert_eq!(
        parse_as_string(&mut env, "constant"),
        "Command(Ident(\"constant\"), [], \"\")"
    );
    assert_eq!(
        parse_as_string(&mut env, "defun add  _1+_2 "),
        "Command(Ident(\"defun\"), [Ident(\"add\"), Ident(\"_1\"), Op(Plus), Ident(\"_2\")], \"\")"
    );
    assert_eq!(
        parse_as_string(&mut env, "format sep4 16"),
        "Command(Ident(\"format\"), [Ident(\"sep4\"), Num(16)], \"\")"
    );
}

#[test]
fn test_parser_error() {
    let mut env = Env::new();
    env.built_in();

    if let Ok(_) = parse(&mut env, &(lexer("2*sin(1, 2)".to_owned())).unwrap()) {
        assert!(false);
    }
    if let Ok(_) = parse(&mut env, &(lexer("sin(".to_owned())).unwrap()) {
        assert!(false);
    }
    if let Ok(_) = parse(&mut env, &(lexer("sin()".to_owned())).unwrap()) {
        assert!(false);
    }
    if let Ok(_) = parse(&mut env, &(lexer("1+2+".to_owned())).unwrap()) {
        assert!(false);
    }
    if let Ok(_) = parse(&mut env, &(lexer("sin".to_owned())).unwrap()) {
        assert!(false);
    }
    if let Ok(_) = parse(&mut env, &(lexer("((())".to_owned())).unwrap()) {
        assert!(false);
    }
}

#[test]
fn parser_registers_unknown_names_as_variables() {
    let mut env = Env::new();
    env.built_in();
    assert!(!env.is_variable("zz"));
    let _ = parse(&mut env, &lexer("zz+1".to_owned()).unwrap()).unwrap();
    assert!(env.is_variable("zz"));
}

#[test]
fn parser_error_is_a_parse_error() {
    let mut env = Env::new();
    env.built_in();
    let r = parse(&mut env, &lexer("1+2+".to_owned()).unwrap());
    assert!(matches!(r, Err(MyError::ParseError(_))));
    let r = parse(&mut env, &lexer("1 2".to_owned()).unwrap());
    assert!(matches!(r, Err(MyError::ParseError(_))));
}

#[test]
fn parses_that_cannot_finish() {
    let mut env = Env::new();
    env.built_in();
    // reading past the tokens inside `[ ]`
    assert!(try_parse(&mut env, &lexer("1[m".to_owned()).unwrap()).is_none());
    // an argument that consumes no token
    assert!(try_parse(&mut env, &lexer("sin(=)".to_owned()).unwrap()).is_none());
    // a units expression that consumes no token
    assert!(try_parse(&mut env, &lexer("1[,]".to_owned()).unwrap()).is_none());
    // ordinary errors are still errors
    assert!(matches!(
        try_parse(&mut env, &lexer("1+2+".to_owned()).unwrap()),
        Some(Err(MyError::ParseError(_)))
    ));
    assert!(matches!(try_parse(&mut env, &lexer("1+2".to_owned()).unwrap()), Some(Ok(_))));
}

#[test]
fn parse_errors_show_the_tokens_and_the_index() {
    let mut env = Env::new();
    env.built_in();
    let tok = lexer("(1+2".to_owned()).unwrap();
    assert_eq!(
        parse(&mut env, &tok),
        Err(MyError::ParseError(
            "unexpected end of input: [Op(ParenLeft), Num(1), Op(Plus), Num(2)]".to_owned()
        ))
    );
    let tok = lexer("1 2".to_owned()).unwrap();
    assert_eq!(
        parse(&mut env, &tok),
        Err(MyError::ParseError("token left: [Num(1), Num(2)] 1".to_owned()))
    );
    let tok = lexer("(1 2)".to_owned()).unwrap();
    assert_eq!(
        parse(&mut env, &tok),
        Err(MyError::ParseError(
            "')' not found: [Op(ParenLeft), Num(1), Num(2), Op(ParenRight)] 2".to_owned()
        ))
    );
    let tok = lexer("sin 1".to_owned()).unwrap();
    assert_eq!(
        parse(&mut env, &tok),
        Err(MyError::ParseError(
            "function has no '(': [Ident(\"sin\"), Num(1)] 0".to_owned()
        ))
    );
}
