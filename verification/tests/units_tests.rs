use rc::lexer::{lexer, Token, TokenOp};
use rc::parser::{parse, Node};
use rc::units::{
    eval_units_div, eval_units_fraction, eval_units_mul, eval_units_reduce, unit_conversion,
    units_reduce_impl,
    units_fraction_reduce, units_fraction_to_string, units_unpack,
};
use rc::Env;

fn var(s: &str) -> Node {
    Node::Var(Token::Ident(s.to_string()))
}

/// The units part of a number literal such as `3[m/s]`.
fn units_of(env: &mut Env, input: &str) -> Node {
    match parse(env, &lexer(input.to_owned()).unwrap()).unwrap() {
        Node::Num(_, u) => *u,
        Node::FNum(_, u) => *u,
        n => panic!("not a number: {:?}", n),
    }
}

/// The units written as a reduced fraction, as the calculator prints them.
fn fraction_text(env: &mut Env, units: Node) -> String {
    let reduced = eval_units_reduce(env, Node::Num(1, Box::new(units)));
    let inner = match reduced {
        Node::Num(_, u) => match *u {
            Node::Units(x) => *x,
            other => other,
        },
        _ => panic!(),
    };
    match eval_units_fraction(env, inner) {
        Node::UnitsFraction(a, b) => units_fraction_to_string(&a, &b),
        n => panic!("not a fraction: {:?}", n),
    }
}

fn text_of(env: &mut Env, input: &str) -> String {
    let u = units_of(env, input);
    fraction_text(env, u)
}

#[test]
fn test_units_unpack() {
    let node = Node::Units(Box::new(Node::Var(Token::Ident("m".to_string()))));
    let unpacked = units_unpack(node);
    assert_eq!(unpacked, Node::Var(Token::Ident("m".to_string())));

    let node = Node::Var(Token::Ident("m".to_string()));
    let unpacked = units_unpack(node.duplicate());
    assert_eq!(unpacked, node);
}

#[test]
fn test_units_fraction_reduce() {
    let mut env = Env::new();
    env.built_in();

    let numerator = vec![("m".to_string(), 2)];
    let denominator = vec![("m".to_string(), 1)];
    let units = Node::UnitsFraction(numerator, denominator);
    let reduced = units_fraction_reduce(&mut env, units);
    if let Node::UnitsFraction(nume, denom) = reduced {
        assert_eq!(nume.iter().find(|p| p.0 == "m").map(|p| &p.1), Some(&1));
        assert!(denom.is_empty());
    } else {
        assert!(false);
    }
}

#[test]
fn units_of_literals() {
    let mut env = Env::new();
    env.built_in();
    assert_eq!(text_of(&mut env, "1[m]"), "[(\"m\", 1)]/[]");
    assert_eq!(text_of(&mut env, "1[1/m]"), "[(\"_\", 1)]/[(\"m\", 1)]");
    assert_eq!(text_of(&mut env, "2[m*s]"), "[(\"m\", 1), (\"s\", 1)]/[]");
    assert_eq!(text_of(&mut env, "3[m/s]"), "[(\"m\", 1)]/[(\"s\", 1)]");
    assert_eq!(text_of(&mut env, "3"), "[]/[]");
    assert_eq!(text_of(&mut env, "3[m/m]"), "[]/[]");
    assert_eq!(text_of(&mut env, "3[m^2/m]"), text_of(&mut env, "3[m]"));
    assert_eq!(text_of(&mut env, "3[m/m^2]"), text_of(&mut env, "3[1/m]"));
    assert_eq!(text_of(&mut env, "6[m^1]"), text_of(&mut env, "6[m]"));
    assert_eq!(text_of(&mut env, "1[m^3]"), "[(\"m\", 3)]/[]");
    assert_eq!(text_of(&mut env, "3[g/m/s]"), "[(\"g\", 1)]/[(\"m\", 1), (\"s\", 1)]");
    assert_eq!(text_of(&mut env, "3[g*s/m]"), "[(\"g\", 1), (\"s\", 1)]/[(\"m\", 1)]");
}

#[test]
fn units_of_products_and_quotients() {
    let mut env = Env::new();
    env.built_in();
    // 1[m]*2[s]
    let m = units_of(&mut env, "1[m]");
    let s = units_of(&mut env, "2[s]");
    let u = eval_units_mul(&mut env, &m, &s);
    assert_eq!(fraction_text(&mut env, u), "[(\"m\", 1), (\"s\", 1)]/[]");
    // 6[m*m]/2[s]
    let mm = units_of(&mut env, "6[m*m]");
    let u = eval_units_div(&mut env, &mm, &s);
    assert_eq!(fraction_text(&mut env, u), "[(\"m\", 2)]/[(\"s\", 1)]");
    // 6[m^2]/3[s] is 6[m*m]/3[s]
    let m2 = units_of(&mut env, "6[m^2]");
    let u1 = eval_units_div(&mut env, &m2, &s);
    let u2 = eval_units_div(&mut env, &mm, &s);
    assert_eq!(fraction_text(&mut env, u1), fraction_text(&mut env, u2));
    // 6[g]/2[m/s] is 3[g*s/m]
    let g = units_of(&mut env, "6[g]");
    let ms = units_of(&mut env, "2[m/s]");
    let u = eval_units_div(&mut env, &g, &ms);
    assert_eq!(fraction_text(&mut env, u), text_of(&mut env, "3[g*s/m]"));
    // 6[g/m]*2[s] is 12[g*s/m]
    let gm = units_of(&mut env, "6[g/m]");
    let u = eval_units_mul(&mut env, &gm, &s);
    assert_eq!(fraction_text(&mut env, u), text_of(&mut env, "12[g*s/m]"));
    // 2[g]*6[s/m] is 12[g*s/m]
    let sm = units_of(&mut env, "6[s/m]");
    let u = eval_units_mul(&mut env, &g, &sm);
    assert_eq!(fraction_text(&mut env, u), text_of(&mut env, "12[g*s/m]"));
    // 6[g/m]/2[s] is 3[g/m/s]
    let u = eval_units_div(&mut env, &gm, &s);
    assert_eq!(fraction_text(&mut env, u), text_of(&mut env, "3[g/m/s]"));
    // 3*2[m] is 6[m]
    let none = units_of(&mut env, "3");
    let u = eval_units_mul(&mut env, &none, &m);
    assert_eq!(fraction_text(&mut env, u), text_of(&mut env, "6[m]"));
}

#[test]
fn units_without_units() {
    let mut env = Env::new();
    let none = Node::Units(Box::new(Node::Empty));
    assert_eq!(eval_units_mul(&mut env, &none, &none), Node::Units(Box::new(Node::Empty)));
    assert_eq!(eval_units_mul(&mut env, &none, &Node::Units(Box::new(var("m")))), var("m"));
    assert_eq!(
        eval_units_div(&mut env, &Node::Empty, &Node::Units(Box::new(var("s")))),
        Node::Units(Box::new(Node::BinOp(
            Token::Op(TokenOp::Div),
            Box::new(Node::Num(1, Box::new(Node::Units(Box::new(Node::Empty))))),
            Box::new(var("s"))
        )))
    );
}

#[test]
fn units_reduce_moves_divisions_out() {
    let mut env = Env::new();
    // (g/m)*s => (g*s)/m
    let u = Node::BinOp(
        Token::Op(TokenOp::Mul),
        Box::new(Node::BinOp(Token::Op(TokenOp::Div), Box::new(var("g")), Box::new(var("m")))),
        Box::new(var("s")),
    );
    let want = Node::BinOp(
        Token::Op(TokenOp::Div),
        Box::new(Node::BinOp(Token::Op(TokenOp::Mul), Box::new(var("g")), Box::new(var("s")))),
        Box::new(var("m")),
    );
    assert_eq!(
        eval_units_reduce(&mut env, Node::Num(1, Box::new(Node::Units(Box::new(u))))),
        Node::Num(1, Box::new(Node::Units(Box::new(want))))
    );
    // m^3 => (m*m)*m
    let u = Node::BinOp(
        Token::Op(TokenOp::Caret),
        Box::new(var("m")),
        Box::new(Node::Num(3, Box::new(Node::Empty))),
    );
    let mm = Node::BinOp(Token::Op(TokenOp::Mul), Box::new(var("m")), Box::new(var("m")));
    let want = Node::BinOp(Token::Op(TokenOp::Mul), Box::new(mm), Box::new(var("m")));
    assert_eq!(
        eval_units_reduce(&mut env, Node::Num(1, Box::new(u))),
        Node::Num(1, Box::new(Node::Units(Box::new(want))))
    );
    // a power whose exponent is not a number is dropped
    let u = Node::BinOp(Token::Op(TokenOp::Caret), Box::new(var("m")), Box::new(var("x")));
    assert_eq!(
        eval_units_reduce(&mut env, Node::Num(1, Box::new(u))),
        Node::Num(1, Box::new(Node::Units(Box::new(Node::Empty))))
    );
}

#[test]
fn fraction_to_string_sorts_by_name() {
    let n = vec![("s".to_string(), 1), ("g".to_string(), 2)];
    let d = vec![("m".to_string(), 1)];
    assert_eq!(units_fraction_to_string(&n, &d), "[(\"g\", 2), (\"s\", 1)]/[(\"m\", 1)]");
    assert_eq!(units_fraction_to_string(&vec![], &vec![]), "[]/[]");
}

#[test]
fn fraction_reduce_cancels_each_way() {
    let mut env = Env::new();
    // more below than above: the rest stays below and `_` marks the top
    let r = units_fraction_reduce(
        &mut env,
        Node::UnitsFraction(vec![("m".to_string(), 1)], vec![("m".to_string(), 3)]),
    );
    assert_eq!(
        r,
        Node::UnitsFraction(vec![("_".to_string(), 1)], vec![("m".to_string(), 2)])
    );
    // equal exponents cancel
    let r = units_fraction_reduce(
        &mut env,
        Node::UnitsFraction(
            vec![("m".to_string(), 2), ("s".to_string(), 1)],
            vec![("m".to_string(), 2)],
        ),
    );
    assert_eq!(r, Node::UnitsFraction(vec![("s".to_string(), 1)], vec![]));
    // other nodes pass through
    assert_eq!(units_fraction_reduce(&mut env, var("m")), var("m"));
}

#[test]
fn unit_names_convert_by_exact_factors() {
    assert_eq!(unit_conversion(&"km".to_owned()), Some((1000, 1, "m".to_owned())));
    assert_eq!(unit_conversion(&"mm".to_owned()), Some((1, 1000, "m".to_owned())));
    assert_eq!(unit_conversion(&"cm".to_owned()), Some((1, 100, "m".to_owned())));
    assert_eq!(unit_conversion(&"mile".to_owned()), Some((1600, 1, "m".to_owned())));
    assert_eq!(unit_conversion(&"in".to_owned()), Some((254, 10000, "m".to_owned())));
    assert_eq!(unit_conversion(&"feet".to_owned()), Some((12, 1, "in".to_owned())));
    assert_eq!(unit_conversion(&"m".to_owned()), None);
}

#[test]
fn a_power_unfolds_to_a_product() {
    let mut env = Env::new();
    let m = || Box::new(Node::Var(Token::Ident("m".to_owned())));
    let cube = Node::BinOp(
        Token::Op(TokenOp::Caret),
        m(),
        Box::new(Node::Num(3, Box::new(Node::Units(Box::new(Node::Empty))))),
    );
    let mm = Node::BinOp(Token::Op(TokenOp::Mul), m(), m());
    assert_eq!(
        units_reduce_impl(&mut env, cube),
        Node::BinOp(Token::Op(TokenOp::Mul), Box::new(mm), m())
    );
}

#[test]
fn fraction_text_does_not_depend_on_the_order_of_entries() {
    let a = vec![("s".to_string(), 1), ("m".to_string(), 1)];
    let b = vec![("m".to_string(), 1), ("s".to_string(), 1)];
    assert_eq!(
        units_fraction_to_string(&a, &vec![]),
        units_fraction_to_string(&b, &vec![])
    );
    assert_eq!(units_fraction_to_string(&a, &vec![]), "[(\"m\", 1), (\"s\", 1)]/[]");
}
