use rc::lexer::{lexer, tok_get_num, tok_ident, tok_num, tok_num_int, Token, TokenOp};
use rc::{FloatErrorKind, IntErrorKind, MyError};

fn s2v(s: &str) -> Vec<char> {
    s.chars().collect::<Vec<char>>()
}

/// A float token compares by the value its text denotes.
fn same_token(a: &Token, b: &Token) -> bool {
    match (a, b) {
        (Token::FNum(x), Token::FNum(y)) => x.parse::<f64>().unwrap() == y.parse::<f64>().unwrap(),
        _ => a == b,
    }
}

fn fnum(x: f64) -> Token {
    Token::FNum(format!("{:?}", x))
}

fn assert_tok_index(result: Result<(Token, usize), MyError>, tok: Token, index: usize) {
    if let Ok((good, idx)) = result {
        assert!(same_token(&good, &tok), "{:?} != {:?}", good, tok);
        assert_eq!(idx, index);
    }
}

fn assert_tokens(got: Vec<Token>, want: &[Token]) {
    assert_eq!(got.len(), want.len(), "{:?} != {:?}", got, want);
    for (a, b) in got.iter().zip(want.iter()) {
        assert!(same_token(a, b), "{:?} != {:?}", got, want);
    }
}

#[test]
fn test_tok_get_num() {
    assert_eq!(tok_get_num(&s2v("0"), 0), ("0".to_owned(), 1));
    assert_eq!(tok_get_num(&s2v("1"), 0), ("1".to_owned(), 1));
    assert_eq!(tok_get_num(&s2v("34"), 0), ("34".to_owned(), 2));
    assert_eq!(tok_get_num(&s2v("56a"), 0), ("56".to_owned(), 2));
    assert_eq!(tok_get_num(&s2v(""), 0), ("".to_owned(), 0));
    assert_eq!(tok_get_num(&s2v("a"), 0), ("".to_owned(), 0));
}

#[test]
fn test_tok_num_int() {
    assert_tok_index(tok_num_int(&s2v("0x1"), 1), Token::Num(1), 3);
    assert_tok_index(tok_num_int(&s2v("0xa"), 1), Token::Num(10), 3);
    assert_tok_index(tok_num_int(&s2v("0x10"), 1), Token::Num(16), 4);
    assert_tok_index(tok_num_int(&s2v("0b10"), 1), Token::Num(2), 4);
    assert_tok_index(tok_num_int(&s2v("0b1_0"), 1), Token::Num(2), 5);
    assert_tok_index(tok_num_int(&s2v("010"), 1), Token::Num(8), 3);
}

#[test]
fn test_tok_num() {
    assert_tok_index(tok_num(&s2v("0x1"), 0), Token::Num(1), 3);
    assert_tok_index(tok_num(&s2v("0xa"), 0), Token::Num(10), 3);
    assert_tok_index(tok_num(&s2v("0x10"), 0), Token::Num(16), 4);
    assert_tok_index(tok_num(&s2v("0b10"), 0), Token::Num(2), 4);
    assert_tok_index(tok_num(&s2v("0b1_0"), 0), Token::Num(2), 5);
    assert_tok_index(tok_num(&s2v("010"), 0), Token::Num(8), 3);
    assert_tok_index(tok_num(&s2v("10"), 0), Token::Num(10), 2);
    assert_tok_index(tok_num(&s2v("10.1"), 0), fnum(10.1), 4);
    assert_tok_index(tok_num(&s2v("10e1"), 0), fnum(100.0), 4);
    assert_tok_index(tok_num(&s2v("10e1+"), 0), fnum(100.0), 4);
    assert_tok_index(tok_num(&s2v("1"), 0), Token::Num(1), 1);
    assert_tok_index(tok_num(&s2v("0"), 0), Token::Num(0), 1);
    assert_tok_index(tok_num(&s2v("10"), 0), Token::Num(10), 2);
    assert_tok_index(tok_num(&s2v("1.1"), 0), fnum(1.1), 3);
    assert_tok_index(tok_num(&s2v("0.1"), 0), fnum(0.1), 3);
    assert_tok_index(tok_num(&s2v("1.1E2"), 0), fnum(110.0), 5);
    assert_tok_index(tok_num(&s2v("1.1E-2"), 0), fnum(0.011), 6);
    assert_tok_index(tok_num(&s2v("100_000"), 0), Token::Num(100000), 7);
    assert_tok_index(tok_num(&s2v("0xa"), 0), Token::Num(10), 3);
    assert_tok_index(tok_num(&s2v("011"), 0), Token::Num(9), 3);
    assert_tok_index(tok_num(&s2v("0b11"), 0), Token::Num(3), 4);
    assert_tok_index(tok_num(&s2v("1e3"), 1), fnum(1000.0), 3);
    assert_tok_index(
        tok_num(&s2v("9223372036854775807"), 0),
        Token::Num(9223372036854775807),
        19,
    );
    assert_tok_index(
        tok_num(&s2v("18446744073709551615"), 0),
        Token::Num(18446744073709551615),
        20,
    );
}

#[test]
fn test_tok_num_error() {
    if let Ok(_) = lexer("018".to_owned()) {
        assert!(false);
    }
    if let Ok(_) = lexer("0b12".to_owned()) {
        assert!(false);
    }
}

#[test]
fn test_tok_ident() {
    let (tok, idx) = tok_ident(&s2v("i"), 0);
    assert_eq!(tok, Token::Ident("i".to_owned()));
    assert_eq!(idx, 1);
    let (tok, idx) = tok_ident(&s2v("sin()"), 0);
    assert_eq!(tok, Token::Ident("sin".to_owned()));
    assert_eq!(idx, 3);
}

#[test]
fn tok_ident_past_the_end_gives_an_empty_name() {
    let (tok, idx) = tok_ident(&s2v("ab"), 5);
    assert_eq!(tok, Token::Ident(String::new()));
    assert_eq!(idx, 5);
    let (tok, idx) = tok_ident(&s2v("ab"), 2);
    assert_eq!(tok, Token::Ident(String::new()));
    assert_eq!(idx, 2);
}

#[test]
fn test_lexer() {
    assert_tokens(
        lexer("1+2+3".to_owned()).unwrap(),
        &[
            Token::Num(1),
            Token::Op(TokenOp::Plus),
            Token::Num(2),
            Token::Op(TokenOp::Plus),
            Token::Num(3),
        ],
    );
    assert_tokens(
        lexer(" 1 + 2 + 3 ".to_owned()).unwrap(),
        &[
            Token::Num(1),
            Token::Op(TokenOp::Plus),
            Token::Num(2),
            Token::Op(TokenOp::Plus),
            Token::Num(3),
        ],
    );
    assert_tokens(
        lexer(" 1 + 2 + 3 ### comment".to_owned()).unwrap(),
        &[
            Token::Num(1),
            Token::Op(TokenOp::Plus),
            Token::Num(2),
            Token::Op(TokenOp::Plus),
            Token::Num(3),
        ],
    );
    assert_tokens(
        lexer("1 2 34+-*/%()-^".to_owned()).unwrap(),
        &[
            Token::Num(1),
            Token::Num(2),
            Token::Num(34),
            Token::Op(TokenOp::Plus),
            Token::Op(TokenOp::Minus),
            Token::Op(TokenOp::Mul),
            Token::Op(TokenOp::Div),
            Token::Op(TokenOp::Mod),
            Token::Op(TokenOp::ParenLeft),
            Token::Op(TokenOp::ParenRight),
            Token::Op(TokenOp::Minus),
            Token::Op(TokenOp::Caret),
        ],
    );
    assert_tokens(
        lexer("sin(2.0)".to_owned()).unwrap(),
        &[
            Token::Ident("sin".to_owned()),
            Token::Op(TokenOp::ParenLeft),
            fnum(2.0),
            Token::Op(TokenOp::ParenRight),
        ],
    );
    assert_tokens(
        lexer("1k*3.0u".to_owned()).unwrap(),
        &[
            Token::Num(1),
            Token::Ident("k".to_owned()),
            Token::Op(TokenOp::Mul),
            fnum(3.0),
            Token::Ident("u".to_owned()),
        ],
    );
    assert_tokens(
        lexer("sin(0.5*pi)".to_owned()).unwrap(),
        &[
            Token::Ident("sin".to_owned()),
            Token::Op(TokenOp::ParenLeft),
            fnum(0.5),
            Token::Op(TokenOp::Mul),
            Token::Ident("pi".to_owned()),
            Token::Op(TokenOp::ParenRight),
        ],
    );
    assert_tokens(lexer("123    #asdfasdfasfd".to_owned()).unwrap(), &[Token::Num(123)]);
    assert_tokens(
        lexer("a=1".to_owned()).unwrap(),
        &[Token::Ident("a".to_owned()), Token::Op(TokenOp::Equal), Token::Num(1)],
    );
}

#[test]
fn lexer_keeps_float_text() {
    assert_eq!(
        lexer("1.5e-3".to_owned()).unwrap(),
        vec![Token::FNum("1.5e-3".to_owned())]
    );
    assert_eq!(lexer("2.".to_owned()).unwrap(), vec![Token::FNum("2.".to_owned())]);
}

#[test]
fn lexer_errors_name_the_literal() {
    assert_eq!(
        lexer("018".to_owned()),
        Err(MyError::LexerIntError("018".to_owned(), IntErrorKind::InvalidDigit))
    );
    assert_eq!(
        lexer("0b12".to_owned()),
        Err(MyError::LexerIntError("0b12".to_owned(), IntErrorKind::InvalidDigit))
    );
    assert_eq!(
        lexer("0x".to_owned()),
        Ok(vec![Token::Num(0)])
    );
    assert_eq!(
        lexer("170141183460469231731687303715884105728".to_owned()),
        Err(MyError::LexerIntError(
            "170141183460469231731687303715884105728".to_owned(),
            IntErrorKind::PosOverflow
        ))
    );
    assert!(matches!(
        lexer("1.2.3".to_owned()),
        Err(MyError::LexerFloatError(_, FloatErrorKind::Invalid))
    ));
}

#[test]
fn lexer_brackets_and_parallel() {
    assert_eq!(
        lexer("1[m]//2".to_owned()).unwrap(),
        vec![
            Token::Num(1),
            Token::Op(TokenOp::SqBracketLeft),
            Token::Ident("m".to_owned()),
            Token::Op(TokenOp::SqBracketRight),
            Token::Op(TokenOp::Para),
            Token::Num(2),
        ]
    );
}

#[test]
fn comment_hides_the_rest_of_the_line() {
    assert_eq!(lexer("1+2#3".to_owned()), lexer("1+2#".to_owned()));
    assert_eq!(lexer("1+2#0b12".to_owned()).unwrap().len(), 3);
}

#[test]
fn a_comment_changes_nothing() {
    assert_eq!(lexer(" 1 + 2 + 3 ### comment".to_owned()), lexer("1+2+3".to_owned()));
    assert_eq!(lexer("123    #asdfasdfasfd".to_owned()), lexer("123    ".to_owned()));
    assert_eq!(lexer("0x#1".to_owned()), lexer("0x".to_owned()));
    assert_eq!(lexer("1e#5".to_owned()), lexer("1e".to_owned()));
}
