use rc::call::substitute_params;
use rc::lexer::{lexer, Token, TokenOp};
use rc::MyError;

#[test]
fn parameters_are_replaced_by_argument_tokens() {
    let body = lexer("_1+_2*_1".to_owned()).unwrap();
    let args = vec![vec![Token::Num(2)], vec![Token::FNum("0.5".to_owned())]];
    assert_eq!(
        substitute_params(&body, &args),
        Ok(vec![
            Token::Num(2),
            Token::Op(TokenOp::Plus),
            Token::FNum("0.5".to_owned()),
            Token::Op(TokenOp::Mul),
            Token::Num(2)
        ])
    );
}

#[test]
fn missing_argument_is_an_error() {
    let body = lexer("_1+_3".to_owned()).unwrap();
    let args = vec![vec![Token::Num(2)]];
    assert_eq!(
        substitute_params(&body, &args),
        Err(MyError::EvalError("no parameter [Num(2), Op(Plus)]".to_owned()))
    );
}

#[test]
fn missing_first_argument_shows_an_empty_list() {
    let body = lexer("_1".to_owned()).unwrap();
    assert_eq!(
        substitute_params(&body, &vec![]),
        Err(MyError::EvalError("no parameter []".to_owned()))
    );
}

#[test]
fn other_names_stay() {
    let body = lexer("a+_10+_0".to_owned()).unwrap();
    assert_eq!(substitute_params(&body, &vec![]), Ok(body.clone()));
}
