use rc::arith::int_binop;
use rc::lexer::TokenOp;

#[test]
fn integer_operators() {
    assert_eq!(int_binop(TokenOp::Plus, 2, 3), Some(5));
    assert_eq!(int_binop(TokenOp::Minus, 2, 3), Some(-1));
    assert_eq!(int_binop(TokenOp::Mul, -4, 3), Some(-12));
    assert_eq!(int_binop(TokenOp::Para, 2, 3), None);
}

#[test]
fn division_rounds_toward_zero() {
    assert_eq!(int_binop(TokenOp::Div, 7, 2), Some(3));
    assert_eq!(int_binop(TokenOp::Div, -7, 2), Some(-3));
    assert_eq!(int_binop(TokenOp::Div, 7, -2), Some(-3));
    assert_eq!(int_binop(TokenOp::Div, 7, 0), None);
    assert_eq!(int_binop(TokenOp::Mod, -7, 2), Some(-1));
    assert_eq!(int_binop(TokenOp::Mod, 7, -2), Some(1));
}

#[test]
fn powers_with_positive_exponents() {
    assert_eq!(int_binop(TokenOp::Caret, 2, 10), Some(1024));
    assert_eq!(int_binop(TokenOp::Caret, -3, 3), Some(-27));
    assert_eq!(int_binop(TokenOp::Caret, 2, 0), None);
    assert_eq!(int_binop(TokenOp::Caret, 2, -1), None);
    // the exponent is taken as a u32: 2^32 becomes 0
    assert_eq!(int_binop(TokenOp::Caret, 5, 1 << 32), Some(1));
}
