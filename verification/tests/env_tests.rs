use rc::env::{
    history_recall, impl_debug, impl_defun, impl_history, impl_history_max, impl_output_format,
    output_format_num, separate_digit,
};
use rc::lexer::{lexer, Token, TokenOp};
use rc::{Env, FloatFormat, MyError};

#[test]
fn test_format_num() {
    let mut env = Env::new();
    assert_eq!(output_format_num(&mut env, 1), "1".to_string());
    env.separate_digit = 4;
    assert_eq!(output_format_num(&mut env, 12345678), "1234_5678".to_string());
}

#[test]
fn format_num_radixes() {
    let mut env = Env::new();
    env.output_radix = 16;
    env.separate_digit = 4;
    assert_eq!(output_format_num(&mut env, 0xdead_beef - 0xcafe_babe), "0x13af_0431");
    env.output_radix = 2;
    env.separate_digit = 0;
    assert_eq!(output_format_num(&mut env, 5), "0b101");
    env.output_radix = 10;
    env.separate_digit = 3;
    assert_eq!(output_format_num(&mut env, -1234567), "-1_234_567");
    env.output_radix = 16;
    env.separate_digit = 0;
    assert_eq!(output_format_num(&mut env, -1), format!("0x{}", "f".repeat(32)));
}

#[test]
fn separate_digit_groups_from_the_right() {
    assert_eq!(separate_digit("12345678".to_owned(), "_", 4), "1234_5678");
    assert_eq!(separate_digit("1234567".to_owned(), "_", 3), "1_234_567");
    assert_eq!(separate_digit("12".to_owned(), "_", 3), "12");
}

#[test]
fn format_command_sets_and_reports() {
    let mut env = Env::new();
    env.built_in();
    assert_eq!(impl_output_format(&mut env, &[]), "format(radix = 10, separate = 0)");
    let r = impl_output_format(
        &mut env,
        &[Token::Num(16), Token::Ident("sep4".to_owned()), Token::Ident("eng".to_owned())],
    );
    assert_eq!(r, "format(radix = 16, separate = 4, float = Eng)");
    assert_eq!(env.output_radix, 16);
    assert_eq!(env.separate_digit, 4);
    assert_eq!(env.float_format, FloatFormat::Eng);
    impl_output_format(&mut env, &[Token::Ident("binary".to_owned())]);
    assert_eq!(env.output_radix, 2);
    impl_output_format(&mut env, &[Token::Ident("hexadecimal".to_owned())]);
    assert_eq!(env.output_radix, 16);
}

#[test]
fn format_sep4_radix16_writes_grouped_hex() {
    let mut env = Env::new();
    impl_output_format(
        &mut env,
        &[Token::Ident("sep4".to_owned()), Token::Ident("radix16".to_owned())],
    );
    assert_eq!(env.output_radix, 16);
    assert_eq!(env.separate_digit, 4);
    assert_eq!(env.float_format, FloatFormat::Fix);
    assert_eq!(output_format_num(&mut env, 0x2001fee), "0x200_1fee");
}

#[test]
fn history_commands() {
    let mut env = Env::new();
    env.built_in();
    assert_eq!(env.is_cmd("history"), Some(0));
    assert_eq!(env.is_cmd("history_max"), Some(1));
    assert_eq!(impl_history_max(&mut env, &[Token::Num(10)]), "history_max 10");
    assert_eq!(env.history_max, 10);
    assert_eq!(impl_history_max(&mut env, &[Token::Num(-1)]), "history_max 10");
    for l in ["sin(1)", "cos(2)", "exp(3)"] {
        env.history.push(l.to_owned());
    }
    assert_eq!(impl_history(&env), "3 sin(1)\r\n2 cos(2)\r\n1 exp(3)\r\n");
    assert_eq!(history_recall(&env, &[Token::Num(2)]), Some("cos(2)".to_owned()));
    assert_eq!(history_recall(&env, &[Token::Num(4)]), None);
    assert_eq!(history_recall(&env, &[]), None);
}

#[test]
fn debug_command() {
    let mut env = Env::new();
    assert_eq!(impl_debug(&mut env, &[]), "debug(false)");
    assert_eq!(impl_debug(&mut env, &[Token::Num(1)]), "debug(true)");
    assert!(env.is_debug());
    assert_eq!(impl_debug(&mut env, &[Token::Ident("off".to_owned())]), "debug(false)");
    assert!(!env.is_debug());
}

#[test]
fn defun_then_lookup() {
    let mut env = Env::new();
    env.built_in();
    let args = lexer("add _1+_2".to_owned()).unwrap();
    assert_eq!(impl_defun(&mut env, &args), "");
    assert_eq!(
        env.is_user_func("add".to_owned()),
        Some(vec![
            Token::Ident("_1".to_owned()),
            Token::Op(TokenOp::Plus),
            Token::Ident("_2".to_owned())
        ])
    );
    assert_eq!(env.is_user_func("sub".to_owned()), None);
}

#[test]
fn built_in_tables() {
    let mut env = Env::new();
    env.built_in();
    assert!(env.is_const("pi"));
    assert!(env.is_const("inch2mm"));
    assert!(env.is_const("feet2mm"));
    assert!(env.is_const("oz2g"));
    assert!(!env.is_const("ans"));
    assert!(env.is_variable("ans"));
    assert_eq!(env.is_func("sin"), Some(1));
    assert_eq!(env.is_func("max"), Some(0));
    assert_eq!(env.is_func("nosuch"), None);
    assert_eq!(env.is_cmd("debug"), Some(1));
    assert_eq!(env.is_cmd("format"), Some(0));
}

#[test]
fn assignment_needs_a_variable() {
    let mut env = Env::new();
    env.built_in();
    assert_eq!(env.set_variable("ans".to_owned()), Ok(()));
    assert_eq!(
        env.set_variable("pi".to_owned()),
        Err(MyError::EvalError("can not assign to pi".to_owned()))
    );
    env.new_variable("a".to_owned());
    assert_eq!(env.set_variable("a".to_owned()), Ok(()));
}

#[test]
fn one_group_needs_no_separator() {
    assert_eq!(separate_digit("12".to_owned(), "é", 4), "12");
    assert_eq!(separate_digit("12345".to_owned(), "_", 4), "1_2345");
}

#[test]
fn a_longer_separator_is_written_reversed() {
    assert_eq!(separate_digit("12345678".to_owned(), "ab", 4), "1234ba5678");
}
