//! rc: the verified core of a terminal calculator.
//!
//! The library turns an input line into tokens (`lexer`), tokens into an
//! abstract syntax tree (`parser`), keeps the interpreter's name tables and
//! settings and implements its commands (`env`), computes with physical
//! units (`units`, on tables of exponents from `exponents`), rewrites the
//! bodies of user defined functions for a call (`call`), implements the line
//! editor's editing, parenthesis matching and history rules (`readline`),
//! handles script lines and the history file (`script`), and computes
//! with integers (`arith`).  `roundtrip`
//! shows that integers the formatter writes read back through the lexer.
//! Numeric evaluation with floating point and complex numbers lives outside
//! the library.
use vstd::prelude::*;

pub mod strings;
pub mod lexer;
pub mod env;
pub mod parser;
pub mod exponents;
pub mod units;
pub mod call;
pub mod readline;
pub mod script;
pub mod roundtrip;
pub mod arith;
pub mod laws;

pub use arith::int_binop;
pub use call::substitute_params;
pub use env::{
    history_recall, impl_cmd, impl_debug, impl_defun, impl_func, impl_history,
    impl_history_max, impl_output_format, impl_user_func, output_format_num, separate_digit,
    Env, FloatFormat,
};
pub use lexer::{lexer, tok_get_num, tok_ident, tok_num, tok_num_int, Token, TokenOp};
pub use parser::{parse, try_parse, Literal, Node, Scaled, SiPrefix};
pub use readline::{
    do_backspace, do_delete, do_insert, do_left, do_right, find_match_paren, key_step,
    key_step_would_fail, EditAction, Key, LineEditor,
};
pub use script::{add_history, history_entries, history_file_text, parse_line};
pub use units::{
    eval_units_div, eval_units_fraction, eval_units_mul, eval_units_reduce, units_fraction_ready,
    unit_conversion, units_fraction_reduce, units_fraction_to_string, units_reduce_impl,
    units_reducible, units_unpack,
};

verus! {

/// Why an integer literal could not be converted.
#[derive(Debug, Clone, Copy, PartialEq, Eq, Structural)]
pub enum IntErrorKind {
    /// The literal had no digits.
    Empty,
    /// A character is not a digit of the radix.
    InvalidDigit,
    /// The value does not fit in an `i128`.
    PosOverflow,
}

/// Why a floating point literal is not well formed.
#[derive(Debug, Clone, Copy, PartialEq, Eq, Structural)]
pub enum FloatErrorKind {
    /// The literal is empty.
    Empty,
    /// The literal does not follow the decimal float grammar.
    Invalid,
}

/// Errors of the lexer, the parser and the evaluator.
#[derive(Debug, Clone, PartialEq)]
pub enum MyError {
    LexerIntError(String, IntErrorKind),
    LexerFloatError(String, FloatErrorKind),
    ParseError(String),
    EvalError(String),
}

/// The mathematical content of a `MyError`.
pub enum ErrorView {
    LexerIntError(Seq<char>, IntErrorKind),
    LexerFloatError(Seq<char>, FloatErrorKind),
    ParseError(Seq<char>),
    EvalError(Seq<char>),
}

impl View for MyError {
    type V = ErrorView;

    open spec fn view(&self) -> ErrorView {
        match self {
            MyError::LexerIntError(s, k) => ErrorView::LexerIntError(s@, *k),
            MyError::LexerFloatError(s, k) => ErrorView::LexerFloatError(s@, *k),
            MyError::ParseError(s) => ErrorView::ParseError(s@),
            MyError::EvalError(s) => ErrorView::EvalError(s@),
        }
    }
}

} // verus!
