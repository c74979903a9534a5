//! The parser: a recursive descent from tokens to an abstract syntax tree.
//!
//! ```text
//! <assign>  ::= <expr> '=' <expr> | <expr>
//! <expr>    ::= <mul> ( '+' <mul> | '-' <mul> )*
//! <mul>     ::= <exp> ( '*' <exp> | '/' <exp> | '%' <exp> | '//' <exp> )*
//! <exp>     ::= <unary> '^' <exp> | <unary>
//! <unary>   ::= <primary> | '-' <primary> | '+' <primary>
//! <primary> ::= <num> | '(' <expr> ')' | <var> | <func> '(' <expr>* ',' ')' | <cmd> <token>*
//! <num>     ::= <num> <postfix>? <units>?
//! <units>   ::= '[' <expr> ']'
//! ```
//!
//! A number with an SI postfix (`2k`, `3u`) or an imaginary postfix (`2i`)
//! becomes a real or imaginary literal that records the postfix; the
//! evaluator turns it into a floating point or complex value.
use vstd::prelude::*;

use crate::env::{is_word, Env, Scope};
use crate::lexer::{push_tokens_text, tokens_text, tokens_view, Token, TokenOp, TokenView};
use crate::strings::{int_text, push_int_text, push_str, string_from_chars};
use crate::{ErrorView, MyError};

verus! {

/// The SI prefixes a number may carry.
#[derive(Debug, Clone, Copy, PartialEq, Eq, Structural)]
pub enum SiPrefix {
    One,
    Kilo,
    Mega,
    Giga,
    Tera,
    Milli,
    Micro,
    Nano,
    Pico,
}

/// The number a real literal is written with: an integer, or the text of a
/// float literal.
#[derive(Debug, Clone, PartialEq)]
pub enum Literal {
    Int(i128),
    Text(String),
}

/// A literal times the factor of an SI prefix.
#[derive(Debug, Clone, PartialEq)]
pub struct Scaled {
    pub value: Literal,
    pub prefix: SiPrefix,
}

/// A node of the syntax tree.
#[derive(Debug, PartialEq)]
pub enum Node {
    Empty,
    /// The units of a number (`Node::None` inside: no units).
    Units(Box<Node>),
    /// Units as a fraction: names and exponents of the numerator and of the
    /// denominator.
    UnitsFraction(Vec<(String, i32)>, Vec<(String, i32)>),
    /// An integer and its units.
    Num(i128, Box<Node>),
    /// A real number and its units.
    FNum(Scaled, Box<Node>),
    /// An imaginary number (real part 0) and its units.
    CNum(Scaled, Box<Node>),
    /// An operator token and its operand.
    Unary(Token, Box<Node>),
    /// An operator token and its operands.
    BinOp(Token, Box<Node>, Box<Node>),
    /// A constant or a variable (an identifier token).
    Var(Token),
    /// A function (identifier token) and its arguments.
    Func(Token, Vec<Node>),
    /// A command (identifier token), its argument tokens, its output.
    Command(Token, Vec<Token>, String),
}

pub enum LiteralView {
    Int(i128),
    Text(Seq<char>),
}

pub struct ScaledView {
    pub value: LiteralView,
    pub prefix: SiPrefix,
}

/// The mathematical content of a `Node`.
pub enum NodeView {
    Empty,
    Units(Box<NodeView>),
    UnitsFraction(Seq<(Seq<char>, i32)>, Seq<(Seq<char>, i32)>),
    Num(i128, Box<NodeView>),
    FNum(ScaledView, Box<NodeView>),
    CNum(ScaledView, Box<NodeView>),
    Unary(TokenView, Box<NodeView>),
    BinOp(TokenView, Box<NodeView>, Box<NodeView>),
    Var(TokenView),
    Func(TokenView, Seq<NodeView>),
    Command(TokenView, Seq<TokenView>, Seq<char>),
}

pub open spec fn scaled_view(s: Scaled) -> ScaledView {
    ScaledView {
        value: match s.value {
            Literal::Int(n) => LiteralView::Int(n),
            Literal::Text(t) => LiteralView::Text(t@),
        },
        prefix: s.prefix,
    }
}

pub open spec fn fraction_view(v: Seq<(String, i32)>) -> Seq<(Seq<char>, i32)> {
    v.map_values(|p: (String, i32)| (p.0@, p.1))
}

pub open spec fn node_view(n: Node) -> NodeView
    decreases n,
{
    match n {
        Node::Empty => NodeView::Empty,
        Node::Units(b) => NodeView::Units(Box::new(node_view(*b))),
        Node::UnitsFraction(a, b) => NodeView::UnitsFraction(fraction_view(a@), fraction_view(b@)),
        Node::Num(x, u) => NodeView::Num(x, Box::new(node_view(*u))),
        Node::FNum(x, u) => NodeView::FNum(scaled_view(x), Box::new(node_view(*u))),
        Node::CNum(x, u) => NodeView::CNum(scaled_view(x), Box::new(node_view(*u))),
        Node::Unary(t, b) => NodeView::Unary(t@, Box::new(node_view(*b))),
        Node::BinOp(t, l, r) => NodeView::BinOp(
            t@,
            Box::new(node_view(*l)),
            Box::new(node_view(*r)),
        ),
        Node::Var(t) => NodeView::Var(t@),
        Node::Func(t, ps) => NodeView::Func(
            t@,
            Seq::new(
                ps@.len(),
                |i: int|
                    if 0 <= i < ps@.len() {
                        proof {
                            assert(decreases_to!(ps => ps@));
                            assert(decreases_to!(ps@ => ps@[i]));
                        }
                        node_view(ps@[i])
                    } else {
                        NodeView::Empty
                    },
            ),
        ),
        Node::Command(t, ts, s) => NodeView::Command(t@, tokens_view(ts@), s@),
    }
}

impl View for Node {
    type V = NodeView;

    open spec fn view(&self) -> NodeView {
        node_view(*self)
    }
}

fn copy_tokens_vec(v: &Vec<Token>) -> (r: Vec<Token>)
    ensures
        tokens_view(r@) == tokens_view(v@),
{
    let mut r: Vec<Token> = Vec::new();
    let mut i: usize = 0;
    while i < v.len()
        invariant
            0 <= i <= v.len(),
            tokens_view(r@) == tokens_view(v@.take(i as int)),
        decreases v.len() - i,
    {
        let ghost r0 = r@;
        r.push(v[i].duplicate());
        proof {
            assert(v@.take(i + 1) =~= v@.take(i as int).push(v@[i as int]));
            assert(tokens_view(r@) =~= tokens_view(r0).push(v@[i as int]@));
            assert(tokens_view(v@.take(i + 1)) =~= tokens_view(v@.take(i as int)).push(
                v@[i as int]@,
            ));
        }
        i = i + 1;
    }
    assert(v@.take(v@.len() as int) =~= v@);
    r
}

fn copy_fraction(v: &Vec<(String, i32)>) -> (r: Vec<(String, i32)>)
    ensures
        fraction_view(r@) == fraction_view(v@),
{
    let mut r: Vec<(String, i32)> = Vec::new();
    let mut i: usize = 0;
    while i < v.len()
        invariant
            0 <= i <= v.len(),
            fraction_view(r@) == fraction_view(v@.take(i as int)),
        decreases v.len() - i,
    {
        let ghost r0 = r@;
        r.push((v[i].0.clone(), v[i].1));
        proof {
            assert(v@.take(i + 1) =~= v@.take(i as int).push(v@[i as int]));
            assert(fraction_view(r@) =~= fraction_view(r0).push((v@[i as int].0@, v@[i as int].1)));
            assert(fraction_view(v@.take(i + 1)) =~= fraction_view(v@.take(i as int)).push(
                (v@[i as int].0@, v@[i as int].1),
            ));
        }
        i = i + 1;
    }
    assert(v@.take(v@.len() as int) =~= v@);
    r
}

impl Scaled {
    /// A copy of the literal.
    pub fn duplicate(&self) -> (r: Scaled)
        ensures
            scaled_view(r) == scaled_view(*self),
    {
        let value = match &self.value {
            Literal::Int(n) => Literal::Int(*n),
            Literal::Text(t) => Literal::Text(t.clone()),
        };
        Scaled { value, prefix: self.prefix }
    }
}

impl Node {
    /// A copy of the tree.
    pub fn duplicate(&self) -> (r: Node)
        ensures
            r@ == self@,
        decreases self,
    {
        match self {
            Node::Empty => Node::Empty,
            Node::Units(b) => Node::Units(Box::new((**b).duplicate())),
            Node::UnitsFraction(a, b) => Node::UnitsFraction(copy_fraction(a), copy_fraction(b)),
            Node::Num(x, u) => Node::Num(*x, Box::new((**u).duplicate())),
            Node::FNum(x, u) => Node::FNum(x.duplicate(), Box::new((**u).duplicate())),
            Node::CNum(x, u) => Node::CNum(x.duplicate(), Box::new((**u).duplicate())),
            Node::Unary(t, b) => Node::Unary(t.duplicate(), Box::new((**b).duplicate())),
            Node::BinOp(t, l, r) => Node::BinOp(
                t.duplicate(),
                Box::new((**l).duplicate()),
                Box::new((**r).duplicate()),
            ),
            Node::Var(t) => Node::Var(t.duplicate()),
            Node::Func(t, ps) => {
                proof {
                    assert forall|k: int| 0 <= k < ps@.len() implies decreases_to!(*self => #[trigger] ps@[k]) by {
                        assert(decreases_to!(*self => *ps));
                        assert(decreases_to!(*ps => ps@));
                        assert(decreases_to!(ps@ => ps@[k]));
                    }
                }
                let mut out: Vec<Node> = Vec::new();
                let mut i: usize = 0;
                while i < ps.len()
                    invariant
                        0 <= i <= ps.len(),
                        forall|k: int| 0 <= k < ps@.len() ==> decreases_to!(*self => #[trigger] ps@[k]),
                        out@.len() == i,
                        forall|k: int| 0 <= k < i ==> #[trigger] out@[k]@ == ps@[k]@,
                    decreases ps.len() - i,
                {
                    out.push(ps[i].duplicate());
                    i = i + 1;
                }
                let r = Node::Func(t.duplicate(), out);
                proof {
                    assert(node_view(r) == node_view(*self)) by {
                        let a = node_view(r);
                        let b = node_view(*self);
                        if let (NodeView::Func(_, sa), NodeView::Func(_, sb)) = (a, b) {
                            assert forall|k: int| 0 <= k < sa.len() implies sa[k] == sb[k] by {
                                assert(out@[k]@ == ps@[k]@);
                            }
                            assert(sa =~= sb);
                        }
                    }
                }
                r
            },
            Node::Command(t, ts, s) => Node::Command(t.duplicate(), copy_tokens_vec(ts), s.clone()),
        }
    }
}

pub open spec fn nodes_view(s: Seq<Node>) -> Seq<NodeView> {
    Seq::new(s.len(), |i: int| node_view(s[i]))
}

/// What a parse step yields: the variable names after it, and a node and
/// the index after it, or an error.
pub type PStep = (Seq<Seq<char>>, Result<(NodeView, int), ErrorView>);

pub open spec fn pres_view(r: Result<(Node, usize), MyError>) -> Result<(NodeView, int), ErrorView> {
    match r {
        Ok((n, k)) => Ok((n@, k as int)),
        Err(e) => Err(e@),
    }
}

pub open spec fn perr(msg: Seq<char>) -> ErrorView {
    ErrorView::ParseError(msg)
}

/// The error `msg` about the tokens `tok` at index `i`.
pub open spec fn perr_at(msg: Seq<char>, tok: Seq<TokenView>, i: int) -> ErrorView {
    perr(msg + ": "@ + tokens_text(tok) + " "@ + int_text(i))
}

/// The error for tokens `tok` that end before the grammar is complete.
pub open spec fn perr_end(tok: Seq<TokenView>) -> ErrorView {
    perr(msg_end() + ": "@ + tokens_text(tok))
}

pub open spec fn is_op(t: TokenView, o: TokenOp) -> bool {
    t == TokenView::Op(o)
}

// ----------------------------------------------------------------------
// The grammar as functions on token sequences
/// The SI or imaginary postfix named `id`: its prefix and whether it makes
/// the number imaginary.
pub open spec fn si_postfix(id: Seq<char>) -> Option<(SiPrefix, bool)> {
    if id == "k"@ {
        Some((SiPrefix::Kilo, false))
    } else if id == "M"@ {
        Some((SiPrefix::Mega, false))
    } else if id == "G"@ {
        Some((SiPrefix::Giga, false))
    } else if id == "T"@ {
        Some((SiPrefix::Tera, false))
    } else if id == "m"@ {
        Some((SiPrefix::Milli, false))
    } else if id == "u"@ {
        Some((SiPrefix::Micro, false))
    } else if id == "n"@ {
        Some((SiPrefix::Nano, false))
    } else if id == "p"@ {
        Some((SiPrefix::Pico, false))
    } else if id == "i"@ || id == "j"@ {
        Some((SiPrefix::One, true))
    } else {
        None
    }
}

/// The postfix after the number at `index`: whether there is one, its
/// prefix, whether it is imaginary, and the index of its last token.
pub open spec fn p_postfix(tok: Seq<TokenView>, index: int) -> (bool, SiPrefix, bool, int) {
    if 0 <= index && index + 1 < tok.len() {
        match tok[index + 1] {
            TokenView::Ident(id) => match si_postfix(id) {
                Some((p, c)) => (true, p, c, index + 1),
                None => (false, SiPrefix::One, false, index),
            },
            _ => (false, SiPrefix::One, false, index),
        }
    } else {
        (false, SiPrefix::One, false, index)
    }
}

pub open spec fn msg_end() -> Seq<char> {
    "unexpected end of input"@
}

/// The outcome of a parse that would read past the tokens inside `[ ]` or
/// would never finish (an argument or a units expression that consumes no
/// token): such a parse has no result.
pub open spec fn stuck() -> ErrorView {
    perr("parse cannot finish"@)
}

/// `<units>` after the token at `i`: the units node and the index of its
/// `]` (or `i` when there are no units).
pub open spec fn p_units(sc: Scope, vars: Seq<Seq<char>>, tok: Seq<TokenView>, i: int) -> PStep
    decreases tok.len() - i, 2nat,
{
    if 0 <= i && i + 1 < tok.len() && is_op(tok[i + 1], TokenOp::SqBracketLeft) {
        p_units_loop(sc, vars, tok, i + 2, NodeView::Empty)
    } else {
        (vars, Ok((NodeView::Units(Box::new(NodeView::Empty)), i)))
    }
}

/// The expressions inside `[ ]`, the last one being the units.
pub open spec fn p_units_loop(
    sc: Scope,
    vars: Seq<Seq<char>>,
    tok: Seq<TokenView>,
    j: int,
    node: NodeView,
) -> PStep
    decreases tok.len() - j, 12nat,
{
    if j < 0 || j >= tok.len() {
        (vars, Err(stuck()))
    } else if is_op(tok[j], TokenOp::SqBracketRight) {
        (vars, Ok((NodeView::Units(Box::new(node)), j)))
    } else {
        let (v1, r) = p_expr(sc, vars, tok, j);
        match r {
            Err(e) => (v1, Err(e)),
            Ok((n, k)) => if j < k <= tok.len() {
                p_units_loop(sc, v1, tok, k, n)
            } else {
                (v1, Err(stuck()))
            },
        }
    }
}

/// `<num>` at `i`.
pub open spec fn p_num(sc: Scope, vars: Seq<Seq<char>>, tok: Seq<TokenView>, i: int) -> PStep
    decreases tok.len() - i, 3nat,
{
    if i < 0 || i >= tok.len() {
        (vars, Err(perr_end(tok)))
    } else {
        match tok[i] {
            TokenView::Num(n) => {
                let (has_postfix, prefix, is_complex, index) = p_postfix(tok, i);
                let (v1, r) = p_units(sc, vars, tok, index);
                match r {
                    Err(e) => (v1, Err(e)),
                    Ok((u, k)) => {
                        let node = if has_postfix {
                            if is_complex {
                                NodeView::CNum(
                                    ScaledView { value: LiteralView::Int(n), prefix: SiPrefix::One },
                                    Box::new(u),
                                )
                            } else {
                                NodeView::FNum(
                                    ScaledView { value: LiteralView::Int(n), prefix },
                                    Box::new(u),
                                )
                            }
                        } else {
                            NodeView::Num(n, Box::new(u))
                        };
                        (v1, Ok((node, k + 1)))
                    },
                }
            },
            TokenView::FNum(t) => {
                let (_, prefix, is_complex, index) = p_postfix(tok, i);
                let (v1, r) = p_units(sc, vars, tok, index);
                match r {
                    Err(e) => (v1, Err(e)),
                    Ok((u, k)) => {
                        let node = if is_complex {
                            NodeView::CNum(
                                ScaledView { value: LiteralView::Text(t), prefix: SiPrefix::One },
                                Box::new(u),
                            )
                        } else {
                            NodeView::FNum(
                                ScaledView { value: LiteralView::Text(t), prefix },
                                Box::new(u),
                            )
                        };
                        (v1, Ok((node, k + 1)))
                    },
                }
            },
            _ => (vars, Ok((NodeView::Empty, i))),
        }
    }
}

/// A function call of `id` (which takes `param_num` arguments, 0: any) at
/// `index`.
pub open spec fn p_func(
    sc: Scope,
    vars: Seq<Seq<char>>,
    id: Seq<char>,
    param_num: usize,
    tok: Seq<TokenView>,
    index: int,
) -> PStep
    decreases tok.len() - index, 3nat,
{
    if index < 0 || tok.len() <= index + 1 {
        (vars, Err(perr_at("function has no parameter"@, tok, index)))
    } else if is_op(tok[index + 1], TokenOp::ParenLeft) {
        p_func_loop(sc, vars, id, param_num, tok, index + 2, Seq::empty())
    } else {
        (vars, Err(perr_at("function has no '('"@, tok, index)))
    }
}

/// The arguments of a function call from `j` on, after `params`.
pub open spec fn p_func_loop(
    sc: Scope,
    vars: Seq<Seq<char>>,
    id: Seq<char>,
    param_num: usize,
    tok: Seq<TokenView>,
    j: int,
    params: Seq<NodeView>,
) -> PStep
    decreases tok.len() - j, 13nat,
{
    if j < 0 || j >= tok.len() {
        (vars, Err(perr_at("function has no ')'"@, tok, j)))
    } else if is_op(tok[j], TokenOp::ParenRight) {
        if param_num != 0 && param_num != params.len() {
            (vars, Err(perr_at("function parameter number"@, tok, j)))
        } else {
            (vars, Ok((NodeView::Func(TokenView::Ident(id), params), j + 1)))
        }
    } else if is_op(tok[j], TokenOp::Comma) {
        p_func_loop(sc, vars, id, param_num, tok, j + 1, params)
    } else {
        let (v1, r) = p_expr(sc, vars, tok, j);
        match r {
            Err(e) => if e == stuck() {
                (v1, Err(e))
            } else {
                (v1, Err(perr_at("function parameter"@, tok, j)))
            },
            Ok((t, k)) => if j < k <= tok.len() {
                p_func_loop(sc, v1, id, param_num, tok, k, params.push(t))
            } else if k > tok.len() {
                (v1, Err(perr_at("function has no ')'"@, tok, k)))
            } else {
                (v1, Err(stuck()))
            },
        }
    }
}

/// `<primary>` at `i`.
pub open spec fn p_primary(sc: Scope, vars: Seq<Seq<char>>, tok: Seq<TokenView>, i: int) -> PStep
    decreases tok.len() - i, 4nat,
{
    if i < 0 || i >= tok.len() {
        (vars, Err(perr_end(tok)))
    } else {
        match tok[i] {
            TokenView::Op(TokenOp::ParenLeft) => {
                let (v1, r) = p_expr(sc, vars, tok, i + 1);
                match r {
                    Err(e) => (v1, Err(e)),
                    Ok((ex, k)) => if k < 0 || k >= tok.len() {
                        (v1, Err(perr_end(tok)))
                    } else if !is_op(tok[k], TokenOp::ParenRight) {
                        (v1, Err(perr_at("')' not found"@, tok, k)))
                    } else {
                        (v1, Ok((ex, k + 1)))
                    },
                }
            },
            TokenView::Ident(id) => {
                if sc.is_const(id) {
                    (vars, Ok((NodeView::Var(TokenView::Ident(id)), i + 1)))
                } else if sc.func_arity(id) is Some {
                    p_func(sc, vars, id, sc.func_arity(id).unwrap(), tok, i)
                } else if sc.user_func_body(id) is Some {
                    p_func(sc, vars, id, 0, tok, i)
                } else if sc.cmd_arity(id) is Some {
                    (
                        vars,
                        Ok(
                            (
                                NodeView::Command(TokenView::Ident(id), tok.skip(i + 1), Seq::empty()),
                                tok.len() + 1int,
                            ),
                        ),
                    )
                } else if vars.contains(id) {
                    (vars, Ok((NodeView::Var(TokenView::Ident(id)), i + 1)))
                } else {
                    (vars.push(id), Ok((NodeView::Var(TokenView::Ident(id)), i + 1)))
                }
            },
            _ => p_num(sc, vars, tok, i),
        }
    }
}

/// `<unary>` at `i`.
pub open spec fn p_unary(sc: Scope, vars: Seq<Seq<char>>, tok: Seq<TokenView>, i: int) -> PStep
    decreases tok.len() - i, 5nat,
{
    if i < 0 || i >= tok.len() {
        (vars, Err(perr_end(tok)))
    } else if is_op(tok[i], TokenOp::Minus) || is_op(tok[i], TokenOp::Plus) {
        let (v1, r) = p_primary(sc, vars, tok, i + 1);
        match r {
            Err(e) => (v1, Err(e)),
            Ok((rhs, k)) => (v1, Ok((NodeView::Unary(tok[i], Box::new(rhs)), k))),
        }
    } else {
        p_primary(sc, vars, tok, i)
    }
}

/// `<exp>` at `i`: `^` is right associative.
pub open spec fn p_exp(sc: Scope, vars: Seq<Seq<char>>, tok: Seq<TokenView>, i: int) -> PStep
    decreases tok.len() - i, 6nat,
{
    if i < 0 || i >= tok.len() {
        (vars, Err(perr_end(tok)))
    } else {
        let (v1, r) = p_unary(sc, vars, tok, i);
        match r {
            Err(e) => (v1, Err(e)),
            Ok((lhs, k)) => if tok.len() <= k {
                (v1, Ok((lhs, k)))
            } else if k >= i && is_op(tok[k], TokenOp::Caret) {
                let (v2, r2) = p_exp(sc, v1, tok, k + 1);
                match r2 {
                    Err(e) => (v2, Err(e)),
                    Ok((rhs, j)) => (
                        v2,
                        Ok(
                            (
                                NodeView::BinOp(
                                    TokenView::Op(TokenOp::Caret),
                                    Box::new(lhs),
                                    Box::new(rhs),
                                ),
                                j,
                            ),
                        ),
                    ),
                }
            } else {
                (v1, Ok((lhs, k)))
            },
        }
    }
}

pub open spec fn is_mul_op(t: TokenView) -> bool {
    is_op(t, TokenOp::Mul) || is_op(t, TokenOp::Div) || is_op(t, TokenOp::Mod) || is_op(
        t,
        TokenOp::Para,
    )
}

/// The `* / % //` operators after `lhs`, left associative, from `k` on.
pub open spec fn p_mul_loop(
    sc: Scope,
    vars: Seq<Seq<char>>,
    tok: Seq<TokenView>,
    lhs: NodeView,
    k: int,
) -> PStep
    decreases tok.len() - k, 7nat,
{
    if k < 0 || tok.len() <= k {
        (vars, Ok((lhs, k)))
    } else if is_mul_op(tok[k]) {
        let (v1, r) = p_exp(sc, vars, tok, k + 1);
        match r {
            Err(e) => (v1, Err(e)),
            Ok((rhs, j)) => if k < j <= tok.len() {
                p_mul_loop(sc, v1, tok, NodeView::BinOp(tok[k], Box::new(lhs), Box::new(rhs)), j)
            } else {
                (v1, Ok((NodeView::BinOp(tok[k], Box::new(lhs), Box::new(rhs)), j)))
            },
        }
    } else {
        (vars, Ok((lhs, k)))
    }
}

/// `<mul>` at `i`.
pub open spec fn p_mul(sc: Scope, vars: Seq<Seq<char>>, tok: Seq<TokenView>, i: int) -> PStep
    decreases tok.len() - i, 8nat,
{
    if i < 0 || i >= tok.len() {
        (vars, Err(perr_end(tok)))
    } else {
        let (v1, r) = p_exp(sc, vars, tok, i);
        match r {
            Err(e) => (v1, Err(e)),
            Ok((lhs, k)) => if i <= k <= tok.len() {
                p_mul_loop(sc, v1, tok, lhs, k)
            } else {
                (v1, Ok((lhs, k)))
            },
        }
    }
}

/// The `+ -` operators after `lhs`, left associative, from `k` on.
pub open spec fn p_expr_loop(
    sc: Scope,
    vars: Seq<Seq<char>>,
    tok: Seq<TokenView>,
    lhs: NodeView,
    k: int,
) -> PStep
    decreases tok.len() - k, 9nat,
{
    if k < 0 || tok.len() <= k {
        (vars, Ok((lhs, k)))
    } else if is_op(tok[k], TokenOp::Plus) || is_op(tok[k], TokenOp::Minus) {
        let (v1, r) = p_mul(sc, vars, tok, k + 1);
        match r {
            Err(e) => (v1, Err(e)),
            Ok((rhs, j)) => if k < j <= tok.len() {
                p_expr_loop(sc, v1, tok, NodeView::BinOp(tok[k], Box::new(lhs), Box::new(rhs)), j)
            } else {
                (v1, Ok((NodeView::BinOp(tok[k], Box::new(lhs), Box::new(rhs)), j)))
            },
        }
    } else {
        (vars, Ok((lhs, k)))
    }
}

/// `<expr>` at `i`.
pub open spec fn p_expr(sc: Scope, vars: Seq<Seq<char>>, tok: Seq<TokenView>, i: int) -> PStep
    decreases tok.len() - i, 10nat,
{
    if i < 0 || i >= tok.len() {
        (vars, Err(perr_end(tok)))
    } else {
        let (v1, r) = p_mul(sc, vars, tok, i);
        match r {
            Err(e) => (v1, Err(e)),
            Ok((lhs, k)) => if i <= k <= tok.len() {
                p_expr_loop(sc, v1, tok, lhs, k)
            } else {
                (v1, Ok((lhs, k)))
            },
        }
    }
}

/// `<assign>` at `i`.
pub open spec fn p_assign(sc: Scope, vars: Seq<Seq<char>>, tok: Seq<TokenView>, i: int) -> PStep
    decreases tok.len() - i, 11nat,
{
    if i < 0 || i >= tok.len() {
        (vars, Err(perr_end(tok)))
    } else {
        let (v1, r) = p_expr(sc, vars, tok, i);
        match r {
            Err(e) => (v1, Err(e)),
            Ok((lhs, k)) => if i <= k && k < tok.len() && is_op(tok[k], TokenOp::Equal) {
                let (v2, r2) = p_expr(sc, v1, tok, k + 1);
                match r2 {
                    Err(e) => (v2, Err(e)),
                    Ok((rhs, j)) => (
                        v2,
                        Ok(
                            (
                                NodeView::BinOp(
                                    TokenView::Op(TokenOp::Equal),
                                    Box::new(lhs),
                                    Box::new(rhs),
                                ),
                                j,
                            ),
                        ),
                    ),
                }
            } else {
                (v1, Ok((lhs, k)))
            },
        }
    }
}

/// The tree of a whole token sequence, with the variable names after the
/// parse (names first met as operands become variables).
pub open spec fn spec_parse(sc: Scope, vars: Seq<Seq<char>>, tok: Seq<TokenView>) -> (
    Seq<Seq<char>>,
    Result<NodeView, ErrorView>,
) {
    let (v1, r) = p_assign(sc, vars, tok, 0);
    match r {
        Err(e) => (v1, Err(e)),
        Ok((node, i)) => if i < tok.len() {
            (v1, Err(perr_at("token left"@, tok, i)))
        } else {
            (v1, Ok(node))
        },
    }
}

// ----------------------------------------------------------------------
// The parser
/// What every parse step guarantees: the environment keeps its other
/// tables and stays well formed, the variable names and the result are those
/// of `step`, and a successful step ends at or after where it started.
/// `new` holds the names of `old`, in the same places, and perhaps more
/// after them.
pub open spec fn keys_extend(old: Seq<Seq<char>>, new: Seq<Seq<char>>) -> bool {
    &&& old.len() <= new.len()
    &&& forall|k: int| 0 <= k < old.len() ==> #[trigger] new[k] == old[k]
}

/// `name` is no constant, built-in function, user function or command.
pub open spec fn names_nothing(sc: Scope, name: Seq<char>) -> bool {
    &&& !sc.is_const(name)
    &&& sc.func_arity(name) is None
    &&& sc.user_func_body(name) is None
    &&& sc.cmd_arity(name) is None
}

/// The names of `new` after those of `old` name nothing in `sc`.
pub open spec fn only_new_vars(sc: Scope, old: Seq<Seq<char>>, new: Seq<Seq<char>>) -> bool {
    forall|k: int| old.len() <= k < new.len() ==> names_nothing(sc, #[trigger] new[k])
}

pub open spec fn step_post(
    e0: Env,
    e1: Env,
    step: PStep,
    r: Result<(Node, usize), MyError>,
    i: int,
    n: int,
) -> bool {
    &&& e1.wf()
    &&& e1.same_but_variables(&e0)
    &&& keys_extend(e0.var_keys(), e1.var_keys())
    &&& only_new_vars(e0.scope(), e0.var_keys(), e1.var_keys())
    &&& step == (e1.var_keys(), pres_view(r))
    &&& (r matches Ok((_, k)) ==> i <= k <= n + 1)
}

/// The error `msg` about the tokens at index `i`.
fn parse_error_at(msg: &str, tok: &[Token], i: usize) -> (e: MyError)
    ensures
        e@ == perr_at(msg@, tokens_view(tok@), i as int),
{
    let mut out: Vec<char> = Vec::new();
    push_str(&mut out, msg);
    push_str(&mut out, ": ");
    push_tokens_text(&mut out, tok);
    push_str(&mut out, " ");
    push_int_text(i as i128, &mut out);
    assert(out@ =~= msg@ + ": "@ + tokens_text(tokens_view(tok@)) + " "@ + int_text(i as int));
    MyError::ParseError(string_from_chars(&out))
}

/// The error for tokens that end before the grammar is complete.
fn end_error(tok: &[Token]) -> (e: MyError)
    ensures
        e@ == perr_end(tokens_view(tok@)),
{
    let mut out: Vec<char> = Vec::new();
    push_str(&mut out, "unexpected end of input");
    push_str(&mut out, ": ");
    push_tokens_text(&mut out, tok);
    assert(out@ =~= msg_end() + ": "@ + tokens_text(tokens_view(tok@)));
    MyError::ParseError(string_from_chars(&out))
}

fn stuck_error() -> (e: MyError)
    ensures
        e@ == stuck(),
{
    MyError::ParseError("parse cannot finish".to_owned())
}

/// Whether `e` is the outcome of a parse that cannot finish.
fn is_stuck(e: &MyError) -> (b: bool)
    ensures
        b == (e@ == stuck()),
{
    match e {
        MyError::ParseError(s) => is_word(s, "parse cannot finish"),
        _ => false,
    }
}

fn postfix(tok: &[Token], index: usize) -> (r: (bool, SiPrefix, bool, usize))
    requires
        index < tok.len(),
    ensures
        (r.0, r.1, r.2, r.3 as int) == p_postfix(tokens_view(tok@), index as int),
{
    if index + 1 < tok.len() {
        if let Token::Ident(id) = &tok[index + 1] {
            if is_word(id, "k") {
                return (true, SiPrefix::Kilo, false, index + 1);
            } else if is_word(id, "M") {
                return (true, SiPrefix::Mega, false, index + 1);
            } else if is_word(id, "G") {
                return (true, SiPrefix::Giga, false, index + 1);
            } else if is_word(id, "T") {
                return (true, SiPrefix::Tera, false, index + 1);
            } else if is_word(id, "m") {
                return (true, SiPrefix::Milli, false, index + 1);
            } else if is_word(id, "u") {
                return (true, SiPrefix::Micro, false, index + 1);
            } else if is_word(id, "n") {
                return (true, SiPrefix::Nano, false, index + 1);
            } else if is_word(id, "p") {
                return (true, SiPrefix::Pico, false, index + 1);
            } else if is_word(id, "i") || is_word(id, "j") {
                return (true, SiPrefix::One, true, index + 1);
            }
        }
    }
    (false, SiPrefix::One, false, index)
}

fn units(env: &mut Env, tok: &[Token], index: usize) -> (r: Result<(Node, usize), MyError>)
    requires
        old(env).wf(),
        tok@.len() < usize::MAX,
        index < tok.len(),
    ensures
        step_post(
            *old(env),
            *final(env),
            p_units(old(env).scope(), old(env).var_keys(), tokens_view(tok@), index as int),
            r,
            index as int,
            tok@.len() as int,
        ),
        r matches Ok((_, k)) ==> k < tok.len(),
    decreases tok@.len() - index, 2nat,
{
    if index + 1 < tok.len() {
        assert(tokens_view(tok@)[index + 1] == tok@[index + 1]@);
        if let Token::Op(TokenOp::SqBracketLeft) = &tok[index + 1] {
            return units_loop(env, tok, index + 2, Node::Empty);
        }
    }
    assert(node_view(Node::Empty) == NodeView::Empty);
    Ok((Node::Units(Box::new(Node::Empty)), index))
}

fn units_loop(env: &mut Env, tok: &[Token], j: usize, node: Node) -> (r: Result<
    (Node, usize),
    MyError,
>)
    requires
        old(env).wf(),
        tok@.len() < usize::MAX,
        j <= tok.len(),
    ensures
        step_post(
            *old(env),
            *final(env),
            p_units_loop(old(env).scope(), old(env).var_keys(), tokens_view(tok@), j as int, node@),
            r,
            j as int,
            tok@.len() as int,
        ),
        r matches Ok((_, k)) ==> k < tok.len(),
    decreases tok@.len() - j, 12nat,
{
    if j >= tok.len() {
        return Err(stuck_error());
    }
    if let Token::Op(TokenOp::SqBracketRight) = &tok[j] {
        return Ok((Node::Units(Box::new(node)), j));
    }
    match expr(env, tok, j) {
        Err(e) => Err(e),
        Ok((n, k)) => {
            if j < k && k <= tok.len() {
                units_loop(env, tok, k, n)
            } else {
                Err(stuck_error())
            }
        },
    }
}

fn num(env: &mut Env, tok: &[Token], i: usize) -> (r: Result<(Node, usize), MyError>)
    requires
        old(env).wf(),
        tok@.len() < usize::MAX,
    ensures
        step_post(
            *old(env),
            *final(env),
            p_num(old(env).scope(), old(env).var_keys(), tokens_view(tok@), i as int),
            r,
            i as int,
            tok@.len() as int,
        ),
        r matches Ok((_, k)) ==> k <= tok.len(),
    decreases tok@.len() - i, 3nat,
{
    if i >= tok.len() {
        return Err(end_error(tok));
    }
    match &tok[i] {
        Token::Num(n) => {
            let (has_postfix, prefix, is_complex, index) = postfix(tok, i);
            match units(env, tok, index) {
                Err(e) => Err(e),
                Ok((u, k)) => {
                    let node = if has_postfix {
                        if is_complex {
                            Node::CNum(
                                Scaled { value: Literal::Int(*n), prefix: SiPrefix::One },
                                Box::new(u),
                            )
                        } else {
                            Node::FNum(Scaled { value: Literal::Int(*n), prefix }, Box::new(u))
                        }
                    } else {
                        Node::Num(*n, Box::new(u))
                    };
                    Ok((node, k + 1))
                },
            }
        },
        Token::FNum(t) => {
            let (_, prefix, is_complex, index) = postfix(tok, i);
            match units(env, tok, index) {
                Err(e) => Err(e),
                Ok((u, k)) => {
                    let node = if is_complex {
                        Node::CNum(
                            Scaled { value: Literal::Text(t.clone()), prefix: SiPrefix::One },
                            Box::new(u),
                        )
                    } else {
                        Node::FNum(Scaled { value: Literal::Text(t.clone()), prefix }, Box::new(u))
                    };
                    Ok((node, k + 1))
                },
            }
        },
        _ => Ok((Node::Empty, i)),
    }
}

fn func(env: &mut Env, id: &String, param_num: usize, tok: &[Token], index: usize) -> (r: Result<
    (Node, usize),
    MyError,
>)
    requires
        old(env).wf(),
        tok@.len() < usize::MAX,
        index < tok.len(),
    ensures
        step_post(
            *old(env),
            *final(env),
            p_func(
                old(env).scope(),
                old(env).var_keys(),
                id@,
                param_num,
                tokens_view(tok@),
                index as int,
            ),
            r,
            index as int,
            tok@.len() as int,
        ),
        r matches Ok((_, k)) ==> k <= tok.len(),
    decreases tok@.len() - index, 3nat,
{
    if tok.len() <= index + 1 {
        return Err(parse_error_at("function has no parameter", tok, index));
    }
    if let Token::Op(TokenOp::ParenLeft) = &tok[index + 1] {
        let params: Vec<Node> = Vec::new();
        assert(nodes_view(params@) =~= Seq::<NodeView>::empty());
        return func_loop(env, id, param_num, tok, index + 2, params);
    }
    Err(parse_error_at("function has no '('", tok, index))
}

#[verifier::rlimit(40)]
fn func_loop(
    env: &mut Env,
    id: &String,
    param_num: usize,
    tok: &[Token],
    j: usize,
    params: Vec<Node>,
) -> (r: Result<(Node, usize), MyError>)
    requires
        old(env).wf(),
        tok@.len() < usize::MAX,
        j <= tok.len(),
    ensures
        step_post(
            *old(env),
            *final(env),
            p_func_loop(
                old(env).scope(),
                old(env).var_keys(),
                id@,
                param_num,
                tokens_view(tok@),
                j as int,
                nodes_view(params@),
            ),
            r,
            j as int,
            tok@.len() as int,
        ),
        r matches Ok((_, k)) ==> k <= tok.len(),
    decreases tok@.len() - j, 13nat,
{
    if j >= tok.len() {
        return Err(parse_error_at("function has no ')'", tok, j));
    }
    if let Token::Op(TokenOp::ParenRight) = &tok[j] {
        if param_num != 0 && param_num != params.len() {
            return Err(parse_error_at("function parameter number", tok, j));
        }
        let ghost pv = nodes_view(params@);
        let node = Node::Func(Token::Ident(id.clone()), params);
        assert(node@ == NodeView::Func(TokenView::Ident(id@), pv)) by {
            if let NodeView::Func(_, s) = node@ {
                assert(s =~= pv);
            }
        }
        return Ok((node, j + 1));
    }
    if let Token::Op(TokenOp::Comma) = &tok[j] {
        return func_loop(env, id, param_num, tok, j + 1, params);
    }
    match expr(env, tok, j) {
        Err(e) => {
            if is_stuck(&e) {
                Err(e)
            } else {
                Err(parse_error_at("function parameter", tok, j))
            }
        },
        Ok((t, k)) => {
            if j < k && k <= tok.len() {
                let mut params = params;
                let ghost p0 = params@;
                params.push(t);
                assert(nodes_view(params@) =~= nodes_view(p0).push(t@));
                func_loop(env, id, param_num, tok, k, params)
            } else if k > tok.len() {
                Err(parse_error_at("function has no ')'", tok, k))
            } else {
                Err(stuck_error())
            }
        },
    }
}

#[verifier::rlimit(40)]
fn primary(env: &mut Env, tok: &[Token], i: usize) -> (r: Result<(Node, usize), MyError>)
    requires
        old(env).wf(),
        tok@.len() < usize::MAX,
    ensures
        step_post(
            *old(env),
            *final(env),
            p_primary(old(env).scope(), old(env).var_keys(), tokens_view(tok@), i as int),
            r,
            i as int,
            tok@.len() as int,
        ),
    decreases tok@.len() - i, 4nat,
{
    if i >= tok.len() {
        return Err(end_error(tok));
    }
    match &tok[i] {
        Token::Op(TokenOp::ParenLeft) => {
            match expr(env, tok, i + 1) {
                Err(e) => Err(e),
                Ok((ex, k)) => {
                    if k >= tok.len() {
                        Err(end_error(tok))
                    } else if let Token::Op(TokenOp::ParenRight) = &tok[k] {
                        Ok((ex, k + 1))
                    } else {
                        Err(parse_error_at("')' not found", tok, k))
                    }
                },
            }
        },
        Token::Ident(id) => {
            if env.is_const(id.as_str()) {
                Ok((Node::Var(Token::Ident(id.clone())), i + 1))
            } else if let Some(n) = env.is_func(id.as_str()) {
                func(env, id, n, tok, i)
            } else if env.is_user_func(id.clone()).is_some() {
                func(env, id, 0, tok, i)
            } else if env.is_cmd(id.as_str()).is_some() {
                let params = crate::env::copy_tokens_from(tok, i + 1);
                let node = Node::Command(Token::Ident(id.clone()), params, String::new());
                Ok((node, tok.len() + 1))
            } else if env.is_variable(id.as_str()) {
                Ok((Node::Var(Token::Ident(id.clone())), i + 1))
            } else {
                env.new_variable(id.clone());
                Ok((Node::Var(Token::Ident(id.clone())), i + 1))
            }
        },
        _ => num(env, tok, i),
    }
}

#[verifier::rlimit(40)]
fn unary(env: &mut Env, tok: &[Token], i: usize) -> (r: Result<(Node, usize), MyError>)
    requires
        old(env).wf(),
        tok@.len() < usize::MAX,
    ensures
        step_post(
            *old(env),
            *final(env),
            p_unary(old(env).scope(), old(env).var_keys(), tokens_view(tok@), i as int),
            r,
            i as int,
            tok@.len() as int,
        ),
    decreases tok@.len() - i, 5nat,
{
    if i >= tok.len() {
        return Err(end_error(tok));
    }
    let is_sign = match &tok[i] {
        Token::Op(TokenOp::Minus) => true,
        Token::Op(TokenOp::Plus) => true,
        _ => false,
    };
    if is_sign {
        match primary(env, tok, i + 1) {
            Err(e) => Err(e),
            Ok((rhs, k)) => Ok((Node::Unary(tok[i].duplicate(), Box::new(rhs)), k)),
        }
    } else {
        primary(env, tok, i)
    }
}

#[verifier::rlimit(40)]
fn exp(env: &mut Env, tok: &[Token], i: usize) -> (r: Result<(Node, usize), MyError>)
    requires
        old(env).wf(),
        tok@.len() < usize::MAX,
    ensures
        step_post(
            *old(env),
            *final(env),
            p_exp(old(env).scope(), old(env).var_keys(), tokens_view(tok@), i as int),
            r,
            i as int,
            tok@.len() as int,
        ),
    decreases tok@.len() - i, 6nat,
{
    if i >= tok.len() {
        return Err(end_error(tok));
    }
    match unary(env, tok, i) {
        Err(e) => Err(e),
        Ok((lhs, k)) => {
            if tok.len() <= k {
                return Ok((lhs, k));
            }
            if let Token::Op(TokenOp::Caret) = &tok[k] {
                match exp(env, tok, k + 1) {
                    Err(e) => Err(e),
                    Ok((rhs, j)) => Ok(
                        (
                            Node::BinOp(Token::Op(TokenOp::Caret), Box::new(lhs), Box::new(rhs)),
                            j,
                        ),
                    ),
                }
            } else {
                Ok((lhs, k))
            }
        },
    }
}

fn is_mul_op_exec(t: &Token) -> (b: bool)
    ensures
        b == is_mul_op(t@),
{
    match t {
        Token::Op(TokenOp::Mul) => true,
        Token::Op(TokenOp::Div) => true,
        Token::Op(TokenOp::Mod) => true,
        Token::Op(TokenOp::Para) => true,
        _ => false,
    }
}

fn mul_loop(env: &mut Env, tok: &[Token], lhs: Node, k: usize) -> (r: Result<(Node, usize), MyError>)
    requires
        old(env).wf(),
        tok@.len() < usize::MAX,
        k <= tok.len() + 1,
    ensures
        step_post(
            *old(env),
            *final(env),
            p_mul_loop(old(env).scope(), old(env).var_keys(), tokens_view(tok@), lhs@, k as int),
            r,
            k as int,
            tok@.len() as int,
        ),
    decreases tok@.len() - k, 7nat,
{
    if tok.len() <= k {
        return Ok((lhs, k));
    }
    if is_mul_op_exec(&tok[k]) {
        match exp(env, tok, k + 1) {
            Err(e) => Err(e),
            Ok((rhs, j)) => {
                let node = Node::BinOp(tok[k].duplicate(), Box::new(lhs), Box::new(rhs));
                if k < j && j <= tok.len() {
                    mul_loop(env, tok, node, j)
                } else {
                    Ok((node, j))
                }
            },
        }
    } else {
        Ok((lhs, k))
    }
}

#[verifier::rlimit(40)]
fn mul(env: &mut Env, tok: &[Token], i: usize) -> (r: Result<(Node, usize), MyError>)
    requires
        old(env).wf(),
        tok@.len() < usize::MAX,
    ensures
        step_post(
            *old(env),
            *final(env),
            p_mul(old(env).scope(), old(env).var_keys(), tokens_view(tok@), i as int),
            r,
            i as int,
            tok@.len() as int,
        ),
    decreases tok@.len() - i, 8nat,
{
    if i >= tok.len() {
        return Err(end_error(tok));
    }
    match exp(env, tok, i) {
        Err(e) => Err(e),
        Ok((lhs, k)) => {
            if i <= k && k <= tok.len() {
                mul_loop(env, tok, lhs, k)
            } else {
                Ok((lhs, k))
            }
        },
    }
}

fn expr_loop(env: &mut Env, tok: &[Token], lhs: Node, k: usize) -> (r: Result<(Node, usize), MyError>)
    requires
        old(env).wf(),
        tok@.len() < usize::MAX,
        k <= tok.len() + 1,
    ensures
        step_post(
            *old(env),
            *final(env),
            p_expr_loop(old(env).scope(), old(env).var_keys(), tokens_view(tok@), lhs@, k as int),
            r,
            k as int,
            tok@.len() as int,
        ),
    decreases tok@.len() - k, 9nat,
{
    if tok.len() <= k {
        return Ok((lhs, k));
    }
    let is_add = match &tok[k] {
        Token::Op(TokenOp::Plus) => true,
        Token::Op(TokenOp::Minus) => true,
        _ => false,
    };
    if is_add {
        match self::mul(env, tok, k + 1) {
            Err(e) => Err(e),
            Ok((rhs, j)) => {
                let node = Node::BinOp(tok[k].duplicate(), Box::new(lhs), Box::new(rhs));
                if k < j && j <= tok.len() {
                    expr_loop(env, tok, node, j)
                } else {
                    Ok((node, j))
                }
            },
        }
    } else {
        Ok((lhs, k))
    }
}

#[verifier::rlimit(40)]
fn expr(env: &mut Env, tok: &[Token], i: usize) -> (r: Result<(Node, usize), MyError>)
    requires
        old(env).wf(),
        tok@.len() < usize::MAX,
    ensures
        step_post(
            *old(env),
            *final(env),
            p_expr(old(env).scope(), old(env).var_keys(), tokens_view(tok@), i as int),
            r,
            i as int,
            tok@.len() as int,
        ),
    decreases tok@.len() - i, 10nat,
{
    if i >= tok.len() {
        return Err(end_error(tok));
    }
    match self::mul(env, tok, i) {
        Err(e) => Err(e),
        Ok((lhs, k)) => {
            if i <= k && k <= tok.len() {
                expr_loop(env, tok, lhs, k)
            } else {
                Ok((lhs, k))
            }
        },
    }
}

#[verifier::rlimit(40)]
fn assign(env: &mut Env, tok: &[Token], i: usize) -> (r: Result<(Node, usize), MyError>)
    requires
        old(env).wf(),
        tok@.len() < usize::MAX,
    ensures
        step_post(
            *old(env),
            *final(env),
            p_assign(old(env).scope(), old(env).var_keys(), tokens_view(tok@), i as int),
            r,
            i as int,
            tok@.len() as int,
        ),
    decreases tok@.len() - i, 11nat,
{
    if i >= tok.len() {
        return Err(end_error(tok));
    }
    match expr(env, tok, i) {
        Err(e) => Err(e),
        Ok((lhs, k)) => {
            let is_eq = k < tok.len() && match &tok[k] {
                Token::Op(TokenOp::Equal) => true,
                _ => false,
            };
            if is_eq {
                match expr(env, tok, k + 1) {
                    Err(e) => Err(e),
                    Ok((rhs, j)) => Ok(
                        (
                            Node::BinOp(Token::Op(TokenOp::Equal), Box::new(lhs), Box::new(rhs)),
                            j,
                        ),
                    ),
                }
            } else {
                Ok((lhs, k))
            }
        },
    }
}

/// The outcome of parsing `tok`, without a requirement that it finishes.
fn parse_tokens(env: &mut Env, tok: &[Token]) -> (r: Result<Node, MyError>)
    requires
        old(env).wf(),
        tok@.len() < usize::MAX,
    ensures
        final(env).wf(),
        final(env).same_but_variables(old(env)),
        keys_extend(old(env).var_keys(), final(env).var_keys()),
        only_new_vars(old(env).scope(), old(env).var_keys(), final(env).var_keys()),
        spec_parse(old(env).scope(), old(env).var_keys(), tokens_view(tok@)) == (
            final(env).var_keys(),
            match r {
                Ok(n) => Ok::<NodeView, ErrorView>(n@),
                Err(e) => Err::<NodeView, ErrorView>(e@),
            },
        ),
{
    match assign(env, tok, 0) {
        Err(e) => Err(e),
        Ok((node, i)) => {
            if i < tok.len() {
                Err(parse_error_at("token left", tok, i))
            } else {
                Ok(node)
            }
        },
    }
}

/// Whether parsing `tok` finishes (see `stuck`).
pub open spec fn parse_finishes(sc: Scope, vars: Seq<Seq<char>>, tok: Seq<TokenView>) -> bool {
    spec_parse(sc, vars, tok).1 != Err::<NodeView, ErrorView>(stuck())
}

/// Parses a whole token sequence.  The only change to `env` is that names
/// first met as operands, which name no constant, function, user function
/// or command, become variables, added after the existing ones.
pub fn parse(env: &mut Env, tok: &[Token]) -> (r: Result<Node, MyError>)
    requires
        old(env).wf(),
        tok@.len() < usize::MAX,
        parse_finishes(old(env).scope(), old(env).var_keys(), tokens_view(tok@)),
    ensures
        final(env).wf(),
        final(env).same_but_variables(old(env)),
        keys_extend(old(env).var_keys(), final(env).var_keys()),
        only_new_vars(old(env).scope(), old(env).var_keys(), final(env).var_keys()),
        spec_parse(old(env).scope(), old(env).var_keys(), tokens_view(tok@)) == (
            final(env).var_keys(),
            match r {
                Ok(n) => Ok::<NodeView, ErrorView>(n@),
                Err(e) => Err::<NodeView, ErrorView>(e@),
            },
        ),
{
    parse_tokens(env, tok)
}

/// Parses a whole token sequence; `None` when the parse would not finish
/// (it would read past the tokens of a `[ ]` or make no progress).
pub fn try_parse(env: &mut Env, tok: &[Token]) -> (r: Option<Result<Node, MyError>>)
    requires
        old(env).wf(),
        tok@.len() < usize::MAX,
    ensures
        final(env).wf(),
        final(env).same_but_variables(old(env)),
        keys_extend(old(env).var_keys(), final(env).var_keys()),
        only_new_vars(old(env).scope(), old(env).var_keys(), final(env).var_keys()),
        match r {
            None => spec_parse(old(env).scope(), old(env).var_keys(), tokens_view(tok@)).1 == Err::<
                NodeView,
                ErrorView,
            >(stuck()),
            Some(x) => spec_parse(old(env).scope(), old(env).var_keys(), tokens_view(tok@)) == (
                final(env).var_keys(),
                match x {
                    Ok(n) => Ok::<NodeView, ErrorView>(n@),
                    Err(e) => Err::<NodeView, ErrorView>(e@),
                },
            ) && parse_finishes(old(env).scope(), old(env).var_keys(), tokens_view(tok@)),
        },
{
    let r = parse_tokens(env, tok);
    match r {
        Err(e) => {
            if is_stuck(&e) {
                None
            } else {
                Some(Err(e))
            }
        },
        Ok(n) => Some(Ok(n)),
    }
}
} // verus!
