//! Calls of user defined functions: the body of `defun name tokens...` is a
//! token sequence in which `_1` ... `_9` stand for the arguments.  A call
//! replaces each of them by the tokens of the argument's value, and the
//! result is parsed and evaluated again.
use vstd::prelude::*;

use crate::lexer::{push_tokens_text, tokens_text, tokens_view, Token, TokenView};
use crate::strings::{push_str, string_from_chars};
use crate::{ErrorView, MyError};

verus! {

/// The argument a parameter name stands for: `_1` is the first, ..., `_9`
/// the ninth.
pub open spec fn param_index(id: Seq<char>) -> Option<int> {
    if id.len() == 2 && id[0] == '_' && '1' <= id[1] <= '9' {
        Some(id[1] as int - '1' as int)
    } else {
        None
    }
}

/// The body's first `i` tokens with the parameters replaced; when one of
/// them names an argument that was not given, `Err` with the tokens written
/// before it.
pub open spec fn expand_prefix(body: Seq<TokenView>, args: Seq<Seq<TokenView>>, i: int) -> Result<
    Seq<TokenView>,
    Seq<TokenView>,
>
    decreases i,
{
    if i <= 0 {
        Ok(Seq::empty())
    } else {
        match expand_prefix(body, args, i - 1) {
            Err(acc) => Err(acc),
            Ok(acc) => match body[i - 1] {
                TokenView::Ident(id) => match param_index(id) {
                    Some(p) => if p < args.len() {
                        Ok(acc + args[p])
                    } else {
                        Err(acc)
                    },
                    None => Ok(acc.push(body[i - 1])),
                },
                _ => Ok(acc.push(body[i - 1])),
            },
        }
    }
}

proof fn lemma_expand_err(body: Seq<TokenView>, args: Seq<Seq<TokenView>>, i: int, n: int)
    requires
        0 <= i <= n,
        expand_prefix(body, args, i) is Err,
    ensures
        expand_prefix(body, args, n) == expand_prefix(body, args, i),
    decreases n - i,
{
    if i < n {
        assert(expand_prefix(body, args, i + 1) == expand_prefix(body, args, i));
        lemma_expand_err(body, args, i + 1, n);
    }
}

/// The message of a call that uses a parameter without its argument, after
/// the tokens `acc` were written.
pub open spec fn msg_no_param(acc: Seq<TokenView>) -> Seq<char> {
    "no parameter "@ + tokens_text(acc)
}

pub open spec fn expand_result_view(r: Result<Vec<Token>, MyError>) -> Result<Seq<TokenView>, ErrorView> {
    match r {
        Ok(v) => Ok(tokens_view(v@)),
        Err(e) => Err(e@),
    }
}

/// Which argument the identifier `id` names, if it is a parameter name.
fn param_of(id: &String) -> (r: Option<usize>)
    ensures
        match r {
            Some(p) => param_index(id@) == Some(p as int),
            None => param_index(id@) is None,
        },
{
    let cs = crate::strings::chars_of(id.as_str());
    if cs.len() == 2 && cs[0] == '_' && '1' <= cs[1] && cs[1] <= '9' {
        let d = cs[1];
        let p: usize = if d == '1' {
            0
        } else if d == '2' {
            1
        } else if d == '3' {
            2
        } else if d == '4' {
            3
        } else if d == '5' {
            4
        } else if d == '6' {
            5
        } else if d == '7' {
            6
        } else if d == '8' {
            7
        } else {
            8
        };
        Some(p)
    } else {
        None
    }
}

/// The body of a user function with `_1` ... `_9` replaced by the tokens of
/// the arguments; an error when a parameter names an argument that was not
/// given.
pub fn substitute_params(body: &[Token], args: &Vec<Vec<Token>>) -> (r: Result<Vec<Token>, MyError>)
    ensures
        expand_result_view(r) == match expand_prefix(
            tokens_view(body@),
            args@.map_values(|a: Vec<Token>| tokens_view(a@)),
            body@.len() as int,
        ) {
            Ok(ts) => Ok(ts),
            Err(acc) => Err(ErrorView::EvalError(msg_no_param(acc))),
        },
{
    let ghost bv = tokens_view(body@);
    let ghost av = args@.map_values(|a: Vec<Token>| tokens_view(a@));
    let mut out: Vec<Token> = Vec::new();
    let mut i: usize = 0;
    assert(tokens_view(out@) =~= Seq::<TokenView>::empty());
    while i < body.len()
        invariant
            bv == tokens_view(body@),
            av == args@.map_values(|a: Vec<Token>| tokens_view(a@)),
            0 <= i <= body.len(),
            expand_prefix(bv, av, i as int) == Ok::<Seq<TokenView>, Seq<TokenView>>(tokens_view(out@)),
        decreases body.len() - i,
    {
        let ghost before = tokens_view(out@);
        assert(bv[i as int] == body@[i as int]@);
        match &body[i] {
            Token::Ident(id) => {
                match param_of(id) {
                    Some(p) => {
                        if p < args.len() {
                            let a = &args[p];
                            assert(av[p as int] == tokens_view(a@));
                            let mut j: usize = 0;
                            while j < a.len()
                                invariant
                                    0 <= j <= a.len(),
                                    tokens_view(out@) == before + tokens_view(a@).take(j as int),
                                decreases a.len() - j,
                            {
                                let ghost o = tokens_view(out@);
                                out.push(a[j].duplicate());
                                proof {
                                    assert(tokens_view(out@) =~= o.push(a@[j as int]@));
                                    assert(tokens_view(a@).take(j + 1) =~= tokens_view(a@).take(
                                        j as int,
                                    ).push(a@[j as int]@));
                                }
                                j = j + 1;
                            }
                            assert(tokens_view(a@).take(a.len() as int) =~= tokens_view(a@));
                        } else {
                            proof {
                                lemma_expand_err(bv, av, i + 1, body@.len() as int);
                            }
                            let mut msg: Vec<char> = Vec::new();
                            push_str(&mut msg, "no parameter ");
                            push_tokens_text(&mut msg, &out);
                            return Err(MyError::EvalError(string_from_chars(&msg)));
                        }
                    },
                    None => {
                        out.push(body[i].duplicate());
                        assert(tokens_view(out@) =~= before.push(bv[i as int]));
                    },
                }
            },
            _ => {
                out.push(body[i].duplicate());
                assert(tokens_view(out@) =~= before.push(bv[i as int]));
            },
        }
        i = i + 1;
    }
    Ok(out)
}

} // verus!
