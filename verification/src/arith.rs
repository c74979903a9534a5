//! The integer arithmetic of the calculator: the result of an operator on
//! two integers, when it is an integer.
use vstd::prelude::*;

use crate::lexer::TokenOp;

verus! {

/// `a` to the power `n`.
pub open spec fn int_pow(a: int, n: nat) -> int
    decreases n,
{
    if n == 0 {
        1
    } else {
        a * int_pow(a, (n - 1) as nat)
    }
}

pub open spec fn int_abs(a: int) -> int {
    if a < 0 {
        -a
    } else {
        a
    }
}

/// The exponent an `i128` exponent `e` gives: its lowest 32 bits.
pub open spec fn exponent_bits(e: i128) -> nat {
    (e as u32) as nat
}

/// The integer result of `a op b`: sum, difference and product; the
/// quotient and remainder rounded toward zero; the power for a positive
/// exponent.  `None` where the result is no integer (division by zero, an
/// exponent of zero or below, or another operator).
pub open spec fn int_result(op: TokenOp, a: i128, b: i128) -> Option<int> {
    if op == TokenOp::Plus {
        Some(a + b)
    } else if op == TokenOp::Minus {
        Some(a - b)
    } else if op == TokenOp::Mul {
        Some(a * b)
    } else if op == TokenOp::Div {
        if b == 0 {
            None
        } else {
            Some(trunc_div(a as int, b as int))
        }
    } else if op == TokenOp::Mod {
        Some(trunc_rem(a as int, b as int))
    } else if op == TokenOp::Caret {
        if b > 0 {
            Some(int_pow(a as int, exponent_bits(b)))
        } else {
            None
        }
    } else {
        None
    }
}

/// The quotient rounded toward zero (`/` here is Euclidean division, which
/// rounds toward zero for a dividend of zero or more).
pub open spec fn trunc_div(a: int, b: int) -> int {
    if a >= 0 {
        a / b
    } else {
        -((-a) / b)
    }
}

/// The remainder of the quotient rounded toward zero: it has the sign of
/// `a`.
pub open spec fn trunc_rem(a: int, b: int) -> int {
    if a >= 0 {
        a % b
    } else {
        -((-a) % b)
    }
}

/// Whether `a op b` can be computed: the result fits an `i128`, and there is
/// no remainder by zero and no remainder of `i128::MIN` by `-1`.
pub open spec fn int_computable(op: TokenOp, a: i128, b: i128) -> bool {
    &&& (op == TokenOp::Mod ==> b != 0 && !(a == i128::MIN && b == -1))
    &&& (int_result(op, a, b) matches Some(v) ==> i128::MIN <= v <= i128::MAX)
}

proof fn lemma_pow_grows(a: int, i: nat, n: nat)
    requires
        a != 0,
        i <= n,
    ensures
        int_abs(int_pow(a, i)) <= int_abs(int_pow(a, n)),
    decreases n - i,
{
    if i < n {
        lemma_pow_grows(a, (i + 1) as nat, n);
        let p = int_pow(a, i);
        assert(int_pow(a, (i + 1) as nat) == a * p);
        assert(int_abs(a * p) >= int_abs(p)) by (nonlinear_arith)
            requires
                a != 0,
        ;
    }
}

proof fn lemma_pow_strict(a: int, i: nat, n: nat)
    requires
        int_abs(a) >= 2,
        i < n,
    ensures
        int_abs(int_pow(a, i)) < int_abs(int_pow(a, n)),
    decreases n - i,
{
    let p = int_pow(a, i);
    assert(int_pow(a, (i + 1) as nat) == a * p);
    lemma_pow_grows(a, i, i);
    assert(int_abs(p) >= 1) by {
        lemma_pow_nonzero(a, i);
    }
    assert(int_abs(a * p) > int_abs(p)) by (nonlinear_arith)
        requires
            int_abs(a) >= 2,
            int_abs(p) >= 1,
    ;
    if i + 1 < n {
        lemma_pow_strict(a, (i + 1) as nat, n);
    }
}

proof fn lemma_pow_nonzero(a: int, i: nat)
    requires
        a != 0,
    ensures
        int_pow(a, i) != 0,
    decreases i,
{
    if i > 0 {
        lemma_pow_nonzero(a, (i - 1) as nat);
        let p = int_pow(a, (i - 1) as nat);
        assert(a * p != 0) by (nonlinear_arith)
            requires
                a != 0,
                p != 0,
        ;
    }
}

proof fn lemma_pow_unit(a: int, i: nat)
    requires
        int_abs(a) == 1,
    ensures
        int_abs(int_pow(a, i)) == 1,
    decreases i,
{
    if i > 0 {
        lemma_pow_unit(a, (i - 1) as nat);
        let p = int_pow(a, (i - 1) as nat);
        assert(int_abs(a * p) == 1) by (nonlinear_arith)
            requires
                int_abs(a) == 1,
                int_abs(p) == 1,
        ;
    }
}

/// `a` to the power `n`, when it fits an `i128`.
fn pow_exec(a: i128, n: u32) -> (r: i128)
    requires
        i128::MIN <= int_pow(a as int, n as nat) <= i128::MAX,
    ensures
        r == int_pow(a as int, n as nat),
{
    if a == 0 {
        if n == 0 {
            return 1;
        } else {
            assert(int_pow(0, n as nat) == 0 * int_pow(0, (n - 1) as nat));
            return 0;
        }
    }
    let mut acc: i128 = 1;
    let mut i: u32 = 0;
    while i < n
        invariant
            a != 0,
            0 <= i <= n,
            acc == int_pow(a as int, i as nat),
            i128::MIN <= int_pow(a as int, n as nat) <= i128::MAX,
        decreases n - i,
    {
        proof {
            assert(int_pow(a as int, (i + 1) as nat) == a * int_pow(a as int, i as nat));
            if i + 1 < n {
                if int_abs(a as int) >= 2 {
                    lemma_pow_strict(a as int, (i + 1) as nat, n as nat);
                } else {
                    lemma_pow_unit(a as int, (i + 1) as nat);
                }
            }
        }
        acc = a * acc;
        i = i + 1;
    }
    acc
}

/// The result of an operator on two integers, when it is an integer (see
/// `int_result`); the caller turns a `None` into a floating point result.
pub fn int_binop(op: TokenOp, a: i128, b: i128) -> (r: Option<i128>)
    requires
        int_computable(op, a, b),
    ensures
        match int_result(op, a, b) {
            Some(v) => r == Some(v as i128),
            None => r is None,
        },
{
    match op {
        TokenOp::Plus => Some(a + b),
        TokenOp::Minus => Some(a - b),
        TokenOp::Mul => Some(a * b),
        TokenOp::Div => {
            if b == 0 {
                None
            } else {
                Some(a / b)
            }
        },
        TokenOp::Mod => {
            Some(a % b)
        },
        TokenOp::Caret => {
            if b > 0 {
                #[verifier::truncate]
                let n = b as u32;
                Some(pow_exec(a, n))
            } else {
                None
            }
        },
        _ => None,
    }
}

} // verus!
