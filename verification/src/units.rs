//! Physical units attached to numbers: combining the units of operands,
//! rewriting a units expression so that divisions and powers move outward,
//! turning it into a fraction of unit names with exponents, cancelling
//! units that occur above and below the fraction bar, and writing a fraction.
use vstd::prelude::*;

use crate::env::{distinct_keys, is_word, Env};
use crate::exponents::{
    below, edel, eget, eget0, epos, eset, exps_del, exps_get, exps_set, exps_wf, lemma_edel,
    lemma_edel_nonneg, lemma_edel_positive, lemma_epos, lemma_epos_at, lemma_eset, lemma_eset_below,
    lemma_eset_nonneg, lemma_eset_positive, nonneg, positive, Exps,
};
use crate::lexer::{Token, TokenOp, TokenView};
use crate::parser::{fraction_view, node_view, Node, NodeView};
use crate::strings::{
    chars_of, debug_str, debug_string, int_text, push_all, push_int_text, string_from_chars,
};

verus! {

// ----------------------------------------------------------------------
// Writing a fraction
/// `("name", exponent)`.
pub open spec fn entry_text(e: (Seq<char>, i32)) -> Seq<char> {
    seq!['('] + debug_str(e.0) + seq![',', ' '] + int_text(e.1 as int) + seq![')']
}

/// The entries separated by `, `.
pub open spec fn entries_text(s: Seq<(Seq<char>, i32)>) -> Seq<char>
    decreases s.len(),
{
    if s.len() == 0 {
        Seq::empty()
    } else if s.len() == 1 {
        entry_text(s[0])
    } else {
        entries_text(s.drop_last()) + seq![',', ' '] + entry_text(s.last())
    }
}

/// `[` entries `]`, as `Debug` writes a list of pairs.
pub open spec fn list_text(s: Seq<(Seq<char>, i32)>) -> Seq<char> {
    seq!['['] + entries_text(s) + seq![']']
}

/// Lexicographic order of character sequences (the order of `String`).
pub open spec fn seq_lt(a: Seq<char>, b: Seq<char>) -> bool
    decreases a.len(),
{
    if a.len() == 0 {
        b.len() > 0
    } else if b.len() == 0 {
        false
    } else if a[0] != b[0] {
        a[0] < b[0]
    } else {
        seq_lt(a.drop_first(), b.drop_first())
    }
}

proof fn lemma_seq_lt_irreflexive(a: Seq<char>)
    ensures
        !seq_lt(a, a),
    decreases a.len(),
{
    if a.len() > 0 {
        lemma_seq_lt_irreflexive(a.drop_first());
    }
}

proof fn lemma_seq_lt_total(a: Seq<char>, b: Seq<char>)
    ensures
        a != b ==> seq_lt(a, b) || seq_lt(b, a),
        !(seq_lt(a, b) && seq_lt(b, a)),
    decreases a.len(),
{
    if a.len() > 0 && b.len() > 0 && a[0] == b[0] {
        lemma_seq_lt_total(a.drop_first(), b.drop_first());
        if a != b {
            assert(a.drop_first() != b.drop_first()) by {
                if a.drop_first() == b.drop_first() {
                    assert(a =~= seq![a[0]] + a.drop_first());
                    assert(b =~= seq![b[0]] + b.drop_first());
                }
            }
        }
    } else if a.len() == 0 && b.len() == 0 {
        assert(a =~= b);
    }
}

proof fn lemma_seq_lt_trans(a: Seq<char>, b: Seq<char>, c: Seq<char>)
    requires
        seq_lt(a, b),
        seq_lt(b, c),
    ensures
        seq_lt(a, c),
    decreases a.len(),
{
    if a.len() > 0 && b.len() > 0 && c.len() > 0 && a[0] == b[0] && b[0] == c[0] {
        lemma_seq_lt_trans(a.drop_first(), b.drop_first(), c.drop_first());
    }
}

/// Whether `a` is below `b` in the order of strings.
fn str_lt(a: &String, b: &String) -> (r: bool)
    ensures
        r == seq_lt(a@, b@),
{
    let x = chars_of(a.as_str());
    let y = chars_of(b.as_str());
    assert(x@.skip(0) =~= x@);
    assert(y@.skip(0) =~= y@);
    let mut i: usize = 0;
    while i < x.len() && i < y.len() && x[i] == y[i]
        invariant
            0 <= i <= x.len(),
            i <= y.len(),
            seq_lt(x@.skip(i as int), y@.skip(i as int)) == seq_lt(x@, y@),
        decreases x.len() - i,
    {
        proof {
            let xs = x@.skip(i as int);
            let ys = y@.skip(i as int);
            assert(xs.drop_first() =~= x@.skip(i + 1));
            assert(ys.drop_first() =~= y@.skip(i + 1));
        }
        i = i + 1;
    }
    proof {
        let xs = x@.skip(i as int);
        let ys = y@.skip(i as int);
        if i < x.len() && i < y.len() {
            assert(xs[0] == x@[i as int]);
            assert(ys[0] == y@[i as int]);
        }
    }
    if i < x.len() && i < y.len() {
        x[i] < y[i]
    } else {
        i == x.len() && i < y.len()
    }
}

/// `p` lists each index below `n` exactly once.
pub open spec fn is_perm(p: Seq<int>, n: nat) -> bool {
    &&& p.len() == n
    &&& forall|k: int| 0 <= k < p.len() ==> 0 <= #[trigger] p[k] < n
    &&& forall|k: int, l: int| 0 <= k < p.len() && 0 <= l < p.len() && k != l ==> p[k] != p[l]
    &&& forall|j: int| 0 <= j < n ==> #[trigger] p.contains(j)
}

/// The entries `e` taken in the order `p`.
pub open spec fn arrange(e: Seq<(Seq<char>, i32)>, p: Seq<int>) -> Seq<(Seq<char>, i32)> {
    Seq::new(p.len(), |k: int| e[p[k]])
}

/// The keys of `s` strictly increase.
pub open spec fn keys_ascending(s: Seq<(Seq<char>, i32)>) -> bool {
    forall|k: int, l: int| 0 <= k < l < s.len() ==> seq_lt(s[k].0, s[l].0)
}

/// An arrangement of `e` holds exactly the entries of `e`.
proof fn lemma_arrange_contains(e: Seq<(Seq<char>, i32)>, p: Seq<int>, x: (Seq<char>, i32))
    requires
        is_perm(p, e.len()),
    ensures
        arrange(e, p).contains(x) <==> e.contains(x),
{
    let a = arrange(e, p);
    if a.contains(x) {
        let k = choose|k: int| 0 <= k < a.len() && a[k] == x;
        assert(e[p[k]] == x);
    }
    if e.contains(x) {
        let j = choose|j: int| 0 <= j < e.len() && e[j] == x;
        assert(p.contains(j));
        let k = choose|k: int| 0 <= k < p.len() && p[k] == j;
        assert(a[k] == x);
    }
}

/// Two lists in ascending order of keys that hold the same entries are the
/// same list.
proof fn lemma_ascending_unique(a: Seq<(Seq<char>, i32)>, b: Seq<(Seq<char>, i32)>)
    requires
        keys_ascending(a),
        keys_ascending(b),
        forall|x: (Seq<char>, i32)| a.contains(x) <==> b.contains(x),
    ensures
        a == b,
    decreases a.len() + b.len(),
{
    if a.len() == 0 || b.len() == 0 {
        if b.len() > 0 {
            assert(b.contains(b[0]));
        }
        if a.len() > 0 {
            assert(a.contains(a[0]));
        }
        assert(a =~= b);
    } else {
        assert(a.contains(a[0]));
        assert(b.contains(b[0]));
        let j = choose|j: int| 0 <= j < b.len() && b[j] == a[0];
        let i = choose|i: int| 0 <= i < a.len() && a[i] == b[0];
        lemma_seq_lt_total(a[0].0, b[0].0);
        if j > 0 && i > 0 {
            assert(seq_lt(b[0].0, b[j].0));
            assert(seq_lt(a[0].0, a[i].0));
            assert(false);
        }
        assert(a[0] == b[0]);
        let a1 = a.drop_first();
        let b1 = b.drop_first();
        assert forall|x: (Seq<char>, i32)| a1.contains(x) <==> b1.contains(x) by {
            if a1.contains(x) {
                let k = choose|k: int| 0 <= k < a1.len() && a1[k] == x;
                assert(a[k + 1] == x);
                assert(seq_lt(a[0].0, a[k + 1].0));
                lemma_seq_lt_irreflexive(a[0].0);
                assert(b.contains(x));
                let m = choose|m: int| 0 <= m < b.len() && b[m] == x;
                assert(m != 0);
                assert(b1[m - 1] == x);
            }
            if b1.contains(x) {
                let k = choose|k: int| 0 <= k < b1.len() && b1[k] == x;
                assert(b[k + 1] == x);
                assert(seq_lt(b[0].0, b[k + 1].0));
                lemma_seq_lt_irreflexive(b[0].0);
                assert(a.contains(x));
                let m = choose|m: int| 0 <= m < a.len() && a[m] == x;
                assert(m != 0);
                assert(a1[m - 1] == x);
            }
        }
        assert forall|k: int, l: int| 0 <= k < l < a1.len() implies seq_lt(a1[k].0, a1[l].0) by {
            assert(a1[k] == a[k + 1]);
            assert(a1[l] == a[l + 1]);
        }
        assert forall|k: int, l: int| 0 <= k < l < b1.len() implies seq_lt(b1[k].0, b1[l].0) by {
            assert(b1[k] == b[k + 1]);
            assert(b1[l] == b[l + 1]);
        }
        lemma_ascending_unique(a1, b1);
        assert(a =~= seq![a[0]] + a1);
        assert(b =~= seq![b[0]] + b1);
    }
}

/// The text of a table of exponents depends only on the entries it holds:
/// two tables with the same entries, in whatever order, are written the
/// same way (see `units_fraction_to_string`).
pub proof fn lemma_sorted_text_unique(
    e1: Seq<(Seq<char>, i32)>,
    e2: Seq<(Seq<char>, i32)>,
    t1: Seq<char>,
    t2: Seq<char>,
)
    requires
        forall|x: (Seq<char>, i32)| e1.contains(x) <==> e2.contains(x),
        sorted_text(e1, t1),
        sorted_text(e2, t2),
    ensures
        t1 == t2,
{
    let p1 = choose|p: Seq<int>|
        is_perm(p, e1.len()) && keys_ascending(#[trigger] arrange(e1, p)) && t1 == list_text(
            arrange(e1, p),
        );
    let p2 = choose|p: Seq<int>|
        is_perm(p, e2.len()) && keys_ascending(#[trigger] arrange(e2, p)) && t2 == list_text(
            arrange(e2, p),
        );
    let a1 = arrange(e1, p1);
    let a2 = arrange(e2, p2);
    assert forall|x: (Seq<char>, i32)| a1.contains(x) <==> a2.contains(x) by {
        lemma_arrange_contains(e1, p1, x);
        lemma_arrange_contains(e2, p2, x);
    }
    lemma_ascending_unique(a1, a2);
}

/// `e` written in ascending order of keys.
pub open spec fn sorted_text(e: Seq<(Seq<char>, i32)>, t: Seq<char>) -> bool {
    exists|p: Seq<int>|
        is_perm(p, e.len()) && keys_ascending(#[trigger] arrange(e, p)) && t == list_text(
            arrange(e, p),
        )
}

pub open spec fn fraction_keys(v: Seq<(String, i32)>) -> Seq<Seq<char>> {
    v.map_values(|p: (String, i32)| p.0@)
}

/// The order in which the entries of `v` (whose keys are distinct) are
/// written: indices of `v` in ascending order of keys.
fn sorted_order(v: &Vec<(String, i32)>) -> (p: Vec<usize>)
    requires
        distinct_keys(fraction_keys(v@)),
    ensures
        is_perm(p@.map_values(|x: usize| x as int), v@.len()),
        keys_ascending(arrange(fraction_view(v@), p@.map_values(|x: usize| x as int))),
{
    let ghost e = fraction_view(v@);
    let mut p: Vec<usize> = Vec::new();
    let mut i: usize = 0;
    while i < v.len()
        invariant
            e == fraction_view(v@),
            distinct_keys(fraction_keys(v@)),
            0 <= i <= v.len(),
            p@.len() == i,
            forall|k: int| 0 <= k < p@.len() ==> 0 <= #[trigger] p@[k] < i,
            forall|k: int, l: int| 0 <= k < p@.len() && 0 <= l < p@.len() && k != l ==> p@[k] != p@[l],
            forall|k: int, l: int|
                0 <= k < l < p@.len() ==> seq_lt(e[p@[k] as int].0, e[p@[l] as int].0),
            forall|j: usize| j < i ==> #[trigger] p@.contains(j),
        decreases v.len() - i,
    {
        // find the first position whose key is above the key of entry i
        let mut pos: usize = 0;
        while pos < p.len() && !str_lt(&v[i].0, &v[p[pos]].0)
            invariant
                e == fraction_view(v@),
                0 <= pos <= p@.len(),
                i < v.len(),
                forall|k: int| 0 <= k < p@.len() ==> 0 <= #[trigger] p@[k] < i,
                forall|k: int| 0 <= k < pos ==> !seq_lt(e[i as int].0, e[p@[k] as int].0),
            decreases p.len() - pos,
        {
            pos = pos + 1;
        }
        let ghost p0 = p@;
        proof {
            assert forall|k: int| 0 <= k < pos implies seq_lt(e[p0[k] as int].0, e[i as int].0) by {
                assert(e[p0[k] as int].0 == fraction_keys(v@)[p0[k] as int]);
                assert(e[i as int].0 == fraction_keys(v@)[i as int]);
                assert(fraction_keys(v@)[p0[k] as int] != fraction_keys(v@)[i as int]);
                lemma_seq_lt_total(e[p0[k] as int].0, e[i as int].0);
            }
            if pos < p0.len() {
                assert forall|k: int| pos <= k < p0.len() implies seq_lt(
                    e[i as int].0,
                    e[p0[k] as int].0,
                ) by {
                    if k > pos {
                        lemma_seq_lt_trans(e[i as int].0, e[p0[pos as int] as int].0, e[p0[k] as int].0);
                    }
                }
            }
        }
        p.insert(pos, i);
        proof {
            assert(p@ == p0.insert(pos as int, i));
            assert forall|k: int, l: int| 0 <= k < l < p@.len() implies seq_lt(
                e[p@[k] as int].0,
                e[p@[l] as int].0,
            ) by {
                if l < pos {
                    assert(p@[k] == p0[k]);
                    assert(p@[l] == p0[l]);
                } else if k < pos && l == pos {
                    assert(p@[k] == p0[k]);
                } else if k < pos && l > pos {
                    assert(p@[k] == p0[k]);
                    assert(p@[l] == p0[l - 1]);
                } else if k == pos {
                    assert(p@[l] == p0[l - 1]);
                } else {
                    assert(p@[k] == p0[k - 1]);
                    assert(p@[l] == p0[l - 1]);
                }
            }
            assert forall|k: int, l: int|
                0 <= k < p@.len() && 0 <= l < p@.len() && k != l implies p@[k] != p@[l] by {
                if k < pos {
                    assert(p@[k] == p0[k]);
                } else if k > pos {
                    assert(p@[k] == p0[k - 1]);
                }
                if l < pos {
                    assert(p@[l] == p0[l]);
                } else if l > pos {
                    assert(p@[l] == p0[l - 1]);
                }
            }
            assert forall|k: int| 0 <= k < p@.len() implies 0 <= #[trigger] p@[k] < i + 1 by {
                if k < pos {
                    assert(p@[k] == p0[k]);
                } else if k > pos {
                    assert(p@[k] == p0[k - 1]);
                }
            }
            assert forall|j: usize| j < i + 1 implies #[trigger] p@.contains(j) by {
                if j == i {
                    assert(p@[pos as int] == i);
                } else {
                    assert(p0.contains(j));
                    let k = choose|k: int| 0 <= k < p0.len() && p0[k] == j;
                    if k < pos {
                        assert(p@[k] == j);
                    } else {
                        assert(p@[k + 1] == j);
                    }
                }
            }
        }
        i = i + 1;
    }
    proof {
        let q = p@.map_values(|x: usize| x as int);
        assert forall|k: int| 0 <= k < q.len() implies 0 <= #[trigger] q[k] < v@.len() by {
            assert(q[k] == p@[k] as int);
        }
        assert forall|k: int, l: int| 0 <= k < q.len() && 0 <= l < q.len() && k != l implies q[k]
            != q[l] by {
            assert(q[k] == p@[k] as int);
            assert(q[l] == p@[l] as int);
        }
        assert forall|j: int| 0 <= j < v@.len() implies #[trigger] q.contains(j) by {
            assert(p@.contains(j as usize));
            let k = choose|k: int| 0 <= k < p@.len() && p@[k] == j as usize;
            assert(q[k] == j);
        }
        let a = arrange(e, q);
        assert forall|k: int, l: int| 0 <= k < l < a.len() implies seq_lt(a[k].0, a[l].0) by {
            assert(q[k] == p@[k] as int);
            assert(q[l] == p@[l] as int);
        }
    }
    p
}

fn push_entry(out: &mut Vec<char>, e: &(String, i32))
    ensures
        final(out)@ == old(out)@ + entry_text((e.0@, e.1)),
{
    out.push('(');
    let d = debug_string(e.0.as_str());
    let dc = chars_of(d.as_str());
    push_all(out, &dc);
    out.push(',');
    out.push(' ');
    push_int_text(e.1 as i128, out);
    out.push(')');
    assert(final(out)@ =~= old(out)@ + entry_text((e.0@, e.1)));
}

fn push_sorted_list(out: &mut Vec<char>, v: &Vec<(String, i32)>)
    requires
        distinct_keys(fraction_keys(v@)),
    ensures
        exists|t: Seq<char>| sorted_text(fraction_view(v@), t) && final(out)@ == old(out)@ + t,
{
    let p = sorted_order(v);
    let ghost q = p@.map_values(|x: usize| x as int);
    let ghost e = fraction_view(v@);
    let ghost a = arrange(e, q);
    let ghost o0 = out@;
    out.push('[');
    let mut k: usize = 0;
    while k < p.len()
        invariant
            e == fraction_view(v@),
            q == p@.map_values(|x: usize| x as int),
            a == arrange(e, q),
            is_perm(q, v@.len()),
            0 <= k <= p.len(),
            out@ == o0 + seq!['['] + entries_text(a.take(k as int)),
        decreases p.len() - k,
    {
        let ghost before = out@;
        let j = p[k];
        assert(q[k as int] == j as int);
        assert(a[k as int] == e[j as int]);
        if k > 0 {
            out.push(',');
            out.push(' ');
        }
        push_entry(out, &v[j]);
        proof {
            assert(e[j as int] == (v@[j as int].0@, v@[j as int].1));
            let t = a.take(k + 1);
            assert(t.drop_last() =~= a.take(k as int));
            assert(t.last() == a[k as int]);
            if k == 0 {
                assert(entries_text(t) == entry_text(t[0]));
                assert(entries_text(a.take(0)) =~= Seq::<char>::empty());
            }
            assert(out@ =~= o0 + seq!['['] + entries_text(t));
        }
        k = k + 1;
    }
    out.push(']');
    proof {
        assert(a.take(p.len() as int) =~= a);
        assert(out@ =~= o0 + list_text(a));
        assert(sorted_text(e, list_text(a)));
    }
}

/// Writes a units fraction as `Debug` writes its two lists of
/// `(name, exponent)` pairs sorted by name: `[("m", 1)]/[("s", 2)]`.
pub fn units_fraction_to_string(
    numerator: &Vec<(String, i32)>,
    denominator: &Vec<(String, i32)>,
) -> (r: String)
    requires
        distinct_keys(fraction_keys(numerator@)),
        distinct_keys(fraction_keys(denominator@)),
    ensures
        exists|tn: Seq<char>, td: Seq<char>|
            sorted_text(fraction_view(numerator@), tn) && sorted_text(
                fraction_view(denominator@),
                td,
            ) && r@ == tn + seq!['/'] + td,
{
    let mut out: Vec<char> = Vec::new();
    push_sorted_list(&mut out, numerator);
    let ghost o1 = out@;
    out.push('/');
    push_sorted_list(&mut out, denominator);
    proof {
        let tn = choose|t: Seq<char>| sorted_text(fraction_view(numerator@), t) && o1 == Seq::<
            char,
        >::empty() + t;
        let td = choose|t: Seq<char>|
            sorted_text(fraction_view(denominator@), t) && out@ == o1.push('/') + t;
        assert(out@ =~= tn + seq!['/'] + td);
    }
    string_from_chars(&out)
}

// ----------------------------------------------------------------------
// Units of products and quotients
/// The units expression inside a `Units` node; any other node is itself.
pub open spec fn unpack_view(u: NodeView) -> NodeView {
    match u {
        NodeView::Units(b) => *b,
        _ => u,
    }
}

pub open spec fn op_node(o: TokenOp, l: NodeView, r: NodeView) -> NodeView {
    NodeView::BinOp(TokenView::Op(o), Box::new(l), Box::new(r))
}

pub open spec fn no_units() -> NodeView {
    NodeView::Units(Box::new(NodeView::Empty))
}

/// The units of a product: an operand without units leaves the other
/// operand's units expression; two units expressions are multiplied.
pub open spec fn units_mul_view(l: NodeView, r: NodeView) -> NodeView {
    let a = unpack_view(l);
    let b = unpack_view(r);
    if a is Empty && b is Empty {
        no_units()
    } else if a is Empty {
        b
    } else if b is Empty {
        a
    } else {
        NodeView::Units(Box::new(op_node(TokenOp::Mul, a, b)))
    }
}

/// The units of a quotient.  Only a bare empty node (not `Units` around an
/// empty node) counts as "no units" here.
pub open spec fn units_div_view(l: NodeView, r: NodeView) -> NodeView {
    let a = unpack_view(l);
    let b = unpack_view(r);
    if l is Empty && r is Empty {
        no_units()
    } else if l is Empty {
        NodeView::Units(
            Box::new(op_node(TokenOp::Div, NodeView::Num(1, Box::new(no_units())), b)),
        )
    } else {
        NodeView::Units(Box::new(op_node(TokenOp::Div, a, b)))
    }
}

proof fn lemma_view_empty(n: Node)
    ensures
        (n@ is Empty) == (n is Empty),
{
}

proof fn lemma_no_units_view()
    ensures
        node_view(Node::Units(Box::new(Node::Empty))) == no_units(),
        node_view(Node::Num(1, Box::new(Node::Units(Box::new(Node::Empty))))) == NodeView::Num(
            1,
            Box::new(no_units()),
        ),
{
    assert(node_view(Node::Empty) == NodeView::Empty);
    assert(node_view(Node::Units(Box::new(Node::Empty))) == no_units());
}

/// The units expression inside a `Units` node, or the node itself.
pub fn units_unpack(units: Node) -> (r: Node)
    ensures
        r@ == unpack_view(units@),
{
    match units {
        Node::Units(u) => *u,
        _ => units,
    }
}

fn op_token(o: TokenOp) -> (t: Token)
    ensures
        t@ == TokenView::Op(o),
{
    Token::Op(o)
}

/// The units of the product of two numbers with units `lhs_u` and `rhs_u`.
pub fn eval_units_mul(env: &mut Env, lhs_u: &Node, rhs_u: &Node) -> (r: Node)
    ensures
        r@ == units_mul_view(lhs_u@, rhs_u@),
        *final(env) == *old(env),
{
    let lhs_uu = units_unpack(lhs_u.duplicate());
    let rhs_uu = units_unpack(rhs_u.duplicate());
    let l_empty = matches!(lhs_uu, Node::Empty);
    let r_empty = matches!(rhs_uu, Node::Empty);
    proof {
        lemma_view_empty(lhs_uu);
        lemma_view_empty(rhs_uu);
        lemma_no_units_view();
    }
    if l_empty && r_empty {
        Node::Units(Box::new(Node::Empty))
    } else if l_empty {
        rhs_uu
    } else if r_empty {
        lhs_uu
    } else {
        let inner = Node::BinOp(op_token(TokenOp::Mul), Box::new(lhs_uu), Box::new(rhs_uu));
        assert(inner@ == op_node(TokenOp::Mul, lhs_uu@, rhs_uu@));
        Node::Units(Box::new(inner))
    }
}

/// The units of the quotient of two numbers with units `lhs_u` and `rhs_u`.
pub fn eval_units_div(env: &mut Env, lhs_u: &Node, rhs_u: &Node) -> (r: Node)
    ensures
        r@ == units_div_view(lhs_u@, rhs_u@),
        *final(env) == *old(env),
{
    let lhs_uu = units_unpack(lhs_u.duplicate());
    let rhs_uu = units_unpack(rhs_u.duplicate());
    let l_empty = matches!(lhs_u, Node::Empty);
    let r_empty = matches!(rhs_u, Node::Empty);
    proof {
        lemma_view_empty(*lhs_u);
        lemma_view_empty(*rhs_u);
        lemma_no_units_view();
    }
    if l_empty && r_empty {
        Node::Units(Box::new(Node::Empty))
    } else if l_empty {
        let one = Node::Num(1, Box::new(Node::Units(Box::new(Node::Empty))));
        let inner = Node::BinOp(op_token(TokenOp::Div), Box::new(one), Box::new(rhs_uu));
        assert(inner@ == op_node(TokenOp::Div, one@, rhs_uu@));
        Node::Units(Box::new(inner))
    } else {
        let inner = Node::BinOp(op_token(TokenOp::Div), Box::new(lhs_uu), Box::new(rhs_uu));
        assert(inner@ == op_node(TokenOp::Div, lhs_uu@, rhs_uu@));
        Node::Units(Box::new(inner))
    }
}

// ----------------------------------------------------------------------
// Moving divisions outward and expanding powers
/// `r * r * ... * r` with `k` factors, grouped to the left.
pub open spec fn pow_chain(r: NodeView, k: nat) -> NodeView
    decreases k,
{
    if k <= 1 {
        r
    } else if k == 2 {
        op_node(TokenOp::Mul, r, r)
    } else {
        op_node(TokenOp::Mul, pow_chain(r, (k - 1) as nat), r)
    }
}

pub open spec fn is_op_node(u: NodeView, o: TokenOp) -> bool {
    u matches NodeView::BinOp(t, _, _) && t == TokenView::Op(o)
}

pub open spec fn left_of(u: NodeView) -> NodeView {
    match u {
        NodeView::BinOp(_, l, _) => *l,
        _ => NodeView::Empty,
    }
}

pub open spec fn right_of(u: NodeView) -> NodeView {
    match u {
        NodeView::BinOp(_, _, r) => *r,
        _ => NodeView::Empty,
    }
}

/// A units expression rewritten so that every division moves outward:
/// `(g/m)*s` and `g*(s/m)` become `(g*s)/m`, `g/(m/s)` becomes `(g*s)/m`,
/// `(g/m)/s` becomes `g/(m*s)`; and a power `m^n` with a number as exponent
/// becomes the product of `n` copies of `m`.  A power whose exponent is no
/// number becomes the empty node.
pub open spec fn reduce_view(u: NodeView) -> NodeView
    decreases u,
{
    match u {
        NodeView::BinOp(op, lhs, rhs) => {
            if op == TokenView::Op(TokenOp::Mul) {
                if is_op_node(*lhs, TokenOp::Div) {
                    match *lhs {
                        NodeView::BinOp(_, llhs, lrhs) => op_node(
                            TokenOp::Div,
                            op_node(TokenOp::Mul, reduce_view(*llhs), reduce_view(*rhs)),
                            reduce_view(*lrhs),
                        ),
                        _ => NodeView::Empty,
                    }
                } else if is_op_node(*rhs, TokenOp::Div) {
                    match *rhs {
                        NodeView::BinOp(_, rlhs, rrhs) => op_node(
                            TokenOp::Div,
                            op_node(TokenOp::Mul, reduce_view(*lhs), reduce_view(*rlhs)),
                            reduce_view(*rrhs),
                        ),
                        _ => NodeView::Empty,
                    }
                } else {
                    op_node(TokenOp::Mul, reduce_view(*lhs), reduce_view(*rhs))
                }
            } else if op == TokenView::Op(TokenOp::Div) {
                if is_op_node(*rhs, TokenOp::Div) {
                    match *rhs {
                        NodeView::BinOp(_, rlhs, rrhs) => op_node(
                            TokenOp::Div,
                            op_node(TokenOp::Mul, reduce_view(*lhs), reduce_view(*rrhs)),
                            reduce_view(*rlhs),
                        ),
                        _ => NodeView::Empty,
                    }
                } else if is_op_node(*lhs, TokenOp::Div) {
                    match *lhs {
                        NodeView::BinOp(_, llhs, lrhs) => op_node(
                            TokenOp::Div,
                            reduce_view(*llhs),
                            op_node(TokenOp::Mul, reduce_view(*lrhs), reduce_view(*rhs)),
                        ),
                        _ => NodeView::Empty,
                    }
                } else {
                    op_node(TokenOp::Div, reduce_view(*lhs), reduce_view(*rhs))
                }
            } else if op == TokenView::Op(TokenOp::Caret) {
                match *rhs {
                    NodeView::Num(n, _) => if n <= 1 {
                        reduce_view(*lhs)
                    } else {
                        pow_chain(reduce_view(*lhs), n as nat)
                    },
                    _ => NodeView::Empty,
                }
            } else {
                u
            }
        },
        _ => u,
    }
}

/// Every power that the rewriting expands has an exponent of at least one
/// (the rewriting of `m^0` or `m^-1` would never end).
pub open spec fn reducible(u: NodeView) -> bool
    decreases u,
{
    match u {
        NodeView::BinOp(op, lhs, rhs) => {
            if op == TokenView::Op(TokenOp::Mul) || op == TokenView::Op(TokenOp::Div) {
                reducible(*lhs) && reducible(*rhs)
            } else if op == TokenView::Op(TokenOp::Caret) {
                match *rhs {
                    NodeView::Num(n, _) => n >= 1 && reducible(*lhs),
                    _ => true,
                }
            } else {
                true
            }
        },
        _ => true,
    }
}

/// No power among the operations of `u` (operands that are no operation
/// are not looked into).
pub open spec fn power_free(u: NodeView) -> bool
    decreases u,
{
    match u {
        NodeView::BinOp(op, l, r) => op != TokenView::Op(TokenOp::Caret) && power_free(*l)
            && power_free(*r),
        _ => true,
    }
}

/// A units expression: operands combined by `*`, `/` and `^` only.
pub open spec fn units_expr(u: NodeView) -> bool
    decreases u,
{
    match u {
        NodeView::BinOp(op, l, r) => (op == TokenView::Op(TokenOp::Mul) || op == TokenView::Op(
            TokenOp::Div,
        ) || op == TokenView::Op(TokenOp::Caret)) && units_expr(*l) && units_expr(*r),
        _ => true,
    }
}

proof fn lemma_pow_chain_power_free(r: NodeView, k: nat)
    requires
        power_free(r),
    ensures
        power_free(pow_chain(r, k)),
    decreases k,
{
    if k > 2 {
        lemma_pow_chain_power_free(r, (k - 1) as nat);
    }
}

/// The rewriting expands every power: a units expression whose powers all
/// have exponents of at least one becomes one without any power.
pub proof fn lemma_reduce_power_free(u: NodeView)
    requires
        units_expr(u),
        reducible(u),
    ensures
        power_free(reduce_view(u)),
    decreases u,
{
    reveal_with_fuel(reducible, 2);
    reveal_with_fuel(units_expr, 2);
    reveal_with_fuel(power_free, 3);
    if let NodeView::BinOp(op, lhs, rhs) = u {
        if op == TokenView::Op(TokenOp::Caret) {
            if let NodeView::Num(n, _) = *rhs {
                lemma_reduce_power_free(*lhs);
                if n > 1 {
                    lemma_pow_chain_power_free(reduce_view(*lhs), n as nat);
                }
            }
        } else {
            lemma_reduce_power_free(*lhs);
            lemma_reduce_power_free(*rhs);
            if let NodeView::BinOp(o, a, b) = *lhs {
                if o == TokenView::Op(TokenOp::Div) {
                    lemma_reduce_power_free(*a);
                    lemma_reduce_power_free(*b);
                }
            }
            if let NodeView::BinOp(o, a, b) = *rhs {
                if o == TokenView::Op(TokenOp::Div) {
                    lemma_reduce_power_free(*a);
                    lemma_reduce_power_free(*b);
                }
            }
        }
    }
}

fn token_is_op(t: &Token, o: TokenOp) -> (b: bool)
    ensures
        b == (t@ == TokenView::Op(o)),
{
    match t {
        Token::Op(x) => *x == o,
        _ => false,
    }
}

fn node_is_op(n: &Node, o: TokenOp) -> (b: bool)
    ensures
        b == is_op_node(n@, o),
{
    match n {
        Node::BinOp(t, _, _) => token_is_op(t, o),
        _ => false,
    }
}

fn mk_op(o: TokenOp, l: Node, r: Node) -> (n: Node)
    ensures
        n@ == op_node(o, l@, r@),
{
    Node::BinOp(op_token(o), Box::new(l), Box::new(r))
}

/// `r * r * ... * r` with `k` factors.
fn make_pow_chain(r: &Node, k: i128) -> (c: Node)
    requires
        k >= 2,
    ensures
        c@ == pow_chain(r@, k as nat),
{
    let mut acc = mk_op(TokenOp::Mul, r.duplicate(), r.duplicate());
    let mut j: i128 = 2;
    while j < k
        invariant
            2 <= j <= k,
            acc@ == pow_chain(r@, j as nat),
        decreases k - j,
    {
        acc = mk_op(TokenOp::Mul, acc, r.duplicate());
        j = j + 1;
    }
    acc
}

/// Rewrites a units expression as `reduce_view` says; a units expression
/// of `*`, `/` and `^` comes out without powers.
pub fn units_reduce_impl(env: &mut Env, units: Node) -> (r: Node)
    requires
        reducible(units@),
    ensures
        r@ == reduce_view(units@),
        units_expr(units@) ==> power_free(r@),
        *final(env) == *old(env),
    decreases units,
{
    proof {
        if units_expr(units@) {
            lemma_reduce_power_free(units@);
        }
        reveal_with_fuel(reducible, 2);
        reveal_with_fuel(node_view, 2);
    }
    match units {
        Node::BinOp(op, lhs, rhs) => {
            if token_is_op(&op, TokenOp::Mul) {
                if node_is_op(&lhs, TokenOp::Div) {
                    match *lhs {
                        Node::BinOp(_, llhs, lrhs) => {
                            let a = units_reduce_impl(env, *llhs);
                            let b = units_reduce_impl(env, *rhs);
                            let c = units_reduce_impl(env, *lrhs);
                            mk_op(TokenOp::Div, mk_op(TokenOp::Mul, a, b), c)
                        },
                        _ => Node::Empty,
                    }
                } else if node_is_op(&rhs, TokenOp::Div) {
                    match *rhs {
                        Node::BinOp(_, rlhs, rrhs) => {
                            let a = units_reduce_impl(env, *lhs);
                            let b = units_reduce_impl(env, *rlhs);
                            let c = units_reduce_impl(env, *rrhs);
                            mk_op(TokenOp::Div, mk_op(TokenOp::Mul, a, b), c)
                        },
                        _ => Node::Empty,
                    }
                } else {
                    let a = units_reduce_impl(env, *lhs);
                    let b = units_reduce_impl(env, *rhs);
                    mk_op(TokenOp::Mul, a, b)
                }
            } else if token_is_op(&op, TokenOp::Div) {
                if node_is_op(&rhs, TokenOp::Div) {
                    match *rhs {
                        Node::BinOp(_, rlhs, rrhs) => {
                            let a = units_reduce_impl(env, *lhs);
                            let b = units_reduce_impl(env, *rrhs);
                            let c = units_reduce_impl(env, *rlhs);
                            mk_op(TokenOp::Div, mk_op(TokenOp::Mul, a, b), c)
                        },
                        _ => Node::Empty,
                    }
                } else if node_is_op(&lhs, TokenOp::Div) {
                    match *lhs {
                        Node::BinOp(_, llhs, lrhs) => {
                            let a = units_reduce_impl(env, *llhs);
                            let b = units_reduce_impl(env, *lrhs);
                            let c = units_reduce_impl(env, *rhs);
                            mk_op(TokenOp::Div, a, mk_op(TokenOp::Mul, b, c))
                        },
                        _ => Node::Empty,
                    }
                } else {
                    let a = units_reduce_impl(env, *lhs);
                    let b = units_reduce_impl(env, *rhs);
                    mk_op(TokenOp::Div, a, b)
                }
            } else if token_is_op(&op, TokenOp::Caret) {
                match *rhs {
                    Node::Num(n, _) => {
                        let a = units_reduce_impl(env, *lhs);
                        if n <= 1 {
                            a
                        } else {
                            make_pow_chain(&a, n)
                        }
                    },
                    _ => Node::Empty,
                }
            } else {
                Node::BinOp(op, lhs, rhs)
            }
        },
        _ => units,
    }
}

/// The units expression of a number, if `o` is one.
pub open spec fn number_units(o: NodeView) -> Option<NodeView> {
    match o {
        NodeView::Num(_, u) => Some(unpack_view(*u)),
        NodeView::FNum(_, u) => Some(unpack_view(*u)),
        NodeView::CNum(_, u) => Some(unpack_view(*u)),
        _ => None,
    }
}

/// A number with its units expression rewritten by `reduce_view` (and
/// wrapped in `Units`); any other node unchanged.
pub open spec fn reduce_number_view(o: NodeView) -> NodeView {
    match o {
        NodeView::Num(n, u) => NodeView::Num(
            n,
            Box::new(NodeView::Units(Box::new(reduce_view(unpack_view(*u))))),
        ),
        NodeView::FNum(x, u) => NodeView::FNum(
            x,
            Box::new(NodeView::Units(Box::new(reduce_view(unpack_view(*u))))),
        ),
        NodeView::CNum(x, u) => NodeView::CNum(
            x,
            Box::new(NodeView::Units(Box::new(reduce_view(unpack_view(*u))))),
        ),
        _ => o,
    }
}

/// Rewrites the units of a number so that divisions move outward and
/// powers become products (see `reduce_view`).
pub fn eval_units_reduce(env: &mut Env, number: Node) -> (r: Node)
    requires
        number_units(number@) matches Some(u) ==> reducible(u),
    ensures
        r@ == reduce_number_view(number@),
        *final(env) == *old(env),
{
    proof {
        reveal_with_fuel(node_view, 2);
    }
    match number {
        Node::Num(n, units) => {
            let u = units_reduce_impl(env, units_unpack(*units));
            Node::Num(n, Box::new(Node::Units(Box::new(u))))
        },
        Node::FNum(x, units) => {
            let u = units_reduce_impl(env, units_unpack(*units));
            Node::FNum(x, Box::new(Node::Units(Box::new(u))))
        },
        Node::CNum(x, units) => {
            let u = units_reduce_impl(env, units_unpack(*units));
            Node::CNum(x, Box::new(Node::Units(Box::new(u))))
        },
        _ => number,
    }
}

// ----------------------------------------------------------------------
// Counting the factors of a product
/// The name `_`, which stands for a dimensionless factor.
pub open spec fn und() -> Seq<char> {
    seq!['_']
}

/// The factors of a product of units, left to right: `Some(name)` for a
/// unit name, `None` for a number or an empty node (a dimensionless
/// factor).  Other nodes contribute nothing.
pub open spec fn mul_leaves(u: NodeView) -> Seq<Option<Seq<char>>>
    decreases u,
{
    match u {
        NodeView::Num(_, _) => seq![None],
        NodeView::Var(TokenView::Ident(k)) => seq![Some(k)],
        NodeView::BinOp(t, l, r) => if t == TokenView::Op(TokenOp::Mul) {
            mul_leaves(*l) + mul_leaves(*r)
        } else {
            Seq::empty()
        },
        NodeView::Empty => seq![None],
        _ => Seq::empty(),
    }
}

/// One factor counted: a name's exponent goes up by one (from zero when it
/// is new); a dimensionless factor sets the exponent of `_` to one.
pub open spec fn count_leaf(s: Exps, leaf: Option<Seq<char>>) -> Exps {
    match leaf {
        None => eset(s, und(), 1),
        Some(k) => eset(s, k, (eget0(s, k) + 1) as i32),
    }
}

/// The factors counted one after the other.
pub open spec fn count_leaves(s: Exps, ls: Seq<Option<Seq<char>>>) -> Exps
    decreases ls.len(),
{
    if ls.len() == 0 {
        s
    } else {
        count_leaf(count_leaves(s, ls.drop_last()), ls.last())
    }
}

proof fn lemma_count_leaves_append(s: Exps, a: Seq<Option<Seq<char>>>, b: Seq<Option<Seq<char>>>)
    ensures
        count_leaves(s, a + b) == count_leaves(count_leaves(s, a), b),
    decreases b.len(),
{
    if b.len() == 0 {
        assert(a + b =~= a);
    } else {
        assert((a + b).drop_last() =~= a + b.drop_last());
        assert((a + b).last() == b.last());
        lemma_count_leaves_append(s, a, b.drop_last());
    }
}

fn underscore() -> (s: String)
    ensures
        s@ == und(),
{
    let s = "_".to_owned();
    proof {
        reveal_strlit("_");
    }
    s
}

/// Adds the factors of the product `units` to the table `hash`.
fn units_mul_to_hash(env: &Env, units: Node, hash: &mut Vec<(String, i32)>)
    requires
        exps_wf(fraction_view(old(hash)@)),
        mul_leaves(units@).len() < i32::MAX,
        below(fraction_view(old(hash)@), i32::MAX - mul_leaves(units@).len()),
    ensures
        fraction_view(final(hash)@) == count_leaves(fraction_view(old(hash)@), mul_leaves(units@)),
        exps_wf(fraction_view(final(hash)@)),
        forall|b: int|
            #![trigger below(fraction_view(old(hash)@), b)]
            0 <= b <= i32::MAX - mul_leaves(units@).len() && below(fraction_view(old(hash)@), b)
                ==> below(fraction_view(final(hash)@), b + mul_leaves(units@).len()),
    decreases units,
{
    let ghost s0 = fraction_view(hash@);
    let ghost ls = mul_leaves(units@);
    match units {
        Node::Num(_, _) => {
            exps_set(hash, underscore(), 1);
            proof {
                assert(ls.drop_last() =~= Seq::<Option<Seq<char>>>::empty());
                assert(count_leaves(s0, ls.drop_last()) == s0);
                lemma_eset(s0, und(), 1);
                assert forall|b: int|
                    #![trigger below(s0, b)]
                    0 <= b <= i32::MAX - ls.len() && below(s0, b) implies below(
                    fraction_view(hash@),
                    b + ls.len(),
                ) by {
                    lemma_eset_below(s0, und(), 1, b + 1);
                }
            }
        },
        Node::Var(Token::Ident(u)) => {
            let c = exps_get(hash, &u);
            let ghost k = u@;
            proof {
                lemma_epos(s0, k);
                if c is Some {
                    assert(s0[epos(s0, k)].1 <= i32::MAX - 1);
                }
            }
            let n: i32 = match c {
                Some(x) => x + 1,
                None => 1,
            };
            exps_set(hash, u, n);
            proof {
                assert(ls.drop_last() =~= Seq::<Option<Seq<char>>>::empty());
                assert(count_leaves(s0, ls.drop_last()) == s0);
                lemma_eset(s0, k, n);
                assert forall|b: int|
                    #![trigger below(s0, b)]
                    0 <= b <= i32::MAX - ls.len() && below(s0, b) implies below(
                    fraction_view(hash@),
                    b + ls.len(),
                ) by {
                    if c is Some {
                        assert(s0[epos(s0, k)].1 <= b);
                    }
                    lemma_eset_below(s0, k, n, b + 1);
                }
            }
        },
        Node::BinOp(t, lhs, rhs) => {
            if token_is_op(&t, TokenOp::Mul) {
                let ghost la = mul_leaves(lhs@);
                let ghost lb = mul_leaves(rhs@);
                assert(ls == la + lb);
                units_mul_to_hash(env, *lhs, hash);
                let ghost s1 = fraction_view(hash@);
                assert(below(s1, i32::MAX - lb.len()));
                units_mul_to_hash(env, *rhs, hash);
                proof {
                    lemma_count_leaves_append(s0, la, lb);
                    assert forall|b: int|
                        #![trigger below(s0, b)]
                        0 <= b <= i32::MAX - ls.len() && below(s0, b) implies below(
                        fraction_view(hash@),
                        b + ls.len(),
                    ) by {
                        assert(below(s1, b + la.len()));
                    }
                }
            } else {
                assert(ls =~= Seq::<Option<Seq<char>>>::empty());
            }
        },
        Node::Empty => {
            exps_set(hash, underscore(), 1);
            proof {
                assert(ls.drop_last() =~= Seq::<Option<Seq<char>>>::empty());
                assert(count_leaves(s0, ls.drop_last()) == s0);
                lemma_eset(s0, und(), 1);
                assert forall|b: int|
                    #![trigger below(s0, b)]
                    0 <= b <= i32::MAX - ls.len() && below(s0, b) implies below(
                    fraction_view(hash@),
                    b + ls.len(),
                ) by {
                    lemma_eset_below(s0, und(), 1, b + 1);
                }
            }
        },
        _ => {
            assert(ls =~= Seq::<Option<Seq<char>>>::empty());
        },
    }
}

proof fn lemma_count_leaves_bounds(s: Exps, ls: Seq<Option<Seq<char>>>, b: int)
    requires
        exps_wf(s),
        0 <= b,
        b + ls.len() <= i32::MAX,
        below(s, b),
    ensures
        exps_wf(count_leaves(s, ls)),
        below(count_leaves(s, ls), b + ls.len()),
        nonneg(s) ==> nonneg(count_leaves(s, ls)),
    decreases ls.len(),
{
    if ls.len() > 0 {
        let t = count_leaves(s, ls.drop_last());
        lemma_count_leaves_bounds(s, ls.drop_last(), b);
        let bb = b + ls.len() - 1;
        match ls.last() {
            None => {
                lemma_eset(t, und(), 1);
                lemma_eset_below(t, und(), 1, bb + 1);
                if nonneg(s) {
                    lemma_eset_nonneg(t, und(), 1);
                }
            },
            Some(k) => {
                lemma_epos(t, k);
                if epos(t, k) < t.len() {
                    assert(t[epos(t, k)].1 <= bb);
                }
                let v = (eget0(t, k) + 1) as i32;
                assert(v == eget0(t, k) + 1);
                lemma_eset(t, k, v);
                lemma_eset_below(t, k, v, bb + 1);
                if nonneg(s) {
                    if epos(t, k) < t.len() {
                        assert(t[epos(t, k)].1 >= 0);
                    }
                    lemma_eset_nonneg(t, k, v);
                }
            },
        }
    }
}

// ----------------------------------------------------------------------
// Cancelling units that occur above and below the fraction bar
/// The first pass takes one numerator entry `(k, n)` against the
/// denominator: a larger exponent above keeps the difference above, a
/// larger exponent below keeps the difference below (and marks the
/// numerator with `_`), equal exponents cancel; a name not below is kept.
#[verifier::opaque]
pub open spec fn reduce_step1(st: (Exps, Exps), e: (Seq<char>, i32)) -> (Exps, Exps) {
    let (nn, den) = st;
    let (k, n) = e;
    match eget(den, k) {
        Some(d) => if n > d {
            (eset(nn, k, (n - d) as i32), edel(den, k))
        } else if n < d {
            (eset(nn, und(), 1), eset(den, k, (d - n) as i32))
        } else {
            (nn, edel(den, k))
        },
        None => (eset(nn, k, n), den),
    }
}

/// The differences the first pass computes fit in an `i32`.
#[verifier::opaque]
pub open spec fn step1_fits(st: (Exps, Exps), e: (Seq<char>, i32)) -> bool {
    match eget(st.1, e.0) {
        Some(d) => (e.1 > d ==> e.1 - d <= i32::MAX) && (e.1 < d ==> d - e.1 <= i32::MAX),
        None => true,
    }
}

pub open spec fn reduce_pass1(st: (Exps, Exps), es: Exps) -> (Exps, Exps)
    decreases es.len(),
{
    if es.len() == 0 {
        st
    } else {
        reduce_step1(reduce_pass1(st, es.drop_last()), es.last())
    }
}

/// The second pass takes one remaining denominator entry `(k, d)` against
/// the new numerator.
#[verifier::opaque]
pub open spec fn reduce_step2(st: (Exps, Exps), e: (Seq<char>, i32)) -> (Exps, Exps) {
    let (nn, nd) = st;
    let (k, d) = e;
    match eget(nn, k) {
        Some(v) => if d > v {
            (eset(edel(nn, k), und(), 1), eset(nd, k, (d - v) as i32))
        } else if d < v {
            (eset(nn, k, (v - d) as i32), eset(nd, und(), 1))
        } else {
            (eset(edel(nn, k), und(), 1), nd)
        },
        None => (nn, eset(nd, k, d)),
    }
}

#[verifier::opaque]
pub open spec fn step2_fits(st: (Exps, Exps), e: (Seq<char>, i32)) -> bool {
    match eget(st.0, e.0) {
        Some(v) => (e.1 > v ==> e.1 - v <= i32::MAX) && (e.1 < v ==> v - e.1 <= i32::MAX),
        None => true,
    }
}

pub open spec fn reduce_pass2(st: (Exps, Exps), es: Exps) -> (Exps, Exps)
    decreases es.len(),
{
    if es.len() == 0 {
        st
    } else {
        reduce_step2(reduce_pass2(st, es.drop_last()), es.last())
    }
}

/// The fraction `num / den` with units cancelled: the first pass over the
/// numerator, then the second over what is left of the denominator.
pub open spec fn reduce_fraction(num: Exps, den: Exps) -> (Exps, Exps) {
    let s1 = reduce_pass1((Seq::empty(), den), num);
    reduce_pass2((s1.0, Seq::empty()), s1.1)
}

/// No difference computed while cancelling overflows an `i32`.
pub open spec fn reduce_fits(num: Exps, den: Exps) -> bool {
    let s1 = reduce_pass1((Seq::empty(), den), num);
    &&& forall|i: int|
        0 <= i < num.len() ==> step1_fits(
            reduce_pass1((Seq::empty(), den), num.take(i)),
            #[trigger] num[i],
        )
    &&& forall|i: int|
        0 <= i < s1.1.len() ==> step2_fits(
            reduce_pass2((s1.0, Seq::empty()), s1.1.take(i)),
            #[trigger] s1.1[i],
        )
}

proof fn lemma_pass1_positive(st: (Exps, Exps), es: Exps)
    requires
        positive(st.0),
        positive(st.1),
        positive(es),
    ensures
        positive(reduce_pass1(st, es).0),
        positive(reduce_pass1(st, es).1),
    decreases es.len(),
{
    reveal(reduce_step1);
    if es.len() > 0 {
        let rest = es.drop_last();
        assert forall|i: int| 0 <= i < rest.len() implies #[trigger] rest[i].1 > 0 by {
            assert(rest[i] == es[i]);
        }
        lemma_pass1_positive(st, rest);
        let prev = reduce_pass1(st, rest);
        let (k, n) = es.last();
        assert(n > 0);
        lemma_epos(prev.1, k);
        if epos(prev.1, k) < prev.1.len() {
            assert(prev.1[epos(prev.1, k)].1 > 0);
        }
        lemma_eset_positive(prev.0, und(), 1);
        lemma_edel_positive(prev.1, k);
        match eget(prev.1, k) {
            Some(d) => {
                if n > d {
                    lemma_eset_positive(prev.0, k, (n - d) as i32);
                } else if n < d {
                    lemma_eset_positive(prev.1, k, (d - n) as i32);
                }
            },
            None => {
                lemma_eset_positive(prev.0, k, n);
            },
        }
    }
}

proof fn lemma_pass2_positive(st: (Exps, Exps), es: Exps)
    requires
        positive(st.0),
        positive(st.1),
        positive(es),
    ensures
        positive(reduce_pass2(st, es).0),
        positive(reduce_pass2(st, es).1),
    decreases es.len(),
{
    reveal(reduce_step2);
    if es.len() > 0 {
        let rest = es.drop_last();
        assert forall|i: int| 0 <= i < rest.len() implies #[trigger] rest[i].1 > 0 by {
            assert(rest[i] == es[i]);
        }
        lemma_pass2_positive(st, rest);
        let prev = reduce_pass2(st, rest);
        let (k, d) = es.last();
        assert(d > 0);
        lemma_epos(prev.0, k);
        if epos(prev.0, k) < prev.0.len() {
            assert(prev.0[epos(prev.0, k)].1 > 0);
        }
        lemma_edel_positive(prev.0, k);
        lemma_eset_positive(edel(prev.0, k), und(), 1);
        lemma_eset_positive(prev.1, und(), 1);
        match eget(prev.0, k) {
            Some(v) => {
                if d > v {
                    lemma_eset_positive(prev.1, k, (d - v) as i32);
                } else if d < v {
                    lemma_eset_positive(prev.0, k, (v - d) as i32);
                }
            },
            None => {
                lemma_eset_positive(prev.1, k, d);
            },
        }
    }
}

/// Cancelling keeps every exponent positive: from a fraction whose
/// exponents are all positive it gives one whose exponents are all
/// positive.
pub proof fn lemma_reduce_fraction_positive(num: Exps, den: Exps)
    requires
        positive(num),
        positive(den),
    ensures
        positive(reduce_fraction(num, den).0),
        positive(reduce_fraction(num, den).1),
{
    let e: Exps = Seq::empty();
    lemma_pass1_positive((e, den), num);
    let s1 = reduce_pass1((e, den), num);
    lemma_pass2_positive((s1.0, e), s1.1);
}

proof fn lemma_pass1_nonneg(st: (Exps, Exps), es: Exps, i: int)
    requires
        nonneg(st.0),
        nonneg(st.1),
        nonneg(es),
        exps_wf(st.0),
        exps_wf(st.1),
        0 <= i <= es.len(),
    ensures
        nonneg(reduce_pass1(st, es.take(i)).0),
        nonneg(reduce_pass1(st, es.take(i)).1),
        exps_wf(reduce_pass1(st, es.take(i)).0),
        exps_wf(reduce_pass1(st, es.take(i)).1),
        i < es.len() ==> step1_fits(reduce_pass1(st, es.take(i)), es[i]),
    decreases i,
{
    reveal(reduce_step1);
    reveal(step1_fits);
    let cur = reduce_pass1(st, es.take(i));
    if i > 0 {
        lemma_pass1_nonneg(st, es, i - 1);
        assert(es.take(i).drop_last() =~= es.take(i - 1));
        assert(es.take(i).last() == es[i - 1]);
        let prev = reduce_pass1(st, es.take(i - 1));
        let (k, n) = es[i - 1];
        assert(n >= 0);
        lemma_epos(prev.1, k);
        if epos(prev.1, k) < prev.1.len() {
            assert(prev.1[epos(prev.1, k)].1 >= 0);
        }
        lemma_eset(prev.0, k, n);
        lemma_eset(prev.0, und(), 1);
        lemma_edel(prev.1, k);
        lemma_eset_nonneg(prev.0, und(), 1);
        lemma_edel_nonneg(prev.1, k);
        match eget(prev.1, k) {
            Some(d) => {
                if n > d {
                    lemma_eset_nonneg(prev.0, k, (n - d) as i32);
                    lemma_eset(prev.0, k, (n - d) as i32);
                } else if n < d {
                    lemma_eset_nonneg(prev.1, k, (d - n) as i32);
                    lemma_eset(prev.1, k, (d - n) as i32);
                }
            },
            None => {
                lemma_eset_nonneg(prev.0, k, n);
            },
        }
    } else {
        assert(es.take(0) =~= Seq::<(Seq<char>, i32)>::empty());
    }
    if i < es.len() {
        let (k, n) = es[i];
        assert(n >= 0);
        lemma_epos(cur.1, k);
        if epos(cur.1, k) < cur.1.len() {
            assert(cur.1[epos(cur.1, k)].1 >= 0);
        }
    }
}

proof fn lemma_pass2_nonneg(st: (Exps, Exps), es: Exps, i: int)
    requires
        nonneg(st.0),
        nonneg(st.1),
        nonneg(es),
        exps_wf(st.0),
        exps_wf(st.1),
        0 <= i <= es.len(),
    ensures
        nonneg(reduce_pass2(st, es.take(i)).0),
        nonneg(reduce_pass2(st, es.take(i)).1),
        exps_wf(reduce_pass2(st, es.take(i)).0),
        exps_wf(reduce_pass2(st, es.take(i)).1),
        i < es.len() ==> step2_fits(reduce_pass2(st, es.take(i)), es[i]),
    decreases i,
{
    reveal(reduce_step2);
    reveal(step2_fits);
    let cur = reduce_pass2(st, es.take(i));
    if i > 0 {
        lemma_pass2_nonneg(st, es, i - 1);
        assert(es.take(i).drop_last() =~= es.take(i - 1));
        assert(es.take(i).last() == es[i - 1]);
        let prev = reduce_pass2(st, es.take(i - 1));
        let (k, d) = es[i - 1];
        assert(d >= 0);
        lemma_epos(prev.0, k);
        if epos(prev.0, k) < prev.0.len() {
            assert(prev.0[epos(prev.0, k)].1 >= 0);
        }
        lemma_edel(prev.0, k);
        lemma_edel_nonneg(prev.0, k);
        lemma_eset(edel(prev.0, k), und(), 1);
        lemma_eset_nonneg(edel(prev.0, k), und(), 1);
        lemma_eset(prev.1, und(), 1);
        lemma_eset_nonneg(prev.1, und(), 1);
        lemma_eset(prev.1, k, d);
        lemma_eset_nonneg(prev.1, k, d);
        match eget(prev.0, k) {
            Some(v) => {
                if d > v {
                    lemma_eset_nonneg(prev.1, k, (d - v) as i32);
                    lemma_eset(prev.1, k, (d - v) as i32);
                } else if d < v {
                    lemma_eset_nonneg(prev.0, k, (v - d) as i32);
                    lemma_eset(prev.0, k, (v - d) as i32);
                }
            },
            None => {},
        }
    } else {
        assert(es.take(0) =~= Seq::<(Seq<char>, i32)>::empty());
    }
    if i < es.len() {
        let (k, d) = es[i];
        assert(d >= 0);
        lemma_epos(cur.0, k);
        if epos(cur.0, k) < cur.0.len() {
            assert(cur.0[epos(cur.0, k)].1 >= 0);
        }
    }
}

proof fn lemma_pass1_wf(st: (Exps, Exps), es: Exps)
    requires
        exps_wf(st.0),
        exps_wf(st.1),
    ensures
        exps_wf(reduce_pass1(st, es).0),
        exps_wf(reduce_pass1(st, es).1),
    decreases es.len(),
{
    reveal(reduce_step1);
    if es.len() > 0 {
        lemma_pass1_wf(st, es.drop_last());
        let prev = reduce_pass1(st, es.drop_last());
        let (k, n) = es.last();
        lemma_eset(prev.0, k, n);
        lemma_eset(prev.0, und(), 1);
        lemma_edel(prev.1, k);
        match eget(prev.1, k) {
            Some(d) => {
                lemma_eset(prev.0, k, (n - d) as i32);
                lemma_eset(prev.1, k, (d - n) as i32);
            },
            None => {},
        }
    }
}

/// Cancelling never overflows when no exponent is negative.
pub proof fn lemma_reduce_fits_nonneg(num: Exps, den: Exps)
    requires
        exps_wf(den),
        nonneg(num),
        nonneg(den),
    ensures
        reduce_fits(num, den),
{
    let e: Exps = Seq::empty();
    let st = (e, den);
    assert(exps_wf(e)) by {
        assert(crate::exponents::exp_keys(e) =~= Seq::<Seq<char>>::empty());
    }
    assert forall|i: int| 0 <= i < num.len() implies step1_fits(
        reduce_pass1(st, num.take(i)),
        #[trigger] num[i],
    ) by {
        lemma_pass1_nonneg(st, num, i);
    }
    lemma_pass1_nonneg(st, num, num.len() as int);
    assert(num.take(num.len() as int) =~= num);
    let s1 = reduce_pass1(st, num);
    let st2 = (s1.0, e);
    assert forall|i: int| 0 <= i < s1.1.len() implies step2_fits(
        reduce_pass2(st2, s1.1.take(i)),
        #[trigger] s1.1[i],
    ) by {
        lemma_pass2_nonneg(st2, s1.1, i);
    }
}

fn step1_exec(nn: &mut Vec<(String, i32)>, den: &mut Vec<(String, i32)>, k: &String, n: i32)
    requires
        exps_wf(fraction_view(old(nn)@)),
        exps_wf(fraction_view(old(den)@)),
        step1_fits((fraction_view(old(nn)@), fraction_view(old(den)@)), (k@, n)),
    ensures
        (fraction_view(final(nn)@), fraction_view(final(den)@)) == reduce_step1(
            (fraction_view(old(nn)@), fraction_view(old(den)@)),
            (k@, n),
        ),
        exps_wf(fraction_view(final(nn)@)),
        exps_wf(fraction_view(final(den)@)),
{
    let ghost snn = fraction_view(nn@);
    let ghost sden = fraction_view(den@);
    proof {
        reveal(reduce_step1);
        reveal(step1_fits);
    }
    match exps_get(den, k) {
        Some(d) => {
            if n > d {
                exps_set(nn, k.clone(), n - d);
                exps_del(den, k);
                proof {
                    lemma_eset(snn, k@, (n - d) as i32);
                    lemma_edel(sden, k@);
                }
            } else if n < d {
                exps_set(nn, underscore(), 1);
                exps_set(den, k.clone(), d - n);
                proof {
                    lemma_eset(snn, und(), 1);
                    lemma_eset(sden, k@, (d - n) as i32);
                }
            } else {
                exps_del(den, k);
                proof {
                    lemma_edel(sden, k@);
                }
            }
        },
        None => {
            exps_set(nn, k.clone(), n);
            proof {
                lemma_eset(snn, k@, n);
            }
        },
    }
}

fn step2_exec(nn: &mut Vec<(String, i32)>, nd: &mut Vec<(String, i32)>, k: &String, d: i32)
    requires
        exps_wf(fraction_view(old(nn)@)),
        exps_wf(fraction_view(old(nd)@)),
        step2_fits((fraction_view(old(nn)@), fraction_view(old(nd)@)), (k@, d)),
    ensures
        (fraction_view(final(nn)@), fraction_view(final(nd)@)) == reduce_step2(
            (fraction_view(old(nn)@), fraction_view(old(nd)@)),
            (k@, d),
        ),
        exps_wf(fraction_view(final(nn)@)),
        exps_wf(fraction_view(final(nd)@)),
{
    let ghost snn = fraction_view(nn@);
    let ghost snd = fraction_view(nd@);
    proof {
        reveal(reduce_step2);
        reveal(step2_fits);
    }
    match exps_get(nn, k) {
        Some(v) => {
            if d > v {
                exps_set(nd, k.clone(), d - v);
                exps_del(nn, k);
                exps_set(nn, underscore(), 1);
                proof {
                    lemma_eset(snd, k@, (d - v) as i32);
                    lemma_edel(snn, k@);
                    lemma_eset(edel(snn, k@), und(), 1);
                }
            } else if d < v {
                exps_set(nd, underscore(), 1);
                exps_set(nn, k.clone(), v - d);
                proof {
                    lemma_eset(snd, und(), 1);
                    lemma_eset(snn, k@, (v - d) as i32);
                }
            } else {
                exps_del(nn, k);
                exps_set(nn, underscore(), 1);
                proof {
                    lemma_edel(snn, k@);
                    lemma_eset(edel(snn, k@), und(), 1);
                }
            }
        },
        None => {
            exps_set(nd, k.clone(), d);
            proof {
                lemma_eset(snd, k@, d);
            }
        },
    }
}

proof fn lemma_empty_exps_wf()
    ensures
        exps_wf(Seq::<(Seq<char>, i32)>::empty()),
{
    assert(crate::exponents::exp_keys(Seq::<(Seq<char>, i32)>::empty()) =~= Seq::<
        Seq<char>,
    >::empty());
}

/// The first pass of cancelling: the new numerator and what is left of the
/// denominator.
fn reduce_pass1_exec(num: &Vec<(String, i32)>, den: Vec<(String, i32)>) -> (r: (
    Vec<(String, i32)>,
    Vec<(String, i32)>,
))
    requires
        exps_wf(fraction_view(den@)),
        forall|j: int|
            0 <= j < num@.len() ==> step1_fits(
                reduce_pass1((Seq::empty(), fraction_view(den@)), fraction_view(num@).take(j)),
                #[trigger] fraction_view(num@)[j],
            ),
    ensures
        (fraction_view(r.0@), fraction_view(r.1@)) == reduce_pass1(
            (Seq::empty(), fraction_view(den@)),
            fraction_view(num@),
        ),
{
    let ghost es = fraction_view(num@);
    let ghost st0 = (Seq::<(Seq<char>, i32)>::empty(), fraction_view(den@));
    let mut nn: Vec<(String, i32)> = Vec::new();
    let mut den = den;
    assert(fraction_view(nn@) =~= Seq::<(Seq<char>, i32)>::empty());
    assert(es.take(0) =~= Seq::<(Seq<char>, i32)>::empty());
    proof {
        lemma_empty_exps_wf();
    }
    let mut i: usize = 0;
    while i < num.len()
        invariant
            es == fraction_view(num@),
            0 <= i <= num.len(),
            (fraction_view(nn@), fraction_view(den@)) == reduce_pass1(st0, es.take(i as int)),
            exps_wf(fraction_view(nn@)),
            exps_wf(fraction_view(den@)),
            forall|j: int|
                0 <= j < es.len() ==> step1_fits(
                    reduce_pass1(st0, es.take(j)),
                    #[trigger] es[j],
                ),
        decreases num.len() - i,
    {
        assert(es[i as int] == (num@[i as int].0@, num@[i as int].1));
        step1_exec(&mut nn, &mut den, &num[i].0, num[i].1);
        proof {
            assert(es.take(i + 1).drop_last() =~= es.take(i as int));
            assert(es.take(i + 1).last() == es[i as int]);
        }
        i = i + 1;
    }
    assert(es.take(num.len() as int) =~= es);
    (nn, den)
}

/// The second pass of cancelling.
fn reduce_pass2_exec(nn: Vec<(String, i32)>, den: &Vec<(String, i32)>) -> (r: (
    Vec<(String, i32)>,
    Vec<(String, i32)>,
))
    requires
        exps_wf(fraction_view(nn@)),
        forall|j: int|
            0 <= j < den@.len() ==> step2_fits(
                reduce_pass2((fraction_view(nn@), Seq::empty()), fraction_view(den@).take(j)),
                #[trigger] fraction_view(den@)[j],
            ),
    ensures
        (fraction_view(r.0@), fraction_view(r.1@)) == reduce_pass2(
            (fraction_view(nn@), Seq::empty()),
            fraction_view(den@),
        ),
{
    let ghost ds = fraction_view(den@);
    let ghost st0 = (fraction_view(nn@), Seq::<(Seq<char>, i32)>::empty());
    let mut nn = nn;
    let mut nd: Vec<(String, i32)> = Vec::new();
    assert(fraction_view(nd@) =~= Seq::<(Seq<char>, i32)>::empty());
    assert(ds.take(0) =~= Seq::<(Seq<char>, i32)>::empty());
    proof {
        lemma_empty_exps_wf();
    }
    let mut j: usize = 0;
    while j < den.len()
        invariant
            ds == fraction_view(den@),
            0 <= j <= den.len(),
            (fraction_view(nn@), fraction_view(nd@)) == reduce_pass2(st0, ds.take(j as int)),
            exps_wf(fraction_view(nn@)),
            exps_wf(fraction_view(nd@)),
            forall|m: int|
                0 <= m < ds.len() ==> step2_fits(
                    reduce_pass2(st0, ds.take(m)),
                    #[trigger] ds[m],
                ),
        decreases den.len() - j,
    {
        assert(ds[j as int] == (den@[j as int].0@, den@[j as int].1));
        step2_exec(&mut nn, &mut nd, &den[j].0, den[j].1);
        proof {
            assert(ds.take(j + 1).drop_last() =~= ds.take(j as int));
            assert(ds.take(j + 1).last() == ds[j as int]);
        }
        j = j + 1;
    }
    assert(ds.take(den.len() as int) =~= ds);
    (nn, nd)
}

/// Cancels the units that occur in both `num` and `den`.
fn reduce_fraction_vecs(num: &Vec<(String, i32)>, den: Vec<(String, i32)>) -> (r: (
    Vec<(String, i32)>,
    Vec<(String, i32)>,
))
    requires
        exps_wf(fraction_view(den@)),
        reduce_fits(fraction_view(num@), fraction_view(den@)),
    ensures
        (fraction_view(r.0@), fraction_view(r.1@)) == reduce_fraction(
            fraction_view(num@),
            fraction_view(den@),
        ),
{
    let (nn, rest) = reduce_pass1_exec(num, den);
    proof {
        lemma_pass1_wf((Seq::empty(), fraction_view(den@)), fraction_view(num@));
    }
    reduce_pass2_exec(nn, &rest)
}

/// A units fraction with the units that occur above and below cancelled.
pub open spec fn reduced_fraction(num: Exps, den: Exps) -> NodeView {
    let p = reduce_fraction(num, den);
    NodeView::UnitsFraction(p.0, p.1)
}

/// `units` reduced when it is a units fraction; any other node unchanged.
pub open spec fn fraction_reduce_view(u: NodeView) -> NodeView {
    match u {
        NodeView::UnitsFraction(a, b) => reduced_fraction(a, b),
        _ => u,
    }
}

/// A units fraction whose tables name no unit twice and whose cancelling
/// stays within `i32`.
pub open spec fn reducible_fraction(u: NodeView) -> bool {
    match u {
        NodeView::UnitsFraction(a, b) => exps_wf(a) && exps_wf(b) && reduce_fits(a, b),
        _ => true,
    }
}

/// Cancels the units that occur both above and below the bar of a units
/// fraction (see `reduce_fraction`); any other node is returned unchanged.
pub fn units_fraction_reduce(env: &mut Env, units: Node) -> (r: Node)
    requires
        reducible_fraction(units@),
    ensures
        r@ == fraction_reduce_view(units@),
        *final(env) == *old(env),
{
    match units {
        Node::UnitsFraction(numerator, denominator) => {
            let (a, b) = reduce_fraction_vecs(&numerator, denominator);
            Node::UnitsFraction(a, b)
        },
        _ => units,
    }
}

/// The table of exponents of a product of units.
pub open spec fn product_exps(u: NodeView) -> Exps {
    count_leaves(Seq::empty(), mul_leaves(u))
}

/// The units fraction of a units expression: a quotient gives the counted
/// factors of its two sides, a product or a single unit name gives its
/// counted factors over nothing, the empty node gives an empty fraction;
/// then units are cancelled.  A units fraction is reduced; any other node is
/// returned unchanged.
pub open spec fn fraction_of(u: NodeView) -> NodeView {
    if is_op_node(u, TokenOp::Div) {
        reduced_fraction(product_exps(left_of(u)), product_exps(right_of(u)))
    } else if is_op_node(u, TokenOp::Mul) || u matches NodeView::Var(TokenView::Ident(_)) {
        reduced_fraction(product_exps(u), Seq::empty())
    } else if u is Empty {
        reduced_fraction(Seq::empty(), Seq::empty())
    } else {
        fraction_reduce_view(u)
    }
}

/// What `eval_units_fraction` needs: products with fewer than `i32::MAX`
/// factors, or a units fraction that can be reduced.
pub open spec fn fraction_ready(u: NodeView) -> bool {
    if is_op_node(u, TokenOp::Div) {
        mul_leaves(left_of(u)).len() < i32::MAX && mul_leaves(right_of(u)).len() < i32::MAX
    } else if is_op_node(u, TokenOp::Mul) || u matches NodeView::Var(TokenView::Ident(_)) {
        mul_leaves(u).len() < i32::MAX
    } else {
        reducible_fraction(u)
    }
}

/// The table of exponents of the product `u`, with the facts cancelling
/// needs.
fn product_table(env: &Env, u: Node) -> (r: Vec<(String, i32)>)
    requires
        mul_leaves(u@).len() < i32::MAX,
    ensures
        fraction_view(r@) == product_exps(u@),
        exps_wf(fraction_view(r@)),
        nonneg(fraction_view(r@)),
{
    let mut h: Vec<(String, i32)> = Vec::new();
    assert(fraction_view(h@) =~= Seq::<(Seq<char>, i32)>::empty());
    proof {
        lemma_empty_exps_wf();
    }
    let ghost ls = mul_leaves(u@);
    units_mul_to_hash(env, u, &mut h);
    proof {
        lemma_count_leaves_bounds(Seq::empty(), ls, 0);
    }
    h
}

/// Turns a units expression into a units fraction with cancelled units (see
/// `fraction_of`).
pub fn eval_units_fraction(env: &mut Env, units: Node) -> (r: Node)
    requires
        fraction_ready(units@),
    ensures
        r@ == fraction_of(units@),
        *final(env) == *old(env),
{
    proof {
        lemma_empty_exps_wf();
        assert(nonneg(Seq::<(Seq<char>, i32)>::empty()));
    }
    if node_is_op(&units, TokenOp::Div) {
        match units {
            Node::BinOp(_, nume, denom) => {
                let a = product_table(env, *nume);
                let b = product_table(env, *denom);
                proof {
                    lemma_reduce_fits_nonneg(fraction_view(a@), fraction_view(b@));
                }
                let (x, y) = reduce_fraction_vecs(&a, b);
                Node::UnitsFraction(x, y)
            },
            _ => Node::Empty,
        }
    } else if node_is_op(&units, TokenOp::Mul) || matches!(units, Node::Var(Token::Ident(_))) {
        let a = product_table(env, units);
        let b: Vec<(String, i32)> = Vec::new();
        assert(fraction_view(b@) =~= Seq::<(Seq<char>, i32)>::empty());
        proof {
            lemma_reduce_fits_nonneg(fraction_view(a@), fraction_view(b@));
        }
        let (x, y) = reduce_fraction_vecs(&a, b);
        Node::UnitsFraction(x, y)
    } else if matches!(units, Node::Empty) {
        let a: Vec<(String, i32)> = Vec::new();
        let b: Vec<(String, i32)> = Vec::new();
        assert(fraction_view(a@) =~= Seq::<(Seq<char>, i32)>::empty());
        assert(fraction_view(b@) =~= Seq::<(Seq<char>, i32)>::empty());
        proof {
            lemma_reduce_fits_nonneg(fraction_view(a@), fraction_view(b@));
        }
        let (x, y) = reduce_fraction_vecs(&a, b);
        Node::UnitsFraction(x, y)
    } else {
        units_fraction_reduce(env, units)
    }
}

// ----------------------------------------------------------------------
// What cancelling keeps
/// The net exponent of `k`: its exponent above the bar minus its exponent
/// below.
pub open spec fn net_exp(num: Exps, den: Exps, k: Seq<char>) -> int {
    eget0(num, k) - eget0(den, k)
}

proof fn lemma_pass1_net(num: Exps, den: Exps, i: int, k: Seq<char>)
    requires
        exps_wf(num),
        exps_wf(den),
        reduce_fits(num, den),
        0 <= i <= num.len(),
        k != und(),
    ensures
        ({
            let st = reduce_pass1((Seq::empty(), den), num.take(i));
            if epos(num, k) < i {
                net_exp(st.0, st.1, k) == net_exp(num, den, k) && !(eget(st.0, k) is Some && eget(
                    st.1,
                    k,
                ) is Some)
            } else {
                eget(st.0, k) is None && eget(st.1, k) == eget(den, k)
            }
        }),
        exps_wf(reduce_pass1((Seq::empty(), den), num.take(i)).0),
        exps_wf(reduce_pass1((Seq::empty(), den), num.take(i)).1),
    decreases i,
{
    reveal(reduce_step1);
    reveal(step1_fits);
    let e: Exps = Seq::empty();
    lemma_epos(num, k);
    if i == 0 {
        lemma_empty_exps_wf();
        assert(num.take(0) =~= e);
        assert(reduce_pass1((e, den), num.take(0)) == (e, den));
        lemma_epos(e, k);
    } else {
        lemma_pass1_net(num, den, i - 1, k);
        assert(num.take(i).drop_last() =~= num.take(i - 1));
        assert(num.take(i).last() == num[i - 1]);
        let prev = reduce_pass1((e, den), num.take(i - 1));
        let (ki, n) = num[i - 1];
        assert(step1_fits(prev, num[i - 1]));
        lemma_epos_at(num, i - 1);
        lemma_eset(prev.0, ki, n);
        lemma_eset(prev.0, und(), 1);
        lemma_edel(prev.1, ki);
        match eget(prev.1, ki) {
            Some(d) => {
                lemma_eset(prev.0, ki, (n - d) as i32);
                lemma_eset(prev.1, ki, (d - n) as i32);
            },
            None => {},
        }
        if ki == k {
            // the key was not processed before: its state is the initial one
            lemma_pass1_net(num, den, i - 1, k);
            assert(eget(prev.0, k) is None);
            assert(eget(prev.1, k) == eget(den, k));
            assert(eget0(num, k) == n);
        }
    }
}

proof fn lemma_pass2_keeps(nn1: Exps, den1: Exps, j: int, k: Seq<char>)
    requires
        exps_wf(nn1),
        exps_wf(den1),
        0 <= j <= den1.len(),
        k != und(),
        !(eget(nn1, k) is Some && eget(den1, k) is Some),
    ensures
        ({
            let st = reduce_pass2((nn1, Seq::empty()), den1.take(j));
            &&& eget(st.0, k) == eget(nn1, k)
            &&& eget(st.1, k) == if epos(den1, k) < j {
                eget(den1, k)
            } else {
                None
            }
        }),
        exps_wf(reduce_pass2((nn1, Seq::empty()), den1.take(j)).0),
        exps_wf(reduce_pass2((nn1, Seq::empty()), den1.take(j)).1),
    decreases j,
{
    reveal(reduce_step2);
    let e: Exps = Seq::empty();
    lemma_epos(den1, k);
    if j == 0 {
        lemma_empty_exps_wf();
        assert(den1.take(0) =~= e);
        assert(reduce_pass2((nn1, e), den1.take(0)) == (nn1, e));
        lemma_epos(e, k);
    } else {
        lemma_pass2_keeps(nn1, den1, j - 1, k);
        assert(den1.take(j).drop_last() =~= den1.take(j - 1));
        assert(den1.take(j).last() == den1[j - 1]);
        let prev = reduce_pass2((nn1, e), den1.take(j - 1));
        let (kj, d) = den1[j - 1];
        lemma_epos_at(den1, j - 1);
        lemma_edel(prev.0, kj);
        lemma_eset(edel(prev.0, kj), und(), 1);
        lemma_eset(prev.1, und(), 1);
        lemma_eset(prev.1, kj, d);
        match eget(prev.0, kj) {
            Some(v) => {
                lemma_eset(prev.1, kj, (d - v) as i32);
                lemma_eset(prev.0, kj, (v - d) as i32);
            },
            None => {},
        }
        if kj == k {
            assert(eget(prev.0, k) == eget(nn1, k));
            assert(eget(nn1, k) is None);
        }
    }
}

/// Cancelling keeps the net exponent of every unit other than `_`, and
/// leaves no such unit both above and below the bar.
pub proof fn lemma_reduce_fraction_net(num: Exps, den: Exps, k: Seq<char>)
    requires
        exps_wf(num),
        exps_wf(den),
        reduce_fits(num, den),
        k != und(),
    ensures
        net_exp(reduce_fraction(num, den).0, reduce_fraction(num, den).1, k) == net_exp(
            num,
            den,
            k,
        ),
        !(eget(reduce_fraction(num, den).0, k) is Some && eget(reduce_fraction(num, den).1, k) is Some),
{
    let e: Exps = Seq::empty();
    lemma_pass1_net(num, den, num.len() as int, k);
    assert(num.take(num.len() as int) =~= num);
    let s1 = reduce_pass1((e, den), num);
    lemma_epos(num, k);
    if epos(num, k) >= num.len() {
        // a name only below the bar is untouched by the first pass
        assert(eget(num, k) is None);
    }
    lemma_pass2_keeps(s1.0, s1.1, s1.1.len() as int, k);
    assert(s1.1.take(s1.1.len() as int) =~= s1.1);
    lemma_epos(s1.1, k);
    if epos(s1.1, k) >= s1.1.len() {
        assert(eget(s1.1, k) is None);
    }
}

/// How often the unit name `k` occurs among the factors `ls`.
pub open spec fn occurrences(ls: Seq<Option<Seq<char>>>, k: Seq<char>) -> int
    decreases ls.len(),
{
    if ls.len() == 0 {
        0
    } else {
        occurrences(ls.drop_last(), k) + if ls.last() == Some(k) {
            1int
        } else {
            0int
        }
    }
}

proof fn lemma_count_leaves_occurrences(s: Exps, ls: Seq<Option<Seq<char>>>, k: Seq<char>)
    requires
        exps_wf(s),
        ls.len() < i32::MAX,
        below(s, i32::MAX - ls.len()),
        forall|i: int| 0 <= i < s.len() ==> #[trigger] s[i].1 >= 0,
        k != und(),
    ensures
        eget0(count_leaves(s, ls), k) == eget0(s, k) + occurrences(ls, k),
    decreases ls.len(),
{
    if ls.len() > 0 {
        let dl = ls.drop_last();
        lemma_count_leaves_occurrences(s, dl, k);
        let b = i32::MAX - ls.len();
        lemma_count_leaves_bounds(s, dl, b);
        let t = count_leaves(s, dl);
        lemma_eset(t, und(), 1);
        match ls.last() {
            None => {},
            Some(j) => {
                lemma_epos(t, j);
                if epos(t, j) < t.len() {
                    assert(t[epos(t, j)].1 <= b + dl.len());
                }
                let v = (eget0(t, j) + 1) as i32;
                lemma_eset(t, j, v);
            },
        }
    }
}

/// The net exponent of a unit name other than `_` in the units fraction of
/// a quotient of products is how often the name occurs as a factor above
/// the bar minus how often below; and no such name is left on both sides.
pub proof fn lemma_fraction_of_quotient(u: NodeView, k: Seq<char>)
    requires
        is_op_node(u, TokenOp::Div),
        fraction_ready(u),
        k != und(),
    ensures
        fraction_of(u) matches NodeView::UnitsFraction(a, b) && net_exp(a, b, k) == occurrences(
            mul_leaves(left_of(u)),
            k,
        ) - occurrences(mul_leaves(right_of(u)), k) && !(eget(a, k) is Some && eget(b, k) is Some),
{
    let e: Exps = Seq::empty();
    lemma_empty_exps_wf();
    let la = mul_leaves(left_of(u));
    let lb = mul_leaves(right_of(u));
    lemma_count_leaves_bounds(e, la, 0);
    lemma_count_leaves_bounds(e, lb, 0);
    lemma_count_leaves_occurrences(e, la, k);
    lemma_count_leaves_occurrences(e, lb, k);
    lemma_epos(e, k);
    lemma_reduce_fits_nonneg(product_exps(left_of(u)), product_exps(right_of(u)));
    lemma_reduce_fraction_net(product_exps(left_of(u)), product_exps(right_of(u)), k);
}

// ----------------------------------------------------------------------
// Unit conversions
/// The unit names that stand for a multiple of another unit: the factor
/// as a fraction (numerator, denominator) and the unit: `km`, `mm`, `cm`,
/// `mi`/`mile` (1600 m), `in`/`inch` (0.0254 m) in metres, `feet` in
/// inches (12).
pub open spec fn unit_conversion_spec(name: Seq<char>) -> Option<(i64, i64, Seq<char>)> {
    if name == "km"@ {
        Some((1000i64, 1i64, "m"@))
    } else if name == "mm"@ {
        Some((1i64, 1000i64, "m"@))
    } else if name == "cm"@ {
        Some((1i64, 100i64, "m"@))
    } else if name == "mi"@ || name == "mile"@ {
        Some((1600i64, 1i64, "m"@))
    } else if name == "in"@ || name == "inch"@ {
        Some((254i64, 10000i64, "m"@))
    } else if name == "feet"@ {
        Some((12i64, 1i64, "in"@))
    } else {
        None
    }
}

/// The conversion of a unit name, if it has one (see
/// `unit_conversion_spec`).
pub fn unit_conversion(name: &String) -> (r: Option<(i64, i64, String)>)
    ensures
        match unit_conversion_spec(name@) {
            None => r is None,
            Some((a, b, u)) => r matches Some((x, y, v)) && x == a && y == b && v@ == u,
        },
{
    if is_word(name, "km") {
        Some((1000, 1, "m".to_owned()))
    } else if is_word(name, "mm") {
        Some((1, 1000, "m".to_owned()))
    } else if is_word(name, "cm") {
        Some((1, 100, "m".to_owned()))
    } else if is_word(name, "mi") || is_word(name, "mile") {
        Some((1600, 1, "m".to_owned()))
    } else if is_word(name, "in") || is_word(name, "inch") {
        Some((254, 10000, "m".to_owned()))
    } else if is_word(name, "feet") {
        Some((12, 1, "in".to_owned()))
    } else {
        None
    }
}

// ----------------------------------------------------------------------
// Checks before the calls
/// Whether `eval_units_reduce` can rewrite the units expression `u`: every
/// power it expands has an exponent of at least one.
pub fn units_reducible(u: &Node) -> (b: bool)
    ensures
        b == reducible(u@),
    decreases u,
{
    proof {
        reveal_with_fuel(reducible, 2);
    }
    match u {
        Node::BinOp(t, l, r) => {
            if token_is_op(t, TokenOp::Mul) || token_is_op(t, TokenOp::Div) {
                units_reducible(l) && units_reducible(r)
            } else if token_is_op(t, TokenOp::Caret) {
                match &**r {
                    Node::Num(n, _) => *n >= 1 && units_reducible(l),
                    _ => true,
                }
            } else {
                true
            }
        },
        _ => true,
    }
}

/// The number of factors of the product `u`, or `i32::MAX` when there are
/// at least that many.
fn leaf_count_capped(u: &Node) -> (n: u64)
    ensures
        n == if mul_leaves(u@).len() < i32::MAX {
            mul_leaves(u@).len() as int
        } else {
            i32::MAX as int
        },
    decreases u,
{
    match u {
        Node::Num(_, _) => 1,
        Node::Var(Token::Ident(_)) => 1,
        Node::BinOp(t, l, r) => {
            if token_is_op(t, TokenOp::Mul) {
                let a = leaf_count_capped(l);
                let b = leaf_count_capped(r);
                if a + b < 2147483647 {
                    a + b
                } else {
                    2147483647
                }
            } else {
                0
            }
        },
        Node::Empty => 1,
        _ => 0,
    }
}

/// Whether the table names no unit twice and has no negative exponent.
fn exps_ok(v: &Vec<(String, i32)>) -> (b: bool)
    ensures
        b == (exps_wf(fraction_view(v@)) && nonneg(fraction_view(v@))),
{
    let ghost s = fraction_view(v@);
    let mut i: usize = 0;
    while i < v.len()
        invariant
            s == fraction_view(v@),
            0 <= i <= v.len(),
            forall|a: int| 0 <= a < i ==> #[trigger] s[a].1 >= 0,
            forall|a: int, b: int| 0 <= a < b < i ==> s[a].0 != s[b].0,
        decreases v.len() - i,
    {
        if v[i].1 < 0 {
            assert(s[i as int].1 < 0);
            return false;
        }
        let mut j: usize = 0;
        while j < i
            invariant
                s == fraction_view(v@),
                0 <= j <= i < v.len(),
                forall|a: int| 0 <= a < j ==> s[a].0 != s[i as int].0,
            decreases i - j,
        {
            if v[j].0 == v[i].0 {
                proof {
                    assert(crate::exponents::exp_keys(s)[j as int] == s[j as int].0);
                    assert(crate::exponents::exp_keys(s)[i as int] == s[i as int].0);
                }
                return false;
            }
            j = j + 1;
        }
        i = i + 1;
    }
    proof {
        assert forall|a: int, b: int|
            0 <= a < crate::exponents::exp_keys(s).len() && 0 <= b < crate::exponents::exp_keys(
                s,
            ).len() && a != b implies crate::exponents::exp_keys(s)[a]
            != crate::exponents::exp_keys(s)[b] by {
            assert(crate::exponents::exp_keys(s)[a] == s[a].0);
            assert(crate::exponents::exp_keys(s)[b] == s[b].0);
        }
    }
    true
}

/// What `units_fraction_ready` checks: a quotient or product has fewer
/// than `i32::MAX` factors on each side of the bar; a units fraction names
/// no unit twice in either table and has no negative exponent; any other
/// node passes.
pub open spec fn fraction_checked(u: NodeView) -> bool {
    if is_op_node(u, TokenOp::Div) {
        mul_leaves(left_of(u)).len() < i32::MAX && mul_leaves(right_of(u)).len() < i32::MAX
    } else if is_op_node(u, TokenOp::Mul) || u matches NodeView::Var(TokenView::Ident(_)) {
        mul_leaves(u).len() < i32::MAX
    } else {
        match u {
            NodeView::UnitsFraction(a, b) => exps_wf(a) && nonneg(a) && exps_wf(b) && nonneg(b),
            _ => true,
        }
    }
}

/// Whether `eval_units_fraction` can take `u`: products with fewer than
/// `i32::MAX` factors, or a units fraction whose tables name no unit twice
/// and have no negative exponent.
pub fn units_fraction_ready(u: &Node) -> (b: bool)
    ensures
        b == fraction_checked(u@),
        b ==> fraction_ready(u@),
{
    if node_is_op(u, TokenOp::Div) {
        match u {
            Node::BinOp(_, l, r) => leaf_count_capped(l) < 2147483647 && leaf_count_capped(r)
                < 2147483647,
            _ => false,
        }
    } else if node_is_op(u, TokenOp::Mul) || matches!(u, Node::Var(Token::Ident(_))) {
        leaf_count_capped(u) < 2147483647
    } else {
        match u {
            Node::UnitsFraction(a, b) => {
                if exps_ok(a) && exps_ok(b) {
                    proof {
                        lemma_reduce_fits_nonneg(fraction_view(a@), fraction_view(b@));
                    }
                    true
                } else {
                    false
                }
            },
            _ => true,
        }
    }
}

} // verus!
