//! Tables keyed by names: vectors of `(name, value)` pairs in which no name
//! occurs twice, used as maps that remember the order in which names were
//! added.  The tables of unit exponents are the main ones; the built-in
//! functions and commands use the same operations.
use vstd::prelude::*;

use crate::env::{distinct_keys, find_key, lemma_find_key, pair_keys, position_of_pair};
use crate::parser::fraction_view;

verus! {

/// The content of a table: names and exponents in table order.
pub type Exps = Seq<(Seq<char>, i32)>;

pub open spec fn exp_keys<V>(s: Seq<(Seq<char>, V)>) -> Seq<Seq<char>> {
    s.map_values(|p: (Seq<char>, V)| p.0)
}

/// No name occurs twice.
pub open spec fn exps_wf<V>(s: Seq<(Seq<char>, V)>) -> bool {
    distinct_keys(exp_keys(s))
}

/// Where `k` stands in the table (the length when it is absent).
pub open spec fn epos<V>(s: Seq<(Seq<char>, V)>, k: Seq<char>) -> int {
    find_key(exp_keys(s), k, 0)
}

/// The exponent of `k`.
pub open spec fn eget<V>(s: Seq<(Seq<char>, V)>, k: Seq<char>) -> Option<V> {
    let p = epos(s, k);
    if p < s.len() {
        Some(s[p].1)
    } else {
        None
    }
}

/// The exponent of `k`, zero when `k` is absent.
pub open spec fn eget0(s: Exps, k: Seq<char>) -> int {
    match eget(s, k) {
        Some(v) => v as int,
        None => 0,
    }
}

/// The table with `k` set to `v`: in place when present, else at the end.
pub open spec fn eset<V>(s: Seq<(Seq<char>, V)>, k: Seq<char>, v: V) -> Seq<(Seq<char>, V)> {
    let p = epos(s, k);
    if p < s.len() {
        s.update(p, (k, v))
    } else {
        s.push((k, v))
    }
}

/// The table without `k`.
pub open spec fn edel<V>(s: Seq<(Seq<char>, V)>, k: Seq<char>) -> Seq<(Seq<char>, V)> {
    let p = epos(s, k);
    if p < s.len() {
        s.remove(p)
    } else {
        s
    }
}

/// Every exponent is at most `b`.
pub open spec fn below(s: Exps, b: int) -> bool {
    forall|i: int| 0 <= i < s.len() ==> #[trigger] s[i].1 <= b
}

/// No exponent is negative.
pub open spec fn nonneg(s: Exps) -> bool {
    forall|i: int| 0 <= i < s.len() ==> #[trigger] s[i].1 >= 0
}

pub proof fn lemma_epos<V>(s: Seq<(Seq<char>, V)>, k: Seq<char>)
    ensures
        0 <= epos(s, k) <= s.len(),
        epos(s, k) < s.len() ==> s[epos(s, k)].0 == k,
        epos(s, k) == s.len() ==> forall|j: int| 0 <= j < s.len() ==> #[trigger] s[j].0 != k,
{
    lemma_find_key(exp_keys(s), k, 0);
    if epos(s, k) == s.len() {
        assert forall|j: int| 0 <= j < s.len() implies #[trigger] s[j].0 != k by {
            assert(exp_keys(s)[j] == s[j].0);
        }
    } else {
        assert(exp_keys(s)[epos(s, k)] == s[epos(s, k)].0);
    }
}

/// In a table without repeated names, the position of a name found at `i`
/// is `i`.
pub proof fn lemma_epos_at<V>(s: Seq<(Seq<char>, V)>, i: int)
    requires
        exps_wf(s),
        0 <= i < s.len(),
    ensures
        epos(s, s[i].0) == i,
        eget(s, s[i].0) == Some(s[i].1),
{
    let k = s[i].0;
    lemma_epos(s, k);
    lemma_find_key(exp_keys(s), k, 0);
    assert(exp_keys(s)[i] == k);
    let p = epos(s, k);
    if p != i {
        assert(exp_keys(s)[p] == k);
    }
}

pub proof fn lemma_eset<V>(s: Seq<(Seq<char>, V)>, k: Seq<char>, v: V)
    requires
        exps_wf(s),
    ensures
        exps_wf(eset(s, k, v)),
        eget(eset(s, k, v), k) == Some(v),
        forall|j: Seq<char>| j != k ==> #[trigger] eget(eset(s, k, v), j) == eget(s, j),
        eset(s, k, v).len() == if eget(s, k) is Some {
            s.len()
        } else {
            s.len() + 1
        },
        forall|i: int|
            0 <= i < s.len() && s[i].0 != k ==> #[trigger] eset(s, k, v)[i] == s[i],
{
    let t = eset(s, k, v);
    lemma_epos(s, k);
    assert forall|a: int, b: int|
        0 <= a < exp_keys(t).len() && 0 <= b < exp_keys(t).len() && a != b implies exp_keys(t)[a]
        != exp_keys(t)[b] by {
        assert(exp_keys(t)[a] == t[a].0);
        assert(exp_keys(t)[b] == t[b].0);
        if a < s.len() && b < s.len() {
            assert(exp_keys(s)[a] == s[a].0);
            assert(exp_keys(s)[b] == s[b].0);
        }
    }
    let w = if epos(s, k) < s.len() {
        epos(s, k)
    } else {
        s.len() as int
    };
    assert(t[w].0 == k);
    lemma_epos_found(t, k);
    lemma_epos_at(t, w);
    assert forall|j: Seq<char>| j != k implies #[trigger] eget(t, j) == eget(s, j) by {
        lemma_epos(s, j);
        lemma_epos(t, j);
        if epos(s, j) < s.len() {
            lemma_epos_at(s, epos(s, j));
            assert(t[epos(s, j)] == s[epos(s, j)]);
            lemma_epos_at(t, epos(s, j));
        } else if epos(t, j) < t.len() {
            let q = epos(t, j);
            if q < s.len() {
                assert(t[q] == s[q]);
            }
        }
    }
}

/// When `k` occurs in a table without repeated names, its entry gives its
/// exponent.
proof fn lemma_epos_found<V>(t: Seq<(Seq<char>, V)>, k: Seq<char>)
    requires
        exps_wf(t),
        exists|i: int| 0 <= i < t.len() && t[i].0 == k,
    ensures
        epos(t, k) < t.len(),
        eget(t, k) == Some(t[epos(t, k)].1),
        t[epos(t, k)].0 == k,
{
    let i = choose|i: int| 0 <= i < t.len() && t[i].0 == k;
    lemma_epos_at(t, i);
}

pub proof fn lemma_edel<V>(s: Seq<(Seq<char>, V)>, k: Seq<char>)
    requires
        exps_wf(s),
    ensures
        exps_wf(edel(s, k)),
        eget(edel(s, k), k) is None,
        forall|j: Seq<char>| j != k ==> #[trigger] eget(edel(s, k), j) == eget(s, j),
        forall|i: int|
            0 <= i < edel(s, k).len() ==> exists|m: int| 0 <= m < s.len() && #[trigger] edel(s, k)[i] == s[m],
{
    let t = edel(s, k);
    lemma_epos(s, k);
    let p = epos(s, k);
    assert forall|i: int| 0 <= i < t.len() implies exists|m: int| 0 <= m < s.len() && #[trigger] t[i] == s[m] by {
        if p < s.len() {
            if i < p {
                assert(t[i] == s[i]);
            } else {
                assert(t[i] == s[i + 1]);
            }
        } else {
            assert(t[i] == s[i]);
        }
    }
    assert forall|a: int, b: int|
        0 <= a < exp_keys(t).len() && 0 <= b < exp_keys(t).len() && a != b implies exp_keys(t)[a]
        != exp_keys(t)[b] by {
        assert(exp_keys(t)[a] == t[a].0);
        assert(exp_keys(t)[b] == t[b].0);
        let a2 = if p < s.len() && a >= p { a + 1 } else { a };
        let b2 = if p < s.len() && b >= p { b + 1 } else { b };
        assert(t[a] == s[a2]);
        assert(t[b] == s[b2]);
        assert(exp_keys(s)[a2] == s[a2].0);
        assert(exp_keys(s)[b2] == s[b2].0);
    }
    lemma_epos(t, k);
    if epos(t, k) < t.len() {
        let q = epos(t, k);
        let q2 = if p < s.len() && q >= p { q + 1 } else { q };
        assert(t[q] == s[q2]);
        if p < s.len() {
            lemma_epos_at(s, q2);
        }
    }
    assert forall|j: Seq<char>| j != k implies #[trigger] eget(t, j) == eget(s, j) by {
        lemma_epos(s, j);
        lemma_epos(t, j);
        if epos(s, j) < s.len() {
            let q = epos(s, j);
            lemma_epos_at(s, q);
            let q2 = if p < s.len() && q > p { q - 1 } else { q };
            assert(t[q2] == s[q]);
            lemma_epos_at(t, q2);
        } else if epos(t, j) < t.len() {
            let q = epos(t, j);
            let q2 = if p < s.len() && q >= p { q + 1 } else { q };
            assert(t[q] == s[q2]);
        }
    }
}

/// The bound on exponents holds after setting one to a value within it.
pub proof fn lemma_eset_below(s: Exps, k: Seq<char>, v: i32, b: int)
    requires
        below(s, b),
        v <= b,
    ensures
        below(eset(s, k, v), b),
{
    lemma_epos(s, k);
    let t = eset(s, k, v);
    assert forall|i: int| 0 <= i < t.len() implies #[trigger] t[i].1 <= b by {
        if i < s.len() && i != epos(s, k) {
            assert(t[i] == s[i]);
        }
    }
}

/// Every exponent is positive.
pub open spec fn positive(s: Exps) -> bool {
    forall|i: int| 0 <= i < s.len() ==> #[trigger] s[i].1 > 0
}

pub proof fn lemma_eset_positive(s: Exps, k: Seq<char>, v: i32)
    requires
        positive(s),
        v > 0,
    ensures
        positive(eset(s, k, v)),
{
    lemma_epos(s, k);
    let t = eset(s, k, v);
    assert forall|i: int| 0 <= i < t.len() implies #[trigger] t[i].1 > 0 by {
        if i < s.len() && i != epos(s, k) {
            assert(t[i] == s[i]);
        }
    }
}

pub proof fn lemma_edel_positive(s: Exps, k: Seq<char>)
    requires
        positive(s),
    ensures
        positive(edel(s, k)),
{
    lemma_epos(s, k);
    let t = edel(s, k);
    let p = epos(s, k);
    assert forall|i: int| 0 <= i < t.len() implies #[trigger] t[i].1 > 0 by {
        if p < s.len() && i >= p {
            assert(t[i] == s[i + 1]);
        } else {
            assert(t[i] == s[i]);
        }
    }
}

pub proof fn lemma_eset_nonneg(s: Exps, k: Seq<char>, v: i32)
    requires
        nonneg(s),
        v >= 0,
    ensures
        nonneg(eset(s, k, v)),
{
    lemma_epos(s, k);
    let t = eset(s, k, v);
    assert forall|i: int| 0 <= i < t.len() implies #[trigger] t[i].1 >= 0 by {
        if i < s.len() && i != epos(s, k) {
            assert(t[i] == s[i]);
        }
    }
}

pub proof fn lemma_edel_nonneg(s: Exps, k: Seq<char>)
    requires
        nonneg(s),
    ensures
        nonneg(edel(s, k)),
{
    lemma_epos(s, k);
    let t = edel(s, k);
    let p = epos(s, k);
    assert forall|i: int| 0 <= i < t.len() implies #[trigger] t[i].1 >= 0 by {
        if p < s.len() && i >= p {
            assert(t[i] == s[i + 1]);
        } else {
            assert(t[i] == s[i]);
        }
    }
}

proof fn lemma_keys_of_fraction(v: Seq<(String, i32)>)
    ensures
        pair_keys(v) == exp_keys(fraction_view(v)),
{
    assert(pair_keys(v) =~= exp_keys(fraction_view(v)));
}

/// Where `k` stands in the table.
fn exps_find(v: &Vec<(String, i32)>, k: &String) -> (r: Option<usize>)
    ensures
        match r {
            Some(i) => i == epos(fraction_view(v@), k@) && i < v@.len(),
            None => epos(fraction_view(v@), k@) == v@.len(),
        },
{
    proof {
        lemma_keys_of_fraction(v@);
    }
    position_of_pair(v, k)
}

/// The exponent of `k`.
pub fn exps_get(v: &Vec<(String, i32)>, k: &String) -> (r: Option<i32>)
    ensures
        r == eget(fraction_view(v@), k@),
{
    match exps_find(v, k) {
        Some(i) => Some(v[i].1),
        None => None,
    }
}

/// Sets the exponent of `k` to `val`.
pub fn exps_set(v: &mut Vec<(String, i32)>, k: String, val: i32)
    ensures
        fraction_view(final(v)@) == eset(fraction_view(old(v)@), k@, val),
{
    let ghost k0 = k@;
    match exps_find(v, &k) {
        Some(i) => {
            v.set(i, (k, val));
            assert(fraction_view(v@) =~= eset(fraction_view(old(v)@), k0, val));
        },
        None => {
            v.push((k, val));
            assert(fraction_view(v@) =~= eset(fraction_view(old(v)@), k0, val));
        },
    }
}

/// Removes `k` from the table.
pub fn exps_del(v: &mut Vec<(String, i32)>, k: &String)
    ensures
        fraction_view(final(v)@) == edel(fraction_view(old(v)@), k@),
{
    match exps_find(v, k) {
        Some(i) => {
            v.remove(i);
            assert(fraction_view(v@) =~= edel(fraction_view(old(v)@), k@));
        },
        None => {},
    }
}

} // verus!
