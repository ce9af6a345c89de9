use vstd::prelude::*;

use vstd::arithmetic::div_mod::{
    lemma_fundamental_div_mod, lemma_fundamental_div_mod_converse, lemma_mod_multiples_basic,
};

verus! {

/// `s` with `data` written over it from `base` on.
pub open spec fn overwrite(s: Seq<u8>, base: int, data: Seq<u8>) -> Seq<u8> {
    Seq::new(
        s.len(),
        |a: int|
            if base <= a < base + data.len() {
                data[a - base]
            } else {
                s[a]
            },
    )
}

/// Distinct line-aligned addresses start disjoint lines.
pub proof fn lemma_aligned_disjoint(b1: int, b2: int, ls: int)
    requires
        ls > 0,
        b1 >= 0,
        b2 >= 0,
        b1 % ls == 0,
        b2 % ls == 0,
        b1 != b2,
    ensures
        b1 + ls <= b2 || b2 + ls <= b1,
{
    lemma_fundamental_div_mod(b1, ls);
    lemma_fundamental_div_mod(b2, ls);
    let q1 = b1 / ls;
    let q2 = b2 / ls;
    assert(b1 == ls * q1);
    assert(b2 == ls * q2);
    if q1 < q2 {
        assert(ls * q1 + ls <= ls * q2) by (nonlinear_arith)
            requires
                q1 < q2,
                ls > 0,
        ;
    } else {
        assert(q2 < q1);
        assert(ls * q2 + ls <= ls * q1) by (nonlinear_arith)
            requires
                q2 < q1,
                ls > 0,
        ;
    }
}

/// An address inside the line starting at the aligned `b` has `b` as its base.
pub proof fn lemma_base_of(a: int, b: int, ls: int)
    requires
        ls > 0,
        b >= 0,
        b % ls == 0,
        b <= a < b + ls,
    ensures
        (a / ls) * ls == b,
        a % ls == a - b,
{
    lemma_fundamental_div_mod(b, ls);
    let q = b / ls;
    assert(b == ls * q);
    assert(a == q * ls + (a - b)) by (nonlinear_arith)
        requires
            b == ls * q,
    ;
    lemma_fundamental_div_mod_converse(a, ls, q, a - b);
}

/// The base of a non-negative address is aligned and at most one line below it.
pub proof fn lemma_base_of_props(a: int, ls: int)
    requires
        ls > 0,
        a >= 0,
    ensures
        (a / ls) * ls >= 0,
        ((a / ls) * ls) % ls == 0,
        (a / ls) * ls <= a < (a / ls) * ls + ls,
        a % ls == a - (a / ls) * ls,
        ((a / ls) * ls) / ls == a / ls,
{
    lemma_fundamental_div_mod(a, ls);
    lemma_mod_multiples_basic(a / ls, ls);
    assert(a / ls >= 0) by (nonlinear_arith)
        requires
            a >= 0,
            ls > 0,
    ;
    assert((a / ls) * ls >= 0) by (nonlinear_arith)
        requires
            a / ls >= 0,
            ls > 0,
    ;
    assert(ls * (a / ls) == (a / ls) * ls) by (nonlinear_arith);
    lemma_fundamental_div_mod_converse((a / ls) * ls, ls, a / ls, 0);
}

/// Slot `s * ways + w` lies in set `s`.
pub proof fn lemma_slot_index(s: int, w: int, ways: int, sets: int)
    requires
        0 <= s < sets,
        0 <= w < ways,
    ensures
        0 <= s * ways + w < sets * ways,
        (s * ways + w) / ways == s,
{
    assert(0 <= s * ways + w < sets * ways) by (nonlinear_arith)
        requires
            0 <= s < sets,
            0 <= w < ways,
    ;
    lemma_fundamental_div_mod_converse(s * ways + w, ways, s, w);
}

/// A slot whose set is `s` lies among the ways of `s`.
pub proof fn lemma_slot_in_set(j: int, s: int, ways: int)
    requires
        ways > 0,
        j >= 0,
        j / ways == s,
    ensures
        s * ways <= j < s * ways + ways,
{
    lemma_fundamental_div_mod(j, ways);
    assert(s * ways <= j < s * ways + ways) by (nonlinear_arith)
        requires
            j == ways * s + j % ways,
            0 <= j % ways < ways,
    ;
}

/// The line of an address below `n` ends at or before `n` when `n` is a
/// whole number of lines.
pub proof fn lemma_line_fits(a: int, ls: int, n: int)
    requires
        ls > 0,
        0 <= a < n,
        n % ls == 0,
    ensures
        (a / ls) * ls + ls <= n,
{
    lemma_fundamental_div_mod(a, ls);
    lemma_fundamental_div_mod(n, ls);
    let q = a / ls;
    let m = n / ls;
    assert(n == ls * m);
    assert(q < m) by (nonlinear_arith)
        requires
            a == ls * q + a % ls,
            0 <= a % ls,
            a < n,
            n == ls * m,
            ls > 0,
    ;
    assert(q * ls + ls <= n) by (nonlinear_arith)
        requires
            q < m,
            n == ls * m,
            ls > 0,
    ;
}

} // verus!
