//! Counting facts: numbers written with digits in a base, and how many
//! distinct numbers fit below a bound.

use vstd::prelude::*;
use vstd::set_lib::{lemma_int_range, lemma_len_subset, set_int_range};

verus! {

/// `m` raised to the power `e`.
pub open spec fn cap(m: int, e: nat) -> int
    decreases e,
{
    if e == 0 {
        1
    } else {
        m * cap(m, (e - 1) as nat)
    }
}

/// Every element of `s` is a digit in base `m`.
pub open spec fn digits_below(s: Seq<int>, m: int) -> bool {
    forall|i: int| 0 <= i < s.len() ==> 0 <= #[trigger] s[i] < m
}

/// The number whose base-`m` digits, least significant first, are `s`.
pub open spec fn code(s: Seq<int>, m: int) -> int
    decreases s.len(),
{
    if s.len() == 0 {
        0
    } else {
        s[0] + m * code(s.drop_first(), m)
    }
}

/// Division by a positive number has one quotient and one remainder.
pub proof fn lemma_div_unique(x: int, y: int, x2: int, y2: int, m: int)
    requires
        0 <= x < m,
        0 <= x2 < m,
        0 <= y,
        0 <= y2,
        x + m * y == x2 + m * y2,
    ensures
        x == x2,
        y == y2,
{
    if y < y2 {
        assert(m * y + m <= m * y2) by (nonlinear_arith)
            requires
                y < y2,
                0 < m,
        ;
    } else if y2 < y {
        assert(m * y2 + m <= m * y) by (nonlinear_arith)
            requires
                y2 < y,
                0 < m,
        ;
    }
}

/// Powers of a positive base grow with the exponent.
pub proof fn lemma_cap_mono(m: int, e1: nat, e2: nat)
    requires
        1 <= m,
        e1 <= e2,
    ensures
        1 <= cap(m, e1) <= cap(m, e2),
    decreases e2,
{
    if e2 > 0 {
        if e1 < e2 {
            lemma_cap_mono(m, e1, (e2 - 1) as nat);
        } else {
            lemma_cap_mono(m, (e1 - 1) as nat, (e2 - 1) as nat);
        }
        let c = cap(m, (e2 - 1) as nat);
        assert(c <= m * c) by (nonlinear_arith)
            requires
                1 <= m,
                1 <= c,
        ;
    }
}

/// A sequence of base-`m` digits codes a number below `m` to its length.
pub proof fn lemma_code_bound(s: Seq<int>, m: int)
    requires
        1 <= m,
        digits_below(s, m),
    ensures
        0 <= code(s, m) < cap(m, s.len()),
    decreases s.len(),
{
    if s.len() > 0 {
        let rest = s.drop_first();
        lemma_code_bound(rest, m);
        let c = code(rest, m);
        let k = cap(m, rest.len());
        assert(s[0] + m * c < m * k && 0 <= s[0] + m * c) by (nonlinear_arith)
            requires
                0 <= s[0] < m,
                0 <= c < k,
        ;
    }
}

/// Two digit sequences of one length with the same code are equal.
pub proof fn lemma_code_injective(a: Seq<int>, b: Seq<int>, m: int)
    requires
        1 <= m,
        digits_below(a, m),
        digits_below(b, m),
        a.len() == b.len(),
        code(a, m) == code(b, m),
    ensures
        a == b,
    decreases a.len(),
{
    if a.len() > 0 {
        lemma_code_bound(a.drop_first(), m);
        lemma_code_bound(b.drop_first(), m);
        lemma_div_unique(a[0], code(a.drop_first(), m), b[0], code(b.drop_first(), m), m);
        lemma_code_injective(a.drop_first(), b.drop_first(), m);
        assert(a =~= seq![a[0]] + a.drop_first());
        assert(b =~= seq![b[0]] + b.drop_first());
    } else {
        assert(a =~= b);
    }
}

/// A sequence of distinct numbers, all in `[0, bound)`, has at most `bound` elements.
pub proof fn lemma_distinct_below(s: Seq<int>, bound: int)
    requires
        0 <= bound,
        s.no_duplicates(),
        forall|i: int| 0 <= i < s.len() ==> 0 <= #[trigger] s[i] < bound,
    ensures
        s.len() <= bound,
{
    s.unique_seq_to_set();
    lemma_int_range(0, bound);
    assert(s.to_set().subset_of(set_int_range(0, bound)));
    lemma_len_subset(s.to_set(), set_int_range(0, bound));
}

} // verus!
