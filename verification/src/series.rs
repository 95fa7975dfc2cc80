//! The Chudnovsky series recurrence at the spec level: the exact triple
//! `(P, Q, R)` for a half-open term range, and its algebraic laws.

use vstd::prelude::*;

verus! {

/// `P` of a single term: the factor the numerator gains at index `a`.
pub open spec fn leaf_p(a: int) -> int {
    if a == 0 {
        1
    } else {
        (6 * a - 5) * (2 * a - 1) * (6 * a - 1)
    }
}

/// `Q` of a single term: the factor the denominator gains at index `a`.
pub open spec fn leaf_q(a: int) -> int {
    if a == 0 {
        1
    } else {
        a * a * a * 10939058860032000
    }
}

/// `R` of a single term: the signed partial numerator at index `a`; terms
/// alternate sign with the parity of the index.
pub open spec fn leaf_r(a: int) -> int {
    if a % 2 == 1 {
        -(leaf_p(a) * (13591409 + 545140134 * a))
    } else {
        leaf_p(a) * (13591409 + 545140134 * a)
    }
}

/// The triple for `[a, b)`, split at the midpoint as the implementation
/// splits it.
pub open spec fn split_p(a: int, b: int) -> int
    decreases b - a when a < b
{
    if b - a == 1 {
        leaf_p(a)
    } else {
        split_p(a, (a + b) / 2) * split_p((a + b) / 2, b)
    }
}

pub open spec fn split_q(a: int, b: int) -> int
    decreases b - a when a < b
{
    if b - a == 1 {
        leaf_q(a)
    } else {
        split_q(a, (a + b) / 2) * split_q((a + b) / 2, b)
    }
}

pub open spec fn split_r(a: int, b: int) -> int
    decreases b - a when a < b
{
    if b - a == 1 {
        leaf_r(a)
    } else {
        let m = (a + b) / 2;
        split_r(a, m) * split_q(m, b) + split_p(a, m) * split_r(m, b)
    }
}

/// The triple for `[a, b)` peeled one term at a time from the right: the
/// canonical form against which every way of splitting is compared.
spec fn prod_p(a: int, b: int) -> int
    decreases b - a when a <= b
{
    if b <= a {
        1
    } else {
        prod_p(a, b - 1) * leaf_p(b - 1)
    }
}

spec fn prod_q(a: int, b: int) -> int
    decreases b - a when a <= b
{
    if b <= a {
        1
    } else {
        prod_q(a, b - 1) * leaf_q(b - 1)
    }
}

spec fn fold_r(a: int, b: int) -> int
    decreases b - a when a <= b
{
    if b <= a {
        0
    } else {
        fold_r(a, b - 1) * leaf_q(b - 1) + prod_p(a, b - 1) * leaf_r(b - 1)
    }
}

proof fn lemma_mul_assoc(x: int, y: int, z: int)
    ensures
        (x * y) * z == x * (y * z),
{
    vstd::arithmetic::mul::lemma_mul_is_associative(x, y, z);
}

proof fn lemma_combine_step(x: int, y: int, u: int, v: int, w: int, z: int, t: int)
    ensures
        (x * u + y * v) * w + (y * z) * t == x * (u * w) + y * (v * w + z * t),
{
    vstd::arithmetic::mul::lemma_mul_is_distributive_add_other_way(w, x * u, y * v);
    vstd::arithmetic::mul::lemma_mul_is_associative(x, u, w);
    vstd::arithmetic::mul::lemma_mul_is_associative(y, v, w);
    vstd::arithmetic::mul::lemma_mul_is_associative(y, z, t);
    vstd::arithmetic::mul::lemma_mul_is_distributive_add(y, v * w, z * t);
}

/// Peeling `[a, b)` from the right distributes over any cut `m`.
proof fn lemma_fold_merge(a: int, m: int, b: int)
    requires
        a <= m <= b,
    ensures
        prod_p(a, b) == prod_p(a, m) * prod_p(m, b),
        prod_q(a, b) == prod_q(a, m) * prod_q(m, b),
        fold_r(a, b) == fold_r(a, m) * prod_q(m, b) + prod_p(a, m) * fold_r(m, b),
    decreases b - m,
{
    if b == m {
        assert(prod_p(m, b) == 1);
        assert(prod_q(m, b) == 1);
        assert(fold_r(m, b) == 0);
    } else {
        lemma_fold_merge(a, m, b - 1);
        lemma_mul_assoc(prod_p(a, m), prod_p(m, b - 1), leaf_p(b - 1));
        lemma_mul_assoc(prod_q(a, m), prod_q(m, b - 1), leaf_q(b - 1));
        lemma_combine_step(
            fold_r(a, m),
            prod_p(a, m),
            prod_q(m, b - 1),
            fold_r(m, b - 1),
            leaf_q(b - 1),
            prod_p(m, b - 1),
            leaf_r(b - 1),
        );
    }
}

/// Splitting at the midpoint computes exactly the canonical triple.
proof fn lemma_split_is_fold(a: int, b: int)
    requires
        a < b,
    ensures
        split_p(a, b) == prod_p(a, b),
        split_q(a, b) == prod_q(a, b),
        split_r(a, b) == fold_r(a, b),
    decreases b - a,
{
    if b - a == 1 {
        reveal_with_fuel(prod_p, 2);
        reveal_with_fuel(prod_q, 2);
        reveal_with_fuel(fold_r, 2);
        assert(prod_p(a, a) == 1);
        assert(prod_q(a, a) == 1);
        assert(fold_r(a, a) == 0);
        assert(prod_p(a, b) == prod_p(a, a) * leaf_p(a));
        assert(prod_q(a, b) == prod_q(a, a) * leaf_q(a));
        assert(fold_r(a, b) == fold_r(a, a) * leaf_q(a) + prod_p(a, a) * leaf_r(a));
    } else {
        let m = (a + b) / 2;
        lemma_split_is_fold(a, m);
        lemma_split_is_fold(m, b);
        lemma_fold_merge(a, m, b);
    }
}

/// The combination rule is independent of the cut: for any interior `m`, the
/// triple for `[a, b)` is the combination of the triples for `[a, m)` and
/// `[m, b)`, wherever the implementation actually split.
pub proof fn lemma_split_at_any_cut(a: int, m: int, b: int)
    requires
        a < m < b,
    ensures
        split_p(a, b) == split_p(a, m) * split_p(m, b),
        split_q(a, b) == split_q(a, m) * split_q(m, b),
        split_r(a, b) == split_r(a, m) * split_q(m, b) + split_p(a, m) * split_r(m, b),
{
    lemma_split_is_fold(a, b);
    lemma_split_is_fold(a, m);
    lemma_split_is_fold(m, b);
    lemma_fold_merge(a, m, b);
}

/// A range of a single term is exactly the closed-form leaf triple.
pub proof fn lemma_split_single_term(a: int, b: int)
    requires
        0 <= a,
        b == a + 1,
    ensures
        split_p(a, b) == leaf_p(a),
        split_q(a, b) == leaf_q(a),
        split_r(a, b) == leaf_r(a),
{
}

/// Combining via any two interior cuts of `[a, b)` yields the same triple:
/// the combination rule is associative in where the range is divided.
pub proof fn lemma_split_cuts_agree(a: int, m1: int, m2: int, b: int)
    requires
        a < m1 < b,
        a < m2 < b,
        m1 != m2,
    ensures
        split_p(a, m1) * split_p(m1, b) == split_p(a, m2) * split_p(m2, b),
        split_q(a, m1) * split_q(m1, b) == split_q(a, m2) * split_q(m2, b),
        split_r(a, m1) * split_q(m1, b) + split_p(a, m1) * split_r(m1, b) == split_r(a, m2)
            * split_q(m2, b) + split_p(a, m2) * split_r(m2, b),
{
    lemma_split_at_any_cut(a, m1, b);
    lemma_split_at_any_cut(a, m2, b);
}

/// The leaf `R` is positive at index 0 and at every even index, and negative
/// at every odd index: the sign of a leaf follows the parity of its index.
pub proof fn lemma_leaf_r_sign(a: int)
    requires
        0 <= a,
    ensures
        a % 2 == 0 ==> leaf_r(a) > 0,
        a % 2 == 1 ==> leaf_r(a) < 0,
{
    if a == 0 {
    } else {
        assert((6 * a - 5) * (2 * a - 1) * (6 * a - 1) > 0) by (nonlinear_arith)
            requires
                1 <= a,
        ;
        assert(leaf_p(a) * (13591409 + 545140134 * a) > 0) by (nonlinear_arith)
            requires
                leaf_p(a) > 0,
                13591409 + 545140134 * a > 0,
        ;
    }
}

proof fn lemma_leaf_p_pos(a: int)
    requires
        0 <= a,
    ensures
        leaf_p(a) > 0,
{
    if a != 0 {
        assert((6 * a - 5) * (2 * a - 1) * (6 * a - 1) > 0) by (nonlinear_arith)
            requires
                1 <= a,
        ;
    }
}

/// Each term's magnitude shrinks against the previous one: the numerator
/// factor and sign-free coefficient a term gains are outweighed by the
/// denominator factor it gains.
proof fn lemma_term_ratio(k: int)
    requires
        1 <= k,
    ensures
        leaf_p(k) * (13591409 + 545140134 * k) < (13591409 + 545140134 * (k - 1)) * leaf_q(k),
{
    let p = (6 * k - 5) * (2 * k - 1) * (6 * k - 1);
    let l0 = 13591409 + 545140134 * (k - 1);
    let l1 = 13591409 + 545140134 * k;
    let q = k * k * k * 10939058860032000;
    assert(0 <= p && p <= 72 * (k * k * k)) by (nonlinear_arith)
        requires
            1 <= k,
            p == (6 * k - 5) * (2 * k - 1) * (6 * k - 1),
    ;
    assert(l1 <= 42 * l0);
    assert(p * l1 < l0 * q) by (nonlinear_arith)
        requires
            1 <= k,
            0 <= p,
            p <= 72 * (k * k * k),
            0 < l0,
            0 < l1,
            l1 <= 42 * l0,
            q == k * k * k * 10939058860032000,
    ;
}

proof fn lemma_alternating_step_even(p: int, l: int, u: int, lq: int, q2: int, s: int) by (nonlinear_arith)
    requires
        p > 0,
        l > 0,
        q2 > 0,
        0 <= u,
        u < l * lq,
        -(u * q2) <= s <= 0,
    ensures
        0 < (p * l) * (lq * q2) + p * s,
        (p * l) * (lq * q2) + p * s <= (p * l) * (lq * q2),
{
}

proof fn lemma_alternating_step_odd(p: int, l: int, u: int, lq: int, q2: int, s: int) by (nonlinear_arith)
    requires
        p > 0,
        l > 0,
        q2 > 0,
        0 <= u,
        u < l * lq,
        0 <= s <= u * q2,
    ensures
        -((p * l) * (lq * q2)) + p * s < 0,
        -((p * l) * (lq * q2)) <= -((p * l) * (lq * q2)) + p * s,
{
}

/// The partial numerator of `[a, b)` alternates in sign with the parity of
/// `a` and is bounded by its own first term: each term outweighs the whole
/// alternating tail behind it.
proof fn lemma_fold_r_alternating(a: int, b: int)
    requires
        0 <= a < b,
    ensures
        a % 2 == 0 ==> 0 < fold_r(a, b) <= (leaf_p(a) * (13591409 + 545140134 * a)) * prod_q(
            a + 1,
            b,
        ),
        a % 2 == 1 ==> -((leaf_p(a) * (13591409 + 545140134 * a)) * prod_q(a + 1, b)) <= fold_r(
            a,
            b,
        ) < 0,
    decreases b - a,
{
    let p = leaf_p(a);
    let l = 13591409 + 545140134 * a;
    lemma_leaf_p_pos(a);
    lemma_leaf_r_sign(a);
    if b == a + 1 {
        reveal_with_fuel(prod_p, 2);
        reveal_with_fuel(prod_q, 2);
        reveal_with_fuel(fold_r, 2);
        assert(fold_r(a, b) == leaf_r(a));
        assert(prod_q(a + 1, b) == 1);
    } else {
        lemma_fold_r_alternating(a + 1, b);
        lemma_fold_merge(a, a + 1, b);
        lemma_fold_merge(a + 1, a + 2, b);
        reveal_with_fuel(prod_p, 2);
        reveal_with_fuel(prod_q, 2);
        reveal_with_fuel(fold_r, 2);
        assert(fold_r(a, a + 1) == leaf_r(a));
        assert(prod_p(a, a) == 1);
        assert(prod_p(a, a + 1) == prod_p(a, a) * leaf_p(a));
        assert(prod_p(a, a + 1) == p);
        assert(prod_q(a + 1, a + 2) == leaf_q(a + 1));
        assert(fold_r(a, b) == leaf_r(a) * prod_q(a + 1, b) + p * fold_r(a + 1, b));
        assert(prod_q(a + 1, b) == leaf_q(a + 1) * prod_q(a + 2, b));
        let lq = leaf_q(a + 1);
        let q2 = prod_q(a + 2, b);
        let s = fold_r(a + 1, b);
        let u = leaf_p(a + 1) * (13591409 + 545140134 * (a + 1));
        lemma_prod_q_pos(a + 2, b);
        lemma_leaf_p_pos(a + 1);
        assert(0 <= u) by (nonlinear_arith)
            requires
                leaf_p(a + 1) > 0,
                13591409 + 545140134 * (a + 1) > 0,
                u == leaf_p(a + 1) * (13591409 + 545140134 * (a + 1)),
        ;
        lemma_term_ratio(a + 1);
        assert(u * q2 == (leaf_p(a + 1) * (13591409 + 545140134 * (a + 1))) * prod_q(a + 2, b));
        if a % 2 == 0 {
            lemma_alternating_step_even(p, l, u, lq, q2, s);
            assert(leaf_r(a) * prod_q(a + 1, b) == (p * l) * (lq * q2));
        } else {
            lemma_alternating_step_odd(p, l, u, lq, q2, s);
            vstd::arithmetic::mul::lemma_mul_unary_negation(p * l, lq * q2);
            assert(leaf_r(a) * prod_q(a + 1, b) == -((p * l) * (lq * q2)));
        }
    }
}

/// The denominator of the final quotient is positive: the series' first term
/// outweighs the whole alternating tail, so the partial numerator over
/// `[0, n)` never vanishes.
pub proof fn lemma_split_r_pos(n: int)
    requires
        1 <= n,
    ensures
        split_r(0, n) > 0,
{
    lemma_split_is_fold(0, n);
    lemma_fold_r_alternating(0, n);
}

proof fn lemma_leaf_q_pos(a: int)
    requires
        0 <= a,
    ensures
        leaf_q(a) > 0,
{
    if a != 0 {
        assert(a * a * a * 10939058860032000 > 0) by (nonlinear_arith)
            requires
                1 <= a,
        ;
    }
}

proof fn lemma_prod_q_pos(a: int, b: int)
    requires
        0 <= a <= b,
    ensures
        prod_q(a, b) > 0,
    decreases b - a,
{
    if b > a {
        lemma_prod_q_pos(a, b - 1);
        lemma_leaf_q_pos(b - 1);
        assert(prod_q(a, b - 1) * leaf_q(b - 1) > 0) by (nonlinear_arith)
            requires
                prod_q(a, b - 1) > 0,
                leaf_q(b - 1) > 0,
        ;
    }
}

/// The denominator component `Q` of any range is positive.
pub proof fn lemma_split_q_pos(a: int, b: int)
    requires
        0 <= a < b,
    ensures
        split_q(a, b) > 0,
{
    lemma_split_is_fold(a, b);
    lemma_prod_q_pos(a, b);
}

} // verus!
