//! Divisibility, primality and the arithmetic of sieving cursors.

use vstd::prelude::*;

verus! {

/// `d` divides `n`: some integer multiple of `d` equals `n`.
pub open spec fn divides(d: int, n: int) -> bool {
    exists|k: int| n == #[trigger] (d * k)
}

/// `n` is prime: it is at least 2 and no integer strictly between 1 and
/// `n` divides it.
pub open spec fn is_prime(n: int) -> bool {
    n >= 2 && forall|d: int| 2 <= d < n ==> !divides(d, n)
}

/// A proper multiple of a number that is at least 2 is not prime.
pub proof fn lemma_proper_multiple_not_prime(d: int, n: int)
    requires
        2 <= d < n,
        divides(d, n),
    ensures
        !is_prime(n),
{
}

/// Divisibility is transitive.
pub proof fn lemma_divides_transitive(a: int, b: int, c: int)
    requires
        divides(a, b),
        divides(b, c),
    ensures
        divides(a, c),
{
    let k1 = choose|k: int| b == #[trigger] (a * k);
    let k2 = choose|k: int| c == #[trigger] (b * k);
    assert(c == a * (k1 * k2)) by (nonlinear_arith)
        requires
            b == a * k1,
            c == b * k2,
    ;
}

/// Every composite number at least 2 has a prime factor strictly smaller
/// than itself.
pub proof fn lemma_composite_has_prime_factor(n: int)
    requires
        n >= 2,
        !is_prime(n),
    ensures
        exists|q: int| is_prime(q) && 2 <= q < n && divides(q, n),
    decreases n,
{
    let d = choose|d: int| 2 <= d < n && #[trigger] divides(d, n);
    assert(2 <= d < n && divides(d, n));
    if is_prime(d) {
        assert(is_prime(d) && 2 <= d < n && divides(d, n));
    } else {
        lemma_composite_has_prime_factor(d);
        let q = choose|q: int| is_prime(q) && 2 <= q < d && #[trigger] divides(q, d);
        lemma_divides_transitive(q, d, n);
        assert(is_prime(q) && 2 <= q < n && divides(q, n));
    }
}

/// Stepping a multiple of `p` by `p` lands on the next multiple.
pub proof fn lemma_divides_step(p: int, m: int)
    requires
        divides(p, m),
    ensures
        divides(p, m + p),
{
    let k = choose|k: int| m == #[trigger] (p * k);
    assert(m + p == p * (k + 1)) by (nonlinear_arith)
        requires
            m == p * k,
    ;
}

/// A multiple of `p` strictly above `p` is at least `2 * p`.
pub proof fn lemma_multiple_above(p: int, m: int)
    requires
        p >= 1,
        divides(p, m),
        m > p,
    ensures
        m >= p + p,
{
    let k = choose|k: int| m == #[trigger] (p * k);
    assert(m >= p + p) by (nonlinear_arith)
        requires
            m == p * k,
            m > p,
            p >= 1,
    ;
}

/// `m` is where a sieving cursor for the prime `p` stands once every
/// multiple of `p` below the bound `e` has been marked: the least multiple
/// of `p` that is strictly greater than `p` and at least `e`.
pub open spec fn nextval_ok(p: int, e: int, m: int) -> bool {
    &&& divides(p, m)
    &&& m > p
    &&& m >= e
    &&& (m == p + p || m < e + p)
}

/// There is only one value a sieving cursor can legally stand at for a
/// given prime and bound.
pub proof fn lemma_nextval_unique(p: int, e: int, m1: int, m2: int)
    requires
        p >= 2,
        nextval_ok(p, e, m1),
        nextval_ok(p, e, m2),
    ensures
        m1 == m2,
{
    let k1 = choose|k: int| m1 == #[trigger] (p * k);
    let k2 = choose|k: int| m2 == #[trigger] (p * k);
    assert(k1 >= 2) by (nonlinear_arith)
        requires
            m1 == p * k1,
            m1 > p,
            p >= 2,
    ;
    assert(k2 >= 2) by (nonlinear_arith)
        requires
            m2 == p * k2,
            m2 > p,
            p >= 2,
    ;
    if m1 == p + p && m2 == p + p {
    } else if m1 == p + p {
        assert(m2 == p + p) by (nonlinear_arith)
            requires
                m2 == p * k2,
                k2 >= 2,
                p >= 2,
                m2 >= e,
                m2 == p + p || m2 < e + p,
                e <= p + p,
        ;
    } else if m2 == p + p {
        assert(m1 == p + p) by (nonlinear_arith)
            requires
                m1 == p * k1,
                k1 >= 2,
                p >= 2,
                m1 >= e,
                m1 == p + p || m1 < e + p,
                e <= p + p,
        ;
    } else {
        assert(m1 == m2) by (nonlinear_arith)
            requires
                m1 == p * k1,
                m2 == p * k2,
                p >= 2,
                e <= m1 < e + p,
                e <= m2 < e + p,
        ;
    }
}

/// Two distinct multiples of `p` lie at least `p` apart.
pub proof fn lemma_multiple_gap(p: int, a: int, b: int)
    requires
        p >= 1,
        divides(p, a),
        divides(p, b),
        a < b,
    ensures
        b >= a + p,
{
    let k1 = choose|k: int| a == #[trigger] (p * k);
    let k2 = choose|k: int| b == #[trigger] (p * k);
    assert(b >= a + p) by (nonlinear_arith)
        requires
            a == p * k1,
            b == p * k2,
            a < b,
            p >= 1,
    ;
}

/// A legal sieving cursor is the least multiple of `p` that exceeds `p`
/// and reaches the bound: any other such multiple lies at or above it.
pub proof fn lemma_nextval_minimal(p: int, e: int, m0: int, m: int)
    requires
        p >= 2,
        nextval_ok(p, e, m0),
        divides(p, m),
        m > p,
        m >= e,
    ensures
        m >= m0,
{
    let k0 = choose|k: int| m0 == #[trigger] (p * k);
    let k = choose|k: int| m == #[trigger] (p * k);
    if m < m0 {
        if m0 == p + p {
            lemma_multiple_above(p, m);
        } else {
            assert(false) by (nonlinear_arith)
                requires
                    m0 == p * k0,
                    m == p * k,
                    p >= 2,
                    e <= m < m0,
                    m0 < e + p,
            ;
        }
    }
}

/// The window boundary at which sieving stops for upper limit `u` and
/// window width `w`: the least multiple of `w` that is at least `u`.
pub open spec fn final_bound(u: int, w: int) -> int
    recommends
        w >= 1,
{
    if u <= 0 {
        0
    } else {
        w * ((u + w - 1) / w)
    }
}

/// A multiple of `w` that is at least `u` but by less than a full window
/// is exactly the final window boundary.
pub proof fn lemma_final_bound(u: int, w: int, c: int)
    requires
        w >= 1,
        u >= 1,
        c >= u,
        c < u + w,
        c % w == 0,
    ensures
        c == final_bound(u, w),
{
    let q = c / w;
    vstd::arithmetic::div_mod::lemma_fundamental_div_mod(c, w);
    vstd::arithmetic::div_mod::lemma_fundamental_div_mod_converse(u + w - 1, w, q, u + w - 1 - c);
}

} // verus!
