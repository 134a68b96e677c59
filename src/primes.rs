use vstd::prelude::*;
use vstd::arithmetic::div_mod::{lemma_fundamental_div_mod, lemma_mod_multiples_basic};

verus! {

/// `n` is at least two and has no divisor strictly between one and itself.
pub open spec fn is_prime(n: int) -> bool {
    n >= 2 && forall|d: int| 2 <= d < n ==> #[trigger] (n % d) != 0
}

/// The number of primes in `[2, n]`.
pub open spec fn prime_count(n: int) -> nat
    decreases n,
{
    if n < 2 {
        0
    } else {
        prime_count(n - 1) + if is_prime(n) {
            1nat
        } else {
            0nat
        }
    }
}

/// `p` stands at position `i` (counted from zero) of the ascending sequence of primes.
pub open spec fn is_nth_prime(i: int, p: int) -> bool {
    is_prime(p) && prime_count(p - 1) == i
}

pub proof fn lemma_prime_count_monotonic(a: int, b: int)
    requires
        a <= b,
    ensures
        prime_count(a) <= prime_count(b),
    decreases b - a,
{
    if a < b {
        lemma_prime_count_monotonic(a, b - 1);
    }
}

/// The primes come in strictly ascending order: a later position holds a larger prime.
pub proof fn nth_primes_ascend(i: int, p: int, j: int, q: int)
    requires
        is_nth_prime(i, p),
        is_nth_prime(j, q),
        i < j,
    ensures
        p < q,
{
    if q <= p {
        if q < p {
            lemma_prime_count_monotonic(q, p - 1);
            assert(prime_count(q) == prime_count(q - 1) + 1);
        }
    }
}

/// The position of a prime is fixed: two primes at the same position are equal.
pub proof fn nth_prime_unique(i: int, p: int, q: int)
    requires
        is_nth_prime(i, p),
        is_nth_prime(i, q),
    ensures
        p == q,
{
    if p < q {
        lemma_prime_count_monotonic(p, q - 1);
        assert(prime_count(p) == prime_count(p - 1) + 1);
    } else if q < p {
        lemma_prime_count_monotonic(q, p - 1);
        assert(prime_count(q) == prime_count(q - 1) + 1);
    }
}

pub proof fn lemma_small_primes()
    ensures
        !is_prime(0),
        !is_prime(1),
        is_prime(2),
        is_prime(3),
        !is_prime(4),
        is_prime(5),
        !is_prime(6),
        is_prime(7),
        !is_prime(8),
        !is_prime(9),
        !is_prime(10),
        is_prime(11),
        prime_count(0) == 0,
        prime_count(1) == 0,
        prime_count(2) == 1,
        prime_count(3) == 2,
        prime_count(4) == 2,
        prime_count(5) == 3,
        prime_count(6) == 3,
        prime_count(7) == 4,
        prime_count(10) == 4,
        prime_count(11) == 5,
{
    assert(4int % 2 == 0);
    assert(6int % 2 == 0);
    assert(8int % 2 == 0);
    assert(9int % 3 == 0);
    assert(10int % 2 == 0);
    assert forall|d: int| 2 <= d < 3 implies #[trigger] (3int % d) != 0 by {}
    assert forall|d: int| 2 <= d < 5 implies #[trigger] (5int % d) != 0 by {
        if d == 2 {} else if d == 3 {} else {}
    }
    assert forall|d: int| 2 <= d < 7 implies #[trigger] (7int % d) != 0 by {
        if d == 2 {} else if d == 3 {} else if d == 4 {} else if d == 5 {} else {}
    }
    assert forall|d: int| 2 <= d < 11 implies #[trigger] (11int % d) != 0 by {
        if d == 2 {} else if d == 3 {} else if d == 4 {} else if d == 5 {} else if d == 6 {
        } else if d == 7 {} else if d == 8 {} else if d == 9 {} else {}
    }
    reveal_with_fuel(prime_count, 12);
}

/// An even number above two, or a multiple of five above five, is not prime.
pub proof fn lemma_not_prime_even_or_five(n: int)
    requires
        (n > 2 && n % 2 == 0) || (n > 5 && n % 5 == 0),
    ensures
        !is_prime(n),
{
    if n % 2 == 0 {
        assert(n % 2 == 0);
    } else {
        assert(n % 5 == 0);
    }
}

proof fn lemma_divides_trans(n: int, d: int, p: int)
    requires
        p > 0,
        d > 0,
        n % d == 0,
        d % p == 0,
    ensures
        n % p == 0,
{
    lemma_fundamental_div_mod(n, d);
    lemma_fundamental_div_mod(d, p);
    let a = n / d;
    let b = d / p;
    assert(n == p * (b * a)) by (nonlinear_arith)
        requires
            n == d * a,
            d == p * b,
    ;
    lemma_mod_multiples_basic(b * a, p);
}

/// Every integer of at least two has a prime divisor no larger than itself.
pub proof fn lemma_prime_divisor(n: int) -> (p: int)
    requires
        n >= 2,
    ensures
        is_prime(p),
        p <= n,
        n % p == 0,
    decreases n,
{
    if is_prime(n) {
        assert(n % n == 0);
        n
    } else {
        let d = choose|d: int| 2 <= d < n && #[trigger] (n % d) == 0;
        let p = lemma_prime_divisor(d);
        lemma_divides_trans(n, d, p);
        p
    }
}

/// A composite `c` that is odd and not a multiple of five has an odd prime factor
/// `p` other than five with `3 * p <= c`, and `c` is an odd multiple of `p`.
pub proof fn lemma_composite_factor(c: int) -> (p: int)
    requires
        c >= 2,
        !is_prime(c),
        c % 2 == 1,
        c % 5 != 0,
    ensures
        is_prime(p),
        3 <= p,
        p != 5,
        3 * p <= c,
        c % (2 * p) == p,
{
    let d = choose|d: int| 2 <= d < c && #[trigger] (c % d) == 0;
    let p = lemma_prime_divisor(d);
    lemma_divides_trans(c, d, p);
    if p == 2 {
        assert(false);
    }
    if p == 5 {
        assert(false);
    }
    lemma_fundamental_div_mod(c, p);
    let m = c / p;
    assert(c == p * m);
    assert(m >= 2) by (nonlinear_arith)
        requires
            c == p * m,
            p <= d,
            d < c,
            p >= 2,
    ;
    lemma_fundamental_div_mod(m, 2);
    if m % 2 == 0 {
        let h = m / 2;
        assert(c == 2 * (p * h)) by (nonlinear_arith)
            requires
                c == p * m,
                m == 2 * h,
        ;
        lemma_mod_multiples_basic(p * h, 2);
        assert(false);
    }
    let h = m / 2;
    assert(m == 2 * h + 1);
    assert(h >= 1);
    assert(c == (2 * p) * h + p) by (nonlinear_arith)
        requires
            c == p * m,
            m == 2 * h + 1,
    ;
    assert(3 * p <= c) by (nonlinear_arith)
        requires
            c == (2 * p) * h + p,
            h >= 1,
            p >= 3,
    ;
    vstd::arithmetic::div_mod::lemma_mod_multiples_vanish(h, p, 2 * p);
    vstd::arithmetic::div_mod::lemma_small_mod(p as nat, (2 * p) as nat);
    p
}

/// Of two numbers with the same remainder modulo `m`, the smaller lies at least `m` below the larger.
pub proof fn lemma_same_residue_gap(a: int, b: int, m: int)
    requires
        m > 0,
        a % m == b % m,
        a < b,
    ensures
        a + m <= b,
{
    lemma_fundamental_div_mod(a, m);
    lemma_fundamental_div_mod(b, m);
    let qa = a / m;
    let qb = b / m;
    assert(qa < qb) by (nonlinear_arith)
        requires
            a == m * qa + a % m,
            b == m * qb + b % m,
            a % m == b % m,
            a < b,
            m > 0,
    ;
    assert(a + m <= b) by (nonlinear_arith)
        requires
            a == m * qa + a % m,
            b == m * qb + b % m,
            a % m == b % m,
            qa < qb,
            m > 0,
    ;
}

} // verus!
