//! What a prime is, and what a list of primes covering a range is.
use vstd::prelude::*;
use vstd::arithmetic::div_mod::{lemma_fundamental_div_mod, lemma_mod_multiples_basic};

verus! {

pub open spec fn is_prime(n: int) -> bool {
    n >= 2 && forall|d: int| 2 <= d < n ==> #[trigger] (n % d) != 0
}

pub open spec fn strictly_ascending(s: Seq<i64>) -> bool {
    forall|i: int, j: int| 0 <= i < j < s.len() ==> s[i] < s[j]
}

/// `s` lists, in ascending order, exactly the primes `n` with `lo <= n <= hi`.
pub open spec fn primes_in(s: Seq<i64>, lo: int, hi: int) -> bool {
    &&& strictly_ascending(s)
    &&& forall|i: int| 0 <= i < s.len() ==> lo <= #[trigger] s[i] <= hi && is_prime(s[i] as int)
    &&& forall|n: int| lo <= n <= hi && #[trigger] is_prime(n) ==> exists|i: int| 0 <= i < s.len() && s[i] == n
}

/// `s` lists, in ascending order, exactly the primes up to `limit`.
pub open spec fn primes_up_to(s: Seq<i64>, limit: int) -> bool {
    primes_in(s, 0, limit)
}

/// If `d` divides `r` and `r` divides `n`, then `d` divides `n`.
pub proof fn lemma_divides_transitive(n: int, r: int, d: int)
    requires
        r > 0,
        d > 0,
        n % r == 0,
        r % d == 0,
    ensures
        n % d == 0,
{
    lemma_fundamental_div_mod(n, r);
    lemma_fundamental_div_mod(r, d);
    let a = n / r;
    let b = r / d;
    assert(n == (b * a) * d) by (nonlinear_arith)
        requires
            n == r * a,
            r == d * b,
    ;
    lemma_mod_multiples_basic(b * a, d);
}

/// The least divisor of `n` that is at least `d`.
pub open spec fn least_divisor_from(n: int, d: int) -> int
    decreases n - d,
{
    if d >= n || d < 2 {
        n
    } else if n % d == 0 {
        d
    } else {
        least_divisor_from(n, d + 1)
    }
}

proof fn lemma_least_divisor_from(n: int, d: int)
    requires
        2 <= d <= n,
        forall|e: int| 2 <= e < d ==> #[trigger] (n % e) != 0,
    ensures
        d <= least_divisor_from(n, d) <= n,
        n % least_divisor_from(n, d) == 0,
        forall|e: int| 2 <= e < least_divisor_from(n, d) ==> #[trigger] (n % e) != 0,
    decreases n - d,
{
    if d == n {
        lemma_mod_multiples_basic(1, n);
    } else if n % d != 0 {
        lemma_least_divisor_from(n, d + 1);
    }
}

/// A number `n >= 2` that is not prime has a prime factor whose square is at
/// most `n`.
pub proof fn lemma_small_prime_factor(n: int)
    requires
        n >= 2,
        !is_prime(n),
    ensures
        exists|q: int| is_prime(q) && q * q <= n && #[trigger] (n % q) == 0,
{
    lemma_least_divisor_from(n, 2);
    let r = least_divisor_from(n, 2);
    let e = choose|e: int| 2 <= e < n && #[trigger] (n % e) == 0;
    assert(r <= e);
    // r is prime: any divisor of r would divide n.
    assert forall|d: int| 2 <= d < r implies #[trigger] (r % d) != 0 by {
        if r % d == 0 {
            lemma_divides_transitive(n, r, d);
        }
    }
    // its cofactor is a divisor of n, so it is at least r.
    lemma_fundamental_div_mod(n, r);
    let k = n / r;
    assert(n == r * k);
    assert(k >= 2) by (nonlinear_arith)
        requires
            n == r * k,
            2 <= r < n,
    ;
    assert(k < n) by (nonlinear_arith)
        requires
            n == r * k,
            r >= 2,
            n >= 2,
    ;
    lemma_mod_multiples_basic(r, k);
    assert(n % k == 0) by {
        assert(n == r * k);
        assert(r * k == k * r) by (nonlinear_arith);
    }
    assert(k >= r);
    assert(r * r <= n) by (nonlinear_arith)
        requires
            n == r * k,
            k >= r,
            r >= 2,
    ;
    assert(is_prime(r));
    assert(n % r == 0);
}

/// Two distinct multiples of `p > 0` lie at least `p` apart.
pub proof fn lemma_multiples_apart(a: int, b: int, p: int)
    requires
        p > 0,
        a % p == 0,
        b % p == 0,
        a < b,
    ensures
        b - a >= p,
        b - a == p || b - a >= 2 * p,
{
    lemma_fundamental_div_mod(a, p);
    lemma_fundamental_div_mod(b, p);
    let x = a / p;
    let y = b / p;
    assert(b - a == p * (y - x)) by (nonlinear_arith)
        requires
            a == p * x,
            b == p * y,
    ;
    assert(y - x >= 1) by (nonlinear_arith)
        requires
            b - a == p * (y - x),
            a < b,
            p > 0,
    ;
    if y - x != 1 {
        assert(p * (y - x) >= 2 * p) by (nonlinear_arith)
            requires
                y - x >= 2,
                p > 0,
        ;
    }
}

/// Joining the primes of `[lo, mid]` with those of `[mid + 1, hi]` gives the
/// primes of `[lo, hi]`.
pub proof fn lemma_primes_in_concat(a: Seq<i64>, b: Seq<i64>, lo: int, mid: int, hi: int)
    requires
        primes_in(a, lo, mid),
        primes_in(b, mid + 1, hi),
        lo <= mid + 1,
        mid <= hi,
    ensures
        primes_in(a + b, lo, hi),
{
    let s = a + b;
    assert forall|i: int| 0 <= i < s.len() implies lo <= #[trigger] s[i] <= hi && is_prime(
        s[i] as int,
    ) by {
        if i < a.len() {
            assert(s[i] == a[i]);
        } else {
            assert(s[i] == b[i - a.len()]);
        }
    }
    assert forall|i: int, j: int| 0 <= i < j < s.len() implies s[i] < s[j] by {
        if j < a.len() {
        } else if i >= a.len() {
            assert(s[i] == b[i - a.len()]);
            assert(s[j] == b[j - a.len()]);
        } else {
            assert(s[i] == a[i]);
            assert(s[j] == b[j - a.len()]);
        }
    }
    assert forall|n: int| lo <= n <= hi && #[trigger] is_prime(n) implies exists|i: int|
        0 <= i < s.len() && s[i] == n by {
        if n <= mid {
            let i = choose|i: int| 0 <= i < a.len() && a[i] == n;
            assert(s[i] == n);
        } else {
            let i = choose|i: int| 0 <= i < b.len() && b[i] == n;
            assert(s[i + a.len()] == n);
        }
    }
}

} // verus!
