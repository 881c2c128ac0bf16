//! The segmented sieve: the odd numbers of a range that no known prime up to
//! the range's square root divides.
use vstd::prelude::*;
use vstd::arithmetic::div_mod::{lemma_fundamental_div_mod, lemma_mod_multiples_basic, lemma_mod_bound};
use crate::primes::{
    strictly_ascending, lemma_multiples_apart, lemma_divides_transitive, is_prime, primes_in,
    primes_up_to, lemma_small_prime_factor,
};

verus! {

/// `n` has no divisor among `known[1..m]` whose square is at most `to`.
pub open spec fn survives_first(known: Seq<i64>, to: int, n: int, m: int) -> bool {
    forall|j: int|
        1 <= j < m && j < known.len() && (known[j] as int) * (known[j] as int) <= to ==> n % (
        #[trigger] known[j] as int) != 0
}

/// `n` has no divisor among the known primes after the first whose square is
/// at most `to`.
pub open spec fn survives(known: Seq<i64>, to: int, n: int) -> bool {
    survives_first(known, to, n, known.len() as int)
}

/// A list of known primes as the sieve reads it: ascending, starting at 2 or
/// above.
pub open spec fn valid_known(known: Seq<i64>) -> bool {
    strictly_ascending(known) && (known.len() > 0 ==> known[0] >= 2)
}

/// `r` lists, ascending, exactly the numbers of `[from, to]` of the parity of
/// `from` that survive the known primes.
pub open spec fn is_sieve_output(known: Seq<i64>, from: int, to: int, r: Seq<i64>) -> bool {
    &&& strictly_ascending(r)
    &&& forall|i: int|
        0 <= i < r.len() ==> from <= #[trigger] r[i] <= to && (r[i] - from) % 2 == 0 && survives(
            known,
            to,
            r[i] as int,
        )
    &&& forall|n: int|
        from <= n <= to && (n - from) % 2 == 0 && #[trigger] survives(known, to, n) ==> exists|i: int|
            0 <= i < r.len() && r[i] == n
}

/// The least multiple of `p` that is `>= from` and has the parity of `from`.
fn first_odd_multiple(from: i128, p: i128) -> (q: i128)
    requires
        from % 2 == 1,
        p % 2 == 1,
        3 <= p <= i64::MAX,
        i64::MIN <= from <= i64::MAX,
    ensures
        q % p == 0,
        q >= from,
        (q - from) % 2 == 0,
        q < from + 2 * p,
        forall|n: int| from <= n < q && (n - from) % 2 == 0 ==> #[trigger] (n % (p as int)) != 0,
{
    let pu = p as u128;
    let mut q: i128;
    if from >= 0 {
        let fu = from as u128;
        let ghost m: int = (fu / pu) as int;
        proof {
            lemma_fundamental_div_mod(fu as int, pu as int);
            lemma_mod_bound(fu as int, pu as int);
            lemma_mod_multiples_basic((fu / pu) as int, p as int);
        }
        let base = (fu / pu) as i128 * p;
        assert(base % p == 0 && base <= from && base > from - p) by (nonlinear_arith)
            requires
                base == m * p,
                fu == from,
                pu == p,
                fu == pu * m + fu as int % pu as int,
                0 <= (fu as int % pu as int) < pu,
                0 == (m * p) % (p as int),
        ;
        if base < from {
            q = base + p;
            proof {
                lemma_mod_multiples_basic((fu / pu) as int + 1, p as int);
                assert(q == ((fu / pu) as int + 1) * p) by (nonlinear_arith)
                    requires
                        q == base + p,
                        base == (fu / pu) as int * p,
                ;
            }
        } else {
            q = base;
        }
    } else {
        let a = (0 - from) as u128;
        let ghost m: int = (a / pu) as int;
        proof {
            lemma_fundamental_div_mod(a as int, pu as int);
            lemma_mod_bound(a as int, pu as int);
            lemma_mod_multiples_basic(-((a / pu) as int), p as int);
        }
        assert(m * p <= a) by (nonlinear_arith)
            requires
                pu == p,
                a == pu * m + a as int % pu as int,
                0 <= a as int % pu as int,
        ;
        q = 0 - (a / pu) as i128 * p;
        assert(q % p == 0 && q >= from && q < from + p) by (nonlinear_arith)
            requires
                q == 0 - m * p,
                a == 0 - from,
                pu == p,
                a == pu * m + a as int % pu as int,
                0 <= (a as int % pu as int) < pu,
                0 == (-m * p) % (p as int),
        ;
    }
    let ghost q1: int = q as int;
    // q1 is the least multiple of p at or above from
    assert forall|n: int| from <= n < q1 implies #[trigger] (n % (p as int)) != 0 by {
        if n % (p as int) == 0 {
            lemma_multiples_apart(n, q1, p as int);
        }
    }
    if (q - from) as u128 % 2 == 1 {
        q = q + p;
        proof {
            lemma_mod_multiples_basic(1, p as int);
            assert((q1 + p) % (p as int) == 0) by {
                lemma_fundamental_div_mod(q1, p as int);
                let m = q1 / (p as int);
                assert(q1 + p == (m + 1) * p) by (nonlinear_arith)
                    requires
                        q1 == p * m,
                ;
                lemma_mod_multiples_basic(m + 1, p as int);
            }
            assert forall|n: int| from <= n < q && (n - from) % 2 == 0 implies #[trigger] (n % (p as int))
                != 0 by {
                if n % (p as int) == 0 && n >= q1 {
                    if n > q1 {
                        lemma_multiples_apart(q1, n, p as int);
                    }
                }
            }
        }
    }
    q
}

/// Striking out `p` adds "divisible by `p`" to what rules a number out.
proof fn lemma_survives_step(known: Seq<i64>, to: int, n: int, j: int)
    requires
        1 <= j < known.len(),
    ensures
        survives_first(known, to, n, j + 1) == (survives_first(known, to, n, j) && ((known[j] as int)
            * (known[j] as int) <= to ==> n % (known[j] as int) != 0)),
{
    if survives_first(known, to, n, j) && ((known[j] as int) * (known[j] as int) <= to ==> n % (
    known[j] as int) != 0) {
        assert forall|k: int|
            1 <= k < j + 1 && k < known.len() && (known[k] as int) * (known[k] as int) <= to implies n
            % (#[trigger] known[k] as int) != 0 by {
            if k < j {
            }
        }
    }
}

/// The odd numbers of `[from, to]` (with `from` odd) that no known prime
/// after the first, of square at most `to`, divides; ascending. With every
/// prime up to the square root of `to` known and below `from`, these are
/// exactly the primes of the range.
pub fn sieve_primes(previous_primes: &Vec<i64>, from: i64, to: i64) -> (r: Vec<i64>)
    requires
        valid_known(previous_primes@),
        from % 2 == 1,
        from <= to,
        (to - from) / 2 + 1 <= usize::MAX,
    ensures
        is_sieve_output(previous_primes@, from as int, to as int, r@),
{
    let ghost known = previous_primes@;
    let fi = from as i128;
    let ti = to as i128;
    let cnt = (((ti - fi) as u128) / 2 + 1) as usize;
    assert(fi + 2 * (cnt - 1) <= ti < fi + 2 * cnt);
    // marks[x] stands for from + 2x, and is set once a known prime divides it
    let mut marks: Vec<bool> = Vec::new();
    let mut x: usize = 0;
    while x < cnt
        invariant
            x <= cnt,
            marks@.len() == x,
            forall|y: int| 0 <= y < x ==> marks@[y] == false,
        decreases cnt - x,
    {
        marks.push(false);
        x = x + 1;
    }
    let n_known = previous_primes.len();
    let mut j: usize = 1;
    let mut stopped = false;
    while j < n_known && !stopped
        invariant
            1 <= j,
            valid_known(known),
            known == previous_primes@,
            n_known == known.len(),
            marks@.len() == cnt,
            fi + 2 * (cnt - 1) <= ti < fi + 2 * cnt,
            fi == from,
            ti == to,
            from % 2 == 1,
            forall|y: int|
                0 <= y < cnt ==> #[trigger] marks@[y] == !survives_first(known, to as int, fi + 2 * y, j as int),
            stopped ==> j < n_known && forall|k: int| j <= k < n_known ==> (#[trigger] known[k] as int) * (known[k] as int) > to,
        decreases n_known - j + (if stopped { 0int } else { 1int }),
    {
        let p = previous_primes[j];
        let pi = p as i128;
        assert(known[0] < p);
        assert(pi * pi <= 0x7fff_ffff_ffff_ffffi128 * 0x7fff_ffff_ffff_ffffi128) by (nonlinear_arith)
            requires
                2 <= pi <= 0x7fff_ffff_ffff_ffffi128,
        ;
        if pi * pi > ti {
            stopped = true;
            assert forall|k: int| j <= k < n_known implies (#[trigger] known[k] as int) * (known[k] as int) > to by {
                if k > j {
                    let a = known[j as int] as int;
                    let b = known[k] as int;
                    assert(a < b);
                    assert(b * b > a * a) by (nonlinear_arith)
                        requires
                            b > a,
                            a >= 2,
                    ;
                }
            }
        } else {
            let ghost before = marks@;
            if (p as u64) % 2 == 1 {
                let mut q = first_odd_multiple(fi, pi);
                while q <= ti
                    invariant
                        marks@.len() == cnt,
                        fi + 2 * (cnt - 1) <= ti < fi + 2 * cnt,
                        fi % 2 == 1,
                        pi % 2 == 1,
                        3 <= pi <= i64::MAX,
                        i64::MIN <= fi <= i64::MAX,
                        i64::MIN <= ti <= i64::MAX,
                        (q as int) % (pi as int) == 0,
                        q >= fi,
                        (q - fi) % 2 == 0,
                        q <= ti + 2 * pi,
                        forall|y: int|
                            0 <= y < cnt ==> #[trigger] marks@[y] == (before[y] || ((fi + 2 * y) % (pi as int) == 0
                                && fi + 2 * y < q)),
                    decreases ti + 2 * pi - q,
                {
                    let idx = (((q - fi) as u128) / 2) as usize;
                    marks.set(idx, true);
                    let ghost q0: int = q as int;
                    q = q + 2 * pi;
                    proof {
                        lemma_fundamental_div_mod(q0, pi as int);
                        let m = q0 / (pi as int);
                        assert(q == (m + 2) * pi) by (nonlinear_arith)
                            requires
                                q0 == pi * m,
                                q == q0 + 2 * pi,
                        ;
                        lemma_mod_multiples_basic(m + 2, pi as int);
                    }
                    assert forall|y: int| 0 <= y < cnt implies #[trigger] marks@[y] == (before[y] || ((fi + 2
                        * y) % (pi as int) == 0 && fi + 2 * y < q)) by {
                        let n = fi + 2 * y;
                        if y != idx && n % (pi as int) == 0 && q0 < n && n < q {
                            lemma_multiples_apart(q0, n, pi as int);
                        }
                    }
                }
            } else {
                assert forall|y: int| 0 <= y < cnt implies #[trigger] ((fi + 2 * y) % (pi as int)) != 0 by {
                    if (fi + 2 * y) % (pi as int) == 0 {
                        lemma_divides_transitive(fi + 2 * y, pi as int, 2);
                    }
                }
            }
            assert forall|y: int| 0 <= y < cnt implies #[trigger] marks@[y] == !survives_first(
                known,
                to as int,
                fi + 2 * y,
                j + 1,
            ) by {
                lemma_survives_step(known, to as int, fi + 2 * y, j as int);
            }
            j = j + 1;
        }
    }
    assert forall|y: int| 0 <= y < cnt implies #[trigger] marks@[y] == !survives(known, to as int, fi + 2 * y) by {
        let n = fi + 2 * y;
        if survives_first(known, to as int, n, j as int) {
            assert forall|k: int|
                1 <= k < known.len() && (known[k] as int) * (known[k] as int) <= to implies n % (
                #[trigger] known[k] as int) != 0 by {
                if k >= j {
                    assert(stopped);
                }
            }
        }
    }
    let mut out: Vec<i64> = Vec::new();
    let mut x: usize = 0;
    while x < cnt
        invariant
            x <= cnt,
            marks@.len() == cnt,
            fi + 2 * (cnt - 1) <= ti < fi + 2 * cnt,
            fi == from,
            ti == to,
            forall|y: int| 0 <= y < cnt ==> #[trigger] marks@[y] == !survives(known, to as int, fi + 2 * y),
            strictly_ascending(out@),
            forall|i: int|
                0 <= i < out.len() ==> fi <= #[trigger] out@[i] < fi + 2 * x && (out@[i] - fi) % 2 == 0
                    && survives(known, to as int, out@[i] as int),
            forall|y: int| 0 <= y < x && !#[trigger] marks@[y] ==> exists|i: int| 0 <= i < out.len() && out@[i] == fi + 2 * y,
        decreases cnt - x,
    {
        let ghost prev = out@;
        if !marks[x] {
            out.push((fi + 2 * (x as i128)) as i64);
            assert(out@[prev.len() as int] == fi + 2 * x);
        }
        assert forall|y: int| 0 <= y <= x && !#[trigger] marks@[y] implies exists|i: int|
            0 <= i < out.len() && out@[i] == fi + 2 * y by {
            if y < x {
                let i = choose|i: int| 0 <= i < prev.len() && prev[i] == fi + 2 * y;
                assert(out@[i] == prev[i]);
            } else {
                assert(out@[prev.len() as int] == fi + 2 * y);
            }
        }
        x = x + 1;
    }
    assert forall|n: int| from <= n <= to && (n - from) % 2 == 0 && #[trigger] survives(known, to as int, n) implies exists|i: int|
            0 <= i < out.len() && out@[i] == n by {
        let y = (n - fi) / 2;
        assert(n == fi + 2 * y);
        assert(!marks@[y]);
    }
    out
}

/// A list of all primes up to `limit >= 2` starts with 2.
pub proof fn lemma_primes_start_at_two(known: Seq<i64>, limit: int)
    requires
        primes_up_to(known, limit),
        limit >= 2,
    ensures
        known.len() > 0,
        known[0] == 2,
{
    assert(is_prime(2));
    let i = choose|i: int| 0 <= i < known.len() && known[i] == 2;
    if i > 0 {
        assert(known[0] < known[i]);
        assert(is_prime(known[0] as int));
    }
}

/// When the known primes are all the primes up to `limit`, the range starts
/// above `limit` at an odd number and ends at most at `limit` squared, the
/// sieve's output holds no even number, no composite, and every prime of the
/// range, ascending.
pub proof fn lemma_sieve_yields_primes(known: Seq<i64>, limit: int, from: int, to: int, r: Seq<i64>)
    requires
        primes_up_to(known, limit),
        limit >= 2,
        limit < from,
        from % 2 == 1,
        to <= limit * limit,
        is_sieve_output(known, from, to, r),
    ensures
        primes_in(r, from, to),
        forall|i: int| 0 <= i < r.len() ==> #[trigger] r[i] % 2 == 1,
{
    lemma_primes_start_at_two(known, limit);
    assert forall|i: int| 0 <= i < r.len() implies is_prime(#[trigger] r[i] as int) by {
        let n = r[i] as int;
        assert(n >= 3);
        if !is_prime(n) {
            lemma_small_prime_factor(n);
            let q = choose|q: int| is_prime(q) && q * q <= n && #[trigger] (n % q) == 0;
            if q > limit {
                assert(q * q > limit * limit) by (nonlinear_arith)
                    requires
                        q > limit,
                        limit >= 2,
                ;
            }
            let k = choose|k: int| 0 <= k < known.len() && known[k] == q;
            if k == 0 {
                assert(n % 2 == 0);
            } else {
                assert(survives(known, to, n));
                assert(n % (known[k] as int) != 0);
            }
        }
    }
    assert forall|i: int| 0 <= i < r.len() implies #[trigger] r[i] % 2 == 1 by {
        assert((r[i] - from) % 2 == 0);
    }
    assert forall|n: int| from <= n <= to && #[trigger] is_prime(n) implies exists|i: int|
        0 <= i < r.len() && r[i] == n by {
        assert(n % 2 != 0);
        assert forall|j: int|
            1 <= j < known.len() && (known[j] as int) * (known[j] as int) <= to implies n % (
            #[trigger] known[j] as int) != 0 by {
            assert(is_prime(known[j] as int));
            assert(known[j] <= limit);
        }
        assert(survives(known, to, n));
    }
}

} // verus!
