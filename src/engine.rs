//! The growth loop: rounds of chunks, each bounded by the square of the
//! largest number already checked, sieved against the primes known when the
//! round starts, and appended in the order of their ranges.
use vstd::prelude::*;
use vstd::arithmetic::div_mod::lemma_div_is_ordered_by_denominator;
use crate::primes::{strictly_ascending, is_prime, primes_in, primes_up_to, lemma_primes_in_concat};
use crate::sieve::{is_sieve_output, sieve_primes, lemma_sieve_yields_primes};

verus! {

/// One chunk of work: the odd numbers from `from` to `to`, both included.
#[derive(Clone, Copy, Debug, PartialEq, Eq)]
pub struct ChunkSpec {
    pub from: i64,
    pub to: i64,
}

/// The largest number a round may classify: `last` squared, or `i64::MAX`
/// when the square does not fit.
pub open spec fn round_bound_spec(last: int) -> int {
    if last * last > i64::MAX {
        i64::MAX as int
    } else {
        last * last
    }
}

/// How many chunks a round plans: the primes still missing times the mean
/// gap so far (`last / count`), in chunk spans, plus one.
pub open spec fn estimate_spec(deficit: int, last: int, count: int, span: int) -> int {
    deficit * last / count / span + 1
}

/// Where chunk `k` of a round starts from: the number checked last before it.
pub open spec fn chunk_start(last: int, bound: int, span: int, k: int) -> int {
    if last + k * span < bound {
        last + k * span
    } else {
        bound
    }
}

/// `plan` is the round that starts after `last`, bounded by `bound`: chunks of
/// `span` numbers, cut at `bound`, until `estimate` chunks are planned or one
/// reaches `bound`.
pub open spec fn is_round_plan(plan: Seq<ChunkSpec>, last: int, bound: int, estimate: int, span: int) -> bool {
    &&& 1 <= plan.len() <= estimate
    &&& forall|k: int|
        0 <= k < plan.len() ==> (#[trigger] plan[k]).from == chunk_start(last, bound, span, k) + 2
            && plan[k].to == chunk_start(last, bound, span, k + 1)
    &&& forall|k: int| 0 <= k < plan.len() - 1 ==> (#[trigger] plan[k]).to < bound
    &&& plan.len() == estimate || plan.last().to == bound
}

/// The chunks of `plan` are odd-started, non-empty, at most `bound`, and
/// follow each other from `last + 2` on without gaps.
pub open spec fn is_contiguous_plan(plan: Seq<ChunkSpec>, last: int, bound: int) -> bool {
    &&& plan.len() >= 1
    &&& plan[0].from == last + 2
    &&& forall|k: int|
        0 <= k < plan.len() ==> (#[trigger] plan[k]).from % 2 == 1 && plan[k].to % 2 == 1
            && plan[k].from <= plan[k].to <= bound
    &&& forall|k: int| 1 <= k < plan.len() ==> (#[trigger] plan[k]).from == plan[k - 1].to + 2
}

/// No chunk of `plan` covers more than `span` numbers.
pub open spec fn chunks_within(plan: Seq<ChunkSpec>, span: int) -> bool {
    forall|k: int| 0 <= k < plan.len() ==> (#[trigger] plan[k]).to <= plan[k].from + span - 2
}

/// The chunks, one after the other.
pub open spec fn concat_chunks(s: Seq<Seq<i64>>) -> Seq<i64>
    decreases s.len(),
{
    if s.len() == 0 {
        Seq::empty()
    } else {
        concat_chunks(s.drop_last()) + s.last()
    }
}

pub open spec fn chunk_views(results: Seq<Vec<i64>>) -> Seq<Seq<i64>> {
    results.map_values(|v: Vec<i64>| v@)
}

/// A list of primes the growth loop can start from: at least two entries,
/// ascending, starting at 2, ending with an odd number.
pub open spec fn valid_seed(s: Seq<i64>) -> bool {
    &&& s.len() >= 2
    &&& s[0] == 2
    &&& strictly_ascending(s)
    &&& s.last() % 2 == 1
}

/// The round bound for `last_checked`: its square, saturated at `i64::MAX`.
pub fn round_bound(last_checked: i64) -> (r: i64)
    ensures
        r == round_bound_spec(last_checked as int),
{
    match last_checked.checked_mul(last_checked) {
        Some(v) => v,
        None => {
            assert(last_checked * last_checked >= 0) by (nonlinear_arith);
            i64::MAX
        },
    }
}

/// How many chunks to plan for a round (see `estimate_spec`).
pub fn estimate_chunks(deficit: usize, last_checked: i64, count: usize, chunk_span: u64) -> (r: u128)
    requires
        count > 0,
        chunk_span > 0,
        last_checked >= 0,
    ensures
        r == estimate_spec(deficit as int, last_checked as int, count as int, chunk_span as int),
{
    let d = deficit as u128;
    let l = last_checked as u128;
    assert(d * l <= 0xffff_ffff_ffff_ffffu128 * 0x7fff_ffff_ffff_ffffu128) by (nonlinear_arith)
        requires
            d <= 0xffff_ffff_ffff_ffffu128,
            l <= 0x7fff_ffff_ffff_ffffu128,
    ;
    let x = d * l / (count as u128);
    proof {
        lemma_div_is_ordered_by_denominator((d * l) as int, 1, count as int);
        lemma_div_is_ordered_by_denominator(x as int, 1, chunk_span as int);
    }
    x / (chunk_span as u128) + 1
}

#[verifier::rlimit(40)]
/// The chunks of the round after `last_checked`: spans of `chunk_span`
/// numbers, the last cut at `bound`; at most `estimate` of them, and none
/// after one that reaches `bound`.
pub fn plan_round(last_checked: i64, bound: i64, estimate: u128, chunk_span: u64) -> (plan: Vec<ChunkSpec>)
    requires
        last_checked < bound,
        last_checked % 2 == 1,
        bound % 2 == 1,
        chunk_span % 2 == 0,
        chunk_span >= 2,
        estimate >= 1,
    ensures
        is_round_plan(plan@, last_checked as int, bound as int, estimate as int, chunk_span as int),
        is_contiguous_plan(plan@, last_checked as int, bound as int),
        chunks_within(plan@, chunk_span as int),
{
    let ghost last = last_checked as int;
    let ghost span = chunk_span as int;
    let mut plan: Vec<ChunkSpec> = Vec::new();
    let mut cur = last_checked;
    let mut k: u128 = 0;
    while k < estimate && cur < bound
        invariant
            span == chunk_span as int,
            last == last_checked as int,
            last_checked < bound,
            bound % 2 == 1,
            chunk_span % 2 == 0,
            chunk_span >= 2,
            k <= estimate,
            plan@.len() == k,
            cur == chunk_start(last, bound as int, span, k as int),
            cur % 2 == 1,
            last_checked <= cur <= bound,
            k > 0 ==> plan@.last().to == cur,
            forall|i: int|
                0 <= i < k ==> (#[trigger] plan@[i]).from == chunk_start(last, bound as int, span, i) + 2
                    && plan@[i].to == chunk_start(last, bound as int, span, i + 1),
            forall|i: int| 0 <= i < k - 1 ==> (#[trigger] plan@[i]).to < bound,
            plan@.len() >= 1 ==> plan@[0].from == last + 2,
            forall|i: int|
                0 <= i < k ==> (#[trigger] plan@[i]).from % 2 == 1 && plan@[i].to % 2 == 1
                    && plan@[i].from <= plan@[i].to <= bound,
            forall|i: int| 1 <= i < k ==> (#[trigger] plan@[i]).from == plan@[i - 1].to + 2,
            forall|i: int| 0 <= i < k ==> (#[trigger] plan@[i]).to <= plan@[i].from + span - 2,
        decreases bound - cur,
    {
        let rest: i128 = bound as i128 - cur as i128;
        let step: i128 = chunk_span as i128;
        let to: i64;
        if rest <= step {
            to = bound;
        } else {
            to = (cur as i128 + step) as i64;
        }
        proof {
            let kk = k as int;
            assert((kk + 1) * span == kk * span + span) by (nonlinear_arith);
            assert(last + kk * span < bound);
            assert(cur == last + kk * span);
            assert(last + (kk + 1) * span == cur + span);
            if cur + span < bound {
                assert(to == cur + span);
            } else {
                assert(to == bound);
            }
            assert(chunk_start(last, bound as int, span, kk + 1) == to);
        }
        plan.push(ChunkSpec { from: cur + 2, to });
        cur = to;
        k = k + 1;
    }
    plan
}

/// The plan of the next round, or `None` once `max_primes_count` primes are
/// known or every number up to `i64::MAX` has been checked.
pub fn next_round(primes: &Vec<i64>, last_checked: i64, max_primes_count: usize, chunk_span: u64) -> (r:
    Option<Vec<ChunkSpec>>)
    requires
        primes@.len() > 0,
        last_checked % 2 == 1,
        last_checked >= 3,
        chunk_span % 2 == 0,
        chunk_span >= 2,
    ensures
        r is None <==> (primes@.len() >= max_primes_count || last_checked == i64::MAX),
        r matches Some(plan) ==> is_round_plan(
            plan@,
            last_checked as int,
            round_bound_spec(last_checked as int),
            estimate_spec(
                max_primes_count - primes@.len(),
                last_checked as int,
                primes@.len() as int,
                chunk_span as int,
            ),
            chunk_span as int,
        ) && is_contiguous_plan(plan@, last_checked as int, round_bound_spec(last_checked as int))
            && chunks_within(plan@, chunk_span as int),
{
    if primes.len() >= max_primes_count || last_checked == i64::MAX {
        return None;
    }
    let bound = round_bound(last_checked);
    proof {
        let l = last_checked as int;
        assert(l * l >= 3 * l) by (nonlinear_arith)
            requires
                l >= 3,
        ;
        if l * l <= i64::MAX {
            let m = l / 2;
            assert(l == 2 * m + 1);
            let x = 2 * m * m + 2 * m;
            assert(l * l == 2 * x + 1) by (nonlinear_arith)
                requires
                    l == 2 * m + 1,
                    x == 2 * m * m + 2 * m,
            ;
        }
    }
    let estimate = estimate_chunks(max_primes_count - primes.len(), last_checked, primes.len(), chunk_span);
    Some(plan_round(last_checked, bound, estimate, chunk_span))
}

/// Appending ascending numbers that all lie above an ascending list keeps it
/// strictly ascending and free of duplicates.
pub proof fn lemma_append_keeps_ascending(primes: Seq<i64>, chunk: Seq<i64>, below: int)
    requires
        strictly_ascending(primes),
        strictly_ascending(chunk),
        forall|i: int| 0 <= i < primes.len() ==> #[trigger] primes[i] <= below,
        forall|i: int| 0 <= i < chunk.len() ==> #[trigger] chunk[i] > below,
    ensures
        strictly_ascending(primes + chunk),
{
    let s = primes + chunk;
    assert forall|i: int, j: int| 0 <= i < j < s.len() implies s[i] < s[j] by {
        if j < primes.len() {
        } else if i >= primes.len() {
            assert(s[i] == chunk[i - primes.len()]);
            assert(s[j] == chunk[j - primes.len()]);
        } else {
            assert(s[i] == primes[i]);
            assert(s[j] == chunk[j - primes.len()]);
        }
    }
}

/// Appending the sieve's output for the chunk after `cur` keeps the list
/// ascending and, where it held all primes up to `cur`, makes it hold all
/// primes up to the chunk's end.
proof fn lemma_merge_chunk(
    known: Seq<i64>,
    last: int,
    base: Seq<i64>,
    out: Seq<i64>,
    cur: int,
    from: int,
    to: int,
    complete: bool,
)
    requires
        strictly_ascending(base),
        forall|i: int| 0 <= i < base.len() ==> #[trigger] base[i] <= cur,
        is_sieve_output(known, from, to, out),
        from == cur + 2,
        from % 2 == 1,
        from <= to <= round_bound_spec(last),
        cur >= last >= 3,
        complete ==> primes_up_to(known, last) && primes_up_to(base, cur),
    ensures
        strictly_ascending(base + out),
        forall|i: int| 0 <= i < (base + out).len() ==> #[trigger] (base + out)[i] <= to,
        complete ==> primes_up_to(base + out, to),
{
    let s = base + out;
    lemma_append_keeps_ascending(base, out, cur);
    assert forall|i: int| 0 <= i < s.len() implies #[trigger] s[i] <= to by {
        if i >= base.len() {
            assert(s[i] == out[i - base.len()]);
        }
    }
    if complete {
        assert(to <= last * last);
        lemma_sieve_yields_primes(known, last, from, to, out);
        assert(!is_prime(cur + 1)) by {
            assert((cur + 1) % 2 == 0);
        }
        assert forall|n: int| cur + 1 <= n <= to && #[trigger] is_prime(n) implies exists|i: int|
            0 <= i < out.len() && out[i] == n by {
            if n != cur + 1 {
                assert(from <= n);
            }
        }
        assert(primes_in(out, cur + 1, to));
        lemma_primes_in_concat(base, out, 0, cur, to);
    }
}

/// Appends the results of a round, chunk by chunk in the order of the plan,
/// and returns the largest number the round checked. When the list held all
/// primes up to `last_checked` and each result is the sieve's output for its
/// chunk, it then holds all primes up to the returned number.
pub fn merge_round(primes: &mut Vec<i64>, last_checked: i64, plan: &Vec<ChunkSpec>, results: Vec<Vec<i64>>) -> (new_last: i64)
    requires
        is_contiguous_plan(plan@, last_checked as int, round_bound_spec(last_checked as int)),
        results@.len() == plan@.len(),
        forall|k: int|
            0 <= k < plan@.len() ==> is_sieve_output(
                old(primes)@,
                (#[trigger] plan@[k]).from as int,
                plan@[k].to as int,
                results@[k]@,
            ),
        strictly_ascending(old(primes)@),
        forall|i: int| 0 <= i < old(primes)@.len() ==> #[trigger] old(primes)@[i] <= last_checked,
        last_checked >= 3,
        last_checked % 2 == 1,
    ensures
        final(primes)@ == old(primes)@ + concat_chunks(chunk_views(results@)),
        new_last == plan@.last().to,
        strictly_ascending(final(primes)@),
        forall|i: int| 0 <= i < final(primes)@.len() ==> #[trigger] final(primes)@[i] <= new_last,
        primes_up_to(old(primes)@, last_checked as int) ==> primes_up_to(final(primes)@, new_last as int),
{
    let ghost known = primes@;
    let ghost complete = primes_up_to(known, last_checked as int);
    let ghost rv = chunk_views(results@);
    let mut cur = last_checked;
    let mut k: usize = 0;
    assert(rv.take(0) =~= Seq::<Seq<i64>>::empty());
    while k < plan.len()
        invariant
            is_contiguous_plan(plan@, last_checked as int, round_bound_spec(last_checked as int)),
            results@.len() == plan@.len(),
            rv == chunk_views(results@),
            forall|j: int|
                0 <= j < plan@.len() ==> is_sieve_output(
                    known,
                    (#[trigger] plan@[j]).from as int,
                    plan@[j].to as int,
                    results@[j]@,
                ),
            k <= plan@.len(),
            primes@ == known + concat_chunks(rv.take(k as int)),
            cur == if k == 0 { last_checked } else { plan@[k - 1].to },
            cur >= last_checked,
            cur % 2 == 1,
            strictly_ascending(primes@),
            forall|i: int| 0 <= i < primes@.len() ==> #[trigger] primes@[i] <= cur,
            complete == primes_up_to(known, last_checked as int),
            complete ==> primes_up_to(primes@, cur as int),
            last_checked >= 3,
        decreases plan@.len() - k,
    {
        let chunk = &results[k];
        let spec_k = plan[k];
        assert(spec_k.from == cur + 2);
        let ghost base = primes@;
        let mut i: usize = 0;
        while i < chunk.len()
            invariant
                i <= chunk@.len(),
                primes@ == base + chunk@.take(i as int),
            decreases chunk@.len() - i,
        {
            primes.push(chunk[i]);
            assert(chunk@.take(i as int + 1) =~= chunk@.take(i as int).push(chunk@[i as int]));
            i = i + 1;
        }
        proof {
            assert(chunk@.take(chunk@.len() as int) =~= chunk@);
            assert(rv.take(k as int + 1).drop_last() =~= rv.take(k as int));
            assert(rv[k as int] == chunk@);
            lemma_merge_chunk(known, last_checked as int, base, chunk@, cur as int, spec_k.from as int, spec_k.to as int, complete);
        }
        cur = spec_k.to;
        k = k + 1;
    }
    assert(rv.take(plan@.len() as int) =~= rv);
    cur
}

/// `r` has grown from `seed` up to `limit`: every entry is at most `limit`,
/// `r` holds `target` entries unless `limit` is `i64::MAX`, and `r` holds all
/// primes up to `limit` when `seed` held all primes up to its last entry.
pub open spec fn grown_to(r: Seq<i64>, seed: Seq<i64>, target: int, limit: int) -> bool {
    &&& r.len() >= target || limit == i64::MAX
    &&& forall|i: int| 0 <= i < r.len() ==> #[trigger] r[i] <= limit
    &&& primes_up_to(seed, seed.last() as int) ==> primes_up_to(r, limit)
}

/// Grows `primes_input` round by round until it holds at least
/// `max_primes_count` entries (or every number up to `i64::MAX` has been
/// checked). Chunks span `2 * max_chunk_size` numbers. The result extends the
/// seed, stays strictly ascending, is the seed itself when that is long
/// enough, and, from a seed of all primes up to its last entry, is the list
/// of all primes up to some bound: the first `max_primes_count` primes,
/// possibly followed by more.
pub fn calculate_primes(primes_input: Vec<i64>, max_primes_count: usize, max_chunk_size: usize) -> (r: Vec<i64>)
    requires
        valid_seed(primes_input@),
        max_chunk_size >= 1,
        max_chunk_size as int <= 0x7fff_ffff_ffff_ffff,
    ensures
        r@.len() >= primes_input@.len(),
        r@.take(primes_input@.len() as int) == primes_input@,
        strictly_ascending(r@),
        primes_input@.len() >= max_primes_count ==> r@ == primes_input@,
        exists|limit: int| #[trigger] grown_to(r@, primes_input@, max_primes_count as int, limit),
{
    let ghost seed = primes_input@;
    let ghost complete = primes_up_to(seed, seed.last() as int);
    let chunk_span: u64 = (max_chunk_size as u64) * 2;
    let mut primes = primes_input;
    let mut last = primes[primes.len() - 1];
    proof {
        assert(seed[0] < seed.last());
    }
    let mut done = false;
    while !done
        invariant
            chunk_span == 2 * max_chunk_size,
            1 <= max_chunk_size as int <= 0x7fff_ffff_ffff_ffff,
            complete == primes_up_to(seed, seed.last() as int),
            valid_seed(seed),
            primes@.len() >= seed.len(),
            primes@.take(seed.len() as int) == seed,
            strictly_ascending(primes@),
            last % 2 == 1,
            last >= 3,
            last >= seed.last(),
            forall|i: int| 0 <= i < primes@.len() ==> #[trigger] primes@[i] <= last,
            complete ==> primes_up_to(primes@, last as int),
            seed.len() >= max_primes_count ==> primes@ == seed,
            done ==> (primes@.len() >= max_primes_count || last == i64::MAX),
        decreases i64::MAX - last + (if done { 0int } else { 1int }),
    {
        assert(primes@[0] == seed[0]) by {
            assert(primes@.take(seed.len() as int)[0] == primes@[0]);
        }
        match next_round(&primes, last, max_primes_count, chunk_span) {
            None => {
                done = true;
            },
            Some(plan) => {
                let mut results: Vec<Vec<i64>> = Vec::new();
                let mut k: usize = 0;
                while k < plan.len()
                    invariant
                        k <= plan@.len(),
                        results@.len() == k,
                        is_contiguous_plan(plan@, last as int, round_bound_spec(last as int)),
                        chunks_within(plan@, chunk_span as int),
                        chunk_span == 2 * max_chunk_size,
                        strictly_ascending(primes@),
                        primes@[0] >= 2,
                        primes@.len() > 0,
                        forall|j: int|
                            0 <= j < k ==> is_sieve_output(
                                primes@,
                                (#[trigger] plan@[j]).from as int,
                                plan@[j].to as int,
                                results@[j]@,
                            ),
                    decreases plan@.len() - k,
                {
                    let chunk = plan[k];
                    assert(plan@[k as int].from <= plan@[k as int].to);
                    let found = sieve_primes(&primes, chunk.from, chunk.to);
                    results.push(found);
                    k = k + 1;
                }
                let ghost before = primes@;
                last = merge_round(&mut primes, last, &plan, results);
                proof {
                    assert(primes@.take(seed.len() as int) =~= before.take(seed.len() as int));
                    assert(plan@[0].from <= plan@.last().to);
                }
            },
        }
    }
    assert(grown_to(primes@, seed, max_primes_count as int, last as int));
    primes
}

/// Two ascending lists of all primes up to some bounds agree wherever both
/// have entries.
pub proof fn lemma_prime_lists_agree(a: Seq<i64>, la: int, b: Seq<i64>, lb: int)
    requires
        primes_up_to(a, la),
        primes_up_to(b, lb),
    ensures
        forall|i: int| 0 <= i < a.len() && i < b.len() ==> #[trigger] a[i] == b[i],
{
    assert forall|i: int| 0 <= i < a.len() && i < b.len() implies #[trigger] a[i] == b[i] by {
        lemma_prime_lists_agree_upto(a, la, b, lb, i);
    }
}

proof fn lemma_prime_lists_agree_upto(a: Seq<i64>, la: int, b: Seq<i64>, lb: int, i: int)
    requires
        primes_up_to(a, la),
        primes_up_to(b, lb),
        0 <= i < a.len(),
        i < b.len(),
    ensures
        forall|j: int| 0 <= j <= i ==> #[trigger] a[j] == b[j],
    decreases i,
{
    if i > 0 {
        lemma_prime_lists_agree_upto(a, la, b, lb, i - 1);
    }
    if a[i] < b[i] {
        assert(is_prime(a[i] as int));
        let k = choose|k: int| 0 <= k < b.len() && b[k] == a[i] as int;
        if k < i {
            assert(a[k] == b[k]);
        }
    } else if b[i] < a[i] {
        assert(is_prime(b[i] as int));
        let k = choose|k: int| 0 <= k < a.len() && a[k] == b[i] as int;
        if k < i {
            assert(a[k] == b[k]);
        }
    }
    assert forall|j: int| 0 <= j <= i implies #[trigger] a[j] == b[j] by {
        if j < i {
        }
    }
}

/// Growing the same seed to the same target twice gives the same first
/// `target` entries, whatever the two results' lengths beyond them.
pub proof fn lemma_growth_deterministic(seed: Seq<i64>, target: int, r1: Seq<i64>, l1: int, r2: Seq<i64>, l2: int)
    requires
        primes_up_to(seed, seed.last() as int),
        grown_to(r1, seed, target, l1),
        grown_to(r2, seed, target, l2),
    ensures
        forall|i: int| 0 <= i < target && i < r1.len() && i < r2.len() ==> #[trigger] r1[i] == r2[i],
{
    lemma_prime_lists_agree(r1, l1, r2, l2);
}

} // verus!
