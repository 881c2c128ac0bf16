//! Where the growth loop starts: a loaded list of primes when it is usable,
//! else `[2, 3]`; and which of several saved files is the most recent.
use vstd::prelude::*;
use vstd::utf8::encode_utf8;
use crate::engine::valid_seed;
use crate::primes::strictly_ascending;

verus! {

/// The seed used when nothing usable was loaded.
pub open spec fn default_seed() -> Seq<i64> {
    seq![2i64, 3i64]
}

/// Whether `v` can seed the growth loop (see `valid_seed`).
pub fn is_valid_seed(v: &Vec<i64>) -> (r: bool)
    ensures
        r == valid_seed(v@),
{
    let n = v.len();
    if n < 2 || v[0] != 2 || v[n - 1] % 2 != 1 {
        return false;
    }
    let mut i: usize = 1;
    while i < n
        invariant
            1 <= i <= n,
            n == v@.len(),
            strictly_ascending(v@.take(i as int)),
        decreases n - i,
    {
        if v[i - 1] >= v[i] {
            assert(!strictly_ascending(v@)) by {
                assert(v@[i - 1] >= v@[i as int]);
            }
            return false;
        }
        let ghost prev = v@.take(i as int);
        let ghost next = v@.take(i + 1);
        assert forall|a: int, b: int| 0 <= a < b < i + 1 implies #[trigger] next[a] < #[trigger] next[b] by {
            if b < i {
                assert(prev[a] < prev[b]);
            } else if a < i - 1 {
                assert(prev[a] < prev[i - 1]);
            }
        }
        i = i + 1;
    }
    assert(v@.take(n as int) =~= v@);
    true
}

/// The seed used when nothing usable was loaded: `[2, 3]`.
pub fn get_default_primes_input() -> (r: Vec<i64>)
    ensures
        r@ == default_seed(),
        valid_seed(r@),
{
    let r = vec![2i64, 3i64];
    assert(r@ =~= default_seed());
    r
}

/// The seed of the growth loop: the loaded list when there is one and it is
/// usable, else `[2, 3]`.
pub fn get_primes_input(loaded: Option<Vec<i64>>) -> (r: Vec<i64>)
    ensures
        valid_seed(r@),
        r@ == match loaded {
            Some(x) => if valid_seed(x@) {
                x@
            } else {
                default_seed()
            },
            None => default_seed(),
        },
{
    match loaded {
        Some(x) => {
            if is_valid_seed(&x) {
                x
            } else {
                get_default_primes_input()
            }
        },
        None => get_default_primes_input(),
    }
}

/// How many bytes of `b` are ASCII digits.
pub open spec fn digit_bytes(b: Seq<u8>) -> nat
    decreases b.len(),
{
    if b.len() == 0 {
        0
    } else {
        digit_bytes(b.drop_last()) + if 48 <= b.last() <= 57 {
            1nat
        } else {
            0nat
        }
    }
}

/// A name that natural ordering can compare safely: digit runs are summed in
/// a `u32`, so at most nine ASCII digits.
pub open spec fn comparable_name(s: Seq<char>) -> bool {
    digit_bytes(encode_utf8(s)) <= 9
}

/// Whether `a` comes after `b` in natural order (runs of digits compared by
/// their value).
pub uninterp spec fn natural_order_greater(a: Seq<char>, b: Seq<char>) -> bool;

/// Relies on human_sort::compare: it orders two names naturally, comparing
/// runs of digits by value; it sums each run in a `u32`, which the bound on
/// digits keeps from overflowing.
#[verifier::external_body]
fn natural_greater(a: &str, b: &str) -> (r: bool)
    requires
        comparable_name(a@),
        comparable_name(b@),
    ensures
        r == natural_order_greater(a@, b@),
{
    matches!(human_sort::compare(a, b), std::cmp::Ordering::Greater)
}

/// How many bytes of `s` are ASCII digits.
fn count_digits(s: &str) -> (n: usize)
    ensures
        n == digit_bytes(encode_utf8(s@)),
{
    let b = s.as_bytes();
    let mut i: usize = 0;
    let mut n: usize = 0;
    while i < b.len()
        invariant
            i <= b@.len(),
            b@ == encode_utf8(s@),
            n == digit_bytes(b@.take(i as int)),
            n <= i,
        decreases b@.len() - i,
    {
        assert(b@.take(i as int + 1).drop_last() =~= b@.take(i as int));
        if b[i] >= 48 && b[i] <= 57 {
            n = n + 1;
        }
        i = i + 1;
    }
    assert(b@.take(b@.len() as int) =~= b@);
    n
}

/// The most recent of `names` by natural order, starting from the empty name
/// and taking each comparable name that comes after the best so far.
pub open spec fn latest_name(names: Seq<Seq<char>>) -> Seq<char>
    decreases names.len(),
{
    if names.len() == 0 {
        Seq::empty()
    } else {
        let best = latest_name(names.drop_last());
        if comparable_name(names.last()) && natural_order_greater(names.last(), best) {
            names.last()
        } else {
            best
        }
    }
}

pub open spec fn name_views(names: Seq<String>) -> Seq<Seq<char>> {
    names.map_values(|s: String| s@)
}

/// The most recent of several saved file names, by natural order (so that
/// `"1000.csv"` comes after `"999.csv"`); names with more than nine digits are
/// passed over. Empty when no name is taken.
pub fn latest_file_name(names: &Vec<String>) -> (r: String)
    ensures
        r@ == latest_name(name_views(names@)),
{
    let ghost views = name_views(names@);
    let mut best = String::new();
    let mut i: usize = 0;
    proof {
        assert(views.take(0) =~= Seq::<Seq<char>>::empty());
        assert(encode_utf8(Seq::<char>::empty()) =~= Seq::<u8>::empty()) by {
            reveal_with_fuel(encode_utf8, 1);
        }
    }
    while i < names.len()
        invariant
            i <= names@.len(),
            views == name_views(names@),
            best@ == latest_name(views.take(i as int)),
            comparable_name(best@),
        decreases names@.len() - i,
    {
        let name = names[i].as_str();
        assert(views.take(i as int + 1).drop_last() =~= views.take(i as int));
        assert(views.take(i as int + 1).last() == name@);
        if count_digits(name) <= 9 {
            if natural_greater(name, best.as_str()) {
                best = names[i].clone();
            }
        }
        i = i + 1;
    }
    assert(views.take(names@.len() as int) =~= views);
    best
}

} // verus!
