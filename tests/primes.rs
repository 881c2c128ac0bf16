use prime_sieve::chunk_size::calculate_tree_size;
use prime_sieve::engine::{
    calculate_primes, estimate_chunks, merge_round, next_round, plan_round, round_bound, ChunkSpec,
};
use prime_sieve::seed::{get_default_primes_input, get_primes_input, is_valid_seed, latest_file_name};
use prime_sieve::sieve::sieve_primes;

fn is_prime_by_division(n: i64) -> bool {
    if n < 2 {
        return false;
    }
    let mut d: i64 = 2;
    while d * d <= n {
        if n % d == 0 {
            return false;
        }
        d += 1;
    }
    true
}

fn primes_by_division(from: i64, to: i64) -> Vec<i64> {
    (from..=to).filter(|&n| is_prime_by_division(n)).collect()
}

#[test]
fn tree_size_is_two_to_the_depth_minus_one() {
    assert_eq!(calculate_tree_size(1), 1);
    assert_eq!(calculate_tree_size(2), 3);
    assert_eq!(calculate_tree_size(3), 7);
    assert_eq!(calculate_tree_size(13), 8191);
    for depth in 1..=40usize {
        assert_eq!(calculate_tree_size(depth), (1usize << depth) - 1);
    }
}

#[test]
fn tree_size_largest_depth() {
    assert_eq!(calculate_tree_size(64), usize::MAX);
}

#[test]
fn sieve_matches_trial_division() {
    let known = primes_by_division(2, 100);
    for &(from, to) in &[(101i64, 10_001i64), (103, 105), (9_999, 10_000), (101, 101), (127, 127)] {
        let found = sieve_primes(&known, from, to);
        assert_eq!(found, primes_by_division(from, to), "range {}..={}", from, to);
        assert!(found.windows(2).all(|w| w[0] < w[1]));
        assert!(found.iter().all(|n| n % 2 == 1));
    }
}

#[test]
fn sieve_excludes_perfect_squares() {
    assert_eq!(sieve_primes(&vec![2, 3, 5], 7, 25), vec![7, 11, 13, 17, 19, 23]);
    assert_eq!(sieve_primes(&vec![2, 3, 5, 7], 11, 49), vec![11, 13, 17, 19, 23, 29, 31, 37, 41, 43, 47]);
    assert_eq!(sieve_primes(&vec![2, 3], 5, 9), vec![5, 7]);
    assert_eq!(sieve_primes(&vec![2, 3, 5, 7, 11, 13], 167, 169), vec![167]);
}

#[test]
fn sieve_keeps_what_no_known_prime_strikes() {
    // 25 stays when 5 is not known: the caller must supply the primes
    assert_eq!(sieve_primes(&vec![2, 3], 5, 25), vec![5, 7, 11, 13, 17, 19, 23, 25]);
    assert_eq!(sieve_primes(&vec![], 1, 9), vec![1, 3, 5, 7, 9]);
}

#[test]
fn round_bound_squares_and_saturates() {
    assert_eq!(round_bound(3), 9);
    assert_eq!(round_bound(13), 169);
    assert_eq!(round_bound(3_037_000_499), 9_223_372_030_926_249_001);
    assert_eq!(round_bound(3_037_000_501), i64::MAX);
    assert_eq!(round_bound(i64::MAX), i64::MAX);
}

#[test]
fn estimate_follows_density() {
    assert_eq!(estimate_chunks(8, 3, 2, 14), 1);
    assert_eq!(estimate_chunks(6, 9, 4, 14), 1);
    assert_eq!(estimate_chunks(100_000, 1_000_000, 1_000, 2), 50_000_001);
    assert_eq!(estimate_chunks(0, 1_000, 10, 2), 1);
    assert_eq!(
        estimate_chunks(usize::MAX, i64::MAX, 1, 1),
        (usize::MAX as u128) * (i64::MAX as u128) + 1
    );
}

#[test]
fn round_stays_below_square_of_last_checked() {
    let plan = plan_round(13, round_bound(13), 100, 14);
    assert_eq!(plan.len(), 12);
    assert!(plan.iter().all(|c| c.to <= 169));
    assert_eq!(plan[0], ChunkSpec { from: 15, to: 27 });
    assert_eq!(plan[10], ChunkSpec { from: 155, to: 167 });
    assert_eq!(plan[11], ChunkSpec { from: 169, to: 169 });
    for w in plan.windows(2) {
        assert_eq!(w[1].from, w[0].to + 2);
    }
}

#[test]
fn round_stops_at_estimate() {
    let plan = plan_round(13, 169, 2, 14);
    assert_eq!(plan, vec![ChunkSpec { from: 15, to: 27 }, ChunkSpec { from: 29, to: 41 }]);
    let plan = plan_round(3, 9, 5, 16_382);
    assert_eq!(plan, vec![ChunkSpec { from: 5, to: 9 }]);
}

#[test]
fn no_round_once_enough_primes() {
    assert!(next_round(&vec![2, 3], 3, 2, 14).is_none());
    assert!(next_round(&vec![2, 3], 3, 1, 14).is_none());
    assert!(next_round(&vec![2, 3], i64::MAX, 100, 14).is_none());
    let plan = next_round(&vec![2, 3], 3, 10, 14).unwrap();
    assert_eq!(plan, vec![ChunkSpec { from: 5, to: 9 }]);
}

#[test]
fn merge_appends_in_plan_order() {
    let mut primes = vec![2, 3, 5, 7, 11, 13];
    let plan = plan_round(13, 169, 3, 14);
    let results: Vec<Vec<i64>> = plan.iter().map(|c| sieve_primes(&primes, c.from, c.to)).collect();
    let last = merge_round(&mut primes, 13, &plan, results);
    assert_eq!(last, 55);
    assert_eq!(primes, primes_by_division(2, 55));
}

#[test]
fn target_one_keeps_the_seed() {
    let r = calculate_primes(get_default_primes_input(), 1, calculate_tree_size(13));
    assert_eq!(r[..1], [2]);
    assert_eq!(r, vec![2, 3]);
}

#[test]
fn target_two_runs_no_round() {
    let r = calculate_primes(vec![2, 3], 2, calculate_tree_size(13));
    assert_eq!(r, vec![2, 3]);
}

#[test]
fn first_ten_primes_at_depth_three() {
    let r = calculate_primes(get_default_primes_input(), 10, calculate_tree_size(3));
    assert!(r.len() >= 10);
    assert_eq!(r[..10], [2, 3, 5, 7, 11, 13, 17, 19, 23, 29]);
    assert_eq!(r[9], 29);
    assert_eq!(r, primes_by_division(2, *r.last().unwrap()));
}

#[test]
fn six_primes_from_two_and_three() {
    let r = calculate_primes(vec![2, 3], 6, calculate_tree_size(13));
    assert!(r.len() >= 6);
    assert_eq!(r[..6], [2, 3, 5, 7, 11, 13]);
}

#[test]
fn growth_is_deterministic() {
    let a = calculate_primes(vec![2, 3], 500, calculate_tree_size(4));
    let b = calculate_primes(vec![2, 3], 500, calculate_tree_size(4));
    assert_eq!(a[..500], b[..500]);
    let c = calculate_primes(vec![2, 3], 500, calculate_tree_size(9));
    assert_eq!(a[..500], c[..500]);
}

#[test]
fn growth_from_longer_seed_matches_trial_division() {
    let seed = primes_by_division(2, 101);
    let r = calculate_primes(seed.clone(), 2_000, calculate_tree_size(6));
    assert!(r.len() >= 2_000);
    assert_eq!(r[..seed.len()], seed[..]);
    assert_eq!(r, primes_by_division(2, *r.last().unwrap()));
    assert_eq!(r[1_999], 17_389);
}

#[test]
fn seed_falls_back_to_default() {
    assert_eq!(get_default_primes_input(), vec![2, 3]);
    assert_eq!(get_primes_input(None), vec![2, 3]);
    assert_eq!(get_primes_input(Some(vec![])), vec![2, 3]);
    assert_eq!(get_primes_input(Some(vec![2])), vec![2, 3]);
    assert_eq!(get_primes_input(Some(vec![3, 5])), vec![2, 3]);
    assert_eq!(get_primes_input(Some(vec![2, 5, 3])), vec![2, 3]);
    assert_eq!(get_primes_input(Some(vec![2, 3, 5, 7, 11])), vec![2, 3, 5, 7, 11]);
}

#[test]
fn seed_validity() {
    assert!(is_valid_seed(&vec![2, 3]));
    assert!(is_valid_seed(&vec![2, 3, 5, 7]));
    assert!(!is_valid_seed(&vec![2, 3, 3, 5]));
    assert!(!is_valid_seed(&vec![2, 3, 4]));
    assert!(!is_valid_seed(&vec![2]));
}

#[test]
fn latest_file_by_natural_order() {
    let names: Vec<String> = vec!["2.csv".to_string(), "10.csv".to_string(), "1.csv".to_string()];
    assert_eq!(latest_file_name(&names), "10.csv");
    let names: Vec<String> = vec!["999.csv".to_string(), "1000.csv".to_string()];
    assert_eq!(latest_file_name(&names), "1000.csv");
    assert_eq!(latest_file_name(&vec![]), "");
}

#[test]
fn latest_file_passes_over_long_digit_runs() {
    let names: Vec<String> = vec!["5.csv".to_string(), "12345678901.csv".to_string()];
    assert_eq!(latest_file_name(&names), "5.csv");
}
