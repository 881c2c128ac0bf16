//! How many odd numbers one chunk of work covers.
use vstd::prelude::*;
use vstd::arithmetic::power::lemma_pow0;
use vstd::arithmetic::power2::{pow2, lemma_pow2, lemma_pow2_unfold, lemma_pow2_strictly_increases};

verus! {

/// Number of nodes of a complete binary tree with `depth` levels, by levels.
pub open spec fn tree_size(depth: nat) -> nat
    decreases depth,
{
    if depth <= 1 {
        1
    } else {
        tree_size((depth - 1) as nat) + pow2((depth - 1) as nat)
    }
}

/// A complete binary tree of `depth >= 1` levels has `2^depth - 1` nodes.
pub proof fn lemma_tree_size_closed_form(depth: nat)
    requires
        depth >= 1,
    ensures
        tree_size(depth) == pow2(depth) - 1,
    decreases depth,
{
    if depth == 1 {
        lemma_pow2_unfold(1);
        lemma_pow2_zero();
    } else {
        lemma_tree_size_closed_form((depth - 1) as nat);
        lemma_pow2_unfold(depth);
    }
}

proof fn lemma_pow2_zero()
    ensures
        pow2(0) == 1,
{
    lemma_pow2(0);
    lemma_pow0(2);
}

/// `2^e`, by doubling, where it fits.
fn power_of_two(e: usize) -> (r: usize)
    requires
        pow2(e as nat) <= usize::MAX,
    ensures
        r as nat == pow2(e as nat),
{
    let mut r: usize = 1;
    let mut i: usize = 0;
    proof {
        lemma_pow2_zero();
    }
    while i < e
        invariant
            i <= e,
            pow2(e as nat) <= usize::MAX,
            r as nat == pow2(i as nat),
        decreases e - i,
    {
        proof {
            lemma_pow2_unfold((i + 1) as nat);
            if i + 1 < e {
                lemma_pow2_strictly_increases((i + 1) as nat, e as nat);
            }
        }
        r = r * 2;
        i = i + 1;
    }
    r
}

/// Number of odd numbers in one chunk for a given tree depth: the node count
/// of a complete binary tree with `depth` levels. Larger depths mean larger,
/// fewer chunks; each chunk holds one mark per odd number it covers.
pub fn calculate_tree_size(depth: usize) -> (r: usize)
    requires
        depth >= 1,
        pow2(depth as nat) - 1 <= usize::MAX,
    ensures
        r as nat == tree_size(depth as nat),
        r as nat == pow2(depth as nat) - 1,
    decreases depth,
{
    proof {
        lemma_tree_size_closed_form(depth as nat);
        lemma_pow2_unfold(depth as nat);
        if depth > 1 {
            lemma_pow2_unfold((depth - 1) as nat);
        }
    }
    if depth == 1 {
        return 1;
    }
    let leaves = power_of_two(depth - 1);
    let below = calculate_tree_size(depth - 1);
    proof {
        lemma_pow2_unfold(depth as nat);
    }
    below + leaves
}

} // verus!
