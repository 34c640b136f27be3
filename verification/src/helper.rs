//! Size arithmetic for complete binary trees stored flat.
//!
//! A tree over `n` leaves (with `n` a power of two) occupies exactly
//! `2n - 1` slots: slot 0 for the root and slots `1..=2n-2` for the rest.

use vstd::prelude::*;

verus! {

/// Whether `n` is a power of two (so `n >= 1`).
pub open spec fn is_power_of_two(n: nat) -> bool
    decreases n,
{
    if n == 0 {
        false
    } else if n == 1 {
        true
    } else {
        n % 2 == 0 && is_power_of_two(n / 2)
    }
}

/// Total node count of a tree over `n` leaves, as the builder derives it:
/// one slot for a lone leaf, otherwise a full row of `n` plus the tree over
/// the `n / 2` parents of that row.
pub open spec fn spec_tree_size(n: nat) -> nat
    decreases n,
{
    if n <= 1 {
        1
    } else {
        n + spec_tree_size(n / 2)
    }
}

/// For every power of two `n`, the recursive size formula closes to `2n - 1`.
pub proof fn lemma_tree_size_power_of_two(n: nat)
    requires
        is_power_of_two(n),
    ensures
        spec_tree_size(n) == 2 * n - 1,
    decreases n,
{
    if n > 1 {
        lemma_tree_size_power_of_two(n / 2);
    }
}

/// Powers of two do not interleave: a smaller one is at most half of a
/// larger one.
pub proof fn lemma_pow2_no_between(a: nat, b: nat)
    requires
        is_power_of_two(a),
        is_power_of_two(b),
        a < b,
    ensures
        2 * a <= b,
    decreases b,
{
    if a > 1 {
        lemma_pow2_no_between(a / 2, b / 2);
    }
}

/// Decides whether `n` is a power of two by repeated halving.
pub fn is_power_of_two_exec(n: u64) -> (r: bool)
    ensures
        r == is_power_of_two(n as nat),
{
    if n == 0 {
        return false;
    }
    let mut m: u64 = n;
    while m > 1
        invariant
            1 <= m <= n,
            is_power_of_two(n as nat) == is_power_of_two(m as nat),
        decreases m,
    {
        if m % 2 != 0 {
            return false;
        }
        m = m / 2;
    }
    true
}

/// Returns the size of the whole tree given the number of leafs.
pub fn calculate_tree_size(leafs: u64) -> (size: u64)
    requires
        is_power_of_two(leafs as nat),
        leafs <= 0x8000_0000_0000_0000,
    ensures
        size == spec_tree_size(leafs as nat),
        size == 2 * leafs - 1,
    decreases leafs,
{
    proof {
        lemma_tree_size_power_of_two(leafs as nat);
    }
    if leafs == 1 {
        return leafs;
    }

    return leafs + calculate_tree_size(leafs / 2);
}

} // verus!
